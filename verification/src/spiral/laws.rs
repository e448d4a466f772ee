//! What the spiral bleed promises: without a blur there is one tap, uniform
//! coverage stays, and uncovered ground keeps its color.

use vstd::arithmetic::power2::pow2;
use vstd::prelude::*;

use super::taps::lemma_tap_part;
use super::{
    blurs, hash_of_sine, hash_phase, spiral_of, spiral_start, tap_angle, tap_average,
    tap_coordinate, tap_distance, tap_sums, taps_at, turns_alike, AQUA_BLUR_TAPS,
};
use crate::single::arith::{absolute, product, quotient, sum};
use crate::single::convert::{one_unit, whole};
use crate::single::laws::{
    law_integers_are_exact, law_rounding_is_exact, law_zero_absorbs, law_zero_is_neutral,
    lemma_constants, lemma_product_rank, lemma_quotient_rank, lemma_rank_between, lemma_rank_error,
    lemma_rank_is_value, lemma_scaled_integer, lemma_small_sum_is_exact, lemma_sum_rank,
};
use crate::single::nearest::lemma_units_order;
use crate::single::order::{at_most, below, law_order_is_by_value};
use crate::single::root::square_root;
use crate::single::rounding::{lemma_nearest_of_zero, nearest};
use crate::single::{magnitude_units, signed, Single, HALF, INFINITE, ONE, ZERO};

verus! {

/// Where no tap is covered the mean alpha is zero and the scale is one.
pub proof fn law_uncovered_keeps_unit_scale(taps: Seq<(Single, Single)>)
    requires
        forall|k: int| 0 <= k < taps.len() ==> (#[trigger] taps[k]).0.zero(),
    ensures
        tap_average(taps).0.zero(),
        tap_average(taps).1.bits == ONE,
{
    lemma_constants();
    lemma_uncovered_sum(taps);
    law_integers_are_exact(AQUA_BLUR_TAPS as nat);
    let count = whole(AQUA_BLUR_TAPS as nat);
    let alphas = tap_sums(taps).0;
    lemma_quotient_rank(alphas, count);
    lemma_nearest_of_zero(count.units() as nat);
    assert(0 * one_unit() == 0);
}

proof fn lemma_uncovered_sum(taps: Seq<(Single, Single)>)
    requires
        forall|k: int| 0 <= k < taps.len() ==> (#[trigger] taps[k]).0.zero(),
    ensures
        tap_sums(taps).0.zero(),
    decreases taps.len(),
{
    if taps.len() > 0 {
        assert forall|k: int| 0 <= k < taps.drop_last().len() implies (#[trigger] taps.drop_last(
        )[k]).0.zero() by {
            assert(taps[k].0.zero());
        }
        lemma_uncovered_sum(taps.drop_last());
        law_zero_is_neutral(tap_sums(taps.drop_last()).0, taps.last().0);
        assert(taps[taps.len() - 1].0.zero());
    }
}

/// The distance of a tap from the origin of a disk without extent.
proof fn lemma_no_distance(blur: Single, k: nat)
    requires
        blur.zero(),
        k < AQUA_BLUR_TAPS,
    ensures
        tap_distance(blur, k).zero(),
{
    lemma_tap_part(k);
    law_zero_absorbs(
        square_root(
            quotient(sum(whole(k), Single { bits: HALF }), whole(AQUA_BLUR_TAPS as nat)),
        ),
        blur,
    );
}

/// Without a blur and a bias every tap lies at the sample, whatever sine and
/// cosine answer.
pub proof fn law_no_blur_is_one_tap(
    sample: Single,
    bias: Single,
    direction: Single,
    blur: Single,
    k: nat,
)
    requires
        !sample.nan(),
        bias.zero(),
        direction.finite(),
        blur.zero(),
        k < AQUA_BLUR_TAPS,
    ensures
        tap_coordinate(sample, bias, direction, tap_distance(blur, k)).rank() == sample.rank(),
        !tap_coordinate(sample, bias, direction, tap_distance(blur, k)).nan(),
{
    lemma_no_distance(blur, k);
    let d = tap_distance(blur, k);
    law_zero_absorbs(direction, d);
    law_zero_is_neutral(sample, bias);
    law_zero_is_neutral(sum(sample, bias), product(direction, d));
}

/// `k` copies of `a`, added up one by one.
pub open spec fn repeated_sum(a: Single, k: nat) -> Single
    decreases k,
{
    if k == 0 {
        Single { bits: ZERO }
    } else {
        sum(repeated_sum(a, (k - 1) as nat), a)
    }
}

/// The value of the greatest finite number, in units.
pub open spec fn greatest_units() -> nat {
    magnitude_units((INFINITE - 1) as nat)
}

/// Adding up copies is off by little: the sums on the way, each of which is
/// rounded, come to half of `k * (k + 1)` copies, and 2^-24 of that is all.
pub proof fn law_repeated_sum_is_near(a: Single, k: nat)
    requires
        a.finite(),
        0 <= a.units(),
        64 * a.units() <= greatest_units(),
        k <= AQUA_BLUR_TAPS,
    ensures
        repeated_sum(a, k).finite(),
        0 <= repeated_sum(a, k).units(),
        0x200_0000 * absolute(repeated_sum(a, k).units() - k * a.units()) <= (k * (k + 1))
            * a.units(),
{
    let v = a.units();
    lemma_repeated_sum(a, k);
    if k == 0 {
        assert(0 * v == 0);
    } else {
        let x = absolute(repeated_sum(a, k).units() - k * v);
        let b = sum_bound(k as int);
        let kk = k * (k + 1);
        assert(2 * (b * v) <= 1000 * (kk * v)) by (nonlinear_arith)
            requires
                b == 500 * kk - 1000 + k,
                k <= 48,
                0 <= v,
        {
            assert(b * v == 500 * (kk * v) - (1000 - k) * v);
            assert((1000 - k) * v >= 0);
        }
    }
}

/// A thousand times the bound on the error of `k` copies, in copies.
spec fn sum_bound(k: int) -> int {
    500 * (k * (k + 1)) - 1000 + k
}

proof fn lemma_repeated_sum(a: Single, k: nat)
    requires
        a.finite(),
        0 <= a.units(),
        64 * a.units() <= greatest_units(),
        k <= AQUA_BLUR_TAPS,
    ensures
        repeated_sum(a, k).finite(),
        0 <= repeated_sum(a, k).units(),
        k == 0 ==> repeated_sum(a, k).units() == 0,
        k > 0 ==> 1000 * (0x100_0000 * absolute(repeated_sum(a, k).units() - k * a.units()))
            <= sum_bound(k as int) * a.units(),
    decreases k,
{
    let v = a.units();
    let zero = Single { bits: ZERO };
    lemma_constants();
    if k == 0 {
    } else if k == 1 {
        assert(repeated_sum(a, 0) == zero);
        law_zero_is_neutral(a, zero);
        lemma_rank_is_value(repeated_sum(a, 1), a);
        assert(1 * v == v);
        assert(sum_bound(1) * v >= 0) by (nonlinear_arith)
            requires
                sum_bound(1) >= 0,
                v >= 0,
        ;
    } else {
        let j = (k - 1) as nat;
        lemma_repeated_sum(a, j);
        let before = repeated_sum(a, j);
        let s = repeated_sum(a, k);
        lemma_sum_rank(before, a);
        let num = before.units() + v;
        let d = absolute(before.units() - j * v);
        assert(k * v == j * v + v && k * v <= 48 * v) by (nonlinear_arith)
            requires
                k == j + 1,
                k <= 48,
                0 <= v,
        ;
        assert(sum_bound(j as int) <= 0x100_0000) by (nonlinear_arith)
            requires
                j <= 48,
                sum_bound(j as int) == 500 * (j * (j + 1)) - 1000 + j,
        ;
        let b = sum_bound(j as int);
        assert(b * v <= 0x100_0000 * v) by (nonlinear_arith)
            requires
                b <= 0x100_0000,
                0 <= v,
        ;
        assert(1000 * d <= v);
        lemma_rank_between(s, num, 1, zero, Single { bits: (INFINITE - 1) as u32 });
        lemma_rank_error(s, num, 1);
        assert(s.units() * 1 == s.units());
        if num < 0x80_0000 {
            lemma_small_sum_is_exact(s, num);
        }
        let e = absolute(s.units() - num);
        assert(0x100_0000 * e <= num);
        assert(absolute(s.units() - k * v) <= d + e);
        assert(sum_bound(k as int) * v == b * v + 1000 * (k * v) + v) by (nonlinear_arith)
            requires
                k == j + 1,
                b == 500 * (j * (j + 1)) - 1000 + j,
                sum_bound(k as int) == 500 * (k * (k + 1)) - 1000 + k,
        ;
    }
}

/// The sums over taps of uniform coverage.
proof fn lemma_uniform_sums(taps: Seq<(Single, Single)>, a: Single, s: Single)
    requires
        forall|k: int| 0 <= k < taps.len() ==> #[trigger] taps[k] == (a, s),
    ensures
        tap_sums(taps) == (repeated_sum(a, taps.len()), repeated_sum(product(a, s), taps.len())),
    decreases taps.len(),
{
    if taps.len() > 0 {
        assert forall|k: int| 0 <= k < taps.drop_last().len() implies #[trigger] taps.drop_last()[k]
            == (a, s) by {
            assert(taps[k] == (a, s));
        }
        lemma_uniform_sums(taps.drop_last(), a, s);
        assert(taps[taps.len() - 1] == (a, s));
    }
}

/// Uniform coverage keeps its alpha: the mean is off by at most twenty-six times
/// 2^-24 of it, or by half of the least positive number.
pub proof fn law_uniform_alpha_stays(taps: Seq<(Single, Single)>, a: Single, s: Single)
    requires
        taps.len() == AQUA_BLUR_TAPS,
        forall|k: int| 0 <= k < taps.len() ==> #[trigger] taps[k] == (a, s),
        a.finite(),
        0 <= a.units(),
        64 * a.units() <= greatest_units(),
    ensures
        tap_average(taps).0.finite(),
        0x100_0000 * absolute(tap_average(taps).0.units() - a.units()) <= 26 * a.units()
            + 0x80_0000,
{
    let v = a.units();
    let w = one_unit();
    let zero = Single { bits: ZERO };
    lemma_constants();
    lemma_uniform_sums(taps, a, s);
    law_repeated_sum_is_near(a, 48);
    law_integers_are_exact(48);
    let total = repeated_sum(a, 48);
    let count = whole(48);
    let t = total.units();
    assert((48 * 49) * v == 2352 * v);
    let x = quotient(total, count);
    lemma_quotient_rank(total, count);
    let den = (48 * w) as nat;
    let num = t * w;
    assert(0 * den <= num && num <= t * den) by (nonlinear_arith)
        requires
            num == t * w,
            den == 48 * w,
            0 <= t,
            0 <= w,
    {
        assert(t * (48 * w) == 48 * (t * w));
        assert(t * w >= 0);
    }
    lemma_rank_between(x, num, den, zero, total);
    lemma_rank_error(x, num, den);
    let off = absolute(48 * x.units() - t);
    assert(absolute(x.units() * den - num) == off * w) by (nonlinear_arith)
        requires
            den == 48 * w,
            num == t * w,
            off == absolute(48 * x.units() - t),
            w > 0,
    {
        let z = 48 * x.units() - t;
        assert(x.units() * (48 * w) - t * w == z * w);
        if z < 0 {
            assert(z * w < 0);
            assert((-z) * w == -(z * w));
        } else {
            assert(z * w >= 0);
        }
    }
    assert(0x100_0000 * off <= t + 0x80_0000 * 48) by (nonlinear_arith)
        requires
            0x100_0000 * (off * w) <= num || 0x100_0000 * (off * w) <= 0x80_0000 * den,
            num == t * w,
            den == 48 * w,
            t >= 0,
            w > 0,
    {
        assert((0x100_0000 * off) * w == 0x100_0000 * (off * w));
        assert(0x80_0000 * (48 * w) == (0x80_0000 * 48) * w);
        assert((0x100_0000 * off) * w <= (t + 0x80_0000 * 48) * w);
    }
    assert(48 * (x.units() - v) == (48 * x.units() - t) + (t - 48 * v));
    assert(absolute(48 * (x.units() - v)) == 48 * absolute(x.units() - v));
}

/// Uniform coverage keeps its scale: the mean is off by at most fifty-two
/// times 2^-24 of it, or by half of the least positive number.
pub proof fn law_uniform_scale_stays(taps: Seq<(Single, Single)>, a: Single, s: Single)
    requires
        taps.len() == AQUA_BLUR_TAPS,
        forall|k: int| 0 <= k < taps.len() ==> #[trigger] taps[k] == (a, s),
        a.finite(),
        0 < a.units() <= one_unit(),
        s.finite(),
        64 * s.units() <= greatest_units(),
        a.units() * s.units() >= 0x80_0000 * one_unit(),
    ensures
        tap_average(taps).1.finite(),
        0x100_0000 * absolute(tap_average(taps).1.units() - s.units()) <= 52 * s.units()
            + 0x80_0000,
{
    let v = a.units();
    let c = s.units();
    let w = one_unit();
    let zero = Single { bits: ZERO };
    let one = Single { bits: ONE };
    lemma_constants();
    assert(c > 0) by (nonlinear_arith)
        requires
            v * c >= 0x80_0000 * w,
            v > 0,
            w > 0,
    ;
    let greatest = Single { bits: (INFINITE - 1) as u32 };
    assert(greatest.units() == greatest_units());
    assert(64 * v <= greatest_units()) by {
        law_integers_are_exact(64);
        lemma_units_order(whole(64).magnitude(), (INFINITE - 1) as nat);
    }
    let p = product(a, s);
    lemma_product_rank(a, s);
    assert(0 * w <= v * c && v * c <= c * w) by (nonlinear_arith)
        requires
            0 < v <= w,
            0 < c,
    ;
    lemma_rank_between(p, v * c, w, zero, s);
    lemma_rank_error(p, v * c, w);
    let q = p.units();
    lemma_uniform_sums(taps, a, s);
    law_repeated_sum_is_near(a, 48);
    law_repeated_sum_is_near(p, 48);
    let total = repeated_sum(a, 48);
    let scaled = repeated_sum(p, 48);
    let t = total.units();
    let z = scaled.units();
    assert((48 * 49) * v == 2352 * v && (48 * 49) * q == 2352 * q);
    assert(t >= 47 * v);
    law_order_is_by_value(zero, total);
    assert(below(zero, total));
    let x = quotient(scaled, total);
    lemma_quotient_rank(scaled, total);
    let num = z * w;
    // The quotient is at most twice the scale.
    assert(q * w <= 2 * (v * c));
    assert(z <= 49 * q);
    assert(0 * t <= num && num <= greatest.units() * t) by (nonlinear_arith)
        requires
            num == z * w,
            0 <= z <= 49 * q,
            q * w <= 2 * (v * c),
            t >= 47 * v,
            64 * c <= greatest.units(),
            v > 0,
            c > 0,
            w > 0,
    {
        assert(z * w <= (49 * q) * w);
        assert((49 * q) * w == 49 * (q * w));
        assert(z * w <= 98 * (v * c));
        assert(greatest.units() * t >= (64 * c) * t);
        assert((64 * c) * t >= (64 * c) * (47 * v));
        assert((64 * c) * (47 * v) == 3008 * (v * c));
        assert(v * c > 0);
    }
    lemma_rank_between(x, num, t as nat, zero, greatest);
    lemma_rank_error(x, num, t as nat);
    lemma_scale_bound(v, c, w as int, q, t, z, x.units());
}

/// The errors of a weighted mean, put together.
proof fn lemma_scale_bound(v: int, c: int, w: int, q: int, t: int, z: int, x: int)
    requires
        v > 0,
        c > 0,
        w > 0,
        q >= 0,
        z >= 0,
        0x100_0000 * absolute(q * w - v * c) <= v * c,
        0x100_0000 * absolute(t - 48 * v) <= 1176 * v,
        0x100_0000 * absolute(z - 48 * q) <= 1176 * q,
        0x100_0000 * absolute(x * t - z * w) <= (if z * w >= 0x80_0000 * t {
            z * w
        } else {
            0x80_0000 * t
        }),
    ensures
        0x100_0000 * absolute(x - c) <= 52 * c + 0x80_0000,
{
    let big: int = 0x100_0000;
    let vc = v * c;
    let qw = q * w;
    assert(vc > 0) by (nonlinear_arith)
        requires
            v > 0,
            c > 0,
            vc == v * c,
    ;
    let e1 = x * t - z * w;
    let e2 = z - 48 * q;
    let e3 = qw - vc;
    let e4 = t - 48 * v;
    assert((x - c) * t == e1 + e2 * w + 48 * e3 - e4 * c) by (nonlinear_arith)
        requires
            e1 == x * t - z * w,
            e2 == z - 48 * q,
            e3 == qw - vc,
            e4 == t - 48 * v,
            qw == q * w,
            vc == v * c,
    ;
    assert(-(1176 * qw) <= big * (e2 * w) <= 1176 * qw) by (nonlinear_arith)
        requires
            -(1176 * q) <= big * e2 <= 1176 * q,
            w > 0,
            qw == q * w,
    {
        assert((big * e2) * w == big * (e2 * w));
        assert((1176 * q) * w == 1176 * (q * w));
        assert((big * e2) * w <= (1176 * q) * w);
        assert((big * e2) * w >= -((1176 * q) * w));
    }
    assert(-(1176 * vc) <= big * (e4 * c) <= 1176 * vc) by (nonlinear_arith)
        requires
            -(1176 * v) <= big * e4 <= 1176 * v,
            c > 0,
            vc == v * c,
    {
        assert((big * e4) * c == big * (e4 * c));
        assert((1176 * v) * c == 1176 * (v * c));
        assert((big * e4) * c <= (1176 * v) * c);
        assert((big * e4) * c >= -((1176 * v) * c));
    }
    assert(z * w == e2 * w + 48 * qw) by (nonlinear_arith)
        requires
            e2 == z - 48 * q,
            qw == q * w,
    ;
    assert(z * w >= 0) by (nonlinear_arith)
        requires
            z >= 0,
            w > 0,
    ;
    assert(1000 * (z * w) <= 48001 * qw);
    assert(1000 * qw <= 1001 * vc);
    let y = (x - c) * t;
    let d = absolute(x - c);
    assert(absolute(y) == d * t) by (nonlinear_arith)
        requires
            y == (x - c) * t,
            d == absolute(x - c),
            t > 0,
    {
        if x - c < 0 {
            assert((x - c) * t <= 0);
            assert((-(x - c)) * t == -((x - c) * t));
        } else {
            assert((x - c) * t >= 0);
        }
    }
    assert(big * absolute(y) <= z * w + 0x80_0000 * t + 1176 * qw + 48 * vc + 1176 * vc);
    assert(479 * vc <= 10 * (c * t)) by (nonlinear_arith)
        requires
            10 * t >= 479 * v,
            c > 0,
            vc == v * c,
    {
        assert(c * (10 * t) >= c * (479 * v));
    }
    assert(big * (d * t) <= 52 * (c * t) + 0x80_0000 * t);
    assert(big * d <= 52 * c + 0x80_0000) by (nonlinear_arith)
        requires
            big * (d * t) <= 52 * (c * t) + 0x80_0000 * t,
            t > 0,
    {
        assert((big * d) * t == big * (d * t));
        assert((52 * c + 0x80_0000) * t == 52 * (c * t) + 0x80_0000 * t);
    }
}

/// Every tap of a spiral is an answer of the coverage at some point.
pub proof fn lemma_tap_is_answer<F, S, C>(
    coverage_at: F,
    sin: S,
    cos: C,
    sample: (Single, Single),
    blur: Single,
    seed: Single,
    bias: (Single, Single),
    hash: Single,
    taps: Seq<(Single, Single)>,
    k: int,
) -> (r: (Single, Single)) where
    F: Fn(Single, Single) -> (Single, Single),
    S: Fn(Single) -> Single,
    C: Fn(Single) -> Single,

    requires
        spiral_of(coverage_at, sin, cos, sample, blur, seed, bias, hash, taps),
        0 <= k < AQUA_BLUR_TAPS,
    ensures
        ({
            let angle = tap_angle(spiral_start(seed, hash), k as nat);
            let distance = tap_distance(blur, k as nat);
            &&& call_ensures(cos, (angle,), r.0)
            &&& call_ensures(sin, (angle,), r.1)
            &&& call_ensures(
                coverage_at,
                (
                    tap_coordinate(sample.0, bias.0, r.0, distance),
                    tap_coordinate(sample.1, bias.1, r.1, distance),
                ),
                taps[k],
            )
        }),
{
    let start = spiral_start(seed, hash);
    assert(taps_at(coverage_at, sin, cos, sample, blur, bias, start, k as nat, taps[k]));
    choose|c: Single, s: Single|
        #[trigger] call_ensures(cos, (tap_angle(start, k as nat),), c) && #[trigger] call_ensures(
            sin,
            (tap_angle(start, k as nat),),
            s,
        ) && call_ensures(
            coverage_at,
            (
                tap_coordinate(sample.0, bias.0, c, tap_distance(blur, k as nat)),
                tap_coordinate(sample.1, bias.1, s, tap_distance(blur, k as nat)),
            ),
            taps[k],
        )
}

/// The average is as near to a coverage as adding up its taps allows.
pub open spec fn keeps_coverage(out: (Single, Single), a: Single, s: Single) -> bool {
    &&& out.0.finite()
    &&& 0x100_0000 * absolute(out.0.units() - a.units()) <= 26 * a.units() + 0x80_0000
    &&& 0 < a.units() && a.units() * s.units() >= 0x80_0000 * one_unit() ==> {
        &&& out.1.finite()
        &&& 0x100_0000 * absolute(out.1.units() - s.units()) <= 52 * s.units() + 0x80_0000
    }
    &&& 0 < a.units() && s.zero() ==> out.1.zero()
}

/// Coverage that is the same everywhere stays the same, as near as adding up
/// allows, whatever the blur, the bias and the seed.
pub proof fn law_constant_coverage_stays<F, S, C>(
    coverage_at: F,
    sin: S,
    cos: C,
    sample: (Single, Single),
    blur: Single,
    seed: Single,
    bias: (Single, Single),
    out: (Single, Single),
    a: Single,
    s: Single,
) where
    F: Fn(Single, Single) -> (Single, Single),
    S: Fn(Single) -> Single,
    C: Fn(Single) -> Single,

    requires
        blurs(coverage_at, sin, cos, sample, blur, seed, bias, out),
        forall|x: Single, y: Single, r: (Single, Single)|
            #[trigger] call_ensures(coverage_at, (x, y), r) ==> r == (a, s),
        at_most(Single { bits: ZERO }, a),
        at_most(a, Single { bits: ONE }),
        s.finite(),
        64 * s.units() <= greatest_units(),
    ensures
        keeps_coverage(out, a, s),
{
    let (hash, taps) = choose|hash: Single, taps: Seq<(Single, Single)>|
        #[trigger] spiral_of(coverage_at, sin, cos, sample, blur, seed, bias, hash, taps) && out
            == tap_average(taps);
    assert forall|k: int| 0 <= k < taps.len() implies #[trigger] taps[k] == (a, s) by {
        let r = lemma_tap_is_answer(
            coverage_at,
            sin,
            cos,
            sample,
            blur,
            seed,
            bias,
            hash,
            taps,
            k,
        );
    }
    lemma_keeps_coverage(taps, a, s);
}

proof fn lemma_keeps_coverage(taps: Seq<(Single, Single)>, a: Single, s: Single)
    requires
        taps.len() == AQUA_BLUR_TAPS,
        forall|k: int| 0 <= k < taps.len() ==> #[trigger] taps[k] == (a, s),
        at_most(Single { bits: ZERO }, a),
        at_most(a, Single { bits: ONE }),
        s.finite(),
        64 * s.units() <= greatest_units(),
    ensures
        keeps_coverage(tap_average(taps), a, s),
{
    lemma_constants();
    law_order_is_by_value(Single { bits: ZERO }, a);
    law_order_is_by_value(a, Single { bits: ONE });
    assert(64 * a.units() <= greatest_units()) by {
        law_integers_are_exact(64);
        lemma_units_order(whole(64).magnitude(), (INFINITE - 1) as nat);
    }
    law_uniform_alpha_stays(taps, a, s);
    if 0 < a.units() && a.units() * s.units() >= 0x80_0000 * one_unit() {
        law_uniform_scale_stays(taps, a, s);
    }
    if 0 < a.units() && s.zero() {
        law_uniform_zero_scale_stays(taps, a, s);
    }
}

/// A scale of zero stays zero under uniform coverage.
pub proof fn law_uniform_zero_scale_stays(taps: Seq<(Single, Single)>, a: Single, s: Single)
    requires
        taps.len() == AQUA_BLUR_TAPS,
        forall|k: int| 0 <= k < taps.len() ==> #[trigger] taps[k] == (a, s),
        a.finite(),
        0 < a.units(),
        64 * a.units() <= greatest_units(),
        s.zero(),
    ensures
        tap_average(taps).1.zero(),
{
    let zero = Single { bits: ZERO };
    let p = product(a, s);
    lemma_constants();
    lemma_uniform_sums(taps, a, s);
    law_zero_absorbs(a, s);
    lemma_repeated_zero(p, 48);
    law_repeated_sum_is_near(a, 48);
    let total = repeated_sum(a, 48);
    let scaled = repeated_sum(p, 48);
    assert((48 * 49) * a.units() == 2352 * a.units());
    assert(total.units() > 0);
    law_order_is_by_value(zero, total);
    lemma_nearest_of_zero(total.absolute_units());
    assert(0 * one_unit() == 0);
}

proof fn lemma_repeated_zero(a: Single, k: nat)
    requires
        a.zero(),
    ensures
        repeated_sum(a, k).zero(),
    decreases k,
{
    if k > 0 {
        lemma_repeated_zero(a, (k - 1) as nat);
        law_zero_is_neutral(repeated_sum(a, (k - 1) as nat), a);
    }
}

/// Without a blur and a bias the average is the coverage at the sample, as
/// near as adding up allows, where the coverage goes by the values of a point
/// and sine and cosine answer with finite numbers.
pub proof fn law_no_blur_keeps_the_sample<F, S, C>(
    coverage_at: F,
    sin: S,
    cos: C,
    sample: (Single, Single),
    blur: Single,
    seed: Single,
    bias: (Single, Single),
    out: (Single, Single),
    a: Single,
    s: Single,
) where
    F: Fn(Single, Single) -> (Single, Single),
    S: Fn(Single) -> Single,
    C: Fn(Single) -> Single,

    requires
        blurs(coverage_at, sin, cos, sample, blur, seed, bias, out),
        blur.zero(),
        bias.0.zero(),
        bias.1.zero(),
        !sample.0.nan(),
        !sample.1.nan(),
        forall|x: Single, r: Single| #[trigger] call_ensures(sin, (x,), r) ==> r.finite(),
        forall|x: Single, r: Single| #[trigger] call_ensures(cos, (x,), r) ==> r.finite(),
        forall|x: Single, y: Single, r: (Single, Single)|
            #[trigger] call_ensures(coverage_at, (x, y), r) && x.rank() == sample.0.rank()
                && y.rank() == sample.1.rank() ==> r == (a, s),
        at_most(Single { bits: ZERO }, a),
        at_most(a, Single { bits: ONE }),
        s.finite(),
        64 * s.units() <= greatest_units(),
    ensures
        keeps_coverage(out, a, s),
{
    let (hash, taps) = choose|hash: Single, taps: Seq<(Single, Single)>|
        #[trigger] spiral_of(coverage_at, sin, cos, sample, blur, seed, bias, hash, taps) && out
            == tap_average(taps);
    assert forall|k: int| 0 <= k < taps.len() implies #[trigger] taps[k] == (a, s) by {
        let r = lemma_tap_is_answer(
            coverage_at,
            sin,
            cos,
            sample,
            blur,
            seed,
            bias,
            hash,
            taps,
            k,
        );
        law_no_blur_is_one_tap(sample.0, bias.0, r.0, blur, k as nat);
        law_no_blur_is_one_tap(sample.1, bias.1, r.1, blur, k as nat);
    }
    lemma_keeps_coverage(taps, a, s);
}

/// Where nothing is covered the average is a zero with a scale of one.
pub proof fn law_no_coverage_keeps_unit_scale<F, S, C>(
    coverage_at: F,
    sin: S,
    cos: C,
    sample: (Single, Single),
    blur: Single,
    seed: Single,
    bias: (Single, Single),
    out: (Single, Single),
) where
    F: Fn(Single, Single) -> (Single, Single),
    S: Fn(Single) -> Single,
    C: Fn(Single) -> Single,

    requires
        blurs(coverage_at, sin, cos, sample, blur, seed, bias, out),
        forall|x: Single, y: Single, r: (Single, Single)|
            #[trigger] call_ensures(coverage_at, (x, y), r) ==> r.0.zero(),
    ensures
        out.0.zero(),
        out.1.bits == ONE,
{
    let (hash, taps) = choose|hash: Single, taps: Seq<(Single, Single)>|
        #[trigger] spiral_of(coverage_at, sin, cos, sample, blur, seed, bias, hash, taps) && out
            == tap_average(taps);
    assert forall|k: int| 0 <= k < taps.len() implies (#[trigger] taps[k]).0.zero() by {
        let r = lemma_tap_is_answer(
            coverage_at,
            sin,
            cos,
            sample,
            blur,
            seed,
            bias,
            hash,
            taps,
            k,
        );
    }
    law_uncovered_keeps_unit_scale(taps);
}

/// A coverage gives one point one answer.
pub open spec fn covers_alike<F>(f: F) -> bool where F: Fn(Single, Single) -> (Single, Single) {
    forall|x: Single, y: Single, a: (Single, Single), b: (Single, Single)|
        #[trigger] call_ensures(f, (x, y), a) && #[trigger] call_ensures(f, (x, y), b) ==> a == b
}

/// Sample, blur, seed and bias determine the average, where every function that
/// is handed in gives one answer.
pub proof fn law_blur_is_determined<F, S, C>(
    coverage_at: F,
    sin: S,
    cos: C,
    sample: (Single, Single),
    blur: Single,
    seed: Single,
    bias: (Single, Single),
    one: (Single, Single),
    two: (Single, Single),
) where
    F: Fn(Single, Single) -> (Single, Single),
    S: Fn(Single) -> Single,
    C: Fn(Single) -> Single,

    requires
        covers_alike(coverage_at),
        turns_alike(sin),
        turns_alike(cos),
        blurs(coverage_at, sin, cos, sample, blur, seed, bias, one),
        blurs(coverage_at, sin, cos, sample, blur, seed, bias, two),
    ensures
        one == two,
{
    let (h1, t1) = choose|hash: Single, taps: Seq<(Single, Single)>|
        #[trigger] spiral_of(coverage_at, sin, cos, sample, blur, seed, bias, hash, taps) && one
            == tap_average(taps);
    let (h2, t2) = choose|hash: Single, taps: Seq<(Single, Single)>|
        #[trigger] spiral_of(coverage_at, sin, cos, sample, blur, seed, bias, hash, taps) && two
            == tap_average(taps);
    let phase = hash_phase(sample.0, sample.1);
    let s1 = choose|s: Single| #[trigger] call_ensures(sin, (phase,), s) && h1 == hash_of_sine(s);
    let s2 = choose|s: Single| #[trigger] call_ensures(sin, (phase,), s) && h2 == hash_of_sine(s);
    assert(s1 == s2);
    assert forall|k: int| 0 <= k < t1.len() implies #[trigger] t1[k] == t2[k] by {
        let r1 = lemma_tap_is_answer(
            coverage_at,
            sin,
            cos,
            sample,
            blur,
            seed,
            bias,
            h1,
            t1,
            k,
        );
        let r2 = lemma_tap_is_answer(
            coverage_at,
            sin,
            cos,
            sample,
            blur,
            seed,
            bias,
            h2,
            t2,
            k,
        );
        assert(r1 == r2);
    }
    assert(t1 =~= t2);
}

/// An alpha of at most eighteen binary digits keeps every bit under uniform
/// coverage, so full coverage stays full.
pub proof fn law_short_alpha_stays_exactly(
    taps: Seq<(Single, Single)>,
    a: Single,
    s: Single,
    f: nat,
    e: nat,
)
    requires
        taps.len() == AQUA_BLUR_TAPS,
        forall|k: int| 0 <= k < taps.len() ==> #[trigger] taps[k] == (a, s),
        !a.negative(),
        a.finite(),
        f <= 0x4_0000,
        e <= 200,
        a.units() == f * pow2(e),
    ensures
        tap_average(taps).0 == a,
{
    let w = one_unit();
    lemma_constants();
    lemma_uniform_sums(taps, a, s);
    lemma_short_sum(a, f, e, 48);
    law_integers_are_exact(48);
    let total = repeated_sum(a, 48);
    let count = whole(48);
    let v = a.units();
    lemma_quotient_rank(total, count);
    let den = (48 * w) as nat;
    assert((48 * v) * w == v * den) by (nonlinear_arith)
        requires
            den == 48 * w,
    ;
    law_rounding_is_exact(a, den);
    assert(quotient(total, count).rank() == a.rank());
}

/// Copies of a short number add up without rounding.
proof fn lemma_short_sum(a: Single, f: nat, e: nat, k: nat)
    requires
        k <= 48,
        !a.negative(),
        a.finite(),
        f <= 0x4_0000,
        e <= 200,
        a.units() == f * pow2(e),
    ensures
        repeated_sum(a, k).finite(),
        !repeated_sum(a, k).negative(),
        repeated_sum(a, k).units() == k * a.units(),
    decreases k,
{
    let v = a.units();
    lemma_constants();
    if k == 0 {
        assert(0 * v == 0);
    } else {
        let j = (k - 1) as nat;
        lemma_short_sum(a, f, e, j);
        let before = repeated_sum(a, j);
        let s = repeated_sum(a, k);
        assert(k * v == j * v + v && (k * f) * pow2(e) == k * v) by (nonlinear_arith)
            requires
                k == j + 1,
                v == f * pow2(e),
        ;
        assert(k * f <= 0x100_0000) by (nonlinear_arith)
            requires
                k <= 48,
                f <= 0x4_0000,
        ;
        let m = lemma_scaled_integer(k * f, e);
        let exact = signed(false, m);
        assert(exact.units() == k * v);
        lemma_sum_rank(before, a);
        law_rounding_is_exact(exact, 1);
        assert(exact.units() * 1 == exact.units());
        lemma_rank_is_value(s, exact);
        assert(before.units() + v >= 0) by (nonlinear_arith)
            requires
                before.units() == j * v,
                v >= 0,
        ;
    }
}

} // verus!
