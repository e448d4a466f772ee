//! What the average over the taps of a spiral is, by value, and where the taps
//! of a blur lie.

use vstd::arithmetic::power2::{
    lemma2_to64_rest, lemma_pow2_adds, lemma_pow2_strictly_increases, lemma_pow2_unfold, pow2,
};
use vstd::prelude::*;

use super::laws::lemma_tap_is_answer;
use super::{
    blurs, hashes, spiral_of, spiral_start, tap_angle, tap_average, tap_coordinate, tap_distance,
    tap_sums, AQUA_BLUR_TAPS,
};
use crate::single::arith::{absolute, product, quotient, sum};
use crate::single::convert::{one_unit, whole};
use crate::single::laws::{
    law_integers_are_exact, law_operands_commute, lemma_constants, lemma_part, lemma_quotient_rank,
    lemma_rank_between, lemma_scaled_number, lemma_sum_rank,
};
use crate::single::near::{law_product_is_near, law_quotient_is_near, law_sum_is_near};
use crate::single::order::law_order_is_by_value;
use crate::single::{Single, ONE, ZERO};

verus! {

/// The alphas of some taps, added up.
pub open spec fn alpha_total(taps: Seq<(Single, Single)>) -> int
    decreases taps.len(),
{
    if taps.len() == 0 {
        0
    } else {
        alpha_total(taps.drop_last()) + taps.last().0.units()
    }
}

/// Alpha times scale of some taps, added up, in units of units.
pub open spec fn scaled_total(taps: Seq<(Single, Single)>) -> int
    decreases taps.len(),
{
    if taps.len() == 0 {
        0
    } else {
        scaled_total(taps.drop_last()) + taps.last().0.units() * taps.last().1.units()
    }
}

/// Alpha and scale of a tap are finite and not below zero.
pub open spec fn is_coverage(tap: (Single, Single)) -> bool {
    &&& tap.0.finite() && 0 <= tap.0.units()
    &&& tap.1.finite() && 0 <= tap.1.units()
}

proof fn lemma_sums_are_near(taps: Seq<(Single, Single)>)
    requires
        taps.len() <= AQUA_BLUR_TAPS,
        forall|k: int| 0 <= k < taps.len() ==> is_coverage(#[trigger] taps[k]),
        tap_sums(taps).0.finite(),
        tap_sums(taps).1.finite(),
    ensures
        0 <= alpha_total(taps),
        0 <= scaled_total(taps),
        0x100_0000 * absolute(tap_sums(taps).0.units() - alpha_total(taps)) <= (2 * taps.len())
            * alpha_total(taps),
        0x100_0000 * absolute(tap_sums(taps).1.units() * one_unit() - scaled_total(taps)) <= (4
            * taps.len()) * scaled_total(taps) + taps.len() * (0x100_0000 * one_unit()),
    decreases taps.len(),
{
    let w = one_unit();
    lemma_constants();
    if taps.len() > 0 {
        let rest = taps.drop_last();
        let n = rest.len() as int;
        assert forall|k: int| 0 <= k < rest.len() implies is_coverage(#[trigger] rest[k]) by {
            assert(is_coverage(taps[k]));
        }
        let (a, s) = taps.last();
        assert(is_coverage(taps[taps.len() - 1]));
        let before = tap_sums(rest);
        let p = product(a, s);
        assert(before.0.finite() && before.1.finite() && p.finite());
        lemma_sums_are_near(rest);
        law_sum_is_near(before.0, a);
        law_product_is_near(a, s);
        law_sum_is_near(before.1, p);
        let u = a.units();
        let e = u * s.units();
        assert(e >= 0) by (nonlinear_arith)
            requires
                e == u * s.units(),
                u >= 0,
                s.units() >= 0,
        ;
        let after = tap_sums(taps);
        lemma_alpha_step(
            n,
            alpha_total(rest),
            before.0.units(),
            u,
            after.0.units(),
        );
        lemma_scaled_step(
            n,
            scaled_total(rest),
            before.1.units(),
            e,
            p.units(),
            after.1.units(),
            w as int,
        );
    } else {
        assert(0 * w == 0);
    }
}

proof fn lemma_alpha_step(n: int, total: int, s: int, u: int, r: int)
    requires
        0 <= n < 48,
        0 <= total,
        0 <= u,
        0x100_0000 * absolute(s - total) <= (2 * n) * total,
        0x100_0000 * absolute(r - (s + u)) <= absolute(s + u),
    ensures
        0x100_0000 * absolute(r - (total + u)) <= (2 * (n + 1)) * (total + u),
{
    let m = (2 * n) * total;
    assert(0 <= m && m <= 96 * total) by (nonlinear_arith)
        requires
            m == (2 * n) * total,
            0 <= n <= 48,
            0 <= total,
    ;
    assert((2 * (n + 1)) * (total + u) >= m + 2 * (total + u)) by (nonlinear_arith)
        requires
            m == (2 * n) * total,
            0 <= n,
            0 <= u,
    ;
}

proof fn lemma_scaled_step(n: int, total: int, s: int, e: int, p: int, r: int, w: int)
    requires
        0 <= n < 48,
        0 <= total,
        0 <= e,
        w >= 0x100_0000_0000,
        0x100_0000 * absolute(s * w - total) <= (4 * n) * total + n * (0x100_0000 * w),
        0x100_0000 * absolute(p * w - e) <= absolute(e) + 0x80_0000 * w,
        0x100_0000 * absolute(r - (s + p)) <= absolute(s + p),
    ensures
        0x100_0000 * absolute(r * w - (total + e)) <= (4 * (n + 1)) * (total + e) + (n + 1) * (
        0x100_0000 * w),
{
    let m = (4 * n) * total;
    assert(0 <= m && m <= 192 * total) by (nonlinear_arith)
        requires
            m == (4 * n) * total,
            0 <= n <= 48,
            0 <= total,
    ;
    assert((4 * (n + 1)) * (total + e) >= m + 4 * (total + e)) by (nonlinear_arith)
        requires
            m == (4 * n) * total,
            0 <= n,
            0 <= e,
    ;
    let nw = n * (0x100_0000 * w);
    assert((n + 1) * (0x100_0000 * w) == nw + 0x100_0000 * w && nw <= 48 * (0x100_0000 * w) && nw
        >= 0) by (nonlinear_arith)
        requires
            nw == n * (0x100_0000 * w),
            0 <= n <= 48,
            w > 0,
    ;
    let z = r - (s + p);
    let sw = s * w;
    let pw = p * w;
    assert(r * w == z * w + sw + pw) by (nonlinear_arith)
        requires
            z == r - (s + p),
            sw == s * w,
            pw == p * w,
    ;
    assert(0x100_0000 * absolute(z * w) <= absolute(sw + pw)) by (nonlinear_arith)
        requires
            0x100_0000 * absolute(z) <= absolute(s + p),
            sw == s * w,
            pw == p * w,
            w > 0,
    {
        assert(absolute(z * w) == absolute(z) * w);
        assert(sw + pw == (s + p) * w);
        assert(absolute((s + p) * w) == absolute(s + p) * w);
        assert((0x100_0000 * absolute(z)) * w <= absolute(s + p) * w);
    }
}

/// The average over 48 taps at most: 48 times the mean alpha is what the alphas add up
/// to, and the mean scale times that is what alpha times scale adds up to, off
/// by 2^-16 of either. Where no tap is covered the scale is one.
pub proof fn law_average_is_weighted(taps: Seq<(Single, Single)>)
    requires
        taps.len() <= AQUA_BLUR_TAPS,
        forall|k: int| 0 <= k < taps.len() ==> is_coverage(#[trigger] taps[k]),
        tap_sums(taps).0.finite(),
        tap_sums(taps).1.finite(),
        tap_average(taps).1.finite(),
    ensures
        ({
            let w = one_unit();
            let (mean, scale) = tap_average(taps);
            let total = alpha_total(taps);
            let scaled = scaled_total(taps);
            &&& 0x1_0000 * absolute(48 * mean.units() - total) <= total + 0x1_0000 * 48
            &&& total == 0 ==> scale.bits == ONE
            &&& total > 0 ==> 0x1_0000 * absolute(scale.units() * total - scaled) <= absolute(
                scale.units() * total,
            ) + scaled + 0x1_0000 * (64 * w + total)
        }),
{
    let zero = Single { bits: ZERO };
    let w = one_unit();
    lemma_constants();
    lemma_sums_are_near(taps);
    law_integers_are_exact(48);
    let (s, t) = tap_sums(taps);
    let count = whole(48);
    let total = alpha_total(taps);
    let scaled = scaled_total(taps);
    let n = taps.len();
    assert((2 * n) * total <= 96 * total && (4 * n) * scaled <= 192 * scaled && n * (0x100_0000
        * w) <= 48 * (0x100_0000 * w)) by (nonlinear_arith)
        requires
            n <= 48,
            0 <= total,
            0 <= scaled,
    ;
    law_order_is_by_value(zero, s);
    lemma_near_is_positive(s.units(), total);
    lemma_mean_is_finite(s);
    law_quotient_is_near(s, count);
    let mean = quotient(s, count).units();
    let u = s.units();
    lemma_mean_value(total, u, mean, w as int);
    if total > 0 {
        law_quotient_is_near(t, s);
        lemma_scale_value(total, scaled, u, t.units(), quotient(t, s).units(), w as int);
    }
}

proof fn lemma_near_is_positive(s: int, total: int)
    requires
        0 <= total,
        0x100_0000 * absolute(s - total) <= 96 * total,
    ensures
        0 <= s,
        s == 0 <==> total == 0,
{
}

proof fn lemma_mean_value(total: int, u: int, mean: int, w: int)
    requires
        0 <= total,
        w > 0,
        0x100_0000 * absolute(u - total) <= 96 * total,
        0x100_0000 * absolute(mean * (48 * w) - u * w) <= absolute(u * w) + 0x80_0000 * (48 * w),
    ensures
        0x1_0000 * absolute(48 * mean - total) <= total + 0x1_0000 * 48,
{
    let off = 48 * mean - u;
    assert(0x100_0000 * absolute(off) <= absolute(u) + 0x80_0000 * 48) by (nonlinear_arith)
        requires
            0x100_0000 * absolute(mean * (48 * w) - u * w) <= absolute(u * w) + 0x80_0000 * (48
                * w),
            off == 48 * mean - u,
            w > 0,
    {
        assert(mean * (48 * w) - u * w == off * w);
        assert(absolute(off * w) == absolute(off) * w && absolute(u * w) == absolute(u) * w);
        assert((0x100_0000 * absolute(off)) * w <= (absolute(u) + 0x80_0000 * 48) * w);
    }
}

proof fn lemma_mean_is_finite(s: Single)
    requires
        s.finite(),
        0 <= s.units(),
    ensures
        quotient(s, whole(48)).finite(),
{
    let zero = Single { bits: ZERO };
    let w = one_unit();
    lemma_constants();
    law_integers_are_exact(48);
    let count = whole(48);
    lemma_quotient_rank(s, count);
    let den = count.units() as nat;
    let u = s.units();
    assert(0 * den <= u * w && u * w <= u * den) by (nonlinear_arith)
        requires
            0 <= u,
            den == 48 * w,
    ;
    lemma_rank_between(quotient(s, count), u * w, den, zero, s);
}

proof fn lemma_scale_value(total: int, scaled: int, s: int, t: int, r: int, w: int)
    requires
        0 < total,
        0 <= scaled,
        0 < s,
        w >= 0x100_0000_0000,
        0x100_0000 * absolute(s - total) <= 96 * total,
        0x100_0000 * absolute(t * w - scaled) <= 192 * scaled + 48 * (0x100_0000 * w),
        0x100_0000 * absolute(r * s - t * w) <= absolute(t * w) + 0x80_0000 * s,
    ensures
        0x1_0000 * absolute(r * total - scaled) <= absolute(r * total) + scaled + 0x1_0000 * (64 * w
            + total),
{
    let tw = t * w;
    let x = r * s - tw;
    let d = total - s;
    let y = tw - scaled;
    assert(r * total - scaled == x + r * d + y) by (nonlinear_arith)
        requires
            x == r * s - tw,
            d == total - s,
            y == tw - scaled,
    ;
    let rt = r * total;
    assert(0x100_0000 * absolute(r * d) <= 96 * absolute(rt)) by (nonlinear_arith)
        requires
            0x100_0000 * absolute(d) <= 96 * total,
            rt == r * total,
            total > 0,
    {
        assert(absolute(r * d) == absolute(r) * absolute(d));
        assert(absolute(rt) == absolute(r) * total);
        assert(absolute(r) * (0x100_0000 * absolute(d)) <= absolute(r) * (96 * total));
    }
}

/// What a blur averages: 48 taps, each the answer of the coverage at a point
/// that lies off the moved sample in the direction and at the distance of the
/// tap. `hash` is the hash of the sample, and `start` the angle that it and the
/// seed give.
pub proof fn law_blur_takes_its_taps<F, S, C>(
    coverage_at: F,
    sin: S,
    cos: C,
    sample: (Single, Single),
    blur: Single,
    seed: Single,
    bias: (Single, Single),
    out: (Single, Single),
) -> (r: (
    Single,
    Single,
    Seq<(Single, Single)>,
    Seq<(Single, Single, Single, Single, Single)>,
)) where
    F: Fn(Single, Single) -> (Single, Single),
    S: Fn(Single) -> Single,
    C: Fn(Single) -> Single,

    requires
        blurs(coverage_at, sin, cos, sample, blur, seed, bias, out),
    ensures
        ({
            let (hash, start, taps, at) = r;
            &&& hashes(sin, sample.0, sample.1, hash)
            &&& start == spiral_start(seed, hash)
            &&& taps.len() == 48
            &&& at.len() == 48
            &&& forall|k: int|
                0 <= k < 48 ==> {
                    let (angle, c, s, x, y) = #[trigger] at[k];
                    &&& angle == tap_angle(start, k as nat)
                    &&& call_ensures(cos, (angle,), c)
                    &&& call_ensures(sin, (angle,), s)
                    &&& x == tap_coordinate(sample.0, bias.0, c, tap_distance(blur, k as nat))
                    &&& y == tap_coordinate(sample.1, bias.1, s, tap_distance(blur, k as nat))
                    &&& call_ensures(coverage_at, (x, y), taps[k])
                }
            &&& out == tap_average(taps)
        }),
{
    let (hash, taps) = choose|hash: Single, taps: Seq<(Single, Single)>|
        #[trigger] spiral_of(coverage_at, sin, cos, sample, blur, seed, bias, hash, taps) && out
            == tap_average(taps);
    let start = spiral_start(seed, hash);
    let turns = |k: int| choose|c: Single, s: Single|
        #[trigger] call_ensures(cos, (tap_angle(start, k as nat),), c) && #[trigger] call_ensures(
            sin,
            (tap_angle(start, k as nat),),
            s,
        ) && call_ensures(
            coverage_at,
            (
                tap_coordinate(sample.0, bias.0, c, tap_distance(blur, k as nat)),
                tap_coordinate(sample.1, bias.1, s, tap_distance(blur, k as nat)),
            ),
            taps[k],
        );
    let at = Seq::new(
        48,
        |k: int|
            {
                let (c, s) = turns(k);
                (
                    tap_angle(start, k as nat),
                    c,
                    s,
                    tap_coordinate(sample.0, bias.0, c, tap_distance(blur, k as nat)),
                    tap_coordinate(sample.1, bias.1, s, tap_distance(blur, k as nat)),
                )
            },
    );
    assert forall|k: int| 0 <= k < 48 implies ({
        let (angle, c, s, x, y) = #[trigger] at[k];
        &&& angle == tap_angle(start, k as nat)
        &&& call_ensures(cos, (angle,), c)
        &&& call_ensures(sin, (angle,), s)
        &&& x == tap_coordinate(sample.0, bias.0, c, tap_distance(blur, k as nat))
        &&& y == tap_coordinate(sample.1, bias.1, s, tap_distance(blur, k as nat))
        &&& call_ensures(coverage_at, (x, y), taps[k])
    }) by {
        let q = lemma_tap_is_answer(
            coverage_at,
            sin,
            cos,
            sample,
            blur,
            seed,
            bias,
            hash,
            taps,
            k,
        );
        assert(call_ensures(cos, (tap_angle(start, k as nat),), q.0));
        assert(call_ensures(sin, (tap_angle(start, k as nat),), q.1));
        let (c, s) = turns(k);
    }
    (hash, start, taps, at)
}

/// Alpha is one at most and the scale moderate.
pub open spec fn is_moderate_coverage(tap: (Single, Single)) -> bool {
    &&& is_coverage(tap)
    &&& tap.0.units() <= one_unit()
    &&& tap.1.units() <= pow2(240)
}

proof fn lemma_sums_stay_finite(taps: Seq<(Single, Single)>)
    requires
        taps.len() <= AQUA_BLUR_TAPS,
        forall|k: int| 0 <= k < taps.len() ==> is_moderate_coverage(#[trigger] taps[k]),
    ensures
        tap_sums(taps).0.finite(),
        0 <= tap_sums(taps).0.units() <= taps.len() * one_unit(),
        tap_sums(taps).1.finite(),
        0 <= tap_sums(taps).1.units() <= taps.len() * pow2(240),
        scaled_total(taps) <= pow2(240) * alpha_total(taps),
    decreases taps.len(),
{
    let zero = Single { bits: ZERO };
    let w = one_unit();
    let p = pow2(240);
    lemma_constants();
    if taps.len() > 0 {
        let rest = taps.drop_last();
        let n = taps.len();
        assert forall|k: int| 0 <= k < rest.len() implies is_moderate_coverage(
            #[trigger] rest[k],
        ) by {
            assert(is_moderate_coverage(taps[k]));
        }
        let (a, s) = taps.last();
        assert(is_moderate_coverage(taps[taps.len() - 1]));
        lemma_sums_stay_finite(rest);
        let before = tap_sums(rest);
        law_integers_are_exact(n);
        assert(n * w == (n - 1) * w + w && n * p == (n - 1) * p + p) by (nonlinear_arith);
        lemma_sum_rank(before.0, a);
        lemma_rank_between(sum(before.0, a), before.0.units() + a.units(), 1, zero, whole(n));
        law_operands_commute(s, a);
        lemma_part(s, a);
        let x = product(a, s);
        let top = lemma_scaled_number(n, 240);
        lemma_sum_rank(before.1, x);
        lemma_rank_between(sum(before.1, x), before.1.units() + x.units(), 1, zero, top);
        let u = a.units();
        let v = s.units();
        let total = alpha_total(rest);
        assert(u * v <= p * u) by (nonlinear_arith)
            requires
                0 <= u,
                v <= p,
        ;
        assert(p * (total + u) == p * total + p * u) by (nonlinear_arith);
    } else {
        assert(0 * w == 0 && 0 * p == 0);
    }
}

/// The average over moderate taps is finite.
pub proof fn law_average_stays_finite(taps: Seq<(Single, Single)>)
    requires
        taps.len() == AQUA_BLUR_TAPS,
        forall|k: int| 0 <= k < taps.len() ==> is_moderate_coverage(#[trigger] taps[k]),
    ensures
        tap_sums(taps).0.finite(),
        tap_sums(taps).1.finite(),
        tap_average(taps).0.finite(),
        tap_average(taps).1.finite(),
{
    let zero = Single { bits: ZERO };
    let w = one_unit();
    lemma_constants();
    assert forall|k: int| 0 <= k < taps.len() implies is_coverage(#[trigger] taps[k]) by {
        assert(is_moderate_coverage(taps[k]));
    }
    lemma_sums_stay_finite(taps);
    lemma_sums_are_near(taps);
    let (s, t) = tap_sums(taps);
    lemma_mean_is_finite(s);
    law_order_is_by_value(zero, s);
    if s.units() > 0 {
        let total = alpha_total(taps);
        let scaled = scaled_total(taps);
        let n = taps.len();
        assert((2 * n) * total == 96 * total && (4 * n) * scaled == 192 * scaled && n * (0x100_0000
            * w) == 48 * (0x100_0000 * w)) by (nonlinear_arith)
            requires
                n == 48,
        ;
        let top = lemma_scaled_number(1, 242);
        lemma_pow2_unfold(241);
        lemma_pow2_unfold(242);
        lemma_pow2_adds(149, 91);
        lemma2_to64_rest();
        lemma_pow2_strictly_increases(64, 91);
        let u = s.units();
        let p = pow2(240);
        assert(p >= 0x1_0000_0000 * w) by (nonlinear_arith)
            requires
                p == w * pow2(91),
                pow2(91) >= 0x1_0000_0000,
        ;
        lemma_near_is_positive(u, total);
        assert(0 * u <= t.units() * w && t.units() * w <= (4 * p) * u) by (nonlinear_arith)
            requires
                0 <= t.units(),
                0x100_0000 * absolute(t.units() * w - scaled) <= 192 * scaled + 48 * (0x100_0000
                    * w),
                0 <= scaled <= p * total,
                0x100_0000 * absolute(u - total) <= 96 * total,
                1 <= total,
                p >= 0x1_0000_0000 * w,
                w > 0,
        {
            assert(p * total >= p);
            assert(2 * u >= total);
            assert(p * (2 * u) >= p * total);
            assert(0 * u == 0 && t.units() * w >= 0);
        }
        lemma_quotient_rank(t, s);
        lemma_rank_between(quotient(t, s), t.units() * w, u as nat, zero, top);
    }
}

} // verus!
