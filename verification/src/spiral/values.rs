//! What the numbers of a spiral are, by value: where a seed and a point are
//! hashed, where the spiral starts, and where each tap lies.

use vstd::arithmetic::power2::{lemma2_to64, lemma_pow2_adds, lemma_pow2_unfold, pow2};
use vstd::prelude::*;

use super::hashing::{lemma_fraction_rounded, lemma_scaled_sine};
use super::taps::law_taps_lie_in_the_disk;
use super::{
    directs, hash_of_sine, hash_phase, hashes, seed_angle, seed_point, spiral_start, tap_angle,
    tap_coordinate, tap_distance, AMPLITUDE, AQUA_BLUR_TAPS, AQUA_GOLDEN_ANGLE, AQUA_TAU, PHASE_X,
    PHASE_Y, SEED_TURNS, SEED_X, SEED_Y, SEED_Y_START,
};
use crate::single::arith::{absolute, product, quotient, sum};
use crate::single::convert::{one_unit, whole};
use crate::single::edges::{
    is_moderate, lemma_product_within, lemma_sum_within, lemma_within_more, lemma_written_within,
};
use crate::single::laws::{
    law_integers_are_exact, law_rounding_is_exact, lemma_constants, lemma_part, lemma_product_rank,
    lemma_quotient_rank, lemma_rank_between, lemma_rank_is_value, lemma_scaled_number,
    lemma_sum_rank,
};
use crate::single::near::{
    is_times, law_product_is_near, law_quotient_is_near, law_root_is_near, law_sum_is_near,
    law_sum_with_product_is_near, lemma_times_constant, lemma_written,
};
use crate::single::root::square_root;
use crate::single::{Single, HALF, ONE, ZERO};

verus! {

/// The point at which the hash of a seed is taken: 12.9898 and 78.233 times the
/// seed, the latter moved by 4.1.
pub proof fn law_seed_is_hashed_at(seed: Single)
    requires
        seed.finite(),
        product(seed, Single { bits: SEED_Y }).finite(),
        product(seed, Single { bits: SEED_X }).finite(),
        seed_point(seed).1.finite(),
    ensures
        is_times(seed_point(seed).0.units(), seed.units(), 129898, 10000),
        0x8_0000 * absolute(
            1000 * seed_point(seed).1.units() - (78233 * seed.units() + 4100 * one_unit()),
        ) <= 78233 * absolute(seed.units()) + 4100 * one_unit() + 0x8_0000 * 2000,
{
    let w = one_unit();
    let kx = Single { bits: SEED_X };
    let ky = Single { bits: SEED_Y };
    let start = Single { bits: SEED_Y_START };
    lemma2_to64();
    lemma_written(kx, 129, 0xCF_D639, 0x10_0000);
    lemma_times_constant(seed, kx, 129898, 10000);
    lemma_written(ky, 132, 0x9C_774C, 0x2_0000);
    lemma_times_constant(seed, ky, 78233, 1000);
    lemma_written(start, 128, 0x83_3333, 0x20_0000);
    let p = product(seed, ky);
    law_sum_is_near(p, start);
    let y = seed_point(seed).1.units();
    assert(0x10_0000 * absolute(1000 * start.units() - 4100 * w) <= 4100 * w);
}

/// Seeds that differ by more than rounding are hashed at different points, the
/// greater one further along the first axis.
pub proof fn law_seeds_are_hashed_apart(one: Single, two: Single)
    requires
        one.finite(),
        two.finite(),
        product(one, Single { bits: SEED_X }).finite(),
        product(two, Single { bits: SEED_X }).finite(),
        0x10_0000 * (two.units() - one.units()) > absolute(one.units()) + absolute(two.units())
            + 0x20_0000,
    ensures
        seed_point(one).0.units() < seed_point(two).0.units(),
{
    let kx = Single { bits: SEED_X };
    lemma2_to64();
    lemma_written(kx, 129, 0xCF_D639, 0x10_0000);
    lemma_times_constant(one, kx, 129898, 10000);
    lemma_times_constant(two, kx, 129898, 10000);
}

/// A hash is turned into an angle: a full turn times it.
pub proof fn law_hash_is_a_turn(hash: Single)
    requires
        hash.finite(),
        product(hash, Single { bits: AQUA_TAU }).finite(),
    ensures
        is_times(seed_angle(hash).units(), hash.units(), 62831853, 10000000),
{
    let tau = Single { bits: AQUA_TAU };
    lemma2_to64();
    lemma_written(tau, 128, 0xC9_0FDB, 0x20_0000);
    lemma_times_constant(hash, tau, 62831853, 10000000);
}

/// A point is hashed by way of the sine of `127.1 * x + 311.7 * y`: the hash is
/// the fraction of 43758.5453123 times that sine.
pub proof fn law_point_is_hashed_by_its_sine<S>(sin: S, x: Single, y: Single, h: Single) -> (r: (
    Single,
    Single,
    int,
)) where S: Fn(Single) -> Single
    requires
        x.finite(),
        y.finite(),
        product(x, Single { bits: PHASE_X }).finite(),
        product(y, Single { bits: PHASE_Y }).finite(),
        hash_phase(x, y).finite(),
        hashes(sin, x, y, h),
    ensures
        ({
            let (phase, s, v) = r;
            let w = one_unit();
            &&& call_ensures(sin, (phase,), s)
            &&& phase.finite()
            &&& 0x8_0000 * absolute(10 * phase.units() - (1271 * x.units() + 3117 * y.units()))
                <= 1271 * absolute(x.units()) + 3117 * absolute(y.units()) + 0x8_0000 * 40
            &&& s.finite() && absolute(s.units()) <= w ==> {
                &&& is_times(v, s.units(), 437585453123, 10000000)
                &&& h.finite()
                &&& 0x200_0000 * absolute(h.units() - v % (w as int)) <= w
            }
        }),
{
    let w = one_unit();
    let kx = Single { bits: PHASE_X };
    let ky = Single { bits: PHASE_Y };
    let amp = Single { bits: AMPLITUDE };
    lemma_constants();
    lemma2_to64();
    lemma_written(kx, 132, 0xFE_3333, 0x2_0000);
    lemma_times_constant(x, kx, 1271, 10);
    lemma_written(ky, 134, 0x9B_D99A, 0x8000);
    lemma_times_constant(y, ky, 3117, 10);
    law_sum_is_near(product(x, kx), product(y, ky));
    let phase = hash_phase(x, y);
    let s = choose|s: Single| #[trigger] call_ensures(sin, (phase,), s) && h == hash_of_sine(s);
    if s.finite() && absolute(s.units()) <= w {
        lemma_scaled_sine(s);
        lemma_written(amp, 141, 0xAA_EE8C, 0x100);
        lemma_times_constant(s, amp, 437585453123, 10000000);
        lemma_fraction_rounded(product(s, amp));
    }
    (phase, s, product(s, amp).units())
}

/// The spiral starts at seven golden angles of 2.39996323 for each seed, and a
/// full turn times the hash of the sample: `a` is the golden angle times the
/// seed, `b` seven times that, and `c` the turn.
pub proof fn law_spiral_starts_at(seed: Single, hash: Single) -> (r: (int, int, int))
    requires
        seed.finite(),
        hash.finite(),
        product(seed, Single { bits: AQUA_GOLDEN_ANGLE }).finite(),
        product(
            product(seed, Single { bits: AQUA_GOLDEN_ANGLE }),
            Single { bits: SEED_TURNS },
        ).finite(),
        product(hash, Single { bits: AQUA_TAU }).finite(),
        spiral_start(seed, hash).finite(),
    ensures
        ({
            let (a, b, c) = r;
            &&& is_times(a, seed.units(), 239996323, 100000000)
            &&& is_times(b, a, 7, 1)
            &&& is_times(c, hash.units(), 62831853, 10000000)
            &&& 0x100_0000 * absolute(spiral_start(seed, hash).units() - (b + c)) <= absolute(b + c)
        }),
{
    let golden = Single { bits: AQUA_GOLDEN_ANGLE };
    let seven = Single { bits: SEED_TURNS };
    let tau = Single { bits: AQUA_TAU };
    lemma2_to64();
    lemma_written(golden, 127, 0x99_98FF, 0x40_0000);
    lemma_written(seven, 128, 0xE0_0000, 0x20_0000);
    lemma_written(tau, 128, 0xC9_0FDB, 0x20_0000);
    let a = product(seed, golden);
    let b = product(a, seven);
    let c = product(hash, tau);
    lemma_times_constant(seed, golden, 239996323, 100000000);
    lemma_times_constant(a, seven, 7, 1);
    lemma_times_constant(hash, tau, 62831853, 10000000);
    law_sum_is_near(b, c);
    (a.units(), b.units(), c.units())
}

/// Each tap is turned by one more golden angle: `a` is that angle times `k`.
pub proof fn law_taps_are_turned(start: Single, k: nat) -> (a: int)
    requires
        start.finite(),
        k < AQUA_BLUR_TAPS,
        tap_angle(start, k).finite(),
    ensures
        is_times(a, (k * one_unit()) as int, 239996323, 100000000),
        0x100_0000 * absolute(tap_angle(start, k).units() - (start.units() + a)) <= absolute(
            start.units() + a,
        ),
{
    let w = one_unit();
    let zero = Single { bits: ZERO };
    let golden = Single { bits: AQUA_GOLDEN_ANGLE };
    lemma_constants();
    lemma2_to64();
    lemma_written(golden, 127, 0x99_98FF, 0x40_0000);
    law_integers_are_exact(k);
    law_integers_are_exact(144);
    let x = whole(k);
    let p = product(x, golden);
    lemma_product_rank(x, golden);
    let n = (k * w) * golden.units();
    assert(0 * w <= n && n <= (144 * w) * w) by (nonlinear_arith)
        requires
            n == (k * w) * golden.units(),
            k <= 47,
            0 <= golden.units() <= 3 * w,
    {
        assert(0 <= k * w && k * w <= 47 * w);
        assert((k * w) * golden.units() <= (47 * w) * (3 * w));
        assert((47 * w) * (3 * w) <= (144 * w) * w);
    }
    lemma_rank_between(p, n, w, zero, whole(144));
    lemma_times_constant(x, golden, 239996323, 100000000);
    law_sum_is_near(start, p);
    p.units()
}

/// The taps spread over the disk: 48 times the square of the distance of tap `k`
/// is `k + 0.5` times the square of the blur, off by 2^-19 and, in the distance,
/// by one unit. So they lie between a tenth of the blur and all but a hundredth
/// of it.
pub proof fn law_taps_spread_over_the_disk(blur: Single, k: nat)
    requires
        blur.finite(),
        0 <= blur.units(),
        k < AQUA_BLUR_TAPS,
    ensures
        ({
            let b = blur.units();
            let d = tap_distance(blur, k).units();
            &&& 0x10_0000 * (96 * ((d + 1) * (d + 1))) >= 0xF_FFFE * ((2 * k + 1) * (b * b))
            &&& d >= 1 ==> 0x10_0000 * (96 * ((d - 1) * (d - 1))) <= 0x10_0002 * ((2 * k + 1) * (b
                * b))
        }),
{
    let w = one_unit();
    let half = Single { bits: HALF };
    let b = blur.units();
    lemma_constants();
    let v = lemma_tap_quotient(k);
    law_root_is_near(v);
    let q = square_root(v);
    lemma_part(blur, q);
    law_product_is_near(blur, q);
    let d = tap_distance(blur, k).units();
    lemma_disk(b, v.units(), q.units(), d, (2 * k + 1) as int, w as int);
}

/// The part of the disk that lies within tap `k`.
proof fn lemma_tap_quotient(k: nat) -> (v: Single)
    requires
        k < AQUA_BLUR_TAPS,
    ensures
        v == quotient(sum(whole(k), Single { bits: HALF }), whole(AQUA_BLUR_TAPS as nat)),
        v.finite(),
        0x100_0000 <= v.units() <= one_unit(),
        0x40_0000 * absolute(96 * v.units() - (2 * k + 1) * one_unit()) <= (2 * k + 1) * one_unit(),
{
    let zero = Single { bits: ZERO };
    let one = Single { bits: ONE };
    let half = Single { bits: HALF };
    let w = one_unit();
    lemma_constants();
    law_integers_are_exact(k);
    law_integers_are_exact(48);
    lemma_pow2_unfold(149);
    let exact = lemma_scaled_number(2 * k + 1, 148);
    let place = sum(whole(k), half);
    lemma_sum_rank(whole(k), half);
    assert((2 * k + 1) * pow2(148) == k * w + half.units()) by (nonlinear_arith)
        requires
            2 * half.units() == w,
            w == 2 * pow2(148),
    ;
    law_rounding_is_exact(exact, 1);
    assert(exact.units() * 1 == exact.units());
    lemma_rank_is_value(place, exact);
    let count = whole(48);
    let v = quotient(place, count);
    lemma_quotient_rank(place, count);
    let den = count.units() as nat;
    let u = place.units();
    let n = 2 * k + 1;
    assert(2 * u == n * w) by (nonlinear_arith)
        requires
            u == k * w + half.units(),
            2 * half.units() == w,
            n == 2 * k + 1,
    ;
    assert(n * w <= 95 * w && n * w >= w) by (nonlinear_arith)
        requires
            1 <= n <= 95,
    ;
    assert(0 * den <= u * w && u * w <= w * den) by (nonlinear_arith)
        requires
            0 <= u <= den,
    ;
    lemma_rank_between(v, u * w, den, zero, one);
    law_quotient_is_near(place, count);
    let r = v.units();
    assert(0x40_0000 * absolute(96 * r - n * w) <= n * w) by (nonlinear_arith)
        requires
            0x100_0000 * absolute(r * (48 * w) - u * w) <= absolute(u * w) + 0x80_0000 * (48 * w),
            2 * u == n * w,
            n * w >= w,
            w >= 0x100_0000_0000,
    {
        let off = 96 * r - n * w;
        assert(2 * (r * (48 * w) - u * w) == off * w);
        assert(u * w >= 0);
        assert(absolute(off * w) == absolute(off) * w);
        assert((0x100_0000 * absolute(off)) * w <= (n * w + 0x100_0000 * 48) * w);
    }
    v
}

proof fn lemma_disk(b: int, v: int, q: int, d: int, n: int, w: int)
    requires
        0 <= b,
        0 <= q,
        0 <= v,
        0 <= d,
        0 < n,
        w >= 0x100_0000_0000,
        0x40_0000 * absolute(96 * v - n * w) <= n * w,
        0x40_0000 * absolute(q * q - v * w) <= v * w,
        0x100_0000 * absolute(d * w - b * q) <= absolute(b * q) + 0x80_0000 * w,
    ensures
        0x10_0000 * (96 * ((d + 1) * (d + 1))) >= 0xF_FFFE * (n * (b * b)),
        d >= 1 ==> 0x10_0000 * (96 * ((d - 1) * (d - 1))) <= 0x10_0002 * (n * (b * b)),
{
    let ww = w * w;
    let qq = q * q;
    let nww = n * ww;
    assert(ww > 0 && b * b >= 0) by (nonlinear_arith)
        requires
            ww == w * w,
            w > 0,
    ;
    // The square of the root, by the count.
    assert(0x20_0000 * (96 * qq) >= 0x1F_FFFE * nww && 0x20_0000 * (96 * qq) <= 0x20_0002 * nww)
        by (nonlinear_arith)
        requires
            0x40_0000 * absolute(96 * v - n * w) <= n * w,
            0x40_0000 * absolute(qq - v * w) <= v * w,
            nww == n * ww,
            ww == w * w,
            w > 0,
            n > 0,
            v >= 0,
    {
        let vw = v * w;
        assert(0x40_0000 * (96 * vw) <= 0x40_0001 * nww) by (nonlinear_arith)
            requires
                0x40_0000 * (96 * v) <= 0x40_0001 * (n * w),
                vw == v * w,
                nww == n * (w * w),
                w > 0,
        {
            assert((0x40_0000 * (96 * v)) * w <= (0x40_0001 * (n * w)) * w);
        }
        assert(0x40_0000 * (96 * vw) >= 0x3F_FFFF * nww) by (nonlinear_arith)
            requires
                0x40_0000 * (96 * v) >= 0x3F_FFFF * (n * w),
                vw == v * w,
                nww == n * (w * w),
                w > 0,
        {
            assert((0x40_0000 * (96 * v)) * w >= (0x3F_FFFF * (n * w)) * w);
        }
        assert(nww >= 0);
    }
    let x = b * q;
    let bb = b * b;
    assert(x >= 0 && x * x == bb * qq) by (nonlinear_arith)
        requires
            x == b * q,
            bb == b * b,
            qq == q * q,
            b >= 0,
            q >= 0,
    ;
    // The distance, squared.
    let up = (d + 1) * w;
    assert(0x100_0000 * up >= 0xFF_FFFF * x) by (nonlinear_arith)
        requires
            0x100_0000 * absolute(d * w - x) <= x + 0x80_0000 * w,
            up == (d + 1) * w,
            w > 0,
    ;
    lemma_squares(0xFF_FFFF * x, 0x100_0000 * up);
    let dd = (d + 1) * (d + 1);
    assert(0x80_0000 * (dd * ww) >= 0x7F_FFFF * (bb * qq)) by (nonlinear_arith)
        requires
            (0xFF_FFFF * x) * (0xFF_FFFF * x) <= (0x100_0000 * up) * (0x100_0000 * up),
            up == (d + 1) * w,
            dd == (d + 1) * (d + 1),
            ww == w * w,
            x * x == bb * qq,
    {
        assert(up * up == dd * ww);
        assert((0xFF_FFFF * x) * (0xFF_FFFF * x) == (0xFF_FFFF * 0xFF_FFFF) * (x * x));
        assert((0x100_0000 * up) * (0x100_0000 * up) == (0x100_0000 * 0x100_0000) * (up * up));
        assert(x * x >= 0);
    }
    lemma_disk_lower(dd, bb, qq, n, ww);
    if d >= 1 {
        let down = (d - 1) * w;
        assert(0x100_0000 * down <= 0x100_0001 * x && down >= 0) by (nonlinear_arith)
            requires
                0x100_0000 * absolute(d * w - x) <= x + 0x80_0000 * w,
                down == (d - 1) * w,
                d >= 1,
                w > 0,
        ;
        lemma_squares(0x100_0000 * down, 0x100_0001 * x);
        let ee = (d - 1) * (d - 1);
        assert(0x40_0000 * (ee * ww) <= 0x40_0001 * (bb * qq)) by (nonlinear_arith)
            requires
                (0x100_0000 * down) * (0x100_0000 * down) <= (0x100_0001 * x) * (0x100_0001 * x),
                down == (d - 1) * w,
                ee == (d - 1) * (d - 1),
                ww == w * w,
                x * x == bb * qq,
        {
            assert(down * down == ee * ww);
            assert((0x100_0001 * x) * (0x100_0001 * x) == (0x100_0001 * 0x100_0001) * (x * x));
            assert((0x100_0000 * down) * (0x100_0000 * down) == (0x100_0000 * 0x100_0000) * (down
                * down));
            assert(x * x >= 0);
        }
        lemma_disk_upper(ee, bb, qq, n, ww);
    }
}

proof fn lemma_squares(a: int, b: int)
    requires
        0 <= a <= b,
    ensures
        a * a <= b * b,
{
    assert(a * a <= b * b) by (nonlinear_arith)
        requires
            0 <= a <= b,
    ;
}

proof fn lemma_disk_lower(dd: int, bb: int, qq: int, n: int, ww: int)
    requires
        0x80_0000 * (dd * ww) >= 0x7F_FFFF * (bb * qq),
        0x20_0000 * (96 * qq) >= 0x1F_FFFE * (n * ww),
        0 <= bb,
        0 < ww,
        0 < n,
    ensures
        0x10_0000 * (96 * dd) >= 0xF_FFFE * (n * bb),
{
    let m = n * bb;
    assert(0x20_0000 * (96 * (bb * qq)) >= 0x1F_FFFE * (m * ww)) by (nonlinear_arith)
        requires
            0x20_0000 * (96 * qq) >= 0x1F_FFFE * (n * ww),
            0 <= bb,
            m == n * bb,
    {
        assert(bb * (0x20_0000 * (96 * qq)) >= bb * (0x1F_FFFE * (n * ww)));
        assert(bb * (0x1F_FFFE * (n * ww)) == 0x1F_FFFE * ((n * bb) * ww));
    }
    assert(m * ww >= 0) by (nonlinear_arith)
        requires
            m == n * bb,
            0 <= bb,
            0 < n,
            0 < ww,
    ;
    assert(0x10_0000 * (96 * (dd * ww)) >= 0xF_FFFE * (m * ww));
    assert(0x10_0000 * (96 * dd) >= 0xF_FFFE * m) by (nonlinear_arith)
        requires
            0x10_0000 * (96 * (dd * ww)) >= 0xF_FFFE * (m * ww),
            0 < ww,
    {
        assert((0x10_0000 * (96 * dd)) * ww >= (0xF_FFFE * m) * ww);
    }
}

proof fn lemma_disk_upper(ee: int, bb: int, qq: int, n: int, ww: int)
    requires
        0x40_0000 * (ee * ww) <= 0x40_0001 * (bb * qq),
        0x20_0000 * (96 * qq) <= 0x20_0002 * (n * ww),
        0 <= bb,
        0 < ww,
        0 < n,
    ensures
        0x10_0000 * (96 * ee) <= 0x10_0002 * (n * bb),
{
    let m = n * bb;
    assert(0x20_0000 * (96 * (bb * qq)) <= 0x20_0002 * (m * ww)) by (nonlinear_arith)
        requires
            0x20_0000 * (96 * qq) <= 0x20_0002 * (n * ww),
            0 <= bb,
            m == n * bb,
    {
        assert(bb * (0x20_0000 * (96 * qq)) <= bb * (0x20_0002 * (n * ww)));
        assert(bb * (0x20_0002 * (n * ww)) == 0x20_0002 * ((n * bb) * ww));
    }
    assert(m * ww >= 0) by (nonlinear_arith)
        requires
            m == n * bb,
            0 <= bb,
            0 < n,
            0 < ww,
    ;
    assert(0x10_0000 * (96 * (ee * ww)) <= 0x10_0002 * (m * ww));
    assert(0x10_0000 * (96 * ee) <= 0x10_0002 * m) by (nonlinear_arith)
        requires
            0x10_0000 * (96 * (ee * ww)) <= 0x10_0002 * (m * ww),
            0 < ww,
    {
        assert((0x10_0000 * (96 * ee)) * ww <= (0x10_0002 * m) * ww);
    }
}

/// A tap lies at the sample, moved by the bias and by its distance in its
/// direction.
pub proof fn law_taps_lie_around_the_sample(
    sample: Single,
    bias: Single,
    direction: Single,
    distance: Single,
)
    requires
        sample.finite(),
        bias.finite(),
        direction.finite(),
        distance.finite(),
        sum(sample, bias).finite(),
        product(direction, distance).finite(),
        tap_coordinate(sample, bias, direction, distance).finite(),
    ensures
        0x20_0000 * absolute(
            tap_coordinate(sample, bias, direction, distance).units() * one_unit() - ((
            sample.units() + bias.units()) * one_unit() + direction.units() * distance.units()),
        ) <= absolute((sample.units() + bias.units()) * one_unit()) + absolute(
            direction.units() * distance.units(),
        ) + 0x40_0000 * one_unit(),
{
    let w = one_unit();
    lemma_constants();
    let a = sum(sample, bias);
    law_sum_is_near(sample, bias);
    law_sum_with_product_is_near(a, direction, distance);
    let u = a.units();
    let e = sample.units() + bias.units();
    assert(0x100_0000 * absolute(u * w - e * w) <= absolute(e * w)) by (nonlinear_arith)
        requires
            0x100_0000 * absolute(u - e) <= absolute(e),
            w > 0,
    {
        assert(u * w - e * w == (u - e) * w);
        assert(absolute((u - e) * w) == absolute(u - e) * w && absolute(e * w) == absolute(e) * w);
        assert((0x100_0000 * absolute(u - e)) * w <= absolute(e) * w);
    }
}

/// The hashes of moderate numbers, and where the spiral starts, are finite.
pub proof fn law_hashing_stays_finite(seed: Single, hash: Single, x: Single, y: Single)
    requires
        is_moderate(seed),
        is_moderate(hash),
        is_moderate(x),
        is_moderate(y),
    ensures
        product(seed, Single { bits: SEED_X }).finite(),
        product(seed, Single { bits: SEED_Y }).finite(),
        seed_point(seed).0.finite(),
        seed_point(seed).1.finite(),
        product(hash, Single { bits: AQUA_TAU }).finite(),
        seed_angle(hash).finite(),
        product(x, Single { bits: PHASE_X }).finite(),
        product(y, Single { bits: PHASE_Y }).finite(),
        hash_phase(x, y).finite(),
        product(seed, Single { bits: AQUA_GOLDEN_ANGLE }).finite(),
        product(
            product(seed, Single { bits: AQUA_GOLDEN_ANGLE }),
            Single { bits: SEED_TURNS },
        ).finite(),
        spiral_start(seed, hash).finite(),
{
    let sx = Single { bits: SEED_X };
    let sy = Single { bits: SEED_Y };
    let start = Single { bits: SEED_Y_START };
    lemma_written_within(sx, 129, 153);
    lemma_written_within(sy, 132, 156);
    lemma_written_within(start, 128, 152);
    lemma_product_within(seed, sx, 240, 153);
    lemma_product_within(seed, sy, 240, 156);
    lemma_within_more(start, 152, 247);
    lemma_sum_within(product(seed, sy), start, 247);
    let tau = Single { bits: AQUA_TAU };
    lemma_written_within(tau, 128, 152);
    lemma_product_within(hash, tau, 240, 152);
    let px = Single { bits: PHASE_X };
    let py = Single { bits: PHASE_Y };
    lemma_written_within(px, 132, 156);
    lemma_written_within(py, 134, 158);
    lemma_product_within(x, px, 240, 156);
    lemma_product_within(y, py, 240, 158);
    lemma_within_more(product(x, px), 247, 249);
    lemma_sum_within(product(x, px), product(y, py), 249);
    let golden = Single { bits: AQUA_GOLDEN_ANGLE };
    let turns = Single { bits: SEED_TURNS };
    lemma_written_within(golden, 127, 151);
    lemma_written_within(turns, 128, 152);
    lemma_product_within(seed, golden, 240, 151);
    lemma_product_within(product(seed, golden), turns, 242, 152);
    lemma_within_more(product(hash, tau), 243, 245);
    lemma_sum_within(product(product(seed, golden), turns), product(hash, tau), 245);
}

/// So are the taps around moderate samples.
pub proof fn law_taps_stay_finite(
    start: Single,
    k: nat,
    blur: Single,
    sample: Single,
    bias: Single,
    direction: Single,
)
    requires
        is_moderate(start),
        k < AQUA_BLUR_TAPS,
        is_moderate(blur),
        0 <= blur.units(),
        is_moderate(sample),
        is_moderate(bias),
        direction.finite(),
        absolute(direction.units()) <= 2 * one_unit(),
    ensures
        tap_angle(start, k).finite(),
        tap_distance(blur, k).finite(),
        0 <= tap_distance(blur, k).units() <= blur.units(),
        sum(sample, bias).finite(),
        product(direction, tap_distance(blur, k)).finite(),
        tap_coordinate(sample, bias, direction, tap_distance(blur, k)).finite(),
{
    let golden = Single { bits: AQUA_GOLDEN_ANGLE };
    lemma_constants();
    law_integers_are_exact(k);
    lemma2_to64();
    lemma_pow2_adds(6, 149);
    assert(k * one_unit() <= 64 * one_unit()) by (nonlinear_arith)
        requires
            k <= 64,
    ;
    lemma_written_within(golden, 127, 151);
    lemma_product_within(whole(k), golden, 155, 151);
    lemma_within_more(product(whole(k), golden), 157, 240);
    lemma_sum_within(start, product(whole(k), golden), 240);
    let d = tap_distance(blur, k);
    law_taps_lie_in_the_disk(blur, Single { bits: ZERO }, k);
    lemma_pow2_unfold(150);
    lemma_product_within(direction, d, 150, 240);
    lemma_sum_within(sample, bias, 240);
    lemma_sum_within(sum(sample, bias), product(direction, d), 241);
}

/// The direction of a seed, step by step: the point at which it is hashed, the
/// phase of that point and its sine, the hash as the fraction of the sine
/// times 43758.5453123, and the hash's part of a turn as the angle.
pub proof fn law_seed_direction_in_steps<S, C>(
    sin: S,
    cos: C,
    seed: Single,
    out: (Single, Single),
) -> (r: (Single, Single, Single, Single, int, Single, Single)) where
    S: Fn(Single) -> Single,
    C: Fn(Single) -> Single,

    requires
        directs(sin, cos, seed, out),
        forall|a: Single, s: Single| #[trigger]
            call_ensures(sin, (a,), s) ==> s.finite() && absolute(s.units()) <= one_unit(),
        seed.finite(),
        absolute(seed.units()) <= pow2(230),
    ensures
        ({
            let (x, y, phase, s, v, h, angle) = r;
            let w = one_unit();
            // The point.
            &&& x.finite() && y.finite()
            &&& is_times(x.units(), seed.units(), 129898, 10000)
            &&& 0x8_0000 * absolute(1000 * y.units() - (78233 * seed.units() + 4100 * w)) <= 78233
                * absolute(seed.units()) + 4100 * w + 0x8_0000 * 2000
            // Its phase and the sine of it.
            &&& phase.finite()
            &&& 0x8_0000 * absolute(10 * phase.units() - (1271 * x.units() + 3117 * y.units()))
                <= 1271 * absolute(x.units()) + 3117 * absolute(y.units()) + 0x8_0000 * 40
            &&& call_ensures(sin, (phase,), s)
            // The hash.
            &&& is_times(v, s.units(), 437585453123, 10000000)
            &&& h.finite()
            &&& 0x200_0000 * absolute(h.units() - v % (w as int)) <= w
            // The angle.
            &&& angle.finite()
            &&& is_times(angle.units(), h.units(), 62831853, 10000000)
            &&& call_ensures(cos, (angle,), out.0)
            &&& call_ensures(sin, (angle,), out.1)
        }),
{
    let w = one_unit();
    let h = choose|h: Single|
        #[trigger] hashes(sin, seed_point(seed).0, seed_point(seed).1, h) && call_ensures(
            cos,
            (seed_angle(h),),
            out.0,
        ) && call_ensures(sin, (seed_angle(h),), out.1);
    let (x, y) = seed_point(seed);
    let sx = Single { bits: SEED_X };
    let sy = Single { bits: SEED_Y };
    let start = Single { bits: SEED_Y_START };
    lemma_constants();
    lemma_written_within(sx, 129, 153);
    lemma_written_within(sy, 132, 156);
    lemma_written_within(start, 128, 152);
    lemma_product_within(seed, sx, 230, 153);
    lemma_product_within(seed, sy, 230, 156);
    lemma_within_more(start, 152, 237);
    lemma_sum_within(product(seed, sy), start, 237);
    lemma_within_more(x, 234, 240);
    lemma_within_more(y, 238, 240);
    lemma_within_more(seed, 230, 240);
    law_hashing_stays_finite(seed, Single { bits: ZERO }, x, y);
    law_seed_is_hashed_at(seed);
    let (phase, s, v) = law_point_is_hashed_by_its_sine(sin, x, y, h);
    let rest = v % (w as int);
    assert(0 <= rest < w) by (nonlinear_arith)
        requires
            rest == v % (w as int),
            w > 0,
    ;
    lemma_pow2_unfold(150);
    lemma_within_more(h, 150, 240);
    law_hashing_stays_finite(seed, h, x, y);
    law_hash_is_a_turn(h);
    (x, y, phase, s, v, h, seed_angle(h))
}

} // verus!
