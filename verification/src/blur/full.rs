//! Lines of 255 under long windows: past 2^24 the running sum rounds, first up
//! and then, where it has grown to 2^32, to itself. The mean stays 255 for radii
//! of up to 16900000.

use vstd::arithmetic::power2::{
    lemma2_to64, lemma2_to64_rest, lemma_pow2_adds, lemma_pow2_pos, lemma_pow2_strictly_increases,
    lemma_pow2_unfold, pow2,
};
use vstd::prelude::*;

use super::laws::law_mean_lies_among_samples;
use super::{box_mean, edge, effective_radius, first_sum, window_sum};
use crate::color::byte_of;
use crate::color::laws::{law_byte_is_monotone, lemma_byte_near, lemma_byte_within};
use crate::single::arith::{absolute, difference, product, quotient};
use crate::single::convert::{one_unit, whole};
use crate::single::laws::{
    law_integers_are_exact, law_rounding_is_exact, law_rounding_is_monotone,
    law_rounding_is_nearest, law_zero_is_neutral, lemma_constants, lemma_difference_rank,
    lemma_product_rank, lemma_quotient_rank, lemma_rank_between, lemma_rank_error_within,
    lemma_rank_is_value, lemma_scaled_number, lemma_sum_rank, nearest_rank,
};
use crate::single::nearest::{lemma_digits_of, lemma_units_order};
use crate::single::order::law_order_is_by_value;
use crate::single::rounding::{lemma_nearest_of_zero, nearest};
use crate::single::{magnitude_units, Single, ZERO};

verus! {

/// The window around a sample of a line of `n` is not so long that a line of
/// 255 would fade.
pub open spec fn full_window(radius: nat, n: nat) -> bool {
    effective_radius(radius, n) <= 16_900_000
}

/// Adding 255 to a multiple of 256 from 2^24 on rounds to the next one.
proof fn lemma_full_step(m: nat)
    requires
        0x1_0000 <= m < 0x100_0000,
    ensures
        nearest_rank(((256 * m + 255) * one_unit()) as int, 1) >= nearest_rank(
            ((256 * (m + 1)) * one_unit()) as int,
            1,
        ),
{
    let w = one_unit();
    let g = pow2(157);
    lemma_constants();
    lemma2_to64();
    lemma_pow2_adds(149, 8);
    let up = lemma_scaled_number(m + 1, 157);
    let goal = 256 * (m + 1);
    assert((m + 1) * g == goal * w) by (nonlinear_arith)
        requires
            g == w * 256,
            goal == 256 * (m + 1),
    ;
    let num = ((256 * m + 255) * w) as nat;
    assert(num + w == goal * w) by (nonlinear_arith)
        requires
            num == (256 * m + 255) * w,
            goal == 256 * (m + 1),
    ;
    law_rounding_is_exact(up, 1);
    assert(up.units() * 1 == up.units());
    let n = nearest(num, 1);
    law_rounding_is_monotone(num as int, 1, up.units(), 1);
    law_rounding_is_nearest(num, 1, up.magnitude());
    let v = magnitude_units(n);
    assert(v * 1 == v && magnitude_units(up.magnitude()) * 1 == up.units());
    if n < up.magnitude() {
        lemma_units_order(n, up.magnitude());
        // Then it is a multiple of two, one below the exact sum.
        let (e, f) = lemma_digits_of(n);
        assert((256 * m + 254) * w == num - w && (256 * m + 256) * w == num + w)
            by (nonlinear_arith)
            requires
                num == (256 * m + 255) * w,
        ;
        lemma_odd_bits(n, e, f, m, v);
    }
}

/// A number from 2^24 on that lies between `256 * m + 254` and the next multiple
/// of 256 is that even integer, and its bits are odd.
proof fn lemma_odd_bits(n: nat, e: nat, f: nat, m: nat, v: nat)
    requires
        n == e * 0x80_0000 + f,
        f < 0x100_0000,
        v == f * pow2(e),
        m >= 0x1_0000,
        (256 * m + 254) * one_unit() <= v < (256 * m + 256) * one_unit(),
    ensures
        v == (256 * m + 254) * one_unit(),
        n % 2 == 1,
{
    let w = one_unit();
    lemma_constants();
    lemma2_to64();
    lemma_pow2_unfold(150);
    assert(v > 0x100_0000 * w) by (nonlinear_arith)
        requires
            v >= (256 * m + 254) * w,
            m >= 0x1_0000,
            w > 0,
    ;
    if e < 150 {
        if e < 149 {
            lemma_pow2_strictly_increases(e, 149);
        }
        let p = pow2(e);
        assert(f * p <= 0x100_0000 * w) by (nonlinear_arith)
            requires
                f < 0x100_0000,
                p <= w,
        ;
        assert(false);
    }
    // A multiple of twice one, and of no more.
    let d = (e - 150) as nat;
    lemma_pow2_adds(d, 150);
    let z = f * pow2(d);
    assert(v == z * (2 * w)) by (nonlinear_arith)
        requires
            v == f * pow2(e),
            pow2(e) == pow2(d) * (2 * w),
            z == f * pow2(d),
    ;
    assert(z == 128 * m + 127) by (nonlinear_arith)
        requires
            v == z * (2 * w),
            (256 * m + 254) * w <= v < (256 * m + 256) * w,
            w > 0,
    {
        if z < 128 * m + 127 {
            assert(z * (2 * w) <= (128 * m + 126) * (2 * w));
        }
        if z > 128 * m + 127 {
            assert(z * (2 * w) >= (128 * m + 128) * (2 * w));
        }
    }
    assert((128 * m + 127) * (2 * w) == (256 * m + 254) * w) by (nonlinear_arith);
    if d > 0 {
        lemma_pow2_unfold(d);
        let half = pow2((d - 1) as nat);
        assert(z == 2 * (f * half)) by (nonlinear_arith)
            requires
                z == f * (2 * half),
        ;
        assert(false);
    }
    assert(f * 1 == f);
}

/// What the first `n` samples of 255 add up to at least.
pub open spec fn full_low(n: nat) -> nat {
    if n <= 65793 {
        255 * n
    } else if n <= 0x100_0000 + 258 {
        (256 * (n - 258)) as nat
    } else {
        0x1_0000_0000
    }
}

/// What the first `n` samples of 255 add up to at most.
pub open spec fn full_high(n: nat) -> nat {
    if n <= 0x100_0000 {
        256 * n
    } else {
        (0x1_0000_0000 + 512 * (n - 0x100_0000)) as nat
    }
}

/// The number at the upper bound of a sum.
proof fn lemma_high_number(n: nat) -> (x: Single)
    requires
        n <= 16_900_001,
    ensures
        x.finite(),
        x.units() == full_high(n) * one_unit(),
{
    let w = one_unit();
    lemma2_to64();
    lemma_pow2_adds(149, 8);
    lemma_pow2_adds(149, 9);
    if n <= 0x100_0000 {
        let x = lemma_scaled_number(n, 157);
        assert(n * pow2(157) == (256 * n) * w) by (nonlinear_arith)
            requires
                pow2(157) == w * 256,
        ;
        x
    } else {
        let m = (0x80_0000 + (n - 0x100_0000)) as nat;
        let x = lemma_scaled_number(m, 158);
        assert(m * pow2(158) == (512 * m) * w) by (nonlinear_arith)
            requires
                pow2(158) == w * 512,
        ;
        x
    }
}

/// Samples of 255 add up within the bounds.
proof fn lemma_full_sum(line: Seq<u8>, n: nat)
    requires
        n <= line.len(),
        n <= 16_900_001,
        forall|i: int| 0 <= i < line.len() ==> #[trigger] line[i] == 255,
    ensures
        first_sum(line, n).finite(),
        full_low(n) * one_unit() <= first_sum(line, n).units() <= full_high(n) * one_unit(),
    decreases n,
{
    let zero = Single { bits: ZERO };
    let w = one_unit();
    lemma_constants();
    if n == 0 {
        assert(0 * w == 0);
    } else {
        let k = (n - 1) as nat;
        lemma_full_sum(line, k);
        assert(line[n - 1] == 255);
        law_integers_are_exact(255);
        let before = first_sum(line, k);
        let after = first_sum(line, n);
        let step = whole(255);
        lemma_sum_rank(before, step);
        let num = before.units() + step.units();
        let high = lemma_high_number(n);
        assert(full_low(k) * w + 255 * w <= num && num <= full_high(n) * w && 0 <= full_low(k) * w)
            by (nonlinear_arith)
            requires
                full_low(k) * w <= before.units() <= full_high(k) * w,
                num == before.units() + 255 * w,
                full_high(k) + 255 <= full_high(n),
        ;
        lemma_rank_between(after, num, 1, zero, high);
        let low = full_low(n);
        if n <= 65794 || n > 0x100_0000 + 258 {
            let least = if n <= 65794 {
                law_integers_are_exact(low);
                whole(low)
            } else {
                lemma2_to64();
                lemma_pow2_adds(149, 32);
                let x = lemma_scaled_number(1, 181);
                x
            };
            assert(least.units() == low * w);
            assert(low * w <= num) by (nonlinear_arith)
                requires
                    full_low(k) * w + 255 * w <= num,
                    low <= full_low(k) + 255,
            ;
            lemma_rank_between(after, num, 1, least, high);
        } else {
            let m = (k - 258) as nat;
            lemma_full_step(m);
            let least = lemma_scaled_number(m + 1, 157);
            lemma2_to64();
            lemma_pow2_adds(149, 8);
            assert((m + 1) * pow2(157) == (256 * (m + 1)) * w) by (nonlinear_arith)
                requires
                    pow2(157) == w * 256,
            ;
            law_rounding_is_exact(least, 1);
            assert(least.units() * 1 == least.units());
            let mid = ((256 * m + 255) * w) as int;
            assert(mid <= num) by (nonlinear_arith)
                requires
                    mid == (256 * m + 255) * w,
                    (256 * m) * w + 255 * w <= num,
            ;
            law_rounding_is_monotone(mid, 1, num, 1);
            assert(after.rank() >= least.rank());
            law_order_is_by_value(least, after);
        }
    }
}

/// A running sum over a line of 255 does not change along it.
proof fn lemma_full_window(line: Seq<u8>, r: nat, k: nat)
    requires
        r < line.len(),
        r <= 16_900_000,
        k < line.len(),
        forall|i: int| 0 <= i < line.len() ==> #[trigger] line[i] == 255,
        window_sum(line, r, 0).finite(),
    ensures
        window_sum(line, r, k).finite(),
        window_sum(line, r, k).units() == window_sum(line, r, 0).units(),
    decreases k,
{
    if k > 0 {
        let j = (k - 1) as nat;
        lemma_full_window(line, r, j);
        assert(line[edge((k + r) as int, line.len())] == 255);
        assert(line[edge(k - 1 - r, line.len())] == 255);
        law_integers_are_exact(255);
        let none = difference(whole(255), whole(255));
        lemma_difference_rank(whole(255), whole(255));
        lemma_nearest_of_zero(1);
        law_zero_is_neutral(window_sum(line, r, j), none);
        lemma_rank_is_value(window_sum(line, r, k), window_sum(line, r, j));
    }
}

/// How far the whole window adds up to.
proof fn lemma_full_total(line: Seq<u8>, r: nat)
    requires
        r < line.len(),
        32767 < r <= 16_900_000,
        forall|i: int| 0 <= i < line.len() ==> #[trigger] line[i] == 255,
    ensures
        window_sum(line, r, 0).finite(),
        (full_low(r + 1) + 255 * r - 1023) * one_unit() <= window_sum(line, r, 0).units(),
{
    let zero = Single { bits: ZERO };
    let w = one_unit();
    lemma_constants();
    lemma2_to64();
    lemma2_to64_rest();
    lemma_pow2_adds(149, 1);
    lemma_pow2_adds(149, 9);
    lemma_pow2_adds(149, 10);
    lemma_pow2_adds(149, 25);
    lemma_pow2_adds(149, 33);
    lemma_pow2_adds(149, 34);
    lemma_full_sum(line, r + 1);
    let s = first_sum(line, r + 1);
    assert(line[0] == 255);
    law_integers_are_exact(255);
    // The radius, off by one at most.
    let count = whole(r);
    let top = lemma_scaled_number(1, 182);
    let far = (r * w) as int;
    assert(0 <= far && far <= 16_900_000 * w && far < 0x200_0000 * w) by (nonlinear_arith)
        requires
            far == r * w,
            r <= 16_900_000,
            w > 0,
    ;
    assert(1 * pow2(182) == 0x2_0000_0000 * w);
    lemma_rank_between(count, far, 1, zero, top);
    assert(1 * pow2(174) == pow2(174) && 1 * pow2(150) == pow2(150));
    lemma_rank_error_within(count, far, 1, 150);
    assert(count.units() * 1 == count.units());
    let c = count.units();
    assert(absolute(c - far) <= w);
    // The samples before the first one, off by 256 more.
    let p = product(whole(255), count);
    lemma_product_rank(whole(255), count);
    let e = (255 * w) * c;
    assert(0 <= e && e < w * (0x2_0000_0000 * w)) by (nonlinear_arith)
        requires
            e == (255 * w) * c,
            0 <= c,
            c <= 16_900_001 * w,
            w > 0,
    {
        assert(255 * c < 0x2_0000_0000 * w);
        assert((255 * w) * c == w * (255 * c));
    }
    assert(0 * w == 0 && (0x2_0000_0000 * w) * w == w * (0x2_0000_0000 * w)) by (nonlinear_arith);
    lemma_rank_between(p, e, w, zero, top);
    lemma_rank_error_within(p, e, w, 158);
    assert(p.units() >= 255 * far - 511 * w) by (nonlinear_arith)
        requires
            2 * absolute(p.units() * w - e) <= w * (512 * w),
            e == (255 * w) * c,
            c >= far - w,
            w > 0,
    {
        assert(e == w * (255 * c));
        assert(w * (255 * c) >= w * (255 * (far - w)));
        assert(2 * (p.units() * w) >= 2 * (w * (255 * (far - w))) - w * (512 * w));
        assert(w * (2 * p.units()) >= w * (2 * (255 * (far - w)) - 512 * w));
        assert(2 * p.units() >= 2 * (255 * (far - w)) - 512 * w);
    }
    // Both, off by 512 more.
    let total = window_sum(line, r, 0);
    lemma_sum_rank(s, p);
    let num = s.units() + p.units();
    let high = full_high(r + 1);
    assert(high * w < 0x2_0000_0000 * w) by (nonlinear_arith)
        requires
            high < 0x2_0000_0000,
            w > 0,
    ;
    let most = lemma_scaled_number(1, 183);
    assert(1 * pow2(183) == 0x4_0000_0000 * w);
    let low = full_low(r + 1);
    assert(low * w >= 0) by (nonlinear_arith);
    lemma_rank_between(total, num, 1, zero, most);
    lemma_rank_error_within(total, num, 1, 159);
    assert(total.units() * 1 == total.units() && 1 * pow2(159) == pow2(159));
    assert((low + 255 * r - 1023) * w == low * w + 255 * far - 1023 * w) by (nonlinear_arith)
        requires
            far == r * w,
    ;
}

/// A line of 255 stays under a blur of a radius of up to 16900000.
pub proof fn law_full_line_stays(line: Seq<u8>, k: int, radius: nat)
    requires
        0 <= k < line.len(),
        full_window(radius, line.len()),
        forall|i: int| 0 <= i < line.len() ==> #[trigger] line[i] == 255,
    ensures
        box_mean(line, k, radius) == 255,
{
    let r = effective_radius(radius, line.len());
    if r <= 32767 {
        law_mean_lies_among_samples(line, k, radius, 255, 255);
    } else {
        reveal(box_mean);
        lemma_full_total(line, r);
        lemma_full_window(line, r, k as nat);
        let x = window_sum(line, r, k as nat);
        lemma_full_quotient(x, r);
        let q = quotient(x, whole(2 * r + 1));
        lemma_byte_within(q);
    }
}

/// What the window adds up to over its count is nearer to 255 than to 254.
proof fn lemma_full_quotient(x: Single, r: nat)
    requires
        32767 < r <= 16_900_000,
        x.finite(),
        (full_low(r + 1) + 255 * r - 1023) * one_unit() <= x.units(),
    ensures
        byte_of(quotient(x, whole(2 * r + 1))) == 255,
{
    let zero = Single { bits: ZERO };
    let w = one_unit();
    let n = 2 * r + 1;
    lemma_constants();
    lemma2_to64();
    lemma2_to64_rest();
    lemma_pow2_adds(149, 2);
    lemma_pow2_adds(149, 26);
    lemma_pow2_adds(144, 5);
    lemma_pow2_pos(144);
    let count = whole(n);
    let exact = (n * w) as int;
    let top = lemma_scaled_number(1, 175);
    assert(0x1_0000 * w <= exact && exact < 0x400_0000 * w) by (nonlinear_arith)
        requires
            exact == n * w,
            0x1_0000 <= n <= 33_800_001,
            w > 0,
    ;
    law_integers_are_exact(0x1_0000);
    lemma_rank_between(count, exact, 1, whole(0x1_0000), top);
    assert(1 * pow2(175) == pow2(175) && 1 * pow2(151) == pow2(151));
    lemma_rank_error_within(count, exact, 1, 151);
    assert(count.units() * 1 == count.units());
    let c = count.units();
    assert(c <= exact + 2 * w);
    let near = lemma_scaled_number(8145, 144);
    let g = pow2(144);
    let total = (full_low(r + 1) + 255 * r - 1023) as int;
    assert(32 * total >= 8145 * (n + 2));
    assert((8145 * g) * c <= x.units() * w) by (nonlinear_arith)
        requires
            w == g * 32,
            c <= n * w + 2 * w,
            total * w <= x.units(),
            32 * total >= 8145 * (n + 2),
            w > 0,
            g > 0,
    {
        assert(32 * ((8145 * g) * c) == (8145 * w) * c);
        assert((8145 * w) * c <= (8145 * w) * (n * w + 2 * w));
        assert((8145 * w) * (n * w + 2 * w) == (8145 * (n + 2)) * (w * w));
        assert((8145 * (n + 2)) * (w * w) <= (32 * total) * (w * w));
        assert((32 * total) * (w * w) == 32 * ((total * w) * w));
        assert((total * w) * w <= x.units() * w);
    }
    let q = quotient(x, count);
    lemma_quotient_rank(x, count);
    let den = c as nat;
    assert(((8145 * g) * den) * den <= (x.units() * w) * den) by (nonlinear_arith)
        requires
            (8145 * g) * den <= x.units() * w,
    ;
    law_rounding_is_monotone(((8145 * g) * den) as int, den, x.units() * w, den);
    law_rounding_is_exact(near, den);
    lemma_byte_near(near, 255);
    law_byte_is_monotone(near, q);
}

} // verus!
