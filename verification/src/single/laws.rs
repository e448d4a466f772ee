//! What binary32 arithmetic promises: the nearest number, exact where there is
//! one, monotone, and off by little.

use vstd::arithmetic::power2::{
    lemma2_to64, lemma_pow2_adds, lemma_pow2_pos, lemma_pow2_strictly_increases, lemma_pow2_unfold,
    pow2,
};
use vstd::prelude::*;

use super::arith::{absolute, difference, opposite, product, quotient, sum};
use super::convert::{one_unit, whole};
use super::nearest::{
    lemma_nearest_error, lemma_nearest_exact, lemma_nearest_monotone, lemma_units_increase,
    lemma_units_of_digits, lemma_units_order,
};
use super::order::{at_most, confined, law_order_is_by_value};
use super::rounding::{
    half_even, lemma_half_even_range, lemma_nearest_of_zero, lemma_scale_bounds, nearest, scale,
};
use super::{magnitude_units, signed, Single, BYTE_MAX, HALF, INFINITE, ONE, THREE, TWO, ZERO};

verus! {

/// The place in the order of the number nearest to `num / den` units.
pub open spec fn nearest_rank(num: int, den: nat) -> int {
    if num < 0 {
        -(nearest(absolute(num), den) as int)
    } else {
        nearest(num as nat, den) as int
    }
}

/// Rounding keeps the order of exact values.
pub proof fn law_rounding_is_monotone(n1: int, d1: nat, n2: int, d2: nat)
    requires
        d1 > 0,
        d2 > 0,
        n1 * d2 <= n2 * d1,
    ensures
        nearest_rank(n1, d1) <= nearest_rank(n2, d2),
{
    if n1 >= 0 {
        assert(n2 >= 0) by (nonlinear_arith)
            requires
                n1 * d2 <= n2 * d1,
                n1 >= 0,
                d1 > 0,
                d2 > 0,
        ;
        lemma_nearest_monotone(n1 as nat, d1, n2 as nat, d2);
    } else if n2 < 0 {
        assert((-n2) * d1 <= (-n1) * d2) by (nonlinear_arith)
            requires
                n1 * d2 <= n2 * d1,
        ;
        lemma_nearest_monotone(absolute(n2), d2, absolute(n1), d1);
    }
}

/// A value that is a finite binary32 number rounds to itself.
pub proof fn law_rounding_is_exact(x: Single, den: nat)
    requires
        x.finite(),
        den > 0,
    ensures
        nearest_rank(x.units() * den, den) == x.rank(),
{
    let u = x.absolute_units();
    lemma_nearest_exact(x.magnitude(), den);
    if x.negative() {
        assert((-(u as int)) * den == -(u * den)) by (nonlinear_arith);
        if u * den == 0 {
            assert(u == 0) by (nonlinear_arith)
                requires
                    u * den == 0,
                    den > 0,
            ;
            lemma_units_order(0, x.magnitude());
        }
        assert(u * den >= 0) by (nonlinear_arith);
    }
}

/// No binary32 number is nearer to the exact value than the one it rounds to,
/// and of two equally near ones it rounds to the one with an even last bit.
pub proof fn law_rounding_is_nearest(num: nat, den: nat, m: nat)
    requires
        den > 0,
        nearest(num, den) < INFINITE,
    ensures
        ({
            let n = nearest(num, den);
            let off = absolute(num - magnitude_units(n) * den);
            let other = absolute(num - magnitude_units(m) * den);
            &&& off <= other
            &&& off == other && m != n ==> n % 2 == 0
        }),
{
    let n = nearest(num, den);
    let e = scale(num, den);
    let t = pow2(e);
    let d = den * t;
    let f = half_even(num, d);
    lemma2_to64();
    lemma_pow2_pos(e);
    assert(d > 0) by (nonlinear_arith)
        requires
            den > 0,
            t > 0,
            d == den * t,
    ;
    lemma_half_even_range(num, den);
    lemma_units_of_digits(e, f);
    lemma_half_even_gap(num, d);
    let x = magnitude_units(n);
    let v = magnitude_units(m);
    assert(x * den == d * f) by (nonlinear_arith)
        requires
            x == f * t,
            d == den * t,
    ;
    if m > n {
        lemma_next_digits(e, f);
        if m > n + 1 {
            lemma_units_increase(n + 1, m);
        }
        assert(v * den >= d * f + d) by (nonlinear_arith)
            requires
                v >= (f + 1) * t,
                d == den * t,
        {
            assert(v * den >= ((f + 1) * t) * den);
            assert(((f + 1) * t) * den == d * f + d);
        }
    } else if m < n {
        if m < n - 1 {
            lemma_units_increase(m, (n - 1) as nat);
        }
        if e > 0 && f == 0x80_0000 {
            lemma_scale_bounds(num, den);
            lemma_pow2_adds(e, 23);
            assert(num >= d * f) by (nonlinear_arith)
                requires
                    num >= den * pow2((e + 23) as nat),
                    pow2((e + 23) as nat) == t * 0x80_0000,
                    d == den * t,
                    f == 0x80_0000,
            ;
            lemma_units_increase(m, n);
            assert(v * den < x * den) by (nonlinear_arith)
                requires
                    v < x,
                    den > 0,
            ;
        } else {
            lemma_units_of_digits(e, (f - 1) as nat);
            assert(v * den <= d * f - d) by (nonlinear_arith)
                requires
                    v <= (f - 1) * t,
                    d == den * t,
            {
                assert(v * den <= ((f - 1) * t) * den);
                assert(((f - 1) * t) * den == d * f - d);
            }
        }
    }
}

/// The number after the digits `f` is at least one of the last digit away.
proof fn lemma_next_digits(e: nat, f: nat)
    requires
        f <= 0x100_0000,
        e > 0 ==> f >= 0x80_0000,
    ensures
        magnitude_units(e * 0x80_0000 + f + 1) >= (f + 1) * pow2(e),
{
    lemma_pow2_pos(e);
    if f < 0x100_0000 {
        lemma_units_of_digits(e, f + 1);
    } else {
        lemma_units_of_digits(e + 1, 0x80_0001);
        lemma_pow2_unfold(e + 1);
        let t = pow2(e);
        assert(0x80_0001 * (2 * t) >= (f + 1) * t) by (nonlinear_arith)
            requires
                f == 0x100_0000,
                t > 0,
        ;
    }
}

/// Rounding to an integer is off by at most a half, and by a half only where
/// the result is even.
proof fn lemma_half_even_gap(num: nat, d: nat)
    requires
        d > 0,
    ensures
        2 * (d * half_even(num, d)) <= 2 * num + d,
        2 * num <= 2 * (d * half_even(num, d)) + d,
        2 * (d * half_even(num, d)) == 2 * num + d ==> half_even(num, d) % 2 == 0,
        2 * num == 2 * (d * half_even(num, d)) + d ==> half_even(num, d) % 2 == 0,
{
    vstd::arithmetic::div_mod::lemma_fundamental_div_mod(num as int, d as int);
    let q = num / d;
    assert(d * (q + 1) == d * q + d) by (nonlinear_arith);
}

/// Where a sum of finite numbers lies in the order.
pub proof fn lemma_sum_rank(a: Single, b: Single)
    requires
        a.finite(),
        b.finite(),
    ensures
        sum(a, b).rank() == nearest_rank(a.units() + b.units(), 1),
        !sum(a, b).nan(),
{
    let exact = a.units() + b.units();
    lemma_nearest_of_zero(1);
}

/// Where a difference of finite numbers lies in the order.
pub proof fn lemma_difference_rank(a: Single, b: Single)
    requires
        a.finite(),
        b.finite(),
    ensures
        difference(a, b).rank() == nearest_rank(a.units() - b.units(), 1),
        !difference(a, b).nan(),
{
    lemma_sum_rank(a, opposite(b));
}

/// Where a product of finite numbers lies in the order.
pub proof fn lemma_product_rank(a: Single, b: Single)
    requires
        a.finite(),
        b.finite(),
    ensures
        product(a, b).rank() == nearest_rank(a.units() * b.units(), one_unit()),
        !product(a, b).nan(),
{
    let x = a.absolute_units();
    let y = b.absolute_units();
    lemma_pow2_pos(149);
    lemma_nearest_of_zero(one_unit());
    assert(x * y >= 0 && (-(x as int)) * (-(y as int)) == x * y && (-(x as int)) * y == -(x * y)
        && x * (-(y as int)) == -(x * y)) by (nonlinear_arith);
}

/// Where a quotient by a positive number lies in the order.
pub proof fn lemma_quotient_rank(a: Single, b: Single)
    requires
        a.finite(),
        b.finite(),
        b.units() > 0,
    ensures
        quotient(a, b).rank() == nearest_rank(a.units() * one_unit(), b.units() as nat),
        !quotient(a, b).nan(),
{
    let x = a.absolute_units();
    let w = one_unit();
    lemma_pow2_pos(149);
    lemma_nearest_of_zero(b.units() as nat);
    assert(x * w >= 0 && (-(x as int)) * w == -(x * w)) by (nonlinear_arith);
}

/// A number of a finite rank, and no other, is finite; numbers of one rank have
/// one value.
pub proof fn lemma_rank_is_value(a: Single, b: Single)
    requires
        b.finite(),
        a.rank() == b.rank(),
    ensures
        a.finite(),
        a.units() == b.units(),
{
    if a.negative() != b.negative() {
        assert(a.magnitude() == 0 && b.magnitude() == 0);
    }
}

/// A rounded value lies between any two numbers that the exact one does.
pub proof fn lemma_rank_between(x: Single, num: int, den: nat, lo: Single, hi: Single)
    requires
        den > 0,
        lo.finite(),
        hi.finite(),
        x.rank() == nearest_rank(num, den),
        lo.units() * den <= num <= hi.units() * den,
    ensures
        x.finite(),
        lo.units() <= x.units() <= hi.units(),
        lo.rank() <= x.rank() <= hi.rank(),
{
    law_rounding_is_exact(lo, den);
    law_rounding_is_exact(hi, den);
    let l = lo.units() * den;
    let h = hi.units() * den;
    assert(l * den <= num * den && num * den <= h * den) by (nonlinear_arith)
        requires
            l <= num <= h,
    ;
    law_rounding_is_monotone(l, den, num, den);
    law_rounding_is_monotone(num, den, h, den);
    law_order_is_by_value(lo, x);
    law_order_is_by_value(x, hi);
}

/// What a finite result is off by: at most 2^-24 of the exact value, or half
/// of the least positive number.
pub proof fn lemma_rank_error(x: Single, num: int, den: nat)
    requires
        den > 0,
        x.finite(),
        x.rank() == nearest_rank(num, den),
    ensures
        0x100_0000 * absolute(x.units() * den - num) <= (if absolute(num) >= 0x80_0000 * den {
            absolute(num)
        } else {
            0x80_0000 * den
        }),
{
    let a = absolute(num);
    let v = magnitude_units(nearest(a, den));
    let e = scale(a, den);
    let t = pow2(e);
    assert(x.magnitude() == nearest(a, den));
    lemma_nearest_error(a, den);
    lemma_scale_bounds(a, den);
    lemma_pow2_pos(e);
    lemma2_to64();
    lemma_nearest_of_zero(den);
    assert(absolute(x.units() * den - num) == absolute(v * den - a)) by {
        if num < 0 {
            if x.negative() {
                assert((-(v as int)) * den == -(v * den)) by (nonlinear_arith);
            } else {
                assert(v == 0);
            }
        } else if x.negative() {
            assert(v == 0);
        }
        assert((-(v as int)) * den == -(v * den)) by (nonlinear_arith);
    }
    if e > 0 {
        lemma_pow2_adds(e, 23);
        assert(a >= 0x80_0000 * (den * t)) by (nonlinear_arith)
            requires
                a >= den * pow2((e + 23) as nat),
                pow2((e + 23) as nat) == t * 0x80_0000,
        ;
    } else {
        assert(t == 1);
        assert(den * t == den) by (nonlinear_arith)
            requires
                t == 1,
        ;
    }
}

/// What a finite result is off by where the exact value has at most `k` digits
/// above the twenty-four that are kept.
pub proof fn lemma_rank_error_within(x: Single, num: int, den: nat, k: nat)
    requires
        den > 0,
        x.finite(),
        x.rank() == nearest_rank(num, den),
        absolute(num) < den * pow2(k + 24),
    ensures
        2 * absolute(x.units() * den - num) <= den * pow2(k),
{
    let a = absolute(num);
    let v = magnitude_units(nearest(a, den));
    let e = scale(a, den);
    lemma_nearest_error(a, den);
    lemma_scale_bounds(a, den);
    lemma_nearest_of_zero(den);
    assert(absolute(x.units() * den - num) == absolute(v * den - a)) by {
        assert((-(v as int)) * den == -(v * den)) by (nonlinear_arith);
        if x.negative() != (num < 0) {
            assert(v == 0);
        }
    }
    if e > k {
        if e > k + 1 {
            lemma_pow2_strictly_increases(k + 24, (e + 23) as nat);
        }
        assert(den * pow2(k + 24) <= den * pow2((e + 23) as nat)) by (nonlinear_arith)
            requires
                pow2(k + 24) <= pow2((e + 23) as nat),
        ;
    } else if e < k {
        lemma_pow2_strictly_increases(e, k);
    }
    assert(den * pow2(e) <= den * pow2(k)) by (nonlinear_arith)
        requires
            pow2(e) <= pow2(k),
    ;
}

/// A result that is an exact integer multiple of the denominator within
/// twenty-four digits is off by nothing.
pub proof fn lemma_small_sum_is_exact(x: Single, num: int)
    requires
        x.finite(),
        x.rank() == nearest_rank(num, 1),
        absolute(num) < 0x100_0000,
    ensures
        x.units() == num,
{
    lemma_rank_error(x, num, 1);
    assert(x.units() * 1 == x.units());
}

/// An integer of at most twenty-four digits times a power of two is a number.
pub proof fn lemma_scaled_integer(n: nat, k: nat) -> (m: nat)
    requires
        n <= 0x100_0000,
    ensures
        magnitude_units(m) == n * pow2(k),
        m <= (k + 2) * 0x80_0000,
    decreases k,
{
    lemma2_to64();
    if n >= 0x80_0000 || k == 0 {
        lemma_units_of_digits(k, n);
        k * 0x80_0000 + n
    } else {
        lemma_pow2_unfold(k);
        let t = pow2((k - 1) as nat);
        assert((2 * n) * t == n * (2 * t)) by (nonlinear_arith);
        lemma_scaled_integer(2 * n, (k - 1) as nat)
    }
}

/// The number that is an integer of at most twenty-four digits times a power of
/// two.
pub proof fn lemma_scaled_number(n: nat, k: nat) -> (x: Single)
    requires
        n <= 0x100_0000,
        k <= 250,
    ensures
        x.finite(),
        !x.negative(),
        x.units() == n * pow2(k),
{
    let m = lemma_scaled_integer(n, k);
    signed(false, m)
}

/// An integer of at most twenty-four digits is held exactly.
pub proof fn law_integers_are_exact(n: nat)
    requires
        n <= 0x100_0000,
    ensures
        whole(n).finite(),
        !whole(n).negative(),
        whole(n).units() == n * one_unit(),
{
    let m = lemma_scaled_integer(n, 149);
    lemma_nearest_exact(m, 1);
    assert(magnitude_units(m) * 1 == magnitude_units(m));
}

/// The values of the constants.
pub proof fn lemma_constants()
    ensures
        one_unit() >= 0x100_0000_0000,
        (Single { bits: ZERO }).units() == 0,
        2 * (Single { bits: HALF }).units() == one_unit(),
        (Single { bits: ONE }).units() == one_unit(),
        (Single { bits: TWO }).units() == 2 * one_unit(),
        (Single { bits: THREE }).units() == 3 * one_unit(),
        (Single { bits: BYTE_MAX }).units() == 255 * one_unit(),
{
    lemma2_to64();
    lemma_pow2_adds(40, 109);
    lemma_pow2_pos(109);
    assert(pow2(149) >= pow2(40)) by (nonlinear_arith)
        requires
            pow2(149) == pow2(40) * pow2(109),
            pow2(109) >= 1,
    ;
    vstd::arithmetic::power2::lemma2_to64_rest();
    lemma_pow2_unfold(149);
    lemma_pow2_adds(125, 23);
    lemma_pow2_adds(126, 23);
    lemma_pow2_adds(127, 22);
    lemma_pow2_adds(133, 16);
    lemma_pow2_unfold(128);
    lemma_units_of_digits(125, 0x80_0000);
    lemma_units_of_digits(126, 0x80_0000);
    lemma_units_of_digits(127, 0x80_0000);
    lemma_units_of_digits(127, 0xC0_0000);
    lemma_units_of_digits(133, 0xFF_0000);
}

/// `x * 1` is `x`.
pub proof fn law_one_is_neutral(x: Single)
    requires
        !x.nan(),
    ensures
        product(x, Single { bits: ONE }) == x,
        product(Single { bits: ONE }, x) == x,
{
    lemma_constants();
    let w = one_unit();
    if x.finite() {
        lemma_nearest_exact(x.magnitude(), w);
        let u = x.absolute_units();
        assert(u * w == w * u) by (nonlinear_arith);
    }
}

/// `x * 0` is a zero where `x` is finite.
pub proof fn law_zero_absorbs(x: Single, z: Single)
    requires
        x.finite(),
        z.zero(),
    ensures
        product(x, z).zero(),
        product(z, x).zero(),
{
    lemma_pow2_pos(149);
    lemma_nearest_of_zero(one_unit());
    let u = x.absolute_units();
    assert(u * 0 == 0 && 0 * u == 0);
}

/// `x + 0` is `x` by value.
pub proof fn law_zero_is_neutral(x: Single, z: Single)
    requires
        !x.nan(),
        z.zero(),
    ensures
        sum(x, z).rank() == x.rank(),
        sum(z, x).rank() == x.rank(),
        !sum(x, z).nan(),
        !sum(z, x).nan(),
{
    if x.finite() {
        lemma_sum_rank(x, z);
        lemma_sum_rank(z, x);
        law_rounding_is_exact(x, 1);
        assert(x.units() * 1 == x.units());
    }
}

/// Sums and products do not depend on the order of their operands.
pub proof fn law_operands_commute(a: Single, b: Single)
    ensures
        sum(a, b) == sum(b, a),
        product(a, b) == product(b, a),
{
    let x = a.absolute_units();
    let y = b.absolute_units();
    assert(x * y == y * x) by (nonlinear_arith);
}

/// A larger operand gives no smaller a sum.
pub proof fn law_sum_is_monotone(a: Single, b: Single, c: Single)
    requires
        a.finite(),
        b.finite(),
        c.finite(),
        at_most(a, b),
    ensures
        at_most(sum(a, c), sum(b, c)),
        at_most(sum(c, a), sum(c, b)),
{
    lemma_sum_rank(a, c);
    lemma_sum_rank(b, c);
    law_operands_commute(a, c);
    law_operands_commute(b, c);
    law_order_is_by_value(a, b);
    law_rounding_is_monotone(a.units() + c.units(), 1, b.units() + c.units(), 1);
}

/// A larger factor gives no smaller a product with what is not negative.
pub proof fn law_product_is_monotone(a: Single, b: Single, c: Single)
    requires
        a.finite(),
        b.finite(),
        c.finite(),
        at_most(a, b),
        at_most(Single { bits: ZERO }, c),
    ensures
        at_most(product(a, c), product(b, c)),
        at_most(product(c, a), product(c, b)),
{
    lemma_product_rank(a, c);
    lemma_product_rank(b, c);
    law_operands_commute(a, c);
    law_operands_commute(b, c);
    law_order_is_by_value(a, b);
    lemma_constants();
    law_order_is_by_value(Single { bits: ZERO }, c);
    let w = one_unit();
    assert((a.units() * c.units()) * w <= (b.units() * c.units()) * w) by (nonlinear_arith)
        requires
            a.units() <= b.units(),
            0 <= c.units(),
            w >= 0,
    {
        assert(a.units() * c.units() <= b.units() * c.units());
    }
    law_rounding_is_monotone(a.units() * c.units(), w, b.units() * c.units(), w);
}

/// What is drawn into a range lies in it, and stays when drawn in again.
pub proof fn law_confined_lies_within(x: Single, low: Single, high: Single)
    requires
        at_most(low, high),
    ensures
        !x.nan() ==> at_most(low, confined(x, low, high)) && at_most(
            confined(x, low, high),
            high,
        ),
        x.nan() ==> confined(x, low, high) == x,
        at_most(low, x) && at_most(x, high) ==> confined(x, low, high) == x,
        confined(confined(x, low, high), low, high) == confined(x, low, high),
{
}

/// A product with a number in `0..=1` lies between zero and the other factor.
pub proof fn lemma_part(x: Single, t: Single)
    requires
        x.finite(),
        0 <= x.units(),
        t.finite(),
        0 <= t.units() <= one_unit(),
    ensures
        product(x, t).finite(),
        0 <= product(x, t).units() <= x.units(),
{
    let w = one_unit();
    lemma_constants();
    lemma_product_rank(x, t);
    assert(0 * w <= x.units() * t.units() && x.units() * t.units() <= x.units() * w)
        by (nonlinear_arith)
        requires
            0 <= x.units(),
            0 <= t.units() <= w,
    ;
    lemma_rank_between(product(x, t), x.units() * t.units(), w, Single { bits: ZERO }, x);
}

/// A positive number with fewer magnitude bits than one is below one.
pub proof fn lemma_below_one(x: Single)
    requires
        x.bits < ONE,
    ensures
        x.finite(),
        0 <= x.units() <= one_unit(),
{
    lemma_constants();
    law_order_is_by_value(x, Single { bits: ONE });
    law_order_is_by_value(Single { bits: ZERO }, x);
}

/// A product with a number in `0..=1` is finite.
pub proof fn lemma_part_is_finite(x: Single, t: Single)
    requires
        x.finite(),
        t.finite(),
        0 <= t.units() <= one_unit(),
    ensures
        product(x, t).finite(),
{
    let w = one_unit();
    lemma_constants();
    lemma_product_rank(x, t);
    let up = signed(false, x.magnitude());
    let down = signed(true, x.magnitude());
    let u = x.absolute_units();
    assert(-(u as int) * w <= x.units() * t.units() && x.units() * t.units() <= u * w)
        by (nonlinear_arith)
        requires
            -u <= x.units() <= u,
            0 <= t.units() <= w,
    {
        assert(x.units() * t.units() <= u * t.units());
        assert(u * t.units() <= u * w);
        assert(x.units() * t.units() >= -(u * t.units()));
    }
    lemma_rank_between(product(x, t), x.units() * t.units(), w, down, up);
}

/// A value below the middle between one and the next number rounds to one at
/// most.
pub proof fn lemma_just_above_one(x: Single, num: int, den: nat)
    requires
        den > 0,
        0 <= num < den * (one_unit() + pow2(125)),
        x.rank() == nearest_rank(num, den),
    ensures
        x.finite(),
        0 <= x.units() <= one_unit(),
        0 <= x.rank() <= (Single { bits: ONE }).rank(),
{
    let zero = Single { bits: ZERO };
    let one = Single { bits: ONE };
    let two = Single { bits: TWO };
    let w = one_unit();
    let g = pow2(125);
    lemma_constants();
    lemma2_to64();
    lemma_pow2_pos(125);
    lemma_pow2_adds(125, 24);
    lemma_pow2_unfold(126);
    assert(den * (w + g) <= 2 * w * den && 0 * den == 0) by (nonlinear_arith)
        requires
            g <= w,
            den > 0,
    ;
    lemma_rank_between(x, num, den, zero, two);
    if x.rank() > one.rank() {
        let n = nearest(num as nat, den);
        let next: nat = 0x3F80_0001;
        lemma_units_of_digits(126, 0x80_0001);
        lemma_pow2_adds(126, 23);
        assert(magnitude_units(next) == w + 2 * g);
        lemma_units_order(next, n);
        law_rounding_is_nearest(num as nat, den, one.magnitude());
        let v = magnitude_units(n);
        assert(v * den >= (w + 2 * g) * den) by (nonlinear_arith)
            requires
                v >= w + 2 * g,
        ;
        assert((w + 2 * g) * den == w * den + 2 * (g * den)) by (nonlinear_arith);
        assert(den * (w + g) == w * den + g * den) by (nonlinear_arith);
        assert(g * den > 0) by (nonlinear_arith)
            requires
                g > 0,
                den > 0,
        ;
        assert(false);
    }
    law_order_is_by_value(x, one);
}

} // verus!
