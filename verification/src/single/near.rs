//! How far a rounded result lies off the exact one: by one part in 2^24 at most,
//! or by half a unit where it is small.

use vstd::arithmetic::div_mod::{lemma_fundamental_div_mod, lemma_fundamental_div_mod_converse};
use vstd::arithmetic::power2::{
    lemma2_to64, lemma_pow2_adds, lemma_pow2_pos, lemma_pow2_strictly_increases, lemma_pow2_unfold,
    pow2,
};
use vstd::prelude::*;

use super::arith::{absolute, difference, product, quotient, sum};
use super::convert::{one_unit, rounded};
use super::laws::{
    law_integers_are_exact, law_operands_commute, lemma_constants, lemma_difference_rank,
    lemma_part, lemma_product_rank, lemma_quotient_rank, lemma_rank_between, lemma_rank_error,
    lemma_sum_rank,
};
use super::nearest::{
    lemma_digits_of, lemma_nearest_exact, lemma_units_of_digits, lemma_units_order,
};
use super::root::laws::{law_root_is_nearest, law_root_of_part_is_part};
use super::root::square_root;
use super::{magnitude_units, Single, ONE, TWO};

verus! {

/// A sum of finite numbers is off by one part in 2^24 at most.
pub proof fn law_sum_is_near(a: Single, b: Single)
    requires
        a.finite(),
        b.finite(),
        sum(a, b).finite(),
    ensures
        0x100_0000 * absolute(sum(a, b).units() - (a.units() + b.units())) <= absolute(
            a.units() + b.units(),
        ),
{
    let num = a.units() + b.units();
    let x = sum(a, b);
    lemma_sum_rank(a, b);
    lemma_rank_error(x, num, 1);
    assert(x.units() * 1 == x.units());
}

/// So is a difference.
pub proof fn law_difference_is_near(a: Single, b: Single)
    requires
        a.finite(),
        b.finite(),
        difference(a, b).finite(),
    ensures
        0x100_0000 * absolute(difference(a, b).units() - (a.units() - b.units())) <= absolute(
            a.units() - b.units(),
        ),
{
    let num = a.units() - b.units();
    let x = difference(a, b);
    lemma_difference_rank(a, b);
    lemma_rank_error(x, num, 1);
    assert(x.units() * 1 == x.units());
}

/// A product is off by that, or by half a unit.
pub proof fn law_product_is_near(a: Single, b: Single)
    requires
        a.finite(),
        b.finite(),
        product(a, b).finite(),
    ensures
        0x100_0000 * absolute(product(a, b).units() * one_unit() - a.units() * b.units())
            <= absolute(a.units() * b.units()) + 0x80_0000 * one_unit(),
{
    lemma_constants();
    lemma_product_rank(a, b);
    lemma_rank_error(product(a, b), a.units() * b.units(), one_unit());
}

/// So is a quotient.
pub proof fn law_quotient_is_near(a: Single, b: Single)
    requires
        a.finite(),
        b.finite(),
        b.units() > 0,
        quotient(a, b).finite(),
    ensures
        0x100_0000 * absolute(quotient(a, b).units() * b.units() - a.units() * one_unit())
            <= absolute(a.units() * one_unit()) + 0x80_0000 * b.units(),
{
    lemma_constants();
    lemma_quotient_rank(a, b);
    lemma_rank_error(quotient(a, b), a.units() * one_unit(), b.units() as nat);
}

/// The value of bits that are written down, by their digits. One is `c` times
/// their last digit.
pub proof fn lemma_written(x: Single, e: nat, f: nat, c: nat)
    requires
        x.bits == e * 0x80_0000 + f,
        0x80_0000 <= f <= 0x100_0000,
        e <= 149,
        c == pow2((149 - e) as nat),
    ensures
        x.finite(),
        !x.negative(),
        x.units() == f * pow2(e),
        one_unit() == c * pow2(e),
        pow2(e) > 0,
{
    lemma_units_of_digits(e, f);
    lemma_pow2_adds((149 - e) as nat, e);
    lemma_pow2_pos(e);
}

/// Rounding to an integer gives the next one, exactly; of two it is the one
/// further from zero.
pub proof fn law_rounded_is_next_integer(x: Single) -> (n: nat)
    requires
        x.finite(),
        0 <= x.units(),
    ensures
        rounded(x).finite(),
        rounded(x).units() == n * one_unit(),
        2 * absolute(n * one_unit() - x.units()) <= one_unit(),
        2 * x.units() < 2 * (n * one_unit()) + one_unit(),
        !x.negative() ==> !rounded(x).negative(),
{
    let w = one_unit();
    let u = x.absolute_units();
    lemma_constants();
    lemma_units_order(0, x.magnitude());
    let n = ((2 * u + w) / (2 * w)) as nat;
    lemma_fundamental_div_mod((2 * u + w) as int, (2 * w) as int);
    assert((2 * w) * n == 2 * (n * w)) by (nonlinear_arith);
    if u < 0x100_0000 * w {
        assert(n <= 0x100_0000) by (nonlinear_arith)
            requires
                2 * (n * w) <= 2 * u + w,
                u < 0x100_0000 * w,
                w > 0,
        {
            if n > 0x100_0000 {
                assert(n * w >= 0x100_0001 * w);
            }
        }
        law_integers_are_exact(n);
        if u == 0 {
            assert(n == 0) by (nonlinear_arith)
                requires
                    2 * (n * w) <= w,
                    w > 0,
            ;
            assert(0 * w == 0);
        }
    } else {
        let (e, f) = lemma_digits_of(x.magnitude());
        if e < 150 {
            if e < 149 {
                lemma_pow2_strictly_increases(e, 149);
            }
            let p = pow2(e);
            assert(f * p < 0x100_0000 * w) by (nonlinear_arith)
                requires
                    f < 0x100_0000,
                    0 <= p <= w,
                    w > 0,
            {
                assert(f * p <= f * w);
            }
            assert(false);
        }
        let d = (e - 149) as nat;
        lemma_pow2_adds(d, 149);
        let k = f * pow2(d);
        assert(u == k * w && 2 * u == k * (2 * w)) by (nonlinear_arith)
            requires
                u == f * pow2(e),
                pow2(e) == pow2(d) * w,
                k == f * pow2(d),
        ;
        lemma_fundamental_div_mod_converse(
            (2 * u + w) as int,
            (2 * w) as int,
            k as int,
            w as int,
        );
        lemma_nearest_exact(x.magnitude(), 1);
        assert(u * 1 == u);
    }
    n
}

/// One plus a part of a gain: `gain` is `num` fifths, off by 2^-22 at most.
pub proof fn lemma_one_plus(gain: Single, h: Single, num: int)
    requires
        gain.finite(),
        0 <= gain.units() <= one_unit(),
        h.finite(),
        0 <= h.units() <= one_unit(),
        0 <= num <= 5,
        0x40_0000 * absolute(5 * gain.units() - num * one_unit()) <= one_unit(),
    ensures
        ({
            let f = sum(Single { bits: ONE }, product(gain, h));
            &&& f.finite()
            &&& one_unit() <= f.units() <= 2 * one_unit()
            &&& 0x8_0000 * absolute(5 * f.units() - (5 * one_unit() + num * h.units()))
                <= one_unit()
        }),
{
    let one = Single { bits: ONE };
    let w = one_unit();
    let g = gain.units();
    let t = h.units();
    lemma_constants();
    lemma_part(gain, h);
    let p = product(gain, h);
    law_product_is_near(gain, h);
    lemma_sum_rank(one, p);
    lemma_rank_between(sum(one, p), w + p.units(), 1, one, Single { bits: TWO });
    law_sum_is_near(one, p);
    let q = p.units();
    assert(0x10_0000 * absolute(5 * q - num * t) <= w) by (nonlinear_arith)
        requires
            0x100_0000 * absolute(q * w - g * t) <= absolute(g * t) + 0x80_0000 * w,
            0x40_0000 * absolute(5 * g - num * w) <= w,
            0 <= g <= w,
            0 <= t <= w,
            w >= 0x100_0000_0000,
    {
        let x = q * w - g * t;
        let y = 5 * g - num * w;
        let off = 5 * q - num * t;
        assert(off * w == 5 * x + t * y);
        assert(0 <= g * t && g * t <= w * w && 0x80_0000 * w <= w * w);
        assert(0x40_0000 * absolute(t * y) <= w * w) by {
            if y >= 0 {
                assert(t * y >= 0 && t * (0x40_0000 * y) <= t * w && t * w <= w * w);
            } else {
                assert(t * y <= 0 && t * (0x40_0000 * (-y)) <= t * w && t * w <= w * w);
            }
        }
        assert(0x80_0000 * absolute(x) <= w * w + 0x40_0000 * w);
        assert(0x100_0000 * w <= w * w);
        if off >= 0 {
            assert(off * w >= 0 && (0x10_0000 * off) * w <= w * w);
        } else {
            assert(off * w < 0 && (0x10_0000 * (-off)) * w <= w * w);
        }
    }
}

/// `r` units are what `from` and `way` add up to, both given in units of units:
/// off by 2^-22 of the two, and by one unit.
pub open spec fn is_moved(r: int, from: int, way: int) -> bool {
    let w = one_unit();
    0x40_0000 * absolute(r * w - (from + way)) <= absolute(from) + absolute(way) + 0x40_0000 * w
}

/// A number plus a product of two others, each step rounded.
pub proof fn law_sum_with_product_is_near(a: Single, x: Single, y: Single)
    requires
        a.finite(),
        x.finite(),
        y.finite(),
        product(x, y).finite(),
        sum(a, product(x, y)).finite(),
    ensures
        is_moved(
            sum(a, product(x, y)).units(),
            a.units() * one_unit(),
            x.units() * y.units(),
        ),
{
    let w = one_unit();
    lemma_constants();
    law_product_is_near(x, y);
    law_sum_is_near(a, product(x, y));
    let p = product(x, y).units();
    let u = a.units();
    let e = x.units() * y.units();
    let r = sum(a, product(x, y)).units();
    let z = r - (u + p);
    let v = p * w - e;
    assert(r * w - (u * w + e) == z * w + v) by (nonlinear_arith)
        requires
            z == r - (u + p),
            v == p * w - e,
    ;
    assert(0x100_0000 * absolute(z * w) <= absolute(u * w) + absolute(p * w)) by (nonlinear_arith)
        requires
            0x100_0000 * absolute(z) <= absolute(u + p),
            w > 0,
    {
        assert(absolute(z * w) == absolute(z) * w);
        assert(absolute(u * w) == absolute(u) * w && absolute(p * w) == absolute(p) * w);
        assert(absolute(u + p) <= absolute(u) + absolute(p));
        assert((0x100_0000 * absolute(z)) * w <= (absolute(u) + absolute(p)) * w);
    }
}

/// A square root is off by 2^-22 of what it is the root of, once squared.
pub proof fn law_root_is_near(x: Single)
    requires
        x.finite(),
        0x100_0000 <= x.units() <= one_unit(),
    ensures
        square_root(x).finite(),
        0 <= square_root(x).units() <= one_unit(),
        0x40_0000 * absolute(
            square_root(x).units() * square_root(x).units() - x.units() * one_unit(),
        ) <= x.units() * one_unit(),
{
    let w = one_unit();
    let u = x.units();
    lemma_constants();
    lemma_units_order(0, x.magnitude());
    let y = square_root(x);
    law_root_of_part_is_part(x);
    law_root_is_nearest(x, 0);
    let r = y.units();
    let exact = u * w;
    assert(exact >= 0x100_0000 * 0x100_0000_0000) by (nonlinear_arith)
        requires
            exact == u * w,
            u >= 0x100_0000,
            w >= 0x100_0000_0000,
    ;
    let (e, f) = lemma_digits_of(y.magnitude());
    let t = pow2(e);
    lemma_pow2_pos(e);
    lemma_root_is_large(x);
    assert(e >= 1) by {
        if e == 0 {
            lemma2_to64();
            assert(f * 1 == f);
        }
    }
    // The next number, and the one before.
    lemma_units_of_digits(e, f + 1);
    law_root_is_nearest(x, e * 0x80_0000 + f + 1);
    assert((f + 1) * t == r + t) by (nonlinear_arith)
        requires
            r == f * t,
    ;
    let h = pow2((e - 1) as nat);
    lemma_pow2_unfold(e);
    let below_it: nat = if f > 0x80_0000 {
        lemma_units_of_digits(e, (f - 1) as nat);
        assert((f - 1) * t == r - t) by (nonlinear_arith)
            requires
                r == f * t,
        ;
        (e * 0x80_0000 + f - 1) as nat
    } else {
        lemma2_to64();
        if e == 1 {
            lemma_units_of_digits(0, 0xFF_FFFF);
        } else {
            lemma_units_of_digits((e - 1) as nat, 0xFF_FFFF);
        }
        assert(0xFF_FFFF * h == 0x80_0000 * (2 * h) - h) by (nonlinear_arith);
        ((e - 1) * 0x80_0000 + 0xFF_FFFF) as nat
    };
    law_root_is_nearest(x, below_it);
    let prev = magnitude_units(below_it) as int;
    assert(r - t <= prev < r);
    assert(0x80_0000 * t <= r) by (nonlinear_arith)
        requires
            r == f * t,
            f >= 0x80_0000,
            t > 0,
    ;
    assert(4 * exact <= (2 * r + t) * (2 * r + t));
    assert((2 * r - t) * (2 * r - t) <= 4 * exact) by (nonlinear_arith)
        requires
            (r + prev) * (r + prev) <= 4 * exact,
            0 <= 2 * r - t <= r + prev,
    ;
    assert(0x40_0000 * absolute(r * r - exact) <= exact) by (nonlinear_arith)
        requires
            4 * exact <= (2 * r + t) * (2 * r + t),
            (2 * r - t) * (2 * r - t) <= 4 * exact,
            0 < t,
            0x80_0000 * t <= r,
    {
        assert((2 * r + t) * (2 * r + t) == 4 * (r * r) + 4 * (r * t) + t * t);
        assert((2 * r - t) * (2 * r - t) == 4 * (r * r) - 4 * (r * t) + t * t);
        assert(0x80_0000 * (r * t) <= r * r);
        assert(0x80_0000 * (t * t) <= r * t);
        assert(t * t >= 0 && r * t >= 0);
    }
}

/// The root of a number from 2^24 units on has all its digits.
proof fn lemma_root_is_large(x: Single)
    requires
        x.finite(),
        0x100_0000 <= x.units() <= one_unit(),
    ensures
        square_root(x).units() >= 0x100_0000,
{
    let w = one_unit();
    let u = x.units();
    lemma_constants();
    lemma_units_order(0, x.magnitude());
    lemma2_to64();
    lemma_units_of_digits(1, 0x80_0000);
    let r = square_root(x).units();
    law_root_is_nearest(x, 0x100_0000);
    assert(4 * (u * w) > 0x400_0000 * 0x400_0000) by (nonlinear_arith)
        requires
            u >= 0x100_0000,
            w >= 0x100_0000_0000,
    {
        assert(u * w >= 0x100_0000 * 0x100_0000_0000);
    }
    let other = magnitude_units(0x100_0000) as int;
    assert(other == 0x100_0000);
    if other > r {
        law_root_is_nearest(x, 0);
        assert((r + other) * (r + other) <= 0x200_0000 * 0x200_0000) by (nonlinear_arith)
            requires
                0 <= r + other <= 0x200_0000,
        ;
    }
}

/// `r` is `num / den` times `x`, all in units: off by 2^-21 of it, and by one
/// unit.
pub open spec fn is_times(r: int, x: int, num: int, den: int) -> bool {
    0x20_0000 * absolute(den * r - num * x) <= num * absolute(x) + 0x20_0000 * den
}

/// A product with a number that is `num / den`, but for its own rounding.
pub proof fn lemma_times_constant(x: Single, k: Single, num: int, den: int)
    requires
        x.finite(),
        k.finite(),
        0 <= k.units(),
        product(x, k).finite(),
        0 < num,
        0 < den,
        0x80_0000 * absolute(den * k.units() - num * one_unit()) <= num * one_unit(),
    ensures
        is_times(product(x, k).units(), x.units(), num, den),
        is_times(product(k, x).units(), x.units(), num, den),
{
    let w = one_unit();
    lemma_constants();
    law_product_is_near(x, k);
    law_operands_commute(x, k);
    let u = x.units();
    let v = k.units();
    let r = product(x, k).units();
    let a = absolute(u) as int;
    let e = r * w - u * v;
    let y = den * v - num * w;
    let off = den * r - num * u;
    assert(off * w == den * e + u * y) by (nonlinear_arith)
        requires
            e == r * w - u * v,
            y == den * v - num * w,
            off == den * r - num * u,
    ;
    let naw = (num * a) * w;
    assert(den * absolute(u * v) <= 2 * naw && naw >= 0) by (nonlinear_arith)
        requires
            0 <= v,
            0 < den,
            0 < num,
            den * v <= 2 * (num * w),
            a == absolute(u),
            naw == (num * a) * w,
            w > 0,
    {
        assert(absolute(u * v) == a * v);
        assert(den * (a * v) == a * (den * v));
        assert(a * (den * v) <= a * (2 * (num * w)));
        assert(a * (2 * (num * w)) == 2 * ((num * a) * w));
    }
    assert(0x80_0000 * absolute(u * y) <= naw) by (nonlinear_arith)
        requires
            0x80_0000 * absolute(y) <= num * w,
            a == absolute(u),
            naw == (num * a) * w,
    {
        assert(absolute(u * y) == a * absolute(y));
        assert(a * (0x80_0000 * absolute(y)) <= a * (num * w));
        assert(a * (num * w) == (num * a) * w);
    }
    assert(0x100_0000 * absolute(den * e) <= 2 * naw + den * (0x80_0000 * w)) by (nonlinear_arith)
        requires
            0x100_0000 * absolute(e) <= absolute(u * v) + 0x80_0000 * w,
            den * absolute(u * v) <= 2 * naw,
            0 < den,
    {
        assert(absolute(den * e) == den * absolute(e));
        assert(den * (0x100_0000 * absolute(e)) <= den * (absolute(u * v) + 0x80_0000 * w));
    }
    assert(0x20_0000 * absolute(off) <= num * a + 0x20_0000 * den) by (nonlinear_arith)
        requires
            0x100_0000 * absolute(off * w) <= 4 * naw + den * (0x80_0000 * w),
            naw == (num * a) * w,
            w > 0,
            den > 0,
            num > 0,
            a >= 0,
    {
        assert(absolute(off * w) == absolute(off) * w);
        assert((0x100_0000 * absolute(off)) * w <= (4 * (num * a) + den * 0x80_0000) * w);
        assert(0x100_0000 * absolute(off) <= 4 * (num * a) + den * 0x80_0000);
        assert(num * a >= 0);
    }
}

} // verus!
