//! Where the numbers end: integers, signs, infinities and what is not a number.

use vstd::arithmetic::div_mod::{lemma_fundamental_div_mod, lemma_fundamental_div_mod_converse};
use vstd::arithmetic::power2::{
    lemma2_to64, lemma2_to64_rest, lemma_pow2_adds, lemma_pow2_strictly_increases,
    lemma_pow2_unfold, pow2,
};
use vstd::prelude::*;

use super::arith::{absolute, difference, opposite, product, quotient, sum};
use super::convert::{floored, one_unit, rounded, saturated, whole};
use super::laws::{
    law_integers_are_exact, law_rounding_is_exact, law_rounding_is_monotone, lemma_constants,
    lemma_product_rank, lemma_quotient_rank, lemma_rank_between, lemma_rank_error,
    lemma_scaled_number, lemma_sum_rank, nearest_rank,
};
use super::nearest::{
    lemma_digits_of, lemma_nearest_exact, lemma_units_of_digits, lemma_units_order,
};
use super::order::{at_most, below, confined, greater, law_order_is_by_value, same};
use super::root::square_root;
use super::{magnitude_units, Single, INFINITE};

verus! {

/// The number before infinity.
pub open spec fn largest() -> Single {
    Single { bits: 0x7F7F_FFFF }
}

/// The integer that is not above a number and less than one away from it is
/// a number too.
pub proof fn law_floored_is_integer_below(x: Single) -> (n: int)
    requires
        x.finite(),
    ensures
        floored(x).finite(),
        floored(x).units() == n * one_unit(),
        n * one_unit() <= x.units() < (n + 1) * one_unit(),
{
    let w = one_unit() as int;
    let u = x.units();
    let n = u / w;
    lemma_constants();
    lemma_fundamental_div_mod(u, w);
    assert(w * n == n * w && (n + 1) * w == n * w + w) by (nonlinear_arith);
    lemma_units_order(0, x.magnitude());
    assert(x.negative() ==> n <= 0) by (nonlinear_arith)
        requires
            x.negative() ==> u <= 0,
            n * w <= u,
            w > 0,
    ;
    assert(!x.negative() ==> n >= 0) by (nonlinear_arith)
        requires
            !x.negative() ==> u >= 0,
            u < n * w + w,
            w > 0,
    ;
    let k = absolute(n);
    if absolute(u) < 0xFF_FFFF * w {
        assert(k <= 0x100_0000) by (nonlinear_arith)
            requires
                absolute(u) < 0xFF_FFFF * w,
                n * w <= u,
                u < n * w + w,
                k == absolute(n),
                w > 0,
        {
            if n > 0x100_0000 {
                assert(n * w >= 0x100_0001 * w);
            }
            if n < -0x100_0000 {
                assert(n * w <= -0x100_0001 * w);
            }
        }
        law_integers_are_exact(k);
        assert(floored(x).absolute_units() == k * w);
    } else {
        let (e, f) = lemma_digits_of(x.magnitude());
        if e < 149 {
            lemma_pow2_strictly_increases(e, 149);
            let p = pow2(e);
            lemma_pow2_adds(e, (149 - e) as nat);
            lemma_half_at_most(e);
            assert(f * p < 0xFF_FFFF * w) by (nonlinear_arith)
                requires
                    f < 0x100_0000,
                    0 <= 2 * p <= w,
                    w > 0,
            {
                assert(f * (2 * p) <= f * w);
                assert(f * w <= 0x100_0000 * w);
            }
            assert(false);
        }
        let d = (e - 149) as nat;
        lemma_pow2_adds(d, 149);
        let j = f * pow2(d);
        assert(x.absolute_units() == j * one_unit()) by (nonlinear_arith)
            requires
                x.absolute_units() == f * pow2(e),
                pow2(e) == pow2(d) * one_unit(),
                j == f * pow2(d),
        ;
        let m = if x.negative() { -(j as int) } else { j as int };
        assert(u == m * w) by (nonlinear_arith)
            requires
                u == (if x.negative() { -(j * w) } else { j * w }),
                m == (if x.negative() { -(j as int) } else { j as int }),
        ;
        lemma_fundamental_div_mod_converse(u, w, m, 0);
        assert(k == j);
        lemma_nearest_exact(x.magnitude(), 1);
        assert(x.absolute_units() * 1 == x.absolute_units());
        assert(floored(x).absolute_units() == k * w);
    }
    assert(n * w == if x.negative() {
        -(k * w)
    } else {
        k * w
    }) by (nonlinear_arith)
        requires
            k == absolute(n),
            x.negative() ==> n <= 0,
            !x.negative() ==> n >= 0,
    ;
    n
}

proof fn lemma_half_at_most(e: nat)
    requires
        e < 149,
    ensures
        2 * pow2(e) <= one_unit(),
{
    lemma_pow2_unfold(e + 1);
    if e + 1 < 149 {
        lemma_pow2_strictly_increases(e + 1, 149);
    }
}

/// A conversion to an integer drops the fraction and stays in `0..=top`.
pub proof fn law_integer_part_is_kept(x: Single, top: nat)
    ensures
        ({
            let n = saturated(x, top);
            let w = one_unit();
            &&& x.nan() ==> n == 0
            &&& x.infinite() ==> n == if x.negative() {
                0
            } else {
                top
            }
            &&& x.finite() && x.units() <= 0 ==> n == 0
            &&& x.finite() && 0 <= x.units() && x.units() < top * w ==> n * w <= x.units() < (n + 1)
                * w
            &&& x.finite() && x.units() >= top * w ==> n == top
        }),
{
    let w = one_unit();
    lemma_constants();
    lemma_units_order(0, x.magnitude());
    if x.finite() {
        let u = x.absolute_units();
        let n = u / w;
        lemma_fundamental_div_mod(u as int, w as int);
        assert(w * n == n * w && (n + 1) * w == n * w + w) by (nonlinear_arith);
        if u < top * w {
            assert(n < top) by (nonlinear_arith)
                requires
                    n * w <= u,
                    u < top * w,
                    w > 0,
            ;
        } else {
            assert(n >= top) by (nonlinear_arith)
                requires
                    u < n * w + w,
                    u >= top * w,
                    w > 0,
            ;
        }
        if u == 0 {
            assert(n == 0) by (nonlinear_arith)
                requires
                    n * w <= 0,
                    w > 0,
            ;
            assert(0 * w == 0 && (0 + 1) * w == w);
        }
        if x.units() <= 0 && x.units() >= top * w {
            assert(top == 0) by (nonlinear_arith)
                requires
                    top * w <= 0,
                    w > 0,
            ;
        }
    }
}

/// An integer of 64 bits is off by one part in 2^24 at most.
pub proof fn law_integer_is_near(n: nat)
    requires
        n <= u64::MAX,
    ensures
        whole(n).finite(),
        !whole(n).negative(),
        0x100_0000 * absolute(whole(n).units() - n * one_unit()) <= n * one_unit(),
        n <= 0x100_0000 ==> whole(n).units() == n * one_unit(),
{
    let w = one_unit();
    let zero = Single { bits: 0 };
    lemma_constants();
    lemma_pow2_adds(149, 64);
    let large = lemma_scaled_number(2, 213);
    lemma2_to64_rest();
    let num = n * w;
    assert(0 <= num && num <= 2 * (w * 0x1_0000_0000_0000_0000)) by (nonlinear_arith)
        requires
            num == n * w,
            n <= 0xFFFF_FFFF_FFFF_FFFF,
    ;
    let x = whole(n);
    law_rounding_is_exact(large, 1);
    law_rounding_is_monotone(num as int, 1, large.units(), 1);
    assert(x.rank() == nearest_rank(num as int, 1));
    lemma_rank_between(x, num as int, 1, zero, large);
    lemma_rank_error(x, num as int, 1);
    assert(x.units() * 1 == x.units());
    assert(num > 0 ==> num >= 0x80_0000 * 1) by (nonlinear_arith)
        requires
            num == n * w,
            w >= 0x100_0000_0000,
    ;
    if n <= 0x100_0000 {
        law_integers_are_exact(n);
    }
}

/// The sign is turned, and nothing else.
pub proof fn law_opposite_is_negated(a: Single)
    ensures
        opposite(a).finite() == a.finite(),
        opposite(a).nan() == a.nan(),
        opposite(a).negative() != a.negative(),
        a.finite() ==> opposite(a).units() == -a.units(),
        opposite(opposite(a)) == a,
{
}

/// What is not a number makes no number, and is in no order.
pub proof fn law_not_a_number_stays(a: Single, b: Single)
    requires
        a.nan() || b.nan(),
    ensures
        sum(a, b).nan(),
        difference(a, b).nan(),
        product(a, b).nan(),
        quotient(a, b).nan(),
        a.nan() ==> square_root(a).nan() && rounded(a).nan() && floored(a).nan(),
        !below(a, b),
        !at_most(a, b),
        !same(a, b),
        a.nan() ==> greater(a, b) == b,
        b.nan() ==> greater(a, b) == a || a.nan(),
{
}

/// An infinity lies beyond every finite number, and operations with it have the
/// sign that they have by value.
pub proof fn law_infinities(a: Single, b: Single)
    requires
        a.infinite(),
        b.finite(),
    ensures
        a.negative() ==> below(a, b),
        !a.negative() ==> below(b, a),
        sum(a, b) == a,
        sum(b, a) == a,
        b.units() == 0 ==> product(a, b).nan() && product(b, a).nan(),
        b.units() != 0 ==> {
            &&& product(a, b).infinite()
            &&& product(a, b).negative() == (a.negative() != b.negative())
            &&& product(b, a) == product(a, b)
        },
        quotient(b, a).finite(),
        quotient(b, a).units() == 0,
        quotient(a, b).infinite(),
        quotient(a, b).negative() == (a.negative() != b.negative()),
        !a.negative() ==> square_root(a) == a,
        rounded(a) == a,
        floored(a) == a,
{
    lemma_constants();
    lemma_units_order(0, b.magnitude());
}

/// Zero divides nothing, and a negative number has no root.
pub proof fn law_no_value(a: Single, b: Single)
    requires
        a.finite(),
        b.finite(),
    ensures
        b.units() == 0 && a.units() == 0 ==> quotient(a, b).nan(),
        b.units() == 0 && a.units() != 0 ==> {
            &&& quotient(a, b).infinite()
            &&& quotient(a, b).negative() == (a.negative() != b.negative())
        },
        a.units() < 0 ==> square_root(a).nan(),
        a.units() == 0 ==> square_root(a) == a,
{
    lemma_units_order(0, a.magnitude());
    lemma_units_order(0, b.magnitude());
}

/// The result is finite up to the largest number, and an infinity from 2^128 on.
proof fn lemma_at_the_end(x: Single, num: int, den: nat)
    requires
        den > 0,
        x.rank() == nearest_rank(num, den),
    ensures
        absolute(num) <= largest().units() * den ==> x.finite(),
        absolute(num) >= magnitude_units(INFINITE as nat) * den ==> x.infinite() && x.negative()
            == (num < 0),
{
    let big = largest();
    let top = magnitude_units(INFINITE as nat);
    lemma_units_order(0, big.magnitude());
    lemma_units_order(0, INFINITE as nat);
    if absolute(num) <= big.units() * den {
        law_opposite_is_negated(big);
        assert((-big.units()) * den == -(big.units() * den)) by (nonlinear_arith);
        lemma_rank_between(x, num, den, opposite(big), big);
    }
    if absolute(num) >= top * den {
        lemma_nearest_exact(INFINITE as nat, den);
        assert(top * den > 0) by (nonlinear_arith)
            requires
                top > 0,
                den > 0,
        ;
        let edge = (top * den) as int;
        assert(absolute(edge) == edge && absolute(-edge) == edge);
        if num > 0 {
            assert(edge * den <= num * den) by (nonlinear_arith)
                requires
                    edge <= num,
                    den > 0,
            ;
            law_rounding_is_monotone(edge, den, num, den);
        } else {
            assert(num * den <= (-edge) * den) by (nonlinear_arith)
                requires
                    num <= -edge,
                    den > 0,
            ;
            law_rounding_is_monotone(num, den, -edge, den);
        }
    }
}

/// Where sums, products and quotients are finite.
pub proof fn law_large_results(a: Single, b: Single)
    requires
        a.finite(),
        b.finite(),
    ensures
        ({
            let w = one_unit();
            let big = largest().units();
            let top = magnitude_units(INFINITE as nat);
            let total = a.units() + b.units();
            let times = a.units() * b.units();
            let part = a.units() * w;
            &&& absolute(total) <= big ==> sum(a, b).finite()
            &&& absolute(total) >= top ==> sum(a, b).infinite() && sum(a, b).negative() == (total
                < 0)
            &&& absolute(times) <= big * w ==> product(a, b).finite()
            &&& absolute(times) >= top * w ==> product(a, b).infinite() && product(a, b).negative()
                == (times < 0)
            &&& b.units() > 0 && absolute(part) <= big * b.units() ==> quotient(a, b).finite()
            &&& b.units() > 0 && absolute(part) >= top * b.units() ==> quotient(a, b).infinite()
                && quotient(a, b).negative() == (part < 0)
        }),
{
    let w = one_unit();
    lemma_constants();
    lemma_sum_rank(a, b);
    lemma_at_the_end(sum(a, b), a.units() + b.units(), 1);
    lemma_product_rank(a, b);
    lemma_at_the_end(product(a, b), a.units() * b.units(), w);
    if b.units() > 0 {
        lemma_quotient_rank(a, b);
        lemma_at_the_end(quotient(a, b), a.units() * w, b.units() as nat);
    }
}

/// What is drawn into a range is the nearest number in it, and of two numbers
/// the greater one is taken.
pub proof fn law_range_is_by_value(x: Single, low: Single, high: Single)
    requires
        x.finite(),
        low.finite(),
        high.finite(),
        low.units() <= high.units(),
    ensures
        confined(x, low, high).finite(),
        confined(x, low, high).units() == if x.units() < low.units() {
            low.units()
        } else if x.units() > high.units() {
            high.units()
        } else {
            x.units()
        },
        greater(x, low).finite(),
        greater(x, low).units() == if x.units() < low.units() {
            low.units()
        } else {
            x.units()
        },
{
    law_order_is_by_value(x, low);
    law_order_is_by_value(high, x);
}

/// Signs multiply, and rounding does not see them.
pub proof fn law_signs_are_symmetric(a: Single, b: Single)
    requires
        a.finite(),
        b.finite(),
    ensures
        product(opposite(a), b) == opposite(product(a, b)),
        product(a, opposite(b)) == opposite(product(a, b)),
        a.units() != 0 || b.units() != 0 ==> {
            &&& quotient(opposite(a), b) == opposite(quotient(a, b))
            &&& quotient(a, opposite(b)) == opposite(quotient(a, b))
        },
        a.units() + b.units() != 0 ==> sum(opposite(a), opposite(b)) == opposite(sum(a, b)),
        a.units() == b.units() ==> difference(a, b).zero(),
        rounded(opposite(a)) == opposite(rounded(a)),
{
    law_opposite_is_negated(a);
    law_opposite_is_negated(b);
    lemma_units_order(0, a.magnitude());
    lemma_units_order(0, b.magnitude());
    assert(absolute(-(a.units() + b.units())) == absolute(a.units() + b.units()));
}

/// Two infinities: equal where the signs are, and without a difference then.
pub proof fn law_two_infinities(a: Single, b: Single)
    requires
        a.infinite(),
        b.infinite(),
    ensures
        same(a, b) <==> a.negative() == b.negative(),
        below(a, b) <==> a.negative() && !b.negative(),
        a.negative() == b.negative() ==> sum(a, b) == a && difference(a, b).nan(),
        a.negative() != b.negative() ==> sum(a, b).nan() && difference(a, b) == a,
        product(a, b).infinite(),
        product(a, b).negative() == (a.negative() != b.negative()),
        quotient(a, b).nan(),
        a.negative() ==> square_root(a).nan(),
{
}

/// A number of 2^91 at most, far from where numbers end.
pub open spec fn is_moderate(x: Single) -> bool {
    x.finite() && absolute(x.units()) <= pow2(240)
}

/// Products are as large as their parts allow.
pub proof fn lemma_product_within(a: Single, b: Single, k: nat, j: nat)
    requires
        a.finite(),
        b.finite(),
        absolute(a.units()) <= pow2(k),
        absolute(b.units()) <= pow2(j),
        149 <= k + j <= 399,
    ensures
        product(a, b).finite(),
        absolute(product(a, b).units()) <= pow2((k + j - 149) as nat),
{
    let w = one_unit();
    let n = (k + j - 149) as nat;
    let x = lemma_scaled_number(1, n);
    lemma_constants();
    lemma_product_rank(a, b);
    lemma_pow2_adds(k, j);
    lemma_pow2_adds(n, 149);
    let u = a.units();
    let v = b.units();
    let p = pow2(k);
    let q = pow2(j);
    assert(-((p * q) as int) <= u * v && u * v <= p * q) by (nonlinear_arith)
        requires
            absolute(u) <= p,
            absolute(v) <= q,
    {
        assert(absolute(u * v) == absolute(u) * absolute(v));
        assert(absolute(u) * absolute(v) <= p * q);
    }
    law_opposite_is_negated(x);
    assert(1 * pow2(n) == pow2(n));
    assert((-x.units()) * w == -(x.units() * w)) by (nonlinear_arith);
    lemma_rank_between(product(a, b), u * v, w, opposite(x), x);
}

/// So are sums.
pub proof fn lemma_sum_within(a: Single, b: Single, k: nat)
    requires
        a.finite(),
        b.finite(),
        absolute(a.units()) <= pow2(k),
        absolute(b.units()) <= pow2(k),
        k <= 249,
    ensures
        sum(a, b).finite(),
        absolute(sum(a, b).units()) <= pow2(k + 1),
{
    let x = lemma_scaled_number(1, k + 1);
    lemma_pow2_unfold(k + 1);
    lemma_sum_rank(a, b);
    law_opposite_is_negated(x);
    assert(1 * pow2(k + 1) == pow2(k + 1));
    lemma_rank_between(sum(a, b), a.units() + b.units(), 1, opposite(x), x);
}

/// A number that is written down, by its exponent.
pub proof fn lemma_written_within(x: Single, e: nat, k: nat)
    requires
        e <= 225,
        x.bits < (e + 2) * 0x80_0000,
        k == e + 24,
    ensures
        x.finite(),
        0 <= x.units() <= pow2(k),
{
    let m = (e + 2) * 0x80_0000;
    lemma_units_order(x.magnitude(), m as nat);
    lemma_units_order(0, x.magnitude());
    lemma_pow2_adds(24, e);
    lemma2_to64();
    lemma_units_of_digits(e + 1, 0x80_0000);
    lemma_pow2_unfold(e + 1);
    assert(0x80_0000 * (2 * pow2(e)) == 0x100_0000 * pow2(e)) by (nonlinear_arith);
}

/// More is allowed by a greater exponent.
pub proof fn lemma_within_more(x: Single, k: nat, j: nat)
    requires
        absolute(x.units()) <= pow2(k),
        k <= j,
    ensures
        absolute(x.units()) <= pow2(j),
{
    if k < j {
        lemma_pow2_strictly_increases(k, j);
    }
}

} // verus!
