//! What rounding to nearest promises: exact where it can be, monotone, and as
//! close as any binary32 number.

use vstd::arithmetic::div_mod::{lemma_fundamental_div_mod, lemma_fundamental_div_mod_converse};
use vstd::arithmetic::power2::{
    lemma2_to64, lemma_pow2_adds, lemma_pow2_pos, lemma_pow2_strictly_increases, lemma_pow2_unfold,
    pow2,
};
use vstd::prelude::*;

use super::rounding::{
    half_even, lemma_half_even_range, lemma_scale_bounds, lemma_scale_is, nearest, scale,
};
use super::{magnitude_units, INFINITE};

verus! {

/// The kept digits `f` above `e` dropped ones stand for `f * 2^e` units.
pub proof fn lemma_units_of_digits(e: nat, f: nat)
    requires
        f <= 0x100_0000,
        e > 0 ==> f >= 0x80_0000,
    ensures
        magnitude_units(e * 0x80_0000 + f) == f * pow2(e),
{
    let m = e * 0x80_0000 + f;
    lemma2_to64();
    if f == 0x100_0000 {
        lemma_fundamental_div_mod_converse(m as int, 0x80_0000, e as int + 2, 0);
        lemma_pow2_unfold(e + 1);
        assert(0x80_0000 * pow2(e + 1) == 0x100_0000 * pow2(e));
    } else if f >= 0x80_0000 {
        lemma_fundamental_div_mod_converse(m as int, 0x80_0000, e as int + 1, f - 0x80_0000);
    } else {
        assert(m == f);
    }
}

/// Any magnitude bits are such digits.
pub proof fn lemma_digits_of(m: nat) -> (r: (nat, nat))
    ensures
        m == r.0 * 0x80_0000 + r.1,
        r.1 < 0x100_0000,
        r.0 > 0 ==> r.1 >= 0x80_0000,
        magnitude_units(m) == r.1 * pow2(r.0),
{
    lemma2_to64();
    if m < 0x80_0000 {
        lemma_units_of_digits(0, m);
        (0, m)
    } else {
        let e = (m / 0x80_0000 - 1) as nat;
        let f = (0x80_0000 + m % 0x80_0000) as nat;
        lemma_fundamental_div_mod(m as int, 0x80_0000);
        assert(m == e * 0x80_0000 + f);
        lemma_units_of_digits(e, f);
        (e, f)
    }
}

/// Greater magnitude bits stand for a greater value.
pub proof fn lemma_units_increase(a: nat, b: nat)
    requires
        a < b,
    ensures
        magnitude_units(a) < magnitude_units(b),
{
    let (ea, fa) = lemma_digits_of(a);
    let (eb, fb) = lemma_digits_of(b);
    let pa = pow2(ea);
    let pb = pow2(eb);
    lemma_pow2_pos(ea);
    lemma_pow2_pos(eb);
    if ea == eb {
        assert(fa * pa < fb * pa) by (nonlinear_arith)
            requires
                fa < fb,
                pa > 0,
        ;
    } else {
        assert(ea < eb) by {
            if eb < ea {
                assert(ea * 0x80_0000 >= (eb + 1) * 0x80_0000);
            }
        }
        lemma_pow2_adds((ea + 1) as nat, (eb - ea - 1) as nat);
        lemma_pow2_pos((eb - ea - 1) as nat);
        lemma_pow2_unfold((ea + 1) as nat);
        let k = pow2((eb - ea - 1) as nat);
        assert(fa * pa < fb * pb) by (nonlinear_arith)
            requires
                fa < 0x100_0000,
                fb >= 0x80_0000,
                pb == (2 * pa) * k,
                k >= 1,
                pa > 0,
        {
            assert(fa * pa < 0x100_0000 * pa);
            assert(pb >= 2 * pa);
            assert(fb * pb >= 0x80_0000 * pb);
            assert(0x80_0000 * pb >= 0x80_0000 * (2 * pa));
        }
    }
}

/// The order of magnitude bits is the order of values.
pub proof fn lemma_units_order(a: nat, b: nat)
    ensures
        a < b <==> magnitude_units(a) < magnitude_units(b),
        a <= b <==> magnitude_units(a) <= magnitude_units(b),
        a == b <==> magnitude_units(a) == magnitude_units(b),
{
    if a < b {
        lemma_units_increase(a, b);
    } else if b < a {
        lemma_units_increase(b, a);
    }
}

/// Rounding is off by at most half of the last digit that is kept.
pub proof fn lemma_half_even_error(num: nat, d: nat)
    requires
        d > 0,
    ensures
        2 * (d * half_even(num, d)) <= 2 * num + d,
        2 * num <= 2 * (d * half_even(num, d)) + d,
{
    lemma_fundamental_div_mod(num as int, d as int);
    let q = num / d;
    assert(d * (q + 1) == d * q + d) by (nonlinear_arith);
}

/// A larger value rounds to no smaller an integer.
proof fn lemma_half_even_monotone(n1: nat, d1: nat, n2: nat, d2: nat)
    requires
        d1 > 0,
        d2 > 0,
        n1 * d2 <= n2 * d1,
    ensures
        half_even(n1, d1) <= half_even(n2, d2),
{
    let q1 = n1 / d1;
    let r1 = n1 % d1;
    let q2 = n2 / d2;
    let r2 = n2 % d2;
    lemma_fundamental_div_mod(n1 as int, d1 as int);
    lemma_fundamental_div_mod(n2 as int, d2 as int);
    // n1 * d2 == q1 * (d1 * d2) + r1 * d2
    let dd = d1 * d2;
    assert(n1 * d2 == q1 * dd + r1 * d2) by (nonlinear_arith)
        requires
            n1 == d1 * q1 + r1,
            dd == d1 * d2,
    ;
    assert(n2 * d1 == q2 * dd + r2 * d1) by (nonlinear_arith)
        requires
            n2 == d2 * q2 + r2,
            dd == d1 * d2,
    ;
    assert(r1 * d2 < dd && r2 * d1 < dd && dd > 0) by (nonlinear_arith)
        requires
            r1 < d1,
            r2 < d2,
            d1 > 0,
            d2 > 0,
            dd == d1 * d2,
    ;
    assert(q1 <= q2) by (nonlinear_arith)
        requires
            q1 * dd + r1 * d2 <= q2 * dd + r2 * d1,
            r2 * d1 < dd,
            0 <= r1 * d2,
            dd > 0,
    {
        if q1 > q2 {
            assert(q1 * dd >= (q2 + 1) * dd);
        }
    }
    if q1 == q2 {
        assert(2 * r1 >= d1 ==> 2 * r2 >= d2) by (nonlinear_arith)
            requires
                r1 * d2 <= r2 * d1,
                d1 > 0,
                d2 > 0,
        {
            if 2 * r1 >= d1 && 2 * r2 < d2 {
                assert((2 * r1) * d2 >= d1 * d2);
                assert((2 * r2) * d1 < d2 * d1);
            }
        }
        assert(2 * r1 > d1 ==> 2 * r2 > d2) by (nonlinear_arith)
            requires
                r1 * d2 <= r2 * d1,
                d1 > 0,
                d2 > 0,
        {
            if 2 * r1 > d1 && 2 * r2 <= d2 {
                assert((2 * r1) * d2 > d1 * d2);
                assert((2 * r2) * d1 <= d2 * d1);
            }
        }
    }
}

/// A larger value rounds to no smaller a number.
pub proof fn lemma_nearest_monotone(n1: nat, d1: nat, n2: nat, d2: nat)
    requires
        d1 > 0,
        d2 > 0,
        n1 * d2 <= n2 * d1,
    ensures
        nearest(n1, d1) <= nearest(n2, d2),
{
    let e1 = scale(n1, d1);
    let e2 = scale(n2, d2);
    lemma_scale_bounds(n1, d1);
    lemma_scale_bounds(n2, d2);
    lemma_half_even_range(n1, d1);
    lemma_half_even_range(n2, d2);
    lemma_pow2_pos(e1);
    lemma_pow2_pos(e2);
    if e1 > e2 {
        // n1 >= d1 * 2^(e1 + 23) >= d1 * 2^(e2 + 24) and n2 < d2 * 2^(e2 + 24)
        let p = pow2((e1 + 23) as nat);
        let q = pow2((e2 + 24) as nat);
        if e2 + 24 < e1 + 23 {
            lemma_pow2_strictly_increases(e2 + 24, (e1 + 23) as nat);
        }
        assert(false) by (nonlinear_arith)
            requires
                n1 * d2 <= n2 * d1,
                n1 >= d1 * p,
                n2 < d2 * q,
                q <= p,
                d1 > 0,
                d2 > 0,
        {
            assert(n1 * d2 >= (d1 * p) * d2);
            assert(n2 * d1 < (d2 * q) * d1);
            assert((d2 * q) * d1 == (d1 * d2) * q);
            assert((d1 * p) * d2 == (d1 * d2) * p);
            assert((d1 * d2) * q <= (d1 * d2) * p);
        }
    } else if e1 == e2 {
        let t = pow2(e1);
        assert(d1 * t > 0 && d2 * t > 0 && n1 * (d2 * t) <= n2 * (d1 * t)) by (nonlinear_arith)
            requires
                n1 * d2 <= n2 * d1,
                t > 0,
                d1 > 0,
                d2 > 0,
        {
            assert(n1 * (d2 * t) == (n1 * d2) * t);
            assert(n2 * (d1 * t) == (n2 * d1) * t);
        }
        lemma_half_even_monotone(n1, d1 * t, n2, d2 * t);
    } else {
        assert(e2 * 0x80_0000 >= (e1 + 1) * 0x80_0000);
    }
}

/// Equal values round alike, however the quotient is written.
pub proof fn lemma_nearest_ratio(n1: nat, d1: nat, n2: nat, d2: nat)
    requires
        d1 > 0,
        d2 > 0,
        n1 * d2 == n2 * d1,
    ensures
        nearest(n1, d1) == nearest(n2, d2),
{
    lemma_nearest_monotone(n1, d1, n2, d2);
    lemma_nearest_monotone(n2, d2, n1, d1);
}

/// A value that is a binary32 number is its own rounding.
pub proof fn lemma_nearest_exact(m: nat, den: nat)
    requires
        den > 0,
        m <= INFINITE,
    ensures
        nearest(magnitude_units(m) * den, den) == m,
{
    let (e, f) = lemma_digits_of(m);
    let num = magnitude_units(m) * den;
    let t = pow2(e);
    lemma2_to64();
    lemma_pow2_pos(e);
    lemma_pow2_adds(e, 24);
    lemma_pow2_adds(e, 23);
    assert(num < den * pow2(e + 24)) by (nonlinear_arith)
        requires
            num == (f * t) * den,
            pow2(e + 24) == t * 0x100_0000,
            f < 0x100_0000,
            t > 0,
            den > 0,
    {
        assert((f * t) * den == f * (t * den));
        assert(t * den > 0);
        assert(f * (t * den) < 0x100_0000 * (t * den));
        assert(0x100_0000 * (t * den) == den * (t * 0x100_0000));
    }
    if e > 0 {
        assert(num >= den * pow2((e + 23) as nat)) by (nonlinear_arith)
            requires
                num == (f * t) * den,
                pow2((e + 23) as nat) == t * 0x80_0000,
                f >= 0x80_0000,
                t > 0,
                den > 0,
        {
            assert((f * t) * den == f * (t * den));
            assert(f * (t * den) >= 0x80_0000 * (t * den));
            assert(0x80_0000 * (t * den) == den * (t * 0x80_0000));
        }
    }
    lemma_scale_is(num, den, e);
    let d = den * t;
    assert(d > 0 && num == f * d) by (nonlinear_arith)
        requires
            d == den * t,
            num == (f * t) * den,
            t > 0,
            den > 0,
    ;
    lemma_fundamental_div_mod_converse(num as int, d as int, f as int, 0);
}

/// What rounding is off by: at most half of the weight of the last digit that
/// is kept, which is the greater of one unit and 2^-23 of the value.
pub proof fn lemma_nearest_error(num: nat, den: nat)
    requires
        den > 0,
        nearest(num, den) < INFINITE,
    ensures
        ({
            let t = pow2(scale(num, den));
            let v = magnitude_units(nearest(num, den));
            &&& 2 * (v * den) <= 2 * num + den * t
            &&& 2 * num <= 2 * (v * den) + den * t
        }),
{
    let e = scale(num, den);
    let t = pow2(e);
    let f = half_even(num, den * t);
    lemma_half_even_range(num, den);
    lemma_units_of_digits(e, f);
    lemma_pow2_pos(e);
    assert(den * t > 0) by (nonlinear_arith)
        requires
            den > 0,
            t > 0,
    ;
    lemma_half_even_error(num, den * t);
    assert((den * t) * f == (f * t) * den) by (nonlinear_arith);
}

} // verus!
