//! What the hash promises: it lies in `0..=1`, and opposite points have hashes
//! that add up to one.

use vstd::arithmetic::div_mod::{lemma_fundamental_div_mod, lemma_fundamental_div_mod_converse};
use vstd::arithmetic::power2::{lemma2_to64, lemma_pow2_adds, lemma_pow2_strictly_increases, pow2};
use vstd::prelude::*;

use super::{hash_of_sine, hash_phase, hashes, AMPLITUDE, PHASE_X, PHASE_Y};
use crate::single::arith::{absolute, difference, opposite, product};
use crate::single::convert::{floored, one_unit, whole};
use crate::single::laws::{
    law_integers_are_exact, law_zero_absorbs, lemma_constants, lemma_difference_rank,
    lemma_product_rank, lemma_rank_between, lemma_rank_error_within, lemma_rank_is_value,
    lemma_sum_rank,
};
use crate::single::nearest::{lemma_digits_of, lemma_nearest_exact, lemma_units_order};
use crate::single::order::{at_most, law_order_is_by_value};
use crate::single::rounding::lemma_nearest_of_zero;
use crate::single::{magnitude_units, Single, MINUS_ONE, ONE, ZERO};

verus! {

/// Rounding down gives a whole number of ones, exactly.
proof fn lemma_floor_is_exact(x: Single)
    requires
        x.finite(),
    ensures
        floored(x).finite(),
        floored(x).units() == (x.units() / (one_unit() as int)) * one_unit(),
{
    let w = one_unit();
    let u = x.units();
    let n = u / (w as int);
    lemma_constants();
    lemma_fundamental_div_mod(u, w as int);
    let a = x.absolute_units();
    let k = absolute(n);
    if a < 0x100_0000 * w {
        assert(-0x100_0000 <= n <= 0x100_0000) by (nonlinear_arith)
            requires
                u == w * n + u % (w as int),
                0 <= u % (w as int) < w,
                -(0x100_0000 * w) < u < 0x100_0000 * w,
                w > 0,
        ;
        law_integers_are_exact(k);
        assert(floored(x).magnitude() == whole(k).magnitude());
    } else {
        let (e, f) = lemma_digits_of(x.magnitude());
        let t = pow2(e);
        assert(e >= 149) by {
            if e < 149 {
                lemma_pow2_strictly_increases(e, 149);
                assert(f * t < 0x100_0000 * w) by (nonlinear_arith)
                    requires
                        f < 0x100_0000,
                        t < w,
                        t > 0 || t == 0,
                ;
            }
        }
        lemma_pow2_adds((e - 149) as nat, 149);
        let g = f * pow2((e - 149) as nat);
        assert(a == g * w) by (nonlinear_arith)
            requires
                a == f * t,
                t == pow2((e - 149) as nat) * w,
                g == f * pow2((e - 149) as nat),
        ;
        if x.negative() {
            assert(u == (-(g as int)) * w) by (nonlinear_arith)
                requires
                    u == -(a as int),
                    a == g * w,
            ;
            lemma_fundamental_div_mod_converse(u, w as int, -(g as int), 0);
        } else {
            lemma_fundamental_div_mod_converse(u, w as int, g as int, 0);
        }
        assert(k == g);
        lemma_nearest_exact(x.magnitude(), 1);
        assert(magnitude_units(x.magnitude()) * 1 == magnitude_units(x.magnitude()));
    }
    assert(n <= 0 || !x.negative()) by {
        if x.negative() {
            assert(n <= 0) by (nonlinear_arith)
                requires
                    u == w * n + u % (w as int),
                    0 <= u % (w as int),
                    u <= 0,
                    w > 0,
            ;
        }
    }
    assert(n >= 0 || x.negative()) by {
        if !x.negative() {
            assert(n >= 0) by (nonlinear_arith)
                requires
                    u == w * n + u % (w as int),
                    u % (w as int) < w,
                    u >= 0,
                    w > 0,
            ;
        }
    }
    assert((-n) * w == -(n * w)) by (nonlinear_arith);
}

/// The hash of a sine in `-1..=1` lies in `0..=1`.
pub proof fn law_hash_is_a_part(sine: Single)
    requires
        at_most(Single { bits: MINUS_ONE }, sine),
        at_most(sine, Single { bits: ONE }),
    ensures
        at_most(Single { bits: ZERO }, hash_of_sine(sine)),
        at_most(hash_of_sine(sine), Single { bits: ONE }),
{
    let zero = Single { bits: ZERO };
    let one = Single { bits: ONE };
    let minus = Single { bits: MINUS_ONE };
    let scale = Single { bits: AMPLITUDE };
    let w = one_unit();
    lemma_constants();
    law_order_is_by_value(minus, sine);
    law_order_is_by_value(sine, one);
    law_order_is_by_value(zero, scale);
    let v = product(sine, scale);
    let m = scale.units();
    lemma_product_rank(sine, scale);
    assert(-m * w <= sine.units() * m && sine.units() * m <= m * w) by (nonlinear_arith)
        requires
            -w <= sine.units() <= w,
            m >= 0,
    ;
    lemma_rank_between(v, sine.units() * m, w, opposite(scale), scale);
    lemma_floor_is_exact(v);
    let f = floored(v);
    lemma_difference_rank(v, f);
    lemma_fundamental_div_mod(v.units(), w as int);
    assert(w * (v.units() / (w as int)) == (v.units() / (w as int)) * w) by (nonlinear_arith);
    lemma_rank_between(difference(v, f), v.units() - f.units(), 1, zero, one);
}

/// The hash of a zero sine is zero.
pub proof fn law_hash_of_zero_is_zero(sine: Single)
    requires
        sine.zero(),
    ensures
        hash_of_sine(sine).zero(),
{
    let zero = Single { bits: ZERO };
    let scale = Single { bits: AMPLITUDE };
    let w = one_unit();
    lemma_constants();
    law_zero_absorbs(scale, sine);
    let v = product(sine, scale);
    assert(v.units() == 0);
    lemma_floor_is_exact(v);
    lemma_fundamental_div_mod_converse(0, w as int, 0, 0);
    let f = floored(v);
    assert(f.units() == 0);
    lemma_difference_rank(v, f);
    lemma_nearest_of_zero(1);
}

/// The hashes of opposite sines are both zero, or add up to one within 2^-24.
pub proof fn law_hashes_of_opposite_sines(s: Single, t: Single)
    requires
        at_most(Single { bits: MINUS_ONE }, s),
        at_most(s, Single { bits: ONE }),
        t.finite(),
        t.units() == -s.units(),
    ensures
        ({
            let h = hash_of_sine(s);
            let k = hash_of_sine(t);
            (h.zero() && k.zero()) || 0x100_0000 * absolute(h.units() + k.units() - one_unit())
                <= one_unit()
        }),
{
    let zero = Single { bits: ZERO };
    let one = Single { bits: ONE };
    let minus = Single { bits: MINUS_ONE };
    let scale = Single { bits: AMPLITUDE };
    let w = one_unit();
    lemma_constants();
    law_order_is_by_value(minus, s);
    law_order_is_by_value(s, one);
    law_order_is_by_value(zero, scale);
    let m = scale.units();
    let v = product(s, scale);
    let u = product(t, scale);
    lemma_scaled_sine(s);
    lemma_scaled_sine(t);
    lemma_product_rank(s, scale);
    lemma_product_rank(t, scale);
    assert(t.units() * m == -(s.units() * m)) by (nonlinear_arith)
        requires
            t.units() == -s.units(),
    ;
    lemma_nearest_of_zero(w);
    assert(u.rank() == -v.rank());
    lemma_rank_is_value(u, opposite(v));
    lemma_floor_is_exact(v);
    lemma_floor_is_exact(u);
    lemma_fraction_rounded(v);
    lemma_fraction_rounded(u);
    let a = v.units();
    let n = a / (w as int);
    let r = a % (w as int);
    lemma_fundamental_div_mod(a, w as int);
    if r == 0 {
        assert(-a == (-n) * w) by (nonlinear_arith)
            requires
                a == w * n,
        ;
        lemma_fundamental_div_mod_converse(-a, w as int, -n, 0);
        let h = hash_of_sine(s);
        let k = hash_of_sine(t);
        lemma_units_order(h.magnitude(), 0);
        lemma_units_order(k.magnitude(), 0);
    } else {
        assert(-a == (-n - 1) * w + (w - r)) by (nonlinear_arith)
            requires
                a == w * n + r,
        ;
        lemma_fundamental_div_mod_converse(-a, w as int, -n - 1, w - r);
    }
}

/// A sine in `-1..=1`, scaled, is finite.
pub proof fn lemma_scaled_sine(s: Single)
    requires
        s.finite(),
        -one_unit() <= s.units() <= one_unit(),
    ensures
        product(s, Single { bits: AMPLITUDE }).finite(),
{
    let scale = Single { bits: AMPLITUDE };
    let w = one_unit();
    lemma_constants();
    law_order_is_by_value(Single { bits: ZERO }, scale);
    let m = scale.units();
    lemma_product_rank(s, scale);
    assert(-m * w <= s.units() * m && s.units() * m <= m * w) by (nonlinear_arith)
        requires
            -w <= s.units() <= w,
            m >= 0,
    ;
    lemma_rank_between(product(s, scale), s.units() * m, w, opposite(scale), scale);
}

/// The fraction of a number, rounded: off by at most 2^-25.
pub proof fn lemma_fraction_rounded(v: Single)
    requires
        v.finite(),
    ensures
        difference(v, floored(v)).finite(),
        0 <= difference(v, floored(v)).units(),
        v.units() % (one_unit() as int) == 0 ==> difference(v, floored(v)).units() == 0,
        0x200_0000 * absolute(
            difference(v, floored(v)).units() - v.units() % (one_unit() as int),
        ) <= one_unit(),
{
    let zero = Single { bits: ZERO };
    let one = Single { bits: ONE };
    let w = one_unit();
    lemma_constants();
    lemma2_to64();
    lemma_pow2_adds(125, 24);
    lemma_floor_is_exact(v);
    let f = floored(v);
    let r = v.units() % (w as int);
    lemma_fundamental_div_mod(v.units(), w as int);
    assert(w * (v.units() / (w as int)) == (v.units() / (w as int)) * w) by (nonlinear_arith);
    let x = difference(v, f);
    lemma_difference_rank(v, f);
    assert(v.units() - f.units() == r);
    lemma_rank_between(x, r, 1, zero, one);
    lemma_rank_error_within(x, r, 1, 125);
    assert(x.units() * 1 == x.units());
    if r == 0 {
        lemma_rank_between(x, r, 1, zero, zero);
    }
}

/// The phase of the opposite point is the opposite phase.
pub proof fn law_phase_is_odd(x: Single, y: Single, x2: Single, y2: Single)
    requires
        x.finite(),
        y.finite(),
        x2.finite(),
        y2.finite(),
        x2.units() == -x.units(),
        y2.units() == -y.units(),
        product(x, Single { bits: PHASE_X }).finite(),
        product(y, Single { bits: PHASE_Y }).finite(),
        hash_phase(x, y).finite(),
    ensures
        hash_phase(x2, y2).finite(),
        hash_phase(x2, y2).units() == -hash_phase(x, y).units(),
{
    let px = Single { bits: PHASE_X };
    let py = Single { bits: PHASE_Y };
    let w = one_unit();
    lemma_constants();
    lemma_odd_product(x, x2, px);
    lemma_odd_product(y, y2, py);
    let a = product(x, px);
    let b = product(y, py);
    let a2 = product(x2, px);
    let b2 = product(y2, py);
    lemma_sum_rank(a, b);
    lemma_sum_rank(a2, b2);
    lemma_nearest_of_zero(1);
    assert(hash_phase(x2, y2).rank() == -hash_phase(x, y).rank());
    lemma_rank_is_value(hash_phase(x2, y2), opposite(hash_phase(x, y)));
}

proof fn lemma_odd_product(x: Single, x2: Single, k: Single)
    requires
        x.finite(),
        x2.finite(),
        k.finite(),
        x2.units() == -x.units(),
        product(x, k).finite(),
    ensures
        product(x2, k).finite(),
        product(x2, k).units() == -product(x, k).units(),
{
    let w = one_unit();
    lemma_constants();
    lemma_product_rank(x, k);
    lemma_product_rank(x2, k);
    assert(x2.units() * k.units() == -(x.units() * k.units())) by (nonlinear_arith)
        requires
            x2.units() == -x.units(),
    ;
    lemma_nearest_of_zero(w);
    lemma_rank_is_value(product(x2, k), opposite(product(x, k)));
}

/// Every answer of a sine lies in `-1..=1`, and opposite angles have opposite
/// sines.
pub open spec fn is_odd_sine<S>(sin: S) -> bool where S: Fn(Single) -> Single {
    &&& forall|a: Single, r: Single|
        #[trigger] call_ensures(sin, (a,), r) && a.finite() ==> at_most(
            Single { bits: MINUS_ONE },
            r,
        ) && at_most(r, Single { bits: ONE })
    &&& forall|a: Single, r: Single, b: Single, s: Single|
        #[trigger] call_ensures(sin, (a,), r) && #[trigger] call_ensures(sin, (b,), s)
            && a.finite() && b.finite() && b.units() == -a.units() ==> s.units() == -r.units()
}

/// The hash of a point lies in `0..=1` where the sine answers in `-1..=1`.
pub proof fn law_hash_of_point_is_a_part<S>(sin: S, x: Single, y: Single, h: Single) where
    S: Fn(Single) -> Single,

    requires
        is_odd_sine(sin),
        hash_phase(x, y).finite(),
        hashes(sin, x, y, h),
    ensures
        at_most(Single { bits: ZERO }, h),
        at_most(h, Single { bits: ONE }),
{
    let s = choose|s: Single|
        #[trigger] call_ensures(sin, (hash_phase(x, y),), s) && h == hash_of_sine(s);
    law_hash_is_a_part(s);
}

/// The hashes of opposite points are both zero, or add up to one within 2^-24;
/// that of the origin is zero.
pub proof fn law_hashes_of_opposite_points<S>(
    sin: S,
    x: Single,
    y: Single,
    x2: Single,
    y2: Single,
    h: Single,
    k: Single,
) where S: Fn(Single) -> Single
    requires
        is_odd_sine(sin),
        x.finite(),
        y.finite(),
        x2.finite(),
        y2.finite(),
        x2.units() == -x.units(),
        y2.units() == -y.units(),
        product(x, Single { bits: PHASE_X }).finite(),
        product(y, Single { bits: PHASE_Y }).finite(),
        hash_phase(x, y).finite(),
        hashes(sin, x, y, h),
        hashes(sin, x2, y2, k),
    ensures
        (h.zero() && k.zero()) || 0x100_0000 * absolute(h.units() + k.units() - one_unit())
            <= one_unit(),
        x.zero() && y.zero() ==> h.zero(),
{
    law_phase_is_odd(x, y, x2, y2);
    let s = choose|s: Single|
        #[trigger] call_ensures(sin, (hash_phase(x, y),), s) && h == hash_of_sine(s);
    let t = choose|s: Single|
        #[trigger] call_ensures(sin, (hash_phase(x2, y2),), s) && k == hash_of_sine(s);
    law_hashes_of_opposite_sines(s, t);
    if x.zero() && y.zero() {
        let px = Single { bits: PHASE_X };
        let py = Single { bits: PHASE_Y };
        lemma_constants();
        law_zero_absorbs(px, x);
        law_zero_absorbs(py, y);
        lemma_sum_rank(product(x, px), product(y, py));
        lemma_nearest_of_zero(1);
        let p = hash_phase(x, y);
        assert(p.rank() == 0);
        assert(p.units() == 0);
        assert(call_ensures(sin, (p,), s));
        assert(s.units() == -s.units());
        lemma_units_order(s.magnitude(), 0);
        law_hash_of_zero_is_zero(s);
    }
}

} // verus!
