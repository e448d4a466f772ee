//! What the color character promises: an axis at zero does nothing, bloom acts in
//! the interior alone, and a color stays a color.

use vstd::arithmetic::power2::{
    lemma2_to64, lemma_pow2_adds, lemma_pow2_pos, lemma_pow2_strictly_increases, lemma_pow2_unfold,
    pow2,
};
use vstd::prelude::*;

use super::{
    bloom_amount, bloomed, halo_gain, luma_of, smooth_step, spread, with_bloom, with_halo,
    BLOOM_MAX, CENTER_OUTER, EDGE_INNER, EDGE_OUTER, HALO_SAT_GAIN, LUMA_BLUE, LUMA_GREEN, LUMA_RED,
};
use crate::color::unit_interval;
use crate::single::arith::{absolute, difference, opposite, product, quotient, sum};
use crate::single::convert::{one_unit, whole};
use crate::single::laws::{
    law_confined_lies_within, law_integers_are_exact, law_one_is_neutral, law_operands_commute,
    law_product_is_monotone, law_rounding_is_exact, law_rounding_is_monotone, law_sum_is_monotone,
    law_zero_absorbs, law_zero_is_neutral, lemma_below_one, lemma_constants, lemma_difference_rank,
    lemma_just_above_one, lemma_part, lemma_part_is_finite, lemma_product_rank, lemma_rank_between,
    lemma_rank_error_within, lemma_rank_is_value, lemma_scaled_integer, lemma_sum_rank,
};
use crate::single::nearest::{
    lemma_digits_of, lemma_nearest_monotone, lemma_units_of_digits, lemma_units_order,
};
use crate::single::order::{at_most, below, law_order_is_by_value};
use crate::single::rounding::{lemma_nearest_of_zero, nearest};
use crate::single::{signed, Single, HALF, ONE, THREE, TWO, ZERO};

verus! {

/// A color with both axes off keeps every bit.
pub proof fn law_axes_off_change_nothing(
    color: [Single; 3],
    cov: Single,
    bloom: Single,
    halo: Single,
)
    requires
        !below(Single { bits: ZERO }, bloom),
        !below(Single { bits: ZERO }, halo),
    ensures
        with_bloom(with_halo(color, cov, halo), cov, bloom) == color,
{
}

/// A channel that the halo moved lies in `0..=1`.
pub proof fn law_halo_stays_in_range(c: Single, luma: Single, gain: Single)
    requires
        !sum(luma, product(difference(c, luma), gain)).nan(),
    ensures
        at_most(Single { bits: ZERO }, spread(c, luma, gain)),
        at_most(spread(c, luma, gain), Single { bits: ONE }),
{
    lemma_constants();
    law_confined_lies_within(
        sum(luma, product(difference(c, luma), gain)),
        Single { bits: ZERO },
        Single { bits: ONE },
    );
}

/// The difference of two finite numbers has the sign of the exact one.
pub proof fn lemma_difference_sign(a: Single, b: Single)
    requires
        a.finite(),
        b.finite(),
    ensures
        a.units() > b.units() ==> difference(a, b).rank() > 0,
        a.units() < b.units() ==> difference(a, b).rank() < 0,
        a.units() == b.units() ==> difference(a, b).rank() == 0,
{
    let least = Single { bits: 1 };
    let exact = a.units() - b.units();
    lemma_difference_rank(a, b);
    law_rounding_is_exact(least, 1);
    law_rounding_is_exact(opposite(least), 1);
    assert(least.units() == 1);
    assert(1 * 1 == 1 && (-1) * 1 == -1);
    if exact > 0 {
        law_rounding_is_monotone(1, 1, exact, 1);
    } else if exact < 0 {
        law_rounding_is_monotone(exact, 1, -1, 1);
    } else {
        lemma_nearest_of_zero(1);
    }
}

/// The polynomial of the step at a zero and at one.
pub proof fn lemma_step_at_ends(t: Single)
    ensures
        t.zero() ==> product(
            product(t, t),
            difference(Single { bits: THREE }, product(Single { bits: TWO }, t)),
        ).zero(),
        t.bits == ONE ==> product(
            product(t, t),
            difference(Single { bits: THREE }, product(Single { bits: TWO }, t)),
        ).bits == ONE,
{
    let one = Single { bits: ONE };
    let two = Single { bits: TWO };
    let three = Single { bits: THREE };
    lemma_constants();
    if t.zero() {
        law_zero_absorbs(t, t);
        law_zero_absorbs(two, t);
        let far = difference(three, product(two, t));
        lemma_difference_rank(three, product(two, t));
        law_rounding_is_exact(three, 1);
        assert((product(two, t)).units() == 0);
        assert(three.units() * 1 == three.units());
        lemma_rank_is_value(far, three);
        law_zero_absorbs(far, product(t, t));
    }
    if t.bits == ONE {
        law_one_is_neutral(one);
        law_one_is_neutral(two);
        lemma_difference_rank(three, two);
        law_rounding_is_exact(one, 1);
        assert(one.units() * 1 == one_unit());
        let back = difference(three, two);
        assert(back.rank() == one.rank());
        assert(back == one);
    }
}

/// The step is zero at its first edge and before it, and one at its second
/// and after it, whichever of the two is the smaller.
pub proof fn law_smooth_step_ends(edge0: Single, edge1: Single, x: Single)
    requires
        edge0.finite(),
        edge1.finite(),
        x.finite(),
        difference(edge1, edge0).finite(),
    ensures
        (below(edge0, edge1) && at_most(x, edge0)) || (below(edge1, edge0) && at_most(edge0, x))
            ==> smooth_step(edge0, edge1, x).zero(),
        (below(edge0, edge1) && at_most(edge1, x)) || (below(edge1, edge0) && at_most(x, edge1))
            ==> smooth_step(edge0, edge1, x).bits == ONE,
{
    let zero = Single { bits: ZERO };
    let one = Single { bits: ONE };
    let w = one_unit();
    lemma_constants();
    law_order_is_by_value(edge0, edge1);
    law_order_is_by_value(edge1, edge0);
    law_order_is_by_value(x, edge0);
    law_order_is_by_value(edge0, x);
    law_order_is_by_value(x, edge1);
    law_order_is_by_value(edge1, x);
    let n = difference(x, edge0);
    let d = difference(edge1, edge0);
    lemma_difference_sign(x, edge0);
    lemma_difference_sign(edge1, edge0);
    lemma_difference_rank(x, edge0);
    lemma_difference_rank(edge1, edge0);
    let q = quotient(n, d);
    let t = unit_interval(q);
    if edge0.units() != edge1.units() {
        let v = d.absolute_units();
        lemma_units_order(0, d.magnitude());
        lemma_nearest_of_zero(v);
        assert(0 * w == 0);
        if (below(edge0, edge1) && at_most(x, edge0)) || (below(edge1, edge0) && at_most(
            edge0,
            x,
        )) {
            assert(q.rank() <= 0 && !q.nan());
            assert(t.zero());
            lemma_step_at_ends(t);
        }
        if (below(edge0, edge1) && at_most(edge1, x)) || (below(edge1, edge0) && at_most(
            x,
            edge1,
        )) {
            let far = x.units() - edge0.units();
            let whole_way = edge1.units() - edge0.units();
            if whole_way > 0 {
                law_rounding_is_monotone(whole_way, 1, far, 1);
            } else {
                law_rounding_is_monotone(far, 1, whole_way, 1);
            }
            assert(n.magnitude() >= d.magnitude());
            if !n.infinite() {
                let u = n.absolute_units();
                lemma_units_order(d.magnitude(), n.magnitude());
                assert(w * v <= (u * w) * 1) by (nonlinear_arith)
                    requires
                        v <= u,
                ;
                lemma_nearest_monotone(w, 1, u * w, v);
                law_rounding_is_exact(one, 1);
                assert(one.units() * 1 == w);
            }
            assert(q.rank() >= one.rank() && !q.nan());
            assert(t == one);
            lemma_step_at_ends(t);
        }
    }
}

/// The polynomial of the step keeps to `0..=1`: below one half, where it is
/// far from one.
proof fn lemma_step_below_half(t: Single)
    requires
        t.finite(),
        0 <= t.units(),
        2 * t.units() <= one_unit(),
    ensures
        ({
            let r = product(
                product(t, t),
                difference(Single { bits: THREE }, product(Single { bits: TWO }, t)),
            );
            r.finite() && 0 <= r.units() <= one_unit()
        }),
{
    let zero = Single { bits: ZERO };
    let one = Single { bits: ONE };
    let two = Single { bits: TWO };
    let three = Single { bits: THREE };
    let half = Single { bits: HALF };
    let w = one_unit();
    let s = t.units();
    lemma_constants();
    // A quarter at most.
    let quarter = Single { bits: 0x3E80_0000 };
    lemma2_to64();
    lemma_units_of_digits(124, 0x80_0000);
    lemma_pow2_adds(124, 23);
    lemma_pow2_unfold(149);
    lemma_pow2_unfold(148);
    assert(quarter.magnitude() == 124 * 0x80_0000 + 0x80_0000);
    assert(quarter.units() == 0x80_0000 * pow2(124));
    assert(pow2(147) == 0x80_0000 * pow2(124));
    assert(4 * quarter.units() == w);
    let p = product(t, t);
    lemma_product_rank(t, t);
    assert(0 * w <= s * s && s * s <= quarter.units() * w) by (nonlinear_arith)
        requires
            0 <= s,
            2 * s <= w,
            4 * quarter.units() == w,
    {
        assert((2 * s) * (2 * s) <= w * w);
        assert((2 * s) * (2 * s) == 4 * (s * s));
        assert(4 * (quarter.units() * w) == w * w);
    }
    lemma_rank_between(p, s * s, w, zero, quarter);
    let twice = product(two, t);
    lemma_product_rank(two, t);
    assert(0 * w <= (2 * w) * s && (2 * w) * s <= w * w) by (nonlinear_arith)
        requires
            0 <= s,
            2 * s <= w,
    ;
    lemma_rank_between(twice, (2 * w) * s, w, zero, one);
    let far = difference(three, twice);
    lemma_difference_rank(three, twice);
    lemma_rank_between(far, 3 * w - twice.units(), 1, zero, three);
    let r = product(p, far);
    lemma_product_rank(p, far);
    assert(0 * w <= p.units() * far.units() && p.units() * far.units() <= w * w)
        by (nonlinear_arith)
        requires
            0 <= p.units(),
            4 * p.units() <= w,
            0 <= far.units() <= 3 * w,
    {
        assert((4 * p.units()) * far.units() <= w * (3 * w));
        assert((4 * p.units()) * far.units() == 4 * (p.units() * far.units()));
        assert(w * (3 * w) == 3 * (w * w));
    }
    lemma_rank_between(r, p.units() * far.units(), w, zero, one);
}

/// A number from one half to one is a multiple of 2^-24.
pub proof fn lemma_upper_half(t: Single) -> (a: nat)
    requires
        t.finite(),
        t.units() <= one_unit(),
        one_unit() <= 2 * t.units(),
    ensures
        t.units() == a * pow2(125),
        0x80_0000 <= a <= 0x100_0000,
{
    let w = one_unit();
    let g = pow2(125);
    lemma_constants();
    lemma2_to64();
    lemma_pow2_pos(125);
    lemma_pow2_adds(125, 24);
    let (e, f) = lemma_digits_of(t.magnitude());
    if e < 125 {
        if e < 124 {
            lemma_pow2_strictly_increases(e, 124);
        }
        lemma_pow2_unfold(125);
        let h = pow2(124);
        let p = pow2(e);
        lemma_pow2_pos(e);
        assert(f * p < 0x100_0000 * h) by (nonlinear_arith)
            requires
                f < 0x100_0000,
                0 < p <= h,
        {
            assert(f * p < 0x100_0000 * p);
        }
        assert(false);
    }
    lemma_pow2_adds((e - 125) as nat, 125);
    let a = f * pow2((e - 125) as nat);
    assert(f * pow2(e) == a * g) by (nonlinear_arith)
        requires
            pow2(e) == pow2((e - 125) as nat) * g,
            a == f * pow2((e - 125) as nat),
    ;
    assert(0x80_0000 <= a <= 0x100_0000) by (nonlinear_arith)
        requires
            a * g <= w,
            w <= 2 * (a * g),
            w == g * 0x100_0000,
            g > 0,
    ;
    a
}

/// From one half on, where the second factor is exact and the first is off by
/// little.
proof fn lemma_step_above_half(t: Single)
    requires
        t.finite(),
        t.units() <= one_unit(),
        one_unit() <= 2 * t.units(),
    ensures
        ({
            let r = product(
                product(t, t),
                difference(Single { bits: THREE }, product(Single { bits: TWO }, t)),
            );
            r.finite() && 0 <= r.units() <= one_unit()
        }),
{
    let zero = Single { bits: ZERO };
    let one = Single { bits: ONE };
    let two = Single { bits: TWO };
    let three = Single { bits: THREE };
    let w = one_unit();
    let g = pow2(125);
    let s = t.units();
    lemma_constants();
    lemma2_to64();
    lemma_pow2_pos(125);
    lemma_pow2_adds(125, 24);
    lemma_pow2_unfold(126);
    let a = lemma_upper_half(t);
    if s == w {
        lemma_units_order(t.magnitude(), one.magnitude());
        assert(t == one);
        lemma_step_at_ends(t);
    } else {
        // Twice the number, and three less it, are exact.
        let m = lemma_scaled_integer(a, 126);
        let twice = product(two, t);
        let exact = signed(false, m);
        assert(a * (2 * g) == 2 * (a * g)) by (nonlinear_arith);
        assert(exact.units() == 2 * s);
        lemma_product_rank(two, t);
        law_rounding_is_exact(exact, w);
        assert((2 * w) * s == (2 * s) * w) by (nonlinear_arith);
        lemma_rank_is_value(twice, exact);
        let b = (0x180_0000 - a) as nat;
        let m2 = lemma_scaled_integer(b, 126);
        let rest = signed(false, m2);
        assert(b * (2 * g) == 2 * (0x180_0000 * g) - 2 * (a * g)) by (nonlinear_arith)
            requires
                b == 0x180_0000 - a,
        ;
        assert(rest.units() == 3 * w - 2 * s);
        let far = difference(three, twice);
        lemma_difference_rank(three, twice);
        law_rounding_is_exact(rest, 1);
        assert(rest.units() * 1 == rest.units());
        lemma_rank_is_value(far, rest);
        // The square is off by at most 2^-25.
        let p = product(t, t);
        lemma_product_rank(t, t);
        assert(0 * w <= s * s && s * s < w * w) by (nonlinear_arith)
            requires
                0 <= s < w,
        ;
        lemma_rank_between(p, s * s, w, zero, one);
        lemma_rank_error_within(p, s * s, w, 125);
        let r = product(p, far);
        lemma_product_rank(p, far);
        lemma_step_bound(s, w as int, g as int, p.units(), far.units());
        lemma_just_above_one(r, p.units() * far.units(), w);
    }
}

/// The rounded factors of the step stay below the middle between one and the
/// next number.
proof fn lemma_step_bound(s: int, w: int, g: int, p: int, q: int)
    requires
        0 < w,
        0 < g,
        w <= 2 * s,
        s < w,
        q == 3 * w - 2 * s,
        0 <= p,
        2 * absolute(p * w - s * s) <= w * g,
    ensures
        0 <= p * q < w * (w + g),
{
    assert(0 <= q <= 2 * w);
    assert(p * q >= 0) by (nonlinear_arith)
        requires
            0 <= p,
            0 <= q,
    ;
    let ss = s * s;
    // s * s * (3 * w - 2 * s) is below w * w * w by (w - s)^2 * (w + 2 * s).
    assert(ss * q < (w * w) * w) by (nonlinear_arith)
        requires
            ss == s * s,
            q == 3 * w - 2 * s,
            0 < s < w,
    {
        let d = w - s;
        assert((w * w) * w - ss * q == (d * d) * (w + 2 * s)) by (nonlinear_arith)
            requires
                ss == s * s,
                q == 3 * w - 2 * s,
                d == w - s,
        ;
        assert(d * d > 0);
        assert((d * d) * (w + 2 * s) > 0);
    }
    assert(2 * ((p * w) * q) <= 2 * (ss * q) + (w * g) * q) by (nonlinear_arith)
        requires
            2 * (p * w) <= 2 * ss + w * g,
            0 <= q,
    ;
    assert((w * g) * q <= (w * g) * (2 * w)) by (nonlinear_arith)
        requires
            q <= 2 * w,
            0 <= w * g,
    ;
    assert((w * g) * (2 * w) == 2 * ((w * w) * g)) by (nonlinear_arith);
    assert((p * w) * q == (p * q) * w) by (nonlinear_arith);
    assert((w * w) * w + (w * w) * g == (w * (w + g)) * w) by (nonlinear_arith);
    assert((p * q) * w < (w * (w + g)) * w);
    assert(p * q < w * (w + g)) by (nonlinear_arith)
        requires
            (p * q) * w < (w * (w + g)) * w,
            w > 0,
    ;
}

/// The step lies in `0..=1`.
pub proof fn law_smooth_step_is_a_part(edge0: Single, edge1: Single, x: Single)
    requires
        edge0.finite(),
        edge1.finite(),
        x.finite(),
        difference(edge1, edge0).finite(),
        below(edge0, edge1) || below(edge1, edge0),
    ensures
        smooth_step(edge0, edge1, x).finite(),
        0 <= smooth_step(edge0, edge1, x).units() <= one_unit(),
{
    let zero = Single { bits: ZERO };
    let one = Single { bits: ONE };
    lemma_constants();
    law_order_is_by_value(zero, one);
    law_order_is_by_value(edge0, edge1);
    law_order_is_by_value(edge1, edge0);
    let n = difference(x, edge0);
    let d = difference(edge1, edge0);
    lemma_difference_sign(edge1, edge0);
    lemma_difference_rank(x, edge0);
    let q = quotient(n, d);
    assert(!q.nan());
    let t = unit_interval(q);
    law_confined_lies_within(q, zero, one);
    law_order_is_by_value(zero, t);
    law_order_is_by_value(t, one);
    if 2 * t.units() <= one_unit() {
        lemma_step_below_half(t);
    } else {
        lemma_step_above_half(t);
    }
}

/// The edges of the halo and of the bloom are apart.
pub proof fn lemma_edges()
    ensures
        below(Single { bits: EDGE_OUTER }, Single { bits: EDGE_INNER }),
        below(Single { bits: CENTER_OUTER }, Single { bits: HALF }),
        difference(Single { bits: EDGE_OUTER }, Single { bits: EDGE_INNER }).finite(),
        difference(Single { bits: HALF }, Single { bits: CENTER_OUTER }).finite(),
{
    let one = Single { bits: ONE };
    let a = Single { bits: EDGE_OUTER };
    let b = Single { bits: EDGE_INNER };
    let c = Single { bits: CENTER_OUTER };
    let d = Single { bits: HALF };
    lemma_constants();
    lemma_below_one(a);
    lemma_below_one(b);
    lemma_below_one(c);
    lemma_below_one(d);
    lemma_difference_rank(a, b);
    lemma_difference_rank(d, c);
    lemma_rank_between(difference(a, b), a.units() - b.units(), 1, opposite(one), one);
    lemma_rank_between(difference(d, c), d.units() - c.units(), 1, opposite(one), one);
}

/// Bloom moves a color by a part of the way.
pub proof fn lemma_bloom_amount(cov: Single, bloom: Single)
    requires
        cov.finite(),
        bloom.finite(),
        0 <= bloom.units() <= one_unit(),
    ensures
        bloom_amount(cov, bloom).finite(),
        0 <= bloom_amount(cov, bloom).units() <= one_unit(),
{
    let most = Single { bits: BLOOM_MAX };
    lemma_constants();
    lemma_edges();
    lemma_below_one(most);
    let step = smooth_step(Single { bits: CENTER_OUTER }, Single { bits: HALF }, cov);
    law_smooth_step_is_a_part(Single { bits: CENTER_OUTER }, Single { bits: HALF }, cov);
    lemma_part(bloom, most);
    lemma_part(product(bloom, most), step);
}

/// A channel that bloom moved by a part of the way lies in `0..=1`.
pub proof fn law_bloom_stays_in_range(c: Single, t: Single)
    requires
        c.finite(),
        0 <= c.units() <= one_unit(),
        t.finite(),
        0 <= t.units() <= one_unit(),
    ensures
        bloomed(c, t).finite(),
        0 <= bloomed(c, t).units() <= one_unit(),
{
    let zero = Single { bits: ZERO };
    let one = Single { bits: ONE };
    let w = one_unit();
    let g = pow2(125);
    lemma_constants();
    lemma2_to64();
    lemma_pow2_pos(125);
    lemma_pow2_adds(125, 24);
    let rest = difference(one, t);
    lemma_difference_rank(one, t);
    lemma_rank_between(rest, w - t.units(), 1, zero, one);
    assert(rest.units() * 1 == rest.units());
    if t.units() == 0 {
        lemma_rank_between(rest, w as int, 1, one, one);
    } else {
        assert(1 * pow2(149) == pow2(149));
        lemma_rank_error_within(rest, w - t.units(), 1, 125);
        assert(1 * g == g);
    }
    let p = product(c, rest);
    law_operands_commute(c, rest);
    lemma_part(rest, c);
    let r = sum(p, t);
    lemma_sum_rank(p, t);
    assert(1 * (w + g) == w + g);
    lemma_just_above_one(r, p.units() + t.units(), 1);
}

/// A color in `0..=1`.
pub open spec fn is_color(rgb: [Single; 3]) -> bool {
    forall|i: int|
        0 <= i < 3 ==> (#[trigger] rgb[i]).finite() && 0 <= rgb[i].units() <= one_unit()
}

/// A channel weighted by a part of the luma is a part.
proof fn lemma_weighted(c: Single, weight: u32)
    requires
        weight < ONE,
        c.finite(),
        0 <= c.units() <= one_unit(),
    ensures
        product(c, Single { bits: weight }).finite(),
        0 <= product(c, Single { bits: weight }).units() <= one_unit(),
{
    lemma_below_one(Single { bits: weight });
    lemma_part(c, Single { bits: weight });
}

/// The luma of a color lies in `0..=3`.
pub proof fn lemma_luma(rgb: [Single; 3])
    requires
        is_color(rgb),
    ensures
        luma_of(rgb).finite(),
        0 <= luma_of(rgb).units() <= 3 * one_unit(),
{
    let zero = Single { bits: ZERO };
    let w = one_unit();
    lemma_constants();
    assert(rgb[0].finite() && rgb[1].finite() && rgb[2].finite());
    lemma_weighted(rgb[0], LUMA_RED);
    lemma_weighted(rgb[1], LUMA_GREEN);
    lemma_weighted(rgb[2], LUMA_BLUE);
    let r = product(rgb[0], Single { bits: LUMA_RED });
    let g = product(rgb[1], Single { bits: LUMA_GREEN });
    let b = product(rgb[2], Single { bits: LUMA_BLUE });
    lemma_sum_rank(r, g);
    lemma_rank_between(sum(r, g), r.units() + g.units(), 1, zero, Single { bits: TWO });
    lemma_sum_rank(sum(r, g), b);
    lemma_rank_between(
        sum(sum(r, g), b),
        sum(r, g).units() + b.units(),
        1,
        zero,
        Single { bits: THREE },
    );
}

/// The halo multiplies by two at most.
pub proof fn lemma_halo_gain(cov: Single, halo: Single)
    requires
        cov.finite(),
        halo.finite(),
        0 <= halo.units() <= one_unit(),
    ensures
        halo_gain(cov, halo).finite(),
        0 <= halo_gain(cov, halo).units() <= 2 * one_unit(),
{
    let zero = Single { bits: ZERO };
    let one = Single { bits: ONE };
    let most = Single { bits: HALO_SAT_GAIN };
    lemma_constants();
    lemma_edges();
    lemma_below_one(most);
    let step = smooth_step(Single { bits: EDGE_INNER }, Single { bits: EDGE_OUTER }, cov);
    law_smooth_step_is_a_part(Single { bits: EDGE_INNER }, Single { bits: EDGE_OUTER }, cov);
    lemma_part(halo, most);
    lemma_part(product(halo, most), step);
    let p = product(product(halo, most), step);
    lemma_sum_rank(one, p);
    lemma_rank_between(sum(one, p), one_unit() + p.units(), 1, zero, Single { bits: TWO });
}

/// The numbers on the way to a channel that the halo moved are finite.
pub proof fn lemma_spread_parts(c: Single, luma: Single, gain: Single)
    requires
        c.finite(),
        0 <= c.units() <= one_unit(),
        luma.finite(),
        0 <= luma.units() <= 3 * one_unit(),
        gain.finite(),
        0 <= gain.units() <= 2 * one_unit(),
    ensures
        difference(c, luma).finite(),
        product(difference(c, luma), gain).finite(),
        !sum(luma, product(difference(c, luma), gain)).nan(),
{
    let w = one_unit();
    lemma_constants();
    law_integers_are_exact(4);
    law_integers_are_exact(8);
    let four = whole(4);
    let eight = whole(8);
    let d = difference(c, luma);
    lemma_difference_rank(c, luma);
    lemma_rank_between(d, c.units() - luma.units(), 1, opposite(four), four);
    let p = product(d, gain);
    lemma_product_rank(d, gain);
    assert(-(8 * w) * w <= d.units() * gain.units() && d.units() * gain.units() <= (8 * w) * w)
        by (nonlinear_arith)
        requires
            -(4 * w) <= d.units() <= 4 * w,
            0 <= gain.units() <= 2 * w,
            w > 0,
    {
        assert(d.units() * gain.units() <= (4 * w) * gain.units());
        assert((4 * w) * gain.units() <= (4 * w) * (2 * w));
        assert(d.units() * gain.units() >= -((4 * w) * gain.units()));
        assert((4 * w) * (2 * w) == (8 * w) * w);
    }
    lemma_rank_between(p, d.units() * gain.units(), w, opposite(eight), eight);
    lemma_sum_rank(luma, p);
}

/// A channel that the halo of a color moved lies in `0..=1`.
proof fn lemma_spread(c: Single, luma: Single, gain: Single)
    requires
        c.finite(),
        0 <= c.units() <= one_unit(),
        luma.finite(),
        0 <= luma.units() <= 3 * one_unit(),
        gain.finite(),
        0 <= gain.units() <= 2 * one_unit(),
    ensures
        spread(c, luma, gain).finite(),
        0 <= spread(c, luma, gain).units() <= one_unit(),
{
    let zero = Single { bits: ZERO };
    let one = Single { bits: ONE };
    lemma_constants();
    lemma_spread_parts(c, luma, gain);
    law_halo_stays_in_range(c, luma, gain);
    law_order_is_by_value(zero, spread(c, luma, gain));
    law_order_is_by_value(spread(c, luma, gain), one);
}

/// The character of a color in `0..=1` is a color in `0..=1`, for a bloom and a
/// halo there.
pub proof fn law_character_stays_in_range(
    color: [Single; 3],
    cov: Single,
    bloom: Single,
    halo: Single,
)
    requires
        is_color(color),
        cov.finite(),
        bloom.finite(),
        0 <= bloom.units() <= one_unit(),
        halo.finite(),
        0 <= halo.units() <= one_unit(),
    ensures
        is_color(with_halo(color, cov, halo)),
        is_color(with_bloom(with_halo(color, cov, halo), cov, bloom)),
{
    assert(color[0].finite() && color[1].finite() && color[2].finite());
    let rgb = with_halo(color, cov, halo);
    if below(Single { bits: ZERO }, halo) {
        lemma_luma(color);
        lemma_halo_gain(cov, halo);
        lemma_spread(color[0], luma_of(color), halo_gain(cov, halo));
        lemma_spread(color[1], luma_of(color), halo_gain(cov, halo));
        lemma_spread(color[2], luma_of(color), halo_gain(cov, halo));
    }
    assert(is_color(rgb));
    assert(rgb[0].finite() && rgb[1].finite() && rgb[2].finite());
    if below(Single { bits: ZERO }, bloom) {
        lemma_bloom_amount(cov, bloom);
        let t = bloom_amount(cov, bloom);
        law_bloom_stays_in_range(rgb[0], t);
        law_bloom_stays_in_range(rgb[1], t);
        law_bloom_stays_in_range(rgb[2], t);
    }
}

/// Bloom leaves the outskirts alone: with a coverage of at most 0.18 it changes
/// no channel by value, so without a halo nothing changes.
pub proof fn law_bloom_acts_in_the_interior(
    color: [Single; 3],
    cov: Single,
    bloom: Single,
    halo: Single,
)
    requires
        cov.finite(),
        at_most(cov, Single { bits: CENTER_OUTER }),
        bloom.finite(),
        !below(Single { bits: ZERO }, halo),
        forall|i: int| 0 <= i < 3 ==> !(#[trigger] color[i]).nan(),
    ensures
        forall|i: int|
            0 <= i < 3 ==> {
                let c = #[trigger] with_bloom(with_halo(color, cov, halo), cov, bloom)[i];
                !c.nan() && c.rank() == color[i].rank()
            },
{
    assert(!color[0].nan() && !color[1].nan() && !color[2].nan());
    if below(Single { bits: ZERO }, bloom) {
        let t = bloom_amount(cov, bloom);
        lemma_edges();
        law_smooth_step_ends(Single { bits: CENTER_OUTER }, Single { bits: HALF }, cov);
        let most = Single { bits: BLOOM_MAX };
        lemma_below_one(most);
        lemma_part_is_finite(bloom, most);
        law_zero_absorbs(
            product(bloom, most),
            smooth_step(Single { bits: CENTER_OUTER }, Single { bits: HALF }, cov),
        );
        assert(t.zero());
        lemma_no_bloom(color[0], t);
        lemma_no_bloom(color[1], t);
        lemma_no_bloom(color[2], t);
    }
}

proof fn lemma_no_bloom(c: Single, t: Single)
    requires
        !c.nan(),
        t.zero(),
    ensures
        bloomed(c, t).rank() == c.rank(),
        !bloomed(c, t).nan(),
{
    let one = Single { bits: ONE };
    lemma_constants();
    let rest = difference(one, t);
    lemma_difference_rank(one, t);
    law_rounding_is_exact(one, 1);
    assert(one.units() * 1 == one.units());
    assert(rest.rank() == one.rank());
    assert(rest == one);
    law_one_is_neutral(c);
    law_zero_is_neutral(c, t);
}

/// Bloom mixes a channel with white: what comes out is off by at most 1.5 in
/// 2^24 from `c * (1 - t) + t`. So a channel rises wherever it has further than
/// that to go.
pub proof fn law_bloom_mixes_with_white(c: Single, t: Single)
    requires
        c.finite(),
        0 <= c.units() <= one_unit(),
        t.finite(),
        0 <= t.units() <= one_unit(),
    ensures
        ({
            let w = one_unit();
            let mixed = c.units() * (w - t.units()) + t.units() * w;
            0x200_0000 * absolute(bloomed(c, t).units() * w - mixed) <= 3 * (w * w)
        }),
        0x200_0000 * (t.units() * (one_unit() - c.units())) > 3 * (one_unit() * one_unit())
            ==> bloomed(c, t).units() > c.units(),
{
    let zero = Single { bits: ZERO };
    let one = Single { bits: ONE };
    let w = one_unit();
    let g = pow2(125);
    lemma_constants();
    lemma2_to64();
    lemma_pow2_pos(125);
    lemma_pow2_adds(125, 24);
    let rest = difference(one, t);
    lemma_difference_rank(one, t);
    lemma_rank_between(rest, w - t.units(), 1, zero, one);
    if t.units() == 0 {
        lemma_rank_between(rest, w as int, 1, one, one);
    } else {
        assert(1 * pow2(149) == pow2(149));
        lemma_rank_error_within(rest, w - t.units(), 1, 125);
        assert(1 * g == g && rest.units() * 1 == rest.units());
    }
    let p = product(c, rest);
    lemma_product_rank(c, rest);
    lemma_part(c, rest);
    let exact = c.units() * rest.units();
    if c.units() == w && rest.units() == w {
        lemma_rank_between(p, exact, w, one, one);
    } else {
        assert(0 <= exact < w * w) by (nonlinear_arith)
            requires
                exact == c.units() * rest.units(),
                0 <= c.units() <= w,
                0 <= rest.units() <= w,
                c.units() < w || rest.units() < w,
                w > 0,
        ;
        lemma_rank_error_within(p, exact, w, 125);
    }
    law_bloom_stays_in_range(c, t);
    let r = bloomed(c, t);
    let last = p.units() + t.units();
    lemma_sum_rank(p, t);
    assert(r.units() * 1 == r.units() && 1 * g == g);
    law_operands_commute(c, rest);
    lemma_part(rest, c);
    if last < w {
        assert(1 * pow2(149) == pow2(149));
        lemma_rank_error_within(r, last, 1, 125);
    } else {
        lemma_rank_between(r, last, 1, one, Single { bits: TWO });
    }
    lemma_mixed(c.units(), t.units(), rest.units(), p.units(), r.units(), w as int, g as int);
}

/// Three small errors add up.
proof fn lemma_mixed(c: int, t: int, rest: int, p: int, r: int, w: int, g: int)
    requires
        0 < g,
        w == 0x100_0000 * g,
        0 <= c <= w,
        2 * absolute(rest - (w - t)) <= g,
        2 * absolute(p * w - c * rest) <= w * g,
        2 * absolute(r - (p + t)) <= g,
    ensures
        0x200_0000 * absolute(r * w - (c * (w - t) + t * w)) <= 3 * (w * w),
        0x200_0000 * (t * (w - c)) > 3 * (w * w) ==> r > c,
{
    let x = r - (p + t);
    let y = p * w - c * rest;
    let z = rest - (w - t);
    let off = r * w - (c * (w - t) + t * w);
    assert(off == x * w + y + c * z) by (nonlinear_arith)
        requires
            x == r - (p + t),
            y == p * w - c * rest,
            z == rest - (w - t),
            off == r * w - (c * (w - t) + t * w),
    ;
    assert(-(g * w) <= 2 * (x * w) && 2 * (x * w) <= g * w) by (nonlinear_arith)
        requires
            -g <= 2 * x <= g,
            w > 0,
    ;
    assert(-(g * w) <= 2 * (c * z) && 2 * (c * z) <= g * w) by (nonlinear_arith)
        requires
            -g <= 2 * z <= g,
            0 <= c <= w,
            0 < g,
    {
        assert(c * (2 * z) <= c * g && c * g <= w * g && c * (-g) <= c * (2 * z));
    }
    assert(w * g == g * w && 0x100_0000 * (g * w) == w * w) by (nonlinear_arith)
        requires
            w == 0x100_0000 * g,
    ;
    if r <= c {
        assert(t * (w - c) <= -off) by (nonlinear_arith)
            requires
                off == r * w - (c * (w - t) + t * w),
                r <= c,
                w > 0,
        {
            assert(r * w <= c * w);
            assert(c * (w - t) + t * w == c * w + t * (w - c));
        }
    }
}

/// The gain of the halo grows with the halo.
proof fn lemma_gain_grows(cov: Single, h1: Single, h2: Single)
    requires
        cov.finite(),
        h1.finite(),
        h2.finite(),
        0 <= h1.units() <= h2.units(),
        h2.units() <= one_unit(),
    ensures
        one_unit() <= halo_gain(cov, h1).units() <= halo_gain(cov, h2).units(),
{
    let zero = Single { bits: ZERO };
    let one = Single { bits: ONE };
    let most = Single { bits: HALO_SAT_GAIN };
    lemma_constants();
    lemma_edges();
    lemma_below_one(most);
    lemma_halo_gain(cov, h1);
    lemma_halo_gain(cov, h2);
    let step = smooth_step(Single { bits: EDGE_INNER }, Single { bits: EDGE_OUTER }, cov);
    law_smooth_step_is_a_part(Single { bits: EDGE_INNER }, Single { bits: EDGE_OUTER }, cov);
    law_order_is_by_value(h1, h2);
    law_order_is_by_value(zero, most);
    law_order_is_by_value(zero, step);
    law_product_is_monotone(h1, h2, most);
    lemma_part(h1, most);
    lemma_part(h2, most);
    let p1 = product(h1, most);
    let p2 = product(h2, most);
    law_product_is_monotone(p1, p2, step);
    lemma_part(p1, step);
    lemma_part(p2, step);
    let q1 = product(p1, step);
    let q2 = product(p2, step);
    law_sum_is_monotone(q1, q2, one);
    law_order_is_by_value(halo_gain(cov, h1), halo_gain(cov, h2));
    lemma_sum_rank(one, q1);
    lemma_rank_between(halo_gain(cov, h1), one_unit() + q1.units(), 1, one, Single { bits: TWO });
}

/// A greater gain moves a channel no nearer to the luma.
proof fn lemma_spread_grows(c: Single, luma: Single, g1: Single, g2: Single)
    requires
        c.finite(),
        0 <= c.units() <= one_unit(),
        luma.finite(),
        0 <= luma.units() <= 3 * one_unit(),
        g1.finite(),
        g2.finite(),
        0 <= g1.units() <= g2.units(),
        g2.units() <= 2 * one_unit(),
    ensures
        luma.units() <= c.units() ==> spread(c, luma, g1).units() <= spread(c, luma, g2).units(),
        c.units() <= luma.units() ==> spread(c, luma, g2).units() <= spread(c, luma, g1).units(),
{
    let zero = Single { bits: ZERO };
    let w = one_unit();
    lemma_constants();
    let d = difference(c, luma);
    lemma_difference_sign(c, luma);
    lemma_spread_parts(c, luma, g1);
    lemma_spread_parts(c, luma, g2);
    let p1 = product(d, g1);
    let p2 = product(d, g2);
    lemma_product_rank(d, g1);
    lemma_product_rank(d, g2);
    law_order_is_by_value(zero, d);
    law_order_is_by_value(d, zero);
    let u = d.units();
    if luma.units() <= c.units() {
        assert((u * g1.units()) * w <= (u * g2.units()) * w) by (nonlinear_arith)
            requires
                0 <= u,
                g1.units() <= g2.units(),
                w > 0,
        {
            assert(u * g1.units() <= u * g2.units());
        }
        law_rounding_is_monotone(u * g1.units(), w, u * g2.units(), w);
        law_order_is_by_value(p1, p2);
        law_sum_is_monotone(p1, p2, luma);
    }
    if c.units() <= luma.units() {
        assert((u * g2.units()) * w <= (u * g1.units()) * w) by (nonlinear_arith)
            requires
                u <= 0,
                g1.units() <= g2.units(),
                w > 0,
        {
            assert(u * g2.units() <= u * g1.units());
        }
        law_rounding_is_monotone(u * g2.units(), w, u * g1.units(), w);
        law_order_is_by_value(p2, p1);
        law_sum_is_monotone(p2, p1, luma);
    }
    lemma_spread(c, luma, g1);
    lemma_spread(c, luma, g2);
    law_order_is_by_value(spread(c, luma, g1), spread(c, luma, g2));
    law_order_is_by_value(spread(c, luma, g2), spread(c, luma, g1));
}

/// The halo saturates: the stronger it is, the farther each channel lies from
/// the luma of the color, on its own side.
pub proof fn law_halo_saturates(color: [Single; 3], cov: Single, h1: Single, h2: Single, i: int)
    requires
        0 <= i < 3,
        is_color(color),
        cov.finite(),
        h1.finite(),
        h2.finite(),
        0 < h1.units() <= h2.units(),
        h2.units() <= one_unit(),
    ensures
        luma_of(color).units() <= color[i].units() ==> with_halo(color, cov, h1)[i].units()
            <= with_halo(color, cov, h2)[i].units(),
        color[i].units() <= luma_of(color).units() ==> with_halo(color, cov, h2)[i].units()
            <= with_halo(color, cov, h1)[i].units(),
{
    let zero = Single { bits: ZERO };
    lemma_constants();
    law_order_is_by_value(zero, h1);
    law_order_is_by_value(zero, h2);
    assert(color[0].finite() && color[1].finite() && color[2].finite());
    lemma_luma(color);
    lemma_gain_grows(cov, h1, h2);
    lemma_halo_gain(cov, h1);
    lemma_halo_gain(cov, h2);
    let luma = luma_of(color);
    let g1 = halo_gain(cov, h1);
    let g2 = halo_gain(cov, h2);
    assert(color[i].finite());
    lemma_spread_grows(color[i], luma, g1, g2);
    assert(with_halo(color, cov, h1)[i] == spread(color[i], luma, g1));
    assert(with_halo(color, cov, h2)[i] == spread(color[i], luma, g2));
}

} // verus!
