//! What the color character computes, by value: the step over the coverage, the
//! way that bloom goes towards white, and the way that the halo goes away from
//! the luma.

use vstd::arithmetic::power2::{lemma2_to64, pow2};
use vstd::prelude::*;

use super::character::{
    is_color, law_bloom_mixes_with_white, law_character_stays_in_range, law_smooth_step_ends,
    law_smooth_step_is_a_part, lemma_bloom_amount, lemma_difference_sign, lemma_edges,
    lemma_halo_gain, lemma_luma, lemma_spread_parts, lemma_step_at_ends,
};
use super::{
    bloom_amount, bloomed, halo_gain, luma_of, smooth_step, spread, with_bloom, with_halo,
    BLOOM_MAX, CENTER_OUTER, EDGE_INNER, EDGE_OUTER, HALO_SAT_GAIN, LUMA_BLUE, LUMA_GREEN, LUMA_RED,
};
use crate::color::unit_interval;
use crate::single::arith::{absolute, difference, opposite, product, quotient, sum};
use crate::single::convert::{one_unit, whole};
use crate::single::laws::{
    law_confined_lies_within, law_integers_are_exact, law_rounding_is_monotone, lemma_below_one,
    lemma_constants, lemma_difference_rank, lemma_part, lemma_product_rank, lemma_quotient_rank,
    lemma_rank_between, lemma_sum_rank,
};
use crate::single::near::{
    is_times, law_difference_is_near, law_product_is_near, law_quotient_is_near, law_sum_is_near,
    lemma_times_constant, lemma_written,
};
use crate::single::nearest::lemma_units_order;
use crate::single::order::{at_most, below, law_order_is_by_value};
use crate::single::{Single, HALF, ONE, THREE, TWO, ZERO};

verus! {

/// `3 t^2 - 2 t^3` in rounded steps, for a `t` in `0..=1`.
proof fn lemma_cubic(t: Single)
    requires
        t.finite(),
        0 <= t.units() <= one_unit(),
        ({
            let r = product(
                product(t, t),
                difference(Single { bits: THREE }, product(Single { bits: TWO }, t)),
            );
            r.finite()
        }),
    ensures
        ({
            let r = product(
                product(t, t),
                difference(Single { bits: THREE }, product(Single { bits: TWO }, t)),
            );
            let w = one_unit();
            let u = t.units();
            0x8_0000 * absolute(r.units() * (w * w) - (u * u) * (3 * w - 2 * u)) <= w * (w * w)
        }),
{
    let zero = Single { bits: ZERO };
    let one = Single { bits: ONE };
    let two = Single { bits: TWO };
    let three = Single { bits: THREE };
    let w = one_unit();
    let u = t.units();
    lemma_constants();
    let p = product(t, t);
    lemma_part(t, t);
    law_product_is_near(t, t);
    let twice = product(two, t);
    lemma_product_rank(two, t);
    assert(0 * w <= (2 * w) * u && (2 * w) * u <= (2 * w) * w) by (nonlinear_arith)
        requires
            0 <= u <= w,
    ;
    lemma_rank_between(twice, (2 * w) * u, w, zero, two);
    law_product_is_near(two, t);
    let far = difference(three, twice);
    lemma_difference_rank(three, twice);
    lemma_rank_between(far, 3 * w - twice.units(), 1, zero, three);
    law_difference_is_near(three, twice);
    let r = product(p, far);
    law_product_is_near(p, far);
    let d = twice.units();
    assert(0x100_0000 * absolute(d - 2 * u) <= 2 * u + 0x80_0000) by (nonlinear_arith)
        requires
            0x100_0000 * absolute(d * w - (2 * w) * u) <= absolute((2 * w) * u) + 0x80_0000 * w,
            0 <= u,
            w > 0,
    {
        let off = d - 2 * u;
        assert(d * w - (2 * w) * u == off * w);
        assert(absolute(off * w) == absolute(off) * w);
        assert((2 * w) * u == (2 * u) * w && (2 * u) * w >= 0);
        assert((0x100_0000 * absolute(off)) * w <= (2 * u + 0x80_0000) * w);
    }
    lemma_cubic_value(u, p.units(), d, far.units(), r.units(), w as int);
}

proof fn lemma_cubic_value(u: int, p: int, d: int, f: int, r: int, w: int)
    requires
        w >= 0x100_0000_0000,
        0 <= u <= w,
        0 <= p <= w,
        0 <= f <= 3 * w,
        0 <= d <= 2 * w,
        0x100_0000 * absolute(p * w - u * u) <= absolute(u * u) + 0x80_0000 * w,
        0x100_0000 * absolute(d - 2 * u) <= 2 * u + 0x80_0000,
        0x100_0000 * absolute(f - (3 * w - d)) <= absolute(3 * w - d),
        0x100_0000 * absolute(r * w - p * f) <= absolute(p * f) + 0x80_0000 * w,
    ensures
        0x8_0000 * absolute(r * (w * w) - (u * u) * (3 * w - 2 * u)) <= w * (w * w),
{
    let ww = w * w;
    let uu = u * u;
    let g = 3 * w - 2 * u;
    let x = p * w - uu;
    let y = f - g;
    let z = r * w - p * f;
    let www = w * ww;
    assert(r * ww - uu * g == z * w + f * x + uu * y) by (nonlinear_arith)
        requires
            x == p * w - uu,
            y == f - g,
            z == r * w - p * f,
            ww == w * w,
    ;
    assert(0 <= uu <= ww && 0 <= p * f <= 3 * ww && 0x80_0000 * w <= ww) by (nonlinear_arith)
        requires
            uu == u * u,
            ww == w * w,
            0 <= u <= w,
            0 <= p <= w,
            0 <= f <= 3 * w,
            w >= 0x100_0000,
    ;
    assert(0x100_0000 * absolute(y) <= 6 * w);
    assert(0x100_0000 * absolute(z * w) <= 4 * www) by (nonlinear_arith)
        requires
            0x100_0000 * absolute(z) <= 4 * ww,
            www == w * ww,
            w > 0,
    {
        assert(absolute(z * w) == absolute(z) * w);
        assert((0x100_0000 * absolute(z)) * w <= (4 * ww) * w);
    }
    assert(0x100_0000 * absolute(f * x) <= 6 * www) by (nonlinear_arith)
        requires
            0x100_0000 * absolute(x) <= 2 * ww,
            0 <= f <= 3 * w,
            www == w * ww,
            ww >= 0,
    {
        assert(absolute(f * x) == f * absolute(x));
        assert(f * (0x100_0000 * absolute(x)) <= f * (2 * ww));
        assert(f * (2 * ww) <= (3 * w) * (2 * ww));
    }
    assert(0x100_0000 * absolute(uu * y) <= 6 * www) by (nonlinear_arith)
        requires
            0x100_0000 * absolute(y) <= 6 * w,
            0 <= uu <= ww,
            www == w * ww,
            w > 0,
    {
        assert(absolute(uu * y) == uu * absolute(y));
        assert(uu * (0x100_0000 * absolute(y)) <= uu * (6 * w));
        assert(uu * (6 * w) <= ww * (6 * w));
    }
}

/// `t` is where `x` lies between two edges, as a part of their distance.
pub open spec fn is_place(t: int, edge0: Single, edge1: Single, x: Single) -> bool {
    let w = one_unit();
    let way = x.units() - edge0.units();
    let all = edge1.units() - edge0.units();
    &&& 0 <= t <= w
    &&& 0 <= way <= all || all <= way <= 0 ==> 0x20_0000 * absolute(
        t * absolute(all) - absolute(way) * w,
    ) <= absolute(all) * w
}

/// `s` is `3 t^2 - 2 t^3`, off by 2^-19 at most.
pub open spec fn is_cubic(s: int, t: int) -> bool {
    let w = one_unit();
    0x8_0000 * absolute(s * (w * w) - (t * t) * (3 * w - 2 * t)) <= w * (w * w)
}

/// Between its edges the step is `3 t^2 - 2 t^3` of the part `t` of the way from
/// the first to the second.
pub proof fn law_step_is_cubic(edge0: Single, edge1: Single, x: Single) -> (t: int)
    requires
        edge0.finite(),
        edge1.finite(),
        x.finite(),
        difference(edge1, edge0).finite(),
        difference(x, edge0).finite(),
        edge0.units() != edge1.units(),
    ensures
        is_place(t, edge0, edge1, x),
        is_cubic(smooth_step(edge0, edge1, x).units(), t),
{
    let zero = Single { bits: ZERO };
    let one = Single { bits: ONE };
    let w = one_unit();
    lemma_constants();
    law_order_is_by_value(edge0, edge1);
    law_order_is_by_value(edge1, edge0);
    law_order_is_by_value(zero, one);
    let way = x.units() - edge0.units();
    let all = edge1.units() - edge0.units();
    let n = difference(x, edge0);
    let d = difference(edge1, edge0);
    law_difference_is_near(x, edge0);
    law_difference_is_near(edge1, edge0);
    let q = quotient(n, d);
    let t = unit_interval(q);
    law_confined_lies_within(q, zero, one);
    law_smooth_step_is_a_part(edge0, edge1, x);
    lemma_difference_sign(edge1, edge0);
    lemma_units_order(0, d.magnitude());
    assert(!q.nan());
    law_order_is_by_value(zero, t);
    law_order_is_by_value(t, one);
    lemma_cubic(t);
    if 0 <= way <= all || all <= way <= 0 {
        // With both signs turned the quotient is the same.
        let n1 = if all > 0 {
            n
        } else {
            opposite(n)
        };
        let d1 = if all > 0 {
            d
        } else {
            opposite(d)
        };
        assert(n1.finite() && d1.finite() && d1.units() > 0);
        assert(n1.absolute_units() == n.absolute_units() && d1.absolute_units()
            == d.absolute_units());
        assert(quotient(n1, d1) == q);
        let a = absolute(all) as int;
        let b = absolute(way) as int;
        assert(0x100_0000 * absolute(n1.units() - b) <= b);
        assert(0x100_0000 * absolute(d1.units() - a) <= a);
        lemma_quotient_rank(n1, d1);
        let v = d1.units();
        let m = n1.units();
        assert(0 * v <= m * w && m * w <= (2 * w) * v) by (nonlinear_arith)
            requires
                0 <= m <= 2 * v,
                w > 0,
        ;
        lemma_rank_between(q, m * w, v as nat, zero, Single { bits: TWO });
        law_quotient_is_near(n1, d1);
        lemma_place(a, b, v, m, q.units(), w as int);
        law_order_is_by_value(q, one);
        if below(one, q) {
            lemma_capped(a, b, q.units(), w as int);
        }
    }
    t.units()
}

proof fn lemma_place(a: int, b: int, v: int, m: int, q: int, w: int)
    requires
        0 <= b <= a,
        0 < a,
        0 < v,
        w >= 0x100_0000_0000,
        0 <= q <= 2 * w,
        0x100_0000 * absolute(m - b) <= b,
        0x100_0000 * absolute(v - a) <= a,
        0x100_0000 * absolute(q * v - m * w) <= absolute(m * w) + 0x80_0000 * v,
    ensures
        0x20_0000 * absolute(q * a - b * w) <= a * w,
{
    let x = q * v - m * w;
    let y = a - v;
    let z = m - b;
    assert(q * a - b * w == x + q * y + z * w) by (nonlinear_arith)
        requires
            x == q * v - m * w,
            y == a - v,
            z == m - b,
    ;
    let aw = a * w;
    assert(0x100_0000 * absolute(q * y) <= 2 * aw) by (nonlinear_arith)
        requires
            0x100_0000 * absolute(y) <= a,
            0 <= q <= 2 * w,
            aw == a * w,
            a >= 0,
    {
        assert(absolute(q * y) == q * absolute(y));
        assert(q * (0x100_0000 * absolute(y)) <= q * a && q * a <= (2 * w) * a);
    }
    assert(0x100_0000 * absolute(z * w) <= aw) by (nonlinear_arith)
        requires
            0x100_0000 * absolute(z) <= a,
            aw == a * w,
            w > 0,
    {
        assert(absolute(z * w) == absolute(z) * w);
        assert((0x100_0000 * absolute(z)) * w <= a * w);
    }
    assert(absolute(m * w) <= 2 * aw && 0x80_0000 * v <= aw) by (nonlinear_arith)
        requires
            0 <= m <= 2 * a,
            0 <= v <= 2 * a,
            aw == a * w,
            w >= 0x100_0000_0000,
    {
        assert(m * w <= (2 * a) * w && m * w >= 0);
        assert(0x80_0000 * v <= 0x100_0000 * a && 0x100_0000 * a <= w * a);
    }
}

proof fn lemma_capped(a: int, b: int, q: int, w: int)
    requires
        0 <= b <= a,
        w < q,
        0 < w,
        0x20_0000 * absolute(q * a - b * w) <= a * w,
    ensures
        0x20_0000 * absolute(w * a - b * w) <= a * w,
{
    assert(b * w <= w * a && w * a <= q * a) by (nonlinear_arith)
        requires
            0 <= b <= a,
            0 < w <= q,
    ;
}

/// Bloom goes 0.45 of itself and of the step over the coverage towards white.
pub proof fn law_bloom_is_by_coverage(cov: Single, bloom: Single)
    requires
        cov.finite(),
        bloom.finite(),
        0 <= bloom.units() <= one_unit(),
    ensures
        ({
            let w = one_unit();
            let step = smooth_step(Single { bits: CENTER_OUTER }, Single { bits: HALF }, cov);
            let t = bloom_amount(cov, bloom).units();
            &&& 0 <= t <= w
            &&& 0 <= step.units() <= w
            &&& 2 * cov.units() >= w ==> step.units() == w
            &&& 0x2_0000 * absolute(20 * (t * w) - 9 * (bloom.units() * step.units())) <= w * w
        }),
{
    let w = one_unit();
    let low = Single { bits: CENTER_OUTER };
    let half = Single { bits: HALF };
    let most = Single { bits: BLOOM_MAX };
    lemma_constants();
    lemma2_to64();
    lemma_edges();
    lemma_below_one(low);
    lemma_bloom_amount(cov, bloom);
    lemma_written(most, 124, 0xE6_6666, 0x200_0000);
    law_smooth_step_is_a_part(low, half, cov);
    law_smooth_step_ends(low, half, cov);
    law_order_is_by_value(half, cov);
    let step = smooth_step(low, half, cov);
    lemma_part(bloom, most);
    lemma_times_constant(bloom, most, 9, 20);
    let p = product(bloom, most);
    lemma_part(p, step);
    law_product_is_near(p, step);
    lemma_amount_value(
        bloom.units(),
        p.units(),
        step.units(),
        bloom_amount(cov, bloom).units(),
        w as int,
    );
}

proof fn lemma_amount_value(b: int, p: int, s: int, t: int, w: int)
    requires
        w >= 0x100_0000_0000,
        0 <= b <= w,
        0 <= p <= w,
        0 <= s <= w,
        is_times(p, b, 9, 20),
        0x100_0000 * absolute(t * w - p * s) <= absolute(p * s) + 0x80_0000 * w,
    ensures
        0x2_0000 * absolute(20 * (t * w) - 9 * (b * s)) <= w * w,
{
    let x = t * w - p * s;
    let y = 20 * p - 9 * b;
    let ww = w * w;
    assert(20 * (t * w) - 9 * (b * s) == 20 * x + s * y) by (nonlinear_arith)
        requires
            x == t * w - p * s,
            y == 20 * p - 9 * b,
    ;
    assert(0 <= p * s <= ww && 0x100_0000 * w <= ww) by (nonlinear_arith)
        requires
            0 <= p <= w,
            0 <= s <= w,
            ww == w * w,
            w >= 0x100_0000_0000,
    ;
    assert(0x20_0000 * absolute(y) <= 10 * w);
    assert(0x20_0000 * absolute(s * y) <= 10 * ww) by (nonlinear_arith)
        requires
            0x20_0000 * absolute(y) <= 10 * w,
            0 <= s <= w,
            ww == w * w,
    {
        assert(absolute(s * y) == s * absolute(y));
        assert(s * (0x20_0000 * absolute(y)) <= s * (10 * w) && s * (10 * w) <= w * (10 * w));
    }
}

/// `r` is the channel `c` after 0.45 of `bloom` and of `step` of the way towards
/// white.
pub open spec fn is_bloomed(r: int, c: int, bloom: int, step: int) -> bool {
    let w = one_unit();
    0x1_0000 * absolute(20 * (r * (w * w)) - (20 * (c * (w * w)) + 9 * ((bloom * step) * (w - c))))
        <= w * (w * w)
}

/// What bloom makes of a color: every channel goes 0.45 of the bloom and of the
/// step of the way towards white. The step is that of the coverage between 0.18
/// and 0.5, so it is whole from a coverage of one half on.
pub proof fn law_color_blooms(rgb: [Single; 3], cov: Single, bloom: Single, i: int) -> (r: (
    int,
    int,
))
    requires
        0 <= i < 3,
        is_color(rgb),
        cov.finite(),
        bloom.finite(),
        0 <= bloom.units() <= one_unit(),
    ensures
        ({
            let (step, t) = r;
            let w = one_unit();
            &&& is_place(t, Single { bits: CENTER_OUTER }, Single { bits: HALF }, cov)
            &&& is_cubic(step, t)
            &&& at_most(cov, Single { bits: CENTER_OUTER }) ==> step == 0
            &&& 2 * cov.units() >= w ==> step == w
            &&& is_bloomed(
                with_bloom(rgb, cov, bloom)[i].units(),
                rgb[i].units(),
                bloom.units(),
                step,
            )
        }),
{
    let zero = Single { bits: ZERO };
    let w = one_unit();
    let low = Single { bits: CENTER_OUTER };
    let half = Single { bits: HALF };
    lemma_constants();
    lemma_edges();
    lemma_below_one(low);
    law_order_is_by_value(low, half);
    law_order_is_by_value(zero, bloom);
    law_bloom_is_by_coverage(cov, bloom);
    law_smooth_step_ends(low, half, cov);
    law_smooth_step_is_a_part(low, half, cov);
    let place = law_step_in_range(low, half, cov);
    let step = smooth_step(low, half, cov).units();
    let c = rgb[i];
    assert(c.finite() && 0 <= c.units() <= w);
    let u = c.units();
    if below(zero, bloom) {
        let t = bloom_amount(cov, bloom);
        lemma_bloom_amount(cov, bloom);
        law_bloom_mixes_with_white(c, t);
        assert(with_bloom(rgb, cov, bloom)[i] == bloomed(c, t));
        lemma_bloomed_value(
            u,
            bloom.units(),
            step,
            t.units(),
            bloomed(c, t).units(),
            w as int,
        );
    } else {
        assert(bloom.units() == 0);
        assert((0 * step) * (w - u) == 0) by (nonlinear_arith);
        assert(w * (w * w) >= 0) by (nonlinear_arith);
    }
    (step, place)
}

/// The same for edges in `0..=1`, however far away `x` is.
pub proof fn law_step_in_range(edge0: Single, edge1: Single, x: Single) -> (t: int)
    requires
        edge0.finite(),
        edge1.finite(),
        0 <= edge0.units() <= one_unit(),
        0 <= edge1.units() <= one_unit(),
        edge0.units() != edge1.units(),
        x.finite(),
        difference(edge1, edge0).finite(),
    ensures
        is_place(t, edge0, edge1, x),
        is_cubic(smooth_step(edge0, edge1, x).units(), t),
{
    let w = one_unit();
    let two = Single { bits: TWO };
    lemma_constants();
    law_smooth_step_ends(edge0, edge1, x);
    law_order_is_by_value(edge0, edge1);
    law_order_is_by_value(edge1, edge0);
    law_order_is_by_value(edge0, x);
    law_order_is_by_value(x, edge0);
    law_order_is_by_value(edge1, x);
    law_order_is_by_value(x, edge1);
    if -w <= x.units() <= 2 * w {
        lemma_difference_rank(x, edge0);
        lemma_rank_between(
            difference(x, edge0),
            x.units() - edge0.units(),
            1,
            opposite(two),
            two,
        );
        law_step_is_cubic(edge0, edge1, x)
    } else {
        assert((w * w) * (3 * w - 2 * w) == w * (w * w)) by (nonlinear_arith);
        assert(w * (w * w) >= 0 && (0 * 0) * (3 * w - 2 * 0) == 0 && 0 * (w * w) == 0)
            by (nonlinear_arith);
        smooth_step(edge0, edge1, x).units()
    }
}

/// Where both edges are one the step is a jump, without a value at the edge
/// itself.
pub proof fn law_step_of_one_edge(edge: Single, x: Single)
    requires
        edge.finite(),
        x.finite(),
    ensures
        x.units() < edge.units() ==> smooth_step(edge, edge, x).zero(),
        x.units() > edge.units() ==> smooth_step(edge, edge, x).bits == ONE,
        x.units() == edge.units() ==> smooth_step(edge, edge, x).nan(),
{
    lemma_constants();
    let d = difference(edge, edge);
    assert(d.bits == ZERO);
    let n = difference(x, edge);
    lemma_difference_sign(x, edge);
    let q = quotient(n, d);
    let t = unit_interval(q);
    if x.units() != edge.units() {
        assert(q.infinite() && q.negative() == (x.units() < edge.units()));
        lemma_step_at_ends(t);
    } else {
        assert(n.zero());
        assert(q.nan() && t.nan());
    }
}

/// From a coverage of one half on, bloom goes the whole of its way: a channel
/// `c` becomes `c (1 - 0.45 bloom) + 0.45 bloom`. Without a halo `c` is the
/// channel that was handed in.
pub proof fn law_full_coverage_blooms(
    color: [Single; 3],
    cov: Single,
    bloom: Single,
    halo: Single,
    i: int,
)
    requires
        0 <= i < 3,
        is_color(color),
        cov.finite(),
        2 * cov.units() >= one_unit(),
        bloom.finite(),
        0 <= bloom.units() <= one_unit(),
        halo.finite(),
        0 <= halo.units() <= one_unit(),
    ensures
        ({
            let w = one_unit();
            let from = with_halo(color, cov, halo);
            let r = with_bloom(from, cov, bloom)[i].units();
            let c = from[i].units();
            let b = bloom.units();
            &&& halo.units() == 0 ==> from == color
            &&& 0x1_0000 * absolute(20 * (r * w) - (c * (20 * w - 9 * b) + 9 * (b * w))) <= w * w
        }),
{
    let zero = Single { bits: ZERO };
    let w = one_unit();
    lemma_constants();
    law_order_is_by_value(zero, halo);
    law_character_stays_in_range(color, cov, bloom, halo);
    let from = with_halo(color, cov, halo);
    let (step, _t) = law_color_blooms(from, cov, bloom, i);
    let r = with_bloom(from, cov, bloom)[i].units();
    let c = from[i].units();
    let b = bloom.units();
    let x = 20 * (r * w) - (c * (20 * w - 9 * b) + 9 * (b * w));
    assert(20 * (r * (w * w)) - (20 * (c * (w * w)) + 9 * ((b * w) * (w - c))) == x * w)
        by (nonlinear_arith)
        requires
            x == 20 * (r * w) - (c * (20 * w - 9 * b) + 9 * (b * w)),
    ;
    assert(0x1_0000 * absolute(x) <= w * w) by (nonlinear_arith)
        requires
            0x1_0000 * absolute(x * w) <= w * (w * w),
            w > 0,
    {
        assert(absolute(x * w) == absolute(x) * w);
        assert((0x1_0000 * absolute(x)) * w <= (w * w) * w);
    }
}

proof fn lemma_bloomed_value(c: int, b: int, s: int, t: int, r: int, w: int)
    requires
        w == one_unit(),
        w >= 0x100_0000_0000,
        0 <= c <= w,
        0x2_0000 * absolute(20 * (t * w) - 9 * (b * s)) <= w * w,
        0x200_0000 * absolute(r * w - (c * (w - t) + t * w)) <= 3 * (w * w),
    ensures
        is_bloomed(r, c, b, s),
{
    let ww = w * w;
    let x = 20 * (t * w) - 9 * (b * s);
    let y = r * w - (c * (w - t) + t * w);
    let bs = b * s;
    let www = w * ww;
    let off = 20 * (r * ww) - (20 * (c * ww) + 9 * (bs * (w - c)));
    let m = t * w;
    assert(y * w == r * ww - c * ww + c * m - m * w) by (nonlinear_arith)
        requires
            y == r * w - (c * (w - t) + m),
            m == t * w,
            ww == w * w,
    ;
    assert(x * (w - c) == 20 * (m * w) - 20 * (c * m) - 9 * (bs * (w - c))) by (nonlinear_arith)
        requires
            x == 20 * m - 9 * bs,
    ;
    assert(off == 20 * (y * w) + x * (w - c));
    assert(0x200_0000 * absolute(y * w) <= 3 * www) by (nonlinear_arith)
        requires
            0x200_0000 * absolute(y) <= 3 * ww,
            www == w * ww,
            w > 0,
    {
        assert(absolute(y * w) == absolute(y) * w);
        assert((0x200_0000 * absolute(y)) * w <= (3 * ww) * w);
    }
    assert(0x2_0000 * absolute(x * (w - c)) <= www) by (nonlinear_arith)
        requires
            0x2_0000 * absolute(x) <= ww,
            0 <= w - c <= w,
            www == w * ww,
            ww >= 0,
    {
        assert(absolute(x * (w - c)) == absolute(x) * (w - c));
        assert((0x2_0000 * absolute(x)) * (w - c) <= ww * (w - c));
        assert(ww * (w - c) <= ww * w);
    }
}

/// The part of the way that bloom goes does not fall as the coverage rises, but
/// for 2^-16.
pub proof fn law_bloom_grows_with_coverage(one: Single, two: Single, bloom: Single)
    requires
        one.finite(),
        two.finite(),
        one.units() <= two.units(),
        bloom.finite(),
        0 <= bloom.units() <= one_unit(),
    ensures
        0x1_0000 * (bloom_amount(one, bloom).units() - bloom_amount(two, bloom).units())
            <= one_unit(),
{
    let w = one_unit();
    let low = Single { bits: CENTER_OUTER };
    let half = Single { bits: HALF };
    lemma_constants();
    lemma_edges();
    lemma_below_one(low);
    law_order_is_by_value(low, half);
    law_bloom_is_by_coverage(one, bloom);
    law_bloom_is_by_coverage(two, bloom);
    lemma_step_grows(one, two);
    let s1 = smooth_step(low, half, one).units();
    let s2 = smooth_step(low, half, two).units();
    let a1 = bloom_amount(one, bloom).units();
    let a2 = bloom_amount(two, bloom).units();
    let b = bloom.units();
    assert(0x1_0000 * (a1 - a2) <= w) by (nonlinear_arith)
        requires
            0x2_0000 * absolute(20 * (a1 * w) - 9 * (b * s1)) <= w * w,
            0x2_0000 * absolute(20 * (a2 * w) - 9 * (b * s2)) <= w * w,
            0x4_0000 * (s1 - s2) <= w,
            0 <= b <= w,
            w > 0,
    {
        assert(0x4_0000 * (b * (s1 - s2)) <= w * w) by {
            assert(b * (0x4_0000 * (s1 - s2)) <= b * w) by (nonlinear_arith)
                requires
                    0x4_0000 * (s1 - s2) <= w,
                    0 <= b,
            ;
            assert(b * w <= w * w);
        }
        assert(b * (s1 - s2) == b * s1 - b * s2);
        assert(20 * ((a1 - a2) * w) == 20 * (a1 * w) - 20 * (a2 * w));
        assert(0x4_0000 * (20 * ((a1 - a2) * w)) <= 13 * (w * w));
        assert((0x1_0000 * (a1 - a2)) * w <= w * w);
    }
}

/// The step does not fall, but for 2^-18.
proof fn lemma_step_grows(one: Single, two: Single)
    requires
        one.finite(),
        two.finite(),
        one.units() <= two.units(),
    ensures
        0x4_0000 * (smooth_step(Single { bits: CENTER_OUTER }, Single { bits: HALF }, one).units()
            - smooth_step(Single { bits: CENTER_OUTER }, Single { bits: HALF }, two).units())
            <= one_unit(),
{
    let zero = Single { bits: ZERO };
    let one_n = Single { bits: ONE };
    let w = one_unit();
    let low = Single { bits: CENTER_OUTER };
    let half = Single { bits: HALF };
    lemma_constants();
    lemma_edges();
    lemma_below_one(low);
    law_order_is_by_value(low, half);
    law_order_is_by_value(zero, one_n);
    law_smooth_step_is_a_part(low, half, one);
    law_smooth_step_is_a_part(low, half, two);
    let d = difference(half, low);
    lemma_difference_sign(half, low);
    law_order_is_by_value(zero, d);
    let n1 = difference(one, low);
    let n2 = difference(two, low);
    lemma_difference_rank(one, low);
    lemma_difference_rank(two, low);
    law_rounding_is_monotone(one.units() - low.units(), 1, two.units() - low.units(), 1);
    let q1 = quotient(n1, d);
    let q2 = quotient(n2, d);
    let t1 = unit_interval(q1);
    let t2 = unit_interval(q2);
    assert(q1.rank() <= q2.rank() && !q1.nan() && !q2.nan()) by {
        if n1.finite() && n2.finite() {
            lemma_quotient_rank(n1, d);
            lemma_quotient_rank(n2, d);
            law_order_is_by_value(n1, n2);
            let v = d.units();
            assert((n1.units() * w) * v <= (n2.units() * w) * v) by (nonlinear_arith)
                requires
                    n1.units() <= n2.units(),
                    v > 0,
                    w > 0,
            {
                assert(n1.units() * w <= n2.units() * w);
            }
            law_rounding_is_monotone(n1.units() * w, v as nat, n2.units() * w, v as nat);
        }
    }
    law_confined_lies_within(q1, zero, one_n);
    law_confined_lies_within(q2, zero, one_n);
    law_order_is_by_value(zero, t1);
    law_order_is_by_value(t1, one_n);
    law_order_is_by_value(zero, t2);
    law_order_is_by_value(t2, one_n);
    law_order_is_by_value(t1, t2);
    lemma_cubic(t1);
    lemma_cubic(t2);
    lemma_cubic_grows(t1.units(), t2.units(), w as int);
    let a = t1.units();
    let b = t2.units();
    let p1 = (a * a) * (3 * w - 2 * a);
    let p2 = (b * b) * (3 * w - 2 * b);
    let s1 = smooth_step(low, half, one).units();
    let s2 = smooth_step(low, half, two).units();
    assert(0x4_0000 * (s1 - s2) <= w) by (nonlinear_arith)
        requires
            0x8_0000 * absolute(s1 * (w * w) - p1) <= w * (w * w),
            0x8_0000 * absolute(s2 * (w * w) - p2) <= w * (w * w),
            p1 <= p2,
            w > 0,
    {
        let ww = w * w;
        assert(ww > 0);
        assert(0x4_0000 * (s1 * ww - s2 * ww) <= w * ww);
        assert((0x4_0000 * (s1 - s2)) * ww <= w * ww);
    }
}

proof fn lemma_cubic_grows(a: int, b: int, w: int)
    requires
        0 <= a <= b <= w,
    ensures
        (a * a) * (3 * w - 2 * a) <= (b * b) * (3 * w - 2 * b),
{
    // The difference is (b - a) times what is not below zero.
    let d = b - a;
    assert((b * b) * (3 * w - 2 * b) - (a * a) * (3 * w - 2 * a) == d * (3 * (w * (a + b)) - 2 * (a
        * a + a * b + b * b))) by (nonlinear_arith)
        requires
            d == b - a,
    ;
    assert(3 * (w * (a + b)) - 2 * (a * a + a * b + b * b) >= 0) by (nonlinear_arith)
        requires
            0 <= a <= b <= w,
    {
        assert(w * a >= b * a && w * b >= b * b);
        assert(a * a <= a * b && a * b <= b * b);
    }
    assert(d * (3 * (w * (a + b)) - 2 * (a * a + a * b + b * b)) >= 0) by (nonlinear_arith)
        requires
            d >= 0,
            3 * (w * (a + b)) - 2 * (a * a + a * b + b * b) >= 0,
    ;
}

/// A part of a channel for the luma.
proof fn lemma_luma_part(c: Single, k: Single, e: nat, f: nat, d: nat, num: int)
    requires
        c.finite(),
        0 <= c.units() <= one_unit(),
        k.bits == e * 0x80_0000 + f,
        0x80_0000 <= f <= 0x100_0000,
        e <= 149,
        d == pow2((149 - e) as nat),
        f <= d,
        0 < num,
        0x80_0000 * absolute(1000 * f - num * d) <= num * d,
    ensures
        product(c, k).finite(),
        0 <= product(c, k).units() <= c.units(),
        is_times(product(c, k).units(), c.units(), num, 1000),
{
    let w = one_unit();
    let p = pow2(e);
    lemma_constants();
    lemma_written(k, e, f, d);
    assert(f * p <= d * p) by (nonlinear_arith)
        requires
            f <= d,
    ;
    lemma_part(c, k);
    assert(0x80_0000 * absolute(1000 * (f * p) - num * (d * p)) <= num * (d * p))
        by (nonlinear_arith)
        requires
            0x80_0000 * absolute(1000 * f - num * d) <= num * d,
            p > 0,
    {
        let x = 1000 * f - num * d;
        assert(1000 * (f * p) - num * (d * p) == x * p);
        assert(absolute(x * p) == absolute(x) * p);
        assert((0x80_0000 * absolute(x)) * p <= (num * d) * p);
        assert((num * d) * p == num * (d * p));
    }
    lemma_times_constant(c, k, num, 1000);
}

/// The luma is 0.299 of red, 0.587 of green and 0.114 of blue.
pub proof fn law_luma_is_weighted(rgb: [Single; 3])
    requires
        is_color(rgb),
    ensures
        luma_of(rgb).finite(),
        0x1_0000 * absolute(
            1000 * luma_of(rgb).units() - (299 * rgb[0].units() + 587 * rgb[1].units() + 114
                * rgb[2].units()),
        ) <= 1000 * one_unit(),
{
    let zero = Single { bits: ZERO };
    let kr = Single { bits: LUMA_RED };
    let kg = Single { bits: LUMA_GREEN };
    let kb = Single { bits: LUMA_BLUE };
    lemma_constants();
    lemma2_to64();
    assert(rgb[0].finite() && rgb[1].finite() && rgb[2].finite());
    lemma_luma_part(rgb[0], kr, 124, 0x99_1687, 0x200_0000, 299);
    lemma_luma_part(rgb[1], kg, 125, 0x96_45A2, 0x100_0000, 587);
    lemma_luma_part(rgb[2], kb, 122, 0xE9_78D5, 0x800_0000, 114);
    let r = product(rgb[0], kr);
    let g = product(rgb[1], kg);
    let b = product(rgb[2], kb);
    lemma_luma(rgb);
    lemma_sum_rank(r, g);
    lemma_rank_between(sum(r, g), r.units() + g.units(), 1, zero, Single { bits: TWO });
    law_sum_is_near(r, g);
    law_sum_is_near(sum(r, g), b);
    lemma_luma_value(
        rgb[0].units(),
        rgb[1].units(),
        rgb[2].units(),
        r.units(),
        g.units(),
        b.units(),
        sum(r, g).units(),
        luma_of(rgb).units(),
        one_unit() as int,
    );
}

proof fn lemma_luma_value(
    x: int,
    y: int,
    z: int,
    r: int,
    g: int,
    b: int,
    s: int,
    l: int,
    w: int,
)
    requires
        w >= 0x100_0000_0000,
        0 <= x <= w,
        0 <= y <= w,
        0 <= z <= w,
        0 <= r <= w,
        0 <= g <= w,
        0 <= b <= w,
        is_times(r, x, 299, 1000),
        is_times(g, y, 587, 1000),
        is_times(b, z, 114, 1000),
        0x100_0000 * absolute(s - (r + g)) <= absolute(r + g),
        0x100_0000 * absolute(l - (s + b)) <= absolute(s + b),
    ensures
        0x1_0000 * absolute(1000 * l - (299 * x + 587 * y + 114 * z)) <= 1000 * w,
{
}

/// The gain of the halo is one plus 0.6 of the halo and of the step over the
/// coverage.
pub proof fn law_gain_is_by_coverage(cov: Single, halo: Single)
    requires
        cov.finite(),
        halo.finite(),
        0 <= halo.units() <= one_unit(),
    ensures
        ({
            let w = one_unit();
            let step = smooth_step(Single { bits: EDGE_INNER }, Single { bits: EDGE_OUTER }, cov);
            let g = halo_gain(cov, halo).units();
            &&& 0 <= g <= 2 * w
            &&& 0 <= step.units() <= w
            &&& 0x4_0000 * absolute(5 * (g * w) - (5 * (w * w) + 3 * (halo.units() * step.units())))
                <= w * w
        }),
{
    let w = one_unit();
    let one = Single { bits: ONE };
    let inner = Single { bits: EDGE_INNER };
    let outer = Single { bits: EDGE_OUTER };
    let most = Single { bits: HALO_SAT_GAIN };
    lemma_constants();
    lemma2_to64();
    lemma_edges();
    lemma_halo_gain(cov, halo);
    lemma_written(most, 125, 0x99_999A, 0x100_0000);
    law_smooth_step_is_a_part(inner, outer, cov);
    let step = smooth_step(inner, outer, cov);
    lemma_part(halo, most);
    lemma_times_constant(halo, most, 3, 5);
    let p = product(halo, most);
    lemma_part(p, step);
    law_product_is_near(p, step);
    let q = product(p, step);
    law_sum_is_near(one, q);
    lemma_gain_value(
        halo.units(),
        p.units(),
        step.units(),
        q.units(),
        halo_gain(cov, halo).units(),
        w as int,
    );
}

proof fn lemma_gain_value(h: int, p: int, s: int, q: int, g: int, w: int)
    requires
        w >= 0x100_0000_0000,
        0 <= h <= w,
        0 <= p <= w,
        0 <= s <= w,
        0 <= q <= w,
        is_times(p, h, 3, 5),
        0x100_0000 * absolute(q * w - p * s) <= absolute(p * s) + 0x80_0000 * w,
        0x100_0000 * absolute(g - (w + q)) <= absolute(w + q),
    ensures
        0x4_0000 * absolute(5 * (g * w) - (5 * (w * w) + 3 * (h * s))) <= w * w,
{
    let x = q * w - p * s;
    let y = 5 * p - 3 * h;
    let z = g - (w + q);
    let ww = w * w;
    assert(5 * (g * w) - (5 * ww + 3 * (h * s)) == 5 * (z * w) + 5 * x + s * y)
        by (nonlinear_arith)
        requires
            x == q * w - p * s,
            y == 5 * p - 3 * h,
            z == g - (w + q),
            ww == w * w,
    ;
    assert(0 <= p * s <= ww && 0x100_0000 * w <= ww) by (nonlinear_arith)
        requires
            0 <= p <= w,
            0 <= s <= w,
            ww == w * w,
            w >= 0x100_0000_0000,
    ;
    assert(0x20_0000 * absolute(y) <= 4 * w);
    assert(0x20_0000 * absolute(s * y) <= 4 * ww) by (nonlinear_arith)
        requires
            0x20_0000 * absolute(y) <= 4 * w,
            0 <= s <= w,
            ww == w * w,
    {
        assert(absolute(s * y) == s * absolute(y));
        assert(s * (0x20_0000 * absolute(y)) <= s * (4 * w) && s * (4 * w) <= w * (4 * w));
    }
    assert(0x100_0000 * absolute(z * w) <= 2 * ww) by (nonlinear_arith)
        requires
            0x100_0000 * absolute(z) <= 2 * w,
            ww == w * w,
            w > 0,
    {
        assert(absolute(z * w) == absolute(z) * w);
        assert((0x100_0000 * absolute(z)) * w <= (2 * w) * w);
    }
}

/// `r` is `luma` plus `gain` times the distance of `c` from it, drawn into
/// `0..=1`.
pub open spec fn is_spread(r: int, c: int, luma: int, gain: int) -> bool {
    let w = one_unit();
    let exact = luma * w + (c - luma) * gain;
    let aim: int = if exact < 0 {
        0
    } else if exact > w * w {
        (w * w) as int
    } else {
        exact
    };
    0x4_0000 * absolute(r * w - aim) <= w * w
}

/// A channel goes away from the luma by the gain.
pub proof fn law_spread_is_by_gain(c: Single, luma: Single, gain: Single)
    requires
        c.finite(),
        0 <= c.units() <= one_unit(),
        luma.finite(),
        0 <= luma.units() <= 3 * one_unit(),
        gain.finite(),
        0 <= gain.units() <= 2 * one_unit(),
    ensures
        is_spread(spread(c, luma, gain).units(), c.units(), luma.units(), gain.units()),
{
    let zero = Single { bits: ZERO };
    let one = Single { bits: ONE };
    let w = one_unit();
    lemma_constants();
    lemma_spread_parts(c, luma, gain);
    let d = difference(c, luma);
    law_difference_is_near(c, luma);
    let p = product(d, gain);
    law_product_is_near(d, gain);
    let x = sum(luma, p);
    lemma_sum_rank(luma, p);
    law_integers_are_exact(32);
    let much = whole(32);
    lemma_spread_bounds(c.units(), luma.units(), gain.units(), d.units(), p.units(), w as int);
    lemma_rank_between(x, luma.units() + p.units(), 1, opposite(much), much);
    law_sum_is_near(luma, p);
    law_order_is_by_value(x, zero);
    law_order_is_by_value(one, x);
    law_order_is_by_value(zero, one);
    lemma_spread_value(
        c.units(),
        luma.units(),
        gain.units(),
        d.units(),
        p.units(),
        x.units(),
        w as int,
    );
    lemma_clamped_near(x.units(), c.units(), luma.units(), gain.units(), w as int);
}

proof fn lemma_spread_bounds(c: int, l: int, g: int, d: int, p: int, w: int)
    requires
        w >= 0x100_0000_0000,
        0 <= c <= w,
        0 <= l <= 3 * w,
        0 <= g <= 2 * w,
        0x100_0000 * absolute(d - (c - l)) <= absolute(c - l),
        0x100_0000 * absolute(p * w - d * g) <= absolute(d * g) + 0x80_0000 * w,
    ensures
        absolute(d) <= 4 * w,
        absolute(d * g) <= 8 * (w * w),
        absolute(p) <= 16 * w,
{
    assert(absolute(d) <= 4 * w);
    let ww = w * w;
    assert(absolute(d * g) <= 8 * ww) by (nonlinear_arith)
        requires
            absolute(d) <= 4 * w,
            0 <= g <= 2 * w,
            ww == w * w,
    {
        assert(absolute(d * g) == absolute(d) * g);
        assert(absolute(d) * g <= (4 * w) * (2 * w));
    }
    assert(absolute(p) <= 16 * w) by (nonlinear_arith)
        requires
            0x100_0000 * absolute(p * w - d * g) <= absolute(d * g) + 0x80_0000 * w,
            absolute(d * g) <= 8 * (w * w),
            w >= 0x100_0000,
    {
        assert(absolute(p * w) == absolute(p) * w);
        assert(0x80_0000 * w <= w * w);
        assert(absolute(p) * w <= (16 * w) * w);
    }
}

proof fn lemma_spread_value(c: int, l: int, g: int, d: int, p: int, x: int, w: int)
    requires
        w >= 0x100_0000_0000,
        0 <= g <= 2 * w,
        0 <= l <= 3 * w,
        0 <= c <= w,
        absolute(d * g) <= 8 * (w * w),
        absolute(p) <= 16 * w,
        0x100_0000 * absolute(d - (c - l)) <= absolute(c - l),
        0x100_0000 * absolute(p * w - d * g) <= absolute(d * g) + 0x80_0000 * w,
        0x100_0000 * absolute(x - (l + p)) <= absolute(l + p),
    ensures
        0x4_0000 * absolute(x * w - (l * w + (c - l) * g)) <= w * w,
{
    let ww = w * w;
    let y = d - (c - l);
    let z = p * w - d * g;
    let v = x - (l + p);
    assert(x * w - (l * w + (c - l) * g) == v * w + z + y * g) by (nonlinear_arith)
        requires
            y == d - (c - l),
            z == p * w - d * g,
            v == x - (l + p),
    ;
    assert(0x80_0000 * w <= ww) by (nonlinear_arith)
        requires
            ww == w * w,
            w >= 0x100_0000,
    ;
    assert(0x100_0000 * absolute(v * w) <= 19 * ww) by (nonlinear_arith)
        requires
            0x100_0000 * absolute(v) <= 19 * w,
            ww == w * w,
            w > 0,
    {
        assert(absolute(v * w) == absolute(v) * w);
        assert((0x100_0000 * absolute(v)) * w <= (19 * w) * w);
    }
    assert(0x100_0000 * absolute(y * g) <= 6 * ww) by (nonlinear_arith)
        requires
            0x100_0000 * absolute(y) <= 3 * w,
            0 <= g <= 2 * w,
            ww == w * w,
    {
        assert(absolute(y * g) == absolute(y) * g);
        assert((0x100_0000 * absolute(y)) * g <= (3 * w) * g && (3 * w) * g <= (3 * w) * (2 * w));
    }
}

proof fn lemma_clamped_near(x: int, c: int, l: int, g: int, w: int)
    requires
        w == one_unit(),
        w > 0,
        0x4_0000 * absolute(x * w - (l * w + (c - l) * g)) <= w * w,
    ensures
        is_spread(
            if x < 0 {
                0
            } else if x > w {
                w
            } else {
                x
            },
            c,
            l,
            g,
        ),
{
    let ww = w * w;
    assert(0 * w == 0 && ww >= 0) by (nonlinear_arith)
        requires
            ww == w * w,
    ;
    if x < 0 {
        assert(x * w < 0) by (nonlinear_arith)
            requires
                x < 0,
                w > 0,
        ;
    } else if x > w {
        assert(x * w >= ww) by (nonlinear_arith)
            requires
                x > w,
                w > 0,
                ww == w * w,
        ;
    } else {
        assert(0 <= x * w && x * w <= ww) by (nonlinear_arith)
            requires
                0 <= x <= w,
                ww == w * w,
        ;
    }
}

/// What the halo makes of a color: every channel goes away from the luma by one
/// plus 0.6 of the halo and of the step, within `0..=1`. The step is that of the
/// coverage from 0.45 down to 0.05, so it is whole at the edge and none inside.
pub proof fn law_color_is_haloed(rgb: [Single; 3], cov: Single, halo: Single, i: int) -> (r: (
    int,
    int,
    int,
    int,
))
    requires
        0 <= i < 3,
        is_color(rgb),
        cov.finite(),
        halo.finite(),
        0 < halo.units() <= one_unit(),
    ensures
        ({
            let (luma, gain, step, t) = r;
            let w = one_unit();
            &&& 0x1_0000 * absolute(
                1000 * luma - (299 * rgb[0].units() + 587 * rgb[1].units() + 114 * rgb[2].units()),
            ) <= 1000 * w
            &&& is_place(t, Single { bits: EDGE_INNER }, Single { bits: EDGE_OUTER }, cov)
            &&& is_cubic(step, t)
            &&& at_most(Single { bits: EDGE_INNER }, cov) ==> step == 0
            &&& at_most(cov, Single { bits: EDGE_OUTER }) ==> step == w
            &&& 0x4_0000 * absolute(5 * (gain * w) - (5 * (w * w) + 3 * (halo.units() * step)))
                <= w * w
            &&& is_spread(with_halo(rgb, cov, halo)[i].units(), rgb[i].units(), luma, gain)
        }),
{
    let zero = Single { bits: ZERO };
    let inner = Single { bits: EDGE_INNER };
    let outer = Single { bits: EDGE_OUTER };
    lemma_constants();
    lemma_edges();
    lemma_below_one(inner);
    lemma_below_one(outer);
    law_order_is_by_value(outer, inner);
    law_order_is_by_value(zero, halo);
    assert(rgb[0].finite() && rgb[1].finite() && rgb[2].finite());
    law_luma_is_weighted(rgb);
    lemma_luma(rgb);
    law_gain_is_by_coverage(cov, halo);
    lemma_halo_gain(cov, halo);
    law_smooth_step_ends(inner, outer, cov);
    let t = law_step_in_range(inner, outer, cov);
    let luma = luma_of(rgb);
    let gain = halo_gain(cov, halo);
    assert(rgb[i].finite());
    law_spread_is_by_gain(rgb[i], luma, gain);
    assert(with_halo(rgb, cov, halo)[i] == spread(rgb[i], luma, gain));
    (luma.units(), gain.units(), smooth_step(inner, outer, cov).units(), t)
}

} // verus!
