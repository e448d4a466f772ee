//! What the steps of the pass compute, by value: the mixture, the straight and
//! the premultiplied color, the grain, and the size of the box.

use vstd::arithmetic::div_mod::lemma_fundamental_div_mod_converse;
use vstd::arithmetic::power2::{lemma2_to64, lemma_pow2_adds, pow2};
use vstd::prelude::*;

use super::{
    bleed_factor, blended, box_radius, grain_depth, grain_factor, grained, premultiplied, straight,
    AquarelleBleedParams, BOX_RATIO, GRAIN_DEPTH, HALO_GAIN,
};
use crate::color::laws::{
    law_byte_is_monotone, law_byte_is_nearest, lemma_byte_max, lemma_byte_near, lemma_byte_within,
};
use crate::color::mixing::{
    is_mixture, law_unit_channel_is_a_255th, lemma_byte_is_near, lemma_byte_share,
    lemma_mixed_bytes,
};
use crate::color::{byte_of, unit_channel, unit_interval};
use crate::single::arith::{absolute, difference, opposite, product, quotient, sum};
use crate::single::convert::{one_unit, rounded, whole};
use crate::single::edges::{
    law_opposite_is_negated, lemma_product_within, lemma_sum_within, lemma_within_more,
};
use crate::single::laws::{
    law_integers_are_exact, law_operands_commute, law_rounding_is_exact, law_rounding_is_monotone,
    lemma_constants, lemma_part, lemma_product_rank, lemma_quotient_rank, lemma_rank_between,
    lemma_scaled_number, lemma_sum_rank,
};
use crate::single::near::{
    law_difference_is_near, law_product_is_near, law_quotient_is_near, law_rounded_is_next_integer,
    law_sum_is_near, lemma_one_plus, lemma_written,
};
use crate::single::nearest::lemma_units_order;
use crate::single::order::{at_most, below, greater, law_order_is_by_value};
use crate::single::rounding::lemma_nearest_of_zero;
use crate::single::{Single, BYTE_MAX, ONE, TWO, ZERO};

verus! {

/// `m` is the byte next to `o` and `b` mixed by `t`, cut off at both ends of the
/// bytes.
pub open spec fn is_cut_mixture(m: u8, o: int, b: int, t: int) -> bool {
    let w = one_unit();
    let exact = o * (w - t) + b * t;
    let aim = if exact < 0 {
        0
    } else if exact > 255 * w {
        255 * w as int
    } else {
        exact
    };
    0x100 * absolute(m * w - aim) <= 0x82 * w
}

/// Mixing by less than zero or by more than one goes on beyond both bytes.
pub proof fn law_mixture_goes_beyond(o: u8, b: u8, t: Single)
    requires
        t.finite(),
        absolute(t.units()) <= 64 * one_unit(),
    ensures
        is_cut_mixture(blended(o, b, t), o as int, b as int, t.units()),
{
    let one = Single { bits: ONE };
    let w = one_unit();
    let u = t.units();
    lemma_constants();
    lemma2_to64();
    lemma_pow2_adds(7, 149);
    lemma_pow2_adds(8, 149);
    law_opposite_is_negated(t);
    lemma_sum_within(one, opposite(t), 156);
    law_difference_is_near(one, t);
    let rest = difference(one, t);
    let x = whole(o as nat);
    let y = whole(b as nat);
    law_integers_are_exact(o as nat);
    law_integers_are_exact(b as nat);
    assert(o * w <= 0x100 * w && b * w <= 0x100 * w) by (nonlinear_arith)
        requires
            o <= 255,
            b <= 255,
    ;
    lemma_product_within(x, rest, 157, 157);
    lemma_product_within(y, t, 157, 156);
    law_product_is_near(x, rest);
    law_product_is_near(y, t);
    let p = product(x, rest);
    let q = product(y, t);
    lemma_within_more(q, 164, 165);
    lemma_sum_within(p, q, 165);
    law_sum_is_near(p, q);
    let s = sum(p, q);
    lemma_byte_share_is_near(o as int, rest.units(), p.units(), w as int);
    lemma_byte_share_is_near(b as int, u, q.units(), w as int);
    lemma_beyond_value(
        o as int,
        b as int,
        u,
        rest.units(),
        p.units(),
        q.units(),
        s.units(),
        w as int,
    );
    lemma_byte_within(s);
    law_byte_is_nearest(s);
    let v = s.units();
    if v <= 0 && !s.negative() {
        lemma_units_order(0, s.magnitude());
        let n = (2 * v + w) / (2 * w as int);
        assert(n == 0) by (nonlinear_arith)
            requires
                n == (2 * v + w) / (2 * w as int),
                v == 0,
                w > 0,
        ;
    }
    if v >= 0 && 4 * v <= 1021 * w {
        lemma_byte_is_near(s);
    }
    if 4 * v > 1021 * w {
        let n = (2 * v + w) / (2 * w as int);
        assert(n >= 255) by (nonlinear_arith)
            requires
                n == (2 * v + w) / (2 * w as int),
                4 * v > 1021 * w,
                w > 0,
        ;
    }
    lemma_cut(blended(o, b, t) as int, v, o * (w - u) + b * u, w as int);
}

/// The share of a byte.
proof fn lemma_byte_share_is_near(c: int, r: int, p: int, w: int)
    requires
        0 <= c <= 255,
        w >= 0x100_0000_0000,
        absolute(r) <= 66 * w,
        0x100_0000 * absolute(p * w - (c * w) * r) <= absolute((c * w) * r) + 0x80_0000 * w,
    ensures
        0x100_0000 * absolute(p - c * r) <= 16831 * w,
        absolute(c * r) <= 16830 * w,
{
    let e = p - c * r;
    let cr = c * r;
    assert((c * w) * r == cr * w && p * w - (c * w) * r == e * w) by (nonlinear_arith)
        requires
            e == p - cr,
            cr == c * r,
    ;
    assert(absolute(cr) <= 16830 * w) by (nonlinear_arith)
        requires
            cr == c * r,
            0 <= c <= 255,
            absolute(r) <= 66 * w,
    {
        assert(absolute(c * r) == c * absolute(r));
        assert(c * absolute(r) <= 255 * absolute(r));
    }
    assert(0x100_0000 * absolute(e) <= absolute(cr) + 0x80_0000) by (nonlinear_arith)
        requires
            0x100_0000 * absolute(e * w) <= absolute(cr * w) + 0x80_0000 * w,
            w > 0,
    {
        assert(absolute(e * w) == absolute(e) * w && absolute(cr * w) == absolute(cr) * w);
        assert((0x100_0000 * absolute(e)) * w <= (absolute(cr) + 0x80_0000) * w);
    }
}

proof fn lemma_beyond_value(o: int, b: int, u: int, r: int, p: int, q: int, s: int, w: int)
    requires
        0 <= o <= 255,
        0 <= b <= 255,
        w >= 0x100_0000_0000,
        absolute(u) <= 64 * w,
        0x100_0000 * absolute(r - (w - u)) <= absolute(w - u),
        0x100_0000 * absolute(p - o * r) <= 16831 * w,
        absolute(o * r) <= 16830 * w,
        0x100_0000 * absolute(q - b * u) <= 16831 * w,
        absolute(b * u) <= 16830 * w,
        0x100_0000 * absolute(s - (p + q)) <= absolute(p + q),
    ensures
        0x80 * absolute(s - (o * (w - u) + b * u)) <= w,
{
    let d = r - (w - u);
    assert(o * r - o * (w - u) == o * d) by (nonlinear_arith)
        requires
            d == r - (w - u),
    ;
    assert(0x100_0000 * absolute(o * d) <= 16575 * w) by (nonlinear_arith)
        requires
            0x100_0000 * absolute(d) <= 65 * w,
            0 <= o <= 255,
            w > 0,
    {
        assert(absolute(o * d) == o * absolute(d));
        assert(o * (0x100_0000 * absolute(d)) <= o * (65 * w) && o * (65 * w) <= 255 * (65 * w));
    }
}

proof fn lemma_cut(m: int, v: int, exact: int, w: int)
    requires
        w > 0,
        0 <= m <= 255,
        0x80 * absolute(v - exact) <= w,
        v <= 0 ==> m == 0,
        0 <= v && 4 * v <= 1021 * w ==> 2 * absolute(m * w - v) <= w,
        4 * v > 1021 * w ==> m == 255,
    ensures
        ({
            let aim = if exact < 0 {
                0
            } else if exact > 255 * w {
                255 * w
            } else {
                exact
            };
            0x100 * absolute(m * w - aim) <= 0x82 * w
        }),
{
    assert(0 <= m * w <= 255 * w) by (nonlinear_arith)
        requires
            0 <= m <= 255,
            w > 0,
    ;
    if v <= 0 {
        assert(0 * w == 0);
    }
}

/// A mixture is what the weights say: the byte of the picture by what is left of
/// the intensity, that of the layer by the intensity.
pub proof fn law_mixture_is_linear(o: u8, b: u8, t: Single)
    requires
        t.finite(),
        0 <= t.units() <= one_unit(),
    ensures
        is_mixture(blended(o, b, t), o as int, b as int, t.units()),
{
    lemma_mixed_bytes(o as nat, b as nat, t);
    let s = sum(
        product(whole(o as nat), difference(Single { bits: ONE }, t)),
        product(whole(b as nat), t),
    );
    lemma_byte_is_near(s);
    lemma_byte_within(s);
}

/// A premultiplied channel made straight is divided by its alpha, off by 2^-20
/// at most; what is not below alpha is one.
pub proof fn law_straight_is_over_alpha(c: u8, a: u8)
    requires
        a > 0,
    ensures
        straight(c, a).finite(),
        0 <= straight(c, a).units() <= one_unit(),
        c >= a ==> straight(c, a).units() == one_unit(),
        c <= a ==> 0x10_0000 * absolute(straight(c, a).units() * a - c * one_unit()) <= a
            * one_unit(),
{
    let zero = Single { bits: ZERO };
    let one = Single { bits: ONE };
    let w = one_unit();
    lemma_constants();
    law_unit_channel_is_a_255th(c);
    law_unit_channel_is_a_255th(a);
    let x = unit_channel(c);
    let y = unit_channel(a);
    let v = y.units();
    let u = x.units();
    assert(a * w >= w) by (nonlinear_arith)
        requires
            a >= 1,
    ;
    let q = quotient(x, y);
    lemma_quotient_rank(x, y);
    law_rounding_is_exact(one, v as nat);
    law_rounding_is_exact(zero, v as nat);
    assert(0 * v == 0);
    assert(u * w >= 0) by (nonlinear_arith)
        requires
            u >= 0,
            w >= 0,
    ;
    if c <= a {
        lemma_unit_channels_are_ordered(c, a);
        assert(u * w <= w * v) by (nonlinear_arith)
            requires
                u <= v,
                w >= 0,
        ;
        lemma_rank_between(q, u * w, v as nat, zero, one);
        law_order_is_by_value(q, one);
        law_order_is_by_value(zero, q);
        law_quotient_is_near(x, y);
        lemma_ratio(c as int, a as int, u, v, q.units(), w as int);
    }
    if c >= a {
        lemma_unit_channels_are_ordered(a, c);
        assert((w * v) * v <= (u * w) * v) by (nonlinear_arith)
            requires
                0 <= v <= u,
                w >= 0,
        ;
        law_rounding_is_monotone(w * v, v as nat, u * w, v as nat);
        assert(q.rank() >= one.rank());
        assert(unit_interval(q).rank() == one.rank());
        law_order_is_by_value(unit_interval(q), one);
    }
}

proof fn lemma_unit_channels_are_ordered(c: u8, a: u8)
    requires
        c <= a,
    ensures
        unit_channel(c).units() <= unit_channel(a).units(),
{
    let w = one_unit();
    let top = Single { bits: BYTE_MAX };
    lemma_constants();
    law_integers_are_exact(c as nat);
    law_integers_are_exact(a as nat);
    law_unit_channel_is_a_255th(c);
    law_unit_channel_is_a_255th(a);
    lemma_quotient_rank(whole(c as nat), top);
    lemma_quotient_rank(whole(a as nat), top);
    let d = (255 * w) as nat;
    assert(((c * w) * w) * d <= ((a * w) * w) * d) by (nonlinear_arith)
        requires
            c <= a,
    {
        assert(c * w <= a * w);
        assert((c * w) * w <= (a * w) * w);
    }
    law_rounding_is_monotone(((c * w) * w) as int, d, ((a * w) * w) as int, d);
    law_order_is_by_value(unit_channel(c), unit_channel(a));
}

/// A rounded quotient of two rounded parts is near the quotient of the integers.
proof fn lemma_ratio(c: int, a: int, u: int, v: int, q: int, w: int)
    requires
        0 <= c <= a <= 255,
        1 <= a,
        w >= 0x100_0000_0000,
        0 <= u <= w,
        0 < v <= w,
        0 <= q <= w,
        0x80_0000 * absolute(255 * u - c * w) <= c * w,
        0x80_0000 * absolute(255 * v - a * w) <= a * w,
        0x100_0000 * absolute(q * v - u * w) <= absolute(u * w) + 0x80_0000 * v,
    ensures
        0x10_0000 * absolute(q * a - c * w) <= a * w,
{
    let x = 255 * u - c * w;
    let y = 255 * v - a * w;
    let z = q * v - u * w;
    let off = q * a - c * w;
    assert(off * w == 255 * z - q * y + x * w) by (nonlinear_arith)
        requires
            x == 255 * u - c * w,
            y == 255 * v - a * w,
            z == q * v - u * w,
            off == q * a - c * w,
    ;
    let aw = a * w;
    assert(c * w <= aw && aw >= w) by (nonlinear_arith)
        requires
            aw == a * w,
            c <= a,
            1 <= a,
            w > 0,
    ;
    assert(0x80_0000 * absolute(q * y) <= w * aw) by (nonlinear_arith)
        requires
            0x80_0000 * absolute(y) <= aw,
            0 <= q <= w,
            aw >= 0,
    {
        if y >= 0 {
            assert(q * y >= 0 && q * (0x80_0000 * y) <= q * aw && q * aw <= w * aw);
        } else {
            assert(q * y <= 0 && q * (0x80_0000 * (-y)) <= q * aw && q * aw <= w * aw);
        }
    }
    assert(0x80_0000 * absolute(x * w) <= w * aw) by (nonlinear_arith)
        requires
            0x80_0000 * absolute(x) <= aw,
            w > 0,
    {
        if x >= 0 {
            assert(x * w >= 0 && (0x80_0000 * x) * w <= aw * w);
        } else {
            assert(x * w <= 0 && (0x80_0000 * (-x)) * w <= aw * w);
        }
    }
    assert(255 * (u * w) <= 2 * (w * aw) && u * w >= 0) by (nonlinear_arith)
        requires
            255 * u <= 2 * aw,
            0 <= u,
            w > 0,
    ;
    assert(0x80_0000 * (255 * v) <= w * aw) by (nonlinear_arith)
        requires
            255 * v <= 2 * aw,
            w >= 0x100_0000_0000,
            aw > 0,
    {
        assert(0x80_0000 * (2 * aw) <= w * aw);
    }
    assert(0x10_0000 * absolute(off) <= aw) by (nonlinear_arith)
        requires
            0x10_0000 * absolute(off * w) <= w * aw,
            w > 0,
    {
        if off >= 0 {
            assert(off * w >= 0 && (0x10_0000 * off) * w <= aw * w);
        } else {
            assert(off * w < 0 && (0x10_0000 * (-off)) * w <= aw * w);
        }
    }
}

/// A straight channel premultiplied is multiplied by alpha and rounded; what
/// lies outside `0..=1` counts as the nearer end.
pub proof fn law_premultiplied_is_times_alpha(x: Single, a: u8)
    requires
        x.finite(),
    ensures
        x.units() <= 0 ==> premultiplied(x, a) == 0,
        x.units() >= one_unit() ==> premultiplied(x, a) == a,
        0 <= x.units() <= one_unit() ==> 0x2000 * absolute(
            premultiplied(x, a) * one_unit() - a * x.units(),
        ) <= 0x1001 * one_unit(),
{
    let zero = Single { bits: ZERO };
    let one = Single { bits: ONE };
    let w = one_unit();
    lemma_constants();
    law_order_is_by_value(x, zero);
    law_order_is_by_value(one, x);
    let s = unit_interval(x);
    let t = s.units();
    law_unit_channel_is_a_255th(a);
    let y = unit_channel(a);
    let v = y.units();
    lemma_part(s, y);
    law_product_is_near(s, y);
    let i = product(s, y);
    let top = Single { bits: BYTE_MAX };
    lemma_byte_share(255, i);
    lemma_byte_max();
    law_operands_commute(i, top);
    let p = product(i, top);
    lemma_byte_is_near(p);
    let m = premultiplied(x, a);
    lemma_premultiplied_value(a as int, t, v, i.units(), p.units(), w as int);
    if x.units() <= 0 {
        assert(m == 0) by (nonlinear_arith)
            requires
                2 * absolute(m * w - p.units()) <= w,
                0x2000 * absolute(p.units() - a * 0) <= w,
                w > 0,
        {
            if m >= 1 {
                assert(m * w >= w);
            }
        }
    }
    if x.units() >= w {
        assert(m == a) by (nonlinear_arith)
            requires
                2 * absolute(m * w - p.units()) <= w,
                0x2000 * absolute(p.units() - a * w) <= w,
                w > 0,
        {
            if m < a {
                assert(m * w <= a * w - w);
            }
            if m > a {
                assert(m * w >= a * w + w);
            }
        }
    }
}

proof fn lemma_premultiplied_value(a: int, t: int, v: int, i: int, p: int, w: int)
    requires
        0 <= a <= 255,
        0 <= t <= w,
        0 <= v <= w,
        w >= 0x100_0000_0000,
        0x80_0000 * absolute(255 * v - a * w) <= a * w,
        0x100_0000 * absolute(i * w - t * v) <= absolute(t * v) + 0x80_0000 * w,
        0x100_0000 * absolute(p - 255 * i) <= 256 * w,
    ensures
        0x2000 * absolute(p - a * t) <= w,
{
    let x = 255 * v - a * w;
    let y = i * w - t * v;
    let off = 255 * i - a * t;
    assert(off * w == 255 * y + t * x) by (nonlinear_arith)
        requires
            x == 255 * v - a * w,
            y == i * w - t * v,
            off == 255 * i - a * t,
    ;
    assert(t * v <= w * w && t * v >= 0 && 0x100_0000 * w <= w * w) by (nonlinear_arith)
        requires
            0 <= t <= w,
            0 <= v <= w,
            w >= 0x100_0000_0000,
    ;
    assert(a * w <= 255 * w) by (nonlinear_arith)
        requires
            a <= 255,
            w > 0,
    ;
    assert(0x80_0000 * absolute(t * x) <= 255 * (w * w)) by (nonlinear_arith)
        requires
            0x80_0000 * absolute(x) <= 255 * w,
            0 <= t <= w,
    {
        if x >= 0 {
            assert(t * x >= 0 && t * (0x80_0000 * x) <= t * (255 * w));
        } else {
            assert(t * x <= 0 && t * (0x80_0000 * (-x)) <= t * (255 * w));
        }
        assert(t * (255 * w) <= 255 * (w * w));
    }
    assert(0x4000 * absolute(off) <= w) by (nonlinear_arith)
        requires
            0x4000 * absolute(off * w) <= w * w,
            w > 0,
    {
        if off >= 0 {
            assert(off * w >= 0 && (0x4000 * off) * w <= w * w);
        } else {
            assert(off * w < 0 && (0x4000 * (-off)) * w <= w * w);
        }
    }
}

/// The grain is a tenth of the intensity deep.
pub proof fn law_depth_is_a_tenth(params: AquarelleBleedParams)
    requires
        params.confined().intensity.finite(),
        0 <= params.confined().intensity.units() <= one_unit(),
    ensures
        grain_depth(params).finite(),
        0 <= grain_depth(params).units(),
        8 * grain_depth(params).units() <= one_unit(),
        0x10_0000 * absolute(10 * grain_depth(params).units() - params.confined().intensity.units())
            <= params.confined().intensity.units() + 0x100_0000,
{
    let tenth = Single { bits: GRAIN_DEPTH };
    let h = params.confined().intensity;
    let w = one_unit();
    lemma_constants();
    lemma2_to64();
    lemma_written(tenth, 122, 0xCC_CCCD, 0x800_0000);
    let u = tenth.units();
    let t = h.units();
    lemma_part(tenth, h);
    law_product_is_near(tenth, h);
    let d = grain_depth(params).units();
    assert(0x10_0000 * absolute(10 * d - t) <= t + 0x100_0000) by (nonlinear_arith)
        requires
            0x100_0000 * absolute(d * w - u * t) <= absolute(u * t) + 0x80_0000 * w,
            0x200_0000 * absolute(10 * u - w) <= w,
            0 <= t <= w,
            0 <= u,
            w >= 0x100_0000_0000,
    {
        let x = d * w - u * t;
        let y = 10 * u - w;
        let off = 10 * d - t;
        assert(off * w == 10 * x + t * y);
        assert(0 <= u * t && 10 * (u * t) <= 2 * (w * t));
        assert(0x200_0000 * absolute(t * y) <= w * t) by {
            if y >= 0 {
                assert(t * y >= 0 && t * (0x200_0000 * y) <= t * w);
            } else {
                assert(t * y <= 0 && t * (0x200_0000 * (-y)) <= t * w);
            }
        }
        assert(0x100_0000 * absolute(off * w) <= 3 * (w * t) + 0x500_0000 * w);
        if off >= 0 {
            assert(off * w >= 0 && (0x100_0000 * off) * w <= (3 * t + 0x500_0000) * w);
        } else {
            assert(off * w < 0 && (0x100_0000 * (-off)) * w <= (3 * t + 0x500_0000) * w);
        }
    }
}

/// `m` is the color `c` of a pixel with alpha `a`, multiplied by one plus the
/// product of grain and depth, at most to alpha. Grain and depth are in units.
pub open spec fn is_grained(m: u8, c: u8, a: u8, grain: int, depth: int) -> bool {
    let w = one_unit();
    let exact = c * (w * w + grain * depth);
    &&& m <= a
    &&& m < a ==> 0x2000 * absolute(m * (w * w) - exact) <= 0x1001 * (w * w)
    &&& m == a ==> 0x2000 * (a * (w * w) - exact) <= 0x1001 * (w * w)
}

/// A grain multiplies a color by one plus what it has of the depth, at most to
/// alpha.
pub proof fn law_grain_multiplies(c: u8, a: u8, grain: Single, depth: Single)
    requires
        grain.finite(),
        absolute(grain.units()) <= one_unit(),
        depth.finite(),
        0 <= depth.units(),
        depth.units() <= one_unit(),
    ensures
        is_grained(
            grained(c, a, grain_factor(grain, depth)),
            c,
            a,
            grain.units(),
            depth.units(),
        ),
{
    let zero = Single { bits: ZERO };
    let one = Single { bits: ONE };
    let w = one_unit();
    let g = grain.units();
    let d = depth.units();
    lemma_constants();
    let p = product(grain, depth);
    lemma_product_rank(grain, depth);
    let down = opposite(depth);
    assert((-d) * w <= g * d && g * d <= d * w) by (nonlinear_arith)
        requires
            -w <= g <= w,
            0 <= d,
    ;
    lemma_rank_between(p, g * d, w, down, depth);
    law_product_is_near(grain, depth);
    let f = sum(one, p);
    lemma_sum_rank(one, p);
    lemma_rank_between(f, w + p.units(), 1, zero, Single { bits: TWO });
    law_sum_is_near(one, p);
    law_integers_are_exact(c as nat);
    law_integers_are_exact(1024);
    let x = whole(c as nat);
    let q = product(x, f);
    lemma_product_rank(x, f);
    let n = (c * w) * f.units();
    assert(0 * w <= n && n <= (1024 * w) * w) by (nonlinear_arith)
        requires
            n == (c * w) * f.units(),
            0 <= f.units() <= 2 * w,
            c <= 255,
    {
        assert(0 <= c * w && c * w <= 255 * w);
        assert((c * w) * f.units() <= (255 * w) * (2 * w));
        assert((255 * w) * (2 * w) <= (1024 * w) * w);
    }
    lemma_rank_between(q, n, w, zero, whole(1024));
    law_product_is_near(x, f);
    lemma_grained_value(c as int, g, d, p.units(), f.units(), q.units(), w as int);
    lemma_byte_within(q);
    law_byte_is_nearest(q);
    let v = byte_of(q);
    let k = q.units();
    let exact = c * (w * w + g * d);
    // Up to 255 the byte is next to the product; from 254.5 on it is 255.
    if 4 * k <= 1021 * w {
        lemma_byte_is_near(q);
    } else {
        let top = Single { bits: BYTE_MAX };
        law_order_is_by_value(top, q);
        law_byte_is_monotone(top, q);
        lemma_byte_near(top, 255);
    }
    let m = grained(c, a, f);
    let ww = w * w;
    assert(0x2000 * absolute(k * w - exact) <= ww);
    if m < a {
        assert(v == m);
        assert(0x2000 * absolute(m * ww - exact) <= 0x1001 * ww) by (nonlinear_arith)
            requires
                2 * absolute(m * w - k) <= w,
                0x2000 * absolute(k * w - exact) <= ww,
                ww == w * w,
                w > 0,
        {
            let e = m * w - k;
            assert(m * ww - k * w == e * w);
            if e >= 0 {
                assert(e * w >= 0 && (2 * e) * w <= w * w);
            } else {
                assert(e * w < 0 && (2 * (-e)) * w <= w * w);
            }
        }
    } else if 4 * k <= 1021 * w {
        assert(0x2000 * (a * ww - exact) <= 0x1001 * ww) by (nonlinear_arith)
            requires
                2 * absolute(v * w - k) <= w,
                0x2000 * absolute(k * w - exact) <= ww,
                a <= v,
                ww == w * w,
                w > 0,
        {
            let e = v * w - k;
            assert(v * ww - k * w == e * w);
            assert(a * ww <= v * ww);
            if e >= 0 {
                assert((2 * e) * w <= w * w);
            } else {
                assert(e * w < 0);
            }
        }
    } else {
        assert(0x2000 * (a * ww - exact) <= 0x1001 * ww) by (nonlinear_arith)
            requires
                4 * k > 1021 * w,
                0x2000 * absolute(k * w - exact) <= ww,
                a <= 255,
                ww == w * w,
                w > 0,
        {
            assert(a * ww <= 255 * ww);
            assert((4 * k) * w >= (1021 * w) * w);
        }
    }
}

proof fn lemma_grained_value(c: int, g: int, d: int, p: int, f: int, q: int, w: int)
    requires
        0 <= c <= 255,
        -w <= g <= w,
        0 <= d,
        d <= w,
        0 <= f <= 2 * w,
        -d <= p <= d,
        w >= 0x100_0000_0000,
        0x100_0000 * absolute(p * w - g * d) <= absolute(g * d) + 0x80_0000 * w,
        0x100_0000 * absolute(f - (w + p)) <= absolute(w + p),
        0x100_0000 * absolute(q * w - (c * w) * f) <= absolute((c * w) * f) + 0x80_0000 * w,
    ensures
        0x2000 * absolute(q * w - c * (w * w + g * d)) <= w * w,
{
    let x = p * w - g * d;
    let y = f - (w + p);
    let z = q * w - (c * w) * f;
    let off = q * w - c * (w * w + g * d);
    let ww = w * w;
    assert(off == z + c * (y * w) + c * x) by (nonlinear_arith)
        requires
            x == p * w - g * d,
            y == f - (w + p),
            z == q * w - (c * w) * f,
            off == q * w - c * (w * w + g * d),
    ;
    assert(absolute(g * d) <= ww && 0x80_0000 * w <= ww) by (nonlinear_arith)
        requires
            -w <= g <= w,
            0 <= d <= w,
            w >= 0x100_0000,
            ww == w * w,
    {
        assert(g * d <= w * d && (-w) * d <= g * d && w * d <= w * w);
    }
    assert(0x100_0000 * absolute(y * w) <= 2 * ww) by (nonlinear_arith)
        requires
            0x100_0000 * absolute(y) <= 2 * w,
            ww == w * w,
            w > 0,
    {
        if y >= 0 {
            assert(y * w >= 0 && (0x100_0000 * y) * w <= (2 * w) * w);
        } else {
            assert(y * w < 0 && (0x100_0000 * (-y)) * w <= (2 * w) * w);
        }
    }
    assert(absolute((c * w) * f) <= 510 * ww) by (nonlinear_arith)
        requires
            0 <= c <= 255,
            0 <= f <= 2 * w,
            ww == w * w,
            w > 0,
    {
        assert(0 <= c * w && c * w <= 255 * w);
        assert(0 <= (c * w) * f && (c * w) * f <= (255 * w) * (2 * w));
    }
    let yw = y * w;
    assert(0x100_0000 * absolute(c * yw) <= 510 * ww && 0x100_0000 * absolute(c * x) <= 510 * ww)
        by (nonlinear_arith)
        requires
            0x100_0000 * absolute(yw) <= 2 * ww,
            0x100_0000 * absolute(x) <= 2 * ww,
            0 <= c <= 255,
    {
        assert(absolute(c * yw) == c * absolute(yw) && absolute(c * x) == c * absolute(x));
        assert(c * (0x100_0000 * absolute(yw)) <= c * (2 * ww) && c * (2 * ww) <= 255 * (2 * ww));
        assert(c * (0x100_0000 * absolute(x)) <= c * (2 * ww));
    }
}

/// The saturation of the layer is multiplied by one plus three fifths of the
/// halo.
pub proof fn law_bleed_factor_is_three_fifths(params: AquarelleBleedParams)
    requires
        params.confined().halo.finite(),
        0 <= params.confined().halo.units() <= one_unit(),
    ensures
        bleed_factor(params).finite(),
        0x8_0000 * absolute(
            5 * bleed_factor(params).units() - (5 * one_unit() + 3
                * params.confined().halo.units()),
        ) <= one_unit(),
{
    let gain = Single { bits: HALO_GAIN };
    lemma2_to64();
    lemma_written(gain, 125, 0x99_999A, 0x100_0000);
    lemma_one_plus(gain, params.confined().halo, 3);
}

/// The box follows the radius: its own is 1.15 times that, rounded, and at least
/// one. That holds up to half of what an index can be; beyond it, the box is at
/// least a quarter of that.
pub proof fn law_box_is_115_percent(params: AquarelleBleedParams)
    requires
        params.radius.finite(),
        0 <= params.radius.units(),
    ensures
        box_radius(params) >= 1,
        46 * params.radius.units() <= 20 * (usize::MAX * one_unit()) ==> (box_radius(params) == 1
            && 23 * params.radius.units() <= 31 * one_unit()) || 0x8_0000 * absolute(
            20 * (box_radius(params) * one_unit()) - 23 * params.radius.units(),
        ) <= 0x8_0000 * (11 * one_unit()) + 23 * params.radius.units(),
        46 * params.radius.units() > 20 * (usize::MAX * one_unit()) ==> 4 * box_radius(params)
            >= usize::MAX,
{
    let zero = Single { bits: ZERO };
    let one = Single { bits: ONE };
    let w = one_unit();
    let x = params.confined().radius;
    let u = params.radius.units();
    let ratio = Single { bits: BOX_RATIO };
    lemma_constants();
    lemma2_to64();
    law_order_is_by_value(params.radius, zero);
    assert(x.units() == u && x.finite());
    lemma_written(ratio, 126, 0x93_3333, 0x80_0000);
    let k = ratio.units();
    let last = pow2(126);
    assert(k == 0x93_3333 * last && w == 0x80_0000 * last);
    assert(0x20_0000 * absolute(20 * k - 23 * w) <= w) by (nonlinear_arith)
        requires
            k == 0x93_3333 * last,
            w == 0x80_0000 * last,
    ;
    let p = product(x, ratio);
    lemma_product_rank(x, ratio);
    assert(u * k >= 0) by (nonlinear_arith)
        requires
            u >= 0,
            k >= 0,
    ;
    lemma_nearest_of_zero(w);
    law_rounding_is_exact(zero, w);
    assert(0 * w == 0);
    law_rounding_is_monotone(0, w, u * k, w);
    let top = usize::MAX as nat;
    assert(0xFFFF <= top <= 0xFFFF_FFFF_FFFF_FFFF);
    assert(top * w >= 0xFFFF * w && top * w <= 0xFFFF_FFFF_FFFF_FFFF * w) by (nonlinear_arith)
        requires
            0xFFFF <= top <= 0xFFFF_FFFF_FFFF_FFFF,
    ;
    if 46 * u <= 20 * (top * w) {
        lemma_pow2_adds(149, 64);
        let large = lemma_scaled_number(2, 213);
        assert(u * k <= large.units() * w) by (nonlinear_arith)
            requires
                46 * u <= 20 * (0xFFFF_FFFF_FFFF_FFFF * w),
                large.units() == 2 * (w * 0x1_0000_0000_0000_0000),
                0 <= k <= 2 * w,
                0 <= u,
        {
            assert(u <= 0x1_0000_0000_0000_0000 * w);
            assert(u * k <= (0x1_0000_0000_0000_0000 * w) * (2 * w));
            assert((0x1_0000_0000_0000_0000 * w) * (2 * w) == (2 * (w
                * 0x1_0000_0000_0000_0000)) * w);
        }
        lemma_rank_between(p, u * k, w, zero, large);
    }
    if p.finite() {
        law_product_is_near(x, ratio);
        law_order_is_by_value(zero, p);
        let n = law_rounded_is_next_integer(p);
        lemma_box_value(u, k, p.units(), n as int, w as int);
        let y = rounded(p);
        law_order_is_by_value(y, one);
        let z = greater(y, one);
        let m: nat = if n < 1 { 1 } else { n };
        assert(n >= 1 ==> n * w >= w) by (nonlinear_arith);
        assert(n < 1 ==> n * w == 0) by (nonlinear_arith);
        assert(z.finite() && z.units() == m * w);
        assert(1 * w == w);
        lemma_units_order(0, z.magnitude());
        assert(m * w >= w) by (nonlinear_arith)
            requires
                m >= 1,
        ;
        assert(!z.negative());
        lemma_fundamental_div_mod_converse((m * w) as int, w as int, m as int, 0);
        assert(box_radius(params) == if m > top {
            top
        } else {
            m
        });
        if 46 * u <= 20 * (top * w) {
            assert(m <= top) by (nonlinear_arith)
                requires
                    m == 1 || 0x8_0000 * (20 * (m * w)) <= 0x8_0000 * (11 * w) + 0x8_0001 * (23
                        * u),
                    46 * u <= 20 * (top * w),
                    top >= 0xFFFF,
                    w > 0,
            {
                if m > top {
                    assert(m * w >= top * w + w);
                    assert(top * w >= 0xFFFF * w);
                }
            }
        } else {
            assert(4 * m >= top) by (nonlinear_arith)
                requires
                    m == 1 && n == 0 || m == n,
                    0x8_0000 * (20 * (n * w)) + 0x8_0000 * (11 * w) >= 0x7_FFFF * (23 * u),
                    46 * u > 20 * (top * w),
                    top >= 0xFFFF,
                    w > 0,
            {
                if 4 * m < top {
                    assert((4 * m) * w <= top * w);
                    assert(4 * (n * w) <= top * w);
                    assert(top * w >= 0xFFFF * w);
                }
            }
        }
    } else {
        assert(p.infinite() && !p.negative());
    }
}

proof fn lemma_box_value(u: int, k: int, p: int, n: int, w: int)
    requires
        0 <= u,
        0 <= k <= 2 * w,
        w >= 0x100_0000_0000,
        0x20_0000 * absolute(20 * k - 23 * w) <= w,
        0x100_0000 * absolute(p * w - u * k) <= absolute(u * k) + 0x80_0000 * w,
        2 * absolute(n * w - p) <= w,
    ensures
        0x8_0000 * absolute(20 * (n * w) - 23 * u) <= 0x8_0000 * (11 * w) + 23 * u,
{
    let x = p * w - u * k;
    let y = 20 * k - 23 * w;
    let off = 20 * p - 23 * u;
    assert(off * w == 20 * x + u * y) by (nonlinear_arith)
        requires
            x == p * w - u * k,
            y == 20 * k - 23 * w,
            off == 20 * p - 23 * u,
    ;
    let uw = u * w;
    assert(0 <= u * k && u * k <= 2 * uw) by (nonlinear_arith)
        requires
            0 <= u,
            0 <= k <= 2 * w,
            uw == u * w,
    ;
    assert(0x20_0000 * absolute(u * y) <= uw) by (nonlinear_arith)
        requires
            0x20_0000 * absolute(y) <= w,
            0 <= u,
            uw == u * w,
    {
        if y >= 0 {
            assert(u * y >= 0 && u * (0x20_0000 * y) <= u * w);
        } else {
            assert(u * y <= 0 && u * (0x20_0000 * (-y)) <= u * w);
        }
    }
    assert(0x8_0000 * absolute(off) <= 2 * u + 0x8_0000 * 10) by (nonlinear_arith)
        requires
            0x8_0000 * absolute(off * w) <= 2 * uw + 0x8_0000 * (10 * w),
            uw == u * w,
            w > 0,
    {
        if off >= 0 {
            assert(off * w >= 0 && (0x8_0000 * off) * w <= (2 * u + 0x8_0000 * 10) * w);
        } else {
            assert(off * w < 0 && (0x8_0000 * (-off)) * w <= (2 * u + 0x8_0000 * 10) * w);
        }
    }
}

/// The pass acts where both the radius and the intensity are above zero, and
/// nowhere else.
pub proof fn law_pass_acts_above_zero(params: AquarelleBleedParams)
    ensures
        !params.idle() <==> below(Single { bits: ZERO }, params.radius) && (below(
            Single { bits: ZERO },
            params.intensity,
        ) || params.intensity.nan()),
{
    lemma_constants();
}

/// Parameters are drawn into their ranges and not otherwise changed.
pub proof fn law_fields_are_drawn_in(params: AquarelleBleedParams)
    ensures
        ({
            let q = params.confined();
            let zero = Single { bits: ZERO };
            let one = Single { bits: ONE };
            &&& below(zero, params.radius) ==> q.radius == params.radius
            &&& !below(zero, params.radius) ==> q.radius.zero()
            &&& below(zero, params.intensity) && below(params.intensity, one) ==> q.intensity
                == params.intensity
            &&& at_most(params.intensity, zero) ==> q.intensity.zero()
            &&& at_most(one, params.intensity) ==> q.intensity == one
            &&& params.intensity.nan() ==> q.intensity.nan()
            &&& below(zero, params.halo) && below(params.halo, one) ==> q.halo == params.halo
            &&& at_most(params.halo, zero) ==> q.halo.zero()
            &&& at_most(one, params.halo) ==> q.halo == one
            &&& params.halo.nan() ==> q.halo.nan()
        }),
{
    lemma_constants();
}

} // verus!
