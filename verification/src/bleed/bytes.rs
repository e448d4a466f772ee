//! What single bytes keep to: premultiplying is undone, mixing lies between,
//! and the grain is faint.

use vstd::arithmetic::power2::{
    lemma2_to64, lemma_pow2_adds, lemma_pow2_pos, lemma_pow2_unfold, pow2,
};
use vstd::prelude::*;

use super::{blended, grain_factor, grained, premultiplied, straight, GRAIN_DEPTH};
use crate::color::laws::{
    law_byte_is_monotone, law_byte_is_nearest, lemma_byte_max, lemma_byte_near, lemma_byte_within,
    lemma_parts_add_up,
};
use crate::color::{byte_channel, byte_of, unit_channel, unit_interval};
use crate::single::arith::{absolute, difference, opposite, product, quotient, sum};
use crate::single::convert::{one_unit, whole};
use crate::single::laws::{
    law_confined_lies_within, law_integers_are_exact, law_one_is_neutral, law_product_is_monotone,
    law_rounding_is_exact, law_rounding_is_monotone, law_sum_is_monotone, law_zero_absorbs,
    law_zero_is_neutral, lemma_constants, lemma_difference_rank, lemma_product_rank,
    lemma_quotient_rank, lemma_rank_between, lemma_rank_error, lemma_rank_is_value,
    lemma_scaled_number, lemma_sum_rank,
};
use crate::single::nearest::{
    lemma_nearest_exact, lemma_nearest_ratio, lemma_units_of_digits, lemma_units_order,
};
use crate::single::order::{at_most, below, law_order_is_by_value};
use crate::single::{Single, BYTE_MAX, MINUS_ONE, ONE, TWO, ZERO};

verus! {

/// A premultiplied color is never above alpha.
pub proof fn law_premultiplied_is_at_most_alpha(x: Single, a: u8)
    ensures
        premultiplied(x, a) <= a,
{
    let zero = Single { bits: ZERO };
    let one = Single { bits: ONE };
    let top = Single { bits: BYTE_MAX };
    let w = one_unit();
    lemma_constants();
    law_order_is_by_value(zero, one);
    law_order_is_by_value(zero, top);
    law_confined_lies_within(x, zero, one);
    let y = unit_interval(x);
    let part = unit_channel(a);
    lemma_unit_channel(a);
    if x.nan() {
        assert(premultiplied(x, a) == 0);
    } else {
        law_order_is_by_value(y, one);
        law_order_is_by_value(zero, part);
        law_product_is_monotone(y, one, part);
        law_one_is_neutral(part);
        let p = product(y, part);
        lemma_product_rank(y, part);
        assert(0 * w <= y.units() * part.units() && y.units() * part.units() <= part.units() * w)
            by (nonlinear_arith)
            requires
                0 <= y.units() <= w,
                0 <= part.units(),
        ;
        lemma_rank_between(p, y.units() * part.units(), w, zero, part);
        law_product_is_monotone(p, part, top);
        law_byte_is_monotone(product(p, top), product(part, top));
    }
}

/// A byte as a part of 255, and back.
proof fn lemma_unit_channel(a: u8)
    ensures
        unit_channel(a).finite(),
        0 <= unit_channel(a).units() <= one_unit(),
        0x100_0000 * absolute(255 * unit_channel(a).units() - a * one_unit()) <= 255 * one_unit(),
        byte_of(product(unit_channel(a), Single { bits: BYTE_MAX })) == a,
{
    let zero = Single { bits: ZERO };
    let one = Single { bits: ONE };
    let top = Single { bits: BYTE_MAX };
    let w = one_unit();
    lemma_constants();
    law_integers_are_exact(a as nat);
    let b = whole(a as nat);
    let part = unit_channel(a);
    lemma_quotient_rank(b, top);
    let den = (255 * w) as nat;
    let num = (a * w) * w;
    assert(0 * den <= num && num <= w * den) by (nonlinear_arith)
        requires
            num == (a * w) * w,
            den == 255 * w,
            0 <= a <= 255,
    {
        assert(a * w <= 255 * w);
        assert((a * w) * w <= (255 * w) * w);
    }
    lemma_rank_between(part, num, den, zero, one);
    lemma_rank_error(part, num, den);
    let u = part.units();
    let off = absolute(u * 255 - a * w);
    assert(absolute(u * den - num) == off * w) by (nonlinear_arith)
        requires
            den == 255 * w,
            num == (a * w) * w,
            off == absolute(u * 255 - a * w),
            w > 0,
    {
        let z = u * 255 - a * w;
        assert(u * den - num == z * w);
        if z < 0 {
            assert(z * w < 0);
            assert((-z) * w == -(z * w));
        } else {
            assert(z * w >= 0);
        }
    }
    assert(0x100_0000 * off <= 255 * w) by (nonlinear_arith)
        requires
            0x100_0000 * (off * w) <= num || 0x100_0000 * (off * w) <= 0x80_0000 * den,
            num <= w * den,
            den == 255 * w,
            w >= 0x100_0000_0000,
    {
        assert((0x100_0000 * off) * w == 0x100_0000 * (off * w));
        assert(w * den == (255 * w) * w);
        assert(0x80_0000 * den <= w * den);
        assert((0x100_0000 * off) * w <= (255 * w) * w);
    }
    let p = product(part, top);
    lemma_product_rank(part, top);
    let n2 = u * (255 * w);
    assert(n2 == (255 * u) * w && 0 * w <= n2 && n2 <= (255 * w) * w) by (nonlinear_arith)
        requires
            n2 == u * (255 * w),
            0 <= u <= w,
    ;
    lemma_rank_between(p, n2, w, zero, top);
    lemma_rank_error(p, n2, w);
    let off2 = absolute(p.units() - 255 * u);
    assert(absolute(p.units() * w - n2) == off2 * w) by (nonlinear_arith)
        requires
            n2 == (255 * u) * w,
            off2 == absolute(p.units() - 255 * u),
            w > 0,
    {
        let z = p.units() - 255 * u;
        assert(p.units() * w - n2 == z * w);
        if z < 0 {
            assert(z * w < 0);
            assert((-z) * w == -(z * w));
        } else {
            assert(z * w >= 0);
        }
    }
    assert(0x100_0000 * off2 <= 255 * w) by (nonlinear_arith)
        requires
            0x100_0000 * (off2 * w) <= n2 || 0x100_0000 * (off2 * w) <= 0x80_0000 * w,
            n2 <= (255 * w) * w,
            w >= 0x100_0000_0000,
    {
        assert((0x100_0000 * off2) * w == 0x100_0000 * (off2 * w));
        assert(0x80_0000 * w <= (255 * w) * w);
        assert((0x100_0000 * off2) * w <= (255 * w) * w);
    }
    lemma_byte_near(p, a as nat);
}

/// A bound on an error that is scaled by `w`.
proof fn lemma_unscale(off: int, w: int, bound: int)
    requires
        w > 0,
        absolute(off * w) <= bound * w,
    ensures
        absolute(off) <= bound,
{
    assert(absolute(off) <= bound) by (nonlinear_arith)
        requires
            w > 0,
            -(bound * w) <= off * w <= bound * w,
    ;
}

/// A color at most alpha that is made straight and premultiplied again is the
/// same color.
pub proof fn law_straightening_is_undone(c: u8, a: u8)
    requires
        0 < a,
        c <= a,
    ensures
        premultiplied(straight(c, a), a) == c,
{
    let zero = Single { bits: ZERO };
    let one = Single { bits: ONE };
    let top = Single { bits: BYTE_MAX };
    let w = one_unit() as int;
    let big: int = 0x100_0000;
    lemma_constants();
    law_order_is_by_value(zero, one);
    lemma_unit_channel(c);
    lemma_unit_channel(a);
    let pc = unit_channel(c);
    let pa = unit_channel(a);
    let uc = pc.units();
    let ua = pa.units();
    assert(a * w >= w) by (nonlinear_arith)
        requires
            a >= 1,
            w > 0,
    ;
    assert(256 * ua >= w);
    // The straight color, before it is drawn into the unit range.
    let q = quotient(pc, pa);
    lemma_quotient_rank(pc, pa);
    lemma_unit_channels_ordered(c, a);
    law_integers_are_exact(2);
    assert(0 * ua <= uc * w && uc * w <= (2 * w) * ua) by (nonlinear_arith)
        requires
            0 <= uc <= ua,
            w > 0,
    ;
    lemma_rank_between(q, uc * w, ua as nat, zero, whole(2));
    lemma_rank_error(q, uc * w, ua as nat);
    let uq = q.units();
    let y = straight(c, a);
    law_confined_lies_within(q, zero, one);
    law_order_is_by_value(one, q);
    law_order_is_by_value(q, one);
    law_order_is_by_value(q, zero);
    let uy = y.units();
    assert(uy == if uq > w {
        w
    } else {
        uq
    });
    assert(uc * w <= w * w && 0x80_0000 * ua <= w * w) by (nonlinear_arith)
        requires
            0 <= uc <= w,
            0 <= ua <= w,
            w >= 0x80_0000,
    ;
    let e1 = uy * ua - uc * w;
    assert(-(w * w) <= big * e1 <= w * w) by {
        if uq > w {
            assert(w * ua < uq * ua) by (nonlinear_arith)
                requires
                    w < uq,
                    ua > 0,
            ;
            assert(w * ua >= uc * w) by (nonlinear_arith)
                requires
                    uc <= ua,
                    w > 0,
            ;
        }
    }
    // Premultiplied, as a part of one.
    assert(unit_interval(y) == y) by {
        law_order_is_by_value(zero, y);
        law_order_is_by_value(y, one);
    }
    let p = product(y, pa);
    lemma_product_rank(y, pa);
    assert(0 * w <= uy * ua && uy * ua <= w * w) by (nonlinear_arith)
        requires
            0 <= uy <= w,
            0 <= ua <= w,
    ;
    lemma_rank_between(p, uy * ua, w as nat, zero, one);
    lemma_rank_error(p, uy * ua, w as nat);
    let up = p.units();
    let e2 = up * w - uy * ua;
    assert(0x80_0000 * w <= w * w) by (nonlinear_arith)
        requires
            w >= 0x80_0000,
    ;
    assert(-(w * w) <= big * e2 <= w * w);
    // As a byte.
    let r = product(p, top);
    lemma_product_rank(p, top);
    let n3 = up * (255 * w);
    assert(n3 == (255 * up) * w && 0 * w <= n3 && n3 <= (255 * w) * w) by (nonlinear_arith)
        requires
            n3 == up * (255 * w),
            0 <= up <= w,
    ;
    lemma_rank_between(r, n3, w as nat, zero, top);
    lemma_rank_error(r, n3, w as nat);
    let ur = r.units();
    let e3 = ur * w - n3;
    assert(-(255 * (w * w)) <= big * e3 <= 255 * (w * w)) by {
        assert((255 * w) * w == 255 * (w * w)) by (nonlinear_arith);
    }
    // The errors together.
    let e0 = 255 * uc - c * w;
    assert(-(255 * (w * w)) <= big * (e0 * w) <= 255 * (w * w)) by (nonlinear_arith)
        requires
            -(255 * w) <= big * e0 <= 255 * w,
            w > 0,
    {
        assert((big * e0) * w == big * (e0 * w));
        assert((255 * w) * w == 255 * (w * w));
        assert((big * e0) * w <= (255 * w) * w);
        assert((big * e0) * w >= -((255 * w) * w));
    }
    let off = ur - c * w;
    assert(off * w == e3 + 255 * e2 + 255 * e1 + e0 * w) by (nonlinear_arith)
        requires
            off == ur - c * w,
            e3 == ur * w - n3,
            n3 == (255 * up) * w,
            e2 == up * w - uy * ua,
            e1 == uy * ua - uc * w,
            e0 == 255 * uc - c * w,
    ;
    assert(absolute((big * off) * w) <= (1024 * w) * w) by {
        assert((big * off) * w == big * (off * w)) by (nonlinear_arith);
        assert((1024 * w) * w == 1024 * (w * w)) by (nonlinear_arith);
    }
    lemma_unscale(big * off, w, 1024 * w);
    lemma_byte_near(r, c as nat);
}

/// A greater byte is a part of 255 that is no smaller.
proof fn lemma_unit_channels_ordered(c: u8, a: u8)
    requires
        c <= a,
    ensures
        unit_channel(c).units() <= unit_channel(a).units(),
{
    let top = Single { bits: BYTE_MAX };
    let w = one_unit();
    lemma_constants();
    lemma_unit_channel(c);
    lemma_unit_channel(a);
    law_integers_are_exact(c as nat);
    law_integers_are_exact(a as nat);
    lemma_quotient_rank(whole(c as nat), top);
    lemma_quotient_rank(whole(a as nat), top);
    let den = (255 * w) as nat;
    let n1 = (c * w) * w;
    let n2 = (a * w) * w;
    assert(n1 * den <= n2 * den) by (nonlinear_arith)
        requires
            n1 == (c * w) * w,
            n2 == (a * w) * w,
            c <= a,
    {
        assert(c * w <= a * w);
        assert((c * w) * w <= (a * w) * w);
    }
    law_rounding_is_monotone(n1, den, n2, den);
    law_order_is_by_value(unit_channel(c), unit_channel(a));
}

/// Mixing is monotone in both bytes; a mixture of a byte with itself is that
/// byte, so a mixture lies between the two. At zero it is the first byte, at
/// one the second.
pub proof fn law_blending(o: u8, b: u8, o2: u8, b2: u8, t: Single)
    requires
        at_most(Single { bits: ZERO }, t),
        at_most(t, Single { bits: ONE }),
        o <= o2,
        b <= b2,
    ensures
        blended(o, b, t) <= blended(o2, b2, t),
        blended(o, o, t) == o,
        o <= b ==> o <= blended(o, b, t) <= b,
        b <= o ==> b <= blended(o, b, t) <= o,
        at_most(t, Single { bits: ZERO }) ==> blended(o, b, t) == o,
        at_most(Single { bits: ONE }, t) ==> blended(o, b, t) == b,
{
    lemma_blend_same(o, t);
    lemma_blend_same(b, t);
    lemma_blend_monotone(o, b, o2, b2, t);
    if o <= b {
        lemma_blend_monotone(o, o, o, b, t);
        lemma_blend_monotone(o, b, b, b, t);
    } else {
        lemma_blend_monotone(b, b, o, b, t);
        lemma_blend_monotone(o, b, o, o, t);
    }
    lemma_blend_ends(o, b, t);
}

pub(crate) proof fn lemma_blend_same(v: u8, t: Single)
    requires
        at_most(Single { bits: ZERO }, t),
        at_most(t, Single { bits: ONE }),
    ensures
        blended(v, v, t) == v,
{
    lemma_parts_add_up(v, t);
    let s = sum(
        product(whole(v as nat), difference(Single { bits: ONE }, t)),
        product(whole(v as nat), t),
    );
    lemma_byte_near(s, v as nat);
    lemma_byte_within(s);
}

pub(crate) proof fn lemma_blend_monotone(o: u8, b: u8, o2: u8, b2: u8, t: Single)
    requires
        at_most(Single { bits: ZERO }, t),
        at_most(t, Single { bits: ONE }),
        o <= o2,
        b <= b2,
    ensures
        blended(o, b, t) <= blended(o2, b2, t),
{
    let w = one_unit();
    let rest = difference(Single { bits: ONE }, t);
    lemma_constants();
    lemma_parts_add_up(o, t);
    lemma_parts_add_up(b, t);
    lemma_parts_add_up(o2, t);
    lemma_parts_add_up(b2, t);
    law_integers_are_exact(o as nat);
    law_integers_are_exact(b as nat);
    law_integers_are_exact(o2 as nat);
    law_integers_are_exact(b2 as nat);
    assert(o * w <= o2 * w && b * w <= b2 * w) by (nonlinear_arith)
        requires
            o <= o2,
            b <= b2,
    ;
    law_order_is_by_value(whole(o as nat), whole(o2 as nat));
    law_order_is_by_value(whole(b as nat), whole(b2 as nat));
    law_product_is_monotone(whole(o as nat), whole(o2 as nat), rest);
    law_product_is_monotone(whole(b as nat), whole(b2 as nat), t);
    let x = product(whole(o as nat), rest);
    let x2 = product(whole(o2 as nat), rest);
    let y = product(whole(b as nat), t);
    let y2 = product(whole(b2 as nat), t);
    law_sum_is_monotone(x, x2, y);
    law_sum_is_monotone(y, y2, x2);
    law_byte_is_monotone(sum(x, y), sum(x2, y2));
    lemma_byte_within(sum(x, y));
    lemma_byte_within(sum(x2, y2));
}

pub(crate) proof fn lemma_blend_ends(o: u8, b: u8, t: Single)
    requires
        at_most(Single { bits: ZERO }, t),
        at_most(t, Single { bits: ONE }),
    ensures
        at_most(t, Single { bits: ZERO }) ==> blended(o, b, t) == o,
        at_most(Single { bits: ONE }, t) ==> blended(o, b, t) == b,
{
    let zero = Single { bits: ZERO };
    let one = Single { bits: ONE };
    let rest = difference(one, t);
    lemma_constants();
    lemma_parts_add_up(o, t);
    lemma_parts_add_up(b, t);
    law_integers_are_exact(o as nat);
    law_integers_are_exact(b as nat);
    let x = product(whole(o as nat), rest);
    let y = product(whole(b as nat), t);
    lemma_byte_within(sum(x, y));
    if at_most(t, zero) {
        lemma_rank_is_value(t, zero);
        let same = product(whole(o as nat), t);
        law_zero_absorbs(whole(o as nat), t);
        law_zero_absorbs(whole(b as nat), t);
        law_zero_is_neutral(x, y);
        law_zero_is_neutral(x, same);
        lemma_rank_is_value(sum(x, y), x);
        lemma_rank_is_value(sum(x, same), x);
        lemma_byte_near(sum(x, y), o as nat);
    }
    if at_most(one, t) {
        lemma_rank_is_value(t, one);
        lemma_difference_rank(one, t);
        lemma_rank_between(rest, 0, 1, zero, zero);
        assert(rest.zero()) by {
            lemma_units_order(rest.magnitude(), 0);
        }
        let same = product(whole(b as nat), rest);
        law_zero_absorbs(whole(o as nat), rest);
        law_zero_absorbs(whole(b as nat), rest);
        law_zero_is_neutral(y, x);
        law_zero_is_neutral(y, same);
        lemma_rank_is_value(sum(x, y), y);
        lemma_rank_is_value(sum(same, y), y);
        lemma_byte_near(sum(x, y), b as nat);
    }
}

/// Where the intensity is not a number, every byte of a mixture is zero.
pub(crate) proof fn lemma_blend_of_nan(o: u8, b: u8, t: Single)
    requires
        t.nan(),
    ensures
        blended(o, b, t) == 0,
{
    let s = sum(
        product(whole(o as nat), difference(Single { bits: ONE }, t)),
        product(whole(b as nat), t),
    );
    assert(s.nan());
}

/// An intensity of at most 2^-10 leaves every byte of a mixture as it is.
pub(crate) proof fn lemma_blend_barely(o: u8, b: u8, t: Single)
    requires
        t.finite(),
        0 <= t.units(),
        1024 * t.units() <= one_unit(),
    ensures
        blended(o, b, t) == o,
{
    let zero = Single { bits: ZERO };
    let one = Single { bits: ONE };
    let w = one_unit();
    let q = pow2(147);
    lemma_constants();
    lemma_pow2_unfold(149);
    lemma_pow2_unfold(148);
    law_integers_are_exact(o as nat);
    law_integers_are_exact(b as nat);
    let x = whole(o as nat);
    let y = whole(b as nat);
    assert(o * w <= 255 * w && 4 * (o * w) == (16 * o) * q && o * w >= 0 && b * w >= 0)
        by (nonlinear_arith)
        requires
            w == 4 * q,
            o <= 255,
    ;
    // What is kept of the first byte is off by less than a quarter.
    let rest = difference(one, t);
    lemma_difference_rank(one, t);
    let near = lemma_scaled_number(1023, 139);
    lemma_pow2_adds(139, 10);
    lemma2_to64();
    lemma_rank_between(rest, w - t.units(), 1, near, one);
    let p = product(x, rest);
    lemma_product_rank(x, rest);
    let low: nat = if o == 0 { 0 } else { (4 * o - 1) as nat };
    let down = lemma_scaled_number(low, 147);
    assert(down.units() == low * q);
    assert((low * q) * w <= (o * w) * rest.units() && (o * w) * rest.units() <= (o * w) * w)
        by (nonlinear_arith)
        requires
            o <= 255,
            low == 0 || low == 4 * o - 1,
            w == 4 * q,
            1024 * rest.units() >= 1023 * w,
            rest.units() <= w,
    {
        assert((o * w) * (1024 * rest.units()) >= (o * w) * (1023 * w));
        assert((o * w) * (1024 * rest.units()) == 1024 * ((o * w) * rest.units()));
        assert((o * w) * (1023 * w) == (1023 * o) * (w * w));
        if low != 0 {
            assert(4 * ((low * q) * w) == (4 * o - 1) * (w * w));
            assert(1024 * (4 * o - 1) <= 4 * (1023 * o));
            assert((1024 * (4 * o - 1)) * (w * w) <= (4 * (1023 * o)) * (w * w));
        }
    }
    lemma_rank_between(p, (o * w) * rest.units(), w, down, x);
    // The other byte adds less than a quarter.
    let part = product(y, t);
    lemma_product_rank(y, t);
    let quarter = lemma_scaled_number(1, 147);
    assert(quarter.units() == 1 * q);
    assert(0 * w <= (b * w) * t.units() && (b * w) * t.units() <= q * w) by (nonlinear_arith)
        requires
            b <= 255,
            0 <= t.units(),
            1024 * t.units() <= w,
            w == 4 * q,
    {
        assert((b * w) * (1024 * t.units()) <= (b * w) * w);
        assert((b * w) * w <= (255 * w) * w);
        assert((b * w) * (1024 * t.units()) == 1024 * ((b * w) * t.units()));
        assert(4 * (q * w) == w * w);
        assert((255 * w) * w == 255 * (w * w));
    }
    lemma_rank_between(part, (b * w) * t.units(), w, zero, quarter);
    let s = sum(p, part);
    lemma_sum_rank(p, part);
    let up = lemma_scaled_number((4 * o + 1) as nat, 147);
    assert((4 * o + 1) * q == o * w + q) by (nonlinear_arith)
        requires
            w == 4 * q,
    ;
    assert(low * q <= o * w && o * w <= low * q + q) by (nonlinear_arith)
        requires
            low == 0 && o == 0 || low == 4 * o - 1,
            w == 4 * q,
    ;
    lemma_rank_between(s, p.units() + part.units(), 1, down, up);
    lemma_byte_near(s, o as nat);
    lemma_byte_within(s);
}

/// A grain without depth comes from an intensity that leaves every byte as it
/// is.
pub(crate) proof fn lemma_no_depth(t: Single)
    requires
        t.finite(),
        0 <= t.units() <= one_unit(),
        !below(Single { bits: ZERO }, product(Single { bits: GRAIN_DEPTH }, t)),
    ensures
        1024 * t.units() <= one_unit(),
{
    let zero = Single { bits: ZERO };
    let one = Single { bits: ONE };
    let depth = Single { bits: GRAIN_DEPTH };
    let w = one_unit();
    let g = pow2(135);
    lemma_constants();
    lemma_grain_depth_units();
    lemma_pow2_pos(135);
    lemma2_to64();
    lemma_pow2_adds(135, 14);
    if 1024 * t.units() > w {
        let x = product(depth, t);
        let least = lemma_scaled_number(1, 135);
        lemma_product_rank(depth, t);
        let d = depth.units();
        assert((1 * g) * w <= d * t.units() && d * t.units() <= w * w) by (nonlinear_arith)
            requires
                w == g * 0x4000,
                w <= 16 * d,
                d <= w,
                0 <= t.units() <= w,
                w < 1024 * t.units(),
        {
            assert(w * w <= (16 * d) * (1024 * t.units()));
            assert((16 * d) * (1024 * t.units()) == 0x4000 * (d * t.units()));
            assert(w * w == 0x4000 * (g * w));
        }
        lemma_rank_between(x, d * t.units(), w, least, one);
        law_order_is_by_value(zero, x);
    }
}

/// The value of the greatest depth of the grain: a little over a tenth.
pub(crate) proof fn lemma_grain_depth_units()
    ensures
        1000 * (Single { bits: GRAIN_DEPTH }).units() <= 101 * one_unit(),
        16 * (Single { bits: GRAIN_DEPTH }).units() >= one_unit(),
{
    lemma2_to64();
    lemma_pow2_pos(122);
    lemma_pow2_adds(122, 27);
    lemma_units_of_digits(122, 0xCC_CCCD);
}

/// A grain in `-1..=1` scales by one less the depth at least, and by one plus
/// the depth at most.
pub proof fn law_grain_is_faint(grain: Single, depth: Single)
    requires
        depth.finite(),
        at_most(Single { bits: ZERO }, depth),
        at_most(Single { bits: MINUS_ONE }, grain),
        at_most(grain, Single { bits: ONE }),
    ensures
        at_most(difference(Single { bits: ONE }, depth), grain_factor(grain, depth)),
        at_most(grain_factor(grain, depth), sum(Single { bits: ONE }, depth)),
{
    let one = Single { bits: ONE };
    let minus = Single { bits: MINUS_ONE };
    let zero = Single { bits: ZERO };
    let w = one_unit();
    lemma_constants();
    law_order_is_by_value(zero, depth);
    law_order_is_by_value(minus, grain);
    law_order_is_by_value(grain, one);
    let p = product(grain, depth);
    let d = depth.units();
    let down = opposite(depth);
    lemma_product_rank(grain, depth);
    assert(-d * w <= grain.units() * d && grain.units() * d <= d * w) by (nonlinear_arith)
        requires
            -w <= grain.units() <= w,
            0 <= d,
    ;
    lemma_rank_between(p, grain.units() * d, w, down, depth);
    law_sum_is_monotone(down, p, one);
    law_sum_is_monotone(p, depth, one);
}

/// A color under a faint grain changes by at most a tenth, and by rounding.
pub(crate) proof fn lemma_grain_is_near(c: u8, a: u8, grain: Single, depth: Single)
    requires
        c <= a,
        depth.finite(),
        0 <= depth.units(),
        1000 * depth.units() <= 101 * one_unit(),
        at_most(Single { bits: MINUS_ONE }, grain),
        at_most(grain, Single { bits: ONE }),
    ensures
        c - 26 <= grained(c, a, grain_factor(grain, depth)) <= c + 26,
{
    let one = Single { bits: ONE };
    let minus = Single { bits: MINUS_ONE };
    let zero = Single { bits: ZERO };
    let w = one_unit();
    lemma_constants();
    law_integers_are_exact(c as nat);
    law_integers_are_exact(1024);
    law_order_is_by_value(minus, grain);
    law_order_is_by_value(grain, one);
    let d = depth.units();
    let p = product(grain, depth);
    lemma_product_rank(grain, depth);
    assert(-d * w <= grain.units() * d && grain.units() * d <= d * w) by (nonlinear_arith)
        requires
            -w <= grain.units() <= w,
            0 <= d,
    ;
    lemma_rank_between(p, grain.units() * d, w, opposite(depth), depth);
    let f = grain_factor(grain, depth);
    lemma_sum_rank(one, p);
    lemma_rank_between(f, w + p.units(), 1, zero, Single { bits: TWO });
    lemma_rank_error(f, w + p.units(), 1);
    let u = f.units();
    let b = whole(c as nat);
    let x = product(b, f);
    lemma_product_rank(b, f);
    let num = b.units() * u;
    let part = c * u;
    assert(num == part * w && 0 <= part && part <= 510 * w) by (nonlinear_arith)
        requires
            num == b.units() * u,
            part == c * u,
            b.units() == c * w,
            0 <= u <= 2 * w,
            0 <= c <= 255,
    ;
    assert(0 * w <= num && num <= (1024 * w) * w) by (nonlinear_arith)
        requires
            num == part * w,
            0 <= part <= 510 * w,
    ;
    lemma_rank_between(x, num, w, zero, whole(1024));
    lemma_rank_error(x, num, w);
    let off = absolute(x.units() - part);
    assert(absolute(x.units() * w - num) == off * w) by (nonlinear_arith)
        requires
            num == part * w,
            off == absolute(x.units() - part),
            w > 0,
    {
        let z = x.units() - part;
        assert(x.units() * w - num == z * w);
        if z < 0 {
            assert(z * w < 0);
            assert((-z) * w == -(z * w));
        } else {
            assert(z * w >= 0);
        }
    }
    assert(0x100_0000 * off <= 510 * w) by (nonlinear_arith)
        requires
            0x100_0000 * (off * w) <= num || 0x100_0000 * (off * w) <= 0x80_0000 * w,
            num == part * w,
            part <= 510 * w,
            w >= 0x100_0000_0000,
    {
        assert((0x100_0000 * off) * w == 0x100_0000 * (off * w));
        assert(num <= (510 * w) * w);
        assert(0x80_0000 * w <= (510 * w) * w);
        assert((0x100_0000 * off) * w <= (510 * w) * w);
    }
    let g = u - w;
    assert(-102 * w <= 1000 * g <= 102 * w);
    assert(part - c * w == c * g) by (nonlinear_arith)
        requires
            part == c * u,
            g == u - w,
    ;
    assert(-26010 * w <= 1000 * (c * g) <= 26010 * w) by (nonlinear_arith)
        requires
            -102 * w <= 1000 * g <= 102 * w,
            0 <= c <= 255,
            w > 0,
    {
        assert(1000 * (c * g) == c * (1000 * g));
        assert(c * (1000 * g) <= c * (102 * w));
        assert(c * (102 * w) <= 255 * (102 * w));
        assert(c * (1000 * g) >= c * (-102 * w));
        assert(c * (-102 * w) >= 255 * (-102 * w));
    }
    let v = x.units();
    assert(c * w == w * c) by (nonlinear_arith);
    assert(-w <= 1000 * (v - part) <= w);
    assert(1000 * (v - c * w) == 1000 * (v - part) + 1000 * (c * g));
    assert(2 * v < 2 * (c * w) + 53 * w);
    assert(2 * v > 2 * (c * w) - 53 * w);
    lemma_byte_within(x);
    lemma_byte_around(x, c as int, 26);
}

/// A number less than `k` and a half off an integer rounds to a byte within
/// `k` of it.
proof fn lemma_byte_around(x: Single, c: int, k: int)
    requires
        x.finite(),
        0 <= c <= 255,
        0 <= k,
        x.units() >= 0,
        2 * (c * one_unit()) - (2 * k + 1) * one_unit() < 2 * x.units() < 2 * (c * one_unit()) + (2
            * k + 1) * one_unit(),
    ensures
        c - k <= byte_of(x) <= c + k,
{
    let w = one_unit();
    let u = x.units();
    lemma_constants();
    law_byte_is_nearest(x);
    if x.negative() {
        assert(u == 0);
        assert(c <= k) by (nonlinear_arith)
            requires
                2 * (c * w) - (2 * k + 1) * w < 0,
                w > 0,
        {
            if c >= k + 1 {
                assert(2 * (c * w) >= 2 * ((k + 1) * w));
                assert(2 * ((k + 1) * w) == (2 * k + 2) * w);
            }
        }
    } else {
        let n = (2 * u + w) / (2 * w as int);
        vstd::arithmetic::div_mod::lemma_fundamental_div_mod(2 * u + w, 2 * w as int);
        let r = (2 * u + w) % (2 * w as int);
        assert(c - k <= n <= c + k) by (nonlinear_arith)
            requires
                2 * u + w == (2 * w) * n + r,
                0 <= r < 2 * w,
                2 * (c * w) - (2 * k + 1) * w < 2 * u,
                2 * u < 2 * (c * w) + (2 * k + 1) * w,
                w > 0,
        {
            assert((2 * w) * n == 2 * (n * w));
            assert((2 * k + 1) * w == 2 * (k * w) + w);
            assert((n - c - k) * w == n * w - c * w - k * w);
            assert((c - k - n) * w == c * w - k * w - n * w);
            if n >= c + k + 1 {
                assert((n - c - k) * w >= w);
            }
            if n <= c - k - 1 {
                assert((c - k - n) * w >= w);
            }
        }
    }
}

/// Full alpha as a part of 255 is one.
proof fn lemma_opaque_is_one()
    ensures
        unit_channel(255) == (Single { bits: ONE }),
{
    let one = Single { bits: ONE };
    let w = one_unit();
    lemma_constants();
    lemma_byte_max();
    let u = (Single { bits: BYTE_MAX }).absolute_units();
    assert((u * w) * 1 == w * u) by (nonlinear_arith);
    lemma_nearest_ratio(u * w, u, w, 1);
    law_rounding_is_exact(one, 1);
    assert(one.units() * 1 == w);
}

/// A pixel of full alpha is straight as it is: making it straight divides by
/// 255, and premultiplying multiplies by it and rounds.
pub proof fn law_opaque_is_straight(c: u8, x: Single)
    ensures
        straight(c, 255) == unit_channel(c),
        premultiplied(x, 255) == byte_channel(x),
{
    let zero = Single { bits: ZERO };
    let one = Single { bits: ONE };
    let w = one_unit();
    lemma_constants();
    lemma_opaque_is_one();
    lemma_unit_channel(c);
    law_integers_are_exact(c as nat);
    let p = unit_channel(c);
    assert(!p.negative());
    lemma_nearest_exact(p.magnitude(), w);
    assert(quotient(p, one) == p);
    law_order_is_by_value(zero, one);
    law_order_is_by_value(zero, p);
    law_order_is_by_value(p, one);
    law_confined_lies_within(p, zero, one);
    law_confined_lies_within(x, zero, one);
    let y = unit_interval(x);
    if !x.nan() {
        law_one_is_neutral(y);
    }
}

} // verus!
