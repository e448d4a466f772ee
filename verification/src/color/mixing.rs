//! What the operations on colors compute, by value: how a channel is mixed with
//! white, how bytes become parts of one and back, and what a saturated color is
//! made of.

use vstd::arithmetic::div_mod::lemma_fundamental_div_mod;
use vstd::arithmetic::power2::{
    lemma2_to64, lemma_pow2_adds, lemma_pow2_pos, lemma_pow2_unfold, pow2,
};
use vstd::prelude::*;

use super::laws::{law_byte_is_nearest, lemma_byte_max};
use super::{
    byte_channel, byte_of, keeps_saturation, saturates, saturates_bytes, saturation_scaled,
    unit_channel, unit_interval, unit_rgb, whitened,
};
use crate::single::arith::{absolute, difference, opposite, product, quotient, sum};
use crate::single::convert::{one_unit, whole};
use crate::single::laws::{
    law_integers_are_exact, law_operands_commute, law_rounding_is_exact, law_rounding_is_monotone,
    lemma_constants, lemma_difference_rank, lemma_part, lemma_product_rank, lemma_quotient_rank,
    lemma_rank_between, lemma_scaled_number, lemma_sum_rank,
};
use crate::single::near::{
    law_difference_is_near, law_product_is_near, law_quotient_is_near, law_sum_is_near,
    lemma_written,
};
use crate::single::order::law_order_is_by_value;
use crate::single::{signed, Single, BYTE_MAX, EPSILON, ONE, ZERO};
use crate::spiral::character::lemma_upper_half;

verus! {

/// The byte next to a number that is not above 255 by more than a quarter.
pub proof fn lemma_byte_is_near(x: Single)
    requires
        x.finite(),
        0 <= x.units(),
        4 * x.units() <= 1021 * one_unit(),
    ensures
        2 * absolute(byte_of(x) * one_unit() - x.units()) <= one_unit(),
{
    let w = one_unit();
    lemma_constants();
    law_byte_is_nearest(x);
    let u = x.units();
    let n = (2 * u + w) / (2 * w as int);
    lemma_fundamental_div_mod(2 * u + w, 2 * w as int);
    assert(2 * (n * w) == (2 * w) * n) by (nonlinear_arith);
    if n > 255 {
        assert((2 * w) * n >= (2 * w) * 256) by (nonlinear_arith)
            requires
                n >= 256,
                w > 0,
        ;
    }
    if x.negative() {
        assert(u == 0);
    }
}

/// A byte times a part of one, off by 256 in 2^24 at most.
pub proof fn lemma_byte_share(v: nat, t: Single)
    requires
        v <= 255,
        t.finite(),
        0 <= t.units() <= one_unit(),
    ensures
        product(whole(v), t).finite(),
        0 <= product(whole(v), t).units() <= 255 * one_unit(),
        0x100_0000 * absolute(product(whole(v), t).units() - v * t.units()) <= 256 * one_unit(),
{
    let w = one_unit();
    let u = t.units();
    lemma_constants();
    law_integers_are_exact(v);
    let x = whole(v);
    let p = product(x, t);
    assert(v * w >= 0 && v * w <= 255 * w) by (nonlinear_arith)
        requires
            v <= 255,
    ;
    lemma_part(x, t);
    law_product_is_near(x, t);
    assert(0x100_0000 * absolute(p.units() - v * u) <= 256 * w) by (nonlinear_arith)
        requires
            0x100_0000 * absolute(p.units() * w - (v * w) * u) <= absolute((v * w) * u)
                + 0x80_0000 * w,
            0 <= u <= w,
            v <= 255,
            w >= 0x100_0000,
    {
        let off = p.units() - v * u;
        assert(p.units() * w - (v * w) * u == off * w);
        assert(0 <= v * u && v * u <= 255 * w);
        assert((v * w) * u == (v * u) * w);
        assert((v * u) * w <= (255 * w) * w);
        if off >= 0 {
            assert(off * w >= 0);
            assert((0x100_0000 * off) * w <= (255 * w + 0x80_0000) * w);
        } else {
            assert(off * w < 0);
            assert((0x100_0000 * (-off)) * w <= (255 * w + 0x80_0000) * w);
        }
    }
}

/// Two bytes mixed by a part of one are off by 2^-13 at most before the result
/// is made a byte.
pub proof fn lemma_mixed_bytes(o: nat, b: nat, t: Single)
    requires
        o <= 255,
        b <= 255,
        t.finite(),
        0 <= t.units() <= one_unit(),
    ensures
        ({
            let w = one_unit();
            let s = sum(
                product(whole(o), difference(Single { bits: ONE }, t)),
                product(whole(b), t),
            );
            &&& s.finite()
            &&& 0 <= s.units()
            &&& 4 * s.units() <= 1021 * w
            &&& 0x2000 * absolute(s.units() - (o * (w - t.units()) + b * t.units())) <= w
        }),
{
    let zero = Single { bits: ZERO };
    let one = Single { bits: ONE };
    let w = one_unit();
    let u = t.units();
    lemma_constants();
    let rest = difference(one, t);
    lemma_difference_rank(one, t);
    lemma_rank_between(rest, w - u, 1, zero, one);
    law_difference_is_near(one, t);
    lemma_byte_share(o, rest);
    lemma_byte_share(b, t);
    let p = product(whole(o), rest);
    let q = product(whole(b), t);
    let s = sum(p, q);
    law_integers_are_exact(510);
    lemma_sum_rank(p, q);
    lemma_rank_between(s, p.units() + q.units(), 1, zero, whole(510));
    law_sum_is_near(p, q);
    let r = rest.units();
    assert(0x100_0000 * absolute(o * r - o * (w - u)) <= 255 * w) by (nonlinear_arith)
        requires
            0x100_0000 * absolute(r - (w - u)) <= w,
            o <= 255,
            w > 0,
    {
        let d = r - (w - u);
        assert(o * r - o * (w - u) == o * d);
        if d >= 0 {
            assert(0x100_0000 * (o * d) == o * (0x100_0000 * d));
            assert(o * (0x100_0000 * d) <= o * w && o * w <= 255 * w && o * d >= 0);
        } else {
            assert(0x100_0000 * (o * (-d)) == o * (0x100_0000 * (-d)));
            assert(o * (0x100_0000 * (-d)) <= o * w && o * w <= 255 * w && o * d <= 0);
            assert(o * (-d) == -(o * d));
        }
    }
    assert(o * (w - u) + b * u <= 255 * w && o * (w - u) >= 0 && b * u >= 0) by (nonlinear_arith)
        requires
            o <= 255,
            b <= 255,
            0 <= u <= w,
    {
        assert(o * (w - u) <= 255 * (w - u));
        assert(b * u <= 255 * u);
    }
}

/// `m` is the byte next to the mixture of `o` and `b` in which `b` has the part
/// `t`, given in units: off by no more than one half and 2^-13.
pub open spec fn is_mixture(m: u8, o: int, b: int, t: int) -> bool {
    let w = one_unit();
    0x2000 * absolute(m * w - (o * (w - t) + b * t)) <= 0x1001 * w
}

/// A channel mixed with white is what the weights say: `c` by what is left of
/// the amount, 255 by the amount. An amount outside `0..=1` counts as the nearer
/// end.
pub proof fn law_white_is_mixed_in(c: u8, amount: Single, t: int)
    requires
        amount.finite(),
        t == if amount.units() < 0 {
            0
        } else if amount.units() > one_unit() {
            one_unit() as int
        } else {
            amount.units()
        },
    ensures
        is_mixture(whitened(c, amount), c as int, 255, t),
{
    let zero = Single { bits: ZERO };
    let one = Single { bits: ONE };
    lemma_constants();
    law_order_is_by_value(amount, zero);
    law_order_is_by_value(one, amount);
    let a = unit_interval(amount);
    assert(a.finite() && a.units() == t);
    lemma_mixed_bytes(c as nat, 255, a);
    lemma_byte_max();
    let s = sum(product(whole(c as nat), difference(one, a)), product(whole(255), a));
    lemma_byte_is_near(s);
}

/// A byte as a part of one: it is divided by 255.
pub proof fn law_unit_channel_is_a_255th(c: u8)
    ensures
        unit_channel(c).finite(),
        0 <= unit_channel(c).units() <= one_unit(),
        0x80_0000 * absolute(255 * unit_channel(c).units() - c * one_unit()) <= c * one_unit(),
{
    let zero = Single { bits: ZERO };
    let one = Single { bits: ONE };
    let w = one_unit();
    lemma_constants();
    law_integers_are_exact(c as nat);
    let top = Single { bits: BYTE_MAX };
    let x = whole(c as nat);
    let q = quotient(x, top);
    let den = (255 * w) as nat;
    lemma_quotient_rank(x, top);
    assert(0 * den <= (c * w) * w && (c * w) * w <= w * den) by (nonlinear_arith)
        requires
            den == 255 * w,
            c <= 255,
    ;
    lemma_rank_between(q, (c * w) * w, den, zero, one);
    law_quotient_is_near(x, top);
    if c == 0 {
        assert((0 * w) * w == 0 && 0 * den == 0);
        lemma_rank_between(q, 0, den, zero, zero);
    } else {
        assert(0x80_0000 * absolute(255 * q.units() - c * w) <= c * w) by (nonlinear_arith)
            requires
                0x100_0000 * absolute(q.units() * (255 * w) - (c * w) * w) <= absolute(
                    (c * w) * w,
                ) + 0x80_0000 * (255 * w),
                1 <= c <= 255,
                w >= 0x100_0000_0000,
        {
            let off = 255 * q.units() - c * w;
            assert(q.units() * (255 * w) - (c * w) * w == off * w);
            assert(0 <= (c * w) * w);
            assert(c * w >= w);
            if off >= 0 {
                assert(off * w >= 0);
                assert((0x100_0000 * off) * w <= (c * w + 0x80_0000 * 255) * w);
            } else {
                assert(off * w < 0);
                assert((0x100_0000 * (-off)) * w <= (c * w + 0x80_0000 * 255) * w);
            }
        }
    }
}

/// A part of one as a byte: it is multiplied by 255 and rounded, and what lies
/// outside `0..=1` counts as the nearer end.
pub proof fn law_byte_channel_is_255_times(x: Single)
    requires
        x.finite(),
    ensures
        x.units() <= 0 ==> byte_channel(x) == 0,
        x.units() >= one_unit() ==> byte_channel(x) == 255,
        0 <= x.units() <= one_unit() ==> 0x2000 * absolute(
            byte_channel(x) * one_unit() - 255 * x.units(),
        ) <= 0x1001 * one_unit(),
{
    let zero = Single { bits: ZERO };
    let one = Single { bits: ONE };
    let w = one_unit();
    lemma_constants();
    law_order_is_by_value(x, zero);
    law_order_is_by_value(one, x);
    let a = unit_interval(x);
    lemma_byte_share(255, a);
    lemma_byte_max();
    let p = product(whole(255), a);
    law_operands_commute(whole(255), a);
    lemma_byte_is_near(p);
    let m = byte_channel(x);
    if x.units() <= 0 {
        assert(m == 0) by (nonlinear_arith)
            requires
                2 * absolute(m * w - p.units()) <= w,
                0x100_0000 * absolute(p.units() - 255 * 0) <= 256 * w,
                w > 0,
        {
            if m >= 1 {
                assert(m * w >= w);
            }
        }
    }
    if x.units() >= w {
        assert(m == 255) by (nonlinear_arith)
            requires
                2 * absolute(m * w - p.units()) <= w,
                0x100_0000 * absolute(p.units() - 255 * w) <= 256 * w,
                m <= 255,
                w > 0,
        {
            if m <= 254 {
                assert(m * w <= 254 * w);
            }
        }
    }
}

/// `x` is the byte `c` as a part of 255.
pub open spec fn is_255th(x: Single, c: u8) -> bool {
    &&& x.finite()
    &&& 0 <= x.units() <= one_unit()
    &&& 0x80_0000 * absolute(255 * x.units() - c * one_unit()) <= c * one_unit()
}

/// `m` is the byte of `x`, a part of one: 255 times it, rounded, and what lies
/// outside `0..=1` counts as the nearer end.
pub open spec fn is_byte_of_part(m: u8, x: Single) -> bool {
    x.finite() ==> {
        &&& x.units() <= 0 ==> m == 0
        &&& x.units() >= one_unit() ==> m == 255
        &&& 0 <= x.units() <= one_unit() ==> 0x2000 * absolute(m * one_unit() - 255 * x.units())
            <= 0x1001 * one_unit()
    }
}

/// `to` is the HSL color `from` with its saturation multiplied by `factor`, at
/// least to zero and at most to one, off by 2^-23 at most.
pub open spec fn is_saturated(from: [Single; 3], factor: Single, to: [Single; 3]) -> bool {
    let w = one_unit();
    let exact = from[1].units() * factor.units();
    &&& to[0] == from[0]
    &&& to[2] == from[2]
    &&& from[1].finite() && factor.finite() ==> {
        &&& to[1].finite()
        &&& exact <= 0 ==> to[1].units() == 0
        &&& exact >= w * w ==> to[1].units() == w
        &&& 0 <= exact <= w * w ==> 0x80_0000 * absolute(to[1].units() * w - exact) <= w * w
    }
}

/// Scaling a saturation keeps hue and lightness, and multiplies the saturation.
pub proof fn law_saturation_is_multiplied(hsl: [Single; 3], factor: Single)
    ensures
        is_saturated(hsl, factor, saturation_scaled(hsl, factor)),
{
    let zero = Single { bits: ZERO };
    let one = Single { bits: ONE };
    let w = one_unit();
    let x = hsl[1];
    lemma_constants();
    if x.finite() && factor.finite() {
        let exact = x.units() * factor.units();
        let p = product(x, factor);
        lemma_product_rank(x, factor);
        law_rounding_is_exact(zero, w);
        law_rounding_is_exact(one, w);
        assert(0 * w == 0);
        assert(w * w >= 0) by (nonlinear_arith);
        if exact <= 0 {
            assert(exact * w <= 0 * w) by (nonlinear_arith)
                requires
                    exact <= 0,
            ;
            law_rounding_is_monotone(exact, w, 0, w);
        } else if exact >= w * w {
            assert((w * w) * w <= exact * w) by (nonlinear_arith)
                requires
                    exact >= w * w,
            ;
            law_rounding_is_monotone((w * w) as int, w, exact, w);
        } else {
            lemma_rank_between(p, exact, w, zero, one);
            law_product_is_near(x, factor);
            assert(0x100_0000 * w <= w * w) by (nonlinear_arith)
                requires
                    w >= 0x100_0000,
            ;
        }
        law_order_is_by_value(saturation_scaled(hsl, factor)[1], zero);
        law_order_is_by_value(saturation_scaled(hsl, factor)[1], one);
    }
}

/// A factor leaves a color as it is where it lies within 2^-23 of one, and
/// nowhere else.
pub proof fn law_only_one_is_neutral(factor: Single)
    requires
        factor.finite(),
    ensures
        keeps_saturation(factor) <==> 0x80_0000 * absolute(factor.units() - one_unit())
            < one_unit(),
{
    let one = Single { bits: ONE };
    let w = one_unit();
    let f = factor.units();
    let eps = Single { bits: EPSILON };
    lemma_constants();
    lemma2_to64();
    lemma_pow2_adds(23, 23);
    lemma_pow2_adds(103, 23);
    lemma_written(eps, 103, 0x80_0000, 0x4000_0000_0000);
    let e = eps.units();
    assert(w == 0x80_0000 * e);
    let d = difference(factor, one);
    lemma_difference_rank(factor, one);
    law_rounding_is_exact(eps, 1);
    let minus = opposite(eps);
    law_rounding_is_exact(minus, 1);
    assert(e * 1 == e && minus.units() * 1 == -e);
    if f - w >= e {
        law_rounding_is_monotone(e, 1, f - w, 1);
    } else if f - w <= -e {
        law_rounding_is_monotone(f - w, 1, -e, 1);
    } else {
        // A number so near to one is a multiple of 2^-24, so the difference is exact.
        let half = lemma_scaled_number(1, 125);
        lemma_pow2_unfold(126);
        lemma_pow2_pos(125);
        let g = pow2(125);
        lemma_near_one(factor);
        let low = opposite(half);
        lemma_rank_between(d, f - w, 1, low, half);
        assert(absolute(d.units()) < e);
        law_order_is_by_value(signed(false, d.magnitude()), eps);
    }
}

/// A number that lies within 2^-23 of one lies within 2^-24 of it.
proof fn lemma_near_one(x: Single)
    requires
        x.finite(),
        0x80_0000 * absolute(x.units() - one_unit()) < one_unit(),
    ensures
        absolute(x.units() - one_unit()) <= pow2(125),
{
    let w = one_unit();
    let g = pow2(125);
    lemma_constants();
    lemma2_to64();
    lemma_pow2_adds(125, 24);
    lemma_pow2_pos(125);
    if x.units() <= w {
        let a = lemma_upper_half(x);
        assert(a >= 0xFF_FFFF) by (nonlinear_arith)
            requires
                0x80_0000 * (w - a * g) < w,
                w == g * 0x100_0000,
                g > 0,
        {
            if a <= 0xFF_FFFE {
                assert(a * g <= 0xFF_FFFE * g);
            }
        }
        assert(a * g >= 0xFF_FFFF * g) by (nonlinear_arith)
            requires
                a >= 0xFF_FFFF,
                g > 0,
        ;
    } else {
        // The next number after one is 2^-23 away.
        let one = Single { bits: ONE };
        let next = Single { bits: 0x3F80_0001 };
        lemma_written(next, 126, 0x80_0001, 0x80_0000);
        lemma_pow2_unfold(126);
        law_order_is_by_value(one, x);
        law_order_is_by_value(next, x);
    }
}

/// A saturated color is made in four steps, by value: the bytes as parts of 255,
/// what the one conversion answers to them, that with its saturation multiplied,
/// and what the other conversion answers to that, as bytes. A factor of one
/// keeps the color.
pub proof fn law_color_is_saturated<F, G>(
    to_hsl: F,
    to_srgb: G,
    rgb: [u8; 3],
    factor: Single,
    out: [u8; 3],
) where F: Fn([Single; 3]) -> [Single; 3], G: Fn([Single; 3]) -> [Single; 3]
    requires
        factor.finite(),
        saturates_bytes(to_hsl, to_srgb, rgb, factor, out),
    ensures
        0x80_0000 * absolute(factor.units() - one_unit()) < one_unit() ==> out == rgb,
        0x80_0000 * absolute(factor.units() - one_unit()) >= one_unit() ==> exists|
            from: [Single; 3],
            hsl: [Single; 3],
            to: [Single; 3],
            srgb: [Single; 3],
        |
            #[trigger] call_ensures(to_hsl, (from,), hsl) && #[trigger] call_ensures(
                to_srgb,
                (to,),
                srgb,
            ) && is_saturated(hsl, factor, to) && (forall|i: int|
                0 <= i < 3 ==> is_255th(#[trigger] from[i], rgb[i]) && is_byte_of_part(
                    out[i],
                    srgb[i],
                )),
{
    law_only_one_is_neutral(factor);
    if !keeps_saturation(factor) {
        let srgb = choose|srgb: [Single; 3]|
            #[trigger] saturates(to_hsl, to_srgb, unit_rgb(rgb), factor, srgb) && out
                == super::byte_rgb(srgb);
        let from = unit_rgb(rgb);
        let hsl = choose|hsl: [Single; 3]|
            #[trigger] call_ensures(to_hsl, (from,), hsl) && call_ensures(
                to_srgb,
                (saturation_scaled(hsl, factor),),
                srgb,
            );
        let to = saturation_scaled(hsl, factor);
        law_saturation_is_multiplied(hsl, factor);
        assert(call_ensures(to_hsl, (from,), hsl) && call_ensures(to_srgb, (to,), srgb));
        assert forall|i: int| 0 <= i < 3 implies is_255th(#[trigger] from[i], rgb[i])
            && is_byte_of_part(out[i], srgb[i]) by {
            law_unit_channel_is_a_255th(rgb[i]);
            if srgb[i].finite() {
                law_byte_channel_is_255_times(srgb[i]);
            }
        }
    }
}

} // verus!
