//! What the bytes of a color keep to: rounding is monotone, mixing a byte with
//! itself gives it back, and white only brightens.

use vstd::arithmetic::div_mod::{lemma_fundamental_div_mod, lemma_fundamental_div_mod_converse};
use vstd::prelude::*;

use super::{
    byte_of, byte_rgb, byte_within, keeps_saturation, saturates, saturates_bytes, saturation_scaled,
    unit_interval, unit_rgb, whitened,
};
use crate::single::arith::{absolute, difference, product, sum};
use crate::single::convert::{one_unit, rounded, whole};
use crate::single::laws::{
    law_confined_lies_within, law_integers_are_exact, law_product_is_monotone, law_sum_is_monotone,
    law_zero_absorbs, law_zero_is_neutral, lemma_constants, lemma_difference_rank,
    lemma_product_rank, lemma_rank_between, lemma_rank_error, lemma_rank_is_value, lemma_sum_rank,
};
use crate::single::nearest::{lemma_nearest_monotone, lemma_units_order};
use crate::single::order::{at_most, below, law_order_is_by_value};
use crate::single::{Single, BYTE_MAX, ONE, ZERO};

verus! {

/// A finite number rounds to the nearest byte, a tie upwards.
pub proof fn law_byte_is_nearest(x: Single)
    requires
        x.finite(),
    ensures
        x.negative() ==> byte_of(x) == 0,
        !x.negative() ==> byte_of(x) == ({
            let n = (2 * x.units() + one_unit()) / (2 * one_unit() as int);
            if n < 255 {
                n
            } else {
                255
            }
        }),
{
    lemma_constants();
    let w = one_unit();
    let u = x.absolute_units();
    let n = ((2 * u + w) / (2 * w)) as nat;
    if !x.negative() {
        if n <= 255 {
            law_integers_are_exact(n);
            assert(whole(n) == rounded(x));
            lemma_fundamental_div_mod_converse((n * w) as int, w as int, n as int, 0);
        } else {
            law_integers_are_exact(256);
            assert(256 * w <= n * w) by (nonlinear_arith)
                requires
                    n >= 256,
            ;
            lemma_nearest_monotone(256 * w, 1, n * w, 1);
            let y = rounded(x);
            assert(y.magnitude() >= whole(256).magnitude());
            if !y.infinite() {
                lemma_units_order(whole(256).magnitude(), y.magnitude());
                let v = y.absolute_units();
                assert(v >= 256 * w);
                lemma_fundamental_div_mod(v as int, w as int);
                assert(v as int / w as int >= 256) by (nonlinear_arith)
                    requires
                        v == w * (v as int / w as int) + v as int % w as int,
                        v as int % (w as int) < w,
                        v >= 256 * w,
                        w > 0,
                ;
            }
        }
    }
}

/// Less than half off an integer, a number rounds to it.
pub proof fn lemma_byte_near(x: Single, v: nat)
    requires
        x.finite(),
        v <= 255,
        2 * absolute(x.units() - v * one_unit()) < one_unit(),
    ensures
        byte_of(x) == v,
{
    lemma_constants();
    law_byte_is_nearest(x);
    let w = one_unit();
    if x.negative() {
        assert(v == 0) by (nonlinear_arith)
            requires
                2 * (v * w) < w,
        ;
    } else {
        let u = x.units();
        assert(v * (2 * w) == 2 * (v * w)) by (nonlinear_arith);
        lemma_fundamental_div_mod_converse(
            2 * u + w,
            2 * w as int,
            v as int,
            2 * u + w - 2 * (v * w),
        );
    }
}

/// A larger number rounds to no smaller a byte.
pub proof fn law_byte_is_monotone(x: Single, y: Single)
    requires
        at_most(x, y),
    ensures
        byte_of(x) <= byte_of(y),
{
    lemma_constants();
    let w = one_unit();
    if x.finite() && y.finite() {
        law_byte_is_nearest(x);
        law_byte_is_nearest(y);
        law_order_is_by_value(x, y);
        if !x.negative() && !y.negative() {
            vstd::arithmetic::div_mod::lemma_div_is_ordered(
                2 * x.units() + w,
                2 * y.units() + w,
                2 * w as int,
            );
        }
        if !x.negative() && y.negative() {
            lemma_byte_near(x, 0);
        }
    }
}

/// Drawing a number into the range of a byte does not change which byte it
/// rounds to.
pub proof fn lemma_byte_within(x: Single)
    ensures
        byte_within(x) == byte_of(x),
{
    let zero = Single { bits: ZERO };
    let top = Single { bits: BYTE_MAX };
    lemma_constants();
    law_order_is_by_value(zero, top);
    lemma_byte_near(zero, 0);
    assert(255 * one_unit() - 255 * one_unit() == 0);
    lemma_byte_near(top, 255);
    if below(x, zero) {
        law_byte_is_monotone(x, zero);
    } else if below(top, x) {
        law_byte_is_monotone(top, x);
    }
}

/// A part of a byte and the rest of it add up to it, as near as rounding
/// allows.
pub proof fn lemma_parts_add_up(v: u8, t: Single)
    requires
        at_most(Single { bits: ZERO }, t),
        at_most(t, Single { bits: ONE }),
    ensures
        ({
            let rest = difference(Single { bits: ONE }, t);
            let x = product(whole(v as nat), rest);
            let y = product(whole(v as nat), t);
            &&& rest.finite()
            &&& at_most(Single { bits: ZERO }, rest)
            &&& at_most(rest, Single { bits: ONE })
            &&& x.finite() && 0 <= x.units() <= 255 * one_unit()
            &&& y.finite() && 0 <= y.units() <= 255 * one_unit()
            &&& sum(x, y).finite()
            &&& 2 * absolute(sum(x, y).units() - v * one_unit()) < one_unit()
        }),
{
    let zero = Single { bits: ZERO };
    let one = Single { bits: ONE };
    let w = one_unit();
    lemma_constants();
    law_order_is_by_value(zero, t);
    law_order_is_by_value(t, one);
    law_integers_are_exact(v as nat);
    let b = whole(v as nat);
    let rest = difference(one, t);
    lemma_difference_rank(one, t);
    lemma_rank_between(rest, w - t.units(), 1, zero, one);
    lemma_rank_error(rest, w - t.units(), 1);
    let x = product(b, rest);
    let y = product(b, t);
    lemma_share(b, v, rest);
    lemma_share(b, v, t);
    law_order_is_by_value(zero, rest);
    law_order_is_by_value(rest, one);
    let s = sum(x, y);
    lemma_sum_rank(x, y);
    law_integers_are_exact(1024);
    lemma_rank_between(s, x.units() + y.units(), 1, zero, whole(1024));
    lemma_rank_error(s, x.units() + y.units(), 1);
    assert(v * (rest.units() - (w - t.units())) == v * rest.units() - v * w + v * t.units())
        by (nonlinear_arith);
    let d = rest.units() - (w - t.units());
    assert(absolute(v * d) <= 255 * absolute(d)) by (nonlinear_arith)
        requires
            0 <= v <= 255,
    {
        if d >= 0 {
            assert(v * d >= 0);
            assert(v * d <= 255 * d);
        } else {
            assert(v * d <= 0);
            assert(v * d >= 255 * d);
        }
    }
}

/// A part of a byte, and how far rounding puts it off.
proof fn lemma_share(b: Single, v: u8, t: Single)
    requires
        b == whole(v as nat),
        t.finite(),
        0 <= t.units() <= one_unit(),
    ensures
        product(b, t).finite(),
        0 <= product(b, t).units() <= 255 * one_unit(),
        0x100_0000 * absolute(product(b, t).units() - v * t.units()) <= 255 * one_unit(),
{
    let w = one_unit();
    let zero = Single { bits: ZERO };
    let top = Single { bits: BYTE_MAX };
    lemma_constants();
    law_integers_are_exact(v as nat);
    let p = product(b, t);
    lemma_product_rank(b, t);
    let num = b.units() * t.units();
    let part = v * t.units();
    assert(num == part * w && 0 <= part <= 255 * w) by (nonlinear_arith)
        requires
            num == b.units() * t.units(),
            part == v * t.units(),
            b.units() == v * w,
            0 <= t.units() <= w,
            0 <= v <= 255,
    ;
    assert(0 * (w as int) <= num && num <= (255 * w) * w) by (nonlinear_arith)
        requires
            num == part * w,
            0 <= part <= 255 * w,
    ;
    lemma_rank_between(p, num, w, zero, top);
    lemma_rank_error(p, num, w);
    assert(p.units() * w - num == (p.units() - part) * w) by (nonlinear_arith)
        requires
            num == part * w,
    ;
    lemma_error_unscaled(p.units() - part, w, num, part);
}

/// A bound on an error that is scaled by the number of units in one.
proof fn lemma_error_unscaled(off: int, w: nat, num: int, part: int)
    requires
        w >= 0x100_0000_0000,
        num == part * w,
        0 <= part <= 255 * w,
        0x100_0000 * absolute(off * w) <= (if absolute(num) >= 0x80_0000 * w {
            absolute(num)
        } else {
            0x80_0000 * w
        }),
    ensures
        0x100_0000 * absolute(off) <= 255 * w,
{
    assert(absolute(off * w) == absolute(off) * w) by (nonlinear_arith)
        requires
            w >= 0,
    {
        if off < 0 {
            assert(off * w <= 0);
            assert((-off) * w == -(off * w));
        } else {
            assert(off * w >= 0);
        }
    }
    assert(num >= 0) by (nonlinear_arith)
        requires
            num == part * w,
            part >= 0,
    ;
    assert(num <= (255 * w) * w) by (nonlinear_arith)
        requires
            num == part * w,
            part <= 255 * w,
            w >= 0,
    ;
    let a = absolute(off);
    assert((0x100_0000 * a) * w <= (255 * w) * w) by (nonlinear_arith)
        requires
            0x100_0000 * (a * w) <= num || 0x100_0000 * (a * w) <= 0x80_0000 * w,
            num <= (255 * w) * w,
            w >= 0x100_0000_0000,
    {
        assert(0x80_0000 * w <= w * w);
    }
    assert(0x100_0000 * a <= 255 * w) by (nonlinear_arith)
        requires
            (0x100_0000 * a) * w <= (255 * w) * w,
            w > 0,
    ;
}

/// The greatest byte as a number.
pub proof fn lemma_byte_max()
    ensures
        whole(255) == (Single { bits: BYTE_MAX }),
{
    lemma_constants();
    law_integers_are_exact(255);
    lemma_units_order(whole(255).magnitude(), (Single { bits: BYTE_MAX }).magnitude());
}

/// Mixing with white never darkens: not at all at zero, to white at one.
pub proof fn law_white_brightens(c: u8, amount: Single)
    requires
        !amount.nan(),
    ensures
        c <= whitened(c, amount),
        at_most(amount, Single { bits: ZERO }) ==> whitened(c, amount) == c,
        at_most(Single { bits: ONE }, amount) ==> whitened(c, amount) == 255,
{
    let zero = Single { bits: ZERO };
    let one = Single { bits: ONE };
    let top = Single { bits: BYTE_MAX };
    let w = one_unit();
    lemma_constants();
    lemma_byte_max();
    law_integers_are_exact(c as nat);
    let a = unit_interval(amount);
    law_confined_lies_within(amount, zero, one);
    lemma_parts_add_up(c, a);
    lemma_parts_add_up(255, a);
    let rest = difference(one, a);
    let x = product(whole(c as nat), rest);
    let y = product(whole(c as nat), a);
    let z = product(top, a);
    lemma_byte_near(sum(x, y), c as nat);
    assert(c * w <= 255 * w) by (nonlinear_arith);
    law_order_is_by_value(whole(c as nat), top);
    law_product_is_monotone(whole(c as nat), top, a);
    law_sum_is_monotone(y, z, x);
    law_byte_is_monotone(sum(x, y), sum(x, z));
    if at_most(amount, zero) {
        law_order_is_by_value(a, zero);
        assert(a.zero()) by {
            lemma_units_order(a.magnitude(), 0);
        }
        law_zero_absorbs(top, a);
        law_zero_absorbs(whole(c as nat), a);
        law_zero_is_neutral(x, z);
        law_zero_is_neutral(x, y);
        lemma_rank_is_value(sum(x, z), x);
        lemma_rank_is_value(sum(x, y), x);
        lemma_byte_near(sum(x, z), c as nat);
    }
    if at_most(one, amount) {
        assert(a.rank() == one.rank());
        lemma_rank_is_value(a, one);
        lemma_difference_rank(one, a);
        lemma_rank_between(rest, 0, 1, zero, zero);
        assert(rest.zero()) by {
            lemma_units_order(rest.magnitude(), 0);
        }
        law_zero_absorbs(whole(c as nat), rest);
        law_zero_absorbs(top, rest);
        let p = product(top, rest);
        law_zero_is_neutral(z, x);
        law_zero_is_neutral(z, p);
        lemma_rank_is_value(sum(x, z), z);
        lemma_rank_is_value(sum(p, z), z);
        lemma_byte_near(sum(x, z), 255);
    }
}

/// The saturation of a color stays in `0..=1` when it is scaled.
pub proof fn law_saturation_stays_in_range(hsl: [Single; 3], factor: Single)
    requires
        !product(hsl[1], factor).nan(),
    ensures
        at_most(Single { bits: ZERO }, saturation_scaled(hsl, factor)[1]),
        at_most(saturation_scaled(hsl, factor)[1], Single { bits: ONE }),
{
    lemma_constants();
    law_confined_lies_within(
        product(hsl[1], factor),
        Single { bits: ZERO },
        Single { bits: ONE },
    );
}

/// A conversion gives one color one answer.
pub open spec fn converts_alike<F>(f: F) -> bool where F: Fn([Single; 3]) -> [Single; 3] {
    forall|x: [Single; 3], a: [Single; 3], b: [Single; 3]|
        #[trigger] call_ensures(f, (x,), a) && #[trigger] call_ensures(f, (x,), b) ==> a == b
}

/// With such conversions, saturating a color has one result.
pub proof fn law_saturation_is_determined<F, G>(
    to_hsl: F,
    to_srgb: G,
    srgb: [Single; 3],
    factor: Single,
    one: [Single; 3],
    two: [Single; 3],
) where F: Fn([Single; 3]) -> [Single; 3], G: Fn([Single; 3]) -> [Single; 3]
    requires
        converts_alike(to_hsl),
        converts_alike(to_srgb),
        saturates(to_hsl, to_srgb, srgb, factor, one),
        saturates(to_hsl, to_srgb, srgb, factor, two),
    ensures
        one == two,
{
    let a = choose|hsl: [Single; 3]|
        #[trigger] call_ensures(to_hsl, (srgb,), hsl) && call_ensures(
            to_srgb,
            (saturation_scaled(hsl, factor),),
            one,
        );
    let b = choose|hsl: [Single; 3]|
        #[trigger] call_ensures(to_hsl, (srgb,), hsl) && call_ensures(
            to_srgb,
            (saturation_scaled(hsl, factor),),
            two,
        );
    assert(a == b);
}

/// With such conversions, saturating a color of three bytes has one result.
pub proof fn law_boost_is_determined<F, G>(
    to_hsl: F,
    to_srgb: G,
    rgb: [u8; 3],
    factor: Single,
    one: [u8; 3],
    two: [u8; 3],
) where F: Fn([Single; 3]) -> [Single; 3], G: Fn([Single; 3]) -> [Single; 3]
    requires
        converts_alike(to_hsl),
        converts_alike(to_srgb),
        saturates_bytes(to_hsl, to_srgb, rgb, factor, one),
        saturates_bytes(to_hsl, to_srgb, rgb, factor, two),
    ensures
        one == two,
{
    if !keeps_saturation(factor) {
        let a = choose|srgb: [Single; 3]|
            #[trigger] saturates(to_hsl, to_srgb, unit_rgb(rgb), factor, srgb) && one == byte_rgb(
                srgb,
            );
        let b = choose|srgb: [Single; 3]|
            #[trigger] saturates(to_hsl, to_srgb, unit_rgb(rgb), factor, srgb) && two == byte_rgb(
                srgb,
            );
        law_saturation_is_determined(to_hsl, to_srgb, unit_rgb(rgb), factor, a, b);
    }
}

} // verus!
