//! How large the layers of an orb are and how their colors are saturated, by
//! value, and the orb as a whole: what is drawn, where each layer then lies and
//! in which order they are painted.

use vstd::arithmetic::div_mod::lemma_fundamental_div_mod_converse;
use vstd::arithmetic::power2::lemma2_to64;
use vstd::prelude::*;

use super::places::{is_placed, lemma_placed, lemma_placed_is_finite};
use super::{
    core_radius, falloff_factor, gradient_center, has_core, satellite_count, satellite_factor,
    satellite_radius, AquarelleParams, CORE_REACH, FALLOFF_GAIN, OFFSET_REACH, SATELLITE_GAIN,
};
use crate::color::unit_interval;
use crate::single::arith::{absolute, product, sum};
use crate::single::convert::{one_unit, rounded};
use crate::single::edges::is_moderate;
use crate::single::laws::{lemma_constants, lemma_part, lemma_rank_between, lemma_sum_rank};
use crate::single::near::{
    is_times, law_product_is_near, law_rounded_is_next_integer, law_sum_is_near, lemma_one_plus,
    lemma_times_constant, lemma_written,
};
use crate::single::order::law_order_is_by_value;
use crate::single::{Single, HALF, ONE, THREE, ZERO};

verus! {

/// The parameters are drawn into `0..=1`, and stay as they are inside it.
pub proof fn law_parameters_are_drawn_in(params: AquarelleParams)
    ensures
        is_drawn_in(params.confined().bleed, params.bleed),
        is_drawn_in(params.confined().bloom, params.bloom),
        is_drawn_in(params.confined().offset, params.offset),
        is_drawn_in(params.confined().halo, params.halo),
{
    lemma_drawn_in(params.bleed);
    lemma_drawn_in(params.bloom);
    lemma_drawn_in(params.offset);
    lemma_drawn_in(params.halo);
}

/// `r` is `x` drawn into `0..=1`.
pub open spec fn is_drawn_in(r: Single, x: Single) -> bool {
    let w = one_unit();
    &&& x.nan() ==> r == x
    &&& x.finite() ==> r.finite() && r.units() == if x.units() < 0 {
        0
    } else if x.units() > w {
        w as int
    } else {
        x.units()
    }
    &&& x.infinite() ==> r.bits == if x.negative() {
        ZERO
    } else {
        ONE
    }
}

proof fn lemma_drawn_in(x: Single)
    ensures
        is_drawn_in(unit_interval(x), x),
{
    let zero = Single { bits: ZERO };
    let one = Single { bits: ONE };
    lemma_constants();
    if x.finite() {
        law_order_is_by_value(x, zero);
        law_order_is_by_value(one, x);
    }
}

/// The number of satellites is the integer next to three times the bleed.
pub proof fn law_count_is_three_times_bleed(params: AquarelleParams)
    requires
        params.bleed.finite(),
        0 <= params.bleed.units() <= one_unit(),
    ensures
        0x10_0000 * absolute(
            2 * (satellite_count(params) * one_unit()) - 6 * params.bleed.units(),
        ) <= 0x10_0002 * one_unit(),
{
    let w = one_unit();
    let three = Single { bits: THREE };
    let t = params.confined().bleed;
    lemma_constants();
    law_parameters_are_drawn_in(params);
    lemma_part(three, t);
    law_product_is_near(three, t);
    let x = product(three, t);
    let n = law_rounded_is_next_integer(x);
    let u = t.units();
    let v = x.units();
    assert(0x10_0000 * absolute(v - 3 * u) <= w) by (nonlinear_arith)
        requires
            0x100_0000 * absolute(v * w - (3 * w) * u) <= absolute((3 * w) * u) + 0x80_0000 * w,
            0 <= u <= w,
            w >= 0x100_0000_0000,
    {
        let e = v - 3 * u;
        assert(v * w - (3 * w) * u == e * w);
        assert(absolute(e * w) == absolute(e) * w);
        assert(0 <= (3 * w) * u && (3 * w) * u <= 3 * (w * w));
        assert(0x80_0000 * w <= w * w);
        assert((0x100_0000 * absolute(e)) * w <= (4 * w) * w);
    }
    let r = rounded(x);
    assert(satellite_count(params) == n) by {
        assert(n * w <= 4 * w);
        assert(n <= 4) by (nonlinear_arith)
            requires
                n * w <= 4 * w,
                w > 0,
        ;
        assert(n * w >= 0) by (nonlinear_arith);
        if r.negative() {
            assert(r.units() <= 0);
            assert(n == 0) by (nonlinear_arith)
                requires
                    n * w <= 0,
                    w > 0,
            ;
        } else {
            lemma_fundamental_div_mod_converse((n * w) as int, w as int, n as int, 0);
        }
    }
}

/// The factors of saturation are one plus 0.6 of the halo in the falloff, and
/// one plus 0.4 of it in the satellites.
pub proof fn law_factors_are_by_halo(params: AquarelleParams)
    requires
        params.halo.finite(),
        0 <= params.halo.units() <= one_unit(),
    ensures
        falloff_factor(params).finite(),
        0x8_0000 * absolute(
            5 * falloff_factor(params).units() - (5 * one_unit() + 3 * params.halo.units()),
        ) <= one_unit(),
        satellite_factor(params).finite(),
        0x8_0000 * absolute(
            5 * satellite_factor(params).units() - (5 * one_unit() + 2 * params.halo.units()),
        ) <= one_unit(),
{
    let falloff = Single { bits: FALLOFF_GAIN };
    let around = Single { bits: SATELLITE_GAIN };
    lemma_constants();
    lemma2_to64();
    law_parameters_are_drawn_in(params);
    lemma_written(falloff, 125, 0x99_999A, 0x100_0000);
    lemma_written(around, 124, 0xCC_CCCD, 0x200_0000);
    lemma_one_plus(falloff, params.confined().halo, 3);
    lemma_one_plus(around, params.confined().halo, 2);
}

/// `r` is 0.3 of `radius` times `bloom`, in units: off by 2^-18 of the radius,
/// and by sixteen units.
pub open spec fn is_core_size(r: int, radius: int, bloom: int) -> bool {
    let w = one_unit();
    0x20_0000 * absolute(10 * (r * w) - 3 * (radius * bloom)) <= (5 * radius + 0x200_0000) * w
}

/// The core's radius is 0.3 of the orb's times the bloom.
pub proof fn law_core_is_three_tenths(radius: Single, params: AquarelleParams)
    requires
        radius.finite(),
        0 <= radius.units(),
        params.bloom.finite(),
        0 <= params.bloom.units() <= one_unit(),
    ensures
        core_radius(radius, params).finite(),
        is_core_size(
            core_radius(radius, params).units(),
            radius.units(),
            params.bloom.units(),
        ),
{
    let w = one_unit();
    let k = Single { bits: CORE_REACH };
    lemma_constants();
    lemma2_to64();
    law_parameters_are_drawn_in(params);
    lemma_written(k, 124, 0x99_999A, 0x200_0000);
    lemma_part(radius, k);
    lemma_times_constant(radius, k, 3, 10);
    let x = product(radius, k);
    let t = params.confined().bloom;
    lemma_part(x, t);
    law_product_is_near(x, t);
    let r = radius.units();
    let p = x.units();
    let b = t.units();
    let c = product(x, t).units();
    assert(0x20_0000 * absolute(10 * (c * w) - 3 * (r * b)) <= (5 * r + 0x200_0000) * w)
        by (nonlinear_arith)
        requires
            0x20_0000 * absolute(10 * p - 3 * r) <= 3 * r + 0x20_0000 * 10,
            0x100_0000 * absolute(c * w - p * b) <= absolute(p * b) + 0x80_0000 * w,
            0 <= p <= r,
            0 <= b <= w,
            w > 0,
    {
        let y = 10 * p - 3 * r;
        let z = c * w - p * b;
        assert(10 * (c * w) - 3 * (r * b) == 10 * z + y * b);
        assert(absolute(y * b) == absolute(y) * b);
        assert((0x20_0000 * absolute(y)) * b <= (3 * r + 0x20_0000 * 10) * b);
        assert((3 * r + 0x20_0000 * 10) * b <= (3 * r + 0x20_0000 * 10) * w);
        assert(0 <= p * b && p * b <= r * w);
        assert((3 * r + 0x20_0000 * 10) * w == 3 * (r * w) + (0x20_0000 * 10) * w);
        assert((5 * r + 0x200_0000) * w == 5 * (r * w) + 0x200_0000 * w);
    }
}

/// `r` is `radius` times `size` times `(1 + bleed) / 2`, in units: off by 2^-19
/// of the radius, and by two units.
pub open spec fn is_satellite_size(r: int, radius: int, size: int, bleed: int) -> bool {
    let w = one_unit();
    let ww = w * w;
    0x10_0000 * absolute(2 * (r * ww) - (radius * size) * (w + bleed)) <= (2 * radius + 0x20_0000)
        * ww
}

/// A satellite's radius is that of the orb times the drawn size, and half of
/// that to all of it by the bleed.
pub proof fn law_satellite_is_sized(radius: Single, params: AquarelleParams, size: Single)
    requires
        radius.finite(),
        0 <= radius.units(),
        params.bleed.finite(),
        0 <= params.bleed.units() <= one_unit(),
        size.finite(),
        0 <= size.units() <= one_unit(),
    ensures
        satellite_radius(radius, params, size).finite(),
        is_satellite_size(
            satellite_radius(radius, params, size).units(),
            radius.units(),
            size.units(),
            params.bleed.units(),
        ),
{
    let w = one_unit();
    let half = Single { bits: HALF };
    let zero = Single { bits: ZERO };
    lemma_constants();
    law_parameters_are_drawn_in(params);
    let t = params.confined().bleed;
    lemma_part(half, t);
    law_product_is_near(half, t);
    let p = product(half, t);
    lemma_sum_rank(half, p);
    lemma_rank_between(sum(half, p), half.units() + p.units(), 1, zero, Single { bits: ONE });
    law_sum_is_near(half, p);
    let f = sum(half, p);
    lemma_part(radius, size);
    law_product_is_near(radius, size);
    let x = product(radius, size);
    lemma_part(x, f);
    law_product_is_near(x, f);
    lemma_half_plus(half.units(), t.units(), p.units(), f.units(), w as int);
    lemma_size_value(
        radius.units(),
        size.units(),
        t.units(),
        x.units(),
        f.units(),
        product(x, f).units(),
        w as int,
    );
}

proof fn lemma_half_plus(h: int, b: int, p: int, f: int, w: int)
    requires
        w >= 0x100_0000_0000,
        2 * h == w,
        0 <= b <= w,
        0 <= p <= h,
        0x100_0000 * absolute(p * w - h * b) <= absolute(h * b) + 0x80_0000 * w,
        0x100_0000 * absolute(f - (h + p)) <= absolute(h + p),
    ensures
        0x20_0000 * absolute(2 * f - (w + b)) <= w,
{
    let e = 2 * p - b;
    assert(0x80_0000 * absolute(e) <= w) by (nonlinear_arith)
        requires
            0x100_0000 * absolute(p * w - h * b) <= absolute(h * b) + 0x80_0000 * w,
            2 * h == w,
            0 <= b <= w,
            w >= 0x100_0000_0000,
            e == 2 * p - b,
    {
        assert(2 * (p * w - h * b) == e * w) by {
            assert(2 * (h * b) == w * b);
        }
        assert(absolute(e * w) == absolute(e) * w);
        assert(0 <= h * b && 2 * (h * b) <= w * w);
        assert(0x100_0000 * w <= w * w);
        assert((0x100_0000 * absolute(e)) * w <= (2 * w) * w);
    }
}

proof fn lemma_size_value(r: int, s: int, b: int, x: int, f: int, y: int, w: int)
    requires
        w == one_unit(),
        w > 0,
        0 <= r,
        0 <= s <= w,
        0 <= b <= w,
        0 <= f <= w,
        0 <= x <= r,
        0x20_0000 * absolute(2 * f - (w + b)) <= w,
        0x100_0000 * absolute(x * w - r * s) <= absolute(r * s) + 0x80_0000 * w,
        0x100_0000 * absolute(y * w - x * f) <= absolute(x * f) + 0x80_0000 * w,
    ensures
        is_satellite_size(y, r, s, b),
{
    let ww = w * w;
    let g = 2 * f - (w + b);
    let u = x * w - r * s;
    let v = y * w - x * f;
    let rs = r * s;
    let off = 2 * (y * ww) - rs * (w + b);
    assert(v * w == y * ww - (x * w) * f) by (nonlinear_arith)
        requires
            v == y * w - x * f,
            ww == w * w,
    ;
    assert(u * f == (x * w) * f - rs * f) by (nonlinear_arith)
        requires
            u == x * w - rs,
    ;
    assert(rs * g == 2 * (rs * f) - rs * (w + b)) by (nonlinear_arith)
        requires
            g == 2 * f - (w + b),
    ;
    assert(off == 2 * (v * w) + 2 * (u * f) + rs * g);
    let rw = r * w;
    assert(0 <= rs <= rw && 0 <= x * f <= rw) by (nonlinear_arith)
        requires
            rs == r * s,
            rw == r * w,
            0 <= s <= w,
            0 <= f <= w,
            0 <= x <= r,
    ;
    let rww = r * ww;
    assert(rww == rw * w && rww >= 0) by (nonlinear_arith)
        requires
            rww == r * ww,
            rw == r * w,
            ww == w * w,
            r >= 0,
    ;
    assert(0x100_0000 * absolute(v * w) <= rww + 0x80_0000 * ww) by (nonlinear_arith)
        requires
            0x100_0000 * absolute(v) <= rw + 0x80_0000 * w,
            rww == rw * w,
            ww == w * w,
            w > 0,
    {
        assert(absolute(v * w) == absolute(v) * w);
        assert((0x100_0000 * absolute(v)) * w <= (rw + 0x80_0000 * w) * w);
    }
    assert(0x100_0000 * absolute(u * f) <= rww + 0x80_0000 * ww) by (nonlinear_arith)
        requires
            0x100_0000 * absolute(u) <= rw + 0x80_0000 * w,
            rww == rw * w,
            ww == w * w,
            0 <= f <= w,
            rw >= 0,
            w > 0,
    {
        assert(absolute(u * f) == absolute(u) * f);
        assert((0x100_0000 * absolute(u)) * f <= (rw + 0x80_0000 * w) * f);
        assert((rw + 0x80_0000 * w) * f <= (rw + 0x80_0000 * w) * w);
    }
    assert(0x20_0000 * absolute(rs * g) <= rww) by (nonlinear_arith)
        requires
            0x20_0000 * absolute(g) <= w,
            0 <= rs <= rw,
            rww == rw * w,
            w > 0,
    {
        assert(absolute(rs * g) == rs * absolute(g));
        assert(rs * (0x20_0000 * absolute(g)) <= rs * w && rs * w <= rw * w);
    }
    assert((2 * r + 0x20_0000) * ww == 2 * rww + 0x20_0000 * ww) by (nonlinear_arith)
        requires
            rww == r * ww,
    ;
    assert(ww >= 0) by (nonlinear_arith)
        requires
            ww == w * w,
    ;
}

/// `at` is `from` plus a quarter of `radius` times `offset` in a direction,
/// along one axis: off by 2^-20 of the one and 2^-19 of the other, and by four
/// units.
pub open spec fn is_off_center(
    at: int,
    from: int,
    radius: int,
    offset: int,
    direction: int,
) -> bool {
    let ww = one_unit() * one_unit();
    0x10_0000 * absolute(4 * (at * ww) - (4 * (from * ww) + (radius * offset) * direction)) <= (4
        * absolute(from) + 5 * radius + 0x100_0000) * ww
}

/// The gradient's center lies off the orb's by a quarter of the radius times the
/// offset.
pub proof fn law_center_is_off_by_a_quarter(
    origin: Single,
    radius: Single,
    params: AquarelleParams,
    direction: Single,
)
    requires
        origin.finite(),
        radius.finite(),
        0 <= radius.units(),
        params.offset.finite(),
        0 <= params.offset.units() <= one_unit(),
        direction.finite(),
        absolute(direction.units()) <= 2 * one_unit(),
    ensures
        ({
            let x = gradient_center(origin, radius, params, direction);
            &&& is_moderate(origin) && is_moderate(radius) ==> x.finite()
            &&& x.finite() ==> is_off_center(
                x.units(),
                origin.units(),
                radius.units(),
                params.offset.units(),
                direction.units(),
            )
        }),
{
    let w = one_unit();
    let k = Single { bits: OFFSET_REACH };
    lemma_constants();
    lemma2_to64();
    law_parameters_are_drawn_in(params);
    lemma_written(k, 124, 0x80_0000, 0x200_0000);
    lemma_part(radius, k);
    lemma_times_constant(radius, k, 1, 4);
    let d = product(radius, k);
    let t = params.confined().offset;
    if is_moderate(origin) && is_moderate(radius) {
        lemma_placed_is_finite(origin, d, t, direction);
    }
    if gradient_center(origin, radius, params, direction).finite() {
        lemma_placed(origin, d, t, direction);
        lemma_quarter(
            origin.units(),
            radius.units(),
            d.units(),
            t.units(),
            direction.units(),
            gradient_center(origin, radius, params, direction).units(),
            w as int,
        );
    }
}

proof fn lemma_quarter(o: int, r: int, d: int, t: int, c: int, at: int, w: int)
    requires
        w == one_unit(),
        w > 0,
        0 <= d <= r,
        0 <= t <= w,
        absolute(c) <= 2 * w,
        is_times(d, r, 1, 4),
        is_placed(at, o, d, t, c),
    ensures
        is_off_center(at, o, r, t, c),
{
    let ww = w * w;
    let y = 4 * d - r;
    let x = at * ww - (o * ww + (d * t) * c);
    let tc = t * c;
    let off = 4 * (at * ww) - (4 * (o * ww) + (r * t) * c);
    assert(off == 4 * x + y * tc) by (nonlinear_arith)
        requires
            off == 4 * (at * ww) - (4 * (o * ww) + (r * t) * c),
            x == at * ww - (o * ww + (d * t) * c),
            y == 4 * d - r,
            tc == t * c,
    ;
    assert(absolute(tc) <= 2 * ww) by (nonlinear_arith)
        requires
            tc == t * c,
            0 <= t <= w,
            absolute(c) <= 2 * w,
            ww == w * w,
    {
        assert(absolute(t * c) == t * absolute(c));
        assert(t * absolute(c) <= t * (2 * w) && t * (2 * w) <= w * (2 * w));
    }
    assert(0x20_0000 * absolute(y * tc) <= (2 * r + 0x100_0000) * ww) by (nonlinear_arith)
        requires
            0x20_0000 * absolute(y) <= r + 0x20_0000 * 4,
            absolute(tc) <= 2 * ww,
            r >= 0,
    {
        assert(absolute(y * tc) == absolute(y) * absolute(tc));
        assert((0x20_0000 * absolute(y)) * absolute(tc) <= (r + 0x20_0000 * 4) * absolute(tc));
        assert((r + 0x20_0000 * 4) * absolute(tc) <= (r + 0x20_0000 * 4) * (2 * ww));
    }
    let ao = absolute(o) as int;
    let q = ao * ww;
    let s = r * ww;
    assert((ao + d + 0x20_0000) * ww <= q + s + 0x20_0000 * ww) by (nonlinear_arith)
        requires
            q == ao * ww,
            s == r * ww,
            d <= r,
            ww == w * w,
    ;
    assert((2 * r + 0x100_0000) * ww == 2 * s + 0x100_0000 * ww) by (nonlinear_arith)
        requires
            s == r * ww,
    ;
    assert((4 * ao + 5 * r + 0x100_0000) * ww == 4 * q + 5 * s + 0x100_0000 * ww)
        by (nonlinear_arith)
        requires
            q == ao * ww,
            s == r * ww,
    ;
    assert(ww >= 0 && s >= 0) by (nonlinear_arith)
        requires
            ww == w * w,
            s == r * ww,
            r >= 0,
    ;
}

/// A parameter that is not a number gives no satellites, no core, no place for
/// the gradient's center and no factor of saturation.
pub proof fn law_parameters_that_are_no_numbers(radius: Single, params: AquarelleParams)
    ensures
        params.bleed.nan() ==> satellite_count(params) == 0,
        params.bloom.nan() ==> !has_core(radius, params),
        params.offset.nan() ==> forall|origin: Single, direction: Single| #[trigger]
            gradient_center(origin, radius, params, direction).nan(),
        params.halo.nan() ==> falloff_factor(params).nan() && satellite_factor(params).nan(),
{
    law_parameters_are_drawn_in(params);
}

} // verus!
