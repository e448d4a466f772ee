//! Where the layers of an orb lie and how large they are, by value: the main
//! gradient, the satellites around it and the core.

use vstd::arithmetic::power2::{lemma2_to64, lemma_pow2_unfold};
use vstd::prelude::*;

use super::{
    layers_of, satellite_count, satellite_layer, AquarelleParams, OrbFrame, RadialLayer,
    DISTANCE_MAX, DISTANCE_MIN,
};
use crate::single::arith::{absolute, product, sum};
use crate::single::convert::one_unit;
use crate::single::edges::{is_moderate, lemma_product_within, lemma_sum_within, lemma_within_more};
use crate::single::laws::{lemma_constants, lemma_part};
use crate::single::near::{
    is_moved, law_product_is_near, law_sum_with_product_is_near, lemma_written,
};
use crate::single::order::{at_most, law_order_is_by_value};
use crate::single::{Single, ZERO};
use crate::spiral::taps::is_unit;

verus! {

/// `at` is `from` plus a part of `radius` in a direction, along one axis: off by
/// 2^-20 of both, and by two units.
pub open spec fn is_placed(at: int, from: int, radius: int, part: int, direction: int) -> bool {
    let ww = one_unit() * one_unit();
    0x10_0000 * absolute(at * ww - (from * ww + (radius * part) * direction)) <= (absolute(from)
        + absolute(radius) + 0x20_0000) * ww
}

/// A point moved by a part of a radius.
pub proof fn lemma_placed(from: Single, radius: Single, part: Single, direction: Single)
    requires
        from.finite(),
        radius.finite(),
        0 <= radius.units(),
        part.finite(),
        0 <= part.units() <= one_unit(),
        direction.finite(),
        absolute(direction.units()) <= 2 * one_unit(),
        sum(from, product(product(radius, part), direction)).finite(),
    ensures
        is_placed(
            sum(from, product(product(radius, part), direction)).units(),
            from.units(),
            radius.units(),
            part.units(),
            direction.units(),
        ),
{
    let d = product(radius, part);
    lemma_constants();
    lemma_part(radius, part);
    law_product_is_near(radius, part);
    assert(product(d, direction).finite());
    law_sum_with_product_is_near(from, d, direction);
    lemma_placed_value(
        from.units(),
        radius.units(),
        part.units(),
        direction.units(),
        d.units(),
        sum(from, product(d, direction)).units(),
        one_unit() as int,
    );
}

/// A point near moderate ones is finite.
pub proof fn lemma_placed_is_finite(
    from: Single,
    radius: Single,
    part: Single,
    direction: Single,
)
    requires
        is_moderate(from),
        is_moderate(radius),
        0 <= radius.units(),
        part.finite(),
        0 <= part.units() <= one_unit(),
        direction.finite(),
        absolute(direction.units()) <= 2 * one_unit(),
    ensures
        sum(from, product(product(radius, part), direction)).finite(),
{
    let d = product(radius, part);
    lemma_part(radius, part);
    lemma_pow2_unfold(150);
    lemma_product_within(d, direction, 240, 150);
    lemma_within_more(from, 240, 241);
    lemma_sum_within(from, product(d, direction), 241);
}

proof fn lemma_placed_value(o: int, r: int, p: int, c: int, d: int, at: int, w: int)
    requires
        w == one_unit(),
        w > 0,
        0 <= r,
        0 <= p <= w,
        0 <= d <= r,
        absolute(c) <= 2 * w,
        0x100_0000 * absolute(d * w - r * p) <= absolute(r * p) + 0x80_0000 * w,
        is_moved(at, o * w, d * c),
    ensures
        is_placed(at, o, r, p, c),
{
    let ww = w * w;
    let x = at * w - (o * w + d * c);
    let y = d * w - r * p;
    let off = at * ww - (o * ww + (r * p) * c);
    assert(off == x * w + y * c) by (nonlinear_arith)
        requires
            off == at * ww - (o * ww + (r * p) * c),
            x == at * w - (o * w + d * c),
            y == d * w - r * p,
            ww == w * w,
    ;
    let ao = absolute(o) as int;
    assert(absolute(o * w) == ao * w) by (nonlinear_arith)
        requires
            ao == absolute(o),
            w > 0,
    ;
    assert(absolute(d * c) <= 2 * (r * w)) by (nonlinear_arith)
        requires
            0 <= d <= r,
            absolute(c) <= 2 * w,
    {
        assert(absolute(d * c) == d * absolute(c));
        assert(d * absolute(c) <= d * (2 * w) && d * (2 * w) <= r * (2 * w));
    }
    assert(0x40_0000 * absolute(x * w) <= (ao + 2 * r + 0x40_0000) * ww) by (nonlinear_arith)
        requires
            0x40_0000 * absolute(x) <= ao * w + 2 * (r * w) + 0x40_0000 * w,
            ww == w * w,
            w > 0,
    {
        assert(absolute(x * w) == absolute(x) * w);
        assert((0x40_0000 * absolute(x)) * w <= (ao * w + 2 * (r * w) + 0x40_0000 * w) * w);
    }
    assert(0 <= r * p <= r * w) by (nonlinear_arith)
        requires
            0 <= r,
            0 <= p <= w,
    ;
    assert(0x100_0000 * absolute(y * c) <= (2 * r + 0x100_0000) * ww) by (nonlinear_arith)
        requires
            0x100_0000 * absolute(y) <= r * w + 0x80_0000 * w,
            absolute(c) <= 2 * w,
            ww == w * w,
            w > 0,
    {
        assert(absolute(y * c) == absolute(y) * absolute(c));
        assert((0x100_0000 * absolute(y)) * absolute(c) <= (0x100_0000 * absolute(y)) * (2 * w));
        assert((0x100_0000 * absolute(y)) * (2 * w) <= (r * w + 0x80_0000 * w) * (2 * w));
    }
    let q = ao * ww;
    let s = r * ww;
    assert(q >= 0 && s >= 0 && ww >= 0) by (nonlinear_arith)
        requires
            q == ao * ww,
            s == r * ww,
            ww == w * w,
            ao >= 0,
            r >= 0,
    ;
    assert((ao + 2 * r + 0x40_0000) * ww == q + 2 * s + 0x40_0000 * ww) by (nonlinear_arith)
        requires
            q == ao * ww,
            s == r * ww,
    ;
    assert((2 * r + 0x100_0000) * ww == 2 * s + 0x100_0000 * ww) by (nonlinear_arith)
        requires
            s == r * ww,
    ;
    assert((ao + r + 0x20_0000) * ww == q + s + 0x20_0000 * ww) by (nonlinear_arith)
        requires
            q == ao * ww,
            s == r * ww,
    ;
}

/// The center of each satellite layer is the orb's center plus the drawn part of
/// the radius in the drawn direction, whatever the radius is. It is finite where
/// the orb's center and radius are moderate.
pub proof fn law_satellites_lie_at(
    center: (Single, Single),
    radius: Single,
    color: [u8; 3],
    params: AquarelleParams,
    frame: OrbFrame,
    i: int,
)
    requires
        center.0.finite(),
        center.1.finite(),
        radius.finite(),
        0 < radius.units(),
        0 <= i < satellite_count(params),
        ({
            let place = frame.satellites@[i];
            &&& place.distance.finite()
            &&& 0 <= place.distance.units() <= one_unit()
            &&& place.turn.cos.finite()
            &&& absolute(place.turn.cos.units()) <= 2 * one_unit()
            &&& place.turn.sin.finite()
            &&& absolute(place.turn.sin.units()) <= 2 * one_unit()
        }),
    ensures
        ({
            let place = frame.satellites@[i];
            let l = layers_of(center, radius, color, params, frame)[1 + i];
            &&& is_moderate(center.0) && is_moderate(radius) ==> l.cx.finite()
            &&& is_moderate(center.1) && is_moderate(radius) ==> l.cy.finite()
            &&& l.cx.finite() ==> is_placed(
                l.cx.units(),
                center.0.units(),
                radius.units(),
                place.distance.units(),
                place.turn.cos.units(),
            )
            &&& l.cy.finite() ==> is_placed(
                l.cy.units(),
                center.1.units(),
                radius.units(),
                place.distance.units(),
                place.turn.sin.units(),
            )
        }),
{
    lemma_constants();
    law_order_is_by_value(radius, Single { bits: ZERO });
    let place = frame.satellites@[i];
    let l = layers_of(center, radius, color, params, frame)[1 + i];
    assert(l == satellite_layer(center, radius, params, frame.bleed_color, place));
    if is_moderate(center.0) && is_moderate(radius) {
        lemma_placed_is_finite(center.0, radius, place.distance, place.turn.cos);
    }
    if is_moderate(center.1) && is_moderate(radius) {
        lemma_placed_is_finite(center.1, radius, place.distance, place.turn.sin);
    }
    if l.cx.finite() {
        lemma_placed(center.0, radius, place.distance, place.turn.cos);
    }
    if l.cy.finite() {
        lemma_placed(center.1, radius, place.distance, place.turn.sin);
    }
}

/// A point lies 0.4 to 0.9 of the radius away from the center. Rounding adds
/// 2^-20 of the radius and of where the center lies.
pub open spec fn lies_around(l: RadialLayer, center: (Single, Single), radius: Single) -> bool {
    let dx = l.cx.units() - center.0.units();
    let dy = l.cy.units() - center.1.units();
    let r = radius.units();
    let q = absolute(center.0.units()) + absolute(center.1.units()) + 2 * r + 0x40_0000;
    let slack = 100 * (0x10_0000 * (9 * (r * q)) + 2 * (q * q));
    &&& 0x100_0000_0000 * (16 * (r * r) - 100 * (dx * dx + dy * dy)) <= slack
    &&& 0x100_0000_0000 * (100 * (dx * dx + dy * dy) - 81 * (r * r)) <= slack
}

/// So a satellite lies 0.4 to 0.9 of the radius away from the orb's center, where
/// cosine and sine give a unit vector and the drawn distance lies in its range.
pub proof fn law_satellites_lie_apart(
    center: (Single, Single),
    radius: Single,
    color: [u8; 3],
    params: AquarelleParams,
    frame: OrbFrame,
    i: int,
)
    requires
        center.0.finite(),
        center.1.finite(),
        radius.finite(),
        0 < radius.units(),
        0 <= i < satellite_count(params),
        ({
            let place = frame.satellites@[i];
            &&& at_most(Single { bits: DISTANCE_MIN }, place.distance)
            &&& at_most(place.distance, Single { bits: DISTANCE_MAX })
            &&& is_unit(place.turn.cos, place.turn.sin, 0x10_0000)
        }),
    ensures
        ({
            let l = layers_of(center, radius, color, params, frame)[1 + i];
            &&& is_moderate(center.0) && is_moderate(radius) ==> l.cx.finite()
            &&& is_moderate(center.1) && is_moderate(radius) ==> l.cy.finite()
            &&& l.cx.finite() && l.cy.finite() ==> lies_around(l, center, radius)
        }),
{
    let w = one_unit();
    let place = frame.satellites@[i];
    let near = Single { bits: DISTANCE_MIN };
    let far = Single { bits: DISTANCE_MAX };
    lemma_constants();
    lemma2_to64();
    lemma_written(near, 124, 0xCC_CCCD, 0x200_0000);
    lemma_written(far, 125, 0xE6_6666, 0x100_0000);
    assert(place.distance.finite());
    law_order_is_by_value(near, place.distance);
    law_order_is_by_value(place.distance, far);
    let p = place.distance.units();
    let c = place.turn.cos.units();
    let s = place.turn.sin.units();
    assert(4 * w <= 10 * p <= 9 * w);
    lemma_component(c, s, w as int);
    lemma_component(s, c, w as int);
    law_satellites_lie_at(center, radius, color, params, frame, i);
    let l = layers_of(center, radius, color, params, frame)[1 + i];
    if l.cx.finite() && l.cy.finite() {
        lemma_apart(
            l.cx.units() - center.0.units(),
            l.cy.units() - center.1.units(),
            center.0.units(),
            center.1.units(),
            radius.units(),
            p,
            c,
            s,
            w as int,
        );
    }
}

/// A component of a unit vector is two at most.
pub proof fn lemma_component(c: int, s: int, w: int)
    requires
        w > 0,
        0x10_0000 * absolute(c * c + s * s - w * w) <= w * w,
    ensures
        absolute(c) <= 2 * w,
        0x10_0000 * absolute(s * s + c * c - w * w) <= w * w,
{
    assert(absolute(c) <= 2 * w) by (nonlinear_arith)
        requires
            c * c + s * s <= 2 * (w * w),
            w > 0,
    {
        assert(s * s >= 0);
        if c > 2 * w {
            assert(c * c > (2 * w) * (2 * w));
        }
        if -c > 2 * w {
            assert((-c) * (-c) > (2 * w) * (2 * w));
        }
    }
}

/// The square of one coordinate, over the exact one.
proof fn lemma_square_near(a: int, u: int, r: int, q: int, ww: int)
    requires
        ww > 0,
        0 <= r,
        0 <= q,
        0x10_0000 * absolute(a - u) <= q * ww,
        absolute(u) <= 2 * (r * ww),
    ensures
        0x100_0000_0000 * absolute(a * a - u * u) <= (0x10_0000 * (4 * (r * q)) + q * q) * (ww
            * ww),
{
    let e = a - u;
    let w4 = ww * ww;
    assert(a * a - u * u == 2 * (u * e) + e * e) by (nonlinear_arith)
        requires
            e == a - u,
    ;
    assert(0x10_0000 * absolute(2 * (u * e)) <= (4 * (r * q)) * w4) by (nonlinear_arith)
        requires
            0x10_0000 * absolute(e) <= q * ww,
            absolute(u) <= 2 * (r * ww),
            w4 == ww * ww,
            0 <= r,
            0 <= q,
            ww > 0,
    {
        assert(absolute(2 * (u * e)) == 2 * (absolute(u) * absolute(e)));
        assert(absolute(u) * (0x10_0000 * absolute(e)) <= absolute(u) * (q * ww));
        assert(q * ww >= 0);
        assert(absolute(u) * (q * ww) <= (2 * (r * ww)) * (q * ww));
        assert((2 * (r * ww)) * (q * ww) == (2 * (r * q)) * (ww * ww));
    }
    assert(0x100_0000_0000 * (e * e) <= (q * q) * w4) by (nonlinear_arith)
        requires
            0x10_0000 * absolute(e) <= q * ww,
            w4 == ww * ww,
            q >= 0,
    {
        let f = 0x10_0000 * absolute(e);
        assert(e * e == absolute(e) * absolute(e));
        assert(f * f == 0x100_0000_0000 * (absolute(e) * absolute(e)));
        assert(f * f <= (q * ww) * (q * ww));
        assert((q * ww) * (q * ww) == (q * q) * (ww * ww));
    }
    assert(e * e >= 0) by (nonlinear_arith);
    assert((0x10_0000 * (4 * (r * q)) + q * q) * w4 == 0x10_0000 * ((4 * (r * q)) * w4) + (q * q)
        * w4) by (nonlinear_arith);
}

/// One coordinate: the exact one is bounded, and the rounded one is near.
proof fn lemma_coordinate(d: int, o: int, r: int, p: int, c: int, q: int, w: int)
    requires
        w == one_unit(),
        w > 0,
        0 <= r,
        0 <= p <= w,
        absolute(c) <= 2 * w,
        is_placed(d + o, o, r, p, c),
        absolute(o) + r + 0x20_0000 <= q,
    ensures
        ({
            let ww = w * w;
            let a = d * ww;
            let u = (r * p) * c;
            0x100_0000_0000 * absolute(a * a - u * u) <= (0x10_0000 * (4 * (r * q)) + q * q) * (ww
                * ww)
        }),
{
    let ww = w * w;
    let a = d * ww;
    let u = (r * p) * c;
    assert(ww > 0) by (nonlinear_arith)
        requires
            ww == w * w,
            w > 0,
    ;
    assert((d + o) * ww - (o * ww + u) == a - u) by (nonlinear_arith)
        requires
            a == d * ww,
    ;
    assert((absolute(o) + absolute(r) + 0x20_0000) * ww <= q * ww) by (nonlinear_arith)
        requires
            absolute(o) + absolute(r) + 0x20_0000 <= q,
            ww > 0,
    ;
    assert(absolute(u) <= 2 * (r * ww)) by (nonlinear_arith)
        requires
            u == (r * p) * c,
            0 <= r,
            0 <= p <= w,
            absolute(c) <= 2 * w,
            ww == w * w,
    {
        let rp = r * p;
        assert(0 <= rp && rp <= r * w);
        assert(absolute(rp * c) == rp * absolute(c));
        assert(rp * absolute(c) <= rp * (2 * w) && rp * (2 * w) <= (r * w) * (2 * w));
        assert((r * w) * (2 * w) == 2 * (r * (w * w)));
    }
    lemma_square_near(a, u, r, q, ww);
}

/// The squares of the exact coordinates add up to that of the distance.
proof fn lemma_circle(r: int, p: int, c: int, s: int, w: int)
    requires
        w > 0,
        0 <= r,
        4 * w <= 10 * p <= 9 * w,
        0x10_0000 * absolute(c * c + s * s - w * w) <= w * w,
    ensures
        ({
            let w4 = (w * w) * (w * w);
            let u = (r * p) * c;
            let v = (r * p) * s;
            let n = u * u + v * v;
            &&& 0x10_0000 * (16 * ((r * r) * w4) - 100 * n) <= 100 * ((r * r) * w4)
            &&& 0x10_0000 * (100 * n - 81 * ((r * r) * w4)) <= 100 * ((r * r) * w4)
        }),
{
    let ww = w * w;
    let w4 = ww * ww;
    let u = (r * p) * c;
    let v = (r * p) * s;
    let n = u * u + v * v;
    let z = c * c + s * s - ww;
    let m = (r * r) * (p * p);
    let full = (r * r) * w4;
    assert(n == m * ww + m * z) by (nonlinear_arith)
        requires
            n == u * u + v * v,
            u == (r * p) * c,
            v == (r * p) * s,
            z == c * c + s * s - ww,
            m == (r * r) * (p * p),
    {
        assert(u * u == m * (c * c));
        assert(v * v == m * (s * s));
        assert(m * (c * c) + m * (s * s) == m * (c * c + s * s));
    }
    assert(16 * ww <= 100 * (p * p) <= 81 * ww) by (nonlinear_arith)
        requires
            4 * w <= 10 * p <= 9 * w,
            w > 0,
            ww == w * w,
    {
        assert((4 * w) * (4 * w) <= (10 * p) * (10 * p));
        assert((10 * p) * (10 * p) <= (9 * w) * (9 * w));
    }
    assert(0 <= m && 16 * ((r * r) * ww) <= 100 * m && 100 * m <= 81 * ((r * r) * ww))
        by (nonlinear_arith)
        requires
            16 * ww <= 100 * (p * p) <= 81 * ww,
            m == (r * r) * (p * p),
    {
        let rr = r * r;
        assert(rr >= 0 && p * p >= 0);
        assert(rr * (16 * ww) <= rr * (100 * (p * p)));
        assert(rr * (100 * (p * p)) <= rr * (81 * ww));
    }
    let h = (r * r) * ww;
    assert(16 * full <= 100 * (m * ww) && 100 * (m * ww) <= 81 * full) by (nonlinear_arith)
        requires
            16 * h <= 100 * m <= 81 * h,
            full == (r * r) * w4,
            h == (r * r) * ww,
            w4 == ww * ww,
            ww == w * w,
    {
        assert(ww >= 0);
        assert((16 * h) * ww <= (100 * m) * ww);
        assert((100 * m) * ww <= (81 * h) * ww);
        assert(h * ww == full);
    }
    assert(0x10_0000 * absolute(m * z) <= full) by (nonlinear_arith)
        requires
            0x10_0000 * absolute(z) <= ww,
            0 <= m,
            m * ww <= full,
    {
        assert(absolute(m * z) == m * absolute(z));
        assert(m * (0x10_0000 * absolute(z)) <= m * ww);
    }
}

proof fn lemma_apart(
    dx: int,
    dy: int,
    ox: int,
    oy: int,
    r: int,
    p: int,
    c: int,
    s: int,
    w: int,
)
    requires
        w == one_unit(),
        w > 0,
        0 <= r,
        4 * w <= 10 * p <= 9 * w,
        absolute(c) <= 2 * w,
        absolute(s) <= 2 * w,
        0x10_0000 * absolute(c * c + s * s - w * w) <= w * w,
        is_placed(dx + ox, ox, r, p, c),
        is_placed(dy + oy, oy, r, p, s),
    ensures
        ({
            let q = absolute(ox) + absolute(oy) + 2 * r + 0x40_0000;
            let slack = 100 * (0x10_0000 * (9 * (r * q)) + 2 * (q * q));
            &&& 0x100_0000_0000 * (16 * (r * r) - 100 * (dx * dx + dy * dy)) <= slack
            &&& 0x100_0000_0000 * (100 * (dx * dx + dy * dy) - 81 * (r * r)) <= slack
        }),
{
    let q = absolute(ox) + absolute(oy) + 2 * r + 0x40_0000;
    let ww = w * w;
    let w4 = ww * ww;
    lemma_coordinate(dx, ox, r, p, c, q, w);
    lemma_coordinate(dy, oy, r, p, s, q, w);
    lemma_circle(r, p, c, s, w);
    let n = dx * dx + dy * dy;
    let a = dx * ww;
    let b = dy * ww;
    assert(a * a + b * b == n * w4) by (nonlinear_arith)
        requires
            a == dx * ww,
            b == dy * ww,
            n == dx * dx + dy * dy,
            w4 == ww * ww,
    {
        assert(a * a == (dx * dx) * (ww * ww));
        assert(b * b == (dy * dy) * (ww * ww));
    }
    let k = 0x10_0000 * (4 * (r * q)) + q * q;
    let full = (r * r) * w4;
    let rr = r * r;
    let rq = r * q;
    let qq = q * q;
    assert(rr <= rq && rr >= 0) by (nonlinear_arith)
        requires
            rr == r * r,
            rq == r * q,
            0 <= r <= q,
    ;
    assert(w4 > 0) by (nonlinear_arith)
        requires
            w4 == (w * w) * (w * w),
            w > 0,
    ;
    lemma_scaled_away(n, rr, rq, qq, k * w4, w4);
}

/// The bounds without the common factor.
proof fn lemma_scaled_away(n: int, rr: int, rq: int, qq: int, kw: int, w4: int)
    requires
        w4 > 0,
        0 <= rr <= rq,
        kw == (0x10_0000 * (4 * rq) + qq) * w4,
        0x100_0000_0000 * (16 * (rr * w4) - 100 * (n * w4)) <= 0x10_0000 * (100 * (rr * w4)) + 200
            * kw,
        0x100_0000_0000 * (100 * (n * w4) - 81 * (rr * w4)) <= 0x10_0000 * (100 * (rr * w4)) + 200
            * kw,
    ensures
        0x100_0000_0000 * (16 * rr - 100 * n) <= 100 * (0x10_0000 * (9 * rq) + 2 * qq),
        0x100_0000_0000 * (100 * n - 81 * rr) <= 100 * (0x10_0000 * (9 * rq) + 2 * qq),
{
    let slack = 100 * (0x10_0000 * (9 * rq) + 2 * qq);
    assert(0x10_0000 * (100 * (rr * w4)) + 200 * kw <= slack * w4) by (nonlinear_arith)
        requires
            0 <= rr <= rq,
            kw == (0x10_0000 * (4 * rq) + qq) * w4,
            slack == 100 * (0x10_0000 * (9 * rq) + 2 * qq),
            w4 > 0,
    {
        assert(rr * w4 <= rq * w4);
        assert(kw == 0x10_0000 * (4 * (rq * w4)) + qq * w4);
        assert(slack * w4 == 100 * (0x10_0000 * (9 * (rq * w4)) + 2 * (qq * w4)));
    }
    let low = 0x100_0000_0000 * (16 * rr - 100 * n);
    let high = 0x100_0000_0000 * (100 * n - 81 * rr);
    assert(low <= slack && high <= slack) by (nonlinear_arith)
        requires
            low == 0x100_0000_0000 * (16 * rr - 100 * n),
            high == 0x100_0000_0000 * (100 * n - 81 * rr),
            0x100_0000_0000 * (16 * (rr * w4) - 100 * (n * w4)) <= slack * w4,
            0x100_0000_0000 * (100 * (n * w4) - 81 * (rr * w4)) <= slack * w4,
            w4 > 0,
    {
        assert(low * w4 <= slack * w4);
        assert(high * w4 <= slack * w4);
    }
}

} // verus!
