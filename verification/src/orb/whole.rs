//! The orb as a whole: which numbers are drawn from the seed, which layers they
//! give, and in which order these are painted.

use rand_chacha::ChaCha8Rng;
use tiny_skia::Pixmap;
use vstd::arithmetic::power2::{lemma2_to64, pow2};
use vstd::prelude::*;

use super::laws::law_layers_are_counted;
use super::places::{is_placed, law_satellites_lie_apart, law_satellites_lie_at, lies_around};
use super::sizes::{
    is_core_size, is_off_center, is_satellite_size, law_center_is_off_by_a_quarter,
    law_core_is_three_tenths, law_parameters_are_drawn_in, law_satellite_is_sized,
};
use super::{
    composites, core_color, core_layer, core_radius, falloff_factor, frames, has_core, layer,
    layers_of, main_layer, orb_drawn, orb_states, painted, paints, pictures_of, renders,
    satellite_count, satellite_drawn, satellite_factor, satellite_layer, AquarelleParams, OrbDraws,
    OrbFrame, RadialLayer, SatelliteDraw, Turn, CORE_WHITE, DISTANCE_MAX, DISTANCE_MIN, PAINT_REACH,
    SIZE_MAX, SIZE_MIN,
};
use crate::color::mixing::{is_mixture, law_white_is_mixed_in};
use crate::color::saturates_bytes;
use crate::draw::{drawn, draws_within, seeded_state};
use crate::single::arith::{absolute, product};
use crate::single::convert::one_unit;
use crate::single::edges::{is_moderate, lemma_product_within, lemma_written_within};
use crate::single::laws::{lemma_below_one, lemma_constants};
use crate::single::near::{is_times, lemma_times_constant, lemma_written};
use crate::single::order::{at_most, law_order_is_by_value, same};
use crate::single::{Single, ZERO};
use crate::spiral::taps::is_unit;
use crate::spiral::AQUA_TAU;

verus! {

/// The numbers of an orb are drawn in order, each from the state that the one
/// before has left, and the first from that of the seed: an angle of up to a
/// turn, then for each satellite an angle, a distance of 0.4 to 0.9 and a size
/// of 0.2 to 0.4.
pub proof fn law_numbers_are_drawn_in_order<D>(
    source: D,
    seed: u64,
    params: AquarelleParams,
    draws: OrbDraws,
) -> (states: Seq<ChaCha8Rng>) where D: Fn(ChaCha8Rng, Single, Single) -> (ChaCha8Rng, Single)
    requires
        orb_drawn(source, seed, params, draws),
    ensures
        draws.satellites@.len() == satellite_count(params),
        states.len() == draws.satellites@.len() + 1,
        call_ensures(
            source,
            (seeded_state(seed), Single { bits: 0 }, Single { bits: 0x40C9_0FDB }),
            (states[0], draws.angle),
        ),
        forall|i: int|
            0 <= i < draws.satellites@.len() ==> is_satellite_drawn(
                source,
                states[i],
                #[trigger] draws.satellites@[i],
                states[i + 1],
            ),
{
    let states = choose|states: Seq<ChaCha8Rng>| #[trigger]
        orb_states(source, seed, draws, states);
    assert forall|i: int| 0 <= i < draws.satellites@.len() implies is_satellite_drawn(
        source,
        states[i],
        #[trigger] draws.satellites@[i],
        states[i + 1],
    ) by {
        let draw = draws.satellites@[i];
        let before = states[i];
        let after = states[i + 1];
        assert(satellite_drawn(source, before, draw, after));
        let (one, two) = choose|one: ChaCha8Rng, two: ChaCha8Rng|
            #[trigger] drawn(source, before, ZERO, AQUA_TAU, one, draw.angle) && #[trigger] drawn(
                source,
                one,
                DISTANCE_MIN,
                DISTANCE_MAX,
                two,
                draw.distance,
            ) && drawn(source, two, SIZE_MIN, SIZE_MAX, after, draw.size);
        assert(drawn(source, two, SIZE_MIN, SIZE_MAX, after, draw.size));
        assert(call_ensures(
            source,
            (before, Single { bits: 0 }, Single { bits: 0x40C9_0FDB }),
            (one, draw.angle),
        ));
        assert(call_ensures(
            source,
            (one, Single { bits: 0x3ECC_CCCD }, Single { bits: 0x3F66_6666 }),
            (two, draw.distance),
        ));
    }
    states
}

/// Three calls of the source give the numbers of a satellite.
pub open spec fn is_satellite_drawn<D>(
    source: D,
    before: ChaCha8Rng,
    draw: SatelliteDraw,
    after: ChaCha8Rng,
) -> bool where D: Fn(ChaCha8Rng, Single, Single) -> (ChaCha8Rng, Single) {
    exists|one: ChaCha8Rng, two: ChaCha8Rng|
        #[trigger] call_ensures(
            source,
            (before, Single { bits: 0 }, Single { bits: 0x40C9_0FDB }),
            (one, draw.angle),
        ) && #[trigger] call_ensures(
            source,
            (one, Single { bits: 0x3ECC_CCCD }, Single { bits: 0x3F66_6666 }),
            (two, draw.distance),
        ) && call_ensures(
            source,
            (two, Single { bits: 0x3E4C_CCCD }, Single { bits: 0x3ECC_CCCD }),
            (after, draw.size),
        )
}

/// The three colors of a layer are one color, at three alphas.
pub open spec fn has_alphas(
    l: RadialLayer,
    inner: [u8; 3],
    around: [u8; 3],
    a: u8,
    b: u8,
    c: u8,
) -> bool {
    &&& l.inner@ == seq![inner[0], inner[1], inner[2], a]
    &&& l.mid@ == seq![around[0], around[1], around[2], b]
    &&& l.edge@ == seq![around[0], around[1], around[2], c]
}

/// The painted circle is half as large again as the gradient.
pub open spec fn reaches(l: RadialLayer) -> bool {
    &&& is_moderate(l.radius) ==> l.reach.finite()
    &&& l.radius.finite() && l.reach.finite() ==> is_times(l.reach.units(), l.radius.units(), 3, 2)
}

/// `l` is the main gradient of an orb.
pub open spec fn is_main(
    l: RadialLayer,
    center: (Single, Single),
    radius: Single,
    color: [u8; 3],
    offset: int,
    turn: Turn,
    halo_color: [u8; 3],
) -> bool {
    &&& l.radius == radius
    &&& has_alphas(l, color, halo_color, 255, 128, 0)
    &&& l.mid_stop.bits == 0x3F0C_CCCD
    &&& reaches(l)
    &&& lies_off_center(l, center, radius, offset, turn)
}

/// The center of `l` is off that of the orb by the offset.
pub open spec fn lies_off_center(
    l: RadialLayer,
    center: (Single, Single),
    radius: Single,
    offset: int,
    turn: Turn,
) -> bool {
    &&& is_moderate(center.0) && is_moderate(radius) ==> l.cx.finite()
    &&& is_moderate(center.1) && is_moderate(radius) ==> l.cy.finite()
    &&& l.cx.finite() ==> is_off_center(
        l.cx.units(),
        center.0.units(),
        radius.units(),
        offset,
        turn.cos.units(),
    )
    &&& l.cy.finite() ==> is_off_center(
        l.cy.units(),
        center.1.units(),
        radius.units(),
        offset,
        turn.sin.units(),
    )
}

/// `l` is a satellite of an orb.
pub open spec fn is_satellite(
    l: RadialLayer,
    center: (Single, Single),
    radius: Single,
    bleed: int,
    draw: SatelliteDraw,
    turn: Turn,
    bleed_color: [u8; 3],
) -> bool {
    &&& has_alphas(l, bleed_color, bleed_color, 100, 50, 0)
    &&& l.mid_stop.bits == 0x3F00_0000
    &&& reaches(l)
    &&& l.radius.finite()
    &&& is_satellite_size(l.radius.units(), radius.units(), draw.size.units(), bleed)
    &&& is_moderate(center.0) && is_moderate(radius) ==> l.cx.finite()
    &&& is_moderate(center.1) && is_moderate(radius) ==> l.cy.finite()
    &&& l.cx.finite() && l.cy.finite() ==> {
        &&& is_placed(
            l.cx.units(),
            center.0.units(),
            radius.units(),
            draw.distance.units(),
            turn.cos.units(),
        )
        &&& is_placed(
            l.cy.units(),
            center.1.units(),
            radius.units(),
            draw.distance.units(),
            turn.sin.units(),
        )
        &&& is_unit(turn.cos, turn.sin, 0x10_0000) ==> lies_around(l, center, radius)
    }
}

/// `l` is the core of an orb: 70 % of the way to white.
pub open spec fn is_core(
    l: RadialLayer,
    center: (Single, Single),
    radius: Single,
    color: [u8; 3],
    offset: int,
    bloom: int,
    turn: Turn,
) -> bool {
    &&& l.radius.finite()
    &&& is_core_size(l.radius.units(), radius.units(), bloom)
    &&& has_alphas(
        l,
        [l.inner[0], l.inner[1], l.inner[2]],
        [l.inner[0], l.inner[1], l.inner[2]],
        255,
        128,
        0,
    )
    &&& forall|i: int|
        0 <= i < 3 ==> is_mixture(
            #[trigger] l.inner[i],
            color[i] as int,
            255,
            Single { bits: 0x3F33_3333 }.units(),
        )
    &&& l.mid_stop.bits == 0x3F0C_CCCD
    &&& reaches(l)
    &&& lies_off_center(l, center, radius, offset, turn)
}

/// The functions of angles give numbers, of two at most.
pub open spec fn turns_are_small<S, C>(sin: S, cos: C) -> bool where
    S: Fn(Single) -> Single,
    C: Fn(Single) -> Single,
 {
    &&& forall|a: Single, x: Single| #[trigger]
        call_ensures(sin, (a,), x) ==> x.finite() && absolute(x.units()) <= 2 * one_unit()
    &&& forall|a: Single, x: Single| #[trigger]
        call_ensures(cos, (a,), x) ==> x.finite() && absolute(x.units()) <= 2 * one_unit()
}

/// A layer is what it is made of: the middle color is kept 0.05 off both ends,
/// and the painted circle is half as large again as the gradient.
pub proof fn law_layer_is_made_of(
    cx: Single,
    cy: Single,
    radius: Single,
    inner: [u8; 4],
    mid: [u8; 4],
    edge: [u8; 4],
    stop: Single,
)
    ensures
        ({
            let l = layer(cx, cy, radius, inner, mid, edge, stop);
            let low = Single { bits: 0x3D4C_CCCD };
            let high = Single { bits: 0x3F73_3333 };
            &&& l.cx == cx && l.cy == cy && l.radius == radius
            &&& l.inner == inner && l.mid == mid && l.edge == edge
            &&& at_most(low, stop) && at_most(stop, high) ==> l.mid_stop == stop
            &&& at_most(stop, low) ==> same(l.mid_stop, low)
            &&& at_most(high, stop) ==> same(l.mid_stop, high)
            &&& stop.nan() ==> l.mid_stop == stop
            &&& reaches(l)
        }),
{
    let k = Single { bits: PAINT_REACH };
    lemma_constants();
    lemma2_to64();
    lemma_written(k, 126, 0xC0_0000, 0x80_0000);
    if is_moderate(radius) {
        lemma_written_within(k, 126, 150);
        lemma_product_within(radius, k, 240, 150);
    }
    if radius.finite() && product(radius, k).finite() {
        let last = pow2(126);
        assert(k.units() == 0xC0_0000 * last);
        assert(one_unit() == 0x80_0000 * last);
        let w = one_unit();
        assert(0x80_0000 * absolute(2 * k.units() - 3 * w) <= 3 * w) by (nonlinear_arith)
            requires
                k.units() == 0xC0_0000 * last,
                w == 0x80_0000 * last,
        ;
        lemma_times_constant(radius, k, 3, 2);
    }
}

/// The main gradient, by value.
pub proof fn law_main_gradient(
    center: (Single, Single),
    radius: Single,
    color: [u8; 3],
    params: AquarelleParams,
    frame: OrbFrame,
)
    requires
        center.0.finite(),
        center.1.finite(),
        radius.finite(),
        0 < radius.units(),
        params.offset.finite(),
        0 <= params.offset.units() <= one_unit(),
        frame.turn.cos.finite(),
        absolute(frame.turn.cos.units()) <= 2 * one_unit(),
        frame.turn.sin.finite(),
        absolute(frame.turn.sin.units()) <= 2 * one_unit(),
    ensures
        is_main(
            layers_of(center, radius, color, params, frame)[0],
            center,
            radius,
            color,
            params.offset.units(),
            frame.turn,
            frame.halo_color,
        ),
{
    lemma_constants();
    law_order_is_by_value(radius, Single { bits: ZERO });
    let l = main_layer(center, radius, color, params, frame);
    assert(layers_of(center, radius, color, params, frame)[0] == l);
    law_layer_is_made_of(
        l.cx,
        l.cy,
        radius,
        l.inner,
        l.mid,
        l.edge,
        Single { bits: 0x3F0C_CCCD },
    );
    assert(l.inner@ =~= seq![color[0], color[1], color[2], 255]);
    let halo = frame.halo_color;
    assert(l.mid@ =~= seq![halo[0], halo[1], halo[2], 128]);
    assert(l.edge@ =~= seq![halo[0], halo[1], halo[2], 0]);
    law_center_is_off_by_a_quarter(center.0, radius, params, frame.turn.cos);
    law_center_is_off_by_a_quarter(center.1, radius, params, frame.turn.sin);
}

/// The core, by value: there is one where the bloom and its radius are above
/// zero.
pub proof fn law_core(
    center: (Single, Single),
    radius: Single,
    color: [u8; 3],
    params: AquarelleParams,
    frame: OrbFrame,
)
    requires
        center.0.finite(),
        center.1.finite(),
        radius.finite(),
        0 < radius.units(),
        params.offset.finite(),
        0 <= params.offset.units() <= one_unit(),
        params.bloom.finite(),
        0 <= params.bloom.units() <= one_unit(),
        frame.turn.cos.finite(),
        absolute(frame.turn.cos.units()) <= 2 * one_unit(),
        frame.turn.sin.finite(),
        absolute(frame.turn.sin.units()) <= 2 * one_unit(),
    ensures
        ({
            let layers = layers_of(center, radius, color, params, frame);
            let w = one_unit();
            let count = satellite_count(params);
            let bloom = params.bloom.units();
            let r = radius.units();
            &&& layers.len() == count + 1 || layers.len() == count + 2
            &&& layers.len() == count + 2 ==> is_core(
                layers[count as int + 1],
                center,
                radius,
                color,
                params.offset.units(),
                bloom,
                frame.turn,
            )
            &&& bloom == 0 ==> layers.len() == count + 1
            &&& 0x20_0000 * (3 * (r * bloom)) > (5 * r + 0x200_0000) * w ==> layers.len() == count
                + 2
        }),
{
    let w = one_unit();
    let zero = Single { bits: ZERO };
    let white = Single { bits: CORE_WHITE };
    lemma_constants();
    lemma_below_one(white);
    law_parameters_are_drawn_in(params);
    law_order_is_by_value(radius, zero);
    law_layers_are_counted(center, radius, color, params, frame);
    law_core_is_three_tenths(radius, params);
    let x = core_radius(radius, params);
    law_order_is_by_value(zero, x);
    law_order_is_by_value(zero, params.confined().bloom);
    let layers = layers_of(center, radius, color, params, frame);
    let count = satellite_count(params);
    let r = radius.units();
    let bloom = params.bloom.units();
    if 0x20_0000 * (3 * (r * bloom)) > (5 * r + 0x200_0000) * w {
        assert(x.units() > 0 && bloom > 0) by (nonlinear_arith)
            requires
                0x20_0000 * absolute(10 * (x.units() * w) - 3 * (r * bloom)) <= (5 * r
                    + 0x200_0000) * w,
                0x20_0000 * (3 * (r * bloom)) > (5 * r + 0x200_0000) * w,
                0 <= bloom,
                0 <= r,
                w > 0,
        {
            assert((5 * r + 0x200_0000) * w >= 0);
            if bloom == 0 {
                assert(r * bloom == 0);
            }
            if x.units() <= 0 {
                assert(x.units() * w <= 0);
            }
        }
    }
    if has_core(radius, params) {
        let l = core_layer(center, radius, color, params, frame);
        assert(layers[count as int + 1] == l);
        law_layer_is_made_of(
            l.cx,
            l.cy,
            x,
            l.inner,
            l.mid,
            l.edge,
            Single { bits: 0x3F0C_CCCD },
        );
        let c = core_color(color);
        law_white_is_mixed_in(color[0], white, white.units());
        law_white_is_mixed_in(color[1], white, white.units());
        law_white_is_mixed_in(color[2], white, white.units());
        assert(l.inner[0] == c[0] && l.inner[1] == c[1] && l.inner[2] == c[2]);
        assert(l.inner@ =~= seq![c[0], c[1], c[2], 255]);
        assert(l.mid@ =~= seq![c[0], c[1], c[2], 128]);
        assert(l.edge@ =~= seq![c[0], c[1], c[2], 0]);
        law_center_is_off_by_a_quarter(center.0, radius, params, frame.turn.cos);
        law_center_is_off_by_a_quarter(center.1, radius, params, frame.turn.sin);
    }
}

/// A satellite, by value.
pub proof fn law_satellite(
    center: (Single, Single),
    radius: Single,
    color: [u8; 3],
    params: AquarelleParams,
    frame: OrbFrame,
    draw: SatelliteDraw,
    i: int,
)
    requires
        center.0.finite(),
        center.1.finite(),
        radius.finite(),
        0 < radius.units(),
        params.bleed.finite(),
        0 <= params.bleed.units() <= one_unit(),
        0 <= i < satellite_count(params),
        frame.satellites@[i].distance == draw.distance,
        frame.satellites@[i].size == draw.size,
        at_most(Single { bits: DISTANCE_MIN }, draw.distance),
        at_most(draw.distance, Single { bits: DISTANCE_MAX }),
        at_most(Single { bits: SIZE_MIN }, draw.size),
        at_most(draw.size, Single { bits: SIZE_MAX }),
        ({
            let turn = frame.satellites@[i].turn;
            &&& turn.cos.finite()
            &&& absolute(turn.cos.units()) <= 2 * one_unit()
            &&& turn.sin.finite()
            &&& absolute(turn.sin.units()) <= 2 * one_unit()
        }),
    ensures
        is_satellite(
            layers_of(center, radius, color, params, frame)[1 + i],
            center,
            radius,
            params.bleed.units(),
            draw,
            frame.satellites@[i].turn,
            frame.bleed_color,
        ),
{
    lemma_constants();
    law_order_is_by_value(radius, Single { bits: ZERO });
    let place = frame.satellites@[i];
    let l = layers_of(center, radius, color, params, frame)[1 + i];
    assert(l == satellite_layer(center, radius, params, frame.bleed_color, place));
    law_layer_is_made_of(
        l.cx,
        l.cy,
        l.radius,
        l.inner,
        l.mid,
        l.edge,
        Single { bits: 0x3F00_0000 },
    );
    let c = frame.bleed_color;
    assert(l.inner@ =~= seq![c[0], c[1], c[2], 100]);
    assert(l.mid@ =~= seq![c[0], c[1], c[2], 50]);
    assert(l.edge@ =~= seq![c[0], c[1], c[2], 0]);
    lemma_drawn_part(DISTANCE_MIN, DISTANCE_MAX, draw.distance);
    lemma_drawn_part(SIZE_MIN, SIZE_MAX, draw.size);
    law_satellite_is_sized(radius, params, draw.size);
    law_satellites_lie_at(center, radius, color, params, frame, i);
    if is_unit(place.turn.cos, place.turn.sin, 0x10_0000) {
        law_satellites_lie_apart(center, radius, color, params, frame, i);
    }
}

/// What lies between two numbers in `0..=1` lies there too.
proof fn lemma_drawn_part(low: u32, high: u32, x: Single)
    requires
        0 < low <= high < 0x3F80_0000,
        at_most(Single { bits: low }, x),
        at_most(x, Single { bits: high }),
    ensures
        x.finite(),
        0 <= x.units() <= one_unit(),
{
    lemma_constants();
    let a = Single { bits: low };
    let b = Single { bits: high };
    lemma_below_one(a);
    lemma_below_one(b);
    assert(x.finite());
    law_order_is_by_value(a, x);
    law_order_is_by_value(x, b);
}

/// The layers of an orb with a positive radius: the main gradient, then a
/// satellite for each that was drawn, then the core. Each satellite lies where
/// the number that was drawn for it puts it.
pub proof fn law_orb_is_made_of<D, S, C, F, G>(
    source: D,
    sin: S,
    cos: C,
    to_hsl: F,
    to_srgb: G,
    center: (Single, Single),
    radius: Single,
    color: [u8; 3],
    seed: u64,
    params: AquarelleParams,
    out: Seq<RadialLayer>,
) -> (r: (OrbDraws, OrbFrame)) where
    D: Fn(ChaCha8Rng, Single, Single) -> (ChaCha8Rng, Single),
    S: Fn(Single) -> Single,
    C: Fn(Single) -> Single,
    F: Fn([Single; 3]) -> [Single; 3],
    G: Fn([Single; 3]) -> [Single; 3],

    requires
        renders(
            source,
            sin,
            cos,
            to_hsl,
            to_srgb,
            center,
            radius,
            color,
            seed,
            params,
            out,
        ),
        center.0.finite(),
        center.1.finite(),
        radius.finite(),
        0 < radius.units(),
        params.bleed.finite(),
        0 <= params.bleed.units() <= one_unit(),
        params.bloom.finite(),
        0 <= params.bloom.units() <= one_unit(),
        params.offset.finite(),
        0 <= params.offset.units() <= one_unit(),
        draws_within(source, DISTANCE_MIN, DISTANCE_MAX),
        draws_within(source, SIZE_MIN, SIZE_MAX),
        turns_are_small(sin, cos),
    ensures
        ({
            let (draws, frame) = r;
            let count = satellite_count(params);
            &&& orb_drawn(source, seed, params, draws)
            &&& saturates_bytes(to_hsl, to_srgb, color, falloff_factor(params), frame.halo_color)
            &&& saturates_bytes(to_hsl, to_srgb, color, satellite_factor(params), frame.bleed_color)
            &&& call_ensures(cos, (draws.angle,), frame.turn.cos)
            &&& call_ensures(sin, (draws.angle,), frame.turn.sin)
            &&& out.len() == count + 1 || out.len() == count + 2
            &&& is_main(
                out[0],
                center,
                radius,
                color,
                params.offset.units(),
                frame.turn,
                frame.halo_color,
            )
            &&& forall|i: int|
                0 <= i < count ==> {
                    let turn = (#[trigger] frame.satellites@[i]).turn;
                    let draw = draws.satellites@[i];
                    &&& call_ensures(cos, (draw.angle,), turn.cos)
                    &&& call_ensures(sin, (draw.angle,), turn.sin)
                    &&& is_satellite(
                        out[1 + i],
                        center,
                        radius,
                        params.bleed.units(),
                        draw,
                        turn,
                        frame.bleed_color,
                    )
                }
            &&& out.len() == count + 2 ==> is_core(
                out[count as int + 1],
                center,
                radius,
                color,
                params.offset.units(),
                params.bloom.units(),
                frame.turn,
            )
        }),
{
    lemma_constants();
    law_order_is_by_value(radius, Single { bits: ZERO });
    let (draws, frame) = choose|draws: OrbDraws, frame: OrbFrame|
        #[trigger] orb_drawn(source, seed, params, draws) && #[trigger] frames(
            sin,
            cos,
            to_hsl,
            to_srgb,
            color,
            params,
            draws,
            frame,
        ) && out == layers_of(center, radius, color, params, frame);
    law_main_gradient(center, radius, color, params, frame);
    law_core(center, radius, color, params, frame);
    let states = choose|states: Seq<ChaCha8Rng>| #[trigger]
        orb_states(source, seed, draws, states);
    assert forall|i: int| 0 <= i < satellite_count(params) implies {
        let turn = (#[trigger] frame.satellites@[i]).turn;
        let draw = draws.satellites@[i];
        &&& call_ensures(cos, (draw.angle,), turn.cos)
        &&& call_ensures(sin, (draw.angle,), turn.sin)
        &&& is_satellite(
            out[1 + i],
            center,
            radius,
            params.bleed.units(),
            draw,
            turn,
            frame.bleed_color,
        )
    } by {
        let draw = draws.satellites@[i];
        lemma_draw_within(source, states[i], draw, states[i + 1]);
        law_satellite(center, radius, color, params, frame, draw, i);
    }
    (draws, frame)
}

/// The numbers of a satellite lie in their ranges.
proof fn lemma_draw_within<D>(
    source: D,
    before: ChaCha8Rng,
    draw: SatelliteDraw,
    after: ChaCha8Rng,
) where D: Fn(ChaCha8Rng, Single, Single) -> (ChaCha8Rng, Single)
    requires
        draws_within(source, DISTANCE_MIN, DISTANCE_MAX),
        draws_within(source, SIZE_MIN, SIZE_MAX),
        satellite_drawn(source, before, draw, after),
    ensures
        at_most(Single { bits: DISTANCE_MIN }, draw.distance),
        at_most(draw.distance, Single { bits: DISTANCE_MAX }),
        at_most(Single { bits: SIZE_MIN }, draw.size),
        at_most(draw.size, Single { bits: SIZE_MAX }),
{
    let (one, two) = choose|one: ChaCha8Rng, two: ChaCha8Rng|
        #[trigger] drawn(source, before, ZERO, AQUA_TAU, one, draw.angle) && #[trigger] drawn(
            source,
            one,
            DISTANCE_MIN,
            DISTANCE_MAX,
            two,
            draw.distance,
        ) && drawn(source, two, SIZE_MIN, SIZE_MAX, after, draw.size);
    assert(drawn(source, one, DISTANCE_MIN, DISTANCE_MAX, two, draw.distance));
    assert(drawn(source, two, SIZE_MIN, SIZE_MAX, after, draw.size));
}

/// Layers are painted one over the other, from the first to the last.
pub proof fn law_layers_are_painted_in_order<P>(
    paint: P,
    before: Pixmap,
    layers: Seq<RadialLayer>,
    after: Pixmap,
) -> (pictures: Seq<Pixmap>) where P: Fn(&Pixmap, RadialLayer) -> Pixmap
    requires
        paints(paint, before, layers, after),
    ensures
        pictures.len() == layers.len() + 1,
        pictures[0] == before,
        pictures[layers.len() as int] == after,
        forall|i: int|
            0 <= i < layers.len() ==> call_ensures(
                paint,
                (&pictures[i], #[trigger] layers[i]),
                pictures[i + 1],
            ),
{
    let pictures = choose|pictures: Seq<Pixmap>| #[trigger]
        pictures_of(paint, before, layers, after, pictures);
    assert forall|i: int| 0 <= i < layers.len() implies call_ensures(
        paint,
        (&pictures[i], #[trigger] layers[i]),
        pictures[i + 1],
    ) by {
        assert(painted(paint, pictures[i], layers[i], pictures[i + 1]));
    }
    pictures
}

/// Each layer of an orb is painted over what those below it have left, from the
/// first to the last. An orb whose radius is not positive leaves the pixmap as
/// it is.
pub proof fn law_orb_is_painted_in_order<D, S, C, F, G, P>(
    source: D,
    sin: S,
    cos: C,
    to_hsl: F,
    to_srgb: G,
    paint: P,
    before: Pixmap,
    center: (Single, Single),
    radius: Single,
    color: [u8; 3],
    seed: u64,
    params: AquarelleParams,
    after: Pixmap,
) -> (r: (Seq<RadialLayer>, Seq<Pixmap>)) where
    D: Fn(ChaCha8Rng, Single, Single) -> (ChaCha8Rng, Single),
    S: Fn(Single) -> Single,
    C: Fn(Single) -> Single,
    F: Fn([Single; 3]) -> [Single; 3],
    G: Fn([Single; 3]) -> [Single; 3],
    P: Fn(&Pixmap, RadialLayer) -> Pixmap,

    requires
        composites(
            source,
            sin,
            cos,
            to_hsl,
            to_srgb,
            paint,
            before,
            center,
            radius,
            color,
            seed,
            params,
            after,
        ),
    ensures
        ({
            let (layers, pictures) = r;
            &&& renders(
                source,
                sin,
                cos,
                to_hsl,
                to_srgb,
                center,
                radius,
                color,
                seed,
                params,
                layers,
            )
            &&& radius.finite() && radius.units() <= 0 ==> layers.len() == 0 && after == before
            &&& pictures.len() == layers.len() + 1
            &&& pictures[0] == before
            &&& pictures[layers.len() as int] == after
            &&& forall|i: int|
                0 <= i < layers.len() ==> call_ensures(
                    paint,
                    (&pictures[i], #[trigger] layers[i]),
                    pictures[i + 1],
                )
        }),
{
    let zero = Single { bits: ZERO };
    lemma_constants();
    if radius.finite() {
        law_order_is_by_value(radius, zero);
    }
    if at_most(radius, zero) {
        (Seq::empty(), seq![before])
    } else {
        let layers = choose|layers: Seq<RadialLayer>|
            #[trigger] renders(
                source,
                sin,
                cos,
                to_hsl,
                to_srgb,
                center,
                radius,
                color,
                seed,
                params,
                layers,
            ) && paints(paint, before, layers, after);
        let pictures = law_layers_are_painted_in_order(paint, before, layers, after);
        (layers, pictures)
    }
}

} // verus!
