//! The watercolor orb, as the radial gradients that it is painted with.
//!
//! An orb is a main gradient with a saturated falloff, a few satellites around
//! it and a near-white core. This module decides where each of them lies, how
//! large it is and what colors it has, and paints them one over the other. How a
//! number is drawn from a range, the functions of angles, the conversions of
//! color and how one gradient is painted are the caller's.

use rand_chacha::ChaCha8Rng;
use tiny_skia::Pixmap;
use vstd::prelude::*;

pub mod laws;
pub mod pictures;
pub mod places;
pub mod sizes;
pub mod whole;

use crate::color::{
    boost_saturation, clamp_unit, color_with_alpha, converts, mix_with_white, saturates_bytes,
    unit_interval, whitened,
};
use crate::draw::{draw_from, drawn, draws_from, seed_generator, seeded_state};
use crate::single::arith::{product, sum};
use crate::single::convert::{rounded, saturated};
use crate::single::order::{at_most, below, confined};
use crate::single::{Single, HALF, ONE, THREE, ZERO};
use crate::spiral::{takes_angles, AQUA_TAU};

verus! {

/// The bits of 0.25, the part of the radius that a full offset moves the
/// gradient's center by.
pub const OFFSET_REACH: u32 = 0x3E80_0000;

/// The bits of 0.6, the gain of saturation in the falloff at full halo.
pub const FALLOFF_GAIN: u32 = 0x3F19_999A;

/// The bits of 0.4, the gain of saturation in the satellites at full halo.
pub const SATELLITE_GAIN: u32 = 0x3ECC_CCCD;

/// The bits of 0.3, the part of the radius that a full bloom fills.
pub const CORE_REACH: u32 = 0x3E99_999A;

/// The bits of 0.7, how far the core is mixed towards white.
pub const CORE_WHITE: u32 = 0x3F33_3333;

/// The bits of 0.55, where the middle color of the orb and of its core lies.
pub const ORB_STOP: u32 = 0x3F0C_CCCD;

/// The bits of 0.05, the least position of a middle color.
pub const STOP_MIN: u32 = 0x3D4C_CCCD;

/// The bits of 0.95, the greatest position of a middle color.
pub const STOP_MAX: u32 = 0x3F73_3333;

/// The bits of 1.5, the radius of the painted circle over that of the
/// gradient.
pub const PAINT_REACH: u32 = 0x3FC0_0000;

/// The bits of 0.4, the least distance of a satellite over the radius.
pub const DISTANCE_MIN: u32 = 0x3ECC_CCCD;

/// The bits of 0.9, the bound of that distance.
pub const DISTANCE_MAX: u32 = 0x3F66_6666;

/// The bits of 0.2, the least size of a satellite over the radius.
pub const SIZE_MIN: u32 = 0x3E4C_CCCD;

/// The bits of 0.4, the bound of that size.
pub const SIZE_MAX: u32 = 0x3ECC_CCCD;

/// Intensities of the four elements of an orb. Each counts in `0..=1`; values
/// outside are drawn into it, so raw slider values can be passed.
#[derive(Debug, Clone, Copy)]
pub struct AquarelleParams {
    /// Number and strength of the satellites: none at zero, three of full size
    /// at one.
    pub bleed: Single,
    /// The white core: none at zero, the inner 30 % of the radius at one.
    pub bloom: Single,
    /// How far the gradient's center lies off the geometric one: concentric at
    /// zero, by a quarter of the radius at one.
    pub offset: Single,
    /// Saturation boost of the falloff: none at zero, by 1.6 at one.
    pub halo: Single,
}

impl Default for AquarelleParams {
    /// Every element at one half.
    fn default() -> (r: Self)
        ensures
            r.bleed.bits == HALF,
            r.bloom.bits == HALF,
            r.offset.bits == HALF,
            r.halo.bits == HALF,
    {
        AquarelleParams {
            bleed: Single::from_bits(HALF),
            bloom: Single::from_bits(HALF),
            offset: Single::from_bits(HALF),
            halo: Single::from_bits(HALF),
        }
    }
}

impl AquarelleParams {
    /// Every field drawn into `0..=1`.
    pub open spec fn confined(self) -> AquarelleParams {
        AquarelleParams {
            bleed: unit_interval(self.bleed),
            bloom: unit_interval(self.bloom),
            offset: unit_interval(self.offset),
            halo: unit_interval(self.halo),
        }
    }

    /// A copy with every field drawn into `0..=1`, as an orb takes them.
    pub fn clamped(self) -> (r: Self)
        ensures
            r == self.confined(),
    {
        AquarelleParams {
            bleed: clamp_unit(self.bleed),
            bloom: clamp_unit(self.bloom),
            offset: clamp_unit(self.offset),
            halo: clamp_unit(self.halo),
        }
    }
}

/// One radial gradient, from the center over a middle color to the edge, and
/// the circle that is painted with it.
#[derive(Debug, Clone, Copy)]
pub struct RadialLayer {
    /// The center's x.
    pub cx: Single,
    /// The center's y.
    pub cy: Single,
    /// The radius of the gradient.
    pub radius: Single,
    /// The straight RGBA color at the center.
    pub inner: [u8; 4],
    /// The straight RGBA color at `mid_stop`.
    pub mid: [u8; 4],
    /// The straight RGBA color at the radius and beyond.
    pub edge: [u8; 4],
    /// Where the middle color lies, as a part of the radius.
    pub mid_stop: Single,
    /// The radius of the painted circle.
    pub reach: Single,
}

/// The layer with the given center, radius and colors.
pub open spec fn layer(
    cx: Single,
    cy: Single,
    radius: Single,
    inner: [u8; 4],
    mid: [u8; 4],
    edge: [u8; 4],
    mid_stop: Single,
) -> RadialLayer {
    RadialLayer {
        cx,
        cy,
        radius,
        inner,
        mid,
        edge,
        mid_stop: confined(mid_stop, Single { bits: STOP_MIN }, Single { bits: STOP_MAX }),
        reach: product(radius, Single { bits: PAINT_REACH }),
    }
}

/// The layer with the given center, radius and colors. The position of the
/// middle color is kept off both ends, and the painted circle reaches half a
/// radius past the gradient.
pub fn radial_layer(
    cx: Single,
    cy: Single,
    radius: Single,
    inner: [u8; 4],
    mid: [u8; 4],
    edge: [u8; 4],
    mid_stop: Single,
) -> (r: RadialLayer)
    ensures
        r == layer(cx, cy, radius, inner, mid, edge, mid_stop),
{
    RadialLayer {
        cx,
        cy,
        radius,
        inner,
        mid,
        edge,
        mid_stop: mid_stop.clamp(Single::from_bits(STOP_MIN), Single::from_bits(STOP_MAX)),
        reach: radius.times(Single::from_bits(PAINT_REACH)),
    }
}

/// A direction, by its cosine and sine.
#[derive(Debug, Clone, Copy)]
pub struct Turn {
    /// The cosine of the angle.
    pub cos: Single,
    /// The sine of the angle.
    pub sin: Single,
}

/// The random numbers of one satellite.
#[derive(Debug, Clone, Copy)]
pub struct SatelliteDraw {
    /// The angle from the orb's center.
    pub angle: Single,
    /// The distance, as a part of the orb's radius.
    pub distance: Single,
    /// The size, as a part of the orb's radius.
    pub size: Single,
}

/// The random numbers of one orb, in the order in which they are drawn: the
/// angle of the offset, then angle, distance and size of each satellite.
#[derive(Debug)]
pub struct OrbDraws {
    /// The angle of the offset.
    pub angle: Single,
    /// The satellites.
    pub satellites: Vec<SatelliteDraw>,
}

/// Where one satellite lies.
#[derive(Debug, Clone, Copy)]
pub struct SatellitePlace {
    /// The direction from the orb's center.
    pub turn: Turn,
    /// The distance, as a part of the orb's radius.
    pub distance: Single,
    /// The size, as a part of the orb's radius.
    pub size: Single,
}

/// What an orb takes from outside: directions and saturated colors.
#[derive(Debug)]
pub struct OrbFrame {
    /// The direction of the offset.
    pub turn: Turn,
    /// The color of the falloff.
    pub halo_color: [u8; 3],
    /// The color of the satellites.
    pub bleed_color: [u8; 3],
    /// The satellites.
    pub satellites: Vec<SatellitePlace>,
}

/// The number of satellites: three times `bleed`, rounded.
pub open spec fn satellite_count(params: AquarelleParams) -> nat {
    saturated(
        rounded(product(Single { bits: THREE }, params.confined().bleed)),
        u32::MAX as nat,
    )
}

/// How many satellites an orb has, and so how many [`SatelliteDraw`] it takes.
pub fn count_satellites(params: AquarelleParams) -> (r: u32)
    ensures
        r == satellite_count(params),
{
    Single::from_bits(THREE).times(clamp_unit(params.bleed)).round().to_u32()
}

/// How far the gradient's center lies off the geometric one.
pub open spec fn offset_distance(radius: Single, params: AquarelleParams) -> Single {
    product(product(radius, Single { bits: OFFSET_REACH }), params.confined().offset)
}

/// The factor of saturation in the falloff.
pub open spec fn falloff_factor(params: AquarelleParams) -> Single {
    sum(
        Single { bits: ONE },
        product(Single { bits: FALLOFF_GAIN }, params.confined().halo),
    )
}

/// The factor of saturation in the satellites.
pub open spec fn satellite_factor(params: AquarelleParams) -> Single {
    sum(
        Single { bits: ONE },
        product(Single { bits: SATELLITE_GAIN }, params.confined().halo),
    )
}

/// A point moved from `origin` in a direction by a distance, along one axis.
pub open spec fn moved(origin: Single, distance: Single, direction: Single) -> Single {
    sum(origin, product(distance, direction))
}

/// `rgb` with alpha `a`.
pub open spec fn rgba(rgb: [u8; 3], a: u8) -> [u8; 4] {
    [rgb[0], rgb[1], rgb[2], a]
}

/// The gradient's center along one axis.
pub open spec fn gradient_center(
    origin: Single,
    radius: Single,
    params: AquarelleParams,
    direction: Single,
) -> Single {
    moved(origin, offset_distance(radius, params), direction)
}

/// The main gradient.
pub open spec fn main_layer(
    center: (Single, Single),
    radius: Single,
    color: [u8; 3],
    params: AquarelleParams,
    frame: OrbFrame,
) -> RadialLayer {
    layer(
        gradient_center(center.0, radius, params, frame.turn.cos),
        gradient_center(center.1, radius, params, frame.turn.sin),
        radius,
        rgba(color, 255),
        rgba(frame.halo_color, 128),
        rgba(frame.halo_color, 0),
        Single { bits: ORB_STOP },
    )
}

/// The radius of a satellite.
pub open spec fn satellite_radius(
    radius: Single,
    params: AquarelleParams,
    size: Single,
) -> Single {
    product(
        product(radius, size),
        sum(
            Single { bits: HALF },
            product(Single { bits: HALF }, params.confined().bleed),
        ),
    )
}

/// One satellite.
pub open spec fn satellite_layer(
    center: (Single, Single),
    radius: Single,
    params: AquarelleParams,
    bleed_color: [u8; 3],
    place: SatellitePlace,
) -> RadialLayer {
    let distance = product(radius, place.distance);
    layer(
        moved(center.0, distance, place.turn.cos),
        moved(center.1, distance, place.turn.sin),
        satellite_radius(radius, params, place.size),
        rgba(bleed_color, 100),
        rgba(bleed_color, 50),
        rgba(bleed_color, 0),
        Single { bits: HALF },
    )
}

/// The radius of the core.
pub open spec fn core_radius(radius: Single, params: AquarelleParams) -> Single {
    product(product(radius, Single { bits: CORE_REACH }), params.confined().bloom)
}

/// Whether there is a core.
pub open spec fn has_core(radius: Single, params: AquarelleParams) -> bool {
    below(Single { bits: ZERO }, params.confined().bloom) && below(
        Single { bits: ZERO },
        core_radius(radius, params),
    )
}

/// The color of the core.
pub open spec fn core_color(color: [u8; 3]) -> [u8; 3] {
    [
        whitened(color[0], Single { bits: CORE_WHITE }),
        whitened(color[1], Single { bits: CORE_WHITE }),
        whitened(color[2], Single { bits: CORE_WHITE }),
    ]
}

/// The core.
pub open spec fn core_layer(
    center: (Single, Single),
    radius: Single,
    color: [u8; 3],
    params: AquarelleParams,
    frame: OrbFrame,
) -> RadialLayer {
    layer(
        gradient_center(center.0, radius, params, frame.turn.cos),
        gradient_center(center.1, radius, params, frame.turn.sin),
        core_radius(radius, params),
        rgba(core_color(color), 255),
        rgba(core_color(color), 128),
        rgba(core_color(color), 0),
        Single { bits: ORB_STOP },
    )
}

/// The layers of an orb, from the lowest up: nothing where the radius is not
/// positive; else the main gradient, the satellites and the core.
pub open spec fn layers_of(
    center: (Single, Single),
    radius: Single,
    color: [u8; 3],
    params: AquarelleParams,
    frame: OrbFrame,
) -> Seq<RadialLayer> {
    if at_most(radius, Single { bits: ZERO }) {
        Seq::empty()
    } else {
        seq![main_layer(center, radius, color, params, frame)] + Seq::new(
            satellite_count(params),
            |i: int|
                satellite_layer(center, radius, params, frame.bleed_color, frame.satellites@[i]),
        ) + if has_core(radius, params) {
            seq![core_layer(center, radius, color, params, frame)]
        } else {
            Seq::empty()
        }
    }
}

/// The layers of an orb whose directions and saturated colors are known.
pub fn orb_layers(
    center: (Single, Single),
    radius: Single,
    color: [u8; 3],
    params: AquarelleParams,
    frame: &OrbFrame,
) -> (r: Vec<RadialLayer>)
    requires
        !at_most(radius, Single { bits: ZERO }) ==> frame.satellites@.len() >= satellite_count(
            params,
        ),
    ensures
        r@ == layers_of(center, radius, color, params, *frame),
{
    let mut layers: Vec<RadialLayer> = Vec::new();
    if radius.no_more_than(Single::from_bits(ZERO)) {
        return layers;
    }
    let p = params.clamped();
    let half = Single::from_bits(HALF);
    let off = radius.times(Single::from_bits(OFFSET_REACH)).times(p.offset);
    let cx = center.0.plus(off.times(frame.turn.cos));
    let cy = center.1.plus(off.times(frame.turn.sin));
    let stop = Single::from_bits(ORB_STOP);
    let halo = frame.halo_color;
    layers.push(
        radial_layer(
            cx,
            cy,
            radius,
            color_with_alpha(color, 255),
            color_with_alpha(halo, 128),
            color_with_alpha(halo, 0),
            stop,
        ),
    );
    let count = count_satellites(params);
    let bleed = frame.bleed_color;
    let mut k: u32 = 0;
    let ghost main = main_layer(center, radius, color, params, *frame);
    let ghost around = Seq::new(
        satellite_count(params),
        |i: int| satellite_layer(center, radius, params, frame.bleed_color, frame.satellites@[i]),
    );
    assert(layers@ =~= seq![main] + around.take(0));
    while k < count
        invariant
            k <= count,
            count == satellite_count(params),
            frame.satellites@.len() >= count,
            p == params.confined(),
            half.bits == HALF,
            bleed == frame.bleed_color,
            around == Seq::new(
                satellite_count(params),
                |i: int|
                    satellite_layer(
                        center,
                        radius,
                        params,
                        frame.bleed_color,
                        frame.satellites@[i],
                    ),
            ),
            layers@ == seq![main] + around.take(k as int),
        decreases count - k,
    {
        let place = frame.satellites[k as usize];
        let distance = radius.times(place.distance);
        let sx = center.0.plus(distance.times(place.turn.cos));
        let sy = center.1.plus(distance.times(place.turn.sin));
        let size = radius.times(place.size).times(half.plus(half.times(p.bleed)));
        layers.push(
            radial_layer(
                sx,
                sy,
                size,
                color_with_alpha(bleed, 100),
                color_with_alpha(bleed, 50),
                color_with_alpha(bleed, 0),
                half,
            ),
        );
        proof {
            assert(around.take(k + 1) =~= around.take(k as int).push(around[k as int]));
            assert(layers@ =~= seq![main] + around.take(k + 1));
        }
        k = k + 1;
    }
    assert(around.take(k as int) =~= around);
    let zero = Single::from_bits(ZERO);
    if zero.less_than(p.bloom) {
        let core = radius.times(Single::from_bits(CORE_REACH)).times(p.bloom);
        if zero.less_than(core) {
            let white = mix_with_white(color, Single::from_bits(CORE_WHITE));
            layers.push(
                radial_layer(
                    cx,
                    cy,
                    core,
                    color_with_alpha(white, 255),
                    color_with_alpha(white, 128),
                    color_with_alpha(white, 0),
                    stop,
                ),
            );
        }
    }
    assert(layers@ =~= layers_of(center, radius, color, params, *frame));
    layers
}

/// In the state `before`, the numbers of one satellite may be `draw` and leave
/// the state `after`.
pub open spec fn satellite_drawn<D>(
    source: D,
    before: ChaCha8Rng,
    draw: SatelliteDraw,
    after: ChaCha8Rng,
) -> bool where D: Fn(ChaCha8Rng, Single, Single) -> (ChaCha8Rng, Single) {
    exists|one: ChaCha8Rng, two: ChaCha8Rng|
        #[trigger] drawn(source, before, ZERO, AQUA_TAU, one, draw.angle) && #[trigger] drawn(
            source,
            one,
            DISTANCE_MIN,
            DISTANCE_MAX,
            two,
            draw.distance,
        ) && drawn(source, two, SIZE_MIN, SIZE_MAX, after, draw.size)
}

/// The generator runs through `states` while the numbers of an orb are drawn:
/// after the angle of the offset, and after each satellite.
pub open spec fn orb_states<D>(
    source: D,
    seed: u64,
    draws: OrbDraws,
    states: Seq<ChaCha8Rng>,
) -> bool where D: Fn(ChaCha8Rng, Single, Single) -> (ChaCha8Rng, Single) {
    &&& states.len() == draws.satellites@.len() + 1
    &&& drawn(source, seeded_state(seed), ZERO, AQUA_TAU, states[0], draws.angle)
    &&& forall|i: int|
        0 <= i < draws.satellites@.len() ==> satellite_drawn(
            source,
            states[i],
            #[trigger] draws.satellites@[i],
            states[i + 1],
        )
}

/// `draws` are the numbers of an orb, drawn in order from a generator with the
/// given seed.
pub open spec fn orb_drawn<D>(
    source: D,
    seed: u64,
    params: AquarelleParams,
    draws: OrbDraws,
) -> bool where D: Fn(ChaCha8Rng, Single, Single) -> (ChaCha8Rng, Single) {
    &&& draws.satellites@.len() == satellite_count(params)
    &&& exists|states: Seq<ChaCha8Rng>| #[trigger] orb_states(source, seed, draws, states)
}

/// A source of numbers can draw from the ranges of an orb: angles, distances
/// and sizes.
pub open spec fn draws_orb<D>(draw: D) -> bool where
    D: Fn(ChaCha8Rng, Single, Single) -> (ChaCha8Rng, Single),
 {
    &&& draws_from(draw, ZERO, AQUA_TAU)
    &&& draws_from(draw, DISTANCE_MIN, DISTANCE_MAX)
    &&& draws_from(draw, SIZE_MIN, SIZE_MAX)
}

/// Draws the numbers of an orb.
pub fn draw_orb<D>(seed: u64, params: AquarelleParams, draw: &D) -> (r: OrbDraws) where
    D: Fn(ChaCha8Rng, Single, Single) -> (ChaCha8Rng, Single),

    requires
        draws_orb(*draw),
    ensures
        orb_drawn(*draw, seed, params, r),
{
    let count = count_satellites(params);
    let (first, angle) = draw_from(draw, seed_generator(seed), ZERO, AQUA_TAU);
    let mut state = first;
    let ghost mut states: Seq<ChaCha8Rng> = seq![first];
    let mut satellites: Vec<SatelliteDraw> = Vec::new();
    let mut k: u32 = 0;
    while k < count
        invariant
            k <= count,
            draws_orb(*draw),
            satellites@.len() == k,
            states.len() == k + 1,
            states[k as int] == state,
            drawn(*draw, seeded_state(seed), ZERO, AQUA_TAU, states[0], angle),
            forall|i: int|
                0 <= i < k ==> satellite_drawn(
                    *draw,
                    states[i],
                    #[trigger] satellites@[i],
                    states[i + 1],
                ),
        decreases count - k,
    {
        let ghost before = state;
        let (one, angle) = draw_from(draw, state, ZERO, AQUA_TAU);
        let ghost after_angle = one;
        let (two, distance) = draw_from(draw, one, DISTANCE_MIN, DISTANCE_MAX);
        let ghost after_distance = two;
        let (three, size) = draw_from(draw, two, SIZE_MIN, SIZE_MAX);
        let satellite = SatelliteDraw { angle, distance, size };
        proof {
            assert(drawn(*draw, before, ZERO, AQUA_TAU, after_angle, satellite.angle));
            assert(drawn(
                *draw,
                after_angle,
                DISTANCE_MIN,
                DISTANCE_MAX,
                after_distance,
                satellite.distance,
            ));
            assert(satellite_drawn(*draw, before, satellite, three));
            states = states.push(three);
        }
        satellites.push(satellite);
        state = three;
        k = k + 1;
    }
    let draws = OrbDraws { angle, satellites };
    assert(orb_states(*draw, seed, draws, states));
    draws
}

/// `turn` is the direction of an angle, by some answers of sine and cosine.
pub open spec fn turns<S, C>(sin: S, cos: C, angle: Single, turn: Turn) -> bool where
    S: Fn(Single) -> Single,
    C: Fn(Single) -> Single,
 {
    call_ensures(cos, (angle,), turn.cos) && call_ensures(sin, (angle,), turn.sin)
}

/// `frame` is what the draws, the functions of angles and the conversions of
/// color give for an orb.
pub open spec fn frames<S, C, F, G>(
    sin: S,
    cos: C,
    to_hsl: F,
    to_srgb: G,
    color: [u8; 3],
    params: AquarelleParams,
    draws: OrbDraws,
    frame: OrbFrame,
) -> bool where
    S: Fn(Single) -> Single,
    C: Fn(Single) -> Single,
    F: Fn([Single; 3]) -> [Single; 3],
    G: Fn([Single; 3]) -> [Single; 3],
 {
    &&& turns(sin, cos, draws.angle, frame.turn)
    &&& saturates_bytes(to_hsl, to_srgb, color, falloff_factor(params), frame.halo_color)
    &&& saturates_bytes(to_hsl, to_srgb, color, satellite_factor(params), frame.bleed_color)
    &&& frame.satellites@.len() == satellite_count(params)
    &&& forall|i: int|
        0 <= i < satellite_count(params) ==> {
            let place = #[trigger] frame.satellites@[i];
            let draw = draws.satellites@[i];
            &&& turns(sin, cos, draw.angle, place.turn)
            &&& place.distance == draw.distance
            &&& place.size == draw.size
        }
}

fn turn_of<S, C>(angle: Single, sin: &S, cos: &C) -> (r: Turn) where
    S: Fn(Single) -> Single,
    C: Fn(Single) -> Single,

    requires
        takes_angles(*sin),
        takes_angles(*cos),
    ensures
        turns(*sin, *cos, angle, r),
{
    let c = cos(angle);
    let s = sin(angle);
    Turn { cos: c, sin: s }
}

/// The directions and saturated colors of an orb.
pub fn orb_frame<S, C, F, G>(
    color: [u8; 3],
    params: AquarelleParams,
    draws: &OrbDraws,
    sin: &S,
    cos: &C,
    to_hsl: &F,
    to_srgb: &G,
) -> (r: OrbFrame) where
    S: Fn(Single) -> Single,
    C: Fn(Single) -> Single,
    F: Fn([Single; 3]) -> [Single; 3],
    G: Fn([Single; 3]) -> [Single; 3],

    requires
        takes_angles(*sin),
        takes_angles(*cos),
        converts(*to_hsl),
        converts(*to_srgb),
        draws.satellites@.len() >= satellite_count(params),
    ensures
        frames(*sin, *cos, *to_hsl, *to_srgb, color, params, *draws, r),
{
    let p = params.clamped();
    let one = Single::from_bits(ONE);
    let turn = turn_of(draws.angle, sin, cos);
    let falloff = one.plus(Single::from_bits(FALLOFF_GAIN).times(p.halo));
    let halo_color = boost_saturation(color, falloff, to_hsl, to_srgb);
    let around = one.plus(Single::from_bits(SATELLITE_GAIN).times(p.halo));
    let bleed_color = boost_saturation(color, around, to_hsl, to_srgb);
    let count = count_satellites(params);
    let mut satellites: Vec<SatellitePlace> = Vec::new();
    let mut k: u32 = 0;
    while k < count
        invariant
            k <= count,
            count == satellite_count(params),
            draws.satellites@.len() >= count,
            takes_angles(*sin),
            takes_angles(*cos),
            satellites@.len() == k,
            forall|i: int|
                0 <= i < k ==> {
                    let place = #[trigger] satellites@[i];
                    let draw = draws.satellites@[i];
                    &&& turns(*sin, *cos, draw.angle, place.turn)
                    &&& place.distance == draw.distance
                    &&& place.size == draw.size
                },
        decreases count - k,
    {
        let draw = draws.satellites[k as usize];
        let turn = turn_of(draw.angle, sin, cos);
        satellites.push(SatellitePlace { turn, distance: draw.distance, size: draw.size });
        k = k + 1;
    }
    OrbFrame { turn, halo_color, bleed_color, satellites }
}

/// `out` are the layers of an orb: those of some draws from the seed and of
/// what the functions of angles and the conversions of color make of them.
pub open spec fn renders<D, S, C, F, G>(
    source: D,
    sin: S,
    cos: C,
    to_hsl: F,
    to_srgb: G,
    center: (Single, Single),
    radius: Single,
    color: [u8; 3],
    seed: u64,
    params: AquarelleParams,
    out: Seq<RadialLayer>,
) -> bool where
    D: Fn(ChaCha8Rng, Single, Single) -> (ChaCha8Rng, Single),
    S: Fn(Single) -> Single,
    C: Fn(Single) -> Single,
    F: Fn([Single; 3]) -> [Single; 3],
    G: Fn([Single; 3]) -> [Single; 3],
 {
    if at_most(radius, Single { bits: ZERO }) {
        out == Seq::<RadialLayer>::empty()
    } else {
        exists|draws: OrbDraws, frame: OrbFrame|
            #[trigger] orb_drawn(source, seed, params, draws) && #[trigger] frames(
                sin,
                cos,
                to_hsl,
                to_srgb,
                color,
                params,
                draws,
                frame,
            ) && out == layers_of(center, radius, color, params, frame)
    }
}

/// The layers of one orb, from the lowest up.
///
/// `seed` places the gradient's center and the satellites, and `draw` draws
/// from a range without its upper bound. An orb whose radius is not positive
/// has no layers.
pub fn seeded_layers<D, S, C, F, G>(
    center: (Single, Single),
    radius: Single,
    color: [u8; 3],
    seed: u64,
    params: AquarelleParams,
    draw: &D,
    sin: &S,
    cos: &C,
    to_hsl: &F,
    to_srgb: &G,
) -> (r: Vec<RadialLayer>) where
    D: Fn(ChaCha8Rng, Single, Single) -> (ChaCha8Rng, Single),
    S: Fn(Single) -> Single,
    C: Fn(Single) -> Single,
    F: Fn([Single; 3]) -> [Single; 3],
    G: Fn([Single; 3]) -> [Single; 3],

    requires
        draws_orb(*draw),
        takes_angles(*sin),
        takes_angles(*cos),
        converts(*to_hsl),
        converts(*to_srgb),
    ensures
        renders(
            *draw,
            *sin,
            *cos,
            *to_hsl,
            *to_srgb,
            center,
            radius,
            color,
            seed,
            params,
            r@,
        ),
{
    if radius.no_more_than(Single::from_bits(ZERO)) {
        return Vec::new();
    }
    let draws = draw_orb(seed, params, draw);
    let frame = orb_frame(color, params, &draws, sin, cos, to_hsl, to_srgb);
    orb_layers(center, radius, color, params, &frame)
}

/// Painting `layer` onto the pixmap `before` may give `after`.
pub open spec fn painted<P>(
    paint: P,
    before: Pixmap,
    layer: RadialLayer,
    after: Pixmap,
) -> bool where P: Fn(&Pixmap, RadialLayer) -> Pixmap {
    call_ensures(paint, (&before, layer), after)
}

/// A painter takes any pixmap and any layer.
pub open spec fn paints_any<P>(paint: P) -> bool where P: Fn(&Pixmap, RadialLayer) -> Pixmap {
    forall|pixmap: &Pixmap, layer: RadialLayer| call_requires(paint, (pixmap, layer))
}

/// The pixmap runs through `pictures` while one layer after the other is
/// painted.
pub open spec fn pictures_of<P>(
    paint: P,
    before: Pixmap,
    layers: Seq<RadialLayer>,
    after: Pixmap,
    pictures: Seq<Pixmap>,
) -> bool where P: Fn(&Pixmap, RadialLayer) -> Pixmap {
    &&& pictures.len() == layers.len() + 1
    &&& pictures[0] == before
    &&& pictures[layers.len() as int] == after
    &&& forall|i: int|
        0 <= i < layers.len() ==> painted(
            paint,
            pictures[i],
            #[trigger] layers[i],
            pictures[i + 1],
        )
}

/// Painting `layers` in order may turn the pixmap `before` into `after`.
pub open spec fn paints<P>(
    paint: P,
    before: Pixmap,
    layers: Seq<RadialLayer>,
    after: Pixmap,
) -> bool where P: Fn(&Pixmap, RadialLayer) -> Pixmap {
    exists|pictures: Seq<Pixmap>| #[trigger] pictures_of(paint, before, layers, after, pictures)
}

/// `after` is the pixmap `before` with the layers of an orb painted over it.
pub open spec fn composites<D, S, C, F, G, P>(
    source: D,
    sin: S,
    cos: C,
    to_hsl: F,
    to_srgb: G,
    paint: P,
    before: Pixmap,
    center: (Single, Single),
    radius: Single,
    color: [u8; 3],
    seed: u64,
    params: AquarelleParams,
    after: Pixmap,
) -> bool where
    D: Fn(ChaCha8Rng, Single, Single) -> (ChaCha8Rng, Single),
    S: Fn(Single) -> Single,
    C: Fn(Single) -> Single,
    F: Fn([Single; 3]) -> [Single; 3],
    G: Fn([Single; 3]) -> [Single; 3],
    P: Fn(&Pixmap, RadialLayer) -> Pixmap,
 {
    if at_most(radius, Single { bits: ZERO }) {
        after == before
    } else {
        exists|layers: Seq<RadialLayer>|
            #[trigger] renders(
                source,
                sin,
                cos,
                to_hsl,
                to_srgb,
                center,
                radius,
                color,
                seed,
                params,
                layers,
            ) && paints(paint, before, layers, after)
    }
}

fn paint_layer<P>(pixmap: &mut Pixmap, layer: RadialLayer, paint: &P) where
    P: Fn(&Pixmap, RadialLayer) -> Pixmap,

    requires
        paints_any(*paint),
    ensures
        painted(*paint, *old(pixmap), layer, *final(pixmap)),
{
    *pixmap = paint(&*pixmap, layer);
}

/// Paints layers, from the first to the last.
pub fn paint_layers<P>(pixmap: &mut Pixmap, layers: &[RadialLayer], paint: &P) where
    P: Fn(&Pixmap, RadialLayer) -> Pixmap,

    requires
        paints_any(*paint),
    ensures
        paints(*paint, *old(pixmap), layers@, *final(pixmap)),
{
    let ghost before = *pixmap;
    let ghost mut pictures: Seq<Pixmap> = seq![*pixmap];
    let count: usize = layers.len();
    let mut k: usize = 0;
    while k < count
        invariant
            k <= count,
            count == layers@.len(),
            paints_any(*paint),
            pictures.len() == k + 1,
            pictures[0] == before,
            pictures[k as int] == *pixmap,
            forall|i: int|
                0 <= i < k ==> painted(
                    *paint,
                    pictures[i],
                    #[trigger] layers@[i],
                    pictures[i + 1],
                ),
        decreases count - k,
    {
        paint_layer(pixmap, layers[k], paint);
        proof {
            pictures = pictures.push(*pixmap);
        }
        k = k + 1;
    }
    assert(pictures_of(*paint, before, layers@, *pixmap, pictures));
}

/// Composites one orb onto `pixmap`, layer by layer.
///
/// `seed` places the gradient's center and the satellites, `draw` draws from a
/// range without its upper bound, and `paint` gives a pixmap with one layer
/// painted onto it. An orb whose radius is not positive leaves the pixmap as it
/// is.
pub fn render_aquarelle_orb<D, S, C, F, G, P>(
    pixmap: &mut Pixmap,
    center: (Single, Single),
    radius: Single,
    color: [u8; 3],
    seed: u64,
    params: AquarelleParams,
    draw: &D,
    sin: &S,
    cos: &C,
    to_hsl: &F,
    to_srgb: &G,
    paint: &P,
) where
    D: Fn(ChaCha8Rng, Single, Single) -> (ChaCha8Rng, Single),
    S: Fn(Single) -> Single,
    C: Fn(Single) -> Single,
    F: Fn([Single; 3]) -> [Single; 3],
    G: Fn([Single; 3]) -> [Single; 3],
    P: Fn(&Pixmap, RadialLayer) -> Pixmap,

    requires
        draws_orb(*draw),
        takes_angles(*sin),
        takes_angles(*cos),
        converts(*to_hsl),
        converts(*to_srgb),
        paints_any(*paint),
    ensures
        composites(
            *draw,
            *sin,
            *cos,
            *to_hsl,
            *to_srgb,
            *paint,
            *old(pixmap),
            center,
            radius,
            color,
            seed,
            params,
            *final(pixmap),
        ),
{
    if radius.no_more_than(Single::from_bits(ZERO)) {
        return;
    }
    let layers = seeded_layers(
        center,
        radius,
        color,
        seed,
        params,
        draw,
        sin,
        cos,
        to_hsl,
        to_srgb,
    );
    paint_layers(pixmap, layers.as_slice(), paint);
}

} // verus!
