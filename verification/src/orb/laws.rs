//! What an orb promises: its elements stay within their bounds, an element at
//! zero does nothing, and its layers are determined by the seed.

use rand_chacha::ChaCha8Rng;
use vstd::prelude::*;

use super::{
    core_layer, core_radius, falloff_factor, frames, gradient_center, has_core, layers_of,
    main_layer, offset_distance, orb_drawn, orb_states, renders, satellite_count, satellite_drawn,
    satellite_factor, satellite_layer, satellite_radius, turns, AquarelleParams, OrbDraws, OrbFrame,
    RadialLayer, SatelliteDraw, SatellitePlace, CORE_REACH, DISTANCE_MAX, DISTANCE_MIN,
    FALLOFF_GAIN, OFFSET_REACH, SATELLITE_GAIN, SIZE_MAX, SIZE_MIN,
};
use crate::color::laws::{converts_alike, law_boost_is_determined};
use crate::color::{keeps_saturation, saturates_bytes, unit_interval};
use crate::draw::{drawn, draws_alike, draws_within};
use crate::single::arith::{difference, product, sum};
use crate::single::convert::{one_unit, rounded, saturated, whole};
use crate::single::laws::{
    law_confined_lies_within, law_integers_are_exact, law_one_is_neutral, law_product_is_monotone,
    law_zero_absorbs, law_zero_is_neutral, lemma_below_one, lemma_constants, lemma_difference_rank,
    lemma_part, lemma_part_is_finite, lemma_rank_between, lemma_rank_is_value, lemma_sum_rank,
};
use crate::single::nearest::lemma_units_order;
use crate::single::order::{at_most, law_order_is_by_value};
use crate::single::{Single, HALF, ONE, THREE, ZERO};
use crate::spiral::{turns_alike, AQUA_TAU};

verus! {

/// Parameters that are drawn into their range stay when drawn in again.
pub proof fn law_clamping_settles(params: AquarelleParams)
    ensures
        params.confined().confined() == params.confined(),
{
    let zero = Single { bits: ZERO };
    let one = Single { bits: ONE };
    lemma_constants();
    law_order_is_by_value(zero, one);
    law_confined_lies_within(params.bleed, zero, one);
    law_confined_lies_within(params.bloom, zero, one);
    law_confined_lies_within(params.offset, zero, one);
    law_confined_lies_within(params.halo, zero, one);
}

/// What an orb is made of goes by the clamped parameters.
proof fn lemma_orb_parts_clamp(
    center: (Single, Single),
    radius: Single,
    color: [u8; 3],
    params: AquarelleParams,
    frame: OrbFrame,
)
    ensures
        satellite_count(params.confined()) == satellite_count(params),
        falloff_factor(params.confined()) == falloff_factor(params),
        satellite_factor(params.confined()) == satellite_factor(params),
        layers_of(center, radius, color, params.confined(), frame) == layers_of(
            center,
            radius,
            color,
            params,
            frame,
        ),
{
    law_clamping_settles(params);
    assert(layers_of(center, radius, color, params.confined(), frame) =~= layers_of(
        center,
        radius,
        color,
        params,
        frame,
    ));
}

/// Raw parameters give the layers that the clamped ones give.
pub proof fn law_orb_clamps<D, S, C, F, G>(
    source: D,
    sin: S,
    cos: C,
    to_hsl: F,
    to_srgb: G,
    center: (Single, Single),
    radius: Single,
    color: [u8; 3],
    seed: u64,
    params: AquarelleParams,
    out: Seq<RadialLayer>,
) where
    D: Fn(ChaCha8Rng, Single, Single) -> (ChaCha8Rng, Single),
    S: Fn(Single) -> Single,
    C: Fn(Single) -> Single,
    F: Fn([Single; 3]) -> [Single; 3],
    G: Fn([Single; 3]) -> [Single; 3],

    ensures
        renders(source, sin, cos, to_hsl, to_srgb, center, radius, color, seed, params, out)
            <==> renders(
            source,
            sin,
            cos,
            to_hsl,
            to_srgb,
            center,
            radius,
            color,
            seed,
            params.confined(),
            out,
        ),
{
    let p = params;
    let q = params.confined();
    if !at_most(radius, Single { bits: ZERO }) {
        if renders(source, sin, cos, to_hsl, to_srgb, center, radius, color, seed, p, out) {
            let (draws, frame) = choose|draws: OrbDraws, frame: OrbFrame|
                #[trigger] orb_drawn(source, seed, p, draws) && #[trigger] frames(
                    sin,
                    cos,
                    to_hsl,
                    to_srgb,
                    color,
                    p,
                    draws,
                    frame,
                ) && out == layers_of(center, radius, color, p, frame);
            lemma_orb_parts_clamp(center, radius, color, params, frame);
            assert(orb_drawn(source, seed, q, draws));
            assert(frames(sin, cos, to_hsl, to_srgb, color, q, draws, frame));
        }
        if renders(source, sin, cos, to_hsl, to_srgb, center, radius, color, seed, q, out) {
            let (draws, frame) = choose|draws: OrbDraws, frame: OrbFrame|
                #[trigger] orb_drawn(source, seed, q, draws) && #[trigger] frames(
                    sin,
                    cos,
                    to_hsl,
                    to_srgb,
                    color,
                    q,
                    draws,
                    frame,
                ) && out == layers_of(center, radius, color, q, frame);
            lemma_orb_parts_clamp(center, radius, color, params, frame);
            assert(orb_drawn(source, seed, p, draws));
            assert(frames(sin, cos, to_hsl, to_srgb, color, p, draws, frame));
        }
    }
}

/// A clamped parameter is a zero where the raw one is zero or less, and one
/// where it is one or more.
proof fn lemma_clamped_ends(x: Single)
    ensures
        !x.nan() ==> unit_interval(x).finite() && 0 <= unit_interval(x).units() <= one_unit(),
        at_most(x, Single { bits: ZERO }) ==> unit_interval(x).zero(),
        at_most(Single { bits: ONE }, x) ==> unit_interval(x).bits == ONE,
{
    let zero = Single { bits: ZERO };
    let one = Single { bits: ONE };
    lemma_constants();
    law_order_is_by_value(zero, one);
    law_confined_lies_within(x, zero, one);
    if !x.nan() {
        law_order_is_by_value(zero, unit_interval(x));
        law_order_is_by_value(unit_interval(x), one);
    }
}

/// An orb has three satellites at most: none where `bleed` is zero or less,
/// three where it is one or more.
pub proof fn law_satellites_are_few(params: AquarelleParams)
    ensures
        satellite_count(params) <= 3,
        at_most(params.bleed, Single { bits: ZERO }) ==> satellite_count(params) == 0,
        at_most(Single { bits: ONE }, params.bleed) ==> satellite_count(params) == 3,
{
    let three = Single { bits: THREE };
    let t = params.confined().bleed;
    let w = one_unit();
    lemma_constants();
    lemma_clamped_ends(params.bleed);
    let x = product(three, t);
    if !params.bleed.nan() {
        lemma_part(three, t);
        lemma_rounded_count(x, 3);
        if at_most(params.bleed, Single { bits: ZERO }) {
            law_zero_absorbs(three, t);
            lemma_rounded_count(x, 0);
        }
        if at_most(Single { bits: ONE }, params.bleed) {
            law_one_is_neutral(three);
            let n = ((2 * (3 * w) + w) / (2 * w)) as nat;
            vstd::arithmetic::div_mod::lemma_fundamental_div_mod_converse(
                (2 * (3 * w) + w) as int,
                (2 * w) as int,
                3,
                w as int,
            );
            law_integers_are_exact(3);
            assert(rounded(x) == whole(3));
            vstd::arithmetic::div_mod::lemma_fundamental_div_mod_converse(
                (3 * w) as int,
                w as int,
                3,
                0,
            );
        }
    }
}

/// A number of at most `n` rounds to at most `n`.
proof fn lemma_rounded_count(x: Single, n: nat)
    requires
        n <= 3,
        x.finite(),
        0 <= x.units() <= n * one_unit(),
    ensures
        saturated(rounded(x), u32::MAX as nat) <= n,
{
    let w = one_unit();
    lemma_constants();
    if !x.negative() {
        let u = x.absolute_units();
        let k = ((2 * u + w) / (2 * w)) as nat;
        vstd::arithmetic::div_mod::lemma_div_is_ordered(
            (2 * u + w) as int,
            (2 * (n * w) + w) as int,
            (2 * w) as int,
        );
        assert(n * (2 * w) == 2 * (n * w)) by (nonlinear_arith);
        vstd::arithmetic::div_mod::lemma_fundamental_div_mod_converse(
            (2 * (n * w) + w) as int,
            (2 * w) as int,
            n as int,
            w as int,
        );
        law_integers_are_exact(k);
        assert(rounded(x) == whole(k));
        vstd::arithmetic::div_mod::lemma_fundamental_div_mod_converse(
            (k * w) as int,
            w as int,
            k as int,
            0,
        );
    }
}

/// The layers of an orb are the main gradient, the satellites and the core, so
/// between one and five; none where the radius is not positive.
pub proof fn law_layers_are_counted(
    center: (Single, Single),
    radius: Single,
    color: [u8; 3],
    params: AquarelleParams,
    frame: OrbFrame,
)
    ensures
        ({
            let n = layers_of(center, radius, color, params, frame).len();
            if at_most(radius, Single { bits: ZERO }) {
                n == 0
            } else {
                n == 1 + satellite_count(params) + (if has_core(radius, params) {
                    1nat
                } else {
                    0nat
                }) && 1 <= n <= 5
            }
        }),
{
    law_satellites_are_few(params);
}

/// The gradient's center lies off by a quarter of the radius at most: by
/// nothing where `offset` is zero or less, by that quarter where it is one or
/// more.
pub proof fn law_offset_is_bounded(radius: Single, params: AquarelleParams)
    requires
        radius.finite(),
        at_most(Single { bits: ZERO }, radius),
        !params.offset.nan(),
    ensures
        at_most(Single { bits: ZERO }, offset_distance(radius, params)),
        at_most(
            offset_distance(radius, params),
            product(radius, Single { bits: OFFSET_REACH }),
        ),
        at_most(params.offset, Single { bits: ZERO }) ==> offset_distance(radius, params).zero(),
        at_most(Single { bits: ONE }, params.offset) ==> offset_distance(radius, params)
            == product(radius, Single { bits: OFFSET_REACH }),
{
    let reach = Single { bits: OFFSET_REACH };
    let zero = Single { bits: ZERO };
    lemma_constants();
    lemma_below_one(reach);
    law_order_is_by_value(zero, radius);
    let x = product(radius, reach);
    let t = params.confined().offset;
    lemma_clamped_ends(params.offset);
    lemma_part(radius, reach);
    lemma_part(x, t);
    law_order_is_by_value(zero, product(x, t));
    law_order_is_by_value(product(x, t), x);
    if at_most(params.offset, zero) {
        law_zero_absorbs(x, t);
    }
    if at_most(Single { bits: ONE }, params.offset) {
        law_one_is_neutral(x);
    }
}

/// Without an offset the gradient's center is the geometric one.
pub proof fn law_no_offset_is_concentric(
    origin: Single,
    radius: Single,
    params: AquarelleParams,
    direction: Single,
)
    requires
        radius.finite(),
        direction.finite(),
        !origin.nan(),
        at_most(params.offset, Single { bits: ZERO }),
    ensures
        gradient_center(origin, radius, params, direction).rank() == origin.rank(),
        !gradient_center(origin, radius, params, direction).nan(),
{
    let reach = Single { bits: OFFSET_REACH };
    lemma_constants();
    lemma_clamped_ends(params.offset);
    let x = product(radius, reach);
    lemma_below_one(reach);
    lemma_part_is_finite(radius, reach);
    law_zero_absorbs(x, params.confined().offset);
    let d = offset_distance(radius, params);
    law_zero_absorbs(direction, d);
    law_zero_is_neutral(origin, product(d, direction));
}

/// The core fills the inner three tenths of the radius at most. There is none
/// where `bloom` is zero or less.
pub proof fn law_core_is_bounded(radius: Single, params: AquarelleParams)
    requires
        radius.finite(),
        at_most(Single { bits: ZERO }, radius),
        !params.bloom.nan(),
    ensures
        at_most(core_radius(radius, params), product(radius, Single { bits: CORE_REACH })),
        at_most(params.bloom, Single { bits: ZERO }) ==> !has_core(radius, params),
        at_most(Single { bits: ONE }, params.bloom) ==> core_radius(radius, params) == product(
            radius,
            Single { bits: CORE_REACH },
        ),
{
    let reach = Single { bits: CORE_REACH };
    let zero = Single { bits: ZERO };
    lemma_constants();
    lemma_below_one(reach);
    law_order_is_by_value(zero, radius);
    let x = product(radius, reach);
    let t = params.confined().bloom;
    lemma_clamped_ends(params.bloom);
    lemma_part(radius, reach);
    lemma_part(x, t);
    law_order_is_by_value(product(x, t), x);
    if at_most(Single { bits: ONE }, params.bloom) {
        law_one_is_neutral(x);
    }
}

/// Without a halo the falloff and the satellites have the color of the orb.
pub proof fn law_no_halo_keeps_the_color<F, G>(
    to_hsl: F,
    to_srgb: G,
    color: [u8; 3],
    params: AquarelleParams,
    out: [u8; 3],
) where F: Fn([Single; 3]) -> [Single; 3], G: Fn([Single; 3]) -> [Single; 3]
    requires
        at_most(params.halo, Single { bits: ZERO }),
        saturates_bytes(to_hsl, to_srgb, color, falloff_factor(params), out) || saturates_bytes(
            to_hsl,
            to_srgb,
            color,
            satellite_factor(params),
            out,
        ),
    ensures
        out == color,
{
    lemma_clamped_ends(params.halo);
    lemma_neutral_factor(Single { bits: FALLOFF_GAIN }, params.confined().halo);
    lemma_neutral_factor(Single { bits: SATELLITE_GAIN }, params.confined().halo);
}

/// One and a gain of nothing changes no saturation.
proof fn lemma_neutral_factor(gain: Single, halo: Single)
    requires
        gain.finite(),
        halo.zero(),
    ensures
        keeps_saturation(sum(Single { bits: ONE }, product(gain, halo))),
{
    let one = Single { bits: ONE };
    lemma_constants();
    law_zero_absorbs(gain, halo);
    let f = sum(one, product(gain, halo));
    law_zero_is_neutral(one, product(gain, halo));
    lemma_rank_is_value(f, one);
    lemma_difference_rank(f, one);
    let d = difference(f, one);
    lemma_rank_between(d, 0, 1, Single { bits: ZERO }, Single { bits: ZERO });
    lemma_units_order(d.magnitude(), 0);
}

/// Satellites drawn from one state by a source with one answer are the same,
/// and leave the same state.
proof fn lemma_satellite_is_determined<D>(
    source: D,
    before: ChaCha8Rng,
    one: SatelliteDraw,
    after_one: ChaCha8Rng,
    two: SatelliteDraw,
    after_two: ChaCha8Rng,
) where D: Fn(ChaCha8Rng, Single, Single) -> (ChaCha8Rng, Single)
    requires
        draws_alike(source),
        satellite_drawn(source, before, one, after_one),
        satellite_drawn(source, before, two, after_two),
    ensures
        one == two,
        after_one == after_two,
{
    let (a1, b1) = choose|a: ChaCha8Rng, b: ChaCha8Rng|
        #[trigger] drawn(source, before, ZERO, AQUA_TAU, a, one.angle) && #[trigger] drawn(
            source,
            a,
            DISTANCE_MIN,
            DISTANCE_MAX,
            b,
            one.distance,
        ) && drawn(source, b, SIZE_MIN, SIZE_MAX, after_one, one.size);
    let (a2, b2) = choose|a: ChaCha8Rng, b: ChaCha8Rng|
        #[trigger] drawn(source, before, ZERO, AQUA_TAU, a, two.angle) && #[trigger] drawn(
            source,
            a,
            DISTANCE_MIN,
            DISTANCE_MAX,
            b,
            two.distance,
        ) && drawn(source, b, SIZE_MIN, SIZE_MAX, after_two, two.size);
    assert((a1, one.angle) == (a2, two.angle));
    assert((b1, one.distance) == (b2, two.distance));
    assert((after_one, one.size) == (after_two, two.size));
}

proof fn lemma_orb_chain<D>(
    source: D,
    seed: u64,
    one: OrbDraws,
    s: Seq<ChaCha8Rng>,
    two: OrbDraws,
    t: Seq<ChaCha8Rng>,
    k: int,
) where D: Fn(ChaCha8Rng, Single, Single) -> (ChaCha8Rng, Single)
    requires
        draws_alike(source),
        orb_states(source, seed, one, s),
        orb_states(source, seed, two, t),
        0 <= k <= one.satellites@.len(),
        k <= two.satellites@.len(),
    ensures
        one.angle == two.angle,
        s[k] == t[k],
        k > 0 ==> one.satellites@[k - 1] == two.satellites@[k - 1],
    decreases k,
{
    if k == 0 {
        assert((s[0], one.angle) == (t[0], two.angle));
    } else {
        lemma_orb_chain(source, seed, one, s, two, t, k - 1);
        let i = k - 1;
        assert(satellite_drawn(source, s[i], one.satellites@[i], s[i + 1]));
        assert(satellite_drawn(source, t[i], two.satellites@[i], t[i + 1]));
        lemma_satellite_is_determined(
            source,
            s[i],
            one.satellites@[i],
            s[i + 1],
            two.satellites@[i],
            t[i + 1],
        );
    }
}

/// One seed gives one set of draws, where the source has one answer. Another
/// number of satellites leaves the angle and the satellites in common as they
/// are.
pub proof fn law_draws_are_determined<D>(
    source: D,
    seed: u64,
    p: AquarelleParams,
    q: AquarelleParams,
    one: OrbDraws,
    two: OrbDraws,
) where D: Fn(ChaCha8Rng, Single, Single) -> (ChaCha8Rng, Single)
    requires
        draws_alike(source),
        orb_drawn(source, seed, p, one),
        orb_drawn(source, seed, q, two),
    ensures
        one.angle == two.angle,
        forall|k: int|
            0 <= k < satellite_count(p) && k < satellite_count(q) ==> #[trigger] one.satellites@[k]
                == two.satellites@[k],
        satellite_count(p) == satellite_count(q) ==> one.satellites@ == two.satellites@,
{
    let s = choose|states: Seq<ChaCha8Rng>| #[trigger] orb_states(source, seed, one, states);
    let t = choose|states: Seq<ChaCha8Rng>| #[trigger] orb_states(source, seed, two, states);
    lemma_orb_chain(source, seed, one, s, two, t, 0);
    assert forall|k: int| 0 <= k < satellite_count(p) && k < satellite_count(q) implies
        #[trigger] one.satellites@[k] == two.satellites@[k] by {
        lemma_orb_chain(source, seed, one, s, two, t, k + 1);
    }
    if satellite_count(p) == satellite_count(q) {
        assert(one.satellites@ =~= two.satellites@);
    }
}

/// The knobs do not touch each other: `offset` places the main gradient,
/// `bleed` sizes the satellites, `bloom` and `offset` make the core, `halo`
/// saturates, and nothing else goes into any of them.
pub proof fn law_knobs_are_independent(
    center: (Single, Single),
    radius: Single,
    color: [u8; 3],
    p: AquarelleParams,
    q: AquarelleParams,
    frame: OrbFrame,
    bleed_color: [u8; 3],
    place: SatellitePlace,
)
    ensures
        p.offset == q.offset ==> main_layer(center, radius, color, p, frame) == main_layer(
            center,
            radius,
            color,
            q,
            frame,
        ),
        p.bleed == q.bleed ==> satellite_count(p) == satellite_count(q) && satellite_layer(
            center,
            radius,
            p,
            bleed_color,
            place,
        ) == satellite_layer(center, radius, q, bleed_color, place),
        p.bloom == q.bloom ==> has_core(radius, p) == has_core(radius, q),
        p.bloom == q.bloom && p.offset == q.offset ==> core_layer(center, radius, color, p, frame)
            == core_layer(center, radius, color, q, frame),
        p.halo == q.halo ==> falloff_factor(p) == falloff_factor(q) && satellite_factor(p)
            == satellite_factor(q),
{
}

/// A satellite is as large as its size asks for at most, and just so where
/// `bleed` is one or more.
pub proof fn law_satellites_grow_with_bleed(
    radius: Single,
    params: AquarelleParams,
    size: Single,
)
    requires
        product(radius, size).finite(),
        at_most(Single { bits: ZERO }, product(radius, size)),
        !params.bleed.nan(),
    ensures
        at_most(Single { bits: ZERO }, satellite_radius(radius, params, size)),
        at_most(satellite_radius(radius, params, size), product(radius, size)),
        at_most(Single { bits: ONE }, params.bleed) ==> satellite_radius(radius, params, size)
            == product(radius, size),
{
    let zero = Single { bits: ZERO };
    let one = Single { bits: ONE };
    let half = Single { bits: HALF };
    let x = product(radius, size);
    let t = params.confined().bleed;
    lemma_constants();
    lemma_clamped_ends(params.bleed);
    law_order_is_by_value(zero, x);
    lemma_part(half, t);
    let part = product(half, t);
    let f = sum(half, part);
    lemma_sum_rank(half, part);
    lemma_rank_between(f, half.units() + part.units(), 1, zero, one);
    lemma_part(x, f);
    law_order_is_by_value(zero, product(x, f));
    law_order_is_by_value(product(x, f), x);
    if at_most(one, params.bleed) {
        law_one_is_neutral(half);
        lemma_rank_between(f, one_unit() as int, 1, one, one);
        assert(f.rank() == one.rank());
        assert(f == one);
        law_one_is_neutral(x);
    }
}

/// A satellite lies 0.4 to 0.9 of the radius away and asks for a size of 0.2 to
/// 0.4 of it, where what is drawn lies in its range.
pub proof fn law_satellites_lie_around<D>(
    source: D,
    before: ChaCha8Rng,
    after: ChaCha8Rng,
    draw: SatelliteDraw,
    radius: Single,
) where D: Fn(ChaCha8Rng, Single, Single) -> (ChaCha8Rng, Single)
    requires
        draws_within(source, DISTANCE_MIN, DISTANCE_MAX),
        draws_within(source, SIZE_MIN, SIZE_MAX),
        satellite_drawn(source, before, draw, after),
        radius.finite(),
        at_most(Single { bits: ZERO }, radius),
    ensures
        at_most(product(radius, Single { bits: DISTANCE_MIN }), product(radius, draw.distance)),
        at_most(product(radius, draw.distance), product(radius, Single { bits: DISTANCE_MAX })),
        at_most(product(radius, Single { bits: SIZE_MIN }), product(radius, draw.size)),
        at_most(product(radius, draw.size), product(radius, Single { bits: SIZE_MAX })),
{
    let near = Single { bits: DISTANCE_MIN };
    let far = Single { bits: DISTANCE_MAX };
    let small = Single { bits: SIZE_MIN };
    let large = Single { bits: SIZE_MAX };
    let (one, two) = choose|one: ChaCha8Rng, two: ChaCha8Rng|
        #[trigger] drawn(source, before, ZERO, AQUA_TAU, one, draw.angle) && #[trigger] drawn(
            source,
            one,
            DISTANCE_MIN,
            DISTANCE_MAX,
            two,
            draw.distance,
        ) && drawn(source, two, SIZE_MIN, SIZE_MAX, after, draw.size);
    assert(at_most(near, draw.distance) && at_most(draw.distance, far));
    assert(drawn(source, two, SIZE_MIN, SIZE_MAX, after, draw.size));
    assert(at_most(small, draw.size) && at_most(draw.size, large));
    law_product_is_monotone(near, draw.distance, radius);
    law_product_is_monotone(draw.distance, far, radius);
    law_product_is_monotone(small, draw.size, radius);
    law_product_is_monotone(draw.size, large, radius);
}

/// Center, radius, color, seed and parameters determine the layers of an orb,
/// where every function that is handed in gives one answer.
pub proof fn law_orb_is_determined<D, S, C, F, G>(
    source: D,
    sin: S,
    cos: C,
    to_hsl: F,
    to_srgb: G,
    center: (Single, Single),
    radius: Single,
    color: [u8; 3],
    seed: u64,
    params: AquarelleParams,
    one: Seq<RadialLayer>,
    two: Seq<RadialLayer>,
) where
    D: Fn(ChaCha8Rng, Single, Single) -> (ChaCha8Rng, Single),
    S: Fn(Single) -> Single,
    C: Fn(Single) -> Single,
    F: Fn([Single; 3]) -> [Single; 3],
    G: Fn([Single; 3]) -> [Single; 3],

    requires
        draws_alike(source),
        turns_alike(sin),
        turns_alike(cos),
        converts_alike(to_hsl),
        converts_alike(to_srgb),
        renders(
            source,
            sin,
            cos,
            to_hsl,
            to_srgb,
            center,
            radius,
            color,
            seed,
            params,
            one,
        ),
        renders(
            source,
            sin,
            cos,
            to_hsl,
            to_srgb,
            center,
            radius,
            color,
            seed,
            params,
            two,
        ),
    ensures
        one == two,
{
    if !at_most(radius, Single { bits: ZERO }) {
        let (d1, f1) = choose|draws: OrbDraws, frame: OrbFrame|
            #[trigger] orb_drawn(source, seed, params, draws) && #[trigger] frames(
                sin,
                cos,
                to_hsl,
                to_srgb,
                color,
                params,
                draws,
                frame,
            ) && one == layers_of(center, radius, color, params, frame);
        let (d2, f2) = choose|draws: OrbDraws, frame: OrbFrame|
            #[trigger] orb_drawn(source, seed, params, draws) && #[trigger] frames(
                sin,
                cos,
                to_hsl,
                to_srgb,
                color,
                params,
                draws,
                frame,
            ) && two == layers_of(center, radius, color, params, frame);
        law_draws_are_determined(source, seed, params, params, d1, d2);
        law_boost_is_determined(
            to_hsl,
            to_srgb,
            color,
            falloff_factor(params),
            f1.halo_color,
            f2.halo_color,
        );
        law_boost_is_determined(
            to_hsl,
            to_srgb,
            color,
            satellite_factor(params),
            f1.bleed_color,
            f2.bleed_color,
        );
        assert(turns(sin, cos, d1.angle, f1.turn));
        assert(turns(sin, cos, d2.angle, f2.turn));
        assert(f1.turn == f2.turn);
        assert forall|i: int| 0 <= i < satellite_count(params) implies #[trigger] f1.satellites@[i]
            == f2.satellites@[i] by {
            let p1 = f1.satellites@[i];
            let p2 = f2.satellites@[i];
            assert(d1.satellites@[i] == d2.satellites@[i]);
            assert(turns(sin, cos, d1.satellites@[i].angle, p1.turn));
            assert(turns(sin, cos, d2.satellites@[i].angle, p2.turn));
        }
        assert(one =~= two);
    }
}

} // verus!
