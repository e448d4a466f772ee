//! What is promised of the picture an orb is painted onto: the same arguments
//! give the same picture, and the seed only places things.

use rand_chacha::ChaCha8Rng;
use tiny_skia::Pixmap;
use vstd::prelude::*;

use super::laws::{
    law_no_offset_is_concentric, law_orb_clamps, law_orb_is_determined, law_satellites_are_few,
};
use super::{
    composites, falloff_factor, frames, has_core, layers_of, orb_drawn, painted, paints,
    pictures_of, renders, AquarelleParams, OrbDraws, OrbFrame, RadialLayer,
};
use crate::color::laws::{converts_alike, law_boost_is_determined};
use crate::draw::draws_alike;
use crate::pixmap::{pixmap_bytes, pixmap_height, pixmap_width};
use crate::single::order::{at_most, same};
use crate::single::{Single, ZERO};
use crate::spiral::turns_alike;

verus! {

/// Two pixmaps have the same size and the same bytes.
pub open spec fn same_picture(a: Pixmap, b: Pixmap) -> bool {
    &&& pixmap_bytes(a) == pixmap_bytes(b)
    &&& pixmap_width(a) == pixmap_width(b)
    &&& pixmap_height(a) == pixmap_height(b)
}

/// Two layers are equal, their centers at least by value.
pub open spec fn alike(a: RadialLayer, b: RadialLayer) -> bool {
    &&& a.cx == b.cx || same(a.cx, b.cx)
    &&& a.cy == b.cy || same(a.cy, b.cy)
    &&& a == (RadialLayer { cx: a.cx, cy: a.cy, ..b })
}

/// A painter gives one picture and one layer one answer, and goes by the values
/// of a layer's center.
pub open spec fn paints_alike<P>(paint: P) -> bool where P: Fn(&Pixmap, RadialLayer) -> Pixmap {
    forall|b1: Pixmap, l1: RadialLayer, a1: Pixmap, b2: Pixmap, l2: RadialLayer, a2: Pixmap|
        #[trigger] painted(paint, b1, l1, a1) && #[trigger] painted(paint, b2, l2, a2)
            && same_picture(b1, b2) && alike(l1, l2) ==> same_picture(a1, a2)
}

/// Layers that are alike, painted onto the same picture, give the same picture.
pub proof fn law_painting_is_determined<P>(
    paint: P,
    b1: Pixmap,
    l1: Seq<RadialLayer>,
    a1: Pixmap,
    b2: Pixmap,
    l2: Seq<RadialLayer>,
    a2: Pixmap,
) where P: Fn(&Pixmap, RadialLayer) -> Pixmap
    requires
        paints_alike(paint),
        same_picture(b1, b2),
        l1.len() == l2.len(),
        forall|i: int| 0 <= i < l1.len() ==> alike(#[trigger] l1[i], l2[i]),
        paints(paint, b1, l1, a1),
        paints(paint, b2, l2, a2),
    ensures
        same_picture(a1, a2),
{
    let p1 = choose|pictures: Seq<Pixmap>| #[trigger] pictures_of(paint, b1, l1, a1, pictures);
    let p2 = choose|pictures: Seq<Pixmap>| #[trigger] pictures_of(paint, b2, l2, a2, pictures);
    lemma_picture_chain(paint, b1, l1, a1, p1, b2, l2, a2, p2, l1.len() as int);
}

proof fn lemma_picture_chain<P>(
    paint: P,
    b1: Pixmap,
    l1: Seq<RadialLayer>,
    a1: Pixmap,
    p1: Seq<Pixmap>,
    b2: Pixmap,
    l2: Seq<RadialLayer>,
    a2: Pixmap,
    p2: Seq<Pixmap>,
    k: int,
) where P: Fn(&Pixmap, RadialLayer) -> Pixmap
    requires
        paints_alike(paint),
        same_picture(b1, b2),
        l1.len() == l2.len(),
        forall|i: int| 0 <= i < l1.len() ==> alike(#[trigger] l1[i], l2[i]),
        pictures_of(paint, b1, l1, a1, p1),
        pictures_of(paint, b2, l2, a2, p2),
        0 <= k <= l1.len(),
    ensures
        same_picture(p1[k], p2[k]),
    decreases k,
{
    if k > 0 {
        let i = k - 1;
        lemma_picture_chain(paint, b1, l1, a1, p1, b2, l2, a2, p2, i);
        assert(alike(l1[i], l2[i]));
        assert(painted(paint, p1[i], l1[i], p1[i + 1]));
        assert(painted(paint, p2[i], l2[i], p2[i + 1]));
    }
}

/// The same center, radius, color, seed and parameters, raw or clamped, on the
/// same picture give the same picture, where every function that is handed in
/// gives one answer.
pub proof fn law_orb_is_reproducible<D, S, C, F, G, P>(
    source: D,
    sin: S,
    cos: C,
    to_hsl: F,
    to_srgb: G,
    paint: P,
    b1: Pixmap,
    b2: Pixmap,
    center: (Single, Single),
    radius: Single,
    color: [u8; 3],
    seed: u64,
    params: AquarelleParams,
    q: AquarelleParams,
    a1: Pixmap,
    a2: Pixmap,
) where
    D: Fn(ChaCha8Rng, Single, Single) -> (ChaCha8Rng, Single),
    S: Fn(Single) -> Single,
    C: Fn(Single) -> Single,
    F: Fn([Single; 3]) -> [Single; 3],
    G: Fn([Single; 3]) -> [Single; 3],
    P: Fn(&Pixmap, RadialLayer) -> Pixmap,

    requires
        draws_alike(source),
        turns_alike(sin),
        turns_alike(cos),
        converts_alike(to_hsl),
        converts_alike(to_srgb),
        paints_alike(paint),
        same_picture(b1, b2),
        q == params || q == params.confined(),
        composites(
            source,
            sin,
            cos,
            to_hsl,
            to_srgb,
            paint,
            b1,
            center,
            radius,
            color,
            seed,
            params,
            a1,
        ),
        composites(
            source,
            sin,
            cos,
            to_hsl,
            to_srgb,
            paint,
            b2,
            center,
            radius,
            color,
            seed,
            q,
            a2,
        ),
    ensures
        same_picture(a1, a2),
{
    if !at_most(radius, Single { bits: ZERO }) {
        let l1 = choose|layers: Seq<RadialLayer>|
            #[trigger] renders(
                source,
                sin,
                cos,
                to_hsl,
                to_srgb,
                center,
                radius,
                color,
                seed,
                params,
                layers,
            ) && paints(paint, b1, layers, a1);
        let l2 = choose|layers: Seq<RadialLayer>|
            #[trigger] renders(
                source,
                sin,
                cos,
                to_hsl,
                to_srgb,
                center,
                radius,
                color,
                seed,
                q,
                layers,
            ) && paints(paint, b2, layers, a2);
        law_orb_clamps(
            source,
            sin,
            cos,
            to_hsl,
            to_srgb,
            center,
            radius,
            color,
            seed,
            params,
            l2,
        );
        law_orb_is_determined(
            source,
            sin,
            cos,
            to_hsl,
            to_srgb,
            center,
            radius,
            color,
            seed,
            params,
            l1,
            l2,
        );
        assert forall|i: int| 0 <= i < l1.len() implies alike(#[trigger] l1[i], l2[i]) by {
            assert(l1[i] == l2[i]);
        }
        law_painting_is_determined(paint, b1, l1, a1, b2, l2, a2);
    }
}

/// Without an offset and without satellites the seed makes no difference to the
/// layers of an orb, whatever is drawn.
pub proof fn law_seed_only_places<D, S, C, F, G>(
    source: D,
    sin: S,
    cos: C,
    to_hsl: F,
    to_srgb: G,
    center: (Single, Single),
    radius: Single,
    color: [u8; 3],
    params: AquarelleParams,
    s1: u64,
    s2: u64,
    one: Seq<RadialLayer>,
    two: Seq<RadialLayer>,
) where
    D: Fn(ChaCha8Rng, Single, Single) -> (ChaCha8Rng, Single),
    S: Fn(Single) -> Single,
    C: Fn(Single) -> Single,
    F: Fn([Single; 3]) -> [Single; 3],
    G: Fn([Single; 3]) -> [Single; 3],

    requires
        converts_alike(to_hsl),
        converts_alike(to_srgb),
        forall|x: Single, r: Single| #[trigger] call_ensures(sin, (x,), r) ==> r.finite(),
        forall|x: Single, r: Single| #[trigger] call_ensures(cos, (x,), r) ==> r.finite(),
        radius.finite(),
        !center.0.nan(),
        !center.1.nan(),
        at_most(params.offset, Single { bits: ZERO }),
        at_most(params.bleed, Single { bits: ZERO }),
        renders(source, sin, cos, to_hsl, to_srgb, center, radius, color, s1, params, one),
        renders(source, sin, cos, to_hsl, to_srgb, center, radius, color, s2, params, two),
    ensures
        one.len() == two.len(),
        forall|i: int| 0 <= i < one.len() ==> alike(#[trigger] one[i], two[i]),
{
    law_satellites_are_few(params);
    if !at_most(radius, Single { bits: ZERO }) {
        let (d1, f1) = choose|draws: OrbDraws, frame: OrbFrame|
            #[trigger] orb_drawn(source, s1, params, draws) && #[trigger] frames(
                sin,
                cos,
                to_hsl,
                to_srgb,
                color,
                params,
                draws,
                frame,
            ) && one == layers_of(center, radius, color, params, frame);
        let (d2, f2) = choose|draws: OrbDraws, frame: OrbFrame|
            #[trigger] orb_drawn(source, s2, params, draws) && #[trigger] frames(
                sin,
                cos,
                to_hsl,
                to_srgb,
                color,
                params,
                draws,
                frame,
            ) && two == layers_of(center, radius, color, params, frame);
        law_boost_is_determined(
            to_hsl,
            to_srgb,
            color,
            falloff_factor(params),
            f1.halo_color,
            f2.halo_color,
        );
        law_no_offset_is_concentric(center.0, radius, params, f1.turn.cos);
        law_no_offset_is_concentric(center.1, radius, params, f1.turn.sin);
        law_no_offset_is_concentric(center.0, radius, params, f2.turn.cos);
        law_no_offset_is_concentric(center.1, radius, params, f2.turn.sin);
        assert forall|i: int| 0 <= i < one.len() implies alike(#[trigger] one[i], two[i]) by {
            assert(i == 0 || (i == 1 && has_core(radius, params)));
        }
    }
}

/// Without an offset and without satellites the seed makes no difference to the
/// picture, whatever is drawn.
pub proof fn law_seed_does_not_show<D, S, C, F, G, P>(
    source: D,
    sin: S,
    cos: C,
    to_hsl: F,
    to_srgb: G,
    paint: P,
    b1: Pixmap,
    b2: Pixmap,
    center: (Single, Single),
    radius: Single,
    color: [u8; 3],
    params: AquarelleParams,
    s1: u64,
    s2: u64,
    a1: Pixmap,
    a2: Pixmap,
) where
    D: Fn(ChaCha8Rng, Single, Single) -> (ChaCha8Rng, Single),
    S: Fn(Single) -> Single,
    C: Fn(Single) -> Single,
    F: Fn([Single; 3]) -> [Single; 3],
    G: Fn([Single; 3]) -> [Single; 3],
    P: Fn(&Pixmap, RadialLayer) -> Pixmap,

    requires
        converts_alike(to_hsl),
        converts_alike(to_srgb),
        paints_alike(paint),
        forall|x: Single, r: Single| #[trigger] call_ensures(sin, (x,), r) ==> r.finite(),
        forall|x: Single, r: Single| #[trigger] call_ensures(cos, (x,), r) ==> r.finite(),
        radius.finite(),
        !center.0.nan(),
        !center.1.nan(),
        at_most(params.offset, Single { bits: ZERO }),
        at_most(params.bleed, Single { bits: ZERO }),
        same_picture(b1, b2),
        composites(
            source,
            sin,
            cos,
            to_hsl,
            to_srgb,
            paint,
            b1,
            center,
            radius,
            color,
            s1,
            params,
            a1,
        ),
        composites(
            source,
            sin,
            cos,
            to_hsl,
            to_srgb,
            paint,
            b2,
            center,
            radius,
            color,
            s2,
            params,
            a2,
        ),
    ensures
        same_picture(a1, a2),
{
    if !at_most(radius, Single { bits: ZERO }) {
        let l1 = choose|layers: Seq<RadialLayer>|
            #[trigger] renders(
                source,
                sin,
                cos,
                to_hsl,
                to_srgb,
                center,
                radius,
                color,
                s1,
                params,
                layers,
            ) && paints(paint, b1, layers, a1);
        let l2 = choose|layers: Seq<RadialLayer>|
            #[trigger] renders(
                source,
                sin,
                cos,
                to_hsl,
                to_srgb,
                center,
                radius,
                color,
                s2,
                params,
                layers,
            ) && paints(paint, b2, layers, a2);
        law_seed_only_places(
            source,
            sin,
            cos,
            to_hsl,
            to_srgb,
            center,
            radius,
            color,
            params,
            s1,
            s2,
            l1,
            l2,
        );
        law_painting_is_determined(paint, b1, l1, a1, b2, l2, a2);
    }
}

} // verus!
