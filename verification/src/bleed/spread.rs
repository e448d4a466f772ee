//! What the pass does to a picture, step by step and by value.

use rand_chacha::ChaCha8Rng;
use vstd::prelude::*;

use super::amounts::{
    is_grained, law_bleed_factor_is_three_fifths, law_depth_is_a_tenth, law_grain_multiplies,
    law_mixture_is_linear, law_pass_acts_above_zero, law_premultiplied_is_times_alpha,
    law_straight_is_over_alpha,
};
use super::bytes::lemma_no_depth;
use super::laws::{lemma_blurred_tail, lemma_pass_layer};
use super::{
    bleed_factor, bleeds, blurred_times, box_radius, grain_depth, grain_drawn, grain_states, pixel,
    premultiplied, premultiplied_rgba, saturates_buffer, saturates_pixel, straight_rgb, with_grain,
    AquarelleBleedParams,
};
use crate::blur::laws::channel;
use crate::blur::windows::{
    is_window_mean, law_columns_are_window_means, law_rows_are_window_means, sample_of,
};
use crate::blur::{blurred_columns, blurred_rows, lemma_channel_bound, overlaid};
use crate::color::mixing::{
    is_mixture, is_saturated, law_only_one_is_neutral, law_saturation_is_multiplied,
};
use crate::color::{keeps_saturation, saturates, saturation_scaled};
use crate::draw::{drawn, draws_within, seeded_state};
use crate::single::arith::absolute;
use crate::single::convert::one_unit;
use crate::single::laws::lemma_constants;
use crate::single::order::{at_most, below, law_order_is_by_value};
use crate::single::{Single, MINUS_ONE, ONE, ZERO};

verus! {

/// Each blur writes the rounded means, down the columns, of the rounded means
/// along the rows: that of sample `(x, y, c)` after `n + 1` blurs is the mean of
/// `across`, and `across(j)` is the mean along row `j` of the picture after `n`
/// blurs. That holds of pictures of every size. What follows the pixels stays.
pub proof fn law_blur_is_mean_of_means(
    src: Seq<u8>,
    width: nat,
    height: nat,
    radius: nat,
    n: nat,
    x: int,
    y: int,
    c: int,
) -> (across: spec_fn(int) -> int)
    requires
        src.len() >= width * height * 4,
        0 <= x < width,
        0 <= y < height,
        0 <= c < 4,
    ensures
        blurred_times(src, width, height, radius, 0) == src,
        blurred_times(src, width, height, radius, n + 1).len() == src.len(),
        forall|i: int|
            width * height * 4 <= i < src.len() ==> #[trigger] blurred_times(
                src,
                width,
                height,
                radius,
                n + 1,
            )[i] == src[i],
        forall|j: int|
            0 <= j < height ==> is_window_mean(
                #[trigger] across(j),
                |i: int|
                    sample_of(blurred_times(src, width, height, radius, n), width, i, j, c),
                width as int,
                x,
                radius as int,
            ),
        is_window_mean(
            sample_of(blurred_times(src, width, height, radius, n + 1), width, x, y, c),
            across,
            height as int,
            y,
            radius as int,
        ),
{
    let before = blurred_times(src, width, height, radius, n);
    let after = blurred_times(src, width, height, radius, n + 1);
    lemma_blurred_tail(src, width, height, radius, n);
    lemma_blurred_tail(src, width, height, radius, n + 1);
    let rows = blurred_rows(before, width, height, radius);
    let across = |j: int| sample_of(rows, width, x, j, c);
    assert forall|j: int| 0 <= j < height implies is_window_mean(
        #[trigger] across(j),
        |i: int| sample_of(before, width, i, j, c),
        width as int,
        x,
        radius as int,
    ) by {
        law_rows_are_window_means(before, width, height, radius, x, j, c);
    }
    lemma_channel_bound(width as int, height as int, x, y, c);
    law_columns_are_window_means(rows, width, height, radius, x, y, c);
    assert((|j: int| sample_of(rows, width, x, j, c)) =~= across);
    let all = blurred_columns(rows, width, height, radius);
    assert(after == overlaid(before, all));
    assert(sample_of(after, width, x, y, c) == sample_of(all, width, x, y, c));
    across
}

/// `out` is the premultiplied pixel `px` saturated by `factor`, by value: its
/// colors over alpha, what the one conversion answers to them, that with its
/// saturation multiplied, and what the other conversion answers to that, times
/// alpha. Alpha stays, and so does a transparent pixel.
pub open spec fn is_saturated_pixel<F, G>(
    to_hsl: F,
    to_srgb: G,
    px: [u8; 4],
    factor: Single,
    out: [u8; 4],
) -> bool where F: Fn([Single; 3]) -> [Single; 3], G: Fn([Single; 3]) -> [Single; 3] {
    &&& out[3] == px[3]
    &&& px[3] == 0 ==> out == px
    &&& px[3] > 0 ==> exists|
        from: [Single; 3],
        hsl: [Single; 3],
        to: [Single; 3],
        srgb: [Single; 3],
    |
        #[trigger] call_ensures(to_hsl, (from,), hsl) && #[trigger] call_ensures(
            to_srgb,
            (to,),
            srgb,
        ) && is_saturated(hsl, factor, to) && are_over_alpha(from, px) && are_times_alpha(
            out,
            srgb,
        )
}

/// `from` are the colors of a pixel over its alpha.
pub open spec fn are_over_alpha(from: [Single; 3], px: [u8; 4]) -> bool {
    &&& is_over_alpha(from[0], px[0], px[3])
    &&& is_over_alpha(from[1], px[1], px[3])
    &&& is_over_alpha(from[2], px[2], px[3])
}

/// The colors of a pixel are `srgb` times its alpha.
pub open spec fn are_times_alpha(out: [u8; 4], srgb: [Single; 3]) -> bool {
    &&& is_times_alpha(out[0], srgb[0], out[3])
    &&& is_times_alpha(out[1], srgb[1], out[3])
    &&& is_times_alpha(out[2], srgb[2], out[3])
}

/// `x` is `c` over `a`, at most one.
pub open spec fn is_over_alpha(x: Single, c: u8, a: u8) -> bool {
    &&& x.finite()
    &&& c >= a ==> x.units() == one_unit()
    &&& c <= a ==> 0x10_0000 * absolute(x.units() * a - c * one_unit()) <= a * one_unit()
}

/// `m` is `x` times `a`, rounded; what lies outside `0..=1` counts as the nearer
/// end.
pub open spec fn is_times_alpha(m: u8, x: Single, a: u8) -> bool {
    x.finite() ==> {
        &&& x.units() <= 0 ==> m == 0
        &&& x.units() >= one_unit() ==> m == a
        &&& 0 <= x.units() <= one_unit() ==> 0x2000 * absolute(m * one_unit() - a * x.units())
            <= 0x1001 * one_unit()
    }
}

/// Saturating a pixel works on its straight color and keeps its alpha.
pub proof fn law_pixel_is_saturated<F, G>(
    to_hsl: F,
    to_srgb: G,
    px: [u8; 4],
    factor: Single,
    out: [u8; 4],
) where F: Fn([Single; 3]) -> [Single; 3], G: Fn([Single; 3]) -> [Single; 3]
    requires
        saturates_pixel(to_hsl, to_srgb, px, factor, out),
    ensures
        is_saturated_pixel(to_hsl, to_srgb, px, factor, out),
{
    reveal(saturates_pixel);
    if px[3] > 0 {
        let srgb = choose|srgb: [Single; 3]|
            #[trigger] saturates(to_hsl, to_srgb, straight_rgb(px), factor, srgb) && out
                == premultiplied_rgba(srgb, px[3]);
        let from = straight_rgb(px);
        let hsl = choose|hsl: [Single; 3]|
            #[trigger] call_ensures(to_hsl, (from,), hsl) && call_ensures(
                to_srgb,
                (saturation_scaled(hsl, factor),),
                srgb,
            );
        let to = saturation_scaled(hsl, factor);
        law_saturation_is_multiplied(hsl, factor);
        lemma_straight_pixel(px);
        lemma_premultiplied_pixel(srgb, px[3]);
        assert(call_ensures(to_hsl, (from,), hsl) && call_ensures(to_srgb, (to,), srgb));
    }
}

proof fn lemma_straight_pixel(px: [u8; 4])
    requires
        px[3] > 0,
    ensures
        are_over_alpha(straight_rgb(px), px),
{
    law_straight_is_over_alpha(px[0], px[3]);
    law_straight_is_over_alpha(px[1], px[3]);
    law_straight_is_over_alpha(px[2], px[3]);
}

proof fn lemma_times_alpha(x: Single, a: u8)
    ensures
        is_times_alpha(premultiplied(x, a), x, a),
{
    if x.finite() {
        law_premultiplied_is_times_alpha(x, a);
    }
}

proof fn lemma_premultiplied_pixel(srgb: [Single; 3], a: u8)
    ensures
        are_times_alpha(premultiplied_rgba(srgb, a), srgb),
{
    lemma_times_alpha(srgb[0], a);
    lemma_times_alpha(srgb[1], a);
    lemma_times_alpha(srgb[2], a);
}

/// Saturating a buffer saturates every pixel of it, and leaves what follows them
/// as it is. A factor of one changes nothing.
pub proof fn law_every_pixel_is_saturated<F, G>(
    to_hsl: F,
    to_srgb: G,
    buf: Seq<u8>,
    factor: Single,
    out: Seq<u8>,
) where F: Fn([Single; 3]) -> [Single; 3], G: Fn([Single; 3]) -> [Single; 3]
    requires
        factor.finite(),
        saturates_buffer(to_hsl, to_srgb, buf, factor, out),
    ensures
        out.len() == buf.len(),
        0x80_0000 * absolute(factor.units() - one_unit()) < one_unit() ==> out == buf,
        0x80_0000 * absolute(factor.units() - one_unit()) >= one_unit() ==> forall|p: int|
            0 <= p < buf.len() / 4 ==> is_saturated_pixel(
                to_hsl,
                to_srgb,
                #[trigger] four_bytes(buf, p),
                factor,
                four_bytes(out, p),
            ),
        forall|i: int| buf.len() / 4 * 4 <= i < buf.len() ==> #[trigger] out[i] == buf[i],
{
    law_only_one_is_neutral(factor);
    if !keeps_saturation(factor) {
        assert forall|p: int| 0 <= p < buf.len() / 4 implies is_saturated_pixel(
            to_hsl,
            to_srgb,
            #[trigger] four_bytes(buf, p),
            factor,
            four_bytes(out, p),
        ) by {
            assert(four_bytes(buf, p) =~= pixel(buf, p));
            assert(four_bytes(out, p) =~= pixel(out, p));
            law_pixel_is_saturated(to_hsl, to_srgb, pixel(buf, p), factor, pixel(out, p));
        }
    }
}

/// The bytes of pixel `p`.
pub open spec fn four_bytes(buf: Seq<u8>, p: int) -> [u8; 4] {
    [buf[4 * p], buf[4 * p + 1], buf[4 * p + 2], buf[4 * p + 3]]
}

/// `t` is `x` drawn into `0..=1`, in units.
pub open spec fn is_part_of(t: int, x: Single) -> bool {
    let zero = Single { bits: ZERO };
    let one = Single { bits: ONE };
    &&& at_most(x, zero) ==> t == 0
    &&& below(zero, x) && below(x, one) ==> t == x.units()
    &&& at_most(one, x) ==> t == one_unit()
}

/// The grains of a picture are drawn one after the other, each from `-1..=1`,
/// by a generator that starts at the seed.
pub open spec fn grains_from<D>(
    source: D,
    seed: u64,
    grain: Seq<Single>,
    states: Seq<ChaCha8Rng>,
) -> bool where D: Fn(ChaCha8Rng, Single, Single) -> (ChaCha8Rng, Single) {
    &&& states.len() == grain.len() + 1
    &&& states[0] == seeded_state(seed)
    &&& forall|i: int|
        0 <= i < grain.len() ==> call_ensures(
            source,
            (states[i], Single { bits: MINUS_ONE }, Single { bits: ONE }),
            (states[i + 1], #[trigger] grain[i]),
        )
}

/// What the grain makes of a layer: each pixel `p` has its own grain, which
/// multiplies its colors by one plus a tenth of the intensity `t` of it. Alpha
/// and what follows the pixels stay.
pub proof fn law_every_pixel_is_grained(
    buf: Seq<u8>,
    depth: Single,
    grain: Seq<Single>,
    p: int,
    c: int,
)
    requires
        depth.finite(),
        0 <= depth.units(),
        depth.units() <= one_unit(),
        grain.len() == buf.len() / 4,
        0 <= p < grain.len(),
        grain[p].finite(),
        absolute(grain[p].units()) <= one_unit(),
        0 <= c < 3,
    ensures
        with_grain(buf, depth, grain).len() == buf.len(),
        with_grain(buf, depth, grain)[4 * p + 3] == buf[4 * p + 3],
        is_grained(
            with_grain(buf, depth, grain)[4 * p + c],
            buf[4 * p + c],
            buf[4 * p + 3],
            grain[p].units(),
            depth.units(),
        ),
        forall|i: int|
            buf.len() / 4 * 4 <= i < buf.len() ==> #[trigger] with_grain(buf, depth, grain)[i]
                == buf[i],
{
    let i = 4 * p + c;
    assert(i / 4 == p && i % 4 == c);
    assert((4 * p + 3) % 4 == 3);
    law_grain_multiplies(buf[i], buf[4 * p + 3], grain[p], depth);
}

/// What the pass writes, step by step and by value.
///
/// The picture is blurred three times by the box. Where the halo is above zero,
/// every pixel of that is saturated by a factor of one plus three fifths of the
/// halo; else nothing is. Every pixel is multiplied by one plus a tenth of the
/// intensity of its grain. What comes out is mixed into the picture by the
/// intensity, byte by byte, and bytes past the last pixel stay.
pub proof fn law_pass_in_steps<D, F, G>(
    source: D,
    to_hsl: F,
    to_srgb: G,
    original: Seq<u8>,
    width: nat,
    height: nat,
    params: AquarelleBleedParams,
    seed: u64,
    out: Seq<u8>,
) -> (r: (Single, Seq<u8>, Seq<Single>, Seq<ChaCha8Rng>, Seq<u8>, int, int)) where
    D: Fn(ChaCha8Rng, Single, Single) -> (ChaCha8Rng, Single),
    F: Fn([Single; 3]) -> [Single; 3],
    G: Fn([Single; 3]) -> [Single; 3],

    requires
        draws_within(source, MINUS_ONE, ONE),
        original.len() >= width * height * 4,
        bleeds(source, to_hsl, to_srgb, original, width, height, params, seed, out),
        below(Single { bits: ZERO }, params.radius),
        below(Single { bits: ZERO }, params.intensity),
    ensures
        ({
            let (factor, haloed, grain, states, layer, t, depth) = r;
            let w = one_unit();
            let blurred = blurred_times(original, width, height, box_radius(params), 3);
            &&& is_part_of(t, params.intensity)
            &&& haloed.len() == original.len()
            &&& layer.len() == original.len()
            &&& out.len() == original.len()
            // The halo.
            &&& !below(Single { bits: ZERO }, params.halo) ==> haloed == blurred
            &&& below(Single { bits: ZERO }, params.halo) ==> {
                &&& factor.finite()
                &&& exists|h: int| #[trigger]
                    is_part_of(h, params.halo) && 0x8_0000 * absolute(
                        5 * factor.units() - (5 * w + 3 * h),
                    ) <= w
                &&& 0x80_0000 * absolute(factor.units() - w) < w ==> haloed == blurred
                &&& 0x80_0000 * absolute(factor.units() - w) >= w ==> forall|p: int|
                    0 <= p < original.len() / 4 ==> is_saturated_pixel(
                        to_hsl,
                        to_srgb,
                        #[trigger] four_bytes(blurred, p),
                        factor,
                        four_bytes(haloed, p),
                    )
            }
            // The grain.
            &&& 1024 * t > w ==> {
                &&& grain.len() == original.len() / 4
                &&& grains_from(source, seed, grain, states)
                &&& 0x10_0000 * absolute(10 * depth - t) <= t + 0x100_0000
                &&& forall|p: int, c: int|
                    0 <= p < original.len() / 4 && 0 <= c < 3 ==> is_grained(
                        #[trigger] layer[4 * p + c],
                        haloed[4 * p + c],
                        haloed[4 * p + 3],
                        grain[p].units(),
                        depth,
                    )
            }
            &&& forall|p: int|
                0 <= p < original.len() / 4 ==> #[trigger] layer[4 * p + 3] == blurred[4 * p + 3]
            // The mixture.
            &&& forall|i: int|
                0 <= i < original.len() / 4 * 4 ==> is_mixture(
                    #[trigger] out[i],
                    original[i] as int,
                    layer[i] as int,
                    t,
                )
            &&& forall|i: int|
                original.len() / 4 * 4 <= i < original.len() ==> #[trigger] out[i] == original[i]
        }),
{
    let zero = Single { bits: ZERO };
    let one = Single { bits: ONE };
    let w = one_unit();
    lemma_constants();
    law_pass_acts_above_zero(params);
    let (haloed, layer) = lemma_pass_layer(
        source,
        to_hsl,
        to_srgb,
        original,
        width,
        height,
        params,
        seed,
        out,
    );
    let blurred = blurred_times(original, width, height, box_radius(params), 3);
    lemma_blurred_tail(original, width, height, box_radius(params), 3);
    let x = params.confined().intensity;
    law_order_is_by_value(zero, x);
    law_order_is_by_value(x, one);
    let t = x.units();
    law_depth_is_a_tenth(params);
    let depth = grain_depth(params);
    let factor = bleed_factor(params);
    if below(zero, params.halo) {
        let h = params.confined().halo;
        law_order_is_by_value(zero, h);
        law_order_is_by_value(h, one);
        law_bleed_factor_is_three_fifths(params);
        assert(is_part_of(h.units(), params.halo));
        law_every_pixel_is_saturated(to_hsl, to_srgb, blurred, factor, haloed);
    }
    assert forall|i: int| 0 <= i < original.len() / 4 * 4 implies is_mixture(
        #[trigger] out[i],
        original[i] as int,
        layer[i] as int,
        t,
    ) by {
        law_mixture_is_linear(original[i], layer[i], x);
    }
    assert forall|p: int| 0 <= p < original.len() / 4 implies #[trigger] layer[4 * p + 3]
        == blurred[4 * p + 3] by {
        assert(channel(blurred, p, 3) == channel(layer, p, 3));
    }
    if below(zero, depth) {
        let grain = choose|grain: Seq<Single>|
            #[trigger] grain_drawn(source, seed, grain) && grain.len() == haloed.len() / 4 && layer
                == with_grain(haloed, depth, grain);
        let states = choose|states: Seq<ChaCha8Rng>|
            #[trigger] grain_states(source, seed, grain, states);
        assert forall|i: int| 0 <= i < grain.len() implies call_ensures(
            source,
            (states[i], Single { bits: MINUS_ONE }, one),
            (states[i + 1], #[trigger] grain[i]),
        ) by {
            assert(drawn(source, states[i], MINUS_ONE, ONE, states[i + 1], grain[i]));
        }
        assert forall|p: int, c: int|
            0 <= p < original.len() / 4 && 0 <= c < 3 implies is_grained(
            #[trigger] layer[4 * p + c],
            haloed[4 * p + c],
            haloed[4 * p + 3],
            grain[p].units(),
            depth.units(),
        ) by {
            assert(drawn(source, states[p], MINUS_ONE, ONE, states[p + 1], grain[p]));
            lemma_in_minus_one_to_one(grain[p]);
            law_every_pixel_is_grained(haloed, depth, grain, p, c);
        }
        (factor, haloed, grain, states, layer, t, depth.units())
    } else {
        lemma_no_depth(x);
        (factor, haloed, Seq::empty(), Seq::empty(), layer, t, depth.units())
    }
}

proof fn lemma_in_minus_one_to_one(x: Single)
    requires
        at_most(Single { bits: MINUS_ONE }, x),
        at_most(x, Single { bits: ONE }),
    ensures
        x.finite(),
        absolute(x.units()) <= one_unit(),
{
    lemma_constants();
    law_order_is_by_value(x, Single { bits: ONE });
    law_order_is_by_value(Single { bits: MINUS_ONE }, x);
}

} // verus!
