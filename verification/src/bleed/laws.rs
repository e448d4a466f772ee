//! What the bleed pass promises: what it leaves alone, what it keeps, and that
//! its result is determined by picture, parameters and seed.

use rand_chacha::ChaCha8Rng;
use vstd::prelude::*;

use super::bytes::{
    law_blending, law_opaque_is_straight, law_premultiplied_is_at_most_alpha, lemma_blend_barely,
    lemma_blend_ends, lemma_blend_monotone, lemma_blend_of_nan, lemma_blend_same,
    lemma_grain_depth_units, lemma_grain_is_near, lemma_no_depth,
};
use super::{
    bleed_factor, bleeds, blended, blurred_times, box_radius, grain_depth, grain_drawn,
    grain_states, halos, lemma_grained_pixel, mixture, pixel, premultiplied_rgba, saturates_buffer,
    saturates_pixel, straight_rgb, textures, with_grain, AquarelleBleedParams, GRAIN_DEPTH,
};
use crate::blur::full::{full_window, law_full_line_stays};
use crate::blur::laws::{
    alpha_bounds_colors, channel, law_column_blur_keeps_colors_below_alpha,
    law_mean_lies_among_samples, law_mean_sees_its_window, law_row_blur_keeps_colors_below_alpha,
    law_zeros_stay_zero, lemma_blurred_column_sample, lemma_blurred_row_sample, sample,
};
use crate::blur::sums::short_window;
use crate::blur::{
    blurred_columns, blurred_rows, box_mean, column, lemma_channel_bound, lemma_channel_parts,
    lemma_parts_of, overlaid, row,
};
use crate::color::laws::{converts_alike, law_boost_is_determined, law_saturation_is_determined};
use crate::color::{byte_rgb, keeps_saturation, saturates, saturates_bytes, unit_rgb};
use crate::draw::{drawn, draws_alike, draws_within};
use crate::single::convert::one_unit;
use crate::single::laws::{
    law_confined_lies_within, lemma_constants, lemma_product_rank, lemma_rank_between,
};
use crate::single::order::{at_most, below, law_order_is_by_value};
use crate::single::{Single, MINUS_ONE, ONE, ZERO};

verus! {

/// Parameters that are drawn into their ranges stay when drawn in again.
pub proof fn law_clamping_settles(params: AquarelleBleedParams)
    ensures
        params.confined().confined() == params.confined(),
{
    lemma_constants();
    law_order_is_by_value(Single { bits: ZERO }, Single { bits: ONE });
    law_confined_lies_within(params.intensity, Single { bits: ZERO }, Single { bits: ONE });
    law_confined_lies_within(params.halo, Single { bits: ZERO }, Single { bits: ONE });
}

/// Raw parameters give what the clamped ones give.
pub proof fn law_pass_clamps<D, F, G>(
    source: D,
    to_hsl: F,
    to_srgb: G,
    original: Seq<u8>,
    width: nat,
    height: nat,
    params: AquarelleBleedParams,
    seed: u64,
    out: Seq<u8>,
) where
    D: Fn(ChaCha8Rng, Single, Single) -> (ChaCha8Rng, Single),
    F: Fn([Single; 3]) -> [Single; 3],
    G: Fn([Single; 3]) -> [Single; 3],

    ensures
        bleeds(source, to_hsl, to_srgb, original, width, height, params, seed, out) <==> bleeds(
            source,
            to_hsl,
            to_srgb,
            original,
            width,
            height,
            params.confined(),
            seed,
            out,
        ),
{
    law_clamping_settles(params);
    let q = params.confined();
    let blurred = blurred_times(original, width, height, box_radius(params), 3);
    assert(box_radius(q) == box_radius(params));
    assert forall|haloed: Seq<u8>| #[trigger]
        halos(to_hsl, to_srgb, blurred, params, haloed) <==> halos(
            to_hsl,
            to_srgb,
            blurred,
            q,
            haloed,
        ) by {}
    assert forall|haloed: Seq<u8>, layer: Seq<u8>| #[trigger]
        textures(source, seed, haloed, params, layer) <==> textures(
            source,
            seed,
            haloed,
            q,
            layer,
        ) by {}
    if bleeds(source, to_hsl, to_srgb, original, width, height, params, seed, out)
        && !params.idle() {
        let (haloed, layer) = choose|haloed: Seq<u8>, layer: Seq<u8>|
            #[trigger] halos(to_hsl, to_srgb, blurred, params, haloed) && #[trigger] textures(
                source,
                seed,
                haloed,
                params,
                layer,
            ) && out == overlaid(
                original,
                mixture(original, layer, params.confined().intensity),
            );
        assert(halos(to_hsl, to_srgb, blurred, q, haloed));
        assert(textures(source, seed, haloed, q, layer));
    }
    if bleeds(source, to_hsl, to_srgb, original, width, height, q, seed, out) && !q.idle() {
        let (haloed, layer) = choose|haloed: Seq<u8>, layer: Seq<u8>|
            #[trigger] halos(to_hsl, to_srgb, blurred, q, haloed) && #[trigger] textures(
                source,
                seed,
                haloed,
                q,
                layer,
            ) && out == overlaid(original, mixture(original, layer, q.confined().intensity));
        assert(halos(to_hsl, to_srgb, blurred, params, haloed));
        assert(textures(source, seed, haloed, params, layer));
    }
}

/// A radius or an intensity of zero or less turns the pass off: the picture
/// stays as it is, whatever the seed.
pub proof fn law_nothing_to_spread_changes_nothing<D, F, G>(
    source: D,
    to_hsl: F,
    to_srgb: G,
    original: Seq<u8>,
    width: nat,
    height: nat,
    params: AquarelleBleedParams,
    seed: u64,
    out: Seq<u8>,
) where
    D: Fn(ChaCha8Rng, Single, Single) -> (ChaCha8Rng, Single),
    F: Fn([Single; 3]) -> [Single; 3],
    G: Fn([Single; 3]) -> [Single; 3],

    requires
        at_most(params.radius, Single { bits: ZERO }) || at_most(
            params.intensity,
            Single { bits: ZERO },
        ),
        bleeds(source, to_hsl, to_srgb, original, width, height, params, seed, out),
    ensures
        params.idle(),
        out == original,
{
    lemma_constants();
}

/// Both axes of a picture are blurred with windows of at most 65535 samples, so
/// that the sums over them are exact.
pub open spec fn short_blur(width: nat, height: nat, radius: nat) -> bool {
    short_window(radius, width) && short_window(radius, height)
}

/// Neither axis of a picture is blurred with a window so long that a channel of
/// 255 would fade.
pub open spec fn full_blur(width: nat, height: nat, radius: nat) -> bool {
    full_window(radius, width) && full_window(radius, height)
}

/// A channel of `v` at every pixel stays under a blur: that of any value where
/// the windows hold at most 65535 samples, full alpha far beyond, and none
/// always.
pub open spec fn keeps_even(width: nat, height: nat, radius: nat, v: u8) -> bool {
    ||| short_blur(width, height, radius)
    ||| v == 255 && full_blur(width, height, radius)
    ||| v == 0 && width <= usize::MAX && height <= usize::MAX
}

/// Where a channel lies in `lo..=hi` at every pixel within `n` radii, it does
/// after `n` blurs. So a uniform picture stays.
pub proof fn law_blur_lies_among_near_pixels(
    src: Seq<u8>,
    width: nat,
    height: nat,
    radius: nat,
    n: nat,
    x: int,
    y: int,
    c: int,
    lo: u8,
    hi: u8,
)
    requires
        src.len() >= width * height * 4,
        short_blur(width, height, radius),
        0 <= x < width,
        0 <= y < height,
        0 <= c < 4,
        forall|i: int, j: int|
            0 <= i < width && 0 <= j < height && x - n * radius <= i <= x + n * radius && y - n
                * radius <= j <= y + n * radius ==> lo <= #[trigger] sample(src, width, i, j, c)
                <= hi,
    ensures
        lo <= sample(blurred_times(src, width, height, radius, n), width, x, y, c) <= hi,
    decreases n,
{
    if n == 0 {
        assert(0 * radius == 0);
        assert(lo <= sample(src, width, x, y, c) <= hi);
    } else {
        let m = (n - 1) as nat;
        let before = blurred_times(src, width, height, radius, m);
        let rows = blurred_rows(before, width, height, radius);
        assert(n * radius == m * radius + radius) by (nonlinear_arith)
            requires
                n == m + 1,
        ;
        lemma_blurred_column_sample(rows, width, height, radius, x, y, c);
        lemma_channel_bound(width as int, height as int, x, y, c);
        let line = column(rows, width, height, x, c);
        assert forall|j: int|
            0 <= j < line.len() && y - radius <= j <= y + radius implies lo <= #[trigger] line[j]
            <= hi by {
            assert(line[j] == sample(rows, width, x, j, c));
            lemma_blurred_row_sample(before, width, height, radius, x, j, c);
            let across = row(before, width, j, c);
            assert forall|i: int|
                0 <= i < across.len() && x - radius <= i <= x + radius implies lo
                <= #[trigger] across[i] <= hi by {
                assert(across[i] == sample(before, width, i, j, c));
                law_blur_lies_among_near_pixels(src, width, height, radius, m, i, j, c, lo, hi);
            }
            law_mean_lies_among_samples(across, x, radius, lo, hi);
        }
        law_mean_lies_among_samples(line, y, radius, lo, hi);
    }
}

/// Two pictures agree on channel `c` at every pixel within `reach` of `(x, y)`
/// along both axes.
pub open spec fn agree_near(
    a: Seq<u8>,
    b: Seq<u8>,
    width: nat,
    height: nat,
    x: int,
    y: int,
    c: int,
    reach: nat,
) -> bool {
    forall|i: int, j: int|
        0 <= i < width && 0 <= j < height && x - reach <= i <= x + reach && y - reach <= j <= y
            + reach ==> #[trigger] sample(a, width, i, j, c) == sample(b, width, i, j, c)
}

/// What lies farther than `n` radii from a pixel does not touch it in `n`
/// blurs: pictures that agree within that reach agree there afterwards.
pub proof fn law_far_pixels_do_not_count(
    a: Seq<u8>,
    b: Seq<u8>,
    width: nat,
    height: nat,
    radius: nat,
    n: nat,
    x: int,
    y: int,
    c: int,
)
    requires
        a.len() >= width * height * 4,
        b.len() >= width * height * 4,
        short_blur(width, height, radius),
        0 <= x < width,
        0 <= y < height,
        0 <= c < 4,
        agree_near(a, b, width, height, x, y, c, n * radius),
    ensures
        sample(blurred_times(a, width, height, radius, n), width, x, y, c) == sample(
            blurred_times(b, width, height, radius, n),
            width,
            x,
            y,
            c,
        ),
    decreases n,
{
    if n == 0 {
        assert(0 * radius == 0);
        assert(sample(a, width, x, y, c) == sample(b, width, x, y, c));
    } else {
        let m = (n - 1) as nat;
        let a1 = blurred_times(a, width, height, radius, m);
        let b1 = blurred_times(b, width, height, radius, m);
        let rows_a = blurred_rows(a1, width, height, radius);
        let rows_b = blurred_rows(b1, width, height, radius);
        assert(n * radius == m * radius + radius) by (nonlinear_arith)
            requires
                n == m + 1,
        ;
        lemma_blurred_column_sample(rows_a, width, height, radius, x, y, c);
        lemma_blurred_column_sample(rows_b, width, height, radius, x, y, c);
        lemma_channel_bound(width as int, height as int, x, y, c);
        let line_a = column(rows_a, width, height, x, c);
        let line_b = column(rows_b, width, height, x, c);
        assert forall|j: int|
            0 <= j < line_a.len() && y - radius <= j <= y + radius implies #[trigger] line_a[j]
            == line_b[j] by {
            assert(line_a[j] == sample(rows_a, width, x, j, c));
            assert(line_b[j] == sample(rows_b, width, x, j, c));
            lemma_blurred_row_sample(a1, width, height, radius, x, j, c);
            lemma_blurred_row_sample(b1, width, height, radius, x, j, c);
            let across_a = row(a1, width, j, c);
            let across_b = row(b1, width, j, c);
            assert forall|i: int|
                0 <= i < across_a.len() && x - radius <= i <= x + radius implies
                #[trigger] across_a[i] == across_b[i] by {
                assert(across_a[i] == sample(a1, width, i, j, c));
                assert(across_b[i] == sample(b1, width, i, j, c));
                assert(agree_near(a, b, width, height, i, j, c, m * radius));
                law_far_pixels_do_not_count(a, b, width, height, radius, m, i, j, c);
            }
            law_mean_sees_its_window(across_a, across_b, x, radius);
        }
        law_mean_sees_its_window(line_a, line_b, y, radius);
    }
}

/// Blurring keeps the size of the buffer and what follows its pixels.
pub proof fn lemma_blurred_tail(src: Seq<u8>, width: nat, height: nat, radius: nat, n: nat)
    requires
        src.len() >= width * height * 4,
    ensures
        blurred_times(src, width, height, radius, n).len() == src.len(),
        forall|i: int|
            width * height * 4 <= i < src.len() ==> #[trigger] blurred_times(
                src,
                width,
                height,
                radius,
                n,
            )[i] == src[i],
    decreases n,
{
    if n > 0 {
        lemma_blurred_tail(src, width, height, radius, (n - 1) as nat);
    }
}

/// A channel that is the same at every pixel is so after any number of blurs.
pub proof fn law_even_channel_stays_under_blur(
    src: Seq<u8>,
    width: nat,
    height: nat,
    radius: nat,
    n: nat,
    c: int,
    v: u8,
)
    requires
        width > 0,
        src.len() >= width * height * 4,
        0 <= c < 4,
        keeps_even(width, height, radius, v),
        forall|p: int| 0 <= p < src.len() / 4 ==> #[trigger] channel(src, p, c) == v,
    ensures
        forall|p: int|
            0 <= p < src.len() / 4 ==> #[trigger] channel(
                blurred_times(src, width, height, radius, n),
                p,
                c,
            ) == v,
{
    let blurred = blurred_times(src, width, height, radius, n);
    lemma_blurred_tail(src, width, height, radius, n);
    assert forall|p: int| 0 <= p < src.len() / 4 implies #[trigger] channel(blurred, p, c) == v by {
        assert(channel(src, p, c) == v);
        if p < width * height {
            let i = 4 * p + c;
            lemma_parts_of(width as int, height as int, i);
            let x = i / 4 % (width as int);
            let y = i / 4 / (width as int);
            assert forall|a: int, b: int| 0 <= a < width && 0 <= b < height implies v
                <= #[trigger] sample(src, width, a, b, c) <= v by {
                lemma_channel_bound(width as int, height as int, a, b, c);
                lemma_channel_parts(width as int, a, b, c);
                assert(channel(src, b * width + a, c) == v);
            }
            if short_blur(width, height, radius) {
                law_blur_lies_among_near_pixels(src, width, height, radius, n, x, y, c, v, v);
            } else {
                lemma_even_channel(src, width, height, radius, n, x, y, c, v);
            }
        }
    }
}

/// A channel that is 0 or 255 at every pixel is so after any number of blurs, by
/// windows that keep it.
proof fn lemma_even_channel(
    src: Seq<u8>,
    width: nat,
    height: nat,
    radius: nat,
    n: nat,
    x: int,
    y: int,
    c: int,
    v: u8,
)
    requires
        src.len() >= width * height * 4,
        v == 0 || v == 255,
        v == 0 ==> width <= usize::MAX && height <= usize::MAX,
        v == 255 ==> full_blur(width, height, radius),
        0 <= x < width,
        0 <= y < height,
        0 <= c < 4,
        forall|i: int, j: int|
            0 <= i < width && 0 <= j < height ==> #[trigger] sample(src, width, i, j, c) == v,
    ensures
        sample(blurred_times(src, width, height, radius, n), width, x, y, c) == v,
    decreases n,
{
    if n > 0 {
        let m = (n - 1) as nat;
        let before = blurred_times(src, width, height, radius, m);
        let rows = blurred_rows(before, width, height, radius);
        lemma_blurred_column_sample(rows, width, height, radius, x, y, c);
        lemma_channel_bound(width as int, height as int, x, y, c);
        let line = column(rows, width, height, x, c);
        assert forall|j: int| 0 <= j < line.len() implies #[trigger] line[j] == v by {
            assert(line[j] == sample(rows, width, x, j, c));
            lemma_blurred_row_sample(before, width, height, radius, x, j, c);
            let across = row(before, width, j, c);
            assert forall|i: int| 0 <= i < across.len() implies #[trigger] across[i] == v by {
                assert(across[i] == sample(before, width, i, j, c));
                lemma_even_channel(src, width, height, radius, m, i, j, c, v);
            }
            lemma_even_line(across, x, radius, v);
        }
        lemma_even_line(line, y, radius, v);
    }
}

proof fn lemma_even_line(line: Seq<u8>, k: int, radius: nat, v: u8)
    requires
        0 <= k < line.len(),
        v == 0 || v == 255,
        v == 0 ==> line.len() <= usize::MAX,
        v == 255 ==> full_window(radius, line.len()),
        forall|i: int| 0 <= i < line.len() ==> #[trigger] line[i] == v,
    ensures
        box_mean(line, k, radius) == v,
{
    if v == 0 {
        law_zeros_stay_zero(line, k, radius);
    } else {
        law_full_line_stays(line, k, radius);
    }
}

/// Where no color exceeds its alpha, none does after any number of blurs.
pub proof fn law_blur_keeps_colors_below_alpha(
    src: Seq<u8>,
    width: nat,
    height: nat,
    radius: nat,
    n: nat,
)
    requires
        width > 0,
        short_blur(width, height, radius),
        src.len() >= width * height * 4,
        alpha_bounds_colors(src),
    ensures
        alpha_bounds_colors(blurred_times(src, width, height, radius, n)),
    decreases n,
{
    if n > 0 {
        let m = (n - 1) as nat;
        let before = blurred_times(src, width, height, radius, m);
        law_blur_keeps_colors_below_alpha(src, width, height, radius, m);
        lemma_blurred_tail(src, width, height, radius, m);
        law_row_blur_keeps_colors_below_alpha(before, width, height, radius);
        let rows = blurred_rows(before, width, height, radius);
        law_column_blur_keeps_colors_below_alpha(rows, width, height, radius);
        let head = blurred_columns(rows, width, height, radius);
        let out = overlaid(before, head);
        assert forall|p: int, c: int|
            0 <= p < out.len() / 4 && 0 <= c < 4 implies #[trigger] channel(out, p, c) <= channel(
            out,
            p,
            3,
        ) by {
            if p < width * height {
                assert(channel(head, p, c) <= channel(head, p, 3));
            } else {
                assert(channel(before, p, c) <= channel(before, p, 3));
            }
        }
    }
}

/// Both buffers have one size, and every pixel has the same alpha in both.
pub open spec fn same_alpha(a: Seq<u8>, b: Seq<u8>) -> bool {
    a.len() == b.len() && forall|p: int|
        0 <= p < a.len() / 4 ==> #[trigger] channel(a, p, 3) == channel(b, p, 3)
}

/// Saturating a buffer keeps every alpha, and no color rises above it.
pub proof fn law_saturation_keeps_alpha<F, G>(
    to_hsl: F,
    to_srgb: G,
    buf: Seq<u8>,
    factor: Single,
    out: Seq<u8>,
) where F: Fn([Single; 3]) -> [Single; 3], G: Fn([Single; 3]) -> [Single; 3]
    requires
        saturates_buffer(to_hsl, to_srgb, buf, factor, out),
    ensures
        same_alpha(buf, out),
        alpha_bounds_colors(buf) ==> alpha_bounds_colors(out),
{
    if !keeps_saturation(factor) {
        assert forall|p: int| 0 <= p < buf.len() / 4 implies #[trigger] channel(buf, p, 3)
            == channel(out, p, 3) by {
            lemma_saturated_pixel(to_hsl, to_srgb, buf, factor, out, p);
        }
        assert forall|p: int, c: int|
            alpha_bounds_colors(buf) && 0 <= p < out.len() / 4 && 0 <= c < 4 implies
            #[trigger] channel(out, p, c) <= channel(out, p, 3) by {
            lemma_saturated_pixel(to_hsl, to_srgb, buf, factor, out, p);
            assert(channel(buf, p, c) <= channel(buf, p, 3));
            assert(c == 0 || c == 1 || c == 2 || c == 3);
        }
    }
}

/// A saturated pixel keeps its alpha. It is the same where it was transparent;
/// no color exceeds its alpha elsewhere.
proof fn lemma_saturated_pixel<F, G>(
    to_hsl: F,
    to_srgb: G,
    buf: Seq<u8>,
    factor: Single,
    out: Seq<u8>,
    p: int,
) where F: Fn([Single; 3]) -> [Single; 3], G: Fn([Single; 3]) -> [Single; 3]
    requires
        saturates_buffer(to_hsl, to_srgb, buf, factor, out),
        !keeps_saturation(factor),
        0 <= p < buf.len() / 4,
    ensures
        channel(buf, p, 3) == channel(out, p, 3),
        channel(buf, p, 3) == 0 ==> channel(out, p, 0) == channel(buf, p, 0) && channel(out, p, 1)
            == channel(buf, p, 1) && channel(out, p, 2) == channel(buf, p, 2),
        channel(buf, p, 3) != 0 ==> channel(out, p, 0) <= channel(out, p, 3) && channel(out, p, 1)
            <= channel(out, p, 3) && channel(out, p, 2) <= channel(out, p, 3),
{
    reveal(saturates_pixel);
    let px = pixel(buf, p);
    let new = pixel(out, p);
    assert(saturates_pixel(to_hsl, to_srgb, px, factor, new));
    assert(px[0] == buf[4 * p] && px[1] == buf[4 * p + 1] && px[2] == buf[4 * p + 2] && px[3]
        == buf[4 * p + 3]);
    assert(new[0] == out[4 * p] && new[1] == out[4 * p + 1] && new[2] == out[4 * p + 2] && new[3]
        == out[4 * p + 3]);
    if px[3] != 0 {
        let srgb = choose|srgb: [Single; 3]|
            #[trigger] saturates(to_hsl, to_srgb, straight_rgb(px), factor, srgb) && new
                == premultiplied_rgba(srgb, px[3]);
        law_premultiplied_is_at_most_alpha(srgb[0], px[3]);
        law_premultiplied_is_at_most_alpha(srgb[1], px[3]);
        law_premultiplied_is_at_most_alpha(srgb[2], px[3]);
    }
}

/// Saturating an opaque pixel is saturating its color: the pixel gets what the
/// color of three bytes gets, and stays opaque.
pub proof fn law_opaque_pixel_is_its_color<F, G>(
    to_hsl: F,
    to_srgb: G,
    px: [u8; 4],
    factor: Single,
    out: [u8; 4],
) where F: Fn([Single; 3]) -> [Single; 3], G: Fn([Single; 3]) -> [Single; 3]
    requires
        px[3] == 255,
        !keeps_saturation(factor),
        saturates_pixel(to_hsl, to_srgb, px, factor, out),
    ensures
        saturates_bytes(to_hsl, to_srgb, [px[0], px[1], px[2]], factor, [out[0], out[1], out[2]]),
        out[3] == 255,
{
    reveal(saturates_pixel);
    let rgb = [px[0], px[1], px[2]];
    let srgb = choose|srgb: [Single; 3]|
        #[trigger] saturates(to_hsl, to_srgb, straight_rgb(px), factor, srgb) && out
            == premultiplied_rgba(srgb, px[3]);
    law_opaque_is_straight(px[0], srgb[0]);
    law_opaque_is_straight(px[1], srgb[1]);
    law_opaque_is_straight(px[2], srgb[2]);
    assert(straight_rgb(px) =~= unit_rgb(rgb));
    assert(saturates(to_hsl, to_srgb, unit_rgb(rgb), factor, srgb));
    assert([out[0], out[1], out[2]] =~= byte_rgb(srgb));
}

/// In a saturated buffer every opaque pixel has the color that saturating its
/// color alone gives, whatever the other pixels are, where the conversions of
/// color give one answer each.
pub proof fn law_buffer_saturates_each_color<F, G>(
    to_hsl: F,
    to_srgb: G,
    buf: Seq<u8>,
    factor: Single,
    out: Seq<u8>,
    p: int,
    color: [u8; 3],
) where F: Fn([Single; 3]) -> [Single; 3], G: Fn([Single; 3]) -> [Single; 3]
    requires
        converts_alike(to_hsl),
        converts_alike(to_srgb),
        0 <= p < buf.len() / 4,
        channel(buf, p, 3) == 255,
        saturates_buffer(to_hsl, to_srgb, buf, factor, out),
        saturates_bytes(
            to_hsl,
            to_srgb,
            [channel(buf, p, 0), channel(buf, p, 1), channel(buf, p, 2)],
            factor,
            color,
        ),
    ensures
        channel(out, p, 0) == color[0],
        channel(out, p, 1) == color[1],
        channel(out, p, 2) == color[2],
        channel(out, p, 3) == 255,
{
    let rgb = [channel(buf, p, 0), channel(buf, p, 1), channel(buf, p, 2)];
    if !keeps_saturation(factor) {
        let px = pixel(buf, p);
        let new = pixel(out, p);
        assert(saturates_pixel(to_hsl, to_srgb, px, factor, new));
        assert(px[3] == buf[4 * p + 3]);
        law_opaque_pixel_is_its_color(to_hsl, to_srgb, px, factor, new);
        assert([px[0], px[1], px[2]] =~= rgb);
        law_boost_is_determined(
            to_hsl,
            to_srgb,
            rgb,
            factor,
            [new[0], new[1], new[2]],
            color,
        );
        let same = [new[0], new[1], new[2]];
        assert(same[0] == new[0] && same[1] == new[1] && same[2] == new[2]);
        assert(new[0] == out[4 * p] && new[1] == out[4 * p + 1] && new[2] == out[4 * p + 2]
            && new[3] == out[4 * p + 3]);
    } else {
        assert(color == rgb);
        assert(rgb[0] == channel(buf, p, 0) && rgb[1] == channel(buf, p, 1) && rgb[2] == channel(
            buf,
            p,
            2,
        ));
    }
}

/// Grain keeps every alpha, and no color rises above it.
pub proof fn law_grain_keeps_alpha(buf: Seq<u8>, depth: Single, grain: Seq<Single>)
    ensures
        same_alpha(buf, with_grain(buf, depth, grain)),
        alpha_bounds_colors(with_grain(buf, depth, grain)),
{
    let out = with_grain(buf, depth, grain);
    assert forall|p: int| 0 <= p < buf.len() / 4 implies #[trigger] channel(buf, p, 3) == channel(
        out,
        p,
        3,
    ) by {
        assert((4 * p + 3) % 4 == 3);
    }
    assert forall|p: int, c: int|
        0 <= p < out.len() / 4 && 0 <= c < 4 implies #[trigger] channel(out, p, c) <= channel(
        out,
        p,
        3,
    ) by {
        assert((4 * p + c) % 4 == c && (4 * p + c) / 4 == p);
        assert(channel(buf, p, 3) == channel(out, p, 3));
    }
}

/// The layer that is mixed in has the alphas of the blurred picture.
proof fn lemma_layer_alpha<D, F, G>(
    source: D,
    to_hsl: F,
    to_srgb: G,
    blurred: Seq<u8>,
    params: AquarelleBleedParams,
    seed: u64,
    haloed: Seq<u8>,
    layer: Seq<u8>,
) where
    D: Fn(ChaCha8Rng, Single, Single) -> (ChaCha8Rng, Single),
    F: Fn([Single; 3]) -> [Single; 3],
    G: Fn([Single; 3]) -> [Single; 3],

    requires
        halos(to_hsl, to_srgb, blurred, params, haloed),
        textures(source, seed, haloed, params, layer),
    ensures
        same_alpha(blurred, layer),
        forall|i: int|
            blurred.len() / 4 * 4 <= i < blurred.len() ==> #[trigger] layer[i] == blurred[i],
{
    if below(Single { bits: ZERO }, params.confined().halo) {
        law_saturation_keeps_alpha(to_hsl, to_srgb, blurred, bleed_factor(params), haloed);
    }
    if below(Single { bits: ZERO }, grain_depth(params)) {
        let grain = choose|grain: Seq<Single>|
            #[trigger] grain_drawn(source, seed, grain) && grain.len() == haloed.len() / 4 && layer
                == with_grain(haloed, grain_depth(params), grain);
        law_grain_keeps_alpha(haloed, grain_depth(params), grain);
    }
    assert forall|p: int| 0 <= p < blurred.len() / 4 implies #[trigger] channel(blurred, p, 3)
        == channel(layer, p, 3) by {
        assert(channel(blurred, p, 3) == channel(haloed, p, 3));
        assert(channel(haloed, p, 3) == channel(layer, p, 3));
    }
}

/// The picture after the pass is a mixture by the clamped intensity with some
/// layer of its size, unless the pass does nothing.
pub proof fn lemma_pass_layer<D, F, G>(
    source: D,
    to_hsl: F,
    to_srgb: G,
    original: Seq<u8>,
    width: nat,
    height: nat,
    params: AquarelleBleedParams,
    seed: u64,
    out: Seq<u8>,
) -> (r: (Seq<u8>, Seq<u8>)) where
    D: Fn(ChaCha8Rng, Single, Single) -> (ChaCha8Rng, Single),
    F: Fn([Single; 3]) -> [Single; 3],
    G: Fn([Single; 3]) -> [Single; 3],

    requires
        !params.idle(),
        original.len() >= width * height * 4,
        bleeds(source, to_hsl, to_srgb, original, width, height, params, seed, out),
    ensures
        halos(
            to_hsl,
            to_srgb,
            blurred_times(original, width, height, box_radius(params), 3),
            params,
            r.0,
        ),
        textures(source, seed, r.0, params, r.1),
        r.1.len() == original.len(),
        same_alpha(blurred_times(original, width, height, box_radius(params), 3), r.1),
        forall|i: int|
            original.len() / 4 * 4 <= i < original.len() ==> #[trigger] r.1[i] == original[i],
        out == overlaid(original, mixture(original, r.1, params.confined().intensity)),
{
    let blurred = blurred_times(original, width, height, box_radius(params), 3);
    let (haloed, layer) = choose|haloed: Seq<u8>, layer: Seq<u8>|
        #[trigger] halos(to_hsl, to_srgb, blurred, params, haloed) && #[trigger] textures(
            source,
            seed,
            haloed,
            params,
            layer,
        ) && out == overlaid(original, mixture(original, layer, params.confined().intensity));
    lemma_blurred_tail(original, width, height, box_radius(params), 3);
    lemma_layer_alpha(
        source,
        to_hsl,
        to_srgb,
        blurred,
        params,
        seed,
        haloed,
        layer,
    );
    (haloed, layer)
}

/// The clamped intensity is a number in `0..=1` unless the raw one is none.
proof fn lemma_intensity(params: AquarelleBleedParams)
    requires
        !params.intensity.nan(),
    ensures
        at_most(Single { bits: ZERO }, params.confined().intensity),
        at_most(params.confined().intensity, Single { bits: ONE }),
{
    lemma_constants();
    law_order_is_by_value(Single { bits: ZERO }, Single { bits: ONE });
    law_confined_lies_within(params.intensity, Single { bits: ZERO }, Single { bits: ONE });
}

/// A grain that is drawn leaves no color above alpha; where none is, the
/// intensity is so small that the pass leaves the pixels as they are.
proof fn lemma_layer_bounds<D>(
    source: D,
    seed: u64,
    haloed: Seq<u8>,
    params: AquarelleBleedParams,
    layer: Seq<u8>,
) where D: Fn(ChaCha8Rng, Single, Single) -> (ChaCha8Rng, Single)
    requires
        !params.intensity.nan(),
        textures(source, seed, haloed, params, layer),
    ensures
        alpha_bounds_colors(layer) || 1024 * params.confined().intensity.units() <= one_unit(),
{
    let t = params.confined().intensity;
    lemma_constants();
    lemma_intensity(params);
    law_order_is_by_value(Single { bits: ZERO }, t);
    law_order_is_by_value(t, Single { bits: ONE });
    if below(Single { bits: ZERO }, grain_depth(params)) {
        let grain = choose|grain: Seq<Single>|
            #[trigger] grain_drawn(source, seed, grain) && grain.len() == haloed.len() / 4 && layer
                == with_grain(haloed, grain_depth(params), grain);
        law_grain_keeps_alpha(haloed, grain_depth(params), grain);
    } else {
        lemma_no_depth(t);
    }
}

/// A premultiplied picture stays premultiplied, however large it is: where no
/// color exceeds its alpha, none does after the pass. The size stays too.
pub proof fn law_pass_keeps_colors_below_alpha<D, F, G>(
    source: D,
    to_hsl: F,
    to_srgb: G,
    original: Seq<u8>,
    width: nat,
    height: nat,
    params: AquarelleBleedParams,
    seed: u64,
    out: Seq<u8>,
) where
    D: Fn(ChaCha8Rng, Single, Single) -> (ChaCha8Rng, Single),
    F: Fn([Single; 3]) -> [Single; 3],
    G: Fn([Single; 3]) -> [Single; 3],

    requires
        original.len() >= width * height * 4,
        bleeds(source, to_hsl, to_srgb, original, width, height, params, seed, out),
        alpha_bounds_colors(original),
    ensures
        out.len() == original.len(),
        alpha_bounds_colors(out),
{
    if !params.idle() {
        let (haloed, layer) = lemma_pass_layer(
            source,
            to_hsl,
            to_srgb,
            original,
            width,
            height,
            params,
            seed,
            out,
        );
        let t = params.confined().intensity;
        if !t.nan() {
            lemma_intensity(params);
            lemma_layer_bounds(source, seed, haloed, params, layer);
            lemma_constants();
            law_order_is_by_value(Single { bits: ZERO }, t);
        }
        assert forall|p: int, c: int|
            0 <= p < out.len() / 4 && 0 <= c < 4 implies #[trigger] channel(out, p, c) <= channel(
            out,
            p,
            3,
        ) by {
            let i = 4 * p + c;
            let j = 4 * p + 3;
            assert(channel(original, p, c) <= channel(original, p, 3));
            if t.nan() {
                lemma_blend_of_nan(original[i], layer[i], t);
            } else if 1024 * t.units() <= one_unit() {
                lemma_blend_barely(original[i], layer[i], t);
                lemma_blend_barely(original[j], layer[j], t);
            } else {
                assert(channel(layer, p, c) <= channel(layer, p, 3));
                lemma_blend_monotone(original[i], layer[i], original[j], layer[j], t);
            }
        }
    }
}

/// Alpha is mixed by the intensity with what full intensity gives it. It depends
/// neither on the halo nor on the seed, nor on any function that is handed in.
pub proof fn law_alpha_is_blended<D, F, G, D2, F2, G2>(
    source: D,
    to_hsl: F,
    to_srgb: G,
    source2: D2,
    to_hsl2: F2,
    to_srgb2: G2,
    original: Seq<u8>,
    width: nat,
    height: nat,
    full: AquarelleBleedParams,
    params: AquarelleBleedParams,
    s1: u64,
    s2: u64,
    replaced: Seq<u8>,
    out: Seq<u8>,
) where
    D: Fn(ChaCha8Rng, Single, Single) -> (ChaCha8Rng, Single),
    F: Fn([Single; 3]) -> [Single; 3],
    G: Fn([Single; 3]) -> [Single; 3],
    D2: Fn(ChaCha8Rng, Single, Single) -> (ChaCha8Rng, Single),
    F2: Fn([Single; 3]) -> [Single; 3],
    G2: Fn([Single; 3]) -> [Single; 3],

    requires
        original.len() >= width * height * 4,
        full.radius == params.radius,
        at_most(Single { bits: ONE }, full.intensity),
        !params.idle(),
        bleeds(source, to_hsl, to_srgb, original, width, height, full, s1, replaced),
        bleeds(source2, to_hsl2, to_srgb2, original, width, height, params, s2, out),
    ensures
        replaced.len() == original.len(),
        out.len() == original.len(),
        forall|p: int|
            0 <= p < original.len() / 4 ==> #[trigger] channel(out, p, 3) == blended(
                channel(original, p, 3),
                channel(replaced, p, 3),
                params.confined().intensity,
            ),
{
    lemma_constants();
    lemma_intensity(full);
    assert(!full.idle());
    let (h1, l1) = lemma_pass_layer(
        source,
        to_hsl,
        to_srgb,
        original,
        width,
        height,
        full,
        s1,
        replaced,
    );
    let (h2, l2) = lemma_pass_layer(
        source2,
        to_hsl2,
        to_srgb2,
        original,
        width,
        height,
        params,
        s2,
        out,
    );
    let blurred = blurred_times(original, width, height, box_radius(params), 3);
    assert forall|p: int| 0 <= p < original.len() / 4 implies #[trigger] channel(out, p, 3)
        == blended(
        channel(original, p, 3),
        channel(replaced, p, 3),
        params.confined().intensity,
    ) by {
        let j = 4 * p + 3;
        assert(channel(blurred, p, 3) == channel(l1, p, 3));
        assert(channel(blurred, p, 3) == channel(l2, p, 3));
        lemma_blend_ends(original[j], l1[j], full.confined().intensity);
    }
}

/// A picture with one alpha everywhere keeps it: a transparent picture stays
/// transparent, an opaque one opaque.
pub proof fn law_even_alpha_stays<D, F, G>(
    source: D,
    to_hsl: F,
    to_srgb: G,
    original: Seq<u8>,
    width: nat,
    height: nat,
    params: AquarelleBleedParams,
    seed: u64,
    out: Seq<u8>,
    v: u8,
) where
    D: Fn(ChaCha8Rng, Single, Single) -> (ChaCha8Rng, Single),
    F: Fn([Single; 3]) -> [Single; 3],
    G: Fn([Single; 3]) -> [Single; 3],

    requires
        width > 0,
        original.len() >= width * height * 4,
        bleeds(source, to_hsl, to_srgb, original, width, height, params, seed, out),
        v == 0 || !params.intensity.nan(),
        params.idle() || keeps_even(width, height, box_radius(params), v),
        forall|p: int| 0 <= p < original.len() / 4 ==> #[trigger] channel(original, p, 3) == v,
    ensures
        forall|p: int| 0 <= p < out.len() / 4 ==> #[trigger] channel(out, p, 3) == v,
{
    if !params.idle() {
        let (haloed, layer) = lemma_pass_layer(
            source,
            to_hsl,
            to_srgb,
            original,
            width,
            height,
            params,
            seed,
            out,
        );
        let r = box_radius(params);
        let blurred = blurred_times(original, width, height, r, 3);
        let t = params.confined().intensity;
        law_even_channel_stays_under_blur(original, width, height, r, 3, 3, v);
        assert forall|p: int| 0 <= p < out.len() / 4 implies #[trigger] channel(out, p, 3) == v by {
            assert(channel(blurred, p, 3) == v);
            assert(channel(blurred, p, 3) == channel(layer, p, 3));
            assert(channel(original, p, 3) == v);
            if t.nan() {
                lemma_blend_of_nan(0, 0, t);
            } else {
                lemma_intensity(params);
                lemma_blend_same(v, t);
            }
        }
    }
}

/// At an intensity of one or more the picture is replaced by the blurred layer
/// with its halo and grain.
pub proof fn law_full_intensity_replaces<D, F, G>(
    source: D,
    to_hsl: F,
    to_srgb: G,
    original: Seq<u8>,
    width: nat,
    height: nat,
    params: AquarelleBleedParams,
    seed: u64,
    out: Seq<u8>,
) where
    D: Fn(ChaCha8Rng, Single, Single) -> (ChaCha8Rng, Single),
    F: Fn([Single; 3]) -> [Single; 3],
    G: Fn([Single; 3]) -> [Single; 3],

    requires
        !params.idle(),
        at_most(Single { bits: ONE }, params.intensity),
        original.len() >= width * height * 4,
        bleeds(source, to_hsl, to_srgb, original, width, height, params, seed, out),
    ensures
        exists|haloed: Seq<u8>|
            #[trigger] halos(
                to_hsl,
                to_srgb,
                blurred_times(original, width, height, box_radius(params), 3),
                params,
                haloed,
            ) && textures(source, seed, haloed, params, out),
{
    let (haloed, layer) = lemma_pass_layer(
        source,
        to_hsl,
        to_srgb,
        original,
        width,
        height,
        params,
        seed,
        out,
    );
    lemma_intensity(params);
    let t = params.confined().intensity;
    assert(out =~= layer) by {
        assert forall|i: int| 0 <= i < out.len() implies out[i] == layer[i] by {
            lemma_blend_ends(original[i], layer[i], t);
        }
    }
}

/// Grain drawn from one seed by a source with one answer is the same grain.
pub proof fn law_grain_is_determined<D>(
    source: D,
    seed: u64,
    one: Seq<Single>,
    two: Seq<Single>,
) where D: Fn(ChaCha8Rng, Single, Single) -> (ChaCha8Rng, Single)
    requires
        draws_alike(source),
        grain_drawn(source, seed, one),
        grain_drawn(source, seed, two),
        one.len() == two.len(),
    ensures
        one == two,
{
    let s = choose|states: Seq<ChaCha8Rng>| #[trigger] grain_states(source, seed, one, states);
    let t = choose|states: Seq<ChaCha8Rng>| #[trigger] grain_states(source, seed, two, states);
    assert forall|k: int| 0 <= k < one.len() implies one[k] == two[k] by {
        lemma_grain_chain(source, seed, one, s, two, t, k + 1);
    }
    assert(one =~= two);
}

proof fn lemma_grain_chain<D>(
    source: D,
    seed: u64,
    one: Seq<Single>,
    s: Seq<ChaCha8Rng>,
    two: Seq<Single>,
    t: Seq<ChaCha8Rng>,
    k: int,
) where D: Fn(ChaCha8Rng, Single, Single) -> (ChaCha8Rng, Single)
    requires
        draws_alike(source),
        grain_states(source, seed, one, s),
        grain_states(source, seed, two, t),
        one.len() == two.len(),
        0 <= k <= one.len(),
    ensures
        s[k] == t[k],
        k > 0 ==> one[k - 1] == two[k - 1],
    decreases k,
{
    if k > 0 {
        lemma_grain_chain(source, seed, one, s, two, t, k - 1);
        let i = k - 1;
        assert(drawn(source, s[i], MINUS_ONE, ONE, s[i + 1], one[i]));
        assert(drawn(source, t[i], MINUS_ONE, ONE, t[i + 1], two[i]));
        assert((s[i + 1], one[i]) == (t[i + 1], two[i]));
    }
}

/// With conversions of one answer, saturating a pixel has one result.
proof fn lemma_pixel_is_determined<F, G>(
    to_hsl: F,
    to_srgb: G,
    px: [u8; 4],
    factor: Single,
    one: Seq<u8>,
    two: Seq<u8>,
    p: int,
) where F: Fn([Single; 3]) -> [Single; 3], G: Fn([Single; 3]) -> [Single; 3]
    requires
        converts_alike(to_hsl),
        converts_alike(to_srgb),
        saturates_pixel(to_hsl, to_srgb, px, factor, pixel(one, p)),
        saturates_pixel(to_hsl, to_srgb, px, factor, pixel(two, p)),
    ensures
        one[4 * p] == two[4 * p],
        one[4 * p + 1] == two[4 * p + 1],
        one[4 * p + 2] == two[4 * p + 2],
        one[4 * p + 3] == two[4 * p + 3],
{
    reveal(saturates_pixel);
    let a = pixel(one, p);
    let b = pixel(two, p);
    if px[3] != 0 {
        let x = choose|srgb: [Single; 3]|
            #[trigger] saturates(to_hsl, to_srgb, straight_rgb(px), factor, srgb) && a
                == premultiplied_rgba(srgb, px[3]);
        let y = choose|srgb: [Single; 3]|
            #[trigger] saturates(to_hsl, to_srgb, straight_rgb(px), factor, srgb) && b
                == premultiplied_rgba(srgb, px[3]);
        law_saturation_is_determined(to_hsl, to_srgb, straight_rgb(px), factor, x, y);
    }
    assert(a == b);
    assert(a[0] == one[4 * p] && a[1] == one[4 * p + 1] && a[2] == one[4 * p + 2] && a[3]
        == one[4 * p + 3]);
    assert(b[0] == two[4 * p] && b[1] == two[4 * p + 1] && b[2] == two[4 * p + 2] && b[3]
        == two[4 * p + 3]);
}

/// With conversions of one answer, saturating a buffer has one result.
pub proof fn law_buffer_saturation_is_determined<F, G>(
    to_hsl: F,
    to_srgb: G,
    buf: Seq<u8>,
    factor: Single,
    one: Seq<u8>,
    two: Seq<u8>,
) where F: Fn([Single; 3]) -> [Single; 3], G: Fn([Single; 3]) -> [Single; 3]
    requires
        converts_alike(to_hsl),
        converts_alike(to_srgb),
        saturates_buffer(to_hsl, to_srgb, buf, factor, one),
        saturates_buffer(to_hsl, to_srgb, buf, factor, two),
    ensures
        one == two,
{
    if !keeps_saturation(factor) {
        assert forall|i: int| 0 <= i < buf.len() implies one[i] == two[i] by {
            let p = i / 4;
            if p < buf.len() / 4 {
                assert(saturates_pixel(to_hsl, to_srgb, pixel(buf, p), factor, pixel(one, p)));
                assert(saturates_pixel(to_hsl, to_srgb, pixel(buf, p), factor, pixel(two, p)));
                lemma_pixel_is_determined(to_hsl, to_srgb, pixel(buf, p), factor, one, two, p);
                let c = i - 4 * p;
                assert(c == 0 || c == 1 || c == 2 || c == 3);
            } else {
                assert(one[i] == buf[i] && two[i] == buf[i]);
            }
        }
        assert(one =~= two);
    }
}

/// Picture, parameters and seed determine the result of the pass, where the
/// source of numbers and the conversions of color give one answer each.
pub proof fn law_pass_is_determined<D, F, G>(
    source: D,
    to_hsl: F,
    to_srgb: G,
    original: Seq<u8>,
    width: nat,
    height: nat,
    params: AquarelleBleedParams,
    seed: u64,
    one: Seq<u8>,
    two: Seq<u8>,
) where
    D: Fn(ChaCha8Rng, Single, Single) -> (ChaCha8Rng, Single),
    F: Fn([Single; 3]) -> [Single; 3],
    G: Fn([Single; 3]) -> [Single; 3],

    requires
        draws_alike(source),
        converts_alike(to_hsl),
        converts_alike(to_srgb),
        original.len() >= width * height * 4,
        bleeds(source, to_hsl, to_srgb, original, width, height, params, seed, one),
        bleeds(source, to_hsl, to_srgb, original, width, height, params, seed, two),
    ensures
        one == two,
{
    if !params.idle() {
        let (h1, l1) = lemma_pass_layer(
            source,
            to_hsl,
            to_srgb,
            original,
            width,
            height,
            params,
            seed,
            one,
        );
        let (h2, l2) = lemma_pass_layer(
            source,
            to_hsl,
            to_srgb,
            original,
            width,
            height,
            params,
            seed,
            two,
        );
        let blurred = blurred_times(original, width, height, box_radius(params), 3);
        if below(Single { bits: ZERO }, params.confined().halo) {
            law_buffer_saturation_is_determined(
                to_hsl,
                to_srgb,
                blurred,
                bleed_factor(params),
                h1,
                h2,
            );
        }
        if below(Single { bits: ZERO }, grain_depth(params)) {
            let g1 = choose|grain: Seq<Single>|
                #[trigger] grain_drawn(source, seed, grain) && grain.len() == h1.len() / 4 && l1
                    == with_grain(h1, grain_depth(params), grain);
            let g2 = choose|grain: Seq<Single>|
                #[trigger] grain_drawn(source, seed, grain) && grain.len() == h2.len() / 4 && l2
                    == with_grain(h2, grain_depth(params), grain);
            law_grain_is_determined(source, seed, g1, g2);
        }
    }
}

/// The same picture, seed and parameters, raw or clamped, give the same result,
/// where the source of numbers and the conversions of color give one answer
/// each.
pub proof fn law_pass_is_reproducible<D, F, G>(
    source: D,
    to_hsl: F,
    to_srgb: G,
    original: Seq<u8>,
    width: nat,
    height: nat,
    params: AquarelleBleedParams,
    q: AquarelleBleedParams,
    seed: u64,
    one: Seq<u8>,
    two: Seq<u8>,
) where
    D: Fn(ChaCha8Rng, Single, Single) -> (ChaCha8Rng, Single),
    F: Fn([Single; 3]) -> [Single; 3],
    G: Fn([Single; 3]) -> [Single; 3],

    requires
        draws_alike(source),
        converts_alike(to_hsl),
        converts_alike(to_srgb),
        original.len() >= width * height * 4,
        q == params || q == params.confined(),
        bleeds(source, to_hsl, to_srgb, original, width, height, params, seed, one),
        bleeds(source, to_hsl, to_srgb, original, width, height, q, seed, two),
    ensures
        one == two,
{
    law_pass_clamps(source, to_hsl, to_srgb, original, width, height, params, seed, two);
    law_pass_is_determined(
        source,
        to_hsl,
        to_srgb,
        original,
        width,
        height,
        params,
        seed,
        one,
        two,
    );
}

/// The layers of two pictures agree at a pixel where their blurred pictures do:
/// halo and grain look at no other pixel, and the grain not at the picture.
proof fn lemma_layers_agree<D, F, G>(
    source: D,
    to_hsl: F,
    to_srgb: G,
    params: AquarelleBleedParams,
    seed: u64,
    a: Seq<u8>,
    haloed_a: Seq<u8>,
    layer_a: Seq<u8>,
    b: Seq<u8>,
    haloed_b: Seq<u8>,
    layer_b: Seq<u8>,
    p: int,
) where
    D: Fn(ChaCha8Rng, Single, Single) -> (ChaCha8Rng, Single),
    F: Fn([Single; 3]) -> [Single; 3],
    G: Fn([Single; 3]) -> [Single; 3],

    requires
        draws_alike(source),
        converts_alike(to_hsl),
        converts_alike(to_srgb),
        a.len() == b.len(),
        0 <= p < a.len() / 4,
        forall|c: int| 0 <= c < 4 ==> #[trigger] channel(a, p, c) == channel(b, p, c),
        halos(to_hsl, to_srgb, a, params, haloed_a),
        halos(to_hsl, to_srgb, b, params, haloed_b),
        textures(source, seed, haloed_a, params, layer_a),
        textures(source, seed, haloed_b, params, layer_b),
    ensures
        forall|c: int| 0 <= c < 4 ==> #[trigger] channel(layer_a, p, c) == channel(layer_b, p, c),
{
    let factor = bleed_factor(params);
    assert(channel(a, p, 0) == channel(b, p, 0) && channel(a, p, 1) == channel(b, p, 1) && channel(
        a,
        p,
        2,
    ) == channel(b, p, 2) && channel(a, p, 3) == channel(b, p, 3));
    if below(Single { bits: ZERO }, params.confined().halo) && !keeps_saturation(factor) {
        assert(pixel(a, p) =~= pixel(b, p));
        assert(saturates_pixel(to_hsl, to_srgb, pixel(a, p), factor, pixel(haloed_a, p)));
        assert(saturates_pixel(to_hsl, to_srgb, pixel(b, p), factor, pixel(haloed_b, p)));
        lemma_pixel_is_determined(to_hsl, to_srgb, pixel(a, p), factor, haloed_a, haloed_b, p);
    }
    assert(haloed_a.len() == a.len() && haloed_b.len() == b.len());
    assert forall|c: int| 0 <= c < 4 implies #[trigger] channel(haloed_a, p, c) == channel(
        haloed_b,
        p,
        c,
    ) by {
        assert(c == 0 || c == 1 || c == 2 || c == 3);
    }
    let depth = grain_depth(params);
    if below(Single { bits: ZERO }, depth) {
        let g1 = choose|grain: Seq<Single>|
            #[trigger] grain_drawn(source, seed, grain) && grain.len() == haloed_a.len() / 4
                && layer_a == with_grain(haloed_a, depth, grain);
        let g2 = choose|grain: Seq<Single>|
            #[trigger] grain_drawn(source, seed, grain) && grain.len() == haloed_b.len() / 4
                && layer_b == with_grain(haloed_b, depth, grain);
        law_grain_is_determined(source, seed, g1, g2);
        lemma_grained_pixel(haloed_a, depth, g1, p);
        lemma_grained_pixel(haloed_b, depth, g2, p);
        assert(channel(haloed_a, p, 3) == channel(haloed_b, p, 3));
        assert forall|c: int| 0 <= c < 4 implies #[trigger] channel(layer_a, p, c) == channel(
            layer_b,
            p,
            c,
        ) by {
            assert(channel(haloed_a, p, c) == channel(haloed_b, p, c));
            if c < 3 {
                assert(with_grain(haloed_a, depth, g1)[4 * p + c] == channel(layer_a, p, c));
                assert(with_grain(haloed_b, depth, g2)[4 * p + c] == channel(layer_b, p, c));
            }
        }
    }
}

/// Pictures that agree within three radii of a pixel blur to the same pixel.
proof fn lemma_blurred_pixels_agree(
    a: Seq<u8>,
    b: Seq<u8>,
    width: nat,
    height: nat,
    r: nat,
    x: int,
    y: int,
)
    requires
        a.len() == b.len(),
        a.len() >= width * height * 4,
        short_blur(width, height, r),
        0 <= x < width,
        0 <= y < height,
        forall|d: int|
            0 <= d < 4 ==> #[trigger] agree_near(a, b, width, height, x, y, d, 3 * r),
    ensures
        blurred_times(a, width, height, r, 3).len() == a.len(),
        blurred_times(b, width, height, r, 3).len() == b.len(),
        forall|d: int|
            0 <= d < 4 ==> #[trigger] channel(
                blurred_times(a, width, height, r, 3),
                y * width + x,
                d,
            ) == channel(blurred_times(b, width, height, r, 3), y * width + x, d),
{
    let p = y * width + x;
    let blurred_a = blurred_times(a, width, height, r, 3);
    let blurred_b = blurred_times(b, width, height, r, 3);
    lemma_blurred_tail(a, width, height, r, 3);
    lemma_blurred_tail(b, width, height, r, 3);
    assert forall|d: int| 0 <= d < 4 implies #[trigger] channel(blurred_a, p, d) == channel(
        blurred_b,
        p,
        d,
    ) by {
        assert(agree_near(a, b, width, height, x, y, d, 3 * r));
        law_far_pixels_do_not_count(a, b, width, height, r, 3, x, y, d);
        lemma_channel_parts(width as int, x, y, d);
    }
}

/// No ink travels farther than three radii of the box: pictures that agree
/// within that reach of a pixel agree there after the pass, where the source of
/// numbers and the conversions of color give one answer each.
pub proof fn law_pass_sees_near_pixels<D, F, G>(
    source: D,
    to_hsl: F,
    to_srgb: G,
    a: Seq<u8>,
    b: Seq<u8>,
    width: nat,
    height: nat,
    params: AquarelleBleedParams,
    seed: u64,
    out_a: Seq<u8>,
    out_b: Seq<u8>,
    x: int,
    y: int,
    c: int,
) where
    D: Fn(ChaCha8Rng, Single, Single) -> (ChaCha8Rng, Single),
    F: Fn([Single; 3]) -> [Single; 3],
    G: Fn([Single; 3]) -> [Single; 3],

    requires
        draws_alike(source),
        converts_alike(to_hsl),
        converts_alike(to_srgb),
        a.len() == b.len(),
        a.len() >= width * height * 4,
        params.idle() || short_blur(width, height, box_radius(params)),
        0 <= x < width,
        0 <= y < height,
        0 <= c < 4,
        forall|d: int|
            0 <= d < 4 ==> #[trigger] agree_near(
                a,
                b,
                width,
                height,
                x,
                y,
                d,
                3 * box_radius(params),
            ),
        bleeds(source, to_hsl, to_srgb, a, width, height, params, seed, out_a),
        bleeds(source, to_hsl, to_srgb, b, width, height, params, seed, out_b),
    ensures
        sample(out_a, width, x, y, c) == sample(out_b, width, x, y, c),
{
    let r = box_radius(params);
    let p = y * width + x;
    lemma_channel_parts(width as int, x, y, c);
    lemma_channel_bound(width as int, height as int, x, y, c);
    assert(agree_near(a, b, width, height, x, y, c, 3 * r));
    assert(sample(a, width, x, y, c) == sample(b, width, x, y, c));
    if !params.idle() {
        let (h1, l1) = lemma_pass_layer(
            source,
            to_hsl,
            to_srgb,
            a,
            width,
            height,
            params,
            seed,
            out_a,
        );
        let (h2, l2) = lemma_pass_layer(
            source,
            to_hsl,
            to_srgb,
            b,
            width,
            height,
            params,
            seed,
            out_b,
        );
        let blurred_a = blurred_times(a, width, height, r, 3);
        let blurred_b = blurred_times(b, width, height, r, 3);
        lemma_blurred_pixels_agree(a, b, width, height, r, x, y);
        lemma_layers_agree(
            source,
            to_hsl,
            to_srgb,
            params,
            seed,
            blurred_a,
            h1,
            l1,
            blurred_b,
            h2,
            l2,
            p,
        );
        assert(channel(l1, p, c) == channel(l2, p, c));
    }
}

/// All pixels are alike.
pub open spec fn uniform(buf: Seq<u8>) -> bool {
    forall|p: int, c: int|
        0 <= p < buf.len() / 4 && 0 <= c < 4 ==> #[trigger] channel(buf, p, c) == channel(
            buf,
            0,
            c,
        )
}

/// Blurring a uniform picture does nothing.
pub proof fn law_uniform_blur_is_identity(
    src: Seq<u8>,
    width: nat,
    height: nat,
    radius: nat,
    n: nat,
)
    requires
        width > 0,
        short_blur(width, height, radius),
        src.len() >= width * height * 4,
        uniform(src),
    ensures
        blurred_times(src, width, height, radius, n) == src,
{
    let blurred = blurred_times(src, width, height, radius, n);
    lemma_blurred_tail(src, width, height, radius, n);
    assert forall|i: int| 0 <= i < src.len() implies blurred[i] == src[i] by {
        let p = i / 4;
        let c = i % 4;
        if p < src.len() / 4 {
            let v = channel(src, 0, c);
            law_even_channel_stays_under_blur(src, width, height, radius, n, c, v);
            assert(channel(src, p, c) == v);
            assert(channel(blurred, p, c) == v);
        }
    }
    assert(blurred =~= src);
}

/// A faint grain moves a byte by 26 at most.
proof fn lemma_grain_stays_close(buf: Seq<u8>, depth: Single, grain: Seq<Single>)
    requires
        alpha_bounds_colors(buf),
        depth.finite(),
        0 <= depth.units(),
        1000 * depth.units() <= 101 * one_unit(),
        grain.len() == buf.len() / 4,
        forall|p: int|
            0 <= p < grain.len() ==> at_most(Single { bits: MINUS_ONE }, #[trigger] grain[p])
                && at_most(grain[p], Single { bits: ONE }),
    ensures
        forall|i: int|
            0 <= i < buf.len() ==> buf[i] - 26 <= #[trigger] with_grain(buf, depth, grain)[i]
                <= buf[i] + 26,
{
    assert forall|i: int| 0 <= i < buf.len() implies buf[i] - 26 <= #[trigger] with_grain(
        buf,
        depth,
        grain,
    )[i] <= buf[i] + 26 by {
        if i % 4 != 3 && i < buf.len() / 4 * 4 {
            let p = i / 4;
            assert(channel(buf, p, i % 4) <= channel(buf, p, 3));
            lemma_grain_is_near(buf[i], buf[i / 4 * 4 + 3], grain[p], depth);
        }
    }
}

/// A uniform picture stays close: the blur does nothing to it, and without a
/// halo only the grain moves a byte, by 26 at most.
pub proof fn law_uniform_stays_close<D, F, G>(
    source: D,
    to_hsl: F,
    to_srgb: G,
    original: Seq<u8>,
    width: nat,
    height: nat,
    params: AquarelleBleedParams,
    seed: u64,
    out: Seq<u8>,
) where
    D: Fn(ChaCha8Rng, Single, Single) -> (ChaCha8Rng, Single),
    F: Fn([Single; 3]) -> [Single; 3],
    G: Fn([Single; 3]) -> [Single; 3],

    requires
        draws_within(source, MINUS_ONE, ONE),
        width > 0,
        original.len() >= width * height * 4,
        params.idle() || short_blur(width, height, box_radius(params)),
        alpha_bounds_colors(original),
        uniform(original),
        at_most(params.halo, Single { bits: ZERO }),
        !params.intensity.nan(),
        bleeds(source, to_hsl, to_srgb, original, width, height, params, seed, out),
    ensures
        out.len() == original.len(),
        forall|i: int|
            0 <= i < out.len() ==> original[i] - 26 <= #[trigger] out[i] <= original[i] + 26,
{
    if !params.idle() {
        let (haloed, layer) = lemma_pass_layer(
            source,
            to_hsl,
            to_srgb,
            original,
            width,
            height,
            params,
            seed,
            out,
        );
        let r = box_radius(params);
        let blurred = blurred_times(original, width, height, r, 3);
        let zero = Single { bits: ZERO };
        let t = params.confined().intensity;
        lemma_constants();
        lemma_intensity(params);
        law_uniform_blur_is_identity(original, width, height, r, 3);
        assert(haloed == original);
        let depth = grain_depth(params);
        if below(zero, depth) {
            let grain = choose|grain: Seq<Single>|
                #[trigger] grain_drawn(source, seed, grain) && grain.len() == haloed.len() / 4
                    && layer == with_grain(haloed, depth, grain);
            let states = choose|states: Seq<ChaCha8Rng>|
                #[trigger] grain_states(source, seed, grain, states);
            lemma_depth_bound(params);
            assert forall|p: int| 0 <= p < grain.len() implies at_most(
                Single { bits: MINUS_ONE },
                #[trigger] grain[p],
            ) && at_most(grain[p], Single { bits: ONE }) by {
                assert(drawn(source, states[p], MINUS_ONE, ONE, states[p + 1], grain[p]));
            }
            lemma_grain_stays_close(original, depth, grain);
        }
        assert forall|i: int| 0 <= i < out.len() implies original[i] - 26 <= #[trigger] out[i]
            <= original[i] + 26 by {
            let o = original[i];
            let b = layer[i];
            law_blending(o, b, o, b, t);
        }
    }
}

/// The depth of the grain is at most a little over a tenth.
proof fn lemma_depth_bound(params: AquarelleBleedParams)
    requires
        !params.intensity.nan(),
    ensures
        grain_depth(params).finite(),
        0 <= grain_depth(params).units(),
        1000 * grain_depth(params).units() <= 101 * one_unit(),
{
    let zero = Single { bits: ZERO };
    let one = Single { bits: ONE };
    let tenth = Single { bits: GRAIN_DEPTH };
    let w = one_unit();
    let t = params.confined().intensity;
    lemma_constants();
    lemma_intensity(params);
    lemma_grain_depth_units();
    law_order_is_by_value(zero, t);
    law_order_is_by_value(t, one);
    lemma_product_rank(tenth, t);
    assert(0 * w <= tenth.units() * t.units() && tenth.units() * t.units() <= tenth.units() * w)
        by (nonlinear_arith)
        requires
            0 <= t.units() <= w,
            0 <= tenth.units(),
    ;
    lemma_rank_between(grain_depth(params), tenth.units() * t.units(), w, zero, tenth);
}

} // verus!
