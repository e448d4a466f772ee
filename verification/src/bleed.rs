//! The bleed pass: bleeds the pixels of a whole pixmap.
//!
//! The picture is blurred three times by a box, which comes close to a
//! Gaussian, its saturation is raised, a paper grain is multiplied onto it,
//! and the result is blended into the picture. How a number is drawn from a
//! range and the conversions of color are the caller's.

use rand_chacha::ChaCha8Rng;
use tiny_skia::Pixmap;
use vstd::prelude::*;
use vstd::slice::slice_to_vec;

pub mod amounts;
pub mod bytes;
pub mod laws;
pub mod spread;

use crate::blur::{
    blurred_columns, blurred_rows, box_blur_horizontal, box_blur_vertical,
    lemma_columns_of_overlaid, overlaid,
};
use crate::color::{
    byte_of, byte_to_unit, byte_within, clamp_unit, converts, is_neutral, keeps_saturation,
    saturate, saturates, to_byte, to_byte_within, unit_channel, unit_interval,
};
use crate::draw::{draw_from, drawn, draws_from, seed_generator, seeded_state};
use crate::pixmap::{pixmap_bytes, pixmap_height, pixmap_width};
use crate::single::arith::{difference, product, quotient, sum};
use crate::single::convert::{rounded, saturated, whole};
use crate::single::order::{at_most, below, confined, greater};
use crate::single::{Single, BYTE_MAX, HALF, MINUS_ONE, ONE, THREE, ZERO};

verus! {

/// The bits of 0.3, the halo of the preset.
pub const MILD_HALO: u32 = 0x3E99_999A;

/// The bits of 1.15, the radius of the box over that of the spread.
pub const BOX_RATIO: u32 = 0x3F93_3333;

/// The bits of 0.6, the gain of saturation at full halo.
pub const HALO_GAIN: u32 = 0x3F19_999A;

/// The bits of 0.1, the amplitude of the grain at full intensity.
pub const GRAIN_DEPTH: u32 = 0x3DCC_CCCD;

/// The knobs of the bleed pass. Values outside the ranges are drawn into
/// them, so raw slider values can be passed.
#[derive(Debug, Clone, Copy)]
pub struct AquarelleBleedParams {
    /// The radius of the spread in pixels. Zero disables the pass.
    pub radius: Single,
    /// How much of the blurred layer shows, in `0..=1`. Zero leaves the
    /// pixmap untouched, one replaces it.
    pub intensity: Single,
    /// Saturation boost of the blurred layer, in `0..=1`: none at zero, by 1.6
    /// at one.
    pub halo: Single,
}

impl Default for AquarelleBleedParams {
    /// A mild bleed of ink on paper: radius 3, intensity 0.5, halo 0.3.
    fn default() -> (r: Self)
        ensures
            r.radius.bits == THREE,
            r.intensity.bits == HALF,
            r.halo.bits == MILD_HALO,
    {
        AquarelleBleedParams {
            radius: Single::from_bits(THREE),
            intensity: Single::from_bits(HALF),
            halo: Single::from_bits(MILD_HALO),
        }
    }
}

impl AquarelleBleedParams {
    /// Every field drawn into its range.
    pub open spec fn confined(self) -> AquarelleBleedParams {
        AquarelleBleedParams {
            radius: greater(self.radius, Single { bits: ZERO }),
            intensity: unit_interval(self.intensity),
            halo: unit_interval(self.halo),
        }
    }

    /// A copy with every field drawn into its range, as the pass takes them.
    pub fn clamped(self) -> (r: Self)
        ensures
            r == self.confined(),
    {
        AquarelleBleedParams {
            radius: self.radius.max(Single::from_bits(ZERO)),
            intensity: clamp_unit(self.intensity),
            halo: clamp_unit(self.halo),
        }
    }

    /// The pass does nothing.
    pub open spec fn idle(self) -> bool {
        at_most(self.confined().radius, Single { bits: ZERO }) || at_most(
            self.confined().intensity,
            Single { bits: ZERO },
        )
    }

    /// Whether the pass does nothing, and so takes no grain.
    pub fn is_idle(self) -> (r: bool)
        ensures
            r == self.idle(),
    {
        let p = self.clamped();
        let zero = Single::from_bits(ZERO);
        p.radius.no_more_than(zero) || p.intensity.no_more_than(zero)
    }
}

/// The radius of the box in pixels, at least one.
pub open spec fn box_radius(params: AquarelleBleedParams) -> nat {
    let r = saturated(
        greater(
            rounded(product(params.confined().radius, Single { bits: BOX_RATIO })),
            Single { bits: ONE },
        ),
        usize::MAX as nat,
    );
    if r < 1 {
        1
    } else {
        r
    }
}

/// The radius of the box in pixels, at least one.
pub fn box_radius_of(params: AquarelleBleedParams) -> (r: usize)
    ensures
        r == box_radius(params),
{
    let p = params.clamped();
    let r = p.radius.times(Single::from_bits(BOX_RATIO)).round().max(
        Single::from_bits(ONE),
    ).to_usize();
    if r < 1 {
        1
    } else {
        r
    }
}

/// One blur: along the rows, then along the columns. What follows the pixels
/// stays.
pub open spec fn blurred_once(src: Seq<u8>, width: nat, height: nat, radius: nat) -> Seq<u8> {
    overlaid(
        src,
        blurred_columns(blurred_rows(src, width, height, radius), width, height, radius),
    )
}

/// The blur applied `n` times.
pub open spec fn blurred_times(src: Seq<u8>, width: nat, height: nat, radius: nat, n: nat) -> Seq<
    u8,
>
    decreases n,
{
    if n == 0 {
        src
    } else {
        blurred_once(
            blurred_times(src, width, height, radius, (n - 1) as nat),
            width,
            height,
            radius,
        )
    }
}

/// Blurs a buffer three times.
pub fn blur_three_times(src: &[u8], width: usize, height: usize, radius: usize) -> (r: Vec<u8>)
    requires
        width >= 1,
        height >= 1,
        src@.len() >= width * height * 4,
    ensures
        r@ == blurred_times(src@, width as nat, height as nat, radius as nat, 3),
        r@.len() == src@.len(),
{
    let mut blurred = slice_to_vec(src);
    let mut scratch = slice_to_vec(src);
    let mut n: u32 = 0;
    while n < 3
        invariant
            n <= 3,
            width >= 1,
            height >= 1,
            src@.len() >= width * height * 4,
            blurred@.len() == src@.len(),
            scratch@.len() == src@.len(),
            blurred@ == blurred_times(src@, width as nat, height as nat, radius as nat, n as nat),
        decreases 3 - n,
    {
        let ghost before = blurred@;
        let ghost rows = blurred_rows(before, width as nat, height as nat, radius as nat);
        let ghost below = scratch@;
        box_blur_horizontal(blurred.as_slice(), scratch.as_mut_slice(), width, height, radius);
        proof {
            lemma_columns_of_overlaid(below, rows, width as nat, height as nat, radius as nat);
        }
        box_blur_vertical(scratch.as_slice(), blurred.as_mut_slice(), width, height, radius);
        n = n + 1;
    }
    blurred
}

/// Pixel `p` of a buffer.
pub open spec fn pixel(buf: Seq<u8>, p: int) -> [u8; 4] {
    [buf[4 * p], buf[4 * p + 1], buf[4 * p + 2], buf[4 * p + 3]]
}

/// A premultiplied channel made straight: divided by alpha, within `0..=1`.
pub open spec fn straight(c: u8, a: u8) -> Single {
    unit_interval(quotient(unit_channel(c), unit_channel(a)))
}

/// A straight channel, drawn into `0..=1`, premultiplied with alpha.
pub open spec fn premultiplied(x: Single, a: u8) -> u8 {
    byte_of(product(product(unit_interval(x), unit_channel(a)), Single { bits: BYTE_MAX }))
}

/// The straight color of a premultiplied pixel.
pub open spec fn straight_rgb(px: [u8; 4]) -> [Single; 3] {
    [straight(px[0], px[3]), straight(px[1], px[3]), straight(px[2], px[3])]
}

/// A straight color premultiplied with alpha.
pub open spec fn premultiplied_rgba(srgb: [Single; 3], a: u8) -> [u8; 4] {
    [premultiplied(srgb[0], a), premultiplied(srgb[1], a), premultiplied(srgb[2], a), a]
}

/// `out` is the premultiplied pixel `px` with its saturation multiplied by
/// `factor`. A transparent pixel has no hue and stays as it is.
#[verifier::opaque]
pub open spec fn saturates_pixel<F, G>(
    to_hsl: F,
    to_srgb: G,
    px: [u8; 4],
    factor: Single,
    out: [u8; 4],
) -> bool where F: Fn([Single; 3]) -> [Single; 3], G: Fn([Single; 3]) -> [Single; 3] {
    if px[3] == 0 {
        out == px
    } else {
        exists|srgb: [Single; 3]|
            #[trigger] saturates(to_hsl, to_srgb, straight_rgb(px), factor, srgb) && out
                == premultiplied_rgba(srgb, px[3])
    }
}

/// `out` is the buffer `buf` with the saturation of every pixel multiplied by
/// `factor`. Bytes past the last whole pixel stay.
pub open spec fn saturates_buffer<F, G>(
    to_hsl: F,
    to_srgb: G,
    buf: Seq<u8>,
    factor: Single,
    out: Seq<u8>,
) -> bool where F: Fn([Single; 3]) -> [Single; 3], G: Fn([Single; 3]) -> [Single; 3] {
    if keeps_saturation(factor) {
        out == buf
    } else {
        &&& out.len() == buf.len()
        &&& forall|p: int|
            0 <= p < buf.len() / 4 ==> saturates_pixel(
                to_hsl,
                to_srgb,
                pixel(buf, p),
                factor,
                #[trigger] pixel(out, p),
            )
        &&& forall|i: int| buf.len() / 4 * 4 <= i < buf.len() ==> #[trigger] out[i] == buf[i]
    }
}

fn to_straight(c: u8, a: u8) -> (r: Single)
    ensures
        r == straight(c, a),
{
    clamp_unit(byte_to_unit(c).over(byte_to_unit(a)))
}

fn to_premultiplied(x: Single, a: u8) -> (r: u8)
    ensures
        r == premultiplied(x, a),
{
    to_byte(clamp_unit(x).times(byte_to_unit(a)).times(Single::from_bits(BYTE_MAX)))
}

/// The straight color of a premultiplied pixel.
pub fn straight_color(px: [u8; 4]) -> (r: [Single; 3])
    ensures
        r == straight_rgb(px),
{
    [to_straight(px[0], px[3]), to_straight(px[1], px[3]), to_straight(px[2], px[3])]
}

/// A straight color premultiplied with alpha.
pub fn premultiply_color(srgb: [Single; 3], a: u8) -> (r: [u8; 4])
    ensures
        r == premultiplied_rgba(srgb, a),
{
    [
        to_premultiplied(srgb[0], a),
        to_premultiplied(srgb[1], a),
        to_premultiplied(srgb[2], a),
        a,
    ]
}

/// Multiplies the saturation of one premultiplied pixel by `factor`. Its alpha
/// stays.
fn saturate_pixel<F, G>(px: [u8; 4], factor: Single, to_hsl: &F, to_srgb: &G) -> (r: [u8; 4]) where
    F: Fn([Single; 3]) -> [Single; 3],
    G: Fn([Single; 3]) -> [Single; 3],

    requires
        converts(*to_hsl),
        converts(*to_srgb),
    ensures
        saturates_pixel(*to_hsl, *to_srgb, px, factor, r),
        r[3] == px[3],
{
    proof {
        reveal(saturates_pixel);
    }
    if px[3] == 0 {
        return px;
    }
    let out = saturate(straight_color(px), factor, to_hsl, to_srgb);
    premultiply_color(out, px[3])
}

/// Multiplies the saturation of every pixel of a premultiplied RGBA buffer by
/// `factor`. Transparent pixels are skipped; the others are made straight for
/// it and premultiplied again.
pub fn boost_saturation_buffer<F, G>(buf: &mut [u8], factor: Single, to_hsl: &F, to_srgb: &G) where
    F: Fn([Single; 3]) -> [Single; 3],
    G: Fn([Single; 3]) -> [Single; 3],

    requires
        converts(*to_hsl),
        converts(*to_srgb),
    ensures
        saturates_buffer(*to_hsl, *to_srgb, old(buf)@, factor, final(buf)@),
{
    if is_neutral(factor) {
        return;
    }
    let count: usize = buf.len() / 4;
    let mut p: usize = 0;
    while p < count
        invariant
            p <= count,
            count == old(buf)@.len() / 4,
            old(buf)@.len() <= usize::MAX,
            buf@.len() == old(buf)@.len(),
            converts(*to_hsl),
            converts(*to_srgb),
            forall|q: int|
                0 <= q < p ==> saturates_pixel(
                    *to_hsl,
                    *to_srgb,
                    pixel(old(buf)@, q),
                    factor,
                    #[trigger] pixel(buf@, q),
                ),
            forall|i: int| 4 * p <= i < old(buf)@.len() ==> #[trigger] buf@[i] == old(buf)@[i],
        decreases count - p,
    {
        let i: usize = 4 * p;
        let px: [u8; 4] = [buf[i], buf[i + 1], buf[i + 2], buf[i + 3]];
        assert(px == pixel(old(buf)@, p as int));
        let ghost before = buf@;
        let new = saturate_pixel(px, factor, to_hsl, to_srgb);
        buf[i] = new[0];
        buf[i + 1] = new[1];
        buf[i + 2] = new[2];
        assert(pixel(buf@, p as int) =~= new);
        proof {
            assert(saturates_pixel(
                *to_hsl,
                *to_srgb,
                pixel(old(buf)@, p as int),
                factor,
                pixel(buf@, p as int),
            ));
            assert forall|q: int| 0 <= q < p + 1 implies saturates_pixel(
                *to_hsl,
                *to_srgb,
                pixel(old(buf)@, q),
                factor,
                #[trigger] pixel(buf@, q),
            ) by {
                if q < p {
                    assert(pixel(before, q) =~= pixel(buf@, q));
                }
            }
        }
        p = p + 1;
    }
}

/// The factor of one grain.
pub open spec fn grain_factor(grain: Single, depth: Single) -> Single {
    sum(Single { bits: ONE }, product(grain, depth))
}

/// A premultiplied channel multiplied by a factor, at most to alpha.
pub open spec fn grained(c: u8, a: u8, factor: Single) -> u8 {
    let v = byte_within(product(whole(c as nat), factor));
    if v < a {
        v
    } else {
        a
    }
}

fn grain_channel(c: u8, a: u8, factor: Single) -> (r: u8)
    ensures
        r == grained(c, a, factor),
{
    let v = to_byte_within(Single::from_u32(c as u32).times(factor));
    if v < a {
        v
    } else {
        a
    }
}

/// A buffer of premultiplied pixels with one grain multiplied onto each. Only
/// the colors change.
pub open spec fn with_grain(buf: Seq<u8>, depth: Single, grain: Seq<Single>) -> Seq<u8> {
    Seq::new(
        buf.len(),
        |i: int|
            if i % 4 == 3 || i >= buf.len() / 4 * 4 {
                buf[i]
            } else {
                grained(buf[i], buf[i / 4 * 4 + 3], grain_factor(grain[i / 4], depth))
            },
    )
}

/// The colors of pixel `p` after the grain, and its alpha.
proof fn lemma_grained_pixel(buf: Seq<u8>, depth: Single, grain: Seq<Single>, p: int)
    requires
        0 <= p < buf.len() / 4,
    ensures
        forall|c: int|
            0 <= c < 3 ==> #[trigger] with_grain(buf, depth, grain)[4 * p + c] == grained(
                buf[4 * p + c],
                buf[4 * p + 3],
                grain_factor(grain[p], depth),
            ),
        with_grain(buf, depth, grain)[4 * p + 3] == buf[4 * p + 3],
{
    assert forall|c: int| 0 <= c < 3 implies #[trigger] with_grain(buf, depth, grain)[4 * p + c]
        == grained(buf[4 * p + c], buf[4 * p + 3], grain_factor(grain[p], depth)) by {
        let i = 4 * p + c;
        assert(i / 4 == p && i % 4 == c);
    }
}

/// `goal` holds pixel `p` of `before` with the colors multiplied by a factor.
spec fn is_grained_at(goal: Seq<u8>, before: Seq<u8>, factor: Single, p: int) -> bool {
    let a = before[4 * p + 3];
    &&& goal[4 * p] == grained(before[4 * p], a, factor)
    &&& goal[4 * p + 1] == grained(before[4 * p + 1], a, factor)
    &&& goal[4 * p + 2] == grained(before[4 * p + 2], a, factor)
    &&& goal[4 * p + 3] == a
}

/// Multiplies one grain onto each pixel of a premultiplied RGBA buffer. Alpha
/// stays, and no color rises above it.
pub fn apply_grain(buf: &mut [u8], depth: Single, grain: &[Single])
    requires
        grain@.len() >= old(buf)@.len() / 4,
    ensures
        final(buf)@ == with_grain(old(buf)@, depth, grain@),
{
    let count: usize = buf.len() / 4;
    let ghost before = old(buf)@;
    let ghost goal = with_grain(before, depth, grain@);
    proof {
        assert forall|q: int| 0 <= q < count implies #[trigger] is_grained_at(
            goal,
            before,
            grain_factor(grain@[q], depth),
            q,
        ) by {
            lemma_grained_pixel(before, depth, grain@, q);
            assert(goal[4 * q + 0] == grained(
                before[4 * q + 0],
                before[4 * q + 3],
                grain_factor(grain@[q], depth),
            ));
        }
    }
    let mut p: usize = 0;
    while p < count
        invariant
            p <= count,
            count == before.len() / 4,
            before.len() <= usize::MAX,
            grain@.len() >= count,
            buf@.len() == before.len(),
            goal.len() == before.len(),
            forall|q: int|
                0 <= q < count ==> #[trigger] is_grained_at(
                    goal,
                    before,
                    grain_factor(grain@[q], depth),
                    q,
                ),
            forall|i: int| 0 <= i < 4 * p ==> #[trigger] buf@[i] == goal[i],
            forall|i: int| 4 * p <= i < before.len() ==> #[trigger] buf@[i] == before[i],
        decreases count - p,
    {
        let factor = Single::from_bits(ONE).plus(grain[p].times(depth));
        assert(is_grained_at(goal, before, grain_factor(grain@[p as int], depth), p as int));
        let i: usize = 4 * p;
        let a = buf[i + 3];
        buf[i] = grain_channel(buf[i], a, factor);
        buf[i + 1] = grain_channel(buf[i + 1], a, factor);
        buf[i + 2] = grain_channel(buf[i + 2], a, factor);
        p = p + 1;
    }
    assert(buf@ =~= goal);
}

/// A byte of the picture and one of the layer, mixed by `t`.
pub open spec fn blended(o: u8, b: u8, t: Single) -> u8 {
    byte_within(
        sum(
            product(whole(o as nat), difference(Single { bits: ONE }, t)),
            product(whole(b as nat), t),
        ),
    )
}

/// The pixels of the picture and of the layer, mixed byte by byte.
pub open spec fn mixture(original: Seq<u8>, layer: Seq<u8>, t: Single) -> Seq<u8> {
    Seq::new(original.len() / 4 * 4, |i: int| blended(original[i], layer[i], t))
}

/// Writes the pixels of the picture and of the layer, mixed by `t`, to `dst`.
/// Bytes past the last whole pixel stay.
pub fn blend_layers(dst: &mut [u8], original: &[u8], layer: &[u8], t: Single)
    requires
        old(dst)@.len() == original@.len(),
        layer@.len() == original@.len(),
    ensures
        final(dst)@ == overlaid(old(dst)@, mixture(original@, layer@, t)),
{
    let inv = Single::from_bits(ONE).minus(t);
    let len: usize = original.len() / 4 * 4;
    let mut i: usize = 0;
    while i < len
        invariant
            i <= len,
            len == original@.len() / 4 * 4,
            layer@.len() == original@.len(),
            dst@.len() == original@.len(),
            dst@.len() == old(dst)@.len(),
            inv == difference(Single { bits: ONE }, t),
            forall|j: int|
                0 <= j < i ==> #[trigger] dst@[j] == blended(original@[j], layer@[j], t),
            forall|j: int| i <= j < dst@.len() ==> #[trigger] dst@[j] == old(dst)@[j],
        decreases len - i,
    {
        let kept = Single::from_u32(original[i] as u32).times(inv);
        let bled = Single::from_u32(layer[i] as u32).times(t);
        dst[i] = to_byte_within(kept.plus(bled));
        i = i + 1;
    }
    assert(dst@ =~= overlaid(old(dst)@, mixture(original@, layer@, t)));
}

/// The amplitude of the grain.
pub open spec fn grain_depth(params: AquarelleBleedParams) -> Single {
    product(Single { bits: GRAIN_DEPTH }, params.confined().intensity)
}

/// The factor of saturation of the blurred layer.
pub open spec fn bleed_factor(params: AquarelleBleedParams) -> Single {
    sum(
        Single { bits: ONE },
        product(Single { bits: HALO_GAIN }, params.confined().halo),
    )
}

/// `out` is the blurred layer `buf` after the halo.
pub open spec fn halos<F, G>(
    to_hsl: F,
    to_srgb: G,
    buf: Seq<u8>,
    params: AquarelleBleedParams,
    out: Seq<u8>,
) -> bool where F: Fn([Single; 3]) -> [Single; 3], G: Fn([Single; 3]) -> [Single; 3] {
    if below(Single { bits: ZERO }, params.confined().halo) {
        saturates_buffer(to_hsl, to_srgb, buf, bleed_factor(params), out)
    } else {
        out == buf
    }
}

/// The generator runs through `states` while one grain after the other is
/// drawn.
pub open spec fn grain_states<D>(
    source: D,
    seed: u64,
    grain: Seq<Single>,
    states: Seq<ChaCha8Rng>,
) -> bool where D: Fn(ChaCha8Rng, Single, Single) -> (ChaCha8Rng, Single) {
    &&& states.len() == grain.len() + 1
    &&& states[0] == seeded_state(seed)
    &&& forall|i: int|
        0 <= i < grain.len() ==> drawn(
            source,
            states[i],
            MINUS_ONE,
            ONE,
            states[i + 1],
            #[trigger] grain[i],
        )
}

/// `grain` holds numbers drawn in order from a generator with the given seed.
pub open spec fn grain_drawn<D>(source: D, seed: u64, grain: Seq<Single>) -> bool where
    D: Fn(ChaCha8Rng, Single, Single) -> (ChaCha8Rng, Single),
 {
    exists|states: Seq<ChaCha8Rng>| #[trigger] grain_states(source, seed, grain, states)
}

/// Draws one grain for each of `count` pixels.
pub fn draw_grain<D>(seed: u64, count: usize, draw: &D) -> (r: Vec<Single>) where
    D: Fn(ChaCha8Rng, Single, Single) -> (ChaCha8Rng, Single),

    requires
        draws_from(*draw, MINUS_ONE, ONE),
    ensures
        r@.len() == count,
        grain_drawn(*draw, seed, r@),
{
    let mut state = seed_generator(seed);
    let ghost mut states: Seq<ChaCha8Rng> = seq![state];
    let mut grain: Vec<Single> = Vec::new();
    let mut k: usize = 0;
    while k < count
        invariant
            k <= count,
            draws_from(*draw, MINUS_ONE, ONE),
            grain@.len() == k,
            states.len() == k + 1,
            states[0] == seeded_state(seed),
            states[k as int] == state,
            forall|i: int|
                0 <= i < k ==> drawn(
                    *draw,
                    states[i],
                    MINUS_ONE,
                    ONE,
                    states[i + 1],
                    #[trigger] grain@[i],
                ),
        decreases count - k,
    {
        let (next, value) = draw_from(draw, state, MINUS_ONE, ONE);
        proof {
            states = states.push(next);
        }
        grain.push(value);
        state = next;
        k = k + 1;
    }
    assert(grain_states(*draw, seed, grain@, states));
    grain
}

/// `out` is the layer `buf` after the grain, one for each pixel.
pub open spec fn textures<D>(
    source: D,
    seed: u64,
    buf: Seq<u8>,
    params: AquarelleBleedParams,
    out: Seq<u8>,
) -> bool where D: Fn(ChaCha8Rng, Single, Single) -> (ChaCha8Rng, Single) {
    if below(Single { bits: ZERO }, grain_depth(params)) {
        exists|grain: Seq<Single>|
            #[trigger] grain_drawn(source, seed, grain) && grain.len() == buf.len() / 4 && out
                == with_grain(buf, grain_depth(params), grain)
    } else {
        out == buf
    }
}

/// `out` is the picture `original` after the pass: some layer that the blur,
/// the halo and the grain give, mixed into it.
pub open spec fn bleeds<D, F, G>(
    source: D,
    to_hsl: F,
    to_srgb: G,
    original: Seq<u8>,
    width: nat,
    height: nat,
    params: AquarelleBleedParams,
    seed: u64,
    out: Seq<u8>,
) -> bool where
    D: Fn(ChaCha8Rng, Single, Single) -> (ChaCha8Rng, Single),
    F: Fn([Single; 3]) -> [Single; 3],
    G: Fn([Single; 3]) -> [Single; 3],
 {
    if params.idle() {
        out == original
    } else {
        exists|haloed: Seq<u8>, layer: Seq<u8>|
            #[trigger] halos(
                to_hsl,
                to_srgb,
                blurred_times(original, width, height, box_radius(params), 3),
                params,
                haloed,
            ) && #[trigger] textures(source, seed, haloed, params, layer) && out == overlaid(
                original,
                mixture(original, layer, params.confined().intensity),
            )
    }
}

/// Bleeds the pixels of `pixmap`.
///
/// The blur runs on premultiplied bytes, so alpha bleeds along. Bytes that a
/// pixmap holds past its last pixel are not blurred. `seed` drives
/// the grain, and `draw` draws from a range that holds both its bounds. A pass
/// whose radius or intensity is not positive leaves the pixmap as it is.
pub fn render_aquarelle_bleed_pass<D, F, G>(
    pixmap: &mut Pixmap,
    params: AquarelleBleedParams,
    seed: u64,
    draw: &D,
    to_hsl: &F,
    to_srgb: &G,
) where
    D: Fn(ChaCha8Rng, Single, Single) -> (ChaCha8Rng, Single),
    F: Fn([Single; 3]) -> [Single; 3],
    G: Fn([Single; 3]) -> [Single; 3],

    requires
        draws_from(*draw, MINUS_ONE, ONE),
        converts(*to_hsl),
        converts(*to_srgb),
    ensures
        pixmap_width(*final(pixmap)) == pixmap_width(*old(pixmap)),
        pixmap_height(*final(pixmap)) == pixmap_height(*old(pixmap)),
        bleeds(
            *draw,
            *to_hsl,
            *to_srgb,
            pixmap_bytes(*old(pixmap)),
            pixmap_width(*old(pixmap)),
            pixmap_height(*old(pixmap)),
            params,
            seed,
            pixmap_bytes(*final(pixmap)),
        ),
{
    let p = params.clamped();
    let zero = Single::from_bits(ZERO);
    if p.radius.no_more_than(zero) || p.intensity.no_more_than(zero) {
        return;
    }
    let width = pixmap.width() as usize;
    let height = pixmap.height() as usize;
    let original = slice_to_vec(pixmap.data());
    let mut layer = blur_three_times(
        original.as_slice(),
        width,
        height,
        box_radius_of(params),
    );
    let ghost blurred = layer@;
    if zero.less_than(p.halo) {
        let factor = Single::from_bits(ONE).plus(Single::from_bits(HALO_GAIN).times(p.halo));
        boost_saturation_buffer(layer.as_mut_slice(), factor, to_hsl, to_srgb);
    }
    let ghost haloed = layer@;
    assert(halos(*to_hsl, *to_srgb, blurred, params, haloed));
    let depth = Single::from_bits(GRAIN_DEPTH).times(p.intensity);
    if zero.less_than(depth) {
        let grain = draw_grain(seed, layer.len() / 4, draw);
        apply_grain(layer.as_mut_slice(), depth, grain.as_slice());
    }
    assert(textures(*draw, seed, haloed, params, layer@));
    blend_layers(pixmap.data_mut(), original.as_slice(), layer.as_slice(), p.intensity);
}

} // verus!
