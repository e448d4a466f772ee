//! The spiral bleed as a WGSL fragment, for renderers on the GPU.

use vstd::prelude::*;

verus! {

/// The spiral bleed in WGSL: the blur of [`crate::spiral`] and its color
/// character, with the same formulas and constants.
///
/// A shader takes it in by concatenation and has to define `TAU`, `hash21`,
/// `clampf` and `coverage_at` before it. The comment at the head of the fragment
/// gives their signatures.
pub const AQUA_BLEED_WGSL: &'static str =
    "// Spiral bleed: a blur of coverage over a golden-angle spiral of 48 taps, and
// the color character of what was blurred.
//
// The shader that this fragment is joined to defines before it:
//   const TAU: f32 = 6.28318530718;
//     a full turn in radians;
//   fn hash21(p: vec2<f32>) -> f32
//     a hash of a point, in 0..1;
//   fn clampf(x: f32, low: f32, high: f32) -> f32
//     x drawn into low..high;
//   fn coverage_at(p: vec2<f32>) -> vec2<f32>
//     the straight alpha (x) and the color scale (y) of the primitive at a point.

const AQUA_BLUR_TAPS: u32 = 48u;
const AQUA_GOLDEN_ANGLE: f32 = 2.39996323;
const BLOOM_MAX: f32 = 0.45;
const HALO_SAT_GAIN: f32 = 0.6;
const AQUA_OFFSET_BIAS: f32 = 0.6;

// A direction that depends on the seed alone.
fn aqua_seed_dir(seed: f32) -> vec2<f32> {
    let a = hash21(vec2<f32>(seed * 12.9898, seed * 78.233 + 4.1)) * TAU;
    return vec2<f32>(cos(a), sin(a));
}

// Mean alpha, and mean color scale weighted by alpha, over a spiral of taps.
fn blurred_coverage(
    sample_px: vec2<f32>,
    blur_px: f32,
    seed: f32,
    bias_px: vec2<f32>,
) -> vec2<f32> {
    let nf = f32(AQUA_BLUR_TAPS);
    let ang0 = seed * AQUA_GOLDEN_ANGLE * 7.0 + hash21(sample_px) * TAU;
    let origin = sample_px + bias_px;
    var sum_a = 0.0;
    var sum_scaled = 0.0;
    for (var k = 0u; k < AQUA_BLUR_TAPS; k = k + 1u) {
        let kf = f32(k);
        let rr = blur_px * sqrt((kf + 0.5) / nf);
        let th = ang0 + kf * AQUA_GOLDEN_ANGLE;
        let cov = coverage_at(origin + vec2<f32>(cos(th), sin(th)) * rr);
        sum_a = sum_a + cov.x;
        sum_scaled = sum_scaled + cov.x * cov.y;
    }
    var scale = 1.0;
    if (sum_a > 0.0) {
        scale = sum_scaled / sum_a;
    }
    return vec2<f32>(sum_a / nf, scale);
}

// Saturation towards the edge, then a soft white core.
fn aqua_character(color: vec3<f32>, cov_a: f32, bloom: f32, halo: f32) -> vec3<f32> {
    var rgb = color;
    if (halo > 0.0) {
        let edgeness = smoothstep(0.45, 0.05, cov_a);
        let luma = dot(rgb, vec3<f32>(0.299, 0.587, 0.114));
        let gain = 1.0 + halo * HALO_SAT_GAIN * edgeness;
        rgb = vec3<f32>(
            clampf(luma + (rgb.x - luma) * gain, 0.0, 1.0),
            clampf(luma + (rgb.y - luma) * gain, 0.0, 1.0),
            clampf(luma + (rgb.z - luma) * gain, 0.0, 1.0),
        );
    }
    if (bloom > 0.0) {
        let t = bloom * BLOOM_MAX * smoothstep(0.18, 0.5, cov_a);
        rgb = mix(rgb, vec3<f32>(1.0), t);
    }
    return rgb;
}
";

} // verus!
