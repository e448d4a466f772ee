//! Watercolor rendering: soft orbs, a bleed pass over a picture, and a spiral
//! bleed of single primitives.
//!
//! An orb is made of four elements, each tunable in `0..=1`. Bleed scatters
//! small gradients of the same color around it, bloom puts a near-white core
//! into it, offset moves the gradient's center off the geometric one, and halo
//! saturates the falloff. [`render_aquarelle_orb`] decides on the gradients and
//! paints them one over the other.
//!
//! [`render_aquarelle_bleed_pass`] bleeds the pixels of a whole
//! `tiny_skia::Pixmap`: it blurs them by three box blurs, raises their
//! saturation, multiplies a paper grain onto them and mixes the result into the
//! picture.
//!
//! The spiral bleed averages the coverage of a primitive over a disk of taps
//! ([`aqua_blurred_coverage_cpu`]) and gives the color its character
//! ([`aqua_character_cpu`]). [`AQUA_BLEED_WGSL`] is its shader.
//!
//! Numbers are binary32 numbers held by their bits, with arithmetic that is
//! proved to round as IEEE 754 says ([`single::Single`]). Sine and cosine, the
//! conversions between sRGB and HSL, drawing a number from a range and painting
//! one gradient are handed in as functions. What is promised of the results, such
//! as that they are determined by the seed, stands in the `laws` modules and
//! beside them.

pub mod bleed;
pub mod blur;
pub mod color;
pub mod draw;
pub mod orb;
pub mod pixmap;
pub mod shader;
pub mod single;
pub mod spiral;

pub use bleed::{render_aquarelle_bleed_pass, AquarelleBleedParams};
pub use orb::{render_aquarelle_orb, seeded_layers, AquarelleParams, RadialLayer};
pub use shader::AQUA_BLEED_WGSL;
pub use single::Single;
pub use spiral::{
    aqua_blurred_coverage_cpu, aqua_character_cpu, aqua_hash21, aqua_seed_dir_cpu,
    SpiralBleedParams, AQUA_BLUR_TAPS, AQUA_GOLDEN_ANGLE, AQUA_OFFSET_BIAS, AQUA_TAU, BLOOM_MAX,
    HALO_SAT_GAIN,
};
