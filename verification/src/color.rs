//! Colors: alpha, mixing with white, and saturation.
//!
//! Saturation is changed in HSL. The two conversions between sRGB and HSL are
//! handed in by the caller; a color in either space is three numbers.

use vstd::prelude::*;

pub mod laws;
pub mod mixing;

use crate::single::arith::{difference, product, quotient, sum};
use crate::single::convert::{rounded, saturated, whole};
use crate::single::order::{below, confined};
use crate::single::{signed, Single, BYTE_MAX, EPSILON, ONE, ZERO};

verus! {

/// `rgb` with alpha `a`.
pub fn color_with_alpha(rgb: [u8; 3], a: u8) -> (r: [u8; 4])
    ensures
        r == [rgb[0], rgb[1], rgb[2], a],
{
    [rgb[0], rgb[1], rgb[2], a]
}

/// `x` drawn into `0..=1`.
pub open spec fn unit_interval(x: Single) -> Single {
    confined(x, Single { bits: ZERO }, Single { bits: ONE })
}

/// `x` drawn into `0..=1`.
pub(crate) fn clamp_unit(x: Single) -> (r: Single)
    ensures
        r == unit_interval(x),
{
    x.clamp(Single::from_bits(ZERO), Single::from_bits(ONE))
}

/// `x` rounded to a byte.
pub open spec fn byte_of(x: Single) -> u8 {
    saturated(rounded(x), 255) as u8
}

/// `x` rounded to a byte.
pub(crate) fn to_byte(x: Single) -> (r: u8)
    ensures
        r == byte_of(x),
{
    x.round().to_u8()
}

/// `x` drawn into the range of a byte and rounded.
pub open spec fn byte_within(x: Single) -> u8 {
    byte_of(confined(x, Single { bits: ZERO }, Single { bits: BYTE_MAX }))
}

/// `x` drawn into the range of a byte and rounded.
pub(crate) fn to_byte_within(x: Single) -> (r: u8)
    ensures
        r == byte_within(x),
{
    to_byte(x.clamp(Single::from_bits(ZERO), Single::from_bits(BYTE_MAX)))
}

/// A byte as a part of 255.
pub open spec fn unit_channel(c: u8) -> Single {
    quotient(whole(c as nat), Single { bits: BYTE_MAX })
}

/// A byte as a part of 255.
pub(crate) fn byte_to_unit(c: u8) -> (r: Single)
    ensures
        r == unit_channel(c),
{
    Single::from_u32(c as u32).over(Single::from_bits(BYTE_MAX))
}

/// A part of one, drawn into `0..=1`, as a byte.
pub open spec fn byte_channel(x: Single) -> u8 {
    byte_of(product(unit_interval(x), Single { bits: BYTE_MAX }))
}

/// A part of one, drawn into `0..=1`, as a byte.
fn unit_to_byte(x: Single) -> (r: u8)
    ensures
        r == byte_channel(x),
{
    to_byte(clamp_unit(x).times(Single::from_bits(BYTE_MAX)))
}

/// `c`, a channel, moved towards white by `amount` of the way.
pub open spec fn whitened(c: u8, amount: Single) -> u8 {
    let a = unit_interval(amount);
    byte_of(
        sum(
            product(whole(c as nat), difference(Single { bits: ONE }, a)),
            product(Single { bits: BYTE_MAX }, a),
        ),
    )
}

fn whiten(c: u8, amount: Single) -> (r: u8)
    ensures
        r == whitened(c, amount),
{
    let a = clamp_unit(amount);
    let kept = Single::from_u32(c as u32).times(Single::from_bits(ONE).minus(a));
    to_byte(kept.plus(Single::from_bits(BYTE_MAX).times(a)))
}

/// `rgb` moved towards white by `amount` of the way, which is drawn into
/// `0..=1`.
pub fn mix_with_white(rgb: [u8; 3], amount: Single) -> (r: [u8; 3])
    ensures
        r == [whitened(rgb[0], amount), whitened(rgb[1], amount), whitened(rgb[2], amount)],
{
    [whiten(rgb[0], amount), whiten(rgb[1], amount), whiten(rgb[2], amount)]
}

/// A factor so close to one that nothing is changed.
pub open spec fn keeps_saturation(factor: Single) -> bool {
    below(
        signed(false, difference(factor, Single { bits: ONE }).magnitude()),
        Single { bits: EPSILON },
    )
}

/// Whether a factor is so close to one that nothing is changed.
pub fn is_neutral(factor: Single) -> (r: bool)
    ensures
        r == keeps_saturation(factor),
{
    factor.minus(Single::from_bits(ONE)).abs().less_than(Single::from_bits(EPSILON))
}

/// A color of three bytes as parts of 255.
pub open spec fn unit_rgb(rgb: [u8; 3]) -> [Single; 3] {
    [unit_channel(rgb[0]), unit_channel(rgb[1]), unit_channel(rgb[2])]
}

/// A color of three parts as bytes.
pub open spec fn byte_rgb(srgb: [Single; 3]) -> [u8; 3] {
    [byte_channel(srgb[0]), byte_channel(srgb[1]), byte_channel(srgb[2])]
}

/// An HSL color with its saturation multiplied by `factor`, at most to one.
pub open spec fn saturation_scaled(hsl: [Single; 3], factor: Single) -> [Single; 3] {
    [hsl[0], unit_interval(product(hsl[1], factor)), hsl[2]]
}

/// A color of three bytes as parts of 255.
pub fn to_unit_rgb(rgb: [u8; 3]) -> (r: [Single; 3])
    ensures
        r == unit_rgb(rgb),
{
    [byte_to_unit(rgb[0]), byte_to_unit(rgb[1]), byte_to_unit(rgb[2])]
}

/// A color of three parts as bytes.
pub fn to_byte_rgb(srgb: [Single; 3]) -> (r: [u8; 3])
    ensures
        r == byte_rgb(srgb),
{
    [unit_to_byte(srgb[0]), unit_to_byte(srgb[1]), unit_to_byte(srgb[2])]
}

/// Multiplies the saturation of an HSL color by `factor`, at most to one.
pub fn scale_saturation(hsl: [Single; 3], factor: Single) -> (r: [Single; 3])
    ensures
        r == saturation_scaled(hsl, factor),
{
    [hsl[0], clamp_unit(hsl[1].times(factor)), hsl[2]]
}

/// `out` is `srgb` with its saturation multiplied by `factor`, by way of some
/// answer of either conversion.
pub open spec fn saturates<F, G>(
    to_hsl: F,
    to_srgb: G,
    srgb: [Single; 3],
    factor: Single,
    out: [Single; 3],
) -> bool where F: Fn([Single; 3]) -> [Single; 3], G: Fn([Single; 3]) -> [Single; 3] {
    exists|hsl: [Single; 3]|
        #[trigger] call_ensures(to_hsl, (srgb,), hsl) && call_ensures(
            to_srgb,
            (saturation_scaled(hsl, factor),),
            out,
        )
}

/// `out` is the color of three bytes `rgb` with its saturation multiplied by
/// `factor`.
pub open spec fn saturates_bytes<F, G>(
    to_hsl: F,
    to_srgb: G,
    rgb: [u8; 3],
    factor: Single,
    out: [u8; 3],
) -> bool where F: Fn([Single; 3]) -> [Single; 3], G: Fn([Single; 3]) -> [Single; 3] {
    if keeps_saturation(factor) {
        out == rgb
    } else {
        exists|srgb: [Single; 3]|
            #[trigger] saturates(to_hsl, to_srgb, unit_rgb(rgb), factor, srgb) && out == byte_rgb(
                srgb,
            )
    }
}

/// Either conversion takes any color.
pub open spec fn converts<F>(f: F) -> bool where F: Fn([Single; 3]) -> [Single; 3] {
    forall|x: [Single; 3]| call_requires(f, (x,))
}

/// Multiplies the saturation of `srgb` by `factor`.
pub(crate) fn saturate<F, G>(
    srgb: [Single; 3],
    factor: Single,
    to_hsl: &F,
    to_srgb: &G,
) -> (r: [Single; 3]) where F: Fn([Single; 3]) -> [Single; 3], G: Fn([Single; 3]) -> [Single; 3]
    requires
        converts(*to_hsl),
        converts(*to_srgb),
    ensures
        saturates(*to_hsl, *to_srgb, srgb, factor, r),
{
    let hsl = to_hsl(srgb);
    to_srgb(scale_saturation(hsl, factor))
}

/// `rgb` with its saturation multiplied by `factor`, at most to one. With a
/// factor of one the color is kept as it is.
pub fn boost_saturation<F, G>(
    rgb: [u8; 3],
    factor: Single,
    to_hsl: &F,
    to_srgb: &G,
) -> (r: [u8; 3]) where F: Fn([Single; 3]) -> [Single; 3], G: Fn([Single; 3]) -> [Single; 3]
    requires
        converts(*to_hsl),
        converts(*to_srgb),
    ensures
        saturates_bytes(*to_hsl, *to_srgb, rgb, factor, r),
{
    if is_neutral(factor) {
        return rgb;
    }
    let out = saturate(to_unit_rgb(rgb), factor, to_hsl, to_srgb);
    to_byte_rgb(out)
}

} // verus!
