//! Colours as the eye tells them apart.
//!
//! A pixel's colour is taken into CIE L\*a\*b\* space by the `lab` crate, and
//! two such colours are told apart by the CIEDE2000 difference of the `deltae`
//! crate. Both work in single precision; this crate never looks inside a
//! [`LabValue`], and it holds a difference as the 32 bits of its binary32
//! encoding. For the values that count as distances (see [`as_distance`]) the
//! encodings are ordered as the numbers are.

use vstd::prelude::*;
use deltae::LabValue;
use crate::binary64::INFINITY32;
use crate::pixel::Rgba;

verus! {

/// A colour in L\*a\*b\* space, opaque to this crate.
#[verifier::external_type_specification]
#[verifier::external_body]
pub struct ExLabValue(LabValue);

/// The L\*a\*b\* colour that `lab::rgbs_to_labs` gives for one RGB triple.
pub uninterp spec fn lab_of_rgb(r: u8, g: u8, b: u8) -> LabValue;

/// The binary32 encoding of the CIEDE2000 difference that `deltae::DeltaE::new`
/// computes between two colours.
pub uninterp spec fn de2000_pattern(a: LabValue, b: LabValue) -> u32;

/// Encoding of negative zero in binary32.
pub const NEGATIVE_ZERO: u32 = 0x8000_0000;

/// Calls `lab::rgbs_to_labs` on the single triple `[r, g, b]` and copies the
/// three coordinates of the one colour that comes back into a `LabValue`.
///
/// Not proved, but taken from the source of `lab`: the colour is worked out
/// from the triple alone, in the machine's single precision arithmetic, so
/// the same triple always gives the same colour.
#[verifier::external_body]
fn rgb_to_lab(r: u8, g: u8, b: u8) -> (lab: LabValue)
    ensures
        lab == lab_of_rgb(r, g, b),
{
    let lab = lab::rgbs_to_labs(&[[r, g, b]])[0];
    LabValue { l: lab.l, a: lab.a, b: lab.b }
}

/// Calls `deltae::DeltaE::new` with the method `DE2000`, `a` as the
/// reference and `b` as the sample, and hands back the bits of the
/// difference it computed.
///
/// Not proved, but taken from the source of `deltae`: the difference is
/// worked out from the two colours alone, in the machine's single precision
/// arithmetic, so the same two colours in the same order always give the
/// same difference. Nothing is claimed of its size or its sign, nor that it
/// is the same the other way round.
#[verifier::external_body]
fn de2000(a: &LabValue, b: &LabValue) -> (pattern: u32)
    ensures
        pattern == de2000_pattern(*a, *b),
{
    deltae::DeltaE::new(a, b, deltae::DEMethod::DE2000).value().to_bits()
}

/// The L\*a\*b\* colour of a pixel; its alpha plays no part.
pub open spec fn pixel_lab(pixel: Rgba) -> LabValue {
    lab_of_rgb(pixel.r, pixel.g, pixel.b)
}

/// What an encoded difference counts as when used as a distance: zero of
/// either sign is zero, a non-negative number or infinity is itself, and
/// anything else (no number at all, or a negative one) is infinitely far.
pub open spec fn as_distance(pattern: u32) -> u32 {
    if pattern == NEGATIVE_ZERO {
        0
    } else if pattern > INFINITY32 {
        INFINITY32
    } else {
        pattern
    }
}

/// The perceptual distance from colour `a` to colour `b`.
pub open spec fn distance_of(a: LabValue, b: LabValue) -> u32 {
    as_distance(de2000_pattern(a, b))
}

/// Converts the colour of a pixel to L\*a\*b\* space.
pub fn get_lab(pixel: Rgba) -> (lab: LabValue)
    ensures
        lab == pixel_lab(pixel),
{
    rgb_to_lab(pixel.r, pixel.g, pixel.b)
}

/// Reads an encoded difference as a distance.
pub fn to_distance(pattern: u32) -> (d: u32)
    ensures
        d == as_distance(pattern),
        d <= INFINITY32,
{
    if pattern == NEGATIVE_ZERO {
        0
    } else if pattern > INFINITY32 {
        INFINITY32
    } else {
        pattern
    }
}

/// The perceptual distance from colour `a` to colour `b`: the CIEDE2000
/// difference with `a` as the reference, read as a distance. The larger, the
/// more the colours differ.
pub fn distance(a: &LabValue, b: &LabValue) -> (d: u32)
    ensures
        d == distance_of(*a, *b),
        d <= INFINITY32,
{
    to_distance(de2000(a, b))
}

} // verus!
