//! Analog intensity as an exact fraction.
//!
//! A key's travel is reported as one raw byte. A device family maps it to the
//! unit range by `min(1, raw / 255 * gain)`, where the gain is `1` or `6/5`.
//! Both formulas have a denominator that divides `255 * 5`, so an intensity is
//! held as a whole number of units of `1 / 1275`: `0` is a key at rest and
//! `FULL_SCALE` is a key pressed all the way down.
use vstd::prelude::*;

verus! {

/// Number of intensity units in a full key press: `255 * 5`.
pub const FULL_SCALE: u16 = 1275;

/// The multiplicative gain that a device family applies before clamping.
#[derive(Clone, Copy, PartialEq, Eq, Structural, Debug)]
pub enum Gain {
    /// Gain `1`: the raw byte maps linearly onto the unit range.
    Unit,
    /// Gain `6/5`: keys with a long travel reach full intensity early.
    HighTravel,
}

impl Gain {
    /// The gain as a number of fifths.
    pub open spec fn fifths(self) -> int {
        match self {
            Gain::Unit => 5,
            Gain::HighTravel => 6,
        }
    }
}

/// `min(1, raw / 255 * gain)`, in units of `1 / FULL_SCALE`.
pub open spec fn scale_spec(gain: Gain, raw: u8) -> int {
    if raw * gain.fifths() <= FULL_SCALE {
        raw * gain.fifths()
    } else {
        FULL_SCALE as int
    }
}

/// Converts a raw travel byte to an intensity.
pub fn scale(gain: Gain, raw: u8) -> (units: u16)
    ensures
        units == scale_spec(gain, raw),
{
    let wide: u16 = raw as u16;
    let scaled: u16 = match gain {
        Gain::Unit => wide * 5,
        Gain::HighTravel => wide * 6,
    };
    if scaled <= FULL_SCALE {
        scaled
    } else {
        FULL_SCALE
    }
}

/// The unit is exact. As fractions, `scale_spec / FULL_SCALE` is
/// `raw / 255 * fifths / 5` where that product is at most one, and one where
/// it is more; nothing is rounded.
pub proof fn lemma_scale_is_exact(gain: Gain, raw: u8)
    ensures
        raw * gain.fifths() <= 255 * 5 ==> scale_spec(gain, raw) * (255 * 5) == raw
            * gain.fifths() * FULL_SCALE,
        raw * gain.fifths() > 255 * 5 ==> scale_spec(gain, raw) == FULL_SCALE,
{
}

/// An intensity never leaves the unit range, and it is zero for a key at
/// rest only.
pub proof fn lemma_scale_range(gain: Gain, raw: u8)
    ensures
        0 <= scale_spec(gain, raw) <= FULL_SCALE,
        scale_spec(gain, raw) == 0 <==> raw == 0,
{
}

/// A deeper press never reads as a lighter one.
pub proof fn lemma_scale_monotone(gain: Gain, a: u8, b: u8)
    requires
        a <= b,
    ensures
        scale_spec(gain, a) <= scale_spec(gain, b),
{
}

/// With gain `1` only the deepest raw value reaches full scale; with gain
/// `6/5` every raw value from 213 on does.
pub proof fn lemma_scale_saturation(gain: Gain, raw: u8)
    ensures
        gain == Gain::Unit ==> (scale_spec(gain, raw) == FULL_SCALE <==> raw == 255),
        gain == Gain::HighTravel ==> (scale_spec(gain, raw) == FULL_SCALE <==> raw >= 213),
{
}

} // verus!
