//! Interpolation families and their one-byte wire discriminants.

use vstd::prelude::*;

verus! {

/// How the segment that leaves a key is shaped.
#[derive(Debug, Clone, Copy, PartialEq, Eq, Structural)]
pub enum Interpolation {
    /// Hold the value of the key until the next key.
    Step,
    /// Blend in a straight line.
    Linear,
    /// Ease in and out.
    Smooth,
    /// Accelerate away from the key.
    Ramp,
}

/// The interpolation that a wire discriminant stands for. Every byte stands
/// for one: a byte that names no family is read as `Linear`.
pub open spec fn interpolation_of(byte: u8) -> Interpolation {
    if byte == 0 {
        Interpolation::Step
    } else if byte == 2 {
        Interpolation::Smooth
    } else if byte == 3 {
        Interpolation::Ramp
    } else {
        Interpolation::Linear
    }
}

impl From<u8> for Interpolation {
    fn from(byte: u8) -> (interpolation: Interpolation) {
        match byte {
            0 => Interpolation::Step,
            2 => Interpolation::Smooth,
            3 => Interpolation::Ramp,
            _ => Interpolation::Linear,
        }
    }
}

impl vstd::std_specs::convert::FromSpecImpl<u8> for Interpolation {
    open spec fn obeys_from_spec() -> bool {
        true
    }

    open spec fn from_spec(byte: u8) -> Interpolation {
        interpolation_of(byte)
    }
}

} // verus!
