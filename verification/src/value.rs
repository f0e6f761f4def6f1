//! Floating-point quantities carried as their IEEE-754 bit patterns. The library never
//! computes with them; it stores, copies, compares and classifies them.
use vstd::prelude::*;

verus! {

/// An `f32` (a knob value, a velocity), held as its IEEE-754 binary32 bit pattern.
#[derive(Clone, Copy, Debug, PartialEq, Eq, Structural)]
pub struct Bits32(pub u32);

/// An `f64` (a time in beats, a tempo), held as its IEEE-754 binary64 bit pattern.
#[derive(Clone, Copy, Debug, PartialEq, Eq, Structural)]
pub struct Bits64(pub u64);

/// A binary32 value is finite unless all eight exponent bits are set (infinity or NaN).
pub open spec fn finite32(b: u32) -> bool {
    (b >> 23u32) & 0xffu32 != 0xffu32
}

impl Bits32 {
    /// The bit pattern of `0.0`.
    pub fn zero() -> (r: Bits32)
        ensures
            r.0 == 0,
    {
        Bits32(0)
    }

    /// Whether the value is neither infinite nor NaN.
    pub fn is_finite(self) -> (r: bool)
        ensures
            r == finite32(self.0),
    {
        (self.0 >> 23u32) & 0xffu32 != 0xffu32
    }
}

} // verus!
