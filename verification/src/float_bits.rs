//! Facts of IEEE 754 single precision, stated on bit patterns: the
//! library carries `f32` volumes and samples as their bits, and decides on
//! them through these.

use vstd::prelude::*;

verus! {

/// Bit pattern of the `f32` 1.0 (unity volume).
pub const F32_ONE: u32 = 0x3f80_0000;

/// The bit patterns of the values `v` with
/// `v > 0.0` (positive subnormals, normals and infinity; no NaN).
pub open spec fn f32_positive(bits: u32) -> bool {
    1 <= bits && bits <= 0x7f80_0000
}

/// The bit patterns of the values `v` with
/// `v <= 0.0` (both zeros, negatives and negative infinity; no NaN).
pub open spec fn f32_not_positive(bits: u32) -> bool {
    bits == 0 || (0x8000_0000 <= bits && bits <= 0xff80_0000)
}

/// The bit patterns of the values `v` with `v >= 0.0` (both zeros,
/// positives and infinity; no NaN).
pub open spec fn f32_non_negative(bits: u32) -> bool {
    bits <= 0x7f80_0000 || bits == 0x8000_0000
}

/// The bit patterns of the values `v` with `v < 0.0` (negatives and
/// negative infinity; not -0.0, no NaN).
pub open spec fn f32_negative(bits: u32) -> bool {
    0x8000_0001 <= bits && bits <= 0xff80_0000
}

/// `v` is an `f32` within 1e-6 of 1.0: between 16 units in the last
/// place below 1.0 and 8 above (IEEE 754 single precision; the
/// difference with 1.0 is exact in that range).
pub open spec fn f32_unity(bits: u32) -> bool {
    0x3f7f_fff0 <= bits && bits <= 0x3f80_0008
}

} // verus!
