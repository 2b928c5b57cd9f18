//! The unsigned small formats of the Khronos data format specification.
use vstd::prelude::*;
use crate::fp::Fp;

verus! {

/// Unsigned 10-bit format: 5 exponent bits, 5 fraction bits.
pub type KhronosFp10 = Fp<u16, false, 5, 0, 5, 2>;

/// Unsigned 11-bit format: 5 exponent bits, 6 fraction bits.
pub type KhronosFp11 = Fp<u16, false, 5, 0, 6, 2>;

} // verus!
