//! The binary interchange formats of IEEE 754.
use vstd::prelude::*;
use crate::fp::Fp;

verus! {

/// Half precision: sign, 5 exponent bits, 10 fraction bits.
pub type FpHalf = Fp<u16, true, 5, 0, 10, 2>;

/// Single precision: sign, 8 exponent bits, 23 fraction bits.
pub type FpSingle = Fp<u32, true, 8, 0, 23, 2>;

/// Double precision: sign, 11 exponent bits, 52 fraction bits.
pub type FpDouble = Fp<u64, true, 11, 0, 52, 2>;

/// Quadruple precision: sign, 15 exponent bits, 112 fraction bits.
pub type FpQuadruple = Fp<u128, true, 15, 0, 112, 2>;

} // verus!
