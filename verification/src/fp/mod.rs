//! The floating point type with a layout given by its type parameters.
use vstd::prelude::*;
use vstd::arithmetic::power2::*;
use crate::format::Format;
use crate::repr::FpRepr;

pub mod arithmetic;
pub mod bits;
pub mod cast;
pub mod clamp;
pub mod classify;
pub mod expb;
pub mod extra;
pub mod int_ops;
pub mod laws;
pub mod consts;
pub mod next;
pub mod ordering;
pub mod round;
pub mod sign;
pub mod text;

verus! {

/// A custom floating point type, where the bit size of the exponent and mantissa can be set separately.
///
/// `U` is the unsigned integer type that stores the number, `SIGN_BIT` whether the number has
/// a sign bit, `EXP_SIZE` the size of the exponent in bits, `INT_SIZE` the size of the integer
/// part of the mantissa in bits (zero makes the integer bit implicit), `FRAC_SIZE` the size of
/// the fractional part of the mantissa in bits and `EXP_BASE` the base of the exponent.
///
/// From the most significant bit down the layout is: unused bits, sign, exponent, integer
/// part, fractional part. The exponent bias is `(2^EXP_SIZE - 1)/2`; the largest exponent
/// marks infinity (zero mantissa) and NaN (other mantissas).
#[derive(Clone, Copy, Debug)]
pub struct Fp<U: FpRepr, const SIGN_BIT: bool, const EXP_SIZE: usize, const INT_SIZE: usize, const FRAC_SIZE: usize, const EXP_BASE: usize>(
    pub U,
);

/// A number together with an extra sign that is applied to it.
#[derive(Clone, Copy, Debug)]
pub struct Fps<U: FpRepr, const SIGN_BIT: bool, const EXP_SIZE: usize, const INT_SIZE: usize, const FRAC_SIZE: usize, const EXP_BASE: usize>(
    pub Fp<U, SIGN_BIT, EXP_SIZE, INT_SIZE, FRAC_SIZE, EXP_BASE>,
    pub bool,
);

impl<U: FpRepr, const SIGN_BIT: bool, const EXP_SIZE: usize, const INT_SIZE: usize, const FRAC_SIZE: usize, const EXP_BASE: usize> Fp<U, SIGN_BIT, EXP_SIZE, INT_SIZE, FRAC_SIZE, EXP_BASE> {
    /// The layout given by the type parameters.
    pub open spec fn layout() -> Format {
        Format {
            sign_bit: SIGN_BIT,
            exp_size: EXP_SIZE,
            int_size: INT_SIZE,
            frac_size: FRAC_SIZE,
            exp_base: EXP_BASE,
            u_bits: U::width() as usize,
        }
    }

    /// The type parameters describe a layout that fits in `U`.
    pub open spec fn wf() -> bool {
        Self::layout().wf() && U::width() <= 128
    }

    /// The stored bits.
    pub open spec fn nat_bits(self) -> nat {
        self.0.nat_value()
    }

    pub fn layout_exec() -> (r: Format)
        requires
            Self::wf(),
        ensures
            r == Self::layout(),
    {
        Format {
            sign_bit: SIGN_BIT,
            exp_size: EXP_SIZE,
            int_size: INT_SIZE,
            frac_size: FRAC_SIZE,
            exp_base: EXP_BASE,
            u_bits: U::bit_size(),
        }
    }

    pub fn raw(self) -> (r: u128)
        ensures
            r == self.nat_bits(),
            r < Self::layout().limit(),
    {
        proof {
            self.0.lemma_bounded();
        }
        self.0.to_u128()
    }

    pub fn from_raw(x: u128) -> (r: Self)
        requires
            x < Self::layout().limit(),
        ensures
            r.nat_bits() == x,
    {
        proof {
            U::from_u128_width();
        }
        Fp(U::from_u128(x))
    }
}

} // verus!

verus! {

impl<U: FpRepr, const SIGN_BIT: bool, const EXP_SIZE: usize, const INT_SIZE: usize, const FRAC_SIZE: usize, const EXP_BASE: usize> Fp<U, SIGN_BIT, EXP_SIZE, INT_SIZE, FRAC_SIZE, EXP_BASE> {
    /// Whether the type parameters describe a layout that fits in `U`.
    pub fn wf_exec() -> (r: bool)
        ensures
            r == Self::wf(),
    {
        let w = U::bit_size();
        let sign: usize = if SIGN_BIT { 1 } else { 0 };
        EXP_SIZE >= 1 && EXP_SIZE <= 128 && INT_SIZE <= 128 && FRAC_SIZE <= 128
            && INT_SIZE + FRAC_SIZE >= 1 && INT_SIZE + FRAC_SIZE + EXP_SIZE + sign <= w
    }
}

} // verus!
