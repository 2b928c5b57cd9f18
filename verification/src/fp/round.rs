//! Rounding to integers.
use vstd::prelude::*;
use crate::fp::Fp;
use crate::repr::FpRepr;
use crate::round_int::IntRounding;

verus! {

impl<U: FpRepr, const SIGN_BIT: bool, const EXP_SIZE: usize, const INT_SIZE: usize, const FRAC_SIZE: usize, const EXP_BASE: usize> Fp<U, SIGN_BIT, EXP_SIZE, INT_SIZE, FRAC_SIZE, EXP_BASE> {
    /// The largest integer less than or equal to the number. NaN and infinities stay; a zero result keeps the sign.
    pub fn floor(self) -> (r: Self)
        requires
            Self::binary(),
        ensures
            r.nat_bits() == Self::layout().round_int_bits(self.nat_bits(), IntRounding::Floor),
    {
        Self::from_raw(Self::layout_exec().round_int_exec(self.raw(), IntRounding::Floor))
    }

    /// The smallest integer greater than or equal to the number. NaN and infinities stay; a zero result keeps the sign.
    pub fn ceil(self) -> (r: Self)
        requires
            Self::binary(),
        ensures
            r.nat_bits() == Self::layout().round_int_bits(self.nat_bits(), IntRounding::Ceil),
    {
        Self::from_raw(Self::layout_exec().round_int_exec(self.raw(), IntRounding::Ceil))
    }

    /// The nearest integer, halfway cases away from zero. NaN and infinities stay; a zero result keeps the sign.
    pub fn round(self) -> (r: Self)
        requires
            Self::binary(),
        ensures
            r.nat_bits() == Self::layout().round_int_bits(self.nat_bits(), IntRounding::HalfAway),
    {
        Self::from_raw(Self::layout_exec().round_int_exec(self.raw(), IntRounding::HalfAway))
    }

    /// The nearest integer, halfway cases to the even integer. NaN and infinities stay; a zero result keeps the sign.
    pub fn round_ties_even(self) -> (r: Self)
        requires
            Self::binary(),
        ensures
            r.nat_bits() == Self::layout().round_int_bits(self.nat_bits(), IntRounding::HalfEven),
    {
        Self::from_raw(Self::layout_exec().round_int_exec(self.raw(), IntRounding::HalfEven))
    }

    /// The integer part of the number. NaN and infinities stay; a zero result keeps the sign.
    pub fn trunc(self) -> (r: Self)
        requires
            Self::binary(),
        ensures
            r.nat_bits() == Self::layout().round_int_bits(self.nat_bits(), IntRounding::Trunc),
    {
        Self::from_raw(Self::layout_exec().round_int_exec(self.raw(), IntRounding::Trunc))
    }

    /// The fractional part: `self - self.trunc()`.
    pub fn fract(self) -> (r: Self)
        requires
            Self::binary(),
        ensures
            r.nat_bits() == Self::layout().add_signed_bits(
                self.nat_bits(),
                Self::layout().round_int_bits(self.nat_bits(), IntRounding::Trunc),
                true,
            ),
    {
        self - self.trunc()
    }
}

} // verus!
