use vstd::prelude::*;
use crate::format::{Format, FpCategory};
use crate::fp::{Fp, Fps};
use crate::repr::FpRepr;

verus! {

impl<U: FpRepr, const SIGN_BIT: bool, const EXP_SIZE: usize, const INT_SIZE: usize, const FRAC_SIZE: usize, const EXP_BASE: usize> Fp<U, SIGN_BIT, EXP_SIZE, INT_SIZE, FRAC_SIZE, EXP_BASE> {
    /// The number with sign `s`; without a sign bit a negative nonzero number becomes NaN.
    pub fn with_sign(self, s: bool) -> (r: Self)
        requires
            Self::wf(),
        ensures
            r.nat_bits() == Self::layout().with_sign_bits(self.nat_bits(), s),
    {
        Self::from_raw(Self::layout_exec().with_sign(self.raw(), s))
    }

    /// The number with its sign flipped when `s` holds.
    pub fn xor_sign(self, s: bool) -> (r: Self)
        requires
            Self::wf(),
        ensures
            r.nat_bits() == Self::layout().xor_sign_bits(self.nat_bits(), s),
    {
        Self::from_raw(Self::layout_exec().xor_sign(self.raw(), s))
    }

    /// The magnitude of `self` with the sign of `sign`; unchanged without a sign bit.
    pub fn copysign(self, sign: Self) -> (r: Self)
        requires
            Self::wf(),
        ensures
            r.nat_bits() == (if SIGN_BIT {
                Self::layout().with_sign_bits(self.nat_bits(), sign.negative())
            } else {
                self.nat_bits()
            }),
    {
        if !SIGN_BIT {
            return self;
        }
        self.with_sign(sign.is_sign_negative())
    }

    /// The number with a clear sign bit.
    pub fn abs(self) -> (r: Self)
        requires
            Self::wf(),
        ensures
            r.nat_bits() == Self::layout().with_sign_bits(self.nat_bits(), false),
    {
        self.with_sign(false)
    }

    /// The number with its sign flipped; without a sign bit a nonzero number becomes NaN.
    pub fn neg(self) -> (r: Self)
        requires
            Self::wf(),
        ensures
            r.nat_bits() == Self::layout().xor_sign_bits(self.nat_bits(), true),
    {
        self.xor_sign(true)
    }

    /// Whether both numbers carry the same sign bit (always without a sign bit).
    pub fn sign_eq(self, rhs: Self) -> (r: bool)
        requires
            Self::wf(),
        ensures
            r == (!SIGN_BIT || self.negative() == rhs.negative()),
    {
        if !SIGN_BIT {
            return true;
        }
        self.is_sign_negative() == rhs.is_sign_negative()
    }

    /// NaN for NaN, otherwise one with the sign of the number.
    pub fn signum(self) -> (r: Self)
        requires
            Self::wf(),
        ensures
            r.nat_bits() == (if self.category() == FpCategory::Nan {
                self.nat_bits()
            } else if SIGN_BIT {
                Self::layout().with_sign_bits(Self::layout().one_bits(), self.negative())
            } else {
                Self::layout().one_bits()
            }),
    {
        if self.is_nan() {
            return self;
        }
        Self::one().copysign(self)
    }
}

impl<U: FpRepr, const SIGN_BIT: bool, const EXP_SIZE: usize, const INT_SIZE: usize, const FRAC_SIZE: usize, const EXP_BASE: usize> Fps<U, SIGN_BIT, EXP_SIZE, INT_SIZE, FRAC_SIZE, EXP_BASE> {
    /// The number with the extra sign applied.
    pub fn collect(self) -> (r: Fp<U, SIGN_BIT, EXP_SIZE, INT_SIZE, FRAC_SIZE, EXP_BASE>)
        requires
            Fp::<U, SIGN_BIT, EXP_SIZE, INT_SIZE, FRAC_SIZE, EXP_BASE>::wf(),
        ensures
            r.nat_bits() == Fp::<U, SIGN_BIT, EXP_SIZE, INT_SIZE, FRAC_SIZE, EXP_BASE>::layout().xor_sign_bits(self.0.nat_bits(), self.1),
    {
        self.0.xor_sign(self.1)
    }
}

} // verus!
