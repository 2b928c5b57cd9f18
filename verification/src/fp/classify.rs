use vstd::prelude::*;
use crate::format::{Format, FpCategory};
use crate::fp::{Fp, Fps};
use crate::repr::FpRepr;

verus! {

impl<U: FpRepr, const SIGN_BIT: bool, const EXP_SIZE: usize, const INT_SIZE: usize, const FRAC_SIZE: usize, const EXP_BASE: usize> Fp<U, SIGN_BIT, EXP_SIZE, INT_SIZE, FRAC_SIZE, EXP_BASE> {
    pub open spec fn category(self) -> FpCategory {
        Self::layout().category(self.nat_bits())
    }

    pub open spec fn negative(self) -> bool {
        Self::layout().sign_of(self.nat_bits())
    }

    /// The category of the number: NaN, infinite, zero, subnormal or normal.
    pub fn classify(self) -> (r: FpCategory)
        requires
            Self::wf(),
        ensures
            r == self.category(),
    {
        Self::layout_exec().classify(self.raw())
    }

    pub fn is_finite(self) -> (r: bool)
        requires
            Self::wf(),
        ensures
            r == (self.category() == FpCategory::Zero || self.category() == FpCategory::Subnormal
                || self.category() == FpCategory::Normal),
    {
        let c = self.classify();
        c == FpCategory::Zero || c == FpCategory::Subnormal || c == FpCategory::Normal
    }

    pub fn is_normal(self) -> (r: bool)
        requires
            Self::wf(),
        ensures
            r == (self.category() == FpCategory::Normal),
    {
        self.classify() == FpCategory::Normal
    }

    pub fn is_subnormal(self) -> (r: bool)
        requires
            Self::wf(),
        ensures
            r == (self.category() == FpCategory::Subnormal),
    {
        self.classify() == FpCategory::Subnormal
    }

    pub fn is_infinite(self) -> (r: bool)
        requires
            Self::wf(),
        ensures
            r == (self.category() == FpCategory::Infinite),
    {
        self.classify() == FpCategory::Infinite
    }

    pub fn is_nan(self) -> (r: bool)
        requires
            Self::wf(),
        ensures
            r == (self.category() == FpCategory::Nan),
    {
        self.classify() == FpCategory::Nan
    }

    pub fn is_zero(self) -> (r: bool)
        requires
            Self::wf(),
        ensures
            r == (self.category() == FpCategory::Zero),
    {
        self.classify() == FpCategory::Zero
    }

    /// A NaN whose most significant mantissa bit is clear.
    pub fn is_snan(self) -> (r: bool)
        requires
            Self::wf(),
        ensures
            r == Self::layout().is_snan_bits(self.nat_bits()),
    {
        Self::layout_exec().is_snan(self.raw())
    }

    /// Exactly one: a positive normal number with the exponent of the bias and no fraction.
    pub fn is_one(self) -> (r: bool)
        requires
            Self::wf(),
        ensures
            r == Self::layout().is_one_bits(self.nat_bits()),
    {
        Self::layout_exec().is_one(self.raw())
    }

    pub fn is_sign_negative(self) -> (r: bool)
        requires
            Self::wf(),
        ensures
            r == self.negative(),
    {
        Self::layout_exec().is_sign_negative(self.raw())
    }

    pub fn is_sign_positive(self) -> (r: bool)
        requires
            Self::wf(),
        ensures
            r == !self.negative(),
    {
        !self.is_sign_negative()
    }
}

impl<U: FpRepr, const SIGN_BIT: bool, const EXP_SIZE: usize, const INT_SIZE: usize, const FRAC_SIZE: usize, const EXP_BASE: usize> Fps<U, SIGN_BIT, EXP_SIZE, INT_SIZE, FRAC_SIZE, EXP_BASE> {
    pub fn classify(self) -> (r: FpCategory)
        requires
            Fp::<U, SIGN_BIT, EXP_SIZE, INT_SIZE, FRAC_SIZE, EXP_BASE>::wf(),
        ensures
            r == self.0.category(),
    {
        self.0.classify()
    }

    pub fn is_finite(self) -> (r: bool)
        requires
            Fp::<U, SIGN_BIT, EXP_SIZE, INT_SIZE, FRAC_SIZE, EXP_BASE>::wf(),
        ensures
            r == (self.0.category() == FpCategory::Zero || self.0.category() == FpCategory::Subnormal
                || self.0.category() == FpCategory::Normal),
    {
        self.0.is_finite()
    }

    pub fn is_normal(self) -> (r: bool)
        requires
            Fp::<U, SIGN_BIT, EXP_SIZE, INT_SIZE, FRAC_SIZE, EXP_BASE>::wf(),
        ensures
            r == (self.0.category() == FpCategory::Normal),
    {
        self.0.is_normal()
    }

    pub fn is_subnormal(self) -> (r: bool)
        requires
            Fp::<U, SIGN_BIT, EXP_SIZE, INT_SIZE, FRAC_SIZE, EXP_BASE>::wf(),
        ensures
            r == (self.0.category() == FpCategory::Subnormal),
    {
        self.0.is_subnormal()
    }

    pub fn is_infinite(self) -> (r: bool)
        requires
            Fp::<U, SIGN_BIT, EXP_SIZE, INT_SIZE, FRAC_SIZE, EXP_BASE>::wf(),
        ensures
            r == (self.0.category() == FpCategory::Infinite),
    {
        self.0.is_infinite()
    }

    /// The sign of the number after the extra sign is applied.
    pub fn is_sign_negative(self) -> (r: bool)
        requires
            Fp::<U, SIGN_BIT, EXP_SIZE, INT_SIZE, FRAC_SIZE, EXP_BASE>::wf(),
        ensures
            r == (self.0.negative() != self.1),
    {
        self.0.is_sign_negative() != self.1
    }

    pub fn is_sign_positive(self) -> (r: bool)
        requires
            Fp::<U, SIGN_BIT, EXP_SIZE, INT_SIZE, FRAC_SIZE, EXP_BASE>::wf(),
        ensures
            r == (self.0.negative() == self.1),
    {
        !self.is_sign_negative()
    }

    /// Whether the number, with the extra sign applied, is one.
    pub fn is_one(self) -> (r: bool)
        requires
            Fp::<U, SIGN_BIT, EXP_SIZE, INT_SIZE, FRAC_SIZE, EXP_BASE>::wf(),
        ensures
            r == Fp::<U, SIGN_BIT, EXP_SIZE, INT_SIZE, FRAC_SIZE, EXP_BASE>::layout().is_one_bits(
                Fp::<U, SIGN_BIT, EXP_SIZE, INT_SIZE, FRAC_SIZE, EXP_BASE>::layout().xor_sign_bits(self.0.nat_bits(), self.1),
            ),
    {
        self.collect().is_one()
    }
}

} // verus!
