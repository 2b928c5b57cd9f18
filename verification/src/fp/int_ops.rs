//! Conversion to and from integers, and arithmetic with integers.
use vstd::prelude::*;
use vstd::arithmetic::power2::*;
use vstd::arithmetic::div_mod::*;
use crate::arith::lemma_pow2_mono;
use crate::format::FpCategory;
use crate::fp::{Fp, Fps};
use crate::int_conv::lemma_wrap_mod;
use crate::integer::AnyInt;
use crate::repr::{FpRepr, lemma_pow2_widths};

verus! {

impl<U: FpRepr, const SIGN_BIT: bool, const EXP_SIZE: usize, const INT_SIZE: usize, const FRAC_SIZE: usize, const EXP_BASE: usize> Fp<U, SIGN_BIT, EXP_SIZE, INT_SIZE, FRAC_SIZE, EXP_BASE> {
    /// Converts an integer into a custom floating point number, rounded to nearest with ties
    /// to even.
    pub fn from_int<I: AnyInt>(from: I) -> (r: Self)
        requires
            Self::binary(),
        ensures
            r.nat_bits() == Self::layout().from_int_bits(from.int_value()),
    {
        let (neg, mag) = from.sign_mag();
        Self::from_raw(Self::layout_exec().from_int_exec(neg, mag))
    }

    /// Converts into an integer, cutting towards zero; `None` when out of bounds.
    pub fn to_int<I: AnyInt>(self) -> (r: Option<I>)
        requires
            Self::binary(),
        ensures
            r is Some <==> Self::layout().to_int_value(self.nat_bits(), I::signed(), I::bits()) is Some,
            r matches Some(v) ==> Self::layout().to_int_value(self.nat_bits(), I::signed(), I::bits()) == Some(
                v.int_value(),
            ),
    {
        let f = Self::layout_exec();
        let x = self.raw();
        let c = f.classify(x);
        proof {
            lemma_pow2_widths();
            crate::integer::lemma_pow2_half_widths();
            I::lemma_bits();
            lemma_pow2_pos(I::bits());
            lemma_pow2_pos((I::bits() - 1) as nat);
        }
        if c == FpCategory::Zero {
            return I::from_sign_mag(false, 0);
        }
        if c == FpCategory::Nan || c == FpCategory::Infinite {
            return None;
        }
        let s = f.is_sign_negative(x);
        if !I::is_signed() && s {
            return None;
        }
        let (fits, mag) = f.trunc_mag_exec(x);
        let ghost tm = Self::layout().trunc_mag(x as nat);
        if !fits {
            proof {
                I::lemma_bits();
                lemma_pow2_mono(I::bits(), 128);
                lemma_pow2_mono((I::bits() - 1) as nat, 128);
            }
            return None;
        }
        proof {
            lemma_small_mod(tm, pow2(128));
        }
        I::from_sign_mag(s, mag)
    }

    /// Converts into an integer, cutting towards zero and wrapping when out of bounds.
    pub fn to_int_wrapping<I: AnyInt>(self) -> (r: I)
        requires
            Self::binary(),
        ensures
            r.int_value() == Self::layout().to_int_wrapping_value(self.nat_bits(), I::signed(), I::bits()),
    {
        let f = Self::layout_exec();
        let x = self.raw();
        let c = f.classify(x);
        let s = f.is_sign_negative(x);
        proof {
            lemma_pow2_widths();
            crate::integer::lemma_pow2_half_widths();
            I::lemma_bits();
            lemma_pow2_pos(I::bits());
            lemma_pow2_mono(8, I::bits());
            lemma_pow2_mono(7, (I::bits() - 1) as nat);
            lemma2_to64();
            lemma_small_mod(0, pow2(I::bits()));
            lemma_small_mod(1, pow2(I::bits()));
        }
        if c == FpCategory::Nan || c == FpCategory::Zero {
            return I::wrap_sign_mag(false, 0);
        }
        if c == FpCategory::Infinite {
            if !s {
                return I::max_int();
            } else if I::is_signed() {
                return I::min_int();
            } else {
                return I::wrap_sign_mag(false, 1);
            }
        }
        let (fits, mag) = f.trunc_mag_exec(x);
        proof {
            lemma_wrap_mod(s, Self::layout().trunc_mag(x as nat), I::signed(), I::bits());
        }
        I::wrap_sign_mag(s, mag)
    }

    /// `self + rhs`.
    pub fn add_int<I: AnyInt>(self, rhs: I) -> (r: Self)
        requires
            Self::binary(),
        ensures
            r.nat_bits() == Self::layout().add_int_bits(self.nat_bits(), rhs.int_value()),
    {
        let (neg, mag) = rhs.sign_mag();
        Self::from_raw(Self::layout_exec().add_int_exec(self.raw(), neg, mag, false))
    }

    /// `self - rhs`.
    pub fn sub_int<I: AnyInt>(self, rhs: I) -> (r: Self)
        requires
            Self::binary(),
        ensures
            r.nat_bits() == Self::layout().sub_int_bits(self.nat_bits(), rhs.int_value()),
    {
        let (neg, mag) = rhs.sign_mag();
        Self::from_raw(Self::layout_exec().add_int_exec(self.raw(), neg, mag, true))
    }

    /// `self + (rhs_add - rhs_sub)` for unsigned integers.
    pub fn add_int_diff<I: AnyInt>(self, rhs_add: I, rhs_sub: I) -> (r: Self)
        requires
            Self::binary(),
            !I::signed(),
        ensures
            rhs_add.int_value() < rhs_sub.int_value() ==> r.nat_bits() == Self::layout().sub_int_bits(
                self.nat_bits(),
                rhs_sub.int_value() - rhs_add.int_value(),
            ),
            rhs_add.int_value() >= rhs_sub.int_value() ==> r.nat_bits() == Self::layout().add_int_bits(
                self.nat_bits(),
                rhs_add.int_value() - rhs_sub.int_value(),
            ),
    {
        proof {
            rhs_add.lemma_int_range();
            rhs_sub.lemma_int_range();
        }
        let (_, a) = rhs_add.sign_mag();
        let (_, b) = rhs_sub.sign_mag();
        let f = Self::layout_exec();
        if a < b {
            Self::from_raw(f.add_int_exec(self.raw(), false, b - a, true))
        } else {
            Self::from_raw(f.add_int_exec(self.raw(), false, a - b, false))
        }
    }

    /// `self * rhs`.
    pub fn mul_int<I: AnyInt>(self, rhs: I) -> (r: Self)
        requires
            Self::binary(),
        ensures
            r.nat_bits() == Self::layout().mul_int_bits(self.nat_bits(), rhs.int_value()),
    {
        let (neg, mag) = rhs.sign_mag();
        Self::from_raw(Self::layout_exec().mul_int_exec(self.raw(), neg, mag))
    }

    /// `self / rhs`.
    pub fn div_int<I: AnyInt>(self, rhs: I) -> (r: Self)
        requires
            Self::binary(),
        ensures
            r.nat_bits() == Self::layout().div_int_bits(self.nat_bits(), rhs.int_value()),
    {
        let (neg, mag) = rhs.sign_mag();
        Self::from_raw(Self::layout_exec().div_int_exec(self.raw(), neg, mag))
    }
}

} // verus!

verus! {

impl<U: FpRepr, const SIGN_BIT: bool, const EXP_SIZE: usize, const INT_SIZE: usize, const FRAC_SIZE: usize, const EXP_BASE: usize> Fps<U, SIGN_BIT, EXP_SIZE, INT_SIZE, FRAC_SIZE, EXP_BASE> {
    /// The magnitude of the integer rounded into the layout, with the integer's sign as the
    /// extra sign (so a layout without a sign bit still carries negative integers).
    pub fn from_int<I: AnyInt>(from: I) -> (r: Self)
        requires
            Fp::<U, SIGN_BIT, EXP_SIZE, INT_SIZE, FRAC_SIZE, EXP_BASE>::binary(),
        ensures
            r.0.nat_bits() == Fp::<U, SIGN_BIT, EXP_SIZE, INT_SIZE, FRAC_SIZE, EXP_BASE>::layout().from_int_bits(
                if from.int_value() < 0 { -from.int_value() } else { from.int_value() },
            ),
            r.1 == (from.int_value() < 0),
    {
        let (neg, mag) = from.sign_mag();
        Fps(Fp::from_int(mag), neg)
    }
}

} // verus!
