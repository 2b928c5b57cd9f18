use vstd::prelude::*;
use crate::format::{Format, FpCategory};
use crate::fp::Fp;
use crate::next::{lemma_next_up_then_down, lemma_next_down_then_up, lemma_next_up_then_down_wide_base, lemma_next_down_then_up_wide_base, lemma_next_up_then_down_radix2, lemma_next_down_then_up_radix2};
use crate::neighbour::{lemma_next_up_least, lemma_next_down_greatest};
use crate::repr::FpRepr;

verus! {

impl<U: FpRepr, const SIGN_BIT: bool, const EXP_SIZE: usize, const INT_SIZE: usize, const FRAC_SIZE: usize, const EXP_BASE: usize> Fp<U, SIGN_BIT, EXP_SIZE, INT_SIZE, FRAC_SIZE, EXP_BASE> {
    /// The least number greater than `self` (positive infinity and NaN stay as they are; from
    /// a zero of either sign the smallest positive number).
    pub fn next_up(self) -> (r: Self)
        requires
            Self::wf(),
            INT_SIZE == 0 || EXP_BASE != 0,
        ensures
            r.nat_bits() == Self::layout().next_bits(self.nat_bits(), false),
    {
        Self::from_raw(Self::layout_exec().next(self.raw(), false))
    }

    /// The greatest number less than `self` (negative infinity and NaN stay as they are; from
    /// a zero of either sign the smallest negative number, where there is a sign bit).
    pub fn next_down(self) -> (r: Self)
        requires
            Self::wf(),
            INT_SIZE == 0 || EXP_BASE != 0,
        ensures
            r.nat_bits() == Self::layout().next_bits(self.nat_bits(), true),
    {
        Self::from_raw(Self::layout_exec().next(self.raw(), true))
    }

    /// With an implicit integer bit, `x.next_up().next_down() == x` for every number without
    /// stray bits above its layout, except NaN and positive infinity; a zero of either sign
    /// comes back as positive zero.
    pub proof fn lemma_next_up_next_down(x: Self)
        requires
            Self::wf(),
            INT_SIZE == 0,
            Self::layout().hi_of(x.nat_bits()) == 0,
            x.category() != FpCategory::Nan,
            !(x.category() == FpCategory::Infinite && !x.negative()),
        ensures
            Self::layout().next_bits(Self::layout().next_bits(x.nat_bits(), false), true) == (if x.category()
                == FpCategory::Zero {
                Self::layout().encode(0, false, 0, 0)
            } else {
                x.nat_bits()
            }),
    {
        x.0.lemma_bounded();
        lemma_next_up_then_down(Self::layout(), x.nat_bits());
    }

    /// With an implicit integer bit, `x.next_down().next_up() == x` for every number without
    /// stray bits above its layout, except NaN, negative infinity and, without a sign bit, zero;
    /// with a sign bit a zero of either sign comes back as negative zero.
    pub proof fn lemma_next_down_next_up(x: Self)
        requires
            Self::wf(),
            INT_SIZE == 0,
            Self::layout().hi_of(x.nat_bits()) == 0,
            x.category() != FpCategory::Nan,
            !(x.category() == FpCategory::Infinite && x.negative()),
            SIGN_BIT || x.category() != FpCategory::Zero,
        ensures
            Self::layout().next_bits(Self::layout().next_bits(x.nat_bits(), true), false) == (if x.category()
                == FpCategory::Zero {
                Self::layout().encode(0, true, 0, 0)
            } else {
                x.nat_bits()
            }),
    {
        x.0.lemma_bounded();
        lemma_next_down_then_up(Self::layout(), x.nat_bits());
    }

    /// `x.next_up() == -(-x).next_down()` and `x.next_down() == -(-x).next_up()`, for every
    /// number without stray bits above its layout, in a layout with a sign bit whose integer
    /// bit is implicit or whose exponent base is at least two.
    pub proof fn lemma_next_neg(x: Self, down: bool)
        requires
            Self::wf(),
            SIGN_BIT,
            INT_SIZE == 0 || EXP_BASE >= 2,
            Self::layout().hi_of(x.nat_bits()) == 0,
        ensures
            Self::layout().next_bits(x.nat_bits(), down) == Self::layout().xor_sign_bits(
                Self::layout().next_bits(Self::layout().xor_sign_bits(x.nat_bits(), true), !down),
                true,
            ),
    {
        Self::layout().lemma_next_neg(x.nat_bits(), down);
    }
    /// With an implicit integer bit, `x.next_up()` is greater than `x` and no number greater
    /// than `x` is less than it (for `x` neither NaN nor positive infinity).
    pub proof fn lemma_next_up_is_least(x: Self, z: Self)
        requires
            Self::wf(),
            INT_SIZE == 0,
            x.category() != FpCategory::Nan,
            !(x.category() == FpCategory::Infinite && !x.negative()),
        ensures
            Self::layout().partial_order(x.nat_bits(), Self::layout().next_bits(x.nat_bits(), false)) == Some(-1int),
            Self::layout().partial_order(x.nat_bits(), z.nat_bits()) == Some(-1int) ==> Self::layout().partial_order(
                Self::layout().next_bits(x.nat_bits(), false),
                z.nat_bits(),
            ) != Some(1int),
    {
        lemma_next_up_least(Self::layout(), x.nat_bits(), z.nat_bits());
    }

    /// With an implicit integer bit, `x.next_down()` is less than `x` and no number less than
    /// `x` is greater than it (for `x` neither NaN nor negative infinity, and not zero without a
    /// sign bit).
    pub proof fn lemma_next_down_is_greatest(x: Self, z: Self)
        requires
            Self::wf(),
            INT_SIZE == 0,
            x.category() != FpCategory::Nan,
            !(x.category() == FpCategory::Infinite && x.negative()),
            SIGN_BIT || x.category() != FpCategory::Zero,
        ensures
            Self::layout().partial_order(x.nat_bits(), Self::layout().next_bits(x.nat_bits(), true)) == Some(1int),
            Self::layout().partial_order(x.nat_bits(), z.nat_bits()) == Some(1int) ==> Self::layout().partial_order(
                Self::layout().next_bits(x.nat_bits(), true),
                z.nat_bits(),
            ) != Some(-1int),
    {
        lemma_next_down_greatest(Self::layout(), x.nat_bits(), z.nat_bits());
    }
    /// With an explicit integer bit and an exponent base too large for the storage type,
    /// `x.next_up().next_down() == x` for every number without stray bits above its layout
    /// whose mantissa is zero only with a zero exponent, except NaN and positive infinity; a
    /// zero comes back as positive zero.
    pub proof fn lemma_next_up_next_down_wide_base(x: Self)
        requires
            Self::wf(),
            INT_SIZE > 0,
            Self::layout().base_u() is None,
            Self::layout().exp_of(x.nat_bits()) == 0 || Self::layout().mant_of(x.nat_bits()) >= 1,
            Self::layout().hi_of(x.nat_bits()) == 0,
            x.category() != FpCategory::Nan,
            !(x.category() == FpCategory::Infinite && !x.negative()),
        ensures
            Self::layout().next_bits(Self::layout().next_bits(x.nat_bits(), false), true) == (if x.category()
                == FpCategory::Zero {
                Self::layout().encode(0, false, 0, 0)
            } else {
                x.nat_bits()
            }),
    {
        x.0.lemma_bounded();
        lemma_next_up_then_down_wide_base(Self::layout(), x.nat_bits());
    }

    /// With an explicit integer bit and an exponent base too large for the storage type,
    /// `x.next_down().next_up() == x` for the same numbers, except NaN, negative infinity and,
    /// without a sign bit, zero; with a sign bit a zero comes back as negative zero.
    pub proof fn lemma_next_down_next_up_wide_base(x: Self)
        requires
            Self::wf(),
            INT_SIZE > 0,
            Self::layout().base_u() is None,
            Self::layout().exp_of(x.nat_bits()) == 0 || Self::layout().mant_of(x.nat_bits()) >= 1,
            Self::layout().hi_of(x.nat_bits()) == 0,
            x.category() != FpCategory::Nan,
            !(x.category() == FpCategory::Infinite && x.negative()),
            SIGN_BIT || x.category() != FpCategory::Zero,
        ensures
            Self::layout().next_bits(Self::layout().next_bits(x.nat_bits(), true), false) == (if x.category()
                == FpCategory::Zero {
                Self::layout().encode(0, true, 0, 0)
            } else {
                x.nat_bits()
            }),
    {
        x.0.lemma_bounded();
        lemma_next_down_then_up_wide_base(Self::layout(), x.nat_bits());
    }
    /// With an explicit integer bit and exponent base 2,
    /// `x.next_up().next_down() == x` for every number without stray bits above its layout
    /// whose mantissa has its top digit set unless its exponent is zero, except NaN and positive infinity; a
    /// zero comes back as positive zero.
    pub proof fn lemma_next_up_next_down_radix2(x: Self)
        requires
            Self::wf(),
            INT_SIZE > 0,
            EXP_BASE == 2,
            Self::layout().exp_of(x.nat_bits()) == 0 || 2 * Self::layout().mant_of(x.nat_bits()) > Self::layout().max_mant(),
            Self::layout().hi_of(x.nat_bits()) == 0,
            x.category() != FpCategory::Nan,
            !(x.category() == FpCategory::Infinite && !x.negative()),
        ensures
            Self::layout().next_bits(Self::layout().next_bits(x.nat_bits(), false), true) == (if x.category()
                == FpCategory::Zero {
                Self::layout().encode(0, false, 0, 0)
            } else {
                x.nat_bits()
            }),
    {
        x.0.lemma_bounded();
        lemma_next_up_then_down_radix2(Self::layout(), x.nat_bits());
    }

    /// With an explicit integer bit and exponent base 2,
    /// `x.next_down().next_up() == x` for the same numbers, except NaN, negative infinity and,
    /// without a sign bit, zero; with a sign bit a zero comes back as negative zero.
    pub proof fn lemma_next_down_next_up_radix2(x: Self)
        requires
            Self::wf(),
            INT_SIZE > 0,
            EXP_BASE == 2,
            Self::layout().exp_of(x.nat_bits()) == 0 || 2 * Self::layout().mant_of(x.nat_bits()) > Self::layout().max_mant(),
            Self::layout().hi_of(x.nat_bits()) == 0,
            x.category() != FpCategory::Nan,
            !(x.category() == FpCategory::Infinite && x.negative()),
            SIGN_BIT || x.category() != FpCategory::Zero,
        ensures
            Self::layout().next_bits(Self::layout().next_bits(x.nat_bits(), true), false) == (if x.category()
                == FpCategory::Zero {
                Self::layout().encode(0, true, 0, 0)
            } else {
                x.nat_bits()
            }),
    {
        x.0.lemma_bounded();
        lemma_next_down_then_up_radix2(Self::layout(), x.nat_bits());
    }
}

} // verus!
