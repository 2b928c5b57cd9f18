//! Laws of the number type.
use vstd::prelude::*;
use crate::format::FpCategory;
use crate::fp::Fp;
use crate::laws::{widens, lemma_widen_round_trip};
use crate::repr::FpRepr;

verus! {

impl<U: FpRepr, const SIGN_BIT: bool, const EXP_SIZE: usize, const INT_SIZE: usize, const FRAC_SIZE: usize, const EXP_BASE: usize> Fp<U, SIGN_BIT, EXP_SIZE, INT_SIZE, FRAC_SIZE, EXP_BASE> {
    /// `-(-x) == x` in a layout with a sign bit.
    pub proof fn lemma_neg_neg(x: Self)
        requires
            Self::wf(),
            SIGN_BIT,
        ensures
            Self::layout().xor_sign_bits(Self::layout().xor_sign_bits(x.nat_bits(), true), true) == x.nat_bits(),
    {
        Self::layout().lemma_neg_neg(x.nat_bits());
    }

    /// `x + y == y + x` for numbers other than NaN, unless the sum is zero exactly (two zeros
    /// or opposite numbers), where it takes the sign of the first operand.
    pub proof fn lemma_add_commutes(x: Self, y: Self)
        requires
            Self::wf(),
            Self::layout().hi_of(x.nat_bits()) == 0,
            Self::layout().hi_of(y.nat_bits()) == 0,
            x.category() != FpCategory::Nan,
            y.category() != FpCategory::Nan,
            !(x.category() == FpCategory::Zero && y.category() == FpCategory::Zero),
            !Self::layout().cancels(x.nat_bits(), y.nat_bits()),
        ensures
            Self::layout().add_signed_bits(x.nat_bits(), y.nat_bits(), false) == Self::layout().add_signed_bits(
                y.nat_bits(),
                x.nat_bits(),
                false,
            ),
    {
        Self::layout().lemma_add_commutes(x.nat_bits(), y.nat_bits());
    }

    /// `x * y == y * x` for numbers other than NaN, with an implicit integer bit.
    pub proof fn lemma_mul_commutes(x: Self, y: Self)
        requires
            Self::wf(),
            INT_SIZE == 0,
            Self::layout().hi_of(x.nat_bits()) == 0,
            Self::layout().hi_of(y.nat_bits()) == 0,
            x.category() != FpCategory::Nan,
            y.category() != FpCategory::Nan,
        ensures
            Self::layout().mul_bits(x.nat_bits(), y.nat_bits()) == Self::layout().mul_bits(y.nat_bits(), x.nat_bits()),
    {
        Self::layout().lemma_mul_commutes(x.nat_bits(), y.nat_bits());
    }

    /// Converting a number other than NaN into a layout that holds all its values and back
    /// gives it back: `Self::from_fp(Fp::<V, ..>::from_fp(x)) == x`.
    pub proof fn lemma_from_fp_round_trip<V: FpRepr, const S: bool, const E: usize, const I: usize, const F: usize, const B: usize>(
        x: Self,
    )
        requires
            Self::wf(),
            Fp::<V, S, E, I, F, B>::wf(),
            widens(Self::layout(), Fp::<V, S, E, I, F, B>::layout()),
            Self::layout().hi_of(x.nat_bits()) == 0,
            x.category() != FpCategory::Nan,
        ensures
            Self::layout().convert_bits(
                Fp::<V, S, E, I, F, B>::layout(),
                Fp::<V, S, E, I, F, B>::layout().convert_bits(Self::layout(), x.nat_bits()),
            ) == x.nat_bits(),
    {
        x.0.lemma_bounded();
        lemma_widen_round_trip(Self::layout(), Fp::<V, S, E, I, F, B>::layout(), x.nat_bits());
    }
    /// `(-x).squared()` and `x.squared()` have the same bits, and a square has no sign, in a
    /// layout with a sign bit.
    pub proof fn lemma_squared_even(x: Self)
        requires
            Self::wf(),
            SIGN_BIT,
        ensures
            Self::layout().squared_bits(Self::layout().xor_sign_bits(x.nat_bits(), true)) == Self::layout().squared_bits(
                x.nat_bits(),
            ),
            !Self::layout().sign_of(Self::layout().squared_bits(x.nat_bits())),
    {
        Self::layout().lemma_squared_even(x.nat_bits());
    }
    /// `x.mulb().divb() == x` for a normal `x` whose product with the base stays below the
    /// largest exponent, in every exponent base of at least two, with an implicit integer bit
    /// (and, for base 2, at least two exponent bits).
    pub proof fn lemma_mulb_divb(x: Self)
        requires
            Self::wf(),
            EXP_BASE >= 2,
            INT_SIZE == 0,
            EXP_BASE == 2 ==> Self::binary() && EXP_SIZE >= 2,
            Self::layout().hi_of(x.nat_bits()) == 0,
            x.category() == FpCategory::Normal,
            Self::layout().exp_of(x.nat_bits()) + 1 < Self::layout().max_exp(),
        ensures
            Self::layout().category(Self::layout().scale_bits(x.nat_bits(), true)) == FpCategory::Normal,
            Self::layout().scale_defined(Self::layout().scale_bits(x.nat_bits(), true), false),
            Self::layout().scale_bits(Self::layout().scale_bits(x.nat_bits(), true), false) == x.nat_bits(),
    {
        crate::remainder::lemma_scale_round_trip(Self::layout(), x.nat_bits());
    }
    /// With an implicit integer bit, the square root of a finite number without a sign is
    /// finite and has no sign.
    pub proof fn lemma_sqrt_finite(x: Self)
        requires
            Self::wf(),
            INT_SIZE == 0,
            FRAC_SIZE >= 1,
            Self::layout().hi_of(x.nat_bits()) == 0,
            !x.negative(),
            Self::layout().is_finite_bits(x.nat_bits()),
        ensures
            Self::layout().is_finite_bits(Self::layout().sqrt_bits(x.nat_bits())),
            !Self::layout().sign_of(Self::layout().sqrt_bits(x.nat_bits())),
    {
        Self::layout().lemma_sqrt_finite(x.nat_bits());
    }
    /// `next_up(1) - 1 == epsilon` (exponent base 2, implicit integer bit, at least two exponent
    /// bits and a fraction bit).
    pub proof fn lemma_epsilon_is_step_above_one()
        requires
            Self::wf(),
            INT_SIZE == 0,
            EXP_SIZE >= 2,
            FRAC_SIZE >= 1,
        ensures
            Self::layout().add_signed_bits(
                Self::layout().next_bits(Self::layout().one_bits(), false),
                Self::layout().one_bits(),
                true,
            ) == Self::layout().epsilon_bits(),
    {
        Self::layout().lemma_epsilon_is_step_above_one();
    }
}

} // verus!
