use vstd::prelude::*;
use vstd::arithmetic::power2::*;
use crate::arith::{pow2_u128, lemma_pow2_mono};
use crate::format::{Format, FpCategory};
use crate::fp::{Fp, Fps};
use crate::repr::FpRepr;

verus! {

impl<U: FpRepr, const SIGN_BIT: bool, const EXP_SIZE: usize, const INT_SIZE: usize, const FRAC_SIZE: usize, const EXP_BASE: usize> Fp<U, SIGN_BIT, EXP_SIZE, INT_SIZE, FRAC_SIZE, EXP_BASE> {
    pub fn zero() -> (r: Self)
        requires
            Self::wf(),
        ensures
            r.nat_bits() == 0,
    {
        proof {
            vstd::arithmetic::power2::lemma_pow2_pos(Self::layout().u_bits as nat);
        }
        Self::from_raw(0)
    }

    pub fn neg_zero() -> (r: Self)
        requires
            Self::wf(),
        ensures
            r.nat_bits() == Self::layout().with_sign_bits(0, true),
    {
        Self::zero().with_sign(true)
    }

    pub fn infinity() -> (r: Self)
        requires
            Self::wf(),
        ensures
            r.nat_bits() == Self::layout().infinity_bits(),
            r.category() == FpCategory::Infinite,
            !r.negative(),
    {
        Self::from_raw(Self::layout_exec().infinity_exec())
    }

    pub fn neg_infinity() -> (r: Self)
        requires
            Self::wf(),
        ensures
            r.nat_bits() == Self::layout().with_sign_bits(Self::layout().infinity_bits(), true),
    {
        Self::infinity().with_sign(true)
    }

    /// All exponent and mantissa bits set.
    pub fn qnan() -> (r: Self)
        requires
            Self::wf(),
        ensures
            r.nat_bits() == Self::layout().qnan_bits(),
            r.category() == FpCategory::Nan,
            !r.negative(),
    {
        Self::from_raw(Self::layout_exec().qnan_exec())
    }

    /// The quiet NaN without the most significant mantissa bit.
    pub fn snan() -> (r: Self)
        requires
            Self::wf(),
        ensures
            r.nat_bits() == Self::layout().snan_bits(),
    {
        Self::from_raw(Self::layout_exec().snan_exec())
    }

    /// The NaN that operations produce: the signaling NaN.
    pub fn nan() -> (r: Self)
        requires
            Self::wf(),
        ensures
            r.nat_bits() == Self::layout().snan_bits(),
    {
        Self::snan()
    }

    /// The largest finite number.
    pub fn max_value() -> (r: Self)
        requires
            Self::wf(),
        ensures
            r.nat_bits() == Self::layout().max_value_bits(),
    {
        Self::from_raw(Self::layout_exec().max_value_exec())
    }

    /// The smallest finite number: the negated largest one, or zero without a sign bit.
    pub fn min_value() -> (r: Self)
        requires
            Self::wf(),
        ensures
            r.nat_bits() == (if SIGN_BIT {
                Self::layout().with_sign_bits(Self::layout().max_value_bits(), true)
            } else {
                0
            }),
    {
        if !SIGN_BIT {
            return Self::zero();
        }
        Self::max_value().with_sign(true)
    }

    /// The smallest positive normal number.
    pub fn min_positive_value() -> (r: Self)
        requires
            Self::wf(),
        ensures
            r.nat_bits() == Self::layout().min_positive_bits(),
    {
        Self::from_raw(Self::layout_exec().min_positive_exec())
    }

    pub fn one() -> (r: Self)
        requires
            Self::wf(),
        ensures
            r.nat_bits() == Self::layout().one_bits(),
    {
        Self::from_raw(Self::layout_exec().one_exec())
    }

    /// The difference between one and the next larger number.
    pub fn epsilon() -> (r: Self)
        requires
            Self::wf(),
            INT_SIZE == 0 ==> EXP_BASE == 2 && EXP_SIZE >= 2,
        ensures
            r.nat_bits() == Self::layout().epsilon_bits(),
    {
        Self::from_raw(Self::layout_exec().epsilon_exec())
    }
}

impl<U: FpRepr, const SIGN_BIT: bool, const EXP_SIZE: usize, const INT_SIZE: usize, const FRAC_SIZE: usize, const EXP_BASE: usize> Fps<U, SIGN_BIT, EXP_SIZE, INT_SIZE, FRAC_SIZE, EXP_BASE> {
    pub fn infinity() -> (r: Self)
        requires
            Fp::<U, SIGN_BIT, EXP_SIZE, INT_SIZE, FRAC_SIZE, EXP_BASE>::wf(),
        ensures
            r.0.nat_bits() == Fp::<U, SIGN_BIT, EXP_SIZE, INT_SIZE, FRAC_SIZE, EXP_BASE>::layout().infinity_bits(),
            !r.1,
    {
        Fps(Fp::infinity(), false)
    }

    pub fn neg_infinity() -> (r: Self)
        requires
            Fp::<U, SIGN_BIT, EXP_SIZE, INT_SIZE, FRAC_SIZE, EXP_BASE>::wf(),
        ensures
            r.0.nat_bits() == Fp::<U, SIGN_BIT, EXP_SIZE, INT_SIZE, FRAC_SIZE, EXP_BASE>::layout().infinity_bits(),
            r.1,
    {
        Fps(Fp::infinity(), true)
    }

    pub fn max_value() -> (r: Self)
        requires
            Fp::<U, SIGN_BIT, EXP_SIZE, INT_SIZE, FRAC_SIZE, EXP_BASE>::wf(),
        ensures
            r.0.nat_bits() == Fp::<U, SIGN_BIT, EXP_SIZE, INT_SIZE, FRAC_SIZE, EXP_BASE>::layout().max_value_bits(),
            !r.1,
    {
        Fps(Fp::max_value(), false)
    }

    /// The largest finite number with a negative extra sign.
    pub fn min_value() -> (r: Self)
        requires
            Fp::<U, SIGN_BIT, EXP_SIZE, INT_SIZE, FRAC_SIZE, EXP_BASE>::wf(),
        ensures
            r.0.nat_bits() == Fp::<U, SIGN_BIT, EXP_SIZE, INT_SIZE, FRAC_SIZE, EXP_BASE>::layout().max_value_bits(),
            r.1,
    {
        Fps(Fp::max_value(), true)
    }

    pub fn min_positive_value() -> (r: Self)
        requires
            Fp::<U, SIGN_BIT, EXP_SIZE, INT_SIZE, FRAC_SIZE, EXP_BASE>::wf(),
        ensures
            r.0.nat_bits() == Fp::<U, SIGN_BIT, EXP_SIZE, INT_SIZE, FRAC_SIZE, EXP_BASE>::layout().min_positive_bits(),
            !r.1,
    {
        Fps(Fp::min_positive_value(), false)
    }

    /// The difference between one and the next larger number, with a positive extra sign.
    pub fn epsilon() -> (r: Self)
        requires
            Fp::<U, SIGN_BIT, EXP_SIZE, INT_SIZE, FRAC_SIZE, EXP_BASE>::wf(),
            INT_SIZE == 0 ==> EXP_BASE == 2 && EXP_SIZE >= 2,
        ensures
            r.0.nat_bits() == Fp::<U, SIGN_BIT, EXP_SIZE, INT_SIZE, FRAC_SIZE, EXP_BASE>::layout().epsilon_bits(),
            !r.1,
    {
        Fps(Fp::epsilon(), false)
    }

    pub fn one() -> (r: Self)
        requires
            Fp::<U, SIGN_BIT, EXP_SIZE, INT_SIZE, FRAC_SIZE, EXP_BASE>::wf(),
        ensures
            r.0.nat_bits() == Fp::<U, SIGN_BIT, EXP_SIZE, INT_SIZE, FRAC_SIZE, EXP_BASE>::layout().one_bits(),
            !r.1,
    {
        Fps(Fp::one(), false)
    }
}

impl Format {
    /// The difference between one and the next larger number with exponent base 2, `2^-frac`:
    /// with an explicit integer bit the last fraction bit at the exponent of one, else the
    /// subnormal or normal number of that value.
    pub open spec fn epsilon_bits(self) -> nat {
        if !self.implicit() {
            self.encode(0, false, self.bias(), 1)
        } else if self.bias() <= self.frac_size {
            pow2((self.bias() - 1) as nat)
        } else {
            self.encode(0, false, (self.bias() - self.frac_size) as nat, 0)
        }
    }

    pub fn epsilon_exec(&self) -> (r: u128)
        requires
            self.wf(),
            self.implicit() ==> self.exp_size >= 2,
        ensures
            r == self.epsilon_bits(),
            r < self.limit(),
    {
        proof {
            self.lemma_wf();
            lemma2_to64();
        }
        let bias = self.bias_exec();
        if self.int_size != 0 {
            return self.encode_exec(false, bias, 1);
        }
        proof {
            assert(self.bias() >= 1) by {
                lemma_pow2_mono(2, self.exp_size as nat);
            }
            lemma_pow2_mono(self.exp_size as nat, 128);
        }
        if bias <= self.frac_size as u128 {
            proof {
                lemma_pow2_strictly_increases((bias - 1) as nat, self.frac_size as nat);
                lemma_pow2_mono(self.frac_size as nat, self.u_bits as nat);
                lemma_pow2_strictly_increases((bias - 1) as nat, 128);
            }
            pow2_u128((bias - 1) as usize)
        } else {
            self.encode_exec(false, bias - self.frac_size as u128, 0)
        }
    }
}

} // verus!
