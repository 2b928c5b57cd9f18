//! The arithmetic operators.
use vstd::prelude::*;
use vstd::std_specs::ops::{AddSpecImpl, SubSpecImpl, MulSpecImpl, DivSpecImpl, RemSpecImpl, NegSpecImpl};
use core::ops::{Add, Sub, Mul, Div, Rem, Neg};
use crate::integer::AnyInt;
use crate::round_int::IntRounding;
use crate::fp::Fp;
use crate::repr::FpRepr;

verus! {

impl<U: FpRepr, const SIGN_BIT: bool, const EXP_SIZE: usize, const INT_SIZE: usize, const FRAC_SIZE: usize, const EXP_BASE: usize> Fp<U, SIGN_BIT, EXP_SIZE, INT_SIZE, FRAC_SIZE, EXP_BASE> {
    /// The number with the given bits.
    pub open spec fn of_nat(n: nat) -> Self {
        choose|r: Self| r.nat_bits() == n
    }

    /// A number is determined by its bits.
    pub proof fn lemma_of_nat(self)
        ensures
            Self::of_nat(self.nat_bits()) == self,
    {
        let r = Self::of_nat(self.nat_bits());
        assert(r.nat_bits() == self.nat_bits());
        r.0.lemma_injective(self.0);
    }

    /// The layouts on which the arithmetic is defined: exponent base 2, at most 64 exponent
    /// bits and at most 120 significant bits.
    pub open spec fn binary() -> bool {
        Self::wf() && Self::layout().binary()
    }

    pub fn binary_exec() -> (r: bool)
        ensures
            r == Self::binary(),
    {
        if !Self::wf_exec() {
            return false;
        }
        let f = Self::layout_exec();
        let extra: usize = if INT_SIZE == 0 { 1 } else { 0 };
        EXP_BASE == 2 && EXP_SIZE <= 64 && INT_SIZE + FRAC_SIZE + extra <= 120
    }
}

impl<U: FpRepr, const SIGN_BIT: bool, const EXP_SIZE: usize, const INT_SIZE: usize, const FRAC_SIZE: usize, const EXP_BASE: usize> Add for Fp<U, SIGN_BIT, EXP_SIZE, INT_SIZE, FRAC_SIZE, EXP_BASE> {
    type Output = Self;

    /// The sum, rounded to nearest with ties to even.
    fn add(self, rhs: Self) -> (r: Self)
        ensures
            r.nat_bits() == Self::layout().add_signed_bits(self.nat_bits(), rhs.nat_bits(), false),
    {
        let f = Self::layout_exec();
        let r = Self::from_raw(f.add_signed_exec(self.raw(), rhs.raw(), false));
        proof {
            r.lemma_of_nat();
        }
        r
    }
}

impl<U: FpRepr, const SIGN_BIT: bool, const EXP_SIZE: usize, const INT_SIZE: usize, const FRAC_SIZE: usize, const EXP_BASE: usize> AddSpecImpl for Fp<U, SIGN_BIT, EXP_SIZE, INT_SIZE, FRAC_SIZE, EXP_BASE> {
    open spec fn obeys_add_spec() -> bool {
        true
    }

    open spec fn add_req(self, rhs: Self) -> bool {
        Self::binary()
    }

    open spec fn add_spec(self, rhs: Self) -> Self {
        Self::of_nat(Self::layout().add_signed_bits(self.nat_bits(), rhs.nat_bits(), false))
    }
}

impl<U: FpRepr, const SIGN_BIT: bool, const EXP_SIZE: usize, const INT_SIZE: usize, const FRAC_SIZE: usize, const EXP_BASE: usize> Sub for Fp<U, SIGN_BIT, EXP_SIZE, INT_SIZE, FRAC_SIZE, EXP_BASE> {
    type Output = Self;

    /// The difference, rounded to nearest with ties to even.
    fn sub(self, rhs: Self) -> (r: Self)
        ensures
            r.nat_bits() == Self::layout().add_signed_bits(self.nat_bits(), rhs.nat_bits(), true),
    {
        let f = Self::layout_exec();
        let r = Self::from_raw(f.add_signed_exec(self.raw(), rhs.raw(), true));
        proof {
            r.lemma_of_nat();
        }
        r
    }
}

impl<U: FpRepr, const SIGN_BIT: bool, const EXP_SIZE: usize, const INT_SIZE: usize, const FRAC_SIZE: usize, const EXP_BASE: usize> SubSpecImpl for Fp<U, SIGN_BIT, EXP_SIZE, INT_SIZE, FRAC_SIZE, EXP_BASE> {
    open spec fn obeys_sub_spec() -> bool {
        true
    }

    open spec fn sub_req(self, rhs: Self) -> bool {
        Self::binary()
    }

    open spec fn sub_spec(self, rhs: Self) -> Self {
        Self::of_nat(Self::layout().add_signed_bits(self.nat_bits(), rhs.nat_bits(), true))
    }
}

impl<U: FpRepr, const SIGN_BIT: bool, const EXP_SIZE: usize, const INT_SIZE: usize, const FRAC_SIZE: usize, const EXP_BASE: usize> Mul for Fp<U, SIGN_BIT, EXP_SIZE, INT_SIZE, FRAC_SIZE, EXP_BASE> {
    type Output = Self;

    /// The product, rounded to nearest with ties to even.
    fn mul(self, rhs: Self) -> (r: Self)
        ensures
            r.nat_bits() == Self::layout().mul_bits(self.nat_bits(), rhs.nat_bits()),
    {
        let f = Self::layout_exec();
        let r = Self::from_raw(f.mul_exec(self.raw(), rhs.raw()));
        proof {
            r.lemma_of_nat();
        }
        r
    }
}

impl<U: FpRepr, const SIGN_BIT: bool, const EXP_SIZE: usize, const INT_SIZE: usize, const FRAC_SIZE: usize, const EXP_BASE: usize> MulSpecImpl for Fp<U, SIGN_BIT, EXP_SIZE, INT_SIZE, FRAC_SIZE, EXP_BASE> {
    open spec fn obeys_mul_spec() -> bool {
        true
    }

    open spec fn mul_req(self, rhs: Self) -> bool {
        Self::binary()
    }

    open spec fn mul_spec(self, rhs: Self) -> Self {
        Self::of_nat(Self::layout().mul_bits(self.nat_bits(), rhs.nat_bits()))
    }
}

impl<U: FpRepr, const SIGN_BIT: bool, const EXP_SIZE: usize, const INT_SIZE: usize, const FRAC_SIZE: usize, const EXP_BASE: usize> Div for Fp<U, SIGN_BIT, EXP_SIZE, INT_SIZE, FRAC_SIZE, EXP_BASE> {
    type Output = Self;

    /// The quotient, rounded to nearest with ties to even.
    fn div(self, rhs: Self) -> (r: Self)
        ensures
            r.nat_bits() == Self::layout().div_bits(self.nat_bits(), rhs.nat_bits()),
    {
        let f = Self::layout_exec();
        let r = Self::from_raw(f.div_exec(self.raw(), rhs.raw()));
        proof {
            r.lemma_of_nat();
        }
        r
    }
}

impl<U: FpRepr, const SIGN_BIT: bool, const EXP_SIZE: usize, const INT_SIZE: usize, const FRAC_SIZE: usize, const EXP_BASE: usize> DivSpecImpl for Fp<U, SIGN_BIT, EXP_SIZE, INT_SIZE, FRAC_SIZE, EXP_BASE> {
    open spec fn obeys_div_spec() -> bool {
        true
    }

    open spec fn div_req(self, rhs: Self) -> bool {
        Self::binary()
    }

    open spec fn div_spec(self, rhs: Self) -> Self {
        Self::of_nat(Self::layout().div_bits(self.nat_bits(), rhs.nat_bits()))
    }
}

impl<U: FpRepr, const SIGN_BIT: bool, const EXP_SIZE: usize, const INT_SIZE: usize, const FRAC_SIZE: usize, const EXP_BASE: usize> Fp<U, SIGN_BIT, EXP_SIZE, INT_SIZE, FRAC_SIZE, EXP_BASE> {
    /// The reciprocal `1/x`, rounded to nearest with ties to even.
    pub fn recip(self) -> (r: Self)
        requires
            Self::binary(),
        ensures
            r.nat_bits() == Self::layout().recip_bits(self.nat_bits()),
    {
        Self::from_raw(Self::layout_exec().recip_exec(self.raw()))
    }

    /// The positive difference: zero when `other >= self`, else `self - other` (NaN operands
    /// give a NaN).
    pub fn abs_sub(self, other: Self) -> (r: Self)
        requires
            Self::binary(),
        ensures
            r.nat_bits() == (match Self::layout().partial_order(other.nat_bits(), self.nat_bits()) {
                Some(o) if o >= 0 => 0,
                _ => Self::layout().add_signed_bits(self.nat_bits(), other.nat_bits(), true),
            }),
    {
        match Self::layout_exec().partial_order_exec(other.raw(), self.raw()) {
            Some(o) if o >= 0 => Self::zero(),
            _ => self - other,
        }
    }

    /// The square `x*x`, rounded to nearest with ties to even.
    pub fn squared(self) -> (r: Self)
        requires
            Self::binary(),
        ensures
            r.nat_bits() == Self::layout().squared_bits(self.nat_bits()),
    {
        Self::from_raw(Self::layout_exec().squared_exec(self.raw()))
    }
}

impl<U: FpRepr, const SIGN_BIT: bool, const EXP_SIZE: usize, const INT_SIZE: usize, const FRAC_SIZE: usize, const EXP_BASE: usize> Rem for Fp<U, SIGN_BIT, EXP_SIZE, INT_SIZE, FRAC_SIZE, EXP_BASE> {
    type Output = Self;

    /// The remainder of the division cut towards zero, exact, with the sign of `self`.
    fn rem(self, rhs: Self) -> (r: Self)
        ensures
            r.nat_bits() == Self::layout().rem_bits(self.nat_bits(), rhs.nat_bits()),
    {
        let r = Self::from_raw(Self::layout_exec().rem_exec(self.raw(), rhs.raw()));
        proof {
            r.lemma_of_nat();
        }
        r
    }
}

impl<U: FpRepr, const SIGN_BIT: bool, const EXP_SIZE: usize, const INT_SIZE: usize, const FRAC_SIZE: usize, const EXP_BASE: usize> RemSpecImpl for Fp<U, SIGN_BIT, EXP_SIZE, INT_SIZE, FRAC_SIZE, EXP_BASE> {
    open spec fn obeys_rem_spec() -> bool {
        true
    }

    open spec fn rem_req(self, rhs: Self) -> bool {
        Self::binary()
    }

    open spec fn rem_spec(self, rhs: Self) -> Self {
        Self::of_nat(Self::layout().rem_bits(self.nat_bits(), rhs.nat_bits()))
    }
}

impl<U: FpRepr, const SIGN_BIT: bool, const EXP_SIZE: usize, const INT_SIZE: usize, const FRAC_SIZE: usize, const EXP_BASE: usize> Neg for Fp<U, SIGN_BIT, EXP_SIZE, INT_SIZE, FRAC_SIZE, EXP_BASE> {
    type Output = Self;

    /// The number with its sign flipped.
    fn neg(self) -> (r: Self)
        ensures
            r.nat_bits() == Self::layout().xor_sign_bits(self.nat_bits(), true),
    {
        let r = self.xor_sign(true);
        proof {
            r.lemma_of_nat();
        }
        r
    }
}

impl<U: FpRepr, const SIGN_BIT: bool, const EXP_SIZE: usize, const INT_SIZE: usize, const FRAC_SIZE: usize, const EXP_BASE: usize> NegSpecImpl for Fp<U, SIGN_BIT, EXP_SIZE, INT_SIZE, FRAC_SIZE, EXP_BASE> {
    open spec fn obeys_neg_spec() -> bool {
        true
    }

    open spec fn neg_req(self) -> bool {
        Self::wf()
    }

    open spec fn neg_spec(self) -> Self {
        Self::of_nat(Self::layout().xor_sign_bits(self.nat_bits(), true))
    }
}

impl<U: FpRepr, const SIGN_BIT: bool, const EXP_SIZE: usize, const INT_SIZE: usize, const FRAC_SIZE: usize, const EXP_BASE: usize> Fp<U, SIGN_BIT, EXP_SIZE, INT_SIZE, FRAC_SIZE, EXP_BASE> {
    /// `self % rhs` for an integer `rhs`.
    pub fn rem_int<I: AnyInt>(self, rhs: I) -> (r: Self)
        requires
            Self::binary(),
        ensures
            r.nat_bits() == Self::layout().rem_int_bits(self.nat_bits(), rhs.int_value()),
    {
        let (neg, mag) = rhs.sign_mag();
        Self::from_raw(Self::layout_exec().rem_int_exec(self.raw(), neg, mag))
    }

    /// The quotient of Euclidean division: the quotient cut towards zero, moved by one away
    /// from it when the remainder is negative.
    pub fn div_euclid(self, rhs: Self) -> (r: Self)
        requires
            Self::binary(),
        ensures
            ({
                let f = Self::layout();
                let q = f.round_int_bits(f.div_bits(self.nat_bits(), rhs.nat_bits()), IntRounding::Trunc);
                let s = f.is_nonzero_negative_bits(rhs.nat_bits());
                r.nat_bits() == if f.is_nonzero_negative_bits(f.rem_bits(self.nat_bits(), rhs.nat_bits())) {
                    f.xor_sign_bits(f.sub_int_bits(f.xor_sign_bits(q, s), 1), s)
                } else {
                    q
                }
            }),
    {
        let f = Self::layout_exec();
        let q = (self / rhs).trunc();
        let m = self % rhs;
        if f.is_nonzero_negative(m.raw()) {
            let s = f.is_nonzero_negative(rhs.raw());
            return q.xor_sign(s).sub_int(1u8).xor_sign(s);
        }
        q
    }

    /// The least nonnegative remainder: the remainder plus the magnitude of `rhs` when it is
    /// negative.
    pub fn rem_euclid(self, rhs: Self) -> (r: Self)
        requires
            Self::binary(),
        ensures
            ({
                let f = Self::layout();
                let m = f.rem_bits(self.nat_bits(), rhs.nat_bits());
                r.nat_bits() == if f.is_nonzero_negative_bits(m) {
                    f.add_signed_bits(m, f.with_sign_bits(rhs.nat_bits(), false), false)
                } else {
                    m
                }
            }),
    {
        let f = Self::layout_exec();
        let m = self % rhs;
        if f.is_nonzero_negative(m.raw()) {
            m + rhs.abs()
        } else {
            m
        }
    }

    /// `self^n` for an integer `n`, by squaring with each product rounded; a negative power is
    /// the reciprocal of the positive one.
    pub fn powi<I: AnyInt>(self, n: I) -> (r: Self)
        requires
            Self::binary(),
        ensures
            r.nat_bits() == Self::layout().powi_bits(self.nat_bits(), n.int_value()),
    {
        let (neg, mag) = n.sign_mag();
        Self::from_raw(Self::layout_exec().powi_exec(self.raw(), neg, mag))
    }

    /// `self^n` for an unsigned integer `n`, by squaring with each product rounded.
    pub fn powu<I: AnyInt>(self, n: I) -> (r: Self)
        requires
            Self::binary(),
            !I::signed(),
        ensures
            r.nat_bits() == Self::layout().powu_bits(self.nat_bits(), n.int_value() as nat),
    {
        proof {
            n.lemma_int_range();
        }
        let (_, mag) = n.sign_mag();
        Self::from_raw(Self::layout_exec().powu_exec(self.raw(), mag))
    }

    /// Multiplication by the exponent base: rounded for base 2; for another base (implicit
    /// integer bit, no subnormal input) the exponent moves up by one.
    pub fn mulb(self) -> (r: Self)
        requires
            Self::wf(),
            Self::layout().scale_defined(self.nat_bits(), true),
        ensures
            r.nat_bits() == Self::layout().scale_bits(self.nat_bits(), true),
    {
        Self::from_raw(Self::layout_exec().scale_exec(self.raw(), true))
    }

    /// Division by the exponent base: rounded for base 2; for another base (implicit integer
    /// bit, a normal input whose exponent field is at least two) the exponent moves down by one.
    pub fn divb(self) -> (r: Self)
        requires
            Self::wf(),
            Self::layout().scale_defined(self.nat_bits(), false),
        ensures
            r.nat_bits() == Self::layout().scale_bits(self.nat_bits(), false),
    {
        Self::from_raw(Self::layout_exec().scale_exec(self.raw(), false))
    }
}

} // verus!
