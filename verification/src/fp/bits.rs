use vstd::prelude::*;
use vstd::arithmetic::power2::*;
use crate::arith::{field, get_field};
use crate::bits::lemma_field_low;
use crate::format::{Format, FpCategory};
use crate::fp::Fp;
use crate::repr::FpRepr;

verus! {

impl<U: FpRepr, const SIGN_BIT: bool, const EXP_SIZE: usize, const INT_SIZE: usize, const FRAC_SIZE: usize, const EXP_BASE: usize> Fp<U, SIGN_BIT, EXP_SIZE, INT_SIZE, FRAC_SIZE, EXP_BASE> {
    /// Raw transmutation from `U`.
    pub fn from_bits(bits: U) -> (r: Self)
        ensures
            r.0 == bits,
    {
        Fp(bits)
    }

    /// Raw transmutation to `U`.
    pub fn to_bits(self) -> (r: U)
        ensures
            r == self.0,
    {
        self.0
    }

    /// The sign bit: one for negative numbers, zero otherwise and always zero without a sign bit.
    pub fn sign_bit(self) -> (r: U)
        requires
            Self::wf(),
        ensures
            r.nat_value() == (if Self::layout().sign_of(self.nat_bits()) { 1nat } else { 0nat }),
    {
        let f = Self::layout_exec();
        proof {
            f.lemma_wf();
            lemma2_to64();
        }
        if f.is_sign_negative(self.raw()) {
            U::from_u128(1)
        } else {
            U::from_u128(0)
        }
    }

    /// The exponent bits.
    pub fn exp_bits(self) -> (r: U)
        requires
            Self::wf(),
        ensures
            r.nat_value() == Self::layout().exp_of(self.nat_bits()),
    {
        let f = Self::layout_exec();
        proof {
            f.lemma_wf();
            f.lemma_encode_decode(self.nat_bits());
            f.lemma_encode_bound(false, f.exp_of(self.nat_bits()), 0);
            lemma_pow2_pos(f.exp_pos());
        }
        let e = f.exp_bits(self.raw());
        proof {
            crate::arith::lemma_pow2_mono(f.exp_size as nat, f.top());
        }
        U::from_u128(e)
    }

    /// The integer bits of the mantissa; with an implicit integer bit, one for normal numbers and zero otherwise.
    pub fn int_bits(self) -> (r: U)
        requires
            Self::wf(),
        ensures
            r.nat_value() == (if INT_SIZE == 0 {
                if Self::layout().category(self.nat_bits()) == FpCategory::Normal { 1nat } else { 0nat }
            } else {
                Self::layout().int_of(self.nat_bits())
            }),
    {
        let f = Self::layout_exec();
        proof {
            f.lemma_wf();
            lemma2_to64();
        }
        if INT_SIZE == 0 {
            return if f.classify(self.raw()) == FpCategory::Normal {
                U::from_u128(1)
            } else {
                U::from_u128(0)
            };
        }
        let x = self.raw();
        let i = get_field(x, FRAC_SIZE, INT_SIZE);
        proof {
            vstd::arithmetic::power2::lemma_pow2_adds(FRAC_SIZE as nat, INT_SIZE as nat);
            lemma_pow2_strictly_increases(f.exp_pos(), f.u_bits as nat);
            if (INT_SIZE as nat) < f.exp_pos() {
                lemma_pow2_strictly_increases(INT_SIZE as nat, f.exp_pos());
            }
        }
        U::from_u128(i)
    }

    /// The fraction bits of the mantissa.
    pub fn frac_bits(self) -> (r: U)
        requires
            Self::wf(),
        ensures
            r.nat_value() == Self::layout().frac_of(self.nat_bits()),
    {
        let f = Self::layout_exec();
        proof {
            f.lemma_wf();
            lemma_field_low(self.nat_bits(), FRAC_SIZE as nat);
            lemma2_to64();
            if (FRAC_SIZE as nat) < f.u_bits {
                lemma_pow2_strictly_increases(FRAC_SIZE as nat, f.u_bits as nat);
            }
        }
        U::from_u128(get_field(self.raw(), 0, FRAC_SIZE))
    }

    /// The exponent bias: `(2^EXP_SIZE - 1)/2`.
    pub fn exp_bias() -> (r: U)
        requires
            Self::wf(),
        ensures
            r.nat_value() == Self::layout().bias(),
    {
        let f = Self::layout_exec();
        proof {
            f.lemma_wf();
            lemma_pow2_strictly_increases(f.exp_size as nat, f.sign_pos() + 1);
            if f.sign_pos() + 1 < f.u_bits {
                lemma_pow2_strictly_increases(f.sign_pos() + 1, f.u_bits as nat);
            }
            vstd::arithmetic::power2::lemma_pow2_adds(f.exp_pos(), f.exp_size as nat);
            vstd::arithmetic::mul::lemma_mul_increases(pow2(f.exp_pos()) as int, pow2(f.exp_size as nat) as int);
        }
        U::from_u128(f.bias_exec())
    }
}

} // verus!

verus! {

/// `u16::from_ne_bytes` of std: the two bytes read in the machine's byte order, which is
/// little-endian or big-endian.
#[verifier::external_body]
fn u16_from_ne_bytes(b: [u8; 2]) -> (r: u16)
    ensures
        r == b@[0] + 256 * b@[1] || r == 256 * b@[0] + b@[1],
{
    u16::from_ne_bytes(b)
}

impl<U: FpRepr, const SIGN_BIT: bool, const EXP_SIZE: usize, const INT_SIZE: usize, const FRAC_SIZE: usize, const EXP_BASE: usize> Fp<U, SIGN_BIT, EXP_SIZE, INT_SIZE, FRAC_SIZE, EXP_BASE> {
    /// The number with the bits given by its big-endian bytes.
    pub fn from_be_bytes(bytes: &[u8]) -> (r: Self)
        requires
            Self::wf(),
            8 * bytes.len() == U::width(),
        ensures
            r.nat_bits() == crate::bytes::be_value(bytes@),
    {
        proof {
            crate::bytes::lemma_be_bound(bytes@);
        }
        Self::from_raw(crate::bytes::be_value_exec(bytes))
    }

    /// The number with the bits given by its little-endian bytes.
    pub fn from_le_bytes(bytes: &[u8]) -> (r: Self)
        requires
            Self::wf(),
            8 * bytes.len() == U::width(),
        ensures
            r.nat_bits() == crate::bytes::le_value(bytes@),
    {
        proof {
            crate::bytes::lemma_le_bound(bytes@);
        }
        Self::from_raw(crate::bytes::le_value_exec(bytes))
    }

    /// The number with the bits given by its bytes in the machine's byte order.
    pub fn from_ne_bytes(bytes: &[u8]) -> (r: Self)
        requires
            Self::wf(),
            8 * bytes.len() == U::width(),
        ensures
            r.nat_bits() == crate::bytes::le_value(bytes@) || r.nat_bits() == crate::bytes::be_value(bytes@),
    {
        let probe = u16_from_ne_bytes([1u8, 0u8]);
        if probe == 1 {
            Self::from_le_bytes(bytes)
        } else {
            Self::from_be_bytes(bytes)
        }
    }
}

} // verus!
