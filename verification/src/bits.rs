//! Operations on the bit pattern of a number of a given layout.
use vstd::prelude::*;
use vstd::arithmetic::power2::*;
use vstd::arithmetic::div_mod::*;
use vstd::arithmetic::mul::*;
use crate::arith::{field, get_field, pow2_u128, lemma_split};
use crate::format::{Format, FpCategory};
use crate::repr::lemma_pow2_widths;

verus! {

pub proof fn lemma_field_low(x: nat, s: nat)
    ensures
        field(x, 0, s) == x % pow2(s),
{
    lemma2_to64();
    lemma_div_basics(x as int);
}

impl Format {
    pub fn exp_pos_exec(&self) -> (r: usize)
        requires
            self.wf(),
        ensures
            r == self.exp_pos(),
    {
        self.int_size + self.frac_size
    }

    pub fn sign_pos_exec(&self) -> (r: usize)
        requires
            self.wf(),
        ensures
            r == self.sign_pos(),
    {
        self.int_size + self.frac_size + self.exp_size
    }

    pub fn max_exp_exec(&self) -> (r: u128)
        requires
            self.wf(),
        ensures
            r == self.max_exp(),
            r >= 1,
    {
        proof {
            self.lemma_wf();
            lemma_pow2_strictly_increases(self.exp_size as nat, 128);
        }
        pow2_u128(self.exp_size) - 1
    }

    pub fn bias_exec(&self) -> (r: u128)
        requires
            self.wf(),
        ensures
            r == self.bias(),
    {
        self.max_exp_exec() / 2
    }

    /// The exponent field of `x`.
    pub fn exp_bits(&self, x: u128) -> (r: u128)
        requires
            self.wf(),
        ensures
            r == self.exp_of(x as nat),
            r <= self.max_exp(),
    {
        proof {
            self.lemma_encode_decode(x as nat);
        }
        get_field(x, self.exp_pos_exec(), self.exp_size)
    }

    /// The stored mantissa bits of `x` (integer and fraction part).
    pub fn mant_bits_raw(&self, x: u128) -> (r: u128)
        requires
            self.wf(),
        ensures
            r == self.mant_of(x as nat),
            r < pow2(self.exp_pos()),
    {
        proof {
            lemma_field_low(x as nat, self.exp_pos());
            self.lemma_encode_decode(x as nat);
        }
        get_field(x, 0, self.exp_pos_exec())
    }

    pub fn is_sign_negative(&self, x: u128) -> (r: bool)
        requires
            self.wf(),
        ensures
            r == self.sign_of(x as nat),
    {
        if !self.sign_bit {
            return false;
        }
        proof {
            self.lemma_wf();
        }
        get_field(x, self.sign_pos_exec(), 1) == 1
    }

    /// The bit pattern with the given parts and no high bits.
    pub fn encode_exec(&self, s: bool, e: u128, m: u128) -> (r: u128)
        requires
            self.wf(),
            e < pow2(self.exp_size as nat),
            m < pow2(self.exp_pos()),
            s ==> self.sign_bit,
        ensures
            r == self.encode(0, s, e as nat, m as nat),
            r < self.limit(),
    {
        proof {
            self.lemma_encode_bound(s, e as nat, m as nat);
            self.lemma_wf();
            lemma_pow2_pos(self.exp_pos());
            lemma_pow2_adds(self.exp_pos(), self.exp_size as nat);
            lemma_mul_inequality(e as int, (pow2(self.exp_size as nat) - 1) as int, pow2(self.exp_pos()) as int);
            lemma_mul_is_distributive_sub_other_way(pow2(self.exp_pos()) as int, pow2(self.exp_size as nat) as int, 1);
            if self.sign_bit {
                lemma_pow2_strictly_increases(self.sign_pos(), 128);
            }
        }
        let sbits: u128 = if s { pow2_u128(self.sign_pos_exec()) } else { 0 };
        sbits + e * pow2_u128(self.exp_pos_exec()) + m
    }

    pub fn classify(&self, x: u128) -> (r: FpCategory)
        requires
            self.wf(),
        ensures
            r == self.category(x as nat),
    {
        let e = self.exp_bits(x);
        let m = self.mant_bits_raw(x);
        if e == 0 {
            if m == 0 {
                FpCategory::Zero
            } else if self.int_size == 0 {
                FpCategory::Subnormal
            } else {
                FpCategory::Normal
            }
        } else if e == self.max_exp_exec() {
            if m == 0 {
                FpCategory::Infinite
            } else {
                FpCategory::Nan
            }
        } else {
            FpCategory::Normal
        }
    }

    /// `x` with its sign bit set to `s`, keeping all other bits.
    pub fn set_sign(&self, x: u128, s: bool) -> (r: u128)
        requires
            self.wf(),
            x < self.limit(),
            self.sign_bit,
        ensures
            r == self.encode(self.hi_of(x as nat), s, self.exp_of(x as nat), self.mant_of(x as nat)),
            r < self.limit(),
            self.hi_of(r as nat) == self.hi_of(x as nat),
            self.sign_of(r as nat) == s,
            self.exp_of(r as nat) == self.exp_of(x as nat),
            self.mant_of(r as nat) == self.mant_of(x as nat),
    {
        let ghost xn = x as nat;
        proof {
            self.lemma_encode_decode(xn);
            self.lemma_encode_limit(xn, s, self.exp_of(xn), self.mant_of(xn));
            self.lemma_decode_encode(self.hi_of(xn), s, self.exp_of(xn), self.mant_of(xn));
            self.lemma_wf();
            lemma_pow2_strictly_increases(self.sign_pos(), 128);
        }
        let cur = self.is_sign_negative(x);
        let p = pow2_u128(self.sign_pos_exec());
        if cur && !s {
            x - p
        } else if !cur && s {
            x + p
        } else {
            x
        }
    }
}

} // verus!

verus! {

impl Format {
    pub fn max_mant_exec(&self) -> (r: u128)
        requires
            self.wf(),
        ensures
            r == self.max_mant(),
            r < pow2(self.exp_pos()),
            r + 1 == pow2(self.exp_pos()),
    {
        proof {
            self.lemma_wf();
            lemma_pow2_strictly_increases(self.exp_pos(), 128);
        }
        pow2_u128(self.exp_pos_exec()) - 1
    }

    pub fn infinity_exec(&self) -> (r: u128)
        requires
            self.wf(),
        ensures
            r == self.infinity_bits(),
            r < self.limit(),
            self.category(r as nat) == FpCategory::Infinite,
            !self.sign_of(r as nat),
    {
        proof {
            self.lemma_wf();
            self.lemma_decode_encode(0, false, self.max_exp(), 0);
        }
        self.encode_exec(false, self.max_exp_exec(), 0)
    }

    pub fn qnan_exec(&self) -> (r: u128)
        requires
            self.wf(),
        ensures
            r == self.qnan_bits(),
            r < self.limit(),
            self.category(r as nat) == FpCategory::Nan,
            !self.sign_of(r as nat),
    {
        proof {
            self.lemma_wf();
            self.lemma_decode_encode(0, false, self.max_exp(), self.max_mant());
        }
        self.encode_exec(false, self.max_exp_exec(), self.max_mant_exec())
    }

    pub fn snan_exec(&self) -> (r: u128)
        requires
            self.wf(),
        ensures
            r == self.snan_bits(),
            r < self.limit(),
            self.exp_of(r as nat) == self.max_exp(),
            !self.sign_of(r as nat),
    {
        let ep = self.exp_pos_exec();
        proof {
            self.lemma_wf();
            lemma_pow2_unfold(self.exp_pos());
            lemma_pow2_pos((self.exp_pos() - 1) as nat);
            self.lemma_decode_encode(0, false, self.max_exp(),
                (self.max_mant() - pow2((self.exp_pos() - 1) as nat)) as nat);
        }
        self.encode_exec(false, self.max_exp_exec(), self.max_mant_exec() - pow2_u128(ep - 1))
    }

    pub fn max_value_exec(&self) -> (r: u128)
        requires
            self.wf(),
        ensures
            r == self.max_value_bits(),
            r < self.limit(),
            !self.sign_of(r as nat),
            self.exp_of(r as nat) == self.max_exp() - 1,
            self.mant_of(r as nat) == self.max_mant(),
    {
        proof {
            self.lemma_wf();
            self.lemma_decode_encode(0, false, (self.max_exp() - 1) as nat, self.max_mant());
        }
        self.encode_exec(false, self.max_exp_exec() - 1, self.max_mant_exec())
    }

    pub fn min_positive_exec(&self) -> (r: u128)
        requires
            self.wf(),
        ensures
            r == self.min_positive_bits(),
            r < self.limit(),
    {
        proof {
            self.lemma_wf();
            if !self.implicit() {
                lemma_pow2_strictly_increases(self.frac_size as nat, self.exp_pos());
            }
        }
        let m: u128 = if self.int_size == 0 { 0 } else { pow2_u128(self.frac_size) };
        self.encode_exec(false, 1, m)
    }

    pub fn one_exec(&self) -> (r: u128)
        requires
            self.wf(),
        ensures
            r == self.one_bits(),
            r < self.limit(),
    {
        proof {
            self.lemma_wf();
            if !self.implicit() {
                lemma_pow2_strictly_increases(self.frac_size as nat, self.exp_pos());
            }
        }
        let m: u128 = if self.int_size == 0 { 0 } else { pow2_u128(self.frac_size) };
        self.encode_exec(false, self.bias_exec(), m)
    }

    pub fn with_sign(&self, x: u128, s: bool) -> (r: u128)
        requires
            self.wf(),
            x < self.limit(),
        ensures
            r == self.with_sign_bits(x as nat, s),
            r < self.limit(),
    {
        if !self.sign_bit {
            if !s || self.classify(x) == FpCategory::Zero {
                return x;
            }
            return self.qnan_exec();
        }
        self.set_sign(x, s)
    }

    pub fn xor_sign(&self, x: u128, s: bool) -> (r: u128)
        requires
            self.wf(),
            x < self.limit(),
        ensures
            r == self.xor_sign_bits(x as nat, s),
            r < self.limit(),
    {
        if !s {
            return x;
        }
        self.with_sign(x, !self.is_sign_negative(x))
    }

    pub fn is_snan(&self, x: u128) -> (r: bool)
        requires
            self.wf(),
        ensures
            r == self.is_snan_bits(x as nat),
    {
        proof {
            self.lemma_wf();
            lemma_pow2_strictly_increases((self.exp_pos() - 1) as nat, 128);
        }
        self.classify(x) == FpCategory::Nan && self.mant_bits_raw(x) < pow2_u128(self.exp_pos_exec() - 1)
    }

    pub fn is_one(&self, x: u128) -> (r: bool)
        requires
            self.wf(),
        ensures
            r == self.is_one_bits(x as nat),
    {
        proof {
            self.lemma_wf();
            lemma_field_low(x as nat, self.frac_size as nat);
        }
        if self.classify(x) != FpCategory::Normal || self.is_sign_negative(x) {
            return false;
        }
        if self.exp_bits(x) != self.bias_exec() {
            return false;
        }
        if self.int_size == 0 {
            self.mant_bits_raw(x) == 0
        } else {
            get_field(x, 0, self.frac_size) == 0
        }
    }
}

} // verus!
