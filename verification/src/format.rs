use vstd::prelude::*;
use vstd::arithmetic::power2::*;
use vstd::arithmetic::div_mod::*;
use vstd::arithmetic::mul::*;
use crate::arith::{field, lemma_field_of_parts, lemma_parts_of, lemma_div_mod_unique, lemma_split};
use crate::repr::lemma_pow2_widths;

verus! {

/// The category of a floating point number.
#[derive(Clone, Copy, Debug, PartialEq, Eq, Structural)]
pub enum FpCategory {
    Nan,
    Infinite,
    Zero,
    Subnormal,
    Normal,
}

/// The layout of a floating point number.
///
/// From the most significant bit down: unused bits, the sign bit (if any),
/// `exp_size` exponent bits, `int_size` integer bits and `frac_size` fraction bits.
#[derive(Clone, Copy, PartialEq, Eq, Structural)]
pub struct Format {
    pub sign_bit: bool,
    pub exp_size: usize,
    pub int_size: usize,
    pub frac_size: usize,
    pub exp_base: usize,
    pub u_bits: usize,
}

impl Format {
    pub open spec fn sign_size(self) -> nat {
        if self.sign_bit { 1 } else { 0 }
    }

    pub open spec fn mant_digits(self) -> nat {
        (self.int_size + self.frac_size) as nat
    }

    pub open spec fn exp_pos(self) -> nat {
        self.mant_digits()
    }

    pub open spec fn sign_pos(self) -> nat {
        self.exp_pos() + self.exp_size as nat
    }

    pub open spec fn top(self) -> nat {
        self.sign_pos() + self.sign_size()
    }

    pub open spec fn implicit(self) -> bool {
        self.int_size == 0
    }

    /// The layout fits in the storage type and has an exponent and a mantissa.
    pub open spec fn wf(self) -> bool {
        &&& self.exp_size >= 1
        &&& self.mant_digits() >= 1
        &&& self.top() <= self.u_bits
        &&& (self.u_bits == 8 || self.u_bits == 16 || self.u_bits == 32 || self.u_bits == 64
            || self.u_bits == 128)
    }

    /// All bit patterns of the storage type.
    pub open spec fn limit(self) -> nat {
        pow2(self.u_bits as nat)
    }

    pub open spec fn max_exp(self) -> nat {
        (pow2(self.exp_size as nat) - 1) as nat
    }

    pub open spec fn bias(self) -> nat {
        self.max_exp() / 2
    }

    pub open spec fn max_frac(self) -> nat {
        (pow2(self.frac_size as nat) - 1) as nat
    }

    pub open spec fn max_mant(self) -> nat {
        (pow2(self.exp_pos()) - 1) as nat
    }

    pub open spec fn sign_of(self, x: nat) -> bool {
        self.sign_bit && field(x, self.sign_pos(), 1) == 1
    }

    pub open spec fn exp_of(self, x: nat) -> nat {
        field(x, self.exp_pos(), self.exp_size as nat)
    }

    /// All mantissa bits as stored (integer and fraction part).
    pub open spec fn mant_of(self, x: nat) -> nat {
        x % pow2(self.exp_pos())
    }

    pub open spec fn int_of(self, x: nat) -> nat {
        field(x, self.frac_size as nat, self.int_size as nat)
    }

    pub open spec fn frac_of(self, x: nat) -> nat {
        x % pow2(self.frac_size as nat)
    }

    /// Bits of the storage type above the layout.
    pub open spec fn hi_of(self, x: nat) -> nat {
        x / pow2(self.top())
    }

    /// The bit pattern with the given parts.
    pub open spec fn encode(self, hi: nat, s: bool, e: nat, m: nat) -> nat {
        hi * pow2(self.top()) + (if s { pow2(self.sign_pos()) } else { 0 }) + e * pow2(self.exp_pos()) + m
    }

    pub open spec fn category(self, x: nat) -> FpCategory {
        let e = self.exp_of(x);
        let m = self.mant_of(x);
        if e == 0 {
            if m == 0 {
                FpCategory::Zero
            } else if self.implicit() {
                FpCategory::Subnormal
            } else {
                FpCategory::Normal
            }
        } else if e == self.max_exp() {
            if m == 0 {
                FpCategory::Infinite
            } else {
                FpCategory::Nan
            }
        } else {
            FpCategory::Normal
        }
    }

    pub open spec fn is_nan_bits(self, x: nat) -> bool {
        self.category(x) == FpCategory::Nan
    }

    pub open spec fn is_finite_bits(self, x: nat) -> bool {
        let c = self.category(x);
        c == FpCategory::Zero || c == FpCategory::Subnormal || c == FpCategory::Normal
    }

    pub proof fn lemma_wf(self)
        requires
            self.wf(),
        ensures
            pow2(self.top()) <= self.limit(),
            self.limit() <= pow2(128),
            pow2(self.sign_pos()) < pow2(self.top()) || !self.sign_bit,
            self.sign_bit ==> self.sign_pos() < 128,
            self.sign_pos() <= 128,
            self.exp_pos() < 128,
            pow2(self.exp_pos()) >= 2,
            pow2(self.exp_size as nat) >= 2,
            self.max_exp() >= 1,
            self.bias() < self.max_exp(),
            pow2(128) == 0x1_0000_0000_0000_0000_0000_0000_0000_0000,
    {
        lemma_pow2_widths();
        if self.top() < self.u_bits {
            lemma_pow2_strictly_increases(self.top(), self.u_bits as nat);
        }
        if self.u_bits < 128 {
            lemma_pow2_strictly_increases(self.u_bits as nat, 128);
        }
        if self.sign_bit {
            lemma_pow2_strictly_increases(self.sign_pos(), self.top());
        }
        lemma2_to64();
        if self.exp_pos() > 1 {
            lemma_pow2_strictly_increases(1, self.exp_pos());
        }
        if self.exp_size > 1 {
            lemma_pow2_strictly_increases(1, self.exp_size as nat);
        }
    }

    /// The parts of an encoded bit pattern are the parts it was made of.
    pub proof fn lemma_decode_encode(self, hi: nat, s: bool, e: nat, m: nat)
        requires
            self.wf(),
            e < pow2(self.exp_size as nat),
            m < pow2(self.exp_pos()),
            s ==> self.sign_bit,
        ensures
            self.hi_of(self.encode(hi, s, e, m)) == hi,
            self.sign_of(self.encode(hi, s, e, m)) == s,
            self.exp_of(self.encode(hi, s, e, m)) == e,
            self.mant_of(self.encode(hi, s, e, m)) == m,
    {
        let ep = self.exp_pos();
        let sp = self.sign_pos();
        let ss = self.sign_size();
        let sb: nat = if s { 1 } else { 0 };
        let a = hi * pow2(ss) + sb;
        lemma2_to64();
        lemma_pow2_pos(sp);
        lemma_pow2_pos(ss);
        lemma_pow2_adds(sp, ss);
        assert(hi * pow2(self.top()) + sb * pow2(sp) == a * pow2(sp)) by {
            lemma_mul_is_distributive_add_other_way(pow2(sp) as int, (hi * pow2(ss)) as int, sb as int);
            lemma_mul_is_associative(hi as int, pow2(ss) as int, pow2(sp) as int);
            lemma_mul_is_commutative(pow2(ss) as int, pow2(sp) as int);
        }
        assert((if s { pow2(sp) } else { 0 }) == sb * pow2(sp));
        let x = self.encode(hi, s, e, m);
        assert(x == a * pow2(ep + self.exp_size as nat) + e * pow2(ep) + m);
        lemma_field_of_parts(a, e, m, ep, self.exp_size as nat);
        assert(x / pow2(sp) == a);
        if self.sign_bit {
            assert(sb < 2);
            lemma_div_mod_unique(hi, sb, 2);
            assert(field(x, sp, 1) == a % 2);
            assert(a / 2 == hi);
            lemma_div_denominator(x as int, pow2(sp) as int, 2);
            lemma_pow2_adds(sp, 1);
        } else {
            assert(pow2(ss) == 1);
            lemma_mul_basics(hi as int);
            assert(a == hi);
        }
        lemma_div_denominator(x as int, pow2(sp) as int, pow2(ss) as int);
        assert(a / pow2(ss) == hi) by {
            lemma_div_mod_unique(hi, sb, pow2(ss));
        }
    }

    /// Every bit pattern is the encoding of its parts.
    pub proof fn lemma_encode_decode(self, x: nat)
        requires
            self.wf(),
        ensures
            x == self.encode(self.hi_of(x), self.sign_of(x), self.exp_of(x), self.mant_of(x)),
            self.exp_of(x) < pow2(self.exp_size as nat),
            self.mant_of(x) < pow2(self.exp_pos()),
            self.exp_of(x) <= self.max_exp(),
    {
        let ep = self.exp_pos();
        let sp = self.sign_pos();
        let ss = self.sign_size();
        lemma2_to64();
        lemma_parts_of(x, ep, self.exp_size as nat);
        let a = x / pow2(sp);
        lemma_pow2_pos(sp);
        lemma_pow2_pos(ss);
        lemma_split(a, pow2(ss));
        lemma_div_denominator(x as int, pow2(sp) as int, pow2(ss) as int);
        lemma_pow2_adds(sp, ss);
        let hi = x / pow2(self.top());
        assert(hi == a / pow2(ss));
        let sb: nat = a % pow2(ss);
        assert(a == hi * pow2(ss) + sb);
        assert(hi * pow2(self.top()) + sb * pow2(sp) == a * pow2(sp)) by {
            lemma_mul_is_distributive_add_other_way(pow2(sp) as int, (hi * pow2(ss)) as int, sb as int);
            lemma_mul_is_associative(hi as int, pow2(ss) as int, pow2(sp) as int);
            lemma_mul_is_commutative(pow2(ss) as int, pow2(sp) as int);
        }
        if self.sign_bit {
            assert(pow2(ss) == 2);
            assert(field(x, sp, 1) == sb);
            assert(self.sign_of(x) == (sb == 1));
            assert(sb == 0 || sb == 1);
            assert((if self.sign_of(x) { pow2(sp) } else { 0 }) == sb * pow2(sp));
        } else {
            assert(pow2(ss) == 1);
            lemma_small_mod(0, 1);
            assert(sb == 0);
        }
    }

    /// An encoding without high bits stays below `2^top`.
    pub proof fn lemma_encode_bound(self, s: bool, e: nat, m: nat)
        requires
            self.wf(),
            e < pow2(self.exp_size as nat),
            m < pow2(self.exp_pos()),
            s ==> self.sign_bit,
        ensures
            self.encode(0, s, e, m) < pow2(self.top()),
            self.encode(0, s, e, m) < self.limit(),
    {
        let ep = self.exp_pos();
        let sp = self.sign_pos();
        self.lemma_wf();
        lemma_pow2_adds(ep, self.exp_size as nat);
        assert(e * pow2(ep) + m < pow2(sp)) by {
            lemma_mul_inequality(e as int, (pow2(self.exp_size as nat) - 1) as int, pow2(ep) as int);
            lemma_mul_is_distributive_sub_other_way(pow2(ep) as int, pow2(self.exp_size as nat) as int, 1);
        }
        if self.sign_bit {
            lemma_pow2_adds(sp, 1);
            lemma2_to64();
        }
    }
}

} // verus!

verus! {

impl Format {
    /// The high part of any stored bit pattern leaves room for the layout below it.
    pub proof fn lemma_hi_bound(self, x: nat)
        requires
            self.wf(),
            x < self.limit(),
        ensures
            self.hi_of(x) < pow2((self.u_bits - self.top()) as nat),
            self.hi_of(x) * pow2(self.top()) + pow2(self.top()) <= self.limit(),
    {
        let t = self.top();
        let k = (self.u_bits - t) as nat;
        lemma_pow2_pos(t);
        lemma_pow2_adds(k, t);
        assert(t + k == self.u_bits);
        let hi = self.hi_of(x);
        lemma_split(x, pow2(t));
        if hi >= pow2(k) {
            lemma_mul_inequality(pow2(k) as int, hi as int, pow2(t) as int);
            assert(false);
        }
        lemma_mul_inequality((hi + 1) as int, pow2(k) as int, pow2(t) as int);
        lemma_mul_is_distributive_add_other_way(pow2(t) as int, hi as int, 1);
    }

    /// Any encoding with the high part of a stored pattern is a stored pattern.
    pub proof fn lemma_encode_limit(self, x: nat, s: bool, e: nat, m: nat)
        requires
            self.wf(),
            x < self.limit(),
            e < pow2(self.exp_size as nat),
            m < pow2(self.exp_pos()),
            s ==> self.sign_bit,
        ensures
            self.encode(self.hi_of(x), s, e, m) < self.limit(),
    {
        self.lemma_hi_bound(x);
        self.lemma_encode_bound(s, e, m);
    }
}

} // verus!

verus! {

impl Format {
    pub open spec fn infinity_bits(self) -> nat {
        self.encode(0, false, self.max_exp(), 0)
    }

    /// All exponent and mantissa bits set.
    pub open spec fn qnan_bits(self) -> nat {
        self.encode(0, false, self.max_exp(), self.max_mant())
    }

    /// The quiet NaN without its most significant mantissa bit.
    pub open spec fn snan_bits(self) -> nat {
        self.encode(0, false, self.max_exp(), (self.max_mant() - pow2((self.exp_pos() - 1) as nat)) as nat)
    }

    pub open spec fn max_value_bits(self) -> nat {
        self.encode(0, false, (self.max_exp() - 1) as nat, self.max_mant())
    }

    pub open spec fn min_positive_bits(self) -> nat {
        self.encode(0, false, 1, if self.implicit() { 0 } else { pow2(self.frac_size as nat) })
    }

    pub open spec fn one_bits(self) -> nat {
        self.encode(0, false, self.bias(), if self.implicit() { 0 } else { pow2(self.frac_size as nat) })
    }

    /// `x` with sign `s`; without a sign bit a negative nonzero number is NaN.
    pub open spec fn with_sign_bits(self, x: nat, s: bool) -> nat {
        if !self.sign_bit {
            if !s || self.category(x) == FpCategory::Zero {
                x
            } else {
                self.qnan_bits()
            }
        } else {
            self.encode(self.hi_of(x), s, self.exp_of(x), self.mant_of(x))
        }
    }

    /// `x` with its sign flipped when `s` holds.
    pub open spec fn xor_sign_bits(self, x: nat, s: bool) -> nat {
        if !s {
            x
        } else {
            self.with_sign_bits(x, !self.sign_of(x))
        }
    }

    pub open spec fn is_snan_bits(self, x: nat) -> bool {
        self.is_nan_bits(x) && self.mant_of(x) < pow2((self.exp_pos() - 1) as nat)
    }

    pub open spec fn is_one_bits(self, x: nat) -> bool {
        &&& self.category(x) == FpCategory::Normal
        &&& !self.sign_of(x)
        &&& self.exp_of(x) == self.bias()
        &&& if self.implicit() { self.mant_of(x) == 0 } else { self.frac_of(x) == 0 }
    }
}

} // verus!
