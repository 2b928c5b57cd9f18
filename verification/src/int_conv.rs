//! Conversion between numbers and integers.
use vstd::prelude::*;
use vstd::arithmetic::power2::*;
use vstd::arithmetic::div_mod::*;
use vstd::arithmetic::mul::*;
use crate::arith::{pow2_u128, lemma_split, lemma_div_mod_unique, lemma_pow2_mono};
use crate::binary::{bitlen, bitlen_exec, lemma_bitlen, lemma_bitlen_bound};
use crate::format::{Format, FpCategory};
use crate::integer::{int_in_range, wrap_int, signed_value, lemma_pow2_half_widths};
use crate::repr::lemma_pow2_widths;
use crate::rounding::{jam, lemma_bitlen_mul_pow2};

verus! {

/// Wrapping into at most 128 bits sees a magnitude only modulo `2^128`.
pub proof fn lemma_wrap_mod(neg: bool, v: nat, signed: bool, bits: nat)
    requires
        1 <= bits <= 128,
    ensures
        wrap_int(signed_value(neg, v), signed, bits) == wrap_int(signed_value(neg, v % pow2(128)), signed, bits),
{
    let bb = pow2(bits) as int;
    let k = pow2((128 - bits) as nat) as int;
    lemma_pow2_adds(bits, (128 - bits) as nat);
    lemma_pow2_pos(bits);
    lemma_pow2_pos(128);
    lemma_split(v, pow2(128));
    let q = (v / pow2(128)) as int;
    let r = (v % pow2(128)) as int;
    let a: int = if neg { -(q * k) } else { q * k };
    assert(signed_value(neg, v) == bb * a + signed_value(neg, r as nat)) by (nonlinear_arith)
        requires
            v == q * (bb * k) + r,
            a == (if neg { -(q * k) } else { q * k }),
            signed_value(neg, v) == (if neg { -v } else { v as int }),
            signed_value(neg, r as nat) == (if neg { -r } else { r }),
    ;
    lemma_mod_multiples_vanish(a, signed_value(neg, r as nat), bb);
}

impl Format {
    /// The rounded value of `(-1)^s * m * 2^t` for any 128-bit `m`.
    pub fn pack_wide_exec(&self, s: bool, m: u128, t: i128) -> (r: u128)
        requires
            self.binary(),
            -0x1_0000_0000_0000_0000_0000 <= t <= 0x1_0000_0000_0000_0000_0000,
        ensures
            r == self.pack(s, m as nat, t as int),
            r < self.limit(),
    {
        proof {
            lemma_pow2_widths();
            lemma_pow2_strictly_increases(126, 128);
        }
        if m < 0x4000_0000_0000_0000_0000_0000_0000_0000 {
            proof {
                lemma_pow2_half_widths();
                lemma_pow2_unfold(127);
            }
            return self.pack_exec(s, m, t);
        }
        proof {
            lemma_pow2_half_widths();
            lemma_pow2_unfold(127);
            lemma_bitlen_bound(m as nat, 126);
            lemma2_to64();
            self.lemma_pack_jam(s, m as nat, t as int, 3);
            lemma_split(m as nat, 8);
        }
        let j: u128 = 2 * (m / 8) + if m % 8 == 0 { 0 } else { 1 };
        self.pack_exec(s, j, t + 2)
    }

    /// The rounded value of an integer.
    pub open spec fn from_int_bits(self, v: int) -> nat {
        self.pack(v < 0, (if v < 0 { -v } else { v }) as nat, 0)
    }

    /// The magnitude of a finite number cut to an integer (towards zero).
    pub open spec fn trunc_mag(self, x: nat) -> nat {
        let t = self.t_of(x);
        if t >= 0 {
            self.sig_of(x) * pow2(t as nat)
        } else {
            self.sig_of(x) / pow2((-t) as nat)
        }
    }

    /// `x` cut to an integer of a type with `bits` bits: zero is zero; NaN, infinities, negative
    /// numbers for unsigned types and values out of range have none.
    pub open spec fn to_int_value(self, x: nat, signed: bool, bits: nat) -> Option<int> {
        let c = self.category(x);
        if c == FpCategory::Zero {
            Some(0)
        } else if c == FpCategory::Nan || c == FpCategory::Infinite {
            None
        } else if !signed && self.sign_of(x) {
            None
        } else {
            let v = signed_value(self.sign_of(x), self.trunc_mag(x));
            if int_in_range(v, signed, bits) { Some(v) } else { None }
        }
    }

    /// `x` cut to an integer and wrapped into a type with `bits` bits: NaN gives zero,
    /// infinity the largest value, negative infinity the smallest value of a signed type and
    /// one for an unsigned type.
    pub open spec fn to_int_wrapping_value(self, x: nat, signed: bool, bits: nat) -> int {
        let c = self.category(x);
        if c == FpCategory::Nan || c == FpCategory::Zero {
            0
        } else if c == FpCategory::Infinite {
            if !self.sign_of(x) {
                if signed { pow2((bits - 1) as nat) - 1 } else { pow2(bits) - 1 }
            } else if signed {
                -pow2((bits - 1) as nat)
            } else {
                1
            }
        } else {
            wrap_int(signed_value(self.sign_of(x), self.trunc_mag(x)), signed, bits)
        }
    }

    /// The cut magnitude of a finite number modulo `2^128`, and whether it is below `2^128`.
    pub fn trunc_mag_exec(&self, x: u128) -> (r: (bool, u128))
        requires
            self.binary(),
        ensures
            r.0 == (self.trunc_mag(x as nat) < pow2(128)),
            r.1 == self.trunc_mag(x as nat) % pow2(128),
    {
        proof {
            lemma_pow2_widths();
            lemma_pow2_mono(self.prec(), 120);
            lemma_pow2_strictly_increases(120, 128);
        }
        let m = self.sig_exec(x);
        let t = self.t_exec(x);
        let ghost tm = self.trunc_mag(x as nat);
        if t >= 0 {
            if t >= 128 {
                proof {
                    let tt = t as nat;
                    lemma_pow2_adds((tt - 128) as nat, 128);
                    lemma_mul_is_associative(m as int, pow2((tt - 128) as nat) as int, pow2(128) as int);
                    lemma_div_mod_unique(m as nat * pow2((tt - 128) as nat), 0, pow2(128));
                    if m > 0 {
                        lemma_pow2_pos((tt - 128) as nat);
                        lemma_mul_inequality(1, m as int, pow2((tt - 128) as nat) as int);
                        lemma_mul_inequality(1, (m * pow2((tt - 128) as nat)) as int, pow2(128) as int);
                    } else {
                        lemma_mul_basics(pow2(tt) as int);
                    }
                }
                return (m == 0, 0);
            }
            let tt = t as usize;
            let k = 128 - tt;
            proof {
                lemma_pow2_pos(k as nat);
                lemma_pow2_pos(tt as nat);
                lemma_pow2_adds(k as nat, tt as nat);
                lemma_split(m as nat, pow2(k as nat));
            }
            let (q, rm) = if k == 128 { (0u128, m) } else {
                let pk = pow2_u128(k);
                (m / pk, m % pk)
            };
            proof {
                if k == 128 {
                    lemma_div_mod_unique(0, m as nat, pow2(128));
                }
                assert(q * pow2(k as nat) + rm == m);
                assert(rm < pow2(k as nat));
                assert(tm == q * pow2(128) + rm * pow2(tt as nat)) by {
                    lemma_mul_is_distributive_add_other_way(pow2(tt as nat) as int, (q * pow2(k as nat)) as int, rm as int);
                    lemma_mul_is_associative(q as int, pow2(k as nat) as int, pow2(tt as nat) as int);
                }
                assert(rm * pow2(tt as nat) < pow2(128)) by {
                    lemma_mul_inequality(rm as int, (pow2(k as nat) - 1) as int, pow2(tt as nat) as int);
                    lemma_mul_is_distributive_sub_other_way(pow2(tt as nat) as int, pow2(k as nat) as int, 1);
                }
                lemma_div_mod_unique(q as nat, (rm * pow2(tt as nat)) as nat, pow2(128));
                if q > 0 {
                    lemma_mul_inequality(1, q as int, pow2(128) as int);
                }
                lemma_pow2_strictly_increases(tt as nat, 128);
            }
            (q == 0, rm * pow2_u128(tt))
        } else {
            if t <= -128 {
                proof {
                    let nn = (-t) as nat;
                    lemma_pow2_pos(nn);
                    lemma_pow2_mono(128, nn);
                    lemma_basic_div(m as int, pow2(nn) as int);
                    lemma_small_mod(0, pow2(128));
                    assert(tm == 0);
                }
                return (true, 0);
            }
            let nt = (-t) as usize;
            proof {
                lemma_pow2_pos(nt as nat);
                lemma_div_is_ordered_by_denominator(m as int, 1, pow2(nt as nat) as int);
                lemma_small_mod((m as nat / pow2(nt as nat)) as nat, pow2(128));
            }
            (true, m / pow2_u128(nt))
        }
    }
}

impl Format {
    /// `x + v`: unchanged for `v == 0`, NaN and infinities; the integer's value for a zero `x`;
    /// otherwise the rounded sum with the integer's rounded value.
    pub open spec fn add_int_bits(self, x: nat, v: int) -> nat {
        let c = self.category(x);
        if v == 0 || c == FpCategory::Infinite || c == FpCategory::Nan {
            x
        } else if c == FpCategory::Zero {
            self.from_int_bits(v)
        } else {
            self.add_signed_bits(x, self.from_int_bits(v), false)
        }
    }

    /// `x - v`, in the same way as `add_int_bits`.
    pub open spec fn sub_int_bits(self, x: nat, v: int) -> nat {
        let c = self.category(x);
        if v == 0 || c == FpCategory::Infinite || c == FpCategory::Nan {
            x
        } else if c == FpCategory::Zero {
            self.xor_sign_bits(self.from_int_bits(v), true)
        } else {
            self.add_signed_bits(x, self.from_int_bits(v), true)
        }
    }

    /// `x * v`: a signed zero for `v == 0`; NaN, infinities and zeros unchanged; otherwise the
    /// rounded product with the integer's rounded value.
    pub open spec fn mul_int_bits(self, x: nat, v: int) -> nat {
        let c = self.category(x);
        if v == 0 {
            self.with_sign_bits(0, self.sign_of(x) != (v < 0))
        } else if c == FpCategory::Nan || c == FpCategory::Infinite || c == FpCategory::Zero {
            x
        } else {
            self.mul_bits(x, self.from_int_bits(v))
        }
    }

    /// `x / v`: zero by zero gives the NaN; NaN, infinities and zeros keep their magnitude
    /// with the exclusive or of the signs; otherwise the rounded quotient by the integer's
    /// rounded value.
    pub open spec fn div_int_bits(self, x: nat, v: int) -> nat {
        let c = self.category(x);
        let s = self.sign_of(x) != (v < 0);
        if c == FpCategory::Zero && v == 0 {
            self.with_sign_bits(self.snan_bits(), s)
        } else if c == FpCategory::Nan || c == FpCategory::Infinite || c == FpCategory::Zero {
            self.with_sign_bits(x, s)
        } else {
            self.div_bits(x, self.from_int_bits(v))
        }
    }

    pub fn from_int_exec(&self, neg: bool, mag: u128) -> (r: u128)
        requires
            self.binary(),
        ensures
            r == self.from_int_bits(signed_value(neg, mag as nat)),
            r < self.limit(),
    {
        if mag == 0 {
            return self.pack_wide_exec(false, 0, 0);
        }
        self.pack_wide_exec(neg, mag, 0)
    }

    pub fn add_int_exec(&self, x: u128, neg: bool, mag: u128, sub: bool) -> (r: u128)
        requires
            self.binary(),
            x < self.limit(),
        ensures
            !sub ==> r == self.add_int_bits(x as nat, signed_value(neg, mag as nat)),
            sub ==> r == self.sub_int_bits(x as nat, signed_value(neg, mag as nat)),
            r < self.limit(),
    {
        let c = self.classify(x);
        if mag == 0 || c == FpCategory::Infinite || c == FpCategory::Nan {
            return x;
        }
        let n = self.from_int_exec(neg, mag);
        if c == FpCategory::Zero {
            if sub { self.xor_sign(n, true) } else { n }
        } else {
            self.add_signed_exec(x, n, sub)
        }
    }

    pub fn mul_int_exec(&self, x: u128, neg: bool, mag: u128) -> (r: u128)
        requires
            self.binary(),
            x < self.limit(),
        ensures
            r == self.mul_int_bits(x as nat, signed_value(neg, mag as nat)),
            r < self.limit(),
    {
        let c = self.classify(x);
        if mag == 0 {
            proof {
                self.lemma_wf();
                lemma_pow2_pos(self.u_bits as nat);
            }
            return self.with_sign(0, self.is_sign_negative(x));
        }
        if c == FpCategory::Nan || c == FpCategory::Infinite || c == FpCategory::Zero {
            return x;
        }
        let n = self.from_int_exec(neg, mag);
        self.mul_exec(x, n)
    }

    pub fn div_int_exec(&self, x: u128, neg: bool, mag: u128) -> (r: u128)
        requires
            self.binary(),
            x < self.limit(),
        ensures
            r == self.div_int_bits(x as nat, signed_value(neg, mag as nat)),
            r < self.limit(),
    {
        let c = self.classify(x);
        let s = self.is_sign_negative(x) != (neg && mag != 0);
        if c == FpCategory::Zero && mag == 0 {
            return self.with_sign(self.snan_exec(), s);
        }
        if c == FpCategory::Nan || c == FpCategory::Infinite || c == FpCategory::Zero {
            return self.with_sign(x, s);
        }
        let n = self.from_int_exec(neg, mag);
        self.div_exec(x, n)
    }
}

} // verus!
