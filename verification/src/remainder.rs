//! The remainder of a division, which is exact.
use vstd::prelude::*;
use vstd::arithmetic::power2::*;
use vstd::arithmetic::div_mod::*;
use vstd::arithmetic::mul::*;
use crate::arith::{pow2_u128, lemma_split, lemma_div_mod_unique, lemma_pow2_mono};
use crate::binary::{bitlen, bitlen_exec, lemma_bitlen, lemma_bitlen_bound};
use crate::format::{Format, FpCategory};
use crate::repr::lemma_pow2_widths;
use crate::rounding::lemma_bitlen_mul_pow2;

verus! {

impl Format {
    /// The magnitudes of two finite numbers as integers at their smaller exponent.
    pub open spec fn rem_tm(self, x: nat, y: nat) -> int {
        if self.t_of(x) <= self.t_of(y) { self.t_of(x) } else { self.t_of(y) }
    }

    pub open spec fn rem_a(self, x: nat, y: nat) -> nat {
        self.sig_of(x) * pow2((self.t_of(x) - self.rem_tm(x, y)) as nat)
    }

    pub open spec fn rem_b(self, x: nat, y: nat) -> nat {
        self.sig_of(y) * pow2((self.t_of(y) - self.rem_tm(x, y)) as nat)
    }

    /// `x % y`, the remainder of the division cut towards zero, with the sign of `x`: NaN
    /// operands give a NaN operand, an infinite dividend or zero divisor the NaN, a zero
    /// dividend or infinite divisor the dividend; a dividend smaller than the divisor stays,
    /// otherwise the exact remainder.
    pub open spec fn rem_bits(self, x: nat, y: nat) -> nat {
        let cx = self.category(x);
        let cy = self.category(y);
        let s = self.sign_of(x);
        if cx == FpCategory::Nan || cy == FpCategory::Nan {
            self.add_nan_bits(x, self.with_sign_bits(y, s))
        } else if cx == FpCategory::Infinite || cy == FpCategory::Zero || (cx != FpCategory::Zero
            && cy != FpCategory::Infinite && self.sig_of(y) == 0) {
            self.snan_bits()
        } else if cx == FpCategory::Zero || cy == FpCategory::Infinite {
            x
        } else {
            let a = self.rem_a(x, y);
            let b = self.rem_b(x, y);
            if a < b {
                x
            } else if a % b == 0 {
                self.with_sign_bits(0, s)
            } else {
                self.pack(s, a % b, self.rem_tm(x, y))
            }
        }
    }

    /// `(a, a % b)` compared: whether `a >= b`, and `a % b`, for `a = m * 2^d`.
    fn shifted_rem(&self, m: u128, d: i128, b: u128) -> (r: (bool, u128))
        requires
            m < pow2(121),
            0 < b < pow2(121),
            d >= 0,
        ensures
            r.0 == (m * pow2(d as nat) >= b),
            r.1 == (m as nat * pow2(d as nat)) % (b as nat),
            r.1 < b,
    {
        proof {
            lemma_pow2_widths();
            lemma_pow2_strictly_increases(121, 128);
            lemma_pow2_unfold(122);
            lemma_pow2_strictly_increases(122, 128);
            assert(pow2(0) == 1) by {
                lemma2_to64();
            }
            lemma_mul_basics(m as int);
        }
        let mut big = m >= b;
        let mut r = if big { m % b } else { m };
        let mut k: i128 = 0;
        proof {
            if !big {
                lemma_small_mod(m as nat, b as nat);
            }
        }
        while k < d
            invariant
                0 <= k <= d,
                0 < b < pow2(121),
                pow2(122) < 0x1_0000_0000_0000_0000_0000_0000_0000_0000,
                pow2(122) == 2 * pow2(121),
                big == (m * pow2(k as nat) >= b),
                r == (m as nat * pow2(k as nat)) % (b as nat),
                r < b,
            decreases d - k,
        {
            let ghost x = m * pow2(k as nat);
            proof {
                lemma_pow2_unfold((k + 1) as nat);
                lemma_mul_is_associative(m as int, 2, pow2(k as nat) as int);
                lemma_mul_is_commutative(m as int, 2);
                lemma_mul_is_associative(2, m as int, pow2(k as nat) as int);
                assert(m * pow2((k + 1) as nat) == 2 * x);
                lemma_mul_mod_noop_right(2, x as int, b as int);
                lemma_mod_bound((2 * r) as int, b as int);
                if !big {
                    lemma_small_mod(x as nat, b as nat);
                }
            }
            let r2 = 2 * r;
            if big {
                r = r2 % b;
            } else if r2 >= b {
                big = true;
                r = r2 % b;
            } else {
                proof {
                    lemma_small_mod(x as nat, b as nat);
                    lemma_small_mod(r2 as nat, b as nat);
                }
                r = r2;
            }
            proof {
                if big {
                    lemma_pow2_pos(k as nat);
                }
            }
            k = k + 1;
        }
        (big, r)
    }
}

impl Format {
    pub fn rem_exec(&self, x: u128, y: u128) -> (r: u128)
        requires
            self.binary(),
            x < self.limit(),
            y < self.limit(),
        ensures
            r == self.rem_bits(x as nat, y as nat),
            r < self.limit(),
    {
        let cx = self.classify(x);
        let cy = self.classify(y);
        let s = self.is_sign_negative(x);
        if cx == FpCategory::Nan || cy == FpCategory::Nan {
            let ys = self.with_sign(y, s);
            return self.add_nan_exec(x, ys);
        }
        if cx == FpCategory::Infinite || cy == FpCategory::Zero {
            return self.snan_exec();
        }
        if cx != FpCategory::Zero && cy != FpCategory::Infinite && self.sig_exec(y) == 0 {
            return self.snan_exec();
        }
        if cx == FpCategory::Zero || cy == FpCategory::Infinite {
            return x;
        }
        proof {
            lemma_pow2_widths();
            lemma_pow2_mono(self.prec(), 120);
            lemma_pow2_strictly_increases(120, 121);
            lemma_pow2_strictly_increases(121, 126);
            lemma_pow2_strictly_increases(121, 128);
            self.lemma_wf();
            lemma_pow2_pos(self.u_bits as nat);
        }
        let mx = self.sig_exec(x);
        let my = self.sig_exec(y);
        let tx = self.t_exec(x);
        let ty = self.t_exec(y);
        let (big, r, tm) = if tx >= ty {
            let (big, r) = self.shifted_rem(mx, tx - ty, my);
            proof {
                assert(pow2(0) == 1) by {
                    lemma2_to64();
                }
                lemma_mul_basics(my as int);
            }
            (big, r, ty)
        } else {
            let d = ty - tx;
            let bl = bitlen_exec(my);
            proof {
                lemma_bitlen(my as nat);
                assert(pow2(0) == 1) by {
                    lemma2_to64();
                }
                lemma_mul_basics(mx as int);
                lemma_bitlen_mul_pow2(my as nat, d as nat);
                lemma_bitlen(my as nat * pow2(d as nat));
            }
            if d >= 122 || bl as i128 + d >= 122 {
                proof {
                    lemma_pow2_mono(121, (bitlen(my as nat) + d - 1) as nat);
                }
                return x;
            }
            proof {
                lemma_bitlen_bound(my as nat * pow2(d as nat), 121);
                lemma_pow2_strictly_increases(d as nat, 128);
            }
            let b = my * pow2_u128(d as usize);
            let (big, r) = self.shifted_rem(mx, 0, b);
            (big, r, tx)
        };
        if !big {
            return x;
        }
        if r == 0 {
            return self.with_sign(0, s);
        }
        self.pack_exec(s, r, tm)
    }
}

impl Format {
    /// `x % v` for an integer `v`: NaN, zeros and subnormal numbers stay, infinities give the
    /// NaN with their sign, a zero divisor the NaN with the sign of `x`, otherwise the
    /// remainder by the integer's rounded value.
    pub open spec fn rem_int_bits(self, x: nat, v: int) -> nat {
        let c = self.category(x);
        if c == FpCategory::Nan || c == FpCategory::Zero || c == FpCategory::Subnormal {
            x
        } else if c == FpCategory::Infinite || v == 0 {
            self.with_sign_bits(self.snan_bits(), self.sign_of(x))
        } else {
            self.rem_bits(x, self.from_int_bits(v))
        }
    }

    pub fn rem_int_exec(&self, x: u128, neg: bool, mag: u128) -> (r: u128)
        requires
            self.binary(),
            x < self.limit(),
        ensures
            r == self.rem_int_bits(x as nat, crate::integer::signed_value(neg, mag as nat)),
            r < self.limit(),
    {
        let c = self.classify(x);
        if c == FpCategory::Nan || c == FpCategory::Zero || c == FpCategory::Subnormal {
            return x;
        }
        if c == FpCategory::Infinite || mag == 0 {
            return self.with_sign(self.snan_exec(), self.is_sign_negative(x));
        }
        let n = self.from_int_exec(neg, mag);
        self.rem_exec(x, n)
    }

    /// `x < 0`: negative and neither zero nor NaN.
    pub open spec fn is_nonzero_negative_bits(self, x: nat) -> bool {
        self.sign_of(x) && self.category(x) != FpCategory::Zero && self.category(x) != FpCategory::Nan
    }

    pub fn is_nonzero_negative(&self, x: u128) -> (r: bool)
        requires
            self.wf(),
        ensures
            r == self.is_nonzero_negative_bits(x as nat),
    {
        let c = self.classify(x);
        self.is_sign_negative(x) && c != FpCategory::Zero && c != FpCategory::Nan
    }

    /// `x * 2` or `x / 2`, rounded: NaN, infinities and zeros stay.
    pub open spec fn scale2_bits(self, x: nat, up: bool) -> nat {
        let c = self.category(x);
        if c == FpCategory::Nan || c == FpCategory::Infinite || c == FpCategory::Zero {
            x
        } else {
            self.pack(self.sign_of(x), self.sig_of(x), self.t_of(x) + if up { 1int } else { -1int })
        }
    }

    pub fn scale2_exec(&self, x: u128, up: bool) -> (r: u128)
        requires
            self.binary(),
            x < self.limit(),
        ensures
            r == self.scale2_bits(x as nat, up),
            r < self.limit(),
    {
        let c = self.classify(x);
        if c == FpCategory::Nan || c == FpCategory::Infinite || c == FpCategory::Zero {
            return x;
        }
        proof {
            lemma_pow2_widths();
            lemma_pow2_mono(self.prec(), 120);
            lemma_pow2_strictly_increases(120, 126);
        }
        let t = self.t_exec(x);
        self.pack_exec(self.is_sign_negative(x), self.sig_exec(x), if up { t + 1 } else { t - 1 })
    }
}

} // verus!

verus! {

impl Format {
    /// `x * EXP_BASE` or `x / EXP_BASE`: with exponent base 2 the rounded `scale2_bits`; with
    /// another base the exponent field moves by one (infinity past the largest exponent), which
    /// is exact for the normal numbers it is computed for.
    pub open spec fn scale_bits(self, x: nat, up: bool) -> nat {
        if self.exp_base == 2 {
            self.scale2_bits(x, up)
        } else {
            let c = self.category(x);
            let e = self.exp_of(x);
            if c == FpCategory::Nan || c == FpCategory::Infinite || c == FpCategory::Zero {
                x
            } else {
                let e2: int = if up { e as int + 1 } else { e as int - 1 };
                if e2 >= self.max_exp() {
                    self.with_sign_bits(self.infinity_bits(), self.sign_of(x))
                } else {
                    self.encode(0, self.sign_of(x), e2 as nat, self.mant_of(x))
                }
            }
        }
    }

    /// The inputs `scale_exec` takes: every number with exponent base 2; with another base of
    /// more than two and an implicit integer bit, every number but subnormals, and for division
    /// normal numbers whose exponent field is at least two (the quotient stays normal).
    pub open spec fn scale_defined(self, x: nat, up: bool) -> bool {
        ||| self.binary()
        ||| {
            &&& self.wf()
            &&& self.exp_base > 2
            &&& self.implicit()
            &&& self.category(x) != FpCategory::Subnormal
            &&& (self.category(x) == FpCategory::Normal && !up ==> self.exp_of(x) >= 2)
        }
    }

    pub fn scale_exec(&self, x: u128, up: bool) -> (r: u128)
        requires
            self.scale_defined(x as nat, up),
            x < self.limit(),
        ensures
            r == self.scale_bits(x as nat, up),
            r < self.limit(),
    {
        if self.exp_base == 2 {
            return self.scale2_exec(x, up);
        }
        let c = self.classify(x);
        if c == FpCategory::Nan || c == FpCategory::Infinite || c == FpCategory::Zero {
            return x;
        }
        proof {
            self.lemma_wf();
            lemma_pow2_strictly_increases(self.exp_size as nat, 128);
        }
        let s = self.is_sign_negative(x);
        let e = self.exp_bits(x);
        let m = self.mant_bits_raw(x);
        let e2 = if up { e + 1 } else { e - 1 };
        if e2 >= self.max_exp_exec() {
            return self.with_sign(self.infinity_exec(), s);
        }
        self.encode_exec(s, e2, m)
    }
}

/// With an implicit integer bit, multiplying a normal number by the exponent base and
/// dividing the result by it gives the number back, in every base of at least two, when the
/// product stays below the largest exponent (and, for base 2, with at least two exponent bits).
pub proof fn lemma_scale_round_trip(f: Format, x: nat)
    requires
        f.wf(),
        f.exp_base >= 2,
        f.implicit(),
        f.exp_base == 2 ==> f.binary() && f.exp_size >= 2,
        f.hi_of(x) == 0,
        f.category(x) == FpCategory::Normal,
        f.exp_of(x) + 1 < f.max_exp(),
    ensures
        f.category(f.scale_bits(x, true)) == FpCategory::Normal,
        f.scale_defined(f.scale_bits(x, true), false),
        f.scale_bits(f.scale_bits(x, true), false) == x,
{
    if f.exp_base == 2 {
        f.lemma_double_then_halve(x);
    } else {
        f.lemma_wf();
        f.lemma_encode_decode(x);
        lemma_pow2_pos(f.exp_size as nat);
        let y = f.encode(0, f.sign_of(x), f.exp_of(x) + 1, f.mant_of(x));
        f.lemma_decode_encode(0, f.sign_of(x), f.exp_of(x) + 1, f.mant_of(x));
        f.lemma_decode_encode(0, f.sign_of(x), f.exp_of(x), f.mant_of(x));
        assert(f.scale_bits(x, true) == y);
    }
}

} // verus!
