//! Multiplication, rounded once.
use vstd::prelude::*;
use vstd::arithmetic::power2::*;
use vstd::arithmetic::div_mod::*;
use vstd::arithmetic::mul::*;
use crate::arith::{pow2_u128, lemma_split, lemma_div_mod_unique, lemma_pow2_mono};
use crate::binary::{bitlen, bitlen_exec, lemma_bitlen, lemma_bitlen_bound};
use crate::format::{Format, FpCategory};
use crate::repr::lemma_pow2_widths;
use crate::rounding::{jam, lemma_bitlen_mul_pow2};

verus! {

impl Format {
    /// `x * y`: NaN operands give a NaN operand, infinity times zero a quiet NaN, then zeros
    /// and infinities absorb, a factor of magnitude one gives the other factor, and two
    /// finite nonzero numbers their rounded product; the sign is the exclusive or of the
    /// signs.
    pub open spec fn mul_bits(self, x: nat, y: nat) -> nat {
        let cx = self.category(x);
        let cy = self.category(y);
        let s = self.sign_of(x) != self.sign_of(y);
        if cx == FpCategory::Nan || cy == FpCategory::Nan {
            self.with_sign_bits(self.add_nan_bits(x, y), s)
        } else if (cx == FpCategory::Infinite && cy == FpCategory::Zero) || (cx == FpCategory::Zero
            && cy == FpCategory::Infinite) {
            self.with_sign_bits(self.qnan_bits(), s)
        } else if cx == FpCategory::Zero || cy == FpCategory::Zero {
            self.with_sign_bits(0, s)
        } else if cx == FpCategory::Infinite || cy == FpCategory::Infinite {
            self.with_sign_bits(self.infinity_bits(), s)
        } else if self.is_one_bits(self.with_sign_bits(y, false)) {
            self.with_sign_bits(x, s)
        } else if self.is_one_bits(self.with_sign_bits(x, false)) {
            self.with_sign_bits(y, s)
        } else {
            self.pack(s, self.sig_of(x) * self.sig_of(y), self.t_of(x) + self.t_of(y))
        }
    }
}

/// Product of two significands with 120 digits each, cut below bit 118 with a sticky digit.
fn jam_product(a: u128, b: u128) -> (r: u128)
    requires
        pow2(119) <= a < pow2(120),
        pow2(119) <= b < pow2(120),
    ensures
        r == jam(a as nat * b as nat, 118),
        r < pow2(124),
{
    proof {
        lemma_pow2_widths();
        lemma2_to64();
    }
    let ghost p59 = pow2(59);
    proof {
        lemma_pow2_adds(59, 59);
        lemma_pow2_adds(59, 61);
        lemma_pow2_adds(59, 62);
        lemma_pow2_adds(61, 61);
        lemma_pow2_adds(61, 59);
        lemma_pow2_adds(62, 59);
        lemma_pow2_adds(118, 4);
        lemma_pow2_adds(118, 6);
        lemma_pow2_strictly_increases(59, 64);
        lemma_pow2_strictly_increases(61, 64);
        lemma_pow2_strictly_increases(62, 64);
        lemma_pow2_strictly_increases(122, 124);
        lemma_pow2_strictly_increases(124, 128);
        lemma_pow2_strictly_increases(121, 128);
        lemma_pow2_strictly_increases(118, 122);
        lemma_pow2_strictly_increases(120, 128);
        lemma_pow2_pos(59);
    }
    let m59 = pow2_u128(59);
    let ah = a / m59;
    let al = a % m59;
    let bh = b / m59;
    let bl = b % m59;
    proof {
        lemma_split(a as nat, p59);
        lemma_split(b as nat, p59);
        assert(ah < pow2(61)) by {
            if ah >= pow2(61) {
                lemma_mul_inequality(pow2(61) as int, ah as int, p59 as int);
            }
        }
        assert(bh < pow2(61)) by {
            if bh >= pow2(61) {
                lemma_mul_inequality(pow2(61) as int, bh as int, p59 as int);
            }
        }
        let p61 = pow2(61);
        let p120 = pow2(120);
        let p122 = pow2(122);
        let p118 = pow2(118);
        assert(ah * bh < p122 && ah * bl < p120 && al * bh < p120 && al * bl < p118) by (nonlinear_arith)
            requires
                ah < p61, bh < p61, al < p59, bl < p59,
                p122 == p61 * p61, p120 == p61 * p59, p120 == p59 * p61, p118 == p59 * p59,
        ;
        lemma_pow2_adds(120, 1);
    }
    let hh = ah * bh;
    let mid = ah * bl + al * bh;
    let ll = al * bl;
    proof {
        lemma_split(ll as nat, p59);
        lemma_pow2_strictly_increases(118, 121);
        lemma_pow2_unfold(122);
        lemma_pow2_unfold(123);
    }
    let c = mid + ll / m59;
    let c_hi = c / m59;
    let c_lo = c % m59;
    let ll_lo = ll % m59;
    proof {
        lemma_split(ll as nat, p59);
        lemma_split(c as nat, p59);
        let pa = a as nat;
        let pb = b as nat;
        let p118 = pow2(118);
        // a * b = hh * 2^118 + mid * 2^59 + ll
        assert(pa * pb == hh * p118 + mid * p59 + ll) by (nonlinear_arith)
            requires
                pa == ah * p59 + al,
                pb == bh * p59 + bl,
                p118 == p59 * p59,
                hh == ah * bh,
                mid == ah * bl + al * bh,
                ll == al * bl,
        ;
        assert(pa * pb == (hh + c_hi) * p118 + (c_lo * p59 + ll_lo)) by (nonlinear_arith)
            requires
                pa * pb == hh * p118 + mid * p59 + ll,
                ll as nat == (ll as nat / p59) * p59 + ll_lo,
                c as nat == mid + ll as nat / p59,
                c == c_hi * p59 + c_lo,
                p118 == p59 * p59,
        ;
        assert(c_lo * p59 + ll_lo < p118) by {
            lemma_mul_inequality(c_lo as int, (p59 - 1) as int, p59 as int);
            lemma_mul_is_distributive_sub_other_way(p59 as int, p59 as int, 1);
        }
        lemma_div_mod_unique((hh + c_hi) as nat, (c_lo * p59 + ll_lo) as nat, p118);
        assert(c_lo * p59 + ll_lo == 0 <==> (c_lo == 0 && ll_lo == 0)) by {
            if c_lo > 0 {
                lemma_mul_strict_inequality(0, c_lo as int, p59 as int);
            } else {
                lemma_mul_basics(p59 as int);
            }
        }
        assert(c_hi <= c);
        assert(hh + c_hi < pow2(123));
    }
    let st: u128 = if c_lo == 0 && ll_lo == 0 { 0 } else { 1 };
    2 * (hh + c_hi) + st
}

impl Format {
    /// The rounded product of two finite values.
    pub fn prod_exec(&self, s: bool, m1: u128, t1: i128, m2: u128, t2: i128) -> (r: u128)
        requires
            self.binary(),
            m1 < pow2(120),
            m2 < pow2(120),
            -0x1_0000_0000_0000_0000_0000 <= t1 <= 0x1_0000_0000_0000_0000_0000,
            -0x1_0000_0000_0000_0000_0000 <= t2 <= 0x1_0000_0000_0000_0000_0000,
        ensures
            r == self.pack(s, m1 as nat * m2 as nat, t1 + t2),
            r < self.limit(),
    {
        proof {
            lemma_pow2_widths();
            lemma_pow2_strictly_increases(120, 126);
            lemma_pow2_strictly_increases(124, 126);
        }
        if m1 == 0 || m2 == 0 {
            proof {
                lemma_mul_basics(m1 as int);
                lemma_mul_basics(m2 as int);
            }
            return self.pack_exec(s, 0, 0);
        }
        proof {
            lemma_bitlen(m1 as nat);
            lemma_bitlen(m2 as nat);
            lemma_bitlen_bound(m1 as nat, 120);
            lemma_bitlen_bound(m2 as nat, 120);
        }
        let n1 = 120 - bitlen_exec(m1);
        let n2 = 120 - bitlen_exec(m2);
        proof {
            lemma_bitlen_mul_pow2(m1 as nat, n1 as nat);
            lemma_bitlen_mul_pow2(m2 as nat, n2 as nat);
            lemma_bitlen(m1 as nat * pow2(n1 as nat));
            lemma_bitlen(m2 as nat * pow2(n2 as nat));
            lemma_pow2_strictly_increases(120, 128);
        }
        let a = m1 * pow2_u128(n1 as usize);
        let b = m2 * pow2_u128(n2 as usize);
        let u = t1 + t2 - n1 as i128 - n2 as i128;
        let ghost p = m1 as nat * m2 as nat;
        proof {
            // a * b = p * 2^(n1 + n2)
            lemma_pow2_adds(n1 as nat, n2 as nat);
            assert(a * b == p * pow2((n1 + n2) as nat)) by (nonlinear_arith)
                requires
                    a == m1 * pow2(n1 as nat),
                    b == m2 * pow2(n2 as nat),
                    pow2((n1 + n2) as nat) == pow2(n1 as nat) * pow2(n2 as nat),
                    p == m1 * m2,
            ;
            self.lemma_pack_scale(s, p, t1 + t2, (n1 + n2) as nat);
            // enough digits are dropped for the sticky digit to stand in
            lemma_pow2_adds(119, 119);
            let p119 = pow2(119);
            let p238 = pow2(238);
            assert(a * b >= p238) by (nonlinear_arith)
                requires
                    a >= p119, b >= p119, p238 == p119 * p119,
            ;
            lemma_bitlen_bound((a * b) as nat, 238);
            self.lemma_pack_jam(s, (a * b) as nat, u as int, 118);
        }
        let j = jam_product(a, b);
        self.pack_exec(s, j, u + 117)
    }

    pub fn mul_exec(&self, x: u128, y: u128) -> (r: u128)
        requires
            self.binary(),
            x < self.limit(),
            y < self.limit(),
        ensures
            r == self.mul_bits(x as nat, y as nat),
            r < self.limit(),
    {
        let cx = self.classify(x);
        let cy = self.classify(y);
        let s = self.is_sign_negative(x) != self.is_sign_negative(y);
        proof {
            self.lemma_wf();
            lemma_pow2_pos(self.u_bits as nat);
        }
        if cx == FpCategory::Nan || cy == FpCategory::Nan {
            let n = self.add_nan_exec(x, y);
            self.with_sign(n, s)
        } else if (cx == FpCategory::Infinite && cy == FpCategory::Zero) || (cx == FpCategory::Zero
            && cy == FpCategory::Infinite) {
            self.with_sign(self.qnan_exec(), s)
        } else if cx == FpCategory::Zero || cy == FpCategory::Zero {
            self.with_sign(0, s)
        } else if cx == FpCategory::Infinite || cy == FpCategory::Infinite {
            self.with_sign(self.infinity_exec(), s)
        } else if self.is_one(self.with_sign(y, false)) {
            self.with_sign(x, s)
        } else if self.is_one(self.with_sign(x, false)) {
            self.with_sign(y, s)
        } else {
            proof {
                lemma_pow2_mono(self.prec(), 120);
            }
            self.prod_exec(s, self.sig_exec(x), self.t_exec(x), self.sig_exec(y), self.t_exec(y))
        }
    }
}

impl Format {
    /// `x * x`: the magnitude of a NaN, infinity, zero or one stays, other numbers give their
    /// rounded square.
    pub open spec fn squared_bits(self, x: nat) -> nat {
        let ax = self.with_sign_bits(x, false);
        let c = self.category(ax);
        if c == FpCategory::Nan || c == FpCategory::Infinite || c == FpCategory::Zero || self.is_one_bits(ax) {
            ax
        } else {
            self.pack(false, self.sig_of(ax) * self.sig_of(ax), self.t_of(ax) + self.t_of(ax))
        }
    }

    pub fn squared_exec(&self, x: u128) -> (r: u128)
        requires
            self.binary(),
            x < self.limit(),
        ensures
            r == self.squared_bits(x as nat),
            r < self.limit(),
    {
        let ax = self.with_sign(x, false);
        let c = self.classify(ax);
        if c == FpCategory::Nan || c == FpCategory::Infinite || c == FpCategory::Zero || self.is_one(ax) {
            ax
        } else {
            proof {
                lemma_pow2_mono(self.prec(), 120);
            }
            let m = self.sig_exec(ax);
            let t = self.t_exec(ax);
            self.prod_exec(false, m, t, m, t)
        }
    }
}

} // verus!
