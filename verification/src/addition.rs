//! Addition and subtraction, rounded once.
use vstd::prelude::*;
use vstd::arithmetic::power2::*;
use vstd::arithmetic::div_mod::*;
use vstd::arithmetic::mul::*;
use crate::arith::{pow2_u128, lemma_split, lemma_div_mod_unique, lemma_pow2_mono};
use crate::binary::{bitlen, bitlen_exec, lemma_bitlen, lemma_bitlen_bound};
use crate::format::{Format, FpCategory};
use crate::repr::lemma_pow2_widths;
use crate::rounding::{jam, lemma_bitlen_mul_pow2};

verus! {

impl Format {
    /// The rounded sum of `(-1)^s1 * m1 * 2^t1` and `(-1)^s2 * m2 * 2^t2`. An exact zero takes
    /// the sign of the first operand.
    pub open spec fn sum_bits(self, s1: bool, m1: nat, t1: int, s2: bool, m2: nat, t2: int) -> nat {
        let tm = if t1 <= t2 { t1 } else { t2 };
        let a = m1 * pow2((t1 - tm) as nat);
        let b = m2 * pow2((t2 - tm) as nat);
        if s1 == s2 {
            self.pack(s1, a + b, tm)
        } else if a >= b {
            self.pack(s1, (a - b) as nat, tm)
        } else {
            self.pack(s2, (b - a) as nat, tm)
        }
    }

    /// `x + (-1)^sy * y`: NaN operands give a NaN operand, infinities of opposite signs a
    /// quiet NaN, a zero or infinite operand the other one (or itself), and two finite
    /// nonzero numbers their rounded sum.
    pub open spec fn add_signed_bits(self, x: nat, y: nat, sy: bool) -> nat {
        let cx = self.category(x);
        let cy = self.category(y);
        let s0 = self.sign_of(x);
        let s1 = self.sign_of(y) != sy;
        if cx == FpCategory::Nan || cy == FpCategory::Nan {
            self.add_nan_bits(x, y)
        } else if cx == FpCategory::Infinite && cy == FpCategory::Infinite && s0 != s1 {
            self.qnan_bits()
        } else if cy == FpCategory::Zero || cx == FpCategory::Infinite {
            x
        } else if cx == FpCategory::Zero || cy == FpCategory::Infinite {
            self.xor_sign_bits(y, sy)
        } else {
            self.sum_bits(s0, self.sig_of(x), self.t_of(x), s1, self.sig_of(y), self.t_of(y))
        }
    }
}

proof fn lemma_pow2_shift(m: nat, c: nat, u: nat)
    ensures
        m * pow2(c) * pow2(u) == m * pow2(c + u),
{
    lemma_pow2_adds(c, u);
    lemma_mul_is_associative(m as int, pow2(c) as int, pow2(u) as int);
}

impl Format {
    /// The rounded sum depends only on the values of the operands.
    pub proof fn lemma_sum_scale(self, s1: bool, m1: nat, t1: int, c1: nat, s2: bool, m2: nat, t2: int, c2: nat)
        ensures
            self.sum_bits(s1, m1 * pow2(c1), t1 - c1, s2, m2 * pow2(c2), t2 - c2)
                == self.sum_bits(s1, m1, t1, s2, m2, t2),
    {
        let tm = if t1 <= t2 { t1 } else { t2 };
        let u1 = t1 - c1;
        let u2 = t2 - c2;
        let tn = if u1 <= u2 { u1 } else { u2 };
        let d = (tm - tn) as nat;
        let a = m1 * pow2((t1 - tm) as nat);
        let b = m2 * pow2((t2 - tm) as nat);
        let a2 = m1 * pow2(c1) * pow2((u1 - tn) as nat);
        let b2 = m2 * pow2(c2) * pow2((u2 - tn) as nat);
        lemma_pow2_shift(m1, c1, (u1 - tn) as nat);
        lemma_pow2_shift(m1, (t1 - tm) as nat, d);
        assert(c1 + (u1 - tn) as nat == (t1 - tm) as nat + d);
        lemma_pow2_shift(m2, c2, (u2 - tn) as nat);
        lemma_pow2_shift(m2, (t2 - tm) as nat, d);
        assert(c2 + (u2 - tn) as nat == (t2 - tm) as nat + d);
        assert(a2 == a * pow2(d));
        assert(b2 == b * pow2(d));
        lemma_pow2_pos(d);
        lemma_mul_is_distributive_add_other_way(pow2(d) as int, a as int, b as int);
        lemma_mul_is_distributive_sub_other_way(pow2(d) as int, a as int, b as int);
        lemma_mul_is_distributive_sub_other_way(pow2(d) as int, b as int, a as int);
        if a >= b {
            lemma_mul_inequality(b as int, a as int, pow2(d) as int);
        } else {
            lemma_mul_strict_inequality(a as int, b as int, pow2(d) as int);
        }
        self.lemma_pack_scale(s1, a + b, tm, d);
        self.lemma_pack_scale(s1, (a - b) as nat, tm, d);
        self.lemma_pack_scale(s2, (b - a) as nat, tm, d);
        assert(tn == tm - d);
    }
}

impl Format {
    /// The rounded sum of two significands with 122 digits, the first at the larger exponent.
    fn sum_norm_exec(&self, s1: bool, a1: u128, u1: i128, s2: bool, a2: u128, u2: i128) -> (r: u128)
        requires
            self.binary(),
            pow2(121) <= a1 < pow2(122),
            pow2(121) <= a2 < pow2(122),
            u2 <= u1,
            -0x1_0000_0000_0000_0000_0000_0000 <= u2,
            u1 <= 0x1_0000_0000_0000_0000_0000_0000,
        ensures
            r == self.sum_bits(s1, a1 as nat, u1 as int, s2, a2 as nat, u2 as int),
            r < self.limit(),
    {
        proof {
            lemma_pow2_widths();
            lemma2_to64();
            lemma_pow2_strictly_increases(121, 122);
            lemma_pow2_strictly_increases(122, 126);
            lemma_pow2_strictly_increases(124, 126);
            lemma_pow2_adds(122, 2);
            lemma_pow2_adds(122, 1);
            lemma_pow2_adds(124, 2);
            lemma_pow2_strictly_increases(126, 128);
            lemma_pow2_strictly_increases(122, 124);
        }
        let d = u1 - u2;
        let ghost a = a1 as nat * pow2(d as nat);
        let ghost b = a2 as nat * pow2(0);
        assert(b == a2);
        if d <= 2 {
            proof {
                lemma_pow2_mono(d as nat, 2);
                lemma_pow2_pos(d as nat);
                lemma_mul_strict_inequality(a1 as int, pow2(122) as int, pow2(d as nat) as int);
                lemma_mul_inequality(pow2(d as nat) as int, 4, pow2(122) as int);
                lemma_mul_is_commutative(pow2(122) as int, pow2(d as nat) as int);
                assert(a1 * pow2(d as nat) < pow2(124));
            }
            let aa = a1 * pow2_u128(d as usize);
            if s1 == s2 {
                return self.pack_exec(s1, aa + a2, u2);
            } else if aa >= a2 {
                return self.pack_exec(s1, aa - a2, u2);
            } else {
                return self.pack_exec(s2, a2 - aa, u2);
            }
        }
        let j = d - 2;
        let ghost jn = j as nat;
        proof {
            lemma_pow2_adds(jn, 2);
            assert(jn + 2 == d as nat);
            lemma_pow2_pos(jn);
            lemma_mul_is_associative(a1 as int, 4, pow2(jn) as int);
            assert(a == (4 * a1) * pow2(jn));
            lemma_pow2_mono(3, d as nat);
            lemma_mul_inequality(pow2(121) as int, a1 as int, pow2(d as nat) as int);
            lemma_pow2_adds(121, d as nat);
            lemma_pow2_mono(122, (120 + d) as nat);
            lemma_pow2_adds(120, d as nat);
            lemma_pow2_unfold((121 + d) as nat);
        }
        let (q2, r2) = if j >= 122 {
            proof {
                lemma_pow2_mono(122, jn);
                lemma_div_mod_unique(0, a2 as nat, pow2(jn));
            }
            (0u128, a2)
        } else {
            let pj = pow2_u128(j as usize);
            proof {
                lemma_split(a2 as nat, pj as nat);
            }
            (a2 / pj, a2 % pj)
        };
        proof {
            lemma_split(a2 as nat, pow2(jn));
            assert(q2 <= a2);
            assert(q2 * pow2(jn) + r2 == a2);
            assert(r2 < pow2(jn));
        }
        let jm: u128;
        if s1 == s2 {
            proof {
                let m = a + b;
                assert(m == (4 * a1 + q2) * pow2(jn) + r2) by {
                    lemma_mul_is_distributive_add_other_way(pow2(jn) as int, (4 * a1) as int, q2 as int);
                }
                lemma_div_mod_unique((4 * a1 + q2) as nat, r2 as nat, pow2(jn));
                assert(jam(m, jn) == 2 * (4 * a1 + q2) + if r2 == 0 { 0nat } else { 1nat });
                assert(m >= pow2((120 + d) as nat));
                lemma_bitlen_bound(m, (120 + d) as nat);
                self.lemma_pack_jam(s1, m, u2 as int, jn);
            }
            jm = 2 * (4 * a1 + q2) + if r2 == 0 { 0 } else { 1 };
        } else {
            proof {
                assert(a >= b);
                lemma_pow2_unfold(122);
                assert(4 * a1 >= q2 + 1);
                let m = (a - b) as nat;
                if r2 == 0 {
                    assert(m == (4 * a1 - q2) * pow2(jn)) by {
                        lemma_mul_is_distributive_sub_other_way(pow2(jn) as int, (4 * a1) as int, q2 as int);
                    }
                    lemma_div_mod_unique((4 * a1 - q2) as nat, 0, pow2(jn));
                    assert(jam(m, jn) == 2 * (4 * a1 - q2));
                } else {
                    assert(m == (4 * a1 - q2 - 1) * pow2(jn) + (pow2(jn) - r2)) by {
                        lemma_mul_is_distributive_sub_other_way(pow2(jn) as int, (4 * a1) as int, (q2 + 1) as int);
                        lemma_mul_is_distributive_add_other_way(pow2(jn) as int, q2 as int, 1);
                    }
                    lemma_div_mod_unique((4 * a1 - q2 - 1) as nat, (pow2(jn) - r2) as nat, pow2(jn));
                    assert(jam(m, jn) == 2 * (4 * a1 - q2 - 1) + 1);
                }
                assert(m >= pow2((120 + d) as nat));
                lemma_bitlen_bound(m, (120 + d) as nat);
                self.lemma_pack_jam(s1, m, u2 as int, jn);
            }
            jm = if r2 == 0 { 2 * (4 * a1 - q2) } else { 2 * (4 * a1 - q2 - 1) + 1 };
        }
        self.pack_exec(s1, jm, u2 + j - 1)
    }
}

impl Format {
    /// A sum with a zero significand is the other operand, rounded.
    proof fn lemma_sum_zero(self, s1: bool, m1: nat, t1: int, s2: bool, m2: nat, t2: int)
        requires
            m1 == 0 || m2 == 0,
        ensures
            m1 == 0 && m2 == 0 ==> self.sum_bits(s1, m1, t1, s2, m2, t2) == self.pack(s1, 0, 0),
            m1 == 0 && m2 != 0 ==> self.sum_bits(s1, m1, t1, s2, m2, t2) == self.pack(s2, m2, t2),
            m1 != 0 ==> self.sum_bits(s1, m1, t1, s2, m2, t2) == self.pack(s1, m1, t1),
    {
        let tm = if t1 <= t2 { t1 } else { t2 };
        let c1 = (t1 - tm) as nat;
        let c2 = (t2 - tm) as nat;
        self.lemma_pack_scale(s1, m1, t1, c1);
        self.lemma_pack_scale(s2, m2, t2, c2);
        lemma_pow2_pos(c1);
        lemma_pow2_pos(c2);
        if m1 == 0 {
            assert(m1 * pow2(c1) == 0);
        } else {
            lemma_mul_strict_inequality(0, m1 as int, pow2(c1) as int);
        }
        if m2 == 0 {
            assert(m2 * pow2(c2) == 0);
        } else {
            lemma_mul_strict_inequality(0, m2 as int, pow2(c2) as int);
        }
    }

    /// The rounded sum of two finite values.
    pub fn sum_exec(&self, s1: bool, m1: u128, t1: i128, s2: bool, m2: u128, t2: i128) -> (r: u128)
        requires
            self.binary(),
            m1 < pow2(121),
            m2 < pow2(121),
            -0x1_0000_0000_0000_0000_0000 <= t1 <= 0x1_0000_0000_0000_0000_0000,
            -0x1_0000_0000_0000_0000_0000 <= t2 <= 0x1_0000_0000_0000_0000_0000,
        ensures
            r == self.sum_bits(s1, m1 as nat, t1 as int, s2, m2 as nat, t2 as int),
            r < self.limit(),
    {
        if m1 == 0 || m2 == 0 {
            proof {
                lemma_pow2_widths();
                lemma_pow2_strictly_increases(121, 126);
                self.lemma_sum_zero(s1, m1 as nat, t1 as int, s2, m2 as nat, t2 as int);
            }
            if m1 == 0 && m2 == 0 {
                return self.pack_exec(s1, 0, 0);
            } else if m1 == 0 {
                return self.pack_exec(s2, m2, t2);
            } else {
                return self.pack_exec(s1, m1, t1);
            }
        }
        proof {
            lemma_pow2_widths();
            lemma_bitlen(m1 as nat);
            lemma_bitlen(m2 as nat);
            lemma_bitlen_bound(m1 as nat, 121);
            lemma_bitlen_bound(m2 as nat, 121);
        }
        let n1 = 122 - bitlen_exec(m1);
        let n2 = 122 - bitlen_exec(m2);
        proof {
            lemma_bitlen_mul_pow2(m1 as nat, n1 as nat);
            lemma_bitlen_mul_pow2(m2 as nat, n2 as nat);
            lemma_bitlen(m1 as nat * pow2(n1 as nat));
            lemma_bitlen(m2 as nat * pow2(n2 as nat));
            lemma_pow2_strictly_increases(122, 128);
        }
        let a1 = m1 * pow2_u128(n1 as usize);
        let a2 = m2 * pow2_u128(n2 as usize);
        let u1 = t1 - n1 as i128;
        let u2 = t2 - n2 as i128;
        proof {
            self.lemma_sum_scale(s1, m1 as nat, t1 as int, n1 as nat, s2, m2 as nat, t2 as int, n2 as nat);
        }
        if u1 >= u2 {
            self.sum_norm_exec(s1, a1, u1, s2, a2, u2)
        } else {
            proof {
                let d = (u2 - u1) as nat;
                lemma_pow2_pos(d);
                lemma_pow2_mono(1, d);
                lemma2_to64();
                lemma_mul_inequality(pow2(121) as int, a2 as int, pow2(d) as int);
                lemma_mul_inequality(2, pow2(d) as int, pow2(121) as int);
                lemma_pow2_unfold(122);
                assert(a2 * pow2(d) >= pow2(122));
                assert(pow2(0) == 1);
                lemma_mul_basics(a1 as int);
                assert(a1 * pow2(0) == a1);
            }
            self.sum_norm_exec(s2, a2, u2, s1, a1, u1)
        }
    }

    pub fn add_nan_exec(&self, x: u128, y: u128) -> (r: u128)
        requires
            self.wf(),
        ensures
            r == self.add_nan_bits(x as nat, y as nat),
    {
        if self.is_snan(y) || self.classify(x) != FpCategory::Nan {
            y
        } else {
            x
        }
    }

    /// `x + (-1)^sy * y`.
    pub fn add_signed_exec(&self, x: u128, y: u128, sy: bool) -> (r: u128)
        requires
            self.binary(),
            x < self.limit(),
            y < self.limit(),
        ensures
            r == self.add_signed_bits(x as nat, y as nat, sy),
            r < self.limit(),
    {
        let cx = self.classify(x);
        let cy = self.classify(y);
        let s0 = self.is_sign_negative(x);
        let s1 = self.is_sign_negative(y) != sy;
        if cx == FpCategory::Nan || cy == FpCategory::Nan {
            self.add_nan_exec(x, y)
        } else if cx == FpCategory::Infinite && cy == FpCategory::Infinite && s0 != s1 {
            self.qnan_exec()
        } else if cy == FpCategory::Zero || cx == FpCategory::Infinite {
            x
        } else if cx == FpCategory::Zero || cy == FpCategory::Infinite {
            self.xor_sign(y, sy)
        } else {
            proof {
                lemma_pow2_mono(self.prec(), 121);
            }
            self.sum_exec(s0, self.sig_exec(x), self.t_exec(x), s1, self.sig_exec(y), self.t_exec(y))
        }
    }
}

} // verus!
