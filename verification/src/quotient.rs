//! Division, rounded once.
use vstd::prelude::*;
use vstd::arithmetic::power2::*;
use vstd::arithmetic::div_mod::*;
use vstd::arithmetic::mul::*;
use crate::arith::{pow2_u128, lemma_split, lemma_div_mod_unique, lemma_pow2_mono};
use crate::binary::{bitlen, bitlen_exec, lemma_bitlen, lemma_bitlen_bound};
use crate::format::{Format, FpCategory};
use crate::repr::lemma_pow2_widths;
use crate::rounding::{jam, lemma_bitlen_mul_pow2, lemma_bitlen_double};

verus! {

/// The quotient `a * 2^n / b` cut to an integer, with a sticky digit that tells whether
/// anything was cut.
pub open spec fn jam_div(a: nat, b: nat, n: nat) -> nat {
    2 * ((a * pow2(n)) / b) + if (a * pow2(n)) % b == 0 { 0nat } else { 1nat }
}

/// One more quotient digit, cut by two digits, is the shorter quotient.
pub proof fn lemma_jam_div_step(a: nat, b: nat, n: nat)
    requires
        b > 0,
    ensures
        jam(jam_div(a, b, n + 1), 2) == jam_div(a, b, n),
        a * pow2(n) / b >= 1 ==> bitlen(jam_div(a, b, n + 1)) == bitlen(jam_div(a, b, n)) + 1,
{
    let x = a * pow2(n);
    lemma_pow2_unfold(n + 1);
    lemma2_to64();
    assert(a * pow2(n + 1) == 2 * x) by {
        lemma_mul_is_associative(a as int, 2, pow2(n) as int);
        lemma_mul_is_commutative(a as int, 2);
        lemma_mul_is_associative(2, a as int, pow2(n) as int);
    }
    lemma_split(x, b);
    let q = x / b;
    let r = x % b;
    // 2x = (2q + (2r >= b)) * b + (2r mod b)
    let bit: nat = if 2 * r >= b { 1 } else { 0 };
    let r2 = (2 * r - bit * b) as nat;
    assert(2 * x == (2 * q + bit) * b + r2) by {
        lemma_mul_is_distributive_add_other_way(b as int, (2 * q) as int, bit as int);
        lemma_mul_is_associative(2, q as int, b as int);
    }
    lemma_div_mod_unique(2 * q + bit, r2, b);
    let q1 = 2 * q + bit;
    let st1: nat = if r2 == 0 { 0 } else { 1 };
    let st0: nat = if r == 0 { 0 } else { 1 };
    let m = 2 * q1 + st1;
    assert(jam_div(a, b, n + 1) == m);
    // cut by two digits
    lemma_div_mod_unique(q, 2 * bit + st1, 4);
    assert(m == q * 4 + (2 * bit + st1));
    lemma_pow2_unfold(2);
    lemma_pow2_unfold(1);
    assert(pow2(2) == 4);
    assert((2 * bit + st1 == 0) <==> (r == 0));
    assert(jam(m, 2) == 2 * q + st0);
    if q >= 1 {
        lemma_bitlen_double(q, bit);
        lemma_bitlen_double(q1, st1);
        lemma_bitlen_double(q, st0);
    }
}

/// The divisor and dividend scaled together give the same quotient digits.
pub proof fn lemma_jam_div_scale(a: nat, b: nat, n: nat, c: nat)
    requires
        b > 0,
    ensures
        jam_div(a, b * pow2(c), n + c) == jam_div(a, b, n),
        jam_div(a * pow2(c), b, n) == jam_div(a, b, n + c),
{
    let x = a * pow2(n);
    lemma_pow2_pos(c);
    lemma_pow2_adds(n, c);
    lemma_mul_is_associative(a as int, pow2(n) as int, pow2(c) as int);
    lemma_split(x, b);
    let q = x / b;
    let r = x % b;
    assert(x * pow2(c) == q * (b * pow2(c)) + r * pow2(c)) by {
        lemma_mul_is_distributive_add_other_way(pow2(c) as int, (q * b) as int, r as int);
        lemma_mul_is_associative(q as int, b as int, pow2(c) as int);
    }
    lemma_mul_strict_inequality(r as int, b as int, pow2(c) as int);
    lemma_mul_strict_inequality(0, b as int, pow2(c) as int);
    lemma_div_mod_unique(q, r * pow2(c), b * pow2(c));
    assert(r * pow2(c) == 0 <==> r == 0) by {
        if r > 0 {
            lemma_mul_strict_inequality(0, r as int, pow2(c) as int);
        } else {
            lemma_mul_basics(pow2(c) as int);
        }
    }
    assert(a * pow2(c) * pow2(n) == a * pow2(n + c)) by {
        lemma_mul_is_associative(a as int, pow2(c) as int, pow2(n) as int);
        lemma_mul_is_commutative(pow2(c) as int, pow2(n) as int);
    }
}

impl Format {
    /// The rounded value of `(-1)^s * a / b * 2^t`: the quotient is taken with enough digits
    /// beyond the precision that a sticky digit decides the rounding.
    pub open spec fn pack_ratio(self, s: bool, a: nat, b: nat, t: int) -> nat {
        let n = self.prec() + 3 + bitlen(b);
        self.pack(s, jam_div(a, b, n), t - n - 1)
    }

    /// Once the quotient has three digits beyond the precision, more digits do not change the
    /// rounded result.
    pub proof fn lemma_jam_div_more(self, s: bool, a: nat, b: nat, t: int, n: nat, c: nat)
        requires
            b > 0,
            bitlen(jam_div(a, b, n)) >= self.prec() + 3,
        ensures
            self.pack(s, jam_div(a, b, n + c), t - (n + c) - 1) == self.pack(s, jam_div(a, b, n), t - n - 1),
            bitlen(jam_div(a, b, n + c)) >= self.prec() + 3 + c,
        decreases c,
    {
        if c > 0 {
            let c1 = (c - 1) as nat;
            self.lemma_jam_div_more(s, a, b, t, n, c1);
            let m1 = jam_div(a, b, n + c);
            lemma_jam_div_step(a, b, n + c1);
            assert(n + c1 + 1 == n + c);
            let q = a * pow2(n + c1) / b;
            if q == 0 {
                // the shorter quotient would have at most one digit
                lemma_split(a * pow2(n + c1), b);
                assert(jam_div(a, b, n + c1) <= 1);
                lemma_bitlen_bound(jam_div(a, b, n + c1), 1);
                lemma2_to64();
                assert(false);
            }
            lemma_bitlen(m1);
            assert(self.shift_of(m1, t - (n + c) - 1) >= bitlen(m1) - self.prec());
            self.lemma_pack_jam(s, m1, t - (n + c) - 1, 2);
        }
    }

    /// Any two quotients with three digits beyond the precision round alike.
    pub proof fn lemma_jam_div_agree(self, s: bool, a: nat, b: nat, t: int, n1: nat, n2: nat)
        requires
            b > 0,
            bitlen(jam_div(a, b, n1)) >= self.prec() + 3,
            bitlen(jam_div(a, b, n2)) >= self.prec() + 3,
        ensures
            self.pack(s, jam_div(a, b, n1), t - n1 - 1) == self.pack(s, jam_div(a, b, n2), t - n2 - 1),
    {
        if n1 <= n2 {
            self.lemma_jam_div_more(s, a, b, t, n1, (n2 - n1) as nat);
        } else {
            self.lemma_jam_div_more(s, a, b, t, n2, (n1 - n2) as nat);
        }
    }
}

/// With `k + bitlen(b)` quotient digits, a positive quotient has at least `k + 1` digits.
proof fn lemma_ratio_digits(a: nat, b: nat, k: nat)
    requires
        a >= 1,
        b >= 1,
    ensures
        a * pow2(k + bitlen(b)) / b >= pow2(k),
        bitlen(jam_div(a, b, k + bitlen(b))) >= k + 2,
{
    let n = k + bitlen(b);
    lemma_bitlen(b);
    lemma_pow2_adds(k, bitlen(b));
    lemma_pow2_pos(k);
    lemma_pow2_pos(n);
    let x = a * pow2(n);
    let pn = pow2(n);
    let pk = pow2(k);
    let pb = pow2(bitlen(b));
    assert(x >= pk * b) by (nonlinear_arith)
        requires
            x == a * pn, a >= 1, pn == pk * pb, b < pb, pk > 0,
    ;
    lemma_div_mod_unique(pow2(k), 0, b);
    lemma_div_is_ordered((pow2(k) * b) as int, x as int, b as int);
    let q = x / b;
    let st: nat = if x % b == 0 { 0 } else { 1 };
    lemma_bitlen_double(q, st);
    lemma_bitlen_bound(q, k);
}

impl Format {
    /// The rounded ratio depends only on the value of the ratio: the operands may be scaled.
    pub proof fn lemma_ratio_norm(self, s: bool, a: nat, b: nat, t: int, ca: nat, cb: nat, n: nat)
        requires
            a >= 1,
            b >= 1,
            bitlen(jam_div(a * pow2(ca), b * pow2(cb), n)) >= self.prec() + 3,
        ensures
            self.pack_ratio(s, a, b, t) == self.pack(s, jam_div(a * pow2(ca), b * pow2(cb), n), t - ca + cb - n - 1),
    {
        let n0 = self.prec() + 3 + bitlen(b);
        let b1 = b * pow2(cb);
        lemma_pow2_pos(cb);
        lemma_mul_strict_inequality(0, b as int, pow2(cb) as int);
        lemma_jam_div_scale(a, b, n0, cb);
        lemma_jam_div_scale(a, b1, n, ca);
        lemma_ratio_digits(a, b, self.prec() + 3);
        self.lemma_jam_div_agree(s, a, b1, t + cb, n0 + cb, n + ca);
    }

    /// The rounded value of `(-1)^s * a / b * 2^t` for significands below `2^121`.
    pub fn ratio_exec(&self, s: bool, a: u128, b: u128, t: i128) -> (r: u128)
        requires
            self.binary(),
            a < pow2(121),
            0 < b < pow2(121),
            -0x400_0000_0000_0000_0000_0000 <= t <= 0x400_0000_0000_0000_0000_0000,
        ensures
            r == self.pack_ratio(s, a as nat, b as nat, t as int),
            r < self.limit(),
    {
        proof {
            lemma_pow2_widths();
            lemma2_to64();
            lemma_pow2_strictly_increases(121, 128);
            lemma_pow2_strictly_increases(122, 128);
            lemma_pow2_strictly_increases(125, 126);
            lemma_pow2_strictly_increases(126, 128);
            lemma_pow2_unfold(121);
            lemma_pow2_unfold(122);
            lemma_pow2_unfold(126);
        }
        if a == 0 {
            proof {
                let n = self.prec() + 3 + bitlen(b as nat);
                lemma_mul_basics(pow2(n) as int);
                lemma_div_mod_unique(0, 0, b as nat);
            }
            return self.pack_exec(s, 0, 0);
        }
        proof {
            lemma_bitlen(a as nat);
            lemma_bitlen(b as nat);
            lemma_bitlen_bound(a as nat, 121);
            lemma_bitlen_bound(b as nat, 121);
        }
        let ca0 = 121 - bitlen_exec(a);
        let cb = 121 - bitlen_exec(b);
        proof {
            lemma_bitlen_mul_pow2(a as nat, ca0 as nat);
            lemma_bitlen_mul_pow2(b as nat, cb as nat);
            lemma_bitlen(a as nat * pow2(ca0 as nat));
            lemma_bitlen(b as nat * pow2(cb as nat));
        }
        let a1 = a * pow2_u128(ca0 as usize);
        let b1 = b * pow2_u128(cb as usize);
        let (a2, ca) = if a1 < b1 { (2 * a1, ca0 + 1) } else { (a1, ca0) };
        proof {
            lemma_pow2_unfold((ca0 + 1) as nat);
            lemma_mul_is_associative(a as int, pow2(ca0 as nat) as int, 2);
            assert(a2 == a * pow2(ca as nat));
            assert(b1 <= a2 < 2 * b1);
        }
        let mut q: u128 = 1;
        let mut r: u128 = a2 - b1;
        let mut i: u32 = 0;
        proof {
            assert(pow2(0) == 1);
            lemma_mul_basics(a2 as int);
            lemma_mul_basics(b1 as int);
        }
        while i < 124
            invariant
                i <= 124,
                q * b1 + r == a2 * pow2(i as nat),
                r < b1,
                pow2(i as nat) <= q < pow2((i + 1) as nat),
                0 < b1 < pow2(121),
                pow2(126) <= 0x1_0000_0000_0000_0000_0000_0000_0000_0000,
            decreases 124 - i,
        {
            proof {
                lemma_pow2_unfold((i + 1) as nat);
                lemma_pow2_unfold((i + 2) as nat);
                lemma_pow2_mono((i + 2) as nat, 126);
                lemma_pow2_strictly_increases(121, 122);
                lemma_pow2_strictly_increases(122, 126);
                lemma_pow2_unfold(122);
            }
            let ghost q0 = q;
            let ghost r0 = r;
            r = 2 * r;
            q = 2 * q;
            if r >= b1 {
                r = r - b1;
                q = q + 1;
            }
            proof {
                assert(q * b1 + r == 2 * (q0 * b1 + r0)) by (nonlinear_arith)
                    requires
                        (q == 2 * q0 && r == 2 * r0) || (q == 2 * q0 + 1 && r == 2 * r0 - b1),
                ;
                lemma_mul_is_associative(a2 as int, pow2(i as nat) as int, 2);
            }
            i = i + 1;
        }
        proof {
            lemma_div_mod_unique(q as nat, r as nat, b1 as nat);
            lemma_bitlen_bound(q as nat, 124);
            let st: nat = if r == 0 { 0 } else { 1 };
            lemma_pow2_pos(124);
            lemma_bitlen_double(q as nat, st);
            self.lemma_ratio_norm(s, a as nat, b as nat, t as int, ca as nat, cb as nat, 124);
        }
        let jm: u128 = 2 * q + if r == 0 { 0 } else { 1 };
        self.pack_exec(s, jm, t - ca as i128 + cb as i128 - 125)
    }
}

impl Format {
    /// `1 / x`: NaN stays, zero gives infinity and infinity zero with the sign of `x`, a
    /// magnitude of one stays, a zero significand gives infinity, and other numbers their
    /// rounded reciprocal.
    pub open spec fn recip_bits(self, x: nat) -> nat {
        let c = self.category(x);
        let s = self.sign_of(x);
        if c == FpCategory::Nan {
            x
        } else if c == FpCategory::Zero {
            self.with_sign_bits(self.infinity_bits(), s)
        } else if c == FpCategory::Infinite {
            self.with_sign_bits(0, s)
        } else if self.is_one_bits(self.with_sign_bits(x, false)) {
            x
        } else if self.sig_of(x) == 0 {
            self.with_sign_bits(self.infinity_bits(), s)
        } else {
            self.pack_ratio(s, 1, self.sig_of(x), -self.t_of(x))
        }
    }

    /// `x / y`: NaN operands give a NaN operand, zero by zero and infinity by infinity a quiet
    /// NaN, then infinity or division by zero gives infinity and division of zero or by
    /// infinity zero; a divisor of magnitude one gives the dividend, a dividend of magnitude
    /// one the reciprocal, equal exponents and significands one, and otherwise the rounded
    /// quotient; the sign is the exclusive or of the signs.
    pub open spec fn div_bits(self, x: nat, y: nat) -> nat {
        let cx = self.category(x);
        let cy = self.category(y);
        let s = self.sign_of(x) != self.sign_of(y);
        if cx == FpCategory::Nan || cy == FpCategory::Nan {
            self.with_sign_bits(self.add_nan_bits(x, y), s)
        } else if (cx == FpCategory::Zero && cy == FpCategory::Zero) || (cx == FpCategory::Infinite
            && cy == FpCategory::Infinite) {
            self.with_sign_bits(self.qnan_bits(), s)
        } else if cx == FpCategory::Infinite || cy == FpCategory::Zero {
            self.with_sign_bits(self.infinity_bits(), s)
        } else if cy == FpCategory::Infinite || cx == FpCategory::Zero {
            self.with_sign_bits(0, s)
        } else if self.is_one_bits(self.with_sign_bits(y, false)) {
            self.with_sign_bits(x, s)
        } else if self.is_one_bits(self.with_sign_bits(x, false)) {
            self.with_sign_bits(self.recip_bits(y), s)
        } else if self.exp_of(x) == self.exp_of(y) && self.sig_of(x) == self.sig_of(y) {
            self.with_sign_bits(self.one_bits(), s)
        } else if self.sig_of(y) == 0 {
            self.with_sign_bits(self.infinity_bits(), s)
        } else {
            self.pack_ratio(s, self.sig_of(x), self.sig_of(y), self.t_of(x) - self.t_of(y))
        }
    }

    pub fn recip_exec(&self, x: u128) -> (r: u128)
        requires
            self.binary(),
            x < self.limit(),
        ensures
            r == self.recip_bits(x as nat),
            r < self.limit(),
    {
        let c = self.classify(x);
        let s = self.is_sign_negative(x);
        proof {
            self.lemma_wf();
            lemma_pow2_pos(self.u_bits as nat);
            lemma_pow2_mono(self.prec(), 121);
            lemma2_to64();
        }
        if c == FpCategory::Nan {
            x
        } else if c == FpCategory::Zero {
            self.with_sign(self.infinity_exec(), s)
        } else if c == FpCategory::Infinite {
            self.with_sign(0, s)
        } else if self.is_one(self.with_sign(x, false)) {
            x
        } else {
            let m = self.sig_exec(x);
            if m == 0 {
                self.with_sign(self.infinity_exec(), s)
            } else {
                self.ratio_exec(s, 1, m, -self.t_exec(x))
            }
        }
    }

    pub fn div_exec(&self, x: u128, y: u128) -> (r: u128)
        requires
            self.binary(),
            x < self.limit(),
            y < self.limit(),
        ensures
            r == self.div_bits(x as nat, y as nat),
            r < self.limit(),
    {
        let cx = self.classify(x);
        let cy = self.classify(y);
        let s = self.is_sign_negative(x) != self.is_sign_negative(y);
        proof {
            self.lemma_wf();
            lemma_pow2_pos(self.u_bits as nat);
            lemma_pow2_mono(self.prec(), 121);
        }
        if cx == FpCategory::Nan || cy == FpCategory::Nan {
            let n = self.add_nan_exec(x, y);
            self.with_sign(n, s)
        } else if (cx == FpCategory::Zero && cy == FpCategory::Zero) || (cx == FpCategory::Infinite
            && cy == FpCategory::Infinite) {
            self.with_sign(self.qnan_exec(), s)
        } else if cx == FpCategory::Infinite || cy == FpCategory::Zero {
            self.with_sign(self.infinity_exec(), s)
        } else if cy == FpCategory::Infinite || cx == FpCategory::Zero {
            self.with_sign(0, s)
        } else if self.is_one(self.with_sign(y, false)) {
            self.with_sign(x, s)
        } else if self.is_one(self.with_sign(x, false)) {
            let ry = self.recip_exec(y);
            self.with_sign(ry, s)
        } else {
            let mx = self.sig_exec(x);
            let my = self.sig_exec(y);
            if self.exp_bits(x) == self.exp_bits(y) && mx == my {
                self.with_sign(self.one_exec(), s)
            } else if my == 0 {
                self.with_sign(self.infinity_exec(), s)
            } else {
                self.ratio_exec(s, mx, my, self.t_exec(x) - self.t_exec(y))
            }
        }
    }
}

impl Format {
    /// Exponentiation by squaring from `acc` and `base`: for each bit of `n` from the lowest,
    /// `acc` takes the rounded product with `base` when the bit is set and `base` is squared.
    pub open spec fn pow_loop(self, acc: nat, base: nat, n: nat) -> nat
        decreases n,
    {
        if n == 0 {
            acc
        } else {
            self.pow_loop(
                if n % 2 == 1 { self.mul_bits(acc, base) } else { acc },
                self.mul_bits(base, base),
                n / 2,
            )
        }
    }

    /// `x^n` by squaring, each product rounded.
    pub open spec fn powu_bits(self, x: nat, n: nat) -> nat {
        self.pow_loop(self.one_bits(), x, n)
    }

    /// `x^n` for an integer `n`; a negative power is the reciprocal of the positive one.
    pub open spec fn powi_bits(self, x: nat, n: int) -> nat {
        if n >= 0 {
            self.powu_bits(x, n as nat)
        } else {
            self.recip_bits(self.powu_bits(x, (-n) as nat))
        }
    }

    pub fn powu_exec(&self, x: u128, n: u128) -> (r: u128)
        requires
            self.binary(),
            x < self.limit(),
        ensures
            r == self.powu_bits(x as nat, n as nat),
            r < self.limit(),
    {
        let mut acc = self.one_exec();
        let mut base = x;
        let mut k = n;
        while k > 0
            invariant
                self.binary(),
                acc < self.limit(),
                base < self.limit(),
                self.pow_loop(acc as nat, base as nat, k as nat) == self.powu_bits(x as nat, n as nat),
            decreases k,
        {
            if k % 2 == 1 {
                acc = self.mul_exec(acc, base);
            }
            base = self.mul_exec(base, base);
            k = k / 2;
        }
        acc
    }

    pub fn powi_exec(&self, x: u128, neg: bool, mag: u128) -> (r: u128)
        requires
            self.binary(),
            x < self.limit(),
        ensures
            r == self.powi_bits(x as nat, crate::integer::signed_value(neg, mag as nat)),
            r < self.limit(),
    {
        let p = self.powu_exec(x, mag);
        if neg && mag != 0 {
            self.recip_exec(p)
        } else {
            p
        }
    }
}

} // verus!
