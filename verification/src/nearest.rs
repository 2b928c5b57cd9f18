//! Rounding gives a nearest number of the layout.
use vstd::prelude::*;
use vstd::arithmetic::power2::*;
use vstd::arithmetic::div_mod::*;
use vstd::arithmetic::mul::*;
use crate::arith::{lemma_split, lemma_pow2_mono};
use crate::binary::{bitlen, round_shift, lemma_bitlen};
use crate::format::{Format, FpCategory};

verus! {

/// The distance of two integers.
pub open spec fn dist(a: int, b: int) -> int {
    if a >= b { a - b } else { b - a }
}

/// Rounding at `k > 0` digits gives a multiple of `2^k` nearest to `m`.
pub proof fn lemma_round_shift_nearest(m: nat, k: nat, q: nat)
    requires
        k > 0,
    ensures
        dist(m as int, (round_shift(m, k as int) * pow2(k)) as int) <= dist(m as int, (q * pow2(k)) as int),
{
    let d = pow2(k);
    lemma_pow2_pos(k);
    lemma_pow2_unfold(k);
    lemma_split(m, d);
    let qq = m / d;
    let r = m % d;
    let h = pow2((k - 1) as nat);
    assert(m == qq * d + r);
    assert((qq + 1) * d == qq * d + d) by {
        lemma_mul_is_distributive_add_other_way(d as int, qq as int, 1);
    }
    if q <= qq {
        lemma_mul_inequality(q as int, qq as int, d as int);
    } else {
        lemma_mul_inequality((qq + 1) as int, q as int, d as int);
    }
}

/// Scaling both points by the same power of two scales their distance.
pub proof fn lemma_dist_scale(a: nat, b: nat, c: nat)
    ensures
        dist((a * pow2(c)) as int, (b * pow2(c)) as int) == dist(a as int, b as int) * pow2(c),
{
    lemma_pow2_pos(c);
    if a >= b {
        lemma_mul_inequality(b as int, a as int, pow2(c) as int);
        lemma_mul_is_distributive_sub_other_way(pow2(c) as int, a as int, b as int);
    } else {
        lemma_mul_inequality(a as int, b as int, pow2(c) as int);
        lemma_mul_is_distributive_sub_other_way(pow2(c) as int, b as int, a as int);
    }
}

/// `a * 2^(i - b)` splits at any `j` between `b` and `i`.
pub proof fn lemma_scale_split(a: nat, i: int, j: int, b: int)
    requires
        b <= j <= i,
    ensures
        a * pow2((i - b) as nat) == (a * pow2((i - j) as nat)) * pow2((j - b) as nat),
{
    lemma_pow2_adds((i - j) as nat, (j - b) as nat);
    lemma_mul_is_associative(a as int, pow2((i - j) as nat) as int, pow2((j - b) as nat) as int);
}

/// Scaling by a power of two keeps which of two points is nearer.
pub proof fn lemma_nearer_scale(m: nat, a: nat, q: nat, c: nat)
    requires
        dist(m as int, a as int) <= dist(m as int, q as int),
    ensures
        dist((m * pow2(c)) as int, (a * pow2(c)) as int) <= dist((m * pow2(c)) as int, (q * pow2(c)) as int),
{
    lemma_dist_scale(m, a, c);
    lemma_dist_scale(m, q, c);
    lemma_pow2_pos(c);
    lemma_mul_inequality(dist(m as int, a as int), dist(m as int, q as int), pow2(c) as int);
}

impl Format {
    /// The smallest exponent that the last significand digit of a finite number has.
    pub open spec fn t_min(self) -> int {
        self.emin() - self.bias() - self.frac_size
    }

    /// The signed value of a finite pattern in units of `2^b`, for `b <= t_min`.
    pub open spec fn value_at(self, x: nat, b: int) -> int {
        let v = (self.sig_of(x) * pow2((self.t_of(x) - b) as nat)) as int;
        if self.sign_of(x) { -v } else { v }
    }

    /// Every significand of an implicit layout has at most `prec` digits, and every finite
    /// number has its last digit at `t_min` or above.
    pub proof fn lemma_sig_bound(self, x: nat)
        requires
            self.wf(),
            self.implicit(),
        ensures
            self.sig_of(x) < pow2(self.prec()),
            self.t_of(x) >= self.t_min(),
            self.t_of(x) > self.t_min() ==> self.sig_of(x) >= pow2(self.frac_size as nat),
    {
        let fr = self.frac_size as nat;
        lemma_pow2_pos(fr);
        lemma_mod_bound(x as int, pow2(fr) as int);
        lemma_pow2_unfold(fr + 1);
    }
}

impl Format {
    /// The rounded number is `round_shift(m, k) * 2^(t + k)`, where `k` digits were dropped.
    pub proof fn lemma_pack_ulp(self, m: nat, t: int)
        requires
            self.wf(),
            self.implicit(),
            m > 0,
            self.category(self.pack(false, m, t)) != FpCategory::Infinite,
        ensures
            ({
                let y = self.pack(false, m, t);
                let u = t + self.shift_of(m, t);
                &&& self.is_finite_bits(y)
                &&& !self.sign_of(y)
                &&& u == self.exp_at(m, t) - self.bias() - self.frac_size
                &&& self.t_of(y) >= u
                &&& self.sig_of(y) * pow2((self.t_of(y) - u) as nat) == round_shift(m, self.shift_of(m, t))
            }),
    {
        self.lemma_wf();
        lemma2_to64();
        let p = self.prec();
        let fr = self.frac_size as nat;
        let k = self.shift_of(m, t);
        let e = self.exp_at(m, t);
        let r = round_shift(m, k);
        lemma_bitlen(m);
        crate::binary::lemma_round_shift_bound(m, k, p);
        lemma_pow2_unfold(fr + 1);
        lemma_pow2_pos(fr);
        assert(p == fr + 1);
        let r2 = if r == pow2(p) { pow2((p - 1) as nat) } else { r };
        let e2 = if r == pow2(p) { e + 1 } else { e };
        let y = self.pack(false, m, t);
        if e2 >= self.max_exp() {
            lemma_pow2_strictly_increases(0, self.exp_size as nat);
            self.lemma_decode_encode(0, false, self.max_exp(), 0);
            if self.sign_bit {
                self.lemma_encode_decode(self.infinity_bits());
                self.lemma_with_sign_parts(self.infinity_bits(), false);
            }
            assert(self.category(y) == FpCategory::Infinite);
        }
        assert(e2 < self.max_exp());
        assert(r2 < pow2(p));
        let (ee, mm) = if r2 < pow2(fr) { (0nat, r2) } else { (e2 as nat, (r2 - pow2(fr)) as nat) };
        let z = self.encode(0, false, ee, mm);
        self.lemma_decode_encode(0, false, ee, mm);
        assert(y == self.with_sign_bits(z, false));
        if self.sign_bit {
            self.lemma_with_sign_parts(z, false);
        }
        if r == 0 {
            // rounding to zero gives the zero pattern
            assert(r2 == 0);
        }
        if r2 < pow2(fr) && e > 1 {
            // without clamping the significand keeps all its digits
            assert(k == bitlen(m) - p);
            if k > 0 {
                let kk = k as nat;
                lemma_pow2_adds(fr, kk);
                assert(bitlen(m) - 1 == fr + kk);
                assert(pow2(fr) * pow2(kk) <= m);
                lemma_pow2_pos(kk);
                lemma_div_is_ordered((pow2(fr) * pow2(kk)) as int, m as int, pow2(kk) as int);
                lemma_div_by_multiple(pow2(fr) as int, pow2(kk) as int);
                assert(m / pow2(kk) >= pow2(fr));
                assert(r >= m / pow2(kk));
            } else {
                let n = (-k) as nat;
                lemma_pow2_adds((bitlen(m) - 1) as nat, n);
                assert(bitlen(m) - 1 + n == fr);
                lemma_mul_inequality(pow2((bitlen(m) - 1) as nat) as int, m as int, pow2(n) as int);
                assert(r >= pow2(fr));
            }
            assert(false);
        }
        assert(self.exp_of(y) == ee && self.mant_of(y) == mm && !self.sign_of(y));
        assert(self.t_of(y) == e2 - self.bias() - self.frac_size);
        assert(self.sig_of(y) == r2);
        assert(t + k == e - self.bias() - self.frac_size);
        if r2 < pow2(fr) {
            assert(e == 1 && e2 == e);
        }
        if r == pow2(p) {
            lemma_pow2_unfold(p);
            assert(pow2(1) == 2);
            assert(self.t_of(y) - (t + k) == 1);
            assert(r2 * 2 == r);
            assert(self.sig_of(y) * pow2((self.t_of(y) - (t + k)) as nat) == r);
        } else {
            assert(pow2(0) == 1);
            assert(self.t_of(y) - (t + k) == 0);
            assert(self.sig_of(y) * pow2((self.t_of(y) - (t + k)) as nat) == r);
        }
    }
}

impl Format {
    /// Rounding a positive `m * 2^t` gives a finite number no farther from it than any other
    /// finite number of the layout, unless it overflows.
    proof fn lemma_pack_nearest_pos(self, m: nat, t: int, z: nat)
        requires
            self.wf(),
            self.implicit(),
            m > 0,
            self.category(self.pack(false, m, t)) != FpCategory::Infinite,
            self.is_finite_bits(z),
        ensures
            ({
                let b = if t < self.t_min() { t } else { self.t_min() };
                let x = (m * pow2((t - b) as nat)) as int;
                dist(x, self.value_at(self.pack(false, m, t), b)) <= dist(x, self.value_at(z, b))
            }),
    {
        self.lemma_wf();
        let y = self.pack(false, m, t);
        let b = if t < self.t_min() { t } else { self.t_min() };
        let x = (m * pow2((t - b) as nat)) as int;
        let k = self.shift_of(m, t);
        let u = t + k;
        let r = round_shift(m, k);
        let fr = self.frac_size as nat;
        self.lemma_pack_ulp(m, t);
        assert(u >= self.t_min());
        lemma_scale_split(self.sig_of(y), self.t_of(y), u, b);
        assert(self.value_at(y, b) == r * pow2((u - b) as nat));
        if k <= 0 {
            lemma_scale_split(m, t, u, b);
            lemma_mul_is_associative(m as int, pow2((-k) as nat) as int, pow2((u - b) as nat) as int);
            lemma_pow2_adds((-k) as nat, (u - b) as nat);
            assert(self.value_at(y, b) == x);
        } else {
            let kk = k as nat;
            let c = (t - b) as nat;
            lemma_scale_split(r, u, t, b);
            assert(self.value_at(y, b) == (r * pow2(kk)) * pow2(c));
            self.lemma_sig_bound(z);
            if self.sign_of(z) {
                lemma_round_shift_nearest(m, kk, 0);
                lemma_nearer_scale(m, r * pow2(kk), 0, c);
                assert(dist(x, self.value_at(y, b)) <= dist(x, self.value_at(z, b)));
            } else if self.t_of(z) >= u {
                let q = self.sig_of(z) * pow2((self.t_of(z) - u) as nat);
                lemma_scale_split(self.sig_of(z), self.t_of(z), u, b);
                lemma_scale_split(q, u, t, b);
                lemma_round_shift_nearest(m, kk, q);
                lemma_nearer_scale(m, r * pow2(kk), q * pow2(kk), c);
                assert(dist(x, self.value_at(y, b)) <= dist(x, self.value_at(z, b)));
            } else {
                // `z` lies below the binade of `m * 2^t`
                let p = self.prec();
                assert(self.exp_at(m, t) > self.emin());
                assert(k == bitlen(m) - p);
                lemma_bitlen(m);
                let g = pow2(fr) * pow2(kk);
                lemma_pow2_adds(fr, kk);
                assert(g <= m);
                lemma_round_shift_nearest(m, kk, pow2(fr));
                lemma_nearer_scale(m, r * pow2(kk), g, c);
                lemma_mul_inequality(g as int, m as int, pow2(c) as int);
                let tz = (self.t_of(z) - b) as nat;
                lemma_pow2_pos(tz);
                lemma_mul_strict_inequality(self.sig_of(z) as int, pow2(p) as int, pow2(tz) as int);
                lemma_pow2_adds(p, tz);
                lemma_pow2_adds(fr + kk, c);
                lemma_pow2_mono(p + tz, fr + kk + c);
                assert(self.value_at(z, b) < g * pow2(c));
                assert(dist(x, self.value_at(y, b)) <= dist(x, self.value_at(z, b)));
            }
        }
    }
}

impl Format {
    /// The base pattern that `finish` gives its sign to.
    pub open spec fn finish_abs(self, r: nat, e: int) -> nat {
        let p = self.prec();
        let r2 = if r == pow2(p) { pow2((p - 1) as nat) } else { r };
        let e2 = if r == pow2(p) { e + 1 } else { e };
        if e2 >= self.max_exp() {
            self.infinity_bits()
        } else if self.implicit() && r2 < pow2(self.frac_size as nat) {
            self.encode(0, false, 0, r2)
        } else if self.implicit() {
            self.encode(0, false, e2 as nat, (r2 - pow2(self.frac_size as nat)) as nat)
        } else {
            self.encode(0, false, e2 as nat, r2)
        }
    }

    /// Rounding to nearest: when `pack(s, m, t)` is finite, no finite number of the layout lies
    /// nearer to `(-1)^s * m * 2^t` than it. Values are compared in units of `2^b`, where `b` is
    /// at most `t` and at most the exponent of the last digit of every finite number.
    pub proof fn lemma_pack_nearest(self, s: bool, m: nat, t: int, z: nat)
        requires
            self.wf(),
            self.implicit(),
            self.is_finite_bits(self.pack(s, m, t)),
            self.is_finite_bits(z),
        ensures
            ({
                let b = if t < self.t_min() { t } else { self.t_min() };
                let v = (m * pow2((t - b) as nat)) as int;
                let x = if s { -v } else { v };
                dist(x, self.value_at(self.pack(s, m, t), b)) <= dist(x, self.value_at(z, b))
            }),
    {
        self.lemma_wf();
        let b = if t < self.t_min() { t } else { self.t_min() };
        let v = (m * pow2((t - b) as nat)) as int;
        let y = self.pack(s, m, t);
        if m == 0 {
            lemma_pow2_pos(self.top());
            lemma_pow2_pos(self.exp_pos());
            lemma_pow2_pos(self.exp_size as nat);
            lemma_div_of0(pow2(self.top()) as int);
            lemma_div_of0(pow2(self.exp_pos()) as int);
            lemma_small_mod(0, pow2(self.exp_size as nat));
            lemma_small_mod(0, pow2(self.exp_pos()));
            assert(self.exp_of(0) == 0 && self.mant_of(0) == 0 && self.hi_of(0) == 0);
            if self.sign_bit {
                self.lemma_with_sign_parts(0, s);
            }
            assert(self.sig_of(y) == 0);
            assert(self.value_at(y, b) == 0);
        } else {
            let w = self.finish_abs(round_shift(m, self.shift_of(m, t)), self.exp_at(m, t));
            assert(y == self.with_sign_bits(w, s));
            assert(self.pack(false, m, t) == self.with_sign_bits(w, false));
            if !s {
                self.lemma_pack_nearest_pos(m, t, z);
            } else if self.sign_bit {
                let y0 = self.pack(false, m, t);
                self.lemma_with_sign_parts(w, true);
                self.lemma_with_sign_parts(w, false);
                let z2 = self.with_sign_bits(z, !self.sign_of(z));
                self.lemma_with_sign_parts(z, !self.sign_of(z));
                self.lemma_pack_nearest_pos(m, t, z2);
                assert(self.value_at(y, b) == -self.value_at(y0, b));
                assert(self.value_at(z2, b) == -self.value_at(z, b));
            } else {
                // without a sign bit only a zero keeps a negative sign
                lemma_pow2_pos(self.exp_size as nat);
                lemma_pow2_strictly_increases(0, self.exp_pos());
                self.lemma_decode_encode(0, false, self.max_exp(), self.max_mant());
                assert(self.category(self.qnan_bits()) == FpCategory::Nan);
                assert(self.category(w) == FpCategory::Zero);
                assert(y == w);
                assert(self.sig_of(y) == 0);
                assert(self.value_at(y, b) == 0);
                assert(!self.sign_of(z));
            }
        }
    }
}

} // verus!
