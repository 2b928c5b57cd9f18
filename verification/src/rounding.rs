//! Facts about rounding: it depends only on the value rounded, and a sticky digit below the
//! rounding position stands in for all the digits it replaces.
use vstd::prelude::*;
use vstd::arithmetic::power2::*;
use vstd::arithmetic::div_mod::*;
use vstd::arithmetic::mul::*;
use crate::arith::{lemma_split, lemma_div_mod_unique, lemma_pow2_mono};
use crate::binary::{bitlen, lemma_bitlen, lemma_bitlen_bound, round_shift};
use crate::format::Format;

verus! {

/// A positive number between `2^(n-1)` and `2^n` has `n` digits.
pub proof fn lemma_bitlen_unique(x: nat, n: nat)
    requires
        n >= 1,
        pow2((n - 1) as nat) <= x < pow2(n),
    ensures
        bitlen(x) == n,
{
    lemma_bitlen_bound(x, n);
    lemma_bitlen_bound(x, (n - 1) as nat);
}

pub proof fn lemma_bitlen_mul_pow2(m: nat, a: nat)
    requires
        m > 0,
    ensures
        bitlen(m * pow2(a)) == bitlen(m) + a,
{
    let b = bitlen(m);
    lemma_bitlen(m);
    lemma_pow2_adds((b - 1) as nat, a);
    lemma_pow2_adds(b, a);
    lemma_pow2_pos(a);
    lemma_mul_inequality(pow2((b - 1) as nat) as int, m as int, pow2(a) as int);
    lemma_mul_strict_inequality(m as int, pow2(b) as int, pow2(a) as int);
    assert((b - 1) as nat + a == (b + a - 1) as nat);
    lemma_bitlen_unique(m * pow2(a), b + a);
}

pub proof fn lemma_bitlen_div_pow2(m: nat, j: nat)
    requires
        bitlen(m) > j,
    ensures
        bitlen(m / pow2(j)) == bitlen(m) - j,
        m / pow2(j) >= 1,
{
    let b = bitlen(m);
    lemma_bitlen(m);
    lemma_pow2_pos(j);
    lemma_pow2_adds((b - 1 - j) as nat, j);
    lemma_pow2_adds((b - j) as nat, j);
    let q = m / pow2(j);
    lemma_split(m, pow2(j));
    if q < pow2((b - 1 - j) as nat) {
        lemma_mul_inequality((q + 1) as int, pow2((b - 1 - j) as nat) as int, pow2(j) as int);
        lemma_mul_is_distributive_add_other_way(pow2(j) as int, q as int, 1);
    }
    if q >= pow2((b - j) as nat) {
        lemma_mul_inequality(pow2((b - j) as nat) as int, q as int, pow2(j) as int);
    }
    lemma_pow2_pos((b - 1 - j) as nat);
    lemma_bitlen_unique(q, (b - j) as nat);
}

pub proof fn lemma_bitlen_double(q: nat, st: nat)
    requires
        q >= 1,
        st < 2,
    ensures
        bitlen(2 * q + st) == bitlen(q) + 1,
{
    lemma_div_mod_unique(q, st, 2);
}

/// Rounding a number scaled by `2^a` at `a` more digits gives the same result.
pub proof fn lemma_round_shift_scale(m: nat, k: int, a: nat)
    ensures
        round_shift(m * pow2(a), k + a) == round_shift(m, k),
{
    let ma = m * pow2(a);
    lemma_pow2_pos(a);
    if k + a <= 0 {
        lemma_pow2_adds(a, (-(k + a)) as nat);
        assert(a + (-(k + a)) as nat == (-k) as nat);
        lemma_mul_is_associative(m as int, pow2(a) as int, pow2((-(k + a)) as nat) as int);
    } else if k <= 0 {
        let n = (-k) as nat;
        let ka = (k + a) as nat;
        lemma_pow2_adds(ka, n);
        assert(ka + n == a);
        lemma_pow2_pos(ka);
        assert(ma == (m * pow2(n)) * pow2(ka)) by {
            lemma_mul_is_associative(m as int, pow2(n) as int, pow2(ka) as int);
            lemma_mul_is_commutative(pow2(n) as int, pow2(ka) as int);
        }
        lemma_div_mod_unique(m * pow2(n), 0, pow2(ka));
        lemma_pow2_pos((ka - 1) as nat);
    } else {
        let kk = k as nat;
        let d = pow2(kk);
        let c = pow2(a);
        lemma_pow2_pos(kk);
        lemma_pow2_adds(kk, a);
        lemma_pow2_adds((kk - 1) as nat, a);
        assert((kk - 1) as nat + a == (k + a - 1) as nat);
        lemma_split(m, d);
        let q = m / d;
        let r = m % d;
        assert(ma == q * (d * c) + r * c) by {
            lemma_mul_is_distributive_add_other_way(c as int, (q * d) as int, r as int);
            lemma_mul_is_associative(q as int, d as int, c as int);
        }
        lemma_mul_strict_inequality(r as int, d as int, c as int);
        lemma_div_mod_unique(q, r * c, d * c);
        let h = pow2((kk - 1) as nat);
        assert(r * c > h * c <==> r > h) by {
            if r > h {
                lemma_mul_strict_inequality(h as int, r as int, c as int);
            } else {
                lemma_mul_inequality(r as int, h as int, c as int);
            }
        }
        assert(r * c == h * c <==> r == h) by {
            if r > h {
                lemma_mul_strict_inequality(h as int, r as int, c as int);
            } else if r < h {
                lemma_mul_strict_inequality(r as int, h as int, c as int);
            }
        }
    }
}

impl Format {
    /// Rounding depends only on the value: `m * 2^a` at `2^(t - a)` rounds as `m` at `2^t`.
    pub proof fn lemma_pack_scale(self, s: bool, m: nat, t: int, a: nat)
        ensures
            self.pack(s, m * pow2(a), t - a) == self.pack(s, m, t),
    {
        lemma_pow2_pos(a);
        if m > 0 {
            lemma_mul_strict_inequality(0, m as int, pow2(a) as int);
            lemma_bitlen_mul_pow2(m, a);
            assert(self.lead_exp(m * pow2(a), t - a) == self.lead_exp(m, t));
            assert(self.shift_of(m * pow2(a), t - a) == self.shift_of(m, t) + a);
            lemma_round_shift_scale(m, self.shift_of(m, t), a);
        } else {
            assert(m * pow2(a) == 0);
        }
    }
}

/// `m` cut below bit `j`, with one more digit that tells whether anything was cut.
pub open spec fn jam(m: nat, j: nat) -> nat {
    2 * (m / pow2(j)) + if m % pow2(j) == 0 { 0nat } else { 1nat }
}

/// Rounding at `k > j` digits sees the digits below bit `j` only through the sticky digit.
pub proof fn lemma_round_shift_jam(m: nat, k: int, j: nat)
    requires
        j >= 1,
        k >= j + 1,
    ensures
        round_shift(jam(m, j), k - j + 1) == round_shift(m, k),
{
    let pj = pow2(j);
    let n = (k - j) as nat;
    let pn = pow2(n);
    let hh = pow2((n - 1) as nat);
    lemma_pow2_pos(j);
    lemma_pow2_pos(n);
    lemma_pow2_pos((n - 1) as nat);
    lemma2_to64();
    lemma_split(m, pj);
    let qq = m / pj;
    let b = m % pj;
    let st: nat = if b == 0 { 0 } else { 1 };
    let mj = jam(m, j);
    assert(mj == 2 * qq + st);
    lemma_split(qq, pn);
    let q = qq / pn;
    let aa = qq % pn;
    // m at k digits
    lemma_pow2_adds(n, j);
    assert(n + j == k as nat);
    lemma_div_denominator(m as int, pj as int, pn as int);
    lemma_mul_is_commutative(pj as int, pn as int);
    assert(m / pow2(k as nat) == q);
    assert(m == q * pow2(k as nat) + (aa * pj + b)) by {
        lemma_mul_is_distributive_add_other_way(pj as int, (q * pn) as int, aa as int);
        lemma_mul_is_associative(q as int, pn as int, pj as int);
    }
    assert(aa * pj + b < pow2(k as nat)) by {
        lemma_mul_inequality(aa as int, (pn - 1) as int, pj as int);
        lemma_mul_is_distributive_sub_other_way(pj as int, pn as int, 1);
    }
    lemma_div_mod_unique(q, aa * pj + b, pow2(k as nat));
    // jam at k - j + 1 digits
    lemma_pow2_unfold(n + 1);
    assert((k - j + 1) as nat == n + 1);
    assert(mj == q * pow2(n + 1) + (2 * aa + st)) by {
        lemma_mul_is_associative(q as int, pn as int, 2);
    }
    lemma_div_mod_unique(q, 2 * aa + st, pow2(n + 1));
    // the halfway points
    lemma_pow2_unfold(n);
    assert(n >= 1);
    lemma_pow2_adds((n - 1) as nat, j);
    assert((n - 1) as nat + j == (k - 1) as nat);
    let h = pow2((k - 1) as nat);
    assert(h == hh * pj);
    assert(aa * pj + b > h <==> (aa > hh || (aa == hh && b > 0))) by {
        if aa > hh {
            lemma_mul_inequality((hh + 1) as int, aa as int, pj as int);
            lemma_mul_is_distributive_add_other_way(pj as int, hh as int, 1);
        } else if aa < hh {
            lemma_mul_inequality((aa + 1) as int, hh as int, pj as int);
            lemma_mul_is_distributive_add_other_way(pj as int, aa as int, 1);
        }
    }
    assert(aa * pj + b == h <==> (aa == hh && b == 0)) by {
        if aa > hh {
            lemma_mul_inequality((hh + 1) as int, aa as int, pj as int);
            lemma_mul_is_distributive_add_other_way(pj as int, hh as int, 1);
        } else if aa < hh {
            lemma_mul_inequality((aa + 1) as int, hh as int, pj as int);
            lemma_mul_is_distributive_add_other_way(pj as int, aa as int, 1);
        }
    }
}

impl Format {
    /// Replacing the digits below bit `j` by a sticky digit does not change the rounded result
    /// when rounding drops more than `j` digits.
    pub proof fn lemma_pack_jam(self, s: bool, m: nat, t: int, j: nat)
        requires
            j >= 1,
            bitlen(m) > j,
            self.shift_of(m, t) >= j + 1,
        ensures
            self.pack(s, jam(m, j), t + j - 1) == self.pack(s, m, t),
    {
        lemma_bitlen_div_pow2(m, j);
        let st: nat = if m % pow2(j) == 0 { 0 } else { 1 };
        lemma_bitlen_double(m / pow2(j), st);
        lemma_bitlen(m);
        assert(bitlen(jam(m, j)) == bitlen(m) - j + 1);
        assert(self.lead_exp(jam(m, j), t + j - 1) == self.lead_exp(m, t));
        assert(self.shift_of(jam(m, j), t + j - 1) == self.shift_of(m, t) - j + 1);
        lemma_round_shift_jam(m, self.shift_of(m, t), j);
    }
}

} // verus!
