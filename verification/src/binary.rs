//! Rounding exact binary values into a layout with exponent base 2.
use vstd::prelude::*;
use vstd::arithmetic::power2::*;
use vstd::arithmetic::div_mod::*;
use vstd::arithmetic::mul::*;
use crate::arith::{pow2_u128, lemma_pow2_mono, lemma_split, lemma_div_mod_unique};
use crate::format::{Format, FpCategory};
use crate::repr::lemma_pow2_widths;

verus! {

/// Number of binary digits of `m`.
pub open spec fn bitlen(m: nat) -> nat
    decreases m,
{
    if m == 0 { 0 } else { 1 + bitlen(m / 2) }
}

pub proof fn lemma_bitlen(m: nat)
    ensures
        m < pow2(bitlen(m)),
        m > 0 ==> pow2((bitlen(m) - 1) as nat) <= m,
        m > 0 ==> bitlen(m) >= 1,
    decreases m,
{
    lemma2_to64();
    if m > 0 {
        lemma_bitlen(m / 2);
        lemma_pow2_unfold(bitlen(m));
        if m / 2 > 0 {
            lemma_pow2_unfold((bitlen(m) - 1) as nat);
        }
    }
}

/// `m < 2^k` exactly when `bitlen(m) <= k`.
pub proof fn lemma_bitlen_bound(m: nat, k: nat)
    ensures
        m < pow2(k) <==> bitlen(m) <= k,
{
    lemma_bitlen(m);
    if bitlen(m) <= k {
        lemma_pow2_mono(bitlen(m), k);
    } else {
        lemma_pow2_mono(k, (bitlen(m) - 1) as nat);
    }
}

/// `m / 2^k` rounded to the nearest integer, ties to even; `m * 2^(-k)` for `k <= 0`.
pub open spec fn round_shift(m: nat, k: int) -> nat {
    if k <= 0 {
        m * pow2((-k) as nat)
    } else {
        let q = m / pow2(k as nat);
        let r = m % pow2(k as nat);
        let h = pow2((k - 1) as nat);
        if r > h || (r == h && q % 2 == 1) { q + 1 } else { q }
    }
}

pub fn bitlen_exec(m: u128) -> (r: u32)
    ensures
        r == bitlen(m as nat),
        r <= 128,
{
    let mut n: u32 = 0;
    let mut x = m;
    proof {
        lemma_bitlen(m as nat);
        lemma_pow2_widths();
        lemma_bitlen_bound(m as nat, 128);
    }
    while x > 0
        invariant
            n + bitlen(x as nat) == bitlen(m as nat),
            bitlen(m as nat) <= 128,
        decreases x,
    {
        x = x / 2;
        n = n + 1;
    }
    n
}

/// `round_shift(m, k)` for `m < 2^126`, when the result fits.
pub fn round_shift_exec(m: u128, k: i128) -> (r: u128)
    requires
        m < pow2(126),
        k <= 0 ==> bitlen(m as nat) - k <= 127,
    ensures
        r == round_shift(m as nat, k as int),
        r < pow2(127),
{
    proof {
        lemma_pow2_widths();
        lemma_bitlen(m as nat);
        lemma_pow2_strictly_increases(126, 127);
    }
    if k <= 0 {
        let sh = (-k) as usize;
        proof {
            lemma_bitlen_bound(m as nat, (127 - sh) as nat);
            lemma_pow2_pos(sh as nat);
            lemma_pow2_adds((127 - sh) as nat, sh as nat);
            lemma_mul_inequality(m as int, (pow2((127 - sh) as nat) - 1) as int, pow2(sh as nat) as int);
            lemma_mul_is_distributive_sub_other_way(pow2(sh as nat) as int, pow2((127 - sh) as nat) as int, 1);
            assert((127 - sh) as nat + sh as nat == 127);
            assert(m * pow2(sh as nat) < pow2(127));
            lemma_pow2_strictly_increases(127, 128);
            assert(m * pow2(sh as nat) < 0x1_0000_0000_0000_0000_0000_0000_0000_0000);
        }
        return m * pow2_u128(sh);
    }
    if k > 127 {
        proof {
            lemma_pow2_pos(k as nat);
            lemma_pow2_strictly_increases(126, k as nat);
            lemma_pow2_strictly_increases(126, (k - 1) as nat);
            lemma_basic_div(m as int, pow2(k as nat) as int);
            lemma_small_mod(m as nat, pow2(k as nat));
        }
        return 0;
    }
    proof {
        lemma_pow2_pos(k as nat);
        lemma_pow2_pos((k - 1) as nat);
        lemma2_to64();
        lemma_pow2_mono(1, k as nat);
        lemma_div_is_ordered_by_denominator(m as int, 2, pow2(k as nat) as int);
    }
    let p = pow2_u128(k as usize);
    let h = pow2_u128((k - 1) as usize);
    let q = m / p;
    let r = m % p;
    if r > h || (r == h && q % 2 == 1) {
        q + 1
    } else {
        q
    }
}

/// Rounding `m` at `k` bits gives at most `2^p` when `m` has at most `p + k` bits.
pub proof fn lemma_round_shift_bound(m: nat, k: int, p: nat)
    requires
        bitlen(m) <= p + k,
    ensures
        round_shift(m, k) <= pow2(p),
{
    if k <= 0 {
        let n = (-k) as nat;
        lemma_bitlen_bound(m, (p + k) as nat);
        lemma_pow2_adds((p + k) as nat, n);
        lemma_mul_inequality(m as int, (pow2((p + k) as nat) - 1) as int, pow2(n) as int);
        lemma_mul_is_distributive_sub_other_way(pow2(n) as int, pow2((p + k) as nat) as int, 1);
        lemma_pow2_pos(n);
    } else {
        let d = pow2(k as nat);
        lemma_bitlen_bound(m, (p + k) as nat);
        lemma_pow2_adds(p, k as nat);
        lemma_pow2_pos(k as nat);
        lemma_split(m, d);
        if m / d >= pow2(p) {
            lemma_mul_inequality(pow2(p) as int, (m / d) as int, d as int);
            lemma_mul_is_commutative(pow2(p) as int, d as int);
        }
    }
}

impl Format {
    /// Significant bits of a normal number (including an implicit integer bit).
    pub open spec fn prec(self) -> nat {
        self.mant_digits() + if self.implicit() { 1nat } else { 0nat }
    }

    /// Smallest exponent field of the normal range.
    pub open spec fn emin(self) -> int {
        if self.implicit() { 1 } else { 0 }
    }

    /// Layouts on which the binary arithmetic is defined: base 2, at most 64 exponent bits
    /// and at most 120 significant bits.
    pub open spec fn binary(self) -> bool {
        &&& self.wf()
        &&& self.exp_base == 2
        &&& self.exp_size <= 64
        &&& self.prec() <= 120
    }

    /// The significand of a finite number: the mantissa bits with the implicit integer bit
    /// added for normal numbers.
    pub open spec fn sig_of(self, x: nat) -> nat {
        if self.implicit() && self.exp_of(x) != 0 {
            self.mant_of(x) + pow2(self.frac_size as nat)
        } else {
            self.mant_of(x)
        }
    }

    /// The binary exponent of the last significand bit of a finite number: its value is
    /// `sig * 2^t`.
    pub open spec fn t_of(self, x: nat) -> int {
        (if self.implicit() && self.exp_of(x) == 0 { 1 } else { self.exp_of(x) as int })
            - self.bias() - self.frac_size
    }

    /// The biased exponent that the leading digit of `m * 2^t` has when the significand is
    /// given `prec` digits.
    pub open spec fn lead_exp(self, m: nat, t: int) -> int {
        t + (bitlen(m) - self.prec()) + self.bias() + self.frac_size
    }

    /// The exponent field of the rounded result before a carry: no smaller than `emin`.
    pub open spec fn exp_at(self, m: nat, t: int) -> int {
        if self.lead_exp(m, t) < self.emin() { self.emin() } else { self.lead_exp(m, t) }
    }

    /// How many low digits of `m` rounding drops.
    pub open spec fn shift_of(self, m: nat, t: int) -> int {
        (bitlen(m) - self.prec()) + (self.exp_at(m, t) - self.lead_exp(m, t))
    }

    /// The bits of a rounded significand `r <= 2^prec` with exponent field `e` and sign `s`.
    pub open spec fn finish(self, s: bool, r: nat, e: int) -> nat {
        let p = self.prec();
        let r2 = if r == pow2(p) { pow2((p - 1) as nat) } else { r };
        let e2 = if r == pow2(p) { e + 1 } else { e };
        if e2 >= self.max_exp() {
            self.with_sign_bits(self.infinity_bits(), s)
        } else if self.implicit() && r2 < pow2(self.frac_size as nat) {
            self.with_sign_bits(self.encode(0, false, 0, r2), s)
        } else if self.implicit() {
            self.with_sign_bits(self.encode(0, false, e2 as nat, (r2 - pow2(self.frac_size as nat)) as nat), s)
        } else {
            self.with_sign_bits(self.encode(0, false, e2 as nat, r2), s)
        }
    }

    /// The bits of the value `(-1)^s * m * 2^t`, rounded to nearest (ties to even) to the
    /// precision of the layout; too small values become subnormal or zero, too large ones
    /// infinite.
    pub open spec fn pack(self, s: bool, m: nat, t: int) -> nat {
        if m == 0 {
            self.with_sign_bits(0, s)
        } else {
            self.finish(s, round_shift(m, self.shift_of(m, t)), self.exp_at(m, t))
        }
    }
}

impl Format {
    /// The significand of a finite number.
    pub fn sig_exec(&self, x: u128) -> (r: u128)
        requires
            self.binary(),
        ensures
            r == self.sig_of(x as nat),
            r < pow2(self.prec()),
    {
        proof {
            self.lemma_wf();
            lemma_pow2_strictly_increases(self.frac_size as nat, 128);
            lemma_pow2_unfold((self.frac_size + 1) as nat);
        }
        let m = self.mant_bits_raw(x);
        if self.int_size == 0 && self.exp_bits(x) != 0 {
            proof {
                lemma_pow2_mono((self.frac_size + 1) as nat, 127);
                lemma_pow2_strictly_increases(127, 128);
                lemma_pow2_widths();
            }
            m + pow2_u128(self.frac_size)
        } else {
            m
        }
    }

    /// The exponent of the last significand digit of a finite number.
    pub fn t_exec(&self, x: u128) -> (r: i128)
        requires
            self.binary(),
        ensures
            r == self.t_of(x as nat),
            -0x1_0000_0000_0000_0000_0000 <= r <= 0x1_0000_0000_0000_0000_0000,
    {
        proof {
            self.lemma_wf();
            lemma_pow2_mono(self.exp_size as nat, 64);
            lemma2_to64();
        }
        let e = self.exp_bits(x);
        let e1: i128 = if self.int_size == 0 && e == 0 { 1 } else { e as i128 };
        e1 - self.bias_exec() as i128 - self.frac_size as i128
    }
}

impl Format {
    pub fn prec_exec(&self) -> (r: u32)
        requires
            self.binary(),
        ensures
            r == self.prec(),
            r <= 120,
    {
        let extra: usize = if self.int_size == 0 { 1 } else { 0 };
        (self.int_size + self.frac_size + extra) as u32
    }

    /// The bits of `(-1)^s * m * 2^t` rounded to this layout.
    pub fn pack_exec(&self, s: bool, m: u128, t: i128) -> (r: u128)
        requires
            self.binary(),
            m < pow2(126),
            -0x1_0000_0000_0000_0000_0000_0000 <= t <= 0x1_0000_0000_0000_0000_0000_0000,
        ensures
            r == self.pack(s, m as nat, t as int),
            r < self.limit(),
    {
        proof {
            self.lemma_wf();
            lemma_pow2_widths();
            lemma_pow2_pos(self.limit());
            lemma_pow2_mono(self.exp_size as nat, 64);
            lemma2_to64();
        }
        if m == 0 {
            proof {
                lemma_pow2_pos(self.u_bits as nat);
            }
            return self.with_sign(0, s);
        }
        let p = self.prec_exec();
        let bl = bitlen_exec(m);
        let k0: i128 = bl as i128 - p as i128;
        let bias: i128 = self.bias_exec() as i128;
        let frac: i128 = self.frac_size as i128;
        let e0: i128 = t + k0 + bias + frac;
        let emin: i128 = if self.int_size == 0 { 1 } else { 0 };
        let k: i128 = if e0 < emin { k0 + (emin - e0) } else { k0 };
        let e: i128 = if e0 < emin { emin } else { e0 };
        proof {
            lemma_bitlen(m as nat);
            lemma_round_shift_bound(m as nat, k as int, p as nat);
        }
        let r = round_shift_exec(m, k);
        let pp = pow2_u128(p as usize);
        let r2: u128 = if r == pp { pow2_u128((p - 1) as usize) } else { r };
        let e2: i128 = if r == pp { e + 1 } else { e };
        proof {
            lemma_pow2_unfold(p as nat);
            lemma_pow2_pos((p - 1) as nat);
            assert(r2 < pow2(p as nat));
        }
        let maxe: i128 = self.max_exp_exec() as i128;
        if e2 >= maxe {
            return self.with_sign(self.infinity_exec(), s);
        }
        proof {
            lemma_pow2_strictly_increases(self.frac_size as nat, 128);
            assert(e2 < pow2(self.exp_size as nat));
        }
        let fr = pow2_u128(self.frac_size);
        let x = if self.int_size == 0 && r2 < fr {
            self.encode_exec(false, 0, r2)
        } else if self.int_size == 0 {
            proof {
                lemma_pow2_unfold((self.frac_size + 1) as nat);
            }
            self.encode_exec(false, e2 as u128, r2 - fr)
        } else {
            self.encode_exec(false, e2 as u128, r2)
        };
        self.with_sign(x, s)
    }
}

} // verus!
