//! Rounding to integers.
use vstd::prelude::*;
use vstd::arithmetic::power2::*;
use vstd::arithmetic::div_mod::*;
use vstd::arithmetic::mul::*;
use crate::arith::{pow2_u128, lemma_split, lemma_div_mod_unique, lemma_pow2_mono};
use crate::format::{Format, FpCategory};
use crate::repr::lemma_pow2_widths;

verus! {

/// How a number is rounded to an integer.
#[derive(Clone, Copy, PartialEq, Eq, Structural)]
pub enum IntRounding {
    /// Towards zero.
    Trunc,
    /// Towards negative infinity.
    Floor,
    /// Towards positive infinity.
    Ceil,
    /// To nearest, halfway cases away from zero.
    HalfAway,
    /// To nearest, halfway cases to the even integer.
    HalfEven,
}

impl Format {
    /// The fraction part of the magnitude of a finite number as `num / den`.
    pub open spec fn frac_num(self, x: nat) -> nat {
        if self.t_of(x) >= 0 { 0 } else { self.sig_of(x) % pow2((-self.t_of(x)) as nat) }
    }

    pub open spec fn frac_den(self, x: nat) -> nat {
        if self.t_of(x) >= 0 { 1 } else { pow2((-self.t_of(x)) as nat) }
    }

    /// Whether rounding the magnitude of `x` in mode `mode` goes up from the cut magnitude.
    pub open spec fn rounds_up(self, x: nat, mode: IntRounding) -> bool {
        let s = self.sign_of(x);
        let num = self.frac_num(x);
        let den = self.frac_den(x);
        match mode {
            IntRounding::Trunc => false,
            IntRounding::Floor => s && num > 0,
            IntRounding::Ceil => !s && num > 0,
            IntRounding::HalfAway => 2 * num >= den && num > 0,
            IntRounding::HalfEven => 2 * num > den || (2 * num == den && self.trunc_mag(x) % 2 == 1),
        }
    }

    /// `x` rounded to an integer: NaN and infinities stay, finite numbers give the integer
    /// with the sign of `x`.
    pub open spec fn round_int_bits(self, x: nat, mode: IntRounding) -> nat {
        if !self.is_finite_bits(x) {
            x
        } else {
            self.pack(
                self.sign_of(x),
                self.trunc_mag(x) + if self.rounds_up(x, mode) { 1nat } else { 0nat },
                0,
            )
        }
    }

    pub fn round_int_exec(&self, x: u128, mode: IntRounding) -> (r: u128)
        requires
            self.binary(),
            x < self.limit(),
        ensures
            r == self.round_int_bits(x as nat, mode),
            r < self.limit(),
    {
        let c = self.classify(x);
        if c == FpCategory::Nan || c == FpCategory::Infinite {
            return x;
        }
        proof {
            lemma_pow2_widths();
            lemma_pow2_mono(self.prec(), 120);
            lemma_pow2_strictly_increases(120, 126);
        }
        let s = self.is_sign_negative(x);
        let m = self.sig_exec(x);
        let t = self.t_exec(x);
        if t >= 0 {
            proof {
                self.lemma_pack_scale(s, m as nat, t as int, t as nat);
                assert(self.frac_num(x as nat) == 0);
                assert(self.rounds_up(x as nat, mode) == false);
            }
            return self.pack_exec(s, m, t);
        }
        let (q, num, den_half, odd) = if t <= -121 {
            proof {
                let nn = (-t) as nat;
                lemma_pow2_mono(121, nn);
                lemma_pow2_strictly_increases(120, 121);
                lemma_basic_div(m as int, pow2(nn) as int);
                lemma_small_mod(m as nat, pow2(nn));
                lemma_pow2_unfold(nn);
            }
            (0u128, m, false, false)
        } else {
            let nt = (-t) as usize;
            let p = pow2_u128(nt);
            let h = pow2_u128(nt - 1);
            proof {
                lemma_pow2_pos(nt as nat);
                lemma_pow2_unfold(nt as nat);
                lemma_split(m as nat, p as nat);
            }
            let q = m / p;
            let num = m % p;
            (q, num, num == h, q % 2 == 1)
        };
        proof {
            let nn = (-t) as nat;
            lemma_pow2_unfold(nn);
            lemma_pow2_pos(nn);
            if t <= -121 {
                lemma_pow2_mono(121, nn);
                lemma_pow2_unfold(121);
            }
            assert(q == self.trunc_mag(x as nat));
            assert(num == self.frac_num(x as nat));
            assert(q <= m);
            lemma_pow2_strictly_increases(120, 128);
        }
        let up = match mode {
            IntRounding::Trunc => false,
            IntRounding::Floor => s && num > 0,
            IntRounding::Ceil => !s && num > 0,
            IntRounding::HalfAway => num > 0 && (den_half || self.frac_above_half(m, t)),
            IntRounding::HalfEven => self.frac_above_half(m, t) || (den_half && odd),
        };
        let n = if up { q + 1 } else { q };
        self.pack_exec(s, n, 0)
    }

    /// Whether the fraction part of `m * 2^t` (with `t < 0`) is above one half.
    fn frac_above_half(&self, m: u128, t: i128) -> (r: bool)
        requires
            m < pow2(120),
            t < 0,
        ensures
            r == (2 * (m as nat % pow2((-t) as nat)) > pow2((-t) as nat)),
    {
        proof {
            lemma_pow2_widths();
            lemma_pow2_pos((-t) as nat);
            lemma_pow2_unfold((-t) as nat);
        }
        if t <= -121 {
            proof {
                let nn = (-t) as nat;
                lemma_pow2_mono(121, nn);
                lemma_pow2_strictly_increases(120, 121);
                lemma_pow2_unfold(121);
                lemma_small_mod(m as nat, pow2(nn));
                lemma_pow2_mono(120, (nn - 1) as nat);
            }
            return false;
        }
        let nt = (-t) as usize;
        proof {
            lemma_pow2_strictly_increases(nt as nat, 128);
            lemma_pow2_pos(nt as nat);
            lemma_mod_bound(m as int, pow2(nt as nat) as int);
        }
        let num = m % pow2_u128(nt);
        num > pow2_u128(nt - 1)
    }
}

impl Format {
    /// The integer that rounding a finite `x` picks, with the sign of `x`.
    pub open spec fn int_choice(self, x: nat, mode: IntRounding) -> int {
        let n = self.trunc_mag(x) + if self.rounds_up(x, mode) { 1int } else { 0int };
        if self.sign_of(x) { -n } else { n }
    }

    /// The significand of a finite `x` with its sign: `x` is `signed_sig / frac_den` when its
    /// last digit lies below the units, else `signed_sig * 2^t`.
    pub open spec fn signed_sig(self, x: nat) -> int {
        if self.sign_of(x) { -(self.sig_of(x) as int) } else { self.sig_of(x) as int }
    }

    /// Rounding to an integer picks the integer that each mode names: with `x = v / d` for the
    /// signed significand `v` and `d = frac_den`, floor gives the largest integer `n` with
    /// `n * d <= v`, ceil the smallest with `v <= n * d`, trunc the floor of the magnitude with
    /// the sign of `x`, and the two nearest modes an `n` with `|2v - 2nd| <= d`, a tie going
    /// away from zero or to the even integer. A number without digits below the units is its
    /// own integer. The result is that integer rounded into the layout.
    pub proof fn lemma_int_choice(self, x: nat, mode: IntRounding)
        requires
            self.wf(),
            self.is_finite_bits(x),
        ensures
            ({
                let v = self.signed_sig(x);
                let d = self.frac_den(x) as int;
                let n = self.int_choice(x, mode);
                &&& self.round_int_bits(x, mode) == self.pack(self.sign_of(x), (if n < 0 { -n } else { n }) as nat, 0)
                &&& self.t_of(x) >= 0 ==> n == v * pow2(self.t_of(x) as nat)
                &&& self.t_of(x) < 0 ==> match mode {
                    IntRounding::Floor => n * d <= v < (n + 1) * d,
                    IntRounding::Ceil => (n - 1) * d < v <= n * d,
                    IntRounding::Trunc => (n == 0 || (n > 0) == !self.sign_of(x)) && 0 <= n * v
                        && (if v >= 0 { n * d <= v < (n + 1) * d } else { (n - 1) * d < v <= n * d }),
                    IntRounding::HalfAway => -d <= 2 * v - 2 * n * d <= d
                        && (2 * v - 2 * n * d == d ==> v < 0) && (2 * v - 2 * n * d == -d ==> v > 0),
                    IntRounding::HalfEven => -d <= 2 * v - 2 * n * d <= d
                        && ((2 * v - 2 * n * d == d || 2 * v - 2 * n * d == -d) ==> n % 2 == 0),
                }
            }),
    {
        let sig = self.sig_of(x);
        let s = self.sign_of(x);
        let t = self.t_of(x);
        if t >= 0 {
            assert(self.frac_num(x) == 0);
            if s {
                lemma_mul_unary_negation(sig as int, pow2(t as nat) as int);
            }
        } else {
            let d = pow2((-t) as nat);
            lemma_pow2_pos((-t) as nat);
            lemma_split(sig, d);
            let q = sig / d;
            let r = sig % d;
            assert(sig == q * d + r);
            assert((q + 1) * d == q * d + d) by {
                lemma_mul_is_distributive_add_other_way(d as int, q as int, 1);
            }
            let n = self.int_choice(x, mode);
            let up = self.rounds_up(x, mode);
            let m = q + if up { 1int } else { 0int };
            assert(self.trunc_mag(x) == q);
            assert(self.frac_num(x) == r);
            let qd = q * d;
            assert(m * d == qd + if up { d as int } else { 0 }) by {
                lemma_mul_is_distributive_add_other_way(d as int, q as int, if up { 1int } else { 0int });
            }
            let nd = n * d;
            if s {
                lemma_mul_unary_negation(m, d as int);
            }
            assert(nd == if s { -(m * d) } else { m * d });
            assert((n + 1) * d == nd + d) by {
                lemma_mul_is_distributive_add_other_way(d as int, n, 1);
            }
            assert((n - 1) * d == nd - d) by {
                lemma_mul_is_distributive_sub_other_way(d as int, n, 1);
            }
            assert(2 * n * d == 2 * nd) by {
                lemma_mul_is_associative(2, n, d as int);
            }
            let v = self.signed_sig(x);
            assert(0 <= n * v) by {
                if s {
                    lemma_mul_unary_negation(m, -(sig as int));
                    lemma_mul_nonnegative(m, sig as int);
                    lemma_mul_unary_negation(m, sig as int);
                } else {
                    lemma_mul_nonnegative(m, sig as int);
                }
            }
            if mode == IntRounding::HalfEven && up && r * 2 == d {
                lemma_mod_adds(q as int, 1, 2);
            }
        }
    }
}

} // verus!
