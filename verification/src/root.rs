//! The square root of a positive finite number is finite and carries no sign.
use vstd::prelude::*;
use vstd::arithmetic::power2::*;
use vstd::arithmetic::div_mod::*;
use vstd::arithmetic::mul::*;
use crate::binary::round_shift;
use crate::format::{Format, FpCategory};

verus! {

impl Format {
    /// A pattern given a sign has that sign where the layout has a sign bit.
    pub proof fn lemma_with_sign_sign(self, w: nat, s: bool)
        requires
            self.wf(),
        ensures
            self.sign_of(self.with_sign_bits(w, s)) == (s && self.sign_bit),
    {
        if self.sign_bit {
            self.lemma_with_sign_parts(w, s);
        }
    }

    /// Rounding gives the sign it is asked for, where there is a sign bit.
    pub proof fn lemma_pack_sign(self, s: bool, m: nat, t: int)
        requires
            self.wf(),
        ensures
            self.sign_of(self.pack(s, m, t)) == (s && self.sign_bit),
    {
        if m == 0 {
            self.lemma_with_sign_sign(0, s);
        } else {
            let w = self.finish_abs(round_shift(m, self.shift_of(m, t)), self.exp_at(m, t));
            assert(self.pack(s, m, t) == self.with_sign_bits(w, s));
            self.lemma_with_sign_sign(w, s);
        }
    }

    /// The quiet NaN has no sign.
    pub proof fn lemma_qnan_sign(self)
        requires
            self.wf(),
        ensures
            !self.sign_of(self.qnan_bits()),
    {
        self.lemma_wf();
        lemma_pow2_pos(self.exp_size as nat);
        lemma_pow2_pos(self.exp_pos());
        self.lemma_decode_encode(0, false, self.max_exp(), self.max_mant());
    }

    /// A product carries the sign that the operands' signs give.
    pub proof fn lemma_mul_sign(self, x: nat, y: nat)
        requires
            self.wf(),
        ensures
            self.sign_of(self.mul_bits(x, y)) == ((self.sign_of(x) != self.sign_of(y)) && self.sign_bit),
    {
        let s = self.sign_of(x) != self.sign_of(y);
        self.lemma_with_sign_sign(self.add_nan_bits(x, y), s);
        self.lemma_with_sign_sign(self.qnan_bits(), s);
        self.lemma_with_sign_sign(0, s);
        self.lemma_with_sign_sign(self.infinity_bits(), s);
        self.lemma_with_sign_sign(x, s);
        self.lemma_with_sign_sign(y, s);
        self.lemma_pack_sign(s, self.sig_of(x) * self.sig_of(y), self.t_of(x) + self.t_of(y));
    }

    /// A quotient carries the sign that the operands' signs give.
    pub proof fn lemma_div_sign(self, x: nat, y: nat)
        requires
            self.wf(),
        ensures
            self.sign_of(self.div_bits(x, y)) == ((self.sign_of(x) != self.sign_of(y)) && self.sign_bit),
    {
        let s = self.sign_of(x) != self.sign_of(y);
        self.lemma_with_sign_sign(self.add_nan_bits(x, y), s);
        self.lemma_with_sign_sign(self.qnan_bits(), s);
        self.lemma_with_sign_sign(0, s);
        self.lemma_with_sign_sign(self.infinity_bits(), s);
        self.lemma_with_sign_sign(x, s);
        self.lemma_with_sign_sign(self.recip_bits(y), s);
        self.lemma_with_sign_sign(self.one_bits(), s);
        let n = self.prec() + 3 + crate::binary::bitlen(self.sig_of(y));
        self.lemma_pack_sign(
            s,
            crate::quotient::jam_div(self.sig_of(x), self.sig_of(y), n),
            self.t_of(x) - self.t_of(y) - n - 1,
        );
    }

    /// The sum of two numbers without a sign has no sign.
    pub proof fn lemma_add_unsigned(self, x: nat, y: nat)
        requires
            self.wf(),
            !self.sign_of(x),
            !self.sign_of(y),
        ensures
            !self.sign_of(self.add_signed_bits(x, y, false)),
    {
        self.lemma_qnan_sign();
        let tm = if self.t_of(x) <= self.t_of(y) { self.t_of(x) } else { self.t_of(y) };
        let a = self.sig_of(x) * pow2((self.t_of(x) - tm) as nat);
        let b = self.sig_of(y) * pow2((self.t_of(y) - tm) as nat);
        self.lemma_pack_sign(false, a + b, tm);
        if self.category(x) == FpCategory::Nan || self.category(y) == FpCategory::Nan {
            assert(self.add_nan_bits(x, y) == x || self.add_nan_bits(x, y) == y);
        }
    }
}

impl Format {
    /// Newton steps from a finite number without a sign stay finite and without a sign.
    pub proof fn lemma_newton_unsigned(self, x: nat, y: nat, n: nat)
        requires
            self.wf(),
            !self.sign_of(x),
            !self.sign_of(y),
            self.is_finite_bits(y),
        ensures
            self.is_finite_bits(self.newton_sqrt(x, y, n)),
            !self.sign_of(self.newton_sqrt(x, y, n)),
        decreases n,
    {
        if n > 0 {
            let d = self.div_bits(x, y);
            let sum = self.add_signed_bits(y, d, false);
            self.lemma_div_sign(x, y);
            self.lemma_add_unsigned(y, d);
            self.lemma_pack_sign(false, 1, -1);
            self.lemma_mul_sign(self.half_bits(), sum);
            let y2 = self.mul_bits(self.half_bits(), sum);
            if self.is_finite_bits(y2) {
                self.lemma_newton_unsigned(x, y2, (n - 1) as nat);
            }
        }
    }

    /// The first guess for a positive finite number of an implicit layout is finite, without
    /// a sign and without bits above the layout.
    pub proof fn lemma_sqrt_guess(self, x: nat)
        requires
            self.wf(),
            self.implicit(),
            self.frac_size >= 1,
            self.hi_of(x) == 0,
            !self.sign_of(x),
            self.is_finite_bits(x),
        ensures
            self.is_finite_bits(self.sqrt_guess_bits(x)),
            !self.sign_of(self.sqrt_guess_bits(x)),
    {
        self.lemma_wf();
        self.lemma_encode_decode(x);
        let fr = self.frac_size as nat;
        let h = pow2((fr - 1) as nat);
        let p = pow2(fr);
        lemma_pow2_unfold(fr);
        lemma_pow2_pos(fr);
        let e = self.exp_of(x);
        let m = self.mant_of(x);
        assert(self.exp_pos() == fr);
        assert(x == e * p + m) by {
            if self.sign_bit {
            }
        }
        assert(m < p) by {
            lemma_mod_bound(x as int, p as int);
        }
        let b = self.bias();
        let k = b + e;
        let ee = k / 2;
        let r = (k % 2) * h + m / 2;
        // x / 2 == e * h + m / 2
        assert(x / 2 == e * h + m / 2) by {
            lemma_mul_is_associative(e as int, h as int, 2);
            lemma_mul_is_commutative(h as int, 2);
            lemma_mul_is_associative(e as int, 2, h as int);
            lemma_hoist_over_denominator(m as int, (e * h) as int, 2);
        }
        assert(k * h == ee * p + (k % 2) * h) by {
            lemma_fundamental_div_mod(k as int, 2);
            lemma_mul_is_distributive_add_other_way(h as int, (2 * ee) as int, (k % 2) as int);
            lemma_mul_is_associative(2, ee as int, h as int);
            lemma_mul_is_commutative(2, (ee * h) as int);
            lemma_mul_is_associative(ee as int, 2, h as int);
        }
        assert((b + 1) * h + x / 2 - h == k * h + m / 2) by {
            lemma_mul_is_distributive_add_other_way(h as int, b as int, 1);
            lemma_mul_is_distributive_add_other_way(h as int, b as int, e as int);
        }
        let g = self.sqrt_guess_bits(x);
        assert(g == ee * p + r);
        assert(r < p) by {
            lemma_div_is_ordered(m as int, (p - 1) as int, 2);
            assert((p - 1) / 2 < h) by {
                lemma_div_multiples_vanish_fancy(h as int - 1, 1, 2);
            }
        }
        assert(e < self.max_exp());
        assert(ee < self.max_exp()) by {
            lemma_pow2_pos(self.exp_size as nat);
            lemma_fundamental_div_mod(self.max_exp() as int, 2);
        }
        lemma_pow2_strictly_increases(0, fr);
        self.lemma_decode_encode(0, false, ee, r);
        assert(g == self.encode(0, false, ee, r)) by {
            lemma_mul_basics(pow2(self.top()) as int);
        }
    }
}

impl Format {
    /// With an implicit integer bit, the square root of a finite number without a sign is
    /// finite and has no sign (zero gives positive zero).
    pub proof fn lemma_sqrt_finite(self, x: nat)
        requires
            self.wf(),
            self.implicit(),
            self.frac_size >= 1,
            self.hi_of(x) == 0,
            !self.sign_of(x),
            self.is_finite_bits(x),
        ensures
            self.is_finite_bits(self.sqrt_bits(x)),
            !self.sign_of(self.sqrt_bits(x)),
    {
        if self.category(x) == FpCategory::Zero {
            self.lemma_with_sign_sign(x, false);
            if self.sign_bit {
                self.lemma_with_sign_parts(x, false);
            }
        } else {
            self.lemma_sqrt_guess(x);
            assert(self.sqrt_start_bits(x) == self.sqrt_guess_bits(x));
            self.lemma_newton_unsigned(x, self.sqrt_guess_bits(x), 4);
        }
    }
}

} // verus!
