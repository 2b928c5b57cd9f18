//! Laws that relate the operations.
use vstd::prelude::*;
use vstd::arithmetic::power2::*;
use vstd::arithmetic::mul::*;
use vstd::arithmetic::div_mod::*;
use crate::format::{Format, FpCategory};
use crate::next::{down_loop, up_loop, checked_mul_spec};
use crate::binary::{bitlen, round_shift, lemma_bitlen};
use crate::rounding::lemma_bitlen_unique;
use crate::arith::lemma_pow2_mono;

verus! {

impl Format {
    /// Changing the sign of a pattern keeps its other parts.
    pub proof fn lemma_with_sign_parts(self, x: nat, s: bool)
        requires
            self.wf(),
            self.sign_bit,
        ensures
            self.hi_of(self.with_sign_bits(x, s)) == self.hi_of(x),
            self.sign_of(self.with_sign_bits(x, s)) == s,
            self.exp_of(self.with_sign_bits(x, s)) == self.exp_of(x),
            self.mant_of(self.with_sign_bits(x, s)) == self.mant_of(x),
            self.category(self.with_sign_bits(x, s)) == self.category(x),
            self.sig_of(self.with_sign_bits(x, s)) == self.sig_of(x),
            self.t_of(self.with_sign_bits(x, s)) == self.t_of(x),
    {
        self.lemma_encode_decode(x);
        self.lemma_decode_encode(self.hi_of(x), s, self.exp_of(x), self.mant_of(x));
    }

    /// Two patterns with the same parts are the same.
    pub proof fn lemma_parts_determine(self, x: nat, y: nat)
        requires
            self.wf(),
            self.hi_of(x) == self.hi_of(y),
            self.sign_of(x) == self.sign_of(y),
            self.exp_of(x) == self.exp_of(y),
            self.mant_of(x) == self.mant_of(y),
        ensures
            x == y,
    {
        self.lemma_encode_decode(x);
        self.lemma_encode_decode(y);
    }

    /// Flipping the sign twice gives the number back, in a layout with a sign bit.
    pub proof fn lemma_neg_neg(self, x: nat)
        requires
            self.wf(),
            self.sign_bit,
        ensures
            self.xor_sign_bits(self.xor_sign_bits(x, true), true) == x,
    {
        let y = self.xor_sign_bits(x, true);
        self.lemma_with_sign_parts(x, !self.sign_of(x));
        self.lemma_with_sign_parts(y, !self.sign_of(y));
        self.lemma_parts_determine(self.xor_sign_bits(y, true), x);
    }
}

/// Stepping a mantissa toward zero keeps it within the mantissa range.
pub proof fn lemma_down_loop_bound(e: nat, f: nat, ff: nat, o: nat, b: nat, maxm: nat, limit: nat)
    requires
        1 <= o <= f,
        f - o <= maxm,
        ff >= 1,
        b >= 1,
    ensures
        down_loop(e, f, ff, o, b, maxm, limit).0 <= e,
        down_loop(e, f, ff, o, b, maxm, limit).2 <= down_loop(e, f, ff, o, b, maxm, limit).1,
        down_loop(e, f, ff, o, b, maxm, limit).1 - down_loop(e, f, ff, o, b, maxm, limit).2 <= maxm,
    decreases e,
{
    let oo: nat = if ff > maxm { (ff - maxm) as nat } else { 0 };
    if e != 0 && oo < b {
        let o2: nat = if oo > 1 { oo } else { 1 };
        match checked_mul_spec(ff, b, limit) {
            Some(fff) => {
                lemma_mul_inequality(1, b as int, ff as int);
                lemma_mul_is_commutative(ff as int, b as int);
                lemma_down_loop_bound((e - 1) as nat, ff, fff, o2, b, maxm, limit);
            },
            None => {},
        }
    }
}

/// Stepping a mantissa away from zero keeps it within the mantissa range.
pub proof fn lemma_up_loop_bound(e: nat, f: nat, ff: nat, b: nat, maxm: nat, limit: nat)
    requires
        f <= maxm,
    ensures
        up_loop(e, f, ff, b, maxm, limit).0 <= e,
        up_loop(e, f, ff, b, maxm, limit).1 <= maxm,
    decreases e,
{
    if e != 0 && ff <= maxm {
        match checked_mul_spec(ff, b, limit) {
            Some(fff) => lemma_up_loop_bound((e - 1) as nat, ff, fff, b, maxm, limit),
            None => {},
        }
    }
}

impl Format {
    /// The neighbour of a finite number has an exponent and a mantissa that fit their fields.
    pub proof fn lemma_next_parts_bound(self, x: nat, down: bool)
        requires
            self.wf(),
            self.implicit() || self.exp_base >= 2,
            self.is_finite_bits(x),
        ensures
            self.next_finite_parts(x, down).1 <= self.max_exp(),
            self.next_finite_parts(x, down).2 <= self.max_mant(),
    {
        self.lemma_wf();
        self.lemma_encode_decode(x);
        let e = self.exp_of(x);
        let f = self.mant_of(x);
        let maxm = self.max_mant();
        assert(e < self.max_exp());
        if self.implicit() {
            lemma_pow2_pos(self.frac_size as nat);
            assert(self.frac_of(x) == f);
        } else {
            let b = self.exp_base as nat;
            if self.sign_of(x) != down {
                if f != 0 && self.base_u() is Some && checked_mul_spec(f, b, self.limit()) is Some {
                    lemma_mul_inequality(1, b as int, f as int);
                    lemma_mul_is_commutative(f as int, b as int);
                    lemma_down_loop_bound(e, f, f * b, 1, b, maxm, self.limit());
                }
            } else {
                if self.base_u() is Some && checked_mul_spec(f, b, self.limit()) is Some {
                    lemma_up_loop_bound(e, f, f * b, b, maxm, self.limit());
                }
                lemma_div_is_ordered_by_denominator(maxm as int, 2, b as int);
                lemma_fundamental_div_mod(maxm as int, 2);
            }
        }
    }

    /// Stepping from the negated number in the other direction gives the negated neighbour:
    /// `x.next_up() == -(-x).next_down()` and `x.next_down() == -(-x).next_up()`.
    pub proof fn lemma_next_neg(self, x: nat, down: bool)
        requires
            self.wf(),
            self.sign_bit,
            self.implicit() || self.exp_base >= 2,
            self.hi_of(x) == 0,
        ensures
            self.next_bits(x, down) == self.xor_sign_bits(self.next_bits(self.xor_sign_bits(x, true), !down), true),
    {
        let nx = self.xor_sign_bits(x, true);
        let s = self.sign_of(x);
        self.lemma_with_sign_parts(x, !s);
        self.lemma_encode_decode(x);
        let c = self.category(x);
        if c == FpCategory::Nan {
            self.lemma_neg_neg(x);
        } else if c == FpCategory::Infinite {
            if s == down {
                self.lemma_neg_neg(x);
            } else {
                let mv = self.max_value_bits();
                let y = self.with_sign_bits(mv, !s);
                self.lemma_with_sign_parts(mv, !s);
                self.lemma_with_sign_parts(y, s);
                self.lemma_with_sign_parts(mv, s);
                self.lemma_parts_determine(self.xor_sign_bits(y, true), self.with_sign_bits(mv, s));
            }
        } else if c == FpCategory::Zero && s != down {
            // from a zero both sides step to the smallest number of the direction's sign
            self.lemma_wf();
            lemma2_to64();
            lemma_pow2_strictly_increases(0, self.exp_pos());
            lemma_pow2_pos(self.exp_size as nat);
            let y = self.encode(0, down, 0, 1);
            let z = self.encode(0, !down, 0, 1);
            self.lemma_decode_encode(0, down, 0, 1);
            self.lemma_decode_encode(0, !down, 0, 1);
            assert(self.next_bits(x, down) == y);
            assert(self.next_bits(nx, !down) == z);
            self.lemma_with_sign_parts(z, down);
            self.lemma_parts_determine(self.xor_sign_bits(z, true), y);
        } else {
            assert(self.frac_of(nx) == self.frac_of(x)) by {
                lemma_pow2_pos(self.frac_size as nat);
                lemma_pow2_pos((self.exp_pos() - self.frac_size) as nat);
                if self.frac_size as nat <= self.exp_pos() {
                    lemma_pow2_adds(self.frac_size as nat, (self.exp_pos() - self.frac_size) as nat);
                    lemma_mod_mod(x as int, pow2(self.frac_size as nat) as int, pow2((self.exp_pos() - self.frac_size) as nat) as int);
                    lemma_mod_mod(nx as int, pow2(self.frac_size as nat) as int, pow2((self.exp_pos() - self.frac_size) as nat) as int);
                }
            }
            let (s2, e2, m2) = self.next_finite_parts(x, down);
            let (t2, f2, n2) = self.next_finite_parts(nx, !down);
            assert(t2 == !s2 && f2 == e2 && n2 == m2);
            self.lemma_next_parts_bound(x, down);
            let y = self.encode(0, !s2, e2, m2);
            assert(self.max_mant() < pow2(self.exp_pos()));
            assert(self.max_exp() < pow2(self.exp_size as nat));
            self.lemma_decode_encode(0, !s2, e2, m2);
            self.lemma_decode_encode(0, s2, e2, m2);
            self.lemma_with_sign_parts(y, s2);
            self.lemma_parts_determine(self.xor_sign_bits(y, true), self.encode(0, s2, e2, m2));
        }
    }
}

impl Format {
    /// Rounding a number that the layout holds gives the number back: with an implicit
    /// integer bit and at least two exponent bits, every finite pattern without stray high
    /// bits is the rounding of its own value.
    pub proof fn lemma_pack_exact(self, x: nat)
        requires
            self.wf(),
            self.implicit(),
            self.exp_size >= 2,
            self.is_finite_bits(x),
            self.hi_of(x) == 0,
        ensures
            self.pack(self.sign_of(x), self.sig_of(x), self.t_of(x)) == x,
    {
        self.lemma_wf();
        self.lemma_encode_decode(x);
        lemma2_to64();
        let s = self.sign_of(x);
        let e = self.exp_of(x);
        let m = self.mant_of(x);
        let fr = self.frac_size as nat;
        lemma_pow2_pos(fr);
        lemma_pow2_unfold(fr + 1);
        assert(self.prec() == fr + 1);
        if self.category(x) == FpCategory::Zero {
            if self.sign_bit {
                self.lemma_encode_decode(0);
                lemma_pow2_pos(self.top());
                assert(self.hi_of(0) == 0);
            }
        } else {
            lemma_pow2_mono(2, self.exp_size as nat);
            assert(self.max_exp() >= 3);
            let sig = self.sig_of(x);
            let y = if e != 0 { self.encode(0, false, e, m) } else { self.encode(0, false, 0, m) };
            if e != 0 {
                lemma_bitlen_unique(sig, fr + 1);
                assert(self.lead_exp(sig, self.t_of(x)) == e);
            } else {
                lemma_bitlen(m);
                crate::binary::lemma_bitlen_bound(m, fr);
                assert(self.lead_exp(sig, self.t_of(x)) == bitlen(m) - fr);
            }
            assert(self.shift_of(sig, self.t_of(x)) == 0);
            assert(round_shift(sig, 0) == sig * pow2(0));
            assert(sig * pow2(0) == sig);
            if self.sign_bit {
                self.lemma_decode_encode(0, false, e, m);
                self.lemma_with_sign_parts(y, s);
                self.lemma_parts_determine(self.with_sign_bits(y, s), x);
            } else {
                self.lemma_decode_encode(0, false, e, m);
                self.lemma_parts_determine(y, x);
            }
        }
    }

    /// Both operands are finite and nonzero, of opposite signs and of the same magnitude.
    pub open spec fn cancels(self, x: nat, y: nat) -> bool {
        let tx = self.t_of(x);
        let ty = self.t_of(y);
        let tm = if tx <= ty { tx } else { ty };
        &&& self.is_finite_bits(x) && self.category(x) != FpCategory::Zero
        &&& self.is_finite_bits(y) && self.category(y) != FpCategory::Zero
        &&& self.sign_of(x) != self.sign_of(y)
        &&& self.sig_of(x) * pow2((tx - tm) as nat) == self.sig_of(y) * pow2((ty - tm) as nat)
    }

    /// Addition commutes, except that a NaN operand is passed on by position and that a sum
    /// that is zero exactly (two zeros, or opposite numbers) takes the sign of the first
    /// operand.
    pub proof fn lemma_add_commutes(self, x: nat, y: nat)
        requires
            self.wf(),
            self.hi_of(x) == 0,
            self.hi_of(y) == 0,
            self.category(x) != FpCategory::Nan,
            self.category(y) != FpCategory::Nan,
            !(self.category(x) == FpCategory::Zero && self.category(y) == FpCategory::Zero),
            !self.cancels(x, y),
        ensures
            self.add_signed_bits(x, y, false) == self.add_signed_bits(y, x, false),
    {
        self.lemma_encode_decode(x);
        self.lemma_encode_decode(y);
        if self.category(x) == FpCategory::Infinite && self.category(y) == FpCategory::Infinite
            && self.sign_of(x) == self.sign_of(y) {
            self.lemma_parts_determine(x, y);
        }
        let tx = self.t_of(x);
        let ty = self.t_of(y);
        let tm = if tx <= ty { tx } else { ty };
        let a = self.sig_of(x) * pow2((tx - tm) as nat);
        let b = self.sig_of(y) * pow2((ty - tm) as nat);
        assert(a + b == b + a);
    }

    /// Multiplication commutes in a layout with an implicit integer bit, except that a NaN
    /// operand is passed on by position.
    pub proof fn lemma_mul_commutes(self, x: nat, y: nat)
        requires
            self.wf(),
            self.implicit(),
            self.hi_of(x) == 0,
            self.hi_of(y) == 0,
            self.category(x) != FpCategory::Nan,
            self.category(y) != FpCategory::Nan,
        ensures
            self.mul_bits(x, y) == self.mul_bits(y, x),
    {
        self.lemma_encode_decode(x);
        self.lemma_encode_decode(y);
        lemma_mul_is_commutative(self.sig_of(x) as int, self.sig_of(y) as int);
        let ax = self.with_sign_bits(x, false);
        let ay = self.with_sign_bits(y, false);
        if self.is_one_bits(ax) && self.is_one_bits(ay) {
            let s = self.sign_of(x) != self.sign_of(y);
            if self.sign_bit {
                self.lemma_with_sign_parts(x, false);
                self.lemma_with_sign_parts(y, false);
                self.lemma_with_sign_parts(x, s);
                self.lemma_with_sign_parts(y, s);
                self.lemma_parts_determine(self.with_sign_bits(x, s), self.with_sign_bits(y, s));
            } else {
                self.lemma_parts_determine(x, y);
            }
        }
    }
}

impl Format {
    /// A value that the layout holds is rounded without loss: when rounding drops no digit
    /// and the exponent stays below the largest one, the result is the finite nonzero number
    /// with that sign and value (its significand is `m` with `-shift` zero digits appended).
    pub proof fn lemma_pack_value(self, s: bool, m: nat, t: int)
        requires
            self.wf(),
            self.implicit(),
            m > 0,
            self.shift_of(m, t) <= 0,
            self.exp_at(m, t) < self.max_exp(),
            self.sign_bit || !s,
        ensures
            ({
                let y = self.pack(s, m, t);
                let k = (-self.shift_of(m, t)) as nat;
                &&& self.hi_of(y) == 0
                &&& self.is_finite_bits(y)
                &&& self.category(y) != FpCategory::Zero
                &&& self.sign_of(y) == s
                &&& self.sig_of(y) == m * pow2(k)
                &&& self.t_of(y) == t - k
            }),
    {
        self.lemma_wf();
        lemma2_to64();
        let p = self.prec();
        let fr = self.frac_size as nat;
        let sh = self.shift_of(m, t);
        let k = (-sh) as nat;
        let e = self.exp_at(m, t);
        let r = m * pow2(k);
        assert(round_shift(m, sh) == r);
        lemma_pow2_pos(k);
        lemma_mul_strict_inequality(0, m as int, pow2(k) as int);
        crate::rounding::lemma_bitlen_mul_pow2(m, k);
        lemma_bitlen(m);
        lemma_bitlen(r);
        crate::binary::lemma_bitlen_bound(r, p);
        assert(r < pow2(p));
        lemma_pow2_unfold(fr + 1);
        assert(p == fr + 1);
        lemma_pow2_pos(fr);
        let (e2, mm) = if r < pow2(fr) { (0nat, r) } else { (e as nat, (r - pow2(fr)) as nat) };
        assert(e2 < pow2(self.exp_size as nat));
        assert(mm < pow2(self.exp_pos()));
        let z = self.encode(0, false, e2, mm);
        self.lemma_decode_encode(0, false, e2, mm);
        if r < pow2(fr) {
            assert(e == 1);
        }
        assert(self.finish(s, r, e) == self.with_sign_bits(z, s));
        if self.sign_bit {
            self.lemma_with_sign_parts(z, s);
        }
    }
}

/// Layout `b` holds every value of layout `a` exactly: both have exponent base 2 and an
/// implicit integer bit, `b` has more fraction bits, its normal range covers the subnormal
/// and the largest numbers of `a`, and it has a sign bit where `a` has one.
pub open spec fn widens(a: Format, b: Format) -> bool {
    &&& a.binary()
    &&& b.binary()
    &&& a.implicit()
    &&& b.implicit()
    &&& a.exp_size >= 2
    &&& a.frac_size < b.frac_size
    &&& b.bias() >= a.bias() + a.frac_size
    &&& a.max_exp() + b.bias() <= b.max_exp() + a.bias()
    &&& (a.sign_bit ==> b.sign_bit)
}

/// The magnitude of a finite nonzero number of `a` converted into a wider layout `b` is a
/// finite nonzero number of `b` of the same value: its significand has `d` more digits.
pub proof fn lemma_widen_magnitude(a: Format, b: Format, x: nat) -> (d: nat)
    requires
        widens(a, b),
        x < a.limit(),
        a.hi_of(x) == 0,
        a.is_finite_bits(x),
        a.category(x) != FpCategory::Zero,
    ensures
        ({
            let y = b.abs_convert_bits(a, x);
            &&& b.hi_of(y) == 0
            &&& b.is_finite_bits(y)
            &&& b.category(y) != FpCategory::Zero
            &&& !b.sign_of(y)
            &&& b.sig_of(y) == a.sig_of(x) * pow2(d)
            &&& b.t_of(y) == a.t_of(x) - d
        }),
{
    a.lemma_wf();
    b.lemma_wf();
    a.lemma_encode_decode(x);
    lemma2_to64();
    let e = a.exp_of(x);
    let m = a.mant_of(x);
    let fa = a.frac_size as nat;
    let fb = b.frac_size as nat;
    let df = (fb - fa) as nat;
    let ax = a.with_sign_bits(x, false);
    if a.sign_bit {
        a.lemma_with_sign_parts(x, false);
        a.lemma_encode_decode(ax);
    }
    assert(ax == a.encode(0, false, e, m));
    assert(ax == e * pow2(fa) + m);
    lemma_pow2_adds(fa, df);
    lemma_pow2_pos(fa);
    lemma_pow2_pos(df);
    lemma_pow2_unfold(fa + 1);
    lemma_pow2_unfold(fb + 1);
    if b.exp_size == a.exp_size && b.int_size == a.int_size && b.exp_base == a.exp_base
        && ax * pow2(df) < b.limit() {
        // the bits shifted up
        let y = ax * pow2(df);
        assert(y == e * pow2(fb) + m * pow2(df)) by {
            lemma_mul_is_distributive_add_other_way(pow2(df) as int, (e * pow2(fa)) as int, m as int);
            lemma_mul_is_associative(e as int, pow2(fa) as int, pow2(df) as int);
        }
        assert(m * pow2(df) < pow2(fb)) by {
            lemma_mul_strict_inequality(m as int, pow2(fa) as int, pow2(df) as int);
        }
        assert(y == b.encode(0, false, e, m * pow2(df)));
        b.lemma_decode_encode(0, false, e, m * pow2(df));
        if e == 0 {
            lemma_mul_strict_inequality(0, m as int, pow2(df) as int);
        } else {
            lemma_mul_is_distributive_add_other_way(pow2(df) as int, m as int, pow2(fa) as int);
        }
        assert(b.bias() == a.bias());
        df
    } else {
        let sig = a.sig_of(x);
        let t = a.t_of(x);
        crate::binary::lemma_bitlen(sig);
        if e != 0 {
            lemma_bitlen_unique(sig, fa + 1);
        } else {
            crate::binary::lemma_bitlen_bound(sig, fa);
        }
        assert(b.lead_exp(sig, t) >= 1);
        assert(b.exp_at(sig, t) == b.lead_exp(sig, t));
        assert(b.shift_of(sig, t) <= 0);
        assert(b.exp_at(sig, t) < b.max_exp());
        b.lemma_pack_value(false, sig, t);
        (-b.shift_of(sig, t)) as nat
    }
}

/// Converting a number (other than NaN) into a layout that holds all its values and back
/// gives the number back.
pub proof fn lemma_widen_round_trip(a: Format, b: Format, x: nat)
    requires
        widens(a, b),
        x < a.limit(),
        a.hi_of(x) == 0,
        a.category(x) != FpCategory::Nan,
    ensures
        a.convert_bits(b, b.convert_bits(a, x)) == x,
{
    a.lemma_wf();
    b.lemma_wf();
    a.lemma_encode_decode(x);
    lemma2_to64();
    let s = a.sign_of(x);
    assert(!b.same_layout(a));
    assert(!a.same_layout(b));
    let ya = b.abs_convert_bits(a, x);
    let y = b.xor_sign_bits(ya, s);
    assert(b.convert_bits(a, x) == y);
    let ca = a.category(x);
    // the magnitude in `b`
    if ca == FpCategory::Zero {
        let ax = a.with_sign_bits(x, false);
        if a.sign_bit {
            a.lemma_with_sign_parts(x, false);
        }
        a.lemma_encode_decode(ax);
        assert(ax == 0);
        assert(ya == 0) by {
            lemma_mul_basics(pow2((b.frac_size - a.frac_size) as nat) as int);
        }
    } else if ca == FpCategory::Infinite {
        let ax = a.with_sign_bits(x, false);
        if a.sign_bit {
            a.lemma_with_sign_parts(x, false);
        }
        a.lemma_encode_decode(ax);
        let df = (b.frac_size - a.frac_size) as nat;
        if b.exp_size == a.exp_size && ax * pow2(df) < b.limit() {
            lemma_pow2_adds(a.frac_size as nat, df);
            assert(ax == a.max_exp() * pow2(a.frac_size as nat));
            lemma_mul_is_associative(a.max_exp() as int, pow2(a.frac_size as nat) as int, pow2(df) as int);
            assert(ya == b.infinity_bits());
        }
        assert(ya == b.infinity_bits());
        lemma_pow2_strictly_increases(0, b.frac_size as nat);
        b.lemma_decode_encode(0, false, b.max_exp(), 0);
    }
    // back in `a`
    let d = if ca != FpCategory::Zero && ca != FpCategory::Infinite { lemma_widen_magnitude(a, b, x) } else { 0 };
    b.lemma_decode_encode(0, false, 0, 0);
    lemma_pow2_pos(b.top());
    if s {
        b.lemma_with_sign_parts(ya, true);
    }
    assert(b.sign_of(y) == s);
    assert(b.category(y) == b.category(ya));
    assert(b.sig_of(y) == b.sig_of(ya));
    assert(b.t_of(y) == b.t_of(ya));
    let za = a.abs_convert_bits(b, y);
    let ax = a.with_sign_bits(x, false);
    if a.sign_bit {
        a.lemma_with_sign_parts(x, false);
    }
    a.lemma_encode_decode(ax);
    if ca == FpCategory::Zero {
        assert(za == 0);
        a.lemma_decode_encode(0, false, 0, 0);
        lemma_mul_basics(pow2(a.top()) as int);
        lemma_mul_basics(pow2(a.exp_pos()) as int);
        assert(a.exp_of(x) == 0);
        assert(a.mant_of(x) == 0);
        assert(a.exp_of(ax) == 0);
        assert(a.mant_of(ax) == 0);
        assert(a.hi_of(ax) == 0);
        assert(!a.sign_of(ax));
        assert(a.encode(0, false, 0, 0) == 0);
        assert(ax == 0);
    } else if ca == FpCategory::Infinite {
        assert(za == a.infinity_bits());
        lemma_pow2_strictly_increases(0, a.frac_size as nat);
        a.lemma_decode_encode(0, false, a.max_exp(), 0);
        a.lemma_parts_determine(za, ax);
    } else {
        assert(za == a.pack(false, a.sig_of(x) * pow2(d), a.t_of(x) - d));
        a.lemma_pack_scale(false, a.sig_of(x), a.t_of(x), d);
        a.lemma_pack_exact(ax);
    }
    assert(za == ax);
    assert(a.convert_bits(b, y) == a.xor_sign_bits(ax, s));
    if s {
        a.lemma_with_sign_parts(ax, true);
        a.lemma_parts_determine(a.with_sign_bits(ax, true), x);
    } else {
        a.lemma_parts_determine(ax, x);
    }
}

impl Format {
    /// An integer with at most `prec` digits converts into the layout exactly and back:
    /// `from_int(v).to_int() == Some(v)` for every `v` of the integer type.
    pub proof fn lemma_int_round_trip(self, v: int, signed: bool, bits: nat)
        requires
            self.binary(),
            self.implicit(),
            self.prec() + self.bias() <= self.max_exp(),
            -pow2(self.prec()) < v < pow2(self.prec()),
            v < 0 ==> self.sign_bit,
            crate::integer::int_in_range(v, signed, bits),
        ensures
            self.to_int_value(self.from_int_bits(v), signed, bits) == Some(v),
    {
        self.lemma_wf();
        lemma2_to64();
        let neg = v < 0;
        let a: nat = (if v < 0 { -v } else { v }) as nat;
        let y = self.from_int_bits(v);
        if a == 0 {
            self.lemma_decode_encode(0, false, 0, 0);
            lemma_pow2_pos(self.top());
            lemma_mul_basics(pow2(self.top()) as int);
            lemma_mul_basics(pow2(self.exp_pos()) as int);
            assert(self.encode(0, false, 0, 0) == 0);
            if self.sign_bit {
                self.lemma_encode_decode(0);
            }
            assert(y == 0);
        } else {
            lemma_bitlen(a);
            crate::binary::lemma_bitlen_bound(a, self.prec());
            assert(self.lead_exp(a, 0) >= 1);
            assert(self.shift_of(a, 0) <= 0);
            self.lemma_pack_value(neg, a, 0);
            let k = (-self.shift_of(a, 0)) as nat;
            lemma_pow2_pos(k);
            if k > 0 {
                lemma_div_mod_unique_local(a, k);
            } else {
                assert(pow2(0) == 1);
                lemma_mul_basics(a as int);
            }
            assert(self.trunc_mag(y) == a);
            assert(self.sign_of(y) == neg);
            assert(crate::integer::signed_value(neg, a) == v);
        }
    }
}

/// `a * 2^k / 2^k == a`.
proof fn lemma_div_mod_unique_local(a: nat, k: nat)
    ensures
        (a * pow2(k)) / pow2(k) == a,
{
    lemma_pow2_pos(k);
    crate::arith::lemma_div_mod_unique(a, 0, pow2(k));
}

impl Format {
    /// Squaring ignores the sign and gives a number without a sign: `(-x).squared()` and
    /// `x.squared()` have the same bits, and the result's sign bit is clear.
    pub proof fn lemma_squared_even(self, x: nat)
        requires
            self.wf(),
            self.sign_bit,
        ensures
            self.squared_bits(self.xor_sign_bits(x, true)) == self.squared_bits(x),
            !self.sign_of(self.squared_bits(x)),
    {
        let nx = self.xor_sign_bits(x, true);
        self.lemma_with_sign_parts(x, !self.sign_of(x));
        self.lemma_with_sign_parts(nx, false);
        self.lemma_with_sign_parts(x, false);
        self.lemma_parts_determine(self.with_sign_bits(nx, false), self.with_sign_bits(x, false));
        let ax = self.with_sign_bits(x, false);
        let m = self.sig_of(ax) * self.sig_of(ax);
        let t = self.t_of(ax) + self.t_of(ax);
        if m == 0 {
            self.lemma_with_sign_parts(0, false);
        } else {
            let w = self.finish_abs(round_shift(m, self.shift_of(m, t)), self.exp_at(m, t));
            assert(self.pack(false, m, t) == self.with_sign_bits(w, false));
            self.lemma_with_sign_parts(w, false);
        }
    }
}

impl Format {
    /// Doubling a normal number and halving the result gives it back, when the double stays
    /// below the largest exponent (implicit integer bit, at least two exponent bits).
    pub proof fn lemma_double_then_halve(self, x: nat)
        requires
            self.wf(),
            self.implicit(),
            self.exp_size >= 2,
            self.hi_of(x) == 0,
            self.category(x) == FpCategory::Normal,
            self.exp_of(x) + 1 < self.max_exp(),
        ensures
            self.category(self.scale2_bits(x, true)) == FpCategory::Normal,
            self.scale2_bits(self.scale2_bits(x, true), false) == x,
    {
        self.lemma_wf();
        lemma2_to64();
        let fr = self.frac_size as nat;
        let sig = self.sig_of(x);
        let t = self.t_of(x);
        let s = self.sign_of(x);
        lemma_pow2_pos(fr);
        lemma_pow2_unfold(fr + 1);
        lemma_mod_bound(x as int, pow2(fr) as int);
        assert(pow2(fr) <= sig < pow2(fr + 1));
        crate::binary::lemma_bitlen_bound(sig, fr + 1);
        crate::binary::lemma_bitlen_bound(sig, fr);
        assert(bitlen(sig) == fr + 1);
        assert(self.exp_at(sig, t + 1) == self.exp_of(x) + 1);
        self.lemma_pack_value(s, sig, t + 1);
        let y = self.scale2_bits(x, true);
        assert(self.shift_of(sig, t + 1) == 0);
        assert(pow2(0) == 1);
        assert(sig * pow2(0) == sig);
        assert(y == self.pack(s, sig, t + 1));
        assert(self.sig_of(y) == sig && self.t_of(y) == t + 1 && self.sign_of(y) == s);
        self.lemma_pack_exact(x);
    }
}

impl Format {
    /// `epsilon` is the difference between one and the next larger number: with an implicit
    /// integer bit, at least two exponent bits and a fraction bit, `next_up(1) - 1` is exactly
    /// the pattern of `epsilon`.
    pub proof fn lemma_epsilon_is_step_above_one(self)
        requires
            self.wf(),
            self.implicit(),
            self.exp_size >= 2,
            self.frac_size >= 1,
        ensures
            self.add_signed_bits(self.next_bits(self.one_bits(), false), self.one_bits(), true)
                == self.epsilon_bits(),
    {
        self.lemma_wf();
        lemma2_to64();
        let fr = self.frac_size as nat;
        let b = self.bias();
        lemma_pow2_pos(self.exp_size as nat);
        lemma_pow2_unfold(self.exp_size as nat);
        lemma_pow2_strictly_increases(1, self.exp_size as nat);
        assert(1 <= b < self.max_exp());
        lemma_pow2_strictly_increases(0, fr);
        lemma_pow2_pos(fr);
        let one = self.one_bits();
        self.lemma_decode_encode(0, false, b, 0);
        crate::bits::lemma_field_low(one, fr);
        assert(self.frac_of(one) == 0);
        let y = self.encode(0, false, b, 1);
        self.lemma_decode_encode(0, false, b, 1);
        assert(self.next_bits(one, false) == y);
        assert(self.sig_of(y) == pow2(fr) + 1 && self.t_of(y) == -(fr as int));
        assert(self.sig_of(one) == pow2(fr) && self.t_of(one) == -(fr as int));
        assert(pow2(0) == 1);
        lemma_mul_basics((pow2(fr) + 1) as int);
        lemma_mul_basics(pow2(fr) as int);
        assert((pow2(fr) + 1) * pow2(0) == pow2(fr) + 1);
        assert(pow2(fr) * pow2(0) == pow2(fr));
        assert(self.add_signed_bits(y, one, true) == self.pack(false, 1, -(fr as int)));
        assert(bitlen(0) == 0);
        assert(bitlen(1) == 1 + bitlen(0));
        assert(bitlen(1) == 1);
        self.lemma_pack_value(false, 1, -(fr as int));
        let z = self.pack(false, 1, -(fr as int));
        let eps = self.epsilon_bits();
        lemma_pow2_unfold(fr + 1);
        if b > fr {
            assert(self.shift_of(1, -(fr as int)) == -(fr as int));
            assert(1 * pow2(fr) == pow2(fr));
            self.lemma_decode_encode(0, false, (b - fr) as nat, 0);
            assert(self.exp_of(z) != 0);
            self.lemma_parts_determine(z, eps);
        } else {
            let k = (b - 1) as nat;
            assert(self.shift_of(1, -(fr as int)) == 1 - b);
            assert(1 * pow2(k) == pow2(k));
            crate::arith::lemma_pow2_mono(k, (fr - 1) as nat);
            lemma_pow2_unfold(fr);
            assert(pow2(k) < pow2(fr));
            self.lemma_decode_encode(0, false, 0, pow2(k));
            assert(self.encode(0, false, 0, pow2(k)) == pow2(k)) by {
                lemma_mul_basics(pow2(self.top()) as int);
                lemma_mul_basics(pow2(self.exp_pos()) as int);
            }
            assert(self.exp_of(z) == 0);
            self.lemma_parts_determine(z, eps);
        }
    }
}

} // verus!
