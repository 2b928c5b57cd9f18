//! Stepping to the neighbouring representable number.
use vstd::prelude::*;
use vstd::arithmetic::power2::*;
use vstd::arithmetic::div_mod::*;
use vstd::arithmetic::mul::*;
use crate::arith::{field, get_field, pow2_u128, lemma_pow2_mono};
use crate::bits::lemma_field_low;
use crate::format::{Format, FpCategory};

verus! {

/// `a*b` when it fits in the storage type.
pub open spec fn checked_mul_spec(a: nat, b: nat, limit: nat) -> Option<nat> {
    if a * b < limit { Some(a * b) } else { None }
}

/// Moving a non-implicit mantissa toward zero: trade exponent steps for mantissa digits
/// while the scaled mantissa stays within one base of the largest mantissa.
pub open spec fn down_loop(e: nat, f: nat, ff: nat, o: nat, b: nat, maxm: nat, limit: nat) -> (nat, nat, nat)
    decreases e,
{
    let oo: nat = if ff > maxm { (ff - maxm) as nat } else { 0 };
    if e != 0 && oo < b {
        let o2: nat = if oo > 1 { oo } else { 1 };
        match checked_mul_spec(ff, b, limit) {
            Some(fff) => down_loop((e - 1) as nat, ff, fff, o2, b, maxm, limit),
            None => ((e - 1) as nat, ff, o2),
        }
    } else {
        (e, f, o)
    }
}

/// Moving a non-implicit mantissa away from zero: use the smallest exponent that still
/// holds the mantissa.
pub open spec fn up_loop(e: nat, f: nat, ff: nat, b: nat, maxm: nat, limit: nat) -> (nat, nat)
    decreases e,
{
    if e != 0 && ff <= maxm {
        match checked_mul_spec(ff, b, limit) {
            Some(fff) => up_loop((e - 1) as nat, ff, fff, b, maxm, limit),
            None => ((e - 1) as nat, ff),
        }
    } else {
        (e, f)
    }
}

impl Format {
    /// The exponent base as a value of the storage type, if it fits.
    pub open spec fn base_u(self) -> Option<nat> {
        if self.exp_base < self.limit() { Some(self.exp_base as nat) } else { None }
    }

    /// The neighbour of a finite number: toward negative infinity when `down`, else toward
    /// positive infinity. Returns (sign, exponent, mantissa) or, when the exponent reaches its
    /// largest value away from zero, the infinity with that sign (mantissa 0).
    pub open spec fn next_finite_parts(self, x: nat, down: bool) -> (bool, nat, nat) {
        let s = self.sign_of(x);
        let e = self.exp_of(x);
        if self.implicit() {
            let fr = self.frac_of(x);
            if s != down {
                if fr == 0 {
                    if e == 0 { (!s, e, fr) } else { (s, (e - 1) as nat, self.max_frac()) }
                } else {
                    (s, e, (fr - 1) as nat)
                }
            } else if fr == self.max_frac() {
                (s, e + 1, 0)
            } else {
                (s, e, fr + 1)
            }
        } else {
            let f = self.mant_of(x);
            let maxm = self.max_mant();
            if s != down {
                if f == 0 {
                    (!s, 0, f)
                } else if self.base_u() is Some && checked_mul_spec(f, self.exp_base as nat, self.limit()) is Some {
                    let b = self.exp_base as nat;
                    let (e2, f2, o2) = down_loop(e, f, f * b, 1, b, maxm, self.limit());
                    (s, e2, (f2 - o2) as nat)
                } else if e != 0 && f == 1 {
                    (s, (e - 1) as nat, maxm)
                } else {
                    (s, e, (f - 1) as nat)
                }
            } else {
                let (e2, f2) = if self.base_u() is Some && checked_mul_spec(f, self.exp_base as nat, self.limit()) is Some {
                    up_loop(e, f, f * (self.exp_base as nat), self.exp_base as nat, maxm, self.limit())
                } else {
                    (e, f)
                };
                if f2 == maxm {
                    if e2 + 1 == self.max_exp() {
                        (s, e2 + 1, 0)
                    } else {
                        (s, e2 + 1, if self.base_u() is Some { f2 / (self.exp_base as nat) + 1 } else { 1 })
                    }
                } else {
                    (s, e2, f2 + 1)
                }
            }
        }
    }

    /// The bits of the neighbour of `x` (see `next_finite_parts`); from a zero of either sign
    /// the neighbour is the smallest number of the direction's sign.
    pub open spec fn next_bits(self, x: nat, down: bool) -> nat {
        let s = self.sign_of(x);
        let c = self.category(x);
        if c == FpCategory::Nan {
            x
        } else if c == FpCategory::Infinite {
            if s == down { x } else { self.with_sign_bits(self.max_value_bits(), s) }
        } else if c == FpCategory::Zero && self.sign_bit && s != down {
            self.encode(0, down, 0, 1)
        } else {
            let (s2, e2, m2) = self.next_finite_parts(x, down);
            self.encode(0, s2 && self.sign_bit, e2, m2)
        }
    }
}

} // verus!

verus! {

impl Format {
    /// `a*b` when it is below the storage limit.
    pub fn checked_mul_u(&self, a: u128, b: u128) -> (r: Option<u128>)
        requires
            self.wf(),
        ensures
            r matches Some(v) ==> v == a * b,
            (r is Some) == (a * b < self.limit()),
    {
        proof {
            self.lemma_wf();
        }
        match a.checked_mul(b) {
            Some(v) => {
                if self.u_bits == 128 || v < pow2_u128(self.u_bits) {
                    Some(v)
                } else {
                    None
                }
            },
            None => None,
        }
    }

    pub fn base_u_exec(&self) -> (r: Option<u128>)
        requires
            self.wf(),
        ensures
            r matches Some(v) ==> v == self.exp_base,
            (r is Some) == (self.base_u() is Some),
    {
        proof {
            self.lemma_wf();
            lemma2_to64_rest();
        }
        if self.u_bits >= 64 {
            proof {
                lemma_pow2_mono(64, self.u_bits as nat);
            }
            Some(self.exp_base as u128)
        } else if (self.exp_base as u128) < pow2_u128(self.u_bits) {
            Some(self.exp_base as u128)
        } else {
            None
        }
    }

    fn down_loop_exec(&self, e: u128, f: u128, ff: u128, b: u128) -> (r: (u128, u128, u128))
        requires
            self.wf(),
            e <= self.max_exp(),
            f <= ff || b == 0,
            ff < self.limit(),
            b >= 1,
            f >= 1,
            f <= self.max_mant(),
            ff == f * b,
        ensures
            (r.0 as nat, r.1 as nat, r.2 as nat) == down_loop(e as nat, f as nat, ff as nat, 1, b as nat, self.max_mant(), self.limit()),
            r.2 <= r.1,
            r.1 - r.2 <= self.max_mant(),
    {
        let maxm = self.max_mant_exec();
        let ghost e0 = e as nat;
        let ghost f0 = f as nat;
        let ghost ff0 = ff as nat;
        let mut e = e;
        let mut f = f;
        let mut ff = ff;
        let mut o: u128 = 1;
        loop
            invariant_except_break
                ff == f * b,
                ff < self.limit(),
                down_loop(e0, f0, ff0, 1, b as nat, self.max_mant(), self.limit())
                    == down_loop(e as nat, f as nat, ff as nat, o as nat, b as nat, self.max_mant(), self.limit()),
            invariant
                self.wf(),
                maxm == self.max_mant(),
                b >= 1,
                f >= 1,
                o <= f,
                f - o <= maxm,
            ensures
                o <= f,
                f - o <= maxm,
                down_loop(e0, f0, ff0, 1, b as nat, self.max_mant(), self.limit()) == (e as nat, f as nat, o as nat),
            decreases e,
        {
            let oo: u128 = ff.saturating_sub(maxm);
            if !(e != 0 && oo < b) {
                break;
            }
            proof {
                lemma_mul_inequality(1, b as int, f as int);
                lemma_mul_is_commutative(f as int, b as int);
                assert(ff >= f);
            }
            let ghost eo = e as nat;
            let ghost fo = f as nat;
            let ghost ffo = ff as nat;
            let ghost oldo = o as nat;
            o = if oo > 1 { oo } else { 1 };
            e = e - 1;
            f = ff;
            match self.checked_mul_u(f, b) {
                Some(fff) => {
                    ff = fff;
                },
                None => {
                    proof {
                        assert(down_loop(eo, fo, ffo, oldo, b as nat, self.max_mant(), self.limit()) == (e as nat, f as nat, o as nat));
                    }
                    break;
                },
            }
        }
        (e, f, o)
    }

    fn up_loop_exec(&self, e: u128, f: u128, ff: u128, b: u128) -> (r: (u128, u128))
        requires
            self.wf(),
            f <= self.max_mant(),
            ff < self.limit(),
            ff == f * b,
        ensures
            (r.0 as nat, r.1 as nat) == up_loop(e as nat, f as nat, ff as nat, b as nat, self.max_mant(), self.limit()),
            r.1 <= self.max_mant(),
            r.0 <= e,
    {
        let maxm = self.max_mant_exec();
        let ghost e0 = e as nat;
        let ghost f0 = f as nat;
        let ghost ff0 = ff as nat;
        let mut e = e;
        let mut f = f;
        let mut ff = ff;
        loop
            invariant_except_break
                ff == f * b,
                ff < self.limit(),
                up_loop(e0, f0, ff0, b as nat, self.max_mant(), self.limit())
                    == up_loop(e as nat, f as nat, ff as nat, b as nat, self.max_mant(), self.limit()),
            invariant
                self.wf(),
                maxm == self.max_mant(),
                f <= maxm,
                e <= e0,
            ensures
                up_loop(e0, f0, ff0, b as nat, self.max_mant(), self.limit()) == (e as nat, f as nat),
            decreases e,
        {
            if !(e != 0 && ff <= maxm) {
                break;
            }
            let ghost eo = e as nat;
            let ghost fo = f as nat;
            let ghost ffo = ff as nat;
            e = e - 1;
            f = ff;
            match self.checked_mul_u(f, b) {
                Some(fff) => {
                    ff = fff;
                },
                None => {
                    proof {
                        assert(up_loop(eo, fo, ffo, b as nat, self.max_mant(), self.limit()) == (e as nat, f as nat));
                    }
                    break;
                },
            }
        }
        (e, f)
    }


    fn next_implicit(&self, x: u128, down: bool) -> (r: u128)
        requires
            self.wf(),
            self.int_size == 0,
            x < self.limit(),
            self.is_finite_bits(x as nat),
            !(self.category(x as nat) == FpCategory::Zero && self.sign_bit && self.sign_of(x as nat) != down),
        ensures
            r == self.next_bits(x as nat, down),
            r < self.limit(),
    {
        let ghost xn = x as nat;
        proof {
            self.lemma_wf();
            self.lemma_encode_decode(xn);
        }
        let s = self.is_sign_negative(x);
        let e = self.exp_bits(x);
        proof {
            assert(e < self.max_exp());
            lemma_pow2_strictly_increases(self.exp_size as nat, 128);
        }
        let fr = get_field(x, 0, self.frac_size);
        let maxf = pow2_u128(self.frac_size) - 1;
        proof {
            lemma_field_low(xn, self.frac_size as nat);
            assert(fr == self.frac_of(xn));
            assert(self.exp_pos() == self.frac_size);
        }
        let (s2, e2, f2): (bool, u128, u128) = if s != down {
            if fr == 0 {
                if e == 0 { (!s, e, fr) } else { (s, e - 1, maxf) }
            } else {
                (s, e, fr - 1)
            }
        } else if fr == maxf {
            (s, e + 1, 0)
        } else {
            (s, e, fr + 1)
        };
        proof {
            assert(e <= self.max_exp() - 1);
        }
        self.encode_exec(s2 && self.sign_bit, e2, f2)
    }

    /// The neighbour of `x`: toward negative infinity when `down`, else toward positive infinity.
    pub fn next(&self, x: u128, down: bool) -> (r: u128)
        requires
            self.wf(),
            x < self.limit(),
            self.int_size == 0 || self.exp_base != 0,
        ensures
            r == self.next_bits(x as nat, down),
            r < self.limit(),
    {
        let ghost xn = x as nat;
        proof {
            self.lemma_wf();
            self.lemma_encode_decode(xn);
        }
        let s = self.is_sign_negative(x);
        match self.classify(x) {
            FpCategory::Nan => {
                return x;
            },
            FpCategory::Infinite => {
                if s == down {
                    return x;
                }
                return self.with_sign(self.max_value_exec(), s);
            },
            FpCategory::Zero => {
                if self.sign_bit && s != down {
                    proof {
                        lemma_pow2_strictly_increases(0, self.exp_pos());
                    }
                    return self.encode_exec(down, 0, 1);
                }
            },
            _ => {},
        }
        let e = self.exp_bits(x);
        proof {
            assert(e < self.max_exp());
            lemma_pow2_strictly_increases(self.exp_size as nat, 128);
        }
        if self.int_size == 0 {
            return self.next_implicit(x, down);
        }
        let f = self.mant_bits_raw(x);
        let maxm = self.max_mant_exec();
        let base = self.base_u_exec();
        if s != down {
            if f == 0 {
                return self.encode_exec(!s && self.sign_bit, 0, 0);
            }
            match base {
                Some(b) => {
                    match self.checked_mul_u(f, b) {
                        Some(ff) => {
                            proof {
                                lemma_mul_inequality(1, b as int, f as int);
                                lemma_mul_is_commutative(f as int, b as int);
                            }
                            let (e2, f2, o2) = self.down_loop_exec(e, f, ff, b);
                            proof {
                                assert(e2 <= self.max_exp()) by {
                                    lemma_down_loop_e(e as nat, f as nat, ff as nat, 1, b as nat, self.max_mant(), self.limit());
                                }
                            }
                            return self.encode_exec(s && self.sign_bit, e2, f2 - o2);
                        },
                        None => {},
                    }
                },
                None => {},
            }
            if e != 0 && f == 1 {
                return self.encode_exec(s && self.sign_bit, e - 1, maxm);
            }
            return self.encode_exec(s && self.sign_bit, e, f - 1);
        }
        let (e2, f2): (u128, u128) = match base {
            Some(b) => match self.checked_mul_u(f, b) {
                Some(ff) => self.up_loop_exec(e, f, ff, b),
                None => (e, f),
            },
            None => (e, f),
        };
        proof {
            assert(e2 + 1 <= self.max_exp());
        }
        proof {
            lemma_pow2_strictly_increases(self.exp_pos(), 128);
            if let Some(b) = base {
                lemma_div_is_ordered_by_denominator(f2 as int, 1, b as int);
            }
        }
        if f2 == maxm {
            if e2 + 1 == self.max_exp_exec() {
                return self.encode_exec(s && self.sign_bit, e2 + 1, 0);
            }
            let f3: u128 = match base {
                Some(b) => f2 / b + 1,
                None => 1,
            };
            if f3 == maxm + 1 {
                proof {
                    lemma_pow2_adds(self.exp_pos(), self.exp_size as nat);
                    vstd::arithmetic::mul::lemma_mul_is_distributive_add_other_way(pow2(self.exp_pos()) as int, (e2 + 1) as int, 1);
                }
                return self.encode_exec(s && self.sign_bit, e2 + 2, 0);
            }
            proof {
                if let Some(b) = base {
                    lemma_div_is_ordered_by_denominator(f2 as int, 1, b as int);
                }
            }
            return self.encode_exec(s && self.sign_bit, e2 + 1, f3);
        }
        self.encode_exec(s && self.sign_bit, e2, f2 + 1)
    }
}

} // verus!

verus! {

pub proof fn lemma_down_loop_e(e: nat, f: nat, ff: nat, o: nat, b: nat, maxm: nat, limit: nat)
    ensures
        down_loop(e, f, ff, o, b, maxm, limit).0 <= e,
    decreases e,
{
    let oo: nat = if ff > maxm { (ff - maxm) as nat } else { 0 };
    if e != 0 && oo < b {
        let o2: nat = if oo > 1 { oo } else { 1 };
        match checked_mul_spec(ff, b, limit) {
            Some(fff) => lemma_down_loop_e((e - 1) as nat, ff, fff, o2, b, maxm, limit),
            None => {},
        }
    }
}

} // verus!

verus! {

/// Stepping up and then down returns the number, in a layout with an implicit integer bit
/// (not for NaN, whose neighbours are itself, and not for positive infinity, the top); a zero
/// comes back as positive zero.
pub proof fn lemma_next_up_then_down(f: Format, x: nat)
    requires
        f.wf(),
        f.implicit(),
        x < f.limit(),
        f.hi_of(x) == 0,
        f.category(x) != FpCategory::Nan,
        !(f.category(x) == FpCategory::Infinite && !f.sign_of(x)),
    ensures
        f.next_bits(f.next_bits(x, false), true) == (if f.category(x) == FpCategory::Zero { f.encode(0, false, 0, 0) } else { x }),
{
    lemma_next_roundtrip(f, x, false);
}

/// Stepping down and then up returns the number, in a layout with an implicit integer bit
/// (not for NaN, not for negative infinity, the bottom, and not for zero without a sign bit,
/// which is its own lower neighbour); a zero comes back as negative zero.
pub proof fn lemma_next_down_then_up(f: Format, x: nat)
    requires
        f.wf(),
        f.implicit(),
        x < f.limit(),
        f.hi_of(x) == 0,
        f.category(x) != FpCategory::Nan,
        !(f.category(x) == FpCategory::Infinite && f.sign_of(x)),
        f.sign_bit || f.category(x) != FpCategory::Zero,
    ensures
        f.next_bits(f.next_bits(x, true), false) == (if f.category(x) == FpCategory::Zero { f.encode(0, true, 0, 0) } else { x }),
{
    lemma_next_roundtrip(f, x, true);
}

proof fn lemma_next_roundtrip(f: Format, x: nat, down: bool)
    requires
        f.wf(),
        f.implicit(),
        x < f.limit(),
        f.hi_of(x) == 0,
        f.category(x) != FpCategory::Nan,
        !(f.category(x) == FpCategory::Infinite && f.sign_of(x) == down),
        !down || f.sign_bit || f.category(x) != FpCategory::Zero,
    ensures
        f.next_bits(f.next_bits(x, down), !down) == (if f.category(x) == FpCategory::Zero { f.encode(0, down && f.sign_bit, 0, 0) } else { x }),
{
    f.lemma_wf();
    f.lemma_encode_decode(x);
    lemma_field_low(x, f.frac_size as nat);
    let s = f.sign_of(x);
    let e = f.exp_of(x);
    let m = f.mant_of(x);
    assert(f.exp_pos() == f.frac_size);
    assert(f.frac_of(x) == m);
    assert(f.max_frac() == f.max_mant());
    let mv = f.max_value_bits();
    f.lemma_decode_encode(0, false, (f.max_exp() - 1) as nat, f.max_mant());
    f.lemma_encode_bound(false, (f.max_exp() - 1) as nat, f.max_mant());
    lemma_pow2_strictly_increases(0, f.exp_pos());
    lemma_pow2_pos(f.exp_size as nat);
    if f.category(x) == FpCategory::Zero && f.sign_bit && s != down {
        let y = f.encode(0, down, 0, 1);
        f.lemma_decode_encode(0, down, 0, 1);
        f.lemma_encode_bound(down, 0, 1);
        lemma_field_low(y, f.frac_size as nat);
        assert(f.next_bits(x, down) == y);
        assert(f.next_finite_parts(y, !down) == (down, 0nat, 0nat));
    } else if f.category(x) == FpCategory::Infinite {
        assert(s != down);
        let y = f.with_sign_bits(mv, s);
        if f.sign_bit {
            assert(y == f.encode(0, s, (f.max_exp() - 1) as nat, f.max_mant()));
        } else {
            assert(!s);
            assert(y == mv);
        }
        f.lemma_decode_encode(0, s, (f.max_exp() - 1) as nat, f.max_mant());
        f.lemma_encode_bound(s, (f.max_exp() - 1) as nat, f.max_mant());
        assert(f.next_bits(x, down) == y);
        assert(f.next_finite_parts(y, !down) == (s, f.max_exp(), 0nat));
    } else {
        let (s2, e2, m2) = f.next_finite_parts(x, down);
        assert(e2 <= f.max_exp());
        assert(m2 <= f.max_mant());
        let sb = s2 && f.sign_bit;
        f.lemma_decode_encode(0, sb, e2, m2);
        f.lemma_encode_bound(sb, e2, m2);
        let y = f.encode(0, sb, e2, m2);
        assert(f.next_bits(x, down) == y);
        lemma_field_low(y, f.frac_size as nat);
        if e2 == f.max_exp() {
            assert(m2 == 0);
            assert(f.category(y) == FpCategory::Infinite);
            assert(s == sb);
            assert(f.next_bits(y, !down) == f.with_sign_bits(mv, s));
            if f.sign_bit {
                assert(f.with_sign_bits(mv, s) == f.encode(0, s, (f.max_exp() - 1) as nat, f.max_mant()));
            }
        } else {
            assert(f.category(y) != FpCategory::Nan);
            assert(f.category(y) != FpCategory::Infinite);
            if f.sign_bit {
                assert(f.next_finite_parts(y, !down) == (s, e, m));
            } else {
                assert(!s);
                assert(f.next_finite_parts(y, !down) == (s2, e, m));
            }
        }
    }
}


/// With an explicit integer bit and an exponent base too large for the storage type, stepping
/// up and then down returns the number (not NaN, not positive infinity; a zero comes back as
/// positive zero), for every number whose mantissa is not zero unless its exponent is: the
/// numbers that stepping produces.
pub proof fn lemma_next_up_then_down_wide_base(f: Format, x: nat)
    requires
        f.wf(),
        !f.implicit(),
        f.base_u() is None,
        f.exp_of(x) == 0 || f.mant_of(x) >= 1,
        x < f.limit(),
        f.hi_of(x) == 0,
        f.category(x) != FpCategory::Nan,
        !(f.category(x) == FpCategory::Infinite && !f.sign_of(x)),
    ensures
        f.next_bits(f.next_bits(x, false), true) == (if f.category(x) == FpCategory::Zero { f.encode(0, false, 0, 0) } else { x }),
{
    lemma_next_roundtrip_wide(f, x, false);
}

/// With an explicit integer bit and an exponent base too large for the storage type, stepping
/// down and then up returns the number (not NaN, not negative infinity, not zero without a
/// sign bit; a zero comes back as negative zero), for every number whose mantissa is not zero
/// unless its exponent is.
pub proof fn lemma_next_down_then_up_wide_base(f: Format, x: nat)
    requires
        f.wf(),
        !f.implicit(),
        f.base_u() is None,
        f.exp_of(x) == 0 || f.mant_of(x) >= 1,
        x < f.limit(),
        f.hi_of(x) == 0,
        f.category(x) != FpCategory::Nan,
        !(f.category(x) == FpCategory::Infinite && f.sign_of(x)),
        f.sign_bit || f.category(x) != FpCategory::Zero,
    ensures
        f.next_bits(f.next_bits(x, true), false) == (if f.category(x) == FpCategory::Zero { f.encode(0, true, 0, 0) } else { x }),
{
    lemma_next_roundtrip_wide(f, x, true);
}

/// With an explicit integer bit and exponent base 2, stepping
/// up and then down returns the number (not NaN, not positive infinity; a zero comes back as
/// positive zero), for every number whose mantissa has its top digit set unless its exponent is
/// zero: the normalized numbers.
pub proof fn lemma_next_up_then_down_radix2(f: Format, x: nat)
    requires
        f.wf(),
        !f.implicit(),
        f.exp_base == 2,
        f.exp_of(x) == 0 || 2 * f.mant_of(x) > f.max_mant(),
        x < f.limit(),
        f.hi_of(x) == 0,
        f.category(x) != FpCategory::Nan,
        !(f.category(x) == FpCategory::Infinite && !f.sign_of(x)),
    ensures
        f.next_bits(f.next_bits(x, false), true) == (if f.category(x) == FpCategory::Zero { f.encode(0, false, 0, 0) } else { x }),
{
    lemma_next_roundtrip_radix2(f, x, false);
}

/// With an explicit integer bit and exponent base 2, stepping
/// down and then up returns the number (not NaN, not negative infinity, not zero without a
/// sign bit; a zero comes back as negative zero), for every normalized number (top mantissa
/// digit set unless the exponent is zero).
pub proof fn lemma_next_down_then_up_radix2(f: Format, x: nat)
    requires
        f.wf(),
        !f.implicit(),
        f.exp_base == 2,
        f.exp_of(x) == 0 || 2 * f.mant_of(x) > f.max_mant(),
        x < f.limit(),
        f.hi_of(x) == 0,
        f.category(x) != FpCategory::Nan,
        !(f.category(x) == FpCategory::Infinite && f.sign_of(x)),
        f.sign_bit || f.category(x) != FpCategory::Zero,
    ensures
        f.next_bits(f.next_bits(x, true), false) == (if f.category(x) == FpCategory::Zero { f.encode(0, true, 0, 0) } else { x }),
{
    lemma_next_roundtrip_radix2(f, x, true);
}

proof fn lemma_next_roundtrip_wide(f: Format, x: nat, down: bool)
    requires
        f.wf(),
        !f.implicit(),
        f.base_u() is None,
        f.exp_of(x) == 0 || f.mant_of(x) >= 1,
        x < f.limit(),
        f.hi_of(x) == 0,
        f.category(x) != FpCategory::Nan,
        !(f.category(x) == FpCategory::Infinite && f.sign_of(x) == down),
        !down || f.sign_bit || f.category(x) != FpCategory::Zero,
    ensures
        f.next_bits(f.next_bits(x, down), !down) == (if f.category(x) == FpCategory::Zero { f.encode(0, down && f.sign_bit, 0, 0) } else { x }),
{
    f.lemma_wf();
    f.lemma_encode_decode(x);
    let s = f.sign_of(x);
    let e = f.exp_of(x);
    let m = f.mant_of(x);
    lemma_pow2_strictly_increases(0, f.exp_pos());
    let mv = f.max_value_bits();
    f.lemma_decode_encode(0, false, (f.max_exp() - 1) as nat, f.max_mant());
    f.lemma_encode_bound(false, (f.max_exp() - 1) as nat, f.max_mant());
    lemma_pow2_strictly_increases(0, f.exp_pos());
    lemma_pow2_pos(f.exp_size as nat);
    if f.category(x) == FpCategory::Zero && f.sign_bit && s != down {
        let y = f.encode(0, down, 0, 1);
        f.lemma_decode_encode(0, down, 0, 1);
        f.lemma_encode_bound(down, 0, 1);
        assert(f.next_bits(x, down) == y);
        assert(f.next_finite_parts(y, !down) == (down, 0nat, 0nat));
    } else if f.category(x) == FpCategory::Infinite {
        assert(s != down);
        let y = f.with_sign_bits(mv, s);
        if f.sign_bit {
            assert(y == f.encode(0, s, (f.max_exp() - 1) as nat, f.max_mant()));
        } else {
            assert(!s);
            assert(y == mv);
        }
        f.lemma_decode_encode(0, s, (f.max_exp() - 1) as nat, f.max_mant());
        f.lemma_encode_bound(s, (f.max_exp() - 1) as nat, f.max_mant());
        assert(f.next_bits(x, down) == y);
        assert(f.next_finite_parts(y, !down) == (s, f.max_exp(), 0nat));
    } else {
        let (s2, e2, m2) = f.next_finite_parts(x, down);
        assert(e2 <= f.max_exp());
        assert(m2 <= f.max_mant());
        let sb = s2 && f.sign_bit;
        f.lemma_decode_encode(0, sb, e2, m2);
        f.lemma_encode_bound(sb, e2, m2);
        let y = f.encode(0, sb, e2, m2);
        assert(f.next_bits(x, down) == y);
        if e2 == f.max_exp() {
            assert(m2 == 0);
            assert(f.category(y) == FpCategory::Infinite);
            assert(s == sb);
            assert(f.next_bits(y, !down) == f.with_sign_bits(mv, s));
            if f.sign_bit {
                assert(f.with_sign_bits(mv, s) == f.encode(0, s, (f.max_exp() - 1) as nat, f.max_mant()));
            }
        } else {
            assert(f.category(y) != FpCategory::Nan);
            assert(f.category(y) != FpCategory::Infinite);
            if f.sign_bit {
                assert(f.next_finite_parts(y, !down) == (s, e, m));
            } else {
                assert(!s);
                assert(f.next_finite_parts(y, !down) == (s2, e, m));
            }
        }
    }
}

proof fn lemma_up_loop_normal(e: nat, f: nat, maxm: nat, limit: nat)
    requires
        e == 0 || 2 * f > maxm,
    ensures
        up_loop(e, f, f * 2, 2, maxm, limit) == (e, f),
{
}

proof fn lemma_down_loop_normal(e: nat, f: nat, h: nat, limit: nat)
    requires
        e == 0 || f > h,
        h >= 1,
    ensures
        down_loop(e, f, f * 2, 1, 2, (2 * h - 1) as nat, limit) == (e, f, 1nat),
{
}

proof fn lemma_down_loop_half(e: nat, h: nat, limit: nat)
    requires
        e != 0,
        h >= 1,
    ensures
        down_loop(e, h, h * 2, 1, 2, (2 * h - 1) as nat, limit) == ((e - 1) as nat, 2 * h, 1nat),
{
    reveal_with_fuel(down_loop, 2);
}

#[verifier::rlimit(100)]
#[verifier::spinoff_prover]
proof fn lemma_next_roundtrip_radix2(f: Format, x: nat, down: bool)
    requires
        f.wf(),
        !f.implicit(),
        f.exp_base == 2,
        f.exp_of(x) == 0 || 2 * f.mant_of(x) > f.max_mant(),
        x < f.limit(),
        f.hi_of(x) == 0,
        f.category(x) != FpCategory::Nan,
        !(f.category(x) == FpCategory::Infinite && f.sign_of(x) == down),
        !down || f.sign_bit || f.category(x) != FpCategory::Zero,
    ensures
        f.next_bits(f.next_bits(x, down), !down) == (if f.category(x) == FpCategory::Zero { f.encode(0, down && f.sign_bit, 0, 0) } else { x }),
{
    f.lemma_wf();
    f.lemma_encode_decode(x);
    let d = f.exp_pos();
    let hh = pow2((d - 1) as nat);
    let lim = f.limit();
    lemma_pow2_unfold(d);
    lemma_pow2_unfold(d + 1);
    lemma_pow2_mono(d + 1, f.u_bits as nat);
    lemma_pow2_pos((d - 1) as nat);
    assert(f.max_mant() == 2 * hh - 1);
    assert(f.base_u() == Some(2nat));
    let s = f.sign_of(x);
    let e = f.exp_of(x);
    let m = f.mant_of(x);
    lemma_pow2_strictly_increases(0, f.exp_pos());
    let mv = f.max_value_bits();
    f.lemma_decode_encode(0, false, (f.max_exp() - 1) as nat, f.max_mant());
    f.lemma_encode_bound(false, (f.max_exp() - 1) as nat, f.max_mant());
    lemma_pow2_strictly_increases(0, f.exp_pos());
    lemma_pow2_pos(f.exp_size as nat);
    if f.category(x) == FpCategory::Zero && f.sign_bit && s != down {
        let y = f.encode(0, down, 0, 1);
        f.lemma_decode_encode(0, down, 0, 1);
        f.lemma_encode_bound(down, 0, 1);
        assert(f.next_bits(x, down) == y);
        assert(f.next_finite_parts(y, !down) == (down, 0nat, 0nat));
    } else if f.category(x) == FpCategory::Infinite {
        assert(s != down);
        let y = f.with_sign_bits(mv, s);
        if f.sign_bit {
            assert(y == f.encode(0, s, (f.max_exp() - 1) as nat, f.max_mant()));
        } else {
            assert(!s);
            assert(y == mv);
        }
        f.lemma_decode_encode(0, s, (f.max_exp() - 1) as nat, f.max_mant());
        f.lemma_encode_bound(s, (f.max_exp() - 1) as nat, f.max_mant());
        assert(f.next_bits(x, down) == y);
        assert(f.next_finite_parts(y, !down) == (s, f.max_exp(), 0nat));
    } else {
        let mm = f.max_mant();
        assert(m <= mm);
        assert(checked_mul_spec(m, 2, lim) == Some(m * 2));
        if s != down {
            assert(m != 0);
            if e != 0 && m == hh {
                lemma_down_loop_half(e, hh, lim);
                assert(f.next_finite_parts(x, down) == (s, (e - 1) as nat, mm));
                lemma_up_loop_normal((e - 1) as nat, mm, mm, lim);
                assert(checked_mul_spec(mm, 2, lim) == Some(mm * 2));
                assert(mm / 2 + 1 == hh);
            } else {
                lemma_down_loop_normal(e, m, hh, lim);
                assert(f.next_finite_parts(x, down) == (s, e, (m - 1) as nat));
                lemma_up_loop_normal(e, (m - 1) as nat, mm, lim);
                assert(checked_mul_spec((m - 1) as nat, 2, lim) == Some(((m - 1) as nat) * 2));
            }
        } else {
            lemma_up_loop_normal(e, m, mm, lim);
            if m == mm {
                if e + 1 != f.max_exp() {
                    assert(mm / 2 + 1 == hh);
                    assert(f.next_finite_parts(x, down) == (s, e + 1, hh));
                    lemma_down_loop_half(e + 1, hh, lim);
                    assert(checked_mul_spec(hh, 2, lim) == Some(hh * 2));
                }
            } else {
                assert(f.next_finite_parts(x, down) == (s, e, m + 1));
                lemma_down_loop_normal(e, m + 1, hh, lim);
                assert(checked_mul_spec(m + 1, 2, lim) == Some((m + 1) * 2));
            }
        }
        let (s2, e2, m2) = f.next_finite_parts(x, down);
        assert(e2 <= f.max_exp());
        assert(m2 <= f.max_mant());
        let sb = s2 && f.sign_bit;
        f.lemma_decode_encode(0, sb, e2, m2);
        f.lemma_encode_bound(sb, e2, m2);
        let y = f.encode(0, sb, e2, m2);
        assert(f.next_bits(x, down) == y);
        if e2 == f.max_exp() {
            assert(m2 == 0);
            assert(f.category(y) == FpCategory::Infinite);
            assert(s == sb);
            assert(f.next_bits(y, !down) == f.with_sign_bits(mv, s));
            if f.sign_bit {
                assert(f.with_sign_bits(mv, s) == f.encode(0, s, (f.max_exp() - 1) as nat, f.max_mant()));
            }
        } else {
            assert(f.category(y) != FpCategory::Nan);
            assert(f.category(y) != FpCategory::Infinite);
            if f.sign_bit {
                assert(f.next_finite_parts(y, !down) == (s, e, m));
            } else {
                assert(!s);
                assert(f.next_finite_parts(y, !down) == (s2, e, m));
            }
        }
    }
}

} // verus!
