//! Laws of reading numbers from text: a minus sign negates, case does not matter, and an
//! exponent is applied as written.
use vstd::prelude::*;
use crate::binary::round_shift;
use crate::format::{Format, FpCategory};
use crate::parse::{Scan, FloatErrorKind, digit_value, is_exp_marker, lower_eq, ascii_lower};

verus! {

impl Format {
    /// Giving opposite signs to two patterns with the same other parts gives negations of
    /// each other.
    pub proof fn lemma_with_sign_flip(self, w1: nat, w2: nat, s: bool)
        requires
            self.wf(),
            self.sign_bit,
            self.hi_of(w1) == self.hi_of(w2),
            self.exp_of(w1) == self.exp_of(w2),
            self.mant_of(w1) == self.mant_of(w2),
        ensures
            self.xor_sign_bits(self.with_sign_bits(w2, !s), true) == self.with_sign_bits(w1, s),
    {
        let z = self.with_sign_bits(w2, !s);
        self.lemma_with_sign_parts(w2, !s);
        self.lemma_with_sign_parts(z, s);
        self.lemma_with_sign_parts(w1, s);
        self.lemma_parts_determine(self.with_sign_bits(z, s), self.with_sign_bits(w1, s));
    }

    /// Rounding with the opposite sign gives the negation.
    pub proof fn lemma_pack_flip(self, s: bool, m: nat, t: int)
        requires
            self.wf(),
            self.sign_bit,
        ensures
            self.xor_sign_bits(self.pack(!s, m, t), true) == self.pack(s, m, t),
    {
        if m == 0 {
            self.lemma_with_sign_flip(0, 0, s);
        } else {
            let w = self.finish_abs(round_shift(m, self.shift_of(m, t)), self.exp_at(m, t));
            assert(self.pack(s, m, t) == self.with_sign_bits(w, s));
            assert(self.pack(!s, m, t) == self.with_sign_bits(w, !s));
            self.lemma_with_sign_flip(w, w, s);
        }
    }

    /// A product with a negated first factor is the negated product.
    pub proof fn lemma_mul_neg_left(self, g: nat, q: nat)
        requires
            self.wf(),
            self.sign_bit,
        ensures
            self.mul_bits(self.with_sign_bits(g, true), q) == self.xor_sign_bits(
                self.mul_bits(self.with_sign_bits(g, false), q),
                true,
            ),
    {
        let a = self.with_sign_bits(g, true);
        let c = self.with_sign_bits(g, false);
        self.lemma_with_sign_parts(g, true);
        self.lemma_with_sign_parts(g, false);
        self.lemma_with_sign_parts(a, false);
        self.lemma_with_sign_parts(c, false);
        self.lemma_parts_determine(self.with_sign_bits(a, false), self.with_sign_bits(c, false));
        assert(self.sig_of(a) == self.sig_of(c) && self.t_of(a) == self.t_of(c));
        let s = true != self.sign_of(q);
        let ca = self.category(a);
        let cq = self.category(q);
        if ca == FpCategory::Nan || cq == FpCategory::Nan {
            if self.is_snan_bits(q) || ca != FpCategory::Nan {
                self.lemma_with_sign_flip(q, q, s);
            } else {
                self.lemma_with_sign_flip(a, c, s);
            }
        } else if (ca == FpCategory::Infinite && cq == FpCategory::Zero) || (ca == FpCategory::Zero
            && cq == FpCategory::Infinite) {
            self.lemma_with_sign_flip(self.qnan_bits(), self.qnan_bits(), s);
        } else if ca == FpCategory::Zero || cq == FpCategory::Zero {
            self.lemma_with_sign_flip(0, 0, s);
        } else if ca == FpCategory::Infinite || cq == FpCategory::Infinite {
            self.lemma_with_sign_flip(self.infinity_bits(), self.infinity_bits(), s);
        } else if self.is_one_bits(self.with_sign_bits(q, false)) {
            self.lemma_with_sign_flip(a, c, s);
        } else if self.is_one_bits(self.with_sign_bits(a, false)) {
            self.lemma_with_sign_flip(q, q, s);
        } else {
            self.lemma_pack_flip(s, self.sig_of(a) * self.sig_of(q), self.t_of(a) + self.t_of(q));
        }
    }

    /// Giving a pattern a negative sign negates the pattern with a positive one.
    pub proof fn lemma_with_sign_neg(self, g: nat)
        requires
            self.wf(),
            self.sign_bit,
        ensures
            self.with_sign_bits(g, true) == self.xor_sign_bits(self.with_sign_bits(g, false), true),
    {
        self.lemma_with_sign_flip(g, g, true);
    }
}

impl Format {
    /// What scanning the text behind a minus sign gives, from what scanning the text alone
    /// gives: an overflow to the negative infinity, an exponent marker one place later, and
    /// the same significand otherwise.
    pub open spec fn negated_scan(self, o: Scan) -> Scan {
        match o {
            Scan::Value(_) => Scan::Value(self.with_sign_bits(self.infinity_bits(), true)),
            Scan::Fail(k) => Scan::Fail(k),
            Scan::Exp(j, g) => Scan::Exp(j + 1, g),
            Scan::End(g) => Scan::End(g),
        }
    }

    proof fn lemma_int_scan_neg(self, s: Seq<u8>, i: nat, radix: nat, sig: nat, prev: nat)
        ensures
            self.int_scan(seq![45u8] + s, i + 1, radix, true, sig, prev) == self.negated_scan(
                self.int_scan(s, i, radix, false, sig, prev),
            ),
            self.int_scan(s, i, radix, false, sig, prev) matches Scan::Value(v) ==> v == self.with_sign_bits(
                self.infinity_bits(),
                false,
            ),
            self.int_scan(s, i, radix, false, sig, prev) matches Scan::Exp(j, _) ==> j < s.len(),
        decreases s.len() - i, 1nat,
    {
        let b = seq![45u8] + s;
        assert(b.len() == s.len() + 1);
        if i < s.len() {
            assert(b[i + 1int] == s[i as int]);
            let c = s[i as int];
            let d = digit_value(c);
            if d < radix {
                let s2 = self.int_digit(sig, d, radix);
                if !self.int_overflow(prev, s2, d, radix) {
                    self.lemma_int_scan_neg(s, i + 1, radix, s2, s2);
                }
            } else if !is_exp_marker(c) && c == 46 {
                self.lemma_frac_scan_neg(s, i + 1, radix, sig, prev, self.one_bits());
            }
        }
    }

    proof fn lemma_frac_scan_neg(self, s: Seq<u8>, i: nat, radix: nat, sig: nat, prev: nat, power: nat)
        ensures
            self.frac_scan(seq![45u8] + s, i + 1, radix, true, sig, prev, power) == self.negated_scan(
                self.frac_scan(s, i, radix, false, sig, prev, power),
            ),
            self.frac_scan(s, i, radix, false, sig, prev, power) matches Scan::Value(v) ==> v
                == self.with_sign_bits(self.infinity_bits(), false),
            self.frac_scan(s, i, radix, false, sig, prev, power) matches Scan::Exp(j, _) ==> j < s.len(),
        decreases s.len() - i, 0nat,
    {
        let b = seq![45u8] + s;
        assert(b.len() == s.len() + 1);
        if i < s.len() {
            assert(b[i + 1int] == s[i as int]);
            let c = s[i as int];
            let d = digit_value(c);
            if d < radix {
                let p2 = self.div_int_bits(power, radix as int);
                let s2 = self.frac_digit(sig, p2, d);
                if !self.lt_bits(s2, prev) {
                    self.lemma_frac_scan_neg(s, i + 1, radix, s2, s2, p2);
                }
            }
        }
    }

    /// The exponent part is read the same one place later behind a minus sign.
    proof fn lemma_exp_part_shift(self, s: Seq<u8>, j: nat, radix: nat, x: nat)
        requires
            j < s.len(),
        ensures
            self.exp_part(seq![45u8] + s, j + 1, radix, x) == self.exp_part(s, j, radix, x),
    {
        let b = seq![45u8] + s;
        assert(b[j + 1int] == s[j as int]);
        assert(b.subrange(j + 2int, b.len() as int) =~= s.subrange(j + 1int, s.len() as int));
    }
}

/// Putting a minus sign in front of lower-case-equal texts keeps them lower-case-equal.
proof fn lemma_lower_eq_minus(s: Seq<u8>, lit: Seq<u8>)
    ensures
        lower_eq(seq![45u8] + s, seq![45u8] + lit) == lower_eq(s, lit),
{
    let b = seq![45u8] + s;
    let l = seq![45u8] + lit;
    if lower_eq(s, lit) {
        assert forall|i: int| 0 <= i < b.len() implies ascii_lower(#[trigger] b[i]) == l[i] by {
            if i > 0 {
                assert(b[i] == s[i - 1]);
                assert(ascii_lower(s[i - 1]) == lit[i - 1]);
            }
        }
    }
    if lower_eq(b, l) {
        assert forall|i: int| 0 <= i < s.len() implies ascii_lower(#[trigger] s[i]) == lit[i] by {
            assert(b[i + 1] == s[i]);
            assert(ascii_lower(b[i + 1]) == l[i + 1]);
        }
    }
}

/// The text behind a minus sign names a special value exactly when the signed text names
/// its negative, and the signed text names no unsigned special value.
proof fn lemma_minus_specials(s: Seq<u8>)
    requires
        s.len() > 0,
        s[0] != 45,
    ensures
        !lower_eq(seq![45u8] + s, seq![105u8, 110, 102]),
        !lower_eq(seq![45u8] + s, seq![105u8, 110, 102, 105, 110, 105, 116, 121]),
        !lower_eq(seq![45u8] + s, seq![110u8, 97, 110]),
        lower_eq(seq![45u8] + s, seq![45u8, 105, 110, 102]) == lower_eq(s, seq![105u8, 110, 102]),
        lower_eq(seq![45u8] + s, seq![45u8, 105, 110, 102, 105, 110, 105, 116, 121]) == lower_eq(
            s,
            seq![105u8, 110, 102, 105, 110, 105, 116, 121],
        ),
        lower_eq(seq![45u8] + s, seq![45u8, 110, 97, 110]) == lower_eq(s, seq![110u8, 97, 110]),
        !lower_eq(s, seq![45u8, 105, 110, 102]),
        !lower_eq(s, seq![45u8, 105, 110, 102, 105, 110, 105, 116, 121]),
        !lower_eq(s, seq![45u8, 110, 97, 110]),
{
    let b = seq![45u8] + s;
    assert(b[0] == 45);
    assert(ascii_lower(45) == 45);
    assert(ascii_lower(s[0]) != 45);
    let inf3 = seq![105u8, 110, 102];
    let inf8 = seq![105u8, 110, 102, 105, 110, 105, 116, 121];
    let nan3 = seq![110u8, 97, 110];
    lemma_lower_eq_minus(s, inf3);
    lemma_lower_eq_minus(s, inf8);
    lemma_lower_eq_minus(s, nan3);
    assert(seq![45u8] + inf3 =~= seq![45u8, 105, 110, 102]);
    assert(seq![45u8] + inf8 =~= seq![45u8, 105, 110, 102, 105, 110, 105, 116, 121]);
    assert(seq![45u8] + nan3 =~= seq![45u8, 110, 97, 110]);
}

impl Format {
    /// The exponent part behind a minus sign gives the negation.
    proof fn lemma_exp_part_neg(self, s: Seq<u8>, j: nat, radix: nat, g: nat)
        requires
            self.wf(),
            self.sign_bit,
            j < s.len(),
        ensures
            self.exp_part(seq![45u8] + s, j + 1, radix, self.with_sign_bits(g, true)) == (match self.exp_part(
                s,
                j,
                radix,
                self.with_sign_bits(g, false),
            ) {
                Ok(v) => Ok::<nat, FloatErrorKind>(self.xor_sign_bits(v, true)),
                Err(k) => Err::<nat, FloatErrorKind>(k),
            }),
    {
        self.lemma_exp_part_shift(s, j, radix, self.with_sign_bits(g, true));
        let rest = s.subrange(j + 1int, s.len() as int);
        if rest.len() > 0 {
            let base = self.from_int_bits(if radix == 10 { 10int } else { 2int });
            let neg = rest[0] == 45;
            let num = if rest[0] == 45 || rest[0] == 43 {
                crate::parse::parse_usize(rest.drop_first())
            } else {
                crate::parse::parse_usize(rest)
            };
            match num {
                Some(e) => {
                    let p = self.powi_bits(base, crate::integer::wrap_int(e as int, true, 32));
                    let q = if neg { self.recip_bits(p) } else { p };
                    self.lemma_mul_neg_left(g, q);
                },
                None => {},
            }
        }
    }

    /// Negation of text: with a sign bit, the text `-s` (for a text `s` that is not empty and
    /// does not itself begin with a minus sign) parses to the negation of what `s` parses to,
    /// and fails where `s` fails, in every radix; with an exponent part too.
    pub proof fn lemma_parse_negation(self, s: Seq<u8>, radix: nat)
        requires
            self.wf(),
            self.sign_bit,
            s.len() > 0,
            s[0] != 45,
        ensures
            self.parse_bits(seq![45u8] + s, radix) == (match self.parse_bits(s, radix) {
                Ok(v) => Ok::<nat, FloatErrorKind>(self.xor_sign_bits(v, true)),
                Err(k) => Err::<nat, FloatErrorKind>(k),
            }),
    {
        let b = seq![45u8] + s;
        assert(b[0] == 45);
        lemma_minus_specials(s);
        self.lemma_wf();
        vstd::arithmetic::power2::lemma_pow2_pos(self.exp_size as nat);
        vstd::arithmetic::power2::lemma_pow2_pos(self.exp_pos());
        self.lemma_decode_encode(0, false, self.max_exp(), 0);
        self.lemma_with_sign_neg(self.infinity_bits());
        self.lemma_int_scan_neg(s, 0, radix, 0, 0);
        assert(b.len() != 0 && !(b.len() == 1 && b[0] == 45));
        match self.int_scan(s, 0, radix, false, 0, 0) {
            Scan::End(g) => {
                self.lemma_with_sign_neg(g);
            },
            Scan::Exp(j, g) => {
                self.lemma_exp_part_neg(s, j, radix, g);
            },
            _ => {},
        }
    }
}

impl Format {
    /// A first digit `d` read into a zero significand gives the integer `d`, which keeps its
    /// bits when given no sign.
    proof fn lemma_first_digit(self, d: nat, radix: nat)
        requires
            self.wf(),
            d < radix,
        ensures
            self.int_digit(0, d, radix) == self.from_int_bits(d as int),
            self.with_sign_bits(self.from_int_bits(d as int), false) == self.from_int_bits(d as int),
            !self.int_overflow(0, self.int_digit(0, d, radix), d, radix),
    {
        self.lemma_wf();
        vstd::arithmetic::power2::lemma_pow2_pos(self.exp_size as nat);
        vstd::arithmetic::power2::lemma_pow2_pos(self.exp_pos());
        vstd::arithmetic::power2::lemma_pow2_pos(self.top());
        self.lemma_decode_encode(0, false, 0, 0);
        assert(self.encode(0, false, 0, 0) == 0) by {
            vstd::arithmetic::mul::lemma_mul_basics(vstd::arithmetic::power2::pow2(self.top()) as int);
            vstd::arithmetic::mul::lemma_mul_basics(vstd::arithmetic::power2::pow2(self.exp_pos()) as int);
        }
        assert(self.category(0) == FpCategory::Zero);
        let fd = self.from_int_bits(d as int);
        if d == 0 {
            if self.sign_bit {
                self.lemma_with_sign_parts(0, false);
                self.lemma_parts_determine(self.with_sign_bits(0, false), 0);
            }
            assert(fd == 0);
        } else {
            let w = self.finish_abs(round_shift(d, self.shift_of(d, 0)), self.exp_at(d, 0));
            assert(fd == self.with_sign_bits(w, false));
            if self.sign_bit {
                self.lemma_with_sign_parts(w, false);
                self.lemma_with_sign_parts(fd, false);
                self.lemma_parts_determine(self.with_sign_bits(fd, false), fd);
            }
        }
        assert(self.mul_int_bits(0, radix as int) == 0);
    }

    /// A text that begins with a decimal digit names none of the special values.
    proof fn lemma_digit_not_special(b: Seq<u8>)
        requires
            b.len() > 0,
            48 <= b[0] <= 57,
        ensures
            !lower_eq(b, seq![105u8, 110, 102]),
            !lower_eq(b, seq![105u8, 110, 102, 105, 110, 105, 116, 121]),
            !lower_eq(b, seq![45u8, 105, 110, 102]),
            !lower_eq(b, seq![45u8, 105, 110, 102, 105, 110, 105, 116, 121]),
            !lower_eq(b, seq![110u8, 97, 110]),
            !lower_eq(b, seq![45u8, 110, 97, 110]),
    {
        assert(ascii_lower(b[0]) == b[0]);
    }

    /// A digit with a decimal exponent: the text `d e E` (a decimal digit `d`, the marker, and
    /// decimal digits worth `E < 2^31`) parses in radix 10 to `d` times `10^E`, the power taken
    /// for the integer written.
    pub proof fn lemma_parse_digit_exponent(self, d: u8, marker: u8, digits: Seq<u8>)
        requires
            self.wf(),
            d < 10,
            marker == 101 || marker == 69,
            digits.len() > 0,
            crate::parse::all_decimal(digits),
            crate::parse::decimal_value(digits) < 0x8000_0000,
        ensures
            self.parse_bits(seq![(48 + d) as u8, marker] + digits, 10) == Ok::<nat, FloatErrorKind>(
                self.mul_bits(
                    self.from_int_bits(d as int),
                    self.powu_bits(self.from_int_bits(10), crate::parse::decimal_value(digits)),
                ),
            ),
    {
        let b = seq![(48 + d) as u8, marker] + digits;
        assert(b[0] == 48 + d && b[1] == marker);
        Self::lemma_digit_not_special(b);
        self.lemma_first_digit(d as nat, 10);
        let fd = self.from_int_bits(d as int);
        assert(digit_value(b[0]) == d);
        assert(digit_value(marker) >= 10);
        assert(self.int_scan(b, 1, 10, false, fd, fd) == Scan::Exp(1, fd));
        assert(self.int_scan(b, 0, 10, false, 0, 0) == Scan::Exp(1, fd));
        assert(b.subrange(2, b.len() as int) =~= digits);
        self.lemma_exp_applied(b, 1, 10, fd, digits, false);
    }
}

/// The text with its ASCII letters in lower case.
pub open spec fn lowered(b: Seq<u8>) -> Seq<u8> {
    b.map_values(|c: u8| ascii_lower(c))
}

proof fn lemma_parse_usize_lowered(t: Seq<u8>)
    ensures
        crate::parse::parse_usize(lowered(t)) == crate::parse::parse_usize(t),
{
    let l = lowered(t);
    assert(l.len() == t.len());
    let body = if t.len() > 0 && t[0] == 43 { t.drop_first() } else { t };
    let lbody = if l.len() > 0 && l[0] == 43 { l.drop_first() } else { l };
    assert(lbody =~= lowered(body));
    if crate::parse::all_decimal(body) {
        assert(lbody =~= body);
    }
    if crate::parse::all_decimal(lbody) {
        assert forall|i: int| 0 <= i < body.len() implies 48 <= #[trigger] body[i] <= 57 by {
            assert(lbody[i] == ascii_lower(body[i]));
        }
        assert(lbody =~= body);
    }
}

impl Format {
    proof fn lemma_int_scan_lowered(self, b: Seq<u8>, i: nat, radix: nat, sign: bool, sig: nat, prev: nat)
        ensures
            self.int_scan(lowered(b), i, radix, sign, sig, prev) == self.int_scan(b, i, radix, sign, sig, prev),
            self.int_scan(b, i, radix, sign, sig, prev) matches Scan::Exp(j, _) ==> j < b.len(),
        decreases b.len() - i, 1nat,
    {
        let l = lowered(b);
        if i < b.len() {
            let c = b[i as int];
            assert(l[i as int] == ascii_lower(c));
            crate::parse::lemma_digit_values(c);
            let d = digit_value(c);
            if d < radix {
                let s2 = self.int_digit(sig, d, radix);
                if !self.int_overflow(prev, s2, d, radix) {
                    self.lemma_int_scan_lowered(b, i + 1, radix, sign, s2, s2);
                }
            } else if !is_exp_marker(c) && c == 46 {
                self.lemma_frac_scan_lowered(b, i + 1, radix, sign, sig, prev, self.one_bits());
            }
        }
    }

    proof fn lemma_frac_scan_lowered(self, b: Seq<u8>, i: nat, radix: nat, sign: bool, sig: nat, prev: nat, power: nat)
        ensures
            self.frac_scan(lowered(b), i, radix, sign, sig, prev, power) == self.frac_scan(
                b,
                i,
                radix,
                sign,
                sig,
                prev,
                power,
            ),
            self.frac_scan(b, i, radix, sign, sig, prev, power) matches Scan::Exp(j, _) ==> j < b.len(),
        decreases b.len() - i, 0nat,
    {
        let l = lowered(b);
        if i < b.len() {
            let c = b[i as int];
            assert(l[i as int] == ascii_lower(c));
            crate::parse::lemma_digit_values(c);
            let d = digit_value(c);
            if d < radix {
                let p2 = self.div_int_bits(power, radix as int);
                let s2 = self.frac_digit(sig, p2, d);
                if !self.lt_bits(s2, prev) {
                    self.lemma_frac_scan_lowered(b, i + 1, radix, sign, s2, s2, p2);
                }
            }
        }
    }

    proof fn lemma_exp_part_lowered(self, b: Seq<u8>, i: nat, radix: nat, x: nat)
        requires
            i < b.len(),
        ensures
            self.exp_part(lowered(b), i, radix, x) == self.exp_part(b, i, radix, x),
    {
        let l = lowered(b);
        assert(l.len() == b.len());
        assert(l[i as int] == ascii_lower(b[i as int]));
        let rest = b.subrange(i + 1int, b.len() as int);
        let lrest = l.subrange(i + 1int, l.len() as int);
        assert(lrest =~= lowered(rest));
        if rest.len() > 0 {
            assert(lrest[0] == ascii_lower(rest[0]));
            assert(lrest.drop_first() =~= lowered(rest.drop_first()));
            lemma_parse_usize_lowered(rest);
            lemma_parse_usize_lowered(rest.drop_first());
        }
    }

    /// Case does not matter in the text of a number: digit letters, exponent markers and the
    /// names `inf`, `infinity` and `nan` read the same in upper and lower case, so the text
    /// parses as its lower case form does, in every radix.
    pub proof fn lemma_parse_case_insensitive(self, b: Seq<u8>, radix: nat)
        ensures
            self.parse_bits(lowered(b), radix) == self.parse_bits(b, radix),
    {
        let l = lowered(b);
        assert(l.len() == b.len());
        lemma_lower_eq_lowered(b, seq![105u8, 110, 102]);
        lemma_lower_eq_lowered(b, seq![105u8, 110, 102, 105, 110, 105, 116, 121]);
        lemma_lower_eq_lowered(b, seq![45u8, 105, 110, 102]);
        lemma_lower_eq_lowered(b, seq![45u8, 105, 110, 102, 105, 110, 105, 116, 121]);
        lemma_lower_eq_lowered(b, seq![110u8, 97, 110]);
        lemma_lower_eq_lowered(b, seq![45u8, 110, 97, 110]);
        if b.len() > 0 {
            assert(l[0] == ascii_lower(b[0]));
            assert((l[0] == 45) == (b[0] == 45));
        }
        let sign = b.len() > 0 && b[0] == 45;
        let start: nat = if sign { 1 } else { 0 };
        self.lemma_int_scan_lowered(b, start, radix, sign, 0, 0);
        match self.int_scan(b, start, radix, sign, 0, 0) {
            Scan::Exp(i, g) => {
                if i < b.len() {
                    self.lemma_exp_part_lowered(b, i, radix, self.with_sign_bits(g, sign));
                }
            },
            _ => {},
        }
    }
}

proof fn lemma_lower_eq_lowered(b: Seq<u8>, lit: Seq<u8>)
    ensures
        lower_eq(lowered(b), lit) == lower_eq(b, lit),
{
    let l = lowered(b);
    assert(l.len() == b.len());
    if lower_eq(b, lit) {
        assert forall|i: int| 0 <= i < l.len() implies ascii_lower(#[trigger] l[i]) == lit[i] by {
            assert(l[i] == ascii_lower(b[i]));
        }
    }
    if lower_eq(l, lit) {
        assert forall|i: int| 0 <= i < b.len() implies ascii_lower(#[trigger] b[i]) == lit[i] by {
            assert(l[i] == ascii_lower(b[i]));
            assert(ascii_lower(l[i]) == lit[i]);
        }
    }
}

} // verus!
