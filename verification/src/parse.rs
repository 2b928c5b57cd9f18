//! Parsing numbers from text.
use vstd::prelude::*;
use crate::format::{Format, FpCategory};
use crate::integer::{AnyInt, wrap_int, signed_value};

verus! {

/// Why text is not a number.
#[derive(Clone, Copy, Debug, PartialEq, Eq, Structural)]
pub enum FloatErrorKind {
    /// The text is empty, or only a minus sign.
    Empty,
    /// The text holds something other than a number.
    Invalid,
}

/// The error of parsing a number.
#[derive(Clone, Copy, Debug, PartialEq, Eq, Structural)]
pub struct ParseFloatError {
    pub kind: FloatErrorKind,
}

/// The value of an ASCII digit or letter (letters count from ten), 99 for other bytes.
pub open spec fn digit_value(c: u8) -> nat {
    if 48 <= c <= 57 {
        (c - 48) as nat
    } else if 97 <= c <= 122 {
        (c - 97 + 10) as nat
    } else if 65 <= c <= 90 {
        (c - 65 + 10) as nat
    } else {
        99
    }
}

/// Digits are read without regard to case: the `k`-th letter counts `10 + k` in upper and in
/// lower case alike, and the decimal digit `k` counts `k`; every other byte is no digit of any
/// radix up to 36.
pub proof fn lemma_digit_values(c: u8)
    ensures
        48 <= c <= 57 ==> digit_value(c) == c - 48,
        65 <= c <= 90 ==> digit_value(c) == c - 55 && digit_value((c + 32) as u8) == digit_value(c),
        97 <= c <= 122 ==> digit_value(c) == c - 87,
        !(48 <= c <= 57 || 65 <= c <= 90 || 97 <= c <= 122) ==> digit_value(c) >= 36,
        digit_value(ascii_lower(c)) == digit_value(c),
{
}

/// `e`, `E`, `p` or `P`.
pub open spec fn is_exp_marker(c: u8) -> bool {
    c == 101 || c == 69 || c == 112 || c == 80
}

/// An ASCII letter in lower case; other bytes stay.
pub open spec fn ascii_lower(c: u8) -> u8 {
    if 65 <= c <= 90 { (c + 32) as u8 } else { c }
}

/// `s` equals the lower case text `lit` when its ASCII letters are put in lower case.
pub open spec fn lower_eq(s: Seq<u8>, lit: Seq<u8>) -> bool {
    s.len() == lit.len() && forall|i: int| 0 <= i < s.len() ==> ascii_lower(#[trigger] s[i]) == lit[i]
}

/// The value of a nonempty run of decimal digits.
pub open spec fn decimal_value(s: Seq<u8>) -> nat
    decreases s.len(),
{
    if s.len() == 0 {
        0
    } else {
        decimal_value(s.drop_last()) * 10 + (s.last() - 48) as nat
    }
}

pub open spec fn all_decimal(s: Seq<u8>) -> bool {
    forall|i: int| 0 <= i < s.len() ==> 48 <= #[trigger] s[i] <= 57
}

/// An unsigned machine-word integer in decimal, with an optional leading `+`.
pub open spec fn parse_usize(s: Seq<u8>) -> Option<nat> {
    let body = if s.len() > 0 && s[0] == 43 { s.drop_first() } else { s };
    if body.len() > 0 && all_decimal(body) && decimal_value(body) <= usize::MAX {
        Some(decimal_value(body))
    } else {
        None
    }
}

impl Format {
    /// The exponent is applied as the integer written: after a marker of the radix and an
    /// optional sign, a run of decimal digits worth `e < 2^31` multiplies the significand by
    /// the base to the power `e`, or divides it by that power after a minus sign.
    pub proof fn lemma_exp_applied(self, b: Seq<u8>, i: nat, radix: nat, sig: nat, digits: Seq<u8>, neg: bool)
        requires
            i < b.len(),
            (radix == 10 && (b[i as int] == 101 || b[i as int] == 69)) || (radix == 16 && (b[i as int] == 112
                || b[i as int] == 80)),
            b.subrange(i + 1int, b.len() as int) == (if neg { seq![45u8] + digits } else { digits }) || (!neg
                && b.subrange(i + 1int, b.len() as int) == seq![43u8] + digits),
            digits.len() > 0,
            all_decimal(digits),
            decimal_value(digits) < 0x8000_0000,
        ensures
            self.exp_part(b, i, radix, sig) == Ok::<nat, FloatErrorKind>(
                {
                    let p = self.powu_bits(self.from_int_bits(if radix == 10 { 10int } else { 2int }), decimal_value(digits));
                    self.mul_bits(sig, if neg { self.recip_bits(p) } else { p })
                },
            ),
    {
        let rest = b.subrange(i + 1int, b.len() as int);
        let e = decimal_value(digits);
        if rest.len() > 0 && (rest[0] == 45 || rest[0] == 43) {
            assert(rest.drop_first() =~= digits);
        } else {
            assert(rest =~= digits);
        }
        assert(digits[0] != 43);
        assert(parse_usize(digits) == Some(e));
        vstd::arithmetic::power2::lemma2_to64();
        vstd::arithmetic::power2::lemma2_to64_rest();
        assert(wrap_int(e as int, true, 32) == e as int) by {
            vstd::arithmetic::div_mod::lemma_small_mod(e, vstd::arithmetic::power2::pow2(32));
        }
    }
}

/// Where scanning the digits of a number ends.
pub enum Scan {
    /// The number is decided.
    Value(nat),
    /// The text is no number.
    Fail(FloatErrorKind),
    /// An exponent marker at the index, with the significand so far.
    Exp(nat, nat),
    /// The end of the text, with the significand.
    End(nat),
}

impl Format {
    pub open spec fn le_bits(self, x: nat, y: nat) -> bool {
        self.partial_order(x, y) matches Some(o) && o <= 0
    }

    pub open spec fn lt_bits(self, x: nat, y: nat) -> bool {
        self.partial_order(x, y) matches Some(o) && o < 0
    }

    pub open spec fn eq_bits(self, x: nat, y: nat) -> bool {
        self.partial_order(x, y) == Some(0int)
    }

    /// The significand after one more integer digit.
    pub open spec fn int_digit(self, sig: nat, d: nat, radix: nat) -> nat {
        self.add_int_bits(self.mul_int_bits(sig, radix as int), d as int)
    }

    /// An integer digit overflowed: the previous significand is nonzero and the new one is
    /// not larger, or undoing the step does not give the previous one back.
    pub open spec fn int_overflow(self, prev: nat, s2: nat, d: nat, radix: nat) -> bool {
        self.category(prev) != FpCategory::Zero && (self.le_bits(s2, prev) || !self.eq_bits(
            prev,
            self.div_int_bits(self.sub_int_bits(s2, d as int), radix as int),
        ))
    }

    /// The significand after one more fraction digit worth `p2` each.
    pub open spec fn frac_digit(self, sig: nat, p2: nat, d: nat) -> nat {
        self.add_signed_bits(sig, self.mul_int_bits(p2, d as int), false)
    }

    /// Scans integer digits from index `i`: each digit multiplies the significand by the radix
    /// and adds the digit; a result that does not grow, or from which the last step cannot be
    /// undone, overflows to infinity.
    pub open spec fn int_scan(self, b: Seq<u8>, i: nat, radix: nat, sign: bool, sig: nat, prev: nat) -> Scan
        decreases b.len() - i, 1nat,
    {
        if i >= b.len() {
            Scan::End(sig)
        } else {
            let c = b[i as int];
            let d = digit_value(c);
            if d < radix {
                let s2 = self.int_digit(sig, d, radix);
                if self.int_overflow(prev, s2, d, radix) {
                    Scan::Value(self.with_sign_bits(self.infinity_bits(), sign))
                } else {
                    self.int_scan(b, i + 1, radix, sign, s2, s2)
                }
            } else if is_exp_marker(c) {
                Scan::Exp(i, sig)
            } else if c == 46 {
                self.frac_scan(b, i + 1, radix, sign, sig, prev, self.one_bits())
            } else {
                Scan::Fail(FloatErrorKind::Invalid)
            }
        }
    }

    /// Scans fraction digits from index `i`: each digit is worth a radix-th of the one before
    /// and is added to the significand; a sum that shrinks overflows to infinity.
    pub open spec fn frac_scan(
        self,
        b: Seq<u8>,
        i: nat,
        radix: nat,
        sign: bool,
        sig: nat,
        prev: nat,
        power: nat,
    ) -> Scan
        decreases b.len() - i, 0nat,
    {
        if i >= b.len() {
            Scan::End(sig)
        } else {
            let c = b[i as int];
            let d = digit_value(c);
            if d < radix {
                let p2 = self.div_int_bits(power, radix as int);
                let s2 = self.frac_digit(sig, p2, d);
                if self.lt_bits(s2, prev) {
                    Scan::Value(self.with_sign_bits(self.infinity_bits(), sign))
                } else {
                    self.frac_scan(b, i + 1, radix, sign, s2, s2, p2)
                }
            } else if is_exp_marker(c) {
                Scan::Exp(i, sig)
            } else {
                Scan::Fail(FloatErrorKind::Invalid)
            }
        }
    }

    /// Applies the exponent that follows the marker at index `i` to `sig`: `e` or `E` for
    /// radix 10 and `p` or `P` for radix 16, then an optional sign and a decimal machine word,
    /// taken modulo `2^32` as a signed power.
    pub open spec fn exp_part(self, b: Seq<u8>, i: nat, radix: nat, sig: nat) -> Result<nat, FloatErrorKind> {
        let c = b[i as int];
        let rest = b.subrange(i + 1int, b.len() as int);
        if !(((c == 101 || c == 69) && radix == 10) || ((c == 112 || c == 80) && radix == 16)) {
            Err(FloatErrorKind::Invalid)
        } else if rest.len() == 0 {
            Err(FloatErrorKind::Invalid)
        } else {
            let base = self.from_int_bits(if radix == 10 { 10int } else { 2int });
            let neg = rest[0] == 45;
            let num = if rest[0] == 45 || rest[0] == 43 { parse_usize(rest.drop_first()) } else { parse_usize(rest) };
            match num {
                None => Err(FloatErrorKind::Invalid),
                Some(e) => {
                    let p = self.powi_bits(base, wrap_int(e as int, true, 32));
                    Ok(self.mul_bits(sig, if neg { self.recip_bits(p) } else { p }))
                },
            }
        }
    }

    /// The number written in `b` in radix `radix`: `inf`, `infinity`, `nan` with an optional
    /// minus sign in any case, or an optional minus sign, digits, optionally a point and more
    /// digits, and optionally an exponent.
    pub open spec fn parse_bits(self, b: Seq<u8>, radix: nat) -> Result<nat, FloatErrorKind> {
        if lower_eq(b, seq![105u8, 110, 102]) || lower_eq(b, seq![105u8, 110, 102, 105, 110, 105, 116, 121]) {
            Ok(self.infinity_bits())
        } else if lower_eq(b, seq![45u8, 105, 110, 102]) || lower_eq(b, seq![45u8, 105, 110, 102, 105, 110, 105, 116, 121]) {
            Ok(self.with_sign_bits(self.infinity_bits(), true))
        } else if lower_eq(b, seq![110u8, 97, 110]) {
            Ok(self.snan_bits())
        } else if lower_eq(b, seq![45u8, 110, 97, 110]) {
            Ok(self.xor_sign_bits(self.snan_bits(), true))
        } else if b.len() == 0 || (b.len() == 1 && b[0] == 45) {
            Err(FloatErrorKind::Empty)
        } else {
            let sign = b[0] == 45;
            let start: nat = if sign { 1 } else { 0 };
            match self.int_scan(b, start, radix, sign, 0, 0) {
                Scan::Value(v) => Ok(v),
                Scan::Fail(k) => Err(k),
                Scan::End(sig) => Ok(self.with_sign_bits(sig, sign)),
                Scan::Exp(i, sig) => self.exp_part(b, i, radix, self.with_sign_bits(sig, sign)),
            }
        }
    }
}

/// Where scanning the digits of a number ended, as computed.
pub enum ScanOut {
    Value(u128),
    Fail(FloatErrorKind),
    Exp(usize, u128),
    End(u128),
}

pub open spec fn scan_view(o: ScanOut) -> Scan {
    match o {
        ScanOut::Value(v) => Scan::Value(v as nat),
        ScanOut::Fail(k) => Scan::Fail(k),
        ScanOut::Exp(i, v) => Scan::Exp(i as nat, v as nat),
        ScanOut::End(v) => Scan::End(v as nat),
    }
}

pub fn digit_value_exec(c: u8) -> (r: u8)
    ensures
        r == digit_value(c),
{
    if 48 <= c && c <= 57 {
        c - 48
    } else if 97 <= c && c <= 122 {
        c - 97 + 10
    } else if 65 <= c && c <= 90 {
        c - 65 + 10
    } else {
        99
    }
}

pub fn lower_eq_exec(b: &[u8], lit: &[u8]) -> (r: bool)
    ensures
        r == lower_eq(b@, lit@),
{
    if b.len() != lit.len() {
        return false;
    }
    let mut i: usize = 0;
    while i < b.len()
        invariant
            b.len() == lit.len(),
            i <= b.len(),
            forall|k: int| 0 <= k < i ==> ascii_lower(#[trigger] b@[k]) == lit@[k],
        decreases b.len() - i,
    {
        let c = b[i];
        let lc: u8 = if 65 <= c && c <= 90 { c + 32 } else { c };
        if lc != lit[i] {
            return false;
        }
        i = i + 1;
    }
    true
}

pub proof fn lemma_decimal_prefix(s: Seq<u8>, k: nat)
    requires
        all_decimal(s),
        k <= s.len(),
    ensures
        decimal_value(s.subrange(0, k as int)) <= decimal_value(s),
    decreases s.len() - k,
{
    if k < s.len() {
        let t = s.drop_last();
        assert(all_decimal(t));
        lemma_decimal_prefix(t, k);
        assert(t.subrange(0, k as int) =~= s.subrange(0, k as int));
    } else {
        assert(s.subrange(0, k as int) =~= s);
    }
}

/// `parse_usize` of the bytes of `b` from index `from`.
pub fn parse_usize_exec(b: &[u8], from: usize) -> (r: Option<usize>)
    requires
        from <= b.len(),
    ensures
        r matches Some(v) ==> parse_usize(b@.subrange(from as int, b.len() as int)) == Some(v as nat),
        r is None <==> parse_usize(b@.subrange(from as int, b.len() as int)) is None,
{
    let ghost s = b@.subrange(from as int, b.len() as int);
    let bs: usize = if from < b.len() && b[from] == 43 { from + 1 } else { from };
    let ghost body = b@.subrange(bs as int, b.len() as int);
    assert(body =~= (if s.len() > 0 && s[0] == 43 { s.drop_first() } else { s }));
    if bs >= b.len() {
        return None;
    }
    let mut v: usize = 0;
    let mut j: usize = bs;
    assert(b@.subrange(bs as int, bs as int) =~= Seq::<u8>::empty());
    while j < b.len()
        invariant
            bs <= j <= b.len(),
            body == b@.subrange(bs as int, b.len() as int),
            s == b@.subrange(from as int, b.len() as int),
            body == (if s.len() > 0 && s[0] == 43 { s.drop_first() } else { s }),
            all_decimal(b@.subrange(bs as int, j as int)),
            v == decimal_value(b@.subrange(bs as int, j as int)),
        decreases b.len() - j,
    {
        let c = b[j];
        if c < 48 || c > 57 {
            proof {
                assert(body[j - bs] == c);
                assert(!all_decimal(body));
            }
            return None;
        }
        let ghost pre = b@.subrange(bs as int, (j + 1) as int);
        proof {
            assert(pre.drop_last() =~= b@.subrange(bs as int, j as int));
            assert(all_decimal(pre));
        }
        let next = match v.checked_mul(10) {
            Some(t) => t.checked_add((c - 48) as usize),
            None => None,
        };
        match next {
            Some(n) => {
                v = n;
            },
            None => {
                proof {
                    assert(decimal_value(pre) == v * 10 + (c - 48));
                    assert(decimal_value(pre) > usize::MAX);
                    if all_decimal(body) {
                        assert(pre =~= body.subrange(0, (j + 1 - bs) as int));
                        lemma_decimal_prefix(body, (j + 1 - bs) as nat);
                    }
                }
                return None;
            },
        }
        j = j + 1;
    }
    assert(b@.subrange(bs as int, b.len() as int) =~= body);
    Some(v)
}

impl Format {
    pub open spec fn scan_bits_ok(self, o: ScanOut, len: nat) -> bool {
        match o {
            ScanOut::Value(v) => v < self.limit(),
            ScanOut::Fail(_) => true,
            ScanOut::Exp(i, v) => v < self.limit() && i < len,
            ScanOut::End(v) => v < self.limit(),
        }
    }

    fn int_step_exec(&self, sig: u128, prev: u128, d: u8, radix: u32) -> (r: (u128, bool))
        requires
            self.binary(),
            sig < self.limit(),
            prev < self.limit(),
        ensures
            r.0 == self.int_digit(sig as nat, d as nat, radix as nat),
            r.1 == self.int_overflow(prev as nat, r.0 as nat, d as nat, radix as nat),
            r.0 < self.limit(),
    {
        let m = self.mul_int_exec(sig, false, radix as u128);
        let s2 = self.add_int_exec(m, false, d as u128, false);
        if self.classify(prev) == FpCategory::Zero {
            return (s2, false);
        }
        let le = match self.partial_order_exec(s2, prev) {
            Some(o) => o <= 0,
            None => false,
        };
        let back = self.add_int_exec(s2, false, d as u128, true);
        let q = self.div_int_exec(back, false, radix as u128);
        let same = match self.partial_order_exec(prev, q) {
            Some(o) => o == 0,
            None => false,
        };
        (s2, le || !same)
    }

    fn frac_step_exec(&self, sig: u128, prev: u128, power: u128, d: u8, radix: u32) -> (r: (u128, u128, bool))
        requires
            self.binary(),
            sig < self.limit(),
            prev < self.limit(),
            power < self.limit(),
        ensures
            r.1 == self.div_int_bits(power as nat, radix as int),
            r.0 == self.frac_digit(sig as nat, r.1 as nat, d as nat),
            r.2 == self.lt_bits(r.0 as nat, prev as nat),
            r.0 < self.limit(),
            r.1 < self.limit(),
    {
        let p2 = self.div_int_exec(power, false, radix as u128);
        let t = self.mul_int_exec(p2, false, d as u128);
        let s2 = self.add_signed_exec(sig, t, false);
        let lt = match self.partial_order_exec(s2, prev) {
            Some(o) => o < 0,
            None => false,
        };
        (s2, p2, lt)
    }

    /// Scans the digits of a number from index `start`.
    pub fn scan_exec(&self, b: &[u8], start: usize, radix: u32, sign: bool) -> (r: ScanOut)
        requires
            self.binary(),
            start <= b.len(),
            2 <= radix <= 36,
        ensures
            scan_view(r) == self.int_scan(b@, start as nat, radix as nat, sign, 0, 0),
            self.scan_bits_ok(r, b.len() as nat),
    {
        let ghost target = self.int_scan(b@, start as nat, radix as nat, sign, 0, 0);
        let mut i: usize = start;
        let mut sig: u128 = 0;
        let mut prev: u128 = 0;
        let mut power: u128 = 0;
        let mut frac = false;
        proof {
            self.lemma_wf();
            vstd::arithmetic::power2::lemma_pow2_pos(self.u_bits as nat);
        }
        while i < b.len()
            invariant
                self.binary(),
                start <= i <= b.len(),
                2 <= radix <= 36,
                sig < self.limit(),
                prev < self.limit(),
                power < self.limit(),
                target == self.int_scan(b@, start as nat, radix as nat, sign, 0, 0),
                target == (if frac {
                    self.frac_scan(b@, i as nat, radix as nat, sign, sig as nat, prev as nat, power as nat)
                } else {
                    self.int_scan(b@, i as nat, radix as nat, sign, sig as nat, prev as nat)
                }),
            decreases b.len() - i,
        {
            let c = b[i];
            let d = digit_value_exec(c);
            if (d as u32) < radix {
                if !frac {
                    let (s2, over) = self.int_step_exec(sig, prev, d, radix);
                    if over {
                        let v = self.with_sign(self.infinity_exec(), sign);
                        proof {
                            reveal_with_fuel(Format::int_scan, 2);
                            assert(digit_value(b@[i as int]) < radix);
                            assert(target == self.int_scan(b@, i as nat, radix as nat, sign, sig as nat, prev as nat));
                        }
                        return ScanOut::Value(v);
                    }
                    sig = s2;
                    prev = s2;
                } else {
                    let (s2, p2, lt) = self.frac_step_exec(sig, prev, power, d, radix);
                    if lt {
                        return ScanOut::Value(self.with_sign(self.infinity_exec(), sign));
                    }
                    sig = s2;
                    prev = s2;
                    power = p2;
                }
            } else if c == 101 || c == 69 || c == 112 || c == 80 {
                proof {
                    reveal_with_fuel(Format::int_scan, 2);
                    reveal_with_fuel(Format::frac_scan, 2);
                }
                return ScanOut::Exp(i, sig);
            } else if c == 46 && !frac {
                frac = true;
                power = self.one_exec();
            } else {
                return ScanOut::Fail(FloatErrorKind::Invalid);
            }
            i = i + 1;
        }
        ScanOut::End(sig)
    }

    /// Applies the exponent that follows the marker at index `i`.
    pub fn exp_part_exec(&self, b: &[u8], i: usize, radix: u32, sig: u128) -> (r: Result<u128, FloatErrorKind>)
        requires
            self.binary(),
            i < b.len(),
            sig < self.limit(),
        ensures
            match r {
                Ok(v) => self.exp_part(b@, i as nat, radix as nat, sig as nat) == Ok::<nat, FloatErrorKind>(v as nat)
                    && v < self.limit(),
                Err(k) => self.exp_part(b@, i as nat, radix as nat, sig as nat) == Err::<nat, FloatErrorKind>(k),
            },
    {
        let c = b[i];
        let ghost rest = b@.subrange(i + 1, b.len() as int);
        if !(((c == 101 || c == 69) && radix == 10) || ((c == 112 || c == 80) && radix == 16)) {
            return Err(FloatErrorKind::Invalid);
        }
        if i + 1 >= b.len() {
            return Err(FloatErrorKind::Invalid);
        }
        let base = self.from_int_exec(false, if radix == 10 { 10 } else { 2 });
        let r0 = b[i + 1];
        let neg = r0 == 45;
        proof {
            assert(rest.drop_first() =~= b@.subrange(i + 2, b.len() as int));
            assert(rest[0] == r0);
        }
        let num = if r0 == 45 || r0 == 43 { parse_usize_exec(b, i + 2) } else { parse_usize_exec(b, i + 1) };
        match num {
            None => Err(FloatErrorKind::Invalid),
            Some(e) => {
                let w: i32 = <i32 as AnyInt>::wrap_sign_mag(false, e as u128);
                let (wn, wm) = w.sign_mag();
                let p = self.powi_exec(base, wn, wm);
                let p2 = if neg { self.recip_exec(p) } else { p };
                Ok(self.mul_exec(sig, p2))
            },
        }
    }

    pub fn parse_exec(&self, b: &[u8], radix: u32) -> (r: Result<u128, FloatErrorKind>)
        requires
            self.binary(),
            2 <= radix <= 36,
        ensures
            match r {
                Ok(v) => self.parse_bits(b@, radix as nat) == Ok::<nat, FloatErrorKind>(v as nat) && v < self.limit(),
                Err(k) => self.parse_bits(b@, radix as nat) == Err::<nat, FloatErrorKind>(k),
            },
    {
        let inf: [u8; 3] = [105, 110, 102];
        let infinity: [u8; 8] = [105, 110, 102, 105, 110, 105, 116, 121];
        let ninf: [u8; 4] = [45, 105, 110, 102];
        let ninfinity: [u8; 9] = [45, 105, 110, 102, 105, 110, 105, 116, 121];
        let nan: [u8; 3] = [110, 97, 110];
        let nnan: [u8; 4] = [45, 110, 97, 110];
        proof {
            assert(inf@ =~= seq![105u8, 110, 102]);
            assert(infinity@ =~= seq![105u8, 110, 102, 105, 110, 105, 116, 121]);
            assert(ninf@ =~= seq![45u8, 105, 110, 102]);
            assert(ninfinity@ =~= seq![45u8, 105, 110, 102, 105, 110, 105, 116, 121]);
            assert(nan@ =~= seq![110u8, 97, 110]);
            assert(nnan@ =~= seq![45u8, 110, 97, 110]);
        }
        if lower_eq_exec(b, inf.as_slice()) || lower_eq_exec(b, infinity.as_slice()) {
            return Ok(self.infinity_exec());
        }
        if lower_eq_exec(b, ninf.as_slice()) || lower_eq_exec(b, ninfinity.as_slice()) {
            return Ok(self.with_sign(self.infinity_exec(), true));
        }
        if lower_eq_exec(b, nan.as_slice()) {
            return Ok(self.snan_exec());
        }
        if lower_eq_exec(b, nnan.as_slice()) {
            return Ok(self.xor_sign(self.snan_exec(), true));
        }
        if b.len() == 0 || (b.len() == 1 && b[0] == 45) {
            return Err(FloatErrorKind::Empty);
        }
        let sign = b[0] == 45;
        let start: usize = if sign { 1 } else { 0 };
        match self.scan_exec(b, start, radix, sign) {
            ScanOut::Value(v) => Ok(v),
            ScanOut::Fail(k) => Err(k),
            ScanOut::End(sig) => Ok(self.with_sign(sig, sign)),
            ScanOut::Exp(i, sig) => {
                let ss = self.with_sign(sig, sign);
                self.exp_part_exec(b, i, radix, ss)
            },
        }
    }
}

} // verus!
