//! `EXP_BASE^x` for exponent base 2: the integer part of the power is built from the exponent
//! field, the fractional power `2^f` for the fraction `f` of the shifted argument is handed in.
use vstd::prelude::*;
use vstd::arithmetic::power2::*;
use crate::format::{Format, FpCategory};
use crate::fp::Fp;
use crate::repr::FpRepr;
use crate::round_int::IntRounding;
use crate::repr::lemma_pow2_widths;
use crate::arith::pow2_u128;

verus! {

/// A count as an integer.
pub open spec fn count_value(m: Option<u32>) -> Option<int> {
    match m {
        Some(k) => Some(k as int),
        None => None,
    }
}

/// `o` says "less than or equal".
pub open spec fn order_le(o: Option<int>) -> bool {
    o == Some(-1int) || o == Some(0int)
}

/// `o` says "greater than or equal".
pub open spec fn order_ge(o: Option<int>) -> bool {
    o == Some(1int) || o == Some(0int)
}

impl Format {
    /// At or below minus this bound a negative argument takes the underflow shortcut: half the
    /// exponent range plus the mantissa digits, less one.
    pub open spec fn expb_low(self) -> int {
        pow2((self.exp_size - 1) as nat) + self.mant_digits() - 1
    }

    /// At or above this bound a positive argument overflows: half the exponent range.
    pub open spec fn expb_high(self) -> int {
        pow2((self.exp_size - 1) as nat) as int
    }

    /// The result when it is decided before the fraction is needed: NaN stays, `2^-inf = 0`,
    /// `2^inf = inf`, `2^0 = 1`, the two shortcuts past the bounds, and an argument too large
    /// to split into at most `2^32 - 1` equal parts.
    pub open spec fn expb_early(self, x: nat) -> Option<nat> {
        let c = self.category(x);
        if c == FpCategory::Nan {
            Some(x)
        } else if c == FpCategory::Infinite {
            if self.sign_of(x) { Some(0) } else { Some(x) }
        } else if c == FpCategory::Zero {
            Some(self.one_bits())
        } else if self.sign_of(x) && order_le(
            self.partial_order(x, self.xor_sign_bits(self.from_int_bits(self.expb_low()), true)),
        ) {
            Some(self.mul_bits(self.xor_sign_bits(pow2((self.exp_pos() - self.exp_size / 2) as nat), true), x))
        } else if !self.sign_of(x) && order_ge(self.partial_order(x, self.from_int_bits(self.expb_high()))) {
            Some(self.mul_bits(self.infinity_bits(), x))
        } else if self.category(self.expb_parts_count(x)) != FpCategory::Zero && self.to_int_value(
            self.expb_parts_count(x),
            false,
            32,
        ) is None {
            Some(if self.sign_of(x) { 0 } else { self.infinity_bits() })
        } else {
            None
        }
    }

    /// Into how many equal parts the magnitude is split: `ceil(|x| / (bias / 2))`.
    pub open spec fn expb_parts_count(self, x: nat) -> nat {
        self.round_int_bits(
            self.div_int_bits(self.with_sign_bits(x, false), (self.bias() / 2) as int),
            IntRounding::Ceil,
        )
    }

    /// The number of parts as an integer, when it is not zero.
    pub open spec fn expb_count(self, x: nat) -> Option<int> {
        let mf = self.expb_parts_count(x);
        if self.category(mf) == FpCategory::Zero { None } else { self.to_int_value(mf, false, 32) }
    }

    /// One part of the magnitude plus the bias.
    pub open spec fn expb_shifted(self, x: nat) -> nat {
        let xa = self.with_sign_bits(x, false);
        let xb = match self.expb_count(x) {
            Some(_) => self.div_bits(xa, self.expb_parts_count(x)),
            None => xa,
        };
        self.add_signed_bits(xb, self.from_int_bits(self.bias() as int), false)
    }

    /// The integer part of the shifted part: the exponent field of the power.
    pub open spec fn expb_exponent(self, x: nat) -> nat {
        self.round_int_bits(self.expb_shifted(x), IntRounding::Trunc)
    }

    /// The fraction of the shifted part.
    pub open spec fn expb_fraction_of(self, x: nat) -> nat {
        self.add_signed_bits(self.expb_shifted(x), self.expb_exponent(x), true)
    }

    /// The fraction whose power of two the computation needs, if it needs one.
    pub open spec fn expb_fraction_bits(self, x: nat) -> Option<nat> {
        if self.expb_early(x) is Some || self.category(self.expb_fraction_of(x)) == FpCategory::Zero {
            None
        } else {
            Some(self.expb_fraction_of(x))
        }
    }

    /// The exponent field as an integer, or the sign of the zero or infinity that replaces a
    /// power out of range.
    pub open spec fn expb_field(self, x: nat) -> Result<int, bool> {
        let e = self.expb_exponent(x);
        let inv = self.sign_of(x);
        if self.sign_of(e) {
            Err(!inv)
        } else if self.partial_order(e, self.from_int_bits(self.max_exp() as int)) == Some(1int) {
            Err(inv)
        } else {
            match self.to_int_value(e, false, self.u_bits as nat) {
                Some(v) => Ok(v),
                None => Err(inv),
            }
        }
    }

    /// `2^x`, where `p` stands for `2^f` of the fraction `f` (see `expb_fraction_bits`): the
    /// power of the exponent field times `p`, inverted for a negative `x`, raised to the
    /// number of parts.
    pub open spec fn expb_bits(self, x: nat, p: nat) -> nat {
        match self.expb_early(x) {
            Some(r) => r,
            None => {
                let e = self.expb_exponent(x);
                if self.category(e) == FpCategory::Nan {
                    e
                } else {
                    match self.expb_field(x) {
                        Err(z) => if z { 0 } else { self.infinity_bits() },
                        Ok(ee) => if ee >= pow2(self.exp_size as nat) {
                            // a field wider than the exponent (where `max_exp` rounds up)
                            self.infinity_bits()
                        } else {
                            let y0 = self.encode(0, false, ee as nat, 0) + if self.implicit() {
                                0
                            } else {
                                pow2(self.frac_size as nat)
                            };
                            let y1 = if self.category(self.expb_fraction_of(x)) == FpCategory::Zero {
                                y0
                            } else {
                                self.mul_bits(y0, p)
                            };
                            let y2 = if self.sign_of(x) { self.recip_bits(y1) } else { y1 };
                            match self.expb_count(x) {
                                Some(k) => self.powu_bits(y2, k as nat),
                                None => y2,
                            }
                        },
                    }
                }
            },
        }
    }
}

impl<U: FpRepr, const SIGN_BIT: bool, const EXP_SIZE: usize, const INT_SIZE: usize, const FRAC_SIZE: usize, const EXP_BASE: usize> Fp<U, SIGN_BIT, EXP_SIZE, INT_SIZE, FRAC_SIZE, EXP_BASE> {
    /// `ceil(|x| / (bias / 2))`.
    fn expb_parts(self) -> (r: Self)
        requires
            Self::binary(),
        ensures
            r.nat_bits() == Self::layout().expb_parts_count(self.nat_bits()),
    {
        let fl = Self::layout_exec();
        self.abs().div_int(fl.bias_exec() / 2).ceil()
    }

    /// The result where it is decided before the fraction is needed.
    fn expb_early(self) -> (r: Option<Self>)
        requires
            Self::binary(),
            EXP_SIZE / 2 <= INT_SIZE + FRAC_SIZE,
        ensures
            r is Some <==> Self::layout().expb_early(self.nat_bits()) is Some,
            r matches Some(v) ==> Self::layout().expb_early(self.nat_bits()) == Some(v.nat_bits()),
    {
        let fl = Self::layout_exec();
        proof {
            fl.lemma_wf();
            lemma_pow2_widths();
            crate::arith::lemma_pow2_mono((EXP_SIZE - 1) as nat, 63);
            crate::integer::lemma_pow2_half_widths();
            assert(INT_SIZE + FRAC_SIZE <= 128);
            crate::arith::lemma_pow2_mono((INT_SIZE + FRAC_SIZE - EXP_SIZE / 2) as nat, fl.exp_pos());
            lemma_pow2_strictly_increases(fl.exp_pos(), fl.u_bits as nat);
        }
        if self.is_nan() {
            return Some(self);
        }
        if self.is_infinite() {
            if self.is_sign_negative() {
                return Some(Self::zero());
            }
            return Some(self);
        }
        if self.is_zero() {
            return Some(Self::one());
        }
        let neg = self.is_sign_negative();
        if neg {
            let low = pow2_u128(EXP_SIZE - 1) + (INT_SIZE + FRAC_SIZE) as u128 - 1;
            let bound = Self::from_int(low).xor_sign(true);
            let le = match fl.partial_order_exec(self.raw(), bound.raw()) {
                Some(o) => o <= 0,
                None => false,
            };
            if le {
                let tiny = Self::from_raw(pow2_u128(INT_SIZE + FRAC_SIZE - EXP_SIZE / 2));
                return Some(tiny.xor_sign(true) * self);
            }
        } else {
            let high = pow2_u128(EXP_SIZE - 1);
            let bound = Self::from_int(high);
            let ge = match fl.partial_order_exec(self.raw(), bound.raw()) {
                Some(o) => o >= 0,
                None => false,
            };
            if ge {
                return Some(Self::infinity() * self);
            }
        }
        let mf = self.expb_parts();
        if !mf.is_zero() && mf.to_int::<u32>().is_none() {
            return Some(if neg { Self::zero() } else { Self::infinity() });
        }
        None
    }

    /// The exponent field and fraction of the shifted part, and the number of parts.
    fn expb_split(self) -> (r: (Self, Self, Option<u32>))
        requires
            Self::binary(),
            Self::layout().expb_early(self.nat_bits()) is None,
        ensures
            r.0.nat_bits() == Self::layout().expb_exponent(self.nat_bits()),
            r.1.nat_bits() == Self::layout().expb_fraction_of(self.nat_bits()),
            count_value(r.2) == Self::layout().expb_count(self.nat_bits()),
    {
        let fl = Self::layout_exec();
        let xa = self.abs();
        let mf = self.expb_parts();
        let mut x = xa;
        let m = if !mf.is_zero() {
            match mf.to_int::<u32>() {
                Some(k) => {
                    x = xa / mf;
                    Some(k)
                },
                None => None,
            }
        } else {
            None
        };
        let x = x + Self::from_int(fl.bias_exec());
        let e = x.trunc();
        let f = x - e;
        (e, f, m)
    }

    /// The fraction `f` whose power `2^f` `expb_with` needs, if it needs one.
    pub fn expb_fraction(self) -> (r: Option<Self>)
        requires
            Self::binary(),
            EXP_SIZE / 2 <= INT_SIZE + FRAC_SIZE,
        ensures
            r matches Some(f) ==> Self::layout().expb_fraction_bits(self.nat_bits()) == Some(f.nat_bits()),
            r is None <==> Self::layout().expb_fraction_bits(self.nat_bits()) is None,
    {
        if self.expb_early().is_some() {
            return None;
        }
        let (_, f, _) = self.expb_split();
        if f.is_zero() { None } else { Some(f) }
    }

    /// The exponent field of the power, or the sign of the zero or infinity that replaces it.
    fn expb_field(self, e: Self) -> (r: Result<u128, bool>)
        requires
            Self::binary(),
            e.nat_bits() == Self::layout().expb_exponent(self.nat_bits()),
        ensures
            match r {
                Ok(v) => Self::layout().expb_field(self.nat_bits()) == Ok::<int, bool>(v as int),
                Err(z) => Self::layout().expb_field(self.nat_bits()) == Err::<int, bool>(z),
            },
    {
        let fl = Self::layout_exec();
        proof {
            lemma_pow2_widths();
        }
        let neg = self.is_sign_negative();
        if e.is_sign_negative() {
            return Err(!neg);
        }
        let top = Self::from_int(fl.max_exp_exec());
        let above = match fl.partial_order_exec(e.raw(), top.raw()) {
            Some(o) => o == 1,
            None => false,
        };
        if above {
            return Err(neg);
        }
        match e.to_int::<u128>() {
            Some(v) => {
                if fl.u_bits == 128 || v < pow2_u128(fl.u_bits) {
                    Ok(v)
                } else {
                    Err(neg)
                }
            },
            None => Err(neg),
        }
    }

    /// `EXP_BASE^self` for exponent base 2, given `frac_pow`, the power `2^f` of the fraction
    /// that `expb_fraction` returns (unused where there is none). NaN stays, zero gives one,
    /// positive infinity stays and negative infinity gives zero.
    pub fn expb_with(self, frac_pow: Self) -> (r: Self)
        requires
            Self::binary(),
            EXP_SIZE / 2 <= INT_SIZE + FRAC_SIZE,
        ensures
            r.nat_bits() == Self::layout().expb_bits(self.nat_bits(), frac_pow.nat_bits()),
            self.category() == FpCategory::Nan ==> r.nat_bits() == self.nat_bits(),
            self.category() == FpCategory::Zero ==> r.nat_bits() == Self::layout().one_bits(),
            self.category() == FpCategory::Infinite && !self.negative() ==> r.nat_bits() == self.nat_bits(),
            self.category() == FpCategory::Infinite && self.negative() ==> r.nat_bits() == 0,
    {
        let fl = Self::layout_exec();
        proof {
            fl.lemma_wf();
            lemma_pow2_widths();
        }
        match self.expb_early() {
            Some(v) => {
                return v;
            },
            None => {},
        }
        let neg = self.is_sign_negative();
        let (e, f, m) = self.expb_split();
        if e.is_nan() {
            return e;
        }
        match self.expb_field(e) {
            Err(z) => if z { Self::zero() } else { Self::infinity() },
            Ok(ee) => {
                proof {
                    crate::arith::lemma_pow2_mono(EXP_SIZE as nat, 64);
                }
                if ee >= pow2_u128(EXP_SIZE) {
                    return Self::infinity();
                }
                let bits = if INT_SIZE == 0 {
                    fl.encode_exec(false, ee, 0)
                } else {
                    proof {
                        lemma_pow2_strictly_increases(FRAC_SIZE as nat, fl.exp_pos());
                    }
                    fl.encode_exec(false, ee, pow2_u128(FRAC_SIZE))
                };
                let mut y = Self::from_raw(bits);
                if !f.is_zero() {
                    y = y * frac_pow;
                }
                if neg {
                    y = y.recip();
                }
                match m {
                    Some(k) => y.powu(k),
                    None => y,
                }
            },
        }
    }
}

} // verus!
