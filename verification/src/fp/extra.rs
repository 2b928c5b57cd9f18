//! Operations composed of the basic arithmetic: midpoint, angles and the square root.
use vstd::prelude::*;
use vstd::arithmetic::power2::*;
use vstd::arithmetic::div_mod::*;
use vstd::arithmetic::mul::*;
use crate::arith::{pow2_u128, lemma_pow2_mono};
use crate::format::{Format, FpCategory};
use crate::repr::lemma_pow2_widths;
use crate::binary::{bitlen, bitlen_exec, lemma_bitlen};
use crate::fp::Fp;
use crate::repr::FpRepr;

verus! {

/// The bits of `π/6` as a double precision number.
pub const FRAC_PI_6_DOUBLE_BITS: u64 = 0x3fe0c152382d7366;

/// The double precision layout.
pub open spec fn double_layout() -> Format {
    Format { sign_bit: true, exp_size: 11, int_size: 0, frac_size: 52, exp_base: 2, u_bits: 64 }
}

impl Format {
    pub open spec fn le_value(self, x: nat, y: nat) -> bool {
        self.partial_order(x, y) matches Some(o) && o <= 0
    }

    pub open spec fn lt_value(self, x: nat, y: nat) -> bool {
        self.partial_order(x, y) matches Some(o) && o < 0
    }

    /// The midpoint of `a` and `b`: halve the sum when no overflow is possible, else halve
    /// each operand that is safe to halve.
    pub open spec fn midpoint_bits(self, a: nat, b: nat) -> nat {
        let lo = self.mul_int_bits(self.min_positive_bits(), 2);
        let hi = self.div_int_bits(self.max_value_bits(), 2);
        let abs_a = self.with_sign_bits(a, false);
        let abs_b = self.with_sign_bits(b, false);
        if self.le_value(abs_a, hi) && self.le_value(abs_b, hi) {
            self.div_int_bits(self.add_signed_bits(a, b, false), 2)
        } else if self.lt_value(abs_a, lo) {
            self.add_signed_bits(a, self.div_int_bits(b, 2), false)
        } else if self.lt_value(abs_b, lo) {
            self.add_signed_bits(self.div_int_bits(a, 2), b, false)
        } else {
            self.add_signed_bits(self.div_int_bits(a, 2), self.div_int_bits(b, 2), false)
        }
    }

    /// `π/180`: the double precision `π/6` in this layout, divided by thirty.
    pub open spec fn frac_pi_180_bits(self) -> nat {
        self.div_bits(self.convert_bits(double_layout(), FRAC_PI_6_DOUBLE_BITS as nat), self.from_int_bits(30))
    }
}

impl Format {
    /// The same layout with an implicit integer bit.
    pub open spec fn implicit_of(self) -> Format {
        Format { int_size: 0, ..self }
    }

    /// The first guess of a square root for a layout with an implicit integer bit: half the
    /// bits with the exponent bias restored.
    pub open spec fn sqrt_guess_bits(self, x: nat) -> nat {
        ((self.bias() + 1) * pow2((self.frac_size - 1) as nat) + x / 2 - pow2((self.frac_size - 1) as nat)) as nat
    }

    /// The first guess of a square root; a layout with an explicit integer bit guesses in the
    /// same layout with an implicit one.
    pub open spec fn sqrt_start_bits(self, x: nat) -> nat {
        if self.implicit() {
            self.sqrt_guess_bits(x)
        } else {
            let g = self.implicit_of();
            self.convert_bits(g, g.sqrt_guess_bits(g.convert_bits(self, x)))
        }
    }

    /// One half.
    pub open spec fn half_bits(self) -> nat {
        self.pack(false, 1, -1)
    }

    /// Up to `n` Newton steps `y = (y + x/y) / 2` towards the square root of `x`, stopping
    /// before a step that is not finite.
    pub open spec fn newton_sqrt(self, x: nat, y: nat, n: nat) -> nat
        decreases n,
    {
        if n == 0 {
            y
        } else {
            let y2 = self.mul_bits(self.half_bits(), self.add_signed_bits(y, self.div_bits(x, y), false));
            if !self.is_finite_bits(y2) {
                y
            } else {
                self.newton_sqrt(x, y2, (n - 1) as nat)
            }
        }
    }

    /// The square root: the magnitude of a zero, NaN stays, the NaN for negative numbers,
    /// infinity stays, and for positive numbers four Newton steps from the first guess.
    pub open spec fn sqrt_bits(self, x: nat) -> nat {
        let c = self.category(x);
        if c == FpCategory::Zero {
            self.with_sign_bits(x, false)
        } else if c == FpCategory::Nan {
            x
        } else if self.sign_of(x) {
            self.snan_bits()
        } else if c == FpCategory::Infinite {
            x
        } else {
            self.newton_sqrt(x, self.sqrt_start_bits(x), 4)
        }
    }

    pub fn sqrt_guess_exec(&self, x: u128) -> (r: u128)
        requires
            self.wf(),
            self.frac_size >= 1,
            x < self.limit(),
        ensures
            r == self.sqrt_guess_bits(x as nat),
            r < self.limit(),
    {
        proof {
            self.lemma_wf();
            lemma_pow2_widths();
            lemma_pow2_mono(self.exp_size as nat, 128);
            lemma_pow2_pos((self.frac_size - 1) as nat);
            lemma_pow2_unfold(self.exp_size as nat);
            lemma_pow2_pos((self.exp_size - 1) as nat);
            let e1 = (self.exp_size - 1) as nat;
            let f1 = (self.frac_size - 1) as nat;
            assert(self.bias() + 1 == pow2(e1));
            lemma_pow2_adds(e1, f1);
            lemma_pow2_mono(e1 + f1 + 2, self.u_bits as nat);
            lemma_pow2_unfold(e1 + f1 + 1);
            lemma_pow2_unfold(e1 + f1 + 2);
            lemma_pow2_unfold(self.u_bits as nat);
            lemma_pow2_mono(self.u_bits as nat, 128);
            lemma_pow2_strictly_increases(f1, 128);
            lemma_pow2_mono(f1, e1 + f1);
            assert(x / 2 < pow2((self.u_bits - 1) as nat));
        }
        let b = self.bias_exec();
        let f1 = pow2_u128(self.frac_size - 1);
        (b + 1) * f1 + x / 2 - f1
    }

    pub fn sqrt_exec(&self, x: u128) -> (r: u128)
        requires
            self.binary(),
            self.frac_size >= 1,
            x < self.limit(),
        ensures
            r == self.sqrt_bits(x as nat),
            r < self.limit(),
    {
        let c = self.classify(x);
        if c == FpCategory::Zero {
            return self.with_sign(x, false);
        }
        if c == FpCategory::Nan {
            return x;
        }
        if self.is_sign_negative(x) {
            return self.snan_exec();
        }
        if c == FpCategory::Infinite {
            return x;
        }
        let y0 = if self.int_size == 0 {
            self.sqrt_guess_exec(x)
        } else {
            let g = Format { int_size: 0, ..*self };
            let gx = g.convert_exec(self, x);
            let gy = g.sqrt_guess_exec(gx);
            self.convert_exec(&g, gy)
        };
        proof {
            lemma_pow2_widths();
            lemma2_to64();
            lemma_pow2_strictly_increases(1, 126);
        }
        let half = self.pack_exec(false, 1, -1);
        let mut y = y0;
        let mut n: u32 = 4;
        while n > 0
            invariant
                self.binary(),
                x < self.limit(),
                y < self.limit(),
                half == self.half_bits(),
                half < self.limit(),
                self.newton_sqrt(x as nat, y as nat, n as nat) == self.newton_sqrt(x as nat, y0 as nat, 4),
                self.sqrt_bits(x as nat) == self.newton_sqrt(x as nat, y0 as nat, 4),
            decreases n,
        {
            let q = self.div_exec(x, y);
            let s = self.add_signed_exec(y, q, false);
            let y2 = self.mul_exec(half, s);
            let c2 = self.classify(y2);
            if c2 == FpCategory::Nan || c2 == FpCategory::Infinite {
                return y;
            }
            y = y2;
            n = n - 1;
        }
        y
    }
}

impl Format {
    /// The magnitude of a number quantized for approximate comparison: the position of its
    /// leading digit (with the exponent) divided by `frac - 2` (at least one).
    pub open spec fn approx_key(self, x: nat) -> nat {
        let e = self.exp_of(x);
        let f = if e == 0 { 2 * self.mant_of(x) } else { self.mant_of(x) + pow2(self.frac_size as nat) };
        let div: nat = (if self.frac_size >= 3 { (self.frac_size - 3) as nat } else { 0nat }) + 1;
        if f != 0 { ((e + bitlen(f) - 1) as nat) / div } else { 0 }
    }

    /// Whether two numbers are about equal: two NaNs, or two numbers each zero or subnormal;
    /// infinities of the same sign; otherwise (infinities taken as the largest number) numbers
    /// of the same sign whose quantized magnitudes differ by at most one, or of opposite signs
    /// whose quantized magnitudes add up to at most one.
    pub open spec fn approx_eq_bits(self, x: nat, y: nat) -> bool {
        let c1 = self.category(x);
        let c2 = self.category(y);
        let se = !self.sign_bit || self.sign_of(x) == self.sign_of(y) || c1 == FpCategory::Zero || c2
            == FpCategory::Zero;
        let small1 = c1 == FpCategory::Zero || c1 == FpCategory::Subnormal;
        let small2 = c2 == FpCategory::Zero || c2 == FpCategory::Subnormal;
        if (c1 == FpCategory::Nan && c2 == FpCategory::Nan) || (small1 && small2) {
            true
        } else if c1 == FpCategory::Infinite && c2 == FpCategory::Infinite {
            se
        } else if c1 == FpCategory::Nan || c2 == FpCategory::Nan {
            false
        } else {
            let x2 = if c1 == FpCategory::Infinite { self.with_sign_bits(self.max_value_bits(), self.sign_of(x)) } else { x };
            let y2 = if c2 == FpCategory::Infinite { self.with_sign_bits(self.max_value_bits(), self.sign_of(y)) } else { y };
            let a = self.approx_key(x2);
            let b = self.approx_key(y2);
            if se { a <= b + 1 && b <= a + 1 } else { a + b <= 1 }
        }
    }

    pub fn approx_key_exec(&self, x: u128) -> (r: u128)
        requires
            self.binary(),
            self.implicit(),
            x < self.limit(),
        ensures
            r == self.approx_key(x as nat),
            r <= 0x1_0000_0000_0000_0080,
    {
        proof {
            self.lemma_wf();
            lemma_pow2_widths();
            lemma_pow2_mono(self.exp_size as nat, 64);
            lemma_pow2_mono(self.frac_size as nat + 1, 120);
            lemma_pow2_strictly_increases(120, 128);
            lemma_pow2_unfold(self.frac_size as nat + 1);
            lemma2_to64();
        }
        let e = self.exp_bits(x);
        let m = self.mant_bits_raw(x);
        let f = if e == 0 { 2 * m } else { m + pow2_u128(self.frac_size) };
        let div: u128 = (if self.frac_size >= 3 { (self.frac_size - 3) as u128 } else { 0 }) + 1;
        if f != 0 {
            proof {
                lemma_bitlen(f as nat);
            }
            let n = e + bitlen_exec(f) as u128 - 1;
            proof {
                lemma_div_is_ordered_by_denominator(n as int, 1, div as int);
            }
            n / div
        } else {
            0
        }
    }

    pub fn approx_eq_exec(&self, x: u128, y: u128) -> (r: bool)
        requires
            self.binary(),
            self.implicit(),
            x < self.limit(),
            y < self.limit(),
        ensures
            r == self.approx_eq_bits(x as nat, y as nat),
    {
        let c1 = self.classify(x);
        let c2 = self.classify(y);
        let se = !self.sign_bit || self.is_sign_negative(x) == self.is_sign_negative(y) || c1 == FpCategory::Zero
            || c2 == FpCategory::Zero;
        let small1 = c1 == FpCategory::Zero || c1 == FpCategory::Subnormal;
        let small2 = c2 == FpCategory::Zero || c2 == FpCategory::Subnormal;
        if (c1 == FpCategory::Nan && c2 == FpCategory::Nan) || (small1 && small2) {
            return true;
        }
        if c1 == FpCategory::Infinite && c2 == FpCategory::Infinite {
            return se;
        }
        if c1 == FpCategory::Nan || c2 == FpCategory::Nan {
            return false;
        }
        let x2 = if c1 == FpCategory::Infinite { self.with_sign(self.max_value_exec(), self.is_sign_negative(x)) } else { x };
        let y2 = if c2 == FpCategory::Infinite { self.with_sign(self.max_value_exec(), self.is_sign_negative(y)) } else { y };
        let a = self.approx_key_exec(x2);
        let b = self.approx_key_exec(y2);
        proof {
            lemma_pow2_mono(self.exp_size as nat, 64);
            lemma2_to64();
        }
        if se {
            a <= b + 1 && b <= a + 1
        } else {
            a + b <= 1
        }
    }
}

impl<U: FpRepr, const SIGN_BIT: bool, const EXP_SIZE: usize, const INT_SIZE: usize, const FRAC_SIZE: usize, const EXP_BASE: usize> Fp<U, SIGN_BIT, EXP_SIZE, INT_SIZE, FRAC_SIZE, EXP_BASE> {
    /// The midpoint of two numbers.
    pub fn midpoint(self, rhs: Self) -> (r: Self)
        requires
            Self::binary(),
        ensures
            r.nat_bits() == Self::layout().midpoint_bits(self.nat_bits(), rhs.nat_bits()),
    {
        let f = Self::layout_exec();
        let lo = Self::min_positive_value().mul_int(2u8);
        let hi = Self::max_value().div_int(2u8);
        let abs_a = self.abs();
        let abs_b = rhs.abs();
        let le_a = match f.partial_order_exec(abs_a.raw(), hi.raw()) {
            Some(o) => o <= 0,
            None => false,
        };
        let le_b = match f.partial_order_exec(abs_b.raw(), hi.raw()) {
            Some(o) => o <= 0,
            None => false,
        };
        if le_a && le_b {
            return (self + rhs).div_int(2u8);
        }
        let lt_a = match f.partial_order_exec(abs_a.raw(), lo.raw()) {
            Some(o) => o < 0,
            None => false,
        };
        if lt_a {
            return self + rhs.div_int(2u8);
        }
        let lt_b = match f.partial_order_exec(abs_b.raw(), lo.raw()) {
            Some(o) => o < 0,
            None => false,
        };
        if lt_b {
            return self.div_int(2u8) + rhs;
        }
        self.div_int(2u8) + rhs.div_int(2u8)
    }

    /// Whether two numbers are about equal (see `approx_eq_bits`), for layouts with exponent
    /// base 2 and an implicit integer bit whose exponent fits in 31 bits.
    pub fn approx_eq(self, rhs: Self) -> (r: bool)
        requires
            Self::binary(),
            INT_SIZE == 0,
            EXP_SIZE <= 31,
        ensures
            r == Self::layout().approx_eq_bits(self.nat_bits(), rhs.nat_bits()),
    {
        Self::layout_exec().approx_eq_exec(self.raw(), rhs.raw())
    }

    /// The square root by Newton's method.
    pub fn sqrt(self) -> (r: Self)
        requires
            Self::binary(),
            FRAC_SIZE >= 1,
        ensures
            r.nat_bits() == Self::layout().sqrt_bits(self.nat_bits()),
    {
        Self::from_raw(Self::layout_exec().sqrt_exec(self.raw()))
    }

    /// `π/180` in this layout.
    fn frac_pi_180() -> (r: Self)
        requires
            Self::binary(),
        ensures
            r.nat_bits() == Self::layout().frac_pi_180_bits(),
    {
        let d = Fp::<u64, true, 11, 0, 52, 2>::from_bits(FRAC_PI_6_DOUBLE_BITS);
        Self::from_fp(d) / Self::from_int(30u8)
    }

    /// Converts radians to degrees: division by `π/180`.
    pub fn to_degrees(self) -> (r: Self)
        requires
            Self::binary(),
        ensures
            r.nat_bits() == Self::layout().div_bits(self.nat_bits(), Self::layout().frac_pi_180_bits()),
    {
        self / Self::frac_pi_180()
    }

    /// Converts degrees to radians: multiplication by `π/180`.
    pub fn to_radians(self) -> (r: Self)
        requires
            Self::binary(),
        ensures
            r.nat_bits() == Self::layout().mul_bits(self.nat_bits(), Self::layout().frac_pi_180_bits()),
    {
        self * Self::frac_pi_180()
    }
}

} // verus!
