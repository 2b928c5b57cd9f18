use vstd::prelude::*;
use crate::format::{Format, FpCategory};
use crate::fp::Fp;
use crate::repr::FpRepr;

verus! {

impl Format {
    /// The larger of two numbers (`maximum` when `propagate`: a NaN wins over a number).
    pub open spec fn max_bits(self, x: nat, y: nat, propagate: bool) -> nat {
        let nx = self.category(x) == FpCategory::Nan;
        let ny = self.category(y) == FpCategory::Nan;
        let s1 = self.sign_of(x);
        let s2 = self.sign_of(y);
        if nx && ny {
            if s1 == s2 { self.add_nan_bits(x, y) } else if s1 { y } else { x }
        } else if nx || ny {
            if propagate { self.add_nan_bits(x, y) } else if nx { y } else { x }
        } else {
            let o = self.total_order(x, y);
            if o == 0 {
                if s1 && !s2 { y } else { x }
            } else if o > 0 {
                x
            } else {
                y
            }
        }
    }

    /// The smaller of two numbers (`minimum` when `propagate`: a NaN wins over a number).
    pub open spec fn min_bits(self, x: nat, y: nat, propagate: bool) -> nat {
        let nx = self.category(x) == FpCategory::Nan;
        let ny = self.category(y) == FpCategory::Nan;
        let s1 = self.sign_of(x);
        let s2 = self.sign_of(y);
        if nx && ny {
            if s1 == s2 { self.add_nan_bits(x, y) } else if s2 { y } else { x }
        } else if nx || ny {
            if propagate { self.add_nan_bits(x, y) } else if nx { y } else { x }
        } else {
            let o = self.total_order(x, y);
            if o == 0 {
                if !s1 && s2 { y } else { x }
            } else if o > 0 {
                y
            } else {
                x
            }
        }
    }
}

/// `max` gives an upper bound of its operands and `min` a lower bound: for numbers other than
/// NaN the result is one of them and compares greater (smaller) than or equal to both; a NaN
/// operand of `max` or `min` gives the other operand.
pub proof fn lemma_max_min_bounds(f: Format, x: nat, y: nat)
    requires
        f.wf(),
    ensures
        f.category(x) != FpCategory::Nan && f.category(y) != FpCategory::Nan ==> {
            let m = f.max_bits(x, y, false);
            let n = f.min_bits(x, y, false);
            &&& (m == x || m == y)
            &&& (n == x || n == y)
            &&& (f.partial_order(x, m) == Some(-1int) || f.partial_order(x, m) == Some(0int))
            &&& (f.partial_order(y, m) == Some(-1int) || f.partial_order(y, m) == Some(0int))
            &&& (f.partial_order(n, x) == Some(-1int) || f.partial_order(n, x) == Some(0int))
            &&& (f.partial_order(n, y) == Some(-1int) || f.partial_order(n, y) == Some(0int))
        },
        f.category(x) != FpCategory::Nan && f.category(y) == FpCategory::Nan ==> f.max_bits(x, y, false) == x
            && f.min_bits(x, y, false) == x,
        f.category(x) == FpCategory::Nan && f.category(y) != FpCategory::Nan ==> f.max_bits(x, y, false) == y
            && f.min_bits(x, y, false) == y,
{
    crate::order::lemma_total_order_antisymmetric(f, x, y);
    crate::order::lemma_total_order_antisymmetric(f, y, x);
}

impl<U: FpRepr, const SIGN_BIT: bool, const EXP_SIZE: usize, const INT_SIZE: usize, const FRAC_SIZE: usize, const EXP_BASE: usize> Fp<U, SIGN_BIT, EXP_SIZE, INT_SIZE, FRAC_SIZE, EXP_BASE> {
    /// `rhs` when it is a signaling NaN or `self` is no NaN, else `self`.
    pub fn add_nan(self, rhs: Self) -> (r: Self)
        requires
            Self::wf(),
        ensures
            r.nat_bits() == Self::layout().add_nan_bits(self.nat_bits(), rhs.nat_bits()),
    {
        if rhs.is_snan() || !self.is_nan() {
            rhs
        } else {
            self
        }
    }

    fn max_with(self, other: Self, propagate: bool) -> (r: Self)
        requires
            Self::wf(),
        ensures
            r.nat_bits() == Self::layout().max_bits(self.nat_bits(), other.nat_bits(), propagate),
    {
        let nx = self.is_nan();
        let ny = other.is_nan();
        if nx && ny {
            let s1 = self.is_sign_negative();
            let s2 = other.is_sign_negative();
            if s1 == s2 { self.add_nan(other) } else if s1 { other } else { self }
        } else if nx || ny {
            if propagate { self.add_nan(other) } else if nx { other } else { self }
        } else {
            let o = Self::layout_exec().total_order_exec(self.raw(), other.raw());
            if o == 0 {
                if self.is_sign_negative() && other.is_sign_positive() { other } else { self }
            } else if o > 0 {
                self
            } else {
                other
            }
        }
    }

    fn min_with(self, other: Self, propagate: bool) -> (r: Self)
        requires
            Self::wf(),
        ensures
            r.nat_bits() == Self::layout().min_bits(self.nat_bits(), other.nat_bits(), propagate),
    {
        let nx = self.is_nan();
        let ny = other.is_nan();
        if nx && ny {
            let s1 = self.is_sign_negative();
            let s2 = other.is_sign_negative();
            if s1 == s2 { self.add_nan(other) } else if s2 { other } else { self }
        } else if nx || ny {
            if propagate { self.add_nan(other) } else if nx { other } else { self }
        } else {
            let o = Self::layout_exec().total_order_exec(self.raw(), other.raw());
            if o == 0 {
                if self.is_sign_positive() && other.is_sign_negative() { other } else { self }
            } else if o > 0 {
                other
            } else {
                self
            }
        }
    }

    /// The larger number, ignoring a NaN; a positive zero beats a negative one.
    pub fn max(self, other: Self) -> (r: Self)
        requires
            Self::wf(),
        ensures
            r.nat_bits() == Self::layout().max_bits(self.nat_bits(), other.nat_bits(), false),
    {
        self.max_with(other, false)
    }

    /// The smaller number, ignoring a NaN; a negative zero beats a positive one.
    pub fn min(self, other: Self) -> (r: Self)
        requires
            Self::wf(),
        ensures
            r.nat_bits() == Self::layout().min_bits(self.nat_bits(), other.nat_bits(), false),
    {
        self.min_with(other, false)
    }

    /// The larger number, passing a NaN on.
    pub fn maximum(self, other: Self) -> (r: Self)
        requires
            Self::wf(),
        ensures
            r.nat_bits() == Self::layout().max_bits(self.nat_bits(), other.nat_bits(), true),
    {
        self.max_with(other, true)
    }

    /// The smaller number, passing a NaN on.
    pub fn minimum(self, other: Self) -> (r: Self)
        requires
            Self::wf(),
        ensures
            r.nat_bits() == Self::layout().min_bits(self.nat_bits(), other.nat_bits(), true),
    {
        self.min_with(other, true)
    }

    /// `min` when `self < min`, then `max` when it is `> max`, else `self`.
    /// `min` and `max` must be ordered with `min <= max` (the caller's obligation).
    pub fn clamp(self, min: Self, max: Self) -> (r: Self)
        requires
            Self::wf(),
            Self::layout().partial_order(min.nat_bits(), max.nat_bits()) matches Some(o) && o <= 0,
        ensures
            r.nat_bits() == (if Self::layout().partial_order(self.nat_bits(), min.nat_bits()) == Some(-1int) {
                min.nat_bits()
            } else if Self::layout().partial_order(self.nat_bits(), max.nat_bits()) == Some(1int) {
                max.nat_bits()
            } else {
                self.nat_bits()
            }),
    {
        let f = Self::layout_exec();
        let below = match f.partial_order_exec(self.raw(), min.raw()) {
            Some(o) => o == -1,
            None => false,
        };
        if below {
            return min;
        }
        let above = match f.partial_order_exec(self.raw(), max.raw()) {
            Some(o) => o == 1,
            None => false,
        };
        if above {
            return max;
        }
        self
    }
}

} // verus!
