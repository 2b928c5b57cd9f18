use vstd::prelude::*;
use core::cmp::Ordering;
use crate::fp::Fp;
use crate::repr::FpRepr;

verus! {

/// `Less`, `Equal` or `Greater` for a negative, zero or positive number.
pub open spec fn ordering_of(i: int) -> Ordering {
    if i < 0 {
        Ordering::Less
    } else if i == 0 {
        Ordering::Equal
    } else {
        Ordering::Greater
    }
}

pub fn ordering_exec(i: i8) -> (r: Ordering)
    ensures
        i < 0 ==> r == Ordering::Less,
        i == 0 ==> r == Ordering::Equal,
        i > 0 ==> r == Ordering::Greater,
{
    if i < 0 {
        Ordering::Less
    } else if i == 0 {
        Ordering::Equal
    } else {
        Ordering::Greater
    }
}

impl<U: FpRepr, const SIGN_BIT: bool, const EXP_SIZE: usize, const INT_SIZE: usize, const FRAC_SIZE: usize, const EXP_BASE: usize> Fp<U, SIGN_BIT, EXP_SIZE, INT_SIZE, FRAC_SIZE, EXP_BASE> {
    /// The total order of IEEE 754: negative numbers before positive ones, and by magnitude:
    /// finite numbers, infinity, signaling NaN, quiet NaN.
    pub fn total_cmp(self, other: Self) -> (r: Ordering)
        requires
            Self::wf(),
        ensures
            r == ordering_of(Self::layout().total_order(self.nat_bits(), other.nat_bits())),
    {
        ordering_exec(Self::layout_exec().total_order_exec(self.raw(), other.raw()))
    }

    /// The total order of the magnitudes.
    pub fn abs_total_cmp(self, other: Self) -> (r: Ordering)
        requires
            Self::wf(),
        ensures
            r == ordering_of(Self::layout().abs_order(self.nat_bits(), other.nat_bits())),
    {
        ordering_exec(Self::layout_exec().abs_order_exec(self.raw(), other.raw()))
    }
}

} // verus!

verus! {

pub open spec fn option_ordering(o: Option<int>) -> Option<Ordering> {
    match o {
        Some(i) => Some(ordering_of(i)),
        None => None,
    }
}

impl<U: FpRepr, const SIGN_BIT: bool, const EXP_SIZE: usize, const INT_SIZE: usize, const FRAC_SIZE: usize, const EXP_BASE: usize> PartialEq for Fp<U, SIGN_BIT, EXP_SIZE, INT_SIZE, FRAC_SIZE, EXP_BASE> {
    fn eq(&self, other: &Self) -> (r: bool) {
        if !Self::wf_exec() {
            return self.raw() == other.raw();
        }
        match Self::layout_exec().partial_order_exec(self.raw(), other.raw()) {
            Some(o) => o == 0,
            None => false,
        }
    }
}

impl<U: FpRepr, const SIGN_BIT: bool, const EXP_SIZE: usize, const INT_SIZE: usize, const FRAC_SIZE: usize, const EXP_BASE: usize> vstd::std_specs::cmp::PartialEqSpecImpl for Fp<U, SIGN_BIT, EXP_SIZE, INT_SIZE, FRAC_SIZE, EXP_BASE> {
    open spec fn obeys_eq_spec() -> bool {
        true
    }

    /// Equal values: never for NaN, always for two zeros.
    open spec fn eq_spec(&self, other: &Self) -> bool {
        if Self::wf() {
            Self::layout().partial_order(self.nat_bits(), other.nat_bits()) == Some(0int)
        } else {
            self.nat_bits() == other.nat_bits()
        }
    }
}

impl<U: FpRepr, const SIGN_BIT: bool, const EXP_SIZE: usize, const INT_SIZE: usize, const FRAC_SIZE: usize, const EXP_BASE: usize> PartialOrd for Fp<U, SIGN_BIT, EXP_SIZE, INT_SIZE, FRAC_SIZE, EXP_BASE> {
    fn partial_cmp(&self, other: &Self) -> (r: Option<Ordering>) {
        if !Self::wf_exec() {
            let a = self.raw();
            let b = other.raw();
            return Some(if a < b { Ordering::Less } else if a == b { Ordering::Equal } else { Ordering::Greater });
        }
        match Self::layout_exec().partial_order_exec(self.raw(), other.raw()) {
            Some(o) => Some(ordering_exec(o)),
            None => None,
        }
    }
}

impl<U: FpRepr, const SIGN_BIT: bool, const EXP_SIZE: usize, const INT_SIZE: usize, const FRAC_SIZE: usize, const EXP_BASE: usize> vstd::std_specs::cmp::PartialOrdSpecImpl for Fp<U, SIGN_BIT, EXP_SIZE, INT_SIZE, FRAC_SIZE, EXP_BASE> {
    open spec fn obeys_partial_cmp_spec() -> bool {
        true
    }

    /// `None` when either is NaN, zeros are equal, otherwise the total order.
    open spec fn partial_cmp_spec(&self, other: &Self) -> Option<Ordering> {
        if Self::wf() {
            option_ordering(Self::layout().partial_order(self.nat_bits(), other.nat_bits()))
        } else {
            Some(ordering_of(self.nat_bits() - other.nat_bits()))
        }
    }
}

} // verus!
