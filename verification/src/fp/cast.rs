//! Conversion from numbers of other layouts.
use vstd::prelude::*;
use crate::fp::{Fp, Fps};
use crate::repr::FpRepr;

verus! {

impl<U: FpRepr, const SIGN_BIT: bool, const EXP_SIZE: usize, const INT_SIZE: usize, const FRAC_SIZE: usize, const EXP_BASE: usize> Fps<U, SIGN_BIT, EXP_SIZE, INT_SIZE, FRAC_SIZE, EXP_BASE> {
    /// A number of another layout in this layout, with the sign still to apply.
    pub fn from_fp<V: FpRepr, const S: bool, const E: usize, const I: usize, const F: usize, const B: usize>(fp: Fp<V, S, E, I, F, B>) -> (r: Self)
        requires
            Fp::<U, SIGN_BIT, EXP_SIZE, INT_SIZE, FRAC_SIZE, EXP_BASE>::wf(),
            Fp::<V, S, E, I, F, B>::wf(),
            Fp::<U, SIGN_BIT, EXP_SIZE, INT_SIZE, FRAC_SIZE, EXP_BASE>::layout().converts(Fp::<V, S, E, I, F, B>::layout(), fp.nat_bits()),
        ensures
            (r.0.nat_bits(), r.1) == Fp::<U, SIGN_BIT, EXP_SIZE, INT_SIZE, FRAC_SIZE, EXP_BASE>::layout().convert_parts(
                Fp::<V, S, E, I, F, B>::layout(),
                fp.nat_bits(),
            ),
    {
        let f = Fp::<U, SIGN_BIT, EXP_SIZE, INT_SIZE, FRAC_SIZE, EXP_BASE>::layout_exec();
        let g = Fp::<V, S, E, I, F, B>::layout_exec();
        let (x, s) = f.convert_parts_exec(&g, fp.raw());
        Fps(Fp::from_raw(x), s)
    }

    /// A number of another layout with an extra sign in this layout: the extra signs add up.
    pub fn from_fps<V: FpRepr, const S: bool, const E: usize, const I: usize, const F: usize, const B: usize>(fps: Fps<V, S, E, I, F, B>) -> (r: Self)
        requires
            Fp::<U, SIGN_BIT, EXP_SIZE, INT_SIZE, FRAC_SIZE, EXP_BASE>::wf(),
            Fp::<V, S, E, I, F, B>::wf(),
            Fp::<U, SIGN_BIT, EXP_SIZE, INT_SIZE, FRAC_SIZE, EXP_BASE>::layout().converts(Fp::<V, S, E, I, F, B>::layout(), fps.0.nat_bits()),
        ensures
            r.0.nat_bits() == Fp::<U, SIGN_BIT, EXP_SIZE, INT_SIZE, FRAC_SIZE, EXP_BASE>::layout().convert_parts(
                Fp::<V, S, E, I, F, B>::layout(),
                fps.0.nat_bits(),
            ).0,
            r.1 == (Fp::<U, SIGN_BIT, EXP_SIZE, INT_SIZE, FRAC_SIZE, EXP_BASE>::layout().convert_parts(
                Fp::<V, S, E, I, F, B>::layout(),
                fps.0.nat_bits(),
            ).1 != fps.1),
    {
        let y = Self::from_fp(fps.0);
        Fps(y.0, y.1 != fps.1)
    }
}

impl<U: FpRepr, const SIGN_BIT: bool, const EXP_SIZE: usize, const INT_SIZE: usize, const FRAC_SIZE: usize, const EXP_BASE: usize> Fp<U, SIGN_BIT, EXP_SIZE, INT_SIZE, FRAC_SIZE, EXP_BASE> {
    /// Converts from one custom floating point number to another: the same layout keeps the
    /// bits, a wider fraction of the same kind shifts them, others (between layouts with
    /// exponent base 2) round to nearest with ties to even.
    pub fn from_fp<V: FpRepr, const S: bool, const E: usize, const I: usize, const F: usize, const B: usize>(fp: Fp<V, S, E, I, F, B>) -> (r: Self)
        requires
            Self::wf(),
            Fp::<V, S, E, I, F, B>::wf(),
            Self::layout().converts(Fp::<V, S, E, I, F, B>::layout(), fp.nat_bits()),
        ensures
            r.nat_bits() == Self::layout().convert_bits(Fp::<V, S, E, I, F, B>::layout(), fp.nat_bits()),
    {
        Fps::<U, SIGN_BIT, EXP_SIZE, INT_SIZE, FRAC_SIZE, EXP_BASE>::from_fp(fp).collect()
    }

    /// Converts a number of another layout with an extra sign.
    pub fn from_fps<V: FpRepr, const S: bool, const E: usize, const I: usize, const F: usize, const B: usize>(fps: Fps<V, S, E, I, F, B>) -> (r: Self)
        requires
            Self::wf(),
            Fp::<V, S, E, I, F, B>::wf(),
            Self::layout().converts(Fp::<V, S, E, I, F, B>::layout(), fps.0.nat_bits()),
        ensures
            r.nat_bits() == Self::layout().xor_sign_bits(
                Self::layout().convert_parts(Fp::<V, S, E, I, F, B>::layout(), fps.0.nat_bits()).0,
                Self::layout().convert_parts(Fp::<V, S, E, I, F, B>::layout(), fps.0.nat_bits()).1 != fps.1,
            ),
    {
        Fps::<U, SIGN_BIT, EXP_SIZE, INT_SIZE, FRAC_SIZE, EXP_BASE>::from_fps(fps).collect()
    }
}

} // verus!
