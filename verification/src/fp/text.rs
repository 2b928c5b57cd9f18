//! Numbers from text.
use vstd::prelude::*;
use vstd::string::StringSliceAdditionalSpecFns;
use crate::fp::Fp;
use crate::parse::{FloatErrorKind, ParseFloatError};
use crate::repr::FpRepr;

verus! {

impl<U: FpRepr, const SIGN_BIT: bool, const EXP_SIZE: usize, const INT_SIZE: usize, const FRAC_SIZE: usize, const EXP_BASE: usize> Fp<U, SIGN_BIT, EXP_SIZE, INT_SIZE, FRAC_SIZE, EXP_BASE> {
    /// Parses a number written in radix `radix`: `inf`, `infinity` or `nan` in any case with an
    /// optional minus sign, or an optional minus sign, digits, optionally a point and more
    /// digits, and optionally an exponent (`e` for radix 10, `p` for radix 16) with an optional
    /// sign and decimal digits. Digits accumulate with each step rounded; overflow gives
    /// infinity.
    pub fn from_str_radix(src: &str, radix: u32) -> (r: Result<Self, ParseFloatError>)
        requires
            Self::binary(),
            2 <= radix <= 36,
        ensures
            match r {
                Ok(v) => Self::layout().parse_bits(src.spec_bytes(), radix as nat) == Ok::<nat, FloatErrorKind>(
                    v.nat_bits(),
                ),
                Err(e) => Self::layout().parse_bits(src.spec_bytes(), radix as nat) == Err::<nat, FloatErrorKind>(
                    e.kind,
                ),
            },
    {
        let b = src.as_bytes();
        match Self::layout_exec().parse_exec(b, radix) {
            Ok(v) => Ok(Self::from_raw(v)),
            Err(k) => Err(ParseFloatError { kind: k }),
        }
    }
}

} // verus!
