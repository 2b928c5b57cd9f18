use vstd::prelude::*;
use vstd::arithmetic::power2::*;

verus! {

/// Proof of the powers of two that bound the unsigned integer types.
pub proof fn lemma_pow2_widths()
    ensures
        pow2(8) == 0x100,
        pow2(16) == 0x1_0000,
        pow2(32) == 0x1_0000_0000,
        pow2(64) == 0x1_0000_0000_0000_0000,
        pow2(128) == 0x1_0000_0000_0000_0000_0000_0000_0000_0000,
{
    lemma2_to64();
    lemma2_to64_rest();
    lemma_pow2_adds(64, 64);
}

/// The unsigned integer type that stores the bits of a floating point number.
pub trait FpRepr: Copy + Sized {
    /// Number of bits of the type.
    spec fn width() -> nat;

    /// The stored bits as a natural number.
    spec fn nat_value(self) -> nat;

    proof fn lemma_bounded(self)
        ensures
            self.nat_value() < pow2(Self::width()),
            Self::width() == 8 || Self::width() == 16 || Self::width() == 32 || Self::width() == 64
                || Self::width() == 128,
    ;

    /// Different values have different bits.
    proof fn lemma_injective(self, other: Self)
        ensures
            self.nat_value() == other.nat_value() ==> self == other,
    ;

    proof fn from_u128_width()
        ensures
            Self::width() == 8 || Self::width() == 16 || Self::width() == 32 || Self::width() == 64
                || Self::width() == 128,
    ;

    fn bit_size() -> (r: usize)
        ensures
            r == Self::width(),
            r == 8 || r == 16 || r == 32 || r == 64 || r == 128,
    ;

    fn to_u128(self) -> (r: u128)
        ensures
            r == self.nat_value(),
            r < pow2(Self::width()),
    ;

    fn from_u128(x: u128) -> (r: Self)
        requires
            x < pow2(Self::width()),
        ensures
            r.nat_value() == x,
    ;
}

impl FpRepr for u8 {
    open spec fn width() -> nat { 8 }

    open spec fn nat_value(self) -> nat { self as nat }

    proof fn lemma_bounded(self) { lemma_pow2_widths(); }

    proof fn lemma_injective(self, other: Self) {}

    proof fn from_u128_width() {}

    fn bit_size() -> (r: usize) { 8 }

    fn to_u128(self) -> (r: u128) {
        proof { lemma_pow2_widths(); }
        self as u128
    }

    fn from_u128(x: u128) -> (r: Self) {
        proof { lemma_pow2_widths(); }
        x as u8
    }
}

impl FpRepr for u16 {
    open spec fn width() -> nat { 16 }

    open spec fn nat_value(self) -> nat { self as nat }

    proof fn lemma_bounded(self) { lemma_pow2_widths(); }

    proof fn lemma_injective(self, other: Self) {}

    proof fn from_u128_width() {}

    fn bit_size() -> (r: usize) { 16 }

    fn to_u128(self) -> (r: u128) {
        proof { lemma_pow2_widths(); }
        self as u128
    }

    fn from_u128(x: u128) -> (r: Self) {
        proof { lemma_pow2_widths(); }
        x as u16
    }
}

impl FpRepr for u32 {
    open spec fn width() -> nat { 32 }

    open spec fn nat_value(self) -> nat { self as nat }

    proof fn lemma_bounded(self) { lemma_pow2_widths(); }

    proof fn lemma_injective(self, other: Self) {}

    proof fn from_u128_width() {}

    fn bit_size() -> (r: usize) { 32 }

    fn to_u128(self) -> (r: u128) {
        proof { lemma_pow2_widths(); }
        self as u128
    }

    fn from_u128(x: u128) -> (r: Self) {
        proof { lemma_pow2_widths(); }
        x as u32
    }
}

impl FpRepr for u64 {
    open spec fn width() -> nat { 64 }

    open spec fn nat_value(self) -> nat { self as nat }

    proof fn lemma_bounded(self) { lemma_pow2_widths(); }

    proof fn lemma_injective(self, other: Self) {}

    proof fn from_u128_width() {}

    fn bit_size() -> (r: usize) { 64 }

    fn to_u128(self) -> (r: u128) {
        proof { lemma_pow2_widths(); }
        self as u128
    }

    fn from_u128(x: u128) -> (r: Self) {
        proof { lemma_pow2_widths(); }
        x as u64
    }
}

impl FpRepr for u128 {
    open spec fn width() -> nat { 128 }

    open spec fn nat_value(self) -> nat { self as nat }

    proof fn lemma_bounded(self) { lemma_pow2_widths(); }

    proof fn lemma_injective(self, other: Self) {}

    proof fn from_u128_width() {}

    fn bit_size() -> (r: usize) { 128 }

    fn to_u128(self) -> (r: u128) {
        proof { lemma_pow2_widths(); }
        self
    }

    fn from_u128(x: u128) -> (r: Self) {
        x
    }
}

} // verus!
