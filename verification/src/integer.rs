//! The integer types that numbers convert to and from.
use vstd::prelude::*;
use vstd::arithmetic::power2::*;
use vstd::arithmetic::div_mod::*;
use crate::repr::lemma_pow2_widths;

verus! {

/// Powers of two just below the integer widths.
pub proof fn lemma_pow2_half_widths()
    ensures
        pow2(7) == 0x80,
        pow2(15) == 0x8000,
        pow2(31) == 0x8000_0000,
        pow2(63) == 0x8000_0000_0000_0000,
        pow2(127) == 0x8000_0000_0000_0000_0000_0000_0000_0000,
{
    lemma2_to64();
    lemma2_to64_rest();
    lemma_pow2_adds(63, 64);
}

/// The remainder of a negated number.
pub proof fn lemma_neg_mod(mag: int, d: int)
    requires
        d > 0,
        mag >= 0,
    ensures
        (-mag) % d == (if mag % d == 0 { 0 } else { d - mag % d }),
{
    lemma_fundamental_div_mod(mag, d);
    lemma_mod_bound(mag, d);
    let q = mag / d;
    let m = mag % d;
    assert(mag == q * d + m) by {
        vstd::arithmetic::mul::lemma_mul_is_commutative(d, q);
    }
    if m == 0 {
        assert(-mag == (-q) * d + 0) by {
            vstd::arithmetic::mul::lemma_mul_unary_negation(q, d);
        }
        lemma_fundamental_div_mod_converse(-mag, d, -q, 0);
    } else {
        assert(-mag == (-q - 1) * d + (d - m)) by {
            vstd::arithmetic::mul::lemma_mul_unary_negation(q, d);
            vstd::arithmetic::mul::lemma_mul_is_distributive_sub_other_way(d, -q, 1);
        }
        lemma_fundamental_div_mod_converse(-mag, d, -q - 1, d - m);
    }
}

/// Whether `v` is a value of an integer type of `bits` bits.
pub open spec fn int_in_range(v: int, signed: bool, bits: nat) -> bool {
    if signed {
        -pow2((bits - 1) as nat) <= v < pow2((bits - 1) as nat)
    } else {
        0 <= v < pow2(bits)
    }
}

/// `v` wrapped into an integer type of `bits` bits (two's complement for signed types).
pub open spec fn wrap_int(v: int, signed: bool, bits: nat) -> int {
    let m = v % (pow2(bits) as int);
    if signed && m >= pow2((bits - 1) as nat) { m - pow2(bits) } else { m }
}

/// `v` with the sign `neg`.
pub open spec fn signed_value(neg: bool, mag: nat) -> int {
    if neg { -mag } else { mag as int }
}

/// A primitive integer type.
pub trait AnyInt: Copy + Sized {
    spec fn int_value(self) -> int;

    spec fn signed() -> bool;

    spec fn bits() -> nat;

    proof fn lemma_int_range(self)
        ensures
            int_in_range(self.int_value(), Self::signed(), Self::bits()),
            Self::bits() == 8 || Self::bits() == 16 || Self::bits() == 32 || Self::bits() == 64 || Self::bits() == 128,
    ;

    proof fn lemma_bits()
        ensures
            Self::bits() == 8 || Self::bits() == 16 || Self::bits() == 32 || Self::bits() == 64 || Self::bits() == 128,
    ;

    fn is_signed() -> (r: bool)
        ensures
            r == Self::signed(),
    ;

    /// The sign and magnitude.
    fn sign_mag(self) -> (r: (bool, u128))
        ensures
            r.0 == (self.int_value() < 0),
            signed_value(r.0, r.1 as nat) == self.int_value(),
    ;

    /// The integer of the given sign and magnitude, if the type holds it.
    fn from_sign_mag(neg: bool, mag: u128) -> (r: Option<Self>)
        ensures
            r is Some <==> int_in_range(signed_value(neg, mag as nat), Self::signed(), Self::bits()),
            r matches Some(v) ==> v.int_value() == signed_value(neg, mag as nat),
    ;

    /// The integer of the given sign and magnitude, wrapped.
    fn wrap_sign_mag(neg: bool, mag: u128) -> (r: Self)
        ensures
            r.int_value() == wrap_int(signed_value(neg, mag as nat), Self::signed(), Self::bits()),
    ;

    fn min_int() -> (r: Self)
        ensures
            Self::signed() ==> r.int_value() == -pow2((Self::bits() - 1) as nat),
            !Self::signed() ==> r.int_value() == 0,
    ;

    fn max_int() -> (r: Self)
        ensures
            Self::signed() ==> r.int_value() == pow2((Self::bits() - 1) as nat) - 1,
            !Self::signed() ==> r.int_value() == pow2(Self::bits()) - 1,
    ;
}

impl AnyInt for u8 {
    open spec fn int_value(self) -> int { self as int }

    open spec fn signed() -> bool { false }

    open spec fn bits() -> nat { 8 }

    proof fn lemma_int_range(self) {
        lemma_pow2_widths();
    }

    proof fn lemma_bits() {}

    fn is_signed() -> (r: bool) { false }

    fn sign_mag(self) -> (r: (bool, u128)) {
        (false, self as u128)
    }

    fn from_sign_mag(neg: bool, mag: u128) -> (r: Option<Self>) {
        proof {
            lemma_pow2_widths();
        }
        if neg && mag != 0 {
            None
        } else if mag <= u8::MAX as u128 {
            Some(mag as u8)
        } else {
            None
        }
    }

    fn wrap_sign_mag(neg: bool, mag: u128) -> (r: Self) {
        proof {
            lemma_pow2_widths();
        }
        let m: u128 = mag % 0x100;
        if !neg || m == 0 {
            proof {
                if neg {
                    lemma_neg_mod(mag as int, 0x100);
                }
            }
            m as u8
        } else {
            proof {
                lemma_neg_mod(mag as int, 0x100);
            }
            (0x100 - m) as u8
        }
    }

    fn min_int() -> (r: Self) {
        0
    }

    fn max_int() -> (r: Self) {
        proof {
            lemma_pow2_widths();
        }
        u8::MAX
    }
}

impl AnyInt for u16 {
    open spec fn int_value(self) -> int { self as int }

    open spec fn signed() -> bool { false }

    open spec fn bits() -> nat { 16 }

    proof fn lemma_int_range(self) {
        lemma_pow2_widths();
    }

    proof fn lemma_bits() {}

    fn is_signed() -> (r: bool) { false }

    fn sign_mag(self) -> (r: (bool, u128)) {
        (false, self as u128)
    }

    fn from_sign_mag(neg: bool, mag: u128) -> (r: Option<Self>) {
        proof {
            lemma_pow2_widths();
        }
        if neg && mag != 0 {
            None
        } else if mag <= u16::MAX as u128 {
            Some(mag as u16)
        } else {
            None
        }
    }

    fn wrap_sign_mag(neg: bool, mag: u128) -> (r: Self) {
        proof {
            lemma_pow2_widths();
        }
        let m: u128 = mag % 0x10000;
        if !neg || m == 0 {
            proof {
                if neg {
                    lemma_neg_mod(mag as int, 0x10000);
                }
            }
            m as u16
        } else {
            proof {
                lemma_neg_mod(mag as int, 0x10000);
            }
            (0x10000 - m) as u16
        }
    }

    fn min_int() -> (r: Self) {
        0
    }

    fn max_int() -> (r: Self) {
        proof {
            lemma_pow2_widths();
        }
        u16::MAX
    }
}

impl AnyInt for u32 {
    open spec fn int_value(self) -> int { self as int }

    open spec fn signed() -> bool { false }

    open spec fn bits() -> nat { 32 }

    proof fn lemma_int_range(self) {
        lemma_pow2_widths();
    }

    proof fn lemma_bits() {}

    fn is_signed() -> (r: bool) { false }

    fn sign_mag(self) -> (r: (bool, u128)) {
        (false, self as u128)
    }

    fn from_sign_mag(neg: bool, mag: u128) -> (r: Option<Self>) {
        proof {
            lemma_pow2_widths();
        }
        if neg && mag != 0 {
            None
        } else if mag <= u32::MAX as u128 {
            Some(mag as u32)
        } else {
            None
        }
    }

    fn wrap_sign_mag(neg: bool, mag: u128) -> (r: Self) {
        proof {
            lemma_pow2_widths();
        }
        let m: u128 = mag % 0x100000000;
        if !neg || m == 0 {
            proof {
                if neg {
                    lemma_neg_mod(mag as int, 0x100000000);
                }
            }
            m as u32
        } else {
            proof {
                lemma_neg_mod(mag as int, 0x100000000);
            }
            (0x100000000 - m) as u32
        }
    }

    fn min_int() -> (r: Self) {
        0
    }

    fn max_int() -> (r: Self) {
        proof {
            lemma_pow2_widths();
        }
        u32::MAX
    }
}

impl AnyInt for u64 {
    open spec fn int_value(self) -> int { self as int }

    open spec fn signed() -> bool { false }

    open spec fn bits() -> nat { 64 }

    proof fn lemma_int_range(self) {
        lemma_pow2_widths();
    }

    proof fn lemma_bits() {}

    fn is_signed() -> (r: bool) { false }

    fn sign_mag(self) -> (r: (bool, u128)) {
        (false, self as u128)
    }

    fn from_sign_mag(neg: bool, mag: u128) -> (r: Option<Self>) {
        proof {
            lemma_pow2_widths();
        }
        if neg && mag != 0 {
            None
        } else if mag <= u64::MAX as u128 {
            Some(mag as u64)
        } else {
            None
        }
    }

    fn wrap_sign_mag(neg: bool, mag: u128) -> (r: Self) {
        proof {
            lemma_pow2_widths();
        }
        let m: u128 = mag % 0x10000000000000000;
        if !neg || m == 0 {
            proof {
                if neg {
                    lemma_neg_mod(mag as int, 0x10000000000000000);
                }
            }
            m as u64
        } else {
            proof {
                lemma_neg_mod(mag as int, 0x10000000000000000);
            }
            (0x10000000000000000 - m) as u64
        }
    }

    fn min_int() -> (r: Self) {
        0
    }

    fn max_int() -> (r: Self) {
        proof {
            lemma_pow2_widths();
        }
        u64::MAX
    }
}

impl AnyInt for u128 {
    open spec fn int_value(self) -> int { self as int }

    open spec fn signed() -> bool { false }

    open spec fn bits() -> nat { 128 }

    proof fn lemma_int_range(self) {
        lemma_pow2_widths();
    }

    proof fn lemma_bits() {}

    fn is_signed() -> (r: bool) { false }

    fn sign_mag(self) -> (r: (bool, u128)) {
        (false, self as u128)
    }

    fn from_sign_mag(neg: bool, mag: u128) -> (r: Option<Self>) {
        proof {
            lemma_pow2_widths();
        }
        if neg && mag != 0 {
            None
        } else if mag <= u128::MAX as u128 {
            Some(mag as u128)
        } else {
            None
        }
    }

    fn wrap_sign_mag(neg: bool, mag: u128) -> (r: Self) {
        proof {
            lemma_pow2_widths();
        }
        proof {
            lemma_small_mod(mag as nat, pow2(128));
        }
        if !neg || mag == 0 {
            proof {
                if neg {
                    lemma_neg_mod(mag as int, pow2(128) as int);
                }
            }
            mag
        } else {
            proof {
                lemma_neg_mod(mag as int, pow2(128) as int);
            }
            u128::MAX - mag + 1
        }
    }

    fn min_int() -> (r: Self) {
        0
    }

    fn max_int() -> (r: Self) {
        proof {
            lemma_pow2_widths();
        }
        u128::MAX
    }
}

impl AnyInt for i8 {
    open spec fn int_value(self) -> int { self as int }

    open spec fn signed() -> bool { true }

    open spec fn bits() -> nat { 8 }

    proof fn lemma_int_range(self) {
        lemma_pow2_widths();
        lemma_pow2_half_widths();
    }

    proof fn lemma_bits() {}

    fn is_signed() -> (r: bool) { true }

    fn sign_mag(self) -> (r: (bool, u128)) {
        if self < 0 {
            (true, (-(self as i128)) as u128)
        } else {
            (false, self as u128)
        }
    }

    fn from_sign_mag(neg: bool, mag: u128) -> (r: Option<Self>) {
        proof {
            lemma_pow2_widths();
            lemma_pow2_half_widths();
        }
        if neg {
            if mag < 0x80 {
                Some(-(mag as i8))
            } else if mag == 0x80 {
                Some(i8::MIN)
            } else {
                None
            }
        } else if mag < 0x80 {
            Some(mag as i8)
        } else {
            None
        }
    }

    fn wrap_sign_mag(neg: bool, mag: u128) -> (r: Self) {
        proof {
            lemma_pow2_widths();
            lemma_pow2_half_widths();
        }
        let w: u8 = <u8 as AnyInt>::wrap_sign_mag(neg, mag);
        if w < 0x80 {
            w as i8
        } else {
            (w - 0x80) as i8 - i8::MAX - 1
        }
    }

    fn min_int() -> (r: Self) {
        proof {
            lemma_pow2_half_widths();
        }
        i8::MIN
    }

    fn max_int() -> (r: Self) {
        proof {
            lemma_pow2_half_widths();
        }
        i8::MAX
    }
}

impl AnyInt for i16 {
    open spec fn int_value(self) -> int { self as int }

    open spec fn signed() -> bool { true }

    open spec fn bits() -> nat { 16 }

    proof fn lemma_int_range(self) {
        lemma_pow2_widths();
        lemma_pow2_half_widths();
    }

    proof fn lemma_bits() {}

    fn is_signed() -> (r: bool) { true }

    fn sign_mag(self) -> (r: (bool, u128)) {
        if self < 0 {
            (true, (-(self as i128)) as u128)
        } else {
            (false, self as u128)
        }
    }

    fn from_sign_mag(neg: bool, mag: u128) -> (r: Option<Self>) {
        proof {
            lemma_pow2_widths();
            lemma_pow2_half_widths();
        }
        if neg {
            if mag < 0x8000 {
                Some(-(mag as i16))
            } else if mag == 0x8000 {
                Some(i16::MIN)
            } else {
                None
            }
        } else if mag < 0x8000 {
            Some(mag as i16)
        } else {
            None
        }
    }

    fn wrap_sign_mag(neg: bool, mag: u128) -> (r: Self) {
        proof {
            lemma_pow2_widths();
            lemma_pow2_half_widths();
        }
        let w: u16 = <u16 as AnyInt>::wrap_sign_mag(neg, mag);
        if w < 0x8000 {
            w as i16
        } else {
            (w - 0x8000) as i16 - i16::MAX - 1
        }
    }

    fn min_int() -> (r: Self) {
        proof {
            lemma_pow2_half_widths();
        }
        i16::MIN
    }

    fn max_int() -> (r: Self) {
        proof {
            lemma_pow2_half_widths();
        }
        i16::MAX
    }
}

impl AnyInt for i32 {
    open spec fn int_value(self) -> int { self as int }

    open spec fn signed() -> bool { true }

    open spec fn bits() -> nat { 32 }

    proof fn lemma_int_range(self) {
        lemma_pow2_widths();
        lemma_pow2_half_widths();
    }

    proof fn lemma_bits() {}

    fn is_signed() -> (r: bool) { true }

    fn sign_mag(self) -> (r: (bool, u128)) {
        if self < 0 {
            (true, (-(self as i128)) as u128)
        } else {
            (false, self as u128)
        }
    }

    fn from_sign_mag(neg: bool, mag: u128) -> (r: Option<Self>) {
        proof {
            lemma_pow2_widths();
            lemma_pow2_half_widths();
        }
        if neg {
            if mag < 0x80000000 {
                Some(-(mag as i32))
            } else if mag == 0x80000000 {
                Some(i32::MIN)
            } else {
                None
            }
        } else if mag < 0x80000000 {
            Some(mag as i32)
        } else {
            None
        }
    }

    fn wrap_sign_mag(neg: bool, mag: u128) -> (r: Self) {
        proof {
            lemma_pow2_widths();
            lemma_pow2_half_widths();
        }
        let w: u32 = <u32 as AnyInt>::wrap_sign_mag(neg, mag);
        if w < 0x80000000 {
            w as i32
        } else {
            (w - 0x80000000) as i32 - i32::MAX - 1
        }
    }

    fn min_int() -> (r: Self) {
        proof {
            lemma_pow2_half_widths();
        }
        i32::MIN
    }

    fn max_int() -> (r: Self) {
        proof {
            lemma_pow2_half_widths();
        }
        i32::MAX
    }
}

impl AnyInt for i64 {
    open spec fn int_value(self) -> int { self as int }

    open spec fn signed() -> bool { true }

    open spec fn bits() -> nat { 64 }

    proof fn lemma_int_range(self) {
        lemma_pow2_widths();
        lemma_pow2_half_widths();
    }

    proof fn lemma_bits() {}

    fn is_signed() -> (r: bool) { true }

    fn sign_mag(self) -> (r: (bool, u128)) {
        if self < 0 {
            (true, (-(self as i128)) as u128)
        } else {
            (false, self as u128)
        }
    }

    fn from_sign_mag(neg: bool, mag: u128) -> (r: Option<Self>) {
        proof {
            lemma_pow2_widths();
            lemma_pow2_half_widths();
        }
        if neg {
            if mag < 0x8000000000000000 {
                Some(-(mag as i64))
            } else if mag == 0x8000000000000000 {
                Some(i64::MIN)
            } else {
                None
            }
        } else if mag < 0x8000000000000000 {
            Some(mag as i64)
        } else {
            None
        }
    }

    fn wrap_sign_mag(neg: bool, mag: u128) -> (r: Self) {
        proof {
            lemma_pow2_widths();
            lemma_pow2_half_widths();
        }
        let w: u64 = <u64 as AnyInt>::wrap_sign_mag(neg, mag);
        if w < 0x8000000000000000 {
            w as i64
        } else {
            (w - 0x8000000000000000) as i64 - i64::MAX - 1
        }
    }

    fn min_int() -> (r: Self) {
        proof {
            lemma_pow2_half_widths();
        }
        i64::MIN
    }

    fn max_int() -> (r: Self) {
        proof {
            lemma_pow2_half_widths();
        }
        i64::MAX
    }
}

impl AnyInt for i128 {
    open spec fn int_value(self) -> int { self as int }

    open spec fn signed() -> bool { true }

    open spec fn bits() -> nat { 128 }

    proof fn lemma_int_range(self) {
        lemma_pow2_widths();
        lemma_pow2_half_widths();
    }

    proof fn lemma_bits() {}

    fn is_signed() -> (r: bool) { true }

    fn sign_mag(self) -> (r: (bool, u128)) {
        if self == i128::MIN {
            (true, 0x8000_0000_0000_0000_0000_0000_0000_0000)
        } else if self < 0 {
            (true, (-self) as u128)
        } else {
            (false, self as u128)
        }
    }

    fn from_sign_mag(neg: bool, mag: u128) -> (r: Option<Self>) {
        proof {
            lemma_pow2_widths();
            lemma_pow2_half_widths();
        }
        if neg {
            if mag < 0x80000000000000000000000000000000 {
                Some(-(mag as i128))
            } else if mag == 0x80000000000000000000000000000000 {
                Some(i128::MIN)
            } else {
                None
            }
        } else if mag < 0x80000000000000000000000000000000 {
            Some(mag as i128)
        } else {
            None
        }
    }

    fn wrap_sign_mag(neg: bool, mag: u128) -> (r: Self) {
        proof {
            lemma_pow2_widths();
            lemma_pow2_half_widths();
        }
        let w: u128 = <u128 as AnyInt>::wrap_sign_mag(neg, mag);
        if w < 0x80000000000000000000000000000000 {
            w as i128
        } else {
            (w - 0x80000000000000000000000000000000) as i128 - i128::MAX - 1
        }
    }

    fn min_int() -> (r: Self) {
        proof {
            lemma_pow2_half_widths();
        }
        i128::MIN
    }

    fn max_int() -> (r: Self) {
        proof {
            lemma_pow2_half_widths();
        }
        i128::MAX
    }
}

} // verus!

verus! {

impl AnyInt for usize {
    open spec fn int_value(self) -> int { self as int }

    open spec fn signed() -> bool { false }

    open spec fn bits() -> nat { usize::BITS as nat }

    proof fn lemma_int_range(self) {
        lemma_pow2_widths();
    }

    proof fn lemma_bits() {}

    fn is_signed() -> (r: bool) { false }

    fn sign_mag(self) -> (r: (bool, u128)) {
        (false, self as u128)
    }

    fn from_sign_mag(neg: bool, mag: u128) -> (r: Option<Self>) {
        proof {
            lemma_pow2_widths();
        }
        if neg && mag != 0 {
            None
        } else if mag <= usize::MAX as u128 {
            Some(mag as usize)
        } else {
            None
        }
    }

    fn wrap_sign_mag(neg: bool, mag: u128) -> (r: Self) {
        if usize::BITS == 64 {
            let w: u64 = <u64 as AnyInt>::wrap_sign_mag(neg, mag);
            w as usize
        } else {
            let w: u32 = <u32 as AnyInt>::wrap_sign_mag(neg, mag);
            w as usize
        }
    }

    fn min_int() -> (r: Self) {
        0
    }

    fn max_int() -> (r: Self) {
        proof {
            lemma_pow2_widths();
        }
        usize::MAX
    }
}

impl AnyInt for isize {
    open spec fn int_value(self) -> int { self as int }

    open spec fn signed() -> bool { true }

    open spec fn bits() -> nat { usize::BITS as nat }

    proof fn lemma_int_range(self) {
        lemma_pow2_widths();
        lemma_pow2_half_widths();
    }

    proof fn lemma_bits() {}

    fn is_signed() -> (r: bool) { true }

    fn sign_mag(self) -> (r: (bool, u128)) {
        if self < 0 {
            (true, (-(self as i128)) as u128)
        } else {
            (false, self as u128)
        }
    }

    fn from_sign_mag(neg: bool, mag: u128) -> (r: Option<Self>) {
        proof {
            lemma_pow2_widths();
            lemma_pow2_half_widths();
        }
        if neg {
            if mag <= isize::MAX as u128 {
                Some(-(mag as isize))
            } else if mag == isize::MAX as u128 + 1 {
                Some(isize::MIN)
            } else {
                None
            }
        } else if mag <= isize::MAX as u128 {
            Some(mag as isize)
        } else {
            None
        }
    }

    fn wrap_sign_mag(neg: bool, mag: u128) -> (r: Self) {
        if usize::BITS == 64 {
            let w: i64 = <i64 as AnyInt>::wrap_sign_mag(neg, mag);
            w as isize
        } else {
            let w: i32 = <i32 as AnyInt>::wrap_sign_mag(neg, mag);
            w as isize
        }
    }

    fn min_int() -> (r: Self) {
        proof {
            lemma_pow2_half_widths();
        }
        isize::MIN
    }

    fn max_int() -> (r: Self) {
        proof {
            lemma_pow2_half_widths();
        }
        isize::MAX
    }
}

} // verus!
