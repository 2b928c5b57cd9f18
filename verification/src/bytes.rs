//! Numbers from the bytes of their bit patterns.
use vstd::prelude::*;
use vstd::arithmetic::power2::*;
use vstd::arithmetic::mul::*;
use crate::repr::lemma_pow2_widths;

verus! {

/// The bytes read as a big-endian number.
pub open spec fn be_value(s: Seq<u8>) -> nat
    decreases s.len(),
{
    if s.len() == 0 {
        0
    } else {
        be_value(s.drop_last()) * 256 + s.last() as nat
    }
}

/// The bytes read as a little-endian number.
pub open spec fn le_value(s: Seq<u8>) -> nat
    decreases s.len(),
{
    if s.len() == 0 {
        0
    } else {
        s[0] as nat + 256 * le_value(s.drop_first())
    }
}

pub proof fn lemma_be_bound(s: Seq<u8>)
    ensures
        be_value(s) < pow2(8 * s.len()),
    decreases s.len(),
{
    lemma2_to64();
    if s.len() > 0 {
        lemma_be_bound(s.drop_last());
        let n = (8 * (s.len() - 1)) as nat;
        lemma_pow2_adds(n, 8);
        assert(8 * s.len() == n + 8);
        lemma_mul_inequality((be_value(s.drop_last()) + 1) as int, pow2(n) as int, 256);
        lemma_mul_is_distributive_add_other_way(256, be_value(s.drop_last()) as int, 1);
    }
}

pub proof fn lemma_le_bound(s: Seq<u8>)
    ensures
        le_value(s) < pow2(8 * s.len()),
    decreases s.len(),
{
    lemma2_to64();
    if s.len() > 0 {
        lemma_le_bound(s.drop_first());
        let n = (8 * (s.len() - 1)) as nat;
        lemma_pow2_adds(8, n);
        assert(8 * s.len() == 8 + n);
        lemma_mul_inequality((le_value(s.drop_first()) + 1) as int, pow2(n) as int, 256);
        lemma_mul_is_distributive_add_other_way(256, le_value(s.drop_first()) as int, 1);
        lemma_mul_is_commutative(256, pow2(n) as int);
    }
}

/// The value of at most 16 bytes in big-endian order.
pub fn be_value_exec(b: &[u8]) -> (r: u128)
    requires
        b.len() <= 16,
    ensures
        r == be_value(b@),
{
    let mut v: u128 = 0;
    let mut i: usize = 0;
    proof {
        lemma_pow2_widths();
        assert(b@.subrange(0, 0) =~= Seq::<u8>::empty());
    }
    while i < b.len()
        invariant
            i <= b.len() <= 16,
            v == be_value(b@.subrange(0, i as int)),
            pow2(128) == 0x1_0000_0000_0000_0000_0000_0000_0000_0000,
        decreases b.len() - i,
    {
        proof {
            lemma_be_bound(b@.subrange(0, i as int));
            lemma_pow2_mono_ok(8 * i as nat);
            assert(b@.subrange(0, i + 1).drop_last() =~= b@.subrange(0, i as int));
        }
        v = v * 256 + b[i] as u128;
        i = i + 1;
    }
    proof {
        assert(b@.subrange(0, b.len() as int) =~= b@);
    }
    v
}

/// `2^n * 256` stays within 128 bits for `n <= 120`.
proof fn lemma_pow2_mono_ok(n: nat)
    ensures
        n <= 120 ==> pow2(n) * 256 <= pow2(128),
{
    if n <= 120 {
        lemma2_to64();
        lemma_pow2_adds(n, 8);
        if n < 120 {
            lemma_pow2_strictly_increases(n + 8, 128);
        }
    }
}

/// The value of at most 16 bytes in little-endian order.
pub fn le_value_exec(b: &[u8]) -> (r: u128)
    requires
        b.len() <= 16,
    ensures
        r == le_value(b@),
{
    let mut v: u128 = 0;
    let mut i: usize = b.len();
    proof {
        lemma_pow2_widths();
        assert(b@.subrange(b.len() as int, b.len() as int) =~= Seq::<u8>::empty());
    }
    while i > 0
        invariant
            i <= b.len() <= 16,
            v == le_value(b@.subrange(i as int, b.len() as int)),
            pow2(128) == 0x1_0000_0000_0000_0000_0000_0000_0000_0000,
        decreases i,
    {
        proof {
            lemma_le_bound(b@.subrange(i as int, b.len() as int));
            lemma_pow2_mono_ok(8 * (b.len() - i) as nat);
            assert(b@.subrange(i - 1, b.len() as int).drop_first() =~= b@.subrange(i as int, b.len() as int));
        }
        v = b[i - 1] as u128 + 256 * v;
        i = i - 1;
    }
    proof {
        assert(b@.subrange(0, b.len() as int) =~= b@);
    }
    v
}

} // verus!
