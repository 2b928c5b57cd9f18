use vstd::prelude::*;
use vstd::arithmetic::power2::*;
use vstd::arithmetic::div_mod::*;
use vstd::arithmetic::mul::*;
use crate::repr::lemma_pow2_widths;

verus! {

/// The `size` bits of `x` that start at bit `pos`.
pub open spec fn field(x: nat, pos: nat, size: nat) -> nat {
    (x / pow2(pos)) % pow2(size)
}

pub proof fn lemma_div_mod_unique(q: nat, r: nat, d: nat)
    requires
        d > 0,
        r < d,
    ensures
        (q * d + r) / d == q,
        (q * d + r) % d == r,
{
    lemma_fundamental_div_mod_converse((q * d + r) as int, d as int, q as int, r as int);
}

pub proof fn lemma_split(x: nat, d: nat)
    requires
        d > 0,
    ensures
        x == (x / d) * d + x % d,
        x % d < d,
        x / d <= x,
{
    lemma_fundamental_div_mod(x as int, d as int);
    lemma_mul_is_commutative((x / d) as int, d as int);
    lemma_mod_bound(x as int, d as int);
    lemma_div_is_ordered_by_denominator(x as int, 1, d as int);
}

/// A number written as `a*2^(p + s) + v*2^p + b` has `v` at bit `p`, `b` below it and `a` above.
pub proof fn lemma_field_of_parts(a: nat, v: nat, b: nat, p: nat, s: nat)
    requires
        v < pow2(s),
        b < pow2(p),
    ensures
        field(a * pow2(p + s) + v * pow2(p) + b, p, s) == v,
        (a * pow2(p + s) + v * pow2(p) + b) / pow2(p) == a * pow2(s) + v,
        (a * pow2(p + s) + v * pow2(p) + b) / pow2(p + s) == a,
        (a * pow2(p + s) + v * pow2(p) + b) % pow2(p) == b,
        a * pow2(p + s) + v * pow2(p) + b == (a * pow2(s) + v) * pow2(p) + b,
{
    lemma_pow2_pos(p);
    lemma_pow2_pos(s);
    lemma_pow2_adds(p, s);
    let x = a * pow2(p + s) + v * pow2(p) + b;
    assert(a * pow2(p + s) == (a * pow2(s)) * pow2(p)) by {
        lemma_mul_is_associative(a as int, pow2(s) as int, pow2(p) as int);
        lemma_mul_is_commutative(pow2(p) as int, pow2(s) as int);
    }
    assert(x == (a * pow2(s) + v) * pow2(p) + b) by {
        lemma_mul_is_distributive_add_other_way(pow2(p) as int, (a * pow2(s)) as int, v as int);
    }
    lemma_div_mod_unique(a * pow2(s) + v, b, pow2(p));
    lemma_div_mod_unique(a, v, pow2(s));
    lemma_div_denominator(x as int, pow2(p) as int, pow2(s) as int);
}

/// Every number splits at bit `p + s` and at bit `p` into three parts.
pub proof fn lemma_parts_of(x: nat, p: nat, s: nat)
    ensures
        x == (x / pow2(p + s)) * pow2(p + s) + field(x, p, s) * pow2(p) + x % pow2(p),
        field(x, p, s) < pow2(s),
        x % pow2(p) < pow2(p),
{
    lemma_pow2_pos(p);
    lemma_pow2_pos(s);
    lemma_pow2_adds(p, s);
    let q = x / pow2(p);
    lemma_split(x, pow2(p));
    lemma_split(q, pow2(s));
    lemma_div_denominator(x as int, pow2(p) as int, pow2(s) as int);
    let a = x / pow2(p + s);
    assert(a == q / pow2(s));
    assert(x == (a * pow2(s) + q % pow2(s)) * pow2(p) + x % pow2(p));
    assert((a * pow2(s) + q % pow2(s)) * pow2(p) == a * pow2(p + s) + (q % pow2(s)) * pow2(p)) by {
        lemma_mul_is_distributive_add_other_way(pow2(p) as int, (a * pow2(s)) as int, (q % pow2(s)) as int);
        lemma_mul_is_associative(a as int, pow2(s) as int, pow2(p) as int);
        lemma_mul_is_commutative(pow2(p) as int, pow2(s) as int);
    }
}

pub proof fn lemma_pow2_mono(a: nat, b: nat)
    requires
        a <= b,
    ensures
        pow2(a) <= pow2(b),
{
    if a < b {
        lemma_pow2_strictly_increases(a, b);
    }
}

/// `2^n` for `n < 128`.
pub fn pow2_u128(n: usize) -> (r: u128)
    requires
        n < 128,
    ensures
        r == pow2(n as nat),
{
    let mut r: u128 = 1;
    let mut i: usize = 0;
    proof {
        lemma2_to64();
    }
    while i < n
        invariant
            i <= n < 128,
            r == pow2(i as nat),
        decreases n - i,
    {
        proof {
            lemma_pow2_unfold((i + 1) as nat);
            lemma_pow2_strictly_increases((i + 1) as nat, 128);
            lemma_pow2_widths();
        }
        r = r * 2;
        i = i + 1;
    }
    r
}

/// The `size` bits of `x` that start at bit `pos`.
pub fn get_field(x: u128, pos: usize, size: usize) -> (r: u128)
    requires
        pos + size <= 128,
    ensures
        r == field(x as nat, pos as nat, size as nat),
        r < pow2(size as nat),
{
    proof {
        lemma_pow2_widths();
        lemma_pow2_pos(pos as nat);
        lemma_pow2_pos(size as nat);
    }
    if size == 0 {
        proof {
            lemma2_to64();
            lemma_small_mod(0, 1);
            lemma_mod_bound((x as nat / pow2(pos as nat)) as int, 1);
        }
        return 0;
    }
    let q = x / pow2_u128(pos);
    if pos + size == 128 {
        proof {
            lemma_pow2_adds(pos as nat, size as nat);
            lemma_split(x as nat, pow2(pos as nat));
            assert(q < pow2(size as nat)) by {
                if q >= pow2(size as nat) {
                    lemma_mul_inequality(pow2(size as nat) as int, q as int, pow2(pos as nat) as int);
                }
            }
            lemma_small_mod(q as nat, pow2(size as nat));
        }
        return q;
    }
    proof {
        lemma_pow2_strictly_increases(size as nat, 128);
        lemma_mod_bound(q as int, pow2(size as nat) as int);
    }
    q % pow2_u128(size)
}

} // verus!
