//! Total order of bit patterns, as -1, 0 or 1.
use vstd::prelude::*;
use vstd::arithmetic::power::*;
use vstd::arithmetic::mul::*;
use vstd::arithmetic::div_mod::*;
use crate::format::{Format, FpCategory};

verus! {

/// -1, 0 or 1 as `a` is less than, equal to or greater than `b`.
pub open spec fn order_of(a: int, b: int) -> int {
    if a < b {
        -1
    } else if a == b {
        0
    } else {
        1
    }
}

pub fn order_u128(a: u128, b: u128) -> (r: i8)
    ensures
        r == order_of(a as int, b as int),
{
    if a < b {
        -1
    } else if a == b {
        0
    } else {
        1
    }
}

/// Compares `a*base^d` with `c`.
pub fn order_scaled(a: u128, base: u128, d: u128, c: u128) -> (r: i8)
    ensures
        r == order_of(a * pow(base as int, d as nat), c as int),
{
    if d == 0 {
        proof {
            lemma_pow0(base as int);
        }
        return order_u128(a, c);
    }
    if base == 0 {
        proof {
            reveal(pow);
            lemma_mul_basics(a as int);
            assert(pow(0, d as nat) == 0 * pow(0, (d - 1) as nat));
        }
        return order_u128(0, c);
    }
    if base == 1 {
        proof {
            lemma_pow1_any(d as nat);
        }
        return order_u128(a, c);
    }
    let mut a2 = a;
    let mut d2 = d;
    let mut res: i8 = 0;
    loop
        invariant_except_break
            order_of(a * pow(base as int, d as nat), c as int) == order_of(a2 * pow(base as int, d2 as nat), c as int),
        invariant
            base >= 2,
        ensures
            res == order_of(a * pow(base as int, d as nat), c as int),
        decreases d2,
    {
        if d2 == 0 {
            proof {
                lemma_pow0(base as int);
            }
            res = order_u128(a2, c);
            break;
        }
        if a2 == 0 {
            proof {
                lemma_mul_basics(pow(base as int, d2 as nat));
            }
            res = order_u128(0, c);
            break;
        }
        if a2 > c {
            proof {
                lemma_pow_positive(base as int, d2 as nat);
                lemma_mul_increases(pow(base as int, d2 as nat), a2 as int);
                lemma_mul_is_commutative(pow(base as int, d2 as nat), a2 as int);
            }
            res = 1;
            break;
        }
        if a2 > c / base {
            proof {
                lemma_fundamental_div_mod(c as int, base as int);
                lemma_mul_inequality((c / base + 1) as int, a2 as int, base as int);
                lemma_mul_is_commutative(base as int, (c / base) as int);
                lemma_mod_bound(c as int, base as int);
                lemma_pow_positive(base as int, (d2 - 1) as nat);
                reveal(pow);
                lemma_mul_strictly_positive(a2 as int, base as int);
                lemma_mul_is_distributive_add_other_way(base as int, (c / base) as int, 1);
                assert(a2 * base > c);
                lemma_mul_increases(pow(base as int, (d2 - 1) as nat), (a2 * base) as int);
                lemma_mul_is_commutative(pow(base as int, (d2 - 1) as nat), (a2 * base) as int);
                lemma_mul_is_associative(a2 as int, base as int, pow(base as int, (d2 - 1) as nat));
            }
            res = 1;
            break;
        }
        proof {
            lemma_mul_inequality(a2 as int, (c / base) as int, base as int);
            lemma_fundamental_div_mod(c as int, base as int);
            lemma_mul_is_commutative(base as int, (c / base) as int);
            lemma_mod_bound(c as int, base as int);
            reveal(pow);
            lemma_mul_is_associative(a2 as int, base as int, pow(base as int, (d2 - 1) as nat));
        }
        a2 = a2 * base;
        d2 = d2 - 1;
    }
    res
}

proof fn lemma_pow1_any(d: nat)
    ensures
        pow(1, d) == 1,
    decreases d,
{
    reveal(pow);
    if d > 0 {
        lemma_pow1_any((d - 1) as nat);
    }
}

impl Format {
    /// 0 for finite numbers, 1 for infinity, 2 for a signaling and 3 for a quiet NaN.
    pub open spec fn class_rank(self, x: nat) -> nat {
        match self.category(x) {
            FpCategory::Nan => if self.is_snan_bits(x) { 2 } else { 3 },
            FpCategory::Infinite => 1,
            _ => 0,
        }
    }

    /// Order of the magnitudes: by class, then (with an implicit integer bit) by exponent and
    /// mantissa bits, or (with an explicit one) by the value `mantissa*base^exponent`.
    pub open spec fn abs_order(self, x: nat, y: nat) -> int {
        let c0 = self.class_rank(x);
        let c1 = self.class_rank(y);
        if c0 != 0 || c1 != 0 {
            order_of(c0 as int, c1 as int)
        } else if self.implicit() {
            if self.exp_of(x) != self.exp_of(y) {
                order_of(self.exp_of(x) as int, self.exp_of(y) as int)
            } else {
                order_of(self.mant_of(x) as int, self.mant_of(y) as int)
            }
        } else {
            order_of(
                self.mant_of(x) * pow(self.exp_base as int, self.exp_of(x)),
                self.mant_of(y) * pow(self.exp_base as int, self.exp_of(y)),
            )
        }
    }

    /// Negative before positive; among negatives the magnitude order is reversed.
    pub open spec fn total_order(self, x: nat, y: nat) -> int {
        let s0 = self.sign_of(x);
        let s1 = self.sign_of(y);
        if s0 != s1 {
            if s0 { -1 } else { 1 }
        } else if s0 {
            -self.abs_order(x, y)
        } else {
            self.abs_order(x, y)
        }
    }
}

} // verus!

verus! {

proof fn lemma_order_scale(a: int, b: int, p: int)
    requires
        p > 0,
    ensures
        order_of(a * p, b * p) == order_of(a, b),
{
    if a < b {
        lemma_mul_strict_inequality(a, b, p);
    } else if a > b {
        lemma_mul_strict_inequality(b, a, p);
    }
}

impl Format {
    pub fn class_rank_exec(&self, x: u128) -> (r: u8)
        requires
            self.wf(),
        ensures
            r == self.class_rank(x as nat),
    {
        match self.classify(x) {
            FpCategory::Nan => if self.is_snan(x) { 2 } else { 3 },
            FpCategory::Infinite => 1,
            _ => 0,
        }
    }

    pub fn abs_order_exec(&self, x: u128, y: u128) -> (r: i8)
        requires
            self.wf(),
        ensures
            r == self.abs_order(x as nat, y as nat),
    {
        let c0 = self.class_rank_exec(x);
        let c1 = self.class_rank_exec(y);
        if c0 != 0 || c1 != 0 {
            return order_u128(c0 as u128, c1 as u128);
        }
        let e0 = self.exp_bits(x);
        let e1 = self.exp_bits(y);
        let m0 = self.mant_bits_raw(x);
        let m1 = self.mant_bits_raw(y);
        if self.int_size == 0 {
            if e0 != e1 {
                return order_u128(e0, e1);
            }
            return order_u128(m0, m1);
        }
        let b = self.exp_base as u128;
        if b == 0 {
            let p0: u128 = if e0 == 0 { 1 } else { 0 };
            let p1: u128 = if e1 == 0 { 1 } else { 0 };
            proof {
                reveal(pow);
                if e0 != 0 {
                    assert(pow(0, e0 as nat) == 0 * pow(0, (e0 - 1) as nat));
                }
                if e1 != 0 {
                    assert(pow(0, e1 as nat) == 0 * pow(0, (e1 - 1) as nat));
                }
                lemma_mul_basics(m0 as int);
                lemma_mul_basics(m1 as int);
            }
            return order_u128(m0 * p0, m1 * p1);
        }
        if e0 >= e1 {
            proof {
                lemma_pow_adds(b as int, (e0 - e1) as nat, e1 as nat);
                lemma_pow_positive(b as int, e1 as nat);
                lemma_mul_is_associative(m0 as int, pow(b as int, (e0 - e1) as nat), pow(b as int, e1 as nat));
                lemma_order_scale(m0 * pow(b as int, (e0 - e1) as nat), m1 as int, pow(b as int, e1 as nat));
            }
            order_scaled(m0, b, e0 - e1, m1)
        } else {
            proof {
                lemma_pow_adds(b as int, (e1 - e0) as nat, e0 as nat);
                lemma_pow_positive(b as int, e0 as nat);
                lemma_mul_is_associative(m1 as int, pow(b as int, (e1 - e0) as nat), pow(b as int, e0 as nat));
                lemma_order_scale(m1 * pow(b as int, (e1 - e0) as nat), m0 as int, pow(b as int, e0 as nat));
            }
            let o = order_scaled(m1, b, e1 - e0, m0);
            -o
        }
    }

    pub fn total_order_exec(&self, x: u128, y: u128) -> (r: i8)
        requires
            self.wf(),
        ensures
            r == self.total_order(x as nat, y as nat),
    {
        let s0 = self.is_sign_negative(x);
        let s1 = self.is_sign_negative(y);
        if s0 != s1 {
            return if s0 { -1 } else { 1 };
        }
        let o = self.abs_order_exec(x, y);
        if s0 { -o } else { o }
    }
}

} // verus!

verus! {

impl Format {
    /// Comparison of values: `None` when either is NaN, zeros of either sign are equal,
    /// otherwise the total order.
    pub open spec fn partial_order(self, x: nat, y: nat) -> Option<int> {
        if self.category(x) == FpCategory::Nan || self.category(y) == FpCategory::Nan {
            None
        } else if self.category(x) == FpCategory::Zero && self.category(y) == FpCategory::Zero {
            Some(0)
        } else {
            Some(self.total_order(x, y))
        }
    }

    pub fn partial_order_exec(&self, x: u128, y: u128) -> (r: Option<i8>)
        requires
            self.wf(),
        ensures
            r matches Some(v) ==> self.partial_order(x as nat, y as nat) == Some(v as int),
            r is None <==> self.partial_order(x as nat, y as nat) is None,
    {
        let cx = self.classify(x);
        let cy = self.classify(y);
        if cx == FpCategory::Nan || cy == FpCategory::Nan {
            return None;
        }
        if cx == FpCategory::Zero && cy == FpCategory::Zero {
            return Some(0);
        }
        Some(self.total_order_exec(x, y))
    }

    /// The NaN an operation on `x` and `y` passes on: `y` when it is a signaling NaN or `x`
    /// is no NaN, else `x`.
    pub open spec fn add_nan_bits(self, x: nat, y: nat) -> nat {
        if self.is_snan_bits(y) || self.category(x) != FpCategory::Nan { y } else { x }
    }
}

/// The total order is antisymmetric.
pub proof fn lemma_total_order_antisymmetric(f: Format, x: nat, y: nat)
    requires
        f.wf(),
    ensures
        f.total_order(x, y) == -f.total_order(y, x),
        f.total_order(x, x) == 0,
{
}

/// The total order is transitive.
pub proof fn lemma_total_order_transitive(f: Format, x: nat, y: nat, z: nat)
    requires
        f.wf(),
        f.total_order(x, y) <= 0,
        f.total_order(y, z) <= 0,
    ensures
        f.total_order(x, z) <= 0,
{
}

} // verus!
