//! With an implicit integer bit the numbers of a layout stand in a row: stepping up or down
//! moves to the next place of the row.
use vstd::prelude::*;
use vstd::arithmetic::power2::*;
use vstd::arithmetic::div_mod::*;
use vstd::arithmetic::mul::*;
use crate::format::{Format, FpCategory};
use crate::order::order_of;

verus! {

/// Comparing `e1 * p + m1` with `e2 * p + m2` for digits `m1, m2 < p` compares the `e` first.
pub proof fn lemma_key_order(e1: nat, m1: nat, e2: nat, m2: nat, p: nat)
    requires
        m1 < p,
        m2 < p,
    ensures
        order_of((e1 * p + m1) as int, (e2 * p + m2) as int) == (if e1 != e2 { order_of(e1 as int, e2 as int) } else {
            order_of(m1 as int, m2 as int)
        }),
{
    if e1 < e2 {
        lemma_mul_inequality((e1 + 1) as int, e2 as int, p as int);
        lemma_mul_is_distributive_add_other_way(p as int, e1 as int, 1);
    } else if e2 < e1 {
        lemma_mul_inequality((e2 + 1) as int, e1 as int, p as int);
        lemma_mul_is_distributive_add_other_way(p as int, e2 as int, 1);
    }
}

impl Format {
    /// The exponent and mantissa bits of a pattern read as one number.
    pub open spec fn key(self, x: nat) -> nat {
        self.exp_of(x) * pow2(self.frac_size as nat) + self.mant_of(x)
    }

    /// The place of a number in the row: its key, negated for a negative sign.
    pub open spec fn rank(self, x: nat) -> int {
        if self.sign_of(x) { -(self.key(x) as int) } else { self.key(x) as int }
    }

    proof fn lemma_part_bounds(self, x: nat)
        requires
            self.wf(),
            self.implicit(),
        ensures
            self.exp_of(x) <= self.max_exp(),
            self.mant_of(x) < pow2(self.frac_size as nat),
            self.frac_of(x) == self.mant_of(x),
            self.max_frac() == pow2(self.frac_size as nat) - 1,
            self.max_mant() == self.max_frac(),
            self.category(x) == FpCategory::Zero <==> self.key(x) == 0,
            self.category(x) == FpCategory::Infinite ==> self.key(x) == self.max_exp() * pow2(self.frac_size as nat),
    {
        self.lemma_wf();
        lemma_pow2_pos(self.frac_size as nat);
        lemma_pow2_pos(self.exp_size as nat);
        lemma_mod_bound((x / pow2(self.exp_pos())) as int, pow2(self.exp_size as nat) as int);
        lemma_mod_bound(x as int, pow2(self.exp_pos()) as int);
        if self.exp_of(x) > 0 {
            lemma_mul_inequality(1, self.exp_of(x) as int, pow2(self.frac_size as nat) as int);
        } else {
            lemma_mul_basics(pow2(self.frac_size as nat) as int);
        }
    }

    /// The magnitudes of numbers other than NaN are ordered as their keys.
    proof fn lemma_abs_order_key(self, x: nat, z: nat)
        requires
            self.wf(),
            self.implicit(),
            self.category(x) != FpCategory::Nan,
            self.category(z) != FpCategory::Nan,
        ensures
            self.abs_order(x, z) == order_of(self.key(x) as int, self.key(z) as int),
    {
        self.lemma_part_bounds(x);
        self.lemma_part_bounds(z);
        lemma_key_order(
            self.exp_of(x),
            self.mant_of(x),
            self.exp_of(z),
            self.mant_of(z),
            pow2(self.frac_size as nat),
        );
    }

    /// With an implicit integer bit, comparing two numbers other than NaN compares their ranks.
    pub proof fn lemma_rank_order(self, x: nat, z: nat)
        requires
            self.wf(),
            self.implicit(),
            self.category(x) != FpCategory::Nan,
            self.category(z) != FpCategory::Nan,
        ensures
            self.partial_order(x, z) == Some(order_of(self.rank(x), self.rank(z))),
    {
        self.lemma_part_bounds(x);
        self.lemma_part_bounds(z);
        self.lemma_abs_order_key(x, z);
    }
}

impl Format {
    /// With an implicit integer bit a step moves one place along the row: up from anything
    /// but positive infinity, down from anything but negative infinity and (without a sign
    /// bit) zero; NaN stays.
    pub proof fn lemma_rank_next(self, x: nat, down: bool)
        requires
            self.wf(),
            self.implicit(),
            self.category(x) != FpCategory::Nan,
            !(self.category(x) == FpCategory::Infinite && self.sign_of(x) == down),
            down ==> self.sign_bit || self.category(x) != FpCategory::Zero,
        ensures
            self.category(self.next_bits(x, down)) != FpCategory::Nan,
            self.rank(self.next_bits(x, down)) == self.rank(x) + (if down { -1int } else { 1int }),
    {
        self.lemma_wf();
        self.lemma_part_bounds(x);
        lemma2_to64();
        let p = pow2(self.frac_size as nat);
        lemma_pow2_pos(self.exp_size as nat);
        lemma_pow2_strictly_increases(0, self.exp_pos());
        let s = self.sign_of(x);
        let e = self.exp_of(x);
        let m = self.mant_of(x);
        let y = self.next_bits(x, down);
        if self.category(x) == FpCategory::Infinite {
            let mv = self.max_value_bits();
            self.lemma_decode_encode(0, false, (self.max_exp() - 1) as nat, self.max_mant());
            if self.sign_bit {
                self.lemma_with_sign_parts(mv, s);
            } else {
                assert(y == mv);
            }
            assert(self.exp_of(y) == self.max_exp() - 1 && self.mant_of(y) == p - 1);
            lemma_mul_is_distributive_sub_other_way(p as int, self.max_exp() as int, 1);
            assert(self.key(y) + 1 == self.key(x));
        } else if self.category(x) == FpCategory::Zero && self.sign_bit && s != down {
            self.lemma_decode_encode(0, down, 0, 1);
            lemma_mul_basics(p as int);
            assert(self.key(y) == 1);
        } else {
            let (s2, e2, m2) = self.next_finite_parts(x, down);
            self.lemma_next_parts_bound(x, down);
            let sb = s2 && self.sign_bit;
            self.lemma_decode_encode(0, sb, e2, m2);
            assert(y == self.encode(0, sb, e2, m2));
            assert(sb == s);
            if s != down {
                if m == 0 {
                    assert(e != 0);
                    lemma_mul_is_distributive_sub_other_way(p as int, e as int, 1);
                }
                assert(self.key(y) + 1 == self.key(x));
            } else {
                if m == p - 1 {
                    lemma_mul_is_distributive_add_other_way(p as int, e as int, 1);
                }
                assert(self.key(y) == self.key(x) + 1);
            }
        }
    }
}

/// `next_up` gives the least number greater than `x`: the step is greater than `x`, and no
/// number greater than `x` is less than the step (with an implicit integer bit; `x` neither
/// NaN nor positive infinity).
pub proof fn lemma_next_up_least(f: Format, x: nat, z: nat)
    requires
        f.wf(),
        f.implicit(),
        f.category(x) != FpCategory::Nan,
        !(f.category(x) == FpCategory::Infinite && !f.sign_of(x)),
    ensures
        f.partial_order(x, f.next_bits(x, false)) == Some(-1int),
        f.partial_order(x, z) == Some(-1int) ==> f.partial_order(f.next_bits(x, false), z) == Some(-1int)
            || f.partial_order(f.next_bits(x, false), z) == Some(0int),
{
    let y = f.next_bits(x, false);
    f.lemma_rank_next(x, false);
    f.lemma_rank_order(x, y);
    if f.partial_order(x, z) == Some(-1int) {
        f.lemma_rank_order(x, z);
        f.lemma_rank_order(y, z);
    }
}

/// `next_down` gives the greatest number less than `x`: the step is less than `x`, and no
/// number less than `x` is greater than the step (with an implicit integer bit; `x` neither
/// NaN nor negative infinity, and not zero in a layout without a sign bit, where zero is the
/// least number).
pub proof fn lemma_next_down_greatest(f: Format, x: nat, z: nat)
    requires
        f.wf(),
        f.implicit(),
        f.category(x) != FpCategory::Nan,
        !(f.category(x) == FpCategory::Infinite && f.sign_of(x)),
        f.sign_bit || f.category(x) != FpCategory::Zero,
    ensures
        f.partial_order(x, f.next_bits(x, true)) == Some(1int),
        f.partial_order(x, z) == Some(1int) ==> f.partial_order(f.next_bits(x, true), z) == Some(1int)
            || f.partial_order(f.next_bits(x, true), z) == Some(0int),
{
    let y = f.next_bits(x, true);
    f.lemma_rank_next(x, true);
    f.lemma_rank_order(x, y);
    if f.partial_order(x, z) == Some(1int) {
        f.lemma_rank_order(x, z);
        f.lemma_rank_order(y, z);
    }
}

} // verus!
