//! Conversion between layouts.
use vstd::prelude::*;
use vstd::arithmetic::power2::*;
use vstd::arithmetic::mul::*;
use crate::arith::{pow2_u128, lemma_pow2_mono};
use crate::binary::{bitlen_exec, lemma_bitlen, lemma_bitlen_bound};
use crate::format::{Format, FpCategory};
use crate::repr::lemma_pow2_widths;

verus! {

impl Format {
    /// Same sign bit, exponent, integer part, fraction and base.
    pub open spec fn same_layout(self, src: Format) -> bool {
        &&& self.sign_bit == src.sign_bit
        &&& self.exp_size == src.exp_size
        &&& self.int_size == src.int_size
        &&& self.frac_size == src.frac_size
        &&& self.exp_base == src.exp_base
    }

    /// The magnitude of `x` of layout `src` in this layout. A layout that differs only by a
    /// wider fraction takes the bits shifted up; otherwise NaNs become the signalling or quiet
    /// NaN, infinities infinity, zeros zero and finite numbers their rounded value.
    pub open spec fn abs_convert_bits(self, src: Format, x: nat) -> nat {
        let ax = src.with_sign_bits(x, false);
        let df = (self.frac_size - src.frac_size) as nat;
        if self.exp_size == src.exp_size && self.int_size == src.int_size && self.exp_base == src.exp_base
            && self.frac_size >= src.frac_size && ax * pow2(df) < self.limit() {
            ax * pow2(df)
        } else {
            let c = src.category(x);
            if c == FpCategory::Nan {
                if src.is_snan_bits(x) { self.snan_bits() } else { self.qnan_bits() }
            } else if c == FpCategory::Infinite {
                self.infinity_bits()
            } else if c == FpCategory::Zero {
                0
            } else {
                self.pack(false, src.sig_of(x), src.t_of(x))
            }
        }
    }

    /// `x` of layout `src` in this layout, as bits and a sign still to apply: the same bits and
    /// no sign for the same layout, else the converted magnitude and the sign of `x`.
    pub open spec fn convert_parts(self, src: Format, x: nat) -> (nat, bool) {
        if self.same_layout(src) && x < self.limit() {
            (x, false)
        } else {
            (self.abs_convert_bits(src, x), src.sign_of(x))
        }
    }

    /// The layouts differ at most by a wider fraction here and the magnitude of `x` shifted
    /// up fits: the conversion takes no rounding and works for every exponent base.
    pub open spec fn shift_converts(self, src: Format, x: nat) -> bool {
        &&& self.exp_size == src.exp_size
        &&& self.int_size == src.int_size
        &&& self.exp_base == src.exp_base
        &&& self.frac_size >= src.frac_size
        &&& src.with_sign_bits(x, false) * pow2((self.frac_size - src.frac_size) as nat) < self.limit()
    }

    /// The conversions the library computes: between layouts with exponent base 2, and for
    /// any base into the same layout or one with a wider fraction where the bits fit, and of
    /// NaN, infinities and zeros.
    pub open spec fn converts(self, src: Format, x: nat) -> bool {
        &&& self.wf()
        &&& src.wf()
        &&& ((self.binary() && src.binary()) || (self.same_layout(src) && x < self.limit())
            || self.shift_converts(src, x) || src.category(x) == FpCategory::Nan || src.category(x)
            == FpCategory::Infinite || src.category(x) == FpCategory::Zero)
    }

    /// `x` of layout `src` in this layout.
    pub open spec fn convert_bits(self, src: Format, x: nat) -> nat {
        self.xor_sign_bits(self.convert_parts(src, x).0, self.convert_parts(src, x).1)
    }

    pub fn limit_contains(&self, x: u128) -> (r: bool)
        requires
            self.wf(),
        ensures
            r == (x < self.limit()),
    {
        proof {
            lemma_pow2_widths();
        }
        if self.u_bits == 128 {
            true
        } else {
            proof {
                lemma_pow2_strictly_increases(self.u_bits as nat, 128);
            }
            x < pow2_u128(self.u_bits)
        }
    }

    pub fn abs_convert_exec(&self, src: &Format, x: u128) -> (r: u128)
        requires
            self.wf(),
            src.wf(),
            (self.binary() && src.binary()) || self.shift_converts(*src, x as nat) || src.category(
                x as nat,
            ) == FpCategory::Nan || src.category(x as nat) == FpCategory::Infinite || src.category(x as nat)
                == FpCategory::Zero,
            x < src.limit(),
        ensures
            r == self.abs_convert_bits(*src, x as nat),
            r < self.limit(),
    {
        proof {
            self.lemma_wf();
            src.lemma_wf();
            lemma_pow2_widths();
        }
        let ax = src.with_sign(x, false);
        if self.exp_size == src.exp_size && self.int_size == src.int_size && self.exp_base == src.exp_base
            && self.frac_size >= src.frac_size {
            let df = self.frac_size - src.frac_size;
            let bl = bitlen_exec(ax);
            proof {
                lemma_bitlen(ax as nat);
                lemma_pow2_pos(df as nat);
                if ax > 0 {
                    lemma_bitlen_bound((ax * pow2(df as nat)) as nat, self.u_bits as nat);
                    crate::rounding::lemma_bitlen_mul_pow2(ax as nat, df as nat);
                } else {
                    lemma_mul_basics(pow2(df as nat) as int);
                    assert(ax * pow2(df as nat) == 0);
                }
            }
            if bl as usize + df <= self.u_bits {
                proof {
                    lemma_pow2_mono(self.u_bits as nat, 128);
                    lemma_pow2_strictly_increases(df as nat, 128);
                }
                return ax * pow2_u128(df);
            }
        }
        let c = src.classify(x);
        if c == FpCategory::Nan {
            if src.is_snan(x) { self.snan_exec() } else { self.qnan_exec() }
        } else if c == FpCategory::Infinite {
            self.infinity_exec()
        } else if c == FpCategory::Zero {
            proof {
                lemma_pow2_pos(self.u_bits as nat);
            }
            0
        } else {
            proof {
                lemma_pow2_mono(src.prec(), 121);
                lemma_pow2_strictly_increases(121, 126);
            }
            self.pack_exec(false, src.sig_exec(x), src.t_exec(x))
        }
    }

    pub fn convert_parts_exec(&self, src: &Format, x: u128) -> (r: (u128, bool))
        requires
            self.converts(*src, x as nat),
            x < src.limit(),
        ensures
            (r.0 as nat, r.1) == self.convert_parts(*src, x as nat),
            r.0 < self.limit(),
    {
        if self.sign_bit == src.sign_bit && self.exp_size == src.exp_size && self.int_size == src.int_size
            && self.frac_size == src.frac_size && self.exp_base == src.exp_base && self.limit_contains(x) {
            return (x, false);
        }
        (self.abs_convert_exec(src, x), src.is_sign_negative(x))
    }
}

impl Format {
    pub fn convert_exec(&self, src: &Format, x: u128) -> (r: u128)
        requires
            self.converts(*src, x as nat),
            x < src.limit(),
        ensures
            r == self.convert_bits(*src, x as nat),
            r < self.limit(),
    {
        let (a, s) = self.convert_parts_exec(src, x);
        self.xor_sign(a, s)
    }
}

} // verus!
