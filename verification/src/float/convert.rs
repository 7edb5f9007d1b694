//! Between integers and binary32 numbers.

use super::ops::pack_quotient;
use super::pack::{lemma_scaled, pack, shift_up, split_at};
use super::repr::{F32, INF_MAG};
use super::round::{lemma_nearest_positive, lemma_pow2_order, nearest_mag};
use vstd::arithmetic::div_mod::{lemma_fundamental_div_mod, lemma_fundamental_div_mod_converse};
use vstd::arithmetic::power2::{lemma2_to64, lemma_pow2_adds, lemma_pow2_pos, pow2};
use vstd::prelude::*;

verus! {

impl F32 {
    /// The number nearest to the quotient of two natural numbers.
    #[verifier::opaque]
    pub open spec fn quotient(n: int, d: int) -> F32 {
        F32::signed(false, nearest_mag(n * pow2(149), d))
    }

    /// The number nearest to a natural number.
    pub open spec fn whole(n: int) -> F32 {
        F32::quotient(n, 1)
    }

    /// Zero.
    pub open spec fn nought() -> F32 {
        F32 { bits: 0 }
    }

    /// One.
    pub open spec fn unit() -> F32 {
        F32 { bits: 0x3F80_0000 }
    }

    /// One half.
    pub open spec fn half_unit() -> F32 {
        F32 { bits: 0x3F00_0000 }
    }

    /// The integer part as an index: zero for what is below zero or NaN, and the
    /// greatest index for what lies beyond it.
    #[verifier::opaque]
    pub open spec fn index(self) -> int {
        if self.nan() || self.negative() {
            0
        } else if self.units() / (pow2(149) as int) <= usize::MAX {
            self.units() / (pow2(149) as int)
        } else {
            usize::MAX as int
        }
    }

    /// The number nearest to an integer.
    pub fn from_int(n: u64) -> (r: F32)
        ensures
            r == F32::whole(n as int),
            !r.nan(),
            !r.negative(),
    {
        reveal(F32::quotient);
        proof {
            lemma_scaled(n as int, 149, 0);
            lemma2_to64();
        }
        F32::assemble(false, pack(n, 149))
    }

    /// The number nearest to `n / d`, such as a decimal fraction.
    pub fn ratio(n: u64, d: u64) -> (r: F32)
        requires
            0 < d < 0x40_0000_0000,
        ensures
            r == F32::quotient(n as int, d as int),
            !r.nan(),
            !r.negative(),
    {
        reveal(F32::quotient);
        proof {
            lemma2_to64();
            assert(d * pow2(0) == d) by (nonlinear_arith)
                requires pow2(0) == 1;
            assert(0 * pow2(149) == 0);
            lemma_nearest_positive(0, d as int);
        }
        if n == 0 {
            F32::assemble(false, 0)
        } else {
            F32::assemble(false, pack_quotient(n, d, 149))
        }
    }

    /// Zero.
    pub fn zero() -> (r: F32)
        ensures
            r == F32::nought(),
    {
        F32 { bits: 0 }
    }

    /// One.
    pub fn one() -> (r: F32)
        ensures
            r == F32::unit(),
    {
        F32 { bits: 0x3F80_0000 }
    }

    /// One half.
    pub fn half() -> (r: F32)
        ensures
            r == F32::half_unit(),
    {
        F32 { bits: 0x3F00_0000 }
    }

    /// The integer part as an index.
    pub fn to_index(self) -> (r: usize)
        ensures
            r == self.index(),
    {
        reveal(F32::index);
        let (neg, x) = self.split();
        if neg || x > INF_MAG {
            return 0;
        }
        let (_, m, e) = self.decode();
        let ghost w = pow2(149) as int;
        proof {
            lemma_pow2_pos(149);
            lemma_pow2_pos(e as nat);
            lemma2_to64();
        }
        let n: u64 = if e <= 149 {
            let k: u32 = (149 - e) as u32;
            proof {
                lemma_pow2_adds(e as nat, k as nat);
                lemma_pow2_pos(k as nat);
                let a = pow2(e as nat) as int;
                let b = pow2(k as nat) as int;
                let q = m as int / b;
                let r = m as int % b;
                lemma_fundamental_div_mod(m as int, b);
                assert(m * a == q * w + r * a) by (nonlinear_arith)
                    requires m == b * q + r, w == a * b;
                assert(0 <= r * a < w) by (nonlinear_arith)
                    requires 0 <= r < b, a > 0, w == a * b;
                lemma_fundamental_div_mod_converse(m * a, w, q, r * a);
            }
            if k >= 24 {
                proof {
                    lemma_pow2_order(24, k as nat);
                    lemma_fundamental_div_mod_converse(m as int, pow2(k as nat) as int, 0, m as int);
                }
                0
            } else {
                split_at(m, k).0
            }
        } else {
            let k: u32 = (e - 149) as u32;
            proof {
                lemma_pow2_adds(149, k as nat);
                lemma_pow2_pos(k as nat);
                let b = pow2(k as nat) as int;
                let a = pow2(e as nat) as int;
                assert(m * a == (m * b) * w) by (nonlinear_arith)
                    requires a == w * b;
                lemma_fundamental_div_mod_converse(m * a, w, m * b, 0);
                if k <= 40 {
                    lemma_pow2_order(k as nat, 40);
                    lemma_pow2_adds(24, 40);
                    assert(m * b < pow2(64)) by (nonlinear_arith)
                        requires m < pow2(24), 0 < b <= pow2(40), pow2(64) == pow2(24) * pow2(40), m >= 0;
                } else {
                    lemma_pow2_order(41, k as nat);
                    lemma_pow2_adds(23, 41);
                    assert(m * b >= pow2(64)) by (nonlinear_arith)
                        requires m >= pow2(23), b >= pow2(41), pow2(64) == pow2(23) * pow2(41);
                }
            }
            if k <= 40 {
                shift_up(m, k)
            } else {
                u64::MAX
            }
        };
        if n <= usize::MAX as u64 {
            n as usize
        } else {
            usize::MAX
        }
    }
}

} // verus!
