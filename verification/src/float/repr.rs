//! The representation of binary32 numbers and their order.

use vstd::arithmetic::power2::{lemma2_to64, lemma_pow2_adds, lemma_pow2_pos, lemma_pow2_strictly_increases, pow2};
use vstd::prelude::*;

verus! {

/// A binary32 number, held as its bit pattern.
#[derive(Clone, Copy, Debug, PartialEq, Eq, Structural)]
pub struct F32 {
    pub bits: u32,
}

/// Weight of the sign bit.
pub const SIGN_BIT: u32 = 0x8000_0000;

/// Magnitude bits of an infinity; a larger magnitude is not a number.
pub const INF_MAG: u32 = 0x7F80_0000;

/// Number of fractions per binade: 2 to the 23.
pub const FRAC: u32 = 0x0080_0000;

/// What the magnitude bits `m` stand for, in units of 2 to the -149, the
/// smallest positive binary32 number.
pub open spec fn mag_units(m: int) -> int {
    if m < FRAC {
        m
    } else {
        (FRAC + m % (FRAC as int)) * pow2((m / (FRAC as int) - 1) as nat)
    }
}

impl F32 {
    /// The sign bit.
    pub open spec fn negative(self) -> bool {
        self.bits >= SIGN_BIT
    }

    /// The bits below the sign.
    pub open spec fn mag(self) -> int {
        if self.negative() {
            self.bits - SIGN_BIT
        } else {
            self.bits as int
        }
    }

    /// Not a number.
    pub open spec fn nan(self) -> bool {
        self.mag() > INF_MAG
    }

    /// Neither an infinity nor NaN.
    pub open spec fn finite(self) -> bool {
        self.mag() < INF_MAG
    }

    /// The signed value in units of 2 to the -149. An infinity stands for 2 to the
    /// 277 of them, which is beyond every finite number.
    pub open spec fn units(self) -> int {
        if self.negative() {
            -mag_units(self.mag())
        } else {
            mag_units(self.mag())
        }
    }

    /// Numeric `<`: false as soon as one side is NaN.
    pub open spec fn lt(self, other: F32) -> bool {
        !self.nan() && !other.nan() && self.units() < other.units()
    }

    /// Numeric `<=`: false as soon as one side is NaN.
    pub open spec fn le(self, other: F32) -> bool {
        !self.nan() && !other.nan() && self.units() <= other.units()
    }

    /// Whether `self < other` as numbers.
    pub fn less(self, other: F32) -> (r: bool)
        ensures
            r == self.lt(other),
    {
        let (na, ma) = self.split();
        let (nb, mb) = other.split();
        proof {
            lemma_mag_units_order(ma as int, mb as int);
            lemma_mag_units_order(mb as int, ma as int);
            lemma_mag_units_order(0, ma as int);
            lemma_mag_units_order(0, mb as int);
        }
        if ma > INF_MAG || mb > INF_MAG {
            false
        } else if na {
            if nb {
                mb < ma
            } else {
                ma != 0 || mb != 0
            }
        } else {
            !nb && ma < mb
        }
    }

    /// Whether `self <= other` as numbers.
    pub fn at_most(self, other: F32) -> (r: bool)
        ensures
            r == self.le(other),
    {
        let (na, ma) = self.split();
        let (nb, mb) = other.split();
        proof {
            lemma_mag_units_order(ma as int, mb as int);
            lemma_mag_units_order(mb as int, ma as int);
            lemma_mag_units_order(0, ma as int);
            lemma_mag_units_order(0, mb as int);
        }
        if ma > INF_MAG || mb > INF_MAG {
            false
        } else if na {
            !nb || mb <= ma
        } else {
            if nb {
                ma == 0 && mb == 0
            } else {
                ma <= mb
            }
        }
    }

    /// Whether this is no number.
    pub fn is_nan(self) -> (r: bool)
        ensures
            r == self.nan(),
    {
        let (_, m) = self.split();
        m > INF_MAG
    }

    /// The number with this sign and these magnitude bits.
    pub open spec fn signed(negative: bool, mag: int) -> F32 {
        F32 {
            bits: if negative {
                (SIGN_BIT + mag) as u32
            } else {
                mag as u32
            },
        }
    }

    pub(crate) fn assemble(negative: bool, mag: u32) -> (r: F32)
        requires
            mag < SIGN_BIT,
        ensures
            r == F32::signed(negative, mag as int),
            r.negative() == negative,
            r.mag() == mag,
    {
        if negative {
            F32 { bits: SIGN_BIT + mag }
        } else {
            F32 { bits: mag }
        }
    }

    /// The sign, and the magnitude as an integer of at most 24 digits times a
    /// power of two.
    pub(crate) fn decode(self) -> (r: (bool, u64, i32))
        requires
            self.mag() <= INF_MAG,
        ensures
            r.0 == self.negative(),
            r.1 < 0x100_0000,
            0 <= r.2 <= 254,
            r.2 > 0 ==> r.1 >= FRAC,
            mag_units(self.mag()) == r.1 * pow2(r.2 as nat),
    {
        let (neg, m) = self.split();
        proof {
            lemma2_to64();
        }
        if m < FRAC {
            assert(m * pow2(0) == m) by (nonlinear_arith)
                requires pow2(0) == 1;
            (neg, m as u64, 0)
        } else {
            (neg, (FRAC + m % FRAC) as u64, (m / FRAC - 1) as i32)
        }
    }

    pub(crate) fn split(self) -> (r: (bool, u32))
        ensures
            r.0 == self.negative(),
            r.1 == self.mag(),
    {
        if self.bits >= SIGN_BIT {
            (true, self.bits - SIGN_BIT)
        } else {
            (false, self.bits)
        }
    }
}

/// Larger magnitude bits stand for a larger number.
pub proof fn lemma_mag_units_order(a: int, b: int)
    requires
        0 <= a,
        0 <= b,
    ensures
        a < b <==> mag_units(a) < mag_units(b),
        mag_units(a) >= 0,
{
    lemma_mag_units_le(a, b);
    lemma_mag_units_le(b, a);
    lemma_mag_units_le(0, a);
}

proof fn lemma_mag_units_le(a: int, b: int)
    requires
        0 <= a,
    ensures
        a < b ==> mag_units(a) < mag_units(b),
        a == b ==> mag_units(a) == mag_units(b),
        mag_units(0) == 0,
{
    if a < b && b >= FRAC {
        let f = FRAC as int;
        let eb = b / f - 1;
        let fb = b % f;
        let pb = pow2(eb as nat) as int;
        lemma_pow2_pos(eb as nat);
        assert((f + fb) * pb >= f * pb) by (nonlinear_arith)
            requires fb >= 0, pb > 0;
        if a < f {
            assert(f * pb >= f) by (nonlinear_arith)
                requires pb >= 1, f > 0;
        } else {
            let ea = a / f - 1;
            let fa = a % f;
            let pa = pow2(ea as nat) as int;
            lemma_pow2_pos(ea as nat);
            if ea == eb {
                assert(fa < fb);
                assert((f + fa) * pb < (f + fb) * pb) by (nonlinear_arith)
                    requires fa < fb, pb > 0;
            } else {
                assert(ea < eb) by (nonlinear_arith)
                    requires a < b, f > 0, ea == a / f - 1, eb == b / f - 1, ea != eb;
                lemma_pow2_adds(ea as nat, (eb - ea) as nat);
                lemma_pow2_strictly_increases(0, (eb - ea) as nat);
                lemma2_to64();
                let g = pow2((eb - ea) as nat) as int;
                assert((f + fa) * pa < 2 * f * pa) by (nonlinear_arith)
                    requires fa < f, pa > 0;
                assert(f * pb >= 2 * f * pa) by (nonlinear_arith)
                    requires pb == pa * g, g >= 2, pa > 0, f > 0;
            }
        }
    }
}

} // verus!
