//! Addition, subtraction, multiplication, division and remainder, each the exact
//! result rounded once.

use super::pack::{bit_length, down, lemma_scaled, pack, shift_up, up};
use super::repr::{lemma_mag_units_order, mag_units, F32, FRAC, INF_MAG, SIGN_BIT};
use super::round::{
    distance, lemma_nearest_equal, lemma_nearest_exact, lemma_nearest_positive, lemma_nearest_scale, lemma_pow2_order,
    lemma_sticky, nearest, nearest_mag,
};
use core::ops::{Add, Div, Mul, Neg, Rem, Sub};
use vstd::arithmetic::div_mod::{lemma_fundamental_div_mod, lemma_fundamental_div_mod_converse};
use vstd::arithmetic::power2::{lemma2_to64, lemma_pow2_adds, lemma_pow2_pos, lemma_pow2_unfold, pow2};
use vstd::prelude::*;
use vstd::std_specs::ops::{AddSpecImpl, DivSpecImpl, MulSpecImpl, NegSpecImpl, RemSpecImpl, SubSpecImpl};

verus! {

/// The NaN that operations give back.
pub const NAN_BITS: u32 = 0x7FC0_0000;

impl F32 {
    /// The NaN that operations give back.
    pub open spec fn no_number() -> F32 {
        F32 { bits: NAN_BITS }
    }

    /// The number nearest to `n / d` units; zero has the sign `negative`.
    pub open spec fn rounded(n: int, d: int, negative: bool) -> F32 {
        if n == 0 {
            F32::signed(negative, 0)
        } else {
            F32::signed(n < 0, nearest_mag(distance(n, 0), d))
        }
    }

    /// `self` with its sign turned.
    pub open spec fn spec_neg(self) -> F32 {
        F32 {
            bits: if self.negative() {
                (self.bits - SIGN_BIT) as u32
            } else {
                (self.bits + SIGN_BIT) as u32
            },
        }
    }

    /// The rounded sum.
    #[verifier::opaque]
    pub open spec fn spec_add(self, other: F32) -> F32 {
        if self.nan() || other.nan() {
            F32::no_number()
        } else if !self.finite() {
            if !other.finite() && self.negative() != other.negative() {
                F32::no_number()
            } else {
                self
            }
        } else if !other.finite() {
            other
        } else {
            F32::rounded(self.units() + other.units(), 1, self.negative() && other.negative())
        }
    }

    /// The rounded product.
    #[verifier::opaque]
    pub open spec fn spec_mul(self, other: F32) -> F32 {
        let negative = self.negative() != other.negative();
        if self.nan() || other.nan() {
            F32::no_number()
        } else if !self.finite() || !other.finite() {
            if self.mag() == 0 || other.mag() == 0 {
                F32::no_number()
            } else {
                F32::signed(negative, INF_MAG as int)
            }
        } else {
            F32::signed(
                negative,
                nearest_mag(mag_units(self.mag()) * mag_units(other.mag()), pow2(149) as int),
            )
        }
    }

    /// The rounded quotient.
    #[verifier::opaque]
    pub open spec fn spec_euclidean_or_real_div(self, other: F32) -> F32 {
        let negative = self.negative() != other.negative();
        if self.nan() || other.nan() {
            F32::no_number()
        } else if !self.finite() {
            if !other.finite() {
                F32::no_number()
            } else {
                F32::signed(negative, INF_MAG as int)
            }
        } else if !other.finite() {
            F32::signed(negative, 0)
        } else if other.mag() == 0 {
            if self.mag() == 0 {
                F32::no_number()
            } else {
                F32::signed(negative, INF_MAG as int)
            }
        } else {
            F32::signed(
                negative,
                nearest_mag(mag_units(self.mag()) * pow2(149), mag_units(other.mag())),
            )
        }
    }

    /// The remainder of the truncated quotient: it has the sign of `self`.
    #[verifier::opaque]
    pub open spec fn spec_euclidean_mod(self, other: F32) -> F32 {
        if self.nan() || other.nan() || !self.finite() || other.mag() == 0 {
            F32::no_number()
        } else if !other.finite() {
            self
        } else {
            F32::signed(
                self.negative(),
                nearest_mag(mag_units(self.mag()) % mag_units(other.mag()), 1),
            )
        }
    }

    /// The rounded difference.
    pub open spec fn spec_sub(self, other: F32) -> F32 {
        self.spec_add(other.spec_neg())
    }
}

/// Rounding the sum of `ma * 2^ea` and `mb * 2^eb` (or their difference, for
/// `minus`) can start from `ma` alone, with the rest jammed into a last digit,
/// where `eb` is that far below `ea`.
proof fn lemma_far_sum(ma: int, ea: nat, mb: int, eb: nat, minus: bool, t: int)
    requires
        FRAC <= ma < 0x100_0000,
        0 < mb < 0x100_0000,
        ea >= eb + 39,
        t == if minus { ma * 0x4000 - 1 } else { ma * 0x4000 },
    ensures
        nearest(
            if minus { ma * pow2(ea) - mb * pow2(eb) } else { ma * pow2(ea) + mb * pow2(eb) },
            1,
        ) == nearest((2 * t + 1) * pow2((ea - 14) as nat), 2),
        (if minus { ma * pow2(ea) - mb * pow2(eb) } else { ma * pow2(ea) + mb * pow2(eb) }) > 0,
{
    lemma2_to64();
    let p = (ea - 14) as nat;
    lemma_pow2_adds(14, p);
    lemma_pow2_adds(eb, (p - eb) as nat);
    lemma_pow2_order(25, (p - eb) as nat);
    lemma_pow2_pos(eb);
    lemma_pow2_pos(p);
    // In units of 2^p the small operand is less than one.
    let d = pow2((p - eb) as nat) as int;
    let x = pow2(eb) as int;
    let y = pow2(p) as int;
    let sign: int = if minus { -1 } else { 1 };
    let n = ma * 0x4000 * d + sign * mb;
    assert(0 < mb < d);
    assert(t * d < n < (t + 1) * d) by (nonlinear_arith)
        requires
            n == ma * 0x4000 * d + sign * mb,
            0 < mb < d,
            (sign == -1 && t == ma * 0x4000 - 1) || (sign == 1 && t == ma * 0x4000),
    ;
    assert(t >= 0x100_0000);
    lemma_sticky(n, d, t, p, 0);
    let exact = if minus { ma * pow2(ea) - mb * pow2(eb) } else { ma * pow2(ea) + mb * pow2(eb) };
    assert(exact == n * x) by (nonlinear_arith)
        requires
            n == ma * 0x4000 * d + sign * mb,
            exact == ma * pow2(ea) + sign * (mb * x),
            pow2(ea) == 0x4000 * y,
            y == x * d,
    ;
    assert(n > 0) by (nonlinear_arith)
        requires t * d < n, t >= 0, d > 0;
    assert(n * x > 0) by (nonlinear_arith)
        requires n > 0, x > 0;
    assert(n * y == d * (n * x)) by (nonlinear_arith)
        requires y == x * d;
    assert(d * pow2(0) == d * 1) by (nonlinear_arith)
        requires pow2(0) == 1;
    lemma_nearest_scale(n * x, 1, d);
}

/// Magnitude bits of the rounded sum (or the absolute difference, for `minus`)
/// of two magnitudes, and whether it is the second that is larger.
fn add_magnitudes(ma: u64, ea: i32, mb: u64, eb: i32, minus: bool) -> (r: (u32, bool))
    requires
        ma < 0x100_0000,
        mb < 0x100_0000,
        0 <= eb <= ea <= 254,
        ea > 0 ==> ma >= FRAC,
    ensures
        ({
            let a = ma * pow2(ea as nat);
            let b = mb * pow2(eb as nat);
            let s = if minus { a - b } else { a + b };
            &&& r.0 == nearest_mag(distance(s, 0), 1)
            &&& r.1 == (s < 0)
            &&& r.0 <= INF_MAG
        }),
{
    let d = ea - eb;
    let ghost a = ma * pow2(ea as nat);
    let ghost b = mb * pow2(eb as nat);
    proof {
        lemma2_to64();
        lemma_pow2_pos(eb as nat);
        lemma_pow2_pos(ea as nat);
        assert(a >= 0 && b >= 0) by (nonlinear_arith)
            requires a == ma * pow2(ea as nat), b == mb * pow2(eb as nat);
    }
    if d < 39 {
        proof {
            lemma_pow2_adds(eb as nat, d as nat);
            lemma_pow2_order(d as nat, 38);
            lemma_pow2_adds(32, 6);
            let w = pow2(d as nat) as int;
            assert(ma * w < 0x100_0000 * 0x40_0000_0000) by (nonlinear_arith)
                requires 0 <= ma < 0x100_0000, 0 < w <= 0x40_0000_0000;
            let x = pow2(eb as nat) as int;
            assert(a == (ma * w) * x) by (nonlinear_arith)
                requires a == ma * pow2(ea as nat), pow2(ea as nat) == x * w;
            assert((ma * w + mb) * x == a + b) by (nonlinear_arith)
                requires a == (ma * w) * x, b == mb * x;
            assert((ma * w - mb) * x == a - b) by (nonlinear_arith)
                requires a == (ma * w) * x, b == mb * x;
            assert((mb - ma * w) * x == b - a) by (nonlinear_arith)
                requires a == (ma * w) * x, b == mb * x;
            assert(a < b <==> ma * w < mb) by (nonlinear_arith)
                requires a == (ma * w) * x, b == mb * x, x > 0;
            assert(1int * pow2(0) == 1);
        }
        let high = shift_up(ma, d as u32);
        if !minus {
            (pack(high + mb, eb), false)
        } else if high < mb {
            (pack(mb - high, eb), true)
        } else {
            (pack(high - mb, eb), false)
        }
    } else if mb == 0 {
        proof {
            assert(b == 0) by (nonlinear_arith)
                requires b == mb * pow2(eb as nat), mb == 0;
            assert(1int * pow2(0) == 1);
        }
        (pack(ma, ea), false)
    } else {
        let t: u64 = if minus { ma * 0x4000 - 1 } else { ma * 0x4000 };
        proof {
            lemma_far_sum(ma as int, ea as nat, mb as int, eb as nat, minus, t as int);
            lemma_pow2_unfold((ea - 14) as nat);
            let y = pow2((ea - 15) as nat) as int;
            lemma_pow2_pos((ea - 15) as nat);
            let m = 2 * t + 1;
            assert(m * pow2((ea - 14) as nat) == 2 * (m * y)) by (nonlinear_arith)
                requires pow2((ea - 14) as nat) == 2 * y;
            assert(m * y >= 0) by (nonlinear_arith)
                requires m >= 0, y > 0;
            lemma_nearest_scale(m * y, 1, 2);
            assert(1int * pow2(0) == 1);
        }
        (pack(2 * t + 1, ea - 15), false)
    }
}

impl Neg for F32 {
    type Output = F32;

    fn neg(self) -> (r: F32) {
        if self.bits >= SIGN_BIT {
            F32 { bits: self.bits - SIGN_BIT }
        } else {
            F32 { bits: self.bits + SIGN_BIT }
        }
    }
}

impl NegSpecImpl for F32 {
    open spec fn obeys_neg_spec() -> bool {
        true
    }

    open spec fn neg_req(self) -> bool {
        true
    }

    open spec fn neg_spec(self) -> F32 {
        self.spec_neg()
    }
}

impl Add for F32 {
    type Output = F32;

    fn add(self, other: F32) -> (r: F32) {
        proof {
            reveal(F32::spec_add);
        }
        let (na, xa) = self.split();
        let (nb, xb) = other.split();
        if xa > INF_MAG || xb > INF_MAG {
            return F32 { bits: NAN_BITS };
        }
        if xa == INF_MAG {
            return if xb == INF_MAG && na != nb { F32 { bits: NAN_BITS } } else { self };
        }
        if xb == INF_MAG {
            return other;
        }
        let (_, ma, ea) = self.decode();
        let (_, mb, eb) = other.decode();
        let (mag, turned) = if ea >= eb {
            add_magnitudes(ma, ea, mb, eb, na != nb)
        } else {
            let (m, t) = add_magnitudes(mb, eb, ma, ea, na != nb);
            (m, !t)
        };
        proof {
            lemma_mag_units_order(xa as int, xb as int);
            lemma_mag_units_order(xb as int, xa as int);
            lemma_nearest_positive(distance(self.units() + other.units(), 0), 1);
        }
        if mag == 0 {
            F32::assemble(na && nb, 0)
        } else if na != nb {
            F32::assemble(na != turned, mag)
        } else {
            F32::assemble(na, mag)
        }
    }
}

impl AddSpecImpl for F32 {
    open spec fn obeys_add_spec() -> bool {
        true
    }

    open spec fn add_req(self, other: F32) -> bool {
        true
    }

    open spec fn add_spec(self, other: F32) -> F32 {
        self.spec_add(other)
    }
}

impl Sub for F32 {
    type Output = F32;

    fn sub(self, other: F32) -> (r: F32) {
        self + other.neg()
    }
}

impl SubSpecImpl for F32 {
    open spec fn obeys_sub_spec() -> bool {
        true
    }

    open spec fn sub_req(self, other: F32) -> bool {
        true
    }

    open spec fn sub_spec(self, other: F32) -> F32 {
        self.spec_sub(other)
    }
}

impl Mul for F32 {
    type Output = F32;

    fn mul(self, other: F32) -> (r: F32) {
        proof {
            reveal(F32::spec_mul);
        }
        let (na, xa) = self.split();
        let (nb, xb) = other.split();
        let neg = na != nb;
        if xa > INF_MAG || xb > INF_MAG {
            return F32 { bits: NAN_BITS };
        }
        if xa == INF_MAG || xb == INF_MAG {
            return if xa == 0 || xb == 0 {
                F32 { bits: NAN_BITS }
            } else {
                F32::assemble(neg, INF_MAG)
            };
        }
        let (_, ma, ea) = self.decode();
        let (_, mb, eb) = other.decode();
        assert(ma * mb < 0x100_0000 * 0x100_0000) by (nonlinear_arith)
            requires 0 <= ma < 0x100_0000, 0 <= mb < 0x100_0000;
        proof {
            let x = pow2(ea as nat) as int;
            let y = pow2(eb as nat) as int;
            lemma_pow2_adds(ea as nat, eb as nat);
            assert((ma * x) * (mb * y) == (ma * mb) * (x * y)) by (nonlinear_arith);
            assert(ma * mb >= 0) by (nonlinear_arith);
            lemma_scaled(ma * mb, ea as nat + eb as nat, 149);
        }
        F32::assemble(neg, pack(ma * mb, ea + eb - 149))
    }
}

impl MulSpecImpl for F32 {
    open spec fn obeys_mul_spec() -> bool {
        true
    }

    open spec fn mul_req(self, other: F32) -> bool {
        true
    }

    open spec fn mul_spec(self, other: F32) -> F32 {
        self.spec_mul(other)
    }
}

/// Magnitude bits of the number nearest to `ma / mb` times 2 to the `e` units.
pub(crate) fn pack_quotient(ma: u64, mb: u64, e: i32) -> (r: u32)
    requires
        0 < ma,
        0 < mb,
        mb < 0x40_0000_0000,
        -500 <= e <= 500,
    ensures
        r == nearest_mag(ma * pow2(up(e as int)), mb * pow2(down(e as int))),
        r <= INF_MAG,
{
    let len = bit_length(ma);
    // Bring the dividend to 63 digits.
    let (n, k): (u64, i32) = if len == 64 {
        (ma, 0)
    } else {
        proof {
            lemma_pow2_adds(len as nat, (63 - len) as nat);
            lemma_pow2_pos((63 - len) as nat);
            let w = pow2((63 - len) as nat) as int;
            assert(ma * w < pow2(len as nat) * w) by (nonlinear_arith)
                requires ma < pow2(len as nat), w > 0;
            lemma_pow2_adds((len - 1) as nat, (63 - len) as nat);
            assert(ma * w >= pow2((len - 1) as nat) * w) by (nonlinear_arith)
                requires ma >= pow2((len - 1) as nat), w > 0;
            lemma_pow2_order(63, 64);
            lemma2_to64();
        }
        (shift_up(ma, 63 - len), (63 - len) as i32)
    };
    let t = n / mb;
    let rem = n % mb;
    let f = e - k;
    proof {
        lemma2_to64();
        lemma_pow2_unfold(64);
        lemma_pow2_unfold(63);
        assert(n >= pow2(62));
        assert(n == ma * pow2(k as nat)) by {
            if k == 0 {
                assert(ma * pow2(0) == ma) by (nonlinear_arith)
                    requires pow2(0) == 1;
            }
        }
        lemma_quotient_shift(ma as int, mb as int, e as int, k as nat);
        lemma_fundamental_div_mod(n as int, mb as int);
        assert(t >= 0x100_0000) by (nonlinear_arith)
            requires
                n == mb * t + rem,
                0 <= rem < mb,
                n >= 0x4000_0000_0000_0000,
                mb < 0x40_0000_0000,
        ;
        lemma_pow2_pos(up(f as int));
        lemma_pow2_pos(down(f as int));
    }
    if rem == 0 {
        proof {
            let x = pow2(up(f as int)) as int;
            let y = pow2(down(f as int)) as int;
            assert((n * x) * (1 * y) == (t * x) * (mb * y)) by (nonlinear_arith)
                requires n == mb * t;
            assert(n * x >= 0 && t * x >= 0 && mb * y > 0) by (nonlinear_arith)
                requires n >= 0, x > 0, t >= 0, mb > 0, y > 0;
            lemma_nearest_equal(n * x, mb * y, t * x, 1 * y);
        }
        pack(t, f)
    } else {
        proof {
            assert(mb >= 2) by (nonlinear_arith)
                requires n == mb * t + rem, 0 < rem < mb;
            assert(2 * t <= n) by (nonlinear_arith)
                requires n == mb * t + rem, mb >= 2, t >= 0, rem > 0;
            assert(t * mb < n < (t + 1) * mb) by (nonlinear_arith)
                requires n == mb * t + rem, 0 < rem < mb;
            lemma_sticky(n as int, mb as int, t as int, up(f as int), down(f as int));
            let x = pow2(up(f as int)) as int;
            let y = pow2(down(f as int)) as int;
            let m = 2 * t + 1;
            lemma_pow2_adds(1, down(f as int));
            lemma_scaled(m, up(f as int), 1 + down(f as int));
            assert(up(f as int) - (1 + down(f as int)) == f - 1);
        }
        pack(2 * t + 1, f - 1)
    }
}

proof fn lemma_quotient_shift(a: int, b: int, e: int, k: nat)
    requires
        a >= 0,
        b > 0,
    ensures
        nearest_mag(a * pow2(up(e)), b * pow2(down(e))) == nearest_mag(
            (a * pow2(k)) * pow2(up(e - k)),
            b * pow2(down(e - k)),
        ),
{
    let f = e - k;
    let x = pow2(up(e)) as int;
    let y = pow2(down(e)) as int;
    let z = pow2(up(f)) as int;
    let w = pow2(down(f)) as int;
    let c = pow2(k) as int;
    lemma_pow2_pos(up(e));
    lemma_pow2_pos(down(e));
    lemma_pow2_pos(up(f));
    lemma_pow2_pos(down(f));
    lemma_pow2_pos(k);
    lemma_pow2_adds(up(e), down(f));
    lemma_pow2_adds(k, up(f));
    lemma_pow2_adds(k + up(f), down(e));
    assert(up(e) + down(f) == k + up(f) + down(e));
    assert((a * x) * (b * w) == (a * b) * (x * w)) by (nonlinear_arith);
    assert(((a * c) * z) * (b * y) == (a * b) * ((c * z) * y)) by (nonlinear_arith);
    assert(a * x >= 0 && (a * c) * z >= 0 && b * w > 0 && b * y > 0) by (nonlinear_arith)
        requires a >= 0, b > 0, x > 0, y > 0, z > 0, w > 0, c > 0;
    lemma_nearest_equal(a * x, b * y, (a * c) * z, b * w);
}

impl Div for F32 {
    type Output = F32;

    fn div(self, other: F32) -> (r: F32) {
        proof {
            reveal(F32::spec_euclidean_or_real_div);
        }
        let (na, xa) = self.split();
        let (nb, xb) = other.split();
        let neg = na != nb;
        if xa > INF_MAG || xb > INF_MAG {
            return F32 { bits: NAN_BITS };
        }
        if xa == INF_MAG {
            return if xb == INF_MAG {
                F32 { bits: NAN_BITS }
            } else {
                F32::assemble(neg, INF_MAG)
            };
        }
        if xb == INF_MAG {
            return F32::assemble(neg, 0);
        }
        if xb == 0 {
            return if xa == 0 {
                F32 { bits: NAN_BITS }
            } else {
                F32::assemble(neg, INF_MAG)
            };
        }
        proof {
            lemma_mag_units_order(0, xa as int);
            lemma_mag_units_order(0, xb as int);
            lemma_nearest_positive(0, mag_units(xb as int));
            assert(0 * pow2(149) == 0);
        }
        if xa == 0 {
            return F32::assemble(neg, 0);
        }
        let (_, ma, ea) = self.decode();
        let (_, mb, eb) = other.decode();
        proof {
            let x = pow2(ea as nat) as int;
            let y = pow2(eb as nat) as int;
            lemma_pow2_pos(ea as nat);
            lemma_pow2_pos(eb as nat);
            assert(ma > 0) by (nonlinear_arith)
                requires ma * x > 0, ma >= 0;
            assert(mb > 0) by (nonlinear_arith)
                requires mb * y > 0, mb >= 0;
            lemma_quotient_powers(ma as int, ea as nat, mb as int, eb as nat);
        }
        F32::assemble(neg, pack_quotient(ma, mb, ea + 149 - eb))
    }
}

proof fn lemma_quotient_powers(ma: int, ea: nat, mb: int, eb: nat)
    requires
        ma > 0,
        mb > 0,
    ensures
        nearest_mag((ma * pow2(ea)) * pow2(149), mb * pow2(eb)) == nearest_mag(
            ma * pow2(up(ea + 149 - eb)),
            mb * pow2(down(ea + 149 - eb)),
        ),
{
    let e = ea + 149 - eb;
    let x = pow2(ea) as int;
    let y = pow2(eb) as int;
    let k = pow2(149) as int;
    let z = pow2(up(e)) as int;
    let w = pow2(down(e)) as int;
    lemma_pow2_pos(ea);
    lemma_pow2_pos(eb);
    lemma_pow2_pos(149);
    lemma_pow2_pos(up(e));
    lemma_pow2_pos(down(e));
    lemma_pow2_adds(ea, 149);
    lemma_pow2_adds(ea + 149, down(e));
    lemma_pow2_adds(up(e), eb);
    assert(ea + 149 + down(e) == up(e) + eb);
    assert(((ma * x) * k) * (mb * w) == (ma * mb) * ((x * k) * w)) by (nonlinear_arith);
    assert((ma * z) * (mb * y) == (ma * mb) * (z * y)) by (nonlinear_arith);
    assert((ma * x) * k > 0 && mb * y > 0 && ma * z > 0 && mb * w > 0) by (nonlinear_arith)
        requires ma > 0, mb > 0, x > 0, y > 0, z > 0, w > 0, k > 0;
    lemma_nearest_equal((ma * x) * k, mb * y, ma * z, mb * w);
}

impl DivSpecImpl for F32 {
    open spec fn obeys_div_spec() -> bool {
        true
    }

    open spec fn div_req(self, other: F32) -> bool {
        true
    }

    open spec fn div_spec(self, other: F32) -> F32 {
        self.spec_euclidean_or_real_div(other)
    }
}

impl Rem for F32 {
    type Output = F32;

    fn rem(self, other: F32) -> (r: F32) {
        proof {
            reveal(F32::spec_euclidean_mod);
        }
        let (na, xa) = self.split();
        let (_, xb) = other.split();
        if xa >= INF_MAG || xb > INF_MAG || xb == 0 {
            return F32 { bits: NAN_BITS };
        }
        if xb == INF_MAG {
            return self;
        }
        let (_, ma, ea) = self.decode();
        let (_, mb, eb) = other.decode();
        let ghost ua = mag_units(xa as int);
        let ghost ub = mag_units(xb as int);
        proof {
            lemma_mag_units_order(0, xa as int);
            lemma_mag_units_order(0, xb as int);
            lemma_mag_units_order(xa as int, xb as int);
        }
        if xa < xb {
            proof {
                lemma_fundamental_div_mod_converse(ua, ub, 0, ua);
                lemma_nearest_exact(xa as int);
            }
            return F32::assemble(na, xa);
        }
        proof {
            lemma_pow2_pos(eb as nat);
            assert(mb > 0) by (nonlinear_arith)
                requires mb * pow2(eb as nat) > 0, mb >= 0;
            lemma_exponent_order(ma as int, ea as nat, mb as int, eb as nat);
        }
        let mut r: u64 = ma % mb;
        let mut i: i32 = eb;
        proof {
            lemma2_to64();
            assert(ma * pow2(0) == ma) by (nonlinear_arith)
                requires pow2(0) == 1;
        }
        while i < ea
            invariant
                eb <= i <= ea <= 254,
                0 <= eb,
                0 < mb < 0x100_0000,
                r < mb,
                r == (ma * pow2((i - eb) as nat)) % (mb as int),
            decreases ea - i,
        {
            proof {
                let w = pow2((i - eb) as nat) as int;
                lemma_pow2_unfold((i + 1 - eb) as nat);
                let n = ma * w;
                lemma_fundamental_div_mod(n, mb as int);
                let q = n / (mb as int);
                lemma_fundamental_div_mod(2 * (r as int), mb as int);
                let c = (2 * r) / (mb as int);
                let v = (2 * r) % (mb as int);
                assert(ma * (2 * w) == (2 * q + c) * mb + v) by (nonlinear_arith)
                    requires n == mb * q + r, n == ma * w, 2 * r == mb * c + v;
                lemma_fundamental_div_mod_converse(ma * (2 * w), mb as int, 2 * q + c, v);
            }
            r = (2 * r) % mb;
            i = i + 1;
        }
        proof {
            let w = pow2((ea - eb) as nat) as int;
            let y = pow2(eb as nat) as int;
            lemma_pow2_adds((ea - eb) as nat, eb as nat);
            let n = ma * w;
            lemma_fundamental_div_mod(n, mb as int);
            let q = n / (mb as int);
            assert(ua == q * ub + r * y) by (nonlinear_arith)
                requires
                    ua == ma * pow2(ea as nat),
                    pow2(ea as nat) == w * y,
                    n == ma * w,
                    n == mb * q + r,
                    ub == mb * y,
            ;
            assert(0 <= r * y < ub) by (nonlinear_arith)
                requires 0 <= r < mb, y > 0, ub == mb * y;
            lemma_fundamental_div_mod_converse(ua, ub, q, r * y);
            assert(1int * pow2(0) == 1);
        }
        F32::assemble(na, pack(r, eb))
    }
}

proof fn lemma_exponent_order(ma: int, ea: nat, mb: int, eb: nat)
    requires
        0 <= ma < 0x100_0000,
        0 <= mb < 0x100_0000,
        eb > 0 ==> mb >= FRAC,
        ma * pow2(ea) >= mb * pow2(eb),
    ensures
        ea >= eb,
{
    if ea < eb {
        lemma_pow2_adds(ea, (eb - ea) as nat);
        lemma2_to64();
        lemma_pow2_order(1, (eb - ea) as nat);
        lemma_pow2_pos(ea);
        let x = pow2(ea) as int;
        let g = pow2((eb - ea) as nat) as int;
        assert(ma * x < mb * (x * g)) by (nonlinear_arith)
            requires ma < 0x100_0000, mb >= 0x80_0000, g >= 2, x > 0;
    }
}

impl RemSpecImpl for F32 {
    open spec fn obeys_rem_spec() -> bool {
        true
    }

    open spec fn rem_req(self, other: F32) -> bool {
        true
    }

    open spec fn rem_spec(self, other: F32) -> F32 {
        self.spec_euclidean_mod(other)
    }
}

} // verus!
