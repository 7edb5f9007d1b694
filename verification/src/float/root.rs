//! The square root.

use super::ops::NAN_BITS;
use super::pack::{bit_length, lemma_scaled, pack, shift_up};
use super::repr::{lemma_mag_units_order, mag_units, F32, INF_MAG};
use super::round::{lemma_nearest_scale, lemma_pow2_order, lemma_sticky, nearest_mag};
use vstd::arithmetic::power2::{lemma2_to64, lemma_pow2_adds, lemma_pow2_pos, lemma_pow2_unfold, pow2};
use vstd::prelude::*;

verus! {

/// Whether `w` is the integer part of the square root of `n`.
pub open spec fn is_floor_root(w: int, n: int) -> bool {
    w >= 0 && w * w <= n < (w + 1) * (w + 1)
}

/// The integer part of the square root of `n`.
pub open spec fn floor_root(n: int) -> int {
    choose|w: int| is_floor_root(w, n)
}

/// Magnitude bits of the number nearest to the square root of `n` units: the
/// root lies on its integer part or strictly above, and halfway marks are
/// integers at this size.
pub open spec fn root_mag(n: int) -> int {
    let w = floor_root(n);
    nearest_mag(
        if w * w == n {
            2 * w
        } else {
            2 * w + 1
        },
        2,
    )
}

proof fn lemma_floor_root_unique(w: int, n: int)
    requires
        is_floor_root(w, n),
    ensures
        floor_root(n) == w,
{
    let v = floor_root(n);
    assert(is_floor_root(v, n));
    if v < w {
        assert((v + 1) * (v + 1) <= w * w) by (nonlinear_arith)
            requires 0 <= v < w;
    }
    if w < v {
        assert((w + 1) * (w + 1) <= v * v) by (nonlinear_arith)
            requires 0 <= w < v;
    }
}

/// The integer part of the square root of an integer of at most 62 digits.
fn floor_root_of(m: u64) -> (w: u64)
    requires
        m < 0x4000_0000_0000_0000,
    ensures
        is_floor_root(w as int, m as int),
        w < 0x8000_0000,
{
    let mut w: u64 = 0;
    let mut top: u64 = 0x8000_0000;
    while top - w > 1
        invariant
            m < 0x4000_0000_0000_0000,
            w < top <= 0x8000_0000,
            w * w <= m < top * top,
        decreases top - w,
    {
        let c: u64 = w + (top - w) / 2;
        assert(c * c <= 0x8000_0000 * 0x8000_0000) by (nonlinear_arith)
            requires 0 <= c <= 0x8000_0000;
        if c * c <= m {
            w = c;
        } else {
            top = c;
        }
    }
    w
}

/// Only squares of multiples of 2 to the `j` are 4 to the `j` times a number, and
/// that number is then a square.
proof fn lemma_square_part(w: int, m: int, j: nat)
    requires
        w >= 0,
        w * w == m * pow2(2 * j),
    ensures
        exists|v: int| v >= 0 && #[trigger] (v * v) == m,
    decreases j,
{
    lemma2_to64();
    if j == 0 {
        assert(m * pow2(0) == m) by (nonlinear_arith)
            requires pow2(0) == 1;
        assert(w >= 0 && w * w == m);
    } else {
        let i = (j - 1) as nat;
        lemma_pow2_adds(2, 2 * i);
        assert(2 + 2 * i == 2 * j);
        let p = pow2(2 * i) as int;
        assert(w * w == 4 * (m * p)) by (nonlinear_arith)
            requires w * w == m * pow2(2 * j), pow2(2 * j) == 4 * p;
        let v = w / 2;
        if w % 2 == 1 {
            assert(w * w == 4 * (v * v + v) + 1) by (nonlinear_arith)
                requires w == 2 * v + 1;
            assert(false);
        }
        assert(w * w == 4 * (v * v)) by (nonlinear_arith)
            requires w == 2 * v;
        lemma_square_part(v, m, i);
    }
}

/// The root of `m` times 4 to the `j` rounds as the integer part of the root of
/// `m` tells.
proof fn lemma_root_scaled(m: int, j: nat, w: int)
    requires
        is_floor_root(w, m),
        w >= 0x100_0000,
    ensures
        w * w == m ==> root_mag(m * pow2(2 * j)) == nearest_mag(w * pow2(j), 1),
        w * w != m ==> root_mag(m * pow2(2 * j)) == nearest_mag((2 * w + 1) * pow2(j), 2),
{
    lemma2_to64();
    lemma_pow2_pos(j);
    lemma_pow2_adds(j, j);
    assert(j + j == 2 * j);
    let p = pow2(j) as int;
    let n = m * pow2(2 * j);
    assert(n == m * (p * p));
    let low = w * p;
    assert(low * low == (w * w) * (p * p)) by (nonlinear_arith)
        requires low == w * p;
    assert(low >= 0) by (nonlinear_arith)
        requires low == w * p, w >= 0, p > 0;
    let pp = p * p;
    assert(pp > 0) by (nonlinear_arith)
        requires pp == p * p, p > 0;
    if w * w == m {
        assert(low * low < (low + 1) * (low + 1)) by (nonlinear_arith)
            requires low >= 0;
        lemma_floor_root_unique(low, n);
        lemma_nearest_scale(low, 1, 2);
    } else {
        assert(low * low <= n) by (nonlinear_arith)
            requires low * low == (w * w) * pp, w * w <= m, n == m * pp, pp > 0;
        let high = (w + 1) * p;
        assert(high * high == ((w + 1) * (w + 1)) * pp) by (nonlinear_arith)
            requires high == (w + 1) * p, pp == p * p;
        assert(n < high * high) by (nonlinear_arith)
            requires high * high == ((w + 1) * (w + 1)) * pp, m < (w + 1) * (w + 1), n == m * pp, pp > 0;
        assert(low < high) by (nonlinear_arith)
            requires low == w * p, high == (w + 1) * p, p > 0;
        lemma_root_between(low, high, n);
        let v = floor_root(n);
        assert(is_floor_root(v, n) && low <= v < high);
        if v * v == n {
            lemma_square_part(v, m, j);
            let u = choose|u: int| u >= 0 && #[trigger] (u * u) == m;
            if u <= w {
                assert(u * u <= w * w) by (nonlinear_arith)
                    requires 0 <= u <= w;
            } else {
                assert(u * u >= (w + 1) * (w + 1)) by (nonlinear_arith)
                    requires u >= w + 1, w >= 0;
            }
        }
        lemma_pow2_unfold(j + 1);
        let d = 2 * p;
        assert(w * d < 2 * v + 1) by (nonlinear_arith)
            requires low <= v, low == w * p, d == 2 * p;
        assert(2 * v + 1 < (w + 1) * d) by (nonlinear_arith)
            requires v + 1 <= high, high == (w + 1) * p, d == 2 * p;
        lemma_sticky(2 * v + 1, d, w, j, 0);
        assert(d * pow2(0) == d) by (nonlinear_arith)
            requires pow2(0) == 1;
        lemma_nearest_scale(2 * v + 1, 2, p);
        assert(p * (2 * v + 1) == (2 * v + 1) * p) by (nonlinear_arith);
        assert(p * 2 == d);
    }
}

/// The root of a number between two squares lies between their roots.
pub proof fn lemma_root_between(low: int, high: int, n: int)
    requires
        0 <= low < high,
        low * low <= n < high * high,
    ensures
        is_floor_root(floor_root(n), n),
        low <= floor_root(n) < high,
    decreases high - low,
{
    if high == low + 1 {
        assert(is_floor_root(low, n));
        lemma_floor_root_unique(low, n);
    } else {
        let mid = low + 1;
        if mid * mid <= n {
            lemma_root_between(mid, high, n);
        } else {
            lemma_root_between(low, mid, n);
        }
    }
}

impl F32 {
    /// The rounded square root; NaN below zero.
    #[verifier::opaque]
    pub open spec fn root(self) -> F32 {
        if self.nan() || (self.negative() && self.mag() != 0) {
            F32::no_number()
        } else if self.mag() == 0 || !self.finite() {
            self
        } else {
            F32::signed(false, root_mag(mag_units(self.mag()) * pow2(149)))
        }
    }

    /// The square root.
    pub fn sqrt(self) -> (r: F32)
        ensures
            r == self.root(),
    {
        reveal(F32::root);
        let (neg, x) = self.split();
        if x > INF_MAG || (neg && x != 0) {
            return F32 { bits: NAN_BITS };
        }
        if x == 0 || x == INF_MAG {
            return self;
        }
        let (_, m0, e0) = self.decode();
        proof {
            lemma_mag_units_order(0, x as int);
            lemma_pow2_pos(e0 as nat);
            assert(m0 > 0) by (nonlinear_arith)
                requires m0 * pow2(e0 as nat) > 0, m0 >= 0;
            lemma2_to64();
        }
        // An even exponent, and 61 or 62 digits.
        let (m1, e1): (u64, i32) = if (e0 + 149) % 2 == 0 {
            (m0, e0 + 149)
        } else {
            (2 * m0, e0 + 148)
        };
        let len = bit_length(m1);
        proof {
            lemma_pow2_unfold((e0 + 149) as nat);
            lemma_pow2_adds(e0 as nat, 149);
            assert((m0 * pow2(e0 as nat)) * pow2(149) == m1 * pow2(e1 as nat)) by (nonlinear_arith)
                requires
                    pow2((e0 + 149) as nat) == pow2(e0 as nat) * pow2(149),
                    (m1 == m0 && e1 == e0 + 149) || (m1 == 2 * m0 && pow2((e0 + 149) as nat) == 2 * pow2(e1 as nat)),
            ;
            if len > 25 {
                lemma_pow2_order(25, (len - 1) as nat);
                assert(false);
            }
        }
        let k: u32 = (62 - len) / 2;
        proof {
            lemma_pow2_adds(len as nat, (2 * k) as nat);
            lemma_pow2_adds((len - 1) as nat, (2 * k) as nat);
            lemma_pow2_order((len + 2 * k) as nat, 62);
            lemma_pow2_order(60, (len - 1 + 2 * k) as nat);
            lemma_pow2_adds(32, 30);
            lemma_pow2_adds(32, 28);
            let w = pow2((2 * k) as nat) as int;
            lemma_pow2_pos((2 * k) as nat);
            assert(m1 * w < pow2(len as nat) * w) by (nonlinear_arith)
                requires m1 < pow2(len as nat), w > 0;
            assert(m1 * w >= pow2((len - 1) as nat) * w) by (nonlinear_arith)
                requires m1 >= pow2((len - 1) as nat), w > 0;
        }
        let m = shift_up(m1, 2 * k);
        let w = floor_root_of(m);
        let j: i32 = e1 / 2 - k as i32;
        proof {
            assert(m >= 0x1000_0000_0000_0000);
            assert(w >= 0x100_0000) by (nonlinear_arith)
                requires m < (w + 1) * (w + 1), m >= 0x1000_0000_0000_0000, w >= 0;
            assert(2 * j + 2 * k == e1);
            lemma_pow2_adds((2 * k) as nat, (2 * j) as nat);
            let a = pow2((2 * k) as nat) as int;
            let b = pow2((2 * j) as nat) as int;
            assert(m1 * pow2(e1 as nat) == m * b) by (nonlinear_arith)
                requires m == m1 * a, pow2(e1 as nat) == a * b;
            lemma_root_scaled(m as int, j as nat, w as int);
            assert(w * w <= 0x8000_0000 * 0x8000_0000) by (nonlinear_arith)
                requires 0 <= w <= 0x8000_0000;
            lemma_scaled(w as int, j as nat, 0);
            lemma_scaled(2 * w + 1, j as nat, 1);
        }
        if w * w == m {
            F32::assemble(false, pack(w, j))
        } else {
            F32::assemble(false, pack(2 * w + 1, j - 1))
        }
    }
}

} // verus!
