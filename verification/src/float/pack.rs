//! Rounding of machine integers times a power of two.

use super::repr::{FRAC, INF_MAG};
use super::round::{
    binade, half_even, lemma_binade_is, lemma_half_even_bounds, lemma_half_even_scale, lemma_nearest_equal,
    lemma_pow2_order, nearest, nearest_mag,
};
use vstd::arithmetic::div_mod::{lemma_fundamental_div_mod, lemma_fundamental_div_mod_converse};
use vstd::arithmetic::power2::{lemma2_to64, lemma_pow2_adds, lemma_pow2_pos, lemma_pow2_unfold, pow2};
use vstd::bits::{lemma_u64_shl_is_mul, lemma_u64_shr_is_div};
use vstd::prelude::*;
use vstd::std_specs::bits::{axiom_u64_leading_zeros, u64_leading_zeros};

verus! {

/// The exponent `e` where it is positive.
pub open spec fn up(e: int) -> nat {
    if e >= 0 {
        e as nat
    } else {
        0
    }
}

/// The exponent `-e` where `e` is negative.
pub open spec fn down(e: int) -> nat {
    up(-e)
}

/// Magnitude bits of the number nearest to `m` times 2 to the `e` units.
pub open spec fn scaled_mag(m: int, e: int) -> int {
    nearest_mag(m * pow2(up(e)), 1int * pow2(down(e)))
}

/// A quotient of powers of two is a power of two.
pub proof fn lemma_scaled(m: int, a: nat, b: nat)
    requires
        m >= 0,
    ensures
        nearest_mag(m * pow2(a), pow2(b) as int) == scaled_mag(m, a - b),
{
    let e = a - b;
    let u = up(e);
    let w = down(e);
    lemma_pow2_pos(a);
    lemma_pow2_pos(b);
    lemma_pow2_pos(u);
    lemma_pow2_pos(w);
    lemma_pow2_adds(a, w);
    lemma_pow2_adds(u, b);
    assert(a + w == u + b);
    let x = pow2(a) as int;
    let y = pow2(b) as int;
    let z = pow2(u) as int;
    let v = pow2(w) as int;
    assert((m * x) * (1 * v) == (m * z) * y) by (nonlinear_arith)
        requires x * v == z * y;
    assert(m * x >= 0 && m * z >= 0) by (nonlinear_arith)
        requires m >= 0, x > 0, z > 0;
    lemma_nearest_equal(m * x, y, m * z, 1 * v);
}

proof fn lemma_leading_zeros(i: u64)
    requires
        i > 0,
    ensures
        0 <= u64_leading_zeros(i) < 64,
        pow2((63 - u64_leading_zeros(i)) as nat) <= i < pow2((64 - u64_leading_zeros(i)) as nat),
    decreases i,
{
    reveal(u64_leading_zeros);
    lemma2_to64();
    axiom_u64_leading_zeros(i);
    axiom_u64_leading_zeros(i / 2);
    if i == 1 {
        assert(u64_leading_zeros(0) == 64);
    } else {
        lemma_leading_zeros(i / 2);
        let z = u64_leading_zeros(i / 2);
        lemma_pow2_unfold((64 - z) as nat);
        lemma_pow2_unfold((65 - z) as nat);
    }
}

/// The number of binary digits of a positive integer.
pub fn bit_length(m: u64) -> (r: u32)
    requires
        m > 0,
    ensures
        1 <= r <= 64,
        pow2((r - 1) as nat) <= m < pow2(r as nat),
{
    proof {
        lemma_leading_zeros(m);
    }
    64 - m.leading_zeros()
}

/// `m` times 2 to the `k`, where that fits.
pub fn shift_up(m: u64, k: u32) -> (r: u64)
    requires
        k < 64,
        m * pow2(k as nat) <= u64::MAX,
    ensures
        r == m * pow2(k as nat),
{
    proof {
        lemma_u64_shl_is_mul(m, k as u64);
    }
    m << (k as u64)
}

/// The quotient and the remainder of `m` by 2 to the `k`.
pub fn split_at(m: u64, k: u32) -> (r: (u64, u64))
    requires
        k < 64,
    ensures
        r.0 == m as int / pow2(k as nat) as int,
        r.1 == m as int % pow2(k as nat) as int,
{
    proof {
        lemma_pow2_pos(k as nat);
        lemma_u64_shr_is_div(m, k as u64);
        lemma_fundamental_div_mod(m as int, pow2(k as nat) as int);
        let q = m as int / pow2(k as nat) as int;
        assert(q * pow2(k as nat) == pow2(k as nat) * q) by (nonlinear_arith);
    }
    let q: u64 = m >> (k as u64);
    (q, m - shift_up(q, k))
}

/// The integer nearest to `m` over 2 to the `k`, ties to even.
fn round_at(m: u64, k: u32) -> (r: u64)
    requires
        k > 0,
    ensures
        r == half_even(m as int, pow2(k as nat) as int),
{
    proof {
        lemma_pow2_pos(k as nat);
        lemma2_to64();
        lemma_pow2_unfold(k as nat);
    }
    if k > 64 {
        proof {
            lemma_pow2_pos((k - 65) as nat);
            lemma_pow2_adds(65, (k - 65) as nat);
            lemma_pow2_unfold(65);
            let a = pow2(65) as int;
            let b = pow2((k - 65) as nat) as int;
            assert(a * b >= a) by (nonlinear_arith)
                requires b >= 1, a > 0;
            lemma_fundamental_div_mod_converse(m as int, pow2(k as nat) as int, 0, m as int);
        }
        0
    } else if k == 64 {
        proof {
            lemma_fundamental_div_mod_converse(m as int, pow2(k as nat) as int, 0, m as int);
        }
        if m > 0x8000_0000_0000_0000 {
            1
        } else {
            0
        }
    } else {
        let (q, rem) = split_at(m, k);
        proof {
            let h = pow2((k - 1) as nat) as int;
            lemma_pow2_pos((k - 1) as nat);
            lemma_pow2_order((k - 1) as nat, 63);
            lemma_pow2_unfold(64);
            assert(1 * h == h);
            lemma_fundamental_div_mod(m as int, 2 * h);
            assert(q <= m) by (nonlinear_arith)
                requires m == (2 * h) * q + rem, h >= 1, rem >= 0, q >= 0;
            assert(q == m ==> m == 0) by (nonlinear_arith)
                requires m == (2 * h) * q + rem, h >= 1, rem >= 0, q >= 0;
        }
        let half = shift_up(1, k - 1);
        if rem < half || (rem == half && q % 2 == 0) {
            q
        } else {
            q + 1
        }
    }
}

/// Rounds `m` times 2 to the `e` units to the nearest magnitude.
pub fn pack(m: u64, e: i32) -> (r: u32)
    requires
        -1000 <= e <= 1000,
    ensures
        r == scaled_mag(m as int, e as int),
        r <= INF_MAG,
{
    let ghost n = m * pow2(up(e as int));
    let ghost d = 1int * pow2(down(e as int));
    proof {
        lemma2_to64();
        lemma_pow2_pos(up(e as int));
        lemma_pow2_pos(down(e as int));
    }
    if m == 0 {
        proof {
            assert(n == 0) by (nonlinear_arith)
                requires n == m * pow2(up(e as int)), m == 0;
            assert(binade(0, d) == 0);
            assert(d * pow2(0) == d) by (nonlinear_arith)
                requires pow2(0) == 1;
            lemma_fundamental_div_mod_converse(0, d, 0, 0);
        }
        return 0;
    }
    let len = bit_length(m) as i32;
    let s: i32 = if len + e > 24 { len + e - 24 } else { 0 };
    let k: i32 = s - e;
    proof {
        lemma_pack_binade(m as int, e as int, len as nat, s as nat);
    }
    let q: u64 = if k > 0 {
        proof {
            lemma_pow2_pos(k as nat);
            lemma_pow2_adds(up(e as int), k as nat);
            lemma_pow2_adds(down(e as int), s as nat);
            lemma_half_even_scale(m as int, pow2(k as nat) as int, pow2(up(e as int)) as int);
            let a = pow2(up(e as int)) as int;
            assert(a * m == m * a) by (nonlinear_arith);
        }
        round_at(m, k as u32)
    } else {
        proof {
            let j = (-k) as nat;
            lemma_pow2_adds(down(e as int) + s as nat, j);
            lemma_pow2_adds(down(e as int), s as nat);
            lemma_pow2_pos(j);
            lemma_pow2_pos(down(e as int) + s as nat);
            let a = pow2(j) as int;
            let b = pow2((down(e as int) + s as nat)) as int;
            assert(down(e as int) + s as nat + j == up(e as int));
            assert(n == (m * a) * b) by (nonlinear_arith)
                requires n == m * pow2(up(e as int)), pow2(up(e as int)) == b * a;
            lemma_fundamental_div_mod_converse(n, b, m * a, 0);
            // m << j has at most 24 digits.
            lemma_pow2_adds(len as nat, j);
            lemma_pow2_order(len as nat + j, 24);
            assert(m * a < pow2(len as nat) * a) by (nonlinear_arith)
                requires m < pow2(len as nat), a > 0;
        }
        shift_up(m, (-k) as u32)
    };
    proof {
        let b = d * pow2(s as nat);
        lemma_pow2_pos(s as nat);
        assert(b > 0) by (nonlinear_arith)
            requires b == d * pow2(s as nat), d > 0, pow2(s as nat) > 0;
        assert(q == half_even(n, b));
        lemma_half_even_bounds(n, b, 0x100_0000);
        if s > 0 {
            lemma_pow2_unfold(s as nat);
            let c = pow2((s - 1) as nat) as int;
            assert(b == 2 * (d * c)) by (nonlinear_arith)
                requires b == d * pow2(s as nat), pow2(s as nat) == 2 * c;
            lemma_half_even_bounds(n, b, 0x80_0000);
        }
        assert(nearest(n, d) == s * FRAC + q);
    }
    if s >= 254 {
        return INF_MAG;
    }
    let mag = (s as u32) * FRAC + q as u32;
    if mag < INF_MAG {
        mag
    } else {
        INF_MAG
    }
}

proof fn lemma_pack_binade(m: int, e: int, len: nat, s: nat)
    requires
        m > 0,
        1 <= len <= 64,
        pow2((len - 1) as nat) <= m < pow2(len),
        s == if len + e > 24 { len + e - 24 } else { 0 },
    ensures
        binade(m * pow2(up(e)), 1int * pow2(down(e))) == s,
        m * pow2(up(e)) < 0x100_0000 * (1int * pow2(down(e)) * pow2(s)),
        s == 0 || m * pow2(up(e)) >= 0x100_0000 * (1int * pow2(down(e)) * pow2((s - 1) as nat)),
{
    lemma2_to64();
    let u = up(e);
    let w = down(e);
    let a = pow2(u) as int;
    let b = pow2(w) as int;
    lemma_pow2_pos(u);
    lemma_pow2_pos(w);
    lemma_pow2_adds(len, u);
    lemma_pow2_adds(w, s);
    lemma_pow2_adds(24, w + s);
    lemma_pow2_order(len + u, 24 + (w + s));
    assert(m * a < pow2(len) * a) by (nonlinear_arith)
        requires m < pow2(len), a > 0;
    assert(pow2(24) == 0x100_0000);
    assert(m * a >= 0) by (nonlinear_arith)
        requires m > 0, a > 0;
    if s > 0 {
        let t = (s - 1) as nat;
        lemma_pow2_adds((len - 1) as nat, u);
        lemma_pow2_adds(w, t);
        lemma_pow2_adds(24, w + t);
        lemma_pow2_order(24 + (w + t), (len - 1) as nat + u);
        assert(m * a >= pow2((len - 1) as nat) * a) by (nonlinear_arith)
            requires m >= pow2((len - 1) as nat), a > 0;
    }
    lemma_binade_is(m * a, 1 * b, s);
}

} // verus!
