//! How far rounded results are from exact ones.

use super::laws::{
    lemma_bounded_is_finite, lemma_div_rounded, lemma_mul_rounded, lemma_neg, lemma_quotient_number,
    lemma_rounded_between, lemma_signed, lemma_whole, one_units,
};
use super::repr::{lemma_mag_units_order, mag_units, F32, FRAC};
use super::root::{floor_root, lemma_root_between};
use super::round::{
    binade, distance, half_even, lemma_binade_bounds, lemma_half_even_bounds, lemma_mag_units_at, lemma_nearest_exact,
    lemma_nearest_is_nearest, lemma_nearest_order, lemma_nearest_positive, lemma_pow2_order, nearest, nearest_mag,
};
use vstd::arithmetic::div_mod::lemma_fundamental_div_mod;
use vstd::arithmetic::power2::{lemma2_to64, lemma_pow2_adds, lemma_pow2_pos, lemma_pow2_unfold, pow2};
use vstd::prelude::*;

verus! {

/// Half the distance between neighbours from two to four, in units: no result below
/// four is rounded by more.
pub open spec fn slack() -> int {
    pow2(126) as int
}

/// Slack is a part of one.
pub proof fn lemma_slack()
    ensures
        slack() > 0,
        one_units() == 0x80_0000 * slack(),
{
    lemma2_to64();
    lemma_pow2_pos(126);
    lemma_pow2_adds(23, 126);
}

/// What is as many times as large is no larger than as many times the bound.
pub proof fn lemma_times_bound(x: int, bound: int, times: int)
    requires
        times > 0,
        distance(x * times, 0) <= bound * times,
    ensures
        distance(x, 0) <= bound,
{
    assert(-bound <= x <= bound) by (nonlinear_arith)
        requires -(bound * times) <= x * times <= bound * times, times > 0;
}

/// A product is bounded by the product of bounds.
pub proof fn lemma_product_bound(x: int, y: int, a: int, b: int)
    requires
        distance(x, 0) <= a,
        distance(y, 0) <= b,
    ensures
        distance(x * y, 0) <= a * b,
{
    assert(-(a * b) <= x * y <= a * b) by (nonlinear_arith)
        requires -a <= x <= a, -b <= y <= b;
}

/// What is below `4 * 2^e` is rounded by no more than the slack times `2^e`.
proof fn lemma_nearest_error(n: int, d: int, e: nat)
    requires
        d > 0,
        0 <= n < 4 * pow2(e) * one_units() * d,
    ensures
        distance(mag_units(nearest(n, d)) * d, n) <= pow2(e) * slack() * d,
{
    let s = binade(n, d);
    lemma_binade_bounds(n, d);
    lemma_pow2_pos(s);
    lemma_pow2_pos(e);
    lemma2_to64();
    let top = 127 + e;
    lemma_pow2_adds(127, e);
    lemma_pow2_unfold(127);
    lemma_slack();
    let g = pow2(e) as int;
    assert(pow2(top) == 2 * (g * slack())) by (nonlinear_arith)
        requires pow2(top) == pow2(127) * g, pow2(127) == 2 * slack();
    if s > top {
        lemma_pow2_order(top, (s - 1) as nat);
        let c = pow2((s - 1) as nat) as int;
        let t = pow2(top) as int;
        assert(0x100_0000 * (d * c) >= 0x100_0000 * (d * t)) by (nonlinear_arith)
            requires c >= t, d > 0;
        assert(0x100_0000 * (d * t) == 4 * g * one_units() * d) by (nonlinear_arith)
            requires t == 2 * (g * slack()), one_units() == 0x80_0000 * slack();
        assert(false);
    }
    let p = pow2(s) as int;
    let u = d * p;
    assert(u > 0) by (nonlinear_arith)
        requires u == d * p, d > 0, p > 0;
    lemma_fundamental_div_mod(n, u);
    let h = half_even(n, u);
    let q = n / u;
    let r = n % u;
    assert(h == q || h == q + 1);
    assert(u * (q + 1) == u * q + u) by (nonlinear_arith);
    assert(2 * distance(h * u, n) <= u) by {
        assert(q * u == u * q && (q + 1) * u == u * q + u) by (nonlinear_arith);
    }
    assert(0 * u == 0);
    lemma_half_even_bounds(n, u, 0);
    lemma_half_even_bounds(n, u, 0x100_0000);
    if s > 0 {
        lemma_pow2_unfold(s);
        let c = pow2((s - 1) as nat) as int;
        assert(0x80_0000 * u == 0x100_0000 * (d * c)) by (nonlinear_arith)
            requires u == d * p, p == 2 * c;
        lemma_half_even_bounds(n, u, 0x80_0000);
    }
    lemma_mag_units_at(s, h);
    assert((h * p) * d == h * u) by (nonlinear_arith)
        requires u == d * p;
    lemma_pow2_order(s, top);
    assert(u <= 2 * (g * slack() * d)) by (nonlinear_arith)
        requires u == d * p, p <= 2 * (g * slack()), d > 0;
}

/// What is nearer to zero than `4 * 2^e` is rounded by no more than the slack times
/// `2^e`.
pub proof fn lemma_rounded_error(n: int, d: int, negative: bool, e: nat)
    requires
        d > 0,
        e <= 16,
        -(4 * pow2(e) * one_units() * d) < n < 4 * pow2(e) * one_units() * d,
    ensures
        F32::rounded(n, d, negative).finite(),
        distance(F32::rounded(n, d, negative).units() * d, n) <= pow2(e) * slack() * d,
{
    let a = distance(n, 0);
    let r = F32::rounded(n, d, negative);
    lemma_slack();
    lemma2_to64();
    lemma_pow2_order(e, 16);
    lemma_pow2_pos(e);
    let g = pow2(e) as int;
    let top = F32::whole(4 * g);
    lemma_whole(4 * g);
    lemma_neg(top);
    let w = one_units();
    assert(((4 * g) * w) * d == 4 * g * w * d && (-((4 * g) * w)) * d == -(4 * g * w * d)) by (nonlinear_arith);
    lemma_rounded_between(n, d, negative, top.spec_neg(), top);
    lemma_bounded_is_finite(r, top);
    assert(g * slack() * d >= 0) by (nonlinear_arith)
        requires slack() > 0, d > 0, g > 0;
    if n == 0 {
        lemma_signed(negative, 0);
        assert(0 * d == 0);
    } else {
        lemma_nearest_error(a, d, e);
        lemma_nearest_positive(a, d);
        let m = nearest_mag(a, d);
        lemma_signed(n < 0, m);
        assert(nearest(a, d) == m);
        let u = mag_units(m);
        assert((-u) * d == -(u * d)) by (nonlinear_arith);
    }
}

/// A sum below `4 * 2^e` is off by no more than the slack times `2^e`.
pub proof fn lemma_wide_sum_error(a: F32, b: F32, e: nat)
    requires
        a.finite(),
        b.finite(),
        e <= 16,
        -(4 * pow2(e) * one_units()) < a.units() + b.units() < 4 * pow2(e) * one_units(),
    ensures
        (a + b).finite(),
        distance((a + b).units(), a.units() + b.units()) <= pow2(e) * slack(),
{
    reveal(F32::spec_add);
    lemma_rounded_error(a.units() + b.units(), 1, a.negative() && b.negative(), e);
}

/// A product below `4 * 2^e` is off by no more than the slack times `2^e`.
pub proof fn lemma_wide_product_error(a: F32, b: F32, e: nat)
    requires
        a.finite(),
        b.finite(),
        e <= 16,
        -(4 * pow2(e) * one_units() * one_units()) < a.units() * b.units() < 4 * pow2(e) * one_units() * one_units(),
    ensures
        (a * b).finite(),
        distance((a * b).units() * one_units(), a.units() * b.units()) <= pow2(e) * slack() * one_units(),
{
    lemma_slack();
    lemma_mul_rounded(a, b);
    lemma_rounded_error(a.units() * b.units(), one_units(), a.negative() != b.negative(), e);
}

/// A quotient by a positive number that is below `4 * 2^e` is off by no more than the
/// slack times `2^e`.
pub proof fn lemma_wide_quotient_error(a: F32, b: F32, e: nat)
    requires
        a.finite(),
        b.finite(),
        b.units() > 0,
        e <= 16,
        -(4 * pow2(e) * one_units() * b.units()) < a.units() * one_units() < 4 * pow2(e) * one_units() * b.units(),
    ensures
        (a / b).finite(),
        distance((a / b).units() * b.units(), a.units() * one_units()) <= pow2(e) * slack() * b.units(),
{
    lemma_div_rounded(a, b);
    lemma_rounded_error(a.units() * one_units(), b.units(), a.negative(), e);
}

/// A quotient by a positive number that is below four is off by no more than the slack.
pub proof fn lemma_div_error(a: F32, b: F32)
    requires
        a.finite(),
        b.finite(),
        b.units() > 0,
        -(4 * one_units() * b.units()) < a.units() * one_units() < 4 * one_units() * b.units(),
    ensures
        (a / b).finite(),
        distance((a / b).units() * b.units(), a.units() * one_units()) <= slack() * b.units(),
{
    lemma2_to64();
    lemma_wide_quotient_error(a, b, 0);
}

/// A sum below four is off by no more than the slack.
pub proof fn lemma_add_error(a: F32, b: F32)
    requires
        a.finite(),
        b.finite(),
        -4 * one_units() < a.units() + b.units() < 4 * one_units(),
    ensures
        (a + b).finite(),
        distance((a + b).units(), a.units() + b.units()) <= slack(),
{
    lemma2_to64();
    lemma_wide_sum_error(a, b, 0);
}

/// A difference below four is off by no more than the slack.
pub proof fn lemma_sub_error(a: F32, b: F32)
    requires
        a.finite(),
        b.finite(),
        -4 * one_units() < a.units() - b.units() < 4 * one_units(),
    ensures
        (a - b).finite(),
        distance((a - b).units(), a.units() - b.units()) <= slack(),
{
    lemma_neg(b);
    lemma_add_error(a, b.spec_neg());
}

/// A product below four is off by no more than the slack.
pub proof fn lemma_mul_error(a: F32, b: F32)
    requires
        a.finite(),
        b.finite(),
        -(4 * one_units() * one_units()) < a.units() * b.units() < 4 * one_units() * one_units(),
    ensures
        (a * b).finite(),
        distance((a * b).units() * one_units(), a.units() * b.units()) <= slack() * one_units(),
{
    lemma2_to64();
    lemma_wide_product_error(a, b, 0);
}

/// The square of a root is near to the number.
pub proof fn lemma_root_error(x: F32)
    requires
        x.finite(),
        0 < x.units() < 16 * one_units(),
    ensures
        x.root().finite(),
        x.root().units() >= 0,
        distance(x.root().units() * x.root().units(), x.units() * one_units()) <= 10 * (slack() * one_units()),
{
    reveal(F32::root);
    lemma_slack();
    lemma2_to64();
    lemma_pow2_order(8, 126);
    lemma_mag_units_order(0, x.mag());
    let w = one_units();
    let k = slack();
    let n = x.units() * w;
    assert(1 * 1 <= n < (4 * w) * (4 * w)) by (nonlinear_arith)
        requires n == x.units() * w, 0 < x.units() < 16 * w, w > 0;
    lemma_root_between(1, 4 * w, n);
    let r = floor_root(n);
    let m = if r * r == n {
        2 * r
    } else {
        2 * r + 1
    };
    lemma_rounded_error(m, 2, false, 0);
    let s = x.root().units();
    assert(x.root() == F32::rounded(m, 2, false));
    lemma_nearest_positive(m, 2);
    lemma_signed(false, nearest_mag(m, 2));
    lemma_mag_units_order(0, x.root().mag());
    assert(-k <= s - r <= k);
    assert(-(k * (2 * r + k)) <= (s - r) * (s + r) <= k * (2 * r + k)) by (nonlinear_arith)
        requires -k <= s - r <= k, s >= 0, r >= 0;
    assert((s - r) * (s + r) == s * s - r * r) by (nonlinear_arith);
    assert(k * (2 * r + k) + 2 * r <= 10 * (k * w)) by (nonlinear_arith)
        requires 0 <= r < 4 * w, 8 <= k, w == 0x80_0000 * k;
    assert((r + 1) * (r + 1) == r * r + 2 * r + 1) by (nonlinear_arith);
}

/// A quotient is the number of 24 digits that is nearer to it than half a step.
pub proof fn lemma_quotient_digits(n: int, d: int, k: int, p: nat)
    requires
        0 < n < 0x1_0000,
        0 < d < 0x1_0000,
        0x80_0000 < k < 0xFF_FFFF,
        p <= 32,
        2 * distance(n * pow2(p), k * d) < d,
    ensures
        F32::quotient(n, d).units() == k * pow2((149 - p) as nat),
        F32::quotient(n, d).finite(),
        pow2(p) * F32::quotient(n, d).units() == k * one_units(),
{
    reveal(F32::quotient);
    let s = (149 - p) as nat;
    let q = pow2(s) as int;
    let e = pow2(p) as int;
    lemma_pow2_pos(s);
    lemma_pow2_pos(p);
    lemma_pow2_adds(p, s);
    let m = n * one_units();
    assert(m == (n * e) * q) by (nonlinear_arith)
        requires m == n * one_units(), one_units() == e * q;
    assert(m > 0) by (nonlinear_arith)
        requires m == n * one_units(), n > 0, one_units() == e * q, e > 0, q > 0;
    lemma_mag_units_at(s, k);
    lemma_mag_units_at(s, k - 1);
    lemma_mag_units_at(s, k + 1);
    let c = s * FRAC + k;
    assert(c - 1 == s * FRAC + (k - 1) && c + 1 == s * FRAC + (k + 1));
    assert(c > 1) by (nonlinear_arith)
        requires c == s * FRAC + k, k > 0x80_0000;
    lemma_nearest_is_nearest(m, d, c);
    let r = nearest(m, d);
    lemma_nearest_positive(m, d);
    lemma_nearest_order(0, 1, m, d);
    lemma_nearest_exact(0);
    let u = mag_units(r);
    let t = k * q;
    assert((k - 1) * q == t - q && (k + 1) * q == t + q) by (nonlinear_arith)
        requires t == k * q;
    assert(t * d == (k * d) * q) by (nonlinear_arith)
        requires t == k * q;
    let x = n * e;
    let y = k * d;
    assert(2 * distance(t * d, m) < d * q) by (nonlinear_arith)
        requires
            t * d == y * q,
            m == x * q,
            2 * distance(x, y) < d,
            q > 0,
            distance(t * d, m) == if t * d <= m { m - t * d } else { t * d - m },
            distance(x, y) == if x <= y { y - x } else { x - y },
    ;
    if r > c {
        lemma_mag_units_order(r, c + 1);
        assert(u * d >= t * d + d * q) by (nonlinear_arith)
            requires u >= t + q, d > 0;
    } else if r < c {
        lemma_mag_units_order(c - 1, r);
        assert(u * d <= t * d - d * q) by (nonlinear_arith)
            requires u <= t - q, d > 0;
    }
    assert(r == c);
    lemma_quotient_number(n, d);
    lemma_signed(false, nearest_mag(m, d));
    assert(e * (k * q) == k * one_units()) by (nonlinear_arith)
        requires one_units() == e * q;
}

} // verus!
