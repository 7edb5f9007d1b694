//! Rounding of exact rationals to binary32, to nearest with ties to even.

use super::repr::{lemma_mag_units_order, mag_units, FRAC, INF_MAG};
use vstd::arithmetic::div_mod::{lemma_fundamental_div_mod, lemma_fundamental_div_mod_converse};
use vstd::arithmetic::power2::{lemma2_to64, lemma_pow2_adds, lemma_pow2_pos, lemma_pow2_unfold, pow2};
use vstd::prelude::*;

verus! {

/// The integer nearest to `n / d`; halfway between two, the even one.
pub open spec fn half_even(n: int, d: int) -> int {
    let q = n / d;
    let r = n % d;
    if 2 * r < d || (2 * r == d && q % 2 == 0) {
        q
    } else {
        q + 1
    }
}

/// The least `s` for which `n / d` lies below 2 to the `24 + s`, that is, for
/// which multiples of 2 to the `s` need no more than 24 digits to get there.
pub open spec fn binade(n: int, d: int) -> nat
    decreases n - d,
{
    if d <= 0 || n < 0x100_0000 * d {
        0
    } else {
        1 + binade(n, 2 * d)
    }
}

/// Magnitude bits of the number nearest to `n / d` units, as if exponents had no
/// upper bound.
pub open spec fn nearest(n: int, d: int) -> int {
    let s = binade(n, d);
    s * FRAC + half_even(n, d * pow2(s))
}

/// Magnitude bits of the binary32 number nearest to `n / d` units; what is too
/// large for a finite one becomes infinite.
pub open spec fn nearest_mag(n: int, d: int) -> int {
    let m = nearest(n, d);
    if m < INF_MAG {
        m
    } else {
        INF_MAG as int
    }
}

pub proof fn lemma_binade_is(n: int, d: int, s: nat)
    requires
        d > 0,
        n >= 0,
        n < 0x100_0000 * (d * pow2(s)),
        s == 0 || n >= 0x100_0000 * (d * pow2((s - 1) as nat)),
    ensures
        binade(n, d) == s,
    decreases s,
{
    lemma2_to64();
    if s == 0 {
        assert(d * pow2(s) == d) by (nonlinear_arith)
            requires pow2(s) == 1;
    } else {
        let t = (s - 1) as nat;
        lemma_pow2_unfold(s);
        lemma_pow2_pos(t);
        let p = pow2(t) as int;
        assert(d * pow2(s) == (2 * d) * p) by (nonlinear_arith)
            requires pow2(s) == 2 * p;
        assert(d * p >= d) by (nonlinear_arith)
            requires p >= 1, d > 0;
        if t > 0 {
            lemma_pow2_unfold(t);
            let u = pow2((t - 1) as nat) as int;
            assert(d * p == (2 * d) * u) by (nonlinear_arith)
                requires p == 2 * u;
        }
        lemma_binade_is(n, 2 * d, t);
    }
}

pub proof fn lemma_binade_bounds(n: int, d: int)
    requires
        d > 0,
        n >= 0,
    ensures
        n < 0x100_0000 * (d * pow2(binade(n, d))),
        binade(n, d) == 0 || n >= 0x100_0000 * (d * pow2((binade(n, d) - 1) as nat)),
    decreases n - d,
{
    lemma2_to64();
    let s = binade(n, d);
    if s == 0 {
        assert(d * pow2(s) == d) by (nonlinear_arith)
            requires pow2(s) == 1;
    } else {
        lemma_binade_bounds(n, 2 * d);
        let t = (s - 1) as nat;
        lemma_pow2_unfold(s);
        let p = pow2(t) as int;
        assert(d * pow2(s) == (2 * d) * p) by (nonlinear_arith)
            requires pow2(s) == 2 * p;
        if t == 0 {
            assert(d * p == d) by (nonlinear_arith)
                requires p == 1;
        } else {
            lemma_pow2_unfold(t);
            let u = pow2((t - 1) as nat) as int;
            assert(d * p == (2 * d) * u) by (nonlinear_arith)
                requires p == 2 * u;
        }
    }
}

pub proof fn lemma_half_even_scale(n: int, d: int, k: int)
    requires
        d > 0,
        k > 0,
    ensures
        half_even(k * n, k * d) == half_even(n, d),
{
    lemma_fundamental_div_mod(n, d);
    let q = n / d;
    let r = n % d;
    assert(0 <= k * r < k * d) by (nonlinear_arith)
        requires 0 <= r < d, k > 0;
    assert(k * n == q * (k * d) + k * r) by (nonlinear_arith)
        requires n == d * q + r;
    lemma_fundamental_div_mod_converse(k * n, k * d, q, k * r);
    assert(2 * (k * r) < k * d <==> 2 * r < d) by (nonlinear_arith)
        requires k > 0;
    assert(2 * (k * r) == k * d <==> 2 * r == d) by (nonlinear_arith)
        requires k > 0;
}

/// Rounding depends on the quotient alone.
pub proof fn lemma_nearest_scale(n: int, d: int, k: int)
    requires
        d > 0,
        n >= 0,
        k > 0,
    ensures
        nearest(k * n, k * d) == nearest(n, d),
        nearest_mag(k * n, k * d) == nearest_mag(n, d),
{
    let s = binade(n, d);
    let p = pow2(s) as int;
    lemma_pow2_pos(s);
    lemma_binade_bounds(n, d);
    assert(k * n >= 0 && k * d > 0) by (nonlinear_arith)
        requires n >= 0, d > 0, k > 0;
    assert(k * n < 0x100_0000 * ((k * d) * p)) by (nonlinear_arith)
        requires n < 0x100_0000 * (d * p), k > 0;
    if s > 0 {
        let u = pow2((s - 1) as nat) as int;
        assert(k * n >= 0x100_0000 * ((k * d) * u)) by (nonlinear_arith)
            requires n >= 0x100_0000 * (d * u), k > 0;
    }
    lemma_binade_is(k * n, k * d, s);
    assert(d * p > 0) by (nonlinear_arith)
        requires d > 0, p > 0;
    lemma_half_even_scale(n, d * p, k);
    assert((k * d) * p == k * (d * p)) by (nonlinear_arith);
}

/// Above 24 digits, doubling a number moves it up one binade.
pub proof fn lemma_nearest_shift(n: int, d: int, p: nat)
    requires
        d > 0,
        n >= 0x100_0000 * d,
    ensures
        nearest(n * pow2(p), d) == p * FRAC + nearest(n, d),
{
    let s = binade(n, d);
    lemma_pow2_pos(s);
    lemma_pow2_pos(p);
    lemma_binade_bounds(n, d);
    lemma_pow2_adds(s, p);
    let a = pow2(s) as int;
    let b = pow2(p) as int;
    assert(s > 0);
    lemma_pow2_adds((s - 1) as nat, p);
    assert((s - 1) as nat + p == (s + p - 1) as nat);
    let c = pow2((s - 1) as nat) as int;
    assert(n * b >= 0) by (nonlinear_arith)
        requires n >= 0, b > 0;
    assert(n * b < 0x100_0000 * (d * (a * b))) by (nonlinear_arith)
        requires n < 0x100_0000 * (d * a), b > 0;
    assert(n * b >= 0x100_0000 * (d * (c * b))) by (nonlinear_arith)
        requires n >= 0x100_0000 * (d * c), b > 0;
    lemma_binade_is(n * b, d, s + p);
    assert(d * a > 0) by (nonlinear_arith)
        requires d > 0, a > 0;
    lemma_half_even_scale(n, d * a, b);
    assert(b * n == n * b) by (nonlinear_arith);
    assert(b * (d * a) == d * (a * b)) by (nonlinear_arith);
    assert((s + p) * FRAC == p * FRAC + s * FRAC) by (nonlinear_arith);
}

/// A quotient strictly between the integers `t` and `t + 1` rounds like their
/// midpoint, wherever the places at which rounding changes are integers.
proof fn lemma_sticky_even(n: int, d: int, t: int, k: int)
    requires
        d > 0,
        t >= 0,
        t * d < n < (t + 1) * d,
        k > 0,
    ensures
        half_even(n, d * (2 * k)) == half_even(2 * t + 1, 2 * (2 * k)),
{
    let e = d * (2 * k);
    assert(e > 0) by (nonlinear_arith)
        requires d > 0, k > 0, e == d * (2 * k);
    let g = 2 * k;
    lemma_fundamental_div_mod(t, g);
    let q = t / g;
    let r = t % g;
    // 2t + 1 = q * 2g + (2r + 1)
    assert(2 * t + 1 == q * (2 * g) + (2 * r + 1)) by (nonlinear_arith)
        requires t == g * q + r;
    assert(2 * r + 1 < 2 * g);
    lemma_fundamental_div_mod_converse(2 * t + 1, 2 * g, q, 2 * r + 1);
    // n = q * e + (n - q * e), with r * d < n - q * e < (r + 1) * d
    let rem = n - q * e;
    assert(q * e == (q * g) * d) by (nonlinear_arith)
        requires e == d * g;
    assert((q * g) * d == t * d - r * d) by (nonlinear_arith)
        requires t == g * q + r;
    assert(rem > r * d);
    assert(rem < r * d + d) by (nonlinear_arith)
        requires n < (t + 1) * d, rem == n - (t * d - r * d);
    assert(r * d >= 0) by (nonlinear_arith)
        requires r >= 0, d > 0;
    assert(r * d + d <= e) by (nonlinear_arith)
        requires r + 1 <= g, d > 0, e == d * g;
    lemma_fundamental_div_mod_converse(n, e, q, rem);
    assert(2 * g == 2 * (2 * k));
    // Which half the remainder lies in depends on r alone.
    if r < k {
        assert(2 * rem < e) by (nonlinear_arith)
            requires rem < r * d + d, r + 1 <= k, d > 0, e == d * (2 * k);
    } else {
        assert(2 * rem > e) by (nonlinear_arith)
            requires rem > r * d, r >= k, d > 0, e == d * (2 * k);
    }
}

/// Jamming the digits lost below `t` into a last odd digit leaves rounding
/// unchanged, as long as that digit lies below the last one that is kept.
pub proof fn lemma_sticky(n: int, d: int, t: int, p: nat, q: nat)
    requires
        d > 0,
        t * d < n < (t + 1) * d,
        t >= 0,
        p == 0 || q == 0,
        t >= 0x100_0000 || q > 0,
    ensures
        nearest(n * pow2(p), d * pow2(q)) == nearest((2 * t + 1) * pow2(p), 2int * pow2(q)),
{
    lemma2_to64();
    lemma_pow2_pos(p);
    lemma_pow2_pos(q);
    let w = pow2(q) as int;
    let dd = d * w;
    assert(dd > 0) by (nonlinear_arith)
        requires d > 0, w > 0, dd == d * w;
    assert(n > 0) by (nonlinear_arith)
        requires t * d < n, t >= 0, d > 0;
    // First without the factor 2^p.
    let s = binade(2 * t + 1, 2 * w);
    lemma_binade_bounds(2 * t + 1, 2 * w);
    lemma_pow2_pos(s);
    let a = pow2(s) as int;
    let top = 0x100_0000 * (w * a);
    assert(0x100_0000 * ((2 * w) * a) == 2 * top) by (nonlinear_arith)
        requires top == 0x100_0000 * (w * a);
    assert(t < top);
    assert(n < 0x100_0000 * (dd * a)) by (nonlinear_arith)
        requires n < (t + 1) * d, t + 1 <= top, top == 0x100_0000 * (w * a), dd == d * w, d > 0;
    if s > 0 {
        let c = pow2((s - 1) as nat) as int;
        let low = 0x100_0000 * (w * c);
        assert(0x100_0000 * ((2 * w) * c) == 2 * low) by (nonlinear_arith)
            requires low == 0x100_0000 * (w * c);
        assert(t >= low);
        assert(n >= 0x100_0000 * (dd * c)) by (nonlinear_arith)
            requires n > t * d, t >= low, low == 0x100_0000 * (w * c), dd == d * w, d > 0;
    }
    lemma_binade_is(n, dd, s);
    // Here the place of the last kept digit is even, in both cases.
    let g = w * a;
    if s > 0 {
        lemma_pow2_unfold(s);
        let c = pow2((s - 1) as nat) as int;
        assert(g == 2 * (w * c)) by (nonlinear_arith)
            requires g == w * a, a == 2 * c;
        lemma_pow2_pos((s - 1) as nat);
        assert(w * c > 0) by (nonlinear_arith)
            requires w > 0, c > 0;
        lemma_sticky_even(n, d, t, w * c);
    } else {
        if q == 0 {
            assert(top == 0x100_0000) by (nonlinear_arith)
                requires top == 0x100_0000 * (w * a), w == 1, a == 1;
            assert(false);
        }
        lemma_pow2_unfold(q);
        let c = pow2((q - 1) as nat) as int;
        lemma_pow2_pos((q - 1) as nat);
        assert(g == 2 * c) by (nonlinear_arith)
            requires g == w * a, a == 1, w == 2 * c;
        lemma_sticky_even(n, d, t, c);
    }
    assert(dd * a == d * g) by (nonlinear_arith)
        requires dd == d * w, g == w * a;
    assert((2 * w) * a == 2 * g) by (nonlinear_arith)
        requires g == w * a;
    assert(nearest(n, dd) == nearest(2 * t + 1, 2 * w));
    // Then with it.
    if p > 0 {
        assert(n >= 0x100_0000 * dd) by (nonlinear_arith)
            requires n > t * d, t >= 0x100_0000, dd == d * w, w == 1, d > 0;
        lemma_nearest_shift(n, dd, p);
        lemma_nearest_shift(2 * t + 1, 2 * w, p);
    } else {
        assert(n * pow2(p) == n) by (nonlinear_arith)
            requires pow2(p) == 1;
        assert((2 * t + 1) * pow2(p) == 2 * t + 1) by (nonlinear_arith)
            requires pow2(p) == 1;
    }
}

/// The nearest integer lies within any integer bounds of the quotient.
pub proof fn lemma_half_even_bounds(n: int, d: int, k: int)
    requires
        d > 0,
    ensures
        n <= k * d ==> half_even(n, d) <= k,
        n >= k * d ==> half_even(n, d) >= k,
{
    lemma_fundamental_div_mod(n, d);
    let q = n / d;
    let r = n % d;
    if n <= k * d {
        assert(q < k || (q == k && r == 0)) by (nonlinear_arith)
            requires n <= k * d, n == d * q + r, 0 <= r < d;
    }
    if n >= k * d {
        assert(q >= k) by (nonlinear_arith)
            requires n >= k * d, n == d * q + r, 0 <= r < d;
    }
}

proof fn lemma_half_even_order(m: int, n: int, d: int)
    requires
        d > 0,
        m <= n,
    ensures
        half_even(m, d) <= half_even(n, d),
{
    lemma_fundamental_div_mod(m, d);
    lemma_fundamental_div_mod(n, d);
    let q = m / d;
    let k = n / d;
    assert(q <= k) by (nonlinear_arith)
        requires m <= n, m == d * q + m % d, n == d * k + n % d, 0 <= m % d < d, 0 <= n % d < d;
    if q == k {
        assert(m % d <= n % d);
    }
}

proof fn lemma_nearest_order_same(m: int, n: int, d: int)
    requires
        d > 0,
        0 <= m <= n,
    ensures
        nearest(m, d) <= nearest(n, d),
{
    let s = binade(m, d);
    let t = binade(n, d);
    lemma_binade_bounds(m, d);
    lemma_binade_bounds(n, d);
    lemma_pow2_pos(s);
    lemma_pow2_pos(t);
    let a = pow2(s) as int;
    let b = pow2(t) as int;
    assert(d * a > 0 && d * b > 0) by (nonlinear_arith)
        requires d > 0, a > 0, b > 0;
    if s == t {
        lemma_half_even_order(m, n, d * a);
    } else {
        if s > t {
            lemma_pow2_order(t, (s - 1) as nat);
            let c = pow2((s - 1) as nat) as int;
            assert(d * b <= d * c) by (nonlinear_arith)
                requires d > 0, b <= c;
            assert(false);
        }
        lemma_half_even_bounds(m, d * a, 0x100_0000);
        lemma_pow2_unfold(t);
        let c = pow2((t - 1) as nat) as int;
        assert(d * b == 2 * (d * c)) by (nonlinear_arith)
            requires b == 2 * c;
        lemma_half_even_bounds(n, d * b, FRAC as int);
        assert(s * FRAC + FRAC <= t * FRAC) by (nonlinear_arith)
            requires s + 1 <= t;
    }
}

pub proof fn lemma_pow2_order(a: nat, b: nat)
    requires
        a <= b,
    ensures
        0 < pow2(a) <= pow2(b),
{
    lemma_pow2_pos(a);
    lemma_pow2_pos((b - a) as nat);
    lemma_pow2_adds(a, (b - a) as nat);
    let x = pow2(a) as int;
    let y = pow2((b - a) as nat) as int;
    assert(x * y >= x) by (nonlinear_arith)
        requires y >= 1, x > 0;
}

/// Rounding keeps order: if `a / b <= c / d` then the first rounds to no more
/// than the second.
pub proof fn lemma_nearest_order(a: int, b: int, c: int, d: int)
    requires
        b > 0,
        d > 0,
        a >= 0,
        c >= 0,
        a * d <= c * b,
    ensures
        nearest(a, b) <= nearest(c, d),
        nearest_mag(a, b) <= nearest_mag(c, d),
{
    lemma_nearest_scale(a, b, d);
    lemma_nearest_scale(c, d, b);
    assert(d * a == a * d && b * c == c * b && d * b == b * d) by (nonlinear_arith);
    assert(b * d > 0 && a * d >= 0) by (nonlinear_arith)
        requires b > 0, d > 0, a >= 0;
    lemma_nearest_order_same(a * d, c * b, b * d);
}

/// Equal quotients round alike.
pub proof fn lemma_nearest_equal(a: int, b: int, c: int, d: int)
    requires
        b > 0,
        d > 0,
        a >= 0,
        c >= 0,
        a * d == c * b,
    ensures
        nearest(a, b) == nearest(c, d),
        nearest_mag(a, b) == nearest_mag(c, d),
{
    lemma_nearest_order(a, b, c, d);
    lemma_nearest_order(c, d, a, b);
}

/// Magnitude bits count up through the multiples of 2 to the `s` in their binade.
pub proof fn lemma_mag_units_at(s: nat, k: int)
    requires
        0 <= k <= 0x100_0000,
        s == 0 || k >= FRAC,
    ensures
        mag_units(s * FRAC + k) == k * pow2(s),
{
    lemma2_to64();
    let f = FRAC as int;
    let m = s * f + k;
    if k < FRAC {
        assert(k * pow2(s) == k) by (nonlinear_arith)
            requires pow2(s) == 1;
    } else if k < 0x100_0000 {
        assert(m == (s + 1) * f + (k - f)) by (nonlinear_arith)
            requires m == s * f + k;
        lemma_fundamental_div_mod_converse(m, f, s as int + 1, k - f);
        assert(m >= f) by (nonlinear_arith)
            requires m == s * f + k, k >= f, f > 0;
    } else {
        assert(m == (s + 2) * f) by (nonlinear_arith)
            requires m == s * f + k, k == 2 * f;
        lemma_fundamental_div_mod_converse(m, f, s as int + 2, 0);
        lemma_pow2_unfold(s + 1);
        assert(m >= f) by (nonlinear_arith)
            requires m == s * f + k, k >= f, f > 0;
        assert(f * pow2(s + 1) == k * pow2(s)) by (nonlinear_arith)
            requires pow2(s + 1) == 2 * pow2(s), k == 2 * f;
    }
}

/// What magnitude bits stand for rounds to those bits.
pub proof fn lemma_nearest_exact(m: int)
    requires
        m >= 0,
    ensures
        nearest(mag_units(m), 1) == m,
{
    lemma2_to64();
    let f = FRAC as int;
    lemma_fundamental_div_mod(m, f);
    let s: nat = if m < f { 0 } else { (m / f - 1) as nat };
    let k = m - s * f;
    if m >= f {
        assert(s * f == m - f - m % f) by (nonlinear_arith)
            requires m == f * (m / f) + m % f, s == m / f - 1;
    }
    lemma_mag_units_at(s, k);
    lemma_pow2_pos(s);
    let p = pow2(s) as int;
    assert(1 * p == p);
    assert(k * p < 0x100_0000 * (1 * p)) by (nonlinear_arith)
        requires k < 0x100_0000, p > 0;
    assert(k * p >= 0) by (nonlinear_arith)
        requires k >= 0, p > 0;
    if s > 0 {
        lemma_pow2_unfold(s);
        let c = pow2((s - 1) as nat) as int;
        assert(k * p >= 0x100_0000 * (1 * c)) by (nonlinear_arith)
            requires k >= 0x80_0000, p == 2 * c, p > 0;
    }
    lemma_binade_is(k * p, 1, s);
    lemma_fundamental_div_mod_converse(k * p, p, k, 0);
}

/// Of all magnitudes, the rounded one is as near to `n / d` as any.
pub proof fn lemma_nearest_is_nearest(n: int, d: int, m: int)
    requires
        d > 0,
        n >= 0,
        m >= 0,
    ensures
        distance(mag_units(nearest(n, d)) * d, n) <= distance(mag_units(m) * d, n),
{
    let s = binade(n, d);
    let p = pow2(s) as int;
    lemma_pow2_pos(s);
    lemma_binade_bounds(n, d);
    let u = d * p;
    assert(u > 0) by (nonlinear_arith)
        requires d > 0, p > 0, u == d * p;
    lemma_fundamental_div_mod(n, u);
    let q = n / u;
    let r = n % u;
    assert(0 <= q < 0x100_0000) by (nonlinear_arith)
        requires n == u * q + r, 0 <= r < u, 0 <= n < 0x100_0000 * u;
    if s > 0 {
        lemma_pow2_unfold(s);
        let c = pow2((s - 1) as nat) as int;
        assert(u == 2 * (d * c)) by (nonlinear_arith)
            requires u == d * p, p == 2 * c;
        assert(q >= FRAC) by (nonlinear_arith)
            requires n == u * q + r, 0 <= r < u, n >= 0x80_0000 * u;
    }
    lemma_mag_units_at(s, q);
    lemma_mag_units_at(s, q + 1);
    let low = s * FRAC + q;
    assert((q * p) * d == q * u) by (nonlinear_arith)
        requires u == d * p;
    assert(((q + 1) * p) * d == q * u + u) by (nonlinear_arith)
        requires u == d * p;
    assert(q * u == u * q) by (nonlinear_arith);
    assert(low >= 0) by (nonlinear_arith)
        requires low == s * FRAC + q, q >= 0;
    if m <= low {
        lemma_mag_units_order(low, m);
        assert(mag_units(m) * d <= mag_units(low) * d) by (nonlinear_arith)
            requires mag_units(m) <= mag_units(low), d > 0;
    } else {
        lemma_mag_units_order(m, low + 1);
        assert(mag_units(m) * d >= mag_units(low + 1) * d) by (nonlinear_arith)
            requires mag_units(m) >= mag_units(low + 1), d > 0;
    }
}

/// Only zero rounds to zero, where at least one unit is at stake.
pub proof fn lemma_nearest_positive(n: int, d: int)
    requires
        d > 0,
        n >= 0,
    ensures
        n == 0 ==> nearest_mag(n, d) == 0,
        n >= d ==> nearest_mag(n, d) > 0,
        0 <= nearest_mag(n, d) <= INF_MAG,
{
    lemma_nearest_exact(0);
    lemma_nearest_exact(1);
    assert(n * 1 >= 0 * d);
    lemma_nearest_order(0, 1, n, d);
    if n == 0 {
        lemma_nearest_order(n, d, 0, 1);
    }
    if n >= d {
        lemma_nearest_order(1, 1, n, d);
    }
}

/// The distance of two integers.
pub open spec fn distance(a: int, b: int) -> int {
    if a < b {
        b - a
    } else {
        a - b
    }
}

} // verus!
