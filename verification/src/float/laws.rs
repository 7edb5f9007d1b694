//! What rounded arithmetic keeps of exact arithmetic.

use super::repr::{lemma_mag_units_order, mag_units, F32, FRAC, INF_MAG};
use super::round::{
    binade, distance, lemma_binade_bounds, lemma_mag_units_at, lemma_nearest_exact, lemma_nearest_is_nearest,
    lemma_nearest_order, lemma_nearest_positive, lemma_nearest_scale, lemma_pow2_order, nearest, nearest_mag,
};
use vstd::arithmetic::div_mod::{
    lemma_basic_div, lemma_div_is_ordered, lemma_div_pos_is_pos, lemma_fundamental_div_mod,
    lemma_fundamental_div_mod_converse,
};
use vstd::arithmetic::power2::{lemma2_to64, lemma_pow2_adds, lemma_pow2_pos, lemma_pow2_unfold, pow2};
use vstd::prelude::*;

verus! {

/// The units in one.
pub open spec fn one_units() -> int {
    pow2(149) as int
}

/// A sign and magnitude bits, put together, can be taken apart again.
pub proof fn lemma_signed(negative: bool, mag: int)
    requires
        0 <= mag <= INF_MAG,
    ensures
        F32::signed(negative, mag).negative() == negative,
        F32::signed(negative, mag).mag() == mag,
        !F32::signed(negative, mag).nan(),
        mag_units(mag) >= 0,
        F32::signed(negative, mag).units() == if negative {
            -mag_units(mag)
        } else {
            mag_units(mag)
        },
{
    lemma_mag_units_order(mag, 0);
}

/// One is one.
pub proof fn lemma_one()
    ensures
        F32::unit().units() == one_units(),
        F32::unit().finite(),
        F32::nought().units() == 0,
        F32::nought().finite(),
        one_units() > 0,
{
    lemma2_to64();
    lemma_pow2_pos(149);
    lemma_pow2_adds(23, 126);
    assert(F32::unit().mag() == 127 * FRAC);
    assert(0x3F80_0000int / (FRAC as int) == 127 && 0x3F80_0000int % (FRAC as int) == 0);
}

/// What lies between two numbers rounds to something between them.
pub proof fn lemma_rounded_between(n: int, d: int, negative: bool, low: F32, high: F32)
    requires
        d > 0,
        !low.nan(),
        !high.nan(),
        low.units() * d <= n <= high.units() * d,
    ensures
        F32::rounded(n, d, negative).within(low, high),
        !F32::rounded(n, d, negative).nan(),
{
    lemma_mag_units_order(0, low.mag());
    lemma_mag_units_order(0, high.mag());
    lemma_nearest_exact(low.mag());
    lemma_nearest_exact(high.mag());
    let a = distance(n, 0);
    lemma_nearest_positive(a, d);
    let r = nearest_mag(a, d);
    lemma_signed(n < 0, r);
    lemma_signed(negative, 0);
    lemma_mag_units_order(r, low.mag());
    lemma_mag_units_order(r, high.mag());
    lemma_mag_units_order(low.mag(), r);
    lemma_mag_units_order(high.mag(), r);
    lemma_mag_units_order(0, r);
    let lu = low.units();
    let hu = high.units();
    if n > 0 {
        assert(hu > 0) by (nonlinear_arith)
            requires n <= hu * d, n > 0, d > 0;
        assert(a * 1 <= hu * d);
        lemma_nearest_order(a, d, hu, 1);
        if lu > 0 {
            lemma_nearest_order(lu, 1, a, d);
        }
    } else if n < 0 {
        assert(lu < 0) by (nonlinear_arith)
            requires lu * d <= n, n < 0, d > 0;
        assert(a * 1 <= (-lu) * d) by (nonlinear_arith)
            requires lu * d <= n, a == -n;
        lemma_nearest_order(a, d, -lu, 1);
        if hu < 0 {
            assert((-hu) * d <= a * 1) by (nonlinear_arith)
                requires n <= hu * d, a == -n;
            lemma_nearest_order(-hu, 1, a, d);
        }
    } else {
        assert(lu <= 0) by (nonlinear_arith)
            requires lu * d <= 0, d > 0;
        assert(hu >= 0) by (nonlinear_arith)
            requires 0 <= hu * d, d > 0;
    }
}

/// A sum that lies between two numbers rounds to something between them.
pub proof fn lemma_add_between(a: F32, b: F32, low: F32, high: F32)
    requires
        a.finite(),
        b.finite(),
        !low.nan(),
        !high.nan(),
        low.units() <= a.units() + b.units() <= high.units(),
    ensures
        (a + b).within(low, high),
{
    reveal(F32::spec_add);
    lemma_rounded_between(a.units() + b.units(), 1, a.negative() && b.negative(), low, high);
}

/// Turning the sign turns the value.
pub proof fn lemma_neg(a: F32)
    ensures
        a.spec_neg().units() == -a.units(),
        a.spec_neg().finite() == a.finite(),
        a.spec_neg().nan() == a.nan(),
        a.spec_neg().mag() == a.mag(),
        a.spec_neg().negative() == !a.negative(),
{
}

/// A difference that lies between two numbers rounds to something between them.
pub proof fn lemma_sub_between(a: F32, b: F32, low: F32, high: F32)
    requires
        a.finite(),
        b.finite(),
        !low.nan(),
        !high.nan(),
        low.units() <= a.units() - b.units() <= high.units(),
    ensures
        (a - b).within(low, high),
{
    lemma_neg(b);
    lemma_add_between(a, b.spec_neg(), low, high);
}

/// A product of finite numbers is the rounded exact product.
pub proof fn lemma_mul_rounded(a: F32, b: F32)
    requires
        a.finite(),
        b.finite(),
    ensures
        a * b == F32::rounded(a.units() * b.units(), one_units(), a.negative() != b.negative()),
{
    reveal(F32::spec_mul);
    lemma_pow2_pos(149);
    let x = mag_units(a.mag());
    let y = mag_units(b.mag());
    lemma_mag_units_order(0, a.mag());
    lemma_mag_units_order(0, b.mag());
    let p = a.units() * b.units();
    assert(p == x * y || p == -(x * y)) by (nonlinear_arith)
        requires
            p == a.units() * b.units(),
            a.units() == x || a.units() == -x,
            b.units() == y || b.units() == -y,
    ;
    assert(x * y >= 0) by (nonlinear_arith)
        requires x >= 0, y >= 0;
    if x * y == 0 {
        lemma_nearest_positive(0, one_units());
    } else {
        assert(p < 0 <==> a.negative() != b.negative()) by (nonlinear_arith)
            requires
                p == a.units() * b.units(),
                x * y != 0,
                x >= 0,
                y >= 0,
                a.units() == if a.negative() { -x } else { x },
                b.units() == if b.negative() { -y } else { y },
        ;
    }
}

/// A product that lies between two numbers rounds to something between them.
pub proof fn lemma_mul_between(a: F32, b: F32, low: F32, high: F32)
    requires
        a.finite(),
        b.finite(),
        !low.nan(),
        !high.nan(),
        low.units() * one_units() <= a.units() * b.units() <= high.units() * one_units(),
    ensures
        (a * b).within(low, high),
{
    lemma_pow2_pos(149);
    lemma_mul_rounded(a, b);
    lemma_rounded_between(a.units() * b.units(), one_units(), a.negative() != b.negative(), low, high);
}

/// A quotient that lies between two numbers rounds to something between them.
pub proof fn lemma_quotient_between(n: int, d: int, low: F32, high: F32)
    requires
        n >= 0,
        d > 0,
        !low.nan(),
        !high.nan(),
        low.units() * d <= n * one_units() <= high.units() * d,
    ensures
        F32::quotient(n, d).within(low, high),
        !F32::quotient(n, d).negative(),
        high.finite() ==> F32::quotient(n, d).finite(),
{
    reveal(F32::quotient);
    lemma_pow2_pos(149);
    let m = n * one_units();
    assert(m >= 0) by (nonlinear_arith)
        requires m == n * one_units(), n >= 0, one_units() > 0;
    lemma_rounded_between(m, d, false, low, high);
    lemma_nearest_positive(m, d);
    lemma_signed(false, nearest_mag(m, d));
    lemma_mag_units_order(high.mag(), INF_MAG as int);
    lemma_mag_units_order(0, high.mag());
    lemma_mag_units_order(high.mag(), nearest_mag(m, d));
}

/// A half is half of one.
pub proof fn lemma_half()
    ensures
        2 * F32::half_unit().units() == one_units(),
        F32::half_unit().finite(),
{
    lemma2_to64();
    lemma_pow2_adds(23, 125);
    lemma_pow2_unfold(149);
    assert(0x3F00_0000int / (FRAC as int) == 126 && 0x3F00_0000int % (FRAC as int) == 0);
}

/// Twenty-four digits and a power of two are a number of the format.
pub proof fn lemma_short_is_exact(k: int, e: nat)
    requires
        0 <= k <= 0x100_0000,
    ensures
        mag_units(nearest(k * pow2(e), 1)) == k * pow2(e),
{
    let n = k * pow2(e);
    lemma_pow2_pos(e);
    assert(n >= 0) by (nonlinear_arith)
        requires n == k * pow2(e), k >= 0, pow2(e) > 0;
    let s = binade(n, 1);
    lemma_binade_bounds(n, 1);
    lemma_pow2_pos(s);
    let p = pow2(s) as int;
    assert(1 * p == p);
    if k == 0x100_0000 {
        lemma_mag_units_at(e, k);
        lemma_nearest_exact(e * FRAC + k);
    } else {
        if s > e {
            lemma_pow2_order(e, (s - 1) as nat);
            let c = pow2((s - 1) as nat) as int;
            assert(1 * c == c);
            assert(false) by (nonlinear_arith)
                requires n == k * pow2(e), k < 0x100_0000, n >= 0x100_0000 * c, pow2(e) <= c, c > 0;
        }
        lemma_pow2_adds(s, (e - s) as nat);
        let g = pow2((e - s) as nat) as int;
        lemma_pow2_pos((e - s) as nat);
        let q = k * g;
        assert(n == q * p) by (nonlinear_arith)
            requires n == k * pow2(e), pow2(e) == p * g, q == k * g;
        lemma_fundamental_div_mod_converse(n, p, q, 0);
        assert(0 <= q < 0x100_0000) by (nonlinear_arith)
            requires n == q * p, n < 0x100_0000 * p, n >= 0, p > 0;
        if s > 0 {
            lemma_pow2_unfold(s);
            let c = pow2((s - 1) as nat) as int;
            assert(1 * c == c);
            assert(q >= FRAC) by (nonlinear_arith)
                requires n == q * p, n >= 0x100_0000 * c, p == 2 * c, p > 0;
        }
        lemma_mag_units_at(s, q);
    }
}

/// A number below half the greatest can be doubled within the format.
pub proof fn lemma_double(x: F32) -> (d: F32)
    requires
        x.mag() + FRAC < INF_MAG,
    ensures
        d.finite(),
        d.units() == 2 * x.units(),
{
    let m = x.mag();
    let k = if m < FRAC {
        2 * m
    } else {
        m + FRAC
    };
    if m < FRAC {
        lemma2_to64();
        lemma_mag_units_at(0, k);
    } else {
        lemma_half_magnitude(k);
    }
    lemma_signed(x.negative(), k);
    F32::signed(x.negative(), k)
}

/// An even magnitude can be halved within the format.
proof fn lemma_half_magnitude(m: int)
    requires
        m >= 2 * FRAC,
    ensures
        2 * mag_units(m - FRAC) == mag_units(m),
{
    let f = FRAC as int;
    lemma_fundamental_div_mod(m, f);
    let q = m / f;
    let r = m % f;
    assert(m - f == (q - 1) * f + r) by (nonlinear_arith)
        requires m == f * q + r;
    lemma_fundamental_div_mod_converse(m - f, f, q - 1, r);
    assert(q >= 2) by (nonlinear_arith)
        requires m == f * q + r, m >= 2 * f, 0 <= r < f;
    lemma_pow2_unfold((q - 1) as nat);
    let p = pow2((q - 2) as nat) as int;
    assert((f + r) * (2 * p) == 2 * ((f + r) * p)) by (nonlinear_arith);
}

/// Rounding a distance and then at most halving it, rounded again, gives no more
/// than the distance itself.
proof fn lemma_rounded_half(a: int, c: int)
    requires
        a >= 0,
        0 <= 2 * c <= one_units(),
        nearest(a, 1) < INF_MAG,
    ensures
        0 <= mag_units(nearest_mag(mag_units(nearest_mag(a, 1)) * c, one_units())) <= a,
        nearest_mag(mag_units(nearest_mag(a, 1)) * c, one_units()) < INF_MAG,
{
    lemma_pow2_pos(149);
    let w = one_units();
    let m = nearest(a, 1);
    lemma_nearest_positive(a, 1);
    let x = mag_units(m);
    lemma_mag_units_order(0, m);
    assert(x * c >= 0) by (nonlinear_arith)
        requires x >= 0, c >= 0;
    lemma_nearest_positive(x * c, w);
    let r = nearest_mag(x * c, w);
    lemma_mag_units_order(0, r);
    lemma_nearest_exact(m);
    assert((x * c) * 1 <= x * w) by (nonlinear_arith)
        requires c <= w, x >= 0;
    lemma_nearest_order(x * c, w, x, 1);
    lemma_mag_units_order(m, r);
    if x > a {
        if a <= 0x100_0000 {
            lemma2_to64();
            assert(a * pow2(0) == a) by (nonlinear_arith)
                requires pow2(0) == 1;
            lemma_short_is_exact(a, 0);
        }
        lemma_short_is_exact(0x100_0000, 0);
        lemma2_to64();
        lemma_nearest_order(0x100_0000, 1, a, 1);
        lemma_mag_units_at(0, 0x100_0000);
        lemma_nearest_exact(0x100_0000);
        lemma_half_magnitude(m);
        let h = m - FRAC;
        lemma_nearest_exact(h);
        let y = mag_units(h);
        assert((x * c) * 1 <= y * w) by (nonlinear_arith)
            requires x == 2 * y, 2 * c <= w, y >= 0, c >= 0;
        lemma_mag_units_order(0, h);
        lemma_nearest_order(x * c, w, y, 1);
        lemma_mag_units_order(h, r);
        lemma_nearest_is_nearest(a, 1, 0);
        assert(x * 1 == x);
        assert(mag_units(0) * 1 == 0);
    }
}

impl F32 {
    /// The number a step away from `self` towards `target`, by the part `rate` of
    /// the way.
    pub open spec fn toward(self, target: F32, rate: F32) -> F32 {
        self + (target - self) * rate
    }

    /// A step from `self` towards `target`.
    pub fn approach(self, target: F32, rate: F32) -> (r: F32)
        ensures
            r == self.toward(target, rate),
    {
        self + (target - self) * rate
    }
}

/// A step of at most half the way never leaves the way: it ends between where it
/// starts and the target.
pub proof fn law_step_stays_between(s: F32, t: F32, c: F32)
    requires
        s.finite(),
        t.finite(),
        c.finite(),
        (t - s).finite(),
        0 <= 2 * c.units() <= one_units(),
    ensures
        s.le(t) ==> s.toward(t, c).within(s, t),
        t.le(s) ==> s.toward(t, c).within(t, s),
{
    reveal(F32::spec_add);
    lemma_neg(s);
    let n = t.units() - s.units();
    let a = distance(n, 0);
    let d = t - s;
    assert(d == F32::rounded(n, 1, t.negative() && !s.negative()));
    lemma_nearest_positive(a, 1);
    lemma_signed(n < 0, nearest_mag(a, 1));
    lemma_signed(t.negative() && !s.negative(), 0);
    if n == 0 {
        lemma_nearest_exact(0);
    }
    lemma_rounded_half(a, c.units());
    let p = d * c;
    lemma_mul_rounded(d, c);
    lemma_pow2_pos(149);
    let x = mag_units(nearest_mag(a, 1));
    let cu = c.units();
    assert(d.units() == if n < 0 { -x } else { x });
    assert(distance(d.units() * cu, 0) == x * cu) by (nonlinear_arith)
        requires d.units() == x || d.units() == -x, x >= 0, cu >= 0;
    lemma_nearest_positive(x * cu, one_units());
    let q = nearest_mag(x * cu, one_units());
    lemma_signed(d.units() * cu < 0, q);
    lemma_signed(d.negative() != c.negative(), 0);
    assert(n < 0 ==> d.units() * cu <= 0) by (nonlinear_arith)
        requires n < 0 ==> d.units() <= 0, cu >= 0;
    assert(n >= 0 ==> d.units() * cu >= 0) by (nonlinear_arith)
        requires n >= 0 ==> d.units() >= 0, cu >= 0;
    if d.units() * cu == 0 {
        assert(p.units() == 0);
    }
    assert(p.finite());
    if s.le(t) {
        lemma_add_between(s, p, s, t);
    }
    if t.le(s) {
        lemma_add_between(s, p, t, s);
    }
}

/// Integers of at most 24 digits are exact.
pub proof fn lemma_whole(n: int)
    requires
        0 <= n <= 0x100_0000,
    ensures
        F32::whole(n).units() == n * one_units(),
        F32::whole(n).finite(),
        !F32::whole(n).negative(),
{
    reveal(F32::quotient);
    lemma_short_is_exact(n, 149);
    let m = nearest(n * pow2(149), 1);
    lemma_pow2_pos(149);
    assert(n * one_units() >= 0) by (nonlinear_arith)
        requires n >= 0, one_units() > 0;
    lemma_nearest_positive(n * one_units(), 1);
    lemma2_to64();
    lemma_pow2_adds(24, 149);
    lemma_mag_units_at(173, FRAC as int);
    lemma_mag_units_at(150, 0x80_0000);
    lemma_pow2_adds(23, 150);
    assert(n * one_units() <= 0x100_0000 * one_units()) by (nonlinear_arith)
        requires n <= 0x100_0000, one_units() > 0;
    lemma_nearest_exact(150 * FRAC + 0x80_0000);
    lemma_nearest_order(n * one_units(), 1, mag_units(150 * FRAC + 0x80_0000), 1);
    lemma_signed(false, m);
}

/// A sum is NaN only where an operand is, or where infinities cancel.
pub proof fn lemma_add_is_number(a: F32, b: F32)
    requires
        !a.nan(),
        b.finite(),
    ensures
        !(a + b).nan(),
        !(b + a).nan(),
{
    reveal(F32::spec_add);
    let n = a.units() + b.units();
    lemma_nearest_positive(distance(n, 0), 1);
    lemma_signed(n < 0, nearest_mag(distance(n, 0), 1));
    lemma_signed(a.negative() && b.negative(), 0);
}

/// A product is NaN only where an operand is, or where zero meets an infinity.
pub proof fn lemma_mul_is_number(a: F32, b: F32)
    requires
        !a.nan(),
        b.finite(),
        a.finite() || b.mag() != 0,
    ensures
        !(a * b).nan(),
        !(b * a).nan(),
{
    reveal(F32::spec_mul);
    lemma_pow2_pos(149);
    lemma_mag_units_order(0, a.mag());
    lemma_mag_units_order(0, b.mag());
    let x = mag_units(a.mag());
    let y = mag_units(b.mag());
    assert(x * y >= 0) by (nonlinear_arith)
        requires x >= 0, y >= 0;
    assert(x * y == y * x) by (nonlinear_arith);
    lemma_nearest_positive(x * y, one_units());
    lemma_signed(a.negative() != b.negative(), nearest_mag(x * y, one_units()));
    lemma_signed(a.negative() != b.negative(), INF_MAG as int);
}

/// A quotient by a number other than zero is a number.
pub proof fn lemma_div_is_number(a: F32, b: F32)
    requires
        !a.nan(),
        b.finite(),
        b.mag() != 0,
    ensures
        !(a / b).nan(),
{
    reveal(F32::spec_euclidean_or_real_div);
    lemma_pow2_pos(149);
    lemma_mag_units_order(0, a.mag());
    lemma_mag_units_order(0, b.mag());
    let x = mag_units(a.mag());
    assert(x * pow2(149) >= 0) by (nonlinear_arith)
        requires x >= 0, pow2(149) > 0;
    lemma_nearest_positive(x * pow2(149), mag_units(b.mag()));
    lemma_signed(a.negative() != b.negative(), nearest_mag(x * pow2(149), mag_units(b.mag())));
    lemma_signed(a.negative() != b.negative(), INF_MAG as int);
}

/// What lies between a finite number and its opposite is finite.
pub proof fn lemma_bounded_is_finite(x: F32, bound: F32)
    requires
        bound.finite(),
        !bound.negative(),
        x.within(bound.spec_neg(), bound),
    ensures
        x.finite(),
{
    lemma_neg(bound);
    lemma_mag_units_order(bound.mag(), x.mag());
}

/// What lies between two finite numbers is finite.
pub proof fn lemma_bounded_is_finite_between(x: F32, low: F32, high: F32)
    requires
        low.finite(),
        high.finite(),
        x.within(low, high),
    ensures
        x.finite(),
{
    lemma_mag_units_order(low.mag(), x.mag());
    lemma_mag_units_order(high.mag(), x.mag());
    lemma_mag_units_order(0, low.mag());
    lemma_mag_units_order(0, high.mag());
    lemma_mag_units_order(0, x.mag());
}

/// A number without value has no magnitude bits.
pub proof fn lemma_zero_mag(x: F32)
    requires
        !x.nan(),
        x.units() == 0,
    ensures
        x.mag() == 0,
{
    lemma_mag_units_order(0, x.mag());
}

/// Zero times a finite number is zero.
pub proof fn lemma_zero_product(x: F32, y: F32)
    requires
        x.mag() == 0,
        y.finite(),
    ensures
        (x * y).mag() == 0,
        (x * y).finite(),
        (x * y).units() == 0,
{
    reveal(F32::spec_mul);
    lemma_one();
    assert(0 * mag_units(y.mag()) == 0);
    lemma_nearest_positive(0, one_units());
    lemma_signed(x.negative() != y.negative(), 0);
}

/// A quotient by a positive number is the exact quotient, rounded.
pub proof fn lemma_div_rounded(a: F32, b: F32)
    requires
        a.finite(),
        b.finite(),
        b.units() > 0,
    ensures
        a / b == F32::rounded(a.units() * one_units(), b.units(), a.negative()),
{
    reveal(F32::spec_euclidean_or_real_div);
    lemma_pow2_pos(149);
    let w = one_units();
    let x = mag_units(a.mag());
    let y = mag_units(b.mag());
    lemma_mag_units_order(0, a.mag());
    lemma_mag_units_order(0, b.mag());
    let n = a.units() * w;
    assert(n == x * w || n == -(x * w)) by (nonlinear_arith)
        requires n == a.units() * w, a.units() == x || a.units() == -x;
    assert(x * w >= 0 && (x > 0 ==> x * w > 0) && (x == 0 ==> x * w == 0)) by (nonlinear_arith)
        requires x >= 0, w > 0;
    lemma_nearest_positive(x * w, y);
    assert(n < 0 ==> a.negative()) by (nonlinear_arith)
        requires n == a.units() * w, w > 0, a.units() < 0 ==> a.negative();
    assert(n > 0 ==> !a.negative()) by (nonlinear_arith)
        requires n == a.units() * w, w > 0, a.units() > 0 ==> !a.negative();
    assert(!b.negative() && b.mag() != 0);
    assert(distance(n, 0) == x * w);
    if n == 0 {
        assert(x == 0);
    }
}

/// A quotient by a positive number that lies between two numbers rounds to something
/// between them.
pub proof fn lemma_div_between(a: F32, b: F32, low: F32, high: F32)
    requires
        a.finite(),
        b.finite(),
        b.units() > 0,
        !low.nan(),
        !high.nan(),
        low.units() * b.units() <= a.units() * one_units() <= high.units() * b.units(),
    ensures
        (a / b).within(low, high),
{
    lemma_div_rounded(a, b);
    lemma_rounded_between(a.units() * one_units(), b.units(), a.negative(), low, high);
}

/// A part of nothing is nothing.
pub proof fn lemma_zero_over(a: F32, b: F32)
    requires
        a.finite(),
        a.units() == 0,
        b.finite(),
        b.units() > 0,
    ensures
        (a / b).finite(),
        (a / b).units() == 0,
{
    lemma_one();
    assert(0 * b.units() == 0 && 0 * one_units() == 0);
    lemma_div_between(a, b, F32::nought(), F32::nought());
    lemma_same_value(a / b, F32::nought());
}

/// A sum of finite numbers has the sign of the exact sum.
pub proof fn lemma_add_sign(a: F32, b: F32)
    requires
        a.finite(),
        b.finite(),
    ensures
        !(a + b).nan(),
        a.units() + b.units() >= 0 ==> (a + b).units() >= 0,
        a.units() + b.units() <= 0 ==> (a + b).units() <= 0,
{
    reveal(F32::spec_add);
    let n = a.units() + b.units();
    lemma_nearest_positive(distance(n, 0), 1);
    lemma_signed(n < 0, nearest_mag(distance(n, 0), 1));
    lemma_signed(a.negative() && b.negative(), 0);
}

/// A difference of finite numbers has the sign of the exact difference.
pub proof fn lemma_sub_sign(a: F32, b: F32)
    requires
        a.finite(),
        b.finite(),
    ensures
        !(a - b).nan(),
        a.units() >= b.units() ==> (a - b).units() >= 0,
        a.units() <= b.units() ==> (a - b).units() <= 0,
{
    lemma_neg(b);
    lemma_add_sign(a, b.spec_neg());
}

/// A quotient by a positive number has the sign of the dividend.
pub proof fn lemma_div_sign(a: F32, b: F32)
    requires
        !a.nan(),
        b.finite(),
        b.units() > 0,
    ensures
        !(a / b).nan(),
        a.units() >= 0 ==> (a / b).units() >= 0,
        a.units() <= 0 ==> (a / b).units() <= 0,
{
    reveal(F32::spec_euclidean_or_real_div);
    lemma_pow2_pos(149);
    lemma_mag_units_order(0, a.mag());
    lemma_mag_units_order(0, b.mag());
    lemma_div_is_number(a, b);
    let x = mag_units(a.mag());
    assert(x * pow2(149) >= 0 && (x == 0 ==> x * pow2(149) == 0)) by (nonlinear_arith)
        requires x >= 0, pow2(149) > 0;
    lemma_nearest_positive(x * pow2(149), mag_units(b.mag()));
    lemma_signed(a.negative(), nearest_mag(x * pow2(149), mag_units(b.mag())));
    lemma_signed(a.negative(), INF_MAG as int);
}

/// Numbers with a value other than zero have magnitude bits other than zero.
pub proof fn lemma_not_zero(x: F32)
    requires
        x.units() != 0,
    ensures
        x.mag() != 0,
{
}

/// A quotient of natural numbers is finite and, where it is not zero, positive, as
/// long as it is far from both ends of the format.
pub proof fn lemma_quotient_number(n: int, d: int)
    requires
        0 <= n < 0x1_0000_0000_0000_0000,
        0 < d < 0x1_0000_0000_0000_0000,
    ensures
        F32::quotient(n, d).finite(),
        !F32::quotient(n, d).negative(),
        n > 0 ==> F32::quotient(n, d).units() > 0,
        F32::quotient(n, d).units() >= 0,
{
    lemma_one();
    lemma2_to64();
    lemma_pow2_adds(64, 149);
    lemma_pow2_order(64, 149);
    let w = one_units();
    let least = F32 { bits: 1 };
    let s: nat = 190;
    lemma_mag_units_at(s, FRAC as int);
    lemma_pow2_adds(23, s);
    let most = F32 { bits: 0x5F80_0000 };
    assert(most.mag() == s * FRAC + FRAC);
    assert(most.units() == pow2(213));
    assert(n * w <= most.units() * d) by (nonlinear_arith)
        requires most.units() == 0x1_0000_0000_0000_0000 * w, n < 0x1_0000_0000_0000_0000, d >= 1, w > 0, n >= 0;
    assert(0 * d <= n * w) by (nonlinear_arith)
        requires n >= 0, w > 0;
    lemma_quotient_between(n, d, F32::nought(), most);
    if n > 0 {
        assert(1 * d <= n * w) by (nonlinear_arith)
            requires n >= 1, w >= 0x1_0000_0000_0000_0000, d < 0x1_0000_0000_0000_0000;
        lemma_quotient_between(n, d, least, most);
    }
}

/// Adding zero keeps the value.
pub proof fn lemma_plus_zero(x: F32, z: F32)
    requires
        x.finite(),
        z.finite(),
        z.units() == 0,
    ensures
        (x + z).units() == x.units(),
        (x + z).finite(),
{
    lemma_add_between(x, z, x, x);
    lemma_mag_units_order(x.mag(), (x + z).mag());
    lemma_mag_units_order((x + z).mag(), x.mag());
    lemma_mag_units_order(0, x.mag());
    lemma_mag_units_order(0, (x + z).mag());
}

/// A finite number times zero is zero.
pub proof fn lemma_times_zero(x: F32, z: F32)
    requires
        x.finite(),
        z.mag() == 0,
    ensures
        (x * z).finite(),
        (x * z).units() == 0,
{
    lemma_one();
    lemma_mag_units_order(0, 0);
    assert(x.units() * z.units() == 0) by (nonlinear_arith)
        requires z.units() == 0;
    lemma_mul_between(x, z, F32::nought(), F32::nought());
    lemma_same_value(x * z, F32::nought());
}

/// What has the value of a finite number is finite.
pub proof fn lemma_same_value(x: F32, y: F32)
    requires
        x.within(y, y),
        y.finite(),
    ensures
        x.finite(),
        x.units() == y.units(),
{
    lemma_mag_units_order(x.mag(), y.mag());
    lemma_mag_units_order(y.mag(), x.mag());
    lemma_mag_units_order(0, x.mag());
    lemma_mag_units_order(0, y.mag());
}

/// Rounding keeps the order of fractions.
pub proof fn lemma_rounded_order(n: int, d: int, s: bool, m: int, e: int, t: bool)
    requires
        d > 0,
        e > 0,
        n * e <= m * d,
    ensures
        F32::rounded(n, d, s).le(F32::rounded(m, e, t)),
{
    let a = distance(n, 0);
    let b = distance(m, 0);
    lemma_nearest_positive(a, d);
    lemma_nearest_positive(b, e);
    lemma_signed(n < 0, nearest_mag(a, d));
    lemma_signed(m < 0, nearest_mag(b, e));
    lemma_signed(s, 0);
    lemma_signed(t, 0);
    if n > 0 {
        assert(m > 0) by (nonlinear_arith)
            requires n * e <= m * d, n > 0, e > 0, d > 0;
        lemma_nearest_order(a, d, b, e);
        lemma_mag_units_order(nearest_mag(b, e), nearest_mag(a, d));
    } else if m < 0 {
        assert(n < 0) by (nonlinear_arith)
            requires n * e <= m * d, m < 0, e > 0, d > 0;
        assert(b * d <= a * e) by (nonlinear_arith)
            requires n * e <= m * d, a == -n, b == -m;
        lemma_nearest_order(b, e, a, d);
        lemma_mag_units_order(nearest_mag(a, d), nearest_mag(b, e));
    }
}

/// A fraction lies from zero to one, and is not zero unless it ought to be.
pub proof fn lemma_fraction(n: int, d: int)
    requires
        0 <= n <= d,
        0 < d < 0x1_0000,
    ensures
        F32::quotient(n, d).finite(),
        !F32::quotient(n, d).negative(),
        F32::quotient(n, d).within(F32::nought(), F32::unit()),
        F32::quotient(n, d).within(F32::nought(), F32::whole(1)),
        0 <= F32::quotient(n, d).units() <= one_units(),
        n > 0 ==> F32::quotient(n, d).units() > 0,
        n > 0 ==> F32::quotient(n, d).mag() != 0,
{
    lemma_one();
    lemma_whole(1);
    lemma_quotient_number(n, d);
    let w = one_units();
    assert(0 * d <= n * w <= w * d) by (nonlinear_arith)
        requires 0 <= n <= d, w > 0;
    lemma_quotient_between(n, d, F32::nought(), F32::unit());
}

/// Fractions of at most 24 digits over a power of two are exact.
pub proof fn lemma_binary_fraction(k: int, p: nat)
    requires
        0 <= k <= 0x100_0000,
        p <= 32,
    ensures
        F32::quotient(k, pow2(p) as int).units() == k * pow2((149 - p) as nat),
        pow2(p) * F32::quotient(k, pow2(p) as int).units() == k * one_units(),
        F32::quotient(k, pow2(p) as int).finite(),
        !F32::quotient(k, pow2(p) as int).negative(),
{
    reveal(F32::quotient);
    lemma2_to64();
    lemma_pow2_pos(p);
    lemma_pow2_order(p, 32);
    lemma_pow2_adds(p, (149 - p) as nat);
    lemma_pow2_pos((149 - p) as nat);
    let d = pow2(p) as int;
    let g = pow2((149 - p) as nat) as int;
    let n = k * one_units();
    let m = k * g;
    assert(n == m * d && m >= 0) by (nonlinear_arith)
        requires n == k * one_units(), m == k * g, one_units() == d * g, k >= 0, g > 0;
    lemma_short_is_exact(k, (149 - p) as nat);
    lemma_nearest_scale(m, 1, d);
    lemma_quotient_number(k, d);
    lemma_nearest_positive(n, d);
    lemma_signed(false, nearest_mag(n, d));
    assert(d * m == n) by (nonlinear_arith)
        requires n == m * d;
}

/// Greater sums stay greater.
pub proof fn lemma_add_order(a: F32, b: F32, c: F32, d: F32)
    requires
        a.finite(),
        b.finite(),
        c.finite(),
        d.finite(),
        a.units() + b.units() <= c.units() + d.units(),
    ensures
        (a + b).le(c + d),
{
    reveal(F32::spec_add);
    let n = a.units() + b.units();
    let m = c.units() + d.units();
    assert(n * 1 <= m * 1);
    lemma_rounded_order(n, 1, a.negative() && b.negative(), m, 1, c.negative() && d.negative());
}

/// Greater differences stay greater.
pub proof fn lemma_sub_order(a: F32, b: F32, c: F32, d: F32)
    requires
        a.finite(),
        b.finite(),
        c.finite(),
        d.finite(),
        a.units() - b.units() <= c.units() - d.units(),
    ensures
        (a - b).le(c - d),
{
    lemma_neg(b);
    lemma_neg(d);
    lemma_add_order(a, b.spec_neg(), c, d.spec_neg());
}

/// Greater products stay greater.
pub proof fn lemma_mul_order(a: F32, b: F32, c: F32, d: F32)
    requires
        a.finite(),
        b.finite(),
        c.finite(),
        d.finite(),
        a.units() * b.units() <= c.units() * d.units(),
    ensures
        (a * b).le(c * d),
{
    lemma_mul_rounded(a, b);
    lemma_mul_rounded(c, d);
    lemma_pow2_pos(149);
    let w = one_units();
    let n = a.units() * b.units();
    let m = c.units() * d.units();
    assert(n * w <= m * w) by (nonlinear_arith)
        requires n <= m, w > 0;
    lemma_rounded_order(n, w, a.negative() != b.negative(), m, w, c.negative() != d.negative());
}

/// The size of a product with something that is not negative.
pub proof fn lemma_mul_unsigned(a: F32, b: F32)
    requires
        a.finite(),
        b.finite(),
        b.units() > 0,
    ensures
        (a * b).unsigned() == a.unsigned() * b,
{
    lemma_pow2_pos(149);
    lemma_signed(false, a.mag());
    lemma_mag_units_order(0, a.mag());
    lemma_mul_rounded(a, b);
    lemma_mul_rounded(a.unsigned(), b);
    let w = one_units();
    let n = a.units() * b.units();
    let m = a.unsigned().units() * b.units();
    assert(m == distance(n, 0)) by (nonlinear_arith)
        requires
            n == a.units() * b.units(),
            m == a.unsigned().units() * b.units(),
            a.unsigned().units() == distance(a.units(), 0),
            b.units() > 0,
    ;
    lemma_nearest_positive(m, w);
    lemma_signed(n < 0, nearest_mag(m, w));
    lemma_signed(false, nearest_mag(m, w));
    lemma_signed(a.negative() != b.negative(), 0);
    lemma_signed(false, 0);
}

/// The integer part grows with the number.
pub proof fn lemma_index_order(p: F32, q: F32)
    requires
        p.le(q),
        F32::nought().le(p),
    ensures
        p.index() <= q.index(),
{
    reveal(F32::index);
    lemma_one();
    let w = one_units();
    lemma_div_is_ordered(p.units(), q.units(), w);
    lemma_div_pos_is_pos(q.units(), w);
    if q.negative() {
        lemma_mag_units_order(0, q.mag());
        lemma_basic_div(0, w);
        assert(p.units() == 0);
    }
}

} // verus!
