//! Numbers as reals, and how far operations are from exact ones.

use super::laws::{
    lemma_binary_fraction, lemma_bounded_is_finite, lemma_bounded_is_finite_between, lemma_div_rounded, lemma_half,
    lemma_mul_rounded, lemma_neg, lemma_one, lemma_quotient_number, lemma_rounded_between, lemma_signed, lemma_whole,
    one_units,
};
use super::repr::{lemma_mag_units_order, mag_units, F32};
use super::root::{floor_root, lemma_root_between};
use super::round::{
    binade, distance, half_even, lemma_binade_bounds, lemma_half_even_bounds, lemma_mag_units_at,
    lemma_nearest_positive, lemma_pow2_order, nearest, nearest_mag,
};
use super::size::lemma_power;
use vstd::arithmetic::div_mod::lemma_fundamental_div_mod;
use vstd::arithmetic::power2::{lemma2_to64, lemma_pow2_adds, lemma_pow2_pos, lemma_pow2_unfold, pow2};
use vstd::prelude::*;

verus! {

impl F32 {
    /// The value of a number.
    #[verifier::opaque]
    pub open spec fn value(self) -> real {
        self.units() as real / one_units() as real
    }
}

/// The distance of two reals.
pub open spec fn apart(a: real, b: real) -> real {
    if a <= b {
        b - a
    } else {
        a - b
    }
}

/// How large a real is, whatever its sign.
pub open spec fn size(a: real) -> real {
    apart(a, 0real)
}

/// A real kept from `low` to `high`.
pub open spec fn clip(x: real, low: real, high: real) -> real {
    if x < low {
        low
    } else if high < x {
        high
    } else {
        x
    }
}

/// What rounding may change of the smallest results.
pub open spec fn dust() -> real {
    1real / 1000000000000000000000000000000real
}

/// Far more than any number here, and far less than the format holds.
pub open spec fn huge() -> real {
    18446744073709551616real
}

/// A finite number no further than `e` from a real.
pub open spec fn close(x: F32, v: real, e: real) -> bool {
    x.finite() && apart(x.value(), v) <= e
}

/// Values are ordered as numbers are.
pub proof fn lemma_value_order(a: F32, b: F32)
    ensures
        a.units() <= b.units() <==> a.value() <= b.value(),
        a.units() == b.units() <==> a.value() == b.value(),
        a.units() < b.units() <==> a.value() < b.value(),
{
    reveal(F32::value);
    lemma_one();
    let w = one_units() as real;
    let x = a.units() as real;
    let y = b.units() as real;
    assert((x <= y <==> x / w <= y / w) && (x < y <==> x / w < y / w)) by (nonlinear_arith)
        requires w > 0real;
}

/// What is at most, or below, by its value is so as a number.
pub proof fn lemma_value_le(a: F32, b: F32)
    requires
        !a.nan(),
        !b.nan(),
    ensures
        a.le(b) <==> a.value() <= b.value(),
        a.lt(b) <==> a.value() < b.value(),
{
    lemma_value_order(a, b);
}

/// The values of zero, one and a half.
pub proof fn lemma_constants()
    ensures
        F32::nought().finite(),
        F32::unit().finite(),
        F32::half_unit().finite(),
        F32::nought().value() == 0real,
        F32::unit().value() == 1real,
        F32::half_unit().value() == 1real / 2real,
        -F32::unit() == F32::unit().spec_neg(),
        (-F32::unit()).finite(),
        (-F32::unit()).value() == -1real,
{
    reveal(F32::value);
    lemma_one();
    lemma_half();
    lemma_neg(F32::unit());
    let w = one_units() as real;
    let h = F32::half_unit().units() as real;
    assert(w / w == 1real && 0real / w == 0real && h / w == 1real / 2real && (-w) / w == -1real) by (nonlinear_arith)
        requires w > 0real, 2real * h == w;
    assert(F32::unit().spec_neg().units() as real == -w);
}

/// The value of a number with the sign turned.
pub proof fn lemma_value_neg(a: F32)
    ensures
        a.spec_neg().value() == -a.value(),
        a.spec_neg().finite() == a.finite(),
        a.spec_neg().nan() == a.nan(),
{
    reveal(F32::value);
    lemma_one();
    lemma_neg(a);
    let w = one_units() as real;
    let x = a.units() as real;
    assert((-x) / w == -(x / w)) by (nonlinear_arith)
        requires w > 0real;
}

/// The value of a number without its sign.
pub proof fn lemma_value_unsigned(a: F32)
    requires
        !a.nan(),
    ensures
        a.unsigned().value() == size(a.value()),
        a.unsigned().finite() == a.finite(),
        !a.unsigned().nan(),
{
    lemma_signed(false, a.mag());
    lemma_constants();
    lemma_mag_units_order(0, a.mag());
    lemma_value_order(a, F32::nought());
    lemma_one();
    if a.negative() {
        lemma_value_neg(a);
        lemma_neg(a);
        lemma_value_order(a.unsigned(), a.spec_neg());
    } else {
        lemma_value_order(a.unsigned(), a);
    }
}

/// The value of a number kept between two others.
pub proof fn lemma_value_clamped(x: F32, low: F32, high: F32)
    requires
        !x.nan(),
        !low.nan(),
        !high.nan(),
        low.le(high),
    ensures
        x.clamped(low, high).value() == clip(x.value(), low.value(), high.value()),
        !x.clamped(low, high).nan(),
        low.finite() && high.finite() ==> x.clamped(low, high).finite(),
{
    lemma_value_order(x, low);
    lemma_value_order(x, high);
    lemma_value_order(low, high);
    if low.finite() && high.finite() {
        lemma_bounded_is_finite_between(x.clamped(low, high), low, high);
    }
}

/// The larger and the smaller of two values.
pub proof fn lemma_value_larger(a: F32, b: F32)
    requires
        a.finite(),
        b.finite(),
    ensures
        a.larger(b).finite(),
        a.smaller(b).finite(),
        a.larger(b).value() == if a.value() < b.value() {
            b.value()
        } else {
            a.value()
        },
        a.smaller(b).value() == if a.value() < b.value() {
            a.value()
        } else {
            b.value()
        },
{
    lemma_value_order(a, b);
    lemma_value_order(b, a);
}

/// The value of a part of one.
pub proof fn lemma_value_part(x: F32)
    requires
        !x.nan(),
    ensures
        x.clamped(F32::nought(), F32::unit()).value() == clip(x.value(), 0real, 1real),
        x.clamped(F32::nought(), F32::unit()).finite(),
        x.within(F32::nought(), F32::unit()) <==> 0real <= x.value() <= 1real,
        x.within(F32::nought(), F32::unit()) ==> x.finite(),
{
    lemma_constants();
    lemma_one();
    lemma_value_clamped(x, F32::nought(), F32::unit());
    lemma_value_order(x, F32::nought());
    lemma_value_order(x, F32::unit());
    if x.within(F32::nought(), F32::unit()) {
        lemma_bounded_is_finite_between(x, F32::nought(), F32::unit());
    }
}

/// The number nearest to a fraction is off by no more than its last digit.
proof fn lemma_nearest_relative(n: int, d: int)
    requires
        d > 0,
        n >= 0,
    ensures
        0x100_0000 * distance(mag_units(nearest(n, d)) * d, n) <= n + 0x80_0000 * d,
{
    let s = binade(n, d);
    lemma_binade_bounds(n, d);
    lemma_pow2_pos(s);
    lemma2_to64();
    let p = pow2(s) as int;
    let u = d * p;
    assert(u > 0) by (nonlinear_arith)
        requires u == d * p, d > 0, p > 0;
    lemma_fundamental_div_mod(n, u);
    let h = half_even(n, u);
    let q = n / u;
    assert(h == q || h == q + 1);
    assert(u * (q + 1) == u * q + u) by (nonlinear_arith);
    assert(2 * distance(h * u, n) <= u) by {
        assert(q * u == u * q && (q + 1) * u == u * q + u) by (nonlinear_arith);
    }
    assert(0 * u == 0);
    lemma_half_even_bounds(n, u, 0);
    lemma_half_even_bounds(n, u, 0x100_0000);
    if s > 0 {
        lemma_pow2_unfold(s);
        let c = pow2((s - 1) as nat) as int;
        assert(0x80_0000 * u == 0x100_0000 * (d * c)) by (nonlinear_arith)
            requires u == d * p, p == 2 * c;
        lemma_half_even_bounds(n, u, 0x80_0000);
    }
    lemma_mag_units_at(s, h);
    assert((h * p) * d == h * u) by (nonlinear_arith)
        requires u == d * p;
    if s == 0 {
        assert(u == d) by (nonlinear_arith)
            requires u == d * p, p == 1;
    }
}

/// A rounded fraction is off by no more than its last digit.
proof fn lemma_rounded_relative(n: int, d: int, negative: bool)
    requires
        d > 0,
        -(pow2(213) * d) <= n <= pow2(213) * d,
    ensures
        F32::rounded(n, d, negative).finite(),
        0x100_0000 * distance(F32::rounded(n, d, negative).units() * d, n) <= distance(n, 0) + 0x80_0000 * d,
{
    let a = distance(n, 0);
    let r = F32::rounded(n, d, negative);
    lemma_power(213);
    let top = F32::power(213);
    lemma_neg(top);
    assert((-top.units()) * d == -(top.units() * d)) by (nonlinear_arith);
    lemma_rounded_between(n, d, negative, top.spec_neg(), top);
    lemma_bounded_is_finite(r, top);
    if n == 0 {
        lemma_signed(negative, 0);
        assert(0 * d == 0);
    } else {
        lemma_nearest_relative(a, d);
        lemma_nearest_positive(a, d);
        let m = nearest_mag(a, d);
        lemma_signed(n < 0, m);
        assert(nearest(a, d) == m);
        let u = mag_units(m);
        assert((-u) * d == -(u * d)) by (nonlinear_arith);
    }
}

/// A whole number as a real.
proof fn lemma_real_product(a: int, b: int)
    ensures
        (a * b) as real == a as real * b as real,
{
    assert((a * b) as real == a as real * b as real) by (nonlinear_arith);
}

/// Units are small.
proof fn lemma_units()
    ensures
        one_units() as real > 0real,
        one_units() as real >= 1000000000000000000000000000000real,
        pow2(213) as real == huge() * one_units() as real,
{
    lemma_one();
    lemma2_to64();
    lemma_pow2_adds(64, 149);
    lemma_pow2_adds(64, 64);
    lemma_pow2_adds(128, 21);
    lemma_real_product(pow2(64) as int, pow2(149) as int);
    assert(pow2(64) == 18446744073709551616);
    assert(one_units() == pow2(128) * pow2(21));
    assert(pow2(128) == 18446744073709551616 * 18446744073709551616);
    assert(pow2(21) == 2097152);
    assert(one_units() >= 1000000000000000000000000000000) by (nonlinear_arith)
        requires
            one_units() == pow2(128) * pow2(21),
            pow2(128) == 18446744073709551616 * 18446744073709551616,
            pow2(21) == 2097152,
    ;
}

/// The value of a rounded fraction.
proof fn lemma_value_rounded(n: int, d: int, negative: bool, v: real)
    requires
        d > 0,
        v * (d as real * one_units() as real) == n as real,
        -huge() <= v <= huge(),
    ensures
        close(F32::rounded(n, d, negative), v, size(v) / 16777216real + dust()),
{
    reveal(F32::value);
    lemma_units();
    let w = one_units() as real;
    let e = d as real;
    let m = n as real;
    let top = pow2(213) as int;
    assert(-(huge() * (e * w)) <= v * (e * w) <= huge() * (e * w)) by (nonlinear_arith)
        requires -huge() <= v <= huge(), e > 0real, w > 0real;
    lemma_real_product(top, d);
    assert(huge() * (e * w) == (huge() * w) * e) by (nonlinear_arith);
    assert(n <= pow2(213) * d && -(pow2(213) * d) <= n);
    lemma_rounded_relative(n, d, negative);
    let r = F32::rounded(n, d, negative);
    let u = r.units() as real;
    lemma_real_product(r.units(), d);
    let x = u / w;
    assert(x * w == u) by (nonlinear_arith)
        requires x == u / w, w > 0real;
    assert((x * w) * e == x * (e * w)) by (nonlinear_arith);
    let f = e * w;
    assert(f > 0real) by (nonlinear_arith)
        requires f == e * w, e > 0real, w > 0real;
    let g = x * f - v * f;
    assert(g == (x - v) * f) by (nonlinear_arith)
        requires g == x * f - v * f;
    assert(16777216real * size(g) <= size(m) + 8388608real * e);
    assert(size(m) == size(v) * f) by (nonlinear_arith)
        requires m == v * f, f > 0real;
    assert(size(g) == size(x - v) * f) by (nonlinear_arith)
        requires g == (x - v) * f, f > 0real;
    assert(e * 1000000000000000000000000000000real <= f) by (nonlinear_arith)
        requires f == e * w, w >= 1000000000000000000000000000000real, e > 0real;
    let k = size(v) / 16777216real + dust();
    assert(size(x - v) * f <= k * f) by (nonlinear_arith)
        requires
            16777216real * (size(x - v) * f) <= size(v) * f + 8388608real * e,
            e * 1000000000000000000000000000000real <= f,
            k == size(v) * (1real / 16777216real) + 1real / 1000000000000000000000000000000real,
            f > 0real,
    ;
    assert(size(x - v) <= k) by (nonlinear_arith)
        requires size(x - v) * f <= k * f, f > 0real;
}

/// The value of a sum.
pub proof fn lemma_value_add(a: F32, b: F32)
    requires
        a.finite(),
        b.finite(),
        size(a.value() + b.value()) <= huge(),
    ensures
        close(a + b, a.value() + b.value(), size(a.value() + b.value()) / 16777216real + dust()),
{
    reveal(F32::value);
    reveal(F32::spec_add);
    lemma_units();
    let w = one_units() as real;
    let x = a.units() as real;
    let y = b.units() as real;
    let v = a.value() + b.value();
    assert(v * (1real * w) == x + y) by (nonlinear_arith)
        requires v == x / w + y / w, w > 0real;
    lemma_value_rounded(a.units() + b.units(), 1, a.negative() && b.negative(), v);
}

/// The value of a difference.
pub proof fn lemma_value_sub(a: F32, b: F32)
    requires
        a.finite(),
        b.finite(),
        size(a.value() - b.value()) <= huge(),
    ensures
        close(a - b, a.value() - b.value(), size(a.value() - b.value()) / 16777216real + dust()),
{
    lemma_value_neg(b);
    lemma_value_add(a, b.spec_neg());
}

/// The value of a product.
pub proof fn lemma_value_mul(a: F32, b: F32)
    requires
        a.finite(),
        b.finite(),
        size(a.value() * b.value()) <= huge(),
    ensures
        close(a * b, a.value() * b.value(), size(a.value() * b.value()) / 16777216real + dust()),
{
    reveal(F32::value);
    lemma_units();
    let w = one_units() as real;
    let x = a.units() as real;
    let y = b.units() as real;
    let v = a.value() * b.value();
    lemma_real_product(a.units(), b.units());
    let p = x / w;
    let q = y / w;
    assert(p * w == x && q * w == y) by (nonlinear_arith)
        requires p == x / w, q == y / w, w > 0real;
    assert((p * q) * (w * w) == (p * w) * (q * w)) by (nonlinear_arith);
    lemma_mul_rounded(a, b);
    lemma_value_rounded(a.units() * b.units(), one_units(), a.negative() != b.negative(), v);
}

/// The value of a quotient by a positive number.
pub proof fn lemma_value_div(a: F32, b: F32)
    requires
        a.finite(),
        b.finite(),
        b.value() > 0real,
        size(a.value() / b.value()) <= huge(),
    ensures
        close(a / b, a.value() / b.value(), size(a.value() / b.value()) / 16777216real + dust()),
{
    reveal(F32::value);
    lemma_units();
    lemma_constants();
    lemma_one();
    lemma_value_order(F32::nought(), b);
    let w = one_units() as real;
    let x = a.units() as real;
    let y = b.units() as real;
    let v = a.value() / b.value();
    lemma_real_product(a.units(), one_units());
    let p = x / w;
    let q = y / w;
    assert(p * w == x && q * w == y) by (nonlinear_arith)
        requires p == x / w, q == y / w, w > 0real;
    assert(v * q == p) by (nonlinear_arith)
        requires v == p / q, q > 0real;
    assert(v * (y * w) == x * w) by (nonlinear_arith)
        requires v * q == p, q * w == y, p * w == x;
    lemma_div_rounded(a, b);
    lemma_value_rounded(a.units() * one_units(), b.units(), a.negative(), v);
}

/// The value of a whole number.
pub proof fn lemma_value_whole(n: int)
    requires
        0 <= n <= 0x100_0000,
    ensures
        F32::whole(n).finite(),
        F32::whole(n).value() == n as real,
{
    reveal(F32::value);
    lemma_units();
    lemma_whole(n);
    lemma_real_product(n, one_units());
    let w = one_units() as real;
    let x = n as real;
    assert((x * w) / w == x) by (nonlinear_arith)
        requires w > 0real;
}

/// The value of a fraction.
pub proof fn lemma_value_quotient(n: int, d: int)
    requires
        0 <= n < 0x1_0000_0000,
        0 < d < 0x1_0000_0000,
    ensures
        close(F32::quotient(n, d), n as real / d as real, (n as real / d as real) / 16777216real + dust()),
{
    let x = n as real;
    let y = d as real;
    let v = x / y;
    assert(v * y == x && 0real <= v <= 4294967296real) by (nonlinear_arith)
        requires v == x / y, 0real <= x <= 4294967296real, y >= 1real;
    lemma_value_fraction(n, d, v);
}

/// The value of a fraction that is known.
proof fn lemma_value_fraction(n: int, d: int, v: real)
    requires
        n >= 0,
        d > 0,
        0real <= v <= huge(),
        v * d as real == n as real,
    ensures
        close(F32::quotient(n, d), v, v / 16777216real + dust()),
{
    reveal(F32::quotient);
    lemma_one();
    let m = n * one_units();
    let w = one_units() as real;
    let x = n as real;
    let y = d as real;
    lemma_real_product(n, one_units());
    assert(v * (y * w) == (v * y) * w) by (nonlinear_arith);
    lemma_value_rounded(m, d, false, v);
    assert(m >= 0) by (nonlinear_arith)
        requires m == n * one_units(), n >= 0, one_units() > 0;
    lemma_nearest_positive(m, d);
}

/// The size of a product.
pub proof fn lemma_size_mul(x: real, y: real, a: real, b: real)
    requires
        size(x) <= a,
        size(y) <= b,
    ensures
        size(x * y) <= a * b,
{
    assert(-(a * b) <= x * y <= a * b) by (nonlinear_arith)
        requires -a <= x <= a, -b <= y <= b;
}

/// How far a product is from that of near factors.
pub proof fn lemma_apart_mul(x: real, y: real, u: real, v: real, e: real, f: real, p: real, q: real)
    requires
        apart(x, u) <= e,
        apart(y, v) <= f,
        size(u) <= p,
        size(y) <= q,
    ensures
        apart(x * y, u * v) <= e * q + p * f,
{
    lemma_size_mul(x - u, y, e, q);
    lemma_size_mul(u, y - v, p, f);
    assert((x - u) * y + u * (y - v) == x * y - u * v) by (nonlinear_arith);
}

/// A sum of numbers that are close to reals.
pub proof fn lemma_close_add(a: F32, b: F32, u: real, v: real, e: real, f: real)
    requires
        close(a, u, e),
        close(b, v, f),
        size(u + v) + e + f <= huge(),
    ensures
        close(a + b, u + v, e + f + (size(u + v) + e + f) / 16777216real + dust()),
{
    lemma_value_add(a, b);
}

/// A difference of numbers that are close to reals.
pub proof fn lemma_close_sub(a: F32, b: F32, u: real, v: real, e: real, f: real)
    requires
        close(a, u, e),
        close(b, v, f),
        size(u - v) + e + f <= huge(),
    ensures
        close(a - b, u - v, e + f + (size(u - v) + e + f) / 16777216real + dust()),
{
    lemma_value_sub(a, b);
}

/// A product of numbers that are close to reals of at most `p` and `q`.
pub proof fn lemma_close_mul(a: F32, b: F32, u: real, v: real, e: real, f: real, p: real, q: real)
    requires
        close(a, u, e),
        close(b, v, f),
        size(u) <= p,
        size(v) <= q,
        (p + e) * (q + f) <= huge(),
    ensures
        close(a * b, u * v, e * (q + f) + p * f + ((p + e) * (q + f)) / 16777216real + dust()),
{
    let x = a.value();
    let y = b.value();
    lemma_apart_mul(x, y, u, v, e, f, p, q + f);
    lemma_size_mul(x, y, p + e, q + f);
    lemma_value_mul(a, b);
    assert(size(x * y) / 16777216real <= ((p + e) * (q + f)) / 16777216real) by (nonlinear_arith)
        requires size(x * y) <= (p + e) * (q + f);
}

/// A quotient of numbers that are close to reals: the divisor is at least `q`, the
/// quotient at most `p`.
pub proof fn lemma_close_div(a: F32, b: F32, u: real, v: real, e: real, f: real, p: real, q: real)
    requires
        close(a, u, e),
        close(b, v, f),
        0real <= e,
        0real <= f,
        f < q <= v,
        size(u / v) <= p,
        p + (e + p * f) / (q - f) <= huge(),
    ensures
        close(
            a / b,
            u / v,
            (e + p * f) / (q - f) + (p + (e + p * f) / (q - f)) / 16777216real + dust(),
        ),
{
    let x = a.value();
    let y = b.value();
    let r = u / v;
    let t = x / y;
    assert(r * v == u && t * y == x) by (nonlinear_arith)
        requires r == u / v, t == x / y, v > 0real, y > 0real;
    let g = (e + p * f) / (q - f);
    assert((t - r) * y == (x - u) - r * (y - v)) by (nonlinear_arith)
        requires r * v == u, t * y == x;
    lemma_size_mul(r, y - v, p, f);
    let h = t - r;
    assert(size(h) * y == size(h * y)) by (nonlinear_arith)
        requires y > 0real;
    assert(g * (q - f) == e + p * f) by (nonlinear_arith)
        requires g == (e + p * f) / (q - f), q - f > 0real;
    assert(p * f >= 0real) by (nonlinear_arith)
        requires p >= 0real, f >= 0real;
    assert(g >= 0real) by (nonlinear_arith)
        requires g * (q - f) >= 0real, q - f > 0real;
    assert(size(h) <= g) by (nonlinear_arith)
        requires size(h) * y <= g * (q - f), y >= q - f, q - f > 0real, g >= 0real;
    lemma_value_div(a, b);
    assert(size(t) / 16777216real <= (p + g) / 16777216real) by (nonlinear_arith)
        requires size(t) <= p + g;
}

/// A number close to a real, kept from zero to one.
pub proof fn lemma_close_part(x: F32, u: real, e: real)
    requires
        close(x, u, e),
    ensures
        close(x.clamped(F32::nought(), F32::unit()), clip(u, 0real, 1real), e),
        0real <= x.clamped(F32::nought(), F32::unit()).value() <= 1real,
{
    lemma_value_part(x);
}

/// A number close to a real, kept between two numbers.
pub proof fn lemma_close_clamped(x: F32, u: real, e: real, low: F32, high: F32)
    requires
        close(x, u, e),
        low.finite(),
        high.finite(),
        low.le(high),
    ensures
        close(x.clamped(low, high), clip(u, low.value(), high.value()), e),
{
    lemma_value_clamped(x, low, high);
    lemma_value_order(low, high);
}

/// A portion of a number close to a real.
pub proof fn lemma_close_portion(d: F32, c: F32, u: real, t: real, m: real, e: real, r: real)
    requires
        close(d, u, m),
        close(c, t, e),
        size(u) <= r,
        size(t) <= 1real,
        0real <= e <= 1real / 1000real,
        0real <= m <= 1real / 10real * r,
        r <= 10000000real,
    ensures
        close(d * c, u * t, 2real * m + r * e + (2real * r) / 16777216real + dust()),
{
    let x = d.value();
    let y = c.value();
    lemma_apart_mul(x, y, u, t, m, e, r, 1001real / 1000real);
    lemma_size_mul(x, y, r + m, 1001real / 1000real);
    lemma_value_mul(d, c);
}

/// The way to a target, as far as a rate takes it.
pub proof fn lemma_close_toward(a: F32, b: F32, c: F32, u: real, v: real, t: real, e: real, p: real)
    requires
        close(a, u, e),
        close(b, v, e),
        close(c, t, e),
        0real <= e <= 1real / 1000real,
        size(u) <= p,
        size(v) <= p,
        size(t) <= 1real,
        1real <= p <= 1000000real,
    ensures
        close(a.toward(b, c), u + (v - u) * t, 8real * (p * e) + 16real * (p / 16777216real) + 16real * dust()),
{
    lemma_close_sub(b, a, v, u, e, e);
    let d = b - a;
    let m = 2real * e + (2real * p + 2real * e) / 16777216real + dust();
    assert(0real <= p * e <= p / 1000real && e <= p * e) by (nonlinear_arith)
        requires 0real <= e <= 1real / 1000real, p >= 1real;
    assert((2real * p) * e == 2real * (p * e)) by (nonlinear_arith);
    lemma_close_portion(d, c, v - u, t, m, e, 2real * p);
    let k = 2real * m + 2real * (p * e) + (4real * p) / 16777216real + dust();
    lemma_size_mul(v - u, t, 2real * p, 1real);
    lemma_close_add(a, d * c, u, (v - u) * t, e, k);
}

/// The value of a fraction with a power of two below.
pub proof fn lemma_value_binary(k: int, p: nat)
    requires
        0 <= k <= 0x100_0000,
        p <= 32,
    ensures
        F32::quotient(k, pow2(p) as int).finite(),
        F32::quotient(k, pow2(p) as int).value() == k as real / pow2(p) as real,
{
    reveal(F32::value);
    lemma_units();
    lemma2_to64();
    lemma_pow2_pos(p);
    lemma_pow2_order(p, 32);
    lemma_binary_fraction(k, p);
    lemma_quotient_number(k, pow2(p) as int);
    let d = pow2(p) as int;
    let u = F32::quotient(k, d).units();
    lemma_real_product(d, u);
    lemma_real_product(k, one_units());
    let w = one_units() as real;
    let x = u as real;
    let y = d as real;
    let z = k as real;
    assert(x / w == z / y) by (nonlinear_arith)
        requires y * x == z * w, w > 0real, y > 0real;
}

/// How far a quotient is, relative to its size.
pub proof fn lemma_relative_div(a: F32, b: F32, u: real, v: real, k: real, l: real, t: real, q: real)
    requires
        a.finite(),
        b.finite(),
        apart(a.value(), u) <= size(u) * k + t,
        apart(b.value(), v) <= v * l,
        0real <= k <= 1real / 1000real,
        0real <= l <= 1real / 1000real,
        0real <= t,
        0real < q <= v,
        size(u / v) * 2real + 2real * (t / q) <= huge(),
    ensures
        (a / b).finite(),
        apart((a / b).value(), u / v) <= size(u / v) * (2real * k + 2real * l + 1real / 8000000real) + 3real * (t / q)
            + dust(),
{
    let x = a.value();
    let y = b.value();
    let r = u / v;
    assert(r * v == u) by (nonlinear_arith)
        requires r == u / v, v > 0real;
    assert(v * l <= v / 1000real && 0real <= v * l) by (nonlinear_arith)
        requires 0real <= l <= 1real / 1000real, v > 0real;
    let z = x / y;
    assert(z * y == x) by (nonlinear_arith)
        requires z == x / y, y > 0real;
    let h = z - r;
    assert(h * y == (x - u) - r * (y - v)) by (nonlinear_arith)
        requires r * v == u, z * y == x, h == z - r;
    let s = size(r);
    assert(size(u) == s * v) by (nonlinear_arith)
        requires u == r * v, v > 0real, s == size(r);
    lemma_size_mul(r, y - v, s, v * l);
    assert(size(h) * y == size(h * y)) by (nonlinear_arith)
        requires y > 0real;
    let c = t / q;
    assert(t <= c * v && c >= 0real) by (nonlinear_arith)
        requires c == t / q, 0real < q <= v, t >= 0real;
    let m = s * k + c + s * l;
    assert(size(u) * k + t + s * (v * l) <= m * v) by (nonlinear_arith)
        requires size(u) == s * v, t <= c * v, m == s * k + c + s * l;
    assert(s * k >= 0real && s * l >= 0real && s * k <= s / 1000real && s * l <= s / 1000real) by (nonlinear_arith)
        requires s >= 0real, 0real <= k <= 1real / 1000real, 0real <= l <= 1real / 1000real;
    let n = m * (1001real / 998real);
    assert(size(h) <= n) by (nonlinear_arith)
        requires size(h) * y <= m * v, y >= v * (999real / 1000real), v > 0real, m >= 0real, n == m * (1001real / 998real);
    assert(size(z) <= s + n);
    lemma_value_div(a, b);
    assert(s * (2real * k + 2real * l + 1real / 8000000real) == 2real * (s * k) + 2real * (s * l) + s / 8000000real)
        by (nonlinear_arith);
}

/// Where a value is cut into whole numbers.
pub proof fn lemma_value_index(x: F32)
    requires
        x.finite(),
        x.value() >= 0real,
        x.value() < 1000000000real,
    ensures
        x.index() as real <= x.value(),
        x.value() < x.index() as real + 1real,
        x.index() >= 0,
{
    reveal(F32::value);
    reveal(F32::index);
    lemma_units();
    lemma_one();
    lemma_constants();
    lemma_value_order(F32::nought(), x);
    lemma_mag_units_order(0, x.mag());
    let n = x.units();
    let w = one_units();
    lemma_fundamental_div_mod(n, w);
    let q = n / w;
    lemma_real_product(w, q);
    let a = n as real;
    let b = w as real;
    let c = q as real;
    assert(c <= a / b && a / b < c + 1real) by (nonlinear_arith)
        requires b * c <= a, a < b * c + b, b > 0real;
}

/// The square of a root is the number, but for rounding.
pub proof fn lemma_value_root(x: F32)
    requires
        x.finite(),
        1real / 1000000000000real <= x.value() <= 1000000000000real,
    ensures
        x.root().finite(),
        x.root().value() > 0real,
        apart(x.root().value() * x.root().value(), x.value()) <= x.value() / 4000000real,
{
    reveal(F32::value);
    reveal(F32::root);
    lemma_units();
    lemma_one();
    lemma_constants();
    lemma_value_order(F32::nought(), x);
    lemma_mag_units_order(0, x.mag());
    let w = one_units();
    let u = x.units();
    let n = u * w;
    let z = w as real;
    let y = u as real / z;
    lemma_real_product(u, w);
    assert(u as real == y * z) by (nonlinear_arith)
        requires y == u as real / z, z > 0real;
    assert(n as real == y * (z * z)) by (nonlinear_arith)
        requires n as real == (y * z) * z;
    assert(z * z > 0real && n as real <= 1000000000000real * (z * z) && z * z <= 1000000000000real * n as real)
        by (nonlinear_arith)
        requires
            n as real == y * (z * z),
            z > 0real,
            1real / 1000000000000real <= y <= 1000000000000real,
    ;
    let h = 1000001 * w;
    lemma_real_product(h, h);
    assert(h as real == 1000001real * z);
    assert(h as real * h as real > 1000000000000real * (z * z)) by (nonlinear_arith)
        requires h as real == 1000001real * z, z > 0real;
    assert(n < h * h);
    lemma_root_between(0, h, n);
    let r = floor_root(n);
    lemma_real_product(r, r);
    lemma_real_product(r + 1, r + 1);
    let a = r as real;
    assert(1000000real * (a + 1real) >= z) by (nonlinear_arith)
        requires
            z * z <= 1000000000000real * n as real,
            n as real <= (a + 1real) * (a + 1real),
            a >= 0real,
            z > 0real,
    ;
    assert(a >= 100000000000000000000real);
    let m = if r * r == n {
        2 * r
    } else {
        2 * r + 1
    };
    assert(m as real <= 2real * a + 1real);
    lemma_power(213);
    assert(2000003real * z <= huge() * z) by (nonlinear_arith)
        requires z > 0real;
    assert(r < h);
    assert(m <= pow2(213) * 2);
    lemma_rounded_relative(m, 2, false);
    lemma_nearest_positive(m, 2);
    assert(x.root() == F32::rounded(m, 2, false));
    let s = x.root().units();
    let t = s as real;
    assert(apart(t, a) <= a / 16000000real);
    let v = t / z;
    assert(v * z == t) by (nonlinear_arith)
        requires v == t / z, z > 0real;
    assert(v > 0real) by (nonlinear_arith)
        requires v * z == t, t > 0real, z > 0real;
    lemma_square_near(t, a, n as real);
    assert((v * v) * (z * z) == t * t) by (nonlinear_arith)
        requires v * z == t;
    let e = v * v - y;
    assert(e * (z * z) == t * t - n as real) by (nonlinear_arith)
        requires (v * v) * (z * z) == t * t, n as real == y * (z * z), e == v * v - y;
    let k = z * z;
    assert(size(e) * k == size(e * k)) by (nonlinear_arith)
        requires k > 0real;
    assert(size(e) <= y / 4000000real) by (nonlinear_arith)
        requires size(e) * k <= (y * k) / 4000000real, k > 0real;
}

/// The square of what is near to a whole root.
proof fn lemma_square_near(t: real, a: real, n: real)
    requires
        apart(t, a) <= a / 16000000real,
        a >= 100000000000000000000real,
        a * a <= n < (a + 1real) * (a + 1real),
    ensures
        apart(t * t, n) <= n / 4000000real,
{
    let d = t - a;
    assert(t * t == a * a + 2real * (a * d) + d * d) by (nonlinear_arith)
        requires d == t - a;
    lemma_size_mul(a, d, a, a / 16000000real);
    lemma_size_mul(d, d, a / 16000000real, a / 16000000real);
    let q = a * a;
    assert(a * (a / 16000000real) == q / 16000000real && (a / 16000000real) * (a / 16000000real) == q
        / 256000000000000real && (a + 1real) * (a + 1real) == q + 2real * a + 1real && q >= 100000000000000000000real * a)
        by (nonlinear_arith)
        requires q == a * a, a >= 100000000000000000000real;
}

} // verus!
