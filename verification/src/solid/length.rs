//! The vertices of the solid lie on the sphere.

use super::mesh::{halfway, millionth, on_sphere, Point3};
use crate::float::error::{
    lemma_add_error, lemma_div_error, lemma_mul_error, lemma_product_bound, lemma_root_error, lemma_slack,
    lemma_times_bound, slack,
};
use crate::float::laws::{lemma_half, lemma_one, lemma_quotient_between, one_units};
use crate::float::mirror::lemma_add_commutes;
use crate::float::round::distance;
use crate::float::F32;
use vstd::prelude::*;

verus! {

/// The product of two points as vectors, exactly, in units of units.
pub open spec fn dot(a: Point3, b: Point3) -> int {
    a.x.units() * b.x.units() + a.y.units() * b.y.units() + a.z.units() * b.z.units()
}

/// A point with coordinates that are finite.
pub open spec fn finite_point(p: Point3) -> bool {
    p.x.finite() && p.y.finite() && p.z.finite()
}

/// A point at distance one from the origin, but for rounding: the square of its distance
/// is one, up to a part in 131072.
pub open spec fn has_unit_length(p: Point3) -> bool {
    &&& finite_point(p)
    &&& distance(dot(p, p), one_units() * one_units()) <= 64 * (slack() * one_units())
}

/// A number whose square is smaller is smaller.
proof fn lemma_root_bound(x: int, bound: int)
    requires
        x * x <= bound * bound,
        bound >= 0,
    ensures
        distance(x, 0) <= bound,
{
    assert(-bound <= x <= bound) by (nonlinear_arith)
        requires x * x <= bound * bound, bound >= 0;
}

/// The length that a point is divided by, in units.
spec fn length(p: Point3) -> F32 {
    (p.x * p.x + p.y * p.y + p.z * p.z).root().larger(millionth())
}

/// Whether a point is far enough from the origin, and not too far, to be moved to the
/// sphere.
spec fn movable(p: Point3) -> bool {
    &&& finite_point(p)
    &&& 2 * dot(p, p) >= one_units() * one_units()
    &&& 10 * dot(p, p) <= 39 * (one_units() * one_units())
}

/// The coordinates of a point that can be moved are below two.
proof fn lemma_coordinates(p: Point3)
    requires
        movable(p),
    ensures
        distance(p.x.units(), 0) <= 2 * one_units(),
        distance(p.y.units(), 0) <= 2 * one_units(),
        distance(p.z.units(), 0) <= 2 * one_units(),
        0 <= p.x.units() * p.x.units() <= dot(p, p),
        0 <= p.y.units() * p.y.units() <= dot(p, p),
        0 <= p.z.units() * p.z.units() <= dot(p, p),
        p.x.units() * p.x.units() + p.y.units() * p.y.units() <= dot(p, p),
{
    lemma_one();
    let w = one_units();
    let x = p.x.units();
    let y = p.y.units();
    let z = p.z.units();
    assert(x * x >= 0 && y * y >= 0 && z * z >= 0) by (nonlinear_arith);
    assert((2 * w) * (2 * w) == 4 * (w * w) && w * w > 0) by (nonlinear_arith)
        requires w > 0;
    lemma_root_bound(x, 2 * w);
    lemma_root_bound(y, 2 * w);
    lemma_root_bound(z, 2 * w);
}

/// The rounded square is near to the square.
proof fn lemma_square_error(x: F32)
    requires
        x.finite(),
        x.units() * x.units() < 4 * (one_units() * one_units()),
    ensures
        (x * x).finite(),
        distance((x * x).units() * one_units(), x.units() * x.units()) <= slack() * one_units(),
{
    let w = one_units();
    assert(4 * w * w == 4 * (w * w)) by (nonlinear_arith);
    assert(x.units() * x.units() >= 0) by (nonlinear_arith);
    lemma_mul_error(x, x);
}

/// The length of a point is near to what it ought to be.
proof fn lemma_length(p: Point3)
    requires
        movable(p),
    ensures
        length(p).finite(),
        distance(length(p).units() * length(p).units(), dot(p, p)) <= 15 * (slack() * one_units()),
        10 * length(p).units() >= 7 * one_units(),
        length(p).units() <= 2 * one_units(),
{
    lemma_one();
    lemma_slack();
    lemma_coordinates(p);
    let w = one_units();
    let k = slack();
    let t = dot(p, p);
    assert(w * w == 0x80_0000 * (k * w) && k * w > 0) by (nonlinear_arith)
        requires w == 0x80_0000 * k, k > 0;
    lemma_square_error(p.x);
    lemma_square_error(p.y);
    lemma_square_error(p.z);
    let a = (p.x * p.x).units();
    let b = (p.y * p.y).units();
    let c = (p.z * p.z).units();
    assert(4 * w * w == 4 * (w * w)) by (nonlinear_arith);
    assert(-4 * w < a + b < 4 * w) by (nonlinear_arith)
        requires -(4 * (w * w)) < (a * w) + (b * w) < 4 * (w * w), w > 0;
    lemma_add_error(p.x * p.x, p.y * p.y);
    let d = (p.x * p.x + p.y * p.y).units();
    assert(d * w - (a * w + b * w) == (d - a - b) * w) by (nonlinear_arith);
    lemma_product_bound(d - a - b, w, k, w);
    assert(-4 * w < d + c < 4 * w) by (nonlinear_arith)
        requires -(4 * (w * w)) < (d * w) + (c * w) < 4 * (w * w), w > 0;
    lemma_add_error(p.x * p.x + p.y * p.y, p.z * p.z);
    let q = p.x * p.x + p.y * p.y + p.z * p.z;
    let e = q.units();
    assert(e * w - (d * w + c * w) == (e - d - c) * w) by (nonlinear_arith);
    lemma_product_bound(e - d - c, w, k, w);
    assert(distance(e * w, t) <= 5 * (k * w));
    assert(0 < e < 16 * w) by (nonlinear_arith)
        requires 0 < e * w < 16 * (w * w), w > 0;
    lemma_root_error(q);
    let s = q.root().units();
    assert(10 * s >= 7 * w) by (nonlinear_arith)
        requires 100 * (s * s) >= 49 * (w * w), s >= 0, w > 0;
    assert(s <= 2 * w) by (nonlinear_arith)
        requires s * s <= 4 * (w * w), s >= 0, w > 0;
    assert(0 * 1_000_000 <= 1 * w <= F32::half_unit().units() * 1_000_000) by {
        lemma_half();
    }
    lemma_half();
    lemma_quotient_between(1, 1_000_000, F32::nought(), F32::half_unit());
    assert(length(p) == q.root());
}

/// A coordinate of a point that was moved: the coordinate divided by the length, but for
/// rounding.
spec fn divided_by(v: int, x: int, s: int) -> bool {
    distance(v * s, x * one_units()) <= slack() * s
}

/// Whether `v` is the point `p` divided by `s`, but for rounding.
spec fn moved(v: Point3, p: Point3, s: int) -> bool {
    &&& finite_point(v)
    &&& divided_by(v.x.units(), p.x.units(), s)
    &&& divided_by(v.y.units(), p.y.units(), s)
    &&& divided_by(v.z.units(), p.z.units(), s)
}

/// A coordinate divided by the length.
proof fn lemma_divided(x: F32, len: F32)
    requires
        x.finite(),
        len.finite(),
        distance(x.units(), 0) <= 2 * one_units(),
        10 * len.units() >= 7 * one_units(),
    ensures
        (x / len).finite(),
        divided_by((x / len).units(), x.units(), len.units()),
{
    lemma_one();
    let w = one_units();
    let s = len.units();
    let u = x.units();
    assert(-(4 * w * s) < u * w < 4 * w * s) by (nonlinear_arith)
        requires -2 * w <= u <= 2 * w, 10 * s >= 7 * w, w > 0;
    lemma_div_error(x, len);
}

/// A point that can be moved is moved.
proof fn lemma_moved(p: Point3)
    requires
        movable(p),
    ensures
        moved(on_sphere(p), p, length(p).units()),
{
    lemma_coordinates(p);
    lemma_length(p);
    lemma_divided(p.x, length(p));
    lemma_divided(p.y, length(p));
    lemma_divided(p.z, length(p));
}

/// The square of a coordinate that was divided by the length.
proof fn lemma_divided_square(v: int, x: int, s: int)
    requires
        divided_by(v, x, s),
        distance(x, 0) <= 2 * one_units(),
        s > 0,
    ensures
        distance((v * v) * (s * s), (x * x) * (one_units() * one_units())) <= 4 * (one_units() * one_units() * slack() * s)
            + slack() * slack() * s * s,
{
    lemma_divided_product(v, x, s, v, x, s);
    let w = one_units();
    let k = slack();
    assert((v * v) * (s * s) == (v * s) * (v * s)) by (nonlinear_arith);
    assert(k * s * (k * s) == k * k * s * s) by (nonlinear_arith);
}

/// The product of two multiples that are off.
proof fn lemma_expanded(x: int, y: int, w: int, e: int, f: int)
    ensures
        (x * w + e) * (y * w + f) == (x * y) * (w * w) + w * (x * f) + w * (y * e) + e * f,
{
    let a = x * w;
    let b = y * w;
    assert((a + e) * (b + f) == a * b + a * f + b * e + e * f) by (nonlinear_arith);
    assert((x * w) * (y * w) == (x * y) * (w * w)) by (nonlinear_arith);
    assert((x * w) * f == w * (x * f)) by (nonlinear_arith);
    assert((y * w) * e == w * (y * e)) by (nonlinear_arith);
}

/// The product of coordinates that were divided by lengths.
proof fn lemma_divided_product(v: int, x: int, s: int, u: int, y: int, t: int)
    requires
        divided_by(v, x, s),
        divided_by(u, y, t),
        distance(x, 0) <= 2 * one_units(),
        distance(y, 0) <= 2 * one_units(),
        s > 0,
        t > 0,
    ensures
        distance((v * s) * (u * t), (x * y) * (one_units() * one_units())) <= 2 * (one_units() * one_units() * slack()
            * s) + 2 * (one_units() * one_units() * slack() * t) + slack() * s * (slack() * t),
{
    lemma_one();
    let w = one_units();
    let k = slack();
    let e = v * s - x * w;
    let f = u * t - y * w;
    lemma_expanded(x, y, w, e, f);
    assert(v * s == x * w + e && u * t == y * w + f);
    lemma_product_bound(x, f, 2 * w, k * t);
    lemma_product_bound(y, e, 2 * w, k * s);
    lemma_product_bound(e, f, k * s, k * t);
    lemma_product_bound(w, x * f, w, (2 * w) * (k * t));
    lemma_product_bound(w, y * e, w, (2 * w) * (k * s));
    assert(w * ((2 * w) * (k * t)) == 2 * (w * w * k * t) && w * ((2 * w) * (k * s)) == 2 * (w * w * k * s))
        by (nonlinear_arith);
}

/// What was moved to the sphere lies on it.
proof fn lemma_on_sphere(p: Point3)
    requires
        movable(p),
    ensures
        has_unit_length(on_sphere(p)),
{
    lemma_one();
    lemma_slack();
    lemma_coordinates(p);
    lemma_length(p);
    lemma_moved(p);
    let w = one_units();
    let k = slack();
    let s = length(p).units();
    let v = on_sphere(p);
    lemma_divided_square(v.x.units(), p.x.units(), s);
    lemma_divided_square(v.y.units(), p.y.units(), s);
    lemma_divided_square(v.z.units(), p.z.units(), s);
    let c = dot(v, v);
    let m = dot(p, p);
    let (a, b, d) = (v.x.units(), v.y.units(), v.z.units());
    let (x, y, z) = (p.x.units(), p.y.units(), p.z.units());
    assert(c * (s * s) == (a * a) * (s * s) + (b * b) * (s * s) + (d * d) * (s * s)) by (nonlinear_arith)
        requires c == a * a + b * b + d * d;
    assert(m * (w * w) == (x * x) * (w * w) + (y * y) * (w * w) + (z * z) * (w * w)) by (nonlinear_arith)
        requires m == x * x + y * y + z * z;
    let g = s * s - m;
    assert((s * s) * (w * w) == m * (w * w) + g * (w * w)) by (nonlinear_arith)
        requires g == s * s - m;
    assert(w * w > 0) by (nonlinear_arith)
        requires w > 0;
    lemma_product_bound(g, w * w, 15 * (k * w), w * w);
    let h = c - w * w;
    assert(h * (s * s) == c * (s * s) - (s * s) * (w * w)) by (nonlinear_arith)
        requires h == c - w * w;
    let unit = (k * w) * (s * s);
    assert(7 * (w * w * k * s) <= 10 * unit) by (nonlinear_arith)
        requires unit == (k * w) * (s * s), 7 * w <= 10 * s, k > 0, w > 0, s > 0;
    assert(k * w > 0) by (nonlinear_arith)
        requires k > 0, w > 0;
    assert(49 * (w * w) <= 100 * (s * s)) by (nonlinear_arith)
        requires 7 * w <= 10 * s, w > 0;
    assert((k * w) * (49 * (w * w)) <= (k * w) * (100 * (s * s))) by (nonlinear_arith)
        requires 49 * (w * w) <= 100 * (s * s), k * w > 0;
    assert((k * w) * (49 * (w * w)) == 49 * ((k * w) * (w * w)) && (k * w) * (100 * (s * s)) == 100 * unit
        && (15 * (k * w)) * (w * w) == 15 * ((k * w) * (w * w))) by (nonlinear_arith)
        requires unit == (k * w) * (s * s);
    assert(k * k * s * s <= unit) by (nonlinear_arith)
        requires unit == (k * w) * (s * s), k > 0, w >= k, s > 0;
    assert((64 * (k * w)) * (s * s) == 64 * unit) by (nonlinear_arith)
        requires unit == (k * w) * (s * s);
    assert(s * s > 0) by (nonlinear_arith)
        requires s > 0;
    lemma_times_bound(h, 64 * (k * w), s * s);
}

/// Points that are near enough to each other that there is a middle between them: the
/// product is at least an eighth.
pub open spec fn near(a: Point3, b: Point3) -> bool {
    8 * dot(a, b) >= one_units() * one_units()
}

/// Points below two whose directions are near stay near when they are moved.
proof fn lemma_moved_near(v: Point3, p: Point3, s: int, u: Point3, q: Point3, t: int)
    requires
        moved(v, p, s),
        moved(u, q, t),
        distance(p.x.units(), 0) <= 2 * one_units(),
        distance(p.y.units(), 0) <= 2 * one_units(),
        distance(p.z.units(), 0) <= 2 * one_units(),
        distance(q.x.units(), 0) <= 2 * one_units(),
        distance(q.y.units(), 0) <= 2 * one_units(),
        distance(q.z.units(), 0) <= 2 * one_units(),
        10 * s >= 7 * one_units(),
        10 * t >= 7 * one_units(),
        4 * dot(p, q) >= s * t,
    ensures
        near(v, u),
{
    lemma_one();
    lemma_slack();
    let w = one_units();
    let k = slack();
    lemma_divided_product(v.x.units(), p.x.units(), s, u.x.units(), q.x.units(), t);
    lemma_divided_product(v.y.units(), p.y.units(), s, u.y.units(), q.y.units(), t);
    lemma_divided_product(v.z.units(), p.z.units(), s, u.z.units(), q.z.units(), t);
    let c = dot(v, u);
    let d = dot(p, q);
    let r = s * t;
    lemma_regrouped(v.x.units(), s, u.x.units(), t);
    lemma_regrouped(v.y.units(), s, u.y.units(), t);
    lemma_regrouped(v.z.units(), s, u.z.units(), t);
    let (a, b, e) = (v.x.units() * u.x.units(), v.y.units() * u.y.units(), v.z.units() * u.z.units());
    let (x, y, z) = (p.x.units() * q.x.units(), p.y.units() * q.y.units(), p.z.units() * q.z.units());
    assert(c * r == a * r + b * r + e * r) by (nonlinear_arith)
        requires c == a + b + e;
    assert(d * (w * w) == x * (w * w) + y * (w * w) + z * (w * w)) by (nonlinear_arith)
        requires d == x + y + z;
    let g = w * w * r;
    lemma_small_beside(s, t, k, w);
    assert(4 * (d * (w * w)) >= g) by (nonlinear_arith)
        requires 4 * d >= r, g == w * w * r;
    assert((8 * c) * r == 8 * (c * r)) by (nonlinear_arith);
    assert((8 * c) * r >= (w * w) * r);
    assert(8 * c >= w * w) by (nonlinear_arith)
        requires (8 * c) * r >= (w * w) * r, r > 0;
}

/// Factors in another order.
proof fn lemma_regrouped(a: int, s: int, b: int, t: int)
    ensures
        (a * s) * (b * t) == (a * b) * (s * t),
{
    assert((a * s) * (b * t) == (a * b) * (s * t)) by (nonlinear_arith);
}

/// Errors are small beside what they are errors of.
proof fn lemma_small_beside(s: int, t: int, k: int, w: int)
    requires
        k > 0,
        w == 0x80_0000 * k,
        10 * s >= 7 * w,
        10 * t >= 7 * w,
    ensures
        s * t > 0,
        1000 * (w * w * k * s) <= w * w * (s * t),
        1000 * (w * w * k * t) <= w * w * (s * t),
        1000 * (k * s * (k * t)) <= w * w * (s * t),
{
    let r = s * t;
    let x = k * s;
    let y = k * t;
    assert(r > 0 && 1000 * x <= r && 1000 * y <= r && x > 0 && y > 0) by (nonlinear_arith)
        requires r == s * t, x == k * s, y == k * t, 1000 * k <= t, 1000 * k <= s, k > 0;
    let v = w * w;
    assert(v > 0) by (nonlinear_arith)
        requires v == w * w, w > 0;
    assert(1000 * (v * x) <= v * r && 1000 * (v * y) <= v * r) by (nonlinear_arith)
        requires 1000 * x <= r, 1000 * y <= r, v > 0;
    assert(v * x == v * k * s && v * y == v * k * t) by (nonlinear_arith)
        requires x == k * s, y == k * t;
    assert(x * y == (k * k) * r) by (nonlinear_arith)
        requires x == k * s, y == k * t, r == s * t;
    assert(1000 * (k * k) <= v) by (nonlinear_arith)
        requires v == w * w, w == 0x80_0000 * k, k > 0;
    assert(1000 * ((k * k) * r) <= v * r) by (nonlinear_arith)
        requires 1000 * (k * k) <= v, r > 0;
}

/// Points whose squares are below 3.66 and whose product is no less than 1.5 are moved to
/// near points of the sphere.
pub proof fn lemma_moved_to_sphere(p: Point3, q: Point3)
    requires
        finite_point(p),
        finite_point(q),
        2 * dot(p, p) >= one_units() * one_units(),
        2 * dot(q, q) >= one_units() * one_units(),
        100 * dot(p, p) <= 366 * (one_units() * one_units()),
        100 * dot(q, q) <= 366 * (one_units() * one_units()),
    ensures
        has_unit_length(on_sphere(p)),
        2 * dot(p, q) >= 3 * (one_units() * one_units()) ==> near(on_sphere(p), on_sphere(q)),
{
    lemma_one();
    lemma_slack();
    let w = one_units();
    let k = slack();
    assert(w * w == 0x80_0000 * (k * w) && k * w > 0) by (nonlinear_arith)
        requires w == 0x80_0000 * k, k > 0;
    lemma_on_sphere(p);
    lemma_coordinates(p);
    lemma_coordinates(q);
    lemma_length(p);
    lemma_length(q);
    lemma_moved(p);
    lemma_moved(q);
    let s = length(p).units();
    let t = length(q).units();
    lemma_mean_of_squares(s, t);
    if 2 * dot(p, q) >= 3 * (w * w) {
        lemma_moved_near(on_sphere(p), p, s, on_sphere(q), q, t);
    }
}

/// The point between two points, before it is moved to the sphere.
spec fn mean(a: Point3, b: Point3) -> Point3 {
    Point3 {
        x: (a.x + b.x) * F32::half_unit(),
        y: (a.y + b.y) * F32::half_unit(),
        z: (a.z + b.z) * F32::half_unit(),
    }
}

/// The mean of two numbers below one and a half.
proof fn lemma_mean_error(a: F32, b: F32)
    requires
        a.finite(),
        b.finite(),
        2 * distance(a.units(), 0) <= 3 * one_units(),
        2 * distance(b.units(), 0) <= 3 * one_units(),
    ensures
        ((a + b) * F32::half_unit()).finite(),
        distance(2 * ((a + b) * F32::half_unit()).units(), a.units() + b.units()) <= 3 * slack(),
{
    lemma_one();
    lemma_slack();
    lemma_half();
    let w = one_units();
    let k = slack();
    lemma_add_error(a, b);
    let s = (a + b).units();
    let h = F32::half_unit().units();
    assert(-(4 * w * w) < s * h < 4 * w * w) by (nonlinear_arith)
        requires -(4 * w) < s < 4 * w, 2 * h == w, w > 0;
    lemma_mul_error(a + b, F32::half_unit());
    let m = ((a + b) * F32::half_unit()).units();
    let x = 2 * m - s;
    assert(x * w == 2 * (m * w) - 2 * (s * h)) by (nonlinear_arith)
        requires x == 2 * m - s, 2 * h == w;
    assert((2 * k) * w == 2 * (k * w)) by (nonlinear_arith);
    lemma_times_bound(x, 2 * k, w);
}

/// The coordinates of a point on the sphere are no more than one, but for rounding.
proof fn lemma_unit_coordinates(p: Point3)
    requires
        has_unit_length(p),
    ensures
        2 * distance(p.x.units(), 0) <= 3 * one_units(),
        2 * distance(p.y.units(), 0) <= 3 * one_units(),
        2 * distance(p.z.units(), 0) <= 3 * one_units(),
        one_units() * one_units() == 0x80_0000 * (slack() * one_units()),
        slack() * one_units() > 0,
{
    lemma_one();
    lemma_slack();
    let w = one_units();
    let k = slack();
    let x = p.x.units();
    let y = p.y.units();
    let z = p.z.units();
    assert(x * x >= 0 && y * y >= 0 && z * z >= 0) by (nonlinear_arith);
    assert(w * w == 0x80_0000 * (k * w) && k * w > 0) by (nonlinear_arith)
        requires w == 0x80_0000 * k, k > 0;
    assert((2 * x) * (2 * x) == 4 * (x * x) && (2 * y) * (2 * y) == 4 * (y * y) && (2 * z) * (2 * z) == 4 * (z * z)
        && (3 * w) * (3 * w) == 9 * (w * w)) by (nonlinear_arith);
    lemma_root_bound(2 * x, 3 * w);
    lemma_root_bound(2 * y, 3 * w);
    lemma_root_bound(2 * z, 3 * w);
}

/// Twice the product with a mean is the sum of the products, but for rounding.
proof fn lemma_mean_dot(a: Point3, b: Point3, c: Point3)
    requires
        has_unit_length(a),
        has_unit_length(b),
        distance(c.x.units(), 0) <= 2 * one_units(),
        distance(c.y.units(), 0) <= 2 * one_units(),
        distance(c.z.units(), 0) <= 2 * one_units(),
    ensures
        finite_point(mean(a, b)),
        distance(2 * dot(mean(a, b), c), dot(a, c) + dot(b, c)) <= 18 * (slack() * one_units()),
        distance(mean(a, b).x.units(), 0) <= 2 * one_units(),
        distance(mean(a, b).y.units(), 0) <= 2 * one_units(),
        distance(mean(a, b).z.units(), 0) <= 2 * one_units(),
{
    lemma_one();
    lemma_slack();
    lemma_unit_coordinates(a);
    lemma_unit_coordinates(b);
    let w = one_units();
    let k = slack();
    lemma_mean_error(a.x, b.x);
    lemma_mean_error(a.y, b.y);
    lemma_mean_error(a.z, b.z);
    let m = mean(a, b);
    lemma_mean_product(m.x.units(), a.x.units(), b.x.units(), c.x.units());
    lemma_mean_product(m.y.units(), a.y.units(), b.y.units(), c.y.units());
    lemma_mean_product(m.z.units(), a.z.units(), b.z.units(), c.z.units());
}

/// One coordinate of a product with a mean.
proof fn lemma_mean_product(m: int, a: int, b: int, c: int)
    requires
        distance(2 * m, a + b) <= 3 * slack(),
        distance(c, 0) <= 2 * one_units(),
    ensures
        distance(2 * (m * c), a * c + b * c) <= 6 * (slack() * one_units()),
{
    let w = one_units();
    let k = slack();
    let e = 2 * m - a - b;
    lemma_product_bound(e, c, 3 * k, 2 * w);
    assert(2 * (m * c) == a * c + b * c + e * c) by (nonlinear_arith)
        requires e == 2 * m - a - b;
    assert((3 * k) * (2 * w) == 6 * (k * w)) by (nonlinear_arith);
}

/// The product does not depend on the order.
pub proof fn lemma_dot_commutes(a: Point3, b: Point3)
    ensures
        dot(a, b) == dot(b, a),
{
    let (x, y, z) = (a.x.units(), a.y.units(), a.z.units());
    let (u, v, t) = (b.x.units(), b.y.units(), b.z.units());
    assert(x * u == u * x && y * v == v * y && z * t == t * z) by (nonlinear_arith);
}

/// A product is no more than the mean of the squares.
proof fn lemma_mean_of_squares(a: int, b: int)
    ensures
        2 * (a * b) <= a * a + b * b,
{
    let d = a - b;
    assert(d * d >= 0) by (nonlinear_arith);
    assert(d * d == a * a + b * b - 2 * (a * b)) by (nonlinear_arith)
        requires d == a - b;
}

/// The product of two points is no more than the mean of their squares.
proof fn lemma_dot_below(a: Point3, b: Point3)
    ensures
        2 * dot(a, b) <= dot(a, a) + dot(b, b),
{
    let (x, y, z) = (a.x.units(), a.y.units(), a.z.units());
    let (u, v, t) = (b.x.units(), b.y.units(), b.z.units());
    lemma_mean_of_squares(x, u);
    lemma_mean_of_squares(y, v);
    lemma_mean_of_squares(z, t);
}

/// The mean of two points of the sphere that are near can be moved to the sphere, by
/// a length of no more than one, but for rounding.
proof fn lemma_mean_movable(a: Point3, b: Point3)
    requires
        has_unit_length(a),
        has_unit_length(b),
        near(a, b),
    ensures
        movable(mean(a, b)),
        100 * length(mean(a, b)).units() <= 101 * one_units(),
        10 * length(mean(a, b)).units() >= 7 * one_units(),
        moved(halfway(a, b), mean(a, b), length(mean(a, b)).units()),
        has_unit_length(halfway(a, b)),
{
    lemma_one();
    lemma_slack();
    let w = one_units();
    let k = slack();
    let m = mean(a, b);
    lemma_unit_coordinates(a);
    lemma_unit_coordinates(b);
    lemma_mean_dot(a, b, a);
    lemma_mean_dot(a, b, b);
    lemma_mean_dot(a, b, m);
    lemma_dot_commutes(a, m);
    lemma_dot_commutes(b, m);
    lemma_dot_commutes(a, b);
    lemma_dot_below(a, b);
    assert(movable(m));
    lemma_length(m);
    let s = length(m).units();
    assert(100 * s <= 101 * w) by (nonlinear_arith)
        requires 10000 * (s * s) <= 10201 * (w * w), w > 0;
    lemma_moved(m);
    lemma_on_sphere(m);
}

/// A point of the sphere stays where it is when it is divided by one.
proof fn lemma_stays(a: Point3)
    requires
        finite_point(a),
    ensures
        moved(a, a, one_units()),
{
    lemma_one();
    lemma_slack();
    assert(slack() * one_units() >= 0) by (nonlinear_arith)
        requires slack() > 0, one_units() > 0;
}

/// A point is near to the middle between itself and a near one.
pub proof fn lemma_near_middle(a: Point3, b: Point3)
    requires
        has_unit_length(a),
        has_unit_length(b),
        near(a, b),
    ensures
        has_unit_length(halfway(a, b)),
        near(a, halfway(a, b)),
        near(b, halfway(a, b)),
        halfway(a, b) == halfway(b, a),
{
    lemma_one();
    lemma_slack();
    let w = one_units();
    let m = mean(a, b);
    let s = length(m).units();
    lemma_mean_movable(a, b);
    lemma_unit_coordinates(a);
    lemma_unit_coordinates(b);
    lemma_mean_dot(a, b, a);
    lemma_mean_dot(a, b, b);
    lemma_dot_commutes(a, m);
    lemma_dot_commutes(b, m);
    lemma_dot_commutes(a, b);
    assert(100 * (w * s) <= 101 * (w * w)) by (nonlinear_arith)
        requires 100 * s <= 101 * w, w > 0;
    lemma_stays(a);
    lemma_stays(b);
    lemma_moved_near(a, a, w, halfway(a, b), m, s);
    lemma_moved_near(b, b, w, halfway(a, b), m, s);
    lemma_add_commutes(a.x, b.x);
    lemma_add_commutes(a.y, b.y);
    lemma_add_commutes(a.z, b.z);
}

/// The middles of two sides of a triangle of near points are near.
pub proof fn lemma_near_middles(a: Point3, b: Point3, c: Point3)
    requires
        has_unit_length(a),
        has_unit_length(b),
        has_unit_length(c),
        near(a, b),
        near(b, c),
        near(a, c),
    ensures
        near(halfway(a, b), halfway(b, c)),
{
    lemma_one();
    lemma_slack();
    let w = one_units();
    let m = mean(a, b);
    let n = mean(b, c);
    let s = length(m).units();
    let t = length(n).units();
    lemma_mean_movable(a, b);
    lemma_mean_movable(b, c);
    lemma_unit_coordinates(a);
    lemma_unit_coordinates(b);
    lemma_unit_coordinates(c);
    lemma_mean_dot(b, c, a);
    lemma_mean_dot(b, c, b);
    lemma_mean_dot(a, b, n);
    lemma_dot_commutes(a, n);
    lemma_dot_commutes(b, n);
    lemma_dot_commutes(a, b);
    lemma_dot_commutes(a, c);
    lemma_dot_commutes(b, c);
    assert(10000 * (s * t) <= 10201 * (w * w)) by (nonlinear_arith)
        requires 100 * s <= 101 * w, 100 * t <= 101 * w, s > 0, t > 0, w > 0;
    lemma_moved_near(halfway(a, b), m, s, halfway(b, c), n, t);
}

} // verus!
