//! Lines: the curve through the points, and ribbons along it.

use crate::bands::NUM_BANDS;
use crate::config::Rgb;
use crate::dsp::is_part;
use crate::exact::paint::law_bands_are_evenly_placed;
use crate::exact::shapes::law_top_is_the_level;
use crate::float::laws::{lemma_div_between, lemma_one, lemma_whole, one_units};
use crate::float::value::{
    apart, clip, close, dust, lemma_apart_mul, lemma_close_add, lemma_close_mul, lemma_close_sub, lemma_constants,
    lemma_size_mul, lemma_value_add, lemma_value_div, lemma_value_le, lemma_value_mul, lemma_value_neg,
    lemma_value_part, lemma_value_quotient, lemma_value_root, lemma_value_sub, lemma_value_whole, size,
};
use crate::float::F32;
use crate::render::curve::{cubic, curve, knot, on_segment, segments, spectrum_points, Point};
use crate::render::paint::ramp;
use crate::render::ribbon::{across, before, ribbon};
use vstd::arithmetic::div_mod::{lemma_fundamental_div_mod, lemma_mod_bound};
use vstd::prelude::*;

verus! {

/// The Catmull-Rom polynomial between `b` and `c`, with `a` before and `d` after them.
pub open spec fn catmull(a: real, b: real, c: real, d: real, t: real) -> real {
    (2real * b + (c - a) * t + (2real * a - 5real * b + 4real * c - d) * (t * t) + (3real * b - a - 3real * c + d) * (t
        * t * t)) / 2real
}

/// A finite number of at most four.
pub open spec fn is_moderate(x: F32) -> bool {
    x.finite() && size(x.value()) <= 4real
}

/// The second coefficient of the polynomial.
proof fn lemma_second(a: F32, b: F32, c: F32, d: F32)
    requires
        is_moderate(a),
        is_moderate(b),
        is_moderate(c),
        is_moderate(d),
    ensures
        close(
            F32::whole(2) * a - F32::whole(5) * b + F32::whole(4) * c - d,
            2real * a.value() - 5real * b.value() + 4real * c.value() - d.value(),
            1real / 50000real,
        ),
{
    lemma_value_whole(2);
    lemma_value_whole(5);
    lemma_value_whole(4);
    let (p, q, r, s) = (a.value(), b.value(), c.value(), d.value());
    lemma_close_mul(F32::whole(2), a, 2real, p, 0real, 0real, 2real, 4real);
    lemma_close_mul(F32::whole(5), b, 5real, q, 0real, 0real, 5real, 4real);
    lemma_close_mul(F32::whole(4), c, 4real, r, 0real, 0real, 4real, 4real);
    let e = 2real / 1000000real;
    lemma_close_sub(F32::whole(2) * a, F32::whole(5) * b, 2real * p, 5real * q, e, e);
    let x = F32::whole(2) * a - F32::whole(5) * b;
    lemma_close_add(x, F32::whole(4) * c, 2real * p - 5real * q, 4real * r, 6real / 1000000real, e);
    lemma_close_sub(x + F32::whole(4) * c, d, 2real * p - 5real * q + 4real * r, s, 12real / 1000000real, 0real);
}

/// The third coefficient of the polynomial.
proof fn lemma_third(a: F32, b: F32, c: F32, d: F32)
    requires
        is_moderate(a),
        is_moderate(b),
        is_moderate(c),
        is_moderate(d),
    ensures
        close(
            -a + F32::whole(3) * b - F32::whole(3) * c + d,
            3real * b.value() - a.value() - 3real * c.value() + d.value(),
            1real / 50000real,
        ),
{
    lemma_value_whole(3);
    let (p, q, r, s) = (a.value(), b.value(), c.value(), d.value());
    lemma_value_neg(a);
    lemma_close_mul(F32::whole(3), b, 3real, q, 0real, 0real, 3real, 4real);
    lemma_close_mul(F32::whole(3), c, 3real, r, 0real, 0real, 3real, 4real);
    let e = 2real / 1000000real;
    lemma_close_add(-a, F32::whole(3) * b, -p, 3real * q, 0real, e);
    let x = -a + F32::whole(3) * b;
    lemma_close_sub(x, F32::whole(3) * c, -p + 3real * q, 3real * r, 4real / 1000000real, e);
    lemma_close_add(x - F32::whole(3) * c, d, -p + 3real * q - 3real * r, s, 8real / 1000000real, 0real);
}

/// The curve between two points is the Catmull-Rom polynomial.
pub proof fn law_curve_is_catmull_rom(a: F32, b: F32, c: F32, d: F32, t: F32)
    requires
        is_moderate(a),
        is_moderate(b),
        is_moderate(c),
        is_moderate(d),
        is_part(t),
    ensures
        close(
            cubic(a, b, c, d, t),
            catmull(a.value(), b.value(), c.value(), d.value(), t.value()),
            1real / 10000real,
        ),
{
    lemma_constants();
    lemma_value_part(t);
    lemma_value_whole(2);
    let (p, q, r, s, u) = (a.value(), b.value(), c.value(), d.value(), t.value());
    let t2 = t * t;
    let t3 = t2 * t;
    assert(0real <= u * u <= 1real && 0real <= u * u * u <= 1real) by (nonlinear_arith)
        requires 0real <= u <= 1real;
    lemma_close_mul(t, t, u, u, 0real, 0real, 1real, 1real);
    lemma_close_mul(t2, t, u * u, u, 1real / 10000000real, 0real, 1real, 1real);
    let e = 3real / 10000000real;
    lemma_close_mul(F32::whole(2), b, 2real, q, 0real, 0real, 2real, 4real);
    lemma_value_neg(a);
    lemma_close_add(-a, c, -p, r, 0real, 0real);
    lemma_close_mul(-a + c, t, -p + r, u, 1real / 1000000real, 0real, 8real, 1real);
    lemma_size_mul(-p + r, u, 8real, 1real);
    let f1 = F32::whole(2) * b;
    let f2 = (-a + c) * t;
    lemma_close_add(f1, f2, 2real * q, (-p + r) * u, 1real / 1000000real, 3real / 1000000real);
    lemma_second(a, b, c, d);
    lemma_third(a, b, c, d);
    let k2 = F32::whole(2) * a - F32::whole(5) * b + F32::whole(4) * c - d;
    let k3 = -a + F32::whole(3) * b - F32::whole(3) * c + d;
    let v2 = 2real * p - 5real * q + 4real * r - s;
    let v3 = 3real * q - p - 3real * r + s;
    lemma_close_mul(k2, t2, v2, u * u, 1real / 50000real, e, 48real, 1real);
    lemma_close_mul(k3, t3, v3, u * u * u, 1real / 50000real, e, 32real, 1real);
    lemma_size_mul(v2, u * u, 48real, 1real);
    lemma_size_mul(v3, u * u * u, 32real, 1real);
    let g = 1real / 25000real;
    lemma_close_add(f1 + f2, k2 * t2, 2real * q + (-p + r) * u, v2 * (u * u), 5real / 1000000real, g);
    let w = 2real * q + (-p + r) * u + v2 * (u * u);
    lemma_close_add(f1 + f2 + k2 * t2, k3 * t3, w, v3 * (u * u * u), 6real / 100000real, g);
    let z = w + v3 * (u * u * u);
    lemma_close_mul(
        F32::half_unit(),
        f1 + f2 + k2 * t2 + k3 * t3,
        1real / 2real,
        z,
        0real,
        12real / 100000real,
        1real / 2real,
        120real,
    );
}

/// Point `j` of a curve lies `j % subdiv` parts of the way from one point to the next, on
/// the polynomial through the four points around it; a closed line goes around, an open
/// one keeps its ends.
pub proof fn law_curve_runs_between_its_points(pts: Seq<Point>, closed: bool, subdiv: int, j: int)
    requires
        pts.len() >= 3,
        1 <= subdiv <= 1000,
        0 <= j < segments(pts, closed) * subdiv,
        forall|i: int| 0 <= i < pts.len() ==> is_moderate((#[trigger] pts[i]).0) && is_moderate(pts[i].1),
    ensures
        segments(pts, closed) == if closed {
            pts.len() as int
        } else {
            pts.len() - 1
        },
        curve(pts, closed, subdiv).len() == segments(pts, closed) * subdiv + if closed {
            0int
        } else {
            1int
        },
        ({
            let i = j / subdiv;
            let t = (j % subdiv) as real / subdiv as real;
            let at = |k: int|
                pts[if closed {
                    k % (pts.len() as int)
                } else if k < 0 {
                    0
                } else if k >= pts.len() {
                    pts.len() - 1
                } else {
                    k
                }];
            let v = curve(pts, closed, subdiv)[j];
            let e = 1real / 5000real;
            &&& close(
                v.0,
                catmull(at(i - 1).0.value(), at(i).0.value(), at(i + 1).0.value(), at(i + 2).0.value(), t),
                e,
            )
            &&& close(
                v.1,
                catmull(at(i - 1).1.value(), at(i).1.value(), at(i + 1).1.value(), at(i + 2).1.value(), t),
                e,
            )
        }),
        !closed ==> curve(pts, closed, subdiv)[segments(pts, closed) * subdiv] == pts[pts.len() - 1],
{
    lemma_constants();
    let n = pts.len() as int;
    let m = segments(pts, closed);
    assert(m * subdiv >= 0) by (nonlinear_arith)
        requires m >= 0, subdiv >= 1;
    lemma_fundamental_div_mod(j, subdiv);
    lemma_mod_bound(j, subdiv);
    let i = j / subdiv;
    let s = j % subdiv;
    assert(0 <= i < m) by (nonlinear_arith)
        requires j == subdiv * i + s, 0 <= s < subdiv, 0 <= j < m * subdiv, subdiv >= 1;
    lemma_value_whole(s);
    lemma_value_whole(subdiv);
    let x = s as real;
    let y = subdiv as real;
    let u = x / y;
    assert(0real <= u <= 1real && u * y == x) by (nonlinear_arith)
        requires u == x / y, 0real <= x <= y, y >= 1real;
    let t = F32::whole(s) / F32::whole(subdiv);
    lemma_value_div(F32::whole(s), F32::whole(subdiv));
    lemma_part_quotient(s, subdiv);
    lemma_value_part(t);
    let (a, b, c, d) = (
        knot(pts, closed, i - 1),
        knot(pts, closed, i),
        knot(pts, closed, i + 1),
        knot(pts, closed, i + 2),
    );
    lemma_mod_bound(i - 1, n);
    lemma_mod_bound(i, n);
    lemma_mod_bound(i + 1, n);
    lemma_mod_bound(i + 2, n);
    law_curve_is_catmull_rom(a.0, b.0, c.0, d.0, t);
    law_curve_is_catmull_rom(a.1, b.1, c.1, d.1, t);
    lemma_catmull_near(a.0.value(), b.0.value(), c.0.value(), d.0.value(), t.value(), u);
    lemma_catmull_near(a.1.value(), b.1.value(), c.1.value(), d.1.value(), t.value(), u);
    assert(curve(pts, closed, subdiv)[j] == on_segment(pts, closed, subdiv, i, s));
}

/// A part of the way is a part of one.
proof fn lemma_part_quotient(s: int, n: int)
    requires
        0 <= s < n <= 1000,
    ensures
        is_part(F32::whole(s) / F32::whole(n)),
{
    lemma_one();
    lemma_whole(s);
    lemma_whole(n);
    let w = one_units();
    assert(n * w > 0 && 0 * (n * w) <= (s * w) * w <= w * (n * w)) by (nonlinear_arith)
        requires 0 <= s < n, w > 0;
    lemma_div_between(F32::whole(s), F32::whole(n), F32::nought(), F32::unit());
}

/// The polynomial at near parts of the way.
proof fn lemma_catmull_near(a: real, b: real, c: real, d: real, t: real, u: real)
    requires
        size(a) <= 4real,
        size(b) <= 4real,
        size(c) <= 4real,
        size(d) <= 4real,
        0real <= t <= 1real,
        0real <= u <= 1real,
        apart(t, u) <= 1real / 10000000real,
    ensures
        apart(catmull(a, b, c, d, t), catmull(a, b, c, d, u)) <= 1real / 10000real,
{
    let e = 1real / 10000000real;
    lemma_apart_mul(t, t, u, u, e, e, 1real, 1real);
    assert(0real <= t * t <= 1real && 0real <= u * u <= 1real && 0real <= t * t * t <= 1real) by (nonlinear_arith)
        requires 0real <= t <= 1real, 0real <= u <= 1real;
    lemma_apart_mul(t * t, t, u * u, u, 2real * e, e, 1real, 1real);
    let k1 = c - a;
    let k2 = 2real * a - 5real * b + 4real * c - d;
    let k3 = 3real * b - a - 3real * c + d;
    lemma_apart_mul(k1, t, k1, u, 0real, e, 8real, 1real);
    lemma_apart_mul(k2, t * t, k2, u * u, 0real, 2real * e, 48real, 1real);
    lemma_apart_mul(k3, t * t * t, k3, u * u * u, 0real, 3real * e, 32real, 1real);
}

/// The points of the mirrored spectrum: the left channel from the outer left inwards, then
/// the right channel outwards, each at the height of its level.
pub proof fn law_line_shows_the_spectrum(left: Seq<F32>, right: Seq<F32>, j: int)
    requires
        0 <= j < 128,
        left.len() == NUM_BANDS,
        right.len() == NUM_BANDS,
        forall|b: int| 0 <= b < NUM_BANDS ==> (#[trigger] left[b]).finite(),
        forall|b: int| 0 <= b < NUM_BANDS ==> (#[trigger] right[b]).finite(),
    ensures
        spectrum_points(left, right).len() == 128,
        ({
            let p = spectrum_points(left, right)[j];
            let b = if j < 64 {
                63 - j
            } else {
                j - 64
            };
            let h = if j < 64 {
                left[b]
            } else {
                right[b]
            };
            let x = b as real / 63real;
            &&& close(
                p.0,
                if j < 64 {
                    -x
                } else {
                    x
                },
                1real / 1000000real,
            )
            &&& close(p.1, -1real + 2real * clip(h.value(), 0real, 1real), 1real / 1000000real)
        }),
{
    let b = if j < 64 {
        63 - j
    } else {
        j - 64
    };
    law_bands_are_evenly_placed(b);
    lemma_value_neg(ramp(b));
    if j < 64 {
        assert(left[b].finite());
        law_top_is_the_level(left[b]);
    } else {
        assert(right[b].finite());
        law_top_is_the_level(right[b]);
    }
}

/// The length of a step, in real numbers: it is positive, and its square is that of the
/// coordinates.
pub open spec fn is_length(len: real, x: real, y: real) -> bool {
    &&& len > 0real
    &&& apart(len * len, x * x + y * y) <= (x * x + y * y) / 100000real
}

/// The length that a step is divided by.
proof fn lemma_length(x: F32, y: F32)
    requires
        x.finite(),
        y.finite(),
        size(x.value()) <= 10real,
        size(y.value()) <= 10real,
        x.value() * x.value() + y.value() * y.value() >= 1real / 100000000real,
    ensures
        ({
            let l = (x * x + y * y).root().larger(F32::quotient(1, 1_000_000));
            &&& l.finite()
            &&& l.value() > 9real / 100000real
            &&& l.value() <= 15real
            &&& apart(l.value() * l.value(), x.value() * x.value() + y.value() * y.value()) <= (x.value() * x.value()
                + y.value() * y.value()) / 1000000real
            &&& size(x.value()) <= l.value() * (101real / 100real)
            &&& size(y.value()) <= l.value() * (101real / 100real)
        }),
{
    let a = x.value();
    let b = y.value();
    let p = a * a;
    let q = b * b;
    assert(0real <= p <= 100real && 0real <= q <= 100real) by (nonlinear_arith)
        requires p == a * a, q == b * b, size(a) <= 10real, size(b) <= 10real;
    lemma_value_mul(x, x);
    lemma_value_mul(y, y);
    let s = x * x + y * y;
    lemma_value_add(x * x, y * y);
    let t = p + q;
    assert(apart(s.value(), t) <= t / 5000000real);
    lemma_value_root(s);
    let r = s.root();
    let v = r.value();
    assert(apart(v * v, t) <= t / 1000000real);
    assert(v > 9real / 100000real && v <= 15real) by (nonlinear_arith)
        requires v * v >= 99real / 10000000000real, v * v <= 201real, v > 0real;
    lemma_value_quotient(1, 1_000_000);
    lemma_value_le(r, F32::quotient(1, 1_000_000));
    lemma_root_above(a, v, p);
    lemma_root_above(b, v, q);
}

/// What has a smaller square is smaller.
proof fn lemma_root_above(a: real, v: real, p: real)
    requires
        p == a * a,
        v > 0real,
        v * v >= p * (999real / 1000real),
    ensures
        size(a) <= v * (101real / 100real),
{
    let m = size(a);
    assert(m * m == p && p >= 0real) by (nonlinear_arith)
        requires p == a * a, m == a || m == -a;
    assert(m <= v * (101real / 100real)) by (nonlinear_arith)
        requires m * m == p, v * v >= p * (999real / 1000real), v > 0real, m >= 0real;
}

/// One side of a step across a line.
proof fn lemma_across_part(y: F32, l: F32, w: F32)
    requires
        y.finite(),
        l.finite(),
        w.finite(),
        9real / 100000real < l.value() <= 15real,
        size(y.value()) <= l.value() * (101real / 100real),
        0real <= w.value() <= 1real,
    ensures
        close(y / l * w, (y.value() / l.value()) * w.value(), w.value() / 5000000real + 3real * dust()),
        apart((y / l * w).value() * l.value(), y.value() * w.value()) <= (l.value() * w.value()) / 4000000real
            + 100real * dust(),
{
    let a = y.value();
    let v = l.value();
    let k = w.value();
    let r = a / v;
    assert(r * v == a && size(r) <= 101real / 100real) by (nonlinear_arith)
        requires r == a / v, v > 0real, size(a) <= v * (101real / 100real);
    lemma_value_div(y, l);
    let q = y / l;
    let m = 101real / 100real;
    let e = m / 16777216real + dust();
    assert(apart(q.value(), r) <= e);
    lemma_apart_mul(q.value(), k, r, k, e, 0real, m, k);
    lemma_size_mul(q.value(), k, 102real / 100real, k);
    lemma_value_mul(q, w);
    assert(e * k <= (m / 16777216real) * k + dust()) by (nonlinear_arith)
        requires e == m / 16777216real + dust(), 0real <= k <= 1real, dust() >= 0real;
    assert((m / 16777216real) * k == k * (101real / 1677721600real)) by (nonlinear_arith)
        requires m == 101real / 100real;
    let n = (q * w).value();
    let d = k / 5000000real + 3real * dust();
    assert(apart(n, r * k) <= d);
    lemma_apart_mul(n, v, r * k, v, d, 0real, 2real, v);
    assert((r * k) * v == (r * v) * k) by (nonlinear_arith);
    assert(d * v <= (v * k) / 5000000real + 45real * dust()) by (nonlinear_arith)
        requires d == k / 5000000real + 3real * dust(), 0real < v <= 15real, dust() >= 0real;
    lemma_size_mul(r, k, m, 1real);
    assert(v * k >= 0real) by (nonlinear_arith)
        requires v > 0real, k >= 0real;
}

/// A ribbon is widened straight across its line: the step across has the width as its
/// length, and is the direction of the line turned by a quarter to the left.
pub proof fn law_ribbon_is_widened_across(from: Point, to: Point, w: F32) -> (len: real)
    requires
        is_moderate(from.0),
        is_moderate(from.1),
        is_moderate(to.0),
        is_moderate(to.1),
        w.finite(),
        0real <= w.value() <= 1real,
        (to.0.value() - from.0.value()) * (to.0.value() - from.0.value()) + (to.1.value() - from.1.value()) * (
        to.1.value() - from.1.value()) >= 1real / 50000000real,
    ensures
        is_length(len, to.0.value() - from.0.value(), to.1.value() - from.1.value()),
        apart(across(from, to, w).0.value() * len, -(to.1.value() - from.1.value()) * w.value()) <= (len * w.value())
            / 1000000real + 1000real * dust(),
        apart(across(from, to, w).1.value() * len, (to.0.value() - from.0.value()) * w.value()) <= (len * w.value())
            / 1000000real + 1000real * dust(),
        across(from, to, w).0.finite(),
        across(from, to, w).1.finite(),
{
    let dx = to.0.value() - from.0.value();
    let dy = to.1.value() - from.1.value();
    let tx = to.0 - from.0;
    let ty = to.1 - from.1;
    lemma_value_sub(to.0, from.0);
    lemma_value_sub(to.1, from.1);
    let x = tx.value();
    let y = ty.value();
    lemma_square_of_near(x, dx);
    lemma_square_of_near(y, dy);
    lemma_length(tx, ty);
    let l = (tx * tx + ty * ty).root().larger(F32::quotient(1, 1_000_000));
    let v = l.value();
    lemma_value_neg(ty);
    lemma_across_part(-ty, l, w);
    lemma_across_part(tx, l, w);
    let k = w.value();
    let e = v / 8000000real;
    assert(apart(x, dx) <= e && apart(y, dy) <= e);
    lemma_apart_mul(-y, k, -dy, k, e, 0real, 10real, k);
    lemma_apart_mul(x, k, dx, k, e, 0real, 10real, k);
    assert(e * k == (v * k) / 8000000real) by (nonlinear_arith)
        requires e == v / 8000000real;
    assert(v * k >= 0real) by (nonlinear_arith)
        requires v > 0real, k >= 0real;
    v
}

/// The square of a rounded difference.
proof fn lemma_square_of_near(x: real, d: real)
    requires
        apart(x, d) <= size(d) / 16777216real + dust(),
        size(d) <= 8real,
    ensures
        apart(x * x, d * d) <= (d * d) / 4000000real + 100real * dust(),
        size(x) <= 9real,
{
    let m = size(d);
    let e = m / 16777216real + dust();
    lemma_apart_mul(x, x, d, d, e, e, m, m + e);
    assert(m * m == d * d) by (nonlinear_arith)
        requires m == d || m == -d;
    assert(e * (m + e) + m * e <= (m * m) / 4000000real + 100real * dust()) by (nonlinear_arith)
        requires e == m / 16777216real + dust(), 0real <= m <= 8real, 0real < dust() <= 1real / 1000000real;
}

/// Both vertices of a ribbon at a point have the colour of the point and lie as far from
/// it, on either side.
pub proof fn law_ribbon_follows_its_line(
    pts: Seq<Point>,
    cols: Seq<Rgb>,
    widths: Seq<F32>,
    closed: bool,
    inv_aspect: F32,
    k: int,
)
    requires
        pts.len() >= 3,
        0 <= k < pts.len() + (if closed {
            1int
        } else {
            0int
        }),
    ensures
        ribbon(pts, cols, widths, closed, inv_aspect).len() == 2 * (pts.len() + (if closed {
            1int
        } else {
            0int
        })),
        ({
            let i = if k < pts.len() {
                k
            } else {
                0
            };
            let last = pts.len() - 1;
            let prev = if i > 0 {
                pts[i - 1]
            } else if closed {
                pts[last]
            } else {
                pts[0]
            };
            let next = if i < last {
                pts[i + 1]
            } else if closed {
                pts[0]
            } else {
                pts[last]
            };
            let n = across(prev, next, widths[i]);
            let a = ribbon(pts, cols, widths, closed, inv_aspect)[2 * k];
            let b = ribbon(pts, cols, widths, closed, inv_aspect)[2 * k + 1];
            &&& a.x == (pts[i].0 + n.0) * inv_aspect
            &&& a.y == pts[i].1 + n.1
            &&& b.x == (pts[i].0 - n.0) * inv_aspect
            &&& b.y == pts[i].1 - n.1
            &&& a.r == cols[i].r && a.g == cols[i].g && a.b == cols[i].b
            &&& b.r == cols[i].r && b.g == cols[i].g && b.b == cols[i].b
            &&& a.a.value() == 1real
            &&& b.a.value() == -1real
        }),
{
    lemma_constants();
    assert((2 * k) / 2 == k && (2 * k + 1) / 2 == k);
}

} // verus!
