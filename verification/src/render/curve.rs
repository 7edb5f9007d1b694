//! Smooth curves through points.

use super::paint::{ramp, ramp_at};
use super::shapes::{top, top_of};
use crate::bands::NUM_BANDS;
use crate::dsp::SpectrumFrame;
use crate::float::laws::{
    lemma_double, lemma_half, lemma_mul_between, lemma_one, lemma_plus_zero, lemma_same_value, lemma_signed,
    lemma_times_zero, lemma_whole, lemma_zero_mag, lemma_zero_over, lemma_zero_product, one_units,
};
use crate::float::repr::lemma_mag_units_order;
use crate::float::round::{lemma_nearest_positive, nearest_mag};
use crate::float::size::{
    lemma_add_fits, lemma_fits_more, lemma_mul_fits, lemma_neg_fits, lemma_power, lemma_whole_fits,
};
use crate::float::F32;
use core::ops::Neg;
use vstd::arithmetic::div_mod::{lemma_fundamental_div_mod_converse, lemma_mod_bound};
use vstd::arithmetic::power2::lemma2_to64;
use vstd::prelude::*;

verus! {

/// A point of the plane.
pub type Point = (F32, F32);

/// Pieces per segment of a smooth curve.
pub const SMOOTH_SUBDIV: usize = 8;

/// One coordinate of the Catmull-Rom spline between `b` and `c`.
pub open spec fn cubic(a: F32, b: F32, c: F32, d: F32, t: F32) -> F32 {
    let t2 = t * t;
    let t3 = t2 * t;
    F32::half_unit() * (F32::whole(2) * b + (-a + c) * t + (F32::whole(2) * a - F32::whole(5) * b + F32::whole(4) * c
        - d) * t2 + (-a + F32::whole(3) * b - F32::whole(3) * c + d) * t3)
}

fn cubic_at(a: F32, b: F32, c: F32, d: F32, t: F32) -> (r: F32)
    ensures
        r == cubic(a, b, c, d, t),
{
    let two = F32::from_int(2);
    let three = F32::from_int(3);
    let t2 = t * t;
    let t3 = t2 * t;
    let first = (a.neg() + c) * t;
    let second = (two * a - F32::from_int(5) * b + F32::from_int(4) * c - d) * t2;
    let third = (a.neg() + three * b - three * c + d) * t3;
    F32::half() * (two * b + first + second + third)
}

/// The point of the spline between `p1` and `p2` at part `t` of the way.
pub open spec fn spline(p0: Point, p1: Point, p2: Point, p3: Point, t: F32) -> Point {
    (cubic(p0.0, p1.0, p2.0, p3.0, t), cubic(p0.1, p1.1, p2.1, p3.1, t))
}

/// The point of a Catmull-Rom spline between `p1` and `p2`.
pub fn catmull_rom(p0: Point, p1: Point, p2: Point, p3: Point, t: F32) -> (r: Point)
    ensures
        r == spline(p0, p1, p2, p3, t),
{
    (cubic_at(p0.0, p1.0, p2.0, p3.0, t), cubic_at(p0.1, p1.1, p2.1, p3.1, t))
}

/// Point `i` of a polyline, where `i` may lie outside: a closed line goes around, an
/// open line keeps its ends.
pub open spec fn knot(pts: Seq<Point>, closed: bool, i: int) -> Point {
    if closed {
        pts[i % (pts.len() as int)]
    } else if i < 0 {
        pts[0]
    } else if i >= pts.len() {
        pts[pts.len() - 1]
    } else {
        pts[i]
    }
}

/// The segments of a polyline.
pub open spec fn segments(pts: Seq<Point>, closed: bool) -> int {
    if closed {
        pts.len() as int
    } else {
        pts.len() - 1
    }
}

/// Point `s` of `subdiv` on segment `i` of the smooth curve.
pub open spec fn on_segment(pts: Seq<Point>, closed: bool, subdiv: int, i: int, s: int) -> Point {
    spline(
        knot(pts, closed, i - 1),
        knot(pts, closed, i),
        knot(pts, closed, i + 1),
        knot(pts, closed, i + 2),
        F32::whole(s) / F32::whole(subdiv),
    )
}

/// The smooth curve through the points, each segment in `subdiv` pieces; an open
/// curve ends with the last point. Fewer than three points stay as they are.
pub open spec fn curve(pts: Seq<Point>, closed: bool, subdiv: int) -> Seq<Point> {
    if pts.len() < 3 {
        pts
    } else {
        let inner = Seq::new(
            (segments(pts, closed) * subdiv) as nat,
            |j: int| on_segment(pts, closed, subdiv, j / subdiv, j % subdiv),
        );
        if closed {
            inner
        } else {
            inner.push(pts[pts.len() - 1])
        }
    }
}

fn knot_back(pts: &[Point], closed: bool, i: usize) -> (r: Point)
    requires
        i < pts@.len(),
        pts@.len() >= 3,
    ensures
        r == knot(pts@, closed, i - 1),
{
    proof {
        let n = pts@.len() as int;
        if i > 0 {
            lemma_fundamental_div_mod_converse(i - 1, n, 0, i - 1);
        } else {
            lemma_fundamental_div_mod_converse(-1, n, -1, n - 1);
        }
    }
    if i > 0 {
        pts[i - 1]
    } else if closed {
        pts[pts.len() - 1]
    } else {
        pts[0]
    }
}

fn knot_ahead(pts: &[Point], closed: bool, i: usize, d: usize) -> (r: Point)
    requires
        i < pts@.len(),
        pts@.len() >= 3,
        d <= 2,
    ensures
        r == knot(pts@, closed, i + d),
{
    let left: usize = pts.len() - i;
    if d < left {
        proof {
            lemma_fundamental_div_mod_converse(i + d, pts@.len() as int, 0, i + d);
        }
        pts[i + d]
    } else if closed {
        proof {
            lemma_fundamental_div_mod_converse(i + d, pts@.len() as int, 1, d - left);
        }
        pts[d - left]
    } else {
        pts[pts.len() - 1]
    }
}

/// Interpolates a polyline by a spline with `subdiv` points per segment.
pub fn smooth_curve_subdiv(pts: &[Point], closed: bool, subdiv: usize) -> (out: Vec<Point>)
    ensures
        out@ == curve(pts@, closed, subdiv as int),
{
    let n: usize = pts.len();
    let mut out: Vec<Point> = Vec::new();
    if n < 3 {
        let mut i: usize = 0;
        while i < n
            invariant
                i <= n,
                n == pts@.len(),
                out@ == pts@.take(i as int),
            decreases n - i,
        {
            out.push(pts[i]);
            assert(pts@.take(i + 1) =~= pts@.take(i as int).push(pts@[i as int]));
            i = i + 1;
        }
        assert(pts@.take(n as int) =~= pts@);
        return out;
    }
    let count: usize = if closed {
        n
    } else {
        n - 1
    };
    let ghost k = subdiv as int;
    let mut i: usize = 0;
    assert(0 * k == 0);
    while i < count
        invariant
            i <= count,
            count == segments(pts@, closed),
            count <= n,
            n == pts@.len(),
            n >= 3,
            k == subdiv,
            out@.len() == i * k,
            forall|j: int|
                0 <= j < i * k ==> #[trigger] out@[j] == on_segment(pts@, closed, k, j / k, j % k),
        decreases count - i,
    {
        let p0 = knot_back(pts, closed, i);
        let p1 = knot_ahead(pts, closed, i, 0);
        let p2 = knot_ahead(pts, closed, i, 1);
        let p3 = knot_ahead(pts, closed, i, 2);
        let mut s: usize = 0;
        while s < subdiv
            invariant
                i < count,
                s <= subdiv,
                k == subdiv,
                p0 == knot(pts@, closed, i - 1),
                p1 == knot(pts@, closed, i as int),
                p2 == knot(pts@, closed, i + 1),
                p3 == knot(pts@, closed, i + 2),
                out@.len() == i * k + s,
                forall|j: int|
                    0 <= j < i * k + s ==> #[trigger] out@[j] == on_segment(pts@, closed, k, j / k, j % k),
            decreases subdiv - s,
        {
            let t = F32::from_int(s as u64) / F32::from_int(subdiv as u64);
            out.push(catmull_rom(p0, p1, p2, p3, t));
            proof {
                lemma_fundamental_div_mod_converse(i * k + s, k, i as int, s as int);
            }
            s = s + 1;
        }
        assert((i + 1) * k == i * k + k) by (nonlinear_arith);
        i = i + 1;
    }
    proof {
        let inner = Seq::new(
            (segments(pts@, closed) * k) as nat,
            |j: int| on_segment(pts@, closed, k, j / k, j % k),
        );
        assert(count * k >= 0) by (nonlinear_arith)
            requires count >= 0, k >= 0;
        assert(out@ =~= inner);
    }
    if !closed {
        out.push(pts[n - 1]);
    }
    out
}

/// Interpolates a polyline by a spline.
pub fn smooth_curve(pts: &[Point], closed: bool) -> (out: Vec<Point>)
    ensures
        out@ == curve(pts@, closed, SMOOTH_SUBDIV as int),
{
    smooth_curve_subdiv(pts, closed, SMOOTH_SUBDIV)
}

/// Point `j` of the mirrored spectrum: the left channel from its last band to its
/// first, then the right channel from its first to its last.
pub open spec fn spectrum_point(left: Seq<F32>, right: Seq<F32>, j: int) -> Point {
    if j < NUM_BANDS {
        (-ramp(NUM_BANDS - 1 - j), top(left[NUM_BANDS - 1 - j]))
    } else {
        (ramp(j - NUM_BANDS), top(right[j - NUM_BANDS]))
    }
}

/// The points of the mirrored spectrum.
pub open spec fn spectrum_points(left: Seq<F32>, right: Seq<F32>) -> Seq<Point> {
    Seq::new(128, |j: int| spectrum_point(left, right, j))
}

/// The points of the mirrored line: the low frequencies in the middle.
pub fn line_curve_points(left: &SpectrumFrame, right: &SpectrumFrame) -> (r: Vec<Point>)
    ensures
        r@ == spectrum_points(left@, right@),
{
    let mut r: Vec<Point> = Vec::new();
    let mut j: usize = 0;
    while j < NUM_BANDS
        invariant
            j <= NUM_BANDS,
            r@.len() == j,
            forall|k: int| 0 <= k < j ==> #[trigger] r@[k] == spectrum_point(left@, right@, k),
        decreases NUM_BANDS - j,
    {
        let i: usize = NUM_BANDS - 1 - j;
        r.push((ramp_at(i).neg(), top_of(left[i])));
        j = j + 1;
    }
    let mut i: usize = 0;
    while i < NUM_BANDS
        invariant
            i <= NUM_BANDS,
            r@.len() == NUM_BANDS + i,
            forall|k: int| 0 <= k < NUM_BANDS + i ==> #[trigger] r@[k] == spectrum_point(left@, right@, k),
        decreases NUM_BANDS - i,
    {
        r.push((ramp_at(i), top_of(right[i])));
        i = i + 1;
    }
    assert(r@ =~= spectrum_points(left@, right@));
    r
}

/// Equal channels give a mirrored line.
pub proof fn law_equal_channels_mirror_line(frame: Seq<F32>, j: int)
    requires
        0 <= j < NUM_BANDS,
    ensures
        ({
            let l = spectrum_points(frame, frame)[j];
            let r = spectrum_points(frame, frame)[127 - j];
            l == (-r.0, r.1)
        }),
{
}

/// A point that is no further out than 2 to the 100.
pub open spec fn near(p: Point) -> bool {
    p.0.fits(249) && p.1.fits(249)
}

/// At its start the spline is at its second point.
proof fn lemma_cubic_start(a: F32, b: F32, c: F32, d: F32, t: F32)
    requires
        a.fits(249),
        b.fits(249),
        c.fits(249),
        d.fits(249),
        t.finite(),
        t.units() == 0,
    ensures
        cubic(a, b, c, d, t).units() == b.units(),
        cubic(a, b, c, d, t).finite(),
{
    lemma2_to64();
    lemma_one();
    lemma_half();
    lemma_zero_mag(t);
    lemma_zero_product(t, t);
    let t2 = t * t;
    lemma_zero_product(t2, t);
    let t3 = t2 * t;
    let two = F32::whole(2);
    lemma_whole(2);
    lemma_whole_fits(2, 1);
    lemma_whole_fits(3, 2);
    lemma_whole_fits(4, 2);
    lemma_whole_fits(5, 3);
    lemma_neg_fits(a, 249);
    lemma_add_fits(-a, c, 249);
    lemma_mul_fits(two, a, 150, 249);
    lemma_mul_fits(F32::whole(5), b, 152, 249);
    lemma_mul_fits(F32::whole(4), c, 151, 249);
    lemma_mul_fits(F32::whole(3), b, 151, 249);
    lemma_mul_fits(F32::whole(3), c, 151, 249);
    let e1 = -a + c;
    let e2 = two * a - F32::whole(5) * b;
    lemma_fits_more(two * a, 250, 252);
    lemma_add_fits(two * a, F32::whole(5) * b, 252);
    lemma_fits_more(F32::whole(4) * c, 251, 253);
    lemma_add_fits(e2, F32::whole(4) * c, 253);
    lemma_fits_more(d, 249, 254);
    lemma_add_fits(e2 + F32::whole(4) * c, d, 254);
    let f2 = e2 + F32::whole(4) * c - d;
    lemma_fits_more(-a, 249, 251);
    lemma_add_fits(-a, F32::whole(3) * b, 251);
    lemma_fits_more(F32::whole(3) * c, 251, 252);
    lemma_add_fits(-a + F32::whole(3) * b, F32::whole(3) * c, 252);
    lemma_fits_more(d, 249, 253);
    lemma_add_fits(-a + F32::whole(3) * b - F32::whole(3) * c, d, 253);
    let f3 = -a + F32::whole(3) * b - F32::whole(3) * c + d;
    lemma_times_zero(e1, t);
    lemma_times_zero(f2, t2);
    lemma_times_zero(f3, t3);
    lemma_power(249);
    lemma_mag_units_order(F32::power(249).mag(), b.mag());
    let g = lemma_double(b);
    let w = one_units();
    assert(g.units() * w == (2 * w) * b.units()) by (nonlinear_arith)
        requires g.units() == 2 * b.units();
    lemma_mul_between(two, b, g, g);
    let m = two * b;
    lemma_same_value(m, g);
    lemma_plus_zero(m, e1 * t);
    lemma_plus_zero(m + e1 * t, f2 * t2);
    lemma_plus_zero(m + e1 * t + f2 * t2, f3 * t3);
    let y = m + e1 * t + f2 * t2 + f3 * t3;
    let h = F32::half_unit();
    assert(b.units() * w == h.units() * y.units()) by (nonlinear_arith)
        requires y.units() == 2 * b.units(), 2 * h.units() == w;
    lemma_mul_between(h, y, b, b);
    lemma_same_value(h * y, b);
}

/// No part of the way is zero, however many parts there are.
proof fn lemma_none_of(parts: int)
    requires
        parts >= 1,
    ensures
        (F32::whole(0) / F32::whole(parts)).finite(),
        (F32::whole(0) / F32::whole(parts)).units() == 0,
{
    reveal(F32::quotient);
    lemma_one();
    lemma_whole(0);
    let w = one_units();
    assert(0 * w == 0);
    assert(parts * w >= 1) by (nonlinear_arith)
        requires parts >= 1, w > 0;
    lemma_nearest_positive(parts * w, 1);
    let d = F32::whole(parts);
    lemma_signed(false, nearest_mag(parts * w, 1));
    lemma_mag_units_order(0, d.mag());
    if d.finite() {
        lemma_zero_over(F32::whole(0), d);
    } else {
        reveal(F32::spec_euclidean_or_real_div);
        lemma_signed(false, 0);
        lemma_signed(true, 0);
    }
}

/// The smooth curve passes through the points that it is drawn through.
pub proof fn law_curve_meets_points(pts: Seq<Point>, closed: bool, subdiv: int, i: int)
    requires
        pts.len() >= 3,
        subdiv >= 1,
        0 <= i < pts.len(),
        forall|k: int| 0 <= k < pts.len() ==> near(#[trigger] pts[k]),
    ensures
        i * subdiv < curve(pts, closed, subdiv).len(),
        curve(pts, closed, subdiv)[i * subdiv].0.units() == pts[i].0.units(),
        curve(pts, closed, subdiv)[i * subdiv].1.units() == pts[i].1.units(),
{
    let n = pts.len() as int;
    let j = i * subdiv;
    let count = segments(pts, closed);
    lemma_fundamental_div_mod_converse(j, subdiv, i, 0);
    assert(0 <= j) by (nonlinear_arith)
        requires j == i * subdiv, i >= 0, subdiv >= 1;
    if i < count {
        assert(j < count * subdiv) by (nonlinear_arith)
            requires j == i * subdiv, i < count, subdiv >= 1;
        lemma_none_of(subdiv);
        let t = F32::whole(0) / F32::whole(subdiv);
        lemma_knot_near(pts, closed, i - 1);
        lemma_knot_near(pts, closed, i);
        lemma_knot_near(pts, closed, i + 1);
        lemma_knot_near(pts, closed, i + 2);
        let p0 = knot(pts, closed, i - 1);
        let p1 = knot(pts, closed, i);
        let p2 = knot(pts, closed, i + 1);
        let p3 = knot(pts, closed, i + 2);
        if closed {
            lemma_fundamental_div_mod_converse(i, n, 0, i);
        }
        assert(p1 == pts[i]);
        lemma_cubic_start(p0.0, p1.0, p2.0, p3.0, t);
        lemma_cubic_start(p0.1, p1.1, p2.1, p3.1, t);
    } else {
        assert(j == count * subdiv);
    }
}

/// The points that a segment is drawn from are points of the polyline.
proof fn lemma_knot_near(pts: Seq<Point>, closed: bool, i: int)
    requires
        pts.len() >= 3,
        forall|k: int| 0 <= k < pts.len() ==> near(#[trigger] pts[k]),
    ensures
        near(knot(pts, closed, i)),
{
    let n = pts.len() as int;
    lemma_mod_bound(i, n);
}

} // verus!
