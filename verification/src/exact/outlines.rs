//! The outlines that effects draw: what they go through, and how wide they are.

use crate::bands::NUM_BANDS;
use crate::dsp::is_part;
use crate::exact::line::{catmull, is_moderate, law_curve_runs_between_its_points, law_line_shows_the_spectrum};
use crate::exact::shapes::{is_turn, law_polar_point, law_tip_is_the_level};
use crate::exact::tunnel::law_ring_shape_follows_the_spectrum;
use crate::float::value::{
    apart, clip, close, lemma_close_add, lemma_close_div, lemma_constants, lemma_size_mul, lemma_value_add,
    lemma_value_div, lemma_value_larger, lemma_value_le, lemma_value_mul, lemma_value_part, lemma_value_quotient,
    lemma_value_root, lemma_value_whole, size,
};
use crate::float::F32;
use crate::render::curve::{curve, segments, spectrum_points, Point};
use crate::render::paint::Palette;
use crate::render::particles::room;
use crate::render::radial::{inner_points, round_line, round_points, round_value, tip, to_inner, Turn};
use crate::render::ribbon::{across, neon, neon_half_width, spectrum_line};
use crate::render::tunnel::{ring_point, ring_shape, star_room};
use crate::solid::mesh::{golden, halfway, millionth, on_right, on_sphere, Point3};
use crate::solid::view::{solid_dist, solid_focal, solid_s0};
use vstd::arithmetic::div_mod::{lemma_div_multiples_vanish, lemma_mod_multiples_basic, lemma_small_mod};
use vstd::prelude::*;

verus! {

/// The halo is a ribbon along its line, 24 thousandths to either side.
pub proof fn law_halo_follows_its_line(pts: Seq<Point>, p: Palette, closed: bool, vis: F32, k: int) -> (w: F32)
    requires
        pts.len() >= 2,
        0 <= k < pts.len() + (if closed {
            1int
        } else {
            0int
        }),
    ensures
        close(w, 24real / 1000real, 1real / 100000000real),
        ({
            let i = if k < pts.len() {
                k
            } else {
                0
            };
            let last = pts.len() - 1;
            let prev = if i > 0 {
                pts[i - 1]
            } else if closed {
                pts[last]
            } else {
                pts[0]
            };
            let next = if i < last {
                pts[i + 1]
            } else if closed {
                pts[0]
            } else {
                pts[last]
            };
            let n = across(prev, next, w);
            let a = neon(pts, p, closed, vis)[2 * k];
            let b = neon(pts, p, closed, vis)[2 * k + 1];
            &&& a.x == pts[i].0 + n.0
            &&& a.y == pts[i].1 + n.1
            &&& b.x == pts[i].0 - n.0
            &&& b.y == pts[i].1 - n.1
        }),
{
    lemma_value_quotient(24, 1000);
    neon_half_width()
}

/// A curve goes through its points.
proof fn lemma_curve_meets(pts: Seq<Point>, closed: bool, subdiv: int, i: int)
    requires
        pts.len() >= 3,
        1 <= subdiv <= 1000,
        0 <= i < segments(pts, closed),
        forall|k: int| 0 <= k < pts.len() ==> is_moderate((#[trigger] pts[k]).0) && is_moderate(pts[k].1),
    ensures
        close(curve(pts, closed, subdiv)[i * subdiv].0, pts[i].0.value(), 1real / 5000real),
        close(curve(pts, closed, subdiv)[i * subdiv].1, pts[i].1.value(), 1real / 5000real),
        curve(pts, closed, subdiv).len() == segments(pts, closed) * subdiv + if closed {
            0int
        } else {
            1int
        },
        0 <= i * subdiv < segments(pts, closed) * subdiv,
{
    let j = i * subdiv;
    let m = segments(pts, closed);
    assert(0 <= j < m * subdiv) by (nonlinear_arith)
        requires j == i * subdiv, 0 <= i < m, subdiv >= 1;
    lemma_div_multiples_vanish(i, subdiv);
    lemma_mod_multiples_basic(i, subdiv);
    assert(subdiv * i == j) by (nonlinear_arith)
        requires j == i * subdiv;
    assert(j / subdiv == i && j % subdiv == 0);
    law_curve_runs_between_its_points(pts, closed, subdiv, j);
    let n = pts.len() as int;
    lemma_small_mod(i as nat, n as nat);
    let y = subdiv as real;
    assert(0real / y == 0real) by (nonlinear_arith)
        requires y >= 1real;
    lemma_catmull_start();
}

/// At its start the polynomial is the point that it starts from.
proof fn lemma_catmull_start()
    ensures
        forall|a: real, b: real, c: real, d: real| #[trigger] catmull(a, b, c, d, 0real) == b,
{
    assert forall|a: real, b: real, c: real, d: real| #[trigger] catmull(a, b, c, d, 0real) == b by {
        let p = c - a;
        let q = 2real * a - 5real * b + 4real * c - d;
        let r = 3real * b - a - 3real * c + d;
        assert(p * 0real == 0real && q * (0real * 0real) == 0real && r * (0real * 0real * 0real) == 0real)
            by (nonlinear_arith);
    }
}

/// The line goes through the level of every band, left bands on the left and right bands
/// on the right, eight steps from each to the next.
pub proof fn law_line_goes_through_every_band(left: Seq<F32>, right: Seq<F32>, j: int)
    requires
        0 <= j < 127,
        left.len() == NUM_BANDS,
        right.len() == NUM_BANDS,
        forall|b: int| 0 <= b < NUM_BANDS ==> (#[trigger] left[b]).finite(),
        forall|b: int| 0 <= b < NUM_BANDS ==> (#[trigger] right[b]).finite(),
    ensures
        spectrum_line(left, right).len() == 127 * 8 + 1,
        ({
            let v = spectrum_line(left, right)[8 * j];
            let b = if j < 64 {
                63 - j
            } else {
                j - 64
            };
            let h = if j < 64 {
                left[b]
            } else {
                right[b]
            };
            let x = b as real / 63real;
            &&& close(
                v.0,
                if j < 64 {
                    -x
                } else {
                    x
                },
                1real / 4000real,
            )
            &&& close(v.1, -1real + 2real * clip(h.value(), 0real, 1real), 1real / 4000real)
        }),
{
    let pts = spectrum_points(left, right);
    assert forall|k: int| 0 <= k < pts.len() implies is_moderate((#[trigger] pts[k]).0) && is_moderate(pts[k].1) by {
        law_line_shows_the_spectrum(left, right, k);
    }
    law_line_shows_the_spectrum(left, right, j);
    lemma_curve_meets(pts, false, 8, j);
    assert(j * 8 == 8 * j);
}

/// The points of the round line stand at the tips of the levels.
pub proof fn law_round_points_are_tips(left: Seq<F32>, right: Seq<F32>, turns: Seq<Turn>, inv_aspect: F32, j: int)
    requires
        0 <= j < 128,
        left.len() == NUM_BANDS,
        right.len() == NUM_BANDS,
        round_value(left, right, j).finite(),
        is_turn(turns[j]),
        inv_aspect.finite(),
        0real <= inv_aspect.value() <= 4real,
    ensures
        round_points(left, right, turns, inv_aspect).len() == 128,
        ({
            let q = round_points(left, right, turns, inv_aspect)[j];
            let h = if j < 64 {
                right[j]
            } else {
                left[127 - j]
            };
            let r = 28real / 100real + clip(h.value(), 0real, 1real) * (62real / 100real);
            &&& close(q.0, turns[j].cos.value() * r * inv_aspect.value(), 1real / 20000real)
            &&& close(q.1, turns[j].sin.value() * r, 1real / 100000real)
            &&& size(turns[j].cos.value() * r * inv_aspect.value()) <= 37real / 10real
            &&& size(turns[j].sin.value() * r) <= 1real
        }),
{
    let h = round_value(left, right, j);
    law_tip_is_the_level(h);
    let r = 28real / 100real + clip(h.value(), 0real, 1real) * (62real / 100real);
    law_polar_point(turns[j], tip(h), r, inv_aspect);
    lemma_size_mul(turns[j].cos.value(), r, 1real, 9real / 10real);
    lemma_size_mul(turns[j].sin.value(), r, 1real, 9real / 10real);
    lemma_size_mul(turns[j].cos.value() * r, inv_aspect.value(), 9real / 10real, 4real);
}

/// The round line goes through the tip of every band of both channels, eight steps from
/// each to the next, and back to where it starts; its base goes round the inner ring.
pub proof fn law_round_line_goes_through_every_band(
    left: Seq<F32>,
    right: Seq<F32>,
    turns: Seq<Turn>,
    inv_aspect: F32,
    j: int,
)
    requires
        0 <= j < 128,
        left.len() == NUM_BANDS,
        right.len() == NUM_BANDS,
        forall|b: int| 0 <= b < NUM_BANDS ==> (#[trigger] left[b]).finite(),
        forall|b: int| 0 <= b < NUM_BANDS ==> (#[trigger] right[b]).finite(),
        forall|k: int| 0 <= k < 128 ==> is_turn(#[trigger] turns[k]),
        inv_aspect.finite(),
        0real <= inv_aspect.value() <= 4real,
    ensures
        round_line(left, right, turns, inv_aspect).len() == 128 * 8,
        ({
            let v = round_line(left, right, turns, inv_aspect)[8 * j];
            let h = if j < 64 {
                right[j]
            } else {
                left[127 - j]
            };
            let r = 28real / 100real + clip(h.value(), 0real, 1real) * (62real / 100real);
            &&& close(v.0, turns[j].cos.value() * r * inv_aspect.value(), 1real / 3000real)
            &&& close(v.1, turns[j].sin.value() * r, 1real / 4000real)
        }),
        inner_points(round_line(left, right, turns, inv_aspect), inv_aspect).len() == 128 * 8,
        inner_points(round_line(left, right, turns, inv_aspect), inv_aspect)[8 * j] == to_inner(
            round_line(left, right, turns, inv_aspect)[8 * j],
            inv_aspect,
        ),
{
    let pts = round_points(left, right, turns, inv_aspect);
    assert forall|k: int| 0 <= k < pts.len() implies is_moderate((#[trigger] pts[k]).0) && is_moderate(pts[k].1) by {
        assert(is_turn(turns[k]));
        law_round_points_are_tips(left, right, turns, inv_aspect, k);
    }
    assert(is_turn(turns[j]));
    law_round_points_are_tips(left, right, turns, inv_aspect, j);
    lemma_curve_meets(pts, true, 8, j);
    assert(j * 8 == 8 * j);
}

/// The shape of a ring goes through its points, four steps from each to the next, and
/// back to where it starts.
pub proof fn law_ring_goes_through_its_points(left: Seq<F32>, right: Seq<F32>, turns: Seq<Turn>, j: int)
    requires
        0 <= j < 64,
        left.len() == 64,
        right.len() == 64,
        forall|b: int| 0 <= b < 64 ==> is_part(#[trigger] left[b]),
        forall|b: int| 0 <= b < 64 ==> is_part(#[trigger] right[b]),
        forall|k: int| 0 <= k < 64 ==> is_turn(#[trigger] turns[k]),
    ensures
        ring_shape(left, right, turns).len() == 64 * 4,
        ({
            let v = ring_shape(left, right, turns)[4 * j];
            let h = if j < 32 {
                right[2 * j]
            } else {
                left[126 - 2 * j]
            };
            let r = 72real / 100real + h.value() * (55real / 100real);
            &&& close(v.0, turns[j].cos.value() * r, 1real / 4000real)
            &&& close(v.1, turns[j].sin.value() * r, 1real / 4000real)
        }),
{
    let pts = Seq::new(64, |k: int| ring_point(left, right, turns, k));
    assert forall|k: int| 0 <= k < pts.len() implies is_moderate((#[trigger] pts[k]).0) && is_moderate(pts[k].1) by {
        assert(is_turn(turns[k]));
        law_ring_shape_follows_the_spectrum(left, right, turns, k);
        lemma_ring_reach(left, right, turns, k);
    }
    assert(is_turn(turns[j]));
    law_ring_shape_follows_the_spectrum(left, right, turns, j);
    lemma_curve_meets(pts, true, 4, j);
    assert(j * 4 == 4 * j);
}

/// The points of a ring are near.
proof fn lemma_ring_reach(left: Seq<F32>, right: Seq<F32>, turns: Seq<Turn>, k: int)
    requires
        0 <= k < 64,
        left.len() == 64,
        right.len() == 64,
        forall|b: int| 0 <= b < 64 ==> is_part(#[trigger] left[b]),
        forall|b: int| 0 <= b < 64 ==> is_part(#[trigger] right[b]),
        is_turn(turns[k]),
    ensures
        ({
            let h = if k < 32 {
                right[2 * k]
            } else {
                left[126 - 2 * k]
            };
            let r = 72real / 100real + h.value() * (55real / 100real);
            size(turns[k].cos.value() * r) <= 2real && size(turns[k].sin.value() * r) <= 2real
        }),
{
    let h = if k < 32 {
        right[2 * k]
    } else {
        left[126 - 2 * k]
    };
    assert(is_part(h));
    lemma_value_part(h);
    let r = 72real / 100real + h.value() * (55real / 100real);
    lemma_size_mul(turns[k].cos.value(), r, 1real, 2real);
    lemma_size_mul(turns[k].sin.value(), r, 1real, 2real);
}

/// There is room for 2200 particles and for 700 stars in all.
pub proof fn law_room_is_what_is_left(n: int)
    requires
        0 <= n,
    ensures
        n <= 2200 ==> room(n) + n == 2200,
        n > 2200 ==> room(n) == 0,
        n <= 700 ==> star_room(n) + n == 700,
        n > 700 ==> star_room(n) == 0,
{
}

/// A vertex is on the right where its coordinate is not below zero.
pub proof fn law_sides_are_told_by_the_coordinate(p: Point3)
    requires
        !p.x.nan(),
    ensures
        on_right(p) <==> p.x.value() >= 0real,
{
    lemma_constants();
    lemma_value_le(F32::nought(), p.x);
}

/// A point is moved to the sphere along its ray: its coordinates are divided by its
/// distance.
pub proof fn law_points_stay_on_their_ray(p: Point3) -> (len: real)
    requires
        p.x.finite() && p.y.finite() && p.z.finite(),
        size(p.x.value()) <= 2real && size(p.y.value()) <= 2real && size(p.z.value()) <= 2real,
        p.x.value() * p.x.value() + p.y.value() * p.y.value() + p.z.value() * p.z.value() >= 1real / 100real,
    ensures
        ({
            let w = p.x.value() * p.x.value() + p.y.value() * p.y.value() + p.z.value() * p.z.value();
            let q = on_sphere(p);
            let e = 1real / 100000real;
            &&& len >= 9real / 100real
            &&& apart(len * len, w) <= w / 1000real
            &&& close(q.x, p.x.value() / len, e)
            &&& close(q.y, p.y.value() / len, e)
            &&& close(q.z, p.z.value() / len, e)
        }),
{
    let (x, y, z) = (p.x.value(), p.y.value(), p.z.value());
    lemma_squared(p.x);
    lemma_squared(p.y);
    lemma_squared(p.z);
    let f = 1real / 1000000real;
    lemma_close_add(p.x * p.x, p.y * p.y, x * x, y * y, f, f);
    lemma_close_add(p.x * p.x + p.y * p.y, p.z * p.z, x * x + y * y, z * z, 3real * f, f);
    let q = p.x * p.x + p.y * p.y + p.z * p.z;
    lemma_value_root(q);
    let r = q.root();
    let len = r.value();
    assert(9real / 100real <= len <= 4real) by (nonlinear_arith)
        requires len > 0real, 81real / 10000real <= len * len <= 16real;
    lemma_value_quotient(1, 1_000_000);
    lemma_value_larger(r, millionth());
    lemma_along(p.x, r);
    lemma_along(p.y, r);
    lemma_along(p.z, r);
    len
}

/// A square.
proof fn lemma_squared(x: F32)
    requires
        x.finite(),
        size(x.value()) <= 2real,
    ensures
        close(x * x, x.value() * x.value(), 1real / 1000000real),
        0real <= x.value() * x.value() <= 4real,
{
    let v = x.value();
    assert(0real <= v * v <= 4real) by (nonlinear_arith)
        requires -2real <= v <= 2real;
    lemma_value_mul(x, x);
}

/// A coordinate by the distance.
proof fn lemma_along(x: F32, r: F32)
    requires
        x.finite(),
        size(x.value()) <= 2real,
        r.finite(),
        9real / 100real <= r.value() <= 4real,
    ensures
        close(x / r, x.value() / r.value(), 1real / 100000real),
{
    let (u, v) = (x.value(), r.value());
    assert(-23real <= u / v <= 23real) by (nonlinear_arith)
        requires -2real <= u <= 2real, v >= 9real / 100real;
    lemma_value_div(x, r);
}

/// The vertex between two others is on the ray of their middle.
pub proof fn law_new_vertices_are_halfway(a: Point3, b: Point3) -> (m: Point3)
    requires
        a.x.finite() && a.y.finite() && a.z.finite(),
        b.x.finite() && b.y.finite() && b.z.finite(),
        size(a.x.value()) <= 2real && size(a.y.value()) <= 2real && size(a.z.value()) <= 2real,
        size(b.x.value()) <= 2real && size(b.y.value()) <= 2real && size(b.z.value()) <= 2real,
    ensures
        halfway(a, b) == on_sphere(m),
        close(m.x, (a.x.value() + b.x.value()) / 2real, 1real / 1000000real),
        close(m.y, (a.y.value() + b.y.value()) / 2real, 1real / 1000000real),
        close(m.z, (a.z.value() + b.z.value()) / 2real, 1real / 1000000real),
{
    lemma_middle(a.x, b.x);
    lemma_middle(a.y, b.y);
    lemma_middle(a.z, b.z);
    Point3 {
        x: (a.x + b.x) * F32::half_unit(),
        y: (a.y + b.y) * F32::half_unit(),
        z: (a.z + b.z) * F32::half_unit(),
    }
}

/// The middle of two coordinates.
proof fn lemma_middle(a: F32, b: F32)
    requires
        a.finite(),
        b.finite(),
        size(a.value()) <= 2real,
        size(b.value()) <= 2real,
    ensures
        close((a + b) * F32::half_unit(), (a.value() + b.value()) / 2real, 1real / 1000000real),
{
    lemma_constants();
    lemma_value_add(a, b);
    let s = a + b;
    assert(s.value() * F32::half_unit().value() == s.value() / 2real) by (nonlinear_arith)
        requires F32::half_unit().value() == 1real / 2real;
    lemma_value_mul(s, F32::half_unit());
}

/// The golden ratio is one more than its own inverse: its square is itself and one.
pub proof fn law_golden_ratio_is_golden()
    ensures
        golden().finite(),
        golden().value() > 0real,
        apart(golden().value() * golden().value(), golden().value() + 1real) <= 1real / 100000real,
{
    lemma_constants();
    lemma_value_whole(5);
    lemma_value_whole(2);
    let r = F32::whole(5).root();
    lemma_value_root(F32::whole(5));
    let v = r.value();
    assert(2real <= v <= 3real) by (nonlinear_arith)
        requires v > 0real, 4real <= v * v <= 9real;
    lemma_value_add(F32::unit(), r);
    let s = F32::unit() + r;
    lemma_value_div(s, F32::whole(2));
    let u = (1real + v) / 2real;
    let g = golden().value();
    let h = g - u;
    assert(size(h) <= 1real / 1000000real);
    assert(u * u == (1real + 2real * v + v * v) / 4real) by (nonlinear_arith)
        requires u == (1real + v) / 2real;
    lemma_size_mul(h, g + u, 1real / 1000000real, 5real);
    assert(g * g - u * u == h * (g + u)) by (nonlinear_arith)
        requires h == g - u;
}

/// At rest the perspective at the centre is the focal length by the distance.
pub proof fn law_rest_is_focal_length_by_distance()
    ensures
        close(solid_s0(), 22real / 34real, 1real / 5000000real),
{
    lemma_value_quotient(22, 10);
    lemma_value_quotient(34, 10);
    lemma_close_div(
        solid_focal(),
        solid_dist(),
        22real / 10real,
        34real / 10real,
        2real / 10000000real,
        3real / 10000000real,
        7real / 10real,
        34real / 10real,
    );
}

} // verus!
