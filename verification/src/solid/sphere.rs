//! The solid is round: every vertex lies on the sphere, however often its faces are
//! divided.

use super::base::base_face;
use super::edges::{edge_at, edges_of, lemma_edges_upto, mids, place};
use super::length::{
    dot, has_unit_length, lemma_dot_commutes, lemma_moved_to_sphere, lemma_near_middle, lemma_near_middles, near,
};
use super::mesh::{base_corner, golden, halfway, law_sphere_counts, Surface};
use super::topology::{after, child, corner, edge, is_side, lemma_child_sides, middle, side};
use crate::float::error::{lemma_add_error, lemma_div_error, lemma_root_error, lemma_slack, lemma_times_bound, slack};
use crate::float::laws::{lemma_neg, lemma_one, lemma_whole, one_units};
use crate::float::round::distance;
use crate::float::F32;
use vstd::prelude::*;

verus! {

/// Whether every vertex of a surface lies on the sphere, and every side joins two that
/// are near.
pub open spec fn is_round(s: Surface) -> bool {
    &&& forall|i: int| 0 <= i < s.verts.len() ==> has_unit_length(#[trigger] s.verts[i])
    &&& forall|f: int, r: int|
        is_side(s.faces, f, r) ==> near(
            s.verts[(#[trigger] side(s.faces[f], r)).0],
            s.verts[side(s.faces[f], r).1],
        )
}

/// The golden ratio lies between 1.59 and 1.63.
proof fn lemma_golden()
    ensures
        golden().finite(),
        159 * one_units() <= 100 * golden().units() <= 163 * one_units(),
{
    lemma_one();
    lemma_slack();
    lemma_whole(2);
    lemma_whole(5);
    let w = one_units();
    let k = slack();
    let five = F32::whole(5);
    lemma_root_error(five);
    let s = five.root().units();
    assert(w * w == 0x80_0000 * (k * w) && k * w > 0 && (5 * w) * w == 5 * (w * w)) by (nonlinear_arith)
        requires w == 0x80_0000 * k, k > 0;
    assert(22 * w <= 10 * s && 100 * s <= 225 * w) by (nonlinear_arith)
        requires 100 * (s * s) >= 484 * (w * w), 10000 * (s * s) <= 50625 * (w * w), s >= 0, w > 0;
    lemma_add_error(F32::unit(), five.root());
    let t = F32::unit() + five.root();
    let u = t.units();
    assert(-(4 * w * (2 * w)) < u * w < 4 * w * (2 * w)) by (nonlinear_arith)
        requires -(4 * w) < u < 4 * w, w > 0;
    lemma_div_error(t, F32::whole(2));
    let g = golden().units();
    let x = 2 * g - u;
    assert(x * w == g * (2 * w) - u * w && k * (2 * w) == (2 * k) * w) by (nonlinear_arith)
        requires x == 2 * g - u;
    lemma_times_bound(x, 2 * k, w);
}

/// The coordinates of a corner of the icosahedron that are one or minus one.
spec fn ones(i: int) -> (int, int, int) {
    if i == 0 {
        (-1, 0, 0)
    } else if i == 1 {
        (1, 0, 0)
    } else if i == 2 {
        (-1, 0, 0)
    } else if i == 3 {
        (1, 0, 0)
    } else if i == 4 {
        (0, -1, 0)
    } else if i == 5 {
        (0, 1, 0)
    } else if i == 6 {
        (0, -1, 0)
    } else if i == 7 {
        (0, 1, 0)
    } else if i == 8 {
        (0, 0, -1)
    } else if i == 9 {
        (0, 0, 1)
    } else if i == 10 {
        (0, 0, -1)
    } else {
        (0, 0, 1)
    }
}

/// The coordinates of a corner of the icosahedron that are the golden ratio, or minus it.
spec fn golds(i: int) -> (int, int, int) {
    if i == 0 {
        (0, 1, 0)
    } else if i == 1 {
        (0, 1, 0)
    } else if i == 2 {
        (0, -1, 0)
    } else if i == 3 {
        (0, -1, 0)
    } else if i == 4 {
        (0, 0, 1)
    } else if i == 5 {
        (0, 0, 1)
    } else if i == 6 {
        (0, 0, -1)
    } else if i == 7 {
        (0, 0, -1)
    } else if i == 8 {
        (1, 0, 0)
    } else if i == 9 {
        (1, 0, 0)
    } else if i == 10 {
        (-1, 0, 0)
    } else {
        (-1, 0, 0)
    }
}

/// A coordinate made of ones and golden ratios.
spec fn mixture(a: int, b: int) -> int {
    a * one_units() + b * golden().units()
}

/// The coordinates of a corner of the icosahedron.
proof fn lemma_corner(i: int)
    requires
        0 <= i < 12,
    ensures
        base_corner(i).x.finite(),
        base_corner(i).y.finite(),
        base_corner(i).z.finite(),
        base_corner(i).x.units() == mixture(ones(i).0, golds(i).0),
        base_corner(i).y.units() == mixture(ones(i).1, golds(i).1),
        base_corner(i).z.units() == mixture(ones(i).2, golds(i).2),
{
    lemma_one();
    lemma_golden();
    lemma_neg(F32::unit());
    lemma_neg(golden());
    let (a, b) = (ones(i), golds(i));
    lemma_signed_multiple(a.0, one_units());
    lemma_signed_multiple(a.1, one_units());
    lemma_signed_multiple(a.2, one_units());
    lemma_signed_multiple(b.0, golden().units());
    lemma_signed_multiple(b.1, golden().units());
    lemma_signed_multiple(b.2, golden().units());
}

/// What a sign makes of a number.
proof fn lemma_signed_multiple(a: int, x: int)
    requires
        is_sign(a),
    ensures
        a == 0 ==> a * x == 0,
        a == 1 ==> a * x == x,
        a == -1 ==> a * x == -x,
{
    assert((a == 0 ==> a * x == 0) && (a == 1 ==> a * x == x) && (a == -1 ==> a * x == -x)) by (nonlinear_arith);
}

/// The product of two signs, either of which may be zero.
spec fn times(a: int, b: int) -> int {
    if a == 0 || b == 0 {
        0
    } else if a == b {
        1
    } else {
        -1
    }
}

/// A sign, or zero.
spec fn is_sign(a: int) -> bool {
    a == 0 || a == 1 || a == -1
}

/// The product of two coordinates made of ones and golden ratios.
proof fn lemma_mixtures(a: int, b: int, c: int, d: int)
    requires
        is_sign(a),
        is_sign(b),
        is_sign(c),
        is_sign(d),
    ensures
        mixture(a, b) * mixture(c, d) == times(a, c) * (one_units() * one_units()) + (times(a, d) + times(b, c)) * (
        one_units() * golden().units()) + times(b, d) * (golden().units() * golden().units()),
{
    let w = one_units();
    let g = golden().units();
    lemma_expansion(a, b, c, d, w, g);
    assert(a * c == times(a, c) && a * d == times(a, d) && b * c == times(b, c) && b * d == times(b, d))
        by (nonlinear_arith)
        requires is_sign(a), is_sign(b), is_sign(c), is_sign(d);
}

/// The product of two sums.
proof fn lemma_expansion(a: int, b: int, c: int, d: int, w: int, g: int)
    ensures
        (a * w + b * g) * (c * w + d * g) == (a * c) * (w * w) + (a * d + b * c) * (w * g) + (b * d) * (g * g),
{
    let (p, q, r, s) = (a * w, b * g, c * w, d * g);
    assert((p + q) * (r + s) == p * r + p * s + q * r + q * s) by (nonlinear_arith);
    assert((a * w) * (c * w) == (a * c) * (w * w)) by (nonlinear_arith);
    assert((a * w) * (d * g) == (a * d) * (w * g)) by (nonlinear_arith);
    assert((b * g) * (c * w) == (b * c) * (w * g)) by (nonlinear_arith);
    assert((b * g) * (d * g) == (b * d) * (g * g)) by (nonlinear_arith);
    assert((a * d + b * c) * (w * g) == (a * d) * (w * g) + (b * c) * (w * g)) by (nonlinear_arith);
}

/// How many squares of one, products and squares of the golden ratio the product of two
/// corners is made of.
spec fn terms(i: int, j: int) -> (int, int, int) {
    let (a, b) = (ones(i), golds(i));
    let (c, d) = (ones(j), golds(j));
    (
        times(a.0, c.0) + times(a.1, c.1) + times(a.2, c.2),
        times(a.0, d.0) + times(b.0, c.0) + times(a.1, d.1) + times(b.1, c.1) + times(a.2, d.2) + times(b.2, c.2),
        times(b.0, d.0) + times(b.1, d.1) + times(b.2, d.2),
    )
}

/// The product of two corners of the icosahedron.
proof fn lemma_corner_product(i: int, j: int)
    requires
        0 <= i < 12,
        0 <= j < 12,
    ensures
        dot(base_corner(i), base_corner(j)) == terms(i, j).0 * (one_units() * one_units()) + terms(i, j).1 * (
        one_units() * golden().units()) + terms(i, j).2 * (golden().units() * golden().units()),
{
    lemma_corner(i);
    lemma_corner(j);
    let (a, b) = (ones(i), golds(i));
    let (c, d) = (ones(j), golds(j));
    lemma_mixtures(a.0, b.0, c.0, d.0);
    lemma_mixtures(a.1, b.1, c.1, d.1);
    lemma_mixtures(a.2, b.2, c.2, d.2);
    let x = one_units() * one_units();
    let y = one_units() * golden().units();
    let z = golden().units() * golden().units();
    lemma_three(times(a.0, c.0), times(a.1, c.1), times(a.2, c.2), x);
    lemma_three(
        times(a.0, d.0) + times(b.0, c.0),
        times(a.1, d.1) + times(b.1, c.1),
        times(a.2, d.2) + times(b.2, c.2),
        y,
    );
    lemma_three(times(b.0, d.0), times(b.1, d.1), times(b.2, d.2), z);
}

/// Three multiples together.
proof fn lemma_three(a: int, b: int, c: int, x: int)
    ensures
        (a + b + c) * x == a * x + b * x + c * x,
{
    assert((a + b + c) * x == a * x + b * x + c * x) by (nonlinear_arith);
}

/// What the products of the corners of the icosahedron are made of: those of a corner
/// with itself, and those of the two ends of a side.
proof fn lemma_terms(f: int, r: int)
    requires
        0 <= f < 20,
        0 <= r < 3,
    ensures
        ({
            let s = side(base_face(f), r);
            &&& 0 <= s.0 < 12
            &&& 0 <= s.1 < 12
            &&& terms(s.0, s.1) == (-1int, 0int, 1int) || terms(s.0, s.1) == (0int, 1int, 0int)
        }),
{
}

/// The icosahedron is round.
proof fn lemma_base_is_round()
    ensures
        is_round(Surface::base()),
{
    lemma_one();
    lemma_golden();
    let s = Surface::base();
    let w = one_units();
    let g = golden().units();
    assert(100 * (w * g) >= 159 * (w * w) && 10000 * (g * g) >= 25281 * (w * w) && 10000 * (g * g) <= 26569 * (w * w)
        && w * w > 0) by (nonlinear_arith)
        requires 159 * w <= 100 * g <= 163 * w, w > 0;
    assert forall|i: int| 0 <= i < 12 implies {
        &&& #[trigger] dot(base_corner(i), base_corner(i)) == w * w + g * g
        &&& base_corner(i).x.finite()
        &&& base_corner(i).y.finite()
        &&& base_corner(i).z.finite()
    } by {
        lemma_corner(i);
        lemma_corner_product(i, i);
        assert(terms(i, i) == (1int, 0int, 1int));
        lemma_signed_multiple(terms(i, i).0, w * w);
        lemma_signed_multiple(terms(i, i).1, w * g);
        lemma_signed_multiple(terms(i, i).2, g * g);
    }
    assert forall|i: int| 0 <= i < s.verts.len() implies has_unit_length(#[trigger] s.verts[i]) by {
        assert(dot(base_corner(i), base_corner(i)) == w * w + g * g);
        lemma_moved_to_sphere(base_corner(i), base_corner(i));
    }
    assert forall|f: int, r: int| is_side(s.faces, f, r) implies near(
        s.verts[(#[trigger] side(s.faces[f], r)).0],
        s.verts[side(s.faces[f], r).1],
    ) by {
        let e = side(base_face(f), r);
        lemma_terms(f, r);
        lemma_corner_product(e.0, e.1);
        lemma_signed_multiple(terms(e.0, e.1).0, w * w);
        lemma_signed_multiple(terms(e.0, e.1).1, w * g);
        lemma_signed_multiple(terms(e.0, e.1).2, g * g);
        assert(dot(base_corner(e.0), base_corner(e.0)) == w * w + g * g);
        assert(dot(base_corner(e.1), base_corner(e.1)) == w * w + g * g);
        lemma_moved_to_sphere(base_corner(e.0), base_corner(e.1));
    }
}

/// The middle of a side of a round surface lies on the sphere, near to both ends.
proof fn lemma_middle(s: Surface, f: int, r: int)
    requires
        s.closed(),
        is_round(s),
        is_side(s.faces, f, r),
    ensures
        ({
            let a = s.verts[corner(s.faces[f], r)];
            let b = s.verts[corner(s.faces[f], after(r))];
            let m = middle(s.faces[f], mids(edges_of(s.faces), s.verts.len() as int), r);
            &&& has_unit_length(a)
            &&& has_unit_length(b)
            &&& near(a, b)
            &&& near(b, a)
            &&& s.refined().verts[m] == halfway(a, b)
            &&& halfway(a, b) == halfway(b, a)
            &&& has_unit_length(halfway(a, b))
            &&& near(a, halfway(a, b))
            &&& near(halfway(a, b), b)
        }),
{
    let t = s.faces[f];
    let n = s.verts.len() as int;
    let edges = edges_of(s.faces);
    let h = 3 * f + r;
    assert(h / 3 == f && h % 3 == r);
    lemma_edges_upto(s.faces, 3 * s.faces.len() as int);
    assert(edges.contains(edge_at(s.faces, h)));
    let e = edge(side(t, r));
    let i = place(edges, e);
    assert(0 <= i < edges.len() && edges[i] == e);
    assert(is_side(s.faces, f, after(r)));
    assert(0 <= corner(t, r) < n && 0 <= corner(t, after(r)) < n);
    let a = s.verts[side(t, r).0];
    let b = s.verts[side(t, r).1];
    assert(has_unit_length(a) && has_unit_length(b));
    assert(near(a, b));
    lemma_near_middle(a, b);
    lemma_dot_commutes(a, b);
    lemma_dot_commutes(b, halfway(a, b));
}

/// A round surface stays round when its faces are divided.
proof fn lemma_refined_is_round(s: Surface)
    requires
        s.closed(),
        is_round(s),
    ensures
        is_round(s.refined()),
{
    let n = s.verts.len() as int;
    let edges = edges_of(s.faces);
    let mid = mids(edges, n);
    let next = s.refined();
    lemma_edges_upto(s.faces, 3 * s.faces.len() as int);
    assert forall|i: int| 0 <= i < next.verts.len() implies has_unit_length(#[trigger] next.verts[i]) by {
        if i < n {
            assert(next.verts[i] == s.verts[i]);
        } else {
            let e = edges[i - n];
            assert(edges.contains(e));
            let h = choose|h: int| 0 <= h < 3 * s.faces.len() && #[trigger] edge_at(s.faces, h) == e;
            assert(is_side(s.faces, h / 3, h % 3));
            lemma_middle(s, h / 3, h % 3);
            assert(next.verts[i] == halfway(s.verts[e.0], s.verts[e.1]));
        }
    }
    assert forall|g: int, r: int| is_side(next.faces, g, r) implies near(
        next.verts[(#[trigger] side(next.faces[g], r)).0],
        next.verts[side(next.faces[g], r).1],
    ) by {
        let f = g / 4;
        let k = g % 4;
        let t = s.faces[f];
        assert(next.faces[g] == child(t, mid, k));
        lemma_child_sides(t, mid, k, r);
        let c = if k < 3 {
            k
        } else {
            r
        };
        assert(is_side(s.faces, f, c) && is_side(s.faces, f, after(c)) && is_side(s.faces, f, after(after(c))));
        assert(after(after(after(c))) == c);
        lemma_middle(s, f, c);
        lemma_middle(s, f, after(c));
        lemma_middle(s, f, after(after(c)));
        assert(0 <= corner(t, c) < n);
        assert(next.verts[corner(t, c)] == s.verts[corner(t, c)]);
        let x = s.verts[corner(t, c)];
        let y = s.verts[corner(t, after(c))];
        let z = s.verts[corner(t, after(after(c)))];
        lemma_near_middles(y, x, z);
        lemma_near_middles(x, y, z);
    }
}

/// The solid is round: however often the icosahedron is divided, every vertex lies at
/// distance one from the origin, but for rounding.
pub proof fn law_sphere_is_round(n: nat)
    ensures
        forall|i: int|
            0 <= i < Surface::sphere(n).verts.len() ==> has_unit_length(#[trigger] Surface::sphere(n).verts[i]),
        is_round(Surface::sphere(n)),
    decreases n,
{
    if n == 0 {
        lemma_base_is_round();
    } else {
        let before = (n - 1) as nat;
        law_sphere_is_round(before);
        law_sphere_counts(before);
        lemma_refined_is_round(Surface::sphere(before));
    }
}

} // verus!
