//! Closed surfaces made of triangles, and their subdivision.

use vstd::prelude::*;

verus! {

/// A triangle: the indices of its corners, in order around it.
pub type Tri = (int, int, int);

/// Corner `r` of a triangle.
pub open spec fn corner(t: Tri, r: int) -> int {
    if r == 0 {
        t.0
    } else if r == 1 {
        t.1
    } else {
        t.2
    }
}

/// The corner after `r`.
pub open spec fn after(r: int) -> int {
    if r == 2 {
        0
    } else {
        r + 1
    }
}

/// Side `r` of a triangle, from corner `r` to the next.
pub open spec fn side(t: Tri, r: int) -> (int, int) {
    (corner(t, r), corner(t, after(r)))
}

/// A side without direction: the smaller index first.
pub open spec fn edge(s: (int, int)) -> (int, int) {
    if s.0 <= s.1 {
        s
    } else {
        (s.1, s.0)
    }
}

/// Whether every corner of `b` is a corner of `a`.
pub open spec fn covers(a: Tri, b: Tri) -> bool {
    forall|r: int| 0 <= r < 3 ==> has_corner(a, #[trigger] corner(b, r))
}

pub open spec fn has_corner(a: Tri, x: int) -> bool {
    a.0 == x || a.1 == x || a.2 == x
}

/// A face index and a side number of it.
pub open spec fn is_side(faces: Seq<Tri>, f: int, r: int) -> bool {
    0 <= f < faces.len() && 0 <= r < 3
}

/// Whether faces over `n` vertices form a closed surface: every side joins two
/// different vertices, no two faces have a side in the same direction, every side
/// is the side of another face in the opposite direction, and no two faces have
/// the same corners.
pub open spec fn closed_surface(faces: Seq<Tri>, n: int) -> bool {
    &&& forall|f: int, r: int|
        is_side(faces, f, r) ==> 0 <= #[trigger] corner(faces[f], r) < n
    &&& forall|f: int, r: int|
        is_side(faces, f, r) ==> (#[trigger] side(faces[f], r)).0 != side(faces[f], r).1
    &&& forall|f: int, r: int, g: int, s: int|
        is_side(faces, f, r) && is_side(faces, g, s) && #[trigger] side(faces[f], r) == #[trigger] side(
            faces[g],
            s,
        ) ==> f == g && r == s
    &&& forall|f: int, r: int| is_side(faces, f, r) ==> has_twin(faces, #[trigger] side(faces[f], r))
    &&& forall|f: int, g: int|
        0 <= f < faces.len() && 0 <= g < faces.len() && f != g ==> !covers(
            #[trigger] faces[f],
            #[trigger] faces[g],
        )
}

/// Whether some face has this side in the opposite direction.
pub open spec fn has_twin(faces: Seq<Tri>, s: (int, int)) -> bool {
    exists|g: int, k: int| is_side(faces, g, k) && #[trigger] side(faces[g], k) == (s.1, s.0)
}

/// The vertex in the middle of side `r`.
pub open spec fn middle(t: Tri, mid: Map<(int, int), int>, r: int) -> int {
    mid[edge(side(t, r))]
}

/// One of the four triangles that a triangle is divided into: three at its corners,
/// and the one in the middle.
pub open spec fn child(t: Tri, mid: Map<(int, int), int>, k: int) -> Tri {
    if k == 0 {
        (t.0, middle(t, mid, 0), middle(t, mid, 2))
    } else if k == 1 {
        (t.1, middle(t, mid, 1), middle(t, mid, 0))
    } else if k == 2 {
        (t.2, middle(t, mid, 2), middle(t, mid, 1))
    } else {
        (middle(t, mid, 0), middle(t, mid, 1), middle(t, mid, 2))
    }
}

/// All faces divided, in order.
pub open spec fn divided(faces: Seq<Tri>, mid: Map<(int, int), int>) -> Seq<Tri> {
    Seq::new(4 * faces.len(), |i: int| child(faces[i / 4], mid, i % 4))
}

/// Whether `mid` gives every edge a vertex of its own, numbered from `n` up to `m`.
pub open spec fn middles(faces: Seq<Tri>, mid: Map<(int, int), int>, n: int, m: int) -> bool {
    &&& forall|f: int, r: int|
        is_side(faces, f, r) ==> mid.contains_key(edge(#[trigger] side(faces[f], r)))
    &&& forall|e: (int, int)| #[trigger] mid.contains_key(e) ==> n <= mid[e] < m
    &&& forall|d: (int, int), e: (int, int)|
        mid.contains_key(d) && mid.contains_key(e) && #[trigger] mid[d] == #[trigger] mid[e] ==> d == e
}

/// What kind of side a divided face has: from an old corner to a middle, from a
/// middle to an old corner, or from middle to middle.
pub proof fn lemma_child_sides(t: Tri, mid: Map<(int, int), int>, k: int, r: int)
    requires
        0 <= k < 4,
        0 <= r < 3,
    ensures
        k < 3 && r == 0 ==> side(child(t, mid, k), r) == (corner(t, k), middle(t, mid, k)),
        k < 3 && r == 1 ==> side(child(t, mid, k), r) == (middle(t, mid, k), middle(t, mid, after(after(k)))),
        k < 3 && r == 2 ==> side(child(t, mid, k), r) == (middle(t, mid, after(after(k))), corner(t, k)),
        k == 3 ==> side(child(t, mid, k), r) == (middle(t, mid, r), middle(t, mid, after(r))),
{
}

/// Two edges of a triangle tell its three corners.
proof fn lemma_two_edges_cover(a: Tri, b: Tri, r: int, s: int, p: int, q: int)
    requires
        0 <= r < 3,
        0 <= s < 3,
        0 <= p < 3,
        0 <= q < 3,
        r != s,
        p != q,
        edge(side(a, r)) == edge(side(b, p)),
        edge(side(a, s)) == edge(side(b, q)),
        b.0 != b.1,
        b.1 != b.2,
        b.2 != b.0,
    ensures
        covers(a, b),
{
    assert(forall|x: int| #[trigger] has_corner(a, x) <==> (a.0 == x || a.1 == x || a.2 == x));
    assert forall|i: int| 0 <= i < 3 implies has_corner(a, #[trigger] corner(b, i)) by {
        assert(i == p || i == after(p) || i == q || i == after(q));
    }
}

/// A divided closed surface is a closed surface.
pub proof fn law_divided_stays_closed(faces: Seq<Tri>, mid: Map<(int, int), int>, n: int, m: int)
    requires
        closed_surface(faces, n),
        middles(faces, mid, n, m),
        n <= m,
    ensures
        closed_surface(divided(faces, mid), m),
{
    let d = divided(faces, mid);
    assert(d.len() == 4 * faces.len());
    assert forall|f: int, r: int| is_side(d, f, r) implies 0 <= #[trigger] corner(d[f], r) < m by {
        lemma_parent(faces, mid, n, m, f);
    }
    assert forall|f: int, r: int| is_side(d, f, r) implies (#[trigger] side(d[f], r)).0 != side(d[f], r).1 by {
        lemma_parent(faces, mid, n, m, f);
        lemma_child_sides(faces[f / 4], mid, f % 4, r);
        lemma_middles_differ(faces, mid, n, m, f / 4);
    }
    assert forall|f: int, r: int, g: int, s: int|
        is_side(d, f, r) && is_side(d, g, s) && #[trigger] side(d[f], r) == #[trigger] side(d[g], s) implies f == g
        && r == s by {
        lemma_sides_once(faces, mid, n, m, f, r, g, s);
    }
    assert forall|f: int, r: int| is_side(d, f, r) implies has_twin(d, #[trigger] side(d[f], r)) by {
        lemma_twins(faces, mid, n, m, f, r);
    }
    assert forall|f: int, g: int| 0 <= f < d.len() && 0 <= g < d.len() && f != g implies !covers(
        #[trigger] d[f],
        #[trigger] d[g],
    ) by {
        if covers(d[f], d[g]) {
            lemma_faces_once(faces, mid, n, m, f, g);
        }
    }
}

/// Facts about the parent of a divided face.
proof fn lemma_parent(faces: Seq<Tri>, mid: Map<(int, int), int>, n: int, m: int, f: int)
    requires
        closed_surface(faces, n),
        middles(faces, mid, n, m),
        0 <= f < 4 * faces.len(),
    ensures
        0 <= f / 4 < faces.len(),
        0 <= f % 4 < 4,
        f == 4 * (f / 4) + f % 4,
        divided(faces, mid)[f] == child(faces[f / 4], mid, f % 4),
        forall|r: int| 0 <= r < 3 ==> 0 <= #[trigger] corner(faces[f / 4], r) < n,
        forall|r: int| 0 <= r < 3 ==> n <= #[trigger] middle(faces[f / 4], mid, r) < m,
        forall|r: int| 0 <= r < 3 ==> mid.contains_key(edge(#[trigger] side(faces[f / 4], r))),
{
    let t = faces[f / 4];
    assert forall|r: int| 0 <= r < 3 implies 0 <= #[trigger] corner(t, r) < n by {
        assert(is_side(faces, f / 4, r));
    }
    assert forall|r: int| 0 <= r < 3 implies mid.contains_key(edge(#[trigger] side(t, r))) by {
        assert(is_side(faces, f / 4, r));
    }
    assert forall|r: int| 0 <= r < 3 implies n <= #[trigger] middle(t, mid, r) < m by {
        assert(mid.contains_key(edge(side(t, r))));
    }
}

/// The three corners differ, and so do the three middles.
proof fn lemma_middles_differ(faces: Seq<Tri>, mid: Map<(int, int), int>, n: int, m: int, f: int)
    requires
        closed_surface(faces, n),
        middles(faces, mid, n, m),
        0 <= f < faces.len(),
    ensures
        faces[f].0 != faces[f].1,
        faces[f].1 != faces[f].2,
        faces[f].2 != faces[f].0,
        middle(faces[f], mid, 0) != middle(faces[f], mid, 1),
        middle(faces[f], mid, 1) != middle(faces[f], mid, 2),
        middle(faces[f], mid, 2) != middle(faces[f], mid, 0),
{
    let t = faces[f];
    assert(is_side(faces, f, 0) && is_side(faces, f, 1) && is_side(faces, f, 2));
    let a = side(t, 0);
    let b = side(t, 1);
    let c = side(t, 2);
    assert(a.0 != a.1 && b.0 != b.1 && c.0 != c.1);
    assert(mid.contains_key(edge(a)) && mid.contains_key(edge(b)) && mid.contains_key(edge(c)));
}

proof fn lemma_sides_once(faces: Seq<Tri>, mid: Map<(int, int), int>, n: int, m: int, f: int, r: int, g: int, s: int)
    requires
        closed_surface(faces, n),
        middles(faces, mid, n, m),
        is_side(divided(faces, mid), f, r),
        is_side(divided(faces, mid), g, s),
        side(divided(faces, mid)[f], r) == side(divided(faces, mid)[g], s),
    ensures
        f == g && r == s,
{
    let d = divided(faces, mid);
    lemma_parent(faces, mid, n, m, f);
    lemma_parent(faces, mid, n, m, g);
    let pf = f / 4;
    let pg = g / 4;
    let kf = f % 4;
    let kg = g % 4;
    let t = faces[pf];
    let u = faces[pg];
    lemma_child_sides(t, mid, kf, r);
    lemma_child_sides(u, mid, kg, s);
    lemma_middles_differ(faces, mid, n, m, pf);
    lemma_middles_differ(faces, mid, n, m, pg);
    if kf < 3 && r == 0 {
        // From an old corner: the middle tells the edge, the corner its direction.
        assert(0 <= corner(t, kf) < n);
        assert(kg < 3 && s == 0) by {
            if kg == 3 {
                assert(middle(u, mid, s) >= n);
            } else if s != 0 {
                assert(middle(u, mid, kg) >= n && middle(u, mid, after(after(kg))) >= n);
            }
        }
        assert(middle(t, mid, kf) == middle(u, mid, kg));
        assert(mid.contains_key(edge(side(t, kf))) && mid.contains_key(edge(side(u, kg))));
        assert(edge(side(t, kf)) == edge(side(u, kg)));
        assert(is_side(faces, pf, kf) && is_side(faces, pg, kg));
        assert(side(t, kf) == side(u, kg));
    } else if kf < 3 && r == 2 {
        let a = after(after(kf));
        let b = after(after(kg));
        assert(0 <= corner(t, kf) < n);
        assert(kg < 3 && s == 2) by {
            if kg == 3 {
                assert(middle(u, mid, after(s)) >= n);
            } else if s == 0 {
                assert(middle(u, mid, kg) >= n);
            } else if s == 1 {
                assert(middle(u, mid, b) >= n);
            }
        }
        assert(middle(t, mid, a) == middle(u, mid, b));
        assert(mid.contains_key(edge(side(t, a))) && mid.contains_key(edge(side(u, b))));
        assert(edge(side(t, a)) == edge(side(u, b)));
        assert(is_side(faces, pf, a) && is_side(faces, pg, b));
        assert(side(t, a).1 == corner(t, kf));
        assert(side(u, b).1 == corner(u, kg));
        assert(side(t, a) == side(u, b));
    } else {
        // From middle to middle: two edges tell the face.
        let (a, b) = if kf == 3 {
            (r, after(r))
        } else {
            (kf, after(after(kf)))
        };
        let (p, q) = if kg == 3 {
            (s, after(s))
        } else {
            (kg, after(after(kg)))
        };
        assert(middle(t, mid, a) >= n && middle(t, mid, b) >= n);
        assert(kg == 3 || s == 1) by {
            if kg < 3 && s == 0 {
                assert(corner(u, kg) < n);
            } else if kg < 3 && s == 2 {
                assert(corner(u, kg) < n);
            }
        }
        assert(middle(t, mid, a) == middle(u, mid, p));
        assert(middle(t, mid, b) == middle(u, mid, q));
        assert(mid.contains_key(edge(side(t, a))) && mid.contains_key(edge(side(u, p))));
        assert(mid.contains_key(edge(side(t, b))) && mid.contains_key(edge(side(u, q))));
        lemma_two_edges_cover(t, u, a, b, p, q);
        if pf != pg {
            assert(!covers(faces[pf], faces[pg]));
        }
        assert(a == p && b == q);
    }
}

proof fn lemma_twins(faces: Seq<Tri>, mid: Map<(int, int), int>, n: int, m: int, f: int, r: int)
    requires
        closed_surface(faces, n),
        middles(faces, mid, n, m),
        is_side(divided(faces, mid), f, r),
    ensures
        has_twin(divided(faces, mid), side(divided(faces, mid)[f], r)),
{
    let d = divided(faces, mid);
    lemma_parent(faces, mid, n, m, f);
    let pf = f / 4;
    let kf = f % 4;
    let t = faces[pf];
    lemma_child_sides(t, mid, kf, r);
    if kf == 3 {
        let k = after(r);
        lemma_parent(faces, mid, n, m, 4 * pf + k);
        lemma_child_sides(t, mid, k, 1);
        assert(is_side(d, 4 * pf + k, 1));
        assert(side(d[4 * pf + k], 1) == (side(d[f], r).1, side(d[f], r).0));
    } else if r == 1 {
        let k = after(after(kf));
        lemma_parent(faces, mid, n, m, 4 * pf + 3);
        lemma_child_sides(t, mid, 3, k);
        assert(is_side(d, 4 * pf + 3, k));
        assert(side(d[4 * pf + 3], k) == (side(d[f], r).1, side(d[f], r).0));
    } else {
        // The side of the parent that this is half of, and its twin.
        let a = if r == 0 {
            kf
        } else {
            after(after(kf))
        };
        assert(is_side(faces, pf, a));
        let e = side(t, a);
        assert(has_twin(faces, e));
        let (g, s) = choose|g: int, s: int|
            is_side(faces, g, s) && #[trigger] side(faces[g], s) == (e.1, e.0);
        let u = faces[g];
        assert(edge(side(u, s)) == edge(e));
        let k = if r == 0 {
            after(s)
        } else {
            s
        };
        let x = if r == 0 {
            2
        } else {
            0int
        };
        lemma_parent(faces, mid, n, m, 4 * g + k);
        lemma_child_sides(u, mid, k, x);
        assert(after(after(after(s))) == s);
        assert(is_side(d, 4 * g + k, x));
        assert(side(d[4 * g + k], x) == (side(d[f], r).1, side(d[f], r).0));
    }
}

proof fn lemma_faces_once(faces: Seq<Tri>, mid: Map<(int, int), int>, n: int, m: int, f: int, g: int)
    requires
        closed_surface(faces, n),
        middles(faces, mid, n, m),
        0 <= f < 4 * faces.len(),
        0 <= g < 4 * faces.len(),
        covers(divided(faces, mid)[f], divided(faces, mid)[g]),
    ensures
        f == g,
{
    let d = divided(faces, mid);
    lemma_parent(faces, mid, n, m, f);
    lemma_parent(faces, mid, n, m, g);
    let pf = f / 4;
    let pg = g / 4;
    let kf = f % 4;
    let kg = g % 4;
    let t = faces[pf];
    let u = faces[pg];
    lemma_middles_differ(faces, mid, n, m, pf);
    lemma_middles_differ(faces, mid, n, m, pg);
    let a = d[f];
    let b = d[g];
    assert(has_corner(a, corner(b, 0)) && has_corner(a, corner(b, 1)) && has_corner(a, corner(b, 2)));
    assert(corner(t, 0) < n && corner(t, 1) < n && corner(t, 2) < n);
    assert(corner(u, 0) < n && corner(u, 1) < n && corner(u, 2) < n);
    assert(middle(t, mid, 0) >= n && middle(t, mid, 1) >= n && middle(t, mid, 2) >= n);
    assert(middle(u, mid, 0) >= n && middle(u, mid, 1) >= n && middle(u, mid, 2) >= n);
    assert(mid.contains_key(edge(side(t, 0))) && mid.contains_key(edge(side(t, 1))) && mid.contains_key(
        edge(side(t, 2)),
    ));
    assert(mid.contains_key(edge(side(u, 0))) && mid.contains_key(edge(side(u, 1))) && mid.contains_key(
        edge(side(u, 2)),
    ));
    // Two of the three middles of the one are middles of the other.
    let (p, q) = if kg == 3 {
        (0int, 1int)
    } else {
        (kg, after(after(kg)))
    };
    assert(has_corner(a, middle(u, mid, p)) && has_corner(a, middle(u, mid, q)));
    let x = if middle(t, mid, 0) == middle(u, mid, p) {
        0
    } else if middle(t, mid, 1) == middle(u, mid, p) {
        1
    } else {
        2int
    };
    let y = if middle(t, mid, 0) == middle(u, mid, q) {
        0
    } else if middle(t, mid, 1) == middle(u, mid, q) {
        1
    } else {
        2int
    };
    assert(middle(t, mid, x) == middle(u, mid, p));
    assert(middle(t, mid, y) == middle(u, mid, q));
    lemma_two_edges_cover(t, u, x, y, p, q);
    if pf != pg {
        assert(!covers(faces[pf], faces[pg]));
    }
    if kg < 3 {
        assert(corner(b, 0) == corner(u, kg));
        assert(corner(t, kg) < n);
    }
}

} // verus!
