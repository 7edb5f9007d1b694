//! The geodesic sphere: the icosahedron, divided.

use super::base::{base_faces, law_base_is_closed};
use super::edges::{
    added, edge_at, edges_of, edges_upto, law_division_stays_closed, law_edges_shared_by_two, lemma_edges_grow,
    lemma_edges_upto, lemma_place, mids, place,
};
use super::topology::{after, child, closed_surface, corner, divided, edge, is_side, side, Tri};
use crate::dsp::{circle, is_part, pi};
use crate::float::laws::{
    lemma_bounded_is_finite_between, lemma_div_between, lemma_neg, lemma_one, lemma_quotient_number, one_units,
};
use crate::float::F32;
use core::ops::Neg;
use std::collections::HashMap;
use std::collections::HashSet;
use vstd::arithmetic::power::{lemma_pow0, lemma_pow_increases, pow};
use vstd::prelude::*;
use vstd::std_specs::hash::group_hash_axioms;

verus! {

broadcast use group_hash_axioms;

/// A point in space.
#[derive(Debug, Clone, Copy, PartialEq, Eq, Structural)]
pub struct Point3 {
    pub x: F32,
    pub y: F32,
    pub z: F32,
}

/// A millionth, which keeps lengths off zero.
pub open spec fn millionth() -> F32 {
    F32::quotient(1, 1_000_000)
}

/// A point moved along its ray to distance one from the origin.
pub open spec fn on_sphere(p: Point3) -> Point3 {
    let len = (p.x * p.x + p.y * p.y + p.z * p.z).root().larger(millionth());
    Point3 { x: p.x / len, y: p.y / len, z: p.z / len }
}

/// Moves a point along its ray to distance one from the origin.
pub fn normalized(p: Point3) -> (r: Point3)
    ensures
        r == on_sphere(p),
{
    let len = (p.x * p.x + p.y * p.y + p.z * p.z).sqrt().max(F32::ratio(1, 1_000_000));
    Point3 { x: p.x / len, y: p.y / len, z: p.z / len }
}

/// The point of the sphere halfway between two points.
pub open spec fn halfway(a: Point3, b: Point3) -> Point3 {
    on_sphere(
        Point3 {
            x: (a.x + b.x) * F32::half_unit(),
            y: (a.y + b.y) * F32::half_unit(),
            z: (a.z + b.z) * F32::half_unit(),
        },
    )
}

/// The golden ratio.
pub open spec fn golden() -> F32 {
    (F32::unit() + F32::whole(5).root()) / F32::whole(2)
}

/// The twelve corners of the icosahedron, before they are moved to the sphere.
pub open spec fn base_corner(i: int) -> Point3 {
    let o = F32::nought();
    let u = F32::unit();
    let g = golden();
    if i == 0 {
        Point3 { x: -u, y: g, z: o }
    } else if i == 1 {
        Point3 { x: u, y: g, z: o }
    } else if i == 2 {
        Point3 { x: -u, y: -g, z: o }
    } else if i == 3 {
        Point3 { x: u, y: -g, z: o }
    } else if i == 4 {
        Point3 { x: o, y: -u, z: g }
    } else if i == 5 {
        Point3 { x: o, y: u, z: g }
    } else if i == 6 {
        Point3 { x: o, y: -u, z: -g }
    } else if i == 7 {
        Point3 { x: o, y: u, z: -g }
    } else if i == 8 {
        Point3 { x: g, y: o, z: -u }
    } else if i == 9 {
        Point3 { x: g, y: o, z: u }
    } else if i == 10 {
        Point3 { x: -g, y: o, z: -u }
    } else {
        Point3 { x: -g, y: o, z: u }
    }
}

/// Points and the triangles between them.
pub struct Surface {
    pub verts: Seq<Point3>,
    pub faces: Seq<Tri>,
}

impl Surface {
    /// The icosahedron.
    pub open spec fn base() -> Surface {
        Surface { verts: Seq::new(12, |i: int| on_sphere(base_corner(i))), faces: base_faces() }
    }

    /// The surface with every face divided into four. Each edge gets one new vertex,
    /// its middle moved to the sphere; they are numbered in the order of the edges.
    pub open spec fn refined(self) -> Surface {
        let edges = edges_of(self.faces);
        Surface {
            verts: self.verts + middles_of(self.verts, edges),
            faces: divided(self.faces, mids(edges, self.verts.len() as int)),
        }
    }

    /// The icosahedron divided `n` times.
    pub open spec fn sphere(n: nat) -> Surface
        decreases n,
    {
        if n == 0 {
            Surface::base()
        } else {
            Surface::sphere((n - 1) as nat).refined()
        }
    }

    /// Whether the faces form a closed surface over the vertices.
    pub open spec fn closed(self) -> bool {
        closed_surface(self.faces, self.verts.len() as int)
    }
}

/// The middles of the listed edges.
pub open spec fn middles_of(verts: Seq<Point3>, edges: Seq<(int, int)>) -> Seq<Point3> {
    Seq::new(edges.len(), |i: int| halfway(verts[edges[i].0], verts[edges[i].1]))
}

/// The divided icosahedron is a closed surface; after `n` divisions it has
/// `20 * 4^n` faces, `30 * 4^n` edges and `10 * 4^n + 2` vertices.
pub proof fn law_sphere_counts(n: nat)
    ensures
        Surface::sphere(n).closed(),
        Surface::sphere(n).faces.len() == 20 * pow(4, n),
        edges_of(Surface::sphere(n).faces).len() == 30 * pow(4, n),
        Surface::sphere(n).verts.len() == 10 * pow(4, n) + 2,
    decreases n,
{
    reveal(pow);
    if n == 0 {
        law_base_is_closed();
        law_edges_shared_by_two(base_faces(), 12);
        lemma_pow0(4);
    } else {
        let s = Surface::sphere((n - 1) as nat);
        law_sphere_counts((n - 1) as nat);
        law_division_stays_closed(s.faces, s.verts.len() as int);
        law_edges_shared_by_two(s.refined().faces, s.refined().verts.len() as int);
        assert(pow(4, n) == 4 * pow(4, (n - 1) as nat));
    }
}

/// A face of indices.
pub type Face = (u32, u32, u32);

/// A face as a triangle.
pub open spec fn tri(f: Face) -> Tri {
    (f.0 as int, f.1 as int, f.2 as int)
}

/// Faces as triangles.
pub open spec fn tris(faces: Seq<Face>) -> Seq<Tri> {
    Seq::new(faces.len(), |i: int| tri(faces[i]))
}

/// An edge as one number.
pub open spec fn edge_key(e: (int, int)) -> u64 {
    (e.0 * 0x1_0000_0000 + e.1) as u64
}

/// Whether the indices of an edge fit its key.
pub open spec fn short_edge(e: (int, int)) -> bool {
    0 <= e.0 < 0x1_0000_0000 && 0 <= e.1 < 0x1_0000_0000
}

proof fn lemma_edge_key(d: (int, int), e: (int, int))
    requires
        short_edge(d),
        short_edge(e),
    ensures
        edge_key(d) == d.0 * 0x1_0000_0000 + d.1,
        edge_key(d) == edge_key(e) ==> d == e,
{
}

fn key_of(i: u32, j: u32) -> (k: (u32, u32, u64))
    ensures
        (k.0 as int, k.1 as int) == edge((i as int, j as int)),
        k.2 == edge_key((k.0 as int, k.1 as int)),
{
    let (a, b) = if i <= j {
        (i, j)
    } else {
        (j, i)
    };
    proof {
        lemma_edge_key((a as int, b as int), (a as int, b as int));
    }
    (a, b, a as u64 * 0x1_0000_0000 + b as u64)
}

/// Whether the cache holds the middles of exactly the listed edges, numbered from `n`.
spec fn holds_middles(cache: Map<u64, u32>, edges: Seq<(int, int)>, n: int) -> bool {
    &&& edges.no_duplicates()
    &&& forall|i: int|
        0 <= i < edges.len() ==> short_edge(#[trigger] edges[i]) && cache.contains_key(edge_key(edges[i]))
            && cache[edge_key(edges[i])] == n + i
    &&& forall|k: u64| #[trigger]
        cache.contains_key(k) ==> exists|i: int| 0 <= i < edges.len() && edge_key(#[trigger] edges[i]) == k
}

/// The vertices with the middle of an edge, which is made where the edge is not listed yet.
pub open spec fn with_middle(verts: Seq<Point3>, edges: Seq<(int, int)>, e: (int, int)) -> Seq<Point3> {
    if edges.contains(e) {
        verts
    } else {
        verts.push(halfway(verts[e.0], verts[e.1]))
    }
}

/// Whether the vertices from `n` on are the middles of the listed edges.
pub open spec fn made_middles(verts: Seq<Point3>, edges: Seq<(int, int)>, n: int) -> bool {
    &&& edges.no_duplicates()
    &&& verts.len() == n + edges.len()
    &&& forall|i: int| 0 <= i < edges.len() ==> 0 <= (#[trigger] edges[i]).0 < n && 0 <= edges[i].1 < n
    &&& forall|i: int|
        0 <= i < edges.len() ==> verts[n + i] == halfway(verts[(#[trigger] edges[i]).0], verts[edges[i].1])
}

/// An edge has one middle, from whichever end it is asked for: the first time it is made,
/// as the last vertex, halfway between its ends and on the sphere; after that nothing
/// changes.
pub proof fn law_edge_has_one_middle(verts: Seq<Point3>, edges: Seq<(int, int)>, n: int, a: int, b: int)
    requires
        0 <= a < n,
        0 <= b < n,
        made_middles(verts, edges, n),
    ensures
        ({
            let e = edge((a, b));
            let now = added(edges, e);
            let after = with_middle(verts, edges, e);
            let i = n + place(now, e);
            &&& edge((b, a)) == e
            &&& made_middles(after, now, n)
            &&& 0 <= i < after.len()
            &&& after[i] == halfway(after[e.0], after[e.1])
            &&& !edges.contains(e) ==> after.len() == verts.len() + 1 && i == verts.len()
            &&& edges.contains(e) ==> after == verts
            &&& added(now, edge((b, a))) == now
            &&& with_middle(after, now, edge((b, a))) == after
        }),
{
    let e = edge((a, b));
    let now = added(edges, e);
    let after = with_middle(verts, edges, e);
    if edges.contains(e) {
        let k = choose|k: int| 0 <= k < edges.len() && edges[k] == e;
        lemma_place(now, k);
    } else {
        assert(now[edges.len() as int] == e);
        assert(now.no_duplicates());
        lemma_place(now, edges.len() as int);
        assert forall|i: int| 0 <= i < now.len() implies after[n + i] == halfway(
            after[(#[trigger] now[i]).0],
            after[now[i].1],
        ) by {
            if i < edges.len() {
                assert(edges[i] == now[i]);
            }
        }
    }
    assert(now.contains(e));
}

/// The index of the middle of two vertices, which is made where the edge has none yet.
fn midpoint(verts: &mut Vec<Point3>, cache: &mut HashMap<u64, u32>, a: u32, b: u32, Ghost(n): Ghost<int>, Ghost(edges): Ghost<Seq<(int, int)>>) -> (r: u32)
    requires
        a < n,
        b < n,
        old(verts)@.len() == n + edges.len(),
        old(verts)@.len() < u32::MAX,
        holds_middles(old(cache)@, edges, n),
    ensures
        ({
            let e = edge((a as int, b as int));
            let now = added(edges, e);
            &&& holds_middles(final(cache)@, now, n)
            &&& final(verts)@ == with_middle(old(verts)@, edges, e)
            &&& r == n + place(now, e)
            &&& now.contains(e)
        }),
{
    let (p, q, key) = key_of(a, b);
    let ghost e = edge((a as int, b as int));
    let ghost before = cache@;
    if let Some(i) = cache.get(&key) {
        proof {
            assert(before.contains_key(key));
            let i = choose|i: int| 0 <= i < edges.len() && edge_key(#[trigger] edges[i]) == key;
            lemma_edge_key(edges[i], e);
            lemma_place(edges, i);
            assert(edges.contains(e));
        }
        return *i;
    }
    proof {
        if edges.contains(e) {
            let i = choose|i: int| 0 <= i < edges.len() && edges[i] == e;
            assert(before.contains_key(edge_key(edges[i])));
        }
    }
    let (pa, pb) = (verts[p as usize], verts[q as usize]);
    let m = normalized(
        Point3 {
            x: (pa.x + pb.x) * F32::half(),
            y: (pa.y + pb.y) * F32::half(),
            z: (pa.z + pb.z) * F32::half(),
        },
    );
    let i: u32 = verts.len() as u32;
    verts.push(m);
    cache.insert(key, i);
    proof {
        let now = edges.push(e);
        assert(now[edges.len() as int] == e);
        lemma_place(now, edges.len() as int);
        assert forall|j: int| 0 <= j < now.len() implies short_edge(#[trigger] now[j]) && cache@.contains_key(
            edge_key(now[j]),
        ) && cache@[edge_key(now[j])] == n + j by {
            if j < edges.len() {
                assert(now[j] == edges[j]);
                lemma_edge_key(edges[j], e);
                assert(edges.contains(edges[j]));
            }
        }
        assert forall|k: u64| #[trigger] cache@.contains_key(k) implies exists|j: int|
            0 <= j < now.len() && edge_key(#[trigger] now[j]) == k by {
            if k == key {
                assert(edge_key(now[edges.len() as int]) == k);
            } else {
                let j = choose|j: int| 0 <= j < edges.len() && edge_key(#[trigger] edges[j]) == k;
                assert(edge_key(now[j]) == k);
            }
        }
    }
    i
}

/// An edge keeps its place as the list grows.
proof fn lemma_place_stays(faces: Seq<Tri>, g: int, h: int, e: (int, int))
    requires
        0 <= g <= h,
        edges_upto(faces, g).contains(e),
    ensures
        place(edges_upto(faces, g), e) == place(edges_upto(faces, h), e),
        edges_upto(faces, h).contains(e),
{
    let a = edges_upto(faces, g);
    let b = edges_upto(faces, h);
    lemma_edges_upto(faces, g);
    lemma_edges_upto(faces, h);
    lemma_edges_grow(faces, g, h);
    let i = choose|i: int| 0 <= i < a.len() && a[i] == e;
    lemma_place(a, i);
    assert(b[i] == e);
    lemma_place(b, i);
}

/// One side of a face in the division: what a call of `midpoint` adds.
proof fn lemma_step(v0: Seq<Point3>, faces: Seq<Tri>, h: int, verts: Seq<Point3>)
    requires
        0 <= h < 3 * faces.len(),
        closed_surface(faces, v0.len() as int),
        verts == v0 + middles_of(v0, edges_upto(faces, h)),
    ensures
        edges_upto(faces, h + 1) == added(edges_upto(faces, h), edge_at(faces, h)),
        (if edges_upto(faces, h).contains(edge_at(faces, h)) {
            verts
        } else {
            verts.push(halfway(verts[edge_at(faces, h).0], verts[edge_at(faces, h).1]))
        }) == v0 + middles_of(v0, edges_upto(faces, h + 1)),
        edges_upto(faces, h).len() <= edges_of(faces).len(),
{
    let e = edge_at(faces, h);
    let before = edges_upto(faces, h);
    let now = edges_upto(faces, h + 1);
    lemma_edges_grow(faces, h, 3 * faces.len() as int);
    assert(is_side(faces, h / 3, h % 3));
    let t = faces[h / 3];
    assert(is_side(faces, h / 3, after(h % 3)));
    assert(0 <= corner(t, h % 3) < v0.len());
    assert(0 <= corner(t, after(h % 3)) < v0.len());
    assert(0 <= e.0 < v0.len() && 0 <= e.1 < v0.len());
    if !before.contains(e) {
        assert(now == before.push(e));
        assert(verts[e.0] == v0[e.0] && verts[e.1] == v0[e.1]);
        assert(verts.push(halfway(verts[e.0], verts[e.1])) =~= v0 + middles_of(v0, now));
    }
}

/// Divides every face into four; the vertices grow by the middles of the edges.
fn subdivide(verts: &mut Vec<Point3>, faces: &Vec<Face>) -> (next: Vec<Face>)
    requires
        closed_surface(tris(faces@), old(verts)@.len() as int),
        old(verts)@.len() + edges_of(tris(faces@)).len() < u32::MAX,
    ensures
        ({
            let to = (Surface { verts: old(verts)@, faces: tris(faces@) }).refined();
            &&& final(verts)@ == to.verts
            &&& tris(next@) == to.faces
        }),
{
    let ghost v0 = verts@;
    let ghost n = verts@.len() as int;
    let ghost t = tris(faces@);
    let ghost mid = mids(edges_of(t), n);
    let mut cache: HashMap<u64, u32> = HashMap::new();
    let mut next: Vec<Face> = Vec::new();
    assert(verts@ =~= v0 + middles_of(v0, edges_upto(t, 0)));
    let mut i: usize = 0;
    while i < faces.len()
        invariant
            i <= faces.len(),
            t == tris(faces@),
            n == v0.len(),
            mid == mids(edges_of(t), n),
            closed_surface(t, n),
            n + edges_of(t).len() < u32::MAX,
            verts@ == v0 + middles_of(v0, edges_upto(t, 3 * i)),
            holds_middles(cache@, edges_upto(t, 3 * i), n),
            next@.len() == 4 * i,
            forall|j: int| 0 <= j < 4 * i ==> tri(#[trigger] next@[j]) == child(t[j / 4], mid, j % 4),
        decreases faces.len() - i,
    {
        let f = faces[i];
        let ghost h = 3 * i as int;
        proof {
            assert(t[i as int] == tri(f));
            assert(h / 3 == i && h % 3 == 0);
            assert((h + 1) / 3 == i && (h + 1) % 3 == 1);
            assert((h + 2) / 3 == i && (h + 2) % 3 == 2);
            assert(is_side(t, i as int, 0) && is_side(t, i as int, 1) && is_side(t, i as int, 2));
            assert(corner(t[i as int], 0) < n && corner(t[i as int], 1) < n && corner(t[i as int], 2) < n);
            assert(edge_at(t, h) == edge((f.0 as int, f.1 as int)));
            assert(edge_at(t, h + 1) == edge((f.1 as int, f.2 as int)));
            assert(edge_at(t, h + 2) == edge((f.2 as int, f.0 as int)));
            lemma_step(v0, t, h, verts@);
        }
        let a = midpoint(verts, &mut cache, f.0, f.1, Ghost(n), Ghost(edges_upto(t, h)));
        proof {
            lemma_step(v0, t, h + 1, verts@);
        }
        let b = midpoint(verts, &mut cache, f.1, f.2, Ghost(n), Ghost(edges_upto(t, h + 1)));
        proof {
            lemma_step(v0, t, h + 2, verts@);
        }
        let c = midpoint(verts, &mut cache, f.2, f.0, Ghost(n), Ghost(edges_upto(t, h + 2)));
        proof {
            let end = 3 * t.len() as int;
            lemma_place_stays(t, h + 1, end, edge_at(t, h));
            lemma_place_stays(t, h + 2, end, edge_at(t, h + 1));
            lemma_place_stays(t, h + 3, end, edge_at(t, h + 2));
        }
        let ghost before = next@;
        next.push((f.0, a, c));
        next.push((f.1, b, a));
        next.push((f.2, c, b));
        next.push((a, b, c));
        proof {
            assert forall|j: int| 0 <= j < 4 * (i + 1) implies tri(#[trigger] next@[j]) == child(
                t[j / 4],
                mid,
                j % 4,
            ) by {
                if j < 4 * i {
                    assert(next@[j] == before[j]);
                } else {
                    assert(j / 4 == i);
                }
            }
            assert(h + 3 == 3 * (i + 1));
        }
        i = i + 1;
    }
    assert(tris(next@) =~= divided(t, mid));
    next
}

/// An edge of indices.
pub open spec fn pair(e: (u32, u32)) -> (int, int) {
    (e.0 as int, e.1 as int)
}

/// Edges as pairs of integers.
pub open spec fn pairs(edges: Seq<(u32, u32)>) -> Seq<(int, int)> {
    Seq::new(edges.len(), |i: int| pair(edges[i]))
}

/// Whether the set holds the keys of exactly the listed edges.
spec fn holds_edges(seen: Set<u64>, edges: Seq<(int, int)>) -> bool {
    &&& forall|i: int| 0 <= i < edges.len() ==> short_edge(#[trigger] edges[i]) && seen.contains(edge_key(edges[i]))
    &&& forall|k: u64| #[trigger]
        seen.contains(k) ==> exists|i: int| 0 <= i < edges.len() && edge_key(#[trigger] edges[i]) == k
}

/// Lists the edges of the faces, each once.
fn list_edges(faces: &Vec<Face>) -> (edges: Vec<(u32, u32)>)
    ensures
        pairs(edges@) == edges_of(tris(faces@)),
{
    let ghost t = tris(faces@);
    let mut seen: HashSet<u64> = HashSet::new();
    let mut edges: Vec<(u32, u32)> = Vec::new();
    assert(pairs(edges@) =~= edges_upto(t, 0));
    let mut i: usize = 0;
    while i < faces.len()
        invariant
            i <= faces.len(),
            t == tris(faces@),
            pairs(edges@) == edges_upto(t, 3 * i),
            holds_edges(seen@, edges_upto(t, 3 * i)),
        decreases faces.len() - i,
    {
        let f = faces[i];
        let mut r: usize = 0;
        while r < 3
            invariant
                i < faces.len(),
                r <= 3,
                t == tris(faces@),
                f == faces@[i as int],
                pairs(edges@) == edges_upto(t, 3 * i + r),
                holds_edges(seen@, edges_upto(t, 3 * i + r)),
            decreases 3 - r,
        {
            let (a, b) = if r == 0 {
                (f.0, f.1)
            } else if r == 1 {
                (f.1, f.2)
            } else {
                (f.2, f.0)
            };
            let (p, q, key) = key_of(a, b);
            let ghost h = 3 * i + r;
            let ghost e = edge_at(t, h);
            let ghost before = edges_upto(t, h);
            let ghost old_edges = edges@;
            proof {
                assert(h / 3 == i && h % 3 == r);
                assert(e == (p as int, q as int));
                if seen@.contains(key) {
                    let j = choose|j: int| 0 <= j < before.len() && edge_key(#[trigger] before[j]) == key;
                    lemma_edge_key(before[j], e);
                    assert(before.contains(e));
                } else if before.contains(e) {
                    let j = choose|j: int| 0 <= j < before.len() && before[j] == e;
                    assert(seen@.contains(edge_key(before[j])));
                }
            }
            if seen.insert(key) {
                edges.push((p, q));
                proof {
                    let now = before.push(e);
                    assert(pairs(edges@) =~= now);
                    assert(now[before.len() as int] == e);
                    assert forall|j: int| 0 <= j < now.len() implies short_edge(#[trigger] now[j]) && seen@.contains(
                        edge_key(now[j]),
                    ) by {
                        if j < before.len() {
                            assert(now[j] == before[j]);
                        }
                    }
                    assert forall|k: u64| #[trigger] seen@.contains(k) implies exists|j: int|
                        0 <= j < now.len() && edge_key(#[trigger] now[j]) == k by {
                        if k == key {
                            assert(edge_key(now[before.len() as int]) == k);
                        } else {
                            let j = choose|j: int| 0 <= j < before.len() && edge_key(#[trigger] before[j]) == k;
                            assert(edge_key(now[j]) == k);
                        }
                    }
                }
            }
            r = r + 1;
        }
        i = i + 1;
    }
    edges
}

/// The icosahedron.
fn base_solid() -> (r: (Vec<Point3>, Vec<Face>))
    ensures
        r.0@ == Surface::base().verts,
        tris(r.1@) == Surface::base().faces,
{
    let o = F32::zero();
    let u = F32::one();
    let n = F32::one().neg();
    let g = (F32::one() + F32::from_int(5).sqrt()) / F32::from_int(2);
    let h = g.neg();
    let mut verts: Vec<Point3> = Vec::new();
    verts.push(normalized(Point3 { x: n, y: g, z: o }));
    verts.push(normalized(Point3 { x: u, y: g, z: o }));
    verts.push(normalized(Point3 { x: n, y: h, z: o }));
    verts.push(normalized(Point3 { x: u, y: h, z: o }));
    verts.push(normalized(Point3 { x: o, y: n, z: g }));
    verts.push(normalized(Point3 { x: o, y: u, z: g }));
    verts.push(normalized(Point3 { x: o, y: n, z: h }));
    verts.push(normalized(Point3 { x: o, y: u, z: h }));
    verts.push(normalized(Point3 { x: g, y: o, z: n }));
    verts.push(normalized(Point3 { x: g, y: o, z: u }));
    verts.push(normalized(Point3 { x: h, y: o, z: n }));
    verts.push(normalized(Point3 { x: h, y: o, z: u }));
    let faces: Vec<Face> = vec![
        (0, 11, 5), (0, 5, 1), (0, 1, 7), (0, 7, 10), (0, 10, 11),
        (1, 5, 9), (5, 11, 4), (11, 10, 2), (10, 7, 6), (7, 1, 8),
        (3, 9, 4), (3, 4, 2), (3, 2, 6), (3, 6, 8), (3, 8, 9),
        (4, 9, 5), (2, 4, 11), (6, 2, 10), (8, 6, 7), (9, 8, 1),
    ];
    assert(verts@ =~= Surface::base().verts);
    assert(tris(faces@) =~= base_faces());
    (verts, faces)
}

/// How often the icosahedron is divided.
pub const SOLID_SUBDIV: usize = 2;

/// The most divisions whose vertices can be numbered.
pub const MAX_SUBDIV: usize = 14;

/// The static geometry of the solid on the unit sphere, with the side of the stereo
/// field that each vertex and each face belongs to.
pub struct Sphere {
    pub verts: Vec<Point3>,
    /// Whether the vertex follows the right channel.
    pub vert_right: Vec<bool>,
    pub edges: Vec<(u32, u32)>,
    pub faces: Vec<Face>,
    /// Whether the face follows the right channel.
    pub face_right: Vec<bool>,
}

/// Whether a vertex lies on the right: it does where `x` is not below zero.
pub open spec fn on_right(p: Point3) -> bool {
    F32::nought().le(p.x)
}

/// Whether a face lies on the right, by the sum of its corners.
pub open spec fn face_on_right(verts: Seq<Point3>, t: Tri) -> bool {
    F32::nought().le(verts[t.0].x + verts[t.1].x + verts[t.2].x)
}

impl Sphere {
    /// Whether this is the geometry of a surface.
    pub open spec fn shows(self, s: Surface) -> bool {
        &&& self.verts@ == s.verts
        &&& tris(self.faces@) == s.faces
        &&& pairs(self.edges@) == edges_of(s.faces)
        &&& self.vert_right@.len() == s.verts.len()
        &&& forall|i: int| 0 <= i < s.verts.len() ==> self.vert_right@[i] == on_right(#[trigger] s.verts[i])
        &&& self.face_right@.len() == s.faces.len()
        &&& forall|i: int|
            0 <= i < s.faces.len() ==> self.face_right@[i] == face_on_right(s.verts, #[trigger] s.faces[i])
    }
}

proof fn lemma_sphere_fits(n: nat)
    requires
        n <= MAX_SUBDIV,
    ensures
        Surface::sphere(n).verts.len() < u32::MAX,
{
    law_sphere_counts(n);
    lemma_pow_increases(4, n, 14);
    reveal_with_fuel(pow, 15);
}

/// Builds the geodesic solid: the icosahedron divided `subdiv` times.
pub fn build_icosphere(subdiv: usize) -> (r: Sphere)
    requires
        subdiv <= MAX_SUBDIV,
    ensures
        r.shows(Surface::sphere(subdiv as nat)),
        joins(r.edges@, r.faces@, r.verts@.len() as int),
        r.faces@.len() == 20 * pow(4, subdiv as nat),
        r.edges@.len() == 30 * pow(4, subdiv as nat),
        r.verts@.len() == 10 * pow(4, subdiv as nat) + 2,
{
    let (mut verts, mut faces) = base_solid();
    let mut k: usize = 0;
    while k < subdiv
        invariant
            k <= subdiv,
            subdiv <= MAX_SUBDIV,
            verts@ == Surface::sphere(k as nat).verts,
            tris(faces@) == Surface::sphere(k as nat).faces,
        decreases subdiv - k,
    {
        proof {
            law_sphere_counts(k as nat);
            lemma_sphere_fits((k + 1) as nat);
            assert(Surface::sphere((k + 1) as nat) == Surface::sphere(k as nat).refined());
        }
        faces = subdivide(&mut verts, &faces);
        k = k + 1;
    }
    let edges = list_edges(&faces);
    let ghost s = Surface::sphere(subdiv as nat);
    proof {
        law_sphere_counts(subdiv as nat);
        assert(pairs(edges@).len() == edges@.len());
        assert(tris(faces@).len() == faces@.len());
    }
    let mut vert_right: Vec<bool> = Vec::new();
    let mut i: usize = 0;
    while i < verts.len()
        invariant
            i <= verts.len(),
            vert_right@.len() == i,
            forall|j: int| 0 <= j < i ==> vert_right@[j] == on_right(#[trigger] verts@[j]),
        decreases verts.len() - i,
    {
        vert_right.push(F32::zero().at_most(verts[i].x));
        i = i + 1;
    }
    let mut face_right: Vec<bool> = Vec::new();
    let mut i: usize = 0;
    while i < faces.len()
        invariant
            i <= faces.len(),
            tris(faces@) == s.faces,
            verts@ == s.verts,
            s.closed(),
            face_right@.len() == i,
            forall|j: int| 0 <= j < i ==> face_right@[j] == face_on_right(verts@, #[trigger] s.faces[j]),
        decreases faces.len() - i,
    {
        let f = faces[i];
        proof {
            let t = s.faces[i as int];
            assert(t == tri(f));
            assert(is_side(s.faces, i as int, 0) && is_side(s.faces, i as int, 1) && is_side(s.faces, i as int, 2));
            assert(corner(t, 0) < verts@.len() && corner(t, 1) < verts@.len() && corner(t, 2) < verts@.len());
        }
        let x = verts[f.0 as usize].x + verts[f.1 as usize].x + verts[f.2 as usize].x;
        face_right.push(F32::zero().at_most(x));
        i = i + 1;
    }
    let r = Sphere { verts, vert_right, edges, faces, face_right };
    proof {
        lemma_joins(r, s);
    }
    r
}

/// Whether all edges and faces join vertices among `n`.
pub open spec fn joins(edges: Seq<(u32, u32)>, faces: Seq<Face>, n: int) -> bool {
    &&& forall|i: int| 0 <= i < edges.len() ==> (#[trigger] edges[i]).0 < n && edges[i].1 < n
    &&& forall|i: int| 0 <= i < faces.len() ==> (#[trigger] faces[i]).0 < n && faces[i].1 < n && faces[i].2 < n
}

/// The edges and faces of a closed surface join its vertices.
proof fn lemma_joins(x: Sphere, s: Surface)
    requires
        x.shows(s),
        s.closed(),
    ensures
        joins(x.edges@, x.faces@, x.verts@.len() as int),
{
    let n = s.verts.len() as int;
    assert forall|i: int| 0 <= i < x.faces@.len() implies (#[trigger] x.faces@[i]).0 < n && x.faces@[i].1 < n
        && x.faces@[i].2 < n by {
        let t = s.faces[i];
        assert(t == tri(x.faces@[i]));
        assert(is_side(s.faces, i, 0) && is_side(s.faces, i, 1) && is_side(s.faces, i, 2));
        assert(corner(t, 0) < n && corner(t, 1) < n && corner(t, 2) < n);
    }
    let m = 3 * s.faces.len() as int;
    lemma_edges_upto(s.faces, m);
    assert forall|i: int| 0 <= i < x.edges@.len() implies (#[trigger] x.edges@[i]).0 < n && x.edges@[i].1 < n by {
        let e = pairs(x.edges@)[i];
        assert(e == pair(x.edges@[i]));
        assert(edges_of(s.faces)[i] == e);
        assert(edges_of(s.faces).contains(e));
        let k = choose|k: int| 0 <= k < m && #[trigger] edge_at(s.faces, k) == e;
        let t = s.faces[k / 3];
        let r = k % 3;
        assert(is_side(s.faces, k / 3, r) && is_side(s.faces, k / 3, after(r)));
        assert(corner(t, r) < n && corner(t, after(r)) < n);
    }
}

impl Sphere {
    /// The heights of the vertices, of which the caller takes the arc cosine.
    pub fn heights(&self) -> (r: Vec<F32>)
        ensures
            r@ == Seq::new(self.verts@.len(), |i: int| self.verts@[i].y.clamped(-F32::unit(), F32::unit())),
    {
        proof {
            lemma_one();
            lemma_neg(F32::unit());
        }
        let low = F32::one().neg();
        let mut r: Vec<F32> = Vec::new();
        let mut i: usize = 0;
        while i < self.verts.len()
            invariant
                i <= self.verts@.len(),
                low == -F32::unit(),
                low.le(F32::unit()),
                r@.len() == i,
                forall|j: int|
                    0 <= j < i ==> #[trigger] r@[j] == self.verts@[j].y.clamped(-F32::unit(), F32::unit()),
            decreases self.verts@.len() - i,
        {
            r.push(self.verts[i].y.clamp(low, F32::one()));
            i = i + 1;
        }
        assert(r@ =~= Seq::new(self.verts@.len(), |i: int| self.verts@[i].y.clamped(-F32::unit(), F32::unit())));
        r
    }
}

/// The solid with its place in the spectrum: the latitude gives the frequency, from
/// the north pole to the south.
pub struct SolidMesh {
    pub verts: Vec<Point3>,
    /// Where each vertex is in the spectrum, from zero to one.
    pub vert_t: Vec<F32>,
    /// Whether the vertex follows the right channel.
    pub vert_right: Vec<bool>,
    pub edges: Vec<(u32, u32)>,
    pub faces: Vec<Face>,
    /// Where each face is in the spectrum: the mean of its corners.
    pub face_t: Vec<F32>,
    /// Whether the face follows the right channel.
    pub face_right: Vec<bool>,
}

/// The mean of three values at the corners of a face.
pub open spec fn face_mean(at: Seq<F32>, f: Face) -> F32 {
    (at[f.0 as int] + at[f.1 as int] + at[f.2 as int]) / F32::whole(3)
}

impl SolidMesh {
    /// The lists belong together.
    pub open spec fn wf(self) -> bool {
        &&& self.vert_t@.len() == self.verts@.len()
        &&& self.vert_right@.len() == self.verts@.len()
        &&& self.face_t@.len() == self.faces@.len()
        &&& self.face_right@.len() == self.faces@.len()
        &&& joins(self.edges@, self.faces@, self.verts@.len() as int)
    }

    /// Maps the solid to the spectrum; `arcs` holds the arc cosines of the heights.
    pub fn new(s: Sphere, arcs: &[F32]) -> (r: SolidMesh)
        requires
            arcs@.len() == s.verts@.len(),
            s.vert_right@.len() == s.verts@.len(),
            s.face_right@.len() == s.faces@.len(),
            joins(s.edges@, s.faces@, s.verts@.len() as int),
        ensures
            r.wf(),
            r.verts == s.verts,
            r.vert_right == s.vert_right,
            r.edges == s.edges,
            r.faces == s.faces,
            r.face_right == s.face_right,
            forall|i: int| 0 <= i < r.verts@.len() ==> #[trigger] r.vert_t@[i] == arcs@[i] / pi(),
            forall|i: int|
                0 <= i < r.faces@.len() ==> #[trigger] r.face_t@[i] == face_mean(r.vert_t@, r.faces@[i]),
    {
        let mut vert_t: Vec<F32> = Vec::new();
        let mut i: usize = 0;
        while i < arcs.len()
            invariant
                i <= arcs@.len(),
                vert_t@.len() == i,
                forall|j: int| 0 <= j < i ==> #[trigger] vert_t@[j] == arcs@[j] / pi(),
            decreases arcs@.len() - i,
        {
            vert_t.push(arcs[i] / circle());
            i = i + 1;
        }
        let mut face_t: Vec<F32> = Vec::new();
        let mut k: usize = 0;
        while k < s.faces.len()
            invariant
                k <= s.faces@.len(),
                vert_t@.len() == s.verts@.len(),
                joins(s.edges@, s.faces@, s.verts@.len() as int),
                face_t@.len() == k,
                forall|j: int| 0 <= j < k ==> #[trigger] face_t@[j] == face_mean(vert_t@, s.faces@[j]),
            decreases s.faces@.len() - k,
        {
            let f = s.faces[k];
            face_t.push(
                (vert_t[f.0 as usize] + vert_t[f.1 as usize] + vert_t[f.2 as usize]) / F32::from_int(3),
            );
            k = k + 1;
        }
        SolidMesh {
            verts: s.verts,
            vert_t,
            vert_right: s.vert_right,
            edges: s.edges,
            faces: s.faces,
            face_t,
            face_right: s.face_right,
        }
    }
}

/// Where a vertex is in the spectrum lies from zero to one: its arc cosine lies from
/// zero to the circle constant.
pub proof fn law_latitude_is_part(arc: F32)
    requires
        arc.within(F32::nought(), pi()),
    ensures
        is_part(arc / pi()),
{
    lemma_one();
    lemma_quotient_number(13176795, 4194304);
    lemma_bounded_is_finite_between(arc, F32::nought(), pi());
    let a = arc.units();
    let p = pi().units();
    let w = one_units();
    assert(0 * p <= a * w <= w * p) by (nonlinear_arith)
        requires 0 <= a <= p, w > 0;
    lemma_div_between(arc, pi(), F32::nought(), F32::unit());
}

} // verus!
