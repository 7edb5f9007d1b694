//! The edges of a surface, in the order in which its faces first show them.

use super::topology::{closed_surface, divided, edge, has_twin, is_side, law_divided_stays_closed, middles, side, Tri};
use vstd::prelude::*;
use vstd::relations::injective_on;
use vstd::set_lib::{lemma_int_range, lemma_len_subset, lemma_map_size, lemma_set_disjoint_lens, set_int_range};

verus! {

/// The edge of the side numbered `h`, three sides to a face.
pub open spec fn edge_at(faces: Seq<Tri>, h: int) -> (int, int) {
    edge(side(faces[h / 3], h % 3))
}

/// A list of edges with one more, unless it is listed already.
pub open spec fn added(edges: Seq<(int, int)>, e: (int, int)) -> Seq<(int, int)> {
    if edges.contains(e) {
        edges
    } else {
        edges.push(e)
    }
}

/// The edges among the first `h` sides, each where it first occurs.
pub open spec fn edges_upto(faces: Seq<Tri>, h: int) -> Seq<(int, int)>
    decreases h,
{
    if h <= 0 {
        Seq::empty()
    } else {
        added(edges_upto(faces, h - 1), edge_at(faces, h - 1))
    }
}

/// The edges of a surface, each once, in the order of the faces.
pub open spec fn edges_of(faces: Seq<Tri>) -> Seq<(int, int)> {
    edges_upto(faces, 3 * faces.len() as int)
}

/// The place of an edge in a list.
pub open spec fn place(edges: Seq<(int, int)>, e: (int, int)) -> int {
    choose|i: int| 0 <= i < edges.len() && #[trigger] edges[i] == e
}

/// A vertex for each edge, numbered from `n` in the order of the edges.
pub open spec fn mids(edges: Seq<(int, int)>, n: int) -> Map<(int, int), int> {
    Map::new(|e: (int, int)| edges.contains(e), |e: (int, int)| n + place(edges, e))
}

/// No edge is listed twice, and the listed edges are those of the sides.
pub proof fn lemma_edges_upto(faces: Seq<Tri>, h: int)
    requires
        h >= 0,
    ensures
        edges_upto(faces, h).no_duplicates(),
        edges_upto(faces, h).len() <= h,
        forall|k: int| 0 <= k < h ==> edges_upto(faces, h).contains(#[trigger] edge_at(faces, k)),
        forall|e: (int, int)| #[trigger]
            edges_upto(faces, h).contains(e) ==> exists|k: int| 0 <= k < h && #[trigger] edge_at(faces, k) == e,
    decreases h,
{
    if h > 0 {
        lemma_edges_upto(faces, h - 1);
        let before = edges_upto(faces, h - 1);
        let now = edges_upto(faces, h);
        let e = edge_at(faces, h - 1);
        if !before.contains(e) {
            assert(now == before.push(e));
            assert(now[before.len() as int] == e);
            assert forall|d: (int, int)| #[trigger] now.contains(d) implies d == e || before.contains(d) by {
                let i = choose|i: int| 0 <= i < now.len() && now[i] == d;
                if i < before.len() {
                    assert(before[i] == d);
                }
            }
            assert forall|d: (int, int)| before.contains(d) implies #[trigger] now.contains(d) by {
                let i = choose|i: int| 0 <= i < before.len() && before[i] == d;
                assert(now[i] == d);
            }
        }
        assert forall|d: (int, int)| #[trigger] now.contains(d) implies exists|k: int|
            0 <= k < h && #[trigger] edge_at(faces, k) == d by {
            if d == e {
                assert(edge_at(faces, h - 1) == d);
            } else {
                assert(before.contains(d));
                let k = choose|k: int| 0 <= k < h - 1 && #[trigger] edge_at(faces, k) == d;
                assert(edge_at(faces, k) == d);
            }
        }
        assert forall|k: int| 0 <= k < h implies now.contains(#[trigger] edge_at(faces, k)) by {
            if k < h - 1 {
                assert(before.contains(edge_at(faces, k)));
            }
        }
    }
}

/// The edges among fewer sides are listed first.
pub proof fn lemma_edges_grow(faces: Seq<Tri>, g: int, h: int)
    requires
        0 <= g <= h,
    ensures
        edges_upto(faces, g).len() <= edges_upto(faces, h).len(),
        edges_upto(faces, g) == edges_upto(faces, h).take(edges_upto(faces, g).len() as int),
    decreases h,
{
    if g < h {
        lemma_edges_grow(faces, g, h - 1);
    }
    assert(edges_upto(faces, g) =~= edges_upto(faces, h).take(edges_upto(faces, g).len() as int));
}

/// In a list without repeats, an edge has one place.
pub proof fn lemma_place(edges: Seq<(int, int)>, i: int)
    requires
        edges.no_duplicates(),
        0 <= i < edges.len(),
    ensures
        place(edges, edges[i]) == i,
{
    let e = edges[i];
    assert(0 <= i < edges.len() && edges[i] == e);
}

/// Whether side `h` runs from the smaller index to the larger.
pub open spec fn runs_up(faces: Seq<Tri>, h: int) -> bool {
    side(faces[h / 3], h % 3).0 < side(faces[h / 3], h % 3).1
}

/// The sides that run up, or those that run down.
spec fn sides_running(faces: Seq<Tri>, up: bool) -> Set<int> {
    Set::new(|h: int| 0 <= h < 3 * faces.len() && runs_up(faces, h) == up)
}

/// Each edge belongs to exactly one side in either direction.
proof fn lemma_one_side_each_way(faces: Seq<Tri>, n: int, up: bool)
    requires
        closed_surface(faces, n),
    ensures
        sides_running(faces, up).finite(),
        sides_running(faces, up).len() == edges_of(faces).len(),
{
    let m = 3 * faces.len() as int;
    let edges = edges_of(faces);
    let s = sides_running(faces, up);
    let f = |h: int| edge_at(faces, h);
    lemma_edges_upto(faces, m);
    lemma_int_range(0, m);
    assert(s.subset_of(set_int_range(0, m)));
    lemma_len_subset(s, set_int_range(0, m));
    assert(injective_on(f, s)) by {
        assert forall|a: int, b: int| s.contains(a) && s.contains(b) && #[trigger] f(a) == #[trigger] f(b) implies a
            == b by {
            assert(is_side(faces, a / 3, a % 3) && is_side(faces, b / 3, b % 3));
            assert(side(faces[a / 3], a % 3).0 != side(faces[a / 3], a % 3).1);
            assert(side(faces[b / 3], b % 3).0 != side(faces[b / 3], b % 3).1);
            assert(side(faces[a / 3], a % 3) == side(faces[b / 3], b % 3));
        }
    }
    assert(s.map(f) =~= edges.to_set()) by {
        assert forall|e: (int, int)| s.map(f).contains(e) implies edges.to_set().contains(e) by {
            let h = choose|h: int| s.contains(h) && #[trigger] f(h) == e;
            assert(edges.contains(edge_at(faces, h)));
        }
        assert forall|e: (int, int)| edges.to_set().contains(e) implies s.map(f).contains(e) by {
            assert(edges.contains(e));
            let k = choose|k: int| 0 <= k < m && #[trigger] edge_at(faces, k) == e;
            assert(is_side(faces, k / 3, k % 3));
            let d = side(faces[k / 3], k % 3);
            assert(d.0 != d.1);
            if runs_up(faces, k) == up {
                assert(s.contains(k) && f(k) == e);
            } else {
                assert(has_twin(faces, d));
                let (g, r) = choose|g: int, r: int| is_side(faces, g, r) && #[trigger] side(faces[g], r) == (d.1, d.0);
                let h = 3 * g + r;
                assert(h / 3 == g && h % 3 == r);
                assert(s.contains(h) && f(h) == e);
            }
        }
    }
    lemma_map_size(s, edges.to_set(), f);
    edges.unique_seq_to_set();
}

/// A closed surface has three edges for every two faces: each edge is shared by two.
pub proof fn law_edges_shared_by_two(faces: Seq<Tri>, n: int)
    requires
        closed_surface(faces, n),
    ensures
        2 * edges_of(faces).len() == 3 * faces.len(),
{
    let m = 3 * faces.len() as int;
    let u = sides_running(faces, true);
    let d = sides_running(faces, false);
    lemma_one_side_each_way(faces, n, true);
    lemma_one_side_each_way(faces, n, false);
    lemma_int_range(0, m);
    assert(u + d =~= set_int_range(0, m));
    assert(u.disjoint(d));
    lemma_set_disjoint_lens(u, d);
}

/// Numbering the edges gives each a middle of its own.
pub proof fn lemma_mids(faces: Seq<Tri>, n: int)
    requires
        closed_surface(faces, n),
    ensures
        middles(faces, mids(edges_of(faces), n), n, n + edges_of(faces).len()),
{
    let edges = edges_of(faces);
    let mid = mids(edges, n);
    let m = n + edges.len();
    lemma_edges_upto(faces, 3 * faces.len() as int);
    assert forall|f: int, r: int| is_side(faces, f, r) implies mid.contains_key(edge(#[trigger] side(faces[f], r))) by {
        let h = 3 * f + r;
        assert(h / 3 == f && h % 3 == r);
        assert(edges.contains(edge_at(faces, h)));
    }
    assert forall|e: (int, int)| #[trigger] mid.contains_key(e) implies n <= mid[e] < m && edges[mid[e] - n] == e by {
        assert(edges.contains(e));
        let i = choose|i: int| 0 <= i < edges.len() && edges[i] == e;
        lemma_place(edges, i);
    }
    assert forall|d: (int, int), e: (int, int)|
        mid.contains_key(d) && mid.contains_key(e) && #[trigger] mid[d] == #[trigger] mid[e] implies d == e by {
        assert(edges[mid[d] - n] == d);
        assert(edges[mid[e] - n] == e);
    }
}

/// Dividing every face of a closed surface, with a new vertex on every edge, gives
/// a closed surface with four times the faces.
pub proof fn law_division_stays_closed(faces: Seq<Tri>, n: int)
    requires
        closed_surface(faces, n),
    ensures
        closed_surface(divided(faces, mids(edges_of(faces), n)), n + edges_of(faces).len()),
        divided(faces, mids(edges_of(faces), n)).len() == 4 * faces.len(),
{
    lemma_mids(faces, n);
    law_divided_stays_closed(faces, mids(edges_of(faces), n), n, n + edges_of(faces).len());
}

} // verus!
