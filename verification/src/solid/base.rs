//! The icosahedron, from which the solid is divided.

use super::topology::{closed_surface, corner, covers, has_corner, has_twin, is_side, side, Tri};
use vstd::prelude::*;

verus! {

/// The twenty faces.
pub open spec fn base_face(i: int) -> Tri {
    if i == 0 {
        (0, 11, 5)
    } else if i == 1 {
        (0, 5, 1)
    } else if i == 2 {
        (0, 1, 7)
    } else if i == 3 {
        (0, 7, 10)
    } else if i == 4 {
        (0, 10, 11)
    } else if i == 5 {
        (1, 5, 9)
    } else if i == 6 {
        (5, 11, 4)
    } else if i == 7 {
        (11, 10, 2)
    } else if i == 8 {
        (10, 7, 6)
    } else if i == 9 {
        (7, 1, 8)
    } else if i == 10 {
        (3, 9, 4)
    } else if i == 11 {
        (3, 4, 2)
    } else if i == 12 {
        (3, 2, 6)
    } else if i == 13 {
        (3, 6, 8)
    } else if i == 14 {
        (3, 8, 9)
    } else if i == 15 {
        (4, 9, 5)
    } else if i == 16 {
        (2, 4, 11)
    } else if i == 17 {
        (6, 2, 10)
    } else if i == 18 {
        (8, 6, 7)
    } else {
        (9, 8, 1)
    }
}

pub open spec fn base_faces() -> Seq<Tri> {
    Seq::new(20, |i: int| base_face(i))
}

/// The face that has the side from `u` to `v`.
spec fn face_with(u: int, v: int) -> int {
    if u == 0 {
        if v == 1 {
            2
        } else if v == 5 {
            1
        } else if v == 7 {
            3
        } else if v == 10 {
            4
        } else {
            0
        }
    } else if u == 1 {
        if v == 0 {
            1
        } else if v == 5 {
            5
        } else if v == 7 {
            2
        } else if v == 8 {
            9
        } else {
            19
        }
    } else if u == 2 {
        if v == 3 {
            11
        } else if v == 4 {
            16
        } else if v == 6 {
            12
        } else if v == 10 {
            17
        } else {
            7
        }
    } else if u == 3 {
        if v == 2 {
            12
        } else if v == 4 {
            11
        } else if v == 6 {
            13
        } else if v == 8 {
            14
        } else {
            10
        }
    } else if u == 4 {
        if v == 2 {
            11
        } else if v == 3 {
            10
        } else if v == 5 {
            6
        } else if v == 9 {
            15
        } else {
            16
        }
    } else if u == 5 {
        if v == 0 {
            0
        } else if v == 1 {
            1
        } else if v == 4 {
            15
        } else if v == 9 {
            5
        } else {
            6
        }
    } else if u == 6 {
        if v == 2 {
            17
        } else if v == 3 {
            12
        } else if v == 7 {
            18
        } else if v == 8 {
            13
        } else {
            8
        }
    } else if u == 7 {
        if v == 0 {
            2
        } else if v == 1 {
            9
        } else if v == 6 {
            8
        } else if v == 8 {
            18
        } else {
            3
        }
    } else if u == 8 {
        if v == 1 {
            19
        } else if v == 3 {
            13
        } else if v == 6 {
            18
        } else if v == 7 {
            9
        } else {
            14
        }
    } else if u == 9 {
        if v == 1 {
            5
        } else if v == 3 {
            14
        } else if v == 4 {
            10
        } else if v == 5 {
            15
        } else {
            19
        }
    } else if u == 10 {
        if v == 0 {
            3
        } else if v == 2 {
            7
        } else if v == 6 {
            17
        } else if v == 7 {
            8
        } else {
            4
        }
    } else {
        if v == 0 {
            4
        } else if v == 2 {
            16
        } else if v == 4 {
            6
        } else if v == 5 {
            0
        } else {
            7
        }
    }
}

/// The face that `face_with` names for a side is the only one with it.
proof fn lemma_face_of_side(f: int, r: int)
    requires
        0 <= f < 20,
        0 <= r < 3,
    ensures
        face_with(side(base_face(f), r).0, side(base_face(f), r).1) == f,
        0 <= side(base_face(f), r).0 < 12,
        side(base_face(f), r).0 != side(base_face(f), r).1,
{
}

/// The face beyond a side.
spec fn beyond(f: int, r: int) -> int {
    face_with(side(base_face(f), r).1, side(base_face(f), r).0)
}

/// Beyond a side lies a face that has the side in the other direction.
proof fn lemma_beyond(f: int, r: int) -> (k: int)
    requires
        0 <= f < 20,
        0 <= r < 3,
    ensures
        0 <= beyond(f, r) < 20,
        0 <= k < 3,
        side(base_face(beyond(f, r)), k) == (side(base_face(f), r).1, side(base_face(f), r).0),
{
    let back = (side(base_face(f), r).1, side(base_face(f), r).0);
    let g = beyond(f, r);
    if side(base_face(g), 0) == back {
        0
    } else if side(base_face(g), 1) == back {
        1
    } else {
        2
    }
}

/// Two sides of a face do not meet the same other face.
proof fn lemma_beyond_differ(f: int)
    requires
        0 <= f < 20,
    ensures
        beyond(f, 0) != beyond(f, 1),
{
}

/// No two faces of the icosahedron have the same corners.
proof fn lemma_base_faces_once(f: int, g: int)
    requires
        0 <= f < 20,
        0 <= g < 20,
        covers(base_face(f), base_face(g)),
    ensures
        f == g,
{
    let a = base_face(f);
    let b = base_face(g);
    lemma_face_of_side(f, 0);
    lemma_face_of_side(f, 1);
    lemma_face_of_side(f, 2);
    lemma_face_of_side(g, 0);
    lemma_face_of_side(g, 1);
    lemma_face_of_side(g, 2);
    assert(has_corner(a, corner(b, 0)) && has_corner(a, corner(b, 1)) && has_corner(a, corner(b, 2)));
    lemma_same_corners(a, b);
    lemma_beyond_differ(f);
}

/// Two triangles with the same corners run around them the same way or the other.
proof fn lemma_same_corners(a: Tri, b: Tri)
    requires
        b.0 != b.1,
        b.1 != b.2,
        b.2 != b.0,
        has_corner(a, b.0),
        has_corner(a, b.1),
        has_corner(a, b.2),
    ensures
        (side(a, 0) == side(b, 0) || side(a, 0) == side(b, 1) || side(a, 0) == side(b, 2)) || {
            &&& a.1 == b.0 && a.0 == b.1 || a.1 == b.1 && a.0 == b.2 || a.1 == b.2 && a.0 == b.0
            &&& a.2 == b.0 && a.1 == b.1 || a.2 == b.1 && a.1 == b.2 || a.2 == b.2 && a.1 == b.0
        },
{
}

/// The icosahedron is a closed surface.
pub proof fn law_base_is_closed()
    ensures
        closed_surface(base_faces(), 12),
{
    let faces = base_faces();
    assert forall|f: int, r: int| is_side(faces, f, r) implies 0 <= #[trigger] corner(faces[f], r) < 12 by {
        lemma_face_of_side(f, r);
    }
    assert forall|f: int, r: int| is_side(faces, f, r) implies (#[trigger] side(faces[f], r)).0 != side(
        faces[f],
        r,
    ).1 by {
        lemma_face_of_side(f, r);
    }
    assert forall|f: int, r: int, g: int, s: int|
        is_side(faces, f, r) && is_side(faces, g, s) && #[trigger] side(faces[f], r) == #[trigger] side(
            faces[g],
            s,
        ) implies f == g && r == s by {
        lemma_face_of_side(f, r);
        lemma_face_of_side(g, s);
        lemma_face_of_side(f, 0);
        lemma_face_of_side(f, 1);
        lemma_face_of_side(f, 2);
    }
    assert forall|f: int, r: int| is_side(faces, f, r) implies has_twin(faces, #[trigger] side(faces[f], r)) by {
        let k = lemma_beyond(f, r);
        assert(is_side(faces, beyond(f, r), k));
        assert(side(faces[beyond(f, r)], k) == (side(faces[f], r).1, side(faces[f], r).0));
    }
    assert forall|f: int, g: int| 0 <= f < faces.len() && 0 <= g < faces.len() && f != g implies !covers(
        #[trigger] faces[f],
        #[trigger] faces[g],
    ) by {
        if covers(faces[f], faces[g]) {
            lemma_base_faces_once(f, g);
        }
    }
}

} // verus!
