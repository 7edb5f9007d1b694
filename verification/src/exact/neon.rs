//! The neon effects: halo and border, as bright as the music is loud.

use crate::bands::NUM_BANDS;
use crate::dsp::is_part;
use crate::exact::levels::law_visibility_is_the_loudest_band;
use crate::exact::paint::{is_color, law_dimming_is_proportional};
use crate::float::value::{close, lemma_constants, lemma_value_le, lemma_value_part, lemma_value_quotient};
use crate::float::F32;
use crate::render::curve::Point;
use crate::render::paint::Palette;
use crate::render::ribbon::{fill, floor_points, line_area, neon, neon_line, visibility, Neon};
use vstd::prelude::*;

verus! {

/// The halo has the first colour, dimmed by the visibility: black in silence, full at the
/// loudest. Its vertices lie on either side in turn.
pub proof fn law_halo_is_as_bright_as_the_music_is_loud(pts: Seq<Point>, p: Palette, closed: bool, vis: F32, j: int)
    requires
        pts.len() >= 2,
        is_color(p.color_a),
        is_part(vis),
        0 <= j < neon(pts, p, closed, vis).len(),
    ensures
        ({
            let v = neon(pts, p, closed, vis)[j];
            let e = 1real / 1000000real;
            &&& close(v.r, p.color_a.r.value() * vis.value(), e)
            &&& close(v.g, p.color_a.g.value() * vis.value(), e)
            &&& close(v.b, p.color_a.b.value() * vis.value(), e)
            &&& v.r.value() <= vis.value() + e && v.g.value() <= vis.value() + e && v.b.value() <= vis.value() + e
            &&& vis.value() == 0real ==> v.r.value() == 0real && v.g.value() == 0real && v.b.value() == 0real
            &&& v.a.value() == if j % 2 == 0 {
                1real
            } else {
                -1real
            }
        }),
        neon(pts, p, closed, vis).len() == 2 * pts.len() + if closed {
            2int
        } else {
            0int
        },
{
    lemma_constants();
    lemma_value_part(vis);
    lemma_value_part(p.color_a.r);
    lemma_value_part(p.color_a.g);
    lemma_value_part(p.color_a.b);
    law_dimming_is_proportional(p.color_a, vis);
    let k = vis.value();
    let (r, g, b) = (p.color_a.r.value(), p.color_a.g.value(), p.color_a.b.value());
    assert(r * k <= k && g * k <= k && b * k <= k) by (nonlinear_arith)
        requires r <= 1real, g <= 1real, b <= 1real, k >= 0real;
}

/// In silence the halo is black and the border has no opacity; where a band is as loud as
/// it can be, both are at their full strength.
pub proof fn law_neon_fades_with_the_music(
    left: Seq<F32>,
    right: Seq<F32>,
    pts: Seq<Point>,
    bases: Seq<Point>,
    p: Palette,
    closed: bool,
    n: Neon,
    j: int,
)
    requires
        pts.len() >= 2,
        is_color(p.color_a),
        forall|b: int| 0 <= b < NUM_BANDS ==> is_part(#[trigger] left[b]),
        forall|b: int| 0 <= b < NUM_BANDS ==> is_part(#[trigger] right[b]),
        n.draws(pts, bases, p, closed, visibility(left, right)),
    ensures
        0 <= j < n.halo@.len() && (forall|b: int|
            0 <= b < NUM_BANDS ==> (#[trigger] left[b]).value() == 0real && right[b].value() == 0real)
            ==> n.halo@[j].r.value() == 0real && n.halo@[j].g.value() == 0real && n.halo@[j].b.value() == 0real,
        0 <= j < n.line@.len() && (forall|b: int|
            0 <= b < NUM_BANDS ==> (#[trigger] left[b]).value() == 0real && right[b].value() == 0real)
            ==> n.line@[j].a.value() == 0real,
        forall|b: int|
            0 <= b < NUM_BANDS && 0 <= j < n.line@.len() ==> (#[trigger] left[b]).value() <= n.line@[j].a.value()
                && right[b].value() <= n.line@[j].a.value(),
        forall|b: int|
            0 <= b < NUM_BANDS && 0 <= j < n.halo@.len() ==> n.halo@[j].r.value() + 1real / 1000000real
                >= p.color_a.r.value() * (#[trigger] left[b]).value(),
{
    law_visibility_is_the_loudest_band(left, right);
    let vis = visibility(left, right);
    lemma_value_part(vis);
    lemma_value_part(p.color_a.r);
    if 0 <= j < n.halo@.len() {
        law_halo_is_as_bright_as_the_music_is_loud(pts, p, closed, vis, j);
    }
    let r = p.color_a.r.value();
    assert forall|b: int|
        0 <= b < NUM_BANDS implies (#[trigger] left[b]).value() <= vis.value() && right[b].value() <= vis.value() && r
        * left[b].value() <= r * vis.value() by {
        assert(left[b].le(vis));
        assert(right[b].le(vis));
        lemma_value_le(left[b], vis);
        lemma_value_le(right[b], vis);
        let x = left[b].value();
        let y = vis.value();
        assert(r * x <= r * y) by (nonlinear_arith)
            requires x <= y, r >= 0real;
    }
}

/// The border runs through the points in the first colour, as opaque as the visibility.
pub proof fn law_border_is_as_opaque_as_the_music_is_loud(pts: Seq<Point>, p: Palette, closed: bool, vis: F32, k: int)
    requires
        pts.len() >= 2,
        0 <= k < neon_line(pts, p, closed, vis).len(),
    ensures
        neon_line(pts, p, closed, vis).len() == pts.len() + if closed {
            1int
        } else {
            0int
        },
        ({
            let v = neon_line(pts, p, closed, vis)[k];
            let i = if k < pts.len() {
                k
            } else {
                0
            };
            &&& v.x == pts[i].0
            &&& v.y == pts[i].1
            &&& v.r == p.color_a.r
            &&& v.g == p.color_a.g
            &&& v.b == p.color_a.b
            &&& v.a == vis
        }),
{
}

/// The fill joins each point to its base: from the first colour, transparent, to the
/// second at a fifth of the opacity.
pub proof fn law_fill_joins_points_and_bases(pts: Seq<Point>, bases: Seq<Point>, p: Palette, closed: bool, j: int)
    requires
        pts.len() >= 1,
        0 <= j < fill(pts, bases, p, closed).len(),
    ensures
        fill(pts, bases, p, closed).len() == 2 * pts.len() + if closed {
            2int
        } else {
            0int
        },
        ({
            let v = fill(pts, bases, p, closed)[j];
            let i = if j / 2 < pts.len() {
                j / 2
            } else {
                0
            };
            &&& j % 2 == 0 ==> v.x == bases[i].0 && v.y == bases[i].1 && v.r == p.color_a.r && v.g == p.color_a.g && v.b
                == p.color_a.b && v.a.value() == 0real
            &&& j % 2 == 1 ==> v.x == pts[i].0 && v.y == pts[i].1 && v.r == p.color_b.r && v.g == p.color_b.g && v.b
                == p.color_b.b && close(v.a, 20real / 100real, 1real / 10000000real)
        }),
{
    lemma_constants();
    lemma_value_quotient(20, 100);
}

/// The floor lies below every point, at the lower edge of the screen.
pub proof fn law_floor_is_below(pts: Seq<Point>, i: int)
    requires
        0 <= i < pts.len(),
    ensures
        floor_points(pts).len() == pts.len(),
        floor_points(pts)[i].0 == pts[i].0,
        floor_points(pts)[i].1.value() == -1real,
{
    lemma_constants();
}

/// The area under the line goes from the lower edge, in the first colour and transparent,
/// to the line, in the second and opaque.
pub proof fn law_area_reaches_from_the_floor_to_the_line(pts: Seq<Point>, p: Palette, j: int)
    requires
        0 <= j < 2 * pts.len(),
        !pts[j / 2].1.nan(),
    ensures
        line_area(pts, p).len() == 2 * pts.len(),
        ({
            let v = line_area(pts, p)[j];
            let q = pts[j / 2];
            &&& v.x == q.0
            &&& j % 2 == 0 ==> v.y.value() == -1real && v.r == p.color_a.r && v.g == p.color_a.g && v.b == p.color_a.b
                && v.a.value() == 0real
            &&& j % 2 == 1 ==> v.r == p.color_b.r && v.g == p.color_b.g && v.b == p.color_b.b && v.a.value() == 1real
                && v.y.value() == if q.1.value() < -1real {
                -1real
            } else {
                q.1.value()
            }
        }),
{
    lemma_constants();
    lemma_value_le(pts[j / 2].1, -F32::unit());
}

} // verus!
