//! The radial spectrum. Sines and cosines are the caller's: each picture says at
//! which angles it needs them.

use super::curve::{curve, smooth_curve, Point, SMOOTH_SUBDIV};
use super::levels::peak_level;
use super::paint::{clamp_part, part_of, ramp, ramp_at, Palette, Vertex};
use super::ribbon::{build_layers, visibility, Neon};
use crate::bands::NUM_BANDS;
use crate::dsp::{circle, pi, SpectrumFrame};
use crate::float::F32;
use crate::stereo::quarter;
use vstd::prelude::*;

verus! {

/// The sine and the cosine of an angle.
#[derive(Debug, Clone, Copy, PartialEq, Eq, Structural)]
pub struct Turn {
    pub sin: F32,
    pub cos: F32,
}

/// The radius of the inner ring.
pub open spec fn radial_inner() -> F32 {
    F32::quotient(28, 100)
}

pub(crate) fn inner_radius() -> (r: F32)
    ensures
        r == radial_inner(),
{
    F32::ratio(28, 100)
}

/// The radius of the tip of a value.
pub open spec fn tip(h: F32) -> F32 {
    radial_inner() + part_of(h) * F32::quotient(62, 100)
}

pub(crate) fn tip_of(h: F32) -> (r: F32)
    ensures
        r == tip(h),
{
    inner_radius() + clamp_part(h) * F32::ratio(62, 100)
}

/// The angle of band `i` of the right channel: from the top down the right side.
pub open spec fn right_angle(i: int) -> F32 {
    quarter() - ramp(i) * pi()
}

/// The angle of band `i` of the left channel: from the top down the left side.
pub open spec fn left_angle(i: int) -> F32 {
    quarter() + ramp(i) * pi()
}

pub(crate) fn right_angle_of(i: usize) -> (r: F32)
    ensures
        r == right_angle(i as int),
{
    F32::ratio(13176795, 8388608) - ramp_at(i) * circle()
}

pub(crate) fn left_angle_of(i: usize) -> (r: F32)
    ensures
        r == left_angle(i as int),
{
    F32::ratio(13176795, 8388608) + ramp_at(i) * circle()
}

/// Half the angle that a spoke covers.
pub open spec fn spoke_half() -> F32 {
    pi() / F32::whole(NUM_BANDS as int) * F32::quotient(40, 100)
}

/// The angles of the spokes: for each band both borders of the right spoke, then both
/// of the left.
pub open spec fn spoke_angle(k: int) -> F32 {
    let mid = if k % 4 < 2 {
        right_angle(k / 4)
    } else {
        left_angle(k / 4)
    };
    if k % 2 == 0 {
        mid - spoke_half()
    } else {
        mid + spoke_half()
    }
}

/// The angles at which the spokes need sines and cosines.
pub fn spoke_angles() -> (r: Vec<F32>)
    ensures
        r@ == Seq::new(256, |k: int| spoke_angle(k)),
{
    let half = circle() / F32::from_int(NUM_BANDS as u64) * F32::ratio(40, 100);
    let mut r: Vec<F32> = Vec::new();
    let mut i: usize = 0;
    while i < NUM_BANDS
        invariant
            i <= NUM_BANDS,
            half == spoke_half(),
            r@.len() == 4 * i,
            forall|k: int| 0 <= k < 4 * i ==> #[trigger] r@[k] == spoke_angle(k),
        decreases NUM_BANDS - i,
    {
        let a = right_angle_of(i);
        let b = left_angle_of(i);
        r.push(a - half);
        r.push(a + half);
        r.push(b - half);
        r.push(b + half);
        i = i + 1;
    }
    assert(r@ =~= Seq::new(256, |k: int| spoke_angle(k)));
    r
}

/// The point at an angle and a distance from the centre.
pub open spec fn polar(t: Turn, r: F32, inv_aspect: F32) -> Point {
    (t.cos * r * inv_aspect, t.sin * r)
}

fn polar_of(t: Turn, r: F32, inv_aspect: F32) -> (p: Point)
    ensures
        p == polar(t, r, inv_aspect),
{
    (t.cos * r * inv_aspect, t.sin * r)
}

/// One spoke as two triangles: transparent inside, opaque at the tip.
pub open spec fn spoke(from: Turn, to: Turn, h: F32, p: Palette, inv_aspect: F32) -> Seq<Vertex> {
    let il = polar(from, radial_inner(), inv_aspect);
    let ir = polar(to, radial_inner(), inv_aspect);
    let ol = polar(from, tip(h), inv_aspect);
    let or = polar(to, tip(h), inv_aspect);
    let o = F32::nought();
    let u = F32::unit();
    seq![
        Vertex::at(il.0, il.1, p.color_a, o),
        Vertex::at(ir.0, ir.1, p.color_a, o),
        Vertex::at(or.0, or.1, p.color_b, u),
        Vertex::at(il.0, il.1, p.color_a, o),
        Vertex::at(or.0, or.1, p.color_b, u),
        Vertex::at(ol.0, ol.1, p.color_b, u),
    ]
}

fn push_spoke(v: &mut Vec<Vertex>, from: Turn, to: Turn, h: F32, p: &Palette, inv_aspect: F32)
    ensures
        final(v)@ == old(v)@ + spoke(from, to, h, *p, inv_aspect),
{
    let r0 = inner_radius();
    let r1 = tip_of(h);
    let il = polar_of(from, r0, inv_aspect);
    let ir = polar_of(to, r0, inv_aspect);
    let ol = polar_of(from, r1, inv_aspect);
    let or = polar_of(to, r1, inv_aspect);
    let o = F32::zero();
    let u = F32::one();
    v.push(Vertex::new(il.0, il.1, p.color_a, o));
    v.push(Vertex::new(ir.0, ir.1, p.color_a, o));
    v.push(Vertex::new(or.0, or.1, p.color_b, u));
    v.push(Vertex::new(il.0, il.1, p.color_a, o));
    v.push(Vertex::new(or.0, or.1, p.color_b, u));
    v.push(Vertex::new(ol.0, ol.1, p.color_b, u));
    assert(v@ =~= old(v)@ + spoke(from, to, h, *p, inv_aspect));
}

/// The spokes of the first `n` bands.
pub open spec fn spokes(
    left: Seq<F32>,
    right: Seq<F32>,
    turns: Seq<Turn>,
    n: int,
    p: Palette,
    inv_aspect: F32,
) -> Seq<Vertex>
    decreases n,
{
    if n <= 0 {
        Seq::empty()
    } else {
        let k = 4 * (n - 1);
        spokes(left, right, turns, n - 1, p, inv_aspect) + spoke(turns[k], turns[k + 1], right[n - 1], p, inv_aspect)
            + spoke(turns[k + 2], turns[k + 3], left[n - 1], p, inv_aspect)
    }
}

/// The mirrored ring of spokes; `turns` holds sine and cosine at the spoke angles.
pub fn build_radial_spokes(
    left: &SpectrumFrame,
    right: &SpectrumFrame,
    palette: &Palette,
    inv_aspect: F32,
    turns: &[Turn],
) -> (v: Vec<Vertex>)
    requires
        turns@.len() == 256,
    ensures
        v@ == spokes(left@, right@, turns@, NUM_BANDS as int, *palette, inv_aspect),
{
    let mut v: Vec<Vertex> = Vec::new();
    assert(v@ =~= spokes(left@, right@, turns@, 0, *palette, inv_aspect));
    let mut i: usize = 0;
    while i < NUM_BANDS
        invariant
            i <= NUM_BANDS,
            turns@.len() == 256,
            v@ == spokes(left@, right@, turns@, i as int, *palette, inv_aspect),
        decreases NUM_BANDS - i,
    {
        push_spoke(&mut v, turns[4 * i], turns[4 * i + 1], right[i], palette, inv_aspect);
        push_spoke(&mut v, turns[4 * i + 2], turns[4 * i + 3], left[i], palette, inv_aspect);
        i = i + 1;
    }
    v
}

/// The angles around the circle: down the right side, and up the left.
pub open spec fn round_angle(j: int) -> F32 {
    if j < NUM_BANDS {
        right_angle(j)
    } else {
        left_angle(127 - j)
    }
}

/// The angles at which the radial curve needs sines and cosines.
pub fn round_angles() -> (r: Vec<F32>)
    ensures
        r@ == Seq::new(128, |j: int| round_angle(j)),
{
    let mut r: Vec<F32> = Vec::new();
    let mut j: usize = 0;
    while j < 128
        invariant
            j <= 128,
            r@.len() == j,
            forall|k: int| 0 <= k < j ==> #[trigger] r@[k] == round_angle(k),
        decreases 128 - j,
    {
        if j < NUM_BANDS {
            r.push(right_angle_of(j));
        } else {
            r.push(left_angle_of(127 - j));
        }
        j = j + 1;
    }
    assert(r@ =~= Seq::new(128, |j: int| round_angle(j)));
    r
}

/// The value at step `j` around the circle.
pub open spec fn round_value(left: Seq<F32>, right: Seq<F32>, j: int) -> F32 {
    if j < NUM_BANDS {
        right[j]
    } else {
        left[127 - j]
    }
}

/// The points of the spectrum around the circle.
pub open spec fn round_points(left: Seq<F32>, right: Seq<F32>, turns: Seq<Turn>, inv_aspect: F32) -> Seq<Point> {
    Seq::new(128, |j: int| polar(turns[j], tip(round_value(left, right, j)), inv_aspect))
}

/// A point moved along its ray to the inner ring.
pub open spec fn to_inner(p: Point, inv_aspect: F32) -> Point {
    let sx = p.0 / inv_aspect;
    let len = (sx * sx + p.1 * p.1).root().larger(F32::quotient(1, 1_000_000));
    (sx / len * radial_inner() * inv_aspect, p.1 / len * radial_inner())
}

fn to_inner_of(p: Point, inv_aspect: F32) -> (r: Point)
    ensures
        r == to_inner(p, inv_aspect),
{
    let sx = p.0 / inv_aspect;
    let len = (sx * sx + p.1 * p.1).sqrt().max(F32::ratio(1, 1_000_000));
    (sx / len * inner_radius() * inv_aspect, p.1 / len * inner_radius())
}

/// The smooth closed curve of the spectrum around the circle.
pub open spec fn round_line(left: Seq<F32>, right: Seq<F32>, turns: Seq<Turn>, inv_aspect: F32) -> Seq<Point> {
    curve(round_points(left, right, turns, inv_aspect), true, SMOOTH_SUBDIV as int)
}

/// The points of the inner ring below a curve.
pub open spec fn inner_points(pts: Seq<Point>, inv_aspect: F32) -> Seq<Point> {
    Seq::new(pts.len(), |i: int| to_inner(pts[i], inv_aspect))
}

/// The neon curve around the circle; `turns` holds sine and cosine at the angles
/// around it.
pub fn build_radial_spectrum(
    left: &SpectrumFrame,
    right: &SpectrumFrame,
    palette: &Palette,
    inv_aspect: F32,
    turns: &[Turn],
) -> (r: Neon)
    requires
        turns@.len() == 128,
    ensures
        r.draws(
            round_line(left@, right@, turns@, inv_aspect),
            inner_points(round_line(left@, right@, turns@, inv_aspect), inv_aspect),
            *palette,
            true,
            visibility(left@, right@),
        ),
{
    let mut raw: Vec<Point> = Vec::new();
    let mut j: usize = 0;
    while j < 128
        invariant
            j <= 128,
            turns@.len() == 128,
            raw@.len() == j,
            forall|k: int|
                0 <= k < j ==> #[trigger] raw@[k] == polar(
                    turns@[k],
                    tip(round_value(left@, right@, k)),
                    inv_aspect,
                ),
        decreases 128 - j,
    {
        let h = if j < NUM_BANDS {
            right[j]
        } else {
            left[127 - j]
        };
        raw.push(polar_of(turns[j], tip_of(h), inv_aspect));
        j = j + 1;
    }
    assert(raw@ =~= round_points(left@, right@, turns@, inv_aspect));
    let pts = smooth_curve(raw.as_slice(), true);
    let mut bases: Vec<Point> = Vec::new();
    let mut i: usize = 0;
    while i < pts.len()
        invariant
            i <= pts.len(),
            bases@.len() == i,
            forall|k: int| 0 <= k < i ==> #[trigger] bases@[k] == to_inner(pts@[k], inv_aspect),
        decreases pts.len() - i,
    {
        bases.push(to_inner_of(pts[i], inv_aspect));
        i = i + 1;
    }
    assert(bases@ =~= inner_points(pts@, inv_aspect));
    let vis = peak_level(left, right);
    build_layers(pts.as_slice(), bases.as_slice(), palette, true, vis)
}

} // verus!
