//! Strips of triangles along curves.

use super::curve::{curve, line_curve_points, smooth_curve, spectrum_points, Point, SMOOTH_SUBDIV};
use super::levels::{loudest, peak_level};
use super::paint::{part_of, scale, scaled, Palette, Vertex};
use crate::bands::NUM_BANDS;
use crate::config::Rgb;
use crate::dsp::{is_part, SpectrumFrame};
use crate::exact::neon::law_halo_is_as_bright_as_the_music_is_loud;
use crate::exact::paint::is_color;
use crate::float::laws::{lemma_neg, lemma_one};
use crate::float::value::close;
use crate::float::F32;
use core::ops::Neg;
use vstd::prelude::*;

verus! {

/// The point before point `i` of a line; the first itself where an open line starts.
pub open spec fn before(pts: Seq<Point>, i: int, closed: bool) -> Point {
    if i > 0 {
        pts[i - 1]
    } else if closed {
        pts[pts.len() - 1]
    } else {
        pts[0]
    }
}

/// The point after point `i` of a line; the last itself where an open line ends.
pub open spec fn behind(pts: Seq<Point>, i: int, closed: bool) -> Point {
    if i < pts.len() - 1 {
        pts[i + 1]
    } else if closed {
        pts[0]
    } else {
        pts[pts.len() - 1]
    }
}

/// The vector of length `w` across the way from `from` to `to`.
pub open spec fn across(from: Point, to: Point, w: F32) -> Point {
    let tx = to.0 - from.0;
    let ty = to.1 - from.1;
    let len = (tx * tx + ty * ty).root().larger(F32::quotient(1, 1_000_000));
    (-ty / len * w, tx / len * w)
}

pub(crate) fn across_of(from: Point, to: Point, w: F32) -> (r: Point)
    ensures
        r == across(from, to, w),
{
    let tx = to.0 - from.0;
    let ty = to.1 - from.1;
    let len = (tx * tx + ty * ty).sqrt().max(F32::ratio(1, 1_000_000));
    (ty.neg() / len * w, tx / len * w)
}

/// The vector across the line at point `i`.
pub open spec fn across_line(pts: Seq<Point>, i: int, closed: bool, w: F32) -> Point {
    across(before(pts, i, closed), behind(pts, i, closed), w)
}

fn across_line_of(pts: &[Point], i: usize, closed: bool, w: F32) -> (r: Point)
    requires
        i < pts@.len(),
    ensures
        r == across_line(pts@, i as int, closed, w),
{
    let n: usize = pts.len();
    let from = if i > 0 {
        pts[i - 1]
    } else if closed {
        pts[n - 1]
    } else {
        pts[0]
    };
    let to = if i < n - 1 {
        pts[i + 1]
    } else if closed {
        pts[0]
    } else {
        pts[n - 1]
    };
    across_of(from, to, w)
}

/// How many points a strip visits: a closed line comes back to its first.
pub open spec fn visits(n: int, closed: bool) -> int {
    if closed {
        n + 1
    } else {
        n
    }
}

/// The point that a strip visits at step `k`.
pub open spec fn visited(n: int, k: int) -> int {
    if k < n {
        k
    } else {
        0
    }
}

/// The pair of strip vertices at step `k` of a luminous ribbon: one on either side,
/// with the distance from its middle line in place of the opacity.
pub open spec fn ribbon_vertex(
    pts: Seq<Point>,
    cols: Seq<Rgb>,
    widths: Seq<F32>,
    closed: bool,
    inv_aspect: F32,
    i: int,
    second: bool,
) -> Vertex {
    let p = pts[i];
    let n = across_line(pts, i, closed, widths[i]);
    if second {
        Vertex::at((p.0 - n.0) * inv_aspect, p.1 - n.1, cols[i], -F32::unit())
    } else {
        Vertex::at((p.0 + n.0) * inv_aspect, p.1 + n.1, cols[i], F32::unit())
    }
}

fn push_ribbon_pair(
    strip: &mut Vec<Vertex>,
    pts: &[Point],
    cols: &[Rgb],
    widths: &[F32],
    closed: bool,
    inv_aspect: F32,
    i: usize,
)
    requires
        i < pts@.len(),
        i < cols@.len(),
        i < widths@.len(),
    ensures
        final(strip)@ == old(strip)@.push(
            ribbon_vertex(pts@, cols@, widths@, closed, inv_aspect, i as int, false),
        ).push(ribbon_vertex(pts@, cols@, widths@, closed, inv_aspect, i as int, true)),
{
    let p = pts[i];
    let d = across_line_of(pts, i, closed, widths[i]);
    strip.push(Vertex::new((p.0 + d.0) * inv_aspect, p.1 + d.1, cols[i], F32::one()));
    strip.push(Vertex::new((p.0 - d.0) * inv_aspect, p.1 - d.1, cols[i], F32::one().neg()));
}

/// A luminous ribbon along a line, as a triangle strip.
pub open spec fn ribbon(pts: Seq<Point>, cols: Seq<Rgb>, widths: Seq<F32>, closed: bool, inv_aspect: F32) -> Seq<
    Vertex,
> {
    let n = pts.len() as int;
    Seq::new(
        (2 * visits(n, closed)) as nat,
        |j: int| ribbon_vertex(pts, cols, widths, closed, inv_aspect, visited(n, j / 2), j % 2 == 1),
    )
}

/// Two strips in one: between them the last vertex of the first and the first of the
/// second are repeated, which gives triangles without area.
pub open spec fn stitched(out: Seq<Vertex>, strip: Seq<Vertex>) -> Seq<Vertex> {
    if out.len() == 0 {
        strip
    } else {
        out.push(out[out.len() - 1]).push(strip[0]) + strip
    }
}

/// Appends a strip to a strip.
pub fn stitch(out: &mut Vec<Vertex>, strip: &Vec<Vertex>)
    requires
        strip@.len() > 0,
    ensures
        final(out)@ == stitched(old(out)@, strip@),
{
    let ghost first = out@;
    if out.len() > 0 {
        let last = out[out.len() - 1];
        out.push(last);
        out.push(strip[0]);
    }
    let ghost start = out@;
    let mut i: usize = 0;
    assert(out@ =~= start + strip@.take(0));
    while i < strip.len()
        invariant
            i <= strip.len(),
            out@ == start + strip@.take(i as int),
        decreases strip.len() - i,
    {
        out.push(strip[i]);
        assert(start + strip@.take(i + 1) =~= (start + strip@.take(i as int)).push(strip@[i as int]));
        i = i + 1;
    }
    assert(strip@.take(strip@.len() as int) =~= strip@);
    assert(start + strip@ =~= stitched(first, strip@));
}

/// What a ribbon along a line leaves of a strip: lines of fewer than three points
/// are not drawn.
pub open spec fn with_ribbon(
    out: Seq<Vertex>,
    pts: Seq<Point>,
    cols: Seq<Rgb>,
    widths: Seq<F32>,
    closed: bool,
    inv_aspect: F32,
) -> Seq<Vertex> {
    if pts.len() < 3 {
        out
    } else {
        stitched(out, ribbon(pts, cols, widths, closed, inv_aspect))
    }
}

/// Appends a luminous ribbon along a line, with a colour and a width per point.
pub fn push_glow_ribbon(
    out: &mut Vec<Vertex>,
    pts: &[Point],
    cols: &[Rgb],
    widths: &[F32],
    closed: bool,
    inv_aspect: F32,
)
    requires
        pts@.len() >= 3 ==> cols@.len() >= pts@.len(),
        pts@.len() >= 3 ==> widths@.len() >= pts@.len(),
    ensures
        final(out)@ == with_ribbon(old(out)@, pts@, cols@, widths@, closed, inv_aspect),
{
    let n: usize = pts.len();
    if n < 3 {
        return;
    }
    let mut strip: Vec<Vertex> = Vec::new();
    let mut k: usize = 0;
    while k < n
        invariant
            k <= n,
            n == pts@.len(),
            n >= 3,
            cols@.len() >= n,
            widths@.len() >= n,
            strip@.len() == 2 * k,
            forall|j: int|
                0 <= j < 2 * k ==> #[trigger] strip@[j] == ribbon_vertex(
                    pts@,
                    cols@,
                    widths@,
                    closed,
                    inv_aspect,
                    visited(n as int, j / 2),
                    j % 2 == 1,
                ),
        decreases n - k,
    {
        push_ribbon_pair(&mut strip, pts, cols, widths, closed, inv_aspect, k);
        k = k + 1;
    }
    if closed {
        push_ribbon_pair(&mut strip, pts, cols, widths, closed, inv_aspect, 0);
    }
    assert(strip@ =~= ribbon(pts@, cols@, widths@, closed, inv_aspect));
    stitch(out, &strip);
}

/// The opacity of the fill under a curve.
pub open spec fn fill_alpha() -> F32 {
    F32::quotient(20, 100)
}

/// The half width of the neon ribbon.
pub open spec fn neon_half_width() -> F32 {
    F32::quotient(24, 1000)
}

/// The fill between a base line and a curve: transparent at the base.
pub open spec fn fill(pts: Seq<Point>, bases: Seq<Point>, p: Palette, closed: bool) -> Seq<Vertex> {
    let n = pts.len() as int;
    if n == 0 {
        Seq::empty()
    } else {
        Seq::new(
            (2 * visits(n, closed)) as nat,
            |j: int|
                {
                    let i = visited(n, j / 2);
                    if j % 2 == 0 {
                        Vertex::at(bases[i].0, bases[i].1, p.color_a, F32::nought())
                    } else {
                        Vertex::at(pts[i].0, pts[i].1, p.color_b, fill_alpha())
                    }
                },
        )
    }
}

fn push_fill_pair(v: &mut Vec<Vertex>, base: Point, p: Point, palette: &Palette)
    ensures
        final(v)@ == old(v)@.push(Vertex::at(base.0, base.1, palette.color_a, F32::nought())).push(
            Vertex::at(p.0, p.1, palette.color_b, fill_alpha()),
        ),
{
    v.push(Vertex::new(base.0, base.1, palette.color_a, F32::zero()));
    v.push(Vertex::new(p.0, p.1, palette.color_b, F32::ratio(20, 100)));
}

/// Fills the area between a base line and a curve.
pub fn build_fill(pts: &[Point], bases: &[Point], palette: &Palette, closed: bool) -> (v: Vec<Vertex>)
    requires
        bases@.len() >= pts@.len(),
    ensures
        v@ == fill(pts@, bases@, *palette, closed),
{
    let n: usize = pts.len();
    let mut v: Vec<Vertex> = Vec::new();
    if n == 0 {
        return v;
    }
    let ghost full = fill(pts@, bases@, *palette, closed);
    let mut k: usize = 0;
    while k < n
        invariant
            k <= n,
            n == pts@.len(),
            n > 0,
            bases@.len() >= n,
            full == fill(pts@, bases@, *palette, closed),
            v@.len() == 2 * k,
            forall|j: int| 0 <= j < 2 * k ==> #[trigger] v@[j] == full[j],
        decreases n - k,
    {
        push_fill_pair(&mut v, bases[k], pts[k], palette);
        k = k + 1;
    }
    if closed {
        push_fill_pair(&mut v, bases[0], pts[0], palette);
    }
    assert(v@ =~= full);
    v
}

/// The neon border: a ribbon in the first colour, as bright as `vis`.
pub open spec fn neon(pts: Seq<Point>, p: Palette, closed: bool, vis: F32) -> Seq<Vertex> {
    let n = pts.len() as int;
    let c = scaled(p.color_a, vis);
    if n < 2 {
        Seq::empty()
    } else {
        Seq::new(
            (2 * visits(n, closed)) as nat,
            |j: int|
                {
                    let i = visited(n, j / 2);
                    let d = across_line(pts, i, closed, neon_half_width());
                    if j % 2 == 0 {
                        Vertex::at(pts[i].0 + d.0, pts[i].1 + d.1, c, F32::unit())
                    } else {
                        Vertex::at(pts[i].0 - d.0, pts[i].1 - d.1, c, -F32::unit())
                    }
                },
        )
    }
}

fn push_neon_pair(v: &mut Vec<Vertex>, pts: &[Point], c: Rgb, closed: bool, i: usize)
    requires
        i < pts@.len(),
    ensures
        ({
            let p = pts@[i as int];
            let d = across_line(pts@, i as int, closed, neon_half_width());
            final(v)@ == old(v)@.push(Vertex::at(p.0 + d.0, p.1 + d.1, c, F32::unit())).push(
                Vertex::at(p.0 - d.0, p.1 - d.1, c, -F32::unit()),
            )
        }),
{
    let d = across_line_of(pts, i, closed, F32::ratio(24, 1000));
    let p = pts[i];
    v.push(Vertex::new(p.0 + d.0, p.1 + d.1, c, F32::one()));
    v.push(Vertex::new(p.0 - d.0, p.1 - d.1, c, F32::one().neg()));
}

/// Builds the neon border of a curve.
pub fn build_neon(pts: &[Point], palette: &Palette, closed: bool, vis: F32) -> (v: Vec<Vertex>)
    ensures
        v@ == neon(pts@, *palette, closed, vis),
        is_color(palette.color_a) && is_part(vis) ==> forall|j: int|
            0 <= j < v@.len() ==> close(
                (#[trigger] v@[j]).r,
                palette.color_a.r.value() * vis.value(),
                1real / 1000000real,
            ) && close(v@[j].g, palette.color_a.g.value() * vis.value(), 1real / 1000000real) && close(
                v@[j].b,
                palette.color_a.b.value() * vis.value(),
                1real / 1000000real,
            ),
{
    let n: usize = pts.len();
    let mut v: Vec<Vertex> = Vec::new();
    if n < 2 {
        return v;
    }
    let c = scale(palette.color_a, vis);
    let ghost full = neon(pts@, *palette, closed, vis);
    let mut k: usize = 0;
    while k < n
        invariant
            k <= n,
            n == pts@.len(),
            n >= 2,
            c == scaled(palette.color_a, vis),
            full == neon(pts@, *palette, closed, vis),
            v@.len() == 2 * k,
            forall|j: int| 0 <= j < 2 * k ==> #[trigger] v@[j] == full[j],
        decreases n - k,
    {
        push_neon_pair(&mut v, pts, c, closed, k);
        k = k + 1;
    }
    if closed {
        push_neon_pair(&mut v, pts, c, closed, 0);
    }
    assert(v@ =~= full);
    proof {
        if is_color(palette.color_a) && is_part(vis) {
            assert forall|j: int| 0 <= j < v@.len() implies close(
                (#[trigger] v@[j]).r,
                palette.color_a.r.value() * vis.value(),
                1real / 1000000real,
            ) && close(v@[j].g, palette.color_a.g.value() * vis.value(), 1real / 1000000real) && close(
                v@[j].b,
                palette.color_a.b.value() * vis.value(),
                1real / 1000000real,
            ) by {
                law_halo_is_as_bright_as_the_music_is_loud(pts@, *palette, closed, vis, j);
            }
        }
    }
    v
}

/// The thin border: the curve itself in the first colour, as opaque as `vis`.
pub open spec fn neon_line(pts: Seq<Point>, p: Palette, closed: bool, vis: F32) -> Seq<Vertex> {
    let n = pts.len() as int;
    if n < 2 {
        Seq::empty()
    } else {
        Seq::new(
            visits(n, closed) as nat,
            |k: int| Vertex::at(pts[visited(n, k)].0, pts[visited(n, k)].1, p.color_a, vis),
        )
    }
}

/// Builds the thin border of a curve.
pub fn build_neon_line(pts: &[Point], palette: &Palette, closed: bool, vis: F32) -> (v: Vec<Vertex>)
    ensures
        v@ == neon_line(pts@, *palette, closed, vis),
{
    let n: usize = pts.len();
    let mut v: Vec<Vertex> = Vec::new();
    if n < 2 {
        return v;
    }
    let ghost full = neon_line(pts@, *palette, closed, vis);
    let mut k: usize = 0;
    while k < n
        invariant
            k <= n,
            n == pts@.len(),
            n >= 2,
            full == neon_line(pts@, *palette, closed, vis),
            v@.len() == k,
            forall|j: int| 0 <= j < k ==> #[trigger] v@[j] == full[j],
        decreases n - k,
    {
        let p = pts[k];
        v.push(Vertex::new(p.0, p.1, palette.color_a, vis));
        k = k + 1;
    }
    if closed {
        let p = pts[0];
        v.push(Vertex::new(p.0, p.1, palette.color_a, vis));
    }
    assert(v@ =~= full);
    v
}

/// The three layers of a neon curve.
pub struct Neon {
    /// The faint fill, as a triangle strip.
    pub fill: Vec<Vertex>,
    /// The halo, as a triangle strip.
    pub halo: Vec<Vertex>,
    /// The thin border, as a line strip.
    pub line: Vec<Vertex>,
}

impl Neon {
    /// Whether these are the layers of a curve over a base line.
    pub open spec fn draws(self, pts: Seq<Point>, bases: Seq<Point>, p: Palette, closed: bool, vis: F32) -> bool {
        &&& self.fill@ == fill(pts, bases, p, closed)
        &&& self.halo@ == neon(pts, p, closed, vis)
        &&& self.line@ == neon_line(pts, p, closed, vis)
    }
}

pub(crate) fn build_layers(pts: &[Point], bases: &[Point], palette: &Palette, closed: bool, vis: F32) -> (r: Neon)
    requires
        bases@.len() >= pts@.len(),
    ensures
        r.draws(pts@, bases@, *palette, closed, vis),
{
    Neon {
        fill: build_fill(pts, bases, palette, closed),
        halo: build_neon(pts, palette, closed, vis),
        line: build_neon_line(pts, palette, closed, vis),
    }
}

/// The smooth mirrored line of the spectrum.
pub open spec fn spectrum_line(left: Seq<F32>, right: Seq<F32>) -> Seq<Point> {
    curve(spectrum_points(left, right), false, SMOOTH_SUBDIV as int)
}

/// The points of the lower edge below a line.
pub open spec fn floor_points(pts: Seq<Point>) -> Seq<Point> {
    Seq::new(pts.len(), |i: int| (pts[i].0, -F32::unit()))
}

/// How visible the border is: as loud as the peak.
pub open spec fn visibility(left: Seq<F32>, right: Seq<F32>) -> F32 {
    part_of(loudest(left, right, NUM_BANDS as int))
}

/// The neon line: mirrored, over the lower edge of the screen.
pub fn build_line_spectrum(left: &SpectrumFrame, right: &SpectrumFrame, palette: &Palette) -> (r: Neon)
    ensures
        r.draws(
            spectrum_line(left@, right@),
            floor_points(spectrum_line(left@, right@)),
            *palette,
            false,
            visibility(left@, right@),
        ),
{
    let raw = line_curve_points(left, right);
    let pts = smooth_curve(raw.as_slice(), false);
    let minus = F32::one().neg();
    let mut bases: Vec<Point> = Vec::new();
    let mut i: usize = 0;
    while i < pts.len()
        invariant
            i <= pts.len(),
            minus == -F32::unit(),
            bases@.len() == i,
            forall|j: int| 0 <= j < i ==> #[trigger] bases@[j] == (pts@[j].0, -F32::unit()),
        decreases pts.len() - i,
    {
        bases.push((pts[i].0, minus));
        i = i + 1;
    }
    assert(bases@ =~= floor_points(pts@));
    let vis = peak_level(left, right);
    build_layers(pts.as_slice(), bases.as_slice(), palette, false, vis)
}

/// The filled line: transparent at the lower edge, opaque along the curve.
pub open spec fn line_area(pts: Seq<Point>, p: Palette) -> Seq<Vertex> {
    Seq::new(
        2 * pts.len(),
        |j: int|
            {
                let q = pts[j / 2];
                if j % 2 == 0 {
                    Vertex::at(q.0, -F32::unit(), p.color_a, F32::nought())
                } else {
                    Vertex::at(q.0, q.1.larger(-F32::unit()), p.color_b, F32::unit())
                }
            },
    )
}

/// The mirrored spectrum as a filled smooth line.
pub fn build_line_vertices(left: &SpectrumFrame, right: &SpectrumFrame, palette: &Palette) -> (v: Vec<Vertex>)
    ensures
        v@ == line_area(spectrum_line(left@, right@), *palette),
{
    let raw = line_curve_points(left, right);
    let pts = smooth_curve(raw.as_slice(), false);
    let minus = F32::one().neg();
    let ghost full = line_area(pts@, *palette);
    let mut v: Vec<Vertex> = Vec::new();
    let mut i: usize = 0;
    while i < pts.len()
        invariant
            i <= pts.len(),
            minus == -F32::unit(),
            full == line_area(pts@, *palette),
            v@.len() == 2 * i,
            forall|j: int| 0 <= j < 2 * i ==> #[trigger] v@[j] == full[j],
        decreases pts.len() - i,
    {
        let p = pts[i];
        v.push(Vertex::new(p.0, minus, palette.color_a, F32::zero()));
        v.push(Vertex::new(p.0, p.1.max(minus), palette.color_b, F32::one()));
        i = i + 1;
    }
    assert(v@ =~= full);
    v
}

/// The filled line never goes below the lower edge of the screen.
pub proof fn law_line_stays_above_floor(pts: Seq<Point>, p: Palette, j: int)
    requires
        0 <= j < 2 * pts.len(),
    ensures
        (-F32::unit()).le(line_area(pts, p)[j].y),
{
    lemma_one();
    lemma_neg(F32::unit());
}

/// A stitched strip shows the triangles of both strips and, between them, only
/// triangles with two equal corners.
pub proof fn law_stitching_adds_no_area(out: Seq<Vertex>, strip: Seq<Vertex>, k: int)
    requires
        strip.len() > 0,
        out.len() > 0,
        0 <= k < stitched(out, strip).len() - 2,
    ensures
        ({
            let s = stitched(out, strip);
            ||| k + 2 < out.len() && s[k] == out[k] && s[k + 1] == out[k + 1] && s[k + 2] == out[k + 2]
            ||| k >= out.len() + 2 && s[k] == strip[k - out.len() - 2] && s[k + 1] == strip[k - out.len() - 1] && s[k + 2]
                == strip[k - out.len()]
            ||| s[k] == s[k + 1] || s[k + 1] == s[k + 2] || s[k] == s[k + 2]
        }),
{
}

} // verus!
