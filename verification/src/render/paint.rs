//! Vertices and colours.

use crate::bands::NUM_BANDS;
use crate::config::Rgb;
use crate::float::laws::lemma_one;
use crate::float::F32;
use vstd::prelude::*;

verus! {

/// Numbers per vertex in a vertex buffer: x, y, r, g, b, a.
pub const VERT_FLOATS: usize = 6;

/// A vertex: a position and a colour with its opacity.
#[derive(Debug, Clone, Copy, PartialEq, Eq, Structural)]
pub struct Vertex {
    pub x: F32,
    pub y: F32,
    pub r: F32,
    pub g: F32,
    pub b: F32,
    pub a: F32,
}

impl Vertex {
    /// A vertex at (`x`, `y`) in the colour `c` with opacity `a`.
    pub open spec fn at(x: F32, y: F32, c: Rgb, a: F32) -> Vertex {
        Vertex { x, y, r: c.r, g: c.g, b: c.b, a }
    }

    pub(crate) fn new(x: F32, y: F32, c: Rgb, a: F32) -> (v: Vertex)
        ensures
            v == Vertex::at(x, y, c, a),
    {
        Vertex { x, y, r: c.r, g: c.g, b: c.b, a }
    }

    /// Component `k` of a vertex, in the order of a vertex buffer.
    pub open spec fn component(self, k: int) -> F32 {
        if k == 0 {
            self.x
        } else if k == 1 {
            self.y
        } else if k == 2 {
            self.r
        } else if k == 3 {
            self.g
        } else if k == 4 {
            self.b
        } else {
            self.a
        }
    }
}

/// The vertices as a vertex buffer: one component after the other.
pub fn flatten(verts: &[Vertex]) -> (r: Vec<F32>)
    ensures
        r@.len() == verts@.len() * VERT_FLOATS,
        forall|j: int| 0 <= j < r@.len() ==> #[trigger] r@[j] == verts@[j / 6].component(j % 6),
{
    let mut r: Vec<F32> = Vec::new();
    let mut i: usize = 0;
    while i < verts.len()
        invariant
            i <= verts.len(),
            r@.len() == 6 * i,
            forall|j: int| 0 <= j < 6 * i ==> #[trigger] r@[j] == verts@[j / 6].component(j % 6),
        decreases verts.len() - i,
    {
        let v = verts[i];
        r.push(v.x);
        r.push(v.y);
        r.push(v.r);
        r.push(v.g);
        r.push(v.b);
        r.push(v.a);
        i = i + 1;
    }
    r
}

/// The colours of the picture: the two ends of its gradient.
#[derive(Debug, Clone, Copy, PartialEq, Eq, Structural)]
pub struct Palette {
    pub color_a: Rgb,
    pub color_b: Rgb,
}

impl Default for Palette {
    fn default() -> (p: Palette)
        ensures
            p.color_a == Rgb::violet(),
            p.color_b == Rgb::pink(),
    {
        Palette { color_a: Rgb::default_a(), color_b: Rgb::default_b() }
    }
}

/// The colour at part `t` of the way from `a` to `b`.
pub open spec fn mixed(a: Rgb, b: Rgb, t: F32) -> Rgb {
    Rgb { r: a.r.toward(b.r, t), g: a.g.toward(b.g, t), b: a.b.toward(b.b, t) }
}

/// Interpolates two colours.
pub fn mix(a: Rgb, b: Rgb, t: F32) -> (c: Rgb)
    ensures
        c == mixed(a, b, t),
{
    Rgb { r: a.r.approach(b.r, t), g: a.g.approach(b.g, t), b: a.b.approach(b.b, t) }
}

/// A colour with every channel multiplied by `k`.
pub open spec fn scaled(c: Rgb, k: F32) -> Rgb {
    Rgb { r: c.r * k, g: c.g * k, b: c.b * k }
}

pub(crate) fn scale(c: Rgb, k: F32) -> (r: Rgb)
    ensures
        r == scaled(c, k),
{
    Rgb { r: c.r * k, g: c.g * k, b: c.b * k }
}

/// The divisor of the ramp over the bands.
pub open spec fn band_span() -> F32 {
    (F32::whole(NUM_BANDS as int) - F32::unit()).larger(F32::unit())
}

/// The divisor of the ramp over the bands: the last band is at one.
pub fn denom_bands() -> (r: F32)
    ensures
        r == band_span(),
{
    (F32::from_int(NUM_BANDS as u64) - F32::one()).max(F32::one())
}

/// Where band `i` is on the ramp.
pub open spec fn ramp(i: int) -> F32 {
    F32::whole(i) / band_span()
}

pub(crate) fn ramp_at(i: usize) -> (r: F32)
    ensures
        r == ramp(i as int),
{
    F32::from_int(i as u64) / denom_bands()
}

/// `x` limited to the range from zero to one.
pub open spec fn part_of(x: F32) -> F32 {
    x.clamped(F32::nought(), F32::unit())
}

pub(crate) fn clamp_part(x: F32) -> (r: F32)
    ensures
        r == part_of(x),
{
    proof {
        lemma_one();
    }
    x.clamp(F32::zero(), F32::one())
}

} // verus!
