//! The solid on the screen: displaced by the spectrum, turned and seen in
//! perspective. Sines and cosines are the caller's.

use super::mesh::{normalized, on_sphere, Point3, SolidMesh};
use crate::bands::NUM_BANDS;
use crate::config::Rgb;
use crate::dsp::{is_part, lemma_part_is_finite, SpectrumFrame};
use crate::float::error::lemma_quotient_digits;
use crate::float::laws::{
    lemma_add_between, lemma_add_order, lemma_binary_fraction, lemma_bounded_is_finite_between, lemma_div_between,
    lemma_div_sign, lemma_fraction, lemma_half, lemma_mul_between, lemma_mul_is_number, lemma_mul_order, lemma_neg,
    lemma_one, lemma_plus_zero, lemma_quotient_between, lemma_quotient_number, lemma_same_value, lemma_signed,
    lemma_sub_between, lemma_sub_order, lemma_whole, lemma_zero_mag, lemma_zero_product, one_units,
};
use crate::float::repr::INF_MAG;
use crate::float::F32;
use crate::render::levels::Drive;
use crate::render::paint::{clamp_part, mix, mixed, part_of, scale, scaled, Palette, Vertex};
use crate::render::radial::Turn;
use crate::render::ribbon::{across, across_of, stitch, stitched};
use crate::stereo::lemma_product_of_parts;
use core::ops::Neg;
use vstd::arithmetic::div_mod::lemma_fundamental_div_mod;
use vstd::arithmetic::power2::{lemma2_to64, lemma_pow2_pos};
use vstd::prelude::*;

verus! {

/// The radius of the solid at rest.
pub open spec fn solid_r0() -> F32 {
    F32::quotient(56, 100)
}

/// How far the spectrum pushes the vertices out.
pub open spec fn solid_amp() -> F32 {
    F32::quotient(40, 100)
}

/// The focal length.
pub open spec fn solid_focal() -> F32 {
    F32::quotient(22, 10)
}

/// The distance of the solid from the camera at rest.
pub open spec fn solid_dist() -> F32 {
    F32::quotient(34, 10)
}

/// The perspective at the centre at rest, against which depth is measured.
pub open spec fn solid_s0() -> F32 {
    solid_focal() / solid_dist()
}

/// The perspective at the centre at rest.
pub fn rest_perspective() -> (r: F32)
    ensures
        r == solid_s0(),
{
    F32::ratio(22, 10) / F32::ratio(34, 10)
}

/// A place on the ramp of the bands: zero is the first, one the last.
pub open spec fn band_place(t: F32) -> F32 {
    part_of(t) * F32::whole(NUM_BANDS - 1)
}

/// The spectrum between two bands.
pub open spec fn sample(sp: Seq<F32>, t: F32) -> F32 {
    let f = band_place(t);
    let i = f.index();
    let j = if i + 1 < NUM_BANDS {
        i + 1
    } else {
        NUM_BANDS - 1
    };
    sp[i].toward(sp[j], f - F32::whole(i))
}

/// A place lies among the bands.
proof fn lemma_band_place(t: F32)
    ensures
        0 <= band_place(t).index() < NUM_BANDS,
{
    lemma_one();
    reveal(F32::index);
    lemma_pow2_pos(149);
    let f = band_place(t);
    if !f.nan() && !f.negative() {
        if t.nan() {
            reveal(F32::spec_mul);
        } else {
            let x = part_of(t);
            lemma_part_is_finite(x);
            lemma_whole(63);
            let w = one_units();
            let u = x.units();
            assert(0 * w <= u * (63 * w) <= (63 * w) * w) by (nonlinear_arith)
                requires 0 <= u <= w;
            lemma_mul_between(x, F32::whole(63), F32::nought(), F32::whole(63));
            let n = f.units();
            assert(0 <= n <= 63 * w);
            let q = n / w;
            lemma_fundamental_div_mod(n, w);
            assert(0 <= q <= 63) by (nonlinear_arith)
                requires n == w * q + n % w, 0 <= n <= 63 * w, 0 <= n % w < w, w > 0;
        }
    }
}

/// Samples the spectrum at a place from zero to one, between two bands.
pub fn sample_spectrum(sp: &SpectrumFrame, t: F32) -> (r: F32)
    ensures
        r == sample(sp@, t),
{
    let f = clamp_part(t) * F32::from_int(63);
    proof {
        lemma_band_place(t);
    }
    let i: usize = f.to_index();
    let j: usize = if i + 1 < NUM_BANDS {
        i + 1
    } else {
        NUM_BANDS - 1
    };
    sp[i].approach(sp[j], f - F32::from_int(i as u64))
}

/// A point turned around the vertical axis, then around the horizontal one.
pub open spec fn turned(p: Point3, yaw: Turn, pitch: Turn) -> Point3 {
    let x = p.x * yaw.cos + p.z * yaw.sin;
    let z = -p.x * yaw.sin + p.z * yaw.cos;
    Point3 { x, y: p.y * pitch.cos - z * pitch.sin, z: p.y * pitch.sin + z * pitch.cos }
}

/// Turns a point around the vertical axis, then around the horizontal one.
pub fn rot_yx(p: Point3, yaw: Turn, pitch: Turn) -> (r: Point3)
    ensures
        r == turned(p, yaw, pitch),
{
    let x = p.x * yaw.cos + p.z * yaw.sin;
    let z = p.x.neg() * yaw.sin + p.z * yaw.cos;
    Point3 { x, y: p.y * pitch.cos - z * pitch.sin, z: p.y * pitch.sin + z * pitch.cos }
}

/// The perspective factor of a point at depth `z`.
pub open spec fn nearness(dist: F32, z: F32) -> F32 {
    solid_focal() / (dist + z).larger(F32::quotient(4, 10))
}

/// The perspective factor of a point at depth `z`: large is near.
pub fn perspective(dist: F32, z: F32) -> (r: F32)
    ensures
        r == nearness(dist, z),
{
    F32::ratio(22, 10) / (dist + z).max(F32::ratio(4, 10))
}

/// A vertex of the solid on the screen.
#[derive(Debug, Clone, Copy, PartialEq, Eq, Structural)]
pub struct SolidVert {
    /// The turned position in space.
    pub p: Point3,
    /// The position on the screen.
    pub sx: F32,
    pub sy: F32,
    /// The perspective factor.
    pub s: F32,
    /// The spectrum at the vertex.
    pub amp: F32,
}

/// How the solid is seen.
#[derive(Debug, Clone, Copy, PartialEq, Eq, Structural)]
pub struct Camera {
    pub yaw: Turn,
    pub pitch: Turn,
    pub dist: F32,
}

/// A vertex pushed out by the spectrum, turned and projected.
pub open spec fn projected(v: Point3, amp: F32, c: Camera) -> SolidVert {
    let r = solid_r0() + amp * solid_amp();
    let p = turned(Point3 { x: v.x * r, y: v.y * r, z: v.z * r }, c.yaw, c.pitch);
    let s = nearness(c.dist, p.z);
    SolidVert { p, sx: p.x * s, sy: p.y * s, s, amp }
}

/// The spectrum that a vertex or face follows.
pub open spec fn followed(left: Seq<F32>, right: Seq<F32>, on_right: bool) -> Seq<F32> {
    if on_right {
        right
    } else {
        left
    }
}

/// Vertex `i` of the solid on the screen.
pub open spec fn vertex_view(m: SolidMesh, left: Seq<F32>, right: Seq<F32>, c: Camera, i: int) -> SolidVert {
    projected(m.verts@[i], sample(followed(left, right, m.vert_right@[i]), m.vert_t@[i]), c)
}

/// Pushes the vertices out along their rays, turns the solid and projects it.
pub fn project_solid(mesh: &SolidMesh, left: &SpectrumFrame, right: &SpectrumFrame, camera: &Camera) -> (vs: Vec<SolidVert>)
    requires
        mesh.wf(),
    ensures
        vs@ == Seq::new(mesh.verts@.len(), |i: int| vertex_view(*mesh, left@, right@, *camera, i)),
{
    let mut vs: Vec<SolidVert> = Vec::new();
    let mut i: usize = 0;
    while i < mesh.verts.len()
        invariant
            i <= mesh.verts@.len(),
            mesh.wf(),
            vs@.len() == i,
            forall|j: int| 0 <= j < i ==> #[trigger] vs@[j] == vertex_view(*mesh, left@, right@, *camera, j),
        decreases mesh.verts@.len() - i,
    {
        let v = mesh.verts[i];
        let t = mesh.vert_t[i];
        let amp = if mesh.vert_right[i] {
            sample_spectrum(right, t)
        } else {
            sample_spectrum(left, t)
        };
        let r = F32::ratio(56, 100) + amp * F32::ratio(40, 100);
        let p = rot_yx(Point3 { x: v.x * r, y: v.y * r, z: v.z * r }, camera.yaw, camera.pitch);
        let s = perspective(camera.dist, p.z);
        vs.push(SolidVert { p, sx: p.x * s, sy: p.y * s, s, amp });
        i = i + 1;
    }
    assert(vs@ =~= Seq::new(mesh.verts@.len(), |i: int| vertex_view(*mesh, left@, right@, *camera, i)));
    vs
}

/// The brightness that depth leaves: the cube of the perspective, at most 1.25.
pub open spec fn fog(s: F32, s0: F32) -> F32 {
    let k = s / s0;
    (k * k * k).clamped(F32::nought(), F32::quotient(125, 100))
}

/// The fall-off with depth.
pub fn depth_fog(s: F32, s0: F32) -> (r: F32)
    ensures
        r == fog(s, s0),
{
    proof {
        lemma_one();
        lemma_quotient_number(125, 100);
    }
    let k = s / s0;
    (k * k * k).clamp(F32::zero(), F32::ratio(125, 100))
}

/// The middle of two numbers.
pub open spec fn mean(a: F32, b: F32) -> F32 {
    (a + b) * F32::half_unit()
}

fn mean_of(a: F32, b: F32) -> (r: F32)
    ensures
        r == mean(a, b),
{
    (a + b) * F32::half()
}

/// The colour of an edge between two vertices.
pub open spec fn edge_color(a: SolidVert, b: SolidVert, t: F32, p: Palette, s0: F32) -> Rgb {
    let bright = fog(mean(a.s, b.s), s0) * (F32::quotient(18, 100) + mean(a.amp, b.amp) * F32::quotient(55, 100));
    scaled(mixed(p.color_a, p.color_b, t), bright)
}

/// An edge as a ribbon of four vertices; near edges are thicker.
pub open spec fn edge_quad(a: SolidVert, b: SolidVert, t: F32, p: Palette, inv_aspect: F32, s0: F32) -> Seq<Vertex> {
    let c = edge_color(a, b, t, p, s0);
    let w = F32::quotient(9, 1000) * (mean(a.s, b.s) / s0);
    let n = across((a.sx, a.sy), (b.sx, b.sy), w);
    seq![
        Vertex::at((a.sx + n.0) * inv_aspect, a.sy + n.1, c, F32::unit()),
        Vertex::at((a.sx - n.0) * inv_aspect, a.sy - n.1, c, -F32::unit()),
        Vertex::at((b.sx + n.0) * inv_aspect, b.sy + n.1, c, F32::unit()),
        Vertex::at((b.sx - n.0) * inv_aspect, b.sy - n.1, c, -F32::unit()),
    ]
}

/// The ribbon of edge `i`.
pub open spec fn mesh_edge(m: SolidMesh, vs: Seq<SolidVert>, i: int, p: Palette, inv_aspect: F32, s0: F32) -> Seq<Vertex> {
    let e = m.edges@[i];
    edge_quad(
        vs[e.0 as int],
        vs[e.1 as int],
        mean(m.vert_t@[e.0 as int], m.vert_t@[e.1 as int]),
        p,
        inv_aspect,
        s0,
    )
}

/// The strip of the first `n` edges.
pub open spec fn edge_strip(m: SolidMesh, vs: Seq<SolidVert>, n: int, p: Palette, inv_aspect: F32, s0: F32) -> Seq<
    Vertex,
>
    decreases n,
{
    if n <= 0 {
        Seq::empty()
    } else {
        stitched(edge_strip(m, vs, n - 1, p, inv_aspect, s0), mesh_edge(m, vs, n - 1, p, inv_aspect, s0))
    }
}

/// The edges as luminous ribbons in one strip.
pub fn build_solid_edges(mesh: &SolidMesh, vs: &[SolidVert], palette: &Palette, inv_aspect: F32, s0: F32) -> (v: Vec<Vertex>)
    requires
        mesh.wf(),
        vs@.len() == mesh.verts@.len(),
    ensures
        v@ == edge_strip(*mesh, vs@, mesh.edges@.len() as int, *palette, inv_aspect, s0),
{
    let mut v: Vec<Vertex> = Vec::new();
    assert(v@ =~= edge_strip(*mesh, vs@, 0, *palette, inv_aspect, s0));
    let minus = F32::one().neg();
    let mut i: usize = 0;
    while i < mesh.edges.len()
        invariant
            i <= mesh.edges@.len(),
            mesh.wf(),
            vs@.len() == mesh.verts@.len(),
            minus == -F32::unit(),
            v@ == edge_strip(*mesh, vs@, i as int, *palette, inv_aspect, s0),
        decreases mesh.edges@.len() - i,
    {
        let (ia, ib) = mesh.edges[i];
        let a = vs[ia as usize];
        let b = vs[ib as usize];
        let s_avg = mean_of(a.s, b.s);
        let bright = depth_fog(s_avg, s0) * (F32::ratio(18, 100) + mean_of(a.amp, b.amp) * F32::ratio(55, 100));
        let t = mean_of(mesh.vert_t[ia as usize], mesh.vert_t[ib as usize]);
        let c = scale(mix(palette.color_a, palette.color_b, t), bright);
        let w = F32::ratio(9, 1000) * (s_avg / s0);
        let n = across_of((a.sx, a.sy), (b.sx, b.sy), w);
        let mut quad: Vec<Vertex> = Vec::new();
        quad.push(Vertex::new((a.sx + n.0) * inv_aspect, a.sy + n.1, c, F32::one()));
        quad.push(Vertex::new((a.sx - n.0) * inv_aspect, a.sy - n.1, c, minus));
        quad.push(Vertex::new((b.sx + n.0) * inv_aspect, b.sy + n.1, c, F32::one()));
        quad.push(Vertex::new((b.sx - n.0) * inv_aspect, b.sy - n.1, c, minus));
        assert(quad@ =~= mesh_edge(*mesh, vs@, i as int, *palette, inv_aspect, s0));
        stitch(&mut v, &quad);
        i = i + 1;
    }
    v
}

/// The mean of three numbers.
pub open spec fn mean3(a: F32, b: F32, c: F32) -> F32 {
    (a + b + c) / F32::whole(3)
}

fn mean3_of(a: F32, b: F32, c: F32) -> (r: F32)
    ensures
        r == mean3(a, b, c),
{
    (a + b + c) / F32::from_int(3)
}

/// The direction in which a face points: that of its centre.
pub open spec fn face_normal(a: SolidVert, b: SolidVert, c: SolidVert) -> Point3 {
    on_sphere(
        Point3 { x: mean3(a.p.x, b.p.x, c.p.x), y: mean3(a.p.y, b.p.y, c.p.y), z: mean3(a.p.z, b.p.z, c.p.z) },
    )
}

/// A corner of a face, moved out by `pop` and projected: its screen position and its
/// perspective factor.
pub open spec fn popped(p: Point3, n: Point3, pop: F32, dist: F32) -> (F32, F32, F32) {
    let x = p.x + n.x * pop;
    let y = p.y + n.y * pop;
    let z = p.z + n.z * pop;
    let s = nearness(dist, z);
    (x * s, y * s, s)
}

fn popped_of(p: Point3, n: Point3, pop: F32, dist: F32) -> (r: (F32, F32, F32))
    ensures
        r == popped(p, n, pop, dist),
{
    let x = p.x + n.x * pop;
    let y = p.y + n.y * pop;
    let z = p.z + n.z * pop;
    let s = perspective(dist, z);
    (x * s, y * s, s)
}

/// How much a face glows before depth dims it.
pub open spec fn face_glow(a: SolidVert, b: SolidVert, c: SolidVert, pop: F32) -> F32 {
    mean3(a.amp, b.amp, c.amp) * F32::quotient(9, 10) + pop * F32::quotient(12, 10)
}

/// A face as a triangle that glows with its band; nothing where it hardly glows.
pub open spec fn face_triangle(
    a: SolidVert,
    b: SolidVert,
    c: SolidVert,
    pop: F32,
    t: F32,
    p: Palette,
    inv_aspect: F32,
    s0: F32,
    dist: F32,
) -> Seq<Vertex> {
    let glow = face_glow(a, b, c, pop);
    if glow.le(F32::quotient(4, 1000)) {
        Seq::empty()
    } else {
        let n = face_normal(a, b, c);
        let x = popped(a.p, n, pop, dist);
        let y = popped(b.p, n, pop, dist);
        let z = popped(c.p, n, pop, dist);
        let depth = (F32::nought() + x.2 + y.2 + z.2) / F32::whole(3);
        let bright = fog(depth, s0) * glow * F32::quotient(11, 100);
        let col = scaled(mixed(p.color_a, p.color_b, t), bright);
        seq![
            Vertex::at(x.0 * inv_aspect, x.1, col, F32::unit()),
            Vertex::at(y.0 * inv_aspect, y.1, col, F32::unit()),
            Vertex::at(z.0 * inv_aspect, z.1, col, F32::unit()),
        ]
    }
}

/// The triangle of face `i`.
pub open spec fn mesh_face(
    m: SolidMesh,
    vs: Seq<SolidVert>,
    pops: Seq<F32>,
    i: int,
    p: Palette,
    inv_aspect: F32,
    s0: F32,
    dist: F32,
) -> Seq<Vertex> {
    let f = m.faces@[i];
    face_triangle(vs[f.0 as int], vs[f.1 as int], vs[f.2 as int], pops[i], m.face_t@[i], p, inv_aspect, s0, dist)
}

/// The triangles of the first `n` faces.
pub open spec fn face_triangles(
    m: SolidMesh,
    vs: Seq<SolidVert>,
    pops: Seq<F32>,
    n: int,
    p: Palette,
    inv_aspect: F32,
    s0: F32,
    dist: F32,
) -> Seq<Vertex>
    decreases n,
{
    if n <= 0 {
        Seq::empty()
    } else {
        face_triangles(m, vs, pops, n - 1, p, inv_aspect, s0, dist) + mesh_face(
            m,
            vs,
            pops,
            n - 1,
            p,
            inv_aspect,
            s0,
            dist,
        )
    }
}

/// The faces as triangles: they glow with their band and come off the cage of edges
/// on a beat.
pub fn build_solid_faces(
    mesh: &SolidMesh,
    vs: &[SolidVert],
    pops: &[F32],
    palette: &Palette,
    inv_aspect: F32,
    s0: F32,
    dist: F32,
) -> (v: Vec<Vertex>)
    requires
        mesh.wf(),
        vs@.len() == mesh.verts@.len(),
        pops@.len() == mesh.faces@.len(),
    ensures
        v@ == face_triangles(*mesh, vs@, pops@, mesh.faces@.len() as int, *palette, inv_aspect, s0, dist),
{
    let mut v: Vec<Vertex> = Vec::new();
    assert(v@ =~= face_triangles(*mesh, vs@, pops@, 0, *palette, inv_aspect, s0, dist));
    let mut i: usize = 0;
    while i < mesh.faces.len()
        invariant
            i <= mesh.faces@.len(),
            mesh.wf(),
            vs@.len() == mesh.verts@.len(),
            pops@.len() == mesh.faces@.len(),
            v@ == face_triangles(*mesh, vs@, pops@, i as int, *palette, inv_aspect, s0, dist),
        decreases mesh.faces@.len() - i,
    {
        let f = mesh.faces[i];
        let pop = pops[i];
        let a = vs[f.0 as usize];
        let b = vs[f.1 as usize];
        let c = vs[f.2 as usize];
        let glow = mean3_of(a.amp, b.amp, c.amp) * F32::ratio(9, 10) + pop * F32::ratio(12, 10);
        let ghost before = v@;
        let ghost tri = mesh_face(*mesh, vs@, pops@, i as int, *palette, inv_aspect, s0, dist);
        if !glow.at_most(F32::ratio(4, 1000)) {
            let n = normalized(
                Point3 {
                    x: mean3_of(a.p.x, b.p.x, c.p.x),
                    y: mean3_of(a.p.y, b.p.y, c.p.y),
                    z: mean3_of(a.p.z, b.p.z, c.p.z),
                },
            );
            let x = popped_of(a.p, n, pop, dist);
            let y = popped_of(b.p, n, pop, dist);
            let z = popped_of(c.p, n, pop, dist);
            let depth = (F32::zero() + x.2 + y.2 + z.2) / F32::from_int(3);
            let bright = depth_fog(depth, s0) * glow * F32::ratio(11, 100);
            let col = scale(mix(palette.color_a, palette.color_b, mesh.face_t[i]), bright);
            v.push(Vertex::new(x.0 * inv_aspect, x.1, col, F32::one()));
            v.push(Vertex::new(y.0 * inv_aspect, y.1, col, F32::one()));
            v.push(Vertex::new(z.0 * inv_aspect, z.1, col, F32::one()));
        }
        assert(v@ =~= before + tri);
        i = i + 1;
    }
    v
}

/// A vertex of the solid as a point of light.
pub open spec fn solid_point(sv: SolidVert, t: F32, p: Palette, inv_aspect: F32, s0: F32) -> Vertex {
    Vertex::at(
        sv.sx * inv_aspect,
        sv.sy,
        mixed(p.color_a, p.color_b, t),
        part_of((F32::quotient(6, 100) + sv.amp * F32::half_unit()) * fog(sv.s, s0)),
    )
}

/// The vertices of the solid as points of light.
pub fn build_solid_points(mesh: &SolidMesh, vs: &[SolidVert], palette: &Palette, inv_aspect: F32, s0: F32) -> (v: Vec<Vertex>)
    requires
        mesh.wf(),
        vs@.len() == mesh.verts@.len(),
    ensures
        v@ == Seq::new(vs@.len(), |i: int| solid_point(vs@[i], mesh.vert_t@[i], *palette, inv_aspect, s0)),
{
    let mut v: Vec<Vertex> = Vec::new();
    let mut i: usize = 0;
    while i < vs.len()
        invariant
            i <= vs@.len(),
            mesh.wf(),
            vs@.len() == mesh.verts@.len(),
            v@.len() == i,
            forall|j: int|
                0 <= j < i ==> #[trigger] v@[j] == solid_point(vs@[j], mesh.vert_t@[j], *palette, inv_aspect, s0),
        decreases vs@.len() - i,
    {
        let sv = vs[i];
        let a = clamp_part((F32::ratio(6, 100) + sv.amp * F32::half()) * depth_fog(sv.s, s0));
        let c = mix(palette.color_a, palette.color_b, mesh.vert_t[i]);
        v.push(Vertex::new(sv.sx * inv_aspect, sv.sy, c, a));
        i = i + 1;
    }
    assert(v@ =~= Seq::new(vs@.len(), |i: int| solid_point(vs@[i], mesh.vert_t@[i], *palette, inv_aspect, s0)));
    v
}

/// The animation of the solid.
pub struct SolidState {
    /// How far each face is off its place.
    pub face_pop: Vec<F32>,
    pub spin: F32,
    pub time: F32,
}

/// What the next picture needs: the turn around the vertical axis, the phase whose
/// sine gives the other, and the distance of the camera.
#[derive(Debug, Clone, Copy, PartialEq, Eq, Structural)]
pub struct SolidPose {
    pub yaw: F32,
    pub phase: F32,
    pub dist: F32,
}

/// A face one frame later: it falls back, and a beat kicks it out with its band, but
/// never beyond one half.
pub open spec fn kicked(pop: F32, amp: F32, d: Drive) -> F32 {
    (pop * F32::quotient(88, 100) + d.punch * amp * F32::quotient(30, 100) * d.gate).smaller(F32::half_unit())
}

/// The distance of the camera: music brings the solid nearer.
pub open spec fn camera_dist(d: Drive) -> F32 {
    solid_dist() - (d.bass * F32::half_unit() + d.punch * F32::quotient(7, 10)) * d.gate
}

/// The turn around the horizontal axis for the sine of the phase.
pub open spec fn pitch(sine: F32) -> F32 {
    sine * F32::quotient(35, 100)
}

/// The turn around the horizontal axis for the sine of the phase.
pub fn pitch_of(sine: F32) -> (r: F32)
    ensures
        r == pitch(sine),
{
    sine * F32::ratio(35, 100)
}

impl SolidState {
    /// Whether this is followed by `next` in a frame.
    pub open spec fn moves_to(self, next: SolidState, m: SolidMesh, d: Drive, left: Seq<F32>, right: Seq<F32>) -> bool {
        &&& next.time == self.time + F32::unit() / F32::whole(60)
        &&& next.spin == self.spin + (F32::quotient(2, 1000) + (d.bass * F32::quotient(12, 1000) + d.punch
            * F32::quotient(5, 100)) * d.gate)
        &&& next.face_pop@ == Seq::new(
            m.faces@.len(),
            |i: int| kicked(self.face_pop@[i], sample(followed(left, right, m.face_right@[i]), m.face_t@[i]), d),
        )
    }

    /// How the solid is to be seen in a frame.
    pub open spec fn pose(self, d: Drive) -> SolidPose {
        SolidPose { yaw: self.spin, phase: self.time * F32::quotient(31, 100), dist: camera_dist(d) }
    }

    /// At rest.
    pub fn new(mesh: &SolidMesh) -> (r: SolidState)
        ensures
            r.face_pop@ == Seq::new(mesh.faces@.len(), |i: int| F32::nought()),
            r.spin == F32::nought(),
            r.time == F32::nought(),
    {
        let mut pops: Vec<F32> = Vec::new();
        let mut i: usize = 0;
        while i < mesh.faces.len()
            invariant
                i <= mesh.faces@.len(),
                pops@.len() == i,
                forall|j: int| 0 <= j < i ==> #[trigger] pops@[j] == F32::nought(),
            decreases mesh.faces@.len() - i,
        {
            pops.push(F32::zero());
            i = i + 1;
        }
        assert(pops@ =~= Seq::new(mesh.faces@.len(), |i: int| F32::nought()));
        SolidState { face_pop: pops, spin: F32::zero(), time: F32::zero() }
    }

    /// Moves the solid by one frame.
    pub fn update_solid(&mut self, mesh: &SolidMesh, d: &Drive, left: &SpectrumFrame, right: &SpectrumFrame) -> (r: SolidPose)
        requires
            mesh.wf(),
            old(self).face_pop@.len() == mesh.faces@.len(),
        ensures
            old(self).moves_to(*final(self), *mesh, *d, left@, right@),
            r == final(self).pose(*d),
    {
        self.time = self.time + F32::one() / F32::from_int(60);
        self.spin = self.spin + (F32::ratio(2, 1000) + (d.bass * F32::ratio(12, 1000) + d.punch * F32::ratio(5, 100))
            * d.gate);
        let dist = F32::ratio(34, 10) - (d.bass * F32::half() + d.punch * F32::ratio(7, 10)) * d.gate;
        let ghost want = Seq::new(
            mesh.faces@.len(),
            |i: int|
                kicked(
                    old(self).face_pop@[i],
                    sample(followed(left@, right@, mesh.face_right@[i]), mesh.face_t@[i]),
                    *d,
                ),
        );
        let mut pops: Vec<F32> = Vec::new();
        let mut i: usize = 0;
        while i < mesh.faces.len()
            invariant
                i <= mesh.faces@.len(),
                mesh.wf(),
                self.face_pop == old(self).face_pop,
                self.face_pop@.len() == mesh.faces@.len(),
                want == Seq::new(
                    mesh.faces@.len(),
                    |i: int|
                        kicked(
                            old(self).face_pop@[i],
                            sample(followed(left@, right@, mesh.face_right@[i]), mesh.face_t@[i]),
                            *d,
                        ),
                ),
                pops@.len() == i,
                forall|j: int| 0 <= j < i ==> #[trigger] pops@[j] == want[j],
            decreases mesh.faces@.len() - i,
        {
            let t = mesh.face_t[i];
            let amp = if mesh.face_right[i] {
                sample_spectrum(right, t)
            } else {
                sample_spectrum(left, t)
            };
            let kick = d.punch * amp * F32::ratio(30, 100) * d.gate;
            pops.push((self.face_pop[i] * F32::ratio(88, 100) + kick).min(F32::half()));
            i = i + 1;
        }
        assert(pops@ =~= want);
        self.face_pop = pops;
        SolidPose { yaw: self.spin, phase: self.time * F32::ratio(31, 100), dist }
    }
}

/// A face is never more than one half off its place, and never inside it: kicked by a
/// drive and a sample of a spectrum, it is pushed outwards or falls back.
pub proof fn law_faces_stay_near(pop: F32, amp: F32, d: Drive)
    requires
        pop.within(F32::nought(), F32::half_unit()),
        amp.within(F32::nought(), F32::whole(2)),
        is_part(d.punch),
        is_part(d.gate),
    ensures
        kicked(pop, amp, d).within(F32::nought(), F32::half_unit()),
{
    lemma_one();
    lemma_half();
    lemma_whole(2);
    lemma_fraction(88, 100);
    lemma_fraction(30, 100);
    lemma_product_of_parts(pop, F32::quotient(88, 100));
    let w = one_units();
    lemma_bounded_is_finite_between(amp, F32::nought(), F32::whole(2));
    lemma_part_is_finite(d.punch);
    let u = d.punch.units();
    let a = amp.units();
    assert(0 * w <= u * a <= (2 * w) * w) by (nonlinear_arith)
        requires 0 <= u <= w, 0 <= a <= 2 * w;
    lemma_mul_between(d.punch, amp, F32::nought(), F32::whole(2));
    let x = d.punch * amp;
    lemma_bounded_is_finite_between(x, F32::nought(), F32::whole(2));
    lemma_quotient_between(30, 100, F32::nought(), F32::half_unit());
    let k = F32::quotient(30, 100);
    lemma_part_is_finite(k);
    assert(0 * w <= x.units() * k.units() <= w * w) by (nonlinear_arith)
        requires 0 <= x.units() <= 2 * w, 0 <= 2 * k.units() <= w;
    lemma_mul_between(x, k, F32::nought(), F32::unit());
    lemma_product_of_parts(d.punch * amp * F32::quotient(30, 100), d.gate);
    let x = pop * F32::quotient(88, 100);
    let y = d.punch * amp * F32::quotient(30, 100) * d.gate;
    lemma_part_is_finite(x);
    lemma_part_is_finite(y);
    lemma_add_between(x, y, F32::nought(), F32::whole(2));
}

/// Depth never brightens by more than a quarter, and never darkens below black.
pub proof fn law_fog_is_bounded(s: F32, s0: F32)
    requires
        !s.nan(),
        s0.finite(),
        s0.units() > 0,
    ensures
        fog(s, s0).within(F32::nought(), F32::quotient(125, 100)),
{
    lemma_one();
    lemma_quotient_number(125, 100);
    lemma_div_sign(s, s0);
    let k = s / s0;
    if k.finite() {
        lemma_mul_is_number(k, k);
        if !(k * k).finite() && k.mag() == 0 {
            lemma_zero_product(k, k);
        }
        lemma_mul_is_number(k * k, k);
    } else {
        reveal(F32::spec_mul);
        lemma_signed(false, INF_MAG as int);
        lemma_signed(k.negative(), INF_MAG as int);
    }
}

/// The solid at rest is not dimmed: at the depth of its centre the fog is one.
pub proof fn law_fog_is_one_at_rest(s0: F32)
    requires
        s0.finite(),
        s0.units() > 0,
    ensures
        fog(s0, s0).units() == one_units(),
{
    lemma_one();
    lemma_quotient_number(125, 100);
    let w = one_units();
    assert(w * s0.units() == s0.units() * w) by (nonlinear_arith);
    lemma_div_between(s0, s0, F32::unit(), F32::unit());
    let k = s0 / s0;
    lemma_same_value(k, F32::unit());
    assert(k.units() * k.units() == w * w);
    lemma_mul_between(k, k, F32::unit(), F32::unit());
    lemma_same_value(k * k, F32::unit());
    assert((k * k).units() * k.units() == w * w);
    lemma_mul_between(k * k, k, F32::unit(), F32::unit());
    lemma_whole(2);
    lemma_quotient_between(125, 100, F32::unit(), F32::whole(2));
}

/// By how much music brings the camera nearer.
spec fn approach(d: Drive) -> F32 {
    (d.bass * F32::half_unit() + d.punch * F32::quotient(7, 10)) * d.gate
}

/// Music brings the camera nearer by at most two, and by more the more of it there is.
proof fn lemma_approach(d: Drive, e: Drive)
    requires
        is_part(d.bass),
        is_part(d.punch),
        is_part(d.gate),
        is_part(e.bass),
        is_part(e.punch),
        d.bass.le(e.bass),
        d.punch.le(e.punch),
        e.gate == d.gate,
    ensures
        approach(d).within(F32::nought(), F32::whole(2)),
        approach(e).within(F32::nought(), F32::whole(2)),
        approach(d).le(approach(e)),
{
    lemma_one();
    lemma_half();
    lemma_whole(2);
    lemma_fraction(7, 10);
    lemma_push(d);
    lemma_push(e);
    let h = F32::half_unit().units();
    let c = F32::quotient(7, 10).units();
    let (a, b, x, y) = (d.bass.units(), e.bass.units(), d.punch.units(), e.punch.units());
    lemma_part_is_finite(d.bass);
    lemma_part_is_finite(e.bass);
    lemma_part_is_finite(d.punch);
    lemma_part_is_finite(e.punch);
    lemma_part_is_finite(d.gate);
    assert(a * h <= b * h && x * c <= y * c) by (nonlinear_arith)
        requires a <= b, x <= y, h >= 0, c >= 0;
    lemma_mul_order(d.bass, F32::half_unit(), e.bass, F32::half_unit());
    lemma_mul_order(d.punch, F32::quotient(7, 10), e.punch, F32::quotient(7, 10));
    lemma_add_order(
        d.bass * F32::half_unit(),
        d.punch * F32::quotient(7, 10),
        e.bass * F32::half_unit(),
        e.punch * F32::quotient(7, 10),
    );
    let w = one_units();
    let p = (d.bass * F32::half_unit() + d.punch * F32::quotient(7, 10)).units();
    let q = (e.bass * F32::half_unit() + e.punch * F32::quotient(7, 10)).units();
    let g = d.gate.units();
    assert(0 * w <= p * g <= q * g <= (2 * w) * w) by (nonlinear_arith)
        requires 0 <= p <= q <= 2 * w, 0 <= g <= w;
    let dp = d.bass * F32::half_unit() + d.punch * F32::quotient(7, 10);
    let eq = e.bass * F32::half_unit() + e.punch * F32::quotient(7, 10);
    lemma_mul_order(dp, d.gate, eq, d.gate);
    lemma_mul_between(dp, d.gate, F32::nought(), F32::whole(2));
    lemma_mul_between(eq, d.gate, F32::nought(), F32::whole(2));
}

/// The bass and the transient, weighted.
proof fn lemma_push(d: Drive)
    requires
        is_part(d.bass),
        is_part(d.punch),
    ensures
        is_part(d.bass * F32::half_unit()),
        is_part(d.punch * F32::quotient(7, 10)),
        (d.bass * F32::half_unit()).finite(),
        (d.punch * F32::quotient(7, 10)).finite(),
        (d.bass * F32::half_unit() + d.punch * F32::quotient(7, 10)).within(F32::nought(), F32::whole(2)),
        (d.bass * F32::half_unit() + d.punch * F32::quotient(7, 10)).finite(),
{
    lemma_one();
    lemma_half();
    lemma_whole(2);
    lemma_fraction(7, 10);
    lemma_product_of_parts(d.bass, F32::half_unit());
    lemma_product_of_parts(d.punch, F32::quotient(7, 10));
    let a = d.bass * F32::half_unit();
    let b = d.punch * F32::quotient(7, 10);
    lemma_part_is_finite(a);
    lemma_part_is_finite(b);
    lemma_add_between(a, b, F32::nought(), F32::whole(2));
    lemma_bounded_is_finite_between(a + b, F32::nought(), F32::whole(2));
}

/// All that music can do is to bring the camera nearer by 1.2.
proof fn lemma_nearest_approach(d: Drive)
    requires
        is_part(d.bass),
        is_part(d.punch),
        is_part(d.gate),
    ensures
        approach(d).within(F32::nought(), F32::quotient(10066330, 8388608)),
        F32::quotient(10066330, 8388608).finite(),
        8388608 * F32::quotient(10066330, 8388608).units() == 10066330 * one_units(),
{
    lemma_one();
    lemma_half();
    lemma2_to64();
    let w = one_units();
    lemma_binary_fraction(10066330, 23);
    lemma_binary_fraction(11744052, 24);
    let top = F32::quotient(10066330, 8388608);
    let high = F32::quotient(11744052, 16777216);
    assert(7 * w <= high.units() * 10) by (nonlinear_arith)
        requires 16777216 * high.units() == 11744052 * w, w > 0;
    lemma_fraction(7, 10);
    lemma_quotient_between(7, 10, F32::nought(), high);
    lemma_push(d);
    let a = d.bass * F32::half_unit();
    let b = d.punch * F32::quotient(7, 10);
    lemma_part_is_finite(d.bass);
    lemma_part_is_finite(d.punch);
    lemma_part_is_finite(d.gate);
    let h = F32::half_unit().units();
    let c = F32::quotient(7, 10).units();
    let (x, y) = (d.bass.units(), d.punch.units());
    assert(0 * w <= x * h <= h * w && 0 * w <= y * c <= c * w) by (nonlinear_arith)
        requires 0 <= x <= w, 0 <= y <= w, h >= 0, c >= 0;
    lemma_mul_between(d.bass, F32::half_unit(), F32::nought(), F32::half_unit());
    lemma_mul_between(d.punch, F32::quotient(7, 10), F32::nought(), F32::quotient(7, 10));
    lemma_add_between(a, b, F32::nought(), top);
    let p = (a + b).units();
    let g = d.gate.units();
    let t = top.units();
    assert(0 * w <= p * g <= t * w) by (nonlinear_arith)
        requires 0 <= p <= t, 0 <= g <= w;
    lemma_mul_between(a + b, d.gate, F32::nought(), top);
}

/// Music brings the camera nearer than its 3.4 at rest, but never nearer than 2.2.
pub proof fn law_camera_stays_in_front(d: Drive)
    requires
        is_part(d.bass),
        is_part(d.punch),
        is_part(d.gate),
    ensures
        camera_dist(d).within(F32::quotient(22, 10), solid_dist()),
{
    lemma_one();
    lemma2_to64();
    lemma_nearest_approach(d);
    let top = F32::quotient(10066330, 8388608);
    lemma_bounded_is_finite_between(approach(d), F32::nought(), top);
    lemma_quotient_digits(34, 10, 14260634, 22);
    lemma_quotient_digits(22, 10, 9227469, 22);
    lemma_sub_between(solid_dist(), approach(d), F32::quotient(22, 10), solid_dist());
}

/// More bass, or a stronger transient, brings the solid at least as near.
pub proof fn law_bass_brings_nearer(d: Drive, e: Drive)
    requires
        is_part(d.bass),
        is_part(d.punch),
        is_part(d.gate),
        is_part(e.bass),
        is_part(e.punch),
        d.bass.le(e.bass),
        d.punch.le(e.punch),
        e.gate == d.gate,
    ensures
        camera_dist(e).le(camera_dist(d)),
{
    lemma_one();
    lemma_whole(2);
    lemma_whole(4);
    lemma_quotient_between(34, 10, F32::nought(), F32::whole(4));
    lemma_approach(d, e);
    lemma_bounded_is_finite_between(approach(d), F32::nought(), F32::whole(2));
    lemma_bounded_is_finite_between(approach(e), F32::nought(), F32::whole(2));
    lemma_sub_order(solid_dist(), approach(e), solid_dist(), approach(d));
}

/// A place lies less than one band after the band that it is found from.
proof fn lemma_way_on(t: F32)
    requires
        !t.nan(),
    ensures
        0 <= band_place(t).index() < NUM_BANDS,
        is_part(band_place(t) - F32::whole(band_place(t).index())),
{
    lemma_one();
    lemma_band_place(t);
    let f = band_place(t);
    let i = f.index();
    let x = part_of(t);
    lemma_part_is_finite(x);
    lemma_whole(63);
    let w = one_units();
    let u = x.units();
    assert(0 * w <= u * (63 * w) <= (63 * w) * w) by (nonlinear_arith)
        requires 0 <= u <= w;
    lemma_mul_between(x, F32::whole(63), F32::nought(), F32::whole(63));
    lemma_bounded_is_finite_between(f, F32::nought(), F32::whole(63));
    lemma_whole(i);
    assert(0 <= f.units() - i * w <= w) by {
        reveal(F32::index);
        lemma_pow2_pos(149);
        let n = f.units();
        lemma_fundamental_div_mod(n, w);
        assert(n == w * (n / w) + n % w);
        assert(w * (n / w) == (n / w) * w) by (nonlinear_arith);
        if f.mag() == 0 {
            assert(n == 0);
        }
    }
    lemma_sub_between(f, F32::whole(i), F32::nought(), F32::unit());
}

/// A sample of a spectrum lies from zero to two, as rounding may carry it past the
/// larger of its bands.
pub proof fn law_sample_is_bounded(sp: Seq<F32>, t: F32)
    requires
        sp.len() == NUM_BANDS,
        forall|b: int| 0 <= b < NUM_BANDS ==> is_part(#[trigger] sp[b]),
        !t.nan(),
    ensures
        sample(sp, t).within(F32::nought(), F32::whole(2)),
{
    lemma_one();
    lemma_whole(2);
    lemma_way_on(t);
    let f = band_place(t);
    let i = f.index();
    let j = if i + 1 < NUM_BANDS {
        i + 1
    } else {
        NUM_BANDS - 1
    };
    let r = f - F32::whole(i);
    let a = sp[i];
    let b = sp[j];
    lemma_part_is_finite(r);
    lemma_part_is_finite(a);
    lemma_part_is_finite(b);
    lemma_neg(a);
    lemma_neg(F32::nought());
    let w = one_units();
    let (low, high) = if a.units() <= b.units() {
        (F32::nought(), b)
    } else {
        (-a, F32::nought())
    };
    lemma_sub_between(b, a, low, high);
    let d = b - a;
    lemma_bounded_is_finite_between(d, low, high);
    let x = d.units();
    let u = r.units();
    assert(low.units() * w <= x * u <= high.units() * w) by (nonlinear_arith)
        requires
            low.units() <= x <= high.units(),
            low.units() <= 0 <= high.units(),
            0 <= u <= w,
    ;
    lemma_mul_between(d, r, low, high);
    lemma_bounded_is_finite_between(d * r, low, high);
    lemma_add_between(a, d * r, F32::nought(), F32::whole(2));
}

/// A spectrum that is the same in all bands is sampled as what it is everywhere.
pub proof fn law_flat_spectrum_samples_flat(sp: Seq<F32>, level: F32, t: F32)
    requires
        sp.len() == NUM_BANDS,
        forall|b: int| 0 <= b < NUM_BANDS ==> #[trigger] sp[b] == level,
        level.finite(),
        !t.nan(),
    ensures
        sample(sp, t).units() == level.units(),
{
    lemma_one();
    lemma_way_on(t);
    let f = band_place(t);
    let r = f - F32::whole(f.index());
    lemma_part_is_finite(r);
    lemma_sub_between(level, level, F32::nought(), F32::nought());
    let z = level - level;
    lemma_same_value(z, F32::nought());
    lemma_zero_mag(z);
    lemma_zero_product(z, r);
    lemma_plus_zero(level, z * r);
}

} // verus!
