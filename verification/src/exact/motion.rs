//! The solid in motion, and the light of its edges, faces and corners.

use crate::config::Rgb;
use crate::dsp::is_part;
use crate::exact::paint::{is_color, law_mixture_is_weighted};
use crate::float::value::{
    clip, close, dust, lemma_close_add, lemma_close_div, lemma_close_mul, lemma_close_part, lemma_close_sub,
    lemma_constants, lemma_size_mul, lemma_value_add, lemma_value_div, lemma_value_larger, lemma_value_le,
    lemma_value_mul, lemma_value_neg, lemma_value_part, lemma_value_quotient, lemma_value_whole, size,
};
use crate::float::F32;
use crate::render::drift::is_drive;
use crate::render::levels::Drive;
use crate::render::paint::{mixed, scaled, Palette};
use crate::render::ribbon::{across, stitched};
use crate::solid::mesh::{Point3, SolidMesh};
use crate::solid::view::{
    camera_dist, edge_color, edge_quad, edge_strip, face_glow, face_normal, face_triangle, face_triangles, fog, kicked,
    mean, mean3, mesh_edge, nearness, pitch, popped, sample, solid_dist, solid_point, vertex_view, Camera, SolidState,
    SolidVert,
};
use vstd::prelude::*;

verus! {

/// A product of two parts and a constant.
pub proof fn lemma_part_times(x: F32, k: F32, c: real)
    requires
        is_part(x),
        close(k, c, 1real / 10000000real),
        0real <= c <= 2real,
    ensures
        close(x * k, x.value() * c, 4real / 10000000real),
        0real <= x.value() * c <= c,
{
    lemma_value_part(x);
    let v = x.value();
    assert(0real <= v * c <= c) by (nonlinear_arith)
        requires 0real <= v <= 1real, c >= 0real;
    lemma_close_mul(x, k, v, c, 0real, 1real / 10000000real, 1real, 2real);
}

/// A face falls back by 12 hundredths in a frame, and a beat kicks it out by up to 30
/// hundredths, as its band and the silence gate let it, but never beyond one half.
pub proof fn law_beats_kick_the_faces_out(pop: F32, amp: F32, d: Drive)
    requires
        is_drive(d),
        is_part(amp),
        is_part(pop),
    ensures
        ({
            let v = pop.value() * (88real / 100real) + d.punch.value() * amp.value() * (30real / 100real)
                * d.gate.value();
            close(
                kicked(pop, amp, d),
                if v < 1real / 2real {
                    v
                } else {
                    1real / 2real
                },
                1real / 500000real,
            )
        }),
{
    lemma_constants();
    lemma_value_part(pop);
    lemma_value_part(amp);
    lemma_value_part(d.punch);
    lemma_value_part(d.gate);
    lemma_value_quotient(88, 100);
    lemma_value_quotient(30, 100);
    let k = F32::quotient(30, 100);
    let c = 30real / 100real;
    let p = d.punch.value();
    let a = amp.value();
    let g = d.gate.value();
    lemma_part_times(pop, F32::quotient(88, 100), 88real / 100real);
    lemma_size_mul(p, a, 1real, 1real);
    lemma_close_mul(d.punch, amp, p, a, 0real, 0real, 1real, 1real);
    let e = 1real / 10000000real;
    lemma_close_mul(d.punch * amp, k, p * a, c, e, e, 1real, c);
    lemma_size_mul(p * a, c, 1real, c);
    lemma_close_mul(d.punch * amp * k, d.gate, p * a * c, g, 3real * e, 0real, c, 1real);
    lemma_size_mul(p * a * c, g, c, 1real);
    let x = pop * F32::quotient(88, 100);
    let y = d.punch * amp * k * d.gate;
    lemma_close_add(x, y, pop.value() * (88real / 100real), p * a * c * g, 4real * e, 5real * e);
    lemma_value_larger(x + y, F32::half_unit());
}

/// Two weighted levels, let through by the silence gate.
proof fn lemma_gated(d: Drive, k: F32, l: F32, u: real, v: real)
    requires
        is_drive(d),
        close(k, u, 1real / 10000000real),
        close(l, v, 1real / 10000000real),
        0real <= u <= 1real,
        0real <= v <= 1real,
    ensures
        close(
            (d.bass * k + d.punch * l) * d.gate,
            (d.bass.value() * u + d.punch.value() * v) * d.gate.value(),
            15real / 10000000real,
        ),
        0real <= (d.bass.value() * u + d.punch.value() * v) * d.gate.value() <= u + v,
{
    lemma_value_part(d.gate);
    lemma_part_times(d.bass, k, u);
    lemma_part_times(d.punch, l, v);
    let e = 1real / 10000000real;
    let b = d.bass.value() * u;
    let p = d.punch.value() * v;
    let g = d.gate.value();
    lemma_close_add(d.bass * k, d.punch * l, b, p, 4real * e, 4real * e);
    lemma_close_mul(d.bass * k + d.punch * l, d.gate, b + p, g, 10real * e, 0real, 2real, 1real);
    assert(0real <= (b + p) * g <= b + p) by (nonlinear_arith)
        requires 0real <= g <= 1real, b + p >= 0real;
}

/// Music brings the camera nearer: the bass by up to a half, a beat by up to 7 tenths.
pub proof fn law_music_brings_the_camera_nearer(d: Drive)
    requires
        is_drive(d),
    ensures
        ({
            let near = (d.bass.value() * (1real / 2real) + d.punch.value() * (7real / 10real)) * d.gate.value();
            &&& close(camera_dist(d), 34real / 10real - near, 1real / 400000real)
            &&& 0real <= near <= 12real / 10real
        }),
{
    lemma_constants();
    lemma_value_quotient(34, 10);
    lemma_value_quotient(7, 10);
    lemma_gated(d, F32::half_unit(), F32::quotient(7, 10), 1real / 2real, 7real / 10real);
    let near = (d.bass.value() * (1real / 2real) + d.punch.value() * (7real / 10real)) * d.gate.value();
    let x = (d.bass * F32::half_unit() + d.punch * F32::quotient(7, 10)) * d.gate;
    lemma_close_sub(solid_dist(), x, 34real / 10real, near, 3real / 10000000real, 15real / 10000000real);
}

/// In a frame time goes on by a sixtieth, and the solid turns on, faster as the bass and
/// the beat drive it; every face is kicked by the band and the channel that it follows.
pub proof fn law_solid_turns_with_the_music(
    s: SolidState,
    next: SolidState,
    m: SolidMesh,
    d: Drive,
    left: Seq<F32>,
    right: Seq<F32>,
)
    requires
        s.moves_to(next, m, d, left, right),
        is_drive(d),
        s.spin.finite(),
        s.time.finite(),
        size(s.spin.value()) <= 1000000real,
        size(s.time.value()) <= 1000000real,
    ensures
        ({
            let turn = 2real / 1000real + (d.bass.value() * (12real / 1000real) + d.punch.value() * (5real / 100real))
                * d.gate.value();
            &&& close(next.spin, s.spin.value() + turn, 1real / 500000real + size(s.spin.value()) / 16000000real)
            &&& close(next.time, s.time.value() + 1real / 60real, 1real / 500000real + size(s.time.value())
                / 16000000real)
        }),
        next.face_pop@.len() == m.faces@.len(),
        forall|i: int|
            0 <= i < m.faces@.len() ==> #[trigger] next.face_pop@[i] == kicked(
                s.face_pop@[i],
                sample(
                    if m.face_right@[i] {
                        right
                    } else {
                        left
                    },
                    m.face_t@[i],
                ),
                d,
            ),
{
    lemma_constants();
    lemma_value_quotient(2, 1000);
    lemma_value_quotient(12, 1000);
    lemma_value_quotient(5, 100);
    lemma_value_whole(60);
    lemma_gated(d, F32::quotient(12, 1000), F32::quotient(5, 100), 12real / 1000real, 5real / 100real);
    let g = (d.bass.value() * (12real / 1000real) + d.punch.value() * (5real / 100real)) * d.gate.value();
    let x = (d.bass * F32::quotient(12, 1000) + d.punch * F32::quotient(5, 100)) * d.gate;
    let e = 1real / 10000000real;
    lemma_close_add(F32::quotient(2, 1000), x, 2real / 1000real, g, e, 15real * e);
    let y = F32::quotient(2, 1000) + x;
    lemma_close_add(s.spin, y, s.spin.value(), 2real / 1000real + g, 0real, 17real * e);
    lemma_value_div(F32::unit(), F32::whole(60));
    lemma_close_add(s.time, F32::unit() / F32::whole(60), s.time.value(), 1real / 60real, 0real, e);
}

/// The solid is seen from its spin, from the phase of its time, and from as near as the
/// music brings it.
pub proof fn law_pose_is_spin_phase_and_distance(s: SolidState, d: Drive)
    requires
        s.time.finite(),
        size(s.time.value()) <= 1000000real,
    ensures
        s.pose(d).yaw == s.spin,
        s.pose(d).dist == camera_dist(d),
        close(
            s.pose(d).phase,
            s.time.value() * (31real / 100real),
            size(s.time.value()) / 10000000real + dust(),
        ),
{
    lemma_value_quotient(31, 100);
    let k = F32::quotient(31, 100);
    let t = s.time.value();
    lemma_size_mul(t, k.value(), size(t), 32real / 100real);
    lemma_value_mul(s.time, k);
    let h = k.value() - 31real / 100real;
    lemma_size_mul(t, h, size(t), 2real / 100000000real);
    assert(t * k.value() == t * (31real / 100real) + t * h) by (nonlinear_arith)
        requires k.value() == 31real / 100real + h;
    assert(size(t) * (32real / 100real) == 32real * size(t) / 100real);
    assert(size(t) * (2real / 100000000real) == 2real * size(t) / 100000000real);
}

/// The solid nods by up to 35 hundredths.
pub proof fn law_pitch_is_a_part_of_the_sine(sine: F32)
    requires
        sine.finite(),
        size(sine.value()) <= 1real,
    ensures
        close(pitch(sine), sine.value() * (35real / 100real), 1real / 10000000real),
{
    lemma_value_quotient(35, 100);
    let c = 35real / 100real;
    lemma_close_mul(sine, F32::quotient(35, 100), sine.value(), c, 0real, 3real / 100000000real, 1real, c);
}

/// The middle of two numbers.
pub proof fn law_mean_is_the_middle(a: F32, b: F32)
    requires
        a.finite(),
        b.finite(),
        size(a.value()) <= 10real,
        size(b.value()) <= 10real,
    ensures
        close(mean(a, b), (a.value() + b.value()) / 2real, 1real / 500000real),
        size(a.value()) <= 1real && size(b.value()) <= 1real ==> close(
            mean(a, b),
            (a.value() + b.value()) / 2real,
            1real / 5000000real,
        ),
{
    lemma_constants();
    lemma_value_add(a, b);
    let s = a + b;
    lemma_value_mul(s, F32::half_unit());
    assert(s.value() * F32::half_unit().value() == s.value() / 2real) by (nonlinear_arith)
        requires F32::half_unit().value() == 1real / 2real;
}

/// The middle of three numbers.
pub proof fn law_mean_of_three(a: F32, b: F32, c: F32)
    requires
        a.finite(),
        b.finite(),
        c.finite(),
        size(a.value()) <= 10real,
        size(b.value()) <= 10real,
        size(c.value()) <= 10real,
    ensures
        close(mean3(a, b, c), (a.value() + b.value() + c.value()) / 3real, 1real / 200000real),
        size(a.value()) <= 1real && size(b.value()) <= 1real && size(c.value()) <= 1real ==> close(
            mean3(a, b, c),
            (a.value() + b.value() + c.value()) / 3real,
            1real / 2000000real,
        ),
{
    lemma_value_whole(3);
    lemma_value_add(a, b);
    lemma_value_add(a + b, c);
    lemma_value_div(a + b + c, F32::whole(3));
}

/// A mixed colour, dimmed.
pub proof fn lemma_lit(a: Rgb, b: Rgb, t: F32, k: F32, v: real)
    requires
        is_color(a),
        is_color(b),
        is_part(t),
        close(k, v, 1real / 100000real),
        0real <= v <= 3real,
    ensures
        ({
            let w = t.value();
            let c = scaled(mixed(a, b, t), k);
            let e = 1real / 50000real;
            &&& close(c.r, (a.r.value() + (b.r.value() - a.r.value()) * w) * v, e)
            &&& close(c.g, (a.g.value() + (b.g.value() - a.g.value()) * w) * v, e)
            &&& close(c.b, (a.b.value() + (b.b.value() - a.b.value()) * w) * v, e)
        }),
{
    law_mixture_is_weighted(a, b, t);
    lemma_lit_channel(mixed(a, b, t).r, a.r, b.r, t, k, v);
    lemma_lit_channel(mixed(a, b, t).g, a.g, b.g, t, k, v);
    lemma_lit_channel(mixed(a, b, t).b, a.b, b.b, t, k, v);
}

/// One channel of a mixed colour, dimmed.
proof fn lemma_lit_channel(m: F32, a: F32, b: F32, t: F32, k: F32, v: real)
    requires
        is_part(a),
        is_part(b),
        is_part(t),
        close(m, a.value() + (b.value() - a.value()) * t.value(), 1real / 500000real),
        close(k, v, 1real / 100000real),
        0real <= v <= 3real,
    ensures
        close(m * k, (a.value() + (b.value() - a.value()) * t.value()) * v, 1real / 50000real),
{
    lemma_value_part(a);
    lemma_value_part(b);
    lemma_value_part(t);
    let x = a.value();
    let y = b.value();
    let w = t.value();
    let u = x + (y - x) * w;
    assert(0real <= u <= 1real) by (nonlinear_arith)
        requires u == x + (y - x) * w, 0real <= x <= 1real, 0real <= y <= 1real, 0real <= w <= 1real;
    lemma_close_mul(m, k, u, v, 1real / 500000real, 1real / 100000real, 1real, 3real);
}

/// An edge shines with the spectrum at its ends and dims with its depth: from 18
/// hundredths in silence, by up to 55 more.
pub proof fn law_edges_shine_with_the_spectrum(a: SolidVert, b: SolidVert, t: F32, p: Palette, s0: F32)
    requires
        is_part(a.amp),
        is_part(b.amp),
        is_part(t),
        is_color(p.color_a),
        is_color(p.color_b),
        fog(mean(a.s, b.s), s0).finite(),
        0real <= fog(mean(a.s, b.s), s0).value() <= 126real / 100real,
    ensures
        ({
            let w = t.value();
            let k = fog(mean(a.s, b.s), s0).value() * (18real / 100real + (a.amp.value() + b.amp.value()) / 2real * (
            55real / 100real));
            let c = edge_color(a, b, t, p, s0);
            let (x, y) = (p.color_a, p.color_b);
            let e = 1real / 50000real;
            &&& close(c.r, (x.r.value() + (y.r.value() - x.r.value()) * w) * k, e)
            &&& close(c.g, (x.g.value() + (y.g.value() - x.g.value()) * w) * k, e)
            &&& close(c.b, (x.b.value() + (y.b.value() - x.b.value()) * w) * k, e)
        }),
{
    lemma_value_part(a.amp);
    lemma_value_part(b.amp);
    lemma_value_quotient(18, 100);
    lemma_value_quotient(55, 100);
    law_mean_is_the_middle(a.amp, b.amp);
    let v = (a.amp.value() + b.amp.value()) / 2real;
    let m = mean(a.amp, b.amp);
    let k = F32::quotient(55, 100);
    let e = 1real / 5000000real;
    lemma_close_mul(m, k, v, 55real / 100real, e, e, 1real, 55real / 100real);
    let x = v * (55real / 100real);
    lemma_close_add(F32::quotient(18, 100), m * k, 18real / 100real, x, e, 4real * e);
    let g = F32::quotient(18, 100) + m * k;
    let f = fog(mean(a.s, b.s), s0);
    let u = 18real / 100real + x;
    lemma_close_mul(f, g, f.value(), u, 0real, 6real * e, 126real / 100real, 1real);
    let h = f.value();
    assert(0real <= h * u <= 2real) by (nonlinear_arith)
        requires 0real <= h <= 126real / 100real, 0real <= u <= 1real;
    lemma_lit(p.color_a, p.color_b, t, f * g, h * u);
}

/// An edge is a ribbon between its ends, whose half width is nine thousandths at rest
/// and grows with the perspective.
pub proof fn law_edges_join_their_ends(
    a: SolidVert,
    b: SolidVert,
    t: F32,
    p: Palette,
    inv_aspect: F32,
    s0: F32,
) -> (w: F32)
    requires
        a.s.finite(),
        b.s.finite(),
        s0.finite(),
        0real <= a.s.value() <= 6real,
        0real <= b.s.value() <= 6real,
        1real / 2real <= s0.value() <= 6real,
    ensures
        close(w, (9real / 1000real) * ((a.s.value() + b.s.value()) / 2real / s0.value()), 1real / 5000000real),
        ({
            let n = across((a.sx, a.sy), (b.sx, b.sy), w);
            let c = edge_color(a, b, t, p, s0);
            let q = edge_quad(a, b, t, p, inv_aspect, s0);
            &&& q.len() == 4
            &&& q[0].x == (a.sx + n.0) * inv_aspect && q[0].y == a.sy + n.1
            &&& q[1].x == (a.sx - n.0) * inv_aspect && q[1].y == a.sy - n.1
            &&& q[2].x == (b.sx + n.0) * inv_aspect && q[2].y == b.sy + n.1
            &&& q[3].x == (b.sx - n.0) * inv_aspect && q[3].y == b.sy - n.1
            &&& forall|i: int| 0 <= i < 4 ==> (#[trigger] q[i]).r == c.r && q[i].g == c.g && q[i].b == c.b
            &&& q[0].a.value() == 1real && q[1].a.value() == -1real && q[2].a.value() == 1real && q[3].a.value()
                == -1real
        }),
{
    lemma_constants();
    lemma_value_neg(F32::unit());
    lemma_value_quotient(9, 1000);
    law_mean_is_the_middle(a.s, b.s);
    let m = mean(a.s, b.s);
    let u = (a.s.value() + b.s.value()) / 2real;
    let v = s0.value();
    assert(0real <= u / v <= 12real) by (nonlinear_arith)
        requires 0real <= u <= 6real, v >= 1real / 2real;
    lemma_close_div(m, s0, u, v, 1real / 500000real, 0real, 12real, 1real / 2real);
    let c = 9real / 1000real;
    let k = F32::quotient(9, 1000);
    lemma_close_mul(k, m / s0, c, u / v, 1real / 1000000000real, 1real / 100000real, c, 12real);
    k * (m / s0)
}

/// Edge `i` stands in the strip with its four vertices, tinted by the middle of the
/// places of its ends.
pub proof fn law_every_edge_is_drawn(
    m: SolidMesh,
    vs: Seq<SolidVert>,
    n: int,
    p: Palette,
    inv_aspect: F32,
    s0: F32,
    i: int,
    j: int,
)
    requires
        0 <= i < n <= m.edges@.len(),
        0 <= j < 4,
    ensures
        edge_strip(m, vs, n, p, inv_aspect, s0).len() == 6 * n - 2,
        ({
            let e = m.edges@[i];
            edge_strip(m, vs, n, p, inv_aspect, s0)[6 * i + j] == edge_quad(
                vs[e.0 as int],
                vs[e.1 as int],
                mean(m.vert_t@[e.0 as int], m.vert_t@[e.1 as int]),
                p,
                inv_aspect,
                s0,
            )[j]
        }),
    decreases n,
{
    let before = edge_strip(m, vs, n - 1, p, inv_aspect, s0);
    let q = mesh_edge(m, vs, n - 1, p, inv_aspect, s0);
    assert(q.len() == 4);
    if n == 1 {
        assert(before.len() == 0);
    } else {
        if i < n - 1 {
            law_every_edge_is_drawn(m, vs, n - 1, p, inv_aspect, s0, i, j);
        } else {
            law_every_edge_is_drawn(m, vs, n - 1, p, inv_aspect, s0, 0, 0);
        }
        assert(edge_strip(m, vs, n, p, inv_aspect, s0) == stitched(before, q));
    }
}

/// Every vertex follows the channel of its side, at the place of its height.
pub proof fn law_vertices_follow_their_side(m: SolidMesh, left: Seq<F32>, right: Seq<F32>, c: Camera, i: int)
    requires
        0 <= i < m.verts@.len(),
    ensures
        m.vert_right@[i] ==> vertex_view(m, left, right, c, i).amp == sample(right, m.vert_t@[i]),
        !m.vert_right@[i] ==> vertex_view(m, left, right, c, i).amp == sample(left, m.vert_t@[i]),
{
}

/// A face glows with the mean of its corners and with how far it is off its place.
pub proof fn law_faces_glow_with_the_spectrum(a: SolidVert, b: SolidVert, c: SolidVert, pop: F32)
    requires
        is_part(a.amp),
        is_part(b.amp),
        is_part(c.amp),
        is_part(pop),
    ensures
        ({
            let v = (a.amp.value() + b.amp.value() + c.amp.value()) / 3real * (9real / 10real) + pop.value() * (
            12real / 10real);
            &&& close(face_glow(a, b, c, pop), v, 1real / 500000real)
            &&& 0real <= v <= 21real / 10real
        }),
{
    lemma_value_part(a.amp);
    lemma_value_part(b.amp);
    lemma_value_part(c.amp);
    lemma_value_part(pop);
    lemma_value_quotient(9, 10);
    lemma_value_quotient(12, 10);
    law_mean_of_three(a.amp, b.amp, c.amp);
    let m = mean3(a.amp, b.amp, c.amp);
    let u = (a.amp.value() + b.amp.value() + c.amp.value()) / 3real;
    let k = 9real / 10real;
    let l = 12real / 10real;
    let e = 1real / 10000000real;
    lemma_close_mul(m, F32::quotient(9, 10), u, k, 5real * e, e, 1real, k);
    lemma_part_times(pop, F32::quotient(12, 10), l);
    lemma_close_add(m * F32::quotient(9, 10), pop * F32::quotient(12, 10), u * k, pop.value() * l, 8real * e, 4real * e);
}

/// A face that glows more than a trace is one triangle of its own colour, dimmed by its
/// depth to 11 hundredths of its glow; one that hardly glows is not drawn.
pub proof fn law_glowing_faces_are_drawn(
    a: SolidVert,
    b: SolidVert,
    c: SolidVert,
    pop: F32,
    t: F32,
    p: Palette,
    inv_aspect: F32,
    s0: F32,
    dist: F32,
) -> (f: F32)
    requires
        is_part(a.amp),
        is_part(b.amp),
        is_part(c.amp),
        is_part(pop),
        is_part(t),
        is_color(p.color_a),
        is_color(p.color_b),
        s0.finite(),
        s0.value() > 0real,
    ensures
        ({
            let n = face_normal(a, b, c);
            let x = popped(a.p, n, pop, dist);
            let y = popped(b.p, n, pop, dist);
            let z = popped(c.p, n, pop, dist);
            let v = (a.amp.value() + b.amp.value() + c.amp.value()) / 3real * (9real / 10real) + pop.value() * (
            12real / 10real);
            let q = face_triangle(a, b, c, pop, t, p, inv_aspect, s0, dist);
            &&& f == fog((F32::nought() + x.2 + y.2 + z.2) / F32::whole(3), s0)
            &&& v <= 399real / 100000real ==> q.len() == 0
            &&& v >= 401real / 100000real ==> q.len() == 3
            &&& q.len() == 3 ==> q[0].x == x.0 * inv_aspect && q[0].y == x.1 && q[1].x == y.0 * inv_aspect && q[1].y
                == y.1 && q[2].x == z.0 * inv_aspect && q[2].y == z.1
            &&& q.len() == 3 && f.finite() && 0real <= f.value() <= 126real / 100real ==> (forall|i: int|
                0 <= i < 3 ==> close(
                    (#[trigger] q[i]).r,
                    (p.color_a.r.value() + (p.color_b.r.value() - p.color_a.r.value()) * t.value()) * (f.value() * v
                        * (11real / 100real)),
                    1real / 50000real,
                ) && close(
                    q[i].g,
                    (p.color_a.g.value() + (p.color_b.g.value() - p.color_a.g.value()) * t.value()) * (f.value() * v
                        * (11real / 100real)),
                    1real / 50000real,
                ) && close(
                    q[i].b,
                    (p.color_a.b.value() + (p.color_b.b.value() - p.color_a.b.value()) * t.value()) * (f.value() * v
                        * (11real / 100real)),
                    1real / 50000real,
                ) && q[i].a.value() == 1real)
        }),
{
    lemma_constants();
    let n = face_normal(a, b, c);
    let x = popped(a.p, n, pop, dist);
    let y = popped(b.p, n, pop, dist);
    let z = popped(c.p, n, pop, dist);
    let f = fog((F32::nought() + x.2 + y.2 + z.2) / F32::whole(3), s0);
    law_faces_glow_with_the_spectrum(a, b, c, pop);
    let g = face_glow(a, b, c, pop);
    lemma_value_quotient(4, 1000);
    lemma_value_le(g, F32::quotient(4, 1000));
    let v = (a.amp.value() + b.amp.value() + c.amp.value()) / 3real * (9real / 10real) + pop.value() * (12real
        / 10real);
    if f.finite() && 0real <= f.value() <= 126real / 100real {
        lemma_glow(f, g, v);
        lemma_lit(
            p.color_a,
            p.color_b,
            t,
            f * g * F32::quotient(11, 100),
            f.value() * v * (11real / 100real),
        );
    }
    f
}

/// The brightness of a face.
proof fn lemma_glow(f: F32, g: F32, v: real)
    requires
        f.finite(),
        0real <= f.value() <= 126real / 100real,
        close(g, v, 1real / 500000real),
        0real <= v <= 21real / 10real,
    ensures
        close(f * g * F32::quotient(11, 100), f.value() * v * (11real / 100real), 1real / 100000real),
        0real <= f.value() * v * (11real / 100real) <= 2real,
{
    lemma_value_quotient(11, 100);
    let h = f.value();
    let k = 11real / 100real;
    lemma_close_mul(f, g, h, v, 0real, 1real / 500000real, 126real / 100real, 21real / 10real);
    assert(0real <= h * v <= 3real) by (nonlinear_arith)
        requires 0real <= h <= 126real / 100real, 0real <= v <= 21real / 10real;
    lemma_close_mul(f * g, F32::quotient(11, 100), h * v, k, 3real / 1000000real, 1real / 10000000real, 3real, k);
}

/// A corner of a face is moved out along the face's direction and projected by its own
/// perspective.
pub proof fn law_kicked_faces_move_out(p: Point3, n: Point3, pop: F32, dist: F32)
    requires
        p.x.finite() && p.y.finite() && p.z.finite(),
        n.x.finite() && n.y.finite() && n.z.finite(),
        size(p.x.value()) <= 2real && size(p.y.value()) <= 2real && size(p.z.value()) <= 2real,
        size(n.x.value()) <= 2real && size(n.y.value()) <= 2real && size(n.z.value()) <= 2real,
        is_part(pop),
        dist.finite(),
        0real <= dist.value() <= 10real,
    ensures
        ({
            let q = popped(p, n, pop, dist);
            let e = 1real / 20000real;
            &&& close(q.0, (p.x.value() + n.x.value() * pop.value()) * q.2.value(), e)
            &&& close(q.1, (p.y.value() + n.y.value() * pop.value()) * q.2.value(), e)
            &&& q.2 == nearness(dist, p.z + n.z * pop)
            &&& close(p.z + n.z * pop, p.z.value() + n.z.value() * pop.value(), 1real / 1000000real)
        }),
{
    lemma_moved_out(p.x, n.x, pop);
    lemma_moved_out(p.y, n.y, pop);
    lemma_moved_out(p.z, n.z, pop);
    let z = p.z + n.z * pop;
    let s = nearness(dist, z);
    lemma_perspective_bound(dist, z);
    let e = 1real / 1000000real;
    let x = p.x.value() + n.x.value() * pop.value();
    let y = p.y.value() + n.y.value() * pop.value();
    lemma_close_mul(p.x + n.x * pop, s, x, s.value(), e, 0real, 4real, 6real);
    lemma_close_mul(p.y + n.y * pop, s, y, s.value(), e, 0real, 4real, 6real);
}

/// The perspective is bounded.
proof fn lemma_perspective_bound(dist: F32, z: F32)
    requires
        dist.finite(),
        z.finite(),
        0real <= dist.value() <= 10real,
        size(z.value()) <= 5real,
    ensures
        nearness(dist, z).finite(),
        size(nearness(dist, z).value()) <= 6real,
{
    lemma_value_quotient(22, 10);
    lemma_value_quotient(4, 10);
    lemma_value_add(dist, z);
    let x = (dist + z).larger(F32::quotient(4, 10));
    lemma_value_larger(dist + z, F32::quotient(4, 10));
    let k = F32::quotient(22, 10);
    let q = k.value() / x.value();
    assert(0real <= q <= 56real / 10real) by (nonlinear_arith)
        requires q == k.value() / x.value(), 0real <= k.value() <= 221real / 100real, x.value() >= 399real / 1000real;
    lemma_value_div(k, x);
}

/// A coordinate moved out.
proof fn lemma_moved_out(x: F32, n: F32, pop: F32)
    requires
        x.finite(),
        n.finite(),
        size(x.value()) <= 2real,
        size(n.value()) <= 2real,
        is_part(pop),
    ensures
        close(x + n * pop, x.value() + n.value() * pop.value(), 1real / 1000000real),
        size(x.value() + n.value() * pop.value()) <= 4real,
{
    lemma_value_part(pop);
    lemma_size_mul(n.value(), pop.value(), 2real, 1real);
    lemma_close_mul(n, pop, n.value(), pop.value(), 0real, 0real, 2real, 1real);
    lemma_close_add(x, n * pop, x.value(), n.value() * pop.value(), 0real, 2real / 10000000real);
}

/// A corner is a point of light: from 6 hundredths in silence, by up to a half more,
/// dimmed by its depth.
pub proof fn law_corners_shine_with_the_spectrum(sv: SolidVert, t: F32, p: Palette, inv_aspect: F32, s0: F32)
    requires
        is_part(sv.amp),
        is_part(t),
        is_color(p.color_a),
        is_color(p.color_b),
        fog(sv.s, s0).finite(),
        0real <= fog(sv.s, s0).value() <= 126real / 100real,
    ensures
        ({
            let v = solid_point(sv, t, p, inv_aspect, s0);
            let k = (6real / 100real + sv.amp.value() / 2real) * fog(sv.s, s0).value();
            let w = t.value();
            let (x, y) = (p.color_a, p.color_b);
            let e = 1real / 500000real;
            &&& v.x == sv.sx * inv_aspect
            &&& v.y == sv.sy
            &&& close(v.a, clip(k, 0real, 1real), e)
            &&& close(v.r, x.r.value() + (y.r.value() - x.r.value()) * w, e)
            &&& close(v.g, x.g.value() + (y.g.value() - x.g.value()) * w, e)
            &&& close(v.b, x.b.value() + (y.b.value() - x.b.value()) * w, e)
        }),
{
    lemma_constants();
    lemma_value_part(sv.amp);
    lemma_value_quotient(6, 100);
    law_mixture_is_weighted(p.color_a, p.color_b, t);
    lemma_part_times(sv.amp, F32::half_unit(), 1real / 2real);
    let e = 1real / 10000000real;
    let a = sv.amp.value() * (1real / 2real);
    let h = sv.amp * F32::half_unit();
    lemma_close_add(F32::quotient(6, 100), h, 6real / 100real, a, e, 4real * e);
    let f = fog(sv.s, s0);
    let u = 6real / 100real + a;
    let b = F32::quotient(6, 100) + h;
    lemma_close_mul(b, f, u, f.value(), 6real * e, 0real, 1real, 126real / 100real);
    lemma_close_part(b * f, u * f.value(), 1real / 500000real);
}

/// The faces are drawn one after the other, each as its corners, its place in the
/// spectrum and its own offset make it.
pub proof fn law_every_face_is_drawn(
    m: SolidMesh,
    vs: Seq<SolidVert>,
    pops: Seq<F32>,
    n: int,
    p: Palette,
    inv_aspect: F32,
    s0: F32,
    dist: F32,
)
    requires
        0 < n <= m.faces@.len(),
    ensures
        ({
            let f = m.faces@[n - 1];
            let own = face_triangle(
                vs[f.0 as int],
                vs[f.1 as int],
                vs[f.2 as int],
                pops[n - 1],
                m.face_t@[n - 1],
                p,
                inv_aspect,
                s0,
                dist,
            );
            let before = face_triangles(m, vs, pops, n - 1, p, inv_aspect, s0, dist);
            let all = face_triangles(m, vs, pops, n, p, inv_aspect, s0, dist);
            &&& all.len() == before.len() + own.len()
            &&& all.subrange(0, before.len() as int) == before
            &&& all.subrange(before.len() as int, all.len() as int) == own
            &&& n == 1 ==> before.len() == 0
        }),
{
    let before = face_triangles(m, vs, pops, n - 1, p, inv_aspect, s0, dist);
    let all = face_triangles(m, vs, pops, n, p, inv_aspect, s0, dist);
    assert(all.subrange(0, before.len() as int) =~= before);
    let f = m.faces@[n - 1];
    assert(all.subrange(before.len() as int, all.len() as int) =~= face_triangle(
        vs[f.0 as int],
        vs[f.1 as int],
        vs[f.2 as int],
        pops[n - 1],
        m.face_t@[n - 1],
        p,
        inv_aspect,
        s0,
        dist,
    ));
}

} // verus!
