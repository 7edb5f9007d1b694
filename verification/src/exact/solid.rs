//! The solid: how the spectrum pushes it out, how it is turned, seen and lit.

use crate::bands::NUM_BANDS;
use crate::dsp::is_part;
use crate::exact::shapes::is_turn;
use crate::exact::spectrum::lemma_product_sign;
use crate::float::value::{
    apart, clip, close, lemma_close_add, lemma_close_clamped, lemma_close_div, lemma_close_mul, lemma_close_sub,
    lemma_close_toward, lemma_constants, lemma_size_mul, lemma_value_add, lemma_value_clamped, lemma_value_index,
    lemma_value_larger, lemma_value_mul, lemma_value_neg, lemma_value_order, lemma_value_part, lemma_value_quotient,
    lemma_value_sub, lemma_value_whole, size,
};
use crate::float::F32;
use crate::render::paint::part_of;
use crate::render::radial::Turn;
use crate::solid::mesh::Point3;
use crate::solid::view::{
    band_place, fog, nearness, pitch, projected, sample, solid_amp, solid_focal, solid_r0, turned, Camera,
};
use vstd::prelude::*;

verus! {

/// What a place on the ramp shows is between the two bands next to it, by how near it
/// is to each.
pub proof fn law_sample_is_between_its_bands(sp: Seq<F32>, t: F32)
    requires
        sp.len() == NUM_BANDS,
        forall|b: int| 0 <= b < NUM_BANDS ==> is_part(#[trigger] sp[b]),
        is_part(t),
    ensures
        ({
            let f = 63real * t.value();
            let i = band_place(t).index();
            let j = if i < 63 {
                i + 1
            } else {
                63
            };
            &&& 0 <= i < NUM_BANDS
            &&& i as real <= f + 1real / 100000real
            &&& f <= i as real + 1real + 1real / 100000real
            &&& close(
                sample(sp, t),
                sp[i].value() + (sp[j].value() - sp[i].value()) * (f - i as real),
                1real / 50000real,
            )
        }),
{
    lemma_constants();
    lemma_value_part(t);
    lemma_value_clamped(t, F32::nought(), F32::unit());
    lemma_value_whole(63);
    let v = t.value();
    lemma_size_mul(v, 63real, 1real, 63real);
    lemma_value_mul(part_of(t), F32::whole(63));
    let f = band_place(t);
    assert(close(f, 63real * v, 1real / 200000real));
    lemma_product_not_below(part_of(t));
    lemma_value_index(f);
    let i = f.index();
    let j = if i < 63 {
        i + 1
    } else {
        63
    };
    lemma_value_whole(i);
    lemma_value_sub(f, F32::whole(i));
    lemma_value_part(sp[i]);
    lemma_value_part(sp[j]);
    let x = sp[i].value();
    let y = sp[j].value();
    let w = f.value() - i as real;
    let e = 1real / 10000000real;
    lemma_close_toward(sp[i], sp[j], f - F32::whole(i), x, y, w, e, 1real);
    let d = 63real * v - f.value();
    lemma_size_mul(y - x, d, 1real, 1real / 200000real);
    assert((y - x) * (63real * v - i as real) == (y - x) * w + (y - x) * d) by (nonlinear_arith)
        requires w + d == 63real * v - i as real;
}

/// A part of 63 is not below zero.
proof fn lemma_product_not_below(x: F32)
    requires
        is_part(x),
    ensures
        (x * F32::whole(63)).value() >= 0real,
{
    lemma_constants();
    lemma_value_part(x);
    lemma_value_whole(63);
    lemma_product_sign(x, F32::whole(63));
}

/// A number of a point on or near the solid.
pub open spec fn is_coordinate(x: F32) -> bool {
    x.finite() && size(x.value()) <= 2real
}

/// A point on or near the solid.
pub open spec fn is_near(p: Point3) -> bool {
    is_coordinate(p.x) && is_coordinate(p.y) && is_coordinate(p.z)
}

/// Two products, added or subtracted.
proof fn lemma_products(a: F32, b: F32, c: F32, d: F32, u: real, v: real)
    requires
        close(a, u, 1real / 800000real),
        close(b, v, 1real / 800000real),
        size(u) <= 4real,
        size(v) <= 4real,
        c.finite(),
        d.finite(),
        size(c.value()) <= 1real,
        size(d.value()) <= 1real,
    ensures
        close(a * c + b * d, u * c.value() + v * d.value(), 1real / 200000real),
        close(a * c - b * d, u * c.value() - v * d.value(), 1real / 200000real),
        a.value() == u && b.value() == v && size(u) <= 2real && size(v) <= 2real ==> close(
            a * c + b * d,
            u * c.value() + v * d.value(),
            1real / 800000real,
        ) && close(a * c - b * d, u * c.value() - v * d.value(), 1real / 800000real),
{
    let p = c.value();
    let q = d.value();
    lemma_size_mul(u, p, 4real, 1real);
    lemma_size_mul(v, q, 4real, 1real);
    let e = 1real / 800000real;
    let f = 1real / 600000real;
    lemma_close_mul(a, c, u, p, e, 0real, 4real, 1real);
    lemma_close_mul(b, d, v, q, e, 0real, 4real, 1real);
    lemma_close_add(a * c, b * d, u * p, v * q, f, f);
    lemma_close_sub(a * c, b * d, u * p, v * q, f, f);
    if a.value() == u && b.value() == v && size(u) <= 2real && size(v) <= 2real {
        lemma_size_mul(u, p, 2real, 1real);
        lemma_size_mul(v, q, 2real, 1real);
        let g = 1real / 5000000real;
        lemma_close_mul(a, c, u, p, 0real, 0real, 2real, 1real);
        lemma_close_mul(b, d, v, q, 0real, 0real, 2real, 1real);
        lemma_close_add(a * c, b * d, u * p, v * q, g, g);
        lemma_close_sub(a * c, b * d, u * p, v * q, g, g);
    }
}

/// Turning goes around the vertical axis first, then around the horizontal one.
pub proof fn law_turning_is_two_rotations(p: Point3, yaw: Turn, pitch: Turn)
    requires
        is_near(p),
        is_turn(yaw),
        is_turn(pitch),
    ensures
        ({
            let x = p.x.value();
            let y = p.y.value();
            let z = p.z.value();
            let back = z * yaw.cos.value() - x * yaw.sin.value();
            let q = turned(p, yaw, pitch);
            &&& close(q.x, x * yaw.cos.value() + z * yaw.sin.value(), 1real / 800000real)
            &&& close(q.y, y * pitch.cos.value() - back * pitch.sin.value(), 1real / 200000real)
            &&& close(q.z, y * pitch.sin.value() + back * pitch.cos.value(), 1real / 200000real)
            &&& size(back) <= 4real
        }),
{
    let x = p.x.value();
    let y = p.y.value();
    let z = p.z.value();
    lemma_value_neg(p.x);
    lemma_products(p.x, p.z, yaw.cos, yaw.sin, x, z);
    lemma_products(-p.x, p.z, yaw.sin, yaw.cos, -x, z);
    let s = yaw.sin.value();
    assert((-x) * s == -(x * s)) by (nonlinear_arith);
    let back = z * yaw.cos.value() - x * s;
    lemma_size_mul(z, yaw.cos.value(), 2real, 1real);
    lemma_size_mul(x, s, 2real, 1real);
    let b = -p.x * yaw.sin + p.z * yaw.cos;
    lemma_products(p.y, b, pitch.cos, pitch.sin, y, back);
    lemma_products(p.y, b, pitch.sin, pitch.cos, y, back);
}

/// What is near is large: the perspective is the focal length by the distance, which
/// counts as four tenths at least.
pub proof fn law_perspective_is_inverse_to_distance(dist: F32, z: F32)
    requires
        dist.finite(),
        z.finite(),
        0real <= dist.value() <= 10real,
        size(z.value()) <= 4real,
    ensures
        ({
            let d = dist.value() + z.value();
            let v = if d < 4real / 10real {
                4real / 10real
            } else {
                d
            };
            &&& close(nearness(dist, z), (22real / 10real) / v, 1real / 20000real)
            &&& 0real <= (22real / 10real) / v <= 55real / 10real
        }),
{
    lemma_value_quotient(22, 10);
    lemma_value_quotient(4, 10);
    lemma_value_add(dist, z);
    let d = dist.value() + z.value();
    let v = if d < 4real / 10real {
        4real / 10real
    } else {
        d
    };
    let m = F32::quotient(4, 10);
    lemma_value_larger(dist + z, m);
    let x = (dist + z).larger(m);
    assert(close(x, v, 1real / 1000000real));
    let u = 22real / 10real;
    assert(0real <= u / v <= 55real / 10real) by (nonlinear_arith)
        requires u == 22real / 10real, v >= 4real / 10real;
    lemma_close_div(
        solid_focal(),
        x,
        u,
        v,
        1real / 1000000real,
        1real / 1000000real,
        55real / 10real,
        4real / 10real,
    );
}

/// A vertex of the sphere is pushed out by the spectrum from 56 hundredths by up to 40,
/// turned, and projected by its own perspective.
pub proof fn law_spectrum_pushes_vertices_out(v: Point3, amp: F32, c: Camera)
    requires
        is_part(amp),
        v.x.finite(),
        v.y.finite(),
        v.z.finite(),
        size(v.x.value()) <= 101real / 100real,
        size(v.y.value()) <= 101real / 100real,
        size(v.z.value()) <= 101real / 100real,
        is_turn(c.yaw),
        is_turn(c.pitch),
        c.dist.finite(),
        0real <= c.dist.value() <= 10real,
    ensures
        ({
            let r = 56real / 100real + (40real / 100real) * amp.value();
            let x = v.x.value() * r;
            let y = v.y.value() * r;
            let z = v.z.value() * r;
            let back = z * c.yaw.cos.value() - x * c.yaw.sin.value();
            let w = projected(v, amp, c);
            &&& close(w.p.x, x * c.yaw.cos.value() + z * c.yaw.sin.value(), 1real / 100000real)
            &&& close(w.p.y, y * c.pitch.cos.value() - back * c.pitch.sin.value(), 1real / 100000real)
            &&& close(w.p.z, y * c.pitch.sin.value() + back * c.pitch.cos.value(), 1real / 100000real)
            &&& w.s == nearness(c.dist, w.p.z)
            &&& close(w.sx, w.p.x.value() * w.s.value(), 1real / 500000real)
            &&& close(w.sy, w.p.y.value() * w.s.value(), 1real / 500000real)
            &&& w.amp == amp
        }),
{
    lemma_value_part(amp);
    lemma_value_quotient(56, 100);
    lemma_value_quotient(40, 100);
    let a = amp.value();
    let e = 1real / 10000000real;
    lemma_close_mul(amp, solid_amp(), a, 40real / 100real, 0real, e, 1real, 40real / 100real);
    assert(a * (40real / 100real) == (40real / 100real) * a);
    lemma_close_add(solid_r0(), amp * solid_amp(), 56real / 100real, (40real / 100real) * a, e, 3real * e);
    let r = solid_r0() + amp * solid_amp();
    let k = 56real / 100real + (40real / 100real) * a;
    let f = 6real * e;
    lemma_pushed(v.x, r, k);
    lemma_pushed(v.y, r, k);
    lemma_pushed(v.z, r, k);
    let q = Point3 { x: v.x * r, y: v.y * r, z: v.z * r };
    law_turning_is_two_rotations(q, c.yaw, c.pitch);
    lemma_turned_apart(q.x.value(), q.y.value(), q.z.value(), v.x.value() * k, v.y.value() * k, v.z.value() * k, c);
    let w = projected(v, amp, c);
    let back = q.z.value() * c.yaw.cos.value() - q.x.value() * c.yaw.sin.value();
    lemma_size_mul(q.x.value(), c.yaw.cos.value(), 98real / 100real, 1real);
    lemma_size_mul(q.z.value(), c.yaw.sin.value(), 98real / 100real, 1real);
    lemma_size_mul(q.z.value(), c.yaw.cos.value(), 98real / 100real, 1real);
    lemma_size_mul(q.x.value(), c.yaw.sin.value(), 98real / 100real, 1real);
    lemma_size_mul(q.y.value(), c.pitch.cos.value(), 98real / 100real, 1real);
    lemma_size_mul(q.y.value(), c.pitch.sin.value(), 98real / 100real, 1real);
    lemma_size_mul(back, c.pitch.cos.value(), 2real, 1real);
    lemma_size_mul(back, c.pitch.sin.value(), 2real, 1real);
    law_perspective_is_inverse_to_distance(c.dist, w.p.z);
    lemma_close_mul(w.p.x, w.s, w.p.x.value(), w.s.value(), 0real, 0real, 2real, 6real);
    lemma_close_mul(w.p.y, w.s, w.p.y.value(), w.s.value(), 0real, 0real, 3real, 6real);
}

/// A coordinate pushed out.
proof fn lemma_pushed(x: F32, r: F32, k: real)
    requires
        x.finite(),
        size(x.value()) <= 101real / 100real,
        close(r, k, 6real / 10000000real),
        0real <= k <= 96real / 100real,
    ensures
        close(x * r, x.value() * k, 7real / 10000000real),
        size(x.value() * k) <= 97real / 100real,
        size((x * r).value()) <= 98real / 100real,
{
    lemma_size_mul(x.value(), k, 101real / 100real, 96real / 100real);
    lemma_close_mul(x, r, x.value(), k, 0real, 6real / 10000000real, 101real / 100real, 96real / 100real);
}

/// Near points are turned to near points.
proof fn lemma_turned_apart(a: real, b: real, c: real, x: real, y: real, z: real, m: Camera)
    requires
        apart(a, x) <= 7real / 10000000real,
        apart(b, y) <= 7real / 10000000real,
        apart(c, z) <= 7real / 10000000real,
        is_turn(m.yaw),
        is_turn(m.pitch),
    ensures
        ({
            let i = m.yaw.cos.value();
            let j = m.yaw.sin.value();
            let k = m.pitch.cos.value();
            let l = m.pitch.sin.value();
            &&& apart(a * i + c * j, x * i + z * j) <= 14real / 10000000real
            &&& apart(b * k - (c * i - a * j) * l, y * k - (z * i - x * j) * l) <= 21real / 10000000real
            &&& apart(b * l + (c * i - a * j) * k, y * l + (z * i - x * j) * k) <= 21real / 10000000real
        }),
{
    let e = 7real / 10000000real;
    let i = m.yaw.cos.value();
    let j = m.yaw.sin.value();
    let k = m.pitch.cos.value();
    let l = m.pitch.sin.value();
    lemma_scaled_apart(a, x, i, e);
    lemma_scaled_apart(c, z, j, e);
    lemma_scaled_apart(c, z, i, e);
    lemma_scaled_apart(a, x, j, e);
    lemma_scaled_apart(b, y, k, e);
    lemma_scaled_apart(b, y, l, e);
    lemma_scaled_apart(c * i - a * j, z * i - x * j, k, 2real * e);
    lemma_scaled_apart(c * i - a * j, z * i - x * j, l, 2real * e);
}

/// A factor of at most one brings two numbers no further apart.
proof fn lemma_scaled_apart(a: real, b: real, k: real, e: real)
    requires
        apart(a, b) <= e,
        size(k) <= 1real,
    ensures
        apart(a * k, b * k) <= e,
{
    lemma_size_mul(a - b, k, e, 1real);
    assert((a - b) * k == a * k - b * k) by (nonlinear_arith);
}

/// Depth dims by the cube of the perspective, relative to that at rest, and brightens by
/// a quarter at most.
pub proof fn law_fog_is_the_cube_of_the_perspective(s: F32, s0: F32)
    requires
        s.finite(),
        s0.finite(),
        s.value() >= 0real,
        s0.value() >= 1real / 10real,
        s.value() / s0.value() <= 10real,
    ensures
        ({
            let k = s.value() / s0.value();
            &&& close(fog(s, s0), clip(k * k * k, 0real, 125real / 100real), 1real / 1000real)
            &&& k <= 2real ==> close(fog(s, s0), clip(k * k * k, 0real, 125real / 100real), 1real / 100000real)
        }),
{
    lemma_constants();
    let k = s.value() / s0.value();
    let q = s / s0;
    assert(k >= 0real) by (nonlinear_arith)
        requires k == s.value() / s0.value(), s.value() >= 0real, s0.value() > 0real;
    lemma_value_quotient(125, 100);
    let m = F32::quotient(125, 100);
    lemma_value_order(F32::nought(), m);
    if k <= 2real {
        lemma_close_div(s, s0, s.value(), s0.value(), 0real, 0real, 2real, 1real / 10real);
        let e = 1real / 5000000real;
        lemma_close_mul(q, q, k, k, e, e, 2real, 2real);
        lemma_size_mul(k, k, 2real, 2real);
        lemma_close_mul(q * q, q, k * k, k, 2real / 1000000real, e, 4real, 2real);
        lemma_close_clamped(q * q * q, k * k * k, 9real / 1000000real, F32::nought(), m);
    } else {
        lemma_close_div(s, s0, s.value(), s0.value(), 0real, 0real, 10real, 1real / 10real);
        let e = 1real / 1000000real;
        lemma_close_mul(q, q, k, k, e, e, 10real, 10real);
        lemma_size_mul(k, k, 10real, 10real);
        lemma_close_mul(q * q, q, k * k, k, 3real / 100000real, e, 100real, 10real);
        lemma_close_clamped(q * q * q, k * k * k, 9real / 10000real, F32::nought(), m);
    }
}

} // verus!
