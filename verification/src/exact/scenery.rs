//! The light of the stage: its border, the lobes, the ticks and the lights of the bands.

use crate::dsp::is_part;
use crate::exact::motion::lemma_lit;
use crate::exact::paint::{is_color, law_bands_are_evenly_placed, law_mixture_is_weighted};
use crate::exact::shapes::is_turn;
use crate::exact::stage::{
    law_lobe_reaches_with_the_energy, law_stage_is_in_front, law_stage_points_are_polar, stage_scale,
};
use crate::float::value::{
    clip, close, lemma_close_add, lemma_close_mul, lemma_close_part, lemma_constants, lemma_size_mul,
    lemma_value_clamped, lemma_value_part, lemma_value_quotient, lemma_value_sub,
};
use crate::float::F32;
use crate::render::imaging::{
    border, border_point, directed, dot, dots, facing, front_step, img_radius, lobe_point, lobe_radius, reach,
    stage_fill, stage_point, stage_ribbons, tick, tick_end, with_outline, with_ticks, LobeTable, Outline, StageTables,
};
use crate::render::paint::{part_of, ramp, Palette, Vertex};
use crate::render::radial::Turn;
use crate::render::ribbon::{ribbon, stitched};
use crate::stereo::ImagingFrame;
use vstd::prelude::*;

verus! {

/// A constant times the square of a perspective.
proof fn lemma_by_square(k: F32, c: real, s: F32, r: real, e: real)
    requires
        close(k, c, e),
        0real <= e <= 1real / 1000000real,
        0real <= c <= 12real / 10real,
        close(s, r, 1real / 1000000real),
        7real / 10real <= r <= 14real / 10real,
    ensures
        close(k * s * s, c * r * r, 1real / 150000real),
        0real <= c * r * r <= 25real / 10real,
{
    let f = 1real / 1000000real;
    assert(0real <= c * r <= 17real / 10real) by (nonlinear_arith)
        requires 0real <= c <= 12real / 10real, 7real / 10real <= r <= 14real / 10real;
    let x = c * r;
    assert(0real <= x * r <= 25real / 10real) by (nonlinear_arith)
        requires 0real <= x <= 17real / 10real, 7real / 10real <= r <= 14real / 10real;
    lemma_close_mul(k, s, c, r, f, f, 12real / 10real, 14real / 10real);
    lemma_close_mul(k * s, s, x, r, 3real * f, f, 17real / 10real, 14real / 10real);
}

/// A colour dimmed by a number that is close to a real.
proof fn lemma_dimmed(a: F32, k: F32, v: real)
    requires
        is_part(a),
        close(k, v, 1real / 100000real),
        0real <= v <= 3real,
    ensures
        close(a * k, a.value() * v, 1real / 80000real),
{
    lemma_value_part(a);
    lemma_close_mul(a, k, a.value(), v, 0real, 1real / 100000real, 1real, 3real);
}

/// The border stands at seven tenths around the listener, brighter and wider where it is
/// nearer.
pub proof fn law_border_is_round(turns: Seq<Turn>, p: Palette, j: int)
    requires
        0 <= j < 81,
        turns.len() == 160,
        is_turn(turns[(j + 120) % 160]),
        is_color(p.color_a),
    ensures
        border(turns, p).pts.len() == 81 && border(turns, p).cols.len() == 81 && border(turns, p).widths.len() == 81,
        ({
            let t = turns[(j + 120) % 160];
            let u = t.sin.value() * (70real / 100real);
            let v = clip(t.cos.value(), 0real, 1real) * (70real / 100real);
            let s = stage_scale(v);
            let e = 1real / 400000real;
            let b = border(turns, p);
            &&& close(b.pts[j].0, u * s, e)
            &&& close(b.pts[j].1, v / 2real * s + 10real / 100real, e)
            &&& close(b.widths[j], (6real / 1000real) * s, 1real / 10000000real)
            &&& close(b.cols[j].r, p.color_a.r.value() * ((22real / 100real) * s * s), 1real / 80000real)
            &&& close(b.cols[j].g, p.color_a.g.value() * ((22real / 100real) * s * s), 1real / 80000real)
            &&& close(b.cols[j].b, p.color_a.b.value() * ((22real / 100real) * s * s), 1real / 80000real)
        }),
{
    let t = turns[(j + 120) % 160];
    assert(front_step(j) == (j + 120) % 160);
    law_stage_is_in_front(t);
    lemma_value_quotient(70, 100);
    lemma_value_quotient(22, 100);
    lemma_value_quotient(6, 1000);
    law_stage_points_are_polar(facing(t), img_radius(), 70real / 100real);
    let q = border_point(turns, j);
    let v = clip(t.cos.value(), 0real, 1real) * (70real / 100real);
    let s = stage_scale(v);
    let k = F32::quotient(22, 100);
    lemma_by_square(k, 22real / 100real, q.s, s, 2real / 100000000real);
    let w = k * q.s * q.s;
    lemma_dimmed(p.color_a.r, w, (22real / 100real) * s * s);
    lemma_dimmed(p.color_a.g, w, (22real / 100real) * s * s);
    lemma_dimmed(p.color_a.b, w, (22real / 100real) * s * s);
    lemma_close_mul(
        F32::quotient(6, 1000),
        q.s,
        6real / 1000real,
        s,
        1real / 1000000000real,
        1real / 1000000real,
        6real / 1000real,
        14real / 10real,
    );
}

/// Where the lobe stands in a direction.
proof fn lemma_lobe_point(t: Turn, decay: F32)
    requires
        is_turn(t),
        is_part(decay),
    ensures
        ({
            let r = 10real / 100real + (1real - decay.value()) * (60real / 100real);
            let u = t.sin.value() * r;
            let v = clip(t.cos.value(), 0real, 1real) * r;
            let s = stage_scale(v);
            let q = lobe_point(t, decay);
            &&& close(q.s, s, 1real / 1000000real)
            &&& close(q.x, u * s, 1real / 400000real)
            &&& close(q.y, v / 2real * s + 10real / 100real, 1real / 400000real)
            &&& 7real / 10real <= s <= 14real / 10real
        }),
{
    lemma_constants();
    lemma_value_part(decay);
    law_lobe_reaches_with_the_energy(F32::nought(), decay);
    law_stage_is_in_front(t);
    let r = 10real / 100real + (1real - decay.value()) * (60real / 100real);
    law_stage_points_are_polar(facing(t), lobe_radius(decay), r);
}

/// The outline of a lobe stands as far out as the lobe reaches, and is brighter where it
/// reaches further: from 30 hundredths by up to 85 more.
pub proof fn law_lobe_line_shows_the_energy(l: LobeTable, turns: Seq<Turn>, p: Palette, j: int)
    requires
        0 <= j < 81,
        l.wf(),
        turns.len() == 160,
        is_turn(turns[(j + 120) % 160]),
        is_part(l.decays@[(j + 120) % 160]),
        is_part(l.tint@[(j + 120) % 160]),
        is_color(p.color_a),
        is_color(p.color_b),
    ensures
        ({
            let i = (j + 120) % 160;
            let t = turns[i];
            let x = 1real - l.decays@[i].value();
            let w = l.tint@[i].value();
            let r = 10real / 100real + x * (60real / 100real);
            let u = t.sin.value() * r;
            let v = clip(t.cos.value(), 0real, 1real) * r;
            let s = stage_scale(v);
            let k = (30real / 100real + x * (85real / 100real)) * s * s;
            let o = l.line(turns, p);
            let (a, b) = (p.color_a, p.color_b);
            let e = 1real / 400000real;
            &&& o.pts.len() == 81 && o.cols.len() == 81 && o.widths.len() == 81
            &&& close(o.pts[j].0, u * s, e)
            &&& close(o.pts[j].1, v / 2real * s + 10real / 100real, e)
            &&& close(o.widths[j], (10real / 1000real) * s, 1real / 10000000real)
            &&& close(o.cols[j].r, (a.r.value() + (b.r.value() - a.r.value()) * w) * k, 1real / 40000real)
            &&& close(o.cols[j].g, (a.g.value() + (b.g.value() - a.g.value()) * w) * k, 1real / 40000real)
            &&& close(o.cols[j].b, (a.b.value() + (b.b.value() - a.b.value()) * w) * k, 1real / 40000real)
        }),
{
    lemma_constants();
    let i = (j + 120) % 160;
    assert(front_step(j) == i);
    let t = turns[i];
    let d = l.decays@[i];
    lemma_value_part(d);
    lemma_lobe_point(t, d);
    law_lobe_reaches_with_the_energy(F32::nought(), d);
    let x = 1real - d.value();
    let r = 10real / 100real + x * (60real / 100real);
    let s = stage_scale(clip(t.cos.value(), 0real, 1real) * r);
    let q = lobe_point(t, d);
    lemma_value_quotient(30, 100);
    lemma_value_quotient(85, 100);
    lemma_value_quotient(10, 1000);
    let g = 1real / 10000000real;
    let c = 85real / 100real;
    lemma_close_mul(reach(d), F32::quotient(85, 100), x, c, g, g, 1real, c);
    let m = reach(d) * F32::quotient(85, 100);
    lemma_close_add(F32::quotient(30, 100), m, 30real / 100real, x * c, g, 4real * g);
    lemma_by_square(F32::quotient(30, 100) + m, 30real / 100real + x * c, q.s, s, 7real * g);
    lemma_lit(
        p.color_a,
        p.color_b,
        l.tint@[i],
        (F32::quotient(30, 100) + m) * q.s * q.s,
        (30real / 100real + x * c) * s * s,
    );
    lemma_close_mul(
        F32::quotient(10, 1000),
        q.s,
        10real / 1000real,
        s,
        1real / 1000000000real,
        1real / 1000000real,
        10real / 1000real,
        14real / 10real,
    );
}

/// The fill of a lobe goes from the listener, without light, to the outline, which is
/// brighter where the lobe reaches further: from 5 hundredths by up to 10 more.
pub proof fn law_lobe_fill_goes_out_from_the_listener(
    l: LobeTable,
    turns: Seq<Turn>,
    p: Palette,
    inv_aspect: F32,
    k: int,
)
    requires
        0 <= k < 162,
        l.wf(),
        turns.len() == 160,
        is_part(l.decays@[(k / 2 + 120) % 160]),
        is_part(l.tint@[(k / 2 + 120) % 160]),
        is_color(p.color_a),
        is_color(p.color_b),
    ensures
        l.fill(turns, p, inv_aspect).len() == 162,
        ({
            let i = (k / 2 + 120) % 160;
            let v = l.fill(turns, p, inv_aspect)[k];
            let q = lobe_point(turns[i], l.decays@[i]);
            let x = 5real / 100real + (1real - l.decays@[i].value()) * (10real / 100real);
            let w = l.tint@[i].value();
            let (a, b) = (p.color_a, p.color_b);
            let e = 1real / 40000real;
            &&& v.a.value() == 1real
            &&& k % 2 == 0 ==> v.r.value() == 0real && v.g.value() == 0real && v.b.value() == 0real
            &&& k % 2 == 1 ==> v.x == q.x * inv_aspect && v.y == q.y
            &&& k % 2 == 1 ==> close(v.r, (a.r.value() + (b.r.value() - a.r.value()) * w) * x, e)
            &&& k % 2 == 1 ==> close(v.g, (a.g.value() + (b.g.value() - a.g.value()) * w) * x, e)
            &&& k % 2 == 1 ==> close(v.b, (a.b.value() + (b.b.value() - a.b.value()) * w) * x, e)
        }),
{
    lemma_constants();
    let i = (k / 2 + 120) % 160;
    assert(front_step(k / 2) == i);
    let d = l.decays@[i];
    lemma_value_part(d);
    law_lobe_reaches_with_the_energy(F32::nought(), d);
    lemma_value_quotient(5, 100);
    lemma_value_quotient(10, 100);
    let g = 1real / 10000000real;
    let x = 1real - d.value();
    let c = 10real / 100real;
    lemma_close_mul(reach(d), F32::quotient(10, 100), x, c, g, g, 1real, c);
    let m = reach(d) * F32::quotient(10, 100);
    lemma_close_add(F32::quotient(5, 100), m, 5real / 100real, x * c, g, 4real * g);
    lemma_lit(p.color_a, p.color_b, l.tint@[i], F32::quotient(5, 100) + m, 5real / 100real + x * c);
}

/// A multiple of the radius.
proof fn lemma_radius(k: F32, c: real)
    requires
        close(k, c, 1real / 10000000real),
        0real <= c <= 2real,
    ensures
        close(img_radius() * k, (70real / 100real) * c, 4real / 10000000real),
{
    lemma_value_quotient(70, 100);
    lemma_close_mul(
        img_radius(),
        k,
        70real / 100real,
        c,
        5real / 100000000real,
        1real / 10000000real,
        70real / 100real,
        2real,
    );
}

/// A tick stands outside the border, on the ray of its angle: from 102 hundredths of the
/// radius to 110, the one in front to 116.
pub proof fn law_ticks_stand_outside(t: Turn, front: bool, p: Palette)
    requires
        is_turn(t),
        is_color(p.color_a),
    ensures
        tick(t, front, p).pts.len() == 3,
        ({
            let r = if front {
                812real / 1000real
            } else {
                770real / 1000real
            };
            let c = clip(t.cos.value(), 0real, 1real);
            let y = c * (714real / 1000real);
            let z = c * r;
            let a = tick(t, front, p).pts[0];
            let b = tick(t, front, p).pts[2];
            let e = 1real / 400000real;
            &&& close(a.0, t.sin.value() * (714real / 1000real) * stage_scale(y), e)
            &&& close(a.1, y / 2real * stage_scale(y) + 10real / 100real, e)
            &&& close(b.0, t.sin.value() * r * stage_scale(z), e)
            &&& close(b.1, z / 2real * stage_scale(z) + 10real / 100real, e)
            &&& tick(t, front, p).pts[1] == ((a.0 + b.0) * F32::half_unit(), (a.1 + b.1) * F32::half_unit())
            &&& forall|k: int|
                0 <= k < 3 ==> close(
                    #[trigger] tick(t, front, p).widths[k],
                    (6real / 1000real) * stage_scale(y),
                    1real / 10000000real,
                )
            &&& forall|k: int|
                0 <= k < 3 ==> close(
                    (#[trigger] tick(t, front, p).cols[k]).r,
                    p.color_a.r.value() * ((30real / 100real) * stage_scale(y) * stage_scale(y)),
                    1real / 80000real,
                )
        }),
{
    law_stage_is_in_front(t);
    lemma_value_quotient(70, 100);
    lemma_value_quotient(102, 100);
    lemma_value_quotient(116, 100);
    lemma_value_quotient(110, 100);
    lemma_value_quotient(30, 100);
    lemma_value_quotient(6, 1000);
    lemma_radius(F32::quotient(102, 100), 102real / 100real);
    lemma_radius(F32::quotient(116, 100), 116real / 100real);
    lemma_radius(F32::quotient(110, 100), 110real / 100real);
    let r = if front {
        812real / 1000real
    } else {
        770real / 1000real
    };
    law_stage_points_are_polar(facing(t), img_radius() * F32::quotient(102, 100), 714real / 1000real);
    law_stage_points_are_polar(facing(t), tick_end(front), r);
    let s = stage_scale(clip(t.cos.value(), 0real, 1real) * (714real / 1000real));
    let q = stage_point(facing(t), img_radius() * F32::quotient(102, 100));
    lemma_by_square(F32::quotient(30, 100), 30real / 100real, q.s, s, 1real / 10000000real);
    lemma_dimmed(p.color_a.r, F32::quotient(30, 100) * q.s * q.s, (30real / 100real) * s * s);
    lemma_close_mul(
        F32::quotient(6, 1000),
        q.s,
        6real / 1000real,
        s,
        1real / 1000000000real,
        1real / 1000000real,
        6real / 1000real,
        14real / 10real,
    );
}

/// The light of a band stands on the border in its direction. It is as bright as the
/// band is loud and directed, and has the colour of its place in the spectrum.
pub proof fn law_lights_show_directed_energy(
    img: ImagingFrame,
    bands: Seq<Turn>,
    b: int,
    p: Palette,
    inv_aspect: F32,
)
    requires
        img.is_image(),
        0 <= b < 64,
        bands.len() == 64,
        is_turn(bands[b]),
        is_color(p.color_a),
        is_color(p.color_b),
    ensures
        ({
            let v = dot(img, bands, b, p, inv_aspect);
            let q = stage_point(facing(bands[b]), img_radius());
            let s = stage_scale(clip(bands[b].cos.value(), 0real, 1real) * (70real / 100real));
            let k = img.energy@[b].value() * (1real - img.diffuseness@[b].value());
            let w = b as real / 63real;
            let (x, y) = (p.color_a, p.color_b);
            let e = 1real / 300000real;
            &&& close(directed(img, b), k, 1real / 4000000real)
            &&& 0real <= k <= 1real
            &&& v.x == q.x * inv_aspect && v.y == q.y
            &&& close(v.a, clip(k * s * s, 0real, 1real), 1real / 150000real)
            &&& close(v.r, x.r.value() + (y.r.value() - x.r.value()) * w, e)
            &&& close(v.g, x.g.value() + (y.g.value() - x.g.value()) * w, e)
            &&& close(v.b, x.b.value() + (y.b.value() - x.b.value()) * w, e)
        }),
{
    lemma_constants();
    assert(is_part(img.energy@[b]) && is_part(img.diffuseness@[b]));
    let n = img.energy@[b];
    let m = img.diffuseness@[b];
    lemma_value_part(n);
    lemma_value_part(m);
    lemma_value_clamped(m, F32::nought(), F32::unit());
    lemma_value_sub(F32::unit(), part_of(m));
    let u = n.value();
    let z = 1real - m.value();
    lemma_close_mul(n, F32::unit() - part_of(m), u, z, 0real, 7real / 100000000real, 1real, 1real);
    assert(0real <= u * z <= 1real) by (nonlinear_arith)
        requires 0real <= u <= 1real, 0real <= z <= 1real;
    law_stage_is_in_front(bands[b]);
    lemma_value_quotient(70, 100);
    law_stage_points_are_polar(facing(bands[b]), img_radius(), 70real / 100real);
    let s = stage_scale(clip(bands[b].cos.value(), 0real, 1real) * (70real / 100real));
    let q = stage_point(facing(bands[b]), img_radius());
    lemma_by_square(directed(img, b), u * z, q.s, s, 1real / 4000000real);
    lemma_close_part(directed(img, b) * q.s * q.s, u * z * s * s, 1real / 150000real);
    law_bands_are_evenly_placed(b);
    law_mixture_is_weighted(p.color_a, p.color_b, ramp(b));
    lemma_placed(p.color_a.r, p.color_b.r, ramp(b), b as real / 63real);
    lemma_placed(p.color_a.g, p.color_b.g, ramp(b), b as real / 63real);
    lemma_placed(p.color_a.b, p.color_b.b, ramp(b), b as real / 63real);
}

/// A mixture at a place that is close to a real.
proof fn lemma_placed(a: F32, b: F32, t: F32, w: real)
    requires
        is_part(a),
        is_part(b),
        close(t, w, 1real / 10000000real),
    ensures
        ({
            let u = a.value() + (b.value() - a.value()) * t.value();
            let v = a.value() + (b.value() - a.value()) * w;
            u - v <= 1real / 10000000real && v - u <= 1real / 10000000real
        }),
{
    lemma_value_part(a);
    lemma_value_part(b);
    let d = b.value() - a.value();
    let h = t.value() - w;
    lemma_size_mul(d, h, 1real, 1real / 10000000real);
    assert(d * t.value() - d * w == d * h) by (nonlinear_arith)
        requires h == t.value() - w;
}

/// The lights are those of the bands that have a direction, each of them once, in order.
pub proof fn law_directed_bands_have_lights(
    img: ImagingFrame,
    bands: Seq<Turn>,
    n: int,
    p: Palette,
    inv_aspect: F32,
    b: int,
)
    requires
        0 <= b < n <= 64,
        img.is_image(),
        bands.len() == 64,
    ensures
        !directed(img, b).le(F32::quotient(1, 100)) ==> exists|k: int|
            0 <= k < dots(img, bands, n, p, inv_aspect).len() && #[trigger] dots(img, bands, n, p, inv_aspect)[k]
                == dot(img, bands, b, p, inv_aspect),
        dots(img, bands, n, p, inv_aspect).len() <= n,
    decreases n,
{
    let before = dots(img, bands, n - 1, p, inv_aspect);
    let all = dots(img, bands, n, p, inv_aspect);
    if n > 1 && b < n - 1 {
        law_directed_bands_have_lights(img, bands, n - 1, p, inv_aspect, b);
        if !directed(img, b).le(F32::quotient(1, 100)) {
            let k = choose|k: int|
                0 <= k < before.len() && #[trigger] before[k] == dot(img, bands, b, p, inv_aspect);
            assert(all[k] == before[k]);
        }
    } else {
        if n > 1 {
            law_directed_bands_have_lights(img, bands, n - 1, p, inv_aspect, 0);
        }
        if !directed(img, b).le(F32::quotient(1, 100)) {
            assert(all[before.len() as int] == dot(img, bands, b, p, inv_aspect));
        }
    }
}

/// The fill of the stage holds the fans of the three lobes: low, middle and high.
pub proof fn law_stage_fill_holds_three_lobes(t: StageTables, p: Palette, inv_aspect: F32)
    ensures
        ({
            let f = stage_fill(t, p, inv_aspect);
            &&& f.len() == 490
            &&& f.subrange(0, 162) == t.lows.fill(t.steps@, p, inv_aspect)
            &&& f.subrange(164, 326) == t.mids.fill(t.steps@, p, inv_aspect)
            &&& f.subrange(328, 490) == t.highs.fill(t.steps@, p, inv_aspect)
        }),
{
    let f = stage_fill(t, p, inv_aspect);
    assert(f.subrange(0, 162) =~= t.lows.fill(t.steps@, p, inv_aspect));
    assert(f.subrange(164, 326) =~= t.mids.fill(t.steps@, p, inv_aspect));
    assert(f.subrange(328, 490) =~= t.highs.fill(t.steps@, p, inv_aspect));
}

/// The ribbons of the stage are those of its border, of the three lobes, and of the
/// three ticks, of which the first is the long one.
pub proof fn law_stage_ribbons_hold_all_lines(t: StageTables, p: Palette, inv_aspect: F32)
    requires
        t.ticks@.len() == 3,
    ensures
        ({
            let f = stage_ribbons(t, p, inv_aspect);
            let b = border(t.steps@, p);
            let (l, m, h) = (t.lows.line(t.steps@, p), t.mids.line(t.steps@, p), t.highs.line(t.steps@, p));
            let (x, y, z) = (tick(t.ticks@[0], true, p), tick(t.ticks@[1], false, p), tick(t.ticks@[2], false, p));
            &&& f.len() == 686
            &&& f.subrange(0, 164) == ribbon(b.pts, b.cols, b.widths, true, inv_aspect)
            &&& f.subrange(166, 330) == ribbon(l.pts, l.cols, l.widths, true, inv_aspect)
            &&& f.subrange(332, 496) == ribbon(m.pts, m.cols, m.widths, true, inv_aspect)
            &&& f.subrange(498, 662) == ribbon(h.pts, h.cols, h.widths, true, inv_aspect)
            &&& f.subrange(664, 670) == ribbon(x.pts, x.cols, x.widths, false, inv_aspect)
            &&& f.subrange(672, 678) == ribbon(y.pts, y.cols, y.widths, false, inv_aspect)
            &&& f.subrange(680, 686) == ribbon(z.pts, z.cols, z.widths, false, inv_aspect)
        }),
{
    let b = border(t.steps@, p);
    let (l, m, h) = (t.lows.line(t.steps@, p), t.mids.line(t.steps@, p), t.highs.line(t.steps@, p));
    let (x, y, z) = (tick(t.ticks@[0], true, p), tick(t.ticks@[1], false, p), tick(t.ticks@[2], false, p));
    let s1 = with_outline(Seq::empty(), b, true, inv_aspect);
    let s2 = with_outline(s1, l, true, inv_aspect);
    let s3 = with_outline(s2, m, true, inv_aspect);
    let s4 = with_outline(s3, h, true, inv_aspect);
    let s5 = with_outline(s4, x, false, inv_aspect);
    let s6 = with_outline(s5, y, false, inv_aspect);
    let s7 = with_outline(s6, z, false, inv_aspect);
    assert(s1 =~= ribbon(b.pts, b.cols, b.widths, true, inv_aspect));
    lemma_appended(s1, l, true, inv_aspect, 82);
    lemma_appended(s2, m, true, inv_aspect, 82);
    lemma_appended(s3, h, true, inv_aspect, 82);
    lemma_appended(s4, x, false, inv_aspect, 3);
    lemma_appended(s5, y, false, inv_aspect, 3);
    lemma_appended(s6, z, false, inv_aspect, 3);
    assert(with_ticks(s4, t.ticks@, 1, p, inv_aspect) == s5) by {
        assert(with_ticks(s4, t.ticks@, 0, p, inv_aspect) == s4);
    }
    assert(with_ticks(s4, t.ticks@, 2, p, inv_aspect) == s6);
    assert(with_ticks(s4, t.ticks@, 3, p, inv_aspect) == s7);
    let f = stage_ribbons(t, p, inv_aspect);
    assert(f == s7);
    assert(f.subrange(0, 164) =~= s1.subrange(0, 164));
    assert(f.subrange(166, 330) =~= s2.subrange(166, 330));
    assert(f.subrange(332, 496) =~= s3.subrange(332, 496));
    assert(f.subrange(498, 662) =~= s4.subrange(498, 662));
    assert(f.subrange(664, 670) =~= s5.subrange(664, 670));
    assert(f.subrange(672, 678) =~= s6.subrange(672, 678));
}

/// An outline stands at the end of the strip that it is appended to, which stays as it
/// was.
proof fn lemma_appended(out: Seq<Vertex>, o: Outline, closed: bool, inv_aspect: F32, n: int)
    requires
        out.len() > 0,
        o.pts.len() >= 3,
        n == o.pts.len() + if closed {
            1int
        } else {
            0int
        },
    ensures
        ({
            let r = with_outline(out, o, closed, inv_aspect);
            &&& r.len() == out.len() + 2 + 2 * n
            &&& r.subrange(out.len() as int + 2, r.len() as int) == ribbon(o.pts, o.cols, o.widths, closed, inv_aspect)
            &&& forall|i: int| 0 <= i < out.len() ==> #[trigger] r[i] == out[i]
        }),
{
    let s = ribbon(o.pts, o.cols, o.widths, closed, inv_aspect);
    let r = with_outline(out, o, closed, inv_aspect);
    assert(r == stitched(out, s));
    assert(r.subrange(out.len() as int + 2, r.len() as int) =~= s);
}

} // verus!
