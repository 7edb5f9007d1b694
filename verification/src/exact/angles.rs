//! Angles, and what is gathered from many parts: windows, rings, bells, bands and bursts.

use crate::bands::NUM_BANDS;
use crate::dsp::{level, pi, window_angle, Complex};
use crate::exact::shapes::law_bands_go_round_both_sides;
use crate::exact::spectrum::lemma_product_sign;
use crate::exact::stage::{
    law_bell_is_sixteen_hundredths_wide, law_difference_is_the_shorter_way, law_steps_share_the_circle,
    lemma_circle_values,
};
use crate::exact::stereo::full_turn;
use crate::exact::sums::law_band_center_is_the_middle;
use crate::float::laws::{lemma_div_sign, lemma_one, lemma_whole};
use crate::float::value::{
    apart, close, lemma_close_div, lemma_close_mul, lemma_constants, lemma_value_add, lemma_value_div,
    lemma_value_larger, lemma_value_le, lemma_value_order, lemma_value_sub, lemma_value_whole, size,
};
use crate::float::F32;
use crate::render::imaging::{bell_exponent, step_angle, turn_between};
use crate::render::particles::{born, joined, Emission, Frames, Lane, Particle, Sparks};
use crate::render::radial::Turn;
use crate::render::tunnel::ring_angle;
use crate::solid::mesh::{face_mean, face_on_right, Face, Point3};
use crate::solid::topology::Tri;
use crate::stereo::{
    band_center, band_freq, band_measure, is_frontal, joint_peak, power_ratio, power_span, sums, tau, ImagingFrame,
};
use vstd::prelude::*;

verus! {

/// The window takes one turn from its first sample to its last.
pub proof fn law_window_takes_one_turn(n: int)
    requires
        0 <= n < 2048,
    ensures
        close(window_angle(n), n as real / 2047real * full_turn(), 1real / 200000real),
{
    lemma_constants();
    lemma_circle_values();
    lemma_value_whole(2);
    lemma_value_whole(n);
    lemma_value_whole(2048);
    lemma_value_sub(F32::whole(2048), F32::unit());
    let d = F32::whole(2048) - F32::unit();
    let t = full_turn();
    let e = 1real / 1000000real;
    lemma_close_mul(pi(), F32::whole(2), t / 2real, 2real, 0real, 0real, 32real / 10real, 2real);
    let x = pi() * F32::whole(2);
    let v = n as real;
    lemma_close_mul(x, F32::whole(n), t, v, e, 0real, 7real, 2048real);
    let y = x * F32::whole(n);
    assert(0real <= t * v <= 7real * 2047real) by (nonlinear_arith)
        requires 0real <= t <= 7real, 0real <= v <= 2047real;
    lemma_close_div(y, d, t * v, 2047real, 4real / 1000real, 2real / 10000real, 7real, 2047real);
    assert(t * v / 2047real == v / 2047real * t) by (nonlinear_arith);
}

/// The points of a ring go down the right side and up the left, two bands apart.
pub proof fn law_ring_goes_round_both_sides(j: int)
    requires
        0 <= j < 64,
    ensures
        j < 32 ==> close(
            ring_angle(j),
            full_turn() / 4real - ((2 * j) as real / 63real) * (full_turn() / 2real),
            1real / 100000real,
        ),
        j >= 32 ==> close(
            ring_angle(j),
            full_turn() / 4real + ((126 - 2 * j) as real / 63real) * (full_turn() / 2real),
            1real / 100000real,
        ),
{
    if j < 32 {
        law_bands_go_round_both_sides(2 * j);
    } else {
        law_bands_go_round_both_sides(126 - 2 * j);
    }
}

/// A band spreads around its own direction: the exponent of its bell is that of how far
/// each step is from it, the shorter way round.
pub proof fn law_bands_spread_around_their_direction(img: ImagingFrame, b: int, i: int) -> (d: real)
    requires
        img.is_image(),
        0 <= b < NUM_BANDS,
        0 <= i < 160,
    ensures
        size(d) <= full_turn() / 2real,
        ({
            let s = i as real / 160real * full_turn() - img.azimuth@[b].value();
            apart(d, s) <= 1real / 200000real || apart(d, s - full_turn()) <= 1real / 200000real
        }),
        close(
            bell_exponent(img, b, i),
            -(d * d) / (2real * (16real / 100real) * (16real / 100real)),
            1real / 1000real,
        ),
{
    lemma_constants();
    assert(is_frontal(img.azimuth@[b]));
    law_steps_share_the_circle(i, 0);
    lemma_step_sign(i);
    let s = step_angle(i);
    assert(i as real / 160real <= 159real / 160real);
    assert(i as real / 160real * full_turn() <= 159real / 160real * full_turn()) by (nonlinear_arith)
        requires i as real / 160real <= 159real / 160real, full_turn() > 0real;
    law_difference_is_the_shorter_way(s, img.azimuth@[b]);
    let t = turn_between(s, img.azimuth@[b]);
    law_bell_is_sixteen_hundredths_wide(t);
    t.value()
}

/// Steps are not below zero.
proof fn lemma_step_sign(i: int)
    requires
        0 <= i < 160,
    ensures
        step_angle(i).value() >= 0real,
{
    lemma_constants();
    lemma_circle_values();
    lemma_value_whole(i);
    lemma_value_whole(160);
    let q = F32::whole(i) / F32::whole(160);
    lemma_value_div(F32::whole(i), F32::whole(160));
    if i == 0 {
        lemma_one();
        lemma_whole(0);
        lemma_whole(160);
        lemma_div_sign(F32::whole(0), F32::whole(160));
        lemma_value_order(F32::nought(), F32::whole(0));
        lemma_value_order(F32::nought(), q);
    }
    assert(q.value() >= 0real);
    let t = full_turn();
    assert(0real <= q.value() * t <= 20real) by (nonlinear_arith)
        requires 0real <= q.value() <= 2real, 0real <= t <= 7real;
    lemma_product_sign(q, tau());
}

/// A band is measured over its own bins.
pub proof fn law_bands_are_measured_over_their_bins(l: Seq<Complex>, r: Seq<Complex>, lo: int, hi: int)
    ensures
        band_measure(l, r, lo, hi).cross == sums(l, r, lo, hi).cross,
        band_measure(l, r, lo, hi).span == power_span(sums(l, r, lo, hi)),
        band_measure(l, r, lo, hi).ratio == power_ratio(sums(l, r, lo, hi)),
        band_measure(l, r, lo, hi).level == level(joint_peak(l, r, lo, hi)),
{
}

/// The frequency of a band is its middle, but one hertz at least.
pub proof fn law_band_frequency_is_its_middle(edges: Seq<usize>, b: int)
    requires
        0 <= b < edges.len() - 1,
        edges[b] <= 1023,
        edges[b + 1] <= 1024,
    ensures
        band_freq(edges, b).finite(),
        band_freq(edges, b).value() == if band_center(edges, b).value() < 1real {
            1real
        } else {
            band_center(edges, b).value()
        },
{
    lemma_constants();
    law_band_center_is_the_middle(edges, b);
    lemma_value_larger(band_center(edges, b), F32::unit());
}

/// A burst adds as many sparks as it has, while there is room, and takes none away.
pub proof fn law_bursts_fill_the_room(s: Sparks, lane: Lane, n: int, room: int)
    requires
        0 <= n,
        s.list.len() <= room,
    ensures
        s.burst(lane, n, room).list.len() == if s.list.len() + n <= room {
            s.list.len() + n
        } else {
            room
        },
        s.burst(lane, n, room).list.subrange(0, s.list.len() as int) == s.list,
    decreases n,
{
    let b = s.burst(lane, n, room);
    if n > 0 {
        law_bursts_fill_the_room(s, lane, n - 1, room);
        let c = s.burst(lane, n - 1, room);
        assert forall|i: int| 0 <= i < s.list.len() implies b.list[i] == s.list[i] by {
            assert(c.list[i] == c.list.subrange(0, s.list.len() as int)[i]);
        }
    }
    assert(b.list.subrange(0, s.list.len() as int) =~= s.list);
}

/// Every spoke sends out its own burst, one after the other.
pub proof fn law_every_spoke_bursts(f: Frames, rng: u32, room: int, k: int)
    requires
        0 <= k,
        0 <= room,
    ensures
        f.emitted(rng, room, k).list.len() <= room,
        f.emitted(rng, room, k + 1).list.len() == if f.emitted(rng, room, k).list.len() + f.lane(k).count() <= room {
            f.emitted(rng, room, k).list.len() + f.lane(k).count()
        } else {
            room
        },
    decreases k,
{
    if k > 0 {
        law_every_spoke_bursts(f, rng, room, k - 1);
    }
    law_bursts_fill_the_room(f.emitted(rng, room, k), f.lane(k), f.lane(k).count(), room);
}

/// New particles join after those that are there, each from its own emission.
pub proof fn law_new_particles_join(ps: Seq<Particle>, list: Seq<Emission>, turns: Seq<Turn>, i: int)
    requires
        0 <= i < list.len(),
    ensures
        joined(ps, list, turns).len() == ps.len() + list.len(),
        joined(ps, list, turns).subrange(0, ps.len() as int) == ps,
        joined(ps, list, turns)[ps.len() + i] == born(list[i], turns[i]),
{
    assert(joined(ps, list, turns).subrange(0, ps.len() as int) =~= ps);
}

/// A face is on the right where its middle is.
pub proof fn law_faces_are_where_their_middle_is(verts: Seq<Point3>, t: Tri)
    requires
        verts[t.0].x.finite(),
        verts[t.1].x.finite(),
        verts[t.2].x.finite(),
        size(verts[t.0].x.value()) <= 2real,
        size(verts[t.1].x.value()) <= 2real,
        size(verts[t.2].x.value()) <= 2real,
    ensures
        ({
            let s = verts[t.0].x.value() + verts[t.1].x.value() + verts[t.2].x.value();
            &&& s >= 1real / 1000000real ==> face_on_right(verts, t)
            &&& s <= -1real / 1000000real ==> !face_on_right(verts, t)
        }),
{
    lemma_constants();
    let (a, b, c) = (verts[t.0].x, verts[t.1].x, verts[t.2].x);
    lemma_value_add(a, b);
    lemma_value_add(a + b, c);
    lemma_value_le(F32::nought(), a + b + c);
}

/// A face's place in the spectrum is the mean of its corners'.
pub proof fn law_face_place_is_the_mean(at: Seq<F32>, f: Face)
    requires
        at[f.0 as int].finite() && at[f.1 as int].finite() && at[f.2 as int].finite(),
        size(at[f.0 as int].value()) <= 1real,
        size(at[f.1 as int].value()) <= 1real,
        size(at[f.2 as int].value()) <= 1real,
    ensures
        close(
            face_mean(at, f),
            (at[f.0 as int].value() + at[f.1 as int].value() + at[f.2 as int].value()) / 3real,
            1real / 1000000real,
        ),
{
    lemma_value_whole(3);
    let (a, b, c) = (at[f.0 as int], at[f.1 as int], at[f.2 as int]);
    lemma_value_add(a, b);
    lemma_value_add(a + b, c);
    lemma_value_div(a + b + c, F32::whole(3));
}

} // verus!
