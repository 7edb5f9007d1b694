//! Particles: how many a rising spoke throws, from where, how fast, and how they fly.

use crate::dsp::is_part;
use crate::exact::paint::{is_color, law_mixture_is_weighted};
use crate::exact::shapes::{is_turn, law_tip_is_the_level};
use crate::float::value::{
    close, lemma_close_add, lemma_close_mul, lemma_close_sub, lemma_constants, lemma_value_add, lemma_value_index,
    lemma_value_le, lemma_value_part, lemma_value_quotient, lemma_value_sub, lemma_value_unsigned, lemma_value_whole,
    size,
};
use crate::float::F32;
use crate::render::paint::Palette;
use crate::render::particles::{
    alive, born, flown, particle_points, survivors, Emission, Frames, Lane, Particle, Sparks,
};
use crate::render::radial::{left_angle, right_angle, tip, Turn};
use crate::render::rng::{fraction, shuffled};
use vstd::prelude::*;

verus! {

/// What a spoke has risen by since the last frame.
pub proof fn law_rise_is_the_difference(lane: Lane)
    requires
        is_part(lane.h),
        is_part(lane.prev),
    ensures
        close(lane.rise(), lane.h.value() - lane.prev.value(), 1real / 10000000real),
        lane.rises() ==> lane.h.value() - lane.prev.value() > 2real / 100real - 1real / 1000000real,
        lane.h.value() - lane.prev.value() > 2real / 100real + 1real / 1000000real ==> lane.rises(),
{
    lemma_value_part(lane.h);
    lemma_value_part(lane.prev);
    lemma_value_sub(lane.h, lane.prev);
    lemma_value_quotient(2, 100);
    lemma_value_le(F32::quotient(2, 100), lane.rise());
}

/// A rising spoke throws from one to three particles: as many as nine times its rise, none
/// if it does not rise by two hundredths.
pub proof fn law_rise_throws_particles(lane: Lane)
    requires
        is_part(lane.h),
        is_part(lane.prev),
    ensures
        !lane.rises() ==> lane.count() == 0,
        lane.rises() ==> 1 <= lane.count() <= 3,
        lane.rises() && lane.count() >= 2 ==> 9real * (lane.h.value() - lane.prev.value()) >= lane.count() as real
            - 1real / 100000real,
        lane.rises() && lane.count() <= 2 ==> 9real * (lane.h.value() - lane.prev.value()) < lane.count() as real
            + 1real + 1real / 100000real,
{
    law_rise_is_the_difference(lane);
    lemma_value_part(lane.h);
    lemma_value_part(lane.prev);
    lemma_value_whole(9);
    let d = lane.h.value() - lane.prev.value();
    lemma_close_mul(lane.rise(), F32::whole(9), d, 9real, 1real / 10000000real, 0real, 1real, 9real);
    let x = lane.rise() * F32::whole(9);
    if lane.rises() {
        lemma_value_index(x);
    }
}

/// Particles leave at 5 thousandths a frame, and 6 hundredths of the rise more.
pub proof fn law_higher_rise_is_faster(lane: Lane)
    requires
        is_part(lane.h),
        is_part(lane.prev),
    ensures
        close(
            lane.speed(),
            5real / 1000real + (lane.h.value() - lane.prev.value()) * (6real / 100real),
            1real / 1000000real,
        ),
{
    law_rise_is_the_difference(lane);
    lemma_value_part(lane.h);
    lemma_value_part(lane.prev);
    lemma_value_quotient(5, 1000);
    lemma_value_quotient(6, 100);
    let d = lane.h.value() - lane.prev.value();
    let e = 1real / 10000000real;
    lemma_close_mul(lane.rise(), F32::quotient(6, 100), d, 6real / 100real, e, e, 1real, 6real / 100real);
    lemma_close_add(
        F32::quotient(5, 1000),
        lane.rise() * F32::quotient(6, 100),
        5real / 1000real,
        d * (6real / 100real),
        e,
        2real * e,
    );
}

/// A spark leaves the tip of its spoke, three hundredths of its angle to either side, at
/// 70 to 130 hundredths of the spoke's speed, each by chance.
pub proof fn law_spark_leaves_its_spoke(s: Sparks, lane: Lane)
    requires
        is_part(lane.h),
        is_part(lane.prev),
        lane.angle.finite(),
        size(lane.angle.value()) <= 10real,
        is_part(fraction(shuffled(s.rng))),
        is_part(fraction(shuffled(shuffled(s.rng)))),
    ensures
        s.spark(lane).list.len() == s.list.len() + 1,
        forall|i: int| 0 <= i < s.list.len() ==> #[trigger] s.spark(lane).list[i] == s.list[i],
        s.spark(lane).rng == shuffled(shuffled(shuffled(s.rng))),
        ({
            let e = s.spark(lane).list[s.list.len() as int];
            let a = fraction(shuffled(s.rng)).value();
            let b = fraction(shuffled(shuffled(s.rng))).value();
            let speed = 5real / 1000real + (lane.h.value() - lane.prev.value()) * (6real / 100real);
            &&& close(e.angle, lane.angle.value() + (a - 1real / 2real) * (6real / 100real), 1real / 500000real)
            &&& close(e.radius, 28real / 100real + lane.h.value() * (62real / 100real), 1real / 1000000real)
            &&& close(e.speed, speed * (7real / 10real + b * (6real / 10real)), 1real / 200000real)
            &&& e.t == fraction(shuffled(shuffled(shuffled(s.rng))))
        }),
{
    lemma_constants();
    let f = fraction(shuffled(s.rng));
    let g = fraction(shuffled(shuffled(s.rng)));
    lemma_value_part(f);
    lemma_value_part(g);
    lemma_value_part(lane.h);
    lemma_value_part(lane.prev);
    let a = f.value();
    let b = g.value();
    lemma_value_quotient(6, 100);
    lemma_value_quotient(7, 10);
    lemma_value_quotient(6, 10);
    let e = 1real / 10000000real;
    lemma_close_sub(f, F32::half_unit(), a, 1real / 2real, 0real, 0real);
    let x = f - F32::half_unit();
    lemma_close_mul(x, F32::quotient(6, 100), a - 1real / 2real, 6real / 100real, e, e, 1real, 6real / 100real);
    let y = x * F32::quotient(6, 100);
    let v = (a - 1real / 2real) * (6real / 100real);
    lemma_close_add(lane.angle, y, lane.angle.value(), v, 0real, 2real * e);
    law_tip_is_the_level(lane.h);
    law_higher_rise_is_faster(lane);
    lemma_close_mul(g, F32::quotient(6, 10), b, 6real / 10real, 0real, e, 1real, 6real / 10real);
    let z = g * F32::quotient(6, 10);
    lemma_close_add(F32::quotient(7, 10), z, 7real / 10real, b * (6real / 10real), e, 2real * e);
    let speed = 5real / 1000real + (lane.h.value() - lane.prev.value()) * (6real / 100real);
    lemma_close_mul(
        lane.speed(),
        F32::quotient(7, 10) + z,
        speed,
        7real / 10real + b * (6real / 10real),
        1real / 1000000real,
        1real / 1000000real,
        1real / 10real,
        13real / 10real,
    );
    assert(s.spark(lane).list[s.list.len() as int].radius == tip(lane.h));
}

/// The lanes alternate between the channels: band by band, right and then left, each at
/// the angle of its spoke.
pub proof fn law_lanes_alternate(f: Frames, k: int)
    requires
        0 <= k < 128,
        f.left.len() == 64,
        f.right.len() == 64,
        f.prev_left.len() == 64,
        f.prev_right.len() == 64,
    ensures
        k % 2 == 0 ==> f.lane(k).h == f.right[k / 2] && f.lane(k).prev == f.prev_right[k / 2] && f.lane(k).angle
            == right_angle(k / 2),
        k % 2 == 1 ==> f.lane(k).h == f.left[k / 2] && f.lane(k).prev == f.prev_left[k / 2] && f.lane(k).angle
            == left_angle(k / 2),
{
}

/// A particle starts at its radius in its direction, flies straight outwards, and is fully
/// alive.
pub proof fn law_particle_flies_outwards(e: Emission, turn: Turn)
    requires
        is_turn(turn),
        e.radius.finite(),
        e.speed.finite(),
        size(e.radius.value()) <= 2real,
        size(e.speed.value()) <= 2real,
    ensures
        close(born(e, turn).x, turn.cos.value() * e.radius.value(), 1real / 1000000real),
        close(born(e, turn).y, turn.sin.value() * e.radius.value(), 1real / 1000000real),
        close(born(e, turn).vx, turn.cos.value() * e.speed.value(), 1real / 1000000real),
        close(born(e, turn).vy, turn.sin.value() * e.speed.value(), 1real / 1000000real),
        born(e, turn).life.value() == 1real,
        born(e, turn).t == e.t,
{
    lemma_constants();
    let (c, s) = (turn.cos.value(), turn.sin.value());
    lemma_close_mul(turn.cos, e.radius, c, e.radius.value(), 0real, 0real, 1real, 2real);
    lemma_close_mul(turn.sin, e.radius, s, e.radius.value(), 0real, 0real, 1real, 2real);
    lemma_close_mul(turn.cos, e.speed, c, e.speed.value(), 0real, 0real, 1real, 2real);
    lemma_close_mul(turn.sin, e.speed, s, e.speed.value(), 0real, 0real, 1real, 2real);
}

/// In a frame a particle moves by its velocity, which it keeps, and loses 18 thousandths
/// of its life.
pub proof fn law_particle_moves_by_its_velocity(p: Particle)
    requires
        p.x.finite(),
        p.y.finite(),
        p.vx.finite(),
        p.vy.finite(),
        is_part(p.life),
        size(p.x.value()) <= 4real,
        size(p.y.value()) <= 4real,
        size(p.vx.value()) <= 4real,
        size(p.vy.value()) <= 4real,
    ensures
        close(flown(p).x, p.x.value() + p.vx.value(), 1real / 1000000real),
        close(flown(p).y, p.y.value() + p.vy.value(), 1real / 1000000real),
        flown(p).vx == p.vx,
        flown(p).vy == p.vy,
        flown(p).t == p.t,
        close(flown(p).life, p.life.value() - 18real / 1000real, 1real / 1000000real),
        alive(flown(p)) ==> p.life.value() > 18real / 1000real - 1real / 1000000real,
        p.life.value() > 18real / 1000real + 1real / 1000000real && size(p.x.value() + p.vx.value()) < 16real / 10real
            - 1real / 100000real && size(p.y.value() + p.vy.value()) < 16real / 10real - 1real / 100000real ==> alive(
            flown(p),
        ),
        alive(flown(p)) ==> size(p.x.value() + p.vx.value()) < 16real / 10real + 1real / 100000real && size(
            p.y.value() + p.vy.value(),
        ) < 16real / 10real + 1real / 100000real,
{
    lemma_constants();
    lemma_value_part(p.life);
    lemma_value_add(p.x, p.vx);
    lemma_value_add(p.y, p.vy);
    lemma_value_quotient(18, 1000);
    lemma_value_quotient(16, 10);
    lemma_close_sub(p.life, F32::quotient(18, 1000), p.life.value(), 18real / 1000real, 0real, 1real / 100000000real);
    let f = flown(p);
    lemma_value_le(F32::nought(), f.life);
    lemma_value_unsigned(f.x);
    lemma_value_unsigned(f.y);
    lemma_value_le(f.x.unsigned(), F32::quotient(16, 10));
    lemma_value_le(f.y.unsigned(), F32::quotient(16, 10));
}

/// The particles of the next frame are those of the last that are still alive, each moved,
/// in their order.
pub proof fn law_particles_fly_until_they_die(ps: Seq<Particle>, n: int)
    requires
        0 <= n <= ps.len(),
    ensures
        forall|k: int| 0 <= k < survivors(ps, n).len() ==> exists|i: int|
            0 <= i < n && #[trigger] survivors(ps, n)[k] == flown(#[trigger] ps[i]),
        forall|k: int| 0 <= k < survivors(ps, n).len() ==> alive(#[trigger] survivors(ps, n)[k]),
        forall|i: int| 0 <= i < n && alive(flown(#[trigger] ps[i])) ==> survivors(ps, n).contains(flown(ps[i])),
        survivors(ps, n).len() <= n,
    decreases n,
{
    if n > 0 {
        law_particles_fly_until_they_die(ps, n - 1);
        let before = survivors(ps, n - 1);
        let now = survivors(ps, n);
        let p = flown(ps[n - 1]);
        assert forall|k: int| 0 <= k < now.len() implies exists|i: int|
            0 <= i < n && #[trigger] now[k] == flown(#[trigger] ps[i]) by {
            if k < before.len() {
                assert(now[k] == before[k]);
                let i = choose|i: int| 0 <= i < n - 1 && before[k] == flown(#[trigger] ps[i]);
                assert(now[k] == flown(ps[i]));
            } else {
                assert(now[k] == flown(ps[n - 1]));
            }
        }
        assert forall|k: int| 0 <= k < now.len() implies alive(#[trigger] now[k]) by {
            if k < before.len() {
                assert(now[k] == before[k]);
            }
        }
        assert forall|i: int| 0 <= i < n && alive(flown(#[trigger] ps[i])) implies now.contains(flown(ps[i])) by {
            if i < n - 1 {
                assert(before.contains(flown(ps[i])));
                let k = choose|k: int| 0 <= k < before.len() && before[k] == flown(ps[i]);
                assert(now[k] == flown(ps[i]));
            } else {
                assert(now[now.len() - 1] == p);
            }
        }
    }
}

/// A particle is drawn where it is, narrowed to the screen, as opaque as it is alive, in a
/// mixture of both colours of its own.
pub proof fn law_particles_are_drawn_where_they_are(ps: Seq<Particle>, p: Palette, inv_aspect: F32, i: int)
    requires
        0 <= i < ps.len(),
        ps[i].x.finite(),
        size(ps[i].x.value()) <= 2real,
        inv_aspect.finite(),
        0real <= inv_aspect.value() <= 10real,
        is_part(ps[i].life),
        is_part(ps[i].t),
        is_color(p.color_a),
        is_color(p.color_b),
    ensures
        particle_points(ps, p, inv_aspect).len() == ps.len(),
        ({
            let v = particle_points(ps, p, inv_aspect)[i];
            let t = ps[i].t.value();
            let e = 1real / 500000real;
            &&& close(v.x, ps[i].x.value() * inv_aspect.value(), 1real / 200000real)
            &&& v.y == ps[i].y
            &&& v.a.value() == ps[i].life.value()
            &&& close(v.r, p.color_a.r.value() + (p.color_b.r.value() - p.color_a.r.value()) * t, e)
            &&& close(v.g, p.color_a.g.value() + (p.color_b.g.value() - p.color_a.g.value()) * t, e)
            &&& close(v.b, p.color_a.b.value() + (p.color_b.b.value() - p.color_a.b.value()) * t, e)
        }),
{
    lemma_value_part(ps[i].life);
    lemma_close_mul(ps[i].x, inv_aspect, ps[i].x.value(), inv_aspect.value(), 0real, 0real, 2real, 10real);
    law_mixture_is_weighted(p.color_a, p.color_b, ps[i].t);
}

} // verus!
