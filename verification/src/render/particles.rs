//! Sparks that leave the tips of rising spokes.

use super::paint::{clamp_part, mix, mixed, part_of, Palette, Vertex};
use super::radial::{left_angle, left_angle_of, right_angle, right_angle_of, tip, tip_of, Turn};
use super::rng::{fraction, law_fraction_is_below_one, shuffled, Rng};
use crate::bands::NUM_BANDS;
use crate::dsp::{is_part, lemma_part_is_finite, SpectrumFrame};
use crate::float::laws::{
    lemma_add_between, lemma_binary_fraction, lemma_bounded_is_finite, lemma_bounded_is_finite_between,
    lemma_fraction, lemma_half, lemma_mul_between, lemma_neg, lemma_one, lemma_quotient_between,
    lemma_quotient_number, lemma_sub_between, lemma_whole, one_units,
};
use crate::float::F32;
use crate::stereo::lemma_product_of_parts;
use vstd::arithmetic::power2::lemma2_to64;
use vstd::prelude::*;

verus! {

/// The most particles at a time.
pub const CAP: usize = 2200;

/// A particle: where it is, how it moves, how long it still lives, and its place on
/// the gradient.
#[derive(Debug, Clone, Copy, PartialEq, Eq, Structural)]
pub struct Particle {
    pub x: F32,
    pub y: F32,
    pub vx: F32,
    pub vy: F32,
    pub life: F32,
    pub t: F32,
}

/// A particle about to leave: its sine and cosine are still to be taken.
#[derive(Debug, Clone, Copy, PartialEq, Eq, Structural)]
pub struct Emission {
    /// The angle at which it leaves.
    pub angle: F32,
    /// The radius at which it starts.
    pub radius: F32,
    pub speed: F32,
    /// Its place on the gradient.
    pub t: F32,
}

/// Emissions in the making: the state of the generator and what it has led to.
pub struct Sparks {
    pub rng: u32,
    pub list: Seq<Emission>,
}

/// A spoke: its angle, its value and its value in the previous frame.
pub struct Lane {
    pub angle: F32,
    pub h: F32,
    pub prev: F32,
}

impl Lane {
    /// How far the spoke has risen.
    pub open spec fn rise(self) -> F32 {
        self.h - self.prev
    }

    /// Whether the spoke rises: by more than 0.02.
    pub open spec fn rises(self) -> bool {
        F32::quotient(2, 100).lt(self.rise())
    }

    /// How many particles the spoke sends out: none unless it rises, then from one to
    /// three.
    pub open spec fn count(self) -> int {
        let n = (self.rise() * F32::whole(9)).index();
        if !self.rises() {
            0
        } else if n < 1 {
            1
        } else if n < 3 {
            n
        } else {
            3
        }
    }

    /// The speed that the rise gives.
    pub open spec fn speed(self) -> F32 {
        F32::quotient(5, 1000) + self.rise() * F32::quotient(6, 100)
    }
}

impl Sparks {
    /// One more particle from a spoke; three random numbers give its deviation from
    /// the spoke, its speed and its colour.
    pub open spec fn spark(self, lane: Lane) -> Sparks {
        let a = shuffled(self.rng);
        let b = shuffled(a);
        let c = shuffled(b);
        Sparks {
            rng: c,
            list: self.list.push(
                Emission {
                    angle: lane.angle + (fraction(a) - F32::half_unit()) * F32::quotient(6, 100),
                    radius: tip(lane.h),
                    speed: lane.speed() * (F32::quotient(7, 10) + fraction(b) * F32::quotient(6, 10)),
                    t: fraction(c),
                },
            ),
        }
    }

    /// `n` more particles from a spoke, as far as there is room for `room` in all.
    pub open spec fn burst(self, lane: Lane, n: int, room: int) -> Sparks
        decreases n,
    {
        if n <= 0 {
            self
        } else {
            let s = self.burst(lane, n - 1, room);
            if s.list.len() >= room {
                s
            } else {
                s.spark(lane)
            }
        }
    }
}

/// The two frames that emissions follow from.
pub struct Frames {
    pub left: Seq<F32>,
    pub right: Seq<F32>,
    pub prev_left: Seq<F32>,
    pub prev_right: Seq<F32>,
}

impl Frames {
    /// Spoke `k`: for each band first the right one, then the left.
    pub open spec fn lane(self, k: int) -> Lane {
        if k % 2 == 0 {
            Lane { angle: right_angle(k / 2), h: self.right[k / 2], prev: self.prev_right[k / 2] }
        } else {
            Lane { angle: left_angle(k / 2), h: self.left[k / 2], prev: self.prev_left[k / 2] }
        }
    }

    /// What the first `k` spokes send out.
    pub open spec fn emitted(self, rng: u32, room: int, k: int) -> Sparks
        decreases k,
    {
        if k <= 0 {
            Sparks { rng, list: Seq::empty() }
        } else {
            self.emitted(rng, room, k - 1).burst(self.lane(k - 1), self.lane(k - 1).count(), room)
        }
    }
}

fn emit_lane(list: &mut Vec<Emission>, rng: &mut Rng, angle: F32, h: F32, prev: F32, room: usize)
    ensures
        ({
            let lane = Lane { angle, h, prev };
            let s = Sparks { rng: old(rng).at(), list: old(list)@ }.burst(lane, lane.count(), room as int);
            &&& final(rng).at() == s.rng
            &&& final(list)@ == s.list
        }),
{
    let ghost lane = Lane { angle, h, prev };
    let ghost start = Sparks { rng: rng.at(), list: list@ };
    let delta = h - prev;
    if !F32::ratio(2, 100).less(delta) {
        return;
    }
    let asked: usize = (delta * F32::from_int(9)).to_index();
    let count: usize = if asked < 1 {
        1
    } else if asked < 3 {
        asked
    } else {
        3
    };
    let radius = tip_of(h);
    let base = F32::ratio(5, 1000) + delta * F32::ratio(6, 100);
    let mut k: usize = 0;
    while k < count
        invariant
            k <= count,
            lane == (Lane { angle, h, prev }),
            radius == tip(h),
            base == lane.speed(),
            rng.at() == start.burst(lane, k as int, room as int).rng,
            list@ == start.burst(lane, k as int, room as int).list,
        decreases count - k,
    {
        if list.len() < room {
            let jitter = (rng.rand() - F32::half()) * F32::ratio(6, 100);
            let speed = base * (F32::ratio(7, 10) + rng.rand() * F32::ratio(6, 10));
            let t = rng.rand();
            list.push(Emission { angle: angle + jitter, radius, speed, t });
        }
        k = k + 1;
    }
}

/// The particles that fly: their list, and the frame that they were last held to.
pub struct ParticleField {
    pub particles: Vec<Particle>,
    pub prev_left: SpectrumFrame,
    pub prev_right: SpectrumFrame,
}

/// How many particles can still be added.
pub open spec fn room(n: int) -> int {
    if n < CAP {
        CAP - n
    } else {
        0
    }
}

/// The particle that an emission becomes, with the sine and cosine of its angle.
pub open spec fn born(e: Emission, turn: Turn) -> Particle {
    Particle {
        x: turn.cos * e.radius,
        y: turn.sin * e.radius,
        vx: turn.cos * e.speed,
        vy: turn.sin * e.speed,
        life: F32::unit(),
        t: e.t,
    }
}

/// A particle one frame later.
pub open spec fn flown(p: Particle) -> Particle {
    Particle { x: p.x + p.vx, y: p.y + p.vy, life: p.life - F32::quotient(18, 1000), ..p }
}

/// Whether a particle lives on and is near enough to be seen.
pub open spec fn alive(p: Particle) -> bool {
    let edge = F32::quotient(16, 10);
    F32::nought().lt(p.life) && p.x.unsigned().lt(edge) && p.y.unsigned().lt(edge)
}

/// What is left of the first `n` particles one frame later.
pub open spec fn survivors(ps: Seq<Particle>, n: int) -> Seq<Particle>
    decreases n,
{
    if n <= 0 {
        Seq::empty()
    } else {
        let p = flown(ps[n - 1]);
        if alive(p) {
            survivors(ps, n - 1).push(p)
        } else {
            survivors(ps, n - 1)
        }
    }
}

/// The particles with the new ones.
pub open spec fn joined(ps: Seq<Particle>, list: Seq<Emission>, turns: Seq<Turn>) -> Seq<Particle> {
    ps + Seq::new(list.len(), |i: int| born(list[i], turns[i]))
}

impl ParticleField {
    /// No particles, and silence before.
    pub fn new() -> (r: ParticleField)
        ensures
            r.particles@.len() == 0,
            forall|i: int| 0 <= i < NUM_BANDS ==> #[trigger] r.prev_left@[i] == F32::nought(),
            forall|i: int| 0 <= i < NUM_BANDS ==> #[trigger] r.prev_right@[i] == F32::nought(),
    {
        let zero = F32::zero();
        ParticleField { particles: Vec::new(), prev_left: [zero; NUM_BANDS], prev_right: [zero; NUM_BANDS] }
    }

    /// The frames that the next emissions follow from.
    pub open spec fn frames(self, left: Seq<F32>, right: Seq<F32>) -> Frames {
        Frames { left, right, prev_left: self.prev_left@, prev_right: self.prev_right@ }
    }

    /// Every spoke that rises sends out particles from its tip, the faster the more it
    /// rises. Sines and cosines of their angles are still to be taken.
    pub fn emissions(&self, left: &SpectrumFrame, right: &SpectrumFrame, rng: &mut Rng) -> (list: Vec<Emission>)
        ensures
            ({
                let s = self.frames(left@, right@).emitted(
                    old(rng).at(),
                    room(self.particles@.len() as int),
                    2 * NUM_BANDS as int,
                );
                &&& list@ == s.list
                &&& final(rng).at() == s.rng
            }),
    {
        let ghost f = self.frames(left@, right@);
        let ghost seed = rng.at();
        let n: usize = self.particles.len();
        let room: usize = if n < CAP {
            CAP - n
        } else {
            0
        };
        let mut list: Vec<Emission> = Vec::new();
        assert(list@ =~= f.emitted(seed, room as int, 0).list);
        let mut i: usize = 0;
        while i < NUM_BANDS
            invariant
                i <= NUM_BANDS,
                f == self.frames(left@, right@),
                rng.at() == f.emitted(seed, room as int, 2 * i).rng,
                list@ == f.emitted(seed, room as int, 2 * i).list,
            decreases NUM_BANDS - i,
        {
            emit_lane(&mut list, rng, right_angle_of(i), right[i], self.prev_right[i], room);
            proof {
                let k = 2 * i as int;
                assert(k % 2 == 0 && k / 2 == i);
                assert(f.emitted(seed, room as int, k + 1) == f.emitted(seed, room as int, k).burst(
                    f.lane(k),
                    f.lane(k).count(),
                    room as int,
                ));
            }
            emit_lane(&mut list, rng, left_angle_of(i), left[i], self.prev_left[i], room);
            proof {
                let k = 2 * i + 1;
                assert(k % 2 == 1 && k / 2 == i);
                assert(f.emitted(seed, room as int, k + 1) == f.emitted(seed, room as int, k).burst(
                    f.lane(k),
                    f.lane(k).count(),
                    room as int,
                ));
            }
            i = i + 1;
        }
        list
    }

    /// Adds the new particles, moves all of them, drops those that are gone, and
    /// remembers the frame.
    pub fn update_particles(&mut self, left: &SpectrumFrame, right: &SpectrumFrame, list: &[Emission], turns: &[Turn])
        requires
            turns@.len() == list@.len(),
        ensures
            ({
                let all = joined(old(self).particles@, list@, turns@);
                final(self).particles@ == survivors(all, all.len() as int)
            }),
            final(self).prev_left == *left,
            final(self).prev_right == *right,
    {
        let ghost ps = self.particles@;
        let ghost all = joined(ps, list@, turns@);
        assert(self.particles@ =~= all.take(ps.len() as int));
        let mut i: usize = 0;
        while i < list.len()
            invariant
                i <= list@.len(),
                turns@.len() == list@.len(),
                ps == old(self).particles@,
                all == joined(ps, list@, turns@),
                self.particles@ == all.take(ps.len() + i),
            decreases list@.len() - i,
        {
            let e = list[i];
            let t = turns[i];
            self.particles.push(
                Particle {
                    x: t.cos * e.radius,
                    y: t.sin * e.radius,
                    vx: t.cos * e.speed,
                    vy: t.sin * e.speed,
                    life: F32::one(),
                    t: e.t,
                },
            );
            assert(self.particles@ =~= all.take(ps.len() + i + 1));
            i = i + 1;
        }
        assert(all.take(all.len() as int) =~= all);
        let edge = F32::ratio(16, 10);
        let loss = F32::ratio(18, 1000);
        let mut kept: Vec<Particle> = Vec::new();
        assert(kept@ =~= survivors(all, 0));
        let mut k: usize = 0;
        while k < self.particles.len()
            invariant
                k <= self.particles@.len(),
                self.particles@ == all,
                edge == F32::quotient(16, 10),
                loss == F32::quotient(18, 1000),
                kept@ == survivors(all, k as int),
            decreases self.particles@.len() - k,
        {
            let o = self.particles[k];
            let p = Particle { x: o.x + o.vx, y: o.y + o.vy, vx: o.vx, vy: o.vy, life: o.life - loss, t: o.t };
            if F32::zero().less(p.life) && p.x.abs().less(edge) && p.y.abs().less(edge) {
                kept.push(p);
            }
            k = k + 1;
        }
        self.particles = kept;
        self.prev_left = *left;
        self.prev_right = *right;
    }
}

/// The particles as points: they fade with their life.
pub open spec fn particle_points(ps: Seq<Particle>, p: Palette, inv_aspect: F32) -> Seq<Vertex> {
    Seq::new(
        ps.len(),
        |i: int|
            Vertex::at(
                ps[i].x * inv_aspect,
                ps[i].y,
                mixed(p.color_a, p.color_b, ps[i].t),
                part_of(ps[i].life),
            ),
    )
}

/// The vertices of the particles.
pub fn build_particle_vertices(particles: &[Particle], palette: &Palette, inv_aspect: F32) -> (v: Vec<Vertex>)
    ensures
        v@ == particle_points(particles@, *palette, inv_aspect),
{
    let ghost full = particle_points(particles@, *palette, inv_aspect);
    let mut v: Vec<Vertex> = Vec::new();
    let mut i: usize = 0;
    while i < particles.len()
        invariant
            i <= particles@.len(),
            full == particle_points(particles@, *palette, inv_aspect),
            v@.len() == i,
            forall|j: int| 0 <= j < i ==> #[trigger] v@[j] == full[j],
        decreases particles@.len() - i,
    {
        let p = particles[i];
        let c = mix(palette.color_a, palette.color_b, p.t);
        v.push(Vertex::new(p.x * inv_aspect, p.y, c, clamp_part(p.life)));
        i = i + 1;
    }
    assert(v@ =~= full);
    v
}

/// A burst stays within the room.
proof fn lemma_burst(s: Sparks, lane: Lane, n: int, room: int)
    requires
        s.list.len() <= room,
    ensures
        s.burst(lane, n, room).list.len() <= room,
    decreases n,
{
    if n > 0 {
        lemma_burst(s, lane, n - 1, room);
    }
}

/// Emissions stay within the room.
pub proof fn law_emissions_stay_within_room(f: Frames, rng: u32, room: int, k: int)
    requires
        room >= 0,
    ensures
        f.emitted(rng, room, k).list.len() <= room,
    decreases k,
{
    if k > 0 {
        law_emissions_stay_within_room(f, rng, room, k - 1);
        lemma_burst(f.emitted(rng, room, k - 1), f.lane(k - 1), f.lane(k - 1).count(), room);
    }
}

/// No more particles are left than there were.
proof fn lemma_survivors(ps: Seq<Particle>, n: int)
    requires
        0 <= n,
    ensures
        survivors(ps, n).len() <= n,
        forall|i: int| 0 <= i < survivors(ps, n).len() ==> alive(#[trigger] survivors(ps, n)[i]),
    decreases n,
{
    if n > 0 {
        lemma_survivors(ps, n - 1);
    }
}

/// There are never more particles than the cap, and all of them are alive.
pub proof fn law_particles_stay_capped(f: Frames, rng: u32, ps: Seq<Particle>, turns: Seq<Turn>)
    requires
        ps.len() <= CAP,
    ensures
        ({
            let list = f.emitted(rng, room(ps.len() as int), 2 * NUM_BANDS as int).list;
            let all = joined(ps, list, turns);
            let left = survivors(all, all.len() as int);
            &&& left.len() <= CAP
            &&& forall|i: int| 0 <= i < left.len() ==> alive(#[trigger] left[i])
        }),
{
    let list = f.emitted(rng, room(ps.len() as int), 2 * NUM_BANDS as int).list;
    law_emissions_stay_within_room(f, rng, room(ps.len() as int), 2 * NUM_BANDS as int);
    let all = joined(ps, list, turns);
    lemma_survivors(all, all.len() as int);
}

/// Spokes that do not rise send out nothing, and leave the generator alone.
pub proof fn law_still_spokes_emit_nothing(f: Frames, rng: u32, room: int, k: int)
    requires
        forall|j: int| 0 <= j < k ==> (#[trigger] f.lane(j)).rise().le(F32::quotient(2, 100)),
    ensures
        f.emitted(rng, room, k).list.len() == 0,
        f.emitted(rng, room, k).rng == rng,
    decreases k,
{
    if k > 0 {
        law_still_spokes_emit_nothing(f, rng, room, k - 1);
        assert(f.lane(k - 1).rise().le(F32::quotient(2, 100)));
    }
}

/// A burst keeps what was there, and what it adds starts at the tip of its spoke and
/// moves outwards.
proof fn lemma_burst_adds(s: Sparks, lane: Lane, n: int, room: int)
    requires
        n >= 0,
        lane.rises(),
        is_part(lane.h),
        is_part(lane.prev),
    ensures
        s.list.len() <= s.burst(lane, n, room).list.len() <= s.list.len() + n,
        n >= 1 && s.list.len() < room ==> s.list.len() < s.burst(lane, n, room).list.len(),
        s.burst(lane, n, room).list.take(s.list.len() as int) == s.list,
        forall|i: int|
            s.list.len() <= i < s.burst(lane, n, room).list.len() ==> leaves_tip(
                #[trigger] s.burst(lane, n, room).list[i],
                lane,
            ),
    decreases n,
{
    if n > 0 {
        lemma_burst_adds(s, lane, n - 1, room);
        let before = s.burst(lane, n - 1, room);
        let after = s.burst(lane, n, room);
        if before.list.len() < room {
            lemma_speed(lane, fraction(shuffled(shuffled(before.rng))), shuffled(before.rng));
            assert(after.list.take(s.list.len() as int) =~= before.list.take(s.list.len() as int));
        }
    } else {
        assert(s.list.take(s.list.len() as int) =~= s.list);
    }
}

/// An emission from the tip of a spoke, outwards.
pub open spec fn leaves_tip(e: Emission, lane: Lane) -> bool {
    e.radius == tip(lane.h) && F32::nought().lt(e.speed)
}

/// What leaves a rising spoke moves.
proof fn lemma_speed(lane: Lane, x: F32, seed: u32)
    requires
        lane.rises(),
        is_part(lane.h),
        is_part(lane.prev),
        x == fraction(shuffled(seed)),
    ensures
        F32::nought().lt(lane.speed() * (F32::quotient(7, 10) + x * F32::quotient(6, 10))),
{
    lemma_one();
    lemma2_to64();
    lemma_whole(2);
    lemma_whole(4);
    let w = one_units();
    lemma_part_is_finite(lane.h);
    lemma_part_is_finite(lane.prev);
    lemma_neg(F32::unit());
    lemma_sub_between(lane.h, lane.prev, -F32::unit(), F32::unit());
    let rise = lane.rise();
    lemma_fraction(2, 100);
    lemma_bounded_is_finite(rise, F32::unit());
    lemma_fraction(6, 100);
    lemma_fraction(6, 10);
    lemma_product_of_parts(rise, F32::quotient(6, 100));
    let p = rise * F32::quotient(6, 100);
    lemma_part_is_finite(p);
    lemma_binary_fraction(1, 8);
    let low = F32::quotient(1, 256);
    assert(low.units() * 1000 <= 5 * w) by (nonlinear_arith)
        requires 256 * low.units() == 1 * w, w > 0;
    lemma_fraction(5, 1000);
    lemma_quotient_between(5, 1000, low, F32::unit());
    lemma_add_between(F32::quotient(5, 1000), p, low, F32::whole(2));
    let base = lane.speed();
    lemma_bounded_is_finite_between(base, low, F32::whole(2));
    law_fraction_is_below_one(shuffled(seed));
    lemma_product_of_parts(x, F32::quotient(6, 10));
    let q = x * F32::quotient(6, 10);
    lemma_part_is_finite(q);
    lemma_half();
    lemma_fraction(7, 10);
    lemma_quotient_between(7, 10, F32::half_unit(), F32::unit());
    lemma_add_between(F32::quotient(7, 10), q, F32::half_unit(), F32::whole(2));
    let factor = F32::quotient(7, 10) + q;
    lemma_bounded_is_finite_between(factor, F32::half_unit(), F32::whole(2));
    lemma_binary_fraction(1, 9);
    let least = F32::quotient(1, 512);
    let a = base.units();
    let b = factor.units();
    let l = least.units();
    assert(l * w <= a * b <= (4 * w) * w) by (nonlinear_arith)
        requires 512 * l == 1 * w, 256 * a >= w, 2 * b >= w, a <= 2 * w, b <= 2 * w, w > 0;
    lemma_mul_between(base, factor, least, F32::whole(4));
}

/// Every spoke that rises sends out one to three particles while there is room for
/// them, from its tip and outwards.
pub proof fn law_rising_spokes_emit(f: Frames, rng: u32, room: int, k: int)
    requires
        k >= 0,
        f.lane(k).rises(),
        is_part(f.lane(k).h),
        is_part(f.lane(k).prev),
        f.emitted(rng, room, k).list.len() < room,
    ensures
        ({
            let before = f.emitted(rng, room, k).list;
            let after = f.emitted(rng, room, k + 1).list;
            &&& before.len() < after.len() <= before.len() + 3
            &&& after.take(before.len() as int) == before
            &&& forall|i: int| before.len() <= i < after.len() ==> leaves_tip(#[trigger] after[i], f.lane(k))
        }),
{
    lemma_burst_adds(f.emitted(rng, room, k), f.lane(k), f.lane(k).count(), room);
}

/// As long as there is room for any, a frame in which some spoke rises sends out
/// something.
pub proof fn law_any_rise_emits(f: Frames, rng: u32, room: int, k: int, n: int)
    requires
        0 <= k < n,
        f.lane(k).rises(),
        is_part(f.lane(k).h),
        is_part(f.lane(k).prev),
        room > 0,
    ensures
        f.emitted(rng, room, n).list.len() > 0,
    decreases n,
{
    if n == k + 1 {
        if f.emitted(rng, room, k).list.len() < room {
            law_rising_spokes_emit(f, rng, room, k);
        } else {
            lemma_burst_adds(f.emitted(rng, room, k), f.lane(k), f.lane(k).count(), room);
        }
    } else {
        law_any_rise_emits(f, rng, room, k, n - 1);
        lemma_burst_keeps(f.emitted(rng, room, n - 1), f.lane(n - 1), f.lane(n - 1).count(), room);
    }
}

/// A burst takes nothing away.
proof fn lemma_burst_keeps(s: Sparks, lane: Lane, n: int, room: int)
    ensures
        s.list.len() <= s.burst(lane, n, room).list.len(),
    decreases n,
{
    if n > 0 {
        lemma_burst_keeps(s, lane, n - 1, room);
    }
}

/// A particle loses at least a sixty-fourth of a full life per frame: one that has at
/// most `k` of them left has at most `k - 1` a frame later, and with the last it dies.
pub proof fn law_particles_die(p: Particle, k: int)
    requires
        1 <= k <= 64,
        p.life.finite(),
        64 * p.life.units() <= k * one_units(),
        p.life.units() >= 0,
    ensures
        64 * flown(p).life.units() <= (k - 1) * one_units(),
        !flown(p).life.nan(),
        k == 1 ==> !alive(flown(p)),
{
    lemma_one();
    let w = one_units();
    let loss = F32::quotient(18, 1000);
    lemma_quotient_number(18, 1000);
    let step = F32::quotient(1, 64);
    lemma2_to64();
    lemma_binary_fraction(1, 6);
    lemma_binary_fraction(k - 1, 6);
    lemma_quotient_between(18, 1000, step, F32::unit());
    let high = F32::quotient(k - 1, 64);
    let low = F32::unit().spec_neg();
    lemma_neg(F32::unit());
    assert(64 * high.units() == (k - 1) * w);
    assert(p.life.units() - loss.units() <= high.units()) by (nonlinear_arith)
        requires
            64 * p.life.units() <= k * w,
            64 * step.units() == 1 * w,
            loss.units() >= step.units(),
            64 * high.units() == (k - 1) * w,
    ;
    lemma_sub_between(p.life, loss, low, high);
    if k == 1 {
        assert(0 * w == 0);
        assert(flown(p).life.units() <= 0);
    }
}

} // verus!
