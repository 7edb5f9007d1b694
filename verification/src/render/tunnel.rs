//! The tunnel: rings that keep the shape of the spectrum at their birth and rush
//! towards the viewer, among stars. Sines and cosines are the caller's.

use super::curve::{curve, smooth_curve_subdiv, Point};
use super::drift::is_drive;
use super::levels::Drive;
use super::paint::{clamp_part, mix, mixed, part_of, scale, scaled, Palette, Vertex};
use super::radial::{left_angle, left_angle_of, right_angle, right_angle_of, Turn};
use super::ribbon::{push_glow_ribbon, with_ribbon};
use super::rng::{fraction, shuffled, Rng};
use crate::config::Rgb;
use crate::dsp::{is_part, lemma_part_is_finite, SpectrumFrame};
use crate::exact::tunnel::law_tint_is_the_beat;
use crate::float::laws::{
    lemma_add_between, lemma_add_order, lemma_binary_fraction, lemma_bounded_is_finite_between, lemma_div_sign,
    lemma_fraction, lemma_index_order, lemma_mul_between, lemma_mul_order, lemma_one, lemma_quotient_between,
    lemma_quotient_number, lemma_sub_sign, lemma_times_zero, lemma_whole, lemma_zero_mag, one_units,
};

use crate::float::size::{lemma_add_fits, lemma_fits_more, lemma_mul_fits, lemma_whole_fits};
use crate::float::value::{clip, close};
use crate::float::F32;
use crate::stereo::{lemma_product_of_parts, tau};

use vstd::arithmetic::power2::lemma2_to64;
use vstd::prelude::*;

verus! {

/// The most rings at a time.
pub const MAX_RINGS: usize = 26;

/// The most stars at a time.
pub const MAX_STARS: usize = 700;

/// Every how many bands one enters the shape of a ring.
pub const RING_STEP: usize = 2;

/// The points of a ring before it is smoothed.
pub const RING_POINTS: usize = 64;

/// Pieces per segment of a ring.
pub const RING_SUBDIV: usize = 4;

/// The scale of a new ring.
pub open spec fn ring_birth() -> F32 {
    F32::quotient(5, 100)
}

/// The scale from which on a ring is off the screen.
pub open spec fn ring_death() -> F32 {
    F32::quotient(185, 100)
}

/// A ring: its shape around radius one, its scale, how far it has turned, and its
/// place on the gradient.
pub struct Ring {
    pub shape: Vec<Point>,
    pub scale: F32,
    pub angle: F32,
    pub tint: F32,
}

/// What a ring is.
pub struct RingView {
    pub shape: Seq<Point>,
    pub scale: F32,
    pub angle: F32,
    pub tint: F32,
}

impl View for Ring {
    type V = RingView;

    open spec fn view(&self) -> RingView {
        RingView { shape: self.shape@, scale: self.scale, angle: self.angle, tint: self.tint }
    }
}

/// The rings of a list.
pub open spec fn views(rings: Seq<Ring>) -> Seq<RingView> {
    Seq::new(rings.len(), |i: int| rings[i]@)
}

/// A star: its position and its place on the gradient.
#[derive(Debug, Clone, Copy, PartialEq, Eq, Structural)]
pub struct Star {
    pub x: F32,
    pub y: F32,
    pub t: F32,
}

/// A star about to appear: sine and cosine of its angle are still to be taken.
#[derive(Debug, Clone, Copy, PartialEq, Eq, Structural)]
pub struct StarSeed {
    pub angle: F32,
    pub radius: F32,
    pub t: F32,
}

/// By how much a ring grows in a frame.
pub open spec fn growth(d: Drive) -> F32 {
    F32::unit() + F32::quotient(6, 1000) + (F32::quotient(15, 1000) + d.bass * F32::quotient(30, 1000) + d.punch
        * F32::quotient(15, 100)) * d.gate
}

/// By how much a ring turns in a frame.
pub open spec fn spin(d: Drive) -> F32 {
    (F32::quotient(5, 1000) + d.bass * F32::quotient(16, 1000) + d.punch * F32::quotient(6, 100)) * d.gate
}

/// By how much the next ring comes nearer in a frame.
pub open spec fn emission(d: Drive) -> F32 {
    (F32::quotient(75, 1000) + d.bass * F32::quotient(10, 100) + d.punch * F32::quotient(35, 100)) * d.gate
}

/// By how much the stars spread in a frame.
pub open spec fn star_growth(d: Drive) -> F32 {
    F32::unit() + F32::quotient(4, 1000) + (F32::quotient(26, 1000) + d.bass * F32::quotient(55, 1000) + d.punch
        * F32::quotient(10, 100)) * d.gate
}

/// How many stars appear in a frame.
pub open spec fn star_count(d: Drive) -> int {
    ((F32::whole(2) + d.bass * F32::whole(6) + d.punch * F32::whole(4)) * d.gate).index()
}

/// A ring one frame later.
pub open spec fn grown(r: RingView, d: Drive) -> RingView {
    RingView { scale: r.scale * growth(d), angle: r.angle + spin(d), ..r }
}

/// The rings among the first `n` that are still on the screen one frame later.
pub open spec fn rings_left(rings: Seq<RingView>, d: Drive, n: int) -> Seq<RingView>
    decreases n,
{
    if n <= 0 {
        Seq::empty()
    } else {
        let r = grown(rings[n - 1], d);
        if r.scale.lt(ring_death()) {
            rings_left(rings, d, n - 1).push(r)
        } else {
            rings_left(rings, d, n - 1)
        }
    }
}

/// The angles of the points of a ring: down the right side, and up the left.
pub open spec fn ring_angle(j: int) -> F32 {
    if j < 32 {
        right_angle(2 * j)
    } else {
        left_angle(2 * (63 - j))
    }
}

/// The angles at which the shape of a ring needs sines and cosines.
pub fn ring_angles() -> (r: Vec<F32>)
    ensures
        r@ == Seq::new(64, |j: int| ring_angle(j)),
{
    let mut r: Vec<F32> = Vec::new();
    let mut j: usize = 0;
    while j < RING_POINTS
        invariant
            j <= RING_POINTS,
            r@.len() == j,
            forall|k: int| 0 <= k < j ==> #[trigger] r@[k] == ring_angle(k),
        decreases RING_POINTS - j,
    {
        if j < 32 {
            r.push(right_angle_of(2 * j));
        } else {
            r.push(left_angle_of(2 * (63 - j)));
        }
        j = j + 1;
    }
    assert(r@ =~= Seq::new(64, |j: int| ring_angle(j)));
    r
}

/// The value at point `j` of a ring.
pub open spec fn ring_value(left: Seq<F32>, right: Seq<F32>, j: int) -> F32 {
    if j < 32 {
        right[2 * j]
    } else {
        left[2 * (63 - j)]
    }
}

/// Point `j` of a ring: the circle, pushed out by the spectrum.
pub open spec fn ring_point(left: Seq<F32>, right: Seq<F32>, turns: Seq<Turn>, j: int) -> Point {
    let r = F32::quotient(72, 100) + part_of(ring_value(left, right, j)) * F32::quotient(55, 100);
    (turns[j].cos * r, turns[j].sin * r)
}

/// The shape of a ring.
pub open spec fn ring_shape(left: Seq<F32>, right: Seq<F32>, turns: Seq<Turn>) -> Seq<Point> {
    curve(Seq::new(64, |j: int| ring_point(left, right, turns, j)), true, RING_SUBDIV as int)
}

/// The shape of a new ring: a smooth circle, pushed out by the spectrum.
pub fn build_ring_shape(left: &SpectrumFrame, right: &SpectrumFrame, turns: &[Turn]) -> (shape: Vec<Point>)
    requires
        turns@.len() == RING_POINTS,
    ensures
        shape@ == ring_shape(left@, right@, turns@),
{
    let mut raw: Vec<Point> = Vec::new();
    let mut j: usize = 0;
    while j < RING_POINTS
        invariant
            j <= RING_POINTS,
            turns@.len() == RING_POINTS,
            raw@.len() == j,
            forall|k: int| 0 <= k < j ==> #[trigger] raw@[k] == ring_point(left@, right@, turns@, k),
        decreases RING_POINTS - j,
    {
        let h = if j < 32 {
            right[2 * j]
        } else {
            left[2 * (63 - j)]
        };
        let r = F32::ratio(72, 100) + clamp_part(h) * F32::ratio(55, 100);
        raw.push((turns[j].cos * r, turns[j].sin * r));
        j = j + 1;
    }
    assert(raw@ =~= Seq::new(64, |j: int| ring_point(left@, right@, turns@, j)));
    smooth_curve_subdiv(raw.as_slice(), true, RING_SUBDIV)
}

/// The place on the gradient of a ring born in a frame.
pub open spec fn ring_tint(d: Drive) -> F32 {
    part_of(d.bass + d.punch * F32::half_unit())
}

/// A ring born in a frame.
pub open spec fn newborn(d: Drive, shape: Seq<Point>) -> RingView {
    RingView { shape, scale: ring_birth(), angle: F32::nought(), tint: ring_tint(d) }
}

/// Whether a ring is due in a frame: the accumulator is full and the silence gate is
/// not shut.
pub open spec fn ring_due(emit: F32, d: Drive) -> bool {
    F32::unit().le(emit + emission(d)) && F32::nought().lt(d.gate)
}

/// A star one frame later.
pub open spec fn spread(s: Star, d: Drive) -> Star {
    Star { x: s.x * star_growth(d), y: s.y * star_growth(d), t: s.t }
}

/// Whether a star is near enough to be seen.
pub open spec fn star_near(s: Star) -> bool {
    s.x.unsigned().lt(F32::quotient(17, 10)) && s.y.unsigned().lt(F32::quotient(17, 10))
}

/// The stars among the first `n` that are still near one frame later.
pub open spec fn stars_left(stars: Seq<Star>, d: Drive, n: int) -> Seq<Star>
    decreases n,
{
    if n <= 0 {
        Seq::empty()
    } else {
        let s = spread(stars[n - 1], d);
        if star_near(s) {
            stars_left(stars, d, n - 1).push(s)
        } else {
            stars_left(stars, d, n - 1)
        }
    }
}

/// Stars in the making: the state of the generator and what it has led to.
pub struct Seeds {
    pub rng: u32,
    pub list: Seq<StarSeed>,
}

/// `n` new stars, as far as there is room for them.
pub open spec fn seeded(rng: u32, n: int, room: int) -> Seeds
    decreases n,
{
    if n <= 0 {
        Seeds { rng, list: Seq::empty() }
    } else {
        let s = seeded(rng, n - 1, room);
        if s.list.len() >= room {
            s
        } else {
            let a = shuffled(s.rng);
            let b = shuffled(a);
            let c = shuffled(b);
            Seeds {
                rng: c,
                list: s.list.push(
                    StarSeed {
                        angle: fraction(a) * tau(),
                        radius: F32::quotient(4, 100) + fraction(b) * F32::quotient(5, 100),
                        t: fraction(c),
                    },
                ),
            }
        }
    }
}

/// Once the room is full, no more stars are made.
proof fn lemma_seeded_full(rng: u32, k: int, n: int, room: int)
    requires
        0 <= k <= n,
        k == n || seeded(rng, k, room).list.len() >= room,
    ensures
        seeded(rng, n, room) == seeded(rng, k, room),
    decreases n,
{
    if k < n {
        lemma_seeded_full(rng, k, n - 1, room);
    }
}

/// How many stars can still be added.
pub open spec fn star_room(n: int) -> int {
    if n < MAX_STARS {
        MAX_STARS - n
    } else {
        0
    }
}

/// The stars with the new ones.
pub open spec fn lit(stars: Seq<Star>, list: Seq<StarSeed>, turns: Seq<Turn>) -> Seq<Star> {
    stars + Seq::new(
        list.len(),
        |i: int| Star { x: turns[i].cos * list[i].radius, y: turns[i].sin * list[i].radius, t: list[i].t },
    )
}

/// The tunnel: its rings and stars, and how near the next ring is.
pub struct Tunnel {
    pub rings: Vec<Ring>,
    pub stars: Vec<Star>,
    pub ring_emit: F32,
}

impl Tunnel {
    /// Empty; the first ring is due as soon as there is music.
    pub fn new() -> (r: Tunnel)
        ensures
            r.rings@.len() == 0,
            r.stars@.len() == 0,
            r.ring_emit == F32::unit(),
    {
        Tunnel { rings: Vec::new(), stars: Vec::new(), ring_emit: F32::one() }
    }

    fn grow_rings(&mut self, d: &Drive)
        ensures
            views(final(self).rings@) == rings_left(views(old(self).rings@), *d, old(self).rings@.len() as int),
            final(self).stars == old(self).stars,
            final(self).ring_emit == old(self).ring_emit,
    {
        let ghost all = views(self.rings@);
        let ghost n = all.len() as int;
        let growth = F32::one() + F32::ratio(6, 1000) + (F32::ratio(15, 1000) + d.bass * F32::ratio(30, 1000) + d.punch
            * F32::ratio(15, 100)) * d.gate;
        let spin = (F32::ratio(5, 1000) + d.bass * F32::ratio(16, 1000) + d.punch * F32::ratio(6, 100)) * d.gate;
        let death = F32::ratio(185, 100);
        let ghost mut done: int = 0;
        let mut i: usize = 0;
        assert(views(self.rings@.take(0)) =~= rings_left(all, *d, 0));
        while i < self.rings.len()
            invariant
                0 <= i <= self.rings@.len(),
                0 <= done <= n,
                n == all.len(),
                self.rings@.len() - i == n - done,
                growth == self::growth(*d),
                spin == self::spin(*d),
                death == ring_death(),
                views(self.rings@.take(i as int)) == rings_left(all, *d, done),
                forall|k: int| i <= k < self.rings@.len() ==> (#[trigger] self.rings@[k])@ == all[k - i + done],
                self.stars == old(self).stars,
                self.ring_emit == old(self).ring_emit,
            decreases self.rings@.len() - i,
        {
            let ghost before = self.rings@;
            let mut r = self.rings.remove(i);
            assert(r@ == all[done]);
            r.scale = r.scale * growth;
            r.angle = r.angle + spin;
            assert(r@ == grown(all[done], *d));
            assert(self.rings@.take(i as int) =~= before.take(i as int));
            if r.scale.less(death) {
                let ghost v = r@;
                self.rings.insert(i, r);
                proof {
                    assert(views(self.rings@.take(i + 1)) =~= views(before.take(i as int)).push(v));
                    assert forall|k: int| i + 1 <= k < self.rings@.len() implies (#[trigger] self.rings@[k])@ == all[k
                        - (i + 1) + (done + 1)] by {
                        assert(self.rings@[k] == before[k]);
                    }
                }
                i = i + 1;
            } else {
                proof {
                    assert forall|k: int| i <= k < self.rings@.len() implies (#[trigger] self.rings@[k])@ == all[k - i
                        + (done + 1)] by {
                        assert(self.rings@[k] == before[k + 1]);
                    }
                }
            }
            proof {
                done = done + 1;
            }
        }
        assert(self.rings@.take(i as int) =~= self.rings@);
    }

    fn spread_stars(&mut self, d: &Drive)
        ensures
            final(self).stars@ == stars_left(old(self).stars@, *d, old(self).stars@.len() as int),
            final(self).rings == old(self).rings,
            final(self).ring_emit == old(self).ring_emit,
    {
        let growth = F32::one() + F32::ratio(4, 1000) + (F32::ratio(26, 1000) + d.bass * F32::ratio(55, 1000) + d.punch
            * F32::ratio(10, 100)) * d.gate;
        let edge = F32::ratio(17, 10);
        let mut kept: Vec<Star> = Vec::new();
        assert(kept@ =~= stars_left(self.stars@, *d, 0));
        let mut i: usize = 0;
        while i < self.stars.len()
            invariant
                i <= self.stars@.len(),
                *self == *old(self),
                growth == star_growth(*d),
                edge == F32::quotient(17, 10),
                kept@ == stars_left(self.stars@, *d, i as int),
            decreases self.stars@.len() - i,
        {
            let o = self.stars[i];
            let s = Star { x: o.x * growth, y: o.y * growth, t: o.t };
            if s.x.abs().less(edge) && s.y.abs().less(edge) {
                kept.push(s);
            }
            i = i + 1;
        }
        self.stars = kept;
    }

    /// Moves the rings and the stars by one frame, lets a ring be born where one is
    /// due, and says which stars appear. `turns` holds sine and cosine at the angles
    /// of a ring.
    pub fn update_tunnel(
        &mut self,
        d: &Drive,
        left: &SpectrumFrame,
        right: &SpectrumFrame,
        turns: &[Turn],
        rng: &mut Rng,
    ) -> (list: Vec<StarSeed>)
        requires
            turns@.len() == RING_POINTS,
        ensures
            ({
                let emit = old(self).ring_emit;
                let kept = rings_left(views(old(self).rings@), *d, old(self).rings@.len() as int);
                let due = ring_due(emit, *d);
                &&& final(self).ring_emit == if due {
                    F32::nought()
                } else {
                    emit + emission(*d)
                }
                &&& views(final(self).rings@) == if due && kept.len() < MAX_RINGS {
                    kept.push(newborn(*d, ring_shape(left@, right@, turns@)))
                } else {
                    kept
                }
            }),
            is_drive(*d) && F32::unit().le(old(self).ring_emit + emission(*d)) && F32::nought().lt(d.gate) && rings_left(
                views(old(self).rings@),
                *d,
                old(self).rings@.len() as int,
            ).len() < MAX_RINGS ==> final(self).rings@.len() > 0 && close(
                final(self).rings@.last().tint,
                clip(d.bass.value() + d.punch.value() / 2real, 0real, 1real),
                1real / 1000000real,
            ),
            final(self).stars@ == stars_left(old(self).stars@, *d, old(self).stars@.len() as int),
            ({
                let s = seeded(old(rng).at(), star_count(*d), star_room(final(self).stars@.len() as int));
                &&& list@ == s.list
                &&& final(rng).at() == s.rng
            }),
    {
        self.grow_rings(d);
        let next = self.ring_emit + (F32::ratio(75, 1000) + d.bass * F32::ratio(10, 100) + d.punch * F32::ratio(
            35,
            100,
        )) * d.gate;
        self.ring_emit = next;
        if F32::one().at_most(next) && F32::zero().less(d.gate) {
            self.ring_emit = F32::zero();
            if self.rings.len() < MAX_RINGS {
                let shape = build_ring_shape(left, right, turns);
                let tint = clamp_part(d.bass + d.punch * F32::half());
                let ghost before = self.rings@;
                self.rings.push(Ring { shape, scale: F32::ratio(5, 100), angle: F32::zero(), tint });
                assert(views(self.rings@) =~= views(before).push(newborn(*d, ring_shape(left@, right@, turns@))));
                proof {
                    if is_drive(*d) {
                        law_tint_is_the_beat(*d);
                    }
                }
            }
        }
        self.spread_stars(d);
        let count: usize = ((F32::from_int(2) + d.bass * F32::from_int(6) + d.punch * F32::from_int(4))
            * d.gate).to_index();
        let n: usize = self.stars.len();
        let room: usize = if n < MAX_STARS {
            MAX_STARS - n
        } else {
            0
        };
        let ghost seed = rng.at();
        let turn = F32::ratio(13176795, 2097152);
        let mut list: Vec<StarSeed> = Vec::new();
        assert(list@ =~= seeded(seed, 0, room as int).list);
        let mut k: usize = 0;
        while k < count && list.len() < room
            invariant
                k <= count,
                turn == tau(),
                list@ == seeded(seed, k as int, room as int).list,
                rng.at() == seeded(seed, k as int, room as int).rng,
            decreases count - k,
        {
            let angle = rng.rand() * turn;
            let radius = F32::ratio(4, 100) + rng.rand() * F32::ratio(5, 100);
            let t = rng.rand();
            list.push(StarSeed { angle, radius, t });
            k = k + 1;
        }
        proof {
            lemma_seeded_full(seed, k as int, count as int, room as int);
        }
        list
    }

    /// Adds the stars that appear, with sine and cosine of their angles.
    pub fn add_stars(&mut self, list: &[StarSeed], turns: &[Turn])
        requires
            turns@.len() == list@.len(),
        ensures
            final(self).stars@ == lit(old(self).stars@, list@, turns@),
            final(self).rings == old(self).rings,
            final(self).ring_emit == old(self).ring_emit,
    {
        let ghost start = self.stars@;
        let ghost all = lit(start, list@, turns@);
        assert(self.stars@ =~= all.take(start.len() as int));
        let mut i: usize = 0;
        while i < list.len()
            invariant
                i <= list@.len(),
                turns@.len() == list@.len(),
                start == old(self).stars@,
                all == lit(start, list@, turns@),
                self.stars@ == all.take(start.len() + i),
                self.rings == old(self).rings,
                self.ring_emit == old(self).ring_emit,
            decreases list@.len() - i,
        {
            let s = list[i];
            let t = turns[i];
            self.stars.push(Star { x: t.cos * s.radius, y: t.sin * s.radius, t: s.t });
            assert(self.stars@ =~= all.take(start.len() + i + 1));
            i = i + 1;
        }
        assert(all.take(all.len() as int) =~= all);
    }
}

/// How bright a ring is: it appears from the vanishing point and fades off screen.
pub open spec fn brightness(scale: F32) -> F32 {
    part_of(scale / F32::quotient(28, 100)) * part_of((ring_death() - scale) / F32::quotient(75, 100))
}

/// The brightness of a ring of some scale.
pub fn ring_brightness(scale: F32) -> (r: F32)
    ensures
        r == brightness(scale),
{
    let fade_in = clamp_part(scale / F32::ratio(28, 100));
    let fade_out = clamp_part((F32::ratio(185, 100) - scale) / F32::ratio(75, 100));
    fade_in * fade_out
}

/// A ring is drawn where it has a shape and shines.
pub open spec fn ring_shows(r: RingView) -> bool {
    r.shape.len() >= 3 && !brightness(r.scale).le(F32::quotient(2, 1000))
}

/// The points of a ring on the screen: turned and scaled.
pub open spec fn ring_line(r: RingView, t: Turn) -> Seq<Point> {
    Seq::new(
        r.shape.len(),
        |i: int|
            {
                let p = r.shape[i];
                ((p.0 * t.cos - p.1 * t.sin) * r.scale, (p.0 * t.sin + p.1 * t.cos) * r.scale)
            },
    )
}

/// The colour of a ring: its brightness is part of it.
pub open spec fn ring_color(r: RingView, p: Palette) -> Rgb {
    scaled(mixed(p.color_a, p.color_b, part_of(r.tint)), brightness(r.scale))
}

/// The half width of a ring: it thickens as it comes nearer.
pub open spec fn ring_width(r: RingView) -> F32 {
    F32::quotient(12, 1000) * (F32::quotient(35, 100) + r.scale)
}

/// The strip of the first `n` rings.
pub open spec fn rings_strip(rings: Seq<RingView>, turns: Seq<Turn>, n: int, p: Palette, inv_aspect: F32) -> Seq<Vertex>
    decreases n,
{
    if n <= 0 {
        Seq::empty()
    } else {
        let before = rings_strip(rings, turns, n - 1, p, inv_aspect);
        let r = rings[n - 1];
        if ring_shows(r) {
            with_ribbon(
                before,
                ring_line(r, turns[n - 1]),
                Seq::new(r.shape.len(), |i: int| ring_color(r, p)),
                Seq::new(r.shape.len(), |i: int| ring_width(r)),
                true,
                inv_aspect,
            )
        } else {
            before
        }
    }
}

/// All rings as one strip; `turns` holds sine and cosine of their angles.
pub fn build_tunnel_rings(rings: &Vec<Ring>, palette: &Palette, inv_aspect: F32, turns: &[Turn]) -> (v: Vec<Vertex>)
    requires
        turns@.len() == rings@.len(),
    ensures
        v@ == rings_strip(views(rings@), turns@, rings@.len() as int, *palette, inv_aspect),
{
    let ghost all = views(rings@);
    let mut v: Vec<Vertex> = Vec::new();
    assert(v@ =~= rings_strip(all, turns@, 0, *palette, inv_aspect));
    let mut k: usize = 0;
    while k < rings.len()
        invariant
            k <= rings@.len(),
            all == views(rings@),
            turns@.len() == rings@.len(),
                v@ == rings_strip(all, turns@, k as int, *palette, inv_aspect),
        decreases rings@.len() - k,
    {
        let r = &rings[k];
        let t = turns[k];
        let n: usize = r.shape.len();
        let bright = ring_brightness(r.scale);
        assert(r@ == all[k as int]);
        if n >= 3 && !bright.at_most(F32::ratio(2, 1000)) {
            let c = scale(mix(palette.color_a, palette.color_b, clamp_part(r.tint)), bright);
            let w = F32::ratio(12, 1000) * (F32::ratio(35, 100) + r.scale);
            let mut pts: Vec<Point> = Vec::new();
            let mut cols: Vec<Rgb> = Vec::new();
            let mut widths: Vec<F32> = Vec::new();
            let ghost line = ring_line(r@, t);
            let mut i: usize = 0;
            while i < n
                invariant
                    i <= n,
                    n == r.shape@.len(),
                    line == ring_line(r@, t),
                    pts@.len() == i,
                    cols@.len() == i,
                    widths@.len() == i,
                    forall|j: int| 0 <= j < i ==> #[trigger] pts@[j] == line[j],
                    forall|j: int| 0 <= j < i ==> #[trigger] cols@[j] == c,
                    forall|j: int| 0 <= j < i ==> #[trigger] widths@[j] == w,
                decreases n - i,
            {
                let p = r.shape[i];
                pts.push(((p.0 * t.cos - p.1 * t.sin) * r.scale, (p.0 * t.sin + p.1 * t.cos) * r.scale));
                cols.push(c);
                widths.push(w);
                i = i + 1;
            }
            assert(pts@ =~= line);
            assert(cols@ =~= Seq::new(r@.shape.len(), |i: int| ring_color(r@, *palette)));
            assert(widths@ =~= Seq::new(r@.shape.len(), |i: int| ring_width(r@)));
            push_glow_ribbon(&mut v, pts.as_slice(), cols.as_slice(), widths.as_slice(), true, inv_aspect);
        }
        k = k + 1;
    }
    v
}

/// A star as a point: faint near the vanishing point, fading towards the border.
pub open spec fn star_point(s: Star, p: Palette, inv_aspect: F32) -> Vertex {
    let r = (s.x * s.x + s.y * s.y).root();
    Vertex::at(
        s.x * inv_aspect,
        s.y,
        mixed(p.color_a, p.color_b, s.t),
        part_of(r / F32::quotient(35, 100)) * part_of((F32::quotient(16, 10) - r) / F32::half_unit()),
    )
}

/// The vertices of the stars.
pub fn build_star_vertices(stars: &[Star], palette: &Palette, inv_aspect: F32) -> (v: Vec<Vertex>)
    ensures
        v@ == Seq::new(stars@.len(), |i: int| star_point(stars@[i], *palette, inv_aspect)),
{
    let mut v: Vec<Vertex> = Vec::new();
    let mut i: usize = 0;
    while i < stars.len()
        invariant
            i <= stars@.len(),
            v@.len() == i,
            forall|j: int| 0 <= j < i ==> #[trigger] v@[j] == star_point(stars@[j], *palette, inv_aspect),
        decreases stars@.len() - i,
    {
        let s = stars[i];
        let r = (s.x * s.x + s.y * s.y).sqrt();
        let a = clamp_part(r / F32::ratio(35, 100)) * clamp_part((F32::ratio(16, 10) - r) / F32::half());
        let c = mix(palette.color_a, palette.color_b, s.t);
        v.push(Vertex::new(s.x * inv_aspect, s.y, c, a));
        i = i + 1;
    }
    assert(v@ =~= Seq::new(stars@.len(), |i: int| star_point(stars@[i], *palette, inv_aspect)));
    v
}

/// No more rings are left than there were.
proof fn lemma_rings_left(rings: Seq<RingView>, d: Drive, n: int)
    requires
        n >= 0,
    ensures
        rings_left(rings, d, n).len() <= n,
        forall|i: int|
            0 <= i < rings_left(rings, d, n).len() ==> (#[trigger] rings_left(rings, d, n)[i]).scale.lt(ring_death()),
    decreases n,
{
    if n > 0 {
        lemma_rings_left(rings, d, n - 1);
    }
}

/// There are never more rings than the most allowed.
pub proof fn law_rings_stay_capped(rings: Seq<RingView>, d: Drive, born: RingView)
    requires
        rings.len() <= MAX_RINGS,
    ensures
        ({
            let kept = rings_left(rings, d, rings.len() as int);
            &&& kept.len() <= MAX_RINGS
            &&& kept.len() < MAX_RINGS ==> kept.push(born).len() <= MAX_RINGS
            &&& forall|i: int| 0 <= i < kept.len() ==> (#[trigger] kept[i]).scale.lt(ring_death())
        }),
{
    lemma_rings_left(rings, d, rings.len() as int);
}

/// No more stars are left than there were.
proof fn lemma_stars_left(stars: Seq<Star>, d: Drive, n: int)
    requires
        n >= 0,
    ensures
        stars_left(stars, d, n).len() <= n,
        forall|i: int| 0 <= i < stars_left(stars, d, n).len() ==> star_near(#[trigger] stars_left(stars, d, n)[i]),
    decreases n,
{
    if n > 0 {
        lemma_stars_left(stars, d, n - 1);
    }
}

/// New stars stay within the room.
proof fn lemma_seeded(rng: u32, n: int, room: int)
    requires
        room >= 0,
    ensures
        seeded(rng, n, room).list.len() <= room,
        n >= 0 ==> seeded(rng, n, room).list.len() <= n,
    decreases n,
{
    if n > 0 {
        lemma_seeded(rng, n - 1, room);
    }
}

/// There are never more stars than the most allowed.
pub proof fn law_stars_stay_capped(stars: Seq<Star>, d: Drive, rng: u32, turns: Seq<Turn>)
    requires
        stars.len() <= MAX_STARS,
    ensures
        ({
            let kept = stars_left(stars, d, stars.len() as int);
            let list = seeded(rng, star_count(d), star_room(kept.len() as int)).list;
            lit(kept, list, turns).len() <= MAX_STARS
        }),
{
    lemma_stars_left(stars, d, stars.len() as int);
    let kept = stars_left(stars, d, stars.len() as int);
    lemma_seeded(rng, star_count(d), star_room(kept.len() as int));
}

/// In silence the tunnel only empties: no ring is born, no star appears, and the
/// generator is left alone.
pub proof fn law_silence_emits_nothing(emit: F32, d: Drive, rng: u32, room: int)
    requires
        d.gate.units() == 0,
        is_part(d.bass),
        is_part(d.punch),
        d.gate.finite(),
    ensures
        !ring_due(emit, d),
        star_count(d) == 0,
        seeded(rng, star_count(d), room).list.len() == 0,
        seeded(rng, star_count(d), room).rng == rng,
{
    lemma_one();
    lemma_zero_mag(d.gate);
    lemma_part_is_finite(d.bass);
    lemma_part_is_finite(d.punch);
    lemma_drive_fits(d.bass, 6);
    lemma_drive_fits(d.punch, 4);
    lemma2_to64();
    lemma_whole_fits(2, 1);
    lemma_fits_more(F32::whole(2), 150, 152);
    lemma_add_fits(F32::whole(2), d.bass * F32::whole(6), 152);
    lemma_fits_more(d.punch * F32::whole(4), 152, 153);
    lemma_add_fits(F32::whole(2) + d.bass * F32::whole(6), d.punch * F32::whole(4), 153);
    let x = F32::whole(2) + d.bass * F32::whole(6) + d.punch * F32::whole(4);
    lemma_times_zero(x, d.gate);
    reveal(F32::index);
    assert(0int / one_units() == 0) by (nonlinear_arith)
        requires one_units() > 0;
}

/// A part of a small whole number.
proof fn lemma_drive_fits(x: F32, n: int)
    requires
        is_part(x),
        0 <= n <= 8,
    ensures
        (x * F32::whole(n)).fits(152),
{
    lemma_part_is_finite(x);
    lemma2_to64();
    lemma_whole_fits(n, 3);
    assert(x.fits(149));
    lemma_mul_fits(x, F32::whole(n), 149, 152);
}

/// The brightness of a ring is from zero to one.
pub proof fn law_brightness_is_part(scale: F32)
    requires
        scale.finite(),
    ensures
        is_part(brightness(scale)),
{
    lemma_one();
    lemma_quotient_number(28, 100);
    lemma_quotient_number(75, 100);
    lemma_quotient_number(185, 100);
    lemma_div_sign(scale, F32::quotient(28, 100));
    lemma_sub_sign(ring_death(), scale);
    lemma_div_sign(ring_death() - scale, F32::quotient(75, 100));
    lemma_product_of_parts(
        part_of(scale / F32::quotient(28, 100)),
        part_of((ring_death() - scale) / F32::quotient(75, 100)),
    );
}

/// A ring never shrinks, whether there is music or not.
pub proof fn law_rings_never_shrink(r: RingView, d: Drive)
    requires
        r.scale.within(F32::nought(), ring_death()),
        is_part(d.bass),
        is_part(d.punch),
        is_part(d.gate),
    ensures
        r.scale.le(grown(r, d).scale),
{
    lemma_one();
    lemma2_to64();
    lemma_whole(2);
    lemma_whole(5);
    lemma_whole(10);
    lemma_binary_fraction(257, 8);
    lemma_growth(d);
    let w = one_units();
    let g = growth(d);
    lemma_bounded_is_finite_between(g, F32::quotient(257, 256), F32::whole(5));
    lemma_quotient_between(185, 100, F32::nought(), F32::whole(2));
    lemma_bounded_is_finite_between(r.scale, F32::nought(), ring_death());
    let su = r.scale.units();
    let gu = g.units();
    assert(su * w <= su * gu <= (10 * w) * w) by (nonlinear_arith)
        requires 0 <= su <= 2 * w, w <= gu <= 5 * w;
    lemma_mul_between(r.scale, g, r.scale, F32::whole(10));
}

/// A ring grows by at least a 256th in a frame.
pub(super) proof fn lemma_growth(d: Drive)
    requires
        is_part(d.bass),
        is_part(d.punch),
        is_part(d.gate),
    ensures
        growth(d).within(F32::quotient(257, 256), F32::whole(5)),
        star_growth(d).within(F32::quotient(257, 256), F32::whole(5)),
{
    lemma_part_is_finite(d.bass);
    lemma_small_rate_grows(15, (30, 1000), (15, 100), d, d);
    lemma_small_rate_grows(26, (55, 1000), (10, 100), d, d);
    lemma_drift(6, small_rate(15, (30, 1000), (15, 100), d));
    lemma_drift(4, small_rate(26, (55, 1000), (10, 100), d));
}

/// One and some thousandths and a rate.
proof fn lemma_drift(n: int, x: F32)
    requires
        4 <= n <= 1000,
        x.within(F32::nought(), F32::whole(3)),
    ensures
        (F32::unit() + F32::quotient(n, 1000) + x).within(F32::quotient(257, 256), F32::whole(5)),
{
    lemma_one();
    lemma2_to64();
    lemma_whole(2);
    lemma_whole(3);
    lemma_whole(5);
    lemma_binary_fraction(1, 8);
    lemma_binary_fraction(257, 8);
    let w = one_units();
    let step = F32::quotient(1, 256);
    assert(step.units() * 1000 <= n * w <= w * 1000) by (nonlinear_arith)
        requires 256 * step.units() == 1 * w, 4 <= n <= 1000, w > 0;
    lemma_quotient_between(n, 1000, step, F32::unit());
    let low = F32::quotient(257, 256);
    lemma_add_between(F32::unit(), F32::quotient(n, 1000), low, F32::whole(2));
    let base = F32::unit() + F32::quotient(n, 1000);
    lemma_bounded_is_finite_between(base, low, F32::whole(2));
    lemma_bounded_is_finite_between(x, F32::nought(), F32::whole(3));
    lemma_add_between(base, x, low, F32::whole(5));
}

/// A rate of the tunnel: a constant, a share of the bass and a share of the punch, as
/// far as the silence gate is open.
pub open spec fn rate(base: F32, bass: F32, punch: F32, d: Drive) -> F32 {
    (base + d.bass * bass + d.punch * punch) * d.gate
}

/// A rate is finite, not negative, and grows with the bass.
proof fn lemma_rate_grows(base: F32, bass: F32, punch: F32, d: Drive, e: Drive, k: int)
    requires
        base.within(F32::nought(), F32::whole(k)),
        bass.within(F32::nought(), F32::whole(k)),
        punch.within(F32::nought(), F32::whole(k)),
        1 <= k <= 8,
        is_part(d.bass),
        is_part(d.punch),
        is_part(d.gate),
        is_part(e.bass),
        d.bass.le(e.bass),
        e.punch == d.punch,
        e.gate == d.gate,
    ensures
        rate(base, bass, punch, d).le(rate(base, bass, punch, e)),
        rate(base, bass, punch, d).within(F32::nought(), F32::whole(3 * k)),
        rate(base, bass, punch, e).within(F32::nought(), F32::whole(3 * k)),
{
    lemma_one();
    lemma_whole(k);
    lemma_whole(2 * k);
    lemma_whole(3 * k);
    lemma_part_is_finite(d.bass);
    lemma_part_is_finite(e.bass);
    lemma_part_is_finite(d.punch);
    lemma_part_is_finite(d.gate);
    let w = one_units();
    let big = F32::whole(k);
    assert((2 * k) * w == 2 * (k * w) && (3 * k) * w == 3 * (k * w)) by (nonlinear_arith);
    lemma_bounded_is_finite_between(base, F32::nought(), big);
    lemma_bounded_is_finite_between(bass, F32::nought(), big);
    lemma_bounded_is_finite_between(punch, F32::nought(), big);
    lemma_share(d.bass, bass, k);
    lemma_share(e.bass, bass, k);
    lemma_share(d.punch, punch, k);
    let x = d.bass.units();
    let y = e.bass.units();
    let b = bass.units();
    assert(x * b <= y * b) by (nonlinear_arith)
        requires x <= y, b >= 0;
    lemma_mul_order(d.bass, bass, e.bass, bass);
    let db = d.bass * bass;
    let eb = e.bass * bass;
    let p = d.punch * punch;
    lemma_add_order(base, db, base, eb);
    lemma_add_between(base, db, F32::nought(), F32::whole(2 * k));
    lemma_add_between(base, eb, F32::nought(), F32::whole(2 * k));
    lemma_bounded_is_finite_between(base + db, F32::nought(), F32::whole(2 * k));
    lemma_bounded_is_finite_between(base + eb, F32::nought(), F32::whole(2 * k));
    lemma_add_order(base + db, p, base + eb, p);
    lemma_add_between(base + db, p, F32::nought(), F32::whole(3 * k));
    lemma_add_between(base + eb, p, F32::nought(), F32::whole(3 * k));
    let ds = base + db + p;
    let es = base + eb + p;
    lemma_bounded_is_finite_between(ds, F32::nought(), F32::whole(3 * k));
    lemma_bounded_is_finite_between(es, F32::nought(), F32::whole(3 * k));
    let g = d.gate.units();
    let u = ds.units();
    let v = es.units();
    let h = (3 * k) * w;
    assert(u * g <= v * g) by (nonlinear_arith)
        requires u <= v, g >= 0;
    lemma_mul_order(ds, d.gate, es, d.gate);
    assert(0 * w <= u * g <= h * w && 0 * w <= v * g <= h * w) by (nonlinear_arith)
        requires 0 <= u <= h, 0 <= v <= h, 0 <= g <= w;
    lemma_mul_between(ds, d.gate, F32::nought(), F32::whole(3 * k));
    lemma_mul_between(es, d.gate, F32::nought(), F32::whole(3 * k));
}

/// A part of a number.
proof fn lemma_share(x: F32, y: F32, k: int)
    requires
        is_part(x),
        y.within(F32::nought(), F32::whole(k)),
        1 <= k <= 8,
    ensures
        (x * y).within(F32::nought(), F32::whole(k)),
        (x * y).finite(),
{
    lemma_one();
    lemma_whole(k);
    lemma_part_is_finite(x);
    lemma_bounded_is_finite_between(y, F32::nought(), F32::whole(k));
    let w = one_units();
    let a = x.units();
    let b = y.units();
    let h = k * w;
    assert(0 * w <= a * b <= h * w) by (nonlinear_arith)
        requires 0 <= a <= w, 0 <= b <= h;
    lemma_mul_between(x, y, F32::nought(), F32::whole(k));
    lemma_bounded_is_finite_between(x * y, F32::nought(), F32::whole(k));
}

/// The bass drives the tunnel: with more of it the rings grow and turn at least as
/// fast, the next one comes at least as soon, and at least as many stars appear and
/// spread at least as fast.
pub proof fn law_bass_speeds_up(d: Drive, e: Drive)
    requires
        is_part(d.bass),
        is_part(d.punch),
        is_part(d.gate),
        is_part(e.bass),
        d.bass.le(e.bass),
        e.punch == d.punch,
        e.gate == d.gate,
    ensures
        growth(d).le(growth(e)),
        spin(d).le(spin(e)),
        emission(d).le(emission(e)),
        star_growth(d).le(star_growth(e)),
        star_count(d) <= star_count(e),
{
    lemma_small_rate_grows(15, (30, 1000), (15, 100), d, e);
    lemma_small_rate_grows(5, (16, 1000), (6, 100), d, e);
    lemma_small_rate_grows(75, (10, 100), (35, 100), d, e);
    lemma_small_rate_grows(26, (55, 1000), (10, 100), d, e);
    lemma_drift_grows(6, small_rate(15, (30, 1000), (15, 100), d), small_rate(15, (30, 1000), (15, 100), e));
    lemma_drift_grows(4, small_rate(26, (55, 1000), (10, 100), d), small_rate(26, (55, 1000), (10, 100), e));
    lemma_whole(2);
    lemma_whole(4);
    lemma_whole(6);
    lemma_rate_grows(F32::whole(2), F32::whole(6), F32::whole(4), d, e, 6);
    lemma_index_order(
        rate(F32::whole(2), F32::whole(6), F32::whole(4), d),
        rate(F32::whole(2), F32::whole(6), F32::whole(4), e),
    );
}

/// A rate from thousandths and two fractions.
spec fn small_rate(base: int, bass: (int, int), punch: (int, int), d: Drive) -> F32 {
    rate(F32::quotient(base, 1000), F32::quotient(bass.0, bass.1), F32::quotient(punch.0, punch.1), d)
}

/// A rate from fractions grows with the bass.
proof fn lemma_small_rate_grows(base: int, bass: (int, int), punch: (int, int), d: Drive, e: Drive)
    requires
        0 <= base <= 1000,
        0 <= bass.0 <= bass.1,
        0 < bass.1 <= 1000,
        0 <= punch.0 <= punch.1,
        0 < punch.1 <= 1000,
        is_part(d.bass),
        is_part(d.punch),
        is_part(d.gate),
        is_part(e.bass),
        d.bass.le(e.bass),
        e.punch == d.punch,
        e.gate == d.gate,
    ensures
        small_rate(base, bass, punch, d).le(small_rate(base, bass, punch, e)),
        small_rate(base, bass, punch, d).within(F32::nought(), F32::whole(3)),
        small_rate(base, bass, punch, e).within(F32::nought(), F32::whole(3)),
{
    lemma_fraction(base, 1000);
    lemma_fraction(bass.0, bass.1);
    lemma_fraction(punch.0, punch.1);
    lemma_rate_grows(
        F32::quotient(base, 1000),
        F32::quotient(bass.0, bass.1),
        F32::quotient(punch.0, punch.1),
        d,
        e,
        1,
    );
}

/// What grows with a rate stays in order.
proof fn lemma_drift_grows(n: int, x: F32, y: F32)
    requires
        0 <= n <= 1000,
        x.within(F32::nought(), F32::whole(3)),
        y.within(F32::nought(), F32::whole(3)),
        x.le(y),
    ensures
        (F32::unit() + F32::quotient(n, 1000) + x).le(F32::unit() + F32::quotient(n, 1000) + y),
{
    lemma_one();
    lemma_whole(2);
    lemma_whole(3);
    lemma_fraction(n, 1000);
    let base = F32::unit() + F32::quotient(n, 1000);
    lemma_add_between(F32::unit(), F32::quotient(n, 1000), F32::nought(), F32::whole(2));
    lemma_bounded_is_finite_between(base, F32::nought(), F32::whole(2));
    lemma_bounded_is_finite_between(x, F32::nought(), F32::whole(3));
    lemma_bounded_is_finite_between(y, F32::nought(), F32::whole(3));
    lemma_add_order(base, x, base, y);
}

} // verus!
