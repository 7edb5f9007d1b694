//! The order of the rings in the tunnel, and what its state keeps to.

use super::curve::Point;
use super::drift::is_drive;
use super::levels::Drive;
use super::radial::Turn;
use super::rng::{fraction, law_fraction_is_below_one, shuffled};
use super::tunnel::{
    emission, grown, growth, lemma_growth, lit, newborn, rate, ring_birth, ring_death, ring_due, rings_left, seeded,
    spin, star_near, stars_left, MAX_RINGS, RingView, Star,
};
use crate::dsp::{is_part, lemma_part_is_finite};
use crate::float::error::{lemma_mul_error, lemma_slack, slack};
use crate::float::laws::{
    lemma_add_between, lemma_add_order, lemma_add_sign, lemma_binary_fraction, lemma_bounded_is_finite,
    lemma_bounded_is_finite_between, lemma_fraction, lemma_half, lemma_mul_between, lemma_neg, lemma_one,
    lemma_plus_zero, lemma_quotient_between, lemma_signed, lemma_times_zero, lemma_whole, lemma_zero_mag, one_units,
};
use crate::float::mirror::lemma_mul_commutes;
use crate::float::repr::{lemma_mag_units_order, mag_units, FRAC};
use crate::float::round::{
    distance, lemma_mag_units_at, lemma_nearest_is_nearest, lemma_nearest_positive, nearest, nearest_mag,
};
use crate::float::F32;
use vstd::arithmetic::power2::{lemma2_to64, lemma_pow2_adds, lemma_pow2_pos, pow2};
use vstd::prelude::*;

verus! {

/// The least distance between the scales of two rings, in units: one part of 8192.
pub open spec fn gap() -> int {
    pow2(136) as int
}

/// The largest angle that is told apart from the next frame's.
pub open spec fn last_angle() -> F32 {
    F32::whole(0x100_0000)
}

/// Whether a ring is on the screen: its scale lies from birth to death, and it has turned
/// forwards.
pub open spec fn on_screen(r: RingView) -> bool {
    &&& ring_birth().le(r.scale)
    &&& r.scale.lt(ring_death())
    &&& r.angle.within(F32::nought(), last_angle())
}

/// Whether one ring is older than another: it is larger, and has turned at least as far.
pub open spec fn older(a: RingView, b: RingView) -> bool {
    &&& a.scale.units() >= b.scale.units() + gap()
    &&& a.angle.units() >= b.angle.units()
}

/// Whether the rings of a tunnel are in order: no more than allowed, all of them on the
/// screen, and the older ones first.
pub open spec fn in_order(rings: Seq<RingView>) -> bool {
    &&& rings.len() <= MAX_RINGS
    &&& forall|i: int| 0 <= i < rings.len() ==> on_screen(#[trigger] rings[i])
    &&& forall|i: int, j: int| 0 <= i < j < rings.len() ==> older(#[trigger] rings[i], #[trigger] rings[j])
}

/// A rate whose parts are at most `1 / 2^p` is at most three times that.
proof fn lemma_rate_bound(base: F32, bass: F32, punch: F32, d: Drive, p: nat)
    requires
        p <= 8,
        base.within(F32::nought(), F32::quotient(1, pow2(p) as int)),
        bass.within(F32::nought(), F32::quotient(1, pow2(p) as int)),
        punch.within(F32::nought(), F32::quotient(1, pow2(p) as int)),
        is_drive(d),
    ensures
        rate(base, bass, punch, d).within(F32::nought(), F32::quotient(3, pow2(p) as int)),
        rate(base, bass, punch, d).finite(),
{
    lemma_one();
    let w = one_units();
    lemma_binary_fraction(1, p);
    lemma_binary_fraction(2, p);
    lemma_binary_fraction(3, p);
    lemma_pow2_pos(p);
    let one = F32::quotient(1, pow2(p) as int);
    let two = F32::quotient(2, pow2(p) as int);
    let three = F32::quotient(3, pow2(p) as int);
    lemma_pow2_pos((149 - p) as nat);
    assert(two.units() == 2 * one.units() && three.units() == 3 * one.units() && one.units() > 0);
    lemma_bounded_is_finite_between(base, F32::nought(), one);
    lemma_bounded_is_finite_between(bass, F32::nought(), one);
    lemma_bounded_is_finite_between(punch, F32::nought(), one);
    lemma_part_times(d.bass, bass, one);
    lemma_part_times(d.punch, punch, one);
    lemma_add_between(base, d.bass * bass, F32::nought(), two);
    let x = base + d.bass * bass;
    lemma_bounded_is_finite_between(x, F32::nought(), two);
    lemma_add_between(x, d.punch * punch, F32::nought(), three);
    let y = x + d.punch * punch;
    lemma_bounded_is_finite_between(y, F32::nought(), three);
    lemma_mul_commutes(y, d.gate);
    lemma_part_times(d.gate, y, three);
}

/// A part of a number is no more than it.
proof fn lemma_part_times(x: F32, y: F32, high: F32)
    requires
        is_part(x),
        y.within(F32::nought(), high),
        high.finite(),
    ensures
        (x * y).within(F32::nought(), high),
        (x * y).finite(),
{
    lemma_one();
    lemma_part_is_finite(x);
    lemma_bounded_is_finite_between(y, F32::nought(), high);
    let w = one_units();
    let a = x.units();
    let b = y.units();
    let h = high.units();
    assert(0 * w <= a * b <= h * w) by (nonlinear_arith)
        requires 0 <= a <= w, 0 <= b <= h;
    lemma_mul_between(x, y, F32::nought(), high);
    lemma_bounded_is_finite_between(x * y, F32::nought(), high);
}

/// A small fraction.
proof fn lemma_small(n: int, d: int, p: nat)
    requires
        0 <= n <= 0x1_0000,
        0 < d <= 0x1_0000,
        p <= 8,
        n * pow2(p) <= d,
    ensures
        F32::quotient(n, d).within(F32::nought(), F32::quotient(1, pow2(p) as int)),
{
    lemma_one();
    lemma_binary_fraction(1, p);
    let w = one_units();
    let q = F32::quotient(1, pow2(p) as int).units();
    let e = pow2(p) as int;
    lemma_pow2_pos(p);
    assert(0 * d <= n * w <= q * d) by (nonlinear_arith)
        requires e * q == 1 * w, n * e <= d, 0 <= n, d > 0, w > 0, e > 0;
    lemma_quotient_between(n, d, F32::nought(), F32::quotient(1, pow2(p) as int));
}

/// A ring grows to less than twice its size in a frame, and turns by less than half.
proof fn lemma_steps(d: Drive)
    requires
        is_drive(d),
    ensures
        growth(d).within(F32::quotient(257, 256), F32::whole(2)),
        growth(d).finite(),
        spin(d).within(F32::nought(), F32::half_unit()),
        emission(d).finite(),
        F32::nought().le(emission(d)),
{
    lemma_one();
    lemma_half();
    lemma2_to64();
    lemma_whole(2);
    lemma_whole(5);
    lemma_growth(d);
    lemma_binary_fraction(257, 8);
    lemma_small(15, 1000, 2);
    lemma_small(30, 1000, 2);
    lemma_small(15, 100, 2);
    lemma_rate_bound(F32::quotient(15, 1000), F32::quotient(30, 1000), F32::quotient(15, 100), d, 2);
    let x = rate(F32::quotient(15, 1000), F32::quotient(30, 1000), F32::quotient(15, 100), d);
    lemma_binary_fraction(3, 2);
    lemma_binary_fraction(1, 6);
    lemma_binary_fraction(65, 6);
    lemma_small(6, 1000, 6);
    lemma_fraction(6, 1000);
    let top = F32::quotient(65, 64);
    lemma_add_between(F32::unit(), F32::quotient(6, 1000), F32::nought(), top);
    let base = F32::unit() + F32::quotient(6, 1000);
    lemma_bounded_is_finite_between(base, F32::nought(), top);
    lemma_add_between(base, x, F32::nought(), F32::whole(2));
    lemma_bounded_is_finite_between(growth(d), F32::nought(), F32::whole(2));
    lemma_small(5, 1000, 3);
    lemma_small(16, 1000, 3);
    lemma_small(6, 100, 3);
    lemma_rate_bound(F32::quotient(5, 1000), F32::quotient(16, 1000), F32::quotient(6, 100), d, 3);
    lemma_binary_fraction(3, 3);
    lemma_small(75, 1000, 1);
    lemma_small(10, 100, 1);
    lemma_small(35, 100, 1);
    lemma_rate_bound(F32::quotient(75, 1000), F32::quotient(10, 100), F32::quotient(35, 100), d, 1);
}

/// Birth and death of a ring.
proof fn lemma_scales()
    ensures
        ring_birth().finite(),
        ring_death().finite(),
        ring_death().units() <= 2 * one_units(),
        21 * ring_birth().units() >= one_units(),
        ring_birth().lt(ring_death()),
        one_units() == 8192 * gap(),
        gap() > 0,
{
    lemma_one();
    lemma2_to64();
    lemma_whole(2);
    lemma_pow2_adds(13, 136);
    lemma_pow2_pos(136);
    let w = one_units();
    lemma_fraction(5, 100);
    lemma_binary_fraction(50, 10);
    lemma_quotient_between(185, 100, F32::unit(), F32::whole(2));
    lemma_bounded_is_finite_between(ring_death(), F32::unit(), F32::whole(2));
    let low = F32::quotient(50, 1024);
    assert(low.units() * 100 <= 5 * w) by (nonlinear_arith)
        requires 1024 * low.units() == 50 * w, w > 0;
    lemma_half();
    lemma_quotient_between(5, 100, low, F32::half_unit());
}

/// The exact growth of a ring, and what rounding leaves of it.
proof fn lemma_grown_scale(r: RingView, d: Drive)
    requires
        is_drive(d),
        on_screen(r),
    ensures
        grown(r, d).scale.finite(),
        distance(grown(r, d).scale.units() * one_units(), r.scale.units() * growth(d).units()) <= slack()
            * one_units(),
        256 * growth(d).units() >= 257 * one_units(),
        grown(r, d).scale.units() >= ring_birth().units() + gap(),
{
    lemma_one();
    lemma2_to64();
    lemma_whole(2);
    lemma_scales();
    lemma_steps(d);
    lemma_slack();
    lemma_binary_fraction(257, 8);
    lemma_bounded_is_finite_between(r.scale, ring_birth(), ring_death());
    let w = one_units();
    let s = r.scale.units();
    let g = growth(d).units();
    let b = ring_birth().units();
    assert(0 <= s * g < 4 * w * w) by (nonlinear_arith)
        requires 0 <= s < 2 * w, 0 <= g <= 2 * w, w > 0;
    lemma_mul_error(r.scale, growth(d));
    let z = grown(r, d).scale.units();
    let k = gap();
    lemma_pow2_adds(10, 126);
    assert(k == 1024 * slack());
    assert(z * w >= s * g - slack() * w);
    assert(z >= b + k) by (nonlinear_arith)
        requires
            z * w >= s * g - slack() * w,
            256 * g >= 257 * w,
            s >= b,
            21 * b >= w,
            w == 8192 * k,
            k == 1024 * slack(),
            slack() > 0,
            w > 0,
    {
        assert(256 * (s * g) >= 257 * (s * w));
        assert(257 * (s * w) >= 257 * (b * w));
        assert(256 * (z * w) >= 257 * (b * w) - 256 * (slack() * w));
        assert(256 * z >= 257 * b - 256 * slack());
    }
}

/// A ring that is older stays older.
proof fn lemma_stays_older(a: RingView, b: RingView, d: Drive)
    requires
        is_drive(d),
        on_screen(a),
        on_screen(b),
        older(a, b),
    ensures
        older(grown(a, d), grown(b, d)),
{
    lemma_one();
    lemma_scales();
    lemma_steps(d);
    lemma_slack();
    lemma2_to64();
    lemma_grown_scale(a, d);
    lemma_grown_scale(b, d);
    let w = one_units();
    let k = gap();
    let s = slack();
    let g = growth(d).units();
    let x = a.scale.units();
    let y = b.scale.units();
    let p = grown(a, d).scale.units();
    let q = grown(b, d).scale.units();
    lemma_pow2_adds(10, 126);
    assert(k == 1024 * s);
    assert(p >= q + k) by (nonlinear_arith)
        requires
            p * w >= x * g - s * w,
            q * w <= y * g + s * w,
            x >= y + k,
            256 * g >= 257 * w,
            k == 1024 * s,
            s > 0,
            w > 0,
            g > 0,
    {
        assert((x - y) * g >= k * g);
        assert(256 * (k * g) >= 257 * (k * w));
        assert(256 * (p * w - q * w) >= 257 * (k * w) - 512 * (s * w));
        assert(256 * ((p - q) * w) >= (257 * k - 512 * s) * w);
        assert(256 * (p - q) >= 257 * k - 512 * s);
    }
    lemma_half();
    lemma_whole(0x100_0000);
    lemma_bounded_is_finite_between(a.angle, F32::nought(), last_angle());
    lemma_bounded_is_finite_between(b.angle, F32::nought(), last_angle());
    lemma_bounded_is_finite_between(spin(d), F32::nought(), F32::half_unit());
    lemma_add_order(b.angle, spin(d), a.angle, spin(d));
}

/// An angle stays below the largest.
proof fn lemma_angle_stays(a: F32, s: F32)
    requires
        a.within(F32::nought(), last_angle()),
        s.within(F32::nought(), F32::half_unit()),
    ensures
        (a + s).within(F32::nought(), last_angle()),
{
    lemma_one();
    lemma_half();
    lemma_whole(0x100_0000);
    let top = last_angle();
    let w = one_units();
    lemma_bounded_is_finite_between(a, F32::nought(), top);
    lemma_bounded_is_finite_between(s, F32::nought(), F32::half_unit());
    lemma_add_order(a, s, top, F32::half_unit());
    lemma_add_sign(a, s);
    // Half a unit more rounds back to the largest angle, whose neighbour is two units off.
    let n = top.units() + F32::half_unit().units();
    lemma2_to64();
    lemma_pow2_adds(1, 149);
    lemma_pow2_adds(24, 149);
    lemma_mag_units_at(150, 0x80_0000);
    lemma_mag_units_at(150, 0x80_0001);
    let m = 150 * FRAC + 0x80_0000;
    lemma_mag_units_order(m, top.mag());
    lemma_mag_units_order(top.mag(), m);
    assert(mag_units(m + 1) == top.units() + 2 * w) by {
        assert(0x80_0001 * pow2(150) == 0x80_0000 * pow2(150) + pow2(150)) by (nonlinear_arith);
    }
    lemma_nearest_is_nearest(n, 1, m);
    lemma_nearest_positive(n, 1);
    let r = nearest(n, 1);
    if r > m {
        lemma_mag_units_order(r, m + 1);
    }
    lemma_mag_units_order(m, r);
    reveal(F32::spec_add);
    lemma_signed(false, nearest_mag(n, 1));
}

/// What is left of rings in order is in order, has outgrown a new ring, and is older than
/// all that follow.
proof fn lemma_left_in_order(rings: Seq<RingView>, d: Drive, n: int)
    requires
        is_drive(d),
        in_order(rings),
        0 <= n <= rings.len(),
    ensures
        in_order(rings_left(rings, d, n)),
        rings_left(rings, d, n).len() <= n,
        forall|i: int|
            0 <= i < rings_left(rings, d, n).len() ==> (#[trigger] rings_left(rings, d, n)[i]).scale.units()
                >= ring_birth().units() + gap(),
        forall|i: int, k: int|
            0 <= i < rings_left(rings, d, n).len() && n <= k < rings.len() ==> older(
                #[trigger] rings_left(rings, d, n)[i],
                grown(#[trigger] rings[k], d),
            ),
    decreases n,
{
    if n > 0 {
        lemma_left_in_order(rings, d, n - 1);
        let before = rings_left(rings, d, n - 1);
        let after = rings_left(rings, d, n);
        let r = rings[n - 1];
        assert(on_screen(r));
        lemma_grown_scale(r, d);
        lemma_scales();
        lemma_steps(d);
        lemma_angle_stays(r.angle, spin(d));
        assert forall|i: int, k: int| 0 <= i < after.len() && n <= k < rings.len() implies older(
            #[trigger] after[i],
            grown(#[trigger] rings[k], d),
        ) by {
            if i < before.len() {
                assert(older(before[i], grown(rings[k], d)));
            } else {
                assert(on_screen(rings[k]));
                assert(older(rings[n - 1], rings[k]));
                lemma_stays_older(r, rings[k], d);
            }
        }
        assert forall|i: int, j: int| 0 <= i < j < after.len() implies older(
            #[trigger] after[i],
            #[trigger] after[j],
        ) by {
            if j >= before.len() {
                assert(older(before[i], grown(rings[n - 1], d)));
            } else {
                assert(older(before[i], before[j]));
            }
        }
    }
}

/// The rings stay in order from frame to frame: never more than allowed, each from birth to
/// death in scale, and the older ones always larger and turned at least as far as the
/// younger ones.
pub proof fn law_rings_stay_in_order(rings: Seq<RingView>, d: Drive, shape: Seq<Point>)
    requires
        is_drive(d),
        in_order(rings),
    ensures
        in_order(rings_left(rings, d, rings.len() as int)),
        rings_left(rings, d, rings.len() as int).len() < MAX_RINGS ==> in_order(
            rings_left(rings, d, rings.len() as int).push(newborn(d, shape)),
        ),
{
    lemma_one();
    lemma_scales();
    lemma_whole(0x100_0000);
    lemma_left_in_order(rings, d, rings.len() as int);
    let left = rings_left(rings, d, rings.len() as int);
    if left.len() < MAX_RINGS {
        let all = left.push(newborn(d, shape));
        assert forall|i: int, j: int| 0 <= i < j < all.len() implies older(#[trigger] all[i], #[trigger] all[j]) by {
            if j == left.len() {
                assert(on_screen(left[i]));
            } else {
                assert(older(left[i], left[j]));
            }
        }
        assert forall|i: int| 0 <= i < all.len() implies on_screen(#[trigger] all[i]) by {
            if i < left.len() {
                assert(on_screen(left[i]));
            }
        }
    }
}

/// How near the next ring is stays from zero to one.
pub proof fn law_emission_stays_part(emit: F32, d: Drive)
    requires
        is_drive(d),
        is_part(emit),
    ensures
        is_part(if ring_due(emit, d) { F32::nought() } else { emit + emission(d) }),
        0 < d.gate.units() && !ring_due(emit, d) ==> (emit + emission(d)).lt(F32::unit()),
{
    lemma_one();
    lemma2_to64();
    lemma_part_is_finite(emit);
    lemma_part_is_finite(d.gate);
    lemma_steps(d);
    lemma_add_sign(emit, emission(d));
    if !ring_due(emit, d) && !F32::nought().lt(d.gate) {
        lemma_zero_mag(d.gate);
        lemma_part_is_finite(d.bass);
        lemma_part_is_finite(d.punch);
        lemma_small(75, 1000, 1);
        lemma_small(10, 100, 1);
        lemma_small(35, 100, 1);
        lemma_ungated(F32::quotient(75, 1000), F32::quotient(10, 100), F32::quotient(35, 100), d);
        lemma_plus_zero(emit, emission(d));
    }
}

/// With the silence gate shut a rate is zero.
proof fn lemma_ungated(base: F32, bass: F32, punch: F32, d: Drive)
    requires
        is_drive(d),
        d.gate.mag() == 0,
        base.within(F32::nought(), F32::quotient(1, 2)),
        bass.within(F32::nought(), F32::quotient(1, 2)),
        punch.within(F32::nought(), F32::quotient(1, 2)),
    ensures
        rate(base, bass, punch, d).units() == 0,
        rate(base, bass, punch, d).finite(),
{
    lemma_one();
    lemma2_to64();
    lemma_whole(1);
    lemma_whole(2);
    lemma_binary_fraction(1, 1);
    let half = F32::quotient(1, 2);
    lemma_bounded_is_finite_between(base, F32::nought(), half);
    lemma_part_times(d.bass, bass, half);
    lemma_part_times(d.punch, punch, half);
    lemma_add_between(base, d.bass * bass, F32::nought(), F32::whole(1));
    let x = base + d.bass * bass;
    lemma_bounded_is_finite_between(x, F32::nought(), F32::whole(1));
    lemma_add_between(x, d.punch * punch, F32::nought(), F32::whole(2));
    let y = x + d.punch * punch;
    lemma_bounded_is_finite_between(y, F32::nought(), F32::whole(2));
    lemma_times_zero(y, d.gate);
}

/// The stars that are left are near.
proof fn lemma_left_near(stars: Seq<Star>, d: Drive, n: int)
    ensures
        forall|i: int| 0 <= i < stars_left(stars, d, n).len() ==> star_near(#[trigger] stars_left(stars, d, n)[i]),
    decreases n,
{
    if n > 0 {
        lemma_left_near(stars, d, n - 1);
        let before = stars_left(stars, d, n - 1);
        assert forall|i: int| 0 <= i < stars_left(stars, d, n).len() implies star_near(
            #[trigger] stars_left(stars, d, n)[i],
        ) by {
            if i < before.len() {
                assert(star_near(before[i]));
            }
        }
    }
}

/// A new star starts near the centre.
proof fn lemma_seed_radius(rng: u32, n: int, room: int)
    ensures
        forall|i: int|
            0 <= i < seeded(rng, n, room).list.len() ==> is_part((#[trigger] seeded(rng, n, room).list[i]).radius),
    decreases n,
{
    if n > 0 {
        lemma_seed_radius(rng, n - 1, room);
        let s = seeded(rng, n - 1, room);
        if s.list.len() < room {
            lemma_one();
            lemma_half();
            let b = shuffled(shuffled(s.rng));
            law_fraction_is_below_one(b);
            lemma_part_is_finite(fraction(b));
            lemma_fraction(4, 100);
            lemma_fraction(5, 100);
            let h = F32::half_unit();
            lemma_quotient_between(4, 100, F32::nought(), h);
            lemma_quotient_between(5, 100, F32::nought(), h);
            lemma_part_times(fraction(b), F32::quotient(5, 100), h);
            lemma_add_between(
                F32::quotient(4, 100),
                fraction(b) * F32::quotient(5, 100),
                F32::nought(),
                F32::unit(),
            );
        }
    }
}

/// A coordinate of a new star is near.
proof fn lemma_near(t: F32, radius: F32)
    requires
        t.within(-F32::unit(), F32::unit()),
        is_part(radius),
    ensures
        (t * radius).unsigned().lt(F32::quotient(17, 10)),
{
    lemma_one();
    lemma_neg(F32::unit());
    lemma_whole(2);
    lemma_bounded_is_finite(t, F32::unit());
    lemma_part_is_finite(radius);
    let w = one_units();
    let a = t.units();
    let b = radius.units();
    assert((-w) * w <= a * b <= w * w) by (nonlinear_arith)
        requires -w <= a <= w, 0 <= b <= w;
    lemma_mul_between(t, radius, -F32::unit(), F32::unit());
    let x = t * radius;
    lemma_bounded_is_finite(x, F32::unit());
    lemma_signed(false, x.mag());
    lemma2_to64();
    lemma_binary_fraction(3, 1);
    lemma_quotient_between(17, 10, F32::quotient(3, 2), F32::whole(2));
}

/// All stars are near enough to be seen, old ones and new ones.
pub proof fn law_stars_stay_near(stars: Seq<Star>, d: Drive, rng: u32, n: int, room: int, turns: Seq<Turn>, i: int)
    requires
        forall|k: int|
            0 <= k < seeded(rng, n, room).list.len() ==> (#[trigger] turns[k]).cos.within(-F32::unit(), F32::unit())
                && turns[k].sin.within(-F32::unit(), F32::unit()),
        0 <= i < lit(stars_left(stars, d, stars.len() as int), seeded(rng, n, room).list, turns).len(),
    ensures
        star_near(lit(stars_left(stars, d, stars.len() as int), seeded(rng, n, room).list, turns)[i]),
{
    let old_ones = stars_left(stars, d, stars.len() as int);
    lemma_left_near(stars, d, stars.len() as int);
    lemma_seed_radius(rng, n, room);
    if i < old_ones.len() {
        assert(star_near(old_ones[i]));
    } else {
        let k = i - old_ones.len();
        assert(is_part(seeded(rng, n, room).list[k].radius));
        assert(turns[k].cos.within(-F32::unit(), F32::unit()));
        lemma_near(turns[k].cos, seeded(rng, n, room).list[k].radius);
        lemma_near(turns[k].sin, seeded(rng, n, room).list[k].radius);
    }
}

} // verus!
