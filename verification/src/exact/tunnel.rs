//! The tunnel: how rings and stars are born, move, shine and leave.

use crate::dsp::is_part;
use crate::float::laws::{lemma_add_order, lemma_half, lemma_mul_order, lemma_one};
use crate::float::repr::lemma_mag_units_order;
use crate::float::value::{
    clip, close, lemma_close_add, lemma_close_div, lemma_close_mul, lemma_close_part, lemma_close_sub, lemma_constants,
    lemma_size_mul, lemma_value_index, lemma_value_le, lemma_value_order, lemma_value_part, lemma_value_quotient,
    lemma_value_unsigned, lemma_value_whole, size,
};
use crate::float::F32;
use crate::render::curve::Point;
use crate::render::drift::is_drive;
use crate::render::levels::Drive;
use crate::render::paint::part_of;
use crate::render::radial::Turn;
use crate::render::tunnel::{
    brightness, emission, grown, growth, newborn, rate, ring_death, ring_due, ring_line, ring_point, ring_tint,
    ring_value, ring_width, rings_left, spin, spread, star_count, star_growth, stars_left, RingView, Star,
};
use vstd::prelude::*;

verus! {

/// What bass and punch, as parts of one, make of three constants while sound is let through.
pub open spec fn driven(base: real, bass: real, punch: real, d: Drive) -> real {
    (base + d.bass.value() * bass + d.punch.value() * punch) * d.gate.value()
}

/// A rate is what bass and punch make of its constants.
proof fn lemma_rate(a: F32, b: F32, c: F32, x: real, y: real, z: real, d: Drive)
    requires
        is_drive(d),
        close(a, x, 1real / 1000000real),
        close(b, y, 1real / 1000000real),
        close(c, z, 1real / 1000000real),
        0real <= x <= 6real,
        0real <= y <= 6real,
        0real <= z <= 6real,
    ensures
        close((a + d.bass * b + d.punch * c) * d.gate, driven(x, y, z, d), 1real / 100000real),
        0real <= driven(x, y, z, d) <= x + y + z,
{
    lemma_value_part(d.bass);
    lemma_value_part(d.punch);
    lemma_value_part(d.gate);
    let u = d.bass.value();
    let v = d.punch.value();
    let g = d.gate.value();
    let e = 1real / 1000000real;
    assert(0real <= u * y <= y && 0real <= v * z <= z) by (nonlinear_arith)
        requires 0real <= u <= 1real, 0real <= v <= 1real, y >= 0real, z >= 0real;
    lemma_close_mul(d.bass, b, u, y, 0real, e, 1real, 6real);
    lemma_close_mul(d.punch, c, v, z, 0real, e, 1real, 6real);
    lemma_close_add(a, d.bass * b, x, u * y, e, 2real / 1000000real);
    lemma_close_add(a + d.bass * b, d.punch * c, x + u * y, v * z, 4real / 1000000real, 2real / 1000000real);
    let s = x + u * y + v * z;
    assert(0real <= s * g <= s) by (nonlinear_arith)
        requires 0real <= g <= 1real, s >= 0real;
    lemma_close_mul(a + d.bass * b + d.punch * c, d.gate, s, g, 8real / 1000000real, 0real, 18real, 1real);
}

/// A constant to which a rate is added.
proof fn lemma_above_one(n: int, d: int, r: F32, v: real)
    requires
        0 < n < 100,
        d == 1000,
        close(r, v, 1real / 100000real),
        0real <= v <= 1real,
    ensures
        close(F32::unit() + F32::quotient(n, d) + r, 1real + n as real / 1000real + v, 1real / 50000real),
{
    lemma_constants();
    lemma_value_quotient(n, d);
    let x = n as real / 1000real;
    lemma_close_add(F32::unit(), F32::quotient(n, d), 1real, x, 0real, 1real / 1000000real);
    lemma_close_add(
        F32::unit() + F32::quotient(n, d),
        r,
        1real + x,
        v,
        2real / 1000000real,
        1real / 100000real,
    );
}

/// Rings grow by 6 thousandths a frame, and by more the stronger bass and punch are.
pub proof fn law_rings_grow_with_bass_and_punch(d: Drive)
    requires
        is_drive(d),
    ensures
        close(
            growth(d),
            1real + 6real / 1000real + driven(15real / 1000real, 30real / 1000real, 15real / 100real, d),
            1real / 50000real,
        ),
        close(spin(d), driven(5real / 1000real, 16real / 1000real, 6real / 100real, d), 1real / 100000real),
        close(emission(d), driven(75real / 1000real, 10real / 100real, 35real / 100real, d), 1real / 100000real),
        close(
            star_growth(d),
            1real + 4real / 1000real + driven(26real / 1000real, 55real / 1000real, 10real / 100real, d),
            1real / 50000real,
        ),
{
    lemma_value_quotient(15, 1000);
    lemma_value_quotient(30, 1000);
    lemma_value_quotient(15, 100);
    lemma_value_quotient(5, 1000);
    lemma_value_quotient(16, 1000);
    lemma_value_quotient(6, 100);
    lemma_value_quotient(75, 1000);
    lemma_value_quotient(10, 100);
    lemma_value_quotient(35, 100);
    lemma_value_quotient(26, 1000);
    lemma_value_quotient(55, 1000);
    lemma_rate(
        F32::quotient(15, 1000),
        F32::quotient(30, 1000),
        F32::quotient(15, 100),
        15real / 1000real,
        30real / 1000real,
        15real / 100real,
        d,
    );
    lemma_rate(
        F32::quotient(5, 1000),
        F32::quotient(16, 1000),
        F32::quotient(6, 100),
        5real / 1000real,
        16real / 1000real,
        6real / 100real,
        d,
    );
    lemma_rate(
        F32::quotient(75, 1000),
        F32::quotient(10, 100),
        F32::quotient(35, 100),
        75real / 1000real,
        10real / 100real,
        35real / 100real,
        d,
    );
    lemma_rate(
        F32::quotient(26, 1000),
        F32::quotient(55, 1000),
        F32::quotient(10, 100),
        26real / 1000real,
        55real / 1000real,
        10real / 100real,
        d,
    );
    lemma_above_one(
        6,
        1000,
        (F32::quotient(15, 1000) + d.bass * F32::quotient(30, 1000) + d.punch * F32::quotient(15, 100)) * d.gate,
        driven(15real / 1000real, 30real / 1000real, 15real / 100real, d),
    );
    lemma_above_one(
        4,
        1000,
        (F32::quotient(26, 1000) + d.bass * F32::quotient(55, 1000) + d.punch * F32::quotient(10, 100)) * d.gate,
        driven(26real / 1000real, 55real / 1000real, 10real / 100real, d),
    );
}

/// Two stars appear a frame, up to six more with the bass and four more with the punch:
/// the whole number below that.
pub proof fn law_stars_appear_with_bass_and_punch(d: Drive)
    requires
        is_drive(d),
    ensures
        star_count(d) as real <= driven(2real, 6real, 4real, d) + 1real / 100000real,
        driven(2real, 6real, 4real, d) - 1real / 100000real < star_count(d) as real + 1real,
        0 <= star_count(d) <= 12,
{
    lemma_constants();
    lemma_value_whole(2);
    lemma_value_whole(6);
    lemma_value_whole(4);
    lemma_rate(F32::whole(2), F32::whole(6), F32::whole(4), 2real, 6real, 4real, d);
    let x = (F32::whole(2) + d.bass * F32::whole(6) + d.punch * F32::whole(4)) * d.gate;
    let v = driven(2real, 6real, 4real, d);
    if x.value() >= 0real {
        lemma_value_index(x);
    } else {
        lemma_value_le(x, F32::nought());
        lemma_one();
        lemma_value_order(x, F32::nought());
        reveal(F32::index);
        lemma_mag_units_order(0, x.mag());
    }
    assert(v <= 12real);
}

/// The tint of a ring is the bass and half the punch at its birth, at most one.
pub proof fn law_tint_is_the_beat(d: Drive)
    requires
        is_drive(d),
    ensures
        close(ring_tint(d), clip(d.bass.value() + d.punch.value() / 2real, 0real, 1real), 1real / 1000000real),
        d.bass.value() + d.punch.value() / 2real >= 1real + 1real / 1000000real ==> ring_tint(d).value() == 1real,
{
    lemma_constants();
    lemma_value_part(d.bass);
    lemma_value_part(d.punch);
    let u = d.bass.value();
    let v = d.punch.value();
    lemma_close_mul(d.punch, F32::half_unit(), v, 1real / 2real, 0real, 0real, 1real, 1real / 2real);
    let h = d.punch * F32::half_unit();
    lemma_close_add(d.bass, h, u, v * (1real / 2real), 0real, 1real / 10000000real);
    let s = d.bass + h;
    lemma_close_part(s, u + v / 2real, 1real / 1000000real);
    lemma_value_part(s);
}

/// A stronger beat never gets a lower tint.
pub proof fn law_stronger_beat_has_no_lower_tint(d: Drive, e: Drive)
    requires
        is_drive(d),
        is_drive(e),
        d.bass.le(e.bass),
        d.punch.le(e.punch),
    ensures
        ring_tint(d).le(ring_tint(e)),
{
    lemma_constants();
    lemma_one();
    lemma_half();
    lemma_value_part(d.bass);
    lemma_value_part(d.punch);
    lemma_value_part(e.bass);
    lemma_value_part(e.punch);
    let h = F32::half_unit();
    assert(d.punch.units() * h.units() <= e.punch.units() * h.units()) by (nonlinear_arith)
        requires d.punch.units() <= e.punch.units(), h.units() >= 0;
    lemma_mul_order(d.punch, h, e.punch, h);
    lemma_close_mul(d.punch, h, d.punch.value(), 1real / 2real, 0real, 0real, 1real, 1real / 2real);
    lemma_close_mul(e.punch, h, e.punch.value(), 1real / 2real, 0real, 0real, 1real, 1real / 2real);
    lemma_add_order(d.bass, d.punch * h, e.bass, e.punch * h);
}

/// A ring is born small, unturned, with the shape of the spectrum and the tint of the beat.
pub proof fn law_ring_is_born_small(d: Drive, shape: Seq<Point>)
    requires
        is_drive(d),
    ensures
        newborn(d, shape).shape == shape,
        close(newborn(d, shape).scale, 5real / 100real, 1real / 10000000real),
        newborn(d, shape).angle.value() == 0real,
        close(
            newborn(d, shape).tint,
            clip(d.bass.value() + d.punch.value() / 2real, 0real, 1real),
            1real / 1000000real,
        ),
{
    lemma_constants();
    lemma_value_quotient(5, 100);
    law_tint_is_the_beat(d);
}

/// A ring is due once what was saved up reaches one, unless there is silence.
pub proof fn law_ring_is_due_at_one(emit: F32, d: Drive)
    requires
        is_part(emit),
        is_drive(d),
    ensures
        ring_due(emit, d) ==> d.gate.value() > 0real && emit.value() + driven(
            75real / 1000real,
            10real / 100real,
            35real / 100real,
            d,
        ) >= 1real - 1real / 50000real,
        d.gate.value() > 0real && emit.value() + driven(75real / 1000real, 10real / 100real, 35real / 100real, d)
            >= 1real + 1real / 50000real ==> ring_due(emit, d),
        close(
            emit + emission(d),
            emit.value() + driven(75real / 1000real, 10real / 100real, 35real / 100real, d),
            1real / 50000real,
        ),
{
    lemma_constants();
    law_rings_grow_with_bass_and_punch(d);
    lemma_value_part(emit);
    lemma_value_part(d.gate);
    let v = driven(75real / 1000real, 10real / 100real, 35real / 100real, d);
    lemma_driven_bounds(75real / 1000real, 10real / 100real, 35real / 100real, d);
    lemma_close_add(emit, emission(d), emit.value(), v, 0real, 1real / 100000real);
    lemma_value_le(F32::unit(), emit + emission(d));
    lemma_value_le(F32::nought(), d.gate);
}

/// What bass and punch make of constants lies below their sum.
proof fn lemma_driven_bounds(x: real, y: real, z: real, d: Drive)
    requires
        is_drive(d),
        0real <= x,
        0real <= y,
        0real <= z,
    ensures
        0real <= driven(x, y, z, d) <= x + y + z,
{
    lemma_value_part(d.bass);
    lemma_value_part(d.punch);
    lemma_value_part(d.gate);
    let u = d.bass.value();
    let v = d.punch.value();
    let g = d.gate.value();
    assert(0real <= u * y <= y && 0real <= v * z <= z) by (nonlinear_arith)
        requires 0real <= u <= 1real, 0real <= v <= 1real, y >= 0real, z >= 0real;
    let s = x + u * y + v * z;
    assert(0real <= s * g <= s) by (nonlinear_arith)
        requires 0real <= g <= 1real, s >= 0real;
}

/// In a frame a ring grows and turns, and keeps its shape and its tint.
pub proof fn law_ring_keeps_shape_and_tint(r: RingView, d: Drive)
    requires
        is_drive(d),
        r.scale.finite(),
        0real <= r.scale.value() <= 2real,
        r.angle.finite(),
        size(r.angle.value()) <= 1000real,
    ensures
        grown(r, d).shape == r.shape,
        grown(r, d).tint == r.tint,
        close(
            grown(r, d).scale,
            r.scale.value() * (1real + 6real / 1000real + driven(15real / 1000real, 30real / 1000real, 15real / 100real, d)),
            1real / 10000real,
        ),
        close(
            grown(r, d).angle,
            r.angle.value() + driven(5real / 1000real, 16real / 1000real, 6real / 100real, d),
            1real / 10000real,
        ),
{
    law_rings_grow_with_bass_and_punch(d);
    let g = 1real + 6real / 1000real + driven(15real / 1000real, 30real / 1000real, 15real / 100real, d);
    lemma_driven_bounds(15real / 1000real, 30real / 1000real, 15real / 100real, d);
    lemma_driven_bounds(5real / 1000real, 16real / 1000real, 6real / 100real, d);
    lemma_close_mul(r.scale, growth(d), r.scale.value(), g, 0real, 1real / 50000real, 2real, 2real);
    lemma_close_add(
        r.angle,
        spin(d),
        r.angle.value(),
        driven(5real / 1000real, 16real / 1000real, 6real / 100real, d),
        0real,
        1real / 100000real,
    );
}

/// The rings that are left are those that have not grown past 1.85, each grown by one
/// frame, in their order.
pub proof fn law_rings_grow_until_they_leave(rings: Seq<RingView>, d: Drive, n: int)
    requires
        0 <= n <= rings.len(),
        forall|i: int| 0 <= i < n ==> !(#[trigger] rings[i]).scale.nan() && !grown(rings[i], d).scale.nan(),
    ensures
        forall|k: int| 0 <= k < rings_left(rings, d, n).len() ==> exists|i: int|
            0 <= i < n && #[trigger] rings_left(rings, d, n)[k] == grown(#[trigger] rings[i], d),
        forall|k: int|
            0 <= k < rings_left(rings, d, n).len() ==> (#[trigger] rings_left(rings, d, n)[k]).scale.value() < 185real
                / 100real + 1real / 1000000real,
        forall|i: int|
            0 <= i < n && grown(#[trigger] rings[i], d).scale.value() < 185real / 100real - 1real / 1000000real
                ==> rings_left(rings, d, n).contains(grown(rings[i], d)),
        rings_left(rings, d, n).len() <= n,
    decreases n,
{
    lemma_value_quotient(185, 100);
    if n > 0 {
        law_rings_grow_until_they_leave(rings, d, n - 1);
        let before = rings_left(rings, d, n - 1);
        let now = rings_left(rings, d, n);
        let r = grown(rings[n - 1], d);
        assert(!rings[n - 1].scale.nan());
        lemma_value_le(r.scale, ring_death());
        assert forall|k: int| 0 <= k < now.len() implies exists|i: int|
            0 <= i < n && #[trigger] now[k] == grown(#[trigger] rings[i], d) by {
            if k < before.len() {
                assert(now[k] == before[k]);
                let i = choose|i: int| 0 <= i < n - 1 && before[k] == grown(#[trigger] rings[i], d);
                assert(now[k] == grown(rings[i], d));
            } else {
                assert(now[k] == grown(rings[n - 1], d));
            }
        }
        assert forall|k: int| 0 <= k < now.len() implies (#[trigger] now[k]).scale.value() < 185real / 100real + 1real
            / 1000000real by {
            if k < before.len() {
                assert(now[k] == before[k]);
            }
        }
        assert forall|i: int|
            0 <= i < n && grown(#[trigger] rings[i], d).scale.value() < 185real / 100real - 1real
                / 1000000real implies now.contains(grown(rings[i], d)) by {
            if i < n - 1 {
                assert(before.contains(grown(rings[i], d)));
                let k = choose|k: int| 0 <= k < before.len() && before[k] == grown(rings[i], d);
                assert(now[k] == grown(rings[i], d));
            } else {
                assert(now[now.len() - 1] == r);
            }
        }
    }
}

/// A point of a ring stands at 72 hundredths and up to 55 more, as its band is loud.
pub proof fn law_ring_shape_follows_the_spectrum(left: Seq<F32>, right: Seq<F32>, turns: Seq<Turn>, j: int)
    requires
        0 <= j < 64,
        left.len() == 64,
        right.len() == 64,
        is_part(ring_value(left, right, j)),
        turns[j].cos.finite(),
        turns[j].sin.finite(),
        size(turns[j].cos.value()) <= 1real,
        size(turns[j].sin.value()) <= 1real,
    ensures
        close(
            ring_point(left, right, turns, j).0,
            turns[j].cos.value() * (72real / 100real + ring_value(left, right, j).value() * (55real / 100real)),
            1real / 100000real,
        ),
        close(
            ring_point(left, right, turns, j).1,
            turns[j].sin.value() * (72real / 100real + ring_value(left, right, j).value() * (55real / 100real)),
            1real / 100000real,
        ),
        j < 32 ==> ring_value(left, right, j) == right[2 * j],
        j >= 32 ==> ring_value(left, right, j) == left[126 - 2 * j],
{
    lemma_constants();
    let h = ring_value(left, right, j);
    lemma_value_part(h);
    lemma_value_quotient(72, 100);
    lemma_value_quotient(55, 100);
    let v = h.value();
    let p = part_of(h);
    assert(0real <= v * (55real / 100real) <= 55real / 100real);
    lemma_close_mul(p, F32::quotient(55, 100), v, 55real / 100real, 0real, 1real / 10000000real, 1real, 55real / 100real);
    let m = p * F32::quotient(55, 100);
    lemma_close_add(
        F32::quotient(72, 100),
        m,
        72real / 100real,
        v * (55real / 100real),
        1real / 10000000real,
        2real / 10000000real,
    );
    let r = F32::quotient(72, 100) + m;
    let e = 72real / 100real + v * (55real / 100real);
    lemma_close_mul(turns[j].cos, r, turns[j].cos.value(), e, 0real, 1real / 1000000real, 1real, 127real / 100real);
    lemma_close_mul(turns[j].sin, r, turns[j].sin.value(), e, 0real, 1real / 1000000real, 1real, 127real / 100real);
}

/// A ring comes up from nothing at its birth, is fully bright from 28 hundredths, and
/// fades from 1.1 to where it leaves.
pub proof fn law_rings_fade_in_and_out(scale: F32)
    requires
        scale.finite(),
        0real <= scale.value() <= 2real,
    ensures
        close(
            brightness(scale),
            clip(scale.value() / (28real / 100real), 0real, 1real) * clip(
                (185real / 100real - scale.value()) / (75real / 100real),
                0real,
                1real,
            ),
            1real / 100000real,
        ),
{
    lemma_value_quotient(28, 100);
    lemma_value_quotient(185, 100);
    lemma_value_quotient(75, 100);
    let s = scale.value();
    let a = scale / F32::quotient(28, 100);
    lemma_close_div(scale, F32::quotient(28, 100), s, 28real / 100real, 0real, 1real / 10000000real, 8real, 28real / 100real);
    lemma_close_part(a, s / (28real / 100real), 5real / 1000000real);
    let b = ring_death() - scale;
    lemma_close_sub(ring_death(), scale, 185real / 100real, s, 2real / 10000000real, 0real);
    let c = b / F32::quotient(75, 100);
    lemma_close_div(
        b,
        F32::quotient(75, 100),
        185real / 100real - s,
        75real / 100real,
        4real / 10000000real,
        1real / 10000000real,
        3real,
        75real / 100real,
    );
    lemma_close_part(c, (185real / 100real - s) / (75real / 100real), 2real / 1000000real);
    lemma_close_mul(
        part_of(a),
        part_of(c),
        clip(s / (28real / 100real), 0real, 1real),
        clip((185real / 100real - s) / (75real / 100real), 0real, 1real),
        5real / 1000000real,
        2real / 1000000real,
        1real,
        1real,
    );
}

/// The points of a ring are turned by its angle and spread by its scale.
pub proof fn law_ring_points_are_turned_and_spread(r: RingView, t: Turn, i: int)
    requires
        0 <= i < r.shape.len(),
        r.scale.finite(),
        0real <= r.scale.value() <= 2real,
        r.shape[i].0.finite(),
        r.shape[i].1.finite(),
        size(r.shape[i].0.value()) <= 2real,
        size(r.shape[i].1.value()) <= 2real,
        t.cos.finite(),
        t.sin.finite(),
        size(t.cos.value()) <= 1real,
        size(t.sin.value()) <= 1real,
    ensures
        ring_line(r, t).len() == r.shape.len(),
        close(
            ring_line(r, t)[i].0,
            (r.shape[i].0.value() * t.cos.value() - r.shape[i].1.value() * t.sin.value()) * r.scale.value(),
            1real / 100000real,
        ),
        close(
            ring_line(r, t)[i].1,
            (r.shape[i].0.value() * t.sin.value() + r.shape[i].1.value() * t.cos.value()) * r.scale.value(),
            1real / 100000real,
        ),
{
    let p = r.shape[i];
    let (x, y) = (p.0.value(), p.1.value());
    let (c, s) = (t.cos.value(), t.sin.value());
    let k = r.scale.value();
    let e = 3real / 10000000real;
    lemma_close_mul(p.0, t.cos, x, c, 0real, 0real, 2real, 1real);
    lemma_close_mul(p.1, t.sin, y, s, 0real, 0real, 2real, 1real);
    lemma_close_mul(p.0, t.sin, x, s, 0real, 0real, 2real, 1real);
    lemma_close_mul(p.1, t.cos, y, c, 0real, 0real, 2real, 1real);
    lemma_size_mul(x, c, 2real, 1real);
    lemma_size_mul(y, s, 2real, 1real);
    lemma_size_mul(x, s, 2real, 1real);
    lemma_size_mul(y, c, 2real, 1real);
    lemma_close_sub(p.0 * t.cos, p.1 * t.sin, x * c, y * s, e, e);
    lemma_close_add(p.0 * t.sin, p.1 * t.cos, x * s, y * c, e, e);
    lemma_close_mul(p.0 * t.cos - p.1 * t.sin, r.scale, x * c - y * s, k, 1real / 1000000real, 0real, 4real, 2real);
    lemma_close_mul(p.0 * t.sin + p.1 * t.cos, r.scale, x * s + y * c, k, 1real / 1000000real, 0real, 4real, 2real);
}

/// Rings are drawn the wider the nearer they come.
pub proof fn law_rings_widen(r: RingView)
    requires
        r.scale.finite(),
        0real <= r.scale.value() <= 2real,
    ensures
        close(ring_width(r), (12real / 1000real) * (35real / 100real + r.scale.value()), 1real / 1000000real),
{
    lemma_value_quotient(12, 1000);
    lemma_value_quotient(35, 100);
    let s = r.scale.value();
    lemma_close_add(F32::quotient(35, 100), r.scale, 35real / 100real, s, 1real / 10000000real, 0real);
    lemma_close_mul(
        F32::quotient(12, 1000),
        F32::quotient(35, 100) + r.scale,
        12real / 1000real,
        35real / 100real + s,
        1real / 100000000real,
        1real / 1000000real,
        12real / 1000real,
        3real,
    );
}

/// Stars move away from the middle, faster with bass and punch, and keep their tint.
pub proof fn law_stars_move_outwards(s: Star, d: Drive)
    requires
        is_drive(d),
        s.x.finite(),
        s.y.finite(),
        size(s.x.value()) <= 2real,
        size(s.y.value()) <= 2real,
    ensures
        spread(s, d).t == s.t,
        close(
            spread(s, d).x,
            s.x.value() * (1real + 4real / 1000real + driven(26real / 1000real, 55real / 1000real, 10real / 100real, d)),
            1real / 10000real,
        ),
        close(
            spread(s, d).y,
            s.y.value() * (1real + 4real / 1000real + driven(26real / 1000real, 55real / 1000real, 10real / 100real, d)),
            1real / 10000real,
        ),
{
    law_rings_grow_with_bass_and_punch(d);
    let g = 1real + 4real / 1000real + driven(26real / 1000real, 55real / 1000real, 10real / 100real, d);
    lemma_driven_bounds(26real / 1000real, 55real / 1000real, 10real / 100real, d);
    lemma_close_mul(s.x, star_growth(d), s.x.value(), g, 0real, 1real / 50000real, 2real, 2real);
    lemma_close_mul(s.y, star_growth(d), s.y.value(), g, 0real, 1real / 50000real, 2real, 2real);
}

/// The stars that are left are those still within 1.7 of the middle both ways, each moved
/// by one frame.
pub proof fn law_stars_move_until_they_leave(stars: Seq<Star>, d: Drive, n: int)
    requires
        0 <= n <= stars.len(),
        forall|i: int|
            0 <= i < n ==> !spread(#[trigger] stars[i], d).x.nan() && !spread(stars[i], d).y.nan(),
    ensures
        forall|k: int| 0 <= k < stars_left(stars, d, n).len() ==> exists|i: int|
            0 <= i < n && #[trigger] stars_left(stars, d, n)[k] == spread(#[trigger] stars[i], d),
        forall|i: int|
            0 <= i < n && size(spread(#[trigger] stars[i], d).x.value()) < 17real / 10real - 1real / 1000000real
                && size(spread(stars[i], d).y.value()) < 17real / 10real - 1real / 1000000real ==> stars_left(
                stars,
                d,
                n,
            ).contains(spread(stars[i], d)),
        forall|k: int|
            0 <= k < stars_left(stars, d, n).len() ==> size((#[trigger] stars_left(stars, d, n)[k]).x.value()) < 17real
                / 10real + 1real / 1000000real && size(stars_left(stars, d, n)[k].y.value()) < 17real / 10real + 1real
                / 1000000real,
    decreases n,
{
    lemma_value_quotient(17, 10);
    if n > 0 {
        law_stars_move_until_they_leave(stars, d, n - 1);
        let before = stars_left(stars, d, n - 1);
        let now = stars_left(stars, d, n);
        let s = spread(stars[n - 1], d);
        assert(!spread(stars[n - 1], d).x.nan());
        lemma_value_unsigned(s.x);
        lemma_value_unsigned(s.y);
        lemma_value_le(s.x.unsigned(), F32::quotient(17, 10));
        lemma_value_le(s.y.unsigned(), F32::quotient(17, 10));
        assert forall|k: int| 0 <= k < now.len() implies exists|i: int|
            0 <= i < n && #[trigger] now[k] == spread(#[trigger] stars[i], d) by {
            if k < before.len() {
                assert(now[k] == before[k]);
                let i = choose|i: int| 0 <= i < n - 1 && before[k] == spread(#[trigger] stars[i], d);
                assert(now[k] == spread(stars[i], d));
            } else {
                assert(now[k] == spread(stars[n - 1], d));
            }
        }
        assert forall|k: int| 0 <= k < now.len() implies size((#[trigger] now[k]).x.value()) < 17real / 10real + 1real
            / 1000000real && size(now[k].y.value()) < 17real / 10real + 1real / 1000000real by {
            if k < before.len() {
                assert(now[k] == before[k]);
            }
        }
        assert forall|i: int|
            0 <= i < n && size(spread(#[trigger] stars[i], d).x.value()) < 17real / 10real - 1real / 1000000real
                && size(spread(stars[i], d).y.value()) < 17real / 10real - 1real
                / 1000000real implies now.contains(spread(stars[i], d)) by {
            if i < n - 1 {
                assert(before.contains(spread(stars[i], d)));
                let k = choose|k: int| 0 <= k < before.len() && before[k] == spread(stars[i], d);
                assert(now[k] == spread(stars[i], d));
            } else {
                assert(now[now.len() - 1] == s);
            }
        }
    }
}

} // verus!
