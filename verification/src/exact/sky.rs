//! The light of the tunnel: its rings and its stars, and where stars begin.

use crate::dsp::is_part;
use crate::exact::line::is_length;
use crate::exact::motion::lemma_lit;
use crate::exact::paint::{is_color, law_mixture_is_weighted};
use crate::exact::shapes::is_turn;
use crate::exact::stage::lemma_circle_values;
use crate::exact::stereo::full_turn;
use crate::float::laws::{lemma_one, one_units};
use crate::float::value::{
    apart, clip, close, lemma_close_add, lemma_close_div, lemma_close_mul, lemma_close_part, lemma_close_sub,
    lemma_constants, lemma_value_add, lemma_value_clamped, lemma_value_larger, lemma_value_le, lemma_value_mul,
    lemma_value_order, lemma_value_part, lemma_value_quotient, lemma_value_root, size,
};
use crate::float::F32;
use crate::render::paint::{part_of, Palette};
use crate::render::radial::Turn;
use crate::render::ribbon::{ribbon, stitched};
use crate::render::rng::{below_one, fraction, law_fraction_is_below_one, shuffled};
use crate::render::tunnel::{
    brightness, lit, ring_color, ring_line, ring_shows, ring_width, rings_strip, seeded, star_point, RingView, Star,
    StarSeed,
};
use crate::stereo::tau;
use vstd::arithmetic::power2::{lemma2_to64, lemma_pow2_adds, lemma_pow2_pos, pow2};
use vstd::prelude::*;

verus! {

/// A ring has the colour of its beat, as bright as it shines.
pub proof fn law_rings_have_the_colour_of_their_beat(r: RingView, p: Palette)
    requires
        is_color(p.color_a),
        is_color(p.color_b),
        r.tint.finite(),
        is_part(brightness(r.scale)),
    ensures
        ({
            let w = clip(r.tint.value(), 0real, 1real);
            let k = brightness(r.scale).value();
            let c = ring_color(r, p);
            let (a, b) = (p.color_a, p.color_b);
            let e = 1real / 50000real;
            &&& close(c.r, (a.r.value() + (b.r.value() - a.r.value()) * w) * k, e)
            &&& close(c.g, (a.g.value() + (b.g.value() - a.g.value()) * w) * k, e)
            &&& close(c.b, (a.b.value() + (b.b.value() - a.b.value()) * w) * k, e)
        }),
{
    lemma_constants();
    lemma_value_part(brightness(r.scale));
    lemma_value_clamped(r.tint, F32::nought(), F32::unit());
    lemma_value_part(part_of(r.tint));
    lemma_lit(p.color_a, p.color_b, part_of(r.tint), brightness(r.scale), brightness(r.scale).value());
}

/// Every ring that shines is drawn as a closed ribbon in its own colour and width, after
/// those before it; the others leave no trace.
pub proof fn law_shining_rings_are_drawn(
    rings: Seq<RingView>,
    turns: Seq<Turn>,
    n: int,
    p: Palette,
    inv_aspect: F32,
)
    requires
        0 < n <= rings.len(),
        n <= turns.len(),
    ensures
        ({
            let before = rings_strip(rings, turns, n - 1, p, inv_aspect);
            let all = rings_strip(rings, turns, n, p, inv_aspect);
            let r = rings[n - 1];
            let k = r.shape.len() as int;
            let strip = ribbon(
                ring_line(r, turns[n - 1]),
                Seq::new(r.shape.len(), |i: int| ring_color(r, p)),
                Seq::new(r.shape.len(), |i: int| ring_width(r)),
                true,
                inv_aspect,
            );
            &&& ring_shows(r) ==> strip.len() == 2 * k + 2
            &&& ring_shows(r) ==> all.len() >= before.len() + 2 * k + 2
            &&& ring_shows(r) ==> all.subrange(all.len() - strip.len(), all.len() as int) == strip
            &&& all.subrange(0, before.len() as int) == before
            &&& !ring_shows(r) ==> all == before
        }),
{
    let before = rings_strip(rings, turns, n - 1, p, inv_aspect);
    let all = rings_strip(rings, turns, n, p, inv_aspect);
    let r = rings[n - 1];
    let strip = ribbon(
        ring_line(r, turns[n - 1]),
        Seq::new(r.shape.len(), |i: int| ring_color(r, p)),
        Seq::new(r.shape.len(), |i: int| ring_width(r)),
        true,
        inv_aspect,
    );
    if ring_shows(r) {
        assert(all == stitched(before, strip));
        assert(all.subrange(all.len() - strip.len(), all.len() as int) =~= strip);
    }
    assert(all.subrange(0, before.len() as int) =~= before);
}

/// A ring shines where it has a shape and its brightness is above a trace.
pub proof fn law_rings_shine_above_a_trace(r: RingView)
    requires
        r.shape.len() >= 3,
        is_part(brightness(r.scale)),
    ensures
        brightness(r.scale).value() >= 2001real / 1000000real ==> ring_shows(r),
        brightness(r.scale).value() <= 1999real / 1000000real ==> !ring_shows(r),
{
    lemma_value_part(brightness(r.scale));
    lemma_value_quotient(2, 1000);
    lemma_value_le(brightness(r.scale), F32::quotient(2, 1000));
}

/// A star is faint near the vanishing point and fades towards the border, by how far it
/// is from the middle.
pub proof fn law_stars_fade_at_both_ends(s: Star, p: Palette, inv_aspect: F32) -> (len: real)
    requires
        s.x.finite(),
        s.y.finite(),
        size(s.x.value()) <= 2real,
        size(s.y.value()) <= 2real,
        s.x.value() * s.x.value() + s.y.value() * s.y.value() >= 1real / 10000real,
        is_color(p.color_a),
        is_color(p.color_b),
        is_part(s.t),
    ensures
        is_length(len, s.x.value(), s.y.value()),
        ({
            let v = star_point(s, p, inv_aspect);
            let w = s.t.value();
            let (a, b) = (p.color_a, p.color_b);
            let e = 1real / 500000real;
            &&& v.x == s.x * inv_aspect
            &&& v.y == s.y
            &&& close(
                v.a,
                clip(len / (35real / 100real), 0real, 1real) * clip((16real / 10real - len) * 2real, 0real, 1real),
                1real / 100000real,
            )
            &&& close(v.r, a.r.value() + (b.r.value() - a.r.value()) * w, e)
            &&& close(v.g, a.g.value() + (b.g.value() - a.g.value()) * w, e)
            &&& close(v.b, a.b.value() + (b.b.value() - a.b.value()) * w, e)
        }),
{
    law_mixture_is_weighted(p.color_a, p.color_b, s.t);
    lemma_distance(s);
    let r = (s.x * s.x + s.y * s.y).root();
    lemma_star_light(r);
    r.value()
}

/// How far a star is from the middle.
proof fn lemma_distance(s: Star)
    requires
        s.x.finite(),
        s.y.finite(),
        size(s.x.value()) <= 2real,
        size(s.y.value()) <= 2real,
        s.x.value() * s.x.value() + s.y.value() * s.y.value() >= 1real / 10000real,
    ensures
        ({
            let r = (s.x * s.x + s.y * s.y).root();
            &&& r.finite()
            &&& 0real < r.value() <= 3real
            &&& is_length(r.value(), s.x.value(), s.y.value())
        }),
{
    let x = s.x.value();
    let y = s.y.value();
    assert(0real <= x * x <= 4real && 0real <= y * y <= 4real) by (nonlinear_arith)
        requires -2real <= x <= 2real, -2real <= y <= 2real;
    lemma_value_mul(s.x, s.x);
    lemma_value_mul(s.y, s.y);
    let q = s.x * s.x + s.y * s.y;
    lemma_value_add(s.x * s.x, s.y * s.y);
    lemma_value_root(q);
    let r = q.root().value();
    assert(r <= 3real) by (nonlinear_arith)
        requires r * r <= 9real, r > 0real;
}

/// The light of a star at a distance.
proof fn lemma_star_light(r: F32)
    requires
        r.finite(),
        0real < r.value() <= 3real,
    ensures
        close(
            part_of(r / F32::quotient(35, 100)) * part_of((F32::quotient(16, 10) - r) / F32::half_unit()),
            clip(r.value() / (35real / 100real), 0real, 1real) * clip(
                (16real / 10real - r.value()) * 2real,
                0real,
                1real,
            ),
            1real / 100000real,
        ),
{
    lemma_constants();
    lemma_value_quotient(35, 100);
    lemma_value_quotient(16, 10);
    let v = r.value();
    let k = F32::quotient(35, 100);
    let c = 35real / 100real;
    lemma_close_div(r, k, v, c, 0real, 3real / 100000000real, 9real, c);
    let e = 1real / 500000real;
    lemma_close_part(r / k, v / c, e);
    let d = F32::quotient(16, 10) - r;
    lemma_close_sub(F32::quotient(16, 10), r, 16real / 10real, v, 1real / 10000000real, 0real);
    let h = 1real / 2real;
    let u = 16real / 10real - v;
    lemma_close_div(d, F32::half_unit(), u, h, 3real / 10000000real, 0real, 4real, h);
    assert(u / h == u * 2real);
    lemma_close_part(d / F32::half_unit(), u * 2real, e);
    let a = clip(v / c, 0real, 1real);
    let b = clip(u * 2real, 0real, 1real);
    lemma_close_mul(part_of(r / k), part_of(d / F32::half_unit()), a, b, e, e, 1real, 1real);
}

/// A random number is its state as a part of all states.
pub proof fn law_random_numbers_are_even(x: u32)
    ensures
        close(fraction(x), x as real / 4294967295real, 1real / 4000000real),
        0real <= fraction(x).value() <= 1real,
{
    lemma_value_quotient(x as int, 1);
    lemma_value_quotient(0xFFFF_FFFF, 1);
    let a = F32::whole(x as int);
    let b = F32::whole(0xFFFF_FFFF);
    let v = x as real;
    let w = 4294967295real;
    assert(0real <= v / w <= 1real);
    lemma_close_div(a, b, v, w, 257real, 257real, 1real, w);
    lemma_below_one();
    lemma_value_larger(a / b, below_one());
    law_fraction_is_below_one(x);
    lemma_constants();
    lemma_value_order(F32::nought(), fraction(x));
    lemma_value_order(fraction(x), F32::unit());
}

/// The largest number below one.
proof fn lemma_below_one()
    ensures
        below_one().finite(),
        apart(below_one().value(), 1real) <= 1real / 10000000real,
{
    reveal(F32::value);
    lemma_one();
    lemma2_to64();
    lemma_pow2_pos(125);
    lemma_pow2_adds(125, 24);
    let m = below_one().mag();
    assert(m / 0x80_0000 == 126 && m % 0x80_0000 == 0x7F_FFFF);
    let n = pow2(125) as int;
    assert(below_one().units() == 0xFF_FFFF * n);
    assert(one_units() == n * 0x100_0000);
    assert((0xFF_FFFF * n) as real / (n * 0x100_0000) as real == 16777215real / 16777216real) by (nonlinear_arith)
        requires n > 0;
}

/// As many stars are begun as are due, while there is room.
pub proof fn law_stars_are_begun_while_there_is_room(rng: u32, n: int, room: int)
    requires
        0 <= n,
        0 <= room,
    ensures
        seeded(rng, n, room).list.len() == if n < room {
            n
        } else {
            room
        },
    decreases n,
{
    if n > 0 {
        law_stars_are_begun_while_there_is_room(rng, n - 1, room);
    }
}

/// A star begins anywhere around the vanishing point, from 4 to 9 hundredths away, with
/// any colour: each by a random number of its own.
pub proof fn law_stars_begin_near_the_middle(rng: u32, n: int, room: int, i: int)
    requires
        0 <= i < seeded(rng, n, room).list.len(),
    ensures
        ({
            let s = seeded(rng, n, room).list[i];
            &&& exists|a: u32|
                {
                    &&& close(s.angle, #[trigger] of_states(a) * full_turn(), 1real / 100000real)
                    &&& close(
                        s.radius,
                        4real / 100real + of_states(shuffled(a)) * (5real / 100real),
                        1real / 1000000real,
                    )
                    &&& close(s.t, of_states(shuffled(shuffled(a))), 1real / 4000000real)
                }
        }),
    decreases n,
{
    if n > 0 {
        let before = seeded(rng, n - 1, room);
        if before.list.len() >= room || i < before.list.len() {
            law_stars_begin_near_the_middle(rng, n - 1, room, i);
        } else {
            let a = shuffled(before.rng);
            let b = shuffled(a);
            let c = shuffled(b);
            law_random_numbers_are_even(a);
            law_random_numbers_are_even(b);
            law_random_numbers_are_even(c);
            lemma_value_quotient(4, 100);
            lemma_value_quotient(5, 100);
            lemma_circle_values();
            let e = 1real / 4000000real;
            let u = of_states(a);
            let v = of_states(b);
            lemma_close_mul(fraction(a), tau(), u, full_turn(), e, 0real, 1real, 7real);
            let k = F32::quotient(5, 100);
            let d = 5real / 100real;
            lemma_close_mul(fraction(b), k, v, d, e, 1real / 100000000real, 1real, d);
            lemma_close_add(
                F32::quotient(4, 100),
                fraction(b) * k,
                4real / 100real,
                v * d,
                1real / 100000000real,
                1real / 10000000real,
            );
            assert(close(
                seeded(rng, n, room).list[i].angle,
                of_states(a) * full_turn(),
                1real / 100000real,
            ));
        }
    }
}

/// A state as a part of all states.
pub open spec fn of_states(x: u32) -> real {
    x as real / 4294967295real
}

/// New stars stand where they begin, after those that are there.
pub proof fn law_new_stars_stand_where_they_begin(stars: Seq<Star>, list: Seq<StarSeed>, turns: Seq<Turn>, i: int)
    requires
        0 <= i < list.len() == turns.len(),
        is_turn(turns[i]),
        list[i].radius.finite(),
        0real <= list[i].radius.value() <= 1real,
    ensures
        lit(stars, list, turns).len() == stars.len() + list.len(),
        lit(stars, list, turns).subrange(0, stars.len() as int) == stars,
        ({
            let s = lit(stars, list, turns)[stars.len() + i];
            let r = list[i].radius.value();
            &&& close(s.x, turns[i].cos.value() * r, 1real / 10000000real)
            &&& close(s.y, turns[i].sin.value() * r, 1real / 10000000real)
            &&& s.t == list[i].t
        }),
{
    assert(lit(stars, list, turns).subrange(0, stars.len() as int) =~= stars);
    let r = list[i].radius;
    lemma_close_mul(turns[i].cos, r, turns[i].cos.value(), r.value(), 0real, 0real, 1real, 1real);
    lemma_close_mul(turns[i].sin, r, turns[i].sin.value(), r.value(), 0real, 0real, 1real, 1real);
}

} // verus!
