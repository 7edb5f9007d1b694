//! The stage: where directions stand on it, and how the lobes follow the bands.

use crate::dsp::{is_part, pi};
use crate::exact::paint::law_bands_are_evenly_placed;
use crate::exact::shapes::is_turn;
use crate::exact::stereo::full_turn;
use crate::float::error::{lemma_slack, slack};
use crate::float::laws::{lemma_one, one_units};
use crate::float::round::distance;
use crate::float::value::{
    apart, clip, close, lemma_close_add, lemma_close_div, lemma_close_mul, lemma_close_sub, lemma_constants,
    lemma_size_mul, lemma_value_binary, lemma_value_clamped, lemma_value_div, lemma_value_le, lemma_value_mul,
    lemma_value_neg, lemma_value_order, lemma_value_part, lemma_value_quotient, lemma_value_sub, lemma_value_unsigned,
    lemma_value_whole, size,
};
use crate::float::F32;
use crate::render::imaging::{
    contribution, counts, decay_exponent, diffuse, directed, facing, front_step, img_radius, lobe_energy, lobe_min,
    lobe_moment, lobe_radius, lobe_tint, narrowness, reach, reflected, stage_point, staged, step_angle, tick_angle,
    turn_between,
};
use crate::render::paint::{part_of, ramp};
use crate::render::radial::Turn;
use crate::render::sides::lemma_delta;
use crate::stereo::{is_frontal, quarter, tau, ImagingFrame};
use vstd::arithmetic::power2::{lemma2_to64, lemma_pow2_adds, lemma_pow2_pos, pow2};
use vstd::prelude::*;

verus! {

/// The perspective of what is `y` away from the listener.
pub open spec fn stage_scale(y: real) -> real {
    (36real / 10real) / (36real / 10real + y)
}

/// The perspective lies between three quarters and one and a half.
proof fn lemma_stage_scale(y: real)
    requires
        size(y) <= 1real,
    ensures
        7real / 10real <= stage_scale(y) <= 14real / 10real,
{
    let s = stage_scale(y);
    assert(7real / 10real <= s <= 14real / 10real) by (nonlinear_arith)
        requires s == (36real / 10real) / (36real / 10real + y), -1real <= y <= 1real;
}

/// The plane is seen from above: what is further away is smaller, its depth counts half,
/// and the listener stands a tenth above the middle.
pub proof fn law_stage_is_seen_in_perspective(x: F32, y: F32, u: real, v: real)
    requires
        close(x, u, 7real / 10000000real),
        close(y, v, 7real / 10000000real),
        size(u) <= 1real,
        size(v) <= 1real,
    ensures
        close(staged(x, y).s, stage_scale(v), 1real / 1000000real),
        close(staged(x, y).x, u * stage_scale(v), 1real / 400000real),
        close(staged(x, y).y, v / 2real * stage_scale(v) + 10real / 100real, 1real / 400000real),
        7real / 10real <= stage_scale(v) <= 14real / 10real,
{
    lemma_constants();
    lemma_value_quotient(36, 10);
    lemma_value_quotient(10, 100);
    lemma_stage_scale(v);
    let k = F32::quotient(36, 10);
    let c = 36real / 10real;
    let e = 1real / 10000000real;
    assert(close(k, c, 22real * e / 10real));
    lemma_close_add(k, y, c, v, 22real * e / 10real, 7real * e);
    lemma_close_div(k, k + y, c, c + v, 22real * e / 10real, 12real * e, 14real / 10real, 26real / 10real);
    let s = k / (k + y);
    let r = stage_scale(v);
    assert(close(s, r, 9real * e));
    lemma_close_mul(x, s, u, r, 7real * e, 9real * e, 1real, 14real / 10real);
    let h = F32::half_unit();
    lemma_close_mul(y, h, v, 1real / 2real, 7real * e, 0real, 1real, 1real / 2real);
    assert(v * (1real / 2real) == v / 2real);
    lemma_close_mul(y * h, s, v / 2real, r, 7real * e, 9real * e, 1real / 2real, 14real / 10real);
    lemma_size_mul(v / 2real, r, 1real / 2real, 14real / 10real);
    lemma_close_add(y * h * s, F32::quotient(10, 100), v / 2real * r, 10real / 100real, 16real * e, e);
}

/// An angle and a radius stand on the plane as angles do: the sine to the right, the
/// cosine away.
pub proof fn law_stage_points_are_polar(t: Turn, radius: F32, r: real)
    requires
        is_turn(t),
        close(radius, r, 5real / 10000000real),
        0real <= r <= 1real,
    ensures
        ({
            let u = t.sin.value() * r;
            let v = t.cos.value() * r;
            let q = stage_point(t, radius);
            &&& size(v) <= 1real
            &&& close(q.s, stage_scale(v), 1real / 1000000real)
            &&& close(q.x, u * stage_scale(v), 1real / 400000real)
            &&& close(q.y, v / 2real * stage_scale(v) + 10real / 100real, 1real / 400000real)
            &&& 7real / 10real <= stage_scale(v) <= 14real / 10real
        }),
{
    let e = 5real / 10000000real;
    lemma_size_mul(t.sin.value(), r, 1real, 1real);
    lemma_size_mul(t.cos.value(), r, 1real, 1real);
    lemma_close_mul(t.sin, radius, t.sin.value(), r, 0real, e, 1real, 1real);
    lemma_close_mul(t.cos, radius, t.cos.value(), r, 0real, e, 1real, 1real);
    law_stage_is_seen_in_perspective(
        t.sin * radius,
        t.cos * radius,
        t.sin.value() * r,
        t.cos.value() * r,
    );
}

/// What is behind the chord through the listener is brought onto it.
pub proof fn law_stage_is_in_front(t: Turn)
    requires
        is_turn(t),
    ensures
        is_turn(facing(t)),
        facing(t).sin == t.sin,
        facing(t).cos.value() == clip(t.cos.value(), 0real, 1real),
        t.cos.value() >= 0real ==> facing(t).cos.value() == t.cos.value(),
        t.cos.value() <= 0real ==> facing(t).cos.value() == 0real,
{
    lemma_constants();
    lemma_value_clamped(t.cos, F32::nought(), F32::unit());
}

/// The diffuse part grows from none in front to all of it behind.
pub proof fn law_diffuse_grows_to_the_back(cosine: F32)
    requires
        cosine.finite(),
        size(cosine.value()) <= 1real,
    ensures
        close(diffuse(cosine), (1real - cosine.value()) / 2real, 2real / 10000000real),
{
    lemma_constants();
    let c = cosine.value();
    lemma_value_sub(F32::unit(), cosine);
    let x = F32::unit() - cosine;
    lemma_close_mul(x, F32::half_unit(), 1real - c, 1real / 2real, 15real / 100000000real, 0real, 2real, 1real / 2real);
}

/// The constants of the circle.
pub proof fn lemma_circle_values()
    ensures
        tau().finite() && pi().finite() && quarter().finite(),
        tau().value() == full_turn(),
        pi().value() == full_turn() / 2real,
        quarter().value() == full_turn() / 4real,
{
    lemma2_to64();
    lemma_value_binary(13176795, 21);
    lemma_value_binary(13176795, 22);
    lemma_value_binary(13176795, 23);
    assert(pow2(21) == 2097152);
    assert(pow2(22) == 4194304);
    assert(pow2(23) == 8388608);
    assert(tau() == F32::quotient(13176795, pow2(21) as int));
    assert(pi() == F32::quotient(13176795, pow2(22) as int));
    assert(quarter() == F32::quotient(13176795, pow2(23) as int));
    assert(pi().value() == 13176795real / 4194304real);
    assert(quarter().value() == 13176795real / 8388608real);
}

/// The steps share the circle evenly; the front ones run from the left over the front to
/// the right, and the ticks stand in front and at both sides.
pub proof fn law_steps_share_the_circle(i: int, j: int)
    requires
        0 <= i < 160,
        0 <= j < 81,
    ensures
        close(step_angle(i), i as real / 160real * full_turn(), 1real / 500000real),
        0 <= front_step(j) < 160,
        front_step(j) == (j + 120) % 160,
        tick_angle(0).value() == 0real,
        tick_angle(1).value() == full_turn() / 4real,
        tick_angle(2).value() == -full_turn() / 4real,
{
    lemma_constants();
    lemma_circle_values();
    lemma_value_neg(quarter());
    lemma_value_whole(i);
    lemma_value_whole(160);
    let x = i as real / 160real;
    lemma_value_div(F32::whole(i), F32::whole(160));
    let e = 1real / 10000000real;
    lemma_close_mul(F32::whole(i) / F32::whole(160), tau(), x, full_turn(), e, 0real, 1real, 7real);
}

/// The difference of a step and a frontal direction is the shorter way round: at most
/// half a turn, and the difference itself or one turn less.
pub proof fn law_difference_is_the_shorter_way(s: F32, b: F32)
    requires
        s.finite(),
        0real <= s.value() <= full_turn(),
        is_frontal(b),
    ensures
        ({
            let d = turn_between(s, b).value();
            &&& turn_between(s, b).finite()
            &&& size(d) <= full_turn() / 2real
            &&& apart(d, s.value() - b.value()) <= 1real / 1000000real || apart(
                d,
                s.value() - b.value() - full_turn(),
            ) <= 1real / 1000000real
        }),
{
    lemma_constants();
    lemma_circle_values();
    lemma_value_order(F32::nought(), s);
    lemma_value_order(s, tau());
    lemma_one();
    lemma_delta(s, b);
    let d = turn_between(s, b);
    reveal(F32::value);
    lemma_slack();
    let k = slack() as real;
    let w = one_units() as real;
    lemma_five_slack();
    lemma_units_apart(d.units(), s.units() - b.units());
    lemma_units_apart(d.units(), s.units() - b.units() - tau().units());
    lemma_units_within(d.units(), pi().units());
    let (x, y, z) = (s.units() as real, b.units() as real, tau().units() as real);
    assert((x - y) / w == x / w - y / w && (x - y - z) / w == x / w - y / w - z / w) by (nonlinear_arith)
        requires w > 0real;
}

/// Five units of slack are less than a millionth.
proof fn lemma_five_slack()
    ensures
        one_units() as real > 0real,
        (5 * slack()) as real <= one_units() as real / 1000000real,
{
    lemma_one();
    lemma2_to64();
    lemma_pow2_adds(126, 23);
    lemma_pow2_pos(126);
    let k = pow2(126) as int;
    assert(pow2(23) == 8388608);
    assert(one_units() == k * 8388608);
}

/// A distance in units, in reals.
proof fn lemma_units_apart(a: int, b: int)
    ensures
        distance(a, b) <= 5 * slack() ==> apart(
            a as real / one_units() as real,
            b as real / one_units() as real,
        ) <= 1real / 1000000real,
{
    lemma_five_slack();
    let w = one_units() as real;
    if distance(a, b) <= 5 * slack() {
        let (x, y) = (a as real, b as real);
        assert(x - y <= w / 1000000real && y - x <= w / 1000000real);
        assert(x / w - y / w <= 1real / 1000000real && y / w - x / w <= 1real / 1000000real) by (nonlinear_arith)
            requires x - y <= w / 1000000real, y - x <= w / 1000000real, w > 0real;
    }
}

/// A bound in units, in reals.
proof fn lemma_units_within(a: int, b: int)
    ensures
        distance(a, 0) <= b ==> size(a as real / one_units() as real) <= b as real
            / one_units() as real,
{
    lemma_five_slack();
    let w = one_units() as real;
    if distance(a, 0) <= b {
        let (x, y) = (a as real, b as real);
        assert(x / w <= y / w && -(x / w) <= y / w) by (nonlinear_arith)
            requires x <= y, -x <= y, w > 0real;
    }
}

/// A direction spreads as a bell of 16 hundredths: the exponent is minus the square of
/// the difference by twice the square of the spread.
pub proof fn law_bell_is_sixteen_hundredths_wide(d: F32)
    requires
        d.finite(),
        size(d.value()) <= 4real,
    ensures
        close(narrowness(), 1real / (2real * (16real / 100real) * (16real / 100real)), 1real / 100000real),
        close(
            -d * d * narrowness(),
            -(d.value() * d.value()) / (2real * (16real / 100real) * (16real / 100real)),
            1real / 1000real,
        ),
        size(d.value()) <= 1real ==> close(
            -d * d * narrowness(),
            -(d.value() * d.value()) / (2real * (16real / 100real) * (16real / 100real)),
            1real / 50000real,
        ),
{
    lemma_constants();
    lemma_value_quotient(16, 100);
    lemma_value_whole(2);
    let q = F32::quotient(16, 100);
    let c = 16real / 100real;
    let g = 1real / 100000000real;
    lemma_close_mul(F32::whole(2), q, 2real, c, 0real, g, 2real, c);
    lemma_close_mul(F32::whole(2) * q, q, 2real * c, c, 5real * g, g, 32real / 100real, c);
    let w = F32::whole(2) * q * q;
    let z = 2real * c * c;
    assert(z == 512real / 10000real);
    assert(close(w, z, 2real * g));
    lemma_close_div(F32::unit(), w, 1real, z, 0real, 2real * g, 20real, 5real / 100real);
    let n = narrowness();
    let m = 1real / z;
    assert(close(n, m, 1real / 100000real));
    lemma_value_neg(d);
    let x = d.value();
    assert((-x) * x == -(x * x)) by (nonlinear_arith);
    assert(-(x * x) * m == -(x * x) / z);
    lemma_size_mul(x, x, 4real, 4real);
    lemma_close_mul(-d, d, -x, x, 0real, 0real, 4real, 4real);
    lemma_close_mul(-d * d, n, -(x * x), m, 1real / 1000000real, 1real / 100000real, 16real, 20real);
    if size(x) <= 1real {
        lemma_size_mul(x, x, 1real, 1real);
        lemma_close_mul(-d, d, -x, x, 0real, 0real, 1real, 1real);
        lemma_close_mul(-d * d, n, -(x * x), m, 1real / 10000000real, 1real / 100000real, 1real, 20real);
    }
}

/// The parts that the bells and the turns are made of.
pub open spec fn are_cells(bells: Seq<F32>, turns: Seq<Turn>) -> bool {
    &&& bells.len() == 64 * 160
    &&& turns.len() == 160
    &&& forall|k: int| 0 <= k < 64 * 160 ==> is_part(#[trigger] bells[k])
    &&& forall|k: int| 0 <= k < 160 ==> is_turn(#[trigger] turns[k])
}

/// What a band adds in a direction, in reals: its directed part where the bell is, its
/// diffuse part where the back is.
pub open spec fn added_by(img: ImagingFrame, bells: Seq<F32>, turns: Seq<Turn>, b: int, i: int) -> real {
    let e = img.energy@[b].value();
    let d = img.diffuseness@[b].value();
    e * (1real - d) * bells[160 * b + i].value() + e * d * ((1real - turns[i].cos.value()) / 2real)
}

/// A band adds its energy to the directions that it comes from.
pub proof fn law_bands_add_their_energy(img: ImagingFrame, bells: Seq<F32>, turns: Seq<Turn>, b: int, i: int)
    requires
        img.is_image(),
        are_cells(bells, turns),
        0 <= b < 64,
        0 <= i < 160,
    ensures
        close(contribution(img, bells, turns, b, i), added_by(img, bells, turns, b, i), 1real / 1000000real),
        0real <= added_by(img, bells, turns, b, i) <= 1real,
{
    lemma_constants();
    let x = img.energy@[b];
    let y = img.diffuseness@[b];
    assert(is_part(x) && is_part(y));
    assert(is_part(bells[160 * b + i]) && is_turn(turns[i]));
    lemma_value_part(x);
    lemma_value_part(y);
    lemma_value_part(bells[160 * b + i]);
    lemma_value_clamped(y, F32::nought(), F32::unit());
    let p = part_of(y);
    law_diffuse_grows_to_the_back(turns[i].cos);
    lemma_value_sub(F32::unit(), p);
    let e = x.value();
    let d = y.value();
    let l = bells[160 * b + i].value();
    let g = 1real / 10000000real;
    let k = (1real - turns[i].cos.value()) / 2real;
    lemma_close_mul(x, F32::unit() - p, e, 1real - d, 0real, g, 1real, 1real);
    lemma_size_mul(e, 1real - d, 1real, 1real);
    lemma_close_mul(x * (F32::unit() - p), bells[160 * b + i], e * (1real - d), l, 2real * g, 0real, 1real, 1real);
    lemma_close_mul(x, p, e, d, 0real, 0real, 1real, 1real);
    lemma_size_mul(e, d, 1real, 1real);
    lemma_close_mul(x * p, diffuse(turns[i].cos), e * d, k, g, 2real * g, 1real, 1real);
    let m = e * (1real - d) * l;
    let n = e * d * k;
    lemma_shares(e, d, l, k);
    lemma_close_add(
        x * (F32::unit() - p) * bells[160 * b + i],
        x * p * diffuse(turns[i].cos),
        m,
        n,
        3real * g,
        5real * g,
    );
}

/// Shares of an energy are no more than it.
proof fn lemma_shares(e: real, d: real, l: real, k: real)
    requires
        0real <= e <= 1real,
        0real <= d <= 1real,
        0real <= l <= 1real,
        0real <= k <= 1real,
    ensures
        0real <= e * (1real - d) * l <= e * (1real - d),
        0real <= e * d * k <= e * d,
        e * (1real - d) + e * d <= 1real,
{
    let a = e * (1real - d);
    let b = e * d;
    assert(a >= 0real) by (nonlinear_arith)
        requires a == e * (1real - d), e >= 0real, d <= 1real;
    assert(b >= 0real) by (nonlinear_arith)
        requires b == e * d, e >= 0real, d >= 0real;
    assert(a + b == e) by (nonlinear_arith)
        requires a == e * (1real - d), b == e * d;
    assert(0real <= a * l <= a) by (nonlinear_arith)
        requires a >= 0real, 0real <= l <= 1real;
    assert(0real <= b * k <= b) by (nonlinear_arith)
        requires b >= 0real, 0real <= k <= 1real;
}

/// What the bands from `lo` up to `n` add in a direction, in reals: those that are loud
/// enough to count.
pub open spec fn all_added(img: ImagingFrame, bells: Seq<F32>, turns: Seq<Turn>, i: int, lo: int, n: int) -> real
    decreases n - lo,
{
    if n <= lo {
        0real
    } else {
        all_added(img, bells, turns, i, lo, n - 1) + if counts(img, n - 1) {
            added_by(img, bells, turns, n - 1, i)
        } else {
            0real
        }
    }
}

/// The same, each band weighed by its place in the spectrum.
pub open spec fn all_placed(img: ImagingFrame, bells: Seq<F32>, turns: Seq<Turn>, i: int, lo: int, n: int) -> real
    decreases n - lo,
{
    if n <= lo {
        0real
    } else {
        all_placed(img, bells, turns, i, lo, n - 1) + if counts(img, n - 1) {
            added_by(img, bells, turns, n - 1, i) * ((n - 1) as real / 63real)
        } else {
            0real
        }
    }
}

/// A band counts where its energy is more than a hundredth.
pub proof fn law_loud_bands_count(img: ImagingFrame, b: int)
    requires
        img.is_image(),
        0 <= b < 64,
    ensures
        img.energy@[b].value() >= 1real / 100real + 1real / 1000000000real ==> counts(img, b),
        img.energy@[b].value() <= 1real / 100real - 1real / 1000000000real ==> !counts(img, b),
{
    assert(is_part(img.energy@[b]));
    lemma_value_part(img.energy@[b]);
    lemma_value_quotient(1, 100);
    lemma_value_le(img.energy@[b], F32::quotient(1, 100));
}

/// A lobe is what its bands add in each direction.
pub proof fn law_lobe_sums_its_bands(
    img: ImagingFrame,
    bells: Seq<F32>,
    turns: Seq<Turn>,
    i: int,
    lo: int,
    n: int,
)
    requires
        img.is_image(),
        are_cells(bells, turns),
        0 <= lo <= n <= 64,
        0 <= i < 160,
    ensures
        ({
            let k = (n - lo) as real;
            let u = all_added(img, bells, turns, i, lo, n);
            let v = all_placed(img, bells, turns, i, lo, n);
            &&& close(lobe_energy(img, bells, turns, i, lo, n), u, k / 100000real)
            &&& close(lobe_moment(img, bells, turns, i, lo, n), v, k / 100000real)
            &&& 0real <= u <= k
            &&& 0real <= v <= k
        }),
    decreases n - lo,
{
    lemma_constants();
    if n > lo {
        law_lobe_sums_its_bands(img, bells, turns, i, lo, n - 1);
        let b = n - 1;
        let k = (b - lo) as real;
        law_bands_add_their_energy(img, bells, turns, b, i);
        law_bands_are_evenly_placed(b);
        let c = contribution(img, bells, turns, b, i);
        let a = added_by(img, bells, turns, b, i);
        let r = b as real / 63real;
        let e = 1real / 10000000real;
        lemma_close_mul(c, ramp(b), a, r, 10real * e, e, 1real, 1real);
        assert(0real <= a * r <= 1real) by (nonlinear_arith)
            requires 0real <= a <= 1real, 0real <= r <= 1real;
        let u = all_added(img, bells, turns, i, lo, b);
        let v = all_placed(img, bells, turns, i, lo, b);
        lemma_close_add(lobe_energy(img, bells, turns, i, lo, b), c, u, a, k / 100000real, 10real * e);
        lemma_close_add(lobe_moment(img, bells, turns, i, lo, b), c * ramp(b), v, a * r, k / 100000real, 13real * e);
    }
}

/// The tint of a direction is the mean place of its bands, where there is any energy.
pub proof fn law_tint_is_the_mean_place(energy: F32, moment: F32)
    requires
        energy.finite(),
        moment.finite(),
        2real / 1000000real <= energy.value() <= 100real,
        0real <= moment.value() <= energy.value() * 2real,
    ensures
        close(lobe_tint(energy, moment), moment.value() / energy.value(), 1real / 5000000real),
{
    lemma_value_quotient(1, 1_000_000);
    lemma_value_le(F32::quotient(1, 1_000_000), energy);
    let q = moment.value() / energy.value();
    assert(0real <= q <= 2real) by (nonlinear_arith)
        requires
            q == moment.value() / energy.value(),
            energy.value() > 0real,
            0real <= moment.value() <= energy.value() * 2real,
    ;
    lemma_value_div(moment, energy);
}

/// The lobe reaches from a tenth to seven tenths: what is left after the decay, whose
/// exponent is 55 hundredths of the energy.
pub proof fn law_lobe_reaches_with_the_energy(energy: F32, decay: F32)
    requires
        energy.finite(),
        0real <= energy.value() <= 100real,
        is_part(decay),
    ensures
        close(decay_exponent(energy), -(energy.value() * (55real / 100real)), 1real / 100000real),
        close(reach(decay), 1real - decay.value(), 1real / 10000000real),
        close(lobe_radius(decay), 10real / 100real + (1real - decay.value()) * (60real / 100real), 4real / 10000000real),
{
    lemma_constants();
    lemma_value_part(decay);
    lemma_value_quotient(55, 100);
    lemma_value_quotient(10, 100);
    lemma_value_quotient(70, 100);
    lemma_value_neg(energy);
    let v = energy.value();
    let c = 55real / 100real;
    assert((-v) * c == -(v * c));
    lemma_close_mul(-energy, F32::quotient(55, 100), -v, c, 0real, 4real / 100000000real, 100real, c);
    let g = 1real / 100000000real;
    let x = decay.value();
    lemma_value_sub(F32::unit(), decay);
    lemma_close_sub(img_radius(), lobe_min(), 70real / 100real, 10real / 100real, 5real * g, g);
    let d = img_radius() - lobe_min();
    lemma_close_mul(reach(decay), d, 1real - x, 60real / 100real, 7real * g, 10real * g, 1real, 60real / 100real);
    let y = (1real - x) * (60real / 100real);
    lemma_close_add(lobe_min(), reach(decay) * d, 10real / 100real, y, g, 20real * g);
}

/// A direction moves towards its mirror image behind, by the part that the rear is: the
/// side stays, and a quarter turn is its own image.
pub proof fn law_rear_moves_directions_behind(azimuth: F32, rear: F32)
    requires
        azimuth.finite(),
        size(azimuth.value()) <= full_turn() / 2real,
        is_part(rear),
    ensures
        ({
            let m = size(azimuth.value());
            let v = m + rear.value() * (full_turn() / 2real - 2real * m);
            close(
                reflected(azimuth, rear),
                if azimuth.value() < 0real {
                    -v
                } else {
                    v
                },
                1real / 200000real,
            )
        }),
{
    lemma_constants();
    lemma_circle_values();
    lemma_value_part(rear);
    lemma_value_le(azimuth, F32::nought());
    lemma_value_unsigned(azimuth);
    lemma_value_whole(2);
    lemma_value_neg(F32::unit());
    let x = azimuth.unsigned();
    let m = x.value();
    let p = full_turn() / 2real;
    let e = 1real / 1000000real;
    lemma_value_mul(F32::whole(2), x);
    lemma_close_sub(pi(), F32::whole(2) * x, p, 2real * m, 0real, e);
    let d = pi() - F32::whole(2) * x;
    let r = rear.value();
    lemma_close_mul(rear, d, r, p - 2real * m, 0real, 2real * e, 1real, 4real);
    lemma_size_mul(r, p - 2real * m, 1real, 4real);
    let w = r * (p - 2real * m);
    lemma_close_add(x, rear * d, m, w, 0real, 3real * e);
    let sum = x + rear * d;
    let v = m + w;
    lemma_close_mul(F32::unit(), sum, 1real, v, 0real, 4real * e, 1real, 8real);
    lemma_close_mul(-F32::unit(), sum, -1real, v, 0real, 4real * e, 1real, 8real);
    assert(1real * v == v && (-1real) * v == -v);
}

} // verus!
