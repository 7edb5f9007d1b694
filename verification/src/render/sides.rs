//! What the lobe makes of directions turned to the other side.

use super::imaging::{
    band_angle, bell_exponent, contribution, counts, diffuse, law_diffuse_weight_is_part, lemma_circle, lobe_energy,
    lobe_moment, narrowness, step_angle, turn_between, IMG_STEPS,
};
use super::paint::ramp;
use super::radial::Turn;
use super::stage::{lemma_contribution, lemma_lobe, lemma_pi, lemma_ramp};
use crate::bands::NUM_BANDS;
use crate::dsp::{is_part, lemma_part_is_finite, pi};
use crate::float::error::{
    lemma_add_error, lemma_div_error, lemma_mul_error, lemma_product_bound, lemma_rounded_error, lemma_slack,
    lemma_sub_error, lemma_times_bound, lemma_wide_product_error, lemma_wide_sum_error, slack,
};
use crate::float::laws::{
    lemma_binary_fraction, lemma_bounded_is_finite_between, lemma_div_between, lemma_half, lemma_mul_between,
    lemma_neg, lemma_one, lemma_quotient_between, lemma_sub_between, lemma_whole, one_units,
};
use crate::float::mirror::{lemma_mul_commutes, lemma_opposite_units, opposite};
use crate::float::repr::{lemma_mag_units_order, mag_units};
use crate::float::round::{distance, lemma_nearest_positive};
use crate::float::F32;
use crate::stereo::{is_frontal, lemma_product_of_parts, quarter, tau, ImagingFrame};
use vstd::arithmetic::div_mod::lemma_fundamental_div_mod_converse;
use vstd::arithmetic::power2::{lemma2_to64, pow2};
use vstd::prelude::*;

verus! {

/// The step at the opposite angle.
pub open spec fn opposite_step(i: int) -> int {
    (IMG_STEPS - i) % (IMG_STEPS as int)
}

/// A step is at its part of a full turn, but for rounding.
proof fn lemma_step(i: int)
    requires
        0 <= i < IMG_STEPS,
    ensures
        step_angle(i).finite(),
        0 <= step_angle(i).units() <= tau().units(),
        distance(160 * step_angle(i).units(), i * tau().units()) <= 1360 * slack(),
        i == 0 ==> step_angle(i).units() == 0,
{
    lemma_one();
    lemma_slack();
    lemma_circle();
    lemma_pi();
    lemma2_to64();
    lemma_whole(i);
    lemma_whole(160);
    let w = one_units();
    let k = slack();
    let t = tau().units();
    let a = F32::whole(i);
    let b = F32::whole(160);
    assert(0 * (160 * w) <= (i * w) * w <= w * (160 * w) && -(4 * w * (160 * w)) < (i * w) * w < 4 * w * (160 * w))
        by (nonlinear_arith)
        requires 0 <= i < 160, w > 0;
    lemma_div_between(a, b, F32::nought(), F32::unit());
    lemma_div_error(a, b);
    let q = (a / b).units();
    let e = 160 * q - i * w;
    assert(distance(q * (160 * w), (i * w) * w) == distance(e * w, 0)) by (nonlinear_arith)
        requires e == 160 * q - i * w;
    assert(k * (160 * w) == (160 * k) * w) by (nonlinear_arith);
    lemma_times_bound(e, 160 * k, w);
    assert(0 * w <= q * t <= t * w && -(8 * w * w) < q * t < 8 * w * w) by (nonlinear_arith)
        requires 0 <= q <= w, 0 < t, 8 * t <= 51 * w, w > 0;
    lemma_mul_between(a / b, tau(), F32::nought(), tau());
    lemma_wide_product_error(a / b, tau(), 1);
    let s = step_angle(i).units();
    let f = s * w - q * t;
    let x = 160 * s - i * t;
    assert(x * w == 160 * f + e * t) by (nonlinear_arith)
        requires x == 160 * s - i * t, f == s * w - q * t, e == 160 * q - i * w;
    lemma_product_bound(e, t, 160 * k, t);
    assert(8 * (k * t) <= 51 * (k * w)) by (nonlinear_arith)
        requires 8 * t <= 51 * w, k > 0;
    assert((160 * k) * t == 160 * (k * t)) by (nonlinear_arith);
    assert(k * w >= 0) by (nonlinear_arith)
        requires k > 0, w > 0;
    assert(2 * k * w == 2 * (k * w) && (1360 * k) * w == 1360 * (k * w)) by (nonlinear_arith);
    lemma_times_bound(x, 1360 * k, w);
    if i == 0 {
        assert(0 * (160 * w) == 0 && 0 * w == 0);
        lemma_div_between(a, b, F32::nought(), F32::nought());
        assert(q == 0);
        assert(0 * t == 0);
        lemma_mul_between(a / b, tau(), F32::nought(), F32::nought());
    }
}

/// The smallest difference of a step and a frontal direction is their difference, or one
/// turn less, but for rounding.
pub proof fn lemma_delta(s: F32, b: F32)
    requires
        s.finite(),
        0 <= s.units() <= tau().units(),
        is_frontal(b),
    ensures
        turn_between(s, b).finite(),
        distance(turn_between(s, b).units(), 0) <= pi().units(),
        distance(turn_between(s, b).units(), s.units() - b.units()) <= 5 * slack() || distance(
            turn_between(s, b).units(),
            s.units() - b.units() - tau().units(),
        ) <= 5 * slack(),
{
    reveal(F32::spec_euclidean_mod);
    lemma_one();
    lemma_slack();
    lemma_circle();
    lemma_pi();
    lemma2_to64();
    lemma_neg(quarter());
    lemma_neg(pi());
    lemma_neg(b);
    let w = one_units();
    let k = slack();
    let t = tau().units();
    lemma_bounded_is_finite_between(b, -quarter(), quarter());
    assert(4 * pow2(1) * w == 8 * w) by (nonlinear_arith)
        requires pow2(1) == 2;
    assert(-8 * w < s.units() - b.units() < 8 * w);
    lemma_wide_sum_error(s, -b, 1);
    let x = s - b;
    let u = x.units();
    assert(distance(u, s.units() - b.units()) <= 2 * k);
    lemma_mag_units_order(0, x.mag());
    lemma_mag_units_order(0, tau().mag());
    let m = mag_units(x.mag());
    assert(mag_units(tau().mag()) == t);
    let turns = if m >= t {
        1int
    } else {
        0int
    };
    assert(m == turns * t + (m - turns * t));
    lemma_fundamental_div_mod_converse(m, t, turns, m - turns * t);
    let r = m % t;
    let n = if u >= 0 {
        r
    } else {
        -r
    };
    lemma_nearest_positive(r, 1);
    let d = x % tau();
    assert(d == F32::rounded(n, 1, x.negative()));
    lemma_rounded_error(n, 1, x.negative(), 1);
    assert(distance(d.units(), n) <= 2 * k);
    if pi().lt(d) {
        lemma_neg(tau());
        lemma_sub_between(d, tau(), -pi(), pi());
        lemma_sub_error(d, tau());
    }
}

/// Differences that are those of angles and their opposites, but for whole turns and
/// rounding, are as large as each other, but for rounding.
proof fn lemma_as_far(x: int, y: int, a: int, b: int, half: int, k: int)
    requires
        half > 100 * k,
        k > 0,
        -half <= x <= half,
        -half <= y <= half,
        distance(x, a) <= 5 * k || distance(x, a - 2 * half) <= 5 * k,
        distance(y, b) <= 5 * k || distance(y, b - 2 * half) <= 5 * k,
        distance(a + b, 2 * half) <= 17 * k || a + b == 0,
    ensures
        distance(distance(x, 0), distance(y, 0)) <= 27 * k,
{
}

/// Where a direction and a step are both turned to the other side, they lie as far from
/// each other, but for rounding.
proof fn lemma_mirrored_delta(i: int, b: F32, c: F32)
    requires
        0 <= i < IMG_STEPS,
        is_frontal(b),
        opposite(b, c),
    ensures
        ({
            let x = turn_between(step_angle(i), b);
            let y = turn_between(step_angle(opposite_step(i)), c);
            &&& x.finite()
            &&& y.finite()
            &&& distance(x.units(), 0) <= pi().units()
            &&& distance(y.units(), 0) <= pi().units()
            &&& distance(distance(x.units(), 0), distance(y.units(), 0)) <= 27 * slack()
        }),
{
    lemma_one();
    lemma_slack();
    lemma_circle();
    lemma_pi();
    lemma_neg(quarter());
    lemma_opposite_units(b, c);
    let j = opposite_step(i);
    lemma_step(i);
    lemma_step(j);
    lemma_delta(step_angle(i), b);
    lemma_delta(step_angle(j), c);
    let t = tau().units();
    let s = step_angle(i).units();
    let o = step_angle(j).units();
    if i > 0 {
        assert(j == 160 - i);
        assert(i * t + j * t == 160 * t) by (nonlinear_arith)
            requires j == 160 - i;
    }
    lemma_as_far(
        turn_between(step_angle(i), b).units(),
        turn_between(step_angle(j), c).units(),
        s - b.units(),
        o - c.units(),
        pi().units(),
        slack(),
    );
}

/// The narrowness of a bell is less than twenty.
proof fn lemma_narrowness()
    ensures
        narrowness().finite(),
        0 <= narrowness().units() <= 20 * one_units(),
{
    lemma_one();
    lemma2_to64();
    lemma_whole(2);
    lemma_whole(20);
    let w = one_units();
    let low = F32::quotient(10485, 65536);
    let twice = F32::quotient(20970, 65536);
    let least = F32::quotient(3277, 65536);
    lemma_binary_fraction(10485, 16);
    lemma_binary_fraction(20970, 16);
    lemma_binary_fraction(3277, 16);
    let spread = F32::quotient(16, 100);
    assert(low.units() * 100 <= 16 * w) by (nonlinear_arith)
        requires 65536 * low.units() == 10485 * w, w > 0;
    lemma_quotient_between(16, 100, low, F32::unit());
    lemma_bounded_is_finite_between(spread, low, F32::unit());
    let u = spread.units();
    assert(twice.units() * w <= (2 * w) * u <= (2 * w) * w) by (nonlinear_arith)
        requires 65536 * twice.units() == 20970 * w, 65536 * u >= 10485 * w, u <= w, w > 0;
    lemma_mul_between(F32::whole(2), spread, twice, F32::whole(2));
    let p = F32::whole(2) * spread;
    lemma_bounded_is_finite_between(p, twice, F32::whole(2));
    let v = p.units();
    assert(least.units() * w <= v * u <= (2 * w) * w) by (nonlinear_arith)
        requires
            65536 * least.units() == 3277 * w,
            65536 * u >= 10485 * w,
            65536 * v >= 20970 * w,
            u <= w,
            v <= 2 * w,
            w > 0,
    ;
    lemma_mul_between(p, spread, least, F32::whole(2));
    let d = p * spread;
    lemma_bounded_is_finite_between(d, least, F32::whole(2));
    assert(0 * d.units() <= w * w <= (20 * w) * d.units()) by (nonlinear_arith)
        requires 65536 * d.units() >= 3277 * w, w > 0;
    lemma_div_between(F32::unit(), d, F32::nought(), F32::whole(20));
    lemma_bounded_is_finite_between(narrowness(), F32::nought(), F32::whole(20));
}

/// The exponent of a difference.
spec fn exponent(delta: F32) -> F32 {
    -delta * delta * narrowness()
}

/// The exponent of a difference is near to minus its square times the narrowness.
proof fn lemma_exponent(x: F32) -> (n: int)
    requires
        x.finite(),
        distance(x.units(), 0) <= pi().units(),
    ensures
        exponent(x).finite(),
        distance(n * one_units(), -(x.units() * x.units())) <= 4 * (slack() * one_units()),
        distance(exponent(x).units() * one_units(), n * narrowness().units()) <= 64 * (slack() * one_units()),
{
    lemma_one();
    lemma_slack();
    lemma_circle();
    lemma_pi();
    lemma_narrowness();
    lemma2_to64();
    let w = one_units();
    let k = slack();
    let u = x.units();
    lemma_neg(x);
    let p = pi().units();
    lemma_product_bound(-u, u, p, p);
    assert(p * p <= 11 * (w * w)) by (nonlinear_arith)
        requires 16 * p <= 51 * w, p >= 0;
    assert((-u) * u == -(u * u)) by (nonlinear_arith);
    assert(16 * w * w == 16 * (w * w) && w * w > 0) by (nonlinear_arith)
        requires w > 0;
    lemma_wide_product_error(-x, x, 2);
    let n = (-x * x).units();
    assert(4 * k * w == 4 * (k * w)) by (nonlinear_arith);
    assert(distance(n * w, 0) <= (12 * w) * w) by {
        assert(k * w <= w * w) by (nonlinear_arith)
            requires w == 0x80_0000 * k, k > 0;
        assert((12 * w) * w == 12 * (w * w)) by (nonlinear_arith);
        assert(4 * (k * w) <= w * w) by (nonlinear_arith)
            requires w == 0x80_0000 * k, k > 0;
    }
    lemma_times_bound(n, 12 * w, w);
    let g = narrowness().units();
    lemma_product_bound(n, g, 12 * w, 20 * w);
    assert((12 * w) * (20 * w) == 240 * (w * w) && 256 * w * w == 256 * (w * w)) by (nonlinear_arith);
    lemma_wide_product_error(-x * x, narrowness(), 6);
    assert(64 * k * w == 64 * (k * w)) by (nonlinear_arith);
    n
}

/// Differences that are near to each other have exponents that are.
proof fn lemma_exponents(x: F32, y: F32)
    requires
        x.finite(),
        y.finite(),
        distance(x.units(), 0) <= pi().units(),
        distance(y.units(), 0) <= pi().units(),
        distance(distance(x.units(), 0), distance(y.units(), 0)) <= 27 * slack(),
    ensures
        exponent(x).finite(),
        exponent(y).finite(),
        distance(exponent(x).units(), exponent(y).units()) <= 4096 * slack(),
{
    lemma_slack();
    lemma_circle();
    lemma_pi();
    lemma_narrowness();
    let w = one_units();
    let k = slack();
    let n = lemma_exponent(x);
    let m = lemma_exponent(y);
    let a = distance(x.units(), 0);
    let b = distance(y.units(), 0);
    assert(x.units() * x.units() == a * a && y.units() * y.units() == b * b) by (nonlinear_arith)
        requires x.units() == a || x.units() == -a, y.units() == b || y.units() == -b;
    assert(a * a - b * b == (a - b) * (a + b)) by (nonlinear_arith);
    let p = pi().units();
    lemma_product_bound(a - b, a + b, 27 * k, 2 * p);
    assert(16 * (k * p) <= 51 * (k * w)) by (nonlinear_arith)
        requires 16 * p <= 51 * w, k > 0;
    assert((27 * k) * (2 * p) == 54 * (k * p)) by (nonlinear_arith);
    assert(k * w >= 0) by (nonlinear_arith)
        requires k > 0, w > 0;
    assert((n - m) * w == n * w - m * w && (184 * k) * w == 184 * (k * w)) by (nonlinear_arith);
    lemma_times_bound(n - m, 184 * k, w);
    let g = narrowness().units();
    lemma_product_bound(n - m, g, 184 * k, 20 * w);
    let e = exponent(x).units();
    let f = exponent(y).units();
    assert((n - m) * g == n * g - m * g && (184 * k) * (20 * w) == 3680 * (k * w)) by (nonlinear_arith);
    assert((e - f) * w == e * w - f * w && (4096 * k) * w == 4096 * (k * w)) by (nonlinear_arith);
    lemma_times_bound(e - f, 4096 * k, w);
}

/// A part of numbers from zero to two that are near to each other.
proof fn lemma_near_products(p: F32, x: F32, y: F32, bound: int)
    requires
        is_part(p),
        x.within(F32::nought(), F32::whole(2)),
        y.within(F32::nought(), F32::whole(2)),
        distance(x.units(), y.units()) <= bound,
    ensures
        (p * x).finite(),
        (p * y).finite(),
        distance((p * x).units(), (p * y).units()) <= bound + 2 * slack(),
{
    lemma_one();
    lemma_slack();
    lemma_whole(2);
    lemma_part_is_finite(p);
    lemma_bounded_is_finite_between(x, F32::nought(), F32::whole(2));
    lemma_bounded_is_finite_between(y, F32::nought(), F32::whole(2));
    let w = one_units();
    let k = slack();
    let a = p.units();
    let u = x.units();
    let v = y.units();
    assert(-(4 * w * w) < a * u < 4 * w * w && -(4 * w * w) < a * v < 4 * w * w) by (nonlinear_arith)
        requires 0 <= a <= w, 0 <= u <= 2 * w, 0 <= v <= 2 * w, w > 0;
    lemma_mul_error(p, x);
    lemma_mul_error(p, y);
    lemma_product_bound(a, u - v, w, bound);
    let e = (p * x).units();
    let f = (p * y).units();
    assert(a * (u - v) == a * u - a * v && (e - f) * w == e * w - f * w) by (nonlinear_arith);
    assert((bound + 2 * k) * w == w * bound + 2 * (k * w)) by (nonlinear_arith);
    lemma_times_bound(e - f, bound + 2 * k, w);
}

/// A part of a number from zero to two is one.
proof fn lemma_part_of(p: F32, x: F32)
    requires
        is_part(p),
        x.within(F32::nought(), F32::whole(2)),
    ensures
        (p * x).within(F32::nought(), F32::whole(2)),
{
    lemma_one();
    lemma_whole(2);
    lemma_part_is_finite(p);
    lemma_bounded_is_finite_between(x, F32::nought(), F32::whole(2));
    let w = one_units();
    let a = p.units();
    let u = x.units();
    assert(0 * w <= a * u <= (2 * w) * w) by (nonlinear_arith)
        requires 0 <= a <= w, 0 <= u <= 2 * w;
    lemma_mul_between(p, x, F32::nought(), F32::whole(2));
}

/// What a band adds in two directions is near to each other where the bells and the
/// cosines are.
proof fn lemma_near_contributions(
    img: (ImagingFrame, ImagingFrame),
    bells: (Seq<F32>, Seq<F32>),
    turns: Seq<Turn>,
    b: int,
    i: int,
    j: int,
)
    requires
        is_part(img.0.energy@[b]),
        is_part(img.0.diffuseness@[b]),
        img.1.energy@[b] == img.0.energy@[b],
        img.1.diffuseness@[b] == img.0.diffuseness@[b],
        is_part(bells.0[160 * b + i]),
        is_part(bells.1[160 * b + j]),
        distance(bells.0[160 * b + i].units(), bells.1[160 * b + j].units()) <= 4100 * slack(),
        turns[i].cos.within(-F32::unit(), F32::unit()),
        turns[j].cos.within(-F32::unit(), F32::unit()),
        distance(turns[i].cos.units(), turns[j].cos.units()) <= 64 * slack(),
    ensures
        distance(
            contribution(img.0, bells.0, turns, b, i).units(),
            contribution(img.1, bells.1, turns, b, j).units(),
        ) <= 4200 * slack(),
{
    lemma_one();
    lemma_slack();
    lemma_half();
    lemma_whole(2);
    lemma_neg(F32::unit());
    let one = F32::unit();
    let e = img.0.energy@[b];
    let d = img.0.diffuseness@[b];
    lemma_part_is_finite(d);
    lemma_sub_between(one, d, F32::nought(), one);
    lemma_product_of_parts(e, one - d);
    lemma_product_of_parts(e, d);
    let x = bells.0[160 * b + i];
    let y = bells.1[160 * b + j];
    lemma_near_products(e * (one - d), x, y, 4100 * slack());
    lemma_product_of_parts(e * (one - d), x);
    lemma_product_of_parts(e * (one - d), y);
    let c = turns[i].cos;
    let f = turns[j].cos;
    lemma_bounded_is_finite_between(c, -one, one);
    lemma_bounded_is_finite_between(f, -one, one);
    lemma_sub_between(one, c, F32::nought(), F32::whole(2));
    lemma_sub_between(one, f, F32::nought(), F32::whole(2));
    lemma_sub_error(one, c);
    lemma_sub_error(one, f);
    lemma_near_products(F32::half_unit(), one - c, one - f, 66 * slack());
    lemma_mul_commutes(F32::half_unit(), one - c);
    lemma_mul_commutes(F32::half_unit(), one - f);
    law_diffuse_weight_is_part(c);
    law_diffuse_weight_is_part(f);
    lemma_near_products(e * d, diffuse(c), diffuse(f), 68 * slack());
    lemma_product_of_parts(e * d, diffuse(c));
    lemma_product_of_parts(e * d, diffuse(f));
    let p = e * (one - d) * x;
    let q = e * (one - d) * y;
    let r = e * d * diffuse(c);
    let s = e * d * diffuse(f);
    lemma_part_is_finite(p);
    lemma_part_is_finite(q);
    lemma_part_is_finite(r);
    lemma_part_is_finite(s);
    lemma_add_error(p, r);
    lemma_add_error(q, s);
}

/// Sums of a few dozen numbers that are near to each other.
proof fn lemma_near_sums(a: F32, x: F32, b: F32, y: F32, gap: int, bound: int)
    requires
        a.within(F32::nought(), F32::whole(128)),
        b.within(F32::nought(), F32::whole(128)),
        x.within(F32::nought(), F32::whole(2)),
        y.within(F32::nought(), F32::whole(2)),
        distance(a.units(), b.units()) <= gap,
        distance(x.units(), y.units()) <= bound,
    ensures
        distance((a + x).units(), (b + y).units()) <= gap + bound + 128 * slack(),
{
    lemma_one();
    lemma_whole(2);
    lemma_whole(128);
    lemma2_to64();
    let w = one_units();
    lemma_bounded_is_finite_between(a, F32::nought(), F32::whole(128));
    lemma_bounded_is_finite_between(b, F32::nought(), F32::whole(128));
    lemma_bounded_is_finite_between(x, F32::nought(), F32::whole(2));
    lemma_bounded_is_finite_between(y, F32::nought(), F32::whole(2));
    assert(4 * pow2(6) * w == 256 * w) by (nonlinear_arith)
        requires pow2(6) == 64;
    lemma_wide_sum_error(a, x, 6);
    lemma_wide_sum_error(b, y, 6);
}

/// A thousandth more for one band more.
proof fn lemma_one_more(before: int, now: int, bands: int)
    requires
        1024 * before <= bands * one_units(),
        now <= before + 4330 * slack(),
    ensures
        1024 * now <= (bands + 1) * one_units(),
{
    lemma_slack();
    let w = one_units();
    assert((bands + 1) * w == bands * w + w) by (nonlinear_arith);
}

/// A band turned to the other side adds in each direction nearly what it added in the
/// opposite one.
proof fn lemma_mirrored_band(
    img: (ImagingFrame, ImagingFrame),
    bells: (Seq<F32>, Seq<F32>),
    turns: Seq<Turn>,
    b: int,
    i: int,
)
    requires
        0 <= i < IMG_STEPS,
        0 <= b < NUM_BANDS,
        img.0.is_image(),
        img.1.energy@ == img.0.energy@,
        img.1.diffuseness@ == img.0.diffuseness@,
        opposite(img.0.azimuth@[b], img.1.azimuth@[b]),
        is_part(bells.0[160 * b + i]),
        is_part(bells.1[160 * b + opposite_step(i)]),
        distance(bells.0[160 * b + i].units(), bells.1[160 * b + opposite_step(i)].units()) <= distance(
            bell_exponent(img.0, b, i).units(),
            bell_exponent(img.1, b, opposite_step(i)).units(),
        ) + 4 * slack(),
        turns[i].cos.within(-F32::unit(), F32::unit()),
        turns[opposite_step(i)].cos.within(-F32::unit(), F32::unit()),
        distance(turns[i].cos.units(), turns[opposite_step(i)].cos.units()) <= 64 * slack(),
    ensures
        ({
            let x = contribution(img.0, bells.0, turns, b, i);
            let y = contribution(img.1, bells.1, turns, b, opposite_step(i));
            &&& x.within(F32::nought(), F32::whole(2))
            &&& y.within(F32::nought(), F32::whole(2))
            &&& (x * ramp(b)).within(F32::nought(), F32::whole(2))
            &&& (y * ramp(b)).within(F32::nought(), F32::whole(2))
            &&& distance(x.units(), y.units()) <= 4202 * slack()
            &&& distance((x * ramp(b)).units(), (y * ramp(b)).units()) <= 4202 * slack()
        }),
{
    let j = opposite_step(i);
    lemma_slack();
    assert(is_frontal(img.0.azimuth@[b]));
    lemma_mirrored_delta(i, band_angle(img.0, b), band_angle(img.1, b));
    lemma_exponents(
        turn_between(step_angle(i), band_angle(img.0, b)),
        turn_between(step_angle(j), band_angle(img.1, b)),
    );
    assert(is_part(img.0.energy@[b]) && is_part(img.0.diffuseness@[b]));
    lemma_near_contributions(img, bells, turns, b, i, j);
    lemma_contribution(img.0, bells.0, turns, b, i);
    lemma_contribution(img.1, bells.1, turns, b, j);
    let x = contribution(img.0, bells.0, turns, b, i);
    let y = contribution(img.1, bells.1, turns, b, j);
    lemma_ramp(b);
    lemma_near_products(ramp(b), x, y, 4200 * slack());
    lemma_mul_commutes(ramp(b), x);
    lemma_mul_commutes(ramp(b), y);
    lemma_part_of(ramp(b), x);
    lemma_part_of(ramp(b), y);
}

/// Mirrored directions mirror the lobe: turning every direction to the other side gives
/// in each direction what the opposite one had, up to a thousandth for each band, which
/// rounding makes. Exponentials are taken to differ by no more than their exponents, and
/// cosines to be the same at opposite steps, both up to rounding.
pub proof fn law_mirrored_directions_mirror_the_lobe(
    img: (ImagingFrame, ImagingFrame),
    bells: (Seq<F32>, Seq<F32>),
    turns: Seq<Turn>,
    i: int,
    lo: int,
    n: int,
)
    requires
        0 <= i < IMG_STEPS,
        0 <= lo <= n <= NUM_BANDS,
        img.0.is_image(),
        img.1.energy@ == img.0.energy@,
        img.1.diffuseness@ == img.0.diffuseness@,
        forall|b: int| lo <= b < n ==> opposite(#[trigger] img.0.azimuth@[b], img.1.azimuth@[b]),
        forall|b: int| lo <= b < n ==> is_part(#[trigger] bells.0[160 * b + i]),
        forall|b: int| lo <= b < n ==> is_part(#[trigger] bells.1[160 * b + opposite_step(i)]),
        forall|b: int|
            #![trigger bells.0[160 * b + i]]
            lo <= b < n ==> distance(bells.0[160 * b + i].units(), bells.1[160 * b + opposite_step(i)].units())
                <= distance(
                bell_exponent(img.0, b, i).units(),
                bell_exponent(img.1, b, opposite_step(i)).units(),
            ) + 4 * slack(),
        turns[i].cos.within(-F32::unit(), F32::unit()),
        turns[opposite_step(i)].cos.within(-F32::unit(), F32::unit()),
        distance(turns[i].cos.units(), turns[opposite_step(i)].cos.units()) <= 64 * slack(),
    ensures
        1024 * distance(
            lobe_energy(img.0, bells.0, turns, i, lo, n).units(),
            lobe_energy(img.1, bells.1, turns, opposite_step(i), lo, n).units(),
        ) <= (n - lo) * one_units(),
        1024 * distance(
            lobe_moment(img.0, bells.0, turns, i, lo, n).units(),
            lobe_moment(img.1, bells.1, turns, opposite_step(i), lo, n).units(),
        ) <= (n - lo) * one_units(),
    decreases n - lo,
{
    lemma_one();
    if n > lo {
        let b = n - 1;
        let j = opposite_step(i);
        law_mirrored_directions_mirror_the_lobe(img, bells, turns, i, lo, b);
        lemma_lobe(img.0, bells.0, turns, i, lo, b);
        lemma_lobe(img.1, bells.1, turns, j, lo, b);
        let e = lobe_energy(img.0, bells.0, turns, i, lo, b);
        let f = lobe_energy(img.1, bells.1, turns, j, lo, b);
        let m = lobe_moment(img.0, bells.0, turns, i, lo, b);
        let o = lobe_moment(img.1, bells.1, turns, j, lo, b);
        assert(img.1.energy@[b] == img.0.energy@[b]);
        if counts(img.0, b) {
            assert(opposite(img.0.azimuth@[b], img.1.azimuth@[b]));
            assert(is_part(bells.0[160 * b + i]));
            assert(is_part(bells.1[160 * b + j]));
            lemma_mirrored_band(img, bells, turns, b, i);
            let x = contribution(img.0, bells.0, turns, b, i);
            let y = contribution(img.1, bells.1, turns, b, j);
            lemma_whole(128);
            lemma_whole(2 * (b - lo));
            assert((2 * (b - lo)) * one_units() <= 128 * one_units()) by (nonlinear_arith)
                requires b - lo <= 64, one_units() > 0;
            lemma_near_sums(e, x, f, y, distance(e.units(), f.units()), 4202 * slack());
            lemma_near_sums(m, x * ramp(b), o, y * ramp(b), distance(m.units(), o.units()), 4202 * slack());
            lemma_one_more(distance(e.units(), f.units()), distance((e + x).units(), (f + y).units()), b - lo);
            lemma_one_more(
                distance(m.units(), o.units()),
                distance((m + x * ramp(b)).units(), (o + y * ramp(b)).units()),
                b - lo,
            );
        } else {
            lemma_slack();
            lemma_one_more(distance(e.units(), f.units()), distance(e.units(), f.units()), b - lo);
            lemma_one_more(distance(m.units(), o.units()), distance(m.units(), o.units()), b - lo);
        }
    }
}

} // verus!
