//! What holds of the picture of the stereo image.

use super::imaging::{
    contribution, counts, diffuse, dots, facing, img_radius, law_diffuse_weight_is_part, law_lobe_never_collapses,
    lemma_circle, lemma_signed_product, lobe_energy, lobe_moment, lobe_point, lobe_radius, lobe_tint, reflected,
    stage_point,
};
use super::paint::{band_span, part_of, ramp, Palette};
use super::radial::Turn;
use crate::bands::NUM_BANDS;
use crate::dsp::{is_part, is_spectrum, lemma_part_is_finite, pi};
use crate::float::laws::{
    lemma_add_between, lemma_add_order, lemma_add_sign, lemma_binary_fraction, lemma_bounded_is_finite_between,
    lemma_div_between, lemma_double, lemma_fraction, lemma_half, lemma_mul_between, lemma_neg, lemma_one,
    lemma_quotient_between, lemma_quotient_number, lemma_same_value, lemma_signed, lemma_sub_between, lemma_whole,
    one_units,
};
use crate::float::error::{lemma_add_error, lemma_slack, lemma_sub_error, slack};
use crate::float::repr::{lemma_mag_units_order, FRAC, INF_MAG};
use crate::float::round::{distance, lemma_mag_units_at};
use crate::float::F32;
use crate::stereo::{lemma_product_of_parts, quarter, ImagingFrame};
use vstd::arithmetic::power2::{lemma2_to64, lemma_pow2_adds};
use vstd::prelude::*;

verus! {

/// Whatever faces the front is shown on or beyond the chord through the listener.
pub proof fn law_nothing_is_behind(t: Turn, radius: F32)
    requires
        !t.cos.nan(),
        is_part(radius),
    ensures
        F32::quotient(10, 100).le(stage_point(facing(t), radius).y),
{
    lemma_one();
    lemma_half();
    lemma_whole(2);
    lemma_whole(3);
    lemma_whole(4);
    lemma_whole(5);
    let w = one_units();
    let c = part_of(t.cos);
    lemma_product_of_parts(c, radius);
    let y = c * radius;
    lemma_part_is_finite(y);
    let focal = F32::quotient(36, 10);
    lemma_quotient_between(36, 10, F32::whole(3), F32::whole(4));
    lemma_bounded_is_finite_between(focal, F32::whole(3), F32::whole(4));
    lemma_add_between(focal, y, F32::whole(3), F32::whole(5));
    let d = focal + y;
    lemma_bounded_is_finite_between(d, F32::whole(3), F32::whole(5));
    let f = focal.units();
    let du = d.units();
    assert(0 * du <= f * w <= (2 * w) * du) by (nonlinear_arith)
        requires 3 * w <= f <= 4 * w, 3 * w <= du, w > 0;
    lemma_div_between(focal, d, F32::nought(), F32::whole(2));
    let s = focal / d;
    lemma_bounded_is_finite_between(s, F32::nought(), F32::whole(2));
    lemma_product_of_parts(y, F32::half_unit());
    let h = y * F32::half_unit();
    lemma_part_is_finite(h);
    let hu = h.units();
    let su = s.units();
    assert(0 * w <= hu * su <= (2 * w) * w) by (nonlinear_arith)
        requires 0 <= hu <= w, 0 <= su <= 2 * w;
    lemma_mul_between(h, s, F32::nought(), F32::whole(2));
    lemma_bounded_is_finite_between(h * s, F32::nought(), F32::whole(2));
    lemma_fraction(10, 100);
    lemma_add_between(h * s, F32::quotient(10, 100), F32::quotient(10, 100), F32::whole(3));
}

/// Every light of a band lies on the front half: on or beyond the chord through the
/// listener.
pub proof fn law_dots_are_in_front(img: ImagingFrame, bands: Seq<Turn>, n: int, p: Palette, inv_aspect: F32, j: int)
    requires
        forall|b: int| 0 <= b < n ==> !(#[trigger] bands[b]).cos.nan(),
        0 <= j < dots(img, bands, n, p, inv_aspect).len(),
    ensures
        F32::quotient(10, 100).le(dots(img, bands, n, p, inv_aspect)[j].y),
    decreases n,
{
    if n > 0 {
        let before = dots(img, bands, n - 1, p, inv_aspect);
        if j < before.len() {
            law_dots_are_in_front(img, bands, n - 1, p, inv_aspect, j);
        } else {
            assert(!bands[n - 1].cos.nan());
            lemma_fraction(70, 100);
            law_nothing_is_behind(bands[n - 1], img_radius());
        }
    }
}

/// The lobes lie on the front half.
pub proof fn law_lobes_are_in_front(t: Turn, decay: F32)
    requires
        !t.cos.nan(),
        is_part(decay),
    ensures
        F32::quotient(10, 100).le(lobe_point(t, decay).y),
{
    lemma_one();
    lemma_fraction(10, 100);
    law_lobe_never_collapses(decay);
    law_nothing_is_behind(t, lobe_radius(decay));
}

/// What a band adds in a direction lies from zero to two.
pub(super) proof fn lemma_contribution(img: ImagingFrame, bells: Seq<F32>, turns: Seq<Turn>, b: int, i: int)
    requires
        is_part(img.energy@[b]),
        is_part(img.diffuseness@[b]),
        is_part(bells[160 * b + i]),
        turns[i].cos.within(-F32::unit(), F32::unit()),
    ensures
        contribution(img, bells, turns, b, i).within(F32::nought(), F32::whole(2)),
        contribution(img, bells, turns, b, i).finite(),
{
    lemma_one();
    lemma_whole(2);
    let e = img.energy@[b];
    let d = img.diffuseness@[b];
    lemma_part_is_finite(d);
    lemma_sub_between(F32::unit(), d, F32::nought(), F32::unit());
    lemma_product_of_parts(e, F32::unit() - d);
    lemma_product_of_parts(e * (F32::unit() - d), bells[160 * b + i]);
    lemma_product_of_parts(e, d);
    law_diffuse_weight_is_part(turns[i].cos);
    lemma_product_of_parts(e * d, diffuse(turns[i].cos));
    let x = e * (F32::unit() - d) * bells[160 * b + i];
    let y = e * d * diffuse(turns[i].cos);
    lemma_part_is_finite(x);
    lemma_part_is_finite(y);
    lemma_add_between(x, y, F32::nought(), F32::whole(2));
    lemma_bounded_is_finite_between(x + y, F32::nought(), F32::whole(2));
}

/// The place of a band in the spectrum lies from zero to one.
pub(super) proof fn lemma_ramp(b: int)
    requires
        0 <= b < NUM_BANDS,
    ensures
        is_part(ramp(b)),
{
    lemma_one();
    lemma_whole(b);
    lemma_whole(63);
    lemma_whole(64);
    lemma_sub_between(F32::whole(64), F32::unit(), F32::whole(63), F32::whole(63));
    lemma_same_value(F32::whole(64) - F32::unit(), F32::whole(63));
    let w = one_units();
    let u = b * w;
    assert(0 * (63 * w) <= u * w <= w * (63 * w)) by (nonlinear_arith)
        requires u == b * w, 0 <= b <= 63, w > 0;
    lemma_div_between(F32::whole(b), band_span(), F32::nought(), F32::unit());
}

/// The sums over bands of what comes from a direction: the weighted one is the smaller.
pub(super) proof fn lemma_lobe(img: ImagingFrame, bells: Seq<F32>, turns: Seq<Turn>, i: int, lo: int, n: int)
    requires
        0 <= lo <= n <= NUM_BANDS,
        is_spectrum(img.energy@),
        is_spectrum(img.diffuseness@),
        forall|b: int| lo <= b < n ==> is_part(#[trigger] bells[160 * b + i]),
        turns[i].cos.within(-F32::unit(), F32::unit()),
    ensures
        lobe_energy(img, bells, turns, i, lo, n).within(F32::nought(), F32::whole(2 * (n - lo))),
        lobe_energy(img, bells, turns, i, lo, n).finite(),
        F32::nought().le(lobe_moment(img, bells, turns, i, lo, n)),
        lobe_moment(img, bells, turns, i, lo, n).le(lobe_energy(img, bells, turns, i, lo, n)),
    decreases n - lo,
{
    lemma_one();
    lemma_whole(2 * (n - lo));
    if n > lo {
        let b = n - 1;
        lemma_lobe(img, bells, turns, i, lo, b);
        lemma_whole(2);
        lemma_whole(2 * (b - lo));
        let w = one_units();
        assert((2 * (n - lo)) * w == (2 * (b - lo)) * w + 2 * w) by (nonlinear_arith)
            requires b == n - 1;
        let e = lobe_energy(img, bells, turns, i, lo, b);
        let m = lobe_moment(img, bells, turns, i, lo, b);
        lemma_bounded_is_finite_between(m, F32::nought(), e);
        if counts(img, b) {
            assert(is_part(bells[160 * b + i]));
            assert(is_part(img.energy@[b]) && is_part(img.diffuseness@[b]));
            lemma_contribution(img, bells, turns, b, i);
            let c = contribution(img, bells, turns, b, i);
            lemma_ramp(b);
            lemma_part_is_finite(ramp(b));
            let cu = c.units();
            let t = ramp(b).units();
            assert(0 * w <= cu * t <= cu * w) by (nonlinear_arith)
                requires cu >= 0, 0 <= t <= w;
            lemma_mul_between(c, ramp(b), F32::nought(), c);
            lemma_bounded_is_finite_between(c * ramp(b), F32::nought(), c);
            lemma_add_between(e, c, F32::nought(), F32::whole(2 * (n - lo)));
            lemma_bounded_is_finite_between(e + c, F32::nought(), F32::whole(2 * (n - lo)));
            lemma_add_order(m, c * ramp(b), e, c);
            lemma_add_sign(m, c * ramp(b));
        } else {
            assert(2 * (b - lo) * w <= 2 * (n - lo) * w);
        }
    }
}

/// The energy of a lobe is nowhere negative, and its mean place in the spectrum lies from
/// zero to one.
pub proof fn law_lobe_is_measured(img: ImagingFrame, bells: Seq<F32>, turns: Seq<Turn>, i: int, lo: int, n: int)
    requires
        0 <= lo <= n <= NUM_BANDS,
        is_spectrum(img.energy@),
        is_spectrum(img.diffuseness@),
        forall|b: int| lo <= b < n ==> is_part(#[trigger] bells[160 * b + i]),
        turns[i].cos.within(-F32::unit(), F32::unit()),
    ensures
        F32::nought().le(lobe_energy(img, bells, turns, i, lo, n)),
        lobe_energy(img, bells, turns, i, lo, n).le(F32::whole(2 * (n - lo))),
        is_part(lobe_tint(lobe_energy(img, bells, turns, i, lo, n), lobe_moment(img, bells, turns, i, lo, n))),
{
    lemma_one();
    lemma_lobe(img, bells, turns, i, lo, n);
    let e = lobe_energy(img, bells, turns, i, lo, n);
    let m = lobe_moment(img, bells, turns, i, lo, n);
    lemma_bounded_is_finite_between(m, F32::nought(), e);
    lemma_quotient_number(1, 1_000_000);
    let w = one_units();
    assert(0 * 1_000_000 <= 1 * w <= w * 1_000_000);
    lemma_quotient_between(1, 1_000_000, F32::nought(), F32::unit());
    if F32::quotient(1, 1_000_000).lt(e) {
        let mu = m.units();
        let eu = e.units();
        assert(0 * eu <= mu * w <= w * eu) by (nonlinear_arith)
            requires 0 <= mu <= eu, w > 0;
        lemma_div_between(m, e, F32::nought(), F32::unit());
    }
}

/// A full reflection takes an angle to half a turn minus the angle, on the same side, but
/// for rounding.
proof fn lemma_full_reflection(a: F32)
    requires
        a.finite(),
        2 * distance(a.units(), 0) <= 7 * one_units(),
    ensures
        reflected(a, F32::unit()).finite(),
        a.units() >= 0 ==> distance(reflected(a, F32::unit()).units(), pi().units() - a.units()) <= 2 * slack(),
        a.units() < 0 ==> distance(reflected(a, F32::unit()).units(), -(pi().units() + a.units())) <= 2 * slack(),
{
    lemma_one();
    lemma_slack();
    lemma_circle();
    lemma_pi();
    lemma_whole(2);
    lemma_whole(4);
    let w = one_units();
    let mag = a.unsigned();
    lemma_signed(false, a.mag());
    lemma_mag_units_order(0, a.mag());
    lemma_mag_units_order(F32::whole(4).mag(), a.mag());
    lemma_whole(8);
    assert(F32::whole(4).mag() + FRAC < INF_MAG) by {
        lemma_four();
    }
    let d = lemma_double(mag);
    let m = mag.units();
    assert((2 * m) * w == (2 * w) * m) by (nonlinear_arith);
    lemma_mul_between(F32::whole(2), mag, d, d);
    let two = F32::whole(2) * mag;
    lemma_same_value(two, d);
    lemma_sub_error(pi(), two);
    let x = pi() - two;
    let xu = x.units();
    assert(w * xu == xu * w) by (nonlinear_arith);
    lemma_mul_between(F32::unit(), x, x, x);
    let y = F32::unit() * x;
    lemma_same_value(y, x);
    lemma_add_error(mag, y);
    let z = mag + y;
    let sign = if a.lt(F32::nought()) {
        -F32::unit()
    } else {
        F32::unit()
    };
    lemma_neg(F32::unit());
    lemma_signed_product(sign, z);
}

/// Four is far from the greatest number.
proof fn lemma_four()
    ensures
        F32::whole(4).mag() == 0x4080_0000,
{
    let four = F32 { bits: 0x4080_0000 };
    lemma_one();
    lemma_whole(4);
    lemma2_to64();
    lemma_mag_units_at(128, 0x80_0000);
    lemma_pow2_adds(23, 128);
    lemma_pow2_adds(2, 149);
    assert(four.mag() == 128 * FRAC + 0x80_0000);
    lemma_mag_units_order(four.mag(), F32::whole(4).mag());
    lemma_mag_units_order(F32::whole(4).mag(), four.mag());
}

/// Half a turn lies from 3.125 to 3.25.
pub(super) proof fn lemma_pi()
    ensures
        25 * one_units() <= 8 * pi().units(),
        16 * pi().units() <= 51 * one_units(),
{
    lemma_one();
    lemma2_to64();
    lemma_binary_fraction(25, 3);
    lemma_binary_fraction(51, 4);
    lemma_quotient_between(13176795, 4194304, F32::quotient(25, 8), F32::quotient(51, 16));
}

/// A scene that is all behind is shown on the same side at half a turn minus its angle,
/// but for rounding: 45 degrees become 135.
pub proof fn law_full_reflection_keeps_the_side(azimuth: F32)
    requires
        azimuth.within(-quarter(), quarter()),
        azimuth.units() != 0,
    ensures
        azimuth.units() > 0 ==> distance(reflected(azimuth, F32::unit()).units(), pi().units() - azimuth.units()) <= 2
            * slack() && reflected(azimuth, F32::unit()).units() > 0,
        azimuth.units() < 0 ==> distance(reflected(azimuth, F32::unit()).units(), -pi().units() - azimuth.units()) <= 2
            * slack() && reflected(azimuth, F32::unit()).units() < 0,
{
    lemma_one();
    lemma_slack();
    lemma_circle();
    lemma_pi();
    lemma_neg(quarter());
    lemma_bounded_is_finite_between(azimuth, -quarter(), quarter());
    lemma_full_reflection(azimuth);
}

/// Reflecting twice gives the direction back, but for rounding.
pub proof fn law_reflecting_twice_restores(azimuth: F32)
    requires
        azimuth.within(-quarter(), quarter()),
        azimuth.units() != 0,
    ensures
        distance(
            reflected(reflected(azimuth, F32::unit()), F32::unit()).units(),
            azimuth.units(),
        ) <= 4 * slack(),
{
    lemma_one();
    lemma_slack();
    lemma_circle();
    lemma_pi();
    lemma_neg(quarter());
    lemma_bounded_is_finite_between(azimuth, -quarter(), quarter());
    lemma_full_reflection(azimuth);
    law_full_reflection_keeps_the_side(azimuth);
    lemma_full_reflection(reflected(azimuth, F32::unit()));
}

} // verus!
