//! The stereo image from frame to frame, and the estimate of the rear.

use crate::bands::NUM_BANDS;
use crate::dsp::{height, is_part, law_height_is_part, law_smoothing_stays_between, smooth, Complex};
use crate::float::laws::{
    lemma_bounded_is_finite_between, lemma_div_sign, lemma_one, lemma_times_zero, lemma_whole, lemma_zero_mag,
};
use crate::float::value::{
    clip, close, lemma_close_add, lemma_close_div, lemma_close_mul, lemma_close_part, lemma_close_sub,
    lemma_close_toward, lemma_constants, lemma_size_mul, lemma_value_binary, lemma_value_div, lemma_value_le,
    lemma_value_mul, lemma_value_neg, lemma_value_order, lemma_value_part, lemma_value_quotient, lemma_value_sub,
    lemma_value_unsigned, lemma_value_whole, size,
};
use crate::float::F32;
use crate::stereo::{
    coherence, excess, follow_rate, follows, is_frontal, is_inverse, on_arc, plausible, quarter, rear, shade, sideways,
    ImagingFrame, Measure, Reading, SceneReading,
};
use vstd::arithmetic::power2::{lemma2_to64, pow2};
use vstd::prelude::*;

verus! {

/// A scene is believed as far as its low frequencies are one signal: not at all up to a
/// coherence of 55 hundredths, fully from 80. One that is the inverse of itself is not
/// believed.
pub proof fn law_coherent_scenes_are_believed(low_cross: Complex, low_span: F32, low_norm: F32)
    requires
        low_span.finite(),
        low_norm.finite(),
        low_span.value() > 0real,
        low_norm.value() >= 0real,
        low_norm.value() / low_span.value() <= 1000real,
    ensures
        is_inverse(low_cross) ==> plausible(low_cross, low_span, low_norm).value() == 0real,
        !is_inverse(low_cross) ==> close(
            plausible(low_cross, low_span, low_norm),
            clip((low_norm.value() / low_span.value() - 55real / 100real) / (25real / 100real), 0real, 1real),
            1real / 500real,
        ),
        !is_inverse(low_cross) && low_norm.value() / low_span.value() <= 2real ==> close(
            plausible(low_cross, low_span, low_norm),
            clip((low_norm.value() / low_span.value() - 55real / 100real) / (25real / 100real), 0real, 1real),
            1real / 100000real,
        ),
        is_part(plausible(low_cross, low_span, low_norm)),
{
    lemma_constants();
    let n = low_norm.value();
    let s = low_span.value();
    let r = n / s;
    assert(r >= 0real) by (nonlinear_arith)
        requires r == n / s, n >= 0real, s > 0real;
    lemma_value_div(low_norm, low_span);
    let c = low_norm / low_span;
    lemma_value_quotient(55, 100);
    lemma_value_quotient(25, 100);
    let t = F32::quotient(55, 100);
    let w = F32::quotient(25, 100);
    let f = 1real / 20000000real;
    if r <= 2real {
        lemma_close_sub(c, t, r, 55real / 100real, 1real / 5000000real, f);
        let g = 1real / 2000000real;
        lemma_close_div(c - t, w, r - 55real / 100real, 25real / 100real, g, f, 8real, 25real / 100real);
        lemma_close_part((c - t) / w, (r - 55real / 100real) / (25real / 100real), 1real / 100000real);
    } else {
        lemma_close_sub(c, t, r, 55real / 100real, 1real / 15000real, f);
        let g = 1real / 7000real;
        lemma_close_div(c - t, w, r - 55real / 100real, 25real / 100real, g, f, 4000real, 25real / 100real);
        lemma_close_part((c - t) / w, (r - 55real / 100real) / (25real / 100real), 1real / 500real);
    }
    lemma_value_part(plausible(low_cross, low_span, low_norm));
    lemma_value_part(F32::nought());
}

/// A cross-spectrum is that of a signal and its inverse where it is negative and nearly
/// real.
pub proof fn law_inverse_is_negative_and_real(c: Complex)
    requires
        c.re.finite(),
        c.im.finite(),
        size(c.re.value()) <= 1000000000000real,
        size(c.im.value()) <= 1000000000000real,
    ensures
        c.re.value() > 0real ==> !is_inverse(c),
        size(c.im.value()) > size(c.re.value()) / 1000real + 1real / 1000000000real ==> !is_inverse(c),
        c.re.value() < 0real && size(c.im.value()) + 1real / 1000000000real < size(c.re.value()) / 1100real
            ==> is_inverse(c),
{
    lemma_constants();
    lemma_value_quotient(1, 1024);
    lemma_value_le(c.re, F32::nought());
    lemma_value_unsigned(c.re);
    lemma_value_unsigned(c.im);
    let x = c.re.unsigned();
    let q = F32::quotient(1, 1024);
    let m = x.value();
    lemma_binary_thousandth();
    assert(q.value() == 1real / 1024real);
    lemma_value_mul(x, q);
    lemma_value_le(c.im.unsigned(), x * q);
}

/// The value of one part in 1024.
proof fn lemma_binary_thousandth()
    ensures
        F32::quotient(1, 1024).value() == 1real / 1024real,
{
    lemma2_to64();
    lemma_value_binary(1, 10);
    assert(pow2(10) == 1024);
}

/// Ten times a logarithm: its decibels.
proof fn lemma_decibels(x: F32)
    requires
        x.finite(),
        size(x.value()) <= 64real,
    ensures
        close(F32::whole(10) * x, 10real * x.value(), 1real / 20000real),
        x.value() >= 1real / 10000000000real ==> (F32::whole(10) * x).value() > 0real,
        x.value() <= -1real / 10000000000real ==> (F32::whole(10) * x).value() < 0real,
        x.value() == 0real ==> (F32::whole(10) * x).value() == 0real,
{
    lemma_constants();
    lemma_value_whole(10);
    lemma_value_mul(F32::whole(10), x);
    if x.value() == 0real {
        lemma_one();
        lemma_value_order(x, F32::nought());
        lemma_zero_mag(x);
        lemma_times_zero(F32::whole(10), x);
        lemma_value_order(F32::whole(10) * x, F32::nought());
    }
}

/// The level difference drops in the ear's region where the scene is behind: the drop,
/// against the reference and on its side, is shade, all of it at 4 decibels.
pub proof fn law_shade_is_the_drop(s: SceneReading)
    requires
        s.pinna_log.finite(),
        s.reference_log.finite(),
        size(s.pinna_log.value()) <= 64real,
        size(s.reference_log.value()) <= 64real,
    ensures
        s.reference_log.value() >= 1real / 10000000000real ==> close(
            shade(s),
            clip(10real * (s.reference_log.value() - s.pinna_log.value()) / 4real, 0real, 1real),
            1real / 10000real,
        ),
        s.reference_log.value() <= -1real / 10000000000real ==> close(
            shade(s),
            clip(10real * (s.pinna_log.value() - s.reference_log.value()) / 4real, 0real, 1real),
            1real / 10000real,
        ),
        s.reference_log.value() == 0real ==> shade(s).value() == 0real,
{
    lemma_constants();
    lemma_decibels(s.pinna_log);
    lemma_decibels(s.reference_log);
    lemma_value_whole(4);
    let p = F32::whole(10) * s.pinna_log;
    let r = F32::whole(10) * s.reference_log;
    let u = 10real * s.pinna_log.value();
    let v = 10real * s.reference_log.value();
    let e = 1real / 20000real;
    lemma_close_sub(p, r, u, v, e, e);
    lemma_close_sub(r, p, v, u, e, e);
    lemma_value_le(F32::nought(), r);
    lemma_value_le(r, F32::nought());
    lemma_value_unsigned(p);
    lemma_shaded(p - r, u - v);
    lemma_shaded(r - p, v - u);
    let d = p.unsigned();
    lemma_value_neg(d);
    lemma_value_div(d.spec_neg(), F32::whole(4));
    lemma_not_above(d.spec_neg());
    lemma_value_part(d.spec_neg() / F32::whole(4));
}

/// A quarter of a number that is not positive is not.
proof fn lemma_not_above(x: F32)
    requires
        x.finite(),
        x.value() <= 0real,
    ensures
        (x / F32::whole(4)).value() <= 0real,
        !(x / F32::whole(4)).nan(),
{
    lemma_constants();
    lemma_one();
    lemma_whole(4);
    lemma_value_order(x, F32::nought());
    lemma_div_sign(x, F32::whole(4));
    lemma_value_order(x / F32::whole(4), F32::nought());
}

/// The shade of an excess.
proof fn lemma_shaded(x: F32, v: real)
    requires
        close(x, v, 2real / 10000real),
        size(v) <= 1280real,
    ensures
        close(
            (x.spec_neg() / F32::whole(4)).clamped(F32::nought(), F32::unit()),
            clip(-v / 4real, 0real, 1real),
            1real / 10000real,
        ),
{
    lemma_value_whole(4);
    lemma_value_neg(x);
    lemma_close_div(x.spec_neg(), F32::whole(4), -v, 4real, 2real / 10000real, 0real, 320real, 4real);
    lemma_close_part(x.spec_neg() / F32::whole(4), -v / 4real, 1real / 10000real);
}

/// How far the scene is to one side: its level difference, all of it at 6 decibels.
pub proof fn law_sideways_is_the_level_difference(s: SceneReading)
    requires
        s.wide_log.finite(),
        size(s.wide_log.value()) <= 64real,
    ensures
        close(sideways(s), clip(10real * size(s.wide_log.value()) / 6real, 0real, 1real), 1real / 10000real),
{
    lemma_decibels(s.wide_log);
    lemma_value_whole(6);
    let w = F32::whole(10) * s.wide_log;
    lemma_value_unsigned(w);
    let v = 10real * size(s.wide_log.value());
    lemma_close_div(w.unsigned(), F32::whole(6), v, 6real, 1real / 20000real, 0real, 110real, 6real);
    lemma_close_part(w.unsigned() / F32::whole(6), v / 6real, 1real / 10000real);
}

/// The scene is behind as far as the drop, the side and the coherence of its low
/// frequencies all say so.
pub proof fn law_rear_is_a_product(s: SceneReading, low_cross: Complex, low_span: F32)
    requires
        is_part(shade(s)),
        is_part(sideways(s)),
        is_part(plausible(low_cross, low_span, s.low_norm)),
    ensures
        close(
            rear(s, low_cross, low_span),
            shade(s).value() * sideways(s).value() * plausible(low_cross, low_span, s.low_norm).value(),
            1real / 1000000real,
        ),
{
    let a = shade(s);
    let b = sideways(s);
    let c = plausible(low_cross, low_span, s.low_norm);
    lemma_value_part(a);
    lemma_value_part(b);
    lemma_value_part(c);
    lemma_close_mul(a, b, a.value(), b.value(), 0real, 0real, 1real, 1real);
    lemma_size_mul(a.value(), b.value(), 1real, 1real);
    lemma_close_mul(a * b, c, a.value() * b.value(), c.value(), 1real / 10000000real, 0real, 1real, 1real);
}

/// Directions and diffuseness are followed by a tenth of the way and up to three tenths
/// more, as the band is loud.
pub proof fn law_follow_rate_grows_with_energy(energy: F32)
    requires
        is_part(energy),
    ensures
        close(follow_rate(energy), 10real / 100real + (30real / 100real) * energy.value(), 1real / 10000000real),
{
    lemma_value_part(energy);
    lemma_value_quotient(10, 100);
    lemma_value_quotient(30, 100);
    let e = 2real / 100000000real;
    lemma_close_mul(F32::quotient(30, 100), energy, 30real / 100real, energy.value(), e, 0real, 30real / 100real, 1real);
    lemma_close_add(
        F32::quotient(10, 100),
        F32::quotient(30, 100) * energy,
        10real / 100real,
        (30real / 100real) * energy.value(),
        1real / 100000000real,
        4real / 100000000real,
    );
}

/// The image follows the frame: each band's energy, direction and diffuseness, and the
/// estimate of the rear, go their part of the way to what the frame shows.
pub proof fn law_image_follows_the_frame(
    last: ImagingFrame,
    next: ImagingFrame,
    m: Measure,
    scene: SceneReading,
    readings: Seq<Reading>,
    angles: Seq<F32>,
    gain: F32,
    b: int,
)
    requires
        0 <= b < NUM_BANDS,
        last.is_image(),
        follows(last, next, m, scene, readings, angles, gain),
        gain.finite(),
        !readings[b].level_log.nan(),
        is_part(coherence(m.bands@[b], readings[b])),
        is_frontal(on_arc(angles[b])),
        is_part(rear(scene, m.low_cross, m.low_span)),
    ensures
        ({
            let target = height(readings[b].level_log, gain);
            let rate = 10real / 100real + (30real / 100real) * next.energy@[b].value();
            let a = last.azimuth@[b].value();
            let d = last.diffuseness@[b].value();
            let r = last.rear.value();
            &&& next.energy@[b] == smooth(last.energy@[b], target)
            &&& close(next.azimuth@[b], a + (on_arc(angles[b]).value() - a) * rate, 1real / 100000real)
            &&& close(
                next.diffuseness@[b],
                d + (1real - coherence(m.bands@[b], readings[b]).value() - d) * rate,
                1real / 100000real,
            )
            &&& close(
                next.rear,
                r + (rear(scene, m.low_cross, m.low_span).value() - r) * (12real / 100real),
                1real / 100000real,
            )
        }),
{
    lemma_constants();
    let target = height(readings[b].level_log, gain);
    law_height_is_part(readings[b].level_log, gain);
    assert(is_part(last.energy@[b]) && is_part(last.diffuseness@[b]) && is_frontal(last.azimuth@[b]));
    law_smoothing_stays_between(last.energy@[b], target);
    let energy = next.energy@[b];
    law_follow_rate_grows_with_energy(energy);
    lemma_value_part(energy);
    let rate = 10real / 100real + (30real / 100real) * energy.value();
    let e = 1real / 10000000real;
    lemma_frontal(last.azimuth@[b]);
    lemma_frontal(on_arc(angles[b]));
    lemma_close_toward(
        last.azimuth@[b],
        on_arc(angles[b]),
        follow_rate(energy),
        last.azimuth@[b].value(),
        on_arc(angles[b]).value(),
        rate,
        e,
        2real,
    );
    let c = coherence(m.bands@[b], readings[b]);
    lemma_value_part(c);
    lemma_value_part(last.diffuseness@[b]);
    lemma_value_sub(F32::unit(), c);
    lemma_close_toward(
        last.diffuseness@[b],
        F32::unit() - c,
        follow_rate(energy),
        last.diffuseness@[b].value(),
        1real - c.value(),
        rate,
        e,
        1real,
    );
    lemma_value_part(last.rear);
    lemma_value_part(rear(scene, m.low_cross, m.low_span));
    lemma_value_quotient(12, 100);
    lemma_close_toward(
        last.rear,
        rear(scene, m.low_cross, m.low_span),
        F32::quotient(12, 100),
        last.rear.value(),
        rear(scene, m.low_cross, m.low_span).value(),
        12real / 100real,
        e,
        1real,
    );
}

/// A frontal direction is below two.
proof fn lemma_frontal(a: F32)
    requires
        is_frontal(a),
    ensures
        a.finite(),
        size(a.value()) <= 2real,
{
    lemma_value_quotient(13176795, 8388608);
    lemma_value_neg(quarter());
    lemma_value_le(quarter().spec_neg(), a);
    lemma_value_le(a, quarter());
    lemma_bounded_is_finite_between(a, quarter().spec_neg(), quarter());
}

} // verus!
