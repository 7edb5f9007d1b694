//! The spectrum: windowed samples, levels in decibels, gain and smoothing.

use crate::dsp::{
    attack, decay, hann, height, is_part, law_height_is_part, lemma_part_is_finite, level, peak, smooth, windowed,
};
use crate::float::laws::{
    lemma_add_is_number, lemma_add_order, lemma_bounded_is_finite_between, lemma_div_is_number, lemma_div_rounded,
    lemma_half, lemma_mul_between, lemma_mul_is_number, lemma_mul_order, lemma_not_zero, lemma_one, lemma_rounded_order,
    lemma_same_value, lemma_signed, lemma_whole, lemma_zero_product, one_units,
};
use crate::float::repr::{lemma_mag_units_order, mag_units};
use crate::float::round::{lemma_nearest_exact, lemma_nearest_scale};
use crate::float::value::{
    clip, close, dust, lemma_close_add, lemma_close_div, lemma_close_mul, lemma_close_part, lemma_close_sub,
    lemma_close_toward, lemma_constants, lemma_value_add, lemma_value_div, lemma_value_le, lemma_value_mul,
    lemma_value_order, lemma_value_part, lemma_value_quotient, lemma_value_whole, size,
};
use crate::float::F32;
use vstd::prelude::*;

verus! {

/// The part of the scale of 70 decibels that a level reaches, before the gain.
proof fn lemma_scale(log: F32)
    requires
        log.finite(),
        size(log.value()) <= 64real,
    ensures
        close(
            ((F32::whole(20) * log + F32::whole(70)) / F32::whole(70)).clamped(F32::nought(), F32::unit()),
            clip((20real * log.value() + 70real) / 70real, 0real, 1real),
            1real / 200000real,
        ),
{
    lemma_value_whole(20);
    lemma_value_whole(70);
    let l = log.value();
    lemma_close_mul(F32::whole(20), log, 20real, l, 0real, 0real, 20real, 64real);
    let db = F32::whole(20) * log;
    assert(close(db, 20real * l, 1real / 10000real));
    lemma_close_add(db, F32::whole(70), 20real * l, 70real, 1real / 10000real, 0real);
    let x = db + F32::whole(70);
    assert(close(x, 20real * l + 70real, 1real / 5000real));
    lemma_close_div(x, F32::whole(70), 20real * l + 70real, 70real, 1real / 5000real, 0real, 20real, 70real);
    lemma_close_part(x / F32::whole(70), (20real * l + 70real) / 70real, 1real / 200000real);
}

/// The height of a band is its level in decibels on a scale of 70, times the gain: a
/// level of `log` (its decimal logarithm) is `20 * log` decibels, the scale starts at
/// -70 and ends at 0, and what the gain lifts above one is cut off.
pub proof fn law_height_is_decibels_times_gain(log: F32, gain: F32)
    requires
        log.finite(),
        size(log.value()) <= 64real,
        gain.finite(),
        0real <= gain.value() <= 1000real,
    ensures
        close(
            height(log, gain),
            clip(clip((20real * log.value() + 70real) / 70real, 0real, 1real) * gain.value(), 0real, 1real),
            (1real + gain.value()) / 100000real,
        ),
{
    lemma_scale(log);
    let y = ((F32::whole(20) * log + F32::whole(70)) / F32::whole(70)).clamped(F32::nought(), F32::unit());
    let c = clip((20real * log.value() + 70real) / 70real, 0real, 1real);
    let g = gain.value();
    lemma_close_mul(y, gain, c, g, 1real / 200000real, 0real, 1real, g);
    lemma_close_part(y * gain, c * g, (1real + g) / 100000real);
}

/// Gain is a factor: the height at a gain is the height at gain one times the gain, as far
/// as it stays below one.
pub proof fn law_gain_is_a_factor(log: F32, gain: F32)
    requires
        !log.nan(),
        gain.finite(),
        0real <= gain.value() <= 1000real,
    ensures
        (height(log, F32::unit()) * gain).le(F32::unit()) ==> height(log, gain).value() == (height(log, F32::unit())
            * gain).value(),
        F32::unit().le(height(log, F32::unit()) * gain) ==> height(log, gain).value() == 1real,
        close(
            height(log, gain),
            clip(height(log, F32::unit()).value() * gain.value(), 0real, 1real),
            gain.value() / 10000000real + dust(),
        ),
{
    lemma_one();
    lemma_constants();
    lemma_whole(20);
    lemma_whole(70);
    lemma_not_zero(F32::whole(20));
    lemma_not_zero(F32::whole(70));
    lemma_mul_is_number(log, F32::whole(20));
    let db = F32::whole(20) * log;
    lemma_add_is_number(db, F32::whole(70));
    let x = db + F32::whole(70);
    lemma_div_is_number(x, F32::whole(70));
    let y = (x / F32::whole(70)).clamped(F32::nought(), F32::unit());
    lemma_value_part(x / F32::whole(70));
    lemma_value_part(y);
    let v = y.value();
    let g = gain.value();
    let norm = height(log, F32::unit());
    lemma_times_one(y);
    assert(norm == y);
    assert(0real <= v * g <= g) by (nonlinear_arith)
        requires 0real <= v <= 1real, g >= 0real;
    lemma_value_mul(y, gain);
    lemma_value_part(y * gain);
    lemma_value_le(y * gain, F32::unit());
    lemma_value_le(F32::unit(), y * gain);
    lemma_value_le(F32::nought(), y * gain);
    lemma_product_sign(y, gain);
}

/// More gain is more height: twice the gain gives a larger height, as long as it stays
/// below one.
pub proof fn law_doubled_gain_is_higher(log: F32, gain: F32, more: F32)
    requires
        !log.nan(),
        gain.finite(),
        more.finite(),
        0real <= gain.value() <= 100real,
        more.value() >= 2real * gain.value(),
        more.value() <= 1000real,
        100000000real * dust() <= height(log, gain).value() < 1real,
    ensures
        height(log, gain).lt(height(log, more)),
{
    lemma_constants();
    law_gain_is_a_factor(log, gain);
    law_gain_is_a_factor(log, more);
    lemma_height(log, F32::unit());
    lemma_height(log, gain);
    lemma_height(log, more);
    let norm = height(log, F32::unit());
    let n = norm.value();
    let g = gain.value();
    let m = more.value();
    assert(0real <= n * g <= g && n * m >= 2real * (n * g) && n * m <= m) by (nonlinear_arith)
        requires 0real <= n <= 1real, g >= 0real, m >= 2real * g;
    lemma_value_mul(norm, gain);
    lemma_value_mul(norm, more);
    lemma_value_le(norm * gain, F32::unit());
    lemma_value_le(F32::unit(), norm * gain);
    lemma_value_le(norm * more, F32::unit());
    lemma_value_le(F32::unit(), norm * more);
    lemma_value_le(height(log, gain), height(log, more));
}

/// A height goes from zero to one.
proof fn lemma_height(log: F32, gain: F32)
    requires
        !log.nan(),
        gain.finite(),
    ensures
        height(log, gain).finite(),
        0real <= height(log, gain).value() <= 1real,
        !height(log, gain).nan(),
{
    lemma_constants();
    law_height_is_part(log, gain);
    lemma_value_part(height(log, gain));
}

/// A louder level is no lower.
pub proof fn law_louder_is_no_lower(log: F32, louder: F32, gain: F32)
    requires
        log.finite(),
        louder.finite(),
        log.le(louder),
        size(log.value()) <= 1000000real,
        size(louder.value()) <= 1000000real,
        gain.finite(),
        0real <= gain.value(),
    ensures
        height(log, gain).le(height(louder, gain)),
{
    lemma_one();
    lemma_constants();
    lemma_whole(20);
    lemma_whole(70);
    lemma_value_whole(20);
    lemma_value_whole(70);
    lemma_value_le(F32::nought(), gain);
    let w = one_units();
    let a = log.units();
    let b = louder.units();
    assert((20 * w) * a <= (20 * w) * b) by (nonlinear_arith)
        requires a <= b, w > 0;
    lemma_mul_order(F32::whole(20), log, F32::whole(20), louder);
    lemma_value_mul(F32::whole(20), log);
    lemma_value_mul(F32::whole(20), louder);
    let p = F32::whole(20) * log;
    let q = F32::whole(20) * louder;
    lemma_add_order(p, F32::whole(70), q, F32::whole(70));
    lemma_value_add(p, F32::whole(70));
    lemma_value_add(q, F32::whole(70));
    let x = p + F32::whole(70);
    let y = q + F32::whole(70);
    lemma_div_order(x, y, F32::whole(70));
    lemma_value_div(x, F32::whole(70));
    lemma_value_div(y, F32::whole(70));
    let c = (x / F32::whole(70)).clamped(F32::nought(), F32::unit());
    let d = (y / F32::whole(70)).clamped(F32::nought(), F32::unit());
    lemma_part_is_finite(c);
    lemma_part_is_finite(d);
    let g = gain.units();
    assert(c.units() * g <= d.units() * g) by (nonlinear_arith)
        requires c.units() <= d.units(), g >= 0;
    lemma_mul_order(c, gain, d, gain);
}

/// Division by a positive number keeps the order.
pub proof fn lemma_div_order(a: F32, b: F32, d: F32)
    requires
        a.finite(),
        b.finite(),
        d.finite(),
        d.units() > 0,
        a.le(b),
    ensures
        (a / d).le(b / d),
{
    lemma_one();
    lemma_div_rounded(a, d);
    lemma_div_rounded(b, d);
    let w = one_units();
    let x = a.units() * w;
    let y = b.units() * w;
    assert(x * d.units() <= y * d.units()) by (nonlinear_arith)
        requires x == a.units() * w, y == b.units() * w, a.units() <= b.units(), w > 0, d.units() > 0;
    lemma_rounded_order(x, d.units(), a.negative(), y, d.units(), b.negative());
}

/// A level moves 45 hundredths of the way up and 18 hundredths of the way down.
pub proof fn law_smoothing_rises_fast_and_falls_slowly(from: F32, target: F32)
    requires
        is_part(from),
        is_part(target),
    ensures
        from.lt(target) ==> close(
            smooth(from, target),
            from.value() + (target.value() - from.value()) * (45real / 100real),
            1real / 100000real,
        ),
        !from.lt(target) ==> close(
            smooth(from, target),
            from.value() + (target.value() - from.value()) * (18real / 100real),
            1real / 100000real,
        ),
{
    lemma_value_part(from);
    lemma_value_part(target);
    lemma_value_quotient(45, 100);
    lemma_value_quotient(18, 100);
    let e = 1real / 10000000real;
    lemma_close_toward(from, target, attack(), from.value(), target.value(), 45real / 100real, e, 1real);
    lemma_close_toward(from, target, decay(), from.value(), target.value(), 18real / 100real, e, 1real);
}

/// The level of a band is the amplitude of its loudest bin, as a part of what a full tone
/// gives, and a billionth.
pub proof fn law_level_is_relative_amplitude(amplitude: F32)
    requires
        amplitude.finite(),
        0real <= amplitude.value() <= 1000000000real,
    ensures
        close(
            level(amplitude),
            amplitude.value() / 1024real + 1real / 1000000000real,
            (amplitude.value() / 1024real + 1real / 1000000000real) / 1000000real,
        ),
{
    lemma_constants();
    lemma_value_whole(2048);
    let w = F32::whole(2048);
    lemma_close_mul(w, F32::half_unit(), 2048real, 1real / 2real, 0real, 0real, 2048real, 1real / 2real);
    let d = w * F32::half_unit();
    let a = amplitude.value();
    lemma_value_mul(w, F32::half_unit());
    lemma_exact_half();
    assert(d.value() == 1024real);
    lemma_value_div(amplitude, d);
    let x = amplitude / d;
    lemma_value_quotient(1, 1000000000);
    lemma_value_add(x, F32::quotient(1, 1000000000));
}

/// Half of 2048 is 1024.
proof fn lemma_exact_half()
    ensures
        (F32::whole(2048) * F32::half_unit()).value() == 1024real,
        (F32::whole(2048) * F32::half_unit()).finite(),
{
    lemma_one();
    lemma_half();
    lemma_whole(2048);
    lemma_whole(1024);
    lemma_value_whole(1024);
    let w = one_units();
    let h = F32::half_unit().units();
    assert((1024 * w) * w == (2048 * w) * h) by (nonlinear_arith)
        requires 2 * h == w;
    lemma_mul_between(F32::whole(2048), F32::half_unit(), F32::whole(1024), F32::whole(1024));
    let d = F32::whole(2048) * F32::half_unit();
    lemma_same_value(d, F32::whole(1024));
    lemma_value_order(d, F32::whole(1024));
}

/// The window is the raised cosine: nothing where the cosine is one, everything where it
/// is minus one.
pub proof fn law_window_is_raised_cosine(cosine: F32)
    requires
        cosine.finite(),
        size(cosine.value()) <= 1real,
    ensures
        close(hann(cosine), (1real - cosine.value()) / 2real, 1real / 1000000real),
{
    lemma_constants();
    let c = cosine.value();
    lemma_close_mul(F32::half_unit(), cosine, 1real / 2real, c, 0real, 0real, 1real / 2real, 1real);
    lemma_close_sub(
        F32::half_unit(),
        F32::half_unit() * cosine,
        1real / 2real,
        1real / 2real * c,
        0real,
        1real / 10000000real,
    );
}

/// Every sample is multiplied by its place of the window.
pub proof fn law_samples_are_windowed(samples: Seq<F32>, window: Seq<F32>, i: int)
    requires
        0 <= i < window.len(),
        samples[i].finite(),
        window[i].finite(),
        size(samples[i].value()) <= 1000real,
        0real <= window[i].value() <= 1real,
    ensures
        windowed(samples, window).len() == window.len(),
        close(windowed(samples, window)[i].re, samples[i].value() * window[i].value(), 1real / 10000real),
        windowed(samples, window)[i].im.value() == 0real,
{
    lemma_constants();
    lemma_close_mul(
        samples[i],
        window[i],
        samples[i].value(),
        window[i].value(),
        0real,
        0real,
        1000real,
        1real,
    );
}

/// The amplitude of a band is that of its loudest bin.
pub proof fn law_peak_is_the_loudest(values: Seq<F32>, lo: int, hi: int)
    requires
        lo <= hi,
        forall|k: int| lo <= k < hi ==> !(#[trigger] values[k]).nan() && values[k].value() >= 0real,
    ensures
        forall|k: int| lo <= k < hi ==> (#[trigger] values[k]).le(peak(values, lo, hi)),
        lo < hi ==> exists|k: int| lo <= k < hi && (#[trigger] values[k]).value() == peak(values, lo, hi).value(),
        lo == hi ==> peak(values, lo, hi).value() == 0real,
        !peak(values, lo, hi).nan(),
    decreases hi - lo,
{
    lemma_constants();
    lemma_one();
    if lo < hi {
        law_peak_is_the_loudest(values, lo, hi - 1);
        let p = peak(values, lo, hi - 1);
        let x = values[hi - 1];
        lemma_value_le(p, x);
        lemma_value_le(F32::nought(), x);
        if lo < hi - 1 {
            let k = choose|k: int| lo <= k < hi - 1 && (#[trigger] values[k]).value() == p.value();
            assert(values[k].value() == p.value());
        }
    }
}

/// One times a number is the number.
proof fn lemma_times_one(y: F32)
    requires
        is_part(y),
    ensures
        (y * F32::unit()).clamped(F32::nought(), F32::unit()) == y,
{
    lemma_one();
    lemma_bounded_is_finite_between(y, F32::nought(), F32::unit());
    reveal(F32::spec_mul);
    let m = mag_units(y.mag());
    let w = one_units();
    lemma_mag_units_order(0, y.mag());
    assert(mag_units(F32::unit().mag()) == w);
    assert(!F32::unit().negative());
    lemma_nearest_exact(y.mag());
    lemma_nearest_scale(m, 1, w);
    assert(m * w == w * m) by (nonlinear_arith);
    lemma_signed(y.negative(), y.mag());
    assert(y * F32::unit() == y);
}

/// A product of numbers that are not negative is not.
pub proof fn lemma_product_sign(a: F32, b: F32)
    requires
        a.finite(),
        b.finite(),
        a.value() >= 0real,
        b.value() >= 0real,
        size(a.value() * b.value()) <= 1000real,
    ensures
        (a * b).value() >= 0real,
{
    lemma_constants();
    lemma_one();
    lemma_value_le(F32::nought(), a);
    lemma_value_le(F32::nought(), b);
    lemma_value_mul(a, b);
    let x = a.units();
    let y = b.units();
    assert(0 * 0 <= x * y) by (nonlinear_arith)
        requires x >= 0, y >= 0;
    lemma_mul_order(F32::nought(), F32::nought(), a, b);
    lemma_zero_product(F32::nought(), F32::nought());
    lemma_value_le(F32::nought() * F32::nought(), a * b);
    lemma_value_order(F32::nought() * F32::nought(), F32::nought());
}

} // verus!
