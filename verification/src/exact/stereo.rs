//! Where a band stands: time and level differences, the law of tangents and the arc.

use crate::dsp::is_part;
use crate::float::laws::{
    lemma_div_between, lemma_div_sign, lemma_one, lemma_same_value, lemma_sub_between, lemma_sub_sign, lemma_times_zero,
    lemma_whole, lemma_zero_mag, lemma_zero_over, one_units,
};
use crate::float::value::{
    apart, clip, close, dust, lemma_close_add, lemma_close_clamped, lemma_close_div, lemma_close_mul, lemma_close_part,
    lemma_constants, lemma_relative_div, lemma_size_mul, lemma_value_add, lemma_value_binary, lemma_value_clamped,
    lemma_value_div, lemma_value_le, lemma_value_mul, lemma_value_neg, lemma_value_order, lemma_value_part,
    lemma_value_quotient, lemma_value_sub, lemma_value_whole, size,
};
use crate::float::F32;
use crate::stereo::{
    coherence, itd_weight, laterality, level_cue, longest_delay, on_arc, quarter, source_tangent, speaker_tangent, tau,
    time_cue, BandMeasure, Reading,
};
use vstd::arithmetic::power2::{lemma2_to64, pow2};
use vstd::prelude::*;

verus! {

/// A full turn in radians, to the last digit of the format.
pub open spec fn full_turn() -> real {
    13176795real / 2097152real
}

/// The delay of a phase at a frequency, in seconds.
pub open spec fn delay_of(phase: real, freq: real) -> real {
    phase / (full_turn() * freq)
}

/// The delay as a part of the longest one between two ears, 0.66 milliseconds.
pub open spec fn relative_delay(phase: real, freq: real) -> real {
    delay_of(phase, freq) / (66real / 100000real)
}

/// A reading of a frequency that can be heard, with a phase and a level difference of
/// ordinary size.
pub open spec fn is_audible(freq: F32, x: Reading) -> bool {
    &&& freq.finite()
    &&& 1real <= freq.value() <= 48000real
    &&& x.phase.finite()
    &&& size(x.phase.value()) <= 4real
    &&& x.ratio_log.finite()
    &&& size(x.ratio_log.value()) <= 64real
}

/// How much the time difference counts: all below 700 hertz, nothing above 1600.
pub open spec fn time_share(freq: real) -> real {
    clip((1600real - freq) / 900real, 0real, 1real)
}

/// The relative delay is right to within a millionth of itself.
proof fn lemma_relative_delay(freq: F32, phase: F32)
    requires
        freq.finite(),
        1real <= freq.value() <= 48000real,
        phase.finite(),
        size(phase.value()) <= 4real,
    ensures
        (phase / (tau() * freq) / longest_delay()).finite(),
        apart(
            (phase / (tau() * freq) / longest_delay()).value(),
            relative_delay(phase.value(), freq.value()),
        ) <= size(relative_delay(phase.value(), freq.value())) / 500000real + 1000000real * dust(),
        size(relative_delay(phase.value(), freq.value())) <= 1011real,
{
    lemma2_to64();
    lemma_value_binary(13176795, 21);
    let t = full_turn();
    assert(tau().value() == t);
    let f = freq.value();
    let p = phase.value();
    let d = t * f;
    assert(6real <= d <= 7real * f) by (nonlinear_arith)
        requires d == t * f, 6real <= t <= 7real, f >= 1real;
    lemma_value_mul(tau(), freq);
    let b = tau() * freq;
    assert(apart(b.value(), d) <= d * (1real / 8000000real));
    let r = p / d;
    assert(size(r) <= 2real / 3real) by (nonlinear_arith)
        requires r == p / d, d >= 6real, size(p) <= 4real;
    lemma_relative_div(phase, b, p, d, 0real, 1real / 8000000real, 0real, 6real);
    let x = phase / b;
    lemma_value_quotient(66, 100000);
    let c = 66real / 100000real;
    let y = r / c;
    assert(size(y) <= 1011real && size(y) == size(r) / c) by (nonlinear_arith)
        requires y == r / c, size(r) <= 2real / 3real, c == 66real / 100000real;
    assert(size(r) * (3real / 8000000real) == size(r) * (2real * 0real + 2real * (1real / 8000000real) + 1real / 8000000real));
    lemma_relative_div(
        x,
        longest_delay(),
        r,
        c,
        3real / 8000000real,
        1real / 8000000real,
        dust(),
        66real / 100000real,
    );
    let z = size(y);
    assert(z * (2real * (3real / 8000000real) + 2real * (1real / 8000000real) + 1real / 8000000real) <= z / 500000real)
        by (nonlinear_arith)
        requires z >= 0real;
}

/// The time cue, in real numbers.
pub open spec fn time_part(freq: real, phase: real, coherent: real) -> real {
    -clip(relative_delay(phase, freq), -1real, 1real) * time_share(freq) * coherent
}

/// The level cue, in real numbers: 18 decibels are all the way to the side.
pub open spec fn level_part(ratio_log: real) -> real {
    clip(10real * ratio_log / 18real, -1real, 1real)
}

/// The share of the time difference falls from one at 700 hertz to nothing at 1600.
pub proof fn law_time_counts_at_low_frequencies(freq: F32)
    requires
        freq.finite(),
        0real <= freq.value() <= 48000real,
    ensures
        close(itd_weight(freq), time_share(freq.value()), 1real / 100000real),
        freq.value() <= 700real ==> itd_weight(freq).value() == 1real,
        freq.value() >= 1600real ==> itd_weight(freq).value() == 0real,
{
    lemma_constants();
    lemma_value_whole(1600);
    lemma_value_whole(700);
    lemma_value_whole(900);
    let f = freq.value();
    let a = F32::whole(1600) - freq;
    lemma_value_sub(F32::whole(1600), freq);
    lemma_exact_difference();
    let d = F32::whole(1600) - F32::whole(700);
    lemma_close_div(a, d, 1600real - f, 900real, 1real / 300real, 0real, 52real, 900real);
    lemma_close_part(a / d, (1600real - f) / 900real, 1real / 100000real);
    lemma_value_part(a / d);
    lemma_one();
    lemma_whole(900);
    lemma_whole(1600);
    let w = one_units();
    if f <= 700real {
        lemma_value_le(freq, F32::whole(700));
        lemma_whole(700);
        lemma_whole(50000);
        lemma_value_whole(50000);
        lemma_value_le(F32::nought(), freq);
        lemma_sub_between(F32::whole(1600), freq, F32::whole(900), F32::whole(1600));
        let u = a.units();
        lemma_whole(2);
        assert(w * (900 * w) <= u * w <= (2 * w) * (900 * w)) by (nonlinear_arith)
            requires 900 * w <= u <= 1600 * w, w > 0;
        lemma_div_between(a, d, F32::unit(), F32::whole(2));
        lemma_value_le(F32::unit(), a / d);
    }
    if f >= 1600real {
        lemma_value_le(F32::whole(1600), freq);
        lemma_sub_sign(F32::whole(1600), freq);
        lemma_div_sign(a, d);
        lemma_value_order(a / d, F32::nought());
    }
}

/// The width of the crossing.
proof fn lemma_exact_difference()
    ensures
        (F32::whole(1600) - F32::whole(700)).finite(),
        (F32::whole(1600) - F32::whole(700)).value() == 900real,
        (F32::whole(1600) - F32::whole(700)).units() == 900 * one_units(),
{
    lemma_whole(1600);
    lemma_whole(700);
    lemma_whole(900);
    lemma_value_whole(900);
    lemma_sub_between(F32::whole(1600), F32::whole(700), F32::whole(900), F32::whole(900));
    lemma_same_value(F32::whole(1600) - F32::whole(700), F32::whole(900));
    lemma_value_order(F32::whole(1600) - F32::whole(700), F32::whole(900));
}

/// Coherence is the absolute value of the cross-spectrum as a part of what one signal
/// would give.
pub proof fn law_coherence_is_relative(m: BandMeasure, x: Reading)
    requires
        x.norm.finite(),
        m.span.finite(),
        x.norm.value() >= 0real,
        m.span.value() > 0real,
        x.norm.value() / m.span.value() <= 1000000000000000real,
    ensures
        close(coherence(m, x), clip(x.norm.value() / m.span.value(), 0real, 1real), 1real / 1000000real),
        x.norm.value() == m.span.value() ==> coherence(m, x).value() == 1real,
        is_part(coherence(m, x)),
{
    lemma_constants();
    let n = x.norm.value();
    let s = m.span.value();
    let r = n / s;
    assert(r >= 0real) by (nonlinear_arith)
        requires r == n / s, n >= 0real, s > 0real;
    lemma_value_div(x.norm, m.span);
    lemma_value_part(x.norm / m.span);
    lemma_value_part(coherence(m, x));
    if n == s {
        assert(r == 1real) by (nonlinear_arith)
            requires r == n / s, n == s, s > 0real;
        lemma_own_quotient(x.norm, m.span);
    }
}

/// A number divided by one of the same value.
proof fn lemma_own_quotient(a: F32, b: F32)
    requires
        a.finite(),
        b.finite(),
        a.value() == b.value(),
        b.value() > 0real,
    ensures
        (a / b).value() == 1real,
{
    lemma_constants();
    lemma_one();
    lemma_value_order(a, b);
    lemma_value_order(F32::nought(), b);
    let w = one_units();
    assert(w * b.units() == a.units() * w) by (nonlinear_arith)
        requires a.units() == b.units();
    lemma_div_between(a, b, F32::unit(), F32::unit());
    lemma_same_value(a / b, F32::unit());
    lemma_value_order(a / b, F32::unit());
}

/// A level difference counts as a part of 18 decibels.
pub proof fn law_level_difference_counts(x: Reading)
    requires
        x.ratio_log.finite(),
        size(x.ratio_log.value()) <= 64real,
    ensures
        close(level_cue(x), level_part(x.ratio_log.value()), 1real / 100000real),
        x.ratio_log.value() == 0real ==> level_cue(x).value() == 0real,
        size(level_cue(x).value()) <= 1real,
{
    lemma_constants();
    lemma_value_whole(10);
    lemma_value_whole(18);
    lemma_value_le(F32::unit().spec_neg(), F32::unit());
    let r = x.ratio_log.value();
    lemma_close_mul(F32::whole(10), x.ratio_log, 10real, r, 0real, 0real, 10real, 64real);
    let p = F32::whole(10) * x.ratio_log;
    lemma_close_div(p, F32::whole(18), 10real * r, 18real, 1real / 20000real, 0real, 36real, 18real);
    let q = p / F32::whole(18);
    lemma_close_clamped(q, 10real * r / 18real, 1real / 100000real, F32::unit().spec_neg(), F32::unit());
    lemma_value_clamped(q, F32::unit().spec_neg(), F32::unit());
    if r == 0real {
        lemma_one();
        lemma_value_order(x.ratio_log, F32::nought());
        lemma_zero_mag(x.ratio_log);
        lemma_whole(10);
        lemma_whole(18);
        lemma_times_zero(F32::whole(10), x.ratio_log);
        lemma_zero_over(p, F32::whole(18));
        lemma_value_order(q, F32::nought());
    }
}

/// The time cue is the delay, as a part of the longest one, with its sign turned, as far
/// as it counts at the frequency and as far as the two channels are one signal.
pub proof fn law_time_difference_counts(freq: F32, m: BandMeasure, x: Reading)
    requires
        freq.finite(),
        1real <= freq.value() <= 48000real,
        x.phase.finite(),
        size(x.phase.value()) <= 4real,
        is_part(coherence(m, x)),
    ensures
        close(
            time_cue(freq, m, x),
            time_part(freq.value(), x.phase.value(), coherence(m, x).value()),
            1real / 20000real,
        ),
        size(time_part(freq.value(), x.phase.value(), coherence(m, x).value())) <= 1real,
{
    lemma_constants();
    let f = freq.value();
    let p = x.phase.value();
    let one = F32::unit();
    lemma_relative_delay(freq, x.phase);
    let q = x.phase / (tau() * freq) / longest_delay();
    let r = relative_delay(p, f);
    lemma_value_le(one.spec_neg(), one);
    lemma_value_clamped(q, one.spec_neg(), one);
    let c = q.clamped(one.spec_neg(), one);
    let e = clip(r, -1real, 1real);
    lemma_value_neg(c);
    assert(close(c.spec_neg(), -e, 1real / 100000real));
    law_time_counts_at_low_frequencies(freq);
    let s = time_share(f);
    let a = itd_weight(freq);
    lemma_close_mul(c.spec_neg(), a, -e, s, 1real / 100000real, 1real / 100000real, 1real, 1real);
    let k = coherence(m, x);
    lemma_value_part(k);
    lemma_size_mul(-e, s, 1real, 1real);
    lemma_close_mul(
        c.spec_neg() * a,
        k,
        -e * s,
        k.value(),
        1real / 40000real,
        0real,
        1real,
        1real,
    );
    lemma_size_mul(-e * s, k.value(), 1real, 1real);
}

/// A band stands where time and level difference together put it: from -1, all the way to
/// the left, to 1, all the way to the right.
pub proof fn law_position_is_time_and_level(freq: F32, m: BandMeasure, x: Reading)
    requires
        is_audible(freq, x),
        is_part(coherence(m, x)),
    ensures
        close(
            laterality(freq, m, x),
            clip(
                time_part(freq.value(), x.phase.value(), coherence(m, x).value()) + level_part(x.ratio_log.value()),
                -1real,
                1real,
            ),
            1real / 10000real,
        ),
{
    lemma_constants();
    law_time_difference_counts(freq, m, x);
    law_level_difference_counts(x);
    let t = time_part(freq.value(), x.phase.value(), coherence(m, x).value());
    let l = level_part(x.ratio_log.value());
    lemma_close_add(time_cue(freq, m, x), level_cue(x), t, l, 1real / 20000real, 1real / 100000real);
    lemma_value_le(F32::unit().spec_neg(), F32::unit());
    lemma_close_clamped(
        time_cue(freq, m, x) + level_cue(x),
        t + l,
        1real / 10000real,
        F32::unit().spec_neg(),
        F32::unit(),
    );
}

/// A delay puts a source on the side that it reaches first: at low frequencies, without a
/// level difference, one signal whose right channel lags stands on the left, as far out as
/// the delay is long against the longest one between two ears.
pub proof fn law_delay_moves_to_the_side(freq: F32, m: BandMeasure, x: Reading)
    requires
        freq.finite(),
        1real <= freq.value() <= 700real,
        x.phase.finite(),
        size(x.phase.value()) <= 4real,
        x.ratio_log.finite(),
        x.ratio_log.value() == 0real,
        x.norm.finite(),
        m.span.finite(),
        m.span.value() > 0real,
        x.norm.value() == m.span.value(),
        size(relative_delay(x.phase.value(), freq.value())) <= 9real / 10real,
    ensures
        laterality(freq, m, x).finite(),
        apart(laterality(freq, m, x).value(), -relative_delay(x.phase.value(), freq.value())) <= size(
            relative_delay(x.phase.value(), freq.value()),
        ) / 100000real + 10000000real * dust(),
        x.phase.value() >= 1real / 1000000000real ==> laterality(freq, m, x).value() < 0real,
        x.phase.value() <= -1real / 1000000000real ==> laterality(freq, m, x).value() > 0real,
{
    lemma_constants();
    let one = F32::unit();
    let r = relative_delay(x.phase.value(), freq.value());
    lemma_full_time(freq, m, x);
    law_level_difference_counts(x);
    lemma_value_le(one.spec_neg(), one);
    let t = time_cue(freq, m, x);
    assert(size(t.value()) <= 91real / 100real);
    lemma_value_add(t, level_cue(x));
    let sum = t + level_cue(x);
    lemma_value_clamped(sum, one.spec_neg(), one);
    lemma_delay_sign(x.phase.value(), freq.value());
}

/// Where all of it counts, the time cue is the relative delay with its sign turned.
proof fn lemma_full_time(freq: F32, m: BandMeasure, x: Reading)
    requires
        freq.finite(),
        1real <= freq.value() <= 700real,
        x.phase.finite(),
        size(x.phase.value()) <= 4real,
        x.norm.finite(),
        m.span.finite(),
        m.span.value() > 0real,
        x.norm.value() == m.span.value(),
        size(relative_delay(x.phase.value(), freq.value())) <= 9real / 10real,
    ensures
        time_cue(freq, m, x).finite(),
        apart(time_cue(freq, m, x).value(), -relative_delay(x.phase.value(), freq.value())) <= size(
            relative_delay(x.phase.value(), freq.value()),
        ) / 200000real + 2000000real * dust(),
{
    lemma_constants();
    let one = F32::unit();
    lemma_relative_delay(freq, x.phase);
    let q = x.phase / (tau() * freq) / longest_delay();
    let r = relative_delay(x.phase.value(), freq.value());
    lemma_value_le(one.spec_neg(), one);
    lemma_value_clamped(q, one.spec_neg(), one);
    let c = q.clamped(one.spec_neg(), one);
    assert(c.value() == q.value());
    lemma_value_neg(c);
    law_time_counts_at_low_frequencies(freq);
    let s = m.span.value();
    assert(s / s == 1real) by (nonlinear_arith)
        requires s > 0real;
    law_coherence_is_relative(m, x);
    let a = c.spec_neg();
    let b = itd_weight(freq);
    let d = coherence(m, x);
    lemma_value_part(d);
    lemma_times_whole(a, b);
    lemma_times_whole(a * b, d);
}

/// A number times one of value one.
proof fn lemma_times_whole(a: F32, b: F32)
    requires
        a.finite(),
        b.finite(),
        b.value() == 1real,
        size(a.value()) <= 2real,
    ensures
        (a * b).finite(),
        apart((a * b).value(), a.value()) <= size(a.value()) / 16777216real + dust(),
{
    let x = a.value();
    let y = b.value();
    assert(x * y == x) by (nonlinear_arith)
        requires y == 1real;
    lemma_value_mul(a, b);
}

/// A phase has the sign of its delay, which is not too small.
proof fn lemma_delay_sign(phase: real, freq: real)
    requires
        1real <= freq <= 700real,
    ensures
        phase >= 1real / 1000000000real ==> relative_delay(phase, freq) >= 1real / 10000000000real,
        phase <= -1real / 1000000000real ==> relative_delay(phase, freq) <= -1real / 10000000000real,
{
    let d = full_turn() * freq;
    assert(0real < d <= 4900real) by (nonlinear_arith)
        requires d == full_turn() * freq, 6real <= full_turn() <= 7real, 1real <= freq <= 700real;
    let a = phase / d;
    let c = 66real / 100000real;
    let r = a / c;
    assert(r * (d * c) == phase) by (nonlinear_arith)
        requires r == a / c, a == phase / d, d > 0real, c > 0real;
    let k = d * c;
    assert(0real < k <= 4real) by (nonlinear_arith)
        requires k == d * c, 0real < d <= 4900real, c == 66real / 100000real;
    if phase >= 1real / 1000000000real {
        assert(r >= 1real / 10000000000real) by (nonlinear_arith)
            requires r * k >= 1real / 1000000000real, 0real < k <= 4real;
    }
    if phase <= -1real / 1000000000real {
        assert(r <= -1real / 10000000000real) by (nonlinear_arith)
            requires r * k <= -1real / 1000000000real, 0real < k <= 4real;
    }
}

/// How loud a band is does not move it: where the two channels are one signal to the same
/// extent, the same phase and the same level difference give the same position.
pub proof fn law_loudness_does_not_move(freq: F32, m: BandMeasure, n: BandMeasure, x: Reading, y: Reading)
    requires
        x.phase == y.phase,
        x.ratio_log == y.ratio_log,
        x.norm / m.span == y.norm / n.span,
    ensures
        laterality(freq, m, x) == laterality(freq, n, y),
        coherence(m, x) == coherence(n, y),
{
}

/// The law of tangents: a position is that part of the tangent of 30 degrees.
pub proof fn law_tangent_is_a_part_of_the_speakers(lat: F32)
    requires
        lat.finite(),
        size(lat.value()) <= 1real,
    ensures
        close(source_tangent(lat), lat.value() * (577350269real / 1000000000real), 1real / 1000000real),
{
    lemma_value_quotient(9686330, 16777216);
    lemma_close_mul(
        lat,
        speaker_tangent(),
        lat.value(),
        577350269real / 1000000000real,
        0real,
        1real / 2000000real,
        1real,
        6real / 10real,
    );
}

/// The arc spreads an angle threefold, so that the speakers, at 30 degrees, stand at its
/// ends.
pub proof fn law_arc_is_threefold(angle: F32)
    requires
        angle.finite(),
        size(angle.value()) <= 4real,
    ensures
        close(on_arc(angle), clip(3real * angle.value(), -full_turn() / 4real, full_turn() / 4real), 1real / 100000real),
{
    lemma2_to64();
    lemma_value_whole(3);
    lemma_value_binary(13176795, 23);
    assert(pow2(23) == 8388608);
    assert(quarter() == F32::quotient(13176795, pow2(23) as int));
    assert(quarter().value() == 13176795real / 8388608real);
    lemma_value_neg(quarter());
    lemma_value_le(quarter().spec_neg(), quarter());
    lemma_close_mul(angle, F32::whole(3), angle.value(), 3real, 0real, 0real, 4real, 3real);
    lemma_close_clamped(
        angle * F32::whole(3),
        angle.value() * 3real,
        1real / 100000real,
        quarter().spec_neg(),
        quarter(),
    );
}

} // verus!
