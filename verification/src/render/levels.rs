//! The loudness that drives the moving effects.

use super::paint::{clamp_part, part_of};
use crate::bands::NUM_BANDS;
use crate::dsp::{is_part, is_spectrum, lemma_part_is_finite, SpectrumFrame};
use crate::float::laws::{
    law_step_stays_between, lemma_add_between, lemma_bounded_is_finite, lemma_div_between, lemma_div_is_number,
    lemma_div_sign, lemma_fraction, lemma_half, lemma_mul_between, lemma_mul_is_number, lemma_neg, lemma_not_zero,
    lemma_one, lemma_quotient_between, lemma_sub_between, lemma_sub_sign, lemma_whole, one_units,
};
use crate::float::round::lemma_mag_units_at;
use crate::float::F32;
use vstd::arithmetic::power2::{lemma2_to64, lemma_pow2_adds};
use vstd::prelude::*;

verus! {

/// The greatest value of the first `n` bands of either channel, and zero.
pub open spec fn loudest(left: Seq<F32>, right: Seq<F32>, n: int) -> F32
    decreases n,
{
    if n <= 0 {
        F32::nought()
    } else {
        loudest(left, right, n - 1).larger(left[n - 1]).larger(right[n - 1])
    }
}

/// The peak of the spectrum over both channels, from zero to one.
pub fn peak_level(left: &SpectrumFrame, right: &SpectrumFrame) -> (r: F32)
    ensures
        r == part_of(loudest(left@, right@, NUM_BANDS as int)),
{
    let mut m = F32::zero();
    let mut i: usize = 0;
    while i < NUM_BANDS
        invariant
            i <= NUM_BANDS,
            m == loudest(left@, right@, i as int),
        decreases NUM_BANDS - i,
    {
        m = m.max(left[i]).max(right[i]);
        i = i + 1;
    }
    clamp_part(m)
}

/// The bands that count as bass.
pub const BASS_BANDS: usize = 12;

/// The sum of the first `n` bands of both channels.
pub open spec fn bass_sum(left: Seq<F32>, right: Seq<F32>, n: int) -> F32
    decreases n,
{
    if n <= 0 {
        F32::nought()
    } else {
        bass_sum(left, right, n - 1) + (left[n - 1] + right[n - 1])
    }
}

/// The mean of the bass bands, from zero to one.
pub open spec fn bass(left: Seq<F32>, right: Seq<F32>) -> F32 {
    part_of(bass_sum(left, right, BASS_BANDS as int) / (F32::whole(2) * F32::whole(BASS_BANDS as int)))
}

/// The level of the low frequencies: the mean of the first bands of both channels.
pub fn bass_level(left: &SpectrumFrame, right: &SpectrumFrame) -> (r: F32)
    ensures
        r == bass(left@, right@),
{
    let mut sum = F32::zero();
    let mut i: usize = 0;
    while i < BASS_BANDS
        invariant
            i <= BASS_BANDS,
            sum == bass_sum(left@, right@, i as int),
        decreases BASS_BANDS - i,
    {
        sum = sum + (left[i] + right[i]);
        i = i + 1;
    }
    clamp_part(sum / (F32::from_int(2) * F32::from_int(BASS_BANDS as u64)))
}

/// How far the silence gate is open at a level: shut up to 0.05, open from 0.17 on.
pub open spec fn gate(level: F32) -> F32 {
    part_of((level - F32::quotient(5, 100)) / F32::quotient(12, 100))
}

/// The silence gate: zero without a signal, one as soon as there is music.
pub fn silence_gate(level: F32) -> (r: F32)
    ensures
        r == gate(level),
{
    clamp_part((level - F32::ratio(5, 100)) / F32::ratio(12, 100))
}

/// What drives the moving effects in one frame.
#[derive(Debug, Clone, Copy, PartialEq, Eq, Structural)]
pub struct Drive {
    /// The level of the low frequencies.
    pub bass: F32,
    /// How far the bass exceeds its own slow mean.
    pub punch: F32,
    /// How far the silence gate is open.
    pub gate: F32,
}

/// The slow mean of the bass in the next frame.
pub open spec fn next_envelope(env: F32, left: Seq<F32>, right: Seq<F32>) -> F32 {
    env.toward(bass(left, right), F32::quotient(5, 100))
}

/// The drive of a frame, where `env` is the slow mean that already counts it.
pub open spec fn drive(env: F32, left: Seq<F32>, right: Seq<F32>) -> Drive {
    Drive {
        bass: bass(left, right),
        punch: part_of((bass(left, right) - env) * F32::quotient(25, 10)),
        gate: gate(part_of(loudest(left, right, NUM_BANDS as int))),
    }
}

/// Takes a frame into the slow mean of the bass and tells what drives the effects.
pub fn audio_drive(env: &mut F32, left: &SpectrumFrame, right: &SpectrumFrame) -> (r: Drive)
    ensures
        *final(env) == next_envelope(*old(env), left@, right@),
        r == drive(*final(env), left@, right@),
{
    let bass = bass_level(left, right);
    let gate = silence_gate(peak_level(left, right));
    *env = env.approach(bass, F32::ratio(5, 100));
    let punch = clamp_part((bass - *env) * F32::ratio(25, 10));
    Drive { bass, punch, gate }
}

/// The silence gate is shut at every level up to 0.05.
pub proof fn law_silence_shuts_gate(level: F32)
    requires
        level.finite(),
        level.le(F32::quotient(5, 100)),
    ensures
        gate(level).units() == 0,
{
    lemma_one();
    lemma_fraction(5, 100);
    lemma_fraction(12, 100);
    lemma_sub_sign(level, F32::quotient(5, 100));
    lemma_div_sign(level - F32::quotient(5, 100), F32::quotient(12, 100));
}

/// The silence gate is open at every level that is 0.12 above the threshold.
pub proof fn law_music_opens_gate(level: F32)
    requires
        is_part(level),
        F32::quotient(12, 100).le(level - F32::quotient(5, 100)),
    ensures
        gate(level).units() == one_units(),
{
    lemma_one();
    lemma_fraction(5, 100);
    lemma_fraction(12, 100);
    lemma_part_is_finite(level);
    let w = one_units();
    let a = F32::quotient(5, 100);
    let b = F32::quotient(12, 100);
    let x = level - a;
    lemma_neg(F32::unit());
    lemma_sub_between(level, a, -F32::unit(), F32::unit());
    lemma_bounded_is_finite(x, F32::unit());
    let sixteenth = F32 { bits: 0x3D80_0000 };
    lemma2_to64();
    lemma_mag_units_at(122, 0x80_0000);
    lemma_pow2_adds(23, 122);
    lemma_pow2_adds(4, 145);
    assert(16 * sixteenth.units() == w);
    lemma_quotient_between(12, 100, sixteenth, F32::unit());
    lemma_whole(16);
    let n = x.units() * w;
    assert(w * b.units() <= n <= (16 * w) * b.units()) by (nonlinear_arith)
        requires n == x.units() * w, x.units() >= b.units(), x.units() <= w, 16 * b.units() >= w, w > 0;
    lemma_div_between(x, b, F32::unit(), F32::whole(16));
}

/// The drive of spectra from zero to one lies from zero to one, and so does the slow
/// mean of the bass.
pub proof fn law_drive_stays_part(env: F32, left: Seq<F32>, right: Seq<F32>)
    requires
        is_part(env),
        left.len() == NUM_BANDS,
        right.len() == NUM_BANDS,
        is_spectrum(left),
        is_spectrum(right),
    ensures
        is_part(next_envelope(env, left, right)),
        is_part(drive(env, left, right).bass),
        is_part(drive(env, left, right).punch),
        is_part(drive(env, left, right).gate),
{
    lemma_one();
    lemma_half();
    lemma_bass_sum(left, right, BASS_BANDS as int);
    lemma_whole(2);
    lemma_whole(12);
    lemma_whole(24);
    let w = one_units();
    assert((24 * w) * w == (2 * w) * (12 * w)) by (nonlinear_arith);
    lemma_mul_between(F32::whole(2), F32::whole(12), F32::whole(24), F32::whole(24));
    let span = F32::whole(2) * F32::whole(12);
    lemma_bounded_is_finite(span, F32::whole(24));
    lemma_not_zero(span);
    lemma_div_is_number(bass_sum(left, right, BASS_BANDS as int), span);
    let b = bass(left, right);
    lemma_part_is_finite(b);
    lemma_part_is_finite(env);
    lemma_neg(F32::unit());
    lemma_sub_between(b, env, -F32::unit(), F32::unit());
    lemma_bounded_is_finite(b - env, F32::unit());
    lemma_fraction(5, 100);
    let h = F32::half_unit().units();
    lemma_quotient_between(5, 100, F32::nought(), F32::half_unit());
    law_step_stays_between(env, b, F32::quotient(5, 100));
    lemma_whole(3);
    lemma_quotient_between(25, 10, F32::nought(), F32::whole(3));
    lemma_mul_is_number(b - env, F32::quotient(25, 10));
    lemma_loudest(left, right, NUM_BANDS as int);
    lemma_fraction(12, 100);
    let l = part_of(loudest(left, right, NUM_BANDS as int));
    lemma_part_is_finite(l);
    lemma_sub_sign(l, F32::quotient(5, 100));
    lemma_div_is_number(l - F32::quotient(5, 100), F32::quotient(12, 100));
}

/// The sum of bands from zero to one.
proof fn lemma_bass_sum(left: Seq<F32>, right: Seq<F32>, n: int)
    requires
        0 <= n <= NUM_BANDS,
        left.len() == NUM_BANDS,
        right.len() == NUM_BANDS,
        is_spectrum(left),
        is_spectrum(right),
    ensures
        bass_sum(left, right, n).within(F32::nought(), F32::whole(2 * n)),
        bass_sum(left, right, n).finite(),
    decreases n,
{
    lemma_one();
    lemma_whole(2 * n);
    if n > 0 {
        lemma_bass_sum(left, right, n - 1);
        lemma_whole(2 * (n - 1));
        lemma_whole(2);
        let l = left[n - 1];
        let r = right[n - 1];
        lemma_part_is_finite(l);
        lemma_part_is_finite(r);
        lemma_add_between(l, r, F32::nought(), F32::whole(2));
        lemma_bounded_is_finite(l + r, F32::whole(2));
        let w = one_units();
        assert((2 * (n - 1)) * w + 2 * w == (2 * n) * w) by (nonlinear_arith);
        lemma_add_between(bass_sum(left, right, n - 1), l + r, F32::nought(), F32::whole(2 * n));
        lemma_bounded_is_finite(bass_sum(left, right, n), F32::whole(2 * n));
    }
}

/// The greatest of bands from zero to one.
proof fn lemma_loudest(left: Seq<F32>, right: Seq<F32>, n: int)
    requires
        0 <= n <= NUM_BANDS,
        left.len() == NUM_BANDS,
        right.len() == NUM_BANDS,
        is_spectrum(left),
        is_spectrum(right),
    ensures
        is_part(loudest(left, right, n)),
    decreases n,
{
    lemma_one();
    if n > 0 {
        lemma_loudest(left, right, n - 1);
        assert(is_part(left[n - 1]) && is_part(right[n - 1]));
    }
}

} // verus!
