//! From samples to spectra: windowing, bands, levels and smoothing. The transform
//! itself and the transcendental functions are the caller's; each step takes
//! their results.

use crate::audio::{padded, AudioBuffer, Channel};
use crate::bands::{compute_band_edges, is_edge_bin, FFT_SIZE, LAST_BIN, NUM_BANDS};
use crate::exact::spectrum::law_height_is_decibels_times_gain;
use crate::float::laws::{
    law_step_stays_between, lemma_add_is_number, lemma_div_is_number, lemma_half, lemma_mul_is_number,
    lemma_mul_order, lemma_neg, lemma_not_zero, lemma_one, lemma_quotient_between, lemma_sub_between, lemma_whole,
    one_units,
};
use crate::float::repr::lemma_mag_units_order;
use crate::float::value::{clip, close, size};
use crate::float::F32;
use vstd::prelude::*;

verus! {

/// One value per band.
pub type SpectrumFrame = [F32; NUM_BANDS];

/// A complex number.
#[derive(Debug, Clone, Copy, PartialEq, Eq, Structural)]
pub struct Complex {
    pub re: F32,
    pub im: F32,
}

/// How fast a level rises: 45 hundredths of the way per frame.
pub open spec fn attack() -> F32 {
    F32::quotient(45, 100)
}

/// How fast a level falls: 18 hundredths of the way per frame.
pub open spec fn decay() -> F32 {
    F32::quotient(18, 100)
}

/// The circle constant.
pub open spec fn pi() -> F32 {
    F32::quotient(13176795, 4194304)
}

/// The circle constant.
pub fn circle() -> (r: F32)
    ensures
        r == pi(),
{
    F32::ratio(13176795, 4194304)
}

/// The angle of sample `n` in the window, of which the window takes the cosine.
pub open spec fn window_angle(n: int) -> F32 {
    pi() * F32::whole(2) * F32::whole(n) / (F32::whole(FFT_SIZE as int) - F32::unit())
}

/// The angles whose cosines make up the Hann window.
pub fn window_angles() -> (r: Vec<F32>)
    ensures
        r@.len() == FFT_SIZE,
        forall|n: int| 0 <= n < FFT_SIZE ==> r@[n] == window_angle(n),
{
    let mut r: Vec<F32> = Vec::new();
    let turn = circle() * F32::from_int(2);
    let span = F32::from_int(FFT_SIZE as u64) - F32::one();
    let mut n: usize = 0;
    while n < FFT_SIZE
        invariant
            n <= FFT_SIZE,
            turn == pi() * F32::whole(2),
            span == F32::whole(FFT_SIZE as int) - F32::unit(),
            r@.len() == n,
            forall|i: int| 0 <= i < n ==> r@[i] == window_angle(i),
        decreases FFT_SIZE - n,
    {
        r.push(turn * F32::from_int(n as u64) / span);
        n = n + 1;
    }
    r
}

/// The Hann window at a sample whose angle has this cosine.
pub open spec fn hann(cosine: F32) -> F32 {
    F32::half_unit() - F32::half_unit() * cosine
}

pub(crate) fn hann_window(cosines: &[F32]) -> (r: Vec<F32>)
    requires
        cosines@.len() == FFT_SIZE,
    ensures
        r@ == Seq::new(FFT_SIZE as nat, |i: int| hann(cosines@[i])),
{
    let mut r: Vec<F32> = Vec::new();
    let mut i: usize = 0;
    while i < FFT_SIZE
        invariant
            i <= FFT_SIZE,
            cosines@.len() == FFT_SIZE,
            r@.len() == i,
            forall|j: int| 0 <= j < i ==> r@[j] == hann(cosines@[j]),
        decreases FFT_SIZE - i,
    {
        r.push(F32::half() - F32::half() * cosines[i]);
        i = i + 1;
    }
    assert(r@ =~= Seq::new(FFT_SIZE as nat, |i: int| hann(cosines@[i])));
    r
}

/// The windowed samples, as input of the transform.
pub open spec fn windowed(samples: Seq<F32>, window: Seq<F32>) -> Seq<Complex> {
    Seq::new(window.len(), |i: int| Complex { re: samples[i] * window[i], im: F32::nought() })
}

pub(crate) fn window_channel(audio: &AudioBuffer, channel: Channel, window: &Vec<F32>) -> (r: Vec<Complex>)
    requires
        window@.len() == FFT_SIZE,
    ensures
        r@ == windowed(padded(audio.channel(channel), FFT_SIZE as int), window@),
{
    let mut samples: Vec<F32> = Vec::new();
    let mut i: usize = 0;
    while i < FFT_SIZE
        invariant
            i <= FFT_SIZE,
            samples@.len() == i,
        decreases FFT_SIZE - i,
    {
        samples.push(F32::zero());
        i = i + 1;
    }
    audio.snapshot(channel, samples.as_mut_slice());
    let mut r: Vec<Complex> = Vec::new();
    let mut n: usize = 0;
    while n < FFT_SIZE
        invariant
            n <= FFT_SIZE,
            samples@.len() == FFT_SIZE,
            window@.len() == FFT_SIZE,
            r@.len() == n,
            forall|j: int| 0 <= j < n ==> r@[j] == windowed(samples@, window@)[j],
        decreases FFT_SIZE - n,
    {
        r.push(Complex { re: samples[n] * window[n], im: F32::zero() });
        n = n + 1;
    }
    assert(r@ =~= windowed(samples@, window@));
    r
}

/// Where band `b` ends: at the next edge, but it holds at least one bin.
pub open spec fn band_end(edges: Seq<usize>, b: int) -> int {
    if edges[b + 1] > edges[b] {
        edges[b + 1] as int
    } else {
        edges[b] + 1
    }
}

/// The largest of the values from `lo` up to `hi`, where one is above zero.
pub open spec fn peak(values: Seq<F32>, lo: int, hi: int) -> F32
    decreases hi - lo,
{
    if hi <= lo {
        F32::nought()
    } else {
        let p = peak(values, lo, hi - 1);
        if p.lt(values[hi - 1]) {
            values[hi - 1]
        } else {
            p
        }
    }
}

/// The level of a band as the logarithm takes it: the peak relative to full scale,
/// kept off zero by a billionth.
pub open spec fn level(peak: F32) -> F32 {
    peak / (F32::whole(FFT_SIZE as int) * F32::half_unit()) + F32::quotient(1, 1_000_000_000)
}

pub(crate) fn level_of(peak: F32) -> (r: F32)
    ensures
        r == level(peak),
{
    peak / (F32::from_int(FFT_SIZE as u64) * F32::half()) + F32::ratio(1, 1_000_000_000)
}

/// From the decimal logarithm of a level to a height: 70 decibels below full scale
/// are 0, full scale is 1, times the gain, limited to that range.
pub open spec fn height(log: F32, gain: F32) -> F32 {
    let db = F32::whole(20) * log;
    (((db + F32::whole(70)) / F32::whole(70)).clamped(F32::nought(), F32::unit()) * gain).clamped(
        F32::nought(),
        F32::unit(),
    )
}

pub(crate) fn height_of(log: F32, gain: F32) -> (r: F32)
    ensures
        r == height(log, gain),
        log.finite() && size(log.value()) <= 64real && gain.finite() && 0real <= gain.value() <= 1000real ==> close(
            r,
            clip(clip((20real * log.value() + 70real) / 70real, 0real, 1real) * gain.value(), 0real, 1real),
            (1real + gain.value()) / 100000real,
        ),
{
    proof {
        lemma_one();
        if log.finite() && size(log.value()) <= 64real && gain.finite() && 0real <= gain.value() <= 1000real {
            law_height_is_decibels_times_gain(log, gain);
        }
    }
    let db = F32::from_int(20) * log;
    (((db + F32::from_int(70)) / F32::from_int(70)).clamp(F32::zero(), F32::one()) * gain).clamp(
        F32::zero(),
        F32::one(),
    )
}

/// The smoothed value that follows `from` on the way to `target`.
pub open spec fn smooth(from: F32, target: F32) -> F32 {
    from.toward(
        target,
        if from.lt(target) {
            attack()
        } else {
            decay()
        },
    )
}

pub(crate) fn smoothed(from: F32, target: F32) -> (r: F32)
    ensures
        r == smooth(from, target),
{
    let rate = if from.less(target) {
        F32::ratio(45, 100)
    } else {
        F32::ratio(18, 100)
    };
    from.approach(target, rate)
}

/// A number from zero to one.
pub open spec fn is_part(x: F32) -> bool {
    x.within(F32::nought(), F32::unit())
}

/// A frame of numbers from zero to one.
pub open spec fn is_spectrum(f: Seq<F32>) -> bool {
    forall|b: int| 0 <= b < f.len() ==> is_part(#[trigger] f[b])
}

/// The height of a level is from zero to one.
pub proof fn law_height_is_part(log: F32, gain: F32)
    requires
        !log.nan(),
        gain.finite(),
    ensures
        is_part(height(log, gain)),
{
    lemma_one();
    lemma_whole(20);
    lemma_whole(70);
    lemma_not_zero(F32::whole(20));
    lemma_not_zero(F32::whole(70));
    lemma_mul_is_number(log, F32::whole(20));
    let db = F32::whole(20) * log;
    lemma_add_is_number(db, F32::whole(70));
    let x = db + F32::whole(70);
    lemma_div_is_number(x, F32::whole(70));
    let y = (x / F32::whole(70)).clamped(F32::nought(), F32::unit());
    lemma_part_is_finite(y);
    lemma_mul_is_number(y, gain);
}

/// More gain never lowers a band.
pub proof fn law_more_gain_is_no_lower(log: F32, gain: F32, more: F32)
    requires
        !log.nan(),
        gain.finite(),
        more.finite(),
        gain.le(more),
    ensures
        height(log, gain).le(height(log, more)),
{
    lemma_one();
    lemma_whole(20);
    lemma_whole(70);
    lemma_not_zero(F32::whole(20));
    lemma_not_zero(F32::whole(70));
    lemma_mul_is_number(log, F32::whole(20));
    let db = F32::whole(20) * log;
    lemma_add_is_number(db, F32::whole(70));
    let x = db + F32::whole(70);
    lemma_div_is_number(x, F32::whole(70));
    let y = (x / F32::whole(70)).clamped(F32::nought(), F32::unit());
    lemma_part_is_finite(y);
    assert(y.units() * gain.units() <= y.units() * more.units()) by (nonlinear_arith)
        requires y.units() >= 0, gain.units() <= more.units();
    lemma_mul_order(y, gain, y, more);
}

/// Numbers from zero to one are finite.
pub proof fn lemma_part_is_finite(x: F32)
    requires
        is_part(x),
    ensures
        x.finite(),
        0 <= x.units() <= one_units(),
{
    lemma_one();
    lemma_mag_units_order(F32::unit().mag(), x.mag());
}

/// Smoothing moves towards the target and does not pass it, and a value from zero
/// to one stays one.
pub proof fn law_smoothing_stays_between(from: F32, target: F32)
    requires
        is_part(from),
        is_part(target),
    ensures
        from.le(target) ==> smooth(from, target).within(from, target),
        target.le(from) ==> smooth(from, target).within(target, from),
        is_part(smooth(from, target)),
{
    lemma_one();
    lemma_half();
    lemma_part_is_finite(from);
    lemma_part_is_finite(target);
    let w = one_units();
    let h = F32::half_unit().units();
    assert(0 * 100 <= 45 * w <= h * 100 && 0 * 100 <= 18 * w <= h * 100);
    lemma_quotient_between(45, 100, F32::nought(), F32::half_unit());
    lemma_quotient_between(18, 100, F32::nought(), F32::half_unit());
    lemma_neg(F32::unit());
    lemma_sub_between(target, from, F32::unit().spec_neg(), F32::unit());
    let d = target - from;
    lemma_mag_units_order(F32::unit().mag(), d.mag());
    let c = if from.lt(target) {
        attack()
    } else {
        decay()
    };
    law_step_stays_between(from, target, c);
}

/// The spectrum analyzer of one channel.
pub struct Analyzer {
    window: Vec<F32>,
    band_edges: Vec<usize>,
    smoothed: SpectrumFrame,
}

impl Analyzer {
    /// The window that the samples are multiplied by.
    pub closed spec fn window(self) -> Seq<F32> {
        self.window@
    }

    /// The bins that bound the bands.
    pub closed spec fn edges(self) -> Seq<usize> {
        self.band_edges@
    }

    /// The levels of the last frame.
    pub closed spec fn levels(self) -> Seq<F32> {
        self.smoothed@
    }

    /// The window covers the transform, and the edges are those of the bands.
    pub open spec fn wf(self) -> bool {
        &&& self.window().len() == FFT_SIZE
        &&& self.edges().len() == NUM_BANDS + 1
        &&& forall|i: int|
            0 <= i <= NUM_BANDS ==> is_edge_bin(i as nat, #[trigger] self.edges()[i] as int)
        &&& self.levels().len() == NUM_BANDS
    }

    /// An analyzer at rest. `cosines` are those of `window_angles`.
    pub fn new(cosines: &[F32]) -> (r: Analyzer)
        requires
            cosines@.len() == FFT_SIZE,
        ensures
            r.wf(),
            r.window() == Seq::new(FFT_SIZE as nat, |i: int| hann(cosines@[i])),
            r.levels() == Seq::new(NUM_BANDS as nat, |b: int| F32::nought()),
            is_spectrum(r.levels()),
    {
        let zero = F32::zero();
        let smoothed: SpectrumFrame = [zero; NUM_BANDS];
        assert(smoothed@ =~= Seq::new(NUM_BANDS as nat, |b: int| F32::nought()));
        proof {
            lemma_one();
        }
        Analyzer { window: hann_window(cosines), band_edges: compute_band_edges(), smoothed }
    }

    /// The newest samples of a channel, windowed for the transform.
    pub fn windowed(&self, audio: &AudioBuffer, channel: Channel) -> (r: Vec<Complex>)
        requires
            self.wf(),
        ensures
            r@ == windowed(padded(audio.channel(channel), FFT_SIZE as int), self.window()),
    {
        window_channel(audio, channel, &self.window)
    }

    /// The level of every band, given the absolute values of the transform's bins
    /// below half the sampling rate.
    pub fn band_levels(&self, norms: &[F32]) -> (r: SpectrumFrame)
        requires
            self.wf(),
            norms@.len() > LAST_BIN,
        ensures
            forall|b: int| 0 <= b < NUM_BANDS ==> #[trigger] r@[b] == level(
                peak(norms@, self.edges()[b] as int, band_end(self.edges(), b)),
            ),
    {
        let zero = F32::zero();
        let mut r: SpectrumFrame = [zero; NUM_BANDS];
        let mut b: usize = 0;
        while b < NUM_BANDS
            invariant
                b <= NUM_BANDS,
                self.wf(),
                norms@.len() > LAST_BIN,
                forall|i: int| 0 <= i < b ==> #[trigger] r@[i] == level(
                    peak(norms@, self.edges()[i] as int, band_end(self.edges(), i)),
                ),
            decreases NUM_BANDS - b,
        {
            assert(is_edge_bin(b as nat, self.edges()[b as int] as int));
            assert(is_edge_bin((b + 1) as nat, self.edges()[b + 1] as int));
            let lo = self.band_edges[b];
            let next = self.band_edges[b + 1];
            let hi: usize = if next > lo {
                next
            } else {
                lo + 1
            };
            let mut top = F32::zero();
            let mut bin: usize = lo;
            while bin < hi
                invariant
                    lo <= bin <= hi <= norms@.len(),
                    top == peak(norms@, lo as int, bin as int),
                decreases hi - bin,
            {
                let m = norms[bin];
                if top.less(m) {
                    top = m;
                }
                bin = bin + 1;
            }
            r[b] = level_of(top);
            b = b + 1;
        }
        r
    }

    /// The next spectrum, given the decimal logarithms of the band levels.
    pub fn analyze(&mut self, logs: &SpectrumFrame, gain: F32) -> (r: SpectrumFrame)
        requires
            old(self).wf(),
        ensures
            final(self).wf(),
            final(self).window() == old(self).window(),
            final(self).edges() == old(self).edges(),
            final(self).levels() == r@,
            r@ == Seq::new(
                NUM_BANDS as nat,
                |b: int| smooth(old(self).levels()[b], height(logs@[b], gain)),
            ),
            is_spectrum(old(self).levels()) && gain.finite() && (forall|b: int|
                0 <= b < NUM_BANDS ==> !(#[trigger] logs@[b]).nan()) ==> is_spectrum(r@),
    {
        let ghost before = self.smoothed@;
        let mut b: usize = 0;
        while b < NUM_BANDS
            invariant
                b <= NUM_BANDS,
                before == old(self).levels(),
                self.window() == old(self).window(),
                self.edges() == old(self).edges(),
                self.smoothed@.len() == NUM_BANDS,
                forall|i: int| 0 <= i < b ==> #[trigger] self.smoothed@[i] == smooth(
                    before[i],
                    height(logs@[i], gain),
                ),
                forall|i: int| b <= i < NUM_BANDS ==> #[trigger] self.smoothed@[i] == before[i],
            decreases NUM_BANDS - b,
        {
            let next = smoothed(self.smoothed[b], height_of(logs[b], gain));
            self.smoothed[b] = next;
            b = b + 1;
        }
        proof {
            let r = Seq::new(
                NUM_BANDS as nat,
                |b: int| smooth(old(self).levels()[b], height(logs@[b], gain)),
            );
            assert(self.smoothed@ =~= r);
            if is_spectrum(before) && gain.finite() && (forall|b: int|
                0 <= b < NUM_BANDS ==> !(#[trigger] logs@[b]).nan()) {
                assert forall|b: int| 0 <= b < r.len() implies is_part(#[trigger] r[b]) by {
                    assert(is_part(before[b]));
                    law_height_is_part(logs@[b], gain);
                    law_smoothing_stays_between(before[b], height(logs@[b], gain));
                }
            }
        }
        self.smoothed
    }
}

} // verus!
