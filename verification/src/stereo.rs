//! The stereo image: from which direction each band comes, and how sharply.
//! Transform, logarithms, arcs and absolute values of complex numbers are the
//! caller's; each step takes their results.

use crate::audio::{padded, AudioBuffer, Channel};
use crate::bands::{compute_band_edges, is_edge_bin, FFT_SIZE, LAST_BIN, NUM_BANDS, SAMPLE_RATE};
use crate::dsp::{
    band_end, hann, hann_window, height, height_of, is_part, is_spectrum, law_height_is_part,
    law_smoothing_stays_between, lemma_part_is_finite, level, level_of, smooth, smoothed, window_channel, windowed,
    Complex, SpectrumFrame,
};
use crate::exact::stereo::{is_audible, law_position_is_time_and_level, level_part, time_part};
use crate::float::laws::{
    law_step_stays_between, lemma_add_between, lemma_add_is_number, lemma_bounded_is_finite, lemma_div_is_number,
    lemma_div_sign, lemma_fraction, lemma_half, lemma_mul_between, lemma_mul_is_number, lemma_neg, lemma_not_zero,
    lemma_one, lemma_quotient_between, lemma_quotient_number, lemma_signed, lemma_sub_between, lemma_sub_sign,
    lemma_times_zero, lemma_whole, lemma_zero_mag, lemma_zero_product, one_units,
};
use crate::float::repr::{lemma_mag_units_order, mag_units, INF_MAG};
use crate::float::round::{lemma_mag_units_at, lemma_nearest_positive, nearest_mag};
use crate::float::size::lemma_power;
use crate::float::mirror::{lemma_add_commutes, lemma_turned};
use crate::float::value::{clip, close};
use crate::float::F32;
use core::ops::Neg;
use vstd::arithmetic::power2::{lemma2_to64, lemma_pow2_adds, pow2};
use vstd::prelude::*;

verus! {

/// Twice the circle constant.
pub open spec fn tau() -> F32 {
    F32::quotient(13176795, 2097152)
}

/// Half the circle constant.
pub open spec fn quarter() -> F32 {
    F32::quotient(13176795, 8388608)
}

/// A trillionth, which keeps divisors off zero.
pub open spec fn trillionth() -> F32 {
    F32 { bits: 0x2B8C_BCCC }
}

/// The largest delay between two ears, in seconds.
pub open spec fn longest_delay() -> F32 {
    F32::quotient(66, 100_000)
}

/// The width of a transform bin, in hertz.
pub open spec fn bin_hz() -> F32 {
    F32::whole(SAMPLE_RATE as int) / F32::whole(FFT_SIZE as int)
}

/// The width of a transform bin as half the rate over half the window.
pub open spec fn half_bin_hz() -> F32 {
    (F32::whole(SAMPLE_RATE as int) / F32::whole(2)) / (F32::whole(FFT_SIZE as int) / F32::whole(2))
}

/// The bin of a frequency.
pub open spec fn bin_of(hz: F32) -> int {
    (hz / bin_hz()).index()
}

/// The first bin of a range of frequencies: not the constant part.
pub open spec fn first_bin(hz: F32) -> int {
    if bin_of(hz) < 1 {
        1
    } else {
        bin_of(hz)
    }
}

/// The last bin of a range of frequencies.
pub open spec fn last_bin(hz: F32) -> int {
    if bin_of(hz) > LAST_BIN {
        LAST_BIN as int
    } else {
        bin_of(hz)
    }
}

/// The power of a bin.
pub open spec fn power(c: Complex) -> F32 {
    c.re * c.re + c.im * c.im
}

/// The first number times the conjugate of the second.
pub open spec fn cross(l: Complex, r: Complex) -> Complex {
    let n = r.im.spec_neg();
    Complex { re: l.re * r.re - l.im * n, im: l.re * n + l.im * r.re }
}

/// Powers of the two channels and their cross-spectrum, summed over bins.
#[derive(Debug, Clone, Copy, PartialEq, Eq, Structural)]
pub struct CrossSums {
    pub left: F32,
    pub right: F32,
    pub cross: Complex,
}

/// The sums over the bins from `lo` up to `hi`.
pub open spec fn sums(l: Seq<Complex>, r: Seq<Complex>, lo: int, hi: int) -> CrossSums
    decreases hi - lo,
{
    if hi <= lo {
        CrossSums {
            left: F32::nought(),
            right: F32::nought(),
            cross: Complex { re: F32::nought(), im: F32::nought() },
        }
    } else {
        let s = sums(l, r, lo, hi - 1);
        let c = cross(l[hi - 1], r[hi - 1]);
        CrossSums {
            left: s.left + power(l[hi - 1]),
            right: s.right + power(r[hi - 1]),
            cross: Complex { re: s.cross.re + c.re, im: s.cross.im + c.im },
        }
    }
}

/// The largest mean amplitude of the two channels over the bins from `lo` to `hi`.
pub open spec fn joint_peak(l: Seq<Complex>, r: Seq<Complex>, lo: int, hi: int) -> F32
    decreases hi - lo,
{
    if hi <= lo {
        F32::nought()
    } else {
        joint_peak(l, r, lo, hi - 1).larger(
            ((power(l[hi - 1]) + power(r[hi - 1])) * F32::half_unit()).root(),
        )
    }
}

/// The power of the right channel relative to the left.
pub open spec fn power_ratio(s: CrossSums) -> F32 {
    (s.right + trillionth()) / (s.left + trillionth())
}

/// What the absolute value of the cross-spectrum is measured against.
pub open spec fn power_span(s: CrossSums) -> F32 {
    (s.left * s.right).root().larger(trillionth())
}

/// What the caller's functions are applied to, for one band.
#[derive(Debug, Clone, Copy, PartialEq, Eq, Structural)]
pub struct BandMeasure {
    /// The cross-spectrum.
    pub cross: Complex,
    /// What its absolute value is measured against.
    pub span: F32,
    /// The power of the right channel relative to the left.
    pub ratio: F32,
    /// The level.
    pub level: F32,
}

/// What the caller's functions are applied to, for a frame.
pub struct Measure {
    /// Power ratio where the outer ear casts its shadow.
    pub pinna: F32,
    /// Power ratio in the region that it is compared with.
    pub reference: F32,
    /// Power ratio over all frequencies.
    pub wide: F32,
    /// The cross-spectrum of the low frequencies, and what it is measured against.
    pub low_cross: Complex,
    pub low_span: F32,
    /// One measure per band.
    pub bands: Vec<BandMeasure>,
}

/// The measure of the bins from `lo` up to `hi`.
pub open spec fn band_measure(l: Seq<Complex>, r: Seq<Complex>, lo: int, hi: int) -> BandMeasure {
    let s = sums(l, r, lo, hi);
    BandMeasure {
        cross: s.cross,
        span: power_span(s),
        ratio: power_ratio(s),
        level: level(joint_peak(l, r, lo, hi)),
    }
}

/// The sums over a range of frequencies, in hertz.
pub open spec fn range_sums(l: Seq<Complex>, r: Seq<Complex>, lo_hz: int, hi_hz: int) -> CrossSums {
    sums(l, r, first_bin(F32::whole(lo_hz)), last_bin(F32::whole(hi_hz)) + 1)
}

/// Whether `m` is the measure of two transforms.
pub open spec fn measures(m: Measure, l: Seq<Complex>, r: Seq<Complex>, edges: Seq<usize>) -> bool {
    &&& m.pinna == power_ratio(range_sums(l, r, 3800, 6500))
    &&& m.reference == power_ratio(range_sums(l, r, 1800, 3200))
    &&& m.wide == power_ratio(range_sums(l, r, 200, 16000))
    &&& m.low_cross == range_sums(l, r, 200, 1000).cross
    &&& m.low_span == power_span(range_sums(l, r, 200, 1000))
    &&& m.bands@ == Seq::new(NUM_BANDS as nat, |b: int| band_measure(l, r, edges[b] as int, band_end(edges, b)))
}

/// What the caller's functions give for one band.
#[derive(Debug, Clone, Copy, PartialEq, Eq, Structural)]
pub struct Reading {
    /// The absolute value of the cross-spectrum.
    pub norm: F32,
    /// The angle of the cross-spectrum.
    pub phase: F32,
    /// The decimal logarithm of the power ratio.
    pub ratio_log: F32,
    /// The decimal logarithm of the level.
    pub level_log: F32,
}

/// What the caller's functions give for the whole frame.
#[derive(Debug, Clone, Copy, PartialEq, Eq, Structural)]
pub struct SceneReading {
    /// Decimal logarithms of the three power ratios.
    pub pinna_log: F32,
    pub reference_log: F32,
    pub wide_log: F32,
    /// The absolute value of the low frequencies' cross-spectrum.
    pub low_norm: F32,
}

/// The share of the time difference in finding a direction: all of it below 700
/// hertz, nothing above 1600.
pub open spec fn itd_weight(freq: F32) -> F32 {
    ((F32::whole(1600) - freq) / (F32::whole(1600) - F32::whole(700))).clamped(F32::nought(), F32::unit())
}

/// How much the two channels are one signal: 1 for the same, even if delayed.
pub open spec fn coherence(m: BandMeasure, x: Reading) -> F32 {
    (x.norm / m.span).clamped(F32::nought(), F32::unit())
}

/// Level difference as a part of that of a source at the side.
pub open spec fn level_cue(x: Reading) -> F32 {
    (F32::whole(10) * x.ratio_log / F32::whole(18)).clamped(F32::unit().spec_neg(), F32::unit())
}

/// Time difference as a part of that of a source at the side.
pub open spec fn time_cue(freq: F32, m: BandMeasure, x: Reading) -> F32 {
    (x.phase / (tau() * freq) / longest_delay()).clamped(F32::unit().spec_neg(), F32::unit()).spec_neg()
        * itd_weight(freq) * coherence(m, x)
}

/// From left (-1) to right (1): the two cues together.
pub open spec fn laterality(freq: F32, m: BandMeasure, x: Reading) -> F32 {
    (time_cue(freq, m, x) + level_cue(x)).clamped(F32::unit().spec_neg(), F32::unit())
}

/// The tangent of the angle at which each of the two speakers stands: 30 degrees.
pub open spec fn speaker_tangent() -> F32 {
    F32::quotient(9686330, 16777216)
}

/// The law of tangents: the tangent of the angle that a source between the speakers
/// seems to stand at.
pub open spec fn source_tangent(laterality: F32) -> F32 {
    laterality * speaker_tangent()
}

/// The arc of the stage reaches from speaker to speaker: an angle between them, spread
/// so that theirs is a quarter turn.
pub open spec fn on_arc(angle: F32) -> F32 {
    (angle * F32::whole(3)).clamped(quarter().spec_neg(), quarter())
}

/// Whether a cross-spectrum is that of a signal and its inverse: a negative number, up
/// to a thousandth, or nothing at all.
pub open spec fn is_inverse(c: Complex) -> bool {
    c.re.le(F32::nought()) && c.im.unsigned().le(c.re.unsigned() * F32::quotient(1, 1024))
}

/// How much the scene is like something that two ears could hear: low frequencies
/// reach both alike. What is decorrelated, or inverted on one side, is not.
pub open spec fn plausible(low_cross: Complex, low_span: F32, low_norm: F32) -> F32 {
    if is_inverse(low_cross) {
        F32::nought()
    } else {
        ((low_norm / low_span - F32::quotient(55, 100)) / F32::quotient(25, 100)).clamped(F32::nought(), F32::unit())
    }
}

/// By how much the level difference in the ear's region, `ear`, exceeds the one in the
/// reference, `reference`, on the side of the latter.
pub open spec fn excess(ear: F32, reference: F32) -> F32 {
    if F32::nought().lt(reference) {
        ear - reference
    } else if reference.lt(F32::nought()) {
        reference - ear
    } else {
        ear.unsigned()
    }
}

/// How far the level difference drops in the ear's region, as a part of a full drop.
pub open spec fn shade(s: SceneReading) -> F32 {
    (excess(F32::whole(10) * s.pinna_log, F32::whole(10) * s.reference_log).spec_neg() / F32::whole(4)).clamped(
        F32::nought(),
        F32::unit(),
    )
}

/// How far the scene is to one side.
pub open spec fn sideways(s: SceneReading) -> F32 {
    ((F32::whole(10) * s.wide_log).unsigned() / F32::whole(6)).clamped(F32::nought(), F32::unit())
}

/// The estimate that the scene is behind the listener: 0 in front or undecided, 1
/// behind. The outer ear shades what is behind, so the level difference drops in
/// its region against the reference, as far as the scene is to one side at all.
pub open spec fn rear(s: SceneReading, low_cross: Complex, low_span: F32) -> F32 {
    shade(s) * sideways(s) * plausible(low_cross, low_span, s.low_norm)
}

/// The stereo image of a frame.
#[derive(Debug, Clone, Copy)]
pub struct ImagingFrame {
    /// Direction of each band in radians: 0 in front, positive to the right,
    /// always on the frontal arc.
    pub azimuth: SpectrumFrame,
    /// 0 for a localized source, 1 for a field without direction.
    pub diffuseness: SpectrumFrame,
    /// 0 in front or undecided, 1 behind.
    pub rear: F32,
    /// Energy of each band, from 0 to 1.
    pub energy: SpectrumFrame,
}

impl ImagingFrame {
    /// A frame without sound.
    pub open spec fn is_silent(self) -> bool {
        &&& self.azimuth@ == Seq::new(NUM_BANDS as nat, |b: int| F32::nought())
        &&& self.diffuseness@ == Seq::new(NUM_BANDS as nat, |b: int| F32::nought())
        &&& self.energy@ == Seq::new(NUM_BANDS as nat, |b: int| F32::nought())
        &&& self.rear == F32::nought()
    }

    /// Energies, diffuseness and the estimate of the rear go from 0 to 1, and every
    /// direction lies on the frontal arc.
    pub open spec fn is_image(self) -> bool {
        &&& is_spectrum(self.energy@)
        &&& is_spectrum(self.diffuseness@)
        &&& is_part(self.rear)
        &&& forall|b: int| 0 <= b < NUM_BANDS ==> is_frontal(#[trigger] self.azimuth@[b])
    }
}

/// A direction on the frontal arc.
pub open spec fn is_frontal(a: F32) -> bool {
    a.within(quarter().spec_neg(), quarter())
}

impl Default for ImagingFrame {
    fn default() -> (r: Self)
        ensures
            r.is_silent(),
    {
        let zero = F32::zero();
        let r = ImagingFrame {
            azimuth: [zero; NUM_BANDS],
            diffuseness: [zero; NUM_BANDS],
            energy: [zero; NUM_BANDS],
            rear: zero,
        };
        assert(r.azimuth@ =~= Seq::new(NUM_BANDS as nat, |b: int| F32::nought()));
        assert(r.diffuseness@ =~= Seq::new(NUM_BANDS as nat, |b: int| F32::nought()));
        assert(r.energy@ =~= Seq::new(NUM_BANDS as nat, |b: int| F32::nought()));
        r
    }
}

fn power_of(c: Complex) -> (r: F32)
    ensures
        r == power(c),
{
    c.re * c.re + c.im * c.im
}

fn cross_of(l: Complex, r: Complex) -> (c: Complex)
    ensures
        c == cross(l, r),
{
    let n = r.im.neg();
    Complex { re: l.re * r.re - l.im * n, im: l.re * n + l.im * r.re }
}

fn sum_bins(l: &[Complex], r: &[Complex], lo: usize, hi: usize) -> (s: CrossSums)
    requires
        hi <= l@.len(),
        hi <= r@.len(),
    ensures
        s == sums(l@, r@, lo as int, hi as int),
{
    let zero = F32::zero();
    let mut s = CrossSums { left: zero, right: zero, cross: Complex { re: zero, im: zero } };
    let mut k: usize = lo;
    while k < hi
        invariant
            lo <= k,
            k <= hi || k == lo,
            hi <= l@.len(),
            hi <= r@.len(),
            s == sums(l@, r@, lo as int, k as int),
        decreases hi - k,
    {
        let c = cross_of(l[k], r[k]);
        s = CrossSums {
            left: s.left + power_of(l[k]),
            right: s.right + power_of(r[k]),
            cross: Complex { re: s.cross.re + c.re, im: s.cross.im + c.im },
        };
        k = k + 1;
    }
    s
}

fn peak_bins(l: &[Complex], r: &[Complex], lo: usize, hi: usize) -> (p: F32)
    requires
        hi <= l@.len(),
        hi <= r@.len(),
    ensures
        p == joint_peak(l@, r@, lo as int, hi as int),
{
    let mut p = F32::zero();
    let mut k: usize = lo;
    while k < hi
        invariant
            lo <= k,
            k <= hi || k == lo,
            hi <= l@.len(),
            hi <= r@.len(),
            p == joint_peak(l@, r@, lo as int, k as int),
        decreases hi - k,
    {
        p = p.max(((power_of(l[k]) + power_of(r[k])) * F32::half()).sqrt());
        k = k + 1;
    }
    p
}

fn ratio_of(s: &CrossSums) -> (r: F32)
    ensures
        r == power_ratio(*s),
{
    let e = F32 { bits: 0x2B8C_BCCC };
    (s.right + e) / (s.left + e)
}

fn span_of(s: &CrossSums) -> (r: F32)
    ensures
        r == power_span(*s),
{
    (s.left * s.right).sqrt().max(F32 { bits: 0x2B8C_BCCC })
}

/// The sums over a range of frequencies.
fn sum_range(l: &[Complex], r: &[Complex], lo_hz: u64, hi_hz: u64) -> (s: CrossSums)
    requires
        l@.len() > LAST_BIN,
        r@.len() > LAST_BIN,
    ensures
        s == range_sums(l@, r@, lo_hz as int, hi_hz as int),
{
    let bin = F32::from_int(SAMPLE_RATE as u64) / F32::from_int(FFT_SIZE as u64);
    let a: usize = (F32::from_int(lo_hz) / bin).to_index();
    let b: usize = (F32::from_int(hi_hz) / bin).to_index();
    let lo: usize = if a < 1 {
        1
    } else {
        a
    };
    let hi: usize = if b > LAST_BIN {
        LAST_BIN
    } else {
        b
    };
    sum_bins(l, r, lo, hi + 1)
}

/// The share of the time difference in finding a direction.
pub fn duplex_itd_weight(freq: F32) -> (r: F32)
    ensures
        r == itd_weight(freq),
{
    proof {
        lemma_one();
    }
    ((F32::from_int(1600) - freq) / (F32::from_int(1600) - F32::from_int(700))).clamp(F32::zero(), F32::one())
}

fn coherence_of(m: &BandMeasure, x: &Reading) -> (r: F32)
    ensures
        r == coherence(*m, *x),
{
    proof {
        lemma_one();
    }
    (x.norm / m.span).clamp(F32::zero(), F32::one())
}

fn laterality_of(freq: F32, m: &BandMeasure, x: &Reading) -> (r: F32)
    ensures
        r == laterality(freq, *m, *x),
        is_audible(freq, *x) && is_part(coherence(*m, *x)) ==> close(
            r,
            clip(
                time_part(freq.value(), x.phase.value(), coherence(*m, *x).value()) + level_part(x.ratio_log.value()),
                -1real,
                1real,
            ),
            1real / 10000real,
        ),
{
    proof {
        lemma_one();
        lemma_neg(F32::unit());
        if is_audible(freq, *x) && is_part(coherence(*m, *x)) {
            law_position_is_time_and_level(freq, *m, *x);
        }
    }
    let one = F32::one();
    let minus = one.neg();
    let level = (F32::from_int(10) * x.ratio_log / F32::from_int(18)).clamp(minus, one);
    let delay = x.phase / (F32::ratio(13176795, 2097152) * freq);
    let time = (delay / F32::ratio(66, 100_000)).clamp(minus, one).neg() * duplex_itd_weight(freq) * coherence_of(m, x);
    (time + level).clamp(minus, one)
}

/// How much the scene is like something that two ears could hear.
pub fn plausibility(low_cross: Complex, low_span: F32, low_norm: F32) -> (r: F32)
    ensures
        r == plausible(low_cross, low_span, low_norm),
{
    proof {
        lemma_one();
    }
    let thousandth = low_cross.re.abs() * F32::ratio(1, 1024);
    if low_cross.re.at_most(F32::zero()) && low_cross.im.abs().at_most(thousandth) {
        F32::zero()
    } else {
        ((low_norm / low_span - F32::ratio(55, 100)) / F32::ratio(25, 100)).clamp(F32::zero(), F32::one())
    }
}

fn excess_of(ear: F32, reference: F32) -> (r: F32)
    ensures
        r == excess(ear, reference),
{
    if F32::zero().less(reference) {
        ear - reference
    } else if reference.less(F32::zero()) {
        reference - ear
    } else {
        ear.abs()
    }
}

/// The estimate that the scene is behind the listener.
pub fn rear_estimate(s: &SceneReading, low_cross: Complex, low_span: F32) -> (r: F32)
    ensures
        r == rear(*s, low_cross, low_span),
{
    proof {
        lemma_one();
    }
    let ten = F32::from_int(10);
    let d = excess_of(ten * s.pinna_log, ten * s.reference_log);
    let lateral = ((ten * s.wide_log).abs() / F32::from_int(6)).clamp(F32::zero(), F32::one());
    (d.neg() / F32::from_int(4)).clamp(F32::zero(), F32::one()) * lateral * plausibility(
        low_cross,
        low_span,
        s.low_norm,
    )
}

/// The center of band `b`, in hertz.
pub open spec fn band_center(edges: Seq<usize>, b: int) -> F32 {
    F32::whole(edges[b] + band_end(edges, b)) * F32::half_unit() * half_bin_hz()
}

/// The frequency that a band's direction is found at: its center, at least one hertz.
pub open spec fn band_freq(edges: Seq<usize>, b: int) -> F32 {
    band_center(edges, b).larger(F32::unit())
}

/// The analyzer of the stereo image.
pub struct ImagingAnalyzer {
    window: Vec<F32>,
    band_edges: Vec<usize>,
    band_freqs: Vec<F32>,
    smoothed: ImagingFrame,
}

impl ImagingAnalyzer {
    /// The window that the samples are multiplied by.
    pub closed spec fn window(self) -> Seq<F32> {
        self.window@
    }

    /// The bins that bound the bands.
    pub closed spec fn edges(self) -> Seq<usize> {
        self.band_edges@
    }

    /// The centers of the bands, in hertz.
    pub closed spec fn centers(self) -> Seq<F32> {
        self.band_freqs@
    }

    /// The image of the last frame.
    pub closed spec fn image(self) -> ImagingFrame {
        self.smoothed
    }

    /// The window covers the transform, and edges and centers are those of the
    /// bands.
    pub open spec fn wf(self) -> bool {
        &&& self.window().len() == FFT_SIZE
        &&& self.edges().len() == NUM_BANDS + 1
        &&& forall|i: int|
            0 <= i <= NUM_BANDS ==> is_edge_bin(i as nat, #[trigger] self.edges()[i] as int)
        &&& self.centers() == Seq::new(NUM_BANDS as nat, |b: int| band_center(self.edges(), b))
    }

    /// Everything but the image is the same.
    pub open spec fn same_setup(self, other: ImagingAnalyzer) -> bool {
        &&& self.window() == other.window()
        &&& self.edges() == other.edges()
        &&& self.centers() == other.centers()
    }

    /// An analyzer at rest. `cosines` are those of `window_angles`.
    pub fn new(cosines: &[F32]) -> (r: ImagingAnalyzer)
        requires
            cosines@.len() == FFT_SIZE,
        ensures
            r.wf(),
            r.window() == Seq::new(FFT_SIZE as nat, |i: int| hann(cosines@[i])),
            r.image().is_silent(),
    {
        let band_edges = compute_band_edges();
        let bin = (F32::from_int(SAMPLE_RATE as u64) / F32::from_int(2)) / (F32::from_int(FFT_SIZE as u64)
            / F32::from_int(2));
        let mut band_freqs: Vec<F32> = Vec::new();
        let mut b: usize = 0;
        while b < NUM_BANDS
            invariant
                b <= NUM_BANDS,
                bin == half_bin_hz(),
                band_edges@.len() == NUM_BANDS + 1,
                forall|i: int|
                    0 <= i <= NUM_BANDS ==> is_edge_bin(i as nat, #[trigger] band_edges@[i] as int),
                band_freqs@.len() == b,
                forall|i: int| 0 <= i < b ==> #[trigger] band_freqs@[i] == band_center(band_edges@, i),
            decreases NUM_BANDS - b,
        {
            assert(is_edge_bin(b as nat, band_edges@[b as int] as int));
            assert(is_edge_bin((b + 1) as nat, band_edges@[b + 1] as int));
            let lo = band_edges[b];
            let hi: usize = if band_edges[b + 1] > lo {
                band_edges[b + 1]
            } else {
                lo + 1
            };
            band_freqs.push(F32::from_int((lo + hi) as u64) * F32::half() * bin);
            b = b + 1;
        }
        assert(band_freqs@ =~= Seq::new(NUM_BANDS as nat, |b: int| band_center(band_edges@, b)));
        ImagingAnalyzer { window: hann_window(cosines), band_edges, band_freqs, smoothed: ImagingFrame::default() }
    }

    /// The newest samples of a channel, windowed for the transform.
    pub fn windowed(&self, audio: &AudioBuffer, channel: Channel) -> (r: Vec<Complex>)
        requires
            self.wf(),
        ensures
            r@ == windowed(padded(audio.channel(channel), FFT_SIZE as int), self.window()),
    {
        window_channel(audio, channel, &self.window)
    }

    /// What the transforms of the two channels come down to.
    pub fn measure(&self, l: &[Complex], r: &[Complex]) -> (m: Measure)
        requires
            self.wf(),
            l@.len() > LAST_BIN,
            r@.len() > LAST_BIN,
        ensures
            measures(m, l@, r@, self.edges()),
            m.bands@.len() == NUM_BANDS,
    {
        let low = sum_range(l, r, 200, 1000);
        let mut bands: Vec<BandMeasure> = Vec::new();
        let mut b: usize = 0;
        while b < NUM_BANDS
            invariant
                b <= NUM_BANDS,
                self.wf(),
                l@.len() > LAST_BIN,
                r@.len() > LAST_BIN,
                bands@.len() == b,
                forall|i: int| 0 <= i < b ==> #[trigger] bands@[i] == band_measure(
                    l@,
                    r@,
                    self.edges()[i] as int,
                    band_end(self.edges(), i),
                ),
            decreases NUM_BANDS - b,
        {
            assert(is_edge_bin(b as nat, self.edges()[b as int] as int));
            assert(is_edge_bin((b + 1) as nat, self.edges()[b + 1] as int));
            let lo = self.band_edges[b];
            let hi: usize = if self.band_edges[b + 1] > lo {
                self.band_edges[b + 1]
            } else {
                lo + 1
            };
            let s = sum_bins(l, r, lo, hi);
            bands.push(
                BandMeasure {
                    cross: s.cross,
                    span: span_of(&s),
                    ratio: ratio_of(&s),
                    level: level_of(peak_bins(l, r, lo, hi)),
                },
            );
            b = b + 1;
        }
        assert(bands@ =~= Seq::new(
            NUM_BANDS as nat,
            |b: int| band_measure(l@, r@, self.edges()[b] as int, band_end(self.edges(), b)),
        ));
        Measure {
            pinna: ratio_of(&sum_range(l, r, 3800, 6500)),
            reference: ratio_of(&sum_range(l, r, 1800, 3200)),
            wide: ratio_of(&sum_range(l, r, 200, 16000)),
            low_cross: low.cross,
            low_span: span_of(&low),
            bands,
        }
    }

    /// Takes in the readings of a frame: the estimate of the rear and the energies
    /// move on. What comes back is, for each band, the tangent of the angle that it
    /// seems to stand at between the speakers, of which the caller takes the arc.
    pub fn locate(&mut self, m: &Measure, scene: &SceneReading, readings: &[Reading], gain: F32) -> (r: SpectrumFrame)
        requires
            old(self).wf(),
            m.bands@.len() == NUM_BANDS,
            readings@.len() == NUM_BANDS,
        ensures
            final(self).wf(),
            final(self).same_setup(*old(self)),
            final(self).image().rear == old(self).image().rear.toward(
                rear(*scene, m.low_cross, m.low_span),
                F32::quotient(12, 100),
            ),
            final(self).image().energy@ == Seq::new(
                NUM_BANDS as nat,
                |b: int| smooth(old(self).image().energy@[b], height(readings@[b].level_log, gain)),
            ),
            final(self).image().azimuth == old(self).image().azimuth,
            final(self).image().diffuseness == old(self).image().diffuseness,
            r@ == Seq::new(
                NUM_BANDS as nat,
                |b: int| source_tangent(laterality(band_freq(old(self).edges(), b), m.bands@[b], readings@[b])),
            ),
    {
        let estimate = rear_estimate(scene, m.low_cross, m.low_span);
        self.smoothed.rear = self.smoothed.rear.approach(estimate, F32::ratio(12, 100));
        let zero = F32::zero();
        let mut r: SpectrumFrame = [zero; NUM_BANDS];
        let ghost before = old(self).image().energy@;
        let mut b: usize = 0;
        while b < NUM_BANDS
            invariant
                b <= NUM_BANDS,
                old(self).wf(),
                before == old(self).image().energy@,
                self.window == old(self).window,
                self.band_edges == old(self).band_edges,
                self.band_freqs == old(self).band_freqs,
                m.bands@.len() == NUM_BANDS,
                readings@.len() == NUM_BANDS,
                self.smoothed.rear == old(self).image().rear.toward(
                    rear(*scene, m.low_cross, m.low_span),
                    F32::quotient(12, 100),
                ),
                self.smoothed.azimuth == old(self).image().azimuth,
                self.smoothed.diffuseness == old(self).image().diffuseness,
                forall|i: int| 0 <= i < b ==> #[trigger] self.smoothed.energy@[i] == smooth(
                    before[i],
                    height(readings@[i].level_log, gain),
                ),
                forall|i: int| b <= i < NUM_BANDS ==> #[trigger] self.smoothed.energy@[i] == before[i],
                forall|i: int| 0 <= i < b ==> #[trigger] r@[i] == source_tangent(
                    laterality(band_freq(old(self).edges(), i), m.bands@[i], readings@[i]),
                ),
            decreases NUM_BANDS - b,
        {
            let x = readings[b];
            let freq = self.band_freqs[b].max(F32::one());
            r[b] = laterality_of(freq, &m.bands[b], &x) * F32::ratio(9686330, 16777216);
            let next = smoothed(self.smoothed.energy[b], height_of(x.level_log, gain));
            self.smoothed.energy[b] = next;
            b = b + 1;
        }
        assert(r@ =~= Seq::new(
            NUM_BANDS as nat,
            |b: int| source_tangent(laterality(band_freq(old(self).edges(), b), m.bands@[b], readings@[b])),
        ));
        assert(self.smoothed.energy@ =~= Seq::new(
            NUM_BANDS as nat,
            |b: int| smooth(before[b], height(readings@[b].level_log, gain)),
        ));
        r
    }

    /// The image of the frame, given the angles of the bands between the speakers (the
    /// arc tangents of what `locate` gave). Weak bands move slowly.
    pub fn analyze(&mut self, m: &Measure, readings: &[Reading], angles: &SpectrumFrame) -> (r: ImagingFrame)
        requires
            old(self).wf(),
            m.bands@.len() == NUM_BANDS,
            readings@.len() == NUM_BANDS,
        ensures
            final(self).wf(),
            final(self).same_setup(*old(self)),
            final(self).image() == r,
            r.rear == old(self).image().rear,
            r.energy == old(self).image().energy,
            r.azimuth@ == Seq::new(
                NUM_BANDS as nat,
                |b: int|
                    old(self).image().azimuth@[b].toward(on_arc(angles@[b]), follow_rate(r.energy@[b])),
            ),
            r.diffuseness@ == Seq::new(
                NUM_BANDS as nat,
                |b: int|
                    old(self).image().diffuseness@[b].toward(
                        F32::unit() - coherence(m.bands@[b], readings@[b]),
                        follow_rate(r.energy@[b]),
                    ),
            ),
    {
        let ghost az = old(self).image().azimuth@;
        let ghost di = old(self).image().diffuseness@;
        let mut b: usize = 0;
        while b < NUM_BANDS
            invariant
                b <= NUM_BANDS,
                old(self).wf(),
                az == old(self).image().azimuth@,
                di == old(self).image().diffuseness@,
                self.window == old(self).window,
                self.band_edges == old(self).band_edges,
                self.band_freqs == old(self).band_freqs,
                m.bands@.len() == NUM_BANDS,
                readings@.len() == NUM_BANDS,
                self.smoothed.rear == old(self).image().rear,
                self.smoothed.energy == old(self).image().energy,
                forall|i: int| 0 <= i < b ==> #[trigger] self.smoothed.azimuth@[i] == az[i].toward(
                    on_arc(angles@[i]),
                    follow_rate(self.smoothed.energy@[i]),
                ),
                forall|i: int| b <= i < NUM_BANDS ==> #[trigger] self.smoothed.azimuth@[i] == az[i],
                forall|i: int| 0 <= i < b ==> #[trigger] self.smoothed.diffuseness@[i] == di[i].toward(
                    F32::unit() - coherence(m.bands@[i], readings@[i]),
                    follow_rate(self.smoothed.energy@[i]),
                ),
                forall|i: int| b <= i < NUM_BANDS ==> #[trigger] self.smoothed.diffuseness@[i] == di[i],
            decreases NUM_BANDS - b,
        {
            let rate = F32::ratio(10, 100) + F32::ratio(30, 100) * self.smoothed.energy[b];
            let c = coherence_of(&m.bands[b], &readings[b]);
            proof {
                lemma_one();
                lemma_quarter();
            }
            let side = F32::ratio(13176795, 8388608);
            let direction = (angles[b] * F32::from_int(3)).clamp(side.neg(), side);
            let a = self.smoothed.azimuth[b].approach(direction, rate);
            let d = self.smoothed.diffuseness[b].approach(F32::one() - c, rate);
            self.smoothed.azimuth[b] = a;
            self.smoothed.diffuseness[b] = d;
            b = b + 1;
        }
        let r = self.smoothed;
        assert(r.azimuth@ =~= Seq::new(
            NUM_BANDS as nat,
            |b: int| az[b].toward(on_arc(angles@[b]), follow_rate(r.energy@[b])),
        ));
        assert(r.diffuseness@ =~= Seq::new(
            NUM_BANDS as nat,
            |b: int|
                di[b].toward(
                    F32::unit() - coherence(m.bands@[b], readings@[b]),
                    follow_rate(r.energy@[b]),
                ),
        ));
        r
    }
}

/// How fast the direction of a band with this energy is followed.
pub open spec fn follow_rate(energy: F32) -> F32 {
    F32::quotient(10, 100) + F32::quotient(30, 100) * energy
}

/// Directions are followed by no more than half the way per frame.
pub proof fn lemma_follow_rate(energy: F32)
    requires
        is_part(energy),
    ensures
        follow_rate(energy).finite(),
        0 <= 2 * follow_rate(energy).units() <= one_units(),
{
    lemma_one();
    lemma_half();
    lemma_part_is_finite(energy);
    let w = one_units();
    let eighth = F32 { bits: 0x3E00_0000 };
    let three = F32 { bits: 0x3EC0_0000 };
    lemma2_to64();
    lemma_pow2_adds(3, 146);
    lemma_pow2_adds(2, 144);
    lemma_pow2_adds(22, 124);
    lemma_mag_units_at(124, 0xC0_0000);
    assert(w == 8 * pow2(146));
    lemma_power(146);
    assert(eighth == F32::power(146));
    assert(eighth.units() * 8 == w);
    assert(three.mag() == 124 * 0x80_0000 + 0xC0_0000);
    assert(three.units() * 8 == 3 * w);
    lemma_quotient_between(10, 100, F32::nought(), eighth);
    lemma_quotient_between(30, 100, F32::nought(), three);
    let a = F32::quotient(10, 100);
    let b = F32::quotient(30, 100);
    let e = energy.units();
    let bu = b.units();
    assert(0 <= bu * e <= bu * w) by (nonlinear_arith)
        requires 0 <= e <= w, bu >= 0;
    assert(0 * w == 0);
    lemma_mul_between(b, energy, F32::nought(), b);
    let p = b * energy;
    lemma_mag_units_order(b.mag(), p.mag());
    lemma_mag_units_order(0, p.mag());
    lemma_add_between(a, p, F32::nought(), F32::half_unit());
    let r = follow_rate(energy);
    lemma_mag_units_order(F32::half_unit().mag(), r.mag());
}

/// A quarter turn is less than two.
pub proof fn lemma_quarter()
    ensures
        quarter().finite(),
        0 < quarter().units() <= 2 * one_units(),
        quarter().spec_neg().units() == -quarter().units(),
        quarter().spec_neg().le(quarter()),
        quarter().spec_neg().finite(),
        !quarter().negative(),
{
    lemma_one();
    lemma_whole(2);
    lemma_quotient_number(13176795, 8388608);
    lemma_quotient_between(13176795, 8388608, F32::nought(), F32::whole(2));
    lemma_neg(quarter());
}

/// A direction followed from the frontal arc to the frontal arc stays on it.
pub proof fn law_direction_stays_frontal(from: F32, to: F32, energy: F32)
    requires
        is_frontal(from),
        is_frontal(to),
        is_part(energy),
    ensures
        is_frontal(from.toward(to, follow_rate(energy))),
{
    lemma_follow_rate(energy);
    lemma_one();
    lemma_whole(2);
    lemma_whole(4);
    lemma_quarter();
    lemma_neg(F32::whole(4));
    lemma_bounded_is_finite(from, quarter());
    lemma_bounded_is_finite(to, quarter());
    lemma_sub_between(to, from, F32::whole(4).spec_neg(), F32::whole(4));
    lemma_bounded_is_finite(to - from, F32::whole(4));
    law_step_stays_between(from, to, follow_rate(energy));
}

/// Diffuseness goes on being a part of one, as long as coherence is a number.
pub proof fn law_diffuseness_stays_part(from: F32, coherence: F32, energy: F32)
    requires
        is_part(from),
        is_part(coherence),
        is_part(energy),
    ensures
        is_part(from.toward(F32::unit() - coherence, follow_rate(energy))),
{
    lemma_one();
    lemma_follow_rate(energy);
    lemma_part_is_finite(from);
    lemma_part_is_finite(coherence);
    lemma_sub_between(F32::unit(), coherence, F32::nought(), F32::unit());
    let target = F32::unit() - coherence;
    lemma_part_is_finite(target);
    lemma_neg(F32::unit());
    lemma_sub_between(target, from, F32::unit().spec_neg(), F32::unit());
    lemma_bounded_is_finite(target - from, F32::unit());
    law_step_stays_between(from, target, follow_rate(energy));
}

/// The product of two parts of one is a part of one.
pub proof fn lemma_product_of_parts(a: F32, b: F32)
    requires
        is_part(a),
        is_part(b),
    ensures
        is_part(a * b),
{
    lemma_one();
    lemma_part_is_finite(a);
    lemma_part_is_finite(b);
    let x = a.units();
    let y = b.units();
    let w = one_units();
    assert(0 <= x * y <= w * w) by (nonlinear_arith)
        requires 0 <= x <= w, 0 <= y <= w;
    assert(0 * w == 0);
    lemma_mul_between(a, b, F32::nought(), F32::unit());
}

/// Every angle is shown on the frontal arc.
proof fn lemma_on_arc(angle: F32)
    requires
        !angle.nan(),
    ensures
        is_frontal(on_arc(angle)),
{
    lemma_whole(3);
    lemma_one();
    lemma_quarter();
    lemma_not_zero(F32::whole(3));
    lemma_mul_is_number(angle, F32::whole(3));
}

/// Readings from which the rear can be estimated: numbers that ten times over do not
/// overflow.
pub open spec fn estimable(s: SceneReading, low_span: F32) -> bool {
    &&& (F32::whole(10) * s.pinna_log).finite()
    &&& (F32::whole(10) * s.reference_log).finite()
    &&& !s.wide_log.nan()
    &&& !(s.low_norm / low_span).nan()
}

/// The three factors of the estimate of the rear are parts of one.
proof fn lemma_rear_factors(s: SceneReading, low_cross: Complex, low_span: F32)
    requires
        estimable(s, low_span),
    ensures
        is_part(shade(s)),
        is_part(sideways(s)),
        is_part(plausible(low_cross, low_span, s.low_norm)),
        is_part(shade(s) * sideways(s)),
        !excess(F32::whole(10) * s.pinna_log, F32::whole(10) * s.reference_log).nan(),
{
    lemma_one();
    lemma_whole(10);
    lemma_whole(6);
    lemma_whole(4);
    let a = F32::whole(10) * s.pinna_log;
    let b = F32::whole(10) * s.reference_log;
    lemma_neg(a);
    lemma_neg(b);
    lemma_add_is_number(a, b.spec_neg());
    lemma_add_is_number(b, a.spec_neg());
    lemma_signed(false, a.mag());
    let d = excess(a, b);
    lemma_neg(d);
    lemma_div_is_number(d.spec_neg(), F32::whole(4));
    lemma_mul_is_number(s.wide_log, F32::whole(10));
    let w = F32::whole(10) * s.wide_log;
    lemma_signed(false, w.mag());
    lemma_div_is_number(w.unsigned(), F32::whole(6));
    lemma_fraction(55, 100);
    lemma_fraction(25, 100);
    lemma_neg(F32::quotient(55, 100));
    lemma_add_is_number(s.low_norm / low_span, F32::quotient(55, 100).spec_neg());
    lemma_div_is_number(s.low_norm / low_span - F32::quotient(55, 100), F32::quotient(25, 100));
    lemma_product_of_parts(shade(s), sideways(s));
}

/// One factor of the estimate that is zero makes it zero.
pub proof fn lemma_rear_vanishes(s: SceneReading, low_cross: Complex, low_span: F32)
    requires
        estimable(s, low_span),
        shade(s).units() == 0 || sideways(s).units() == 0 || plausible(low_cross, low_span, s.low_norm).units() == 0,
    ensures
        rear(s, low_cross, low_span).units() == 0,
{
    lemma_one();
    lemma_rear_factors(s, low_cross, low_span);
    let x = shade(s);
    let y = sideways(s);
    let z = plausible(low_cross, low_span, s.low_norm);
    lemma_part_is_finite(x);
    lemma_part_is_finite(y);
    lemma_part_is_finite(z);
    lemma_part_is_finite(x * y);
    if x.units() == 0 {
        lemma_zero_mag(x);
        lemma_zero_product(x, y);
    } else if y.units() == 0 {
        lemma_zero_mag(y);
        lemma_times_zero(x, y);
    }
    if z.units() == 0 {
        lemma_zero_mag(z);
        lemma_times_zero(x * y, z);
    } else {
        lemma_zero_mag(x * y);
        lemma_zero_product(x * y, z);
    }
}

/// The estimate of the rear is a part of one, and so is its running mean.
pub proof fn law_rear_stays_part(s: SceneReading, low_cross: Complex, low_span: F32, from: F32)
    requires
        estimable(s, low_span),
        is_part(from),
    ensures
        is_part(rear(s, low_cross, low_span)),
        is_part(from.toward(rear(s, low_cross, low_span), F32::quotient(12, 100))),
{
    lemma_one();
    lemma_half();
    let w = one_units();
    lemma_rear_factors(s, low_cross, low_span);
    lemma_product_of_parts(shade(s) * sideways(s), plausible(low_cross, low_span, s.low_norm));
    let target = rear(s, low_cross, low_span);
    lemma_part_is_finite(from);
    lemma_part_is_finite(target);
    lemma_neg(F32::unit());
    lemma_sub_between(target, from, F32::unit().spec_neg(), F32::unit());
    lemma_bounded_is_finite(target - from, F32::unit());
    let h = F32::half_unit().units();
    assert(0 * 100 <= 12 * w <= h * 100);
    lemma_quotient_between(12, 100, F32::nought(), F32::half_unit());
    law_step_stays_between(from, target, F32::quotient(12, 100));
}

/// A level difference that does not drop in the ear's region leaves no shade.
proof fn lemma_no_shade(s: SceneReading, low_cross: Complex, low_span: F32)
    requires
        estimable(s, low_span),
        excess(F32::whole(10) * s.pinna_log, F32::whole(10) * s.reference_log).units() >= 0,
    ensures
        shade(s).units() == 0,
{
    lemma_one();
    lemma_whole(4);
    lemma_rear_factors(s, low_cross, low_span);
    let d = excess(F32::whole(10) * s.pinna_log, F32::whole(10) * s.reference_log);
    lemma_neg(d);
    lemma_div_sign(d.spec_neg(), F32::whole(4));
}

/// A source at one side that has the stronger level difference in the ear's region is
/// in front, on the left as on the right.
pub proof fn law_strong_ear_is_in_front(s: SceneReading, low_cross: Complex, low_span: F32)
    requires
        estimable(s, low_span),
        ({
            let ear = (F32::whole(10) * s.pinna_log).units();
            let reference = (F32::whole(10) * s.reference_log).units();
            0 <= reference <= ear || ear <= reference <= 0
        }),
    ensures
        rear(s, low_cross, low_span).units() == 0,
{
    lemma_one();
    let ear = F32::whole(10) * s.pinna_log;
    let reference = F32::whole(10) * s.reference_log;
    lemma_sub_sign(ear, reference);
    lemma_sub_sign(reference, ear);
    lemma_signed(false, ear.mag());
    lemma_no_shade(s, low_cross, low_span);
    lemma_rear_vanishes(s, low_cross, low_span);
}

/// The scene with the two sides exchanged.
pub open spec fn exchanged(s: SceneReading) -> SceneReading {
    SceneReading {
        pinna_log: s.pinna_log.spec_neg(),
        reference_log: s.reference_log.spec_neg(),
        wide_log: s.wide_log.spec_neg(),
        low_norm: s.low_norm,
    }
}

/// In front and behind are the same on both sides: exchanging them changes nothing.
pub proof fn law_rear_has_no_side(s: SceneReading, low_cross: Complex, low_span: F32)
    requires
        estimable(s, low_span),
    ensures
        rear(exchanged(s), low_cross, low_span) == rear(s, low_cross, low_span),
{
    lemma_one();
    lemma_whole(10);
    let ten = F32::whole(10);
    let e = exchanged(s);
    lemma_negated_product(ten, s.pinna_log);
    lemma_negated_product(ten, s.reference_log);
    lemma_mul_is_number(s.wide_log, ten);
    lemma_negated_product(ten, s.wide_log);
    let p = ten * s.pinna_log;
    let q = ten * s.reference_log;
    lemma_neg(p);
    lemma_neg(q);
    lemma_turned(p);
    lemma_turned(q);
    lemma_turned(ten * s.wide_log);
    lemma_add_commutes(p.spec_neg(), q);
    lemma_add_commutes(q.spec_neg(), p);
    assert(excess(p.spec_neg(), q.spec_neg()) == excess(p, q));
}

/// A product with the sign of one factor turned.
pub proof fn lemma_negated_product(a: F32, b: F32)
    requires
        !(a * b).nan(),
    ensures
        a * b.spec_neg() == (a * b).spec_neg(),
{
    reveal(F32::spec_mul);
    lemma_turned(b);
    lemma_turned(a * b);
    lemma_one();
    lemma_mag_units_order(0, a.mag());
    lemma_mag_units_order(0, b.mag());
    let m = mag_units(a.mag()) * mag_units(b.mag());
    assert(m >= 0) by (nonlinear_arith)
        requires m == mag_units(a.mag()) * mag_units(b.mag()), mag_units(a.mag()) >= 0, mag_units(b.mag()) >= 0;
    lemma_nearest_positive(m, one_units());
    lemma_signed(true, nearest_mag(m, one_units()));
    lemma_signed(false, nearest_mag(m, one_units()));
    lemma_signed(true, INF_MAG as int);
    lemma_signed(false, INF_MAG as int);
}

/// A level difference that is the same at all frequencies, as amplitude panning
/// gives, puts the scene in front.
pub proof fn law_flat_scene_is_in_front(s: SceneReading, low_cross: Complex, low_span: F32)
    requires
        s.pinna_log == s.reference_log,
        estimable(s, low_span),
    ensures
        rear(s, low_cross, low_span).units() == 0,
{
    law_strong_ear_is_in_front(s, low_cross, low_span);
}

/// On the median plane, where both sides are equally loud, nothing can be decided,
/// and the scene is taken to be in front.
pub proof fn law_median_plane_is_in_front(s: SceneReading, low_cross: Complex, low_span: F32)
    requires
        s.wide_log.units() == 0,
        estimable(s, low_span),
    ensures
        rear(s, low_cross, low_span).units() == 0,
{
    lemma_one();
    lemma_whole(10);
    lemma_whole(6);
    lemma_zero_mag(s.wide_log);
    lemma_times_zero(F32::whole(10), s.wide_log);
    let w = F32::whole(10) * s.wide_log;
    lemma_zero_mag(w);
    lemma_signed(false, 0);
    lemma_div_sign(w.unsigned(), F32::whole(6));
    lemma_rear_factors(s, low_cross, low_span);
    lemma_rear_vanishes(s, low_cross, low_span);
}

/// Low frequencies that are not one signal, as where a stereo widener decorrelates
/// them, are not acoustically real: the scene is taken to be in front.
pub proof fn law_decorrelated_scene_is_in_front(s: SceneReading, low_cross: Complex, low_span: F32)
    requires
        (s.low_norm / low_span).le(F32::quotient(55, 100)),
        (s.low_norm / low_span).finite(),
        estimable(s, low_span),
    ensures
        plausible(low_cross, low_span, s.low_norm).units() == 0,
        rear(s, low_cross, low_span).units() == 0,
{
    lemma_one();
    lemma_quotient_number(55, 100);
    lemma_quotient_number(25, 100);
    let c = s.low_norm / low_span;
    lemma_sub_sign(c, F32::quotient(55, 100));
    lemma_div_sign(c - F32::quotient(55, 100), F32::quotient(25, 100));
    lemma_rear_factors(s, low_cross, low_span);
    lemma_rear_vanishes(s, low_cross, low_span);
}

/// Whether the caller's functions gave numbers for a frame that can be used.
pub open spec fn readable(m: Measure, scene: SceneReading, readings: Seq<Reading>, angles: Seq<F32>) -> bool {
    &&& (F32::whole(10) * scene.pinna_log).finite()
    &&& (F32::whole(10) * scene.reference_log).finite()
    &&& !scene.wide_log.nan()
    &&& !(scene.low_norm / m.low_span).nan()
    &&& forall|b: int| 0 <= b < NUM_BANDS ==> !(#[trigger] readings[b]).level_log.nan()
    &&& forall|b: int| 0 <= b < NUM_BANDS ==> !(#[trigger] readings[b].norm / m.bands@[b].span).nan()
    &&& forall|b: int| 0 <= b < NUM_BANDS ==> !(#[trigger] angles[b]).nan()
}

/// Whether `next` is the image that `locate` and `analyze` make of a frame after
/// the image `last`.
pub open spec fn follows(
    last: ImagingFrame,
    next: ImagingFrame,
    m: Measure,
    scene: SceneReading,
    readings: Seq<Reading>,
    angles: Seq<F32>,
    gain: F32,
) -> bool {
    &&& next.rear == last.rear.toward(rear(scene, m.low_cross, m.low_span), F32::quotient(12, 100))
    &&& next.energy@ == Seq::new(
        NUM_BANDS as nat,
        |b: int| smooth(last.energy@[b], height(readings[b].level_log, gain)),
    )
    &&& next.azimuth@ == Seq::new(
        NUM_BANDS as nat,
        |b: int| last.azimuth@[b].toward(on_arc(angles[b]), follow_rate(next.energy@[b])),
    )
    &&& next.diffuseness@ == Seq::new(
        NUM_BANDS as nat,
        |b: int|
            last.diffuseness@[b].toward(
                F32::unit() - coherence(m.bands@[b], readings[b]),
                follow_rate(next.energy@[b]),
            ),
    )
}

/// An image stays an image from frame to frame: energies, diffuseness and the
/// estimate of the rear go from zero to one, and every direction is frontal.
pub proof fn law_image_stays_image(
    last: ImagingFrame,
    next: ImagingFrame,
    m: Measure,
    scene: SceneReading,
    readings: Seq<Reading>,
    angles: Seq<F32>,
    gain: F32,
)
    requires
        last.is_image(),
        follows(last, next, m, scene, readings, angles, gain),
        readable(m, scene, readings, angles),
        gain.finite(),
    ensures
        next.is_image(),
{
    lemma_one();
    law_rear_stays_part(scene, m.low_cross, m.low_span, last.rear);
    assert forall|b: int| 0 <= b < next.energy@.len() implies is_part(#[trigger] next.energy@[b]) by {
        assert(is_part(last.energy@[b]));
        assert(!readings[b].level_log.nan());
        law_height_is_part(readings[b].level_log, gain);
        law_smoothing_stays_between(last.energy@[b], height(readings[b].level_log, gain));
    }
    assert forall|b: int| 0 <= b < NUM_BANDS implies is_frontal(#[trigger] next.azimuth@[b]) by {
        assert(is_part(next.energy@[b]));
        assert(is_frontal(last.azimuth@[b]));
        assert(!angles[b].nan());
        lemma_on_arc(angles[b]);
        law_direction_stays_frontal(last.azimuth@[b], on_arc(angles[b]), next.energy@[b]);
    }
    assert forall|b: int| 0 <= b < next.diffuseness@.len() implies is_part(#[trigger] next.diffuseness@[b]) by {
        assert(is_part(next.energy@[b]));
        assert(is_part(last.diffuseness@[b]));
        assert(!(readings[b].norm / m.bands@[b].span).nan());
        law_diffuseness_stays_part(
            last.diffuseness@[b],
            coherence(m.bands@[b], readings[b]),
            next.energy@[b],
        );
    }
}

} // verus!
