//! From the transforms of two channels to the image, with the caller's functions in
//! between: what equal channels give.

use crate::bands::{is_edge_bin, NUM_BANDS};
use crate::dsp::{band_end, height, is_part, level, smooth, Complex};
use crate::float::laws::{
    lemma_add_order, lemma_bounded_is_finite_between, lemma_div_between, lemma_div_sign, lemma_half,
    lemma_mul_between, lemma_one, lemma_plus_zero, lemma_quotient_number, lemma_same_value, lemma_times_zero,
    lemma_whole, lemma_zero_mag, one_units,
};
use crate::float::mirror::lemma_add_commutes;
use crate::float::repr::{lemma_mag_units_order, INF_MAG};
use crate::float::F32;
use crate::stereo::{
    band_freq, coherence, first_bin, follows, half_bin_hz, joint_peak, last_bin, laterality, law_image_stays_image,
    measures, power, power_ratio, range_sums, readable, source_tangent, sums, trillionth, BandMeasure, ImagingFrame,
    Measure, Reading, SceneReading,
};
use crate::symmetry::{
    law_equal_channels_are_in_phase, law_equal_channels_are_in_the_middle, law_equal_channels_are_level,
    law_equal_channels_stay_in_front, lemma_finite_terms,
};
use vstd::prelude::*;

verus! {

/// The functions that the caller applies to a measure.
pub struct Functions {
    /// The absolute value of a complex number.
    pub norm: spec_fn(Complex) -> F32,
    /// The angle of a complex number.
    pub arg: spec_fn(Complex) -> F32,
    /// The decimal logarithm.
    pub log: spec_fn(F32) -> F32,
    /// The angle that a tangent belongs to.
    pub atan: spec_fn(F32) -> F32,
}

impl Functions {
    /// What they give for a band.
    pub open spec fn reading(self, m: BandMeasure) -> Reading {
        Reading {
            norm: (self.norm)(m.cross),
            phase: (self.arg)(m.cross),
            ratio_log: (self.log)(m.ratio),
            level_log: (self.log)(m.level),
        }
    }

    /// What they give for all bands.
    pub open spec fn readings(self, m: Measure) -> Seq<Reading> {
        Seq::new(NUM_BANDS as nat, |b: int| self.reading(m.bands@[b]))
    }

    /// What they give for the whole frame.
    pub open spec fn scene(self, m: Measure) -> SceneReading {
        SceneReading {
            pinna_log: (self.log)(m.pinna),
            reference_log: (self.log)(m.reference),
            wide_log: (self.log)(m.wide),
            low_norm: (self.norm)(m.low_cross),
        }
    }

    /// The angles that the bands seem to stand at between the speakers.
    pub open spec fn angles(self, m: Measure, edges: Seq<usize>) -> Seq<F32> {
        Seq::new(
            NUM_BANDS as nat,
            |b: int| (self.atan)(source_tangent(laterality(band_freq(edges, b), m.bands@[b], self.reading(m.bands@[b])))),
        )
    }

    /// Whether `next` is the image after `last` that a measure gives through them.
    pub open spec fn give(
        self,
        last: ImagingFrame,
        next: ImagingFrame,
        m: Measure,
        edges: Seq<usize>,
        gain: F32,
    ) -> bool {
        follows(last, next, m, self.scene(m), self.readings(m), self.angles(m, edges), gain)
    }

    /// Whether they are right where they can be exact: the absolute value and the angle
    /// of a number that is real and not negative, the logarithm of one, the angle of no
    /// tangent. Logarithms of positive numbers are numbers.
    pub open spec fn are_exact(self) -> bool {
        &&& forall|c: Complex|
            c.re.finite() && !c.re.negative() && c.im.finite() && c.im.units() == 0 ==> {
                &&& (#[trigger] (self.norm)(c)).finite()
                &&& (self.norm)(c).units() == c.re.units()
            }
        &&& forall|c: Complex|
            c.re.finite() && !c.re.negative() && c.im.finite() && c.im.units() == 0 ==> {
                &&& (#[trigger] (self.arg)(c)).finite()
                &&& (self.arg)(c).units() == 0
            }
        &&& (self.log)(F32::unit()).finite()
        &&& (self.log)(F32::unit()).units() == 0
        &&& forall|x: F32| F32::nought().lt(x) ==> !(#[trigger] (self.log)(x)).nan()
        &&& forall|x: F32| x.finite() && x.units() == 0 ==> {
            &&& (#[trigger] (self.atan)(x)).finite()
            &&& (self.atan)(x).units() == 0
        }
    }
}

/// Whether the bins that bound the bands are those of the scale.
pub open spec fn are_edges(edges: Seq<usize>) -> bool {
    &&& edges.len() == NUM_BANDS + 1
    &&& forall|i: int| 0 <= i <= NUM_BANDS ==> is_edge_bin(i as nat, #[trigger] edges[i] as int)
}

/// Whether the powers that a channel's bins add up to stay finite.
pub open spec fn are_measurable(l: Seq<Complex>, edges: Seq<usize>) -> bool {
    &&& (range_sums(l, l, 3800, 6500).left + trillionth()).finite()
    &&& (range_sums(l, l, 1800, 3200).left + trillionth()).finite()
    &&& (range_sums(l, l, 200, 16000).left + trillionth()).finite()
    &&& range_sums(l, l, 200, 1000).left.finite()
    &&& forall|b: int| 0 <= b < NUM_BANDS ==> (sums(l, l, #[trigger] edges[b] as int, band_end(edges, b)).left
        + trillionth()).finite()
}

/// The frequency of a band is above one and below the sampling rate.
pub proof fn lemma_band_freq(edges: Seq<usize>, b: int)
    requires
        are_edges(edges),
        0 <= b < NUM_BANDS,
    ensures
        band_freq(edges, b).within(F32::unit(), F32::whole(48000)),
{
    lemma_one();
    lemma_half();
    assert(is_edge_bin(b as nat, edges[b] as int));
    assert(is_edge_bin((b + 1) as nat, edges[b + 1] as int));
    let n = edges[b] + band_end(edges, b);
    assert(0 <= n <= 2048);
    lemma_whole(n);
    lemma_whole(48000);
    lemma_whole(24000);
    lemma_whole(2048);
    lemma_whole(1024);
    lemma_whole(2);
    lemma_whole(24);
    let w = one_units();
    assert((24000 * w) * (2 * w) == (48000 * w) * w && (1024 * w) * (2 * w) == (2048 * w) * w) by (nonlinear_arith);
    lemma_div_between(F32::whole(48000), F32::whole(2), F32::whole(24000), F32::whole(24000));
    lemma_same_value(F32::whole(48000) / F32::whole(2), F32::whole(24000));
    lemma_div_between(F32::whole(2048), F32::whole(2), F32::whole(1024), F32::whole(1024));
    lemma_same_value(F32::whole(2048) / F32::whole(2), F32::whole(1024));
    assert(0 * (1024 * w) <= (24000 * w) * w <= (24 * w) * (1024 * w)) by (nonlinear_arith)
        requires w > 0;
    lemma_div_between(
        F32::whole(48000) / F32::whole(2),
        F32::whole(2048) / F32::whole(2),
        F32::nought(),
        F32::whole(24),
    );
    let h = half_bin_hz();
    lemma_bounded_is_finite_between(h, F32::nought(), F32::whole(24));
    let half = F32::half_unit();
    assert(0 * w <= (n * w) * half.units() <= (1024 * w) * w) by (nonlinear_arith)
        requires 0 <= n <= 2048, 2 * half.units() == w, w > 0;
    lemma_mul_between(F32::whole(n), half, F32::nought(), F32::whole(1024));
    let c = F32::whole(n) * half;
    lemma_bounded_is_finite_between(c, F32::nought(), F32::whole(1024));
    let u = c.units();
    let v = h.units();
    assert(0 * w <= u * v <= (48000 * w) * w) by (nonlinear_arith)
        requires 0 <= u <= 1024 * w, 0 <= v <= 24 * w, w > 0;
    lemma_mul_between(c, h, F32::nought(), F32::whole(48000));
}

/// The largest mean amplitude is a number that is not negative.
pub proof fn lemma_joint_peak(l: Seq<Complex>, r: Seq<Complex>, lo: int, hi: int)
    ensures
        !joint_peak(l, r, lo, hi).nan(),
        joint_peak(l, r, lo, hi).units() >= 0,
    decreases hi - lo,
{
    lemma_one();
    if hi > lo {
        lemma_joint_peak(l, r, lo, hi - 1);
    }
}

/// A level is positive.
pub proof fn lemma_level(peak: F32)
    requires
        !peak.nan(),
        peak.units() >= 0,
    ensures
        F32::nought().lt(level(peak)),
{
    lemma_one();
    lemma_half();
    lemma_whole(2048);
    lemma_whole(1024);
    let w = one_units();
    let h = F32::half_unit().units();
    assert((1024 * w) * w == (2048 * w) * h) by (nonlinear_arith)
        requires 2 * h == w;
    lemma_mul_between(F32::whole(2048), F32::half_unit(), F32::whole(1024), F32::whole(1024));
    let d = F32::whole(2048) * F32::half_unit();
    lemma_same_value(d, F32::whole(1024));
    lemma_div_sign(peak, d);
    let x = peak / d;
    let e = F32::quotient(1, 1_000_000_000);
    lemma_quotient_number(1, 1_000_000_000);
    if x.finite() {
        lemma_plus_zero(e, F32::nought());
        lemma_add_commutes(e, F32::nought());
        lemma_add_order(F32::nought(), e, x, e);
    } else {
        reveal(F32::spec_add);
        lemma_mag_units_order(0, INF_MAG as int);
    }
}

/// What a span divides is a number.
pub proof fn lemma_over_span(a: F32, x: F32)
    requires
        a.finite(),
    ensures
        !(a / x.root().larger(trillionth())).nan(),
{
    lemma_one();
    lemma_mag_units_order(0, trillionth().mag());
    let s = x.root().larger(trillionth());
    assert(!s.nan() && s.units() > 0);
    if s.finite() {
        lemma_div_sign(a, s);
    } else {
        reveal(F32::spec_euclidean_or_real_div);
    }
}

/// Equal channels give an image in front: no band stands to either side, nothing is
/// behind, and the energies are those that the levels call for, if it was so before.
pub proof fn law_equal_channels_give_a_frontal_image(
    f: Functions,
    l: Seq<Complex>,
    edges: Seq<usize>,
    m: Measure,
    last: ImagingFrame,
    next: ImagingFrame,
    gain: F32,
)
    requires
        f.are_exact(),
        are_edges(edges),
        are_measurable(l, edges),
        measures(m, l, l, edges),
        f.give(last, next, m, edges, gain),
        gain.finite(),
        last.is_image(),
        last.rear.units() == 0,
        forall|b: int| 0 <= b < NUM_BANDS ==> (#[trigger] last.azimuth@[b]).units() == 0,
    ensures
        next.is_image(),
        next.rear.units() == 0,
        forall|b: int| 0 <= b < NUM_BANDS ==> (#[trigger] next.azimuth@[b]).units() == 0,
        forall|b: int|
            0 <= b < NUM_BANDS ==> #[trigger] next.energy@[b] == smooth(
                last.energy@[b],
                height((f.log)(m.bands@[b].level), gain),
            ),
{
    lemma_one();
    lemma_whole(10);
    lemma_equal_ranges(f, l, edges, m);
    let scene = f.scene(m);
    let readings = f.readings(m);
    let angles = f.angles(m, edges);
    assert forall|b: int| 0 <= b < NUM_BANDS implies !(#[trigger] readings[b]).level_log.nan() by {
        lemma_equal_band(f, l, edges, m, b);
    }
    assert forall|b: int| 0 <= b < NUM_BANDS implies !(#[trigger] readings[b].norm / m.bands@[b].span).nan() by {
        lemma_equal_band(f, l, edges, m, b);
    }
    assert forall|b: int| 0 <= b < NUM_BANDS implies (#[trigger] angles[b]).finite() && angles[b].units() == 0 by {
        lemma_equal_band(f, l, edges, m, b);
    }
    assert(readable(m, scene, readings, angles));
    law_image_stays_image(last, next, m, scene, readings, angles, gain);
    law_equal_channels_stay_in_front(last, next, m, scene, readings, angles, gain);
}

/// With equal channels the logarithms of the whole frame are zero.
proof fn lemma_equal_ranges(f: Functions, l: Seq<Complex>, edges: Seq<usize>, m: Measure)
    requires
        f.are_exact(),
        are_measurable(l, edges),
        measures(m, l, l, edges),
    ensures
        (F32::whole(10) * f.scene(m).pinna_log).finite(),
        (F32::whole(10) * f.scene(m).reference_log).finite(),
        f.scene(m).wide_log.finite(),
        f.scene(m).wide_log.units() == 0,
        !(f.scene(m).low_norm / m.low_span).nan(),
{
    lemma_one();
    lemma_whole(10);
    lemma_equal_range(l, 3800, 6500);
    lemma_equal_range(l, 1800, 3200);
    lemma_equal_range(l, 200, 16000);
    let zero = (f.log)(F32::unit());
    lemma_zero_mag(zero);
    lemma_times_zero(F32::whole(10), zero);
    let s = range_sums(l, l, 200, 1000);
    lemma_real(l, first_bin(F32::whole(200)), last_bin(F32::whole(1000)) + 1);
    assert((f.norm)(s.cross).finite());
    lemma_over_span((f.norm)(s.cross), s.left * s.right);
}

/// With equal channels the power ratio over a range is one.
proof fn lemma_equal_range(l: Seq<Complex>, lo_hz: int, hi_hz: int)
    requires
        (range_sums(l, l, lo_hz, hi_hz).left + trillionth()).finite(),
    ensures
        power_ratio(range_sums(l, l, lo_hz, hi_hz)) == F32::unit(),
{
    law_equal_channels_are_level(
        l,
        first_bin(F32::whole(lo_hz)),
        last_bin(F32::whole(hi_hz)) + 1,
    );
}

/// With equal channels the cross-spectrum is real and not negative.
proof fn lemma_real(l: Seq<Complex>, lo: int, hi: int)
    requires
        sums(l, l, lo, hi).left.finite(),
    ensures
        sums(l, l, lo, hi).cross.re.finite(),
        !sums(l, l, lo, hi).cross.re.negative(),
        sums(l, l, lo, hi).cross.im.finite(),
        sums(l, l, lo, hi).cross.im.units() == 0,
{
    law_equal_channels_are_in_phase(l, lo, hi);
}

/// With equal channels a band stands in the middle.
proof fn lemma_equal_band(f: Functions, l: Seq<Complex>, edges: Seq<usize>, m: Measure, b: int)
    requires
        f.are_exact(),
        are_edges(edges),
        are_measurable(l, edges),
        measures(m, l, l, edges),
        0 <= b < NUM_BANDS,
    ensures
        !f.reading(m.bands@[b]).level_log.nan(),
        !(f.reading(m.bands@[b]).norm / m.bands@[b].span).nan(),
        f.angles(m, edges)[b].finite(),
        f.angles(m, edges)[b].units() == 0,
{
    lemma_one();
    let lo = edges[b] as int;
    let hi = band_end(edges, b);
    let s = sums(l, l, lo, hi);
    let band = m.bands@[b];
    assert((s.left + trillionth()).finite());
    lemma_finite_terms(s.left, trillionth());
    lemma_real(l, lo, hi);
    law_equal_channels_are_level(l, lo, hi);
    lemma_joint_peak(l, l, lo, hi);
    lemma_level(joint_peak(l, l, lo, hi));
    let x = f.reading(band);
    assert((f.norm)(s.cross).finite());
    assert((f.arg)(s.cross).finite());
    lemma_over_span(x.norm, s.left * s.right);
    assert(is_part(coherence(band, x)));
    lemma_band_freq(edges, b);
    law_equal_channels_are_in_the_middle(band_freq(edges, b), band, x);
    let t = source_tangent(laterality(band_freq(edges, b), band, x));
    assert((f.atan)(t).finite());
}

} // verus!
