//! From the transforms of two channels to the image: what exchanging them does.

use crate::bands::NUM_BANDS;
use crate::dsp::{
    band_end, height, is_part, law_height_is_part, law_smoothing_stays_between, lemma_part_is_finite, Complex,
};
use crate::float::error::{
    lemma_add_error, lemma_mul_error, lemma_product_bound, lemma_slack, lemma_sub_error, lemma_times_bound,
    lemma_wide_product_error, lemma_wide_quotient_error, slack,
};
use crate::float::laws::{
    lemma_add_order, lemma_binary_fraction, lemma_bounded_is_finite_between, lemma_div_sign, lemma_half,
    lemma_mul_between, lemma_neg, lemma_one, lemma_plus_zero, lemma_quotient_between, lemma_quotient_number,
    lemma_same_value, lemma_sub_between, lemma_sub_sign, lemma_whole, one_units,
};
use crate::float::mirror::{lemma_add_commutes, lemma_opposite_units, opposite};
use crate::float::repr::lemma_mag_units_order;
use crate::float::round::distance;
use crate::float::F32;
use crate::readings::{are_edges, lemma_band_freq, lemma_joint_peak, lemma_level, lemma_over_span, Functions};
use crate::stereo::{
    band_freq, coherence, follow_rate, is_frontal, itd_weight, joint_peak, laterality, lemma_follow_rate,
    lemma_quarter, level_cue, longest_delay, measures, on_arc, quarter, source_tangent, speaker_tangent, sums, tau,
    time_cue, trillionth, BandMeasure, ImagingFrame, Measure, Reading,
};
use crate::symmetry::{
    law_equal_channels_are_in_phase, law_exchange_conjugates, lemma_exchanged_time, lemma_finite_terms,
    lemma_least_rate, lemma_speaker_tangent,
};
use vstd::arithmetic::power2::{lemma2_to64, pow2};
use vstd::prelude::*;

verus! {

/// Finite numbers that are opposite, up to a bound in units.
pub open spec fn nearly_opposite(a: F32, b: F32, bound: int) -> bool {
    &&& a.finite()
    &&& b.finite()
    &&& distance(a.units() + b.units(), 0) <= bound
}

/// A number no further from zero than a bound in units.
pub open spec fn below(a: F32, bound: int) -> bool {
    a.finite() && distance(a.units(), 0) <= bound
}

/// Numbers cut off at one and at minus one are as nearly opposite as they were.
proof fn lemma_nearly_clamped(a: F32, b: F32, limit: F32, bound: int)
    requires
        nearly_opposite(a, b, bound),
        limit.finite(),
        limit.units() >= 0,
    ensures
        nearly_opposite(a.clamped(limit.spec_neg(), limit), b.clamped(limit.spec_neg(), limit), bound),
        below(a.clamped(limit.spec_neg(), limit), limit.units()),
        below(b.clamped(limit.spec_neg(), limit), limit.units()),
{
    lemma_neg(limit);
}

/// The level difference of nearly opposite logarithms.
proof fn lemma_nearly_level(x: Reading, y: Reading)
    requires
        below(x.ratio_log, 64 * one_units()),
        below(y.ratio_log, 64 * one_units()),
        nearly_opposite(x.ratio_log, y.ratio_log, 64 * slack()),
    ensures
        nearly_opposite(level_cue(x), level_cue(y), 96 * slack()),
        below(level_cue(x), one_units()),
        below(level_cue(y), one_units()),
{
    lemma_one();
    lemma_slack();
    lemma2_to64();
    lemma_whole(10);
    lemma_whole(18);
    let w = one_units();
    let k = slack();
    let a = x.ratio_log.units();
    let b = y.ratio_log.units();
    lemma_tenfold(x.ratio_log);
    lemma_tenfold(y.ratio_log);
    let p = F32::whole(10) * x.ratio_log;
    let q = F32::whole(10) * y.ratio_log;
    let s = p.units() + q.units();
    assert(distance(s, 0) <= 1152 * k);
    lemma_eighteenth(p);
    lemma_eighteenth(q);
    lemma_nearly_clamped(p / F32::whole(18), q / F32::whole(18), F32::unit(), 96 * k);
}

/// Ten times a logarithm.
proof fn lemma_tenfold(x: F32)
    requires
        below(x, 64 * one_units()),
    ensures
        below(F32::whole(10) * x, 641 * one_units()),
        distance((F32::whole(10) * x).units(), 10 * x.units()) <= 256 * slack(),
{
    lemma_one();
    lemma_slack();
    lemma2_to64();
    lemma_whole(10);
    let w = one_units();
    let k = slack();
    let u = x.units();
    lemma_product_bound(10 * w, u, 10 * w, 64 * w);
    assert((10 * w) * (64 * w) == 640 * (w * w) && 4 * pow2(8) * w * w == 1024 * (w * w) && w * w > 0)
        by (nonlinear_arith)
        requires pow2(8) == 256, w > 0;
    lemma_wide_product_error(F32::whole(10), x, 8);
    let p = (F32::whole(10) * x).units();
    let e = p - 10 * u;
    assert(e * w == p * w - (10 * w) * u) by (nonlinear_arith)
        requires e == p - 10 * u;
    lemma_times_bound(e, 256 * k, w);
}

/// An eighteenth of a level difference.
proof fn lemma_eighteenth(x: F32)
    requires
        below(x, 641 * one_units()),
    ensures
        (x / F32::whole(18)).finite(),
        distance(18 * (x / F32::whole(18)).units(), x.units()) <= 288 * slack(),
{
    lemma_one();
    lemma_slack();
    lemma2_to64();
    lemma_whole(18);
    let w = one_units();
    let k = slack();
    let u = x.units();
    lemma_product_bound(u, w, 641 * w, w);
    assert((641 * w) * w == 641 * (w * w) && 4 * pow2(4) * w * (18 * w) == 1152 * (w * w) && w * w > 0)
        by (nonlinear_arith)
        requires pow2(4) == 16, w > 0;
    lemma_wide_quotient_error(x, F32::whole(18), 4);
    let q = (x / F32::whole(18)).units();
    let e = 18 * q - u;
    assert(e * w == q * (18 * w) - u * w && pow2(4) * k * (18 * w) == (288 * k) * w) by (nonlinear_arith)
        requires e == 18 * q - u, pow2(4) == 16;
    lemma_times_bound(e, 288 * k, w);
}

/// A part of a number no further from zero than one is no further either.
proof fn lemma_part_below(a: F32, p: F32)
    requires
        below(a, one_units()),
        is_part(p),
    ensures
        below(a * p, one_units()),
{
    lemma_one();
    lemma_neg(F32::unit());
    lemma_part_is_finite(p);
    let w = one_units();
    let u = a.units();
    let v = p.units();
    assert((-w) * w <= u * v <= w * w) by (nonlinear_arith)
        requires -w <= u <= w, 0 <= v <= w;
    lemma_mul_between(a, p, F32::unit().spec_neg(), F32::unit());
    lemma_bounded_is_finite_between(a * p, F32::unit().spec_neg(), F32::unit());
}

/// The time difference is a number no further from zero than one.
proof fn lemma_time_below(freq: F32, m: BandMeasure, x: Reading)
    requires
        freq.within(F32::unit(), F32::whole(48000)),
        x.phase.finite(),
        is_part(coherence(m, x)),
    ensures
        below(time_cue(freq, m, x), one_units()),
{
    lemma_one();
    let w = one_units();
    lemma_whole(48000);
    lemma_whole(6);
    lemma_whole(7);
    lemma_whole(336000);
    lemma_bounded_is_finite_between(freq, F32::unit(), F32::whole(48000));
    lemma_quotient_between(13176795, 2097152, F32::whole(6), F32::whole(7));
    lemma_bounded_is_finite_between(tau(), F32::whole(6), F32::whole(7));
    let t = tau().units();
    let f = freq.units();
    assert(w * w <= t * f <= (336000 * w) * w) by (nonlinear_arith)
        requires 6 * w <= t <= 7 * w, w <= f <= 48000 * w, w > 0;
    lemma_mul_between(tau(), freq, F32::unit(), F32::whole(336000));
    lemma_bounded_is_finite_between(tau() * freq, F32::unit(), F32::whole(336000));
    lemma_div_sign(x.phase, tau() * freq);
    lemma_quotient_number(66, 100_000);
    let p = x.phase / (tau() * freq);
    lemma_div_sign(p, longest_delay());
    let one = F32::unit();
    lemma_neg(one);
    let q = (p / longest_delay()).clamped(one.spec_neg(), one);
    lemma_bounded_is_finite_between(q, one.spec_neg(), one);
    lemma_neg(q);
    lemma_whole(1600);
    lemma_whole(700);
    lemma_whole(900);
    lemma_sub_between(F32::whole(1600), F32::whole(700), F32::whole(900), F32::whole(900));
    lemma_same_value(F32::whole(1600) - F32::whole(700), F32::whole(900));
    lemma_sub_sign(F32::whole(1600), freq);
    lemma_div_sign(F32::whole(1600) - freq, F32::whole(1600) - F32::whole(700));
    lemma_part_below(q.spec_neg(), itd_weight(freq));
    lemma_part_below(q.spec_neg() * itd_weight(freq), coherence(m, x));
}

/// Readings of the same band with the channels exchanged: the phase has turned its sign,
/// and so has the logarithm of the power ratio, up to rounding.
pub open spec fn nearly_mirrored_reading(x: Reading, y: Reading) -> bool {
    &&& y.norm == x.norm
    &&& x.phase.finite()
    &&& opposite(x.phase, y.phase)
    &&& below(x.ratio_log, 64 * one_units())
    &&& below(y.ratio_log, 64 * one_units())
    &&& nearly_opposite(x.ratio_log, y.ratio_log, 64 * slack())
}

/// Exchanging the channels turns the tangent of a band from one side to the other, up to
/// rounding.
pub proof fn law_exchange_nearly_turns_tangent(freq: F32, m: BandMeasure, n: BandMeasure, x: Reading, y: Reading)
    requires
        freq.within(F32::unit(), F32::whole(48000)),
        nearly_mirrored_reading(x, y),
        m.span == n.span,
        is_part(coherence(m, x)),
    ensures
        nearly_opposite(
            source_tangent(laterality(freq, m, x)),
            source_tangent(laterality(freq, n, y)),
            100 * slack(),
        ),
        below(source_tangent(laterality(freq, m, x)), one_units()),
        below(source_tangent(laterality(freq, n, y)), one_units()),
{
    lemma_one();
    lemma_slack();
    let w = one_units();
    let k = slack();
    lemma_opposite_units(x.phase, y.phase);
    lemma_nearly_level(x, y);
    lemma_exchanged_time(freq, m, n, x, y);
    lemma_time_below(freq, m, x);
    let a = time_cue(freq, m, x);
    let b = time_cue(freq, n, y);
    lemma_opposite_units(a, b);
    lemma_add_error(a, level_cue(x));
    lemma_add_error(b, level_cue(y));
    lemma_nearly_clamped(a + level_cue(x), b + level_cue(y), F32::unit(), 98 * k);
    let p = laterality(freq, m, x);
    let q = laterality(freq, n, y);
    lemma_speaker_tangent();
    lemma_half();
    lemma_part_below(p, speaker_tangent());
    lemma_part_below(q, speaker_tangent());
    lemma_nearly_scaled(p, q, speaker_tangent(), 98 * k);
}

/// Nearly opposite numbers times the same part are nearly opposite.
proof fn lemma_nearly_scaled(a: F32, b: F32, c: F32, bound: int)
    requires
        nearly_opposite(a, b, bound),
        2 * distance(a.units(), 0) < 7 * one_units(),
        2 * distance(b.units(), 0) < 7 * one_units(),
        c.finite(),
        0 <= c.units() <= one_units(),
    ensures
        nearly_opposite(a * c, b * c, bound + 2 * slack()),
        distance(((a * c).units() + (b * c).units()) * one_units(), (a.units() + b.units()) * c.units()) <= 2 * (
        slack() * one_units()),
{
    lemma_one();
    lemma_slack();
    let w = one_units();
    let k = slack();
    let x = a.units();
    let y = b.units();
    let z = c.units();
    assert(-(4 * w * w) < x * z < 4 * w * w && -(4 * w * w) < y * z < 4 * w * w) by (nonlinear_arith)
        requires -(7 * w) < 2 * x < 7 * w, -(7 * w) < 2 * y < 7 * w, 0 <= z <= w, w > 0;
    lemma_mul_error(a, c);
    lemma_mul_error(b, c);
    lemma_product_bound(x + y, z, bound, z);
    let e = (a * c).units() + (b * c).units();
    let (f, g) = ((a * c).units(), (b * c).units());
    assert(e * w == f * w + g * w && (x + y) * z == x * z + y * z) by (nonlinear_arith)
        requires e == f + g;
    assert(bound * z <= bound * w && (bound + 2 * k) * w == bound * w + 2 * (k * w)) by (nonlinear_arith)
        requires 0 <= z <= w, bound >= 0;
    lemma_times_bound(e, bound + 2 * k, w);
}

/// A quarter turn is less than 51 parts in 32.
proof fn lemma_short_quarter()
    ensures
        quarter().finite(),
        0 < 32 * quarter().units() <= 51 * one_units(),
{
    lemma_one();
    lemma2_to64();
    lemma_quarter();
    lemma_binary_fraction(51, 5);
    lemma_quotient_between(13176795, 8388608, F32::nought(), F32::quotient(51, 32));
}

/// The arc of nearly opposite angles.
proof fn lemma_nearly_on_arc(a: F32, b: F32)
    requires
        below(a, one_units()),
        below(b, one_units()),
        nearly_opposite(a, b, 104 * slack()),
    ensures
        nearly_opposite(on_arc(a), on_arc(b), 314 * slack()),
        below(on_arc(a), quarter().units()),
        below(on_arc(b), quarter().units()),
{
    lemma_one();
    lemma_slack();
    lemma_whole(3);
    lemma_short_quarter();
    let w = one_units();
    let k = slack();
    lemma_threefold(a);
    lemma_threefold(b);
    lemma_nearly_clamped(a * F32::whole(3), b * F32::whole(3), quarter(), 314 * k);
}

/// Three times an angle.
proof fn lemma_threefold(a: F32)
    requires
        below(a, one_units()),
    ensures
        (a * F32::whole(3)).finite(),
        distance((a * F32::whole(3)).units(), 3 * a.units()) <= slack(),
{
    lemma_one();
    lemma_slack();
    lemma_whole(3);
    let w = one_units();
    let k = slack();
    let u = a.units();
    assert(-(4 * w * w) < u * (3 * w) < 4 * w * w) by (nonlinear_arith)
        requires -w <= u <= w, w > 0;
    lemma_mul_error(a, F32::whole(3));
    let p = (a * F32::whole(3)).units();
    let e = p - 3 * u;
    assert(e * w == p * w - u * (3 * w)) by (nonlinear_arith)
        requires e == p - 3 * u;
    lemma_times_bound(e, k, w);
}

/// Nearly opposite directions that follow nearly opposite angles stay nearly opposite.
proof fn lemma_nearly_followed(a: F32, b: F32, s: F32, t: F32, rate: F32)
    requires
        below(a, quarter().units()),
        below(b, quarter().units()),
        below(s, quarter().units()),
        below(t, quarter().units()),
        nearly_opposite(a, b, 512 * slack()),
        nearly_opposite(s, t, 314 * slack()),
        rate.finite(),
        one_units() <= 16 * rate.units(),
        2 * rate.units() <= one_units(),
    ensures
        nearly_opposite(a.toward(s, rate), b.toward(t, rate), 512 * slack()),
{
    lemma_one();
    lemma_slack();
    lemma_short_quarter();
    let w = one_units();
    let k = slack();
    let c = rate.units();
    lemma_sub_error(s, a);
    lemma_sub_error(t, b);
    let d = s - a;
    let e = t - b;
    let x = d.units() + e.units();
    lemma_nearly_scaled(d, e, rate, 900 * k);
    lemma_scaled_below(d, rate);
    lemma_scaled_below(e, rate);
    let p = (d * rate).units();
    let q = (e * rate).units();
    lemma_add_error(a, d * rate);
    lemma_add_error(b, e * rate);
    let f = a.units() + b.units();
    let g = s.units() + t.units();
    let o = x - (g - f);
    let r = a.toward(s, rate).units() + b.toward(t, rate).units();
    let h = r - f - (p + q);
    assert(distance(o, 0) <= 2 * k && distance(h, 0) <= 2 * k);
    assert(r * w == f * w + (p + q) * w + h * w) by (nonlinear_arith)
        requires h == r - f - (p + q);
    assert(x * c == g * c - f * c + o * c) by (nonlinear_arith)
        requires o == x - (g - f);
    assert(f * w - f * c == f * (w - c)) by (nonlinear_arith);
    lemma_product_bound(f, w - c, 512 * k, w - c);
    lemma_product_bound(g, c, 314 * k, c);
    lemma_product_bound(o, c, 2 * k, c);
    lemma_product_bound(h, w, 2 * k, w);
    assert((512 * k) * (w - c) == 512 * (k * w) - 512 * (k * c) && (314 * k) * c == 314 * (k * c) && (2 * k) * c == 2
        * (k * c) && (2 * k) * w == 2 * (k * w) && (512 * k) * w == 512 * (k * w)) by (nonlinear_arith);
    assert(k * w <= 16 * (k * c)) by (nonlinear_arith)
        requires w <= 16 * c, k > 0;
    assert(k * w > 0) by (nonlinear_arith)
        requires k > 0, w > 0;
    lemma_times_bound(r, 512 * k, w);
}

/// No more than half of a difference of directions is below two.
proof fn lemma_scaled_below(d: F32, rate: F32)
    requires
        2 * distance(d.units(), 0) < 7 * one_units(),
        d.finite(),
        rate.finite(),
        0 <= 2 * rate.units() <= one_units(),
    ensures
        below(d * rate, 2 * one_units()),
{
    lemma_one();
    lemma_whole(2);
    lemma_neg(F32::whole(2));
    let w = one_units();
    let u = d.units();
    let c = rate.units();
    assert((-(2 * w)) * w <= u * c <= (2 * w) * w) by (nonlinear_arith)
        requires -(7 * w) < 2 * u < 7 * w, 0 <= 2 * c <= w, w > 0;
    lemma_mul_between(d, rate, F32::whole(2).spec_neg(), F32::whole(2));
    lemma_bounded_is_finite_between(d * rate, F32::whole(2).spec_neg(), F32::whole(2));
}

/// A ratio whose logarithm is far from both ends of the format.
pub open spec fn is_ordinary(q: F32) -> bool {
    q.within(F32::quotient(1, 0x1_0000_0000_0000_0000), F32::whole(0x1_0000_0000_0000_0000))
}

/// A complex number with parts that are far from the end of the format.
pub open spec fn is_moderate(c: Complex) -> bool {
    &&& below(c.re, F32::whole(0x1_0000_0000_0000_0000).units())
    &&& below(c.im, F32::whole(0x1_0000_0000_0000_0000).units())
}

impl Functions {
    /// Whether they treat both sides alike, up to rounding: the conjugate of a number has
    /// its absolute value and the opposite angle, unless it is the number itself and lies
    /// to the left of zero; the logarithm of a ratio is opposite to that of the inverse
    /// ratio; angles are as nearly opposite as their tangents.
    pub open spec fn are_even_handed(self) -> bool {
        &&& forall|c: Complex, d: Complex|
            #![trigger (self.norm)(c), (self.norm)(d)]
            is_moderate(c) && d.re == c.re && opposite(c.im, d.im) ==> (self.norm)(d) == (self.norm)(c)
        &&& forall|c: Complex| is_moderate(c) ==> (#[trigger] (self.norm)(c)).finite()
        &&& forall|c: Complex, d: Complex|
            #![trigger (self.arg)(c), (self.arg)(d)]
            is_moderate(c) && d.re == c.re && opposite(c.im, d.im) && (c.im.mag() != 0 || !c.re.negative())
                ==> opposite((self.arg)(c), (self.arg)(d))
        &&& forall|c: Complex| is_moderate(c) ==> (#[trigger] (self.arg)(c)).finite()
        &&& forall|x: F32| F32::nought().lt(x) ==> !(#[trigger] (self.log)(x)).nan()
        &&& forall|x: F32| is_ordinary(x) ==> below(#[trigger] (self.log)(x), 64 * one_units())
        &&& forall|a: F32, b: F32|
            #![trigger a / b, b / a]
            F32::nought().lt(a) && F32::nought().lt(b) && is_ordinary(a / b) && is_ordinary(b / a) ==> nearly_opposite(
                (self.log)(a / b),
                (self.log)(b / a),
                64 * slack(),
            )
        &&& forall|x: F32| below(x, one_units()) ==> below(#[trigger] (self.atan)(x), one_units())
        &&& forall|x: F32, y: F32|
            #![trigger (self.atan)(x), (self.atan)(y)]
            below(x, one_units()) && below(y, one_units()) ==> nearly_opposite(
                (self.atan)(x),
                (self.atan)(y),
                distance(x.units() + y.units(), 0) + 4 * slack(),
            )
    }
}

/// Whether two channels can be compared in a band: their powers are finite and of ordinary
/// ratio, and neither is the inverse of the other.
pub open spec fn are_comparable(l: Seq<Complex>, r: Seq<Complex>, lo: int, hi: int) -> bool {
    let s = sums(l, r, lo, hi);
    &&& (s.left + trillionth()).finite()
    &&& (s.right + trillionth()).finite()
    &&& is_ordinary((s.right + trillionth()) / (s.left + trillionth()))
    &&& is_ordinary((s.left + trillionth()) / (s.right + trillionth()))
    &&& is_moderate(s.cross)
    &&& s.cross.im.mag() != 0 || !s.cross.re.negative()
}

/// Images with the directions mirrored, up to a part in 16384.
pub open spec fn nearly_mirrored(x: ImagingFrame, y: ImagingFrame) -> bool {
    &&& y.energy@ == x.energy@
    &&& y.diffuseness@ == x.diffuseness@
    &&& forall|b: int|
        0 <= b < NUM_BANDS ==> nearly_opposite(#[trigger] x.azimuth@[b], y.azimuth@[b], 512 * slack())
}

/// A power with a trillionth added is positive.
proof fn lemma_power_positive(l: Seq<Complex>, r: Seq<Complex>, lo: int, hi: int)
    requires
        (sums(l, r, lo, hi).left + trillionth()).finite(),
    ensures
        F32::nought().lt(sums(l, r, lo, hi).left + trillionth()),
{
    lemma_one();
    lemma_left_alone(l, r, lo, hi);
    let s = sums(l, l, lo, hi).left;
    let e = trillionth();
    lemma_finite_terms(s, e);
    law_equal_channels_are_in_phase(l, lo, hi);
    lemma_mag_units_order(0, e.mag());
    lemma_plus_zero(e, F32::nought());
    lemma_add_commutes(e, F32::nought());
    lemma_add_order(F32::nought(), e, s, e);
}

/// The power of the left channel does not depend on the right one.
proof fn lemma_left_alone(l: Seq<Complex>, r: Seq<Complex>, lo: int, hi: int)
    ensures
        sums(l, r, lo, hi).left == sums(l, l, lo, hi).left,
    decreases hi - lo,
{
    if hi > lo {
        lemma_left_alone(l, r, lo, hi - 1);
    }
}

/// What exchanging the channels does to a band.
proof fn lemma_exchanged_band(
    f: Functions,
    l: Seq<Complex>,
    r: Seq<Complex>,
    edges: Seq<usize>,
    m: (Measure, Measure),
    b: int,
)
    requires
        f.are_even_handed(),
        are_edges(edges),
        0 <= b < NUM_BANDS,
        are_comparable(l, r, edges[b] as int, band_end(edges, b)),
        measures(m.0, l, r, edges),
        measures(m.1, r, l, edges),
    ensures
        ({
            let x = f.reading(m.0.bands@[b]);
            let y = f.reading(m.1.bands@[b]);
            &&& y.level_log == x.level_log
            &&& !x.level_log.nan()
            &&& coherence(m.1.bands@[b], y) == coherence(m.0.bands@[b], x)
            &&& nearly_opposite(f.angles(m.0, edges)[b], f.angles(m.1, edges)[b], 104 * slack())
            &&& below(f.angles(m.0, edges)[b], one_units())
            &&& below(f.angles(m.1, edges)[b], one_units())
        }),
{
    lemma_one();
    let lo = edges[b] as int;
    let hi = band_end(edges, b);
    let s = sums(l, r, lo, hi);
    let t = sums(r, l, lo, hi);
    law_exchange_conjugates(l, r, lo, hi);
    lemma_opposite_units(t.cross.im, s.cross.im);
    lemma_power_positive(l, r, lo, hi);
    lemma_power_positive(r, l, lo, hi);
    let m0 = m.0.bands@[b];
    let m1 = m.1.bands@[b];
    let x = f.reading(m0);
    let y = f.reading(m1);
    assert((f.norm)(t.cross) == (f.norm)(s.cross));
    assert((f.norm)(s.cross).finite());
    assert(opposite((f.arg)(s.cross), (f.arg)(t.cross)));
    assert((f.arg)(s.cross).finite());
    let c = s.right + trillionth();
    let d = s.left + trillionth();
    assert(nearly_opposite((f.log)(c / d), (f.log)(d / c), 64 * slack()));
    assert(below((f.log)(c / d), 64 * one_units()) && below((f.log)(d / c), 64 * one_units()));
    lemma_joint_peak(l, r, lo, hi);
    lemma_level(joint_peak(l, r, lo, hi));
    lemma_over_span(x.norm, s.left * s.right);
    assert(is_part(coherence(m0, x)));
    lemma_band_freq(edges, b);
    let freq = band_freq(edges, b);
    law_exchange_nearly_turns_tangent(freq, m0, m1, x, y);
    let u = source_tangent(laterality(freq, m0, x));
    let v = source_tangent(laterality(freq, m1, y));
    assert(below((f.atan)(u), one_units()) && below((f.atan)(v), one_units()));
}

/// Exchanging the channels mirrors the image: from frame to frame every direction is
/// opposite to what it was, up to rounding, and energy and diffuseness are the same.
pub proof fn law_exchanged_channels_mirror_the_image(
    f: Functions,
    l: Seq<Complex>,
    r: Seq<Complex>,
    edges: Seq<usize>,
    m: (Measure, Measure),
    last: (ImagingFrame, ImagingFrame),
    next: (ImagingFrame, ImagingFrame),
    gain: F32,
)
    requires
        f.are_even_handed(),
        are_edges(edges),
        forall|b: int| 0 <= b < NUM_BANDS ==> are_comparable(l, r, #[trigger] edges[b] as int, band_end(edges, b)),
        measures(m.0, l, r, edges),
        measures(m.1, r, l, edges),
        f.give(last.0, next.0, m.0, edges, gain),
        f.give(last.1, next.1, m.1, edges, gain),
        gain.finite(),
        last.0.is_image(),
        last.1.is_image(),
        nearly_mirrored(last.0, last.1),
    ensures
        nearly_mirrored(next.0, next.1),
{
    lemma_one();
    assert forall|b: int| 0 <= b < NUM_BANDS implies {
        &&& next.1.energy@[b] == #[trigger] next.0.energy@[b]
        &&& is_part(next.0.energy@[b])
    } by {
        lemma_exchanged_band(f, l, r, edges, m, b);
        let log = f.readings(m.0)[b].level_log;
        assert(is_part(last.0.energy@[b]));
        law_height_is_part(log, gain);
        law_smoothing_stays_between(last.0.energy@[b], height(log, gain));
    }
    assert(next.1.energy@ =~= next.0.energy@);
    assert forall|b: int| 0 <= b < NUM_BANDS implies next.1.diffuseness@[b] == #[trigger] next.0.diffuseness@[b] by {
        lemma_exchanged_band(f, l, r, edges, m, b);
        assert(next.1.energy@[b] == next.0.energy@[b]);
    }
    assert(next.1.diffuseness@ =~= next.0.diffuseness@);
    lemma_quarter();
    assert forall|b: int| 0 <= b < NUM_BANDS implies nearly_opposite(
        #[trigger] next.0.azimuth@[b],
        next.1.azimuth@[b],
        512 * slack(),
    ) by {
        assert(next.1.energy@[b] == next.0.energy@[b]);
        lemma_exchanged_band(f, l, r, edges, m, b);
        let a = f.angles(m.0, edges)[b];
        let c = f.angles(m.1, edges)[b];
        lemma_nearly_on_arc(a, c);
        assert(is_frontal(last.0.azimuth@[b]) && is_frontal(last.1.azimuth@[b]));
        lemma_bounded_is_finite_between(last.0.azimuth@[b], quarter().spec_neg(), quarter());
        lemma_bounded_is_finite_between(last.1.azimuth@[b], quarter().spec_neg(), quarter());
        assert(nearly_opposite(last.0.azimuth@[b], last.1.azimuth@[b], 512 * slack()));
        let rate = follow_rate(next.0.energy@[b]);
        lemma_follow_rate(next.0.energy@[b]);
        lemma_least_rate(next.0.energy@[b]);
        lemma_nearly_followed(last.0.azimuth@[b], last.1.azimuth@[b], on_arc(a), on_arc(c), rate);
    }
}

} // verus!
