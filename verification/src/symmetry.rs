//! What equal channels and exchanged channels do to the stereo image.

use crate::bands::NUM_BANDS;
use crate::dsp::{height, is_part, lemma_part_is_finite, level, peak, smooth, Complex};
use crate::float::laws::{
    lemma_add_between, lemma_add_order, lemma_add_sign, lemma_binary_fraction, lemma_bounded_is_finite_between,
    lemma_div_between, lemma_div_sign, lemma_double, lemma_fraction, lemma_half, lemma_mul_between,
    lemma_mul_is_number, lemma_neg, lemma_not_zero, lemma_one, lemma_plus_zero, lemma_quotient_between,
    lemma_quotient_number, lemma_same_value, lemma_signed, lemma_sub_between, lemma_sub_sign, lemma_times_zero,
    lemma_whole, lemma_zero_mag, lemma_zero_over, lemma_zero_product, one_units,
};
use crate::float::mirror::{
    lemma_add_commutes, lemma_mul_commutes, lemma_opposite_add, lemma_opposite_clamp, lemma_opposite_div,
    lemma_opposite_mul, lemma_opposite_toward, lemma_opposite_units, lemma_turned, opposite,
};
use crate::float::repr::{lemma_mag_units_order, mag_units, FRAC, INF_MAG};
use crate::float::round::{distance, lemma_nearest_order, lemma_nearest_positive, nearest_mag};
use crate::float::F32;
use crate::stereo::{
    band_measure, coherence, cross, estimable, exchanged, first_bin, follow_rate, follows, is_frontal, is_inverse,
    itd_weight, joint_peak, last_bin, laterality, law_image_stays_image, law_median_plane_is_in_front,
    law_rear_has_no_side, law_rear_stays_part, lemma_follow_rate, lemma_negated_product, lemma_product_of_parts,
    lemma_quarter, lemma_rear_vanishes, level_cue, longest_delay, on_arc, plausibility, plausible, power, power_ratio,
    power_span, quarter, range_sums, readable, rear, source_tangent, speaker_tangent, sums, tau, time_cue, trillionth,
    BandMeasure, ImagingFrame, Measure, Reading, SceneReading,
};
use vstd::arithmetic::power2::lemma2_to64;
use vstd::prelude::*;

verus! {

/// The product of one number with another turned, either way.
proof fn lemma_turned_product(a: F32, b: F32)
    ensures
        a * b.spec_neg() == b * a.spec_neg(),
        opposite(a * b.spec_neg(), b * a),
{
    lemma_turned(a);
    lemma_turned(b);
    lemma_opposite_mul(b.spec_neg(), b, a);
    lemma_mul_commutes(a, b);
    reveal(F32::spec_mul);
    assert(mag_units(a.mag()) * mag_units(b.mag()) == mag_units(b.mag()) * mag_units(a.mag())) by (nonlinear_arith);
}

/// Exchanging the channels conjugates the cross-spectrum of a bin.
proof fn lemma_exchanged_cross(l: Complex, r: Complex)
    ensures
        cross(r, l).re == cross(l, r).re,
        opposite(cross(r, l).im, cross(l, r).im),
{
    lemma_mul_commutes(l.re, r.re);
    lemma_turned_product(l.im, r.im);
    lemma_turned_product(l.re, r.im);
    lemma_turned_product(r.re, l.im);
    let a = l.re * r.im.spec_neg();
    let b = l.im * r.re;
    let c = r.re * l.im.spec_neg();
    let d = r.im * l.re;
    lemma_opposite_units(a, d);
    lemma_opposite_add(c, d, b, a);
    lemma_add_commutes(a, b);
}

/// Exchanging the channels exchanges the powers and conjugates the cross-spectrum.
pub proof fn law_exchange_conjugates(l: Seq<Complex>, r: Seq<Complex>, lo: int, hi: int)
    ensures
        sums(r, l, lo, hi).left == sums(l, r, lo, hi).right,
        sums(r, l, lo, hi).right == sums(l, r, lo, hi).left,
        sums(r, l, lo, hi).cross.re == sums(l, r, lo, hi).cross.re,
        opposite(sums(r, l, lo, hi).cross.im, sums(l, r, lo, hi).cross.im),
        power_span(sums(r, l, lo, hi)) == power_span(sums(l, r, lo, hi)),
        joint_peak(r, l, lo, hi) == joint_peak(l, r, lo, hi),
    decreases hi - lo,
{
    if hi > lo {
        law_exchange_conjugates(l, r, lo, hi - 1);
        lemma_exchanged_cross(l[hi - 1], r[hi - 1]);
        lemma_add_commutes(power(l[hi - 1]), power(r[hi - 1]));
        lemma_opposite_add(
            sums(r, l, lo, hi - 1).cross.im,
            cross(r[hi - 1], l[hi - 1]).im,
            sums(l, r, lo, hi - 1).cross.im,
            cross(l[hi - 1], r[hi - 1]).im,
        );
    }
    lemma_mul_commutes(sums(l, r, lo, hi).left, sums(l, r, lo, hi).right);
}

/// Exchanging the channels keeps what the plausibility of the scene follows from.
pub proof fn law_exchange_keeps_plausibility(l: Seq<Complex>, r: Seq<Complex>, low_norm: F32)
    ensures
        power_span(range_sums(r, l, 200, 1000)) == power_span(range_sums(l, r, 200, 1000)),
        plausible(range_sums(r, l, 200, 1000).cross, power_span(range_sums(r, l, 200, 1000)), low_norm) == plausible(
            range_sums(l, r, 200, 1000).cross,
            power_span(range_sums(l, r, 200, 1000)),
            low_norm,
        ),
{
    law_exchange_conjugates(
        l,
        r,
        first_bin(F32::whole(200)),
        last_bin(F32::whole(1000)) + 1,
    );
    lemma_same_inverse(range_sums(l, r, 200, 1000).cross, range_sums(r, l, 200, 1000).cross);
}

/// A number is the inverse of a positive one exactly where its conjugate is.
proof fn lemma_same_inverse(c: Complex, d: Complex)
    requires
        d.re == c.re,
        opposite(c.im, d.im) || opposite(d.im, c.im),
    ensures
        is_inverse(d) == is_inverse(c),
{
}

/// Readings of the same band with the channels exchanged: the phase and the logarithm
/// of the power ratio have turned their sign.
pub open spec fn mirrored_reading(x: Reading, y: Reading) -> bool {
    &&& y.norm == x.norm
    &&& y.level_log == x.level_log
    &&& opposite(x.phase, y.phase)
    &&& opposite(x.ratio_log, y.ratio_log)
}

/// Images with the directions mirrored.
pub open spec fn mirrored_image(x: ImagingFrame, y: ImagingFrame) -> bool {
    &&& y.energy@ == x.energy@
    &&& y.diffuseness@ == x.diffuseness@
    &&& y.rear == x.rear
    &&& forall|b: int| 0 <= b < NUM_BANDS ==> opposite(#[trigger] x.azimuth@[b], y.azimuth@[b])
}

/// Exchanging the channels turns the time difference.
pub proof fn lemma_exchanged_time(freq: F32, m: BandMeasure, n: BandMeasure, x: Reading, y: Reading)
    requires
        opposite(x.phase, y.phase),
        x.norm == y.norm,
        m.span == n.span,
    ensures
        opposite(time_cue(freq, m, x), time_cue(freq, n, y)),
{
    lemma_one();
    let one = F32::unit();
    let p = x.phase / (tau() * freq);
    let q = y.phase / (tau() * freq);
    lemma_opposite_div(x.phase, y.phase, tau() * freq);
    lemma_opposite_div(p, q, longest_delay());
    lemma_opposite_clamp(p / longest_delay(), q / longest_delay(), one);
    let a = (p / longest_delay()).clamped(one.spec_neg(), one);
    let b = (q / longest_delay()).clamped(one.spec_neg(), one);
    lemma_opposite_units(a, b);
    lemma_opposite_mul(a.spec_neg(), b.spec_neg(), itd_weight(freq));
    lemma_opposite_mul(
        a.spec_neg() * itd_weight(freq),
        b.spec_neg() * itd_weight(freq),
        coherence(m, x),
    );
}

/// Exchanging the channels turns the position of a band from one side to the other.
pub proof fn law_exchange_turns_position(freq: F32, m: BandMeasure, n: BandMeasure, x: Reading, y: Reading)
    requires
        mirrored_reading(x, y),
        m.span == n.span,
    ensures
        opposite(laterality(freq, m, x), laterality(freq, n, y)),
        opposite(source_tangent(laterality(freq, m, x)), source_tangent(laterality(freq, n, y))),
{
    lemma_one();
    let one = F32::unit();
    lemma_opposite_mul(x.ratio_log, y.ratio_log, F32::whole(10));
    lemma_opposite_div(F32::whole(10) * x.ratio_log, F32::whole(10) * y.ratio_log, F32::whole(18));
    lemma_opposite_clamp(
        F32::whole(10) * x.ratio_log / F32::whole(18),
        F32::whole(10) * y.ratio_log / F32::whole(18),
        one,
    );
    lemma_exchanged_time(freq, m, n, x, y);
    lemma_opposite_add(time_cue(freq, m, x), level_cue(x), time_cue(freq, n, y), level_cue(y));
    lemma_opposite_clamp(
        time_cue(freq, m, x) + level_cue(x),
        time_cue(freq, n, y) + level_cue(y),
        one,
    );
    lemma_opposite_mul(laterality(freq, m, x), laterality(freq, n, y), speaker_tangent());
}

/// Exchanging the channels mirrors the image: every direction turns to the other side,
/// and energy, diffuseness and the estimate of the rear stay.
pub proof fn law_exchange_mirrors_image(
    last: (ImagingFrame, ImagingFrame),
    next: (ImagingFrame, ImagingFrame),
    m: (Measure, Measure),
    scene: SceneReading,
    readings: (Seq<Reading>, Seq<Reading>),
    angles: (Seq<F32>, Seq<F32>),
    gain: F32,
)
    requires
        mirrored_image(last.0, last.1),
        m.0.low_span == m.1.low_span,
        m.0.low_cross.re == m.1.low_cross.re,
        opposite(m.0.low_cross.im, m.1.low_cross.im),
        estimable(scene, m.0.low_span),
        forall|b: int| 0 <= b < NUM_BANDS ==> #[trigger] m.0.bands@[b].span == m.1.bands@[b].span,
        forall|b: int|
            0 <= b < NUM_BANDS ==> mirrored_reading(#[trigger] readings.0[b], readings.1[b]),
        forall|b: int| 0 <= b < NUM_BANDS ==> opposite(#[trigger] angles.0[b], angles.1[b]),
        follows(last.0, next.0, m.0, scene, readings.0, angles.0, gain),
        follows(last.1, next.1, m.1, exchanged(scene), readings.1, angles.1, gain),
    ensures
        mirrored_image(next.0, next.1),
{
    lemma_one();
    law_rear_has_no_side(scene, m.0.low_cross, m.0.low_span);
    lemma_same_inverse(m.0.low_cross, m.1.low_cross);
    assert forall|b: int| 0 <= b < NUM_BANDS implies next.1.energy@[b] == #[trigger] next.0.energy@[b] by {
        assert(mirrored_reading(readings.0[b], readings.1[b]));
    }
    assert(next.1.energy@ =~= next.0.energy@);
    assert forall|b: int| 0 <= b < NUM_BANDS implies next.1.diffuseness@[b] == #[trigger] next.0.diffuseness@[b] by {
        assert(mirrored_reading(readings.0[b], readings.1[b]));
        assert(m.0.bands@[b].span == m.1.bands@[b].span);
    }
    assert(next.1.diffuseness@ =~= next.0.diffuseness@);
    lemma_quarter();
    assert forall|b: int| 0 <= b < NUM_BANDS implies opposite(#[trigger] next.0.azimuth@[b], next.1.azimuth@[b]) by {
        assert(opposite(last.0.azimuth@[b], last.1.azimuth@[b]));
        assert(opposite(angles.0[b], angles.1[b]));
        lemma_opposite_mul(angles.0[b], angles.1[b], F32::whole(3));
        lemma_opposite_clamp(angles.0[b] * F32::whole(3), angles.1[b] * F32::whole(3), quarter());
        lemma_opposite_toward(
            last.0.azimuth@[b],
            last.1.azimuth@[b],
            on_arc(angles.0[b]),
            on_arc(angles.1[b]),
            follow_rate(next.0.energy@[b]),
        );
    }
}

/// The terms of a finite sum are finite.
pub proof fn lemma_finite_terms(a: F32, b: F32)
    requires
        (a + b).finite(),
    ensures
        a.finite(),
        b.finite(),
{
    reveal(F32::spec_add);
}

/// Positive numbers of the same value are the same.
proof fn lemma_same_number(a: F32, b: F32)
    requires
        !a.nan(),
        !b.nan(),
        a.units() == b.units(),
        a.units() > 0,
    ensures
        a == b,
{
    lemma_mag_units_order(a.mag(), b.mag());
    lemma_mag_units_order(b.mag(), a.mag());
    lemma_mag_units_order(0, a.mag());
    lemma_mag_units_order(0, b.mag());
}

/// Opposite numbers cancel.
proof fn lemma_cancel(a: F32, b: F32)
    requires
        a.finite(),
        opposite(a, b),
    ensures
        (a + b).finite(),
        (a + b).units() == 0,
{
    lemma_one();
    lemma_opposite_units(a, b);
    lemma_add_between(a, b, F32::nought(), F32::nought());
    lemma_same_value(a + b, F32::nought());
}

/// A finite square is not negative.
proof fn lemma_square(a: F32)
    requires
        (a * a).finite(),
    ensures
        !(a * a).negative(),
        a.finite(),
{
    reveal(F32::spec_mul);
    lemma_one();
    lemma_mag_units_order(0, a.mag());
    let m = mag_units(a.mag()) * mag_units(a.mag());
    assert(m >= 0) by (nonlinear_arith)
        requires m == mag_units(a.mag()) * mag_units(a.mag());
    lemma_nearest_positive(m, one_units());
    lemma_signed(false, nearest_mag(m, one_units()));
    lemma_signed(false, INF_MAG as int);
}

/// Where the squares of two numbers are finite, so is their product.
proof fn lemma_product_is_finite(a: F32, b: F32)
    requires
        (a * a).finite(),
        (b * b).finite(),
    ensures
        (a * b).finite(),
{
    lemma_one();
    lemma_square(a);
    lemma_square(b);
    lemma_mag_units_order(0, a.mag());
    lemma_mag_units_order(0, b.mag());
    let x = mag_units(a.mag());
    let y = mag_units(b.mag());
    let w = one_units();
    assert(x * x >= 0 && y * y >= 0 && x * y >= 0) by (nonlinear_arith)
        requires x >= 0, y >= 0;
    lemma_nearest_positive(x * x, w);
    lemma_nearest_positive(y * y, w);
    lemma_nearest_positive(x * y, w);
    if x <= y {
        assert((x * y) * w <= (y * y) * w) by (nonlinear_arith)
            requires 0 <= x <= y, w > 0;
        lemma_nearest_order(x * y, w, y * y, w);
    } else {
        assert((x * y) * w <= (x * x) * w) by (nonlinear_arith)
            requires 0 <= y <= x, w > 0;
        lemma_nearest_order(x * y, w, x * x, w);
    }
    reveal(F32::spec_mul);
    lemma_signed(false, nearest_mag(x * x, w));
    lemma_signed(false, nearest_mag(y * y, w));
    lemma_signed(a.negative() != b.negative(), nearest_mag(x * y, w));
}

/// The cross-spectrum of a bin with itself is its power.
proof fn lemma_own_cross(c: Complex)
    requires
        power(c).finite(),
    ensures
        cross(c, c).re == power(c),
        cross(c, c).im.finite(),
        cross(c, c).im.units() == 0,
        !power(c).negative(),
{
    lemma_finite_terms(c.re * c.re, c.im * c.im);
    lemma_square(c.re);
    lemma_square(c.im);
    lemma_negated_product(c.im, c.im);
    lemma_turned(c.im * c.im);
    lemma_product_is_finite(c.re, c.im);
    lemma_negated_product(c.re, c.im);
    lemma_turned(c.re * c.im);
    lemma_mul_commutes(c.re, c.im);
    lemma_cancel(c.re * c.im.spec_neg(), c.im * c.re);
    lemma_one();
    lemma_mag_units_order(0, (c.re * c.re).mag());
    lemma_mag_units_order(0, (c.im * c.im).mag());
    reveal(F32::spec_add);
    let n = (c.re * c.re).units() + (c.im * c.im).units();
    lemma_nearest_positive(n, 1);
    lemma_signed(false, nearest_mag(n, 1));
    lemma_signed(false, 0);
}

/// A bin with its phase inverted.
pub open spec fn inverted(c: Complex) -> Complex {
    Complex { re: c.re.spec_neg(), im: c.im.spec_neg() }
}

/// Sums of numbers that are not positive are not positive.
proof fn lemma_not_positive_sum(a: F32, b: F32)
    requires
        a.le(F32::nought()),
        b.le(F32::nought()),
    ensures
        (a + b).le(F32::nought()),
{
    lemma_one();
    reveal(F32::spec_add);
    lemma_mag_units_order(0, a.mag());
    lemma_mag_units_order(0, b.mag());
    lemma_mag_units_order(0, INF_MAG as int);
    let n = a.units() + b.units();
    lemma_nearest_positive(distance(n, 0), 1);
    lemma_signed(true, nearest_mag(distance(n, 0), 1));
    lemma_signed(a.negative() && b.negative(), 0);
}

/// The square of a number is not negative, and with the sign turned not positive.
proof fn lemma_turned_square(a: F32)
    requires
        a.finite(),
    ensures
        (a * a.spec_neg()).le(F32::nought()),
        (a * a).spec_neg().le(F32::nought()),
{
    lemma_one();
    reveal(F32::spec_mul);
    lemma_turned(a);
    lemma_mag_units_order(0, a.mag());
    let m = mag_units(a.mag()) * mag_units(a.mag());
    assert(m >= 0) by (nonlinear_arith)
        requires m == mag_units(a.mag()) * mag_units(a.mag());
    lemma_nearest_positive(m, one_units());
    lemma_signed(true, nearest_mag(m, one_units()));
    lemma_signed(false, nearest_mag(m, one_units()));
    lemma_neg(a * a);
    lemma_mag_units_order(0, nearest_mag(m, one_units()));
}

/// The cross-spectrum of a bin with its inverse is a number that is not positive.
proof fn lemma_inverse_cross(c: Complex)
    requires
        power(c).finite(),
    ensures
        cross(c, inverted(c)).re.le(F32::nought()),
        cross(c, inverted(c)).im.finite(),
        cross(c, inverted(c)).im.units() == 0,
{
    lemma_finite_terms(c.re * c.re, c.im * c.im);
    lemma_square(c.re);
    lemma_square(c.im);
    lemma_turned(c.im);
    lemma_turned(c.re);
    lemma_turned_square(c.re);
    lemma_turned_square(c.im);
    lemma_not_positive_sum(c.re * c.re.spec_neg(), (c.im * c.im).spec_neg());
    lemma_product_is_finite(c.re, c.im);
    lemma_product_is_finite(c.im, c.re);
    lemma_negated_product(c.im, c.re);
    lemma_turned(c.im * c.re);
    lemma_mul_commutes(c.re, c.im);
    lemma_cancel(c.re * c.im, c.im * c.re.spec_neg());
}

/// Where one side is inverted, the cross-spectrum is a number that is not positive.
proof fn lemma_inverse_sums(l: Seq<Complex>, r: Seq<Complex>, lo: int, hi: int)
    requires
        forall|k: int| lo <= k < hi ==> #[trigger] r[k] == inverted(l[k]),
        sums(l, r, lo, hi).left.finite(),
    ensures
        sums(l, r, lo, hi).cross.re.le(F32::nought()),
        sums(l, r, lo, hi).cross.im.finite(),
        sums(l, r, lo, hi).cross.im.units() == 0,
    decreases hi - lo,
{
    lemma_one();
    if hi > lo {
        let s = sums(l, r, lo, hi - 1);
        let c = l[hi - 1];
        assert(r[hi - 1] == inverted(c));
        lemma_finite_terms(s.left, power(c));
        lemma_inverse_sums(l, r, lo, hi - 1);
        lemma_inverse_cross(c);
        lemma_not_positive_sum(s.cross.re, cross(c, r[hi - 1]).re);
        lemma_plus_zero(s.cross.im, cross(c, r[hi - 1]).im);
    }
}

/// A widener that inverts the phase of one side makes the low frequencies implausible,
/// and the scene is taken to be in front.
pub proof fn law_inverted_scene_is_in_front(l: Seq<Complex>, r: Seq<Complex>, low_norm: F32, s: SceneReading)
    requires
        forall|k: int|
            first_bin(F32::whole(200)) <= k <= last_bin(F32::whole(1000)) ==> #[trigger] r[k] == inverted(l[k]),
        range_sums(l, r, 200, 1000).left.finite(),
    ensures
        plausible(range_sums(l, r, 200, 1000).cross, power_span(range_sums(l, r, 200, 1000)), low_norm)
            == F32::nought(),
        estimable(s, power_span(range_sums(l, r, 200, 1000))) ==> rear(
            s,
            range_sums(l, r, 200, 1000).cross,
            power_span(range_sums(l, r, 200, 1000)),
        ).units() == 0,
{
    lemma_one();
    let c = range_sums(l, r, 200, 1000).cross;
    let span = power_span(range_sums(l, r, 200, 1000));
    lemma_inverse_sums(l, r, first_bin(F32::whole(200)), last_bin(F32::whole(1000)) + 1);
    lemma_quotient_number(1, 1024);
    let q = F32::quotient(1, 1024);
    lemma_not_zero(q);
    let x = c.re.unsigned();
    lemma_signed(false, c.re.mag());
    lemma_mul_is_number(x, q);
    assert((x * q).units() >= 0) by {
        reveal(F32::spec_mul);
        lemma_mag_units_order(0, x.mag());
        lemma_mag_units_order(0, q.mag());
        let n = mag_units(x.mag()) * mag_units(q.mag());
        assert(n >= 0) by (nonlinear_arith)
            requires n == mag_units(x.mag()) * mag_units(q.mag()), mag_units(x.mag()) >= 0, mag_units(q.mag()) >= 0;
        lemma_nearest_positive(n, one_units());
        lemma_signed(false, nearest_mag(n, one_units()));
        lemma_signed(false, INF_MAG as int);
        lemma_mag_units_order(0, (x * q).mag());
    }
    lemma_zero_mag(c.im);
    lemma_signed(false, 0);
    assert(is_inverse(c));
    if estimable(s, span) {
        lemma_rear_vanishes(s, c, span);
    }
}

/// With equal channels the cross-spectrum is the power of either: it has no phase.
pub proof fn law_equal_channels_are_in_phase(l: Seq<Complex>, lo: int, hi: int)
    requires
        sums(l, l, lo, hi).left.finite(),
    ensures
        sums(l, l, lo, hi).right == sums(l, l, lo, hi).left,
        sums(l, l, lo, hi).cross.re == sums(l, l, lo, hi).left,
        sums(l, l, lo, hi).cross.im.finite(),
        sums(l, l, lo, hi).cross.im.units() == 0,
        sums(l, l, lo, hi).left.units() >= 0,
        !sums(l, l, lo, hi).left.negative(),
    decreases hi - lo,
{
    lemma_one();
    if hi > lo {
        let s = sums(l, l, lo, hi - 1);
        let c = l[hi - 1];
        lemma_finite_terms(s.left, power(c));
        law_equal_channels_are_in_phase(l, lo, hi - 1);
        lemma_own_cross(c);
        lemma_plus_zero(s.cross.im, cross(c, c).im);
        lemma_mag_units_order(0, power(c).mag());
        lemma_add_sign(s.left, power(c));
        assert(!(s.left + power(c)).negative()) by {
            reveal(F32::spec_add);
            let n = s.left.units() + power(c).units();
            lemma_nearest_positive(n, 1);
            lemma_signed(false, nearest_mag(n, 1));
            lemma_signed(false, 0);
        }
    }
}

/// With equal channels the power ratio is one.
pub proof fn law_equal_channels_are_level(l: Seq<Complex>, lo: int, hi: int)
    requires
        (sums(l, l, lo, hi).left + trillionth()).finite(),
    ensures
        power_ratio(sums(l, l, lo, hi)) == F32::unit(),
{
    lemma_one();
    let s = sums(l, l, lo, hi).left;
    let e = trillionth();
    lemma_finite_terms(s, e);
    law_equal_channels_are_in_phase(l, lo, hi);
    lemma_mag_units_order(0, e.mag());
    lemma_plus_zero(e, F32::nought());
    lemma_add_commutes(e, F32::nought());
    lemma_add_order(F32::nought(), e, s, e);
    let x = s + e;
    let w = one_units();
    assert(w * x.units() == x.units() * w) by (nonlinear_arith);
    lemma_div_between(x, x, F32::unit(), F32::unit());
    lemma_same_number(x / x, F32::unit());
}

/// Half of twice a number is the number.
proof fn lemma_half_of_twice(p: F32)
    requires
        !p.negative(),
        p.mag() + FRAC < INF_MAG,
    ensures
        (p + p) * F32::half_unit() == p,
{
    lemma_one();
    lemma_half();
    lemma_mag_units_order(0, p.mag());
    if p.mag() == 0 {
        reveal(F32::spec_add);
        reveal(F32::spec_mul);
        lemma_signed(false, 0);
        assert(p + p == F32::nought());
        assert(0 * mag_units(F32::half_unit().mag()) == 0);
        lemma_nearest_positive(0, one_units());
    } else {
        let d = lemma_double(p);
        lemma_add_between(p, p, d, d);
        lemma_same_value(p + p, d);
        let w = one_units();
        let u = p.units();
        let h = F32::half_unit().units();
        assert((2 * u) * h == u * w) by (nonlinear_arith)
            requires 2 * h == w;
        lemma_mul_between(p + p, F32::half_unit(), p, p);
        lemma_same_number((p + p) * F32::half_unit(), p);
    }
}

/// With equal channels a band of the image is as loud as the same band of the
/// spectrum, if the absolute value of a bin is the root of its power.
pub proof fn law_equal_channels_have_the_level_of_the_spectrum(l: Seq<Complex>, norms: Seq<F32>, lo: int, hi: int)
    requires
        forall|k: int| lo <= k < hi ==> #[trigger] norms[k] == power(l[k]).root(),
        forall|k: int| lo <= k < hi ==> power(#[trigger] l[k]).mag() + FRAC < INF_MAG,
    ensures
        joint_peak(l, l, lo, hi) == peak(norms, lo, hi),
        !peak(norms, lo, hi).nan(),
        band_measure(l, l, lo, hi).level == level(peak(norms, lo, hi)),
    decreases hi - lo,
{
    if hi > lo {
        law_equal_channels_have_the_level_of_the_spectrum(l, norms, lo, hi - 1);
        assert(power(l[hi - 1]).mag() + FRAC < INF_MAG);
        lemma_own_cross(l[hi - 1]);
        lemma_half_of_twice(power(l[hi - 1]));
        assert(norms[hi - 1] == power(l[hi - 1]).root());
    }
}

/// Without a phase there is no time difference.
proof fn lemma_no_delay(freq: F32, m: BandMeasure, x: Reading)
    requires
        freq.within(F32::unit(), F32::whole(48000)),
        x.phase.finite(),
        x.phase.units() == 0,
        is_part(coherence(m, x)),
    ensures
        time_cue(freq, m, x).finite(),
        time_cue(freq, m, x).units() == 0,
{
    lemma_one();
    let w = one_units();
    lemma_whole(48000);
    lemma_whole(6);
    lemma_whole(7);
    lemma_whole(336000);
    lemma_bounded_is_finite_between(freq, F32::unit(), F32::whole(48000));
    lemma_quotient_between(13176795, 2097152, F32::whole(6), F32::whole(7));
    lemma_bounded_is_finite_between(tau(), F32::whole(6), F32::whole(7));
    let t = tau().units();
    let f = freq.units();
    assert(w * w <= t * f <= (336000 * w) * w) by (nonlinear_arith)
        requires 6 * w <= t <= 7 * w, w <= f <= 48000 * w, w > 0;
    lemma_mul_between(tau(), freq, F32::unit(), F32::whole(336000));
    lemma_bounded_is_finite_between(tau() * freq, F32::unit(), F32::whole(336000));
    lemma_zero_over(x.phase, tau() * freq);
    lemma_quotient_number(66, 100_000);
    let p = x.phase / (tau() * freq);
    lemma_zero_over(p, longest_delay());
    let q = p / longest_delay();
    lemma_neg(F32::unit());
    lemma_neg(q);
    lemma_zero_mag(q.spec_neg());
    lemma_whole(1600);
    lemma_whole(700);
    lemma_whole(900);
    lemma_sub_between(F32::whole(1600), F32::whole(700), F32::whole(900), F32::whole(900));
    lemma_same_value(F32::whole(1600) - F32::whole(700), F32::whole(900));
    lemma_sub_sign(F32::whole(1600), freq);
    lemma_div_sign(F32::whole(1600) - freq, F32::whole(1600) - F32::whole(700));
    lemma_part_is_finite(itd_weight(freq));
    lemma_part_is_finite(coherence(m, x));
    lemma_zero_product(q.spec_neg(), itd_weight(freq));
    lemma_zero_product(q.spec_neg() * itd_weight(freq), coherence(m, x));
}

/// Equal channels are in front: no phase and no level difference give no position to
/// either side.
pub proof fn law_equal_channels_are_in_the_middle(freq: F32, m: BandMeasure, x: Reading)
    requires
        freq.within(F32::unit(), F32::whole(48000)),
        x.phase.finite(),
        x.phase.units() == 0,
        x.ratio_log.finite(),
        x.ratio_log.units() == 0,
        is_part(coherence(m, x)),
    ensures
        laterality(freq, m, x).finite(),
        laterality(freq, m, x).units() == 0,
        source_tangent(laterality(freq, m, x)).finite(),
        source_tangent(laterality(freq, m, x)).units() == 0,
{
    lemma_one();
    lemma_no_delay(freq, m, x);
    lemma_whole(10);
    lemma_whole(18);
    lemma_zero_mag(x.ratio_log);
    lemma_times_zero(F32::whole(10), x.ratio_log);
    lemma_zero_over(F32::whole(10) * x.ratio_log, F32::whole(18));
    lemma_neg(F32::unit());
    lemma_plus_zero(time_cue(freq, m, x), level_cue(x));
    let lat = laterality(freq, m, x);
    lemma_zero_mag(lat);
    lemma_speaker_tangent();
    lemma_zero_product(lat, speaker_tangent());
}

/// The tangent of the speakers' angle lies from a half to one.
pub proof fn lemma_speaker_tangent()
    ensures
        speaker_tangent().finite(),
        speaker_tangent().within(F32::half_unit(), F32::unit()),
{
    lemma_one();
    lemma_half();
    lemma_quotient_between(9686330, 16777216, F32::half_unit(), F32::unit());
    lemma_bounded_is_finite_between(speaker_tangent(), F32::half_unit(), F32::unit());
}

/// Equal channels stay in front: an image without a side, and a frame without one, give
/// an image without one, and nothing is behind. The energies are those that the
/// spectrum would have.
pub proof fn law_equal_channels_stay_in_front(
    last: ImagingFrame,
    next: ImagingFrame,
    m: Measure,
    scene: SceneReading,
    readings: Seq<Reading>,
    angles: Seq<F32>,
    gain: F32,
)
    requires
        last.is_image(),
        readable(m, scene, readings, angles),
        gain.finite(),
        follows(last, next, m, scene, readings, angles, gain),
        last.rear.units() == 0,
        scene.wide_log.units() == 0,
        forall|b: int| 0 <= b < NUM_BANDS ==> (#[trigger] last.azimuth@[b]).units() == 0,
        forall|b: int| 0 <= b < NUM_BANDS ==> (#[trigger] angles[b]).finite() && angles[b].units() == 0,
    ensures
        next.rear.units() == 0,
        forall|b: int| 0 <= b < NUM_BANDS ==> (#[trigger] next.azimuth@[b]).units() == 0,
        forall|b: int|
            0 <= b < NUM_BANDS ==> #[trigger] next.energy@[b] == smooth(
                last.energy@[b],
                height(readings[b].level_log, gain),
            ),
{
    lemma_one();
    law_image_stays_image(last, next, m, scene, readings, angles, gain);
    law_median_plane_is_in_front(scene, m.low_cross, m.low_span);
    law_rear_stays_part(scene, m.low_cross, m.low_span, last.rear);
    lemma_part_is_finite(last.rear);
    lemma_part_is_finite(rear(scene, m.low_cross, m.low_span));
    lemma_fraction(12, 100);
    lemma_stays_at_zero(last.rear, rear(scene, m.low_cross, m.low_span), F32::quotient(12, 100));
    lemma_quarter();
    lemma_whole(3);
    assert forall|b: int| 0 <= b < NUM_BANDS implies (#[trigger] next.azimuth@[b]).units() == 0 by {
        assert(last.azimuth@[b].units() == 0);
        assert(is_frontal(last.azimuth@[b]));
        lemma_bounded_is_finite_between(last.azimuth@[b], quarter().spec_neg(), quarter());
        assert(angles[b].units() == 0);
        lemma_zero_mag(angles[b]);
        lemma_zero_product(angles[b], F32::whole(3));
        assert(is_part(next.energy@[b]));
        lemma_follow_rate(next.energy@[b]);
        lemma_stays_at_zero(last.azimuth@[b], on_arc(angles[b]), follow_rate(next.energy@[b]));
    }
}

/// A step from zero to zero stays there.
proof fn lemma_stays_at_zero(a: F32, t: F32, rate: F32)
    requires
        a.finite(),
        t.finite(),
        a.units() == 0,
        t.units() == 0,
        rate.finite(),
    ensures
        a.toward(t, rate).units() == 0,
{
    lemma_one();
    lemma_sub_between(t, a, F32::nought(), F32::nought());
    lemma_same_value(t - a, F32::nought());
    lemma_zero_mag(t - a);
    lemma_zero_product(t - a, rate);
    lemma_plus_zero(a, (t - a) * rate);
}

/// What is louder on the right, without a time difference, stands on the right: ten
/// times the power puts it at least a quarter of the way out.
pub proof fn law_louder_right_is_right(freq: F32, m: BandMeasure, x: Reading)
    requires
        freq.within(F32::unit(), F32::whole(48000)),
        x.phase.finite(),
        x.phase.units() == 0,
        x.ratio_log.within(F32::unit(), F32::whole(100)),
        is_part(coherence(m, x)),
    ensures
        laterality(freq, m, x).within(F32::half_unit(), F32::unit()),
        source_tangent(laterality(freq, m, x)).within(F32::quotient(1, 4), F32::unit()),
{
    lemma_one();
    lemma_half();
    let w = one_units();
    lemma_no_delay(freq, m, x);
    lemma_whole(10);
    lemma_whole(18);
    lemma_whole(100);
    lemma_whole(1000);
    lemma_bounded_is_finite_between(x.ratio_log, F32::unit(), F32::whole(100));
    let u = x.ratio_log.units();
    assert((10 * w) * w <= (10 * w) * u <= (1000 * w) * w) by (nonlinear_arith)
        requires w <= u <= 100 * w;
    lemma_mul_between(F32::whole(10), x.ratio_log, F32::whole(10), F32::whole(1000));
    let d = F32::whole(10) * x.ratio_log;
    lemma_bounded_is_finite_between(d, F32::whole(10), F32::whole(1000));
    let h = F32::half_unit().units();
    let du = d.units();
    assert(h * (18 * w) <= du * w <= (1000 * w) * (18 * w)) by (nonlinear_arith)
        requires 2 * h == w, 10 * w <= du <= 1000 * w, w > 0;
    lemma_div_between(d, F32::whole(18), F32::half_unit(), F32::whole(1000));
    lemma_neg(F32::unit());
    let c = level_cue(x);
    lemma_bounded_is_finite_between(c, F32::half_unit(), F32::unit());
    lemma_add_between(time_cue(freq, m, x), c, F32::half_unit(), F32::unit());
    let lat = laterality(freq, m, x);
    lemma_bounded_is_finite_between(lat, F32::half_unit(), F32::unit());
    lemma_speaker_tangent();
    lemma2_to64();
    lemma_binary_fraction(1, 2);
    let q = F32::quotient(1, 4).units();
    let a = lat.units();
    let b = speaker_tangent().units();
    assert(q * w <= a * b <= w * w) by (nonlinear_arith)
        requires 4 * q == 1 * w, 2 * a >= w, 2 * b >= w, a <= w, b <= w, w > 0;
    lemma_mul_between(lat, speaker_tangent(), F32::quotient(1, 4), F32::unit());
}

/// Directions are followed by no less than a sixteenth of the way per frame.
pub proof fn lemma_least_rate(energy: F32)
    requires
        is_part(energy),
    ensures
        16 * follow_rate(energy).units() >= one_units(),
{
    lemma_one();
    lemma2_to64();
    lemma_whole(2);
    let w = one_units();
    lemma_binary_fraction(1, 4);
    let s = F32::quotient(1, 16);
    lemma_part_is_finite(energy);
    lemma_fraction(10, 100);
    lemma_fraction(30, 100);
    lemma_product_of_parts(F32::quotient(30, 100), energy);
    lemma_part_is_finite(F32::quotient(30, 100) * energy);
    assert(s.units() * 100 <= 10 * w) by (nonlinear_arith)
        requires 16 * s.units() == 1 * w, w > 0;
    lemma_quotient_between(10, 100, s, F32::unit());
    lemma_add_between(F32::quotient(10, 100), F32::quotient(30, 100) * energy, s, F32::whole(2));
}

/// A band that stands on the right is shown on the right: its direction, followed from
/// the middle, is positive.
pub proof fn law_right_is_positive(from: F32, angle: F32, energy: F32)
    requires
        from.finite(),
        from.units() == 0,
        angle.within(F32::quotient(1, 8), F32::unit()),
        is_part(energy),
    ensures
        F32::nought().lt(from.toward(on_arc(angle), follow_rate(energy))),
{
    lemma_one();
    lemma2_to64();
    lemma_half();
    lemma_quarter();
    lemma_whole(2);
    lemma_whole(3);
    let w = one_units();
    lemma_binary_fraction(1, 3);
    lemma_binary_fraction(1, 7);
    let e = F32::quotient(1, 8);
    lemma_bounded_is_finite_between(angle, e, F32::unit());
    let a = angle.units();
    let eu = e.units();
    assert(eu * w <= a * (3 * w) <= (3 * w) * w) by (nonlinear_arith)
        requires 8 * eu == 1 * w, 8 * a >= w, a <= w, w > 0;
    lemma_mul_between(angle, F32::whole(3), e, F32::whole(3));
    lemma_quotient_between(13176795, 8388608, F32::unit(), F32::whole(2));
    let t = on_arc(angle);
    lemma_bounded_is_finite_between(t, e, F32::whole(2));
    lemma_sub_between(t, from, e, F32::whole(2));
    let d = t - from;
    lemma_bounded_is_finite_between(d, e, F32::whole(2));
    lemma_follow_rate(energy);
    lemma_least_rate(energy);
    let rate = follow_rate(energy);
    let v = F32::quotient(1, 128);
    let du = d.units();
    let ru = rate.units();
    let vu = v.units();
    assert(vu * w <= du * ru <= (2 * w) * w) by (nonlinear_arith)
        requires 128 * vu == 1 * w, 8 * du >= w, du <= 2 * w, 16 * ru >= w, 2 * ru <= w, w > 0;
    lemma_mul_between(d, rate, v, F32::whole(2));
    lemma_bounded_is_finite_between(d * rate, v, F32::whole(2));
    lemma_add_between(from, d * rate, v, F32::whole(2));
}

} // verus!
