//! What the stereo image is measured from: powers, cross-spectra and ranges of bins.

use crate::bands::{FFT_SIZE, LAST_BIN, SAMPLE_RATE};
use crate::dsp::{band_end, Complex};
use crate::float::laws::{lemma_one, one_units};
use crate::float::value::{
    apart, close, dust, lemma_close_div, lemma_close_mul, lemma_constants, lemma_relative_div, lemma_size_mul,
    lemma_value_add, lemma_value_div, lemma_value_index, lemma_value_le, lemma_value_mul, lemma_value_neg,
    lemma_value_root, lemma_value_sub, lemma_value_whole, size,
};
use crate::float::F32;
use crate::stereo::{
    band_center, bin_hz, bin_of, cross, first_bin, half_bin_hz, joint_peak, last_bin, measures, power, power_ratio,
    power_span, sums, trillionth, CrossSums, Measure,
};
use vstd::arithmetic::power2::{lemma2_to64_rest, lemma_pow2_adds, lemma_pow2_pos, pow2};
use vstd::prelude::*;

verus! {

/// The power of a number, in reals.
pub open spec fn power_at(c: Complex) -> real {
    c.re.value() * c.re.value() + c.im.value() * c.im.value()
}

/// The power of the bins from `lo` up to `hi`, in reals.
pub open spec fn power_over(s: Seq<Complex>, lo: int, hi: int) -> real
    decreases hi - lo,
{
    if hi <= lo {
        0real
    } else {
        power_over(s, lo, hi - 1) + power_at(s[hi - 1])
    }
}

/// How much the bins from `lo` up to `hi` are in phase, in reals.
pub open spec fn in_phase_over(l: Seq<Complex>, r: Seq<Complex>, lo: int, hi: int) -> real
    decreases hi - lo,
{
    if hi <= lo {
        0real
    } else {
        in_phase_over(l, r, lo, hi - 1) + in_phase_at(l[hi - 1], r[hi - 1])
    }
}

/// How much two numbers point the same way.
pub open spec fn in_phase_at(l: Complex, r: Complex) -> real {
    l.re.value() * r.re.value() + l.im.value() * r.im.value()
}

/// By how much the left bins from `lo` up to `hi` lead the right ones, in reals.
pub open spec fn lead_over(l: Seq<Complex>, r: Seq<Complex>, lo: int, hi: int) -> real
    decreases hi - lo,
{
    if hi <= lo {
        0real
    } else {
        lead_over(l, r, lo, hi - 1) + lead_at(l[hi - 1], r[hi - 1])
    }
}

/// By how much the first number is turned ahead of the second.
pub open spec fn lead_at(l: Complex, r: Complex) -> real {
    l.im.value() * r.re.value() - l.re.value() * r.im.value()
}

/// The rounding that a sum of `n` terms that weigh `m` together may gather.
pub open spec fn slack(m: real, n: int) -> real {
    m * ((n + 4) as real / 8000000real) + (n as real) * (20real * dust())
}

/// A bin of ordinary size.
pub open spec fn is_bin(c: Complex) -> bool {
    c.re.finite() && c.im.finite() && size(c.re.value()) <= 1000000real && size(c.im.value()) <= 1000000real
}

/// Squares are not negative, and bounded.
proof fn lemma_square(x: real)
    requires
        size(x) <= 1000000real,
    ensures
        0real <= x * x <= 1000000000000real,
        size(x * x) == x * x,
{
    lemma_size_mul(x, x, 1000000real, 1000000real);
    assert(x * x >= 0real) by (nonlinear_arith);
}

/// A product is no larger than the mean of the squares.
proof fn lemma_product(x: real, y: real)
    requires
        size(x) <= 1000000real,
        size(y) <= 1000000real,
    ensures
        2real * size(x * y) <= x * x + y * y,
        size(x * y) <= 1000000000000real,
{
    lemma_size_mul(x, y, 1000000real, 1000000real);
    assert(2real * (x * y) <= x * x + y * y) by (nonlinear_arith);
    assert(-2real * (x * y) <= x * x + y * y) by (nonlinear_arith);
}

/// The power of a bin is the sum of its squares.
pub proof fn law_power_is_a_sum_of_squares(c: Complex)
    requires
        is_bin(c),
    ensures
        power_at(c) >= 0real,
        power_at(c) <= 2000000000000real,
        close(power(c), power_at(c), power_at(c) * 3real / 16777216real + 4real * dust()),
{
    lemma_square(c.re.value());
    lemma_square(c.im.value());
    lemma_value_mul(c.re, c.re);
    lemma_value_mul(c.im, c.im);
    lemma_value_add(c.re * c.re, c.im * c.im);
}

/// The cross-spectrum of two bins is the first times the conjugate of the second: how
/// much they point the same way, and how far the first is ahead.
pub proof fn law_cross_is_in_phase_and_lead(l: Complex, r: Complex)
    requires
        is_bin(l),
        is_bin(r),
    ensures
        ({
            let w = power_at(l) + power_at(r);
            let c = cross(l, r);
            &&& w >= 0real
            &&& size(in_phase_at(l, r)) <= w
            &&& size(lead_at(l, r)) <= w
            &&& close(c.re, in_phase_at(l, r), w * 3real / 16777216real + 4real * dust())
            &&& close(c.im, lead_at(l, r), w * 3real / 16777216real + 4real * dust())
        }),
{
    lemma_value_neg(r.im);
    let n = r.im.spec_neg();
    lemma_squares(l);
    lemma_squares(r);
    lemma_squares(Complex { re: r.re, im: n });
    lemma_weighed(l.re, r.re);
    lemma_weighed(l.im, n);
    lemma_weighed(l.re, n);
    lemma_weighed(l.im, r.re);
    let d = r.im.value();
    let a = l.re.value();
    let b = l.im.value();
    assert((-d) * (-d) == d * d && a * (-d) == -(a * d) && b * (-d) == -(b * d)) by (nonlinear_arith);
    lemma_value_sub(l.re * r.re, l.im * n);
    lemma_value_add(l.re * n, l.im * r.re);
}

/// The squares of a bin.
proof fn lemma_squares(c: Complex)
    requires
        is_bin(c),
    ensures
        0real <= c.re.value() * c.re.value() <= 1000000000000real,
        0real <= c.im.value() * c.im.value() <= 1000000000000real,
{
    lemma_square(c.re.value());
    lemma_square(c.im.value());
}

/// A rounded product, weighed against the squares.
proof fn lemma_weighed(x: F32, y: F32)
    requires
        x.finite(),
        y.finite(),
        size(x.value()) <= 1000000real,
        size(y.value()) <= 1000000real,
    ensures
        ({
            let v = x.value() * y.value();
            let w = (x.value() * x.value() + y.value() * y.value()) / 2real;
            &&& size(v) <= w
            &&& close(x * y, v, w / 16777216real + dust())
        }),
{
    lemma_product(x.value(), y.value());
    lemma_value_mul(x, y);
}

/// One term more.
proof fn lemma_step(s: F32, p: F32, u: real, v: real, m: real, q: real, n: int)
    requires
        0 <= n <= 1024,
        close(s, u, slack(m, n)),
        close(p, v, q * 3real / 16777216real + 4real * dust()),
        size(u) <= m,
        size(v) <= q,
        m + q <= 10000000000000000real,
    ensures
        close(s + p, u + v, slack(m + q, n + 1)),
{
    let k = (n + 4) as real / 8000000real;
    let j = (n + 5) as real / 8000000real;
    assert(j == k + 1real / 8000000real && 5real / 8000000real <= j);
    assert(k <= 1real / 1000real && k >= 0real);
    assert(m * k <= m / 1000real && 0real <= m * k) by (nonlinear_arith)
        requires 0real <= k <= 1real / 1000real, m >= 0real;
    assert((m + q) * j >= m * k + m / 8000000real + q * 5real / 8000000real) by (nonlinear_arith)
        requires j == k + 1real / 8000000real, 5real / 8000000real <= j, m >= 0real, q >= 0real;
    let d = 20real * dust();
    assert(((n + 1) as real) * d == (n as real) * d + d) by (nonlinear_arith)
        requires (n + 1) as real == n as real + 1real;
    assert((n as real) * d <= 1024real * d && 0real <= (n as real) * d) by (nonlinear_arith)
        requires 0real <= n as real <= 1024real, d >= 0real;
    lemma_value_add(s, p);
}

/// The sums over a range of bins are those of its powers and of its cross-spectra.
pub proof fn law_sums_add_the_bins(l: Seq<Complex>, r: Seq<Complex>, lo: int, hi: int)
    requires
        0 <= lo <= hi <= 1024,
        hi <= l.len(),
        hi <= r.len(),
        forall|i: int| lo <= i < hi ==> is_bin(#[trigger] l[i]),
        forall|i: int| lo <= i < hi ==> is_bin(#[trigger] r[i]),
    ensures
        ({
            let s = sums(l, r, lo, hi);
            let pl = power_over(l, lo, hi);
            let pr = power_over(r, lo, hi);
            &&& 0real <= pl && 0real <= pr
            &&& pl + pr <= ((hi - lo) as real) * 4000000000000real
            &&& size(in_phase_over(l, r, lo, hi)) <= pl + pr
            &&& size(lead_over(l, r, lo, hi)) <= pl + pr
            &&& close(s.left, pl, slack(pl, hi - lo))
            &&& close(s.right, pr, slack(pr, hi - lo))
            &&& close(s.cross.re, in_phase_over(l, r, lo, hi), slack(pl + pr, hi - lo))
            &&& close(s.cross.im, lead_over(l, r, lo, hi), slack(pl + pr, hi - lo))
        }),
    decreases hi - lo,
{
    lemma_constants();
    let pl = power_over(l, lo, hi);
    let pr = power_over(r, lo, hi);
    if hi <= lo {
        assert(0real * (4real / 8000000real) == 0real);
    } else {
        law_sums_add_the_bins(l, r, lo, hi - 1);
        let a = l[hi - 1];
        let b = r[hi - 1];
        law_power_is_a_sum_of_squares(a);
        law_power_is_a_sum_of_squares(b);
        law_cross_is_in_phase_and_lead(a, b);
        let s = sums(l, r, lo, hi - 1);
        let ul = power_over(l, lo, hi - 1);
        let ur = power_over(r, lo, hi - 1);
        let c = cross(a, b);
        let n = hi - 1 - lo;
        assert((n as real) * 4000000000000real <= 4096000000000000real);
        lemma_step(s.left, power(a), ul, power_at(a), ul, power_at(a), n);
        lemma_step(s.right, power(b), ur, power_at(b), ur, power_at(b), n);
        let w = power_at(a) + power_at(b);
        let ph = in_phase_over(l, r, lo, hi - 1);
        let ld = lead_over(l, r, lo, hi - 1);
        lemma_step(s.cross.re, c.re, ph, in_phase_at(a, b), ul + ur, w, n);
        lemma_step(s.cross.im, c.im, ld, lead_at(a, b), ul + ur, w, n);
        assert(ul + ur + w == pl + pr);
    }
}

/// The amplitude of two bins is the root of their mean power.
pub proof fn law_amplitude_is_root_mean_square(l: Complex, r: Complex)
    requires
        is_bin(l),
        is_bin(r),
        power_at(l) + power_at(r) >= 1real / 10000000000real,
        power_at(l) + power_at(r) <= 1000000000000real,
    ensures
        ({
            let a = ((power(l) + power(r)) * F32::half_unit()).root();
            let q = (power_at(l) + power_at(r)) / 2real;
            &&& a.finite()
            &&& a.value() > 0real
            &&& apart(a.value() * a.value(), q) <= q / 1000000real
        }),
{
    lemma_constants();
    law_power_is_a_sum_of_squares(l);
    law_power_is_a_sum_of_squares(r);
    let p = power(l) + power(r);
    lemma_value_add(power(l), power(r));
    lemma_value_mul(p, F32::half_unit());
    assert(p.value() * F32::half_unit().value() == p.value() / 2real) by (nonlinear_arith)
        requires F32::half_unit().value() == 1real / 2real;
    lemma_value_root(p * F32::half_unit());
}

/// The peak of a range is the largest of its amplitudes: no bin is above it, and it is
/// that of one of them unless all are at most zero.
pub proof fn law_joint_peak_is_the_largest(l: Seq<Complex>, r: Seq<Complex>, lo: int, hi: int)
    requires
        0 <= lo <= hi <= 1024,
        hi <= l.len(),
        hi <= r.len(),
        forall|i: int|
            lo <= i < hi ==> !((power(#[trigger] l[i]) + power(r[i])) * F32::half_unit()).root().nan(),
    ensures
        !joint_peak(l, r, lo, hi).nan(),
        F32::nought().le(joint_peak(l, r, lo, hi)),
        forall|i: int|
            lo <= i < hi ==> ((power(#[trigger] l[i]) + power(r[i])) * F32::half_unit()).root().le(
                joint_peak(l, r, lo, hi),
            ),
        joint_peak(l, r, lo, hi) == F32::nought() || exists|i: int|
            lo <= i < hi && joint_peak(l, r, lo, hi) == ((power(#[trigger] l[i]) + power(r[i]))
                * F32::half_unit()).root(),
    decreases hi - lo,
{
    lemma_constants();
    if hi > lo {
        law_joint_peak_is_the_largest(l, r, lo, hi - 1);
        let p = joint_peak(l, r, lo, hi - 1);
        let x = ((power(l[hi - 1]) + power(r[hi - 1])) * F32::half_unit()).root();
        assert(joint_peak(l, r, lo, hi) == p.larger(x));
        assert forall|i: int| lo <= i < hi implies ((power(#[trigger] l[i]) + power(r[i]))
            * F32::half_unit()).root().le(joint_peak(l, r, lo, hi)) by {
            if i < hi - 1 {
                assert(((power(l[i]) + power(r[i])) * F32::half_unit()).root().le(p));
            }
        }
        assert(p.larger(x) == x || p.larger(x) == p);
    }
}

/// The power of the right channel relative to the left, both kept off zero by a
/// trillionth.
pub proof fn law_ratio_is_right_to_left(s: CrossSums)
    requires
        s.left.finite(),
        s.right.finite(),
        0real <= s.left.value() <= 1000000000000000real,
        0real <= s.right.value() <= 1000000000000000real,
        (s.right.value() + 1real / 1000000000000real) / (s.left.value() + 1real / 1000000000000real)
            <= 9000000000000000000real,
    ensures
        ({
            let t = 1real / 1000000000000real;
            let q = (s.right.value() + t) / (s.left.value() + t);
            &&& power_ratio(s).finite()
            &&& apart(power_ratio(s).value(), q) <= q / 1000000real + dust()
        }),
{
    let t = 1real / 1000000000000real;
    lemma_trillionth();
    let x = s.right + trillionth();
    let y = s.left + trillionth();
    lemma_value_add(s.right, trillionth());
    lemma_value_add(s.left, trillionth());
    let u = s.right.value() + t;
    let v = s.left.value() + t;
    let q = u / v;
    assert(0real <= q) by (nonlinear_arith)
        requires q == u / v, 0real <= u, v >= t, t == 1real / 1000000000000real;
    let k = 1real / 8000000real;
    assert(apart(x.value(), u) <= u / 8000000real);
    assert(apart(y.value(), v) <= v / 8000000real);
    assert(0real / t == 0real) by (nonlinear_arith)
        requires t > 0real;
    lemma_relative_div(x, y, u, v, k, k, 0real, t);
    assert(q * (2real * k + 2real * k + 1real / 8000000real) == q * 5real / 8000000real) by (nonlinear_arith)
        requires k == 1real / 8000000real;
}

/// What the cross-spectrum is measured against: the geometric mean of the two powers.
pub proof fn law_span_is_the_geometric_mean(s: CrossSums)
    requires
        s.left.finite(),
        s.right.finite(),
        0real <= s.left.value() <= 1000000000real,
        0real <= s.right.value() <= 1000000000real,
        1real / 10000000000real <= s.left.value() * s.right.value() <= 100000000000real,
    ensures
        power_span(s).finite(),
        power_span(s).value() > 0real,
        apart(power_span(s).value() * power_span(s).value(), s.left.value() * s.right.value()) <= s.left.value()
            * s.right.value() / 1000000real,
{
    lemma_trillionth();
    lemma_value_mul(s.left, s.right);
    let p = s.left * s.right;
    let v = s.left.value() * s.right.value();
    lemma_value_root(p);
    let x = p.root().value();
    assert(x >= 1real / 1000000real) by (nonlinear_arith)
        requires x * x >= 1real / 100000000000real, x > 0real;
    lemma_value_le(p.root(), trillionth());
    lemma_value_le(trillionth(), p.root());
}

/// What keeps divisors off zero is a trillionth.
proof fn lemma_trillionth()
    ensures
        trillionth().finite(),
        apart(trillionth().value(), 1real / 1000000000000real) <= 1real / 20000000000000000000real,
{
    reveal(F32::value);
    lemma_one();
    lemma2_to64_rest();
    lemma_pow2_pos(86);
    lemma_pow2_adds(86, 63);
    let m = trillionth().mag();
    assert(m / 0x80_0000 == 87 && m % 0x80_0000 == 0x0C_BCCC);
    let n = pow2(86) as int;
    assert(trillionth().units() == 9223372 * n);
    assert(one_units() == n * 9223372036854775808);
    assert((9223372 * n) as real / (n * 9223372036854775808) as real == 9223372real / 9223372036854775808real)
        by (nonlinear_arith)
        requires n > 0;
}

/// The bins of a range of frequencies are those that hold its ends, each 23.4375 hertz
/// wide; the constant part is left out, and so is what lies beyond the last bin.
pub proof fn law_bins_are_evenly_spaced(hz: F32, k: int)
    requires
        hz.finite(),
        0 <= k <= 2000,
        (k as real + 1real / 1000real) * 375real / 16real <= hz.value() <= (k as real + 999real / 1000real) * 375real
            / 16real,
    ensures
        bin_of(hz) == k,
        1 <= k ==> first_bin(hz) == k,
        k == 0 ==> first_bin(hz) == 1,
        k <= LAST_BIN ==> last_bin(hz) == k,
        k > LAST_BIN ==> last_bin(hz) == LAST_BIN,
{
    lemma_bin_width();
    let x = hz.value();
    let v = x / (375real / 16real);
    lemma_close_div(hz, bin_hz(), x, 375real / 16real, 0real, 1real / 100000real, 2001real, 375real / 16real);
    lemma_value_index(hz / bin_hz());
    let i = bin_of(hz);
    assert(i as real <= k as real + 999real / 1000real + 1real / 1000real);
    assert(i < k + 1 && k < i + 1);
}

/// A bin is 23.4375 hertz wide.
pub proof fn lemma_bin_width()
    ensures
        close(bin_hz(), 375real / 16real, 1real / 100000real),
        close(half_bin_hz(), 375real / 16real, 1real / 100000real),
{
    lemma_value_whole(SAMPLE_RATE as int);
    lemma_value_whole(FFT_SIZE as int);
    lemma_value_whole(2);
    let r = F32::whole(SAMPLE_RATE as int);
    let n = F32::whole(FFT_SIZE as int);
    lemma_value_div(r, n);
    lemma_value_div(r, F32::whole(2));
    lemma_value_div(n, F32::whole(2));
    lemma_close_div(
        r / F32::whole(2),
        n / F32::whole(2),
        24000real,
        1024real,
        2real / 1000real,
        7real / 100000real,
        24real,
        1024real,
    );
}

/// The regions of the measure: the outer ear from 3800 to 6500 hertz, the reference
/// from 1800 to 3200, the whole from 200 to 16000 and the low end from 200 to 1000.
pub proof fn law_regions_of_the_measure(m: Measure, l: Seq<Complex>, r: Seq<Complex>, edges: Seq<usize>)
    requires
        measures(m, l, r, edges),
    ensures
        m.pinna == power_ratio(sums(l, r, 162, 278)),
        m.reference == power_ratio(sums(l, r, 76, 137)),
        m.wide == power_ratio(sums(l, r, 8, 683)),
        m.low_cross == sums(l, r, 8, 43).cross,
        m.low_span == power_span(sums(l, r, 8, 43)),
{
    lemma_value_whole(3800);
    law_bins_are_evenly_spaced(F32::whole(3800), 162);
    lemma_value_whole(6500);
    law_bins_are_evenly_spaced(F32::whole(6500), 277);
    lemma_value_whole(1800);
    law_bins_are_evenly_spaced(F32::whole(1800), 76);
    lemma_value_whole(3200);
    law_bins_are_evenly_spaced(F32::whole(3200), 136);
    lemma_value_whole(200);
    law_bins_are_evenly_spaced(F32::whole(200), 8);
    lemma_value_whole(16000);
    law_bins_are_evenly_spaced(F32::whole(16000), 682);
    lemma_value_whole(1000);
    law_bins_are_evenly_spaced(F32::whole(1000), 42);
}

/// A band's frequency is the middle of its bins, in hertz.
pub proof fn law_band_center_is_the_middle(edges: Seq<usize>, b: int)
    requires
        0 <= b < edges.len() - 1,
        edges[b] <= 1023,
        edges[b + 1] <= 1024,
    ensures
        close(
            band_center(edges, b),
            ((edges[b] + band_end(edges, b)) as real) / 2real * (375real / 16real),
            1real / 50real,
        ),
{
    lemma_constants();
    lemma_bin_width();
    let n = edges[b] + band_end(edges, b);
    lemma_value_whole(n);
    let x = F32::whole(n);
    lemma_value_mul(x, F32::half_unit());
    assert(x.value() * F32::half_unit().value() == x.value() / 2real) by (nonlinear_arith)
        requires F32::half_unit().value() == 1real / 2real;
    let h = x * F32::half_unit();
    lemma_close_mul(
        h,
        half_bin_hz(),
        (n as real) / 2real,
        375real / 16real,
        1real / 10000real,
        1real / 100000real,
        1024real,
        375real / 16real,
    );
}

} // verus!
