//! The frequency bands of the spectrum, on a logarithmic scale.

use crate::natural::Natural;
use vstd::arithmetic::power::{lemma_pow0, lemma_pow1, lemma_pow_adds, lemma_pow_distributes, lemma_pow_positive, pow};
use vstd::prelude::*;

verus! {

/// Nominal sampling rate, in hertz.
pub const SAMPLE_RATE: u32 = 48_000;

/// Size of the transform window.
pub const FFT_SIZE: usize = 2048;

/// Number of bands.
pub const NUM_BANDS: usize = 64;

/// The lowest frequency shown, in hertz.
pub const FREQ_MIN: u32 = 30;

/// The highest frequency shown, in hertz.
pub const FREQ_MAX: u32 = 16_000;

/// The last bin below half the sampling rate.
pub const LAST_BIN: usize = 1023;

/// Whether edge `i` of the scale lies at `h` half bins or above. The frequency of
/// edge `i` is `FREQ_MIN * (FREQ_MAX / FREQ_MIN)^(i / NUM_BANDS)`, and a bin is
/// `SAMPLE_RATE / FFT_SIZE` wide; both sides are raised to the power `NUM_BANDS`
/// and cleared of denominators.
pub open spec fn edge_reaches(i: nat, h: int) -> bool {
    pow(SAMPLE_RATE as int, NUM_BANDS as nat) * pow(FREQ_MIN as int, i) * pow(h, NUM_BANDS as nat) <= pow(
        2 * FREQ_MIN * FFT_SIZE,
        NUM_BANDS as nat,
    ) * pow(FREQ_MAX as int, i)
}

/// Whether `k` is the bin nearest to edge `i` (upwards from halfway), or the last
/// bin where the nearest lies beyond it.
pub open spec fn is_edge_bin(i: nat, k: int) -> bool {
    &&& 0 <= k <= LAST_BIN
    &&& k > 0 ==> edge_reaches(i, 2 * k - 1)
    &&& k < LAST_BIN ==> !edge_reaches(i, 2 * k + 1)
}

/// Edges lie higher and higher on the scale.
proof fn lemma_edge_reaches_next(i: nat, h: int)
    requires
        edge_reaches(i, h),
        h >= 0,
    ensures
        edge_reaches(i + 1, h),
{
    lemma_pow_adds(FREQ_MIN as int, i, 1);
    lemma_pow_adds(FREQ_MAX as int, i, 1);
    lemma_pow1(FREQ_MIN as int);
    lemma_pow1(FREQ_MAX as int);
    lemma_pow_positive(SAMPLE_RATE as int, NUM_BANDS as nat);
    lemma_pow_positive(FREQ_MIN as int, i);
    lemma_pow_positive(FREQ_MAX as int, i);
    lemma_pow_positive(2 * FREQ_MIN * FFT_SIZE, NUM_BANDS as nat);
    let a = pow(SAMPLE_RATE as int, NUM_BANDS as nat);
    let b = pow(FREQ_MIN as int, i);
    let c = pow(h, NUM_BANDS as nat);
    let d = pow(2 * FREQ_MIN * FFT_SIZE, NUM_BANDS as nat);
    let e = pow(FREQ_MAX as int, i);
    assert(a * (b * 30) * c == 30 * (a * b * c)) by (nonlinear_arith);
    assert(d * (e * 16_000) == 16_000 * (d * e)) by (nonlinear_arith);
    assert(d * e > 0) by (nonlinear_arith)
        requires d > 0, e > 0;
}

/// The transform bins that bound the bands: band `b` goes from edge `b` to edge
/// `b + 1`.
pub fn compute_band_edges() -> (edges: Vec<usize>)
    ensures
        edges@.len() == NUM_BANDS + 1,
        forall|i: int| 0 <= i <= NUM_BANDS ==> is_edge_bin(i as nat, #[trigger] edges@[i] as int),
        forall|i: int, j: int| 0 <= i <= j <= NUM_BANDS ==> edges@[i] <= edges@[j],
{
    let mut edges: Vec<usize> = Vec::new();
    // The two sides of `edge_reaches`, without the half bins.
    let mut left = Natural::new(1);
    left.scale_power(SAMPLE_RATE, NUM_BANDS as u32);
    let mut right = Natural::new(1);
    right.scale_power(2 * FREQ_MIN * FFT_SIZE as u32, NUM_BANDS as u32);
    proof {
        lemma_pow0(FREQ_MIN as int);
        lemma_pow0(FREQ_MAX as int);
        let x = left@;
        let y = right@;
        assert(x * 1 == x && y * 1 == y);
    }
    let mut bin: usize = 0;
    let mut i: usize = 0;
    while i <= NUM_BANDS
        invariant
            i <= NUM_BANDS + 1,
            edges@.len() == i,
            left@ == pow(SAMPLE_RATE as int, NUM_BANDS as nat) * pow(FREQ_MIN as int, i as nat),
            right@ == pow(2 * FREQ_MIN * FFT_SIZE, NUM_BANDS as nat) * pow(FREQ_MAX as int, i as nat),
            bin <= LAST_BIN,
            bin > 0 ==> edge_reaches(i as nat, 2 * bin - 1),
            forall|j: int| 0 <= j < i ==> is_edge_bin(j as nat, #[trigger] edges@[j] as int),
            forall|j: int| 0 <= j < i ==> #[trigger] edges@[j] <= bin,
            forall|j: int, k: int| 0 <= j <= k < i ==> edges@[j] <= edges@[k],
        decreases NUM_BANDS + 1 - i,
    {
        let mut done = false;
        while !done
            invariant
                bin <= LAST_BIN,
                left@ == pow(SAMPLE_RATE as int, NUM_BANDS as nat) * pow(FREQ_MIN as int, i as nat),
                right@ == pow(2 * FREQ_MIN * FFT_SIZE, NUM_BANDS as nat) * pow(FREQ_MAX as int, i as nat),
                bin > 0 ==> edge_reaches(i as nat, 2 * bin - 1),
                done ==> is_edge_bin(i as nat, bin as int),
                forall|j: int| 0 <= j < i ==> #[trigger] edges@[j] <= bin,
            decreases LAST_BIN - bin, if done { 0int } else { 1int },
        {
            if bin == LAST_BIN {
                done = true;
            } else {
                let mut below = left.copied();
                below.scale_power((2 * bin + 1) as u32, NUM_BANDS as u32);
                if below.at_most(&right) {
                    bin = bin + 1;
                } else {
                    done = true;
                }
            }
        }
        edges.push(bin);
        proof {
            if bin > 0 {
                lemma_edge_reaches_next(i as nat, 2 * bin - 1);
            }
            lemma_pow_adds(FREQ_MIN as int, i as nat, 1);
            lemma_pow_adds(FREQ_MAX as int, i as nat, 1);
            lemma_pow1(FREQ_MIN as int);
            lemma_pow1(FREQ_MAX as int);
            let a = pow(SAMPLE_RATE as int, NUM_BANDS as nat);
            let b = pow(FREQ_MIN as int, i as nat);
            let c = pow(2 * FREQ_MIN * FFT_SIZE, NUM_BANDS as nat);
            let d = pow(FREQ_MAX as int, i as nat);
            assert((a * b) * 30 == a * (b * 30)) by (nonlinear_arith);
            assert((c * d) * 16_000 == c * (d * 16_000)) by (nonlinear_arith);
        }
        left.scale(FREQ_MIN);
        right.scale(FREQ_MAX);
        i = i + 1;
    }
    edges
}

/// Powers grow with their base.
proof fn lemma_pow_grows(a: int, b: int, e: nat)
    requires
        0 <= a <= b,
    ensures
        0 <= pow(a, e) <= pow(b, e),
    decreases e,
{
    reveal(pow);
    if e > 0 {
        lemma_pow_grows(a, b, (e - 1) as nat);
        let x = pow(a, (e - 1) as nat);
        let y = pow(b, (e - 1) as nat);
        assert(0 <= a * x <= b * y) by (nonlinear_arith)
            requires 0 <= a <= b, 0 <= x <= y;
    }
}

/// Every edge of the scale has one bin: what `compute_band_edges` gives is fixed.
pub proof fn law_edge_has_one_bin(i: nat, k: int, m: int)
    requires
        is_edge_bin(i, k),
        is_edge_bin(i, m),
    ensures
        k == m,
{
    if k < m {
        lemma_edge_reaches_below(i, 2 * k + 1, 2 * m - 1);
    } else if m < k {
        lemma_edge_reaches_below(i, 2 * m + 1, 2 * k - 1);
    }
}

/// An edge that lies at some place or above lies above every lower place.
proof fn lemma_edge_reaches_below(i: nat, g: int, h: int)
    requires
        0 <= g <= h,
        edge_reaches(i, h),
    ensures
        edge_reaches(i, g),
{
    lemma_pow_grows(g, h, NUM_BANDS as nat);
    lemma_pow_positive(SAMPLE_RATE as int, NUM_BANDS as nat);
    lemma_pow_positive(FREQ_MIN as int, i);
    let a = pow(SAMPLE_RATE as int, NUM_BANDS as nat);
    let b = pow(FREQ_MIN as int, i);
    let c = pow(g, NUM_BANDS as nat);
    let d = pow(h, NUM_BANDS as nat);
    assert(a * b * c <= a * b * d) by (nonlinear_arith)
        requires a > 0, b > 0, c <= d;
}

/// The first edge is that of the lowest frequency, the last that of the highest, and no
/// edge lies below one before it.
pub proof fn law_edges_go_from_lowest_to_highest(i: nat, j: nat, k: int, m: int)
    requires
        is_edge_bin(i, k),
        is_edge_bin(j, m),
        i <= j,
    ensures
        k <= m,
        i == 0 ==> k == 1,
        j == NUM_BANDS ==> m == 683,
{
    if k > m {
        lemma_edge_reaches_later(i, j, 2 * k - 1);
        lemma_edge_reaches_below(j, 2 * m + 1, 2 * k - 1);
    }
    let n = NUM_BANDS as nat;
    let s = SAMPLE_RATE as int;
    let a = 2 * FREQ_MIN * FFT_SIZE;
    if i == 0 {
        lemma_pow0(FREQ_MIN as int);
        lemma_pow0(FREQ_MAX as int);
        lemma_pow_distributes(s, 2 * k - 1, n);
        lemma_pow_distributes(s, 2 * k + 1, n);
        assert(pow(s, n) * pow(2 * k - 1, n) == pow(s * (2 * k - 1), n));
        if k > 1 {
            lemma_pow_above(a, s * (2 * k - 1), n);
        }
        if k < 1 {
            assert(k == 0);
            lemma_pow_grows(s, a, n);
        }
    }
    if j == NUM_BANDS {
        let u = s * FREQ_MIN;
        let v = a * FREQ_MAX;
        lemma_pow_distributes(s, FREQ_MIN as int, n);
        lemma_pow_distributes(a, FREQ_MAX as int, n);
        lemma_pow_distributes(u, 2 * m - 1, n);
        lemma_pow_distributes(u, 2 * m + 1, n);
        if m > 683 {
            lemma_pow_above(v, u * (2 * m - 1), n);
        }
        if m < 683 {
            assert(u * (2 * m + 1) <= v);
            lemma_pow_grows(u * (2 * m + 1), v, n);
        }
    }
}

/// Powers of a larger base are larger.
proof fn lemma_pow_above(a: int, b: int, e: nat)
    requires
        0 < a < b,
        e > 0,
    ensures
        pow(a, e) < pow(b, e),
{
    reveal(pow);
    lemma_pow_grows(a, b, (e - 1) as nat);
    lemma_pow_positive(a, (e - 1) as nat);
    let x = pow(a, (e - 1) as nat);
    let y = pow(b, (e - 1) as nat);
    assert(a * x < b * y) by (nonlinear_arith)
        requires 0 < a < b, 0 < x <= y;
}

/// A later edge lies no lower.
proof fn lemma_edge_reaches_later(i: nat, j: nat, h: int)
    requires
        i <= j,
        h >= 0,
        edge_reaches(i, h),
    ensures
        edge_reaches(j, h),
    decreases j - i,
{
    if i < j {
        let n = NUM_BANDS as nat;
        reveal(pow);
        lemma_pow_grows(0, h, n);
        lemma_pow_positive(SAMPLE_RATE as int, n);
        lemma_pow_positive(FREQ_MIN as int, i);
        lemma_pow_positive(FREQ_MAX as int, i);
        lemma_pow_positive(2 * FREQ_MIN * FFT_SIZE, n);
        let s = pow(SAMPLE_RATE as int, n);
        let a = pow(FREQ_MIN as int, i);
        let x = pow(h, n);
        let t = pow(2 * FREQ_MIN * FFT_SIZE, n);
        let b = pow(FREQ_MAX as int, i);
        assert(pow(FREQ_MIN as int, i + 1) == 30 * a);
        assert(pow(FREQ_MAX as int, i + 1) == 16000 * b);
        assert(0 <= s * a * x) by (nonlinear_arith)
            requires s >= 0, a >= 0, x >= 0;
        assert(s * (30 * a) * x == 30 * (s * a * x)) by (nonlinear_arith);
        assert(t * (16000 * b) == 16000 * (t * b)) by (nonlinear_arith);
        lemma_edge_reaches_later(i + 1, j, h);
    }
}

/// The scale is geometric: the edge halfway between two others lies at their geometric
/// mean. Where it does not reach a place that far up, they cannot both lie above places
/// whose product is its square; where it does, they cannot both lie below such places.
pub proof fn law_edges_are_geometric(i: nat, j: nat, m: nat, f: int, g: int, h: int)
    requires
        i + j == 2 * m,
        f >= 0,
        g >= 0,
        h >= 0,
    ensures
        edge_reaches(i, g) && edge_reaches(j, h) && !edge_reaches(m, f) ==> g * h < f * f,
        !edge_reaches(i, g) && !edge_reaches(j, h) && edge_reaches(m, f) ==> f * f < g * h,
{
    let n = NUM_BANDS as nat;
    let s = pow(SAMPLE_RATE as int, n);
    let t = pow(2 * FREQ_MIN * FFT_SIZE, n);
    let (ai, aj, am) = (pow(FREQ_MIN as int, i), pow(FREQ_MIN as int, j), pow(FREQ_MIN as int, m));
    let (bi, bj, bm) = (pow(FREQ_MAX as int, i), pow(FREQ_MAX as int, j), pow(FREQ_MAX as int, m));
    let (x, y, z) = (pow(g, n), pow(h, n), pow(f, n));
    lemma_pow_positive(SAMPLE_RATE as int, n);
    lemma_pow_positive(2 * FREQ_MIN * FFT_SIZE, n);
    lemma_pow_positive(FREQ_MIN as int, i);
    lemma_pow_positive(FREQ_MIN as int, j);
    lemma_pow_positive(FREQ_MIN as int, m);
    lemma_pow_positive(FREQ_MAX as int, i);
    lemma_pow_positive(FREQ_MAX as int, j);
    lemma_pow_positive(FREQ_MAX as int, m);
    lemma_pow_grows(0, g, n);
    lemma_pow_grows(0, h, n);
    lemma_pow_grows(0, f, n);
    lemma_pow_adds(FREQ_MIN as int, i, j);
    lemma_pow_adds(FREQ_MIN as int, m, m);
    lemma_pow_adds(FREQ_MAX as int, i, j);
    lemma_pow_adds(FREQ_MAX as int, m, m);
    lemma_pow_distributes(g, h, n);
    lemma_pow_distributes(f, f, n);
    let (p, q, r) = (s * ai * x, s * aj * y, s * am * z);
    let (u, v, w) = (t * bi, t * bj, t * bm);
    assert(p >= 0 && q >= 0 && r >= 0 && u > 0 && v > 0 && w > 0) by (nonlinear_arith)
        requires
            p == s * ai * x, q == s * aj * y, r == s * am * z, u == t * bi, v == t * bj, w == t * bm,
            s > 0, t > 0, ai > 0, aj > 0, am > 0, bi > 0, bj > 0, bm > 0, x >= 0, y >= 0, z >= 0,
    ;
    let k = (s * s) * (am * am);
    assert(k > 0) by (nonlinear_arith)
        requires k == (s * s) * (am * am), s > 0, am > 0;
    lemma_product_of_three(s, ai, x, s, aj, y);
    lemma_product_of_three(s, am, z, s, am, z);
    assert(p * q == k * (x * y));
    assert(r * r == k * (z * z));
    assert(u * v == (t * t) * (bi * bj)) by (nonlinear_arith)
        requires u == t * bi, v == t * bj;
    assert(w * w == (t * t) * (bm * bm)) by (nonlinear_arith)
        requires w == t * bm;
    assert(g * h >= 0 && f * f >= 0) by (nonlinear_arith)
        requires g >= 0, h >= 0;
    if edge_reaches(i, g) && edge_reaches(j, h) && !edge_reaches(m, f) {
        assert(p * q <= u * v) by (nonlinear_arith)
            requires 0 <= p <= u, 0 <= q <= v;
        assert(w * w < r * r) by (nonlinear_arith)
            requires 0 < w < r;
        assert(x * y < z * z) by (nonlinear_arith)
            requires k * (x * y) < k * (z * z), k > 0;
        if g * h >= f * f {
            lemma_pow_grows(f * f, g * h, n);
        }
    }
    if !edge_reaches(i, g) && !edge_reaches(j, h) && edge_reaches(m, f) {
        assert(u * v < p * q) by (nonlinear_arith)
            requires 0 < u < p, 0 < v < q;
        assert(r * r <= w * w) by (nonlinear_arith)
            requires 0 <= r <= w;
        assert(z * z < x * y) by (nonlinear_arith)
            requires k * (z * z) < k * (x * y), k > 0;
        if f * f >= g * h {
            lemma_pow_grows(g * h, f * f, n);
        }
    }
}

/// Products of three, sorted.
proof fn lemma_product_of_three(a: int, b: int, c: int, d: int, e: int, f: int)
    ensures
        (a * b * c) * (d * e * f) == ((a * d) * (b * e)) * (c * f),
{
    let x = a * b;
    let y = d * e;
    assert((x * c) * (y * f) == (x * y) * (c * f)) by (nonlinear_arith);
    assert((a * b) * (d * e) == (a * d) * (b * e)) by (nonlinear_arith);
}

} // verus!
