//! What operations make of numbers with the sign turned.

use super::laws::{lemma_neg, lemma_one, lemma_signed};
use super::repr::{lemma_mag_units_order, mag_units, F32, INF_MAG};
use super::round::{distance, lemma_nearest_positive, nearest_mag};
use vstd::arithmetic::power2::{lemma_pow2_pos, pow2};
use vstd::prelude::*;

verus! {

/// Numbers that differ in their sign alone, zeros of either sign, or NaN both.
pub open spec fn opposite(a: F32, b: F32) -> bool {
    ||| a.nan() && b.nan()
    ||| !a.nan() && !b.nan() && a.mag() == b.mag() && (a.mag() == 0 || a.negative() != b.negative())
}

/// A number and itself with the sign turned.
pub proof fn lemma_turned(a: F32)
    ensures
        opposite(a, a.spec_neg()),
        opposite(a.spec_neg(), a),
        a.spec_neg().mag() == a.mag(),
        a.spec_neg().negative() != a.negative(),
        a.spec_neg().unsigned() == a.unsigned(),
        a.spec_neg().nan() == a.nan(),
        a.spec_neg().finite() == a.finite(),
        a.spec_neg().spec_neg() == a,
{
}

/// Opposite numbers have opposite values.
pub proof fn lemma_opposite_units(a: F32, b: F32)
    requires
        opposite(a, b),
    ensures
        !a.nan() ==> a.units() == -b.units(),
        a.nan() == b.nan(),
        a.finite() == b.finite(),
        !a.nan() ==> a.unsigned() == b.unsigned(),
        opposite(b, a),
        opposite(a.spec_neg(), b.spec_neg()),
{
}

/// Sums do not depend on the order.
pub proof fn lemma_add_commutes(a: F32, b: F32)
    ensures
        a + b == b + a,
{
    reveal(F32::spec_add);
    if !a.nan() && !b.nan() && !a.finite() && !b.finite() && a.negative() == b.negative() {
        assert(a.bits == b.bits);
    }
}

/// Products do not depend on the order.
pub proof fn lemma_mul_commutes(a: F32, b: F32)
    ensures
        a * b == b * a,
{
    reveal(F32::spec_mul);
    assert(mag_units(a.mag()) * mag_units(b.mag()) == mag_units(b.mag()) * mag_units(a.mag())) by (nonlinear_arith);
}

/// The sum of opposite numbers is opposite.
pub proof fn lemma_opposite_add(a: F32, b: F32, c: F32, d: F32)
    requires
        opposite(a, c),
        opposite(b, d),
    ensures
        opposite(a + b, c + d),
{
    reveal(F32::spec_add);
    let n = a.units() + b.units();
    lemma_nearest_positive(distance(n, 0), 1);
    lemma_signed(n < 0, nearest_mag(distance(n, 0), 1));
    lemma_signed(n > 0, nearest_mag(distance(n, 0), 1));
    lemma_signed(a.negative() && b.negative(), 0);
    lemma_signed(c.negative() && d.negative(), 0);
    assert(a.finite() && b.finite() ==> c.units() + d.units() == -n);
}

/// The difference of opposite numbers is opposite.
pub proof fn lemma_opposite_sub(a: F32, b: F32, c: F32, d: F32)
    requires
        opposite(a, c),
        opposite(b, d),
    ensures
        opposite(a - b, c - d),
{
    lemma_opposite_units(b, d);
    lemma_opposite_add(a, b.spec_neg(), c, d.spec_neg());
}

/// The products of opposite numbers with the same number are opposite.
pub proof fn lemma_opposite_mul(a: F32, b: F32, c: F32)
    requires
        opposite(a, b),
    ensures
        opposite(a * c, b * c),
        opposite(c * a, c * b),
{
    reveal(F32::spec_mul);
    lemma_mul_commutes(a, c);
    lemma_mul_commutes(b, c);
    lemma_one();
    lemma_pow2_pos(149);
    lemma_mag_units_order(0, a.mag());
    lemma_mag_units_order(0, c.mag());
    let m = mag_units(a.mag()) * mag_units(c.mag());
    assert(m >= 0 && (mag_units(a.mag()) == 0 ==> m == 0)) by (nonlinear_arith)
        requires m == mag_units(a.mag()) * mag_units(c.mag()), mag_units(a.mag()) >= 0, mag_units(c.mag()) >= 0;
    lemma_nearest_positive(m, pow2(149) as int);
    lemma_signed(true, nearest_mag(m, pow2(149) as int));
    lemma_signed(false, nearest_mag(m, pow2(149) as int));
    lemma_signed(true, INF_MAG as int);
    lemma_signed(false, INF_MAG as int);
}

/// The quotients of opposite numbers by the same number are opposite.
pub proof fn lemma_opposite_div(a: F32, b: F32, c: F32)
    requires
        opposite(a, b),
    ensures
        opposite(a / c, b / c),
{
    reveal(F32::spec_euclidean_or_real_div);
    lemma_pow2_pos(149);
    lemma_mag_units_order(0, a.mag());
    lemma_mag_units_order(0, c.mag());
    let m = mag_units(a.mag()) * pow2(149);
    assert(m >= 0 && (mag_units(a.mag()) == 0 ==> m == 0)) by (nonlinear_arith)
        requires m == mag_units(a.mag()) * pow2(149), mag_units(a.mag()) >= 0, pow2(149) > 0;
    if c.finite() && c.mag() != 0 {
        lemma_nearest_positive(m, mag_units(c.mag()));
        lemma_signed(true, nearest_mag(m, mag_units(c.mag())));
        lemma_signed(false, nearest_mag(m, mag_units(c.mag())));
    }
    lemma_signed(true, INF_MAG as int);
    lemma_signed(false, INF_MAG as int);
    lemma_signed(true, 0);
    lemma_signed(false, 0);
}

/// Opposite numbers, limited to a range around zero, stay opposite.
pub proof fn lemma_opposite_clamp(a: F32, b: F32, high: F32)
    requires
        opposite(a, b),
        !high.nan(),
        high.units() >= 0,
    ensures
        opposite(a.clamped(high.spec_neg(), high), b.clamped(high.spec_neg(), high)),
{
    lemma_neg(high);
    lemma_turned(high);
    lemma_opposite_units(a, b);
}

/// Opposite numbers on the way to opposite numbers stay opposite.
pub proof fn lemma_opposite_toward(a: F32, b: F32, s: F32, t: F32, c: F32)
    requires
        opposite(a, b),
        opposite(s, t),
    ensures
        opposite(a.toward(s, c), b.toward(t, c)),
{
    lemma_opposite_sub(s, a, t, b);
    lemma_opposite_mul(s - a, t - b, c);
    lemma_opposite_add(a, (s - a) * c, b, (t - b) * c);
}

} // verus!
