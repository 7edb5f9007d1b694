//! How large results can get.

use super::laws::{
    lemma_add_between, lemma_bounded_is_finite, lemma_mul_between, lemma_neg, lemma_signed, lemma_sub_between,
    lemma_whole, one_units,
};
use super::repr::{F32, FRAC};
use super::round::{lemma_mag_units_at, lemma_pow2_order};
use vstd::arithmetic::power2::{lemma2_to64, lemma_pow2_adds, lemma_pow2_pos, lemma_pow2_unfold, pow2};
use vstd::prelude::*;

verus! {

impl F32 {
    /// A finite number of at most 2 to the `p` units on either side of zero.
    pub open spec fn fits(self, p: nat) -> bool {
        &&& self.finite()
        &&& -pow2(p) <= self.units() <= pow2(p)
    }

    /// The number of 2 to the `p` units.
    pub open spec fn power(p: nat) -> F32 {
        F32::signed(false, (p - 22) * FRAC)
    }
}

/// Powers of two are numbers of the format.
pub proof fn lemma_power(p: nat)
    requires
        23 <= p <= 276,
    ensures
        F32::power(p).finite(),
        !F32::power(p).negative(),
        F32::power(p).units() == pow2(p),
{
    let s = (p - 23) as nat;
    lemma_mag_units_at(s, FRAC as int);
    lemma_pow2_adds(23, s);
    lemma2_to64();
    assert(FRAC * pow2(s) == pow2(p));
    lemma_signed(false, (p - 22) * FRAC);
}

/// What a bound holds, a larger bound holds too.
pub proof fn lemma_fits_more(a: F32, p: nat, q: nat)
    requires
        a.fits(p),
        p <= q,
    ensures
        a.fits(q),
{
    lemma_pow2_order(p, q);
}

/// A sum, and a difference, at most doubles the bound.
pub proof fn lemma_add_fits(a: F32, b: F32, p: nat)
    requires
        a.fits(p),
        b.fits(p),
        23 <= p < 276,
    ensures
        (a + b).fits(p + 1),
        (a - b).fits(p + 1),
{
    lemma_power(p + 1);
    lemma_pow2_unfold(p + 1);
    let h = F32::power(p + 1);
    lemma_neg(h);
    lemma_add_between(a, b, -h, h);
    lemma_sub_between(a, b, -h, h);
    lemma_bounded_is_finite(a + b, h);
    lemma_bounded_is_finite(a - b, h);
}

/// A product fits the product of the bounds.
pub proof fn lemma_mul_fits(a: F32, b: F32, p: nat, q: nat)
    requires
        a.fits(p),
        b.fits(q),
        172 <= p + q <= 425,
    ensures
        (a * b).fits((p + q - 149) as nat),
{
    let r = (p + q - 149) as nat;
    lemma_power(r);
    lemma_pow2_adds(p, q);
    lemma_pow2_adds(r, 149);
    lemma_pow2_pos(p);
    lemma_pow2_pos(q);
    let h = F32::power(r);
    lemma_neg(h);
    let x = a.units();
    let y = b.units();
    let m = pow2(p) as int;
    let n = pow2(q) as int;
    assert(-(m * n) <= x * y <= m * n) by (nonlinear_arith)
        requires -m <= x <= m, -n <= y <= n;
    assert((-h.units()) * one_units() == -(h.units() * one_units())) by (nonlinear_arith);
    lemma_mul_between(a, b, -h, h);
    lemma_bounded_is_finite(a * b, h);
}

/// Turning the sign keeps the bound.
pub proof fn lemma_neg_fits(a: F32, p: nat)
    requires
        a.fits(p),
    ensures
        (-a).fits(p),
{
    lemma_neg(a);
}

/// Small whole numbers.
pub proof fn lemma_whole_fits(n: int, e: nat)
    requires
        0 <= n <= pow2(e),
        e <= 24,
    ensures
        F32::whole(n).fits(149 + e),
{
    lemma2_to64();
    lemma_pow2_order(e, 24);
    lemma_whole(n);
    lemma_pow2_adds(149, e);
    lemma_pow2_pos(149);
    assert(0 <= n * one_units() <= pow2(e) * one_units()) by (nonlinear_arith)
        requires 0 <= n <= pow2(e), one_units() > 0;
    assert(pow2(149) * pow2(e) == pow2(e) * pow2(149)) by (nonlinear_arith);
}

} // verus!
