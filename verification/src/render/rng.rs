//! A small pseudo-random generator.

use crate::float::laws::{lemma_div_sign, lemma_one, lemma_quotient_number};
use crate::float::repr::lemma_mag_units_order;
use crate::float::F32;
use vstd::prelude::*;

verus! {

/// The state after `x`: xorshift with the shifts 13, 17 and 5.
pub open spec fn shuffled(x: u32) -> u32 {
    let a = x ^ (x << 13u32);
    let b = a ^ (a >> 17u32);
    b ^ (b << 5u32)
}

/// The largest number below one.
pub open spec fn below_one() -> F32 {
    F32 { bits: 0x3F7F_FFFF }
}

/// A state as a number from zero up to, but not including, one.
pub open spec fn fraction(x: u32) -> F32 {
    (F32::whole(x as int) / F32::whole(0xFFFF_FFFF)).smaller(below_one())
}

/// The state of the generator.
pub struct Rng {
    state: u32,
}

impl Rng {
    /// The state.
    pub closed spec fn at(self) -> u32 {
        self.state
    }

    /// A generator that starts from `seed`.
    pub fn new(seed: u32) -> (r: Rng)
        ensures
            r.at() == seed,
    {
        Rng { state: seed }
    }

    /// The next number, from zero up to, but not including, one.
    pub fn rand(&mut self) -> (r: F32)
        ensures
            final(self).at() == shuffled(old(self).at()),
            r == fraction(final(self).at()),
    {
        let x: u32 = self.state;
        let a: u32 = x ^ (x << 13u32);
        let b: u32 = a ^ (a >> 17u32);
        let c: u32 = b ^ (b << 5u32);
        self.state = c;
        (F32::from_int(c as u64) / F32::from_int(0xFFFF_FFFF)).min(F32 { bits: 0x3F7F_FFFF })
    }
}

/// A generator that does not start at zero never gets there.
pub proof fn law_state_is_never_zero(x: u32)
    requires
        x != 0,
    ensures
        shuffled(x) != 0,
{
    assert(x != 0 ==> {
        let a = x ^ (x << 13u32);
        let b = a ^ (a >> 17u32);
        b ^ (b << 5u32) != 0
    }) by (bit_vector);
}

/// No two states are followed by the same state: the generator forgets nothing.
pub proof fn law_states_stay_apart(x: u32, y: u32)
    requires
        shuffled(x) == shuffled(y),
    ensures
        x == y,
{
    let d: u32 = x ^ y;
    assert(shuffled(x) == shuffled(y) ==> shuffled(x ^ y) == 0) by (bit_vector);
    assert(d != 0 || x == y) by (bit_vector)
        requires d == x ^ y;
    if d != 0 {
        law_state_is_never_zero(d);
    }
}

/// The numbers are not negative and below one.
pub proof fn law_fraction_is_below_one(x: u32)
    ensures
        F32::nought().le(fraction(x)),
        fraction(x).lt(F32::unit()),
        fraction(x).finite(),
{
    lemma_one();
    lemma_quotient_number(x as int, 1);
    lemma_quotient_number(0xFFFF_FFFF, 1);
    let a = F32::whole(x as int);
    let b = F32::whole(0xFFFF_FFFF);
    lemma_div_sign(a, b);
    lemma_mag_units_order(0x3F7F_FFFF, 0x3F80_0000);
    lemma_mag_units_order(0, 0x3F7F_FFFF);
    lemma_mag_units_order(0x3F7F_FFFF, fraction(x).mag());
}

} // verus!
