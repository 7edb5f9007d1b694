//! Natural numbers of any size, as far as exact comparisons of powers need them.

use vstd::arithmetic::power::{lemma_pow0, lemma_pow1, lemma_pow_adds, pow};
use vstd::arithmetic::power2::{lemma2_to64, lemma_pow2_adds, lemma_pow2_pos, pow2};
use vstd::prelude::*;

verus! {

/// A natural number in base 2 to the 32, least significant digit first.
pub struct Natural {
    digits: Vec<u32>,
}

/// The weight of the digit at `i`.
spec fn weight(i: nat) -> int {
    pow2(32 * i) as int
}

/// What the lowest `n` digits stand for; digits beyond the end are zero.
spec fn low_value(s: Seq<u32>, n: nat) -> int
    decreases n,
{
    if n == 0 {
        0
    } else {
        low_value(s, (n - 1) as nat) + digit(s, n - 1) * weight((n - 1) as nat)
    }
}

spec fn digit(s: Seq<u32>, i: int) -> int {
    if 0 <= i < s.len() {
        s[i] as int
    } else {
        0
    }
}

proof fn lemma_weight(i: nat)
    ensures
        weight(0) == 1,
        weight(i) > 0,
        weight(i + 1) == 0x1_0000_0000 * weight(i),
{
    lemma2_to64();
    lemma_pow2_pos(32 * i);
    lemma_pow2_adds(32, 32 * i);
    assert(32 * (i + 1) == 32 + 32 * i);
}

proof fn lemma_low_value_bound(s: Seq<u32>, n: nat)
    ensures
        0 <= low_value(s, n) < weight(n),
    decreases n,
{
    lemma_weight(n);
    if n > 0 {
        let m = (n - 1) as nat;
        lemma_low_value_bound(s, m);
        lemma_weight(m);
        let d = digit(s, m as int);
        let w = weight(m);
        assert(0 <= d * w <= 0xFFFF_FFFF * w) by (nonlinear_arith)
            requires 0 <= d <= 0xFFFF_FFFF, w > 0;
    }
}

proof fn lemma_low_value_same(s: Seq<u32>, t: Seq<u32>, n: nat)
    requires
        forall|i: int| 0 <= i < n ==> digit(s, i) == digit(t, i),
    ensures
        low_value(s, n) == low_value(t, n),
    decreases n,
{
    if n > 0 {
        lemma_low_value_same(s, t, (n - 1) as nat);
        assert(digit(s, n - 1) == digit(t, n - 1));
    }
}

proof fn lemma_low_value_beyond(s: Seq<u32>, n: nat)
    requires
        n >= s.len(),
    ensures
        low_value(s, n) == low_value(s, s.len()),
    decreases n,
{
    if n > s.len() {
        lemma_low_value_beyond(s, (n - 1) as nat);
        assert(0 * weight((n - 1) as nat) == 0);
    }
}

impl View for Natural {
    type V = int;

    closed spec fn view(&self) -> int {
        low_value(self.digits@, self.digits@.len())
    }
}

impl Natural {
    /// A number of one digit.
    pub fn new(n: u32) -> (r: Natural)
        ensures
            r@ == n,
    {
        let mut digits: Vec<u32> = Vec::new();
        digits.push(n);
        proof {
            lemma_weight(0);
            assert(low_value(digits@, 0) == 0);
            assert(n * weight(0) == n) by (nonlinear_arith)
                requires weight(0) == 1;
            assert(low_value(digits@, 1) == n);
        }
        Natural { digits }
    }

    /// The same number again.
    pub fn copied(&self) -> (r: Natural)
        ensures
            r@ == self@,
    {
        let mut digits: Vec<u32> = Vec::new();
        let mut i: usize = 0;
        while i < self.digits.len()
            invariant
                i <= self.digits.len(),
                digits@ =~= self.digits@.subrange(0, i as int),
            decreases self.digits.len() - i,
        {
            digits.push(self.digits[i]);
            i = i + 1;
        }
        assert(digits@ =~= self.digits@);
        Natural { digits }
    }

    /// Multiplies by a number of one digit.
    pub fn scale(&mut self, k: u32)
        ensures
            final(self)@ == old(self)@ * k,
    {
        let ghost s = self.digits@;
        let mut carry: u64 = 0;
        let mut i: usize = 0;
        proof {
            assert(0 * weight(0) == 0);
        }
        while i < self.digits.len()
            invariant
                i <= self.digits.len(),
                self.digits.len() == s.len(),
                carry <= 0xFFFF_FFFF,
                forall|j: int| i <= j < s.len() ==> self.digits@[j] == s[j],
                low_value(self.digits@, i as nat) + carry * weight(i as nat) == k * low_value(s, i as nat),
            decreases self.digits.len() - i,
        {
            let d = self.digits[i];
            let ghost before = self.digits@;
            assert(d * k <= 0xFFFF_FFFF * 0xFFFF_FFFF) by (nonlinear_arith)
                requires 0 <= d <= 0xFFFF_FFFF, 0 <= k <= 0xFFFF_FFFF;
            let x: u64 = d as u64 * k as u64 + carry;
            let low: u32 = (x % 0x1_0000_0000) as u32;
            let ghost was = carry as int;
            carry = x / 0x1_0000_0000;
            self.digits.set(i, low);
            proof {
                let n = i as nat;
                lemma_weight(n);
                lemma_low_value_same(before, self.digits@, n);
                let w = weight(n);
                let a = low_value(before, n);
                let b = low_value(s, n);
                assert(a + low * w + carry * (0x1_0000_0000 * w) == k * (b + d * w)) by (nonlinear_arith)
                    requires
                        a + was * w == k * b,
                        d * k + was == carry * 0x1_0000_0000 + low,
                ;
            }
            i = i + 1;
        }
        proof {
            lemma_low_value_bound(self.digits@, self.digits@.len());
        }
        if carry > 0 {
            let ghost before = self.digits@;
            self.digits.push(carry as u32);
            proof {
                lemma_low_value_same(before, self.digits@, before.len());
            }
        }
        proof {
            let v = low_value(s, s.len());
            assert(v * k == k * v) by (nonlinear_arith);
            assert(0 * weight(s.len()) == 0);
        }
    }

    /// Multiplies `times` times by a number of one digit.
    pub fn scale_power(&mut self, k: u32, times: u32)
        ensures
            final(self)@ == old(self)@ * pow(k as int, times as nat),
    {
        let ghost start = self@;
        let mut i: u32 = 0;
        proof {
            lemma_pow0(k as int);
            assert(start * 1 == start);
        }
        while i < times
            invariant
                i <= times,
                self@ == start * pow(k as int, i as nat),
            decreases times - i,
        {
            proof {
                lemma_pow_adds(k as int, i as nat, 1);
                lemma_pow1(k as int);
                let p = pow(k as int, i as nat);
                assert((start * p) * k == start * (p * k)) by (nonlinear_arith);
            }
            self.scale(k);
            i = i + 1;
        }
    }

    fn digit_at(&self, i: usize) -> (r: u32)
        ensures
            r == digit(self.digits@, i as int),
    {
        if i < self.digits.len() {
            self.digits[i]
        } else {
            0
        }
    }

    /// Whether this number is at most `other`.
    pub fn at_most(&self, other: &Natural) -> (r: bool)
        ensures
            r == (self@ <= other@),
    {
        let ghost a = self.digits@;
        let ghost b = other.digits@;
        let mut i: usize = if self.digits.len() < other.digits.len() {
            other.digits.len()
        } else {
            self.digits.len()
        };
        proof {
            lemma_low_value_beyond(a, i as nat);
            lemma_low_value_beyond(b, i as nat);
        }
        while i > 0
            invariant
                a == self.digits@,
                b == other.digits@,
                self@ - other@ == low_value(a, i as nat) - low_value(b, i as nat),
            decreases i,
        {
            i = i - 1;
            let x = self.digit_at(i);
            let y = other.digit_at(i);
            proof {
                lemma_low_value_bound(a, i as nat);
                lemma_low_value_bound(b, i as nat);
                let w = weight(i as nat);
                lemma_weight(i as nat);
                assert(x < y ==> x * w + w <= y * w) by (nonlinear_arith)
                    requires w > 0;
                assert(y < x ==> y * w + w <= x * w) by (nonlinear_arith)
                    requires w > 0;
            }
            if x != y {
                return x < y;
            }
        }
        true
    }
}

} // verus!
