//! How long what drifts outwards in the tunnel stays on the screen.

use super::levels::Drive;
use super::tunnel::{
    grown, growth, lemma_growth, ring_birth, ring_death, spread, star_growth, star_near, RingView, Star,
};
use crate::dsp::is_part;
use crate::float::laws::{
    lemma_binary_fraction, lemma_bounded_is_finite_between, lemma_mul_between, lemma_mul_unsigned, lemma_one,
    lemma_quotient_between, lemma_whole, one_units,
};
use crate::float::repr::lemma_mag_units_order;
use crate::float::F32;
use vstd::arithmetic::power2::{lemma2_to64, lemma_pow2_pos, lemma_pow2_unfold, pow2};
use vstd::prelude::*;

verus! {

/// A milestone on the way out, in parts of two to the fourteenth: the first is a
/// sixty-fourth, 256 further on it has doubled, and in between they are evenly spaced.
pub open spec fn milestone(n: int) -> int {
    (256 + n % 256) * pow2((n / 256) as nat)
}

/// A number has reached a milestone.
pub open spec fn reached(x: F32, n: int) -> bool {
    pow2(14) * x.units() >= milestone(n) * one_units()
}

/// A drive whose numbers all lie from zero to one.
pub open spec fn is_drive(d: Drive) -> bool {
    is_part(d.bass) && is_part(d.punch) && is_part(d.gate)
}

/// The milestones that the laws below start from and end at.
proof fn lemma_milestone_at(n: int, m: int)
    requires
        (n == 0 && m == 256) || (n == 409 && m == 818) || (n == 1716 && m == 27904) || (n == 1754 && m == 30336),
    ensures
        milestone(n) == m,
        milestone(n) * one_units() == m * one_units(),
{
    lemma2_to64();
    let i = n % 256;
    let p = pow2((n / 256) as nat) as int;
    assert((256 + i) * p == m) by (nonlinear_arith)
        requires
            (i == 0 && p == 1 && m == 256) || (i == 153 && p == 2 && m == 818) || (i == 180 && p == 64 && m == 27904)
                || (i == 218 && p == 64 && m == 30336),
    ;
}

/// Milestones are small, and the next one is nearer than a 256th of the way.
proof fn lemma_milestone(n: int)
    requires
        0 <= n < 2048,
    ensures
        256 * milestone(n + 1) <= 257 * milestone(n),
        0 < milestone(n + 1) <= 0x1_0000,
{
    lemma2_to64();
    let k = n / 256;
    let p = pow2(k as nat) as int;
    lemma_pow2_pos(k as nat);
    assert(p <= 128);
    if n % 256 == 255 {
        lemma_pow2_unfold((k + 1) as nat);
        assert((n + 1) / 256 == k + 1 && (n + 1) % 256 == 0);
    } else {
        assert((n + 1) / 256 == k && (n + 1) % 256 == n % 256 + 1);
    }
    let i = n % 256;
    assert(256 * ((256 + i + 1) * p) <= 257 * ((256 + i) * p)) by (nonlinear_arith)
        requires i >= 0, p > 0;
    assert(0 < (256 + i + 1) * p <= 0x1_0000) by (nonlinear_arith)
        requires 0 <= i < 256, 0 < p <= 128;
    assert(256 * (2 * p) == (256 + 255 + 1) * p) by (nonlinear_arith);
}

/// What grows by at least a 256th reaches the next milestone.
proof fn lemma_next_milestone(x: F32, g: F32, n: int)
    requires
        0 <= n < 2048,
        x.within(F32::nought(), F32::whole(2)),
        g.within(F32::quotient(257, 256), F32::whole(5)),
        reached(x, n),
    ensures
        reached(x * g, n + 1),
        (x * g).within(F32::nought(), F32::whole(10)),
{
    lemma_one();
    lemma2_to64();
    lemma_whole(2);
    lemma_whole(5);
    lemma_whole(10);
    lemma_milestone(n);
    lemma_binary_fraction(257, 8);
    lemma_bounded_is_finite_between(x, F32::nought(), F32::whole(2));
    lemma_bounded_is_finite_between(g, F32::quotient(257, 256), F32::whole(5));
    let k = milestone(n + 1);
    lemma_binary_fraction(k, 14);
    let low = F32::quotient(k, 0x4000);
    let w = one_units();
    let l = low.units();
    let a = x.units();
    let b = g.units();
    let m = milestone(n);
    assert(l * w <= a * b) by (nonlinear_arith)
        requires
            0x4000 * l == k * w,
            256 * k <= 257 * m,
            0x4000 * a >= m * w,
            256 * b >= 257 * w,
            w > 0,
            a >= 0,
            m >= 0,
    {
        assert(0x4000 * 256 * (l * w) == 256 * k * (w * w));
        assert(256 * k * (w * w) <= 257 * m * (w * w));
        assert(257 * m * (w * w) == 257 * w * (m * w));
        assert(257 * w * (m * w) <= 257 * w * (0x4000 * a));
        assert(257 * w * (0x4000 * a) <= 256 * b * (0x4000 * a));
    }
    assert(a * b <= (10 * w) * w) by (nonlinear_arith)
        requires 0 <= a <= 2 * w, 0 <= b <= 5 * w, w > 0;
    lemma_mul_between(x, g, low, F32::whole(10));
    assert(l >= 0) by (nonlinear_arith)
        requires 0x4000 * l == k * w, k > 0, w > 0;
}

/// A ring after the first `n` of some frames.
pub open spec fn aged(r: RingView, drives: Seq<Drive>, n: int) -> RingView
    decreases n,
{
    if n <= 0 {
        r
    } else {
        grown(aged(r, drives, n - 1), drives[n - 1])
    }
}

/// A ring passes a milestone in every frame in which it is on the screen.
proof fn lemma_aged(r: RingView, drives: Seq<Drive>, n: int)
    requires
        0 <= n <= 1345,
        n <= drives.len(),
        forall|i: int| 0 <= i < drives.len() ==> is_drive(#[trigger] drives[i]),
        r.scale.within(ring_birth(), ring_death()),
        forall|i: int| 0 <= i < n ==> (#[trigger] aged(r, drives, i)).scale.lt(ring_death()),
    ensures
        reached(aged(r, drives, n).scale, 409 + n),
        aged(r, drives, n).scale.within(F32::nought(), F32::whole(10)),
    decreases n,
{
    lemma_one();
    lemma2_to64();
    lemma_whole(2);
    lemma_whole(10);
    lemma_quotient_between(185, 100, F32::nought(), F32::whole(2));
    if n == 0 {
        lemma_binary_fraction(818, 14);
        lemma_milestone_at(409, 818);
        let w = one_units();
        let low = F32::quotient(818, 0x4000);
        assert(low.units() * 100 <= 5 * w) by (nonlinear_arith)
            requires 0x4000 * low.units() == 818 * w, w > 0;
        lemma_quotient_between(5, 100, low, F32::whole(2));
    } else {
        lemma_aged(r, drives, n - 1);
        let before = aged(r, drives, n - 1);
        assert(before.scale.lt(ring_death()));
        assert(is_drive(drives[n - 1]));
        lemma_growth(drives[n - 1]);
        lemma_next_milestone(before.scale, growth(drives[n - 1]), 409 + n - 1);
    }
}

/// A ring leaves the screen after at most 1345 frames, whether there is music or not.
pub proof fn law_rings_leave(r: RingView, drives: Seq<Drive>)
    requires
        r.scale.within(ring_birth(), ring_death()),
        drives.len() >= 1345,
        forall|i: int| 0 <= i < drives.len() ==> is_drive(#[trigger] drives[i]),
    ensures
        exists|i: int| 0 <= i <= 1345 && !(#[trigger] aged(r, drives, i)).scale.lt(ring_death()),
{
    if forall|i: int| 0 <= i <= 1345 ==> (#[trigger] aged(r, drives, i)).scale.lt(ring_death()) {
        lemma_aged(r, drives, 1345);
        lemma_one();
        lemma2_to64();
        lemma_binary_fraction(30336, 14);
        let w = one_units();
        let high = F32::quotient(30336, 0x4000);
        assert(0 * 100 <= 185 * w <= high.units() * 100) by (nonlinear_arith)
            requires 0x4000 * high.units() == 30336 * w, w > 0;
        lemma_quotient_between(185, 100, F32::nought(), high);
        lemma_milestone_at(1754, 30336);
        assert(aged(r, drives, 1345).scale.lt(ring_death()));
    }
}

/// A star after the first `n` of some frames.
pub open spec fn strayed(s: Star, drives: Seq<Drive>, n: int) -> Star
    decreases n,
{
    if n <= 0 {
        s
    } else {
        spread(strayed(s, drives, n - 1), drives[n - 1])
    }
}

/// A star's coordinates pass a milestone in every frame in which the star is near.
proof fn lemma_strayed(s: Star, drives: Seq<Drive>, n: int)
    requires
        0 <= n <= 1716,
        n <= drives.len(),
        forall|i: int| 0 <= i < drives.len() ==> is_drive(#[trigger] drives[i]),
        forall|i: int| 0 <= i < n ==> star_near(#[trigger] strayed(s, drives, i)),
        s.x.finite(),
        s.y.finite(),
    ensures
        F32::quotient(1, 64).le(s.x.unsigned()) ==> reached(strayed(s, drives, n).x.unsigned(), n),
        F32::quotient(1, 64).le(s.y.unsigned()) ==> reached(strayed(s, drives, n).y.unsigned(), n),
    decreases n,
{
    lemma_one();
    lemma2_to64();
    if n == 0 {
        lemma_binary_fraction(1, 6);
        lemma_milestone_at(0, 256);
    } else {
        lemma_strayed(s, drives, n - 1);
        let before = strayed(s, drives, n - 1);
        assert(star_near(before));
        assert(is_drive(drives[n - 1]));
        lemma_growth(drives[n - 1]);
        let g = star_growth(drives[n - 1]);
        if F32::quotient(1, 64).le(s.x.unsigned()) {
            lemma_coordinate(before.x, g, n - 1);
        }
        if F32::quotient(1, 64).le(s.y.unsigned()) {
            lemma_coordinate(before.y, g, n - 1);
        }
    }
}

/// A coordinate that is still near reaches the next milestone.
proof fn lemma_coordinate(x: F32, g: F32, n: int)
    requires
        0 <= n < 2048,
        x.unsigned().lt(F32::quotient(17, 10)),
        g.within(F32::quotient(257, 256), F32::whole(5)),
        reached(x.unsigned(), n),
    ensures
        reached((x * g).unsigned(), n + 1),
{
    lemma_one();
    lemma2_to64();
    lemma_whole(2);
    lemma_whole(5);
    lemma_binary_fraction(257, 8);
    lemma_bounded_is_finite_between(g, F32::quotient(257, 256), F32::whole(5));
    lemma_quotient_between(17, 10, F32::nought(), F32::whole(2));
    lemma_mag_units_order(0, x.mag());
    lemma_bounded_is_finite_between(x.unsigned(), F32::nought(), F32::whole(2));
    lemma_mul_unsigned(x, g);
    lemma_next_milestone(x.unsigned(), g, n);
}

/// A star that is at least a sixty-fourth away from the centre leaves the screen after
/// at most 1716 frames, whether there is music or not.
pub proof fn law_stars_leave(s: Star, drives: Seq<Drive>)
    requires
        s.x.finite(),
        s.y.finite(),
        F32::quotient(1, 64).le(s.x.unsigned()) || F32::quotient(1, 64).le(s.y.unsigned()),
        drives.len() >= 1716,
        forall|i: int| 0 <= i < drives.len() ==> is_drive(#[trigger] drives[i]),
    ensures
        exists|i: int| 0 <= i <= 1716 && !star_near(#[trigger] strayed(s, drives, i)),
{
    if forall|i: int| 0 <= i <= 1716 ==> star_near(#[trigger] strayed(s, drives, i)) {
        lemma_strayed(s, drives, 1716);
        lemma_one();
        lemma2_to64();
        lemma_binary_fraction(27904, 14);
        let w = one_units();
        let high = F32::quotient(27904, 0x4000);
        assert(0 * 10 <= 17 * w <= high.units() * 10) by (nonlinear_arith)
            requires 0x4000 * high.units() == 27904 * w, w > 0;
        lemma_quotient_between(17, 10, F32::nought(), high);
        lemma_milestone_at(1716, 27904);
        assert(star_near(strayed(s, drives, 1716)));
    }
}

} // verus!
