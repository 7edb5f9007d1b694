//! The veil and the bars.

use super::paint::{clamp_part, part_of, Palette, Vertex};
use crate::bands::NUM_BANDS;
use crate::dsp::{lemma_part_is_finite, SpectrumFrame};
use crate::float::laws::{
    lemma_add_between, lemma_add_order, lemma_bounded_is_finite, lemma_mul_between, lemma_mul_order, lemma_neg,
    lemma_one, lemma_whole, one_units,
};
use crate::float::F32;
use core::ops::Neg;
use vstd::prelude::*;

verus! {

/// A black corner of the veil.
pub open spec fn veil_corner(x: F32, y: F32, alpha: F32) -> Vertex {
    Vertex { x, y, r: F32::nought(), g: F32::nought(), b: F32::nought(), a: alpha }
}

/// A black rectangle over the whole screen, as two triangles.
pub open spec fn fade_quad(alpha: F32) -> Seq<Vertex> {
    let l = -F32::unit();
    let h = F32::unit();
    seq![
        veil_corner(l, l, alpha),
        veil_corner(h, l, alpha),
        veil_corner(h, h, alpha),
        veil_corner(l, l, alpha),
        veil_corner(h, h, alpha),
        veil_corner(l, h, alpha),
    ]
}

/// The veil that lets the previous frame fade.
pub fn build_fade_quad(alpha: F32) -> (r: Vec<Vertex>)
    ensures
        r@ == fade_quad(alpha),
{
    let o = F32::zero();
    let l = F32::one().neg();
    let h = F32::one();
    let mut r: Vec<Vertex> = Vec::new();
    r.push(Vertex { x: l, y: l, r: o, g: o, b: o, a: alpha });
    r.push(Vertex { x: h, y: l, r: o, g: o, b: o, a: alpha });
    r.push(Vertex { x: h, y: h, r: o, g: o, b: o, a: alpha });
    r.push(Vertex { x: l, y: l, r: o, g: o, b: o, a: alpha });
    r.push(Vertex { x: h, y: h, r: o, g: o, b: o, a: alpha });
    r.push(Vertex { x: l, y: h, r: o, g: o, b: o, a: alpha });
    assert(r@ =~= fade_quad(alpha));
    r
}

/// The opacity of the veil: what the blur leaves, and never less than 0.05.
pub open spec fn fade(blur: F32) -> F32 {
    (F32::unit() - blur).clamped(F32::quotient(5, 100), F32::unit())
}

/// How high a value reaches: from the lower edge of the screen to the upper.
pub open spec fn top(h: F32) -> F32 {
    -F32::unit() + F32::whole(2) * part_of(h)
}

pub(crate) fn top_of(h: F32) -> (r: F32)
    ensures
        r == top(h),
{
    F32::one().neg() + F32::from_int(2) * clamp_part(h)
}

/// One bar as two triangles: transparent at the base, opaque at the top.
pub open spec fn bar(x_l: F32, x_r: F32, h: F32, p: Palette) -> Seq<Vertex> {
    let y_b = -F32::unit();
    let y_t = top(h);
    let o = F32::nought();
    let u = F32::unit();
    seq![
        Vertex::at(x_l, y_b, p.color_a, o),
        Vertex::at(x_r, y_b, p.color_a, o),
        Vertex::at(x_r, y_t, p.color_b, u),
        Vertex::at(x_l, y_b, p.color_a, o),
        Vertex::at(x_r, y_t, p.color_b, u),
        Vertex::at(x_l, y_t, p.color_b, u),
    ]
}

fn push_bar(v: &mut Vec<Vertex>, x_l: F32, x_r: F32, h: F32, p: &Palette)
    ensures
        final(v)@ == old(v)@ + bar(x_l, x_r, h, *p),
{
    let y_b = F32::one().neg();
    let y_t = top_of(h);
    let o = F32::zero();
    let u = F32::one();
    v.push(Vertex::new(x_l, y_b, p.color_a, o));
    v.push(Vertex::new(x_r, y_b, p.color_a, o));
    v.push(Vertex::new(x_r, y_t, p.color_b, u));
    v.push(Vertex::new(x_l, y_b, p.color_a, o));
    v.push(Vertex::new(x_r, y_t, p.color_b, u));
    v.push(Vertex::new(x_l, y_t, p.color_b, u));
    assert(v@ =~= old(v)@ + bar(x_l, x_r, h, *p));
}

/// The width of the slot of a bar.
pub open spec fn slot() -> F32 {
    F32::unit() / F32::whole(NUM_BANDS as int)
}

/// The gap on either side of a bar.
pub open spec fn gap() -> F32 {
    slot() * F32::quotient(12, 100)
}

/// The inner edge of the right bar of band `i`.
pub open spec fn bar_from(i: int) -> F32 {
    F32::whole(i) * slot() + gap()
}

/// The outer edge of the right bar of band `i`.
pub open spec fn bar_to(i: int) -> F32 {
    (F32::whole(i) + F32::unit()) * slot() - gap()
}

/// The right bar of a band.
pub open spec fn right_bar(right: Seq<F32>, i: int, p: Palette) -> Seq<Vertex> {
    bar(bar_from(i), bar_to(i), right[i], p)
}

/// The left bar of a band.
pub open spec fn left_bar(left: Seq<F32>, i: int, p: Palette) -> Seq<Vertex> {
    bar(-bar_to(i), -bar_from(i), left[i], p)
}

/// The bars of the first `n` bands.
pub open spec fn bars(left: Seq<F32>, right: Seq<F32>, n: int, p: Palette) -> Seq<Vertex>
    decreases n,
{
    if n <= 0 {
        Seq::empty()
    } else {
        bars(left, right, n - 1, p) + right_bar(right, n - 1, p) + left_bar(left, n - 1, p)
    }
}

/// Mirrored bars: the low frequencies in the middle, the left channel on the left.
pub fn build_bar_vertices(left: &SpectrumFrame, right: &SpectrumFrame, palette: &Palette) -> (v: Vec<Vertex>)
    ensures
        v@ == bars(left@, right@, NUM_BANDS as int, *palette),
{
    let mut v: Vec<Vertex> = Vec::new();
    let slot = F32::one() / F32::from_int(NUM_BANDS as u64);
    let gap = slot * F32::ratio(12, 100);
    assert(v@ =~= bars(left@, right@, 0, *palette));
    let mut i: usize = 0;
    while i < NUM_BANDS
        invariant
            i <= NUM_BANDS,
            slot == self::slot(),
            gap == self::gap(),
            v@ == bars(left@, right@, i as int, *palette),
        decreases NUM_BANDS - i,
    {
        let from = F32::from_int(i as u64) * slot + gap;
        let to = (F32::from_int(i as u64) + F32::one()) * slot - gap;
        push_bar(&mut v, from, to, right[i], palette);
        push_bar(&mut v, to.neg(), from.neg(), left[i], palette);
        i = i + 1;
    }
    v
}

/// A value reaches no further than the edges of the screen.
pub proof fn law_top_is_on_screen(h: F32)
    requires
        !h.nan(),
    ensures
        top(h).within(-F32::unit(), F32::unit()),
{
    lemma_one();
    lemma_whole(2);
    lemma_neg(F32::unit());
    let x = part_of(h);
    lemma_part_is_finite(x);
    let two = F32::whole(2);
    let w = one_units();
    let u = x.units();
    assert(0 * w <= (2 * w) * u <= (2 * w) * w) by (nonlinear_arith)
        requires 0 <= u <= w;
    lemma_mul_between(two, x, F32::nought(), two);
    let y = two * x;
    lemma_bounded_is_finite(y, two);
    lemma_add_between(-F32::unit(), y, -F32::unit(), F32::unit());
}

/// A higher value reaches at least as high.
pub proof fn law_louder_is_taller(h: F32, k: F32)
    requires
        h.le(k),
    ensures
        top(h).le(top(k)),
{
    lemma_one();
    lemma_whole(2);
    lemma_neg(F32::unit());
    let x = part_of(h);
    let y = part_of(k);
    lemma_part_is_finite(x);
    lemma_part_is_finite(y);
    let two = F32::whole(2);
    let w = one_units();
    let (a, b) = (x.units(), y.units());
    assert(0 * w <= (2 * w) * a <= (2 * w) * b <= (2 * w) * w) by (nonlinear_arith)
        requires 0 <= a <= b <= w;
    lemma_mul_between(two, x, F32::nought(), two);
    lemma_mul_between(two, y, F32::nought(), two);
    lemma_bounded_is_finite(two * x, two);
    lemma_bounded_is_finite(two * y, two);
    lemma_mul_order(two, x, two, y);
    lemma_add_order(-F32::unit(), two * x, -F32::unit(), two * y);
}

/// Where the bars of band `i` stand among the vertices.
proof fn lemma_bars_at(left: Seq<F32>, right: Seq<F32>, n: int, p: Palette, i: int, j: int)
    requires
        0 <= i < n,
        0 <= j < 6,
    ensures
        bars(left, right, n, p).len() == 12 * n,
        bars(left, right, n, p)[12 * i + j] == right_bar(right, i, p)[j],
        bars(left, right, n, p)[12 * i + 6 + j] == left_bar(left, i, p)[j],
    decreases n,
{
    if n > 1 {
        lemma_bars_at(left, right, n - 1, p, if i < n - 1 { i } else { 0 }, j);
    } else {
        assert(bars(left, right, 0, p).len() == 0);
    }
}

/// The bars stay on the screen, from its lower edge to its upper.
pub proof fn law_bars_are_on_screen(left: Seq<F32>, right: Seq<F32>, n: int, p: Palette)
    requires
        0 <= n <= left.len(),
        n <= right.len(),
        forall|i: int| 0 <= i < n ==> !(#[trigger] left[i]).nan(),
        forall|i: int| 0 <= i < n ==> !(#[trigger] right[i]).nan(),
    ensures
        forall|j: int|
            0 <= j < bars(left, right, n, p).len() ==> (#[trigger] bars(left, right, n, p)[j]).y.within(
                -F32::unit(),
                F32::unit(),
            ),
    decreases n,
{
    if n > 0 {
        law_bars_are_on_screen(left, right, n - 1, p);
        law_top_is_on_screen(left[n - 1]);
        law_top_is_on_screen(right[n - 1]);
        lemma_one();
        lemma_neg(F32::unit());
        let before = bars(left, right, n - 1, p);
        let r = right_bar(right, n - 1, p);
        let l = left_bar(left, n - 1, p);
        let all = bars(left, right, n, p);
        assert forall|j: int| 0 <= j < all.len() implies (#[trigger] all[j]).y.within(-F32::unit(), F32::unit()) by {
            if j < before.len() {
                assert(all[j] == before[j]);
            } else if j < before.len() + 6 {
                assert(all[j] == r[j - before.len()]);
            } else {
                assert(all[j] == l[j - before.len() - 6]);
            }
        }
    }
}

/// The vertex of a bar that its mirror image takes the place of.
pub open spec fn mirror_of(j: int) -> int {
    if j == 0 || j == 3 {
        1
    } else if j == 1 {
        0
    } else if j == 5 {
        2
    } else {
        5
    }
}

/// Equal channels give a mirrored picture: every vertex of a left bar lies opposite
/// to one of the right bar of the same band, in the same colour.
pub proof fn law_equal_channels_mirror(frame: Seq<F32>, n: int, p: Palette, i: int, j: int)
    requires
        0 <= i < n,
        0 <= j < 6,
    ensures
        ({
            let all = bars(frame, frame, n, p);
            let l = all[12 * i + 6 + j];
            let r = all[12 * i + mirror_of(j)];
            l == Vertex { x: -r.x, ..r }
        }),
{
    lemma_bars_at(frame, frame, n, p, i, j);
    lemma_bars_at(frame, frame, n, p, i, mirror_of(j));
}

} // verus!
