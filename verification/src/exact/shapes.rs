//! Bars and spokes: one for each band, as long as the band is loud.

use crate::bands::NUM_BANDS;
use crate::dsp::pi;
use crate::exact::paint::law_bands_are_evenly_placed;
use crate::exact::stereo::full_turn;
use crate::float::laws::{lemma_binary_fraction, lemma_div_between, lemma_one, lemma_same_value, lemma_whole, one_units};
use crate::float::value::{
    clip, close, lemma_close_add, lemma_close_div, lemma_close_mul, lemma_close_sub, lemma_constants, lemma_size_mul,
    lemma_value_binary, lemma_value_neg, lemma_value_order, lemma_value_part, lemma_value_quotient, lemma_value_whole,
    size,
};
use crate::float::F32;
use crate::render::paint::{part_of, ramp, Palette};
use crate::render::radial::{
    left_angle, polar, radial_inner, right_angle, round_angle, round_value, spoke, spoke_angle, spoke_half, spokes, tip,
    Turn,
};
use crate::render::shapes::{bar, bar_from, bar_to, bars, gap, left_bar, right_bar, slot, top};
use crate::stereo::quarter;
use vstd::arithmetic::power2::{lemma2_to64, pow2};
use vstd::prelude::*;

verus! {

/// The top of a bar: a band of nothing is at the lower edge, one of one at the upper.
pub proof fn law_top_is_the_level(h: F32)
    requires
        h.finite(),
    ensures
        close(top(h), -1real + 2real * clip(h.value(), 0real, 1real), 1real / 1000000real),
{
    lemma_constants();
    lemma_value_whole(2);
    lemma_value_part(h);
    let c = clip(h.value(), 0real, 1real);
    lemma_close_mul(F32::whole(2), part_of(h), 2real, c, 0real, 0real, 2real, 1real);
    lemma_close_add(-F32::unit(), F32::whole(2) * part_of(h), -1real, 2real * c, 0real, 2real / 10000000real);
}

/// The slot of a band is a sixty-fourth of half the screen.
proof fn lemma_slot()
    ensures
        slot().finite(),
        slot().value() == 1real / 64real,
        close(gap(), 12real / 6400real, 1real / 1000000000real),
{
    lemma_constants();
    lemma2_to64();
    lemma_one();
    lemma_whole(64);
    lemma_value_binary(1, 6);
    let q = F32::quotient(1, 64);
    lemma_binary_fraction(1, 6);
    let w = one_units();
    assert(q.units() * (64 * w) == w * w) by (nonlinear_arith)
        requires 64 * q.units() == 1 * w;
    lemma_div_between(F32::unit(), F32::whole(64), q, q);
    lemma_same_value(slot(), q);
    lemma_value_order(slot(), q);
    assert(pow2(6) == 64);
    assert(slot().value() == 1real / 64real);
    lemma_value_quotient(12, 100);
    lemma_close_mul(
        slot(),
        F32::quotient(12, 100),
        1real / 64real,
        12real / 100real,
        0real,
        1real / 100000000real,
        1real / 64real,
        12real / 100real,
    );
}

/// The bar of a band fills 76 hundredths of its slot, in the middle of it.
pub proof fn law_bar_stands_in_its_slot(i: int)
    requires
        0 <= i < NUM_BANDS,
    ensures
        close(bar_from(i), (i as real + 12real / 100real) / 64real, 1real / 1000000real),
        close(bar_to(i), (i as real + 88real / 100real) / 64real, 1real / 1000000real),
{
    lemma_constants();
    lemma_slot();
    lemma_value_whole(i);
    let x = i as real;
    let e = 1real / 1000000000real;
    lemma_close_mul(F32::whole(i), slot(), x, 1real / 64real, 0real, 0real, 64real, 1real / 64real);
    lemma_close_add(F32::whole(i) * slot(), gap(), x * (1real / 64real), 12real / 6400real, 1real / 10000000real, e);
    lemma_close_add(F32::whole(i), F32::unit(), x, 1real, 0real, 0real);
    let n = F32::whole(i) + F32::unit();
    lemma_close_mul(n, slot(), x + 1real, 1real / 64real, 4real / 1000000real, 0real, 65real, 1real / 64real);
    lemma_close_sub(
        n * slot(),
        gap(),
        (x + 1real) * (1real / 64real),
        12real / 6400real,
        2real / 10000000real,
        e,
    );
}

/// Every bar has its twelve vertices: six on the right, six on the left.
proof fn lemma_bars(left: Seq<F32>, right: Seq<F32>, n: int, p: Palette, i: int, k: int)
    requires
        0 <= i < n,
        0 <= k < 6,
    ensures
        bars(left, right, n, p).len() == 12 * n,
        bars(left, right, n, p)[12 * i + k] == right_bar(right, i, p)[k],
        bars(left, right, n, p)[12 * i + 6 + k] == left_bar(left, i, p)[k],
    decreases n,
{
    if n > 1 {
        lemma_bars(left, right, n - 1, p, if i < n - 1 { i } else { 0 }, k);
    } else {
        assert(bars(left, right, 0, p).len() == 0);
    }
    let before = bars(left, right, n - 1, p);
    let a = right_bar(right, n - 1, p);
    let b = left_bar(left, n - 1, p);
    assert(before.len() == 12 * (n - 1));
    let now = before + a + b;
    if i == n - 1 {
        assert(now[12 * i + k] == a[k]);
        assert(now[12 * i + 6 + k] == b[k]);
    } else {
        assert(now[12 * i + k] == before[12 * i + k]);
        assert(now[12 * i + 6 + k] == before[12 * i + 6 + k]);
    }
}

/// The bars: band `i` of the right channel stands to the right of the middle, that of the
/// left channel mirrored to the left, low frequencies inside. Each goes from the lower
/// edge, in the first colour and transparent, up to its level, in the second and opaque.
pub proof fn law_bars_show_the_spectrum(left: Seq<F32>, right: Seq<F32>, p: Palette, i: int, k: int)
    requires
        0 <= i < NUM_BANDS,
        0 <= k < 12,
        left.len() == NUM_BANDS,
        right.len() == NUM_BANDS,
        left[i].finite(),
        right[i].finite(),
    ensures
        bars(left, right, NUM_BANDS as int, p).len() == 12 * NUM_BANDS,
        ({
            let v = bars(left, right, NUM_BANDS as int, p)[12 * i + k];
            let h = if k < 6 {
                right[i]
            } else {
                left[i]
            };
            let c = k % 6;
            let upper = c == 2 || c == 4 || c == 5;
            let second = c == 1 || c == 2 || c == 4;
            let near = (i as real + 12real / 100real) / 64real;
            let far = (i as real + 88real / 100real) / 64real;
            let x = if k < 6 {
                if second {
                    far
                } else {
                    near
                }
            } else {
                if second {
                    -near
                } else {
                    -far
                }
            };
            &&& close(v.x, x, 1real / 1000000real)
            &&& close(
                v.y,
                if upper {
                    -1real + 2real * clip(h.value(), 0real, 1real)
                } else {
                    -1real
                },
                1real / 1000000real,
            )
            &&& v.r == if upper { p.color_b.r } else { p.color_a.r }
            &&& v.g == if upper { p.color_b.g } else { p.color_a.g }
            &&& v.b == if upper { p.color_b.b } else { p.color_a.b }
            &&& v.a.value() == if upper { 1real } else { 0real }
        }),
{
    lemma_constants();
    lemma_bars(left, right, NUM_BANDS as int, p, i, k % 6);
    law_bar_stands_in_its_slot(i);
    law_top_is_the_level(left[i]);
    law_top_is_the_level(right[i]);
    lemma_value_neg(bar_from(i));
    lemma_value_neg(bar_to(i));
}

/// A spoke starts at 28 hundredths and reaches up to 62 further, as its band is loud.
pub proof fn law_tip_is_the_level(h: F32)
    requires
        h.finite(),
    ensures
        close(tip(h), 28real / 100real + clip(h.value(), 0real, 1real) * (62real / 100real), 1real / 1000000real),
        close(radial_inner(), 28real / 100real, 1real / 10000000real),
{
    lemma_constants();
    lemma_value_part(h);
    lemma_value_quotient(28, 100);
    lemma_value_quotient(62, 100);
    let c = clip(h.value(), 0real, 1real);
    let e = 1real / 10000000real;
    lemma_close_mul(part_of(h), F32::quotient(62, 100), c, 62real / 100real, 0real, e, 1real, 62real / 100real);
    lemma_close_add(
        F32::quotient(28, 100),
        part_of(h) * F32::quotient(62, 100),
        28real / 100real,
        c * (62real / 100real),
        e,
        2real * e,
    );
}

/// Half and quarter of a turn.
proof fn lemma_turns()
    ensures
        pi().finite(),
        quarter().finite(),
        pi().value() == full_turn() / 2real,
        quarter().value() == full_turn() / 4real,
{
    lemma2_to64();
    lemma_value_binary(13176795, 22);
    lemma_value_binary(13176795, 23);
    assert(pow2(22) == 4194304 && pow2(23) == 8388608);
    assert(pi() == F32::quotient(13176795, pow2(22) as int));
    assert(quarter() == F32::quotient(13176795, pow2(23) as int));
    assert(pi().value() == 13176795real / 4194304real);
    assert(quarter().value() == 13176795real / 8388608real);
}

/// The bands go round from the top: the right channel by the right, the left by the left,
/// low frequencies at the top and high ones at the bottom.
pub proof fn law_bands_go_round_both_sides(i: int)
    requires
        0 <= i < NUM_BANDS,
    ensures
        close(right_angle(i), full_turn() / 4real - (i as real / 63real) * (full_turn() / 2real), 1real / 100000real),
        close(left_angle(i), full_turn() / 4real + (i as real / 63real) * (full_turn() / 2real), 1real / 100000real),
{
    lemma_turns();
    law_bands_are_evenly_placed(i);
    let x = i as real / 63real;
    assert(0real <= x <= 1real);
    let h = full_turn() / 2real;
    lemma_close_mul(ramp(i), pi(), x, h, 1real / 10000000real, 0real, 1real, 32real / 10real);
    lemma_size_mul(x, h, 1real, 32real / 10real);
    lemma_close_sub(quarter(), ramp(i) * pi(), full_turn() / 4real, x * h, 0real, 1real / 1000000real);
    lemma_close_add(quarter(), ramp(i) * pi(), full_turn() / 4real, x * h, 0real, 1real / 1000000real);
}

/// A spoke is 80 hundredths of its share of half a turn wide.
pub proof fn law_spokes_share_the_round(k: int)
    requires
        0 <= k < 256,
    ensures
        ({
            let i = k / 4;
            let mid = if k % 4 < 2 {
                full_turn() / 4real - (i as real / 63real) * (full_turn() / 2real)
            } else {
                full_turn() / 4real + (i as real / 63real) * (full_turn() / 2real)
            };
            let half = (full_turn() / 2real) / 64real * (40real / 100real);
            close(
                spoke_angle(k),
                if k % 2 == 0 {
                    mid - half
                } else {
                    mid + half
                },
                1real / 50000real,
            )
        }),
{
    lemma_turns();
    lemma_constants();
    let i = k / 4;
    law_bands_go_round_both_sides(i);
    lemma_value_whole(64);
    lemma_value_quotient(40, 100);
    let h = full_turn() / 2real;
    lemma_close_div(pi(), F32::whole(64), h, 64real, 0real, 0real, 1real / 10real, 64real);
    lemma_close_mul(
        pi() / F32::whole(64),
        F32::quotient(40, 100),
        h / 64real,
        40real / 100real,
        1real / 100000000real,
        1real / 10000000real,
        1real / 10real,
        1real,
    );
    let half = h / 64real * (40real / 100real);
    let x = i as real / 63real;
    assert(0real <= x <= 1real);
    lemma_size_mul(x, h, 1real, 32real / 10real);
    let e = 1real / 100000real;
    let f = 1real / 1000000real;
    lemma_close_sub(right_angle(i), spoke_half(), full_turn() / 4real - x * h, half, e, f);
    lemma_close_add(right_angle(i), spoke_half(), full_turn() / 4real - x * h, half, e, f);
    lemma_close_sub(left_angle(i), spoke_half(), full_turn() / 4real + x * h, half, e, f);
    lemma_close_add(left_angle(i), spoke_half(), full_turn() / 4real + x * h, half, e, f);
}

/// A direction whose sine and cosine are no more than one.
pub open spec fn is_turn(t: Turn) -> bool {
    &&& t.cos.finite()
    &&& t.sin.finite()
    &&& size(t.cos.value()) <= 1real
    &&& size(t.sin.value()) <= 1real
}

/// A point at a radius in a direction, narrowed to the screen.
pub proof fn law_polar_point(t: Turn, r: F32, v: real, inv_aspect: F32)
    requires
        is_turn(t),
        close(r, v, 1real / 1000000real),
        0real <= v <= 2real,
        inv_aspect.finite(),
        0real <= inv_aspect.value() <= 10real,
    ensures
        close(polar(t, r, inv_aspect).0, t.cos.value() * v * inv_aspect.value(), 1real / 20000real),
        close(polar(t, r, inv_aspect).1, t.sin.value() * v, 1real / 100000real),
{
    let e = 1real / 1000000real;
    lemma_close_mul(t.cos, r, t.cos.value(), v, 0real, e, 1real, 2real);
    lemma_close_mul(t.sin, r, t.sin.value(), v, 0real, e, 1real, 2real);
    lemma_size_mul(t.cos.value(), v, 1real, 2real);
    lemma_close_mul(
        t.cos * r,
        inv_aspect,
        t.cos.value() * v,
        inv_aspect.value(),
        2real / 1000000real,
        0real,
        2real,
        10real,
    );
}

/// Every spoke has its twelve vertices: six for the right channel, six for the left.
proof fn lemma_spokes(left: Seq<F32>, right: Seq<F32>, turns: Seq<Turn>, n: int, p: Palette, inv: F32, i: int, k: int)
    requires
        0 <= i < n,
        0 <= k < 6,
    ensures
        spokes(left, right, turns, n, p, inv).len() == 12 * n,
        spokes(left, right, turns, n, p, inv)[12 * i + k] == spoke(turns[4 * i], turns[4 * i + 1], right[i], p, inv)[k],
        spokes(left, right, turns, n, p, inv)[12 * i + 6 + k] == spoke(
            turns[4 * i + 2],
            turns[4 * i + 3],
            left[i],
            p,
            inv,
        )[k],
    decreases n,
{
    if n > 1 {
        lemma_spokes(left, right, turns, n - 1, p, inv, if i < n - 1 { i } else { 0 }, k);
    } else {
        assert(spokes(left, right, turns, 0, p, inv).len() == 0);
    }
    let before = spokes(left, right, turns, n - 1, p, inv);
    let m = 4 * (n - 1);
    let a = spoke(turns[m], turns[m + 1], right[n - 1], p, inv);
    let b = spoke(turns[m + 2], turns[m + 3], left[n - 1], p, inv);
    assert(before.len() == 12 * (n - 1));
    let now = before + a + b;
    if i == n - 1 {
        assert(now[12 * i + k] == a[k]);
        assert(now[12 * i + 6 + k] == b[k]);
    } else {
        assert(now[12 * i + k] == before[12 * i + k]);
        assert(now[12 * i + 6 + k] == before[12 * i + 6 + k]);
    }
}

/// The spokes: each band reaches from the inner circle, in the first colour and
/// transparent, as far out as it is loud, in the second and opaque.
pub proof fn law_spokes_show_the_spectrum(
    left: Seq<F32>,
    right: Seq<F32>,
    turns: Seq<Turn>,
    p: Palette,
    inv_aspect: F32,
    i: int,
    k: int,
)
    requires
        0 <= i < NUM_BANDS,
        0 <= k < 12,
        left.len() == NUM_BANDS,
        right.len() == NUM_BANDS,
        left[i].finite(),
        right[i].finite(),
        forall|j: int| 0 <= j < 256 ==> is_turn(#[trigger] turns[j]),
        inv_aspect.finite(),
        0real <= inv_aspect.value() <= 10real,
    ensures
        spokes(left, right, turns, NUM_BANDS as int, p, inv_aspect).len() == 12 * NUM_BANDS,
        ({
            let v = spokes(left, right, turns, NUM_BANDS as int, p, inv_aspect)[12 * i + k];
            let c = k % 6;
            let h = if k < 6 {
                right[i]
            } else {
                left[i]
            };
            let upper = c == 2 || c == 4 || c == 5;
            let second = c == 1 || c == 2 || c == 4;
            let t = turns[4 * i + (if k < 6 {
                0int
            } else {
                2int
            }) + (if second {
                1int
            } else {
                0int
            })];
            let r = if upper {
                28real / 100real + clip(h.value(), 0real, 1real) * (62real / 100real)
            } else {
                28real / 100real
            };
            &&& close(v.x, t.cos.value() * r * inv_aspect.value(), 1real / 20000real)
            &&& close(v.y, t.sin.value() * r, 1real / 100000real)
            &&& v.r == if upper { p.color_b.r } else { p.color_a.r }
            &&& v.g == if upper { p.color_b.g } else { p.color_a.g }
            &&& v.b == if upper { p.color_b.b } else { p.color_a.b }
            &&& v.a.value() == if upper { 1real } else { 0real }
        }),
{
    lemma_constants();
    lemma_spokes(left, right, turns, NUM_BANDS as int, p, inv_aspect, i, k % 6);
    let c = k % 6;
    let h = if k < 6 {
        right[i]
    } else {
        left[i]
    };
    law_tip_is_the_level(h);
    let second = c == 1 || c == 2 || c == 4;
    let j = 4 * i + (if k < 6 {
        0int
    } else {
        2int
    }) + (if second {
        1int
    } else {
        0int
    });
    assert(is_turn(turns[j]));
    let e = 28real / 100real + clip(h.value(), 0real, 1real) * (62real / 100real);
    law_polar_point(turns[j], tip(h), e, inv_aspect);
    law_polar_point(turns[j], radial_inner(), 28real / 100real, inv_aspect);
}

/// The round line visits the right channel down the right and the left channel up the
/// left.
pub proof fn law_round_line_visits_both_channels(left: Seq<F32>, right: Seq<F32>, j: int)
    requires
        0 <= j < 128,
        left.len() == NUM_BANDS,
        right.len() == NUM_BANDS,
    ensures
        j < 64 ==> round_value(left, right, j) == right[j] && close(
            round_angle(j),
            full_turn() / 4real - (j as real / 63real) * (full_turn() / 2real),
            1real / 100000real,
        ),
        j >= 64 ==> round_value(left, right, j) == left[127 - j] && close(
            round_angle(j),
            full_turn() / 4real + ((127 - j) as real / 63real) * (full_turn() / 2real),
            1real / 100000real,
        ),
{
    if j < 64 {
        law_bands_go_round_both_sides(j);
    } else {
        law_bands_go_round_both_sides(127 - j);
    }
}

} // verus!
