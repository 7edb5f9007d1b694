//! What drives the effects: loudness, bass, transients and the silence gate.

use crate::bands::NUM_BANDS;
use crate::dsp::is_part;
use crate::float::laws::lemma_one;
use crate::float::value::{
    clip, close, lemma_close_add, lemma_close_div, lemma_close_mul, lemma_close_part, lemma_close_sub,
    lemma_close_toward, lemma_constants, lemma_value_add, lemma_value_le, lemma_value_part, lemma_value_quotient,
    lemma_value_whole,
};
use crate::float::F32;
use crate::render::levels::{bass, bass_sum, drive, gate, loudest, next_envelope};
use crate::render::paint::part_of;
use crate::render::ribbon::visibility;
use vstd::prelude::*;

verus! {

/// The loudest of the first bands of both channels.
proof fn lemma_loudest(left: Seq<F32>, right: Seq<F32>, n: int)
    requires
        0 <= n <= NUM_BANDS,
        forall|b: int| 0 <= b < NUM_BANDS ==> is_part(#[trigger] left[b]),
        forall|b: int| 0 <= b < NUM_BANDS ==> is_part(#[trigger] right[b]),
    ensures
        is_part(loudest(left, right, n)),
        forall|b: int| 0 <= b < n ==> (#[trigger] left[b]).le(loudest(left, right, n)),
        forall|b: int| 0 <= b < n ==> (#[trigger] right[b]).le(loudest(left, right, n)),
        n == 0 ==> loudest(left, right, n).value() == 0real,
        n > 0 ==> exists|b: int|
            0 <= b < n && ((#[trigger] left[b]).value() == loudest(left, right, n).value() || right[b].value()
                == loudest(left, right, n).value()),
    decreases n,
{
    lemma_constants();
    lemma_one();
    if n > 0 {
        lemma_loudest(left, right, n - 1);
        let before = loudest(left, right, n - 1);
        let x = left[n - 1];
        let y = right[n - 1];
        assert(is_part(x) && is_part(y));
        lemma_value_part(x);
        lemma_value_part(y);
        lemma_value_part(before);
        lemma_value_le(before, x);
        lemma_value_le(before.larger(x), y);
        lemma_value_le(x, y);
        let now = loudest(left, right, n);
        if now.value() == left[n - 1].value() || now.value() == right[n - 1].value() {
            assert(left[n - 1].value() == left[n - 1].value());
        } else {
            let b = choose|b: int|
                0 <= b < n - 1 && ((#[trigger] left[b]).value() == before.value() || right[b].value()
                    == before.value());
            assert(left[b].value() == left[b].value());
        }
    }
}

/// The visibility of the neon effects is the level of the loudest band of both channels.
pub proof fn law_visibility_is_the_loudest_band(left: Seq<F32>, right: Seq<F32>)
    requires
        forall|b: int| 0 <= b < NUM_BANDS ==> is_part(#[trigger] left[b]),
        forall|b: int| 0 <= b < NUM_BANDS ==> is_part(#[trigger] right[b]),
    ensures
        is_part(visibility(left, right)),
        forall|b: int| 0 <= b < NUM_BANDS ==> (#[trigger] left[b]).le(visibility(left, right)),
        forall|b: int| 0 <= b < NUM_BANDS ==> (#[trigger] right[b]).le(visibility(left, right)),
        exists|b: int|
            0 <= b < NUM_BANDS && ((#[trigger] left[b]).value() == visibility(left, right).value() || right[b].value()
                == visibility(left, right).value()),
        part_of(loudest(left, right, NUM_BANDS as int)) == visibility(left, right),
{
    lemma_constants();
    lemma_loudest(left, right, NUM_BANDS as int);
    lemma_value_part(loudest(left, right, NUM_BANDS as int));
}

/// The sum of the first bands of both channels.
pub open spec fn total(left: Seq<F32>, right: Seq<F32>, n: int) -> real
    decreases n,
{
    if n <= 0 {
        0real
    } else {
        total(left, right, n - 1) + (left[n - 1].value() + right[n - 1].value())
    }
}

/// The sum of the first bands is nearly exact.
proof fn lemma_bass_sum(left: Seq<F32>, right: Seq<F32>, n: int)
    requires
        0 <= n <= 12,
        forall|b: int| 0 <= b < NUM_BANDS ==> is_part(#[trigger] left[b]),
        forall|b: int| 0 <= b < NUM_BANDS ==> is_part(#[trigger] right[b]),
    ensures
        close(bass_sum(left, right, n), total(left, right, n), n as real / 500000real),
        0real <= total(left, right, n) <= 2real * n as real,
    decreases n,
{
    lemma_constants();
    if n > 0 {
        lemma_bass_sum(left, right, n - 1);
        assert(is_part(left[n - 1]) && is_part(right[n - 1]));
        lemma_value_part(left[n - 1]);
        lemma_value_part(right[n - 1]);
        let l = left[n - 1].value();
        let r = right[n - 1].value();
        lemma_value_add(left[n - 1], right[n - 1]);
        let m = (n - 1) as real;
        assert(n as real == m + 1real);
        lemma_close_add(
            bass_sum(left, right, n - 1),
            left[n - 1] + right[n - 1],
            total(left, right, n - 1),
            l + r,
            m / 500000real,
            1real / 5000000real,
        );
    }
}

/// The bass is the mean of the twelve lowest bands of both channels.
pub proof fn law_bass_is_a_mean(left: Seq<F32>, right: Seq<F32>)
    requires
        forall|b: int| 0 <= b < NUM_BANDS ==> is_part(#[trigger] left[b]),
        forall|b: int| 0 <= b < NUM_BANDS ==> is_part(#[trigger] right[b]),
    ensures
        close(bass(left, right), total(left, right, 12) / 24real, 1real / 100000real),
        is_part(bass(left, right)),
{
    lemma_constants();
    lemma_value_whole(2);
    lemma_value_whole(12);
    lemma_bass_sum(left, right, 12);
    let s = bass_sum(left, right, 12);
    let t = total(left, right, 12);
    let d = F32::whole(2) * F32::whole(12);
    lemma_close_mul(F32::whole(2), F32::whole(12), 2real, 12real, 0real, 0real, 2real, 12real);
    lemma_close_div(s, d, t, 24real, 12real / 500000real, 1real / 500000real, 1real, 24real);
    lemma_close_part(s / d, t / 24real, 1real / 100000real);
    lemma_value_part(bass(left, right));
}

/// The silence gate opens from a level of 5 hundredths to one of 17 hundredths.
pub proof fn law_gate_opens_with_the_level(level: F32)
    requires
        is_part(level),
    ensures
        close(gate(level), clip((level.value() - 5real / 100real) / (12real / 100real), 0real, 1real), 1real / 100000real),
        is_part(gate(level)),
        level.value() <= 4999real / 100000real ==> gate(level).value() == 0real,
        level.value() >= 17001real / 100000real ==> gate(level).value() == 1real,
{
    lemma_constants();
    lemma_value_part(level);
    lemma_value_quotient(5, 100);
    lemma_value_quotient(12, 100);
    let l = level.value();
    lemma_close_sub(level, F32::quotient(5, 100), l, 5real / 100real, 0real, 1real / 100000000real);
    let x = level - F32::quotient(5, 100);
    let y = x / F32::quotient(12, 100);
    lemma_close_div(
        x,
        F32::quotient(12, 100),
        l - 5real / 100real,
        12real / 100real,
        1real / 10000000real,
        1real / 100000000real,
        8real,
        12real / 100real,
    );
    lemma_close_part(y, (l - 5real / 100real) / (12real / 100real), 1real / 100000real);
    lemma_value_part(y);
    lemma_value_part(gate(level));
}

/// The envelope follows the bass by a twentieth of the way, and the punch is two and a half
/// times what the bass exceeds it by.
pub proof fn law_punch_is_what_exceeds_the_envelope(env: F32, left: Seq<F32>, right: Seq<F32>)
    requires
        is_part(env),
        forall|b: int| 0 <= b < NUM_BANDS ==> is_part(#[trigger] left[b]),
        forall|b: int| 0 <= b < NUM_BANDS ==> is_part(#[trigger] right[b]),
    ensures
        close(
            next_envelope(env, left, right),
            env.value() + (bass(left, right).value() - env.value()) * (5real / 100real),
            1real / 100000real,
        ),
        drive(env, left, right).bass == bass(left, right),
        close(
            drive(env, left, right).punch,
            clip((bass(left, right).value() - env.value()) * (25real / 10real), 0real, 1real),
            1real / 100000real,
        ),
        drive(env, left, right).gate == gate(visibility(left, right)),
        is_part(drive(env, left, right).punch),
{
    lemma_constants();
    law_bass_is_a_mean(left, right);
    let b = bass(left, right);
    lemma_value_part(b);
    lemma_value_part(env);
    lemma_value_quotient(5, 100);
    lemma_close_toward(
        env,
        b,
        F32::quotient(5, 100),
        env.value(),
        b.value(),
        5real / 100real,
        1real / 100000000real,
        1real,
    );
    lemma_value_quotient(25, 10);
    let d = b.value() - env.value();
    lemma_close_sub(b, env, b.value(), env.value(), 0real, 0real);
    lemma_close_mul(
        b - env,
        F32::quotient(25, 10),
        d,
        25real / 10real,
        1real / 10000000real,
        1real / 1000000real,
        1real,
        25real / 10real,
    );
    lemma_close_part((b - env) * F32::quotient(25, 10), d * (25real / 10real), 1real / 100000real);
    lemma_value_part(drive(env, left, right).punch);
}

} // verus!
