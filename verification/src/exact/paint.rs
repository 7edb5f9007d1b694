//! Colours: mixed, dimmed and lightened.

use crate::bands::NUM_BANDS;
use crate::config::Rgb;
use crate::dsp::is_part;
use crate::float::laws::{
    lemma_div_between, lemma_one, lemma_same_value, lemma_sub_between, lemma_times_zero, lemma_whole, lemma_zero_mag,
    one_units,
};
use crate::float::value::{
    close, dust, lemma_close_div, lemma_close_toward, lemma_constants, lemma_value_le, lemma_value_mul,
    lemma_value_order, lemma_value_part, lemma_value_whole,
};
use crate::float::F32;
use crate::render::paint::{band_span, mixed, ramp, scaled};
use crate::theme::{accented, white};
use vstd::prelude::*;

verus! {

/// A colour whose components are parts of one.
pub open spec fn is_color(c: Rgb) -> bool {
    is_part(c.r) && is_part(c.g) && is_part(c.b)
}

/// The mixture of two components.
proof fn lemma_mixed(a: F32, b: F32, t: F32)
    requires
        is_part(a),
        is_part(b),
        is_part(t),
    ensures
        close(a.toward(b, t), a.value() + (b.value() - a.value()) * t.value(), 1real / 500000real),
{
    lemma_value_part(a);
    lemma_value_part(b);
    lemma_value_part(t);
    lemma_close_toward(a, b, t, a.value(), b.value(), t.value(), 0real, 1real);
}

/// A mixture of two colours is the first at nothing, the second at one, and in between
/// their mean, weighted by `t`.
pub proof fn law_mixture_is_weighted(a: Rgb, b: Rgb, t: F32)
    requires
        is_color(a),
        is_color(b),
        is_part(t),
    ensures
        close(mixed(a, b, t).r, a.r.value() + (b.r.value() - a.r.value()) * t.value(), 1real / 500000real),
        close(mixed(a, b, t).g, a.g.value() + (b.g.value() - a.g.value()) * t.value(), 1real / 500000real),
        close(mixed(a, b, t).b, a.b.value() + (b.b.value() - a.b.value()) * t.value(), 1real / 500000real),
{
    lemma_mixed(a.r, b.r, t);
    lemma_mixed(a.g, b.g, t);
    lemma_mixed(a.b, b.b, t);
}

/// A dimmed colour is the colour times the brightness: nothing where that is zero.
pub proof fn law_dimming_is_proportional(c: Rgb, k: F32)
    requires
        is_color(c),
        k.finite(),
        0real <= k.value() <= 1000real,
    ensures
        close(scaled(c, k).r, c.r.value() * k.value(), k.value() / 10000000real + dust()),
        close(scaled(c, k).g, c.g.value() * k.value(), k.value() / 10000000real + dust()),
        close(scaled(c, k).b, c.b.value() * k.value(), k.value() / 10000000real + dust()),
        k.value() == 0real ==> scaled(c, k).r.value() == 0real && scaled(c, k).g.value() == 0real && scaled(
            c,
            k,
        ).b.value() == 0real,
{
    lemma_dimmed(c.r, k);
    lemma_dimmed(c.g, k);
    lemma_dimmed(c.b, k);
}

/// A dimmed component.
proof fn lemma_dimmed(c: F32, k: F32)
    requires
        is_part(c),
        k.finite(),
        0real <= k.value() <= 1000real,
    ensures
        close(c * k, c.value() * k.value(), k.value() / 10000000real + dust()),
        k.value() == 0real ==> (c * k).value() == 0real,
{
    lemma_constants();
    lemma_value_part(c);
    let x = c.value();
    let y = k.value();
    assert(0real <= x * y <= y) by (nonlinear_arith)
        requires 0real <= x <= 1real, y >= 0real;
    lemma_value_mul(c, k);
    if y == 0real {
        lemma_one();
        lemma_value_order(k, F32::nought());
        lemma_zero_mag(k);
        lemma_times_zero(c, k);
        lemma_value_order(c * k, F32::nought());
    }
}

/// The places of the bands go evenly from nothing to one.
pub proof fn law_bands_are_evenly_placed(i: int)
    requires
        0 <= i < NUM_BANDS,
    ensures
        close(ramp(i), i as real / 63real, 1real / 10000000real),
        i == 0 ==> ramp(i).value() == 0real,
        i == 63 ==> ramp(i).value() == 1real,
        is_part(ramp(i)),
{
    lemma_constants();
    lemma_one();
    lemma_whole(64);
    lemma_whole(63);
    lemma_whole(i);
    lemma_value_whole(i);
    lemma_value_whole(63);
    lemma_sub_between(F32::whole(64), F32::unit(), F32::whole(63), F32::whole(63));
    let d = F32::whole(64) - F32::unit();
    lemma_same_value(d, F32::whole(63));
    lemma_value_order(d, F32::whole(63));
    lemma_value_le(d, F32::unit());
    assert(band_span() == d);
    let x = i as real;
    lemma_close_div(F32::whole(i), d, x, 63real, 0real, 0real, 1real, 63real);
    let w = one_units();
    let u = i * w;
    assert(0 * (63 * w) <= u * w <= w * (63 * w) && (i == 63 ==> u * w == w * (63 * w)) && (i == 0 ==> u * w == 0))
        by (nonlinear_arith)
        requires u == i * w, 0 <= i <= 63, w > 0;
    lemma_div_between(F32::whole(i), d, F32::nought(), F32::unit());
    lemma_value_le(F32::nought(), ramp(i));
    lemma_value_le(ramp(i), F32::unit());
    if i == 63 {
        lemma_div_between(F32::whole(i), d, F32::unit(), F32::unit());
        lemma_value_le(F32::unit(), ramp(i));
    }
    if i == 0 {
        assert(0 * (63 * w) == 0);
        lemma_div_between(F32::whole(i), d, F32::nought(), F32::nought());
        lemma_value_le(ramp(i), F32::nought());
    }
}

/// In automatic colours one end is the accent and the other lies halfway to white.
pub proof fn law_accent_is_lightened_halfway(accent: Rgb)
    requires
        is_color(accent),
    ensures
        accented(accent).color_a == accent,
        close(accented(accent).color_b.r, (1real + accent.r.value()) / 2real, 1real / 500000real),
        close(accented(accent).color_b.g, (1real + accent.g.value()) / 2real, 1real / 500000real),
        close(accented(accent).color_b.b, (1real + accent.b.value()) / 2real, 1real / 500000real),
{
    lemma_constants();
    lemma_value_part(F32::unit());
    lemma_value_part(F32::half_unit());
    law_mixture_is_weighted(accent, white(), F32::half_unit());
}

} // verus!
