//! Colours that follow the accent colour of the system theme.

use crate::config::Rgb;
use crate::dsp::{is_part, lemma_part_is_finite};
use crate::float::laws::{
    law_step_stays_between, lemma_bounded_is_finite, lemma_half, lemma_neg, lemma_one, lemma_sub_between,
};
use crate::float::F32;
use crate::render::paint::{mixed, Palette};
use vstd::prelude::*;

verus! {

/// White.
pub open spec fn white() -> Rgb {
    Rgb { r: F32::unit(), g: F32::unit(), b: F32::unit() }
}

/// Lightens a colour by part `t` of the way to white.
pub fn lighten(c: Rgb, t: F32) -> (r: Rgb)
    ensures
        r == mixed(c, white(), t),
{
    let one = F32::one();
    Rgb::new(c.r.approach(one, t), c.g.approach(one, t), c.b.approach(one, t))
}

/// The palette of an accent colour: from the accent to halfway to white.
pub open spec fn accented(accent: Rgb) -> Palette {
    Palette { color_a: accent, color_b: mixed(accent, white(), F32::half_unit()) }
}

/// The palette that follows the accent colour.
pub fn accent_palette(accent: Rgb) -> (r: Palette)
    ensures
        r == accented(accent),
{
    Palette { color_a: accent, color_b: lighten(accent, F32::half()) }
}

/// Every channel of the lighter end lies between that of the accent and one.
pub proof fn law_lighter_end_is_lighter(accent: Rgb)
    requires
        is_part(accent.r),
        is_part(accent.g),
        is_part(accent.b),
    ensures
        accented(accent).color_b.r.within(accent.r, F32::unit()),
        accented(accent).color_b.g.within(accent.g, F32::unit()),
        accented(accent).color_b.b.within(accent.b, F32::unit()),
{
    lemma_lighter(accent.r);
    lemma_lighter(accent.g);
    lemma_lighter(accent.b);
}

proof fn lemma_lighter(x: F32)
    requires
        is_part(x),
    ensures
        x.toward(F32::unit(), F32::half_unit()).within(x, F32::unit()),
{
    lemma_one();
    lemma_half();
    lemma_part_is_finite(x);
    lemma_neg(F32::unit());
    lemma_sub_between(F32::unit(), x, -F32::unit(), F32::unit());
    lemma_bounded_is_finite(F32::unit() - x, F32::unit());
    law_step_stays_between(x, F32::unit(), F32::half_unit());
}

} // verus!
