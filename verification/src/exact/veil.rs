//! The veil over the last frame, and the ground of the picture.

use crate::float::laws::{lemma_one, lemma_sub_order};
use crate::float::value::{
    clip, close, lemma_constants, lemma_value_clamped, lemma_value_le, lemma_value_quotient, lemma_value_sub, size,
};
use crate::float::F32;
use crate::render::shapes::{fade, fade_quad};
use vstd::prelude::*;

verus! {

/// The veil is as opaque as the blur is weak: what is left of the last frame is the blur,
/// at most nineteen parts of twenty.
pub proof fn law_veil_leaves_the_blur(blur: F32)
    requires
        blur.finite(),
        size(blur.value()) <= 1000real,
    ensures
        close(fade(blur), clip(1real - blur.value(), 5real / 100real, 1real), 1real / 10000real),
        0real <= blur.value() <= 95real / 100real ==> close(fade(blur), 1real - blur.value(), 1real / 10000000real),
        1real / 10000000real <= blur.value() ==> fade(blur).lt(F32::unit()),
{
    lemma_constants();
    lemma_value_quotient(5, 100);
    let low = F32::quotient(5, 100);
    let high = F32::unit();
    lemma_value_le(low, high);
    lemma_value_sub(F32::unit(), blur);
    let x = F32::unit() - blur;
    lemma_value_clamped(x, low, high);
    lemma_value_le(fade(blur), F32::unit());
}

/// More blur never makes the veil more opaque, and a thousandth more makes it less so,
/// from none up to the most.
pub proof fn law_more_blur_is_less_opaque(blur: F32, more: F32)
    requires
        blur.finite(),
        more.finite(),
        blur.le(more),
        size(blur.value()) <= 1000real,
        size(more.value()) <= 1000real,
    ensures
        fade(more).le(fade(blur)),
        0real <= blur.value() && blur.value() + 1real / 1000real <= more.value() && more.value() <= 95real / 100real
            ==> fade(more).lt(fade(blur)),
{
    lemma_constants();
    lemma_one();
    lemma_value_quotient(5, 100);
    let low = F32::quotient(5, 100);
    let high = F32::unit();
    lemma_value_le(low, high);
    lemma_sub_order(F32::unit(), more, F32::unit(), blur);
    let x = F32::unit() - blur;
    let y = F32::unit() - more;
    lemma_value_sub(F32::unit(), blur);
    lemma_value_sub(F32::unit(), more);
    lemma_value_le(y, x);
    lemma_value_clamped(x, low, high);
    lemma_value_clamped(y, low, high);
    lemma_value_le(fade(more), fade(blur));
    lemma_value_le(blur, more);
}

/// The veil covers the whole screen evenly, in black: two triangles, whose corners are
/// those of the screen, all of one opacity.
pub proof fn law_veil_covers_the_screen(alpha: F32, j: int)
    requires
        0 <= j < 6,
    ensures
        fade_quad(alpha).len() == 6,
        fade_quad(alpha)[j].a == alpha,
        fade_quad(alpha)[j].r.value() == 0real,
        fade_quad(alpha)[j].g.value() == 0real,
        fade_quad(alpha)[j].b.value() == 0real,
        size(fade_quad(alpha)[j].x.value()) == 1real,
        size(fade_quad(alpha)[j].y.value()) == 1real,
        j == 0 || j == 3 ==> fade_quad(alpha)[j].x.value() == -1real && fade_quad(alpha)[j].y.value() == -1real,
        j == 2 || j == 4 ==> fade_quad(alpha)[j].x.value() == 1real && fade_quad(alpha)[j].y.value() == 1real,
        j == 1 ==> fade_quad(alpha)[j].x.value() == 1real && fade_quad(alpha)[j].y.value() == -1real,
        j == 5 ==> fade_quad(alpha)[j].x.value() == -1real && fade_quad(alpha)[j].y.value() == 1real,
{
    lemma_constants();
}

} // verus!
