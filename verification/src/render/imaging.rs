//! The stereo image on its stage: the front half of a disc seen from above at an angle,
//! with the listener in the middle of the chord and a lobe each for low, middle and high
//! frequencies towards the directions that they come from. Front and rear cannot be told
//! apart from two channels, so there is no rear half. Sines, cosines and exponentials
//! are the caller's.

use super::curve::Point;
use super::paint::{clamp_part, mix, mixed, part_of, ramp, ramp_at, scale, scaled, Palette, Vertex};
use super::radial::Turn;
use super::ribbon::{push_glow_ribbon, stitch, stitched, with_ribbon};
use crate::bands::NUM_BANDS;
use crate::config::Rgb;
use crate::dsp::{circle, is_part, lemma_part_is_finite, pi};
use crate::float::laws::{
    lemma_add_between, lemma_binary_fraction, lemma_bounded_is_finite, lemma_bounded_is_finite_between, lemma_half,
    lemma_mul_between, lemma_neg, lemma_one, lemma_plus_zero, lemma_quotient_between, lemma_quotient_number,
    lemma_same_value, lemma_signed, lemma_sub_between, lemma_times_zero, lemma_whole, lemma_zero_mag,
    lemma_zero_product, one_units,
};
use crate::float::repr::{lemma_mag_units_order, mag_units};
use crate::float::round::{lemma_nearest_exact, lemma_nearest_order, lemma_nearest_positive, nearest_mag};
use crate::float::F32;
use crate::stereo::{quarter, tau, ImagingFrame};
use core::ops::Neg;
use vstd::arithmetic::div_mod::lemma_mod_bound;
use vstd::arithmetic::power2::{lemma2_to64, lemma_pow2_adds, lemma_pow2_pos, lemma_pow2_unfold, pow2};
use vstd::prelude::*;

verus! {

/// Directions all around the listener in which the energy is measured.
pub const IMG_STEPS: usize = 160;

/// Directions from the left side over the front to the right side.
pub const FRONT_STEPS: usize = 81;

/// The first band that begins at 250 hertz or above: up to there the low frequencies.
pub const LOW_END: usize = 22;

/// The first band that begins at 2500 hertz or above: from there the high frequencies.
pub const MID_END: usize = 46;

/// Bands times steps.
pub const LOBE_CELLS: usize = 10240;

/// The radius of the stage.
pub open spec fn img_radius() -> F32 {
    F32::quotient(70, 100)
}

fn stage_radius() -> (r: F32)
    ensures
        r == img_radius(),
{
    F32::ratio(70, 100)
}

/// The radius that the lobe never falls below.
pub open spec fn lobe_min() -> F32 {
    F32::quotient(10, 100)
}

/// A point of the stage on the screen.
#[derive(Debug, Clone, Copy, PartialEq, Eq, Structural)]
pub struct StagePoint {
    pub x: F32,
    pub y: F32,
    /// The perspective factor.
    pub s: F32,
}

/// The point of the plane at `x` to the right and `y` away from the viewer, seen from
/// above at 30 degrees.
pub open spec fn staged(x: F32, y: F32) -> StagePoint {
    let s = F32::quotient(36, 10) / (F32::quotient(36, 10) + y);
    StagePoint { x: x * s, y: y * F32::half_unit() * s + F32::quotient(10, 100), s }
}

/// Projects a point of the plane.
pub fn imaging_project(x: F32, y: F32) -> (r: StagePoint)
    ensures
        r == staged(x, y),
{
    let s = F32::ratio(36, 10) / (F32::ratio(36, 10) + y);
    StagePoint { x: x * s, y: y * F32::half() * s + F32::ratio(10, 100), s }
}

/// The point at an angle and a radius: angle zero is in front, away from the viewer.
pub open spec fn stage_point(t: Turn, radius: F32) -> StagePoint {
    staged(t.sin * radius, t.cos * radius)
}

/// The projected point at an angle and a radius.
pub fn imaging_point(t: Turn, radius: F32) -> (r: StagePoint)
    ensures
        r == stage_point(t, radius),
{
    imaging_project(t.sin * radius, t.cos * radius)
}

/// The direction kept in front of the chord through the listener.
pub open spec fn facing(t: Turn) -> Turn {
    Turn { sin: t.sin, cos: part_of(t.cos) }
}

fn face(t: Turn) -> (r: Turn)
    ensures
        r == facing(t),
{
    Turn { sin: t.sin, cos: clamp_part(t.cos) }
}

/// The weight of the diffuse part at an angle with this cosine: none in front, most
/// behind. On the stage it widens the lobe to both sides alike.
pub open spec fn diffuse(cosine: F32) -> F32 {
    (F32::unit() - cosine) * F32::half_unit()
}

/// The weight of the diffuse part at an angle with this cosine.
pub fn diffuse_weight(cosine: F32) -> (r: F32)
    ensures
        r == diffuse(cosine),
{
    (F32::one() - cosine) * F32::half()
}

/// A frontal direction moved by part `rear` of the way to its mirror image behind.
pub open spec fn reflected(azimuth: F32, rear: F32) -> F32 {
    let sign = if azimuth.lt(F32::nought()) {
        -F32::unit()
    } else {
        F32::unit()
    };
    let mag = azimuth.unsigned();
    sign * (mag + rear * (pi() - F32::whole(2) * mag))
}

/// Reflects a frontal direction to the rear arc as far as the scene is behind.
pub fn reflect_rear(azimuth: F32, rear: F32) -> (r: F32)
    ensures
        r == reflected(azimuth, rear),
{
    let sign = if azimuth.less(F32::zero()) {
        F32::one().neg()
    } else {
        F32::one()
    };
    let mag = azimuth.abs();
    sign * (mag + rear * (circle() - F32::from_int(2) * mag))
}

/// The difference of two angles, brought back by a full turn where it is more than
/// half a turn.
pub open spec fn turn_between(a: F32, b: F32) -> F32 {
    let d = (a - b) % tau();
    if pi().lt(d) {
        d - tau()
    } else if d.lt(-pi()) {
        d + tau()
    } else {
        d
    }
}

/// The smallest difference of two angles.
pub fn angle_delta(a: F32, b: F32) -> (r: F32)
    ensures
        r == turn_between(a, b),
{
    let tau = F32::ratio(13176795, 2097152);
    let d = (a - b) % tau;
    if circle().less(d) {
        d - tau
    } else if d.less(circle().neg()) {
        d + tau
    } else {
        d
    }
}

/// The angle of step `i` around the listener.
pub open spec fn step_angle(i: int) -> F32 {
    F32::whole(i) / F32::whole(IMG_STEPS as int) * tau()
}

fn step_angle_of(i: usize) -> (r: F32)
    ensures
        r == step_angle(i as int),
{
    F32::from_int(i as u64) / F32::from_int(IMG_STEPS as u64) * F32::ratio(13176795, 2097152)
}

/// The step of front direction `j`, from the left to the right.
pub open spec fn front_step(j: int) -> int {
    if j < 40 {
        120 + j
    } else {
        j - 40
    }
}

fn front_step_of(j: usize) -> (r: usize)
    requires
        j < FRONT_STEPS,
    ensures
        r == front_step(j as int),
        r < IMG_STEPS,
{
    if j < 40 {
        120 + j
    } else {
        j - 40
    }
}

/// The angles around the stage at which sines and cosines are needed.
pub fn step_angles() -> (r: Vec<F32>)
    ensures
        r@ == Seq::new(160, |i: int| step_angle(i)),
{
    let mut r: Vec<F32> = Vec::new();
    let mut i: usize = 0;
    while i < IMG_STEPS
        invariant
            i <= IMG_STEPS,
            r@.len() == i,
            forall|j: int| 0 <= j < i ==> #[trigger] r@[j] == step_angle(j),
        decreases IMG_STEPS - i,
    {
        r.push(step_angle_of(i));
        i = i + 1;
    }
    assert(r@ =~= Seq::new(160, |i: int| step_angle(i)));
    r
}

/// The angle of tick `q`: front, right, left.
pub open spec fn tick_angle(q: int) -> F32 {
    if q == 0 {
        F32::nought()
    } else if q == 1 {
        quarter()
    } else {
        -quarter()
    }
}

/// The angles of the three ticks.
pub fn tick_angles() -> (r: Vec<F32>)
    ensures
        r@ == Seq::new(3, |q: int| tick_angle(q)),
{
    let side = F32::ratio(13176795, 8388608);
    let mut r: Vec<F32> = Vec::new();
    r.push(F32::zero());
    r.push(side);
    r.push(side.neg());
    assert(r@ =~= Seq::new(3, |q: int| tick_angle(q)));
    r
}

/// Where band `b` shows on the stage: in its direction, whatever the estimate of the
/// rear.
pub open spec fn band_angle(img: ImagingFrame, b: int) -> F32 {
    img.azimuth@[b]
}

/// The angles of the bands.
pub fn band_angles(img: &ImagingFrame) -> (r: Vec<F32>)
    ensures
        r@ == Seq::new(64, |b: int| band_angle(*img, b)),
{
    let mut r: Vec<F32> = Vec::new();
    let mut b: usize = 0;
    while b < NUM_BANDS
        invariant
            b <= NUM_BANDS,
            r@.len() == b,
            forall|j: int| 0 <= j < b ==> #[trigger] r@[j] == band_angle(*img, j),
        decreases NUM_BANDS - b,
    {
        r.push(img.azimuth[b]);
        b = b + 1;
    }
    assert(r@ =~= Seq::new(64, |b: int| band_angle(*img, b)));
    r
}

/// One over twice the square of the spread of a direction.
pub open spec fn narrowness() -> F32 {
    F32::unit() / (F32::whole(2) * F32::quotient(16, 100) * F32::quotient(16, 100))
}

/// The exponent of the bell curve around the direction of band `b` at step `i`.
pub open spec fn bell_exponent(img: ImagingFrame, b: int, i: int) -> F32 {
    let delta = turn_between(step_angle(i), band_angle(img, b));
    -delta * delta * narrowness()
}

/// The exponents of the bell curves, band by band, whose exponentials weigh the lobe.
pub fn lobe_exponents(img: &ImagingFrame) -> (r: Vec<F32>)
    ensures
        r@ == Seq::new(10240, |k: int| bell_exponent(*img, k / 160, k % 160)),
{
    let angles = band_angles(img);
    let steps = step_angles();
    let narrow = F32::one() / (F32::from_int(2) * F32::ratio(16, 100) * F32::ratio(16, 100));
    let mut r: Vec<F32> = Vec::new();
    let mut b: usize = 0;
    while b < NUM_BANDS
        invariant
            b <= NUM_BANDS,
            narrow == narrowness(),
            angles@ == Seq::new(64, |b: int| band_angle(*img, b)),
            steps@ == Seq::new(160, |i: int| step_angle(i)),
            r@.len() == 160 * b,
            forall|k: int| 0 <= k < 160 * b ==> #[trigger] r@[k] == bell_exponent(*img, k / 160, k % 160),
        decreases NUM_BANDS - b,
    {
        let az = angles[b];
        let mut i: usize = 0;
        while i < IMG_STEPS
            invariant
                b < NUM_BANDS,
                i <= IMG_STEPS,
                narrow == narrowness(),
                az == band_angle(*img, b as int),
                steps@ == Seq::new(160, |i: int| step_angle(i)),
                r@.len() == 160 * b + i,
                forall|k: int| 0 <= k < 160 * b + i ==> #[trigger] r@[k] == bell_exponent(*img, k / 160, k % 160),
            decreases IMG_STEPS - i,
        {
            let delta = angle_delta(steps[i], az);
            r.push(delta.neg() * delta * narrow);
            proof {
                let k = 160 * b + i;
                assert(k / 160 == b && k % 160 == i);
            }
            i = i + 1;
        }
        b = b + 1;
    }
    assert(r@ =~= Seq::new(10240, |k: int| bell_exponent(*img, k / 160, k % 160)));
    r
}

/// What band `b` adds at step `i`: its directional part, where the bell is, and its
/// diffuse part, mostly behind.
pub open spec fn contribution(img: ImagingFrame, bells: Seq<F32>, turns: Seq<Turn>, b: int, i: int) -> F32 {
    let e = img.energy@[b];
    let d = part_of(img.diffuseness@[b]);
    e * (F32::unit() - d) * bells[160 * b + i] + e * d * diffuse(turns[i].cos)
}

/// Whether band `b` is loud enough to count.
pub open spec fn counts(img: ImagingFrame, b: int) -> bool {
    !img.energy@[b].le(F32::quotient(1, 100))
}

/// The energy that comes from step `i`, over the bands from `lo` up to `n`.
pub open spec fn lobe_energy(img: ImagingFrame, bells: Seq<F32>, turns: Seq<Turn>, i: int, lo: int, n: int) -> F32
    decreases n - lo,
{
    if n <= lo {
        F32::nought()
    } else {
        let before = lobe_energy(img, bells, turns, i, lo, n - 1);
        if counts(img, n - 1) {
            before + contribution(img, bells, turns, n - 1, i)
        } else {
            before
        }
    }
}

/// The energy that comes from step `i`, weighted by the place of its bands.
pub open spec fn lobe_moment(img: ImagingFrame, bells: Seq<F32>, turns: Seq<Turn>, i: int, lo: int, n: int) -> F32
    decreases n - lo,
{
    if n <= lo {
        F32::nought()
    } else {
        let before = lobe_moment(img, bells, turns, i, lo, n - 1);
        if counts(img, n - 1) {
            before + contribution(img, bells, turns, n - 1, i) * ramp(n - 1)
        } else {
            before
        }
    }
}

/// The mean place in the spectrum of what comes from a direction.
pub open spec fn lobe_tint(energy: F32, moment: F32) -> F32 {
    if F32::quotient(1, 1_000_000).lt(energy) {
        moment / energy
    } else {
        moment
    }
}

/// The lobe: for each step the energy and its mean place in the spectrum.
pub struct Lobe {
    pub energy: Vec<F32>,
    pub tint: Vec<F32>,
}

impl Lobe {
    /// Whether this is the lobe of the bands from `lo` up to `hi` of an image, with the
    /// given exponentials and turns.
    pub open spec fn is_of(self, img: ImagingFrame, bells: Seq<F32>, turns: Seq<Turn>, lo: int, hi: int) -> bool {
        &&& self.energy@ == Seq::new(160, |i: int| lobe_energy(img, bells, turns, i, lo, hi))
        &&& self.tint@ == Seq::new(
            160,
            |i: int|
                lobe_tint(lobe_energy(img, bells, turns, i, lo, hi), lobe_moment(img, bells, turns, i, lo, hi)),
        )
    }
}

/// Distributes the energy of the bands from `lo` up to `hi` over the directions; `bells`
/// holds the exponentials of the lobe exponents, `turns` the turns of the steps.
pub fn imaging_lobe(img: &ImagingFrame, bells: &[F32], turns: &[Turn], lo: usize, hi: usize) -> (r: Lobe)
    requires
        bells@.len() == LOBE_CELLS,
        turns@.len() == IMG_STEPS,
        lo <= hi <= NUM_BANDS,
    ensures
        r.is_of(*img, bells@, turns@, lo as int, hi as int),
{
    let mut energy: Vec<F32> = Vec::new();
    let mut tint: Vec<F32> = Vec::new();
    let mut i: usize = 0;
    while i < IMG_STEPS
        invariant
            i <= IMG_STEPS,
            lo <= hi <= NUM_BANDS,
            bells@.len() == LOBE_CELLS,
            turns@.len() == IMG_STEPS,
            energy@.len() == i,
            tint@.len() == i,
            forall|j: int|
                0 <= j < i ==> #[trigger] energy@[j] == lobe_energy(*img, bells@, turns@, j, lo as int, hi as int),
            forall|j: int|
                0 <= j < i ==> #[trigger] tint@[j] == lobe_tint(
                    lobe_energy(*img, bells@, turns@, j, lo as int, hi as int),
                    lobe_moment(*img, bells@, turns@, j, lo as int, hi as int),
                ),
        decreases IMG_STEPS - i,
    {
        let wide = diffuse_weight(turns[i].cos);
        let mut e_sum = F32::zero();
        let mut t_sum = F32::zero();
        let mut b: usize = lo;
        while b < hi
            invariant
                i < IMG_STEPS,
                lo <= b <= hi <= NUM_BANDS,
                bells@.len() == LOBE_CELLS,
                turns@.len() == IMG_STEPS,
                wide == diffuse(turns@[i as int].cos),
                e_sum == lobe_energy(*img, bells@, turns@, i as int, lo as int, b as int),
                t_sum == lobe_moment(*img, bells@, turns@, i as int, lo as int, b as int),
            decreases hi - b,
        {
            let e = img.energy[b];
            if !e.at_most(F32::ratio(1, 100)) {
                let d = clamp_part(img.diffuseness[b]);
                let w = e * (F32::one() - d) * bells[160 * b + i] + e * d * wide;
                e_sum = e_sum + w;
                t_sum = t_sum + w * ramp_at(b);
            }
            b = b + 1;
        }
        energy.push(e_sum);
        tint.push(
            if F32::ratio(1, 1_000_000).less(e_sum) {
                t_sum / e_sum
            } else {
                t_sum
            },
        );
        i = i + 1;
    }
    let r = Lobe { energy, tint };
    assert(r.energy@ =~= Seq::new(160, |i: int| lobe_energy(*img, bells@, turns@, i, lo as int, hi as int)));
    assert(r.tint@ =~= Seq::new(
        160,
        |i: int|
            lobe_tint(
                lobe_energy(*img, bells@, turns@, i, lo as int, hi as int),
                lobe_moment(*img, bells@, turns@, i, lo as int, hi as int),
            ),
    ));
    r
}

/// The exponent whose exponential softens the lobe at step `i`.
pub open spec fn decay_exponent(energy: F32) -> F32 {
    -energy * F32::quotient(55, 100)
}

/// The exponents whose exponentials soften the lobe.
pub fn decay_exponents(lobe: &Lobe) -> (r: Vec<F32>)
    ensures
        r@ == Seq::new(lobe.energy@.len(), |i: int| decay_exponent(lobe.energy@[i])),
{
    let mut r: Vec<F32> = Vec::new();
    let mut i: usize = 0;
    while i < lobe.energy.len()
        invariant
            i <= lobe.energy@.len(),
            r@.len() == i,
            forall|j: int| 0 <= j < i ==> #[trigger] r@[j] == decay_exponent(lobe.energy@[j]),
        decreases lobe.energy@.len() - i,
    {
        r.push(lobe.energy[i].neg() * F32::ratio(55, 100));
        i = i + 1;
    }
    assert(r@ =~= Seq::new(lobe.energy@.len(), |i: int| decay_exponent(lobe.energy@[i])));
    r
}

/// A line of the stage with a colour and a width per point.
pub struct Outline {
    pub pts: Seq<Point>,
    pub cols: Seq<Rgb>,
    pub widths: Seq<F32>,
}

/// The point of the border in front direction `j`.
pub open spec fn border_point(turns: Seq<Turn>, j: int) -> StagePoint {
    stage_point(facing(turns[front_step(j)]), img_radius())
}

/// The border of the stage, from the left over the front to the right and back along the
/// chord: brighter on the near side.
pub open spec fn border(turns: Seq<Turn>, p: Palette) -> Outline {
    Outline {
        pts: Seq::new(81, |j: int| (border_point(turns, j).x, border_point(turns, j).y)),
        cols: Seq::new(
            81,
            |j: int|
                scaled(p.color_a, F32::quotient(22, 100) * border_point(turns, j).s * border_point(turns, j).s),
        ),
        widths: Seq::new(81, |j: int| F32::quotient(6, 1000) * border_point(turns, j).s),
    }
}

/// How far the lobe reaches, from none to all of the stage.
pub open spec fn reach(decay: F32) -> F32 {
    F32::unit() - decay
}

/// The radius of the lobe.
pub open spec fn lobe_radius(decay: F32) -> F32 {
    lobe_min() + reach(decay) * (img_radius() - lobe_min())
}

/// The point of the lobe at a step.
pub open spec fn lobe_point(t: Turn, decay: F32) -> StagePoint {
    stage_point(facing(t), lobe_radius(decay))
}

fn lobe_point_of(t: Turn, decay: F32) -> (r: StagePoint)
    ensures
        r == lobe_point(t, decay),
{
    imaging_point(face(t), F32::ratio(10, 100) + (F32::one() - decay) * (stage_radius() - F32::ratio(10, 100)))
}

/// One lobe of the picture: for each step the exponential of its decay exponent, and its
/// mean place in the spectrum.
pub struct LobeTable<'a> {
    pub decays: &'a [F32],
    pub tint: &'a [F32],
}

impl<'a> LobeTable<'a> {
    /// One entry per step.
    pub open spec fn wf(self) -> bool {
        &&& self.decays@.len() == IMG_STEPS
        &&& self.tint@.len() == IMG_STEPS
    }

    /// The point of the outline in front direction `j`.
    pub open spec fn point(self, turns: Seq<Turn>, j: int) -> StagePoint {
        lobe_point(turns[front_step(j)], self.decays@[front_step(j)])
    }

    /// How far the lobe reaches in front direction `j`.
    pub open spec fn extent(self, j: int) -> F32 {
        reach(self.decays@[front_step(j)])
    }

    /// The colour in front direction `j`.
    pub open spec fn color(self, j: int, p: Palette) -> Rgb {
        mixed(p.color_a, p.color_b, self.tint@[front_step(j)])
    }

    /// The outline of the lobe: its radius is the energy from that direction.
    pub open spec fn line(self, turns: Seq<Turn>, p: Palette) -> Outline {
        Outline {
            pts: Seq::new(81, |j: int| (self.point(turns, j).x, self.point(turns, j).y)),
            cols: Seq::new(
                81,
                |j: int|
                    scaled(
                        self.color(j, p),
                        (F32::quotient(30, 100) + self.extent(j) * F32::quotient(85, 100)) * self.point(turns, j).s
                            * self.point(turns, j).s,
                    ),
            ),
            widths: Seq::new(81, |j: int| F32::quotient(10, 1000) * self.point(turns, j).s),
        }
    }

    /// The fan that fills the lobe, from the listener to its outline.
    pub open spec fn fill(self, turns: Seq<Turn>, p: Palette, inv_aspect: F32) -> Seq<Vertex> {
        let o = F32::nought();
        Seq::new(
            162,
            |k: int|
                if k % 2 == 0 {
                    Vertex { x: staged(o, o).x * inv_aspect, y: staged(o, o).y, r: o, g: o, b: o, a: F32::unit() }
                } else {
                    Vertex::at(
                        self.point(turns, k / 2).x * inv_aspect,
                        self.point(turns, k / 2).y,
                        scaled(
                            self.color(k / 2, p),
                            F32::quotient(5, 100) + self.extent(k / 2) * F32::quotient(10, 100),
                        ),
                        F32::unit(),
                    )
                },
        )
    }
}

/// Where a tick ends: the one in front is longer.
pub open spec fn tick_end(front: bool) -> F32 {
    img_radius() * if front {
        F32::quotient(116, 100)
    } else {
        F32::quotient(110, 100)
    }
}

/// A tick of the stage: three points on a ray.
pub open spec fn tick(t: Turn, front: bool, p: Palette) -> Outline {
    let a = stage_point(facing(t), img_radius() * F32::quotient(102, 100));
    let b = stage_point(facing(t), tick_end(front));
    let c = scaled(p.color_a, F32::quotient(30, 100) * a.s * a.s);
    let w = F32::quotient(6, 1000) * a.s;
    Outline {
        pts: seq![(a.x, a.y), ((a.x + b.x) * F32::half_unit(), (a.y + b.y) * F32::half_unit()), (b.x, b.y)],
        cols: seq![c, c, c],
        widths: seq![w, w, w],
    }
}

/// A strip with the ribbon of an outline appended.
pub open spec fn with_outline(out: Seq<Vertex>, o: Outline, closed: bool, inv_aspect: F32) -> Seq<Vertex> {
    with_ribbon(out, o.pts, o.cols, o.widths, closed, inv_aspect)
}

/// A strip with the first `n` ticks appended.
pub open spec fn with_ticks(out: Seq<Vertex>, ticks: Seq<Turn>, n: int, p: Palette, inv_aspect: F32) -> Seq<Vertex>
    decreases n,
{
    if n <= 0 {
        out
    } else {
        with_outline(with_ticks(out, ticks, n - 1, p, inv_aspect), tick(ticks[n - 1], n == 1, p), false, inv_aspect)
    }
}

/// The energy of a band that has a direction.
pub open spec fn directed(img: ImagingFrame, b: int) -> F32 {
    img.energy@[b] * (F32::unit() - part_of(img.diffuseness@[b]))
}

/// The light of a band on the border of the stage.
pub open spec fn dot(img: ImagingFrame, bands: Seq<Turn>, b: int, p: Palette, inv_aspect: F32) -> Vertex {
    let q = stage_point(facing(bands[b]), img_radius());
    Vertex::at(
        q.x * inv_aspect,
        q.y,
        mixed(p.color_a, p.color_b, ramp(b)),
        part_of(directed(img, b) * q.s * q.s),
    )
}

/// The lights of the first `n` bands, without those that hardly have a direction.
pub open spec fn dots(img: ImagingFrame, bands: Seq<Turn>, n: int, p: Palette, inv_aspect: F32) -> Seq<Vertex>
    decreases n,
{
    if n <= 0 {
        Seq::empty()
    } else {
        let before = dots(img, bands, n - 1, p, inv_aspect);
        if directed(img, n - 1).le(F32::quotient(1, 100)) {
            before
        } else {
            before.push(dot(img, bands, n - 1, p, inv_aspect))
        }
    }
}

/// The three layers of the stereo image.
pub struct Stage {
    /// The fill of the lobes, as one triangle strip.
    pub fill: Vec<Vertex>,
    /// Border, lobes and ticks, as one triangle strip.
    pub ribbons: Vec<Vertex>,
    /// One light per band, as points.
    pub dots: Vec<Vertex>,
}

/// What the caller has computed for the picture.
pub struct StageTables<'a> {
    /// Sine and cosine at the step angles.
    pub steps: &'a [Turn],
    /// Sine and cosine at the tick angles.
    pub ticks: &'a [Turn],
    /// Sine and cosine at the band angles.
    pub bands: &'a [Turn],
    /// The lobes of the low, middle and high frequencies.
    pub lows: LobeTable<'a>,
    pub mids: LobeTable<'a>,
    pub highs: LobeTable<'a>,
}

impl<'a> StageTables<'a> {
    /// One entry per step, tick and band.
    pub open spec fn wf(self) -> bool {
        &&& self.steps@.len() == IMG_STEPS
        &&& self.ticks@.len() == 3
        &&& self.bands@.len() == NUM_BANDS
        &&& self.lows.wf()
        &&& self.mids.wf()
        &&& self.highs.wf()
    }
}

/// The fill of the three lobes.
pub open spec fn stage_fill(t: StageTables, p: Palette, inv_aspect: F32) -> Seq<Vertex> {
    stitched(
        stitched(t.lows.fill(t.steps@, p, inv_aspect), t.mids.fill(t.steps@, p, inv_aspect)),
        t.highs.fill(t.steps@, p, inv_aspect),
    )
}

/// The ribbons of the stage: its border, the three lobes and the ticks.
pub open spec fn stage_ribbons(t: StageTables, p: Palette, inv_aspect: F32) -> Seq<Vertex> {
    let a = with_outline(Seq::empty(), border(t.steps@, p), true, inv_aspect);
    let b = with_outline(a, t.lows.line(t.steps@, p), true, inv_aspect);
    let c = with_outline(b, t.mids.line(t.steps@, p), true, inv_aspect);
    let d = with_outline(c, t.highs.line(t.steps@, p), true, inv_aspect);
    with_ticks(d, t.ticks@, 3, p, inv_aspect)
}

fn push_border(out: &mut Vec<Vertex>, turns: &[Turn], p: &Palette, inv_aspect: F32)
    requires
        turns@.len() == IMG_STEPS,
    ensures
        final(out)@ == with_outline(old(out)@, border(turns@, *p), true, inv_aspect),
{
    let ghost o = border(turns@, *p);
    let mut pts: Vec<Point> = Vec::new();
    let mut cols: Vec<Rgb> = Vec::new();
    let mut widths: Vec<F32> = Vec::new();
    let mut i: usize = 0;
    while i < FRONT_STEPS
        invariant
            i <= FRONT_STEPS,
            turns@.len() == IMG_STEPS,
            o == border(turns@, *p),
            pts@.len() == i,
            cols@.len() == i,
            widths@.len() == i,
            forall|j: int| 0 <= j < i ==> #[trigger] pts@[j] == o.pts[j],
            forall|j: int| 0 <= j < i ==> #[trigger] cols@[j] == o.cols[j],
            forall|j: int| 0 <= j < i ==> #[trigger] widths@[j] == o.widths[j],
        decreases FRONT_STEPS - i,
    {
        let q = imaging_point(face(turns[front_step_of(i)]), stage_radius());
        pts.push((q.x, q.y));
        cols.push(scale(p.color_a, F32::ratio(22, 100) * q.s * q.s));
        widths.push(F32::ratio(6, 1000) * q.s);
        i = i + 1;
    }
    assert(pts@ =~= o.pts);
    assert(cols@ =~= o.cols);
    assert(widths@ =~= o.widths);
    push_glow_ribbon(out, pts.as_slice(), cols.as_slice(), widths.as_slice(), true, inv_aspect);
}

fn push_lobe(out: &mut Vec<Vertex>, turns: &[Turn], lobe: &LobeTable, p: &Palette, inv_aspect: F32)
    requires
        turns@.len() == IMG_STEPS,
        lobe.wf(),
    ensures
        final(out)@ == with_outline(old(out)@, lobe.line(turns@, *p), true, inv_aspect),
{
    let ghost o = lobe.line(turns@, *p);
    let mut pts: Vec<Point> = Vec::new();
    let mut cols: Vec<Rgb> = Vec::new();
    let mut widths: Vec<F32> = Vec::new();
    let mut i: usize = 0;
    while i < FRONT_STEPS
        invariant
            i <= FRONT_STEPS,
            turns@.len() == IMG_STEPS,
            lobe.wf(),
            o == lobe.line(turns@, *p),
            pts@.len() == i,
            cols@.len() == i,
            widths@.len() == i,
            forall|j: int| 0 <= j < i ==> #[trigger] pts@[j] == o.pts[j],
            forall|j: int| 0 <= j < i ==> #[trigger] cols@[j] == o.cols[j],
            forall|j: int| 0 <= j < i ==> #[trigger] widths@[j] == o.widths[j],
        decreases FRONT_STEPS - i,
    {
        let f = front_step_of(i);
        let q = lobe_point_of(turns[f], lobe.decays[f]);
        let k = (F32::ratio(30, 100) + (F32::one() - lobe.decays[f]) * F32::ratio(85, 100)) * q.s * q.s;
        pts.push((q.x, q.y));
        cols.push(scale(mix(p.color_a, p.color_b, lobe.tint[f]), k));
        widths.push(F32::ratio(10, 1000) * q.s);
        i = i + 1;
    }
    assert(pts@ =~= o.pts);
    assert(cols@ =~= o.cols);
    assert(widths@ =~= o.widths);
    push_glow_ribbon(out, pts.as_slice(), cols.as_slice(), widths.as_slice(), true, inv_aspect);
}

fn push_tick(out: &mut Vec<Vertex>, t: Turn, front: bool, p: &Palette, inv_aspect: F32)
    ensures
        final(out)@ == with_outline(old(out)@, tick(t, front, *p), false, inv_aspect),
{
    let ghost o = tick(t, front, *p);
    let a = imaging_point(face(t), stage_radius() * F32::ratio(102, 100));
    let end = if front {
        F32::ratio(116, 100)
    } else {
        F32::ratio(110, 100)
    };
    let b = imaging_point(face(t), stage_radius() * end);
    let c = scale(p.color_a, F32::ratio(30, 100) * a.s * a.s);
    let w = F32::ratio(6, 1000) * a.s;
    let mut pts: Vec<Point> = Vec::new();
    pts.push((a.x, a.y));
    pts.push(((a.x + b.x) * F32::half(), (a.y + b.y) * F32::half()));
    pts.push((b.x, b.y));
    let mut cols: Vec<Rgb> = Vec::new();
    cols.push(c);
    cols.push(c);
    cols.push(c);
    let mut widths: Vec<F32> = Vec::new();
    widths.push(w);
    widths.push(w);
    widths.push(w);
    assert(pts@ =~= o.pts);
    assert(cols@ =~= o.cols);
    assert(widths@ =~= o.widths);
    push_glow_ribbon(out, pts.as_slice(), cols.as_slice(), widths.as_slice(), false, inv_aspect);
}

fn fill_lobe(turns: &[Turn], lobe: &LobeTable, p: &Palette, inv_aspect: F32) -> (v: Vec<Vertex>)
    requires
        turns@.len() == IMG_STEPS,
        lobe.wf(),
    ensures
        v@ == lobe.fill(turns@, *p, inv_aspect),
{
    let ghost full = lobe.fill(turns@, *p, inv_aspect);
    let zero = F32::zero();
    let c = imaging_project(zero, zero);
    let mut v: Vec<Vertex> = Vec::new();
    let mut i: usize = 0;
    while i < FRONT_STEPS
        invariant
            i <= FRONT_STEPS,
            turns@.len() == IMG_STEPS,
            lobe.wf(),
            zero == F32::nought(),
            c == staged(F32::nought(), F32::nought()),
            full == lobe.fill(turns@, *p, inv_aspect),
            v@.len() == 2 * i,
            forall|j: int| 0 <= j < 2 * i ==> #[trigger] v@[j] == full[j],
        decreases FRONT_STEPS - i,
    {
        let f = front_step_of(i);
        let q = lobe_point_of(turns[f], lobe.decays[f]);
        let k = F32::ratio(5, 100) + (F32::one() - lobe.decays[f]) * F32::ratio(10, 100);
        let col = scale(mix(p.color_a, p.color_b, lobe.tint[f]), k);
        v.push(Vertex { x: c.x * inv_aspect, y: c.y, r: zero, g: zero, b: zero, a: F32::one() });
        v.push(Vertex::new(q.x * inv_aspect, q.y, col, F32::one()));
        i = i + 1;
    }
    assert(v@ =~= full);
    v
}

fn band_dots(img: &ImagingFrame, bands: &[Turn], p: &Palette, inv_aspect: F32) -> (v: Vec<Vertex>)
    requires
        bands@.len() == NUM_BANDS,
    ensures
        v@ == dots(*img, bands@, NUM_BANDS as int, *p, inv_aspect),
{
    let mut v: Vec<Vertex> = Vec::new();
    assert(v@ =~= dots(*img, bands@, 0, *p, inv_aspect));
    let mut b: usize = 0;
    while b < NUM_BANDS
        invariant
            b <= NUM_BANDS,
            bands@.len() == NUM_BANDS,
            v@ == dots(*img, bands@, b as int, *p, inv_aspect),
        decreases NUM_BANDS - b,
    {
        let e = img.energy[b] * (F32::one() - clamp_part(img.diffuseness[b]));
        if !e.at_most(F32::ratio(1, 100)) {
            let q = imaging_point(face(bands[b]), stage_radius());
            let c = mix(p.color_a, p.color_b, ramp_at(b));
            v.push(Vertex::new(q.x * inv_aspect, q.y, c, clamp_part(e * q.s * q.s)));
        }
        b = b + 1;
    }
    v
}

/// Builds the stereo image: the fill of the lobes, the ribbons and the lights of the
/// bands.
pub fn build_imaging(img: &ImagingFrame, palette: &Palette, inv_aspect: F32, t: &StageTables) -> (r: Stage)
    requires
        t.wf(),
    ensures
        r.fill@ == stage_fill(*t, *palette, inv_aspect),
        r.ribbons@ == stage_ribbons(*t, *palette, inv_aspect),
        r.dots@ == dots(*img, t.bands@, NUM_BANDS as int, *palette, inv_aspect),
{
    let mut ribbons: Vec<Vertex> = Vec::new();
    assert(ribbons@ =~= Seq::<Vertex>::empty());
    push_border(&mut ribbons, t.steps, palette, inv_aspect);
    push_lobe(&mut ribbons, t.steps, &t.lows, palette, inv_aspect);
    push_lobe(&mut ribbons, t.steps, &t.mids, palette, inv_aspect);
    push_lobe(&mut ribbons, t.steps, &t.highs, palette, inv_aspect);
    let ghost base = ribbons@;
    let mut q: usize = 0;
    while q < 3
        invariant
            q <= 3,
            t.wf(),
            ribbons@ == with_ticks(base, t.ticks@, q as int, *palette, inv_aspect),
        decreases 3 - q,
    {
        push_tick(&mut ribbons, t.ticks[q], q == 0, palette, inv_aspect);
        q = q + 1;
    }
    let mut fill = fill_lobe(t.steps, &t.lows, palette, inv_aspect);
    stitch(&mut fill, &fill_lobe(t.steps, &t.mids, palette, inv_aspect));
    stitch(&mut fill, &fill_lobe(t.steps, &t.highs, palette, inv_aspect));
    Stage { fill, ribbons, dots: band_dots(img, t.bands, palette, inv_aspect) }
}

/// The circle constants are exact multiples of each other.
pub(super) proof fn lemma_circle()
    ensures
        tau().units() == 2 * pi().units(),
        pi().units() == 2 * quarter().units(),
        quarter().units() > 0,
        tau().finite(),
        pi().finite(),
        quarter().finite(),
        !pi().negative(),
{
    reveal(F32::quotient);
    lemma2_to64();
    let k = 13176795int;
    lemma_quotient_number(k, 2097152);
    lemma_quotient_number(k, 4194304);
    lemma_quotient_number(k, 8388608);
    lemma_binary_fraction(k, 21);
    lemma_binary_fraction(k, 22);
    lemma_binary_fraction(k, 23);
    lemma_pow2_unfold(128);
    lemma_pow2_unfold(127);
    lemma_pow2_pos(126);
    let a = pow2(126) as int;
    assert(k * (2 * (2 * a)) == 2 * (k * (2 * a)) && k * (2 * a) == 2 * (k * a) && k * a > 0) by (nonlinear_arith)
        requires a > 0, k > 0;
}

/// The difference of two angles lies from minus half a turn to half a turn.
pub proof fn law_angle_delta_is_half_turn(a: F32, b: F32)
    requires
        (a - b).finite(),
    ensures
        turn_between(a, b).within(-pi(), pi()),
{
    lemma_circle();
    lemma_neg(pi());
    lemma_neg(tau());
    let x = a - b;
    let d = x % tau();
    assert(d.within(-tau(), tau())) by {
        reveal(F32::spec_euclidean_mod);
        lemma_mag_units_order(0, x.mag());
        lemma_mag_units_order(0, tau().mag());
        let m = mag_units(x.mag());
        let y = mag_units(tau().mag());
        lemma_mod_bound(m, y);
        let r = m % y;
        lemma_nearest_positive(r, 1);
        lemma_nearest_exact(tau().mag());
        lemma_nearest_order(r, 1, y, 1);
        lemma_signed(x.negative(), nearest_mag(r, 1));
        lemma_mag_units_order(nearest_mag(r, 1), tau().mag());
        lemma_mag_units_order(tau().mag(), nearest_mag(r, 1));
    }
    lemma_bounded_is_finite(d, tau());
    if pi().lt(d) {
        lemma_sub_between(d, tau(), -pi(), pi());
    } else if d.lt(-pi()) {
        lemma_add_between(d, tau(), -pi(), pi());
    }
}

/// A sign, plus or minus one, turns a number or leaves it.
pub(super) proof fn lemma_signed_product(sign: F32, x: F32)
    requires
        sign == F32::unit() || sign == -F32::unit(),
        x.finite(),
    ensures
        (sign * x).finite(),
        (sign * x).units() == if sign == F32::unit() {
            x.units()
        } else {
            -x.units()
        },
{
    lemma_one();
    lemma_neg(F32::unit());
    lemma_neg(x);
    let w = one_units();
    let u = x.units();
    if sign == F32::unit() {
        assert(u * w == w * u) by (nonlinear_arith);
        lemma_mul_between(sign, x, x, x);
        lemma_same_value(sign * x, x);
    } else {
        assert((-u) * w == (-w) * u) by (nonlinear_arith);
        lemma_mul_between(sign, x, -x, -x);
        lemma_same_value(sign * x, -x);
    }
}

/// A scene in front stays where it is.
pub proof fn law_front_stays(azimuth: F32, rear: F32)
    requires
        azimuth.within(-pi(), pi()),
        rear.finite(),
        rear.units() == 0,
    ensures
        reflected(azimuth, rear).units() == azimuth.units(),
{
    lemma_circle();
    lemma_one();
    lemma_whole(2);
    lemma_neg(pi());
    lemma_bounded_is_finite(azimuth, pi());
    let mag = azimuth.unsigned();
    lemma_signed(false, azimuth.mag());
    let two = F32::whole(2);
    let w = one_units();
    let m = mag.units();
    let p = pi().units();
    lemma_mag_units_order(0, azimuth.mag());
    assert(0 * w <= (2 * w) * m <= (2 * p) * w) by (nonlinear_arith)
        requires 0 <= m <= p, w > 0;
    assert(tau().units() * w == (2 * p) * w);
    lemma_mul_between(two, mag, F32::nought(), tau());
    lemma_bounded_is_finite_between(two * mag, F32::nought(), tau());
    lemma_sub_between(pi(), two * mag, -pi(), pi());
    let x = pi() - two * mag;
    lemma_bounded_is_finite(x, pi());
    lemma_zero_mag(rear);
    lemma_zero_product(rear, x);
    lemma_plus_zero(mag, rear * x);
    let sign = if azimuth.lt(F32::nought()) {
        -F32::unit()
    } else {
        F32::unit()
    };
    lemma_signed_product(sign, mag + rear * x);
    assert(sign == F32::unit() || sign == -F32::unit());
    lemma_neg(F32::unit());
}

/// The sides are fixed points: there, in front and behind are the same.
pub proof fn law_sides_are_fixed(azimuth: F32, rear: F32)
    requires
        azimuth == quarter() || azimuth == -quarter(),
        rear.finite(),
    ensures
        reflected(azimuth, rear).units() == azimuth.units(),
{
    lemma_circle();
    lemma_one();
    lemma_whole(2);
    lemma_neg(quarter());
    let mag = azimuth.unsigned();
    lemma_signed(false, azimuth.mag());
    let two = F32::whole(2);
    let w = one_units();
    let m = mag.units();
    lemma_mag_units_order(0, azimuth.mag());
    assert(m == quarter().units());
    assert((2 * w) * m == (2 * m) * w) by (nonlinear_arith);
    lemma_mul_between(two, mag, pi(), pi());
    lemma_same_value(two * mag, pi());
    lemma_sub_between(pi(), two * mag, F32::nought(), F32::nought());
    let x = pi() - two * mag;
    lemma_same_value(x, F32::nought());
    lemma_zero_mag(x);
    lemma_times_zero(rear, x);
    lemma_plus_zero(mag, rear * x);
    let sign = if azimuth.lt(F32::nought()) {
        -F32::unit()
    } else {
        F32::unit()
    };
    lemma_signed_product(sign, mag + rear * x);
    lemma_neg(F32::unit());
}

/// The diffuse part weighs nothing in front, everything behind, and in between a part.
pub proof fn law_diffuse_weight_is_part(cosine: F32)
    requires
        cosine.within(-F32::unit(), F32::unit()),
    ensures
        is_part(diffuse(cosine)),
        cosine == F32::unit() ==> diffuse(cosine).units() == 0,
        cosine == -F32::unit() ==> diffuse(cosine).units() == one_units(),
{
    lemma_one();
    lemma_half();
    lemma_whole(2);
    lemma_neg(F32::unit());
    let w = one_units();
    lemma_bounded_is_finite(cosine, F32::unit());
    let two = F32::whole(2);
    lemma_sub_between(F32::unit(), cosine, F32::nought(), two);
    let x = F32::unit() - cosine;
    lemma_bounded_is_finite_between(x, F32::nought(), two);
    let h = F32::half_unit().units();
    let u = x.units();
    assert(0 * w <= u * h <= w * w) by (nonlinear_arith)
        requires 0 <= u <= 2 * w, 2 * h == w;
    lemma_mul_between(x, F32::half_unit(), F32::nought(), F32::unit());
    if cosine == F32::unit() {
        lemma_sub_between(F32::unit(), cosine, F32::nought(), F32::nought());
        lemma_zero_mag(x);
        lemma_zero_product(x, F32::half_unit());
    }
    if cosine == -F32::unit() {
        lemma_sub_between(F32::unit(), cosine, two, two);
        assert(w * w == (2 * w) * h) by (nonlinear_arith)
            requires 2 * h == w;
        lemma_mul_between(x, F32::half_unit(), F32::unit(), F32::unit());
    }
}

/// The lobe never collapses to the centre.
pub proof fn law_lobe_never_collapses(decay: F32)
    requires
        is_part(decay),
    ensures
        lobe_min().le(lobe_radius(decay)),
        lobe_radius(decay).le(F32::unit()),
{
    lemma_one();
    lemma_part_is_finite(decay);
    let w = one_units();
    lemma_quotient_number(70, 100);
    lemma_quotient_number(10, 100);
    lemma_binary_fraction(13, 4);
    lemma_binary_fraction(2, 4);
    lemma2_to64();
    lemma_pow2_adds(4, 145);
    let high = F32::quotient(13, 16);
    let low = F32::quotient(2, 16);
    lemma_quotient_number(13, 16);
    lemma_quotient_number(2, 16);
    lemma_quotient_between(70, 100, F32::nought(), high);
    lemma_quotient_between(70, 100, low, high);
    lemma_quotient_between(10, 100, F32::nought(), low);
    lemma_sub_between(img_radius(), lobe_min(), F32::nought(), high);
    let span = img_radius() - lobe_min();
    lemma_bounded_is_finite_between(span, F32::nought(), high);
    lemma_sub_between(F32::unit(), decay, F32::nought(), F32::unit());
    let v = reach(decay);
    lemma_part_is_finite(v);
    let x = v.units();
    let y = span.units();
    let h = high.units();
    assert(0 * w <= x * y <= h * w) by (nonlinear_arith)
        requires 0 <= x <= w, 0 <= y <= h;
    lemma_mul_between(v, span, F32::nought(), high);
    lemma_bounded_is_finite_between(v * span, F32::nought(), high);
    lemma_add_between(lobe_min(), v * span, lobe_min(), F32::unit());
}

/// A band without a direction gets no light on the border.
pub proof fn law_diffuse_band_has_no_dot(img: ImagingFrame, b: int)
    requires
        img.diffuseness@[b] == F32::unit(),
        img.energy@[b].finite(),
    ensures
        directed(img, b).le(F32::quotient(1, 100)),
{
    lemma_one();
    lemma_quotient_number(1, 100);
    lemma_sub_between(F32::unit(), F32::unit(), F32::nought(), F32::nought());
    let z = F32::unit() - F32::unit();
    lemma_same_value(z, F32::nought());
    lemma_zero_mag(z);
    lemma_times_zero(img.energy@[b], z);
}

/// Without energy nothing comes from anywhere.
pub proof fn law_silence_has_no_lobe(img: ImagingFrame, bells: Seq<F32>, turns: Seq<Turn>, i: int, lo: int, n: int)
    requires
        forall|b: int| lo <= b < n ==> !counts(img, b),
    ensures
        lobe_energy(img, bells, turns, i, lo, n) == F32::nought(),
        lobe_moment(img, bells, turns, i, lo, n) == F32::nought(),
    decreases n - lo,
{
    if n > lo {
        law_silence_has_no_lobe(img, bells, turns, i, lo, n - 1);
        assert(!counts(img, n - 1));
    }
}

} // verus!
