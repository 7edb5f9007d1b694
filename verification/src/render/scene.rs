//! What is drawn in a frame, and in which order: a veil over the last frame, then
//! the passes of the effect. Sines, cosines and exponentials are the caller's.

use super::imaging::{build_imaging, dots, stage_fill, stage_ribbons, StageTables};
use super::levels::{audio_drive, drive, next_envelope};
use super::paint::{Palette, Vertex};
use super::particles::{build_particle_vertices, joined, particle_points, room, survivors, Emission, ParticleField};
use super::radial::{build_radial_spectrum, build_radial_spokes, inner_points, round_line, spokes, Turn};
use super::ribbon::{
    build_line_spectrum, build_line_vertices, fill, floor_points, line_area, neon, neon_line, spectrum_line,
    visibility, Neon,
};
use super::rng::Rng;
use super::shapes::{bars, build_bar_vertices, build_fade_quad, fade, fade_quad};
use super::tunnel::{
    build_star_vertices, build_tunnel_rings, emission, lit, newborn, ring_due, ring_shape, rings_left, rings_strip,
    seeded, star_count, star_point, star_room, stars_left, views, MAX_RINGS, RING_POINTS, StarSeed, Tunnel,
};
use crate::bands::NUM_BANDS;
use crate::config::{Effect, Rgb};
use crate::dsp::SpectrumFrame;
use crate::exact::veil::{law_veil_covers_the_screen, law_veil_leaves_the_blur};
use crate::float::laws::{
    lemma_add_is_number, lemma_neg, lemma_one, lemma_quotient_between, lemma_quotient_number, lemma_sub_between,
};
use crate::float::value::close;
use crate::float::F32;
use crate::solid::mesh::SolidMesh;
use crate::solid::view::{
    build_solid_edges, build_solid_faces, build_solid_points, edge_strip, face_triangles, project_solid,
    rest_perspective, solid_point, solid_s0, vertex_view, Camera, SolidPose, SolidState,
};
use crate::stereo::ImagingFrame;
use vstd::prelude::*;

verus! {

/// The programs that colour what is drawn.
#[derive(Debug, Clone, Copy, PartialEq, Eq, Structural)]
pub enum Shader {
    /// The colour of the vertices as it is.
    Plain,
    /// Points with a bright core and a halo.
    Glow,
    /// The soft halo of a ribbon.
    Neon,
    /// The halo of a ribbon with a sharp core.
    Tube,
}

/// How what is drawn joins what is there.
#[derive(Debug, Clone, Copy, PartialEq, Eq, Structural)]
pub enum Blend {
    /// It covers it, as far as it is opaque.
    Over,
    /// It adds to it.
    Add,
}

/// How vertices are joined.
#[derive(Debug, Clone, Copy, PartialEq, Eq, Structural)]
pub enum Primitive {
    Triangles,
    TriangleStrip,
    LineStrip,
    Points,
}

/// One draw call.
pub struct Pass {
    pub shader: Shader,
    pub blend: Blend,
    pub primitive: Primitive,
    pub vertices: Vec<Vertex>,
}

impl Pass {
    /// Whether a pass draws these vertices in this way.
    pub open spec fn draws(self, shader: Shader, blend: Blend, primitive: Primitive, vertices: Seq<Vertex>) -> bool {
        &&& self.shader == shader
        &&& self.blend == blend
        &&& self.primitive == primitive
        &&& self.vertices@ == vertices
    }
}

/// The height of the picture over its width; either counts as at least one.
pub open spec fn aspect(width: int, height: int) -> F32 {
    F32::whole(
        if height < 1 {
            1
        } else {
            height
        },
    ) / F32::whole(
        if width < 1 {
            1
        } else {
            width
        },
    )
}

/// The height of the picture over its width.
pub fn inverse_aspect(width: i32, height: i32) -> (r: F32)
    ensures
        r == aspect(width as int, height as int),
{
    let w: u64 = if width < 1 {
        1
    } else {
        width as u64
    };
    let h: u64 = if height < 1 {
        1
    } else {
        height as u64
    };
    F32::from_int(h) / F32::from_int(w)
}

/// The veil over the last frame: the more blur, the more of it stays.
pub fn veil(blur: F32) -> (r: Pass)
    ensures
        r.draws(Shader::Plain, Blend::Over, Primitive::Triangles, fade_quad(fade(blur))),
        blur.finite() && 0real <= blur.value() <= 95real / 100real ==> forall|j: int|
            0 <= j < r.vertices@.len() ==> close(
                (#[trigger] r.vertices@[j]).a,
                1real - blur.value(),
                1real / 10000000real,
            ),
{
    proof {
        lemma_one();
        lemma_floor();
        if blur.finite() && 0real <= blur.value() <= 95real / 100real {
            law_veil_leaves_the_blur(blur);
            assert forall|j: int| 0 <= j < 6 implies (#[trigger] fade_quad(fade(blur))[j]).a == fade(blur) by {
                law_veil_covers_the_screen(fade(blur), j);
            }
        }
    }
    let alpha = (F32::one() - blur).clamp(F32::ratio(5, 100), F32::one());
    Pass {
        shader: Shader::Plain,
        blend: Blend::Over,
        primitive: Primitive::Triangles,
        vertices: build_fade_quad(alpha),
    }
}

/// The least opacity of the veil is below one.
proof fn lemma_floor()
    ensures
        F32::quotient(5, 100).le(F32::unit()),
        F32::nought().lt(F32::quotient(5, 100)),
{
    lemma_one();
    lemma_quotient_number(5, 100);
    lemma_quotient_between(5, 100, F32::nought(), F32::unit());
}

/// The veil always dims the last frame a little, and without blur it hides it.
pub proof fn law_veil_dims(blur: F32)
    requires
        !blur.nan(),
    ensures
        F32::quotient(5, 100).le(fade(blur)),
        fade(blur).le(F32::unit()),
        blur == F32::nought() ==> fade(blur).units() == F32::unit().units(),
{
    lemma_one();
    lemma_floor();
    lemma_neg(blur);
    lemma_add_is_number(-blur, F32::unit());
    if blur == F32::nought() {
        lemma_sub_between(F32::unit(), blur, F32::unit(), F32::unit());
    }
}

/// The passes of the bars.
pub fn bar_passes(left: &SpectrumFrame, right: &SpectrumFrame, palette: &Palette) -> (r: Vec<Pass>)
    ensures
        r@.len() == 1,
        r@[0].draws(
            Shader::Plain,
            Blend::Over,
            Primitive::Triangles,
            bars(left@, right@, NUM_BANDS as int, *palette),
        ),
{
    let mut r: Vec<Pass> = Vec::new();
    r.push(
        Pass {
            shader: Shader::Plain,
            blend: Blend::Over,
            primitive: Primitive::Triangles,
            vertices: build_bar_vertices(left, right, palette),
        },
    );
    r
}

/// The passes of the filled line.
pub fn line_passes(left: &SpectrumFrame, right: &SpectrumFrame, palette: &Palette) -> (r: Vec<Pass>)
    ensures
        r@.len() == 1,
        r@[0].draws(
            Shader::Plain,
            Blend::Over,
            Primitive::TriangleStrip,
            line_area(spectrum_line(left@, right@), *palette),
        ),
{
    let mut r: Vec<Pass> = Vec::new();
    r.push(
        Pass {
            shader: Shader::Plain,
            blend: Blend::Over,
            primitive: Primitive::TriangleStrip,
            vertices: build_line_vertices(left, right, palette),
        },
    );
    r
}

/// The passes of a neon curve: the fill, the halo added, and the thin border.
pub fn draw_neon(n: Neon) -> (r: Vec<Pass>)
    ensures
        r@.len() == 3,
        r@[0].draws(Shader::Plain, Blend::Over, Primitive::TriangleStrip, n.fill@),
        r@[1].draws(Shader::Neon, Blend::Add, Primitive::TriangleStrip, n.halo@),
        r@[2].draws(Shader::Plain, Blend::Over, Primitive::LineStrip, n.line@),
{
    let mut r: Vec<Pass> = Vec::new();
    r.push(
        Pass {
            shader: Shader::Plain,
            blend: Blend::Over,
            primitive: Primitive::TriangleStrip,
            vertices: n.fill,
        },
    );
    r.push(
        Pass { shader: Shader::Neon, blend: Blend::Add, primitive: Primitive::TriangleStrip, vertices: n.halo },
    );
    r.push(Pass { shader: Shader::Plain, blend: Blend::Over, primitive: Primitive::LineStrip, vertices: n.line });
    r
}

/// The passes of the neon line.
pub fn line_spectrum_passes(left: &SpectrumFrame, right: &SpectrumFrame, palette: &Palette) -> (r: Vec<Pass>)
    ensures
        ({
            let pts = spectrum_line(left@, right@);
            let vis = visibility(left@, right@);
            &&& r@.len() == 3
            &&& r@[0].draws(
                Shader::Plain,
                Blend::Over,
                Primitive::TriangleStrip,
                fill(pts, floor_points(pts), *palette, false),
            )
            &&& r@[1].draws(Shader::Neon, Blend::Add, Primitive::TriangleStrip, neon(pts, *palette, false, vis))
            &&& r@[2].draws(Shader::Plain, Blend::Over, Primitive::LineStrip, neon_line(pts, *palette, false, vis))
        }),
{
    draw_neon(build_line_spectrum(left, right, palette))
}

/// Which passes an effect is made of.
#[derive(Debug, Clone, Copy, PartialEq, Eq, Structural)]
pub enum Family {
    /// `bar_passes`.
    Bars,
    /// `line_passes`.
    Line,
    /// `line_spectrum_passes`.
    NeonLine,
    /// `Scene::radial_passes`.
    Spokes,
    /// `Scene::radial_spectrum_passes`.
    NeonRing,
    /// `Scene::tunnel_passes`.
    Tunnel,
    /// `Scene::solid_passes`.
    Solid,
    /// `imaging_passes`.
    Stage,
    /// None but the veil.
    Bare,
}

/// The passes of an effect.
pub fn family(effect: Effect) -> (r: Family)
    ensures
        r == match effect {
            Effect::Bars => Family::Bars,
            Effect::Line => Family::Line,
            Effect::LineSpectrum => Family::NeonLine,
            Effect::Radial => Family::Spokes,
            Effect::RadialSpectrum => Family::NeonRing,
            Effect::Tunnel => Family::Tunnel,
            Effect::Solid => Family::Solid,
            Effect::Imaging => Family::Stage,
            Effect::Terrain | Effect::Phase | Effect::Nebula => Family::Bare,
        },
{
    match effect {
        Effect::Bars => Family::Bars,
        Effect::Line => Family::Line,
        Effect::LineSpectrum => Family::NeonLine,
        Effect::Radial => Family::Spokes,
        Effect::RadialSpectrum => Family::NeonRing,
        Effect::Tunnel => Family::Tunnel,
        Effect::Solid => Family::Solid,
        Effect::Imaging => Family::Stage,
        Effect::Terrain | Effect::Phase | Effect::Nebula => Family::Bare,
    }
}

/// Everything that moves from frame to frame.
pub struct Scene {
    pub particles: ParticleField,
    pub tunnel: Tunnel,
    pub mesh: SolidMesh,
    pub solid: SolidState,
    /// The slow mean of the bass.
    pub bass_env: F32,
    pub rng: Rng,
    pub first_frame: bool,
    /// The particles that have left in this frame and do not fly yet.
    pub sparks: Vec<Emission>,
    /// The stars that have appeared in this frame and do not shine yet.
    pub seeds: Vec<StarSeed>,
}

impl Scene {
    /// The parts of the solid belong together.
    pub open spec fn wf(self) -> bool {
        &&& self.mesh.wf()
        &&& self.solid.face_pop@.len() == self.mesh.faces@.len()
    }

    /// Nothing has happened yet.
    pub fn new(mesh: SolidMesh) -> (r: Scene)
        requires
            mesh.wf(),
        ensures
            r.wf(),
            r.mesh == mesh,
            r.particles.particles@.len() == 0,
            forall|i: int| 0 <= i < NUM_BANDS ==> #[trigger] r.particles.prev_left@[i] == F32::nought(),
            forall|i: int| 0 <= i < NUM_BANDS ==> #[trigger] r.particles.prev_right@[i] == F32::nought(),
            r.tunnel.rings@.len() == 0,
            r.tunnel.stars@.len() == 0,
            r.tunnel.ring_emit == F32::unit(),
            r.solid.face_pop@ == Seq::new(mesh.faces@.len(), |i: int| F32::nought()),
            r.solid.spin == F32::nought(),
            r.solid.time == F32::nought(),
            r.bass_env == F32::nought(),
            r.rng.at() == 0x1234_5678,
            r.first_frame,
            r.sparks@.len() == 0,
            r.seeds@.len() == 0,
    {
        let solid = SolidState::new(&mesh);
        Scene {
            particles: ParticleField::new(),
            tunnel: Tunnel::new(),
            mesh,
            solid,
            bass_env: F32::zero(),
            rng: Rng::new(0x1234_5678),
            first_frame: true,
            sparks: Vec::new(),
            seeds: Vec::new(),
        }
    }

    /// Whether the screen is to be cleared first, as it is once.
    pub fn clears(&mut self) -> (r: bool)
        ensures
            r == old(self).first_frame,
            *final(self) == (Scene { first_frame: false, ..*old(self) }),
    {
        let r = self.first_frame;
        self.first_frame = false;
        r
    }

    /// Lets particles leave the spokes in a frame. What comes back are their angles, of
    /// which the passes need sines and cosines.
    pub fn emissions(&mut self, left: &SpectrumFrame, right: &SpectrumFrame) -> (angles: Vec<F32>)
        ensures
            ({
                let s = old(self).particles.frames(left@, right@).emitted(
                    old(self).rng.at(),
                    room(old(self).particles.particles@.len() as int),
                    2 * NUM_BANDS as int,
                );
                &&& final(self).sparks@ == s.list
                &&& final(self).rng.at() == s.rng
            }),
            angles@ == Seq::new(final(self).sparks@.len(), |i: int| final(self).sparks@[i].angle),
            *final(self) == (Scene { rng: final(self).rng, sparks: final(self).sparks, ..*old(self) }),
    {
        self.sparks = self.particles.emissions(left, right, &mut self.rng);
        let mut angles: Vec<F32> = Vec::new();
        let mut i: usize = 0;
        while i < self.sparks.len()
            invariant
                i <= self.sparks@.len(),
                angles@.len() == i,
                forall|j: int| 0 <= j < i ==> #[trigger] angles@[j] == self.sparks@[j].angle,
            decreases self.sparks@.len() - i,
        {
            angles.push(self.sparks[i].angle);
            i = i + 1;
        }
        assert(angles@ =~= Seq::new(self.sparks@.len(), |i: int| self.sparks@[i].angle));
        angles
    }

    /// Lets the particles fly, the new ones with `turns`, and gives their pass.
    fn fly(
        &mut self,
        left: &SpectrumFrame,
        right: &SpectrumFrame,
        palette: &Palette,
        inv_aspect: F32,
        turns: &[Turn],
    ) -> (r: Pass)
        requires
            turns@.len() == old(self).sparks@.len(),
        ensures
            ({
                let all = joined(old(self).particles.particles@, old(self).sparks@, turns@);
                let ps = survivors(all, all.len() as int);
                &&& r.draws(Shader::Glow, Blend::Add, Primitive::Points, particle_points(ps, *palette, inv_aspect))
                &&& final(self).particles.particles@ == ps
            }),
            final(self).particles.prev_left == *left,
            final(self).particles.prev_right == *right,
            final(self).sparks@.len() == 0,
            *final(self) == (Scene { particles: final(self).particles, sparks: final(self).sparks, ..*old(self) }),
    {
        self.particles.update_particles(left, right, self.sparks.as_slice(), turns);
        self.sparks = Vec::new();
        Pass {
            shader: Shader::Glow,
            blend: Blend::Add,
            primitive: Primitive::Points,
            vertices: build_particle_vertices(self.particles.particles.as_slice(), palette, inv_aspect),
        }
    }

    /// The passes of the radial effect: the spokes, then the particles.
    pub fn radial_passes(
        &mut self,
        left: &SpectrumFrame,
        right: &SpectrumFrame,
        palette: &Palette,
        inv_aspect: F32,
        spoke_turns: &[Turn],
        turns: &[Turn],
    ) -> (r: Vec<Pass>)
        requires
            spoke_turns@.len() == 256,
            turns@.len() == old(self).sparks@.len(),
        ensures
            ({
                let all = joined(old(self).particles.particles@, old(self).sparks@, turns@);
                let ps = survivors(all, all.len() as int);
                &&& r@.len() == 2
                &&& r@[0].draws(
                    Shader::Plain,
                    Blend::Over,
                    Primitive::Triangles,
                    spokes(left@, right@, spoke_turns@, NUM_BANDS as int, *palette, inv_aspect),
                )
                &&& r@[1].draws(Shader::Glow, Blend::Add, Primitive::Points, particle_points(ps, *palette, inv_aspect))
                &&& final(self).particles.particles@ == ps
            }),
            final(self).particles.prev_left == *left,
            final(self).particles.prev_right == *right,
            final(self).sparks@.len() == 0,
            *final(self) == (Scene { particles: final(self).particles, sparks: final(self).sparks, ..*old(self) }),
    {
        let spokes = build_radial_spokes(left, right, palette, inv_aspect, spoke_turns);
        let sparks = self.fly(left, right, palette, inv_aspect, turns);
        let mut r: Vec<Pass> = Vec::new();
        r.push(
            Pass { shader: Shader::Plain, blend: Blend::Over, primitive: Primitive::Triangles, vertices: spokes },
        );
        r.push(sparks);
        r
    }

    /// The passes of the neon radial effect: the curve, then the particles.
    pub fn radial_spectrum_passes(
        &mut self,
        left: &SpectrumFrame,
        right: &SpectrumFrame,
        palette: &Palette,
        inv_aspect: F32,
        round_turns: &[Turn],
        turns: &[Turn],
    ) -> (r: Vec<Pass>)
        requires
            round_turns@.len() == 128,
            turns@.len() == old(self).sparks@.len(),
        ensures
            ({
                let all = joined(old(self).particles.particles@, old(self).sparks@, turns@);
                let ps = survivors(all, all.len() as int);
                let pts = round_line(left@, right@, round_turns@, inv_aspect);
                let vis = visibility(left@, right@);
                &&& r@.len() == 4
                &&& r@[0].draws(
                    Shader::Plain,
                    Blend::Over,
                    Primitive::TriangleStrip,
                    fill(pts, inner_points(pts, inv_aspect), *palette, true),
                )
                &&& r@[1].draws(Shader::Neon, Blend::Add, Primitive::TriangleStrip, neon(pts, *palette, true, vis))
                &&& r@[2].draws(Shader::Plain, Blend::Over, Primitive::LineStrip, neon_line(pts, *palette, true, vis))
                &&& r@[3].draws(Shader::Glow, Blend::Add, Primitive::Points, particle_points(ps, *palette, inv_aspect))
                &&& final(self).particles.particles@ == ps
            }),
            final(self).particles.prev_left == *left,
            final(self).particles.prev_right == *right,
            final(self).sparks@.len() == 0,
            *final(self) == (Scene { particles: final(self).particles, sparks: final(self).sparks, ..*old(self) }),
    {
        let mut r = draw_neon(build_radial_spectrum(left, right, palette, inv_aspect, round_turns));
        let sparks = self.fly(left, right, palette, inv_aspect, turns);
        r.push(sparks);
        r
    }

    /// Moves the tunnel by one frame and lets stars appear. What comes back are their
    /// angles, of which the passes need sines and cosines.
    pub fn tunnel_seeds(&mut self, left: &SpectrumFrame, right: &SpectrumFrame, ring_turns: &[Turn]) -> (angles: Vec<F32>)
        requires
            ring_turns@.len() == RING_POINTS,
        ensures
            ({
                let env = next_envelope(old(self).bass_env, left@, right@);
                let d = drive(env, left@, right@);
                let emit = old(self).tunnel.ring_emit;
                let old_rings = views(old(self).tunnel.rings@);
                let old_stars = old(self).tunnel.stars@;
                let kept = rings_left(old_rings, d, old_rings.len() as int);
                let stars = stars_left(old_stars, d, old_stars.len() as int);
                let s = seeded(old(self).rng.at(), star_count(d), star_room(stars.len() as int));
                let due = ring_due(emit, d);
                &&& final(self).bass_env == env
                &&& final(self).tunnel.ring_emit == if due {
                    F32::nought()
                } else {
                    emit + emission(d)
                }
                &&& views(final(self).tunnel.rings@) == if due && kept.len() < MAX_RINGS {
                    kept.push(newborn(d, ring_shape(left@, right@, ring_turns@)))
                } else {
                    kept
                }
                &&& final(self).tunnel.stars@ == stars
                &&& final(self).seeds@ == s.list
                &&& final(self).rng.at() == s.rng
            }),
            angles@ == Seq::new(final(self).seeds@.len(), |i: int| final(self).seeds@[i].angle),
            *final(self) == (Scene {
                rng: final(self).rng,
                tunnel: final(self).tunnel,
                seeds: final(self).seeds,
                bass_env: final(self).bass_env,
                ..*old(self)
            }),
    {
        proof {
            assert(views(self.tunnel.rings@).len() == self.tunnel.rings@.len());
        }
        let d = audio_drive(&mut self.bass_env, left, right);
        self.seeds = self.tunnel.update_tunnel(&d, left, right, ring_turns, &mut self.rng);
        let mut angles: Vec<F32> = Vec::new();
        let mut i: usize = 0;
        while i < self.seeds.len()
            invariant
                i <= self.seeds@.len(),
                angles@.len() == i,
                forall|j: int| 0 <= j < i ==> #[trigger] angles@[j] == self.seeds@[j].angle,
            decreases self.seeds@.len() - i,
        {
            angles.push(self.seeds[i].angle);
            i = i + 1;
        }
        assert(angles@ =~= Seq::new(self.seeds@.len(), |i: int| self.seeds@[i].angle));
        angles
    }

    /// The angles of the rings, of which sines and cosines are needed.
    pub fn tunnel_angles(&self) -> (r: Vec<F32>)
        ensures
            r@ == Seq::new(self.tunnel.rings@.len(), |i: int| self.tunnel.rings@[i].angle),
    {
        let mut r: Vec<F32> = Vec::new();
        let mut i: usize = 0;
        while i < self.tunnel.rings.len()
            invariant
                i <= self.tunnel.rings@.len(),
                r@.len() == i,
                forall|j: int| 0 <= j < i ==> #[trigger] r@[j] == self.tunnel.rings@[j].angle,
            decreases self.tunnel.rings@.len() - i,
        {
            r.push(self.tunnel.rings[i].angle);
            i = i + 1;
        }
        assert(r@ =~= Seq::new(self.tunnel.rings@.len(), |i: int| self.tunnel.rings@[i].angle));
        r
    }

    /// The passes of the tunnel: the stars, and the rings in front of them.
    pub fn tunnel_passes(
        &mut self,
        palette: &Palette,
        inv_aspect: F32,
        seed_turns: &[Turn],
        ring_turns: &[Turn],
    ) -> (r: Vec<Pass>)
        requires
            seed_turns@.len() == old(self).seeds@.len(),
            ring_turns@.len() == old(self).tunnel.rings@.len(),
        ensures
            ({
                let stars = lit(old(self).tunnel.stars@, old(self).seeds@, seed_turns@);
                let rings = views(old(self).tunnel.rings@);
                &&& final(self).tunnel.stars@ == stars
                &&& r@.len() == 2
                &&& r@[0].draws(
                    Shader::Glow,
                    Blend::Add,
                    Primitive::Points,
                    Seq::new(stars.len(), |i: int| star_point(stars[i], *palette, inv_aspect)),
                )
                &&& r@[1].draws(
                    Shader::Tube,
                    Blend::Add,
                    Primitive::TriangleStrip,
                    rings_strip(rings, ring_turns@, rings.len() as int, *palette, inv_aspect),
                )
            }),
            final(self).tunnel.rings == old(self).tunnel.rings,
            final(self).tunnel.ring_emit == old(self).tunnel.ring_emit,
            final(self).seeds@.len() == 0,
            *final(self) == (Scene { tunnel: final(self).tunnel, seeds: final(self).seeds, ..*old(self) }),
    {
        self.tunnel.add_stars(self.seeds.as_slice(), seed_turns);
        self.seeds = Vec::new();
        let stars = build_star_vertices(self.tunnel.stars.as_slice(), palette, inv_aspect);
        let rings = build_tunnel_rings(&self.tunnel.rings, palette, inv_aspect, ring_turns);
        let mut r: Vec<Pass> = Vec::new();
        r.push(Pass { shader: Shader::Glow, blend: Blend::Add, primitive: Primitive::Points, vertices: stars });
        r.push(
            Pass { shader: Shader::Tube, blend: Blend::Add, primitive: Primitive::TriangleStrip, vertices: rings },
        );
        r
    }

    /// Moves the solid by one frame and says how it is to be seen.
    pub fn solid_pose(&mut self, left: &SpectrumFrame, right: &SpectrumFrame) -> (r: SolidPose)
        requires
            old(self).wf(),
        ensures
            final(self).wf(),
            ({
                let env = next_envelope(old(self).bass_env, left@, right@);
                let d = drive(env, left@, right@);
                &&& final(self).bass_env == env
                &&& old(self).solid.moves_to(final(self).solid, old(self).mesh, d, left@, right@)
                &&& r == final(self).solid.pose(d)
            }),
            *final(self) == (Scene { solid: final(self).solid, bass_env: final(self).bass_env, ..*old(self) }),
    {
        let d = audio_drive(&mut self.bass_env, left, right);
        self.solid.update_solid(&self.mesh, &d, left, right)
    }

    /// The passes of the solid: the faces, the edges, and the vertices as lights.
    pub fn solid_passes(
        &self,
        left: &SpectrumFrame,
        right: &SpectrumFrame,
        palette: &Palette,
        inv_aspect: F32,
        camera: &Camera,
    ) -> (r: Vec<Pass>)
        requires
            self.wf(),
        ensures
            ({
                let vs = Seq::new(
                    self.mesh.verts@.len(),
                    |i: int| vertex_view(self.mesh, left@, right@, *camera, i),
                );
                let nf = self.mesh.faces@.len() as int;
                let ne = self.mesh.edges@.len() as int;
                &&& r@.len() == 3
                &&& r@[0].draws(
                    Shader::Plain,
                    Blend::Add,
                    Primitive::Triangles,
                    face_triangles(
                        self.mesh,
                        vs,
                        self.solid.face_pop@,
                        nf,
                        *palette,
                        inv_aspect,
                        solid_s0(),
                        camera.dist,
                    ),
                )
                &&& r@[1].draws(
                    Shader::Tube,
                    Blend::Add,
                    Primitive::TriangleStrip,
                    edge_strip(self.mesh, vs, ne, *palette, inv_aspect, solid_s0()),
                )
                &&& r@[2].draws(
                    Shader::Glow,
                    Blend::Add,
                    Primitive::Points,
                    Seq::new(
                        vs.len(),
                        |i: int| solid_point(vs[i], self.mesh.vert_t@[i], *palette, inv_aspect, solid_s0()),
                    ),
                )
            }),
    {
        let vs = project_solid(&self.mesh, left, right, camera);
        let s0 = rest_perspective();
        let faces = build_solid_faces(
            &self.mesh,
            vs.as_slice(),
            self.solid.face_pop.as_slice(),
            palette,
            inv_aspect,
            s0,
            camera.dist,
        );
        let edges = build_solid_edges(&self.mesh, vs.as_slice(), palette, inv_aspect, s0);
        let points = build_solid_points(&self.mesh, vs.as_slice(), palette, inv_aspect, s0);
        let mut r: Vec<Pass> = Vec::new();
        r.push(Pass { shader: Shader::Plain, blend: Blend::Add, primitive: Primitive::Triangles, vertices: faces });
        r.push(
            Pass { shader: Shader::Tube, blend: Blend::Add, primitive: Primitive::TriangleStrip, vertices: edges },
        );
        r.push(Pass { shader: Shader::Glow, blend: Blend::Add, primitive: Primitive::Points, vertices: points });
        r
    }
}

/// The passes of the stereo image: the fill of the lobes, the ribbons, and the lights.
pub fn imaging_passes(img: &ImagingFrame, palette: &Palette, inv_aspect: F32, t: &StageTables) -> (r: Vec<Pass>)
    requires
        t.wf(),
    ensures
        r@.len() == 3,
        r@[0].draws(
            Shader::Plain,
            Blend::Add,
            Primitive::TriangleStrip,
            stage_fill(*t, *palette, inv_aspect),
        ),
        r@[1].draws(
            Shader::Tube,
            Blend::Add,
            Primitive::TriangleStrip,
            stage_ribbons(*t, *palette, inv_aspect),
        ),
        r@[2].draws(
            Shader::Glow,
            Blend::Add,
            Primitive::Points,
            dots(*img, t.bands@, NUM_BANDS as int, *palette, inv_aspect),
        ),
{
    let s = build_imaging(img, palette, inv_aspect, t);
    let mut r: Vec<Pass> = Vec::new();
    r.push(
        Pass { shader: Shader::Plain, blend: Blend::Add, primitive: Primitive::TriangleStrip, vertices: s.fill },
    );
    r.push(
        Pass { shader: Shader::Tube, blend: Blend::Add, primitive: Primitive::TriangleStrip, vertices: s.ribbons },
    );
    r.push(Pass { shader: Shader::Glow, blend: Blend::Add, primitive: Primitive::Points, vertices: s.dots });
    r
}

/// What the controls, the analysis and the picture share.
#[derive(Debug, Clone, Copy)]
pub struct VizState {
    pub spectrum_left: SpectrumFrame,
    pub spectrum_right: SpectrumFrame,
    /// The stereo image, kept up to date only while it is shown.
    pub imaging: ImagingFrame,
    pub palette: Palette,
    pub gain: F32,
    pub effect: Effect,
    /// Whether one channel is shown on both sides.
    pub mirror: bool,
    /// How long the traces of earlier frames stay.
    pub blur: F32,
}

impl Default for VizState {
    fn default() -> (r: VizState)
        ensures
            r.spectrum_left@ == Seq::new(NUM_BANDS as nat, |b: int| F32::nought()),
            r.spectrum_right@ == Seq::new(NUM_BANDS as nat, |b: int| F32::nought()),
            r.imaging.is_silent(),
            r.palette.color_a == Rgb::violet(),
            r.palette.color_b == Rgb::pink(),
            r.gain == F32::unit(),
            r.effect is Bars,
            !r.mirror,
            r.blur == F32::nought(),
    {
        let zero = F32::zero();
        let r = VizState {
            spectrum_left: [zero; NUM_BANDS],
            spectrum_right: [zero; NUM_BANDS],
            imaging: ImagingFrame::default(),
            palette: Palette::default(),
            gain: F32::one(),
            effect: Effect::Bars,
            mirror: false,
            blur: F32::zero(),
        };
        assert(r.spectrum_left@ =~= Seq::new(NUM_BANDS as nat, |b: int| F32::nought()));
        assert(r.spectrum_right@ =~= Seq::new(NUM_BANDS as nat, |b: int| F32::nought()));
        r
    }
}

impl VizState {
    /// Whether the right channel is to be analysed: not where the left is mirrored.
    pub fn wants_right(&self) -> (r: bool)
        ensures
            r == !self.mirror,
    {
        !self.mirror
    }

    /// Whether the stereo image is to be analysed: only while it is shown.
    pub fn wants_imaging(&self) -> (r: bool)
        ensures
            r == (self.effect is Imaging),
    {
        match self.effect {
            Effect::Imaging => true,
            _ => false,
        }
    }

    /// Takes over what was analysed: a mirrored channel stands on both sides, and the
    /// stereo image stays as it was where there is no new one.
    pub fn take_frame(&mut self, left: &SpectrumFrame, right: Option<SpectrumFrame>, imaging: Option<ImagingFrame>)
        ensures
            *final(self) == (VizState {
                spectrum_left: *left,
                spectrum_right: match right {
                    Some(f) => f,
                    None => *left,
                },
                imaging: match imaging {
                    Some(f) => f,
                    None => old(self).imaging,
                },
                ..*old(self)
            }),
    {
        self.spectrum_left = *left;
        self.spectrum_right = match right {
            Some(f) => f,
            None => *left,
        };
        if let Some(f) = imaging {
            self.imaging = f;
        }
    }
}

} // verus!
