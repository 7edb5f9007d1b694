//! Particles, tunnel, solid and stage over several frames, held against the same
//! formulas in machine numbers.

use sinestesia::bands::NUM_BANDS;
use sinestesia::config::{Effect, Rgb};
use sinestesia::dsp::SpectrumFrame;
use sinestesia::float::F32;
use sinestesia::render::imaging::{
    angle_delta, band_angles, decay_exponents, diffuse_weight, imaging_lobe, imaging_project, lobe_exponents,
    reflect_rear, step_angles, tick_angles, Lobe, LobeTable, StageTables, IMG_STEPS, LOW_END, MID_END,
};
use sinestesia::render::levels::Drive;
use sinestesia::render::paint::{flatten, Vertex};
use sinestesia::render::particles::CAP;
use sinestesia::render::radial::{round_angles, spoke_angles, Turn};
use sinestesia::render::rng::Rng;
use sinestesia::render::scene::{
    bar_passes, family, imaging_passes, inverse_aspect, line_passes, line_spectrum_passes, veil, Blend, Family, Pass,
    Primitive, Scene, Shader,
};
use sinestesia::render::tunnel::{ring_angles, ring_brightness, Tunnel, MAX_RINGS, MAX_STARS};
use sinestesia::render::{Palette, VizState};
use sinestesia::solid::mesh::{build_icosphere, Point3, SolidMesh, SOLID_SUBDIV};
use sinestesia::solid::view::{
    depth_fog, perspective, pitch_of, project_solid, rest_perspective, rot_yx, sample_spectrum, Camera,
    SolidState,
};
use sinestesia::stereo::ImagingFrame;

fn of(x: f32) -> F32 {
    F32 { bits: x.to_bits() }
}

fn to(x: F32) -> f32 {
    f32::from_bits(x.bits)
}

const A: [f32; 3] = [0.3, 0.6, 0.9];
const B: [f32; 3] = [1.0, 0.2, 0.5];

fn palette() -> Palette {
    let c = |x: [f32; 3]| Rgb::new(of(x[0]), of(x[1]), of(x[2]));
    Palette { color_a: c(A), color_b: c(B) }
}

fn mix(t: f32) -> [f32; 3] {
    [0, 1, 2].map(|k| A[k] + (B[k] - A[k]) * t)
}

fn flat(v: &[Vertex]) -> Vec<f32> {
    flatten(v).iter().map(|x| to(*x)).collect()
}

fn turn(a: F32) -> Turn {
    let (s, c) = to(a).sin_cos();
    Turn { sin: of(s), cos: of(c) }
}

fn turns(angles: &[F32]) -> Vec<Turn> {
    angles.iter().map(|a| turn(*a)).collect()
}

type Plain = [f32; NUM_BANDS];

fn soft(p: &Plain) -> SpectrumFrame {
    p.map(of)
}

/// Spectra that jump up and fall back, louder on every fourth frame.
fn frames(k: usize) -> (Plain, Plain) {
    let mut l = [0.0f32; NUM_BANDS];
    let mut r = [0.0f32; NUM_BANDS];
    for i in 0..NUM_BANDS {
        let hit = if k % 4 == 0 { 0.9 } else { 0.35 };
        l[i] = hit * ((i * 13 + k * 7) % 17) as f32 / 17.0;
        r[i] = hit * ((i * 5 + k * 3) % 19) as f32 / 19.0;
    }
    (l, r)
}

/// The generator in machine arithmetic.
struct Random(u32);

impl Random {
    fn next(&mut self) -> f32 {
        let mut x = self.0;
        x ^= x << 13;
        x ^= x >> 17;
        x ^= x << 5;
        self.0 = x;
        (x as f32) / (u32::MAX as f32)
    }
}

fn mesh() -> SolidMesh {
    let s = build_icosphere(SOLID_SUBDIV);
    let arcs: Vec<F32> = s.heights().iter().map(|y| of(to(*y).acos())).collect();
    SolidMesh::new(s, &arcs)
}

fn is_pass(p: &Pass, s: Shader, b: Blend, k: Primitive) -> bool {
    p.shader == s && p.blend == b && p.primitive == k
}

#[test]
fn the_generator_is_a_xorshift() {
    let mut r = Rng::new(0x1234_5678);
    let mut p = Random(0x1234_5678);
    for _ in 0..5000 {
        let x = to(r.rand());
        assert_eq!(x, p.next());
        assert!((0.0..1.0).contains(&x));
    }
}

#[test]
fn the_generator_never_reaches_one() {
    // This state is followed by one that would round to one.
    let mut back: Vec<u32> = Vec::new();
    for want in [0xFFFF_FFFFu32, 0xFFFF_FF80, 0xFFFF_FF7F] {
        // Undo the three shifts.
        let mut b = want;
        for _ in 0..6 {
            b = want ^ (b << 5);
        }
        let a = b ^ (b >> 17);
        let mut x = a;
        for _ in 0..3 {
            x = a ^ (x << 13);
        }
        back.push(x);
    }
    assert_eq!(to(Rng::new(back[0]).rand()), 0.99999994);
    assert_eq!(to(Rng::new(back[1]).rand()), 0.99999994);
    assert_eq!(to(Rng::new(back[2]).rand()), 0.99999994);
}

#[test]
fn the_veil_leaves_a_trace_for_blur() {
    let alpha = |blur: f32| to(veil(of(blur)).vertices[0].a);
    assert_eq!(alpha(0.0), 1.0);
    assert_eq!(alpha(0.5), 0.5);
    assert_eq!(alpha(0.99), 0.05);
    assert_eq!(alpha(-3.0), 1.0);
    assert!(is_pass(&veil(of(0.0)), Shader::Plain, Blend::Over, Primitive::Triangles));
}

#[test]
fn the_aspect_is_height_over_width() {
    assert_eq!(to(inverse_aspect(1100, 640)), 640.0f32 / 1100.0);
    assert_eq!(to(inverse_aspect(0, 0)), 1.0);
    assert_eq!(to(inverse_aspect(-5, 3)), 3.0);
}

#[test]
fn the_screen_is_cleared_once() {
    let mut s = Scene::new(mesh());
    assert!(s.clears());
    assert!(!s.clears());
}

#[test]
fn flat_effects_have_their_passes() {
    let (l, r) = frames(1);
    let (l, r) = (soft(&l), soft(&r));
    let bars = bar_passes(&l, &r, &palette());
    assert_eq!(bars.len(), 1);
    assert!(is_pass(&bars[0], Shader::Plain, Blend::Over, Primitive::Triangles));
    assert_eq!(bars[0].vertices.len(), NUM_BANDS * 12);
    let line = line_passes(&l, &r, &palette());
    assert_eq!(line.len(), 1);
    assert!(is_pass(&line[0], Shader::Plain, Blend::Over, Primitive::TriangleStrip));
    let neon = line_spectrum_passes(&l, &r, &palette());
    assert_eq!(neon.len(), 3);
    assert!(is_pass(&neon[0], Shader::Plain, Blend::Over, Primitive::TriangleStrip));
    assert!(is_pass(&neon[1], Shader::Neon, Blend::Add, Primitive::TriangleStrip));
    assert!(is_pass(&neon[2], Shader::Plain, Blend::Over, Primitive::LineStrip));
}

struct Spark {
    x: f32,
    y: f32,
    vx: f32,
    vy: f32,
    life: f32,
    t: f32,
}

#[test]
fn particles_agree_with_machine_numbers() {
    let mut scene = Scene::new(mesh());
    let mut rng = Random(0x1234_5678);
    let mut sparks: Vec<Spark> = Vec::new();
    let (mut pl, mut pr) = ([0.0f32; NUM_BANDS], [0.0f32; NUM_BANDS]);
    let pi = std::f32::consts::PI;
    let inv = 0.6f32;
    let spokes = turns(&spoke_angles());
    for k in 0..60 {
        let (l, r) = frames(k);
        let angles = scene.emissions(&soft(&l), &soft(&r));
        let passes = scene.radial_passes(&soft(&l), &soft(&r), &palette(), of(inv), &spokes, &turns(&angles));
        assert_eq!(passes.len(), 2);
        assert!(is_pass(&passes[0], Shader::Plain, Blend::Over, Primitive::Triangles));
        assert!(is_pass(&passes[1], Shader::Glow, Blend::Add, Primitive::Points));

        for i in 0..NUM_BANDS {
            let t = i as f32 / 63.0;
            let lanes = [
                (std::f32::consts::FRAC_PI_2 - t * pi, r[i], pr[i]),
                (std::f32::consts::FRAC_PI_2 + t * pi, l[i], pl[i]),
            ];
            for (ang, h, prev) in lanes {
                let delta = h - prev;
                if delta <= 0.02 {
                    continue;
                }
                let count = ((delta * 9.0) as usize).clamp(1, 3);
                let tip = 0.28 + h.clamp(0.0, 1.0) * 0.62;
                let base = 0.005 + delta * 0.06;
                for _ in 0..count {
                    if sparks.len() >= 2200 {
                        break;
                    }
                    let jitter = (rng.next() - 0.5) * 0.06;
                    let (s, c) = (ang + jitter).sin_cos();
                    let sp = base * (0.7 + rng.next() * 0.6);
                    let t = rng.next();
                    sparks.push(Spark { x: c * tip, y: s * tip, vx: c * sp, vy: s * sp, life: 1.0, t });
                }
            }
        }
        for p in &mut sparks {
            p.x += p.vx;
            p.y += p.vy;
            p.life -= 0.018;
        }
        sparks.retain(|p| p.life > 0.0 && p.x.abs() < 1.6 && p.y.abs() < 1.6);
        (pl, pr) = (l, r);

        let mut want = Vec::new();
        for p in &sparks {
            let c = mix(p.t);
            want.extend_from_slice(&[p.x * inv, p.y, c[0], c[1], c[2], p.life.clamp(0.0, 1.0)]);
        }
        assert_eq!(flat(&passes[1].vertices), want, "frame {k}");
        assert!(scene.particles.particles.len() <= CAP);
    }
    assert!(!sparks.is_empty());
}

#[test]
fn particles_are_capped_and_die() {
    let mut scene = Scene::new(mesh());
    let still = soft(&[0.0; NUM_BANDS]);
    let loud = soft(&[1.0; NUM_BANDS]);
    let spokes = turns(&round_angles());
    let mut frame = |scene: &mut Scene, f: &SpectrumFrame| {
        let angles = scene.emissions(f, f);
        let p = scene.radial_spectrum_passes(f, f, &palette(), of(1.0), &spokes, &turns(&angles));
        assert_eq!(p.len(), 4);
        assert!(is_pass(&p[1], Shader::Neon, Blend::Add, Primitive::TriangleStrip));
        assert!(is_pass(&p[3], Shader::Glow, Blend::Add, Primitive::Points));
        angles.len()
    };
    let mut seen = 0;
    for k in 0..20 {
        frame(&mut scene, if k % 2 == 0 { &loud } else { &still });
        seen = seen.max(scene.particles.particles.len());
        assert!(scene.particles.particles.len() <= CAP);
    }
    assert!(seen > 1000);
    for _ in 0..64 {
        assert_eq!(frame(&mut scene, &still), 0);
    }
    assert!(scene.particles.particles.is_empty());
}

struct PlainRing {
    shape: Vec<(f32, f32)>,
    scale: f32,
    angle: f32,
    tint: f32,
}

fn plain_shape(l: &Plain, r: &Plain) -> Vec<(f32, f32)> {
    let pi = std::f32::consts::PI;
    let mut raw: Vec<(f32, f32)> = Vec::new();
    let mut add = |ang: f32, h: f32| {
        let r = 0.72 + h.clamp(0.0, 1.0) * 0.55;
        let (s, c) = ang.sin_cos();
        raw.push((c * r, s * r));
    };
    for i in (0..NUM_BANDS).step_by(2) {
        add(std::f32::consts::FRAC_PI_2 - i as f32 / 63.0 * pi, r[i]);
    }
    for i in (0..NUM_BANDS).step_by(2).rev() {
        add(std::f32::consts::FRAC_PI_2 + i as f32 / 63.0 * pi, l[i]);
    }
    let n = raw.len() as isize;
    let get = |i: isize| raw[i.rem_euclid(n) as usize];
    let mut out = Vec::new();
    for i in 0..n {
        let p = [get(i - 1), get(i), get(i + 1), get(i + 2)];
        for s in 0..4 {
            let t = s as f32 / 4.0;
            let (t2, t3) = (t * t, t * t * t);
            let f = |a: f32, b: f32, c: f32, d: f32| {
                0.5 * ((2.0 * b)
                    + (-a + c) * t
                    + (2.0 * a - 5.0 * b + 4.0 * c - d) * t2
                    + (-a + 3.0 * b - 3.0 * c + d) * t3)
            };
            out.push((f(p[0].0, p[1].0, p[2].0, p[3].0), f(p[0].1, p[1].1, p[2].1, p[3].1)));
        }
    }
    out
}

fn plain_drive(env: &mut f32, l: &Plain, r: &Plain) -> (f32, f32, f32) {
    let mut sum = 0.0;
    for i in 0..12 {
        sum += l[i] + r[i];
    }
    let bass = (sum / 24.0f32).clamp(0.0, 1.0);
    let mut m = 0.0f32;
    for i in 0..NUM_BANDS {
        m = m.max(l[i]).max(r[i]);
    }
    let gate = ((m.clamp(0.0, 1.0) - 0.05) / 0.12).clamp(0.0, 1.0);
    *env += (bass - *env) * 0.05;
    (bass, ((bass - *env) * 2.5).clamp(0.0, 1.0), gate)
}

fn plain_brightness(scale: f32) -> f32 {
    (scale / 0.28).clamp(0.0, 1.0) * ((1.85 - scale) / 0.75).clamp(0.0, 1.0)
}

#[test]
fn the_tunnel_agrees_with_machine_numbers() {
    let mut scene = Scene::new(mesh());
    let shape_turns = turns(&ring_angles());
    let mut rng = Random(0x1234_5678);
    let mut rings: Vec<PlainRing> = Vec::new();
    let mut stars: Vec<(f32, f32, f32)> = Vec::new();
    let mut emit = 1.0f32;
    let mut env = 0.0f32;
    let inv = 0.5f32;
    for k in 0..90 {
        let (l, r) = frames(k);
        let star_angles = scene.tunnel_seeds(&soft(&l), &soft(&r), &shape_turns);
        let ring_turns = turns(&scene.tunnel_angles());
        let passes = scene.tunnel_passes(&palette(), of(inv), &turns(&star_angles), &ring_turns);
        assert_eq!(passes.len(), 2);
        assert!(is_pass(&passes[0], Shader::Glow, Blend::Add, Primitive::Points));
        assert!(is_pass(&passes[1], Shader::Tube, Blend::Add, Primitive::TriangleStrip));

        let (bass, punch, gate) = plain_drive(&mut env, &l, &r);
        let growth = 1.0 + 0.006 + (0.015 + bass * 0.030 + punch * 0.15) * gate;
        let spin = (0.005 + bass * 0.016 + punch * 0.06) * gate;
        for x in &mut rings {
            x.scale *= growth;
            x.angle += spin;
        }
        rings.retain(|x| x.scale < 1.85);
        emit += (0.075 + bass * 0.10 + punch * 0.35) * gate;
        if emit >= 1.0 {
            emit = 0.0;
            if rings.len() < 26 {
                rings.push(PlainRing {
                    shape: plain_shape(&l, &r),
                    scale: 0.05,
                    angle: 0.0,
                    tint: (bass + punch * 0.5).clamp(0.0, 1.0),
                });
            }
        }
        let spread = 1.0 + 0.004 + (0.026 + bass * 0.055 + punch * 0.10) * gate;
        for s in &mut stars {
            s.0 *= spread;
            s.1 *= spread;
        }
        stars.retain(|s| s.0.abs() < 1.7 && s.1.abs() < 1.7);
        for _ in 0..((2.0 + bass * 6.0 + punch * 4.0) * gate) as usize {
            if stars.len() >= 700 {
                break;
            }
            let ang = rng.next() * std::f32::consts::TAU;
            let rad = 0.04 + rng.next() * 0.05;
            let t = rng.next();
            let (s, c) = ang.sin_cos();
            stars.push((c * rad, s * rad, t));
        }

        let mut want = Vec::new();
        for s in &stars {
            let d = (s.0 * s.0 + s.1 * s.1).sqrt();
            let a = (d / 0.35).clamp(0.0, 1.0) * ((1.6 - d) / 0.5).clamp(0.0, 1.0);
            let c = mix(s.2);
            want.extend_from_slice(&[s.0 * inv, s.1, c[0], c[1], c[2], a]);
        }
        assert_eq!(flat(&passes[0].vertices), want, "stars of frame {k}");

        let mut want: Vec<f32> = Vec::new();
        for x in &rings {
            let n = x.shape.len();
            let bright = plain_brightness(x.scale);
            if n < 3 || bright <= 0.002 {
                continue;
            }
            let c = mix(x.tint.clamp(0.0, 1.0)).map(|v| v * bright);
            let (sa, ca) = x.angle.sin_cos();
            let w = 0.012 * (0.35 + x.scale);
            let pt = |i: usize| {
                let (px, py) = x.shape[i % n];
                ((px * ca - py * sa) * x.scale, (px * sa + py * ca) * x.scale)
            };
            let mut strip = Vec::new();
            for k in 0..=n {
                let i = k % n;
                let (prev, next, (px, py)) = (pt((i + n - 1) % n), pt(i + 1), pt(i));
                let (tx, ty) = (next.0 - prev.0, next.1 - prev.1);
                let len = (tx * tx + ty * ty).sqrt().max(1e-6);
                let (nx, ny) = (-ty / len * w, tx / len * w);
                strip.extend_from_slice(&[(px + nx) * inv, py + ny, c[0], c[1], c[2], 1.0]);
                strip.extend_from_slice(&[(px - nx) * inv, py - ny, c[0], c[1], c[2], -1.0]);
            }
            if !want.is_empty() {
                let last = want[want.len() - 6..].to_vec();
                want.extend_from_slice(&last);
                want.extend_from_slice(&strip[..6]);
            }
            want.extend_from_slice(&strip);
        }
        assert_eq!(flat(&passes[1].vertices), want, "rings of frame {k}");
        assert!(scene.tunnel.rings.len() <= MAX_RINGS);
        assert!(scene.tunnel.stars.len() <= MAX_STARS);
        for pair in scene.tunnel.rings.windows(2) {
            assert!(to(pair[0].scale) > to(pair[1].scale));
            assert!(to(pair[0].angle) >= to(pair[1].angle));
        }
        assert!(scene.tunnel.rings.iter().all(|x| (0.05..1.85).contains(&to(x.scale))));
        assert!((0.0..=1.0).contains(&to(scene.tunnel.ring_emit)));
    }
    assert!(rings.len() > 3);
    assert!(stars.len() > 30);
}

#[test]
fn silence_only_empties_the_tunnel() {
    let mut scene = Scene::new(mesh());
    let shape_turns = turns(&ring_angles());
    let still = soft(&[0.04; NUM_BANDS]);
    for _ in 0..5 {
        assert!(scene.tunnel_seeds(&still, &still, &shape_turns).is_empty());
        assert!(scene.tunnel.rings.is_empty());
    }
    // The first ring is due with the first sound.
    let loud = soft(&[0.6; NUM_BANDS]);
    assert!(!scene.tunnel_seeds(&loud, &loud, &shape_turns).is_empty());
    assert_eq!(scene.tunnel.rings.len(), 1);
    let mut before = to(scene.tunnel.rings[0].scale);
    for _ in 0..800 {
        assert!(scene.tunnel_seeds(&still, &still, &shape_turns).is_empty());
        if scene.tunnel.rings.is_empty() {
            break;
        }
        let now = to(scene.tunnel.rings[0].scale);
        assert!(now > before);
        before = now;
    }
    assert!(scene.tunnel.rings.is_empty());
}

#[test]
fn more_bass_is_faster_and_nearer() {
    let shape_turns = turns(&ring_angles());
    let (l, r) = frames(1);
    let mut last = (0.0f32, 0.0f32, 0.0f32, 0usize, f32::MAX);
    for k in 0..=10 {
        let d = Drive { bass: of(k as f32 / 10.0), punch: of(0.2), gate: of(0.9) };
        let mut tunnel = Tunnel::new();
        let mut rng = Rng::new(0x1234_5678);
        tunnel.update_tunnel(&d, &soft(&l), &soft(&r), &shape_turns, &mut rng);
        let list = tunnel.update_tunnel(&d, &soft(&l), &soft(&r), &shape_turns, &mut rng);
        let solid = mesh();
        let mut state = SolidState::new(&solid);
        let pose = state.update_solid(&solid, &d, &soft(&l), &soft(&r));
        let ring = &tunnel.rings[0];
        let now = (to(ring.scale), to(ring.angle), to(tunnel.ring_emit), list.len(), to(pose.dist));
        assert!(now.0 > last.0 && now.1 > last.1 && now.2 > last.2 && now.3 >= last.3 && now.4 < last.4);
        last = now;
    }
    assert_eq!(last.3, ((2.0f32 + 1.0 * 6.0 + 0.2 * 4.0) * 0.9) as usize);
    assert_eq!(last.4, 3.4f32 - (1.0 * 0.5 + 0.2 * 0.7) * 0.9);
}

#[test]
fn stars_leave_in_silence() {
    let shape_turns = turns(&ring_angles());
    let mut scene = Scene::new(mesh());
    let still = soft(&[0.0; NUM_BANDS]);
    let loud = soft(&[0.6; NUM_BANDS]);
    let star_angles = scene.tunnel_seeds(&loud, &loud, &shape_turns);
    let ring_turns = turns(&scene.tunnel_angles());
    scene.tunnel_passes(&palette(), of(1.0), &turns(&star_angles), &ring_turns);
    assert!(!scene.tunnel.stars.is_empty());
    for _ in 0..1716 {
        scene.tunnel_seeds(&still, &still, &shape_turns);
    }
    assert!(scene.tunnel.stars.is_empty());
}

#[test]
fn rings_fade_in_and_out() {
    for x in [0.0f32, 0.05, 0.14, 0.28, 1.0, 1.1, 1.5, 1.85, 3.0] {
        let b = to(ring_brightness(of(x)));
        assert_eq!(b, plain_brightness(x));
        assert!((0.0..=1.0).contains(&b));
    }
    assert_eq!(to(ring_brightness(of(1.0))), 1.0);
}

#[test]
fn the_solid_is_a_closed_geodesic_sphere() {
    for (n, v, e, f) in [(0, 12, 30, 20), (1, 42, 120, 80), (2, 162, 480, 320), (3, 642, 1920, 1280)] {
        let s = build_icosphere(n);
        assert_eq!((s.verts.len(), s.edges.len(), s.faces.len()), (v, e, f));
        let mut shared = std::collections::HashMap::new();
        for t in &s.faces {
            for (a, b) in [(t.0, t.1), (t.1, t.2), (t.2, t.0)] {
                *shared.entry((a.min(b), a.max(b))).or_insert(0) += 1;
            }
        }
        assert_eq!(shared.len(), e);
        assert!(shared.values().all(|c| *c == 2));
        assert!(s.edges.iter().all(|x| shared.contains_key(x)));
        for p in &s.verts {
            let square = |x: F32| to(x) as f64 * to(x) as f64;
            let r = square(p.x) + square(p.y) + square(p.z);
            assert!((r - 1.0).abs() <= 64.0 / 8_388_608.0);
        }
    }
}

#[test]
fn samples_of_a_spectrum_stay_bounded() {
    for k in 0..4 {
        let (l, _) = frames(k);
        let sp = soft(&l);
        for n in -10..=110 {
            let x = to(sample_spectrum(&sp, of(n as f32 / 100.0)));
            assert!((0.0..=2.0).contains(&x));
        }
    }
}

#[test]
fn solid_vertices_agree_with_machine_numbers() {
    let norm = |v: [f32; 3]| {
        let len = (v[0] * v[0] + v[1] * v[1] + v[2] * v[2]).sqrt().max(1e-6);
        [v[0] / len, v[1] / len, v[2] / len]
    };
    let phi = (1.0 + 5f32.sqrt()) / 2.0;
    let s = build_icosphere(1);
    let at = |i: usize| [to(s.verts[i].x), to(s.verts[i].y), to(s.verts[i].z)];
    assert_eq!(at(0), norm([-1.0, phi, 0.0]));
    assert_eq!(at(6), norm([0.0, -1.0, -phi]));
    assert_eq!(at(11), norm([-phi, 0.0, 1.0]));
    // The first new vertex lies on the first side of the first face.
    let mid = |a: [f32; 3], b: [f32; 3]| norm([(a[0] + b[0]) * 0.5, (a[1] + b[1]) * 0.5, (a[2] + b[2]) * 0.5]);
    assert_eq!(at(12), mid(at(0), at(11)));
    assert_eq!(at(13), mid(at(11), at(5)));
    assert_eq!(at(14), mid(at(5), at(0)));
    assert_eq!(s.faces[..4], [(0, 12, 14), (11, 13, 12), (5, 14, 13), (12, 13, 14)]);
    assert_eq!(s.edges[0], (0, 12));
    for i in 0..s.verts.len() {
        assert_eq!(s.vert_right[i], at(i)[0] >= 0.0);
    }
    for (i, f) in s.faces.iter().enumerate() {
        let sum = at(f.0 as usize)[0] + at(f.1 as usize)[0] + at(f.2 as usize)[0];
        assert_eq!(s.face_right[i], sum >= 0.0);
    }
    let arcs: Vec<F32> = s.heights().iter().map(|y| of(to(*y).acos())).collect();
    let faces = s.faces.clone();
    let m = SolidMesh::new(s, &arcs);
    for (i, a) in arcs.iter().enumerate() {
        assert_eq!(to(m.vert_t[i]), to(*a) / std::f32::consts::PI);
        assert!((0.0..=1.0).contains(&to(m.vert_t[i])));
    }
    for (i, f) in faces.iter().enumerate() {
        let t = |k: u32| to(m.vert_t[k as usize]);
        assert_eq!(to(m.face_t[i]), (t(f.0) + t(f.1) + t(f.2)) / 3.0);
    }
}

fn plain_sample(sp: &Plain, t: f32) -> f32 {
    let f = t.clamp(0.0, 1.0) * 63.0;
    let i = f.floor() as usize;
    let j = (i + 1).min(63);
    sp[i] + (sp[j] - sp[i]) * (f - i as f32)
}

fn plain_rot(p: [f32; 3], yaw: f32, pitch: f32) -> [f32; 3] {
    let (sy, cy) = yaw.sin_cos();
    let x = p[0] * cy + p[2] * sy;
    let z = -p[0] * sy + p[2] * cy;
    let (sp, cp) = pitch.sin_cos();
    [x, p[1] * cp - z * sp, p[1] * sp + z * cp]
}

fn plain_fog(s: f32, s0: f32) -> f32 {
    let k = s / s0;
    (k * k * k).clamp(0.0, 1.25)
}

#[test]
fn spectra_are_sampled_between_bands() {
    let (l, _) = frames(3);
    for t in [-1.0f32, 0.0, 0.001, 0.25, 0.5, 0.777, 0.999, 1.0, 4.0] {
        assert_eq!(to(sample_spectrum(&soft(&l), of(t))), plain_sample(&l, t));
    }
    assert_eq!(to(sample_spectrum(&soft(&[0.3; NUM_BANDS]), of(0.4321))), 0.3);
    assert!(to(sample_spectrum(&soft(&l), of(f32::NAN))).is_nan());
}

#[test]
fn perspective_and_fog_agree_with_machine_numbers() {
    let s0 = 2.2f32 / 3.4;
    assert_eq!(to(rest_perspective()), s0);
    for z in [-5.0f32, -1.0, 0.0, 0.7] {
        let s = 2.2 / (3.4 + z).max(0.4);
        assert_eq!(to(perspective(of(3.4), of(z))), s);
        assert_eq!(to(depth_fog(of(s), of(s0))), plain_fog(s, s0));
    }
    assert_eq!(to(depth_fog(of(s0), of(s0))), 1.0);
    assert_eq!(to(depth_fog(of(50.0), of(s0))), 1.25);
    let p = rot_yx(Point3 { x: of(0.2), y: of(-0.5), z: of(0.9) }, turn(of(0.7)), turn(of(-0.3)));
    assert_eq!([to(p.x), to(p.y), to(p.z)], plain_rot([0.2, -0.5, 0.9], 0.7, -0.3));
}

#[test]
fn the_solid_agrees_with_machine_numbers() {
    let mut scene = Scene::new(mesh());
    let inv = 0.8f32;
    let s0 = 2.2f32 / 3.4;
    let (mut env, mut time, mut spin) = (0.0f32, 0.0f32, 0.0f32);
    let mut pops = vec![0.0f32; scene.mesh.faces.len()];
    for k in 0..6 {
        let (l, r) = frames(k);
        let pose = scene.solid_pose(&soft(&l), &soft(&r));
        let pitch = pitch_of(of(to(pose.phase).sin()));
        let camera = Camera { yaw: turn(pose.yaw), pitch: turn(pitch), dist: pose.dist };
        let passes = scene.solid_passes(&soft(&l), &soft(&r), &palette(), of(inv), &camera);
        assert_eq!(passes.len(), 3);
        assert!(is_pass(&passes[0], Shader::Plain, Blend::Add, Primitive::Triangles));
        assert!(is_pass(&passes[1], Shader::Tube, Blend::Add, Primitive::TriangleStrip));
        assert!(is_pass(&passes[2], Shader::Glow, Blend::Add, Primitive::Points));

        let (bass, punch, gate) = plain_drive(&mut env, &l, &r);
        time += 1.0 / 60.0;
        spin += 0.002 + (bass * 0.012 + punch * 0.05) * gate;
        let pitch = (time * 0.31).sin() * 0.35;
        let dist = 3.4 - (bass * 0.5 + punch * 0.7) * gate;
        let m = &scene.mesh;
        for (i, pop) in pops.iter_mut().enumerate() {
            let amp = plain_sample(if m.face_right[i] { &r } else { &l }, to(m.face_t[i]));
            *pop = (*pop * 0.88 + punch * amp * 0.30 * gate).min(0.5);
            assert!(*pop <= 0.5);
        }
        let vs: Vec<([f32; 3], f32, f32, f32, f32)> = m
            .verts
            .iter()
            .enumerate()
            .map(|(i, v)| {
                let amp = plain_sample(if m.vert_right[i] { &r } else { &l }, to(m.vert_t[i]));
                let q = 0.56 + amp * 0.40;
                let p = plain_rot([to(v.x) * q, to(v.y) * q, to(v.z) * q], spin, pitch);
                let s = 2.2 / (dist + p[2]).max(0.4);
                (p, p[0] * s, p[1] * s, s, amp)
            })
            .collect();
        let got = project_solid(m, &soft(&l), &soft(&r), &camera);
        for (a, b) in got.iter().zip(&vs) {
            assert_eq!((to(a.sx), to(a.sy), to(a.s), to(a.amp)), (b.1, b.2, b.3, b.4));
        }

        let mut want = Vec::new();
        for (i, f) in m.faces.iter().enumerate() {
            let idx = [f.0 as usize, f.1 as usize, f.2 as usize];
            let amp = (vs[idx[0]].4 + vs[idx[1]].4 + vs[idx[2]].4) / 3.0;
            let base = amp * 0.9 + pops[i] * 1.2;
            if base <= 0.004 {
                continue;
            }
            let c = [0, 1, 2].map(|k| (vs[idx[0]].0[k] + vs[idx[1]].0[k] + vs[idx[2]].0[k]) / 3.0);
            let len = (c[0] * c[0] + c[1] * c[1] + c[2] * c[2]).sqrt().max(1e-6);
            let n = [c[0] / len, c[1] / len, c[2] / len];
            let mut sum = 0.0;
            let mut tri = Vec::new();
            for j in idx {
                let p = vs[j].0;
                let q = [p[0] + n[0] * pops[i], p[1] + n[1] * pops[i], p[2] + n[2] * pops[i]];
                let s = 2.2 / (dist + q[2]).max(0.4);
                tri.push((q[0] * s, q[1] * s));
                sum += s;
            }
            let bright = plain_fog(sum / 3.0, s0) * base * 0.11;
            let col = mix(to(m.face_t[i])).map(|v| v * bright);
            for (x, y) in tri {
                want.extend_from_slice(&[x * inv, y, col[0], col[1], col[2], 1.0]);
            }
        }
        assert_eq!(flat(&passes[0].vertices), want, "faces of frame {k}");

        let mut want: Vec<f32> = Vec::new();
        for &(ia, ib) in &m.edges {
            let (a, b) = (&vs[ia as usize], &vs[ib as usize]);
            let s = (a.3 + b.3) * 0.5;
            let bright = plain_fog(s, s0) * (0.18 + (a.4 + b.4) * 0.5 * 0.55);
            let t = (to(m.vert_t[ia as usize]) + to(m.vert_t[ib as usize])) * 0.5;
            let c = mix(t).map(|v| v * bright);
            let w = 0.009 * (s / s0);
            let (dx, dy) = (b.1 - a.1, b.2 - a.2);
            let len = (dx * dx + dy * dy).sqrt().max(1e-6);
            let (nx, ny) = (-dy / len * w, dx / len * w);
            let mut quad = Vec::new();
            for (x, y, p) in [
                (a.1 + nx, a.2 + ny, 1.0),
                (a.1 - nx, a.2 - ny, -1.0),
                (b.1 + nx, b.2 + ny, 1.0),
                (b.1 - nx, b.2 - ny, -1.0),
            ] {
                quad.extend_from_slice(&[x * inv, y, c[0], c[1], c[2], p]);
            }
            if !want.is_empty() {
                let last = want[want.len() - 6..].to_vec();
                want.extend_from_slice(&last);
                want.extend_from_slice(&quad[..6]);
            }
            want.extend_from_slice(&quad);
        }
        assert_eq!(flat(&passes[1].vertices), want, "edges of frame {k}");

        let mut want = Vec::new();
        for (i, v) in vs.iter().enumerate() {
            let a = ((0.06 + v.4 * 0.5) * plain_fog(v.3, s0)).clamp(0.0, 1.0);
            let c = mix(to(m.vert_t[i]));
            want.extend_from_slice(&[v.1 * inv, v.2, c[0], c[1], c[2], a]);
        }
        assert_eq!(flat(&passes[2].vertices), want, "points of frame {k}");
    }
}

struct PlainImage {
    azimuth: Plain,
    diffuseness: Plain,
    energy: Plain,
}

fn sample_image(rear: f32) -> (ImagingFrame, PlainImage) {
    let mut p = PlainImage {
        azimuth: [0.0; NUM_BANDS],
        diffuseness: [0.0; NUM_BANDS],
        energy: [0.0; NUM_BANDS],
    };
    for b in 0..NUM_BANDS {
        p.azimuth[b] = ((b * 7 % 23) as f32 / 22.0 - 0.5) * std::f32::consts::PI;
        p.diffuseness[b] = (b * 3 % 11) as f32 / 10.0;
        p.energy[b] = (b * 5 % 13) as f32 / 12.0;
    }
    let f = ImagingFrame {
        azimuth: soft(&p.azimuth),
        diffuseness: soft(&p.diffuseness),
        energy: soft(&p.energy),
        rear: of(rear),
    };
    (f, p)
}

fn plain_reflect(az: f32, rear: f32) -> f32 {
    let sign = if az < 0.0 { -1.0 } else { 1.0 };
    let mag = az.abs();
    sign * (mag + rear * (std::f32::consts::PI - 2.0 * mag))
}

fn plain_delta(a: f32, b: f32) -> f32 {
    let tau = std::f32::consts::TAU;
    let mut d = (a - b) % tau;
    if d > std::f32::consts::PI {
        d -= tau;
    } else if d < -std::f32::consts::PI {
        d += tau;
    }
    d
}

fn plain_project(x: f32, y: f32) -> (f32, f32, f32) {
    let s = 3.6 / (3.6 + y);
    (x * s, y * 0.5 * s + 0.10, s)
}

fn plain_ribbon(
    out: &mut Vec<f32>,
    pts: &[(f32, f32)],
    cols: &[[f32; 3]],
    widths: &[f32],
    closed: bool,
    inv: f32,
) {
    let n = pts.len();
    let mut strip = Vec::new();
    for k in 0..if closed { n + 1 } else { n } {
        let i = k % n;
        let prev = if i > 0 { pts[i - 1] } else if closed { pts[n - 1] } else { pts[0] };
        let next = if i + 1 < n { pts[i + 1] } else if closed { pts[0] } else { pts[n - 1] };
        let (tx, ty) = (next.0 - prev.0, next.1 - prev.1);
        let len = (tx * tx + ty * ty).sqrt().max(1e-6);
        let (nx, ny) = (-ty / len * widths[i], tx / len * widths[i]);
        let ((px, py), c) = (pts[i], cols[i]);
        strip.extend_from_slice(&[(px + nx) * inv, py + ny, c[0], c[1], c[2], 1.0]);
        strip.extend_from_slice(&[(px - nx) * inv, py - ny, c[0], c[1], c[2], -1.0]);
    }
    if !out.is_empty() {
        let last = out[out.len() - 6..].to_vec();
        out.extend_from_slice(&last);
        out.extend_from_slice(&strip[..6]);
    }
    out.extend_from_slice(&strip);
}

#[test]
fn directions_are_reflected_to_the_rear() {
    for az in [-1.5f32, -0.4, 0.0, 0.3, 1.0] {
        for rear in [0.0f32, 0.25, 1.0] {
            assert_eq!(to(reflect_rear(of(az), of(rear))), plain_reflect(az, rear));
        }
        assert_eq!(to(reflect_rear(of(az), of(0.0))), az);
    }
    let side = std::f32::consts::FRAC_PI_2;
    for rear in [0.0f32, 0.3, 1.0] {
        assert_eq!(to(reflect_rear(of(side), of(rear))), side);
        assert_eq!(to(reflect_rear(of(-side), of(rear))), -side);
    }
    let mirrored = to(reflect_rear(of(side / 2.0), of(1.0)));
    assert!((mirrored - 1.5 * side).abs() < 1e-6);
    assert!((to(reflect_rear(of(mirrored), of(1.0))) - side / 2.0).abs() < 1e-6);
    assert!((to(reflect_rear(of(-side / 2.0), of(1.0))) + 1.5 * side).abs() < 1e-6);
}

#[test]
fn angles_differ_by_at_most_half_a_turn() {
    for i in -40..40 {
        for j in -40..40 {
            let (a, b) = (i as f32 * 0.37, j as f32 * 0.29);
            let d = to(angle_delta(of(a), of(b)));
            assert_eq!(d, plain_delta(a, b));
            assert!(d.abs() <= std::f32::consts::PI);
        }
    }
}

#[test]
fn the_diffuse_part_lies_behind() {
    assert_eq!(to(diffuse_weight(of(1.0))), 0.0);
    assert_eq!(to(diffuse_weight(of(0.0))), 0.5);
    assert_eq!(to(diffuse_weight(of(-1.0))), 1.0);
    let p = imaging_project(of(0.4), of(-0.3));
    assert_eq!((to(p.x), to(p.y), to(p.s)), plain_project(0.4, -0.3));
}

/// The step angles, round by the right.
fn plain_step(i: usize) -> f32 {
    i as f32 / IMG_STEPS as f32 * std::f32::consts::TAU
}

/// A point of the front half of the stage.
fn plain_front(angle: f32, radius: f32) -> (f32, f32, f32) {
    let (s, c) = angle.sin_cos();
    plain_project(s * radius, c.clamp(0.0, 1.0) * radius)
}

fn stage(img: &ImagingFrame, inv: f32) -> ([Lobe; 3], Vec<Pass>) {
    let steps = turns(&step_angles());
    let bells: Vec<F32> = lobe_exponents(img).iter().map(|x| of(to(*x).exp())).collect();
    let lobes = [(0, LOW_END), (LOW_END, MID_END), (MID_END, NUM_BANDS)]
        .map(|(lo, hi)| imaging_lobe(img, &bells, &steps, lo, hi));
    let decays: Vec<Vec<F32>> =
        lobes.iter().map(|l| decay_exponents(l).iter().map(|x| of(to(*x).exp())).collect()).collect();
    let table = |k: usize| LobeTable { decays: &decays[k], tint: &lobes[k].tint };
    let t = StageTables {
        steps: &steps,
        ticks: &turns(&tick_angles()),
        bands: &turns(&band_angles(img)),
        lows: table(0),
        mids: table(1),
        highs: table(2),
    };
    let passes = imaging_passes(img, &palette(), of(inv), &t);
    (lobes, passes)
}

fn plain_lobe(p: &PlainImage, lo: usize, hi: usize) -> ([f32; IMG_STEPS], [f32; IMG_STEPS]) {
    let mut energy = [0.0f32; IMG_STEPS];
    let mut tint = [0.0f32; IMG_STEPS];
    let narrow = 1.0 / (2.0f32 * 0.16 * 0.16);
    for b in lo..hi {
        let e = p.energy[b];
        if e <= 0.01 {
            continue;
        }
        let d = p.diffuseness[b].clamp(0.0, 1.0);
        for i in 0..IMG_STEPS {
            let a = plain_step(i);
            let delta = plain_delta(a, p.azimuth[b]);
            let w = e * (1.0 - d) * (-delta * delta * narrow).exp() + e * d * ((1.0 - a.cos()) * 0.5);
            energy[i] += w;
            tint[i] += w * (b as f32 / 63.0);
        }
    }
    for i in 0..IMG_STEPS {
        if energy[i] > 1e-6 {
            tint[i] /= energy[i];
        }
    }
    (energy, tint)
}

#[test]
fn the_stage_agrees_with_machine_numbers() {
    let inv = 0.7f32;
    let front: Vec<usize> = (120..160).chain(0..=40).collect();
    for rear in [0.0f32, 0.6, 1.0] {
        let (img, p) = sample_image(rear);
        let (lobes, passes) = stage(&img, inv);
        assert_eq!(passes.len(), 3);
        assert!(is_pass(&passes[0], Shader::Plain, Blend::Add, Primitive::TriangleStrip));
        assert!(is_pass(&passes[1], Shader::Tube, Blend::Add, Primitive::TriangleStrip));
        assert!(is_pass(&passes[2], Shader::Glow, Blend::Add, Primitive::Points));

        let mut ribbons = Vec::new();
        let (mut pts, mut cols, mut ws) = (Vec::new(), Vec::new(), Vec::new());
        for i in &front {
            let (x, y, s) = plain_front(plain_step(*i), 0.70);
            pts.push((x, y));
            cols.push(A.map(|c| c * (0.22 * s * s)));
            ws.push(0.006 * s);
        }
        plain_ribbon(&mut ribbons, &pts, &cols, &ws, true, inv);
        let mut fill: Vec<f32> = Vec::new();
        let (cx, cy, _) = plain_project(0.0, 0.0);
        for (k, (lo, hi)) in [(0, 22), (22, 46), (46, 64)].into_iter().enumerate() {
            let (energy, tint) = plain_lobe(&p, lo, hi);
            for i in 0..IMG_STEPS {
                assert_eq!(to(lobes[k].energy[i]), energy[i]);
                assert_eq!(to(lobes[k].tint[i]), tint[i]);
                assert!(energy[i] >= 0.0 && (0.0..=1.0).contains(&tint[i]));
            }
            let (mut pts, mut cols, mut ws) = (Vec::new(), Vec::new(), Vec::new());
            let mut fan: Vec<f32> = Vec::new();
            for i in &front {
                let v = 1.0 - (-energy[*i] * 0.55).exp();
                let (x, y, s) = plain_front(plain_step(*i), 0.10 + v * (0.70f32 - 0.10));
                pts.push((x, y));
                let bright = (0.30 + v * 0.85) * s * s;
                cols.push(mix(tint[*i]).map(|c| c * bright));
                ws.push(0.010 * s);
                let f = 0.05 + v * 0.10;
                let c = mix(tint[*i]).map(|c| c * f);
                fan.extend_from_slice(&[cx * inv, cy, 0.0, 0.0, 0.0, 1.0]);
                fan.extend_from_slice(&[x * inv, y, c[0], c[1], c[2], 1.0]);
            }
            plain_ribbon(&mut ribbons, &pts, &cols, &ws, true, inv);
            if !fill.is_empty() {
                let last = fill[fill.len() - 6..].to_vec();
                fill.extend_from_slice(&last);
                fill.extend_from_slice(&fan[..6]);
            }
            fill.extend_from_slice(&fan);
        }
        let side = std::f32::consts::FRAC_PI_2;
        for (q, a) in [0.0f32, side, -side].into_iter().enumerate() {
            let (x0, y0, s) = plain_front(a, 0.70 * 1.02);
            let (x1, y1, _) = plain_front(a, 0.70 * (if q == 0 { 1.16 } else { 1.10 }));
            let c = A.map(|c| c * (0.30 * s * s));
            let tick = [(x0, y0), ((x0 + x1) * 0.5, (y0 + y1) * 0.5), (x1, y1)];
            plain_ribbon(&mut ribbons, &tick, &[c; 3], &[0.006 * s; 3], false, inv);
        }
        assert_eq!(flat(&passes[1].vertices), ribbons);
        assert_eq!(flat(&passes[0].vertices), fill);

        let mut dots = Vec::new();
        for b in 0..NUM_BANDS {
            let e = p.energy[b] * (1.0 - p.diffuseness[b].clamp(0.0, 1.0));
            if e <= 0.01 {
                continue;
            }
            let (x, y, s) = plain_front(p.azimuth[b], 0.70);
            let c = mix(b as f32 / 63.0);
            dots.extend_from_slice(&[x * inv, y, c[0], c[1], c[2], (e * s * s).clamp(0.0, 1.0)]);
        }
        assert_eq!(flat(&passes[2].vertices), dots);
        // Nothing is shown behind the listener.
        assert!(!passes[2].vertices.is_empty());
        assert!(passes[0].vertices.iter().chain(&passes[2].vertices).all(|v| to(v.y) >= 0.10));
    }
}

#[test]
fn mirrored_directions_mirror_the_lobes() {
    let (img, _) = sample_image(0.0);
    let mut mirrored = img;
    for b in 0..NUM_BANDS {
        mirrored.azimuth[b] = of(-to(img.azimuth[b]));
    }
    let (one, _) = stage(&img, 1.0);
    let (two, _) = stage(&mirrored, 1.0);
    for k in 0..3 {
        for i in 0..IMG_STEPS {
            let j = (IMG_STEPS - i) % IMG_STEPS;
            assert!((to(one[k].energy[i]) - to(two[k].energy[j])).abs() < 1e-4);
            assert!((to(one[k].tint[i]) - to(two[k].tint[j])).abs() < 1e-4);
        }
    }
}

#[test]
fn the_lobes_part_at_250_and_2500_hertz() {
    let begins = |b: usize| 30.0f64 * (16_000.0f64 / 30.0).powf(b as f64 / NUM_BANDS as f64);
    assert!(begins(LOW_END - 1) < 250.0 && begins(LOW_END) >= 250.0);
    assert!(begins(MID_END - 1) < 2500.0 && begins(MID_END) >= 2500.0);
}

#[test]
fn a_silent_stage_has_no_lights() {
    let (lobes, passes) = stage(&ImagingFrame::default(), 1.0);
    assert!(lobes.iter().all(|l| l.energy.iter().all(|x| to(*x) == 0.0)));
    assert!(passes[2].vertices.is_empty());
}

#[test]
fn every_rising_spoke_sends_out_particles() {
    for (rise, count) in [(0.0f32, 0), (0.02, 0), (0.03, 1), (0.1, 1), (0.25, 2), (0.5, 3), (1.0, 3)] {
        let mut scene = Scene::new(mesh());
        let mut r = [0.0f32; NUM_BANDS];
        r[0] = rise;
        let angles = scene.emissions(&soft(&[0.0; NUM_BANDS]), &soft(&r));
        assert_eq!(angles.len(), count);
        for e in &scene.sparks {
            assert_eq!(to(e.radius), 0.28 + rise * 0.62);
            assert!(to(e.speed) > 0.0);
        }
    }
}

#[test]
fn every_effect_has_its_passes() {
    assert_eq!(family(Effect::Bars), Family::Bars);
    assert_eq!(family(Effect::Line), Family::Line);
    assert_eq!(family(Effect::LineSpectrum), Family::NeonLine);
    assert_eq!(family(Effect::Radial), Family::Spokes);
    assert_eq!(family(Effect::RadialSpectrum), Family::NeonRing);
    assert_eq!(family(Effect::Tunnel), Family::Tunnel);
    assert_eq!(family(Effect::Solid), Family::Solid);
    assert_eq!(family(Effect::Imaging), Family::Stage);
    assert_eq!(family(Effect::Nebula), Family::Bare);
}

#[test]
fn a_mirrored_channel_stands_on_both_sides() {
    let (l, r) = frames(2);
    let mut v = VizState::default();
    assert!(v.wants_right());
    assert!(!v.wants_imaging());
    let mut img = ImagingFrame::default();
    img.rear = of(0.5);
    v.take_frame(&soft(&l), Some(soft(&r)), Some(img));
    assert_eq!(v.spectrum_right, soft(&r));
    assert_eq!(to(v.imaging.rear), 0.5);
    v.mirror = true;
    v.effect = Effect::Imaging;
    assert!(!v.wants_right());
    assert!(v.wants_imaging());
    v.take_frame(&soft(&l), None, None);
    assert_eq!(v.spectrum_left, soft(&l));
    assert_eq!(v.spectrum_right, soft(&l));
    assert_eq!(to(v.imaging.rear), 0.5);
}
