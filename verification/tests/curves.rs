//! Bars, lines, ribbons and rings, held against the same formulas in machine numbers.

use sinestesia::bands::NUM_BANDS;
use sinestesia::config::Rgb;
use sinestesia::dsp::SpectrumFrame;
use sinestesia::float::F32;
use sinestesia::render::curve::{catmull_rom, line_curve_points, smooth_curve, smooth_curve_subdiv, Point};
use sinestesia::render::levels::{audio_drive, bass_level, peak_level, silence_gate};
use sinestesia::render::paint::{denom_bands, flatten, mix, Vertex};
use sinestesia::render::radial::{
    build_radial_spectrum, build_radial_spokes, round_angles, spoke_angles, Turn,
};
use sinestesia::render::ribbon::{
    build_fill, build_line_spectrum, build_line_vertices, build_neon, build_neon_line, push_glow_ribbon,
};
use sinestesia::render::shapes::{build_bar_vertices, build_fade_quad};
use sinestesia::render::Palette;

fn of(x: f32) -> F32 {
    F32 { bits: x.to_bits() }
}

fn to(x: F32) -> f32 {
    f32::from_bits(x.bits)
}

fn rgb(r: f32, g: f32, b: f32) -> Rgb {
    Rgb::new(of(r), of(g), of(b))
}

const A: [f32; 3] = [0.84, 0.73, 1.0];
const B: [f32; 3] = [0.95, 0.72, 0.77];

fn palette() -> Palette {
    Palette { color_a: rgb(A[0], A[1], A[2]), color_b: rgb(B[0], B[1], B[2]) }
}

fn frame(f: impl Fn(usize) -> f32) -> (SpectrumFrame, [f32; NUM_BANDS]) {
    let mut a = [of(0.0); NUM_BANDS];
    let mut b = [0.0f32; NUM_BANDS];
    for i in 0..NUM_BANDS {
        b[i] = f(i);
        a[i] = of(b[i]);
    }
    (a, b)
}

fn left() -> (SpectrumFrame, [f32; NUM_BANDS]) {
    frame(|i| ((i * 37 % 64) as f32 / 63.0) * 1.1 - 0.05)
}

fn right() -> (SpectrumFrame, [f32; NUM_BANDS]) {
    frame(|i| ((i * 11 + 5) % 64) as f32 / 64.0)
}

fn flat(v: &[Vertex]) -> Vec<f32> {
    flatten(v).iter().map(|x| to(*x)).collect()
}

fn plain(pts: &[Point]) -> Vec<(f32, f32)> {
    pts.iter().map(|p| (to(p.0), to(p.1))).collect()
}

fn soft(pts: &[(f32, f32)]) -> Vec<Point> {
    pts.iter().map(|p| (of(p.0), of(p.1))).collect()
}

fn turns(angles: &[F32]) -> Vec<Turn> {
    angles
        .iter()
        .map(|a| {
            let (s, c) = to(*a).sin_cos();
            Turn { sin: of(s), cos: of(c) }
        })
        .collect()
}

fn plain_spline(p: [(f32, f32); 4], t: f32) -> (f32, f32) {
    let t2 = t * t;
    let t3 = t2 * t;
    let f = |a: f32, b: f32, c: f32, d: f32| {
        0.5 * ((2.0 * b)
            + (-a + c) * t
            + (2.0 * a - 5.0 * b + 4.0 * c - d) * t2
            + (-a + 3.0 * b - 3.0 * c + d) * t3)
    };
    (f(p[0].0, p[1].0, p[2].0, p[3].0), f(p[0].1, p[1].1, p[2].1, p[3].1))
}

fn plain_curve(pts: &[(f32, f32)], closed: bool, subdiv: usize) -> Vec<(f32, f32)> {
    let n = pts.len() as isize;
    if n < 3 {
        return pts.to_vec();
    }
    let get = |i: isize| if closed { pts[i.rem_euclid(n) as usize] } else { pts[i.clamp(0, n - 1) as usize] };
    let mut out = Vec::new();
    for i in 0..if closed { n } else { n - 1 } {
        for s in 0..subdiv {
            let t = s as f32 / subdiv as f32;
            out.push(plain_spline([get(i - 1), get(i), get(i + 1), get(i + 2)], t));
        }
    }
    if !closed {
        out.push(pts[pts.len() - 1]);
    }
    out
}

fn plain_line(l: &[f32; NUM_BANDS], r: &[f32; NUM_BANDS]) -> Vec<(f32, f32)> {
    let mut pts = Vec::new();
    for i in (0..NUM_BANDS).rev() {
        pts.push((-(i as f32 / 63.0), -1.0 + 2.0 * l[i].clamp(0.0, 1.0)));
    }
    for i in 0..NUM_BANDS {
        pts.push((i as f32 / 63.0, -1.0 + 2.0 * r[i].clamp(0.0, 1.0)));
    }
    pts
}

fn neighbours(pts: &[(f32, f32)], i: usize, closed: bool) -> ((f32, f32), (f32, f32)) {
    let n = pts.len();
    let prev = if i > 0 { pts[i - 1] } else if closed { pts[n - 1] } else { pts[0] };
    let next = if i + 1 < n { pts[i + 1] } else if closed { pts[0] } else { pts[n - 1] };
    (prev, next)
}

fn plain_neon(pts: &[(f32, f32)], closed: bool, vis: f32) -> Vec<f32> {
    let n = pts.len();
    let mut v = Vec::new();
    if n < 2 {
        return v;
    }
    for k in 0..if closed { n + 1 } else { n } {
        let i = k % n;
        let (prev, next) = neighbours(pts, i, closed);
        let (tx, ty) = (next.0 - prev.0, next.1 - prev.1);
        let len = (tx * tx + ty * ty).sqrt().max(1e-6);
        let (nx, ny) = (-ty / len, tx / len);
        let w = 0.024;
        let (px, py) = pts[i];
        let c = [A[0] * vis, A[1] * vis, A[2] * vis];
        v.extend_from_slice(&[px + nx * w, py + ny * w, c[0], c[1], c[2], 1.0]);
        v.extend_from_slice(&[px - nx * w, py - ny * w, c[0], c[1], c[2], -1.0]);
    }
    v
}

fn plain_fill(pts: &[(f32, f32)], bases: &[(f32, f32)], closed: bool) -> Vec<f32> {
    let n = pts.len();
    let mut v = Vec::new();
    for k in 0..if closed && n > 0 { n + 1 } else { n } {
        let i = k % n;
        v.extend_from_slice(&[bases[i].0, bases[i].1, A[0], A[1], A[2], 0.0]);
        v.extend_from_slice(&[pts[i].0, pts[i].1, B[0], B[1], B[2], 0.20]);
    }
    v
}

fn plain_border(pts: &[(f32, f32)], closed: bool, vis: f32) -> Vec<f32> {
    let n = pts.len();
    let mut v = Vec::new();
    for k in 0..if closed { n + 1 } else { n } {
        v.extend_from_slice(&[pts[k % n].0, pts[k % n].1, A[0], A[1], A[2], vis]);
    }
    v
}

fn plain_peak(l: &[f32; NUM_BANDS], r: &[f32; NUM_BANDS]) -> f32 {
    let mut m = 0.0f32;
    for i in 0..NUM_BANDS {
        m = m.max(l[i]).max(r[i]);
    }
    m.clamp(0.0, 1.0)
}

#[test]
fn the_veil_covers_the_screen() {
    let v = flat(&build_fade_quad(of(0.4)));
    let corners = [(-1.0, -1.0), (1.0, -1.0), (1.0, 1.0), (-1.0, -1.0), (1.0, 1.0), (-1.0, 1.0)];
    let mut want = Vec::new();
    for (x, y) in corners {
        want.extend_from_slice(&[x, y, 0.0, 0.0, 0.0, 0.4]);
    }
    assert_eq!(v, want);
}

#[test]
fn louder_bars_are_taller() {
    let mut last = -2.0f32;
    for k in -2..=22 {
        let value = [of(k as f32 / 20.0); NUM_BANDS];
        let v = build_bar_vertices(&value, &value, &palette());
        let highest = v.iter().map(|p| to(p.y)).fold(-1.0, f32::max);
        assert!(highest >= last && (-1.0..=1.0).contains(&highest));
        last = highest;
    }
    assert_eq!(last, 1.0);
}

#[test]
fn bars_agree_with_machine_numbers() {
    let ((l, lp), (r, rp)) = (left(), right());
    let got = flat(&build_bar_vertices(&l, &r, &palette()));
    let slot = 1.0 / NUM_BANDS as f32;
    let gap = slot * 0.12;
    let mut want = Vec::new();
    let mut bar = |xl: f32, xr: f32, h: f32| {
        let yt = -1.0 + 2.0 * h.clamp(0.0, 1.0);
        for (x, top) in [(xl, false), (xr, false), (xr, true), (xl, false), (xr, true), (xl, true)] {
            if top {
                want.extend_from_slice(&[x, yt, B[0], B[1], B[2], 1.0]);
            } else {
                want.extend_from_slice(&[x, -1.0, A[0], A[1], A[2], 0.0]);
            }
        }
    };
    for i in 0..NUM_BANDS {
        let from = i as f32 * slot + gap;
        let until = (i as f32 + 1.0) * slot - gap;
        bar(from, until, rp[i]);
        bar(-until, -from, lp[i]);
    }
    assert_eq!(got, want);
    assert!(got.chunks(6).all(|v| (-1.0..=1.0).contains(&v[1])));
}

#[test]
fn equal_channels_give_mirrored_bars() {
    let (l, _) = left();
    let v = build_bar_vertices(&l, &l, &palette());
    let mirror = [1, 0, 5, 1, 5, 2];
    for i in 0..NUM_BANDS {
        for j in 0..6 {
            let a = v[12 * i + 6 + j];
            let b = v[12 * i + mirror[j]];
            assert_eq!(to(a.x), -to(b.x));
            assert_eq!((a.y, a.r, a.g, a.b, a.a), (b.y, b.r, b.g, b.b, b.a));
        }
    }
}

#[test]
fn splines_agree_with_machine_numbers() {
    let p = [(0.1f32, -0.3f32), (0.25, 0.7), (0.9, 0.2), (1.3, -0.8)];
    for k in 0..=8 {
        let t = k as f32 / 8.0;
        let q = soft(&p);
        let got = catmull_rom(q[0], q[1], q[2], q[3], of(t));
        assert_eq!((to(got.0), to(got.1)), plain_spline(p, t));
    }
}

#[test]
fn curves_agree_with_machine_numbers() {
    let pts: Vec<(f32, f32)> = (0..9).map(|i| (i as f32 * 0.17, ((i * 5 % 7) as f32) * 0.11)).collect();
    for closed in [false, true] {
        for subdiv in [0, 1, 4, 8] {
            let got = plain(&smooth_curve_subdiv(&soft(&pts), closed, subdiv));
            assert_eq!(got, plain_curve(&pts, closed, subdiv));
        }
        assert_eq!(plain(&smooth_curve(&soft(&pts), closed)), plain_curve(&pts, closed, 8));
        // Fewer than three points stay as they are.
        assert_eq!(plain(&smooth_curve(&soft(&pts[..2]), closed)), pts[..2].to_vec());
        assert_eq!(plain(&smooth_curve(&[], closed)), Vec::new());
    }
}

#[test]
fn curves_pass_through_their_points() {
    let pts: Vec<(f32, f32)> = (0..7).map(|i| (i as f32 * 0.3 - 1.0, (i * i % 5) as f32 * 0.2)).collect();
    let got = plain(&smooth_curve_subdiv(&soft(&pts), false, 5));
    for (i, p) in pts.iter().enumerate() {
        assert_eq!(got[5 * i], *p);
    }
}

#[test]
fn lines_agree_with_machine_numbers() {
    let ((l, lp), (r, rp)) = (left(), right());
    let raw = plain_line(&lp, &rp);
    assert_eq!(plain(&line_curve_points(&l, &r)), raw);
    let pts = plain_curve(&raw, false, 8);
    let mut want = Vec::new();
    for (x, y) in &pts {
        want.extend_from_slice(&[*x, -1.0, A[0], A[1], A[2], 0.0]);
        want.extend_from_slice(&[*x, y.max(-1.0), B[0], B[1], B[2], 1.0]);
    }
    let got = flat(&build_line_vertices(&l, &r, &palette()));
    assert_eq!(got, want);
    assert!(got.chunks(6).all(|v| v[1] >= -1.0));
}

#[test]
fn equal_channels_give_a_mirrored_line() {
    let (l, _) = left();
    let pts = plain(&line_curve_points(&l, &l));
    for j in 0..NUM_BANDS {
        assert_eq!(pts[j].0, -pts[127 - j].0);
        assert_eq!(pts[j].1, pts[127 - j].1);
    }
}

#[test]
fn neon_lines_agree_with_machine_numbers() {
    let ((l, lp), (r, rp)) = (left(), right());
    let n = build_line_spectrum(&l, &r, &palette());
    let pts = plain_curve(&plain_line(&lp, &rp), false, 8);
    let bases: Vec<(f32, f32)> = pts.iter().map(|p| (p.0, -1.0)).collect();
    let vis = plain_peak(&lp, &rp);
    assert_eq!(flat(&n.fill), plain_fill(&pts, &bases, false));
    assert_eq!(flat(&n.halo), plain_neon(&pts, false, vis));
    assert_eq!(flat(&n.line), plain_border(&pts, false, vis));
}

#[test]
fn short_lines_have_no_border() {
    let one = soft(&[(0.5, 0.5)]);
    assert!(build_fill(&[], &[], &palette(), true).is_empty());
    assert_eq!(build_fill(&one, &one, &palette(), true).len(), 4);
    assert!(build_neon(&one, &palette(), true, of(1.0)).is_empty());
    assert!(build_neon_line(&one, &palette(), true, of(1.0)).is_empty());
    let mut out = Vec::new();
    let two = soft(&[(0.0, 0.0), (1.0, 1.0)]);
    let cols = vec![rgb(1.0, 1.0, 1.0); 3];
    push_glow_ribbon(&mut out, &two, &cols, &[of(0.1); 3], true, of(1.0));
    assert!(out.is_empty());
    // Without a border no colours and no widths are needed.
    push_glow_ribbon(&mut out, &two, &[], &[], true, of(1.0));
    assert!(out.is_empty());
}

#[test]
fn ribbons_are_stitched_without_area() {
    let pts = soft(&[(0.0, 0.0), (1.0, 0.0), (1.0, 1.0)]);
    let cols = [rgb(1.0, 0.5, 0.25), rgb(0.5, 0.5, 0.5), rgb(0.0, 1.0, 0.0)];
    let w = [of(0.1), of(0.2), of(0.3)];
    let mut out = Vec::new();
    push_glow_ribbon(&mut out, &pts, &cols, &w, false, of(0.5));
    assert_eq!(out.len(), 6);
    // Along the x axis the ribbon lies above and below its first point.
    assert_eq!(flat(&out[..2]), vec![0.0, 0.1, 1.0, 0.5, 0.25, 1.0, 0.0, -0.1, 1.0, 0.5, 0.25, -1.0]);
    let first = out.clone();
    push_glow_ribbon(&mut out, &pts, &cols, &w, true, of(0.5));
    assert_eq!(out.len(), 6 + 2 + 8);
    assert_eq!(out[..6], first[..]);
    assert_eq!(out[6], out[5]);
    assert_eq!(out[7], out[8]);
    assert_eq!(out[14..16], out[8..10]);
}

#[test]
fn spokes_agree_with_machine_numbers() {
    let ((l, lp), (r, rp)) = (left(), right());
    let inv = 0.5625f32;
    let got = flat(&build_radial_spokes(&l, &r, &palette(), of(inv), &turns(&spoke_angles())));
    let pi = std::f32::consts::PI;
    let half = (pi / NUM_BANDS as f32) * 0.40;
    let mut want = Vec::new();
    let mut spoke = |ang: f32, h: f32| {
        let r1 = 0.28 + h.clamp(0.0, 1.0) * 0.62;
        let pt = |a: f32, r: f32| {
            let (s, c) = a.sin_cos();
            (c * r * inv, s * r)
        };
        let (il, ir) = (pt(ang - half, 0.28), pt(ang + half, 0.28));
        let (ol, or) = (pt(ang - half, r1), pt(ang + half, r1));
        for (p, tip) in [(il, false), (ir, false), (or, true), (il, false), (or, true), (ol, true)] {
            let c = if tip { B } else { A };
            want.extend_from_slice(&[p.0, p.1, c[0], c[1], c[2], if tip { 1.0 } else { 0.0 }]);
        }
    };
    for i in 0..NUM_BANDS {
        let t = i as f32 / 63.0;
        spoke(std::f32::consts::FRAC_PI_2 - t * pi, rp[i]);
        spoke(std::f32::consts::FRAC_PI_2 + t * pi, lp[i]);
    }
    assert_eq!(got, want);
}

#[test]
fn radial_curves_agree_with_machine_numbers() {
    let ((l, lp), (r, rp)) = (left(), right());
    let inv = 0.75f32;
    let n = build_radial_spectrum(&l, &r, &palette(), of(inv), &turns(&round_angles()));
    let pi = std::f32::consts::PI;
    let mut raw = Vec::new();
    let mut add = |ang: f32, h: f32| {
        let r = 0.28 + h.clamp(0.0, 1.0) * 0.62;
        let (s, c) = ang.sin_cos();
        raw.push((c * r * inv, s * r));
    };
    for i in 0..NUM_BANDS {
        add(std::f32::consts::FRAC_PI_2 - i as f32 / 63.0 * pi, rp[i]);
    }
    for i in (0..NUM_BANDS).rev() {
        add(std::f32::consts::FRAC_PI_2 + i as f32 / 63.0 * pi, lp[i]);
    }
    let pts = plain_curve(&raw, true, 8);
    let bases: Vec<(f32, f32)> = pts
        .iter()
        .map(|&(px, py)| {
            let sx = px / inv;
            let len = (sx * sx + py * py).sqrt().max(1e-6);
            (sx / len * 0.28 * inv, py / len * 0.28)
        })
        .collect();
    let vis = plain_peak(&lp, &rp);
    assert_eq!(flat(&n.fill), plain_fill(&pts, &bases, true));
    assert_eq!(flat(&n.halo), plain_neon(&pts, true, vis));
    assert_eq!(flat(&n.line), plain_border(&pts, true, vis));
}

#[test]
fn levels_agree_with_machine_numbers() {
    let ((l, lp), (r, rp)) = (left(), right());
    assert_eq!(to(peak_level(&l, &r)), plain_peak(&lp, &rp));
    let mut sum = 0.0;
    for i in 0..12 {
        sum += lp[i] + rp[i];
    }
    let bass = (sum / 24.0f32).clamp(0.0, 1.0);
    assert_eq!(to(bass_level(&l, &r)), bass);
    let mut env = of(0.1);
    let d = audio_drive(&mut env, &l, &r);
    let e = 0.1f32 + (bass - 0.1) * 0.05;
    assert_eq!(to(env), e);
    assert_eq!(to(d.bass), bass);
    assert_eq!(to(d.punch), ((bass - e) * 2.5).clamp(0.0, 1.0));
    assert_eq!(to(d.gate), 1.0);
}

#[test]
fn the_silence_gate_opens_with_the_music() {
    assert_eq!(to(silence_gate(of(0.0))), 0.0);
    assert_eq!(to(silence_gate(of(0.05))), 0.0);
    assert_eq!(to(silence_gate(of(0.11))), (0.11f32 - 0.05) / 0.12);
    assert_eq!(to(silence_gate(of(0.5))), 1.0);
}

#[test]
fn colours_are_mixed_channel_by_channel() {
    let c = mix(rgb(0.2, 0.4, 1.0), rgb(0.6, 0.0, 1.0), of(0.25));
    assert_eq!(to(c.r), 0.2f32 + (0.6 - 0.2) * 0.25);
    assert_eq!(to(c.g), 0.4f32 + (0.0 - 0.4) * 0.25);
    assert_eq!(to(c.b), 1.0);
    assert_eq!(to(denom_bands()), 63.0);
}

#[test]
fn vertices_are_written_one_component_after_the_other() {
    let v = Vertex { x: of(1.0), y: of(2.0), r: of(3.0), g: of(4.0), b: of(5.0), a: of(6.0) };
    let w = Vertex { x: of(7.0), ..v };
    assert_eq!(flat(&[v, w]), vec![1.0, 2.0, 3.0, 4.0, 5.0, 6.0, 7.0, 2.0, 3.0, 4.0, 5.0, 6.0]);
}

#[test]
fn the_default_palette_goes_from_violet_to_pink() {
    assert_eq!(Palette::default(), palette());
}
