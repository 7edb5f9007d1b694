//! The analysis of both channels, held against the same steps in machine numbers.

use rustfft::num_complex::Complex as Cplx;
use rustfft::FftPlanner;
use sinestesia::audio::{AudioBuffer, Channel};
use sinestesia::bands::{compute_band_edges, FFT_SIZE, NUM_BANDS};
use sinestesia::dsp::{window_angles, Analyzer, Complex, SpectrumFrame};
use sinestesia::float::F32;
use sinestesia::stereo::{
    duplex_itd_weight, plausibility, rear_estimate, ImagingAnalyzer, ImagingFrame, Reading, SceneReading,
};

fn of(x: f32) -> F32 {
    F32 { bits: x.to_bits() }
}

fn to(x: F32) -> f32 {
    f32::from_bits(x.bits)
}

fn cosines() -> Vec<F32> {
    window_angles().iter().map(|a| of(to(*a).cos())).collect()
}

fn transform(xs: &[Complex]) -> Vec<Cplx<f32>> {
    let mut buf: Vec<Cplx<f32>> = xs.iter().map(|c| Cplx::new(to(c.re), to(c.im))).collect();
    FftPlanner::new().plan_fft_forward(FFT_SIZE).process(&mut buf);
    buf
}

fn back(xs: &[Cplx<f32>]) -> Vec<Complex> {
    xs.iter().map(|c| Complex { re: of(c.re), im: of(c.im) }).collect()
}

/// A stereo signal: two tones with different levels and a delay, over a quiet hiss.
fn signal(n: usize) -> Vec<f32> {
    let mut v = Vec::new();
    let mut seed: u32 = 7;
    for i in 0..n {
        let t = i as f32 / 48_000.0;
        seed = seed.wrapping_mul(1664525).wrapping_add(1013904223);
        let hiss = ((seed >> 8) as f32 / 16_777_216.0 - 0.5) * 0.01;
        v.push(0.6 * (t * 440.0 * 6.2831855).sin() + 0.2 * (t * 5000.0 * 6.2831855).sin() + hiss);
        v.push(0.3 * ((t - 0.0003) * 440.0 * 6.2831855).sin() + 0.25 * (t * 5000.0 * 6.2831855).sin());
    }
    v
}

fn filled(samples: &[f32]) -> AudioBuffer {
    let mut b = AudioBuffer::new(FFT_SIZE * 2);
    let xs: Vec<F32> = samples.iter().map(|x| of(*x)).collect();
    b.push_interleaved(&xs, 2);
    b
}

/// The Hann window and the bands in machine numbers.
fn plain_window() -> Vec<f32> {
    (0..FFT_SIZE)
        .map(|n| {
            let x = std::f32::consts::PI * 2.0 * n as f32 / (FFT_SIZE as f32 - 1.0);
            0.5 - 0.5 * x.cos()
        })
        .collect()
}

fn plain_edges() -> Vec<usize> {
    let bin_hz = (48_000f32 / 2.0) / (FFT_SIZE as f32 / 2.0);
    let (lo, hi) = (30f32.log10(), 16_000f32.log10());
    (0..=NUM_BANDS)
        .map(|i| {
            let t = i as f32 / NUM_BANDS as f32;
            let freq = 10f32.powf(lo + t * (hi - lo));
            ((freq / bin_hz).round() as usize).min(FFT_SIZE / 2 - 1)
        })
        .collect()
}

fn plain_bins(samples: &[f32]) -> Vec<Cplx<f32>> {
    let w = plain_window();
    let mut padded = vec![0.0f32; FFT_SIZE];
    let n = samples.len().min(FFT_SIZE);
    padded[FFT_SIZE - n..].copy_from_slice(&samples[samples.len() - n..]);
    let mut buf: Vec<Cplx<f32>> = (0..FFT_SIZE).map(|i| Cplx::new(padded[i] * w[i], 0.0)).collect();
    FftPlanner::new().plan_fft_forward(FFT_SIZE).process(&mut buf);
    buf
}

fn channel(samples: &[f32], k: usize) -> Vec<f32> {
    samples.iter().skip(k).step_by(2).copied().collect()
}

fn plain_analyze(smoothed: &mut [f32; NUM_BANDS], samples: &[f32], gain: f32) {
    let bins = plain_bins(samples);
    let edges = plain_edges();
    for b in 0..NUM_BANDS {
        let lo = edges[b];
        let hi = edges[b + 1].max(lo + 1);
        let mut peak = 0.0f32;
        for c in &bins[lo..hi] {
            let m = c.norm();
            if m > peak {
                peak = m;
            }
        }
        let mag = peak / (FFT_SIZE as f32 * 0.5);
        let db = 20.0 * (mag + 1e-9).log10();
        let norm = ((db + 70.0) / 70.0).clamp(0.0, 1.0);
        let target = (norm * gain).clamp(0.0, 1.0);
        let coeff = if target > smoothed[b] { 0.45 } else { 0.18 };
        smoothed[b] += (target - smoothed[b]) * coeff;
    }
}

fn analyze(a: &mut Analyzer, audio: &AudioBuffer, c: Channel, gain: f32) -> SpectrumFrame {
    let bins = transform(&a.windowed(audio, c));
    let norms: Vec<F32> = bins.iter().map(|z| of(z.norm())).collect();
    let levels = a.band_levels(&norms);
    let logs = levels.map(|x| of(to(x).log10()));
    a.analyze(&logs, of(gain))
}

#[test]
fn band_edges_follow_the_logarithmic_scale() {
    let edges = compute_band_edges();
    assert_eq!(edges, plain_edges());
    assert_eq!(edges.len(), NUM_BANDS + 1);
    assert_eq!(edges[0], 1);
    assert_eq!(edges[NUM_BANDS], 683);
    assert!(edges.windows(2).all(|w| w[0] <= w[1]));
}

#[test]
fn spectra_agree_with_machine_numbers() {
    let s = signal(4096);
    let mut a = Analyzer::new(&cosines());
    let mut plain = [0.0f32; NUM_BANDS];
    for (n, gain) in [(1500, 1.0f32), (3000, 1.0), (4096, 2.5), (4096, 0.3)] {
        let audio = filled(&s[..2 * n]);
        let got = analyze(&mut a, &audio, Channel::Left, gain);
        plain_analyze(&mut plain, &channel(&s[..2 * n], 0), gain);
        for b in 0..NUM_BANDS {
            assert_eq!(to(got[b]), plain[b], "band {b}");
        }
    }
}

#[test]
fn heights_stay_from_zero_to_one() {
    let s = signal(2048);
    let audio = filled(&s);
    let mut a = Analyzer::new(&cosines());
    for _ in 0..20 {
        let f = analyze(&mut a, &audio, Channel::Right, 10.0);
        assert!(f.iter().all(|x| (0.0..=1.0).contains(&to(*x))));
    }
}

#[test]
fn more_gain_lowers_no_band() {
    let audio = filled(&signal(2048));
    let mut last = [0.0f32; NUM_BANDS];
    for gain in [0.1f32, 0.5, 1.0, 1.7, 3.0, 10.0] {
        let f = analyze(&mut Analyzer::new(&cosines()), &audio, Channel::Left, gain);
        for b in 0..NUM_BANDS {
            assert!(to(f[b]) >= last[b]);
            last[b] = to(f[b]);
        }
    }
}

#[test]
fn levels_rise_faster_than_they_fall() {
    let s = signal(2048);
    let mut a = Analyzer::new(&cosines());
    let loud = filled(&s);
    let quiet = AudioBuffer::new(FFT_SIZE);
    let first = analyze(&mut a, &loud, Channel::Left, 1.0);
    let top = first.iter().map(|x| to(*x)).fold(0.0f32, f32::max);
    assert!(top > 0.3);
    let b = first.iter().position(|x| to(*x) == top).unwrap();
    let second = analyze(&mut a, &quiet, Channel::Left, 1.0);
    assert_eq!(to(second[b]), top + (0.0 - top) * 0.18);
}

#[test]
fn silence_stays_silent() {
    let mut a = Analyzer::new(&cosines());
    let f = analyze(&mut a, &AudioBuffer::new(FFT_SIZE), Channel::Left, 10.0);
    assert!(f.iter().all(|x| to(*x) == 0.0));
}

struct Plain {
    azimuth: [f32; NUM_BANDS],
    diffuseness: [f32; NUM_BANDS],
    energy: [f32; NUM_BANDS],
    rear: f32,
}

fn plain_range(l: &[Cplx<f32>], r: &[Cplx<f32>], lo_hz: f32, hi_hz: f32) -> (f32, f32, Cplx<f32>) {
    let bin_hz = 48_000f32 / FFT_SIZE as f32;
    let lo = ((lo_hz / bin_hz) as usize).max(1);
    let hi = ((hi_hz / bin_hz) as usize).min(FFT_SIZE / 2 - 1);
    let (mut sl, mut sr, mut x) = (0.0f32, 0.0f32, Cplx::new(0.0f32, 0.0));
    for k in lo..=hi {
        sl += l[k].norm_sqr();
        sr += r[k].norm_sqr();
        x += l[k] * r[k].conj();
    }
    (sl, sr, x)
}

fn plain_ild(l: &[Cplx<f32>], r: &[Cplx<f32>], lo: f32, hi: f32) -> f32 {
    let (sl, sr, _) = plain_range(l, r, lo, hi);
    10.0 * ((sr + 1e-12) / (sl + 1e-12)).log10()
}

fn plain_image(p: &mut Plain, l: &[Cplx<f32>], r: &[Cplx<f32>], gain: f32) {
    let d = plain_ild(l, r, 3800.0, 6500.0) - plain_ild(l, r, 1800.0, 3200.0);
    let lateral = (plain_ild(l, r, 200.0, 16000.0).abs() / 6.0).clamp(0.0, 1.0);
    let (sll, srr, slr) = plain_range(l, r, 200.0, 1000.0);
    let low = slr.norm() / (sll * srr).sqrt().max(1e-12);
    let real = ((low - 0.55) / 0.25).clamp(0.0, 1.0);
    let rear = (-d / 4.0).clamp(0.0, 1.0) * lateral * real;
    p.rear += (rear - p.rear) * 0.12;
    let edges = plain_edges();
    let bin_hz = (48_000f32 / 2.0) / (FFT_SIZE as f32 / 2.0);
    for b in 0..NUM_BANDS {
        let lo = edges[b];
        let hi = edges[b + 1].max(lo + 1);
        let (mut sll, mut srr, mut slr, mut peak) = (0.0f32, 0.0f32, Cplx::new(0.0f32, 0.0), 0.0f32);
        for k in lo..hi {
            let (pl, pr) = (l[k].norm_sqr(), r[k].norm_sqr());
            sll += pl;
            srr += pr;
            slr += l[k] * r[k].conj();
            peak = peak.max(((pl + pr) * 0.5).sqrt());
        }
        let coh = (slr.norm() / (sll * srr).sqrt().max(1e-12)).clamp(0.0, 1.0);
        let ild = 10.0 * ((srr + 1e-12) / (sll + 1e-12)).log10();
        let lat_ild = (ild / 18.0).clamp(-1.0, 1.0);
        let freq = ((lo + hi) as f32 * 0.5 * bin_hz).max(1.0);
        let tau = slr.arg() / (std::f32::consts::TAU * freq);
        let weight = ((1600.0 - freq) / (1600.0f32 - 700.0)).clamp(0.0, 1.0);
        let lat_itd = -(tau / 0.00066).clamp(-1.0, 1.0) * weight * coh;
        let lat = (lat_itd + lat_ild).clamp(-1.0, 1.0);
        let mag = peak / (FFT_SIZE as f32 * 0.5);
        let db = 20.0 * (mag + 1e-9).log10();
        let energy = (((db + 70.0) / 70.0).clamp(0.0, 1.0) * gain).clamp(0.0, 1.0);
        let coeff = if energy > p.energy[b] { 0.45 } else { 0.18 };
        p.energy[b] += (energy - p.energy[b]) * coeff;
        let k = 0.10 + 0.30 * p.energy[b];
        let side = std::f32::consts::FRAC_PI_2;
        let direction = ((lat * 0.577_350_26).atan() * 3.0).clamp(-side, side);
        p.azimuth[b] += (direction - p.azimuth[b]) * k;
        p.diffuseness[b] += ((1.0 - coh) - p.diffuseness[b]) * k;
    }
}

fn image(a: &mut ImagingAnalyzer, audio: &AudioBuffer, gain: f32) -> ImagingFrame {
    let l = back(&transform(&a.windowed(audio, Channel::Left)));
    let r = back(&transform(&a.windowed(audio, Channel::Right)));
    let m = a.measure(&l, &r);
    let log = |x: F32| of(to(x).log10());
    let scene = SceneReading {
        pinna_log: log(m.pinna),
        reference_log: log(m.reference),
        wide_log: log(m.wide),
        low_norm: of(Cplx::new(to(m.low_cross.re), to(m.low_cross.im)).norm()),
    };
    let readings: Vec<Reading> = m
        .bands
        .iter()
        .map(|b| {
            let z = Cplx::new(to(b.cross.re), to(b.cross.im));
            Reading {
                norm: of(z.norm()),
                phase: of(z.arg()),
                ratio_log: log(b.ratio),
                level_log: log(b.level),
            }
        })
        .collect();
    let tangents = a.locate(&m, &scene, &readings, of(gain));
    let angles = tangents.map(|x| of(to(x).atan()));
    a.analyze(&m, &readings, &angles)
}

#[test]
fn stereo_images_agree_with_machine_numbers() {
    // The scene is on the right, where the plain difference of levels has its sign.
    let s: Vec<f32> = signal(4096).chunks(2).flat_map(|c| [c[1], c[0]]).collect();
    let mut a = ImagingAnalyzer::new(&cosines());
    let mut p = Plain {
        azimuth: [0.0; NUM_BANDS],
        diffuseness: [0.0; NUM_BANDS],
        energy: [0.0; NUM_BANDS],
        rear: 0.0,
    };
    for (n, gain) in [(2048, 1.0f32), (3000, 1.5), (4096, 1.0)] {
        let part = &s[..2 * n];
        let got = image(&mut a, &filled(part), gain);
        plain_image(&mut p, &plain_bins(&channel(part, 0)), &plain_bins(&channel(part, 1)), gain);
        assert_eq!(to(got.rear), p.rear);
        for b in 0..NUM_BANDS {
            assert_eq!(to(got.energy[b]), p.energy[b], "energy {b}");
            assert_eq!(to(got.azimuth[b]), p.azimuth[b], "azimuth {b}");
            assert_eq!(to(got.diffuseness[b]), p.diffuseness[b], "diffuseness {b}");
        }
    }
    assert!(p.rear > 0.1);
}

#[test]
fn directions_stay_in_front() {
    let s = signal(4096);
    let mut a = ImagingAnalyzer::new(&cosines());
    for _ in 0..6 {
        let f = image(&mut a, &filled(&s), 10.0);
        assert!(f.azimuth.iter().all(|x| to(*x).abs() <= std::f32::consts::FRAC_PI_2));
        assert!(f.diffuseness.iter().all(|x| (0.0..=1.0).contains(&to(*x))));
        assert!((0.0..=1.0).contains(&to(f.rear)));
    }
}

#[test]
fn the_same_signal_on_both_sides_is_in_the_middle() {
    let mono: Vec<f32> = signal(2048).chunks(2).flat_map(|c| [c[0], c[0]]).collect();
    let audio = filled(&mono);
    let mut a = ImagingAnalyzer::new(&cosines());
    let f = image(&mut a, &audio, 1.0);
    assert!(f.azimuth.iter().all(|x| to(*x) == 0.0));
    assert_eq!(to(f.rear), 0.0);
    let plain = analyze(&mut Analyzer::new(&cosines()), &audio, Channel::Left, 1.0);
    for b in 0..NUM_BANDS {
        assert!((to(f.energy[b]) - to(plain[b])).abs() < 1e-5, "band {b}");
    }
}

#[test]
fn exchanged_channels_mirror_the_image() {
    let s = signal(2048);
    let swapped: Vec<f32> = s.chunks(2).flat_map(|c| [c[1], c[0]]).collect();
    let f = image(&mut ImagingAnalyzer::new(&cosines()), &filled(&s), 1.0);
    let g = image(&mut ImagingAnalyzer::new(&cosines()), &filled(&swapped), 1.0);
    for b in 0..NUM_BANDS {
        assert!((to(f.azimuth[b]) + to(g.azimuth[b])).abs() < 1e-4, "band {b}");
        assert_eq!(f.diffuseness[b], g.diffuseness[b]);
        assert_eq!(f.energy[b], g.energy[b]);
    }
    assert!((to(f.rear) - to(g.rear)).abs() < 1e-4);
    let right: Vec<f32> = s.chunks(2).flat_map(|c| [0.0, c[0]]).collect();
    let mut a = ImagingAnalyzer::new(&cosines());
    let mut h = image(&mut a, &filled(&right), 1.0);
    for _ in 0..60 {
        h = image(&mut a, &filled(&right), 1.0);
    }
    // All to the right ends at the right end of the arc.
    assert!(h.azimuth.iter().all(|x| (to(*x) - std::f32::consts::FRAC_PI_2).abs() < 0.01));
}

#[test]
fn an_inverted_channel_is_not_believed() {
    let s = signal(2048);
    let inverted: Vec<f32> = s.chunks(2).flat_map(|c| [c[0], -c[0]]).collect();
    let audio = filled(&inverted);
    let a = ImagingAnalyzer::new(&cosines());
    let l = back(&transform(&a.windowed(&audio, Channel::Left)));
    let r = back(&transform(&a.windowed(&audio, Channel::Right)));
    let m = a.measure(&l, &r);
    assert!(to(m.low_cross.re) < 0.0);
    assert_eq!(to(m.low_cross.im), 0.0);
    let norm = of(Cplx::new(to(m.low_cross.re), to(m.low_cross.im)).norm());
    assert_eq!(to(plausibility(m.low_cross, m.low_span, norm)), 0.0);
    let same = a.measure(&l, &l);
    assert_eq!(to(plausibility(same.low_cross, same.low_span, norm)), 1.0);
    // A quieter inverse is an inverse as well.
    let quieter: Vec<Complex> =
        r.iter().map(|c| Complex { re: of(to(c.re) * 0.7), im: of(to(c.im) * 0.7) }).collect();
    let q = a.measure(&l, &quieter);
    assert_eq!(to(plausibility(q.low_cross, q.low_span, q.low_span)), 0.0);
}

#[test]
fn time_differences_count_at_low_frequencies() {
    assert_eq!(to(duplex_itd_weight(of(300.0))), 1.0);
    assert_eq!(to(duplex_itd_weight(of(700.0))), 1.0);
    assert_eq!(to(duplex_itd_weight(of(1150.0))), 0.5);
    assert_eq!(to(duplex_itd_weight(of(1600.0))), 0.0);
    assert_eq!(to(duplex_itd_weight(of(9000.0))), 0.0);
}

#[test]
fn decorrelated_low_frequencies_are_not_believed() {
    let c = |re: f32, im: f32| Complex { re: of(re), im: of(im) };
    assert_eq!(to(plausibility(c(1.0, 0.0), of(1.0), of(1.0))), 1.0);
    assert_eq!(to(plausibility(c(0.5, 0.0), of(1.0), of(0.5))), 0.0);
    assert_eq!(to(plausibility(c(1.4, 0.0), of(2.0), of(1.4))), ((0.7f32 - 0.55) / 0.25).clamp(0.0, 1.0));
    assert_eq!(to(plausibility(c(0.0, 0.0), of(1.0), of(0.0))), 0.0);
}

#[test]
fn a_delay_is_no_inverse() {
    // One signal with the phase a little over a quarter turn, far over it, and almost
    // half a turn, either way.
    for angle in [1.58f32, 2.0, 2.5, 3.0, 3.13] {
        for sign in [1.0f32, -1.0] {
            let z = Complex { re: of(angle.cos()), im: of(angle.sin() * sign) };
            assert_eq!(to(plausibility(z, of(1.0), of(1.0))), 1.0);
        }
    }
    let half = Complex { re: of(-1.0), im: of(0.0) };
    assert_eq!(to(plausibility(half, of(1.0), of(1.0))), 0.0);
}

#[test]
fn the_estimate_of_the_rear_has_no_side() {
    let rear = |pinna: f32, reference: f32, wide: f32| {
        let s = SceneReading { pinna_log: of(pinna), reference_log: of(reference), wide_log: of(wide), low_norm: of(1.0) };
        to(rear_estimate(&s, Complex { re: of(1.0), im: of(0.0) }, of(1.0)))
    };
    // A level difference that is the same everywhere is in front.
    assert_eq!(rear(0.8, 0.8, 0.9), 0.0);
    // A source at one side with the stronger difference in the ear's region is in front.
    assert_eq!(rear(2.0, 1.0, 1.0), 0.0);
    assert_eq!(rear(-2.0, -1.0, -1.0), 0.0);
    // Where the difference drops there, it is behind.
    assert_eq!(rear(0.2, 0.8, 0.9), 1.0);
    assert_eq!(rear(-0.2, -0.8, -0.9), 1.0);
    assert_eq!(rear(0.6, 0.8, 0.9), (2.0f32 / 4.0).clamp(0.0, 1.0));
    // In the middle nothing can be decided.
    assert_eq!(rear(0.2, 0.8, 0.0), 0.0);
    for p in [-1.5f32, -0.3, 0.0, 0.4, 2.0] {
        for q in [-1.0f32, -0.2, 0.0, 0.3, 0.9] {
            assert_eq!(rear(p, q, 0.7), rear(-p, -q, -0.7));
        }
    }
}
