//! The arithmetic on bit patterns against the machine's own.

use core::ops::Neg;
use sinestesia::float::F32;

fn of(x: f32) -> F32 {
    F32 { bits: x.to_bits() }
}

fn to(x: F32) -> f32 {
    f32::from_bits(x.bits)
}

/// Equal bits, or both not a number.
fn same(x: F32, y: f32) -> bool {
    x.bits == y.to_bits() || (to(x).is_nan() && y.is_nan())
}

/// A spread of bit patterns: the edges of the format, then a run of pseudorandom ones.
fn samples(n: usize, seed: u32) -> Vec<f32> {
    let mut v = vec![
        0.0, -0.0, 1.0, -1.0, 0.5, 2.0, 3.0, -3.0, 0.1, 1e-45, -1e-45, 1.1754942e-38, 1.1754944e-38,
        3.4028235e38, -3.4028235e38, f32::INFINITY, f32::NEG_INFINITY, f32::NAN, 16777216.0, 16777215.0,
        8388608.5, 1.0000001, 0.99999994,
    ];
    let mut x: u64 = seed as u64 * 2654435761 + 12345;
    while v.len() < n {
        x = x.wrapping_mul(6364136223846793005).wrapping_add(1442695040888963407);
        let r = (x >> 32) as u32;
        v.push(f32::from_bits(r));
        // Numbers of ordinary size, whose sums and products do not all overflow.
        v.push(((r as i32) as f32) / 268435456.0);
        v.push(f32::from_bits((r & 0x807f_ffff) | (((x >> 20) as u32 % 6 + 124) << 23)));
    }
    v
}

#[test]
fn arithmetic_agrees_with_the_machine() {
    let a = samples(700, 1);
    let b = samples(700, 7);
    for &x in &a {
        for &y in &b {
            let (p, q) = (of(x), of(y));
            assert!(same(p + q, x + y), "{x:e} + {y:e}");
            assert!(same(p - q, x - y), "{x:e} - {y:e}");
            assert!(same(p * q, x * y), "{x:e} * {y:e}");
            assert!(same(p / q, x / y), "{x:e} / {y:e}");
            assert!(same(p % q, x % y), "{x:e} % {y:e}");
            assert_eq!(p.less(q), x < y);
            assert_eq!(p.at_most(q), x <= y);
        }
    }
}

#[test]
fn roots_and_conversions_agree_with_the_machine() {
    for &x in &samples(60000, 3) {
        let p = of(x);
        assert!(same(p.sqrt(), x.sqrt()), "sqrt {x:e}");
        assert!(same(p.neg(), -x));
        assert!(same(p.abs(), x.abs()));
        assert_eq!(p.to_index(), x as usize, "index of {x:e}");
        assert_eq!(p.is_nan(), x.is_nan());
        let n = x.to_bits() as u64 * 2654435761;
        assert!(same(F32::from_int(n), n as f32), "{n}");
        assert!(same(F32::from_int(x.to_bits() as u64), x.to_bits() as f32));
    }
}

#[test]
fn ratios_are_decimal_literals() {
    assert_eq!(to(F32::ratio(12, 100)), 0.12);
    assert_eq!(to(F32::ratio(1, 10)), 0.1);
    assert_eq!(to(F32::ratio(95, 100)), 0.95);
    assert_eq!(to(F32::ratio(18, 1000)), 0.018);
    assert_eq!(to(F32::ratio(66, 100000)), 0.00066);
    assert_eq!(to(F32::ratio(1, 1_000_000_000)), 1e-9);
    assert_eq!(to(F32::ratio(0, 7)), 0.0);
    assert_eq!(to(F32::ratio(13176795, 4194304)), std::f32::consts::PI);
    assert_eq!(to(F32::one()), 1.0);
    assert_eq!(to(F32::zero()), 0.0);
}

#[test]
fn choosing_prefers_numbers() {
    let nan = of(f32::NAN);
    assert_eq!(to(nan.max(of(2.0))), 2.0);
    assert_eq!(to(of(2.0).max(nan)), 2.0);
    assert_eq!(to(of(2.0).max(of(3.0))), 3.0);
    assert_eq!(to(of(2.0).min(of(3.0))), 2.0);
    assert_eq!(to(nan.min(of(3.0))), 3.0);
    assert_eq!(to(of(5.0).clamp(of(0.1), of(2.0))), 2.0);
    assert_eq!(to(of(-5.0).clamp(of(0.1), of(2.0))), 0.1);
    assert_eq!(to(of(0.7).clamp(of(0.1), of(2.0))), 0.7);
    assert!(nan.clamp(of(0.1), of(2.0)).is_nan());
}
