use std::f32::consts::PI;

use rust_autotune::arith::Op;
use rust_autotune::scalar::{num, Scalar};
use rust_autotune::yin::YinDetector;

fn s(x: f32) -> Scalar {
    num(x.to_bits())
}

fn v(x: Scalar) -> f32 {
    f32::from_bits(x.bits)
}

fn compute(op: Op) -> Scalar {
    let r = match op {
        Op::Add(a, b) => v(a) + v(b),
        Op::Sub(a, b) => v(a) - v(b),
        Op::Mul(a, b) => v(a) * v(b),
        Op::Div(a, b) => v(a) / v(b),
        Op::Sqrt(a) => v(a).sqrt(),
        Op::Exp(a) => v(a).exp(),
        Op::Log2(a) => v(a).log2(),
        Op::Pow(a, b) => v(a).powf(v(b)),
        Op::Sin(a) => v(a).sin(),
        Op::Cos(a) => v(a).cos(),
        Op::Atan2(a, b) => v(a).atan2(v(b)),
        Op::Round(a) => v(a).round(),
        Op::FromInt(n) => n as f32,
    };
    s(r)
}

fn tone(n: usize, hz: f32) -> Vec<Scalar> {
    (0..n).map(|i| s(0.5 * (2.0 * PI * hz * i as f32 / 44100.0).sin())).collect()
}

fn detector(low: f32, high: f32) -> YinDetector {
    YinDetector::new(s(44100.0), 2048, s(low), s(high), s(0.12), &compute)
}

#[test]
fn tones_are_detected() {
    for hz in [110.0, 220.0, 440.0] {
        let e = detector(80.0, 1000.0).estimate(&tone(2048, hz), &compute).unwrap();
        assert!((v(e.frequency_hz) - hz).abs() < 0.02 * hz, "{}", v(e.frequency_hz));
        assert!(v(e.confidence) > 0.5 && v(e.confidence) <= 1.0, "{}", v(e.confidence));
        assert_eq!(e.voiced, v(e.confidence) >= 1.0 - 0.12);
    }
}

#[test]
fn silence_has_no_pitch() {
    let e = detector(80.0, 1000.0).estimate(&vec![s(0.5); 2048], &compute).unwrap();
    assert_eq!(v(e.frequency_hz), 0.0);
    assert_eq!(v(e.confidence), 0.0);
    assert!(!e.voiced);
}

#[test]
fn frames_of_the_wrong_length_are_refused() {
    let mut d = detector(80.0, 1000.0);
    // The longest lag is 551.
    for (n, taken) in [(552, false), (553, true), (2048, true), (2049, false)] {
        assert_eq!(d.estimate(&vec![s(0.5); n], &compute).is_some(), taken);
    }
}

#[test]
fn lags_at_the_edge_are_refused() {
    // The period of the tone is longer than every lag that is searched.
    assert!(detector(400.0, 1000.0).estimate(&tone(2048, 100.0), &compute).is_none());
}

#[test]
fn noise_is_not_voiced() {
    let mut seed = 1u32;
    let noise: Vec<Scalar> = (0..2048)
        .map(|_| {
            seed = seed.wrapping_mul(1664525).wrapping_add(1013904223);
            s((seed >> 8) as f32 / 16777216.0 - 0.5)
        })
        .collect();
    if let Some(e) = detector(80.0, 1000.0).estimate(&noise, &compute) {
        assert!(!e.voiced);
        assert!(v(e.confidence) < 0.88);
    }
}

#[test]
fn ranges_may_leave_nothing_to_search() {
    assert!(detector(80.0, 1000.0).is_searchable());
    let d = YinDetector::new(s(44100.0), 16, s(80.0), s(100.0), s(0.1), &compute);
    assert!(!d.is_searchable());
}
