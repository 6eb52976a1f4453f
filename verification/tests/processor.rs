use std::f32::consts::PI;

use rust_autotune::arith::Op;
use rust_autotune::processor::{PitchCorrectionProcessor, ProcessorConfig};
use rust_autotune::scalar::{num, Scalar};
use rust_autotune::scale::{midi_to_hz, ScaleKind, ScaleMapper};

fn s(x: f32) -> Scalar {
    num(x.to_bits())
}

fn v(x: Scalar) -> f32 {
    f32::from_bits(x.bits)
}

fn compute(op: Op) -> Scalar {
    let r = match op {
        Op::Add(a, b) => v(a) + v(b),
        Op::Sub(a, b) => v(a) - v(b),
        Op::Mul(a, b) => v(a) * v(b),
        Op::Div(a, b) => v(a) / v(b),
        Op::Sqrt(a) => v(a).sqrt(),
        Op::Exp(a) => v(a).exp(),
        Op::Log2(a) => v(a).log2(),
        Op::Pow(a, b) => v(a).powf(v(b)),
        Op::Sin(a) => v(a).sin(),
        Op::Cos(a) => v(a).cos(),
        Op::Atan2(a, b) => v(a).atan2(v(b)),
        Op::Round(a) => v(a).round(),
        Op::FromInt(n) => n as f32,
    };
    s(r)
}

fn settings() -> ProcessorConfig {
    ProcessorConfig {
        sample_rate: s(44100.0),
        min_freq_hz: s(80.0),
        max_freq_hz: s(1000.0),
        yin_threshold: s(0.4),
        confidence_threshold: s(0.5),
        retune_time_ms: s(1.0),
        correction_strength: s(1.0),
        aggressiveness: s(1.0),
        dead_zone_cents: s(0.0),
        dry_level: s(0.0),
        wet_level: s(1.0),
        force_midi_note: None,
        formant_enabled: false,
        formant_amount: s(0.0),
    }
}

fn processor(config: ProcessorConfig) -> PitchCorrectionProcessor {
    PitchCorrectionProcessor::new(config, ScaleMapper::new(0, ScaleKind::Chromatic), &compute)
}

fn tone(n: usize, hz: f32) -> Vec<Scalar> {
    (0..n).map(|i| s(0.5 * (2.0 * PI * hz * i as f32 / 44100.0).sin())).collect()
}

fn run(p: &mut PitchCorrectionProcessor, input: &[Scalar]) -> Vec<Scalar> {
    let mut out = vec![s(0.0); input.len()];
    p.process_block(input, &mut out, &compute);
    out
}

#[test]
fn pitch_is_followed_and_corrected() {
    let mut p = processor(settings());
    run(&mut p, &tone(6000, 450.0));
    let m = p.meter();
    assert!((v(m.detected_hz) - 450.0).abs() < 5.0, "{}", v(m.detected_hz));
    assert_eq!(v(m.target_hz), 440.0);
    let want = 440.0 / v(m.detected_hz);
    assert!((v(m.ratio) - want).abs() < 0.003, "{}", v(m.ratio));
}

#[test]
fn a_note_can_be_forced() {
    let mut config = settings();
    config.force_midi_note = Some(64);
    let mut p = processor(config);
    run(&mut p, &tone(6000, 450.0));
    assert_eq!(p.meter().target_hz, midi_to_hz(s(64.0), &compute));
    assert!(v(p.meter().ratio) < 0.8);
}

#[test]
fn small_deviations_are_left_alone() {
    let mut config = settings();
    config.dead_zone_cents = s(50.0);
    let mut p = processor(config);
    run(&mut p, &tone(6000, 445.0));
    assert_eq!(v(p.meter().target_hz), 440.0);
    assert_eq!(v(p.meter().ratio), 1.0);
    p.set_dead_zone_cents(s(-3.0));
    run(&mut p, &tone(6000, 445.0));
    assert!(v(p.meter().ratio) < 0.995);
}

#[test]
fn strength_is_set_and_kept_in_range() {
    let mut p = processor(settings());
    p.set_correction_strength(s(-1.0));
    run(&mut p, &tone(6000, 450.0));
    assert_eq!(v(p.meter().ratio), 1.0);
    p.set_correction_strength(s(7.0));
    p.set_aggressiveness(s(7.0));
    run(&mut p, &tone(6000, 450.0));
    assert!(v(p.meter().ratio) < 0.99);
    assert!(v(p.meter().ratio) > 0.95);
}

#[test]
fn slow_retuning_takes_its_time() {
    let mut p = processor(settings());
    p.set_retune_time_ms(s(100_000.0), &compute);
    run(&mut p, &tone(6000, 450.0));
    let ratio = v(p.meter().ratio);
    assert!(ratio < 1.0 && ratio > 0.999, "{ratio}");
}

#[test]
fn scale_is_changed_on_the_way() {
    let mut p = processor(settings());
    p.set_scale_key(ScaleKind::Major, 1);
    // A is not a note of C sharp major, and A sharp is.
    run(&mut p, &tone(6000, 440.0));
    assert_eq!(p.meter().target_hz, midi_to_hz(s(70.0), &compute));
}

#[test]
fn nothing_is_detected_before_a_frame_is_heard() {
    let mut p = processor(settings());
    run(&mut p, &tone(2047, 450.0));
    assert_eq!(v(p.meter().detected_hz), 0.0);
    assert_eq!(v(p.meter().ratio), 1.0);
    run(&mut p, &tone(1, 450.0));
    assert!(v(p.meter().detected_hz) > 0.0);
}

#[test]
fn lost_pitch_is_dropped() {
    let mut p = processor(settings());
    run(&mut p, &tone(6000, 450.0));
    assert!(v(p.meter().detected_hz) > 0.0);
    // A frame of silence, and as many detections as a pitch is held.
    run(&mut p, &vec![s(0.0); 2048 + 9 * 256]);
    assert_eq!(v(p.meter().detected_hz), 0.0);
    assert_eq!(v(p.meter().target_hz), 0.0);
    assert_eq!(v(p.meter().confidence), 0.0);
}

#[test]
fn dry_signal_comes_late() {
    let mut config = settings();
    config.dry_level = s(1.0);
    config.wet_level = s(0.0);
    let mut p = processor(config);
    let input = tone(5000, 300.0);
    let out = run(&mut p, &input);
    // A frame of the shifter is 2048 samples.
    assert!(out[..2048].iter().all(|x| v(*x) == 0.0));
    assert_eq!(out[2048..], input[..5000 - 2048]);
}

#[test]
fn dry_and_wet_are_aligned() {
    let mut seed = 3u32;
    let noise: Vec<Scalar> = (0..24000)
        .map(|_| {
            seed = seed.wrapping_mul(1664525).wrapping_add(1013904223);
            s((seed >> 8) as f32 / 16777216.0 - 0.5)
        })
        .collect();
    let mut dry = processor(settings());
    dry.set_dry_wet_levels(s(1.0), s(0.0));
    let mut wet = processor(settings());
    let d = run(&mut dry, &noise);
    let w = run(&mut wet, &noise);
    for i in 20000..24000 {
        assert!((v(d[i]) - v(w[i])).abs() < 1e-4, "{} {} {}", i, v(d[i]), v(w[i]));
        assert_eq!(d[i], noise[i - 2048]);
    }
}

#[test]
fn mix_is_of_equal_power() {
    let mut dry = processor(settings());
    dry.set_dry_wet_levels(s(1.0), s(0.0));
    let mut wet = processor(settings());
    let mut both = processor(settings());
    both.set_dry_wet_levels(s(0.36), s(0.64));
    let input = tone(5000, 300.0);
    let d = run(&mut dry, &input);
    let w = run(&mut wet, &input);
    let b = run(&mut both, &input);
    let (dw, ww) = (0.36f32.sqrt(), 0.64f32.sqrt());
    assert!((dw * dw + ww * ww - 1.0).abs() < 1e-6);
    for i in 0..5000 {
        let want = dw * v(d[i]) + ww * v(w[i]);
        assert!((v(b[i]) - want.clamp(-1.0, 1.0)).abs() < 1e-6);
    }
}

#[test]
fn loud_mixes_keep_their_power() {
    let mut dry = processor(settings());
    dry.set_dry_wet_levels(s(1.0), s(0.0));
    let mut wet = processor(settings());
    let mut both = processor(settings());
    both.set_dry_wet_levels(s(1.0), s(1.0));
    let mut soft = processor(settings());
    soft.set_dry_wet_levels(s(0.25), s(0.25));
    let input = tone(5000, 300.0);
    let d = run(&mut dry, &input);
    let w = run(&mut wet, &input);
    let b = run(&mut both, &input);
    let q = run(&mut soft, &input);
    for i in 0..5000 {
        assert_eq!(v(b[i]), ((v(d[i]) + v(w[i])) / 2.0f32.sqrt()).clamp(-1.0, 1.0));
        assert_eq!(v(q[i]), 0.5 * v(d[i]) + 0.5 * v(w[i]));
    }
    assert!(b.iter().any(|x| v(*x).abs() > 0.3));
}

#[test]
fn levels_can_move_within_a_block() {
    let input = tone(5000, 300.0);
    let mut dry = processor(settings());
    dry.set_dry_wet_levels(s(1.0), s(0.0));
    let d = run(&mut dry, &input);
    let w = run(&mut processor(settings()), &input);

    let levels: Vec<f32> = (0..5000).map(|i| i as f32 / 4000.0 - 0.1).collect();
    let falling: Vec<Scalar> = levels.iter().map(|x| s(1.0 - x)).collect();
    let rising: Vec<Scalar> = levels.iter().map(|x| s(*x)).collect();
    let mut p = processor(settings());
    let mut out = vec![s(0.0); 5000];
    p.process_block_at(&input, &mut out, &falling, &rising, &compute);
    for i in 0..5000 {
        let (dl, wl) = ((1.0 - levels[i]).clamp(0.0, 1.0), levels[i].clamp(0.0, 1.0));
        let sum = dl.sqrt() * v(d[i]) + wl.sqrt() * v(w[i]);
        assert_eq!(v(out[i]), (sum / (dl + wl).sqrt().max(1.0)).clamp(-1.0, 1.0), "{i}");
    }

    let mut steady = processor(settings());
    steady.set_dry_wet_levels(s(0.3), s(0.9));
    let want = run(&mut steady, &input);
    let mut p = processor(settings());
    let (low, high) = (vec![s(0.3); 5000], vec![s(0.9); 5000]);
    p.process_block_at(&input, &mut out, &low, &high, &compute);
    assert_eq!(out, want);
}

#[test]
fn output_is_kept_in_range() {
    let mut p = processor(settings());
    p.set_dry_wet_levels(s(1.0), s(1.0));
    let input: Vec<Scalar> = tone(6000, 200.0).iter().map(|x| s(v(*x) * 40.0)).collect();
    let out = run(&mut p, &input);
    assert!(out.iter().all(|x| v(*x).abs() <= 1.0));
    assert!(out.iter().any(|x| v(*x) == 1.0));
}

#[test]
fn full_chunks_add_up() {
    let input = tone(5096, 450.0);
    let whole = run(&mut processor(settings()), &input);
    let mut p = processor(settings());
    let mut parts = run(&mut p, &input[..2048]);
    parts.extend(run(&mut p, &input[2048..4096]));
    parts.extend(run(&mut p, &input[4096..]));
    assert_eq!(whole, parts);
}

#[test]
fn settings_may_leave_nothing_to_detect() {
    assert!(processor(settings()).can_detect());
    let mut config = settings();
    config.sample_rate = s(1e9);
    let mut p = processor(config);
    assert!(!p.can_detect());
    // Silence is processed all the same.
    let out = run(&mut p, &vec![s(0.0); 5000]);
    assert!(out.iter().all(|x| v(*x) == 0.0));
}
