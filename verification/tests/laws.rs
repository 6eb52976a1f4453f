use std::f32::consts::PI;

use rust_autotune::arith::Op;
use rust_autotune::processor::{PitchCorrectionProcessor, ProcessorConfig};
use rust_autotune::psola::{PsolaConfig, PsolaShifter};
use rust_autotune::scalar::{num, Scalar};
use rust_autotune::scale::{hz_to_midi, midi_to_hz, ScaleKind, ScaleMapper};
use rust_autotune::smoothing::coeff_from_time_ms;
use rust_autotune::yin::YinDetector;

fn s(x: f32) -> Scalar {
    num(x.to_bits())
}

fn v(x: Scalar) -> f32 {
    f32::from_bits(x.bits)
}

fn compute(op: Op) -> Scalar {
    let r = match op {
        Op::Add(a, b) => v(a) + v(b),
        Op::Sub(a, b) => v(a) - v(b),
        Op::Mul(a, b) => v(a) * v(b),
        Op::Div(a, b) => v(a) / v(b),
        Op::Sqrt(a) => v(a).sqrt(),
        Op::Exp(a) => v(a).exp(),
        Op::Log2(a) => v(a).log2(),
        Op::Pow(a, b) => v(a).powf(v(b)),
        Op::Sin(a) => v(a).sin(),
        Op::Cos(a) => v(a).cos(),
        Op::Atan2(a, b) => v(a).atan2(v(b)),
        Op::Round(a) => v(a).round(),
        Op::FromInt(n) => n as f32,
    };
    s(r)
}

fn tone(n: usize, hz: f32) -> Vec<Scalar> {
    (0..n).map(|i| s(0.5 * (2.0 * PI * hz * i as f32 / 44100.0).sin())).collect()
}

fn noise(n: usize, mut seed: u32) -> Vec<Scalar> {
    (0..n)
        .map(|_| {
            seed = seed.wrapping_mul(1664525).wrapping_add(1013904223);
            s((seed >> 8) as f32 / 16777216.0 - 0.5)
        })
        .collect()
}

#[test]
fn scales_hold_seven_of_twelve_classes() {
    for root in 0..12i32 {
        for kind in [ScaleKind::Chromatic, ScaleKind::Major, ScaleKind::Minor] {
            let m = ScaleMapper::new(root, kind);
            let count = (0..12).filter(|&pc| m.note_enabled(pc)).count();
            assert_eq!(count, if kind == ScaleKind::Chromatic { 12 } else { 7 });
            assert!(m.note_enabled(root) && m.note_enabled(root + 7));
            let (major, minor) = (m.note_enabled(root + 4), m.note_enabled(root + 3));
            match kind {
                ScaleKind::Chromatic => assert!(major && minor),
                ScaleKind::Major => assert!(major && !minor),
                ScaleKind::Minor => assert!(!major && minor),
            }
            let mut again = m.clone();
            again.set_scale(root, kind);
            assert!((0..12).all(|pc| again.note_enabled(pc) == m.note_enabled(pc)));
        }
    }
}

#[test]
fn frequencies_on_the_scale_stay() {
    for kind in [ScaleKind::Chromatic, ScaleKind::Major, ScaleKind::Minor] {
        let m = ScaleMapper::new(4, kind);
        let mut hz = 20.0f32;
        while hz <= 20000.0 {
            let y = m.map_hz_to_scale(s(hz), &compute).unwrap();
            assert_eq!(m.map_hz_to_scale(y, &compute), Some(y));
            hz *= 1.007;
        }
    }
}

#[test]
fn notes_are_found_again() {
    for i in 0..=1270 {
        let note = i as f32 / 10.0;
        let hz = midi_to_hz(s(note), &compute);
        assert!((v(hz_to_midi(hz, &compute)) - note).abs() <= 1e-3);
        let above = v(midi_to_hz(s(note + 12.0), &compute));
        assert!((above / v(hz) - 2.0).abs() < 1e-5);
    }
    assert_eq!(v(midi_to_hz(s(69.0), &compute)), 440.0);
}

fn seen(d: &mut YinDetector, frame: &[Scalar]) -> Option<(u32, u32, bool)> {
    let e = d.estimate(frame, &compute);
    e.map(|e| (e.frequency_hz.bits, e.confidence.bits, e.voiced))
}

fn detector() -> YinDetector {
    YinDetector::new(s(44100.0), 2048, s(80.0), s(1000.0), s(0.2), &compute)
}

#[test]
fn polarity_and_earlier_frames_play_no_role() {
    let mut used = detector();
    for frame in [tone(2048, 333.0), noise(2048, 1), tone(700, 100.0)] {
        used.estimate(&frame, &compute);
    }
    for frame in [tone(2048, 220.0), noise(2048, 5), tone(600, 400.0), vec![s(0.0); 2048]] {
        let inverted: Vec<Scalar> = frame.iter().map(|x| x.neg()).collect();
        let want = seen(&mut detector(), &frame);
        assert_eq!(seen(&mut used, &frame), want);
        assert_eq!(seen(&mut used, &inverted), want);
    }
}

#[test]
fn silent_frames_of_full_length_are_accepted() {
    for n in [2, 3, 10, 100, 600] {
        let mut d = YinDetector::new(s(44100.0), n, s(80.0), s(1000.0), s(0.2), &compute);
        assert_eq!(seen(&mut d, &vec![s(0.0); n]), Some((0, 0, false)));
    }
    for n in [0, 1] {
        let mut d = YinDetector::new(s(44100.0), n, s(80.0), s(1000.0), s(0.2), &compute);
        for len in 0..5 {
            assert_eq!(seen(&mut d, &vec![s(0.0); len]), None);
        }
    }
}

#[test]
fn settings_beyond_their_range_count_as_its_end() {
    let make = |hi: f32, threshold: f32| {
        YinDetector::new(s(44100.0), 2048, s(200.0), s(hi), s(threshold), &compute)
    };
    for frame in [tone(2048, 220.0), noise(2048, 9)] {
        assert_eq!(seen(&mut make(900.0, 0.9), &frame), seen(&mut make(900.0, 0.4), &frame));
        assert_eq!(seen(&mut make(900.0, -1.0), &frame), seen(&mut make(900.0, 0.01), &frame));
        assert_eq!(seen(&mut make(3.0, 0.2), &frame), seen(&mut make(201.0, 0.2), &frame));
    }
}

fn settings() -> ProcessorConfig {
    ProcessorConfig {
        sample_rate: s(44100.0),
        min_freq_hz: s(80.0),
        max_freq_hz: s(1000.0),
        yin_threshold: s(0.4),
        confidence_threshold: s(0.5),
        retune_time_ms: s(1.0),
        correction_strength: s(1.0),
        aggressiveness: s(1.0),
        dead_zone_cents: s(0.0),
        dry_level: s(0.0),
        wet_level: s(1.0),
        force_midi_note: None,
        formant_enabled: false,
        formant_amount: s(0.0),
    }
}

fn processor(config: ProcessorConfig) -> PitchCorrectionProcessor {
    PitchCorrectionProcessor::new(config, ScaleMapper::new(0, ScaleKind::Chromatic), &compute)
}

fn run(p: &mut PitchCorrectionProcessor, input: &[Scalar]) -> Vec<Scalar> {
    let mut out = vec![s(0.0); input.len()];
    p.process_block(input, &mut out, &compute);
    out
}

#[test]
fn meter_rests_for_a_whole_frame() {
    let mut p = processor(settings());
    let input = tone(2048, 450.0);
    for (i, block) in input[..2047].chunks(300).enumerate() {
        run(&mut p, block);
        p.set_scale_key(ScaleKind::Minor, i as i32);
        p.set_correction_strength(s(0.1 * i as f32));
        let m = p.meter();
        assert_eq!((v(m.detected_hz), v(m.confidence)), (0.0, 0.0));
        assert_eq!((v(m.target_hz), v(m.ratio)), (0.0, 1.0));
    }
    run(&mut p, &input[2047..]);
    assert!(v(p.meter().detected_hz) > 0.0);
}

#[test]
fn meter_stays_in_range() {
    let mut p = processor(settings());
    for round in 0..20 {
        match round % 4 {
            0 => p.set_retune_time_ms(s(round as f32 * 7.0 - 3.0), &compute),
            1 => p.set_scale_key(ScaleKind::Major, round * 5 - 40),
            2 => p.set_dead_zone_cents(s(round as f32 * 4.0 - 10.0)),
            _ => p.set_aggressiveness(s(round as f32 * 0.3 - 2.0)),
        }
        let block = match round % 3 {
            0 => tone(1500, 90.0 + 45.0 * round as f32),
            1 => noise(1500, round as u32),
            _ => vec![s(0.0); 700],
        };
        run(&mut p, &block);
        let m = p.meter();
        assert!((0.5..=2.0).contains(&v(m.ratio)));
        assert!((0.0..=1.0).contains(&v(m.confidence)));
        assert!(v(m.target_hz) >= 0.0);
        let hz = v(m.detected_hz);
        assert!(hz == 0.0 || (79.9..=1000.1).contains(&hz), "{hz}");
    }
}

fn way(strength: f32, aggressiveness: f32, dead_zone: f32) -> f32 {
    let mut config = settings();
    config.correction_strength = s(strength);
    config.aggressiveness = s(aggressiveness);
    config.dead_zone_cents = s(dead_zone);
    let mut p = processor(config);
    run(&mut p, &tone(6000, 447.0));
    (v(p.meter().ratio) - 1.0).abs()
}

#[test]
fn harder_settings_correct_more() {
    assert!(way(0.3, 0.5, 5.0) < way(0.9, 0.5, 5.0));
    assert!(way(0.9, 0.1, 5.0) < way(0.9, 0.9, 5.0));
    assert!(way(0.9, 0.5, 20.0) < way(0.9, 0.5, 10.0));
    assert_eq!(way(0.9, 0.5, 50.0), 0.0);
}

#[test]
fn shorter_times_leave_less() {
    let mut last = 0.0f32;
    for ms in [-5.0, 0.0, 1.0, 5.0, 35.0, 200.0, 1e6] {
        let left = v(coeff_from_time_ms(s(ms), s(44100.0), 256, &compute));
        assert!(left >= last);
        last = left;
    }
}

#[test]
fn steps_leave_a_share() {
    let left = |ms: f32, hop: usize| v(coeff_from_time_ms(s(ms), s(44100.0), hop, &compute));
    for ms in [-1.0, 0.5, 1.0, 8.0, 200.0, 1e9] {
        let mut last = 1.0f32;
        for hop in [0, 1, 2, 64, 256, 100_000, usize::MAX] {
            let share = left(ms, hop);
            assert!((0.0..=last).contains(&share));
            last = share;
        }
        assert_eq!(left(ms, 0), left(ms, 1));
    }
    for ms in [f32::NAN, -3.0, 0.0, 0.999] {
        assert_eq!(left(ms, 256), left(1.0, 256));
    }
}

#[test]
fn reported_pitches_stay_in_the_lag_range() {
    let mut d = detector();
    let mut reported = 0;
    for k in 0..60 {
        let hz = 50.0 * 1.06f32.powi(k);
        for frame in [tone(2048, hz), noise(2048, k as u32)] {
            if let Some(e) = d.estimate(&frame, &compute) {
                let hz = v(e.frequency_hz);
                assert!((44100.0 / 551.0..=44100.0 / 44.0).contains(&hz), "{hz}");
                reported += 1;
            }
        }
    }
    assert!(reported > 40);
}

#[test]
fn fade_into_the_unvoiced_signal_is_over() {
    let cfg = PsolaConfig { frame_size: 2048, overlap: 8 };
    let input = noise(44000, 9);
    let mut out = vec![s(0.0); input.len()];
    PsolaShifter::new(s(44100.0), cfg, &compute)
        .process_block(s(1.3), s(0.0), &input, &mut out, &compute);
    for i in 0..2048 {
        assert_eq!(v(out[i]), 0.0);
    }
    for i in 40000..44000 {
        assert!((v(out[i]) - v(input[i - 2048])).abs() <= 1e-4, "{i}");
    }
}

#[test]
fn constant_signals_keep_their_level() {
    for over in [2, 4, 8, 13] {
        let cfg = PsolaConfig { frame_size: 256, overlap: over };
        for level in [0.7, -0.3, 1.0] {
            let input = vec![s(level); 44000];
            let mut out = vec![s(0.0); input.len()];
            PsolaShifter::new(s(44100.0), cfg, &compute)
                .process_block(s(0.8), s(0.0), &input, &mut out, &compute);
            for i in 40000..44000 {
                assert!((v(out[i]) - level).abs() <= 1e-5, "{over} {}", v(out[i]));
            }
        }
    }
}

#[test]
fn unvoiced_output_is_the_same_at_every_ratio() {
    let cfg = PsolaConfig { frame_size: 512, overlap: 4 };
    let input = tone(6000, 300.0);
    let shift = |ratio: f32| {
        let mut out = vec![s(0.0); input.len()];
        PsolaShifter::new(s(44100.0), cfg, &compute)
            .process_block(s(ratio), s(0.0), &input, &mut out, &compute);
        out
    };
    assert_eq!(shift(0.5), shift(1.7));
    let out = shift(1.0);
    // The share of the shifted signal has faded by then.
    for i in 5500..6000 {
        assert!((v(out[i]) - v(input[i - 512])).abs() < 0.01);
    }
}

#[test]
fn peaks_are_not_amplified() {
    let cfg = PsolaConfig { frame_size: 1024, overlap: 8 };
    for (input, hz) in [(tone(6000, 200.0), 200.0), (tone(6000, 90.0), 90.0), (noise(6000, 2), 0.0)] {
        let peak = input.iter().fold(0.0f32, |p, x| p.max(v(*x).abs()));
        for ratio in [0.5, 0.8, 1.0, 1.5, 2.0] {
            let mut out = vec![s(0.0); input.len()];
            PsolaShifter::new(s(44100.0), cfg, &compute)
                .process_block(s(ratio), s(hz), &input, &mut out, &compute);
            assert!(out.iter().all(|x| v(*x).abs() <= peak * 1.00001));
        }
    }
}
