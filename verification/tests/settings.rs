use rust_autotune::arith::Op;
use rust_autotune::config::{percent_to_level, to_unit_range, RuntimeConfig, ScaleArg, UserSettings};
use rust_autotune::formant::FormantCorrector;
use rust_autotune::scalar::{num, Scalar};
use rust_autotune::scale::ScaleKind;
use rust_autotune::smoothing::{blend, coeff_from_time_ms, smooth_step, OnePoleSmoother};

fn s(x: f32) -> Scalar {
    num(x.to_bits())
}

fn v(x: Scalar) -> f32 {
    f32::from_bits(x.bits)
}

fn compute(op: Op) -> Scalar {
    let r = match op {
        Op::Add(a, b) => v(a) + v(b),
        Op::Sub(a, b) => v(a) - v(b),
        Op::Mul(a, b) => v(a) * v(b),
        Op::Div(a, b) => v(a) / v(b),
        Op::Sqrt(a) => v(a).sqrt(),
        Op::Exp(a) => v(a).exp(),
        Op::Log2(a) => v(a).log2(),
        Op::Pow(a, b) => v(a).powf(v(b)),
        Op::Sin(a) => v(a).sin(),
        Op::Cos(a) => v(a).cos(),
        Op::Atan2(a, b) => v(a).atan2(v(b)),
        Op::Round(a) => v(a).round(),
        Op::FromInt(n) => n as f32,
    };
    s(r)
}

fn given() -> UserSettings {
    UserSettings {
        block_size: 256,
        sample_rate: None,
        min_freq: s(80.0),
        max_freq: s(1000.0),
        yin_threshold: s(0.12),
        confidence_threshold: s(0.75),
        retune_ms: s(40.0),
        strength: s(0.5),
        aggressiveness: s(0.7),
        dead_zone: s(10.0),
        scale: ScaleArg::Minor,
        root: String::from("A"),
        wet: s(65.0),
        dry: s(35.0),
        formant: true,
        formant_amount: s(0.6),
        midi_note: Some(69),
    }
}

#[test]
fn settings_in_range_are_kept() {
    let c = RuntimeConfig::from_user(given(), &compute);
    assert_eq!(c.block_size, 256);
    assert_eq!(c.sample_rate, None);
    assert_eq!(v(c.min_freq_hz), 80.0);
    assert_eq!(v(c.max_freq_hz), 1000.0);
    assert_eq!(v(c.yin_threshold), 0.12);
    assert_eq!(v(c.confidence_threshold), 0.75);
    assert_eq!(v(c.retune_time_ms), 40.0);
    assert_eq!(v(c.correction_strength), 0.5);
    assert_eq!(v(c.aggressiveness), 0.7);
    assert_eq!(v(c.dead_zone_cents), 10.0);
    assert_eq!(c.scale, ScaleArg::Minor);
    assert_eq!(c.root_note, "A");
    assert_eq!(v(c.dry_level), 0.35);
    assert_eq!(v(c.wet_level), 0.65);
    assert!(c.formant_enabled);
    assert_eq!(v(c.formant_amount), 0.6);
    assert_eq!(c.force_midi_note, Some(69));
}

#[test]
fn settings_are_brought_into_range() {
    let mut u = given();
    u.block_size = 1;
    u.min_freq = s(10.0);
    u.max_freq = s(5000.0);
    u.strength = s(3.0);
    u.aggressiveness = s(-1.0);
    u.wet = s(250.0);
    u.dry = s(-5.0);
    u.formant_amount = s(1.5);
    let c = RuntimeConfig::from_user(u, &compute);
    assert_eq!(c.block_size, 128);
    assert_eq!(v(c.min_freq_hz), 40.0);
    assert_eq!(v(c.max_freq_hz), 2000.0);
    assert_eq!(v(c.correction_strength), 1.0);
    assert_eq!(v(c.aggressiveness), 0.0);
    assert_eq!(v(c.wet_level), 1.0);
    assert_eq!(v(c.dry_level), 0.0);
    assert_eq!(v(c.formant_amount), 1.0);

    let mut u = given();
    u.block_size = 4096;
    u.min_freq = s(900.0);
    u.max_freq = s(100.0);
    let c = RuntimeConfig::from_user(u, &compute);
    assert_eq!(c.block_size, 512);
    assert_eq!(v(c.max_freq_hz), 920.0);
}

#[test]
fn scales_are_named() {
    assert_eq!(ScaleKind::from(ScaleArg::Chromatic), ScaleKind::Chromatic);
    assert_eq!(ScaleKind::from(ScaleArg::Major), ScaleKind::Major);
    assert_eq!(ScaleKind::from(ScaleArg::Minor), ScaleKind::Minor);
}

#[test]
fn percentages_become_levels() {
    assert_eq!(v(percent_to_level(s(50.0), &compute)), 0.5);
    assert_eq!(v(percent_to_level(s(101.0), &compute)), 1.0);
    assert_eq!(v(to_unit_range(s(-0.1))), 0.0);
    assert!(v(to_unit_range(s(f32::NAN))).is_nan());
}

#[test]
fn smoothers_approach_their_target() {
    let coeff = (-256.0f32 / (30.0f32 * 0.001 * 44100.0).max(1.0)).exp();
    assert_eq!(v(coeff_from_time_ms(s(30.0), s(44100.0), 256, &compute)), coeff);
    let mut m = OnePoleSmoother::new(s(1.0), s(30.0), s(44100.0), 256, &compute);
    let mut want = 1.0f32;
    for _ in 0..20 {
        want += (1.5 - want) * (1.0 - coeff);
        assert_eq!(v(m.process(s(1.5), &compute)), want);
    }
    assert!(want > 1.4 && want < 1.5);

    m.set_time_ms(s(0.0), s(44100.0), 0, &compute);
    let fast = (-1.0f32 / (1.0f32 * 0.001 * 44100.0)).exp();
    want += (1.0 - want) * (1.0 - fast);
    assert_eq!(v(m.process(s(1.0), &compute)), want);
}

#[test]
fn smoothing_has_a_shortest_time() {
    // The time is at least a millisecond, and what it is in samples at least one.
    let coeff = coeff_from_time_ms(s(0.5), s(100.0), 3, &compute);
    assert_eq!(v(coeff), (-3.0f32).exp());
    assert_eq!(v(smooth_step(s(2.0), s(4.0), s(0.25), &compute)), 3.5);
    assert_eq!(v(blend(s(0.25), s(2.0), s(4.0), &compute)), 3.5);
}

fn all(xs: &[f32]) -> Vec<Scalar> {
    xs.iter().map(|x| s(*x)).collect()
}

#[test]
fn formants_are_emphasised() {
    let mut f = FormantCorrector::new(true, s(0.5));
    assert!(f.is_enabled());
    let mut out = all(&[0.0; 3]);
    f.preprocess(&all(&[1.0, 0.5, 0.25]), &mut out, &compute);
    assert_eq!(out, all(&[1.0, 0.5 - 0.95 * 1.0, 0.25 - 0.95 * 0.5]));
    f.preprocess(&all(&[1.0]), &mut out[..1], &compute);
    assert_eq!(v(out[0]), 1.0 - 0.95 * 0.25);

    let share = 0.95 * (1.0f32 / 1.44).powf(0.5);
    f.postprocess(&all(&[1.0, 0.0, 0.5]), &mut out, s(1.44), &compute);
    let (a, b) = (1.0f32, share * 1.0);
    assert_eq!(out, all(&[a, b, 0.5 + share * b]));
}

#[test]
fn emphasis_goes_as_far_as_there_is_room() {
    let mut f = FormantCorrector::new(true, s(1.0));
    let mut out = all(&[9.0; 3]);
    f.preprocess(&all(&[1.0, 0.5]), &mut out, &compute);
    assert_eq!(out, all(&[1.0, 0.5 - 0.95 * 1.0, 9.0]));
    f.preprocess(&all(&[1.0, 0.25]), &mut out[..1], &compute);
    assert_eq!(v(out[0]), 1.0 - 0.95 * 0.5);
    f.preprocess(&all(&[0.0]), &mut out[..1], &compute);
    assert_eq!(v(out[0]), -0.95);
    f.postprocess(&all(&[1.0, 0.5]), &mut out[..1], s(1.0), &compute);
    assert_eq!(v(out[0]), 1.0);
    f.postprocess(&all(&[0.0]), &mut out, s(1.0), &compute);
    assert_eq!(v(out[0]), 0.95);
}

#[test]
fn emphasis_stays_stable() {
    // A low ratio asks for more than 1, and 0.99 is the most that is fed back.
    let mut f = FormantCorrector::new(true, s(9.0));
    let mut out = all(&[0.0; 2]);
    f.postprocess(&all(&[1.0, 0.0]), &mut out, s(0.1), &compute);
    assert_eq!(out, all(&[1.0, 0.99]));
}

#[test]
fn formants_can_be_left_alone() {
    for mut f in [FormantCorrector::new(false, s(0.5)), FormantCorrector::new(true, s(-1.0))] {
        assert!(!f.is_enabled());
        let input = all(&[0.1, 0.2]);
        let mut out = all(&[9.0, 9.0]);
        f.preprocess(&input, &mut out, &compute);
        assert_eq!(out, input);
        let mut out = all(&[9.0, 9.0]);
        f.postprocess(&input, &mut out, s(1.5), &compute);
        assert_eq!(out, input);
    }
}
