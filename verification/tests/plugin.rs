use rust_autotune::arith::Op;
use rust_autotune::plugin::{KeyParam, RustAutotuneParams, RustAutotunePlugin, ScaleParam};
use rust_autotune::processor::{PitchCorrectionProcessor, ProcessorConfig};
use rust_autotune::scalar::{num, Scalar};
use rust_autotune::scale::{ScaleKind, ScaleMapper};

fn s(x: f32) -> Scalar {
    num(x.to_bits())
}

fn v(x: Scalar) -> f32 {
    f32::from_bits(x.bits)
}

fn compute(op: Op) -> Scalar {
    let r = match op {
        Op::Add(a, b) => v(a) + v(b),
        Op::Sub(a, b) => v(a) - v(b),
        Op::Mul(a, b) => v(a) * v(b),
        Op::Div(a, b) => v(a) / v(b),
        Op::Sqrt(a) => v(a).sqrt(),
        Op::Exp(a) => v(a).exp(),
        Op::Log2(a) => v(a).log2(),
        Op::Pow(a, b) => v(a).powf(v(b)),
        Op::Sin(a) => v(a).sin(),
        Op::Cos(a) => v(a).cos(),
        Op::Atan2(a, b) => v(a).atan2(v(b)),
        Op::Round(a) => v(a).round(),
        Op::FromInt(n) => n as f32,
    };
    s(r)
}

const KEYS: [KeyParam; 12] = [
    KeyParam::C,
    KeyParam::Cs,
    KeyParam::D,
    KeyParam::Ds,
    KeyParam::E,
    KeyParam::F,
    KeyParam::Fs,
    KeyParam::G,
    KeyParam::Gs,
    KeyParam::A,
    KeyParam::As,
    KeyParam::B,
];

#[test]
fn keys_are_pitch_classes() {
    for (i, key) in KEYS.iter().enumerate() {
        assert_eq!(key.pitch_class(), i as i32);
    }
}

#[test]
fn scale_parameters_are_scales() {
    assert_eq!(ScaleKind::from(ScaleParam::Chromatic), ScaleKind::Chromatic);
    assert_eq!(ScaleKind::from(ScaleParam::Major), ScaleKind::Major);
    assert_eq!(ScaleKind::from(ScaleParam::Minor), ScaleKind::Minor);
}

#[test]
fn parameters_have_defaults() {
    let p = RustAutotuneParams::default();
    assert_eq!(v(p.dry), 0.0);
    assert_eq!(v(p.wet), 100.0);
    assert!(!p.bypass);
    assert_eq!(v(p.retune_ms), 35.0);
    assert_eq!(v(p.strength), 1.0);
    assert_eq!(v(p.aggressiveness), 0.8);
    assert_eq!(v(p.dead_zone), 0.0);
    assert_eq!(p.scale, ScaleParam::Chromatic);
    assert_eq!(p.key, KeyParam::C);
}

fn stereo(n: usize) -> Vec<Scalar> {
    (0..n)
        .flat_map(|i| [s(0.5 * (i as f32 * 0.06).sin()), s(0.3 * (i as f32 * 0.06).sin())])
        .collect()
}

fn mono(data: &[Scalar]) -> Vec<Scalar> {
    data.chunks(2).map(|f| s((0.0 + v(f[0]) + v(f[1])) / 2.0)).collect()
}

fn ready() -> RustAutotunePlugin {
    let mut p = RustAutotunePlugin::default();
    assert!(p.initialize(4096, s(44100.0), &compute));
    assert!(p.can_detect());
    p
}

fn host_processor() -> PitchCorrectionProcessor {
    let config = ProcessorConfig {
        sample_rate: s(44100.0),
        min_freq_hz: s(80.0),
        max_freq_hz: s(1000.0),
        yin_threshold: s(0.12),
        confidence_threshold: s(0.75),
        retune_time_ms: s(35.0),
        correction_strength: s(1.0),
        aggressiveness: s(0.8),
        dead_zone_cents: s(0.0),
        dry_level: s(0.0),
        wet_level: s(1.0),
        force_midi_note: None,
        formant_enabled: true,
        formant_amount: s(0.55),
    };
    PitchCorrectionProcessor::new(config, ScaleMapper::new(0, ScaleKind::Chromatic), &compute)
}

#[test]
fn buffers_are_processed() {
    let mut plugin = ready();
    let mut params = plugin.params();
    params.dry = s(40.0);
    params.wet = s(180.0);
    params.retune_ms = s(5.0);
    params.strength = s(0.9);
    params.aggressiveness = s(0.4);
    params.dead_zone = s(2.0);
    params.scale = ScaleParam::Minor;
    params.key = KeyParam::Ds;
    plugin.set_params(params);

    let mut processor = host_processor();
    processor.set_retune_time_ms(s(5.0), &compute);
    processor.set_correction_strength(s(0.9));
    processor.set_aggressiveness(s(0.4));
    processor.set_dead_zone_cents(s(2.0));
    processor.set_scale_key(ScaleKind::Minor, 3);
    processor.set_dry_wet_levels(s(0.4), s(1.0));

    for _ in 0..2 {
        let mut data = stereo(4000);
        let mut want = vec![s(0.0); 4000];
        processor.process_block(&mono(&data), &mut want, &compute);
        plugin.process(&mut data, 2, 4000, &compute);
        for i in 0..4000 {
            assert_eq!(data[2 * i], want[i]);
            assert_eq!(data[2 * i + 1], want[i]);
        }
        assert!(want.iter().any(|x| v(*x) != 0.0));
    }
}

#[test]
fn smoothed_levels_are_applied_frame_by_frame() {
    let data = stereo(3000);
    let mixed = |dry: f32, wet: f32| {
        let mut plugin = ready();
        let mut params = plugin.params();
        params.dry = s(dry);
        params.wet = s(wet);
        plugin.set_params(params);
        let mut out = data.clone();
        plugin.process(&mut out, 2, 3000, &compute);
        out
    };
    let smoothed = |dry: &dyn Fn(usize) -> f32, wet: &dyn Fn(usize) -> f32| {
        let mut plugin = ready();
        let dry: Vec<Scalar> = (0..3000).map(|i| s(dry(i))).collect();
        let wet: Vec<Scalar> = (0..3000).map(|i| s(wet(i))).collect();
        let mut out = data.clone();
        plugin.process_smoothed(&mut out, 2, 3000, &dry, &wet, &compute);
        out
    };
    assert_eq!(smoothed(&|_| 30.0, &|_| 150.0), mixed(30.0, 150.0));

    let (dry, wet) = (mixed(100.0, 0.0), mixed(0.0, 100.0));
    let out = smoothed(&|i| if i < 2500 { 100.0 } else { 0.0 }, &|i| {
        if i < 2500 { 0.0 } else { 100.0 }
    });
    assert_eq!(out[..5000], dry[..5000]);
    assert_eq!(out[5000..], wet[5000..]);
    assert_ne!(dry[5000..], wet[5000..]);

    let mut bypassed = ready();
    let mut params = bypassed.params();
    params.bypass = true;
    bypassed.set_params(params);
    let mut same = data.clone();
    let zeros = vec![s(0.0); 3000];
    bypassed.process_smoothed(&mut same, 2, 3000, &zeros, &zeros, &compute);
    assert_eq!(same, data);
}

#[test]
fn bypass_leaves_the_buffer() {
    let mut plugin = ready();
    let mut params = plugin.params();
    params.bypass = true;
    plugin.set_params(params);
    let mut data = stereo(100);
    plugin.process(&mut data, 2, 100, &compute);
    assert_eq!(data, stereo(100));
}

#[test]
fn uninitialized_plugins_leave_the_buffer() {
    let mut plugin = RustAutotunePlugin::default();
    assert!(plugin.can_detect());
    let mut data = stereo(100);
    plugin.process(&mut data, 2, 100, &compute);
    assert_eq!(data, stereo(100));
}

#[test]
fn large_buffers_are_left_alone() {
    let mut plugin = RustAutotunePlugin::default();
    plugin.initialize(1, s(44100.0), &compute);
    let mut data = stereo(65);
    plugin.process(&mut data, 2, 65, &compute);
    assert_eq!(data, stereo(65));
    plugin.process(&mut data[..0], 2, 0, &compute);
    assert_eq!(data, stereo(65));
    let mut data = stereo(64);
    plugin.process(&mut data, 2, 64, &compute);
    assert!(data.iter().all(|x| v(*x) == 0.0));
}

#[test]
fn buffers_without_channels_are_silence() {
    let mut plugin = ready();
    plugin.process(&mut [], 0, 3000, &compute);
    let mut with_channel = ready();
    let mut data = vec![s(0.0); 3000];
    with_channel.process(&mut data, 1, 3000, &compute);
    let mut a = stereo(2000);
    let mut b = stereo(2000);
    plugin.process(&mut a, 2, 2000, &compute);
    with_channel.process(&mut b, 2, 2000, &compute);
    assert_eq!(a, b);
}
