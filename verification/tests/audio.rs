use rust_autotune::arith::Op;
use rust_autotune::audio::{
    choose_rate, feed, has_faults, open_ring, prepare, OutputStage, SetupError, MAX_FRAMES,
    RING_CAPACITY,
};
use rust_autotune::config::{RuntimeConfig, ScaleArg};
use rust_autotune::processor::PitchCorrectionProcessor;
use rust_autotune::scalar::{num, Scalar};
use rust_autotune::scale::{ScaleKind, ScaleMapper};

fn s(x: f32) -> Scalar {
    num(x.to_bits())
}

fn v(x: Scalar) -> f32 {
    f32::from_bits(x.bits)
}

fn compute(op: Op) -> Scalar {
    let r = match op {
        Op::Add(a, b) => v(a) + v(b),
        Op::Sub(a, b) => v(a) - v(b),
        Op::Mul(a, b) => v(a) * v(b),
        Op::Div(a, b) => v(a) / v(b),
        Op::Sqrt(a) => v(a).sqrt(),
        Op::Exp(a) => v(a).exp(),
        Op::Log2(a) => v(a).log2(),
        Op::Pow(a, b) => v(a).powf(v(b)),
        Op::Sin(a) => v(a).sin(),
        Op::Cos(a) => v(a).cos(),
        Op::Atan2(a, b) => v(a).atan2(v(b)),
        Op::Round(a) => v(a).round(),
        Op::FromInt(n) => n as f32,
    };
    s(r)
}

fn config() -> RuntimeConfig {
    RuntimeConfig {
        block_size: 256,
        sample_rate: None,
        min_freq_hz: s(80.0),
        max_freq_hz: s(1000.0),
        yin_threshold: s(0.12),
        confidence_threshold: s(0.75),
        retune_time_ms: s(40.0),
        correction_strength: s(1.0),
        aggressiveness: s(0.7),
        dead_zone_cents: s(5.0),
        scale: ScaleArg::Major,
        root_note: String::from("Bb"),
        dry_level: s(0.2),
        wet_level: s(0.9),
        formant_enabled: false,
        formant_amount: s(0.6),
        force_midi_note: Some(60),
    }
}

#[test]
fn rates_are_chosen() {
    assert_eq!(choose_rate(None, 48000), 48000);
    assert_eq!(choose_rate(Some(44100), 48000), 44100);
    assert_eq!(choose_rate(Some(8000), 48000), 32000);
    assert_eq!(choose_rate(None, 192000), 96000);
    assert_eq!(choose_rate(Some(32000), 0), 32000);
    assert_eq!(choose_rate(Some(96000), 0), 96000);
}

#[test]
fn sessions_are_set_up() {
    let session = prepare(&config(), true, true, 48000, &compute).ok().unwrap();
    assert_eq!(session.sample_rate, 48000);
    assert_eq!(session.block_size, 256);
    assert_eq!(session.mapper.root_pc(), 10);
    assert_eq!(session.mapper.kind(), ScaleKind::Major);
    let p = session.processor;
    assert_eq!(v(p.sample_rate), 48000.0);
    assert_eq!(v(p.min_freq_hz), 80.0);
    assert_eq!(v(p.max_freq_hz), 1000.0);
    assert_eq!(v(p.yin_threshold), 0.12);
    assert_eq!(v(p.confidence_threshold), 0.75);
    assert_eq!(v(p.retune_time_ms), 40.0);
    assert_eq!(v(p.correction_strength), 1.0);
    assert_eq!(v(p.aggressiveness), 0.7);
    assert_eq!(v(p.dead_zone_cents), 5.0);
    assert_eq!(v(p.dry_level), 0.2);
    assert_eq!(v(p.wet_level), 0.9);
    assert_eq!(p.force_midi_note, Some(60));
    assert!(!p.formant_enabled);
    assert_eq!(v(p.formant_amount), 0.6);
}

#[test]
fn sessions_are_refused() {
    let mut c = config();
    let refusal = |c: &RuntimeConfig, i: bool, o: bool| prepare(c, i, o, 48000, &compute).err();
    assert_eq!(refusal(&c, false, true), Some(SetupError::InputFormat));
    assert_eq!(refusal(&c, true, false), Some(SetupError::OutputFormat));
    assert_eq!(refusal(&c, true, true), None);
    c.root_note = String::from("X");
    assert_eq!(refusal(&c, true, true), Some(SetupError::RootNote));
    assert_eq!(refusal(&c, false, false), Some(SetupError::InputFormat));
    assert_eq!(refusal(&c, true, false), Some(SetupError::OutputFormat));
}

#[test]
fn faults_are_reported() {
    assert!(!has_faults(0, 0));
    assert!(has_faults(1, 0));
    assert!(has_faults(0, 1));
}

fn all(xs: &[f32]) -> Vec<Scalar> {
    xs.iter().map(|x| s(*x)).collect()
}

#[test]
fn frames_are_fed_as_their_mean() {
    let (mut producer, mut consumer) = open_ring();
    let data = all(&[0.5, 0.25, 1.0, -1.0, 0.3]);
    // The last frame is cut short, and still divided by two.
    assert_eq!(feed(&data, 2, &mut producer, &compute), 0);
    assert_eq!(consumer.pop(), Ok(0.375f32.to_bits()));
    assert_eq!(consumer.pop(), Ok(0.0f32.to_bits()));
    assert_eq!(consumer.pop(), Ok(0.15f32.to_bits()));
    assert!(consumer.pop().is_err());
    assert_eq!(feed(&[], 2, &mut producer, &compute), 0);
    assert!(consumer.pop().is_err());
}

#[test]
fn full_rings_refuse_samples() {
    let (mut producer, mut consumer) = open_ring();
    assert_eq!(RING_CAPACITY, 16384);
    assert_eq!(feed(&vec![s(0.5); RING_CAPACITY], 1, &mut producer, &compute), 0);
    assert_eq!(feed(&all(&[0.1, 0.2, 0.3]), 1, &mut producer, &compute), 3);
    consumer.pop().unwrap();
    consumer.pop().unwrap();
    assert_eq!(feed(&all(&[0.1, 0.2, 0.3]), 1, &mut producer, &compute), 1);
    for _ in 0..RING_CAPACITY - 2 {
        assert_eq!(consumer.pop(), Ok(0.5f32.to_bits()));
    }
    assert_eq!(consumer.pop(), Ok(0.1f32.to_bits()));
    assert_eq!(consumer.pop(), Ok(0.2f32.to_bits()));
    assert!(consumer.pop().is_err());
}

fn stage() -> OutputStage {
    let session = prepare(&config(), true, true, 48000, &compute).ok().unwrap();
    OutputStage::new(session.processor, session.mapper, &compute)
}

#[test]
fn output_is_rendered_from_the_ring() {
    let (mut producer, mut consumer) = open_ring();
    let signal: Vec<Scalar> = (0..6000).map(|i| s(0.4 * (i as f32 * 0.05).sin())).collect();
    feed(&signal, 1, &mut producer, &compute);

    let session = prepare(&config(), true, true, 48000, &compute).ok().unwrap();
    let mapper = ScaleMapper::new(10, ScaleKind::Major);
    let mut processor = PitchCorrectionProcessor::new(session.processor, mapper, &compute);
    let mut stage = stage();
    assert!(stage.can_detect());
    for block in signal.chunks(2000) {
        let mut want = vec![s(0.0); 2000];
        processor.process_block(block, &mut want, &compute);
        let mut data = vec![s(9.0); 4001];
        assert_eq!(stage.render(&mut data, 2, &mut consumer, &compute), 0);
        for i in 0..2000 {
            assert_eq!(data[2 * i], want[i]);
            assert_eq!(data[2 * i + 1], want[i]);
        }
        // What is no whole frame stays.
        assert_eq!(v(data[4000]), 9.0);
    }
}

#[test]
fn missing_samples_are_silence() {
    let (mut producer, mut consumer) = open_ring();
    feed(&all(&[0.5, 0.5]), 1, &mut producer, &compute);
    let mut data = vec![s(9.0); 10];
    let mut stage = stage();
    assert_eq!(stage.render(&mut data, 1, &mut consumer, &compute), 8);
    assert!(data.iter().all(|x| v(*x) == 0.0));
    assert_eq!(stage.render(&mut data, 3, &mut consumer, &compute), 3);
}

#[test]
fn long_blocks_are_left_alone() {
    let (mut producer, mut consumer) = open_ring();
    feed(&all(&[0.5]), 1, &mut producer, &compute);
    let mut data = vec![s(9.0); MAX_FRAMES + 1];
    assert_eq!(stage().render(&mut data, 1, &mut consumer, &compute), 0);
    assert!(data.iter().all(|x| v(*x) == 9.0));
    assert_eq!(consumer.pop(), Ok(0.5f32.to_bits()));
}
