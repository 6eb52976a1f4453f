use rust_autotune::arith::Op;
use rust_autotune::scalar::{num, Scalar};
use rust_autotune::scale::{hz_to_midi, midi_to_hz, parse_root_note, ScaleKind, ScaleMapper};

fn s(x: f32) -> Scalar {
    num(x.to_bits())
}

fn v(x: Scalar) -> f32 {
    f32::from_bits(x.bits)
}

fn compute(op: Op) -> Scalar {
    let r = match op {
        Op::Add(a, b) => v(a) + v(b),
        Op::Sub(a, b) => v(a) - v(b),
        Op::Mul(a, b) => v(a) * v(b),
        Op::Div(a, b) => v(a) / v(b),
        Op::Sqrt(a) => v(a).sqrt(),
        Op::Exp(a) => v(a).exp(),
        Op::Log2(a) => v(a).log2(),
        Op::Pow(a, b) => v(a).powf(v(b)),
        Op::Sin(a) => v(a).sin(),
        Op::Cos(a) => v(a).cos(),
        Op::Atan2(a, b) => v(a).atan2(v(b)),
        Op::Round(a) => v(a).round(),
        Op::FromInt(n) => n as f32,
    };
    s(r)
}

fn mapped(m: &ScaleMapper, hz: f32) -> Option<f32> {
    m.map_hz_to_scale(s(hz), &compute).map(v)
}

#[test]
fn notes_and_frequencies() {
    assert_eq!(v(hz_to_midi(s(440.0), &compute)), 69.0);
    assert_eq!(v(hz_to_midi(s(880.0), &compute)), 81.0);
    assert_eq!(v(midi_to_hz(s(69.0), &compute)), 440.0);
    assert_eq!(v(midi_to_hz(s(57.0), &compute)), 220.0);
    let want = 69.0 + 12.0 * (300.0f32 / 440.0).log2();
    assert_eq!(v(hz_to_midi(s(300.0), &compute)), want);
    let want = 440.0 * 2.0f32.powf((60.5 - 69.0) / 12.0);
    assert_eq!(v(midi_to_hz(s(60.5), &compute)), want);
}

#[test]
fn maps_to_nearest_note() {
    let m = ScaleMapper::new(0, ScaleKind::Major);
    assert_eq!(mapped(&m, 445.0), Some(440.0));
    // C sharp lies between C and D: of two notes equally near, the upper one counts.
    let cs = v(midi_to_hz(s(61.0), &compute));
    assert_eq!(mapped(&m, cs), Some(v(midi_to_hz(s(62.0), &compute))));
}

#[test]
fn chromatic_scale_keeps_every_note() {
    let m = ScaleMapper::new(5, ScaleKind::Chromatic);
    for note in 0..128 {
        let hz = v(midi_to_hz(s(note as f32), &compute));
        assert_eq!(mapped(&m, hz), Some(hz));
    }
}

#[test]
fn scales_hold_their_degrees() {
    for (kind, degrees) in [
        (ScaleKind::Major, [0, 2, 4, 5, 7, 9, 11]),
        (ScaleKind::Minor, [0, 2, 3, 5, 7, 8, 10]),
    ] {
        for root in -13..25 {
            let m = ScaleMapper::new(root, kind);
            assert_eq!(m.root_pc(), root.rem_euclid(12));
            for note in 36..97i32 {
                let hz = v(midi_to_hz(s(note as f32), &compute));
                let stays = degrees.contains(&(note - root).rem_euclid(12));
                let to = if stays { note } else { note + 1 };
                assert_eq!(mapped(&m, hz), Some(v(midi_to_hz(s(to as f32), &compute))));
            }
        }
    }
}

#[test]
fn what_is_no_pitch_is_not_mapped() {
    let m = ScaleMapper::new(0, ScaleKind::Minor);
    for hz in [0.0, -0.0, -440.0, f32::NAN, f32::INFINITY, f32::NEG_INFINITY] {
        assert_eq!(mapped(&m, hz), None);
    }
    assert!(mapped(&m, f32::MIN_POSITIVE).is_some());
    assert!(mapped(&m, f32::MAX).is_some());
}

#[test]
fn scale_can_be_changed() {
    let mut m = ScaleMapper::new(0, ScaleKind::Chromatic);
    m.set_scale(-3, ScaleKind::Minor);
    assert_eq!(m.root_pc(), 9);
    assert_eq!(m.kind(), ScaleKind::Minor);
    let cs = v(midi_to_hz(s(61.0), &compute));
    assert_eq!(mapped(&m, cs), Some(v(midi_to_hz(s(62.0), &compute))));
}

#[test]
fn root_notes_have_names() {
    let names = ["C", "C#", "D", "D#", "E", "F", "F#", "G", "G#", "A", "A#", "B"];
    for (i, name) in names.iter().enumerate() {
        assert_eq!(parse_root_note(name), Some(i as i32));
        assert_eq!(parse_root_note(&name.to_lowercase()), Some(i as i32));
    }
    for (name, pc) in [("Db", 1), ("eB", 3), ("GB", 6), ("ab", 8), ("Bb", 10)] {
        assert_eq!(parse_root_note(name), Some(pc));
    }
    assert_eq!(parse_root_note("  f# \t\n"), Some(6));
    assert_eq!(parse_root_note("\u{3000}g\u{a0}"), Some(7));
}

#[test]
fn other_names_are_refused() {
    for name in ["", " ", "H", "C##", "Cb", "E#", "C #", "CC", "1", "\u{107}"] {
        assert_eq!(parse_root_note(name), None, "{name}");
    }
}
