use rust_autotune::arith::Op;
use rust_autotune::marks::{
    advance_to_nearest, find_marks, lay_marks, sort_ascending,
};
use rust_autotune::psola::{zero_crossing_rate, PsolaConfig, PsolaShifter};
use rust_autotune::scalar::{num, Scalar};

fn s(x: f32) -> Scalar {
    num(x.to_bits())
}

fn v(x: Scalar) -> f32 {
    f32::from_bits(x.bits)
}

fn compute(op: Op) -> Scalar {
    let r = match op {
        Op::Add(a, b) => v(a) + v(b),
        Op::Sub(a, b) => v(a) - v(b),
        Op::Mul(a, b) => v(a) * v(b),
        Op::Div(a, b) => v(a) / v(b),
        Op::Sqrt(a) => v(a).sqrt(),
        Op::Exp(a) => v(a).exp(),
        Op::Log2(a) => v(a).log2(),
        Op::Pow(a, b) => v(a).powf(v(b)),
        Op::Sin(a) => v(a).sin(),
        Op::Cos(a) => v(a).cos(),
        Op::Atan2(a, b) => v(a).atan2(v(b)),
        Op::Round(a) => v(a).round(),
        Op::FromInt(n) => n as f32,
    };
    s(r)
}

fn all(xs: &[f32]) -> Vec<Scalar> {
    xs.iter().map(|x| s(*x)).collect()
}

#[test]
fn marks_are_where_periods_are_most_alike() {
    // 25 and 35 are alike and a period apart; 30 and 40 are as loud, and of opposite signs.
    let mut x = vec![s(0.0); 60];
    x[25] = s(1.0);
    x[35] = s(1.0);
    x[30] = s(1.0);
    x[40] = s(-1.0);
    let mut marks = Vec::new();
    find_marks(&x, 10, 100, &mut marks, &compute);
    assert_eq!(marks, vec![13, 26, 33, 43]);
    find_marks(&x, 10, 3, &mut marks, &compute);
    assert_eq!(marks, vec![13, 26, 33]);
    find_marks(&x, 10, 1, &mut marks, &compute);
    assert_eq!(marks, vec![26]);
}

#[test]
fn marks_do_not_coincide() {
    let mut seed = 7u32;
    let x: Vec<Scalar> = (0..600)
        .map(|_| {
            seed = seed.wrapping_mul(1664525).wrapping_add(1013904223);
            s((seed >> 8) as f32 / 16777216.0 - 0.5)
        })
        .collect();
    for period in 5..100 {
        let mut marks = Vec::new();
        find_marks(&x, period, 1000, &mut marks, &compute);
        assert!(marks.windows(2).all(|m| m[0] < m[1]));
        assert!(marks.iter().all(|&m| m >= period && m + period < 600));
    }
}

#[test]
fn short_frames_have_no_marks() {
    let x = vec![s(1.0); 50];
    let mut marks = vec![3];
    find_marks(&x, 25, 10, &mut marks, &compute);
    assert_eq!(marks, vec![]);
    find_marks(&x, 60, 10, &mut marks, &compute);
    assert_eq!(marks, vec![]);
    find_marks(&x, 24, 10, &mut marks, &compute);
    assert_eq!(marks, vec![24]);
    find_marks(&x, 23, 10, &mut marks, &compute);
    assert_eq!(marks, vec![23]);
}

#[test]
fn marks_are_sorted() {
    let mut m = vec![5, 1, 5, 0, 9, 1];
    sort_ascending(&mut m);
    assert_eq!(m, vec![0, 1, 1, 5, 5, 9]);
}

#[test]
fn synthesis_marks_are_laid() {
    let mut marks = vec![1, 2, 3];
    lay_marks(100, 30, 20, 10, &mut marks);
    assert_eq!(marks, vec![20, 50]);
    lay_marks(100, 0, 48, 10, &mut marks);
    assert_eq!(marks, vec![48, 49, 50]);
    lay_marks(100, 1, 20, 4, &mut marks);
    assert_eq!(marks, vec![20, 21, 22, 23]);
    lay_marks(100, usize::MAX, 20, 4, &mut marks);
    assert_eq!(marks, vec![20]);
    lay_marks(100, 30, 50, 4, &mut marks);
    assert_eq!(marks, vec![]);
    lay_marks(100, 30, 500, 4, &mut marks);
    assert_eq!(marks, vec![]);
}

#[test]
fn nearest_marks_are_chosen() {
    let marks = vec![10, 20, 20, 40];
    assert_eq!(advance_to_nearest(&marks, 0, 0, 5), 0);
    // Of two equally near the later one counts.
    assert_eq!(advance_to_nearest(&marks, 0, 0, 15), 2);
    assert_eq!(advance_to_nearest(&marks, 2, 15, 29), 2);
    assert_eq!(advance_to_nearest(&marks, 2, 15, 30), 3);
    assert_eq!(advance_to_nearest(&marks, 3, 30, 99), 3);
}

#[test]
fn crossings_are_counted() {
    let x = all(&[1.0, -1.0, -1.0, 0.0, -0.0, -2.0]);
    assert_eq!(v(zero_crossing_rate(&x, &compute)), 3.0 / 5.0);
    assert_eq!(v(zero_crossing_rate(&all(&[1.0]), &compute)), 0.0);
    assert_eq!(v(zero_crossing_rate(&all(&[]), &compute)), 0.0);
    let x = all(&[1.0, f32::NAN, -1.0]);
    assert_eq!(v(zero_crossing_rate(&x, &compute)), 0.0);
}

#[test]
fn shifter_sizes_are_powers_of_two() {
    for (frame, overlap, latency) in [(0, 0, 128), (257, 4, 384), (2048, 8, 1792), (300, 9999, 511)] {
        let cfg = PsolaConfig { frame_size: frame, overlap };
        let shifter = PsolaShifter::new(s(44100.0), cfg, &compute);
        assert_eq!(shifter.latency_samples(), latency);
    }
}

#[test]
fn shifter_starts_silent_and_stays_in_range() {
    let cfg = PsolaConfig { frame_size: 256, overlap: 4 };
    let mut shifter = PsolaShifter::new(s(8000.0), cfg, &compute);
    let input: Vec<Scalar> = (0..2000).map(|i| s(if i % 50 < 25 { 3.0 } else { -3.0 })).collect();
    let mut out = vec![s(9.0); 2000];
    shifter.process_block(s(1.2), s(160.0), &input, &mut out, &compute);
    assert!(out[..64].iter().all(|x| v(*x) == 0.0));
    assert!(out.iter().all(|x| v(*x).abs() <= 1.0));
    assert!(out.iter().any(|x| v(*x) == 1.0));
}

#[test]
fn shifter_blocks_add_up() {
    let input: Vec<Scalar> = (0..1500).map(|i| s((i as f32 * 0.1).sin())).collect();
    let cfg = PsolaConfig { frame_size: 256, overlap: 4 };
    let mut whole = vec![s(0.0); 1500];
    PsolaShifter::new(s(8000.0), cfg, &compute)
        .process_block(s(1.2), s(127.0), &input, &mut whole, &compute);
    let mut shifter = PsolaShifter::new(s(8000.0), cfg, &compute);
    let mut parts = vec![s(0.0); 1500];
    for (i, o) in input.chunks(77).zip(parts.chunks_mut(77)) {
        shifter.process_block(s(1.2), s(127.0), i, o, &compute);
    }
    assert_eq!(whole, parts);
}
