use rust_autotune::arith::{apply, Op};
use rust_autotune::buffer::{clear, copy_into, hann_value, hann_window, mean, move_left, silent, sum};
use rust_autotune::ring::{overwrite_oldest, unroll};
use rust_autotune::scalar::{num, Scalar, HALF, MINUS_ONE, ONE, TWO, ZERO};

fn s(x: f32) -> Scalar {
    num(x.to_bits())
}

fn v(x: Scalar) -> f32 {
    f32::from_bits(x.bits)
}

fn compute(op: Op) -> Scalar {
    let r = match op {
        Op::Add(a, b) => v(a) + v(b),
        Op::Sub(a, b) => v(a) - v(b),
        Op::Mul(a, b) => v(a) * v(b),
        Op::Div(a, b) => v(a) / v(b),
        Op::Sqrt(a) => v(a).sqrt(),
        Op::Exp(a) => v(a).exp(),
        Op::Log2(a) => v(a).log2(),
        Op::Pow(a, b) => v(a).powf(v(b)),
        Op::Sin(a) => v(a).sin(),
        Op::Cos(a) => v(a).cos(),
        Op::Atan2(a, b) => v(a).atan2(v(b)),
        Op::Round(a) => v(a).round(),
        Op::FromInt(n) => n as f32,
    };
    s(r)
}

fn samples() -> Vec<f32> {
    let mut xs = vec![
        0.0,
        1.0,
        0.5,
        1.5,
        2.0,
        2.999_999_8,
        1e-45,
        1e-40,
        f32::MIN_POSITIVE,
        8_388_607.5,
        16_777_216.0,
        2_147_483_500.0,
        2_147_483_648.0,
        4e9,
        1.9e19,
        f32::MAX,
        f32::INFINITY,
    ];
    xs.extend(xs.clone().iter().map(|x| -x));
    xs.push(f32::NAN);
    xs.push(f32::from_bits(0xffc0_0001));
    xs
}

#[test]
fn constants_are_what_they_say() {
    assert_eq!(v(num(ZERO)), 0.0);
    assert_eq!(v(num(HALF)), 0.5);
    assert_eq!(v(num(ONE)), 1.0);
    assert_eq!(v(num(MINUS_ONE)), -1.0);
    assert_eq!(v(num(TWO)), 2.0);
}

#[test]
fn numbers_compare_like_machine_floats() {
    for a in samples() {
        assert_eq!(s(a).is_nan(), a.is_nan());
        assert_eq!(s(a).is_finite(), a.is_finite());
        assert_eq!(s(a).abs().bits, a.abs().to_bits());
        assert_eq!(s(a).neg().bits, (-a).to_bits());
        for b in samples() {
            assert_eq!(s(a).lt(s(b)), a < b);
            assert_eq!(s(a).le(s(b)), a <= b);
        }
    }
}

#[test]
fn larger_and_smaller_pass_over_what_is_no_number() {
    for a in samples() {
        for b in samples() {
            let larger = v(s(a).max(s(b)));
            let smaller = v(s(a).min(s(b)));
            if a.is_nan() && b.is_nan() {
                assert!(larger.is_nan() && smaller.is_nan());
            } else {
                assert_eq!(larger, a.max(b));
                assert_eq!(smaller, a.min(b));
            }
        }
    }
}

#[test]
fn numbers_are_kept_in_range() {
    for a in samples() {
        let got = v(s(a).clamp(s(-1.0), s(2.0)));
        let want = a.clamp(-1.0, 2.0);
        assert!(got == want || got.is_nan() && want.is_nan());
    }
}

#[test]
fn numbers_are_truncated() {
    for a in samples() {
        assert_eq!(s(a).to_usize(), a as usize, "{a}");
        assert_eq!(s(a).to_i32(), a as i32, "{a}");
    }
}

#[test]
fn operations_are_asked_for() {
    assert_eq!(apply(&compute, Op::Add(s(1.0), s(2.0))), s(3.0));
    assert_eq!(apply(&compute, Op::FromInt(-7)), s(-7.0));
}

fn all(xs: &[f32]) -> Vec<Scalar> {
    xs.iter().map(|x| s(*x)).collect()
}

#[test]
fn buffers_move_and_clear() {
    let mut b = all(&[1.0, 2.0, 3.0, 4.0, 5.0]);
    move_left(&mut b, 2, 2);
    assert_eq!(b, all(&[3.0, 4.0, 0.0, 0.0, 0.0]));
    let mut c = silent(5);
    assert_eq!(c, all(&[0.0; 5]));
    copy_into(&b, &mut c);
    assert_eq!(c, b);
    clear(&mut c);
    assert_eq!(c, all(&[0.0; 5]));
}

#[test]
fn sums_and_means() {
    let b = all(&[0.1, 0.2, 0.7]);
    assert_eq!(v(sum(&b, &compute)), 0.1 + 0.2 + 0.7f32);
    assert_eq!(v(mean(&b, &compute)), (0.1 + 0.2 + 0.7f32) / 3.0);
}

#[test]
fn windows_rise_and_fall() {
    let w = hann_window(8, &compute);
    for i in 0..8 {
        let want = 0.5 - 0.5 * (2.0 * std::f32::consts::PI * i as f32 / 8.0).cos();
        assert_eq!(v(w[i]), want);
    }
    assert_eq!(v(w[0]), 0.0);
    assert_eq!(v(w[4]), 1.0);
    assert_eq!(v(hann_value(s(0.0), &compute)), 0.0);
}

#[test]
fn rings_keep_the_latest() {
    let mut ring = all(&[1.0, 2.0, 3.0]);
    let mut head = 0;
    for x in [4.0, 5.0, 6.0, 7.0] {
        head = overwrite_oldest(&mut ring, head, s(x));
    }
    assert_eq!(head, 1);
    let mut flat = silent(3);
    unroll(&ring, head, &mut flat);
    assert_eq!(flat, all(&[5.0, 6.0, 7.0]));
}
