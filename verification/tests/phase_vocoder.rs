use std::f32::consts::PI;

use rust_autotune::arith::Op;
use rust_autotune::phase_vocoder::{Complex, PhaseVocoderShifter, PitchShiftConfig};
use rust_autotune::scalar::{num, Scalar};
use rustfft::num_complex::Complex32;
use rustfft::FftPlanner;

fn s(x: f32) -> Scalar {
    num(x.to_bits())
}

fn v(x: Scalar) -> f32 {
    f32::from_bits(x.bits)
}

fn compute(op: Op) -> Scalar {
    let r = match op {
        Op::Add(a, b) => v(a) + v(b),
        Op::Sub(a, b) => v(a) - v(b),
        Op::Mul(a, b) => v(a) * v(b),
        Op::Div(a, b) => v(a) / v(b),
        Op::Sqrt(a) => v(a).sqrt(),
        Op::Exp(a) => v(a).exp(),
        Op::Log2(a) => v(a).log2(),
        Op::Pow(a, b) => v(a).powf(v(b)),
        Op::Sin(a) => v(a).sin(),
        Op::Cos(a) => v(a).cos(),
        Op::Atan2(a, b) => v(a).atan2(v(b)),
        Op::Round(a) => v(a).round(),
        Op::FromInt(n) => n as f32,
    };
    s(r)
}

fn fft(inverse: bool, data: &mut Vec<Complex32>) {
    let mut planner = FftPlanner::<f32>::new();
    if inverse {
        planner.plan_fft_inverse(data.len()).process(data);
    } else {
        planner.plan_fft_forward(data.len()).process(data);
    }
}

fn transform(inverse: bool, data: Vec<Complex>) -> Vec<Complex> {
    let mut c: Vec<Complex32> = data.iter().map(|x| Complex32::new(v(x.re), v(x.im))).collect();
    fft(inverse, &mut c);
    c.iter().map(|x| Complex { re: s(x.re), im: s(x.im) }).collect()
}

/// The same steps on machine floats.
struct FloatVocoder {
    frame: usize,
    over: usize,
    step: usize,
    per_bin: f32,
    expected: f32,
    window: Vec<f32>,
    fifo: Vec<f32>,
    ready: Vec<f32>,
    sum: Vec<f32>,
    last: Vec<f32>,
    phases: Vec<f32>,
    rover: usize,
}

impl FloatVocoder {
    fn new(rate: f32, frame: usize, over: usize) -> Self {
        let over = over.max(2);
        let step = frame / over;
        FloatVocoder {
            frame,
            over,
            step,
            per_bin: rate / frame as f32,
            expected: 2.0 * PI * step as f32 / frame as f32,
            window: (0..frame)
                .map(|i| 0.5 - 0.5 * (2.0 * PI * i as f32 / frame as f32).cos())
                .collect(),
            fifo: vec![0.0; frame],
            ready: vec![0.0; frame],
            sum: vec![0.0; frame * 2],
            last: vec![0.0; frame / 2 + 1],
            phases: vec![0.0; frame / 2 + 1],
            rover: frame - step,
        }
    }

    fn block(&mut self, ratio: f32, input: &[f32]) -> Vec<f32> {
        let ratio = ratio.clamp(0.5, 2.0);
        let mut out = Vec::new();
        for &x in input {
            self.fifo[self.rover] = x;
            out.push(self.ready[self.rover + self.step - self.frame]);
            self.rover += 1;
            if self.rover >= self.frame {
                self.rover = self.frame - self.step;
                self.frame_full(ratio);
            }
        }
        out
    }

    fn frame_full(&mut self, ratio: f32) {
        let bins = self.frame / 2 + 1;
        let mut data: Vec<Complex32> = (0..self.frame)
            .map(|k| Complex32::new(self.fifo[k] * self.window[k], 0.0))
            .collect();
        fft(false, &mut data);
        let mut loud = vec![0.0f32; bins];
        let mut freq = vec![0.0f32; bins];
        for k in 0..bins {
            let c = data[k];
            let magnitude = 2.0 * (c.re * c.re + c.im * c.im).sqrt();
            let phase = c.im.atan2(c.re);
            let mut turned = phase - self.last[k];
            self.last[k] = phase;
            turned -= k as f32 * self.expected;
            let mut q = (turned / PI) as i32;
            if q >= 0 {
                q += q & 1;
            } else {
                q -= q & 1;
            }
            turned -= PI * q as f32;
            let deviation = self.over as f32 * turned / (2.0 * PI);
            let hz = (k as f32 + deviation) * self.per_bin;
            let index = (k as f32 * ratio).round() as usize;
            if index < bins {
                loud[index] += magnitude;
                freq[index] = hz * ratio;
            }
        }
        data = vec![Complex32::new(0.0, 0.0); self.frame];
        for k in 0..bins {
            let hz = if freq[k] <= 0.0 { k as f32 * self.per_bin } else { freq[k] };
            let mut turn = hz / self.per_bin - k as f32;
            turn = 2.0 * PI * turn / self.over as f32;
            turn += k as f32 * self.expected;
            self.phases[k] += turn;
            let phase = self.phases[k];
            data[k] = Complex32::new(loud[k] * phase.cos(), loud[k] * phase.sin());
            if k > 0 && k < self.frame / 2 {
                data[self.frame - k] = data[k].conj();
            }
        }
        fft(true, &mut data);
        let norm = (self.frame as f32 / 2.0) * self.over as f32;
        for k in 0..self.frame {
            self.sum[k] += self.window[k] * data[k].re / norm;
        }
        self.ready[..self.step].copy_from_slice(&self.sum[..self.step]);
        self.sum.copy_within(self.step..self.step + self.frame, 0);
        self.sum[self.frame..].fill(0.0);
        self.fifo.copy_within(self.step.., 0);
        self.fifo[self.frame - self.step..].fill(0.0);
    }
}

fn tone(n: usize) -> Vec<f32> {
    (0..n).map(|i| 0.5 * (2.0 * PI * 440.0 * i as f32 / 44100.0).sin()).collect()
}

fn shift(frame: usize, over: usize, ratio: f32, blocks: &[&[f32]]) -> Vec<f32> {
    let cfg = PitchShiftConfig { frame_size: frame, oversampling: over };
    let mut shifter = PhaseVocoderShifter::new(s(44100.0), cfg, &compute);
    assert!(shifter.is_usable());
    let mut all = Vec::new();
    for block in blocks {
        let input: Vec<Scalar> = block.iter().map(|x| s(*x)).collect();
        let mut output = vec![s(0.0); input.len()];
        shifter.process_block(s(ratio), &input, &mut output, &compute, &transform);
        all.extend(output.iter().map(|x| v(*x)));
    }
    all
}

fn shifts_alike(frame: usize, over: usize, ratio: f32) {
    let input = tone(5 * frame);
    let got = shift(frame, over, ratio, &[&input]);
    let want = FloatVocoder::new(44100.0, frame, over).block(ratio, &input);
    let got: Vec<u32> = got.iter().map(|x| x.to_bits()).collect();
    let want: Vec<u32> = want.iter().map(|x| x.to_bits()).collect();
    assert_eq!(got, want);
}

#[test]
fn vocoder_shifts_like_machine_floats() {
    shifts_alike(256, 4, 1.0);
    shifts_alike(256, 4, 1.5);
    shifts_alike(256, 8, 0.6);
    shifts_alike(128, 0, 5.0);
    shifts_alike(129, 3, 1.25);
    shifts_alike(2, 2, 1.0);
}

#[test]
fn vocoder_is_silent_until_a_step_is_full() {
    let input = tone(64);
    let out = shift(256, 4, 1.2, &[&input]);
    assert!(out.iter().all(|x| *x == 0.0));
}

#[test]
fn vocoder_blocks_add_up() {
    let input = tone(1000);
    let whole = shift(256, 4, 1.2, &[&input]);
    let parts = shift(256, 4, 1.2, &[&input[..333], &input[333..340], &input[340..]]);
    assert_eq!(whole, parts);
    assert!(whole.iter().any(|x| x.abs() > 0.1));
}

#[test]
fn vocoder_needs_a_step() {
    let cfg = PitchShiftConfig { frame_size: 4, oversampling: 8 };
    assert!(!PhaseVocoderShifter::new(s(44100.0), cfg, &compute).is_usable());
    let cfg = PitchShiftConfig { frame_size: 0, oversampling: 2 };
    assert!(!PhaseVocoderShifter::new(s(44100.0), cfg, &compute).is_usable());
    let cfg = PitchShiftConfig { frame_size: 8, oversampling: 8 };
    assert!(PhaseVocoderShifter::new(s(44100.0), cfg, &compute).is_usable());
}
