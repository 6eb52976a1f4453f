//! The whole signal path, held against the same steps on machine floats.
use std::f32::consts::PI;

use rust_autotune::arith::Op;
use rust_autotune::processor::{PitchCorrectionProcessor, ProcessorConfig};
use rust_autotune::psola::{PsolaConfig, PsolaShifter};
use rust_autotune::scalar::{num, Scalar};
use rust_autotune::scale::{ScaleKind, ScaleMapper};
use rust_autotune::yin::YinDetector;

fn s(x: f32) -> Scalar {
    num(x.to_bits())
}

fn v(x: Scalar) -> f32 {
    f32::from_bits(x.bits)
}

fn compute(op: Op) -> Scalar {
    let r = match op {
        Op::Add(a, b) => v(a) + v(b),
        Op::Sub(a, b) => v(a) - v(b),
        Op::Mul(a, b) => v(a) * v(b),
        Op::Div(a, b) => v(a) / v(b),
        Op::Sqrt(a) => v(a).sqrt(),
        Op::Exp(a) => v(a).exp(),
        Op::Log2(a) => v(a).log2(),
        Op::Pow(a, b) => v(a).powf(v(b)),
        Op::Sin(a) => v(a).sin(),
        Op::Cos(a) => v(a).cos(),
        Op::Atan2(a, b) => v(a).atan2(v(b)),
        Op::Round(a) => v(a).round(),
        Op::FromInt(n) => n as f32,
    };
    s(r)
}

fn all(xs: &[f32]) -> Vec<Scalar> {
    xs.iter().map(|x| s(*x)).collect()
}

fn bits(xs: &[f32]) -> Vec<u32> {
    xs.iter().map(|x| x.to_bits()).collect()
}

fn scalar_bits(xs: &[Scalar]) -> Vec<u32> {
    xs.iter().map(|x| x.bits).collect()
}

/// A tone that slides, with some noise, a pause and an overtone.
fn voice(n: usize, sample_rate: f32) -> Vec<f32> {
    let mut phase = 0.0f32;
    let mut seed = 12345u32;
    (0..n)
        .map(|i| {
            let hz = 180.0 + 60.0 * (i as f32 / n as f32);
            phase += 2.0 * PI * hz / sample_rate;
            seed = seed.wrapping_mul(1664525).wrapping_add(1013904223);
            let noise = (seed >> 8) as f32 / 16777216.0 - 0.5;
            let loud = if i > n / 2 && i < n / 2 + 3000 { 0.0 } else { 0.6 };
            loud * (phase.sin() + 0.3 * (2.0 * phase).sin()) * 0.7 + 0.01 * noise
        })
        .collect()
}

struct FloatShifter {
    frame: usize,
    step: usize,
    latency: usize,
    rate: f32,
    fifo: Vec<f32>,
    ready: Vec<f32>,
    sum: Vec<f32>,
    gain: Vec<f32>,
    window: Vec<f32>,
    max_marks: usize,
    period_coeff: f32,
    period: f32,
    mix: f32,
    mix_coeff: f32,
    rover: usize,
}

/// How much the periods before and after `at` are alike.
fn likeness(x: &[f32], period: usize, at: usize) -> f32 {
    (0..period).fold(0.0, |sum, k| sum + x[at - period + k] * x[at + k])
}

fn best(x: &[f32], period: usize, lo: usize, hi: usize) -> usize {
    let mut at = lo;
    let mut most = likeness(x, period, lo);
    for i in lo + 1..=hi {
        let c = likeness(x, period, i);
        if c > most {
            most = c;
            at = i;
        }
    }
    at
}

fn crossings(x: &[f32]) -> f32 {
    let n = (1..x.len()).filter(|&i| (x[i - 1] >= 0.0) != (x[i] >= 0.0)).count();
    n as f32 / (x.len() - 1) as f32
}

impl FloatShifter {
    fn new(rate: f32, frame: usize, overlap: usize) -> Self {
        let frame = frame.max(256).next_power_of_two();
        let step = (frame / overlap.max(2)).max(1);
        let coeff = |ms: f32| (-(step as f32) / (ms * 0.001 * rate).max(1.0)).exp();
        FloatShifter {
            frame,
            step,
            latency: frame - step,
            rate,
            fifo: vec![0.0; frame],
            ready: vec![0.0; frame],
            sum: vec![0.0; frame * 2],
            gain: vec![0.0; frame * 2],
            window: (0..frame)
                .map(|i| 0.5 - 0.5 * (2.0 * PI * i as f32 / frame as f32).cos())
                .collect(),
            max_marks: (frame / 8).max(16),
            period_coeff: coeff(15.0),
            period: 0.0,
            mix: 1.0,
            mix_coeff: coeff(20.0),
            rover: frame - step,
        }
    }

    fn block(&mut self, ratio: f32, hz: f32, input: &[f32]) -> Vec<f32> {
        let ratio = ratio.clamp(0.5, 2.0);
        let mut out = Vec::new();
        for &x in input {
            self.fifo[self.rover] = x;
            let y = self.ready[self.rover - self.latency];
            out.push(if y.is_finite() { y } else { 0.0 });
            self.rover += 1;
            if self.rover >= self.frame {
                self.rover = self.latency;
                self.frame_full(ratio, hz);
            }
        }
        out
    }

    fn marks(&self, period: usize) -> Vec<usize> {
        let radius = (period / 3).max(2);
        let last = self.frame.saturating_sub(period + 1);
        if last <= period {
            return vec![];
        }
        let centre = self.frame / 2;
        let anchor = best(
            &self.fifo,
            period,
            centre.saturating_sub(period).max(period),
            (centre + period).min(last),
        );
        let near = |e: usize| {
            let lo = e.saturating_sub(radius).max(period);
            best(&self.fifo, period, lo, (e + radius).min(last))
        };
        let mut marks = vec![anchor];
        let mut e = anchor;
        while e > 2 * period && marks.len() < self.max_marks {
            e -= period;
            marks.push(near(e));
        }
        e = anchor;
        while e + period < last && marks.len() < self.max_marks {
            e += period;
            marks.push(near(e));
        }
        marks.sort();
        marks
    }

    fn grains(&self, marks: &[usize], places: &[usize], radius: usize) -> Vec<f32> {
        let mut frame = vec![0.0f32; self.frame];
        let mut weight = vec![0.0f32; self.frame];
        for &place in places {
            let mut best = 0;
            for m in 0..marks.len() {
                if marks[m].abs_diff(place) <= marks[best].abs_diff(place) {
                    best = m;
                }
            }
            for k in -(radius as isize)..=(radius as isize) {
                let from = marks[best] as isize + k;
                let to = place as isize + k;
                if from < 0 || to < 0 {
                    continue;
                }
                let (from, to) = (from as usize, to as usize);
                if from >= self.frame || to >= self.frame {
                    continue;
                }
                let x = (k as f32 + radius as f32) / (2.0 * radius as f32).max(1.0);
                let w = 0.5 - 0.5 * (2.0 * PI * x).cos();
                frame[to] += self.fifo[from] * w;
                weight[to] += w;
            }
        }
        for i in 0..self.frame {
            if weight[i] > 1.0e-6 {
                frame[i] /= weight[i];
            }
        }
        frame
    }

    fn frame_full(&mut self, ratio: f32, hz: f32) {
        let voiced = hz.is_finite() && hz >= 40.0 && crossings(&self.fifo) < 0.22;
        let goal = if voiced { 1.0 } else { 0.0 };
        self.mix = self.mix_coeff * self.mix + (1.0 - self.mix_coeff) * goal;
        let mut frame = vec![0.0f32; self.frame];
        if voiced {
            let longest = (self.frame / 3) as f32;
            let target = (self.rate / hz).clamp(24.0, longest);
            self.period = if self.period <= 0.0 {
                target
            } else {
                self.period_coeff * self.period + (1.0 - self.period_coeff) * target
            };
            let period = self.period.round().clamp(24.0, longest) as usize;
            let spacing = (period as f32 / ratio).round().max(1.0) as usize;
            let marks = self.marks(period);
            let mut places = Vec::new();
            let mut pos = period;
            while pos < self.frame.saturating_sub(period + 1) && places.len() < self.max_marks {
                places.push(pos);
                pos += spacing.max(1);
            }
            frame = if marks.len() >= 2 && !places.is_empty() {
                self.grains(&marks, &places, period)
            } else {
                self.fifo.clone()
            };
        }
        let dry = 1.0 - self.mix;
        for i in 0..self.frame {
            frame[i] = self.mix * frame[i] + dry * self.fifo[i];
            self.sum[i] += frame[i] * self.window[i];
            self.gain[i] += self.window[i];
        }
        for i in 0..self.step {
            let g = self.gain[i];
            self.ready[i] = if g > 1.0e-6 { (self.sum[i] / g).clamp(-1.0, 1.0) } else { 0.0 };
        }
        for buffer in [&mut self.sum, &mut self.gain] {
            buffer.copy_within(self.step..self.step + self.frame, 0);
            buffer[self.frame..].fill(0.0);
        }
        self.fifo.copy_within(self.step.., 0);
        self.fifo[self.latency..].fill(0.0);
    }
}

struct FloatDetector {
    rate: f32,
    min_tau: usize,
    max_tau: usize,
    threshold: f32,
    window: Vec<f32>,
}

impl FloatDetector {
    fn new(rate: f32, frame: usize, low: f32, high: f32, threshold: f32) -> Self {
        let longest = (rate / low.max(20.0)).round() as usize;
        let min_tau = (rate / high.max(low + 1.0)).round() as usize;
        FloatDetector {
            rate,
            min_tau,
            max_tau: longest.max(min_tau + 2).min(frame.saturating_sub(2)),
            threshold: threshold.clamp(0.01, 0.40),
            window: (0..frame)
                .map(|i| 0.5 - 0.5 * (2.0 * PI * i as f32 / frame.max(1) as f32).cos())
                .collect(),
        }
    }

    /// Frequency, confidence, and whether it is voiced.
    fn estimate(&self, frame: &[f32]) -> Option<(f32, f32, bool)> {
        if frame.len() < self.max_tau + 2 || frame.len() > self.window.len() {
            return None;
        }
        let n = frame.len();
        let mean = frame.iter().fold(0.0, |a, x| a + x) / n as f32;
        let work: Vec<f32> = (0..n).map(|i| (frame[i] - mean) * self.window[i]).collect();
        let rms = (work.iter().fold(0.0, |a, x| a + x * x) / n as f32).sqrt();
        if rms < 1.0e-5 {
            return Some((0.0, 0.0, false));
        }
        let mut c = vec![1.0f32; self.max_tau + 2];
        let mut total = 0.0;
        for tau in self.min_tau..=self.max_tau {
            let diff = (0..n - tau).fold(0.0, |a, i| {
                let d = work[i] - work[i + tau];
                a + d * d
            });
            total += diff;
            c[tau] = if total > 0.0 { diff * tau as f32 / total } else { 1.0 };
        }
        let dip = (self.min_tau..=self.max_tau).find(|&tau| c[tau] < self.threshold);
        let tau = match dip {
            Some(mut t) => {
                while t + 1 <= self.max_tau && c[t + 1] < c[t] {
                    t += 1;
                }
                t
            }
            None => {
                let mut best = self.min_tau;
                for tau in self.min_tau + 1..=self.max_tau {
                    if c[tau] < c[best] {
                        best = tau;
                    }
                }
                best
            }
        };
        if tau <= self.min_tau || tau >= self.max_tau {
            return None;
        }
        let (x0, x1, x2) = (c[tau - 1], c[tau], c[tau + 1]);
        let denom = 2.0 * (2.0 * x1 - x0 - x2);
        let delta = if denom.abs() > 1.0e-9 { (x0 - x2) / denom } else { 0.0 };
        let refined = (tau as f32 + delta.clamp(-1.0, 1.0)).max(1.0);
        let confidence = (1.0 - x1).clamp(0.0, 1.0);
        Some((self.rate / refined, confidence, confidence >= 1.0 - self.threshold))
    }
}

const MAJOR: [i32; 7] = [0, 2, 4, 5, 7, 9, 11];

struct FloatPath {
    detector: FloatDetector,
    shifter: FloatShifter,
    root: i32,
    low: f32,
    high: f32,
    trust: f32,
    strength: f32,
    aggressiveness: f32,
    dead_zone: f32,
    dry: f32,
    wet: f32,
    amount: f32,
    pre: f32,
    post: f32,
    smoothed: f32,
    pitch_coeff: f32,
    reliable: f32,
    failures: usize,
    ratio: f32,
    ratio_coeff: f32,
    heard: Vec<f32>,
    count: usize,
    delay: Vec<f32>,
    detected: f32,
    confidence: f32,
    target: f32,
    shown: f32,
}

fn one_pole(ms: f32, rate: f32) -> f32 {
    (-256.0 / (ms.max(1.0) * 0.001 * rate).max(1.0)).exp()
}

impl FloatPath {
    fn new(c: &ProcessorConfig, root: i32) -> Self {
        let rate = v(c.sample_rate);
        FloatPath {
            detector: FloatDetector::new(
                rate,
                2048,
                v(c.min_freq_hz),
                v(c.max_freq_hz),
                v(c.yin_threshold),
            ),
            shifter: FloatShifter::new(rate, 2048, 8),
            root,
            low: v(c.min_freq_hz),
            high: v(c.max_freq_hz),
            trust: v(c.confidence_threshold).clamp(0.0, 1.0),
            strength: v(c.correction_strength).clamp(0.0, 1.0),
            aggressiveness: v(c.aggressiveness).clamp(0.0, 1.0),
            dead_zone: v(c.dead_zone_cents).clamp(0.0, 50.0),
            dry: v(c.dry_level).clamp(0.0, 1.0),
            wet: v(c.wet_level).clamp(0.0, 1.0),
            amount: if c.formant_enabled { v(c.formant_amount).clamp(0.0, 1.0) } else { 0.0 },
            pre: 0.0,
            post: 0.0,
            smoothed: 0.0,
            pitch_coeff: one_pole(8.0, rate),
            reliable: 0.0,
            failures: 0,
            ratio: 1.0,
            ratio_coeff: one_pole(v(c.retune_time_ms).max(1.0), rate),
            heard: vec![],
            count: 0,
            delay: vec![0.0; 2048],
            detected: 0.0,
            confidence: 0.0,
            target: 0.0,
            shown: 1.0,
        }
    }

    fn track(&mut self) {
        let frame = &self.heard[self.heard.len() - 2048..];
        match self.detector.estimate(frame) {
            Some((hz, confidence, voiced)) => {
                self.confidence = confidence;
                let good =
                    voiced && hz >= self.low && hz <= self.high && confidence >= self.trust;
                let chosen = if good {
                    self.failures = 0;
                    self.reliable = hz;
                    hz
                } else {
                    self.failures += 1;
                    if self.failures <= 8 { self.reliable } else { 0.0 }
                };
                if chosen > 0.0 {
                    self.smoothed = if self.smoothed <= 0.0 {
                        chosen
                    } else {
                        self.pitch_coeff * self.smoothed + (1.0 - self.pitch_coeff) * chosen
                    };
                } else if self.failures > 8 {
                    self.smoothed = 0.0;
                }
                self.detected = self.smoothed;
            }
            None => {
                self.detected = 0.0;
                self.confidence = 0.0;
                self.failures += 1;
                if self.failures > 8 {
                    self.smoothed = 0.0;
                    self.reliable = 0.0;
                }
            }
        }
        let goal = if self.smoothed <= 0.0 {
            self.target = 0.0;
            1.0
        } else {
            self.goal()
        };
        self.ratio += (goal - self.ratio) * (1.0 - self.ratio_coeff);
        self.ratio = self.ratio.clamp(0.5, 2.0);
    }

    fn goal(&mut self) -> f32 {
        let hz = self.smoothed;
        let nearest = (69.0 + 12.0 * (hz / 440.0).log2()).round() as i32;
        let holds = |note: i32| MAJOR.contains(&(note - self.root).rem_euclid(12));
        let note = (0..48)
            .flat_map(|d| [nearest + d, nearest - d])
            .find(|&note| holds(note))
            .unwrap();
        self.target = 440.0 * 2.0f32.powf((note as f32 - 69.0) / 12.0);
        let raw = (self.target / hz).clamp(0.5, 2.0);
        let cents = 1200.0 * raw.log2().abs();
        if cents < self.dead_zone {
            return 1.0;
        }
        let ramp = ((cents - self.dead_zone) / 20.0).clamp(0.0, 1.0);
        let far = (cents / 80.0).clamp(0.0, 1.0);
        let style = self.aggressiveness + (1.0 - self.aggressiveness) * far;
        let strength = (self.strength * style * ramp).clamp(0.0, 1.0);
        (1.0 + (raw - 1.0) * strength).clamp(0.5, 2.0)
    }

    fn block(&mut self, input: &[f32]) -> Vec<f32> {
        input.chunks(2048).flat_map(|chunk| self.chunk(chunk)).collect()
    }

    fn chunk(&mut self, input: &[f32]) -> Vec<f32> {
        for &x in input {
            self.heard.push(x);
            self.count += 1;
            if self.count >= 256 {
                self.count = 0;
                if self.heard.len() >= 2048 {
                    self.track();
                }
            }
        }
        self.shown = self.ratio;
        let mut wet = input.to_vec();
        if self.amount > 0.0 {
            for x in wet.iter_mut() {
                let y = *x - 0.95 * self.pre;
                self.pre = *x;
                *x = y;
            }
        }
        wet = self.shifter.block(self.ratio, self.detected, &wet);
        if self.amount > 0.0 {
            let correction = (1.0 / self.ratio.max(0.5)).powf(self.amount).clamp(0.5, 2.0);
            let share = (0.95 * correction).clamp(0.0, 0.99);
            for x in wet.iter_mut() {
                *x += share * self.post;
                self.post = *x;
            }
        }
        let dry_w = self.dry.sqrt();
        let wet_w = self.wet.sqrt();
        let norm = (self.dry + self.wet).sqrt().max(1.0);
        let mut out = Vec::new();
        for i in 0..input.len() {
            let dry = self.delay.remove(0);
            self.delay.push(input[i]);
            out.push(((dry_w * dry + wet_w * wet[i]) / norm).clamp(-1.0, 1.0));
        }
        out
    }
}

fn settings() -> ProcessorConfig {
    ProcessorConfig {
        sample_rate: s(44100.0),
        min_freq_hz: s(80.0),
        max_freq_hz: s(1000.0),
        yin_threshold: s(0.12),
        confidence_threshold: s(0.75),
        retune_time_ms: s(30.0),
        correction_strength: s(0.9),
        aggressiveness: s(0.6),
        dead_zone_cents: s(4.0),
        dry_level: s(0.3),
        wet_level: s(0.8),
        force_midi_note: None,
        formant_enabled: true,
        formant_amount: s(0.55),
    }
}

fn shifts_alike(frame: usize, overlap: usize, ratio: f32, hz: f32, input: &[f32]) {
    let cfg = PsolaConfig { frame_size: frame, overlap };
    let mut shifter = PsolaShifter::new(s(44100.0), cfg, &compute);
    let mut model = FloatShifter::new(44100.0, frame, overlap);
    assert_eq!(shifter.latency_samples(), model.latency);
    let mut output = vec![s(0.0); input.len()];
    shifter.process_block(s(ratio), s(hz), &all(input), &mut output, &compute);
    assert_eq!(scalar_bits(&output), bits(&model.block(ratio, hz, input)));
}

#[test]
fn voiced_frames_are_shifted_alike() {
    let input = voice(6000, 44100.0);
    shifts_alike(1024, 4, 1.3, 210.0, &input);
    shifts_alike(1024, 4, 0.7, 210.0, &input);
    shifts_alike(512, 2, 3.0, 150.0, &input);
    shifts_alike(300, 1, 0.1, 45.0, &input);
}

#[test]
fn unvoiced_frames_are_passed_alike() {
    let input = voice(4000, 44100.0);
    shifts_alike(1024, 8, 1.3, 0.0, &input);
    shifts_alike(1024, 8, 1.3, f32::NAN, &input);
    shifts_alike(1024, 8, 1.3, f32::INFINITY, &input);
    shifts_alike(100, 8, 1.3, 30.0, &input);
}

#[test]
fn odd_samples_are_shifted_alike() {
    let mut input = voice(4000, 44100.0);
    input[700] = f32::INFINITY;
    input[1500] = 40.0;
    input[1501] = -40.0;
    shifts_alike(512, 4, 1.2, 200.0, &input);
}

#[test]
fn pitch_is_detected_alike() {
    let input = voice(8192, 44100.0);
    for (low, high, threshold) in [(80.0, 1000.0, 0.12), (60.0, 400.0, 0.3), (150.0, 900.0, 0.0)] {
        let mut detector =
            YinDetector::new(s(44100.0), 1024, s(low), s(high), s(threshold), &compute);
        assert!(detector.is_searchable());
        let model = FloatDetector::new(44100.0, 1024, low, high, threshold);
        for start in [0, 1000, 3900, 5000, 7000] {
            let frame = &input[start..start + 1024];
            let got = detector.estimate(&all(frame), &compute);
            let got = got.map(|e| (v(e.frequency_hz), v(e.confidence), e.voiced));
            assert_eq!(got, model.estimate(frame));
        }
    }
}

#[test]
fn whole_path_runs_alike() {
    let config = settings();
    let mapper = ScaleMapper::new(2, ScaleKind::Major);
    let mut path = PitchCorrectionProcessor::new(config.clone(), mapper, &compute);
    assert!(path.can_detect());
    let mut model = FloatPath::new(&config, 2);
    let input = voice(9000, 44100.0);
    for block in input.chunks(2500) {
        let mut output = vec![s(0.0); block.len()];
        path.process_block(&all(block), &mut output, &compute);
        assert_eq!(scalar_bits(&output), bits(&model.block(block)));
        let meter = path.meter();
        assert_eq!(v(meter.detected_hz), model.detected);
        assert_eq!(v(meter.confidence), model.confidence);
        assert_eq!(v(meter.target_hz), model.target);
        assert_eq!(v(meter.ratio), model.shown);
    }
    assert!(model.detected > 150.0);
    assert!(model.shown != 1.0);
}

#[test]
fn path_without_formants_runs_alike() {
    let mut config = settings();
    config.formant_enabled = false;
    config.dead_zone_cents = s(70.0);
    config.dry_level = s(2.0);
    config.wet_level = s(-1.0);
    let mapper = ScaleMapper::new(-5, ScaleKind::Major);
    let mut path = PitchCorrectionProcessor::new(config.clone(), mapper, &compute);
    let mut model = FloatPath::new(&config, 7);
    let input = voice(6000, 44100.0);
    let mut output = vec![s(0.0); input.len()];
    path.process_block(&all(&input), &mut output, &compute);
    assert_eq!(scalar_bits(&output), bits(&model.block(&input)));
}
