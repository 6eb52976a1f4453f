//! Pitch shifting by a phase vocoder: the spectrum of a frame is taken apart into bins, whose
//! frequencies are measured from their phases, and put together again at other frequencies.
use vstd::arithmetic::div_mod::{lemma_fundamental_div_mod, lemma_mod_bound};
use vstd::prelude::*;

use crate::arith::{apply, is_arithmetic, results, Arith, Op};
use crate::buffer::{hann, hann_window, move_left, moved_left, silence, silent, FULL_TURN};
use crate::exact::{
    gap, is_difference, is_product, is_quotient, is_rounded, is_sum, is_whole,
    rounded_numbers_are_whole, small_numbers_are_what_they_are_called,
    truncation_goes_towards_zero, unit, whole_numbers_count_as_themselves,
};
use crate::scalar::{num, Scalar, HALF, TWO, ZERO};

verus! {

/// Half a turn in radians.
pub const HALF_TURN: u32 = 0x4049_0fdb;

#[derive(Debug, Clone, Copy)]
pub struct PitchShiftConfig {
    pub frame_size: usize,
    pub oversampling: usize,
}

/// A complex number.
#[derive(Debug, Clone, Copy, PartialEq, Eq, Structural)]
pub struct Complex {
    pub re: Scalar,
    pub im: Scalar,
}

/// The results of a Fourier transform: of the inverse one for `true`, neither of them scaled.
pub type Transform = spec_fn(bool, Seq<Complex>) -> Seq<Complex>;

/// `g` transforms every sequence, into one of the same length, and the same one always into
/// the same.
pub open spec fn is_transform<G: Fn(bool, Vec<Complex>) -> Vec<Complex>>(g: G) -> bool {
    &&& forall|inverse: bool, v: Vec<Complex>| #[trigger] call_requires(g, (inverse, v))
    &&& forall|inverse: bool, v: Vec<Complex>, r: Vec<Complex>| #[trigger]
        call_ensures(g, (inverse, v), r) ==> r@.len() == v@.len()
    &&& forall|inverse: bool, v: Vec<Complex>, w: Vec<Complex>, r: Vec<Complex>, q: Vec<Complex>|
        #[trigger]
        call_ensures(g, (inverse, v), r) && #[trigger] call_ensures(g, (inverse, w), q) && v@ == w@
            ==> r@ == q@
}

/// `out` is what `g` makes of `s`.
pub open spec fn gives<G: Fn(bool, Vec<Complex>) -> Vec<Complex>>(
    g: G,
    inverse: bool,
    s: Seq<Complex>,
    out: Seq<Complex>,
) -> bool {
    exists|v: Vec<Complex>, r: Vec<Complex>|
        v@ == s && r@ == out && #[trigger] call_ensures(g, (inverse, v), r)
}

/// The results that `g` gives.
pub open spec fn transforms<G: Fn(bool, Vec<Complex>) -> Vec<Complex>>(g: G) -> Transform {
    |inverse: bool, s: Seq<Complex>| choose|out: Seq<Complex>| gives(g, inverse, s, out)
}

/// The result of one transform, which is also what `g` promises of it.
pub fn transform<G: Fn(bool, Vec<Complex>) -> Vec<Complex>>(
    g: &G,
    inverse: bool,
    v: Vec<Complex>,
) -> (r: Vec<Complex>)
    requires
        is_transform(*g),
    ensures
        r@ == transforms(*g)(inverse, v@),
        r@.len() == v@.len(),
        call_ensures(*g, (inverse, v), r),
{
    let ghost s = v@;
    let ghost given = v;
    let r = g(inverse, v);
    proof {
        assert(call_ensures(*g, (inverse, given), r));
        assert(gives(*g, inverse, s, r@));
        let out = transforms(*g)(inverse, s);
        assert(gives(*g, inverse, s, out));
    }
    r
}

/// What a shifter remembers from one sample to the next.
pub struct VocoderState {
    pub oversampling: int,
    pub step_size: int,
    /// The distance between two bins in hertz.
    pub freq_per_bin: Scalar,
    /// How far the phase of the first bin turns during a step.
    pub expected: Scalar,
    pub window: Seq<Scalar>,
    pub in_fifo: Seq<Scalar>,
    pub out_fifo: Seq<Scalar>,
    pub output_accum: Seq<Scalar>,
    /// The phase of each bin in the last frame.
    pub last_phase: Seq<Scalar>,
    /// The phase of each bin in the last output.
    pub sum_phase: Seq<Scalar>,
    /// Where the next sample is written.
    pub rover: int,
}

impl VocoderState {
    pub open spec fn frame_size(self) -> int {
        self.in_fifo.len() as int
    }

    pub open spec fn latency(self) -> int {
        self.frame_size() - self.step_size
    }

    /// The bins from zero up to half the sample rate.
    pub open spec fn bins(self) -> nat {
        (self.frame_size() / 2 + 1) as nat
    }

    pub open spec fn wf(self) -> bool {
        &&& 2 * self.frame_size() <= usize::MAX
        &&& 2 <= self.oversampling <= usize::MAX
        &&& 0 <= self.step_size <= self.frame_size()
        &&& self.window.len() == self.frame_size()
        &&& self.out_fifo.len() == self.frame_size()
        &&& self.output_accum.len() == 2 * self.frame_size()
        &&& self.last_phase.len() == self.bins()
        &&& self.sum_phase.len() == self.bins()
        &&& self.latency() <= self.rover
        &&& self.rover < self.frame_size() || self.step_size == 0
    }

    /// The frame is long enough for a step of at least a sample.
    pub open spec fn usable(self) -> bool {
        1 <= self.step_size && 2 <= self.frame_size()
    }
}

/// A shifter that has seen no sample.
pub open spec fn vocoder_at_rest(
    ar: Arith,
    sample_rate: Scalar,
    cfg: PitchShiftConfig,
) -> VocoderState {
    let frame = cfg.frame_size as int;
    let oversampling = if cfg.oversampling < 2 {
        2
    } else {
        cfg.oversampling as int
    };
    let step = frame / oversampling;
    let bins = (frame / 2 + 1) as nat;
    VocoderState {
        oversampling,
        step_size: step,
        freq_per_bin: ar(Op::Div(sample_rate, ar(Op::FromInt(frame as i128)))),
        expected: ar(
            Op::Div(
                ar(Op::Mul(num(FULL_TURN), ar(Op::FromInt(step as i128)))),
                ar(Op::FromInt(frame as i128)),
            ),
        ),
        window: hann(ar, frame as nat),
        in_fifo: silence(frame as nat),
        out_fifo: silence(frame as nat),
        output_accum: silence((2 * frame) as nat),
        last_phase: silence(bins),
        sum_phase: silence(bins),
        rover: frame - step,
    }
}

/// The frame under its window, as complex numbers.
pub open spec fn windowed_frame(ar: Arith, s: VocoderState) -> Seq<Complex> {
    Seq::new(
        s.in_fifo.len(),
        |k: int| Complex { re: ar(Op::Mul(s.in_fifo[k], s.window[k])), im: num(ZERO) },
    )
}

pub open spec fn spectrum(ar: Arith, tr: Transform, s: VocoderState) -> Seq<Complex> {
    tr(false, windowed_frame(ar, s))
}

pub open spec fn magnitude_of(ar: Arith, c: Complex) -> Scalar {
    ar(
        Op::Mul(
            num(TWO),
            ar(Op::Sqrt(ar(Op::Add(ar(Op::Mul(c.re, c.re)), ar(Op::Mul(c.im, c.im)))))),
        ),
    )
}

pub open spec fn phase_of(ar: Arith, c: Complex) -> Scalar {
    ar(Op::Atan2(c.im, c.re))
}

/// The even number next to `q`, away from zero.
pub open spec fn even_away(q: int) -> int {
    if q % 2 == 0 {
        q
    } else if q >= 0 {
        q + 1
    } else {
        q - 1
    }
}

/// How far a phase turned beyond what its bin is expected to, within half a turn.
pub open spec fn unexpected_turn(
    ar: Arith,
    expected: Scalar,
    k: int,
    phase: Scalar,
    last: Scalar,
) -> Scalar {
    let turned = ar(
        Op::Sub(
            ar(Op::Sub(phase, last)),
            ar(Op::Mul(ar(Op::FromInt(k as i128)), expected)),
        ),
    );
    let half_turns = even_away(ar(Op::Div(turned, num(HALF_TURN))).integer() as int);
    ar(Op::Sub(turned, ar(Op::Mul(num(HALF_TURN), ar(Op::FromInt(half_turns as i128))))))
}

/// The frequency that the phase of a bin shows.
pub open spec fn true_frequency(ar: Arith, s: VocoderState, k: int, phase: Scalar) -> Scalar {
    let turn = unexpected_turn(ar, s.expected, k, phase, s.last_phase[k]);
    let deviation = ar(
        Op::Div(
            ar(Op::Mul(ar(Op::FromInt(s.oversampling as i128)), turn)),
            num(FULL_TURN),
        ),
    );
    ar(Op::Mul(ar(Op::Add(ar(Op::FromInt(k as i128)), deviation)), s.freq_per_bin))
}

/// The magnitude and the frequency of each bin.
pub struct Bins {
    pub magnitude: Seq<Scalar>,
    pub frequency: Seq<Scalar>,
}

pub open spec fn analysed(ar: Arith, s: VocoderState, spec: Seq<Complex>) -> Bins {
    Bins {
        magnitude: Seq::new(s.bins(), |k: int| magnitude_of(ar, spec[k])),
        frequency: Seq::new(
            s.bins(),
            |k: int| true_frequency(ar, s, k, phase_of(ar, spec[k])),
        ),
    }
}

/// The bin that the bin `k` is moved to.
pub open spec fn moved_bin(ar: Arith, k: int, ratio: Scalar) -> usize {
    ar(Op::Round(ar(Op::Mul(ar(Op::FromInt(k as i128)), ratio)))).count()
}

/// The first `n` bins, moved by the pitch ratio. Magnitudes that meet in a bin are added, and
/// the last frequency counts; what falls outside is dropped.
pub open spec fn moved_bins(ar: Arith, a: Bins, ratio: Scalar, n: int) -> Bins
    decreases n,
{
    let bins = a.magnitude.len();
    if n <= 0 {
        Bins { magnitude: silence(bins), frequency: silence(bins) }
    } else {
        let before = moved_bins(ar, a, ratio, n - 1);
        let index = moved_bin(ar, n - 1, ratio) as int;
        if index < bins {
            Bins {
                magnitude: before.magnitude.update(
                    index,
                    ar(Op::Add(before.magnitude[index], a.magnitude[n - 1])),
                ),
                frequency: before.frequency.update(
                    index,
                    ar(Op::Mul(a.frequency[n - 1], ratio)),
                ),
            }
        } else {
            before
        }
    }
}

/// How far the phase of the bin `k` turns during a step at a frequency; at its own where the
/// frequency is not positive.
pub open spec fn phase_step(ar: Arith, s: VocoderState, k: int, frequency: Scalar) -> Scalar {
    let at = ar(Op::FromInt(k as i128));
    let freq = if frequency.at_most(num(ZERO)) {
        ar(Op::Mul(at, s.freq_per_bin))
    } else {
        frequency
    };
    let off = ar(Op::Sub(ar(Op::Div(freq, s.freq_per_bin)), at));
    let turn = ar(
        Op::Div(ar(Op::Mul(num(FULL_TURN), off)), ar(Op::FromInt(s.oversampling as i128))),
    );
    ar(Op::Add(turn, ar(Op::Mul(at, s.expected))))
}

/// The phases of the output after a step.
pub open spec fn next_phases(ar: Arith, s: VocoderState, b: Bins) -> Seq<Scalar> {
    Seq::new(
        s.bins(),
        |k: int| ar(Op::Add(s.sum_phase[k], phase_step(ar, s, k, b.frequency[k]))),
    )
}

/// A complex number of the given magnitude and phase.
pub open spec fn polar(ar: Arith, magnitude: Scalar, phase: Scalar) -> Complex {
    Complex {
        re: ar(Op::Mul(magnitude, ar(Op::Cos(phase)))),
        im: ar(Op::Mul(magnitude, ar(Op::Sin(phase)))),
    }
}

pub open spec fn conjugate(c: Complex) -> Complex {
    Complex { re: c.re, im: c.im.negated() }
}

pub open spec fn complex_zero() -> Complex {
    Complex { re: num(ZERO), im: num(ZERO) }
}

/// The spectrum of the output: the bins, and their mirror images above half the sample rate.
pub open spec fn output_spectrum(ar: Arith, s: VocoderState, b: Bins) -> Seq<Complex> {
    let phases = next_phases(ar, s, b);
    let frame = s.frame_size();
    Seq::new(
        frame as nat,
        |i: int|
            if i < s.bins() {
                polar(ar, b.magnitude[i], phases[i])
            } else if 0 < frame - i && frame - i < frame / 2 {
                conjugate(polar(ar, b.magnitude[frame - i], phases[frame - i]))
            } else {
                complex_zero()
            },
    )
}

/// What the frames add up to.
pub open spec fn vocoder_sum(ar: Arith, s: VocoderState, wave: Seq<Complex>) -> Seq<Scalar> {
    let norm = ar(
        Op::Mul(
            ar(Op::Div(ar(Op::FromInt(s.frame_size() as i128)), num(TWO))),
            ar(Op::FromInt(s.oversampling as i128)),
        ),
    );
    Seq::new(
        s.output_accum.len(),
        |k: int|
            if k < s.frame_size() {
                ar(
                    Op::Add(
                        s.output_accum[k],
                        ar(Op::Div(ar(Op::Mul(s.window[k], wave[k].re)), norm)),
                    ),
                )
            } else {
                s.output_accum[k]
            },
    )
}

/// The bins of a frame after they were moved by the pitch ratio.
pub open spec fn frame_bins(ar: Arith, tr: Transform, s: VocoderState, ratio: Scalar) -> Bins {
    let spec = spectrum(ar, tr, s);
    moved_bins(ar, analysed(ar, s, spec), ratio, s.bins() as int)
}

/// The shifter after the frame in its input was shifted and added to its output.
pub open spec fn after_vocoder_frame(
    ar: Arith,
    tr: Transform,
    s: VocoderState,
    ratio: Scalar,
) -> VocoderState {
    let spec = spectrum(ar, tr, s);
    let b = frame_bins(ar, tr, s, ratio);
    let sum = vocoder_sum(ar, s, tr(true, output_spectrum(ar, s, b)));
    VocoderState {
        last_phase: Seq::new(s.bins(), |k: int| phase_of(ar, spec[k])),
        sum_phase: next_phases(ar, s, b),
        out_fifo: Seq::new(
            s.out_fifo.len(),
            |i: int|
                if i < s.step_size {
                    sum[i]
                } else {
                    s.out_fifo[i]
                },
        ),
        output_accum: moved_left(sum, s.step_size, s.frame_size()),
        in_fifo: moved_left(s.in_fifo, s.step_size, s.latency()),
        ..s
    }
}

/// The shifter after a sample was written.
pub open spec fn after_vocoder_sample(
    ar: Arith,
    tr: Transform,
    s: VocoderState,
    ratio: Scalar,
    x: Scalar,
) -> VocoderState {
    let written = VocoderState { in_fifo: s.in_fifo.update(s.rover, x), rover: s.rover + 1, ..s };
    if written.rover >= written.frame_size() {
        after_vocoder_frame(ar, tr, VocoderState { rover: s.latency(), ..written }, ratio)
    } else {
        written
    }
}

/// The shifter after a block was written.
pub open spec fn after_vocoder_block(
    ar: Arith,
    tr: Transform,
    s: VocoderState,
    ratio: Scalar,
    input: Seq<Scalar>,
) -> VocoderState
    decreases input.len(),
{
    if input.len() == 0 {
        s
    } else {
        after_vocoder_sample(
            ar,
            tr,
            after_vocoder_block(ar, tr, s, ratio, input.drop_last()),
            ratio.clamped(num(HALF), num(TWO)),
            input.last(),
        )
    }
}

/// What is read when a block is written.
pub open spec fn vocoder_out(
    ar: Arith,
    tr: Transform,
    s: VocoderState,
    ratio: Scalar,
    input: Seq<Scalar>,
) -> Seq<Scalar> {
    Seq::new(
        input.len(),
        |i: int|
            {
                let t = after_vocoder_block(ar, tr, s, ratio, input.take(i));
                t.out_fifo[t.rover - t.latency()]
            },
    )
}

pub struct PhaseVocoderShifter {
    frame_size: usize,
    oversampling: usize,
    step_size: usize,
    latency: usize,
    freq_per_bin: Scalar,
    expct: Scalar,
    window: Vec<Scalar>,
    in_fifo: Vec<Scalar>,
    out_fifo: Vec<Scalar>,
    fft_workspace: Vec<Complex>,
    output_accum: Vec<Scalar>,
    last_phase: Vec<Scalar>,
    sum_phase: Vec<Scalar>,
    ana_magn: Vec<Scalar>,
    ana_freq: Vec<Scalar>,
    syn_magn: Vec<Scalar>,
    syn_freq: Vec<Scalar>,
    rover: usize,
}

impl View for PhaseVocoderShifter {
    type V = VocoderState;

    closed spec fn view(&self) -> VocoderState {
        VocoderState {
            oversampling: self.oversampling as int,
            step_size: self.step_size as int,
            freq_per_bin: self.freq_per_bin,
            expected: self.expct,
            window: self.window@,
            in_fifo: self.in_fifo@,
            out_fifo: self.out_fifo@,
            output_accum: self.output_accum@,
            last_phase: self.last_phase@,
            sum_phase: self.sum_phase@,
            rover: self.rover as int,
        }
    }
}

impl PhaseVocoderShifter {
    /// The buffers have the sizes that the frame gives them.
    pub open spec fn wf(self) -> bool {
        &&& self@.wf()
        &&& self.fields_wf()
    }

    pub closed spec fn fields_wf(self) -> bool {
        &&& self.frame_size == self@.frame_size()
        &&& self.latency == self@.latency()
        &&& self.fft_workspace@.len() == self.frame_size
        &&& self.ana_magn@.len() == self@.bins()
        &&& self.ana_freq@.len() == self@.bins()
        &&& self.syn_magn@.len() == self@.bins()
        &&& self.syn_freq@.len() == self@.bins()
    }

    /// A shifter at rest. Two frames of samples must be within what can be allocated.
    pub fn new<F: Fn(Op) -> Scalar>(sample_rate: Scalar, cfg: PitchShiftConfig, f: &F) -> (r: Self)
        requires
            is_arithmetic(*f),
            cfg.frame_size * 8 <= isize::MAX,
        ensures
            r.wf(),
            r@ == vocoder_at_rest(results(*f), sample_rate, cfg),
    {
        let frame_size = cfg.frame_size;
        let oversampling: usize = if cfg.oversampling < 2 {
            2
        } else {
            cfg.oversampling
        };
        proof {
            vstd::arithmetic::div_mod::lemma_div_nonincreasing(
                frame_size as int,
                oversampling as int,
            );
        }
        let step_size: usize = frame_size / oversampling;
        let latency = frame_size - step_size;
        let bins: usize = frame_size / 2 + 1;
        let turned = apply(
            f,
            Op::Mul(num(FULL_TURN), apply(f, Op::FromInt(step_size as i128))),
        );
        let size = apply(f, Op::FromInt(frame_size as i128));
        PhaseVocoderShifter {
            frame_size,
            oversampling,
            step_size,
            latency,
            freq_per_bin: apply(f, Op::Div(sample_rate, size)),
            expct: apply(f, Op::Div(turned, size)),
            window: hann_window(frame_size, f),
            in_fifo: silent(frame_size),
            out_fifo: silent(frame_size),
            fft_workspace: vec![Complex { re: num(ZERO), im: num(ZERO) }; frame_size],
            output_accum: silent(frame_size * 2),
            last_phase: silent(bins),
            sum_phase: silent(bins),
            ana_magn: silent(bins),
            ana_freq: silent(bins),
            syn_magn: silent(bins),
            syn_freq: silent(bins),
            rover: latency,
        }
    }

    /// Whether the frame is long enough for a step of at least a sample, so that blocks can be
    /// processed.
    pub fn is_usable(&self) -> (r: bool)
        requires
            self.wf(),
        ensures
            r == self@.usable(),
    {
        1 <= self.step_size && 2 <= self.frame_size
    }

    /// Writes a block and reads one of the same length: the shifted signal, a frame behind.
    pub fn process_block<
        F: Fn(Op) -> Scalar,
        G: Fn(bool, Vec<Complex>) -> Vec<Complex>,
    >(
        &mut self,
        pitch_ratio: Scalar,
        input: &[Scalar],
        output: &mut [Scalar],
        f: &F,
        g: &G,
    )
        requires
            old(self).wf(),
            input@.len() > 0 ==> old(self)@.usable(),
            input@.len() == old(output)@.len(),
            is_arithmetic(*f),
            is_transform(*g),
        ensures
            final(self).wf(),
            final(self)@.usable() == old(self)@.usable(),
            final(self)@ == after_vocoder_block(
                results(*f),
                transforms(*g),
                old(self)@,
                pitch_ratio,
                input@,
            ),
            final(output)@ == vocoder_out(
                results(*f),
                transforms(*g),
                old(self)@,
                pitch_ratio,
                input@,
            ),
    {
        let ratio = pitch_ratio.clamp(num(HALF), num(TWO));
        let ghost ar = results(*f);
        let ghost tr = transforms(*g);
        let n = input.len();
        let mut i: usize = 0;
        assert(input@.take(0) =~= seq![]);
        while i < n
            invariant
                i <= n,
                n == input@.len(),
                n == output@.len(),
                is_arithmetic(*f),
                is_transform(*g),
                ar == results(*f),
                tr == transforms(*g),
                ratio == pitch_ratio.clamped(num(HALF), num(TWO)),
                self.wf(),
                n > 0 ==> self@.usable(),
                self@.usable() == old(self)@.usable(),
                self@ == after_vocoder_block(
                    ar,
                    tr,
                    old(self)@,
                    pitch_ratio,
                    input@.take(i as int),
                ),
                forall|j: int|
                    0 <= j < i ==> output@[j] == vocoder_out(
                        ar,
                        tr,
                        old(self)@,
                        pitch_ratio,
                        input@,
                    )[j],
            decreases n - i,
        {
            assert(input@.take(i + 1).drop_last() =~= input@.take(i as int));
            output[i] = self.out_fifo[self.rover - self.latency];
            let rover = self.rover;
            self.in_fifo[rover] = input[i];
            if rover + 1 >= self.frame_size {
                self.rover = self.latency;
                self.process_frame(ratio, f, g);
            } else {
                self.rover = rover + 1;
            }
            i += 1;
        }
        assert(input@.take(n as int) =~= input@);
        assert(output@ =~= vocoder_out(ar, tr, old(self)@, pitch_ratio, input@));
    }

    fn process_frame<F: Fn(Op) -> Scalar, G: Fn(bool, Vec<Complex>) -> Vec<Complex>>(
        &mut self,
        ratio: Scalar,
        f: &F,
        g: &G,
    )
        requires
            old(self).wf(),
            old(self)@.usable(),
            is_arithmetic(*f),
            is_transform(*g),
        ensures
            final(self).wf(),
            final(self)@ == after_vocoder_frame(
                results(*f),
                transforms(*g),
                old(self)@,
                ratio,
            ),
    {
        let ghost ar = results(*f);
        let ghost tr = transforms(*g);
        let ghost s = old(self)@;
        self.load_frame(f);
        self.transform_workspace(false, g);
        self.analyse(f);
        self.move_bins(ratio, f);
        let ghost analysed_state = self@;
        let ghost b = frame_bins(ar, tr, s, ratio);
        self.synthesise(f);
        assert(next_phases(ar, analysed_state, b) =~= next_phases(ar, s, b));
        assert(output_spectrum(ar, analysed_state, b) =~= output_spectrum(ar, s, b));
        self.transform_workspace(true, g);
        let ghost wave = self.fft_workspace@;
        let ghost full_state = self@;
        self.add_frame(f);
        assert(vocoder_sum(ar, full_state, wave) =~= vocoder_sum(ar, s, wave));
        assert(self@.out_fifo =~= after_vocoder_frame(ar, tr, s, ratio).out_fifo);
    }

    /// Leaves the frame under its window in the workspace.
    fn load_frame<F: Fn(Op) -> Scalar>(&mut self, f: &F)
        requires
            old(self).wf(),
            is_arithmetic(*f),
        ensures
            final(self).wf(),
            final(self)@ == old(self)@,
            final(self).fft_workspace@ == windowed_frame(results(*f), old(self)@),
    {
        let n = self.frame_size;
        let ghost goal = windowed_frame(results(*f), self@);
        let mut k: usize = 0;
        while k < n
            invariant
                k <= n,
                n == self.frame_size,
                is_arithmetic(*f),
                self.wf(),
                self@ == old(self)@,
                goal == windowed_frame(results(*f), self@),
                forall|j: int| 0 <= j < k ==> self.fft_workspace@[j] == goal[j],
            decreases n - k,
        {
            let re = apply(f, Op::Mul(self.in_fifo[k], self.window[k]));
            self.fft_workspace[k] = Complex { re, im: num(ZERO) };
            k += 1;
        }
        assert(self.fft_workspace@ =~= goal);
    }

    fn transform_workspace<G: Fn(bool, Vec<Complex>) -> Vec<Complex>>(
        &mut self,
        inverse: bool,
        g: &G,
    )
        requires
            old(self).wf(),
            is_transform(*g),
        ensures
            final(self).wf(),
            final(self)@ == old(self)@,
            final(self).fft_workspace@ == transforms(*g)(inverse, old(self).fft_workspace@),
            final(self).syn_magn == old(self).syn_magn,
            final(self).syn_freq == old(self).syn_freq,
    {
        let mut workspace: Vec<Complex> = Vec::new();
        std::mem::swap(&mut workspace, &mut self.fft_workspace);
        self.fft_workspace = transform(g, inverse, workspace);
    }

    /// Leaves the magnitude and the frequency of each bin in `ana_magn` and `ana_freq`.
    fn analyse<F: Fn(Op) -> Scalar>(&mut self, f: &F)
        requires
            old(self).wf(),
            old(self)@.usable(),
            is_arithmetic(*f),
        ensures
            final(self).wf(),
            ({
                let ar = results(*f);
                let s = old(self)@;
                let spec = old(self).fft_workspace@;
                let bins = analysed(ar, s, spec);
                &&& final(self)@ == (VocoderState {
                    last_phase: Seq::new(s.bins(), |k: int| phase_of(ar, spec[k])),
                    ..s
                })
                &&& final(self).ana_magn@ == bins.magnitude
                &&& final(self).ana_freq@ == bins.frequency
            }),
    {
        let ghost ar = results(*f);
        let ghost s = old(self)@;
        let ghost spec = self.fft_workspace@;
        let ghost goal = analysed(ar, s, spec);
        let n = self.ana_magn.len();
        let mut k: usize = 0;
        while k < n
            invariant
                k <= n,
                n == s.bins(),
                s.usable(),
                is_arithmetic(*f),
                ar == results(*f),
                s == old(self)@,
                self.wf(),
                self@ == (VocoderState { last_phase: self.last_phase@, ..s }),
                self.fft_workspace@ == spec,
                goal == analysed(ar, s, spec),
                forall|j: int| 0 <= j < k ==> self.ana_magn@[j] == goal.magnitude[j],
                forall|j: int| 0 <= j < k ==> self.ana_freq@[j] == goal.frequency[j],
                forall|j: int| 0 <= j < k ==> self.last_phase@[j] == phase_of(ar, spec[j]),
                forall|j: int| k <= j < n ==> self.last_phase@[j] == s.last_phase[j],
            decreases n - k,
        {
            let c = self.fft_workspace[k];
            let square = apply(
                f,
                Op::Add(apply(f, Op::Mul(c.re, c.re)), apply(f, Op::Mul(c.im, c.im))),
            );
            let magn = apply(f, Op::Mul(num(TWO), apply(f, Op::Sqrt(square))));
            let phase = apply(f, Op::Atan2(c.im, c.re));
            let at = apply(f, Op::FromInt(k as i128));
            let raw = apply(f, Op::Sub(phase, self.last_phase[k]));
            let turned = apply(f, Op::Sub(raw, apply(f, Op::Mul(at, self.expct))));
            self.last_phase[k] = phase;
            let qpd = apply(f, Op::Div(turned, num(HALF_TURN))).to_i32();
            let even = to_even(qpd);
            let whole = apply(f, Op::Mul(num(HALF_TURN), apply(f, Op::FromInt(even as i128))));
            let delta_phase = apply(f, Op::Sub(turned, whole));
            let scaled = apply(
                f,
                Op::Mul(apply(f, Op::FromInt(self.oversampling as i128)), delta_phase),
            );
            let deviation = apply(f, Op::Div(scaled, num(FULL_TURN)));
            self.ana_magn[k] = magn;
            self.ana_freq[k] = apply(
                f,
                Op::Mul(apply(f, Op::Add(at, deviation)), self.freq_per_bin),
            );
            k += 1;
        }
        assert(self.ana_magn@ =~= goal.magnitude);
        assert(self.ana_freq@ =~= goal.frequency);
        assert(self.last_phase@ =~= Seq::new(s.bins(), |k: int| phase_of(ar, spec[k])));
    }

    /// Leaves the bins, moved by the pitch ratio, in `syn_magn` and `syn_freq`.
    fn move_bins<F: Fn(Op) -> Scalar>(&mut self, ratio: Scalar, f: &F)
        requires
            old(self).wf(),
            is_arithmetic(*f),
        ensures
            final(self).wf(),
            final(self)@ == old(self)@,
            ({
                let a = Bins {
                    magnitude: old(self).ana_magn@,
                    frequency: old(self).ana_freq@,
                };
                let b = moved_bins(results(*f), a, ratio, old(self)@.bins() as int);
                final(self).syn_magn@ == b.magnitude && final(self).syn_freq@ == b.frequency
            }),
    {
        let ghost ar = results(*f);
        let ghost a = Bins { magnitude: self.ana_magn@, frequency: self.ana_freq@ };
        crate::buffer::clear(&mut self.syn_magn);
        crate::buffer::clear(&mut self.syn_freq);
        let n = self.ana_magn.len();
        let mut k: usize = 0;
        while k < n
            invariant
                k <= n,
                n == self@.bins(),
                is_arithmetic(*f),
                ar == results(*f),
                self.wf(),
                self@ == old(self)@,
                a.magnitude == self.ana_magn@,
                a.frequency == self.ana_freq@,
                self.syn_magn@ == moved_bins(ar, a, ratio, k as int).magnitude,
                self.syn_freq@ == moved_bins(ar, a, ratio, k as int).frequency,
            decreases n - k,
        {
            let exact = apply(f, Op::Mul(apply(f, Op::FromInt(k as i128)), ratio));
            let index = apply(f, Op::Round(exact)).to_usize();
            if index < n {
                let m = self.syn_magn[index];
                self.syn_magn[index] = apply(f, Op::Add(m, self.ana_magn[k]));
                self.syn_freq[index] = apply(f, Op::Mul(self.ana_freq[k], ratio));
            }
            k += 1;
        }
    }

    /// Leaves the spectrum of the output in the workspace.
    fn synthesise<F: Fn(Op) -> Scalar>(&mut self, f: &F)
        requires
            old(self).wf(),
            old(self)@.usable(),
            is_arithmetic(*f),
        ensures
            final(self).wf(),
            ({
                let ar = results(*f);
                let s = old(self)@;
                let b = Bins {
                    magnitude: old(self).syn_magn@,
                    frequency: old(self).syn_freq@,
                };
                &&& final(self)@ == (VocoderState { sum_phase: next_phases(ar, s, b), ..s })
                &&& final(self).fft_workspace@ == output_spectrum(ar, s, b)
            }),
    {
        let ghost ar = results(*f);
        let ghost s = old(self)@;
        let ghost b = Bins { magnitude: self.syn_magn@, frequency: self.syn_freq@ };
        let ghost phases = next_phases(ar, s, b);
        let ghost goal = output_spectrum(ar, s, b);
        let frame = self.frame_size;
        let mut i: usize = 0;
        while i < frame
            invariant
                i <= frame,
                frame == self.frame_size,
                self.wf(),
                self@ == s,
                self.syn_magn@ == b.magnitude,
                self.syn_freq@ == b.frequency,
                forall|j: int| 0 <= j < i ==> self.fft_workspace@[j] == complex_zero(),
            decreases frame - i,
        {
            self.fft_workspace[i] = Complex { re: num(ZERO), im: num(ZERO) };
            i += 1;
        }
        let n = self.syn_magn.len();
        let mut k: usize = 0;
        while k < n
            invariant
                k <= n,
                n == s.bins(),
                frame == s.frame_size(),
                frame == self.frame_size,
                s.usable(),
                is_arithmetic(*f),
                ar == results(*f),
                self.wf(),
                self@ == (VocoderState { sum_phase: self.sum_phase@, ..s }),
                self.syn_magn@ == b.magnitude,
                self.syn_freq@ == b.frequency,
                phases == next_phases(ar, s, b),
                goal == output_spectrum(ar, s, b),
                forall|j: int| 0 <= j < k ==> self.sum_phase@[j] == phases[j],
                forall|j: int| k <= j < n ==> self.sum_phase@[j] == s.sum_phase[j],
                forall|j: int|
                    0 <= j < frame ==> #[trigger] self.fft_workspace@[j] == if j < k || (j >= n
                        && frame - j < k) {
                        goal[j]
                    } else {
                        complex_zero()
                    },
            decreases n - k,
        {
            let magn = self.syn_magn[k];
            let at = apply(f, Op::FromInt(k as i128));
            let found = self.syn_freq[k];
            let freq = if found.le(num(ZERO)) {
                apply(f, Op::Mul(at, self.freq_per_bin))
            } else {
                found
            };
            let off = apply(f, Op::Sub(apply(f, Op::Div(freq, self.freq_per_bin)), at));
            let turn = apply(
                f,
                Op::Div(
                    apply(f, Op::Mul(num(FULL_TURN), off)),
                    apply(f, Op::FromInt(self.oversampling as i128)),
                ),
            );
            let phase_diff = apply(f, Op::Add(turn, apply(f, Op::Mul(at, self.expct))));
            let previous = self.sum_phase[k];
            let phase = apply(f, Op::Add(previous, phase_diff));
            self.sum_phase[k] = phase;
            let re = apply(f, Op::Mul(magn, apply(f, Op::Cos(phase))));
            let im = apply(f, Op::Mul(magn, apply(f, Op::Sin(phase))));
            let c = Complex { re, im };
            self.fft_workspace[k] = c;
            assert(c == polar(ar, b.magnitude[k as int], phases[k as int]));
            if k > 0 && k < frame / 2 {
                self.fft_workspace[frame - k] = Complex { re: c.re, im: c.im.neg() };
            }
            k += 1;
        }
        assert(self.fft_workspace@ =~= goal);
        assert(self.sum_phase@ =~= phases);
    }

    /// Adds the frame in the workspace to the output and moves on by a step.
    fn add_frame<F: Fn(Op) -> Scalar>(&mut self, f: &F)
        requires
            old(self).wf(),
            is_arithmetic(*f),
        ensures
            final(self).wf(),
            ({
                let s = old(self)@;
                let sum = vocoder_sum(results(*f), s, old(self).fft_workspace@);
                final(self)@ == (VocoderState {
                    out_fifo: Seq::new(
                        s.out_fifo.len(),
                        |i: int|
                            if i < s.step_size {
                                sum[i]
                            } else {
                                s.out_fifo[i]
                            },
                    ),
                    output_accum: moved_left(sum, s.step_size, s.frame_size()),
                    in_fifo: moved_left(s.in_fifo, s.step_size, s.latency()),
                    ..s
                })
            }),
    {
        let ghost ar = results(*f);
        let ghost s = old(self)@;
        let ghost wave = self.fft_workspace@;
        let ghost sum = vocoder_sum(ar, s, wave);
        let size = apply(f, Op::FromInt(self.frame_size as i128));
        let norm = apply(
            f,
            Op::Mul(
                apply(f, Op::Div(size, num(TWO))),
                apply(f, Op::FromInt(self.oversampling as i128)),
            ),
        );
        let n = self.frame_size;
        let mut k: usize = 0;
        while k < n
            invariant
                k <= n,
                n == self.frame_size,
                n == s.frame_size(),
                s.wf(),
                is_arithmetic(*f),
                ar == results(*f),
                self.wf(),
                self@ == (VocoderState { output_accum: self.output_accum@, ..s }),
                self.fft_workspace@ == wave,
                sum == vocoder_sum(ar, s, wave),
                norm == ar(
                    Op::Mul(
                        ar(Op::Div(ar(Op::FromInt(s.frame_size() as i128)), num(TWO))),
                        ar(Op::FromInt(s.oversampling as i128)),
                    ),
                ),
                forall|j: int| 0 <= j < k ==> self.output_accum@[j] == sum[j],
                forall|j: int|
                    k <= j < 2 * n ==> self.output_accum@[j] == s.output_accum[j],
            decreases n - k,
        {
            let y = self.output_accum[k];
            let part = apply(f, Op::Mul(self.window[k], self.fft_workspace[k].re));
            self.output_accum[k] = apply(f, Op::Add(y, apply(f, Op::Div(part, norm))));
            k += 1;
        }
        assert(self.output_accum@ =~= sum);
        let step = self.step_size;
        let mut i: usize = 0;
        while i < step
            invariant
                i <= step,
                step == s.step_size,
                step <= n,
                n == self.frame_size,
                n == s.frame_size(),
                self.wf(),
                self@ == (VocoderState {
                    output_accum: sum,
                    out_fifo: self.out_fifo@,
                    ..s
                }),
                forall|j: int| 0 <= j < i ==> self.out_fifo@[j] == sum[j],
                forall|j: int| i <= j < n ==> self.out_fifo@[j] == s.out_fifo[j],
            decreases step - i,
        {
            self.out_fifo[i] = self.output_accum[i];
            i += 1;
        }
        assert(self.out_fifo@ =~= Seq::new(
            s.out_fifo.len(),
            |i: int|
                if i < s.step_size {
                    sum[i]
                } else {
                    s.out_fifo[i]
                },
        ));
        move_left(&mut self.output_accum, step, n);
        move_left(&mut self.in_fifo, step, n - step);
    }
}

/// The even number next to `q`, away from zero.
fn to_even(q: i32) -> (r: i64)
    ensures
        r == even_away(q as int),
{
    let odd = match q.checked_rem_euclid(2) {
        Some(rest) => rest == 1,
        None => false,
    };
    if !odd {
        q as i64
    } else if q >= 0 {
        q as i64 + 1
    } else {
        q as i64 - 1
    }
}

/// The spectrum of the output is that of a real signal: above half the sample rate it mirrors
/// what is below.
pub proof fn spectrum_is_mirrored(ar: Arith, s: VocoderState, b: Bins, k: int)
    requires
        s.wf(),
        0 < k < s.frame_size() / 2,
    ensures
        output_spectrum(ar, s, b)[s.frame_size() - k] == conjugate(output_spectrum(ar, s, b)[k]),
{
}

/// Moving the bins keeps how many there are.
proof fn lemma_moved_bins(ar: Arith, a: Bins, ratio: Scalar, n: int)
    requires
        a.frequency.len() == a.magnitude.len(),
    ensures
        moved_bins(ar, a, ratio, n).magnitude.len() == a.magnitude.len(),
        moved_bins(ar, a, ratio, n).frequency.len() == a.magnitude.len(),
    decreases n,
{
    if n > 0 {
        lemma_moved_bins(ar, a, ratio, n - 1);
    }
}

/// A bin that no bin is moved to stays silent.
pub proof fn unreached_bins_are_silent(ar: Arith, a: Bins, ratio: Scalar, n: int, at: int)
    requires
        a.frequency.len() == a.magnitude.len(),
        0 <= at < a.magnitude.len(),
        forall|k: int| 0 <= k < n ==> #[trigger] moved_bin(ar, k, ratio) != at,
    ensures
        moved_bins(ar, a, ratio, n).magnitude[at] == num(ZERO),
        moved_bins(ar, a, ratio, n).frequency[at] == num(ZERO),
    decreases n,
{
    if n > 0 {
        lemma_moved_bins(ar, a, ratio, n - 1);
        unreached_bins_are_silent(ar, a, ratio, n - 1, at);
        assert(moved_bin(ar, n - 1, ratio) != at);
    }
}

/// A block keeps a shifter in order, and the sizes of its frame and of its step.
pub proof fn vocoder_keeps_sizes(
    ar: Arith,
    tr: Transform,
    s: VocoderState,
    ratio: Scalar,
    input: Seq<Scalar>,
)
    requires
        s.wf(),
        s.usable(),
    ensures
        after_vocoder_block(ar, tr, s, ratio, input).wf(),
        after_vocoder_block(ar, tr, s, ratio, input).usable(),
        after_vocoder_block(ar, tr, s, ratio, input).frame_size() == s.frame_size(),
        after_vocoder_block(ar, tr, s, ratio, input).step_size == s.step_size,
    decreases input.len(),
{
    if input.len() > 0 {
        vocoder_keeps_sizes(ar, tr, s, ratio, input.drop_last());
    }
}

/// A block fed in two parts leaves the same shifter behind as the block fed at once.
pub proof fn vocoder_blocks_compose(
    ar: Arith,
    tr: Transform,
    s: VocoderState,
    ratio: Scalar,
    first: Seq<Scalar>,
    second: Seq<Scalar>,
)
    ensures
        after_vocoder_block(ar, tr, s, ratio, first + second) == after_vocoder_block(
            ar,
            tr,
            after_vocoder_block(ar, tr, s, ratio, first),
            ratio,
            second,
        ),
    decreases second.len(),
{
    if second.len() == 0 {
        assert(first + second =~= first);
    } else {
        assert((first + second).drop_last() =~= first + second.drop_last());
        vocoder_blocks_compose(ar, tr, s, ratio, first, second.drop_last());
    }
}

/// A block fed in two parts gives the same samples as the block fed at once.
pub proof fn vocoder_outputs_compose(
    ar: Arith,
    tr: Transform,
    s: VocoderState,
    ratio: Scalar,
    first: Seq<Scalar>,
    second: Seq<Scalar>,
)
    ensures
        vocoder_out(ar, tr, s, ratio, first + second) == vocoder_out(ar, tr, s, ratio, first)
            + vocoder_out(
            ar,
            tr,
            after_vocoder_block(ar, tr, s, ratio, first),
            ratio,
            second,
        ),
{
    let whole = vocoder_out(ar, tr, s, ratio, first + second);
    let t = after_vocoder_block(ar, tr, s, ratio, first);
    let parts = vocoder_out(ar, tr, s, ratio, first) + vocoder_out(ar, tr, t, ratio, second);
    assert forall|i: int| 0 <= i < whole.len() implies whole[i] == parts[i] by {
        if i < first.len() {
            assert((first + second).take(i) =~= first.take(i));
        } else {
            let k = i - first.len();
            assert((first + second).take(i) =~= first + second.take(k));
            vocoder_blocks_compose(ar, tr, s, ratio, first, second.take(k));
        }
    }
    assert(whole =~= parts);
}

proof fn lemma_vocoder_at_rest(ar: Arith, sample_rate: Scalar, cfg: PitchShiftConfig)
    requires
        cfg.frame_size * 8 <= isize::MAX,
    ensures
        vocoder_at_rest(ar, sample_rate, cfg).wf(),
{
    let oversampling: int = if cfg.oversampling < 2 {
        2
    } else {
        cfg.oversampling as int
    };
    vstd::arithmetic::div_mod::lemma_div_nonincreasing(cfg.frame_size as int, oversampling);
}

/// The frame that a shifter works on holds the latest samples that it was fed, in their order,
/// after the silence that it starts with.
pub proof fn vocoder_frame_holds_latest_samples(
    ar: Arith,
    tr: Transform,
    sample_rate: Scalar,
    cfg: PitchShiftConfig,
    ratio: Scalar,
    input: Seq<Scalar>,
)
    requires
        cfg.frame_size * 8 <= isize::MAX,
        vocoder_at_rest(ar, sample_rate, cfg).usable(),
    ensures
        ({
            let s = vocoder_at_rest(ar, sample_rate, cfg);
            let t = after_vocoder_block(ar, tr, s, ratio, input);
            let heard = silence(s.latency() as nat) + input;
            &&& t.rover <= heard.len()
            &&& t.in_fifo.take(t.rover) == heard.skip(heard.len() - t.rover)
        }),
    decreases input.len(),
{
    let s = vocoder_at_rest(ar, sample_rate, cfg);
    lemma_vocoder_at_rest(ar, sample_rate, cfg);
    let t = after_vocoder_block(ar, tr, s, ratio, input);
    let heard = silence(s.latency() as nat) + input;
    if input.len() == 0 {
        assert(t.in_fifo.take(t.rover) =~= heard.skip(0));
    } else {
        let before = input.drop_last();
        vocoder_frame_holds_latest_samples(ar, tr, sample_rate, cfg, ratio, before);
        vocoder_keeps_sizes(ar, tr, s, ratio, before);
        let u = after_vocoder_block(ar, tr, s, ratio, before);
        let earlier = silence(s.latency() as nat) + before;
        assert(heard =~= earlier.push(input.last()));
        let held = u.in_fifo.take(u.rover);
        assert forall|i: int| 0 <= i < u.rover implies u.in_fifo[i] == earlier[
            earlier.len() - u.rover + i
        ] by {
            assert(held[i] == u.in_fifo[i]);
            assert(held[i] == earlier.skip(earlier.len() - u.rover)[i]);
        }
        assert(t.in_fifo.take(t.rover) =~= heard.skip(heard.len() - t.rover));
    }
}

proof fn lemma_vocoder_first_step(
    ar: Arith,
    tr: Transform,
    s: VocoderState,
    ratio: Scalar,
    input: Seq<Scalar>,
)
    requires
        s.wf(),
        s.rover == s.latency(),
        input.len() < s.step_size,
    ensures
        ({
            let t = after_vocoder_block(ar, tr, s, ratio, input);
            &&& t.out_fifo == s.out_fifo
            &&& t.rover == s.rover + input.len()
            &&& t.frame_size() == s.frame_size()
            &&& t.step_size == s.step_size
        }),
    decreases input.len(),
{
    if input.len() > 0 {
        lemma_vocoder_first_step(ar, tr, s, ratio, input.drop_last());
    }
}

/// A shifter that starts gives silence until its first step is full.
pub proof fn vocoder_starts_silent(
    ar: Arith,
    tr: Transform,
    sample_rate: Scalar,
    cfg: PitchShiftConfig,
    ratio: Scalar,
    input: Seq<Scalar>,
    i: int,
)
    requires
        cfg.frame_size * 8 <= isize::MAX,
        0 <= i < input.len(),
        i < vocoder_at_rest(ar, sample_rate, cfg).step_size,
    ensures
        vocoder_out(ar, tr, vocoder_at_rest(ar, sample_rate, cfg), ratio, input)[i] == num(ZERO),
{
    let s = vocoder_at_rest(ar, sample_rate, cfg);
    lemma_vocoder_at_rest(ar, sample_rate, cfg);
    lemma_vocoder_first_step(ar, tr, s, ratio, input.take(i));
}

/// A shifter is laid out for the rate that it is created with: its bins share the rate, and
/// during a step the phase of the first bin turns by the share of a turn that the step is of the
/// frame. The step is the frame over the oversampling, which is at least 2.
pub proof fn bins_share_the_rate(ar: Arith, rate: Scalar, cfg: PitchShiftConfig)
    requires
        ({
            let s = vocoder_at_rest(ar, rate, cfg);
            let n = ar(Op::FromInt(cfg.frame_size as i128));
            let m = ar(Op::FromInt(s.step_size as i128));
            let turn = ar(Op::Mul(num(FULL_TURN), m));
            &&& is_whole(cfg.frame_size as int, n)
            &&& is_whole(s.step_size, m)
            &&& is_quotient(rate, n, ar(Op::Div(rate, n)))
            &&& is_product(num(FULL_TURN), m, turn)
            &&& is_quotient(turn, n, ar(Op::Div(turn, n)))
        }),
    ensures
        ({
            let s = vocoder_at_rest(ar, rate, cfg);
            let n = cfg.frame_size as int;
            let over: int = if cfg.oversampling < 2 {
                2
            } else {
                cfg.oversampling as int
            };
            &&& s.frame_size() == n
            &&& s.oversampling == over
            &&& s.step_size * over <= n < (s.step_size + 1) * over
            &&& s.freq_per_bin.units() * n == rate.units()
            &&& s.expected.units() * n == num(FULL_TURN).units() * s.step_size
        }),
{
    small_numbers_are_what_they_are_called();
    let s = vocoder_at_rest(ar, rate, cfg);
    let (u, n) = (unit(), cfg.frame_size as int);
    let over: int = if cfg.oversampling < 2 {
        2
    } else {
        cfg.oversampling as int
    };
    lemma_fundamental_div_mod(n, over);
    lemma_mod_bound(n, over);
    let q = n / over;
    assert(q * over <= n < (q + 1) * over) by (nonlinear_arith)
        requires
            n == over * q + n % over,
            0 <= n % over < over,
    ;
    let (f, r) = (s.freq_per_bin.units(), rate.units());
    assert(f * n == r) by (nonlinear_arith)
        requires
            f * (n * u) == r * u,
            u > 0,
    ;
    let m = ar(Op::FromInt(s.step_size as i128));
    let (e, t, w, p) = (
        s.expected.units(),
        ar(Op::Mul(num(FULL_TURN), m)).units(),
        num(FULL_TURN).units(),
        s.step_size,
    );
    assert(e * n == w * p) by (nonlinear_arith)
        requires
            t * u == w * (p * u),
            e * (n * u) == t * u,
            u > 0,
    ;
}

/// The magnitude of a bin is twice the length of its complex number: its square is four times the
/// sum of the squares of the parts.
pub proof fn magnitudes_are_twice_the_length(ar: Arith, c: Complex)
    requires
        ({
            let (a, b) = (ar(Op::Mul(c.re, c.re)), ar(Op::Mul(c.im, c.im)));
            let sum = ar(Op::Add(a, b));
            let root = ar(Op::Sqrt(sum));
            &&& is_product(c.re, c.re, a)
            &&& is_product(c.im, c.im, b)
            &&& is_sum(a, b, sum)
            &&& root.units() * root.units() == sum.units() * unit()
            &&& is_product(num(TWO), root, ar(Op::Mul(num(TWO), root)))
        }),
    ensures
        ({
            let (m, x, y) = (magnitude_of(ar, c).units(), c.re.units(), c.im.units());
            m * m == 4 * (x * x + y * y)
        }),
{
    small_numbers_are_what_they_are_called();
    let (a, b) = (ar(Op::Mul(c.re, c.re)), ar(Op::Mul(c.im, c.im)));
    let sum = ar(Op::Add(a, b));
    let root = ar(Op::Sqrt(sum));
    let (u, m, r, x, y) = (
        unit(),
        magnitude_of(ar, c).units(),
        root.units(),
        c.re.units(),
        c.im.units(),
    );
    assert(m == 2 * r) by (nonlinear_arith)
        requires
            m * u == (2 * u) * r,
            u > 0,
    ;
    let (au, bu, s) = (a.units(), b.units(), sum.units());
    assert(m * m == 4 * (x * x + y * y)) by (nonlinear_arith)
        requires
            m == 2 * r,
            r * r == s * u,
            s == au + bu,
            au * u == x * x,
            bu * u == y * y,
    ;
}

/// How far a phase turned beyond what its bin is expected to differs from how far it turned by
/// whole turns, and is at most half a turn either way.
pub proof fn unexpected_turns_are_within_half_a_turn(
    ar: Arith,
    expected: Scalar,
    k: int,
    phase: Scalar,
    last: Scalar,
)
    requires
        ({
            let turned = turned_of(ar, expected, k, phase, last);
            let q = ar(Op::Div(turned, num(HALF_TURN)));
            let h = ar(Op::FromInt(even_away(q.integer() as int) as i128));
            let taken = ar(Op::Mul(num(HALF_TURN), h));
            &&& turn_is_exact(ar, expected, k, phase, last)
            &&& is_quotient(turned, num(HALF_TURN), q)
            &&& i32::MIN <= q.truncated() <= i32::MAX
            &&& is_whole(even_away(q.integer() as int), h)
            &&& is_product(num(HALF_TURN), h, taken)
            &&& is_difference(turned, taken, ar(Op::Sub(turned, taken)))
        }),
    ensures
        exists|turns: int|
            {
                let r = unexpected_turn(ar, expected, k, phase, last).units();
                let half = num(HALF_TURN).units();
                &&& -half <= r <= half
                &&& r == phase.units() - last.units() - k * expected.units() - #[trigger] (2 * turns)
                    * half
            },
{
    small_numbers_are_what_they_are_called();
    let turned = turned_of(ar, expected, k, phase, last);
    let q = ar(Op::Div(turned, num(HALF_TURN)));
    let n = q.truncated();
    let e = even_away(n);
    let h = ar(Op::FromInt(e as i128));
    let taken = ar(Op::Mul(num(HALF_TURN), h));
    truncation_goes_towards_zero(q);
    lemma_half_turn_is_positive();
    let (u, half, x, qu, t) = (
        unit(),
        num(HALF_TURN).units(),
        turned.units(),
        q.units(),
        taken.units(),
    );
    assert(t == half * e) by (nonlinear_arith)
        requires
            t * u == half * (e * u),
            u > 0,
    ;
    lemma_turn_numbers(ar, expected, k, phase, last);
    lemma_even_is_near(n, qu, u);
    assert(-half <= x - half * e <= half) by (nonlinear_arith)
        requires
            -u <= qu - e * u <= u,
            qu * half == x * u,
            half > 0,
            u > 0,
    ;
    let turns = e / 2;
    assert(e == 2 * turns);
    assert(unexpected_turn(ar, expected, k, phase, last).units() == x - half * e);
    assert(half * e == (2 * turns) * half) by (nonlinear_arith)
        requires
            e == 2 * turns,
    ;
}

/// A number lies within one of the even number that is next to its whole part, away from zero.
proof fn lemma_even_is_near(n: int, q: int, u: int)
    requires
        u > 0,
        q >= 0 ==> 0 <= n * u <= q < n * u + u,
        q <= 0 ==> n * u - u < q <= n * u <= 0,
    ensures
        -u <= q - even_away(n) * u <= u,
        even_away(n) % 2 == 0,
{
    assert((n + 1) * u == n * u + u && (n - 1) * u == n * u - u) by (nonlinear_arith);
    assert(n > 0 ==> n * u > 0) by (nonlinear_arith)
        requires
            u > 0,
    ;
    assert(n < 0 ==> n * u < 0) by (nonlinear_arith)
        requires
            u > 0,
    ;
}

/// How far a phase turned beyond what its bin is expected to, whole turns included.
pub open spec fn turned_of(
    ar: Arith,
    expected: Scalar,
    k: int,
    phase: Scalar,
    last: Scalar,
) -> Scalar {
    ar(
        Op::Sub(
            ar(Op::Sub(phase, last)),
            ar(Op::Mul(ar(Op::FromInt(k as i128)), expected)),
        ),
    )
}

/// The operations that lead to it are exact.
pub open spec fn turn_is_exact(
    ar: Arith,
    expected: Scalar,
    k: int,
    phase: Scalar,
    last: Scalar,
) -> bool {
    let (way, at) = (ar(Op::Sub(phase, last)), ar(Op::FromInt(k as i128)));
    let due = ar(Op::Mul(at, expected));
    &&& is_difference(phase, last, way)
    &&& is_whole(k, at)
    &&& is_product(at, expected, due)
    &&& is_difference(way, due, ar(Op::Sub(way, due)))
}

proof fn lemma_turn_numbers(ar: Arith, expected: Scalar, k: int, phase: Scalar, last: Scalar)
    requires
        turn_is_exact(ar, expected, k, phase, last),
    ensures
        turned_of(ar, expected, k, phase, last).units() == phase.units() - last.units() - k
            * expected.units(),
{
    small_numbers_are_what_they_are_called();
    let due = ar(Op::Mul(ar(Op::FromInt(k as i128)), expected));
    let (u, d, e) = (unit(), due.units(), expected.units());
    assert(d == k * e) by (nonlinear_arith)
        requires
            d * u == (k * u) * e,
            u > 0,
    ;
}

proof fn lemma_half_turn_is_positive()
    ensures
        num(HALF_TURN).units() > 0,
        num(FULL_TURN).units() > 0,
{
    small_numbers_are_what_they_are_called();
    assert(num(ZERO).below(num(HALF_TURN)) && num(ZERO).below(num(FULL_TURN))) by {
        broadcast use crate::scalar::group_scalar_order;

    }
}

/// The frequency that a phase shows is that of its bin and, on top, as many bins as the
/// unexpected turn, times the oversampling, is of a full turn; and the phase that this frequency
/// turns by during a step is what was expected and the unexpected turn: a signal that is not
/// shifted goes on in phase.
pub proof fn frequencies_turn_phases_as_they_were_turned(
    ar: Arith,
    s: VocoderState,
    k: int,
    phase: Scalar,
)
    requires
        s.oversampling > 0,
        s.freq_per_bin.units() > 0,
        ({
            let turn = unexpected_turn(ar, s.expected, k, phase, s.last_phase[k]);
            let (at, over) = (
                ar(Op::FromInt(k as i128)),
                ar(Op::FromInt(s.oversampling as i128)),
            );
            let scaled = ar(Op::Mul(over, turn));
            let deviation = ar(Op::Div(scaled, num(FULL_TURN)));
            let bin = ar(Op::Add(at, deviation));
            let hz = ar(Op::Mul(bin, s.freq_per_bin));
            let again = ar(Op::Div(hz, s.freq_per_bin));
            let off = ar(Op::Sub(again, at));
            let back = ar(Op::Mul(num(FULL_TURN), off));
            let share = ar(Op::Div(back, over));
            let due = ar(Op::Mul(at, s.expected));
            &&& is_whole(k, at)
            &&& is_whole(s.oversampling, over)
            &&& is_product(over, turn, scaled)
            &&& is_quotient(scaled, num(FULL_TURN), deviation)
            &&& is_sum(at, deviation, bin)
            &&& is_product(bin, s.freq_per_bin, hz)
            &&& hz.units() > 0
            &&& is_quotient(hz, s.freq_per_bin, again)
            &&& is_difference(again, at, off)
            &&& is_product(num(FULL_TURN), off, back)
            &&& is_quotient(back, over, share)
            &&& is_product(at, s.expected, due)
            &&& is_sum(share, due, ar(Op::Add(share, due)))
        }),
    ensures
        ({
            let turn = unexpected_turn(ar, s.expected, k, phase, s.last_phase[k]).units();
            let hz = true_frequency(ar, s, k, phase);
            let full = num(FULL_TURN).units();
            &&& hz.units() * full == (k * full + s.oversampling * turn) * s.freq_per_bin.units()
            &&& phase_step(ar, s, k, hz).units() == turn + k * s.expected.units()
        }),
{
    small_numbers_are_what_they_are_called();
    lemma_half_turn_is_positive();
    let turn = unexpected_turn(ar, s.expected, k, phase, s.last_phase[k]);
    let (at, over) = (ar(Op::FromInt(k as i128)), ar(Op::FromInt(s.oversampling as i128)));
    let scaled = ar(Op::Mul(over, turn));
    let deviation = ar(Op::Div(scaled, num(FULL_TURN)));
    let bin = ar(Op::Add(at, deviation));
    let hz = ar(Op::Mul(bin, s.freq_per_bin));
    let again = ar(Op::Div(hz, s.freq_per_bin));
    let off = ar(Op::Sub(again, at));
    let back = ar(Op::Mul(num(FULL_TURN), off));
    let share = ar(Op::Div(back, over));
    let due = ar(Op::Mul(at, s.expected));
    let (u, n, t, f, p) = (
        unit(),
        s.oversampling,
        turn.units(),
        num(FULL_TURN).units(),
        s.freq_per_bin.units(),
    );
    let (sc, d, b, h) = (scaled.units(), deviation.units(), bin.units(), hz.units());
    assert(sc == n * t) by (nonlinear_arith)
        requires
            sc * u == (n * u) * t,
            u > 0,
    ;
    let w = k * f + n * t;
    assert(b * f == w * u) by (nonlinear_arith)
        requires
            sc == n * t,
            d * f == sc * u,
            b == k * u + d,
            w == k * f + n * t,
    ;
    assert(h * f == w * p) by (nonlinear_arith)
        requires
            b * f == w * u,
            h * u == b * p,
            u > 0,
    ;
    let (a, o, r, g, y) = (
        again.units(),
        off.units(),
        back.units(),
        share.units(),
        due.units(),
    );
    assert(a == b) by (nonlinear_arith)
        requires
            a * p == h * u,
            h * u == b * p,
            p > 0,
    ;
    assert(o == d);
    assert(g == t) by (nonlinear_arith)
        requires
            r * u == f * o,
            o == d,
            d * f == sc * u,
            sc == n * t,
            g * (n * u) == r * u,
            n > 0,
            u > 0,
    ;
    let e = s.expected.units();
    assert(y == k * e) by (nonlinear_arith)
        requires
            y * u == (k * u) * e,
            u > 0,
    ;
    assert(!hz.at_most(num(ZERO)));
    assert(true_frequency(ar, s, k, phase) == hz);
    assert(phase_step(ar, s, k, hz) == ar(Op::Add(share, due)));
}

/// A bin is moved to the one that is nearest to its own number times the ratio.
pub proof fn bins_move_by_the_ratio(ar: Arith, k: int, ratio: Scalar)
    requires
        0 <= k,
        0 <= ratio.units(),
        ({
            let at = ar(Op::FromInt(k as i128));
            let to = ar(Op::Mul(at, ratio));
            let r = ar(Op::Round(to));
            &&& is_whole(k, at)
            &&& is_product(at, ratio, to)
            &&& is_rounded(to, r)
            &&& r.units() <= usize::MAX * unit()
        }),
    ensures
        2 * gap(moved_bin(ar, k, ratio) * unit(), k * ratio.units()) <= unit(),
{
    small_numbers_are_what_they_are_called();
    let at = ar(Op::FromInt(k as i128));
    let to = ar(Op::Mul(at, ratio));
    let r = ar(Op::Round(to));
    rounded_numbers_are_whole(to, r);
    let (u, x, y, n) = (unit(), to.units(), ratio.units(), r.units() / unit());
    assert(x == k * y && x >= 0) by (nonlinear_arith)
        requires
            x * u == (k * u) * y,
            0 <= k,
            0 <= y,
            u > 0,
    ;
    assert(0 <= n <= usize::MAX) by (nonlinear_arith)
        requires
            2 * gap(n * u, x) <= u,
            x >= 0,
            n * u <= usize::MAX * u,
            u > 0,
    ;
    whole_numbers_count_as_themselves(n, r);
}

/// A bin that is moved to a place where no later one is moved brings its frequency there, times
/// the ratio; where no other one is moved, its magnitude too.
pub proof fn moved_bins_bring_their_frequency(
    ar: Arith,
    a: Bins,
    ratio: Scalar,
    n: int,
    k: int,
)
    requires
        0 <= k < n <= a.magnitude.len(),
        a.frequency.len() == a.magnitude.len(),
        (moved_bin(ar, k, ratio) as int) < a.magnitude.len(),
        forall|j: int| k < j < n ==> #[trigger] moved_bin(ar, j, ratio) != moved_bin(ar, k, ratio),
    ensures
        ({
            let b = moved_bins(ar, a, ratio, n);
            let at = moved_bin(ar, k, ratio) as int;
            &&& b.frequency[at] == ar(Op::Mul(a.frequency[k], ratio))
            &&& (forall|j: int|
                0 <= j < k ==> #[trigger] moved_bin(ar, j, ratio) != moved_bin(ar, k, ratio))
                ==> b.magnitude[at] == ar(Op::Add(num(ZERO), a.magnitude[k]))
            &&& b.magnitude[at] == ar(
                Op::Add(moved_bins(ar, a, ratio, k).magnitude[at], a.magnitude[k]),
            )
        }),
    decreases n,
{
    let at = moved_bin(ar, k, ratio) as int;
    lemma_moved_bins(ar, a, ratio, n - 1);
    if n - 1 > k {
        assert(moved_bin(ar, n - 1, ratio) != moved_bin(ar, k, ratio));
        moved_bins_bring_their_frequency(ar, a, ratio, n - 1, k);
    } else if forall|j: int|
        0 <= j < k ==> #[trigger] moved_bin(ar, j, ratio) != moved_bin(ar, k, ratio) {
        unreached_bins_are_silent(ar, a, ratio, k, at);
    }
}

/// The spectrum of the output holds, in each bin up to half the sample rate, a number of the
/// length and at the phase that the bin has come to; its phase goes on from the last one.
pub proof fn bins_become_numbers_of_their_length(ar: Arith, s: VocoderState, b: Bins, k: int)
    requires
        s.wf(),
        0 <= k < s.frame_size() / 2 + 1,
        k < s.frame_size(),
        ({
            let turned = phase_step(ar, s, k, b.frequency[k]);
            let phase = ar(Op::Add(s.sum_phase[k], turned));
            let (c, i) = (ar(Op::Cos(phase)), ar(Op::Sin(phase)));
            &&& is_sum(s.sum_phase[k], turned, phase)
            &&& is_product(b.magnitude[k], c, ar(Op::Mul(b.magnitude[k], c)))
            &&& is_product(b.magnitude[k], i, ar(Op::Mul(b.magnitude[k], i)))
        }),
    ensures
        exists|phase: Scalar|
            #![trigger ar(Op::Cos(phase))]
            {
                let y = output_spectrum(ar, s, b)[k];
                let m = b.magnitude[k].units();
                &&& phase == next_phases(ar, s, b)[k]
                &&& phase.units() == s.sum_phase[k].units() + phase_step(
                    ar,
                    s,
                    k,
                    b.frequency[k],
                ).units()
                &&& y.re.units() * unit() == m * ar(Op::Cos(phase)).units()
                &&& y.im.units() * unit() == m * ar(Op::Sin(phase)).units()
            },
{
    let phase = next_phases(ar, s, b)[k];
    let y = output_spectrum(ar, s, b)[k];
    assert(y == polar(ar, b.magnitude[k], phase));
    assert(ar(Op::Cos(phase)) == ar(Op::Cos(phase)));
}

/// What a frame adds to the output, times half the frame and the oversampling, is its wave under
/// the window.
pub proof fn frames_add_their_wave(
    ar: Arith,
    s: VocoderState,
    wave: Seq<Complex>,
    k: int,
)
    requires
        s.wf(),
        0 <= k < s.frame_size(),
        ({
            let (n, over) = (
                ar(Op::FromInt(s.frame_size() as i128)),
                ar(Op::FromInt(s.oversampling as i128)),
            );
            let half = ar(Op::Div(n, num(TWO)));
            let norm = ar(Op::Mul(half, over));
            let y = ar(Op::Mul(s.window[k], wave[k].re));
            let part = ar(Op::Div(y, norm));
            &&& is_whole(s.frame_size(), n)
            &&& is_whole(s.oversampling, over)
            &&& is_quotient(n, num(TWO), half)
            &&& is_product(half, over, norm)
            &&& is_product(s.window[k], wave[k].re, y)
            &&& is_quotient(y, norm, part)
            &&& is_sum(s.output_accum[k], part, ar(Op::Add(s.output_accum[k], part)))
        }),
    ensures
        (vocoder_sum(ar, s, wave)[k].units() - s.output_accum[k].units()) * s.frame_size()
            * s.oversampling * unit() == 2 * s.window[k].units() * wave[k].re.units(),
{
    small_numbers_are_what_they_are_called();
    let (n, over) = (
        ar(Op::FromInt(s.frame_size() as i128)),
        ar(Op::FromInt(s.oversampling as i128)),
    );
    let half = ar(Op::Div(n, num(TWO)));
    let norm = ar(Op::Mul(half, over));
    let y = ar(Op::Mul(s.window[k], wave[k].re));
    let part = ar(Op::Div(y, norm));
    let (u, f, o, h, m) = (unit(), s.frame_size(), s.oversampling, half.units(), norm.units());
    assert(2 * h == f * u) by (nonlinear_arith)
        requires
            h * (2 * u) == (f * u) * u,
            u > 0,
    ;
    assert(m == h * o) by (nonlinear_arith)
        requires
            m * u == h * (o * u),
            u > 0,
    ;
    let (w, r, yu, p) = (s.window[k].units(), wave[k].re.units(), y.units(), part.units());
    assert(p * f * o * u == 2 * w * r) by (nonlinear_arith)
        requires
            yu * u == w * r,
            p * m == yu * u,
            m == h * o,
            2 * h == f * u,
    ;
}

/// A ratio beyond an octave acts as the octave does.
pub proof fn vocoder_ratios_beyond_an_octave_count_as_the_octave(
    ar: Arith,
    tr: Transform,
    s: VocoderState,
    ratio: Scalar,
    input: Seq<Scalar>,
)
    requires
        !ratio.nan(),
    ensures
        ratio.units() > 2 * unit() ==> after_vocoder_block(ar, tr, s, ratio, input)
            == after_vocoder_block(ar, tr, s, num(TWO), input),
        2 * ratio.units() < unit() ==> after_vocoder_block(ar, tr, s, ratio, input)
            == after_vocoder_block(ar, tr, s, num(HALF), input),
        unit() <= 2 * ratio.units() <= 4 * unit() && input.len() > 0 ==> after_vocoder_block(
            ar,
            tr,
            s,
            ratio,
            input,
        ) == after_vocoder_sample(
            ar,
            tr,
            after_vocoder_block(ar, tr, s, ratio, input.drop_last()),
            ratio,
            input.last(),
        ),
    decreases input.len(),
{
    small_numbers_are_what_they_are_called();
    if input.len() > 0 {
        vocoder_ratios_beyond_an_octave_count_as_the_octave(ar, tr, s, ratio, input.drop_last());
    }
}

/// A shifter keeps what it was laid out for, whatever it is fed.
pub proof fn vocoder_keeps_its_layout(
    ar: Arith,
    tr: Transform,
    s: VocoderState,
    ratio: Scalar,
    input: Seq<Scalar>,
)
    ensures
        ({
            let t = after_vocoder_block(ar, tr, s, ratio, input);
            &&& t.freq_per_bin == s.freq_per_bin
            &&& t.expected == s.expected
            &&& t.oversampling == s.oversampling
            &&& t.step_size == s.step_size
            &&& t.window == s.window
        }),
    decreases input.len(),
{
    if input.len() > 0 {
        vocoder_keeps_its_layout(ar, tr, s, ratio, input.drop_last());
    }
}

/// A frame is shifted when a step of samples has come in: its samples under the window are
/// transformed, each bin gives its magnitude, its phase and the frequency that the phase shows,
/// all bins are moved by the ratio, and what the spectrum of the moved ones is transformed back to
/// is added to the output, of which a step is then ready; the frame moves on by that step.
pub proof fn vocoder_shifts_a_frame_at_every_step(
    ar: Arith,
    tr: Transform,
    s: VocoderState,
    ratio: Scalar,
    x: Scalar,
    k: int,
    i: int,
)
    requires
        s.wf(),
        s.usable(),
        0 <= k < s.bins(),
        0 <= i < s.step_size,
    ensures
        ({
            let t = after_vocoder_sample(ar, tr, s, ratio, x);
            let frame = s.in_fifo.update(s.rover, x);
            let full = VocoderState { in_fifo: frame, rover: s.latency(), ..s };
            let windowed = Seq::new(
                frame.len(),
                |j: int| Complex { re: ar(Op::Mul(frame[j], s.window[j])), im: num(ZERO) },
            );
            let seen = tr(false, windowed);
            let bins = Bins {
                magnitude: Seq::new(s.bins(), |j: int| magnitude_of(ar, seen[j])),
                frequency: Seq::new(
                    s.bins(),
                    |j: int| true_frequency(ar, full, j, ar(Op::Atan2(seen[j].im, seen[j].re))),
                ),
            };
            let moved = moved_bins(ar, bins, ratio, s.bins() as int);
            let sum = vocoder_sum(ar, full, tr(true, output_spectrum(ar, full, moved)));
            &&& s.rover + 1 < s.frame_size() ==> t == (VocoderState {
                in_fifo: frame,
                rover: s.rover + 1,
                ..s
            })
            &&& s.rover + 1 == s.frame_size() ==> {
                &&& t.last_phase[k] == ar(Op::Atan2(seen[k].im, seen[k].re))
                &&& t.sum_phase[k] == next_phases(ar, full, moved)[k]
                &&& t.out_fifo[i] == sum[i]
                &&& t.rover == s.latency()
                &&& forall|j: int|
                    0 <= j < s.frame_size() ==> #[trigger] t.output_accum[j] == sum[j
                        + s.step_size]
                &&& forall|j: int|
                    0 <= j < s.latency() ==> #[trigger] t.in_fifo[j] == frame[j + s.step_size]
            }
        }),
{
    let frame = s.in_fifo.update(s.rover, x);
    let full = VocoderState { in_fifo: frame, rover: s.latency(), ..s };
    let windowed = Seq::new(
        frame.len(),
        |j: int| Complex { re: ar(Op::Mul(frame[j], s.window[j])), im: num(ZERO) },
    );
    assert(windowed_frame(ar, full) =~= windowed);
    let seen = tr(false, windowed);
    let bins = Bins {
        magnitude: Seq::new(s.bins(), |j: int| magnitude_of(ar, seen[j])),
        frequency: Seq::new(
            s.bins(),
            |j: int| true_frequency(ar, full, j, ar(Op::Atan2(seen[j].im, seen[j].re))),
        ),
    };
    let a = analysed(ar, full, seen);
    assert(a.magnitude =~= bins.magnitude);
    assert(a.frequency =~= bins.frequency);
}

/// A shifter starts with nothing but silence in it, under the Hann window of its frame.
pub proof fn vocoder_starts_at_rest(ar: Arith, rate: Scalar, cfg: PitchShiftConfig)
    ensures
        ({
            let s = vocoder_at_rest(ar, rate, cfg);
            let n = cfg.frame_size as nat;
            let bins = (n / 2 + 1) as nat;
            &&& s.window == hann(ar, n)
            &&& s.in_fifo == Seq::new(n, |i: int| num(ZERO))
            &&& s.out_fifo == Seq::new(n, |i: int| num(ZERO))
            &&& s.output_accum == Seq::new(2 * n, |i: int| num(ZERO))
            &&& s.last_phase == Seq::new(bins, |i: int| num(ZERO))
            &&& s.sum_phase == Seq::new(bins, |i: int| num(ZERO))
            &&& s.rover == n - s.step_size
        }),
{
    let s = vocoder_at_rest(ar, rate, cfg);
    let n = cfg.frame_size as nat;
    let bins = (n / 2 + 1) as nat;
    assert(s.in_fifo =~= Seq::new(n, |i: int| num(ZERO)));
    assert(s.output_accum =~= Seq::new(2 * n, |i: int| num(ZERO)));
    assert(s.last_phase =~= Seq::new(bins, |i: int| num(ZERO)));
}

} // verus!
