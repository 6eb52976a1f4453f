//! Pitch shifting by pitch-synchronous overlap-add: grains of two periods are cut around the
//! pitch marks of a frame and laid down again at another spacing.
use vstd::prelude::*;

use crate::arith::{apply, is_arithmetic, results, Arith, Op};
use crate::buffer::{
    clear, copy_into, hann, hann_at, hann_value, hann_window, move_left, moved_left, silence,
    silent, FULL_TURN,
};
use crate::marks::{
    advance_to_nearest, analysis_marks, find_marks, is_nearest_mark, lay_marks,
    marks_keep_a_period_clear, nearest_mark, synthesis_marks,
    synthesis_marks_are_spaced,
};
use crate::scalar::{num, Scalar, HALF, MINUS_ONE, ONE, TWO, ZERO};
use crate::smoothing::{blend, blended, coeff_from_time_ms, decay};

verus! {

/// 40, the lowest frequency in hertz that counts as voiced.
pub const LOWEST_VOICED_HZ: u32 = 0x4220_0000;

/// 0.22, the share of sign changes from which on a frame counts as unvoiced.
pub const UNVOICED_CROSSINGS: u32 = 0x3e61_47ae;

/// 24, the shortest period in samples.
pub const SHORTEST_PERIOD: u32 = 0x41c0_0000;

/// 1e-6, the sum of weights up to which nothing is divided by it.
pub const TINY_WEIGHT: u32 = 0x3586_37bd;

/// 20, the milliseconds over which voiced and unvoiced frames are faded.
pub const TRANSITION_MS: u32 = 0x41a0_0000;

/// 15, the milliseconds over which the period is smoothed.
pub const PERIOD_MS: u32 = 0x4170_0000;

#[derive(Debug, Clone, Copy)]
pub struct PsolaConfig {
    pub frame_size: usize,
    pub overlap: usize,
}

/// `p` doubled until it is at least `n`.
pub open spec fn doubled_until(p: nat, n: nat) -> nat
    decreases 2 * n - p,
{
    if p >= n || p == 0 {
        p
    } else {
        doubled_until(2 * p, n)
    }
}

/// The frame size of a configuration: a power of two, at least 256 and at least what is asked.
pub open spec fn frame_size_of(cfg: PsolaConfig) -> nat {
    doubled_until(
        1,
        if cfg.frame_size < 256 {
            256
        } else {
            cfg.frame_size as nat
        },
    )
}

/// The step of a configuration: what the overlap, at least 2, leaves of the frame, at least 1.
pub open spec fn step_size_of(cfg: PsolaConfig) -> nat {
    let overlap: nat = if cfg.overlap < 2 {
        2
    } else {
        cfg.overlap as nat
    };
    let step = frame_size_of(cfg) / overlap;
    if step < 1 {
        1
    } else {
        step
    }
}

proof fn lemma_doubled(p: nat, n: nat)
    requires
        p >= 1,
    ensures
        doubled_until(p, n) >= p,
        doubled_until(p, n) >= n,
    decreases 2 * n - p,
{
    if p < n {
        lemma_doubled(2 * p, n);
    }
}

fn power_of_two_from(n: usize) -> (r: usize)
    requires
        doubled_until(1, n as nat) <= usize::MAX,
    ensures
        r == doubled_until(1, n as nat),
{
    let mut p: usize = 1;
    proof {
        lemma_doubled(1, n as nat);
    }
    while p < n
        invariant
            p >= 1,
            doubled_until(p as nat, n as nat) == doubled_until(1, n as nat),
            doubled_until(1, n as nat) <= usize::MAX,
        decreases 2 * n - p,
    {
        proof {
            lemma_doubled(2 * p as nat, n as nat);
        }
        p = 2 * p;
    }
    p
}

/// The signal changes its sign from `a` to `b`.
pub open spec fn crosses_zero(a: Scalar, b: Scalar) -> bool {
    ||| num(ZERO).at_most(a) && b.below(num(ZERO))
    ||| a.below(num(ZERO)) && num(ZERO).at_most(b)
}

/// How often a signal changes its sign.
pub open spec fn crossings(x: Seq<Scalar>) -> nat
    decreases x.len(),
{
    if x.len() < 2 {
        0
    } else {
        crossings(x.drop_last()) + if crosses_zero(x[x.len() - 2], x.last()) {
            1nat
        } else {
            0nat
        }
    }
}

/// The share of neighbouring samples between which a signal changes its sign.
pub open spec fn crossing_rate(ar: Arith, x: Seq<Scalar>) -> Scalar {
    if x.len() < 2 {
        num(ZERO)
    } else {
        ar(
            Op::Div(
                ar(Op::FromInt(crossings(x) as i128)),
                ar(Op::FromInt((x.len() - 1) as i128)),
            ),
        )
    }
}

/// The share of neighbouring samples between which a signal changes its sign.
pub fn zero_crossing_rate<F: Fn(Op) -> Scalar>(x: &Vec<Scalar>, f: &F) -> (r: Scalar)
    requires
        is_arithmetic(*f),
    ensures
        r == crossing_rate(results(*f), x@),
{
    let n = x.len();
    if n < 2 {
        return num(ZERO);
    }
    let mut count: usize = 0;
    let mut i: usize = 1;
    assert(crossings(x@.take(1)) == 0);
    while i < n
        invariant
            1 <= i <= n,
            n == x@.len(),
            count == crossings(x@.take(i as int)),
            count < i,
        decreases n - i,
    {
        let a = x[i - 1];
        let b = x[i];
        proof {
            let t = x@.take(i + 1);
            assert(t.drop_last() =~= x@.take(i as int));
            assert(t[t.len() - 2] == a && t.last() == b);
        }
        if (num(ZERO).le(a) && b.lt(num(ZERO))) || (a.lt(num(ZERO)) && num(ZERO).le(b)) {
            count += 1;
        }
        i += 1;
    }
    assert(x@.take(n as int) =~= x@);
    apply(
        f,
        Op::Div(
            apply(f, Op::FromInt(count as i128)),
            apply(f, Op::FromInt((n - 1) as i128)),
        ),
    )
}

/// What a shifter remembers from one sample to the next.
pub struct PsolaState {
    pub sample_rate: Scalar,
    pub step_size: int,
    pub in_fifo: Seq<Scalar>,
    pub out_fifo: Seq<Scalar>,
    pub output_accum: Seq<Scalar>,
    pub gain_accum: Seq<Scalar>,
    pub window: Seq<Scalar>,
    /// The share of the old period that a frame keeps.
    pub period_coeff: Scalar,
    /// The smoothed period in samples; not positive before the first voiced frame.
    pub period: Scalar,
    /// How much of the shifted signal the output holds, against the unshifted one.
    pub voiced_mix: Scalar,
    /// The share of the old mix that a frame keeps.
    pub voiced_coeff: Scalar,
    /// Where the next sample is written.
    pub rover: int,
}

/// A sample that is a number lies within -1..=1.
pub open spec fn is_tame(x: Scalar) -> bool {
    !x.nan() ==> num(MINUS_ONE).at_most(x) && x.at_most(num(ONE))
}

impl PsolaState {
    pub open spec fn frame_size(self) -> int {
        self.in_fifo.len() as int
    }

    /// How much of a frame is kept from one step to the next.
    pub open spec fn latency(self) -> int {
        self.frame_size() - self.step_size
    }

    pub open spec fn max_marks(self) -> nat {
        if self.frame_size() / 8 < 16 {
            16
        } else {
            (self.frame_size() / 8) as nat
        }
    }

    pub open spec fn wf(self) -> bool {
        &&& self.in_fifo.len() * 8 <= isize::MAX
        &&& 1 <= self.step_size <= self.frame_size()
        &&& self.out_fifo.len() == self.frame_size()
        &&& self.window.len() == self.frame_size()
        &&& self.output_accum.len() == 2 * self.frame_size()
        &&& self.gain_accum.len() == 2 * self.frame_size()
        &&& self.latency() <= self.rover < self.frame_size()
        &&& forall|i: int| 0 <= i < self.out_fifo.len() ==> is_tame(#[trigger] self.out_fifo[i])
    }
}

/// A shifter that has seen no sample.
pub open spec fn fresh(ar: Arith, sample_rate: Scalar, cfg: PsolaConfig) -> PsolaState {
    let frame = frame_size_of(cfg);
    let step = step_size_of(cfg);
    PsolaState {
        sample_rate,
        step_size: step as int,
        in_fifo: silence(frame),
        out_fifo: silence(frame),
        output_accum: silence(2 * frame),
        gain_accum: silence(2 * frame),
        window: hann(ar, frame),
        period_coeff: decay(ar, num(PERIOD_MS), sample_rate, step as usize),
        period: num(ZERO),
        voiced_mix: num(ONE),
        voiced_coeff: decay(ar, num(TRANSITION_MS), sample_rate, step as usize),
        rover: frame - step,
    }
}

/// A frame counts as voiced: a pitch was detected, and its sign changes seldom enough.
pub open spec fn is_voiced(ar: Arith, x: Seq<Scalar>, detected_hz: Scalar) -> bool {
    &&& detected_hz.finite()
    &&& num(LOWEST_VOICED_HZ).at_most(detected_hz)
    &&& crossing_rate(ar, x).below(num(UNVOICED_CROSSINGS))
}

/// The longest period that a frame is searched for: a third of it.
pub open spec fn longest_period(ar: Arith, frame: int) -> Scalar {
    ar(Op::FromInt((frame / 3) as i128))
}

/// The smoothed period after a voiced frame.
pub open spec fn next_period(ar: Arith, s: PsolaState, detected_hz: Scalar) -> Scalar {
    let target = ar(Op::Div(s.sample_rate, detected_hz)).clamped(
        num(SHORTEST_PERIOD),
        longest_period(ar, s.frame_size()),
    );
    if s.period.at_most(num(ZERO)) {
        target
    } else {
        blended(ar, s.period_coeff, s.period, target)
    }
}

/// A period in whole samples.
pub open spec fn whole_period(ar: Arith, frame: int, period: Scalar) -> usize {
    ar(Op::Round(period)).clamped(num(SHORTEST_PERIOD), longest_period(ar, frame)).count()
}

/// The spacing of the grains that gives the pitch ratio, in whole samples.
pub open spec fn grain_spacing(ar: Arith, period: usize, ratio: Scalar) -> usize {
    ar(Op::Round(ar(Op::Div(ar(Op::FromInt(period as i128)), ratio)))).larger(num(ONE)).count()
}

/// The weight of a grain at `k` samples from its mark.
pub open spec fn grain_weight(ar: Arith, k: int, radius: int) -> Scalar {
    let along = ar(
        Op::Div(
            ar(Op::Add(ar(Op::FromInt(k as i128)), ar(Op::FromInt(radius as i128)))),
            ar(Op::Mul(num(TWO), ar(Op::FromInt(radius as i128)))).larger(num(ONE)),
        ),
    );
    hann_at(ar, ar(Op::Mul(num(FULL_TURN), along)))
}

/// The grain around `from` reaches the position `i` when it is laid around `to`.
pub open spec fn reaches(frame: int, radius: int, from: int, to: int, i: int) -> bool {
    -radius <= i - to <= radius && 0 <= from + (i - to) < frame
}

/// The samples laid down so far and the sum of the weights at each position.
pub struct Laid {
    pub samples: Seq<Scalar>,
    pub weights: Seq<Scalar>,
}

/// The grain around `from`, laid around `to` on top of what was laid before.
pub open spec fn with_grain(
    ar: Arith,
    x: Seq<Scalar>,
    radius: int,
    from: int,
    to: int,
    laid: Laid,
) -> Laid {
    Laid {
        samples: Seq::new(
            x.len(),
            |i: int|
                if reaches(x.len() as int, radius, from, to, i) {
                    ar(
                        Op::Add(
                            laid.samples[i],
                            ar(Op::Mul(x[from + (i - to)], grain_weight(ar, i - to, radius))),
                        ),
                    )
                } else {
                    laid.samples[i]
                },
        ),
        weights: Seq::new(
            x.len(),
            |i: int|
                if reaches(x.len() as int, radius, from, to, i) {
                    ar(Op::Add(laid.weights[i], grain_weight(ar, i - to, radius)))
                } else {
                    laid.weights[i]
                },
        ),
    }
}

/// The grains of the first `n` synthesis marks, each cut around the nearest analysis mark.
pub open spec fn with_grains(
    ar: Arith,
    x: Seq<Scalar>,
    radius: int,
    analysis: Seq<usize>,
    synthesis: Seq<usize>,
    n: nat,
) -> Laid
    decreases n,
{
    if n == 0 {
        Laid { samples: silence(x.len()), weights: silence(x.len()) }
    } else {
        let to = synthesis[n - 1];
        let from = analysis[nearest_mark(analysis, to)];
        with_grain(
            ar,
            x,
            radius,
            from as int,
            to as int,
            with_grains(ar, x, radius, analysis, synthesis, (n - 1) as nat),
        )
    }
}

/// What was laid down, divided by the weights where they add up to something.
pub open spec fn levelled(ar: Arith, laid: Laid) -> Seq<Scalar> {
    Seq::new(
        laid.samples.len(),
        |i: int|
            if num(TINY_WEIGHT).below(laid.weights[i]) {
                ar(Op::Div(laid.samples[i], laid.weights[i]))
            } else {
                laid.samples[i]
            },
    )
}

/// A voiced frame with its pitch shifted; the frame itself where too few marks are found.
pub open spec fn shifted(
    ar: Arith,
    x: Seq<Scalar>,
    period: usize,
    spacing: usize,
    max_marks: nat,
) -> Seq<Scalar> {
    let analysis = analysis_marks(ar, x, period as int, max_marks);
    let synthesis = synthesis_marks(
        x.len() as int,
        spacing as int,
        period as int,
        max_marks as int,
    );
    if analysis.len() >= 2 && synthesis.len() >= 1 {
        levelled(ar, with_grains(ar, x, period as int, analysis, synthesis, synthesis.len()))
    } else {
        x
    }
}

/// `wet` of one signal and the rest of another.
pub open spec fn crossfaded(
    ar: Arith,
    wet: Scalar,
    new: Seq<Scalar>,
    old: Seq<Scalar>,
) -> Seq<Scalar> {
    Seq::new(
        old.len(),
        |i: int|
            ar(
                Op::Add(
                    ar(Op::Mul(wet, new[i])),
                    ar(Op::Mul(ar(Op::Sub(num(ONE), wet)), old[i])),
                ),
            ),
    )
}

/// The shifted frame, faded against the unshifted one.
pub open spec fn frame_output(
    ar: Arith,
    s: PsolaState,
    ratio: Scalar,
    detected_hz: Scalar,
) -> Seq<Scalar> {
    let voiced = is_voiced(ar, s.in_fifo, detected_hz);
    let wet = next_mix(ar, s, detected_hz);
    if voiced {
        let period = whole_period(ar, s.frame_size(), next_period(ar, s, detected_hz));
        let spacing = grain_spacing(ar, period, ratio);
        crossfaded(ar, wet, shifted(ar, s.in_fifo, period, spacing, s.max_marks()), s.in_fifo)
    } else {
        crossfaded(ar, wet, silence(s.in_fifo.len()), s.in_fifo)
    }
}

/// The mix after a frame: towards 1 where it is voiced, towards 0 where not.
pub open spec fn next_mix(ar: Arith, s: PsolaState, detected_hz: Scalar) -> Scalar {
    blended(
        ar,
        s.voiced_coeff,
        s.voiced_mix,
        if is_voiced(ar, s.in_fifo, detected_hz) {
            num(ONE)
        } else {
            num(ZERO)
        },
    )
}

/// The output of the frames added up, with the window of a frame's own added.
pub open spec fn added_output(ar: Arith, s: PsolaState, frame: Seq<Scalar>) -> Seq<Scalar> {
    Seq::new(
        s.output_accum.len(),
        |i: int|
            if i < s.frame_size() {
                ar(Op::Add(s.output_accum[i], ar(Op::Mul(frame[i], s.window[i]))))
            } else {
                s.output_accum[i]
            },
    )
}

/// The windows added up.
pub open spec fn added_gain(ar: Arith, s: PsolaState) -> Seq<Scalar> {
    Seq::new(
        s.gain_accum.len(),
        |i: int|
            if i < s.frame_size() {
                ar(Op::Add(s.gain_accum[i], s.window[i]))
            } else {
                s.gain_accum[i]
            },
    )
}

/// A sample of the sum, divided by the sum of its windows and kept within -1..=1.
pub open spec fn normalised(ar: Arith, output: Scalar, gain: Scalar) -> Scalar {
    if num(TINY_WEIGHT).below(gain) {
        ar(Op::Div(output, gain)).clamped(num(MINUS_ONE), num(ONE))
    } else {
        num(ZERO)
    }
}

/// The shifter after the frame in its input was shifted and added to its output.
pub open spec fn after_frame(
    ar: Arith,
    s: PsolaState,
    ratio: Scalar,
    detected_hz: Scalar,
) -> PsolaState {
    let frame = frame_output(ar, s, ratio, detected_hz);
    let output = added_output(ar, s, frame);
    let gain = added_gain(ar, s);
    PsolaState {
        in_fifo: moved_left(s.in_fifo, s.step_size, s.latency()),
        out_fifo: Seq::new(
            s.out_fifo.len(),
            |i: int|
                if i < s.step_size {
                    normalised(ar, output[i], gain[i])
                } else {
                    s.out_fifo[i]
                },
        ),
        output_accum: moved_left(output, s.step_size, s.frame_size()),
        gain_accum: moved_left(gain, s.step_size, s.frame_size()),
        period: if is_voiced(ar, s.in_fifo, detected_hz) {
            next_period(ar, s, detected_hz)
        } else {
            s.period
        },
        voiced_mix: next_mix(ar, s, detected_hz),
        ..s
    }
}

/// What is read when a sample is written.
pub open spec fn sample_out(s: PsolaState) -> Scalar {
    let y = s.out_fifo[s.rover - s.latency()];
    if y.finite() {
        y
    } else {
        num(ZERO)
    }
}

/// The shifter after a sample was written.
pub open spec fn after_sample(
    ar: Arith,
    s: PsolaState,
    ratio: Scalar,
    detected_hz: Scalar,
    x: Scalar,
) -> PsolaState {
    let written = PsolaState { in_fifo: s.in_fifo.update(s.rover, x), rover: s.rover + 1, ..s };
    if written.rover >= written.frame_size() {
        after_frame(ar, PsolaState { rover: s.latency(), ..written }, ratio, detected_hz)
    } else {
        written
    }
}

/// The pitch ratio, kept within an octave down and an octave up.
pub open spec fn octave_range(ratio: Scalar) -> Scalar {
    ratio.clamped(num(HALF), num(TWO))
}

/// The shifter after a block was written.
pub open spec fn after_block(
    ar: Arith,
    s: PsolaState,
    ratio: Scalar,
    detected_hz: Scalar,
    input: Seq<Scalar>,
) -> PsolaState
    decreases input.len(),
{
    if input.len() == 0 {
        s
    } else {
        after_sample(
            ar,
            after_block(ar, s, ratio, detected_hz, input.drop_last()),
            octave_range(ratio),
            detected_hz,
            input.last(),
        )
    }
}

/// What is read when a block is written.
pub open spec fn block_out(
    ar: Arith,
    s: PsolaState,
    ratio: Scalar,
    detected_hz: Scalar,
    input: Seq<Scalar>,
) -> Seq<Scalar> {
    Seq::new(
        input.len(),
        |i: int| sample_out(after_block(ar, s, ratio, detected_hz, input.take(i))),
    )
}

pub struct PsolaShifter {
    frame_size: usize,
    step_size: usize,
    latency: usize,
    sample_rate: Scalar,
    in_fifo: Vec<Scalar>,
    out_fifo: Vec<Scalar>,
    output_accum: Vec<Scalar>,
    gain_accum: Vec<Scalar>,
    psola_frame: Vec<Scalar>,
    weight_frame: Vec<Scalar>,
    ola_window: Vec<Scalar>,
    analysis_marks: Vec<usize>,
    synthesis_marks: Vec<usize>,
    max_marks: usize,
    period_smooth_coeff: Scalar,
    period_samples_smooth: Scalar,
    voiced_mix: Scalar,
    voiced_mix_coeff: Scalar,
    rover: usize,
}

impl View for PsolaShifter {
    type V = PsolaState;

    closed spec fn view(&self) -> PsolaState {
        PsolaState {
            sample_rate: self.sample_rate,
            step_size: self.step_size as int,
            in_fifo: self.in_fifo@,
            out_fifo: self.out_fifo@,
            output_accum: self.output_accum@,
            gain_accum: self.gain_accum@,
            window: self.ola_window@,
            period_coeff: self.period_smooth_coeff,
            period: self.period_samples_smooth,
            voiced_mix: self.voiced_mix,
            voiced_coeff: self.voiced_mix_coeff,
            rover: self.rover as int,
        }
    }
}

impl PsolaShifter {
    /// The buffers have the sizes that the frame gives them, and the sample that is written
    /// next lies in the part of the frame that a step fills.
    pub open spec fn wf(self) -> bool {
        &&& self@.wf()
        &&& self.fields_wf()
    }

    pub closed spec fn fields_wf(self) -> bool {
        &&& self.frame_size == self@.frame_size()
        &&& self.latency == self@.latency()
        &&& self.max_marks == self@.max_marks()
        &&& self.psola_frame@.len() == self.frame_size
        &&& self.weight_frame@.len() == self.frame_size
    }

    /// A shifter at rest. A frame takes 8 bytes a sample at most in one buffer, which must be
    /// within what can be allocated.
    pub fn new<F: Fn(Op) -> Scalar>(sample_rate: Scalar, cfg: PsolaConfig, f: &F) -> (r: Self)
        requires
            is_arithmetic(*f),
            frame_size_of(cfg) * 8 <= isize::MAX,
        ensures
            r.wf(),
            r@ == fresh(results(*f), sample_rate, cfg),
    {
        let asked: usize = if cfg.frame_size < 256 {
            256
        } else {
            cfg.frame_size
        };
        let frame_size = power_of_two_from(asked);
        proof {
            lemma_doubled(1, asked as nat);
        }
        let overlap: usize = if cfg.overlap < 2 {
            2
        } else {
            cfg.overlap
        };
        let share: usize = frame_size / overlap;
        let step_size: usize = if share < 1 {
            1
        } else {
            share
        };
        proof {
            vstd::arithmetic::div_mod::lemma_div_is_ordered_by_denominator(
                frame_size as int,
                2,
                overlap as int,
            );
        }
        let latency = frame_size - step_size;
        let eighth: usize = frame_size / 8;
        let max_marks: usize = if eighth < 16 {
            16
        } else {
            eighth
        };
        PsolaShifter {
            frame_size,
            step_size,
            latency,
            sample_rate,
            in_fifo: silent(frame_size),
            out_fifo: silent(frame_size),
            output_accum: silent(frame_size * 2),
            gain_accum: silent(frame_size * 2),
            psola_frame: silent(frame_size),
            weight_frame: silent(frame_size),
            ola_window: hann_window(frame_size, f),
            analysis_marks: Vec::with_capacity(max_marks),
            synthesis_marks: Vec::with_capacity(max_marks),
            max_marks,
            period_smooth_coeff: coeff_from_time_ms(num(PERIOD_MS), sample_rate, step_size, f),
            period_samples_smooth: num(ZERO),
            voiced_mix: num(ONE),
            voiced_mix_coeff: coeff_from_time_ms(num(TRANSITION_MS), sample_rate, step_size, f),
            rover: latency,
        }
    }

    /// Writes a block and reads one of the same length: the shifted signal, a frame behind.
    pub fn process_block<F: Fn(Op) -> Scalar>(
        &mut self,
        pitch_ratio: Scalar,
        detected_pitch_hz: Scalar,
        input: &[Scalar],
        output: &mut [Scalar],
        f: &F,
    )
        requires
            old(self).wf(),
            input@.len() == old(output)@.len(),
            is_arithmetic(*f),
        ensures
            final(self).wf(),
            final(self)@ == after_block(
                results(*f),
                old(self)@,
                pitch_ratio,
                detected_pitch_hz,
                input@,
            ),
            final(output)@ == block_out(
                results(*f),
                old(self)@,
                pitch_ratio,
                detected_pitch_hz,
                input@,
            ),
    {
        let ratio = pitch_ratio.clamp(num(HALF), num(TWO));
        let ghost ar = results(*f);
        let n = input.len();
        let mut i: usize = 0;
        assert(input@.take(0) =~= seq![]);
        while i < n
            invariant
                i <= n,
                n == input@.len(),
                n == output@.len(),
                is_arithmetic(*f),
                ar == results(*f),
                ratio == octave_range(pitch_ratio),
                self.wf(),
                self@ == after_block(
                    ar,
                    old(self)@,
                    pitch_ratio,
                    detected_pitch_hz,
                    input@.take(i as int),
                ),
                forall|j: int|
                    0 <= j < i ==> output@[j] == block_out(
                        ar,
                        old(self)@,
                        pitch_ratio,
                        detected_pitch_hz,
                        input@,
                    )[j],
            decreases n - i,
        {
            let ghost before = self@;
            assert(input@.take(i + 1).drop_last() =~= input@.take(i as int));
            output[i] = self.process_sample(ratio, detected_pitch_hz, input[i], f);
            i += 1;
        }
        assert(input@.take(n as int) =~= input@);
    }

    fn process_sample<F: Fn(Op) -> Scalar>(
        &mut self,
        ratio: Scalar,
        detected_pitch_hz: Scalar,
        x: Scalar,
        f: &F,
    ) -> (r: Scalar)
        requires
            old(self).wf(),
            is_arithmetic(*f),
        ensures
            final(self).wf(),
            final(self)@ == after_sample(results(*f), old(self)@, ratio, detected_pitch_hz, x),
            r == sample_out(old(self)@),
    {
        let rover = self.rover;
        self.in_fifo[rover] = x;
        let y = self.out_fifo[rover - self.latency];
        let out = if y.is_finite() {
            y
        } else {
            num(ZERO)
        };
        if rover + 1 >= self.frame_size {
            self.rover = self.latency;
            self.process_frame(ratio, detected_pitch_hz, f);
        } else {
            self.rover = rover + 1;
        }
        out
    }

    fn process_frame<F: Fn(Op) -> Scalar>(
        &mut self,
        ratio: Scalar,
        detected_pitch_hz: Scalar,
        f: &F,
    )
        requires
            old(self).wf(),
            is_arithmetic(*f),
        ensures
            final(self).wf(),
            final(self)@ == after_frame(results(*f), old(self)@, ratio, detected_pitch_hz),
    {
        let ghost ar = results(*f);
        let ghost s = old(self)@;
        clear(&mut self.psola_frame);
        clear(&mut self.weight_frame);
        let voiced_candidate = detected_pitch_hz.is_finite() && num(LOWEST_VOICED_HZ).le(
            detected_pitch_hz,
        );
        let zcr = zero_crossing_rate(&self.in_fifo, f);
        let voiced = voiced_candidate && zcr.lt(num(UNVOICED_CROSSINGS));
        let target_mix = if voiced {
            num(ONE)
        } else {
            num(ZERO)
        };
        self.voiced_mix = blend(self.voiced_mix_coeff, self.voiced_mix, target_mix, f);
        if voiced {
            self.shift_voiced(ratio, detected_pitch_hz, f);
        }
        let wet = self.voiced_mix;
        self.crossfade(wet, f);
        self.overlap_add_frame(f);
        self.shift_state();
        assert(self@.out_fifo =~= after_frame(ar, s, ratio, detected_pitch_hz).out_fifo);
    }

    /// Updates the period and leaves the shifted frame in `psola_frame`.
    fn shift_voiced<F: Fn(Op) -> Scalar>(
        &mut self,
        ratio: Scalar,
        detected_pitch_hz: Scalar,
        f: &F,
    )
        requires
            old(self).wf(),
            is_arithmetic(*f),
            old(self).psola_frame@ == silence(old(self).frame_size as nat),
            old(self).weight_frame@ == silence(old(self).frame_size as nat),
        ensures
            final(self).wf(),
            final(self)@ == (PsolaState {
                period: next_period(results(*f), old(self)@, detected_pitch_hz),
                ..old(self)@
            }),
            ({
                let ar = results(*f);
                let period = whole_period(ar, old(self)@.frame_size(), final(self)@.period);
                final(self).psola_frame@ == shifted(
                    ar,
                    old(self)@.in_fifo,
                    period,
                    grain_spacing(ar, period, ratio),
                    old(self)@.max_marks(),
                )
            }),
    {
        let longest = apply(f, Op::FromInt((self.frame_size / 3) as i128));
        let period_target = apply(f, Op::Div(self.sample_rate, detected_pitch_hz)).clamp(
            num(SHORTEST_PERIOD),
            longest,
        );
        if self.period_samples_smooth.le(num(ZERO)) {
            self.period_samples_smooth = period_target;
        } else {
            self.period_samples_smooth = blend(
                self.period_smooth_coeff,
                self.period_samples_smooth,
                period_target,
                f,
            );
        }
        let period_a = apply(f, Op::Round(self.period_samples_smooth)).clamp(
            num(SHORTEST_PERIOD),
            longest,
        ).to_usize();
        let exact = apply(f, Op::Div(apply(f, Op::FromInt(period_a as i128)), ratio));
        let period_s = apply(f, Op::Round(exact)).max(num(ONE)).to_usize();
        let analysis_count = self.detect_pitch_marks(period_a, f);
        let synthesis_count = self.generate_synthesis_marks(period_s, period_a);
        proof {
            let (frame, limit) = (self@.frame_size(), self@.max_marks());
            marks_keep_a_period_clear(results(*f), self@.in_fifo, period_a as int, limit);
            synthesis_marks_are_spaced(frame, period_s as int, period_a as int, limit as int);
        }
        if analysis_count >= 2 && synthesis_count >= 1 {
            self.psola_overlap_grains(period_a, f);
        } else {
            copy_into(&self.in_fifo, &mut self.psola_frame);
        }
    }

    fn detect_pitch_marks<F: Fn(Op) -> Scalar>(&mut self, period_a: usize, f: &F) -> (count:
        usize)
        requires
            old(self).wf(),
            is_arithmetic(*f),
        ensures
            final(self)@ == old(self)@,
            final(self).wf(),
            final(self).analysis_marks@ == analysis_marks(
                results(*f),
                old(self)@.in_fifo,
                period_a as int,
                old(self)@.max_marks(),
            ),
            count == final(self).analysis_marks@.len(),
            final(self).psola_frame == old(self).psola_frame,
            final(self).weight_frame == old(self).weight_frame,
    {
        find_marks(&self.in_fifo, period_a, self.max_marks, &mut self.analysis_marks, f);
        self.analysis_marks.len()
    }

    fn generate_synthesis_marks(&mut self, period_s: usize, radius: usize) -> (count: usize)
        requires
            old(self).wf(),
        ensures
            final(self)@ == old(self)@,
            final(self).wf(),
            final(self).synthesis_marks@ == synthesis_marks(
                old(self)@.frame_size(),
                period_s as int,
                radius as int,
                old(self)@.max_marks() as int,
            ),
            count == final(self).synthesis_marks@.len(),
            final(self).analysis_marks == old(self).analysis_marks,
            final(self).psola_frame == old(self).psola_frame,
            final(self).weight_frame == old(self).weight_frame,
    {
        lay_marks(
            self.frame_size,
            period_s,
            radius,
            self.max_marks,
            &mut self.synthesis_marks,
        );
        self.synthesis_marks.len()
    }

    fn psola_overlap_grains<F: Fn(Op) -> Scalar>(&mut self, radius: usize, f: &F)
        requires
            old(self).wf(),
            is_arithmetic(*f),
            radius < old(self).frame_size,
            old(self).analysis_marks@.len() >= 1,
            forall|i: int, j: int|
                0 <= i <= j < old(self).analysis_marks@.len() ==> old(self).analysis_marks@[i]
                    <= old(self).analysis_marks@[j],
            forall|i: int|
                0 <= i < old(self).analysis_marks@.len() ==> #[trigger] old(self).analysis_marks@[i] < old(self).frame_size,
            forall|i: int, j: int|
                0 <= i <= j < old(self).synthesis_marks@.len() ==> old(self).synthesis_marks@[i]
                    <= old(self).synthesis_marks@[j],
            forall|i: int|
                0 <= i < old(self).synthesis_marks@.len() ==> #[trigger] old(self).synthesis_marks@[i] < old(self).frame_size,
            old(self).psola_frame@ == silence(old(self).frame_size as nat),
            old(self).weight_frame@ == silence(old(self).frame_size as nat),
        ensures
            final(self).wf(),
            final(self)@ == old(self)@,
            final(self).psola_frame@ == levelled(
                results(*f),
                with_grains(
                    results(*f),
                    old(self)@.in_fifo,
                    radius as int,
                    old(self).analysis_marks@,
                    old(self).synthesis_marks@,
                    old(self).synthesis_marks@.len(),
                ),
            ),
    {
        let ghost ar = results(*f);
        let ghost x = self.in_fifo@;
        let ghost marks = self.analysis_marks@;
        let ghost places = self.synthesis_marks@;
        let count = self.synthesis_marks.len();
        let mut a_ptr: usize = 0;
        let mut earlier: usize = 0;
        let mut s_idx: usize = 0;
        while s_idx < count
            invariant
                s_idx <= count,
                count == places.len(),
                is_arithmetic(*f),
                ar == results(*f),
                self.wf(),
                self@ == old(self)@,
                x == self.in_fifo@,
                marks == self.analysis_marks@,
                places == self.synthesis_marks@,
                radius < self.frame_size,
                forall|i: int, j: int| 0 <= i <= j < marks.len() ==> marks[i] <= marks[j],
                forall|i: int| 0 <= i < marks.len() ==> #[trigger] marks[i] < self.frame_size,
                forall|i: int, j: int| 0 <= i <= j < places.len() ==> places[i] <= places[j],
                forall|i: int| 0 <= i < places.len() ==> #[trigger] places[i] < self.frame_size,
                a_ptr < marks.len(),
                a_ptr == 0 || is_nearest_mark(marks, earlier, a_ptr as int),
                s_idx < count ==> earlier <= places[s_idx as int],
                ({
                    let laid = with_grains(ar, x, radius as int, marks, places, s_idx as nat);
                    self.psola_frame@ == laid.samples && self.weight_frame@ == laid.weights
                }),
            decreases count - s_idx,
        {
            let s_mark = self.synthesis_marks[s_idx];
            a_ptr = advance_to_nearest(&self.analysis_marks, a_ptr, earlier, s_mark);
            let a_mark = self.analysis_marks[a_ptr];
            self.lay_grain(radius, a_mark, s_mark, f);
            earlier = s_mark;
            s_idx += 1;
        }
        let ghost laid = with_grains(ar, x, radius as int, marks, places, count as nat);
        let n = self.frame_size;
        let mut i: usize = 0;
        while i < n
            invariant
                i <= n,
                n == self.frame_size,
                is_arithmetic(*f),
                ar == results(*f),
                self.wf(),
                self@ == old(self)@,
                laid.samples.len() == n,
                self.weight_frame@ == laid.weights,
                forall|j: int| 0 <= j < i ==> self.psola_frame@[j] == levelled(ar, laid)[j],
                forall|j: int| i <= j < n ==> self.psola_frame@[j] == laid.samples[j],
            decreases n - i,
        {
            let denom = self.weight_frame[i];
            if num(TINY_WEIGHT).lt(denom) {
                let y = self.psola_frame[i];
                self.psola_frame[i] = apply(f, Op::Div(y, denom));
            }
            i += 1;
        }
        assert(self.psola_frame@ =~= levelled(ar, laid));
    }

    fn lay_grain<F: Fn(Op) -> Scalar>(&mut self, radius: usize, from: usize, to: usize, f: &F)
        requires
            old(self).wf(),
            is_arithmetic(*f),
            radius < old(self).frame_size,
            from < old(self).frame_size,
            to < old(self).frame_size,
        ensures
            final(self).wf(),
            final(self)@ == old(self)@,
            final(self).analysis_marks == old(self).analysis_marks,
            final(self).synthesis_marks == old(self).synthesis_marks,
            ({
                let laid = with_grain(
                    results(*f),
                    old(self)@.in_fifo,
                    radius as int,
                    from as int,
                    to as int,
                    Laid {
                        samples: old(self).psola_frame@,
                        weights: old(self).weight_frame@,
                    },
                );
                final(self).psola_frame@ == laid.samples && final(self).weight_frame@
                    == laid.weights
            }),
    {
        let ghost ar = results(*f);
        let ghost r = radius as int;
        let ghost before = Laid {
            samples: old(self).psola_frame@,
            weights: old(self).weight_frame@,
        };
        let ghost after = with_grain(
            ar,
            old(self)@.in_fifo,
            r,
            from as int,
            to as int,
            before,
        );
        let n = self.frame_size;
        let end: usize = 2 * radius + 1;
        let mut j: usize = 0;
        while j < end
            invariant
                j <= end,
                end == 2 * r + 1,
                r == radius,
                radius < n,
                from < n,
                to < n,
                n == self.frame_size,
                is_arithmetic(*f),
                ar == results(*f),
                self.wf(),
                self@ == old(self)@,
                self.analysis_marks == old(self).analysis_marks,
                self.synthesis_marks == old(self).synthesis_marks,
                before.samples.len() == n,
                before.weights.len() == n,
                after == with_grain(ar, self@.in_fifo, r, from as int, to as int, before),
                forall|i: int|
                    0 <= i < n ==> #[trigger] self.psola_frame@[i] == if i - to < j - r {
                        after.samples[i]
                    } else {
                        before.samples[i]
                    },
                forall|i: int|
                    0 <= i < n ==> #[trigger] self.weight_frame@[i] == if i - to < j - r {
                        after.weights[i]
                    } else {
                        before.weights[i]
                    },
            decreases end - j,
        {
            if from + j >= radius && to + j >= radius {
                let si: usize = from + j - radius;
                let so: usize = to + j - radius;
                if si < n && so < n {
                    let k: i128 = j as i128 - radius as i128;
                    let sum = apply(
                        f,
                        Op::Add(
                            apply(f, Op::FromInt(k)),
                            apply(f, Op::FromInt(radius as i128)),
                        ),
                    );
                    let width = apply(
                        f,
                        Op::Mul(num(TWO), apply(f, Op::FromInt(radius as i128))),
                    ).max(num(ONE));
                    let along = apply(f, Op::Div(sum, width));
                    let w = hann_value(apply(f, Op::Mul(num(FULL_TURN), along)), f);
                    let y = self.psola_frame[so];
                    let part = apply(f, Op::Mul(self.in_fifo[si], w));
                    self.psola_frame[so] = apply(f, Op::Add(y, part));
                    let v = self.weight_frame[so];
                    self.weight_frame[so] = apply(f, Op::Add(v, w));
                    assert(k == so - to);
                    assert(w == grain_weight(ar, so - to, r));
                }
            }
            j += 1;
        }
        assert(self.psola_frame@ =~= after.samples);
        assert(self.weight_frame@ =~= after.weights);
    }

    fn crossfade<F: Fn(Op) -> Scalar>(&mut self, wet: Scalar, f: &F)
        requires
            old(self).wf(),
            is_arithmetic(*f),
        ensures
            final(self).wf(),
            final(self)@ == old(self)@,
            final(self).psola_frame@ == crossfaded(
                results(*f),
                wet,
                old(self).psola_frame@,
                old(self)@.in_fifo,
            ),
    {
        let ghost ar = results(*f);
        let dry = apply(f, Op::Sub(num(ONE), wet));
        let n = self.frame_size;
        let ghost goal = crossfaded(ar, wet, old(self).psola_frame@, old(self)@.in_fifo);
        let mut i: usize = 0;
        while i < n
            invariant
                i <= n,
                n == self.frame_size,
                is_arithmetic(*f),
                ar == results(*f),
                dry == ar(Op::Sub(num(ONE), wet)),
                self.wf(),
                self@ == old(self)@,
                goal == crossfaded(ar, wet, old(self).psola_frame@, old(self)@.in_fifo),
                forall|j: int| 0 <= j < i ==> self.psola_frame@[j] == goal[j],
                forall|j: int| i <= j < n ==> self.psola_frame@[j] == old(self).psola_frame@[j],
            decreases n - i,
        {
            let a = apply(f, Op::Mul(wet, self.psola_frame[i]));
            let b = apply(f, Op::Mul(dry, self.in_fifo[i]));
            self.psola_frame[i] = apply(f, Op::Add(a, b));
            i += 1;
        }
        assert(self.psola_frame@ =~= goal);
    }

    /// Adds the frame and its window to what is accumulated, and puts the samples that no
    /// later frame will change into the output.
    fn overlap_add_frame<F: Fn(Op) -> Scalar>(&mut self, f: &F)
        requires
            old(self).wf(),
            is_arithmetic(*f),
        ensures
            final(self).wf(),
            ({
                let ar = results(*f);
                let s = old(self)@;
                let output = added_output(ar, s, old(self).psola_frame@);
                let gain = added_gain(ar, s);
                final(self)@ == (PsolaState {
                    output_accum: output,
                    gain_accum: gain,
                    out_fifo: Seq::new(
                        s.out_fifo.len(),
                        |i: int|
                            if i < s.step_size {
                                normalised(ar, output[i], gain[i])
                            } else {
                                s.out_fifo[i]
                            },
                    ),
                    ..s
                })
            }),
    {
        let ghost ar = results(*f);
        let ghost s = old(self)@;
        let ghost frame = self.psola_frame@;
        let ghost output = added_output(ar, s, frame);
        let ghost gain = added_gain(ar, s);
        let n = self.frame_size;
        let mut i: usize = 0;
        while i < n
            invariant
                i <= n,
                n == self.frame_size,
                is_arithmetic(*f),
                ar == results(*f),
                self.wf(),
                s.wf(),
                s.frame_size() == n,
                self@ == (PsolaState {
                    output_accum: self.output_accum@,
                    gain_accum: self.gain_accum@,
                    ..s
                }),
                self.psola_frame@ == frame,
                output == added_output(ar, s, frame),
                gain == added_gain(ar, s),
                forall|j: int| 0 <= j < i ==> self.output_accum@[j] == output[j],
                forall|j: int|
                    i <= j < 2 * n ==> self.output_accum@[j] == s.output_accum[j],
                forall|j: int| 0 <= j < i ==> self.gain_accum@[j] == gain[j],
                forall|j: int| i <= j < 2 * n ==> self.gain_accum@[j] == s.gain_accum[j],
            decreases n - i,
        {
            let w = self.ola_window[i];
            let part = apply(f, Op::Mul(self.psola_frame[i], w));
            let y = self.output_accum[i];
            self.output_accum[i] = apply(f, Op::Add(y, part));
            let g = self.gain_accum[i];
            self.gain_accum[i] = apply(f, Op::Add(g, w));
            i += 1;
        }
        assert(self.output_accum@ =~= output);
        assert(self.gain_accum@ =~= gain);
        let step = self.step_size;
        let ghost goal = Seq::new(
            s.out_fifo.len(),
            |i: int|
                if i < s.step_size {
                    normalised(ar, output[i], gain[i])
                } else {
                    s.out_fifo[i]
                },
        );
        i = 0;
        while i < step
            invariant
                i <= step,
                step == s.step_size,
                n == self.frame_size,
                is_arithmetic(*f),
                ar == results(*f),
                self.wf(),
                s.wf(),
                s.frame_size() == n,
                self@ == (PsolaState {
                    output_accum: output,
                    gain_accum: gain,
                    out_fifo: self.out_fifo@,
                    ..s
                }),
                goal == Seq::new(
                    s.out_fifo.len(),
                    |i: int|
                        if i < s.step_size {
                            normalised(ar, output[i], gain[i])
                        } else {
                            s.out_fifo[i]
                        },
                ),
                forall|j: int| 0 <= j < i ==> self.out_fifo@[j] == goal[j],
                forall|j: int| i <= j < n ==> self.out_fifo@[j] == s.out_fifo[j],
            decreases step - i,
        {
            broadcast use crate::scalar::group_scalar_order;

            let ghost previous = self.out_fifo@;
            let g = self.gain_accum[i];
            let y = if num(TINY_WEIGHT).lt(g) {
                apply(f, Op::Div(self.output_accum[i], g)).clamp(num(MINUS_ONE), num(ONE))
            } else {
                num(ZERO)
            };
            assert(is_tame(y));
            self.out_fifo[i] = y;
            assert forall|j: int| 0 <= j < self.out_fifo@.len() implies is_tame(
                #[trigger] self.out_fifo@[j],
            ) by {
                assert(j != i ==> self.out_fifo@[j] == previous[j]);
            }
            i += 1;
        }
        assert(self.out_fifo@ =~= goal);
    }

    /// Moves what is accumulated, and the input, on by a step.
    fn shift_state(&mut self)
        requires
            old(self).wf(),
        ensures
            final(self).wf(),
            final(self)@ == (PsolaState {
                in_fifo: moved_left(
                    old(self)@.in_fifo,
                    old(self)@.step_size,
                    old(self)@.latency(),
                ),
                output_accum: moved_left(
                    old(self)@.output_accum,
                    old(self)@.step_size,
                    old(self)@.frame_size(),
                ),
                gain_accum: moved_left(
                    old(self)@.gain_accum,
                    old(self)@.step_size,
                    old(self)@.frame_size(),
                ),
                ..old(self)@
            }),
    {
        let step = self.step_size;
        let frame = self.frame_size;
        move_left(&mut self.output_accum, step, frame);
        move_left(&mut self.gain_accum, step, frame);
        move_left(&mut self.in_fifo, step, frame - step);
    }

    /// How much of a frame is kept from one step to the next: a frame less a step.
    pub fn latency_samples(&self) -> (r: usize)
        requires
            self.wf(),
        ensures
            r == self@.latency(),
    {
        self.latency
    }

    /// How many samples after it was written a sample is read: a whole frame.
    pub fn delay_samples(&self) -> (r: usize)
        requires
            self.wf(),
        ensures
            r == self@.frame_size(),
    {
        self.frame_size
    }
}

pub(crate) proof fn lemma_after_sample_wf(
    ar: Arith,
    s: PsolaState,
    ratio: Scalar,
    detected_hz: Scalar,
    x: Scalar,
)
    requires
        s.wf(),
    ensures
        after_sample(ar, s, ratio, detected_hz, x).wf(),
        after_sample(ar, s, ratio, detected_hz, x).frame_size() == s.frame_size(),
        after_sample(ar, s, ratio, detected_hz, x).step_size == s.step_size,
{
    broadcast use crate::scalar::group_scalar_order;

    let t = after_sample(ar, s, ratio, detected_hz, x);
    assert forall|i: int| 0 <= i < t.out_fifo.len() implies is_tame(#[trigger] t.out_fifo[i]) by {
        if t.out_fifo[i] != s.out_fifo[i] {
            assert(s.rover + 1 >= s.frame_size());
        }
        assert(is_tame(s.out_fifo[i]));
    }
}

/// A block keeps a shifter in order, and the sizes of its frame and of its step.
pub proof fn block_keeps_sizes(
    ar: Arith,
    s: PsolaState,
    ratio: Scalar,
    detected_hz: Scalar,
    input: Seq<Scalar>,
)
    requires
        s.wf(),
    ensures
        after_block(ar, s, ratio, detected_hz, input).wf(),
        after_block(ar, s, ratio, detected_hz, input).frame_size() == s.frame_size(),
        after_block(ar, s, ratio, detected_hz, input).step_size == s.step_size,
    decreases input.len(),
{
    if input.len() > 0 {
        block_keeps_sizes(ar, s, ratio, detected_hz, input.drop_last());
        lemma_after_sample_wf(
            ar,
            after_block(ar, s, ratio, detected_hz, input.drop_last()),
            octave_range(ratio),
            detected_hz,
            input.last(),
        );
    }
}

/// Every sample that a shifter gives is finite and within -1..=1, whatever it is fed.
pub proof fn output_is_bounded(
    ar: Arith,
    s: PsolaState,
    ratio: Scalar,
    detected_hz: Scalar,
    input: Seq<Scalar>,
    i: int,
)
    requires
        s.wf(),
        0 <= i < input.len(),
    ensures
        block_out(ar, s, ratio, detected_hz, input)[i].finite(),
        num(MINUS_ONE).at_most(block_out(ar, s, ratio, detected_hz, input)[i]),
        block_out(ar, s, ratio, detected_hz, input)[i].at_most(num(ONE)),
{
    broadcast use crate::scalar::group_scalar_order;

    block_keeps_sizes(ar, s, ratio, detected_hz, input.take(i));
    let t = after_block(ar, s, ratio, detected_hz, input.take(i));
    assert(is_tame(t.out_fifo[t.rover - t.latency()]));
}

/// A block fed in two parts leaves the same shifter behind as the block fed at once.
pub proof fn blocks_compose(
    ar: Arith,
    s: PsolaState,
    ratio: Scalar,
    detected_hz: Scalar,
    first: Seq<Scalar>,
    second: Seq<Scalar>,
)
    ensures
        after_block(ar, s, ratio, detected_hz, first + second) == after_block(
            ar,
            after_block(ar, s, ratio, detected_hz, first),
            ratio,
            detected_hz,
            second,
        ),
    decreases second.len(),
{
    if second.len() == 0 {
        assert(first + second =~= first);
    } else {
        assert((first + second).drop_last() =~= first + second.drop_last());
        blocks_compose(ar, s, ratio, detected_hz, first, second.drop_last());
    }
}

/// A block fed in two parts gives the same samples as the block fed at once.
pub proof fn outputs_compose(
    ar: Arith,
    s: PsolaState,
    ratio: Scalar,
    detected_hz: Scalar,
    first: Seq<Scalar>,
    second: Seq<Scalar>,
)
    ensures
        block_out(ar, s, ratio, detected_hz, first + second) == block_out(
            ar,
            s,
            ratio,
            detected_hz,
            first,
        ) + block_out(
            ar,
            after_block(ar, s, ratio, detected_hz, first),
            ratio,
            detected_hz,
            second,
        ),
{
    let whole = block_out(ar, s, ratio, detected_hz, first + second);
    let parts = block_out(ar, s, ratio, detected_hz, first) + block_out(
        ar,
        after_block(ar, s, ratio, detected_hz, first),
        ratio,
        detected_hz,
        second,
    );
    assert forall|i: int| 0 <= i < whole.len() implies whole[i] == parts[i] by {
        if i < first.len() {
            assert((first + second).take(i) =~= first.take(i));
        } else {
            let k = i - first.len();
            assert((first + second).take(i) =~= first + second.take(k));
            blocks_compose(ar, s, ratio, detected_hz, first, second.take(k));
        }
    }
    assert(whole =~= parts);
}

/// The samples that a shifter was fed, after the silence that it starts with.
pub open spec fn history(s: PsolaState, input: Seq<Scalar>) -> Seq<Scalar> {
    silence(s.latency() as nat) + input
}

/// The frame that a shifter works on holds the latest samples that it was fed, in their order.
pub proof fn frame_holds_latest_samples(
    ar: Arith,
    sample_rate: Scalar,
    cfg: PsolaConfig,
    ratio: Scalar,
    detected_hz: Scalar,
    input: Seq<Scalar>,
)
    requires
        frame_size_of(cfg) * 8 <= isize::MAX,
    ensures
        ({
            let s = fresh(ar, sample_rate, cfg);
            let t = after_block(ar, s, ratio, detected_hz, input);
            &&& t.rover <= history(s, input).len()
            &&& t.in_fifo.take(t.rover) == history(s, input).skip(
                history(s, input).len() - t.rover,
            )
        }),
    decreases input.len(),
{
    let s = fresh(ar, sample_rate, cfg);
    lemma_fresh_wf(ar, sample_rate, cfg);
    let t = after_block(ar, s, ratio, detected_hz, input);
    if input.len() == 0 {
        assert(t.in_fifo.take(t.rover) =~= history(s, input).skip(0));
    } else {
        let before = input.drop_last();
        frame_holds_latest_samples(ar, sample_rate, cfg, ratio, detected_hz, before);
        block_keeps_sizes(ar, s, ratio, detected_hz, before);
        let u = after_block(ar, s, ratio, detected_hz, before);
        let x = input.last();
        let old_history = history(s, before);
        let new_history = history(s, input);
        assert(new_history =~= old_history.push(x));
        let held = u.in_fifo.take(u.rover);
        assert forall|i: int| 0 <= i < u.rover implies u.in_fifo[i] == old_history[
            old_history.len() - u.rover + i
        ] by {
            assert(held[i] == u.in_fifo[i]);
            assert(held[i] == old_history.skip(old_history.len() - u.rover)[i]);
        }
        assert(t.in_fifo.take(t.rover) =~= new_history.skip(new_history.len() - t.rover));
    }
}

/// A shifter that starts is in order.
pub proof fn lemma_fresh_wf(ar: Arith, sample_rate: Scalar, cfg: PsolaConfig)
    requires
        frame_size_of(cfg) * 8 <= isize::MAX,
    ensures
        fresh(ar, sample_rate, cfg).wf(),
{
    broadcast use crate::scalar::group_scalar_order;

    let overlap: int = if cfg.overlap < 2 {
        2
    } else {
        cfg.overlap as int
    };
    let asked: nat = if cfg.frame_size < 256 {
        256
    } else {
        cfg.frame_size as nat
    };
    lemma_doubled(1, asked);
    vstd::arithmetic::div_mod::lemma_div_is_ordered_by_denominator(
        frame_size_of(cfg) as int,
        2,
        overlap,
    );
}

/// A shifter that starts gives silence until its first step is full.
pub proof fn starts_silent(
    ar: Arith,
    sample_rate: Scalar,
    cfg: PsolaConfig,
    ratio: Scalar,
    detected_hz: Scalar,
    input: Seq<Scalar>,
    i: int,
)
    requires
        frame_size_of(cfg) * 8 <= isize::MAX,
        0 <= i < input.len(),
        i < step_size_of(cfg),
    ensures
        block_out(ar, fresh(ar, sample_rate, cfg), ratio, detected_hz, input)[i] == num(ZERO),
{
    let s = fresh(ar, sample_rate, cfg);
    lemma_fresh_wf(ar, sample_rate, cfg);
    lemma_first_step(ar, s, ratio, detected_hz, input.take(i));
}

proof fn lemma_first_step(
    ar: Arith,
    s: PsolaState,
    ratio: Scalar,
    detected_hz: Scalar,
    input: Seq<Scalar>,
)
    requires
        s.wf(),
        s.rover == s.latency(),
        input.len() < s.step_size,
    ensures
        after_block(ar, s, ratio, detected_hz, input).out_fifo == s.out_fifo,
        after_block(ar, s, ratio, detected_hz, input).rover == s.rover + input.len(),
        after_block(ar, s, ratio, detected_hz, input).frame_size() == s.frame_size(),
        after_block(ar, s, ratio, detected_hz, input).step_size == s.step_size,
    decreases input.len(),
{
    if input.len() > 0 {
        lemma_first_step(ar, s, ratio, detected_hz, input.drop_last());
    }
}

} // verus!
