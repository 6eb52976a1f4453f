//! Averages stay between what is averaged: a shifter amplifies no peak.
//!
//! Everything that a shifter does to samples is an average: the grains are divided by the sum
//! of their weights, frames are faded against each other, and the overlapping frames are
//! divided by the sum of their windows. How far rounding may carry an average depends on the
//! arithmetic; the law here takes the samples that are allowed as an `Allowance`, and holds
//! for every one that the arithmetic respects.
use vstd::prelude::*;

use crate::arith::{Arith, Op};
use crate::buffer::{hann, hann_at, silence, FULL_TURN};
use crate::marks::{analysis_marks, nearest_mark, synthesis_marks};
use crate::psola::{
    added_gain, added_output, after_block, after_frame, after_sample, block_out, crossfaded,
    frame_output, frame_size_of, fresh, grain_spacing, grain_weight, is_voiced, lemma_after_sample_wf,
    lemma_fresh_wf, levelled, next_mix, next_period, normalised, octave_range, reaches, sample_out,
    shifted, whole_period, with_grain, with_grains, Laid, PsolaConfig, PsolaState, TINY_WEIGHT,
};
use crate::scalar::{num, Scalar, ONE, TWO, ZERO};
use crate::smoothing::blended;
use crate::unvoiced::sane;

verus! {

/// The samples that are allowed, and what a shifter may hold on the way to them.
pub struct Allowance {
    /// A sample, such as one that is no louder than the loudest that was fed.
    pub sample: spec_fn(Scalar) -> bool,
    /// A weight of a window or of a grain.
    pub weight: spec_fn(Scalar) -> bool,
    /// A share of the shifted signal in the output.
    pub mix: spec_fn(Scalar) -> bool,
    /// A sum of weighted samples and the sum of their weights.
    pub sums: spec_fn(Scalar, Scalar) -> bool,
}

/// A sum divided by its weights where they add up to something.
pub open spec fn average(ar: Arith, sum: Scalar, weights: Scalar) -> Scalar {
    if num(TINY_WEIGHT).below(weights) {
        ar(Op::Div(sum, weights))
    } else {
        sum
    }
}

/// A blend of two samples.
pub open spec fn faded_into(ar: Arith, mix: Scalar, a: Scalar, b: Scalar) -> Scalar {
    ar(Op::Add(ar(Op::Mul(mix, a)), ar(Op::Mul(ar(Op::Sub(num(ONE), mix)), b))))
}

/// The averages that the arithmetic forms of allowed samples are allowed, with the given share
/// of the old mix.
#[verifier::opaque]
pub open spec fn averages_stay(ar: Arith, a: Allowance, coeff: Scalar) -> bool {
    &&& (a.sample)(num(ZERO))
    &&& (a.sums)(num(ZERO), num(ZERO))
    &&& forall|angle: Scalar| (a.weight)(#[trigger] hann_at(ar, angle))
    &&& forall|m: Scalar| #[trigger]
        (a.mix)(m) ==> (a.mix)(blended(ar, coeff, m, num(ZERO))) && (a.mix)(
            blended(ar, coeff, m, num(ONE)),
        )
    &&& forall|y: Scalar, g: Scalar, x: Scalar, w: Scalar| #[trigger]
        (a.sums)(y, g) && #[trigger] (a.sample)(x) && #[trigger] (a.weight)(w) ==> (a.sums)(
            ar(Op::Add(y, ar(Op::Mul(x, w)))),
            ar(Op::Add(g, w)),
        )
    &&& forall|y: Scalar, g: Scalar| #[trigger]
        (a.sums)(y, g) ==> (a.sample)(average(ar, y, g)) && (a.sample)(
            sane(normalised(ar, y, g)),
        )
    &&& forall|m: Scalar, x: Scalar, y: Scalar| #[trigger]
        (a.mix)(m) && #[trigger] (a.sample)(x) && #[trigger] (a.sample)(y) ==> (a.sample)(
            faded_into(ar, m, x, y),
        )
}

proof fn lemma_basics(ar: Arith, a: Allowance, coeff: Scalar)
    requires
        averages_stay(ar, a, coeff),
    ensures
        (a.sample)(num(ZERO)),
        (a.sums)(num(ZERO), num(ZERO)),
{
    reveal(averages_stay);
}

proof fn lemma_weight(ar: Arith, a: Allowance, coeff: Scalar, angle: Scalar)
    requires
        averages_stay(ar, a, coeff),
    ensures
        (a.weight)(hann_at(ar, angle)),
{
    reveal(averages_stay);
}

proof fn lemma_mixes(ar: Arith, a: Allowance, coeff: Scalar, m: Scalar)
    requires
        averages_stay(ar, a, coeff),
        (a.mix)(m),
    ensures
        (a.mix)(blended(ar, coeff, m, num(ZERO))),
        (a.mix)(blended(ar, coeff, m, num(ONE))),
{
    reveal(averages_stay);
}

proof fn lemma_more(
    ar: Arith,
    a: Allowance,
    coeff: Scalar,
    y: Scalar,
    g: Scalar,
    x: Scalar,
    w: Scalar,
)
    requires
        averages_stay(ar, a, coeff),
        (a.sums)(y, g),
        (a.sample)(x),
        (a.weight)(w),
    ensures
        (a.sums)(ar(Op::Add(y, ar(Op::Mul(x, w)))), ar(Op::Add(g, w))),
{
    reveal(averages_stay);
}

proof fn lemma_average(ar: Arith, a: Allowance, coeff: Scalar, y: Scalar, g: Scalar)
    requires
        averages_stay(ar, a, coeff),
        (a.sums)(y, g),
    ensures
        (a.sample)(average(ar, y, g)),
        (a.sample)(sane(normalised(ar, y, g))),
{
    reveal(averages_stay);
}

proof fn lemma_fade(ar: Arith, a: Allowance, coeff: Scalar, m: Scalar, x: Scalar, y: Scalar)
    requires
        averages_stay(ar, a, coeff),
        (a.mix)(m),
        (a.sample)(x),
        (a.sample)(y),
    ensures
        (a.sample)(faded_into(ar, m, x, y)),
{
    reveal(averages_stay);
}

/// Every sample of a signal is allowed.
pub open spec fn all_allowed(a: Allowance, x: Seq<Scalar>) -> bool {
    forall|i: int| 0 <= i < x.len() ==> (a.sample)(#[trigger] x[i])
}

/// A shifter that holds only what is allowed.
pub open spec fn holds_allowed(a: Allowance, s: PsolaState) -> bool {
    &&& s.wf()
    &&& (a.mix)(s.voiced_mix)
    &&& all_allowed(a, s.in_fifo)
    &&& forall|i: int| 0 <= i < s.out_fifo.len() ==> (a.sample)(sane(#[trigger] s.out_fifo[i]))
    &&& forall|i: int| 0 <= i < s.window.len() ==> (a.weight)(#[trigger] s.window[i])
    &&& forall|i: int|
        0 <= i < s.output_accum.len() ==> (a.sums)(
            #[trigger] s.output_accum[i],
            s.gain_accum[i],
        )
}

pub open spec fn laid_allowed(a: Allowance, n: int, laid: Laid) -> bool {
    &&& laid.samples.len() == n
    &&& laid.weights.len() == n
    &&& forall|i: int| 0 <= i < n ==> (a.sums)(#[trigger] laid.samples[i], laid.weights[i])
}

proof fn lemma_grain(
    ar: Arith,
    a: Allowance,
    coeff: Scalar,
    x: Seq<Scalar>,
    radius: int,
    from: int,
    to: int,
    laid: Laid,
)
    requires
        averages_stay(ar, a, coeff),
        all_allowed(a, x),
        laid_allowed(a, x.len() as int, laid),
    ensures
        laid_allowed(a, x.len() as int, with_grain(ar, x, radius, from, to, laid)),
{
    let after = with_grain(ar, x, radius, from, to, laid);
    assert forall|i: int| 0 <= i < x.len() implies (a.sums)(
        #[trigger] after.samples[i],
        after.weights[i],
    ) by {
        assert((a.sums)(laid.samples[i], laid.weights[i]));
        if reaches(x.len() as int, radius, from, to, i) {
            let along = ar(
                Op::Div(
                    ar(
                        Op::Add(
                            ar(Op::FromInt((i - to) as i128)),
                            ar(Op::FromInt(radius as i128)),
                        ),
                    ),
                    ar(
                        Op::Mul(num(TWO), ar(Op::FromInt(radius as i128))),
                    ).larger(num(ONE)),
                ),
            );
            let angle = ar(Op::Mul(num(FULL_TURN), along));
            lemma_weight(ar, a, coeff, angle);
            assert(grain_weight(ar, i - to, radius) == hann_at(ar, angle));
            assert((a.sample)(x[from + (i - to)]));
            lemma_more(
                ar,
                a,
                coeff,
                laid.samples[i],
                laid.weights[i],
                x[from + (i - to)],
                grain_weight(ar, i - to, radius),
            );
        }
    }
}

proof fn lemma_grains(
    ar: Arith,
    a: Allowance,
    coeff: Scalar,
    x: Seq<Scalar>,
    radius: int,
    analysis: Seq<usize>,
    synthesis: Seq<usize>,
    n: nat,
)
    requires
        averages_stay(ar, a, coeff),
        all_allowed(a, x),
    ensures
        laid_allowed(
            a,
            x.len() as int,
            with_grains(ar, x, radius, analysis, synthesis, n),
        ),
    decreases n,
{
    if n == 0 {
        lemma_basics(ar, a, coeff);
    } else {
        lemma_grains(ar, a, coeff, x, radius, analysis, synthesis, (n - 1) as nat);
        let to = synthesis[n - 1];
        let from = analysis[nearest_mark(analysis, to)];
        lemma_grain(
            ar,
            a,
            coeff,
            x,
            radius,
            from as int,
            to as int,
            with_grains(ar, x, radius, analysis, synthesis, (n - 1) as nat),
        );
    }
}

proof fn lemma_shifted(
    ar: Arith,
    a: Allowance,
    coeff: Scalar,
    x: Seq<Scalar>,
    period: usize,
    spacing: usize,
    max_marks: nat,
)
    requires
        averages_stay(ar, a, coeff),
        all_allowed(a, x),
    ensures
        all_allowed(a, shifted(ar, x, period, spacing, max_marks)),
        shifted(ar, x, period, spacing, max_marks).len() == x.len(),
{
    let analysis = analysis_marks(ar, x, period as int, max_marks);
    let synthesis = synthesis_marks(
        x.len() as int,
        spacing as int,
        period as int,
        max_marks as int,
    );
    let laid = with_grains(ar, x, period as int, analysis, synthesis, synthesis.len());
    lemma_grains(ar, a, coeff, x, period as int, analysis, synthesis, synthesis.len());
    let level = levelled(ar, laid);
    assert forall|i: int| 0 <= i < level.len() implies (a.sample)(#[trigger] level[i]) by {
        assert((a.sums)(laid.samples[i], laid.weights[i]));
        lemma_average(ar, a, coeff, laid.samples[i], laid.weights[i]);
        assert(level[i] == average(ar, laid.samples[i], laid.weights[i]));
    }
}

proof fn lemma_crossfaded(
    ar: Arith,
    a: Allowance,
    coeff: Scalar,
    mix: Scalar,
    new: Seq<Scalar>,
    old: Seq<Scalar>,
)
    requires
        averages_stay(ar, a, coeff),
        (a.mix)(mix),
        new.len() == old.len(),
        all_allowed(a, new),
        all_allowed(a, old),
    ensures
        all_allowed(a, crossfaded(ar, mix, new, old)),
{
    let faded = crossfaded(ar, mix, new, old);
    assert forall|i: int| 0 <= i < faded.len() implies (a.sample)(#[trigger] faded[i]) by {
        assert((a.sample)(new[i]) && (a.sample)(old[i]));
        lemma_fade(ar, a, coeff, mix, new[i], old[i]);
        assert(faded[i] == faded_into(ar, mix, new[i], old[i]));
    }
}

proof fn lemma_frame_output(ar: Arith, a: Allowance, s: PsolaState, ratio: Scalar, hz: Scalar)
    requires
        averages_stay(ar, a, s.voiced_coeff),
        (a.mix)(s.voiced_mix),
        all_allowed(a, s.in_fifo),
    ensures
        all_allowed(a, frame_output(ar, s, ratio, hz)),
        frame_output(ar, s, ratio, hz).len() == s.in_fifo.len(),
        (a.mix)(next_mix(ar, s, hz)),
{
    let coeff = s.voiced_coeff;
    lemma_mixes(ar, a, coeff, s.voiced_mix);
    let wet = next_mix(ar, s, hz);
    if is_voiced(ar, s.in_fifo, hz) {
        let period = whole_period(ar, s.frame_size(), next_period(ar, s, hz));
        let spacing = grain_spacing(ar, period, ratio);
        let new = shifted(ar, s.in_fifo, period, spacing, s.max_marks());
        lemma_shifted(ar, a, coeff, s.in_fifo, period, spacing, s.max_marks());
        lemma_crossfaded(ar, a, coeff, wet, new, s.in_fifo);
    } else {
        lemma_basics(ar, a, coeff);
        lemma_crossfaded(ar, a, coeff, wet, silence(s.in_fifo.len()), s.in_fifo);
    }
}

proof fn lemma_frame(ar: Arith, a: Allowance, s: PsolaState, ratio: Scalar, hz: Scalar)
    requires
        averages_stay(ar, a, s.voiced_coeff),
        holds_allowed(a, s),
        after_frame(ar, s, ratio, hz).wf(),
    ensures
        holds_allowed(a, after_frame(ar, s, ratio, hz)),
{
    let t = after_frame(ar, s, ratio, hz);
    let coeff = s.voiced_coeff;
    let frame = frame_output(ar, s, ratio, hz);
    let output = added_output(ar, s, frame);
    let gain = added_gain(ar, s);
    lemma_frame_output(ar, a, s, ratio, hz);
    lemma_basics(ar, a, coeff);
    assert forall|i: int| 0 <= i < output.len() implies (a.sums)(#[trigger] output[i], gain[i]) by {
        assert((a.sums)(s.output_accum[i], s.gain_accum[i]));
        if i < s.frame_size() {
            assert((a.sample)(frame[i]));
            assert((a.weight)(s.window[i]));
            lemma_more(
                ar,
                a,
                coeff,
                s.output_accum[i],
                s.gain_accum[i],
                frame[i],
                s.window[i],
            );
        }
    }
    assert forall|i: int| 0 <= i < t.out_fifo.len() implies (a.sample)(
        sane(#[trigger] t.out_fifo[i]),
    ) by {
        if i < s.step_size {
            assert((a.sums)(output[i], gain[i]));
            lemma_average(ar, a, coeff, output[i], gain[i]);
        } else {
            assert((a.sample)(sane(s.out_fifo[i])));
        }
    }
    assert forall|i: int| 0 <= i < t.in_fifo.len() implies (a.sample)(#[trigger] t.in_fifo[i]) by {
        if i < s.latency() {
            assert((a.sample)(s.in_fifo[i + s.step_size]));
        }
    }
    assert forall|i: int| 0 <= i < t.output_accum.len() implies (a.sums)(
        #[trigger] t.output_accum[i],
        t.gain_accum[i],
    ) by {
        if i < s.frame_size() {
            assert((a.sums)(output[i + s.step_size], gain[i + s.step_size]));
        }
    }
}

proof fn lemma_sample(
    ar: Arith,
    a: Allowance,
    s: PsolaState,
    ratio: Scalar,
    hz: Scalar,
    x: Scalar,
)
    requires
        averages_stay(ar, a, s.voiced_coeff),
        holds_allowed(a, s),
        (a.sample)(x),
    ensures
        (a.sample)(sample_out(s)),
        holds_allowed(a, after_sample(ar, s, ratio, hz, x)),
        after_sample(ar, s, ratio, hz, x).voiced_coeff == s.voiced_coeff,
{
    assert((a.sample)(sane(s.out_fifo[s.rover - s.latency()])));
    lemma_after_sample_wf(ar, s, ratio, hz, x);
    let fifo = s.in_fifo.update(s.rover, x);
    assert forall|i: int| 0 <= i < fifo.len() implies (a.sample)(#[trigger] fifo[i]) by {
        if i != s.rover {
            assert((a.sample)(s.in_fifo[i]));
        }
    }
    if s.rover + 1 >= s.frame_size() {
        let full = PsolaState { in_fifo: fifo, rover: s.latency(), ..s };
        lemma_frame(ar, a, full, ratio, hz);
    }
}

proof fn lemma_block(
    ar: Arith,
    a: Allowance,
    s: PsolaState,
    ratio: Scalar,
    hz: Scalar,
    input: Seq<Scalar>,
)
    requires
        averages_stay(ar, a, s.voiced_coeff),
        holds_allowed(a, s),
        all_allowed(a, input),
    ensures
        holds_allowed(a, after_block(ar, s, ratio, hz, input)),
        after_block(ar, s, ratio, hz, input).voiced_coeff == s.voiced_coeff,
    decreases input.len(),
{
    if input.len() > 0 {
        let before = input.drop_last();
        assert forall|i: int| 0 <= i < before.len() implies (a.sample)(#[trigger] before[i]) by {
            assert((a.sample)(input[i]));
        }
        lemma_block(ar, a, s, ratio, hz, before);
        assert((a.sample)(input[input.len() - 1]));
        lemma_sample(
            ar,
            a,
            after_block(ar, s, ratio, hz, before),
            octave_range(ratio),
            hz,
            input.last(),
        );
    }
}

/// A shifter that is fed allowed samples gives allowed samples, voiced or not and at every
/// ratio: with those that are no louder than some peak, and an arithmetic whose averages stay
/// among them, it amplifies no peak.
pub proof fn no_peak_is_amplified(
    ar: Arith,
    a: Allowance,
    s: PsolaState,
    ratio: Scalar,
    hz: Scalar,
    input: Seq<Scalar>,
)
    requires
        averages_stay(ar, a, s.voiced_coeff),
        holds_allowed(a, s),
        all_allowed(a, input),
    ensures
        all_allowed(a, block_out(ar, s, ratio, hz, input)),
        holds_allowed(a, after_block(ar, s, ratio, hz, input)),
{
    lemma_block(ar, a, s, ratio, hz, input);
    let out = block_out(ar, s, ratio, hz, input);
    assert forall|i: int| 0 <= i < out.len() implies (a.sample)(#[trigger] out[i]) by {
        let before = input.take(i);
        assert forall|k: int| 0 <= k < before.len() implies (a.sample)(#[trigger] before[k]) by {
            assert((a.sample)(input[k]));
        }
        lemma_block(ar, a, s, ratio, hz, before);
        assert((a.sample)(input[i]));
        lemma_sample(
            ar,
            a,
            after_block(ar, s, ratio, hz, before),
            octave_range(ratio),
            hz,
            input[i],
        );
    }
}

/// A shifter that starts holds only what is allowed.
pub proof fn fresh_shifter_holds_allowed(
    ar: Arith,
    a: Allowance,
    sample_rate: Scalar,
    cfg: PsolaConfig,
)
    requires
        frame_size_of(cfg) * 8 <= isize::MAX,
        averages_stay(ar, a, fresh(ar, sample_rate, cfg).voiced_coeff),
        (a.mix)(num(ONE)),
    ensures
        holds_allowed(a, fresh(ar, sample_rate, cfg)),
{
    lemma_fresh_wf(ar, sample_rate, cfg);
    let s = fresh(ar, sample_rate, cfg);
    lemma_basics(ar, a, s.voiced_coeff);
    let n = frame_size_of(cfg);
    assert forall|i: int| 0 <= i < s.window.len() implies (a.weight)(#[trigger] s.window[i]) by {
        let angle = ar(
            Op::Div(
                ar(Op::Mul(num(FULL_TURN), ar(Op::FromInt(i as i128)))),
                ar(Op::FromInt(n as i128)),
            ),
        );
        lemma_weight(ar, a, s.voiced_coeff, angle);
        assert(hann(ar, n)[i] == hann_at(ar, angle));
    }
}

} // verus!
