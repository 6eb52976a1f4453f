//! What becomes of a signal without a pitch: it comes out as it went in, a frame later.
//!
//! The overlap-add of a shifter rounds, so what it gives is not the sample that went in but
//! something close to it. How close depends on the arithmetic; the laws here take it as a
//! `Likeness`, and hold for every one that the arithmetic respects.
use vstd::prelude::*;

use crate::arith::{Arith, Op};
use crate::buffer::silence;
use crate::processor::{
    after_chunk, after_hearing, after_hearing_all, after_processing, at_rest, chunk_len,
    detector_hears_the_latest_samples, dry_signal_is_delayed, lemma_at_rest_wf, lemma_chunk,
    mixed_sample, processed, shifted_signal, wet_signal, ProcessorConfig, ProcessorState,
};
use crate::psola::{
    added_gain, added_output, after_block, after_frame, after_sample, block_keeps_sizes, block_out,
    frame_output, frame_size_of, fresh, is_voiced, lemma_after_sample_wf, lemma_fresh_wf,
    normalised, octave_range, outputs_compose, sample_out, PsolaConfig, PsolaState,
    LOWEST_VOICED_HZ,
};
use crate::scalar::{num, Scalar, ONE, ZERO};
use crate::scale::ScaleKind;
use crate::smoothing::blended;

verus! {

/// No pitch was detected: a frame is unvoiced, whatever it holds.
pub open spec fn is_pitchless(hz: Scalar) -> bool {
    !(hz.finite() && num(LOWEST_VOICED_HZ).at_most(hz))
}

/// What comes of an unvoiced signal does not depend on the pitch ratio.
pub proof fn unvoiced_output_ignores_the_ratio(
    ar: Arith,
    s: PsolaState,
    ratio: Scalar,
    other: Scalar,
    hz: Scalar,
    input: Seq<Scalar>,
)
    requires
        is_pitchless(hz),
    ensures
        after_block(ar, s, ratio, hz, input) == after_block(ar, s, other, hz, input),
        block_out(ar, s, ratio, hz, input) == block_out(ar, s, other, hz, input),
{
    lemma_pitchless_outputs(ar, s, ratio, hz, other, hz, input);
}

proof fn lemma_pitchless_outputs(
    ar: Arith,
    s: PsolaState,
    ratio: Scalar,
    hz: Scalar,
    other: Scalar,
    other_hz: Scalar,
    input: Seq<Scalar>,
)
    requires
        is_pitchless(hz),
        is_pitchless(other_hz),
    ensures
        after_block(ar, s, ratio, hz, input) == after_block(ar, s, other, other_hz, input),
        block_out(ar, s, ratio, hz, input) == block_out(ar, s, other, other_hz, input),
{
    lemma_pitchless_block(ar, s, ratio, hz, other, other_hz, input);
    assert forall|i: int| 0 <= i < input.len() implies block_out(ar, s, ratio, hz, input)[i]
        == block_out(ar, s, other, other_hz, input)[i] by {
        lemma_pitchless_block(ar, s, ratio, hz, other, other_hz, input.take(i));
    }
    assert(block_out(ar, s, ratio, hz, input) =~= block_out(ar, s, other, other_hz, input));
}

proof fn lemma_pitchless_block(
    ar: Arith,
    s: PsolaState,
    ratio: Scalar,
    hz: Scalar,
    other: Scalar,
    other_hz: Scalar,
    input: Seq<Scalar>,
)
    requires
        is_pitchless(hz),
        is_pitchless(other_hz),
    ensures
        after_block(ar, s, ratio, hz, input) == after_block(ar, s, other, other_hz, input),
    decreases input.len(),
{
    if input.len() > 0 {
        lemma_pitchless_block(ar, s, ratio, hz, other, other_hz, input.drop_last());
        let t = after_block(ar, s, ratio, hz, input.drop_last());
        let written = PsolaState {
            in_fifo: t.in_fifo.update(t.rover, input.last()),
            rover: t.latency(),
            ..t
        };
        lemma_pitchless_frame(
            ar,
            written,
            octave_range(ratio),
            hz,
            octave_range(other),
            other_hz,
        );
    }
}

proof fn lemma_pitchless_frame(
    ar: Arith,
    s: PsolaState,
    ratio: Scalar,
    hz: Scalar,
    other: Scalar,
    other_hz: Scalar,
)
    requires
        is_pitchless(hz),
        is_pitchless(other_hz),
    ensures
        after_frame(ar, s, ratio, hz) == after_frame(ar, s, other, other_hz),
{
    assert(!is_voiced(ar, s.in_fifo, hz));
    assert(!is_voiced(ar, s.in_fifo, other_hz));
}

/// How alike what comes out is to what went in, and what the shifter may hold on the way.
pub struct Likeness {
    /// A share of the shifted signal in the output.
    pub mixes: spec_fn(Scalar) -> bool,
    /// A sample and what stands for it in a frame.
    pub copies: spec_fn(Scalar, Scalar) -> bool,
    /// For a sample that has come to a position of the frame: the position, the sample, what
    /// its windowed copies in the frames before add up to, and what their windows do.
    pub holds: spec_fn(int, Scalar, Scalar, Scalar) -> bool,
    /// A sample and what comes of it.
    pub close: spec_fn(Scalar, Scalar) -> bool,
}

/// An unvoiced sample, faded against the silence that takes the place of its shifted signal.
pub open spec fn faded(ar: Arith, mix: Scalar, x: Scalar) -> Scalar {
    ar(Op::Add(ar(Op::Mul(mix, num(ZERO))), ar(Op::Mul(ar(Op::Sub(num(ONE), mix)), x))))
}

/// What is read of a sample that is ready.
pub open spec fn sane(y: Scalar) -> Scalar {
    if y.finite() {
        y
    } else {
        num(ZERO)
    }
}

/// What a likeness asks where one more copy `c` of `x` is added, at the position `p` of the
/// frame: of the sums where the sample moves on by a step, and of the quotient where it leaves.
pub open spec fn passes_on(
    ar: Arith,
    l: Likeness,
    window: Seq<Scalar>,
    step: int,
    p: int,
    x: Scalar,
    y: Scalar,
    g: Scalar,
    c: Scalar,
) -> bool {
    let sum = ar(Op::Add(y, ar(Op::Mul(c, window[p]))));
    let gain = ar(Op::Add(g, window[p]));
    if p < step {
        (l.close)(x, sane(normalised(ar, sum, gain)))
    } else {
        (l.holds)(p - step, x, sum, gain)
    }
}

/// The arithmetic overlaps frames in a likeness: from the sums that are zero where a sample
/// enters, the copies of it in one frame after the other, under the windows at the positions
/// that it passes, lead to a quotient that is close to it. With the numbers of IEEE 754, sums
/// that differ from the product of the sample and the windows by no more than the roundings up
/// to a position are held there.
#[verifier::opaque]
pub open spec fn adds_up(ar: Arith, l: Likeness, window: Seq<Scalar>, step: int) -> bool {
    &&& forall|p: int, x: Scalar|
        window.len() - step <= p < window.len() ==> #[trigger] (l.holds)(
            p,
            x,
            num(ZERO),
            num(ZERO),
        )
    &&& forall|p: int, x: Scalar, y: Scalar, g: Scalar, c: Scalar|
        0 <= p < window.len() && #[trigger] (l.holds)(p, x, y, g) && #[trigger] (l.copies)(x, c)
            ==> passes_on(ar, l, window, step, p, x, y, g, c)
}

/// The arithmetic fades unvoiced samples in a likeness, with the given share of the old mix.
#[verifier::opaque]
pub open spec fn fades(ar: Arith, l: Likeness, coeff: Scalar) -> bool {
    &&& forall|m: Scalar| #[trigger] (l.mixes)(m) ==> (l.mixes)(blended(ar, coeff, m, num(ZERO)))
    &&& forall|m: Scalar, x: Scalar|
        (l.mixes)(m) ==> (l.copies)(x, #[trigger] faded(ar, m, x))
}

/// The arithmetic respects a likeness in the shifter `s`.
pub open spec fn respects(ar: Arith, l: Likeness, s: PsolaState) -> bool {
    adds_up(ar, l, s.window, s.step_size) && fades(ar, l, s.voiced_coeff)
}

proof fn lemma_start(ar: Arith, l: Likeness, window: Seq<Scalar>, step: int, p: int, x: Scalar)
    requires
        adds_up(ar, l, window, step),
        window.len() - step <= p < window.len(),
    ensures
        (l.holds)(p, x, num(ZERO), num(ZERO)),
{
    reveal(adds_up);
}

proof fn lemma_one_more(
    ar: Arith,
    l: Likeness,
    window: Seq<Scalar>,
    step: int,
    p: int,
    x: Scalar,
    y: Scalar,
    g: Scalar,
    c: Scalar,
)
    requires
        adds_up(ar, l, window, step),
        0 <= p < window.len(),
        (l.holds)(p, x, y, g),
        (l.copies)(x, c),
    ensures
        passes_on(ar, l, window, step, p, x, y, g, c),
{
    reveal(adds_up);
}

proof fn lemma_mix(ar: Arith, l: Likeness, coeff: Scalar, m: Scalar)
    requires
        fades(ar, l, coeff),
        (l.mixes)(m),
    ensures
        (l.mixes)(blended(ar, coeff, m, num(ZERO))),
{
    reveal(fades);
}

proof fn lemma_copy(ar: Arith, l: Likeness, coeff: Scalar, m: Scalar, x: Scalar)
    requires
        fades(ar, l, coeff),
        (l.mixes)(m),
    ensures
        (l.copies)(x, faded(ar, m, x)),
{
    reveal(fades);
}

/// The shifter `s` has nothing added up yet for the samples to come.
pub open spec fn is_clear_ahead(s: PsolaState) -> bool {
    forall|i: int|
        s.latency() <= i < 2 * s.frame_size() ==> #[trigger] s.output_accum[i] == num(ZERO)
            && s.gain_accum[i] == num(ZERO)
}

/// What the shifter `s` has added up is in a likeness to the samples `source`, from the
/// position `from` on.
pub open spec fn carries(l: Likeness, s: PsolaState, source: Seq<Scalar>, from: int) -> bool {
    forall|i: int|
        0 <= i < s.latency() && from <= i ==> (l.holds)(
            i,
            source[i],
            #[trigger] s.output_accum[i],
            s.gain_accum[i],
        )
}

/// One frame more, voiced or not, is overlapped in a likeness: where what the frame gives stands
/// for a source, what is added up stays in the likeness to the source, a step further on, and what
/// leaves is close to it.
pub proof fn frames_are_overlapped_in_a_likeness(
    ar: Arith,
    l: Likeness,
    s: PsolaState,
    ratio: Scalar,
    hz: Scalar,
    source: Seq<Scalar>,
    from: int,
)
    requires
        s.wf(),
        adds_up(ar, l, s.window, s.step_size),
        source.len() == s.frame_size(),
        is_clear_ahead(s),
        carries(l, s, source, from),
        forall|i: int|
            0 <= i < s.frame_size() && from <= i ==> (l.copies)(
                source[i],
                #[trigger] frame_output(ar, s, ratio, hz)[i],
            ),
    ensures
        ({
            let t = after_frame(ar, s, ratio, hz);
            &&& is_clear_ahead(t)
            &&& carries(l, t, source.skip(s.step_size), from - s.step_size)
            &&& forall|j: int|
                0 <= j < s.step_size && from <= j ==> (l.close)(
                    source[j],
                    sane(#[trigger] t.out_fifo[j]),
                )
        }),
{
    let t = after_frame(ar, s, ratio, hz);
    let frame = frame_output(ar, s, ratio, hz);
    let output = added_output(ar, s, frame);
    let gain = added_gain(ar, s);
    assert forall|i: int| 0 <= i < s.frame_size() && from <= i implies #[trigger] passes_on(
        ar,
        l,
        s.window,
        s.step_size,
        i,
        source[i],
        s.output_accum[i],
        s.gain_accum[i],
        frame[i],
    ) by {
        if i >= s.latency() {
            assert(s.output_accum[i] == num(ZERO));
            lemma_start(ar, l, s.window, s.step_size, i, source[i]);
        } else {
            assert((l.holds)(i, source[i], s.output_accum[i], s.gain_accum[i]));
        }
        assert((l.copies)(source[i], frame[i]));
        let (x, y, g) = (source[i], s.output_accum[i], s.gain_accum[i]);
        lemma_one_more(ar, l, s.window, s.step_size, i, x, y, g, frame[i]);
    }
    let moved = source.skip(s.step_size);
    assert forall|i: int|
        0 <= i < t.latency() && from - s.step_size <= i implies (l.holds)(
        i,
        moved[i],
        #[trigger] t.output_accum[i],
        t.gain_accum[i],
    ) by {
        let k = i + s.step_size;
        assert(t.output_accum[i] == output[k]);
        assert(t.gain_accum[i] == gain[k]);
        assert(passes_on(
            ar,
            l,
            s.window,
            s.step_size,
            k,
            source[k],
            s.output_accum[k],
            s.gain_accum[k],
            frame[k],
        ));
    }
    assert forall|i: int|
        t.latency() <= i < 2 * t.frame_size() implies #[trigger] t.output_accum[i] == num(ZERO)
        && t.gain_accum[i] == num(ZERO) by {
        if i < s.frame_size() {
            assert(t.output_accum[i] == output[i + s.step_size]);
            assert(t.gain_accum[i] == gain[i + s.step_size]);
            assert(s.output_accum[i + s.step_size] == num(ZERO));
        }
    }
    assert forall|j: int| 0 <= j < s.step_size && from <= j implies (l.close)(
        source[j],
        sane(#[trigger] t.out_fifo[j]),
    ) by {
        assert(t.out_fifo[j] == normalised(ar, output[j], gain[j]));
        assert(passes_on(
            ar,
            l,
            s.window,
            s.step_size,
            j,
            source[j],
            s.output_accum[j],
            s.gain_accum[j],
            frame[j],
        ));
    }
}

/// A constant signal.
pub open spec fn constant(x: Scalar, n: nat) -> Seq<Scalar> {
    Seq::new(n, |i: int| x)
}

/// The overlap-add has a gain of one: frames that are constant, one after the other, give that
/// constant, as closely as the arithmetic overlaps them. What a shifter adds up stays in the
/// likeness to the constant, a step further on after each frame, and what leaves of it is close
/// to the constant.
pub proof fn overlap_add_has_unity_gain(
    ar: Arith,
    l: Likeness,
    s: PsolaState,
    ratio: Scalar,
    hz: Scalar,
    x: Scalar,
    from: int,
)
    requires
        s.wf(),
        adds_up(ar, l, s.window, s.step_size),
        (l.copies)(x, x),
        is_clear_ahead(s),
        carries(l, s, constant(x, s.frame_size() as nat), from),
        frame_output(ar, s, ratio, hz) == constant(x, s.frame_size() as nat),
    ensures
        ({
            let t = after_frame(ar, s, ratio, hz);
            &&& is_clear_ahead(t)
            &&& carries(l, t, constant(x, s.frame_size() as nat), from - s.step_size)
            &&& forall|j: int|
                0 <= j < s.step_size && from <= j ==> (l.close)(x, sane(#[trigger] t.out_fifo[j]))
        }),
{
    let source = constant(x, s.frame_size() as nat);
    frames_are_overlapped_in_a_likeness(ar, l, s, ratio, hz, source, from);
    let t = after_frame(ar, s, ratio, hz);
    assert forall|i: int|
        0 <= i < t.latency() && from - s.step_size <= i implies (l.holds)(
        i,
        source[i],
        #[trigger] t.output_accum[i],
        t.gain_accum[i],
    ) by {
        assert(source.skip(s.step_size)[i] == source[i]);
    }
    assert forall|j: int| 0 <= j < s.step_size && from <= j implies (l.close)(
        x,
        sane(#[trigger] t.out_fifo[j]),
    ) by {
        assert((l.close)(source[j], sane(t.out_fifo[j])));
    }
}

/// A shifter that was fed `heard`: its frame holds the latest samples of it, in their order.
pub open spec fn was_fed(s: PsolaState, heard: Seq<Scalar>) -> bool {
    &&& s.wf()
    &&& heard.len() >= s.frame_size() + (s.rover - s.latency())
    &&& forall|i: int|
        0 <= i < s.rover ==> #[trigger] s.in_fifo[i] == heard[heard.len() - s.rover + i]
    &&& is_clear_ahead(s)
}

/// A shifter that was fed `heard` and is in a likeness to it: what is read of it is close to
/// the sample a frame back, once `wait` more samples were fed.
pub open spec fn follows(l: Likeness, s: PsolaState, heard: Seq<Scalar>, wait: int) -> bool {
    let since = s.rover - s.latency();
    let from = since + wait - s.step_size;
    &&& was_fed(s, heard)
    &&& (l.mixes)(s.voiced_mix)
    &&& carries(l, s, s.in_fifo, from)
    &&& forall|j: int|
        0 <= j < s.step_size && since + wait <= j ==> (l.close)(
            heard[heard.len() - s.frame_size() - since + j],
            sane(#[trigger] s.out_fifo[j]),
        )
}

/// Whatever a shifter was fed, voiced or not, it is in a likeness to it a frame later, where
/// its mix is one of the likeness.
pub proof fn likeness_takes_a_frame(l: Likeness, s: PsolaState, heard: Seq<Scalar>)
    requires
        was_fed(s, heard),
        (l.mixes)(s.voiced_mix),
    ensures
        follows(l, s, heard, s.frame_size()),
{
}

proof fn lemma_same_sums(s: PsolaState, t: PsolaState)
    requires
        is_clear_ahead(s),
        t.output_accum == s.output_accum,
        t.gain_accum == s.gain_accum,
        t.in_fifo.len() == s.in_fifo.len(),
        t.step_size == s.step_size,
    ensures
        is_clear_ahead(t),
{
    assert forall|i: int|
        t.latency() <= i < 2 * t.frame_size() implies #[trigger] t.output_accum[i] == num(ZERO)
        && t.gain_accum[i] == num(ZERO) by {
        assert(s.output_accum[i] == num(ZERO));
    }
}

proof fn lemma_frame_is_fed(ar: Arith, s: PsolaState, ratio: Scalar, hz: Scalar)
    requires
        s.wf(),
        is_clear_ahead(s),
    ensures
        is_clear_ahead(after_frame(ar, s, ratio, hz)),
{
    let t = after_frame(ar, s, ratio, hz);
    let output = added_output(ar, s, frame_output(ar, s, ratio, hz));
    let gain = added_gain(ar, s);
    assert forall|i: int|
        t.latency() <= i < 2 * t.frame_size() implies #[trigger] t.output_accum[i] == num(ZERO)
        && t.gain_accum[i] == num(ZERO) by {
        if i < s.frame_size() {
            assert(t.output_accum[i] == output[i + s.step_size]);
            assert(t.gain_accum[i] == gain[i + s.step_size]);
            assert(s.output_accum[i + s.step_size] == num(ZERO));
        }
    }
}

/// A sample more is fed, voiced or not.
proof fn lemma_sample_is_fed(
    ar: Arith,
    s: PsolaState,
    heard: Seq<Scalar>,
    ratio: Scalar,
    hz: Scalar,
    x: Scalar,
)
    requires
        was_fed(s, heard),
    ensures
        was_fed(after_sample(ar, s, ratio, hz, x), heard.push(x)),
        ({
            let t = after_sample(ar, s, ratio, hz, x);
            &&& t.window == s.window
            &&& t.voiced_coeff == s.voiced_coeff
            &&& t.frame_size() == s.frame_size()
            &&& t.step_size == s.step_size
        }),
{
    lemma_after_sample_wf(ar, s, ratio, hz, x);
    let t = after_sample(ar, s, ratio, hz, x);
    let now = heard.push(x);
    let full = PsolaState { in_fifo: s.in_fifo.update(s.rover, x), rover: s.latency(), ..s };
    lemma_same_sums(s, full);
    if s.rover + 1 >= s.frame_size() {
        lemma_frame_is_fed(ar, full, ratio, hz);
        assert(t == after_frame(ar, full, ratio, hz));
    } else {
        lemma_same_sums(s, t);
    }
    assert forall|i: int| 0 <= i < t.rover implies #[trigger] t.in_fifo[i] == now[now.len()
        - t.rover + i] by {
        if s.rover + 1 >= s.frame_size() {
            let k = i + s.step_size;
            assert(t.in_fifo[i] == full.in_fifo[k]);
            assert(k < s.rover ==> full.in_fifo[k] == s.in_fifo[k]);
        } else {
            assert(i < s.rover ==> t.in_fifo[i] == s.in_fifo[i]);
        }
    }
}

/// A shifter goes on holding the latest samples that it was fed, voiced or not.
pub proof fn feeding_goes_on(
    ar: Arith,
    s: PsolaState,
    heard: Seq<Scalar>,
    ratio: Scalar,
    hz: Scalar,
    input: Seq<Scalar>,
)
    requires
        was_fed(s, heard),
    ensures
        ({
            let t = after_block(ar, s, ratio, hz, input);
            &&& was_fed(t, heard + input)
            &&& t.window == s.window
            &&& t.voiced_coeff == s.voiced_coeff
            &&& t.frame_size() == s.frame_size()
            &&& t.step_size == s.step_size
        }),
    decreases input.len(),
{
    if input.len() == 0 {
        assert(heard + input =~= heard);
    } else {
        let before = input.drop_last();
        feeding_goes_on(ar, s, heard, ratio, hz, before);
        let t = after_block(ar, s, ratio, hz, before);
        lemma_sample_is_fed(ar, t, heard + before, octave_range(ratio), hz, input.last());
        assert((heard + before).push(input.last()) =~= heard + input);
    }
}

/// A full frame is overlapped in the likeness to what it holds.
proof fn lemma_frame_follows(
    ar: Arith,
    l: Likeness,
    s: PsolaState,
    ratio: Scalar,
    hz: Scalar,
    from: int,
)
    requires
        is_pitchless(hz),
        respects(ar, l, s),
        s.wf(),
        (l.mixes)(s.voiced_mix),
        is_clear_ahead(s),
        carries(l, s, s.in_fifo, from),
    ensures
        ({
            let t = after_frame(ar, s, ratio, hz);
            &&& (l.mixes)(t.voiced_mix)
            &&& carries(l, t, t.in_fifo, from - s.step_size)
            &&& forall|j: int|
                0 <= j < s.step_size && from <= j ==> (l.close)(
                    s.in_fifo[j],
                    sane(#[trigger] t.out_fifo[j]),
                )
        }),
{
    let m = blended(ar, s.voiced_coeff, s.voiced_mix, num(ZERO));
    lemma_mix(ar, l, s.voiced_coeff, s.voiced_mix);
    let frame = frame_output(ar, s, ratio, hz);
    assert forall|i: int| 0 <= i < s.frame_size() && from <= i implies (l.copies)(
        s.in_fifo[i],
        #[trigger] frame[i],
    ) by {
        lemma_copy(ar, l, s.voiced_coeff, m, s.in_fifo[i]);
        assert(frame[i] == faded(ar, m, s.in_fifo[i]));
    }
    frames_are_overlapped_in_a_likeness(ar, l, s, ratio, hz, s.in_fifo, from);
    let t = after_frame(ar, s, ratio, hz);
    let moved = s.in_fifo.skip(s.step_size);
    assert forall|i: int|
        0 <= i < t.latency() && from - s.step_size <= i implies (l.holds)(
        i,
        t.in_fifo[i],
        #[trigger] t.output_accum[i],
        t.gain_accum[i],
    ) by {
        assert(t.in_fifo[i] == s.in_fifo[i + s.step_size]);
        assert(moved[i] == t.in_fifo[i]);
    }
}

/// One sample more: what is read is close to the sample a frame back, and there is one sample
/// less to wait for.
proof fn lemma_sample_follows(
    ar: Arith,
    l: Likeness,
    s: PsolaState,
    heard: Seq<Scalar>,
    wait: int,
    ratio: Scalar,
    hz: Scalar,
    x: Scalar,
)
    requires
        is_pitchless(hz),
        respects(ar, l, s),
        follows(l, s, heard, wait),
    ensures
        wait <= 0 ==> (l.close)(heard[heard.len() - s.frame_size()], sample_out(s)),
        follows(l, after_sample(ar, s, ratio, hz, x), heard.push(x), wait - 1),
        respects(ar, l, after_sample(ar, s, ratio, hz, x)),
        after_sample(ar, s, ratio, hz, x).frame_size() == s.frame_size(),
{
    lemma_sample_is_fed(ar, s, heard, ratio, hz, x);
    let since = s.rover - s.latency();
    let from = since + wait - s.step_size;
    if wait <= 0 {
        assert((l.close)(
            heard[heard.len() - s.frame_size() - since + since],
            sane(s.out_fifo[since]),
        ));
    }
    let t = after_sample(ar, s, ratio, hz, x);
    let now = heard.push(x);
    let full = PsolaState { in_fifo: s.in_fifo.update(s.rover, x), rover: s.latency(), ..s };
    assert forall|i: int| 0 <= i < full.latency() && from <= i implies (l.holds)(
        i,
        full.in_fifo[i],
        #[trigger] full.output_accum[i],
        full.gain_accum[i],
    ) by {
        assert((l.holds)(i, s.in_fifo[i], s.output_accum[i], s.gain_accum[i]));
    }
    if s.rover + 1 >= s.frame_size() {
        lemma_same_sums(s, full);
        lemma_frame_follows(ar, l, full, ratio, hz, from);
        assert(t == after_frame(ar, full, ratio, hz));
        assert(from == wait - 1);
        assert forall|j: int| 0 <= j < t.step_size && wait - 1 <= j implies (l.close)(
            now[now.len() - t.frame_size() + j],
            sane(#[trigger] t.out_fifo[j]),
        ) by {
            assert((l.close)(full.in_fifo[j], sane(t.out_fifo[j])));
            assert(j < s.rover ==> full.in_fifo[j] == s.in_fifo[j]);
        }
    } else {
        assert forall|i: int| 0 <= i < t.latency() && from <= i implies (l.holds)(
            i,
            t.in_fifo[i],
            #[trigger] t.output_accum[i],
            t.gain_accum[i],
        ) by {
            assert((l.holds)(i, full.in_fifo[i], full.output_accum[i], full.gain_accum[i]));
        }
        assert forall|j: int| 0 <= j < t.step_size && since + wait <= j implies (l.close)(
            now[now.len() - t.frame_size() - (since + 1) + j],
            sane(#[trigger] t.out_fifo[j]),
        ) by {
            assert((l.close)(
                heard[heard.len() - s.frame_size() - since + j],
                sane(s.out_fifo[j]),
            ));
        }
    }
}

/// Feeding an unvoiced block keeps a shifter in the likeness to what it was fed.
proof fn lemma_block_follows(
    ar: Arith,
    l: Likeness,
    s: PsolaState,
    heard: Seq<Scalar>,
    wait: int,
    ratio: Scalar,
    hz: Scalar,
    input: Seq<Scalar>,
)
    requires
        is_pitchless(hz),
        respects(ar, l, s),
        follows(l, s, heard, wait),
    ensures
        ({
            let t = after_block(ar, s, ratio, hz, input);
            &&& follows(l, t, heard + input, wait - input.len())
            &&& respects(ar, l, t)
            &&& t.frame_size() == s.frame_size()
        }),
    decreases input.len(),
{
    if input.len() == 0 {
        assert(heard + input =~= heard);
    } else {
        let before = input.drop_last();
        lemma_block_follows(ar, l, s, heard, wait, ratio, hz, before);
        let t = after_block(ar, s, ratio, hz, before);
        lemma_sample_follows(
            ar,
            l,
            t,
            heard + before,
            wait - before.len(),
            octave_range(ratio),
            hz,
            input.last(),
        );
        assert((heard + before).push(input.last()) =~= heard + input);
    }
}

/// What comes of an unvoiced block is the signal a frame earlier: each sample that is read,
/// once those to wait for are over, is close to the one that was fed exactly a frame before it,
/// in every likeness that the arithmetic respects.
pub proof fn unvoiced_output_is_the_input_a_frame_later(
    ar: Arith,
    l: Likeness,
    s: PsolaState,
    heard: Seq<Scalar>,
    wait: int,
    ratio: Scalar,
    hz: Scalar,
    input: Seq<Scalar>,
    i: int,
)
    requires
        is_pitchless(hz),
        respects(ar, l, s),
        follows(l, s, heard, wait),
        0 <= i < input.len(),
        wait <= i,
    ensures
        (l.close)(
            (heard + input)[heard.len() - s.frame_size() + i],
            block_out(ar, s, ratio, hz, input)[i],
        ),
        follows(l, after_block(ar, s, ratio, hz, input), heard + input, wait - input.len()),
{
    lemma_block_follows(ar, l, s, heard, wait, ratio, hz, input);
    let before = input.take(i);
    lemma_block_follows(ar, l, s, heard, wait, ratio, hz, before);
    let t = after_block(ar, s, ratio, hz, before);
    lemma_sample_follows(
        ar,
        l,
        t,
        heard + before,
        wait - before.len(),
        octave_range(ratio),
        hz,
        input[i],
    );
    assert((heard + before)[heard.len() - s.frame_size() + i] == (heard + input)[heard.len()
        - s.frame_size() + i]);
}

/// The mix after a number of unvoiced frames: a share of it is left at each.
pub open spec fn faded_mix(ar: Arith, coeff: Scalar, mix: Scalar, frames: nat) -> Scalar
    decreases frames,
{
    if frames == 0 {
        mix
    } else {
        blended(ar, coeff, faded_mix(ar, coeff, mix, (frames - 1) as nat), num(ZERO))
    }
}

/// An unvoiced block fades the shifted signal out: the mix has gone down once for each step of
/// the shifter that was filled.
pub proof fn unvoiced_frames_fade_the_mix(
    ar: Arith,
    s: PsolaState,
    ratio: Scalar,
    hz: Scalar,
    input: Seq<Scalar>,
)
    requires
        s.wf(),
        is_pitchless(hz),
    ensures
        ({
            let t = after_block(ar, s, ratio, hz, input);
            let fed = s.rover - s.latency() + input.len();
            &&& t.voiced_mix == faded_mix(
                ar,
                s.voiced_coeff,
                s.voiced_mix,
                (fed / s.step_size) as nat,
            )
            &&& t.rover - t.latency() == fed % s.step_size
            &&& t.voiced_coeff == s.voiced_coeff
        }),
    decreases input.len(),
{
    let fed = s.rover - s.latency() + input.len();
    let step = s.step_size;
    if input.len() == 0 {
        vstd::arithmetic::div_mod::lemma_basic_div(fed, step);
        vstd::arithmetic::div_mod::lemma_small_mod(fed as nat, step as nat);
    } else {
        let before = input.drop_last();
        unvoiced_frames_fade_the_mix(ar, s, ratio, hz, before);
        block_keeps_sizes(ar, s, ratio, hz, before);
        lemma_one_more_sample(fed - 1, step);
        let t = after_block(ar, s, ratio, hz, before);
        lemma_after_sample_wf(ar, t, octave_range(ratio), hz, input.last());
    }
}

proof fn lemma_one_more_sample(n: int, step: int)
    requires
        0 <= n,
        0 < step,
    ensures
        n % step + 1 >= step ==> (n + 1) / step == n / step + 1 && (n + 1) % step == 0,
        n % step + 1 < step ==> (n + 1) / step == n / step && (n + 1) % step == n % step + 1,
        0 <= n / step,
        0 <= n % step < step,
{
    vstd::arithmetic::div_mod::lemma_fundamental_div_mod(n, step);
    vstd::arithmetic::div_mod::lemma_mod_bound(n, step);
    vstd::arithmetic::div_mod::lemma_div_pos_is_pos(n, step);
    let (q, r) = (n / step, n % step);
    if r + 1 >= step {
        assert(n + 1 == (q + 1) * step + 0) by (nonlinear_arith)
            requires
                n == step * q + r,
                r + 1 == step,
        ;
        vstd::arithmetic::div_mod::lemma_fundamental_div_mod_converse(n + 1, step, q + 1, 0);
    } else {
        assert(n + 1 == q * step + (r + 1)) by (nonlinear_arith)
            requires
                n == step * q + r,
        ;
        vstd::arithmetic::div_mod::lemma_fundamental_div_mod_converse(n + 1, step, q, r + 1);
    }
}

/// The fade into an unvoiced signal ends. Whatever a shifter was fed before, voiced or not:
/// after `frames` steps without a pitch the mix is `faded_mix`, and a frame later each sample
/// that is read is close to the one a frame before it, in every likeness whose mixes need hold
/// no more than that mix and those that follow it.
pub proof fn fade_into_the_unvoiced_signal_ends(
    ar: Arith,
    l: Likeness,
    s: PsolaState,
    heard: Seq<Scalar>,
    frames: nat,
    ratio: Scalar,
    hz: Scalar,
    input: Seq<Scalar>,
    i: int,
)
    requires
        is_pitchless(hz),
        respects(ar, l, s),
        was_fed(s, heard),
        (l.mixes)(faded_mix(ar, s.voiced_coeff, s.voiced_mix, frames)),
        frames * s.step_size + s.frame_size() <= i < input.len(),
    ensures
        (l.close)(
            (heard + input)[heard.len() - s.frame_size() + i],
            block_out(ar, s, ratio, hz, input)[i],
        ),
{
    let since = s.rover - s.latency();
    let n = frames * s.step_size;
    assert(0 <= n) by (nonlinear_arith)
        requires
            n == frames * s.step_size,
            0 < s.step_size,
            0 <= frames,
    ;
    let (first, rest) = (input.take(n), input.skip(n));
    assert(first + rest =~= input);
    vstd::arithmetic::div_mod::lemma_fundamental_div_mod_converse(
        since + n,
        s.step_size,
        frames as int,
        since,
    );
    unvoiced_frames_fade_the_mix(ar, s, ratio, hz, first);
    feeding_goes_on(ar, s, heard, ratio, hz, first);
    let t = after_block(ar, s, ratio, hz, first);
    likeness_takes_a_frame(l, t, heard + first);
    unvoiced_output_is_the_input_a_frame_later(
        ar,
        l,
        t,
        heard + first,
        t.frame_size(),
        ratio,
        hz,
        rest,
        i - n,
    );
    outputs_compose(ar, s, ratio, hz, first, rest);
    assert(block_out(ar, s, ratio, hz, input)[i] == block_out(ar, t, ratio, hz, rest)[i - n]);
    assert((heard + first) + rest =~= heard + input);
}

/// A shifter that starts was fed a frame of silence.
pub proof fn fresh_shifter_was_fed_silence(ar: Arith, sample_rate: Scalar, cfg: PsolaConfig)
    requires
        frame_size_of(cfg) * 8 <= isize::MAX,
    ensures
        was_fed(fresh(ar, sample_rate, cfg), silence(frame_size_of(cfg))),
{
    lemma_fresh_wf(ar, sample_rate, cfg);
}

/// The likeness of silence alone: where zero goes in, zero comes out.
pub open spec fn silence_likeness() -> Likeness {
    Likeness {
        mixes: |m: Scalar| m.finite(),
        copies: |x: Scalar, c: Scalar| x == num(ZERO) ==> c.magnitude() == 0,
        holds: |p: int, x: Scalar, y: Scalar, g: Scalar| x == num(ZERO) ==> y.magnitude() == 0,
        close: |x: Scalar, y: Scalar| x == num(ZERO) ==> y.magnitude() == 0,
    }
}

/// Without a pitch a shifter that starts is silent for its first frame, by an arithmetic that
/// fades, adds up and divides zeros to zeros.
pub proof fn first_unvoiced_frame_is_silent(
    ar: Arith,
    sample_rate: Scalar,
    cfg: PsolaConfig,
    ratio: Scalar,
    hz: Scalar,
    input: Seq<Scalar>,
    i: int,
)
    requires
        frame_size_of(cfg) * 8 <= isize::MAX,
        is_pitchless(hz),
        respects(ar, silence_likeness(), fresh(ar, sample_rate, cfg)),
        0 <= i < input.len(),
        i < frame_size_of(cfg),
    ensures
        block_out(ar, fresh(ar, sample_rate, cfg), ratio, hz, input)[i].magnitude() == 0,
{
    let s = fresh(ar, sample_rate, cfg);
    let l = silence_likeness();
    let heard = silence(frame_size_of(cfg));
    fresh_shifter_was_fed_silence(ar, sample_rate, cfg);
    assert(num(ONE).finite());
    assert(follows(l, s, heard, 0));
    unvoiced_output_is_the_input_a_frame_later(ar, l, s, heard, 0, ratio, hz, input, i);
    assert((heard + input)[heard.len() - s.frame_size() + i] == num(ZERO));
}

/// No pitch is detected while a block is processed.
pub open spec fn stays_pitchless(ar: Arith, s: ProcessorState, input: Seq<Scalar>) -> bool
    decreases input.len(),
{
    input.len() == 0 || {
        let n = chunk_len(input.len());
        &&& is_pitchless(after_hearing_all(ar, s, input.take(n)).track.detected_hz)
        &&& stays_pitchless(ar, after_chunk(ar, s, input.take(n)), input.skip(n))
    }
}

/// The shifter of a processor without formant correction is fed what the processor hears.
proof fn lemma_chunk_shifter(ar: Arith, s: ProcessorState, chunk: Seq<Scalar>)
    requires
        s.wf(),
        !s.formant.active(),
    ensures
        ({
            let t = after_hearing_all(ar, s, chunk);
            let u = after_chunk(ar, s, chunk);
            &&& !u.formant.active()
            &&& u.shifter == after_block(
                ar,
                s.shifter,
                t.current_ratio,
                t.track.detected_hz,
                chunk,
            )
            &&& shifted_signal(ar, t, chunk) == block_out(
                ar,
                s.shifter,
                t.current_ratio,
                t.track.detected_hz,
                chunk,
            )
        }),
{
    detector_hears_the_latest_samples(ar, s, chunk);
    lemma_formant_waits(ar, s, chunk);
    reveal(after_chunk);
}

proof fn lemma_formant_waits(ar: Arith, s: ProcessorState, input: Seq<Scalar>)
    ensures
        after_hearing_all(ar, s, input).formant == s.formant,
    decreases input.len(),
{
    if input.len() > 0 {
        lemma_formant_waits(ar, s, input.drop_last());
        reveal(after_hearing);
    }
}

/// Without a pitch, what the shifter of a processor gives for a block does not depend on how
/// the block is cut, nor on the ratio.
proof fn lemma_wet_is_one_block(ar: Arith, s: ProcessorState, input: Seq<Scalar>)
    requires
        s.wf(),
        !s.formant.active(),
        stays_pitchless(ar, s, input),
    ensures
        wet_signal(ar, s, input) == block_out(ar, s.shifter, num(ONE), num(ZERO), input),
    decreases input.len(),
{
    let (one, none) = (num(ONE), num(ZERO));
    lemma_zero_is_pitchless();
    if input.len() == 0 {
        assert(wet_signal(ar, s, input) =~= block_out(ar, s.shifter, one, none, input));
    } else {
        let n = chunk_len(input.len());
        let (chunk, rest) = (input.take(n), input.skip(n));
        let t = after_hearing_all(ar, s, chunk);
        let u = after_chunk(ar, s, chunk);
        lemma_chunk_shifter(ar, s, chunk);
        lemma_chunk(ar, s, chunk);
        lemma_pitchless_outputs(
            ar,
            s.shifter,
            t.current_ratio,
            t.track.detected_hz,
            one,
            none,
            chunk,
        );
        lemma_wet_is_one_block(ar, u, rest);
        outputs_compose(ar, s.shifter, one, none, chunk, rest);
        assert(chunk + rest =~= input);
        assert(wet_signal(ar, s, input) == shifted_signal(ar, t, chunk) + wet_signal(ar, u, rest));
    }
}

proof fn lemma_zero_is_pitchless()
    ensures
        is_pitchless(num(ZERO)),
{
    broadcast use crate::scalar::group_scalar_order;

}

/// A processor whose shifter and whose queue of unshifted samples were fed `heard`.
pub open spec fn has_heard(s: ProcessorState, heard: Seq<Scalar>) -> bool {
    &&& s.wf()
    &&& was_fed(s.shifter, heard)
    &&& s.dry_queue == heard.skip(heard.len() - s.shifter.frame_size())
}

/// A processor goes on hearing what it is fed, voiced or not: its shifter and its queue of
/// unshifted samples stay aligned.
pub proof fn processor_stays_aligned(
    ar: Arith,
    s: ProcessorState,
    heard: Seq<Scalar>,
    input: Seq<Scalar>,
)
    requires
        !s.formant.active(),
        has_heard(s, heard),
    ensures
        !after_processing(ar, s, input).formant.active(),
        has_heard(after_processing(ar, s, input), heard + input),
    decreases input.len(),
{
    if input.len() == 0 {
        assert(heard + input =~= heard);
    } else {
        let n = chunk_len(input.len());
        let (chunk, rest) = (input.take(n), input.skip(n));
        let t = after_hearing_all(ar, s, chunk);
        let u = after_chunk(ar, s, chunk);
        lemma_chunk_shifter(ar, s, chunk);
        lemma_chunk(ar, s, chunk);
        feeding_goes_on(ar, s.shifter, heard, t.current_ratio, t.track.detected_hz, chunk);
        let now = heard + chunk;
        assert(u.dry_queue =~= now.skip(now.len() - s.shifter.frame_size()));
        processor_stays_aligned(ar, u, now, rest);
        assert(now + rest =~= heard + input);
    }
}

/// While no pitch is detected, the unshifted and the shifted signal are aligned: the two parts
/// of every sample that is given come from the same sample that was heard, a frame before. The
/// one is that sample, and the other is close to it, once those to wait for are over, in every
/// likeness that the arithmetic respects.
pub proof fn dry_and_wet_come_from_the_same_sample(
    ar: Arith,
    l: Likeness,
    s: ProcessorState,
    heard: Seq<Scalar>,
    wait: int,
    input: Seq<Scalar>,
    i: int,
)
    requires
        !s.formant.active(),
        stays_pitchless(ar, s, input),
        has_heard(s, heard),
        respects(ar, l, s.shifter),
        follows(l, s.shifter, heard, wait),
        0 <= i < input.len(),
        wait <= i,
    ensures
        ({
            let source = (heard + input)[heard.len() - s.shifter.frame_size() + i];
            let wet = wet_signal(ar, s, input)[i];
            &&& (l.close)(source, wet)
            &&& processed(ar, s, input)[i] == mixed_sample(
                ar,
                s.dry_level,
                s.wet_level,
                source,
                wet,
            )
        }),
{
    dry_signal_is_delayed(ar, s, input, i);
    let frame = s.shifter.frame_size();
    assert((s.dry_queue + input)[i] == (heard + input)[heard.len() - frame + i]);
    lemma_wet_is_one_block(ar, s, input);
    lemma_zero_is_pitchless();
    unvoiced_output_is_the_input_a_frame_later(
        ar,
        l,
        s.shifter,
        heard,
        wait,
        num(ONE),
        num(ZERO),
        input,
        i,
    );
}

/// The unshifted and the shifted signal agree once the fade is over. Whatever was heard before:
/// after `frames` steps of the shifter without a pitch, and a frame more, both parts of every
/// sample that is given are the sample a frame before, the shifted one as closely as a likeness
/// tells whose mixes need hold no more than what is left of the mix by then.
pub proof fn dry_and_wet_agree_once_the_fade_is_over(
    ar: Arith,
    l: Likeness,
    s: ProcessorState,
    heard: Seq<Scalar>,
    frames: nat,
    input: Seq<Scalar>,
    i: int,
)
    requires
        !s.formant.active(),
        stays_pitchless(ar, s, input),
        has_heard(s, heard),
        respects(ar, l, s.shifter),
        (l.mixes)(faded_mix(ar, s.shifter.voiced_coeff, s.shifter.voiced_mix, frames)),
        frames * s.shifter.step_size + s.shifter.frame_size() <= i < input.len(),
    ensures
        ({
            let source = (heard + input)[heard.len() - s.shifter.frame_size() + i];
            let wet = wet_signal(ar, s, input)[i];
            &&& (l.close)(source, wet)
            &&& processed(ar, s, input)[i] == mixed_sample(
                ar,
                s.dry_level,
                s.wet_level,
                source,
                wet,
            )
        }),
{
    let frame = s.shifter.frame_size();
    assert(0 <= frames * s.shifter.step_size) by (nonlinear_arith)
        requires
            0 < s.shifter.step_size,
            0 <= frames,
    ;
    dry_signal_is_delayed(ar, s, input, i);
    assert((s.dry_queue + input)[i] == (heard + input)[heard.len() - frame + i]);
    lemma_wet_is_one_block(ar, s, input);
    lemma_zero_is_pitchless();
    fade_into_the_unvoiced_signal_ends(
        ar,
        l,
        s.shifter,
        heard,
        frames,
        num(ONE),
        num(ZERO),
        input,
        i,
    );
}

/// A processor at rest is aligned: its shifter and its queue of unshifted samples have heard
/// the same frame of silence.
pub proof fn processor_starts_aligned(
    ar: Arith,
    config: ProcessorConfig,
    kind: ScaleKind,
    root: int,
)
    ensures
        has_heard(at_rest(ar, config, kind, root), silence(2048)),
{
    lemma_at_rest_wf(ar, config, kind, root);
    let s = at_rest(ar, config, kind, root);
    let cfg = PsolaConfig { frame_size: 2048, overlap: 8 };
    assert(frame_size_of(cfg) == s.shifter.frame_size());
    fresh_shifter_was_fed_silence(ar, config.sample_rate, cfg);
    assert(s.dry_queue =~= silence(2048).skip(0));
}

} // verus!
