//! What the meter of a processor shows, whatever was done to it.
use vstd::prelude::*;

use crate::arith::Arith;
use crate::processor::{
    after_chunk, after_detection, after_hearing, after_hearing_all, after_processing, at_rest,
    chunk_len, detector_hears_the_latest_samples, followed, is_octave, lemma_chunk, meter_of,
    lemma_at_rest_wf, ratio_waits_for_a_whole_frame, target_of, with_aggressiveness,
    with_dead_zone, with_levels, with_retune_time, with_scale, with_strength, MeterSnapshot,
    ProcessorConfig, ProcessorState, Track, TrackSetup, ANALYSIS_FRAME,
};
use crate::ring::replaced;
use crate::scalar::{num, Scalar, ONE, ZERO};
use crate::scale::{hz_of_midi, ScaleKind};
use crate::smoothing::blended;
use crate::yin::{confidence_is_a_share, estimate_of, PitchEstimate};

verus! {

/// Something that is done to a processor.
pub enum Call {
    Process(Seq<Scalar>),
    RetuneTime(Scalar),
    Strength(Scalar),
    Aggressiveness(Scalar),
    DeadZone(Scalar),
    Scale(ScaleKind, int),
    Levels(Scalar, Scalar),
}

/// A processor after a call.
pub open spec fn after_call(ar: Arith, s: ProcessorState, call: Call) -> ProcessorState {
    match call {
        Call::Process(input) => after_processing(ar, s, input),
        Call::RetuneTime(time_ms) => with_retune_time(ar, s, time_ms),
        Call::Strength(strength) => with_strength(s, strength),
        Call::Aggressiveness(aggressiveness) => with_aggressiveness(s, aggressiveness),
        Call::DeadZone(cents) => with_dead_zone(s, cents),
        Call::Scale(kind, root) => with_scale(s, kind, root),
        Call::Levels(dry, wet) => with_levels(s, dry, wet),
    }
}

/// A processor after a number of calls.
pub open spec fn after_calls(ar: Arith, s: ProcessorState, calls: Seq<Call>) -> ProcessorState
    decreases calls.len(),
{
    if calls.len() == 0 {
        s
    } else {
        after_call(ar, after_calls(ar, s, calls.drop_last()), calls.last())
    }
}

/// How many samples a call feeds.
pub open spec fn fed_by(call: Call) -> nat {
    match call {
        Call::Process(input) => input.len(),
        _ => 0,
    }
}

/// How many samples a number of calls feed.
pub open spec fn fed(calls: Seq<Call>) -> nat
    decreases calls.len(),
{
    if calls.len() == 0 {
        0
    } else {
        fed(calls.drop_last()) + fed_by(calls.last())
    }
}

/// What the meter shows before anything is detected.
pub open spec fn resting_meter() -> MeterSnapshot {
    MeterSnapshot {
        detected_hz: num(ZERO),
        confidence: num(ZERO),
        target_hz: num(ZERO),
        ratio: num(ONE),
    }
}

proof fn lemma_rest(ar: Arith, s: ProcessorState, call: Call)
    requires
        s.wf(),
        meter_of(s) == resting_meter(),
        s.current_ratio == num(ONE),
        s.heard + fed_by(call) < ANALYSIS_FRAME,
    ensures
        ({
            let t = after_call(ar, s, call);
            &&& t.wf()
            &&& meter_of(t) == resting_meter()
            &&& t.current_ratio == num(ONE)
            &&& t.heard == s.heard + fed_by(call)
        }),
{
    match call {
        Call::Process(input) => {
            if input.len() > 0 {
                lemma_chunk(ar, s, input);
                ratio_waits_for_a_whole_frame(ar, s, input);
                detector_hears_the_latest_samples(ar, s, input);
                reveal(after_chunk);
                assert(input.take(input.len() as int) =~= input);
                let t = after_chunk(ar, s, input);
                let rest = input.skip(input.len() as int);
                assert(rest.len() == 0);
                assert(after_processing(ar, t, rest) == t);
            }
        },
        _ => {},
    }
}

proof fn lemma_rest_all(ar: Arith, s: ProcessorState, calls: Seq<Call>)
    requires
        s.wf(),
        meter_of(s) == resting_meter(),
        s.current_ratio == num(ONE),
        s.heard + fed(calls) < ANALYSIS_FRAME,
    ensures
        ({
            let t = after_calls(ar, s, calls);
            &&& t.wf()
            &&& meter_of(t) == resting_meter()
            &&& t.current_ratio == num(ONE)
            &&& t.heard == s.heard + fed(calls)
        }),
    decreases calls.len(),
{
    if calls.len() > 0 {
        lemma_rest_all(ar, s, calls.drop_last());
        lemma_rest(ar, after_calls(ar, s, calls.drop_last()), calls.last());
    }
}

/// The whole meter stays at rest until a frame of samples was fed, in however many blocks, and
/// whatever is set between them.
pub proof fn meter_rests_until_a_whole_frame(
    ar: Arith,
    config: ProcessorConfig,
    kind: ScaleKind,
    root: int,
    calls: Seq<Call>,
)
    requires
        fed(calls) < ANALYSIS_FRAME,
    ensures
        meter_of(after_calls(ar, at_rest(ar, config, kind, root), calls)) == resting_meter(),
{
    lemma_at_rest_wf(ar, config, kind, root);
    lemma_rest_all(ar, at_rest(ar, config, kind, root), calls);
}

/// `lo` and `hi` bound `x`.
pub open spec fn within(x: Scalar, lo: Scalar, hi: Scalar) -> bool {
    lo.at_most(x) && x.at_most(hi)
}

/// There is no pitch, or one between `lo` and `hi`.
pub open spec fn no_pitch_or_within(hz: Scalar, lo: Scalar, hi: Scalar) -> bool {
    hz == num(ZERO) || within(hz, lo, hi)
}

/// A confidence that is a number lies within 0..=1.
pub open spec fn is_share(x: Scalar) -> bool {
    !x.nan() ==> within(x, num(ZERO), num(ONE))
}

pub open spec fn track_in_range(t: Track, lo: Scalar, hi: Scalar) -> bool {
    &&& is_share(t.confidence)
    &&& no_pitch_or_within(t.detected_hz, lo, hi)
    &&& no_pitch_or_within(t.smoothed_hz, lo, hi)
    &&& no_pitch_or_within(t.last_reliable_hz, lo, hi)
}

/// Ratio, confidence, target and detected pitch are in range.
pub open spec fn in_range(s: ProcessorState, lo: Scalar, hi: Scalar) -> bool {
    &&& is_octave(s.current_ratio)
    &&& is_octave(s.shown_ratio)
    &&& !s.target_hz.below(num(ZERO))
    &&& track_in_range(s.track, lo, hi)
}

/// `lo` and `hi` lie around the frequencies that are followed, far enough for the arithmetic
/// to stay between them when it blends two pitches; and it gives no note a negative frequency.
pub open spec fn bounds_hold(ar: Arith, p: TrackSetup, lo: Scalar, hi: Scalar) -> bool {
    &&& lo.at_most(p.min_freq_hz)
    &&& p.max_freq_hz.at_most(hi)
    &&& forall|a: Scalar, b: Scalar|
        within(a, lo, hi) && within(b, lo, hi) ==> within(
            #[trigger] blended(ar, p.pitch_coeff, a, b),
            lo,
            hi,
        )
    &&& forall|note: Scalar| !(#[trigger] hz_of_midi(ar, note)).below(num(ZERO))
}

proof fn lemma_followed(
    ar: Arith,
    p: TrackSetup,
    t: Track,
    estimate: Option<PitchEstimate>,
    lo: Scalar,
    hi: Scalar,
)
    requires
        track_in_range(t, lo, hi),
        bounds_hold(ar, p, lo, hi),
        match estimate {
            Some(e) => is_share(e.confidence),
            None => true,
        },
    ensures
        track_in_range(followed(ar, p, t, estimate), lo, hi),
{
    broadcast use crate::scalar::group_scalar_order;

}

proof fn lemma_detection(ar: Arith, s: ProcessorState, lo: Scalar, hi: Scalar)
    requires
        s.wf(),
        in_range(s, lo, hi),
        bounds_hold(ar, s.tracking, lo, hi),
    ensures
        in_range(after_detection(ar, s), lo, hi),
{
    let estimate = estimate_of(ar, s.yin, s.recent);
    confidence_is_a_share(ar, s.yin, s.recent);
    lemma_followed(ar, s.tracking, s.track, estimate, lo, hi);
    let hz = followed(ar, s.tracking, s.track, estimate).smoothed_hz;
    assert(!hz.at_most(num(ZERO)) ==> !target_of(ar, s.correction, hz).below(num(ZERO))) by {
        broadcast use crate::scalar::group_scalar_order;

    }
    lemma_octave(ar, s);
}

proof fn lemma_octave(ar: Arith, s: ProcessorState)
    ensures
        is_octave(after_detection(ar, s).current_ratio),
{
    broadcast use crate::scalar::group_scalar_order;

}

proof fn lemma_hearing_in_range(
    ar: Arith,
    s: ProcessorState,
    input: Seq<Scalar>,
    lo: Scalar,
    hi: Scalar,
)
    requires
        s.wf(),
        in_range(s, lo, hi),
        bounds_hold(ar, s.tracking, lo, hi),
    ensures
        in_range(after_hearing_all(ar, s, input), lo, hi),
        after_hearing_all(ar, s, input).tracking == s.tracking,
    decreases input.len(),
{
    if input.len() > 0 {
        let t = after_hearing_all(ar, s, input.drop_last());
        lemma_hearing_in_range(ar, s, input.drop_last(), lo, hi);
        detector_hears_the_latest_samples(ar, s, input.drop_last());
        lemma_one_more(ar, t, input.last(), lo, hi);
    }
}

proof fn lemma_one_more(ar: Arith, s: ProcessorState, x: Scalar, lo: Scalar, hi: Scalar)
    requires
        s.wf(),
        in_range(s, lo, hi),
        bounds_hold(ar, s.tracking, lo, hi),
    ensures
        in_range(after_hearing(ar, s, x), lo, hi),
        after_hearing(ar, s, x).tracking == s.tracking,
{
    reveal(after_hearing);
    let heard = if s.heard < ANALYSIS_FRAME {
        s.heard + 1
    } else {
        s.heard
    };
    let t = ProcessorState {
        recent: replaced(s.recent, x),
        heard,
        since_hop: 0,
        ..s
    };
    lemma_detection(ar, t, lo, hi);
}

proof fn lemma_processing_in_range(
    ar: Arith,
    s: ProcessorState,
    input: Seq<Scalar>,
    lo: Scalar,
    hi: Scalar,
)
    requires
        s.wf(),
        in_range(s, lo, hi),
        bounds_hold(ar, s.tracking, lo, hi),
    ensures
        after_processing(ar, s, input).wf(),
        in_range(after_processing(ar, s, input), lo, hi),
        after_processing(ar, s, input).tracking == s.tracking,
    decreases input.len(),
{
    if input.len() > 0 {
        let n = chunk_len(input.len());
        let chunk = input.take(n);
        let t = after_chunk(ar, s, chunk);
        lemma_chunk(ar, s, chunk);
        lemma_hearing_in_range(ar, s, chunk, lo, hi);
        assert(in_range(t, lo, hi) && t.tracking == s.tracking) by {
            reveal(after_chunk);
        }
        lemma_processing_in_range(ar, t, input.skip(n), lo, hi);
    }
}

/// Whatever is done to a processor, what its meter shows stays in range: the ratio within an
/// octave either way, the confidence within 0..=1, each where it is a number; the target not
/// below zero; and the pitch, where there is one, within bounds around the frequencies that
/// are followed, which the arithmetic keeps when it blends two pitches.
pub proof fn readings_stay_in_range(
    ar: Arith,
    s: ProcessorState,
    calls: Seq<Call>,
    lo: Scalar,
    hi: Scalar,
)
    requires
        s.wf(),
        in_range(s, lo, hi),
        bounds_hold(ar, s.tracking, lo, hi),
    ensures
        ({
            let t = after_calls(ar, s, calls);
            &&& t.wf()
            &&& t.tracking == s.tracking
            &&& in_range(t, lo, hi)
            &&& is_octave(meter_of(t).ratio)
            &&& is_share(meter_of(t).confidence)
            &&& !meter_of(t).target_hz.below(num(ZERO))
            &&& no_pitch_or_within(meter_of(t).detected_hz, lo, hi)
        }),
    decreases calls.len(),
{
    if calls.len() > 0 {
        let t = after_calls(ar, s, calls.drop_last());
        readings_stay_in_range(ar, s, calls.drop_last(), lo, hi);
        match calls.last() {
            Call::Process(input) => lemma_processing_in_range(ar, t, input, lo, hi),
            _ => {},
        }
    }
}

/// A processor at rest shows what is in range.
pub proof fn readings_start_in_range(
    ar: Arith,
    config: ProcessorConfig,
    kind: ScaleKind,
    root: int,
    lo: Scalar,
    hi: Scalar,
)
    ensures
        at_rest(ar, config, kind, root).wf(),
        in_range(at_rest(ar, config, kind, root), lo, hi),
{
    lemma_at_rest_wf(ar, config, kind, root);
    broadcast use crate::scalar::group_scalar_order;

}

} // verus!
