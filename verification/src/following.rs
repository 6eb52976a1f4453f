//! How a pitch is followed from one estimate to the next, and how far it is corrected.
use vstd::prelude::*;

use crate::arith::{Arith, Op};
use crate::config::unit_range;
use crate::exact::{
    gap, is_difference, is_product, is_quotient, is_sum, small_numbers_are_what_they_are_called,
    unit, whole_patterns_are_whole,
};
use crate::formant::{de_emphasis, de_emphasised, pre_emphasised};
use crate::processor::{
    after_chunk, after_detection, after_hearing, after_hearing_all, cents_of,
    detector_hears_the_latest_samples, effective_strength, followed, followed_all, meter_of,
    ratio_towards, shifted_signal, target_of, Correction, ProcessorState, Track, TrackSetup,
};
use crate::psola::{after_block, block_out, octave_range};
use crate::scalar::{num, Scalar, HALF, ONE, TWO, ZERO};
use crate::smoothing::{blended, smoothed};
use crate::yin::{estimate_of, PitchEstimate};

verus! {

/// An estimate that must not be followed: it has no voice, or is not confident enough, or lies
/// outside the frequencies that are followed.
pub open spec fn is_doubtful(p: TrackSetup, e: PitchEstimate) -> bool {
    ||| !e.voiced
    ||| e.confidence.nan()
    ||| e.confidence.below(p.confidence_threshold)
    ||| e.frequency_hz.nan()
    ||| e.frequency_hz.below(p.min_freq_hz)
    ||| p.max_freq_hz.below(e.frequency_hz)
}

/// An estimate that must be followed: it has a voice, is at least as confident as asked, and lies
/// within the frequencies that are followed.
pub open spec fn is_convincing(p: TrackSetup, e: PitchEstimate) -> bool {
    &&& e.voiced
    &&& !e.confidence.nan()
    &&& p.confidence_threshold.units() <= e.confidence.units()
    &&& !e.frequency_hz.nan()
    &&& p.min_freq_hz.units() <= e.frequency_hz.units() <= p.max_freq_hz.units()
    &&& !p.confidence_threshold.nan()
    &&& !p.min_freq_hz.nan()
    &&& !p.max_freq_hz.nan()
}

/// A doubtful estimate counts as one failure more and leaves the last reliable pitch as it was;
/// its own frequency plays no role, so that two of them lead to the same pitch.
pub proof fn doubtful_estimates_are_not_followed(
    ar: Arith,
    p: TrackSetup,
    t: Track,
    e: PitchEstimate,
    other: PitchEstimate,
)
    requires
        is_doubtful(p, e),
        is_doubtful(p, other),
        0 <= t.unreliable < usize::MAX,
    ensures
        ({
            let u = followed(ar, p, t, Some(e));
            &&& u.unreliable == t.unreliable + 1
            &&& u.last_reliable_hz == t.last_reliable_hz
            &&& u.smoothed_hz == followed(ar, p, t, Some(other)).smoothed_hz
            &&& u.detected_hz == u.smoothed_hz
            &&& u.confidence == e.confidence
        }),
{
}

/// A convincing estimate ends the failures and is the last reliable pitch. It is taken as it is
/// after none, and otherwise blended with the pitch so far.
pub proof fn convincing_estimates_are_followed(
    ar: Arith,
    p: TrackSetup,
    t: Track,
    e: PitchEstimate,
)
    requires
        is_convincing(p, e),
        num(ZERO).below(e.frequency_hz),
        !t.smoothed_hz.nan(),
    ensures
        ({
            let u = followed(ar, p, t, Some(e));
            &&& u.unreliable == 0
            &&& u.last_reliable_hz == e.frequency_hz
            &&& t.smoothed_hz.units() <= 0 ==> u.smoothed_hz == e.frequency_hz
            &&& t.smoothed_hz.units() > 0 ==> u.smoothed_hz == blended(
                ar,
                p.pitch_coeff,
                t.smoothed_hz,
                e.frequency_hz,
            )
            &&& u.detected_hz == u.smoothed_hz
            &&& u.confidence == e.confidence
        }),
{
    small_numbers_are_what_they_are_called();
}

/// While a pitch is held, for up to eight failures, what is followed is the last reliable pitch
/// as if it were estimated again; with the ninth failure in a row there is none.
pub proof fn last_reliable_pitch_is_held(
    ar: Arith,
    p: TrackSetup,
    t: Track,
    e: PitchEstimate,
)
    requires
        is_doubtful(p, e),
        0 <= t.unreliable < usize::MAX,
        !t.smoothed_hz.nan(),
        !t.last_reliable_hz.nan(),
    ensures
        ({
            let u = followed(ar, p, t, Some(e));
            let again = blended(ar, p.pitch_coeff, t.smoothed_hz, t.last_reliable_hz);
            let held = t.last_reliable_hz.units() > 0;
            &&& t.unreliable + 1 > 8 ==> u.smoothed_hz == num(ZERO)
            &&& t.unreliable + 1 <= 8 && !held ==> u.smoothed_hz == t.smoothed_hz
            &&& t.unreliable + 1 <= 8 && held && t.smoothed_hz.units() <= 0 ==> u.smoothed_hz
                == t.last_reliable_hz
            &&& t.unreliable + 1 <= 8 && held && t.smoothed_hz.units() > 0 ==> u.smoothed_hz
                == again
        }),
{
    small_numbers_are_what_they_are_called();
}

/// Where there is no estimate at all, no pitch is shown; the pitch so far is kept for up to
/// eight failures in a row and dropped for good with the ninth.
pub proof fn missing_estimates_show_nothing(ar: Arith, p: TrackSetup, t: Track)
    requires
        0 <= t.unreliable < usize::MAX,
    ensures
        ({
            let u = followed(ar, p, t, None);
            &&& u.unreliable == t.unreliable + 1
            &&& u.detected_hz == num(ZERO)
            &&& u.confidence == num(ZERO)
            &&& t.unreliable + 1 <= 8 ==> u.smoothed_hz == t.smoothed_hz && u.last_reliable_hz
                == t.last_reliable_hz
            &&& t.unreliable + 1 > 8 ==> u.smoothed_hz == num(ZERO) && u.last_reliable_hz == num(
                ZERO,
            )
        }),
{
}

/// Nine estimates in a row that are doubtful, or missing, leave no pitch, whatever was followed
/// before; and a track that starts without a pitch has none before a convincing estimate comes.
pub proof fn doubtful_estimates_leave_no_pitch(
    ar: Arith,
    p: TrackSetup,
    t: Track,
    estimates: Seq<Option<PitchEstimate>>,
)
    requires
        t.unreliable >= 0,
        forall|i: int|
            0 <= i < estimates.len() ==> (#[trigger] estimates[i] matches Some(e) ==> is_doubtful(
                p,
                e,
            )),
    ensures
        ({
            let u = followed_all(ar, p, t, estimates);
            &&& estimates.len() >= 9 ==> u.smoothed_hz == num(ZERO) && u.detected_hz == num(ZERO)
            &&& t.smoothed_hz == num(ZERO) && t.last_reliable_hz == num(ZERO) && t.detected_hz
                == num(ZERO) ==> u.smoothed_hz == num(ZERO) && u.detected_hz == num(ZERO)
        }),
    decreases estimates.len(),
{
    lemma_doubts_count(ar, p, t, estimates);
    if estimates.len() > 0 {
        let before = estimates.drop_last();
        doubtful_estimates_leave_no_pitch(ar, p, t, before);
        lemma_doubts_count(ar, p, t, before);
        assert(estimates.last() matches Some(e) ==> is_doubtful(p, e));
        assert(!num(ZERO).below(num(ZERO)));
    }
}

proof fn lemma_doubts_count(
    ar: Arith,
    p: TrackSetup,
    t: Track,
    estimates: Seq<Option<PitchEstimate>>,
)
    requires
        t.unreliable >= 0,
        forall|i: int|
            0 <= i < estimates.len() ==> (#[trigger] estimates[i] matches Some(e) ==> is_doubtful(
                p,
                e,
            )),
    ensures
        ({
            let u = followed_all(ar, p, t, estimates);
            &&& u.unreliable >= estimates.len() || u.unreliable >= usize::MAX
            &&& t.last_reliable_hz == num(ZERO) ==> u.last_reliable_hz == num(ZERO)
        }),
    decreases estimates.len(),
{
    if estimates.len() > 0 {
        lemma_doubts_count(ar, p, t, estimates.drop_last());
        assert(estimates.last() matches Some(e) ==> is_doubtful(p, e));
    }
}

/// Every 256th sample, once 2048 were heard, the pitch of the latest 2048 samples is estimated
/// and followed; at all other samples the track, the target and the ratio stay as they are.
pub proof fn pitch_is_estimated_at_every_hop(ar: Arith, s: ProcessorState, x: Scalar)
    requires
        s.wf(),
    ensures
        ({
            let t = after_hearing(ar, s, x);
            let due = s.since_hop == 255 && s.heard >= 2047;
            &&& t.recent == s.recent.drop_first().push(x)
            &&& due ==> t.track == followed(
                ar,
                s.tracking,
                s.track,
                estimate_of(ar, s.yin, s.recent.drop_first().push(x)),
            )
            &&& !due ==> t.track == s.track && t.target_hz == s.target_hz && t.current_ratio
                == s.current_ratio
        }),
{
    reveal(after_hearing);
}

/// After an estimate, the ratio goes its share of the way to the one that corrects the pitch that
/// is followed, or to 1 where none is; and the target is what that pitch is moved to, or none.
pub proof fn ratio_goes_to_the_correcting_one(ar: Arith, s: ProcessorState)
    requires
        s.wf(),
        !s.current_ratio.nan(),
    ensures
        ({
            let t = after_detection(ar, s);
            let hz = t.track.smoothed_hz;
            let voiced = hz.nan() || hz.units() > 0;
            let goal = if voiced {
                ratio_towards(ar, s.correction, hz)
            } else {
                num(ONE)
            };
            let way = smoothed(ar, s.current_ratio, goal, s.ratio_coeff);
            &&& t.target_hz == if voiced {
                target_of(ar, s.correction, hz)
            } else {
                num(ZERO)
            }
            &&& unit() <= 2 * way.units() <= 4 * unit() && !way.nan() ==> t.current_ratio == way
            &&& !way.nan() && 2 * way.units() < unit() ==> t.current_ratio == num(HALF)
            &&& !way.nan() && way.units() > 2 * unit() ==> t.current_ratio == num(TWO)
        }),
{
    small_numbers_are_what_they_are_called();
}

/// The part of a number that lies between 0 and `top`.
pub open spec fn cut(x: int, top: int) -> int {
    if x < 0 {
        0
    } else if x > top {
        top
    } else {
        x
    }
}

proof fn lemma_unit_range_cuts(x: Scalar)
    requires
        !x.nan(),
    ensures
        unit_range(x).units() == cut(x.units(), unit()),
        !unit_range(x).nan(),
{
    small_numbers_are_what_they_are_called();
}

/// A quotient by a whole number, moved into 0..=1.
proof fn lemma_cut_quotient(a: Scalar, b: Scalar, q: Scalar, n: int)
    requires
        is_quotient(a, b, q),
        b.units() == n * unit(),
        n > 0,
    ensures
        unit_range(q).units() * n == cut(a.units(), n * unit()),
{
    small_numbers_are_what_they_are_called();
    lemma_unit_range_cuts(q);
    let (u, x, y) = (unit(), a.units(), q.units());
    assert(y * n == x) by (nonlinear_arith)
        requires
            y * (n * u) == x * u,
            u > 0,
    ;
    assert(cut(y, u) * n == cut(x, n * u)) by (nonlinear_arith)
        requires
            y * n == x,
            n > 0,
            u > 0,
    ;
}

/// The operations that lead to the strength of a correction are exact.
pub open spec fn strength_is_exact(ar: Arith, c: Correction, cents: Scalar) -> bool {
    let beyond = ar(Op::Sub(cents, c.dead_zone_cents));
    let ramp = unit_range(ar(Op::Div(beyond, num(0x41a0_0000))));
    let far = unit_range(ar(Op::Div(cents, num(0x42a0_0000))));
    let rest = ar(Op::Sub(num(ONE), c.aggressiveness));
    let more = ar(Op::Mul(rest, far));
    let style = ar(Op::Add(c.aggressiveness, more));
    let weighted = ar(Op::Mul(c.strength, style));
    &&& is_difference(cents, c.dead_zone_cents, beyond)
    &&& is_quotient(beyond, num(0x41a0_0000), ar(Op::Div(beyond, num(0x41a0_0000))))
    &&& is_quotient(cents, num(0x42a0_0000), ar(Op::Div(cents, num(0x42a0_0000))))
    &&& is_difference(num(ONE), c.aggressiveness, rest)
    &&& is_product(rest, far, more)
    &&& is_sum(c.aggressiveness, more, style)
    &&& is_product(c.strength, style, weighted)
    &&& is_product(weighted, ramp, ar(Op::Mul(weighted, ramp)))
}

/// The share of a deviation that is corrected is the strength, times a style, times a ramp. The
/// ramp rises from 0 at the dead zone to 1 at 20 cents beyond it. The style is the
/// aggressiveness for no deviation and rises to 1 at 80 cents.
pub proof fn share_is_strength_times_style_times_ramp(
    ar: Arith,
    c: Correction,
    cents: Scalar,
    ramp: int,
    far: int,
    style: int,
)
    requires
        strength_is_exact(ar, c, cents),
        0 <= c.strength.units() <= unit(),
        0 <= c.aggressiveness.units() <= unit(),
        20 * ramp == cut(cents.units() - c.dead_zone_cents.units(), 20 * unit()),
        80 * far == cut(cents.units(), 80 * unit()),
        style * unit() == c.aggressiveness.units() * unit() + (unit() - c.aggressiveness.units())
            * far,
    ensures
        effective_strength(ar, c, cents).units() * unit() * unit() == c.strength.units() * style
            * ramp,
{
    small_numbers_are_what_they_are_called();
    whole_patterns_are_whole();
    let u = unit();
    let beyond = ar(Op::Sub(cents, c.dead_zone_cents));
    let p = unit_range(ar(Op::Div(beyond, num(0x41a0_0000))));
    let f = unit_range(ar(Op::Div(cents, num(0x42a0_0000))));
    lemma_cut_quotient(beyond, num(0x41a0_0000), ar(Op::Div(beyond, num(0x41a0_0000))), 20);
    lemma_cut_quotient(cents, num(0x42a0_0000), ar(Op::Div(cents, num(0x42a0_0000))), 80);
    assert(p.units() == ramp && f.units() == far);
    let rest = ar(Op::Sub(num(ONE), c.aggressiveness));
    let more = ar(Op::Mul(rest, f));
    let whole = ar(Op::Add(c.aggressiveness, more));
    let weighted = ar(Op::Mul(c.strength, whole));
    let all = ar(Op::Mul(weighted, p));
    let (a, s) = (c.aggressiveness.units(), c.strength.units());
    let (m, w, x, y) = (more.units(), whole.units(), weighted.units(), all.units());
    assert(w == style) by (nonlinear_arith)
        requires
            m * u == (u - a) * far,
            w == a + m,
            style * u == a * u + (u - a) * far,
            u > 0,
    ;
    assert(y * u * u == s * style * ramp) by (nonlinear_arith)
        requires
            x * u == s * w,
            y * u == x * ramp,
            w == style,
    ;
    assert(0 <= w <= u) by (nonlinear_arith)
        requires
            w * u == a * u + (u - a) * far,
            0 <= a <= u,
            0 <= far <= u,
            u > 0,
    ;
    assert(0 <= y <= u) by (nonlinear_arith)
        requires
            x * u == s * w,
            y * u == x * ramp,
            0 <= s <= u,
            0 <= w <= u,
            0 <= ramp <= u,
            u > 0,
    ;
    lemma_unit_range_cuts(all);
}

/// A deviation of a ratio in cents is 1200 times the size of its logarithm to base 2.
pub proof fn an_octave_has_1200_cents(ar: Arith, ratio: Scalar)
    requires
        ({
            let octaves = ar(Op::Log2(ratio));
            is_product(
                num(0x4496_0000),
                octaves.absolute(),
                ar(Op::Mul(num(0x4496_0000), octaves.absolute())),
            )
        }),
    ensures
        cents_of(ar, ratio).units() == 1200 * gap(ar(Op::Log2(ratio)).units(), 0),
{
    small_numbers_are_what_they_are_called();
    whole_patterns_are_whole();
    let octaves = ar(Op::Log2(ratio));
    crate::scalar::lemma_units_not_negative(octaves);
    assert(octaves.absolute().units() == gap(octaves.units(), 0));
    let (u, x, y) = (unit(), octaves.absolute().units(), cents_of(ar, ratio).units());
    assert(y == 1200 * x) by (nonlinear_arith)
        requires
            y * u == (1200 * u) * x,
            u > 0,
    ;
}

/// The ratio that a pitch is moved by goes, from 1, the corrected share of the way to the ratio
/// that reaches the target: none of it where nothing is to be corrected, all of it at full
/// strength, so that the pitch times the ratio is the target then.
pub proof fn full_strength_reaches_the_target(ar: Arith, c: Correction, hz: Scalar)
    requires
        hz.units() > 0,
        ({
            let full = ar(Op::Div(target_of(ar, c, hz), hz));
            let cents = cents_of(ar, full);
            let share = effective_strength(ar, c, cents);
            let way = ar(Op::Sub(full, num(ONE)));
            let part = ar(Op::Mul(way, share));
            let moved = ar(Op::Add(num(ONE), part));
            &&& is_quotient(target_of(ar, c, hz), hz, full)
            &&& unit() <= 2 * full.units() <= 4 * unit()
            &&& !cents.below(c.dead_zone_cents)
            &&& is_difference(full, num(ONE), way)
            &&& is_product(way, share, part)
            &&& is_sum(num(ONE), part, moved)
            &&& 0 <= share.units() <= unit()
        }),
    ensures
        ({
            let full = ar(Op::Div(target_of(ar, c, hz), hz));
            let share = effective_strength(ar, c, cents_of(ar, full)).units();
            let ratio = ratio_towards(ar, c, hz).units();
            &&& (ratio - unit()) * hz.units() * unit() == (target_of(ar, c, hz).units()
                - hz.units()) * share * unit()
            &&& share == unit() ==> ratio * hz.units() == target_of(ar, c, hz).units() * unit()
            &&& share == 0 ==> ratio == unit()
        }),
{
    small_numbers_are_what_they_are_called();
    let target = target_of(ar, c, hz);
    let full = ar(Op::Div(target, hz));
    assert(octave_range(full) == full);
    let share = effective_strength(ar, c, cents_of(ar, full));
    let way = ar(Op::Sub(full, num(ONE)));
    let part = ar(Op::Mul(way, share));
    let moved = ar(Op::Add(num(ONE), part));
    let (u, x, s, w, p, m) = (
        unit(),
        full.units(),
        share.units(),
        way.units(),
        part.units(),
        moved.units(),
    );
    assert(u <= 2 * m <= 4 * u) by (nonlinear_arith)
        requires
            u <= 2 * x <= 4 * u,
            w == x - u,
            p * u == w * s,
            m == u + p,
            0 <= s <= u,
            u > 0,
    ;
    assert(octave_range(moved) == moved);
    let (f, t) = (hz.units(), target.units());
    assert((m - u) * f * u == (t - f) * s * u) by (nonlinear_arith)
        requires
            w == x - u,
            p * u == w * s,
            m == u + p,
            x * f == t * u,
    ;
    assert(s == u ==> m * f == t * u) by (nonlinear_arith)
        requires
            w == x - u,
            p * u == w * s,
            m == u + p,
            x * f == t * u,
            u > 0,
    ;
    assert(s == 0 ==> m == u) by (nonlinear_arith)
        requires
            p * u == w * s,
            m == u + p,
            u > 0,
    ;
}

/// What a block is shifted by is what was last heard of it: the shifter is fed the block, at the
/// ratio and the pitch that hold once the whole of it was heard. Where formants are corrected the
/// block is pre-emphasised before and de-emphasised after; the meter shows that ratio.
pub proof fn shifter_is_driven_by_what_was_heard(
    ar: Arith,
    s: ProcessorState,
    block: Seq<Scalar>,
)
    requires
        s.wf(),
    ensures
        ({
            let t = after_hearing_all(ar, s, block);
            let u = after_chunk(ar, s, block);
            let fed = if s.formant.active() {
                pre_emphasised(ar, s.formant.pre_state, block)
            } else {
                block
            };
            let (ratio, hz) = (t.current_ratio, t.track.detected_hz);
            let out = block_out(ar, s.shifter, ratio, hz, fed);
            &&& u.shifter == after_block(ar, s.shifter, ratio, hz, fed)
            &&& shifted_signal(ar, t, block) == if s.formant.active() {
                de_emphasised(
                    ar,
                    de_emphasis(ar, s.formant.amount, ratio),
                    s.formant.de_state,
                    out,
                )
            } else {
                out
            }
            &&& u.track == t.track
            &&& u.current_ratio == t.current_ratio
            &&& meter_of(u).ratio == t.current_ratio
            &&& meter_of(u).detected_hz == t.track.detected_hz
            &&& meter_of(u).confidence == t.track.confidence
            &&& meter_of(u).target_hz == t.target_hz
            &&& u.formant.enabled == s.formant.enabled
            &&& u.formant.amount == s.formant.amount
            &&& !s.formant.active() ==> u.formant == s.formant
            &&& s.formant.active() && block.len() > 0 ==> u.formant.pre_state == block.last()
                && u.formant.de_state == shifted_signal(ar, t, block).last()
        }),
{
    reveal(after_chunk);
    detector_hears_the_latest_samples(ar, s, block);
    lemma_formants_wait(ar, s, block);
}

proof fn lemma_formants_wait(ar: Arith, s: ProcessorState, input: Seq<Scalar>)
    ensures
        after_hearing_all(ar, s, input).formant == s.formant,
    decreases input.len(),
{
    if input.len() > 0 {
        lemma_formants_wait(ar, s, input.drop_last());
        reveal(after_hearing);
    }
}

/// A target more than an octave away is gone to as far as an octave: the way that is shared out
/// is that to the double, or to the half, of the pitch.
pub proof fn targets_beyond_an_octave_are_gone_to_by_an_octave(
    ar: Arith,
    c: Correction,
    hz: Scalar,
    end: Scalar,
)
    requires
        ({
            let full = ar(Op::Div(target_of(ar, c, hz), hz));
            let cents = cents_of(ar, end);
            let share = effective_strength(ar, c, cents);
            let way = ar(Op::Sub(end, num(ONE)));
            let part = ar(Op::Mul(way, share));
            &&& !full.nan()
            &&& full.units() > 2 * unit() && end == num(TWO) || 2 * full.units() < unit() && end
                == num(HALF)
            &&& !cents.below(c.dead_zone_cents)
            &&& is_difference(end, num(ONE), way)
            &&& is_product(way, share, part)
            &&& is_sum(num(ONE), part, ar(Op::Add(num(ONE), part)))
            &&& 0 <= share.units() <= unit()
        }),
    ensures
        ({
            let share = effective_strength(ar, c, cents_of(ar, end)).units();
            let ratio = ratio_towards(ar, c, hz).units();
            &&& (ratio - unit()) * unit() == (end.units() - unit()) * share
            &&& share == unit() ==> ratio == end.units()
        }),
{
    small_numbers_are_what_they_are_called();
    let full = ar(Op::Div(target_of(ar, c, hz), hz));
    assert(octave_range(full) == end);
    let share = effective_strength(ar, c, cents_of(ar, end));
    let way = ar(Op::Sub(end, num(ONE)));
    let part = ar(Op::Mul(way, share));
    let moved = ar(Op::Add(num(ONE), part));
    let (u, e, s, w, p, m) = (
        unit(),
        end.units(),
        share.units(),
        way.units(),
        part.units(),
        moved.units(),
    );
    assert(u <= 2 * m <= 4 * u) by (nonlinear_arith)
        requires
            u <= 2 * e <= 4 * u,
            w == e - u,
            p * u == w * s,
            m == u + p,
            0 <= s <= u,
            u > 0,
    ;
    assert(octave_range(moved) == moved);
    assert((m - u) * u == (e - u) * s) by (nonlinear_arith)
        requires
            w == e - u,
            p * u == w * s,
            m == u + p,
    ;
    assert(s == u ==> m == e) by (nonlinear_arith)
        requires
            (m - u) * u == (e - u) * s,
            u > 0,
    ;
}

} // verus!
