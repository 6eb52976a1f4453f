//! What a shifter does to a voice: how its period follows from the sample rate and the pitch,
//! how far apart its grains are laid, and what they hold.
use vstd::arithmetic::div_mod::{lemma_fundamental_div_mod, lemma_mod_bound};
use vstd::arithmetic::power2::{lemma2_to64, lemma_pow2_pos, lemma_pow2_unfold, pow2};
use vstd::prelude::*;

use crate::arith::{Arith, Op};
use crate::buffer::{hann, hann_at, lemma_pieces, silence, FULL_TURN};
use crate::exact::{
    gap, is_difference, is_product, is_quotient, is_rounded, is_sum, is_whole,
    rounded_numbers_are_whole, signs_are_taken_off_and_turned,
    small_numbers_are_what_they_are_called, unit, whole_numbers_count_as_themselves,
    whole_patterns_are_whole,
};
use crate::marks::{
    analysis_marks, apart, is_nearest_mark, last_position, nearest_mark, synthesis_marks,
};
use crate::psola::{
    after_block, after_frame, after_sample, block_out, crossing_rate, crossings, doubled_until,
    frame_output, frame_size_of, fresh, grain_spacing, grain_weight, is_voiced, next_period,
    normalised, octave_range, reaches, shifted, step_size_of, whole_period, with_grains,
    PsolaConfig, PsolaState,
};
use crate::scalar::{num, Scalar, HALF, MINUS_ONE, ONE, TWO, ZERO};
use crate::smoothing::{blended, decay, smoothed};

verus! {

/// A blend leaves its share of the way from the new value to the old one, where the four
/// operations that make it are exact.
pub proof fn blends_leave_a_share(ar: Arith, coeff: Scalar, old: Scalar, new: Scalar)
    requires
        ({
            let rest = ar(Op::Sub(num(ONE), coeff));
            let (a, b) = (ar(Op::Mul(coeff, old)), ar(Op::Mul(rest, new)));
            &&& is_difference(num(ONE), coeff, rest)
            &&& is_product(coeff, old, a)
            &&& is_product(rest, new, b)
            &&& is_sum(a, b, ar(Op::Add(a, b)))
        }),
    ensures
        (blended(ar, coeff, old, new).units() - new.units()) * unit() == coeff.units() * (
        old.units() - new.units()),
{
    small_numbers_are_what_they_are_called();
    let rest = ar(Op::Sub(num(ONE), coeff));
    let (a, b) = (ar(Op::Mul(coeff, old)), ar(Op::Mul(rest, new)));
    let (u, c, o, n, r) = (unit(), coeff.units(), old.units(), new.units(), rest.units());
    let (au, bu) = (a.units(), b.units());
    assert((au + bu - n) * u == c * (o - n)) by (nonlinear_arith)
        requires
            r == u - c,
            au * u == c * o,
            bu * u == r * n,
    ;
}

/// A step of smoothing leaves its share of the way to the target, where the four operations
/// that make it are exact.
pub proof fn steps_leave_a_share_of_the_way(
    ar: Arith,
    current: Scalar,
    target: Scalar,
    coeff: Scalar,
)
    requires
        ({
            let rest = ar(Op::Sub(num(ONE), coeff));
            let way = ar(Op::Sub(target, current));
            let moved = ar(Op::Mul(way, rest));
            &&& is_difference(num(ONE), coeff, rest)
            &&& is_difference(target, current, way)
            &&& is_product(way, rest, moved)
            &&& is_sum(current, moved, ar(Op::Add(current, moved)))
        }),
    ensures
        (smoothed(ar, current, target, coeff).units() - target.units()) * unit() == coeff.units()
            * (current.units() - target.units()),
{
    small_numbers_are_what_they_are_called();
    let rest = ar(Op::Sub(num(ONE), coeff));
    let way = ar(Op::Sub(target, current));
    let moved = ar(Op::Mul(way, rest));
    let (u, c, x, t) = (unit(), coeff.units(), current.units(), target.units());
    let (r, w, m) = (rest.units(), way.units(), moved.units());
    assert((x + m - t) * u == c * (x - t)) by (nonlinear_arith)
        requires
            r == u - c,
            w == t - x,
            m * u == w * r,
    ;
}

/// What is left after a step is the exponential of its samples over those of the time: the
/// exponent, times the time in samples, is the number of samples with the other sign.
pub proof fn decay_is_samples_over_time(
    ar: Arith,
    time_ms: Scalar,
    sample_rate: Scalar,
    hop_size: usize,
)
    requires
        hop_size > 0,
        num(ONE).at_most(time_ms),
        ({
            let seconds = ar(Op::Mul(time_ms, num(0x3a83_126f)));
            let samples = ar(Op::Mul(seconds, sample_rate));
            let hop = ar(Op::FromInt(hop_size as i128));
            &&& is_product(time_ms, num(0x3a83_126f), seconds)
            &&& is_product(seconds, sample_rate, samples)
            &&& num(ONE).at_most(samples)
            &&& is_whole(hop_size as int, hop)
            &&& is_quotient(hop.negated(), samples, ar(Op::Div(hop.negated(), samples)))
        }),
    ensures
        exists|e: Scalar|
            #![trigger ar(Op::Exp(e))]
            {
                &&& decay(ar, time_ms, sample_rate, hop_size) == ar(Op::Exp(e))
                &&& e.units() * (time_ms.units() * num(0x3a83_126f).units()
                    * sample_rate.units()) == -(hop_size * unit()) * unit() * unit() * unit()
            },
{
    let milli = num(0x3a83_126f);
    let seconds = ar(Op::Mul(time_ms, milli));
    let samples = ar(Op::Mul(seconds, sample_rate));
    let hop = ar(Op::FromInt(hop_size as i128));
    let e = ar(Op::Div(hop.negated(), samples));
    signs_are_taken_off_and_turned(hop);
    assert(decay(ar, time_ms, sample_rate, hop_size) == ar(Op::Exp(e)));
    let (u, t, m, r) = (unit(), time_ms.units(), milli.units(), sample_rate.units());
    let (s, n, x, h) = (seconds.units(), samples.units(), e.units(), hop_size * unit());
    assert(t * m * r == n * u * u) by (nonlinear_arith)
        requires
            s * u == t * m,
            n * u == s * r,
    ;
    assert(x * (n * u * u) == (x * n) * u * u) by (nonlinear_arith);
    assert((-h * u) * u * u == -h * u * u * u) by (nonlinear_arith);
}

/// A shifter keeps the rate that it was created with, and the times that its period and its
/// mix take at that rate, whatever it is fed.
pub proof fn shifter_keeps_its_rate(
    ar: Arith,
    rate: Scalar,
    cfg: PsolaConfig,
    ratio: Scalar,
    hz: Scalar,
    input: Seq<Scalar>,
)
    ensures
        ({
            let s = after_block(ar, fresh(ar, rate, cfg), ratio, hz, input);
            let step = step_size_of(cfg) as usize;
            &&& s.sample_rate == rate
            &&& s.period_coeff == decay(ar, num(0x4170_0000), rate, step)
            &&& s.voiced_coeff == decay(ar, num(0x41a0_0000), rate, step)
        }),
    decreases input.len(),
{
    if input.len() > 0 {
        shifter_keeps_its_rate(ar, rate, cfg, ratio, hz, input.drop_last());
    }
}

/// A shifter keeps its rate, whatever it is fed after whatever it was fed.
pub proof fn feeding_keeps_the_rate(
    ar: Arith,
    s: PsolaState,
    ratio: Scalar,
    hz: Scalar,
    input: Seq<Scalar>,
)
    ensures
        after_block(ar, s, ratio, hz, input).sample_rate == s.sample_rate,
    decreases input.len(),
{
    if input.len() > 0 {
        feeding_keeps_the_rate(ar, s, ratio, hz, input.drop_last());
    }
}

/// The period that a voice starts with, times its pitch, is the sample rate, for every rate
/// and every pitch whose quotient is exact: twice the rate takes twice the samples. A period
/// of fewer than 24 samples counts as 24, and one of more than a third of the frame as that.
pub proof fn first_period_is_the_rate_over_the_pitch(
    ar: Arith,
    s: PsolaState,
    ratio: Scalar,
    hz: Scalar,
)
    requires
        is_voiced(ar, s.in_fifo, hz),
        s.period.at_most(num(ZERO)),
        is_quotient(s.sample_rate, hz, ar(Op::Div(s.sample_rate, hz))),
        is_whole(s.frame_size() / 3, ar(Op::FromInt((s.frame_size() / 3) as i128))),
        24 <= s.frame_size() / 3,
    ensures
        ({
            let period = after_frame(ar, s, ratio, hz).period;
            let (r, f, n) = (s.sample_rate.units(), hz.units(), s.frame_size() / 3);
            &&& 24 * f <= r <= n * f ==> period.units() * f == r * unit()
            &&& r < 24 * f ==> period.units() == 24 * unit()
            &&& r > n * f ==> period.units() == n * unit()
        }),
{
    small_numbers_are_what_they_are_called();
    whole_patterns_are_whole();
    lemma_period_of(ar, s, hz);
}

proof fn lemma_period_of(ar: Arith, s: PsolaState, hz: Scalar)
    requires
        num(0x4220_0000).at_most(hz),
        s.period.at_most(num(ZERO)),
        is_quotient(s.sample_rate, hz, ar(Op::Div(s.sample_rate, hz))),
        is_whole(s.frame_size() / 3, ar(Op::FromInt((s.frame_size() / 3) as i128))),
        24 <= s.frame_size() / 3,
    ensures
        ({
            let period = next_period(ar, s, hz);
            let (r, f, n) = (s.sample_rate.units(), hz.units(), s.frame_size() / 3);
            &&& 24 * f <= r <= n * f ==> period.units() * f == r * unit()
            &&& r < 24 * f ==> period.units() == 24 * unit()
            &&& r > n * f ==> period.units() == n * unit()
        }),
{
    small_numbers_are_what_they_are_called();
    whole_patterns_are_whole();
    let q = ar(Op::Div(s.sample_rate, hz));
    let (r, f, n, u, x) = (
        s.sample_rate.units(),
        hz.units(),
        s.frame_size() / 3,
        unit(),
        q.units(),
    );
    assert(f > 0);
    assert((x < 24 * u ==> r < 24 * f) && (x >= 24 * u ==> r >= 24 * f)) by (nonlinear_arith)
        requires
            x * f == r * u,
            f > 0,
            u > 0,
    ;
    assert((x > n * u ==> r > n * f) && (x <= n * u ==> r <= n * f)) by (nonlinear_arith)
        requires
            x * f == r * u,
            f > 0,
            u > 0,
    ;
    assert(24 * f <= n * f && 24 * u <= n * u) by (nonlinear_arith)
        requires
            24 <= n,
            f > 0,
            u > 0,
    ;
}

/// Of two shifters that hold the same frame, the one at twice the rate starts with twice the
/// period, where neither period is cut.
pub proof fn twice_the_rate_takes_twice_the_samples(
    ar: Arith,
    s: PsolaState,
    t: PsolaState,
    ratio: Scalar,
    hz: Scalar,
)
    requires
        s.in_fifo == t.in_fifo,
        is_voiced(ar, s.in_fifo, hz),
        s.period.at_most(num(ZERO)),
        t.period.at_most(num(ZERO)),
        t.sample_rate.units() == 2 * s.sample_rate.units(),
        is_quotient(s.sample_rate, hz, ar(Op::Div(s.sample_rate, hz))),
        is_quotient(t.sample_rate, hz, ar(Op::Div(t.sample_rate, hz))),
        is_whole(s.frame_size() / 3, ar(Op::FromInt((s.frame_size() / 3) as i128))),
        24 <= s.frame_size() / 3,
        24 * hz.units() <= s.sample_rate.units(),
        t.sample_rate.units() <= s.frame_size() / 3 * hz.units(),
    ensures
        after_frame(ar, t, ratio, hz).period.units() == 2 * after_frame(
            ar,
            s,
            ratio,
            hz,
        ).period.units(),
{
    first_period_is_the_rate_over_the_pitch(ar, s, ratio, hz);
    first_period_is_the_rate_over_the_pitch(ar, t, ratio, hz);
    small_numbers_are_what_they_are_called();
    whole_patterns_are_whole();
    let (a, b, f, r) = (
        after_frame(ar, s, ratio, hz).period.units(),
        after_frame(ar, t, ratio, hz).period.units(),
        hz.units(),
        s.sample_rate.units() * unit(),
    );
    let (n, u) = (s.frame_size() / 3, unit());
    assert(0 < s.sample_rate.units()) by (nonlinear_arith)
        requires
            24 * f <= s.sample_rate.units(),
            f >= 40 * u,
            u > 0,
    ;
    assert((2 * s.sample_rate.units()) * u == 2 * (s.sample_rate.units() * u)) by (nonlinear_arith);
    assert(b == 2 * a) by (nonlinear_arith)
        requires
            a * f == r,
            b * f == 2 * r,
            f > 0,
    ;
}

/// The period of a voice that goes on moves towards the one that its pitch asks for, and keeps
/// the share of the old one that the frame keeps.
pub proof fn period_follows_the_pitch(ar: Arith, s: PsolaState, ratio: Scalar, hz: Scalar)
    requires
        is_voiced(ar, s.in_fifo, hz),
        num(ZERO).below(s.period),
    ensures
        ({
            let first = after_frame(ar, PsolaState { period: num(ZERO), ..s }, ratio, hz).period;
            after_frame(ar, s, ratio, hz).period == blended(ar, s.period_coeff, s.period, first)
        }),
{
}

/// A frame without a voice leaves the period as it was.
pub proof fn unvoiced_frames_keep_the_period(ar: Arith, s: PsolaState, ratio: Scalar, hz: Scalar)
    requires
        !is_voiced(ar, s.in_fifo, hz),
    ensures
        after_frame(ar, s, ratio, hz).period == s.period,
{
}

/// A voice fades the shifted signal in: the mix goes to 1 by the same share by which it goes to
/// 0 without one.
pub proof fn voiced_frames_raise_the_mix(ar: Arith, s: PsolaState, ratio: Scalar, hz: Scalar)
    ensures
        after_frame(ar, s, ratio, hz).voiced_mix == blended(
            ar,
            s.voiced_coeff,
            s.voiced_mix,
            if is_voiced(ar, s.in_fifo, hz) {
                num(ONE)
            } else {
                num(ZERO)
            },
        ),
{
}

/// The period in whole samples is within half a sample of the period, and the spacing of the
/// grains times the ratio is within half the ratio of the whole period: the pitch comes out
/// times the ratio, up to the rounding of both to whole samples.
pub proof fn spacing_times_ratio_is_the_period(
    ar: Arith,
    frame: int,
    period: Scalar,
    ratio: Scalar,
)
    requires
        0 <= frame <= usize::MAX,
        num(HALF).at_most(ratio),
        ratio.at_most(num(TWO)),
        is_whole(frame / 3, ar(Op::FromInt((frame / 3) as i128))),
        24 * unit() <= period.units() <= frame / 3 * unit(),
        is_rounded(period, ar(Op::Round(period))),
        ({
            let p = whole_period(ar, frame, period);
            let n = ar(Op::FromInt(p as i128));
            let q = ar(Op::Div(n, ratio));
            &&& is_whole(p as int, n)
            &&& is_quotient(n, ratio, q)
            &&& is_rounded(q, ar(Op::Round(q)))
        }),
    ensures
        ({
            let p = whole_period(ar, frame, period);
            let spacing = grain_spacing(ar, p, ratio);
            &&& 2 * gap(p * unit(), period.units()) <= unit()
            &&& 2 * gap(spacing * ratio.units(), p * unit()) <= ratio.units()
            &&& 2 * gap(spacing * ratio.units(), period.units()) <= ratio.units() + unit()
        }),
{
    small_numbers_are_what_they_are_called();
    whole_patterns_are_whole();
    let u = unit();
    let whole = ar(Op::Round(period));
    rounded_numbers_are_whole(period, whole);
    let m = whole.units() / u;
    let last = frame / 3;
    // A whole number next to one between two whole numbers lies between them too.
    assert(24 <= m <= last) by (nonlinear_arith)
        requires
            2 * gap(m * u, period.units()) <= u,
            24 * u <= period.units() <= last * u,
            u > 0,
    ;
    assert(24 * u <= m * u <= last * u) by (nonlinear_arith)
        requires
            24 <= m <= last,
            u > 0,
    ;
    let kept = whole.clamped(num(0x41c0_0000), ar(Op::FromInt(last as i128)));
    assert(kept == whole);
    whole_numbers_count_as_themselves(m, whole);
    let p = whole_period(ar, frame, period);
    assert(p == m);
    lemma_spacing(ar, p, ratio);
}

proof fn lemma_spacing(ar: Arith, p: usize, ratio: Scalar)
    requires
        24 <= p,
        num(HALF).at_most(ratio),
        ratio.at_most(num(TWO)),
        ({
            let n = ar(Op::FromInt(p as i128));
            let q = ar(Op::Div(n, ratio));
            &&& is_whole(p as int, n)
            &&& is_quotient(n, ratio, q)
            &&& is_rounded(q, ar(Op::Round(q)))
        }),
        2 * p <= usize::MAX,
    ensures
        2 * gap(grain_spacing(ar, p, ratio) * ratio.units(), p * unit()) <= ratio.units(),
{
    small_numbers_are_what_they_are_called();
    let u = unit();
    let n = ar(Op::FromInt(p as i128));
    let q = ar(Op::Div(n, ratio));
    let rounded = ar(Op::Round(q));
    rounded_numbers_are_whole(q, rounded);
    let k = rounded.units() / u;
    let (x, r) = (q.units(), ratio.units());
    assert(12 * u <= x <= 2 * p * u) by (nonlinear_arith)
        requires
            x * r == (p * u) * u,
            u <= 2 * r,
            r <= 2 * u,
            24 <= p,
            u > 0,
    ;
    assert(1 <= k <= 2 * p) by (nonlinear_arith)
        requires
            2 * gap(k * u, x) <= u,
            12 * u <= x <= 2 * p * u,
            u > 0,
    ;
    assert(u <= k * u) by (nonlinear_arith)
        requires
            1 <= k,
            u > 0,
    ;
    assert(rounded.larger(num(ONE)) == rounded);
    whole_numbers_count_as_themselves(k, rounded);
    assert(grain_spacing(ar, p, ratio) == k);
    assert(2 * gap(k * r, p * u) <= r) by (nonlinear_arith)
        requires
            2 * gap(k * u, x) <= u,
            x * r == (p * u) * u,
            u > 0,
            r > 0,
    ;
}

/// The grains of a voice that starts are laid so that their spacing, times the ratio, times the
/// pitch, gives back the sample rate, but for the rounding of the period and of the spacing to
/// whole samples.
pub proof fn first_grains_give_back_the_rate(
    ar: Arith,
    s: PsolaState,
    ratio: Scalar,
    hz: Scalar,
)
    requires
        s.wf(),
        is_voiced(ar, s.in_fifo, hz),
        s.period.at_most(num(ZERO)),
        num(HALF).at_most(ratio),
        ratio.at_most(num(TWO)),
        is_quotient(s.sample_rate, hz, ar(Op::Div(s.sample_rate, hz))),
        is_whole(s.frame_size() / 3, ar(Op::FromInt((s.frame_size() / 3) as i128))),
        24 <= s.frame_size() / 3,
        24 * hz.units() <= s.sample_rate.units() <= s.frame_size() / 3 * hz.units(),
        ({
            let period = after_frame(ar, s, ratio, hz).period;
            let p = whole_period(ar, s.frame_size(), period);
            let n = ar(Op::FromInt(p as i128));
            let q = ar(Op::Div(n, ratio));
            &&& is_rounded(period, ar(Op::Round(period)))
            &&& is_whole(p as int, n)
            &&& is_quotient(n, ratio, q)
            &&& is_rounded(q, ar(Op::Round(q)))
        }),
    ensures
        ({
            let period = after_frame(ar, s, ratio, hz).period;
            let spacing = grain_spacing(
                ar,
                whole_period(ar, s.frame_size(), period),
                ratio,
            );
            2 * gap(spacing * ratio.units() * hz.units(), s.sample_rate.units() * unit()) <= (
            ratio.units() + unit()) * hz.units()
        }),
{
    small_numbers_are_what_they_are_called();
    whole_patterns_are_whole();
    first_period_is_the_rate_over_the_pitch(ar, s, ratio, hz);
    let period = after_frame(ar, s, ratio, hz).period;
    let (x, f, r, u, n) = (
        period.units(),
        hz.units(),
        s.sample_rate.units(),
        unit(),
        s.frame_size() / 3,
    );
    assert(24 * u <= x <= n * u) by (nonlinear_arith)
        requires
            x * f == r * u,
            24 * f <= r <= n * f,
            f > 0,
            u > 0,
    ;
    spacing_times_ratio_is_the_period(ar, s.frame_size(), period, ratio);
    let spacing = grain_spacing(ar, whole_period(ar, s.frame_size(), period), ratio);
    let (a, g) = (spacing * ratio.units(), ratio.units() + u);
    assert(2 * gap(a * f, r * u) <= g * f) by (nonlinear_arith)
        requires
            2 * gap(a, x) <= g,
            x * f == r * u,
            f > 0,
    ;
}

/// What is laid at a position that the grain at `k` alone reaches.
proof fn lemma_only_grain(
    ar: Arith,
    x: Seq<Scalar>,
    radius: int,
    analysis: Seq<usize>,
    synthesis: Seq<usize>,
    n: nat,
    k: int,
    i: int,
)
    requires
        0 <= k < n <= synthesis.len(),
        0 <= i < x.len(),
        ({
            let (to, from) = (synthesis[k] as int, source_of(analysis, synthesis, k));
            let w = grain_weight(ar, i - to, radius);
            let y = ar(Op::Mul(x[from + (i - to)], w));
            &&& reaches(x.len() as int, radius, from, to, i)
            &&& ar(Op::Add(num(ZERO), y)) == y
            &&& ar(Op::Add(num(ZERO), w)) == w
        }),
        forall|j: int|
            0 <= j < n && j != k ==> !reaches(
                x.len() as int,
                radius,
                #[trigger] source_of(analysis, synthesis, j),
                synthesis[j] as int,
                i,
            ),
    ensures
        ({
            let (to, from) = (synthesis[k] as int, source_of(analysis, synthesis, k));
            let laid = with_grains(ar, x, radius, analysis, synthesis, n);
            let w = grain_weight(ar, i - to, radius);
            laid.samples[i] == ar(Op::Mul(x[from + (i - to)], w)) && laid.weights[i] == w
        }),
    decreases n,
{
    let j = n - 1;
    assert(source_of(analysis, synthesis, j) == analysis[nearest_mark(analysis, synthesis[j])]);
    if k == j {
        lemma_no_grain(ar, x, radius, analysis, synthesis, j as nat, i);
    } else {
        lemma_only_grain(ar, x, radius, analysis, synthesis, j as nat, k, i);
    }
}

proof fn lemma_no_grain(
    ar: Arith,
    x: Seq<Scalar>,
    radius: int,
    analysis: Seq<usize>,
    synthesis: Seq<usize>,
    n: nat,
    i: int,
)
    requires
        n <= synthesis.len(),
        0 <= i < x.len(),
        forall|j: int|
            0 <= j < n ==> !reaches(
                x.len() as int,
                radius,
                #[trigger] source_of(analysis, synthesis, j),
                synthesis[j] as int,
                i,
            ),
    ensures
        with_grains(ar, x, radius, analysis, synthesis, n).samples[i] == num(ZERO),
        with_grains(ar, x, radius, analysis, synthesis, n).weights[i] == num(ZERO),
    decreases n,
{
    if n > 0 {
        let j = n - 1;
        assert(!reaches(
            x.len() as int,
            radius,
            source_of(analysis, synthesis, j),
            synthesis[j] as int,
            i,
        ));
        lemma_no_grain(ar, x, radius, analysis, synthesis, j as nat, i);
    }
}

/// Where the grain at `k` is cut: the analysis mark that is nearest to where it is laid.
pub open spec fn source_of(analysis: Seq<usize>, synthesis: Seq<usize>, k: int) -> int {
    analysis[nearest_mark(analysis, synthesis[k])] as int
}

/// A sample, times a weight that counts, divided by that weight, is the sample.
pub open spec fn levels_out(ar: Arith, x: Scalar, w: Scalar) -> bool {
    let y = ar(Op::Mul(x, w));
    &&& num(0x3586_37bd).below(w)
    &&& ar(Op::Add(num(ZERO), y)) == y
    &&& ar(Op::Add(num(ZERO), w)) == w
    &&& ar(Op::Div(y, w)) == x
}

/// A shifted frame holds copies of the frame around its marks. The marks that grains are laid at
/// start a period into the frame and are the spacing apart, as long as they leave a period and
/// a sample to its end; around each, up to a period either way, a position that no other grain
/// reaches holds the sample that lies as far from the nearest pitch mark of the frame.
pub proof fn grains_copy_the_frame(
    ar: Arith,
    x: Seq<Scalar>,
    period: usize,
    spacing: usize,
    max_marks: nat,
    k: int,
    i: int,
)
    requires
        x.len() <= usize::MAX,
        1 <= spacing,
        0 <= k < max_marks <= usize::MAX,
        period + k * spacing < x.len() - (period + 1),
        0 <= i < x.len(),
        analysis_marks(ar, x, period as int, max_marks).len() >= 2,
        ({
            let analysis = analysis_marks(ar, x, period as int, max_marks);
            let synthesis = synthesis_marks(
                x.len() as int,
                spacing as int,
                period as int,
                max_marks as int,
            );
            let to = period + k * spacing;
            let from = source_of(analysis, synthesis, k);
            &&& gap(i, to) <= period
            &&& 0 <= from + (i - to) < x.len()
            &&& levels_out(ar, x[from + (i - to)], grain_weight(ar, i - to, period as int))
            &&& forall|j: int|
                0 <= j < synthesis.len() && j != k ==> !reaches(
                    x.len() as int,
                    period as int,
                    #[trigger] source_of(analysis, synthesis, j),
                    synthesis[j] as int,
                    i,
                )
        }),
    ensures
        ({
            let analysis = analysis_marks(ar, x, period as int, max_marks);
            let to = period + k * spacing;
            exists|m: int|
                {
                    &&& #[trigger] is_nearest_mark(analysis, to as usize, m)
                    &&& shifted(ar, x, period, spacing, max_marks)[i] == x[analysis[m] + (i - to)]
                }
        }),
{
    let analysis = analysis_marks(ar, x, period as int, max_marks);
    let synthesis = synthesis_marks(
        x.len() as int,
        spacing as int,
        period as int,
        max_marks as int,
    );
    let to = period + k * spacing;
    lemma_mark_at(x.len() as int, spacing as int, period as int, max_marks as int, k);
    assert(synthesis[k] == to);
    lemma_some_mark_is_nearest(analysis, synthesis[k]);
    let m = nearest_mark(analysis, synthesis[k]);
    assert(is_nearest_mark(analysis, to as usize, m));
    let from = source_of(analysis, synthesis, k);
    lemma_only_grain(ar, x, period as int, analysis, synthesis, synthesis.len(), k, i);
    lemma_laid_len(ar, x, period as int, analysis, synthesis, synthesis.len());
}

proof fn lemma_laid_len(
    ar: Arith,
    x: Seq<Scalar>,
    radius: int,
    analysis: Seq<usize>,
    synthesis: Seq<usize>,
    n: nat,
)
    ensures
        with_grains(ar, x, radius, analysis, synthesis, n).samples.len() == x.len(),
{
}

/// The mark at `k` is laid, `k` spacings after the first, while there is room for it.
proof fn lemma_mark_at(frame: int, spacing: int, radius: int, max_marks: int, k: int)
    requires
        0 <= frame <= usize::MAX,
        1 <= spacing,
        0 <= radius,
        0 <= k < max_marks,
        radius + k * spacing < frame - (radius + 1),
    ensures
        ({
            let marks = synthesis_marks(frame, spacing, radius, max_marks);
            k < marks.len() && marks[k] == radius + k * spacing
        }),
{
    assert(0 <= k * spacing) by (nonlinear_arith)
        requires
            0 <= k,
            1 <= spacing,
    ;
    let last = last_position(frame, radius);
    lemma_pieces(last - radius, spacing, k);
}

proof fn lemma_some_mark_is_nearest(marks: Seq<usize>, position: usize)
    requires
        marks.len() > 0,
    ensures
        is_nearest_mark(marks, position, nearest_mark(marks, position)),
{
    let m = lemma_nearest_among(marks, position, marks.len());
    assert(marks.take(marks.len() as int) =~= marks);
    assert(is_nearest_mark(marks, position, m));
}

proof fn lemma_nearest_among(marks: Seq<usize>, position: usize, n: nat) -> (m: int)
    requires
        0 < n <= marks.len(),
    ensures
        is_nearest_mark(marks.take(n as int), position, m),
    decreases n,
{
    let all = marks.take(n as int);
    if n == 1 {
        0
    } else {
        let before = marks.take(n - 1);
        let p = lemma_nearest_among(marks, position, (n - 1) as nat);
        assert forall|j: int| 0 <= j < n - 1 implies all[j] == before[j] by {}
        if apart(all[n - 1], position) <= apart(all[p], position) {
            assert forall|j: int| 0 <= j < n - 1 implies apart(all[n - 1], position) <= apart(
                #[trigger] all[j],
                position,
            ) by {
                assert(apart(before[p], position) <= apart(before[j], position));
            }
            n - 1
        } else {
            assert forall|j: int| 0 <= j < p implies apart(all[p], position) <= apart(
                #[trigger] all[j],
                position,
            ) by {
                assert(apart(before[p], position) <= apart(before[j], position));
            }
            assert forall|j: int| p < j < n implies apart(all[p], position) < apart(
                #[trigger] all[j],
                position,
            ) by {
                if j < n - 1 {
                    assert(apart(before[p], position) < apart(before[j], position));
                }
            }
            p
        }
    }
}

/// What a frame gives is the shifted signal and the frame itself, mixed by the mix that the
/// frame leads to: of a voiced frame it is shifted by the period that the frame leads to and the
/// spacing that the ratio gives; of any other one the shifted signal is silence.
pub proof fn frames_mix_shifted_and_unshifted(
    ar: Arith,
    s: PsolaState,
    ratio: Scalar,
    hz: Scalar,
    i: int,
)
    requires
        s.wf(),
        0 <= i < s.frame_size(),
        ({
            let t = after_frame(ar, s, ratio, hz);
            let y = shifted_of(ar, s, t.period, ratio, hz)[i];
            let (m, x) = (t.voiced_mix, s.in_fifo[i]);
            let rest = ar(Op::Sub(num(ONE), m));
            let (a, b) = (ar(Op::Mul(m, y)), ar(Op::Mul(rest, x)));
            &&& is_difference(num(ONE), m, rest)
            &&& is_product(m, y, a)
            &&& is_product(rest, x, b)
            &&& is_sum(a, b, ar(Op::Add(a, b)))
        }),
    ensures
        ({
            let t = after_frame(ar, s, ratio, hz);
            let y = shifted_of(ar, s, t.period, ratio, hz)[i];
            let (m, x) = (t.voiced_mix.units(), s.in_fifo[i].units());
            frame_output(ar, s, ratio, hz)[i].units() * unit() == m * y.units() + (unit() - m) * x
        }),
{
    small_numbers_are_what_they_are_called();
    let t = after_frame(ar, s, ratio, hz);
    let y = shifted_of(ar, s, t.period, ratio, hz)[i];
    let (m, x) = (t.voiced_mix, s.in_fifo[i]);
    let rest = ar(Op::Sub(num(ONE), m));
    let (a, b) = (ar(Op::Mul(m, y)), ar(Op::Mul(rest, x)));
    assert(frame_output(ar, s, ratio, hz)[i] == ar(Op::Add(a, b)));
    let (u, mu, yu, xu, ru, au, bu) = (
        unit(),
        m.units(),
        y.units(),
        x.units(),
        rest.units(),
        a.units(),
        b.units(),
    );
    assert((au + bu) * u == mu * yu + (u - mu) * xu) by (nonlinear_arith)
        requires
            au * u == mu * yu,
            bu * u == ru * xu,
            ru == u - mu,
    ;
}

/// The shifted signal of a frame with a smoothed period; silence where the frame has no voice.
pub open spec fn shifted_of(
    ar: Arith,
    s: PsolaState,
    period: Scalar,
    ratio: Scalar,
    hz: Scalar,
) -> Seq<Scalar> {
    if is_voiced(ar, s.in_fifo, hz) {
        let p = whole_period(ar, s.frame_size(), period);
        shifted(ar, s.in_fifo, p, grain_spacing(ar, p, ratio), s.max_marks())
    } else {
        silence(s.in_fifo.len())
    }
}

/// The Hann curve is the cosine turned over and moved up: twice its value is 1 less the cosine.
pub proof fn hann_is_a_raised_cosine(ar: Arith, angle: Scalar)
    requires
        ({
            let half = ar(Op::Mul(num(HALF), ar(Op::Cos(angle))));
            &&& is_product(num(HALF), ar(Op::Cos(angle)), half)
            &&& is_difference(num(HALF), half, ar(Op::Sub(num(HALF), half)))
        }),
    ensures
        2 * hann_at(ar, angle).units() == unit() - ar(Op::Cos(angle)).units(),
{
    small_numbers_are_what_they_are_called();
    let c = ar(Op::Cos(angle)).units();
    let (h, p, u) = (num(HALF).units(), ar(Op::Mul(num(HALF), ar(Op::Cos(angle)))).units(), unit());
    assert(2 * p == c) by (nonlinear_arith)
        requires
            p * u == h * c,
            2 * h == u,
            u > 0,
    ;
}

/// The weight of a grain is the Hann curve over its two radii: the angle goes through a full
/// turn from one end of the grain to the other.
pub proof fn grain_weights_span_two_radii(ar: Arith, k: int, radius: int)
    requires
        0 < radius,
        -radius <= k <= radius <= usize::MAX,
        ({
            let (a, b) = (ar(Op::FromInt(k as i128)), ar(Op::FromInt(radius as i128)));
            let (sum, length) = (ar(Op::Add(a, b)), ar(Op::Mul(num(TWO), b)));
            &&& is_whole(k, a)
            &&& is_whole(radius, b)
            &&& is_sum(a, b, sum)
            &&& is_product(num(TWO), b, length)
            &&& is_quotient(sum, length, ar(Op::Div(sum, length)))
        }),
    ensures
        exists|along: Scalar|
            #![trigger ar(Op::Mul(num(FULL_TURN), along))]
            {
                &&& along.units() * (2 * radius) == (k + radius) * unit()
                &&& grain_weight(ar, k, radius) == hann_at(
                    ar,
                    ar(Op::Mul(num(FULL_TURN), along)),
                )
            },
{
    small_numbers_are_what_they_are_called();
    let (a, b) = (ar(Op::FromInt(k as i128)), ar(Op::FromInt(radius as i128)));
    let (sum, length) = (ar(Op::Add(a, b)), ar(Op::Mul(num(TWO), b)));
    let along = ar(Op::Div(sum, length));
    let u = unit();
    let (l, s, x) = (length.units(), sum.units(), along.units());
    assert(l == 2 * radius * u) by (nonlinear_arith)
        requires
            l * u == (2 * u) * (radius * u),
            u > 0,
    ;
    assert(l >= u) by (nonlinear_arith)
        requires
            l == 2 * radius * u,
            0 < radius,
            u > 0,
    ;
    assert(s == (k + radius) * u) by (nonlinear_arith)
        requires
            s == k * u + radius * u,
    ;
    assert(x * (2 * radius) == (k + radius) * u) by (nonlinear_arith)
        requires
            x * l == s * u,
            l == 2 * radius * u,
            s == (k + radius) * u,
            u > 0,
    ;
    assert(length.larger(num(ONE)) == length);
    assert(grain_weight(ar, k, radius) == hann_at(ar, ar(Op::Mul(num(FULL_TURN), along))));
}

/// The signs of a signal change as often as those of its parts do, and once more where they
/// change between the parts; two samples change them if one is negative and the other is not.
pub proof fn sign_changes_add_up(x: Seq<Scalar>, y: Seq<Scalar>)
    requires
        x.len() > 0,
        y.len() > 0,
        !x.last().nan(),
        !y[0].nan(),
    ensures
        crossings(x + y) == crossings(x) + crossings(y) + if (x.last().units() < 0) != (
        y[0].units() < 0) {
            1nat
        } else {
            0nat
        },
        x.len() == 1 ==> crossings(x) == 0,
    decreases y.len(),
{
    small_numbers_are_what_they_are_called();
    let all = x + y;
    assert(all.last() == y.last());
    if y.len() == 1 {
        assert(all.drop_last() =~= x);
        assert(all[all.len() - 2] == x.last());
    } else {
        let before = y.drop_last();
        assert(all.drop_last() =~= x + before);
        assert(before[0] == y[0]);
        sign_changes_add_up(x, before);
        assert(all[all.len() - 2] == y[y.len() - 2]);
    }
}

/// The rate of sign changes, times the neighbours that there are, is how often the sign changes.
pub proof fn crossing_rate_is_a_share_of_the_neighbours(ar: Arith, x: Seq<Scalar>)
    requires
        x.len() >= 2,
        ({
            let (a, b) = (
                ar(Op::FromInt(crossings(x) as i128)),
                ar(Op::FromInt((x.len() - 1) as i128)),
            );
            &&& is_whole(crossings(x) as int, a)
            &&& is_whole(x.len() - 1, b)
            &&& is_quotient(a, b, ar(Op::Div(a, b)))
        }),
    ensures
        crossing_rate(ar, x).units() * (x.len() - 1) == crossings(x) * unit(),
{
    small_numbers_are_what_they_are_called();
    let (n, c, u, r) = (
        x.len() - 1,
        crossings(x) as int,
        unit(),
        crossing_rate(ar, x).units(),
    );
    assert(r * n == c * u) by (nonlinear_arith)
        requires
            r * (n * u) == (c * u) * u,
            u > 0,
    ;
}

/// A frame is voiced if a finite pitch of at least 40 was detected and its signs change between
/// fewer than 0.22 of its neighbours, and only then.
pub proof fn voices_have_a_pitch_and_few_sign_changes(ar: Arith, x: Seq<Scalar>, hz: Scalar)
    ensures
        is_voiced(ar, x, hz) <==> {
            &&& hz.finite()
            &&& hz.units() >= 40 * unit()
            &&& !crossing_rate(ar, x).nan()
            &&& crossing_rate(ar, x).units() < num(0x3e61_47ae).units()
        },
{
    whole_patterns_are_whole();
}

/// A pitch ratio beyond an octave acts as the octave does, and one within it as it is: what a
/// block gives depends on the ratio by that alone.
pub proof fn ratios_beyond_an_octave_count_as_the_octave(
    ar: Arith,
    s: PsolaState,
    ratio: Scalar,
    hz: Scalar,
    input: Seq<Scalar>,
)
    ensures
        !ratio.nan() && ratio.units() > 2 * unit() ==> after_block(ar, s, ratio, hz, input)
            == after_block(ar, s, num(TWO), hz, input) && block_out(ar, s, ratio, hz, input)
            == block_out(ar, s, num(TWO), hz, input),
        !ratio.nan() && 2 * ratio.units() < unit() ==> after_block(ar, s, ratio, hz, input)
            == after_block(ar, s, num(HALF), hz, input) && block_out(ar, s, ratio, hz, input)
            == block_out(ar, s, num(HALF), hz, input),
        unit() <= 2 * ratio.units() <= 4 * unit() && !ratio.nan() ==> octave_range(ratio) == ratio,
{
    small_numbers_are_what_they_are_called();
    if !ratio.nan() && ratio.units() > 2 * unit() {
        lemma_same_range(ar, s, ratio, num(TWO), hz, input);
    }
    if !ratio.nan() && 2 * ratio.units() < unit() {
        lemma_same_range(ar, s, ratio, num(HALF), hz, input);
    }
}

proof fn lemma_same_range(
    ar: Arith,
    s: PsolaState,
    ratio: Scalar,
    other: Scalar,
    hz: Scalar,
    input: Seq<Scalar>,
)
    requires
        octave_range(ratio) == octave_range(other),
    ensures
        after_block(ar, s, ratio, hz, input) == after_block(ar, s, other, hz, input),
        block_out(ar, s, ratio, hz, input) == block_out(ar, s, other, hz, input),
{
    lemma_same_range_block(ar, s, ratio, other, hz, input);
    assert forall|i: int| 0 <= i < input.len() implies block_out(ar, s, ratio, hz, input)[i]
        == block_out(ar, s, other, hz, input)[i] by {
        lemma_same_range_block(ar, s, ratio, other, hz, input.take(i));
    }
    assert(block_out(ar, s, ratio, hz, input) =~= block_out(ar, s, other, hz, input));
}

proof fn lemma_same_range_block(
    ar: Arith,
    s: PsolaState,
    ratio: Scalar,
    other: Scalar,
    hz: Scalar,
    input: Seq<Scalar>,
)
    requires
        octave_range(ratio) == octave_range(other),
    ensures
        after_block(ar, s, ratio, hz, input) == after_block(ar, s, other, hz, input),
    decreases input.len(),
{
    if input.len() > 0 {
        lemma_same_range_block(ar, s, ratio, other, hz, input.drop_last());
    }
}

/// The frame of a shifter is the shortest that is a power of two, at least 256 and at least what
/// is asked: half of it would be too short. Its step is the frame over the overlap, rounded
/// down, with an overlap of at least 2 and a step of at least 1.
pub proof fn frame_is_the_next_power_of_two(cfg: PsolaConfig)
    ensures
        ({
            let (frame, step) = (frame_size_of(cfg), step_size_of(cfg));
            let asked: int = if cfg.frame_size < 256 {
                256
            } else {
                cfg.frame_size as int
            };
            let overlap: int = if cfg.overlap < 2 {
                2
            } else {
                cfg.overlap as int
            };
            &&& asked <= frame < 2 * asked
            &&& exists|e: nat| frame == #[trigger] pow2(e)
            &&& 1 <= step
            &&& step * overlap <= frame || step == 1
            &&& frame < (step + 1) * overlap
        }),
{
    let asked: nat = if cfg.frame_size < 256 {
        256
    } else {
        cfg.frame_size as nat
    };
    let overlap: int = if cfg.overlap < 2 {
        2
    } else {
        cfg.overlap as int
    };
    lemma2_to64();
    lemma_doubling(0, asked);
    let frame = frame_size_of(cfg) as int;
    lemma_fundamental_div_mod(frame, overlap);
    lemma_mod_bound(frame, overlap);
    let (q, step) = (frame / overlap, step_size_of(cfg) as int);
    assert(q * overlap <= frame < (q + 1) * overlap) by (nonlinear_arith)
        requires
            frame == overlap * q + frame % overlap,
            0 <= frame % overlap < overlap,
    ;
    assert(frame < (step + 1) * overlap) by (nonlinear_arith)
        requires
            frame < (q + 1) * overlap,
            q <= step,
            0 < overlap,
    ;
}

proof fn lemma_doubling(e: nat, n: nat)
    requires
        pow2(e) < 2 * n,
    ensures
        n <= doubled_until(pow2(e), n) < 2 * n,
        exists|k: nat|
            doubled_until(pow2(e), n)
                == #[trigger] pow2(k),
    decreases 2 * n - pow2(e),
{
    lemma_pow2_pos(e);
    if pow2(e) < n {
        lemma_pow2_unfold(e + 1);
        lemma_doubling(e + 1, n);
    }
}

/// A frame is shifted when a step of samples has come in, voiced or not, and not before: the
/// shifter is then the one after that frame.
pub proof fn frames_are_shifted_at_every_step(
    ar: Arith,
    s: PsolaState,
    ratio: Scalar,
    hz: Scalar,
    x: Scalar,
)
    requires
        s.wf(),
    ensures
        ({
            let t = after_sample(ar, s, ratio, hz, x);
            let frame = s.in_fifo.update(s.rover, x);
            &&& s.rover + 1 < s.frame_size() ==> t == (PsolaState {
                in_fifo: frame,
                rover: s.rover + 1,
                ..s
            })
            &&& s.rover + 1 == s.frame_size() ==> t == after_frame(
                ar,
                PsolaState { in_fifo: frame, rover: s.frame_size() - s.step_size, ..s },
                ratio,
                hz,
            )
        }),
{
}

/// The window of a frame is the Hann curve over its length: the angle at a sample, times the
/// length, is a full turn times the number of the sample.
pub proof fn windows_span_the_frame(ar: Arith, n: nat, i: int)
    requires
        0 <= i < n,
        ({
            let (at, length) = (ar(Op::FromInt(i as i128)), ar(Op::FromInt(n as i128)));
            let turned = ar(Op::Mul(num(FULL_TURN), at));
            &&& is_whole(i, at)
            &&& is_whole(n as int, length)
            &&& is_product(num(FULL_TURN), at, turned)
            &&& is_quotient(turned, length, ar(Op::Div(turned, length)))
        }),
    ensures
        exists|angle: Scalar|
            #![trigger hann_at(ar, angle)]
            {
                &&& angle.units() * n == num(FULL_TURN).units() * i
                &&& hann(ar, n)[i] == hann_at(ar, angle)
            },
        hann(ar, n).len() == n,
{
    small_numbers_are_what_they_are_called();
    let (at, length) = (ar(Op::FromInt(i as i128)), ar(Op::FromInt(n as i128)));
    let turned = ar(Op::Mul(num(FULL_TURN), at));
    let angle = ar(Op::Div(turned, length));
    let (u, t, a, f) = (unit(), turned.units(), angle.units(), num(FULL_TURN).units());
    assert(t == f * i) by (nonlinear_arith)
        requires
            t * u == f * (i * u),
            u > 0,
    ;
    assert(a * n == f * i) by (nonlinear_arith)
        requires
            a * (n * u) == t * u,
            t == f * i,
            u > 0,
    ;
    assert(hann(ar, n)[i] == hann_at(ar, angle));
}

/// A shifter starts without a pitch, with all of the shifted signal in its mix, and with nothing
/// but silence in it; a frame has at most an eighth as many marks as samples, but up to sixteen.
pub proof fn shifter_starts_at_rest(ar: Arith, rate: Scalar, cfg: PsolaConfig)
    ensures
        ({
            let s = fresh(ar, rate, cfg);
            let n = frame_size_of(cfg);
            &&& s.sample_rate == rate
            &&& s.period == num(ZERO)
            &&& s.voiced_mix == num(ONE)
            &&& s.frame_size() == n
            &&& s.step_size == step_size_of(cfg)
            &&& s.rover == n - step_size_of(cfg)
            &&& s.window == hann(ar, n)
            &&& s.in_fifo == Seq::new(n, |i: int| num(ZERO))
            &&& s.out_fifo == Seq::new(n, |i: int| num(ZERO))
            &&& s.output_accum == Seq::new(2 * n, |i: int| num(ZERO))
            &&& s.gain_accum == Seq::new(2 * n, |i: int| num(ZERO))
        }),
        forall|s: PsolaState|
            #![trigger s.max_marks()]
            {
                let n = s.frame_size() / 8;
                s.max_marks() == if n < 16 {
                    16
                } else {
                    n
                }
            },
{
    let s = fresh(ar, rate, cfg);
    let n = frame_size_of(cfg);
    assert(s.in_fifo =~= Seq::new(n, |i: int| num(ZERO)));
    assert(s.output_accum =~= Seq::new(2 * n, |i: int| num(ZERO)));
}

/// What leaves the overlap-add, times the sum of the windows over it, is the sum of what they
/// weighted, cut to -1 to 1; and silence where the windows add up to no more than 1e-6.
pub proof fn sums_are_divided_by_their_windows(ar: Arith, sum: Scalar, gain: Scalar)
    requires
        !gain.nan(),
        gain.units() > num(0x3586_37bd).units() ==> is_quotient(
            sum,
            gain,
            ar(Op::Div(sum, gain)),
        ),
    ensures
        ({
            let (y, s, g, u) = (normalised(ar, sum, gain).units(), sum.units(), gain.units(), unit());
            &&& g <= num(0x3586_37bd).units() ==> y == 0
            &&& g > num(0x3586_37bd).units() && -g <= s <= g ==> y * g == s * u
            &&& g > num(0x3586_37bd).units() && s > g ==> y == u
            &&& g > num(0x3586_37bd).units() && s < -g ==> y == -u
        }),
{
    small_numbers_are_what_they_are_called();
    signs_are_taken_off_and_turned(num(ONE));
    assert(num(MINUS_ONE) == num(ONE).negated());
    assert(num(0x3586_37bd).units() > 0) by {
        assert(num(ZERO).below(num(0x3586_37bd))) by {
            broadcast use crate::scalar::group_scalar_order;

        }
    }
    if gain.units() > num(0x3586_37bd).units() {
        let q = ar(Op::Div(sum, gain)).units();
        let (s, g, u) = (sum.units(), gain.units(), unit());
        assert((q > u ==> s > g) && (q <= u ==> s <= g) && (q < -u ==> s < -g) && (q >= -u ==> s
            >= -g)) by (nonlinear_arith)
            requires
                q * g == s * u,
                g > 0,
                u > 0,
        ;
    }
}

/// A time of less than a sample counts as one sample: what is left is the exponential of the
/// samples of the step with the other sign.
pub proof fn times_of_less_than_a_sample_count_as_one(
    ar: Arith,
    time_ms: Scalar,
    sample_rate: Scalar,
    hop_size: usize,
)
    requires
        hop_size > 0,
        ({
            let ms = if time_ms.nan() || time_ms.units() < unit() {
                num(ONE)
            } else {
                time_ms
            };
            let samples = ar(Op::Mul(ar(Op::Mul(ms, num(0x3a83_126f))), sample_rate));
            samples.nan() || samples.units() < unit()
        }),
    ensures
        decay(ar, time_ms, sample_rate, hop_size) == ar(
            Op::Exp(ar(Op::Div(ar(Op::FromInt(hop_size as i128)).negated(), num(ONE)))),
        ),
{
    small_numbers_are_what_they_are_called();
}

/// Grains add up where they overlap: one grain more adds, at each position up to the radius from
/// where it is laid, the sample that lies as far from the nearest pitch mark, times its weight
/// there, to what was laid, and the weight to the weights, where that is exact; at all other
/// positions nothing is changed. Before the first there is silence.
pub proof fn overlapping_grains_add_up(
    ar: Arith,
    x: Seq<Scalar>,
    radius: int,
    analysis: Seq<usize>,
    synthesis: Seq<usize>,
    n: nat,
    m: int,
    i: int,
)
    requires
        n < synthesis.len(),
        0 <= i < x.len(),
        is_nearest_mark(analysis, synthesis[n as int], m),
        ({
            let (to, from) = (synthesis[n as int] as int, analysis[m] as int);
            let laid = with_grains(ar, x, radius, analysis, synthesis, n);
            let w = grain_weight(ar, i - to, radius);
            let y = ar(Op::Mul(x[from + (i - to)], w));
            gap(i, to) <= radius && 0 <= from + (i - to) < x.len() ==> {
                &&& is_product(x[from + (i - to)], w, y)
                &&& is_sum(laid.samples[i], y, ar(Op::Add(laid.samples[i], y)))
                &&& is_sum(laid.weights[i], w, ar(Op::Add(laid.weights[i], w)))
            }
        }),
    ensures
        ({
            let (to, from) = (synthesis[n as int] as int, analysis[m] as int);
            let laid = with_grains(ar, x, radius, analysis, synthesis, n);
            let more = with_grains(ar, x, radius, analysis, synthesis, n + 1);
            let w = grain_weight(ar, i - to, radius).units();
            if gap(i, to) <= radius && 0 <= from + (i - to) < x.len() {
                &&& (more.samples[i].units() - laid.samples[i].units()) * unit() == x[from + (i
                    - to)].units() * w
                &&& more.weights[i].units() - laid.weights[i].units() == w
            } else {
                more.samples[i] == laid.samples[i] && more.weights[i] == laid.weights[i]
            }
        }),
        with_grains(ar, x, radius, analysis, synthesis, 0).samples[i] == num(ZERO),
        with_grains(ar, x, radius, analysis, synthesis, 0).weights[i] == num(ZERO),
{
    let k = nearest_mark(analysis, synthesis[n as int]);
    assert(is_nearest_mark(analysis, synthesis[n as int], k));
    lemma_nearest_is_one(analysis, synthesis[n as int], k, m);
}

proof fn lemma_nearest_is_one(marks: Seq<usize>, position: usize, a: int, b: int)
    requires
        is_nearest_mark(marks, position, a),
        is_nearest_mark(marks, position, b),
    ensures
        a == b,
{
    if a < b {
        assert(apart(marks[a], position) < apart(marks[b], position));
        assert(apart(marks[b], position) <= apart(marks[a], position));
    } else if b < a {
        assert(apart(marks[b], position) < apart(marks[a], position));
        assert(apart(marks[a], position) <= apart(marks[b], position));
    }
}

/// A shifted frame, of which two pitch marks were found and which has room for a grain, is what
/// all of its grains add up to, divided by what their weights add up to where that is more than
/// 1e-6; a frame with fewer stays as it is.
pub proof fn shifted_frames_are_levelled_grains(
    ar: Arith,
    x: Seq<Scalar>,
    period: usize,
    spacing: usize,
    max_marks: nat,
    i: int,
)
    requires
        0 <= i < x.len(),
        ({
            let analysis = analysis_marks(ar, x, period as int, max_marks);
            let synthesis = synthesis_marks(
                x.len() as int,
                spacing as int,
                period as int,
                max_marks as int,
            );
            let laid = with_grains(
                ar,
                x,
                period as int,
                analysis,
                synthesis,
                synthesis.len(),
            );
            let (s, w) = (laid.samples[i], laid.weights[i]);
            !w.nan() && (w.units() > num(0x3586_37bd).units() ==> is_quotient(
                s,
                w,
                ar(Op::Div(s, w)),
            ))
        }),
    ensures
        ({
            let analysis = analysis_marks(ar, x, period as int, max_marks);
            let synthesis = synthesis_marks(
                x.len() as int,
                spacing as int,
                period as int,
                max_marks as int,
            );
            let laid = with_grains(
                ar,
                x,
                period as int,
                analysis,
                synthesis,
                synthesis.len(),
            );
            let (s, w) = (laid.samples[i].units(), laid.weights[i].units());
            let y = shifted(ar, x, period, spacing, max_marks)[i];
            if analysis.len() >= 2 && synthesis.len() >= 1 {
                &&& w > num(0x3586_37bd).units() ==> y.units() * w == s * unit()
                &&& w <= num(0x3586_37bd).units() ==> y == laid.samples[i]
            } else {
                y == x[i]
            }
        }),
        shifted(ar, x, period, spacing, max_marks).len() == x.len(),
{
    let analysis = analysis_marks(ar, x, period as int, max_marks);
    let synthesis = synthesis_marks(
        x.len() as int,
        spacing as int,
        period as int,
        max_marks as int,
    );
    lemma_laid_len(ar, x, period as int, analysis, synthesis, synthesis.len());
}

} // verus!
