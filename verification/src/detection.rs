//! What a detector reports: the sample rate over a lag at which the frame is like itself.
use vstd::prelude::*;

use crate::arith::{Arith, Op};
use crate::buffer::{mean_of, total};
use crate::exact::{
    gap, is_difference, is_product, is_quotient, is_rounded, is_sum, is_whole,
    rounded_numbers_are_whole, signs_are_taken_off_and_turned,
    small_numbers_are_what_they_are_called, unit,
    whole_numbers_count_as_themselves, whole_patterns_are_whole,
};
use crate::scalar::{num, Scalar, MINUS_ONE, ONE, TWO, ZERO};
use crate::yin::{
    chosen_lag, curve, difference, difference_at, difference_sum, estimate_at, estimate_of,
    is_quiet, normal_difference, parabola_offset, setup, squares, windowed, PitchEstimate,
    YinSetup,
};

verus! {

/// A detector keeps the sample rate, the length of frames and the threshold that it is set up
/// with; a threshold beyond 0.01 to 0.4 counts as the nearer of the two.
pub proof fn detector_keeps_its_settings(
    ar: Arith,
    rate: Scalar,
    frame_size: nat,
    low: Scalar,
    high: Scalar,
    threshold: Scalar,
)
    requires
        !threshold.nan(),
    ensures
        ({
            let s = setup(ar, rate, frame_size, low, high, threshold);
            let (a, b) = (num(0x3c23_d70a), num(0x3ecc_cccd));
            &&& s.sample_rate == rate
            &&& s.frame_size == frame_size
            &&& s.window.len() == frame_size
            &&& a.units() <= threshold.units() <= b.units() ==> s.threshold == threshold
            &&& threshold.units() < a.units() ==> s.threshold == a
            &&& threshold.units() > b.units() ==> s.threshold == b
        }),
{
    assert(num(0x3c23_d70a).at_most(num(0x3ecc_cccd))) by {
        broadcast use crate::scalar::group_scalar_order;

    }
}

/// The lag that stands for a frequency: a whole number of samples that, times the frequency, is
/// within half the frequency of the sample rate.
pub open spec fn is_lag_of(rate: Scalar, hz: Scalar, lag: int) -> bool {
    2 * gap(lag * hz.units(), rate.units()) <= hz.units()
}

proof fn lemma_lag(rate: Scalar, hz: Scalar, quotient: Scalar, rounded: Scalar)
    requires
        hz.units() > 0,
        rate.units() >= 0,
        is_quotient(rate, hz, quotient),
        is_rounded(quotient, rounded),
        rounded.units() <= usize::MAX * unit(),
    ensures
        is_lag_of(rate, hz, rounded.count() as int),
{
    small_numbers_are_what_they_are_called();
    rounded_numbers_are_whole(quotient, rounded);
    let (u, f, r, x) = (unit(), hz.units(), rate.units(), quotient.units());
    let n = rounded.units() / u;
    assert(x >= 0) by (nonlinear_arith)
        requires
            x * f == r * u,
            r >= 0,
            f > 0,
            u > 0,
    ;
    assert(0 <= n <= usize::MAX) by (nonlinear_arith)
        requires
            2 * gap(n * u, x) <= u,
            x >= 0,
            n * u <= usize::MAX * u,
            u > 0,
    ;
    whole_numbers_count_as_themselves(n, rounded);
    assert(2 * gap(n * f, r) <= f) by (nonlinear_arith)
        requires
            2 * gap(n * u, x) <= u,
            x * f == r * u,
            f > 0,
            u > 0,
    ;
}

/// The lags that a detector searches are the sample rate over the frequencies that it is to
/// find: the shortest is that of the highest one, the longest that of the lowest, as far as the
/// frame is long enough for it and two samples more.
pub proof fn lags_are_the_rate_over_the_frequencies(
    ar: Arith,
    rate: Scalar,
    frame_size: nat,
    low: Scalar,
    high: Scalar,
    threshold: Scalar,
)
    requires
        rate.units() >= 0,
        frame_size >= 2,
        num(0x41a0_0000).at_most(low),
        is_sum(low, num(ONE), ar(Op::Add(low, num(ONE)))),
        low.units() + unit() <= high.units(),
        !high.nan(),
        ({
            let (a, b) = (ar(Op::Div(rate, low)), ar(Op::Div(rate, high)));
            let (m, n) = (ar(Op::Round(a)), ar(Op::Round(b)));
            &&& is_quotient(rate, low, a)
            &&& is_quotient(rate, high, b)
            &&& is_rounded(a, m)
            &&& is_rounded(b, n)
            &&& m.units() <= usize::MAX * unit()
            &&& n.units() <= usize::MAX * unit()
        }),
    ensures
        ({
            let s = setup(ar, rate, frame_size, low, high, threshold);
            &&& is_lag_of(rate, high, s.min_tau as int)
            &&& s.max_tau <= frame_size - 2
            &&& s.max_tau < frame_size - 2 ==> is_lag_of(rate, low, s.max_tau as int) || s.max_tau
                == s.min_tau + 2
            &&& s.min_tau + 2 <= s.max_tau || s.max_tau == frame_size - 2
        }),
{
    small_numbers_are_what_they_are_called();
    whole_patterns_are_whole();
    let (a, b) = (ar(Op::Div(rate, low)), ar(Op::Div(rate, high)));
    lemma_lag(rate, low, a, ar(Op::Round(a)));
    lemma_lag(rate, high, b, ar(Op::Round(b)));
    assert(low.larger(num(0x41a0_0000)) == low);
    assert(high.larger(ar(Op::Add(low, num(ONE)))) == high);
}

/// What a detector makes of a frame. It makes nothing of one that is longer than it is set up
/// for, or too short for its longest lag and two samples more. Of a quiet one it reports that it
/// has no voice. Of every other one it reports the sample rate that it was set up with, over a
/// lag next to the one that is chosen; and nothing where that one is at either end.
pub proof fn reports_are_the_rate_over_a_lag(
    ar: Arith,
    rate: Scalar,
    frame_size: nat,
    low: Scalar,
    high: Scalar,
    threshold: Scalar,
    frame: Seq<Scalar>,
)
    ensures
        ({
            let s = setup(ar, rate, frame_size, low, high, threshold);
            let c = curve(ar, windowed(ar, s.window, frame), s);
            let tau = chosen_lag(c, s);
            let r = estimate_of(ar, s, frame);
            let fits = s.max_tau + 2 <= frame.len() <= frame_size;
            let quiet = is_quiet(ar, s, frame);
            &&& !fits ==> r is None
            &&& fits && quiet ==> r == Some(
                PitchEstimate { frequency_hz: num(ZERO), confidence: num(ZERO), voiced: false },
            )
            &&& fits && !quiet ==> (r is Some <==> s.min_tau < tau < s.max_tau)
            &&& fits && !quiet && r is Some ==> exists|lag: Scalar|
                #![trigger ar(Op::Div(rate, lag))]
                {
                    &&& r->0.frequency_hz == ar(Op::Div(rate, lag))
                    &&& lag == ar(
                        Op::Add(
                            ar(Op::FromInt(tau as i128)),
                            parabola_offset(ar, c[tau - 1], c[tau], c[tau + 1]),
                        ),
                    ).larger(num(ONE))
                }
        }),
{
    let s = setup(ar, rate, frame_size, low, high, threshold);
    let c = curve(ar, windowed(ar, s.window, frame), s);
    let tau = chosen_lag(c, s);
    let lag = ar(
        Op::Add(
            ar(Op::FromInt(tau as i128)),
            parabola_offset(ar, c[tau - 1], c[tau], c[tau + 1]),
        ),
    ).larger(num(ONE));
    assert(estimate_at(ar, c, s, tau).frequency_hz == ar(Op::Div(rate, lag)));
}

/// The frequency that is reported for a lag, times a lag that is within one of it, is the sample
/// rate that the detector was set up with, where the operations on the lag are exact.
pub proof fn frequency_times_lag_is_the_rate(
    ar: Arith,
    rate: Scalar,
    frame_size: nat,
    low: Scalar,
    high: Scalar,
    threshold: Scalar,
    c: Seq<Scalar>,
    tau: int,
)
    requires
        2 <= tau,
        ({
            let delta = parabola_offset(ar, c[tau - 1], c[tau], c[tau + 1]);
            let n = ar(Op::FromInt(tau as i128));
            let lag = ar(Op::Add(n, delta));
            &&& !delta.nan()
            &&& is_whole(tau, n)
            &&& is_sum(n, delta, lag)
            &&& is_quotient(rate, lag, ar(Op::Div(rate, lag)))
        }),
    ensures
        ({
            let s = setup(ar, rate, frame_size, low, high, threshold);
            let e = estimate_at(ar, c, s, tau);
            exists|lag: int|
                {
                    &&& gap(lag, tau * unit()) <= unit()
                    &&& #[trigger] (e.frequency_hz.units() * lag) == rate.units() * unit()
                }
        }),
{
    small_numbers_are_what_they_are_called();
    let s = setup(ar, rate, frame_size, low, high, threshold);
    let delta = parabola_offset(ar, c[tau - 1], c[tau], c[tau + 1]);
    lemma_offset_within_one(ar, c[tau - 1], c[tau], c[tau + 1]);
    let n = ar(Op::FromInt(tau as i128));
    let lag = ar(Op::Add(n, delta));
    let u = unit();
    assert(tau * u - u >= u) by (nonlinear_arith)
        requires
            2 <= tau,
            u > 0,
    ;
    assert(lag.larger(num(ONE)) == lag);
    let e = estimate_at(ar, c, s, tau);
    assert(e.frequency_hz == ar(Op::Div(rate, lag)));
    assert(e.frequency_hz.units() * lag.units() == rate.units() * u);
}

proof fn lemma_offset_within_one(ar: Arith, x0: Scalar, x1: Scalar, x2: Scalar)
    requires
        !parabola_offset(ar, x0, x1, x2).nan(),
    ensures
        -unit() <= parabola_offset(ar, x0, x1, x2).units() <= unit(),
{
    small_numbers_are_what_they_are_called();
    lemma_minus_one();
    let denom = ar(
        Op::Mul(num(TWO), ar(Op::Sub(ar(Op::Sub(ar(Op::Mul(num(TWO), x1)), x0)), x2))),
    );
    let delta = if num(0x3089_705f).below(denom.absolute()) {
        ar(Op::Div(ar(Op::Sub(x0, x2)), denom))
    } else {
        num(ZERO)
    };
    assert(parabola_offset(ar, x0, x1, x2) == delta.clamped(num(MINUS_ONE), num(ONE)));
}

proof fn lemma_minus_one()
    ensures
        num(MINUS_ONE).units() == -unit(),
{
    small_numbers_are_what_they_are_called();
    assert(num(MINUS_ONE).magnitude() == num(ONE).magnitude());
}

/// The offset between the lags is none where the neighbours are alike, and otherwise what, times
/// twice the curvature of the three values, is the difference of the neighbours, at most one
/// either way.
pub proof fn offset_times_curvature_is_the_slope(ar: Arith, x0: Scalar, x1: Scalar, x2: Scalar)
    requires
        ({
            let twice = ar(Op::Mul(num(TWO), x1));
            let once = ar(Op::Sub(twice, x0));
            let bend = ar(Op::Sub(once, x2));
            let denom = ar(Op::Mul(num(TWO), bend));
            let slope = ar(Op::Sub(x0, x2));
            &&& is_product(num(TWO), x1, twice)
            &&& is_difference(twice, x0, once)
            &&& is_difference(once, x2, bend)
            &&& is_product(num(TWO), bend, denom)
            &&& is_difference(x0, x2, slope)
            &&& num(0x3089_705f).below(denom.absolute())
            &&& is_quotient(slope, denom, ar(Op::Div(slope, denom)))
        }),
    ensures
        ({
            let d = parabola_offset(ar, x0, x1, x2).units();
            let bend = 2 * (2 * x1.units() - x0.units() - x2.units());
            let slope = x0.units() - x2.units();
            &&& slope == 0 ==> d == 0
            &&& -unit() < d < unit() ==> d * bend == slope * unit()
            &&& gap(slope, 0) <= gap(bend, 0) ==> d * bend == slope * unit()
        }),
{
    small_numbers_are_what_they_are_called();
    lemma_minus_one();
    let twice = ar(Op::Mul(num(TWO), x1));
    let bend = ar(Op::Sub(ar(Op::Sub(twice, x0)), x2));
    let denom = ar(Op::Mul(num(TWO), bend));
    let slope = ar(Op::Sub(x0, x2));
    let q = ar(Op::Div(slope, denom));
    let (u, t, a, b) = (unit(), twice.units(), x1.units(), bend.units());
    assert(t == 2 * a) by (nonlinear_arith)
        requires
            t * u == (2 * u) * a,
            u > 0,
    ;
    let d = denom.units();
    assert(d == 2 * b) by (nonlinear_arith)
        requires
            d * u == (2 * u) * b,
            u > 0,
    ;
    let (x, s) = (q.units(), slope.units());
    assert(s == 0 ==> x == 0) by (nonlinear_arith)
        requires
            x * d == s * u,
            d != 0,
            u > 0,
    ;
    assert(gap(s, 0) <= gap(d, 0) ==> -u <= x <= u) by (nonlinear_arith)
        requires
            x * d == s * u,
            d != 0,
            u > 0,
    ;
}

/// The confidence of a report is 1 less the value of its lag, where that lies within 0 to 1, and
/// the report is voiced if the value is at most the threshold, and only then.
pub proof fn confidence_is_what_the_value_leaves(
    ar: Arith,
    c: Seq<Scalar>,
    s: YinSetup,
    tau: int,
)
    requires
        0 <= c[tau].units() <= unit(),
        is_difference(num(ONE), c[tau], ar(Op::Sub(num(ONE), c[tau]))),
        is_difference(num(ONE), s.threshold, ar(Op::Sub(num(ONE), s.threshold))),
    ensures
        ({
            let e = estimate_at(ar, c, s, tau);
            &&& e.confidence.units() == unit() - c[tau].units()
            &&& e.voiced <==> c[tau].units() <= s.threshold.units()
        }),
{
    small_numbers_are_what_they_are_called();
}

/// Arithmetic in which nothing differs from itself, and nothing adds up to nothing.
pub open spec fn cancels(ar: Arith) -> bool {
    &&& forall|x: Scalar| x.finite() ==> #[trigger] ar(Op::Sub(x, x)) == num(ZERO)
    &&& ar(Op::Mul(num(ZERO), num(ZERO))) == num(ZERO)
    &&& ar(Op::Add(num(ZERO), num(ZERO))) == num(ZERO)
}

/// A signal that repeats after a lag does not differ from itself at that lag.
pub proof fn periodic_frames_do_not_differ_at_their_period(
    ar: Arith,
    w: Seq<Scalar>,
    tau: int,
)
    requires
        cancels(ar),
        0 <= tau <= w.len(),
        forall|i: int| 0 <= i < w.len() - tau ==> (#[trigger] w[i]).finite() && w[i] == w[i + tau],
    ensures
        difference_at(ar, w, tau) == num(ZERO),
{
    lemma_no_difference(ar, w, tau, w.len() - tau);
}

proof fn lemma_no_difference(ar: Arith, w: Seq<Scalar>, tau: int, count: int)
    requires
        cancels(ar),
        0 <= tau,
        count <= w.len() - tau,
        forall|i: int| 0 <= i < w.len() - tau ==> (#[trigger] w[i]).finite() && w[i] == w[i + tau],
    ensures
        difference(ar, w, tau, count) == num(ZERO),
    decreases count,
{
    if count > 0 {
        lemma_no_difference(ar, w, tau, count - 1);
        assert(w[count - 1].finite());
    }
}

/// A pair of samples more adds the square of its difference, where that is exact; and all pairs
/// that lie the lag apart in the frame are counted.
pub proof fn differences_add_squares(ar: Arith, w: Seq<Scalar>, tau: int, count: int)
    requires
        0 <= count,
        ({
            let d = ar(Op::Sub(w[count], w[count + tau]));
            let square = ar(Op::Mul(d, d));
            let before = difference(ar, w, tau, count);
            &&& is_difference(w[count], w[count + tau], d)
            &&& is_product(d, d, square)
            &&& is_sum(before, square, ar(Op::Add(before, square)))
        }),
    ensures
        ({
            let d = w[count].units() - w[count + tau].units();
            let more = difference(ar, w, tau, count + 1).units();
            (more - difference(ar, w, tau, count).units()) * unit() == d * d
        }),
        difference(ar, w, tau, 0) == num(ZERO),
        count + 1 + tau == w.len() ==> difference_at(ar, w, tau) == difference(
            ar,
            w,
            tau,
            count + 1,
        ),
{
}

/// The value of a lag, times the sum of the differences up to it, is its own difference times
/// the lag; and 1 where the sum is not positive. The sum goes from the shortest lag on.
pub proof fn values_compare_with_the_mean_so_far(
    ar: Arith,
    w: Seq<Scalar>,
    s: YinSetup,
    tau: int,
)
    requires
        s.min_tau <= tau <= s.max_tau,
        ({
            let (d, n) = (difference_at(ar, w, tau), ar(Op::FromInt(tau as i128)));
            let sum = difference_sum(ar, w, s.min_tau as int, tau);
            let product = ar(Op::Mul(d, n));
            &&& is_whole(tau, n)
            &&& is_product(d, n, product)
            &&& !sum.nan()
            &&& sum.units() > 0 ==> is_quotient(product, sum, ar(Op::Div(product, sum)))
        }),
    ensures
        ({
            let sum = difference_sum(ar, w, s.min_tau as int, tau);
            let before = difference_sum(ar, w, s.min_tau as int, tau - 1);
            let value = curve(ar, w, s)[tau];
            &&& sum.units() > 0 ==> value.units() * sum.units() == difference_at(
                ar,
                w,
                tau,
            ).units() * tau * unit()
            &&& sum.units() <= 0 ==> value == num(ONE)
            &&& sum == ar(Op::Add(before, difference_at(ar, w, tau)))
            &&& tau == s.min_tau ==> before == num(ZERO)
        }),
{
    small_numbers_are_what_they_are_called();
    let (d, n) = (difference_at(ar, w, tau), ar(Op::FromInt(tau as i128)));
    let sum = difference_sum(ar, w, s.min_tau as int, tau);
    let product = ar(Op::Mul(d, n));
    let value = curve(ar, w, s)[tau];
    assert(value == normal_difference(ar, w, s.min_tau as int, tau));
    if sum.units() > 0 {
        let (u, x, p, q, v) = (unit(), d.units(), product.units(), sum.units(), value.units());
        assert(v * q == x * tau * u) by (nonlinear_arith)
            requires
                p * u == x * (tau * u),
                v * q == p * u,
                u > 0,
        ;
    }
}

/// A frame is looked at without its mean, under the window: each sample less the mean, times
/// the window there, where that is exact.
pub proof fn frames_are_freed_of_their_mean(
    ar: Arith,
    window: Seq<Scalar>,
    frame: Seq<Scalar>,
    i: int,
)
    requires
        0 <= i < frame.len(),
        ({
            let n = ar(Op::FromInt(frame.len() as i128));
            let mean = ar(Op::Div(total(ar, frame), n));
            let centred = ar(Op::Sub(frame[i], mean));
            &&& is_whole(frame.len() as int, n)
            &&& is_quotient(total(ar, frame), n, mean)
            &&& is_difference(frame[i], mean, centred)
            &&& is_product(centred, window[i], ar(Op::Mul(centred, window[i])))
        }),
    ensures
        exists|mean: int|
            {
                &&& #[trigger] (mean * frame.len()) == total(ar, frame).units()
                &&& windowed(ar, window, frame)[i].units() * unit() == (frame[i].units() - mean)
                    * window[i].units()
            },
{
    small_numbers_are_what_they_are_called();
    let mean = mean_of(ar, frame).units();
    let (u, n, t) = (unit(), frame.len() as int, total(ar, frame).units());
    assert(mean * n == t) by (nonlinear_arith)
        requires
            mean * (n * u) == t * u,
            u > 0,
    ;
    assert(mean * frame.len() == t);
}

/// A frame is quiet if the root of the mean square of what is looked at is below 1e-5, and only
/// then.
pub proof fn quiet_frames_are_below_the_floor(ar: Arith, s: YinSetup, frame: Seq<Scalar>)
    ensures
        ({
            let w = windowed(ar, s.window, frame);
            let mean = ar(Op::Div(total(ar, squares(ar, w)), ar(Op::FromInt(w.len() as i128))));
            let root = ar(Op::Sqrt(mean));
            is_quiet(ar, s, frame) <==> !root.nan() && root.units() < num(0x3727_c5ac).units()
        }),
        forall|w: Seq<Scalar>, i: int|
            0 <= i < w.len() ==> #[trigger] squares(ar, w)[i] == ar(Op::Mul(w[i], w[i])),
{
}

/// Values that hardly bend are not refined: where twice the curvature is no more than 1e-9 the
/// offset is none.
pub proof fn flat_values_are_not_refined(ar: Arith, x0: Scalar, x1: Scalar, x2: Scalar)
    requires
        ({
            let bend = ar(Op::Sub(ar(Op::Sub(ar(Op::Mul(num(TWO), x1)), x0)), x2));
            let denom = ar(Op::Mul(num(TWO), bend));
            denom.nan() || gap(denom.units(), 0) <= num(0x3089_705f).units()
        }),
    ensures
        parabola_offset(ar, x0, x1, x2).units() == 0,
{
    small_numbers_are_what_they_are_called();
    lemma_minus_one();
    let denom = ar(
        Op::Mul(num(TWO), ar(Op::Sub(ar(Op::Sub(ar(Op::Mul(num(TWO), x1)), x0)), x2))),
    );
    signs_are_taken_off_and_turned(denom);
}

/// A value of 1 or more leaves no confidence, and one below 0 all of it.
pub proof fn confidence_is_cut(ar: Arith, c: Seq<Scalar>, s: YinSetup, tau: int)
    requires
        is_difference(num(ONE), c[tau], ar(Op::Sub(num(ONE), c[tau]))),
    ensures
        c[tau].units() >= unit() ==> estimate_at(ar, c, s, tau).confidence.units() == 0,
        c[tau].units() <= 0 ==> estimate_at(ar, c, s, tau).confidence.units() == unit(),
{
    small_numbers_are_what_they_are_called();
}

/// A lowest frequency below 20 counts as 20 for the longest lag.
pub proof fn lowest_frequency_is_at_least_20(
    ar: Arith,
    rate: Scalar,
    frame_size: nat,
    low: Scalar,
    high: Scalar,
    threshold: Scalar,
)
    requires
        low.nan() || low.units() < 20 * unit(),
        !high.nan(),
        low.nan() ==> ar(Op::Add(low, num(ONE))).nan(),
        !ar(Op::Add(low, num(ONE))).nan() ==> ar(Op::Add(low, num(ONE))).units() <= high.units(),
        is_sum(num(0x41a0_0000), num(ONE), ar(Op::Add(num(0x41a0_0000), num(ONE)))),
        21 * unit() <= high.units(),
    ensures
        setup(ar, rate, frame_size, low, high, threshold) == setup(
            ar,
            rate,
            frame_size,
            num(0x41a0_0000),
            high,
            threshold,
        ),
{
    small_numbers_are_what_they_are_called();
    whole_patterns_are_whole();
    let twenty = num(0x41a0_0000);
    assert(low.larger(twenty) == twenty.larger(twenty));
    let s = setup(ar, rate, frame_size, low, high, threshold);
    let t = setup(ar, rate, frame_size, twenty, high, threshold);
    assert(high.larger(ar(Op::Add(low, num(ONE)))) == high);
    assert(high.larger(ar(Op::Add(twenty, num(ONE)))) == high);
    assert(s.window == t.window);
}

} // verus!
