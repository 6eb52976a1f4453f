//! Pitch marks: the positions in a frame, one period apart, that its grains are cut around.
use vstd::prelude::*;
use vstd::relations::{sorted_by, total_ordering};
use vstd::seq_lib::*;

use crate::arith::{apply, is_arithmetic, results, Arith, Op};
use crate::buffer::{lemma_pieces, pieces};
use crate::exact::{gap, is_product, is_sum, unit};
use crate::scalar::{num, Scalar, ZERO};

verus! {

/// The first `n` products of a period and the one after it, which starts at `at`, added up.
pub open spec fn correlated(ar: Arith, x: Seq<Scalar>, period: int, at: int, n: int) -> Scalar
    decreases n,
{
    if n <= 0 {
        num(ZERO)
    } else {
        ar(
            Op::Add(
                correlated(ar, x, period, at, n - 1),
                ar(Op::Mul(x[at - period + n - 1], x[at + n - 1])),
            ),
        )
    }
}

/// How much the periods before and after `at` are alike: the sum of their products.
pub open spec fn correlation(ar: Arith, x: Seq<Scalar>, period: int, at: int) -> Scalar {
    correlated(ar, x, period, at, period)
}

/// The first of the positions `lo..=hi` at which neighbouring periods are most alike; `lo`
/// where the correlation there is not a number, or where there is no other position.
pub open spec fn best_match(ar: Arith, x: Seq<Scalar>, period: int, lo: int, hi: int) -> int
    decreases hi - lo,
{
    if hi <= lo {
        lo
    } else {
        let p = best_match(ar, x, period, lo, hi - 1);
        if correlation(ar, x, period, p).below(correlation(ar, x, period, hi)) {
            hi
        } else {
            p
        }
    }
}

/// No position of a window has a higher correlation than the one that is chosen, and none
/// before it has as high a one, positions where the correlation is not a number aside.
pub proof fn best_match_correlates_most(
    ar: Arith,
    x: Seq<Scalar>,
    period: int,
    lo: int,
    hi: int,
)
    requires
        lo <= hi,
        !correlation(ar, x, period, lo).nan(),
    ensures
        ({
            let p = best_match(ar, x, period, lo, hi);
            &&& lo <= p <= hi
            &&& !correlation(ar, x, period, p).nan()
            &&& forall|i: int|
                lo <= i < p && !correlation(ar, x, period, i).nan() ==> #[trigger] correlation(
                    ar,
                    x,
                    period,
                    i,
                ).below(correlation(ar, x, period, p))
            &&& forall|i: int|
                p <= i <= hi && !correlation(ar, x, period, i).nan() ==> #[trigger] correlation(
                    ar,
                    x,
                    period,
                    i,
                ).at_most(correlation(ar, x, period, p))
        }),
    decreases hi - lo,
{
    broadcast use crate::scalar::group_scalar_order;

    if lo < hi {
        best_match_correlates_most(ar, x, period, lo, hi - 1);
        let q = best_match(ar, x, period, lo, hi - 1);
        let p = best_match(ar, x, period, lo, hi);
        let most = correlation(ar, x, period, p);
        assert forall|i: int|
            lo <= i < p && !correlation(ar, x, period, i).nan() implies #[trigger] correlation(
            ar,
            x,
            period,
            i,
        ).below(most) by {
            if p == hi {
                if i < q {
                    assert(correlation(ar, x, period, i).below(correlation(ar, x, period, q)));
                } else {
                    assert(correlation(ar, x, period, i).at_most(correlation(ar, x, period, q)));
                }
            }
        }
    }
}

proof fn lemma_match_range(ar: Arith, x: Seq<Scalar>, period: int, lo: int, hi: int)
    ensures
        lo <= best_match(ar, x, period, lo, hi),
        lo <= hi ==> best_match(ar, x, period, lo, hi) <= hi,
    decreases hi - lo,
{
    if lo < hi {
        lemma_match_range(ar, x, period, lo, hi - 1);
    }
}

fn correlation_at<F: Fn(Op) -> Scalar>(x: &Vec<Scalar>, period: usize, at: usize, f: &F) -> (r:
    Scalar)
    requires
        period <= at,
        at + period <= x@.len(),
        is_arithmetic(*f),
    ensures
        r == correlation(results(*f), x@, period as int, at as int),
{
    let n = x.len();
    let start: usize = at - period;
    let mut sum = num(ZERO);
    let mut k: usize = 0;
    while k < period
        invariant
            k <= period,
            n == x@.len(),
            start == at - period,
            at + period <= n,
            is_arithmetic(*f),
            sum == correlated(results(*f), x@, period as int, at as int, k as int),
        decreases period - k,
    {
        let product = apply(f, Op::Mul(x[start + k], x[at + k]));
        sum = apply(f, Op::Add(sum, product));
        k += 1;
    }
    sum
}

/// The first of the positions `lo..=hi` at which neighbouring periods are most alike.
fn find_best_match<F: Fn(Op) -> Scalar>(
    x: &Vec<Scalar>,
    period: usize,
    lo: usize,
    hi: usize,
    f: &F,
) -> (r: usize)
    requires
        period <= lo <= hi,
        hi + period < x@.len(),
        is_arithmetic(*f),
    ensures
        r == best_match(results(*f), x@, period as int, lo as int, hi as int),
        lo <= r <= hi,
{
    let n = x.len();
    let mut best = lo;
    let mut most = correlation_at(x, period, lo, f);
    let mut i: usize = lo;
    while i < hi
        invariant
            n == x@.len(),
            period <= lo <= best <= i <= hi,
            hi + period < n,
            is_arithmetic(*f),
            best == best_match(results(*f), x@, period as int, lo as int, i as int),
            most == correlation(results(*f), x@, period as int, best as int),
        decreases hi - i,
    {
        i += 1;
        let c = correlation_at(x, period, i, f);
        if most.lt(c) {
            most = c;
            best = i;
        }
    }
    best
}

/// The last position that leaves a period, and one sample, to the end of the frame.
pub open spec fn last_position(frame: int, period: int) -> int {
    if period + 1 <= frame {
        frame - (period + 1)
    } else {
        0
    }
}

/// How far from where it is expected a mark is looked for.
pub open spec fn search_radius(period: int) -> int {
    if period / 3 > 2 {
        period / 3
    } else {
        2
    }
}

pub open spec fn at_least(a: int, b: int) -> int {
    if a < b {
        b
    } else {
        a
    }
}

pub open spec fn no_more_than(a: int, b: int) -> int {
    if a < b {
        a
    } else {
        b
    }
}

/// The mark that is found where one is expected.
pub open spec fn mark_near(ar: Arith, x: Seq<Scalar>, period: int, expected: int) -> usize {
    best_match(
        ar,
        x,
        period,
        at_least(expected - search_radius(period), period),
        no_more_than(expected + search_radius(period), last_position(x.len() as int, period)),
    ) as usize
}

/// The marks to the left of `expected`, a period apart, at most `budget` of them.
pub open spec fn marks_to_left(
    ar: Arith,
    x: Seq<Scalar>,
    period: int,
    expected: int,
    budget: nat,
) -> Seq<usize>
    decreases budget,
{
    if expected > 2 * period && budget > 0 {
        seq![mark_near(ar, x, period, expected - period)] + marks_to_left(
            ar,
            x,
            period,
            expected - period,
            (budget - 1) as nat,
        )
    } else {
        seq![]
    }
}

/// The marks to the right of `expected`, a period apart, at most `budget` of them.
pub open spec fn marks_to_right(
    ar: Arith,
    x: Seq<Scalar>,
    period: int,
    expected: int,
    budget: nat,
) -> Seq<usize>
    decreases budget,
{
    if expected + period < last_position(x.len() as int, period) && budget > 0 {
        seq![mark_near(ar, x, period, expected + period)] + marks_to_right(
            ar,
            x,
            period,
            expected + period,
            (budget - 1) as nat,
        )
    } else {
        seq![]
    }
}

/// The mark that the others are counted from: the best match within a period of the middle.
pub open spec fn anchor(ar: Arith, x: Seq<Scalar>, period: int) -> usize {
    let centre = x.len() as int / 2;
    best_match(
        ar,
        x,
        period,
        at_least(centre - period, period),
        no_more_than(centre + period, last_position(x.len() as int, period)),
    ) as usize
}

/// The marks of a frame, in the order in which they are found, at most `max_marks` of them.
pub open spec fn found_marks(ar: Arith, x: Seq<Scalar>, period: int, max_marks: nat) -> Seq<usize> {
    let a = anchor(ar, x, period);
    let left = marks_to_left(ar, x, period, a as int, (max_marks - 1) as nat);
    let right = marks_to_right(ar, x, period, a as int, (max_marks - 1 - left.len()) as nat);
    seq![a] + left + right
}

/// A sequence in ascending order.
pub open spec fn ascending(s: Seq<usize>) -> Seq<usize> {
    s.sort_by(|a: usize, b: usize| a <= b)
}

/// The pitch marks of a frame in ascending order; none where the frame is too short for the
/// period.
pub open spec fn analysis_marks(ar: Arith, x: Seq<Scalar>, period: int, max_marks: nat) -> Seq<usize> {
    if last_position(x.len() as int, period) <= period {
        seq![]
    } else {
        ascending(found_marks(ar, x, period, max_marks))
    }
}

/// Brings a vector into ascending order.
pub fn sort_ascending(v: &mut Vec<usize>)
    ensures
        final(v)@ == ascending(old(v)@),
{
    let ghost leq = |a: usize, b: usize| a <= b;
    let n = v.len();
    let mut i: usize = 0;
    while i < n
        invariant
            i <= n,
            n == v@.len(),
            v@.to_multiset() == old(v)@.to_multiset(),
            forall|a: int, b: int| 0 <= a <= b < i ==> v@[a] <= v@[b],
        decreases n - i,
    {
        let ghost before = v@;
        let x = v[i];
        let mut at: usize = 0;
        while at < i && v[at] <= x
            invariant
                at <= i < n,
                n == v@.len(),
                v@ == before,
                x == v@[i as int],
                forall|a: int| 0 <= a < at ==> v@[a] <= x,
            decreases i - at,
        {
            at += 1;
        }
        let y = v.remove(i);
        v.insert(at, y);
        proof {
            to_multiset_remove(before, i as int);
            to_multiset_insert(before.remove(i as int), at as int, x);
            broadcast use to_multiset_contains;

            assert(before.contains(x));
            assert(before.to_multiset().remove(x).insert(x) =~= before.to_multiset());
            assert forall|a: int, b: int| 0 <= a <= b < i + 1 implies v@[a] <= v@[b] by {}
        }
        i += 1;
    }
    proof {
        assert(total_ordering(leq));
        assert(sorted_by(v@, leq));
        old(v)@.lemma_sort_by_ensures(leq);
        lemma_sorted_unique(v@, old(v)@.sort_by(leq), leq);
    }
}

proof fn lemma_window(frame: int, period: int, expected: int)
    requires
        0 <= period < last_position(frame, period),
        period <= expected <= last_position(frame, period),
    ensures
        at_least(expected - search_radius(period), period) <= no_more_than(
            expected + search_radius(period),
            last_position(frame, period),
        ) < frame,
{
}

fn find_mark_near<F: Fn(Op) -> Scalar>(
    x: &Vec<Scalar>,
    period: usize,
    expected: usize,
    f: &F,
) -> (r: usize)
    requires
        is_arithmetic(*f),
        period < last_position(x@.len() as int, period as int),
        period <= expected <= last_position(x@.len() as int, period as int),
    ensures
        r == mark_near(results(*f), x@, period as int, expected as int),
        period <= r <= last_position(x@.len() as int, period as int),
{
    let max_pos: usize = x.len() - (period + 1);
    let third: usize = period / 3;
    let radius: usize = if third > 2 {
        third
    } else {
        2
    };
    let lo: usize = if expected < period + radius {
        period
    } else {
        expected - radius
    };
    let hi: usize = if max_pos - expected < radius {
        max_pos
    } else {
        expected + radius
    };
    find_best_match(x, period, lo, hi, f)
}

/// Finds the pitch marks of a frame and leaves them in `marks`, in ascending order.
pub fn find_marks<F: Fn(Op) -> Scalar>(
    x: &Vec<Scalar>,
    period: usize,
    max_marks: usize,
    marks: &mut Vec<usize>,
    f: &F,
)
    requires
        max_marks >= 1,
        is_arithmetic(*f),
    ensures
        final(marks)@ == analysis_marks(results(*f), x@, period as int, max_marks as nat),
{
    marks.clear();
    let frame = x.len();
    if period >= frame {
        return;
    }
    let max_pos: usize = frame - (period + 1);
    if max_pos <= period {
        return;
    }
    let centre: usize = frame / 2;
    let lo: usize = if centre - period < period {
        period
    } else {
        centre - period
    };
    let hi: usize = if max_pos - centre < period {
        max_pos
    } else {
        centre + period
    };
    let ghost ar = results(*f);
    let start = find_best_match(x, period, lo, hi, f);
    marks.push(start);
    let ghost p = period as int;
    let ghost left = marks_to_left(ar, x@, p, start as int, (max_marks - 1) as nat);
    assert(marks@ =~= seq![start]);
    let mut expected: usize = start;
    assert(marks@ + left =~= seq![start] + left);
    while expected > period && expected - period > period && marks.len() < max_marks
        invariant
            is_arithmetic(*f),
            ar == results(*f),
            frame == x@.len(),
            max_pos == frame - (period + 1),
            period < max_pos,
            p == period,
            period <= expected <= max_pos,
            1 <= marks@.len() <= max_marks,
            seq![start] + left == marks@ + marks_to_left(
                ar,
                x@,
                p,
                expected as int,
                (max_marks - marks@.len()) as nat,
            ),
        decreases max_marks - marks.len(),
    {
        let ghost before = marks@;
        let ghost rest = marks_to_left(
            ar,
            x@,
            p,
            expected - period,
            (max_marks - before.len() - 1) as nat,
        );
        expected = expected - period;
        let mark = find_mark_near(x, period, expected, f);
        marks.push(mark);
        assert(before + (seq![mark] + rest) =~= marks@ + rest);
    }
    assert(seq![start] + left =~= marks@);
    let ghost right = marks_to_right(
        ar,
        x@,
        p,
        start as int,
        (max_marks - 1 - left.len()) as nat,
    );
    expected = start;
    assert(marks@.len() == 1 + left.len());
    assert(marks@ + right =~= seq![start] + left + right);
    while max_pos - expected > period && marks.len() < max_marks
        invariant
            is_arithmetic(*f),
            ar == results(*f),
            frame == x@.len(),
            max_pos == frame - (period + 1),
            period < max_pos,
            p == period,
            period <= expected <= max_pos,
            1 <= marks@.len() <= max_marks,
            seq![start] + left + right == marks@ + marks_to_right(
                ar,
                x@,
                p,
                expected as int,
                (max_marks - marks@.len()) as nat,
            ),
        decreases max_marks - marks.len(),
    {
        let ghost before = marks@;
        let ghost rest = marks_to_right(
            ar,
            x@,
            p,
            expected + period,
            (max_marks - before.len() - 1) as nat,
        );
        expected = expected + period;
        let mark = find_mark_near(x, period, expected, f);
        marks.push(mark);
        assert(before + (seq![mark] + rest) =~= marks@ + rest);
    }
    assert(seq![start] + left + right =~= marks@);
    sort_ascending(marks);
}

/// What `find_marks` finds: at least the anchor, at most `max_marks` positions, ascending, each
/// with a whole period of the frame on either side. No two of them are the same unless the
/// period is so short that their windows meet.
pub proof fn marks_keep_a_period_clear(ar: Arith, x: Seq<Scalar>, period: int, max_marks: nat)
    requires
        max_marks >= 1,
        0 <= period,
        x.len() <= usize::MAX,
    ensures
        ({
            let marks = analysis_marks(ar, x, period, max_marks);
            &&& marks.len() <= max_marks
            &&& last_position(x.len() as int, period) > period ==> marks.len() >= 1
            &&& forall|i: int, j: int| 0 <= i <= j < marks.len() ==> marks[i] <= marks[j]
            &&& period >= 5 ==> forall|i: int, j: int|
                0 <= i < j < marks.len() ==> marks[i] < marks[j]
            &&& forall|i: int|
                0 <= i < marks.len() ==> period <= #[trigger] marks[i] && marks[i] + period + 1
                    <= x.len()
        }),
{
    if last_position(x.len() as int, period) > period {
        let a = anchor(ar, x, period);
        let centre = x.len() as int / 2;
        let last = last_position(x.len() as int, period);
        lemma_match_range(
            ar,
            x,
            period,
            at_least(centre - period, period),
            no_more_than(centre + period, last),
        );
        let left = marks_to_left(ar, x, period, a as int, (max_marks - 1) as nat);
        lemma_left_range(ar, x, period, a as int, (max_marks - 1) as nat);
        let budget = (max_marks - 1 - left.len()) as nat;
        lemma_right_range(ar, x, period, a as int, budget);
        let found = found_marks(ar, x, period, max_marks);
        let leq = |a: usize, b: usize| a <= b;
        let marks = analysis_marks(ar, x, period, max_marks);
        assert(total_ordering(leq));
        found.lemma_sort_by_ensures(leq);
        to_multiset_len(found);
        to_multiset_len(marks);
        broadcast use to_multiset_contains;

        assert(marks.len() == found.len());
        assert(sorted_by(marks, leq));
        assert forall|i: int, j: int| 0 <= i <= j < marks.len() implies marks[i] <= marks[j] by {
            if i < j {
                assert(leq(marks[i], marks[j]));
            }
        }
        if period >= 5 {
            lemma_found_distinct(ar, x, period, max_marks);
            found.lemma_multiset_has_no_duplicates();
            marks.lemma_multiset_has_no_duplicates_conv();
            assert forall|i: int, j: int| 0 <= i < j < marks.len() implies marks[i] < marks[j] by {
                assert(marks[i] <= marks[j]);
                assert(marks[i] != marks[j]);
            }
        }
        assert forall|i: int| 0 <= i < marks.len() implies period <= #[trigger] marks[i]
            && marks[i] + period + 1 <= x.len() by {
            assert(marks.contains(marks[i]));
            assert(found.contains(marks[i]));
        }
    }
}

/// The marks to the left lie around the multiples of the period.
proof fn lemma_left_spread(ar: Arith, x: Seq<Scalar>, period: int, expected: int, budget: nat)
    requires
        0 <= period < last_position(x.len() as int, period),
        period <= expected <= last_position(x.len() as int, period),
        x.len() <= usize::MAX,
    ensures
        ({
            let m = marks_to_left(ar, x, period, expected, budget);
            forall|i: int|
                0 <= i < m.len() ==> expected - (i + 1) * period - search_radius(period)
                    <= #[trigger] m[i] <= expected - (i + 1) * period + search_radius(period)
        }),
    decreases budget,
{
    let m = marks_to_left(ar, x, period, expected, budget);
    if m.len() > 0 {
        let next = expected - period;
        let rest = marks_to_left(ar, x, period, next, (budget - 1) as nat);
        lemma_left_spread(ar, x, period, next, (budget - 1) as nat);
        lemma_window(x.len() as int, period, next);
        lemma_match_range(
            ar,
            x,
            period,
            at_least(next - search_radius(period), period),
            no_more_than(
                next + search_radius(period),
                last_position(x.len() as int, period),
            ),
        );
        assert forall|i: int| 0 <= i < m.len() implies expected - (i + 1) * period - search_radius(
            period,
        ) <= #[trigger] m[i] <= expected - (i + 1) * period + search_radius(period) by {
            if i > 0 {
                assert(m[i] == rest[i - 1]);
                assert((i + 1) * period == (i - 1 + 1) * period + period) by (nonlinear_arith);
            } else {
                assert((i + 1) * period == period) by (nonlinear_arith)
                    requires
                        i == 0,
                ;
            }
        }
    }
}

proof fn lemma_left_range(ar: Arith, x: Seq<Scalar>, period: int, expected: int, budget: nat)
    requires
        0 <= period < last_position(x.len() as int, period),
        period <= expected <= last_position(x.len() as int, period),
        x.len() <= usize::MAX,
    ensures
        ({
            let m = marks_to_left(ar, x, period, expected, budget);
            &&& m.len() <= budget
            &&& forall|i: int|
                0 <= i < m.len() ==> period <= #[trigger] m[i] <= last_position(
                    x.len() as int,
                    period,
                )
        }),
    decreases budget,
{
    if expected > 2 * period && budget > 0 {
        lemma_left_range(ar, x, period, expected - period, (budget - 1) as nat);
        lemma_window(x.len() as int, period, expected - period);
        lemma_match_range(
            ar,
            x,
            period,
            at_least(expected - period - search_radius(period), period),
            no_more_than(
                expected - period + search_radius(period),
                last_position(x.len() as int, period),
            ),
        );
    }
}

/// The marks to the right lie around the multiples of the period.
proof fn lemma_right_spread(ar: Arith, x: Seq<Scalar>, period: int, expected: int, budget: nat)
    requires
        0 <= period < last_position(x.len() as int, period),
        period <= expected <= last_position(x.len() as int, period),
        x.len() <= usize::MAX,
    ensures
        ({
            let m = marks_to_right(ar, x, period, expected, budget);
            forall|i: int|
                0 <= i < m.len() ==> expected + (i + 1) * period - search_radius(period)
                    <= #[trigger] m[i] <= expected + (i + 1) * period + search_radius(period)
        }),
    decreases budget,
{
    let m = marks_to_right(ar, x, period, expected, budget);
    if m.len() > 0 {
        let next = expected + period;
        let rest = marks_to_right(ar, x, period, next, (budget - 1) as nat);
        lemma_right_spread(ar, x, period, next, (budget - 1) as nat);
        lemma_window(x.len() as int, period, next);
        lemma_match_range(
            ar,
            x,
            period,
            at_least(next - search_radius(period), period),
            no_more_than(
                next + search_radius(period),
                last_position(x.len() as int, period),
            ),
        );
        assert forall|i: int| 0 <= i < m.len() implies expected + (i + 1) * period - search_radius(
            period,
        ) <= #[trigger] m[i] <= expected + (i + 1) * period + search_radius(period) by {
            if i > 0 {
                assert(m[i] == rest[i - 1]);
                assert((i + 1) * period == (i - 1 + 1) * period + period) by (nonlinear_arith);
            } else {
                assert((i + 1) * period == period) by (nonlinear_arith)
                    requires
                        i == 0,
                ;
            }
        }
    }
}

proof fn lemma_right_range(ar: Arith, x: Seq<Scalar>, period: int, expected: int, budget: nat)
    requires
        0 <= period < last_position(x.len() as int, period),
        period <= expected <= last_position(x.len() as int, period),
        x.len() <= usize::MAX,
    ensures
        ({
            let m = marks_to_right(ar, x, period, expected, budget);
            &&& m.len() <= budget
            &&& forall|i: int|
                0 <= i < m.len() ==> period <= #[trigger] m[i] <= last_position(
                    x.len() as int,
                    period,
                )
        }),
    decreases budget,
{
    if expected + period < last_position(x.len() as int, period) && budget > 0 {
        lemma_right_range(ar, x, period, expected + period, (budget - 1) as nat);
        lemma_window(x.len() as int, period, expected + period);
        lemma_match_range(
            ar,
            x,
            period,
            at_least(expected + period - search_radius(period), period),
            no_more_than(
                expected + period + search_radius(period),
                last_position(x.len() as int, period),
            ),
        );
    }
}

proof fn lemma_found_distinct(ar: Arith, x: Seq<Scalar>, period: int, max_marks: nat)
    requires
        max_marks >= 1,
        5 <= period < last_position(x.len() as int, period),
        x.len() <= usize::MAX,
    ensures
        found_marks(ar, x, period, max_marks).no_duplicates(),
{
    let a = anchor(ar, x, period) as int;
    let centre = x.len() as int / 2;
    let last = last_position(x.len() as int, period);
    lemma_match_range(
        ar,
        x,
        period,
        at_least(centre - period, period),
        no_more_than(centre + period, last),
    );
    let left = marks_to_left(ar, x, period, a, (max_marks - 1) as nat);
    let budget = (max_marks - 1 - left.len()) as nat;
    let right = marks_to_right(ar, x, period, a, budget);
    lemma_left_spread(ar, x, period, a, (max_marks - 1) as nat);
    lemma_right_spread(ar, x, period, a, budget);
    let found = found_marks(ar, x, period, max_marks);
    let n = 1 + left.len() as int;
    assert forall|i: int| 0 <= i < found.len() implies a + place(i, n) * period - search_radius(
        period,
    ) <= #[trigger] found[i] <= a + place(i, n) * period + search_radius(period) by {
        if i == 0 {
            assert(place(i, n) * period == 0) by (nonlinear_arith)
                requires
                    place(i, n) == 0,
            ;
        } else if i < n {
            assert(found[i] == left[i - 1]);
            assert(place(i, n) * period == -((i - 1 + 1) * period)) by (nonlinear_arith)
                requires
                    place(i, n) == -i,
            ;
        } else {
            assert(found[i] == right[i - n]);
        }
    }
    assert forall|i: int, j: int|
        0 <= i < found.len() && 0 <= j < found.len() && i != j implies found[i] != found[j] by {
        let (p, q) = (place(i, n), place(j, n));
        assert(p != q);
        if p < q {
            assert(p * period + period <= q * period) by (nonlinear_arith)
                requires
                    p + 1 <= q,
                    period >= 5,
            ;
        } else {
            assert(q * period + period <= p * period) by (nonlinear_arith)
                requires
                    q + 1 <= p,
                    period >= 5,
            ;
        }
    }
}

/// How many periods from the anchor the mark that is found at `i` is looked for, where the
/// first `n` are the anchor and those to its left.
spec fn place(i: int, n: int) -> int {
    if i < n {
        -i
    } else {
        i - n + 1
    }
}

/// The anchor lies within a period of the middle of the frame.
pub proof fn anchor_is_near_the_middle(ar: Arith, x: Seq<Scalar>, period: int)
    requires
        0 <= period < last_position(x.len() as int, period),
        x.len() <= usize::MAX,
    ensures
        x.len() as int / 2 - period <= anchor(ar, x, period) <= x.len() as int / 2 + period,
{
    let centre = x.len() as int / 2;
    lemma_match_range(
        ar,
        x,
        period,
        at_least(centre - period, period),
        no_more_than(centre + period, last_position(x.len() as int, period)),
    );
}

/// How many synthesis marks, `spacing` apart from `radius` on, lie before the last position.
pub open spec fn synthesis_count(frame: int, spacing: int, radius: int, max_marks: int) -> nat {
    let last = last_position(frame, radius);
    if last <= radius {
        0
    } else {
        no_more_than(pieces(last - radius, spacing), max_marks) as nat
    }
}

/// The synthesis marks: from `radius` on, `period_s` apart (at least one sample), before the
/// last position that leaves a radius to the end of the frame.
pub open spec fn synthesis_marks(
    frame: int,
    period_s: int,
    radius: int,
    max_marks: int,
) -> Seq<usize> {
    let spacing = at_least(period_s, 1);
    Seq::new(
        synthesis_count(frame, spacing, radius, max_marks),
        |i: int| (radius + i * spacing) as usize,
    )
}

/// Synthesis marks ascend from `radius` by the same spacing, at most `max_marks` of them, and
/// each leaves a radius of the frame on either side.
pub proof fn synthesis_marks_are_spaced(frame: int, period_s: int, radius: int, max_marks: int)
    requires
        0 <= frame <= usize::MAX,
        0 <= radius,
        0 <= max_marks,
    ensures
        ({
            let marks = synthesis_marks(frame, period_s, radius, max_marks);
            &&& marks.len() <= max_marks
            &&& marks.len() > 0 ==> marks[0] == radius
            &&& forall|i: int|
                0 < i < marks.len() ==> #[trigger] marks[i] == marks[i - 1] + at_least(
                    period_s,
                    1,
                )
            &&& forall|i: int, j: int| 0 <= i < j < marks.len() ==> marks[i] < marks[j]
            &&& forall|i: int|
                0 <= i < marks.len() ==> radius <= #[trigger] marks[i] && marks[i] + radius + 1
                    < frame
        }),
{
    let marks = synthesis_marks(frame, period_s, radius, max_marks);
    let d = at_least(period_s, 1);
    let last = last_position(frame, radius);
    if last > radius {
        assert forall|i: int| 0 <= i < marks.len() implies (#[trigger] marks[i]) as int == radius
            + i * d && 0 <= i * d < last - radius by {
            lemma_pieces(last - radius, d, i);
            assert(0 <= i * d) by (nonlinear_arith)
                requires
                    0 <= i,
                    1 <= d,
            ;
        }
        assert(0 * d == 0) by (nonlinear_arith);
        assert forall|i: int| 0 < i < marks.len() implies #[trigger] marks[i] == marks[i - 1]
            + d by {
            assert(i * d == (i - 1) * d + d) by (nonlinear_arith);
        }
        assert forall|i: int, j: int| 0 <= i < j < marks.len() implies marks[i] < marks[j] by {
            assert(i * d < j * d) by (nonlinear_arith)
                requires
                    i < j,
                    1 <= d,
            ;
        }
    }
}

/// Lays out the synthesis marks and leaves them in `marks`.
pub fn lay_marks(
    frame: usize,
    period_s: usize,
    radius: usize,
    max_marks: usize,
    marks: &mut Vec<usize>,
)
    ensures
        final(marks)@ == synthesis_marks(
            frame as int,
            period_s as int,
            radius as int,
            max_marks as int,
        ),
{
    marks.clear();
    if radius >= frame {
        return;
    }
    let max_pos: usize = frame - (radius + 1);
    let spacing: usize = if period_s < 1 {
        1
    } else {
        period_s
    };
    let ghost total = synthesis_count(
        frame as int,
        spacing as int,
        radius as int,
        max_marks as int,
    );
    let mut pos: usize = radius;
    assert(0 * spacing == 0) by (nonlinear_arith);
    let ghost mut laid: int = 0;
    while pos < max_pos && marks.len() < max_marks
        invariant_except_break
            pos == radius + laid * spacing,
            laid < max_marks || marks@.len() == max_marks,
        invariant
            max_pos == last_position(frame as int, radius as int),
            spacing >= 1,
            laid == marks@.len(),
            laid <= max_marks,
            forall|i: int|
                0 <= i < laid ==> #[trigger] marks@[i] == radius + i * spacing,
            forall|i: int|
                0 <= i < laid ==> radius + #[trigger] (i * spacing) < max_pos,
        ensures
            laid == max_marks || radius + laid * spacing >= max_pos,
        decreases max_marks - marks.len(),
    {
        marks.push(pos);
        proof {
            assert((laid + 1) * spacing == laid * spacing + spacing) by (nonlinear_arith);
            laid = laid + 1;
        }
        match pos.checked_add(spacing) {
            Some(next) => {
                pos = next;
            },
            None => {
                break;
            },
        }
    }
    proof {
        let n = max_pos - radius;
        if n > 0 {
            if laid > 0 {
                lemma_pieces(n, spacing as int, laid - 1);
                assert(radius + (laid - 1) * spacing < max_pos);
            }
            lemma_pieces(n, spacing as int, laid);
            assert(laid == total);
        } else {
            if laid > 0 {
                assert(radius + 0 * spacing < max_pos);
            }
            assert(laid == total);
        }
    }
}

/// How far apart two positions are.
pub open spec fn apart(a: usize, b: usize) -> int {
    if a < b {
        b - a
    } else {
        a - b
    }
}

/// The mark at `i` is the nearest one to `position`, and the last of those equally near.
pub open spec fn is_nearest_mark(marks: Seq<usize>, position: usize, i: int) -> bool {
    &&& 0 <= i < marks.len()
    &&& forall|j: int|
        0 <= j < i ==> apart(marks[i], position) <= apart(#[trigger] marks[j], position)
    &&& forall|j: int|
        i < j < marks.len() ==> apart(marks[i], position) < apart(#[trigger] marks[j], position)
}

/// The index of the mark that is nearest to `position`.
pub open spec fn nearest_mark(marks: Seq<usize>, position: usize) -> int {
    choose|i: int| is_nearest_mark(marks, position, i)
}

/// Moves on from the mark that was nearest to an earlier position to the one that is nearest to
/// `position`.
pub fn advance_to_nearest(
    marks: &Vec<usize>,
    from: usize,
    earlier: usize,
    position: usize,
) -> (at: usize)
    requires
        forall|i: int, j: int| 0 <= i <= j < marks@.len() ==> marks@[i] <= marks@[j],
        from < marks@.len(),
        from == 0 || is_nearest_mark(marks@, earlier, from as int),
        earlier <= position,
    ensures
        is_nearest_mark(marks@, position, at as int),
        at == nearest_mark(marks@, position),
{
    let n = marks.len();
    let mut at = from;
    while at + 1 < n
        invariant
            n == marks@.len(),
            forall|i: int, j: int| 0 <= i <= j < marks@.len() ==> marks@[i] <= marks@[j],
            at < marks@.len(),
            forall|j: int|
                0 <= j < at ==> apart(marks@[at as int], position) <= apart(
                    #[trigger] marks@[j],
                    position,
                ),
        ensures
            at + 1 < marks@.len() ==> apart(marks@[at as int], position) < apart(
                marks@[at + 1],
                position,
            ),
        decreases marks@.len() - at,
    {
        let d0 = abs_diff(marks[at], position);
        let d1 = abs_diff(marks[at + 1], position);
        if d1 <= d0 {
            at += 1;
        } else {
            break;
        }
    }
    proof {
        assert(is_nearest_mark(marks@, position, at as int));
        let other = nearest_mark(marks@, position);
        assert(is_nearest_mark(marks@, position, other));
        assert(apart(marks@[other], position) == apart(marks@[at as int], position));
    }
    at
}

fn abs_diff(a: usize, b: usize) -> (r: usize)
    ensures
        r == apart(a, b),
{
    if a < b {
        b - a
    } else {
        a - b
    }
}

/// One product more of samples that lie a period apart adds to what the periods before and after
/// a position have in common, where that is exact; and a whole period of them is counted.
pub proof fn correlations_add_products(ar: Arith, x: Seq<Scalar>, period: int, at: int, n: int)
    requires
        0 <= n < period,
        ({
            let product = ar(Op::Mul(x[at - period + n], x[at + n]));
            let before = correlated(ar, x, period, at, n);
            &&& is_product(x[at - period + n], x[at + n], product)
            &&& is_sum(before, product, ar(Op::Add(before, product)))
        }),
    ensures
        (correlated(ar, x, period, at, n + 1).units() - correlated(ar, x, period, at, n).units())
            * unit() == x[at + n - period].units() * x[at + n].units(),
        correlated(ar, x, period, at, 0) == num(ZERO),
        n + 1 == period ==> correlation(ar, x, period, at) == correlated(
            ar,
            x,
            period,
            at,
            n + 1,
        ),
{
}

/// A mark that is looked for where one is expected lies within a third of the period of there, or
/// two samples, and nowhere as near, with a period on either side, are the periods before and
/// after more alike.
pub proof fn marks_are_where_periods_are_most_alike(
    ar: Arith,
    x: Seq<Scalar>,
    period: int,
    expected: int,
    q: int,
)
    requires
        0 <= period < x.len() - (period + 1),
        period <= expected <= x.len() - (period + 1),
        x.len() <= usize::MAX,
        period <= q <= x.len() - (period + 1),
        3 * gap(q, expected) <= period || gap(q, expected) <= 2,
        forall|i: int|
            period <= i <= x.len() - (period + 1) ==> !(#[trigger] correlation(
                ar,
                x,
                period,
                i,
            )).nan(),
    ensures
        ({
            let m = mark_near(ar, x, period, expected) as int;
            &&& period <= m <= x.len() - (period + 1)
            &&& 3 * gap(m, expected) <= period || gap(m, expected) <= 2
            &&& !correlation(ar, x, period, m).below(correlation(ar, x, period, q))
        }),
{
    let lo = at_least(expected - search_radius(period), period);
    let hi = no_more_than(
        expected + search_radius(period),
        last_position(x.len() as int, period),
    );
    assert(!correlation(ar, x, period, lo).nan());
    best_match_correlates_most(ar, x, period, lo, hi);
    assert(lo <= q <= hi);
    let m = best_match(ar, x, period, lo, hi);
    assert(m as usize as int == m);
    assert(!correlation(ar, x, period, q).nan());
    if q < m {
        assert(correlation(ar, x, period, q).below(correlation(ar, x, period, m)));
    } else {
        assert(correlation(ar, x, period, q).at_most(correlation(ar, x, period, m)));
    }
}

/// The marks of a frame are the anchor and the marks that are looked for whole periods from it,
/// to its left as long as two periods are left there, and to its right as long as one is, as many
/// as may be found; and no others.
pub proof fn marks_lie_whole_periods_from_the_anchor(
    ar: Arith,
    x: Seq<Scalar>,
    period: int,
    max_marks: nat,
    k: int,
)
    requires
        1 <= max_marks,
        1 <= k,
        0 < period < x.len() - (period + 1),
    ensures
        ({
            let found = found_marks(ar, x, period, max_marks);
            let a = anchor(ar, x, period);
            let left = marks_to_left(ar, x, period, a as int, (max_marks - 1) as nat);
            let right = marks_to_right(
                ar,
                x,
                period,
                a as int,
                (max_marks - 1 - left.len()) as nat,
            );
            let last = x.len() - (period + 1);
            &&& analysis_marks(ar, x, period, max_marks).to_multiset() == found.to_multiset()
            &&& found[0] == a
            &&& found.len() == 1 + left.len() + right.len()
            &&& a - (k - 1) * period > 2 * period && k <= max_marks - 1 ==> k <= left.len()
                && found[k] == mark_near(ar, x, period, a - k * period)
            &&& a + k * period < last && k + left.len() <= max_marks - 1 ==> k <= right.len()
                && found[left.len() + k] == mark_near(ar, x, period, a + k * period)
            &&& k <= left.len() ==> a - (k - 1) * period > 2 * period && k <= max_marks - 1
            &&& k <= right.len() ==> a + k * period < last && k + left.len() <= max_marks - 1
        }),
{
    let found = found_marks(ar, x, period, max_marks);
    let a = anchor(ar, x, period) as int;
    let left = marks_to_left(ar, x, period, a, (max_marks - 1) as nat);
    lemma_left_count(ar, x, period, a, (max_marks - 1) as nat, k);
    lemma_left_within(ar, x, period, a, (max_marks - 1) as nat);
    let budget = (max_marks - 1 - left.len()) as nat;
    lemma_right_count(ar, x, period, a, budget, k);
    let leq = |p: usize, q: usize| p <= q;
    assert(total_ordering(leq));
    found.lemma_sort_by_ensures(leq);
    assert(analysis_marks(ar, x, period, max_marks) == found.sort_by(leq));
}

proof fn lemma_left_within(ar: Arith, x: Seq<Scalar>, period: int, expected: int, budget: nat)
    ensures
        marks_to_left(ar, x, period, expected, budget).len() <= budget,
    decreases budget,
{
    if expected > 2 * period && budget > 0 {
        lemma_left_within(ar, x, period, expected - period, (budget - 1) as nat);
    }
}

proof fn lemma_left_count(
    ar: Arith,
    x: Seq<Scalar>,
    period: int,
    expected: int,
    budget: nat,
    k: int,
)
    requires
        1 <= k,
        0 < period,
    ensures
        ({
            let m = marks_to_left(ar, x, period, expected, budget);
            &&& k <= m.len() <==> expected - (k - 1) * period > 2 * period && k <= budget
            &&& k <= m.len() ==> m[k - 1] == mark_near(ar, x, period, expected - k * period)
        }),
    decreases budget,
{
    let m = marks_to_left(ar, x, period, expected, budget);
    assert((k - 1) * period >= 0 && k * period == (k - 1) * period + period) by (nonlinear_arith)
        requires
            1 <= k,
            0 < period,
    ;
    if expected > 2 * period && budget > 0 {
        let rest = marks_to_left(ar, x, period, expected - period, (budget - 1) as nat);
        assert(m == seq![mark_near(ar, x, period, expected - period)] + rest);
        if k > 1 {
            lemma_left_count(ar, x, period, expected - period, (budget - 1) as nat, k - 1);
            assert((k - 2) * period + period == (k - 1) * period) by (nonlinear_arith);
            assert(m[k - 1] == rest[k - 2] || k - 2 >= rest.len());
        } else {
            assert((k - 1) * period == 0 && k * period == period) by (nonlinear_arith)
                requires
                    k == 1,
            ;
        }
    }
}

proof fn lemma_right_count(
    ar: Arith,
    x: Seq<Scalar>,
    period: int,
    expected: int,
    budget: nat,
    k: int,
)
    requires
        1 <= k,
        0 < period < x.len() - (period + 1),
    ensures
        ({
            let m = marks_to_right(ar, x, period, expected, budget);
            let last = x.len() - (period + 1);
            &&& k <= m.len() <==> expected + k * period < last && k <= budget
            &&& k <= m.len() ==> m[k - 1] == mark_near(ar, x, period, expected + k * period)
        }),
    decreases budget,
{
    let m = marks_to_right(ar, x, period, expected, budget);
    assert((k - 1) * period >= 0 && k * period == (k - 1) * period + period) by (nonlinear_arith)
        requires
            1 <= k,
            0 < period,
    ;
    if expected + period < last_position(x.len() as int, period) && budget > 0 {
        let rest = marks_to_right(ar, x, period, expected + period, (budget - 1) as nat);
        assert(m == seq![mark_near(ar, x, period, expected + period)] + rest);
        if k > 1 {
            lemma_right_count(ar, x, period, expected + period, (budget - 1) as nat, k - 1);
            assert(m[k - 1] == rest[k - 2] || k - 2 >= rest.len());
        } else {
            assert(k * period == period) by (nonlinear_arith)
                requires
                    k == 1,
            ;
        }
    }
}

/// The anchor is where the periods before and after are most alike of all positions within a
/// period of the middle that have a period on either side.
pub proof fn anchor_is_most_alike_near_the_middle(
    ar: Arith,
    x: Seq<Scalar>,
    period: int,
    q: int,
)
    requires
        0 <= period < x.len() - (period + 1),
        x.len() <= usize::MAX,
        period <= q <= x.len() - (period + 1),
        gap(q, x.len() as int / 2) <= period,
        forall|i: int|
            period <= i <= x.len() - (period + 1) ==> !(#[trigger] correlation(
                ar,
                x,
                period,
                i,
            )).nan(),
    ensures
        ({
            let a = anchor(ar, x, period) as int;
            &&& period <= a <= x.len() - (period + 1)
            &&& gap(a, x.len() as int / 2) <= period
            &&& !correlation(ar, x, period, a).below(correlation(ar, x, period, q))
        }),
{
    let centre = x.len() as int / 2;
    let lo = at_least(centre - period, period);
    let hi = no_more_than(centre + period, last_position(x.len() as int, period));
    assert(!correlation(ar, x, period, lo).nan());
    best_match_correlates_most(ar, x, period, lo, hi);
    let m = best_match(ar, x, period, lo, hi);
    assert(m as usize as int == m);
    assert(!correlation(ar, x, period, q).nan());
    if q < m {
        assert(correlation(ar, x, period, q).below(correlation(ar, x, period, m)));
    } else {
        assert(correlation(ar, x, period, q).at_most(correlation(ar, x, period, m)));
    }
}

} // verus!
