//! Formant correction: the signal is pre-emphasised before it is shifted and de-emphasised
//! after, by an amount that depends on the pitch ratio.
use vstd::prelude::*;

use crate::arith::{apply, is_arithmetic, results, Arith, Op};
use crate::exact::{
    is_difference, is_product, is_quotient, is_sum, small_numbers_are_what_they_are_called, unit,
};
use crate::scalar::{num, Scalar, HALF, ONE, TWO, ZERO};

verus! {

/// 0.95, the share of the previous sample that pre-emphasis takes away.
pub const PRE_EMPHASIS: u32 = 0x3f73_3333;

/// 0.99, the largest share of the previous sample that de-emphasis gives back.
pub const DE_EMPHASIS_LIMIT: u32 = 0x3f7d_70a4;

/// What a corrector remembers from one sample to the next.
pub struct FormantState {
    /// The corrector was switched on.
    pub enabled: bool,
    /// How strongly the pitch ratio counts, 0 to 1.
    pub amount: Scalar,
    /// The last sample before pre-emphasis.
    pub pre_state: Scalar,
    /// The last sample after de-emphasis.
    pub de_state: Scalar,
}

impl FormantState {
    /// The corrector changes the signal.
    pub open spec fn active(self) -> bool {
        self.enabled && num(ZERO).below(self.amount)
    }
}

/// A signal with a share of the previous sample taken away from each.
pub open spec fn pre_emphasised(ar: Arith, previous: Scalar, x: Seq<Scalar>) -> Seq<Scalar> {
    Seq::new(
        x.len(),
        |i: int|
            ar(
                Op::Sub(
                    x[i],
                    ar(
                        Op::Mul(
                            num(PRE_EMPHASIS),
                            if i == 0 {
                                previous
                            } else {
                                x[i - 1]
                            },
                        ),
                    ),
                ),
            ),
    )
}

/// The share of the previous sample that de-emphasis gives back at a pitch ratio.
pub open spec fn de_emphasis(ar: Arith, amount: Scalar, pitch_ratio: Scalar) -> Scalar {
    let correction = ar(
        Op::Pow(ar(Op::Div(num(ONE), pitch_ratio.larger(num(HALF)))), amount),
    ).clamped(num(HALF), num(TWO));
    ar(Op::Mul(num(PRE_EMPHASIS), correction)).clamped(num(ZERO), num(DE_EMPHASIS_LIMIT))
}

/// The last sample after the first `n` samples were de-emphasised.
pub open spec fn de_emphasised_last(
    ar: Arith,
    share: Scalar,
    previous: Scalar,
    x: Seq<Scalar>,
    n: int,
) -> Scalar
    decreases n,
{
    if n <= 0 {
        previous
    } else {
        ar(
            Op::Add(
                x[n - 1],
                ar(Op::Mul(share, de_emphasised_last(ar, share, previous, x, n - 1))),
            ),
        )
    }
}

/// A signal with a share of the previous result given back to each sample.
pub open spec fn de_emphasised(
    ar: Arith,
    share: Scalar,
    previous: Scalar,
    x: Seq<Scalar>,
) -> Seq<Scalar> {
    Seq::new(x.len(), |i: int| de_emphasised_last(ar, share, previous, x, i + 1))
}

/// As much of a signal as there is room for.
pub open spec fn fitting(x: Seq<Scalar>, room: nat) -> Seq<Scalar> {
    if x.len() <= room {
        x
    } else {
        x.take(room as int)
    }
}

/// A buffer with its beginning replaced.
pub open spec fn laid_over(buffer: Seq<Scalar>, start: Seq<Scalar>) -> Seq<Scalar> {
    start + buffer.skip(start.len() as int)
}

#[derive(Debug, Clone)]
pub struct FormantCorrector {
    enabled: bool,
    amount: Scalar,
    pre_emphasis: Scalar,
    pre_state: Scalar,
    de_state: Scalar,
}

impl View for FormantCorrector {
    type V = FormantState;

    closed spec fn view(&self) -> FormantState {
        FormantState {
            enabled: self.enabled,
            amount: self.amount,
            pre_state: self.pre_state,
            de_state: self.de_state,
        }
    }
}

impl FormantCorrector {
    pub closed spec fn wf(self) -> bool {
        self.pre_emphasis == num(PRE_EMPHASIS)
    }

    /// A corrector at rest; the amount is moved into 0..=1.
    pub fn new(enabled: bool, amount: Scalar) -> (r: Self)
        ensures
            r.wf(),
            r@ == (FormantState {
                enabled,
                amount: amount.clamped(num(ZERO), num(ONE)),
                pre_state: num(ZERO),
                de_state: num(ZERO),
            }),
    {
        FormantCorrector {
            enabled,
            amount: amount.clamp(num(ZERO), num(ONE)),
            pre_emphasis: num(PRE_EMPHASIS),
            pre_state: num(ZERO),
            de_state: num(ZERO),
        }
    }

    /// Whether the corrector changes the signal.
    pub fn is_enabled(&self) -> (r: bool)
        ensures
            r == self@.active(),
    {
        self.enabled && num(ZERO).lt(self.amount)
    }

    /// Pre-emphasis: each sample less 0.95 of the one before it, as far as there is room. A
    /// corrector that is not active copies its input, which must be as long as its output.
    pub fn preprocess<F: Fn(Op) -> Scalar>(
        &mut self,
        input: &[Scalar],
        out: &mut [Scalar],
        f: &F,
    )
        requires
            old(self).wf(),
            !old(self)@.active() ==> input@.len() == old(out)@.len(),
            is_arithmetic(*f),
        ensures
            final(self).wf(),
            !old(self)@.active() ==> final(self)@ == old(self)@ && final(out)@ == input@,
            old(self)@.active() ==> {
                let x = fitting(input@, old(out)@.len());
                &&& final(out)@ == laid_over(
                    old(out)@,
                    pre_emphasised(results(*f), old(self)@.pre_state, x),
                )
                &&& final(self)@ == (FormantState {
                    pre_state: if x.len() == 0 {
                        old(self)@.pre_state
                    } else {
                        x.last()
                    },
                    ..old(self)@
                })
            },
    {
        if !self.is_enabled() {
            copy_slice(input, out);
            return;
        }
        let n: usize = if input.len() < out.len() {
            input.len()
        } else {
            out.len()
        };
        let mut i: usize = 0;
        let ghost goal = pre_emphasised(
            results(*f),
            old(self)@.pre_state,
            fitting(input@, old(out)@.len()),
        );
        while i < n
            invariant
                i <= n,
                n <= input@.len(),
                n <= out@.len(),
                out@.len() == old(out)@.len(),
                is_arithmetic(*f),
                self.wf(),
                n == fitting(input@, old(out)@.len()).len(),
                goal == pre_emphasised(
                    results(*f),
                    old(self)@.pre_state,
                    fitting(input@, old(out)@.len()),
                ),
                forall|j: int| n <= j < out@.len() ==> out@[j] == old(out)@[j],
                self@ == (FormantState {
                    pre_state: if i == 0 {
                        old(self)@.pre_state
                    } else {
                        input@[i - 1]
                    },
                    ..old(self)@
                }),
                forall|j: int| 0 <= j < i ==> out@[j] == goal[j],
            decreases n - i,
        {
            let x = input[i];
            let taken = apply(f, Op::Mul(self.pre_emphasis, self.pre_state));
            self.pre_state = x;
            out[i] = apply(f, Op::Sub(x, taken));
            i += 1;
        }
        assert(out@ =~= laid_over(old(out)@, goal));
    }

    /// De-emphasis: each sample and a share of the result before it, the share growing as the
    /// pitch is lowered, as far as there is room. A corrector that is not active copies its
    /// input, which must be as long as its output.
    pub fn postprocess<F: Fn(Op) -> Scalar>(
        &mut self,
        shifted: &[Scalar],
        out: &mut [Scalar],
        pitch_ratio: Scalar,
        f: &F,
    )
        requires
            old(self).wf(),
            !old(self)@.active() ==> shifted@.len() == old(out)@.len(),
            is_arithmetic(*f),
        ensures
            final(self).wf(),
            !old(self)@.active() ==> final(self)@ == old(self)@ && final(out)@ == shifted@,
            old(self)@.active() ==> {
                let share = de_emphasis(results(*f), old(self)@.amount, pitch_ratio);
                let x = fitting(shifted@, old(out)@.len());
                &&& final(out)@ == laid_over(
                    old(out)@,
                    de_emphasised(results(*f), share, old(self)@.de_state, x),
                )
                &&& final(self)@ == (FormantState {
                    de_state: de_emphasised_last(
                        results(*f),
                        share,
                        old(self)@.de_state,
                        x,
                        x.len() as int,
                    ),
                    ..old(self)@
                })
            },
    {
        if !self.is_enabled() {
            copy_slice(shifted, out);
            return;
        }
        let n: usize = if shifted.len() < out.len() {
            shifted.len()
        } else {
            out.len()
        };
        let mut i: usize = 0;
        let inverse = apply(f, Op::Div(num(ONE), pitch_ratio.max(num(HALF))));
        let correction = apply(f, Op::Pow(inverse, self.amount)).clamp(num(HALF), num(TWO));
        let deemph = apply(f, Op::Mul(self.pre_emphasis, correction)).clamp(
            num(ZERO),
            num(DE_EMPHASIS_LIMIT),
        );
        let ghost x = fitting(shifted@, old(out)@.len());
        let ghost goal = de_emphasised(results(*f), deemph, old(self)@.de_state, x);
        while i < n
            invariant
                i <= n,
                n <= shifted@.len(),
                n <= out@.len(),
                out@.len() == old(out)@.len(),
                is_arithmetic(*f),
                self.wf(),
                x == fitting(shifted@, old(out)@.len()),
                n == x.len(),
                goal == de_emphasised(results(*f), deemph, old(self)@.de_state, x),
                forall|j: int| n <= j < out@.len() ==> out@[j] == old(out)@[j],
                self@ == (FormantState {
                    de_state: de_emphasised_last(
                        results(*f),
                        deemph,
                        old(self)@.de_state,
                        x,
                        i as int,
                    ),
                    ..old(self)@
                }),
                forall|j: int| 0 <= j < i ==> out@[j] == goal[j],
            decreases n - i,
        {
            let v = apply(f, Op::Add(shifted[i], apply(f, Op::Mul(deemph, self.de_state))));
            self.de_state = v;
            out[i] = v;
            i += 1;
        }
        assert(out@ =~= laid_over(old(out)@, goal));
    }
}

fn copy_slice(from: &[Scalar], to: &mut [Scalar])
    requires
        from@.len() == old(to)@.len(),
    ensures
        final(to)@ == from@,
{
    let n = from.len();
    let mut i: usize = 0;
    while i < n
        invariant
            i <= n,
            n == from@.len(),
            n == to@.len(),
            forall|j: int| 0 <= j < i ==> to@[j] == from@[j],
        decreases n - i,
    {
        to[i] = from[i];
        i += 1;
    }
    assert(to@ =~= from@);
}

/// Pre-emphasis takes 0.95 of the sample before from each sample, where that is exact.
pub proof fn pre_emphasis_takes_from_each_sample(
    ar: Arith,
    previous: Scalar,
    x: Seq<Scalar>,
    i: int,
)
    requires
        0 <= i < x.len(),
        ({
            let before = if i == 0 {
                previous
            } else {
                x[i - 1]
            };
            let taken = ar(Op::Mul(num(0x3f73_3333), before));
            &&& is_product(num(0x3f73_3333), before, taken)
            &&& is_difference(x[i], taken, ar(Op::Sub(x[i], taken)))
        }),
    ensures
        ({
            let before = if i == 0 {
                previous
            } else {
                x[i - 1]
            };
            let y = pre_emphasised(ar, previous, x)[i];
            (x[i].units() - y.units()) * unit() == num(0x3f73_3333).units() * before.units()
        }),
        pre_emphasised(ar, previous, x).len() == x.len(),
{
}

/// De-emphasis gives a share of the result before back to each sample, where that is exact.
pub proof fn de_emphasis_gives_back_to_each_sample(
    ar: Arith,
    share: Scalar,
    previous: Scalar,
    x: Seq<Scalar>,
    i: int,
)
    requires
        0 <= i < x.len(),
        ({
            let before = if i == 0 {
                previous
            } else {
                de_emphasised(ar, share, previous, x)[i - 1]
            };
            let given = ar(Op::Mul(share, before));
            &&& is_product(share, before, given)
            &&& is_sum(x[i], given, ar(Op::Add(x[i], given)))
        }),
    ensures
        ({
            let y = de_emphasised(ar, share, previous, x);
            let before = if i == 0 {
                previous
            } else {
                y[i - 1]
            };
            &&& y.len() == x.len()
            &&& (y[i].units() - x[i].units()) * unit() == share.units() * before.units()
        }),
{
    assert(i == 0 ==> de_emphasised_last(ar, share, previous, x, 0) == previous);
}

/// What 0.95 of `b` was taken from and given back to is `a` again.
pub open spec fn gives_back(ar: Arith, a: Scalar, b: Scalar) -> bool {
    let taken = ar(Op::Mul(num(0x3f73_3333), b));
    ar(Op::Add(ar(Op::Sub(a, taken)), taken)) == a
}

/// De-emphasis by 0.95 undoes pre-emphasis, by an arithmetic in which what was taken away and
/// given back again changes nothing.
pub proof fn de_emphasis_undoes_pre_emphasis(ar: Arith, previous: Scalar, x: Seq<Scalar>)
    requires
        forall|i: int|
            0 <= i < x.len() ==> gives_back(
                ar,
                #[trigger] x[i],
                if i == 0 {
                    previous
                } else {
                    x[i - 1]
                },
            ),
    ensures
        de_emphasised(ar, num(0x3f73_3333), previous, pre_emphasised(ar, previous, x)) == x,
{
    let y = pre_emphasised(ar, previous, x);
    assert forall|i: int| 0 <= i < x.len() implies de_emphasised_last(
        ar,
        num(0x3f73_3333),
        previous,
        y,
        i + 1,
    ) == x[i] by {
        lemma_undone(ar, previous, x, i + 1);
    }
    assert(de_emphasised(ar, num(0x3f73_3333), previous, y) =~= x);
}

proof fn lemma_undone(ar: Arith, previous: Scalar, x: Seq<Scalar>, n: int)
    requires
        0 <= n <= x.len(),
        forall|i: int|
            0 <= i < x.len() ==> gives_back(
                ar,
                #[trigger] x[i],
                if i == 0 {
                    previous
                } else {
                    x[i - 1]
                },
            ),
    ensures
        ({
            let y = pre_emphasised(ar, previous, x);
            de_emphasised_last(ar, num(0x3f73_3333), previous, y, n) == if n == 0 {
                previous
            } else {
                x[n - 1]
            }
        }),
    decreases n,
{
    if n > 0 {
        lemma_undone(ar, previous, x, n - 1);
        let b = if n == 1 {
            previous
        } else {
            x[n - 2]
        };
        let y = pre_emphasised(ar, previous, x);
        assert(y[n - 1] == ar(Op::Sub(x[n - 1], ar(Op::Mul(num(0x3f73_3333), b)))));
        assert(gives_back(ar, x[n - 1], b));
    }
}

/// The share that de-emphasis gives back is 0.95 times a correction, cut to 0 to 0.99. The
/// correction is the inverse of the ratio, of at least a half, to the power of the amount, cut to
/// a half to two: it gives back less the higher the ratio is, as far as the amount says.
pub proof fn formants_are_corrected_by_the_inverse_ratio(
    ar: Arith,
    amount: Scalar,
    ratio: Scalar,
    power: Scalar,
)
    requires
        ({
            let at_least = if ratio.nan() || 2 * ratio.units() < unit() {
                num(HALF)
            } else {
                ratio
            };
            let inverse = ar(Op::Div(num(ONE), at_least));
            &&& is_quotient(num(ONE), at_least, inverse)
            &&& power == ar(Op::Pow(inverse, amount))
            &&& !power.nan()
        }),
        ({
            let kept = power.clamped(num(HALF), num(TWO));
            is_product(num(0x3f73_3333), kept, ar(Op::Mul(num(0x3f73_3333), kept)))
        }),
    ensures
        ({
            let share = de_emphasis(ar, amount, ratio).units();
            let (c, limit) = (num(0x3f73_3333).units(), num(0x3f7d_70a4).units());
            let u = unit();
            // The correction, cut to a half to two, twice.
            let twice = if 2 * power.units() < u {
                u
            } else if power.units() > 2 * u {
                4 * u
            } else {
                2 * power.units()
            };
            &&& 0 <= share <= limit
            &&& c * twice <= 2 * limit * u ==> 2 * share * u == c * twice
            &&& c * twice > 2 * limit * u ==> share == limit
        }),
{
    small_numbers_are_what_they_are_called();
    let kept = power.clamped(num(HALF), num(TWO));
    let product = ar(Op::Mul(num(0x3f73_3333), kept));
    let (c, l, u, k, p) = (
        num(0x3f73_3333).units(),
        num(0x3f7d_70a4).units(),
        unit(),
        kept.units(),
        product.units(),
    );
    lemma_shares_are_ordered();
    assert((c * (2 * k) <= 2 * l * u ==> p <= l) && (c * (2 * k) > 2 * l * u ==> p > l) && p >= 0
        && 2 * p * u == c * (2 * k)) by (nonlinear_arith)
        requires
            p * u == c * k,
            u > 0,
            c > 0,
            k > 0,
    ;
    assert(ratio.larger(num(HALF)) == if ratio.nan() || 2 * ratio.units() < unit() {
        num(HALF)
    } else {
        ratio
    });
}

proof fn lemma_shares_are_ordered()
    ensures
        0 < num(0x3f73_3333).units(),
        0 < num(0x3f7d_70a4).units(),
        num(ZERO).units() == 0,
{
    small_numbers_are_what_they_are_called();
    assert(num(ZERO).below(num(0x3f73_3333)) && num(ZERO).below(num(0x3f7d_70a4))) by {
        broadcast use crate::scalar::group_scalar_order;

    }
}

/// At a ratio of 1, or with an amount of none, the correction is none: de-emphasis gives back
/// what pre-emphasis took, by an arithmetic in which 1 to every power, and every power of none, is
/// 1.
pub proof fn unshifted_formants_are_left_alone(ar: Arith, amount: Scalar, ratio: Scalar)
    requires
        ({
            let inverse = ar(Op::Div(num(ONE), ratio.larger(num(HALF))));
            ar(Op::Pow(inverse, amount)) == num(ONE)
        }),
        ar(Op::Mul(num(0x3f73_3333), num(ONE))) == num(0x3f73_3333),
    ensures
        de_emphasis(ar, amount, ratio) == num(0x3f73_3333),
{
    broadcast use crate::scalar::group_scalar_order;

}

/// A signal may be emphasised in parts: the second goes on from the last sample of the first.
pub proof fn emphasis_goes_on_from_block_to_block(
    ar: Arith,
    share: Scalar,
    previous: Scalar,
    x: Seq<Scalar>,
    y: Seq<Scalar>,
)
    requires
        x.len() > 0,
    ensures
        pre_emphasised(ar, previous, x + y) == pre_emphasised(ar, previous, x) + pre_emphasised(
            ar,
            x.last(),
            y,
        ),
        de_emphasised(ar, share, previous, x + y) == de_emphasised(ar, share, previous, x)
            + de_emphasised(ar, share, de_emphasised(ar, share, previous, x).last(), y),
{
    assert(pre_emphasised(ar, previous, x + y) =~= pre_emphasised(ar, previous, x)
        + pre_emphasised(ar, x.last(), y));
    let last = de_emphasised(ar, share, previous, x).last();
    assert(last == de_emphasised_last(ar, share, previous, x, x.len() as int));
    assert forall|n: int| 0 <= n <= x.len() implies #[trigger] de_emphasised_last(
        ar,
        share,
        previous,
        x + y,
        n,
    ) == de_emphasised_last(ar, share, previous, x, n) by {
        lemma_first_part(ar, share, previous, x, y, n);
    }
    assert forall|n: int| 0 <= n <= y.len() implies #[trigger] de_emphasised_last(
        ar,
        share,
        last,
        y,
        n,
    ) == de_emphasised_last(ar, share, previous, x + y, x.len() + n) by {
        lemma_second_part(ar, share, previous, x, y, n);
    }
    assert(de_emphasised(ar, share, previous, x + y) =~= de_emphasised(ar, share, previous, x)
        + de_emphasised(ar, share, last, y));
}

proof fn lemma_first_part(
    ar: Arith,
    share: Scalar,
    previous: Scalar,
    x: Seq<Scalar>,
    y: Seq<Scalar>,
    n: int,
)
    requires
        0 <= n <= x.len(),
    ensures
        de_emphasised_last(ar, share, previous, x + y, n) == de_emphasised_last(
            ar,
            share,
            previous,
            x,
            n,
        ),
    decreases n,
{
    if n > 0 {
        lemma_first_part(ar, share, previous, x, y, n - 1);
    }
}

proof fn lemma_second_part(
    ar: Arith,
    share: Scalar,
    previous: Scalar,
    x: Seq<Scalar>,
    y: Seq<Scalar>,
    n: int,
)
    requires
        0 <= n <= y.len(),
    ensures
        de_emphasised_last(
            ar,
            share,
            de_emphasised_last(ar, share, previous, x, x.len() as int),
            y,
            n,
        ) == de_emphasised_last(ar, share, previous, x + y, x.len() + n),
    decreases n,
{
    if n > 0 {
        lemma_second_part(ar, share, previous, x, y, n - 1);
    } else {
        lemma_first_part(ar, share, previous, x, y, x.len() as int);
    }
}

/// A corrector changes the signal if it is switched on and its amount is more than none, and only
/// then.
pub proof fn correctors_act_if_switched_on(s: FormantState)
    ensures
        s.active() <==> s.enabled && !s.amount.nan() && s.amount.units() > 0,
{
    small_numbers_are_what_they_are_called();
}

/// As much of a signal as there is room for is its beginning, and what is laid over a buffer takes
/// the place of the beginning of the buffer alone.
pub proof fn signals_are_cut_to_the_room(x: Seq<Scalar>, buffer: Seq<Scalar>, i: int)
    requires
        0 <= i < buffer.len(),
    ensures
        ({
            let y = fitting(x, buffer.len());
            &&& y.len() <= x.len()
            &&& y.len() <= buffer.len()
            &&& y.len() == x.len() || y.len() == buffer.len()
            &&& i < y.len() ==> y[i] == x[i]
            &&& laid_over(buffer, y).len() == buffer.len()
            &&& laid_over(buffer, y)[i] == if i < y.len() {
                y[i]
            } else {
                buffer[i]
            }
        }),
{
}

} // verus!
