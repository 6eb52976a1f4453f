//! One-pole smoothing: a value that moves towards its target by a fixed share at each step.
use vstd::prelude::*;

use crate::arith::{apply, is_arithmetic, results, Arith, Op};
use crate::scalar::{num, Scalar, ONE};

verus! {

/// 0.001, the length of a millisecond in seconds.
pub const MILLI: u32 = 0x3a83_126f;

/// The share of the distance that is left after `hop_size` samples:
/// exp(-hop_size / tau), with tau the samples of `time_ms` milliseconds.
pub open spec fn decay(ar: Arith, time_ms: Scalar, sample_rate: Scalar, hop_size: usize) -> Scalar {
    let ms = time_ms.larger(num(ONE));
    let tau = ar(Op::Mul(ar(Op::Mul(ms, num(MILLI))), sample_rate)).larger(num(ONE));
    let hop: int = if hop_size == 0 {
        1
    } else {
        hop_size as int
    };
    ar(Op::Exp(ar(Op::Div(ar(Op::FromInt(hop as i128)).negated(), tau))))
}

/// The share of the distance that is left after `hop_size` samples, for a time of at least a
/// millisecond, of at least a sample, and a step of at least a sample.
pub fn coeff_from_time_ms<F: Fn(Op) -> Scalar>(
    time_ms: Scalar,
    sample_rate: Scalar,
    hop_size: usize,
    f: &F,
) -> (r: Scalar)
    requires
        is_arithmetic(*f),
    ensures
        r == decay(results(*f), time_ms, sample_rate, hop_size),
{
    let ms = time_ms.max(num(ONE));
    let tau = apply(f, Op::Mul(apply(f, Op::Mul(ms, num(MILLI))), sample_rate)).max(num(ONE));
    let hop: usize = if hop_size == 0 {
        1
    } else {
        hop_size
    };
    let n = apply(f, Op::FromInt(hop as i128));
    apply(f, Op::Exp(apply(f, Op::Div(n.neg(), tau))))
}

/// One step from `current` towards `target` with `coeff` of the distance left.
pub open spec fn smoothed(ar: Arith, current: Scalar, target: Scalar, coeff: Scalar) -> Scalar {
    ar(
        Op::Add(
            current,
            ar(Op::Mul(ar(Op::Sub(target, current)), ar(Op::Sub(num(ONE), coeff)))),
        ),
    )
}

/// One step from `current` towards `target`: current + (target - current) (1 - coeff).
pub fn smooth_step<F: Fn(Op) -> Scalar>(
    current: Scalar,
    target: Scalar,
    coeff: Scalar,
    f: &F,
) -> (r: Scalar)
    requires
        is_arithmetic(*f),
    ensures
        r == smoothed(results(*f), current, target, coeff),
{
    let rest = apply(f, Op::Sub(num(ONE), coeff));
    let way = apply(f, Op::Sub(target, current));
    apply(f, Op::Add(current, apply(f, Op::Mul(way, rest))))
}

/// `coeff` of `old` and the rest of `new`.
pub open spec fn blended(ar: Arith, coeff: Scalar, old: Scalar, new: Scalar) -> Scalar {
    ar(
        Op::Add(
            ar(Op::Mul(coeff, old)),
            ar(Op::Mul(ar(Op::Sub(num(ONE), coeff)), new)),
        ),
    )
}

/// A blend of two values: coeff old + (1 - coeff) new.
pub fn blend<F: Fn(Op) -> Scalar>(coeff: Scalar, old: Scalar, new: Scalar, f: &F) -> (r: Scalar)
    requires
        is_arithmetic(*f),
    ensures
        r == blended(results(*f), coeff, old, new),
{
    let rest = apply(f, Op::Sub(num(ONE), coeff));
    apply(f, Op::Add(apply(f, Op::Mul(coeff, old)), apply(f, Op::Mul(rest, new))))
}

#[derive(Debug, Clone)]
pub struct OnePoleSmoother {
    current: Scalar,
    coeff: Scalar,
}

impl OnePoleSmoother {
    /// The value reached so far.
    pub closed spec fn value(self) -> Scalar {
        self.current
    }

    /// The share of the distance that a step leaves.
    pub closed spec fn share(self) -> Scalar {
        self.coeff
    }

    pub fn new<F: Fn(Op) -> Scalar>(
        initial: Scalar,
        time_ms: Scalar,
        sample_rate: Scalar,
        hop_size: usize,
        f: &F,
    ) -> (r: Self)
        requires
            is_arithmetic(*f),
        ensures
            r.value() == initial,
            r.share() == decay(results(*f), time_ms, sample_rate, hop_size),
    {
        OnePoleSmoother {
            current: initial,
            coeff: coeff_from_time_ms(time_ms, sample_rate, hop_size, f),
        }
    }

    /// Changes the time; the value reached stays.
    pub fn set_time_ms<F: Fn(Op) -> Scalar>(
        &mut self,
        time_ms: Scalar,
        sample_rate: Scalar,
        hop_size: usize,
        f: &F,
    )
        requires
            is_arithmetic(*f),
        ensures
            final(self).value() == old(self).value(),
            final(self).share() == decay(results(*f), time_ms, sample_rate, hop_size),
    {
        self.coeff = coeff_from_time_ms(time_ms, sample_rate, hop_size, f);
    }

    /// One step towards `target`.
    pub fn process<F: Fn(Op) -> Scalar>(&mut self, target: Scalar, f: &F) -> (r: Scalar)
        requires
            is_arithmetic(*f),
        ensures
            r == smoothed(results(*f), old(self).value(), target, old(self).share()),
            final(self).value() == r,
            final(self).share() == old(self).share(),
    {
        self.current = smooth_step(self.current, target, self.coeff, f);
        self.current
    }
}

} // verus!
