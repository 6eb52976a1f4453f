//! Buffers of samples: filling, shifting and windowing them.
use vstd::arithmetic::div_mod::{lemma_fundamental_div_mod, lemma_mod_bound};
use vstd::prelude::*;

use crate::arith::{apply, is_arithmetic, results, Arith, Op};
use crate::scalar::{num, Scalar, HALF, ZERO};

verus! {

/// A full turn in radians.
pub const FULL_TURN: u32 = 0x40c9_0fdb;

/// `n` samples of silence.
pub open spec fn silence(n: nat) -> Seq<Scalar> {
    Seq::new(n, |i: int| num(ZERO))
}

/// A buffer moved to the left by `by`, of which `keep` samples stay in use and the rest is
/// silence.
pub open spec fn moved_left(s: Seq<Scalar>, by: int, keep: int) -> Seq<Scalar> {
    Seq::new(
        s.len(),
        |i: int|
            if i < keep {
                s[i + by]
            } else {
                num(ZERO)
            },
    )
}

/// `n` samples of silence, four bytes each, which must be within what can be allocated.
pub fn silent(n: usize) -> (v: Vec<Scalar>)
    requires
        n * 4 <= isize::MAX,
    ensures
        v@ == silence(n as nat),
{
    vec![num(ZERO); n]
}

/// Makes a buffer silent.
pub fn clear(v: &mut Vec<Scalar>)
    ensures
        final(v)@ == silence(old(v)@.len()),
{
    let n = v.len();
    let mut i: usize = 0;
    while i < n
        invariant
            i <= n,
            n == v@.len(),
            n == old(v)@.len(),
            forall|j: int| 0 <= j < i ==> v@[j] == num(ZERO),
        decreases n - i,
    {
        v[i] = num(ZERO);
        i += 1;
    }
}

/// Moves a buffer to the left by `by`, keeps `keep` samples and silences the rest.
pub fn move_left(v: &mut Vec<Scalar>, by: usize, keep: usize)
    requires
        by + keep <= old(v)@.len(),
    ensures
        final(v)@ == moved_left(old(v)@, by as int, keep as int),
{
    let n = v.len();
    let mut i: usize = 0;
    while i < n
        invariant
            i <= n,
            n == v@.len(),
            n == old(v)@.len(),
            by + keep <= n,
            forall|j: int| 0 <= j < i ==> v@[j] == moved_left(old(v)@, by as int, keep as int)[j],
            forall|j: int| i <= j < n ==> v@[j] == old(v)@[j],
        decreases n - i,
    {
        if i < keep {
            let x = v[i + by];
            v[i] = x;
        } else {
            v[i] = num(ZERO);
        }
        i += 1;
    }
}

/// Copies a buffer over another of the same length.
pub fn copy_into(from: &Vec<Scalar>, to: &mut Vec<Scalar>)
    requires
        from@.len() == old(to)@.len(),
    ensures
        final(to)@ == from@,
{
    let n = from.len();
    let mut i: usize = 0;
    while i < n
        invariant
            i <= n,
            n == from@.len(),
            n == to@.len(),
            forall|j: int| 0 <= j < i ==> to@[j] == from@[j],
        decreases n - i,
    {
        to[i] = from[i];
        i += 1;
    }
}

/// The Hann curve at `angle`, which goes from 0 to 2 pi over its length: 0.5 - 0.5 cos(angle).
pub open spec fn hann_at(ar: Arith, angle: Scalar) -> Scalar {
    ar(Op::Sub(num(HALF), ar(Op::Mul(num(HALF), ar(Op::Cos(angle))))))
}

/// The Hann window of `n` samples.
pub open spec fn hann(ar: Arith, n: nat) -> Seq<Scalar> {
    Seq::new(
        n,
        |i: int|
            hann_at(
                ar,
                ar(
                    Op::Div(
                        ar(Op::Mul(num(FULL_TURN), ar(Op::FromInt(i as i128)))),
                        ar(Op::FromInt(n as i128)),
                    ),
                ),
            ),
    )
}

pub fn hann_value<F: Fn(Op) -> Scalar>(angle: Scalar, f: &F) -> (r: Scalar)
    requires
        is_arithmetic(*f),
    ensures
        r == hann_at(results(*f), angle),
{
    apply(f, Op::Sub(num(HALF), apply(f, Op::Mul(num(HALF), apply(f, Op::Cos(angle))))))
}

/// The Hann window of `n` samples.
pub fn hann_window<F: Fn(Op) -> Scalar>(n: usize, f: &F) -> (v: Vec<Scalar>)
    requires
        n * 4 <= isize::MAX,
        is_arithmetic(*f),
    ensures
        v@ == hann(results(*f), n as nat),
{
    let mut v: Vec<Scalar> = Vec::new();
    let mut i: usize = 0;
    while i < n
        invariant
            i <= n,
            is_arithmetic(*f),
            v@.len() == i,
            forall|j: int| 0 <= j < i ==> v@[j] == hann(results(*f), n as nat)[j],
        decreases n - i,
    {
        let turned = apply(f, Op::Mul(num(FULL_TURN), apply(f, Op::FromInt(i as i128))));
        let angle = apply(f, Op::Div(turned, apply(f, Op::FromInt(n as i128))));
        v.push(hann_value(angle, f));
        i += 1;
    }
    v
}

/// The samples added up, from the first on.
pub open spec fn total(ar: Arith, s: Seq<Scalar>) -> Scalar
    decreases s.len(),
{
    if s.len() == 0 {
        num(ZERO)
    } else {
        ar(Op::Add(total(ar, s.drop_last()), s.last()))
    }
}

/// The samples added up, from the first on.
pub fn sum<F: Fn(Op) -> Scalar>(s: &[Scalar], f: &F) -> (r: Scalar)
    requires
        is_arithmetic(*f),
    ensures
        r == total(results(*f), s@),
{
    let n = s.len();
    let mut acc = num(ZERO);
    let mut i: usize = 0;
    while i < n
        invariant
            i <= n,
            n == s@.len(),
            is_arithmetic(*f),
            acc == total(results(*f), s@.take(i as int)),
        decreases n - i,
    {
        assert(s@.take(i + 1).drop_last() =~= s@.take(i as int));
        acc = apply(f, Op::Add(acc, s[i]));
        i += 1;
    }
    assert(s@.take(n as int) =~= s@);
    acc
}

/// The mean of a signal; the divisor is at least 1.
pub open spec fn mean_of(ar: Arith, s: Seq<Scalar>) -> Scalar {
    let n: int = if s.len() == 0 {
        1
    } else {
        s.len() as int
    };
    ar(Op::Div(total(ar, s), ar(Op::FromInt(n as i128))))
}

/// The mean of a signal; the divisor is at least 1.
pub fn mean<F: Fn(Op) -> Scalar>(s: &[Scalar], f: &F) -> (r: Scalar)
    requires
        is_arithmetic(*f),
    ensures
        r == mean_of(results(*f), s@),
{
    let n: usize = if s.len() == 0 {
        1
    } else {
        s.len()
    };
    apply(f, Op::Div(sum(s, f), apply(f, Op::FromInt(n as i128))))
}

/// How many pieces of length `d` there are in `n`, a shorter one at the end included.
pub open spec fn pieces(n: int, d: int) -> int {
    (n + d - 1) / d
}

/// The piece `i`, counted from 0, is one of them if it starts before the end.
pub proof fn lemma_pieces(n: int, d: int, i: int)
    requires
        d >= 1,
        n >= 0,
        i >= 0,
    ensures
        i < pieces(n, d) <==> i * d < n,
{
    let q = pieces(n, d);
    let r = (n + d - 1) % d;
    lemma_fundamental_div_mod(n + d - 1, d);
    lemma_mod_bound(n + d - 1, d);
    assert(n + d - 1 == d * q + r);
    if i < q {
        assert(i * d <= (q - 1) * d) by (nonlinear_arith)
            requires
                i <= q - 1,
                d >= 1,
        ;
        assert((q - 1) * d == d * q - d) by (nonlinear_arith);
    } else {
        assert(i * d >= q * d) by (nonlinear_arith)
            requires
                i >= q,
                d >= 1,
        ;
        assert(q * d == d * q) by (nonlinear_arith);
    }
}

} // verus!
