//! Rings: buffers of a fixed size in which the newest sample takes the place of the oldest.
use vstd::prelude::*;

use crate::scalar::Scalar;

verus! {

/// The samples of a ring from the oldest on, which is the one at `head`.
pub open spec fn unrolled(ring: Seq<Scalar>, head: int) -> Seq<Scalar> {
    ring.skip(head) + ring.take(head)
}

/// What a ring holds after `x` took the place of the oldest sample.
pub open spec fn replaced(held: Seq<Scalar>, x: Scalar) -> Seq<Scalar> {
    held.drop_first().push(x)
}

/// The position after `head`.
pub open spec fn next_head(len: int, head: int) -> int {
    if head + 1 >= len {
        0
    } else {
        head + 1
    }
}

/// Writing at the head and moving it on replaces the oldest sample.
pub proof fn write_replaces_oldest(ring: Seq<Scalar>, head: int, x: Scalar)
    requires
        0 <= head < ring.len(),
    ensures
        unrolled(ring, head)[0] == ring[head],
        unrolled(ring.update(head, x), next_head(ring.len() as int, head)) == replaced(
            unrolled(ring, head),
            x,
        ),
{
    let after = unrolled(ring.update(head, x), next_head(ring.len() as int, head));
    assert(after =~= replaced(unrolled(ring, head), x));
}

/// What a ring holds after all of `input` was written to it: the latest samples.
pub open spec fn latest(held: Seq<Scalar>, input: Seq<Scalar>) -> Seq<Scalar> {
    (held + input).skip(input.len() as int)
}

/// One sample more replaces the oldest one.
pub proof fn latest_of_one_more(held: Seq<Scalar>, input: Seq<Scalar>, x: Scalar)
    requires
        held.len() > 0,
    ensures
        latest(held, input.push(x)) == replaced(latest(held, input), x),
{
    assert(latest(held, input.push(x)) =~= replaced(latest(held, input), x));
}

/// Writes `x` at `head` and gives the next head.
pub fn overwrite_oldest(ring: &mut Vec<Scalar>, head: usize, x: Scalar) -> (next: usize)
    requires
        head < old(ring)@.len(),
    ensures
        next < final(ring)@.len(),
        final(ring)@.len() == old(ring)@.len(),
        unrolled(final(ring)@, next as int) == replaced(unrolled(old(ring)@, head as int), x),
{
    proof {
        write_replaces_oldest(ring@, head as int, x);
    }
    let n = ring.len();
    ring[head] = x;
    if head + 1 >= n {
        0
    } else {
        head + 1
    }
}

/// Copies the samples of a ring, from the oldest on, into a buffer of the same size.
pub fn unroll(ring: &Vec<Scalar>, head: usize, into: &mut Vec<Scalar>)
    requires
        head < ring@.len(),
        old(into)@.len() == ring@.len(),
    ensures
        final(into)@ == unrolled(ring@, head as int),
{
    let n = ring.len();
    let tail: usize = n - head;
    let ghost goal = unrolled(ring@, head as int);
    let mut i: usize = 0;
    while i < n
        invariant
            i <= n,
            n == ring@.len(),
            n == into@.len(),
            head < n,
            tail == n - head,
            goal == unrolled(ring@, head as int),
            forall|j: int| 0 <= j < i ==> into@[j] == goal[j],
        decreases n - i,
    {
        into[i] = if i < tail {
            ring[head + i]
        } else {
            ring[i - tail]
        };
        i += 1;
    }
    assert(into@ =~= goal);
}

} // verus!
