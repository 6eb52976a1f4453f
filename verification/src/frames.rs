//! Interleaved audio: frames of one sample for each channel, one after the other.
use vstd::arithmetic::div_mod::*;
use vstd::prelude::*;
use vstd::slice::slice_subrange;

use crate::arith::{apply, is_arithmetic, results, Arith, Op};
use crate::buffer::{pieces, sum, total};
use crate::scalar::Scalar;

verus! {

/// The samples of the frame that starts at `start`: one for each channel, or as many as are
/// left.
pub open spec fn frame_at(data: Seq<Scalar>, channels: int, start: int) -> Seq<Scalar> {
    if start + channels <= data.len() {
        data.subrange(start, start + channels)
    } else {
        data.subrange(start, data.len() as int)
    }
}

/// The samples of a frame added up and divided by the number of channels.
pub open spec fn mono_of(ar: Arith, frame: Seq<Scalar>, channels: int) -> Scalar {
    ar(Op::Div(total(ar, frame), ar(Op::FromInt(channels as i128))))
}

/// One sample for each frame, a frame that is cut short included.
pub open spec fn mono_signal(ar: Arith, data: Seq<Scalar>, channels: int) -> Seq<Scalar> {
    Seq::new(
        pieces(data.len() as int, channels) as nat,
        |i: int| mono_of(ar, frame_at(data, channels, i * channels), channels),
    )
}

/// The one sample that stands for the frame at `start`.
pub fn mono_frame<F: Fn(Op) -> Scalar>(
    data: &[Scalar],
    channels: usize,
    start: usize,
    f: &F,
) -> (r: Scalar)
    requires
        start <= data@.len(),
        is_arithmetic(*f),
    ensures
        r == mono_of(
            results(*f),
            frame_at(data@, channels as int, start as int),
            channels as int,
        ),
{
    let n = data.len();
    let end: usize = if channels <= n - start {
        start + channels
    } else {
        n
    };
    let frame = slice_subrange(data, start, end);
    apply(f, Op::Div(sum(frame, f), apply(f, Op::FromInt(channels as i128))))
}

/// Data with each frame filled with one sample; what follows the last of them stays.
pub open spec fn spread(data: Seq<Scalar>, channels: int, mono: Seq<Scalar>) -> Seq<Scalar> {
    Seq::new(
        data.len(),
        |j: int|
            if j / channels < mono.len() {
                mono[j / channels]
            } else {
                data[j]
            },
    )
}

/// Fills each of the first `count` frames with one sample of `mono`.
pub fn spread_frames(data: &mut [Scalar], channels: usize, mono: &Vec<Scalar>, count: usize)
    requires
        channels > 0,
        count <= mono@.len(),
        count * channels <= old(data)@.len(),
    ensures
        final(data)@ == spread(old(data)@, channels as int, mono@.take(count as int)),
{
    let ghost ch = channels as int;
    let ghost m = mono@.take(count as int);
    let ghost goal = spread(old(data)@, ch, m);
    let len = data.len();
    let mut i: usize = 0;
    let mut at: usize = 0;
    assert(0 * ch == 0) by (nonlinear_arith);
    while i < count
        invariant
            i <= count,
            ch == channels,
            ch > 0,
            at == i * ch,
            len == data@.len(),
            len == old(data)@.len(),
            count * ch <= len,
            count <= mono@.len(),
            m == mono@.take(count as int),
            goal == spread(old(data)@, ch, m),
            forall|j: int| 0 <= j < at ==> data@[j] == goal[j],
            forall|j: int| at <= j < len ==> data@[j] == old(data)@[j],
        decreases count - i,
    {
        let y = mono[i];
        proof {
            assert((i + 1) * ch == i * ch + ch) by (nonlinear_arith);
            assert((i + 1) * ch <= count * ch) by (nonlinear_arith)
                requires
                    i + 1 <= count,
                    ch > 0,
            ;
        }
        let end: usize = at + channels;
        let ghost start = at as int;
        while at < end
            invariant
                start <= at <= end,
                end == start + ch,
                start == i * ch,
                end <= len,
                i < count,
                ch == channels,
                ch > 0,
                len == data@.len(),
                len == old(data)@.len(),
                m.len() == count,
                y == m[i as int],
                goal == spread(old(data)@, ch, m),
                forall|j: int| 0 <= j < at ==> data@[j] == goal[j],
                forall|j: int| at <= j < len ==> data@[j] == old(data)@[j],
            decreases end - at,
        {
            proof {
                assert(at as int == i * ch + (at - start));
                lemma_fundamental_div_mod_converse(at as int, ch, i as int, at - start);
            }
            data[at] = y;
            at += 1;
        }
        i += 1;
    }
    assert forall|j: int| 0 <= j < len implies data@[j] == goal[j] by {
        if j >= at {
            lemma_div_is_ordered(count * ch, j, ch);
            lemma_div_multiples_vanish(count as int, ch);
            assert(ch * count == count * ch) by (nonlinear_arith);
        }
    }
    assert(data@ =~= goal);
}

} // verus!
