//! A live session: what is set up for it, what becomes of the samples that come in, and where
//! the samples that go out come from.
use vstd::arithmetic::div_mod::{
    lemma_div_pos_is_pos, lemma_fundamental_div_mod, lemma_multiply_divide_lt,
};
use vstd::prelude::*;
use vstd::slice::slice_subrange;

use crate::arith::{apply, is_arithmetic, results, Arith, Op};
use crate::buffer::{lemma_pieces, silent};
use crate::config::{kind_of_arg, RuntimeConfig};
use crate::frames::{mono_frame, mono_signal, spread, spread_frames};
use crate::processor::{
    after_processing, at_rest, output_stays_in_range, processed, PitchCorrectionProcessor, ProcessorConfig,
    ProcessorState,
};
use crate::psola::is_tame;
use crate::scalar::{num, Scalar, ZERO};
use crate::scale::{named_root, parse_root_note, ScaleKind, ScaleMapper};

verus! {

/// How many samples the ring between input and output holds.
pub const RING_CAPACITY: usize = 16384;

/// How many frames are given out at once.
pub const MAX_FRAMES: usize = 2048;

/// The writing end of the ring of the crate `rtrb`.
#[verifier::external_type_specification]
#[verifier::external_body]
#[verifier::reject_recursive_types(T)]
pub struct ExProducer<T>(rtrb::Producer<T>);

/// The reading end of the ring of the crate `rtrb`.
#[verifier::external_type_specification]
#[verifier::external_body]
#[verifier::reject_recursive_types(T)]
pub struct ExConsumer<T>(rtrb::Consumer<T>);

/// What was written through a writing end so far, in this order.
pub uninterp spec fn sent(producer: rtrb::Producer<u32>) -> Seq<u32>;

/// How many values the ring of a writing end holds at most.
pub uninterp spec fn capacity(producer: rtrb::Producer<u32>) -> nat;

/// What was offered to a writing end so far, in this order, and whether it was written.
pub uninterp spec fn offers(producer: rtrb::Producer<u32>) -> Seq<(u32, bool)>;

/// What came of each read at a reading end so far, in this order: a value, or none where the
/// ring was empty.
pub uninterp spec fn outcomes(consumer: rtrb::Consumer<u32>) -> Seq<Option<u32>>;

/// What was read through a reading end so far, in this order.
pub uninterp spec fn received(consumer: rtrb::Consumer<u32>) -> Seq<u32>;

/// `rtrb::RingBuffer::new`: the two ends of a new ring, which nothing was written to or read
/// from. The memory of the ring must be within what can be allocated.
#[verifier::external_body]
fn new_ring(slots: usize) -> (ends: (rtrb::Producer<u32>, rtrb::Consumer<u32>))
    requires
        slots * 4 <= isize::MAX,
    ensures
        sent(ends.0) == Seq::<u32>::empty(),
        offers(ends.0) == Seq::<(u32, bool)>::empty(),
        capacity(ends.0) == slots,
        received(ends.1) == Seq::<u32>::empty(),
        outcomes(ends.1) == Seq::<Option<u32>>::empty(),
{
    rtrb::RingBuffer::new(slots)
}

/// `rtrb::Producer::push`: a value is written, or refused where the ring is full. A ring to
/// which less was written than it holds is not full. Whether a value is refused after that
/// rests on how much was read at the other end meanwhile, and is not said.
#[verifier::external_body]
fn push(producer: &mut rtrb::Producer<u32>, value: u32) -> (accepted: bool)
    ensures
        capacity(*final(producer)) == capacity(*old(producer)),
        offers(*final(producer)) == offers(*old(producer)).push((value, accepted)),
        accepted ==> sent(*final(producer)) == sent(*old(producer)).push(value),
        !accepted ==> sent(*final(producer)) == sent(*old(producer)),
        sent(*old(producer)).len() < capacity(*old(producer)) ==> accepted,
{
    producer.push(value).is_ok()
}

/// `rtrb::Consumer::pop`: a value is read, or none where the ring is empty. Which value it is
/// rests on what was written at the other end, and is not said.
#[verifier::external_body]
fn pop(consumer: &mut rtrb::Consumer<u32>) -> (value: Option<u32>)
    ensures
        outcomes(*final(consumer)) == outcomes(*old(consumer)).push(value),
        match value {
            Some(v) => received(*final(consumer)) == received(*old(consumer)).push(v),
            None => received(*final(consumer)) == received(*old(consumer)),
        },
{
    consumer.pop().ok()
}

/// The two ends of the ring between input and output.
pub fn open_ring() -> (ends: (rtrb::Producer<u32>, rtrb::Consumer<u32>))
    ensures
        sent(ends.0) == Seq::<u32>::empty(),
        offers(ends.0) == Seq::<(u32, bool)>::empty(),
        capacity(ends.0) == RING_CAPACITY,
        received(ends.1) == Seq::<u32>::empty(),
        outcomes(ends.1) == Seq::<Option<u32>>::empty(),
{
    new_ring(RING_CAPACITY)
}

/// Why a session cannot be set up.
#[derive(Debug, Clone, Copy, PartialEq, Eq, Structural)]
pub enum SetupError {
    /// The input does not give single-precision samples.
    InputFormat,
    /// The output does not take single-precision samples.
    OutputFormat,
    /// The root note is not the name of a note.
    RootNote,
}

/// What a session runs with.
pub struct Session {
    pub sample_rate: u32,
    pub block_size: u32,
    pub processor: ProcessorConfig,
    pub mapper: ScaleMapper,
}

/// The sample rate of a session: the one asked for, or the one of the output, within 32000 to
/// 96000.
pub open spec fn session_rate(asked: Option<u32>, default_rate: u32) -> u32 {
    let rate = match asked {
        Some(rate) => rate,
        None => default_rate,
    };
    if rate < 32000 {
        32000
    } else if rate > 96000 {
        96000
    } else {
        rate
    }
}

pub fn choose_rate(asked: Option<u32>, default_rate: u32) -> (r: u32)
    ensures
        r == session_rate(asked, default_rate),
{
    let rate = match asked {
        Some(rate) => rate,
        None => default_rate,
    };
    if rate < 32000 {
        32000
    } else if rate > 96000 {
        96000
    } else {
        rate
    }
}

/// A session runs at 32000 to 96000 samples a second, at the rate asked for where that is one
/// of them.
pub proof fn session_rate_is_supported(asked: Option<u32>, default_rate: u32)
    ensures
        32000 <= session_rate(asked, default_rate) <= 96000,
        asked is Some && 32000 <= asked->0 <= 96000 ==> session_rate(asked, default_rate)
            == asked->0,
{
}

/// What the processor of a session is set up with.
pub open spec fn processor_config_of(
    ar: Arith,
    config: RuntimeConfig,
    sample_rate: u32,
) -> ProcessorConfig {
    ProcessorConfig {
        sample_rate: ar(Op::FromInt(sample_rate as i128)),
        min_freq_hz: config.min_freq_hz,
        max_freq_hz: config.max_freq_hz,
        yin_threshold: config.yin_threshold,
        confidence_threshold: config.confidence_threshold,
        retune_time_ms: config.retune_time_ms,
        correction_strength: config.correction_strength,
        aggressiveness: config.aggressiveness,
        dead_zone_cents: config.dead_zone_cents,
        dry_level: config.dry_level,
        wet_level: config.wet_level,
        force_midi_note: config.force_midi_note,
        formant_enabled: config.formant_enabled,
        formant_amount: config.formant_amount,
    }
}

/// Sets up a session on devices that may or may not handle single-precision samples.
pub fn prepare<F: Fn(Op) -> Scalar>(
    config: &RuntimeConfig,
    input_fits: bool,
    output_fits: bool,
    default_rate: u32,
    f: &F,
) -> (r: Result<Session, SetupError>)
    requires
        is_arithmetic(*f),
    ensures
        match r {
            Err(SetupError::InputFormat) => !input_fits,
            Err(SetupError::OutputFormat) => input_fits && !output_fits,
            Err(SetupError::RootNote) => input_fits && output_fits && named_root(
                config.root_note@,
            ) is None,
            Ok(session) => {
                &&& input_fits
                &&& output_fits
                &&& named_root(config.root_note@) is Some
                &&& session.sample_rate == session_rate(config.sample_rate, default_rate)
                &&& session.block_size == config.block_size
                &&& session.processor == processor_config_of(
                    results(*f),
                    *config,
                    session.sample_rate,
                )
                &&& session.mapper.wf()
                &&& session.mapper.scale() == kind_of_arg(config.scale)
                &&& session.mapper.root() == named_root(config.root_note@)->0 as int % 12
            },
        },
{
    if !input_fits {
        return Err(SetupError::InputFormat);
    }
    if !output_fits {
        return Err(SetupError::OutputFormat);
    }
    let sample_rate = choose_rate(config.sample_rate, default_rate);
    match parse_root_note(config.root_note.as_str()) {
        None => Err(SetupError::RootNote),
        Some(root_pc) => Ok(
            Session {
                sample_rate,
                block_size: config.block_size,
                processor: ProcessorConfig {
                    sample_rate: apply(f, Op::FromInt(sample_rate as i128)),
                    min_freq_hz: config.min_freq_hz,
                    max_freq_hz: config.max_freq_hz,
                    yin_threshold: config.yin_threshold,
                    confidence_threshold: config.confidence_threshold,
                    retune_time_ms: config.retune_time_ms,
                    correction_strength: config.correction_strength,
                    aggressiveness: config.aggressiveness,
                    dead_zone_cents: config.dead_zone_cents,
                    dry_level: config.dry_level,
                    wet_level: config.wet_level,
                    force_midi_note: config.force_midi_note,
                    formant_enabled: config.formant_enabled,
                    formant_amount: config.formant_amount,
                },
                mapper: ScaleMapper::new(root_pc, ScaleKind::from(config.scale)),
            },
        ),
    }
}

/// Whether there is anything to report of a session.
pub fn has_faults(underruns: u64, overruns: u64) -> (r: bool)
    ensures
        r == (underruns > 0 || overruns > 0),
{
    underruns > 0 || overruns > 0
}

/// The bit patterns of samples.
pub open spec fn bits_of(samples: Seq<Scalar>) -> Seq<u32> {
    samples.map_values(|x: Scalar| x.bits)
}

/// The bit patterns of the samples that were accepted.
pub open spec fn accepted_bits(samples: Seq<Scalar>, accepted: Seq<bool>) -> Seq<u32>
    decreases samples.len(),
{
    if samples.len() == 0 {
        seq![]
    } else if accepted.last() {
        accepted_bits(samples.drop_last(), accepted.drop_last()).push(samples.last().bits)
    } else {
        accepted_bits(samples.drop_last(), accepted.drop_last())
    }
}

/// How many samples were refused.
pub open spec fn refusals(accepted: Seq<bool>) -> nat
    decreases accepted.len(),
{
    if accepted.len() == 0 {
        0
    } else {
        refusals(accepted.drop_last()) + if accepted.last() {
            0nat
        } else {
            1nat
        }
    }
}

/// The samples of a block and what became of each.
pub open spec fn offered(samples: Seq<Scalar>, accepted: Seq<bool>) -> Seq<(u32, bool)> {
    Seq::new(samples.len(), |i: int| (samples[i].bits, accepted[i]))
}

/// Writing `samples` had the outcome `accepted`: those that were accepted were written.
pub open spec fn was_fed(
    before: Seq<u32>,
    after: Seq<u32>,
    samples: Seq<Scalar>,
    accepted: Seq<bool>,
) -> bool {
    &&& accepted.len() == samples.len()
    &&& after == before + accepted_bits(samples, accepted)
}

/// Takes a block of the input: the mean of each frame is offered to the ring. Gives how many
/// found the ring full.
pub fn feed<F: Fn(Op) -> Scalar>(
    data: &[Scalar],
    channels: usize,
    producer: &mut rtrb::Producer<u32>,
    f: &F,
) -> (overruns: u64)
    requires
        channels > 0,
        is_arithmetic(*f),
    ensures
        capacity(*final(producer)) == capacity(*old(producer)),
        exists|accepted: Seq<bool>|
            {
                &&& #[trigger] was_fed(
                    sent(*old(producer)),
                    sent(*final(producer)),
                    mono_signal(results(*f), data@, channels as int),
                    accepted,
                )
                &&& offers(*final(producer)) == offers(*old(producer)) + offered(
                    mono_signal(results(*f), data@, channels as int),
                    accepted,
                )
                &&& overruns == refusals(accepted)
                &&& forall|i: int|
                    0 <= i < accepted.len() && sent(*old(producer)).len() + i < capacity(
                        *old(producer),
                    ) ==> #[trigger] accepted[i]
            },
        sent(*old(producer)).len() + mono_signal(results(*f), data@, channels as int).len()
            <= capacity(*old(producer)) ==> {
            &&& overruns == 0
            &&& sent(*final(producer)) == sent(*old(producer)) + bits_of(
                mono_signal(results(*f), data@, channels as int),
            )
        },
{
    let ghost ar = results(*f);
    let ghost ch = channels as int;
    let ghost goal = mono_signal(ar, data@, ch);
    let ghost mut accepted: Seq<bool> = seq![];
    let n = data.len();
    let mut overruns: u64 = 0;
    let mut start: usize = 0;
    let mut more = n > 0;
    proof {
        assert(0 * ch == 0) by (nonlinear_arith);
        lemma_pieces(n as int, ch, 0);
        assert(sent(*producer) + Seq::<u32>::empty() =~= sent(*producer));
        assert(goal.take(0) =~= seq![]);
        assert(offers(*producer) + offered(goal.take(0), accepted) =~= offers(*producer));
        assert(sent(*producer) + bits_of(goal.take(0)) =~= sent(*producer));
    }
    while more
        invariant
            channels > 0,
            ch == channels,
            is_arithmetic(*f),
            ar == results(*f),
            n == data@.len(),
            goal == mono_signal(ar, data@, ch),
            capacity(*producer) == capacity(*old(producer)),
            start <= n,
            more ==> start < n,
            more ==> start == accepted.len() * ch,
            more == (accepted.len() < goal.len()),
            accepted.len() <= goal.len(),
            was_fed(
                sent(*old(producer)),
                sent(*producer),
                goal.take(accepted.len() as int),
                accepted,
            ),
            offers(*producer) == offers(*old(producer)) + offered(
                goal.take(accepted.len() as int),
                accepted,
            ),
            overruns == refusals(accepted),
            overruns <= start,
            forall|i: int|
                0 <= i < accepted.len() && sent(*old(producer)).len() + i < capacity(
                    *old(producer),
                ) ==> #[trigger] accepted[i],
            sent(*producer).len() <= sent(*old(producer)).len() + accepted.len(),
            sent(*old(producer)).len() + goal.len() <= capacity(*old(producer)) ==> overruns == 0
                && sent(*producer) == sent(*old(producer)) + bits_of(
                goal.take(accepted.len() as int),
            ),
        decreases n - start,
    {
        let ghost k = accepted.len() as int;
        let ghost earlier = accepted;
        let mono = mono_frame(data, channels, start, f);
        let ok = push(producer, mono.bits);
        proof {
            accepted = earlier.push(ok);
            assert(accepted.drop_last() =~= earlier);
            assert(goal.take(k + 1).drop_last() =~= goal.take(k));
            assert((offers(*old(producer)) + offered(goal.take(k), earlier)).push((mono.bits, ok))
                =~= offers(*old(producer)) + offered(goal.take(k + 1), accepted));
            assert((sent(*old(producer)) + accepted_bits(goal.take(k), earlier)).push(mono.bits)
                =~= sent(*old(producer)) + accepted_bits(goal.take(k), earlier).push(mono.bits));
            assert((sent(*old(producer)) + bits_of(goal.take(k))).push(mono.bits) =~= sent(
                *old(producer),
            ) + bits_of(goal.take(k + 1)));
            assert((k + 1) * ch == k * ch + ch) by (nonlinear_arith);
            lemma_pieces(n as int, ch, k + 1);
        }
        if !ok {
            overruns += 1;
        }
        if channels < n - start {
            start += channels;
        } else {
            more = false;
            start = n;
        }
    }
    assert(goal.take(goal.len() as int) =~= goal);
    overruns
}

/// The samples of what was read, with silence where nothing was.
pub open spec fn heard_samples(taken: Seq<Option<u32>>) -> Seq<Scalar> {
    Seq::new(
        taken.len(),
        |i: int|
            match taken[i] {
                Some(bits) => num(bits),
                None => num(ZERO),
            },
    )
}

/// What was read.
pub open spec fn taken_bits(taken: Seq<Option<u32>>) -> Seq<u32>
    decreases taken.len(),
{
    if taken.len() == 0 {
        seq![]
    } else {
        match taken.last() {
            Some(bits) => taken_bits(taken.drop_last()).push(bits),
            None => taken_bits(taken.drop_last()),
        }
    }
}

/// How often there was nothing to read.
pub open spec fn gaps(taken: Seq<Option<u32>>) -> nat
    decreases taken.len(),
{
    if taken.len() == 0 {
        0
    } else {
        gaps(taken.drop_last()) + if taken.last() is None {
            1nat
        } else {
            0nat
        }
    }
}

/// Reading had the outcome `taken`: what was read was added to what had been.
pub open spec fn was_drained(
    before: Seq<u32>,
    after: Seq<u32>,
    frames: int,
    taken: Seq<Option<u32>>,
) -> bool {
    &&& taken.len() == frames
    &&& after == before + taken_bits(taken)
}

/// The output side of a session.
pub struct OutputStage {
    processor: PitchCorrectionProcessor,
    input_block: Vec<Scalar>,
    output_block: Vec<Scalar>,
}

impl View for OutputStage {
    type V = ProcessorState;

    closed spec fn view(&self) -> ProcessorState {
        self.processor@
    }
}

impl OutputStage {
    pub closed spec fn wf(self) -> bool {
        &&& self.processor.wf()
        &&& self.input_block@.len() == MAX_FRAMES
        &&& self.output_block@.len() == MAX_FRAMES
    }

    /// The output side of a session, its processor at rest.
    pub fn new<F: Fn(Op) -> Scalar>(
        config: ProcessorConfig,
        mapper: ScaleMapper,
        f: &F,
    ) -> (r: Self)
        requires
            is_arithmetic(*f),
            mapper.wf(),
        ensures
            r.wf(),
            r@ == at_rest(results(*f), config, mapper.scale(), mapper.root()),
    {
        OutputStage {
            processor: PitchCorrectionProcessor::new(config, mapper, f),
            input_block: silent(MAX_FRAMES),
            output_block: silent(MAX_FRAMES),
        }
    }

    /// Whether the frequencies asked for leave lags to search, so that blocks can be given
    /// out.
    pub fn can_detect(&self) -> (r: bool)
        requires
            self.wf(),
        ensures
            r == self@.yin.searchable(),
    {
        self.processor.can_detect()
    }

    /// Fills a block of the output: each frame with one sample of the processed signal, of
    /// which there are as many as whole frames. Gives how often the ring was empty. A block of
    /// more than `MAX_FRAMES` frames stays as it is.
    pub fn render<F: Fn(Op) -> Scalar>(
        &mut self,
        data: &mut [Scalar],
        channels: usize,
        consumer: &mut rtrb::Consumer<u32>,
        f: &F,
    ) -> (underruns: u64)
        requires
            old(self).wf(),
            channels > 0,
            old(data)@.len() / channels as nat <= MAX_FRAMES ==> old(self)@.yin.searchable(),
            is_arithmetic(*f),
        ensures
            final(self).wf(),
            final(self)@.yin == old(self)@.yin,
            old(data)@.len() / channels as nat > MAX_FRAMES ==> {
                &&& final(self)@ == old(self)@
                &&& final(data)@ == old(data)@
                &&& received(*final(consumer)) == received(*old(consumer))
                &&& outcomes(*final(consumer)) == outcomes(*old(consumer))
                &&& underruns == 0
            },
            old(data)@.len() / channels as nat <= MAX_FRAMES ==> exists|taken: Seq<Option<u32>>|
                {
                    &&& #[trigger] was_drained(
                        received(*old(consumer)),
                        received(*final(consumer)),
                        old(data)@.len() as int / channels as int,
                        taken,
                    )
                    &&& outcomes(*final(consumer)) == outcomes(*old(consumer)) + taken
                    &&& underruns == gaps(taken)
                    &&& final(self)@ == after_processing(
                        results(*f),
                        old(self)@,
                        heard_samples(taken),
                    )
                    &&& final(data)@ == spread(
                        old(data)@,
                        channels as int,
                        processed(results(*f), old(self)@, heard_samples(taken)),
                    )
                },
    {
        let frames: usize = data.len() / channels;
        if frames > self.input_block.len() {
            return 0;
        }
        let ghost ar = results(*f);
        let ghost mut taken: Seq<Option<u32>> = seq![];
        let mut underruns: u64 = 0;
        let mut i: usize = 0;
        assert(received(*consumer) + Seq::<u32>::empty() =~= received(*consumer));
        assert(outcomes(*consumer) + taken =~= outcomes(*consumer));
        while i < frames
            invariant
                i <= frames,
                frames <= MAX_FRAMES,
                self.wf(),
                self@ == old(self)@,
                taken.len() == i,
                was_drained(
                    received(*old(consumer)),
                    received(*consumer),
                    i as int,
                    taken,
                ),
                outcomes(*consumer) == outcomes(*old(consumer)) + taken,
                underruns == gaps(taken),
                underruns <= i,
                forall|j: int|
                    0 <= j < i ==> self.input_block@[j] == heard_samples(taken)[j],
            decreases frames - i,
        {
            let ghost before = taken;
            let value = pop(consumer);
            proof {
                taken = before.push(value);
                assert(taken.drop_last() =~= before);
                assert((outcomes(*old(consumer)) + before).push(value) =~= outcomes(*old(consumer))
                    + taken);
                if value is Some {
                    assert((received(*old(consumer)) + taken_bits(before)).push(value->0)
                        =~= received(*old(consumer)) + taken_bits(before).push(value->0));
                }
            }
            let x = match value {
                Some(bits) => num(bits),
                None => {
                    underruns += 1;
                    num(ZERO)
                },
            };
            assert(heard_samples(taken) =~= heard_samples(before).push(x));
            self.input_block[i] = x;
            i += 1;
        }
        let ghost heard = heard_samples(taken);
        let input = slice_subrange(self.input_block.as_slice(), 0, frames);
        let (output, _rest_out) = self.output_block.as_mut_slice().split_at_mut(frames);
        assert(input@ =~= heard);
        self.processor.process_block(input, output, f);
        proof {
            assert(self.output_block@.take(frames as int) =~= processed(
                ar,
                old(self)@,
                heard,
            ));
            lemma_fundamental_div_mod(data@.len() as int, channels as int);
            assert(channels * frames == frames * channels) by (nonlinear_arith);
        }
        spread_frames(data, channels, &self.output_block, frames);
        underruns
    }
}

/// Every sample of a frame that was filled is one of the processed signal, and lies within
/// -1..=1 if it is a number.
pub proof fn rendered_frames_stay_in_range(
    ar: Arith,
    s: ProcessorState,
    data: Seq<Scalar>,
    channels: int,
    input: Seq<Scalar>,
    j: int,
)
    requires
        s.wf(),
        channels > 0,
        input.len() == data.len() as int / channels,
        0 <= j < input.len() * channels,
    ensures
        j < data.len(),
        spread(data, channels, processed(ar, s, input))[j] == processed(ar, s, input)[j / channels],
        is_tame(spread(data, channels, processed(ar, s, input))[j]),
{
    output_stays_in_range(ar, s, input);
    lemma_fundamental_div_mod(data.len() as int, channels);
    assert(channels * input.len() == input.len() * channels) by (nonlinear_arith);
    lemma_multiply_divide_lt(j, channels, input.len() as int);
    lemma_div_pos_is_pos(j, channels);
}

/// Every sample that is offered is either written or refused: those that were written, in their
/// order, are the ones that were accepted, and the rest are counted.
pub proof fn samples_are_written_or_counted(
    samples: Seq<Scalar>,
    accepted: Seq<bool>,
    more: Seq<Scalar>,
    also: Seq<bool>,
    x: Scalar,
)
    requires
        samples.len() == accepted.len(),
        more.len() == also.len(),
    ensures
        accepted_bits(samples, accepted).len() + refusals(accepted) == samples.len(),
        accepted_bits(samples + more, accepted + also) == accepted_bits(samples, accepted)
            + accepted_bits(more, also),
        refusals(accepted + also) == refusals(accepted) + refusals(also),
        accepted_bits(seq![x], seq![true]) == seq![x.bits],
        accepted_bits(seq![x], seq![false]) == Seq::<u32>::empty(),
        refusals(seq![false]) == 1,
        refusals(seq![true]) == 0,
    decreases samples.len() + more.len(),
{
    assert(seq![x].drop_last() =~= Seq::<Scalar>::empty());
    assert(seq![true].drop_last() =~= Seq::<bool>::empty());
    assert(seq![false].drop_last() =~= Seq::<bool>::empty());
    reveal_with_fuel(accepted_bits, 2);
    reveal_with_fuel(refusals, 2);
    assert(accepted_bits(seq![x], seq![true]) =~= seq![x.bits]);
    if more.len() > 0 {
        let (m, a) = (more.drop_last(), also.drop_last());
        samples_are_written_or_counted(samples, accepted, m, a, x);
        assert((samples + more).drop_last() =~= samples + m);
        assert((accepted + also).drop_last() =~= accepted + a);
        assert(accepted_bits(samples + more, accepted + also) =~= accepted_bits(samples, accepted)
            + accepted_bits(more, also));
    } else {
        assert(samples + more =~= samples);
        assert(accepted + also =~= accepted);
        assert(accepted_bits(samples, accepted) + accepted_bits(more, also) =~= accepted_bits(
            samples,
            accepted,
        ));
        if samples.len() > 0 {
            samples_are_written_or_counted(
                samples.drop_last(),
                accepted.drop_last(),
                more,
                also,
                x,
            );
        }
    }
}

/// Every read is heard: as what was read, or as silence where there was nothing, which is
/// counted.
pub proof fn reads_are_heard_or_counted(taken: Seq<Option<u32>>, more: Seq<Option<u32>>, x: u32)
    ensures
        heard_samples(taken).len() == taken.len(),
        taken_bits(taken).len() + gaps(taken) == taken.len(),
        heard_samples(taken + more) == heard_samples(taken) + heard_samples(more),
        taken_bits(taken + more) == taken_bits(taken) + taken_bits(more),
        gaps(taken + more) == gaps(taken) + gaps(more),
        heard_samples(seq![Some(x)]) == seq![num(x)],
        heard_samples(seq![None]) == seq![num(ZERO)],
        taken_bits(seq![Some(x)]) == seq![x],
        taken_bits(seq![None]) == Seq::<u32>::empty(),
        gaps(seq![Some(x)]) == 0,
        gaps(seq![None]) == 1,
    decreases taken.len() + more.len(),
{
    let (some, none) = (seq![Some(x)], seq![None::<u32>]);
    assert(some.drop_last() =~= Seq::<Option<u32>>::empty());
    assert(none.drop_last() =~= Seq::<Option<u32>>::empty());
    assert(heard_samples(some) =~= seq![num(x)]);
    assert(heard_samples(none) =~= seq![num(ZERO)]);
    reveal_with_fuel(taken_bits, 2);
    reveal_with_fuel(gaps, 2);
    assert(taken_bits(some) =~= seq![x]);
    assert(heard_samples(taken + more) =~= heard_samples(taken) + heard_samples(more));
    if more.len() > 0 {
        let m = more.drop_last();
        reads_are_heard_or_counted(taken, m, x);
        assert((taken + more).drop_last() =~= taken + m);
        assert(taken_bits(taken + more) =~= taken_bits(taken) + taken_bits(more));
    } else {
        assert(taken + more =~= taken);
        assert(taken_bits(taken) + taken_bits(more) =~= taken_bits(taken));
        if taken.len() > 0 {
            reads_are_heard_or_counted(taken.drop_last(), more, x);
        }
    }
}

/// The bit patterns of samples stand for the samples.
pub proof fn bits_stand_for_their_samples(samples: Seq<Scalar>, i: int)
    requires
        0 <= i < samples.len(),
    ensures
        bits_of(samples).len() == samples.len(),
        num(bits_of(samples)[i]) == samples[i],
{
}

/// The ring holds eight blocks of the most frames that are given out at once, which are 2048.
pub proof fn ring_holds_eight_blocks()
    ensures
        MAX_FRAMES == 2048,
        RING_CAPACITY == 8 * MAX_FRAMES,
{
}

} // verus!
