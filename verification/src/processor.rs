//! The whole signal path: detection, mapping to a scale, shifting, and mixing with the
//! unshifted signal.
use vstd::prelude::*;
use vstd::slice::slice_subrange;

use crate::arith::{apply, is_arithmetic, results, Arith, Op};
use crate::buffer::{silence, silent};
use crate::config::{to_unit_range, unit_range};
use crate::formant::{
    de_emphasis, de_emphasised, de_emphasised_last, pre_emphasised, FormantCorrector, FormantState,
};
use crate::psola::{
    after_block, block_keeps_sizes, block_out, doubled_until, frame_size_of, fresh, is_tame,
    lemma_fresh_wf, octave_range, step_size_of, PsolaConfig, PsolaShifter, PsolaState,
};
use crate::ring::{latest, latest_of_one_more, overwrite_oldest, replaced, unroll, unrolled};
use crate::scalar::{num, Scalar, HALF, MINUS_ONE, ONE, TWO, ZERO};
use crate::scale::{
    hz_of_midi, in_scale, is_nearest, midi_of_hz, midi_to_hz, nearest_note, nearest_note_is_unique,
    scale_hz, ScaleKind, ScaleMapper,
};
use crate::smoothing::{blend, blended, coeff_from_time_ms, decay, smooth_step, smoothed};
use crate::yin::{estimate_of, is_quiet, setup, PitchEstimate, YinDetector, YinSetup};

verus! {

/// The samples that a pitch is detected in.
pub const ANALYSIS_FRAME: usize = 2048;

/// The samples from one detection to the next.
pub const ANALYSIS_HOP: usize = 256;

/// The samples that are processed at once.
pub const MAX_BLOCK: usize = 2048;

/// How many detections in a row may fail before the last pitch is dropped.
pub const MAX_HOLD: usize = 8;

/// 8, the milliseconds over which the pitch is smoothed.
pub const PITCH_MS: u32 = 0x4100_0000;

/// 50, the widest dead zone in cents.
pub const WIDEST_DEAD_ZONE: u32 = 0x4248_0000;

/// 1200, the cents of an octave.
pub const OCTAVE_CENTS: u32 = 0x4496_0000;

/// 20, the cents beyond the dead zone over which correction sets in.
pub const RAMP_CENTS: u32 = 0x41a0_0000;

/// 80, the cents from which on correction is fully aggressive.
pub const FAR_CENTS: u32 = 0x42a0_0000;

#[derive(Debug, Clone)]
pub struct ProcessorConfig {
    pub sample_rate: Scalar,
    pub min_freq_hz: Scalar,
    pub max_freq_hz: Scalar,
    pub yin_threshold: Scalar,
    pub confidence_threshold: Scalar,
    pub retune_time_ms: Scalar,
    pub correction_strength: Scalar,
    pub aggressiveness: Scalar,
    pub dead_zone_cents: Scalar,
    pub dry_level: Scalar,
    pub wet_level: Scalar,
    pub force_midi_note: Option<u8>,
    pub formant_enabled: bool,
    pub formant_amount: Scalar,
}

#[derive(Debug, Clone, Copy, PartialEq, Eq, Structural)]
pub struct MeterSnapshot {
    pub detected_hz: Scalar,
    pub confidence: Scalar,
    pub target_hz: Scalar,
    pub ratio: Scalar,
}

/// What decides whether a pitch estimate is relied on, and how it is smoothed.
pub struct TrackSetup {
    pub confidence_threshold: Scalar,
    pub min_freq_hz: Scalar,
    pub max_freq_hz: Scalar,
    pub pitch_coeff: Scalar,
}

/// The pitch as it is followed from one estimate to the next.
pub struct Track {
    /// The smoothed pitch; not positive where there is none.
    pub smoothed_hz: Scalar,
    /// The last pitch that was relied on.
    pub last_reliable_hz: Scalar,
    /// How many estimates in a row could not be relied on.
    pub unreliable: int,
    pub detected_hz: Scalar,
    pub confidence: Scalar,
}

/// An estimate is relied on: voiced, in range and confident.
pub open spec fn is_reliable(p: TrackSetup, e: PitchEstimate) -> bool {
    &&& e.voiced
    &&& p.min_freq_hz.at_most(e.frequency_hz)
    &&& e.frequency_hz.at_most(p.max_freq_hz)
    &&& p.confidence_threshold.at_most(e.confidence)
}

pub open spec fn one_more(n: int) -> int {
    if n < usize::MAX {
        n + 1
    } else {
        n
    }
}

/// The track after an estimate. A reliable one is followed; while others come, the last
/// reliable pitch is held for as long as it may be, and then dropped.
pub open spec fn followed(
    ar: Arith,
    p: TrackSetup,
    t: Track,
    estimate: Option<PitchEstimate>,
) -> Track {
    match estimate {
        Some(e) => {
            let reliable = is_reliable(p, e);
            let unreliable = if reliable {
                0
            } else {
                one_more(t.unreliable)
            };
            let chosen = if reliable {
                e.frequency_hz
            } else if unreliable <= MAX_HOLD {
                t.last_reliable_hz
            } else {
                num(ZERO)
            };
            let smoothed_hz = if num(ZERO).below(chosen) {
                if t.smoothed_hz.at_most(num(ZERO)) {
                    chosen
                } else {
                    blended(ar, p.pitch_coeff, t.smoothed_hz, chosen)
                }
            } else if unreliable > MAX_HOLD {
                num(ZERO)
            } else {
                t.smoothed_hz
            };
            Track {
                smoothed_hz,
                last_reliable_hz: if reliable {
                    e.frequency_hz
                } else {
                    t.last_reliable_hz
                },
                unreliable,
                detected_hz: smoothed_hz,
                confidence: e.confidence,
            }
        },
        None => {
            let unreliable = one_more(t.unreliable);
            Track {
                smoothed_hz: if unreliable > MAX_HOLD {
                    num(ZERO)
                } else {
                    t.smoothed_hz
                },
                last_reliable_hz: if unreliable > MAX_HOLD {
                    num(ZERO)
                } else {
                    t.last_reliable_hz
                },
                unreliable,
                detected_hz: num(ZERO),
                confidence: num(ZERO),
            }
        },
    }
}

/// What correction is to do.
pub struct Correction {
    pub strength: Scalar,
    pub aggressiveness: Scalar,
    pub dead_zone_cents: Scalar,
    pub force_midi_note: Option<u8>,
    pub kind: ScaleKind,
    pub root: int,
}

/// The frequency that a pitch is to be moved to: the forced note, or the nearest of the scale.
pub open spec fn target_of(ar: Arith, c: Correction, hz: Scalar) -> Scalar {
    match c.force_midi_note {
        Some(note) => hz_of_midi(ar, ar(Op::FromInt(note as i128))),
        None => match scale_hz(ar, c.kind, c.root, hz) {
            Some(target) => target,
            None => hz,
        },
    }
}

/// How far, in cents, a pitch ratio is from 1.
pub open spec fn cents_of(ar: Arith, ratio: Scalar) -> Scalar {
    ar(Op::Mul(num(OCTAVE_CENTS), ar(Op::Log2(ratio)).absolute()))
}

/// How much of the deviation is corrected: nothing at the edge of the dead zone, all that the
/// strength and the style give from `RAMP_CENTS` beyond it on.
pub open spec fn effective_strength(ar: Arith, c: Correction, cents: Scalar) -> Scalar {
    let ramp = unit_range(
        ar(Op::Div(ar(Op::Sub(cents, c.dead_zone_cents)), num(RAMP_CENTS))),
    );
    let far = unit_range(ar(Op::Div(cents, num(FAR_CENTS))));
    let style = ar(
        Op::Add(
            c.aggressiveness,
            ar(Op::Mul(ar(Op::Sub(num(ONE), c.aggressiveness)), far)),
        ),
    );
    unit_range(ar(Op::Mul(ar(Op::Mul(c.strength, style)), ramp)))
}

/// The pitch ratio that moves `hz` towards its target; 1 within the dead zone.
pub open spec fn ratio_towards(ar: Arith, c: Correction, hz: Scalar) -> Scalar {
    let raw = octave_range(ar(Op::Div(target_of(ar, c, hz), hz)));
    let cents = cents_of(ar, raw);
    if cents.below(c.dead_zone_cents) {
        num(ONE)
    } else {
        octave_range(
            ar(
                Op::Add(
                    num(ONE),
                    ar(
                        Op::Mul(
                            ar(Op::Sub(raw, num(ONE))),
                            effective_strength(ar, c, cents),
                        ),
                    ),
                ),
            ),
        )
    }
}

/// What a processor remembers from one sample to the next.
pub struct ProcessorState {
    pub yin: YinSetup,
    pub shifter: PsolaState,
    pub formant: FormantState,
    pub sample_rate: Scalar,
    pub tracking: TrackSetup,
    pub correction: Correction,
    pub dry_level: Scalar,
    pub wet_level: Scalar,
    pub track: Track,
    pub current_ratio: Scalar,
    pub ratio_coeff: Scalar,
    pub retune_time_ms: Scalar,
    /// The samples that the next detection looks at, the oldest first.
    pub recent: Seq<Scalar>,
    /// How many of them were heard.
    pub heard: int,
    /// How many samples were heard since the last detection was due.
    pub since_hop: int,
    /// The unshifted samples that are still to be mixed in, the oldest first.
    pub dry_queue: Seq<Scalar>,
    pub target_hz: Scalar,
    pub shown_ratio: Scalar,
}

impl ProcessorState {
    pub open spec fn wf(self) -> bool {
        &&& self.shifter.wf()
        &&& self.yin.frame_size == ANALYSIS_FRAME
        &&& self.recent.len() == ANALYSIS_FRAME
        &&& 0 <= self.heard <= ANALYSIS_FRAME
        &&& 0 <= self.since_hop < ANALYSIS_HOP
        &&& self.dry_queue.len() == self.shifter.frame_size()
        &&& 0 <= self.track.unreliable <= usize::MAX
        &&& is_octave(self.current_ratio)
    }
}

/// A ratio that is a number lies between an octave down and an octave up.
pub open spec fn is_octave(ratio: Scalar) -> bool {
    !ratio.nan() ==> num(HALF).at_most(ratio) && ratio.at_most(num(TWO))
}

/// A processor that has heard nothing.
pub open spec fn at_rest(
    ar: Arith,
    config: ProcessorConfig,
    kind: ScaleKind,
    root: int,
) -> ProcessorState {
    let shifter = fresh(
        ar,
        config.sample_rate,
        PsolaConfig { frame_size: 2048, overlap: 8 },
    );
    let retune = config.retune_time_ms.larger(num(ONE));
    ProcessorState {
        yin: setup(
            ar,
            config.sample_rate,
            ANALYSIS_FRAME as nat,
            config.min_freq_hz,
            config.max_freq_hz,
            config.yin_threshold,
        ),
        shifter,
        formant: FormantState {
            enabled: config.formant_enabled,
            amount: unit_range(config.formant_amount),
            pre_state: num(ZERO),
            de_state: num(ZERO),
        },
        sample_rate: config.sample_rate,
        tracking: TrackSetup {
            confidence_threshold: unit_range(config.confidence_threshold),
            min_freq_hz: config.min_freq_hz,
            max_freq_hz: config.max_freq_hz,
            pitch_coeff: decay(ar, num(PITCH_MS), config.sample_rate, ANALYSIS_HOP),
        },
        correction: Correction {
            strength: unit_range(config.correction_strength),
            aggressiveness: unit_range(config.aggressiveness),
            dead_zone_cents: config.dead_zone_cents.clamped(num(ZERO), num(WIDEST_DEAD_ZONE)),
            force_midi_note: config.force_midi_note,
            kind,
            root,
        },
        dry_level: unit_range(config.dry_level),
        wet_level: unit_range(config.wet_level),
        track: Track {
            smoothed_hz: num(ZERO),
            last_reliable_hz: num(ZERO),
            unreliable: 0,
            detected_hz: num(ZERO),
            confidence: num(ZERO),
        },
        current_ratio: num(ONE),
        ratio_coeff: decay(ar, retune, config.sample_rate, ANALYSIS_HOP),
        retune_time_ms: retune,
        recent: silence(ANALYSIS_FRAME as nat),
        heard: 0,
        since_hop: 0,
        dry_queue: silence(shifter.frame_size() as nat),
        target_hz: num(ZERO),
        shown_ratio: num(ONE),
    }
}

proof fn lemma_shifter_sizes()
    ensures
        frame_size_of(PsolaConfig { frame_size: 2048, overlap: 8 }) == 2048,
        step_size_of(PsolaConfig { frame_size: 2048, overlap: 8 }) == 256,
{
    reveal_with_fuel(doubled_until, 12);
    let cfg = PsolaConfig { frame_size: 2048, overlap: 8 };
    assert(frame_size_of(cfg) == 2048);
    assert(frame_size_of(cfg) / (cfg.overlap as nat) == 256) by (nonlinear_arith)
        requires
            frame_size_of(cfg) == 2048,
            cfg.overlap == 8,
    ;
}

proof fn lemma_unrolled_silence(n: nat)
    ensures
        unrolled(silence(n), 0) == silence(n),
{
    assert(unrolled(silence(n), 0) =~= silence(n));
}

/// A processor at rest is in order.
pub(crate) proof fn lemma_at_rest_wf(ar: Arith, config: ProcessorConfig, kind: ScaleKind, root: int)
    ensures
        at_rest(ar, config, kind, root).wf(),
        fresh(
            ar,
            config.sample_rate,
            PsolaConfig { frame_size: 2048, overlap: 8 },
        ).frame_size() == 2048,
{
    let cfg = PsolaConfig { frame_size: 2048, overlap: 8 };
    let shifter = fresh(ar, config.sample_rate, cfg);
    lemma_unity_is_octave();
    assert(shifter.wf() && shifter.frame_size() == 2048) by {
        lemma_shifter_sizes();
        lemma_fresh_wf(ar, config.sample_rate, cfg);
    }
}

proof fn lemma_unity_is_octave()
    ensures
        is_octave(num(ONE)),
{
    broadcast use crate::scalar::group_scalar_order;

}

/// The processor after a detection: the track follows the estimate, and the ratio moves
/// towards the one that corrects the pitch, or towards 1 where there is none.
pub open spec fn after_detection(ar: Arith, s: ProcessorState) -> ProcessorState {
    let track = followed(ar, s.tracking, s.track, estimate_of(ar, s.yin, s.recent));
    let hz = track.smoothed_hz;
    let voiced = !hz.at_most(num(ZERO));
    let goal = if voiced {
        ratio_towards(ar, s.correction, hz)
    } else {
        num(ONE)
    };
    ProcessorState {
        track,
        target_hz: if voiced {
            target_of(ar, s.correction, hz)
        } else {
            num(ZERO)
        },
        current_ratio: octave_range(smoothed(ar, s.current_ratio, goal, s.ratio_coeff)),
        ..s
    }
}

/// The processor after it heard a sample. At every hop, once a whole frame was heard, the
/// pitch is detected.
#[verifier::opaque]
pub open spec fn after_hearing(ar: Arith, s: ProcessorState, x: Scalar) -> ProcessorState {
    let heard = if s.heard < ANALYSIS_FRAME {
        s.heard + 1
    } else {
        s.heard
    };
    let due = s.since_hop + 1 >= ANALYSIS_HOP;
    let t = ProcessorState {
        recent: replaced(s.recent, x),
        heard,
        since_hop: if due {
            0
        } else {
            s.since_hop + 1
        },
        ..s
    };
    if due && heard >= ANALYSIS_FRAME {
        after_detection(ar, t)
    } else {
        t
    }
}

/// The processor after it heard all of `input`.
pub open spec fn after_hearing_all(
    ar: Arith,
    s: ProcessorState,
    input: Seq<Scalar>,
) -> ProcessorState
    decreases input.len(),
{
    if input.len() == 0 {
        s
    } else {
        after_hearing(ar, after_hearing_all(ar, s, input.drop_last()), input.last())
    }
}

/// The detector can be asked about a frame: there are lags to search, or none is searched.
pub open spec fn can_estimate(ar: Arith, yin: YinSetup, frame: Seq<Scalar>) -> bool {
    yin.searchable() || !yin.accepts(frame.len()) || is_quiet(ar, yin, frame)
}

/// The detector can be asked wherever it is asked while `input` is heard.
pub open spec fn can_hear(ar: Arith, s: ProcessorState, input: Seq<Scalar>) -> bool
    decreases input.len(),
{
    input.len() == 0 || {
        let t = after_hearing_all(ar, s, input.drop_last());
        &&& can_hear(ar, s, input.drop_last())
        &&& t.since_hop + 1 >= ANALYSIS_HOP && t.heard + 1 >= ANALYSIS_FRAME ==> can_estimate(
            ar,
            t.yin,
            replaced(t.recent, input.last()),
        )
    }
}

/// What the shifter is fed: the signal, pre-emphasised where formants are corrected.
pub open spec fn shifter_input(ar: Arith, f: FormantState, input: Seq<Scalar>) -> Seq<Scalar> {
    if f.active() {
        pre_emphasised(ar, f.pre_state, input)
    } else {
        input
    }
}

/// The shifted signal, de-emphasised where formants are corrected.
pub open spec fn shifted_signal(ar: Arith, s: ProcessorState, input: Seq<Scalar>) -> Seq<Scalar> {
    let out = block_out(
        ar,
        s.shifter,
        s.current_ratio,
        s.track.detected_hz,
        shifter_input(ar, s.formant, input),
    );
    if s.formant.active() {
        de_emphasised(
            ar,
            de_emphasis(ar, s.formant.amount, s.current_ratio),
            s.formant.de_state,
            out,
        )
    } else {
        out
    }
}

/// Formant correction after a block.
pub open spec fn formant_after(
    ar: Arith,
    s: ProcessorState,
    input: Seq<Scalar>,
) -> FormantState {
    if s.formant.active() {
        let out = block_out(
            ar,
            s.shifter,
            s.current_ratio,
            s.track.detected_hz,
            shifter_input(ar, s.formant, input),
        );
        FormantState {
            pre_state: if input.len() == 0 {
                s.formant.pre_state
            } else {
                input.last()
            },
            de_state: de_emphasised_last(
                ar,
                de_emphasis(ar, s.formant.amount, s.current_ratio),
                s.formant.de_state,
                out,
                out.len() as int,
            ),
            ..s.formant
        }
    } else {
        s.formant
    }
}

/// The processor after the shifter and the mixer passed on a block that it has heard.
pub open spec fn after_shifting(
    ar: Arith,
    s: ProcessorState,
    input: Seq<Scalar>,
) -> ProcessorState {
    ProcessorState {
        shown_ratio: s.current_ratio,
        formant: formant_after(ar, s, input),
        shifter: after_block(
            ar,
            s.shifter,
            s.current_ratio,
            s.track.detected_hz,
            shifter_input(ar, s.formant, input),
        ),
        dry_queue: latest(s.dry_queue, input),
        ..s
    }
}

/// What a mix is divided by: the root of the sum of its levels, and at least 1. Levels that add
/// up to 100 % are mixed as they are; louder ones are brought down to the same power.
pub open spec fn mix_norm(ar: Arith, dry_level: Scalar, wet_level: Scalar) -> Scalar {
    ar(Op::Sqrt(ar(Op::Add(dry_level, wet_level)))).larger(num(ONE))
}

/// Two samples mixed at the given levels, each weighted by the root of its level, with the
/// power of the whole limited, and kept within -1..=1.
pub open spec fn mixed_sample(
    ar: Arith,
    dry_level: Scalar,
    wet_level: Scalar,
    dry: Scalar,
    wet: Scalar,
) -> Scalar {
    let dry_part = ar(Op::Mul(ar(Op::Sqrt(dry_level)), dry));
    let wet_part = ar(Op::Mul(ar(Op::Sqrt(wet_level)), wet));
    ar(
        Op::Div(ar(Op::Add(dry_part, wet_part)), mix_norm(ar, dry_level, wet_level)),
    ).clamped(num(MINUS_ONE), num(ONE))
}

/// What a processor gives for a block of at most `MAX_BLOCK` samples.
#[verifier::opaque]
pub open spec fn chunk_out(ar: Arith, s: ProcessorState, input: Seq<Scalar>) -> Seq<Scalar> {
    let t = after_hearing_all(ar, s, input);
    let wet = shifted_signal(ar, t, input);
    Seq::new(
        input.len(),
        |i: int|
            mixed_sample(
                ar,
                t.dry_level,
                t.wet_level,
                (t.dry_queue + input)[i],
                wet[i],
            ),
    )
}

/// The processor after a block of at most `MAX_BLOCK` samples.
#[verifier::opaque]
pub open spec fn after_chunk(ar: Arith, s: ProcessorState, input: Seq<Scalar>) -> ProcessorState {
    after_shifting(ar, after_hearing_all(ar, s, input), input)
}

pub open spec fn chunk_len(n: nat) -> int {
    if n < MAX_BLOCK {
        n as int
    } else {
        MAX_BLOCK as int
    }
}

/// The processor after a block, taken in pieces of at most `MAX_BLOCK` samples.
pub open spec fn after_processing(
    ar: Arith,
    s: ProcessorState,
    input: Seq<Scalar>,
) -> ProcessorState
    decreases input.len(),
{
    if input.len() == 0 {
        s
    } else {
        let n = chunk_len(input.len());
        after_processing(ar, after_chunk(ar, s, input.take(n)), input.skip(n))
    }
}

/// The detector can be asked wherever it is asked while a block is processed.
pub open spec fn can_process(ar: Arith, s: ProcessorState, input: Seq<Scalar>) -> bool
    decreases input.len(),
{
    input.len() == 0 || {
        let n = chunk_len(input.len());
        &&& can_hear(ar, s, input.take(n))
        &&& can_process(ar, after_chunk(ar, s, input.take(n)), input.skip(n))
    }
}

/// What a processor gives for a block.
pub open spec fn processed(ar: Arith, s: ProcessorState, input: Seq<Scalar>) -> Seq<Scalar>
    decreases input.len(),
{
    if input.len() == 0 {
        seq![]
    } else {
        let n = chunk_len(input.len());
        chunk_out(ar, s, input.take(n)) + processed(
            ar,
            after_chunk(ar, s, input.take(n)),
            input.skip(n),
        )
    }
}

/// What a processor gives for a block whose levels move from sample to sample.
pub open spec fn processed_at(
    ar: Arith,
    s: ProcessorState,
    input: Seq<Scalar>,
    dry: Seq<Scalar>,
    wet: Seq<Scalar>,
) -> Seq<Scalar> {
    Seq::new(
        input.len(),
        |i: int|
            mixed_sample(
                ar,
                unit_range(dry[i]),
                unit_range(wet[i]),
                (s.dry_queue + input)[i],
                wet_signal(ar, s, input)[i],
            ),
    )
}

pub struct PitchCorrectionProcessor {
    yin: YinDetector,
    mapper: ScaleMapper,
    shifter: PsolaShifter,
    formant: FormantCorrector,
    confidence_threshold: Scalar,
    min_freq_hz: Scalar,
    max_freq_hz: Scalar,
    sample_rate: Scalar,
    correction_strength: Scalar,
    aggressiveness: Scalar,
    dead_zone_cents: Scalar,
    dry_level: Scalar,
    wet_level: Scalar,
    force_midi_note: Option<u8>,
    smoothed_pitch_hz: Scalar,
    pitch_lp_coeff: Scalar,
    last_reliable_pitch_hz: Scalar,
    unreliable_blocks: usize,
    current_ratio: Scalar,
    ratio_lp_coeff: Scalar,
    retune_time_ms: Scalar,
    analysis_ring: Vec<Scalar>,
    analysis_write: usize,
    analysis_scratch: Vec<Scalar>,
    analysis_hop_counter: usize,
    analysis_filled: usize,
    temp_a: Vec<Scalar>,
    temp_b: Vec<Scalar>,
    temp_wet: Vec<Scalar>,
    dry_delay_line: Vec<Scalar>,
    dry_delay_idx: usize,
    meter: MeterSnapshot,
}

impl View for PitchCorrectionProcessor {
    type V = ProcessorState;

    closed spec fn view(&self) -> ProcessorState {
        ProcessorState {
            yin: self.yin@,
            shifter: self.shifter@,
            formant: self.formant@,
            sample_rate: self.sample_rate,
            tracking: self.track_setup(),
            correction: self.correction(),
            dry_level: self.dry_level,
            wet_level: self.wet_level,
            track: self.track(),
            current_ratio: self.current_ratio,
            ratio_coeff: self.ratio_lp_coeff,
            retune_time_ms: self.retune_time_ms,
            recent: unrolled(self.analysis_ring@, self.analysis_write as int),
            heard: self.analysis_filled as int,
            since_hop: self.analysis_hop_counter as int,
            dry_queue: unrolled(self.dry_delay_line@, self.dry_delay_idx as int),
            target_hz: self.meter.target_hz,
            shown_ratio: self.meter.ratio,
        }
    }
}

/// A processor whose ratio follows in the given time, at least a millisecond.
pub open spec fn with_retune_time(ar: Arith, s: ProcessorState, time_ms: Scalar) -> ProcessorState {
    ProcessorState {
        retune_time_ms: time_ms.larger(num(ONE)),
        ratio_coeff: decay(ar, time_ms.larger(num(ONE)), s.sample_rate, ANALYSIS_HOP),
        ..s
    }
}

/// A processor with another strength of the correction.
pub open spec fn with_strength(s: ProcessorState, strength: Scalar) -> ProcessorState {
    ProcessorState {
        correction: Correction { strength: unit_range(strength), ..s.correction },
        ..s
    }
}

/// A processor that corrects small deviations harder or softer.
pub open spec fn with_aggressiveness(s: ProcessorState, aggressiveness: Scalar) -> ProcessorState {
    ProcessorState {
        correction: Correction { aggressiveness: unit_range(aggressiveness), ..s.correction },
        ..s
    }
}

/// A processor with another dead zone.
pub open spec fn with_dead_zone(s: ProcessorState, cents: Scalar) -> ProcessorState {
    ProcessorState {
        correction: Correction {
            dead_zone_cents: cents.clamped(num(ZERO), num(WIDEST_DEAD_ZONE)),
            ..s.correction
        },
        ..s
    }
}

/// A processor on another scale.
pub open spec fn with_scale(s: ProcessorState, kind: ScaleKind, root: int) -> ProcessorState {
    ProcessorState { correction: Correction { kind, root: root % 12, ..s.correction }, ..s }
}

/// A processor with other levels of the unshifted and of the shifted signal.
pub open spec fn with_levels(s: ProcessorState, dry: Scalar, wet: Scalar) -> ProcessorState {
    ProcessorState { dry_level: unit_range(dry), wet_level: unit_range(wet), ..s }
}

/// What the meter shows.
pub open spec fn meter_of(s: ProcessorState) -> MeterSnapshot {
    MeterSnapshot {
        detected_hz: s.track.detected_hz,
        confidence: s.track.confidence,
        target_hz: s.target_hz,
        ratio: s.shown_ratio,
    }
}

impl PitchCorrectionProcessor {
    closed spec fn track_setup(self) -> TrackSetup {
        TrackSetup {
            confidence_threshold: self.confidence_threshold,
            min_freq_hz: self.min_freq_hz,
            max_freq_hz: self.max_freq_hz,
            pitch_coeff: self.pitch_lp_coeff,
        }
    }

    closed spec fn track(self) -> Track {
        Track {
            smoothed_hz: self.smoothed_pitch_hz,
            last_reliable_hz: self.last_reliable_pitch_hz,
            unreliable: self.unreliable_blocks as int,
            detected_hz: self.meter.detected_hz,
            confidence: self.meter.confidence,
        }
    }

    closed spec fn correction(self) -> Correction {
        Correction {
            strength: self.correction_strength,
            aggressiveness: self.aggressiveness,
            dead_zone_cents: self.dead_zone_cents,
            force_midi_note: self.force_midi_note,
            kind: self.mapper.scale(),
            root: self.mapper.root(),
        }
    }

    /// The parts are in order, the buffers have their sizes, and the ratio is within range.
    pub open spec fn wf(self) -> bool {
        &&& self@.wf()
        &&& self.buffers_wf()
    }

    pub closed spec fn buffers_wf(self) -> bool {
        &&& self.yin.wf()
        &&& self.mapper.wf()
        &&& self.shifter.wf()
        &&& self.formant.wf()
        &&& self.analysis_ring@.len() == ANALYSIS_FRAME
        &&& self.analysis_scratch@.len() == ANALYSIS_FRAME
        &&& self.analysis_write < ANALYSIS_FRAME
        &&& self.temp_a@.len() == MAX_BLOCK
        &&& self.temp_b@.len() == MAX_BLOCK
        &&& self.temp_wet@.len() == MAX_BLOCK
        &&& self.dry_delay_idx < self.dry_delay_line@.len()
    }

    /// A processor at rest, on the scale of `mapper`. Levels and strengths are moved into
    /// range.
    pub fn new<F: Fn(Op) -> Scalar>(
        config: ProcessorConfig,
        mapper: ScaleMapper,
        f: &F,
    ) -> (r: Self)
        requires
            is_arithmetic(*f),
            mapper.wf(),
        ensures
            r.wf(),
            r@ == at_rest(results(*f), config, mapper.scale(), mapper.root()),
    {
        let shifter_cfg = PsolaConfig { frame_size: 2048, overlap: 8 };
        let ghost goal = at_rest(results(*f), config, mapper.scale(), mapper.root());
        proof {
            lemma_shifter_sizes();
            lemma_at_rest_wf(results(*f), config, mapper.scale(), mapper.root());
            lemma_unrolled_silence(ANALYSIS_FRAME as nat);
        }
        let yin = YinDetector::new(
            config.sample_rate,
            ANALYSIS_FRAME,
            config.min_freq_hz,
            config.max_freq_hz,
            config.yin_threshold,
            f,
        );
        let shifter = PsolaShifter::new(config.sample_rate, shifter_cfg, f);
        let dry_delay_len: usize = shifter.delay_samples();
        let retune_time_ms = config.retune_time_ms.max(num(ONE));
        let r = PitchCorrectionProcessor {
            yin,
            mapper,
            shifter,
            formant: FormantCorrector::new(config.formant_enabled, config.formant_amount),
            confidence_threshold: config.confidence_threshold.clamp(num(ZERO), num(ONE)),
            min_freq_hz: config.min_freq_hz,
            max_freq_hz: config.max_freq_hz,
            sample_rate: config.sample_rate,
            correction_strength: config.correction_strength.clamp(num(ZERO), num(ONE)),
            aggressiveness: config.aggressiveness.clamp(num(ZERO), num(ONE)),
            dead_zone_cents: config.dead_zone_cents.clamp(num(ZERO), num(WIDEST_DEAD_ZONE)),
            dry_level: config.dry_level.clamp(num(ZERO), num(ONE)),
            wet_level: config.wet_level.clamp(num(ZERO), num(ONE)),
            force_midi_note: config.force_midi_note,
            smoothed_pitch_hz: num(ZERO),
            pitch_lp_coeff: coeff_from_time_ms(
                num(PITCH_MS),
                config.sample_rate,
                ANALYSIS_HOP,
                f,
            ),
            last_reliable_pitch_hz: num(ZERO),
            unreliable_blocks: 0,
            current_ratio: num(ONE),
            ratio_lp_coeff: coeff_from_time_ms(
                retune_time_ms,
                config.sample_rate,
                ANALYSIS_HOP,
                f,
            ),
            retune_time_ms,
            analysis_ring: silent(ANALYSIS_FRAME),
            analysis_write: 0,
            analysis_scratch: silent(ANALYSIS_FRAME),
            analysis_hop_counter: 0,
            analysis_filled: 0,
            temp_a: silent(MAX_BLOCK),
            temp_b: silent(MAX_BLOCK),
            temp_wet: silent(MAX_BLOCK),
            dry_delay_line: silent(dry_delay_len),
            dry_delay_idx: 0,
            meter: MeterSnapshot {
                detected_hz: num(ZERO),
                confidence: num(ZERO),
                target_hz: num(ZERO),
                ratio: num(ONE),
            },
        };
        assert(r@ == goal);
        r
    }

    /// Sets how fast the ratio follows, at least a millisecond.
    pub fn set_retune_time_ms<F: Fn(Op) -> Scalar>(&mut self, time_ms: Scalar, f: &F)
        requires
            old(self).wf(),
            is_arithmetic(*f),
        ensures
            final(self).wf(),
            final(self)@ == with_retune_time(results(*f), old(self)@, time_ms),
    {
        self.retune_time_ms = time_ms.max(num(ONE));
        self.ratio_lp_coeff = coeff_from_time_ms(
            self.retune_time_ms,
            self.sample_rate,
            ANALYSIS_HOP,
            f,
        );
    }

    /// Sets the strength of the correction, 0 to 1.
    pub fn set_correction_strength(&mut self, strength: Scalar)
        requires
            old(self).wf(),
        ensures
            final(self).wf(),
            final(self)@ == with_strength(old(self)@, strength),
    {
        self.correction_strength = strength.clamp(num(ZERO), num(ONE));
    }

    /// Sets how hard small deviations are corrected, 0 to 1.
    pub fn set_aggressiveness(&mut self, aggressiveness: Scalar)
        requires
            old(self).wf(),
        ensures
            final(self).wf(),
            final(self)@ == with_aggressiveness(old(self)@, aggressiveness),
    {
        self.aggressiveness = aggressiveness.clamp(num(ZERO), num(ONE));
    }

    /// Sets the deviation in cents, 0 to 50, below which nothing is corrected.
    pub fn set_dead_zone_cents(&mut self, cents: Scalar)
        requires
            old(self).wf(),
        ensures
            final(self).wf(),
            final(self)@ == with_dead_zone(old(self)@, cents),
    {
        self.dead_zone_cents = cents.clamp(num(ZERO), num(WIDEST_DEAD_ZONE));
    }

    /// Sets the scale and the pitch class of its root.
    pub fn set_scale_key(&mut self, kind: ScaleKind, root_pc: i32)
        requires
            old(self).wf(),
        ensures
            final(self).wf(),
            final(self)@ == with_scale(old(self)@, kind, root_pc as int),
    {
        self.mapper.set_scale(root_pc, kind);
    }

    /// Sets the levels of the unshifted and of the shifted signal, 0 to 1.
    pub fn set_dry_wet_levels(&mut self, dry_level: Scalar, wet_level: Scalar)
        requires
            old(self).wf(),
        ensures
            final(self).wf(),
            final(self)@ == with_levels(old(self)@, dry_level, wet_level),
    {
        self.dry_level = dry_level.clamp(num(ZERO), num(ONE));
        self.wet_level = wet_level.clamp(num(ZERO), num(ONE));
    }

    /// What was last detected, and what is done about it.
    pub fn meter(&self) -> (r: MeterSnapshot)
        ensures
            r == meter_of(self@),
    {
        self.meter
    }

    /// Whether the frequencies asked for leave lags to search, so that blocks can be
    /// processed.
    pub fn can_detect(&self) -> (r: bool)
        requires
            self.wf(),
        ensures
            r == self@.yin.searchable(),
    {
        self.yin.is_searchable()
    }

    /// Processes a block: the corrected signal, mixed with the unshifted one.
    pub fn process_block<F: Fn(Op) -> Scalar>(
        &mut self,
        input: &[Scalar],
        output: &mut [Scalar],
        f: &F,
    )
        requires
            old(self).wf(),
            old(self)@.yin.searchable() || can_process(results(*f), old(self)@, input@),
            input@.len() == old(output)@.len(),
            is_arithmetic(*f),
        ensures
            final(self).wf(),
            final(self)@ == after_processing(results(*f), old(self)@, input@),
            final(self)@.yin == old(self)@.yin,
            final(output)@ == processed(results(*f), old(self)@, input@),
            final(output)@.len() == input@.len(),
    {
        let ghost ar = results(*f);
        let total = input.len();
        let mut offset: usize = 0;
        let ghost goal = processed(ar, old(self)@, input@);
        proof {
            if self@.yin.searchable() {
                lemma_searchable(ar, self@, input@);
            }
        }
        assert(input@.skip(0) =~= input@);
        assert(output@.take(0) + goal =~= goal);
        while offset < total
            invariant
                offset <= total,
                total == input@.len(),
                total == output@.len(),
                is_arithmetic(*f),
                ar == results(*f),
                self.wf(),
                self@.yin == old(self)@.yin,
                can_process(ar, self@, input@.skip(offset as int)),
                goal == output@.take(offset as int) + processed(
                    ar,
                    self@,
                    input@.skip(offset as int),
                ),
                after_processing(ar, old(self)@, input@) == after_processing(
                    ar,
                    self@,
                    input@.skip(offset as int),
                ),
            decreases total - offset,
        {
            let left: usize = total - offset;
            let n: usize = if left < MAX_BLOCK {
                left
            } else {
                MAX_BLOCK
            };
            let chunk_in = slice_subrange(input, offset, offset + n);
            let ghost rest = input@.skip(offset as int);
            let ghost s = self@;
            let ghost done = output@.take(offset as int);
            assert(chunk_in@ =~= rest.take(n as int));
            assert(rest.skip(n as int) =~= input@.skip(offset + n));
            let (head, tail) = output.split_at_mut(offset);
            let (chunk_out_slice, _rest) = tail.split_at_mut(n);
            self.process_chunk(chunk_in, chunk_out_slice, f);
            assert(output@.take(offset + n) =~= done + chunk_out(ar, s, rest.take(n as int)));
            assert(done + (chunk_out(ar, s, rest.take(n as int)) + processed(
                ar,
                self@,
                input@.skip(offset + n),
            )) =~= (done + chunk_out(ar, s, rest.take(n as int))) + processed(
                ar,
                self@,
                input@.skip(offset + n),
            ));
            offset += n;
        }
        assert(input@.skip(total as int).len() == 0);
        assert(output@.take(total as int) + processed(ar, self@, input@.skip(total as int))
            =~= output@);
    }

    /// Processes a block as `process_block` does, at a dry and a wet level of its own for each
    /// sample. The levels that were set stay as they are.
    pub fn process_block_at<F: Fn(Op) -> Scalar>(
        &mut self,
        input: &[Scalar],
        output: &mut [Scalar],
        dry: &[Scalar],
        wet: &[Scalar],
        f: &F,
    )
        requires
            old(self).wf(),
            old(self)@.yin.searchable() || can_process(results(*f), old(self)@, input@),
            input@.len() == old(output)@.len(),
            input@.len() == dry@.len(),
            input@.len() == wet@.len(),
            is_arithmetic(*f),
        ensures
            final(self).wf(),
            final(self)@ == after_processing(results(*f), old(self)@, input@),
            final(self)@.yin == old(self)@.yin,
            final(output)@ == processed_at(results(*f), old(self)@, input@, dry@, wet@),
            final(output)@.len() == input@.len(),
    {
        let ghost ar = results(*f);
        let total = input.len();
        let mut offset: usize = 0;
        let ghost goal = processed_at(ar, old(self)@, input@, dry@, wet@);
        proof {
            if self@.yin.searchable() {
                lemma_searchable(ar, self@, input@);
            }
        }
        assert(input@.skip(0) =~= input@);
        assert(dry@.skip(0) =~= dry@);
        assert(wet@.skip(0) =~= wet@);
        assert(output@.take(0) + goal =~= goal);
        while offset < total
            invariant
                offset <= total,
                total == input@.len(),
                total == output@.len(),
                total == dry@.len(),
                total == wet@.len(),
                is_arithmetic(*f),
                ar == results(*f),
                self.wf(),
                self@.yin == old(self)@.yin,
                can_process(ar, self@, input@.skip(offset as int)),
                goal == output@.take(offset as int) + processed_at(
                    ar,
                    self@,
                    input@.skip(offset as int),
                    dry@.skip(offset as int),
                    wet@.skip(offset as int),
                ),
                after_processing(ar, old(self)@, input@) == after_processing(
                    ar,
                    self@,
                    input@.skip(offset as int),
                ),
            decreases total - offset,
        {
            let left: usize = total - offset;
            let n: usize = if left < MAX_BLOCK {
                left
            } else {
                MAX_BLOCK
            };
            let chunk_in = slice_subrange(input, offset, offset + n);
            let chunk_dry = slice_subrange(dry, offset, offset + n);
            let chunk_wet = slice_subrange(wet, offset, offset + n);
            let ghost rest = input@.skip(offset as int);
            let ghost (rest_dry, rest_wet) = (dry@.skip(offset as int), wet@.skip(offset as int));
            let ghost s = self@;
            let ghost done = output@.take(offset as int);
            proof {
                assert(chunk_in@ =~= rest.take(n as int));
                assert(chunk_dry@ =~= rest_dry.take(n as int));
                assert(chunk_wet@ =~= rest_wet.take(n as int));
                assert(rest.skip(n as int) =~= input@.skip(offset + n));
                assert(rest_dry.skip(n as int) =~= dry@.skip(offset + n));
                assert(rest_wet.skip(n as int) =~= wet@.skip(offset + n));
                lemma_chunk_at(ar, s, rest, rest_dry, rest_wet);
            }
            let (head, tail) = output.split_at_mut(offset);
            let (chunk_out_slice, _rest) = tail.split_at_mut(n);
            self.process_chunk_at(chunk_in, chunk_out_slice, chunk_dry, chunk_wet, f);
            let ghost first = chunk_at(
                ar,
                s,
                rest.take(n as int),
                rest_dry.take(n as int),
                rest_wet.take(n as int),
            );
            assert(output@.take(offset + n) =~= done + first);
            assert(done + (first + processed_at(
                ar,
                self@,
                input@.skip(offset + n),
                dry@.skip(offset + n),
                wet@.skip(offset + n),
            )) =~= (done + first) + processed_at(
                ar,
                self@,
                input@.skip(offset + n),
                dry@.skip(offset + n),
                wet@.skip(offset + n),
            ));
            offset += n;
        }
        assert(input@.skip(total as int).len() == 0);
        assert(output@.take(total as int) + processed_at(
            ar,
            self@,
            input@.skip(total as int),
            dry@.skip(total as int),
            wet@.skip(total as int),
        ) =~= output@);
    }

    fn process_chunk_at<F: Fn(Op) -> Scalar>(
        &mut self,
        input: &[Scalar],
        output: &mut [Scalar],
        dry: &[Scalar],
        wet: &[Scalar],
        f: &F,
    )
        requires
            old(self).wf(),
            can_hear(results(*f), old(self)@, input@),
            input@.len() == old(output)@.len(),
            input@.len() == dry@.len(),
            input@.len() == wet@.len(),
            input@.len() <= MAX_BLOCK,
            is_arithmetic(*f),
        ensures
            final(self).wf(),
            final(self)@ == after_chunk(results(*f), old(self)@, input@),
            final(self)@.yin == old(self)@.yin,
            final(output)@ == chunk_at(results(*f), old(self)@, input@, dry@, wet@),
            final(output)@.len() == input@.len(),
    {
        reveal(after_chunk);
        proof {
            detector_hears_the_latest_samples(results(*f), self@, input@);
        }
        self.hear(input, f);
        self.meter.ratio = self.current_ratio;
        self.shift(input, f);
        self.mix_at(input, output, dry, wet, f);
    }

    fn process_chunk<F: Fn(Op) -> Scalar>(
        &mut self,
        input: &[Scalar],
        output: &mut [Scalar],
        f: &F,
    )
        requires
            old(self).wf(),
            can_hear(results(*f), old(self)@, input@),
            input@.len() == old(output)@.len(),
            input@.len() <= MAX_BLOCK,
            is_arithmetic(*f),
        ensures
            final(self).wf(),
            final(self)@ == after_chunk(results(*f), old(self)@, input@),
            final(self)@.yin == old(self)@.yin,
            final(output)@ == chunk_out(results(*f), old(self)@, input@),
            final(output)@.len() == input@.len(),
    {
        reveal(after_chunk);
        reveal(chunk_out);
        self.hear(input, f);
        self.meter.ratio = self.current_ratio;
        self.shift(input, f);
        self.mix(input, output, f);
    }

    /// Hears a block: keeps it for detection, and detects the pitch where it is due.
    fn hear<F: Fn(Op) -> Scalar>(&mut self, input: &[Scalar], f: &F)
        requires
            old(self).wf(),
            can_hear(results(*f), old(self)@, input@),
            is_arithmetic(*f),
        ensures
            final(self).wf(),
            final(self)@ == after_hearing_all(results(*f), old(self)@, input@),
            final(self)@.yin == old(self)@.yin,
    {
        let ghost ar = results(*f);
        let n = input.len();
        let mut i: usize = 0;
        assert(input@.take(0) =~= seq![]);
        while i < n
            invariant
                i <= n,
                n == input@.len(),
                is_arithmetic(*f),
                ar == results(*f),
                self.wf(),
                self@.yin == old(self)@.yin,
                can_hear(ar, old(self)@, input@),
                self@ == after_hearing_all(ar, old(self)@, input@.take(i as int)),
            decreases n - i,
        {
            reveal(after_hearing);
            assert(input@.take(i + 1).drop_last() =~= input@.take(i as int));
            proof {
                lemma_can_hear_prefix(ar, old(self)@, input@, i + 1);
            }
            self.analysis_write = overwrite_oldest(
                &mut self.analysis_ring,
                self.analysis_write,
                input[i],
            );
            if self.analysis_filled < ANALYSIS_FRAME {
                self.analysis_filled += 1;
            }
            self.analysis_hop_counter += 1;
            if self.analysis_hop_counter >= ANALYSIS_HOP {
                self.analysis_hop_counter = 0;
                if self.analysis_filled >= ANALYSIS_FRAME {
                    self.linearize_ring();
                    self.tick_ratio(f);
                }
            }
            i += 1;
        }
        assert(input@.take(n as int) =~= input@);
    }

    /// Copies the ring, from the oldest sample on, for the detector.
    fn linearize_ring(&mut self)
        requires
            old(self).wf(),
        ensures
            final(self).wf(),
            final(self)@ == old(self)@,
            final(self).analysis_scratch@ == old(self)@.recent,
    {
        unroll(&self.analysis_ring, self.analysis_write, &mut self.analysis_scratch);
    }

    /// Detects the pitch and moves the ratio.
    fn tick_ratio<F: Fn(Op) -> Scalar>(&mut self, f: &F)
        requires
            old(self).wf(),
            can_estimate(results(*f), old(self)@.yin, old(self)@.recent),
            old(self).analysis_scratch@ == old(self)@.recent,
            is_arithmetic(*f),
        ensures
            final(self).wf(),
            final(self)@ == after_detection(results(*f), old(self)@),
            final(self)@.yin == old(self)@.yin,
    {
        broadcast use crate::scalar::group_scalar_order;

        let estimate = self.yin.estimate(self.analysis_scratch.as_slice(), f);
        let tracked_hz = self.update_pitch_tracking(estimate, f);
        let ratio_target = if tracked_hz.le(num(ZERO)) {
            self.meter.target_hz = num(ZERO);
            num(ONE)
        } else {
            self.compute_target_ratio(tracked_hz, f)
        };
        let moved = smooth_step(self.current_ratio, ratio_target, self.ratio_lp_coeff, f);
        self.current_ratio = moved.clamp(num(HALF), num(TWO));
    }

    fn compute_target_ratio<F: Fn(Op) -> Scalar>(&mut self, tracked_hz: Scalar, f: &F) -> (r:
        Scalar)
        requires
            old(self).wf(),
            is_arithmetic(*f),
        ensures
            final(self).wf(),
            final(self)@ == (ProcessorState {
                target_hz: target_of(results(*f), old(self)@.correction, tracked_hz),
                ..old(self)@
            }),
            r == ratio_towards(results(*f), old(self)@.correction, tracked_hz),
    {
        let target_hz = match self.force_midi_note {
            Some(note) => midi_to_hz(apply(f, Op::FromInt(note as i128)), f),
            None => match self.mapper.map_hz_to_scale(tracked_hz, f) {
                Some(target) => target,
                None => tracked_hz,
            },
        };
        self.meter.target_hz = target_hz;
        let raw_ratio = apply(f, Op::Div(target_hz, tracked_hz)).clamp(num(HALF), num(TWO));
        let cents_error = apply(
            f,
            Op::Mul(num(OCTAVE_CENTS), apply(f, Op::Log2(raw_ratio)).abs()),
        );
        if cents_error.lt(self.dead_zone_cents) {
            return num(ONE);
        }
        let beyond = apply(f, Op::Sub(cents_error, self.dead_zone_cents));
        let ramp_factor = apply(f, Op::Div(beyond, num(RAMP_CENTS))).clamp(num(ZERO), num(ONE));
        let distance_weight = apply(f, Op::Div(cents_error, num(FAR_CENTS))).clamp(
            num(ZERO),
            num(ONE),
        );
        let rest = apply(f, Op::Sub(num(ONE), self.aggressiveness));
        let style_weight = apply(
            f,
            Op::Add(self.aggressiveness, apply(f, Op::Mul(rest, distance_weight))),
        );
        let strength = apply(f, Op::Mul(self.correction_strength, style_weight));
        let effective = apply(f, Op::Mul(strength, ramp_factor)).clamp(num(ZERO), num(ONE));
        let deviation = apply(f, Op::Sub(raw_ratio, num(ONE)));
        apply(f, Op::Add(num(ONE), apply(f, Op::Mul(deviation, effective)))).clamp(
            num(HALF),
            num(TWO),
        )
    }

    fn update_pitch_tracking<F: Fn(Op) -> Scalar>(
        &mut self,
        estimate: Option<PitchEstimate>,
        f: &F,
    ) -> (r: Scalar)
        requires
            old(self).wf(),
            is_arithmetic(*f),
        ensures
            final(self).wf(),
            final(self)@ == (ProcessorState {
                track: followed(results(*f), old(self)@.tracking, old(self)@.track, estimate),
                ..old(self)@
            }),
            r == final(self)@.track.smoothed_hz,
    {
        match estimate {
            Some(e) => {
                self.meter.confidence = e.confidence;
                let in_range = self.min_freq_hz.le(e.frequency_hz) && e.frequency_hz.le(
                    self.max_freq_hz,
                );
                let reliable = e.voiced && in_range && self.confidence_threshold.le(
                    e.confidence,
                );
                let chosen_pitch = if reliable {
                    self.unreliable_blocks = 0;
                    self.last_reliable_pitch_hz = e.frequency_hz;
                    e.frequency_hz
                } else {
                    self.unreliable_blocks = self.unreliable_blocks.saturating_add(1);
                    if self.unreliable_blocks <= MAX_HOLD {
                        self.last_reliable_pitch_hz
                    } else {
                        num(ZERO)
                    }
                };
                if num(ZERO).lt(chosen_pitch) {
                    if self.smoothed_pitch_hz.le(num(ZERO)) {
                        self.smoothed_pitch_hz = chosen_pitch;
                    } else {
                        self.smoothed_pitch_hz = blend(
                            self.pitch_lp_coeff,
                            self.smoothed_pitch_hz,
                            chosen_pitch,
                            f,
                        );
                    }
                } else if self.unreliable_blocks > MAX_HOLD {
                    self.smoothed_pitch_hz = num(ZERO);
                }
                self.meter.detected_hz = self.smoothed_pitch_hz;
            },
            None => {
                self.meter.detected_hz = num(ZERO);
                self.meter.confidence = num(ZERO);
                self.unreliable_blocks = self.unreliable_blocks.saturating_add(1);
                if self.unreliable_blocks > MAX_HOLD {
                    self.smoothed_pitch_hz = num(ZERO);
                    self.last_reliable_pitch_hz = num(ZERO);
                }
            },
        }
        self.smoothed_pitch_hz
    }

    /// Shifts a block and leaves the result in `temp_wet`.
    fn shift<F: Fn(Op) -> Scalar>(&mut self, input: &[Scalar], f: &F)
        requires
            old(self).wf(),
            input@.len() <= MAX_BLOCK,
            is_arithmetic(*f),
        ensures
            final(self).wf(),
            final(self)@ == (ProcessorState {
                formant: formant_after(results(*f), old(self)@, input@),
                shifter: after_block(
                    results(*f),
                    old(self)@.shifter,
                    old(self)@.current_ratio,
                    old(self)@.track.detected_hz,
                    shifter_input(results(*f), old(self)@.formant, input@),
                ),
                ..old(self)@
            }),
            final(self).temp_wet@.take(input@.len() as int) == shifted_signal(
                results(*f),
                old(self)@,
                input@,
            ),
    {
        let n = input.len();
        proof {
            block_keeps_sizes(
                results(*f),
                self@.shifter,
                self@.current_ratio,
                self@.track.detected_hz,
                shifter_input(results(*f), self@.formant, input@),
            );
        }
        let ratio = self.current_ratio;
        let detected_pitch_hz = self.meter.detected_hz;
        if self.formant.is_enabled() {
            let (a, _rest_a) = self.temp_a.as_mut_slice().split_at_mut(n);
            let ghost formant = self.formant@;
            self.formant.preprocess(input, a, f);
            assert(a@ =~= pre_emphasised(results(*f), formant.pre_state, input@));
            let (b, _rest_b) = self.temp_b.as_mut_slice().split_at_mut(n);
            self.shifter.process_block(ratio, detected_pitch_hz, a, b, f);
            let (wet, _rest_wet) = self.temp_wet.as_mut_slice().split_at_mut(n);
            self.formant.postprocess(b, wet, ratio, f);
            assert(wet@ =~= shifted_signal(results(*f), old(self)@, input@));
        } else {
            let (wet, _rest_wet) = self.temp_wet.as_mut_slice().split_at_mut(n);
            self.shifter.process_block(ratio, detected_pitch_hz, input, wet, f);
        }
        assert(self.temp_wet@.take(n as int) =~= shifted_signal(results(*f), old(self)@, input@));
    }

    /// Mixes what `shift` left with the delayed block, at a level of its own for each sample.
    fn mix_at<F: Fn(Op) -> Scalar>(
        &mut self,
        input: &[Scalar],
        output: &mut [Scalar],
        dry: &[Scalar],
        wet: &[Scalar],
        f: &F,
    )
        requires
            old(self).wf(),
            input@.len() == old(output)@.len(),
            input@.len() == dry@.len(),
            input@.len() == wet@.len(),
            input@.len() <= MAX_BLOCK,
            is_arithmetic(*f),
        ensures
            final(self).wf(),
            final(self)@ == (ProcessorState {
                dry_queue: latest(old(self)@.dry_queue, input@),
                ..old(self)@
            }),
            final(output)@ == Seq::new(
                input@.len(),
                |i: int|
                    mixed_sample(
                        results(*f),
                        unit_range(dry@[i]),
                        unit_range(wet@[i]),
                        (old(self)@.dry_queue + input@)[i],
                        old(self).temp_wet@[i],
                    ),
            ),
    {
        let ghost ar = results(*f);
        let n = input.len();
        let ghost queue = self@.dry_queue;
        let ghost shifted = self.temp_wet@;
        assert(latest(queue, input@.take(0)) =~= queue);
        let mut i: usize = 0;
        while i < n
            invariant
                i <= n,
                n == input@.len(),
                n == output@.len(),
                n == dry@.len(),
                n == wet@.len(),
                n <= MAX_BLOCK,
                is_arithmetic(*f),
                ar == results(*f),
                self.wf(),
                queue == old(self)@.dry_queue,
                self@ == (ProcessorState {
                    dry_queue: latest(queue, input@.take(i as int)),
                    ..old(self)@
                }),
                self.temp_wet@ == shifted,
                shifted == old(self).temp_wet@,
                forall|j: int|
                    0 <= j < i ==> #[trigger] output@[j] == mixed_sample(
                        ar,
                        unit_range(dry@[j]),
                        unit_range(wet@[j]),
                        (queue + input@)[j],
                        shifted[j],
                    ),
            decreases n - i,
        {
            let dry_sample = self.dry_delay_line[self.dry_delay_idx];
            proof {
                assert(self@.dry_queue[0] == dry_sample);
                assert(self@.dry_queue[0] == (queue + input@)[i as int]);
                latest_of_one_more(queue, input@.take(i as int), input@[i as int]);
                assert(input@.take(i + 1) =~= input@.take(i as int).push(input@[i as int]));
            }
            self.dry_delay_idx = overwrite_oldest(
                &mut self.dry_delay_line,
                self.dry_delay_idx,
                input[i],
            );
            let dry_level = to_unit_range(dry[i]);
            let wet_level = to_unit_range(wet[i]);
            let (dry_w, wet_w, norm) = mix_weights(dry_level, wet_level, f);
            output[i] = mix_sample(dry_w, wet_w, norm, dry_sample, self.temp_wet[i], f);
            i += 1;
        }
        assert(input@.take(n as int) =~= input@);
    }

    /// Mixes what `shift` left with the delayed block.
    fn mix<F: Fn(Op) -> Scalar>(&mut self, input: &[Scalar], output: &mut [Scalar], f: &F)
        requires
            old(self).wf(),
            input@.len() == old(output)@.len(),
            input@.len() <= MAX_BLOCK,
            is_arithmetic(*f),
        ensures
            final(self).wf(),
            final(self)@ == (ProcessorState {
                dry_queue: latest(old(self)@.dry_queue, input@),
                ..old(self)@
            }),
            final(output)@ == Seq::new(
                input@.len(),
                |i: int|
                    mixed_sample(
                        results(*f),
                        old(self)@.dry_level,
                        old(self)@.wet_level,
                        (old(self)@.dry_queue + input@)[i],
                        old(self).temp_wet@[i],
                    ),
            ),
    {
        let ghost ar = results(*f);
        let (dry_w, wet_w, norm) = mix_weights(self.dry_level, self.wet_level, f);
        let n = input.len();
        let ghost queue = self@.dry_queue;
        let ghost wet = self.temp_wet@;
        assert(latest(queue, input@.take(0)) =~= queue);
        let mut i: usize = 0;
        while i < n
            invariant
                i <= n,
                n == input@.len(),
                n == output@.len(),
                n <= MAX_BLOCK,
                is_arithmetic(*f),
                ar == results(*f),
                dry_w == ar(Op::Sqrt(old(self)@.dry_level)),
                wet_w == ar(Op::Sqrt(old(self)@.wet_level)),
                norm == mix_norm(ar, old(self)@.dry_level, old(self)@.wet_level),
                self.wf(),
                queue == old(self)@.dry_queue,
                self@ == (ProcessorState {
                    dry_queue: latest(queue, input@.take(i as int)),
                    ..old(self)@
                }),
                self.temp_wet@ == wet,
                wet == old(self).temp_wet@,
                forall|j: int|
                    0 <= j < i ==> #[trigger] output@[j] == mixed_sample(
                        ar,
                        old(self)@.dry_level,
                        old(self)@.wet_level,
                        (queue + input@)[j],
                        wet[j],
                    ),
            decreases n - i,
        {
            let dry_sample = self.dry_delay_line[self.dry_delay_idx];
            proof {
                assert(self@.dry_queue[0] == dry_sample);
                assert(self@.dry_queue[0] == (queue + input@)[i as int]);
                latest_of_one_more(queue, input@.take(i as int), input@[i as int]);
                assert(input@.take(i + 1) =~= input@.take(i as int).push(input@[i as int]));
            }
            self.dry_delay_idx = overwrite_oldest(
                &mut self.dry_delay_line,
                self.dry_delay_idx,
                input[i],
            );
            output[i] = mix_sample(dry_w, wet_w, norm, dry_sample, self.temp_wet[i], f);
            i += 1;
        }
        assert(input@.take(n as int) =~= input@);
    }
}

/// The weights of a mix, and what it is divided by.
fn mix_weights<F: Fn(Op) -> Scalar>(dry_level: Scalar, wet_level: Scalar, f: &F) -> (r: (
    Scalar,
    Scalar,
    Scalar,
))
    requires
        is_arithmetic(*f),
    ensures
        r.0 == results(*f)(Op::Sqrt(dry_level)),
        r.1 == results(*f)(Op::Sqrt(wet_level)),
        r.2 == mix_norm(results(*f), dry_level, wet_level),
{
    let power = apply(f, Op::Add(dry_level, wet_level));
    (
        apply(f, Op::Sqrt(dry_level)),
        apply(f, Op::Sqrt(wet_level)),
        apply(f, Op::Sqrt(power)).max(num(ONE)),
    )
}

/// Two samples mixed with the given weights.
fn mix_sample<F: Fn(Op) -> Scalar>(
    dry_w: Scalar,
    wet_w: Scalar,
    norm: Scalar,
    dry: Scalar,
    wet: Scalar,
    f: &F,
) -> (r: Scalar)
    requires
        is_arithmetic(*f),
    ensures
        ({
            let ar = results(*f);
            let sum = ar(Op::Add(ar(Op::Mul(dry_w, dry)), ar(Op::Mul(wet_w, wet))));
            r == ar(Op::Div(sum, norm)).clamped(num(MINUS_ONE), num(ONE))
        }),
{
    let dry_part = apply(f, Op::Mul(dry_w, dry));
    let wet_part = apply(f, Op::Mul(wet_w, wet));
    let y = apply(f, Op::Div(apply(f, Op::Add(dry_part, wet_part)), norm));
    y.clamp(num(MINUS_ONE), num(ONE))
}

/// What a processor gives for a block of at most `MAX_BLOCK` samples whose levels move.
spec fn chunk_at(
    ar: Arith,
    s: ProcessorState,
    input: Seq<Scalar>,
    dry: Seq<Scalar>,
    wet: Seq<Scalar>,
) -> Seq<Scalar> {
    let shifted = shifted_signal(ar, after_hearing_all(ar, s, input), input);
    Seq::new(
        input.len(),
        |i: int|
            mixed_sample(
                ar,
                unit_range(dry[i]),
                unit_range(wet[i]),
                (s.dry_queue + input)[i],
                shifted[i],
            ),
    )
}

proof fn lemma_chunk_at(
    ar: Arith,
    s: ProcessorState,
    input: Seq<Scalar>,
    dry: Seq<Scalar>,
    wet: Seq<Scalar>,
)
    requires
        s.wf(),
        0 < input.len(),
        dry.len() == input.len(),
        wet.len() == input.len(),
    ensures
        ({
            let n = chunk_len(input.len());
            processed_at(ar, s, input, dry, wet) == chunk_at(
                ar,
                s,
                input.take(n),
                dry.take(n),
                wet.take(n),
            ) + processed_at(
                ar,
                after_chunk(ar, s, input.take(n)),
                input.skip(n),
                dry.skip(n),
                wet.skip(n),
            )
        }),
{
    let n = chunk_len(input.len());
    let t = after_chunk(ar, s, input.take(n));
    lemma_chunk(ar, s, input.take(n));
    let whole = processed_at(ar, s, input, dry, wet);
    let first = chunk_at(ar, s, input.take(n), dry.take(n), wet.take(n));
    let rest = processed_at(ar, t, input.skip(n), dry.skip(n), wet.skip(n));
    let shifted = shifted_signal(ar, after_hearing_all(ar, s, input.take(n)), input.take(n));
    assert(shifted.len() == n);
    assert(wet_signal(ar, s, input) == shifted + wet_signal(ar, t, input.skip(n)));
    lemma_wet_len(ar, t, input.skip(n));
    assert forall|i: int| 0 <= i < whole.len() implies whole[i] == (first + rest)[i] by {
        if i < n {
            assert((s.dry_queue + input.take(n))[i] == (s.dry_queue + input)[i]);
            assert((first + rest)[i] == first[i]);
        } else {
            assert((t.dry_queue + input.skip(n))[i - n] == (s.dry_queue + input)[i]);
            assert(wet_signal(ar, s, input)[i] == wet_signal(ar, t, input.skip(n))[i - n]);
            assert((first + rest)[i] == rest[i - n]);
        }
    }
    assert(whole =~= first + rest);
}

/// A mix whose levels add up to no more than 100 % is not divided, by an arithmetic whose
/// division by 1 is exact: its weights are the roots of the levels alone.
pub proof fn mixes_of_full_power_are_not_divided(
    ar: Arith,
    dry_level: Scalar,
    wet_level: Scalar,
    dry: Scalar,
    wet: Scalar,
)
    requires
        ar(Op::Sqrt(ar(Op::Add(dry_level, wet_level)))).at_most(num(ONE)),
        forall|y: Scalar| !y.nan() ==> #[trigger] ar(Op::Div(y, num(ONE))) == y,
    ensures
        ({
            let sum = ar(
                Op::Add(
                    ar(Op::Mul(ar(Op::Sqrt(dry_level)), dry)),
                    ar(Op::Mul(ar(Op::Sqrt(wet_level)), wet)),
                ),
            );
            !sum.nan() ==> mixed_sample(ar, dry_level, wet_level, dry, wet) == sum.clamped(
                num(MINUS_ONE),
                num(ONE),
            )
        }),
{
    lemma_one_is_one(mix_norm(ar, dry_level, wet_level));
}

/// The number 1 has one pattern.
proof fn lemma_one_is_one(x: Scalar)
    requires
        x.at_most(num(ONE)),
        num(ONE).at_most(x),
    ensures
        x == num(ONE),
{
    broadcast use crate::scalar::group_scalar_order;

}

/// Levels that stand still mix as those that are set.
pub proof fn steady_levels_mix_as_those_set(
    ar: Arith,
    s: ProcessorState,
    input: Seq<Scalar>,
    dry: Seq<Scalar>,
    wet: Seq<Scalar>,
)
    requires
        s.wf(),
        dry.len() == input.len(),
        wet.len() == input.len(),
        forall|i: int|
            0 <= i < input.len() ==> unit_range(#[trigger] dry[i]) == s.dry_level && unit_range(
                wet[i],
            ) == s.wet_level,
    ensures
        processed_at(ar, s, input, dry, wet) == processed(ar, s, input),
{
    output_stays_in_range(ar, s, input);
    assert forall|i: int| 0 <= i < input.len() implies processed_at(ar, s, input, dry, wet)[i]
        == processed(ar, s, input)[i] by {
        dry_signal_is_delayed(ar, s, input, i);
        assert(unit_range(dry[i]) == s.dry_level);
    }
    assert(processed_at(ar, s, input, dry, wet) =~= processed(ar, s, input));
}

/// The track after a number of estimates.
pub open spec fn followed_all(
    ar: Arith,
    p: TrackSetup,
    t: Track,
    estimates: Seq<Option<PitchEstimate>>,
) -> Track
    decreases estimates.len(),
{
    if estimates.len() == 0 {
        t
    } else {
        followed(ar, p, followed_all(ar, p, t, estimates.drop_last()), estimates.last())
    }
}

/// An estimate that cannot be relied on, or none at all.
pub open spec fn is_failure(p: TrackSetup, estimate: Option<PitchEstimate>) -> bool {
    match estimate {
        Some(e) => !is_reliable(p, e),
        None => true,
    }
}

proof fn lemma_failures_count(
    ar: Arith,
    p: TrackSetup,
    t: Track,
    estimates: Seq<Option<PitchEstimate>>,
)
    requires
        t.unreliable >= 0,
        forall|i: int| 0 <= i < estimates.len() ==> is_failure(p, #[trigger] estimates[i]),
    ensures
        followed_all(ar, p, t, estimates).unreliable >= estimates.len() || followed_all(
            ar,
            p,
            t,
            estimates,
        ).unreliable >= usize::MAX,
    decreases estimates.len(),
{
    if estimates.len() > 0 {
        assert(is_failure(p, estimates.last()));
        lemma_failures_count(ar, p, t, estimates.drop_last());
    }
}

/// A pitch is not held for longer than `MAX_HOLD` detections: after one failure more in a row
/// there is no pitch, whatever came before.
pub proof fn stale_pitch_is_dropped(
    ar: Arith,
    p: TrackSetup,
    t: Track,
    estimates: Seq<Option<PitchEstimate>>,
)
    requires
        t.unreliable >= 0,
        estimates.len() > MAX_HOLD,
        forall|i: int| 0 <= i < estimates.len() ==> is_failure(p, #[trigger] estimates[i]),
    ensures
        followed_all(ar, p, t, estimates).smoothed_hz == num(ZERO),
        followed_all(ar, p, t, estimates).detected_hz == num(ZERO),
{
    broadcast use crate::scalar::group_scalar_order;

    lemma_failures_count(ar, p, t, estimates.drop_last());
    assert(is_failure(p, estimates.last()));
}

/// A pitch that comes after none is taken as it is.
pub proof fn first_reliable_pitch_is_taken(
    ar: Arith,
    p: TrackSetup,
    t: Track,
    e: PitchEstimate,
)
    requires
        t.smoothed_hz.at_most(num(ZERO)),
        is_reliable(p, e),
        num(ZERO).below(e.frequency_hz),
    ensures
        followed(ar, p, t, Some(e)).smoothed_hz == e.frequency_hz,
        followed(ar, p, t, Some(e)).last_reliable_hz == e.frequency_hz,
        followed(ar, p, t, Some(e)).unreliable == 0,
{
}

/// A pitch is moved to a note of the scale, the one that is nearest to it.
pub proof fn target_is_a_note_of_the_scale(ar: Arith, c: Correction, hz: Scalar)
    requires
        c.force_midi_note is None,
        hz.finite(),
        num(ZERO).below(hz),
    ensures
        ({
            let heard = ar(Op::Round(midi_of_hz(ar, hz))).integer() as int;
            let note = nearest_note(c.kind, c.root, heard);
            &&& in_scale(c.kind, c.root, note)
            &&& is_nearest(c.kind, c.root, heard, note)
            &&& target_of(ar, c, hz) == hz_of_midi(ar, ar(Op::FromInt(note as i128)))
        }),
{
    broadcast use crate::scalar::group_scalar_order;

    let heard = ar(Op::Round(midi_of_hz(ar, hz))).integer() as int;
    nearest_note_is_unique(c.kind, c.root, heard);
}

/// A note that is forced is what every pitch is moved to, whatever the scale.
pub proof fn forced_note_is_the_target(ar: Arith, c: Correction, note: u8, hz: Scalar)
    requires
        c.force_midi_note == Some(note),
    ensures
        target_of(ar, c, hz) == hz_of_midi(ar, ar(Op::FromInt(note as i128))),
{
}

/// A deviation that is smaller than the dead zone is not corrected.
pub proof fn dead_zone_is_left_alone(ar: Arith, c: Correction, hz: Scalar)
    requires
        cents_of(ar, octave_range(ar(Op::Div(target_of(ar, c, hz), hz)))).below(
            c.dead_zone_cents,
        ),
    ensures
        ratio_towards(ar, c, hz) == num(ONE),
{
}

/// Whatever a pitch is moved to, the ratio stays within an octave either way.
pub proof fn ratio_stays_within_an_octave(ar: Arith, c: Correction, hz: Scalar)
    ensures
        is_octave(ratio_towards(ar, c, hz)),
{
    broadcast use crate::scalar::group_scalar_order;

}

proof fn lemma_hearing(ar: Arith, s: ProcessorState, x: Scalar)
    requires
        s.wf(),
    ensures
        ({
            let t = after_hearing(ar, s, x);
            &&& t.wf()
            &&& t.recent == replaced(s.recent, x)
            &&& t.since_hop == if s.since_hop + 1 >= ANALYSIS_HOP {
                0
            } else {
                s.since_hop + 1
            }
            &&& t.heard == if s.heard < ANALYSIS_FRAME {
                s.heard + 1
            } else {
                s.heard
            }
            &&& t.dry_queue == s.dry_queue
            &&& t.dry_level == s.dry_level
            &&& t.wet_level == s.wet_level
            &&& t.shifter == s.shifter
        }),
{
    broadcast use crate::scalar::group_scalar_order;

    reveal(after_hearing);
}

/// The detector looks at the latest samples in their order, and is asked at every hop.
pub proof fn detector_hears_the_latest_samples(
    ar: Arith,
    s: ProcessorState,
    input: Seq<Scalar>,
)
    requires
        s.wf(),
    ensures
        ({
            let t = after_hearing_all(ar, s, input);
            &&& t.wf()
            &&& t.recent == latest(s.recent, input)
            &&& t.since_hop == (s.since_hop + input.len()) % (ANALYSIS_HOP as int)
            &&& t.heard == if s.heard + input.len() < ANALYSIS_FRAME {
                s.heard + input.len()
            } else {
                ANALYSIS_FRAME as int
            }
            &&& t.dry_queue == s.dry_queue
            &&& t.dry_level == s.dry_level
            &&& t.wet_level == s.wet_level
            &&& t.shifter == s.shifter
        }),
    decreases input.len(),
{
    if input.len() == 0 {
        assert(latest(s.recent, input) =~= s.recent);
    } else {
        let before = input.drop_last();
        detector_hears_the_latest_samples(ar, s, before);
        lemma_hearing(ar, after_hearing_all(ar, s, before), input.last());
        latest_of_one_more(s.recent, before, input.last());
        assert(before.push(input.last()) =~= input);
    }
}

/// No detection is made before a whole frame was heard: until then the ratio stays as it was.
pub proof fn ratio_waits_for_a_whole_frame(ar: Arith, s: ProcessorState, input: Seq<Scalar>)
    requires
        s.wf(),
        s.heard + input.len() < ANALYSIS_FRAME,
    ensures
        after_hearing_all(ar, s, input).current_ratio == s.current_ratio,
        after_hearing_all(ar, s, input).track == s.track,
        after_hearing_all(ar, s, input).target_hz == s.target_hz,
        after_hearing_all(ar, s, input).shown_ratio == s.shown_ratio,
    decreases input.len(),
{
    reveal(after_hearing);
    if input.len() > 0 {
        ratio_waits_for_a_whole_frame(ar, s, input.drop_last());
        detector_hears_the_latest_samples(ar, s, input.drop_last());
    }
}

/// What a chunk leaves as it was.
pub(crate) proof fn lemma_chunk(ar: Arith, s: ProcessorState, input: Seq<Scalar>)
    requires
        s.wf(),
    ensures
        after_chunk(ar, s, input).wf(),
        after_chunk(ar, s, input).dry_queue == latest(s.dry_queue, input),
        after_chunk(ar, s, input).dry_level == s.dry_level,
        after_chunk(ar, s, input).wet_level == s.wet_level,
        after_chunk(ar, s, input).shifter.frame_size() == s.shifter.frame_size(),
        chunk_out(ar, s, input).len() == input.len(),
{
    reveal(after_chunk);
    reveal(chunk_out);
    detector_hears_the_latest_samples(ar, s, input);
    let t = after_hearing_all(ar, s, input);
    block_keeps_sizes(
        ar,
        t.shifter,
        t.current_ratio,
        t.track.detected_hz,
        shifter_input(ar, t.formant, input),
    );
}

/// What a processor gives is as long as what it is given, and every sample of it that is a
/// number lies within -1..=1.
pub proof fn output_stays_in_range(ar: Arith, s: ProcessorState, input: Seq<Scalar>)
    requires
        s.wf(),
    ensures
        processed(ar, s, input).len() == input.len(),
        forall|i: int|
            0 <= i < input.len() ==> is_tame(#[trigger] processed(ar, s, input)[i]),
    decreases input.len(),
{
    broadcast use crate::scalar::group_scalar_order;

    if input.len() > 0 {
        let n = chunk_len(input.len());
        lemma_chunk(ar, s, input.take(n));
        output_stays_in_range(ar, after_chunk(ar, s, input.take(n)), input.skip(n));
        let first = chunk_out(ar, s, input.take(n));
        let rest = processed(ar, after_chunk(ar, s, input.take(n)), input.skip(n));
        assert forall|i: int| 0 <= i < input.len() implies is_tame(
            #[trigger] processed(ar, s, input)[i],
        ) by {
            if i < n {
                lemma_chunk_sample(ar, s, input.take(n), i);
                assert(processed(ar, s, input)[i] == first[i]);
            } else {
                assert(processed(ar, s, input)[i] == rest[i - n]);
            }
        }
    }
}

/// Processing leaves in the queue of unshifted samples the latest that were heard.
pub proof fn dry_queue_holds_the_latest_samples(
    ar: Arith,
    s: ProcessorState,
    input: Seq<Scalar>,
)
    requires
        s.wf(),
    ensures
        after_processing(ar, s, input).wf(),
        after_processing(ar, s, input).dry_queue == latest(s.dry_queue, input),
        after_processing(ar, s, input).dry_level == s.dry_level,
        after_processing(ar, s, input).wet_level == s.wet_level,
    decreases input.len(),
{
    if input.len() == 0 {
        assert(latest(s.dry_queue, input) =~= s.dry_queue);
    } else {
        let n = chunk_len(input.len());
        lemma_chunk(ar, s, input.take(n));
        dry_queue_holds_the_latest_samples(
            ar,
            after_chunk(ar, s, input.take(n)),
            input.skip(n),
        );
        assert(latest(latest(s.dry_queue, input.take(n)), input.skip(n)) =~= latest(
            s.dry_queue,
            input,
        ));
    }
}

proof fn lemma_chunk_sample(ar: Arith, s: ProcessorState, input: Seq<Scalar>, i: int)
    requires
        s.wf(),
        0 <= i < input.len(),
    ensures
        chunk_out(ar, s, input)[i] == mixed_sample(
            ar,
            s.dry_level,
            s.wet_level,
            (s.dry_queue + input)[i],
            shifted_signal(ar, after_hearing_all(ar, s, input), input)[i],
        ),
{
    reveal(chunk_out);
    detector_hears_the_latest_samples(ar, s, input);
}

/// The shifted signal of a block.
pub open spec fn wet_signal(ar: Arith, s: ProcessorState, input: Seq<Scalar>) -> Seq<Scalar>
    decreases input.len(),
{
    if input.len() == 0 {
        seq![]
    } else {
        let n = chunk_len(input.len());
        let chunk = input.take(n);
        shifted_signal(ar, after_hearing_all(ar, s, chunk), chunk) + wet_signal(
            ar,
            after_chunk(ar, s, chunk),
            input.skip(n),
        )
    }
}

/// The unshifted signal is mixed in a frame of the shifter late: each sample that is given
/// mixes the shifted one with the one that was heard that long before, at the levels that are
/// set.
pub proof fn dry_signal_is_delayed(ar: Arith, s: ProcessorState, input: Seq<Scalar>, i: int)
    requires
        s.wf(),
        0 <= i < input.len(),
    ensures
        s.dry_queue.len() == s.shifter.frame_size(),
        wet_signal(ar, s, input).len() == input.len(),
        processed(ar, s, input)[i] == mixed_sample(
            ar,
            s.dry_level,
            s.wet_level,
            (s.dry_queue + input)[i],
            wet_signal(ar, s, input)[i],
        ),
    decreases input.len(),
{
    let n = chunk_len(input.len());
    lemma_chunk(ar, s, input.take(n));
    let t = after_chunk(ar, s, input.take(n));
    lemma_wet_len(ar, s, input);
    lemma_wet_len(ar, t, input.skip(n));
    if i < n {
        lemma_chunk_sample(ar, s, input.take(n), i);
        assert(processed(ar, s, input)[i] == chunk_out(ar, s, input.take(n))[i]);
        assert((s.dry_queue + input.take(n))[i] == (s.dry_queue + input)[i]);
    } else {
        dry_signal_is_delayed(ar, t, input.skip(n), i - n);
        output_stays_in_range(ar, t, input.skip(n));
        assert(processed(ar, s, input)[i] == processed(ar, t, input.skip(n))[i - n]);
        assert((t.dry_queue + input.skip(n))[i - n] == (s.dry_queue + input)[i]);
    }
}

/// The shifted signal is as long as the block.
pub(crate) proof fn lemma_wet_len(ar: Arith, s: ProcessorState, input: Seq<Scalar>)
    ensures
        wet_signal(ar, s, input).len() == input.len(),
    decreases input.len(),
{
    if input.len() > 0 {
        let n = chunk_len(input.len());
        lemma_wet_len(ar, after_chunk(ar, s, input.take(n)), input.skip(n));
    }
}

/// `t` has the settings of `s`.
pub open spec fn same_settings(s: ProcessorState, t: ProcessorState) -> bool {
    &&& t.yin == s.yin
    &&& t.sample_rate == s.sample_rate
    &&& t.tracking == s.tracking
    &&& t.correction == s.correction
    &&& t.dry_level == s.dry_level
    &&& t.wet_level == s.wet_level
    &&& t.ratio_coeff == s.ratio_coeff
    &&& t.retune_time_ms == s.retune_time_ms
}

proof fn lemma_hearing_keeps_settings(ar: Arith, s: ProcessorState, input: Seq<Scalar>)
    ensures
        same_settings(s, after_hearing_all(ar, s, input)),
    decreases input.len(),
{
    if input.len() > 0 {
        lemma_hearing_keeps_settings(ar, s, input.drop_last());
        reveal(after_hearing);
    }
}

/// Processing a block leaves the settings as they were set.
pub proof fn processing_keeps_settings(ar: Arith, s: ProcessorState, input: Seq<Scalar>)
    ensures
        same_settings(s, after_processing(ar, s, input)),
    decreases input.len(),
{
    if input.len() > 0 {
        let n = chunk_len(input.len());
        lemma_hearing_keeps_settings(ar, s, input.take(n));
        reveal(after_chunk);
        processing_keeps_settings(ar, after_chunk(ar, s, input.take(n)), input.skip(n));
    }
}

proof fn lemma_can_hear_prefix(ar: Arith, s: ProcessorState, input: Seq<Scalar>, k: int)
    requires
        can_hear(ar, s, input),
        0 <= k <= input.len(),
    ensures
        can_hear(ar, s, input.take(k)),
    decreases input.len(),
{
    if k == input.len() {
        assert(input.take(k) =~= input);
    } else {
        lemma_can_hear_prefix(ar, s, input.drop_last(), k);
        assert(input.drop_last().take(k) =~= input.take(k));
    }
}

proof fn lemma_searchable_hears(ar: Arith, s: ProcessorState, input: Seq<Scalar>)
    requires
        s.yin.searchable(),
    ensures
        can_hear(ar, s, input),
    decreases input.len(),
{
    if input.len() > 0 {
        lemma_searchable_hears(ar, s, input.drop_last());
        lemma_hearing_keeps_settings(ar, s, input.drop_last());
    }
}

proof fn lemma_searchable(ar: Arith, s: ProcessorState, input: Seq<Scalar>)
    requires
        s.yin.searchable(),
    ensures
        can_process(ar, s, input),
    decreases input.len(),
{
    if input.len() > 0 {
        let n = chunk_len(input.len());
        lemma_searchable_hears(ar, s, input.take(n));
        lemma_hearing_keeps_settings(ar, s, input.take(n));
        reveal(after_chunk);
        lemma_searchable(ar, after_chunk(ar, s, input.take(n)), input.skip(n));
    }
}

/// A block that is cut where `MAX_BLOCK` samples are full gives the same samples, and leaves
/// the same processor behind, as the block at once.
pub proof fn full_chunks_compose(
    ar: Arith,
    s: ProcessorState,
    first: Seq<Scalar>,
    second: Seq<Scalar>,
)
    requires
        first.len() % MAX_BLOCK as nat == 0,
    ensures
        after_processing(ar, s, first + second) == after_processing(
            ar,
            after_processing(ar, s, first),
            second,
        ),
        processed(ar, s, first + second) == processed(ar, s, first) + processed(
            ar,
            after_processing(ar, s, first),
            second,
        ),
    decreases first.len(),
{
    if first.len() == 0 {
        assert(first + second =~= second);
        assert(processed(ar, s, first) + processed(ar, s, second) =~= processed(ar, s, second));
    } else {
        let n = MAX_BLOCK as int;
        let t = after_chunk(ar, s, first.take(n));
        full_chunks_compose(ar, t, first.skip(n), second);
        assert((first + second).take(n) =~= first.take(n));
        assert((first + second).skip(n) =~= first.skip(n) + second);
        let u = after_processing(ar, s, first);
        let start = chunk_out(ar, s, first.take(n));
        assert(start + (processed(ar, t, first.skip(n)) + processed(ar, u, second)) =~= (start
            + processed(ar, t, first.skip(n))) + processed(ar, u, second));
    }
}

} // verus!
