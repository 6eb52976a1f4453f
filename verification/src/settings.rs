//! That what is set is what acts: the settings of a processor, of the effect around it and of a
//! session, from where they are given to where they count.
use vstd::arithmetic::div_mod::{
    lemma_fundamental_div_mod, lemma_fundamental_div_mod_converse, lemma_mod_bound,
};
use vstd::prelude::*;

use crate::arith::{Arith, Op};
use crate::audio::{processor_config_of, session_rate};
use crate::buffer::{lemma_pieces, pieces, total};
use crate::config::{
    kind_of_arg, level_of_percent, unit_range, unit_range_is_kept, RuntimeConfig, ScaleArg,
};
use crate::exact::{
    is_product, is_quotient, is_sum, is_whole, signs_are_taken_off_and_turned,
    small_numbers_are_what_they_are_called, unit, whole_patterns_are_whole,
};
use crate::following::cut;
use crate::frames::{frame_at, mono_of, mono_signal, spread};
use crate::plugin::{
    after_buffer, buffer_out, host_config, kind_of_param, levels_of, mono_block,
    smoothed_buffer_out, with_params, KeyParam, PluginState, RustAutotuneParams, ScaleParam,
};
use crate::processor::{
    after_chunk, after_hearing, after_hearing_all, after_processing, at_rest, chunk_len,
    dry_signal_is_delayed, mixed_sample, output_stays_in_range, processed, processed_at,
    shifted_signal, target_of, wet_signal, with_aggressiveness, with_dead_zone, with_levels,
    with_retune_time, with_scale, with_strength, Correction, ProcessorConfig, ProcessorState,
};
use crate::psola::{fresh, PsolaConfig};
use crate::scalar::{num, Scalar, MINUS_ONE, ONE, ZERO};
use crate::scale::{
    distance, hz_of_midi, in_scale, is_nearest, midi_of_hz, nearest_note, nearest_note_is_unique,
    notes_of_the_scale_stay, ScaleKind,
};
use crate::smoothing::decay;
use crate::yin::setup;

verus! {

/// `r` is `x` brought into a range: `x` itself where it lies in it, and the end that it falls
/// short of or exceeds where not. What is not a number stays.
pub open spec fn is_brought_into(x: Scalar, low: Scalar, high: Scalar, r: Scalar) -> bool {
    &&& x.nan() ==> r == x
    &&& !x.nan() && low.units() <= x.units() <= high.units() ==> r == x
    &&& !x.nan() && x.units() < low.units() ==> r == low
    &&& !x.nan() && x.units() > high.units() ==> r == high
}

proof fn lemma_clamped_is_brought_into(x: Scalar, low: Scalar, high: Scalar)
    requires
        !low.nan(),
        !high.nan(),
        low.units() <= high.units(),
    ensures
        is_brought_into(x, low, high, x.clamped(low, high)),
{
}

proof fn lemma_ranges()
    ensures
        num(ZERO).units() <= num(ONE).units(),
        num(ZERO).units() <= num(0x4248_0000).units(),
        num(ZERO).units() == 0,
        num(ONE).units() == unit(),
        num(0x4248_0000).units() == 50 * unit(),
        unit() > 0,
{
    small_numbers_are_what_they_are_called();
    whole_patterns_are_whole();
}

/// A processor starts with the settings that it is given: its detector, its shifter and its
/// times at the sample rate that it is given, its frequencies and thresholds as they are given,
/// its strengths and levels brought into 0 to 1, its dead zone into 0 to 50 cents, and a time of
/// at least a millisecond.
pub proof fn processor_starts_with_its_settings(
    ar: Arith,
    config: ProcessorConfig,
    kind: ScaleKind,
    root: int,
)
    ensures
        ({
            let s = at_rest(ar, config, kind, root);
            let (zero, one, fifty) = (num(ZERO), num(ONE), num(0x4248_0000));
            &&& s.sample_rate == config.sample_rate
            &&& s.yin == setup(
                ar,
                config.sample_rate,
                2048,
                config.min_freq_hz,
                config.max_freq_hz,
                config.yin_threshold,
            )
            &&& s.shifter == fresh(
                ar,
                config.sample_rate,
                PsolaConfig { frame_size: 2048, overlap: 8 },
            )
            &&& s.tracking.min_freq_hz == config.min_freq_hz
            &&& s.tracking.max_freq_hz == config.max_freq_hz
            &&& is_brought_into(
                config.confidence_threshold,
                zero,
                one,
                s.tracking.confidence_threshold,
            )
            &&& s.tracking.pitch_coeff == decay(ar, num(0x4100_0000), config.sample_rate, 256)
            &&& is_brought_into(config.correction_strength, zero, one, s.correction.strength)
            &&& is_brought_into(config.aggressiveness, zero, one, s.correction.aggressiveness)
            &&& is_brought_into(config.dead_zone_cents, zero, fifty, s.correction.dead_zone_cents)
            &&& s.correction.force_midi_note == config.force_midi_note
            &&& s.correction.kind == kind
            &&& s.correction.root == root
            &&& is_brought_into(config.dry_level, zero, one, s.dry_level)
            &&& is_brought_into(config.wet_level, zero, one, s.wet_level)
            &&& s.formant.enabled == config.formant_enabled
            &&& is_brought_into(config.formant_amount, zero, one, s.formant.amount)
            &&& s.formant.pre_state == zero
            &&& s.formant.de_state == zero
            &&& s.current_ratio == one
            &&& s.track.smoothed_hz == zero
            &&& s.track.last_reliable_hz == zero
            &&& s.track.unreliable == 0
            &&& s.track.detected_hz == zero
            &&& s.track.confidence == zero
            &&& s.target_hz == zero
            &&& s.shown_ratio == one
            &&& s.heard == 0
            &&& s.since_hop == 0
            &&& s.recent == Seq::new(2048, |i: int| zero)
            &&& !config.retune_time_ms.nan() && one.units() <= config.retune_time_ms.units()
                ==> s.retune_time_ms == config.retune_time_ms && s.ratio_coeff == decay(
                ar,
                config.retune_time_ms,
                config.sample_rate,
                256,
            )
            &&& config.retune_time_ms.nan() || config.retune_time_ms.units() < one.units()
                ==> s.retune_time_ms == one && s.ratio_coeff == decay(
                ar,
                one,
                config.sample_rate,
                256,
            )
        }),
{
    lemma_ranges();
    let (zero, one, fifty) = (num(ZERO), num(ONE), num(0x4248_0000));
    lemma_clamped_is_brought_into(config.confidence_threshold, zero, one);
    lemma_clamped_is_brought_into(config.correction_strength, zero, one);
    lemma_clamped_is_brought_into(config.aggressiveness, zero, one);
    lemma_clamped_is_brought_into(config.dead_zone_cents, zero, fifty);
    lemma_clamped_is_brought_into(config.dry_level, zero, one);
    lemma_clamped_is_brought_into(config.wet_level, zero, one);
    lemma_clamped_is_brought_into(config.formant_amount, zero, one);
    assert(at_rest(ar, config, kind, root).recent =~= Seq::new(2048, |i: int| zero));
}

/// Each setting that is changed is what it is changed to, brought into its range, and nothing
/// else is changed with it.
pub proof fn settings_change_alone(
    ar: Arith,
    s: ProcessorState,
    x: Scalar,
    y: Scalar,
)
    ensures
        ({
            let t = with_strength(s, x);
            &&& is_brought_into(x, num(ZERO), num(ONE), t.correction.strength)
            &&& t == ProcessorState {
                correction: Correction { strength: t.correction.strength, ..s.correction },
                ..s
            }
        }),
        ({
            let t = with_aggressiveness(s, x);
            &&& is_brought_into(x, num(ZERO), num(ONE), t.correction.aggressiveness)
            &&& t == ProcessorState {
                correction: Correction {
                    aggressiveness: t.correction.aggressiveness,
                    ..s.correction
                },
                ..s
            }
        }),
        ({
            let t = with_dead_zone(s, x);
            &&& is_brought_into(x, num(ZERO), num(0x4248_0000), t.correction.dead_zone_cents)
            &&& t == ProcessorState {
                correction: Correction {
                    dead_zone_cents: t.correction.dead_zone_cents,
                    ..s.correction
                },
                ..s
            }
        }),
        ({
            let t = with_levels(s, x, y);
            &&& is_brought_into(x, num(ZERO), num(ONE), t.dry_level)
            &&& is_brought_into(y, num(ZERO), num(ONE), t.wet_level)
            &&& t == ProcessorState { dry_level: t.dry_level, wet_level: t.wet_level, ..s }
        }),
        ({
            let t = with_retune_time(ar, s, x);
            let ms = if x.nan() || x.units() < unit() {
                num(ONE)
            } else {
                x
            };
            t == ProcessorState {
                retune_time_ms: ms,
                ratio_coeff: decay(ar, ms, s.sample_rate, 256),
                ..s
            }
        }),
{
    lemma_ranges();
    lemma_clamped_is_brought_into(x, num(ZERO), num(ONE));
    lemma_clamped_is_brought_into(y, num(ZERO), num(ONE));
    lemma_clamped_is_brought_into(x, num(ZERO), num(0x4248_0000));
}

/// Setting the strength before a sample was heard is starting with it.
pub proof fn strength_can_be_given_later(
    ar: Arith,
    config: ProcessorConfig,
    kind: ScaleKind,
    root: int,
    x: Scalar,
)
    ensures
        with_strength(at_rest(ar, config, kind, root), x) == at_rest(
            ar,
            ProcessorConfig { correction_strength: x, ..config },
            kind,
            root,
        ),
{
    let s = at_rest(ar, config, kind, root);
    let t = at_rest(ar, ProcessorConfig { correction_strength: x, ..config }, kind, root);
    assert(t.yin == s.yin && t.shifter == s.shifter && t.tracking == s.tracking);
    assert(t.recent == s.recent && t.dry_queue == s.dry_queue);
}

/// Setting the aggressiveness before a sample was heard is starting with it.
pub proof fn aggressiveness_can_be_given_later(
    ar: Arith,
    config: ProcessorConfig,
    kind: ScaleKind,
    root: int,
    x: Scalar,
)
    ensures
        with_aggressiveness(at_rest(ar, config, kind, root), x) == at_rest(
            ar,
            ProcessorConfig { aggressiveness: x, ..config },
            kind,
            root,
        ),
{
    let s = at_rest(ar, config, kind, root);
    let t = at_rest(ar, ProcessorConfig { aggressiveness: x, ..config }, kind, root);
    assert(t.yin == s.yin && t.shifter == s.shifter && t.tracking == s.tracking);
    assert(t.recent == s.recent && t.dry_queue == s.dry_queue);
}

/// Setting the dead zone before a sample was heard is starting with it.
pub proof fn dead_zone_can_be_given_later(
    ar: Arith,
    config: ProcessorConfig,
    kind: ScaleKind,
    root: int,
    x: Scalar,
)
    ensures
        with_dead_zone(at_rest(ar, config, kind, root), x) == at_rest(
            ar,
            ProcessorConfig { dead_zone_cents: x, ..config },
            kind,
            root,
        ),
{
    let s = at_rest(ar, config, kind, root);
    let t = at_rest(ar, ProcessorConfig { dead_zone_cents: x, ..config }, kind, root);
    assert(t.yin == s.yin && t.shifter == s.shifter && t.tracking == s.tracking);
    assert(t.recent == s.recent && t.dry_queue == s.dry_queue);
}

/// Setting the levels before a sample was heard is starting with them.
pub proof fn levels_can_be_given_later(
    ar: Arith,
    config: ProcessorConfig,
    kind: ScaleKind,
    root: int,
    x: Scalar,
    y: Scalar,
)
    ensures
        with_levels(at_rest(ar, config, kind, root), x, y) == at_rest(
            ar,
            ProcessorConfig { dry_level: x, wet_level: y, ..config },
            kind,
            root,
        ),
{
    let s = at_rest(ar, config, kind, root);
    let t = at_rest(ar, ProcessorConfig { dry_level: x, wet_level: y, ..config }, kind, root);
    assert(t.yin == s.yin && t.shifter == s.shifter && t.tracking == s.tracking);
    assert(t.recent == s.recent && t.dry_queue == s.dry_queue);
}

/// Setting the time before a sample was heard is starting with it.
pub proof fn retune_time_can_be_given_later(
    ar: Arith,
    config: ProcessorConfig,
    kind: ScaleKind,
    root: int,
    x: Scalar,
)
    ensures
        with_retune_time(ar, at_rest(ar, config, kind, root), x) == at_rest(
            ar,
            ProcessorConfig { retune_time_ms: x, ..config },
            kind,
            root,
        ),
{
    let s = at_rest(ar, config, kind, root);
    let t = at_rest(ar, ProcessorConfig { retune_time_ms: x, ..config }, kind, root);
    assert(t.yin == s.yin && t.shifter == s.shifter && t.tracking == s.tracking);
    assert(t.recent == s.recent && t.dry_queue == s.dry_queue);
}

/// Setting the scale before a sample was heard is starting on it.
pub proof fn scale_can_be_given_later(
    ar: Arith,
    config: ProcessorConfig,
    kind: ScaleKind,
    root: int,
    other: ScaleKind,
    key: int,
)
    requires
        0 <= key < 12,
    ensures
        with_scale(at_rest(ar, config, kind, root), other, key) == at_rest(
            ar,
            config,
            other,
            key,
        ),
{
    let s = at_rest(ar, config, kind, root);
    let t = at_rest(ar, config, other, key);
    assert(t.yin == s.yin && t.shifter == s.shifter && t.tracking == s.tracking);
    assert(t.recent == s.recent && t.dry_queue == s.dry_queue);
}

/// Roots that are octaves apart hold the same notes.
proof fn lemma_same_root(kind: ScaleKind, root: int, other: int, note: int)
    requires
        root % 12 == other % 12,
    ensures
        in_scale(kind, root, note) == in_scale(kind, other, note),
{
    assert((note - root) % 12 == (note - other) % 12);
}

/// Once a scale and its root are set, pitches are moved to the notes of that scale on that root,
/// whatever octave the root is given in: to the nearest of them, and a pitch on one of them to
/// that one, its own. Nothing else is changed.
pub proof fn pitches_move_to_the_scale_that_is_set(
    ar: Arith,
    s: ProcessorState,
    kind: ScaleKind,
    root: int,
    hz: Scalar,
)
    requires
        s.correction.force_midi_note is None,
        hz.finite(),
        hz.units() > 0,
    ensures
        ({
            let t = with_scale(s, kind, root);
            let heard = ar(Op::Round(midi_of_hz(ar, hz))).integer() as int;
            &&& exists|note: int|
                {
                    &&& #[trigger] in_scale(kind, root, note)
                    &&& is_nearest(kind, root, heard, note)
                    &&& target_of(ar, t.correction, hz) == hz_of_midi(
                        ar,
                        ar(Op::FromInt(note as i128)),
                    )
                }
            &&& in_scale(kind, root, heard) ==> target_of(ar, t.correction, hz) == hz_of_midi(
                ar,
                ar(Op::FromInt(heard as i128)),
            )
            &&& t.correction.kind == kind
            &&& t.correction.root % 12 == root % 12
            &&& t == ProcessorState {
                correction: Correction { kind, root: t.correction.root, ..s.correction },
                ..s
            }
        }),
{
    let t = with_scale(s, kind, root);
    lemma_target_on_scale(ar, t.correction, root, hz);
}

/// A correction on a scale moves pitches to the notes of that scale on its root.
proof fn lemma_target_on_scale(ar: Arith, c: Correction, root: int, hz: Scalar)
    requires
        c.force_midi_note is None,
        c.root % 12 == root % 12,
        hz.finite(),
        hz.units() > 0,
    ensures
        ({
            let heard = ar(Op::Round(midi_of_hz(ar, hz))).integer() as int;
            &&& exists|note: int|
                {
                    &&& #[trigger] in_scale(c.kind, root, note)
                    &&& is_nearest(c.kind, root, heard, note)
                    &&& target_of(ar, c, hz) == hz_of_midi(ar, ar(Op::FromInt(note as i128)))
                }
            &&& in_scale(c.kind, root, heard) ==> target_of(ar, c, hz) == hz_of_midi(
                ar,
                ar(Op::FromInt(heard as i128)),
            )
        }),
{
    lemma_ranges();
    let heard = ar(Op::Round(midi_of_hz(ar, hz))).integer() as int;
    nearest_note_is_unique(c.kind, c.root, heard);
    let note = nearest_note(c.kind, c.root, heard);
    lemma_same_root(c.kind, c.root, root, note);
    assert forall|other: int| #[trigger]
        in_scale(c.kind, root, other) implies distance(note, heard)
        < distance(other, heard) || (distance(note, heard)
        == distance(other, heard) && other <= note) by {
        lemma_same_root(c.kind, c.root, root, other);
    }
    assert(is_nearest(c.kind, root, heard, note));
    assert(in_scale(c.kind, root, note));
    if in_scale(c.kind, root, heard) {
        lemma_same_root(c.kind, c.root, root, heard);
        notes_of_the_scale_stay(c.kind, c.root, heard);
    }
}

/// A processor that starts on a scale moves pitches to the notes of that scale on its root.
pub proof fn pitches_move_to_the_scale_of_the_start(
    ar: Arith,
    config: ProcessorConfig,
    kind: ScaleKind,
    root: int,
    hz: Scalar,
)
    requires
        config.force_midi_note is None,
        hz.finite(),
        hz.units() > 0,
    ensures
        ({
            let c = at_rest(ar, config, kind, root).correction;
            let heard = ar(Op::Round(midi_of_hz(ar, hz))).integer() as int;
            &&& exists|note: int|
                {
                    &&& #[trigger] in_scale(kind, root, note)
                    &&& is_nearest(kind, root, heard, note)
                    &&& target_of(ar, c, hz) == hz_of_midi(ar, ar(Op::FromInt(note as i128)))
                }
            &&& in_scale(kind, root, heard) ==> target_of(ar, c, hz) == hz_of_midi(
                ar,
                ar(Op::FromInt(heard as i128)),
            )
        }),
{
    lemma_target_on_scale(ar, at_rest(ar, config, kind, root).correction, root, hz);
}

/// The key parameters are the twelve pitch classes from C on, a semitone apart, and the scale
/// parameters the scales that they are named after; so are the scales that a user names.
pub proof fn keys_and_scales_are_what_they_are_named()
    ensures
        KeyParam::C.semitones() == 0,
        KeyParam::Cs.semitones() == 1,
        KeyParam::D.semitones() == 2,
        KeyParam::Ds.semitones() == 3,
        KeyParam::E.semitones() == 4,
        KeyParam::F.semitones() == 5,
        KeyParam::Fs.semitones() == 6,
        KeyParam::G.semitones() == 7,
        KeyParam::Gs.semitones() == 8,
        KeyParam::A.semitones() == 9,
        KeyParam::As.semitones() == 10,
        KeyParam::B.semitones() == 11,
        kind_of_param(ScaleParam::Chromatic) == ScaleKind::Chromatic,
        kind_of_param(ScaleParam::Major) == ScaleKind::Major,
        kind_of_param(ScaleParam::Minor) == ScaleKind::Minor,
        kind_of_arg(ScaleArg::Chromatic) == ScaleKind::Chromatic,
        kind_of_arg(ScaleArg::Major) == ScaleKind::Major,
        kind_of_arg(ScaleArg::Minor) == ScaleKind::Minor,
{
}

/// The parameters of a host act as the settings of a processor do, set one after the other; the
/// root is the pitch class of the key, whatever the scale is.
pub proof fn parameters_act_as_settings(
    ar: Arith,
    s: ProcessorState,
    params: RustAutotuneParams,
    hz: Scalar,
)
    ensures
        ({
            let t = with_params(ar, s, params);
            let a = with_retune_time(ar, s, params.retune_ms);
            let b = with_dead_zone(
                with_aggressiveness(with_strength(a, params.strength), params.aggressiveness),
                params.dead_zone,
            );
            let c = with_scale(b, kind_of_param(params.scale), params.key.semitones());
            &&& t == ProcessorState { dry_level: t.dry_level, wet_level: t.wet_level, ..c }
            &&& t.dry_level == level_of_percent(ar, params.dry)
            &&& t.wet_level == level_of_percent(ar, params.wet)
            &&& t.correction.root == params.key.semitones()
            &&& t.correction.kind == kind_of_param(params.scale)
            &&& s.correction.force_midi_note is None && hz.finite() && hz.units() > 0
                ==> exists|note: int|
                {
                    &&& #[trigger] in_scale(
                        kind_of_param(params.scale),
                        params.key.semitones(),
                        note,
                    )
                    &&& target_of(ar, t.correction, hz) == hz_of_midi(
                        ar,
                        ar(Op::FromInt(note as i128)),
                    )
                }
        }),
{
    let t = with_params(ar, s, params);
    if s.correction.force_midi_note is None && hz.finite() && hz.units() > 0 {
        lemma_target_on_scale(ar, t.correction, params.key.semitones(), hz);
    }
}

/// A percentage, within 0 to 100, is a hundred times the level that it stands for; beyond that it
/// counts as the nearer end.
pub proof fn percentages_are_a_hundred_times_levels(ar: Arith, percent: Scalar)
    requires
        is_quotient(percent, num(0x42c8_0000), ar(Op::Div(percent, num(0x42c8_0000)))),
    ensures
        100 * level_of_percent(ar, percent).units() == cut(percent.units(), 100 * unit()),
{
    lemma_ranges();
    whole_patterns_are_whole();
    let q = ar(Op::Div(percent, num(0x42c8_0000)));
    let (u, x, p) = (unit(), q.units(), percent.units());
    assert(100 * x == p) by (nonlinear_arith)
        requires
            x * (100 * u) == p * u,
            u > 0,
    ;
    lemma_clamped_is_brought_into(q, num(ZERO), num(ONE));
}

/// The effect is set up for voices of 80 to 1000 hertz at the sample rate of its host, at full
/// strength, all of the shifted signal and none of the unshifted one.
pub proof fn effect_runs_at_the_rate_of_its_host(rate: Scalar)
    ensures
        ({
            let c = host_config(rate);
            &&& c.sample_rate == rate
            &&& c.min_freq_hz == num(0x42a0_0000)
            &&& c.max_freq_hz == num(0x447a_0000)
            &&& c.yin_threshold == num(0x3df5_c28f)
            &&& c.confidence_threshold == num(0x3f40_0000)
            &&& c.retune_time_ms == num(0x420c_0000)
            &&& c.correction_strength == num(ONE)
            &&& c.aggressiveness == num(0x3f4c_cccd)
            &&& c.dead_zone_cents == num(ZERO)
            &&& c.dry_level == num(ZERO)
            &&& c.wet_level == num(ONE)
            &&& c.force_midi_note is None
            &&& c.formant_enabled
            &&& c.formant_amount == num(0x3f0c_cccd)
        }),
{
}

/// The processor of a session is set up with the settings of the run and the rate of the session.
pub proof fn session_runs_with_its_settings(ar: Arith, config: RuntimeConfig, rate: u32)
    ensures
        ({
            let c = processor_config_of(ar, config, rate);
            &&& c.sample_rate == ar(Op::FromInt(rate as i128))
            &&& c.min_freq_hz == config.min_freq_hz
            &&& c.max_freq_hz == config.max_freq_hz
            &&& c.yin_threshold == config.yin_threshold
            &&& c.confidence_threshold == config.confidence_threshold
            &&& c.retune_time_ms == config.retune_time_ms
            &&& c.correction_strength == config.correction_strength
            &&& c.aggressiveness == config.aggressiveness
            &&& c.dead_zone_cents == config.dead_zone_cents
            &&& c.dry_level == config.dry_level
            &&& c.wet_level == config.wet_level
            &&& c.force_midi_note == config.force_midi_note
            &&& c.formant_enabled == config.formant_enabled
            &&& c.formant_amount == config.formant_amount
        }),
{
}

/// The rate of a session is the one asked for, or the one of the device where none is, brought
/// into 32000 to 96000.
pub proof fn session_takes_the_rate_asked_for(asked: Option<u32>, device: u32)
    ensures
        ({
            let wanted = if asked is Some {
                asked->0
            } else {
                device
            };
            let rate = session_rate(asked, device);
            &&& 32000 <= wanted <= 96000 ==> rate == wanted
            &&& wanted < 32000 ==> rate == 32000
            &&& wanted > 96000 ==> rate == 96000
        }),
{
}

/// The samples of a frame added up as numbers.
pub open spec fn sum_of_units(frame: Seq<Scalar>) -> int
    decreases frame.len(),
{
    if frame.len() == 0 {
        0
    } else {
        sum_of_units(frame.drop_last()) + frame.last().units()
    }
}

/// The arithmetic adds up the samples of a frame exactly.
pub open spec fn adds_exactly(ar: Arith, frame: Seq<Scalar>) -> bool
    decreases frame.len(),
{
    frame.len() == 0 || {
        let before = total(ar, frame.drop_last());
        &&& adds_exactly(ar, frame.drop_last())
        &&& is_sum(before, frame.last(), ar(Op::Add(before, frame.last())))
    }
}

proof fn lemma_total(ar: Arith, frame: Seq<Scalar>)
    requires
        adds_exactly(ar, frame),
    ensures
        total(ar, frame).units() == sum_of_units(frame),
    decreases frame.len(),
{
    lemma_ranges();
    if frame.len() > 0 {
        lemma_total(ar, frame.drop_last());
    }
}

/// What stands for a frame, times the number of channels, is the sum of the samples of the
/// frame, where adding and dividing are exact: it is their mean.
pub proof fn frames_stand_for_their_mean(ar: Arith, frame: Seq<Scalar>, channels: int)
    requires
        channels > 0,
        adds_exactly(ar, frame),
        is_whole(channels, ar(Op::FromInt(channels as i128))),
        ({
            let n = ar(Op::FromInt(channels as i128));
            is_quotient(total(ar, frame), n, ar(Op::Div(total(ar, frame), n)))
        }),
    ensures
        mono_of(ar, frame, channels).units() * channels == sum_of_units(frame),
{
    lemma_ranges();
    lemma_total(ar, frame);
    let (m, u, t) = (mono_of(ar, frame, channels).units(), unit(), sum_of_units(frame));
    assert(m * channels == t) by (nonlinear_arith)
        requires
            m * (channels * u) == t * u,
            u > 0,
    ;
}

/// What the processor is fed for a buffer: for each of its frames, with at least one channel, the
/// mean of the samples at that frame, where adding and dividing are exact; with no channel,
/// silence.
pub proof fn buffers_are_fed_as_means(
    ar: Arith,
    data: Seq<Scalar>,
    channels: int,
    samples: nat,
    i: int,
)
    requires
        0 <= i < samples,
        data.len() == samples * channels,
        0 <= channels,
    ensures
        ({
            let block = mono_block(ar, data, channels, samples);
            let n = ar(Op::FromInt(channels as i128));
            let frame = Seq::new(channels as nat, |c: int| data[i * channels + c]);
            &&& block.len() == samples
            &&& channels == 0 ==> block[i] == num(ZERO)
            &&& channels > 0 ==> block[i] == ar(Op::Div(total(ar, frame), n))
            &&& channels > 0 && adds_exactly(ar, frame) && is_whole(channels, n) && is_quotient(
                total(ar, frame),
                n,
                ar(Op::Div(total(ar, frame), n)),
            ) ==> block[i].units() * channels == sum_of_units(frame)
        }),
{
    let frame = Seq::new(channels as nat, |c: int| data[i * channels + c]);
    assert(i * channels + channels <= samples * channels && 0 <= i * channels) by (nonlinear_arith)
        requires
            0 <= i,
            i + 1 <= samples,
            0 <= channels,
    ;
    assert(frame_at(data, channels, i * channels) =~= frame);
    let n = ar(Op::FromInt(channels as i128));
    if channels > 0 && adds_exactly(ar, frame) && is_whole(channels, n) && is_quotient(
        total(ar, frame),
        n,
        ar(Op::Div(total(ar, frame), n)),
    ) {
        frames_stand_for_their_mean(ar, frame, channels);
    }
}

/// A buffer of one channel is fed as it is, by an arithmetic in which nothing added and a
/// division by one change nothing.
pub proof fn one_channel_is_fed_as_it_is(ar: Arith, data: Seq<Scalar>)
    requires
        forall|i: int|
            0 <= i < data.len() ==> {
                let x = #[trigger] data[i];
                let one = ar(Op::FromInt(1));
                ar(Op::Add(num(ZERO), x)) == x && ar(Op::Div(x, one)) == x
            },
    ensures
        mono_block(ar, data, 1, data.len()) == data,
        mono_signal(ar, data, 1) == data,
{
    let one = ar(Op::FromInt(1));
    assert forall|i: int| 0 <= i < data.len() implies mono_of(
        ar,
        frame_at(data, 1, i * 1),
        1,
    ) == #[trigger] data[i] by {
        let frame = frame_at(data, 1, i * 1);
        assert(frame =~= seq![data[i]]);
        assert(frame.drop_last() =~= Seq::<Scalar>::empty());
        assert(total(ar, frame.drop_last()) == num(ZERO));
        assert(total(ar, frame) == ar(Op::Add(num(ZERO), data[i])));
    }
    assert(mono_block(ar, data, 1, data.len()) =~= data);
    assert(mono_signal(ar, data, 1) =~= data);
}

/// A buffer is processed if the effect is not bypassed, has a processor and is prepared for as
/// many frames, of which there is one: each channel of a frame then holds the sample that the
/// processor gives for that frame, with the parameters applied.
pub proof fn buffers_hold_what_the_processor_gives(
    ar: Arith,
    s: PluginState,
    data: Seq<Scalar>,
    channels: int,
    samples: nat,
    i: int,
    c: int,
)
    requires
        !s.params.bypass,
        s.processor is Some,
        s.processor->0.wf(),
        1 <= samples <= s.capacity,
        data.len() == samples * channels,
        0 <= i < samples,
        0 <= c < channels,
    ensures
        ({
            let p = with_params(ar, s.processor->0, s.params);
            let block = mono_block(ar, data, channels, samples);
            let after = after_buffer(ar, s, data, channels, samples);
            &&& buffer_out(ar, s, data, channels, samples)[i * channels + c] == processed(
                ar,
                p,
                block,
            )[i]
            &&& after.processor == Some(after_processing(ar, p, block))
            &&& after.params == s.params
            &&& after.capacity == s.capacity
        }),
{
    let p = with_params(ar, s.processor->0, s.params);
    let block = mono_block(ar, data, channels, samples);
    output_stays_in_range(ar, p, block);
    lemma_fundamental_div_mod_converse(i * channels + c, channels, i, c);
    assert(0 <= i * channels && i * channels + channels <= samples * channels) by (nonlinear_arith)
        requires
            0 <= i,
            i + 1 <= samples,
            0 < channels,
    ;
    assert(s.takes(samples));
    let out = buffer_out(ar, s, data, channels, samples);
    assert(out == spread(data, channels, processed(ar, p, block)));
}

/// In all other cases the buffer stays as it is.
pub proof fn other_buffers_stay_as_they_are(
    ar: Arith,
    s: PluginState,
    data: Seq<Scalar>,
    channels: int,
    samples: nat,
)
    requires
        s.params.bypass || s.processor is None || samples == 0 || samples > s.capacity || channels
            == 0,
    ensures
        buffer_out(ar, s, data, channels, samples) == data,
{
}

/// `r` is the root of `x`.
pub open spec fn is_root(x: Scalar, r: Scalar) -> bool {
    r.finite() && r.units() >= 0 && r.units() * r.units() == x.units() * unit()
}

/// A mix gives each of its samples the power of its level. What is given, times the norm of the
/// mix, is the sum of the samples, each times the root of its level; the norm is the root of what
/// the levels add up to, or 1 where that is less, so that the powers of the weights add up to no
/// more than 1. It stays within -1 to 1.
pub proof fn mixes_weigh_by_the_roots_of_the_levels(
    ar: Arith,
    dry_level: Scalar,
    wet_level: Scalar,
    dry: Scalar,
    wet: Scalar,
    d: int,
    w: int,
    norm: int,
)
    requires
        ({
            let (dw, ww) = (ar(Op::Sqrt(dry_level)), ar(Op::Sqrt(wet_level)));
            let power = ar(Op::Add(dry_level, wet_level));
            let root = ar(Op::Sqrt(power));
            let (a, b) = (ar(Op::Mul(dw, dry)), ar(Op::Mul(ww, wet)));
            let sum = ar(Op::Add(a, b));
            let n = root.larger(num(ONE));
            &&& is_root(dry_level, dw)
            &&& is_root(wet_level, ww)
            &&& is_sum(dry_level, wet_level, power)
            &&& is_root(power, root)
            &&& is_product(dw, dry, a)
            &&& is_product(ww, wet, b)
            &&& is_sum(a, b, sum)
            &&& is_quotient(sum, n, ar(Op::Div(sum, n)))
        }),
        0 <= d && d * d == dry_level.units() * unit(),
        0 <= w && w * w == wet_level.units() * unit(),
        norm > 0,
        dry_level.units() + wet_level.units() >= unit() ==> norm * norm == (dry_level.units()
            + wet_level.units()) * unit(),
        dry_level.units() + wet_level.units() < unit() ==> norm == unit(),
    ensures
        ({
            let y = mixed_sample(ar, dry_level, wet_level, dry, wet).units();
            let m = d * dry.units() + w * wet.units();
            &&& -unit() * norm <= m <= unit() * norm ==> y * norm == m
            &&& m > unit() * norm ==> y == unit()
            &&& m < -unit() * norm ==> y == -unit()
        }),
{
    lemma_ranges();
    let (dw, ww) = (ar(Op::Sqrt(dry_level)), ar(Op::Sqrt(wet_level)));
    let power = ar(Op::Add(dry_level, wet_level));
    let root = ar(Op::Sqrt(power));
    let (a, b) = (ar(Op::Mul(dw, dry)), ar(Op::Mul(ww, wet)));
    let sum = ar(Op::Add(a, b));
    let n = root.larger(num(ONE));
    let q = ar(Op::Div(sum, n));
    lemma_one_root(dw.units(), d);
    lemma_one_root(ww.units(), w);
    lemma_norm(root.units(), power.units(), norm);
    assert(n.units() == norm);
    let (x, y, u) = (dry.units(), wet.units(), unit());
    let (au, bu, su, qu) = (a.units(), b.units(), sum.units(), q.units());
    let m = d * x + w * y;
    assert(qu * norm == m) by (nonlinear_arith)
        requires
            au * u == d * x,
            bu * u == w * y,
            su == au + bu,
            qu * norm == su * u,
            m == d * x + w * y,
    ;
    lemma_cut_quotient_of_a_mix(q, m, norm);
    assert(mixed_sample(ar, dry_level, wet_level, dry, wet) == q.clamped(num(MINUS_ONE), num(ONE)));
}

/// A number has one root that is not negative.
proof fn lemma_one_root(a: int, b: int)
    requires
        0 <= a,
        0 <= b,
        a * a == b * b,
    ensures
        a == b,
{
    assert(a == b) by (nonlinear_arith)
        requires
            0 <= a,
            0 <= b,
            a * a == b * b,
    ;
}

proof fn lemma_norm(r: int, p: int, norm: int)
    requires
        unit() > 0,
        r >= 0,
        r * r == p * unit(),
        norm > 0,
        p >= unit() ==> norm * norm == p * unit(),
    ensures
        p >= unit() ==> r >= unit() && r == norm,
        p < unit() ==> r < unit(),
{
    let u = unit();
    assert(p >= u ==> r >= u) by (nonlinear_arith)
        requires
            r * r == p * u,
            r >= 0,
            u > 0,
    ;
    assert(p < u ==> r < u) by (nonlinear_arith)
        requires
            r * r == p * u,
            r >= 0,
            u > 0,
    ;
    if p >= u {
        lemma_one_root(r, norm);
    }
}

proof fn lemma_cut_quotient_of_a_mix(q: Scalar, m: int, norm: int)
    requires
        !q.nan(),
        norm > 0,
        q.units() * norm == m,
    ensures
        ({
            let y = q.clamped(num(MINUS_ONE), num(ONE)).units();
            &&& -unit() * norm <= m <= unit() * norm ==> y * norm == m
            &&& m > unit() * norm ==> y == unit()
            &&& m < -unit() * norm ==> y == -unit()
        }),
{
    lemma_ranges();
    signs_are_taken_off_and_turned(num(ONE));
    assert(num(MINUS_ONE) == num(ONE).negated());
    let (x, u) = (q.units(), unit());
    assert(x > u ==> m > u * norm) by (nonlinear_arith)
        requires
            x * norm == m,
            norm > 0,
    ;
    assert(x <= u ==> m <= u * norm) by (nonlinear_arith)
        requires
            x * norm == m,
            norm > 0,
    ;
    assert(x < -u ==> m < -u * norm) by (nonlinear_arith)
        requires
            x * norm == m,
            norm > 0,
    ;
    assert(x >= -u ==> m >= -u * norm) by (nonlinear_arith)
        requires
            x * norm == m,
            norm > 0,
    ;
}

/// A number moved into 0..=1 is brought into that range.
pub proof fn unit_range_brings_into_range(x: Scalar)
    ensures
        is_brought_into(x, num(ZERO), num(ONE), unit_range(x)),
{
    lemma_ranges();
    lemma_clamped_is_brought_into(x, num(ZERO), num(ONE));
}

/// A signal holds, for each frame of the data and one that is cut short at its end, what stands
/// for the samples of that frame.
pub proof fn signals_hold_every_frame(ar: Arith, data: Seq<Scalar>, channels: int, i: int)
    requires
        channels > 0,
        0 <= i,
        0 <= i * channels < data.len(),
    ensures
        ({
            let end = if (i + 1) * channels <= data.len() {
                (i + 1) * channels
            } else {
                data.len() as int
            };
            let signal = mono_signal(ar, data, channels);
            &&& i < signal.len()
            &&& (signal.len() - 1) * channels < data.len() <= signal.len() * channels
            &&& signal[i] == ar(
                Op::Div(
                    total(ar, data.subrange(i * channels, end)),
                    ar(Op::FromInt(channels as i128)),
                ),
            )
        }),
{
    let signal = mono_signal(ar, data, channels);
    let n = data.len() as int;
    lemma_pieces(n, channels, i);
    assert((i + 1) * channels == i * channels + channels) by (nonlinear_arith);
    let q = pieces(n, channels);
    lemma_fundamental_div_mod(n + channels - 1, channels);
    lemma_mod_bound(n + channels - 1, channels);
    let r = (n + channels - 1) % channels;
    assert((q - 1) * channels < n <= q * channels) by (nonlinear_arith)
        requires
            n + channels - 1 == channels * q + r,
            0 <= r < channels,
    ;
}

/// Frames that are filled hold the sample that stands for them in every channel, and what follows
/// them stays.
pub proof fn frames_are_filled_with_their_sample(
    data: Seq<Scalar>,
    channels: int,
    mono: Seq<Scalar>,
    i: int,
    c: int,
)
    requires
        0 <= c < channels,
        0 <= i,
        i * channels + c < data.len(),
    ensures
        spread(data, channels, mono).len() == data.len(),
        spread(data, channels, mono)[i * channels + c] == if i < mono.len() {
            mono[i]
        } else {
            data[i * channels + c]
        },
{
    assert(0 <= i * channels) by (nonlinear_arith)
        requires
            0 <= i,
            0 < channels,
    ;
    lemma_fundamental_div_mod_converse(i * channels + c, channels, i, c);
}

/// The levels of the mix play no role before it: what is heard, shifted and kept is the same.
proof fn lemma_levels_wait(
    ar: Arith,
    s: ProcessorState,
    dry: Scalar,
    wet: Scalar,
    input: Seq<Scalar>,
)
    ensures
        after_hearing_all(ar, with_levels(s, dry, wet), input) == with_levels(
            after_hearing_all(ar, s, input),
            dry,
            wet,
        ),
    decreases input.len(),
{
    if input.len() > 0 {
        lemma_levels_wait(ar, s, dry, wet, input.drop_last());
        reveal(after_hearing);
    }
}

proof fn lemma_levels_leave_the_shifted_signal(
    ar: Arith,
    s: ProcessorState,
    dry: Scalar,
    wet: Scalar,
    input: Seq<Scalar>,
)
    ensures
        wet_signal(ar, with_levels(s, dry, wet), input) == wet_signal(ar, s, input),
    decreases input.len(),
{
    if input.len() > 0 {
        let n = chunk_len(input.len());
        let chunk = input.take(n);
        lemma_levels_wait(ar, s, dry, wet, chunk);
        let t = with_levels(s, dry, wet);
        assert(after_chunk(ar, t, chunk) == with_levels(after_chunk(ar, s, chunk), dry, wet)) by {
            reveal(after_chunk);
        }
        lemma_levels_leave_the_shifted_signal(
            ar,
            after_chunk(ar, s, chunk),
            dry,
            wet,
            input.skip(n),
        );
    }
}

/// Levels that move act sample by sample: each sample is what a processor with the levels of that
/// sample set gives there.
pub proof fn moving_levels_act_sample_by_sample(
    ar: Arith,
    s: ProcessorState,
    input: Seq<Scalar>,
    dry: Seq<Scalar>,
    wet: Seq<Scalar>,
    i: int,
)
    requires
        s.wf(),
        0 <= i < input.len(),
    ensures
        processed_at(ar, s, input, dry, wet)[i] == processed(
            ar,
            with_levels(s, dry[i], wet[i]),
            input,
        )[i],
{
    let t = with_levels(s, dry[i], wet[i]);
    lemma_levels_leave_the_shifted_signal(ar, s, dry[i], wet[i], input);
    dry_signal_is_delayed(ar, t, input, i);
}

/// Levels that move while a buffer is processed act frame by frame: each frame is what the effect
/// gives there with the percentages of that frame as its parameters.
pub proof fn moving_levels_act_frame_by_frame(
    ar: Arith,
    s: PluginState,
    data: Seq<Scalar>,
    channels: int,
    samples: nat,
    dry: Seq<Scalar>,
    wet: Seq<Scalar>,
    i: int,
    c: int,
)
    requires
        s.processor is Some ==> s.processor->0.wf(),
        data.len() == samples * channels,
        dry.len() == samples,
        wet.len() == samples,
        0 <= i < samples,
        0 <= c < channels,
    ensures
        ({
            let params = RustAutotuneParams { dry: dry[i], wet: wet[i], ..s.params };
            smoothed_buffer_out(ar, s, data, channels, samples, dry, wet)[i * channels + c]
                == buffer_out(
                ar,
                PluginState { params, ..s },
                data,
                channels,
                samples,
            )[i * channels + c]
        }),
{
    let params = RustAutotuneParams { dry: dry[i], wet: wet[i], ..s.params };
    let t = PluginState { params, ..s };
    assert(t.takes(samples) == s.takes(samples));
    if s.takes(samples) {
        let p = with_params(ar, s.processor->0, s.params);
        let q = with_params(ar, s.processor->0, params);
        let block = mono_block(ar, data, channels, samples);
        let (d, w) = (levels_of(ar, dry), levels_of(ar, wet));
        unit_range_is_kept(ar(Op::Div(dry[i], num(0x42c8_0000))));
        unit_range_is_kept(ar(Op::Div(wet[i], num(0x42c8_0000))));
        assert(q == with_levels(p, d[i], w[i]));
        moving_levels_act_sample_by_sample(ar, p, block, d, w, i);
        output_stays_in_range(ar, q, block);
        assert(0 <= i * channels && i * channels + channels <= samples * channels)
            by (nonlinear_arith)
            requires
                0 <= i,
                i + 1 <= samples,
                0 < channels,
        ;
        frames_are_filled_with_their_sample(
            data,
            channels,
            processed_at(ar, p, block, d, w),
            i,
            c,
        );
        frames_are_filled_with_their_sample(data, channels, processed(ar, q, block), i, c);
    }
}

/// A block of up to 2048 samples is heard whole before any of it is shifted; a longer one is taken
/// in such blocks, one after the other.
pub proof fn blocks_of_2048_are_heard_whole(ar: Arith, s: ProcessorState, input: Seq<Scalar>)
    requires
        s.wf(),
        0 < input.len(),
    ensures
        input.len() <= 2048 ==> after_processing(ar, s, input) == after_chunk(ar, s, input)
            && wet_signal(ar, s, input) == shifted_signal(
            ar,
            after_hearing_all(ar, s, input),
            input,
        ),
        input.len() > 2048 ==> {
            let first = after_processing(ar, s, input.take(2048));
            &&& after_processing(ar, s, input) == after_processing(ar, first, input.skip(2048))
            &&& wet_signal(ar, s, input) == wet_signal(ar, s, input.take(2048)) + wet_signal(
                ar,
                first,
                input.skip(2048),
            )
        },
{
    if input.len() <= 2048 {
        lemma_one_block(ar, s, input);
    } else {
        let head = input.take(2048);
        lemma_one_block(ar, s, head);
        assert(chunk_len(input.len()) == 2048);
    }
}

proof fn lemma_one_block(ar: Arith, s: ProcessorState, input: Seq<Scalar>)
    requires
        s.wf(),
        0 < input.len() <= 2048,
    ensures
        after_processing(ar, s, input) == after_chunk(ar, s, input),
        wet_signal(ar, s, input) == shifted_signal(ar, after_hearing_all(ar, s, input), input),
{
    let n = chunk_len(input.len());
    assert(n == input.len());
    assert(input.take(n) =~= input);
    assert(input.skip(n) =~= Seq::<Scalar>::empty());
    let t = after_chunk(ar, s, input);
    assert(after_processing(ar, t, input.skip(n)) == t);
    assert(wet_signal(ar, t, input.skip(n)) =~= Seq::<Scalar>::empty());
    assert(wet_signal(ar, s, input) =~= shifted_signal(ar, after_hearing_all(ar, s, input), input));
}

} // verus!
