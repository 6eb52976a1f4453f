//! The processor as an effect in a host: its parameters, and what becomes of a buffer.
use vstd::arithmetic::div_mod::lemma_fundamental_div_mod_converse;
use vstd::prelude::*;
use vstd::slice::slice_subrange;
use vstd::std_specs::convert::FromSpecImpl;

use crate::arith::{is_arithmetic, results, Arith, Op};
use crate::buffer::silent;
use crate::config::{
    level_of_percent, percent_to_level, unit_range, unit_range_is_kept, HUNDRED,
};
use crate::frames::{frame_at, mono_frame, mono_of, spread, spread_frames};
use crate::processor::{
    after_processing, at_rest, can_process, output_stays_in_range, processed, processed_at,
    processing_keeps_settings, steady_levels_mix_as_those_set, Correction,
    PitchCorrectionProcessor, ProcessorConfig, ProcessorState, ANALYSIS_HOP, WIDEST_DEAD_ZONE,
};
use crate::psola::is_tame;
use crate::scalar::{num, Scalar, ONE, ZERO};
use crate::scale::{ScaleKind, ScaleMapper};
use crate::smoothing::decay;

verus! {

/// The fewest samples that a buffer is prepared for.
pub const MIN_BUFFER: usize = 64;

/// 80, the lowest frequency that is detected.
pub const LOWEST_HZ: u32 = 0x42a0_0000;

/// 1000, the highest frequency that is detected.
pub const HIGHEST_HZ: u32 = 0x447a_0000;

/// 0.12, the threshold of the detector.
pub const THRESHOLD: u32 = 0x3df5_c28f;

/// 0.75, the confidence from which on a pitch is followed.
pub const CONFIDENCE: u32 = 0x3f40_0000;

/// 35, the milliseconds over which the pitch is corrected.
pub const RETUNE_MS: u32 = 0x420c_0000;

/// 0.8, how hard small deviations are corrected.
pub const AGGRESSIVENESS: u32 = 0x3f4c_cccd;

/// 0.55, the share of the formant correction.
pub const FORMANT_AMOUNT: u32 = 0x3f0c_cccd;

/// The scale as a parameter.
#[derive(Debug, Clone, Copy, PartialEq, Eq, Structural)]
pub enum ScaleParam {
    Chromatic,
    Major,
    Minor,
}

/// The root of the scale as a parameter.
#[derive(Debug, Clone, Copy, PartialEq, Eq, Structural)]
pub enum KeyParam {
    C,
    Cs,
    D,
    Ds,
    E,
    F,
    Fs,
    G,
    Gs,
    A,
    As,
    B,
}

pub open spec fn kind_of_param(value: ScaleParam) -> ScaleKind {
    match value {
        ScaleParam::Chromatic => ScaleKind::Chromatic,
        ScaleParam::Major => ScaleKind::Major,
        ScaleParam::Minor => ScaleKind::Minor,
    }
}

impl FromSpecImpl<ScaleParam> for ScaleKind {
    open spec fn obeys_from_spec() -> bool {
        true
    }

    open spec fn from_spec(value: ScaleParam) -> ScaleKind {
        kind_of_param(value)
    }
}

impl From<ScaleParam> for ScaleKind {
    fn from(value: ScaleParam) -> (kind: ScaleKind) {
        match value {
            ScaleParam::Chromatic => ScaleKind::Chromatic,
            ScaleParam::Major => ScaleKind::Major,
            ScaleParam::Minor => ScaleKind::Minor,
        }
    }
}

impl KeyParam {
    /// The pitch class of a key: semitones above C.
    pub open spec fn semitones(self) -> int {
        match self {
            KeyParam::C => 0,
            KeyParam::Cs => 1,
            KeyParam::D => 2,
            KeyParam::Ds => 3,
            KeyParam::E => 4,
            KeyParam::F => 5,
            KeyParam::Fs => 6,
            KeyParam::G => 7,
            KeyParam::Gs => 8,
            KeyParam::A => 9,
            KeyParam::As => 10,
            KeyParam::B => 11,
        }
    }

    pub fn pitch_class(self) -> (r: i32)
        ensures
            r == self.semitones(),
    {
        match self {
            KeyParam::C => 0,
            KeyParam::Cs => 1,
            KeyParam::D => 2,
            KeyParam::Ds => 3,
            KeyParam::E => 4,
            KeyParam::F => 5,
            KeyParam::Fs => 6,
            KeyParam::G => 7,
            KeyParam::Gs => 8,
            KeyParam::A => 9,
            KeyParam::As => 10,
            KeyParam::B => 11,
        }
    }
}

/// The parameters as a host sets them.
#[derive(Debug, Clone, Copy)]
pub struct RustAutotuneParams {
    /// In percent.
    pub dry: Scalar,
    /// In percent.
    pub wet: Scalar,
    pub bypass: bool,
    pub retune_ms: Scalar,
    pub strength: Scalar,
    pub aggressiveness: Scalar,
    /// In cents.
    pub dead_zone: Scalar,
    pub scale: ScaleParam,
    pub key: KeyParam,
}

/// The parameters before a host sets them.
pub open spec fn default_params() -> RustAutotuneParams {
    RustAutotuneParams {
        dry: num(ZERO),
        wet: num(HUNDRED),
        bypass: false,
        retune_ms: num(RETUNE_MS),
        strength: num(ONE),
        aggressiveness: num(AGGRESSIVENESS),
        dead_zone: num(ZERO),
        scale: ScaleParam::Chromatic,
        key: KeyParam::C,
    }
}

impl Default for RustAutotuneParams {
    fn default() -> (r: Self)
        ensures
            r == default_params(),
    {
        RustAutotuneParams {
            dry: num(ZERO),
            wet: num(HUNDRED),
            bypass: false,
            retune_ms: num(RETUNE_MS),
            strength: num(ONE),
            aggressiveness: num(AGGRESSIVENESS),
            dead_zone: num(ZERO),
            scale: ScaleParam::Chromatic,
            key: KeyParam::C,
        }
    }
}

/// What the processor is set up with at a sample rate.
pub open spec fn host_config(sample_rate: Scalar) -> ProcessorConfig {
    ProcessorConfig {
        sample_rate,
        min_freq_hz: num(LOWEST_HZ),
        max_freq_hz: num(HIGHEST_HZ),
        yin_threshold: num(THRESHOLD),
        confidence_threshold: num(CONFIDENCE),
        retune_time_ms: num(RETUNE_MS),
        correction_strength: num(ONE),
        aggressiveness: num(AGGRESSIVENESS),
        dead_zone_cents: num(ZERO),
        dry_level: num(ZERO),
        wet_level: num(ONE),
        force_midi_note: None,
        formant_enabled: true,
        formant_amount: num(FORMANT_AMOUNT),
    }
}

/// A processor with the parameters applied to it.
pub open spec fn with_params(
    ar: Arith,
    s: ProcessorState,
    params: RustAutotuneParams,
) -> ProcessorState {
    ProcessorState {
        retune_time_ms: params.retune_ms.larger(num(ONE)),
        ratio_coeff: decay(ar, params.retune_ms.larger(num(ONE)), s.sample_rate, ANALYSIS_HOP),
        correction: Correction {
            strength: unit_range(params.strength),
            aggressiveness: unit_range(params.aggressiveness),
            dead_zone_cents: params.dead_zone.clamped(num(ZERO), num(WIDEST_DEAD_ZONE)),
            kind: kind_of_param(params.scale),
            root: params.key.semitones(),
            ..s.correction
        },
        dry_level: level_of_percent(ar, params.dry),
        wet_level: level_of_percent(ar, params.wet),
        ..s
    }
}

/// One sample for each frame of a buffer: the mean over the channels, or silence where there
/// are none.
pub open spec fn mono_block(ar: Arith, data: Seq<Scalar>, channels: int, samples: nat) -> Seq<
    Scalar,
> {
    Seq::new(
        samples,
        |i: int|
            if channels > 0 {
                mono_of(ar, frame_at(data, channels, i * channels), channels)
            } else {
                num(ZERO)
            },
    )
}

/// What an effect is made of: its parameters, its processor once there is one, and the samples
/// that it is prepared for.
pub struct PluginState {
    pub params: RustAutotuneParams,
    pub processor: Option<ProcessorState>,
    pub capacity: nat,
}

impl PluginState {
    /// Whether a buffer of `samples` frames is processed.
    pub open spec fn takes(self, samples: nat) -> bool {
        !self.params.bypass && self.processor is Some && 0 < samples <= self.capacity
    }

    /// If a buffer is processed, the detector can be asked wherever it is asked.
    pub open spec fn can_take(
        self,
        ar: Arith,
        data: Seq<Scalar>,
        channels: int,
        samples: nat,
    ) -> bool {
        self.takes(samples) ==> self.processor->0.yin.searchable() || can_process(
            ar,
            with_params(ar, self.processor->0, self.params),
            mono_block(ar, data, channels, samples),
        )
    }
}

/// The effect after a buffer.
pub open spec fn after_buffer(
    ar: Arith,
    s: PluginState,
    data: Seq<Scalar>,
    channels: int,
    samples: nat,
) -> PluginState {
    if s.params.bypass || s.processor is None {
        s
    } else {
        let p = with_params(ar, s.processor->0, s.params);
        PluginState {
            processor: Some(
                if s.takes(samples) {
                    after_processing(ar, p, mono_block(ar, data, channels, samples))
                } else {
                    p
                },
            ),
            ..s
        }
    }
}

/// What a buffer holds after it was processed.
pub open spec fn buffer_out(
    ar: Arith,
    s: PluginState,
    data: Seq<Scalar>,
    channels: int,
    samples: nat,
) -> Seq<Scalar> {
    if s.takes(samples) && channels > 0 {
        spread(
            data,
            channels,
            processed(
                ar,
                with_params(ar, s.processor->0, s.params),
                mono_block(ar, data, channels, samples),
            ),
        )
    } else {
        data
    }
}

/// The levels that percentages stand for.
pub open spec fn levels_of(ar: Arith, percents: Seq<Scalar>) -> Seq<Scalar> {
    Seq::new(percents.len(), |i: int| level_of_percent(ar, percents[i]))
}

/// What a buffer holds after it was processed while the levels of the mix moved.
pub open spec fn smoothed_buffer_out(
    ar: Arith,
    s: PluginState,
    data: Seq<Scalar>,
    channels: int,
    samples: nat,
    dry: Seq<Scalar>,
    wet: Seq<Scalar>,
) -> Seq<Scalar> {
    if s.takes(samples) && channels > 0 {
        spread(
            data,
            channels,
            processed_at(
                ar,
                with_params(ar, s.processor->0, s.params),
                mono_block(ar, data, channels, samples),
                levels_of(ar, dry),
                levels_of(ar, wet),
            ),
        )
    } else {
        data
    }
}

/// The effect.
pub struct RustAutotunePlugin {
    params: RustAutotuneParams,
    processor: Option<PitchCorrectionProcessor>,
    input_mono: Vec<Scalar>,
    output_mono: Vec<Scalar>,
    dry_levels: Vec<Scalar>,
    wet_levels: Vec<Scalar>,
}

impl View for RustAutotunePlugin {
    type V = PluginState;

    closed spec fn view(&self) -> PluginState {
        PluginState {
            params: self.params,
            processor: match self.processor {
                Some(p) => Some(p@),
                None => None,
            },
            capacity: self.input_mono@.len(),
        }
    }
}

impl Default for RustAutotunePlugin {
    fn default() -> (r: Self)
        ensures
            r.wf(),
            r@ == (PluginState { params: default_params(), processor: None, capacity: 0 }),
    {
        RustAutotunePlugin {
            params: RustAutotuneParams::default(),
            processor: None,
            input_mono: Vec::new(),
            output_mono: Vec::new(),
            dry_levels: Vec::new(),
            wet_levels: Vec::new(),
        }
    }
}

impl RustAutotunePlugin {
    pub closed spec fn wf(self) -> bool {
        &&& self.processor matches Some(p) ==> p.wf()
        &&& self.output_mono@.len() == self.input_mono@.len()
        &&& self.dry_levels@.len() == self.input_mono@.len()
        &&& self.wet_levels@.len() == self.input_mono@.len()
    }

    /// The parameters.
    pub fn params(&self) -> (r: RustAutotuneParams)
        ensures
            r == self@.params,
    {
        self.params
    }

    /// Takes the parameters from the host.
    pub fn set_params(&mut self, params: RustAutotuneParams)
        requires
            old(self).wf(),
        ensures
            final(self).wf(),
            final(self)@ == (PluginState { params, ..old(self)@ }),
    {
        self.params = params;
    }

    /// Prepares for buffers of up to `max_buffer_size` frames, which must be within what can be
    /// allocated, at a sample rate, with a processor at rest.
    pub fn initialize<F: Fn(Op) -> Scalar>(
        &mut self,
        max_buffer_size: u32,
        sample_rate: Scalar,
        f: &F,
    ) -> (r: bool)
        requires
            old(self).wf(),
            max_buffer_size * 4 <= isize::MAX,
            is_arithmetic(*f),
        ensures
            r,
            final(self).wf(),
            final(self)@ == (PluginState {
                params: old(self)@.params,
                processor: Some(
                    at_rest(results(*f), host_config(sample_rate), ScaleKind::Chromatic, 0),
                ),
                capacity: if max_buffer_size < MIN_BUFFER {
                    MIN_BUFFER as nat
                } else {
                    max_buffer_size as nat
                },
            }),
    {
        let asked: usize = max_buffer_size as usize;
        let capacity: usize = if asked < MIN_BUFFER {
            MIN_BUFFER
        } else {
            asked
        };
        self.input_mono = silent(capacity);
        self.output_mono = silent(capacity);
        self.dry_levels = silent(capacity);
        self.wet_levels = silent(capacity);
        let config = ProcessorConfig {
            sample_rate,
            min_freq_hz: num(LOWEST_HZ),
            max_freq_hz: num(HIGHEST_HZ),
            yin_threshold: num(THRESHOLD),
            confidence_threshold: num(CONFIDENCE),
            retune_time_ms: num(RETUNE_MS),
            correction_strength: num(ONE),
            aggressiveness: num(AGGRESSIVENESS),
            dead_zone_cents: num(ZERO),
            dry_level: num(ZERO),
            wet_level: num(ONE),
            force_midi_note: None,
            formant_enabled: true,
            formant_amount: num(FORMANT_AMOUNT),
        };
        self.processor = Some(
            PitchCorrectionProcessor::new(config, ScaleMapper::new(0, ScaleKind::Chromatic), f),
        );
        true
    }

    /// Whether the effect is prepared for a buffer of so many frames.
    pub fn fits(&self, samples: usize) -> (r: bool)
        ensures
            r == (samples <= self@.capacity),
    {
        samples <= self.input_mono.len()
    }

    /// Whether the processor, if there is one, has lags to search at its sample rate, so that
    /// buffers can be processed.
    pub fn can_detect(&self) -> (r: bool)
        requires
            self.wf(),
        ensures
            r == (self@.processor is Some ==> self@.processor->0.yin.searchable()),
    {
        match &self.processor {
            Some(p) => p.can_detect(),
            None => true,
        }
    }

    /// Processes a buffer of `samples` frames in place: each frame is filled with one sample
    /// of the processed signal. It stays as it is where the effect is bypassed, has no
    /// processor, or is not prepared for so many frames.
    pub fn process<F: Fn(Op) -> Scalar>(
        &mut self,
        data: &mut [Scalar],
        channels: usize,
        samples: usize,
        f: &F,
    )
        requires
            old(self).wf(),
            old(self)@.can_take(results(*f), old(data)@, channels as int, samples as nat),
            old(data)@.len() == samples * channels,
            is_arithmetic(*f),
        ensures
            final(self).wf(),
            final(self)@ == after_buffer(
                results(*f),
                old(self)@,
                old(data)@,
                channels as int,
                samples as nat,
            ),
            final(self)@.processor is Some ==> final(self)@.processor->0.yin == old(self)@
                .processor->0.yin,
            final(data)@ == buffer_out(
                results(*f),
                old(self)@,
                old(data)@,
                channels as int,
                samples as nat,
            ),
    {
        if self.params.bypass {
            return;
        }
        let params = self.params;
        let capacity = self.input_mono.len();
        match &mut self.processor {
            None => {},
            Some(processor) => {
                apply_params(processor, &params, f);
                if 0 < samples && samples <= capacity {
                    downmix(data, channels, samples, &mut self.input_mono, f);
                    let input = slice_subrange(self.input_mono.as_slice(), 0, samples);
                    let (output, _rest) = self.output_mono.as_mut_slice().split_at_mut(samples);
                    processor.process_block(input, output, f);
                    if channels > 0 {
                        spread_frames(data, channels, &self.output_mono, samples);
                    }
                }
            },
        }
    }

    /// Processes a buffer as `process` does, with the levels of the mix, in percent, given for
    /// each frame: a host smooths them where they change.
    pub fn process_smoothed<F: Fn(Op) -> Scalar>(
        &mut self,
        data: &mut [Scalar],
        channels: usize,
        samples: usize,
        dry: &[Scalar],
        wet: &[Scalar],
        f: &F,
    )
        requires
            old(self).wf(),
            old(self)@.can_take(results(*f), old(data)@, channels as int, samples as nat),
            old(data)@.len() == samples * channels,
            dry@.len() == samples,
            wet@.len() == samples,
            is_arithmetic(*f),
        ensures
            final(self).wf(),
            final(self)@ == after_buffer(
                results(*f),
                old(self)@,
                old(data)@,
                channels as int,
                samples as nat,
            ),
            final(self)@.processor is Some ==> final(self)@.processor->0.yin == old(self)@
                .processor->0.yin,
            final(data)@ == smoothed_buffer_out(
                results(*f),
                old(self)@,
                old(data)@,
                channels as int,
                samples as nat,
                dry@,
                wet@,
            ),
    {
        if self.params.bypass {
            return;
        }
        let params = self.params;
        let capacity = self.input_mono.len();
        match &mut self.processor {
            None => {},
            Some(processor) => {
                apply_params(processor, &params, f);
                if 0 < samples && samples <= capacity {
                    downmix(data, channels, samples, &mut self.input_mono, f);
                    fill_levels(dry, &mut self.dry_levels, f);
                    fill_levels(wet, &mut self.wet_levels, f);
                    let input = slice_subrange(self.input_mono.as_slice(), 0, samples);
                    let dry_levels = slice_subrange(self.dry_levels.as_slice(), 0, samples);
                    let wet_levels = slice_subrange(self.wet_levels.as_slice(), 0, samples);
                    assert(dry_levels@ =~= levels_of(results(*f), dry@));
                    assert(wet_levels@ =~= levels_of(results(*f), wet@));
                    let (output, _rest) = self.output_mono.as_mut_slice().split_at_mut(samples);
                    processor.process_block_at(input, output, dry_levels, wet_levels, f);
                    if channels > 0 {
                        spread_frames(data, channels, &self.output_mono, samples);
                    }
                }
            },
        }
    }
}

/// Fills a block with the levels that percentages stand for.
fn fill_levels<F: Fn(Op) -> Scalar>(percents: &[Scalar], levels: &mut Vec<Scalar>, f: &F)
    requires
        percents@.len() <= old(levels)@.len(),
        is_arithmetic(*f),
    ensures
        final(levels)@.len() == old(levels)@.len(),
        final(levels)@.take(percents@.len() as int) == levels_of(results(*f), percents@),
{
    let n = percents.len();
    let mut i: usize = 0;
    while i < n
        invariant
            i <= n,
            n == percents@.len(),
            n <= levels@.len(),
            levels@.len() == old(levels)@.len(),
            is_arithmetic(*f),
            forall|j: int|
                0 <= j < i ==> #[trigger] levels@[j] == level_of_percent(
                    results(*f),
                    percents@[j],
                ),
        decreases n - i,
    {
        levels[i] = percent_to_level(percents[i], f);
        i += 1;
    }
    assert(levels@.take(n as int) =~= levels_of(results(*f), percents@));
}

/// Applies the parameters to a processor.
fn apply_params<F: Fn(Op) -> Scalar>(
    processor: &mut PitchCorrectionProcessor,
    params: &RustAutotuneParams,
    f: &F,
)
    requires
        old(processor).wf(),
        is_arithmetic(*f),
    ensures
        final(processor).wf(),
        final(processor)@ == with_params(results(*f), old(processor)@, *params),
{
    processor.set_retune_time_ms(params.retune_ms, f);
    processor.set_correction_strength(params.strength);
    processor.set_aggressiveness(params.aggressiveness);
    processor.set_dead_zone_cents(params.dead_zone);
    processor.set_scale_key(ScaleKind::from(params.scale), params.key.pitch_class());
    let dry = percent_to_level(params.dry, f);
    let wet = percent_to_level(params.wet, f);
    processor.set_dry_wet_levels(dry, wet);
    proof {
        unit_range_is_kept(results(*f)(Op::Div(params.dry, num(HUNDRED))));
        unit_range_is_kept(results(*f)(Op::Div(params.wet, num(HUNDRED))));
    }
}

/// Fills a block with one sample for each frame of a buffer.
fn downmix<F: Fn(Op) -> Scalar>(
    data: &[Scalar],
    channels: usize,
    samples: usize,
    mono: &mut Vec<Scalar>,
    f: &F,
)
    requires
        data@.len() == samples * channels,
        samples <= old(mono)@.len(),
        is_arithmetic(*f),
    ensures
        final(mono)@.len() == old(mono)@.len(),
        final(mono)@.take(samples as int) == mono_block(
            results(*f),
            data@,
            channels as int,
            samples as nat,
        ),
{
    let ghost ar = results(*f);
    let ghost ch = channels as int;
    let ghost goal = mono_block(ar, data@, ch, samples as nat);
    let mut i: usize = 0;
    let mut start: usize = 0;
    let len = data.len();
    assert(0 * ch == 0) by (nonlinear_arith);
    while i < samples
        invariant
            i <= samples,
            samples <= mono@.len(),
            mono@.len() == old(mono)@.len(),
            ch == channels,
            start == i * ch,
            len == data@.len(),
            len == samples * ch,
            is_arithmetic(*f),
            ar == results(*f),
            goal == mono_block(ar, data@, ch, samples as nat),
            forall|j: int| 0 <= j < i ==> mono@[j] == goal[j],
        decreases samples - i,
    {
        proof {
            assert((i + 1) * ch == i * ch + ch) by (nonlinear_arith);
            assert((i + 1) * ch <= samples * ch) by (nonlinear_arith)
                requires
                    i + 1 <= samples,
                    ch >= 0,
            ;
        }
        mono[i] = if channels > 0 {
            mono_frame(data, channels, start, f)
        } else {
            num(ZERO)
        };
        start += channels;
        i += 1;
    }
    assert(mono@.take(samples as int) =~= goal);
}

/// A bypassed effect leaves the buffer and itself as they are.
pub proof fn bypassed_effect_changes_nothing(
    ar: Arith,
    s: PluginState,
    data: Seq<Scalar>,
    channels: int,
    samples: nat,
)
    requires
        s.params.bypass,
    ensures
        after_buffer(ar, s, data, channels, samples) == s,
        buffer_out(ar, s, data, channels, samples) == data,
{
}

/// The levels of the mix are those of the parameters, whatever they were before.
pub proof fn levels_follow_the_parameters(
    ar: Arith,
    s: PluginState,
    data: Seq<Scalar>,
    channels: int,
    samples: nat,
)
    requires
        !s.params.bypass,
        s.processor is Some,
    ensures
        ({
            let t = after_buffer(ar, s, data, channels, samples);
            &&& t.processor is Some
            &&& t.processor->0.dry_level == level_of_percent(ar, s.params.dry)
            &&& t.processor->0.wet_level == level_of_percent(ar, s.params.wet)
            &&& t.processor->0.correction == with_params(ar, s.processor->0, s.params).correction
        }),
{
    processing_keeps_settings(
        ar,
        with_params(ar, s.processor->0, s.params),
        mono_block(ar, data, channels, samples),
    );
}

/// Levels that stand still at the parameters give the same as the parameters do.
pub proof fn steady_levels_follow_the_parameters(
    ar: Arith,
    s: PluginState,
    data: Seq<Scalar>,
    channels: int,
    samples: nat,
    dry: Seq<Scalar>,
    wet: Seq<Scalar>,
)
    requires
        s.takes(samples) ==> s.processor->0.wf(),
        dry.len() == samples,
        wet.len() == samples,
        forall|i: int|
            0 <= i < samples ==> #[trigger] dry[i] == s.params.dry && wet[i] == s.params.wet,
    ensures
        smoothed_buffer_out(ar, s, data, channels, samples, dry, wet) == buffer_out(
            ar,
            s,
            data,
            channels,
            samples,
        ),
{
    if s.takes(samples) && channels > 0 {
        let p = with_params(ar, s.processor->0, s.params);
        unit_range_is_kept(ar(Op::Div(s.params.dry, num(HUNDRED))));
        unit_range_is_kept(ar(Op::Div(s.params.wet, num(HUNDRED))));
        let (dry_levels, wet_levels) = (levels_of(ar, dry), levels_of(ar, wet));
        assert forall|i: int| 0 <= i < samples implies unit_range(#[trigger] dry_levels[i])
            == p.dry_level && unit_range(wet_levels[i]) == p.wet_level by {
            assert(dry[i] == s.params.dry);
        }
        steady_levels_mix_as_those_set(
            ar,
            p,
            mono_block(ar, data, channels, samples),
            dry_levels,
            wet_levels,
        );
    }
}

/// Every channel of a buffer that was processed holds the same signal, within -1..=1 where it
/// is a number.
pub proof fn channels_hold_the_same_signal(
    ar: Arith,
    s: PluginState,
    data: Seq<Scalar>,
    channels: int,
    samples: nat,
    i: int,
    c: int,
)
    requires
        s.takes(samples),
        s.processor->0.wf(),
        data.len() == samples * channels,
        0 <= i < samples,
        0 <= c < channels,
    ensures
        ({
            let out = buffer_out(ar, s, data, channels, samples);
            &&& out.len() == data.len()
            &&& i * channels + c < out.len()
            &&& out[i * channels + c] == out[i * channels]
            &&& is_tame(out[i * channels + c])
        }),
{
    let p = with_params(ar, s.processor->0, s.params);
    output_stays_in_range(ar, p, mono_block(ar, data, channels, samples));
    lemma_fundamental_div_mod_converse(i * channels + c, channels, i, c);
    lemma_fundamental_div_mod_converse(i * channels, channels, i, 0);
    assert(0 <= i * channels && i * channels + channels <= samples * channels) by (nonlinear_arith)
        requires
            0 <= i,
            i + 1 <= samples,
            0 < channels,
    ;
}

} // verus!
