//! The settings of a run.
use vstd::prelude::*;
use vstd::std_specs::convert::FromSpecImpl;

use crate::arith::{apply, is_arithmetic, results, Arith, Op};
use crate::scalar::{num, Scalar, ONE, ZERO};
use crate::scale::ScaleKind;

verus! {

/// 20, 40, 100 and 2000.
pub const TWENTY: u32 = 0x41a0_0000;

pub const FORTY: u32 = 0x4220_0000;

pub const HUNDRED: u32 = 0x42c8_0000;

pub const TWO_THOUSAND: u32 = 0x44fa_0000;

/// The scale as a user names it.
#[derive(Debug, Clone, Copy, PartialEq, Eq, Structural)]
pub enum ScaleArg {
    Chromatic,
    Major,
    Minor,
}

pub open spec fn kind_of_arg(value: ScaleArg) -> ScaleKind {
    match value {
        ScaleArg::Chromatic => ScaleKind::Chromatic,
        ScaleArg::Major => ScaleKind::Major,
        ScaleArg::Minor => ScaleKind::Minor,
    }
}

impl FromSpecImpl<ScaleArg> for ScaleKind {
    open spec fn obeys_from_spec() -> bool {
        true
    }

    open spec fn from_spec(value: ScaleArg) -> ScaleKind {
        kind_of_arg(value)
    }
}

impl From<ScaleArg> for ScaleKind {
    fn from(value: ScaleArg) -> (kind: ScaleKind) {
        match value {
            ScaleArg::Chromatic => ScaleKind::Chromatic,
            ScaleArg::Major => ScaleKind::Major,
            ScaleArg::Minor => ScaleKind::Minor,
        }
    }
}

/// The settings as a user gives them.
#[derive(Debug, Clone)]
pub struct UserSettings {
    pub block_size: u32,
    pub sample_rate: Option<u32>,
    pub min_freq: Scalar,
    pub max_freq: Scalar,
    pub yin_threshold: Scalar,
    pub confidence_threshold: Scalar,
    pub retune_ms: Scalar,
    pub strength: Scalar,
    pub aggressiveness: Scalar,
    /// In cents.
    pub dead_zone: Scalar,
    pub scale: ScaleArg,
    pub root: String,
    /// In percent.
    pub wet: Scalar,
    /// In percent.
    pub dry: Scalar,
    pub formant: bool,
    pub formant_amount: Scalar,
    pub midi_note: Option<u8>,
}

#[derive(Debug, Clone)]
pub struct RuntimeConfig {
    pub block_size: u32,
    pub sample_rate: Option<u32>,
    pub min_freq_hz: Scalar,
    pub max_freq_hz: Scalar,
    pub yin_threshold: Scalar,
    pub confidence_threshold: Scalar,
    pub retune_time_ms: Scalar,
    pub correction_strength: Scalar,
    pub aggressiveness: Scalar,
    /// Deviations of fewer cents than this are left alone.
    pub dead_zone_cents: Scalar,
    pub scale: ScaleArg,
    pub root_note: String,
    pub dry_level: Scalar,
    pub wet_level: Scalar,
    pub formant_enabled: bool,
    pub formant_amount: Scalar,
    pub force_midi_note: Option<u8>,
}

/// A number moved into 0..=1.
pub open spec fn unit_range(x: Scalar) -> Scalar {
    x.clamped(num(ZERO), num(ONE))
}

/// The level, 0 to 1, that a percentage stands for.
pub open spec fn level_of_percent(ar: Arith, percent: Scalar) -> Scalar {
    unit_range(ar(Op::Div(percent, num(HUNDRED))))
}

/// A number moved into 0..=1 stays where it is when it is moved there again.
pub proof fn unit_range_is_kept(x: Scalar)
    ensures
        unit_range(unit_range(x)) == unit_range(x),
{
    broadcast use crate::scalar::group_scalar_order;

}

pub fn to_unit_range(x: Scalar) -> (r: Scalar)
    ensures
        r == unit_range(x),
{
    x.clamp(num(ZERO), num(ONE))
}

pub fn percent_to_level<F: Fn(Op) -> Scalar>(percent: Scalar, f: &F) -> (r: Scalar)
    requires
        is_arithmetic(*f),
    ensures
        r == level_of_percent(results(*f), percent),
{
    to_unit_range(apply(f, Op::Div(percent, num(HUNDRED))))
}

impl RuntimeConfig {
    /// The settings of a run, with what the user gave brought into range: a block size of 128
    /// to 512, a lowest frequency of at least 40, a highest one of at most 2000 yet at least
    /// 20 above the lowest that the user gave, strengths and levels of 0 to 1.
    pub fn from_user<F: Fn(Op) -> Scalar>(user: UserSettings, f: &F) -> (r: RuntimeConfig)
        requires
            is_arithmetic(*f),
        ensures
            r.block_size == if user.block_size < 128 {
                128
            } else if user.block_size > 512 {
                512
            } else {
                user.block_size
            },
            r.sample_rate == user.sample_rate,
            r.min_freq_hz == user.min_freq.larger(num(FORTY)),
            r.max_freq_hz == user.max_freq.smaller(num(TWO_THOUSAND)).larger(
                results(*f)(Op::Add(user.min_freq, num(TWENTY))),
            ),
            r.yin_threshold == user.yin_threshold,
            r.confidence_threshold == user.confidence_threshold,
            r.retune_time_ms == user.retune_ms,
            r.correction_strength == unit_range(user.strength),
            r.aggressiveness == unit_range(user.aggressiveness),
            r.dead_zone_cents == user.dead_zone,
            r.scale == user.scale,
            r.root_note@ == user.root@,
            r.dry_level == level_of_percent(results(*f), user.dry),
            r.wet_level == level_of_percent(results(*f), user.wet),
            r.formant_enabled == user.formant,
            r.formant_amount == unit_range(user.formant_amount),
            r.force_midi_note == user.midi_note,
    {
        let block_size: u32 = if user.block_size < 128 {
            128
        } else if user.block_size > 512 {
            512
        } else {
            user.block_size
        };
        let floor = apply(f, Op::Add(user.min_freq, num(TWENTY)));
        RuntimeConfig {
            block_size,
            sample_rate: user.sample_rate,
            min_freq_hz: user.min_freq.max(num(FORTY)),
            max_freq_hz: user.max_freq.min(num(TWO_THOUSAND)).max(floor),
            yin_threshold: user.yin_threshold,
            confidence_threshold: user.confidence_threshold,
            retune_time_ms: user.retune_ms,
            correction_strength: to_unit_range(user.strength),
            aggressiveness: to_unit_range(user.aggressiveness),
            dead_zone_cents: user.dead_zone,
            scale: user.scale,
            root_note: user.root,
            dry_level: percent_to_level(user.dry, f),
            wet_level: percent_to_level(user.wet, f),
            formant_enabled: user.formant,
            formant_amount: to_unit_range(user.formant_amount),
            force_midi_note: user.midi_note,
        }
    }
}

} // verus!
