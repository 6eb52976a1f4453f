//! Pitch correction for voice.
//!
//! The crate holds the whole signal path (pitch detection, scale mapping, pitch shifting,
//! formant correction, mixing) as verified code. Numbers are carried by their bit patterns
//! (`scalar`), and the rounding arithmetic on them is a function that the caller supplies
//! (`arith`).
use vstd::prelude::*;

pub mod arith;
pub mod audio;
pub mod buffer;
pub mod config;
pub mod detection;
pub mod exact;
pub mod following;
pub mod formant;
pub mod frames;
pub mod marks;
pub mod peaks;
pub mod periods;
pub mod phase_vocoder;
pub mod plugin;
pub mod processor;
pub mod psola;
pub mod readings;
pub mod response;
pub mod ring;
pub mod scalar;
pub mod scale;
pub mod settings;
pub mod smoothing;
pub mod unvoiced;
pub mod yin;

verus! {

} // verus!
