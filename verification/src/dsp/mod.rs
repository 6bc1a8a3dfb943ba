//! Envelopes and voices: which note plays where, and which part of its
//! envelope it is in. Levels and samples are computed by the caller.

pub mod envelope;
pub mod synth;
pub mod voices;
