//! Core of a live-performance music host: documents, patch graphs, sample
//! instruments, MIDI, voice allocation and plugin discovery.

pub mod audio;
pub mod dsp;
pub mod json;
pub mod midi;
pub mod numbers;
pub mod patch;
pub mod paths;
pub mod plugin;
pub mod rt;
pub mod sfz;
pub mod show;
pub mod text;
