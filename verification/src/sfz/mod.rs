//! Sample instruments in the SFZ format.

pub mod engine;
pub mod file;
pub mod instrument;
pub mod laws;
pub mod lexer;
pub mod processor;
pub mod values;
