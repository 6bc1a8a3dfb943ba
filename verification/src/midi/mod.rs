//! MIDI messages: reading them from bytes, handing them on, showing them.

pub mod listing;
pub mod message;
