//! CLAP plugins: where they are found, what they say of themselves, and the
//! cache that spares loading them again.

pub mod bundle;
pub mod cache;
pub mod discover;
pub mod laws;
pub mod listing;
pub mod times;
