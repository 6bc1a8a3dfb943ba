//! Shows: songs, their patches, the rig, and the documents that hold them.

pub mod document;
pub mod laws;
pub mod rig_laws;
pub mod types;
pub mod validate;
