//! Folder diffs: classification of two directory trees into a manifest, a chunked
//! delta codec over a reference-prefix compressor, and the container that holds both.

pub mod applying;
pub mod common;
pub mod compress;
pub mod container;
pub mod diffing;
pub mod hash;
pub mod manifest;
pub mod reporting;
pub mod upgrade;
pub mod verify;
pub mod zstddiff;
