//! The Seed-VC engine.

pub mod dit;
pub mod pipeline;
pub mod stream;
pub mod whisper;
