//! The CosyVoice engine.

pub mod campplus;
pub mod encoder;
pub mod flow;
pub mod hift;
pub mod mel;
pub mod stream;
pub mod tokenizer;
pub mod unet;
