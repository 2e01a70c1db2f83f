//! The MeanVC engine.

pub mod card;
pub mod ecapa;
pub mod embed;
pub mod fbank;
pub mod frc;
pub mod meanflow;
pub mod mel;
pub mod streaming;
pub mod vocos;
