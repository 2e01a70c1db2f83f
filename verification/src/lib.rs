pub mod arith;
pub mod audio;
mod buffers;
pub mod buildinfo;
pub mod bwe;
pub mod ckpt;
pub mod config;
pub mod cosyvoice;
pub mod declick;
pub mod encoders;
pub mod error;
pub mod fetch;
pub mod fir;
pub mod fourier;
pub mod meanvc;
pub mod mel;
pub mod ode;
pub mod overlap;
pub mod plan;
pub mod profile;
pub mod ratio;
pub mod rng;
pub mod scan;
pub mod seedvc;
pub mod spectra;
pub mod text;
