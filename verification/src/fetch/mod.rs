//! Fetching checkpoints: the command line, what is downloaded and how it is converted.

pub mod args;
pub mod fold;
pub mod names;
pub mod npy;
pub mod steps;
