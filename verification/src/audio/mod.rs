//! The audio backends: the queue between a device and the pipeline, and what each backend
//! decides.

pub mod cpal_backend;
pub mod pulse;
pub mod ring;
