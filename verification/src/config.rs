//! Configuration of the mel analysis.

use vstd::prelude::*;
use crate::arith;
use crate::arith::Real;

verus! {

/// Settings of a mel analysis.
#[derive(Clone, Copy)]
pub struct MelConfig<T: Real> {
    /// Samples per second.
    pub sample_rate: usize,
    /// Length of the transform.
    pub n_fft: usize,
    /// Samples from frame to frame.
    pub hop_length: usize,
    /// Length of the window.
    pub win_length: usize,
    /// Number of mel bands.
    pub n_mels: usize,
    /// Lower edge of the lowest band in hertz.
    pub f_min: T,
    /// Upper edge of the highest band in hertz.
    pub f_max: T,
}

impl<T: Real> Default for MelConfig<T> {
    /// 80 bands up to 8 kHz of 40 ms windows every 10 ms at 16 kHz.
    fn default() -> (c: Self)
        ensures
            c.sample_rate == 16_000,
            c.n_fft == 1024,
            c.hop_length == 160,
            c.win_length == 640,
            c.n_mels == 80,
            arith::deterministic::<T>() ==> c.f_min == arith::whole::<T>(0),
            arith::deterministic::<T>() ==> c.f_max == arith::whole::<T>(8_000),
    {
        MelConfig {
            sample_rate: 16_000,
            n_fft: 1024,
            hop_length: 160,
            win_length: 640,
            n_mels: 80,
            f_min: T::whole(0),
            f_max: T::whole(8_000),
        }
    }
}

} // verus!
