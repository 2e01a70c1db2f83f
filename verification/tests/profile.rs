use babiniku::arith::{Real, Wide};
use babiniku::fourier::{Complex, Transform};
use babiniku::profile::{
    design_fir, resample_analysis, smooth_third_octave, Ltas, ProfileEq, N_BINS, N_FFT, RATE,
};
use rustfft::num_complex::Complex64;
use rustfft::{Fft, FftPlanner};
use std::sync::Arc;

/// A single-precision sample.
#[derive(Clone, Copy, Debug, PartialEq)]
struct S(f32);

/// A double-precision number.
#[derive(Clone, Copy, Debug, PartialEq)]
struct D(f64);

impl Real for S {
    fn whole(n: i64) -> Self {
        S(n as f32)
    }
    fn count(n: usize) -> Self {
        S(n as f32)
    }
    fn fraction(n: i64, d: i64) -> Self {
        S((n as f64 / d as f64) as f32)
    }
    fn unranked(n: u64) -> Self {
        S(f32::from_bits(n as u32))
    }
    fn pi() -> Self {
        S(std::f32::consts::PI)
    }
    fn lowest() -> Self {
        S(f32::MIN)
    }
    fn plus(self, other: Self) -> Self {
        S(self.0 + other.0)
    }
    fn minus(self, other: Self) -> Self {
        S(self.0 - other.0)
    }
    fn times(self, other: Self) -> Self {
        S(self.0 * other.0)
    }
    fn over(self, other: Self) -> Self {
        S(self.0 / other.0)
    }
    fn larger(self, other: Self) -> Self {
        S(self.0.max(other.0))
    }
    fn smaller(self, other: Self) -> Self {
        S(self.0.min(other.0))
    }
    fn power(self, other: Self) -> Self {
        S(self.0.powf(other.0))
    }
    fn negated(self) -> Self {
        S(-self.0)
    }
    fn absolute(self) -> Self {
        S(self.0.abs())
    }
    fn sign(self) -> Self {
        S(self.0.signum())
    }
    fn fractional(self) -> Self {
        S(self.0.fract())
    }
    fn root(self) -> Self {
        S(self.0.sqrt())
    }
    fn sine(self) -> Self {
        S(self.0.sin())
    }
    fn cosine(self) -> Self {
        S(self.0.cos())
    }
    fn exponential(self) -> Self {
        S(self.0.exp())
    }
    fn logarithm(self) -> Self {
        S(self.0.ln())
    }
    fn decimal_logarithm(self) -> Self {
        S(self.0.log10())
    }
    fn tangent(self) -> Self {
        S(self.0.tanh())
    }
    fn below(self, other: Self) -> bool {
        self.0 < other.0
    }
    fn at_most(self, other: Self) -> bool {
        self.0 <= other.0
    }
    fn rank(self) -> u64 {
        self.0.abs().to_bits() as u64
    }
    fn floor(self) -> i64 {
        self.0.floor() as i64
    }
    fn ceiling(self) -> i64 {
        self.0.ceil() as i64
    }
    fn truncated(self) -> usize {
        self.0 as usize
    }
}

impl Real for D {
    fn whole(n: i64) -> Self {
        D(n as f64)
    }
    fn count(n: usize) -> Self {
        D(n as f64)
    }
    fn fraction(n: i64, d: i64) -> Self {
        D(n as f64 / d as f64)
    }
    fn unranked(n: u64) -> Self {
        D(f64::from_bits(n))
    }
    fn pi() -> Self {
        D(std::f64::consts::PI)
    }
    fn lowest() -> Self {
        D(f64::MIN)
    }
    fn plus(self, other: Self) -> Self {
        D(self.0 + other.0)
    }
    fn minus(self, other: Self) -> Self {
        D(self.0 - other.0)
    }
    fn times(self, other: Self) -> Self {
        D(self.0 * other.0)
    }
    fn over(self, other: Self) -> Self {
        D(self.0 / other.0)
    }
    fn larger(self, other: Self) -> Self {
        D(self.0.max(other.0))
    }
    fn smaller(self, other: Self) -> Self {
        D(self.0.min(other.0))
    }
    fn power(self, other: Self) -> Self {
        D(self.0.powf(other.0))
    }
    fn negated(self) -> Self {
        D(-self.0)
    }
    fn absolute(self) -> Self {
        D(self.0.abs())
    }
    fn sign(self) -> Self {
        D(self.0.signum())
    }
    fn fractional(self) -> Self {
        D(self.0.fract())
    }
    fn root(self) -> Self {
        D(self.0.sqrt())
    }
    fn sine(self) -> Self {
        D(self.0.sin())
    }
    fn cosine(self) -> Self {
        D(self.0.cos())
    }
    fn exponential(self) -> Self {
        D(self.0.exp())
    }
    fn logarithm(self) -> Self {
        D(self.0.ln())
    }
    fn decimal_logarithm(self) -> Self {
        D(self.0.log10())
    }
    fn tangent(self) -> Self {
        D(self.0.tanh())
    }
    fn below(self, other: Self) -> bool {
        self.0 < other.0
    }
    fn at_most(self, other: Self) -> bool {
        self.0 <= other.0
    }
    fn rank(self) -> u64 {
        self.0.abs().to_bits()
    }
    fn floor(self) -> i64 {
        self.0.floor() as i64
    }
    fn ceiling(self) -> i64 {
        self.0.ceil() as i64
    }
    fn truncated(self) -> usize {
        self.0 as usize
    }
}

impl Wide<S> for D {
    fn widened(x: S) -> Self {
        D(x.0 as f64)
    }
    fn narrowed(self) -> S {
        S(self.0 as f32)
    }
}

fn samples(x: &[f32]) -> Vec<S> {
    x.iter().map(|v| S(*v)).collect()
}

fn floats(x: &[S]) -> Vec<f32> {
    x.iter().map(|v| v.0).collect()
}

/// A transform of double-precision frames of one length.
struct Fft64(Arc<dyn Fft<f64>>);

impl Fft64 {
    fn forward(n: usize) -> Self {
        Fft64(FftPlanner::new().plan_fft_forward(n))
    }
    fn inverse(n: usize) -> Self {
        Fft64(FftPlanner::new().plan_fft_inverse(n))
    }
}

impl Transform<D> for Fft64 {
    fn apply(&self, frame: &Vec<Complex<D>>) -> Vec<Complex<D>> {
        let mut b: Vec<Complex64> = frame.iter().map(|c| Complex64::new(c.re.0, c.im.0)).collect();
        self.0.process(&mut b);
        b.iter().map(|c| Complex { re: D(c.re), im: D(c.im) }).collect()
    }
}

/// The most that a design may boost or cut.
const CLAMP_DB: f64 = 10.0;

/// The equalizer on plain floats.
struct Eq48(ProfileEq<S, D>, Fft64, Fft64);

impl Eq48 {
    fn new(reference: &[f32], rate: f32) -> Self {
        let fft = Fft64::forward(N_FFT);
        let eq = ProfileEq::new(&samples(reference), S(rate), &fft);
        Eq48(eq, fft, Fft64::inverse(N_FFT))
    }
    fn latency(&self) -> usize {
        self.0.latency()
    }
    fn observe(&mut self, x: &[f32]) {
        self.0.observe(&samples(x), &self.1, &self.2);
    }
    fn process(&mut self, x: &mut [f32], wet: f32) {
        let mut v = samples(x);
        self.0.process(&mut v, S(wet));
        x.copy_from_slice(&floats(&v));
    }
    fn taps(&self) -> Vec<f32> {
        floats(&self.0.taps)
    }
}

fn noise(n: usize, seed: u64) -> Vec<f32> {
    let mut rng = seed;
    (0..n)
        .map(|_| {
            rng ^= rng >> 12;
            rng ^= rng << 25;
            rng ^= rng >> 27;
            ((rng.wrapping_mul(0x2545_F491_4F6C_DD1D) >> 40) as f32 / (1u64 << 24) as f32
                - 0.5)
                * 0.2
        })
        .collect()
}

/// Simple one-pole low-pass to colour a signal.
fn lowpassed(x: &[f32], a: f32) -> Vec<f32> {
    let mut y = Vec::with_capacity(x.len());
    let mut s = 0f32;
    for &v in x {
        s += a * (v - s);
        y.push(s);
    }
    y
}

#[test]
fn bypass_is_delay_only() {
    let x = noise(48_000, 7);
    let mut eq = Eq48::new(&x, 48_000.0);
    let mut y = x.clone();
    eq.process(&mut y, 0.0);
    let d = eq.latency();
    for i in 0..x.len() - d {
        assert_eq!(y[i + d], x[i], "bypass altered sample {i}");
    }
}

#[test]
fn converges_towards_reference_colouration() {
    // Reference = bright noise; output = the same noise low-passed.
    // The EQ must recover most of the lost high band.
    let bright = noise(48_000 * 4, 1);
    let dull = lowpassed(&bright, 0.25);
    let mut eq = Eq48::new(&bright, 48_000.0);
    // ~16 s of observation = several rebuilds; the slew converges to
    // >80 % of the design.
    for _ in 0..4 {
        for c in dull.chunks(4_800) {
            eq.observe(c);
        }
    }
    let mut out = dull.clone();
    eq.process(&mut out, 1.0);
    let band = |y: &[f32], lo: f64, hi: f64| -> f64 {
        let mut planner = FftPlanner::new();
        let fft = planner.plan_fft_forward(N_FFT);
        let mut acc = 0.0;
        let mut cnt = 0;
        for f in y.chunks_exact(N_FFT) {
            let mut b: Vec<Complex64> =
                f.iter().map(|&s| Complex64::new(s as f64, 0.0)).collect();
            fft.process(&mut b);
            for k in 0..N_BINS {
                let fr = k as f64 * RATE as f64 / N_FFT as f64;
                if fr >= lo && fr < hi {
                    acc += b[k].norm_sqr();
                    cnt += 1;
                }
            }
        }
        10.0 * (acc / cnt as f64).log10()
    };
    let deficit_before = band(&bright, 6_000.0, 11_000.0) - band(&dull, 6_000.0, 11_000.0);
    let deficit_after = band(&bright, 6_000.0, 11_000.0) - band(&out, 6_000.0, 11_000.0);
    println!("6-11k deficit: before {deficit_before:.1} dB, after {deficit_after:.1} dB");
    assert!(
        deficit_after < deficit_before - 5.0,
        "EQ did not recover the high band: {deficit_before:.1} -> {deficit_after:.1} dB"
    );
    // The clamp bounds how much a single stage may do.
    assert!(deficit_after > deficit_before - 2.0 - CLAMP_DB);
}

#[test]
fn silence_never_updates() {
    let x = noise(48_000, 3);
    let mut eq = Eq48::new(&x, 48_000.0);
    let before = eq.taps();
    eq.observe(&vec![0.0; 48_000 * 4]);
    assert_eq!(eq.taps(), before, "silence moved the coefficients");
}

#[test]
fn profile_chunked_equals_oneshot() {
    let x = noise(19_200, 9);
    let mk = || {
        let mut eq = Eq48::new(&noise(48_000, 1), 48_000.0);
        // Force a non-trivial response.
        for c in lowpassed(&noise(48_000 * 4, 2), 0.3).chunks(4_800) {
            eq.observe(c);
        }
        eq
    };
    let mut a = mk();
    let mut one = x.clone();
    a.process(&mut one, 1.0);
    let mut b = mk();
    let mut chunked = Vec::new();
    for c in x.chunks(1_536) {
        let mut c = c.to_vec();
        b.process(&mut c, 1.0);
        chunked.extend(c);
    }
    let d = one
        .iter()
        .zip(&chunked)
        .map(|(p, q)| (p - q).abs())
        .fold(0f32, f32::max);
    assert!(d < 1e-6, "chunked mismatch {d}");
}

#[test]
fn resampling_keeps_length_ratio_and_level() {
    let x = samples(&vec![0.5; 1_600]);
    let y = resample_analysis::<S, D>(&x, 16_000, 48_000);
    assert_eq!(y.len(), 4_800);
    assert!((y[2_400].0 - 0.5).abs() < 1e-3, "{}", y[2_400].0);
    let z = resample_analysis::<S, D>(&x, 16_000, 16_000);
    assert_eq!(z, x);
    assert_eq!(resample_analysis::<S, D>(&x, 48_000, 44_100).len(), 1_600 * 147 / 160);
}

#[test]
fn spectra_are_fed_in_any_portions() {
    let fft = Fft64::forward(N_FFT);
    let x = samples(&noise(20_000, 5));
    let mut a: Ltas<S, D> = Ltas::new(S(0.0));
    a.feed(&x, &fft);
    let mut b: Ltas<S, D> = Ltas::new(S(0.0));
    for c in x.chunks(777) {
        b.feed(c, &fft);
    }
    assert_eq!(a.frames(), b.frames());
    assert!(a.frames() > 0);
    assert_eq!(a.db().unwrap(), b.db().unwrap());
    // Nothing that is too quiet is heard.
    let mut q: Ltas<S, D> = Ltas::new(S(0.5));
    q.feed(&x, &fft);
    assert_eq!(q.frames(), 0);
    assert!(q.db().is_none());
}

#[test]
fn flat_spectra_stay_flat() {
    let flat = vec![D(-20.0); N_BINS];
    for v in smooth_third_octave(&flat) {
        assert!((v.0 + 20.0).abs() < 1e-9);
    }
    let taps: Vec<S> = design_fir(&vec![D(0.0); N_BINS], &Fft64::inverse(N_FFT));
    let sum: f32 = taps.iter().map(|t| t.0).sum();
    assert!((sum - 1.0).abs() < 1e-3, "{sum}");
}
