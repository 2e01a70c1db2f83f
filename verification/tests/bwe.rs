use babiniku::arith::{Real, Wide};
use babiniku::bwe::{Biquad, EnvFollower, Exciter, FirHighpass, Limiter, Upsampler3x};
use rustfft::num_complex::Complex32;
use rustfft::FftPlanner;

/// A single-precision sample.
#[derive(Clone, Copy, Debug, PartialEq)]
struct S(f32);

/// A double-precision number.
#[derive(Clone, Copy, Debug, PartialEq)]
struct D(f64);

impl Real for S {
    fn whole(n: i64) -> Self {
        S(n as f32)
    }
    fn count(n: usize) -> Self {
        S(n as f32)
    }
    fn fraction(n: i64, d: i64) -> Self {
        S((n as f64 / d as f64) as f32)
    }
    fn unranked(n: u64) -> Self {
        S(f32::from_bits(n as u32))
    }
    fn pi() -> Self {
        S(std::f32::consts::PI)
    }
    fn lowest() -> Self {
        S(f32::MIN)
    }
    fn plus(self, other: Self) -> Self {
        S(self.0 + other.0)
    }
    fn minus(self, other: Self) -> Self {
        S(self.0 - other.0)
    }
    fn times(self, other: Self) -> Self {
        S(self.0 * other.0)
    }
    fn over(self, other: Self) -> Self {
        S(self.0 / other.0)
    }
    fn larger(self, other: Self) -> Self {
        S(self.0.max(other.0))
    }
    fn smaller(self, other: Self) -> Self {
        S(self.0.min(other.0))
    }
    fn power(self, other: Self) -> Self {
        S(self.0.powf(other.0))
    }
    fn negated(self) -> Self {
        S(-self.0)
    }
    fn absolute(self) -> Self {
        S(self.0.abs())
    }
    fn sign(self) -> Self {
        S(self.0.signum())
    }
    fn fractional(self) -> Self {
        S(self.0.fract())
    }
    fn root(self) -> Self {
        S(self.0.sqrt())
    }
    fn sine(self) -> Self {
        S(self.0.sin())
    }
    fn cosine(self) -> Self {
        S(self.0.cos())
    }
    fn exponential(self) -> Self {
        S(self.0.exp())
    }
    fn logarithm(self) -> Self {
        S(self.0.ln())
    }
    fn decimal_logarithm(self) -> Self {
        S(self.0.log10())
    }
    fn tangent(self) -> Self {
        S(self.0.tanh())
    }
    fn below(self, other: Self) -> bool {
        self.0 < other.0
    }
    fn at_most(self, other: Self) -> bool {
        self.0 <= other.0
    }
    fn rank(self) -> u64 {
        self.0.abs().to_bits() as u64
    }
    fn floor(self) -> i64 {
        self.0.floor() as i64
    }
    fn ceiling(self) -> i64 {
        self.0.ceil() as i64
    }
    fn truncated(self) -> usize {
        self.0 as usize
    }
}

impl Real for D {
    fn whole(n: i64) -> Self {
        D(n as f64)
    }
    fn count(n: usize) -> Self {
        D(n as f64)
    }
    fn fraction(n: i64, d: i64) -> Self {
        D(n as f64 / d as f64)
    }
    fn unranked(n: u64) -> Self {
        D(f64::from_bits(n))
    }
    fn pi() -> Self {
        D(std::f64::consts::PI)
    }
    fn lowest() -> Self {
        D(f64::MIN)
    }
    fn plus(self, other: Self) -> Self {
        D(self.0 + other.0)
    }
    fn minus(self, other: Self) -> Self {
        D(self.0 - other.0)
    }
    fn times(self, other: Self) -> Self {
        D(self.0 * other.0)
    }
    fn over(self, other: Self) -> Self {
        D(self.0 / other.0)
    }
    fn larger(self, other: Self) -> Self {
        D(self.0.max(other.0))
    }
    fn smaller(self, other: Self) -> Self {
        D(self.0.min(other.0))
    }
    fn power(self, other: Self) -> Self {
        D(self.0.powf(other.0))
    }
    fn negated(self) -> Self {
        D(-self.0)
    }
    fn absolute(self) -> Self {
        D(self.0.abs())
    }
    fn sign(self) -> Self {
        D(self.0.signum())
    }
    fn fractional(self) -> Self {
        D(self.0.fract())
    }
    fn root(self) -> Self {
        D(self.0.sqrt())
    }
    fn sine(self) -> Self {
        D(self.0.sin())
    }
    fn cosine(self) -> Self {
        D(self.0.cos())
    }
    fn exponential(self) -> Self {
        D(self.0.exp())
    }
    fn logarithm(self) -> Self {
        D(self.0.ln())
    }
    fn decimal_logarithm(self) -> Self {
        D(self.0.log10())
    }
    fn tangent(self) -> Self {
        D(self.0.tanh())
    }
    fn below(self, other: Self) -> bool {
        self.0 < other.0
    }
    fn at_most(self, other: Self) -> bool {
        self.0 <= other.0
    }
    fn rank(self) -> u64 {
        self.0.abs().to_bits()
    }
    fn floor(self) -> i64 {
        self.0.floor() as i64
    }
    fn ceiling(self) -> i64 {
        self.0.ceil() as i64
    }
    fn truncated(self) -> usize {
        self.0 as usize
    }
}

impl Wide<S> for D {
    fn widened(x: S) -> Self {
        D(x.0 as f64)
    }
    fn narrowed(self) -> S {
        S(self.0 as f32)
    }
}

fn samples(x: &[f32]) -> Vec<S> {
    x.iter().map(|v| S(*v)).collect()
}

fn floats(x: &[S]) -> Vec<f32> {
    x.iter().map(|v| v.0).collect()
}
use std::f32::consts::PI;

const SR_IN: f32 = 16_000.0;
const SR_OUT: f32 = 48_000.0;

/// The upsampler on plain floats.
struct Up(Upsampler3x<S>);

impl Up {
    fn new() -> Self {
        Up(Upsampler3x::<S>::new::<D>())
    }
    fn process(&mut self, input: &[f32], output: &mut Vec<f32>) {
        let mut out: Vec<S> = samples(output);
        self.0.process(&samples(input), &mut out);
        *output = floats(&out);
    }
    fn latency_secs(&self) -> f32 {
        self.0.latency_secs().0
    }
}

/// The exciter on plain floats.
struct Ex(Exciter<S>);

impl Ex {
    fn new(rate: f32) -> Self {
        Ex(Exciter::<S>::new::<D>(S(rate)))
    }
    fn process(&mut self, x: &mut [f32], wet: f32) {
        let mut v = samples(x);
        self.0.process(&mut v, S(wet));
        x.copy_from_slice(&floats(&v));
    }
}

/// The limiter on plain floats.
struct Lim(Limiter<S>);

impl Lim {
    fn new(rate: f32, threshold: f32) -> Self {
        Lim(Limiter::new(S(rate), S(threshold)))
    }
    fn latency(&self) -> usize {
        self.0.latency()
    }
    fn process(&mut self, x: &mut [f32]) {
        let mut v = samples(x);
        self.0.process(&mut v);
        x.copy_from_slice(&floats(&v));
    }
}

fn sine(freq: f32, sr: f32, n: usize, amp: f32) -> Vec<f32> {
    (0..n)
        .map(|i| amp * (2.0 * PI * freq * i as f32 / sr).sin())
        .collect()
}

fn rms(x: &[f32]) -> f32 {
    (x.iter().map(|s| s * s).sum::<f32>() / x.len() as f32).sqrt()
}

/// Goertzel power of `x` at `freq` (Hann-windowed DFT bin magnitude).
fn tone_mag(x: &[f32], freq: f32, sr: f32) -> f32 {
    let n = x.len();
    let mut re = 0f64;
    let mut im = 0f64;
    for (i, &s) in x.iter().enumerate() {
        let w = 0.5 - 0.5 * (2.0 * std::f64::consts::PI * i as f64 / n as f64).cos();
        let ph = 2.0 * std::f64::consts::PI * freq as f64 * i as f64 / sr as f64;
        re += w * s as f64 * ph.cos();
        im += w * s as f64 * ph.sin();
    }
    ((re * re + im * im).sqrt() * 2.0 / n as f64) as f32
}

/// Word-onset regression: silence followed by
/// a burst must not inject a one-sample harmonic spike — the smoothed
/// gain has ~10 ms to rise, so the wet output may not jump faster than
/// the dry input by more than a small factor.
#[test]
fn exciter_onset_produces_no_click() {
    let mut ex = Ex::new(SR_OUT);
    let mut sig = vec![0.0f32; 4_800]; // 100 ms silence
    sig.extend(sine(5_000.0, SR_OUT, 9_600, 0.6)); // sudden voiced burst
    let dry = sig.clone();
    ex.process(&mut sig, 1.0);
    let added: Vec<f32> = sig.iter().zip(&dry).map(|(w, d)| w - d).collect();
    // Added high band within the first 2 ms of the onset stays small
    // relative to its steady-state level.
    let onset = rms(&added[4_800..4_896]);
    let steady = rms(&added[9_600..14_000]);
    assert!(
        onset < 0.35 * steady + 1e-6,
        "onset burst: {onset} vs steady {steady}"
    );
    // And in pure silence the wet branch adds nothing audible.
    assert!(rms(&added[..4_700]) < 1e-5);
}

/// Chunked processing must equal one-shot processing exactly — any
/// difference means per-chunk state loss, i.e. periodic clicks at hop
/// boundaries in live use.
#[test]
fn chunked_equals_oneshot_through_full_chain() {
    let sig: Vec<f32> = (0..48_000)
        .map(|i| {
            0.4 * (2.0 * PI * 4_500.0 * i as f32 / SR_OUT).sin()
                + 0.2 * (2.0 * PI * 6_300.0 * i as f32 / SR_OUT).sin()
        })
        .collect();
    // Identical warm-up on both instances settles the wet ramp
    // (prev_wet) and filter state before the comparison window.
    let warm = &sig[..11_520];
    let mut ex_a = Ex::new(SR_OUT);
    let mut w = warm.to_vec();
    ex_a.process(&mut w, 0.6);
    let mut a = sig[11_520..].to_vec();
    ex_a.process(&mut a, 0.6);
    let mut ex_b = Ex::new(SR_OUT);
    let mut w = warm.to_vec();
    ex_b.process(&mut w, 0.6);
    let mut b = sig[11_520..].to_vec();
    for chunk in b.chunks_mut(11_520) {
        ex_b.process(chunk, 0.6);
    }
    let d = a[11_520..]
        .iter()
        .zip(&b[11_520..])
        .map(|(x, y)| (x - y).abs())
        .fold(0f32, f32::max);
    assert!(d < 1e-6, "chunk-boundary state loss: max diff {d}");

    // Same for the upsampler.
    let x16: Vec<f32> = (0..16_000)
        .map(|i| 0.5 * (2.0 * PI * 3_000.0 * i as f32 / SR_IN).sin())
        .collect();
    let mut up1 = Up::new();
    let mut whole = Vec::new();
    up1.process(&x16, &mut whole);
    let mut up2 = Up::new();
    let mut parts = Vec::new();
    for c in x16.chunks(3_840) {
        let mut o = Vec::new();
        up2.process(c, &mut o);
        parts.extend(o);
    }
    let m = whole.len().min(parts.len());
    let du = whole[..m]
        .iter()
        .zip(&parts[..m])
        .map(|(x, y)| (x - y).abs())
        .fold(0f32, f32::max);
    assert!(du < 1e-6, "upsampler chunk-boundary loss: max diff {du}");
}

/// Sustained-vowel spike regression: with a vowel-like signal whose 3-8 kHz band is weak and
/// fluctuating, the envelope-matching gain must not turn band bursts
/// into high-band clicks. Bound the added band's crest factor.
#[test]
fn exciter_vowel_shimmer_produces_no_spikes() {
    // 250 Hz glottal-ish harmonic series with slow shimmer on the
    // upper partials (deterministic).
    let n = 48_000 * 3;
    let mut sig = vec![0f32; n];
    for h in 1..=30 {
        let f = 250.0 * h as f32;
        let a = 0.5 / h as f32;
        for (i, s) in sig.iter_mut().enumerate() {
            let t = i as f32 / SR_OUT;
            let shim = if f > 3_000.0 {
                0.5 + 0.5 * (2.0 * PI * (1.7 + 0.13 * h as f32) * t).sin()
            } else {
                1.0
            };
            *s += a * shim * (2.0 * PI * f * t).sin();
        }
    }
    let dry = sig.clone();
    let mut ex = Ex::new(SR_OUT);
    for c in sig.chunks_mut(11_520) {
        ex.process(c, 1.0);
    }
    let added: Vec<f32> = sig.iter().zip(&dry).map(|(w, d)| w - d).collect();
    // Envelope crest factor of the added band after settling.
    let tail = &added[24_000..];
    let fr = 96;
    let env: Vec<f32> = tail
        .chunks(fr)
        .map(|c| c.iter().fold(0f32, |m, &v| m.max(v.abs())))
        .collect();
    let mut sorted = env.clone();
    sorted.sort_by(f32::total_cmp);
    let med = sorted[sorted.len() / 2] + 1e-9;
    let crest = env.iter().fold(0f32, |m, &v| m.max(v)) / med;
    assert!(crest < 4.0, "high-band click crest factor {crest}");
}

#[test]
fn limiter_is_transparent_below_threshold() {
    let mut l = Lim::new(SR_OUT, 0.9);
    let sig = sine(440.0, SR_OUT, 9_600, 0.5);
    let mut out = sig.clone();
    l.process(&mut out);
    // Compare with the look-ahead delay compensated.
    let d = l.latency();
    let diff = out[d..]
        .iter()
        .zip(&sig[..sig.len() - d])
        .map(|(a, b)| (a - b).abs())
        .fold(0f32, f32::max);
    assert!(diff < 1e-6, "not transparent: {diff}");
}

#[test]
fn limiter_prevents_clipping_without_steps() {
    let mut l = Lim::new(SR_OUT, 0.9);
    // 0.5 sine with a 1.4x burst in the middle.
    let mut sig = sine(300.0, SR_OUT, 48_000, 0.5);
    for s in sig[16_000..20_000].iter_mut() {
        *s *= 2.8;
    }
    l.process(&mut sig);
    let peak = sig.iter().fold(0f32, |m, &v| m.max(v.abs()));
    assert!(peak <= 0.905, "peak {peak}");
    // Smooth gain: no added discontinuities.
    let dmax = sig.windows(2).map(|w| (w[1] - w[0]).abs()).fold(0f32, f32::max);
    assert!(dmax < 0.06, "step in limited output: {dmax}");
}

/// Energy of `x` in the band `[lo, hi)` Hz via FFT.
fn band_energy(x: &[f32], sr: f32, lo: f32, hi: f32) -> f32 {
    let n = x.len();
    let mut buf: Vec<Complex32> = x
        .iter()
        .enumerate()
        .map(|(i, &s)| {
            let w = 0.5 - 0.5 * (2.0 * PI * i as f32 / n as f32).cos();
            Complex32::new(s * w, 0.0)
        })
        .collect();
    FftPlanner::new().plan_fft_forward(n).process(&mut buf);
    let hz_per_bin = sr / n as f32;
    buf.iter()
        .take(n / 2)
        .enumerate()
        .filter(|(i, _)| {
            let f = *i as f32 * hz_per_bin;
            f >= lo && f < hi
        })
        .map(|(_, c)| c.norm_sqr())
        .sum()
}

// ------------------------------------------------------------------
// Upsampler3x

#[test]
fn upsampler_output_is_exactly_3x_len() {
    let mut up = Up::new();
    let mut out = Vec::new();
    up.process(&vec![0.25; 1234], &mut out);
    assert_eq!(out.len(), 3 * 1234);
}

#[test]
fn upsampler_passband_is_flat() {
    // Pass-band probes: gain must be 0 dB within ±0.1 dB.
    for freq in [500.0, 1_000.0, 2_000.0, 4_000.0, 6_000.0, 7_000.0] {
        let x = sine(freq, SR_IN, 16_000, 0.5);
        let mut up = Up::new();
        let mut y = Vec::new();
        up.process(&x, &mut y);
        // Skip the FIR warm-up on both signals, compare steady state.
        let xs = &x[2_000..14_000];
        let ys = &y[6_000..42_000];
        let gain_db = 20.0 * (rms(ys) / rms(xs)).log10();
        assert!(
            gain_db.abs() < 0.1,
            "{freq} Hz pass-band gain {gain_db:.3} dB"
        );
    }
}

#[test]
fn upsampler_rejects_images() {
    // A tone at f (≤ 7 kHz) images at 16k − f and 16k + f after
    // zero-stuffing; the prototype must crush them by ≥ 70 dB.
    for freq in [3_000.0f32, 5_000.0, 6_500.0] {
        let x = sine(freq, SR_IN, 16_000, 0.5);
        let mut up = Up::new();
        let mut y = Vec::new();
        up.process(&x, &mut y);
        let ys = &y[6_000..42_000];
        let fundamental = tone_mag(ys, freq, SR_OUT);
        for image in [16_000.0 - freq, 16_000.0 + freq] {
            let img = tone_mag(ys, image, SR_OUT);
            let rej_db = 20.0 * (img / fundamental).log10();
            assert!(
                rej_db < -70.0,
                "{freq} Hz image at {image} Hz only {rej_db:.1} dB down"
            );
        }
    }
}

#[test]
fn upsampler_streaming_matches_batch() {
    // Chunked processing must be bit-identical to one-shot.
    let x: Vec<f32> = (0..4_800)
        .map(|i| ((i * 2654435761u64 as usize) % 1000) as f32 / 500.0 - 1.0)
        .collect();
    let mut up1 = Up::new();
    let mut batch = Vec::new();
    up1.process(&x, &mut batch);
    let mut up2 = Up::new();
    let mut streamed = Vec::new();
    for chunk in x.chunks(160) {
        up2.process(chunk, &mut streamed);
    }
    assert_eq!(batch, streamed);
}

#[test]
fn upsampler_latency_is_under_10ms() {
    let up = Up::new();
    assert!(up.latency_secs() < 0.010, "{}", up.latency_secs());
    // Measured: the impulse response peak sits at the reported group
    // delay.
    let mut up = Up::new();
    let mut imp = vec![0f32; 400];
    imp[0] = 1.0;
    let mut y = Vec::new();
    up.process(&imp, &mut y);
    let peak = y
        .iter()
        .enumerate()
        .max_by(|a, b| a.1.abs().total_cmp(&b.1.abs()))
        .unwrap()
        .0;
    let measured = peak as f32 / SR_OUT;
    assert!(measured < 0.010, "measured latency {measured} s");
    assert!((measured - up.latency_secs()).abs() < 0.001);
}

// ------------------------------------------------------------------
// Exciter

/// A speech-band-ish test signal at 48 kHz: sines inside the 3–8 kHz
/// source band plus a low-frequency component.
fn source_signal(n: usize) -> Vec<f32> {
    (0..n)
        .map(|i| {
            let t = i as f32 / SR_OUT;
            0.3 * (2.0 * PI * 400.0 * t).sin()
                + 0.2 * (2.0 * PI * 3_500.0 * t).sin()
                + 0.2 * (2.0 * PI * 5_000.0 * t).sin()
                + 0.2 * (2.0 * PI * 6_500.0 * t).sin()
        })
        .collect()
}

#[test]
fn exciter_wet_zero_is_bit_exact_bypass() {
    let x = source_signal(48_000);
    let mut y = x.clone();
    Ex::new(SR_OUT).process(&mut y, 0.0);
    assert_eq!(x, y);
}

#[test]
fn exciter_at_zero_after_zero_is_a_bypass() {
    let x = source_signal(9_600);
    let mut ex = Ex::new(SR_OUT);
    for amount in [0.0, -0.0, -0.3, 0.0] {
        let mut y = x.clone();
        ex.process(&mut y, amount);
        assert_eq!(x, y);
    }
    // After another amount the high band fades out over the chunk, and is gone in the next one.
    let mut y = x.clone();
    ex.process(&mut y, 0.6);
    let mut y = x.clone();
    ex.process(&mut y, 0.0);
    assert_ne!(x, y);
    let mut y = x.clone();
    ex.process(&mut y, 0.0);
    assert_eq!(x, y);
}

#[test]
fn exciter_populates_the_high_band() {
    let x = source_signal(96_000);
    let mut dry = x.clone();
    Ex::new(SR_OUT).process(&mut dry, 0.0);
    let mut wet = x.clone();
    Ex::new(SR_OUT).process(&mut wet, 0.6);
    // Steady state only.
    let dry_hi = band_energy(&dry[24_000..], SR_OUT, 8_000.0, 16_000.0);
    let wet_hi = band_energy(&wet[24_000..], SR_OUT, 8_000.0, 16_000.0);
    let src = band_energy(&x[24_000..], SR_OUT, 3_000.0, 8_000.0);
    // Input has essentially nothing above 8 kHz…
    assert!(dry_hi < 1e-6 * src, "dry high band {dry_hi} vs src {src}");
    // …and the exciter puts real energy there (> −30 dB re: source
    // band at wet 0.6).
    assert!(
        wet_hi > 1e-3 * src,
        "wet high band {wet_hi} vs src {src} ({:.1} dB)",
        10.0 * (wet_hi / src).log10()
    );
}

#[test]
fn exciter_leaves_the_low_band_unchanged() {
    let x = source_signal(96_000);
    let mut wet = x.clone();
    Ex::new(SR_OUT).process(&mut wet, 1.0);
    let lo_in = band_energy(&x[24_000..], SR_OUT, 0.0, 7_000.0);
    let lo_out = band_energy(&wet[24_000..], SR_OUT, 0.0, 7_000.0);
    let diff_db = 10.0 * (lo_out / lo_in).log10();
    assert!(
        diff_db.abs() < 0.05,
        "0–7 kHz band changed by {diff_db:.3} dB at wet 1.0"
    );
}

#[test]
fn exciter_leakage_below_the_passband_edge_is_negligible() {
    // Everything the exciter adds below the upsampler's pass-band
    // edge (≈7.4 kHz) must be at least 60 dB below the dry content
    // there, so the 0–8 kHz conversion output stays measurably
    // unchanged. Note the rectifier
    // lands products **inside** this region (e.g. 2×3.5 kHz = 7 kHz,
    // 5 − 3.5 kHz intermodulation), so this bounds the harmonic
    // high-pass stop-band, not just roll-off.
    let x = source_signal(96_000);
    let mut wet = x.clone();
    Ex::new(SR_OUT).process(&mut wet, 1.0);
    let diff: Vec<f32> = x.iter().zip(&wet).map(|(a, b)| b - a).collect();
    let leak = band_energy(&diff[24_000..], SR_OUT, 0.0, 7_400.0);
    let dry = band_energy(&x[24_000..], SR_OUT, 0.0, 7_400.0);
    assert!(
        leak < 1e-6 * dry,
        "sub-7.4 kHz leakage only {:.1} dB below the dry content",
        10.0 * (dry / leak).log10()
    );
}

#[test]
fn exciter_is_causal_and_latency_free() {
    // Outputs up to sample k depend only on inputs up to sample k.
    let a = source_signal(48_000);
    let mut b = a.clone();
    for s in &mut b[24_000..] {
        *s = -*s;
    }
    let mut ya = a.clone();
    Ex::new(SR_OUT).process(&mut ya, 0.8);
    let mut yb = b.clone();
    Ex::new(SR_OUT).process(&mut yb, 0.8);
    assert_eq!(&ya[..24_000], &yb[..24_000]);
    assert_ne!(&ya[24_000..24_100], &yb[24_000..24_100]);
}

#[test]
fn exciter_silence_stays_silent() {
    let mut x = vec![0f32; 48_000];
    Ex::new(SR_OUT).process(&mut x, 1.0);
    assert!(x.iter().all(|s| s.abs() < 1e-6 && s.is_finite()));
}

#[test]
fn biquads_pass_and_stop() {
    // A low-pass lets a constant through, a high-pass does not.
    let mut lp = Biquad::lowpass(S(48_000.0), S(8_000.0), S(0.7));
    let mut hp = Biquad::highpass(S(48_000.0), S(8_000.0), S(0.7));
    let (mut l, mut h) = (0.0, 0.0);
    for _ in 0..2_000 {
        l = lp.tick(S(1.0)).0;
        h = hp.tick(S(1.0)).0;
    }
    assert!((l - 1.0).abs() < 1e-4, "{l}");
    assert!(h.abs() < 1e-4, "{h}");
}

#[test]
fn envelope_follows_the_absolute_value() {
    let mut e = EnvFollower::new(S(48_000.0), S(0.001), S(0.001));
    let first = e.tick(S(-1.0)).0;
    // One step of the share 1 - exp(-1 / 48).
    assert!((first - (1.0 - (-1.0f32 / 48.0).exp())).abs() < 1e-6, "{first}");
    let mut last = first;
    for _ in 0..4_800 {
        last = e.tick(S(-1.0)).0;
    }
    assert!((last - 1.0).abs() < 1e-4);
}

#[test]
fn steep_highpass_blocks_a_constant() {
    let mut f = FirHighpass::new::<D>(S(48_000.0), S(8_000.0), 101, S(7.0));
    let mut y = 1.0;
    for _ in 0..300 {
        y = f.tick(S(1.0)).0;
    }
    assert!(y.abs() < 1e-3, "{y}");
}

#[test]
fn limiting_in_chunks_is_limiting_at_once() {
    let mut sig = sine(300.0, SR_OUT, 9_600, 0.5);
    for s in sig[3_000..4_000].iter_mut() {
        *s *= 2.8;
    }
    let mut one = sig.clone();
    Lim::new(SR_OUT, 0.9).process(&mut one);
    let mut l = Lim::new(SR_OUT, 0.9);
    for c in sig.chunks_mut(777) {
        l.process(c);
    }
    assert_eq!(one, sig);
}

#[test]
fn limiter_only_delays_quiet_samples() {
    let mut l = Lim::new(SR_OUT, 0.9);
    let d = l.latency();
    let sig: Vec<f32> = (0..2_000).map(|i| ((i * 37) % 100) as f32 / 200.0).collect();
    let mut out = sig.clone();
    l.process(&mut out);
    assert!(d > 0);
    assert_eq!(&out[d..], &sig[..sig.len() - d]);
}
