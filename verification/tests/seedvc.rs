use babiniku::arith::{Real, Wide};
use babiniku::audio::ring::{downmix, from_i16, from_u16, to_i16};
use babiniku::fourier::{Complex, Transform};
use babiniku::rng::Rng;
use babiniku::seedvc::dit::{
    reflect_pad2, rope_tables, skip_schedule, time_frequencies, time_steps,
};
use babiniku::seedvc::pipeline::{gcd, resample, resample_width};
use babiniku::seedvc::stream::{cap_reference, feature_tail, to_output, SeedVcStream, StreamConfig};
use babiniku::seedvc::whisper::{feature_count, load_plan, log_mel};
use rustfft::num_complex::Complex64;
use rustfft::{Fft, FftPlanner};
use std::sync::Arc;

/// A single-precision sample.
#[derive(Clone, Copy, Debug, PartialEq)]
struct S(f32);

/// A double-precision number.
#[derive(Clone, Copy, Debug, PartialEq)]
struct D(f64);

impl Real for S {
    fn whole(n: i64) -> Self {
        S(n as f32)
    }
    fn count(n: usize) -> Self {
        S(n as f32)
    }
    fn fraction(n: i64, d: i64) -> Self {
        S((n as f64 / d as f64) as f32)
    }
    fn unranked(n: u64) -> Self {
        S(f32::from_bits(n as u32))
    }
    fn pi() -> Self {
        S(std::f32::consts::PI)
    }
    fn lowest() -> Self {
        S(f32::MIN)
    }
    fn plus(self, other: Self) -> Self {
        S(self.0 + other.0)
    }
    fn minus(self, other: Self) -> Self {
        S(self.0 - other.0)
    }
    fn times(self, other: Self) -> Self {
        S(self.0 * other.0)
    }
    fn over(self, other: Self) -> Self {
        S(self.0 / other.0)
    }
    fn larger(self, other: Self) -> Self {
        S(self.0.max(other.0))
    }
    fn smaller(self, other: Self) -> Self {
        S(self.0.min(other.0))
    }
    fn power(self, other: Self) -> Self {
        S(self.0.powf(other.0))
    }
    fn negated(self) -> Self {
        S(-self.0)
    }
    fn absolute(self) -> Self {
        S(self.0.abs())
    }
    fn sign(self) -> Self {
        S(self.0.signum())
    }
    fn fractional(self) -> Self {
        S(self.0.fract())
    }
    fn root(self) -> Self {
        S(self.0.sqrt())
    }
    fn sine(self) -> Self {
        S(self.0.sin())
    }
    fn cosine(self) -> Self {
        S(self.0.cos())
    }
    fn exponential(self) -> Self {
        S(self.0.exp())
    }
    fn logarithm(self) -> Self {
        S(self.0.ln())
    }
    fn decimal_logarithm(self) -> Self {
        S(self.0.log10())
    }
    fn tangent(self) -> Self {
        S(self.0.tanh())
    }
    fn below(self, other: Self) -> bool {
        self.0 < other.0
    }
    fn at_most(self, other: Self) -> bool {
        self.0 <= other.0
    }
    fn rank(self) -> u64 {
        self.0.abs().to_bits() as u64
    }
    fn floor(self) -> i64 {
        self.0.floor() as i64
    }
    fn ceiling(self) -> i64 {
        self.0.ceil() as i64
    }
    fn truncated(self) -> usize {
        self.0 as usize
    }
}

impl Real for D {
    fn whole(n: i64) -> Self {
        D(n as f64)
    }
    fn count(n: usize) -> Self {
        D(n as f64)
    }
    fn fraction(n: i64, d: i64) -> Self {
        D(n as f64 / d as f64)
    }
    fn unranked(n: u64) -> Self {
        D(f64::from_bits(n))
    }
    fn pi() -> Self {
        D(std::f64::consts::PI)
    }
    fn lowest() -> Self {
        D(f64::MIN)
    }
    fn plus(self, other: Self) -> Self {
        D(self.0 + other.0)
    }
    fn minus(self, other: Self) -> Self {
        D(self.0 - other.0)
    }
    fn times(self, other: Self) -> Self {
        D(self.0 * other.0)
    }
    fn over(self, other: Self) -> Self {
        D(self.0 / other.0)
    }
    fn larger(self, other: Self) -> Self {
        D(self.0.max(other.0))
    }
    fn smaller(self, other: Self) -> Self {
        D(self.0.min(other.0))
    }
    fn power(self, other: Self) -> Self {
        D(self.0.powf(other.0))
    }
    fn negated(self) -> Self {
        D(-self.0)
    }
    fn absolute(self) -> Self {
        D(self.0.abs())
    }
    fn sign(self) -> Self {
        D(self.0.signum())
    }
    fn fractional(self) -> Self {
        D(self.0.fract())
    }
    fn root(self) -> Self {
        D(self.0.sqrt())
    }
    fn sine(self) -> Self {
        D(self.0.sin())
    }
    fn cosine(self) -> Self {
        D(self.0.cos())
    }
    fn exponential(self) -> Self {
        D(self.0.exp())
    }
    fn logarithm(self) -> Self {
        D(self.0.ln())
    }
    fn decimal_logarithm(self) -> Self {
        D(self.0.log10())
    }
    fn tangent(self) -> Self {
        D(self.0.tanh())
    }
    fn below(self, other: Self) -> bool {
        self.0 < other.0
    }
    fn at_most(self, other: Self) -> bool {
        self.0 <= other.0
    }
    fn rank(self) -> u64 {
        self.0.abs().to_bits()
    }
    fn floor(self) -> i64 {
        self.0.floor() as i64
    }
    fn ceiling(self) -> i64 {
        self.0.ceil() as i64
    }
    fn truncated(self) -> usize {
        self.0 as usize
    }
}

impl Wide<S> for D {
    fn widened(x: S) -> Self {
        D(x.0 as f64)
    }
    fn narrowed(self) -> S {
        S(self.0 as f32)
    }
}

fn samples(x: &[f32]) -> Vec<S> {
    x.iter().map(|v| S(*v)).collect()
}

fn floats(x: &[S]) -> Vec<f32> {
    x.iter().map(|v| v.0).collect()
}

/// A transform of double-precision frames of one length.
struct Fft64(Arc<dyn Fft<f64>>);

impl Fft64 {
    fn forward(n: usize) -> Self {
        Fft64(FftPlanner::new().plan_fft_forward(n))
    }
}

impl Transform<D> for Fft64 {
    fn apply(&self, frame: &Vec<Complex<D>>) -> Vec<Complex<D>> {
        let mut b: Vec<Complex64> = frame.iter().map(|c| Complex64::new(c.re.0, c.im.0)).collect();
        self.0.process(&mut b);
        b.iter().map(|c| Complex { re: D(c.re), im: D(c.im) }).collect()
    }
}

#[test]
fn divisors() {
    assert_eq!(gcd(48_000, 22_050), 150);
    assert_eq!(gcd(7, 0), 7);
    assert_eq!(gcd(0, 0), 0);
}

#[test]
fn resampling_keeps_a_constant() {
    let x = samples(&vec![0.5; 2_205]);
    let y = resample::<S, D>(&x, 22_050, 16_000);
    assert_eq!(y.len(), 1_600);
    assert!((y[800].0 - 0.5).abs() < 5e-3, "{}", y[800].0);
    let w = resample_width::<S, D>(&x, 22_050, 48_000, 32);
    assert_eq!(w.len(), 4_800);
    assert!((w[2_400].0 - 0.5).abs() < 5e-3);
}

#[test]
fn log_mels_fill_thirty_seconds() {
    let x: Vec<S> = (0..16_000).map(|i| S((i as f32 * 0.2).sin() * 0.4)).collect();
    let m = log_mel::<S, D, Fft64>(&x, &Fft64::forward(400));
    assert_eq!((m.len(), m[0].len()), (80, 3_000));
    let top = m.iter().flatten().map(|v| v.0).fold(f32::MIN, f32::max);
    let low = m.iter().flatten().map(|v| v.0).fold(f32::MAX, f32::min);
    // Values span at most eight decades, which are scaled to two.
    assert!(top - low <= 2.0 + 1e-5, "{top} {low}");
    assert_eq!(feature_count(16_000), 51);
}

#[test]
fn log_mels_are_of_half_a_minute() {
    let mut x: Vec<S> = (0..8_000).map(|i| S((i as f32 * 0.3).sin() * 0.2)).collect();
    let short = log_mel::<S, D, Fft64>(&x, &Fft64::forward(400));
    x.resize(480_000, S(0.0));
    x.extend((0..1_000).map(|i| S(i as f32 * 0.001)));
    let long = log_mel::<S, D, Fft64>(&x, &Fft64::forward(400));
    assert_eq!(short, long);
}

#[test]
fn whisper_layers() {
    let p = load_plan();
    assert_eq!(p.layers.len(), 12);
    assert_eq!((p.conv2.stride, p.conv2.out_channels), (2, 768));
    assert_eq!(p.positions, "model.encoder.embed_positions.weight");
    assert_eq!((p.position_count, p.width), (1_500, 768));
}

#[test]
fn halves_are_paired() {
    let v = skip_schedule();
    assert_eq!(v.len(), 13);
    for i in 0..13 {
        assert_eq!(v[i], if i > 6 { Some(12 - i) } else { None });
    }
    assert_eq!(reflect_pad2(&vec![1, 2, 3, 4]), vec![3, 2, 1, 2, 3, 4, 3, 2]);
}

#[test]
fn sampler_tables() {
    let f = time_frequencies::<S, D>();
    assert_eq!(f.len(), 128);
    assert_eq!(f[0], S(1.0));
    let (c, s) = rope_tables::<S, D>(2);
    assert_eq!((c[0].len(), c[0][0], s[0][0]), (32, S(1.0), S(0.0)));
    assert!((s[1][0].0 - 1f32.sin()).abs() < 1e-6);
    let t = time_steps::<S, D>(4);
    assert_eq!(t.len(), 4);
    let sum: f32 = t.iter().map(|(_, dt)| dt.0).sum();
    assert!((sum - 1.0).abs() < 1e-6);
    assert_eq!(t[0].0, S(0.0));
}

fn small() -> StreamConfig<S, D> {
    StreamConfig {
        block: 320,
        context: 640,
        dit_context: 160,
        crossfade_22k: 10,
        ..StreamConfig::default()
    }
}

#[test]
fn empty_blocks_are_always_complete() {
    let mut s = SeedVcStream::new(StreamConfig { block: 0, ..small() });
    let x: Vec<S> = (0..700).map(|i| S(i as f32)).collect();
    s.push(&x);
    for _ in 0..2 {
        assert!(s.ready());
        let (long, short) = s.begin().unwrap();
        assert!(long.is_empty() && short.is_empty());
        assert_eq!(s.pending, 700);
        assert!(s.emit(&x).is_empty());
    }
}

#[test]
fn streams_take_blocks_in_order() {
    let mut s = SeedVcStream::new(small());
    let x: Vec<S> = (0..2_000).map(|i| S(i as f32)).collect();
    s.push(&x[..300]);
    assert!(!s.ready() && s.begin().is_none());
    s.push(&x[300..1_000]);
    assert!(s.ready());
    // Three blocks are complete: they come one after the other, each with what went before it.
    let (long, short) = s.begin().unwrap();
    assert_eq!(long, x[..320].to_vec());
    assert_eq!(short, x[..320].to_vec());
    let (long, short) = s.begin().unwrap();
    assert_eq!(long, x[..640].to_vec());
    assert_eq!(short, x[160..640].to_vec());
    let (long, short) = s.begin().unwrap();
    assert_eq!(long, x[..960].to_vec());
    assert_eq!(short, x[480..960].to_vec());
    assert_eq!(s.pending, 40);
    assert!(s.begin().is_none());
    s.push(&x[1_000..1_400]);
    let (long, short) = s.begin().unwrap();
    assert_eq!(long, x[320..1_280].to_vec());
    assert_eq!(short, x[800..1_280].to_vec());
    assert_eq!(feature_tail(short.len(), 100), (98, 2));
    assert_eq!(feature_tail(3_200, 5), (0, 5));
}

#[test]
fn streams_fade_between_blocks() {
    let mut s = SeedVcStream::new(small());
    // 320 samples at 16 kHz are 441 at 22.05 kHz.
    let a = s.join(&vec![S(1.0); 451]);
    assert_eq!(a, vec![S(1.0); 441]);
    let b = s.join(&vec![S(2.0); 451]);
    assert_eq!(b.len(), 441);
    assert!(b[0].0 >= 1.0 && b[0].0 < 1.2, "{}", b[0].0);
    assert!(b[10..].iter().all(|v| (v.0 - 2.0).abs() < 1e-6));
    assert_eq!(to_output::<S, D>(&b, 320).len(), 960);
}

#[test]
fn noise_is_repeatable_and_normal() {
    let mut a = SeedVcStream::new(small());
    let mut b = SeedVcStream::new(small());
    let x = a.next_noise(10_000);
    assert_eq!(x, b.next_noise(10_000));
    assert_ne!(x, a.next_noise(10_000));
    let mean: f32 = x.iter().map(|v| v.0).sum::<f32>() / 10_000.0;
    let var: f32 = x.iter().map(|v| v.0 * v.0).sum::<f32>() / 10_000.0;
    assert!(mean.abs() < 0.05 && (var - 1.0).abs() < 0.1, "{mean} {var}");
    assert_eq!(a.next_noise(3).len(), 3);
}

#[test]
fn references_are_capped() {
    let x: Vec<S> = (0..50_000).map(|i| S(i as f32)).collect();
    assert_eq!(cap_reference(&x, S(2.0)), x[..44_100].to_vec());
    assert_eq!(cap_reference(&x, S(4.0)), x);
    let d: StreamConfig<S, D> = StreamConfig::default();
    assert_eq!((d.block, d.steps, d.cfg_rate), (5_120, 8, D(0.7)));
}

#[test]
fn generator_has_known_values() {
    let mut r = Rng { state: 1 };
    let u: D = r.wide_uniform();
    assert_eq!(r.state, 0x2000001);
    assert_eq!(u, D((0x47e4_ce4b_896c_dd1d_u64 >> 11) as f64 / (1u64 << 53) as f64));
    let mut q = Rng { state: 1 };
    assert_eq!(q.uniform::<S, D>(), S(u.0 as f32));
}

#[test]
fn source_noise_generator_never_repeats_soon() {
    let mut r = Rng { state: 0x9E3779B97F4A7C15 };
    let mut seen = Vec::new();
    for _ in 0..1_000 {
        let u: S = r.uniform::<S, D>();
        assert!((0.0..1.0).contains(&u.0) || u.0 == 1.0);
        assert!(!seen.contains(&r.state));
        seen.push(r.state);
    }
    let g: Vec<S> = (0..5_000).map(|_| r.gaussian::<S, D>()).collect();
    let var: f32 = g.iter().map(|v| v.0 * v.0).sum::<f32>() / 5_000.0;
    assert!((var - 1.0).abs() < 0.15, "{var}");
}

#[test]
fn devices_deliver_mixed_samples() {
    let x = samples(&[1.0, 3.0, 5.0, 7.0, 9.0]);
    assert_eq!(floats(&downmix(&x, 2)), vec![2.0, 6.0, 4.5]);
    assert_eq!(from_i16::<S>(-16_384), S(-0.5));
    assert_eq!(from_u16::<S>(49_152), S(0.5));
    for v in [-2.0f32, -1.0, -0.99999, -0.5, -0.0, 0.0, 0.25, 0.9, 1.0, 3.0, f32::NAN] {
        assert_eq!(to_i16(S(v)), (v.clamp(-1.0, 1.0) * 32_767.0) as i16, "{v}");
    }
}

#[test]
fn streams_do_not_mind_how_audio_is_cut() {
    let audio: Vec<f32> = (0..4_000).map(|i| (i as f32 * 0.37).sin()).collect();
    let cfg = small();
    let kept = cfg.context + cfg.block.max(audio.len());
    let mut whole: SeedVcStream<S, D> = SeedVcStream::new(cfg);
    whole.push(&samples(&audio));
    for size in [1, 7, 320, 1_999] {
        let mut cut: SeedVcStream<S, D> = SeedVcStream::new(small());
        for part in audio.chunks(size) {
            cut.push(&samples(part));
        }
        assert_eq!(cut.pending, whole.pending);
        assert_eq!(cut.buf, whole.buf);
        assert!(cut.buf.len() <= kept);
    }
}

#[test]
fn hops_keep_time() {
    for block in [1, 100, 319, 320, 321, 1_000, 5_120] {
        let cfg: StreamConfig<S, D> = StreamConfig { block, ..StreamConfig::default() };
        let mut s: SeedVcStream<S, D> = SeedVcStream::new(cfg);
        let out = s.emit(&samples(&vec![0.25; 20_000]));
        assert_eq!(out.len(), block * 3);
        let out = s.emit(&samples(&vec![0.25; 20_000]));
        assert_eq!(out.len(), block * 3);
        if block > 1_000 {
            assert!((out[block].0 - 0.25).abs() < 1e-2, "{}", out[block].0);
        }
    }
}

#[test]
fn only_the_ratio_of_rates_matters() {
    let x: Vec<f32> = (0..500).map(|i| (i as f32 * 0.11).sin()).collect();
    let a = resample_width::<S, D>(&samples(&x), 3, 1, 6);
    let b = resample_width::<S, D>(&samples(&x), 3_000_000_000, 1_000_000_000, 6);
    assert_eq!(a, b);
    assert_eq!(a.len(), 167);
    let c = resample_width::<S, D>(&samples(&x), 22_050, 16_000, 6);
    assert_eq!(c, resample_width::<S, D>(&samples(&x), 441, 320, 6));
    assert_eq!(c.len(), (500 * 320 + 440) / 441);
    let silence = resample_width::<S, D>(&samples(&vec![0.0; 50]), 2, 3, 16);
    assert_eq!(silence, samples(&vec![0.0; 75]));
}
