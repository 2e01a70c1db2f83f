use babiniku::arith::{Real, Wide};
use babiniku::config::MelConfig;
use babiniku::encoders::upsample_bnf;
use babiniku::error::Error;
use babiniku::fourier::{Complex, Transform};
use babiniku::meanvc::card::card_mask;
use babiniku::meanvc::ecapa::EcapaConfig;
use babiniku::meanvc::embed::sinusoidal_embedding;
use babiniku::meanvc::fbank::{interpolate_linear, kaldi_filterbank, KaldiFbank};
use babiniku::meanvc::frc::{decoder_masks, layer_mask, total_receptive_field};
use babiniku::meanvc::meanflow::{
    check_length, difference_quotient, ends, path, sample_1nfe, shifted, target, velocity, JvpMode,
};
use babiniku::meanvc::mel::{slaney_filterbank, MelV1, HOP_LENGTH, N_MELS};
use babiniku::meanvc::streaming::{speaker_rank, StreamingConverter};
use babiniku::meanvc::vocos::{Vocos, VocosConfig};
use babiniku::mel::{mel_filterbank, MelSpectrogram};
use rustfft::num_complex::Complex32;
use rustfft::{Fft, FftPlanner};
use std::sync::Arc;

/// A single-precision sample.
#[derive(Clone, Copy, Debug, PartialEq)]
struct S(f32);

/// A double-precision number.
#[derive(Clone, Copy, Debug, PartialEq)]
struct D(f64);

impl Real for S {
    fn whole(n: i64) -> Self {
        S(n as f32)
    }
    fn count(n: usize) -> Self {
        S(n as f32)
    }
    fn fraction(n: i64, d: i64) -> Self {
        S((n as f64 / d as f64) as f32)
    }
    fn unranked(n: u64) -> Self {
        S(f32::from_bits(n as u32))
    }
    fn pi() -> Self {
        S(std::f32::consts::PI)
    }
    fn lowest() -> Self {
        S(f32::MIN)
    }
    fn plus(self, other: Self) -> Self {
        S(self.0 + other.0)
    }
    fn minus(self, other: Self) -> Self {
        S(self.0 - other.0)
    }
    fn times(self, other: Self) -> Self {
        S(self.0 * other.0)
    }
    fn over(self, other: Self) -> Self {
        S(self.0 / other.0)
    }
    fn larger(self, other: Self) -> Self {
        S(self.0.max(other.0))
    }
    fn smaller(self, other: Self) -> Self {
        S(self.0.min(other.0))
    }
    fn power(self, other: Self) -> Self {
        S(self.0.powf(other.0))
    }
    fn negated(self) -> Self {
        S(-self.0)
    }
    fn absolute(self) -> Self {
        S(self.0.abs())
    }
    fn sign(self) -> Self {
        S(self.0.signum())
    }
    fn fractional(self) -> Self {
        S(self.0.fract())
    }
    fn root(self) -> Self {
        S(self.0.sqrt())
    }
    fn sine(self) -> Self {
        S(self.0.sin())
    }
    fn cosine(self) -> Self {
        S(self.0.cos())
    }
    fn exponential(self) -> Self {
        S(self.0.exp())
    }
    fn logarithm(self) -> Self {
        S(self.0.ln())
    }
    fn decimal_logarithm(self) -> Self {
        S(self.0.log10())
    }
    fn tangent(self) -> Self {
        S(self.0.tanh())
    }
    fn below(self, other: Self) -> bool {
        self.0 < other.0
    }
    fn at_most(self, other: Self) -> bool {
        self.0 <= other.0
    }
    fn rank(self) -> u64 {
        self.0.abs().to_bits() as u64
    }
    fn floor(self) -> i64 {
        self.0.floor() as i64
    }
    fn ceiling(self) -> i64 {
        self.0.ceil() as i64
    }
    fn truncated(self) -> usize {
        self.0 as usize
    }
}

impl Real for D {
    fn whole(n: i64) -> Self {
        D(n as f64)
    }
    fn count(n: usize) -> Self {
        D(n as f64)
    }
    fn fraction(n: i64, d: i64) -> Self {
        D(n as f64 / d as f64)
    }
    fn unranked(n: u64) -> Self {
        D(f64::from_bits(n))
    }
    fn pi() -> Self {
        D(std::f64::consts::PI)
    }
    fn lowest() -> Self {
        D(f64::MIN)
    }
    fn plus(self, other: Self) -> Self {
        D(self.0 + other.0)
    }
    fn minus(self, other: Self) -> Self {
        D(self.0 - other.0)
    }
    fn times(self, other: Self) -> Self {
        D(self.0 * other.0)
    }
    fn over(self, other: Self) -> Self {
        D(self.0 / other.0)
    }
    fn larger(self, other: Self) -> Self {
        D(self.0.max(other.0))
    }
    fn smaller(self, other: Self) -> Self {
        D(self.0.min(other.0))
    }
    fn power(self, other: Self) -> Self {
        D(self.0.powf(other.0))
    }
    fn negated(self) -> Self {
        D(-self.0)
    }
    fn absolute(self) -> Self {
        D(self.0.abs())
    }
    fn sign(self) -> Self {
        D(self.0.signum())
    }
    fn fractional(self) -> Self {
        D(self.0.fract())
    }
    fn root(self) -> Self {
        D(self.0.sqrt())
    }
    fn sine(self) -> Self {
        D(self.0.sin())
    }
    fn cosine(self) -> Self {
        D(self.0.cos())
    }
    fn exponential(self) -> Self {
        D(self.0.exp())
    }
    fn logarithm(self) -> Self {
        D(self.0.ln())
    }
    fn decimal_logarithm(self) -> Self {
        D(self.0.log10())
    }
    fn tangent(self) -> Self {
        D(self.0.tanh())
    }
    fn below(self, other: Self) -> bool {
        self.0 < other.0
    }
    fn at_most(self, other: Self) -> bool {
        self.0 <= other.0
    }
    fn rank(self) -> u64 {
        self.0.abs().to_bits()
    }
    fn floor(self) -> i64 {
        self.0.floor() as i64
    }
    fn ceiling(self) -> i64 {
        self.0.ceil() as i64
    }
    fn truncated(self) -> usize {
        self.0 as usize
    }
}

impl Wide<S> for D {
    fn widened(x: S) -> Self {
        D(x.0 as f64)
    }
    fn narrowed(self) -> S {
        S(self.0 as f32)
    }
}

fn samples(x: &[f32]) -> Vec<S> {
    x.iter().map(|v| S(*v)).collect()
}

fn floats(x: &[S]) -> Vec<f32> {
    x.iter().map(|v| v.0).collect()
}

/// A transform of single-precision frames of one length.
struct Fft32(Arc<dyn Fft<f32>>);

impl Fft32 {
    fn forward(n: usize) -> Self {
        Fft32(FftPlanner::new().plan_fft_forward(n))
    }
    fn inverse(n: usize) -> Self {
        Fft32(FftPlanner::new().plan_fft_inverse(n))
    }
}

impl Transform<S> for Fft32 {
    fn apply(&self, frame: &Vec<Complex<S>>) -> Vec<Complex<S>> {
        let mut b: Vec<Complex32> = frame.iter().map(|c| Complex32::new(c.re.0, c.im.0)).collect();
        self.0.process(&mut b);
        b.iter().map(|c| Complex { re: S(c.re), im: S(c.im) }).collect()
    }
}

#[test]
fn extractors_take_any_settings() {
    let cfg: MelConfig<S> = MelConfig { hop_length: 0, win_length: 2_000, ..MelConfig::default() };
    let mel = MelSpectrogram::new(cfg, Fft32::forward(cfg.n_fft));
    assert_eq!((mel.window.len(), mel.filterbank.len()), (2_000, 80));
    assert!(mel.compute(&[]).is_err());
}

#[test]
fn shapes_and_finiteness() {
    let cfg: MelConfig<S> = MelConfig::default();
    let mel = MelSpectrogram::new(cfg, Fft32::forward(cfg.n_fft));
    // 1 s of a 440 Hz tone at 16 kHz.
    let x: Vec<f32> = (0..16_000)
        .map(|i| (2.0 * std::f32::consts::PI * 440.0 * i as f32 / 16_000.0).sin())
        .collect();
    let t = mel.compute(&samples(&x)).unwrap_or_else(|_| panic!());
    assert_eq!(t.len(), 16_000 / cfg.hop_length + 1);
    assert_eq!(mel.num_frames(16_000), t.len());
    assert!(t.iter().all(|r| r.len() == cfg.n_mels));
    assert!(t.iter().flatten().all(|x| x.0.is_finite()));
    // The tone is loudest in the band around 440 Hz.
    let mid = &t[50];
    let top = (0..cfg.n_mels).max_by(|a, b| mid[*a].0.total_cmp(&mid[*b].0)).unwrap();
    let banks = mel_filterbank(&cfg);
    let bin = (440.0 * 1024.0 / 16_000.0f32).round() as usize;
    assert!(banks[top][bin].0 > 0.0, "band {top}");
    match mel.compute(&[]) {
        Err(e) => assert_eq!(e.message(), "invalid input: empty waveform"),
        Ok(_) => panic!(),
    }
    assert_eq!(mel.config().n_fft, 1024);
}

#[test]
fn upsample_repeats_frames() {
    let bnf = vec![vec![1f32, 2.], vec![3., 4.]];
    let v = upsample_bnf(&bnf, 3);
    assert_eq!(v.len(), 6);
    assert!(v.iter().all(|f| f.len() == 2));
    assert_eq!(v[0], v[1]);
    assert_eq!(v[1], v[2]);
    assert_eq!(v[3], vec![3., 4.]);
}

#[test]
fn values_are_in_unit_range() {
    let mel = MelV1::new(Fft32::forward(1024));
    let x: Vec<f32> = (0..16_000)
        .map(|i| (2.0 * std::f32::consts::PI * 440.0 * i as f32 / 16_000.0).sin() * 0.5)
        .collect();
    let t = mel.compute(&samples(&x)).unwrap_or_else(|_| panic!());
    assert_eq!(t.len(), 16_000 / HOP_LENGTH + 1);
    assert!(t.iter().all(|r| r.len() == N_MELS));
    let v: Vec<f32> = t.iter().flatten().map(|s| s.0).collect();
    assert!(v.iter().all(|x| (-1.0..=1.0).contains(x)));
    // Silence sits near the floor (not exactly -1: the official chain
    // adds 1e-6 inside the magnitude sqrt).
    let silent = mel.compute(&samples(&[0.0; 3200])).unwrap_or_else(|_| panic!());
    let sv: Vec<f32> = silent.iter().flatten().map(|s| s.0).collect();
    assert!(sv.iter().all(|x| *x < -0.5));
}

#[test]
fn fbank_shapes_and_finiteness() {
    let fb = KaldiFbank::new(Fft32::forward(512));
    let x: Vec<f32> = (0..16_000)
        .map(|i| (2.0 * std::f32::consts::PI * 220.0 * i as f32 / 16_000.0).sin() * 0.3)
        .collect();
    let t = fb.compute(&samples(&x)).unwrap_or_else(|_| panic!());
    assert_eq!(t.len(), 1 + (16_000 - 400) / 160);
    assert!(t.iter().all(|r| r.len() == 80));
    assert!(t.iter().flatten().all(|x| x.0.is_finite()));
    match fb.compute(&samples(&[0.0; 399])) {
        Err(e) => assert_eq!(e.message(), "invalid input: need at least 400 samples, got 399"),
        Ok(_) => panic!(),
    }
}

#[test]
fn interpolation_endpoints_align() {
    let x = vec![samples(&[0f32, 1.]), samples(&[2., 3.])];
    let v: Vec<Vec<f32>> = interpolate_linear(&x, 2, 3).iter().map(|r| floats(r)).collect();
    assert_eq!(v.len(), 6);
    assert_eq!(v[0], vec![0., 1.]); // first frame preserved
    assert_eq!(v[5], vec![2., 3.]); // last frame preserved (align_corners)
    assert!(v[2][0] > v[1][0] && v[3][0] > v[2][0]); // monotone ramp
}

fn mask_values(m: &Vec<Vec<S>>) -> Vec<Vec<f32>> {
    m.iter().map(|r| floats(r)).collect()
}

#[test]
fn intra_chunk_is_always_visible() {
    let m = mask_values(&layer_mask(8, 4, 0, 0));
    // Frames 0..4 form chunk 0, frames 4..8 chunk 1.
    assert_eq!(m[0][3], 0.0);
    assert_eq!(m[3][0], 0.0);
    assert!(m[0][4] < -1e8);
    assert!(m[7][3] < -1e8);
}

#[test]
fn past_and_future_windows() {
    // 4 chunks of 2 frames, P=1, F=1.
    let m = mask_values(&layer_mask(8, 2, 1, 1));
    // Query frame 4 (chunk 2) may see chunks 1..=3 (frames 2..8).
    assert!(m[4][1] < -1e8); // chunk 0: blocked
    assert_eq!(m[4][2], 0.0); // chunk 1: past
    assert_eq!(m[4][5], 0.0); // chunk 2: intra
    assert_eq!(m[4][6], 0.0); // chunk 3: future
}

#[test]
fn masks_of_a_decoder_are_those_of_its_layers() {
    let v: Vec<Vec<Vec<S>>> = decoder_masks(6, 2, &[2, 0], &[1, 0]);
    assert_eq!(v.len(), 2);
    assert_eq!(mask_values(&v[0]), mask_values(&layer_mask(6, 2, 2, 1)));
    assert_eq!(mask_values(&v[1]), mask_values(&layer_mask(6, 2, 0, 0)));
    // A trailing part of a chunk is a chunk.
    let m = mask_values(&layer_mask(5, 2, 0, 0));
    assert_eq!(m[4], vec![-1e9, -1e9, -1e9, -1e9, 0.0]);
    assert!(layer_mask::<S>(0, 0, 1, 1).is_empty());
}

#[test]
fn stacked_layers_reach_as_far_as_their_sum() {
    // Which chunks a chunk depends on, by following the masks of all layers.
    let (past, future) = ([2usize, 2, 1, 1], [1usize, 0, 0, 0]);
    let n = 12;
    let masks: Vec<Vec<Vec<S>>> = decoder_masks(n, 1, &past, &future);
    let (p, f) = total_receptive_field(&past, &future);
    for i in 0..n {
        let mut seen = vec![false; n];
        seen[i] = true;
        for m in masks.iter().rev() {
            let mut next = vec![false; n];
            for q in 0..n {
                for k in 0..n {
                    next[k] = next[k] || (seen[q] && m[q][k].0 == 0.0);
                }
            }
            seen = next;
        }
        for j in 0..n {
            assert_eq!(seen[j], j + p >= i && j <= i + f, "{i} {j}");
        }
    }
}

#[test]
fn paper_receptive_field_totals() {
    let (p, f) = total_receptive_field(&[2, 2, 1, 1], &[1, 0, 0, 0]);
    assert_eq!((p, f), (6, 1));
}

#[test]
fn card_visibility() {
    // 3 chunks of 2 frames, lookback 1 => sequence [c0 c1 c2 | x0 x1 x2].
    let m = mask_values(&card_mask(3, 2, 1));
    let vis = |qc: usize, kc: usize| m[qc * 2][kc * 2] == 0.0;
    // Cache chunks: intra only.
    assert!(vis(0, 0) && !vis(0, 1) && !vis(0, 3));
    // Noisy chunk x0 (chunk 3): itself only (no previous chunks).
    assert!(vis(3, 3) && !vis(3, 0) && !vis(3, 4));
    // Noisy chunk x1 (chunk 4): itself + cache c0, not c1 (that is
    // itself), not beyond lookback.
    assert!(vis(4, 4) && vis(4, 0) && !vis(4, 1) && !vis(4, 3));
    // Noisy chunk x2 (chunk 5): itself + c1 (lookback 1 excludes c0).
    assert!(vis(5, 5) && vis(5, 1) && !vis(5, 0));
    assert_eq!(m.len(), 12);
    assert!(card_mask::<S>(0, 2, 1).is_empty());
    assert!(card_mask::<S>(3, 0, 1).is_empty());
}

#[test]
fn sinusoidal_shape() {
    let t = samples(&[0f32, 0.5, 1.0]);
    let e = sinusoidal_embedding(&t, 256);
    assert_eq!(e.len(), 3);
    assert!(e.iter().all(|r| r.len() == 256));
    // Cosines come first.
    assert!(e[0][..128].iter().all(|v| v.0 == 1.0));
    assert!(e[0][128..].iter().all(|v| v.0 == 0.0));
    assert!((e[1][0].0 - 500f32.cos()).abs() < 1e-6);
    assert!((e[1][128].0 - 500f32.sin()).abs() < 1e-6);
}

fn tiny_vocos() -> Vocos<S> {
    Vocos::new(VocosConfig {
        input_channels: 20,
        dim: 32,
        intermediate_dim: 64,
        num_layers: 2,
        n_fft: 64,
        hop_length: 16,
        sample_rate: 16_000,
    })
}

#[test]
fn synthesize_has_expected_length_and_is_finite() {
    let vocos = tiny_vocos();
    let frames = 12;
    assert!(vocos.check_mel(frames, 20).is_ok());
    let row = |f: usize, k: usize| ((f * 131 + k * 17) % 41) as f32 / 20.0 - 1.0;
    let re: Vec<Vec<S>> =
        (0..frames).map(|f| (0..33).map(|k| S(row(f, k))).collect()).collect();
    let im: Vec<Vec<S>> =
        (0..frames).map(|f| (0..33).map(|k| S(row(k, f))).collect()).collect();
    let wav = vocos.istft(&re, &im, &Fft32::inverse(64));
    assert_eq!(wav.len(), (frames - 1) * vocos.config().hop_length);
    assert!(wav.iter().all(|s| s.0.is_finite()));
}

#[test]
fn istft_reconstructs_a_windowed_sine() {
    // Analysis with the same window/hop followed by our ISTFT must
    // reconstruct the interior of the signal (COLA condition).
    let vocos = tiny_vocos();
    let n_fft = vocos.config().n_fft;
    let hop = vocos.config().hop_length;
    let frames = 20;
    let padded_len = (frames - 1) * hop + n_fft;
    let signal: Vec<f32> = (0..padded_len)
        .map(|i| (2.0 * std::f32::consts::PI * 5.0 * i as f32 / n_fft as f32).sin())
        .collect();

    // Forward STFT (centered layout: frame f covers f*hop..f*hop+n_fft).
    let fft = FftPlanner::new().plan_fft_forward(n_fft);
    let mut re: Vec<Vec<S>> = Vec::new();
    let mut im: Vec<Vec<S>> = Vec::new();
    for f in 0..frames {
        let mut buf: Vec<Complex32> = (0..n_fft)
            .map(|i| Complex32::new(signal[f * hop + i] * vocos.window[i].0, 0.0))
            .collect();
        fft.process(&mut buf);
        re.push(buf[..n_fft / 2 + 1].iter().map(|c| S(c.re)).collect());
        im.push(buf[..n_fft / 2 + 1].iter().map(|c| S(c.im)).collect());
    }
    let out = vocos.istft(&re, &im, &Fft32::inverse(n_fft));
    // Compare against the input, skipping the trimmed padding.
    let start = n_fft / 2;
    for (i, s) in out.iter().enumerate() {
        let expected = signal[start + i];
        assert!(
            (s.0 - expected).abs() < 1e-3,
            "sample {i}: {} vs {expected}",
            s.0
        );
    }
}

#[test]
fn rejects_wrong_mel_bins() {
    let vocos = tiny_vocos();
    match vocos.check_mel(10, 21) {
        Err(e) => assert_eq!(e.message(), "invalid input: expected 20 mel bins, got 21"),
        Ok(()) => panic!(),
    }
    match vocos.check_mel(1, 20) {
        Err(e) => assert_eq!(e.message(), "invalid input: need at least 2 mel frames"),
        Ok(()) => panic!(),
    }
    assert!(matches!(Vocos::<S>::mel_rank(2), Ok(false)));
    assert!(matches!(Vocos::<S>::mel_rank(3), Ok(true)));
    assert!(Vocos::<S>::mel_rank(1).is_err());
}

#[test]
fn vocos_sizes() {
    let d = VocosConfig::default();
    assert_eq!((d.dim, d.n_fft, d.hop_length, d.num_layers), (512, 1024, 160, 8));
    let o = VocosConfig::official_meanvc1();
    assert_eq!((o.dim, o.n_fft, o.intermediate_dim), (320, 640, 1536));
    let mel: MelConfig<S> = MelConfig {
        sample_rate: 24_000,
        n_fft: 2048,
        hop_length: 300,
        win_length: 1200,
        n_mels: 100,
        f_min: S(0.0),
        f_max: S(12_000.0),
    };
    let c = VocosConfig::for_mel(&mel);
    assert_eq!(
        c,
        VocosConfig { input_channels: 100, n_fft: 2048, hop_length: 300, sample_rate: 24_000, ..d }
    );
}

fn tiny_ecapa() -> EcapaConfig {
    EcapaConfig {
        n_mels: 20,
        channels: 16,
        mfa_channels: 48,
        res2net_scale: 4,
        se_channels: 8,
        attention_channels: 8,
        embedding_dim: 12,
        sample_rate: 16_000,
    }
}

#[test]
fn rejects_wrong_sample_rate() {
    let ecapa = tiny_ecapa();
    match ecapa.check_rate(8_000) {
        Err(e) => assert_eq!(
            e.message(),
            "invalid input: expected 16000 Hz input, got 8000 Hz (resample first)"
        ),
        Ok(()) => panic!(),
    }
    assert!(ecapa.check_rate(16_000).is_ok());
}

#[test]
fn ecapa_sizes_and_layers() {
    let d = EcapaConfig::default();
    assert_eq!((d.channels, d.mfa_channels, d.embedding_dim), (1024, 3072, 192));
    let f: MelConfig<S> = d.feature_config();
    assert_eq!((f.n_fft, f.hop_length, f.win_length, f.n_mels), (400, 160, 400, 80));
    assert_eq!(f.f_max, S(8_000.0));
    let p = tiny_ecapa().load_plan();
    assert_eq!(p.stem.prefix, "blocks.0.conv");
    assert_eq!((p.stem.in_channels, p.stem.out_channels, p.stem.padding), (20, 16, 2));
    assert_eq!(p.stages.len(), 3);
    for (i, s) in p.stages.iter().enumerate() {
        assert_eq!(s.parts.len(), 3);
        assert_eq!(s.parts[2].prefix, format!("blocks.{}.res2net_block.blocks.2.conv", i + 1));
        assert_eq!((s.parts[0].dilation, s.parts[0].padding), (i + 2, i + 2));
        assert_eq!(s.parts[0].in_channels, 4);
        assert_eq!(s.se1.prefix, format!("blocks.{}.se_block.conv1", i + 1));
    }
    assert_eq!((p.mfa.in_channels, p.asp_tdnn.in_channels, p.asp_norm), (48, 144, 96));
    assert_eq!((p.fc.in_channels, p.fc.out_channels), (96, 12));
}

#[test]
fn streams_emit_each_chunk_once_with_its_window() {
    let mut s: StreamingConverter<usize> = StreamingConverter::new(&[2, 1], &[1, 0], 4, 10);
    assert_eq!(s.lookahead_chunks(), 1);
    let mut out: Vec<(Vec<usize>, usize)> = Vec::new();
    let n = 200;
    for i in 0..n {
        s.push(i);
        while let Some(w) = s.ready(false) {
            out.push((s.chunks[w.start..=w.end].to_vec(), w.offset));
            s.emit();
        }
        assert_eq!(out.len(), i);
        assert!(s.chunks.len() <= 3 + 64 + 2);
    }
    while let Some(w) = s.ready(true) {
        out.push((s.chunks[w.start..=w.end].to_vec(), w.offset));
        s.emit();
    }
    assert_eq!(out.len(), n);
    for (c, (window, offset)) in out.iter().enumerate() {
        let first = c.saturating_sub(3);
        let last = (c + 1).min(n - 1);
        assert_eq!(*window, (first..=last).collect::<Vec<usize>>());
        assert_eq!(*offset, (c - first) * 4);
    }
}

#[test]
fn streams_check_their_chunks() {
    let s: StreamingConverter<usize> = StreamingConverter::new(&[1], &[0], 4, 10);
    assert!(s.check(4, 10).is_ok());
    match s.check(5, 10) {
        Err(e) => assert_eq!(
            e.message(),
            "invalid input: expected BNF chunk of shape [1, 4, 10], got [1, 5, 10]"
        ),
        Ok(()) => panic!(),
    }
    assert!(matches!(speaker_rank(1), Ok(true)));
    assert!(matches!(speaker_rank(2), Ok(false)));
    match speaker_rank(3) {
        Err(e) => assert_eq!(
            e.message(),
            "invalid input: speaker embedding must be [speaker_dim] or [1, speaker_dim]"
        ),
        Ok(_) => panic!(),
    }
}

#[test]
fn mean_flow_quantities() {
    let x = vec![samples(&[1.0, 2.0]), samples(&[3.0, 4.0])];
    let e = vec![samples(&[5.0, 6.0]), samples(&[7.0, 8.0])];
    let t = samples(&[0.5, 0.25]);
    let r = samples(&[0.5, 0.0]);
    let z = path(&x, &e, &t);
    assert_eq!(floats(&z[0]), vec![3.0, 4.0]);
    assert_eq!(floats(&z[1]), vec![4.0, 5.0]);
    let v = velocity(&x, &e);
    assert_eq!(floats(&v[0]), vec![4.0, 4.0]);
    let (zs, ts) = shifted(&z, &v, &t, D(0.5));
    assert_eq!(floats(&zs[0]), vec![5.0, 6.0]);
    assert_eq!(floats(&ts), vec![1.0, 0.75]);
    let q = difference_quotient(&zs, &z, D(0.5));
    assert_eq!(floats(&q[0]), vec![4.0, 4.0]);
    // Over an interval without length the target is the velocity.
    let u = target(&v, &q, &r, &t);
    assert_eq!(u[0], v[0]);
    assert_eq!(floats(&u[1]), vec![3.0, 3.0]);
    let s = sample_1nfe(&e, &v);
    assert_eq!(s, x);
    assert!(matches!(JvpMode::<D>::default(), JvpMode::Exact));
}

#[test]
fn intervals_are_ordered_or_collapsed() {
    assert_eq!(ends(S(0.7), S(0.2), S(0.9), S(0.75)), (S(0.2), S(0.7)));
    assert_eq!(ends(S(0.2), S(0.7), S(0.5), S(0.75)), (S(0.7), S(0.7)));
}

#[test]
fn conversion_takes_whole_chunks() {
    assert!(check_length(12, 4).is_ok());
    match check_length(13, 4) {
        Err(e) => assert_eq!(
            e.message(),
            "invalid input: sequence length 13 is not a multiple of chunk_frames 4"
        ),
        Ok(()) => panic!(),
    }
}

#[test]
fn filterbanks_cover_their_range() {
    let banks: Vec<Vec<S>> = slaney_filterbank(16_000, 1024, 80, S(0.0), S(8_000.0));
    assert_eq!((banks.len(), banks[0].len()), (80, 513));
    assert!(banks.iter().all(|b| b.iter().any(|w| w.0 > 0.0)));
    let k: Vec<Vec<S>> = kaldi_filterbank();
    assert_eq!((k.len(), k[0].len()), (80, 257));
    assert!(k.iter().flatten().all(|w| (0.0..=1.0).contains(&w.0)));
}

#[test]
fn configuration_errors_have_their_own_text() {
    let e = Error::Config("x".to_string());
    assert_eq!(e.message(), "invalid configuration: x");
}
