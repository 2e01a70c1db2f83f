use babiniku::arith::{Real, Wide};
use babiniku::cosyvoice::encoder::{chunk_bias, lookahead_split, rel_pos_table, rel_shift};
use babiniku::cosyvoice::hift::{
    head_to_audio, interp_linear, istft, nsf_source, stft_source, NoiseMode,
};
use babiniku::cosyvoice::mel::{kaldi_fbank80, MelFrontend};
use babiniku::cosyvoice::stream::{raised_cosine, to_output, CosyVoiceStream, StreamConfig};
use babiniku::cosyvoice::tokenizer::{rotary_tables, token_id, VOCAB};
use babiniku::cosyvoice::{campplus, flow, hift, unet};
use babiniku::fourier::{Complex, Transform};
use babiniku::ode::{euler_step, guide, padded_prompt, with_zero_head, without_head};
use babiniku::spectra;
use rustfft::num_complex::Complex32;
use rustfft::{Fft, FftPlanner};
use std::sync::Arc;

/// A single-precision sample.
#[derive(Clone, Copy, Debug, PartialEq)]
struct S(f32);

/// A double-precision number.
#[derive(Clone, Copy, Debug, PartialEq)]
struct D(f64);

impl Real for S {
    fn whole(n: i64) -> Self {
        S(n as f32)
    }
    fn count(n: usize) -> Self {
        S(n as f32)
    }
    fn fraction(n: i64, d: i64) -> Self {
        S((n as f64 / d as f64) as f32)
    }
    fn unranked(n: u64) -> Self {
        S(f32::from_bits(n as u32))
    }
    fn pi() -> Self {
        S(std::f32::consts::PI)
    }
    fn lowest() -> Self {
        S(f32::MIN)
    }
    fn plus(self, other: Self) -> Self {
        S(self.0 + other.0)
    }
    fn minus(self, other: Self) -> Self {
        S(self.0 - other.0)
    }
    fn times(self, other: Self) -> Self {
        S(self.0 * other.0)
    }
    fn over(self, other: Self) -> Self {
        S(self.0 / other.0)
    }
    fn larger(self, other: Self) -> Self {
        S(self.0.max(other.0))
    }
    fn smaller(self, other: Self) -> Self {
        S(self.0.min(other.0))
    }
    fn power(self, other: Self) -> Self {
        S(self.0.powf(other.0))
    }
    fn negated(self) -> Self {
        S(-self.0)
    }
    fn absolute(self) -> Self {
        S(self.0.abs())
    }
    fn sign(self) -> Self {
        S(self.0.signum())
    }
    fn fractional(self) -> Self {
        S(self.0.fract())
    }
    fn root(self) -> Self {
        S(self.0.sqrt())
    }
    fn sine(self) -> Self {
        S(self.0.sin())
    }
    fn cosine(self) -> Self {
        S(self.0.cos())
    }
    fn exponential(self) -> Self {
        S(self.0.exp())
    }
    fn logarithm(self) -> Self {
        S(self.0.ln())
    }
    fn decimal_logarithm(self) -> Self {
        S(self.0.log10())
    }
    fn tangent(self) -> Self {
        S(self.0.tanh())
    }
    fn below(self, other: Self) -> bool {
        self.0 < other.0
    }
    fn at_most(self, other: Self) -> bool {
        self.0 <= other.0
    }
    fn rank(self) -> u64 {
        self.0.abs().to_bits() as u64
    }
    fn floor(self) -> i64 {
        self.0.floor() as i64
    }
    fn ceiling(self) -> i64 {
        self.0.ceil() as i64
    }
    fn truncated(self) -> usize {
        self.0 as usize
    }
}

impl Real for D {
    fn whole(n: i64) -> Self {
        D(n as f64)
    }
    fn count(n: usize) -> Self {
        D(n as f64)
    }
    fn fraction(n: i64, d: i64) -> Self {
        D(n as f64 / d as f64)
    }
    fn unranked(n: u64) -> Self {
        D(f64::from_bits(n))
    }
    fn pi() -> Self {
        D(std::f64::consts::PI)
    }
    fn lowest() -> Self {
        D(f64::MIN)
    }
    fn plus(self, other: Self) -> Self {
        D(self.0 + other.0)
    }
    fn minus(self, other: Self) -> Self {
        D(self.0 - other.0)
    }
    fn times(self, other: Self) -> Self {
        D(self.0 * other.0)
    }
    fn over(self, other: Self) -> Self {
        D(self.0 / other.0)
    }
    fn larger(self, other: Self) -> Self {
        D(self.0.max(other.0))
    }
    fn smaller(self, other: Self) -> Self {
        D(self.0.min(other.0))
    }
    fn power(self, other: Self) -> Self {
        D(self.0.powf(other.0))
    }
    fn negated(self) -> Self {
        D(-self.0)
    }
    fn absolute(self) -> Self {
        D(self.0.abs())
    }
    fn sign(self) -> Self {
        D(self.0.signum())
    }
    fn fractional(self) -> Self {
        D(self.0.fract())
    }
    fn root(self) -> Self {
        D(self.0.sqrt())
    }
    fn sine(self) -> Self {
        D(self.0.sin())
    }
    fn cosine(self) -> Self {
        D(self.0.cos())
    }
    fn exponential(self) -> Self {
        D(self.0.exp())
    }
    fn logarithm(self) -> Self {
        D(self.0.ln())
    }
    fn decimal_logarithm(self) -> Self {
        D(self.0.log10())
    }
    fn tangent(self) -> Self {
        D(self.0.tanh())
    }
    fn below(self, other: Self) -> bool {
        self.0 < other.0
    }
    fn at_most(self, other: Self) -> bool {
        self.0 <= other.0
    }
    fn rank(self) -> u64 {
        self.0.abs().to_bits()
    }
    fn floor(self) -> i64 {
        self.0.floor() as i64
    }
    fn ceiling(self) -> i64 {
        self.0.ceil() as i64
    }
    fn truncated(self) -> usize {
        self.0 as usize
    }
}

impl Wide<S> for D {
    fn widened(x: S) -> Self {
        D(x.0 as f64)
    }
    fn narrowed(self) -> S {
        S(self.0 as f32)
    }
}

fn samples(x: &[f32]) -> Vec<S> {
    x.iter().map(|v| S(*v)).collect()
}

fn floats(x: &[S]) -> Vec<f32> {
    x.iter().map(|v| v.0).collect()
}

/// A transform of single-precision frames of one length.
struct Fft32(Arc<dyn Fft<f32>>);

impl Fft32 {
    fn forward(n: usize) -> Self {
        Fft32(FftPlanner::new().plan_fft_forward(n))
    }
}

impl Transform<S> for Fft32 {
    fn apply(&self, frame: &Vec<Complex<S>>) -> Vec<Complex<S>> {
        let mut b: Vec<Complex32> = frame.iter().map(|c| Complex32::new(c.re.0, c.im.0)).collect();
        self.0.process(&mut b);
        b.iter().map(|c| Complex { re: S(c.re), im: S(c.im) }).collect()
    }
}

#[test]
fn speaker_encoder_layers() {
    let p = campplus::load_plan();
    let sizes: Vec<usize> = p.blocks.iter().map(|b| b.layers.len()).collect();
    assert_eq!(sizes, [12, 24, 16]);
    // Channels grow by 32 for each layer and are halved after each block.
    let mut channels = 128;
    for (b, block) in p.blocks.iter().enumerate() {
        for (i, l) in block.layers.iter().enumerate() {
            assert_eq!(l.linear1.in_channels, channels + 32 * i);
            assert_eq!(l.bn1.channels, channels + 32 * i);
            assert_eq!(l.linear1.prefix, format!("xvector.block{}.tdnnd{}.linear1", b + 1, i + 1));
            assert_eq!(l.local.padding, l.local.dilation);
        }
        channels += 32 * block.layers.len();
        assert_eq!(block.transit.in_channels, channels);
        channels /= 2;
        assert_eq!(block.transit.out_channels, channels);
        assert_eq!(block.transit.prefix, format!("xvector.transit{}.linear", b + 1));
    }
    assert_eq!(p.out_bn.channels, 512);
    assert_eq!((p.dense.in_channels, p.dense.out_channels), (1024, 192));
    assert!(!p.dense_bn.affine && p.out_bn.affine);
    assert_eq!(p.tdnn.in_channels, 320);
    let steps: Vec<usize> = p.head_res.iter().map(|r| r.conv1.row_stride).collect();
    assert_eq!(steps, [2, 1, 2, 1]);
    assert!(p.head_res[0].shortcut.is_some() && p.head_res[1].shortcut.is_none());
}

#[test]
fn rows_and_segments() {
    assert_eq!(campplus::kept_rows(5, 2), vec![0, 2, 4]);
    assert_eq!(campplus::kept_rows(80, 2).len(), 40);
    assert!(campplus::kept_rows(0, 2).is_empty());
    assert_eq!(campplus::segments(250), vec![(0, 100), (100, 100), (200, 50)]);
    assert_eq!(campplus::segments(200), vec![(0, 100), (100, 100)]);
    assert!(campplus::segments(0).is_empty());
}

#[test]
fn flow_times_follow_a_cosine() {
    let v: Vec<(D, D)> = flow::cosine_steps();
    assert_eq!(v.len(), 10);
    assert_eq!(v[0].0, D(0.0));
    let mut t = 0.0;
    for (i, (at, dt)) in v.iter().enumerate() {
        let want = 1.0 - (i as f64 / 10.0 * std::f64::consts::FRAC_PI_2).cos();
        assert_eq!(at.0, want);
        assert!((at.0 - t).abs() < 1e-12);
        t = at.0 + dt.0;
    }
    assert!((t - 1.0).abs() < 1e-12);
}

#[test]
fn prompts_have_two_frames_for_each_token() {
    let f = vec![vec![1], vec![2], vec![3]];
    assert_eq!(flow::snap_frames(&f, 1), vec![vec![1], vec![2]]);
    assert_eq!(flow::snap_frames(&f, 2), vec![vec![1], vec![2], vec![3], vec![3]]);
    assert!(flow::snap_frames::<i32>(&vec![], 0).is_empty());
    let noise = vec![(0..15_000).collect::<Vec<i32>>(); 2];
    assert_eq!(flow::initial_noise(&noise, 3).unwrap()[1], vec![0, 1, 2]);
    assert!(flow::initial_noise(&noise, 15_001).is_none());
}

#[test]
fn estimator_times_are_embedded() {
    let e = unet::time_embedding::<S, D>(S(0.5));
    assert_eq!(e.len(), 320);
    assert_eq!(e[0].0, 500f64.sin() as f32);
    assert_eq!(e[160].0, 500f64.cos() as f32);
    let last = 500.0 * (-159.0 * (10_000f64.ln() / 159.0)).exp();
    assert_eq!(e[159].0, last.sin() as f32);
}

#[test]
fn whisper_mels_have_a_row_for_each_band() {
    let f = MelFrontend {
        whisper_fb: vec![vec![S(1.0 / 201.0); 201]; 128],
        hifi_fb: vec![vec![S(1.0 / 961.0); 961]; 80],
    };
    let x: Vec<S> = (0..4_800).map(|i| S((i as f32 * 0.3).sin() * 0.5)).collect();
    let m = f.whisper_mel128(&x, &Fft32::forward(400));
    assert_eq!((m.len(), m[0].len()), (128, 30));
    assert!(m.iter().flatten().all(|v| v.0.is_finite()));
    let h = f.hifigan_mel80(&x, &Fft32::forward(1920));
    assert_eq!((h.len(), h[0].len()), (10, 80));
    // Silence is at the floors: -10 in decades is scaled to -1.5, and the logarithm stops at 1e-5.
    let z = f.whisper_mel128(&vec![S(0.0); 1_600], &Fft32::forward(400));
    assert!(z.iter().flatten().all(|v| (v.0 + 1.5).abs() < 1e-6));
}

#[test]
fn speaker_features_have_no_mean() {
    let x: Vec<S> = (0..8_000).map(|i| S((i as f32 * 0.05).sin() * 0.3 + ((i * 7) % 13) as f32 * 0.01)).collect();
    let f = kaldi_fbank80(&x, &Fft32::forward(512));
    assert_eq!((f.len(), f[0].len()), (1 + (8_000 - 400) / 160, 80));
    for m in 0..80 {
        let mean: f32 = f.iter().map(|r| r[m].0).sum::<f32>() / f.len() as f32;
        assert!(mean.abs() < 1e-3, "{mean}");
    }
    assert!(kaldi_fbank80(&x[..399], &Fft32::forward(512)).is_empty());
}

#[test]
fn interpolation_centres_on_centres() {
    let v = interp_linear::<S, D>(&samples(&[0.0, 2.0]), 4);
    assert_eq!(floats(&v), vec![0.0, 0.5, 1.5, 2.0]);
}

#[test]
fn sources_without_noise_are_repeatable_and_bounded() {
    let f0 = samples(&vec![200.0; 4]);
    let w = samples(&[1.0 / 9.0; 9]);
    let a = nsf_source::<S, D>(&f0, &w, S(0.0), NoiseMode::Deterministic);
    let b = nsf_source::<S, D>(&f0, &w, S(0.0), NoiseMode::Deterministic);
    assert_eq!(a.len(), 4 * 480);
    assert_eq!(a, b);
    assert!(a.iter().all(|v| v.0.abs() <= 1.0));
    assert!(a.iter().any(|v| v.0.abs() > 1e-3));
    // Unvoiced frames without noise give the bias alone.
    let z = nsf_source::<S, D>(&samples(&[0.0; 3]), &w, S(0.5), NoiseMode::Deterministic);
    assert!(z.iter().all(|v| v.0 == 0.5f32.tanh()));
    let r = nsf_source::<S, D>(&f0, &w, S(0.0), NoiseMode::Random);
    assert_ne!(a, r);
}

#[test]
fn source_spectra_invert() {
    let window: Vec<S> = spectra::hann_periodic(16);
    let x: Vec<S> = (0..480).map(|i| S((i as f32 * 0.4).sin())).collect();
    let s = stft_source(&x, &window, &Fft32::forward(16));
    let frames = s[0].len();
    assert_eq!((s.len(), frames), (18, 480 / 4 + 1));
    // Magnitudes and phases of the same frames bring the signal back.
    let mag: Vec<Vec<S>> = (0..9)
        .map(|k| (0..frames).map(|f| S((s[k][f].0.powi(2) + s[9 + k][f].0.powi(2)).sqrt())).collect())
        .collect();
    let phase: Vec<Vec<S>> = (0..9)
        .map(|k| (0..frames).map(|f| S(s[9 + k][f].0.atan2(s[k][f].0))).collect())
        .collect();
    let y = istft(&mag, &phase, frames, &window);
    assert_eq!(y.len(), 480);
    for i in 0..480 {
        assert!((y[i].0 - x[i].0).abs() < 1e-3, "{i}: {} {}", y[i].0, x[i].0);
    }
}

#[test]
fn heads_are_clipped() {
    let window: Vec<S> = spectra::hann_periodic(16);
    let head = vec![samples(&vec![9.0; 5]); 18];
    let a = head_to_audio(&head, 5, &window);
    assert_eq!(a.len(), 16);
    assert!(a.iter().all(|v| v.0.abs() <= 0.99));
    assert!(a.iter().any(|v| v.0.abs() == 0.99));
}

#[test]
fn generator_layers() {
    let matrices = hift::load_plan();
    let m = &matrices.source_linear;
    assert_eq!((m.prefix.as_str(), m.inputs, m.outputs, m.bias), ("m_source.l_linear", 9, 1, true));
    let m = &matrices.f0_classifier;
    assert_eq!(
        (m.prefix.as_str(), m.inputs, m.outputs, m.bias),
        ("f0_predictor.classifier", 512, 1, true)
    );
    let p = hift::load_plan();
    let ups: Vec<(usize, usize, usize, usize)> =
        p.ups.iter().map(|u| (u.in_channels, u.out_channels, u.kernel, u.stride)).collect();
    assert_eq!(ups, [(512, 256, 16, 8), (256, 128, 11, 5), (128, 64, 7, 3)]);
    assert_eq!(p.ups[2].prefix, "ups.2");
    assert_eq!(p.conv_pre.kernel, 7);
}

#[test]
fn streams_hand_out_blocks_with_context() {
    let cfg = StreamConfig { block: 1_280, context: 640, crossfade_24k: 8 };
    let mut s: CosyVoiceStream<S> = CosyVoiceStream::new(cfg);
    let x: Vec<S> = (0..3_200).map(|i| S(i as f32)).collect();
    s.push_16k(&x[..1_000]);
    assert!(!s.ready() && s.window().is_none());
    s.push_16k(&x[1_000..]);
    assert_eq!(s.window().unwrap(), x[..1_280].to_vec());
    assert_eq!(s.window().unwrap(), x[640..2_560].to_vec());
    assert!(!s.ready());
    // Renders at 24 kHz: the block is half as long again, and neighbours are faded.
    let first = s.emit(&vec![S(1.0); 1_920]);
    assert_eq!(first.len(), 1_912);
    assert!(first.iter().all(|v| v.0 == 1.0));
    let second = s.emit(&vec![S(3.0); 2_880]);
    assert_eq!(second.len(), 1_920);
    assert_eq!(second[0], S(1.0));
    assert!(second[4].0 > 1.0 && second[4].0 < 3.0);
    assert!(second[8..].iter().all(|v| v.0 == 3.0));
    assert_eq!(s.finish().unwrap(), vec![S(3.0); 8]);
    assert!(s.finish().is_none());
    let d = StreamConfig::default();
    assert_eq!((d.block, d.context, d.crossfade_24k), (16_000, 48_000, 1_920));
}

#[test]
fn streams_resample_what_comes_in() {
    let cfg = StreamConfig { block: 640, context: 0, crossfade_24k: 0 };
    let mut s: CosyVoiceStream<S> = CosyVoiceStream::new(cfg);
    s.push::<D>(&vec![S(0.5); 1_920], 48_000);
    let w = s.window().unwrap();
    assert_eq!(w.len(), 640);
    assert!((w[320].0 - 0.5).abs() < 1e-3);
    let out = to_output::<S, D>(&vec![S(0.25); 100]);
    assert_eq!(out.len(), 200);
    let fade: Vec<S> = raised_cosine(4);
    assert_eq!(fade[0], S(0.0));
    assert!((fade[2].0 - 0.5).abs() < 1e-6);
}

#[test]
fn chunks_see_themselves_and_the_past() {
    let m: Vec<Vec<S>> = chunk_bias(5, 2);
    for i in 0..5 {
        for j in 0..5 {
            assert_eq!(m[i][j].0 == 0.0, j / 2 <= i / 2, "{i} {j}");
        }
    }
    assert_eq!(m[0][2], S(-1e10));
}

#[test]
fn scores_are_shifted_by_relative_position() {
    let t = 4;
    let x: Vec<Vec<i32>> = (0..t).map(|i| (0..2 * t - 1).map(|k| (10 * i + k) as i32).collect()).collect();
    let y = rel_shift(&x);
    for i in 0..t {
        for j in 0..t {
            assert_eq!(y[i][j], x[i][t - 1 - i + j]);
        }
    }
    let pe = rel_pos_table::<S, D>(3);
    assert_eq!((pe.len(), pe[0].len()), (5, 512));
    // The middle row is distance zero.
    assert_eq!((pe[2][0], pe[2][1]), (S(0.0), S(1.0)));
    assert_eq!(lookahead_split(10, false), (7, 3));
    assert_eq!(lookahead_split(10, true), (10, 0));
}

#[test]
fn tokens_are_ternary_numbers() {
    assert_eq!(token_id(&vec![0; 8]), 0);
    assert_eq!(token_id(&vec![2; 8]), VOCAB - 1);
    assert_eq!(token_id(&vec![1, 0, 0, 0, 0, 0, 0, 0]), 1);
    assert_eq!(token_id(&vec![0, 0, 0, 0, 0, 0, 0, 1]), 2_187);
    let (c, s) = rotary_tables::<S, D>(3);
    assert_eq!((c.len(), s[0].len()), (3, 64));
    assert!(c[0].iter().all(|v| v.0 == 1.0) && s[0].iter().all(|v| v.0 == 0.0));
    assert!((s[1][0].0 - 1f32.sin()).abs() < 1e-6);
}

#[test]
fn guidance_and_steps() {
    let c = vec![samples(&[1.0, 2.0])];
    let n = vec![samples(&[0.5, 4.0])];
    let g = guide(&c, &n, D(0.7));
    assert!((g[0][0].0 - (1.7 - 0.35)).abs() < 1e-6);
    assert!((g[0][1].0 - (3.4 - 2.8)).abs() < 1e-6);
    let y = euler_step(&c, &n, S(0.5), 1);
    assert_eq!(floats(&y[0]), vec![0.0, 4.0]);
    assert_eq!(floats(&with_zero_head(&c, 1)[0]), vec![0.0, 2.0]);
    assert_eq!(floats(&padded_prompt(&c, 4)[0]), vec![1.0, 2.0, 0.0, 0.0]);
    assert_eq!(floats(&without_head(&c, 1)[0]), vec![2.0]);
}

#[test]
fn hops_return_as_much_as_they_took() {
    let cfg = StreamConfig { block: 1_280, context: 640, crossfade_24k: 96 };
    let mut s: CosyVoiceStream<S> = CosyVoiceStream::new(cfg);
    let render = samples(&vec![0.5; 2_880]);
    assert_eq!(s.emit(&render).len(), 1_920 - 96);
    for _ in 0..3 {
        let out = s.emit(&render);
        assert_eq!(out.len(), 1_920);
        assert_eq!(to_output::<S, D>(&out).len(), 3 * 1_280);
        assert_eq!(s.tail.as_ref().map(Vec::len), Some(96));
    }
}
