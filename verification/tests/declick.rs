use babiniku::arith::Real;
use babiniku::declick::NeedleGuard;

/// A single-precision sample.
#[derive(Clone, Copy, Debug, PartialEq)]
struct S(f32);

impl Real for S {
    fn whole(n: i64) -> Self {
        S(n as f32)
    }
    fn count(n: usize) -> Self {
        S(n as f32)
    }
    fn fraction(n: i64, d: i64) -> Self {
        S((n as f64 / d as f64) as f32)
    }
    fn unranked(n: u64) -> Self {
        S(f32::from_bits(n as u32))
    }
    fn pi() -> Self {
        S(std::f32::consts::PI)
    }
    fn lowest() -> Self {
        S(f32::MIN)
    }
    fn plus(self, other: Self) -> Self {
        S(self.0 + other.0)
    }
    fn minus(self, other: Self) -> Self {
        S(self.0 - other.0)
    }
    fn times(self, other: Self) -> Self {
        S(self.0 * other.0)
    }
    fn over(self, other: Self) -> Self {
        S(self.0 / other.0)
    }
    fn larger(self, other: Self) -> Self {
        S(self.0.max(other.0))
    }
    fn smaller(self, other: Self) -> Self {
        S(self.0.min(other.0))
    }
    fn power(self, other: Self) -> Self {
        S(self.0.powf(other.0))
    }
    fn negated(self) -> Self {
        S(-self.0)
    }
    fn absolute(self) -> Self {
        S(self.0.abs())
    }
    fn sign(self) -> Self {
        S(self.0.signum())
    }
    fn fractional(self) -> Self {
        S(self.0.fract())
    }
    fn root(self) -> Self {
        S(self.0.sqrt())
    }
    fn sine(self) -> Self {
        S(self.0.sin())
    }
    fn cosine(self) -> Self {
        S(self.0.cos())
    }
    fn exponential(self) -> Self {
        S(self.0.exp())
    }
    fn logarithm(self) -> Self {
        S(self.0.ln())
    }
    fn decimal_logarithm(self) -> Self {
        S(self.0.log10())
    }
    fn tangent(self) -> Self {
        S(self.0.tanh())
    }
    fn below(self, other: Self) -> bool {
        self.0 < other.0
    }
    fn at_most(self, other: Self) -> bool {
        self.0 <= other.0
    }
    fn rank(self) -> u64 {
        self.0.abs().to_bits() as u64
    }
    fn floor(self) -> i64 {
        self.0.floor() as i64
    }
    fn ceiling(self) -> i64 {
        self.0.ceil() as i64
    }
    fn truncated(self) -> usize {
        self.0 as usize
    }
}

fn samples(x: &[f32]) -> Vec<S> {
    x.iter().map(|v| S(*v)).collect()
}

fn floats(x: &[S]) -> Vec<f32> {
    x.iter().map(|v| v.0).collect()
}

/// The guard on plain floats.
struct Guard(NeedleGuard<S>);

impl Guard {
    fn new(rate: f32) -> Self {
        Guard(NeedleGuard::new(S(rate)))
    }
    fn latency(&self) -> usize {
        self.0.latency()
    }
    fn process(&mut self, x: &[f32]) -> Vec<f32> {
        floats(&self.0.process(&samples(x)))
    }
    fn repaired(&self) -> u64 {
        self.0.repaired
    }
}

/// A vowel-like test signal: 300 Hz with harmonics, rms ≈ 0.1.
fn vowel(n: usize) -> Vec<f32> {
    (0..n)
        .map(|i| {
            let t = i as f32 / 16_000.0;
            let f = 300.0;
            0.09 * (2.0 * std::f32::consts::PI * f * t).sin()
                + 0.05 * (4.0 * std::f32::consts::PI * f * t).sin()
                + 0.03 * (6.0 * std::f32::consts::PI * f * t).sin()
        })
        .collect()
}

#[test]
fn transparent_on_clean_speechlike_audio() {
    let x = vowel(16_000);
    let mut g = Guard::new(16_000.0);
    let y = g.process(&x);
    assert_eq!(y.len(), x.len());
    let d = g.latency();
    // Output is the input delayed by `latency()`, bit-exact.
    for i in 0..x.len() - d {
        assert_eq!(y[i + d], x[i], "sample {i} modified on clean audio");
    }
    assert_eq!(g.repaired(), 0);
}

#[test]
fn removes_decoder_needle() {
    let mut x = vowel(16_000);
    // A 7-sample tanh-saturated needle like the SAC decoder emits.
    for k in 0..7 {
        x[8_000 + k] = if k % 2 == 0 { 0.95 } else { -0.9 };
    }
    let mut g = Guard::new(16_000.0);
    let y = g.process(&x);
    let d = g.latency();
    let peak = y[8_000 + d - 32..8_000 + d + 32]
        .iter()
        .fold(0f32, |m, s| m.max(s.abs()));
    assert!(peak < 0.3, "needle survived: local peak {peak}");
    assert_eq!(g.repaired(), 1);
}

#[test]
fn keeps_natural_glottal_peaks() {
    // A sharp but natural pulse: 4x the local median is loud speech,
    // not a needle.
    let mut x = vowel(16_000);
    let med: f32 = {
        let mut m: Vec<f32> = x.iter().map(|s| s.abs()).collect();
        m.sort_by(|a, b| a.total_cmp(b));
        m[m.len() / 2]
    };
    for k in 0..12 {
        x[8_000 + k] += 3.5 * med * (std::f32::consts::PI * k as f32 / 12.0).sin();
    }
    let expected = x.clone();
    let mut g = Guard::new(16_000.0);
    let y = g.process(&x);
    let d = g.latency();
    for i in 7_900..8_100 {
        assert_eq!(y[i + d], expected[i], "natural pulse modified at {i}");
    }
}

#[test]
fn removes_small_needle_in_quiet_speech() {
    // Needles scale down with the local
    // signal — a 0.2 pulse over a soft-voiced passage still clicks.
    let mut x: Vec<f32> = vowel(16_000).iter().map(|s| s * 0.5).collect();
    for k in 0..5 {
        x[8_000 + k] = 0.2;
    }
    let mut g = Guard::new(16_000.0);
    let y = g.process(&x);
    let d = g.latency();
    let peak = y[8_000 + d - 32..8_000 + d + 32]
        .iter()
        .fold(0f32, |m, s| m.max(s.abs()));
    assert!(peak < 0.13, "small needle survived: local peak {peak}");
    assert_eq!(g.repaired(), 1);
}

#[test]
fn silent_context_is_never_touched() {
    // Repairs in near-silence are naked to the
    // ear (soft keyboard-like knocks) while needles there are barely
    // audible — below VOICED_FLOOR the guard must not act at all.
    let mut x: Vec<f32> = vowel(16_000).iter().map(|s| s * 0.1).collect();
    for k in 0..5 {
        x[8_000 + k] = 0.12;
    }
    let expected = x.clone();
    let mut g = Guard::new(16_000.0);
    let y = g.process(&x);
    let d = g.latency();
    assert_eq!(g.repaired(), 0, "guard acted in near-silence");
    for i in 7_900..8_100 {
        assert_eq!(y[i + d], expected[i]);
    }
}

#[test]
fn keeps_genuine_plosive_attack() {
    // A plosive: near-instant attack followed by a sustained burst.
    // Longer than any needle (> 2.5 ms) and not isolated — must be
    // bit-untouched even at high amplitude over a quiet context.
    let mut x = vec![0.001f32; 16_000];
    for k in 0..160 {
        // 10 ms decaying burst at 4 kHz over near-silence.
        let t = k as f32;
        x[8_000 + k] = 0.6 * (1.571 * t).sin() * (-t / 80.0).exp();
    }
    let expected = x.clone();
    let mut g = Guard::new(16_000.0);
    let y = g.process(&x);
    let d = g.latency();
    assert_eq!(g.repaired(), 0, "plosive attack was repaired");
    for i in 7_900..8_300 {
        assert_eq!(y[i + d], expected[i], "plosive modified at {i}");
    }
}

#[test]
fn declick_chunked_equals_oneshot() {
    let mut x = vowel(32_000);
    for k in 0..7 {
        x[10_000 + k] = 0.92;
        x[20_011 + k] = -0.94;
    }
    let mut g1 = Guard::new(16_000.0);
    let one = g1.process(&x);
    let mut g2 = Guard::new(16_000.0);
    let mut chunked = Vec::new();
    for c in x.chunks(3_840) {
        chunked.extend(g2.process(c));
    }
    assert_eq!(one.len(), chunked.len());
    let d = one
        .iter()
        .zip(&chunked)
        .map(|(a, b)| (a - b).abs())
        .fold(0f32, f32::max);
    assert!(d < 1e-7, "chunked/oneshot mismatch {d}");
    assert_eq!(g1.repaired(), 2);
    assert_eq!(g2.repaired(), 2);
}

#[test]
fn needle_straddling_chunk_boundary_is_repaired() {
    let mut x = vowel(16_000);
    // Needle right at a 3840-sample chunk edge.
    for k in 0..7 {
        x[3_837 + k] = 0.93;
    }
    let mut g = Guard::new(16_000.0);
    let mut y = Vec::new();
    for c in x.chunks(3_840) {
        y.extend(g.process(c));
    }
    let d = g.latency();
    let peak = y[3_837 + d - 16..3_844 + d + 16]
        .iter()
        .fold(0f32, |m, s| m.max(s.abs()));
    assert!(peak < 0.3, "boundary needle survived: {peak}");
    assert_eq!(g.repaired(), 1);
}

#[test]
fn quiet_input_comes_back_delayed_in_any_portions() {
    let x: Vec<f32> = (0..5_000).map(|i| ((i * 31) % 17) as f32 * 0.005).collect();
    let mut one = Guard::new(16_000.0);
    let all = one.process(&x);
    let mut g = Guard::new(16_000.0);
    let mut parts = Vec::new();
    for (i, c) in x.chunks(613).enumerate() {
        parts.extend(g.process(c));
        if i % 2 == 0 {
            parts.extend(g.process(&[]));
        }
    }
    assert_eq!(all, parts);
    let d = g.latency();
    assert_eq!(&all[d..], &x[..x.len() - d]);
    assert_eq!(g.repaired(), 0);
}

#[test]
fn repairs_turn_the_needle_down_and_nothing_else() {
    let mut x = vowel(16_000);
    x[8_000] = 0.95;
    let mut g = Guard::new(16_000.0);
    let y = g.process(&x);
    let d = g.latency();
    assert_eq!(g.repaired(), 1);
    let changed: Vec<usize> = (0..x.len() - d).filter(|i| y[i + d] != x[*i]).collect();
    assert!(!changed.is_empty());
    assert!(changed.iter().all(|i| (7_984..8_018).contains(i)), "{changed:?}");
    for i in 0..x.len() - d {
        let (a, b) = (x[i], y[i + d]);
        assert!(b.abs() <= a.abs() && a * b >= 0.0, "sample {i}: {a} became {b}");
    }
    // The run comes down to the local level: the median of 257 samples.
    let mut m: Vec<f32> = x[8_000 - 128..=8_000 + 128].iter().map(|s| s.abs()).collect();
    m.sort_by(|a, b| a.total_cmp(b));
    assert!((y[8_000 + d] - m[128]).abs() < 1e-6);
    // The gain falls along a straight line over the margin.
    let depth = m[128] / 0.95;
    let want = x[7_992] * (1.0 - (1.0 - depth) * 0.5);
    assert!((y[7_992 + d] - want).abs() < 1e-6);
}

#[test]
fn a_peak_after_a_loud_stretch_is_judged_once() {
    // Loud for 8 ms, a peak, and then quiet: with all of its context the peak is no needle.
    let mut x = vec![0.0f32; 4_000];
    for (k, s) in x.iter_mut().enumerate() {
        let level = if k < 2_000 { 0.2 } else { 0.02 };
        *s = if k % 2 == 0 { level } else { -level };
    }
    x[2_000] = 0.6;
    let mut g = Guard::new(16_000.0);
    let one = g.process(&x);
    let before = g.repaired();
    for size in [1, 64, 129, 152, 500, 2_100] {
        let mut g = Guard::new(16_000.0);
        let parts: Vec<f32> = x.chunks(size).flat_map(|c| g.process(c)).collect();
        assert_eq!(parts, one, "chunks of {size}");
        assert_eq!(g.repaired(), before);
    }
    assert_eq!(before, 0);
}

#[test]
fn needles_are_repaired_alike_in_any_portions() {
    let mut x = vowel(12_000);
    for (n, at) in [700usize, 1_000, 1_024, 3_333, 3_400, 8_191, 8_300].iter().enumerate() {
        for k in 0..(1 + n % 7) {
            x[at + k] = if k % 2 == 0 { 0.9 } else { -0.85 };
        }
    }
    let mut g = Guard::new(16_000.0);
    let one = g.process(&x);
    assert!(g.repaired() > 0);
    for size in [1, 13, 152, 1_024, 5_000] {
        let mut h = Guard::new(16_000.0);
        let parts: Vec<f32> = x.chunks(size).flat_map(|c| h.process(c)).collect();
        assert_eq!(parts, one, "chunks of {size}");
        assert_eq!(h.repaired(), g.repaired());
    }
}
