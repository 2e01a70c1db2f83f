//! The vocoder: a harmonic source, its short-time spectrum, the inverse transform of the head,
//! and the layers that the checkpoint holds.

use vstd::prelude::*;
use vstd::string::StringExecFns;
use crate::arith;
use crate::arith::Real;
use crate::arith::Wide;
use crate::fourier;
use crate::fourier::Complex;
use crate::fourier::Transform;
use crate::overlap;
use crate::plan;
use crate::plan::ConvPlan;
use crate::plan::ConvShape;
use crate::plan::LinearPlan;
use crate::rng;
use crate::rng::Rng;
use crate::spectra;

verus! {

/// The fundamental and its overtones.
pub const HARMONICS: usize = 9;

/// Audio samples for each mel frame.
pub const UPSAMPLE: usize = 480;

/// Length of the transform of the head.
pub const N_FFT: usize = 16;

/// Samples from frame to frame of the head.
pub const HOP: usize = 4;

/// Bins of the spectrum of the head.
pub const BINS: usize = 9;

/// Where the random source starts.
pub const SEED: u64 = 0x9E3779B97F4A7C15;

/// How the random parts of the source are filled.
#[derive(Clone, Copy, PartialEq, Eq, Structural)]
pub enum NoiseMode {
    /// With zeros.
    Deterministic,
    /// With random phases of the overtones and Gaussian noise.
    Random,
}

/// Where the value `i` of `out_len` lies between `in_len` values, centres on centres.
pub open spec fn interp_place<W: Real>(in_len: int, out_len: int, i: int) -> W {
    arith::larger(
        arith::minus(
            arith::times(
                arith::plus(arith::count(i as usize), arith::fraction(1, 2)),
                arith::over(
                    arith::count::<W>(in_len as usize),
                    arith::count(out_len as usize),
                ),
            ),
            arith::fraction(1, 2),
        ),
        arith::whole(0),
    )
}

/// The whole part of a place.
pub open spec fn interp_cell<W: Real>(pos: W) -> i64 {
    if arith::floor(pos) < 0 {
        0
    } else {
        arith::floor(pos)
    }
}

/// A place in a list of `n` values, held at its end.
pub open spec fn held(i: int, n: int) -> int {
    if i < n {
        i
    } else {
        n - 1
    }
}

/// The linear interpolation of `input` to `out_len` values.
pub open spec fn interpolated<T: Real, W: Wide<T>>(input: Seq<T>, out_len: int) -> Seq<T> {
    Seq::new(
        out_len as nat,
        |i: int|
            {
                let n = input.len() as int;
                let pos = interp_place::<W>(n, out_len, i);
                let cell = interp_cell(pos);
                let frac = arith::narrowed::<T, W>(arith::minus(pos, arith::whole(cell)));
                arith::plus(
                    arith::times(
                        input[held(cell as int, n)],
                        arith::minus(arith::whole(1), frac),
                    ),
                    arith::times(input[held(cell + 1, n)], frac),
                )
            },
    )
}

/// Interpolates `input` linearly to `out_len` values, centres on centres.
pub fn interp_linear<T: Real, W: Wide<T>>(input: &Vec<T>, out_len: usize) -> (out: Vec<T>)
    requires
        input.len() > 0,
    ensures
        out.len() == out_len,
        arith::wide_deterministic::<T, W>() ==> out@ == interpolated::<T, W>(
            input@,
            out_len as int,
        ),
{
    let n: usize = input.len();
    let scale: W = W::count(n).over(W::count(out_len));
    let mut out: Vec<T> = Vec::new();
    let mut i: usize = 0;
    while i < out_len
        invariant
            i <= out_len,
            n == input.len(),
            n > 0,
            arith::wide_deterministic::<T, W>() ==> scale == arith::over(
                arith::count::<W>(n),
                arith::count(out_len),
            ),
            out.len() == i,
            arith::wide_deterministic::<T, W>() ==> forall|k: int|
                0 <= k < i ==> #[trigger] out@[k] == interpolated::<T, W>(
                    input@,
                    out_len as int,
                )[k],
        decreases out_len - i,
    {
        let pos: W = W::count(i).plus(W::fraction(1, 2)).times(scale).minus(
            W::fraction(1, 2),
        ).larger(W::whole(0));
        let floor: i64 = pos.floor();
        let cell: i64 = if floor < 0 { 0 } else { floor };
        let i0: usize = if (cell as u64) < n as u64 { cell as usize } else { n - 1 };
        let i1: usize = if (cell as u64) < (n - 1) as u64 { cell as usize + 1 } else { n - 1 };
        let frac: T = pos.minus(W::whole(cell)).narrowed();
        out.push(input[i0].times(T::whole(1).minus(frac)).plus(input[i1].times(frac)));
        i = i + 1;
    }
    proof {
        if arith::wide_deterministic::<T, W>() {
            assert(out@ =~= interpolated::<T, W>(input@, out_len as int));
        }
    }
    out
}

/// The phase steps of harmonic `h`, in turns per sample; the first one starts `ini` further on.
pub open spec fn turns<T: Real>(f0: Seq<T>, h: int, ini: T) -> Seq<T> {
    Seq::new(
        (f0.len() * 480) as nat,
        |i: int|
            {
                let r = arith::fractional(
                    arith::over(
                        arith::times(f0[i / 480], arith::count((h + 1) as usize)),
                        arith::whole(24_000),
                    ),
                );
                if i == 0 {
                    arith::plus(r, ini)
                } else {
                    r
                }
            },
    )
}

/// The sum of the first `n` values in the wider type.
pub open spec fn running_sum<T: Real, W: Wide<T>>(x: Seq<T>, n: int) -> W
    decreases n,
{
    if n <= 0 {
        arith::whole(0)
    } else {
        arith::plus(running_sum::<T, W>(x, n - 1), arith::widened::<T, W>(x[n - 1]))
    }
}

/// The phases after the steps `x`, each scaled to the samples of a frame.
pub open spec fn scaled_phases<T: Real, W: Wide<T>>(x: Seq<T>) -> Seq<T> {
    Seq::new(
        x.len(),
        |i: int|
            arith::times(
                arith::narrowed::<T, W>(
                    arith::times(
                        arith::times(running_sum::<T, W>(x, i + 1), arith::whole(2)),
                        arith::pi(),
                    ),
                ),
                arith::count(480),
            ),
    )
}

/// Harmonic `h` of the frequencies `f0`: a tenth of the sine of its phase.
pub open spec fn harmonic<T: Real, W: Wide<T>>(f0: Seq<T>, h: int, ini: T) -> Seq<T> {
    let t = f0.len() as int;
    let down = interpolated::<T, W>(turns(f0, h, ini), t);
    let phase = interpolated::<T, W>(scaled_phases::<T, W>(down), t * 480);
    Seq::new(
        (t * 480) as nat,
        |i: int| arith::times(arith::sine(phase[i]), arith::fraction(1, 10)),
    )
}

/// Harmonic `h` of the frequencies `f0`.
fn harmonic_of<T: Real, W: Wide<T>>(f0: &Vec<T>, h: usize, ini: T) -> (out: Vec<T>)
    requires
        f0.len() > 0,
        f0.len() * 480 <= usize::MAX,
        h < HARMONICS,
    ensures
        out.len() == f0.len() * 480,
        arith::wide_deterministic::<T, W>() ==> out@ == harmonic::<T, W>(f0@, h as int, ini),
{
    let t: usize = f0.len();
    let l: usize = t * 480;
    let mut rad: Vec<T> = Vec::new();
    let mut i: usize = 0;
    while i < l
        invariant
            i <= l == t * 480,
            t == f0.len(),
            h < HARMONICS,
            rad.len() == i,
            arith::deterministic::<T>() ==> forall|k: int|
                0 <= k < i ==> #[trigger] rad@[k] == turns(f0@, h as int, ini)[k],
        decreases l - i,
    {
        let r: T = f0[i / 480].times(T::count(h + 1)).over(T::whole(24_000)).fractional();
        if i == 0 {
            rad.push(r.plus(ini));
        } else {
            rad.push(r);
        }
        i = i + 1;
    }
    proof {
        if arith::deterministic::<T>() {
            assert(rad@ =~= turns(f0@, h as int, ini));
        }
    }
    let down: Vec<T> = interp_linear::<T, W>(&rad, t);
    let mut scaled: Vec<T> = Vec::new();
    let mut acc: W = W::whole(0);
    let mut j: usize = 0;
    while j < t
        invariant
            j <= t == down.len(),
            scaled.len() == j,
            arith::wide_deterministic::<T, W>() ==> acc == running_sum::<T, W>(down@, j as int),
            arith::wide_deterministic::<T, W>() ==> forall|k: int|
                0 <= k < j ==> #[trigger] scaled@[k] == scaled_phases::<T, W>(down@)[k],
        decreases t - j,
    {
        acc = acc.plus(W::widened(down[j]));
        let phase: T = acc.times(W::whole(2)).times(W::pi()).narrowed();
        scaled.push(phase.times(T::count(480)));
        j = j + 1;
    }
    proof {
        if arith::wide_deterministic::<T, W>() {
            assert(scaled@ =~= scaled_phases::<T, W>(down@));
        }
    }
    let phase: Vec<T> = interp_linear::<T, W>(&scaled, l);
    let mut out: Vec<T> = Vec::new();
    let mut k: usize = 0;
    while k < l
        invariant
            k <= l == phase.len(),
            out.len() == k,
            arith::deterministic::<T>() ==> forall|m: int|
                0 <= m < k ==> #[trigger] out@[m] == arith::times(
                    arith::sine(phase@[m]),
                    arith::fraction(1, 10),
                ),
        decreases l - k,
    {
        out.push(phase[k].sine().times(T::fraction(1, 10)));
        k = k + 1;
    }
    proof {
        if arith::wide_deterministic::<T, W>() {
            assert(out@ =~= harmonic::<T, W>(f0@, h as int, ini));
        }
    }
    out
}

/// The random number `n` of the source, counted from one.
pub open spec fn draw<T: Real, W: Wide<T>>(n: int) -> T {
    rng::narrow_unit::<T, W>(rng::state_after(SEED, n as nat))
}

/// The initial phase of harmonic `h`: the fundamental and a source without noise have none.
pub open spec fn initial_phase<T: Real, W: Wide<T>>(h: int, mode: NoiseMode) -> T {
    if h == 0 || mode == NoiseMode::Deterministic {
        arith::whole(0)
    } else {
        draw::<T, W>(h)
    }
}

/// Whether a frame with the frequency `f` is voiced, as a number.
pub open spec fn voicing<T: Real>(f: T) -> T {
    if arith::below(arith::whole(10), f) {
        arith::whole(1)
    } else {
        arith::whole(0)
    }
}

/// The noise of harmonic `h` at sample `i`.
pub open spec fn noise_at<T: Real, W: Wide<T>>(uv: T, mode: NoiseMode, i: int, h: int) -> T {
    if mode == NoiseMode::Deterministic {
        arith::whole(0)
    } else {
        let amp = arith::plus(
            arith::times(uv, arith::fraction(3, 1000)),
            arith::over(
                arith::times(arith::minus(arith::whole(1), uv), arith::fraction(1, 10)),
                arith::whole(3),
            ),
        );
        let n = 8 + 2 * (9 * i + h);
        arith::times(amp, rng::normal(draw::<T, W>(n + 1), draw::<T, W>(n + 2)))
    }
}

/// The weighted sum of the first `n` harmonics at sample `i`, on top of the bias.
pub open spec fn mixed<T: Real, W: Wide<T>>(
    f0: Seq<T>,
    harmonics: Seq<Seq<T>>,
    weight: Seq<T>,
    bias: T,
    mode: NoiseMode,
    i: int,
    n: int,
) -> T
    decreases n,
{
    if n <= 0 {
        bias
    } else {
        let h = n - 1;
        let uv = voicing(f0[i / 480]);
        arith::plus(
            mixed::<T, W>(f0, harmonics, weight, bias, mode, i, h),
            arith::times(
                weight[h],
                arith::plus(
                    arith::times(harmonics[h][i], uv),
                    noise_at::<T, W>(uv, mode, i, h),
                ),
            ),
        )
    }
}

/// All harmonics of the frequencies `f0`.
pub open spec fn all_harmonics<T: Real, W: Wide<T>>(f0: Seq<T>, mode: NoiseMode) -> Seq<Seq<T>> {
    Seq::new(9, |h: int| harmonic::<T, W>(f0, h, initial_phase::<T, W>(h, mode)))
}

/// The source for the frequencies `f0`.
pub open spec fn source_of<T: Real, W: Wide<T>>(
    f0: Seq<T>,
    weight: Seq<T>,
    bias: T,
    mode: NoiseMode,
) -> Seq<T> {
    let harmonics = all_harmonics::<T, W>(f0, mode);
    Seq::new(
        (f0.len() * 480) as nat,
        |i: int|
            arith::tangent(mixed::<T, W>(f0, harmonics, weight, bias, mode, i, 9)),
    )
}

/// The next draws of the source, after `n` of them.
proof fn lemma_draws(n: int)
    requires
        n >= 0,
    ensures
        rng::advanced(rng::state_after(SEED, n as nat)) == rng::state_after(SEED, (n + 1) as nat),
        rng::advanced(rng::state_after(SEED, (n + 1) as nat)) == rng::state_after(
            SEED,
            (n + 2) as nat,
        ),
{
}

/// The harmonic source for the frequencies `f0`, one for each frame: 480 samples for each.
/// `weight` and `bias` merge the harmonics.
pub fn nsf_source<T: Real, W: Wide<T>>(
    f0: &Vec<T>,
    weight: &Vec<T>,
    bias: T,
    mode: NoiseMode,
) -> (s: Vec<T>)
    requires
        f0.len() > 0,
        f0.len() * 480 <= usize::MAX,
        weight.len() == HARMONICS,
    ensures
        s.len() == f0.len() * 480,
        arith::wide_deterministic::<T, W>() ==> s@ == source_of::<T, W>(
            f0@,
            weight@,
            bias,
            mode,
        ),
{
    let l: usize = f0.len() * 480;
    let mut rng = Rng { state: SEED };
    let mut rows: Vec<Vec<T>> = Vec::new();
    let mut h: usize = 0;
    while h < HARMONICS
        invariant
            h <= HARMONICS,
            f0.len() > 0,
            l == f0.len() * 480,
            l <= usize::MAX,
            mode == NoiseMode::Random ==> rng.state == rng::state_after(
                SEED,
                (if h == 0 { 0 } else { h - 1 }) as nat,
            ),
            rows.len() == h,
            forall|k: int| 0 <= k < h ==> (#[trigger] rows@[k]).len() == l,
            arith::wide_deterministic::<T, W>() ==> forall|k: int|
                0 <= k < h ==> (#[trigger] rows@[k])@ == harmonic::<T, W>(
                    f0@,
                    k,
                    initial_phase::<T, W>(k, mode),
                ),
        decreases HARMONICS - h,
    {
        let ini: T = if h == 0 || mode == NoiseMode::Deterministic {
            T::whole(0)
        } else {
            proof {
                lemma_draws(h - 1);
            }
            rng.uniform::<T, W>()
        };
        rows.push(harmonic_of::<T, W>(f0, h, ini));
        h = h + 1;
    }
    proof {
        if arith::wide_deterministic::<T, W>() {
            assert(spectra::grid(rows@) =~= all_harmonics::<T, W>(f0@, mode));
        }
    }
    let ghost harmonics = spectra::grid(rows@);
    let mut s: Vec<T> = Vec::new();
    let mut i: usize = 0;
    while i < l
        invariant
            i <= l == f0.len() * 480,
            weight.len() == HARMONICS,
            rows.len() == HARMONICS,
            forall|k: int| 0 <= k < HARMONICS ==> (#[trigger] rows@[k]).len() == l,
            harmonics == spectra::grid(rows@),
            mode == NoiseMode::Random ==> rng.state == rng::state_after(
                SEED,
                (8 + 18 * i) as nat,
            ),
            s.len() == i,
            arith::wide_deterministic::<T, W>() ==> forall|k: int|
                0 <= k < i ==> #[trigger] s@[k] == arith::tangent(
                    mixed::<T, W>(f0@, harmonics, weight@, bias, mode, k, 9),
                ),
        decreases l - i,
    {
        let f: T = f0[i / 480];
        let uv: T = if T::whole(10).below(f) { T::whole(1) } else { T::whole(0) };
        let amp: T = uv.times(T::fraction(3, 1000)).plus(
            T::whole(1).minus(uv).times(T::fraction(1, 10)).over(T::whole(3)),
        );
        let mut acc: T = bias;
        let mut k: usize = 0;
        while k < HARMONICS
            invariant
                k <= HARMONICS,
                i < l == f0.len() * 480,
                f == f0@[i as int / 480],
                weight.len() == HARMONICS,
                rows.len() == HARMONICS,
                forall|j: int| 0 <= j < HARMONICS ==> (#[trigger] rows@[j]).len() == l,
                harmonics == spectra::grid(rows@),
                mode == NoiseMode::Random ==> rng.state == rng::state_after(
                    SEED,
                    (8 + 18 * i + 2 * k) as nat,
                ),
                arith::wide_deterministic::<T, W>() ==> uv == voicing(f) && amp == arith::plus(
                    arith::times(uv, arith::fraction(3, 1000)),
                    arith::over(
                        arith::times(arith::minus(arith::whole(1), uv), arith::fraction(1, 10)),
                        arith::whole(3),
                    ),
                ),
                arith::wide_deterministic::<T, W>() ==> acc == mixed::<T, W>(
                    f0@,
                    harmonics,
                    weight@,
                    bias,
                    mode,
                    i as int,
                    k as int,
                ),
            decreases HARMONICS - k,
        {
            let noise: T = match mode {
                NoiseMode::Deterministic => T::whole(0),
                NoiseMode::Random => {
                    proof {
                        lemma_draws(8 + 18 * i + 2 * k);
                    }
                    amp.times(rng.gaussian::<T, W>())
                },
            };
            let v: T = rows[k][i].times(uv).plus(noise);
            acc = acc.plus(weight[k].times(v));
            k = k + 1;
        }
        s.push(acc.tangent());
        i = i + 1;
    }
    proof {
        if arith::wide_deterministic::<T, W>() {
            assert(s@ =~= source_of::<T, W>(f0@, weight@, bias, mode));
        }
    }
    s
}

/// The spectrum of frame `f` of a source.
pub open spec fn source_bins<T: Real, F: Transform<T>>(
    s: Seq<T>,
    window: Seq<T>,
    fft: F,
    f: int,
) -> Seq<Complex<T>> {
    spectra::frame_bins::<T, F>(spectra::reflected(s, 8), f * 4, 0, window, 16, fft)
}

/// The short-time spectrum of a source: nine rows of real parts, then nine of imaginary parts,
/// one value for each frame.
pub fn stft_source<T: Real, F: Transform<T>>(s: &[T], window: &Vec<T>, fft: &F) -> (out: Vec<
    Vec<T>,
>)
    requires
        s.len() > 0,
        s.len() + 32 <= usize::MAX,
        window.len() == N_FFT,
        fourier::keeps_length::<T, F>(*fft),
    ensures
        out.len() == 18,
        forall|b: int| 0 <= b < 18 ==> (#[trigger] out@[b]).len() == 1 + s.len() / 4,
        arith::deterministic::<T>() && fourier::functional::<T, F>(*fft) ==> forall|
            b: int,
            f: int,
        |
            0 <= b < 18 && 0 <= f < 1 + s.len() / 4 ==> #[trigger] out@[b]@[f] == ({
                let bins = source_bins::<T, F>(s@, window@, *fft, f);
                if b < 9 {
                    bins[b].re
                } else {
                    bins[b - 9].im
                }
            }),
{
    let x: Vec<T> = spectra::reflect_pad(s, 8);
    let frames: usize = 1 + (x.len() - 16) / 4;
    let mut rows: Vec<Vec<T>> = Vec::new();
    let mut f: usize = 0;
    while f < frames
        invariant
            x@ == spectra::reflected(s@, 8),
            x.len() == s.len() + 16,
            s.len() + 32 <= usize::MAX,
            frames == 1 + s.len() / 4,
            window.len() == N_FFT,
            fourier::keeps_length::<T, F>(*fft),
            f <= frames,
            rows.len() == f,
            forall|k: int| 0 <= k < f ==> (#[trigger] rows@[k]).len() == 18,
            arith::deterministic::<T>() && fourier::functional::<T, F>(*fft) ==> forall|
                k: int,
                b: int,
            |
                0 <= k < f && 0 <= b < 18 ==> #[trigger] rows@[k]@[b] == ({
                    let bins = source_bins::<T, F>(s@, window@, *fft, k);
                    if b < 9 {
                        bins[b].re
                    } else {
                        bins[b - 9].im
                    }
                }),
        decreases frames - f,
    {
        let bins: Vec<Complex<T>> = spectra::analyse(&x, f * 4, 0, window, 16, fft);
        let mut row: Vec<T> = Vec::new();
        let mut b: usize = 0;
        while b < 18
            invariant
                b <= 18,
                bins.len() == 16,
                row.len() == b,
                forall|k: int|
                    0 <= k < b ==> #[trigger] row@[k] == (if k < 9 {
                        bins@[k].re
                    } else {
                        bins@[k - 9].im
                    }),
            decreases 18 - b,
        {
            if b < 9 {
                row.push(bins[b].re);
            } else {
                row.push(bins[b - 9].im);
            }
            b = b + 1;
        }
        rows.push(row);
        f = f + 1;
    }
    spectra::transpose(&rows, 18)
}

/// The angle of bin `k` at sample `n` of a frame.
pub open spec fn angle<T: Real>(k: int, n: int) -> T {
    arith::over(
        arith::times(
            arith::times(
                arith::times(arith::whole(2), arith::pi()),
                arith::count(k as usize),
            ),
            arith::count(n as usize),
        ),
        arith::count(16),
    )
}

/// The share of the first `count` bins in sample `n` of frame `f`.
pub open spec fn bin_sum<T: Real>(
    mag: Seq<Seq<T>>,
    phase: Seq<Seq<T>>,
    f: int,
    n: int,
    count: int,
) -> T
    decreases count,
{
    if count <= 0 {
        arith::whole(0)
    } else {
        let k = count - 1;
        let m = mag[k][f];
        let p = phase[k][f];
        let w = if k == 0 || k == 8 {
            arith::whole::<T>(1)
        } else {
            arith::whole::<T>(2)
        };
        arith::plus(
            bin_sum(mag, phase, f, n, k),
            arith::times(
                w,
                arith::minus(
                    arith::times(
                        arith::times(m, arith::cosine(p)),
                        arith::cosine(angle::<T>(k, n)),
                    ),
                    arith::times(
                        arith::times(m, arith::sine(p)),
                        arith::sine(angle::<T>(k, n)),
                    ),
                ),
            ),
        )
    }
}

/// Frame `f` in time: sixteen samples of the inverse transform.
pub open spec fn time_frame<T: Real>(mag: Seq<Seq<T>>, phase: Seq<Seq<T>>, f: int) -> Seq<T> {
    Seq::new(16, |n: int| arith::over(bin_sum(mag, phase, f, n, 9), arith::count(16)))
}

/// The frames of the spectrum `mag`, `phase` in time.
pub open spec fn time_frames<T: Real>(
    mag: Seq<Seq<T>>,
    phase: Seq<Seq<T>>,
    frames: int,
) -> Seq<Seq<T>> {
    Seq::new(frames as nat, |f: int| time_frame(mag, phase, f))
}

/// The inverse short-time transform of nine magnitudes and nine phases for each of `frames`
/// frames.
pub fn istft<T: Real>(
    mag: &Vec<Vec<T>>,
    phase: &Vec<Vec<T>>,
    frames: usize,
    window: &Vec<T>,
) -> (out: Vec<T>)
    requires
        frames > 0,
        (frames - 1) * 4 + 16 <= usize::MAX,
        window.len() == N_FFT,
        mag.len() == BINS,
        phase.len() == BINS,
        forall|k: int| 0 <= k < BINS ==> (#[trigger] mag@[k]).len() == frames,
        forall|k: int| 0 <= k < BINS ==> (#[trigger] phase@[k]).len() == frames,
    ensures
        out.len() == (frames - 1) * 4,
        arith::deterministic::<T>() ==> out@ == overlap::overlapped(
            time_frames(spectra::grid(mag@), spectra::grid(phase@), frames as int),
            window@,
            4,
        ),
{
    let ghost gm = spectra::grid(mag@);
    let ghost gp = spectra::grid(phase@);
    let mut rows: Vec<Vec<T>> = Vec::new();
    let mut f: usize = 0;
    while f < frames
        invariant
            f <= frames,
            mag.len() == BINS,
            phase.len() == BINS,
            forall|k: int| 0 <= k < BINS ==> (#[trigger] mag@[k]).len() == frames,
            forall|k: int| 0 <= k < BINS ==> (#[trigger] phase@[k]).len() == frames,
            gm == spectra::grid(mag@),
            gp == spectra::grid(phase@),
            rows.len() == f,
            forall|k: int| 0 <= k < f ==> (#[trigger] rows@[k]).len() == 16,
            arith::deterministic::<T>() ==> forall|k: int|
                0 <= k < f ==> (#[trigger] rows@[k])@ == time_frame(gm, gp, k),
        decreases frames - f,
    {
        let mut frame: Vec<T> = Vec::new();
        let mut n: usize = 0;
        while n < 16
            invariant
                n <= 16,
                f < frames,
                mag.len() == BINS,
                phase.len() == BINS,
                forall|k: int| 0 <= k < BINS ==> (#[trigger] mag@[k]).len() == frames,
                forall|k: int| 0 <= k < BINS ==> (#[trigger] phase@[k]).len() == frames,
                gm == spectra::grid(mag@),
                gp == spectra::grid(phase@),
                frame.len() == n,
                arith::deterministic::<T>() ==> forall|k: int|
                    0 <= k < n ==> #[trigger] frame@[k] == time_frame(gm, gp, f as int)[k],
            decreases 16 - n,
        {
            let mut acc: T = T::whole(0);
            let mut k: usize = 0;
            while k < 9
                invariant
                    k <= 9,
                    f < frames,
                    mag.len() == BINS,
                    phase.len() == BINS,
                    forall|j: int| 0 <= j < BINS ==> (#[trigger] mag@[j]).len() == frames,
                    forall|j: int| 0 <= j < BINS ==> (#[trigger] phase@[j]).len() == frames,
                    gm == spectra::grid(mag@),
                    gp == spectra::grid(phase@),
                    arith::deterministic::<T>() ==> acc == bin_sum(
                        gm,
                        gp,
                        f as int,
                        n as int,
                        k as int,
                    ),
                decreases 9 - k,
            {
                let m: T = mag[k][f];
                let p: T = phase[k][f];
                let ang: T = T::whole(2).times(T::pi()).times(T::count(k)).times(
                    T::count(n),
                ).over(T::count(16));
                let w: T = if k == 0 || k == 8 { T::whole(1) } else { T::whole(2) };
                let re: T = m.times(p.cosine());
                let im: T = m.times(p.sine());
                acc = acc.plus(w.times(re.times(ang.cosine()).minus(im.times(ang.sine()))));
                k = k + 1;
            }
            frame.push(acc.over(T::count(16)));
            n = n + 1;
        }
        proof {
            if arith::deterministic::<T>() {
                assert(frame@ =~= time_frame(gm, gp, f as int));
            }
        }
        rows.push(frame);
        f = f + 1;
    }
    proof {
        if arith::deterministic::<T>() {
            assert(spectra::grid(rows@) =~= time_frames(gm, gp, frames as int));
        }
    }
    overlap::overlap_add(&rows, window, 4)
}

/// The magnitudes of the head: the exponentials of its first nine rows, held at 100.
pub open spec fn head_magnitudes<T: Real>(head: Seq<Seq<T>>) -> Seq<Seq<T>> {
    Seq::new(
        9,
        |k: int|
            Seq::new(
                head[k].len(),
                |f: int| arith::smaller(arith::exponential(head[k][f]), arith::whole(100)),
            ),
    )
}

/// The phases of the head: the sines of its last nine rows.
pub open spec fn head_phases<T: Real>(head: Seq<Seq<T>>) -> Seq<Seq<T>> {
    Seq::new(
        9,
        |k: int| Seq::new(head[9 + k].len(), |f: int| arith::sine(head[9 + k][f])),
    )
}

/// The audio of the 18 rows of the head: the inverse transform, held between -0.99 and 0.99.
pub fn head_to_audio<T: Real>(head: &Vec<Vec<T>>, frames: usize, window: &Vec<T>) -> (audio: Vec<T>)
    requires
        frames > 0,
        (frames - 1) * 4 + 16 <= usize::MAX,
        window.len() == N_FFT,
        head.len() == 18,
        forall|k: int| 0 <= k < 18 ==> (#[trigger] head@[k]).len() == frames,
    ensures
        audio.len() == (frames - 1) * 4,
        arith::deterministic::<T>() ==> ({
            let grid = spectra::grid(head@);
            let raw = overlap::overlapped(
                time_frames(head_magnitudes(grid), head_phases(grid), frames as int),
                window@,
                4,
            );
            audio@ == Seq::new(
                raw.len(),
                |i: int|
                    arith::clamped(
                        raw[i],
                        arith::negated(arith::fraction(99, 100)),
                        arith::fraction(99, 100),
                    ),
            )
        }),
{
    let mut mag: Vec<Vec<T>> = Vec::new();
    let mut phase: Vec<Vec<T>> = Vec::new();
    let ghost grid = spectra::grid(head@);
    let mut k: usize = 0;
    while k < 9
        invariant
            k <= 9,
            head.len() == 18,
            grid == spectra::grid(head@),
            forall|j: int| 0 <= j < 18 ==> (#[trigger] head@[j]).len() == frames,
            mag.len() == k,
            phase.len() == k,
            forall|j: int| 0 <= j < k ==> (#[trigger] mag@[j]).len() == frames,
            forall|j: int| 0 <= j < k ==> (#[trigger] phase@[j]).len() == frames,
            arith::deterministic::<T>() ==> forall|j: int|
                0 <= j < k ==> (#[trigger] mag@[j])@ == head_magnitudes(grid)[j],
            arith::deterministic::<T>() ==> forall|j: int|
                0 <= j < k ==> (#[trigger] phase@[j])@ == head_phases(grid)[j],
        decreases 9 - k,
    {
        let mut ms: Vec<T> = Vec::new();
        let mut ps: Vec<T> = Vec::new();
        let mut f: usize = 0;
        while f < frames
            invariant
                f <= frames,
                k < 9,
                head.len() == 18,
                forall|j: int| 0 <= j < 18 ==> (#[trigger] head@[j]).len() == frames,
                ms.len() == f,
                ps.len() == f,
                arith::deterministic::<T>() ==> forall|j: int|
                    0 <= j < f ==> #[trigger] ms@[j] == arith::smaller(
                        arith::exponential(head@[k as int]@[j]),
                        arith::whole(100),
                    ),
                arith::deterministic::<T>() ==> forall|j: int|
                    0 <= j < f ==> #[trigger] ps@[j] == arith::sine(head@[9 + k]@[j]),
            decreases frames - f,
        {
            ms.push(head[k][f].exponential().smaller(T::whole(100)));
            ps.push(head[9 + k][f].sine());
            f = f + 1;
        }
        proof {
            if arith::deterministic::<T>() {
                assert(ms@ =~= head_magnitudes(grid)[k as int]);
                assert(ps@ =~= head_phases(grid)[k as int]);
            }
        }
        mag.push(ms);
        phase.push(ps);
        k = k + 1;
    }
    proof {
        if arith::deterministic::<T>() {
            assert(spectra::grid(mag@) =~= head_magnitudes(grid));
            assert(spectra::grid(phase@) =~= head_phases(grid));
        }
    }
    let raw: Vec<T> = istft(&mag, &phase, frames, window);
    let limit: T = T::fraction(99, 100);
    let mut audio: Vec<T> = Vec::new();
    let mut i: usize = 0;
    while i < raw.len()
        invariant
            i <= raw.len(),
            audio.len() == i,
            arith::deterministic::<T>() ==> limit == arith::fraction::<T>(99, 100),
            arith::deterministic::<T>() ==> forall|j: int|
                0 <= j < i ==> #[trigger] audio@[j] == arith::clamped(
                    raw@[j],
                    arith::negated(arith::fraction(99, 100)),
                    arith::fraction(99, 100),
                ),
        decreases raw.len() - i,
    {
        audio.push(arith::clamp(raw[i], limit.negated(), limit));
        i = i + 1;
    }
    proof {
        if arith::deterministic::<T>() {
            assert(audio@ =~= Seq::new(
                raw@.len(),
                |i: int|
                    arith::clamped(
                        raw@[i],
                        arith::negated(arith::fraction(99, 100)),
                        arith::fraction(99, 100),
                    ),
            ));
        }
    }
    audio
}

/// The channels of stage `i` of the generator: half as many from stage to stage.
pub open spec fn stage_channels(i: int) -> int {
    if i == 0 {
        256
    } else if i == 1 {
        128
    } else {
        64
    }
}

/// The transposed convolution of stage `i`.
pub open spec fn up_shape(i: int) -> ConvShape {
    let name = plan::numbered_name("ups."@, i as nat);
    if i == 0 {
        plan::conv_shape(name, 512, 256, 16, 8, 4)
    } else if i == 1 {
        plan::conv_shape(name, 256, 128, 11, 5, 3)
    } else {
        plan::conv_shape(name, 128, 64, 7, 3, 2)
    }
}

/// The convolution that brings the source to stage `i`.
pub open spec fn source_down_shape(i: int) -> ConvShape {
    let name = plan::numbered_name("source_downs."@, i as nat);
    if i == 0 {
        plan::conv_shape(name, 18, 256, 30, 15, 7)
    } else if i == 1 {
        plan::conv_shape(name, 18, 128, 6, 3, 1)
    } else {
        plan::conv_shape(name, 18, 64, 1, 1, 0)
    }
}

/// The dilation of step `i` of a residual block.
pub open spec fn dilation(i: int) -> int {
    if i == 0 {
        1
    } else if i == 1 {
        3
    } else {
        5
    }
}

/// A residual block: where its weights stand, its channels, the length of its kernels.
pub struct ResBlockShape {
    /// Where its weights stand.
    pub prefix: Seq<char>,
    /// Its channels.
    pub channels: int,
    /// The dilated convolutions.
    pub convs1: Seq<ConvShape>,
    /// The plain convolutions.
    pub convs2: Seq<ConvShape>,
    /// The names of the activations before the dilated convolutions.
    pub alphas1: Seq<Seq<char>>,
    /// The names of the activations before the plain convolutions.
    pub alphas2: Seq<Seq<char>>,
}

/// The dilated convolution of step `i`: padded so that the length stays.
pub open spec fn dilated_shape(prefix: Seq<char>, ch: int, k: int, i: int) -> ConvShape {
    ConvShape {
        dilation: dilation(i),
        ..plan::conv_shape(
            plan::numbered_name(prefix + ".convs1."@, i as nat),
            ch,
            ch,
            k,
            1,
            (k - 1) / 2 * dilation(i),
        )
    }
}

/// The plain convolution of step `i`.
pub open spec fn plain_shape(prefix: Seq<char>, ch: int, k: int, i: int) -> ConvShape {
    plan::conv_shape(
        plan::numbered_name(prefix + ".convs2."@, i as nat),
        ch,
        ch,
        k,
        1,
        (k - 1) / 2,
    )
}

/// The residual block with the name `prefix`.
pub open spec fn resblock_shape(prefix: Seq<char>, ch: int, k: int) -> ResBlockShape {
    ResBlockShape {
        prefix,
        channels: ch,
        convs1: Seq::new(3, |i: int| dilated_shape(prefix, ch, k, i)),
        convs2: Seq::new(3, |i: int| plain_shape(prefix, ch, k, i)),
        alphas1: Seq::new(
            3,
            |i: int| plan::numbered_name(prefix + ".activations1."@, i as nat) + ".alpha"@,
        ),
        alphas2: Seq::new(
            3,
            |i: int| plan::numbered_name(prefix + ".activations2."@, i as nat) + ".alpha"@,
        ),
    }
}

/// A residual block of the generator.
pub struct ResBlockPlan {
    /// Where its weights stand.
    pub prefix: String,
    /// Its channels.
    pub channels: usize,
    /// The dilated convolutions.
    pub convs1: Vec<ConvPlan>,
    /// The plain convolutions.
    pub convs2: Vec<ConvPlan>,
    /// The names of the activations before the dilated convolutions.
    pub alphas1: Vec<String>,
    /// The names of the activations before the plain convolutions.
    pub alphas2: Vec<String>,
}

/// The texts of a list of names.
pub open spec fn names(v: Seq<String>) -> Seq<Seq<char>> {
    Seq::new(v.len(), |i: int| v[i]@)
}

impl ResBlockPlan {
    /// The block as a statement about it sees it.
    pub open spec fn view(&self) -> ResBlockShape {
        ResBlockShape {
            prefix: self.prefix@,
            channels: self.channels as int,
            convs1: plan::shapes(self.convs1@),
            convs2: plan::shapes(self.convs2@),
            alphas1: names(self.alphas1@),
            alphas2: names(self.alphas2@),
        }
    }
}

/// The residual block with the name `prefix`.
fn resblock(prefix: String, ch: usize, k: usize) -> (r: ResBlockPlan)
    requires
        1 <= k <= 1000,
    ensures
        r@ == resblock_shape(prefix@, ch as int, k as int),
{
    let mut convs1: Vec<ConvPlan> = Vec::new();
    let mut convs2: Vec<ConvPlan> = Vec::new();
    let mut alphas1: Vec<String> = Vec::new();
    let mut alphas2: Vec<String> = Vec::new();
    let c1: String = crate::text::joined(prefix.as_str(), ".convs1.");
    let c2: String = crate::text::joined(prefix.as_str(), ".convs2.");
    let a1: String = crate::text::joined(prefix.as_str(), ".activations1.");
    let a2: String = crate::text::joined(prefix.as_str(), ".activations2.");
    let ghost want = resblock_shape(prefix@, ch as int, k as int);
    let mut i: usize = 0;
    while i < 3
        invariant
            i <= 3,
            1 <= k <= 1000,
            want == resblock_shape(prefix@, ch as int, k as int),
            c1@ == prefix@ + ".convs1."@,
            c2@ == prefix@ + ".convs2."@,
            a1@ == prefix@ + ".activations1."@,
            a2@ == prefix@ + ".activations2."@,
            convs1.len() == i,
            convs2.len() == i,
            alphas1.len() == i,
            alphas2.len() == i,
            forall|j: int| 0 <= j < i ==> (#[trigger] convs1@[j])@ == want.convs1[j],
            forall|j: int| 0 <= j < i ==> (#[trigger] convs2@[j])@ == want.convs2[j],
            forall|j: int| 0 <= j < i ==> (#[trigger] alphas1@[j])@ == want.alphas1[j],
            forall|j: int| 0 <= j < i ==> (#[trigger] alphas2@[j])@ == want.alphas2[j],
        decreases 3 - i,
    {
        let d: usize = if i == 0 {
            1
        } else if i == 1 {
            3
        } else {
            5
        };
        proof {
            assert((k - 1) / 2 * d <= 5000) by (nonlinear_arith)
                requires
                    1 <= k <= 1000,
                    1 <= d <= 5,
            ;
        }
        convs1.push(
            ConvPlan {
                prefix: plan::numbered(c1.as_str(), i),
                in_channels: ch,
                out_channels: ch,
                kernel: k,
                stride: 1,
                padding: (k - 1) / 2 * d,
                dilation: d,
                groups: 1,
                bias: true,
            },
        );
        convs2.push(plan::conv(plan::numbered(c2.as_str(), i), ch, ch, k, 1, (k - 1) / 2));
        let n1: String = plan::numbered(a1.as_str(), i);
        let n2: String = plan::numbered(a2.as_str(), i);
        alphas1.push(crate::text::joined(n1.as_str(), ".alpha"));
        alphas2.push(crate::text::joined(n2.as_str(), ".alpha"));
        i = i + 1;
    }
    let r = ResBlockPlan { prefix, channels: ch, convs1, convs2, alphas1, alphas2 };
    proof {
        assert(r@.convs1 =~= want.convs1);
        assert(r@.convs2 =~= want.convs2);
        assert(r@.alphas1 =~= want.alphas1);
        assert(r@.alphas2 =~= want.alphas2);
    }
    r
}

/// The residual block of the source at stage `i`.
pub open spec fn source_resblock_shape(i: int) -> ResBlockShape {
    resblock_shape(
        plan::numbered_name("source_resblocks."@, i as nat),
        stage_channels(i),
        if i == 2 {
            11
        } else {
            7
        },
    )
}

/// The residual block number `n` of the generator: three of them at each stage, with kernels of
/// 3, 7 and 11.
pub open spec fn generator_resblock_shape(n: int) -> ResBlockShape {
    resblock_shape(
        plan::numbered_name("resblocks."@, n as nat),
        stage_channels(n / 3),
        3 + 4 * (n % 3),
    )
}

/// Convolution `i` of the pitch predictor.
pub open spec fn f0_conv_shape(i: int) -> ConvShape {
    plan::conv_shape(
        plan::numbered_name("f0_predictor.condnet."@, (2 * i) as nat),
        if i == 0 {
            80
        } else {
            512
        },
        512,
        3,
        1,
        1,
    )
}

/// The layers of the vocoder.
pub struct HiftPlan {
    /// The convolutions of the pitch predictor.
    pub f0_convs: Vec<ConvPlan>,
    /// The matrix behind them.
    pub f0_classifier: LinearPlan,
    /// The matrix that merges the harmonics into one.
    pub source_linear: LinearPlan,
    /// The convolution of the mel frames.
    pub conv_pre: ConvPlan,
    /// The transposed convolutions.
    pub ups: Vec<ConvPlan>,
    /// The convolutions of the source.
    pub source_downs: Vec<ConvPlan>,
    /// The residual blocks of the source.
    pub source_resblocks: Vec<ResBlockPlan>,
    /// The residual blocks of the generator.
    pub resblocks: Vec<ResBlockPlan>,
    /// The convolution that makes the head.
    pub conv_post: ConvPlan,
}

/// The layers of the vocoder.
pub fn load_plan() -> (p: HiftPlan)
    ensures
        p.f0_convs.len() == 5,
        forall|i: int| 0 <= i < 5 ==> (#[trigger] p.f0_convs@[i])@ == f0_conv_shape(i),
        p.f0_classifier@ == plan::linear_shape("f0_predictor.classifier"@, 512, 1, true),
        p.source_linear@ == plan::linear_shape("m_source.l_linear"@, HARMONICS as int, 1, true),
        p.conv_pre@ == plan::conv_shape("conv_pre"@, 80, 512, 7, 1, 3),
        p.ups.len() == 3,
        forall|i: int| 0 <= i < 3 ==> (#[trigger] p.ups@[i])@ == up_shape(i),
        p.source_downs.len() == 3,
        forall|i: int| 0 <= i < 3 ==> (#[trigger] p.source_downs@[i])@ == source_down_shape(i),
        p.source_resblocks.len() == 3,
        forall|i: int|
            0 <= i < 3 ==> (#[trigger] p.source_resblocks@[i])@ == source_resblock_shape(i),
        p.resblocks.len() == 9,
        forall|n: int|
            0 <= n < 9 ==> (#[trigger] p.resblocks@[n])@ == generator_resblock_shape(n),
        p.conv_post@ == plan::conv_shape("conv_post"@, 64, 18, 7, 1, 3),
{
    let mut f0_convs: Vec<ConvPlan> = Vec::new();
    let mut i: usize = 0;
    while i < 5
        invariant
            i <= 5,
            f0_convs.len() == i,
            forall|k: int| 0 <= k < i ==> (#[trigger] f0_convs@[k])@ == f0_conv_shape(k),
        decreases 5 - i,
    {
        let inputs: usize = if i == 0 { 80 } else { 512 };
        f0_convs.push(
            plan::conv(plan::numbered("f0_predictor.condnet.", 2 * i), inputs, 512, 3, 1, 1),
        );
        i = i + 1;
    }
    let mut ups: Vec<ConvPlan> = Vec::new();
    ups.push(plan::conv(plan::numbered("ups.", 0), 512, 256, 16, 8, 4));
    ups.push(plan::conv(plan::numbered("ups.", 1), 256, 128, 11, 5, 3));
    ups.push(plan::conv(plan::numbered("ups.", 2), 128, 64, 7, 3, 2));
    let mut source_downs: Vec<ConvPlan> = Vec::new();
    source_downs.push(plan::conv(plan::numbered("source_downs.", 0), 18, 256, 30, 15, 7));
    source_downs.push(plan::conv(plan::numbered("source_downs.", 1), 18, 128, 6, 3, 1));
    source_downs.push(plan::conv(plan::numbered("source_downs.", 2), 18, 64, 1, 1, 0));
    let mut source_resblocks: Vec<ResBlockPlan> = Vec::new();
    source_resblocks.push(resblock(plan::numbered("source_resblocks.", 0), 256, 7));
    source_resblocks.push(resblock(plan::numbered("source_resblocks.", 1), 128, 7));
    source_resblocks.push(resblock(plan::numbered("source_resblocks.", 2), 64, 11));
    let mut resblocks: Vec<ResBlockPlan> = Vec::new();
    let mut n: usize = 0;
    while n < 9
        invariant
            n <= 9,
            resblocks.len() == n,
            forall|k: int|
                0 <= k < n ==> (#[trigger] resblocks@[k])@ == generator_resblock_shape(k),
        decreases 9 - n,
    {
        let ch: usize = if n < 3 {
            256
        } else if n < 6 {
            128
        } else {
            64
        };
        resblocks.push(resblock(plan::numbered("resblocks.", n), ch, 3 + 4 * (n % 3)));
        n = n + 1;
    }
    HiftPlan {
        f0_convs,
        f0_classifier: LinearPlan {
            prefix: String::from_str("f0_predictor.classifier"),
            inputs: 512,
            outputs: 1,
            bias: true,
        },
        source_linear: LinearPlan {
            prefix: String::from_str("m_source.l_linear"),
            inputs: HARMONICS,
            outputs: 1,
            bias: true,
        },
        conv_pre: plan::conv(String::from_str("conv_pre"), 80, 512, 7, 1, 3),
        ups,
        source_downs,
        source_resblocks,
        resblocks,
        conv_post: plan::conv(String::from_str("conv_post"), 64, 18, 7, 1, 3),
    }
}

/// The values for each mel frame after stage `i`.
pub open spec fn stage_rate(i: int) -> int {
    if i == 0 {
        8
    } else if i == 1 {
        40
    } else {
        120
    }
}

/// At every stage the mel path and the source path have as many values: the transposed
/// convolutions multiply the frames by 8, 5 and 3, one value more is mirrored in at the last
/// stage, and the source, 480 samples for each frame, is brought there from its short-time
/// spectrum. The head then makes 480 audio samples of each frame.
pub proof fn law_paths_meet(t: int, i: int)
    requires
        t > 0,
        0 <= i < 3,
    ensures
        ({
            let before = if i == 0 { t } else { t * stage_rate(i - 1) };
            let mirrored: int = if i == 2 { 1 } else { 0 };
            let frames = 1 + (t * 480) / 4;
            &&& plan::transposed_len(up_shape(i), before) == t * stage_rate(i)
            &&& plan::conv_len(source_down_shape(i), frames) == t * stage_rate(i) + mirrored
            &&& (t * stage_rate(2) + 1 - 1) * HOP == t * UPSAMPLE
        }),
{
    let frames = 1 + (t * 480) / 4;
    if i == 0 {
        plan::lemma_lengths(up_shape(0), t, 16, 8, 4, 1);
        plan::lemma_lengths(source_down_shape(0), frames, 30, 15, 7, 1);
        assert(t * stage_rate(0) == 8 * t);
    } else if i == 1 {
        plan::lemma_lengths(up_shape(1), 8 * t, 11, 5, 3, 1);
        plan::lemma_lengths(source_down_shape(1), frames, 6, 3, 1, 1);
        assert(t * stage_rate(0) == 8 * t);
        assert(t * stage_rate(1) == 40 * t);
    } else {
        plan::lemma_lengths(up_shape(2), 40 * t, 7, 3, 2, 1);
        plan::lemma_lengths(source_down_shape(2), frames, 1, 1, 0, 1);
        assert(t * stage_rate(1) == 40 * t);
    }
    assert(t * stage_rate(2) == 120 * t);
}

/// A residual block keeps the length of what it works on.
pub proof fn law_residual_blocks_keep_length(prefix: Seq<char>, ch: int, k: int, i: int, n: int)
    requires
        k == 3 || k == 7 || k == 11,
        0 <= i < 3,
    ensures
        plan::conv_len(resblock_shape(prefix, ch, k).convs1[i], n) == n,
        plan::conv_len(resblock_shape(prefix, ch, k).convs2[i], n) == n,
{
    let d = dilation(i);
    let pad = (k - 1) / 2 * d;
    assert(2 * pad == d * (k - 1)) by (nonlinear_arith)
        requires
            pad == (k - 1) / 2 * d,
            k == 3 || k == 7 || k == 11,
    ;
    plan::lemma_lengths(resblock_shape(prefix, ch, k).convs1[i], n, k, 1, pad, d);
    plan::lemma_lengths(resblock_shape(prefix, ch, k).convs2[i], n, k, 1, (k - 1) / 2, 1);
}

/// A harmonic without weight is not heard.
proof fn lemma_weightless_harmonics<T: Real, W: Wide<T>>(
    f0: Seq<T>,
    harmonics: Seq<Seq<T>>,
    weight: Seq<T>,
    bias: T,
    mode: NoiseMode,
    i: int,
    from: int,
    n: int,
)
    requires
        arith::neutral::<T>(),
        0 <= from <= n,
        forall|k: int| from <= k < n ==> #[trigger] weight[k] == arith::whole::<T>(0),
    ensures
        mixed::<T, W>(f0, harmonics, weight, bias, mode, i, n) == mixed::<T, W>(
            f0,
            harmonics,
            weight,
            bias,
            mode,
            i,
            from,
        ),
    decreases n - from,
{
    if from < n {
        assert(weight[n - 1] == arith::whole::<T>(0));
        lemma_weightless_harmonics::<T, W>(f0, harmonics, weight, bias, mode, i, from, n - 1);
    }
}

/// Each harmonic enters the source by its own weight: with all other weights zero and without
/// noise, the source is the bias and that harmonic times its weight, in voiced frames, and the
/// bias alone in the others.
pub proof fn law_each_harmonic_has_its_weight<T: Real, W: Wide<T>>(
    f0: Seq<T>,
    weight: Seq<T>,
    bias: T,
    h: int,
    i: int,
)
    requires
        arith::neutral::<T>(),
        0 <= h < HARMONICS,
        weight.len() == HARMONICS,
        forall|k: int|
            0 <= k < HARMONICS && k != h ==> #[trigger] weight[k] == arith::whole::<T>(0),
        0 <= i < f0.len() * 480,
    ensures
        ({
            let s = source_of::<T, W>(f0, weight, bias, NoiseMode::Deterministic);
            let tone = harmonic::<T, W>(f0, h, arith::whole(0))[i];
            if arith::below(arith::whole(10), f0[i / 480]) {
                s[i] == arith::tangent(arith::plus(bias, arith::times(weight[h], tone)))
            } else {
                s[i] == arith::tangent(bias)
            }
        }),
{
    let mode = NoiseMode::Deterministic;
    let hs = all_harmonics::<T, W>(f0, mode);
    lemma_weightless_harmonics::<T, W>(f0, hs, weight, bias, mode, i, h + 1, 9);
    lemma_weightless_harmonics::<T, W>(f0, hs, weight, bias, mode, i, 0, h);
    assert(hs[h] == harmonic::<T, W>(f0, h, arith::whole(0)));
    assert(mixed::<T, W>(f0, hs, weight, bias, mode, i, 0) == bias);
}

/// The terms of other harmonics do not depend on the weight of one: weights that differ at `h`
/// alone give the same sum up to `h`, and from there on terms that depend on equal weights.
pub proof fn law_weights_act_on_their_own<T: Real, W: Wide<T>>(
    f0: Seq<T>,
    harmonics: Seq<Seq<T>>,
    one: Seq<T>,
    other: Seq<T>,
    bias: T,
    mode: NoiseMode,
    i: int,
    h: int,
    n: int,
)
    requires
        0 <= h <= n,
        forall|k: int| 0 <= k < n && k != h ==> #[trigger] one[k] == other[k],
    ensures
        mixed::<T, W>(f0, harmonics, one, bias, mode, i, h) == mixed::<T, W>(
            f0,
            harmonics,
            other,
            bias,
            mode,
            i,
            h,
        ),
        one[h] == other[h] ==> mixed::<T, W>(f0, harmonics, one, bias, mode, i, n) == mixed::<
            T,
            W,
        >(f0, harmonics, other, bias, mode, i, n),
    decreases n,
{
    if n > h {
        law_weights_act_on_their_own::<T, W>(f0, harmonics, one, other, bias, mode, i, h, n - 1);
    } else if h > 0 {
        assert(one[h - 1] == other[h - 1]);
        law_weights_act_on_their_own::<T, W>(
            f0,
            harmonics,
            one,
            other,
            bias,
            mode,
            i,
            h - 1,
            h - 1,
        );
    }
}

/// Harmonic `h` is the fundamental of frequencies that are `h + 1` times as high.
pub proof fn law_harmonics_are_multiples<T: Real, W: Wide<T>>(
    f0: Seq<T>,
    high: Seq<T>,
    h: int,
    ini: T,
)
    requires
        0 <= h < HARMONICS,
        high.len() == f0.len(),
        forall|k: int|
            0 <= k < f0.len() ==> #[trigger] high[k] == arith::times(
                f0[k],
                arith::count((h + 1) as usize),
            ),
        forall|x: T| #[trigger] arith::times(x, arith::count(1)) == x,
    ensures
        harmonic::<T, W>(f0, h, ini) == harmonic::<T, W>(high, 0, ini),
{
    let a = turns(f0, h, ini);
    let b = turns(high, 0, ini);
    assert forall|i: int| 0 <= i < a.len() implies #[trigger] a[i] == b[i] by {
        assert(high[i / 480] == arith::times(f0[i / 480], arith::count((h + 1) as usize)));
        assert(arith::times(high[i / 480], arith::count(1)) == high[i / 480]);
    }
    assert(a =~= b);
}

/// The phase of a harmonic grows from frame to frame by what the frame turns: one more frame adds
/// its turns to the sum, and leaves the phases before it as they were.
pub proof fn law_phase_adds_up<T: Real, W: Wide<T>>(x: Seq<T>, y: T, j: int)
    requires
        0 <= j < x.len(),
    ensures
        scaled_phases::<T, W>(x.push(y)).len() == x.len() + 1,
        scaled_phases::<T, W>(x.push(y))[j] == scaled_phases::<T, W>(x)[j],
        running_sum::<T, W>(x.push(y), (x.len() + 1) as int) == arith::plus(
            running_sum::<T, W>(x, x.len() as int),
            arith::widened::<T, W>(y),
        ),
{
    lemma_running_sum_prefix::<T, W>(x.push(y), x, x.len() as int);
    lemma_running_sum_prefix::<T, W>(x.push(y), x, j + 1);
}

proof fn lemma_running_sum_prefix<T: Real, W: Wide<T>>(x: Seq<T>, y: Seq<T>, n: int)
    requires
        n <= x.len(),
        n <= y.len(),
        forall|k: int| 0 <= k < n ==> #[trigger] x[k] == y[k],
    ensures
        running_sum::<T, W>(x, n) == running_sum::<T, W>(y, n),
    decreases n,
{
    if n > 0 {
        assert(x[n - 1] == y[n - 1]);
        lemma_running_sum_prefix::<T, W>(x, y, n - 1);
    }
}

/// To interpolate a constant gives the constant.
pub proof fn law_interpolation_keeps_a_constant<T: Real, W: Wide<T>>(
    input: Seq<T>,
    out_len: int,
    x: T,
    i: int,
)
    requires
        arith::blends::<T>(),
        input.len() > 0,
        forall|k: int| 0 <= k < input.len() ==> #[trigger] input[k] == x,
        0 <= i < out_len,
    ensures
        interpolated::<T, W>(input, out_len)[i] == x,
{
    let n = input.len() as int;
    let pos = interp_place::<W>(n, out_len, i);
    let cell = interp_cell(pos);
    let frac = arith::narrowed::<T, W>(arith::minus(pos, arith::whole(cell)));
    assert(input[held(cell as int, n)] == x);
    assert(input[held(cell + 1, n)] == x);
    assert(arith::plus(
        arith::times(x, arith::minus(arith::whole(1), frac)),
        arith::times(x, frac),
    ) == x);
}

/// An interpolated value lies between its two neighbours: at the one where its place is whole, and
/// at the next one where its place is a whole one further on. No other value matters.
pub proof fn law_interpolation_is_between_neighbours<T: Real, W: Wide<T>>(
    input: Seq<T>,
    other: Seq<T>,
    out_len: int,
    i: int,
)
    requires
        arith::neutral::<T>(),
        input.len() == other.len(),
        input.len() > 0,
        0 <= i < out_len,
        ({
            let n = input.len() as int;
            let cell = interp_cell(interp_place::<W>(n, out_len, i)) as int;
            &&& input[held(cell, n)] == other[held(cell, n)]
            &&& input[held(cell + 1, n)] == other[held(cell + 1, n)]
        }),
    ensures
        ({
            let n = input.len() as int;
            let pos = interp_place::<W>(n, out_len, i);
            let cell = interp_cell(pos);
            let frac = arith::narrowed::<T, W>(arith::minus(pos, arith::whole(cell)));
            let out = interpolated::<T, W>(input, out_len)[i];
            &&& frac == arith::whole::<T>(0) ==> out == input[held(cell as int, n)]
            &&& frac == arith::whole::<T>(1) ==> out == input[held(cell + 1, n)]
            &&& out == interpolated::<T, W>(other, out_len)[i]
        }),
{
}

/// The samples of a frame turn by the frequency of that frame and of no other, and the initial
/// phase is in the first sample alone.
pub proof fn law_frames_turn_on_their_own<T: Real>(
    f0: Seq<T>,
    g0: Seq<T>,
    h: int,
    ini: T,
    phase: T,
    i: int,
)
    requires
        f0.len() == g0.len(),
        0 < i < f0.len() * 480,
        f0[i / 480] == g0[i / 480],
    ensures
        turns(f0, h, ini)[i] == turns(g0, h, phase)[i],
        turns(f0, h, ini)[0] == arith::plus(
            arith::fractional(
                arith::over(
                    arith::times(f0[0], arith::count((h + 1) as usize)),
                    arith::whole(24_000),
                ),
            ),
            ini,
        ),
{
}

/// Noise is quiet in voiced frames and a third of the amplitude in the others, and no random
/// number is used twice: each sample of each harmonic has two of its own, behind those of the
/// initial phases.
pub proof fn law_noise_is_drawn_for_each_harmonic<T: Real, W: Wide<T>>(
    i: int,
    h: int,
    j: int,
    g: int,
)
    requires
        arith::neutral::<T>(),
        0 <= i,
        0 <= j,
        0 <= h < HARMONICS,
        0 <= g < HARMONICS,
        i != j || h != g,
    ensures
        ({
            let a = 9 + 18 * i + 2 * h;
            let b = 9 + 18 * j + 2 * g;
            &&& a > HARMONICS - 1
            &&& a != b && a + 1 != b && a != b + 1
            &&& noise_at::<T, W>(arith::whole(1), NoiseMode::Random, i, h) == arith::times(
                arith::plus(
                    arith::fraction(3, 1000),
                    arith::over(arith::whole(0), arith::whole(3)),
                ),
                rng::normal(draw::<T, W>(a), draw::<T, W>(a + 1)),
            )
            &&& noise_at::<T, W>(arith::whole(0), NoiseMode::Random, i, h) == arith::times(
                arith::over(arith::fraction(1, 10), arith::whole(3)),
                rng::normal(draw::<T, W>(a), draw::<T, W>(a + 1)),
            )
            &&& noise_at::<T, W>(arith::whole(1), NoiseMode::Deterministic, i, h)
                == arith::whole::<T>(0)
        }),
{
}

/// The fundamental starts at phase zero, and so does everything without noise; each overtone of a
/// noisy source starts at a random number of its own.
pub proof fn law_overtones_start_at_random<T: Real, W: Wide<T>>(h: int, g: int)
    requires
        0 < h < HARMONICS,
        0 <= g < HARMONICS,
    ensures
        initial_phase::<T, W>(h, NoiseMode::Random) == rng::narrow_unit::<T, W>(
            rng::state_after(SEED, h as nat),
        ),
        initial_phase::<T, W>(0, NoiseMode::Random) == arith::whole::<T>(0),
        initial_phase::<T, W>(g, NoiseMode::Deterministic) == arith::whole::<T>(0),
{
}

/// The first nine rows of a head are magnitudes and the last nine phases: each value depends on
/// its own row and frame, the magnitudes are at most 100, and heads that agree in one half agree
/// in what it stands for.
pub proof fn law_head_has_magnitudes_and_phases<T: Real>(
    head: Seq<Seq<T>>,
    other: Seq<Seq<T>>,
    k: int,
    f: int,
)
    requires
        head.len() == 18,
        other.len() == 18,
        0 <= k < 9,
        0 <= f < head[k].len(),
        head[9 + k].len() == head[k].len(),
        other[k].len() == head[k].len(),
        other[9 + k].len() == head[k].len(),
        forall|a: T, b: T| arith::at_most(#[trigger] arith::smaller(a, b), b),
    ensures
        head_magnitudes(head)[k].len() == head[k].len(),
        head_phases(head)[k].len() == head[k].len(),
        head[k][f] == other[k][f] ==> head_magnitudes(head)[k][f] == head_magnitudes(other)[k][f],
        head[9 + k][f] == other[9 + k][f] ==> head_phases(head)[k][f] == head_phases(other)[k][f],
        arith::at_most(head_magnitudes(head)[k][f], arith::whole(100)),
        arith::smaller(arith::exponential(head[k][f]), arith::whole(100)) == arith::exponential(
            head[k][f],
        ) ==> head_magnitudes(head)[k][f] == arith::exponential(head[k][f]),
{
}

/// The bins of a spectrum act on their own: of a frame that is silent but in bin `k` each sample
/// is a cosine of that bin, at its magnitude and with its phase, counted once at both ends of the
/// spectrum and twice between them. The cosine of the sum of two angles has to be what it is in
/// exact arithmetic.
pub proof fn law_bins_are_cosines<T: Real>(
    mag: Seq<Seq<T>>,
    phase: Seq<Seq<T>>,
    f: int,
    n: int,
    k: int,
)
    requires
        arith::neutral::<T>(),
        0 <= k < 9,
        forall|j: int| 0 <= j < 9 && j != k ==> (#[trigger] mag[j])[f] == arith::whole::<T>(0),
        ({
            let (a, b, c) = (mag[k][f], phase[k][f], angle::<T>(k, n));
            arith::minus(
                arith::times(arith::times(a, arith::cosine(b)), arith::cosine(c)),
                arith::times(arith::times(a, arith::sine(b)), arith::sine(c)),
            ) == arith::times(a, arith::cosine(arith::plus(b, c)))
        }),
    ensures
        bin_sum(mag, phase, f, n, 9) == arith::times(
            if k == 0 || k == 8 {
                arith::whole::<T>(1)
            } else {
                arith::whole::<T>(2)
            },
            arith::times(
                mag[k][f],
                arith::cosine(arith::plus(phase[k][f], angle::<T>(k, n))),
            ),
        ),
{
    lemma_silent_bins(mag, phase, f, n, 0, k);
    assert(bin_sum(mag, phase, f, n, 0) == arith::whole::<T>(0));
    lemma_silent_bins(mag, phase, f, n, k + 1, 9);
}

/// Bins without a magnitude add nothing.
proof fn lemma_silent_bins<T: Real>(
    mag: Seq<Seq<T>>,
    phase: Seq<Seq<T>>,
    f: int,
    n: int,
    from: int,
    to: int,
)
    requires
        arith::neutral::<T>(),
        0 <= from <= to,
        forall|j: int| from <= j < to ==> (#[trigger] mag[j])[f] == arith::whole::<T>(0),
    ensures
        bin_sum(mag, phase, f, n, to) == bin_sum(mag, phase, f, n, from),
    decreases to - from,
{
    if from < to {
        assert(mag[to - 1][f] == arith::whole::<T>(0));
        lemma_silent_bins(mag, phase, f, n, from, to - 1);
    }
}

/// An interpolated value stands where its centre falls between the centres of the input: with the
/// place `(i + 1/2) * n / out_len - 1/2` in cell `c` it is the value there if nothing is left over,
/// and the next one if a whole one is; before the first centre and behind the last one it is the
/// value at that end.
pub proof fn law_interpolation_is_centred<T: Real, W: Wide<T>>(input: Seq<T>, out_len: int, i: int)
    requires
        arith::neutral::<T>(),
        0 < input.len() <= usize::MAX,
        0 <= i < out_len <= usize::MAX,
        forall|x: W| #[trigger] arith::minus(x, x) == arith::whole::<W>(0),
        arith::floor(arith::whole::<W>(0)) == 0,
        arith::narrowed::<T, W>(arith::whole(0)) == arith::whole::<T>(0),
    ensures
        ({
            let n = input.len() as int;
            let place = arith::minus(
                arith::times(
                    arith::plus(arith::count::<W>(i as usize), arith::fraction(1, 2)),
                    arith::over(arith::count(n as usize), arith::count(out_len as usize)),
                ),
                arith::fraction(1, 2),
            );
            let zero = arith::whole::<W>(0);
            let c = arith::floor(place);
            let left = arith::narrowed::<T, W>(arith::minus(place, arith::whole(c)));
            let out = interpolated::<T, W>(input, out_len);
            &&& out.len() == out_len
            &&& arith::larger(place, zero) == zero ==> out[i] == input[0]
            &&& arith::larger(place, zero) == place && 0 <= c < n && left == arith::whole::<T>(0)
                ==> out[i] == input[c as int]
            &&& arith::larger(place, zero) == place && 0 <= c && c + 1 < n && left
                == arith::whole::<T>(1) ==> out[i] == input[c + 1]
            &&& arith::larger(place, zero) == place && n - 1 <= c && arith::blends::<T>() ==> out[i]
                == input.last()
        }),
{
    let n = input.len() as int;
    let pos = interp_place::<W>(n, out_len, i);
    let cell = interp_cell(pos);
    let frac = arith::narrowed::<T, W>(arith::minus(pos, arith::whole(cell)));
    if n - 1 <= cell && arith::blends::<T>() {
        assert(arith::plus(
            arith::times(input.last(), arith::minus(arith::whole(1), frac)),
            arith::times(input.last(), frac),
        ) == input.last());
    }
}

/// Every sample of a frame turns as the first sample of a source does that starts with that
/// frequency and without a phase: by the fractional part of `h + 1` times the frequency over the
/// rate.
pub proof fn law_samples_turn_by_their_frequency<T: Real>(
    f0: Seq<T>,
    start: Seq<T>,
    h: int,
    ini: T,
    i: int,
)
    requires
        arith::neutral::<T>(),
        0 <= h < HARMONICS,
        0 < i < f0.len() * 480,
        0 < start.len(),
        start[0] == f0[i / 480],
    ensures
        turns(f0, h, ini).len() == f0.len() * 480,
        turns(f0, h, ini)[i] == turns(start, h, arith::whole(0))[0],
        turns(f0, h, ini)[i] == arith::fractional(
            arith::over(
                arith::times(f0[i / 480], arith::count((h + 1) as usize)),
                arith::whole(24_000),
            ),
        ),
{
}

/// A source of one frame is a steady tone: every sample of harmonic `h` is a tenth of the sine of
/// the phase that 480 samples of it turn through.
pub proof fn law_one_frame_is_a_steady_tone<T: Real, W: Wide<T>>(f: T, h: int, ini: T, i: int)
    requires
        arith::neutral::<W>(),
        arith::blends::<T>(),
        0 <= h < HARMONICS,
        0 <= i < 480,
        arith::floor(
            arith::larger(
                arith::minus(
                    arith::times(
                        arith::plus(arith::count::<W>(0), arith::fraction(1, 2)),
                        arith::over(arith::count(480), arith::count(1)),
                    ),
                    arith::fraction(1, 2),
                ),
                arith::whole(0),
            ),
        ) == 239,
    ensures
        ({
            let r = arith::fractional(
                arith::over(
                    arith::times(f, arith::count((h + 1) as usize)),
                    arith::whole(24_000),
                ),
            );
            let phase = arith::times(
                arith::narrowed::<T, W>(
                    arith::times(
                        arith::times(arith::widened::<T, W>(r), arith::whole(2)),
                        arith::pi(),
                    ),
                ),
                arith::count(480),
            );
            harmonic::<T, W>(seq![f], h, ini)[i] == arith::times(
                arith::sine(phase),
                arith::fraction(1, 10),
            )
        }),
{
    let f0 = seq![f];
    let t = turns(f0, h, ini);
    let r = arith::fractional(
        arith::over(arith::times(f, arith::count((h + 1) as usize)), arith::whole(24_000)),
    );
    let down = interpolated::<T, W>(t, 1);
    assert(t[239] == r && t[240] == r);
    let pos = interp_place::<W>(480, 1, 0);
    let frac = arith::narrowed::<T, W>(arith::minus(pos, arith::whole(239)));
    assert(arith::plus(
        arith::times(r, arith::minus(arith::whole(1), frac)),
        arith::times(r, frac),
    ) == r);
    assert(down[0] == r);
    let phases = scaled_phases::<T, W>(down);
    reveal_with_fuel(running_sum, 2);
    assert(running_sum::<T, W>(down, 1) == arith::widened::<T, W>(r));
    law_interpolation_keeps_a_constant::<T, W>(phases, 480, phases[0], i);
}

/// A frame of the source's spectrum is that of the 16 samples around sample 4 `f`: frame `f` of
/// one source and frame `g` of another are the same where these are the same. So a source that
/// comes four samples later shows a frame later.
pub proof fn law_source_frame_is_of_its_stretch<T: Real, F: Transform<T>>(
    window: Seq<T>,
    fft: F,
    a: Seq<T>,
    f: int,
    b: Seq<T>,
    g: int,
)
    requires
        8 <= 4 * f,
        8 <= 4 * g,
        4 * f + 8 <= a.len(),
        4 * g + 8 <= b.len(),
        forall|i: int| 0 <= i < 16 ==> #[trigger] a[4 * f - 8 + i] == b[4 * g - 8 + i],
    ensures
        source_bins::<T, F>(a, window, fft, f) == source_bins::<T, F>(b, window, fft, g),
{
    assert forall|i: int| 0 <= i < 16 implies #[trigger] a[f * 4 - 8 + i] == b[g * 4 - 8 + i] by {
        assert(a[4 * f - 8 + i] == b[4 * g - 8 + i]);
    }
    spectra::law_same_stretch_has_the_same_spectrum::<T, F>(
        a,
        f * 4,
        b,
        g * 4,
        8,
        0,
        window,
        16,
        fft,
    );
}

/// The angles of a bin start at zero and come to as many whole turns as the bin has after sixteen
/// samples; the first bin does not turn.
pub proof fn law_bins_turn_through_a_frame<T: Real>(k: int, n: int)
    requires
        arith::neutral::<T>(),
        0 <= k < 9,
        0 <= n < 16,
        arith::count::<T>(0) == arith::whole::<T>(0),
        arith::over(arith::whole::<T>(0), arith::count(16)) == arith::whole::<T>(0),
        forall|x: T|
            #[trigger] arith::over(arith::times(x, arith::count(16)), arith::count(16)) == x,
    ensures
        angle::<T>(k, 0) == arith::whole::<T>(0),
        angle::<T>(0, n) == arith::whole::<T>(0),
        angle::<T>(k, 16) == arith::times(
            arith::times(arith::whole(2), arith::pi()),
            arith::count::<T>(k as usize),
        ),
{
    let x = arith::times(
        arith::times(arith::whole(2), arith::pi()),
        arith::count::<T>(k as usize),
    );
    assert(arith::over(arith::times(x, arith::count(16)), arith::count(16)) == x);
}

/// A frame in time is of its own column of the spectrum, and its samples are the sums of the bins
/// divided by sixteen: a frame with one magnitude `m` at the first bin alone holds a sixteenth of
/// it, times the cosine of its phase, in every sample.
pub proof fn law_lowest_bin_is_a_level<T: Real>(
    mag: Seq<Seq<T>>,
    phase: Seq<Seq<T>>,
    frames: int,
    f: int,
    n: int,
)
    requires
        arith::neutral::<T>(),
        0 <= f < frames,
        0 <= n < 16,
        mag.len() == 9,
        phase.len() == 9,
        forall|j: int| 1 <= j < 9 ==> (#[trigger] mag[j])[f] == arith::whole::<T>(0),
        arith::count::<T>(0) == arith::whole::<T>(0),
        arith::over(arith::whole::<T>(0), arith::count(16)) == arith::whole::<T>(0),
        arith::cosine(arith::whole::<T>(0)) == arith::whole::<T>(1),
        arith::sine(arith::whole::<T>(0)) == arith::whole::<T>(0),
    ensures
        time_frames(mag, phase, frames).len() == frames,
        time_frames(mag, phase, frames)[f].len() == 16,
        time_frames(mag, phase, frames)[f][n] == arith::over(
            arith::times(mag[0][f], arith::cosine(phase[0][f])),
            arith::count(16),
        ),
{
    lemma_silent_bins(mag, phase, f, n, 1, 9);
    assert(angle::<T>(0, n) == arith::whole::<T>(0));
    reveal_with_fuel(bin_sum, 2);
}

/// A phase of the head is the sine of its own value, and a magnitude beyond 100 is 100.
pub proof fn law_head_values_are_bounded<T: Real>(head: Seq<Seq<T>>, k: int, f: int)
    requires
        head.len() == 18,
        0 <= k < 9,
        0 <= f < head[k].len(),
        head[9 + k].len() == head[k].len(),
    ensures
        head_magnitudes(head).len() == 9,
        head_phases(head).len() == 9,
        head_phases(head)[k][f] == arith::sine(head[9 + k][f]),
        arith::smaller(arith::exponential(head[k][f]), arith::whole(100)) == arith::whole::<T>(100)
            ==> head_magnitudes(head)[k][f] == arith::whole::<T>(100),
{
}

/// The layers fit together: each stage takes the channels that the one before gives and halves
/// them, from 512 to 64; the source comes to it in as many channels from the 18 rows of its
/// spectrum; and the residual blocks work on these, three to a stage with kernels of 3, 7 and 11,
/// each in three steps that dilate by 1, 3 and 5.
pub proof fn law_layers_fit_together(i: int, j: int, k: int)
    requires
        0 <= i < 3,
        0 <= j < 3,
        0 <= k < 3,
    ensures
        ({
            let up = up_shape(i);
            let block = generator_resblock_shape(3 * i + j);
            let side = source_resblock_shape(i);
            &&& i == 0 ==> up.in_channels == 512
            &&& i > 0 ==> up.in_channels == up_shape(i - 1).out_channels
            &&& 2 * up.out_channels == up.in_channels
            &&& source_down_shape(i).in_channels == 18
            &&& source_down_shape(i).out_channels == up.out_channels
            &&& block.channels == up.out_channels && side.channels == up.out_channels
            &&& block.convs1.len() == 3 && block.convs2.len() == 3
            &&& block.convs1[k].in_channels == up.out_channels && block.convs1[k].out_channels
                == up.out_channels
            &&& block.convs2[k].in_channels == up.out_channels && block.convs2[k].out_channels
                == up.out_channels
            &&& block.convs1[k].kernel == 3 + 4 * j && block.convs2[k].kernel == 3 + 4 * j
            &&& block.convs1[k].dilation == 1 + 2 * k && block.convs2[k].dilation == 1
            &&& side.convs1[k].kernel == (if i == 2 {
                11int
            } else {
                7int
            })
            &&& side.convs1[k].dilation == 1 + 2 * k
        }),
{
    assert((3 * i + j) / 3 == i);
    assert((3 * i + j) % 3 == j);
}

/// The convolutions of the pitch predictor fit together: the first takes the 80 bands, each
/// further one what the one before gives, and all keep the number of frames.
pub proof fn law_pitch_layers_fit_together(i: int, n: int)
    requires
        0 <= i < 5,
    ensures
        i == 0 ==> f0_conv_shape(i).in_channels == 80,
        i > 0 ==> f0_conv_shape(i).in_channels == f0_conv_shape(i - 1).out_channels,
        f0_conv_shape(i).out_channels == 512,
        plan::conv_len(f0_conv_shape(i), n) == n,
{
    plan::lemma_lengths(f0_conv_shape(i), n, 3, 1, 1, 1);
}

} // verus!
