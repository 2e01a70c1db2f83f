//! Kaldi-style log-mel features, the front end of the streaming recognizer, and the linear
//! interpolation that brings its features to the mel frame rate.

use vstd::prelude::*;
use vstd::string::StringExecFns;
use crate::arith;
use crate::arith::Real;
use crate::error;
use crate::error::Error;
use crate::fourier;
use crate::fourier::Transform;
use crate::spectra;
use crate::text;

verus! {

/// Length of a frame, 25 ms.
pub const FRAME_LEN: usize = 400;

/// Samples from frame to frame, 10 ms.
pub const FRAME_SHIFT: usize = 160;

/// Length of the transform.
pub const N_FFT: usize = 512;

/// Number of mel bands.
pub const N_MELS: usize = 80;

/// The mel value of a frequency.
pub open spec fn hz_to_kaldi_mel<T: Real>(f: T) -> T {
    arith::times(
        arith::whole(1127),
        arith::logarithm(arith::plus(arith::whole(1), arith::over(f, arith::whole(700)))),
    )
}

/// The mel value of a frequency.
pub fn kaldi_mel_of<T: Real>(f: T) -> (m: T)
    ensures
        arith::deterministic::<T>() ==> m == hz_to_kaldi_mel(f),
{
    T::whole(1127).times(T::whole(1).plus(f.over(T::whole(700))).logarithm())
}

/// The distance of the band corners on the mel scale from 20 Hz to `high`.
pub open spec fn kaldi_delta<T: Real>(high: T) -> T {
    arith::over(
        arith::minus(hz_to_kaldi_mel(high), hz_to_kaldi_mel(arith::whole(20))),
        arith::count(81),
    )
}

/// The weight of bin `bin` in band `m`.
pub open spec fn kaldi_weight<T: Real>(m: int, bin: int) -> T {
    let lo = hz_to_kaldi_mel::<T>(arith::whole(20));
    let delta = kaldi_delta::<T>(arith::over(arith::count(16_000), arith::whole(2)));
    let left = arith::plus(lo, arith::times(arith::count(m as usize), delta));
    let center = arith::plus(left, delta);
    let right = arith::plus(center, delta);
    let mel = hz_to_kaldi_mel::<T>(
        arith::over(
            arith::times(arith::count(bin as usize), arith::count(16_000)),
            arith::count(N_FFT),
        ),
    );
    if arith::below(left, mel) && arith::below(mel, right) {
        if arith::at_most(mel, center) {
            arith::over(arith::minus(mel, left), delta)
        } else {
            arith::over(arith::minus(right, mel), delta)
        }
    } else {
        arith::whole(0)
    }
}

/// Triangular bands on the Kaldi mel scale, without normalization.
pub fn kaldi_filterbank<T: Real>() -> (banks: Vec<Vec<T>>)
    ensures
        banks.len() == N_MELS,
        forall|m: int| 0 <= m < N_MELS ==> (#[trigger] banks@[m]).len() == 257,
        arith::deterministic::<T>() ==> forall|m: int|
            0 <= m < N_MELS ==> (#[trigger] banks@[m])@ == Seq::new(
                257,
                |bin: int| kaldi_weight::<T>(m, bin),
            ),
{
    let lo: T = kaldi_mel_of(T::whole(20));
    let high: T = T::count(16_000).over(T::whole(2));
    let delta: T = kaldi_mel_of(high).minus(lo).over(T::count(81));
    let mut banks: Vec<Vec<T>> = Vec::new();
    let mut m: usize = 0;
    while m < N_MELS
        invariant
            m <= N_MELS,
            banks.len() == m,
            arith::deterministic::<T>() ==> {
                &&& lo == hz_to_kaldi_mel::<T>(arith::whole(20))
                &&& delta == kaldi_delta::<T>(arith::over(arith::count(16_000), arith::whole(2)))
            },
            forall|k: int| 0 <= k < m ==> (#[trigger] banks@[k]).len() == 257,
            arith::deterministic::<T>() ==> forall|k: int|
                0 <= k < m ==> (#[trigger] banks@[k])@ == Seq::new(
                    257,
                    |bin: int| kaldi_weight::<T>(k, bin),
                ),
        decreases N_MELS - m,
    {
        let left: T = lo.plus(T::count(m).times(delta));
        let center: T = left.plus(delta);
        let right: T = center.plus(delta);
        let mut bank: Vec<T> = Vec::new();
        let mut bin: usize = 0;
        while bin < 257
            invariant
                bin <= 257,
                m < N_MELS,
                bank.len() == bin,
                arith::deterministic::<T>() ==> {
                    &&& lo == hz_to_kaldi_mel::<T>(arith::whole(20))
                    &&& delta == kaldi_delta::<T>(
                        arith::over(arith::count(16_000), arith::whole(2)),
                    )
                    &&& left == arith::plus(lo, arith::times(arith::count(m), delta))
                    &&& center == arith::plus(left, delta)
                    &&& right == arith::plus(center, delta)
                },
                arith::deterministic::<T>() ==> forall|k: int|
                    0 <= k < bin ==> #[trigger] bank@[k] == kaldi_weight::<T>(m as int, k),
            decreases 257 - bin,
        {
            let mel: T = kaldi_mel_of(T::count(bin).times(T::count(16_000)).over(T::count(N_FFT)));
            let w: T = if left.below(mel) && mel.below(right) {
                if mel.at_most(center) {
                    mel.minus(left).over(delta)
                } else {
                    right.minus(mel).over(delta)
                }
            } else {
                T::whole(0)
            };
            bank.push(w);
            bin = bin + 1;
        }
        proof {
            if arith::deterministic::<T>() {
                assert(bank@ =~= Seq::new(257, |bin: int| kaldi_weight::<T>(m as int, bin)));
            }
        }
        banks.push(bank);
        m = m + 1;
    }
    banks
}

/// The Povey window at place `i`: a symmetric Hann window to the power of 0.85.
pub open spec fn povey<T: Real>(i: int) -> T {
    let hann = arith::minus(
        arith::fraction(1, 2),
        arith::times(
            arith::fraction(1, 2),
            arith::cosine(
                arith::over(
                    arith::times(
                        arith::times(arith::whole(2), arith::pi()),
                        arith::count(i as usize),
                    ),
                    arith::count::<T>(399),
                ),
            ),
        ),
    );
    arith::power(hann, arith::fraction(85, 100))
}

/// The Povey window of a frame.
pub fn povey_window<T: Real>() -> (w: Vec<T>)
    ensures
        w.len() == FRAME_LEN,
        arith::deterministic::<T>() ==> w@ == Seq::new(FRAME_LEN as nat, |i: int| povey::<T>(i)),
{
    let mut w: Vec<T> = Vec::new();
    let mut i: usize = 0;
    while i < FRAME_LEN
        invariant
            i <= FRAME_LEN,
            w.len() == i,
            arith::deterministic::<T>() ==> forall|k: int|
                0 <= k < i ==> #[trigger] w@[k] == povey::<T>(k),
        decreases FRAME_LEN - i,
    {
        let hann: T = T::fraction(1, 2).minus(
            T::fraction(1, 2).times(
                T::whole(2).times(T::pi()).times(T::count(i)).over(T::count(399)).cosine(),
            ),
        );
        w.push(hann.power(T::fraction(85, 100)));
        i = i + 1;
    }
    proof {
        if arith::deterministic::<T>() {
            assert(w@ =~= Seq::new(FRAME_LEN as nat, |i: int| povey::<T>(i)));
        }
    }
    w
}

/// A frame without its mean.
pub open spec fn centered<T: Real>(frame: Seq<T>) -> Seq<T> {
    let mean = arith::over(arith::total(frame), arith::count(frame.len() as usize));
    Seq::new(frame.len(), |i: int| arith::minus(frame[i], mean))
}

/// A frame with 0.97 of the sample before taken from each sample; the first one loses as much
/// of itself.
pub open spec fn emphasized<T: Real>(frame: Seq<T>) -> Seq<T> {
    Seq::new(
        frame.len(),
        |i: int|
            arith::minus(
                frame[i],
                arith::times(arith::fraction(97, 100), frame[if i == 0 { 0 } else { i - 1 }]),
            ),
    )
}

/// Removes the mean of a frame and emphasizes its high frequencies.
pub fn condition<T: Real>(frame: &Vec<T>) -> (out: Vec<T>)
    requires
        frame.len() > 0,
    ensures
        out.len() == frame.len(),
        arith::deterministic::<T>() ==> out@ == emphasized(centered(frame@)),
{
    let n: usize = frame.len();
    let mean: T = arith::sum(frame).over(T::count(n));
    let mut flat: Vec<T> = Vec::new();
    let mut i: usize = 0;
    while i < n
        invariant
            i <= n == frame.len(),
            flat.len() == i,
            arith::deterministic::<T>() ==> forall|k: int|
                0 <= k < i ==> #[trigger] flat@[k] == arith::minus(frame@[k], mean),
        decreases n - i,
    {
        flat.push(frame[i].minus(mean));
        i = i + 1;
    }
    proof {
        if arith::deterministic::<T>() {
            assert(flat@ =~= centered(frame@));
        }
    }
    let mut out: Vec<T> = Vec::new();
    let mut j: usize = 0;
    while j < n
        invariant
            j <= n == flat.len(),
            out.len() == j,
            arith::deterministic::<T>() ==> forall|k: int|
                0 <= k < j ==> #[trigger] out@[k] == emphasized(flat@)[k],
        decreases n - j,
    {
        let before: T = flat[if j == 0 { 0 } else { j - 1 }];
        out.push(flat[j].minus(T::fraction(97, 100).times(before)));
        j = j + 1;
    }
    proof {
        if arith::deterministic::<T>() {
            assert(out@ =~= emphasized(centered(frame@)));
        }
    }
    out
}

/// The logarithm of a value, held at the smallest step from one of a 32-bit float.
pub open spec fn epsilon_log<T: Real>(v: T) -> T {
    arith::logarithm(arith::larger(v, arith::fraction(1, 8_388_608)))
}

/// The features of a conditioned frame.
pub open spec fn frame_features<T: Real, F: Transform<T>>(
    frame: Seq<T>,
    window: Seq<T>,
    banks: Seq<Seq<T>>,
    n_bins: int,
    fft: F,
) -> Seq<T> {
    let bins = spectra::frame_bins::<T, F>(frame, 0, 0, window, N_FFT as int, fft);
    let sums = spectra::band_sums(banks, spectra::powers(bins, n_bins));
    Seq::new(sums.len(), |m: int| epsilon_log(sums[m]))
}

/// The features of a conditioned frame.
pub fn features_of<T: Real, F: Transform<T>>(
    frame: &Vec<T>,
    window: &Vec<T>,
    banks: &Vec<Vec<T>>,
    n_bins: usize,
    fft: &F,
) -> (row: Vec<T>)
    requires
        window.len() <= N_FFT,
        n_bins <= N_FFT,
        forall|m: int| 0 <= m < banks.len() ==> (#[trigger] banks@[m]).len() <= n_bins,
        fourier::keeps_length::<T, F>(*fft),
    ensures
        row.len() == banks.len(),
        arith::deterministic::<T>() && fourier::functional::<T, F>(*fft) ==> row@
            == frame_features::<T, F>(
            frame@,
            window@,
            spectra::grid(banks@),
            n_bins as int,
            *fft,
        ),
{
    let bins = spectra::analyse(frame, 0, 0, window, N_FFT, fft);
    let power: Vec<T> = spectra::power_of(&bins, n_bins);
    let sums: Vec<T> = spectra::sum_bands(banks, &power);
    let mut row: Vec<T> = Vec::new();
    let mut m: usize = 0;
    while m < sums.len()
        invariant
            m <= sums.len(),
            row.len() == m,
            arith::deterministic::<T>() ==> forall|k: int|
                0 <= k < m ==> #[trigger] row@[k] == epsilon_log(sums@[k]),
        decreases sums.len() - m,
    {
        row.push(sums[m].larger(T::fraction(1, 8_388_608)).logarithm());
        m = m + 1;
    }
    proof {
        if arith::deterministic::<T>() && fourier::functional::<T, F>(*fft) {
            assert(row@ =~= frame_features::<T, F>(
                frame@,
                window@,
                spectra::grid(banks@),
                n_bins as int,
                *fft,
            ));
        }
    }
    row
}

/// The samples of frame `f`, scaled to the range of 16-bit integers.
pub open spec fn scaled_frame<T: Real>(samples: Seq<T>, f: int) -> Seq<T> {
    Seq::new(
        FRAME_LEN as nat,
        |i: int| arith::times(samples[f * FRAME_SHIFT + i], arith::whole(32_768)),
    )
}

/// Extractor of the features of the recognizer.
pub struct KaldiFbank<T: Real, F: Transform<T>> {
    /// The transform of a frame.
    pub fft: F,
    /// The window of a frame.
    pub window: Vec<T>,
    /// The weights of the bands.
    pub filterbank: Vec<Vec<T>>,
}

impl<T: Real, F: Transform<T>> KaldiFbank<T, F> {
    /// Whether window and bands have their sizes.
    pub open spec fn valid(&self) -> bool {
        &&& self.window.len() == FRAME_LEN
        &&& self.filterbank.len() == N_MELS
        &&& forall|m: int| 0 <= m < N_MELS ==> (#[trigger] self.filterbank@[m]).len() == 257
        &&& fourier::keeps_length::<T, F>(self.fft)
    }

    /// An extractor that transforms frames by `fft`.
    pub fn new(fft: F) -> (k: Self)
        requires
            fourier::keeps_length::<T, F>(fft),
        ensures
            k.valid(),
            k.fft == fft,
            arith::deterministic::<T>() ==> k.window@ == Seq::new(
                FRAME_LEN as nat,
                |i: int| povey::<T>(i),
            ),
            arith::deterministic::<T>() ==> forall|m: int|
                0 <= m < N_MELS ==> (#[trigger] k.filterbank@[m])@ == Seq::new(
                    257,
                    |bin: int| kaldi_weight::<T>(m, bin),
                ),
    {
        let window: Vec<T> = povey_window();
        let filterbank: Vec<Vec<T>> = kaldi_filterbank();
        KaldiFbank { fft, window, filterbank }
    }

    /// The features of a waveform at 16 kHz: a row of 80 values for each whole frame.
    pub fn compute(&self, samples: &[T]) -> (r: Result<Vec<Vec<T>>, Error>)
        requires
            self.valid(),
        ensures
            r is Err <==> samples.len() < FRAME_LEN,
            r is Err ==> error::input_error(
                r,
                "need at least 400 samples, got "@ + text::digits(samples.len() as nat),
            ),
            r is Ok ==> {
                let out = r->Ok_0;
                &&& out.len() == 1 + (samples.len() - FRAME_LEN) / FRAME_SHIFT as int
                &&& forall|f: int| 0 <= f < out.len() ==> (#[trigger] out@[f]).len() == N_MELS
                &&& arith::deterministic::<T>() && fourier::functional::<T, F>(self.fft)
                    ==> forall|f: int|
                    0 <= f < out.len() ==> (#[trigger] out@[f])@ == frame_features::<T, F>(
                        emphasized(centered(scaled_frame(samples@, f))),
                        self.window@,
                        spectra::grid(self.filterbank@),
                        257,
                        self.fft,
                    )
            },
    {
        if samples.len() < FRAME_LEN {
            let got: String = text::decimal(samples.len() as u64);
            return Err(
                Error::Input(text::joined("need at least 400 samples, got ", got.as_str())),
            );
        }
        let frames: usize = 1 + (samples.len() - FRAME_LEN) / FRAME_SHIFT;
        let mut out: Vec<Vec<T>> = Vec::new();
        let mut f: usize = 0;
        while f < frames
            invariant
                self.valid(),
                FRAME_LEN <= samples.len(),
                frames == 1 + (samples.len() - FRAME_LEN) / FRAME_SHIFT as int,
                f <= frames,
                out.len() == f,
                forall|k: int| 0 <= k < f ==> (#[trigger] out@[k]).len() == N_MELS,
                arith::deterministic::<T>() && fourier::functional::<T, F>(self.fft)
                    ==> forall|k: int|
                    0 <= k < f ==> (#[trigger] out@[k])@ == frame_features::<T, F>(
                        emphasized(centered(scaled_frame(samples@, k))),
                        self.window@,
                        spectra::grid(self.filterbank@),
                        257,
                        self.fft,
                    ),
            decreases frames - f,
        {
            let start: usize = f * FRAME_SHIFT;
            let mut frame: Vec<T> = Vec::new();
            let mut i: usize = 0;
            while i < FRAME_LEN
                invariant
                    i <= FRAME_LEN,
                    start == f * FRAME_SHIFT,
                    start + FRAME_LEN <= samples.len(),
                    frame.len() == i,
                    arith::deterministic::<T>() ==> forall|k: int|
                        0 <= k < i ==> #[trigger] frame@[k] == scaled_frame(
                            samples@,
                            f as int,
                        )[k],
                decreases FRAME_LEN - i,
            {
                frame.push(samples[start + i].times(T::whole(32_768)));
                i = i + 1;
            }
            proof {
                if arith::deterministic::<T>() {
                    assert(frame@ =~= scaled_frame(samples@, f as int));
                }
            }
            let ready: Vec<T> = condition(&frame);
            out.push(features_of(&ready, &self.window, &self.filterbank, 257, &self.fft));
            f = f + 1;
        }
        Ok(out)
    }
}

/// Where the output frame `j` of `out_t` lies between `t` input frames, ends on ends.
pub open spec fn source_place<T: Real>(j: int, t: int, out_t: int) -> T {
    if out_t > 1 {
        arith::over(
            arith::times(arith::count(j as usize), arith::count((t - 1) as usize)),
            arith::count((out_t - 1) as usize),
        )
    } else {
        arith::whole(0)
    }
}

/// The input frame at or before the place `src`, of `t` frames.
pub open spec fn frame_before<T: Real>(src: T, t: int) -> int {
    let i = arith::floor(src);
    if i < 0 {
        0
    } else if i < t {
        i as int
    } else {
        t - 1
    }
}

/// The value between `a` and `b` at the share `w` of the way.
pub open spec fn between<T: Real>(a: T, b: T, w: T) -> T {
    arith::plus(arith::times(a, arith::minus(arith::whole(1), w)), arith::times(b, w))
}

/// The output frame `j` of a linear interpolation of the frames `x` to `out_t` frames.
pub open spec fn interpolated<T: Real>(x: Seq<Seq<T>>, out_t: int, j: int) -> Seq<T> {
    let t = x.len() as int;
    let src = source_place::<T>(j, t, out_t);
    let i0 = frame_before(src, t);
    let i1 = if i0 + 1 < t { i0 + 1 } else { t - 1 };
    let w = arith::minus(src, arith::count(i0 as usize));
    Seq::new(x[i0].len(), |k: int| between(x[i0][k], x[i1][k], w))
}

/// Linear interpolation of frames of `d` values to `factor` times as many, ends on ends.
pub fn interpolate_linear<T: Real>(x: &Vec<Vec<T>>, d: usize, factor: usize) -> (out: Vec<Vec<T>>)
    requires
        x.len() * factor <= usize::MAX,
        forall|i: int| 0 <= i < x.len() ==> (#[trigger] x@[i]).len() == d,
    ensures
        out.len() == x.len() * factor,
        forall|j: int| 0 <= j < out.len() ==> (#[trigger] out@[j]).len() == d,
        arith::deterministic::<T>() ==> forall|j: int|
            0 <= j < out.len() ==> (#[trigger] out@[j])@ == interpolated(
                spectra::grid(x@),
                out.len() as int,
                j,
            ),
{
    let t: usize = x.len();
    let out_t: usize = t * factor;
    let mut out: Vec<Vec<T>> = Vec::new();
    proof {
        if t == 0 {
            assert(t * factor == 0) by (nonlinear_arith)
                requires
                    t == 0,
            ;
        }
    }
    let mut j: usize = 0;
    while j < out_t
        invariant
            t == x.len(),
            t == 0 ==> out_t == 0,
            forall|i: int| 0 <= i < x.len() ==> (#[trigger] x@[i]).len() == d,
            j <= out_t,
            out.len() == j,
            forall|k: int| 0 <= k < j ==> (#[trigger] out@[k]).len() == d,
            arith::deterministic::<T>() ==> forall|k: int|
                0 <= k < j ==> (#[trigger] out@[k])@ == interpolated(
                    spectra::grid(x@),
                    out_t as int,
                    k,
                ),
        decreases out_t - j,
    {
        let src: T = if out_t > 1 {
            T::count(j).times(T::count(t - 1)).over(T::count(out_t - 1))
        } else {
            T::whole(0)
        };
        let whole: i64 = src.floor();
        let i0: usize = if whole < 0 {
            0
        } else if (whole as u64) < t as u64 {
            whole as usize
        } else {
            t - 1
        };
        let i1: usize = if i0 + 1 < t { i0 + 1 } else { t - 1 };
        let w: T = src.minus(T::count(i0));
        let a: &Vec<T> = &x[i0];
        let b: &Vec<T> = &x[i1];
        let mut row: Vec<T> = Vec::new();
        let mut k: usize = 0;
        while k < d
            invariant
                k <= d == a.len(),
                d == b.len(),
                row.len() == k,
                arith::deterministic::<T>() ==> forall|p: int|
                    0 <= p < k ==> #[trigger] row@[p] == between(a@[p], b@[p], w),
            decreases d - k,
        {
            row.push(a[k].times(T::whole(1).minus(w)).plus(b[k].times(w)));
            k = k + 1;
        }
        proof {
            if arith::deterministic::<T>() {
                assert(row@ =~= interpolated(spectra::grid(x@), out_t as int, j as int));
            }
        }
        out.push(row);
        j = j + 1;
    }
    out
}

/// No frequency is no mel, and where the logarithm is one, at some 1203 Hz, there are 1127.
pub proof fn law_scale_is_logarithmic<T: Real>(f: T)
    requires
        arith::neutral::<T>(),
    ensures
        arith::logarithm(arith::plus(arith::whole(1), arith::over(f, arith::whole::<T>(700))))
            == arith::whole::<T>(0) ==> hz_to_kaldi_mel(f) == arith::whole::<T>(0),
        arith::logarithm(arith::plus(arith::whole(1), arith::over(f, arith::whole::<T>(700))))
            == arith::whole::<T>(1) ==> hz_to_kaldi_mel(f) == arith::whole::<T>(1127),
{
}

/// Whether steps add up in `T`, as in exact arithmetic: one step more is one more of them.
pub open spec fn steps_add_up<T: Real>() -> bool {
    &&& forall|a: T, d: T, m: usize|
        m < usize::MAX ==> arith::plus(
            #[trigger] arith::plus(a, arith::times(arith::count(m), d)),
            d,
        ) == arith::plus(a, arith::times(arith::count((m + 1) as usize), d))
    &&& forall|c: T, d: T, x: T|
        arith::below(c, x) && arith::below(x, arith::plus(c, d)) ==> arith::plus(
            #[trigger] arith::over(arith::minus(arith::plus(c, d), x), d),
            #[trigger] arith::over(arith::minus(x, c), d),
        ) == arith::whole::<T>(1)
}

/// The bands lie side by side on the mel scale: a bin that two of them hear is shared out among
/// these two in full.
pub proof fn law_bands_share_their_bins<T: Real>(m: int, bin: int)
    requires
        steps_add_up::<T>(),
        arith::strict::<T>(),
        0 <= m,
        m + 1 < N_MELS,
        kaldi_weight::<T>(m, bin) != arith::whole::<T>(0),
        kaldi_weight::<T>(m + 1, bin) != arith::whole::<T>(0),
    ensures
        arith::plus(kaldi_weight::<T>(m, bin), kaldi_weight::<T>(m + 1, bin)) == arith::whole::<
            T,
        >(1),
{
    let lo = hz_to_kaldi_mel::<T>(arith::whole(20));
    let d = kaldi_delta::<T>(arith::over(arith::count(16_000), arith::whole(2)));
    let a = arith::plus(lo, arith::times(arith::count(m as usize), d));
    let c = arith::plus(lo, arith::times(arith::count((m + 1) as usize), d));
    assert(arith::plus(a, d) == c);
    let x = hz_to_kaldi_mel::<T>(
        arith::over(
            arith::times(arith::count(bin as usize), arith::count(16_000)),
            arith::count(N_FFT),
        ),
    );
    let p = arith::over(arith::minus(arith::plus(c, d), x), d);
    let q = arith::over(arith::minus(x, c), d);
    assert(arith::plus(p, q) == arith::whole::<T>(1));
}

/// Beyond the 20 Hz where the first band starts and the 8 kHz where the last one ends there are
/// no weights: a bin whose mel value is that of one of them belongs to no band's inside there.
pub proof fn law_bands_end_at_the_limits<T: Real>(bin: int)
    requires
        arith::neutral::<T>(),
        arith::strict::<T>(),
        steps_add_up::<T>(),
        arith::count::<T>(0) == arith::whole::<T>(0),
        forall|a: T, b: T|
            arith::plus(
                a,
                arith::times(
                    arith::count(81),
                    #[trigger] arith::over(arith::minus(b, a), arith::count(81)),
                ),
            ) == b,
        forall|x: T| !#[trigger] arith::below(x, x),
    ensures
        ({
            let f = arith::over(
                arith::times(arith::count::<T>(bin as usize), arith::count(16_000)),
                arith::count(512),
            );
            let top = arith::over(arith::count::<T>(16_000), arith::whole(2));
            &&& f == arith::whole::<T>(20) ==> kaldi_weight::<T>(0, bin) == arith::whole::<T>(0)
            &&& f == top ==> kaldi_weight::<T>(79, bin) == arith::whole::<T>(0)
        }),
{
    let lo = hz_to_kaldi_mel::<T>(arith::whole(20));
    let top = arith::over(arith::count::<T>(16_000), arith::whole(2));
    let hi = hz_to_kaldi_mel::<T>(top);
    let d = kaldi_delta::<T>(top);
    assert(arith::plus(lo, arith::times(arith::count(0), d)) == lo);
    let a = arith::plus(lo, arith::times(arith::count(79), d));
    let b = arith::plus(lo, arith::times(arith::count(80), d));
    let c = arith::plus(lo, arith::times(arith::count(81), d));
    assert(arith::plus(a, d) == b);
    assert(arith::plus(b, d) == c);
    assert(c == hi);
}

/// A frame loses its mean: of a frame whose mean is zero nothing is lost, and a frame of one value
/// becomes zeros. A number taken from itself is zero, and a sum over a frame divided by its length
/// is its mean.
pub proof fn law_mean_is_taken_away<T: Real>(frame: Seq<T>, v: T, i: int)
    requires
        arith::neutral::<T>(),
        0 <= i < frame.len() <= usize::MAX,
        forall|x: T| #[trigger] arith::minus(x, x) == arith::whole::<T>(0),
        arith::over(arith::total(frame), arith::count(frame.len() as usize)) == v,
    ensures
        centered(frame).len() == frame.len(),
        v == arith::whole::<T>(0) ==> centered(frame)[i] == frame[i],
        frame[i] == v ==> centered(frame)[i] == arith::whole::<T>(0),
        v != arith::whole::<T>(0) && frame[i] == arith::whole::<T>(0) ==> centered(frame)[i]
            == arith::minus(arith::whole::<T>(0), v),
{
}

/// A sample is answered at once and, with 0.97 of it taken away, at the next one; the first one
/// answers itself. Of a frame that is silent but at place `k` nothing else is left.
pub proof fn law_emphasis_answers_a_pulse<T: Real>(frame: Seq<T>, k: int, i: int)
    requires
        arith::neutral::<T>(),
        0 <= k < frame.len(),
        0 <= i < frame.len(),
        forall|j: int|
            0 <= j < frame.len() && j != k ==> #[trigger] frame[j] == arith::whole::<T>(0),
    ensures
        ({
            let out = emphasized(frame);
            let less = arith::times(arith::fraction(97, 100), frame[k]);
            &&& out.len() == frame.len()
            &&& i == k && 0 < k ==> out[i] == frame[k]
            &&& i == k + 1 ==> out[i] == arith::minus(arith::whole::<T>(0), less)
            &&& i == 0 && k == 0 ==> out[i] == arith::minus(frame[0], less)
            &&& i != k && i != k + 1 ==> out[i] == arith::whole::<T>(0)
        }),
{
    assert(arith::minus(arith::whole::<T>(0), arith::whole(0)) == arith::whole::<T>(0));
}

/// The window is zero where the cosine is one, at both of its ends, and one where the cosine is
/// less one, in its middle, and mirrors itself there: a place and the one as far from the other
/// end, 399 places from the first, are alike wherever the cosine is.
pub proof fn law_window_rises_and_falls<T: Real>(i: int)
    requires
        arith::neutral::<T>(),
        0 <= i < FRAME_LEN,
        arith::minus(arith::fraction::<T>(1, 2), arith::fraction(1, 2)) == arith::whole::<T>(0),
        arith::minus(
            arith::fraction::<T>(1, 2),
            arith::times(arith::fraction(1, 2), arith::whole((-1) as i64)),
        ) == arith::whole::<T>(1),
        arith::power(arith::whole::<T>(0), arith::fraction(85, 100)) == arith::whole::<T>(0),
        arith::power(arith::whole::<T>(1), arith::fraction(85, 100)) == arith::whole::<T>(1),
    ensures
        ({
            let turn = |k: int|
                arith::cosine(
                    arith::over(
                        arith::times(
                            arith::times(arith::whole::<T>(2), arith::pi()),
                            arith::count(k as usize),
                        ),
                        arith::count(399),
                    ),
                );
            &&& turn(i) == arith::whole::<T>(1) ==> povey::<T>(i) == arith::whole::<T>(0)
            &&& turn(i) == arith::whole::<T>((-1) as i64) ==> povey::<T>(i) == arith::whole::<T>(1)
            &&& turn(399 - i) == turn(i) ==> povey::<T>(399 - i) == povey::<T>(i)
        }),
{
}

/// A frame is that of its own samples: frame `f` of one signal and frame `g` of another are the
/// same where the 400 samples from 160 `f` and from 160 `g` on are the same. So audio that comes
/// 160 samples later shows a frame later.
pub proof fn law_frame_is_of_its_stretch<T: Real>(a: Seq<T>, f: int, b: Seq<T>, g: int)
    requires
        0 <= f,
        0 <= g,
        160 * f + 400 <= a.len(),
        160 * g + 400 <= b.len(),
        forall|i: int| 0 <= i < 400 ==> #[trigger] a[160 * f + i] == b[160 * g + i],
    ensures
        scaled_frame(a, f) == scaled_frame(b, g),
        scaled_frame(a, f).len() == 400,
{
    assert(160 * f == f * FRAME_SHIFT);
    assert(160 * g == g * FRAME_SHIFT);
    let x = scaled_frame(a, f);
    let y = scaled_frame(b, g);
    assert forall|i: int| 0 <= i < 400 implies #[trigger] x[i] == y[i] by {
        assert(a[160 * f + i] == b[160 * g + i]);
    }
    assert(x =~= y);
}

/// A full sample becomes the greatest 16-bit step and silence stays silence.
pub proof fn law_frames_are_scaled_to_sixteen_bits<T: Real>(a: Seq<T>, f: int, i: int)
    requires
        arith::neutral::<T>(),
        0 <= f,
        0 <= i < 400,
        160 * f + 400 <= a.len(),
    ensures
        a[160 * f + i] == arith::whole::<T>(1) ==> scaled_frame(a, f)[i] == arith::whole::<T>(
            32_768,
        ),
        a[160 * f + i] == arith::whole::<T>(0) ==> scaled_frame(a, f)[i] == arith::whole::<T>(0),
{
    assert(160 * f == f * FRAME_SHIFT);
}

/// Each value is that of its own band: bands with equal weights have equal values, in whatever
/// order and among whatever others they stand.
pub proof fn law_value_is_of_its_band<T: Real, F: Transform<T>>(
    frame: Seq<T>,
    window: Seq<T>,
    one: Seq<Seq<T>>,
    other: Seq<Seq<T>>,
    n_bins: int,
    fft: F,
    m: int,
    k: int,
)
    requires
        0 <= m < one.len(),
        0 <= k < other.len(),
        one[m] == other[k],
    ensures
        frame_features::<T, F>(frame, window, one, n_bins, fft).len() == one.len(),
        frame_features::<T, F>(frame, window, one, n_bins, fft)[m] == frame_features::<T, F>(
            frame,
            window,
            other,
            n_bins,
            fft,
        )[k],
{
}

/// A value is a logarithm, and never that of less than the smallest step from one of a 32-bit
/// float.
pub proof fn law_log_has_a_floor<T: Real>(v: T)
    ensures
        arith::larger(v, arith::fraction(1, 8_388_608)) == v ==> epsilon_log(v)
            == arith::logarithm(v),
        arith::larger(v, arith::fraction(1, 8_388_608)) == arith::fraction::<T>(1, 8_388_608)
            ==> epsilon_log(v) == arith::logarithm(arith::fraction::<T>(1, 8_388_608)),
{
}

/// Interpolation keeps the ends: the first frame that comes out is the first that went in, and the
/// last one is the last.
pub proof fn law_interpolation_keeps_the_ends<T: Real>(x: Seq<Seq<T>>, out_t: int)
    requires
        arith::neutral::<T>(),
        1 < x.len() <= i64::MAX,
        1 < out_t <= usize::MAX,
        x.len() <= usize::MAX,
        forall|i: int| 0 <= i < x.len() ==> (#[trigger] x[i]).len() == x[0].len(),
        arith::count::<T>(0) == arith::whole::<T>(0),
        arith::over(arith::whole::<T>(0), arith::count((out_t - 1) as usize)) == arith::whole::<
            T,
        >(0),
        arith::floor(arith::whole::<T>(0)) == 0,
        arith::floor(arith::count::<T>((x.len() - 1) as usize)) == x.len() - 1,
        arith::over(
            arith::times(
                arith::count::<T>((out_t - 1) as usize),
                arith::count((x.len() - 1) as usize),
            ),
            arith::count((out_t - 1) as usize),
        ) == arith::count::<T>((x.len() - 1) as usize),
        forall|v: T| #[trigger] arith::minus(v, v) == arith::whole::<T>(0),
    ensures
        interpolated(x, out_t, 0) == x[0],
        interpolated(x, out_t, out_t - 1) == x.last(),
{
    assert(interpolated(x, out_t, 0) =~= x[0]);
    assert(interpolated(x, out_t, out_t - 1) =~= x.last());
}

/// Interpolation keeps what stays the same: where two frames that follow each other are equal, so
/// is every frame between them; in particular frames that are all equal stay as they are.
pub proof fn law_interpolation_keeps_a_constant<T: Real>(
    x: Seq<Seq<T>>,
    row: Seq<T>,
    out_t: int,
    j: int,
)
    requires
        arith::blends::<T>(),
        0 < x.len(),
        forall|i: int| 0 <= i < x.len() ==> #[trigger] x[i] == row,
    ensures
        interpolated(x, out_t, j) == row,
{
    let t = x.len() as int;
    let src = source_place::<T>(j, t, out_t);
    let i0 = frame_before(src, t);
    let i1 = if i0 + 1 < t { i0 + 1 } else { t - 1 };
    let w = arith::minus(src, arith::count(i0 as usize));
    assert(x[i0] == row);
    assert(x[i1] == row);
    let r = interpolated(x, out_t, j);
    assert forall|k: int| 0 <= k < row.len() implies #[trigger] r[k] == row[k] by {
        assert(arith::plus(
            arith::times(row[k], arith::minus(arith::whole(1), w)),
            arith::times(row[k], w),
        ) == row[k]);
    }
    assert(r =~= row);
}

/// A frame that comes out lies between the two frames around its place: it depends on these two
/// alone, and where its place is that of an input frame it is that frame.
pub proof fn law_interpolation_is_between_neighbours<T: Real>(
    x: Seq<Seq<T>>,
    y: Seq<Seq<T>>,
    out_t: int,
    j: int,
    i: int,
)
    requires
        x.len() == y.len(),
        0 <= i < x.len() <= usize::MAX,
        x.len() <= i64::MAX,
        1 < out_t <= usize::MAX,
        0 <= j < out_t,
        arith::floor(
            arith::over(
                arith::times(arith::count::<T>(j as usize), arith::count((x.len() - 1) as usize)),
                arith::count((out_t - 1) as usize),
            ),
        ) == i,
        x[i] == y[i],
        i + 1 < x.len() ==> x[i + 1] == y[i + 1],
    ensures
        interpolated(x, out_t, j) == interpolated(y, out_t, j),
        interpolated(x, out_t, j).len() == x[i].len(),
        arith::neutral::<T>() && arith::minus(
            arith::over(
                arith::times(arith::count::<T>(j as usize), arith::count((x.len() - 1) as usize)),
                arith::count((out_t - 1) as usize),
            ),
            arith::count(i as usize),
        ) == arith::whole::<T>(0) ==> interpolated(x, out_t, j) == x[i],
{
    assert(interpolated(x, out_t, j) =~= interpolated(y, out_t, j));
    if arith::neutral::<T>() && arith::minus(
        arith::over(
            arith::times(arith::count::<T>(j as usize), arith::count((x.len() - 1) as usize)),
            arith::count((out_t - 1) as usize),
        ),
        arith::count(i as usize),
    ) == arith::whole::<T>(0) {
        assert(interpolated(x, out_t, j) =~= x[i]);
    }
}

} // verus!
