//! The three audio front ends of the engine: Whisper-style log-mel for the tokenizer, HiFi-GAN
//! mel for the vocoder domain, Kaldi-style features for the speaker encoder.

use vstd::prelude::*;
use crate::arith;
use crate::arith::Real;
use crate::buffers::part;
use crate::fir;
use crate::fourier;
use crate::fourier::Transform;
use crate::mel::floored_log_of;
use crate::mel::triangle_at;
use crate::meanvc::fbank;
use crate::spectra;

verus! {

/// The samples that are mirrored on either side: half a frame where frames are centred, else
/// half of what a frame is longer than a hop.
pub open spec fn stft_pad(n_fft: int, hop: int, center: bool) -> int {
    if center {
        n_fft / 2
    } else {
        (n_fft - hop) / 2
    }
}

/// The number of frames in `n` samples with `pad` more on either side.
pub open spec fn stft_frames(n: int, pad: int, n_fft: int, hop: int) -> int {
    if n + 2 * pad >= n_fft {
        1 + (n + 2 * pad - n_fft) / hop
    } else {
        0
    }
}

/// The magnitudes of frame `f`, or its powers.
pub open spec fn stft_frame<T: Real, F: Transform<T>>(
    audio: Seq<T>,
    pad: int,
    n_fft: int,
    hop: int,
    window: Seq<T>,
    power: bool,
    fft: F,
    f: int,
) -> Seq<T> {
    let bins = spectra::frame_bins::<T, F>(
        spectra::reflected(audio, pad),
        f * hop,
        0,
        window,
        n_fft,
        fft,
    );
    let p = spectra::powers(bins, n_fft / 2 + 1);
    if power {
        p
    } else {
        spectra::magnitudes(p, arith::fraction(1, 1_000_000_000))
    }
}

/// The short-time magnitudes of a signal, or its powers: a row for each frame.
pub fn stft_mag<T: Real, F: Transform<T>>(
    audio: &[T],
    n_fft: usize,
    hop: usize,
    window: &Vec<T>,
    center: bool,
    power: bool,
    fft: &F,
) -> (out: Vec<Vec<T>>)
    requires
        audio.len() > 0,
        0 < hop,
        0 < n_fft,
        center || hop <= n_fft,
        window.len() == n_fft,
        audio.len() + 2 * n_fft <= usize::MAX,
        fourier::keeps_length::<T, F>(*fft),
    ensures
        out.len() == stft_frames(
            audio.len() as int,
            stft_pad(n_fft as int, hop as int, center),
            n_fft as int,
            hop as int,
        ),
        forall|f: int| 0 <= f < out.len() ==> (#[trigger] out@[f]).len() == n_fft / 2 + 1,
        arith::deterministic::<T>() && fourier::functional::<T, F>(*fft) ==> forall|f: int|
            0 <= f < out.len() ==> (#[trigger] out@[f])@ == stft_frame::<T, F>(
                audio@,
                stft_pad(n_fft as int, hop as int, center),
                n_fft as int,
                hop as int,
                window@,
                power,
                *fft,
                f,
            ),
{
    let pad: usize = if center { n_fft / 2 } else { (n_fft - hop) / 2 };
    let x: Vec<T> = spectra::reflect_pad(audio, pad);
    let frames: usize = if x.len() >= n_fft {
        proof {
            vstd::arithmetic::div_mod::lemma_div_is_ordered_by_denominator(
                x.len() - n_fft,
                1,
                hop as int,
            );
        }
        1 + (x.len() - n_fft) / hop
    } else {
        0
    };
    let mut out: Vec<Vec<T>> = Vec::new();
    let mut f: usize = 0;
    let mut start: usize = 0;
    while f < frames
        invariant
            0 < hop,
            0 < n_fft,
            window.len() == n_fft,
            audio.len() + 2 * n_fft <= usize::MAX,
            fourier::keeps_length::<T, F>(*fft),
            2 * pad <= n_fft,
            x@ == spectra::reflected(audio@, pad as int),
            frames > 0 ==> x.len() >= n_fft && frames == 1 + (x.len() - n_fft) / hop as int,
            f <= frames,
            f < frames ==> start == f * hop,
            out.len() == f,
            forall|k: int| 0 <= k < f ==> (#[trigger] out@[k]).len() == n_fft / 2 + 1,
            arith::deterministic::<T>() && fourier::functional::<T, F>(*fft) ==> forall|k: int|
                0 <= k < f ==> (#[trigger] out@[k])@ == stft_frame::<T, F>(
                    audio@,
                    pad as int,
                    n_fft as int,
                    hop as int,
                    window@,
                    power,
                    *fft,
                    k,
                ),
        decreases frames - f,
    {
        proof {
            crate::mel::lemma_frame_fits(f as int, hop as int, x.len() - n_fft);
        }
        let bins = spectra::analyse(&x, start, 0, window, n_fft, fft);
        let p: Vec<T> = spectra::power_of(&bins, n_fft / 2 + 1);
        if power {
            out.push(p);
        } else {
            out.push(spectra::magnitude_of(&p, T::fraction(1, 1_000_000_000)));
        }
        f = f + 1;
        if f < frames {
            proof {
                crate::mel::lemma_frame_fits(f as int, hop as int, x.len() - n_fft);
                assert((f - 1) * hop + hop == f * hop) by (nonlinear_arith);
            }
            start = start + hop;
        }
    }
    out
}

/// The mel bands of the front ends.
pub struct MelFrontend<T: Real> {
    /// 128 bands over 201 bins, for Whisper at 16 kHz.
    pub whisper_fb: Vec<Vec<T>>,
    /// 80 bands over 961 bins, for HiFi-GAN at 24 kHz.
    pub hifi_fb: Vec<Vec<T>>,
}

/// The logarithm to base ten of a value, held at the tenth negative power of ten.
pub open spec fn floored_decimal_log<T: Real>(v: T) -> T {
    arith::decimal_logarithm(arith::larger(v, arith::fraction(1, 10_000_000_000)))
}

/// The unscaled log-mel value of band `m` in frame `f`.
pub open spec fn whisper_value<T: Real, F: Transform<T>>(
    banks: Seq<Seq<T>>,
    audio: Seq<T>,
    window: Seq<T>,
    fft: F,
    m: int,
    f: int,
) -> T {
    floored_decimal_log(
        fir::convolved(
            banks[m],
            stft_frame::<T, F>(audio, 200, 400, 160, window, true, fft, f),
        ),
    )
}

/// The unscaled log-mel table of a signal, a row for each band.
pub open spec fn whisper_table<T: Real, F: Transform<T>>(
    banks: Seq<Seq<T>>,
    audio: Seq<T>,
    window: Seq<T>,
    fft: F,
    frames: int,
) -> Seq<Seq<T>> {
    Seq::new(
        128,
        |m: int|
            Seq::new(
                frames as nat,
                |f: int| whisper_value::<T, F>(banks, audio, window, fft, m, f),
            ),
    )
}

/// The log-mel values of a frame of the vocoder domain.
pub open spec fn hifigan_frame<T: Real, F: Transform<T>>(
    banks: Seq<Seq<T>>,
    audio: Seq<T>,
    window: Seq<T>,
    fft: F,
    f: int,
) -> Seq<T> {
    crate::mel::floored_logs(
        spectra::band_sums(
            banks,
            stft_frame::<T, F>(audio, 720, 1920, 480, window, false, fft, f),
        ),
    )
}

/// The periodic Hann window of length `n`.
pub open spec fn hann_window<T: Real>(n: int) -> Seq<T> {
    Seq::new(n as nat, |i: int| spectra::hann_periodic_at::<T>(i, n))
}

impl<T: Real> MelFrontend<T> {
    /// Whether the bands have their sizes.
    pub open spec fn valid(&self) -> bool {
        &&& self.whisper_fb.len() == 128
        &&& forall|m: int| 0 <= m < 128 ==> (#[trigger] self.whisper_fb@[m]).len() == 201
        &&& self.hifi_fb.len() == 80
        &&& forall|m: int| 0 <= m < 80 ==> (#[trigger] self.hifi_fb@[m]).len() == 961
    }

    /// Log-mel for the tokenizer, of audio at 16 kHz: 128 rows, one value for each frame but
    /// the last.
    pub fn whisper_mel128<F: Transform<T>>(&self, audio: &[T], fft: &F) -> (mel: Vec<Vec<T>>)
        requires
            self.valid(),
            0 < audio.len(),
            audio.len() + 800 <= usize::MAX,
            fourier::keeps_length::<T, F>(*fft),
        ensures
            mel.len() == 128,
            forall|m: int| 0 <= m < 128 ==> (#[trigger] mel@[m]).len() == audio.len() / 160,
            arith::deterministic::<T>() && fourier::functional::<T, F>(*fft) ==> ({
                let table = whisper_table::<T, F>(
                    spectra::grid(self.whisper_fb@),
                    audio@,
                    hann_window(400),
                    *fft,
                    audio.len() as int / 160,
                );
                forall|m: int, f: int|
                    0 <= m < 128 && 0 <= f < audio.len() / 160 ==> #[trigger] mel@[m]@[f]
                        == spectra::whisper_scaled(table[m][f], spectra::grid_top(table))
            }),
    {
        let window: Vec<T> = spectra::hann_periodic(400);
        let mag2: Vec<Vec<T>> = stft_mag(audio, 400, 160, &window, true, true, fft);
        let frames: usize = mag2.len() - 1;
        assert(frames == audio.len() / 160);
        let mut logs: Vec<Vec<T>> = Vec::new();
        let mut m: usize = 0;
        while m < 128
            invariant
                self.valid(),
                m <= 128,
                frames < mag2.len(),
                forall|f: int| 0 <= f < mag2.len() ==> (#[trigger] mag2@[f]).len() == 201,
                logs.len() == m,
                forall|k: int| 0 <= k < m ==> (#[trigger] logs@[k]).len() == frames,
                arith::deterministic::<T>() ==> forall|k: int, f: int|
                    0 <= k < m && 0 <= f < frames ==> #[trigger] logs@[k]@[f]
                        == floored_decimal_log(
                        fir::convolved(self.whisper_fb@[k]@, mag2@[f]@),
                    ),
            decreases 128 - m,
        {
            let fb: &Vec<T> = &self.whisper_fb[m];
            let mut row: Vec<T> = Vec::new();
            let mut f: usize = 0;
            while f < frames
                invariant
                    f <= frames < mag2.len(),
                    fb.len() == 201,
                    forall|k: int| 0 <= k < mag2.len() ==> (#[trigger] mag2@[k]).len() == 201,
                    row.len() == f,
                    arith::deterministic::<T>() ==> forall|k: int|
                        0 <= k < f ==> #[trigger] row@[k] == floored_decimal_log(
                            fir::convolved(fb@, mag2@[k]@),
                        ),
                decreases frames - f,
            {
                let v: T = fir::dot(fb, &mag2[f]);
                row.push(v.larger(T::fraction(1, 10_000_000_000)).decimal_logarithm());
                f = f + 1;
            }
            logs.push(row);
            m = m + 1;
        }
        proof {
            if arith::deterministic::<T>() && fourier::functional::<T, F>(*fft) {
                let table = whisper_table::<T, F>(
                    spectra::grid(self.whisper_fb@),
                    audio@,
                    hann_window(400),
                    *fft,
                    frames as int,
                );
                assert(window@ =~= hann_window::<T>(400));
                assert forall|k: int| 0 <= k < 128 implies #[trigger] spectra::grid(logs@)[k]
                    == table[k] by {
                    assert forall|f: int| 0 <= f < frames implies #[trigger] logs@[k]@[f]
                        == table[k][f] by {
                        assert(mag2@[f]@ == stft_frame::<T, F>(
                            audio@,
                            200,
                            400,
                            160,
                            window@,
                            true,
                            *fft,
                            f,
                        ));
                    }
                    assert(logs@[k]@ =~= table[k]);
                }
                assert(spectra::grid(logs@) =~= table);
            }
        }
        spectra::whisper_scale(&logs)
    }

    /// Mel of the vocoder domain, of audio at 24 kHz: a row of 80 values for each frame.
    pub fn hifigan_mel80<F: Transform<T>>(&self, audio: &[T], fft: &F) -> (mel: Vec<Vec<T>>)
        requires
            self.valid(),
            0 < audio.len(),
            audio.len() + 3840 <= usize::MAX,
            fourier::keeps_length::<T, F>(*fft),
        ensures
            mel.len() == stft_frames(audio.len() as int, 720, 1920, 480),
            forall|f: int| 0 <= f < mel.len() ==> (#[trigger] mel@[f]).len() == 80,
            arith::deterministic::<T>() && fourier::functional::<T, F>(*fft) ==> forall|f: int|
                0 <= f < mel.len() ==> (#[trigger] mel@[f])@ == hifigan_frame::<T, F>(
                    spectra::grid(self.hifi_fb@),
                    audio@,
                    hann_window(1920),
                    *fft,
                    f,
                ),
    {
        let window: Vec<T> = spectra::hann_periodic(1920);
        let mag: Vec<Vec<T>> = stft_mag(audio, 1920, 480, &window, false, false, fft);
        let mut mel: Vec<Vec<T>> = Vec::new();
        proof {
            if arith::deterministic::<T>() {
                assert(window@ =~= hann_window::<T>(1920));
            }
        }
        let mut f: usize = 0;
        while f < mag.len()
            invariant
                self.valid(),
                f <= mag.len(),
                forall|k: int| 0 <= k < mag.len() ==> (#[trigger] mag@[k]).len() == 961,
                arith::deterministic::<T>() && fourier::functional::<T, F>(*fft)
                    ==> forall|k: int|
                    0 <= k < mag.len() ==> (#[trigger] mag@[k])@ == stft_frame::<T, F>(
                        audio@,
                        720,
                        1920,
                        480,
                        hann_window(1920),
                        false,
                        *fft,
                        k,
                    ),
                mel.len() == f,
                forall|k: int| 0 <= k < f ==> (#[trigger] mel@[k]).len() == 80,
                arith::deterministic::<T>() && fourier::functional::<T, F>(*fft)
                    ==> forall|k: int|
                    0 <= k < f ==> (#[trigger] mel@[k])@ == hifigan_frame::<T, F>(
                        spectra::grid(self.hifi_fb@),
                        audio@,
                        hann_window(1920),
                        *fft,
                        k,
                    ),
            decreases mag.len() - f,
        {
            let sums: Vec<T> = spectra::sum_bands(&self.hifi_fb, &mag[f]);
            mel.push(floored_log_of(&sums));
            f = f + 1;
        }
        mel
    }
}

/// The weight of bin `b` in band `m` of the speaker features.
pub open spec fn speaker_weight<T: Real>(m: int, b: int) -> T {
    let lo = fbank::hz_to_kaldi_mel::<T>(arith::whole(20));
    let delta = fbank::kaldi_delta::<T>(arith::whole(8000));
    let width = arith::over(arith::whole::<T>(16_000), arith::count(512));
    crate::mel::triangle(
        fbank::hz_to_kaldi_mel(arith::times(width, arith::count(b as usize))),
        arith::plus(lo, arith::times(arith::count(m as usize), delta)),
        arith::plus(lo, arith::times(arith::count((m + 1) as usize), delta)),
        arith::plus(lo, arith::times(arith::count((m + 2) as usize), delta)),
    )
}

/// The weights of band `m` of the speaker features: the bin at half of the rate has none.
pub open spec fn speaker_band<T: Real>(m: int) -> Seq<T> {
    Seq::new(256, |b: int| speaker_weight::<T>(m, b))
}

/// The weights of all bands of the speaker features.
pub open spec fn speaker_bands<T: Real>() -> Seq<Seq<T>> {
    Seq::new(80, |m: int| speaker_band::<T>(m))
}

/// The bands of the speaker features.
fn speaker_filterbank<T: Real>() -> (banks: Vec<Vec<T>>)
    ensures
        banks.len() == 80,
        forall|m: int| 0 <= m < 80 ==> (#[trigger] banks@[m]).len() == 256,
        arith::deterministic::<T>() ==> spectra::grid(banks@) == speaker_bands::<T>(),
{
    let lo: T = fbank::kaldi_mel_of(T::whole(20));
    let hi: T = fbank::kaldi_mel_of(T::whole(8000));
    let delta: T = hi.minus(lo).over(T::count(81));
    let width: T = T::whole(16_000).over(T::count(512));
    let mut banks: Vec<Vec<T>> = Vec::new();
    let mut m: usize = 0;
    while m < 80
        invariant
            m <= 80,
            banks.len() == m,
            arith::deterministic::<T>() ==> {
                &&& lo == fbank::hz_to_kaldi_mel::<T>(arith::whole(20))
                &&& delta == fbank::kaldi_delta::<T>(arith::whole(8000))
                &&& width == arith::over(arith::whole::<T>(16_000), arith::count(512))
            },
            forall|k: int| 0 <= k < m ==> (#[trigger] banks@[k]).len() == 256,
            arith::deterministic::<T>() ==> forall|k: int|
                0 <= k < m ==> (#[trigger] banks@[k])@ == speaker_band::<T>(k),
        decreases 80 - m,
    {
        let left: T = lo.plus(T::count(m).times(delta));
        let center: T = lo.plus(T::count(m + 1).times(delta));
        let right: T = lo.plus(T::count(m + 2).times(delta));
        let mut bank: Vec<T> = Vec::new();
        let mut b: usize = 0;
        while b < 256
            invariant
                b <= 256,
                bank.len() == b,
                arith::deterministic::<T>() ==> forall|k: int|
                    0 <= k < b ==> #[trigger] bank@[k] == crate::mel::triangle(
                        fbank::hz_to_kaldi_mel(arith::times(width, arith::count(k as usize))),
                        left,
                        center,
                        right,
                    ),
            decreases 256 - b,
        {
            let mel: T = fbank::kaldi_mel_of(width.times(T::count(b)));
            bank.push(triangle_at(mel, left, center, right));
            b = b + 1;
        }
        proof {
            if arith::deterministic::<T>() {
                assert(bank@ =~= speaker_band::<T>(m as int));
            }
        }
        banks.push(bank);
        m = m + 1;
    }
    proof {
        if arith::deterministic::<T>() {
            assert(spectra::grid(banks@) =~= speaker_bands::<T>());
        }
    }
    banks
}

/// The features of frame `f` before the mean of each band is taken away.
pub open spec fn speaker_frame<T: Real, F: Transform<T>>(audio: Seq<T>, fft: F, f: int) -> Seq<T> {
    fbank::frame_features::<T, F>(
        fbank::emphasized(fbank::centered(audio.subrange(f * 160, f * 160 + 400))),
        Seq::new(400, |i: int| fbank::povey::<T>(i)),
        speaker_bands::<T>(),
        256,
        fft,
    )
}

/// The mean of column `m` of a table.
pub open spec fn column_mean<T: Real>(rows: Seq<Seq<T>>, m: int) -> T {
    arith::over(
        arith::total(Seq::new(rows.len(), |f: int| rows[f][m])),
        arith::count(rows.len() as usize),
    )
}

/// The number of whole frames in `n` samples.
pub open spec fn whole_frames(n: int) -> int {
    if n < 400 {
        0
    } else {
        1 + (n - 400) / 160
    }
}

/// Kaldi-style features of audio at 16 kHz for the speaker encoder: a row of 80 values for each
/// whole frame, each band without its mean.
pub fn kaldi_fbank80<T: Real, F: Transform<T>>(audio: &[T], fft: &F) -> (out: Vec<Vec<T>>)
    requires
        fourier::keeps_length::<T, F>(*fft),
    ensures
        out.len() == whole_frames(audio.len() as int),
        forall|f: int| 0 <= f < out.len() ==> (#[trigger] out@[f]).len() == 80,
        arith::deterministic::<T>() && fourier::functional::<T, F>(*fft) ==> ({
            let raw = Seq::new(out@.len(), |f: int| speaker_frame::<T, F>(audio@, *fft, f));
            forall|f: int, m: int|
                0 <= f < out.len() && 0 <= m < 80 ==> #[trigger] out@[f]@[m] == arith::minus(
                    raw[f][m],
                    column_mean(raw, m),
                )
        }),
{
    if audio.len() < 400 {
        return Vec::new();
    }
    let frames: usize = 1 + (audio.len() - 400) / 160;
    let window: Vec<T> = fbank::povey_window();
    let banks: Vec<Vec<T>> = speaker_filterbank();
    let mut raw: Vec<Vec<T>> = Vec::new();
    let mut f: usize = 0;
    while f < frames
        invariant
            400 <= audio.len(),
            frames == 1 + (audio.len() - 400) / 160int,
            f <= frames,
            window.len() == 400,
            banks.len() == 80,
            forall|m: int| 0 <= m < 80 ==> (#[trigger] banks@[m]).len() == 256,
            fourier::keeps_length::<T, F>(*fft),
            arith::deterministic::<T>() ==> window@ == Seq::new(
                400,
                |i: int| fbank::povey::<T>(i),
            ) && spectra::grid(banks@) == speaker_bands::<T>(),
            raw.len() == f,
            forall|k: int| 0 <= k < f ==> (#[trigger] raw@[k]).len() == 80,
            arith::deterministic::<T>() && fourier::functional::<T, F>(*fft) ==> forall|k: int|
                0 <= k < f ==> (#[trigger] raw@[k])@ == speaker_frame::<T, F>(
                    audio@,
                    *fft,
                    k,
                ),
        decreases frames - f,
    {
        let src: Vec<T> = part(audio, f * 160, f * 160 + 400);
        let frame: Vec<T> = fbank::condition(&src);
        raw.push(fbank::features_of(&frame, &window, &banks, 256, fft));
        f = f + 1;
    }
    let ghost table = Seq::new(raw@.len(), |f: int| raw@[f]@);
    proof {
        if arith::deterministic::<T>() && fourier::functional::<T, F>(*fft) {
            assert(table =~= Seq::new(
                raw@.len(),
                |f: int| speaker_frame::<T, F>(audio@, *fft, f),
            ));
        }
    }
    let columns: Vec<Vec<T>> = spectra::transpose(&raw, 80);
    let mut means: Vec<T> = Vec::new();
    let mut m: usize = 0;
    while m < 80
        invariant
            m <= 80,
            columns.len() == 80,
            raw.len() == frames,
            table == Seq::new(raw@.len(), |f: int| raw@[f]@),
            forall|k: int| 0 <= k < 80 ==> (#[trigger] columns@[k]).len() == raw.len(),
            forall|k: int, t: int|
                0 <= k < 80 && 0 <= t < raw.len() ==> #[trigger] columns@[k]@[t] == raw@[t]@[k],
            means.len() == m,
            arith::deterministic::<T>() ==> forall|k: int|
                0 <= k < m ==> #[trigger] means@[k] == column_mean(table, k),
        decreases 80 - m,
    {
        let col: &Vec<T> = &columns[m];
        assert(col@ =~= Seq::new(table.len(), |t: int| table[t][m as int]));
        means.push(arith::sum(col).over(T::count(frames)));
        m = m + 1;
    }
    let mut out: Vec<Vec<T>> = Vec::new();
    let mut g: usize = 0;
    while g < frames
        invariant
            g <= frames == raw.len(),
            means.len() == 80,
            table == Seq::new(raw@.len(), |f: int| raw@[f]@),
            forall|k: int| 0 <= k < frames ==> (#[trigger] raw@[k]).len() == 80,
            arith::deterministic::<T>() ==> forall|k: int|
                0 <= k < 80 ==> #[trigger] means@[k] == column_mean(table, k),
            out.len() == g,
            forall|k: int| 0 <= k < g ==> (#[trigger] out@[k]).len() == 80,
            arith::deterministic::<T>() ==> forall|k: int, b: int|
                0 <= k < g && 0 <= b < 80 ==> #[trigger] out@[k]@[b] == arith::minus(
                    table[k][b],
                    column_mean(table, b),
                ),
        decreases frames - g,
    {
        let mut row: Vec<T> = Vec::new();
        let mut b: usize = 0;
        while b < 80
            invariant
                b <= 80,
                g < frames == raw.len(),
                raw@[g as int].len() == 80,
                means.len() == 80,
                row.len() == b,
                arith::deterministic::<T>() ==> forall|k: int|
                    0 <= k < b ==> #[trigger] row@[k] == arith::minus(
                        raw@[g as int]@[k],
                        means@[k],
                    ),
            decreases 80 - b,
        {
            row.push(raw[g][b].minus(means[b]));
            b = b + 1;
        }
        out.push(row);
        g = g + 1;
    }
    out
}

/// A frame is that of the audio around it: frame `f` of one signal and frame `g` of another have
/// the same spectrum where the `n_fft` samples from `pad` before `f` and `g` hops on are the same,
/// be it in one place or in two.
pub proof fn law_frame_is_of_its_stretch<T: Real, F: Transform<T>>(
    a: Seq<T>,
    f: int,
    b: Seq<T>,
    g: int,
    pad: int,
    n_fft: int,
    hop: int,
    window: Seq<T>,
    power: bool,
    fft: F,
)
    requires
        0 <= pad <= f * hop,
        pad <= g * hop,
        0 <= n_fft,
        f * hop - pad + n_fft <= a.len(),
        g * hop - pad + n_fft <= b.len(),
        forall|i: int|
            0 <= i < n_fft ==> #[trigger] a[f * hop - pad + i] == b[g * hop - pad + i],
    ensures
        stft_frame::<T, F>(a, pad, n_fft, hop, window, power, fft, f) == stft_frame::<T, F>(
            b,
            pad,
            n_fft,
            hop,
            window,
            power,
            fft,
            g,
        ),
{
    spectra::law_same_stretch_has_the_same_spectrum::<T, F>(
        a,
        f * hop,
        b,
        g * hop,
        pad,
        0,
        window,
        n_fft,
        fft,
    );
}

/// A magnitude is the root of the power that the same frame has, with a little added so that it is
/// never zero; and a frame has a value for each bin up to half of the rate.
pub proof fn law_magnitudes_are_roots_of_powers<T: Real, F: Transform<T>>(
    audio: Seq<T>,
    pad: int,
    n_fft: int,
    hop: int,
    window: Seq<T>,
    fft: F,
    f: int,
    k: int,
)
    requires
        0 < n_fft,
        0 <= k <= n_fft / 2,
    ensures
        ({
            let p = stft_frame::<T, F>(audio, pad, n_fft, hop, window, true, fft, f);
            let m = stft_frame::<T, F>(audio, pad, n_fft, hop, window, false, fft, f);
            &&& p.len() == n_fft / 2 + 1
            &&& m.len() == n_fft / 2 + 1
            &&& m[k] == arith::root(arith::plus(p[k], arith::fraction(1, 1_000_000_000)))
        }),
{
}

/// The unscaled value of the tokenizer's frame `f` is that of the 400 samples around sample
/// 160 `f`: frame `f` of one signal and frame `g` of another have the same values where these are
/// the same. So audio that comes 160 samples later shows a frame later.
pub proof fn law_whisper_value_is_of_its_stretch<T: Real, F: Transform<T>>(
    banks: Seq<Seq<T>>,
    window: Seq<T>,
    fft: F,
    m: int,
    a: Seq<T>,
    f: int,
    b: Seq<T>,
    g: int,
)
    requires
        200 <= 160 * f,
        200 <= 160 * g,
        160 * f + 200 <= a.len(),
        160 * g + 200 <= b.len(),
        forall|i: int|
            0 <= i < 400 ==> #[trigger] a[160 * f - 200 + i] == b[160 * g - 200 + i],
    ensures
        whisper_value::<T, F>(banks, a, window, fft, m, f) == whisper_value::<T, F>(
            banks,
            b,
            window,
            fft,
            m,
            g,
        ),
{
    assert forall|i: int| 0 <= i < 400 implies #[trigger] a[f * 160 - 200 + i] == b[g * 160 - 200
        + i] by {
        assert(a[160 * f - 200 + i] == b[160 * g - 200 + i]);
    }
    law_frame_is_of_its_stretch::<T, F>(a, f, b, g, 200, 400, 160, window, true, fft);
}

/// A value of the tokenizer's table is that of its own band and frame: where a band hears one bin
/// alone, its value is the logarithm of that bin's power, held at its floor.
pub proof fn law_whisper_value_is_of_its_band<T: Real, F: Transform<T>>(
    banks: Seq<Seq<T>>,
    audio: Seq<T>,
    window: Seq<T>,
    fft: F,
    frames: int,
    m: int,
    f: int,
    k: int,
)
    requires
        arith::neutral::<T>(),
        0 <= m < 128,
        128 <= banks.len(),
        0 <= f < frames,
        0 <= k < 201,
        banks[m].len() == 201,
        forall|j: int| 0 <= j < 201 && j != k ==> #[trigger] banks[m][j] == arith::whole::<T>(0),
        banks[m][k] == arith::whole::<T>(1),
    ensures
        ({
            let p = stft_frame::<T, F>(audio, 200, 400, 160, window, true, fft, f)[k];
            let v = whisper_table::<T, F>(banks, audio, window, fft, frames)[m][f];
            let least = arith::fraction::<T>(1, 10_000_000_000);
            &&& arith::larger(p, least) == p ==> v == arith::decimal_logarithm(p)
            &&& arith::larger(p, least) == least ==> v == arith::decimal_logarithm(least)
        }),
{
    let x = stft_frame::<T, F>(audio, 200, 400, 160, window, true, fft, f);
    lemma_one_weight(banks[m], x, k);
}

/// A sum under weights that are zero but for one of one is the value there.
proof fn lemma_one_weight<T: Real>(c: Seq<T>, x: Seq<T>, k: int)
    requires
        arith::neutral::<T>(),
        0 <= k < c.len(),
        forall|j: int| 0 <= j < c.len() && j != k ==> #[trigger] c[j] == arith::whole::<T>(0),
        c[k] == arith::whole::<T>(1),
    ensures
        fir::convolved(c, x) == x[k],
    decreases c.len(),
{
    let front = c.drop_last();
    if k < front.len() {
        lemma_one_weight(front, x, k);
        assert(c[c.len() - 1] == arith::whole::<T>(0));
    } else {
        lemma_no_weights(front, x);
    }
}

/// A sum under weights that are all zero is zero.
proof fn lemma_no_weights<T: Real>(c: Seq<T>, x: Seq<T>)
    requires
        arith::neutral::<T>(),
        forall|j: int| 0 <= j < c.len() ==> #[trigger] c[j] == arith::whole::<T>(0),
    ensures
        fir::convolved(c, x) == arith::whole::<T>(0),
    decreases c.len(),
{
    if c.len() > 0 {
        lemma_no_weights(c.drop_last(), x);
        assert(c[c.len() - 1] == arith::whole::<T>(0));
    }
}

/// The values of the vocoder's frame `f` are those of the 1920 samples from 720 before sample
/// 480 `f` on: frame `f` of one signal and frame `g` of another are the same where these are the
/// same. So audio that comes 480 samples later shows a frame later.
pub proof fn law_hifigan_frame_is_of_its_stretch<T: Real, F: Transform<T>>(
    banks: Seq<Seq<T>>,
    window: Seq<T>,
    fft: F,
    a: Seq<T>,
    f: int,
    b: Seq<T>,
    g: int,
)
    requires
        720 <= 480 * f,
        720 <= 480 * g,
        480 * f + 1200 <= a.len(),
        480 * g + 1200 <= b.len(),
        forall|i: int|
            0 <= i < 1920 ==> #[trigger] a[480 * f - 720 + i] == b[480 * g - 720 + i],
    ensures
        hifigan_frame::<T, F>(banks, a, window, fft, f) == hifigan_frame::<T, F>(
            banks,
            b,
            window,
            fft,
            g,
        ),
{
    assert forall|i: int| 0 <= i < 1920 implies #[trigger] a[f * 480 - 720 + i] == b[g * 480 - 720
        + i] by {
        assert(a[480 * f - 720 + i] == b[480 * g - 720 + i]);
    }
    law_frame_is_of_its_stretch::<T, F>(a, f, b, g, 720, 1920, 480, window, false, fft);
}

/// A value of the vocoder's frame is that of its own band: where a band hears one bin alone, its
/// value is the logarithm of that bin's magnitude, held at its floor.
pub proof fn law_hifigan_value_is_of_its_band<T: Real, F: Transform<T>>(
    banks: Seq<Seq<T>>,
    audio: Seq<T>,
    window: Seq<T>,
    fft: F,
    f: int,
    m: int,
    k: int,
)
    requires
        arith::neutral::<T>(),
        0 <= m < banks.len(),
        0 <= k < 961,
        banks[m].len() == 961,
        forall|j: int| 0 <= j < 961 && j != k ==> #[trigger] banks[m][j] == arith::whole::<T>(0),
        banks[m][k] == arith::whole::<T>(1),
    ensures
        ({
            let x = stft_frame::<T, F>(audio, 720, 1920, 480, window, false, fft, f)[k];
            let v = hifigan_frame::<T, F>(banks, audio, window, fft, f)[m];
            let least = arith::fraction::<T>(1, 100_000);
            &&& arith::larger(x, least) == x ==> v == arith::logarithm(x)
            &&& arith::larger(x, least) == least ==> v == arith::logarithm(least)
        }),
{
    let x = stft_frame::<T, F>(audio, 720, 1920, 480, window, false, fft, f);
    lemma_one_weight(banks[m], x, k);
}

/// The features of the speaker encoder's frame `f` are those of the 400 samples from 160 `f` on:
/// frame `f` of one signal and frame `g` of another are the same where these are the same.
pub proof fn law_speaker_frame_is_of_its_stretch<T: Real, F: Transform<T>>(
    fft: F,
    a: Seq<T>,
    f: int,
    b: Seq<T>,
    g: int,
)
    requires
        0 <= f,
        0 <= g,
        160 * f + 400 <= a.len(),
        160 * g + 400 <= b.len(),
        forall|i: int| 0 <= i < 400 ==> #[trigger] a[160 * f + i] == b[160 * g + i],
    ensures
        speaker_frame::<T, F>(a, fft, f) == speaker_frame::<T, F>(b, fft, g),
        speaker_frame::<T, F>(a, fft, f).len() == 80,
{
    let x = a.subrange(f * 160, f * 160 + 400);
    let y = b.subrange(g * 160, g * 160 + 400);
    assert forall|i: int| 0 <= i < 400 implies #[trigger] x[i] == y[i] by {
        assert(a[160 * f + i] == b[160 * g + i]);
    }
    assert(x =~= y);
}

/// The mean of a band is of that band alone: two tables that have the same values in column `m`
/// have the same mean there, whatever else they hold. Where one frame alone is not zero, it is
/// that frame's value shared out among all of them.
pub proof fn law_mean_is_of_its_band<T: Real>(
    rows: Seq<Seq<T>>,
    other: Seq<Seq<T>>,
    m: int,
    k: int,
    f: int,
)
    requires
        rows.len() == other.len(),
        0 <= f < rows.len(),
        forall|i: int| 0 <= i < rows.len() ==> #[trigger] rows[i][m] == other[i][k],
    ensures
        column_mean(rows, m) == column_mean(other, k),
        arith::neutral::<T>() && (forall|i: int|
            0 <= i < rows.len() && i != f ==> #[trigger] rows[i][m] == arith::whole::<T>(0))
            ==> column_mean(rows, m) == arith::over(
            rows[f][m],
            arith::count(rows.len() as usize),
        ),
{
    let x = Seq::new(rows.len(), |i: int| rows[i][m]);
    let y = Seq::new(other.len(), |i: int| other[i][k]);
    assert forall|i: int| 0 <= i < x.len() implies #[trigger] x[i] == y[i] by {
        assert(rows[i][m] == other[i][k]);
    }
    assert(x =~= y);
    if arith::neutral::<T>() && (forall|i: int|
        0 <= i < rows.len() && i != f ==> #[trigger] rows[i][m] == arith::whole::<T>(0)) {
        arith::law_sum_counts_each(x, f);
    }
}

/// The bands of the speaker features lie side by side on the mel scale: a bin that two of them
/// hear is shared out among these two in full.
pub proof fn law_speaker_bands_share_their_bins<T: Real>(m: int, b: int)
    requires
        arith::shares_add_up::<T>(),
        arith::strict::<T>(),
        0 <= m,
        m + 1 < 80,
        0 <= b < 256,
        speaker_bands::<T>()[m][b] != arith::whole::<T>(0),
        speaker_bands::<T>()[m + 1][b] != arith::whole::<T>(0),
    ensures
        speaker_bands::<T>().len() == 80,
        speaker_bands::<T>()[m].len() == 256,
        arith::plus(speaker_bands::<T>()[m][b], speaker_bands::<T>()[m + 1][b]) == arith::whole::<
            T,
        >(1),
{
    assert(speaker_bands::<T>()[m][b] == speaker_weight::<T>(m, b));
    assert(speaker_bands::<T>()[m + 1][b] == speaker_weight::<T>(m + 1, b));
}

/// The speaker features start at 20 Hz and end at 8 kHz: a bin on the mel value of one of these
/// has no weight in the first or in the last band.
pub proof fn law_speaker_bands_end_at_the_limits<T: Real>(b: int)
    requires
        arith::neutral::<T>(),
        arith::count::<T>(0) == arith::whole::<T>(0),
        forall|x: T, y: T|
            arith::plus(
                x,
                arith::times(
                    arith::count(81),
                    #[trigger] arith::over(arith::minus(y, x), arith::count(81)),
                ),
            ) == y,
        forall|x: T| !#[trigger] arith::below(x, x),
    ensures
        ({
            let f = arith::times(
                arith::over(arith::whole::<T>(16_000), arith::count(512)),
                arith::count(b as usize),
            );
            &&& f == arith::whole::<T>(20) ==> speaker_weight::<T>(0, b) == arith::whole::<T>(0)
            &&& f == arith::whole::<T>(8000) ==> speaker_weight::<T>(79, b) == arith::whole::<T>(0)
        }),
{
    let lo = fbank::hz_to_kaldi_mel::<T>(arith::whole(20));
    let hi = fbank::hz_to_kaldi_mel::<T>(arith::whole(8000));
    let d = fbank::kaldi_delta::<T>(arith::whole(8000));
    assert(arith::plus(lo, arith::times(arith::count(0), d)) == lo);
    assert(arith::plus(lo, arith::times(arith::count(81), d)) == hi);
}

/// There are as many frames as fit: the last one ends within the padded signal, and one more would
/// not.
pub proof fn law_frames_are_as_many_as_fit(n: int, pad: int, n_fft: int, hop: int)
    requires
        0 < hop,
        0 <= pad,
        0 < n_fft <= n + 2 * pad,
    ensures
        ({
            let frames = stft_frames(n, pad, n_fft, hop);
            &&& 0 < frames
            &&& (frames - 1) * hop + n_fft <= n + 2 * pad < frames * hop + n_fft
        }),
{
    let room = n + 2 * pad - n_fft;
    let q = room / hop;
    vstd::arithmetic::div_mod::lemma_fundamental_div_mod(room, hop);
    vstd::arithmetic::div_mod::lemma_mod_bound(room, hop);
    vstd::arithmetic::div_mod::lemma_div_pos_is_pos(room, hop);
    assert(q * hop == hop * q) by (nonlinear_arith);
    assert((q + 1) * hop == hop * q + hop) by (nonlinear_arith);
}

/// A centred frame has half of itself on either side of its place, and frames that are not centred
/// make up, with the padding, exactly a frame for each hop of the signal.
pub proof fn law_padding_fits_the_frames(n: int, n_fft: int, hop: int)
    requires
        0 < hop <= n_fft,
        0 <= n,
        n % hop == 0,
        hop <= n,
        (n_fft - hop) % 2 == 0,
        n_fft % 2 == 0,
    ensures
        2 * stft_pad(n_fft, hop, true) == n_fft,
        stft_frames(n, stft_pad(n_fft, hop, true), n_fft, hop) == n / hop + 1,
        stft_frames(n, stft_pad(n_fft, hop, false), n_fft, hop) == n / hop,
{
    let q = n / hop;
    vstd::arithmetic::div_mod::lemma_fundamental_div_mod(n, hop);
    assert(n - hop == hop * (q - 1)) by (nonlinear_arith)
        requires
            n == hop * q,
    ;
    vstd::arithmetic::div_mod::lemma_div_multiples_vanish(q - 1, hop);
}

/// The speaker encoder takes whole frames of 400 samples every 160: as many as fit.
pub proof fn law_speaker_frames_are_as_many_as_fit(n: int)
    requires
        0 <= n,
    ensures
        whole_frames(n) == 0 <==> n < 400,
        400 <= n ==> 160 * (whole_frames(n) - 1) + 400 <= n < 160 * whole_frames(n) + 400,
{
}

/// The window is the periodic Hann window of its length, place by place.
pub proof fn law_window_is_that_of_its_places<T: Real>(n: int, i: int)
    requires
        arith::neutral::<T>(),
        0 < i < n <= usize::MAX,
        arith::count::<T>(0) == arith::whole::<T>(0),
        arith::over(arith::whole::<T>(0), arith::count(n as usize)) == arith::whole::<T>(0),
        arith::sine(arith::whole::<T>(0)) == arith::whole::<T>(0),
        ({
            let at = |k: int|
                arith::over(
                    arith::times(arith::pi::<T>(), arith::count(k as usize)),
                    arith::count(n as usize),
                );
            &&& 2 * i == n ==> arith::sine(at(i)) == arith::whole::<T>(1)
            &&& arith::sine(at(n - i)) == arith::sine(at(i))
        }),
    ensures
        hann_window::<T>(n).len() == n,
        hann_window::<T>(n)[0] == arith::whole::<T>(0),
        2 * i == n ==> hann_window::<T>(n)[i] == arith::whole::<T>(1),
        hann_window::<T>(n)[n - i] == hann_window::<T>(n)[i],
{
    spectra::law_window_rises_and_falls::<T>(i, n);
}

} // verus!
