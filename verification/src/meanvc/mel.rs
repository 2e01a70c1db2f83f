//! Mel spectrograms of the first model generation: magnitudes, Slaney bands, decibels, and a
//! linear map into the range from -1 to 1.

use vstd::prelude::*;
use vstd::string::StringExecFns;
use crate::arith;
use crate::arith::Real;
use crate::error;
use crate::error::Error;
use crate::fourier;
use crate::fourier::Transform;
use crate::mel::lemma_frame_fits;
use crate::spectra;

verus! {

/// Samples per second.
pub const SAMPLE_RATE: usize = 16_000;

/// Length of the transform.
pub const N_FFT: usize = 1024;

/// Length of the window.
pub const WIN_LENGTH: usize = 640;

/// Samples from frame to frame.
pub const HOP_LENGTH: usize = 160;

/// Number of mel bands.
pub const N_MELS: usize = 80;

/// The mel value of a frequency: linear below 1 kHz, logarithmic above.
pub open spec fn hz_to_slaney_mel<T: Real>(f: T) -> T {
    if arith::below(f, arith::whole(1000)) {
        arith::over(arith::times(arith::whole(3), f), arith::whole(200))
    } else {
        arith::plus(
            arith::whole(15),
            arith::over(
                arith::times(
                    arith::whole(27),
                    arith::logarithm(arith::over(f, arith::whole(1000))),
                ),
                arith::logarithm(arith::fraction(64, 10)),
            ),
        )
    }
}

/// The frequency of a mel value.
pub open spec fn slaney_mel_to_hz<T: Real>(m: T) -> T {
    if arith::below(m, arith::whole(15)) {
        arith::over(arith::times(arith::whole(200), m), arith::whole(3))
    } else {
        arith::times(
            arith::whole(1000),
            arith::exponential(
                arith::over(
                    arith::times(
                        arith::logarithm(arith::fraction(64, 10)),
                        arith::minus(m, arith::whole(15)),
                    ),
                    arith::whole(27),
                ),
            ),
        )
    }
}

/// The mel value of a frequency.
fn slaney_mel_of<T: Real>(f: T) -> (m: T)
    ensures
        arith::deterministic::<T>() ==> m == hz_to_slaney_mel(f),
{
    if f.below(T::whole(1000)) {
        T::whole(3).times(f).over(T::whole(200))
    } else {
        T::whole(15).plus(
            T::whole(27).times(f.over(T::whole(1000)).logarithm()).over(
                T::fraction(64, 10).logarithm(),
            ),
        )
    }
}

/// The frequency of a mel value.
fn slaney_hz_of<T: Real>(m: T) -> (f: T)
    ensures
        arith::deterministic::<T>() ==> f == slaney_mel_to_hz(m),
{
    if m.below(T::whole(15)) {
        T::whole(200).times(m).over(T::whole(3))
    } else {
        T::whole(1000).times(
            T::fraction(64, 10).logarithm().times(m.minus(T::whole(15))).over(
                T::whole(27),
            ).exponential(),
        )
    }
}

/// The corner `i` of `n_mels` bands from `f_min` to `f_max`.
pub open spec fn slaney_corner<T: Real>(n_mels: int, f_min: T, f_max: T, i: int) -> T {
    let lo = hz_to_slaney_mel(f_min);
    let hi = hz_to_slaney_mel(f_max);
    slaney_mel_to_hz(
        arith::plus(
            lo,
            arith::over(
                arith::times(arith::minus(hi, lo), arith::count(i as usize)),
                arith::count((n_mels + 1) as usize),
            ),
        ),
    )
}

/// The weight of the frequency `f` in a band of unit area.
pub open spec fn slaney_weight<T: Real>(f: T, lo: T, center: T, hi: T) -> T {
    let lower = arith::over(arith::minus(f, lo), arith::minus(center, lo));
    let upper = arith::over(arith::minus(hi, f), arith::minus(hi, center));
    arith::times(
        arith::larger(arith::smaller(lower, upper), arith::whole(0)),
        arith::over(arith::whole(2), arith::minus(hi, lo)),
    )
}

/// The weights of the band `m`.
pub open spec fn slaney_band<T: Real>(
    sample_rate: usize,
    n_fft: usize,
    n_mels: int,
    f_min: T,
    f_max: T,
    m: int,
) -> Seq<T> {
    Seq::new(
        (n_fft / 2 + 1) as nat,
        |bin: int|
            slaney_weight(
                arith::over(
                    arith::times(arith::count(bin as usize), arith::count(sample_rate)),
                    arith::count(n_fft),
                ),
                slaney_corner(n_mels, f_min, f_max, m),
                slaney_corner(n_mels, f_min, f_max, m + 1),
                slaney_corner(n_mels, f_min, f_max, m + 2),
            ),
    )
}

/// The corner `i` of `n_mels` bands from `f_min` to `f_max`.
fn slaney_corner_at<T: Real>(n_mels: usize, f_min: T, f_max: T, i: usize) -> (f: T)
    requires
        n_mels < usize::MAX,
    ensures
        arith::deterministic::<T>() ==> f == slaney_corner(n_mels as int, f_min, f_max, i as int),
{
    let lo: T = slaney_mel_of(f_min);
    let hi: T = slaney_mel_of(f_max);
    slaney_hz_of(lo.plus(hi.minus(lo).times(T::count(i)).over(T::count(n_mels + 1))))
}

/// Triangular bands of unit area on the Slaney mel scale.
pub fn slaney_filterbank<T: Real>(
    sample_rate: usize,
    n_fft: usize,
    n_mels: usize,
    f_min: T,
    f_max: T,
) -> (banks: Vec<Vec<T>>)
    requires
        n_mels + 2 <= usize::MAX,
    ensures
        banks.len() == n_mels,
        forall|m: int| 0 <= m < n_mels ==> (#[trigger] banks@[m]).len() == n_fft / 2 + 1,
        arith::deterministic::<T>() ==> forall|m: int|
            0 <= m < n_mels ==> (#[trigger] banks@[m])@ == slaney_band(
                sample_rate,
                n_fft,
                n_mels as int,
                f_min,
                f_max,
                m,
            ),
{
    let n_bins: usize = n_fft / 2 + 1;
    let mut banks: Vec<Vec<T>> = Vec::new();
    let mut m: usize = 0;
    while m < n_mels
        invariant
            m <= n_mels,
            n_mels + 2 <= usize::MAX,
            n_bins == n_fft / 2 + 1,
            banks.len() == m,
            forall|k: int| 0 <= k < m ==> (#[trigger] banks@[k]).len() == n_bins,
            arith::deterministic::<T>() ==> forall|k: int|
                0 <= k < m ==> (#[trigger] banks@[k])@ == slaney_band(
                    sample_rate,
                    n_fft,
                    n_mels as int,
                    f_min,
                    f_max,
                    k,
                ),
        decreases n_mels - m,
    {
        let lo: T = slaney_corner_at(n_mels, f_min, f_max, m);
        let center: T = slaney_corner_at(n_mels, f_min, f_max, m + 1);
        let hi: T = slaney_corner_at(n_mels, f_min, f_max, m + 2);
        let enorm: T = T::whole(2).over(hi.minus(lo));
        let mut bank: Vec<T> = Vec::new();
        let mut bin: usize = 0;
        while bin < n_bins
            invariant
                bin <= n_bins,
                bank.len() == bin,
                arith::deterministic::<T>() ==> enorm == arith::over(
                    arith::whole::<T>(2),
                    arith::minus(hi, lo),
                ),
                arith::deterministic::<T>() ==> forall|k: int|
                    0 <= k < bin ==> #[trigger] bank@[k] == slaney_weight(
                        arith::over(
                            arith::times(arith::count(k as usize), arith::count(sample_rate)),
                            arith::count(n_fft),
                        ),
                        lo,
                        center,
                        hi,
                    ),
            decreases n_bins - bin,
        {
            let f: T = T::count(bin).times(T::count(sample_rate)).over(T::count(n_fft));
            let lower: T = f.minus(lo).over(center.minus(lo));
            let upper: T = hi.minus(f).over(hi.minus(center));
            bank.push(lower.smaller(upper).larger(T::whole(0)).times(enorm));
            bin = bin + 1;
        }
        proof {
            if arith::deterministic::<T>() {
                assert(bank@ =~= slaney_band(
                    sample_rate,
                    n_fft,
                    n_mels as int,
                    f_min,
                    f_max,
                    m as int,
                ));
            }
        }
        banks.push(bank);
        m = m + 1;
    }
    banks
}

/// The decibels of a band value, held at -115, mapped from that range into -1 to 1.
pub open spec fn normalized<T: Real>(mel: T) -> T {
    let min_db = arith::whole::<T>((-115) as i64);
    let floor = arith::power(arith::whole(10), arith::over(min_db, arith::whole(20)));
    let db = arith::minus(
        arith::times(arith::whole(20), arith::decimal_logarithm(arith::larger(mel, floor))),
        arith::whole(20),
    );
    arith::clamped(
        arith::minus(
            arith::over(
                arith::times(arith::whole(2), arith::minus(db, min_db)),
                arith::negated(min_db),
            ),
            arith::whole(1),
        ),
        arith::whole((-1) as i64),
        arith::whole(1),
    )
}

/// The values of frame `f`.
pub open spec fn mel_frame<T: Real, F: Transform<T>>(
    window: Seq<T>,
    banks: Seq<Seq<T>>,
    fft: F,
    samples: Seq<T>,
    f: int,
) -> Seq<T> {
    let bins = spectra::frame_bins::<T, F>(
        spectra::reflected(samples, 512),
        f * HOP_LENGTH,
        192,
        window,
        N_FFT as int,
        fft,
    );
    let mag = spectra::magnitudes(spectra::powers(bins, 513), arith::fraction(1, 1_000_000));
    let sums = spectra::band_sums(banks, mag);
    Seq::new(sums.len(), |m: int| normalized(sums[m]))
}

/// The value of a frame lies in the range from -1 to 1, unless it is not a number.
pub proof fn law_values_lie_in_range<T: Real>(mel: T)
    ensures
        ({
            let lo = arith::whole::<T>((-1) as i64);
            let hi = arith::whole::<T>(1);
            let v = normalized(mel);
            v == lo || v == hi || !arith::below(v, lo) && !arith::below(hi, v)
        }),
{
}

/// Extractor with the fixed settings of the first model generation.
pub struct MelV1<T: Real, F: Transform<T>> {
    /// The transform of a frame.
    pub fft: F,
    /// The window of a frame.
    pub window: Vec<T>,
    /// The weights of the bands.
    pub filterbank: Vec<Vec<T>>,
}

impl<T: Real, F: Transform<T>> MelV1<T, F> {
    /// Whether window and bands have their sizes.
    pub open spec fn valid(&self) -> bool {
        &&& self.window.len() == WIN_LENGTH
        &&& self.filterbank.len() == N_MELS
        &&& forall|m: int| 0 <= m < N_MELS ==> (#[trigger] self.filterbank@[m]).len() == 513
        &&& fourier::keeps_length::<T, F>(self.fft)
    }

    /// An extractor that transforms frames by `fft`.
    pub fn new(fft: F) -> (m: Self)
        requires
            fourier::keeps_length::<T, F>(fft),
        ensures
            m.valid(),
            m.fft == fft,
            arith::deterministic::<T>() ==> m.window@ == Seq::new(
                WIN_LENGTH as nat,
                |i: int| spectra::hann_periodic_at::<T>(i, WIN_LENGTH as int),
            ),
            arith::deterministic::<T>() ==> forall|k: int|
                0 <= k < N_MELS ==> (#[trigger] m.filterbank@[k])@ == slaney_band::<T>(
                    SAMPLE_RATE,
                    N_FFT,
                    N_MELS as int,
                    arith::whole(0),
                    arith::whole(8_000),
                    k,
                ),
    {
        let window: Vec<T> = spectra::hann_periodic(WIN_LENGTH);
        let filterbank: Vec<Vec<T>> = slaney_filterbank(
            SAMPLE_RATE,
            N_FFT,
            N_MELS,
            T::whole(0),
            T::whole(8_000),
        );
        MelV1 { fft, window, filterbank }
    }

    /// The mel spectrogram of a waveform: a row of 80 values for each frame.
    pub fn compute(&self, samples: &[T]) -> (r: Result<Vec<Vec<T>>, Error>)
        requires
            self.valid(),
            samples.len() + 2 * N_FFT < usize::MAX,
        ensures
            r is Err <==> samples.len() == 0,
            r is Err ==> error::input_error(r, "empty waveform"@),
            r is Ok ==> {
                let out = r->Ok_0;
                &&& out.len() == samples.len() / HOP_LENGTH + 1
                &&& forall|f: int| 0 <= f < out.len() ==> (#[trigger] out@[f]).len() == N_MELS
                &&& arith::deterministic::<T>() && fourier::functional::<T, F>(self.fft)
                    ==> forall|f: int|
                    0 <= f < out.len() ==> (#[trigger] out@[f])@ == mel_frame::<T, F>(
                        self.window@,
                        spectra::grid(self.filterbank@),
                        self.fft,
                        samples@,
                        f,
                    )
            },
    {
        if samples.len() == 0 {
            return Err(Error::Input(String::from_str("empty waveform")));
        }
        let padded: Vec<T> = spectra::reflect_pad(samples, 512);
        let frames: usize = samples.len() / HOP_LENGTH + 1;
        let mut out: Vec<Vec<T>> = Vec::new();
        let mut f: usize = 0;
        while f < frames
            invariant
                self.valid(),
                samples.len() + 2 * N_FFT < usize::MAX,
                frames == samples.len() / HOP_LENGTH + 1,
                padded@ == spectra::reflected(samples@, 512),
                f <= frames,
                out.len() == f,
                forall|k: int| 0 <= k < f ==> (#[trigger] out@[k]).len() == N_MELS,
                arith::deterministic::<T>() && fourier::functional::<T, F>(self.fft)
                    ==> forall|k: int|
                    0 <= k < f ==> (#[trigger] out@[k])@ == mel_frame::<T, F>(
                        self.window@,
                        spectra::grid(self.filterbank@),
                        self.fft,
                        samples@,
                        k,
                    ),
            decreases frames - f,
        {
            proof {
                lemma_frame_fits(f as int, HOP_LENGTH as int, samples.len() as int);
            }
            let bins = spectra::analyse(
                &padded,
                f * HOP_LENGTH,
                192,
                &self.window,
                N_FFT,
                &self.fft,
            );
            let power: Vec<T> = spectra::power_of(&bins, 513);
            let mag: Vec<T> = spectra::magnitude_of(&power, T::fraction(1, 1_000_000));
            let sums: Vec<T> = spectra::sum_bands(&self.filterbank, &mag);
            let row: Vec<T> = normalize_all(&sums);
            proof {
                if arith::deterministic::<T>() && fourier::functional::<T, F>(self.fft) {
                    assert(row@ =~= mel_frame::<T, F>(
                        self.window@,
                        spectra::grid(self.filterbank@),
                        self.fft,
                        samples@,
                        f as int,
                    ));
                }
            }
            out.push(row);
            f = f + 1;
        }
        Ok(out)
    }
}

/// The band values mapped into -1 to 1.
fn normalize_all<T: Real>(sums: &Vec<T>) -> (row: Vec<T>)
    ensures
        row.len() == sums.len(),
        arith::deterministic::<T>() ==> forall|m: int|
            0 <= m < row.len() ==> #[trigger] row@[m] == normalized(sums@[m]),
{
    let min_db: T = T::whole(-115);
    let floor: T = T::whole(10).power(min_db.over(T::whole(20)));
    let mut row: Vec<T> = Vec::new();
    let mut m: usize = 0;
    while m < sums.len()
        invariant
            m <= sums.len(),
            row.len() == m,
            arith::deterministic::<T>() ==> min_db == arith::whole::<T>((-115) as i64) && floor
                == arith::power(arith::whole(10), arith::over(min_db, arith::whole(20))),
            arith::deterministic::<T>() ==> forall|k: int|
                0 <= k < m ==> #[trigger] row@[k] == normalized(sums@[k]),
        decreases sums.len() - m,
    {
        let db: T = T::whole(20).times(sums[m].larger(floor).decimal_logarithm()).minus(
            T::whole(20),
        );
        let v: T = T::whole(2).times(db.minus(min_db)).over(min_db.negated()).minus(T::whole(1));
        row.push(arith::clamp(v, T::whole(-1), T::whole(1)));
        m = m + 1;
    }
    row
}

/// Below 1 kHz the scale is linear, three mel for 200 Hz, and at 1 kHz it goes on from 15 mel
/// with a logarithm that takes 27 mel for a factor of 6.4.
pub proof fn law_scale_is_linear_then_logarithmic<T: Real>(f: T)
    requires
        arith::neutral::<T>(),
        arith::over(arith::whole::<T>(0), arith::logarithm(arith::fraction(64, 10)))
            == arith::whole::<T>(0),
        arith::over(
            arith::times(arith::whole::<T>(27), arith::logarithm(arith::fraction(64, 10))),
            arith::logarithm(arith::fraction(64, 10)),
        ) == arith::whole::<T>(27),
        arith::over(
            arith::times(arith::whole::<T>(3), arith::whole(200)),
            arith::whole(200),
        ) == arith::whole::<T>(3),
        arith::over(arith::whole::<T>(0), arith::whole(200)) == arith::whole::<T>(0),
    ensures
        f == arith::whole::<T>(0) && arith::below(f, arith::whole(1000)) ==> hz_to_slaney_mel(f)
            == arith::whole::<T>(0),
        f == arith::whole::<T>(200) && arith::below(f, arith::whole(1000)) ==> hz_to_slaney_mel(f)
            == arith::whole::<T>(3),
        !arith::below(f, arith::whole(1000)) && arith::logarithm(
            arith::over(f, arith::whole(1000)),
        ) == arith::whole::<T>(0) ==> hz_to_slaney_mel(f) == arith::whole::<T>(15),
        !arith::below(f, arith::whole(1000)) && arith::logarithm(
            arith::over(f, arith::whole(1000)),
        ) == arith::logarithm::<T>(arith::fraction(64, 10)) ==> hz_to_slaney_mel(f) == arith::plus(
            arith::whole::<T>(15),
            arith::whole(27),
        ),
{
}

/// Whether the scale can be undone in `T`, as in exact arithmetic: an exponential undoes the
/// logarithm, each of the scale's steps its counterpart, and the border of 1 kHz is that of 15 mel.
pub open spec fn scale_is_exact<T: Real>(f: T) -> bool {
    let low = arith::over(arith::times(arith::whole::<T>(3), f), arith::whole(200));
    let step = arith::logarithm::<T>(arith::fraction(64, 10));
    let part = arith::over(
        arith::times(arith::whole::<T>(27), arith::logarithm(arith::over(f, arith::whole(1000)))),
        step,
    );
    let high = arith::plus(arith::whole::<T>(15), part);
    &&& arith::below(f, arith::whole(1000)) ==> {
        &&& arith::below(low, arith::whole(15))
        &&& arith::over(arith::times(arith::whole(200), low), arith::whole(3)) == f
    }
    &&& !arith::below(f, arith::whole(1000)) ==> {
        &&& !arith::below(high, arith::whole(15))
        &&& arith::minus(high, arith::whole(15)) == part
        &&& arith::times(
            arith::whole(1000),
            arith::exponential(arith::over(arith::times(step, part), arith::whole(27))),
        ) == f
    }
}

/// The two mel functions undo each other.
pub proof fn law_scale_can_be_undone<T: Real>(f: T)
    requires
        scale_is_exact(f),
    ensures
        slaney_mel_to_hz(hz_to_slaney_mel(f)) == f,
{
}

/// The corners reach from the lowest frequency to the highest.
pub proof fn law_corners_reach_from_end_to_end<T: Real>(n_mels: int, f_min: T, f_max: T)
    requires
        arith::neutral::<T>(),
        scale_is_exact(f_min),
        scale_is_exact(f_max),
        0 <= n_mels < usize::MAX,
        arith::count::<T>(0) == arith::whole::<T>(0),
        ({
            let c = arith::count::<T>((n_mels + 1) as usize);
            &&& arith::over(arith::whole::<T>(0), c) == arith::whole::<T>(0)
            &&& forall|a: T, b: T|
                arith::plus(
                    a,
                    arith::over(#[trigger] arith::times(arith::minus(b, a), c), c),
                ) == b
        }),
    ensures
        slaney_corner(n_mels, f_min, f_max, 0) == f_min,
        slaney_corner(n_mels, f_min, f_max, n_mels + 1) == f_max,
{
    let lo = hz_to_slaney_mel(f_min);
    let hi = hz_to_slaney_mel(f_max);
    let c = arith::count::<T>((n_mels + 1) as usize);
    assert(arith::plus(lo, arith::over(arith::times(arith::minus(hi, lo), c), c)) == hi);
}

/// The corners stand at equal distances on the mel scale: each is half-way between its neighbours,
/// where the scale is that of exact arithmetic at the three of them.
pub proof fn law_corners_are_evenly_spaced<T: Real>(n_mels: int, f_min: T, f_max: T, i: int)
    requires
        1 <= i <= n_mels < usize::MAX,
        forall|x: T| #[trigger] hz_to_slaney_mel(slaney_mel_to_hz(x)) == x,
        forall|a: T, d: T, n: T|
            ({
                let at = |k: int|
                    arith::plus(
                        a,
                        arith::over(arith::times(d, arith::count::<T>(k as usize)), n),
                    );
                arith::plus(at(i - 1), at(i + 1)) == #[trigger] arith::plus(
                    arith::plus(a, arith::over(arith::times(d, arith::count(i as usize)), n)),
                    arith::plus(a, arith::over(arith::times(d, arith::count(i as usize)), n)),
                )
            }),
    ensures
        ({
            let at = |k: int| hz_to_slaney_mel(slaney_corner(n_mels, f_min, f_max, k));
            arith::plus(at(i - 1), at(i + 1)) == arith::plus(at(i), at(i))
        }),
{
    let lo = hz_to_slaney_mel(f_min);
    let d = arith::minus(hz_to_slaney_mel(f_max), lo);
    let n = arith::count::<T>((n_mels + 1) as usize);
    assert(arith::plus(
        arith::plus(lo, arith::over(arith::times(d, arith::count((i - 1) as usize)), n)),
        arith::plus(lo, arith::over(arith::times(d, arith::count((i + 1) as usize)), n)),
    ) == arith::plus(
        arith::plus(lo, arith::over(arith::times(d, arith::count(i as usize)), n)),
        arith::plus(lo, arith::over(arith::times(d, arith::count(i as usize)), n)),
    ));
}

/// A band hears what lies between its corners: it has no weight where one of its flanks is not
/// above zero, and at its centre twice the width's share.
pub proof fn law_band_peaks_at_its_centre<T: Real>(f: T, lo: T, center: T, hi: T)
    requires
        arith::neutral::<T>(),
        arith::larger(arith::whole::<T>(1), arith::whole(0)) == arith::whole::<T>(1),
        arith::smaller(arith::whole::<T>(1), arith::whole(1)) == arith::whole::<T>(1),
    ensures
        ({
            let lower = arith::over(arith::minus(f, lo), arith::minus(center, lo));
            let upper = arith::over(arith::minus(hi, f), arith::minus(hi, center));
            let zero = arith::whole::<T>(0);
            let area = arith::over(arith::whole::<T>(2), arith::minus(hi, lo));
            let w = slaney_weight(f, lo, center, hi);
            &&& arith::smaller(lower, upper) == lower && arith::larger(lower, zero) == zero ==> w
                == zero
            &&& arith::smaller(lower, upper) == upper && arith::larger(upper, zero) == zero ==> w
                == zero
            &&& lower == arith::whole::<T>(1) && upper == arith::whole::<T>(1) ==> w == area
        }),
{
}

/// A band has unit area under its corners, whichever the rate of the bins: the weights of a bin
/// depend on its frequency and the three corners of its own band alone.
pub proof fn law_weight_is_of_its_corners<T: Real>(
    sample_rate: usize,
    n_fft: usize,
    n_mels: int,
    f_min: T,
    f_max: T,
    m: int,
    bin: int,
)
    requires
        0 <= bin < n_fft / 2 + 1,
    ensures
        ({
            let band = slaney_band(sample_rate, n_fft, n_mels, f_min, f_max, m);
            let at = |k: int| slaney_corner(n_mels, f_min, f_max, m + k);
            let f = arith::over(
                arith::times(arith::count::<T>(bin as usize), arith::count(sample_rate)),
                arith::count(n_fft),
            );
            &&& band.len() == n_fft / 2 + 1
            &&& f == at(0) && arith::neutral::<T>() && arith::minus(f, f) == arith::whole::<T>(0)
                && arith::over(arith::whole::<T>(0), arith::minus(at(1), at(0)))
                == arith::whole::<T>(0) && arith::larger(
                arith::smaller(
                    arith::whole::<T>(0),
                    arith::over(arith::minus(at(2), f), arith::minus(at(2), at(1))),
                ),
                arith::whole(0),
            ) == arith::whole::<T>(0) ==> band[bin] == arith::whole::<T>(0)
            &&& f == at(2) && arith::neutral::<T>() && arith::minus(f, f) == arith::whole::<T>(0)
                && arith::over(arith::whole::<T>(0), arith::minus(at(2), at(1)))
                == arith::whole::<T>(0) && arith::larger(
                arith::smaller(
                    arith::over(arith::minus(f, at(0)), arith::minus(at(1), at(0))),
                    arith::whole::<T>(0),
                ),
                arith::whole(0),
            ) == arith::whole::<T>(0) ==> band[bin] == arith::whole::<T>(0)
        }),
{
}

/// A frame is that of the audio around it: frame `f` of one signal and frame `g` of another have
/// the same values where the 1024 samples around samples 160 `f` and 160 `g` are the same, be it
/// in one place or in two. So audio that comes 160 samples later shows a frame later.
pub proof fn law_frame_is_of_its_stretch<T: Real, F: Transform<T>>(
    window: Seq<T>,
    banks: Seq<Seq<T>>,
    fft: F,
    a: Seq<T>,
    f: int,
    b: Seq<T>,
    g: int,
)
    requires
        512 <= 160 * f,
        512 <= 160 * g,
        160 * f + 512 <= a.len(),
        160 * g + 512 <= b.len(),
        forall|i: int|
            0 <= i < 1024 ==> #[trigger] a[160 * f - 512 + i] == b[160 * g - 512 + i],
    ensures
        mel_frame::<T, F>(window, banks, fft, a, f) == mel_frame::<T, F>(window, banks, fft, b, g),
{
    assert(160 * f == f * HOP_LENGTH);
    assert(160 * g == g * HOP_LENGTH);
    assert forall|i: int| 0 <= i < 1024 implies #[trigger] a[f * HOP_LENGTH - 512 + i] == b[g
        * HOP_LENGTH - 512 + i] by {
        assert(a[160 * f - 512 + i] == b[160 * g - 512 + i]);
    }
    spectra::law_same_stretch_has_the_same_spectrum::<T, F>(
        a,
        f * HOP_LENGTH,
        b,
        g * HOP_LENGTH,
        512,
        192,
        window,
        N_FFT as int,
        fft,
    );
}

/// Each value of a frame is that of its own band: bands with equal weights have equal values, in
/// whatever order and among whatever others they stand.
pub proof fn law_value_is_of_its_band<T: Real, F: Transform<T>>(
    window: Seq<T>,
    one: Seq<Seq<T>>,
    other: Seq<Seq<T>>,
    fft: F,
    samples: Seq<T>,
    f: int,
    m: int,
    k: int,
)
    requires
        0 <= m < one.len(),
        0 <= k < other.len(),
        one[m] == other[k],
    ensures
        mel_frame::<T, F>(window, one, fft, samples, f).len() == one.len(),
        mel_frame::<T, F>(window, one, fft, samples, f)[m] == mel_frame::<T, F>(
            window,
            other,
            fft,
            samples,
            f,
        )[k],
{
}

/// The range of decibels is mapped to the range from -1 to 1: what is at the floor of -115 dB or
/// below it becomes -1, and what has 20 dB on top of what makes zero becomes 1.
pub proof fn law_loudness_fills_the_range<T: Real>(mel: T)
    requires
        arith::neutral::<T>(),
        ({
            let lo = arith::whole::<T>((-1) as i64);
            let hi = arith::whole::<T>(1);
            &&& !arith::below(hi, lo)
            &&& !arith::below(lo, lo)
            &&& !arith::below(hi, hi)
            &&& !arith::below(lo, lo)
        }),
        arith::minus(arith::whole::<T>(0), arith::whole(1)) == arith::whole::<T>((-1) as i64),
        arith::over(arith::whole::<T>(0), arith::negated(arith::whole((-115) as i64)))
            == arith::whole::<T>(0),
        arith::minus(arith::whole::<T>((-115) as i64), arith::whole((-115) as i64))
            == arith::whole::<T>(0),
        arith::minus(
            arith::over(
                arith::times(
                    arith::whole::<T>(2),
                    arith::minus(arith::whole(0), arith::whole((-115) as i64)),
                ),
                arith::negated(arith::whole((-115) as i64)),
            ),
            arith::whole(1),
        ) == arith::whole::<T>(1),
    ensures
        ({
            let floor = arith::power(
                arith::whole::<T>(10),
                arith::over(arith::whole((-115) as i64), arith::whole(20)),
            );
            let db = arith::minus(
                arith::times(
                    arith::whole(20),
                    arith::decimal_logarithm(arith::larger(mel, floor)),
                ),
                arith::whole(20),
            );
            &&& db == arith::whole::<T>((-115) as i64) ==> normalized(mel) == arith::whole::<T>(
                (-1) as i64,
            )
            &&& db == arith::whole::<T>(0) ==> normalized(mel) == arith::whole::<T>(1)
        }),
{
}

} // verus!
