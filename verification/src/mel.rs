//! Log-mel spectrograms: centred frames, Hann window, triangular bands on the HTK mel scale.

use vstd::prelude::*;
use vstd::string::StringExecFns;
use crate::arith;
use crate::arith::Real;
use crate::config::MelConfig;
use crate::error;
use crate::error::Error;
use crate::fourier;
use crate::fourier::Transform;
use crate::spectra;

verus! {

/// The mel value of a frequency.
pub open spec fn hz_to_mel<T: Real>(hz: T) -> T {
    arith::times(
        arith::whole(2595),
        arith::decimal_logarithm(
            arith::plus(arith::whole(1), arith::over(hz, arith::whole(700))),
        ),
    )
}

/// The frequency of a mel value.
pub open spec fn mel_to_hz<T: Real>(mel: T) -> T {
    arith::times(
        arith::whole(700),
        arith::minus(
            arith::power(arith::whole(10), arith::over(mel, arith::whole(2595))),
            arith::whole(1),
        ),
    )
}

/// The corner `i` of the bands: they lie at equal distances on the mel scale.
pub open spec fn corner<T: Real>(cfg: MelConfig<T>, i: int) -> T {
    let lo = hz_to_mel(cfg.f_min);
    let hi = hz_to_mel(cfg.f_max);
    mel_to_hz(
        arith::plus(
            lo,
            arith::over(
                arith::times(arith::minus(hi, lo), arith::count(i as usize)),
                arith::count((cfg.n_mels + 1) as usize),
            ),
        ),
    )
}

/// The weight of the frequency `f` in the band from `lo` over `center` to `hi`.
pub open spec fn triangle<T: Real>(f: T, lo: T, center: T, hi: T) -> T {
    if arith::below(lo, f) && arith::below(f, hi) {
        if arith::at_most(f, center) {
            arith::over(arith::minus(f, lo), arith::minus(center, lo))
        } else {
            arith::over(arith::minus(hi, f), arith::minus(hi, center))
        }
    } else {
        arith::whole(0)
    }
}

/// The weight of the frequency `f` in the band from `lo` over `center` to `hi`.
pub fn triangle_at<T: Real>(f: T, lo: T, center: T, hi: T) -> (w: T)
    ensures
        arith::deterministic::<T>() ==> w == triangle(f, lo, center, hi),
{
    if lo.below(f) && f.below(hi) {
        if f.at_most(center) {
            f.minus(lo).over(center.minus(lo))
        } else {
            hi.minus(f).over(hi.minus(center))
        }
    } else {
        T::whole(0)
    }
}

/// The frequency of bin `bin`.
pub open spec fn bin_frequency<T: Real>(cfg: MelConfig<T>, bin: int) -> T {
    arith::over(
        arith::times(arith::count(bin as usize), arith::count(cfg.sample_rate)),
        arith::count(cfg.n_fft),
    )
}

/// The weights of the band `m`.
pub open spec fn mel_band<T: Real>(cfg: MelConfig<T>, m: int) -> Seq<T> {
    Seq::new(
        (cfg.n_fft / 2 + 1) as nat,
        |bin: int|
            triangle(
                bin_frequency(cfg, bin),
                corner(cfg, m),
                corner(cfg, m + 1),
                corner(cfg, m + 2),
            ),
    )
}

/// The weights of all bands.
pub open spec fn mel_bands<T: Real>(cfg: MelConfig<T>) -> Seq<Seq<T>> {
    Seq::new(cfg.n_mels as nat, |m: int| mel_band(cfg, m))
}

/// The frequency that is `i` steps of `n` up the mel scale.
fn corner_at<T: Real>(cfg: &MelConfig<T>, i: usize) -> (f: T)
    requires
        cfg.n_mels < usize::MAX,
    ensures
        arith::deterministic::<T>() ==> f == corner(*cfg, i as int),
{
    let one: T = T::whole(1);
    let lo: T = T::whole(2595).times(
        one.plus(cfg.f_min.over(T::whole(700))).decimal_logarithm(),
    );
    let hi: T = T::whole(2595).times(
        one.plus(cfg.f_max.over(T::whole(700))).decimal_logarithm(),
    );
    let mel: T = lo.plus(hi.minus(lo).times(T::count(i)).over(T::count(cfg.n_mels + 1)));
    T::whole(700).times(T::whole(10).power(mel.over(T::whole(2595))).minus(one))
}

/// Triangular bands on the HTK mel scale.
pub fn mel_filterbank<T: Real>(cfg: &MelConfig<T>) -> (banks: Vec<Vec<T>>)
    requires
        cfg.n_mels + 2 <= usize::MAX,
    ensures
        banks.len() == cfg.n_mels,
        forall|m: int|
            0 <= m < banks.len() ==> (#[trigger] banks@[m]).len() == cfg.n_fft / 2 + 1,
        arith::deterministic::<T>() ==> spectra::grid(banks@) == mel_bands(*cfg),
{
    let n_bins: usize = cfg.n_fft / 2 + 1;
    let mut banks: Vec<Vec<T>> = Vec::new();
    let mut m: usize = 0;
    while m < cfg.n_mels
        invariant
            m <= cfg.n_mels,
            cfg.n_mels + 2 <= usize::MAX,
            n_bins == cfg.n_fft / 2 + 1,
            banks.len() == m,
            forall|k: int| 0 <= k < m ==> (#[trigger] banks@[k]).len() == n_bins,
            arith::deterministic::<T>() ==> forall|k: int|
                0 <= k < m ==> (#[trigger] banks@[k])@ == mel_band(*cfg, k),
        decreases cfg.n_mels - m,
    {
        let lo: T = corner_at(cfg, m);
        let center: T = corner_at(cfg, m + 1);
        let hi: T = corner_at(cfg, m + 2);
        let mut bank: Vec<T> = Vec::new();
        let mut bin: usize = 0;
        while bin < n_bins
            invariant
                bin <= n_bins,
                bank.len() == bin,
                arith::deterministic::<T>() ==> forall|k: int|
                    0 <= k < bin ==> #[trigger] bank@[k] == triangle(
                        bin_frequency(*cfg, k),
                        lo,
                        center,
                        hi,
                    ),
            decreases n_bins - bin,
        {
            let f: T = T::count(bin).times(T::count(cfg.sample_rate)).over(T::count(cfg.n_fft));
            bank.push(triangle_at(f, lo, center, hi));
            bin = bin + 1;
        }
        proof {
            if arith::deterministic::<T>() {
                assert(bank@ =~= mel_band(*cfg, m as int));
            }
        }
        banks.push(bank);
        m = m + 1;
    }
    proof {
        if arith::deterministic::<T>() {
            assert(spectra::grid(banks@) =~= mel_bands(*cfg));
        }
    }
    banks
}

/// The logarithms of the values `x`, none below that of 0.00001.
pub open spec fn floored_logs<T: Real>(x: Seq<T>) -> Seq<T> {
    Seq::new(
        x.len(),
        |m: int| arith::logarithm(arith::larger(x[m], arith::fraction(1, 100_000))),
    )
}

/// The logarithms of the values `x`, none below that of 0.00001.
pub fn floored_log_of<T: Real>(x: &Vec<T>) -> (r: Vec<T>)
    ensures
        r.len() == x.len(),
        arith::deterministic::<T>() ==> r@ == floored_logs(x@),
{
    let mut r: Vec<T> = Vec::new();
    let mut m: usize = 0;
    while m < x.len()
        invariant
            m <= x.len(),
            r.len() == m,
            arith::deterministic::<T>() ==> forall|k: int|
                0 <= k < m ==> #[trigger] r@[k] == floored_logs(x@)[k],
        decreases x.len() - m,
    {
        r.push(x[m].larger(T::fraction(1, 100_000)).logarithm());
        m = m + 1;
    }
    proof {
        if arith::deterministic::<T>() {
            assert(r@ =~= floored_logs(x@));
        }
    }
    r
}

/// The log-mel values of frame `f` of a signal.
pub open spec fn mel_frame<T: Real, F: Transform<T>>(
    cfg: MelConfig<T>,
    window: Seq<T>,
    banks: Seq<Seq<T>>,
    fft: F,
    samples: Seq<T>,
    f: int,
) -> Seq<T> {
    let bins = spectra::frame_bins::<T, F>(
        spectra::reflected(samples, (cfg.n_fft / 2) as int),
        f * cfg.hop_length,
        ((cfg.n_fft - cfg.win_length) / 2),
        window,
        cfg.n_fft as int,
        fft,
    );
    floored_logs(spectra::band_sums(banks, spectra::powers(bins, cfg.n_fft / 2 + 1)))
}

/// Extractor of log-mel spectrograms.
pub struct MelSpectrogram<T: Real, F: Transform<T>> {
    /// The settings.
    pub cfg: MelConfig<T>,
    /// The transform of a frame.
    pub fft: F,
    /// The window of a frame.
    pub window: Vec<T>,
    /// The weights of the bands.
    pub filterbank: Vec<Vec<T>>,
}

impl<T: Real, F: Transform<T>> MelSpectrogram<T, F> {
    /// Whether window and bands have the sizes that the settings say.
    pub open spec fn valid(&self) -> bool {
        &&& self.window.len() == self.cfg.win_length
        &&& self.filterbank.len() == self.cfg.n_mels
        &&& forall|m: int|
            0 <= m < self.filterbank.len() ==> (#[trigger] self.filterbank@[m]).len()
                == self.cfg.n_fft / 2 + 1
        &&& fourier::keeps_length::<T, F>(self.fft)
    }

    /// Whether a signal can be cut into frames: a frame is not empty, the next one starts later,
    /// and the window fits into it.
    pub open spec fn can_frame(&self) -> bool {
        &&& self.cfg.n_fft > 0
        &&& self.cfg.hop_length > 0
        &&& self.cfg.win_length <= self.cfg.n_fft
    }

    /// An extractor for the given settings that transforms frames by `fft`.
    pub fn new(cfg: MelConfig<T>, fft: F) -> (m: Self)
        requires
            cfg.n_mels + 2 <= usize::MAX,
            fourier::keeps_length::<T, F>(fft),
        ensures
            m.valid(),
            m.cfg == cfg,
            m.fft == fft,
            arith::deterministic::<T>() ==> m.window@ == Seq::new(
                cfg.win_length as nat,
                |i: int| spectra::hann_periodic_at::<T>(i, cfg.win_length as int),
            ),
            arith::deterministic::<T>() ==> spectra::grid(m.filterbank@) == mel_bands(cfg),
    {
        let window: Vec<T> = spectra::hann_periodic(cfg.win_length);
        let filterbank: Vec<Vec<T>> = mel_filterbank(&cfg);
        MelSpectrogram { cfg, fft, window, filterbank }
    }

    /// The settings.
    pub fn config(&self) -> (c: &MelConfig<T>)
        ensures
            *c == self.cfg,
    {
        &self.cfg
    }

    /// Number of frames for `num_samples` samples.
    pub fn num_frames(&self, num_samples: usize) -> (n: usize)
        requires
            self.cfg.hop_length > 0,
            num_samples < usize::MAX,
        ensures
            n == num_samples as int / self.cfg.hop_length as int + 1,
    {
        proof {
            vstd::arithmetic::div_mod::lemma_div_is_ordered_by_denominator(
                num_samples as int,
                1,
                self.cfg.hop_length as int,
            );
        }
        num_samples / self.cfg.hop_length + 1
    }

    /// The log-mel spectrogram of a waveform: a row of band values for each frame.
    pub fn compute(&self, samples: &[T]) -> (r: Result<Vec<Vec<T>>, Error>)
        requires
            self.valid(),
            samples.len() > 0 ==> self.can_frame(),
            samples.len() + 2 * self.cfg.n_fft < usize::MAX,
        ensures
            r is Err <==> samples.len() == 0,
            r is Err ==> error::input_error(r, "empty waveform"@),
            r is Ok ==> {
                let out = r->Ok_0;
                &&& out.len() == samples.len() as int / self.cfg.hop_length as int + 1
                &&& forall|f: int|
                    0 <= f < out.len() ==> (#[trigger] out@[f]).len() == self.cfg.n_mels
                &&& arith::deterministic::<T>() && fourier::functional::<T, F>(self.fft)
                    ==> forall|f: int|
                    0 <= f < out.len() ==> (#[trigger] out@[f])@ == mel_frame::<T, F>(
                        self.cfg,
                        self.window@,
                        spectra::grid(self.filterbank@),
                        self.fft,
                        samples@,
                        f,
                    )
            },
    {
        if samples.len() == 0 {
            return Err(Error::Input(String::from_str("empty waveform")));
        }
        let n_fft: usize = self.cfg.n_fft;
        let hop: usize = self.cfg.hop_length;
        let offset: usize = (n_fft - self.cfg.win_length) / 2;
        let padded: Vec<T> = spectra::reflect_pad(samples, n_fft / 2);
        let frames: usize = self.num_frames(samples.len());
        let mut out: Vec<Vec<T>> = Vec::new();
        let mut f: usize = 0;
        let mut start: usize = 0;
        while f < frames
            invariant
                self.valid(),
                self.can_frame(),
                n_fft == self.cfg.n_fft,
                hop == self.cfg.hop_length,
                offset == (n_fft - self.cfg.win_length) / 2,
                samples.len() + 2 * n_fft < usize::MAX,
                frames == samples.len() as int / hop as int + 1,
                padded@ == spectra::reflected(samples@, (n_fft / 2) as int),
                f <= frames,
                f < frames ==> start == f * hop,
                out.len() == f,
                forall|k: int| 0 <= k < f ==> (#[trigger] out@[k]).len() == self.cfg.n_mels,
                arith::deterministic::<T>() && fourier::functional::<T, F>(self.fft)
                    ==> forall|k: int|
                    0 <= k < f ==> (#[trigger] out@[k])@ == mel_frame::<T, F>(
                        self.cfg,
                        self.window@,
                        spectra::grid(self.filterbank@),
                        self.fft,
                        samples@,
                        k,
                    ),
            decreases frames - f,
        {
            proof {
                lemma_frame_fits(f as int, hop as int, samples.len() as int);
            }
            let bins = spectra::analyse(&padded, start, offset, &self.window, n_fft, &self.fft);
            let power: Vec<T> = spectra::power_of(&bins, n_fft / 2 + 1);
            let sums: Vec<T> = spectra::sum_bands(&self.filterbank, &power);
            out.push(floored_log_of(&sums));
            f = f + 1;
            if f < frames {
                proof {
                    lemma_frame_fits(f as int, hop as int, samples.len() as int);
                    assert((f - 1) * hop + hop == f * hop) by (nonlinear_arith);
                }
                start = start + hop;
            }
        }
        Ok(out)
    }
}

/// The frames of a signal start within it.
pub proof fn lemma_frame_fits(f: int, hop: int, n: int)
    requires
        0 < hop,
        0 <= f <= n / hop,
    ensures
        f * hop <= n,
{
    vstd::arithmetic::div_mod::lemma_fundamental_div_mod(n, hop);
    vstd::arithmetic::mul::lemma_mul_inequality(f, n / hop, hop);
    assert((n / hop) * hop == hop * (n / hop)) by (nonlinear_arith);
}

/// A band hears what lies between its corners: it has no weight at its ends and beyond them, and
/// full weight at its centre.
pub proof fn law_band_peaks_at_its_centre<T: Real>(f: T, lo: T, center: T, hi: T)
    requires
        arith::at_most(center, center),
    ensures
        !arith::below(lo, f) ==> triangle(f, lo, center, hi) == arith::whole::<T>(0),
        !arith::below(f, hi) ==> triangle(f, lo, center, hi) == arith::whole::<T>(0),
        arith::below(lo, center) && arith::below(center, hi) && arith::over(
            arith::minus(center, lo),
            arith::minus(center, lo),
        ) == arith::whole::<T>(1) ==> triangle(center, lo, center, hi) == arith::whole::<T>(1),
{
}

/// Two bands side by side share what lies between their centres: their weights add up to one.
pub proof fn law_neighbours_share<T: Real>(f: T, a: T, b: T, c: T, d: T)
    requires
        arith::shares_add_up::<T>(),
        arith::strict::<T>(),
        arith::below(a, f),
        arith::below(b, f),
        arith::below(f, c),
        arith::below(f, d),
    ensures
        arith::plus(triangle(f, a, b, c), triangle(f, b, c, d)) == arith::whole::<T>(1),
{
}

/// The bands of an extractor lie side by side: a bin between the centres of two of them is shared
/// out among these two in full. A bin between two corners is one that both bands hear and that
/// lies above the centre of the lower one and below that of the upper one.
pub proof fn law_bands_share_their_bins<T: Real>(cfg: MelConfig<T>, m: int, bin: int)
    requires
        arith::shares_add_up::<T>(),
        arith::strict::<T>(),
        0 <= m,
        m + 1 < cfg.n_mels,
        0 <= bin < cfg.n_fft / 2 + 1,
        forall|k: int|
            m <= k <= m + 1 ==> arith::below(#[trigger] corner(cfg, k), bin_frequency(cfg, bin)),
        forall|k: int|
            m + 2 <= k <= m + 3 ==> arith::below(
                bin_frequency(cfg, bin),
                #[trigger] corner(cfg, k),
            ),
    ensures
        mel_bands(cfg).len() == cfg.n_mels,
        arith::plus(mel_bands(cfg)[m][bin], mel_bands(cfg)[m + 1][bin]) == arith::whole::<T>(1),
{
    assert(arith::below(corner(cfg, m), bin_frequency(cfg, bin)));
    assert(arith::below(corner(cfg, m + 1), bin_frequency(cfg, bin)));
    assert(arith::below(bin_frequency(cfg, bin), corner(cfg, m + 2)));
    assert(arith::below(bin_frequency(cfg, bin), corner(cfg, m + 3)));
    law_neighbours_share(
        bin_frequency(cfg, bin),
        corner(cfg, m),
        corner(cfg, m + 1),
        corner(cfg, m + 2),
        corner(cfg, m + 3),
    );
}

/// Whether the mel scale can be undone in `T`, as in exact arithmetic: a power of ten undoes the
/// logarithm, and each of the scale's steps its counterpart.
pub open spec fn scale_is_exact<T: Real>() -> bool {
    &&& forall|x: T|
        arith::below(arith::whole(0), x) ==> arith::power(
            arith::whole(10),
            arith::over(
                #[trigger] arith::times(arith::whole(2595), arith::decimal_logarithm(x)),
                arith::whole(2595),
            ),
        ) == x
    &&& forall|x: T|
        arith::times(
            arith::whole(700),
            arith::minus(
                #[trigger] arith::plus(arith::whole(1), arith::over(x, arith::whole(700))),
                arith::whole(1),
            ),
        ) == x
}

/// The two mel functions undo each other, and the scale is that of O'Shaughnessy: 6300 Hz, where
/// the logarithm is that of ten, are 2595 mel, and no frequency is no mel.
pub proof fn law_scale_can_be_undone<T: Real>(hz: T)
    requires
        scale_is_exact::<T>(),
        arith::neutral::<T>(),
        arith::below(
            arith::whole(0),
            arith::plus(arith::whole(1), arith::over(hz, arith::whole::<T>(700))),
        ),
    ensures
        mel_to_hz(hz_to_mel(hz)) == hz,
        arith::decimal_logarithm(
            arith::plus(arith::whole(1), arith::over(hz, arith::whole::<T>(700))),
        ) == arith::whole::<T>(1) ==> hz_to_mel(hz) == arith::whole::<T>(2595),
        arith::decimal_logarithm(
            arith::plus(arith::whole(1), arith::over(hz, arith::whole::<T>(700))),
        ) == arith::whole::<T>(0) ==> hz_to_mel(hz) == arith::whole::<T>(0),
{
}

/// The corners reach from the lowest frequency to the highest: the first one is `f_min`, and the
/// one behind the last centre is `f_max`.
pub proof fn law_corners_reach_from_end_to_end<T: Real>(cfg: MelConfig<T>)
    requires
        scale_is_exact::<T>(),
        arith::neutral::<T>(),
        cfg.n_mels < usize::MAX,
        arith::count::<T>(0) == arith::whole::<T>(0),
        ({
            let c = arith::count::<T>((cfg.n_mels + 1) as usize);
            &&& arith::over(arith::whole::<T>(0), c) == arith::whole::<T>(0)
            &&& forall|a: T, b: T|
                arith::plus(
                    a,
                    arith::over(#[trigger] arith::times(arith::minus(b, a), c), c),
                ) == b
        }),
        arith::below(
            arith::whole(0),
            arith::plus(arith::whole(1), arith::over(cfg.f_min, arith::whole::<T>(700))),
        ),
        arith::below(
            arith::whole(0),
            arith::plus(arith::whole(1), arith::over(cfg.f_max, arith::whole::<T>(700))),
        ),
    ensures
        corner(cfg, 0) == cfg.f_min,
        corner(cfg, cfg.n_mels + 1) == cfg.f_max,
{
    law_scale_can_be_undone(cfg.f_min);
    law_scale_can_be_undone(cfg.f_max);
    let lo = hz_to_mel(cfg.f_min);
    let hi = hz_to_mel(cfg.f_max);
    let c = arith::count::<T>((cfg.n_mels + 1) as usize);
    assert(arith::plus(lo, arith::over(arith::times(arith::minus(hi, lo), c), c)) == hi);
}

/// The bins divide the rate evenly: the first one stands at zero, and `n_fft` bins make up the
/// rate.
pub proof fn law_bins_divide_the_rate<T: Real>(cfg: MelConfig<T>)
    requires
        arith::neutral::<T>(),
        arith::count::<T>(0) == arith::whole::<T>(0),
        arith::over(arith::whole::<T>(0), arith::count(cfg.n_fft)) == arith::whole::<T>(0),
        arith::over(
            arith::times(arith::count::<T>(cfg.n_fft), arith::count(cfg.sample_rate)),
            arith::count(cfg.n_fft),
        ) == arith::count::<T>(cfg.sample_rate),
    ensures
        bin_frequency(cfg, 0) == arith::whole::<T>(0),
        bin_frequency(cfg, cfg.n_fft as int) == arith::count::<T>(cfg.sample_rate),
{
}

/// A value is a logarithm, and never that of less than 0.00001: it is the logarithm of that where
/// the band holds less, and that of the band otherwise.
pub proof fn law_log_has_a_floor<T: Real>(x: Seq<T>, m: int)
    requires
        0 <= m < x.len(),
    ensures
        floored_logs(x).len() == x.len(),
        arith::larger(x[m], arith::fraction(1, 100_000)) == x[m] ==> floored_logs(x)[m]
            == arith::logarithm(x[m]),
        arith::larger(x[m], arith::fraction(1, 100_000)) == arith::fraction::<T>(1, 100_000)
            ==> floored_logs(x)[m] == arith::logarithm(arith::fraction::<T>(1, 100_000)),
{
}

/// A frame is that of the audio around it: frame `f` of one signal and frame `g` of another have
/// the same values where the `n_fft` samples around `f` and `g` hops are the same, be it in one
/// place or in two. So audio that comes a hop later shows a frame later.
pub proof fn law_frame_is_of_its_stretch<T: Real, F: Transform<T>>(
    cfg: MelConfig<T>,
    window: Seq<T>,
    banks: Seq<Seq<T>>,
    fft: F,
    a: Seq<T>,
    f: int,
    b: Seq<T>,
    g: int,
)
    requires
        cfg.n_fft / 2 <= f * cfg.hop_length,
        cfg.n_fft / 2 <= g * cfg.hop_length,
        f * cfg.hop_length - cfg.n_fft / 2 + cfg.n_fft <= a.len(),
        g * cfg.hop_length - cfg.n_fft / 2 + cfg.n_fft <= b.len(),
        forall|i: int|
            0 <= i < cfg.n_fft ==> #[trigger] a[f * cfg.hop_length - cfg.n_fft / 2 + i]
                == b[g * cfg.hop_length - cfg.n_fft / 2 + i],
    ensures
        mel_frame::<T, F>(cfg, window, banks, fft, a, f) == mel_frame::<T, F>(
            cfg,
            window,
            banks,
            fft,
            b,
            g,
        ),
{
    spectra::law_same_stretch_has_the_same_spectrum::<T, F>(
        a,
        f * cfg.hop_length,
        b,
        g * cfg.hop_length,
        (cfg.n_fft / 2) as int,
        ((cfg.n_fft - cfg.win_length) / 2),
        window,
        cfg.n_fft as int,
        fft,
    );
}

/// Each value of a frame is that of its own band: bands with equal weights have equal values, in
/// whatever order and among whatever others they stand.
pub proof fn law_value_is_of_its_band<T: Real, F: Transform<T>>(
    cfg: MelConfig<T>,
    window: Seq<T>,
    one: Seq<Seq<T>>,
    other: Seq<Seq<T>>,
    fft: F,
    samples: Seq<T>,
    f: int,
    m: int,
    k: int,
)
    requires
        0 <= m < one.len(),
        0 <= k < other.len(),
        one[m] == other[k],
    ensures
        mel_frame::<T, F>(cfg, window, one, fft, samples, f).len() == one.len(),
        mel_frame::<T, F>(cfg, window, one, fft, samples, f)[m] == mel_frame::<T, F>(
            cfg,
            window,
            other,
            fft,
            samples,
            f,
        )[k],
{
}

/// The corners stand at equal distances on the mel scale: each is half-way between its two
/// neighbours. The scale has to be exact in the other direction too.
pub proof fn law_corners_are_evenly_spaced<T: Real>(cfg: MelConfig<T>, i: int)
    requires
        1 <= i <= cfg.n_mels < usize::MAX,
        forall|x: T|
            arith::times(arith::whole(2595), #[trigger] arith::over(x, arith::whole(2595))) == x,
        forall|x: T|
            arith::decimal_logarithm(#[trigger] arith::power(arith::whole(10), x)) == x,
        forall|x: T|
            arith::plus(
                arith::whole(1),
                arith::over(
                    #[trigger] arith::times(arith::whole(700), arith::minus(x, arith::whole(1))),
                    arith::whole(700),
                ),
            ) == x,
        forall|a: T, d: T, n: T|
            ({
                let at = |k: int|
                    arith::plus(
                        a,
                        arith::over(arith::times(d, arith::count::<T>(k as usize)), n),
                    );
                arith::plus(at(i - 1), at(i + 1)) == #[trigger] arith::plus(
                    arith::plus(a, arith::over(arith::times(d, arith::count(i as usize)), n)),
                    arith::plus(a, arith::over(arith::times(d, arith::count(i as usize)), n)),
                )
            }),
    ensures
        arith::plus(hz_to_mel(corner(cfg, i - 1)), hz_to_mel(corner(cfg, i + 1))) == arith::plus(
            hz_to_mel(corner(cfg, i)),
            hz_to_mel(corner(cfg, i)),
        ),
{
    let lo = hz_to_mel(cfg.f_min);
    let d = arith::minus(hz_to_mel(cfg.f_max), lo);
    let n = arith::count::<T>((cfg.n_mels + 1) as usize);
    let at = |k: int| arith::plus(lo, arith::over(arith::times(d, arith::count::<T>(k as usize)), n));
    assert forall|k: int| hz_to_mel(#[trigger] corner(cfg, k)) == at(k) by {
        let x = at(k);
        assert(corner(cfg, k) == mel_to_hz(x));
        let p = arith::power(arith::whole(10), arith::over(x, arith::whole(2595)));
        assert(corner(cfg, k) == arith::times(arith::whole(700), arith::minus(p, arith::whole(1))));
    }
    assert(arith::plus(at(i - 1), at(i + 1)) == arith::plus(
        arith::plus(lo, arith::over(arith::times(d, arith::count(i as usize)), n)),
        arith::plus(lo, arith::over(arith::times(d, arith::count(i as usize)), n)),
    ));
}

} // verus!
