//! The Vocos vocoder: its settings, and the way from predicted spectra to samples.

use vstd::prelude::*;
use vstd::string::StringExecFns;
use crate::arith;
use crate::arith::Real;
use crate::config::MelConfig;
use crate::error;
use crate::error::Error;
use crate::fourier;
use crate::fourier::Complex;
use crate::fourier::Transform;
use crate::overlap;
use crate::spectra;
use crate::text;

verus! {

/// Settings of the vocoder.
#[derive(Debug, Clone, Copy, PartialEq, Eq, Structural)]
pub struct VocosConfig {
    /// Mel bands that come in.
    pub input_channels: usize,
    /// Width of the backbone.
    pub dim: usize,
    /// Width inside a block of the backbone.
    pub intermediate_dim: usize,
    /// Blocks of the backbone.
    pub num_layers: usize,
    /// Length of the transform.
    pub n_fft: usize,
    /// Samples from frame to frame.
    pub hop_length: usize,
    /// Samples per second that come out.
    pub sample_rate: usize,
}

impl Default for VocosConfig {
    /// The published sizes, for 80 bands at 16 kHz.
    fn default() -> (c: Self)
        ensures
            c == (VocosConfig {
                input_channels: 80,
                dim: 512,
                intermediate_dim: 1536,
                num_layers: 8,
                n_fft: 1024,
                hop_length: 160,
                sample_rate: 16_000,
            }),
    {
        VocosConfig {
            input_channels: 80,
            dim: 512,
            intermediate_dim: 1536,
            num_layers: 8,
            n_fft: 1024,
            hop_length: 160,
            sample_rate: 16_000,
        }
    }
}

impl VocosConfig {
    /// The sizes of the vocoder that is published with MeanVC.
    pub fn official_meanvc1() -> (c: Self)
        ensures
            c == (VocosConfig {
                input_channels: 80,
                dim: 320,
                intermediate_dim: 1536,
                num_layers: 8,
                n_fft: 640,
                hop_length: 160,
                sample_rate: 16_000,
            }),
    {
        VocosConfig {
            input_channels: 80,
            dim: 320,
            intermediate_dim: 1536,
            num_layers: 8,
            n_fft: 640,
            hop_length: 160,
            sample_rate: 16_000,
        }
    }

    /// The published sizes behind the given mel analysis.
    pub fn for_mel<T: Real>(mel: &MelConfig<T>) -> (c: Self)
        ensures
            c == (VocosConfig {
                input_channels: mel.n_mels,
                dim: 512,
                intermediate_dim: 1536,
                num_layers: 8,
                n_fft: mel.n_fft,
                hop_length: mel.hop_length,
                sample_rate: mel.sample_rate,
            }),
    {
        let base: VocosConfig = VocosConfig::default();
        VocosConfig {
            input_channels: mel.n_mels,
            dim: base.dim,
            intermediate_dim: base.intermediate_dim,
            num_layers: base.num_layers,
            n_fft: mel.n_fft,
            hop_length: mel.hop_length,
            sample_rate: mel.sample_rate,
        }
    }
}

/// The window at place `i` of `n`: the squared sine of half a turn.
pub open spec fn window_at<T: Real>(i: int, n: int) -> T {
    let s = arith::sine(
        arith::over(
            arith::times(arith::pi::<T>(), arith::count(i as usize)),
            arith::count(n as usize),
        ),
    );
    arith::times(s, s)
}

/// The full spectrum of a real frame, of which `re` and `im` are the lower half.
pub open spec fn hermitian<T: Real>(re: Seq<T>, im: Seq<T>, n: int) -> Seq<Complex<T>> {
    Seq::new(
        n as nat,
        |b: int|
            if b < n / 2 + 1 {
                Complex { re: re[b], im: im[b] }
            } else {
                Complex { re: re[n - b], im: arith::negated(im[n - b]) }
            },
    )
}

/// The frame that a half spectrum stands for.
pub open spec fn time_frame<T: Real, F: Transform<T>>(
    ifft: F,
    re: Seq<T>,
    im: Seq<T>,
    n: int,
) -> Seq<T> {
    let s = fourier::spectrum::<T, F>(ifft, hermitian(re, im, n));
    Seq::new(n as nat, |i: int| arith::over(s[i].re, arith::count(n as usize)))
}

/// The frames that half spectra stand for.
pub open spec fn time_frames<T: Real, F: Transform<T>>(
    ifft: F,
    re: Seq<Seq<T>>,
    im: Seq<Seq<T>>,
    n: int,
) -> Seq<Seq<T>> {
    Seq::new(re.len(), |f: int| time_frame::<T, F>(ifft, re[f], im[f], n))
}

/// Builds the full spectrum of a real frame out of its lower half.
fn mirrored<T: Real>(re: &Vec<T>, im: &Vec<T>, n: usize) -> (v: Vec<Complex<T>>)
    requires
        n > 0,
        re.len() >= n / 2 + 1,
        im.len() >= n / 2 + 1,
    ensures
        v.len() == n,
        arith::deterministic::<T>() ==> v@ == hermitian(re@, im@, n as int),
{
    let mut v: Vec<Complex<T>> = Vec::new();
    let mut b: usize = 0;
    while b < n
        invariant
            n > 0,
            b <= n,
            re.len() >= n / 2 + 1,
            im.len() >= n / 2 + 1,
            v.len() == b,
            arith::deterministic::<T>() ==> forall|k: int|
                0 <= k < b ==> #[trigger] v@[k] == hermitian(re@, im@, n as int)[k],
        decreases n - b,
    {
        if b < n / 2 + 1 {
            v.push(Complex { re: re[b], im: im[b] });
        } else {
            v.push(Complex { re: re[n - b], im: im[n - b].negated() });
        }
        b = b + 1;
    }
    proof {
        if arith::deterministic::<T>() {
            assert(v@ =~= hermitian(re@, im@, n as int));
        }
    }
    v
}

/// The vocoder behind its network.
pub struct Vocos<T: Real> {
    /// The window of the frames.
    pub window: Vec<T>,
    /// The settings.
    pub cfg: VocosConfig,
}

impl<T: Real> Vocos<T> {
    /// A vocoder with a window as long as its transform.
    pub fn new(cfg: VocosConfig) -> (v: Self)
        ensures
            v.cfg == cfg,
            v.window.len() == cfg.n_fft,
            arith::deterministic::<T>() ==> forall|i: int|
                0 <= i < cfg.n_fft ==> #[trigger] v.window@[i] == window_at::<T>(
                    i,
                    cfg.n_fft as int,
                ),
    {
        let mut window: Vec<T> = Vec::new();
        let mut i: usize = 0;
        while i < cfg.n_fft
            invariant
                i <= cfg.n_fft,
                window.len() == i,
                arith::deterministic::<T>() ==> forall|k: int|
                    0 <= k < i ==> #[trigger] window@[k] == window_at::<T>(k, cfg.n_fft as int),
            decreases cfg.n_fft - i,
        {
            let s: T = T::pi().times(T::count(i)).over(T::count(cfg.n_fft)).sine();
            window.push(s.times(s));
            i = i + 1;
        }
        Vocos { window, cfg }
    }

    /// The settings.
    pub fn config(&self) -> (c: &VocosConfig)
        ensures
            *c == self.cfg,
    {
        &self.cfg
    }

    /// Whether a mel table of `rank` dimensions has to lose its first: it has two or three.
    pub fn mel_rank(rank: usize) -> (r: Result<bool, Error>)
        ensures
            r is Ok <==> rank == 2 || rank == 3,
            r is Ok ==> r->Ok_0 == (rank == 3),
            r is Err ==> error::input_error(
                r,
                "mel must be [frames, n_mels] or [1, frames, n_mels]"@,
            ),
    {
        if rank == 2 {
            Ok(false)
        } else if rank == 3 {
            Ok(true)
        } else {
            Err(
                Error::Input(
                    String::from_str("mel must be [frames, n_mels] or [1, frames, n_mels]"),
                ),
            )
        }
    }

    /// Tests the shape of a mel table: the bands of the vocoder, and two frames at least.
    pub fn check_mel(&self, frames: usize, n_mels: usize) -> (r: Result<(), Error>)
        ensures
            r is Ok <==> n_mels == self.cfg.input_channels && frames >= 2,
            n_mels != self.cfg.input_channels ==> error::input_error(
                r,
                "expected "@ + text::digits(self.cfg.input_channels as nat) + " mel bins, got "@
                    + text::digits(n_mels as nat),
            ),
            n_mels == self.cfg.input_channels && frames < 2 ==> error::input_error(
                r,
                "need at least 2 mel frames"@,
            ),
    {
        if n_mels != self.cfg.input_channels {
            let want: String = text::decimal(self.cfg.input_channels as u64);
            let got: String = text::decimal(n_mels as u64);
            let mut m: String = String::from_str("expected ");
            m.append(want.as_str());
            m.append(" mel bins, got ");
            m.append(got.as_str());
            return Err(Error::Input(m));
        }
        if frames < 2 {
            return Err(Error::Input(String::from_str("need at least 2 mel frames")));
        }
        Ok(())
    }

    /// The samples of predicted half spectra: the frames that they stand for, laid over each
    /// other under the window.
    pub fn istft<F: Transform<T>>(
        &self,
        re_rows: &Vec<Vec<T>>,
        im_rows: &Vec<Vec<T>>,
        ifft: &F,
    ) -> (out: Vec<T>)
        requires
            self.cfg.n_fft > 0,
            self.window.len() == self.cfg.n_fft,
            fourier::keeps_length::<T, F>(*ifft),
            re_rows.len() > 0,
            re_rows.len() == im_rows.len(),
            forall|f: int|
                0 <= f < re_rows.len() ==> (#[trigger] re_rows@[f]).len() >= self.cfg.n_fft / 2 + 1,
            forall|f: int|
                0 <= f < im_rows.len() ==> (#[trigger] im_rows@[f]).len() >= self.cfg.n_fft / 2 + 1,
            (re_rows.len() - 1) * self.cfg.hop_length + self.cfg.n_fft <= usize::MAX,
        ensures
            out.len() == (re_rows.len() - 1) * self.cfg.hop_length,
            arith::deterministic::<T>() && fourier::functional::<T, F>(*ifft) ==> out@
                == overlap::overlapped(
                time_frames::<T, F>(
                    *ifft,
                    spectra::grid(re_rows@),
                    spectra::grid(im_rows@),
                    self.cfg.n_fft as int,
                ),
                self.window@,
                self.cfg.hop_length as int,
            ),
    {
        let n: usize = self.cfg.n_fft;
        let ghost good = arith::deterministic::<T>() && fourier::functional::<T, F>(*ifft);
        let ghost gr = spectra::grid(re_rows@);
        let ghost gi = spectra::grid(im_rows@);
        let mut rows: Vec<Vec<T>> = Vec::new();
        let mut f: usize = 0;
        while f < re_rows.len()
            invariant
                n == self.cfg.n_fft,
                n > 0,
                good == (arith::deterministic::<T>() && fourier::functional::<T, F>(*ifft)),
                gr == spectra::grid(re_rows@),
                gi == spectra::grid(im_rows@),
                fourier::keeps_length::<T, F>(*ifft),
                re_rows.len() == im_rows.len(),
                forall|k: int| 0 <= k < re_rows.len() ==> (#[trigger] re_rows@[k]).len() >= n / 2 + 1,
                forall|k: int| 0 <= k < im_rows.len() ==> (#[trigger] im_rows@[k]).len() >= n / 2 + 1,
                f <= re_rows.len(),
                rows.len() == f,
                forall|k: int| 0 <= k < f ==> (#[trigger] rows@[k]).len() == n,
                good ==> forall|k: int|
                    0 <= k < f ==> (#[trigger] rows@[k])@ == time_frame::<T, F>(
                        *ifft,
                        gr[k],
                        gi[k],
                        n as int,
                    ),
            decreases re_rows.len() - f,
        {
            let full: Vec<Complex<T>> = mirrored(&re_rows[f], &im_rows[f], n);
            let s: Vec<Complex<T>> = fourier::transformed(ifft, &full);
            let mut row: Vec<T> = Vec::new();
            let mut i: usize = 0;
            while i < n
                invariant
                    i <= n == s.len(),
                    row.len() == i,
                    arith::deterministic::<T>() ==> forall|k: int|
                        0 <= k < i ==> #[trigger] row@[k] == arith::over(
                            s@[k].re,
                            arith::count(n),
                        ),
                decreases n - i,
            {
                row.push(s[i].re.over(T::count(n)));
                i = i + 1;
            }
            proof {
                if good {
                    assert(row@ =~= time_frame::<T, F>(
                        *ifft,
                        gr[f as int],
                        gi[f as int],
                        n as int,
                    ));
                }
            }
            rows.push(row);
            f = f + 1;
        }
        let out: Vec<T> = overlap::overlap_add(&rows, &self.window, self.cfg.hop_length);
        proof {
            if good {
                assert(spectra::grid(rows@) =~= time_frames::<T, F>(*ifft, gr, gi, n as int));
            }
        }
        out
    }
}

/// The window is zero at its start and one in its middle, and mirrors itself there. The sine has
/// to be zero at zero, one at a quarter turn and alike on both sides of it.
pub proof fn law_window_rises_and_falls<T: Real>(i: int, n: int)
    requires
        arith::neutral::<T>(),
        0 < i < n <= usize::MAX,
        arith::count::<T>(0) == arith::whole::<T>(0),
        arith::over(arith::whole::<T>(0), arith::count(n as usize)) == arith::whole::<T>(0),
        arith::sine(arith::whole::<T>(0)) == arith::whole::<T>(0),
    ensures
        ({
            let at = |k: int|
                arith::sine(
                    arith::over(
                        arith::times(arith::pi::<T>(), arith::count(k as usize)),
                        arith::count(n as usize),
                    ),
                );
            &&& window_at::<T>(0, n) == arith::whole::<T>(0)
            &&& at(i) == arith::whole::<T>(1) ==> window_at::<T>(i, n) == arith::whole::<T>(1)
            &&& at(n - i) == at(i) ==> window_at::<T>(n - i, n) == window_at::<T>(i, n)
            &&& window_at::<T>(i, n) == arith::times(at(i), at(i))
        }),
{
}

/// The full spectrum of a real frame mirrors itself with opposite imaginary parts: bin `b` in bin
/// `n - b`; its lower half is the one that it was built of.
pub proof fn law_spectrum_mirrors_itself<T: Real>(re: Seq<T>, im: Seq<T>, n: int, b: int)
    requires
        0 < b < n,
        2 * b < n,
        re.len() >= n / 2 + 1,
        im.len() >= n / 2 + 1,
    ensures
        ({
            let s = hermitian(re, im, n);
            &&& s.len() == n
            &&& s[b].re == re[b] && s[b].im == im[b]
            &&& s[n - b].re == s[b].re
            &&& s[n - b].im == arith::negated(s[b].im)
            &&& s[0].re == re[0] && s[0].im == im[0]
            &&& n % 2 == 0 ==> s[n / 2].re == re[n / 2] && s[n / 2].im == im[n / 2]
        }),
{
}

/// Each frame is that of its own spectrum, and the inverse transform is scaled by its length.
pub proof fn law_frame_is_of_its_spectrum<T: Real, F: Transform<T>>(
    ifft: F,
    re: Seq<Seq<T>>,
    im: Seq<Seq<T>>,
    n: int,
    f: int,
    i: int,
)
    requires
        re.len() == im.len(),
        0 <= f < re.len(),
        0 <= i < n <= usize::MAX,
    ensures
        ({
            let frames = time_frames::<T, F>(ifft, re, im, n);
            let s = fourier::spectrum::<T, F>(ifft, hermitian(re[f], im[f], n));
            &&& frames.len() == re.len()
            &&& frames[f].len() == n
            &&& frames[f][i] == arith::over(s[i].re, arith::count(n as usize))
        }),
{
}

} // verus!
