//! Voice profile equalizer: brings the spectrum of the output towards the long-term average
//! spectrum of the reference speaker.
//!
//! - [`Ltas`] accumulates the power spectra of voiced frames.
//! - [`ProfileEq`] holds the spectrum of the reference as its target and observes the output
//!   before the equalizer. After every three seconds of voiced audio it designs a linear-phase
//!   filter from the smoothed difference, within limits, and moves its taps towards it.

use vstd::prelude::*;
use crate::arith;
use crate::arith::Real;
use crate::arith::Wide;
use crate::buffers::append;
use crate::buffers::copied;
use crate::buffers::filled;
use crate::buffers::part;
use crate::fir;
use crate::fourier;
use crate::fourier::Complex;
use crate::fourier::Transform;
use crate::ratio;
use crate::ratio::gcd;

verus! {

/// Analysis rate in samples per second.
pub const RATE: usize = 48_000;

/// Length of a frame.
pub const N_FFT: usize = 1_024;

/// Bins of its spectrum.
pub const N_BINS: usize = 513;

/// Taps of the filter.
pub const TAPS: usize = 128;

/// Frames in three seconds, the voiced audio between two designs.
pub const UPDATE_FRAMES: u64 = 140;

/// The bin of 70 Hz; nothing below is corrected.
pub const LO_BIN: usize = 1;

/// The bin of 1 kHz, where the band that fixes the level starts.
pub const LEVEL_LO_BIN: usize = 21;

/// The bin of 3 kHz, where that band ends.
pub const LEVEL_HI_BIN: usize = 64;

/// The bin of 5 kHz, from which on a boost is capped.
pub const HF_BIN: usize = 106;

/// Where the output sample `n` lies between the input samples.
pub open spec fn instant<W: Real>(n: int, up: usize, down: usize) -> W {
    arith::over(arith::times(arith::count(n as usize), arith::count(down)), arith::count(up))
}

/// The share of the passband that a conversion from `from` to `to` keeps.
pub open spec fn passband<W: Real>(from: usize, to: usize) -> W {
    arith::times(
        arith::fraction(95, 100),
        arith::smaller(
            arith::over(arith::count::<W>(to), arith::count(from)),
            arith::whole(1),
        ),
    )
}

/// The weight of an input sample at the distance `t` from the instant.
pub open spec fn sinc_weight<W: Real>(cutoff: W, t: W) -> W {
    if arith::at_most(t, arith::whole(0)) && arith::at_most(arith::whole(0), t) {
        cutoff
    } else {
        arith::over(
            arith::sine(arith::times(arith::times(arith::pi(), cutoff), t)),
            arith::times(arith::pi(), t),
        )
    }
}

/// The window over twelve input samples on either side, at the distance `t`.
pub open spec fn hann_weight<W: Real>(t: W) -> W {
    arith::plus(
        arith::fraction(1, 2),
        arith::times(
            arith::fraction(1, 2),
            arith::cosine(arith::over(arith::times(arith::pi(), t), arith::whole(12))),
        ),
    )
}

/// The share of the input sample `j` in the output sample at `pos`.
pub open spec fn contribution<T: Real, W: Wide<T>>(input: Seq<T>, cutoff: W, pos: W, j: int) -> W {
    let t = arith::minus(arith::count::<W>(j as usize), pos);
    arith::times(
        arith::times(arith::widened::<T, W>(input[j]), sinc_weight(cutoff, t)),
        hann_weight(t),
    )
}

/// The sum of the shares of the input samples from `lo` up to `hi`.
pub open spec fn blended<T: Real, W: Wide<T>>(
    input: Seq<T>,
    cutoff: W,
    pos: W,
    lo: int,
    hi: int,
) -> W
    decreases hi - lo,
{
    if hi <= lo {
        arith::whole(0)
    } else {
        arith::plus(
            blended(input, cutoff, pos, lo, hi - 1),
            contribution(input, cutoff, pos, hi - 1),
        )
    }
}

/// The first input sample within twelve of `pos`.
pub open spec fn first_tap<W: Real>(pos: W) -> int {
    let lo = arith::ceiling(arith::minus(pos, arith::whole(12)));
    if lo < 0 {
        0
    } else {
        lo as int
    }
}

/// One past the last input sample within twelve of `pos`, of `n` samples.
pub open spec fn last_tap<W: Real>(pos: W, n: int) -> int {
    let hi = arith::floor(arith::plus(pos, arith::whole(12)));
    if hi < n {
        hi + 1
    } else {
        n
    }
}

/// The output sample `n` of a conversion in the ratio of `up` to `down`.
pub open spec fn resampled<T: Real, W: Wide<T>>(
    input: Seq<T>,
    cutoff: W,
    up: usize,
    down: usize,
    n: int,
) -> T {
    let pos = instant::<W>(n, up, down);
    arith::narrowed(
        blended::<T, W>(
            input,
            cutoff,
            pos,
            first_tap(pos),
            last_tap(pos, input.len() as int),
        ),
    )
}

/// The output sample at `pos`, from the input samples within twelve of it.
fn blend<T: Real, W: Wide<T>>(input: &[T], cutoff: W, pos: W) -> (r: W)
    ensures
        arith::wide_deterministic::<T, W>() ==> r == blended::<T, W>(
            input@,
            cutoff,
            pos,
            first_tap(pos),
            last_tap(pos, input.len() as int),
        ),
{
    let lo: i64 = pos.minus(W::whole(12)).ceiling();
    let hi: i64 = pos.plus(W::whole(12)).floor();
    let n: usize = input.len();
    let first: usize = if lo < 0 {
        0
    } else if lo as u64 >= n as u64 {
        n
    } else {
        lo as usize
    };
    let last: usize = if hi < 0 {
        0
    } else if hi as u64 >= n as u64 {
        n
    } else {
        hi as usize + 1
    };
    let mut acc: W = W::whole(0);
    let mut j: usize = first;
    while j < last
        invariant
            last <= n == input.len(),
            first <= j,
            first <= last ==> j <= last,
            last <= first ==> j == first,
            arith::wide_deterministic::<T, W>() ==> acc == blended::<T, W>(
                input@,
                cutoff,
                pos,
                first as int,
                j as int,
            ),
        decreases last - j,
    {
        let t: W = W::count(j).minus(pos);
        let sinc: W = if t.at_most(W::whole(0)) && W::whole(0).at_most(t) {
            cutoff
        } else {
            W::pi().times(cutoff).times(t).sine().over(W::pi().times(t))
        };
        let w: W = W::fraction(1, 2).plus(
            W::fraction(1, 2).times(W::pi().times(t).over(W::whole(12)).cosine()),
        );
        acc = acc.plus(W::widened(input[j]).times(sinc).times(w));
        j = j + 1;
    }
    proof {
        if arith::wide_deterministic::<T, W>() {
            if last <= first {
                assert(j == first);
                assert(last_tap(pos, n as int) <= first_tap(pos));
                assert(acc == arith::whole::<W>(0));
            } else {
                assert(first == first_tap(pos));
                assert(last == last_tap(pos, n as int));
            }
        }
    }
    acc
}

/// The term `a` of the ratio of `a` to `b` in lowest terms.
pub open spec fn reduced(a: usize, b: usize) -> int {
    a as int / ratio::gcd_of(a as nat, b as nat) as int
}

/// Windowed-sinc conversion from the rate `from` to the rate `to`, for analysis.
pub fn resample_analysis<T: Real, W: Wide<T>>(input: &[T], from: usize, to: usize) -> (out: Vec<T>)
    requires
        from > 0 || from == to,
        input.len() * reduced(to, from) <= usize::MAX,
    ensures
        from == to ==> out@ == input@,
        from != to ==> out.len() == (input.len() * reduced(to, from)) / reduced(from, to),
        from != to && arith::wide_deterministic::<T, W>() ==> forall|n: int|
            0 <= n < out.len() ==> #[trigger] out@[n] == resampled::<T, W>(
                input@,
                passband(from, to),
                reduced(to, from) as usize,
                reduced(from, to) as usize,
                n,
            ),
{
    if from == to {
        return copied(input);
    }
    let g: usize = gcd(from, to);
    let up: usize = to / g;
    let down: usize = from / g;
    let cutoff: W = W::fraction(95, 100).times(
        W::count(to).over(W::count(from)).smaller(W::whole(1)),
    );
    proof {
        ratio::lemma_divided(g as nat, from as nat);
        assert(ratio::is_gcd(g as nat, to as nat, from as nat));
        ratio::lemma_gcd_unique(g as nat, to as nat, from as nat);
    }
    let count: usize = input.len() * up / down;
    let mut out: Vec<T> = Vec::new();
    let mut n: usize = 0;
    while n < count
        invariant
            n <= count,
            out.len() == n,
            arith::wide_deterministic::<T, W>() ==> cutoff == passband::<W>(from, to),
            arith::wide_deterministic::<T, W>() ==> forall|k: int|
                0 <= k < n ==> #[trigger] out@[k] == resampled::<T, W>(
                    input@,
                    cutoff,
                    up,
                    down,
                    k,
                ),
        decreases count - n,
    {
        let pos: W = W::count(n).times(W::count(down)).over(W::count(up));
        let acc: W = blend::<T, W>(input, cutoff, pos);
        out.push(acc.narrowed());
        n = n + 1;
    }
    out
}

/// The Hann window of a frame of `n` samples at place `i`.
pub open spec fn hann<W: Real>(i: int, n: int) -> W {
    arith::minus(
        arith::fraction(1, 2),
        arith::times(
            arith::fraction(1, 2),
            arith::cosine(
                arith::over(
                    arith::times(
                        arith::times(arith::whole(2), arith::pi()),
                        arith::count(i as usize),
                    ),
                    arith::count((n - 1) as usize),
                ),
            ),
        ),
    )
}

/// The Hann window of a frame of `n` samples at place `i`.
fn hann_at<W: Real>(i: usize, n: usize) -> (w: W)
    requires
        n > 0,
    ensures
        arith::deterministic::<W>() ==> w == hann::<W>(i as int, n as int),
{
    W::fraction(1, 2).minus(
        W::fraction(1, 2).times(
            W::whole(2).times(W::pi()).times(W::count(i)).over(W::count(n - 1)).cosine(),
        ),
    )
}

/// The level of a frame: the root of the mean of the squares.
pub open spec fn level<T: Real>(frame: Seq<T>) -> T {
    arith::root(
        arith::over(
            arith::total(Seq::new(frame.len(), |i: int| arith::times(frame[i], frame[i]))),
            arith::count(frame.len() as usize),
        ),
    )
}

/// A frame under the window, as complex numbers of the wider type.
pub open spec fn windowed<T: Real, W: Wide<T>>(frame: Seq<T>, window: Seq<W>) -> Seq<Complex<W>> {
    Seq::new(
        frame.len(),
        |i: int|
            Complex {
                re: arith::times(arith::widened::<T, W>(frame[i]), window[i]),
                im: arith::whole::<W>(0),
            },
    )
}

/// The spectra `acc` with the power spectrum of `frame` added.
pub open spec fn accumulated<T: Real, W: Wide<T>, F: Transform<W>>(
    acc: Seq<W>,
    frame: Seq<T>,
    window: Seq<W>,
    fft: F,
) -> Seq<W> {
    let bins = fourier::spectrum::<W, F>(fft, windowed::<T, W>(frame, window));
    Seq::new(acc.len(), |k: int| arith::plus(acc[k], fourier::squared(bins[k])))
}

/// What an accumulator with the level `gate` has heard after the samples `data`: the sum of the
/// power spectra of the frames whose level is not below it, and their number.
pub open spec fn heard<T: Real, W: Wide<T>, F: Transform<W>>(
    acc: Seq<W>,
    frames: nat,
    gate: T,
    window: Seq<W>,
    fft: F,
    data: Seq<T>,
) -> (Seq<W>, nat)
    decreases data.len(),
{
    if data.len() < N_FFT {
        (acc, frames)
    } else {
        let frame = data.take(N_FFT as int);
        let rest = data.skip(N_FFT as int);
        if arith::below(level(frame), gate) {
            heard(acc, frames, gate, window, fft, rest)
        } else {
            heard(
                accumulated::<T, W, F>(acc, frame, window, fft),
                frames + 1,
                gate,
                window,
                fft,
                rest,
            )
        }
    }
}

/// What is left of the samples `data` when all whole frames are taken from them.
pub open spec fn leftover<T>(data: Seq<T>) -> Seq<T>
    decreases data.len(),
{
    if data.len() < N_FFT {
        data
    } else {
        leftover(data.skip(N_FFT as int))
    }
}

/// The level of a frame.
fn level_of<T: Real>(frame: &Vec<T>) -> (r: T)
    ensures
        arith::deterministic::<T>() ==> r == level(frame@),
{
    let mut squares: Vec<T> = Vec::new();
    let mut i: usize = 0;
    while i < frame.len()
        invariant
            i <= frame.len(),
            squares.len() == i,
            arith::deterministic::<T>() ==> forall|k: int|
                0 <= k < i ==> #[trigger] squares@[k] == arith::times(frame@[k], frame@[k]),
        decreases frame.len() - i,
    {
        squares.push(frame[i].times(frame[i]));
        i = i + 1;
    }
    proof {
        if arith::deterministic::<T>() {
            assert(squares@ =~= Seq::new(
                frame@.len(),
                |i: int| arith::times(frame@[i], frame@[i]),
            ));
        }
    }
    arith::sum(&squares).over(T::count(frame.len())).root()
}

/// Accumulator of the spectra of voiced frames.
pub struct Ltas<T: Real, W: Wide<T>> {
    /// The sum of the power spectra.
    pub acc: Vec<W>,
    /// Number of voiced frames.
    pub frames: u64,
    /// The window of a frame.
    pub window: Vec<W>,
    /// Samples that do not fill a frame yet.
    pub buf: Vec<T>,
    /// The level from which on a frame is voiced.
    pub gate: T,
}

impl<T: Real, W: Wide<T>> Ltas<T, W> {
    /// Whether the sizes are those of a frame.
    pub open spec fn valid(&self) -> bool {
        &&& self.acc.len() == N_BINS
        &&& self.window.len() == N_FFT
        &&& self.buf.len() < N_FFT
    }

    /// An accumulator for frames from the level `gate` on.
    pub fn new(gate: T) -> (l: Self)
        ensures
            l.valid(),
            l.frames == 0,
            l.gate == gate,
            l.buf@.len() == 0,
            arith::deterministic::<W>() ==> l.acc@ == Seq::new(
                N_BINS as nat,
                |k: int| arith::whole::<W>(0),
            ),
            arith::deterministic::<W>() ==> l.window@ == Seq::new(
                N_FFT as nat,
                |i: int| hann::<W>(i, N_FFT as int),
            ),
    {
        let mut window: Vec<W> = Vec::new();
        let mut i: usize = 0;
        while i < N_FFT
            invariant
                i <= N_FFT,
                window.len() == i,
                arith::deterministic::<W>() ==> forall|k: int|
                    0 <= k < i ==> #[trigger] window@[k] == hann::<W>(k, N_FFT as int),
            decreases N_FFT - i,
        {
            window.push(hann_at(i, N_FFT));
            i = i + 1;
        }
        let l = Ltas {
            acc: filled(W::whole(0), N_BINS),
            frames: 0,
            window,
            buf: Vec::new(),
            gate,
        };
        proof {
            if arith::deterministic::<W>() {
                assert(l.acc@ =~= Seq::new(N_BINS as nat, |k: int| arith::whole::<W>(0)));
                assert(l.window@ =~= Seq::new(
                    N_FFT as nat,
                    |i: int| hann::<W>(i, N_FFT as int),
                ));
            }
        }
        l
    }

    /// Adds the power spectrum of one frame.
    fn accumulate<F: Transform<W>>(&mut self, frame: &Vec<T>, fft: &F)
        requires
            old(self).valid(),
            frame.len() == N_FFT,
            fourier::keeps_length::<W, F>(*fft),
        ensures
            final(self).valid(),
            final(self).frames == old(self).frames,
            final(self).window == old(self).window,
            final(self).buf == old(self).buf,
            final(self).gate == old(self).gate,
            arith::wide_deterministic::<T, W>() && fourier::functional::<W, F>(*fft)
                ==> final(self).acc@ == accumulated::<T, W, F>(
                old(self).acc@,
                frame@,
                old(self).window@,
                *fft,
            ),
    {
        let mut scratch: Vec<Complex<W>> = Vec::new();
        let mut i: usize = 0;
        while i < N_FFT
            invariant
                i <= N_FFT,
                frame.len() == N_FFT,
                self.valid(),
                *self == *old(self),
                scratch.len() == i,
                arith::wide_deterministic::<T, W>() ==> forall|k: int|
                    0 <= k < i ==> #[trigger] scratch@[k] == windowed::<T, W>(
                        frame@,
                        self.window@,
                    )[k],
            decreases N_FFT - i,
        {
            scratch.push(
                Complex { re: W::widened(frame[i]).times(self.window[i]), im: W::whole(0) },
            );
            i = i + 1;
        }
        proof {
            if arith::wide_deterministic::<T, W>() {
                assert(scratch@ =~= windowed::<T, W>(frame@, self.window@));
            }
        }
        let bins: Vec<Complex<W>> = fourier::transformed(fft, &scratch);
        let ghost before = self.acc@;
        let mut k: usize = 0;
        while k < N_BINS
            invariant
                k <= N_BINS,
                bins.len() == N_FFT,
                self.valid(),
                before == old(self).acc@,
                self.frames == old(self).frames,
                self.window == old(self).window,
                self.buf == old(self).buf,
                self.gate == old(self).gate,
                forall|j: int| k <= j < N_BINS ==> self.acc@[j] == before[j],
                arith::deterministic::<W>() ==> forall|j: int|
                    0 <= j < k ==> #[trigger] self.acc@[j] == arith::plus(
                        before[j],
                        fourier::squared(bins@[j]),
                    ),
            decreases N_BINS - k,
        {
            let p: W = self.acc[k].plus(fourier::norm_sqr(bins[k]));
            self.acc.set(k, p);
            k = k + 1;
        }
        proof {
            if arith::wide_deterministic::<T, W>() && fourier::functional::<W, F>(*fft) {
                assert(self.acc@ =~= accumulated::<T, W, F>(
                    before,
                    frame@,
                    old(self).window@,
                    *fft,
                ));
            }
        }
    }

    /// Takes samples, in chunks of any size; the spectra of voiced frames accumulate.
    pub fn feed<F: Transform<W>>(&mut self, samples: &[T], fft: &F)
        requires
            old(self).valid(),
            fourier::keeps_length::<W, F>(*fft),
            old(self).frames + samples.len() + N_FFT <= u64::MAX,
        ensures
            final(self).valid(),
            final(self).window == old(self).window,
            final(self).gate == old(self).gate,
            final(self).buf@ == leftover(old(self).buf@ + samples@),
            old(self).frames <= final(self).frames <= old(self).frames + samples.len() + N_FFT,
            arith::wide_deterministic::<T, W>() && fourier::functional::<W, F>(*fft) ==> (
                final(self).acc@,
                final(self).frames as nat,
            ) == heard::<T, W, F>(
                old(self).acc@,
                old(self).frames as nat,
                old(self).gate,
                old(self).window@,
                *fft,
                old(self).buf@ + samples@,
            ),
    {
        let mut data: Vec<T> = copied(self.buf.as_slice());
        append(&mut data, samples);
        let ghost all = data@;
        let ghost start = self.frames;
        let mut at: usize = 0;
        self.buf = Vec::new();
        assert(all.skip(0) =~= all);
        while data.len() - at >= N_FFT
            invariant
                data@ == all,
                at <= data.len(),
                self.valid(),
                fourier::keeps_length::<W, F>(*fft),
                self.window == old(self).window,
                self.gate == old(self).gate,
                start <= self.frames <= start + at,
                start + all.len() <= u64::MAX,
                leftover(all.skip(at as int)) == leftover(all),
                arith::wide_deterministic::<T, W>() && fourier::functional::<W, F>(*fft)
                    ==> heard::<T, W, F>(
                    self.acc@,
                    self.frames as nat,
                    self.gate,
                    self.window@,
                    *fft,
                    all.skip(at as int),
                ) == heard::<T, W, F>(
                    old(self).acc@,
                    start as nat,
                    self.gate,
                    self.window@,
                    *fft,
                    all,
                ),
            decreases data.len() - at,
        {
            let frame: Vec<T> = part(data.as_slice(), at, at + N_FFT);
            proof {
                let here = all.skip(at as int);
                assert(here.take(N_FFT as int) =~= frame@);
                assert(here.skip(N_FFT as int) =~= all.skip(at + N_FFT));
            }
            if !level_of(&frame).below(self.gate) {
                self.accumulate(&frame, fft);
                self.frames = self.frames + 1;
            }
            at = at + N_FFT;
        }
        self.buf = part(data.as_slice(), at, data.len());
        assert(self.buf@ =~= all.skip(at as int));
    }

    /// Number of voiced frames so far.
    pub fn frames(&self) -> (n: u64)
        ensures
            n == self.frames,
    {
        self.frames
    }

    /// The mean power spectrum in decibels, once a frame was voiced.
    pub fn db(&self) -> (d: Option<Vec<W>>)
        requires
            self.frames <= i64::MAX,
        ensures
            d is None <==> self.frames == 0,
            d is Some ==> d->0.len() == self.acc.len(),
            d is Some && arith::deterministic::<W>() ==> d->0@ == decibels(
                self.acc@,
                self.frames as i64,
            ),
    {
        if self.frames == 0 {
            return None;
        }
        let n: W = W::whole(self.frames as i64);
        let mut out: Vec<W> = Vec::new();
        let mut k: usize = 0;
        while k < self.acc.len()
            invariant
                k <= self.acc.len(),
                out.len() == k,
                arith::deterministic::<W>() ==> n == arith::whole::<W>(self.frames as i64),
                arith::deterministic::<W>() ==> forall|j: int|
                    0 <= j < k ==> #[trigger] out@[j] == decibels(
                        self.acc@,
                        self.frames as i64,
                    )[j],
            decreases self.acc.len() - k,
        {
            out.push(
                W::whole(10).times(
                    self.acc[k].over(n).plus(
                        W::fraction(1, 1_000_000_000_000_000_000),
                    ).decimal_logarithm(),
                ),
            );
            k = k + 1;
        }
        proof {
            if arith::deterministic::<W>() {
                assert(out@ =~= decibels(self.acc@, self.frames as i64));
            }
        }
        Some(out)
    }
}

/// The mean of `n` power spectra in decibels.
pub open spec fn decibels<W: Real>(acc: Seq<W>, n: i64) -> Seq<W> {
    Seq::new(
        acc.len(),
        |k: int|
            arith::times(
                arith::whole(10),
                arith::decimal_logarithm(
                    arith::plus(
                        arith::over(acc[k], arith::whole(n)),
                        arith::fraction(1, 1_000_000_000_000_000_000),
                    ),
                ),
            ),
    )
}

/// To feed an accumulator in two portions leaves what it leaves in one.
pub proof fn law_feeding_in_chunks<T: Real, W: Wide<T>, F: Transform<W>>(
    acc: Seq<W>,
    frames: nat,
    gate: T,
    window: Seq<W>,
    fft: F,
    a: Seq<T>,
    b: Seq<T>,
)
    ensures
        leftover(leftover(a) + b) == leftover(a + b),
        ({
            let first = heard(acc, frames, gate, window, fft, a);
            heard(first.0, first.1, gate, window, fft, leftover(a) + b)
        }) == heard(acc, frames, gate, window, fft, a + b),
    decreases a.len(),
{
    if a.len() >= N_FFT {
        let n = N_FFT as int;
        let frame = a.take(n);
        assert((a + b).take(n) =~= frame);
        assert((a + b).skip(n) =~= a.skip(n) + b);
        if arith::below(level(frame), gate) {
            law_feeding_in_chunks(acc, frames, gate, window, fft, a.skip(n), b);
        } else {
            law_feeding_in_chunks(
                accumulated::<T, W, F>(acc, frame, window, fft),
                frames + 1,
                gate,
                window,
                fft,
                a.skip(n),
                b,
            );
        }
    }
}

/// Frames that are too quiet leave no trace in the spectrum.
pub proof fn law_silence_is_not_heard<T: Real, W: Wide<T>, F: Transform<W>>(
    acc: Seq<W>,
    frames: nat,
    gate: T,
    window: Seq<W>,
    fft: F,
    data: Seq<T>,
)
    requires
        forall|k: int|
            0 <= k && (k + 1) * N_FFT <= data.len() ==> arith::below(
                level(#[trigger] data.subrange(k * N_FFT, (k + 1) * N_FFT)),
                gate,
            ),
    ensures
        heard(acc, frames, gate, window, fft, data) == (acc, frames),
    decreases data.len(),
{
    if data.len() >= N_FFT {
        let n = N_FFT as int;
        let rest = data.skip(n);
        assert(data.subrange(0 * N_FFT, (0 + 1) * N_FFT) =~= data.take(n));
        assert forall|k: int| 0 <= k && (k + 1) * N_FFT <= rest.len() implies arith::below(
            level(#[trigger] rest.subrange(k * N_FFT, (k + 1) * N_FFT)),
            gate,
        ) by {
            let j = k + 1;
            assert(data.subrange(j * N_FFT, (j + 1) * N_FFT) =~= rest.subrange(
                k * N_FFT,
                (k + 1) * N_FFT,
            ));
        }
        law_silence_is_not_heard(acc, frames, gate, window, fft, rest);
    }
}

/// The frequency of bin `k`, of bin one for bin zero.
pub open spec fn bin_frequency<W: Real>(k: int) -> W {
    arith::over(
        arith::times(
            arith::count(if k < 1 { 1 } else { k as usize }),
            arith::count(RATE),
        ),
        arith::count(N_FFT),
    )
}

/// Half of a third of an octave around the frequency `f`.
pub open spec fn half_band<W: Real>(f: W) -> W {
    arith::times(
        f,
        arith::minus(
            arith::power(arith::whole(2), arith::over(arith::whole(1), arith::whole(6))),
            arith::whole(1),
        ),
    )
}

/// The first bin of the third of an octave around bin `k`, of `n` bins.
pub open spec fn band_start<W: Real>(k: int, n: int) -> int {
    let f = bin_frequency::<W>(k);
    let lo = arith::floor(
        arith::over(
            arith::times(arith::minus(f, half_band(f)), arith::count(N_FFT)),
            arith::count(RATE),
        ),
    );
    if lo < 0 {
        0
    } else if lo < n {
        lo as int
    } else {
        n - 1
    }
}

/// The last bin of the third of an octave around bin `k`, of `n` bins.
pub open spec fn band_stop<W: Real>(k: int, n: int) -> int {
    let f = bin_frequency::<W>(k);
    let lo = band_start::<W>(k, n);
    let hi = arith::ceiling(
        arith::over(
            arith::times(arith::plus(f, half_band(f)), arith::count(N_FFT)),
            arith::count(RATE),
        ),
    );
    if hi < lo {
        lo
    } else if hi < n {
        hi as int
    } else {
        n - 1
    }
}

/// The curve `db` with each bin replaced by the mean of the third of an octave around it.
pub open spec fn smoothed<W: Real>(db: Seq<W>) -> Seq<W> {
    Seq::new(
        db.len(),
        |k: int|
            {
                let lo = band_start::<W>(k, db.len() as int);
                let hi = band_stop::<W>(k, db.len() as int);
                arith::over(
                    arith::total(db.subrange(lo, hi + 1)),
                    arith::count((hi + 1 - lo) as usize),
                )
            },
    )
}

/// The bin that the number `x` is, held between `lo` and `n - 1`.
fn bin_between(x: i64, lo: usize, n: usize) -> (k: usize)
    requires
        lo < n,
    ensures
        k == (if x < lo { lo as int } else if x < n { x as int } else { n - 1 }),
{
    if x < 0 || (x as u64) < lo as u64 {
        lo
    } else if (x as u64) < n as u64 {
        x as usize
    } else {
        n - 1
    }
}

/// Smooths a curve in decibels over thirds of an octave.
pub fn smooth_third_octave<W: Real>(db: &Vec<W>) -> (out: Vec<W>)
    ensures
        out.len() == db.len(),
        arith::deterministic::<W>() ==> out@ == smoothed(db@),
{
    let n: usize = db.len();
    let mut out: Vec<W> = Vec::new();
    let mut k: usize = 0;
    while k < n
        invariant
            k <= n == db.len(),
            out.len() == k,
            arith::deterministic::<W>() ==> forall|j: int|
                0 <= j < k ==> #[trigger] out@[j] == smoothed(db@)[j],
        decreases n - k,
    {
        let f: W = W::count(if k < 1 { 1 } else { k }).times(W::count(RATE)).over(
            W::count(N_FFT),
        );
        let half: W = f.times(
            W::whole(2).power(W::whole(1).over(W::whole(6))).minus(W::whole(1)),
        );
        let below: i64 = f.minus(half).times(W::count(N_FFT)).over(W::count(RATE)).floor();
        let above: i64 = f.plus(half).times(W::count(N_FFT)).over(W::count(RATE)).ceiling();
        let lo: usize = bin_between(below, 0, n);
        let hi: usize = bin_between(above, lo, n);
        let span: Vec<W> = part(db.as_slice(), lo, hi + 1);
        out.push(arith::sum(&span).over(W::count(span.len())));
        proof {
            if arith::deterministic::<W>() {
                assert(lo == band_start::<W>(k as int, n as int));
                assert(hi == band_stop::<W>(k as int, n as int));
            }
        }
        k = k + 1;
    }
    proof {
        if arith::deterministic::<W>() {
            assert(out@ =~= smoothed(db@));
        }
    }
    out
}

/// The symmetric spectrum of a filter with the gain `gain_db` in decibels at each bin.
pub open spec fn design_spectrum<W: Real>(gain_db: Seq<W>) -> Seq<Complex<W>> {
    Seq::new(
        N_FFT as nat,
        |n: int|
            {
                let k = if n < N_BINS { n } else { N_FFT - n };
                Complex {
                    re: arith::power(
                        arith::whole(10),
                        arith::over(gain_db[k], arith::whole(20)),
                    ),
                    im: arith::whole::<W>(0),
                }
            },
    )
}

/// The tap `i` of the filter whose impulse response, as the inverse transform gives it, is
/// `response`: turned so that its centre comes to the middle tap, scaled, windowed.
pub open spec fn design_tap<T: Real, W: Wide<T>>(response: Seq<Complex<W>>, i: int) -> T {
    let n = if i < 64 { i - 64 + N_FFT } else { i - 64 };
    arith::narrowed::<T, W>(
        arith::times(
            arith::over(response[n].re, arith::count(N_FFT)),
            hann::<W>(i, TAPS as int),
        ),
    )
}

/// The taps of the filter with the gain `gain_db`, for the inverse transform `ifft`.
pub open spec fn designed<T: Real, W: Wide<T>, F: Transform<W>>(gain_db: Seq<W>, ifft: F) -> Seq<
    T,
> {
    Seq::new(
        TAPS as nat,
        |i: int|
            design_tap::<T, W>(fourier::spectrum::<W, F>(ifft, design_spectrum(gain_db)), i),
    )
}

/// Designs a linear-phase filter with the gain `gain_db` in decibels at each bin.
pub fn design_fir<T: Real, W: Wide<T>, F: Transform<W>>(gain_db: &Vec<W>, ifft: &F) -> (taps: Vec<
    T,
>)
    requires
        gain_db.len() == N_BINS,
        fourier::keeps_length::<W, F>(*ifft),
    ensures
        taps.len() == TAPS,
        arith::wide_deterministic::<T, W>() && fourier::functional::<W, F>(*ifft) ==> taps@
            == designed::<T, W, F>(gain_db@, *ifft),
{
    let mut spec: Vec<Complex<W>> = Vec::new();
    let mut n: usize = 0;
    while n < N_FFT
        invariant
            n <= N_FFT,
            gain_db.len() == N_BINS,
            spec.len() == n,
            arith::deterministic::<W>() ==> forall|j: int|
                0 <= j < n ==> #[trigger] spec@[j] == design_spectrum(gain_db@)[j],
        decreases N_FFT - n,
    {
        let k: usize = if n < N_BINS { n } else { N_FFT - n };
        let mag: W = W::whole(10).power(gain_db[k].over(W::whole(20)));
        spec.push(Complex { re: mag, im: W::whole(0) });
        n = n + 1;
    }
    proof {
        if arith::deterministic::<W>() {
            assert(spec@ =~= design_spectrum(gain_db@));
        }
    }
    let response: Vec<Complex<W>> = fourier::transformed(ifft, &spec);
    let mut taps: Vec<T> = Vec::new();
    let mut i: usize = 0;
    while i < TAPS
        invariant
            i <= TAPS,
            response.len() == N_FFT,
            taps.len() == i,
            arith::wide_deterministic::<T, W>() ==> forall|j: int|
                0 <= j < i ==> #[trigger] taps@[j] == design_tap::<T, W>(response@, j),
        decreases TAPS - i,
    {
        let m: usize = if i < 64 { i + N_FFT - 64 } else { i - 64 };
        let w: W = hann_at(i, TAPS);
        taps.push(response[m].re.over(W::count(N_FFT)).times(w).narrowed());
        i = i + 1;
    }
    proof {
        if arith::wide_deterministic::<T, W>() && fourier::functional::<W, F>(*ifft) {
            assert(taps@ =~= designed::<T, W, F>(gain_db@, *ifft));
        }
    }
    taps
}

/// The mean difference between two curves from 1 to 3 kHz.
pub open spec fn level_bias<W: Real>(target: Seq<W>, current: Seq<W>) -> W {
    arith::over(
        arith::total(
            Seq::new(
                (LEVEL_HI_BIN - LEVEL_LO_BIN) as nat,
                |k: int| arith::minus(target[LEVEL_LO_BIN + k], current[LEVEL_LO_BIN + k]),
            ),
        ),
        arith::count((LEVEL_HI_BIN - LEVEL_LO_BIN) as usize),
    )
}

/// The correction in decibels at bin `k`, before the band edges are tapered: the difference
/// without the mean level, at most 10 dB either way, at most 6 dB up from 5 kHz on, and nothing
/// outside the band.
pub open spec fn correction<W: Real>(
    target: Seq<W>,
    current: Seq<W>,
    bias: W,
    max_bin: int,
    k: int,
) -> W {
    if LO_BIN <= k <= max_bin {
        let g = arith::clamped(
            arith::minus(arith::minus(target[k], current[k]), bias),
            arith::whole((-10) as i64),
            arith::whole(10),
        );
        if k >= HF_BIN {
            arith::smaller(g, arith::whole(6))
        } else {
            g
        }
    } else {
        arith::whole(0)
    }
}

/// The correction at all bins, before the band edges are tapered.
pub open spec fn corrections<W: Real>(target: Seq<W>, current: Seq<W>, max_bin: int) -> Seq<W> {
    let bias = level_bias(target, current);
    Seq::new(N_BINS as nat, |k: int| correction(target, current, bias, max_bin, k))
}

/// The correction with its first `e` steps of either band edge tapered.
pub open spec fn tapered<W: Real>(gain: Seq<W>, max_bin: int, e: int) -> Seq<W>
    decreases e,
{
    if e <= 0 {
        gain
    } else {
        let before = tapered(gain, max_bin, e - 1);
        let w = arith::over(arith::count::<W>((e - 1) as usize), arith::whole(3));
        let lo = before.update(
            LO_BIN + e - 1,
            arith::times(before[LO_BIN + e - 1], w),
        );
        if max_bin >= e - 1 {
            lo.update(max_bin - (e - 1), arith::times(lo[max_bin - (e - 1)], w))
        } else {
            lo
        }
    }
}

/// The correction that leads from the curve `current` to the curve `target`, in decibels for
/// each bin.
fn gain_curve<W: Real>(target: &Vec<W>, current: &Vec<W>, max_bin: usize) -> (gain: Vec<W>)
    requires
        target.len() == N_BINS,
        current.len() == N_BINS,
        max_bin < N_BINS,
    ensures
        gain.len() == N_BINS,
        arith::deterministic::<W>() ==> gain@ == tapered(
            corrections(target@, current@, max_bin as int),
            max_bin as int,
            3,
        ),
{
    let mut diffs: Vec<W> = Vec::new();
    let mut k: usize = LEVEL_LO_BIN;
    while k < LEVEL_HI_BIN
        invariant
            LEVEL_LO_BIN <= k <= LEVEL_HI_BIN,
            target.len() == N_BINS,
            current.len() == N_BINS,
            diffs.len() == k - LEVEL_LO_BIN,
            arith::deterministic::<W>() ==> forall|j: int|
                0 <= j < k - LEVEL_LO_BIN ==> #[trigger] diffs@[j] == arith::minus(
                    target@[LEVEL_LO_BIN + j],
                    current@[LEVEL_LO_BIN + j],
                ),
        decreases LEVEL_HI_BIN - k,
    {
        diffs.push(target[k].minus(current[k]));
        k = k + 1;
    }
    let bias: W = arith::sum(&diffs).over(W::count(LEVEL_HI_BIN - LEVEL_LO_BIN));
    proof {
        if arith::deterministic::<W>() {
            assert(diffs@ =~= Seq::new(
                (LEVEL_HI_BIN - LEVEL_LO_BIN) as nat,
                |k: int| arith::minus(target@[LEVEL_LO_BIN + k], current@[LEVEL_LO_BIN + k]),
            ));
            assert(bias == level_bias(target@, current@));
        }
    }
    let mut gain: Vec<W> = Vec::new();
    let mut b: usize = 0;
    while b < N_BINS
        invariant
            b <= N_BINS,
            target.len() == N_BINS,
            current.len() == N_BINS,
            gain.len() == b,
            arith::deterministic::<W>() ==> forall|j: int|
                0 <= j < b ==> #[trigger] gain@[j] == correction(
                    target@,
                    current@,
                    bias,
                    max_bin as int,
                    j,
                ),
        decreases N_BINS - b,
    {
        let mut g: W = W::whole(0);
        if LO_BIN <= b && b <= max_bin {
            g = arith::clamp(
                target[b].minus(current[b]).minus(bias),
                W::whole(-10),
                W::whole(10),
            );
            if b >= HF_BIN {
                g = g.smaller(W::whole(6));
            }
        }
        gain.push(g);
        b = b + 1;
    }
    let ghost flat = corrections(target@, current@, max_bin as int);
    proof {
        if arith::deterministic::<W>() {
            assert(gain@ =~= flat);
        }
    }
    let mut e: usize = 0;
    while e < 3
        invariant
            e <= 3,
            max_bin < N_BINS,
            gain.len() == N_BINS,
            arith::deterministic::<W>() ==> gain@ == tapered(flat, max_bin as int, e as int),
        decreases 3 - e,
    {
        let w: W = W::count(e).over(W::whole(3));
        let low: W = gain[LO_BIN + e].times(w);
        gain.set(LO_BIN + e, low);
        if max_bin >= e {
            let high: W = gain[max_bin - e].times(w);
            gain.set(max_bin - e, high);
        }
        e = e + 1;
    }
    gain
}

/// The equalizer.
pub struct ProfileEq<T: Real, W: Wide<T>> {
    /// The smoothed spectrum of the reference in decibels.
    pub target_db: Vec<W>,
    /// The last bin that is corrected.
    pub max_bin: usize,
    /// The spectrum of the output so far.
    pub out_ltas: Ltas<T, W>,
    /// The taps in use.
    pub taps: Vec<T>,
    /// The taps of the last design.
    pub goal: Vec<T>,
    /// The last samples of the input, oldest first.
    pub hist: Vec<T>,
    /// Number of voiced frames at which the next design is due.
    pub next_update: u64,
}

/// The taps that let the signal pass, delayed to the middle tap.
pub open spec fn passthrough<T: Real>() -> Seq<T> {
    Seq::new(
        TAPS as nat,
        |i: int| if i == 64 { arith::whole::<T>(1) } else { arith::whole::<T>(0) },
    )
}

/// The last bin below 95 % of half of the rate `native`.
pub open spec fn top_bin<T: Real, W: Wide<T>>(native: T) -> int {
    let nyq = arith::times(
        arith::over(arith::widened::<T, W>(native), arith::whole(2)),
        arith::fraction(95, 100),
    );
    let bin = arith::truncated(
        arith::over(arith::times(nyq, arith::count(N_FFT)), arith::count(RATE)),
    );
    if bin < N_BINS {
        bin as int
    } else {
        N_BINS - 1
    }
}

/// The taps `taps` moved by 35 % of the way to `goal`.
pub open spec fn slewed<T: Real>(taps: Seq<T>, goal: Seq<T>) -> Seq<T> {
    Seq::new(
        taps.len(),
        |i: int|
            arith::plus(
                taps[i],
                arith::times(arith::fraction(35, 100), arith::minus(goal[i], taps[i])),
            ),
    )
}

/// The smoothed curve that an accumulator shows, or silence before it has heard anything.
pub open spec fn shown<W: Real>(acc: Seq<W>, frames: nat) -> Seq<W> {
    if frames == 0 {
        Seq::new(N_BINS as nat, |k: int| arith::whole::<W>(0))
    } else {
        smoothed(decibels(acc, frames as i64))
    }
}

/// The window of the last [`TAPS`] samples before place `i + TAPS` of `data`, newest first.
pub open spec fn recent<T>(data: Seq<T>, i: int) -> Seq<T> {
    Seq::new(TAPS as nat, |j: int| data[i + TAPS - 1 - j])
}

/// What the filter `taps` makes of the samples `data` that follow its history, mixed by `wet`
/// with the samples delayed as much; without `wet` it is those samples as they are.
pub open spec fn equalized<T: Real>(taps: Seq<T>, data: Seq<T>, wet: T) -> Seq<T> {
    Seq::new(
        (data.len() - (TAPS - 1)) as nat,
        |i: int|
            if arith::below(arith::whole(0), wet) {
                arith::plus(
                    arith::times(data[i + 63], arith::minus(arith::whole(1), wet)),
                    arith::times(fir::convolved(taps, recent(data, i)), wet),
                )
            } else {
                data[i + 63]
            },
    )
}

impl<T: Real, W: Wide<T>> ProfileEq<T, W> {
    /// Whether the sizes are in order.
    pub open spec fn valid(&self) -> bool {
        &&& self.target_db.len() == N_BINS
        &&& self.max_bin < N_BINS
        &&& self.out_ltas.valid()
        &&& self.taps.len() == TAPS
        &&& self.goal.len() == TAPS
        &&& self.hist.len() == TAPS - 1
    }

    /// An equalizer towards the voice `reference_48k`, whose own rate `ref_native_rate` bounds
    /// the band of the correction.
    pub fn new<F: Transform<W>>(reference_48k: &[T], ref_native_rate: T, fft: &F) -> (eq: Self)
        requires
            fourier::keeps_length::<W, F>(*fft),
            reference_48k.len() + N_FFT <= i64::MAX,
        ensures
            eq.valid(),
            eq.out_ltas.frames == 0,
            eq.out_ltas.buf@.len() == 0,
            eq.next_update == UPDATE_FRAMES,
            eq.goal@ == eq.taps@,
            arith::deterministic::<T>() ==> eq.taps@ == passthrough::<T>(),
            arith::deterministic::<T>() ==> eq.hist@ == Seq::new(
                (TAPS - 1) as nat,
                |k: int| arith::whole::<T>(0),
            ),
            arith::deterministic::<T>() ==> eq.out_ltas.gate == arith::fraction::<T>(1, 100),
            arith::deterministic::<W>() ==> eq.out_ltas.acc@ == Seq::new(
                N_BINS as nat,
                |k: int| arith::whole::<W>(0),
            ),
            arith::deterministic::<W>() ==> eq.out_ltas.window@ == Seq::new(
                N_FFT as nat,
                |i: int| hann::<W>(i, N_FFT as int),
            ),
            arith::wide_deterministic::<T, W>() ==> eq.max_bin == top_bin::<T, W>(
                ref_native_rate,
            ),
            arith::wide_deterministic::<T, W>() && fourier::functional::<W, F>(*fft) ==> ({
                let sound = heard::<T, W, F>(
                    Seq::new(N_BINS as nat, |k: int| arith::whole::<W>(0)),
                    0,
                    arith::fraction::<T>(1, 100),
                    Seq::new(N_FFT as nat, |i: int| hann::<W>(i, N_FFT as int)),
                    *fft,
                    reference_48k@,
                );
                eq.target_db@ == shown(sound.0, sound.1)
            }),
    {
        let mut heard_ref: Ltas<T, W> = Ltas::new(T::fraction(1, 100));
        assert(heard_ref.buf@ + reference_48k@ =~= reference_48k@);
        heard_ref.feed(reference_48k, fft);
        let target_db: Vec<W> = match heard_ref.db() {
            Some(d) => smooth_third_octave(&d),
            None => filled(W::whole(0), N_BINS),
        };
        proof {
            if arith::deterministic::<W>() && heard_ref.frames == 0 {
                assert(target_db@ =~= Seq::new(N_BINS as nat, |k: int| arith::whole::<W>(0)));
            }
        }
        let nyq: W = W::widened(ref_native_rate).over(W::whole(2)).times(W::fraction(95, 100));
        let bin: usize = nyq.times(W::count(N_FFT)).over(W::count(RATE)).truncated();
        let max_bin: usize = if bin < N_BINS { bin } else { N_BINS - 1 };
        let mut taps: Vec<T> = filled(T::whole(0), TAPS);
        taps.set(64, T::whole(1));
        let goal: Vec<T> = copied(taps.as_slice());
        let hist: Vec<T> = filled(T::whole(0), TAPS - 1);
        proof {
            if arith::deterministic::<T>() {
                assert(taps@ =~= passthrough::<T>());
                assert(hist@ =~= Seq::new((TAPS - 1) as nat, |k: int| arith::whole::<T>(0)));
            }
        }
        ProfileEq {
            target_db,
            max_bin,
            out_ltas: Ltas::new(T::fraction(1, 100)),
            taps,
            goal,
            hist,
            next_update: UPDATE_FRAMES,
        }
    }

    /// The delay of the filter in samples.
    pub fn latency(&self) -> (n: usize)
        ensures
            n == TAPS / 2,
    {
        TAPS / 2
    }

    /// Takes the output before the equalizer, and designs the filter anew when enough of it was
    /// voiced.
    pub fn observe<F: Transform<W>, G: Transform<W>>(&mut self, pre_eq: &[T], fft: &F, ifft: &G)
        requires
            old(self).valid(),
            fourier::keeps_length::<W, F>(*fft),
            fourier::keeps_length::<W, G>(*ifft),
            old(self).out_ltas.frames + pre_eq.len() + N_FFT + UPDATE_FRAMES <= i64::MAX,
        ensures
            final(self).valid(),
            final(self).target_db == old(self).target_db,
            final(self).max_bin == old(self).max_bin,
            final(self).hist == old(self).hist,
            final(self).out_ltas.window == old(self).out_ltas.window,
            final(self).out_ltas.gate == old(self).out_ltas.gate,
            final(self).out_ltas.buf@ == leftover(old(self).out_ltas.buf@ + pre_eq@),
            arith::wide_deterministic::<T, W>() && fourier::functional::<W, F>(*fft) ==> (
                final(self).out_ltas.acc@,
                final(self).out_ltas.frames as nat,
            ) == heard::<T, W, F>(
                old(self).out_ltas.acc@,
                old(self).out_ltas.frames as nat,
                old(self).out_ltas.gate,
                old(self).out_ltas.window@,
                *fft,
                old(self).out_ltas.buf@ + pre_eq@,
            ),
            final(self).out_ltas.frames < old(self).next_update ==> {
                &&& final(self).taps == old(self).taps
                &&& final(self).goal == old(self).goal
                &&& final(self).next_update == old(self).next_update
            },
            final(self).out_ltas.frames >= old(self).next_update ==> final(self).next_update
                == final(self).out_ltas.frames + UPDATE_FRAMES,
            final(self).out_ltas.frames >= old(self).next_update && final(self).out_ltas.frames
                == 0 ==> {
                &&& final(self).taps == old(self).taps
                &&& final(self).goal == old(self).goal
            },
            final(self).out_ltas.frames >= old(self).next_update && final(self).out_ltas.frames > 0
                && arith::wide_deterministic::<T, W>() && fourier::functional::<W, G>(*ifft) ==> {
                let current = smoothed(
                    decibels(final(self).out_ltas.acc@, final(self).out_ltas.frames as i64),
                );
                let gain = tapered(
                    corrections(
                        old(self).target_db@,
                        current,
                        old(self).max_bin as int,
                    ),
                    old(self).max_bin as int,
                    3,
                );
                &&& final(self).goal@ == designed::<T, W, G>(gain, *ifft)
                &&& final(self).taps@ == slewed(old(self).taps@, final(self).goal@)
            },
    {
        self.out_ltas.feed(pre_eq, fft);
        if self.out_ltas.frames() < self.next_update {
            return ;
        }
        self.next_update = self.out_ltas.frames() + UPDATE_FRAMES;
        match self.out_ltas.db() {
            None => {},
            Some(d) => {
                let current: Vec<W> = smooth_third_octave(&d);
                let gain: Vec<W> = gain_curve(&self.target_db, &current, self.max_bin);
                self.goal = design_fir(&gain, ifft);
                let ghost before = self.taps@;
                let ghost ltas = self.out_ltas;
                let ghost goal = self.goal@;
                let mut i: usize = 0;
                while i < TAPS
                    invariant
                        i <= TAPS,
                        before.len() == TAPS,
                        self.valid(),
                        self.target_db == old(self).target_db,
                        self.max_bin == old(self).max_bin,
                        self.hist == old(self).hist,
                        self.next_update == self.out_ltas.frames + UPDATE_FRAMES,
                        self.out_ltas == ltas,
                        self.goal@ == goal,
                        forall|j: int| i <= j < TAPS ==> self.taps@[j] == before[j],
                        arith::deterministic::<T>() ==> forall|j: int|
                            0 <= j < i ==> #[trigger] self.taps@[j] == slewed(
                                before,
                                self.goal@,
                            )[j],
                    decreases TAPS - i,
                {
                    let t: T = self.taps[i].plus(
                        T::fraction(35, 100).times(self.goal[i].minus(self.taps[i])),
                    );
                    self.taps.set(i, t);
                    i = i + 1;
                }
                proof {
                    if arith::deterministic::<T>() {
                        assert(self.taps@ =~= slewed(before, self.goal@));
                    }
                }
            },
        }
    }

    /// Equalizes a chunk in place, mixed by `wet` from 0 to 1. At 0 the signal passes as it is;
    /// the delay stays the same.
    pub fn process(&mut self, chunk: &mut [T], wet: T)
        requires
            old(self).valid(),
            old(chunk).len() + TAPS <= usize::MAX,
        ensures
            final(self).valid(),
            final(self).taps == old(self).taps,
            final(self).goal == old(self).goal,
            final(self).target_db == old(self).target_db,
            final(self).max_bin == old(self).max_bin,
            final(self).out_ltas == old(self).out_ltas,
            final(self).next_update == old(self).next_update,
            final(chunk).len() == old(chunk).len(),
            final(self).hist@ == (old(self).hist@ + old(chunk)@).skip(old(chunk).len() as int),
            arith::deterministic::<T>() ==> final(chunk)@ == equalized(
                old(self).taps@,
                old(self).hist@ + old(chunk)@,
                wet,
            ),
    {
        let mut input: Vec<T> = copied(self.hist.as_slice());
        append(&mut input, &*chunk);
        let ghost data = input@;
        let n: usize = chunk.len();
        let mixed: bool = T::whole(0).below(wet);
        let mut i: usize = 0;
        while i < n
            invariant
                i <= n == chunk.len(),
                n + TAPS <= usize::MAX,
                *self == *old(self),
                self.valid(),
                input@ == data,
                data.len() == n + TAPS - 1,
                arith::deterministic::<T>() ==> mixed == arith::below(arith::whole(0), wet),
                arith::deterministic::<T>() ==> forall|j: int|
                    0 <= j < i ==> #[trigger] chunk@[j] == equalized(self.taps@, data, wet)[j],
            decreases n - i,
        {
            let delayed: T = input[i + 63];
            if mixed {
                let acc: T = filter_at(&self.taps, &input, i);
                chunk[i] = delayed.times(T::whole(1).minus(wet)).plus(acc.times(wet));
            } else {
                chunk[i] = delayed;
            }
            i = i + 1;
        }
        self.hist = part(input.as_slice(), n, input.len());
        proof {
            assert(self.hist@ =~= data.skip(n as int));
            if arith::deterministic::<T>() {
                assert(chunk@ =~= equalized(old(self).taps@, data, wet));
            }
        }
    }
}

/// The output of the filter `taps` for the last [`TAPS`] samples before place `i + TAPS`.
fn filter_at<T: Real>(taps: &Vec<T>, input: &Vec<T>, i: usize) -> (acc: T)
    requires
        taps.len() == TAPS,
        i + TAPS <= input.len(),
    ensures
        arith::deterministic::<T>() ==> acc == fir::convolved(taps@, recent(input@, i as int)),
{
    let mut acc: T = T::whole(0);
    let mut j: usize = 0;
    assert(taps@.take(0) =~= Seq::empty());
    while j < TAPS
        invariant
            j <= TAPS,
            taps.len() == TAPS,
            i + TAPS <= input.len(),
            arith::deterministic::<T>() ==> acc == fir::convolved(
                taps@.take(j as int),
                recent(input@, i as int),
            ),
        decreases TAPS - j,
    {
        acc = acc.plus(taps[j].times(input[i + TAPS - 1 - j]));
        assert(taps@.take(j + 1).drop_last() =~= taps@.take(j as int));
        j = j + 1;
    }
    assert(taps@.take(TAPS as int) =~= taps@);
    acc
}

/// Without `wet` the equalizer is a delay of [`TAPS`] `/ 2` samples: each sample comes out as it
/// went in that many samples before.
pub proof fn law_bypass_is_a_delay<T: Real>(taps: Seq<T>, hist: Seq<T>, xs: Seq<T>, wet: T)
    requires
        hist.len() == TAPS - 1,
        !arith::below(arith::whole(0), wet),
    ensures
        forall|i: int|
            0 <= i && i + TAPS / 2 < xs.len() ==> #[trigger] equalized(taps, hist + xs, wet)[i
                + TAPS / 2] == xs[i],
{
}

/// To equalize a stream in two portions gives what it gives in one.
pub proof fn law_equalizing_in_chunks<T: Real>(
    taps: Seq<T>,
    hist: Seq<T>,
    a: Seq<T>,
    b: Seq<T>,
    wet: T,
)
    requires
        hist.len() == TAPS - 1,
    ensures
        ({
            let kept = (hist + a).skip(a.len() as int);
            &&& equalized(taps, hist + (a + b), wet) == equalized(taps, hist + a, wet)
                + equalized(taps, kept + b, wet)
            &&& (hist + (a + b)).skip((a + b).len() as int) == (kept + b).skip(b.len() as int)
        }),
{
    let kept = (hist + a).skip(a.len() as int);
    let whole = equalized(taps, hist + (a + b), wet);
    let parts = equalized(taps, hist + a, wet) + equalized(taps, kept + b, wet);
    assert forall|i: int| 0 <= i < whole.len() implies #[trigger] whole[i] == parts[i] by {
        if i < a.len() {
            assert(recent(hist + (a + b), i) =~= recent(hist + a, i));
        } else {
            assert(recent(hist + (a + b), i) =~= recent(kept + b, i - a.len()));
        }
    }
    assert(whole =~= parts);
    assert((hist + (a + b)).skip((a + b).len() as int) =~= (kept + b).skip(b.len() as int));
}

/// The output of the equalizer is a blend of the sample that came 64 samples before and of what
/// the filter makes of the signal: where the two are equal the output is what both are, whatever
/// the amount, at the full amount it is the filtered sample, and between it lies between the two.
pub proof fn law_wet_blends_dry_and_filtered<T: Real>(
    taps: Seq<T>,
    hist: Seq<T>,
    xs: Seq<T>,
    wet: T,
    i: int,
)
    requires
        arith::neutral::<T>(),
        arith::blends::<T>(),
        arith::blends_between::<T>(),
        arith::is_share(wet),
        arith::below(arith::whole(0), wet),
        taps.len() == TAPS,
        hist.len() == TAPS - 1,
        TAPS / 2 <= i < xs.len(),
    ensures
        ({
            let out = equalized(taps, hist + xs, wet)[i];
            let dry = xs[i - TAPS / 2];
            let filtered = fir::convolved(taps, recent(hist + xs, i));
            &&& filtered == dry ==> out == dry
            &&& wet == arith::whole::<T>(1) ==> out == filtered
            &&& arith::at_most(dry, filtered) ==> arith::at_most(dry, out) && arith::at_most(
                out,
                filtered,
            )
            &&& arith::at_most(filtered, dry) ==> arith::at_most(filtered, out) && arith::at_most(
                out,
                dry,
            )
        }),
{
    let data = hist + xs;
    let dry = xs[i - TAPS / 2];
    let filtered = fir::convolved(taps, recent(data, i));
    assert(data[i + 63] == dry);
    assert(equalized(taps, data, wet)[i] == arith::plus(
        arith::times(dry, arith::minus(arith::whole(1), wet)),
        arith::times(filtered, wet),
    ));
    if arith::at_most(dry, filtered) {
        let a = arith::times(dry, arith::minus(arith::whole(1), wet));
        let b = arith::times(filtered, wet);
    }
    if arith::at_most(filtered, dry) {
        let a = arith::times(filtered, arith::minus(arith::whole(1), wet));
        let b = arith::times(dry, wet);
    }
    if filtered == dry {
        let a = arith::times(dry, arith::minus(arith::whole(1), wet));
        let b = arith::times(dry, wet);
    }
}

/// The filter answers a single sample with its taps, the first one at once and each next one a
/// sample later.
pub proof fn law_filter_answers_with_its_taps<T: Real>(
    taps: Seq<T>,
    data: Seq<T>,
    at: int,
    i: int,
)
    requires
        arith::neutral::<T>(),
        arith::below(arith::whole::<T>(0), arith::whole(1)),
        taps.len() == TAPS,
        data.len() >= TAPS,
        0 <= at < data.len(),
        forall|k: int|
            0 <= k < data.len() && k != at ==> #[trigger] data[k] == arith::whole::<T>(0),
        0 <= i < data.len() - (TAPS - 1),
        i <= at < i + TAPS,
    ensures
        equalized(taps, data, arith::whole(1))[i] == arith::times(
            taps[i + TAPS - 1 - at],
            data[at],
        ),
{
    let j = i + TAPS - 1 - at;
    let x = recent(data, i);
    assert forall|k: int| 0 <= k < taps.len() && k != j implies #[trigger] x[k]
        == arith::whole::<T>(0) by {
        assert(data[i + TAPS - 1 - k] == arith::whole::<T>(0));
    }
    fir::law_each_sample_has_its_coefficient(taps, x, j);
}

/// An equalizer that has learned nothing yet is a delay, whatever the amount.
pub proof fn law_fresh_equalizer_is_a_delay<T: Real>(
    hist: Seq<T>,
    xs: Seq<T>,
    wet: T,
    i: int,
)
    requires
        arith::neutral::<T>(),
        arith::blends::<T>(),
        hist.len() == TAPS - 1,
        TAPS / 2 <= i < xs.len(),
    ensures
        equalized(passthrough::<T>(), hist + xs, wet)[i] == xs[i - TAPS / 2],
{
    let data = hist + xs;
    let x = recent(data, i);
    let taps = passthrough::<T>();
    lemma_single_tap(taps, x, 64);
    assert(x[64] == xs[i - 64]);
    assert(data[i + 63] == xs[i - 64]);
    let dry = xs[i - 64];
    let a = arith::times(dry, arith::minus(arith::whole(1), wet));
    let b = arith::times(dry, wet);
    assert(arith::plus(a, b) == dry);
}

/// A filter with one tap gives the sample at that tap.
proof fn lemma_single_tap<T: Real>(c: Seq<T>, x: Seq<T>, k: int)
    requires
        arith::neutral::<T>(),
        0 <= k,
        c.len() <= x.len(),
        forall|j: int|
            0 <= j < c.len() ==> #[trigger] c[j] == (if j == k {
                arith::whole::<T>(1)
            } else {
                arith::whole::<T>(0)
            }),
    ensures
        fir::convolved(c, x) == (if k < c.len() {
            x[k]
        } else {
            arith::whole::<T>(0)
        }),
    decreases c.len(),
{
    if c.len() > 0 {
        let front = c.drop_last();
        assert forall|j: int| 0 <= j < front.len() implies #[trigger] front[j] == (if j == k {
            arith::whole::<T>(1)
        } else {
            arith::whole::<T>(0)
        }) by {
            assert(front[j] == c[j]);
        }
        lemma_single_tap(front, x, k);
        assert(c[c.len() - 1] == c.last());
    }
}

/// Silent samples add nothing to an output sample.
proof fn lemma_silence_blends_to_nothing<T: Real, W: Wide<T>>(
    input: Seq<T>,
    cutoff: W,
    pos: W,
    lo: int,
    hi: int,
    from: int,
)
    requires
        arith::neutral::<W>(),
        arith::widened::<T, W>(arith::whole(0)) == arith::whole::<W>(0),
        0 <= lo <= from <= hi <= input.len(),
        forall|k: int| from <= k < hi ==> #[trigger] input[k] == arith::whole::<T>(0),
    ensures
        blended::<T, W>(input, cutoff, pos, lo, hi) == blended::<T, W>(
            input,
            cutoff,
            pos,
            lo,
            from,
        ),
    decreases hi - from,
{
    if from < hi {
        assert(input[hi - 1] == arith::whole::<T>(0));
        lemma_silence_blends_to_nothing::<T, W>(input, cutoff, pos, lo, hi - 1, from);
    }
}

/// An output sample of a conversion stands at its instant: of an input that is silent but at place
/// `at`, the output sample `n` is that sample times a windowed sinc of its distance from the place
/// `n * down / up`, if it lies within twelve samples of it, and silence otherwise.
pub proof fn law_conversion_hears_around_its_instant<T: Real, W: Wide<T>>(
    input: Seq<T>,
    cutoff: W,
    up: usize,
    down: usize,
    n: int,
    at: int,
)
    requires
        arith::neutral::<W>(),
        arith::widened::<T, W>(arith::whole(0)) == arith::whole::<W>(0),
        0 <= n <= usize::MAX,
        0 <= at < input.len(),
        input.len() <= i64::MAX,
        forall|k: int|
            0 <= k < input.len() && k != at ==> #[trigger] input[k] == arith::whole::<T>(0),
    ensures
        ({
            let pos = arith::over(
                arith::times(arith::count::<W>(n as usize), arith::count(down)),
                arith::count(up),
            );
            let t = arith::minus(arith::count::<W>(at as usize), pos);
            let near = arith::ceiling(arith::minus(pos, arith::whole(12))) <= at <= arith::floor(
                arith::plus(pos, arith::whole(12)),
            );
            let sinc = if arith::at_most(t, arith::whole(0)) && arith::at_most(
                arith::whole(0),
                t,
            ) {
                cutoff
            } else {
                arith::over(
                    arith::sine(arith::times(arith::times(arith::pi(), cutoff), t)),
                    arith::times(arith::pi(), t),
                )
            };
            let hann = arith::plus(
                arith::fraction(1, 2),
                arith::times(
                    arith::fraction(1, 2),
                    arith::cosine(arith::over(arith::times(arith::pi(), t), arith::whole(12))),
                ),
            );
            resampled::<T, W>(input, cutoff, up, down, n) == arith::narrowed::<T, W>(
                if near {
                    arith::times(
                        arith::times(arith::widened::<T, W>(input[at]), sinc),
                        hann,
                    )
                } else {
                    arith::whole(0)
                },
            )
        }),
{
    let pos = instant::<W>(n, up, down);
    let lo = first_tap(pos);
    let hi = last_tap(pos, input.len() as int);
    if lo < hi {
        if lo <= at < hi {
            lemma_silence_blends_to_nothing::<T, W>(input, cutoff, pos, lo, hi, at + 1);
            lemma_silence_blends_to_nothing::<T, W>(input, cutoff, pos, lo, at, lo);
        } else {
            lemma_silence_blends_to_nothing::<T, W>(input, cutoff, pos, lo, hi, lo);
        }
    }
}

/// A conversion keeps 95 % of the narrower band: that of the input where the rate rises, and that
/// of the output where it falls.
pub proof fn law_conversion_keeps_the_narrower_band<W: Real>(from: usize, to: usize)
    requires
        arith::neutral::<W>(),
    ensures
        ({
            let ratio = arith::over(arith::count::<W>(to), arith::count(from));
            let one = arith::whole::<W>(1);
            &&& arith::smaller(ratio, one) == one ==> passband::<W>(from, to) == arith::fraction::<
                W,
            >(95, 100)
            &&& arith::smaller(ratio, one) == ratio ==> passband::<W>(from, to) == arith::times(
                arith::fraction::<W>(95, 100),
                ratio,
            )
        }),
{
}

/// The window is zero where the cosine is one, at both of its ends, and one where the cosine is
/// less one, in its middle; a place and the one as far from the other end are alike wherever the
/// cosine is.
pub proof fn law_window_rises_and_falls<W: Real>(i: int, n: int)
    requires
        arith::neutral::<W>(),
        0 <= i < n <= usize::MAX,
        arith::minus(arith::fraction::<W>(1, 2), arith::fraction(1, 2)) == arith::whole::<W>(0),
        arith::minus(
            arith::fraction::<W>(1, 2),
            arith::times(arith::fraction(1, 2), arith::whole((-1) as i64)),
        ) == arith::whole::<W>(1),
    ensures
        ({
            let turn = |k: int|
                arith::cosine(
                    arith::over(
                        arith::times(
                            arith::times(arith::whole::<W>(2), arith::pi()),
                            arith::count(k as usize),
                        ),
                        arith::count((n - 1) as usize),
                    ),
                );
            &&& turn(i) == arith::whole::<W>(1) ==> hann::<W>(i, n) == arith::whole::<W>(0)
            &&& turn(i) == arith::whole::<W>((-1) as i64) ==> hann::<W>(i, n) == arith::whole::<W>(
                1,
            )
            &&& turn(n - 1 - i) == turn(i) ==> hann::<W>(n - 1 - i, n) == hann::<W>(i, n)
        }),
{
}

/// The level of a frame is its root mean square: that of a frame with one sample in silence is the
/// root of that sample's square shared out among all, wherever it stands.
pub proof fn law_level_is_the_root_mean_square<T: Real>(frame: Seq<T>, k: int)
    requires
        arith::neutral::<T>(),
        0 <= k < frame.len() <= usize::MAX,
        forall|i: int|
            0 <= i < frame.len() && i != k ==> #[trigger] frame[i] == arith::whole::<T>(0),
    ensures
        level(frame) == arith::root(
            arith::over(
                arith::times(frame[k], frame[k]),
                arith::count(frame.len() as usize),
            ),
        ),
{
    let squares = Seq::new(frame.len(), |i: int| arith::times(frame[i], frame[i]));
    assert forall|i: int| 0 <= i < squares.len() && i != k implies #[trigger] squares[i]
        == arith::whole::<T>(0) by {
        assert(frame[i] == arith::whole::<T>(0));
    }
    arith::law_sum_counts_each(squares, k);
}

/// A frame goes under its window sample by sample, and has no imaginary part: where the window is
/// one the sample stays, and where it is zero nothing does.
pub proof fn law_frame_goes_under_its_window<T: Real, W: Wide<T>>(
    frame: Seq<T>,
    window: Seq<W>,
    i: int,
)
    requires
        arith::neutral::<W>(),
        0 <= i < frame.len(),
        window.len() == frame.len(),
    ensures
        ({
            let x = windowed::<T, W>(frame, window);
            &&& x.len() == frame.len()
            &&& x[i].im == arith::whole::<W>(0)
            &&& window[i] == arith::whole::<W>(1) ==> x[i].re == arith::widened::<T, W>(frame[i])
            &&& window[i] == arith::whole::<W>(0) ==> x[i].re == arith::whole::<W>(0)
            &&& arith::widened::<T, W>(frame[i]) == arith::whole::<W>(1) ==> x[i].re == window[i]
        }),
{
}

/// What is heard adds up bin by bin: a loud frame alone counts once and adds to each bin what it
/// would leave there had nothing been heard before, and a frame that is too quiet leaves
/// everything as it was.
pub proof fn law_each_loud_frame_counts_once<T: Real, W: Wide<T>, F: Transform<W>>(
    acc: Seq<W>,
    frames: nat,
    gate: T,
    window: Seq<W>,
    fft: F,
    frame: Seq<T>,
    k: int,
)
    requires
        arith::neutral::<W>(),
        frame.len() == N_FFT,
        0 <= k < acc.len(),
    ensures
        ({
            let nothing = Seq::new(acc.len(), |j: int| arith::whole::<W>(0));
            let (sum, count) = heard::<T, W, F>(acc, frames, gate, window, fft, frame);
            let alone = heard::<T, W, F>(nothing, 0, gate, window, fft, frame).0;
            let loud = !arith::below(level(frame), gate);
            let bin = fourier::spectrum::<W, F>(fft, windowed::<T, W>(frame, window))[k];
            &&& sum.len() == acc.len()
            &&& loud ==> count == frames + 1
            &&& loud ==> sum[k] == arith::plus(acc[k], alone[k])
            &&& loud && bin.im == arith::whole::<W>(0) ==> alone[k] == arith::times(bin.re, bin.re)
            &&& loud && bin.re == arith::whole::<W>(0) ==> alone[k] == arith::times(bin.im, bin.im)
            &&& !loud ==> sum == acc && count == frames
        }),
{
    let nothing = Seq::new(acc.len(), |j: int| arith::whole::<W>(0));
    assert(frame.take(N_FFT as int) =~= frame);
    assert(frame.skip(N_FFT as int).len() == 0);
    reveal_with_fuel(heard, 2);
}

/// What is left over is the end of the samples, less than a frame of it.
pub proof fn law_leftover_is_the_end<T>(data: Seq<T>)
    ensures
        leftover(data).len() == data.len() % 1024,
        leftover(data) == data.skip(data.len() - data.len() % 1024),
    decreases data.len(),
{
    if data.len() < N_FFT {
        assert(data.skip(0) =~= data);
    } else {
        let rest = data.skip(N_FFT as int);
        law_leftover_is_the_end(rest);
        assert(rest.len() % 1024 == data.len() % 1024);
        assert(rest.skip(rest.len() - rest.len() % 1024) =~= data.skip(
            data.len() - data.len() % 1024,
        ));
    }
}

/// Decibels are ten times the decimal logarithm of the mean: as many spectra as were added up
/// count as one that is their mean, and where the logarithm of a bin is one it has 10 dB.
pub proof fn law_decibels_are_of_the_mean<W: Real>(acc: Seq<W>, n: i64, mean: Seq<W>, k: int)
    requires
        arith::neutral::<W>(),
        acc.len() == mean.len(),
        0 <= k < acc.len(),
        arith::over(acc[k], arith::whole(n)) == mean[k],
    ensures
        decibels(acc, n).len() == acc.len(),
        decibels(acc, n)[k] == decibels(mean, 1)[k],
        arith::decimal_logarithm(
            arith::plus(mean[k], arith::fraction(1, 1_000_000_000_000_000_000)),
        ) == arith::whole::<W>(1) ==> decibels(acc, n)[k] == arith::whole::<W>(10),
{
}

/// Smoothing shares each bin out over the third of an octave around it: of a curve that is zero
/// but at bin `j`, the bin `k` gets that value divided by the number of bins in the third of an
/// octave around `k`, if `j` is one of these, and nothing otherwise.
pub proof fn law_smoothing_is_over_a_third_of_an_octave<W: Real>(db: Seq<W>, j: int, k: int)
    requires
        arith::neutral::<W>(),
        forall|n: usize|
            #[trigger] arith::over(arith::whole::<W>(0), arith::count(n)) == arith::whole::<W>(0),
        0 <= j < db.len() <= i64::MAX,
        1 <= k < db.len(),
        db.len() <= usize::MAX,
        forall|i: int| 0 <= i < db.len() && i != j ==> #[trigger] db[i] == arith::whole::<W>(0),
    ensures
        ({
            let f = arith::over(
                arith::times(arith::count::<W>(k as usize), arith::count(48_000)),
                arith::count(1_024),
            );
            let half = arith::times(
                f,
                arith::minus(
                    arith::power(arith::whole(2), arith::over(arith::whole(1), arith::whole(6))),
                    arith::whole(1),
                ),
            );
            let bin = |x: W| arith::over(arith::times(x, arith::count(1_024)), arith::count(48_000));
            let lo = arith::floor(bin(arith::minus(f, half)));
            let hi = arith::ceiling(bin(arith::plus(f, half)));
            &&& smoothed(db).len() == db.len()
            &&& 0 <= lo <= hi < db.len() ==> smoothed(db)[k] == (if lo <= j <= hi {
                arith::over(db[j], arith::count((hi + 1 - lo) as usize))
            } else {
                arith::whole::<W>(0)
            })
            &&& lo < 0 <= hi < db.len() ==> smoothed(db)[k] == (if j <= hi {
                arith::over(db[j], arith::count((hi + 1) as usize))
            } else {
                arith::whole::<W>(0)
            })
            &&& 0 <= lo < db.len() <= hi ==> smoothed(db)[k] == (if lo <= j {
                arith::over(db[j], arith::count((db.len() - lo) as usize))
            } else {
                arith::whole::<W>(0)
            })
        }),
{
    let lo = band_start::<W>(k, db.len() as int);
    let hi = band_stop::<W>(k, db.len() as int);
    let part = db.subrange(lo, hi + 1);
    if lo <= j <= hi {
        assert forall|i: int| 0 <= i < part.len() && i != j - lo implies #[trigger] part[i]
            == arith::whole::<W>(0) by {
            assert(db[lo + i] == arith::whole::<W>(0));
        }
        arith::law_sum_counts_each(part, j - lo);
    } else {
        assert forall|i: int| 0 <= i < part.len() implies #[trigger] part[i] == arith::whole::<W>(
            0,
        ) by {
            assert(db[lo + i] == arith::whole::<W>(0));
        }
        arith::lemma_zeros_sum_to_zero(part);
    }
}

/// A filter is designed from a spectrum that is real and mirrors itself, bin `n` in bin
/// `1024 - n`; a bin of 0 dB has the gain one and a bin of 20 dB the gain ten.
pub proof fn law_design_spectrum_mirrors_itself<W: Real>(gain_db: Seq<W>, n: int)
    requires
        gain_db.len() == N_BINS,
        0 < n < 1024,
        arith::over(arith::whole::<W>(0), arith::whole(20)) == arith::whole::<W>(0),
        arith::over(arith::whole::<W>(20), arith::whole(20)) == arith::whole::<W>(1),
        arith::power(arith::whole::<W>(10), arith::whole(0)) == arith::whole::<W>(1),
        arith::power(arith::whole::<W>(10), arith::whole(1)) == arith::whole::<W>(10),
    ensures
        ({
            let s = design_spectrum(gain_db);
            &&& s.len() == 1024
            &&& s[n] == s[1024 - n]
            &&& s[n].im == arith::whole::<W>(0)
            &&& n < 513 && gain_db[n] == arith::whole::<W>(0) ==> s[n].re == arith::whole::<W>(1)
            &&& n < 513 && gain_db[n] == arith::whole::<W>(20) ==> s[n].re == arith::whole::<W>(10)
            &&& gain_db[0] == arith::whole::<W>(0) ==> s[0].re == arith::whole::<W>(1)
        }),
{
}

/// The response is turned so that its start comes to tap 64: of a response that is zero but at
/// place `r`, the tap `i` has something only if it lies `r` places on from there around the circle
/// of 1024, and then it is that value, scaled by the length of the transform, under the window.
pub proof fn law_response_is_centred<T: Real, W: Wide<T>>(
    response: Seq<Complex<W>>,
    r: int,
    i: int,
)
    requires
        arith::neutral::<W>(),
        response.len() == 1024,
        0 <= r < 1024,
        0 <= i < TAPS,
        arith::over(arith::whole::<W>(0), arith::count(1024)) == arith::whole::<W>(0),
        forall|j: int|
            0 <= j < 1024 && j != r ==> (#[trigger] response[j]).re == arith::whole::<W>(0),
    ensures
        ({
            let share = arith::over(response[r].re, arith::count(1024));
            let window = hann::<W>(i, 128);
            let hit = i == 64 + r || i == 64 + r - 1024;
            &&& !hit ==> design_tap::<T, W>(response, i) == arith::narrowed::<T, W>(
                arith::whole(0),
            )
            &&& hit && window == arith::whole::<W>(1) ==> design_tap::<T, W>(response, i)
                == arith::narrowed::<T, W>(share)
            &&& hit && share == arith::whole::<W>(1) ==> design_tap::<T, W>(response, i)
                == arith::narrowed::<T, W>(window)
        }),
{
    let n = if i < 64 {
        i - 64 + N_FFT
    } else {
        i - 64
    };
    if n != r {
        assert(response[n].re == arith::whole::<W>(0));
    }
}

/// The level is compared from bin 21 up to bin 63 and nowhere else: curves that differ in one bin
/// `j` alone have that difference, shared out among 43 bins, as their bias if it lies there, and
/// none otherwise.
pub proof fn law_level_is_compared_in_its_band<W: Real>(target: Seq<W>, current: Seq<W>, j: int)
    requires
        arith::neutral::<W>(),
        target.len() == N_BINS,
        current.len() == N_BINS,
        0 <= j < N_BINS,
        arith::over(arith::whole::<W>(0), arith::count(43)) == arith::whole::<W>(0),
        forall|k: int|
            0 <= k < N_BINS && k != j ==> arith::minus(#[trigger] target[k], current[k])
                == arith::whole::<W>(0),
    ensures
        21 <= j < 64 ==> level_bias(target, current) == arith::over(
            arith::minus(target[j], current[j]),
            arith::count(43),
        ),
        !(21 <= j < 64) ==> level_bias(target, current) == arith::whole::<W>(0),
{
    let d = Seq::new(43, |k: int| arith::minus(target[21 + k], current[21 + k]));
    assert(d =~= Seq::new(
        (LEVEL_HI_BIN - LEVEL_LO_BIN) as nat,
        |k: int| arith::minus(target[LEVEL_LO_BIN + k], current[LEVEL_LO_BIN + k]),
    ));
    if 21 <= j < 64 {
        assert forall|k: int| 0 <= k < 43 && k != j - 21 implies #[trigger] d[k] == arith::whole::<
            W,
        >(0) by {
            assert(arith::minus(target[21 + k], current[21 + k]) == arith::whole::<W>(0));
        }
        arith::law_sum_counts_each(d, j - 21);
    } else {
        assert forall|k: int| 0 <= k < 43 implies #[trigger] d[k] == arith::whole::<W>(0) by {
            assert(arith::minus(target[21 + k], current[21 + k]) == arith::whole::<W>(0));
        }
        arith::lemma_zeros_sum_to_zero(d);
    }
}

/// A correction is the difference of its own bin without the bias, held within 10 dB either way,
/// and within 6 dB up from bin 106 on; outside of the band there is none.
pub proof fn law_correction_is_limited<W: Real>(
    target: Seq<W>,
    current: Seq<W>,
    bias: W,
    max_bin: int,
    k: int,
)
    ensures
        ({
            let d = arith::minus(arith::minus(target[k], current[k]), bias);
            let c = correction(target, current, bias, max_bin, k);
            let low = arith::below(d, arith::whole((-10) as i64));
            let high = arith::below(arith::whole(10), d);
            let six = arith::whole::<W>(6);
            &&& k < 1 || k > max_bin ==> c == arith::whole::<W>(0)
            &&& 1 <= k <= max_bin && k < 106 && !low && !high ==> c == d
            &&& 1 <= k <= max_bin && k < 106 && low ==> c == arith::whole::<W>((-10) as i64)
            &&& 1 <= k <= max_bin && k < 106 && !low && high ==> c == arith::whole::<W>(10)
            &&& 106 <= k <= max_bin && !low && !high && arith::smaller(d, six) == d ==> c == d
            &&& 106 <= k <= max_bin && !low && !high && arith::smaller(d, six) == six ==> c == six
            &&& 106 <= k <= max_bin && !low && high && arith::smaller(arith::whole(10), six) == six
                ==> c == six
        }),
{
}

/// Each bin has its own correction, with the bias that is common to all.
pub proof fn law_corrections_stand_at_their_bins<W: Real>(
    target: Seq<W>,
    current: Seq<W>,
    max_bin: int,
    k: int,
)
    requires
        0 <= k < N_BINS,
    ensures
        corrections(target, current, max_bin).len() == N_BINS,
        ({
            let d = arith::minus(
                arith::minus(target[k], current[k]),
                level_bias(target, current),
            );
            1 <= k <= max_bin && k < 106 && !arith::below(d, arith::whole((-10) as i64))
                && !arith::below(arith::whole(10), d) ==> corrections(target, current, max_bin)[k]
                == d
        }),
        k > max_bin ==> corrections(target, current, max_bin)[k] == arith::whole::<W>(0),
{
}

/// The band edges are tapered over three bins: the correction is nothing at the first and the last
/// bin of the band, a third of itself one bin further in and two thirds there after that, and
/// unchanged in between and outside.
pub proof fn law_edges_are_tapered<W: Real>(gain: Seq<W>, max_bin: int, e: int, k: int)
    requires
        gain.len() == N_BINS,
        6 < max_bin < N_BINS,
        0 <= e < 3,
        0 <= k < N_BINS,
    ensures
        ({
            let g = tapered(gain, max_bin, 3);
            let w = arith::over(arith::count::<W>(e as usize), arith::whole(3));
            &&& g.len() == gain.len()
            &&& g[1 + e] == arith::times(gain[1 + e], w)
            &&& g[max_bin - e] == arith::times(gain[max_bin - e], w)
            &&& k < 1 || 3 < k < max_bin - 2 || max_bin < k ==> g[k] == gain[k]
        }),
{
    reveal_with_fuel(tapered, 4);
    let g0 = tapered(gain, max_bin, 0);
    let g1 = tapered(gain, max_bin, 1);
    let g2 = tapered(gain, max_bin, 2);
    let g3 = tapered(gain, max_bin, 3);
}

/// The taps move 35 % of the way to their goal: at the goal they stay, and from zero they come to
/// 35 % of it.
pub proof fn law_taps_move_towards_their_goal<T: Real>(taps: Seq<T>, goal: Seq<T>, i: int)
    requires
        arith::neutral::<T>(),
        taps.len() == goal.len(),
        0 <= i < taps.len(),
        arith::minus(goal[i], goal[i]) == arith::whole::<T>(0),
    ensures
        slewed(taps, goal).len() == taps.len(),
        taps[i] == goal[i] ==> slewed(taps, goal)[i] == goal[i],
        taps[i] == arith::whole::<T>(0) ==> slewed(taps, goal)[i] == arith::times(
            arith::fraction::<T>(35, 100),
            goal[i],
        ),
        goal[i] == arith::whole::<T>(0) ==> slewed(taps, goal)[i] == arith::plus(
            taps[i],
            arith::times(
                arith::fraction::<T>(35, 100),
                arith::minus(arith::whole(0), taps[i]),
            ),
        ),
{
}

/// The last bin that is corrected is the last one not above 95 % of half of the rate, and never
/// beyond the spectrum. Truncation has to give the greatest whole number that is not above.
pub proof fn law_top_bin_is_below_half_of_the_rate<T: Real, W: Wide<T>>(native: T)
    requires
        forall|x: W|
            #![trigger arith::truncated(x)]
            arith::truncated(x) < 513 ==> arith::at_most(arith::count(arith::truncated(x)), x)
                && arith::below(x, arith::count((arith::truncated(x) + 1) as usize)),
    ensures
        ({
            let x = arith::over(
                arith::times(
                    arith::times(
                        arith::over(arith::widened::<T, W>(native), arith::whole(2)),
                        arith::fraction(95, 100),
                    ),
                    arith::count(1_024),
                ),
                arith::count(48_000),
            );
            let top = top_bin::<T, W>(native);
            &&& 0 <= top < 513
            &&& top < 512 ==> arith::at_most(arith::count(top as usize), x) && arith::below(
                x,
                arith::count((top + 1) as usize),
            )
            &&& arith::truncated(x) >= 513 ==> top == 512
        }),
{
}

/// A filter is the centred response of the inverse transform to its own spectrum, tap by tap;
/// gains that are the same give the same filter.
pub proof fn law_filter_is_of_its_gains<T: Real, W: Wide<T>, F: Transform<W>>(
    gain_db: Seq<W>,
    ifft: F,
    i: int,
)
    requires
        0 <= i < 128,
    ensures
        ({
            let response = fourier::spectrum::<W, F>(ifft, design_spectrum(gain_db));
            let n = if i < 64 { i + 960 } else { i - 64 };
            let taps = designed::<T, W, F>(gain_db, ifft);
            &&& taps.len() == 128
            &&& taps[i] == arith::narrowed::<T, W>(
                arith::times(
                    arith::over(response[n].re, arith::count(1_024)),
                    hann::<W>(i, 128),
                ),
            )
        }),
{
}

} // verus!
