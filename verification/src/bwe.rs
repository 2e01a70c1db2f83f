//! Bandwidth extension for 16 kHz output.
//!
//! - [`Upsampler3x`] brings the signal to 48 kHz with a windowed-sinc polyphase filter.
//! - [`Exciter`] adds a high band to it: band-pass 3 to 8 kHz, full-wave rectifier, steep
//!   high-pass at 8 kHz, a gain that follows the level of the source band, a soft bound.
//! - [`Limiter`] keeps the result under a threshold, with a look-ahead in place of hard clips.
//!
//! All of them are streaming: the state that a call leaves is what the next one starts from.

use vstd::prelude::*;
use std::collections::VecDeque;
use crate::arith;
use crate::arith::Real;
use crate::arith::Wide;
use crate::fir;
use crate::fir::History;

verus! {

/// Polyphase decomposition factor, 16 kHz to 48 kHz.
pub const PHASES: usize = 3;

/// Taps of each polyphase branch.
pub const TAPS_PER_PHASE: usize = 80;

/// Taps of the prototype filter.
pub const PROTO_TAPS: usize = 240;

/// The tap `n` of the prototype: a sinc with the cutoff at a sixth of the output rate under a
/// Kaiser window, times three to make up for the stuffed zeros.
pub open spec fn prototype<T: Real, W: Wide<T>>(n: int) -> T {
    let c = arith::over(arith::count::<T>(239), arith::whole(2));
    let fc = arith::over(arith::whole::<T>(1), arith::times(arith::whole(2), arith::count(3)));
    let beta = arith::fraction::<T>(896, 100);
    let t = arith::minus(arith::count(n as usize), c);
    let win = arith::over(fir::kaiser::<T, W>(beta, t, c), fir::bessel::<T, W>(beta));
    arith::times(arith::times(arith::count(3), fir::sinc(fc, t)), win)
}

/// The branch `p` of the prototype: every third tap from `p` on.
pub open spec fn branch<T: Real, W: Wide<T>>(p: int) -> Seq<T> {
    Seq::new(80, |k: int| prototype::<T, W>(3 * k + p))
}

/// What the branches `phase` make of the samples `xs` after the history `h`: three samples for
/// each, of which number `p` is the convolution of branch `p` with the history at that sample.
pub open spec fn upsampled<T: Real>(phase: Seq<Seq<T>>, h: Seq<T>, xs: Seq<T>) -> Seq<T> {
    Seq::new(
        3 * xs.len(),
        |m: int| fir::convolved(phase[m % 3], fir::pushed(h, xs.take(m / 3 + 1))),
    )
}

/// Threefold windowed-sinc polyphase upsampler.
pub struct Upsampler3x<T: Real> {
    /// The branches of the prototype.
    pub phase: Vec<Vec<T>>,
    /// The last samples of the input.
    pub hist: History<T>,
}

impl<T: Real> Upsampler3x<T> {
    /// The taps of the branches.
    pub open spec fn branches(&self) -> Seq<Seq<T>> {
        Seq::new(self.phase.len() as nat, |p: int| self.phase@[p]@)
    }

    /// Whether there are three branches of 80 taps, and a history as long as they are.
    pub open spec fn valid(&self) -> bool {
        &&& self.phase.len() == 3
        &&& forall|p: int| 0 <= p < 3 ==> (#[trigger] self.phase@[p]).len() == 80
        &&& self.hist.valid()
        &&& self.hist@.len() == 80
    }

    /// An upsampler that has heard nothing yet. The window is computed in `W`.
    pub fn new<W: Wide<T>>() -> (u: Self)
        ensures
            u.valid(),
            arith::deterministic::<T>() ==> u.hist@ == Seq::new(
                80,
                |k: int| arith::whole::<T>(0),
            ),
            arith::wide_deterministic::<T, W>() ==> forall|p: int|
                0 <= p < 3 ==> #[trigger] u.branches()[p] == branch::<T, W>(p),
    {
        let c: T = T::count(239).over(T::whole(2));
        let fc: T = T::whole(1).over(T::whole(2).times(T::count(3)));
        let beta: T = T::fraction(896, 100);
        let i0b: T = fir::bessel_i0::<T, W>(beta);
        let mut phase: Vec<Vec<T>> = Vec::new();
        let mut p: usize = 0;
        while p < 3
            invariant
                p <= 3,
                phase.len() == p,
                forall|q: int| 0 <= q < p ==> (#[trigger] phase@[q]).len() == 80,
                arith::wide_deterministic::<T, W>() ==> {
                    &&& c == arith::over(arith::count::<T>(239), arith::whole(2))
                    &&& fc == arith::over(
                        arith::whole::<T>(1),
                        arith::times(arith::whole(2), arith::count(3)),
                    )
                    &&& beta == arith::fraction::<T>(896, 100)
                    &&& i0b == fir::bessel::<T, W>(beta)
                },
                arith::wide_deterministic::<T, W>() ==> forall|q: int|
                    0 <= q < p ==> (#[trigger] phase@[q])@ == branch::<T, W>(q),
            decreases 3 - p,
        {
            let mut taps: Vec<T> = Vec::new();
            let mut k: usize = 0;
            while k < 80
                invariant
                    p < 3,
                    k <= 80,
                    taps.len() == k,
                    arith::wide_deterministic::<T, W>() ==> {
                        &&& c == arith::over(arith::count::<T>(239), arith::whole(2))
                        &&& fc == arith::over(
                            arith::whole::<T>(1),
                            arith::times(arith::whole(2), arith::count(3)),
                        )
                        &&& beta == arith::fraction::<T>(896, 100)
                        &&& i0b == fir::bessel::<T, W>(beta)
                    },
                    arith::wide_deterministic::<T, W>() ==> forall|j: int|
                        0 <= j < k ==> #[trigger] taps@[j] == prototype::<T, W>(3 * j + p),
                decreases 80 - k,
            {
                let t: T = T::count(3 * k + p).minus(c);
                let win: T = fir::kaiser_at::<T, W>(beta, t, c).over(i0b);
                let tap: T = T::count(3).times(fir::sinc_at(fc, t)).times(win);
                taps.push(tap);
                k = k + 1;
            }
            proof {
                if arith::wide_deterministic::<T, W>() {
                    assert(taps@ =~= branch::<T, W>(p as int));
                }
            }
            phase.push(taps);
            p = p + 1;
        }
        Upsampler3x { phase, hist: History::new(80) }
    }

    /// Upsamples `input` and appends three samples for each of its samples to `output`.
    pub fn process(&mut self, input: &[T], output: &mut Vec<T>)
        requires
            old(self).valid(),
        ensures
            final(self).valid(),
            final(self).branches() == old(self).branches(),
            final(self).hist@ == fir::pushed(old(self).hist@, input@),
            final(output).len() == old(output).len() + 3 * input.len(),
            final(output)@.take(old(output).len() as int) == old(output)@,
            arith::deterministic::<T>() ==> final(output)@ == old(output)@ + upsampled(
                old(self).branches(),
                old(self).hist@,
                input@,
            ),
    {
        let ghost phase = self.branches();
        let ghost h = self.hist@;
        let ghost given = output@;
        let mut n: usize = 0;
        assert(fir::pushed(h, input@.take(0)) =~= h);
        assert(given + upsampled(phase, h, input@.take(0)) =~= given);
        assert(given.take(given.len() as int) =~= given);
        while n < input.len()
            invariant
                n <= input.len(),
                self.valid(),
                self.branches() == phase,
                h.len() == 80,
                self.hist@ == fir::pushed(h, input@.take(n as int)),
                output.len() == given.len() + 3 * n,
                output@.take(given.len() as int) == given,
                arith::deterministic::<T>() ==> output@ == given + upsampled(
                    phase,
                    h,
                    input@.take(n as int),
                ),
            decreases input.len() - n,
        {
            let ghost before = output@;
            self.hist.push(input[n]);
            proof {
                fir::lemma_pushed_twice(h, input@.take(n as int), seq![input@[n as int]]);
                assert(input@.take(n as int) + seq![input@[n as int]] =~= input@.take(n + 1));
                assert(self.branches() =~= phase);
            }
            let a: T = self.hist.dot(&self.phase[0]);
            let b: T = self.hist.dot(&self.phase[1]);
            let c: T = self.hist.dot(&self.phase[2]);
            output.push(a);
            output.push(b);
            output.push(c);
            proof {
                assert(output@.take(given.len() as int) =~= before.take(given.len() as int));
                if arith::deterministic::<T>() {
                    assert(a == fir::convolved(phase[0], self.hist@));
                    assert(b == fir::convolved(phase[1], self.hist@));
                    assert(c == fir::convolved(phase[2], self.hist@));
                    let now = upsampled(phase, h, input@.take(n + 1));
                    let was = upsampled(phase, h, input@.take(n as int));
                    assert forall|m: int| 0 <= m < 3 * (n + 1) implies #[trigger] now[m] == (
                    was + seq![a, b, c])[m] by {
                        assert(input@.take(n + 1).take(m / 3 + 1) =~= input@.take(m / 3 + 1));
                        if m < 3 * n {
                            assert(input@.take(n as int).take(m / 3 + 1) =~= input@.take(
                                m / 3 + 1,
                            ));
                        }
                    }
                    assert(now =~= was + seq![a, b, c]);
                    assert(output@ =~= before + seq![a, b, c]);
                    assert(given + now =~= (given + was) + seq![a, b, c]);
                }
            }
            n = n + 1;
        }
        assert(input@.take(input.len() as int) =~= input@);
    }

    /// The delay of the upsampler in seconds: half of the prototype at the output rate.
    pub fn latency_secs(&self) -> (s: T)
        ensures
            arith::deterministic::<T>() ==> s == arith::over(
                arith::over(arith::count::<T>(239), arith::whole(2)),
                arith::whole(48_000),
            ),
    {
        T::count(239).over(T::whole(2)).over(T::whole(48_000))
    }
}

/// To upsample a stream in two portions gives what it gives in one.
pub proof fn law_upsampling_in_chunks<T: Real>(
    phase: Seq<Seq<T>>,
    h: Seq<T>,
    a: Seq<T>,
    b: Seq<T>,
)
    ensures
        upsampled(phase, h, a + b) == upsampled(phase, h, a) + upsampled(
            phase,
            fir::pushed(h, a),
            b,
        ),
        fir::pushed(h, a + b) == fir::pushed(fir::pushed(h, a), b),
{
    fir::lemma_pushed_twice(h, a, b);
    let whole = upsampled(phase, h, a + b);
    let parts = upsampled(phase, h, a) + upsampled(phase, fir::pushed(h, a), b);
    assert forall|m: int| 0 <= m < whole.len() implies #[trigger] whole[m] == parts[m] by {
        if m < 3 * a.len() {
            assert((a + b).take(m / 3 + 1) =~= a.take(m / 3 + 1));
        } else {
            let k = m - 3 * a.len();
            assert((a + b).take(m / 3 + 1) =~= a + b.take(k / 3 + 1));
            fir::lemma_pushed_twice(h, a, b.take(k / 3 + 1));
        }
    }
    assert(whole =~= parts);
}

/// The half-band angle and the sine share of a biquad for the frequency `f0` and the quality
/// `q` at the rate `fs`: the cosine of the angle and `alpha`.
pub open spec fn biquad_angle<T: Real>(fs: T, f0: T, q: T) -> (T, T) {
    let w0 = arith::over(
        arith::times(arith::times(arith::whole(2), arith::pi()), f0),
        fs,
    );
    (arith::cosine(w0), arith::over(arith::sine(w0), arith::times(arith::whole(2), q)))
}

/// Biquad filter in transposed direct form II, with its two state values.
#[derive(Clone, Copy)]
pub struct Biquad<T: Real> {
    /// Weight of the input in the output.
    pub b0: T,
    /// Weight of the input in the next state.
    pub b1: T,
    /// Weight of the input in the second state.
    pub b2: T,
    /// Weight of the output in the next state.
    pub a1: T,
    /// Weight of the output in the second state.
    pub a2: T,
    /// First state value.
    pub z1: T,
    /// Second state value.
    pub z2: T,
}

/// The high-pass for the frequency `f0` and the quality `q` at the rate `fs`.
pub open spec fn highpass<T: Real>(fs: T, f0: T, q: T) -> Biquad<T> {
    let (cos, alpha) = biquad_angle(fs, f0, q);
    let one = arith::whole::<T>(1);
    let a0 = arith::plus(one, alpha);
    let edge = arith::over(arith::over(arith::plus(one, cos), arith::whole(2)), a0);
    Biquad {
        b0: edge,
        b1: arith::over(arith::negated(arith::plus(one, cos)), a0),
        b2: edge,
        a1: arith::over(arith::times(arith::whole((-2) as i64), cos), a0),
        a2: arith::over(arith::minus(one, alpha), a0),
        z1: arith::whole(0),
        z2: arith::whole(0),
    }
}

/// The low-pass for the frequency `f0` and the quality `q` at the rate `fs`.
pub open spec fn lowpass<T: Real>(fs: T, f0: T, q: T) -> Biquad<T> {
    let (cos, alpha) = biquad_angle(fs, f0, q);
    let one = arith::whole::<T>(1);
    let a0 = arith::plus(one, alpha);
    let edge = arith::over(arith::over(arith::minus(one, cos), arith::whole(2)), a0);
    Biquad {
        b0: edge,
        b1: arith::over(arith::minus(one, cos), a0),
        b2: edge,
        a1: arith::over(arith::times(arith::whole((-2) as i64), cos), a0),
        a2: arith::over(arith::minus(one, alpha), a0),
        z1: arith::whole(0),
        z2: arith::whole(0),
    }
}

impl<T: Real> Biquad<T> {
    /// The output of the filter for the input `x`.
    pub open spec fn output(self, x: T) -> T {
        arith::plus(arith::times(self.b0, x), self.z1)
    }

    /// The filter after the input `x`.
    pub open spec fn after(self, x: T) -> Biquad<T> {
        let y = self.output(x);
        Biquad {
            z1: arith::plus(
                arith::minus(arith::times(self.b1, x), arith::times(self.a1, y)),
                self.z2,
            ),
            z2: arith::minus(arith::times(self.b2, x), arith::times(self.a2, y)),
            ..self
        }
    }

    /// High-pass at the frequency `f0` with the quality `q`, for the rate `fs`.
    pub fn highpass(fs: T, f0: T, q: T) -> (b: Self)
        ensures
            arith::deterministic::<T>() ==> b == highpass(fs, f0, q),
    {
        let w0: T = T::whole(2).times(T::pi()).times(f0).over(fs);
        let cos: T = w0.cosine();
        let alpha: T = w0.sine().over(T::whole(2).times(q));
        let one: T = T::whole(1);
        let a0: T = one.plus(alpha);
        Biquad {
            b0: one.plus(cos).over(T::whole(2)).over(a0),
            b1: one.plus(cos).negated().over(a0),
            b2: one.plus(cos).over(T::whole(2)).over(a0),
            a1: T::whole(-2).times(cos).over(a0),
            a2: one.minus(alpha).over(a0),
            z1: T::whole(0),
            z2: T::whole(0),
        }
    }

    /// Low-pass at the frequency `f0` with the quality `q`, for the rate `fs`.
    pub fn lowpass(fs: T, f0: T, q: T) -> (b: Self)
        ensures
            arith::deterministic::<T>() ==> b == lowpass(fs, f0, q),
    {
        let w0: T = T::whole(2).times(T::pi()).times(f0).over(fs);
        let cos: T = w0.cosine();
        let alpha: T = w0.sine().over(T::whole(2).times(q));
        let one: T = T::whole(1);
        let a0: T = one.plus(alpha);
        Biquad {
            b0: one.minus(cos).over(T::whole(2)).over(a0),
            b1: one.minus(cos).over(a0),
            b2: one.minus(cos).over(T::whole(2)).over(a0),
            a1: T::whole(-2).times(cos).over(a0),
            a2: one.minus(alpha).over(a0),
            z1: T::whole(0),
            z2: T::whole(0),
        }
    }

    /// Filters one sample.
    pub fn tick(&mut self, x: T) -> (y: T)
        ensures
            arith::deterministic::<T>() ==> y == old(self).output(x),
            arith::deterministic::<T>() ==> *final(self) == old(self).after(x),
    {
        let y: T = self.b0.times(x).plus(self.z1);
        self.z1 = self.b1.times(x).minus(self.a1.times(y)).plus(self.z2);
        self.z2 = self.b2.times(x).minus(self.a2.times(y));
        y
    }
}

/// One-pole peak envelope follower with separate attack and release.
#[derive(Clone, Copy)]
pub struct EnvFollower<T: Real> {
    /// Share of a rise that is followed at once.
    pub attack: T,
    /// Share of a fall that is followed at once.
    pub release: T,
    /// The envelope.
    pub env: T,
}

/// The share of a step that a one-pole follower takes in one of `samples` samples.
pub open spec fn one_pole<T: Real>(samples: T) -> T {
    arith::minus(
        arith::whole(1),
        arith::exponential(arith::over(arith::whole((-1) as i64), samples)),
    )
}

/// The share of a step that a one-pole follower takes in one of `samples` samples.
fn one_pole_share<T: Real>(samples: T) -> (r: T)
    ensures
        arith::deterministic::<T>() ==> r == one_pole(samples),
{
    T::whole(1).minus(T::whole(-1).over(samples).exponential())
}

/// The value that has moved from `from` by the share `coef` of the way to `to`.
pub open spec fn towards<T: Real>(from: T, to: T, coef: T) -> T {
    arith::plus(from, arith::times(coef, arith::minus(to, from)))
}

impl<T: Real> EnvFollower<T> {
    /// The follower after the input `x`.
    pub open spec fn after(self, x: T) -> EnvFollower<T> {
        let a = arith::absolute(x);
        let coef = if arith::below(self.env, a) { self.attack } else { self.release };
        EnvFollower { env: towards(self.env, a, coef), ..self }
    }

    /// A follower at rest, for the rate `fs` and the given times in seconds.
    pub fn new(fs: T, attack_s: T, release_s: T) -> (e: Self)
        ensures
            arith::deterministic::<T>() ==> e == (EnvFollower {
                attack: one_pole(arith::times(fs, attack_s)),
                release: one_pole(arith::times(fs, release_s)),
                env: arith::whole(0),
            }),
    {
        EnvFollower {
            attack: one_pole_share(fs.times(attack_s)),
            release: one_pole_share(fs.times(release_s)),
            env: T::whole(0),
        }
    }

    /// Takes one sample and returns the envelope.
    pub fn tick(&mut self, x: T) -> (env: T)
        ensures
            env == final(self).env,
            arith::deterministic::<T>() ==> *final(self) == old(self).after(x),
    {
        let a: T = x.absolute();
        let coef: T = if self.env.below(a) { self.attack } else { self.release };
        self.env = self.env.plus(coef.times(a.minus(self.env)));
        self.env
    }
}

/// The tap `n` of the steep high-pass: a windowed-sinc low-pass at `fc`, inverted.
pub open spec fn highpass_tap<T: Real, W: Wide<T>>(fs: T, fc: T, ntaps: int, beta: T, n: int) -> T {
    let c = arith::over(arith::count::<T>((ntaps - 1) as usize), arith::whole(2));
    let t = arith::minus(arith::count(n as usize), c);
    let low = arith::over(
        arith::times(fir::sinc(arith::over(fc, fs), t), fir::kaiser::<T, W>(beta, t, c)),
        fir::bessel::<T, W>(beta),
    );
    if n == (ntaps - 1) / 2 {
        arith::plus(arith::negated(low), arith::whole(1))
    } else {
        arith::negated(low)
    }
}

/// Steep linear-phase high-pass for the harmonic branch of the exciter.
pub struct FirHighpass<T: Real> {
    /// The taps.
    pub taps: Vec<T>,
    /// The last samples of the input.
    pub hist: History<T>,
}

impl<T: Real> FirHighpass<T> {
    /// Whether the history is as long as the filter.
    pub open spec fn valid(&self) -> bool {
        self.hist.valid() && self.hist@.len() == self.taps.len()
    }

    /// A high-pass with the transition at `fc`, for the rate `fs`. The window is computed in `W`.
    pub fn new<W: Wide<T>>(fs: T, fc: T, ntaps: usize, beta: T) -> (f: Self)
        requires
            ntaps % 2 == 1,
        ensures
            f.valid(),
            f.taps.len() == ntaps,
            arith::deterministic::<T>() ==> f.hist@ == Seq::new(
                ntaps as nat,
                |k: int| arith::whole::<T>(0),
            ),
            arith::wide_deterministic::<T, W>() ==> f.taps@ == Seq::new(
                ntaps as nat,
                |n: int| highpass_tap::<T, W>(fs, fc, ntaps as int, beta, n),
            ),
    {
        let c: T = T::count(ntaps - 1).over(T::whole(2));
        let fcn: T = fc.over(fs);
        let i0b: T = fir::bessel_i0::<T, W>(beta);
        let one: T = T::whole(1);
        let mut taps: Vec<T> = Vec::new();
        let mut n: usize = 0;
        while n < ntaps
            invariant
                n <= ntaps,
                taps.len() == n,
                arith::wide_deterministic::<T, W>() ==> {
                    &&& c == arith::over(
                        arith::count::<T>((ntaps - 1) as usize),
                        arith::whole(2),
                    )
                    &&& fcn == arith::over(fc, fs)
                    &&& i0b == fir::bessel::<T, W>(beta)
                    &&& one == arith::whole::<T>(1)
                },
                arith::wide_deterministic::<T, W>() ==> forall|j: int|
                    0 <= j < n ==> #[trigger] taps@[j] == highpass_tap::<T, W>(
                        fs,
                        fc,
                        ntaps as int,
                        beta,
                        j,
                    ),
            decreases ntaps - n,
        {
            let t: T = T::count(n).minus(c);
            let low: T = fir::sinc_at(fcn, t).times(fir::kaiser_at::<T, W>(beta, t, c)).over(i0b);
            let mut tap: T = low.negated();
            if n == (ntaps - 1) / 2 {
                tap = tap.plus(one);
            }
            taps.push(tap);
            n = n + 1;
        }
        proof {
            if arith::wide_deterministic::<T, W>() {
                assert(taps@ =~= Seq::new(
                    ntaps as nat,
                    |n: int| highpass_tap::<T, W>(fs, fc, ntaps as int, beta, n),
                ));
            }
        }
        FirHighpass { taps, hist: History::new(ntaps) }
    }

    /// Filters one sample.
    pub fn tick(&mut self, x: T) -> (y: T)
        requires
            old(self).valid(),
        ensures
            final(self).valid(),
            final(self).taps == old(self).taps,
            final(self).hist@ == fir::pushed(old(self).hist@, seq![x]),
            arith::deterministic::<T>() ==> y == fir::convolved(
                old(self).taps@,
                fir::pushed(old(self).hist@, seq![x]),
            ),
    {
        self.hist.push(x);
        self.hist.dot(&self.taps)
    }
}

/// What the exciter keeps from sample to sample.
pub struct ExciterState<T: Real> {
    /// Lower edge of the source band.
    pub band_hp: Biquad<T>,
    /// Upper edge of the source band.
    pub band_lp: Biquad<T>,
    /// Taps of the high-pass of the harmonic branch.
    pub taps: Seq<T>,
    /// Last inputs of that high-pass, newest first.
    pub hist: Seq<T>,
    /// Envelope of the source band.
    pub src_env: EnvFollower<T>,
    /// Envelope of the harmonics.
    pub harm_env: EnvFollower<T>,
    /// The gain that matches the two, smoothed.
    pub gain: T,
    /// Share of a rise of the gain that is followed at once.
    pub gain_up: T,
    /// Share of a fall of the gain that is followed at once.
    pub gain_down: T,
}

/// The synthetic sample bounded by `bound`: as it is below three quarters of the bound, bent
/// smoothly towards it above. The result is a fraction of the bound.
pub open spec fn soft_bound<T: Real>(add: T, bound: T) -> T {
    let u = arith::over(add, bound);
    let knee = arith::fraction::<T>(75, 100);
    let rest = arith::minus(arith::whole(1), knee);
    if arith::at_most(arith::absolute(u), knee) {
        u
    } else {
        arith::times(
            arith::sign(u),
            arith::plus(
                knee,
                arith::times(
                    rest,
                    arith::tangent(arith::over(arith::minus(arith::absolute(u), knee), rest)),
                ),
            ),
        )
    }
}

impl<T: Real> ExciterState<T> {
    /// The source band of the input `x`.
    pub open spec fn band(self, x: T) -> T {
        self.band_lp.output(self.band_hp.output(x))
    }

    /// The harmonics of the input `x`.
    pub open spec fn harmonic(self, x: T) -> T {
        fir::convolved(
            self.taps,
            fir::pushed(self.hist, seq![arith::absolute(self.band(x))]),
        )
    }

    /// The state after the input `x`.
    pub open spec fn after(self, x: T) -> ExciterState<T> {
        let band = self.band(x);
        let src_env = self.src_env.after(band);
        let harm_env = self.harm_env.after(self.harmonic(x));
        let guard = arith::clamped(
            arith::over(src_env.env, arith::fraction(2, 1000)),
            arith::whole(0),
            arith::whole(1),
        );
        let target = arith::times(
            arith::smaller(
                arith::over(
                    src_env.env,
                    arith::plus(harm_env.env, arith::fraction(1, 1_000_000_000)),
                ),
                arith::whole(8),
            ),
            guard,
        );
        let alpha = if arith::below(self.gain, target) { self.gain_up } else { self.gain_down };
        ExciterState {
            band_hp: self.band_hp.after(x),
            band_lp: self.band_lp.after(self.band_hp.output(x)),
            hist: fir::pushed(self.hist, seq![arith::absolute(band)]),
            src_env,
            harm_env,
            gain: towards(self.gain, target, alpha),
            ..self
        }
    }

    /// The output for the input `x` at the mix amount `wet`.
    pub open spec fn output(self, x: T, wet: T) -> T {
        if arith::below(arith::whole(0), wet) {
            let next = self.after(x);
            let add = arith::times(
                arith::times(arith::fraction(1, 2), next.gain),
                self.harmonic(x),
            );
            let bound = arith::plus(
                arith::times(arith::fraction(3, 2), next.src_env.env),
                arith::fraction(1, 1_000_000_000_000),
            );
            arith::plus(x, arith::times(arith::times(wet, bound), soft_bound(add, bound)))
        } else {
            x
        }
    }
}

/// The mix amount at sample `k` of a chunk: it moves from `wet` by `step` for each sample.
pub open spec fn ramp<T: Real>(wet: T, step: T, k: int) -> T
    decreases k,
{
    if k <= 0 {
        wet
    } else {
        arith::plus(ramp(wet, step, k - 1), step)
    }
}

/// The state after the samples `xs`.
pub open spec fn excited_state<T: Real>(st: ExciterState<T>, xs: Seq<T>) -> ExciterState<T>
    decreases xs.len(),
{
    if xs.len() == 0 {
        st
    } else {
        excited_state(st, xs.drop_last()).after(xs.last())
    }
}

/// What the exciter makes of the samples `xs` while the mix amount moves from `wet` by `step`
/// for each sample.
pub open spec fn excited<T: Real>(st: ExciterState<T>, wet: T, step: T, xs: Seq<T>) -> Seq<T> {
    Seq::new(
        xs.len(),
        |k: int| excited_state(st, xs.take(k)).output(xs[k], ramp(wet, step, k + 1)),
    )
}

/// Harmonic exciter for the band above 8 kHz.
pub struct Exciter<T: Real> {
    /// Lower edge of the source band.
    pub band_hp: Biquad<T>,
    /// Upper edge of the source band.
    pub band_lp: Biquad<T>,
    /// High-pass of the harmonic branch.
    pub harm_hp: FirHighpass<T>,
    /// Envelope of the source band.
    pub src_env: EnvFollower<T>,
    /// Envelope of the harmonics.
    pub harm_env: EnvFollower<T>,
    /// The gain that matches the two, smoothed.
    pub gain_state: T,
    /// Share of a rise of the gain that is followed at once.
    pub gain_up: T,
    /// Share of a fall of the gain that is followed at once.
    pub gain_down: T,
    /// Mix amount at the end of the last chunk.
    pub prev_wet: T,
}

/// The state of an exciter for the rate `fs` that has heard nothing yet.
pub open spec fn fresh_exciter<T: Real, W: Wide<T>>(fs: T) -> ExciterState<T> {
    let q = arith::fraction::<T>(707_106_781_186_547_524, 1_000_000_000_000_000_000);
    let env = EnvFollower {
        attack: one_pole(arith::times(fs, arith::fraction(5, 1000))),
        release: one_pole(arith::times(fs, arith::fraction(50, 1000))),
        env: arith::whole::<T>(0),
    };
    ExciterState {
        band_hp: highpass(fs, arith::whole(3_000), q),
        band_lp: lowpass(fs, arith::whole(8_000), q),
        taps: Seq::new(
            241,
            |n: int|
                highpass_tap::<T, W>(
                    fs,
                    arith::whole(8_050),
                    241,
                    arith::fraction(7_857, 1000),
                    n,
                ),
        ),
        hist: Seq::new(241, |k: int| arith::whole::<T>(0)),
        src_env: env,
        harm_env: env,
        gain: arith::whole(0),
        gain_up: one_pole(arith::times(arith::fraction(15, 1000), fs)),
        gain_down: one_pole(arith::times(arith::fraction(3, 1000), fs)),
    }
}

impl<T: Real> Exciter<T> {
    /// What the exciter keeps from sample to sample. What it keeps from block to block besides,
    /// the share of the harmonics on which the last block ended, is the field `prev_wet`.
    pub open spec fn state(&self) -> ExciterState<T> {
        ExciterState {
            band_hp: self.band_hp,
            band_lp: self.band_lp,
            taps: self.harm_hp.taps@,
            hist: self.harm_hp.hist@,
            src_env: self.src_env,
            harm_env: self.harm_env,
            gain: self.gain_state,
            gain_up: self.gain_up,
            gain_down: self.gain_down,
        }
    }

    /// Whether the filters are in order.
    pub open spec fn valid(&self) -> bool {
        self.harm_hp.valid()
    }

    /// An exciter for the rate `sample_rate`. The window of its high-pass is computed in `W`.
    pub fn new<W: Wide<T>>(sample_rate: T) -> (e: Self)
        ensures
            e.valid(),
            arith::deterministic::<T>() ==> e.prev_wet == arith::whole::<T>(0),
            arith::wide_deterministic::<T, W>() ==> e.state() == fresh_exciter::<T, W>(
                sample_rate,
            ),
    {
        let q: T = T::fraction(707_106_781_186_547_524, 1_000_000_000_000_000_000);
        Exciter {
            band_hp: Biquad::highpass(sample_rate, T::whole(3_000), q),
            band_lp: Biquad::lowpass(sample_rate, T::whole(8_000), q),
            harm_hp: FirHighpass::new::<W>(
                sample_rate,
                T::whole(8_050),
                241,
                T::fraction(7_857, 1000),
            ),
            src_env: EnvFollower::new(sample_rate, T::fraction(5, 1000), T::fraction(50, 1000)),
            harm_env: EnvFollower::new(sample_rate, T::fraction(5, 1000), T::fraction(50, 1000)),
            gain_state: T::whole(0),
            gain_up: one_pole_share(T::fraction(15, 1000).times(sample_rate)),
            gain_down: one_pole_share(T::fraction(3, 1000).times(sample_rate)),
            prev_wet: T::whole(0),
        }
    }

    /// Takes one sample and returns it with the high band added at the mix amount `wet`.
    fn tick(&mut self, x: T, wet: T) -> (y: T)
        requires
            old(self).valid(),
        ensures
            final(self).valid(),
            final(self).prev_wet == old(self).prev_wet,
            arith::deterministic::<T>() ==> final(self).state() == old(self).state().after(x),
            arith::deterministic::<T>() ==> y == old(self).state().output(x, wet),
    {
        let low: T = self.band_hp.tick(x);
        let band: T = self.band_lp.tick(low);
        let harm: T = self.harm_hp.tick(band.absolute());
        let se: T = self.src_env.tick(band);
        let he: T = self.harm_env.tick(harm);
        let guard: T = arith::clamp(
            se.over(T::fraction(2, 1000)),
            T::whole(0),
            T::whole(1),
        );
        let target: T = se.over(he.plus(T::fraction(1, 1_000_000_000))).smaller(
            T::whole(8),
        ).times(guard);
        let alpha: T = if self.gain_state.below(target) { self.gain_up } else { self.gain_down };
        self.gain_state = self.gain_state.plus(alpha.times(target.minus(self.gain_state)));
        proof {
            if arith::deterministic::<T>() {
                assert(self.state() =~= old(self).state().after(x));
            }
        }
        if T::whole(0).below(wet) {
            let add: T = T::fraction(1, 2).times(self.gain_state).times(harm);
            let bound: T = T::fraction(3, 2).times(se).plus(T::fraction(1, 1_000_000_000_000));
            let u: T = add.over(bound);
            let knee: T = T::fraction(75, 100);
            let rest: T = T::whole(1).minus(knee);
            let soft: T = if u.absolute().at_most(knee) {
                u
            } else {
                u.sign().times(
                    knee.plus(rest.times(u.absolute().minus(knee).over(rest).tangent())),
                )
            };
            x.plus(wet.times(bound).times(soft))
        } else {
            x
        }
    }

    /// Adds the high band to a chunk in place. `wet` is the mix amount from 0 to 1; over the
    /// chunk the amount moves there from that of the chunk before. At the amount zero after the
    /// amount zero the samples stay as they are, and only the filters move on; at zero after
    /// another amount the high band fades out over the chunk.
    pub fn process(&mut self, samples: &mut [T], wet: T)
        requires
            old(self).valid(),
        ensures
            final(self).valid(),
            final(samples).len() == old(samples).len(),
            arith::deterministic::<T>() ==> ({
                let to = arith::clamped(wet, arith::whole(0), arith::whole(1));
                let n = if old(samples).len() == 0 { 1 } else { old(samples).len() };
                let step = arith::over(
                    arith::minus(to, old(self).prev_wet),
                    arith::count(n as usize),
                );
                &&& final(self).prev_wet == to
                &&& final(self).state() == excited_state(old(self).state(), old(samples)@)
                &&& final(samples)@ == excited(
                    old(self).state(),
                    old(self).prev_wet,
                    step,
                    old(samples)@,
                )
            }),
            arith::deterministic::<T>() && arith::zeros_stay_zero::<T>() && arith::is_zero(
                old(self).prev_wet,
            ) && arith::is_zero(
                arith::clamped(wet, arith::whole(0), arith::whole(1)),
            ) ==> final(samples)@ == old(samples)@,
    {
        let to: T = arith::clamp(wet, T::whole(0), T::whole(1));
        let n: usize = if samples.len() == 0 { 1 } else { samples.len() };
        let step: T = to.minus(self.prev_wet).over(T::count(n));
        let ghost st = self.state();
        let ghost from = self.prev_wet;
        let ghost xs = samples@;
        let mut now: T = self.prev_wet;
        let mut k: usize = 0;
        assert(xs.take(0) =~= Seq::empty());
        while k < samples.len()
            invariant
                k <= samples.len(),
                samples.len() == xs.len(),
                self.valid(),
                forall|j: int| k <= j < xs.len() ==> samples@[j] == xs[j],
                arith::deterministic::<T>() ==> now == ramp(from, step, k as int),
                arith::deterministic::<T>() ==> self.state() == excited_state(
                    st,
                    xs.take(k as int),
                ),
                arith::deterministic::<T>() ==> forall|j: int|
                    0 <= j < k ==> samples@[j] == excited(st, from, step, xs)[j],
            decreases samples.len() - k,
        {
            let x: T = samples[k];
            now = now.plus(step);
            let y: T = self.tick(x, now);
            samples[k] = y;
            assert(xs.take(k + 1).drop_last() =~= xs.take(k as int));
            k = k + 1;
        }
        self.prev_wet = to;
        proof {
            assert(xs.take(xs.len() as int) =~= xs);
            if arith::deterministic::<T>() {
                assert(samples@ =~= excited(st, from, step, xs));
                if arith::zeros_stay_zero::<T>() && arith::is_zero(from) && arith::is_zero(to) {
                    law_dry_exciter_is_a_bypass(st, from, to, n, xs);
                }
            }
        }
    }
}

/// The state after two portions is the state after both.
pub proof fn lemma_excited_state_twice<T: Real>(st: ExciterState<T>, a: Seq<T>, b: Seq<T>)
    ensures
        excited_state(excited_state(st, a), b) == excited_state(st, a + b),
    decreases b.len(),
{
    if b.len() == 0 {
        assert(a + b =~= a);
    } else {
        assert((a + b).drop_last() =~= a + b.drop_last());
        lemma_excited_state_twice(st, a, b.drop_last());
    }
}

/// The ramp goes on from where it stood.
pub proof fn lemma_ramp_goes_on<T: Real>(wet: T, step: T, j: int, k: int)
    requires
        0 <= j,
        0 <= k,
    ensures
        ramp(ramp(wet, step, j), step, k) == ramp(wet, step, j + k),
    decreases k,
{
    if k > 0 {
        lemma_ramp_goes_on(wet, step, j, k - 1);
    }
}

/// Two portions of a stream, excited one after the other while the mix amount goes on moving by
/// the same step, are excited as the stream is in one.
pub proof fn law_exciting_in_chunks<T: Real>(
    st: ExciterState<T>,
    wet: T,
    step: T,
    a: Seq<T>,
    b: Seq<T>,
)
    ensures
        excited(st, wet, step, a + b) == excited(st, wet, step, a) + excited(
            excited_state(st, a),
            ramp(wet, step, a.len() as int),
            step,
            b,
        ),
        excited_state(st, a + b) == excited_state(excited_state(st, a), b),
{
    lemma_excited_state_twice(st, a, b);
    let whole = excited(st, wet, step, a + b);
    let rest = excited(excited_state(st, a), ramp(wet, step, a.len() as int), step, b);
    let parts = excited(st, wet, step, a) + rest;
    assert forall|k: int| 0 <= k < whole.len() implies #[trigger] whole[k] == parts[k] by {
        if k < a.len() {
            assert((a + b).take(k) =~= a.take(k));
        } else {
            let j = k - a.len();
            assert((a + b).take(k) =~= a + b.take(j));
            lemma_excited_state_twice(st, a, b.take(j));
            lemma_ramp_goes_on(wet, step, a.len() as int, j + 1);
        }
    }
    assert(whole =~= parts);
}

/// The exciter adds no delay: what it returns up to a sample depends on nothing after it.
pub proof fn law_exciter_is_causal<T: Real>(
    st: ExciterState<T>,
    wet: T,
    step: T,
    a: Seq<T>,
    b: Seq<T>,
    k: int,
)
    requires
        0 <= k <= a.len(),
        k <= b.len(),
        a.take(k) == b.take(k),
    ensures
        excited(st, wet, step, a).take(k) == excited(st, wet, step, b).take(k),
{
    let ya = excited(st, wet, step, a);
    let yb = excited(st, wet, step, b);
    assert forall|j: int| 0 <= j < k implies #[trigger] ya[j] == yb[j] by {
        assert(a.take(j) =~= a.take(k).take(j));
        assert(b.take(j) =~= b.take(k).take(j));
        assert(a[j] == a.take(k)[j]);
        assert(b[j] == b.take(k)[j]);
    }
    assert(ya.take(k) =~= yb.take(k));
}

/// A ramp from zero by zero stays zero.
proof fn lemma_ramp_of_zero<T: Real>(wet: T, step: T, k: int)
    requires
        arith::zeros_stay_zero::<T>(),
        arith::is_zero(wet),
        arith::is_zero(step),
    ensures
        arith::is_zero(ramp(wet, step, k)),
    decreases k,
{
    if k > 0 {
        lemma_ramp_of_zero(wet, step, k - 1);
    }
}

/// The mix amount zero is a bypass: while the amount goes from zero to zero over a chunk of any
/// length, the exciter returns its input. Zeros have to be computed with as in an IEEE type.
pub proof fn law_dry_exciter_is_a_bypass<T: Real>(
    st: ExciterState<T>,
    from: T,
    to: T,
    n: usize,
    xs: Seq<T>,
)
    requires
        arith::zeros_stay_zero::<T>(),
        arith::is_zero(from),
        arith::is_zero(to),
        0 < n,
    ensures
        excited(st, from, arith::over(arith::minus(to, from), arith::count(n)), xs) == xs,
{
    let step = arith::over(arith::minus(to, from), arith::count::<T>(n));
    let ys = excited(st, from, step, xs);
    assert forall|k: int| 0 <= k < xs.len() implies #[trigger] ys[k] == xs[k] by {
        lemma_ramp_of_zero(from, step, k + 1);
        assert(!arith::below(arith::whole(0), ramp(from, step, k + 1)));
    }
    assert(ys =~= xs);
}

/// A mix amount that is zero is held at zero.
pub proof fn law_zero_is_held_at_zero<T: Real>(wet: T)
    requires
        arith::zeros_stay_zero::<T>(),
        arith::is_zero(wet),
    ensures
        arith::is_zero(arith::clamped(wet, arith::whole(0), arith::whole(1))),
{
}

/// The gain that brings the sample `x` under the threshold: one where it is there already.
pub open spec fn needed_gain<T: Real>(threshold: T, x: T) -> T {
    if arith::below(threshold, arith::absolute(x)) {
        arith::over(threshold, arith::absolute(x))
    } else {
        arith::whole(1)
    }
}

/// The window without the entries at its end that are not below `need`.
pub open spec fn shed<T: Real>(window: Seq<(u64, T)>, need: T) -> Seq<(u64, T)>
    decreases window.len(),
{
    if window.len() > 0 && arith::at_most(need, window.last().1) {
        shed(window.drop_last(), need)
    } else {
        window
    }
}

/// The window without the entries at its start that are `lookahead` or more before `pos`.
pub open spec fn expired<T: Real>(window: Seq<(u64, T)>, pos: int, lookahead: int) -> Seq<(u64, T)>
    decreases window.len(),
{
    if window.len() > 0 && window[0].0 + lookahead <= pos {
        expired(window.drop_first(), pos, lookahead)
    } else {
        window
    }
}

/// What a limiter goes by.
pub struct LimiterState<T: Real> {
    /// The bound on the output.
    pub threshold: T,
    /// The length of the look-ahead in samples.
    pub lookahead: int,
    /// Share of a fall of the gain that is followed at once.
    pub attack: T,
    /// Share of a rise of the gain that is followed at once.
    pub release: T,
    /// The samples that were taken and not yet returned, oldest first.
    pub delay: Seq<T>,
    /// Place and needed gain of the samples that can still be the smallest of the look-ahead.
    pub window: Seq<(u64, T)>,
    /// Number of samples taken.
    pub pos: int,
    /// The gain.
    pub gain: T,
}

impl<T: Real> LimiterState<T> {
    /// The window after the input `x`.
    pub open spec fn next_window(self, x: T) -> Seq<(u64, T)> {
        let need = needed_gain(self.threshold, x);
        expired(shed(self.window, need).push((self.pos as u64, need)), self.pos, self.lookahead)
    }

    /// The gain after the input `x`: it moves towards the smallest gain needed in the look-ahead.
    pub open spec fn next_gain(self, x: T) -> T {
        let window = self.next_window(x);
        let target = if window.len() == 0 { arith::whole(1) } else { window[0].1 };
        let coeff = if arith::below(target, self.gain) { self.attack } else { self.release };
        towards(self.gain, target, coeff)
    }

    /// The sample that leaves when `x` comes.
    pub open spec fn leaving(self, x: T) -> T {
        self.delay.push(x)[0]
    }

    /// The output for the input `x`: the leaving sample under the gain, or under the smaller one
    /// that brings it to the threshold.
    pub open spec fn output(self, x: T) -> T {
        let gain = self.next_gain(x);
        let out = self.leaving(x);
        let now = if arith::below(self.threshold, arith::times(arith::absolute(out), gain)) {
            arith::over(self.threshold, arith::absolute(out))
        } else {
            gain
        };
        arith::times(out, arith::smaller(gain, now))
    }

    /// The state after the input `x`.
    pub open spec fn after(self, x: T) -> LimiterState<T> {
        LimiterState {
            delay: self.delay.push(x).drop_first(),
            window: self.next_window(x),
            pos: self.pos + 1,
            gain: self.next_gain(x),
            ..self
        }
    }
}

/// The state after the samples `xs`.
pub open spec fn limited_state<T: Real>(st: LimiterState<T>, xs: Seq<T>) -> LimiterState<T>
    decreases xs.len(),
{
    if xs.len() == 0 {
        st
    } else {
        limited_state(st, xs.drop_last()).after(xs.last())
    }
}

/// What the limiter makes of the samples `xs`.
pub open spec fn limited<T: Real>(st: LimiterState<T>, xs: Seq<T>) -> Seq<T> {
    Seq::new(xs.len(), |k: int| limited_state(st, xs.take(k)).output(xs[k]))
}

/// Look-ahead peak limiter.
pub struct Limiter<T: Real> {
    /// The bound on the output.
    pub threshold: T,
    /// The samples that were taken and not yet returned, oldest first.
    pub delay: VecDeque<T>,
    /// The length of the look-ahead in samples.
    pub lookahead: usize,
    /// Place and needed gain of the samples that can still be the smallest of the look-ahead.
    pub window: VecDeque<(u64, T)>,
    /// Number of samples taken.
    pub pos: u64,
    /// The gain.
    pub gain: T,
    /// Share of a fall of the gain that is followed at once.
    pub attack: T,
    /// Share of a rise of the gain that is followed at once.
    pub release: T,
}

impl<T: Real> Limiter<T> {
    /// What the limiter goes by.
    pub open spec fn state(&self) -> LimiterState<T> {
        LimiterState {
            threshold: self.threshold,
            lookahead: self.lookahead as int,
            attack: self.attack,
            release: self.release,
            delay: self.delay@,
            window: self.window@,
            pos: self.pos as int,
            gain: self.gain,
        }
    }

    /// Whether the delay line is as long as the look-ahead, and no entry of the window lies
    /// ahead of the samples taken.
    pub open spec fn valid(&self) -> bool {
        &&& self.delay@.len() == self.lookahead
        &&& forall|k: int|
            0 <= k < self.window@.len() ==> (#[trigger] self.window@[k]).0 <= self.pos
    }

    /// A limiter for the rate `sample_rate` with a look-ahead of 5 ms, which falls within 1.5 ms and
    /// rises again within 80 ms.
    pub fn new(sample_rate: T, threshold: T) -> (l: Self)
        ensures
            l.valid(),
            l.pos == 0,
            l.threshold == threshold,
            l.window@.len() == 0,
            arith::deterministic::<T>() ==> l.state() == (LimiterState {
                threshold,
                lookahead: arith::truncated(
                    arith::times(sample_rate, arith::fraction(5, 1000)),
                ) as int,
                attack: one_pole(arith::times(arith::fraction(15, 10000), sample_rate)),
                release: one_pole(arith::times(arith::fraction(80, 1000), sample_rate)),
                delay: Seq::new(
                    arith::truncated(
                        arith::times(sample_rate, arith::fraction(5, 1000)),
                    ) as nat,
                    |k: int| arith::whole::<T>(0),
                ),
                window: Seq::empty(),
                pos: 0,
                gain: arith::whole(1),
            }),
    {
        let lookahead: usize = sample_rate.times(T::fraction(5, 1000)).truncated();
        let zero: T = T::whole(0);
        let mut delay: VecDeque<T> = VecDeque::new();
        let mut k: usize = 0;
        while k < lookahead
            invariant
                k <= lookahead,
                delay@ == Seq::new(k as nat, |j: int| zero),
            decreases lookahead - k,
        {
            delay.push_back(zero);
            k = k + 1;
            assert(delay@ =~= Seq::new(k as nat, |j: int| zero));
        }
        let l = Limiter {
            threshold,
            delay,
            lookahead,
            window: VecDeque::new(),
            pos: 0,
            gain: T::whole(1),
            attack: one_pole_share(T::fraction(15, 10000).times(sample_rate)),
            release: one_pole_share(T::fraction(80, 1000).times(sample_rate)),
        };
        proof {
            if arith::deterministic::<T>() {
                assert(l.delay@ =~= Seq::new(lookahead as nat, |k: int| arith::whole::<T>(0)));
                assert(l.window@ =~= Seq::empty());
            }
        }
        l
    }

    /// The delay of the limiter in samples.
    pub fn latency(&self) -> (n: usize)
        ensures
            n == self.lookahead,
    {
        self.lookahead
    }

    /// Takes the gain `need` into the window and drops what it and time have overtaken.
    fn slide(&mut self, need: T)
        requires
            old(self).valid(),
            old(self).pos + old(self).lookahead <= u64::MAX,
        ensures
            final(self).valid(),
            final(self).pos == old(self).pos,
            final(self).lookahead == old(self).lookahead,
            final(self).delay == old(self).delay,
            final(self).gain == old(self).gain,
            final(self).threshold == old(self).threshold,
            final(self).attack == old(self).attack,
            final(self).release == old(self).release,
            arith::deterministic::<T>() ==> final(self).window@ == expired(
                shed(old(self).window@, need).push((old(self).pos, need)),
                old(self).pos as int,
                old(self).lookahead as int,
            ),
    {
        let ghost start = self.window@;
        while self.window.len() > 0 && need.at_most(self.window[self.window.len() - 1].1)
            invariant_except_break
                self.valid(),
                self.pos == old(self).pos,
                self.lookahead == old(self).lookahead,
                self.delay == old(self).delay,
                self.gain == old(self).gain,
                self.threshold == old(self).threshold,
                self.attack == old(self).attack,
                self.release == old(self).release,
                arith::deterministic::<T>() ==> shed(start, need) == shed(self.window@, need),
            ensures
                self.valid(),
                self.pos == old(self).pos,
                self.lookahead == old(self).lookahead,
                self.delay == old(self).delay,
                self.gain == old(self).gain,
                self.threshold == old(self).threshold,
                self.attack == old(self).attack,
                self.release == old(self).release,
                arith::deterministic::<T>() ==> shed(start, need) == self.window@,
            decreases self.window@.len(),
        {
            let ghost before = self.window@;
            self.window.pop_back();
            assert(self.window@ =~= before.drop_last());
        }
        self.window.push_back((self.pos, need));
        let ghost joined = self.window@;
        while self.window.len() > 0 && self.window[0].0 + (self.lookahead as u64) <= self.pos
            invariant
                self.valid(),
                self.pos == old(self).pos,
                self.pos + self.lookahead <= u64::MAX,
                self.lookahead == old(self).lookahead,
                self.delay == old(self).delay,
                self.gain == old(self).gain,
                self.threshold == old(self).threshold,
                self.attack == old(self).attack,
                self.release == old(self).release,
                expired(joined, self.pos as int, self.lookahead as int) == expired(
                    self.window@,
                    self.pos as int,
                    self.lookahead as int,
                ),
            decreases self.window@.len(),
        {
            let ghost before = self.window@;
            self.window.pop_front();
            assert(self.window@ =~= before.drop_first());
        }
    }

    /// Limits a chunk in place; what comes out is delayed by the look-ahead.
    pub fn process(&mut self, samples: &mut [T])
        requires
            old(self).valid(),
            old(self).pos + old(samples).len() + old(self).lookahead <= u64::MAX,
            old(self).lookahead < usize::MAX,
        ensures
            final(self).valid(),
            final(samples).len() == old(samples).len(),
            final(self).pos == old(self).pos + old(samples).len(),
            final(self).lookahead == old(self).lookahead,
            final(self).threshold == old(self).threshold,
            arith::deterministic::<T>() ==> final(self).state() == limited_state(
                old(self).state(),
                old(samples)@,
            ),
            arith::deterministic::<T>() ==> final(samples)@ == limited(
                old(self).state(),
                old(samples)@,
            ),
    {
        let ghost st = self.state();
        let ghost xs = samples@;
        let mut k: usize = 0;
        assert(xs.take(0) =~= Seq::empty());
        while k < samples.len()
            invariant
                k <= samples.len(),
                samples.len() == xs.len(),
                self.valid(),
                self.pos == st.pos + k,
                self.lookahead == st.lookahead,
                self.lookahead < usize::MAX,
                self.threshold == st.threshold,
                st.pos + xs.len() + st.lookahead <= u64::MAX,
                forall|j: int| k <= j < xs.len() ==> samples@[j] == xs[j],
                arith::deterministic::<T>() ==> self.state() == limited_state(
                    st,
                    xs.take(k as int),
                ),
                arith::deterministic::<T>() ==> forall|j: int|
                    0 <= j < k ==> samples@[j] == limited(st, xs)[j],
            decreases samples.len() - k,
        {
            let ghost before = self.state();
            let x: T = samples[k];
            let need: T = if self.threshold.below(x.absolute()) {
                self.threshold.over(x.absolute())
            } else {
                T::whole(1)
            };
            self.slide(need);
            let target: T = if self.window.len() == 0 { T::whole(1) } else { self.window[0].1 };
            let coeff: T = if target.below(self.gain) { self.attack } else { self.release };
            self.gain = self.gain.plus(coeff.times(target.minus(self.gain)));
            self.delay.push_back(x);
            let out: T = self.delay[0];
            self.delay.pop_front();
            let now: T = if self.threshold.below(out.absolute().times(self.gain)) {
                self.threshold.over(out.absolute())
            } else {
                self.gain
            };
            samples[k] = out.times(self.gain.smaller(now));
            self.pos = self.pos + 1;
            proof {
                assert(xs.take(k + 1).drop_last() =~= xs.take(k as int));
                assert(self.delay@ =~= before.delay.push(x).drop_first());
                if arith::deterministic::<T>() {
                    assert(self.state() =~= before.after(x));
                }
            }
            k = k + 1;
        }
        proof {
            assert(xs.take(xs.len() as int) =~= xs);
            if arith::deterministic::<T>() {
                assert(samples@ =~= limited(st, xs));
            }
        }
    }
}

/// Where the look-ahead starts among `n` samples.
pub open spec fn horizon(n: int, lookahead: int) -> int {
    if n > lookahead {
        n - lookahead
    } else {
        0
    }
}

/// Whether an entry of the window at place `m` or later is not above `gain`.
pub open spec fn covers<T: Real>(window: Seq<(u64, T)>, gain: T, m: int) -> bool {
    exists|k: int|
        0 <= k < window.len() && m <= (#[trigger] window[k]).0 && arith::at_most(
            window[k].1,
            gain,
        )
}

/// Whether the window stands for the gains `needs` of the samples so far: its entries are gains
/// of the look-ahead in ascending order, and each gain of the look-ahead has an entry at its
/// place or later that is not above it.
pub open spec fn stands_for<T: Real>(
    window: Seq<(u64, T)>,
    needs: Seq<T>,
    lookahead: int,
) -> bool {
    let n = needs.len() as int;
    &&& forall|k: int|
        0 <= k < window.len() ==> horizon(n, lookahead) <= (#[trigger] window[k]).0 < n
            && window[k].1 == needs[window[k].0 as int]
    &&& forall|a: int, b: int|
        0 <= a < b < window.len() ==> (#[trigger] window[a]).0 < (#[trigger] window[b]).0
            && arith::at_most(window[a].1, window[b].1)
    &&& forall|m: int|
        horizon(n, lookahead) <= m < n ==> #[trigger] covers(window, needs[m], m)
}

proof fn lemma_shed<T: Real>(window: Seq<(u64, T)>, need: T) -> (p: int)
    ensures
        0 <= p <= window.len(),
        shed(window, need) == window.take(p),
        forall|k: int| p <= k < window.len() ==> arith::at_most(need, (#[trigger] window[k]).1),
        p > 0 ==> !arith::at_most(need, window[p - 1].1),
    decreases window.len(),
{
    if window.len() > 0 && arith::at_most(need, window.last().1) {
        let p = lemma_shed(window.drop_last(), need);
        assert(window.drop_last().take(p) =~= window.take(p));
        assert forall|k: int| p <= k < window.len() implies arith::at_most(
            need,
            (#[trigger] window[k]).1,
        ) by {
            if k < window.len() - 1 {
                assert(window.drop_last()[k] == window[k]);
            }
        }
        p
    } else {
        assert(window.take(window.len() as int) =~= window);
        window.len() as int
    }
}

proof fn lemma_expired<T: Real>(window: Seq<(u64, T)>, pos: int, lookahead: int) -> (d: int)
    ensures
        0 <= d <= window.len(),
        expired(window, pos, lookahead) == window.skip(d),
        forall|k: int| 0 <= k < d ==> (#[trigger] window[k]).0 + lookahead <= pos,
        d < window.len() ==> window[d].0 + lookahead > pos,
    decreases window.len(),
{
    if window.len() > 0 && window[0].0 + lookahead <= pos {
        let rest = window.drop_first();
        let d = lemma_expired(rest, pos, lookahead);
        assert(rest.skip(d) =~= window.skip(d + 1));
        assert forall|k: int| 0 <= k < d + 1 implies (#[trigger] window[k]).0 + lookahead <= pos by {
            if k > 0 {
                assert(rest[k - 1] == window[k]);
            }
        }
        if d < rest.len() {
            assert(rest[d] == window[d + 1]);
        }
        d + 1
    } else {
        assert(window.skip(0) =~= window);
        0
    }
}

/// One more gain keeps the window what it stands for.
pub proof fn lemma_window_step<T: Real>(
    window: Seq<(u64, T)>,
    needs: Seq<T>,
    lookahead: int,
    need: T,
)
    requires
        arith::ordered::<T>(),
        0 <= lookahead,
        needs.len() <= u64::MAX,
        arith::number(need),
        forall|k: int| 0 <= k < needs.len() ==> arith::number(#[trigger] needs[k]),
        stands_for(window, needs, lookahead),
    ensures
        stands_for(
            expired(
                shed(window, need).push((needs.len() as u64, need)),
                needs.len() as int,
                lookahead,
            ),
            needs.push(need),
            lookahead,
        ),
{
    let n = needs.len() as int;
    let p = lemma_shed(window, need);
    let joined = window.take(p).push((n as u64, need));
    let d = lemma_expired(joined, n, lookahead);
    let next = joined.skip(d);
    let all = needs.push(need);
    let lo = horizon(n + 1, lookahead);
    assert forall|a: int, b: int| 0 <= a < b < joined.len() implies (#[trigger] joined[a]).0 < (
    #[trigger] joined[b]).0 && arith::at_most(joined[a].1, joined[b].1) by {
        assert(joined[a] == window[a]);
        if b < p {
            assert(joined[b] == window[b]);
        } else {
            arith::lemma_total(window[p - 1].1, need);
            if a < p - 1 {
                arith::lemma_transitive(window[a].1, window[p - 1].1, need);
            }
        }
    }
    assert forall|k: int| 0 <= k < next.len() implies lo <= (#[trigger] next[k]).0 < n + 1
        && next[k].1 == all[next[k].0 as int] by {
        assert(next[k] == joined[d + k]);
        assert(joined[d].0 + lookahead > n);
        if k > 0 {
            assert(joined[d].0 < joined[d + k].0);
        }
        if d + k < p {
            assert(joined[d + k] == window[d + k]);
        }
    }
    assert forall|a: int, b: int| 0 <= a < b < next.len() implies (#[trigger] next[a]).0 < (
    #[trigger] next[b]).0 && arith::at_most(next[a].1, next[b].1) by {
        assert(next[a] == joined[d + a]);
        assert(next[b] == joined[d + b]);
    }
    assert forall|m: int| lo <= m < n + 1 implies #[trigger] covers(next, all[m], m) by {
        let w: int = if m == n {
            p
        } else {
            assert(covers(window, needs[m], m));
            let k = choose|k: int|
                0 <= k < window.len() && m <= (#[trigger] window[k]).0 && arith::at_most(
                    window[k].1,
                    needs[m],
                );
            assert(all[m] == needs[m]);
            if k < p {
                k
            } else {
                arith::lemma_transitive(need, window[k].1, needs[m]);
                p
            }
        };
        if w < p {
            assert(joined[w] == window[w]);
        }
        assert(m <= joined[w].0 && arith::at_most(joined[w].1, all[m]));
        if w < d {
            assert(joined[w].0 + lookahead <= n);
            assert(false);
        }
        assert(next[w - d] == joined[w]);
    }
}

/// The gains that the samples `xs` need.
pub open spec fn needed_gains<T: Real>(threshold: T, xs: Seq<T>) -> Seq<T> {
    Seq::new(xs.len(), |k: int| needed_gain(threshold, xs[k]))
}

/// The gain of a limiter moves towards the smallest gain that a sample of its look-ahead needs:
/// from its start on, the first entry of the window is that gain.
pub proof fn law_limiter_follows_the_smallest_gain<T: Real>(st: LimiterState<T>, xs: Seq<T>)
    requires
        arith::ordered::<T>(),
        st.pos == 0,
        st.window == Seq::<(u64, T)>::empty(),
        0 < st.lookahead,
        0 < xs.len() <= u64::MAX,
        forall|k: int| 0 <= k < xs.len() ==> arith::number(needed_gain(st.threshold, #[trigger] xs[k])),
    ensures
        ({
            let needs = needed_gains(st.threshold, xs);
            let window = limited_state(st, xs).window;
            let lo = horizon(xs.len() as int, st.lookahead);
            &&& window.len() > 0
            &&& exists|m: int| lo <= m < xs.len() && window[0].1 == #[trigger] needs[m]
            &&& forall|m: int|
                lo <= m < xs.len() ==> arith::at_most(window[0].1, #[trigger] needs[m])
        }),
{
    lemma_window_stands_for(st, xs);
    let needs = needed_gains(st.threshold, xs);
    let n = xs.len() as int;
    let window = limited_state(st, xs).window;
    let lo = horizon(n, st.lookahead);
    assert(lo <= n - 1);
    assert(covers(window, needs[n - 1], n - 1));
    assert(window.len() > 0);
    assert(window[0].1 == needs[window[0].0 as int]);
    assert forall|m: int| lo <= m < n implies arith::at_most(
        window[0].1,
        #[trigger] needs[m],
    ) by {
        assert(covers(window, needs[m], m));
        let k = choose|k: int|
            0 <= k < window.len() && m <= (#[trigger] window[k]).0 && arith::at_most(
                window[k].1,
                needs[m],
            );
        if k > 0 {
            arith::lemma_transitive(window[0].1, window[k].1, needs[m]);
        }
    }
}

proof fn lemma_window_stands_for<T: Real>(st: LimiterState<T>, xs: Seq<T>)
    requires
        arith::ordered::<T>(),
        st.pos == 0,
        st.window == Seq::<(u64, T)>::empty(),
        0 < st.lookahead,
        xs.len() <= u64::MAX,
        forall|k: int| 0 <= k < xs.len() ==> arith::number(needed_gain(st.threshold, #[trigger] xs[k])),
    ensures
        limited_state(st, xs).pos == xs.len(),
        limited_state(st, xs).lookahead == st.lookahead,
        limited_state(st, xs).threshold == st.threshold,
        stands_for(
            limited_state(st, xs).window,
            needed_gains(st.threshold, xs),
            st.lookahead,
        ),
    decreases xs.len(),
{
    if xs.len() > 0 {
        let front = xs.drop_last();
        assert forall|k: int| 0 <= k < front.len() implies arith::number(
            needed_gain(st.threshold, #[trigger] front[k]),
        ) by {
            assert(front[k] == xs[k]);
        }
        lemma_window_stands_for(st, front);
        let needs = needed_gains(st.threshold, front);
        let need = needed_gain(st.threshold, xs.last());
        assert(xs.last() == xs[xs.len() - 1]);
        lemma_window_step(limited_state(st, front).window, needs, st.lookahead, need);
        assert(needed_gains(st.threshold, xs) =~= needs.push(need));
    }
}

/// Whether gains are computed with as in an IEEE type: the smaller of two numbers is one of them
/// and at most each; a factor that is larger does not make the size of a product smaller; the size
/// of a product with a gain is at most the product of the size; quotients of what is not negative
/// are not negative; and only numbers compare, by one of the two orders or the other.
pub open spec fn gains_behave<T: Real>() -> bool {
    let zero = arith::whole::<T>(0);
    &&& arith::is_share(arith::whole::<T>(1))
    &&& forall|a: T, b: T|
        arith::number(a) && arith::number(b) ==> {
            let m = #[trigger] arith::smaller(a, b);
            (m == a || m == b) && arith::at_most(m, a) && arith::at_most(m, b)
        }
    &&& forall|x: T, g: T, h: T|
        arith::at_most(g, h) && arith::number(#[trigger] arith::times(arith::absolute(x), g))
            && arith::number(#[trigger] arith::times(arith::absolute(x), h)) ==> arith::at_most(
            arith::times(arith::absolute(x), g),
            arith::times(arith::absolute(x), h),
        )
    &&& forall|x: T, g: T|
        arith::at_most(zero, g) && arith::number(arith::times(arith::absolute(x), g))
            ==> arith::at_most(
            arith::absolute(#[trigger] arith::times(x, g)),
            arith::times(arith::absolute(x), g),
        )
    &&& forall|a: T, b: T|
        arith::number(a) && arith::number(b) && !#[trigger] arith::below(a, b) ==> arith::at_most(
            b,
            a,
        )
    &&& forall|a: T, b: T| #[trigger] arith::at_most(a, b) ==> arith::number(a) && arith::number(b)
    &&& forall|a: T, b: T| #[trigger] arith::below(a, b) ==> !arith::at_most(b, a)
}

/// Whether the sample `x` under a gain is a number, and its size comes to the threshold at most,
/// wherever it is above it, when the threshold is divided by it and it is multiplied with the
/// quotient: in an IEEE type a finite sample does, unless the product is rounded up.
pub open spec fn comes_down<T: Real>(threshold: T, x: T) -> bool {
    let size = arith::absolute(x);
    let quotient = arith::over(threshold, size);
    forall|g: T|
        arith::is_share(g) ==> {
            &&& arith::number(#[trigger] arith::times(size, g))
            &&& arith::below(threshold, arith::times(size, g)) ==> arith::at_most(
                arith::whole(0),
                quotient,
            ) && arith::at_most(arith::times(size, quotient), threshold)
        }
}

/// Whether gains from zero to one stay so: the quotient of a number that is not negative and a
/// larger one, and a gain that moves towards another one by either of two shares.
pub open spec fn gains_stay_in_range<T: Real>(attack: T, release: T) -> bool {
    &&& forall|a: T, b: T|
        arith::at_most(arith::whole(0), a) && arith::below(a, b) ==> arith::is_share(
            #[trigger] arith::over(a, b),
        )
    &&& forall|g: T, t: T|
        arith::is_share(g) && arith::is_share(t) ==> arith::is_share(
            #[trigger] towards(g, t, attack),
        ) && arith::is_share(towards(g, t, release))
}

/// The gain and the gains of the window of a limiter lie between zero and one.
pub open spec fn gains_are_shares<T: Real>(st: LimiterState<T>) -> bool {
    &&& arith::is_share(st.gain)
    &&& forall|k: int|
        0 <= k < st.window.len() ==> arith::is_share((#[trigger] st.window[k]).1)
}

proof fn lemma_gains_step<T: Real>(st: LimiterState<T>, x: T)
    requires
        gains_behave::<T>(),
        gains_stay_in_range(st.attack, st.release),
        arith::at_most(arith::whole(0), st.threshold),
        gains_are_shares(st),
    ensures
        gains_are_shares(st.after(x)),
        arith::is_share(st.next_gain(x)),
{
    let need = needed_gain(st.threshold, x);
    let p = lemma_shed(st.window, need);
    let joined = shed(st.window, need).push((st.pos as u64, need));
    let d = lemma_expired(joined, st.pos, st.lookahead);
    let next = st.next_window(x);
    assert(arith::is_share(need));
    assert forall|k: int| 0 <= k < next.len() implies arith::is_share((#[trigger] next[k]).1) by {
        assert(next[k] == joined[d + k]);
        if d + k < p {
            assert(joined[d + k] == st.window[d + k]);
        }
    }
    let target = if next.len() == 0 { arith::whole::<T>(1) } else { next[0].1 };
    assert(arith::is_share(target));
    assert(arith::is_share(towards(st.gain, target, st.attack)));
    assert(arith::is_share(towards(st.gain, target, st.release)));
}

proof fn lemma_gains<T: Real>(st: LimiterState<T>, xs: Seq<T>)
    requires
        gains_behave::<T>(),
        gains_stay_in_range(st.attack, st.release),
        arith::at_most(arith::whole(0), st.threshold),
        gains_are_shares(st),
    ensures
        gains_are_shares(limited_state(st, xs)),
        limited_state(st, xs).threshold == st.threshold,
        limited_state(st, xs).attack == st.attack,
        limited_state(st, xs).release == st.release,
    decreases xs.len(),
{
    if xs.len() > 0 {
        lemma_gains(st, xs.drop_last());
        lemma_gains_step(limited_state(st, xs.drop_last()), xs.last());
    }
}

/// An output stays under the threshold.
proof fn lemma_output_stays_under<T: Real>(st: LimiterState<T>, x: T)
    requires
        arith::ordered::<T>(),
        gains_behave::<T>(),
        arith::number(st.threshold),
        arith::is_share(st.next_gain(x)),
        comes_down(st.threshold, st.leaving(x)),
    ensures
        arith::at_most(arith::absolute(st.output(x)), st.threshold),
{
    let gain = st.next_gain(x);
    let out = st.leaving(x);
    let size = arith::absolute(out);
    let quotient = arith::over(st.threshold, size);
    let over = arith::below(st.threshold, arith::times(size, gain));
    let now = if over { quotient } else { gain };
    let g = arith::smaller(gain, now);
    assert(arith::number(gain));
    assert(arith::number(now));
    assert(g == gain || g == now);
    assert(arith::at_most(arith::whole(0), g));
    if over {
        assert(arith::number(arith::times(size, quotient)));
        if g != now {
            assert(arith::at_most(gain, now));
            assert(arith::at_most(arith::times(size, gain), arith::times(size, quotient)));
            arith::lemma_transitive(
                arith::times(size, gain),
                arith::times(size, quotient),
                st.threshold,
            );
            assert(false);
        }
        assert(arith::at_most(arith::times(size, g), st.threshold));
    } else {
        assert(g == gain);
        assert(arith::at_most(arith::times(size, g), st.threshold));
    }
    assert(arith::number(arith::times(size, g)));
    assert(arith::at_most(arith::absolute(arith::times(out, g)), arith::times(size, g)));
    arith::lemma_transitive(
        arith::absolute(arith::times(out, g)),
        arith::times(size, g),
        st.threshold,
    );
}

/// Samples pass through the limiter in the order in which they come: what has not left yet are
/// the last of all that came.
pub proof fn law_limiter_is_a_delay_line<T: Real>(st: LimiterState<T>, xs: Seq<T>)
    ensures
        limited_state(st, xs).delay == (st.delay + xs).skip(xs.len() as int),
        forall|k: int|
            0 <= k < xs.len() ==> limited_state(st, #[trigger] xs.take(k)).leaving(xs[k]) == (
            st.delay + xs)[k],
    decreases xs.len(),
{
    assert((st.delay + xs).skip(0) =~= st.delay + xs);
    if xs.len() > 0 {
        let front = xs.drop_last();
        law_limiter_is_a_delay_line(st, front);
        let n = front.len() as int;
        let d = limited_state(st, front).delay;
        assert(d.push(xs.last()) =~= (st.delay + xs).skip(n));
        assert(d.push(xs.last()).drop_first() =~= (st.delay + xs).skip(n + 1));
        assert forall|k: int| 0 <= k < xs.len() implies limited_state(
            st,
            #[trigger] xs.take(k),
        ).leaving(xs[k]) == (st.delay + xs)[k] by {
            if k < n {
                assert(front.take(k) =~= xs.take(k));
                assert((st.delay + front)[k] == (st.delay + xs)[k]);
            } else {
                assert(xs.take(k) =~= front);
            }
        }
    } else {
        assert(st.delay + xs =~= st.delay);
    }
}

/// A limiter is a brick wall: no output exceeds the threshold. Left out are samples that are no
/// numbers under a gain, and those that rounding alone takes above the threshold.
pub proof fn law_limiter_is_a_brick_wall<T: Real>(st: LimiterState<T>, xs: Seq<T>)
    requires
        arith::ordered::<T>(),
        gains_behave::<T>(),
        gains_stay_in_range(st.attack, st.release),
        arith::at_most(arith::whole(0), st.threshold),
        gains_are_shares(st),
        forall|k: int| 0 <= k < st.delay.len() ==> comes_down(st.threshold, #[trigger] st.delay[k]),
        forall|k: int| 0 <= k < xs.len() ==> comes_down(st.threshold, #[trigger] xs[k]),
    ensures
        forall|k: int|
            0 <= k < xs.len() ==> arith::at_most(
                arith::absolute(#[trigger] limited(st, xs)[k]),
                st.threshold,
            ),
{
    law_limiter_is_a_delay_line(st, xs);
    let ys = limited(st, xs);
    let all = st.delay + xs;
    assert forall|k: int| 0 <= k < xs.len() implies arith::at_most(
        arith::absolute(#[trigger] ys[k]),
        st.threshold,
    ) by {
        let front = xs.take(k);
        let now = limited_state(st, front);
        lemma_gains(st, front);
        lemma_gains_step(now, xs[k]);
        assert(now.leaving(xs[k]) == all[k]);
        if k < st.delay.len() {
            assert(all[k] == st.delay[k]);
        } else {
            assert(all[k] == xs[k - st.delay.len()]);
        }
        lemma_output_stays_under(now, xs[k]);
    }
}

/// Two portions of a stream, limited one after the other, are limited as the stream is in one.
pub proof fn law_limiting_in_chunks<T: Real>(st: LimiterState<T>, a: Seq<T>, b: Seq<T>)
    ensures
        limited(st, a + b) == limited(st, a) + limited(limited_state(st, a), b),
        limited_state(st, a + b) == limited_state(limited_state(st, a), b),
{
    lemma_limited_state_twice(st, a, b);
    let whole = limited(st, a + b);
    let parts = limited(st, a) + limited(limited_state(st, a), b);
    assert forall|k: int| 0 <= k < whole.len() implies #[trigger] whole[k] == parts[k] by {
        if k < a.len() {
            assert((a + b).take(k) =~= a.take(k));
        } else {
            let j = k - a.len();
            assert((a + b).take(k) =~= a + b.take(j));
            lemma_limited_state_twice(st, a, b.take(j));
        }
    }
    assert(whole =~= parts);
}

proof fn lemma_limited_state_twice<T: Real>(st: LimiterState<T>, a: Seq<T>, b: Seq<T>)
    ensures
        limited_state(st, a + b) == limited_state(limited_state(st, a), b),
    decreases b.len(),
{
    if b.len() == 0 {
        assert(a + b =~= a);
    } else {
        assert((a + b).drop_last() =~= a + b.drop_last());
        lemma_limited_state_twice(st, a, b.drop_last());
    }
}

/// Whether one is neutral in `T`: as a factor of a number, as the smaller of two ones, and as a
/// gain that has arrived at its target and moves on by either of two shares.
pub open spec fn one_is_neutral<T: Real>(attack: T, release: T) -> bool {
    let one = arith::whole::<T>(1);
    &&& forall|x: T| arith::number(x) ==> #[trigger] arith::times(x, one) == x
    &&& arith::smaller(one, one) == one
    &&& towards(one, one, attack) == one
    &&& towards(one, one, release) == one
}

/// Whether the sample `x` is a number that lies within the threshold.
pub open spec fn within<T: Real>(threshold: T, x: T) -> bool {
    arith::number(x) && arith::number(arith::absolute(x)) && !arith::below(threshold, arith::absolute(x))
}

/// Below the threshold a limiter is transparent: it returns its input, delayed.
pub proof fn law_quiet_limiter_is_transparent<T: Real>(st: LimiterState<T>, xs: Seq<T>)
    requires
        one_is_neutral(st.attack, st.release),
        st.gain == arith::whole::<T>(1),
        st.window == Seq::<(u64, T)>::empty(),
        forall|k: int| 0 <= k < st.delay.len() ==> within(st.threshold, #[trigger] st.delay[k]),
        forall|k: int| 0 <= k < xs.len() ==> within(st.threshold, #[trigger] xs[k]),
    ensures
        limited(st, xs) == (st.delay + xs).take(xs.len() as int),
{
    law_limiter_is_a_delay_line(st, xs);
    let ys = limited(st, xs);
    let all = st.delay + xs;
    assert forall|k: int| 0 <= k < xs.len() implies #[trigger] ys[k] == all[k] by {
        let front = xs.take(k);
        assert forall|j: int| 0 <= j < front.len() implies within(
            st.threshold,
            #[trigger] front[j],
        ) by {
            assert(front[j] == xs[j]);
        }
        lemma_quiet_state(st, front);
        let now = limited_state(st, front);
        lemma_quiet_step(now, xs[k]);
        let out = now.leaving(xs[k]);
        assert(out == all[k]);
        if k < st.delay.len() {
            assert(all[k] == st.delay[k]);
        } else {
            assert(all[k] == xs[k - st.delay.len()]);
        }
        let one = arith::whole::<T>(1);
        assert(arith::times(arith::absolute(out), one) == arith::absolute(out));
    }
    assert(ys =~= all.take(xs.len() as int));
}

proof fn lemma_quiet_step<T: Real>(st: LimiterState<T>, x: T)
    requires
        one_is_neutral(st.attack, st.release),
        st.gain == arith::whole::<T>(1),
        within(st.threshold, x),
        forall|k: int|
            0 <= k < st.window.len() ==> (#[trigger] st.window[k]).1 == arith::whole::<T>(1),
    ensures
        st.after(x).gain == arith::whole::<T>(1),
        st.after(x).threshold == st.threshold,
        st.after(x).attack == st.attack,
        st.after(x).release == st.release,
        forall|k: int|
            0 <= k < st.after(x).window.len() ==> (#[trigger] st.after(x).window[k]).1
                == arith::whole::<T>(1),
{
    let need = needed_gain(st.threshold, x);
    let p = lemma_shed(st.window, need);
    let joined = shed(st.window, need).push((st.pos as u64, need));
    let d = lemma_expired(joined, st.pos, st.lookahead);
    let next = st.next_window(x);
    assert forall|k: int| 0 <= k < next.len() implies (#[trigger] next[k]).1 == arith::whole::<T>(
        1,
    ) by {
        assert(next[k] == joined[d + k]);
        if d + k < p {
            assert(joined[d + k] == st.window[d + k]);
        }
    }
}

proof fn lemma_quiet_state<T: Real>(st: LimiterState<T>, xs: Seq<T>)
    requires
        one_is_neutral(st.attack, st.release),
        st.gain == arith::whole::<T>(1),
        st.window == Seq::<(u64, T)>::empty(),
        forall|k: int| 0 <= k < xs.len() ==> within(st.threshold, #[trigger] xs[k]),
    ensures
        limited_state(st, xs).gain == arith::whole::<T>(1),
        limited_state(st, xs).threshold == st.threshold,
        limited_state(st, xs).attack == st.attack,
        limited_state(st, xs).release == st.release,
        forall|k: int|
            0 <= k < limited_state(st, xs).window.len() ==> (#[trigger] limited_state(
                st,
                xs,
            ).window[k]).1 == arith::whole::<T>(1),
    decreases xs.len(),
{
    if xs.len() > 0 {
        let front = xs.drop_last();
        assert forall|k: int| 0 <= k < front.len() implies within(
            st.threshold,
            #[trigger] front[k],
        ) by {
            assert(front[k] == xs[k]);
        }
        lemma_quiet_state(st, front);
        lemma_quiet_step(limited_state(st, front), xs.last());
    }
}

/// The branches of the prototype share its taps out among them: each tap stands in one of them,
/// in turn.
pub proof fn law_branches_share_the_taps<T: Real, W: Wide<T>>(n: int)
    requires
        0 <= n < 240,
    ensures
        branch::<T, W>(n % 3).len() == 80,
        branch::<T, W>(n % 3)[n / 3] == prototype::<T, W>(n),
{
}

/// The upsampler answers a sample with its branches, three taps at a time: of an input that is
/// silent but at place `j`, the output sample `m` is that sample times the tap `m / 3 - j` of
/// branch `m % 3`, where there is one, and silence otherwise.
pub proof fn law_upsampler_answers_with_its_branches<T: Real>(
    phase: Seq<Seq<T>>,
    h: Seq<T>,
    xs: Seq<T>,
    j: int,
    m: int,
)
    requires
        arith::neutral::<T>(),
        phase.len() == 3,
        forall|p: int| 0 <= p < 3 ==> (#[trigger] phase[p]).len() == 80,
        h.len() == 80,
        forall|k: int| 0 <= k < 80 ==> #[trigger] h[k] == arith::whole::<T>(0),
        0 <= j < xs.len(),
        forall|k: int| 0 <= k < xs.len() && k != j ==> #[trigger] xs[k] == arith::whole::<T>(0),
        0 <= m < 3 * xs.len(),
    ensures
        upsampled(phase, h, xs).len() == 3 * xs.len(),
        0 <= m / 3 - j < 80 ==> upsampled(phase, h, xs)[m] == arith::times(
            phase[m % 3][m / 3 - j],
            xs[j],
        ),
        !(0 <= m / 3 - j < 80) ==> upsampled(phase, h, xs)[m] == arith::whole::<T>(0),
{
    let c = phase[m % 3];
    let past = xs.take(m / 3 + 1);
    let x = fir::pushed(h, past);
    let k = m / 3 - j;
    assert forall|i: int| 0 <= i < 80 && i != k implies #[trigger] x[i] == arith::whole::<T>(0) by {
        if i < past.len() {
            assert(x[i] == xs[m / 3 - i]);
        } else {
            assert(x[i] == h[i - past.len()]);
        }
    }
    if 0 <= k < 80 {
        assert(x[k] == xs[j]);
        fir::law_each_sample_has_its_coefficient(c, x, k);
    } else {
        fir::lemma_silence_adds_nothing(c, x);
    }
}

/// A biquad is its difference equation: the output is the sum of the last three inputs under the
/// forward coefficients, without the last two outputs under those that feed back.
pub proof fn law_biquad_is_its_difference_equation<T: Real>(f: Biquad<T>, x0: T, x1: T, x2: T)
    requires
        arith::neutral::<T>(),
    ensures
        ({
            let zero = arith::whole::<T>(0);
            let y0 = f.output(x0);
            let y1 = f.after(x0).output(x1);
            let y2 = f.after(x0).after(x1).output(x2);
            &&& f.z1 == zero ==> y0 == arith::times(f.b0, x0)
            &&& f.z2 == zero ==> y1 == arith::plus(
                arith::times(f.b0, x1),
                arith::minus(arith::times(f.b1, x0), arith::times(f.a1, y0)),
            )
            &&& y2 == arith::plus(
                arith::times(f.b0, x2),
                arith::plus(
                    arith::minus(arith::times(f.b1, x1), arith::times(f.a1, y1)),
                    arith::minus(arith::times(f.b2, x0), arith::times(f.a2, y0)),
                ),
            )
        }),
{
}

/// The high-pass and the low-pass of one frequency have the same poles and nothing in memory; at
/// zero frequency the one lets everything pass and the other nothing, and at half of the rate it
/// is the other way round. The half-band angle is that of the frequency over the rate.
pub proof fn law_filters_part_the_band<T: Real>(fs: T, f0: T, q: T)
    requires
        arith::neutral::<T>(),
    ensures
        ({
            let w0 = arith::over(
                arith::times(arith::times(arith::whole::<T>(2), arith::pi()), f0),
                fs,
            );
            let zero = arith::whole::<T>(0);
            let one = arith::whole::<T>(1);
            let two = arith::whole::<T>(2);
            let alpha = arith::over(arith::sine(w0), arith::times(two, q));
            let hp = highpass(fs, f0, q);
            let lp = lowpass(fs, f0, q);
            &&& hp.a1 == lp.a1 && hp.a2 == lp.a2
            &&& hp.b0 == hp.b2 && lp.b0 == lp.b2
            &&& hp.z1 == zero && hp.z2 == zero && lp.z1 == zero && lp.z2 == zero
            &&& arith::cosine(w0) == one && alpha == zero && arith::over(arith::plus(one, one), two)
                == one && arith::over(zero, two) == zero ==> hp.b0 == one && lp.b0 == zero && lp.b1
                == zero && hp.b1 == arith::negated(arith::plus(one, one)) && hp.a2 == one
            &&& arith::cosine(w0) == arith::whole::<T>((-1) as i64) && alpha == zero && arith::plus(
                one,
                arith::whole((-1) as i64),
            ) == zero && arith::minus(one, arith::whole((-1) as i64)) == two && arith::over(
                two,
                two,
            ) == one && arith::over(zero, two) == zero && arith::negated(zero) == zero ==> hp.b0
                == zero && lp.b0 == one && lp.b1 == two && hp.b1 == zero
            &&& arith::cosine(w0) == zero && arith::plus(one, alpha) == two ==> hp.b0 == arith::over(
                arith::over(one, two),
                two,
            ) && lp.b1 == arith::over(one, two) && hp.a2 == arith::over(
                arith::minus(one, alpha),
                two,
            )
        }),
{
}

/// To move towards a value by nothing is to stay, and by all of the way is to arrive; where one
/// is, one stays.
pub proof fn law_steps_lead_towards_their_goal<T: Real>(from: T, to: T, coef: T)
    requires
        arith::neutral::<T>(),
        arith::minus(to, to) == arith::whole::<T>(0),
        arith::plus(from, arith::minus(to, from)) == to,
    ensures
        towards(from, to, arith::whole(0)) == from,
        towards(from, to, arith::whole(1)) == to,
        towards(to, to, coef) == to,
        towards(arith::whole(0), to, coef) == arith::times(coef, to),
{
}

/// A follower takes nothing of a step whose time is endless and all of one that takes no time.
pub proof fn law_share_goes_with_the_time<T: Real>(samples: T)
    requires
        arith::neutral::<T>(),
    ensures
        arith::exponential(arith::over(arith::whole((-1) as i64), samples)) == arith::whole::<T>(0)
            ==> one_pole(samples) == arith::whole::<T>(1),
        arith::exponential(arith::over(arith::whole((-1) as i64), samples)) == arith::whole::<T>(1)
            ==> one_pole(samples) == arith::whole::<T>(0),
{
}

/// An envelope rises by its attack and falls by its release towards the size of the sample,
/// whichever sign that has.
pub proof fn law_envelope_rises_by_attack_and_falls_by_release<T: Real>(
    e: EnvFollower<T>,
    x: T,
    y: T,
)
    requires
        arith::neutral::<T>(),
        arith::plus(e.env, arith::minus(arith::absolute(x), e.env)) == arith::absolute(x),
    ensures
        arith::below(e.env, arith::absolute(x)) && e.attack == arith::whole::<T>(1) ==> e.after(
            x,
        ).env == arith::absolute(x),
        arith::below(e.env, arith::absolute(x)) && e.attack == arith::whole::<T>(0) ==> e.after(
            x,
        ).env == e.env,
        !arith::below(e.env, arith::absolute(x)) && e.release == arith::whole::<T>(1) ==> e.after(
            x,
        ).env == arith::absolute(x),
        !arith::below(e.env, arith::absolute(x)) && e.release == arith::whole::<T>(0) ==> e.after(
            x,
        ).env == e.env,
        e.after(x).attack == e.attack && e.after(x).release == e.release,
        arith::absolute(x) == arith::absolute(y) ==> e.after(x) == e.after(y),
{
}

/// A synthetic sample is left as it is up to three quarters of its bound, and bent above: it keeps
/// its sign, starts bending where it was left, and never goes beyond the bound, to which it comes
/// where the bend is full.
pub proof fn law_bound_bends_smoothly<T: Real>(add: T, bound: T)
    requires
        arith::neutral::<T>(),
        arith::plus(
            arith::fraction::<T>(75, 100),
            arith::minus(arith::whole(1), arith::fraction(75, 100)),
        ) == arith::whole::<T>(1),
        arith::over(
            arith::whole::<T>(0),
            arith::minus(arith::whole(1), arith::fraction(75, 100)),
        ) == arith::whole::<T>(0),
        arith::tangent(arith::whole::<T>(0)) == arith::whole::<T>(0),
    ensures
        ({
            let u = arith::over(add, bound);
            let size = arith::absolute(u);
            let knee = arith::fraction::<T>(75, 100);
            let bend = arith::tangent(
                arith::over(
                    arith::minus(size, knee),
                    arith::minus(arith::whole(1), knee),
                ),
            );
            let r = soft_bound(add, bound);
            &&& arith::at_most(size, knee) ==> r == u
            &&& !arith::at_most(size, knee) && bend == arith::whole::<T>(1) ==> r == arith::sign(u)
            &&& !arith::at_most(size, knee) && arith::minus(size, knee) == arith::whole::<T>(0)
                ==> r == arith::times(arith::sign(u), knee)
        }),
{
}

/// The exciter's gain is guarded and capped: it goes towards the quotient of the two envelopes,
/// never more than eight, and towards nothing where the source is silent; it rises by the one
/// share and falls by the other.
pub proof fn law_gain_is_guarded_and_capped<T: Real>(st: ExciterState<T>, x: T)
    requires
        arith::neutral::<T>(),
        forall|a: T, b: T| arith::plus(a, #[trigger] arith::minus(b, a)) == b,
    ensures
        ({
            let next = st.after(x);
            let ratio = arith::over(
                next.src_env.env,
                arith::plus(next.harm_env.env, arith::fraction(1, 1_000_000_000)),
            );
            let guard = arith::clamped(
                arith::over(next.src_env.env, arith::fraction(2, 1000)),
                arith::whole(0),
                arith::whole(1),
            );
            let zero = arith::whole::<T>(0);
            let one = arith::whole::<T>(1);
            let eight = arith::whole::<T>(8);
            let goal = |target: T|
                if arith::below(st.gain, target) {
                    &&& st.gain_up == one ==> next.gain == target
                    &&& st.gain_up == zero ==> next.gain == st.gain
                } else {
                    &&& st.gain_down == one ==> next.gain == target
                    &&& st.gain_down == zero ==> next.gain == st.gain
                };
            &&& guard == zero ==> goal(zero)
            &&& guard == one && arith::smaller(ratio, eight) == eight ==> goal(eight)
            &&& guard == one && arith::smaller(ratio, eight) == ratio ==> goal(ratio)
            &&& next.gain_up == st.gain_up && next.gain_down == st.gain_down && next.taps == st.taps
        }),
{
}

/// The exciter listens to its source band: the low-pass behind the high-pass of the input. The
/// harmonics are made of the band's size, and each of the two envelopes follows its own signal.
pub proof fn law_exciter_listens_to_its_band<T: Real>(st: ExciterState<T>, x: T)
    ensures
        ({
            let next = st.after(x);
            let low = st.band_hp.output(x);
            let band = st.band_lp.output(low);
            &&& st.band(x) == band
            &&& next.band_hp == st.band_hp.after(x)
            &&& next.band_lp == st.band_lp.after(low)
            &&& next.src_env == st.src_env.after(band)
            &&& next.harm_env == st.harm_env.after(st.harmonic(x))
            &&& next.hist.len() == st.hist.len()
            &&& st.hist.len() > 0 ==> next.hist[0] == arith::absolute(band)
            &&& forall|k: int| 0 < k < st.hist.len() ==> #[trigger] next.hist[k] == st.hist[k - 1]
            &&& st.harmonic(x) == fir::convolved(st.taps, next.hist)
        }),
{
}

/// What the exciter adds is half of the gained harmonics, by the mix amount, as long as that stays
/// within three quarters of one and a half of the source's envelope; the input itself is always
/// passed on in full.
pub proof fn law_exciter_adds_to_its_input<T: Real>(st: ExciterState<T>, x: T, wet: T)
    requires
        arith::neutral::<T>(),
        arith::below(arith::whole(0), wet),
        forall|a: T, b: T, c: T|
            arith::below(arith::whole(0), b) ==> #[trigger] arith::times(
                arith::times(a, b),
                arith::over(c, b),
            ) == arith::times(a, c),
    ensures
        ({
            let next = st.after(x);
            let add = arith::times(
                arith::times(arith::fraction::<T>(1, 2), next.gain),
                st.harmonic(x),
            );
            let bound = arith::plus(
                arith::times(arith::fraction::<T>(3, 2), next.src_env.env),
                arith::fraction(1, 1_000_000_000_000),
            );
            &&& arith::below(arith::whole(0), bound) && arith::at_most(
                arith::absolute(arith::over(add, bound)),
                arith::fraction(75, 100),
            ) ==> st.output(x, wet) == arith::plus(x, arith::times(wet, add))
            &&& soft_bound(add, bound) == arith::whole::<T>(0) ==> st.output(x, wet) == x
            &&& soft_bound(add, bound) == arith::whole::<T>(1) ==> st.output(x, wet) == arith::plus(
                x,
                arith::times(wet, bound),
            )
        }),
{
}

/// The mix amount moves evenly over a chunk and is that which was asked for at its last sample.
pub proof fn law_mix_arrives_with_the_last_sample<T: Real>(
    st: ExciterState<T>,
    from: T,
    to: T,
    xs: Seq<T>,
)
    requires
        arith::neutral::<T>(),
        0 < xs.len() <= usize::MAX,
        arith::count::<T>(0) == arith::whole::<T>(0),
        forall|a: T, d: T, k: usize|
            k < usize::MAX ==> arith::plus(#[trigger] arith::plus(a, arith::times(arith::count(k), d)), d)
                == arith::plus(a, arith::times(arith::count((k + 1) as usize), d)),
        arith::plus(
            from,
            arith::times(
                arith::count(xs.len() as usize),
                arith::over(arith::minus(to, from), arith::count(xs.len() as usize)),
            ),
        ) == to,
    ensures
        ({
            let step = arith::over(arith::minus(to, from), arith::count(xs.len() as usize));
            let n = xs.len() as int;
            &&& excited(st, from, step, xs).len() == n
            &&& excited(st, from, step, xs)[n - 1] == excited_state(st, xs.drop_last()).output(
                xs.last(),
                to,
            )
            &&& excited(st, from, step, xs)[0] == st.output(xs[0], arith::plus(from, step))
        }),
{
    let step = arith::over(arith::minus(to, from), arith::count::<T>(xs.len() as usize));
    let n = xs.len() as int;
    lemma_ramp_is_even(from, step, n);
    assert(xs.take(n - 1) =~= xs.drop_last());
    assert(xs.take(0).len() == 0);
    reveal_with_fuel(ramp, 2);
}

/// A ramp has moved by as many steps as it has taken.
proof fn lemma_ramp_is_even<T: Real>(wet: T, step: T, k: int)
    requires
        arith::neutral::<T>(),
        0 <= k <= usize::MAX,
        arith::count::<T>(0) == arith::whole::<T>(0),
        forall|a: T, d: T, k: usize|
            k < usize::MAX ==> arith::plus(#[trigger] arith::plus(a, arith::times(arith::count(k), d)), d)
                == arith::plus(a, arith::times(arith::count((k + 1) as usize), d)),
    ensures
        ramp(wet, step, k) == arith::plus(wet, arith::times(arith::count(k as usize), step)),
    decreases k,
{
    if k > 0 {
        lemma_ramp_is_even(wet, step, k - 1);
        let j = (k - 1) as usize;
        assert(arith::plus(arith::plus(wet, arith::times(arith::count(j), step)), step)
            == arith::plus(wet, arith::times(arith::count((j + 1) as usize), step)));
    }
}

/// A limiter's gain falls by the attack and rises by the release: at the one it is at its target
/// at once, at nothing it does not move.
pub proof fn law_gain_falls_by_attack_and_rises_by_release<T: Real>(st: LimiterState<T>, x: T)
    requires
        arith::neutral::<T>(),
        forall|a: T, b: T| arith::plus(a, #[trigger] arith::minus(b, a)) == b,
        st.next_window(x).len() > 0,
    ensures
        ({
            let target = st.next_window(x)[0].1;
            let zero = arith::whole::<T>(0);
            let one = arith::whole::<T>(1);
            &&& arith::below(target, st.gain) && st.attack == one ==> st.next_gain(x) == target
            &&& arith::below(target, st.gain) && st.attack == zero ==> st.next_gain(x) == st.gain
            &&& !arith::below(target, st.gain) && st.release == one ==> st.next_gain(x) == target
            &&& !arith::below(target, st.gain) && st.release == zero ==> st.next_gain(x) == st.gain
            &&& st.after(x).gain == st.next_gain(x)
            &&& st.after(x).pos == st.pos + 1
        }),
{
}

/// A sample above the threshold needs as much less gain as it is above it; one within it needs
/// none taken away.
pub proof fn law_needed_gain_brings_to_the_threshold<T: Real>(threshold: T, x: T)
    requires
        arith::times(arith::absolute(x), arith::over(threshold, arith::absolute(x))) == threshold,
    ensures
        arith::below(threshold, arith::absolute(x)) ==> arith::times(
            arith::absolute(x),
            needed_gain(threshold, x),
        ) == threshold,
        !arith::below(threshold, arith::absolute(x)) ==> needed_gain(threshold, x)
            == arith::whole::<T>(1),
{
}

/// An exciter that has heard nothing has nothing in memory and no gain. Its band reaches from
/// 3 to 8 kHz, its envelopes rise within 5 ms and fall within 50 ms, and its gain takes 15 ms up
/// and 3 ms down.
pub proof fn law_fresh_exciter_is_at_rest<T: Real, W: Wide<T>>(fs: T, k: int)
    requires
        0 <= k < 241,
    ensures
        ({
            let st = fresh_exciter::<T, W>(fs);
            let zero = arith::whole::<T>(0);
            let q = arith::fraction::<T>(707_106_781_186_547_524, 1_000_000_000_000_000_000);
            let share = |samples: T|
                arith::minus(
                    arith::whole::<T>(1),
                    arith::exponential(arith::over(arith::whole((-1) as i64), samples)),
                );
            &&& st.hist.len() == 241 && st.hist[k] == zero
            &&& st.taps.len() == 241
            &&& st.src_env == st.harm_env
            &&& st.src_env.env == zero && st.gain == zero
            &&& st.src_env.attack == share(arith::times(fs, arith::fraction(5, 1000)))
            &&& st.src_env.release == share(arith::times(fs, arith::fraction(50, 1000)))
            &&& st.gain_up == share(arith::times(arith::fraction(15, 1000), fs))
            &&& st.gain_down == share(arith::times(arith::fraction(3, 1000), fs))
            &&& st.band_hp == highpass(fs, arith::whole(3_000), q)
            &&& st.band_lp == lowpass(fs, arith::whole(8_000), q)
        }),
{
}

/// The prototype is a low-pass at a sixth of the output rate, three times as strong, under a
/// Kaiser window of the shape 8.96 over its 240 taps: where the window is full, a tap is three
/// times the sinc at its distance from the middle, and where the window is empty it is zero.
pub proof fn law_prototype_is_a_windowed_low_pass<T: Real, W: Wide<T>>(n: int)
    requires
        arith::neutral::<T>(),
        0 <= n < 240,
        ({
            let full = fir::bessel::<T, W>(arith::fraction(896, 100));
            &&& arith::over(full, full) == arith::whole::<T>(1)
            &&& arith::over(arith::whole::<T>(0), full) == arith::whole::<T>(0)
        }),
    ensures
        ({
            let c = arith::over(arith::count::<T>(239), arith::whole(2));
            let t = arith::minus(arith::count(n as usize), c);
            let window = fir::kaiser::<T, W>(arith::fraction(896, 100), t, c);
            let low = fir::sinc(
                arith::over(arith::whole::<T>(1), arith::times(arith::whole(2), arith::count(3))),
                t,
            );
            &&& window == fir::bessel::<T, W>(arith::fraction(896, 100)) ==> prototype::<T, W>(n)
                == arith::times(arith::count::<T>(3), low)
            &&& window == arith::whole::<T>(0) ==> prototype::<T, W>(n) == arith::whole::<T>(0)
        }),
{
}

/// The taps of the steep high-pass are those of a low-pass taken from a pulse: a tap and the low
/// pass there make up nothing, and in the middle one.
pub proof fn law_high_pass_is_a_pulse_without_the_low_pass<T: Real, W: Wide<T>>(
    fs: T,
    fc: T,
    ntaps: int,
    beta: T,
    n: int,
)
    requires
        0 <= n < ntaps <= usize::MAX,
        ntaps % 2 == 1,
        forall|x: T| arith::plus(#[trigger] arith::negated(x), x) == arith::whole::<T>(0),
        forall|x: T|
            arith::plus(
                arith::plus(#[trigger] arith::negated(x), arith::whole(1)),
                x,
            ) == arith::whole::<T>(1),
    ensures
        ({
            let c = arith::over(arith::count::<T>((ntaps - 1) as usize), arith::whole(2));
            let t = arith::minus(arith::count(n as usize), c);
            let low = arith::over(
                arith::times(
                    fir::sinc(arith::over(fc, fs), t),
                    fir::kaiser::<T, W>(beta, t, c),
                ),
                fir::bessel::<T, W>(beta),
            );
            let tap = highpass_tap::<T, W>(fs, fc, ntaps, beta, n);
            &&& 2 * n == ntaps - 1 ==> arith::plus(tap, low) == arith::whole::<T>(1)
            &&& 2 * n != ntaps - 1 ==> arith::plus(tap, low) == arith::whole::<T>(0)
        }),
{
}

} // verus!
