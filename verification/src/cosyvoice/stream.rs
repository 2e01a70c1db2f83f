//! Live conversion: a sliding window of the source is tokenized and rendered anew for every hop,
//! and the part that belongs to the new block is returned, faded into the hop before.
//!
//! A hop has two halves. [`CosyVoiceStream::window`] says which audio to render. The render goes
//! into [`CosyVoiceStream::emit`], which returns the audio of the block.

use vstd::prelude::*;
use crate::arith;
use crate::arith::Real;
use crate::arith::Wide;
use crate::buffers::append;
use crate::buffers::part;
use crate::profile;
use crate::ratio;

verus! {

/// Samples for each token at 16 kHz.
pub const SAMPLES_PER_TOKEN: usize = 640;

/// Samples per second of what a stream returns.
pub const STREAM_OUT_SR: usize = 48_000;

/// Settings of a stream.
#[derive(Clone, Copy)]
pub struct StreamConfig {
    /// New samples at 16 kHz for each hop, a multiple of [`SAMPLES_PER_TOKEN`].
    pub block: usize,
    /// Samples before them that are rendered too, a multiple of [`SAMPLES_PER_TOKEN`].
    pub context: usize,
    /// Samples at 24 kHz over which two hops are faded.
    pub crossfade_24k: usize,
}

impl Default for StreamConfig {
    /// Blocks of one second after three seconds of context.
    fn default() -> (c: Self)
        ensures
            c == (StreamConfig { block: 16_000, context: 48_000, crossfade_24k: 1_920 }),
    {
        StreamConfig { block: 16_000, context: 48_000, crossfade_24k: 1_920 }
    }
}

/// The raised cosine at place `i` of `n`.
pub open spec fn raised<T: Real>(i: int, n: int) -> T {
    arith::minus(
        arith::fraction(1, 2),
        arith::times(
            arith::fraction(1, 2),
            arith::cosine(
                arith::over(
                    arith::times(arith::pi(), arith::count(i as usize)),
                    arith::count::<T>(if n < 1 { 1 } else { n as usize }),
                ),
            ),
        ),
    )
}

/// A raised cosine of `n` values from 0 towards 1.
pub fn raised_cosine<T: Real>(n: usize) -> (v: Vec<T>)
    ensures
        v.len() == n,
        arith::deterministic::<T>() ==> forall|i: int|
            0 <= i < n ==> #[trigger] v@[i] == raised::<T>(i, n as int),
{
    let d: usize = if n < 1 { 1 } else { n };
    let mut v: Vec<T> = Vec::new();
    let mut i: usize = 0;
    while i < n
        invariant
            i <= n,
            d == (if n < 1 { 1 } else { n }),
            v.len() == i,
            arith::deterministic::<T>() ==> forall|k: int|
                0 <= k < i ==> #[trigger] v@[k] == raised::<T>(k, n as int),
        decreases n - i,
    {
        v.push(
            T::fraction(1, 2).minus(
                T::fraction(1, 2).times(T::pi().times(T::count(i)).over(T::count(d)).cosine()),
            ),
        );
        i = i + 1;
    }
    v
}

/// The part of a render that a hop returns or keeps: the samples of the block, and before them
/// those over which it is faded into the hop before, as far as the render reaches.
pub open spec fn settled<T>(audio: Seq<T>, cfg: StreamConfig, first: bool) -> Seq<T> {
    let want = cfg.block * 3 / 2 + (if first { 0 } else { cfg.crossfade_24k as int });
    if audio.len() > want {
        audio.skip(audio.len() - want)
    } else {
        audio
    }
}

/// Samples over which a part of `n` samples is faded.
pub open spec fn fade_len(n: int, crossfade: int) -> int {
    if crossfade < n / 2 {
        crossfade
    } else {
        n / 2
    }
}

/// The part `x` with its first `cf` samples faded in over the tail of the hop before.
pub open spec fn blended<T: Real>(x: Seq<T>, tail: Seq<T>, n: int, cf: int) -> Seq<T> {
    Seq::new(
        x.len(),
        |i: int|
            if i < cf {
                let w = raised::<T>(i, n);
                arith::plus(
                    arith::times(tail[i], arith::minus(arith::whole(1), w)),
                    arith::times(x[i], w),
                )
            } else {
                x[i]
            },
    )
}

/// A stream of one speaker.
pub struct CosyVoiceStream<T: Real> {
    /// The settings.
    pub cfg: StreamConfig,
    /// The last samples of the source at 16 kHz.
    pub buf: Vec<T>,
    /// How many of them no hop has taken yet.
    pub pending: usize,
    /// The end of the last render, kept for the fade.
    pub tail: Option<Vec<T>>,
    /// The share of the new hop over a fade.
    pub fade_in: Vec<T>,
    /// The share of the hop before over a fade.
    pub fade_out: Vec<T>,
}

impl<T: Real> CosyVoiceStream<T> {
    /// Whether the sizes are in order.
    pub open spec fn valid(&self) -> bool {
        &&& self.pending <= self.buf.len()
        &&& self.cfg.block % SAMPLES_PER_TOKEN == 0
        &&& self.cfg.context % SAMPLES_PER_TOKEN == 0
        &&& self.cfg.context + self.cfg.block <= usize::MAX
        &&& self.cfg.block * 3 + self.cfg.crossfade_24k <= usize::MAX
        &&& self.fade_in.len() == self.cfg.crossfade_24k
        &&& self.fade_out.len() == self.cfg.crossfade_24k
    }

    /// Whether the fades are raised cosines.
    pub open spec fn fades_are_raised_cosines(&self) -> bool {
        forall|i: int|
            0 <= i < self.cfg.crossfade_24k ==> #[trigger] self.fade_in@[i] == raised::<T>(
                i,
                self.cfg.crossfade_24k as int,
            ) && self.fade_out@[i] == arith::minus(
                arith::whole(1),
                raised::<T>(i, self.cfg.crossfade_24k as int),
            )
    }

    /// The samples that no hop has taken yet.
    pub open spec fn waiting(&self) -> Seq<T> {
        self.buf@.skip(self.buf.len() - self.pending)
    }

    /// A stream that has heard nothing yet.
    pub fn new(cfg: StreamConfig) -> (s: Self)
        requires
            cfg.block % SAMPLES_PER_TOKEN == 0,
            cfg.context % SAMPLES_PER_TOKEN == 0,
            cfg.context + cfg.block <= usize::MAX,
            cfg.block * 3 + cfg.crossfade_24k <= usize::MAX,
        ensures
            s.valid(),
            s.cfg == cfg,
            s.buf@.len() == 0,
            s.pending == 0,
            s.tail is None,
            arith::deterministic::<T>() ==> s.fades_are_raised_cosines(),
    {
        let fade_in: Vec<T> = raised_cosine(cfg.crossfade_24k);
        let mut fade_out: Vec<T> = Vec::new();
        let mut i: usize = 0;
        while i < fade_in.len()
            invariant
                i <= fade_in.len(),
                fade_out.len() == i,
                arith::deterministic::<T>() ==> forall|k: int|
                    0 <= k < i ==> #[trigger] fade_out@[k] == arith::minus(
                        arith::whole(1),
                        fade_in@[k],
                    ),
            decreases fade_in.len() - i,
        {
            fade_out.push(T::whole(1).minus(fade_in[i]));
            i = i + 1;
        }
        CosyVoiceStream { cfg, buf: Vec::new(), pending: 0, tail: None, fade_in, fade_out }
    }

    /// Takes samples at 16 kHz.
    pub fn push_16k(&mut self, samples: &[T])
        requires
            old(self).valid(),
            old(self).buf.len() + samples.len() <= usize::MAX,
        ensures
            final(self).valid(),
            final(self).cfg == old(self).cfg,
            final(self).tail == old(self).tail,
            final(self).fade_in == old(self).fade_in,
            final(self).fade_out == old(self).fade_out,
            final(self).buf@ == old(self).buf@ + samples@,
            final(self).pending == old(self).pending + samples.len(),
            final(self).waiting() == old(self).waiting() + samples@,
    {
        append(&mut self.buf, samples);
        self.pending = self.pending + samples.len();
        assert(self.waiting() =~= old(self).waiting() + samples@);
    }

    /// Takes samples at the rate `sr`, converted to 16 kHz.
    pub fn push<W: Wide<T>>(&mut self, samples: &[T], sr: usize)
        requires
            old(self).valid(),
            0 < sr,
            samples.len() * profile::reduced(16_000, sr) <= usize::MAX,
            old(self).buf.len() + (if sr == 16_000 {
                samples.len() as int
            } else {
                (samples.len() * profile::reduced(16_000, sr)) / profile::reduced(sr, 16_000)
            }) <= usize::MAX,
        ensures
            final(self).valid(),
            final(self).cfg == old(self).cfg,
            final(self).tail == old(self).tail,
            final(self).fade_in == old(self).fade_in,
            final(self).fade_out == old(self).fade_out,
            final(self).buf@.take(old(self).buf.len() as int) == old(self).buf@,
            final(self).pending - old(self).pending == final(self).buf.len() - old(self).buf.len(),
            sr == 16_000 ==> final(self).buf@ == old(self).buf@ + samples@,
            sr != 16_000 ==> final(self).buf.len() == old(self).buf.len() + (samples.len()
                * profile::reduced(16_000, sr)) / profile::reduced(sr, 16_000),
            sr != 16_000 && arith::wide_deterministic::<T, W>() ==> forall|n: int|
                old(self).buf.len() <= n < final(self).buf.len() ==> #[trigger] final(self).buf@[n]
                    == profile::resampled::<T, W>(
                    samples@,
                    profile::passband(sr, 16_000),
                    profile::reduced(16_000, sr) as usize,
                    profile::reduced(sr, 16_000) as usize,
                    n - old(self).buf.len(),
                ),
    {
        let s16k: Vec<T> = profile::resample_analysis::<T, W>(samples, sr, 16_000);
        self.push_16k(s16k.as_slice());
        assert(self.buf@.take(old(self).buf.len() as int) =~= old(self).buf@);
    }

    /// Whether a block of new audio is complete.
    pub fn ready(&self) -> (r: bool)
        ensures
            r == (self.pending >= self.cfg.block),
    {
        self.pending >= self.cfg.block
    }

    /// Takes the next block, if it is complete, and returns the audio to render: the block after
    /// as much of its context as there is. What no hop can need any more is dropped.
    pub fn window(&mut self) -> (r: Option<Vec<T>>)
        requires
            old(self).valid(),
        ensures
            final(self).valid(),
            final(self).cfg == old(self).cfg,
            final(self).tail == old(self).tail,
            final(self).fade_in == old(self).fade_in,
            final(self).fade_out == old(self).fade_out,
            r is Some <==> old(self).pending >= old(self).cfg.block,
            r is None ==> *final(self) == *old(self),
            r is Some ==> {
                let w = r->0@;
                let block = old(self).cfg.block as int;
                let end = old(self).buf.len() - (old(self).pending - block);
                let reach = old(self).cfg.context + block;
                let start = if end > reach { end - reach } else { 0 };
                &&& w == old(self).buf@.subrange(start, end)
                &&& w.skip(w.len() - block) == old(self).waiting().take(block)
                &&& final(self).buf@ == old(self).buf@.skip(start)
                &&& final(self).pending == old(self).pending - block
                &&& final(self).waiting() == old(self).waiting().skip(block)
            },
    {
        if !self.ready() {
            return None;
        }
        let n: usize = self.buf.len();
        let end: usize = n - (self.pending - self.cfg.block);
        let reach: usize = self.cfg.context + self.cfg.block;
        let start: usize = if end > reach { end - reach } else { 0 };
        let w: Vec<T> = part(self.buf.as_slice(), start, end);
        self.buf = part(self.buf.as_slice(), start, n);
        self.pending = self.pending - self.cfg.block;
        proof {
            let block = self.cfg.block as int;
            assert(w@.skip(w.len() - block) =~= old(self).waiting().take(block));
            assert(self.buf@ =~= old(self).buf@.skip(start as int));
            assert(self.waiting() =~= old(self).waiting().skip(block));
        }
        Some(w)
    }

    /// Takes the render of a window at 24 kHz and returns the samples of the block at that rate;
    /// the end is kept for the fade into the next hop.
    #[verifier::rlimit(40)]
    pub fn emit(&mut self, audio: &Vec<T>) -> (out: Vec<T>)
        requires
            old(self).valid(),
            old(self).tail is Some ==> fade_len(
                settled(audio@, old(self).cfg, false).len() as int,
                old(self).cfg.crossfade_24k as int,
            ) <= old(self).tail->0.len(),
        ensures
            final(self).valid(),
            final(self).cfg == old(self).cfg,
            final(self).buf == old(self).buf,
            final(self).pending == old(self).pending,
            final(self).fade_in == old(self).fade_in,
            final(self).fade_out == old(self).fade_out,
            ({
                let x = settled(audio@, old(self).cfg, old(self).tail is None);
                let n = old(self).cfg.crossfade_24k as int;
                let cf = fade_len(x.len() as int, n);
                &&& out.len() == x.len() - cf
                &&& final(self).tail is Some <==> cf > 0
                &&& final(self).tail is Some ==> final(self).tail->0@ == x.skip(x.len() - cf)
                &&& old(self).tail is None ==> out@ == x.take(x.len() - cf)
                &&& old(self).tail is Some && arith::deterministic::<T>()
                    && old(self).fades_are_raised_cosines() ==> out@ == blended(
                    x,
                    old(self).tail->0@,
                    n,
                    cf,
                ).take(x.len() - cf)
            }),
            ({
                let keeps = if final(self).tail is Some {
                    final(self).tail->0.len() as int
                } else {
                    0
                };
                let lead = if old(self).tail is Some {
                    old(self).cfg.crossfade_24k as int
                } else {
                    0
                };
                let want = old(self).cfg.block * 3 / 2 + lead;
                &&& out.len() + keeps == (if audio.len() < want {
                    audio.len() as int
                } else {
                    want
                })
                &&& keeps > 0 ==> final(self).tail->0@ == audio@.skip(audio.len() - keeps)
                &&& forall|i: int|
                    0 <= i < out.len() && (old(self).tail is None || keeps <= i)
                        ==> #[trigger] out@[i] == audio@[audio.len() - keeps - out.len() + i]
            }),
    {
        let first: bool = self.tail.is_none();
        let lead: usize = if first { 0 } else { self.cfg.crossfade_24k };
        let want: usize = self.cfg.block * 3 / 2 + lead;
        let from: usize = if audio.len() > want { audio.len() - want } else { 0 };
        let x: Vec<T> = part(audio.as_slice(), from, audio.len());
        assert(x@ =~= settled(audio@, self.cfg, first));
        let len: usize = x.len();
        let cf: usize = if self.cfg.crossfade_24k < len / 2 {
            self.cfg.crossfade_24k
        } else {
            len / 2
        };
        let mut out: Vec<T> = part(x.as_slice(), 0, len - cf);
        if cf > 0 {
            if let Some(prev) = &self.tail {
                let mut i: usize = 0;
                while i < cf
                    invariant
                        i <= cf <= prev.len(),
                        self.valid(),
                        *self == *old(self),
                        cf <= self.cfg.crossfade_24k,
                        2 * cf <= len == x.len(),
                        out.len() == len - cf,
                        forall|k: int| i <= k < len - cf ==> #[trigger] out@[k] == x@[k],
                        arith::deterministic::<T>() ==> forall|k: int|
                            0 <= k < i ==> #[trigger] out@[k] == arith::plus(
                                arith::times(prev@[k], self.fade_out@[k]),
                                arith::times(x@[k], self.fade_in@[k]),
                            ),
                    decreases cf - i,
                {
                    let v: T = prev[i].times(self.fade_out[i]).plus(
                        x[i].times(self.fade_in[i]),
                    );
                    out.set(i, v);
                    i = i + 1;
                }
                proof {
                    if arith::deterministic::<T>() && self.fades_are_raised_cosines() {
                        assert(out@ =~= blended(
                            x@,
                            prev@,
                            self.cfg.crossfade_24k as int,
                            cf as int,
                        ).take(len - cf));
                    }
                }
            } else {
                assert(out@ =~= x@.take(len - cf));
            }
            self.tail = Some(part(x.as_slice(), len - cf, len));
            assert(self.tail->0@ =~= x@.skip(len - cf));
        } else {
            self.tail = None;
            proof {
                assert(out@ =~= x@.take(len - cf));
                if old(self).tail is Some && arith::deterministic::<T>() {
                    assert(out@ =~= blended(
                        x@,
                        old(self).tail->0@,
                        self.cfg.crossfade_24k as int,
                        0,
                    ).take(len - cf));
                }
            }
        }
        proof {
            let at = audio.len() - len;
            assert(at == from);
            assert(x@.skip(len - cf) =~= audio@.skip(audio.len() - cf));
            assert forall|i: int|
                0 <= i < out.len() && (old(self).tail is None || cf <= i) implies #[trigger] out@[i]
                == audio@[at + i] by {
                assert(out@[i] == x@[i]);
                assert(x@[i] == audio@[at + i]);
            }
        }
        out
    }

    /// Returns the end of the last render, once.
    pub fn finish(&mut self) -> (r: Option<Vec<T>>)
        ensures
            r == old(self).tail,
            final(self).tail is None,
            final(self).cfg == old(self).cfg,
            final(self).buf == old(self).buf,
            final(self).pending == old(self).pending,
            final(self).fade_in == old(self).fade_in,
            final(self).fade_out == old(self).fade_out,
    {
        let mut r: Option<Vec<T>> = None;
        std::mem::swap(&mut r, &mut self.tail);
        r
    }
}

/// Converts audio at 24 kHz to the rate that a stream returns.
pub fn to_output<T: Real, W: Wide<T>>(audio: &Vec<T>) -> (out: Vec<T>)
    requires
        audio.len() * 2 <= usize::MAX,
    ensures
        out.len() == audio.len() * 2,
        arith::wide_deterministic::<T, W>() ==> forall|n: int|
            0 <= n < out.len() ==> #[trigger] out@[n] == profile::resampled::<T, W>(
                audio@,
                profile::passband(24_000, 48_000),
                2,
                1,
                n,
            ),
{
    proof {
        lemma_output_ratio();
    }
    profile::resample_analysis::<T, W>(audio.as_slice(), 24_000, 48_000)
}

/// 24 kHz is to 48 kHz as 1 is to 2.
proof fn lemma_output_ratio()
    ensures
        profile::reduced(24_000, 48_000) == 1,
        profile::reduced(48_000, 24_000) == 2,
{
    assert(24_000nat == 1nat * 24_000nat);
    assert(48_000nat == 2nat * 24_000nat);
    assert(ratio::is_gcd(24_000, 24_000, 48_000));
    assert(ratio::is_gcd(24_000, 48_000, 24_000));
    ratio::lemma_gcd_unique(24_000, 24_000, 48_000);
    ratio::lemma_gcd_unique(24_000, 48_000, 24_000);
}

/// A hop returns as many samples as it took in, at the rate of its output, three times that of
/// the source; the first one returns fewer, by those that it keeps for the fade. What a hop keeps
/// is long enough for the fade of the next one, whatever that renders.
pub proof fn law_hops_keep_time<T>(audio: Seq<T>, next: Seq<T>, cfg: StreamConfig, first: bool)
    requires
        cfg.block % SAMPLES_PER_TOKEN == 0,
        cfg.crossfade_24k <= cfg.block * 3 / 4,
        audio.len() >= cfg.block * 3 / 2 + cfg.crossfade_24k,
    ensures
        ({
            let n = settled(audio, cfg, first).len() as int;
            let cf = fade_len(n, cfg.crossfade_24k as int);
            &&& cf == cfg.crossfade_24k
            &&& 2 * (n - cf) == 3 * cfg.block - (if first {
                2 * cf
            } else {
                0
            })
            &&& fade_len(
                settled(next, cfg, false).len() as int,
                cfg.crossfade_24k as int,
            ) <= cf
        }),
{
    assert((cfg.block * 3) % 2 == 0);
}

/// A hop is the end of its render: it has the samples of a block and, unless it is the first, those
/// of a fade before them, and the last of them is the last one rendered.
pub proof fn law_hop_is_the_end_of_its_render<T>(
    audio: Seq<T>,
    cfg: StreamConfig,
    first: bool,
    k: int,
)
    requires
        1 <= k <= audio.len(),
        2 * k <= 3 * cfg.block + (if first {
            0
        } else {
            2 * cfg.crossfade_24k
        }),
    ensures
        ({
            let x = settled(audio, cfg, first);
            x.len() >= k && x[x.len() - k] == audio[audio.len() - k]
        }),
{
}

/// What a window was rendered to before its last samples does not matter: renders of any lengths
/// that end alike give the same hop.
pub proof fn law_old_context_is_not_heard<T>(
    one: Seq<T>,
    other: Seq<T>,
    cfg: StreamConfig,
    first: bool,
)
    requires
        one.len() >= cfg.block * 3 / 2 + cfg.crossfade_24k,
        other.len() >= cfg.block * 3 / 2 + cfg.crossfade_24k,
        forall|k: int|
            1 <= k <= cfg.block * 3 / 2 + cfg.crossfade_24k ==> #[trigger] one[one.len() - k]
                == other[other.len() - k],
    ensures
        settled(one, cfg, first) == settled(other, cfg, first),
{
    let a = settled(one, cfg, first);
    let b = settled(other, cfg, first);
    assert forall|i: int| 0 <= i < a.len() implies #[trigger] a[i] == b[i] by {
        assert(one[one.len() - (a.len() - i)] == other[other.len() - (a.len() - i)]);
    }
    assert(a =~= b);
}

/// Two hops join without a seam: where the new render starts with what the hop before has kept,
/// the fade changes nothing; and behind the fade it never changes anything.
pub proof fn law_fade_keeps_what_both_say<T: Real>(x: Seq<T>, tail: Seq<T>, n: int, cf: int)
    requires
        0 <= cf <= x.len(),
        cf <= tail.len(),
    ensures
        blended(x, tail, n, cf).len() == x.len(),
        blended(x, tail, n, cf).skip(cf) == x.skip(cf),
        arith::blends::<T>() && tail.take(cf) == x.take(cf) ==> blended(x, tail, n, cf) == x,
{
    let f = blended(x, tail, n, cf);
    assert(f.skip(cf) =~= x.skip(cf));
    if arith::blends::<T>() && tail.take(cf) == x.take(cf) {
        assert forall|i: int| 0 <= i < f.len() implies #[trigger] f[i] == x[i] by {
            if i < cf {
                let w = raised::<T>(i, n);
                assert(tail.take(cf)[i] == x.take(cf)[i]);
                assert(arith::plus(
                    arith::times(x[i], arith::minus(arith::whole(1), w)),
                    arith::times(x[i], w),
                ) == x[i]);
            }
        }
        assert(f =~= x);
    }
}

/// A fade goes from the hop before to the new one: where the share is zero it is the tail of the
/// hop before, and where the share is one it is the new render.
pub proof fn law_fade_goes_from_old_to_new<T: Real>(
    x: Seq<T>,
    tail: Seq<T>,
    n: int,
    cf: int,
    i: int,
)
    requires
        arith::neutral::<T>(),
        0 <= i < cf <= x.len(),
        cf <= tail.len(),
    ensures
        raised::<T>(i, n) == arith::whole::<T>(0) ==> blended(x, tail, n, cf)[i] == tail[i],
        raised::<T>(i, n) == arith::whole::<T>(1) ==> blended(x, tail, n, cf)[i] == x[i],
{
}

/// The shares of a fade start at zero, come to a half in the middle and rise from place to place.
/// The cosine has to fall from one at zero to zero at a quarter turn, and the operations keep the
/// order, as in exact arithmetic.
pub proof fn law_fade_rises<T: Real>(i: int, j: int, n: int)
    requires
        arith::neutral::<T>(),
        0 <= i <= j < n <= usize::MAX,
        arith::count::<T>(0) == arith::whole::<T>(0),
        arith::over(arith::whole::<T>(0), arith::count(n as usize)) == arith::whole::<T>(0),
        arith::cosine(arith::whole::<T>(0)) == arith::whole::<T>(1),
        arith::minus(arith::fraction::<T>(1, 2), arith::fraction(1, 2)) == arith::whole::<T>(0),
        forall|a: usize, b: usize|
            #![trigger arith::count::<T>(a), arith::count::<T>(b)]
            a <= b <= n ==> arith::at_most(
                arith::cosine(
                    arith::over(arith::times(arith::pi(), arith::count(b)), arith::count::<T>(n as usize)),
                ),
                arith::cosine(
                    arith::over(arith::times(arith::pi(), arith::count(a)), arith::count::<T>(n as usize)),
                ),
            ),
        forall|x: T, y: T|
            #![trigger arith::times(arith::fraction::<T>(1, 2), x), arith::times(arith::fraction::<T>(1, 2), y)]
            arith::at_most(x, y) ==> arith::at_most(
                arith::minus(arith::fraction(1, 2), arith::times(arith::fraction::<T>(1, 2), y)),
                arith::minus(arith::fraction(1, 2), arith::times(arith::fraction::<T>(1, 2), x)),
            ),
        2 * j == n ==> arith::cosine(
            arith::over(arith::times(arith::pi(), arith::count(j as usize)), arith::count::<T>(n as usize)),
        ) == arith::whole::<T>(0),
    ensures
        raised::<T>(0, n) == arith::whole::<T>(0),
        arith::at_most(raised::<T>(i, n), raised::<T>(j, n)),
        2 * j == n ==> raised::<T>(j, n) == arith::fraction::<T>(1, 2),
{
    let a = arith::count::<T>(i as usize);
    let b = arith::count::<T>(j as usize);
}

} // verus!
