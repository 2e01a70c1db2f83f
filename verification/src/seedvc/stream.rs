//! Live conversion: a sliding window of the source is converted for every block, and its tail
//! is returned, faded into what came before.
//!
//! A hop has two halves. [`SeedVcStream::begin`] says which audio to convert. What the engine
//! makes of it goes into [`SeedVcStream::emit`], which returns the audio of the block.

use vstd::prelude::*;
use crate::arith;
use crate::arith::Real;
use crate::arith::Wide;
use crate::buffers::append;
use crate::buffers::filled;
use crate::buffers::part;
use crate::rng;
use crate::rng::Rng;
use crate::seedvc::pipeline;

verus! {

/// Settings of a stream.
#[derive(Clone, Copy)]
pub struct StreamConfig<T: Real, W: Wide<T>> {
    /// New samples at 16 kHz for each hop.
    pub block: usize,
    /// Samples before them that the content encoder hears.
    pub context: usize,
    /// Samples before them that the sampler and the vocoder work on.
    pub dit_context: usize,
    /// Samples at 22.05 kHz over which two hops are faded.
    pub crossfade_22k: usize,
    /// Steps of the sampler.
    pub steps: usize,
    /// Rate of the guidance.
    pub cfg_rate: W,
    /// Longest prompt in seconds.
    pub max_prompt_s: T,
}

impl<T: Real, W: Wide<T>> Default for StreamConfig<T, W> {
    /// Blocks of 320 ms.
    fn default() -> (c: Self)
        ensures
            c.block == 5_120,
            c.context == 40_000,
            c.dit_context == 8_000,
            c.crossfade_22k == 882,
            c.steps == 8,
            arith::deterministic::<W>() ==> c.cfg_rate == arith::fraction::<W>(7, 10),
            arith::deterministic::<T>() ==> c.max_prompt_s == arith::whole::<T>(4),
    {
        StreamConfig {
            block: 5_120,
            context: 40_000,
            dit_context: 8_000,
            crossfade_22k: 882,
            steps: 8,
            cfg_rate: W::fraction(7, 10),
            max_prompt_s: T::whole(4),
        }
    }
}

/// The samples of a reference at 22.05 kHz that a prompt of at most `max_prompt_s` seconds
/// keeps: the first ones.
pub fn cap_reference<T: Real>(ref_22k: &[T], max_prompt_s: T) -> (r: Vec<T>)
    ensures
        r.len() <= ref_22k.len(),
        r@ == ref_22k@.take(r.len() as int),
        arith::deterministic::<T>() ==> ({
            let cap = arith::truncated(arith::times(max_prompt_s, arith::whole(22_050)));
            r.len() == (if ref_22k.len() > cap {
                cap as int
            } else {
                ref_22k.len() as int
            })
        }),
{
    let cap: usize = max_prompt_s.times(T::whole(22_050)).truncated();
    let n: usize = if ref_22k.len() > cap { cap } else { ref_22k.len() };
    let r: Vec<T> = part(ref_22k, 0, n);
    assert(r@ =~= ref_22k@.take(n as int));
    r
}

/// The last `n` values, or all if there are fewer.
pub open spec fn last_of<T>(s: Seq<T>, n: int) -> Seq<T> {
    if s.len() > n {
        s.skip(s.len() - n)
    } else {
        s
    }
}

/// How many samples a stream keeps while `pending` of them wait.
pub open spec fn kept(context: int, block: int, pending: int) -> int {
    context + (if block > pending {
        block
    } else {
        pending
    })
}

/// Samples at 22.05 kHz that a block at 16 kHz takes: the last one may reach past its end.
pub open spec fn block22(block: int) -> int {
    (block * 441 + 319) / 320
}

/// Samples over which two hops are faded.
pub open spec fn fade22(block: int, crossfade: int) -> int {
    if crossfade < block22(block) {
        crossfade
    } else {
        block22(block)
    }
}

/// The share of the new hop at place `i` of a fade over `n` samples.
pub open spec fn fade_share<T: Real, W: Wide<T>>(i: int, n: int) -> T {
    arith::narrowed::<T, W>(
        arith::minus(
            arith::fraction(1, 2),
            arith::times(
                arith::fraction(1, 2),
                arith::cosine(
                    arith::over(
                        arith::times(arith::pi(), arith::count(i as usize)),
                        arith::count::<W>(n as usize),
                    ),
                ),
            ),
        ),
    )
}

/// The last `need` samples of a render, with silence in front where it is shorter.
pub open spec fn settled<T: Real>(wave: Seq<T>, need: int) -> Seq<T> {
    if wave.len() >= need {
        wave.skip(wave.len() - need)
    } else {
        Seq::new((need - wave.len()) as nat, |k: int| arith::whole::<T>(0)) + wave
    }
}

/// A render with its first samples faded in over the tail of the render before, if that is as
/// long as the fade.
pub open spec fn faded<T: Real, W: Wide<T>>(wave: Seq<T>, tail: Seq<T>, n: int) -> Seq<T> {
    if tail.len() != n {
        wave
    } else {
        Seq::new(
            wave.len(),
            |i: int|
                if i < n {
                    let w = fade_share::<T, W>(i, n);
                    arith::plus(
                        arith::times(tail[i], arith::minus(arith::whole(1), w)),
                        arith::times(wave[i], w),
                    )
                } else {
                    wave[i]
                },
        )
    }
}

/// The normally distributed number `k` from a seed: two of them come from two uniform numbers.
pub open spec fn noise_value<T: Real, W: Wide<T>>(seed: u64, k: int) -> T {
    let pair = k / 2;
    let u1 = arith::larger(
        rng::unit::<W>(rng::state_after(seed, (2 * pair + 1) as nat)),
        arith::fraction(1, 1_000_000_000_000),
    );
    let u2 = rng::unit::<W>(rng::state_after(seed, (2 * pair + 2) as nat));
    let r = arith::root(arith::times(arith::whole((-2) as i64), arith::logarithm(u1)));
    let th = arith::times(arith::times(arith::whole(2), arith::pi()), u2);
    arith::narrowed::<T, W>(
        arith::times(
            r,
            if k % 2 == 0 {
                arith::cosine(th)
            } else {
                arith::sine(th)
            },
        ),
    )
}

/// A stream of one speaker.
pub struct SeedVcStream<T: Real, W: Wide<T>> {
    /// The settings.
    pub cfg: StreamConfig<T, W>,
    /// The last samples of the source at 16 kHz.
    pub buf: Vec<T>,
    /// How many of them no hop has taken yet.
    pub pending: usize,
    /// The end of the last render, kept for the fade.
    pub tail: Vec<T>,
    /// State of the noise generator.
    pub rng: u64,
}

impl<T: Real, W: Wide<T>> SeedVcStream<T, W> {
    /// Whether the sizes are in order.
    pub open spec fn valid(&self) -> bool {
        &&& self.pending <= self.buf.len()
        &&& self.cfg.block * 882 <= usize::MAX
        &&& self.cfg.context + self.cfg.block <= usize::MAX
        &&& self.cfg.dit_context + self.cfg.block <= usize::MAX
    }

    /// The samples that no hop has taken yet.
    pub open spec fn waiting(&self) -> Seq<T> {
        self.buf@.skip(self.buf.len() - self.pending)
    }

    /// A stream that has heard nothing yet.
    pub fn new(cfg: StreamConfig<T, W>) -> (s: Self)
        requires
            cfg.block * 882 <= usize::MAX,
            cfg.context + cfg.block <= usize::MAX,
            cfg.dit_context + cfg.block <= usize::MAX,
        ensures
            s.valid(),
            s.cfg == cfg,
            s.buf@.len() == 0,
            s.pending == 0,
            s.tail@.len() == 0,
            s.rng == 0x5eed_5eed_5eed_5eed,
    {
        SeedVcStream {
            cfg,
            buf: Vec::new(),
            pending: 0,
            tail: Vec::new(),
            rng: 0x5eed_5eed_5eed_5eed,
        }
    }

    /// Takes samples at 16 kHz. What no hop can need any more is dropped.
    pub fn push(&mut self, samples: &[T])
        requires
            old(self).valid(),
            old(self).pending + samples.len() + old(self).cfg.context + old(self).cfg.block
                <= usize::MAX,
        ensures
            final(self).valid(),
            final(self).cfg == old(self).cfg,
            final(self).tail == old(self).tail,
            final(self).rng == old(self).rng,
            final(self).pending == old(self).pending + samples.len(),
            final(self).waiting() == old(self).waiting() + samples@,
            final(self).buf@ == last_of(
                old(self).buf@ + samples@,
                kept(
                    old(self).cfg.context as int,
                    old(self).cfg.block as int,
                    final(self).pending as int,
                ),
            ),
    {
        let mut all: Vec<T> = Vec::new();
        std::mem::swap(&mut all, &mut self.buf);
        append(&mut all, samples);
        self.pending = self.pending + samples.len();
        let newest: usize = if self.cfg.block > self.pending {
            self.cfg.block
        } else {
            self.pending
        };
        let keep: usize = self.cfg.context + newest;
        let ghost whole = all@;
        if all.len() > keep {
            let from: usize = all.len() - keep;
            self.buf = part(all.as_slice(), from, all.len());
            assert(self.buf@ =~= all@.skip(from as int));
        } else {
            self.buf = all;
        }
        proof {
            assert(self.waiting() =~= whole.skip(whole.len() - self.pending));
            assert(self.waiting() =~= old(self).waiting() + samples@);
        }
    }

    /// Whether a block is complete.
    pub fn ready(&self) -> (r: bool)
        ensures
            r == (self.pending >= self.cfg.block),
    {
        self.pending >= self.cfg.block
    }

    /// Takes the next block, if one is complete, and returns the audio to convert: the samples up
    /// to the end of that block, as far back as the context reaches, for the content encoder, and
    /// of those the last ones, as far back as the shorter context reaches, for the sampler.
    pub fn begin(&mut self) -> (r: Option<(Vec<T>, Vec<T>)>)
        requires
            old(self).valid(),
        ensures
            final(self).valid(),
            final(self).cfg == old(self).cfg,
            final(self).buf == old(self).buf,
            final(self).tail == old(self).tail,
            final(self).rng == old(self).rng,
            r is Some <==> old(self).pending >= old(self).cfg.block,
            r is None ==> *final(self) == *old(self),
            r is Some ==> {
                let cfg = old(self).cfg;
                let block = cfg.block as int;
                let heard = old(self).buf@.take(old(self).buf.len() - (old(self).pending - block));
                let long = (r->0).0@;
                let short = (r->0).1@;
                &&& long == last_of(heard, cfg.context + block)
                &&& short == last_of(long, cfg.dit_context + block)
                &&& long.len() >= block
                &&& long.skip(long.len() - block) == old(self).waiting().take(block)
                &&& short.skip(short.len() - block) == old(self).waiting().take(block)
                &&& final(self).pending == old(self).pending - block
                &&& final(self).waiting() == old(self).waiting().skip(block)
            },
    {
        if !self.ready() {
            return None;
        }
        let end: usize = self.buf.len() - (self.pending - self.cfg.block);
        self.pending = self.pending - self.cfg.block;
        let long: usize = self.cfg.context + self.cfg.block;
        let from: usize = if end > long { end - long } else { 0 };
        let window: Vec<T> = part(self.buf.as_slice(), from, end);
        let most: usize = self.cfg.dit_context + self.cfg.block;
        let short: usize = if most < window.len() { most } else { window.len() };
        let tail: Vec<T> = part(window.as_slice(), window.len() - short, window.len());
        proof {
            let block = self.cfg.block as int;
            let heard = self.buf@.take(end as int);
            assert(window@ =~= last_of(heard, long as int));
            assert(tail@ =~= last_of(window@, most as int));
            assert(window@.skip(window.len() - block) =~= old(self).waiting().take(block));
            assert(tail@.skip(tail.len() - block) =~= old(self).waiting().take(block));
            assert(self.waiting() =~= old(self).waiting().skip(block));
        }
        Some((window, tail))
    }

    /// Takes the render of a window at 22.05 kHz and returns the samples of the block at 48 kHz:
    /// three for each that it took at 16 kHz.
    pub fn emit(&mut self, wave22: &Vec<T>) -> (out: Vec<T>)
        requires
            old(self).valid(),
        ensures
            final(self).valid(),
            final(self).cfg == old(self).cfg,
            final(self).buf == old(self).buf,
            final(self).pending == old(self).pending,
            final(self).rng == old(self).rng,
            out.len() == 3 * old(self).cfg.block,
            final(self).tail.len() == fade22(
                old(self).cfg.block as int,
                old(self).cfg.crossfade_22k as int,
            ),
            arith::wide_deterministic::<T, W>() ==> ({
                let b22 = block22(old(self).cfg.block as int);
                let n = fade22(old(self).cfg.block as int, old(self).cfg.crossfade_22k as int);
                let joined = faded::<T, W>(settled(wave22@, b22 + n), old(self).tail@, n);
                &&& final(self).tail@ == joined.skip(b22)
                &&& forall|k: int|
                    0 <= k < out.len() ==> #[trigger] out@[k] == pipeline::converted::<T, W>(
                        joined.take(b22),
                        147,
                        320,
                        16,
                        k,
                    )
            }),
    {
        let block: usize = self.cfg.block;
        let part22: Vec<T> = self.join(wave22);
        proof {
            let b22 = block22(block as int);
            assert((part22@ + self.tail@).take(b22) =~= part22@);
            assert((part22@ + self.tail@).skip(b22) =~= self.tail@);
        }
        to_output::<T, W>(&part22, block)
    }

    /// Takes the render of a window at 22.05 kHz and returns the samples of the block at that
    /// rate; the end of the render is kept for the fade into the next one.
    pub fn join(&mut self, wave22: &Vec<T>) -> (out: Vec<T>)
        requires
            old(self).valid(),
        ensures
            final(self).valid(),
            final(self).cfg == old(self).cfg,
            final(self).buf == old(self).buf,
            final(self).pending == old(self).pending,
            final(self).rng == old(self).rng,
            out.len() == block22(old(self).cfg.block as int),
            final(self).tail.len() == fade22(
                old(self).cfg.block as int,
                old(self).cfg.crossfade_22k as int,
            ),
            arith::wide_deterministic::<T, W>() ==> ({
                let n = fade22(old(self).cfg.block as int, old(self).cfg.crossfade_22k as int);
                let need = block22(old(self).cfg.block as int) + n;
                out@ + final(self).tail@ == faded::<T, W>(
                    settled(wave22@, need),
                    old(self).tail@,
                    n,
                )
            }),
            ({
                let n = fade22(old(self).cfg.block as int, old(self).cfg.crossfade_22k as int);
                let need = block22(old(self).cfg.block as int) + n;
                forall|i: int|
                    0 <= i < need && need <= wave22.len() && (i >= n || old(self).tail.len() != n)
                        ==> #[trigger] (out@ + final(self).tail@)[i] == wave22@[wave22.len() - need
                        + i]
            }),
    {
        let b22: usize = (self.cfg.block * 441 + 319) / 320;
        let xf: usize = if self.cfg.crossfade_22k < b22 { self.cfg.crossfade_22k } else { b22 };
        let need: usize = b22 + xf;
        let mut out: Vec<T> = if wave22.len() >= need {
            part(wave22.as_slice(), wave22.len() - need, wave22.len())
        } else {
            let mut v: Vec<T> = filled(T::whole(0), need - wave22.len());
            append(&mut v, wave22.as_slice());
            v
        };
        let ghost ready = out@;
        proof {
            if arith::deterministic::<T>() {
                assert(out@ =~= settled(wave22@, need as int));
            }
        }
        if self.tail.len() == xf {
            let mut i: usize = 0;
            while i < xf
                invariant
                    i <= xf == self.tail.len(),
                    xf <= need == out.len(),
                    ready.len() == need,
                    *self == *old(self),
                    forall|k: int| i <= k < need ==> #[trigger] out@[k] == ready[k],
                    arith::wide_deterministic::<T, W>() ==> forall|k: int|
                        0 <= k < i ==> #[trigger] out@[k] == faded::<T, W>(
                            ready,
                            self.tail@,
                            xf as int,
                        )[k],
                decreases xf - i,
            {
                let w: T = W::fraction(1, 2).minus(
                    W::fraction(1, 2).times(
                        W::pi().times(W::count(i)).over(W::count(xf)).cosine(),
                    ),
                ).narrowed();
                let v: T = self.tail[i].times(T::whole(1).minus(w)).plus(out[i].times(w));
                out.set(i, v);
                i = i + 1;
            }
        }
        proof {
            if arith::wide_deterministic::<T, W>() {
                assert(out@ =~= faded::<T, W>(ready, old(self).tail@, xf as int));
            }
        }
        let ghost all = out@;
        assert(wave22.len() >= need ==> forall|k: int|
            0 <= k < need ==> #[trigger] ready[k] == wave22@[wave22.len() - need + k]);
        self.tail = part(out.as_slice(), b22, need);
        let emitted: Vec<T> = part(out.as_slice(), 0, b22);
        assert(emitted@ + self.tail@ =~= all);
        emitted
    }

    /// The next `n` normally distributed numbers.
    pub fn next_noise(&mut self, n: usize) -> (v: Vec<T>)
        requires
            n < usize::MAX,
        ensures
            final(self).cfg == old(self).cfg,
            final(self).buf == old(self).buf,
            final(self).pending == old(self).pending,
            final(self).tail == old(self).tail,
            final(self).rng == rng::state_after(old(self).rng, (2 * ((n + 1) / 2)) as nat),
            v.len() == n,
            arith::wide_deterministic::<T, W>() ==> forall|k: int|
                0 <= k < n ==> #[trigger] v@[k] == noise_value::<T, W>(old(self).rng, k),
    {
        let seed: u64 = self.rng;
        let mut v: Vec<T> = Vec::new();
        let mut source = Rng { state: seed };
        while v.len() < n
            invariant
                *self == *old(self),
                seed == self.rng,
                v.len() <= n < usize::MAX,
                v.len() % 2 == 0 || v.len() == n,
                source.state == rng::state_after(seed, (2 * ((v.len() + 1) / 2)) as nat),
                arith::wide_deterministic::<T, W>() ==> forall|k: int|
                    0 <= k < v.len() ==> #[trigger] v@[k] == noise_value::<T, W>(seed, k),
            decreases n - v.len(),
        {
            let ghost done = v.len() as int;
            let u1: W = source.wide_uniform::<W>().larger(W::fraction(1, 1_000_000_000_000));
            assert(source.state == rng::state_after(seed, (done + 1) as nat));
            let u2: W = source.wide_uniform();
            assert(source.state == rng::state_after(seed, (done + 2) as nat));
            let r: W = W::whole(-2).times(u1.logarithm()).root();
            let th: W = W::whole(2).times(W::pi()).times(u2);
            v.push(r.times(th.cosine()).narrowed());
            if v.len() < n {
                v.push(r.times(th.sine()).narrowed());
            }
        }
        self.rng = source.state;
        v
    }
}

/// The features of the content encoder that belong to the last `short` samples: where they
/// start among `n_feat`, and how many they are.
pub fn feature_tail(short: usize, n_feat: usize) -> (r: (usize, usize))
    ensures
        r.1 == (if short / 320 + 1 < n_feat {
            short / 320 + 1
        } else {
            n_feat as int
        }),
        r.0 + r.1 == n_feat,
{
    let want: usize = short / 320 + 1;
    let keep: usize = if want < n_feat { want } else { n_feat };
    (n_feat - keep, keep)
}

/// Converts the samples of a block at 22.05 kHz to 48 kHz, with a filter of sixteen periods: as
/// many samples as the block lasts.
pub fn to_output<T: Real, W: Wide<T>>(emitted: &Vec<T>, block: usize) -> (out: Vec<T>)
    requires
        block * 882 <= usize::MAX,
        emitted.len() == block22(block as int),
    ensures
        out.len() == 3 * block,
        arith::wide_deterministic::<T, W>() ==> forall|n: int|
            0 <= n < out.len() ==> #[trigger] out@[n] == pipeline::converted::<T, W>(
                emitted@,
                147,
                320,
                16,
                n,
            ),
{
    proof {
        lemma_output_ratio();
        law_hops_keep_time(block as int);
    }
    let all: Vec<T> = pipeline::resample_width::<T, W>(emitted.as_slice(), 22_050, 48_000, 16);
    part(all.as_slice(), 0, 3 * block)
}

/// 22.05 kHz is to 48 kHz as 147 is to 320.
proof fn lemma_output_ratio()
    ensures
        pipeline::reduced(22_050, 48_000) == 147,
        pipeline::reduced(48_000, 22_050) == 320,
{
    assert(22_050nat == 147nat * 150nat);
    assert(48_000nat == 320nat * 150nat);
    assert forall|d: nat| #[trigger] crate::ratio::divides(d, 22_050) && crate::ratio::divides(
        d,
        48_000,
    ) implies crate::ratio::divides(d, 150) by {
        let a = choose|k: nat| 22_050nat == #[trigger] (k * d);
        let b = choose|k: nat| 48_000nat == #[trigger] (k * d);
        let k = 283 * a - 130 * b;
        assert(150 == k * d) by (nonlinear_arith)
            requires
                22_050 == a * d,
                48_000 == b * d,
                k == 283 * a - 130 * b,
        ;
        assert(k > 0) by (nonlinear_arith)
            requires
                150 == k * d,
                d >= 0,
        ;
        assert(150nat == (k as nat) * d);
    }
    assert(crate::ratio::is_gcd(150, 22_050, 48_000));
    assert(crate::ratio::is_gcd(150, 48_000, 22_050));
    crate::ratio::lemma_gcd_unique(150, 22_050, 48_000);
    crate::ratio::lemma_gcd_unique(150, 48_000, 22_050);
}

/// To take two portions one after the other leaves what it leaves to take them together.
pub proof fn law_taking_in_chunks<T>(
    buf: Seq<T>,
    a: Seq<T>,
    b: Seq<T>,
    context: int,
    block: int,
    pending: int,
)
    requires
        0 <= context,
        0 <= block,
        0 <= pending,
    ensures
        ({
            let one = kept(context, block, pending + a.len());
            let two = kept(context, block, pending + a.len() + b.len());
            last_of(last_of(buf + a, one) + b, two) == last_of(buf + (a + b), two)
        }),
{
    let one = kept(context, block, pending + a.len());
    let two = kept(context, block, pending + a.len() + b.len());
    assert(last_of(last_of(buf + a, one) + b, two) =~= last_of(buf + (a + b), two));
}

/// A hop covers exactly its block, whatever its length: the samples that it takes at 22.05 kHz are
/// as many as the block lasts, rounded up, and make at least three samples at 48 kHz for each of
/// the block, at most three more.
pub proof fn law_hops_keep_time(block: int)
    requires
        0 <= block,
    ensures
        block * 441 <= block22(block) * 320 < block * 441 + 320,
        3 * block <= pipeline::ceil_div(block22(block) * 320, 147) <= 3 * block + 3,
{
}

/// A hop is the end of its render: behind the fade every sample of what comes out and is kept is
/// that sample of the render which lies as far from its end, so that the last one kept is the last
/// one rendered; without a tail to fade from this holds from the first sample on.
pub proof fn law_hop_is_the_end_of_its_render<T: Real, W: Wide<T>>(
    wave: Seq<T>,
    tail: Seq<T>,
    block: int,
    crossfade: int,
    i: int,
)
    requires
        0 <= block,
        0 <= crossfade,
        wave.len() >= block22(block) + fade22(block, crossfade),
        0 <= i < block22(block) + fade22(block, crossfade),
        i >= fade22(block, crossfade) || tail.len() != fade22(block, crossfade),
    ensures
        ({
            let n = fade22(block, crossfade);
            let need = block22(block) + n;
            let hop = faded::<T, W>(settled(wave, need), tail, n);
            &&& hop.len() == need
            &&& hop[i] == wave[wave.len() - need + i]
            &&& i == need - 1 ==> hop.last() == wave.last()
        }),
{
}

/// Where the render is shorter than a hop, it still ends where the hop ends, and silence leads in.
pub proof fn law_short_render_comes_last<T: Real, W: Wide<T>>(
    wave: Seq<T>,
    tail: Seq<T>,
    block: int,
    crossfade: int,
    i: int,
)
    requires
        0 <= block,
        0 <= crossfade,
        wave.len() < block22(block) + fade22(block, crossfade),
        0 <= i < block22(block) + fade22(block, crossfade),
        i >= fade22(block, crossfade) || tail.len() != fade22(block, crossfade),
    ensures
        ({
            let n = fade22(block, crossfade);
            let need = block22(block) + n;
            let hop = faded::<T, W>(settled(wave, need), tail, n);
            &&& hop.len() == need
            &&& need - wave.len() <= i ==> hop[i] == wave[i - (need - wave.len())]
            &&& i < need - wave.len() ==> hop[i] == arith::whole::<T>(0)
        }),
{
}

/// What a window was rendered to before its last samples does not matter: renders of any lengths
/// that end alike give the same hop.
pub proof fn law_old_context_is_not_heard<T: Real, W: Wide<T>>(
    one: Seq<T>,
    other: Seq<T>,
    tail: Seq<T>,
    block: int,
    crossfade: int,
)
    requires
        0 <= block,
        0 <= crossfade,
        one.len() >= block22(block) + fade22(block, crossfade),
        other.len() >= block22(block) + fade22(block, crossfade),
        forall|k: int|
            1 <= k <= block22(block) + fade22(block, crossfade) ==> #[trigger] one[one.len() - k]
                == other[other.len() - k],
    ensures
        ({
            let n = fade22(block, crossfade);
            let need = block22(block) + n;
            faded::<T, W>(settled(one, need), tail, n) == faded::<T, W>(
                settled(other, need),
                tail,
                n,
            )
        }),
{
    let need = block22(block) + fade22(block, crossfade);
    let a = settled(one, need);
    let b = settled(other, need);
    assert forall|i: int| 0 <= i < need implies #[trigger] a[i] == b[i] by {
        assert(one[one.len() - (need - i)] == other[other.len() - (need - i)]);
    }
    assert(a =~= b);
}

/// Two hops join without a seam: where the new render starts with what the hop before has kept,
/// the fade changes nothing.
pub proof fn law_fade_keeps_what_both_say<T: Real, W: Wide<T>>(hop: Seq<T>, tail: Seq<T>, n: int)
    requires
        arith::blends::<T>(),
        0 <= n <= hop.len(),
        tail == hop.take(n),
    ensures
        faded::<T, W>(hop, tail, n) == hop,
{
    let f = faded::<T, W>(hop, tail, n);
    assert forall|i: int| 0 <= i < f.len() implies #[trigger] f[i] == hop[i] by {
        if i < n {
            let w = fade_share::<T, W>(i, n);
            assert(tail[i] == hop[i]);
            assert(arith::plus(
                arith::times(hop[i], arith::minus(arith::whole(1), w)),
                arith::times(hop[i], w),
            ) == hop[i]);
        }
    }
    assert(f =~= hop);
}

/// A fade goes from the hop before to the new one: where the share is zero it is the tail of the
/// hop before, and where the share is one it is the new render.
pub proof fn law_fade_goes_from_old_to_new<T: Real, W: Wide<T>>(
    hop: Seq<T>,
    tail: Seq<T>,
    n: int,
    i: int,
)
    requires
        arith::neutral::<T>(),
        0 <= i < n <= hop.len(),
        tail.len() == n,
    ensures
        fade_share::<T, W>(i, n) == arith::whole::<T>(0) ==> faded::<T, W>(hop, tail, n)[i]
            == tail[i],
        fade_share::<T, W>(i, n) == arith::whole::<T>(1) ==> faded::<T, W>(hop, tail, n)[i]
            == hop[i],
{
}

/// The shares of a fade start at zero, come to a half in the middle and rise from place to place.
/// The cosine has to fall from one at zero to zero at a quarter turn, and the operations keep the
/// order, as in exact arithmetic.
pub proof fn law_fade_rises<T: Real, W: Wide<T>>(i: int, j: int, n: int)
    requires
        arith::neutral::<W>(),
        0 <= i <= j < n <= usize::MAX,
        arith::count::<W>(0) == arith::whole::<W>(0),
        arith::over(arith::whole::<W>(0), arith::count(n as usize)) == arith::whole::<W>(0),
        arith::cosine(arith::whole::<W>(0)) == arith::whole::<W>(1),
        arith::minus(arith::fraction::<W>(1, 2), arith::fraction(1, 2)) == arith::whole::<W>(0),
        arith::narrowed::<T, W>(arith::whole(0)) == arith::whole::<T>(0),
        forall|a: usize, b: usize|
            #![trigger arith::count::<W>(a), arith::count::<W>(b)]
            a <= b <= n ==> arith::at_most(
                arith::cosine(
                    arith::over(arith::times(arith::pi(), arith::count(b)), arith::count::<W>(n as usize)),
                ),
                arith::cosine(
                    arith::over(arith::times(arith::pi(), arith::count(a)), arith::count::<W>(n as usize)),
                ),
            ),
        forall|x: W, y: W|
            #![trigger arith::times(arith::fraction::<W>(1, 2), x), arith::times(arith::fraction::<W>(1, 2), y)]
            arith::at_most(x, y) ==> arith::at_most(
                arith::narrowed::<T, W>(
                    arith::minus(
                        arith::fraction(1, 2),
                        arith::times(arith::fraction::<W>(1, 2), y),
                    ),
                ),
                arith::narrowed::<T, W>(
                    arith::minus(
                        arith::fraction(1, 2),
                        arith::times(arith::fraction::<W>(1, 2), x),
                    ),
                ),
            ),
        2 * j == n ==> arith::cosine(
            arith::over(arith::times(arith::pi(), arith::count(j as usize)), arith::count::<W>(n as usize)),
        ) == arith::whole::<W>(0),
    ensures
        fade_share::<T, W>(0, n) == arith::whole::<T>(0),
        arith::at_most(fade_share::<T, W>(i, n), fade_share::<T, W>(j, n)),
        2 * j == n ==> fade_share::<T, W>(j, n) == arith::narrowed::<T, W>(
            arith::fraction(1, 2),
        ),
{
    let a = arith::count::<W>(i as usize);
    let b = arith::count::<W>(j as usize);
}

/// The noise comes in pairs: two uniform numbers of their own give a radius and an angle, and the
/// two values of a pair are the two sides of that, the cosine first.
pub proof fn law_noise_comes_in_pairs<T: Real, W: Wide<T>>(seed: u64, pair: int)
    requires
        arith::neutral::<W>(),
        0 <= pair,
    ensures
        ({
            let u1 = rng::unit::<W>(rng::state_after(seed, (2 * pair + 1) as nat));
            let u2 = rng::unit::<W>(rng::state_after(seed, (2 * pair + 2) as nat));
            let least = arith::fraction::<W>(1, 1_000_000_000_000);
            let radius = |u: W|
                arith::root(arith::times(arith::whole((-2) as i64), arith::logarithm(u)));
            let th = arith::times(arith::times(arith::whole::<W>(2), arith::pi()), u2);
            let zero = arith::whole::<W>(0);
            let one = arith::whole::<W>(1);
            let (a, b) = (
                noise_value::<T, W>(seed, 2 * pair),
                noise_value::<T, W>(seed, 2 * pair + 1),
            );
            &&& arith::larger(u1, least) == u1 && arith::cosine(th) == one && arith::sine(th)
                == zero ==> a == arith::narrowed::<T, W>(radius(u1)) && b == arith::narrowed::<
                T,
                W,
            >(zero)
            &&& arith::larger(u1, least) == u1 && arith::cosine(th) == zero && arith::sine(th)
                == one ==> a == arith::narrowed::<T, W>(zero) && b == arith::narrowed::<T, W>(
                radius(u1),
            )
            &&& arith::larger(u1, least) == least && arith::cosine(th) == one ==> a
                == arith::narrowed::<T, W>(radius(least))
            &&& arith::larger(u1, least) == u1 && radius(u1) == one ==> a == arith::narrowed::<
                T,
                W,
            >(arith::cosine(th)) && b == arith::narrowed::<T, W>(arith::sine(th))
        }),
{
    assert((2 * pair + 1) / 2 == pair);
    assert((2 * pair) / 2 == pair);
}

} // verus!
