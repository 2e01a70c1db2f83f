//! The bounded queue of samples between a device and the pipeline.

use vstd::prelude::*;
use std::collections::VecDeque;
use crate::arith;
use crate::arith::Real;

verus! {

/// The last `n` values of a list.
pub open spec fn newest<T>(s: Seq<T>, n: int) -> Seq<T> {
    if s.len() > n {
        s.skip(s.len() - n)
    } else {
        s
    }
}

/// The first `n` values of a list.
pub open spec fn oldest<T>(s: Seq<T>, n: int) -> Seq<T> {
    if s.len() > n {
        s.take(n)
    } else {
        s
    }
}

/// The sample at place `f` of a queue, or silence behind its end.
pub open spec fn sounding<T>(q: Seq<T>, f: int, silence: T) -> T {
    if f < q.len() {
        q[f]
    } else {
        silence
    }
}

/// A queue of at most `cap` samples.
pub struct Ring<T> {
    /// The samples, oldest first.
    pub q: VecDeque<T>,
    /// The most that it holds.
    pub cap: usize,
}

impl<T: Copy> Ring<T> {
    /// Whether the queue is within its bound.
    pub open spec fn valid(&self) -> bool {
        self.q@.len() <= self.cap
    }

    /// An empty queue.
    pub fn new(cap: usize) -> (r: Self)
        ensures
            r.valid(),
            r.q@ == Seq::<T>::empty(),
            r.cap == cap,
    {
        Ring { q: VecDeque::new(), cap }
    }

    /// Appends captured samples. Where they do not all fit, the oldest ones are dropped, so that
    /// a pipeline that stalled resumes near real time.
    pub fn push_capture(&mut self, samples: &[T])
        requires
            old(self).valid(),
        ensures
            final(self).valid(),
            final(self).cap == old(self).cap,
            final(self).q@ == newest(old(self).q@ + samples@, old(self).cap as int),
    {
        let ghost all = self.q@ + samples@;
        let mut i: usize = 0;
        assert(self.q@ =~= newest(self.q@ + samples@.take(0), self.cap as int));
        while i < samples.len()
            invariant
                i <= samples.len(),
                self.cap == old(self).cap,
                self.valid(),
                self.q@ == newest(old(self).q@ + samples@.take(i as int), self.cap as int),
            decreases samples.len() - i,
        {
            let ghost before = old(self).q@ + samples@.take(i as int);
            let ghost after = old(self).q@ + samples@.take(i + 1);
            assert(after =~= before.push(samples@[i as int]));
            let x: T = samples[i];
            if self.q.len() < self.cap {
                self.q.push_back(x);
            } else if self.cap > 0 {
                let _ = self.q.pop_front();
                self.q.push_back(x);
            }
            assert(self.q@ =~= newest(after, self.cap as int));
            i = i + 1;
        }
        assert(samples@.take(samples.len() as int) =~= samples@);
    }

    /// Takes at most `max` samples out of the queue, oldest first.
    pub fn pop(&mut self, max: usize) -> (out: Vec<T>)
        requires
            old(self).valid(),
        ensures
            final(self).valid(),
            final(self).cap == old(self).cap,
            out@ == oldest(old(self).q@, max as int),
            out@ + final(self).q@ == old(self).q@,
    {
        let mut out: Vec<T> = Vec::new();
        assert(out@ + self.q@ =~= self.q@);
        while out.len() < max && self.q.len() > 0
            invariant
                self.cap == old(self).cap,
                out.len() <= max,
                out@ + self.q@ == old(self).q@,
            decreases self.q@.len(),
        {
            let ghost before = self.q@;
            let ghost taken = out@;
            match self.q.pop_front() {
                Some(x) => {
                    out.push(x);
                    assert(out@ + self.q@ =~= taken + before);
                },
                None => {},
            }
        }
        assert(out@ =~= oldest(old(self).q@, max as int));
        out
    }

    /// Appends the samples from place `from` on as far as there is room, and returns the place of
    /// the first that is left.
    pub fn push_room(&mut self, samples: &[T], from: usize) -> (next: usize)
        requires
            old(self).valid(),
            from <= samples.len(),
        ensures
            final(self).valid(),
            final(self).cap == old(self).cap,
            from <= next <= samples.len(),
            final(self).q@ == old(self).q@ + samples@.subrange(from as int, next as int),
            next < samples.len() ==> final(self).q@.len() == final(self).cap,
    {
        let mut i: usize = from;
        assert(self.q@ =~= self.q@ + samples@.subrange(from as int, from as int));
        while i < samples.len() && self.q.len() < self.cap
            invariant
                from <= i <= samples.len(),
                self.cap == old(self).cap,
                self.valid(),
                self.q@ == old(self).q@ + samples@.subrange(from as int, i as int),
            decreases samples.len() - i,
        {
            self.q.push_back(samples[i]);
            i = i + 1;
            assert(self.q@ =~= old(self).q@ + samples@.subrange(from as int, i as int));
        }
        i
    }

    /// Appends samples as far as there is room; the rest is dropped.
    pub fn push_lossy(&mut self, samples: &[T])
        requires
            old(self).valid(),
        ensures
            final(self).valid(),
            final(self).cap == old(self).cap,
            final(self).q@ == old(self).q@ + oldest(
                samples@,
                old(self).cap - old(self).q@.len(),
            ),
    {
        let n: usize = self.push_room(samples, 0);
        assert(samples@.subrange(0, n as int) =~= oldest(
            samples@,
            old(self).cap - old(self).q@.len(),
        ));
    }

    /// The number of frames of `channels` values in `len` values; the last may be cut off.
    pub open spec fn frames(len: int, channels: int) -> int {
        (len + channels - 1) / channels
    }

    /// Fills a device's buffer of interleaved frames: each frame takes one sample on all of its
    /// channels, and silence when the queue has run out.
    pub fn fill_frames(&mut self, data: &mut [T], channels: usize, silence: T)
        requires
            old(self).valid(),
            channels > 0,
        ensures
            final(self).valid(),
            final(self).cap == old(self).cap,
            final(data)@.len() == old(data)@.len(),
            forall|i: int|
                0 <= i < final(data)@.len() ==> #[trigger] final(data)@[i] == sounding(
                    old(self).q@,
                    i / (channels as int),
                    silence,
                ),
            final(self).q@ == (if old(self).q@.len() > Self::frames(
                old(data)@.len() as int,
                channels as int,
            ) {
                old(self).q@.skip(Self::frames(old(data)@.len() as int, channels as int))
            } else {
                Seq::empty()
            }),
    {
        let n: usize = data.len();
        let ghost all = self.q@;
        let ghost c = channels as int;
        let mut at: usize = 0;
        let ghost mut f: int = 0;
        assert(self.q@ =~= all.skip(0));
        assert(0 * c == 0) by (nonlinear_arith);
        while at < n
            invariant
                n == data@.len() == old(data)@.len(),
                c == channels > 0,
                self.cap == old(self).cap,
                all == old(self).q@,
                self.valid(),
                0 <= f,
                at <= n,
                at == f * c || (at == n && (f - 1) * c < n <= f * c),
                at < n ==> at == f * c,
                self.q@ == (if f < all.len() {
                    all.skip(f)
                } else {
                    Seq::empty()
                }),
                forall|i: int|
                    0 <= i < at ==> #[trigger] data@[i] == sounding(all, i / c, silence),
            decreases n - at,
        {
            let ghost before = self.q@;
            let s: T = match self.q.pop_front() {
                Some(x) => x,
                None => silence,
            };
            assert(s == sounding(all, f, silence));
            assert(self.q@ =~= (if f + 1 < all.len() {
                all.skip(f + 1)
            } else {
                Seq::empty()
            }));
            let end: usize = if n - at < channels { n } else { at + channels };
            let start: usize = at;
            while at < end
                invariant
                    n == data@.len() == old(data)@.len(),
                    c == channels > 0,
                    start == f * c,
                    0 <= f,
                    start <= at <= end <= n,
                    end <= start + channels,
                    s == sounding(all, f, silence),
                    forall|i: int|
                        0 <= i < at ==> #[trigger] data@[i] == sounding(all, i / c, silence),
                decreases end - at,
            {
                proof {
                    vstd::arithmetic::div_mod::lemma_fundamental_div_mod_converse(
                        at as int,
                        c,
                        f,
                        at - start,
                    );
                }
                data[at] = s;
                at = at + 1;
            }
            proof {
                assert((f + 1) * c == f * c + c) by (nonlinear_arith);
                assert((f + 1 - 1) * c == f * c);
                f = f + 1;
            }
        }
        proof {
            if n == 0 {
                assert(f * c == 0 ==> f == 0) by (nonlinear_arith)
                    requires
                        c > 0,
                        f >= 0,
                ;
                assert((f - 1) * c < 0 ==> f <= 0) by (nonlinear_arith)
                    requires
                        c > 0,
                ;
                assert(Self::frames(0, c) == 0) by (nonlinear_arith)
                    requires
                        c > 0,
                ;
            }
            let top = n + c - 1;
            if at == f * c {
                assert(n == f * c);
                vstd::arithmetic::div_mod::lemma_fundamental_div_mod_converse(top, c, f, c - 1);
            } else {
                assert((f - 1) * c == f * c - c) by (nonlinear_arith);
                vstd::arithmetic::div_mod::lemma_fundamental_div_mod_converse(
                    top,
                    c,
                    f,
                    top - f * c,
                );
            }
            assert(Self::frames(n as int, c) == f);
        }
    }
}

/// Capturing two portions one after the other keeps what capturing them together keeps.
pub proof fn law_capturing_in_chunks<T>(q: Seq<T>, a: Seq<T>, b: Seq<T>, cap: int)
    requires
        0 <= cap,
    ensures
        newest(newest(q + a, cap) + b, cap) == newest(q + (a + b), cap),
{
    assert(newest(newest(q + a, cap) + b, cap) =~= newest(q + (a + b), cap));
}

/// Samples that pass through the queue without being dropped come out in the order in which they
/// went in: what was taken out and what is left are what was there and what came.
pub proof fn law_order_is_kept<T>(q: Seq<T>, samples: Seq<T>, cap: int, max: int)
    requires
        0 <= max,
        q.len() + samples.len() <= cap,
    ensures
        ({
            let held = newest(q + samples, cap);
            let out = oldest(held, max);
            out + held.skip(out.len() as int) == q + samples
        }),
{
    let held = newest(q + samples, cap);
    let out = oldest(held, max);
    assert(out + held.skip(out.len() as int) =~= q + samples);
}

/// The samples of a device, whatever their format.
pub open spec fn mixed<T: Real>(frame: Seq<T>, channels: int) -> T {
    arith::over(arith::total(frame), arith::count(channels as usize))
}

/// The frame `f` of interleaved values.
pub open spec fn frame_of<T>(data: Seq<T>, channels: int, f: int) -> Seq<T> {
    data.subrange(
        f * channels,
        if (f + 1) * channels < data.len() {
            (f + 1) * channels
        } else {
            data.len() as int
        },
    )
}

/// The mean of the channels of each frame of interleaved values.
pub fn downmix<T: Real>(data: &[T], channels: usize) -> (out: Vec<T>)
    requires
        channels > 0,
        data@.len() + channels <= usize::MAX,
    ensures
        out.len() == (data@.len() + channels - 1) / channels as int,
        arith::deterministic::<T>() ==> forall|f: int|
            0 <= f < out.len() ==> #[trigger] out@[f] == mixed(
                frame_of(data@, channels as int, f),
                channels as int,
            ),
{
    let n: usize = data.len();
    let ghost c = channels as int;
    let mut out: Vec<T> = Vec::new();
    let mut at: usize = 0;
    assert(0 * c == 0) by (nonlinear_arith);
    while at < n
        invariant
            n == data@.len(),
            c == channels > 0,
            n + channels <= usize::MAX,
            at == out.len() * c,
            at < n + channels,
            arith::deterministic::<T>() ==> forall|f: int|
                0 <= f < out.len() ==> #[trigger] out@[f] == mixed(frame_of(data@, c, f), c),
        decreases n + channels - at,
    {
        let ghost f = out.len() as int;
        assert((f + 1) * c == f * c + c) by (nonlinear_arith);
        let end: usize = if n - at < channels { n } else { at + channels };
        let frame: Vec<T> = crate::buffers::part(data, at, end);
        assert(frame@ =~= frame_of(data@, c, f));
        out.push(arith::sum(&frame).over(T::count(channels)));
        at = at + channels;
    }
    proof {
        let k = out.len() as int;
        let top = n + c - 1;
        vstd::arithmetic::div_mod::lemma_fundamental_div_mod_converse(top, c, k, top - k * c);
    }
    out
}

/// A signed sample as a number within one.
pub fn from_i16<T: Real>(s: i16) -> (x: T)
    ensures
        arith::deterministic::<T>() ==> x == arith::over(
            arith::whole::<T>(s as i64),
            arith::whole(32_768),
        ),
{
    T::whole(s as i64).over(T::whole(32_768))
}

/// An unsigned sample as a number within one.
pub fn from_u16<T: Real>(s: u16) -> (x: T)
    ensures
        arith::deterministic::<T>() ==> x == arith::minus(
            arith::over(arith::whole::<T>(s as i64), arith::whole(32_768)),
            arith::whole(1),
        ),
{
    T::whole(s as i64).over(T::whole(32_768)).minus(T::whole(1))
}

/// The size of a number before its fractional part, at most `max`.
pub open spec fn at_most_int(n: usize, max: int) -> int {
    if n < max {
        n as int
    } else {
        max
    }
}

/// A number as a signed sample: clipped to one, scaled, and cut to its integer part.
pub open spec fn sample_of<T: Real>(x: T) -> int {
    let v = arith::times(
        arith::clamped(x, arith::whole((-1) as i64), arith::whole(1)),
        arith::whole(32_767),
    );
    if arith::below(v, arith::whole(0)) {
        -at_most_int(arith::truncated(arith::negated(v)), 32_768)
    } else {
        at_most_int(arith::truncated(v), 32_767)
    }
}

/// A number as a signed sample.
pub fn to_i16<T: Real>(x: T) -> (s: i16)
    ensures
        arith::deterministic::<T>() ==> s == sample_of(x),
{
    let v: T = arith::clamp(x, T::whole(-1), T::whole(1)).times(T::whole(32_767));
    if v.below(T::whole(0)) {
        let n: usize = v.negated().truncated();
        if n < 32_768 {
            -(n as i16)
        } else {
            i16::MIN
        }
    } else {
        let n: usize = v.truncated();
        if n < 32_767 {
            n as i16
        } else {
            i16::MAX
        }
    }
}

/// What a full queue keeps are the last samples, and what is taken out are the first, each in
/// its place.
pub proof fn law_newest_are_last_and_oldest_first<T>(s: Seq<T>, n: int, k: int)
    requires
        0 <= n,
    ensures
        newest(s, n).len() == (if s.len() < n { s.len() as int } else { n }),
        oldest(s, n).len() == newest(s, n).len(),
        1 <= k <= newest(s, n).len() ==> newest(s, n)[newest(s, n).len() - k] == s[s.len() - k],
        0 <= k < oldest(s, n).len() ==> oldest(s, n)[k] == s[k],
{
}

/// A frame holds the channels of one instant: value `c` of frame `f` is number `f * channels + c`
/// of all; and its mix is their mean, to which each channel contributes alike.
pub proof fn law_frames_are_mixed_on_their_own<T: Real>(
    data: Seq<T>,
    channels: int,
    f: int,
    c: int,
)
    requires
        arith::neutral::<T>(),
        0 < channels <= usize::MAX,
        0 <= f,
        (f + 1) * channels <= data.len(),
        0 <= c < channels,
    ensures
        ({
            let frame = frame_of(data, channels, f);
            &&& frame.len() == channels
            &&& frame[c] == data[f * channels + c]
            &&& (forall|k: int|
                0 <= k < channels && k != c ==> #[trigger] frame[k] == arith::whole::<T>(0))
                ==> mixed(frame, channels) == arith::over(
                data[f * channels + c],
                arith::count(channels as usize),
            )
        }),
{
    assert((f + 1) * channels == f * channels + channels) by (nonlinear_arith);
    assert(0 <= f * channels) by (nonlinear_arith)
        requires
            0 <= f,
            0 < channels,
    ;
    let frame = frame_of(data, channels, f);
    if forall|k: int| 0 <= k < channels && k != c ==> #[trigger] frame[k] == arith::whole::<T>(0) {
        arith::law_sum_counts_each(frame, c);
    }
}

/// A number becomes a sample with its sign: within one it is its product with 32767, cut to its
/// integer part, and beyond one it is clipped.
pub proof fn law_samples_are_cut_and_clipped<T: Real>(x: T)
    ensures
        ({
            let one = arith::whole::<T>(1);
            let less = arith::whole::<T>((-1) as i64);
            let full = arith::whole::<T>(32_767);
            let v = arith::times(x, full);
            let inside = !arith::below(x, less) && !arith::below(one, x);
            &&& inside && !arith::below(v, arith::whole(0)) && arith::truncated(v) <= 32_767
                ==> sample_of(x) == arith::truncated(v)
            &&& inside && arith::below(v, arith::whole(0)) && arith::truncated(arith::negated(v))
                <= 32_767 ==> sample_of(x) == -arith::truncated(arith::negated(v))
            &&& !arith::below(x, less) && arith::below(one, x) && arith::times(one, full) == full
                && !arith::below(full, arith::whole(0)) && arith::truncated(full) == 32_767
                ==> sample_of(x) == 32_767
            &&& -32_768 <= sample_of(x) <= 32_767
        }),
{
}

} // verus!
