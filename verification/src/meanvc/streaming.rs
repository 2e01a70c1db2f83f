//! Chunk by chunk conversion: which chunks are denoised together, and which of them comes out.
//!
//! The stacked decoder reaches a bounded number of chunks back and ahead. A chunk can come out
//! as soon as the chunks that it looks ahead to are there; the window that is denoised for it
//! holds everything within its reach.

use vstd::prelude::*;
use vstd::string::StringExecFns;
use crate::error;
use crate::error::Error;
use crate::meanvc::frc;
use crate::text;

verus! {

/// How many chunks that no window reaches any more are kept before they are dropped together.
pub const SLACK: usize = 64;

/// The chunks that are denoised together, and where in them the chunk lies that comes out.
pub struct Window {
    /// The first chunk of the window.
    pub start: usize,
    /// The last chunk of the window.
    pub end: usize,
    /// Frames of the window before the chunk that comes out.
    pub offset: usize,
}

/// The conversion of a stream. `C` is what stands for a chunk: its features and its noise, drawn
/// once, so that overlapping windows see the same noise.
pub struct StreamingConverter<C> {
    /// The chunks that windows can still reach.
    pub chunks: Vec<C>,
    /// The next chunk to come out.
    pub emitted: usize,
    /// Chunks that the decoder reaches back.
    pub past: usize,
    /// Chunks that the decoder reaches ahead.
    pub future: usize,
    /// Frames of a chunk.
    pub chunk_frames: usize,
    /// Features of a frame.
    pub bnf_dim: usize,
    /// All chunks that ever came in.
    pub history: Ghost<Seq<C>>,
    /// How many chunks have come out.
    pub done: Ghost<nat>,
}

/// The first chunk of the window around chunk `c`.
pub open spec fn window_start(c: int, past: int) -> int {
    if c < past {
        0
    } else {
        c - past
    }
}

/// The last chunk of the window around chunk `c` of `n` chunks.
pub open spec fn window_end(c: int, future: int, n: int) -> int {
    if c + future < n {
        c + future
    } else {
        n - 1
    }
}

/// Whether the next chunk of `n` can come out when `done` have: the chunks that it looks ahead to
/// are there, or, with `flush`, none will follow.
pub open spec fn may_leave(done: nat, n: nat, future: nat, flush: bool) -> bool {
    done < n && (flush || done + future < n)
}

/// The chunks that come out, by their numbers, if all that may leave do.
pub open spec fn leaving(done: nat, n: nat, future: nat, flush: bool) -> Seq<nat>
    decreases n - done,
{
    if may_leave(done, n, future, flush) {
        seq![done] + leaving(done + 1, n, future, flush)
    } else {
        Seq::empty()
    }
}

/// The chunks that have come out after `n` were pushed, one by one, if after each all that may
/// leave do.
pub open spec fn streamed(n: nat, future: nat) -> Seq<nat>
    decreases n,
{
    if n == 0 {
        Seq::empty()
    } else {
        let before = streamed((n - 1) as nat, future);
        before + leaving(before.len(), n, future, false)
    }
}

/// The text of a chunk's shape.
pub open spec fn shape_text(frames: nat, dim: nat) -> Seq<char> {
    "[1, "@ + text::digits(frames) + ", "@ + text::digits(dim) + "]"@
}

/// The text of a chunk's shape.
fn shape(frames: usize, dim: usize) -> (s: String)
    ensures
        s@ == shape_text(frames as nat, dim as nat),
{
    let mut s: String = String::from_str("[1, ");
    let f: String = text::decimal(frames as u64);
    let d: String = text::decimal(dim as u64);
    s.append(f.as_str());
    s.append(", ");
    s.append(d.as_str());
    s.append("]");
    s
}

/// Whether a speaker embedding of `rank` dimensions has to get one more: it has one or two.
pub fn speaker_rank(rank: usize) -> (r: Result<bool, Error>)
    ensures
        r is Ok <==> rank == 1 || rank == 2,
        r is Ok ==> r->Ok_0 == (rank == 1),
        r is Err ==> error::input_error(
            r,
            "speaker embedding must be [speaker_dim] or [1, speaker_dim]"@,
        ),
{
    if rank == 1 {
        Ok(true)
    } else if rank == 2 {
        Ok(false)
    } else {
        Err(
            Error::Input(
                String::from_str("speaker embedding must be [speaker_dim] or [1, speaker_dim]"),
            ),
        )
    }
}

impl<C> StreamingConverter<C> {
    /// What holds of every stream: the chunks that are kept are the newest, no window that is still
    /// to come reaches a chunk that is not kept, and few are kept that none reaches.
    pub open spec fn valid(&self) -> bool {
        let n = self.history@.len();
        let dropped = n - self.chunks.len();
        &&& dropped >= 0
        &&& self.chunks@ == self.history@.skip(dropped)
        &&& self.emitted <= self.chunks.len()
        &&& self.emitted <= self.past + SLACK
        &&& self.done@ == dropped + self.emitted
        &&& dropped > 0 ==> dropped + self.past <= self.done@
    }

    /// Starts a stream for a decoder whose layers have the given reaches.
    pub fn new(past: &[usize], future: &[usize], chunk_frames: usize, bnf_dim: usize) -> (s: Self)
        requires
            frc::reach(past@) <= usize::MAX,
            frc::reach(future@) <= usize::MAX,
        ensures
            s.valid(),
            s.history@ == Seq::<C>::empty(),
            s.done@ == 0,
            s.chunks@ == Seq::<C>::empty(),
            s.emitted == 0,
            s.past == frc::reach(past@),
            s.future == frc::reach(future@),
            s.chunk_frames == chunk_frames,
            s.bnf_dim == bnf_dim,
    {
        let (p, f) = frc::total_receptive_field(past, future);
        let s = StreamingConverter {
            chunks: Vec::new(),
            emitted: 0,
            past: p,
            future: f,
            chunk_frames,
            bnf_dim,
            history: Ghost(Seq::empty()),
            done: Ghost(0),
        };
        assert(s.chunks@ =~= s.history@.skip(0));
        s
    }

    /// Chunks that have to follow a chunk before it can come out.
    pub fn lookahead_chunks(&self) -> (n: usize)
        ensures
            n == self.future,
    {
        self.future
    }

    /// Tests the shape of a chunk of features.
    pub fn check(&self, frames: usize, dim: usize) -> (r: Result<(), Error>)
        ensures
            r is Ok <==> frames == self.chunk_frames && dim == self.bnf_dim,
            r is Err ==> error::input_error(
                r,
                "expected BNF chunk of shape "@ + shape_text(
                    self.chunk_frames as nat,
                    self.bnf_dim as nat,
                ) + ", got "@ + shape_text(frames as nat, dim as nat),
            ),
    {
        if frames != self.chunk_frames || dim != self.bnf_dim {
            let want: String = shape(self.chunk_frames, self.bnf_dim);
            let got: String = shape(frames, dim);
            let mut m: String = String::from_str("expected BNF chunk of shape ");
            m.append(want.as_str());
            m.append(", got ");
            m.append(got.as_str());
            return Err(Error::Input(m));
        }
        Ok(())
    }

    /// Takes the next chunk.
    pub fn push(&mut self, chunk: C)
        requires
            old(self).valid(),
        ensures
            final(self).valid(),
            final(self).history@ == old(self).history@.push(chunk),
            final(self).done == old(self).done,
            final(self).chunks@ == old(self).chunks@.push(chunk),
            final(self).emitted == old(self).emitted,
            final(self).past == old(self).past,
            final(self).future == old(self).future,
            final(self).chunk_frames == old(self).chunk_frames,
            final(self).bnf_dim == old(self).bnf_dim,
    {
        self.chunks.push(chunk);
        self.history = Ghost(self.history@.push(chunk));
        proof {
            let n = self.history@.len();
            let dropped = n - self.chunks.len();
            assert(self.chunks@ =~= self.history@.skip(dropped));
        }
    }

    /// The window to denoise next. There is one as soon as the look-ahead of the next chunk is
    /// there, and with `flush`, after the last chunk, as long as chunks are left.
    pub fn ready(&self, flush: bool) -> (w: Option<Window>)
        requires
            self.valid(),
            self.past * self.chunk_frames <= usize::MAX,
        ensures
            w is Some <==> may_leave(
                self.done@,
                self.history@.len(),
                self.future as nat,
                flush,
            ),
            w is Some ==> ({
                let first = window_start(self.done@ as int, self.past as int);
                let last = window_end(
                    self.done@ as int,
                    self.future as int,
                    self.history@.len() as int,
                );
                &&& w->0.start <= w->0.end < self.chunks.len()
                &&& self.chunks@.subrange(w->0.start as int, w->0.end + 1)
                    == self.history@.subrange(first, last + 1)
                &&& w->0.offset == (self.done@ - first) * self.chunk_frames
            }),
    {
        if self.emitted >= self.chunks.len() {
            return None;
        }
        let ahead: usize = self.chunks.len() - 1 - self.emitted;
        if !flush && ahead < self.future {
            return None;
        }
        let start: usize = if self.emitted < self.past { 0 } else { self.emitted - self.past };
        let end: usize = if ahead < self.future {
            self.chunks.len() - 1
        } else {
            self.emitted + self.future
        };
        proof {
            assert((self.emitted - start) * self.chunk_frames <= self.past * self.chunk_frames)
                by (nonlinear_arith)
                requires
                    self.emitted - start <= self.past,
                    self.chunk_frames >= 0,
            ;
            let first = window_start(self.done@ as int, self.past as int);
            let last = window_end(
                self.done@ as int,
                self.future as int,
                self.history@.len() as int,
            );
            let dropped = self.history@.len() - self.chunks.len();
            assert(first == dropped + start);
            assert(last == dropped + end);
            assert(self.chunks@.subrange(start as int, end + 1) =~= self.history@.subrange(
                first,
                last + 1,
            ));
        }
        let offset: usize = (self.emitted - start) * self.chunk_frames;
        Some(Window { start, end, offset })
    }

    /// Notes that the next chunk has come out, and drops chunks that are out of reach.
    pub fn emit(&mut self)
        requires
            old(self).valid(),
            old(self).done@ < old(self).history@.len(),
        ensures
            final(self).valid(),
            final(self).history == old(self).history,
            final(self).done@ == old(self).done@ + 1,
            final(self).past == old(self).past,
            final(self).future == old(self).future,
            final(self).chunk_frames == old(self).chunk_frames,
            final(self).bnf_dim == old(self).bnf_dim,
            ({
                let out = old(self).emitted + 1;
                if out - old(self).past > SLACK {
                    final(self).emitted == old(self).past && final(self).chunks@
                        == old(self).chunks@.skip(out - old(self).past)
                } else {
                    final(self).emitted == out && final(self).chunks@ == old(self).chunks@
                }
            }),
    {
        let ghost dropped = self.history@.len() - self.chunks.len();
        self.emitted = self.emitted + 1;
        self.done = Ghost(self.done@ + 1);
        let keep_from: usize = if self.emitted < self.past { 0 } else { self.emitted - self.past };
        if keep_from > SLACK {
            let tail: Vec<C> = self.chunks.split_off(keep_from);
            self.chunks = tail;
            self.emitted = self.emitted - keep_from;
            assert(self.chunks@ =~= self.history@.skip(dropped + keep_from));
        }
    }
}

/// Every chunk of a stream that the output of a chunk depends on lies in the window of that chunk.
pub proof fn law_window_holds_what_is_seen(
    past: Seq<usize>,
    future: Seq<usize>,
    n: int,
    c: int,
    j: int,
)
    requires
        past.len() == future.len(),
        0 <= c < n,
        0 <= j < n,
        frc::depends(past, future, n, c, j),
    ensures
        window_start(c, frc::reach(past)) <= j <= window_end(c, frc::reach(future), n),
{
    frc::law_layers_compose(past, future, n, c, j);
}

/// What a stream of chunks keeps in memory does not grow with the stream: it is bounded by the
/// reach of the decoder and what has not come out.
pub proof fn law_memory_is_bounded<C>(s: StreamingConverter<C>)
    requires
        s.valid(),
    ensures
        s.chunks.len() <= s.past + SLACK + (s.history@.len() - s.done@),
{
}

/// What leaves are the chunks from the next one on, in order: to the end with `flush`, and
/// otherwise to the last that all of its look-ahead follows.
proof fn lemma_leaving(done: nat, n: nat, future: nat, flush: bool)
    requires
        done <= n,
    ensures
        ({
            let end: int = if flush {
                n as int
            } else if done + future < n {
                n - future
            } else {
                done as int
            };
            leaving(done, n, future, flush) == Seq::new(
                (end - done) as nat,
                |i: int| (done + i) as nat,
            )
        }),
    decreases n - done,
{
    if may_leave(done, n, future, flush) {
        lemma_leaving(done + 1, n, future, flush);
    }
}

/// The numbers of the first `n` chunks.
pub open spec fn first_chunks(n: nat) -> Seq<nat> {
    Seq::new(n, |i: int| i as nat)
}

/// Every chunk that is pushed comes out exactly once and in order: before the flush all but those
/// that the look-ahead holds back, and with the flush the rest. After that nothing is left.
pub proof fn law_chunks_come_out_once_and_in_order(n: nat, future: nat)
    ensures
        streamed(n, future) == first_chunks(
            if future < n {
                (n - future) as nat
            } else {
                0
            },
        ),
        streamed(n, future) + leaving(streamed(n, future).len(), n, future, true)
            == first_chunks(n),
        leaving(streamed(n, future).len(), n, future, true).len() == (if future < n {
            future
        } else {
            n
        }),
        leaving(n, n, future, true) == Seq::<nat>::empty(),
    decreases n,
{
    if n > 0 {
        law_chunks_come_out_once_and_in_order((n - 1) as nat, future);
        lemma_leaving(streamed((n - 1) as nat, future).len(), n, future, false);
    }
    let held: nat = if future < n {
        (n - future) as nat
    } else {
        0
    };
    assert(streamed(n, future) =~= first_chunks(held));
    lemma_leaving(held, n, future, true);
    assert(streamed(n, future) + leaving(held, n, future, true) =~= first_chunks(n));
}

/// A window holds its chunk and no more than the reach around it: it starts the first reach before
/// it and ends the second one behind it, each cut off where the stream starts or ends.
pub proof fn law_window_is_as_wide_as_the_reach(c: int, past: int, future: int, n: int)
    requires
        0 <= c < n,
        0 <= past,
        0 <= future,
    ensures
        0 <= window_start(c, past) <= c <= window_end(c, future, n) < n,
        c - window_start(c, past) <= past,
        window_end(c, future, n) - c <= future,
        past <= c ==> c - window_start(c, past) == past,
        c + future < n ==> window_end(c, future, n) - c == future,
        c < past ==> window_start(c, past) == 0,
        n <= c + future ==> window_end(c, future, n) == n - 1,
{
}

} // verus!
