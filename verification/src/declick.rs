//! Needle-pulse suppressor for decoder output.
//!
//! A neural decoder now and then emits a needle: a pulse of a few samples that stands far above
//! the waveform around it. [`NeedleGuard`] turns such a pulse down to the local level, with a gain
//! that falls and rises over a margin on either side, and leaves everything else as it is:
//!
//! - the local level is the median absolute sample within 8 ms on both sides, which the needle
//!   itself cannot raise;
//! - a sample starts a needle only above an absolute floor (0.10) and above six times the local
//!   level; over a near-silent context only from 0.25 on;
//! - only a run of at most 0.5 ms is repaired, and only where the samples beyond the margin on
//!   both sides (2 ms) stay under 65 % of its peak.
//!
//! The guard is streaming: each call takes a chunk and returns as many samples, delayed by
//! [`NeedleGuard::latency`]. A place is judged once, as soon as what follows it is there, and with
//! all that went before it that matters; so it does not matter how a stream is cut into chunks.

use vstd::prelude::*;
use vstd::relations::sorted_by;
use crate::arith;
use crate::arith::Real;
use crate::buffers::append;
use crate::buffers::filled;
use crate::buffers::part;

verus! {

/// Samples on both sides of a run over which the gain falls and rises.
pub const MARGIN: usize = 16;

/// The order of the natural numbers.
pub open spec fn ascending() -> spec_fn(u64, u64) -> bool {
    |a: u64, b: u64| a <= b
}

/// The element at place `k` of the sorted sequence.
pub open spec fn nth_smallest(s: Seq<u64>, k: int) -> u64 {
    s.sort_by(ascending())[k]
}

/// Sorts a list of numbers into ascending order.
fn sorted(v: &Vec<u64>) -> (r: Vec<u64>)
    ensures
        r@ == v@.sort_by(ascending()),
{
    let mut r: Vec<u64> = Vec::new();
    let n: usize = v.len();
    let mut i: usize = 0;
    assert(v@.take(0) =~= r@);
    while i < n
        invariant
            n == v.len(),
            i <= n,
            r.len() == i,
            sorted_by(r@, ascending()),
            r@.to_multiset() == v@.take(i as int).to_multiset(),
        decreases n - i,
    {
        let x: u64 = v[i];
        let mut lo: usize = 0;
        let mut hi: usize = i;
        while lo < hi
            invariant
                lo <= hi <= i,
                r.len() == i,
                sorted_by(r@, ascending()),
                forall|k: int| 0 <= k < lo ==> r@[k] <= x,
                forall|k: int| hi <= k < i ==> x < r@[k],
            decreases hi - lo,
        {
            let mid: usize = lo + (hi - lo) / 2;
            if r[mid] <= x {
                assert forall|k: int| 0 <= k < mid + 1 implies r@[k] <= x by {
                    if k < mid {
                        assert(ascending()(r@[k], r@[mid as int]));
                    }
                }
                lo = mid + 1;
            } else {
                assert forall|k: int| mid <= k < i implies x < r@[k] by {
                    if mid < k {
                        assert(ascending()(r@[mid as int], r@[k]));
                    }
                }
                hi = mid;
            }
        }
        let ghost before = r@;
        r.insert(lo, x);
        proof {
            before.insert_ensures(lo as int, x);
            vstd::seq_lib::to_multiset_insert(before, lo as int, x);
            vstd::seq_lib::to_multiset_build(v@.take(i as int), x);
            assert(v@.take(i as int).push(x) =~= v@.take(i + 1));
            assert(sorted_by(r@, ascending())) by {
                assert forall|a: int, b: int| 0 <= a < b < r@.len() implies #[trigger] ascending()(
                    r@[a],
                    r@[b],
                ) by {
                    let pa = if a < lo { a } else { a - 1 };
                    let pb = if b < lo { b } else { b - 1 };
                    if a != lo && b != lo {
                        assert(ascending()(before[pa], before[pb]));
                    }
                }
            }
        }
        i = i + 1;
    }
    proof {
        assert(v@.take(n as int) =~= v@);
        v@.lemma_sort_by_ensures(ascending());
        vstd::seq_lib::lemma_sorted_unique(r@, v@.sort_by(ascending()), ascending());
    }
    r
}

/// The ranks of the samples of `b` from `lo` up to `hi`.
pub open spec fn ranks<T: Real>(b: Seq<T>, lo: int, hi: int) -> Seq<u64> {
    Seq::new((hi - lo) as nat, |k: int| arith::rank(b[lo + k]))
}

/// The median absolute sample within `ctx` of place `c`, as far as `b` reaches back.
pub open spec fn local_median<T: Real>(b: Seq<T>, ctx: int, c: int) -> T {
    let lo = if c < ctx { 0 } else { c - ctx };
    let hi = c + ctx + 1;
    arith::unranked(nth_smallest(ranks(b, lo, hi), (hi - lo) / 2))
}

/// The local level at place `c`: the median, or a floor under it.
pub open spec fn local_level<T: Real>(b: Seq<T>, ctx: int, c: int) -> T {
    arith::larger(local_median(b, ctx, c), arith::fraction(12, 1000))
}

/// The largest absolute sample from `lo` up to `hi`, and zero of none.
pub open spec fn peak<T: Real>(b: Seq<T>, lo: int, hi: int) -> T
    decreases hi - lo,
{
    if hi <= lo {
        arith::whole(0)
    } else {
        arith::larger(peak(b, lo, hi - 1), arith::absolute(b[hi - 1]))
    }
}

/// Whether the sample at `i` starts a needle.
pub open spec fn is_candidate<T: Real>(b: Seq<T>, ctx: int, i: int) -> bool {
    let y = arith::absolute(b[i]);
    let raw = local_median(b, ctx, i);
    &&& !arith::below(y, arith::fraction(10, 100))
    &&& !(arith::below(raw, arith::fraction(18, 1000)) && arith::below(y, arith::fraction(25, 100)))
    &&& !arith::at_most(y, arith::times(arith::whole(6), local_level(b, ctx, i)))
}

/// Half of the candidate threshold at `i`: a run goes on while it stays above.
pub open spec fn run_threshold<T: Real>(b: Seq<T>, ctx: int, i: int) -> T {
    arith::times(
        arith::times(arith::whole(6), arith::fraction(1, 2)),
        local_level(b, ctx, i),
    )
}

/// Where the run that started at `i` and has reached `j` ends: past `max_run` samples, or at the
/// first sample that is not above `thr`.
pub open spec fn run_end<T: Real>(b: Seq<T>, i: int, j: int, max_run: int, thr: T) -> int
    decreases max_run + i + 1 - j,
{
    if j - i <= max_run && arith::below(thr, arith::absolute(b[j])) {
        run_end(b, i, j + 1, max_run, thr)
    } else {
        j
    }
}

/// The limits that a guard works with, in samples.
#[derive(Clone, Copy)]
pub struct Limits {
    /// Half of the median context.
    pub ctx: usize,
    /// The longest run that is repaired.
    pub max_run: usize,
    /// The isolation context.
    pub iso: usize,
}

/// How many samples after a place have to be there before it is judged.
pub open spec fn look(lim: Limits) -> int {
    lim.ctx + lim.max_run
}

/// The number of samples that a guard with the limits `lim` holds back.
pub open spec fn delay(lim: Limits) -> int {
    look(lim) + MARGIN
}

/// How many samples before a place can matter when it is judged.
pub open spec fn memory(lim: Limits) -> int {
    if lim.ctx > MARGIN + lim.iso {
        lim.ctx as int
    } else {
        MARGIN + lim.iso
    }
}

/// The smaller of two places.
pub open spec fn earlier(a: int, b: int) -> int {
    if a < b {
        a
    } else {
        b
    }
}

/// Whether the run from `i` to `j` stands alone: the `iso` samples beyond the margin on either
/// side, as far as they are there when `i` is judged, stay under 65 % of its peak.
pub open spec fn is_isolated<T: Real>(b: Seq<T>, lim: Limits, i: int, j: int) -> bool {
    let bound = arith::times(arith::fraction(65, 100), peak(b, i, j));
    let n = i + look(lim) + 1;
    let l0 = if i < MARGIN + lim.iso { 0 } else { i - MARGIN - lim.iso };
    let l1 = if i < MARGIN { 0 } else { i - MARGIN };
    let r0 = earlier(j + MARGIN, n);
    let r1 = earlier(j + MARGIN + lim.iso, n);
    arith::below(peak(b, l0, l1), bound) && arith::below(peak(b, r0, r1), bound)
}

/// The first sample of the repair of a run that starts at `i`.
pub open spec fn repair_start(i: int) -> int {
    if i < MARGIN {
        0
    } else {
        i - MARGIN
    }
}

/// The last sample of the repair of a run from `i` to `j`.
pub open spec fn repair_stop(lim: Limits, i: int, j: int) -> int {
    earlier(j + MARGIN, i + look(lim))
}

/// Where the run that starts at `i` ends.
pub open spec fn run_of<T: Real>(b: Seq<T>, lim: Limits, i: int) -> int {
    run_end(b, i, i + 1, lim.max_run as int, run_threshold(b, lim.ctx as int, i))
}

/// Whether a needle that starts at `i` is repaired: it is isolated and short enough.
pub open spec fn is_repaired<T: Real>(b: Seq<T>, lim: Limits, i: int) -> bool {
    let j = run_of(b, lim, i);
    is_candidate(b, lim.ctx as int, i) && is_isolated(b, lim, i, j) && j - i <= lim.max_run
}

/// The share of a dip that is in force at place `k`: all of it from `i` up to `j`, none at `lo`
/// and at `hi`, and in between along a straight line.
pub open spec fn dip_share<T: Real>(lo: int, i: int, j: int, hi: int, k: int) -> T {
    if k < i {
        arith::over(arith::count::<T>((k - lo) as usize), arith::count((i - lo) as usize))
    } else if k < j {
        arith::whole(1)
    } else {
        arith::over(arith::count::<T>((hi - k) as usize), arith::count((hi - j + 1) as usize))
    }
}

/// The gain at place `k` of a dip to the gain `depth`: it falls from one at `lo` to `depth` at
/// `i`, stays there up to `j`, and rises to one at `hi`.
pub open spec fn dip_gain<T: Real>(depth: T, lo: int, i: int, j: int, hi: int, k: int) -> T {
    arith::minus(
        arith::whole(1),
        arith::times(
            arith::minus(arith::whole(1), depth),
            dip_share::<T>(lo, i, j, hi, k),
        ),
    )
}

/// The gain that brings the run from `i` to `j` down to the local level.
pub open spec fn dip_depth<T: Real>(b: Seq<T>, lim: Limits, i: int, j: int) -> T {
    arith::over(local_level(b, lim.ctx as int, i), peak(b, i, j))
}

/// The samples from `lo` to `hi`, both included, under the gain of a dip to `depth` from `i` to
/// `j`; all else as it is.
pub open spec fn dipped<T: Real>(b: Seq<T>, depth: T, lo: int, i: int, j: int, hi: int) -> Seq<T> {
    Seq::new(
        b.len(),
        |k: int|
            if lo <= k <= hi {
                arith::times(b[k], dip_gain(depth, lo, i, j, hi, k))
            } else {
                b[k]
            },
    )
}

/// The buffer with the needle that starts at `i` repaired.
pub open spec fn repaired_at<T: Real>(b: Seq<T>, lim: Limits, i: int) -> Seq<T> {
    let j = run_of(b, lim, i);
    dipped(b, dip_depth(b, lim, i, j), repair_start(i), i, j, repair_stop(lim, i, j))
}

/// What judging every place from `i` on makes of the buffer, as far as enough samples follow;
/// the place where it stops; and the number of repairs.
pub open spec fn scanned<T: Real>(b: Seq<T>, lim: Limits, i: int) -> (Seq<T>, int, nat)
    decreases (if i + look(lim) < b.len() { b.len() - look(lim) - i } else { 0 }),
{
    if i < 0 || i + look(lim) >= b.len() {
        (b, i, 0)
    } else if !is_candidate(b, lim.ctx as int, i) {
        scanned(b, lim, i + 1)
    } else {
        proof {
            lemma_run_end(b, i, i + 1, lim.max_run as int, run_threshold(b, lim.ctx as int, i));
        }
        let j = run_of(b, lim, i);
        if is_repaired(b, lim, i) {
            let rest = scanned(repaired_at(b, lim, i), lim, repair_stop(lim, i, j) + 1);
            (rest.0, rest.1, rest.2 + 1)
        } else {
            scanned(b, lim, j)
        }
    }
}

/// A run ends past its start, and at most one sample past `max_run`.
pub proof fn lemma_run_end<T: Real>(b: Seq<T>, i: int, j: int, max_run: int, thr: T)
    requires
        i < j <= i + max_run + 1,
    ensures
        j <= run_end(b, i, j, max_run, thr) <= i + max_run + 1,
    decreases max_run + i + 1 - j,
{
    if j - i <= max_run && arith::below(thr, arith::absolute(b[j])) {
        lemma_run_end(b, i, j + 1, max_run, thr);
    }
}

/// The largest absolute sample of `b` from `lo` up to `hi`.
fn peak_between<T: Real>(b: &Vec<T>, lo: usize, hi: usize) -> (r: T)
    requires
        lo <= hi <= b.len(),
    ensures
        arith::deterministic::<T>() ==> r == peak(b@, lo as int, hi as int),
{
    let mut m: T = T::whole(0);
    let mut k: usize = lo;
    while k < hi
        invariant
            lo <= k <= hi <= b.len(),
            arith::deterministic::<T>() ==> m == peak(b@, lo as int, k as int),
        decreases hi - k,
    {
        m = m.larger(b[k].absolute());
        k = k + 1;
    }
    m
}

/// The median absolute sample of `b` within `ctx` of place `c`.
fn median_around<T: Real>(b: &Vec<T>, ctx: usize, c: usize) -> (r: T)
    requires
        c + ctx < b.len(),
    ensures
        arith::deterministic::<T>() ==> r == local_median(b@, ctx as int, c as int),
{
    let lo: usize = if c < ctx { 0 } else { c - ctx };
    let hi: usize = c + ctx + 1;
    let mut mag: Vec<u64> = Vec::new();
    let mut k: usize = lo;
    while k < hi
        invariant
            lo <= k <= hi <= b.len(),
            mag.len() == k - lo,
            arith::deterministic::<T>() ==> forall|p: int|
                0 <= p < mag.len() ==> mag@[p] == arith::rank(b@[lo + p]),
        decreases hi - k,
    {
        let r: u64 = b[k].rank();
        mag.push(r);
        k = k + 1;
    }
    let order: Vec<u64> = sorted(&mag);
    proof {
        mag@.lemma_sort_by_ensures(ascending());
        vstd::seq_lib::to_multiset_len(mag@);
        vstd::seq_lib::to_multiset_len(order@);
        if arith::deterministic::<T>() {
            assert(mag@ =~= ranks(b@, lo as int, hi as int));
        }
    }
    let mid: usize = mag.len() / 2;
    T::unranked(order[mid])
}

/// Turns the samples of `b` from `lo` to `hi` down with a dip to `depth` from `i` to `j`.
fn dip<T: Real>(b: &mut Vec<T>, depth: T, lo: usize, i: usize, j: usize, hi: usize)
    requires
        lo <= i < j <= hi < old(b).len(),
    ensures
        final(b).len() == old(b).len(),
        forall|k: int| 0 <= k < old(b).len() && !(lo <= k <= hi) ==> final(b)@[k] == old(b)@[k],
        arith::deterministic::<T>() ==> final(b)@ == dipped(
            old(b)@,
            depth,
            lo as int,
            i as int,
            j as int,
            hi as int,
        ),
{
    let ghost before = b@;
    let mut k: usize = lo;
    while k <= hi
        invariant
            lo <= i < j <= hi < b.len(),
            lo <= k <= hi + 1,
            before.len() == b.len(),
            forall|p: int| 0 <= p < b.len() && !(lo <= p < k) ==> b@[p] == before[p],
            arith::deterministic::<T>() ==> forall|p: int|
                lo <= p < k ==> b@[p] == arith::times(
                    before[p],
                    dip_gain(depth, lo as int, i as int, j as int, hi as int, p),
                ),
        decreases hi + 1 - k,
    {
        let share: T = if k < i {
            T::count(k - lo).over(T::count(i - lo))
        } else if k < j {
            T::whole(1)
        } else {
            T::count(hi - k).over(T::count(hi - j + 1))
        };
        let gain: T = T::whole(1).minus(T::whole(1).minus(depth).times(share));
        let v: T = b[k].times(gain);
        b.set(k, v);
        k = k + 1;
    }
    proof {
        if arith::deterministic::<T>() {
            assert(b@ =~= dipped(before, depth, lo as int, i as int, j as int, hi as int));
        }
    }
}

/// The local level at the sample of `b` at `i`, if that starts a needle.
fn candidate_at<T: Real>(b: &Vec<T>, ctx: usize, i: usize) -> (r: Option<T>)
    requires
        i + ctx < b.len(),
    ensures
        arith::deterministic::<T>() ==> (r is Some <==> is_candidate(b@, ctx as int, i as int)),
        arith::deterministic::<T>() && r is Some ==> r->0 == local_level(b@, ctx as int, i as int),
{
    let y: T = b[i].absolute();
    if y.below(T::fraction(10, 100)) {
        return None;
    }
    let raw: T = median_around(b, ctx, i);
    let med: T = raw.larger(T::fraction(12, 1000));
    if raw.below(T::fraction(18, 1000)) && y.below(T::fraction(25, 100)) {
        return None;
    }
    if y.at_most(T::whole(6).times(med)) {
        return None;
    }
    Some(med)
}

/// Where the run of `b` that starts at `i` ends.
fn grow_run<T: Real>(b: &Vec<T>, i: usize, max_run: usize, thr: T) -> (j: usize)
    requires
        i + max_run < b.len(),
    ensures
        i < j <= i + max_run + 1,
        arith::deterministic::<T>() ==> j == run_end(b@, i as int, i + 1, max_run as int, thr),
{
    let mut j: usize = i + 1;
    while j - i <= max_run && thr.below(b[j].absolute())
        invariant_except_break
            i < j <= i + max_run + 1,
            i + max_run < b.len(),
            arith::deterministic::<T>() ==> run_end(b@, i as int, i + 1, max_run as int, thr)
                == run_end(b@, i as int, j as int, max_run as int, thr),
        ensures
            i < j <= i + max_run + 1,
            arith::deterministic::<T>() ==> j == run_end(b@, i as int, i + 1, max_run as int, thr),
        decreases i + max_run + 1 - j,
    {
        j = j + 1;
    }
    j
}

/// Whether the run of `b` from `i` to `j` stands alone.
fn stands_alone<T: Real>(b: &Vec<T>, lim: Limits, i: usize, j: usize) -> (r: bool)
    requires
        i < j <= i + look(lim) + 1 <= b.len(),
        delay(lim) + lim.iso < usize::MAX,
    ensures
        arith::deterministic::<T>() ==> r == is_isolated(b@, lim, i as int, j as int),
{
    let n: usize = i + lim.ctx + lim.max_run + 1;
    let iso: usize = lim.iso;
    let l0: usize = if i < MARGIN + iso { 0 } else { i - MARGIN - iso };
    let l1: usize = if i < MARGIN { 0 } else { i - MARGIN };
    let r0: usize = if MARGIN < n - j { j + MARGIN } else { n };
    let r1: usize = if MARGIN + iso < n - j { j + MARGIN + iso } else { n };
    let bound: T = T::fraction(65, 100).times(peak_between(b, i, j));
    let left: T = peak_between(b, l0, l1);
    let right: T = peak_between(b, r0, r1);
    left.below(bound) && right.below(bound)
}

/// Judges every place of `b` from `start` on, as far as enough samples follow.
fn scan<T: Real>(b: &mut Vec<T>, lim: Limits, start: usize, count: u64) -> (r: (usize, u64))
    requires
        start <= old(b).len(),
        delay(lim) + lim.iso < usize::MAX,
        count + old(b).len() <= u64::MAX,
    ensures
        final(b).len() == old(b).len(),
        start <= r.0 <= old(b).len() <= r.0 + look(lim),
        count <= r.1 <= count + old(b).len(),
        arith::deterministic::<T>() ==> ({
            let s = scanned(old(b)@, lim, start as int);
            &&& final(b)@ == s.0
            &&& r.0 == s.1
            &&& r.1 == count + s.2
        }),
{
    let ghost whole = b@;
    let ahead: usize = lim.ctx + lim.max_run;
    let mut i: usize = start;
    let mut repaired: u64 = count;
    while ahead < b.len() - i
        invariant
            ahead == look(lim),
            start <= i <= b.len(),
            b.len() == whole.len(),
            delay(lim) + lim.iso < usize::MAX,
            count <= repaired <= count + (i - start),
            count + b.len() <= u64::MAX,
            arith::deterministic::<T>() ==> ({
                let s = scanned(whole, lim, start as int);
                let t = scanned(b@, lim, i as int);
                s.0 == t.0 && s.1 == t.1 && count + s.2 == repaired + t.2
            }),
        decreases b.len() - i,
    {
        match candidate_at(b, lim.ctx, i) {
            None => {
                i = i + 1;
            },
            Some(level) => {
                let thr: T = T::whole(6).times(T::fraction(1, 2)).times(level);
                let j: usize = grow_run(b, i, lim.max_run, thr);
                let alone: bool = stands_alone(b, lim, i, j);
                if alone && j - i <= lim.max_run {
                    let lo: usize = if i < MARGIN { 0 } else { i - MARGIN };
                    let last: usize = i + ahead;
                    let hi: usize = if MARGIN < last - j { j + MARGIN } else { last };
                    let depth: T = level.over(peak_between(b, i, j));
                    dip(b, depth, lo, i, j, hi);
                    repaired = repaired + 1;
                    i = hi + 1;
                } else {
                    i = j;
                }
            },
        }
    }
    (i, repaired)
}

/// What a guard goes by.
pub struct GuardState<T: Real> {
    /// The last samples of the stream, as far as they are judged with their repairs.
    pub held: Seq<T>,
    /// The first of them that has not been judged.
    pub place: int,
    /// The number of needles repaired.
    pub repaired: nat,
}

/// The guard of a stream that has not started: nothing but silence, of which the start is judged.
pub open spec fn fresh<T: Real>(lim: Limits) -> GuardState<T> {
    GuardState {
        held: Seq::new(delay(lim) as nat, |k: int| arith::whole(0)),
        place: MARGIN as int,
        repaired: 0,
    }
}

/// How many samples of a buffer of `n` are out of reach for good.
pub open spec fn outdated(lim: Limits, n: int) -> int {
    if n > delay(lim) + memory(lim) {
        n - delay(lim) - memory(lim)
    } else {
        0
    }
}

impl<T: Real> GuardState<T> {
    /// What judging makes of the samples held and a chunk.
    pub open spec fn judged(self, lim: Limits, chunk: Seq<T>) -> (Seq<T>, int, nat) {
        scanned(self.held + chunk, lim, self.place)
    }

    /// What the guard returns for a chunk.
    pub open spec fn output(self, lim: Limits, chunk: Seq<T>) -> Seq<T> {
        let from = self.held.len() - delay(lim);
        self.judged(lim, chunk).0.subrange(from, from + chunk.len())
    }

    /// The guard after a chunk: samples that no place to come can reach are forgotten.
    pub open spec fn after(self, lim: Limits, chunk: Seq<T>) -> GuardState<T> {
        let s = self.judged(lim, chunk);
        let gone = outdated(lim, s.0.len() as int);
        GuardState {
            held: s.0.skip(gone),
            place: s.1 - gone,
            repaired: self.repaired + s.2,
        }
    }
}

/// Streaming needle suppressor.
pub struct NeedleGuard<T: Real> {
    /// The limits in force.
    pub limits: Limits,
    /// The last samples of the stream: those that were not yet returned, and before them those
    /// that still matter; empty before the first chunk.
    pub buf: Vec<T>,
    /// The first of them that has not been judged.
    pub place: usize,
    /// Number of needle runs repaired so far.
    pub repaired: u64,
}

impl<T: Real> NeedleGuard<T> {
    /// The limits that the guard works with.
    pub open spec fn limits(self) -> Limits {
        self.limits
    }

    /// Whether the guard has taken a chunk.
    pub open spec fn primed(self) -> bool {
        self.buf.len() > 0
    }

    /// What the guard keeps from chunk to chunk. What it goes by besides, its limits, stays.
    pub open spec fn state(self) -> GuardState<T> {
        GuardState {
            held: if self.buf.len() > 0 {
                self.buf@
            } else {
                fresh(self.limits).held
            },
            place: self.place as int,
            repaired: self.repaired as nat,
        }
    }

    /// Whether the guard holds what it has not returned, and no more before it than can matter.
    pub open spec fn valid(self) -> bool {
        &&& delay(self.limits) + memory(self.limits) < usize::MAX
        &&& self.buf.len() == 0 ==> self.place == MARGIN
        &&& self.buf.len() > 0 ==> delay(self.limits) <= self.buf.len() <= delay(self.limits)
            + memory(self.limits) && self.place <= self.buf.len()
    }

    /// A guard for a stream of `sample_rate` samples per second.
    pub fn new(sample_rate: T) -> (g: Self)
        ensures
            !g.primed(),
            g.repaired == 0,
            g.state() == fresh::<T>(g.limits()),
            arith::deterministic::<T>() ==> g.limits() == (Limits {
                ctx: arith::truncated(arith::times(arith::fraction(8, 1000), sample_rate)),
                max_run: arith::truncated(arith::times(arith::fraction(5, 10000), sample_rate)),
                iso: arith::truncated(arith::times(arith::fraction(2, 1000), sample_rate)),
            }),
            delay(g.limits()) + memory(g.limits()) < usize::MAX ==> g.valid(),
    {
        let ctx: usize = T::fraction(8, 1000).times(sample_rate).truncated();
        let max_run: usize = T::fraction(5, 10000).times(sample_rate).truncated();
        let iso: usize = T::fraction(2, 1000).times(sample_rate).truncated();
        NeedleGuard {
            limits: Limits { ctx, max_run, iso },
            buf: Vec::new(),
            place: MARGIN,
            repaired: 0,
        }
    }

    /// The delay of the guard in samples: the median context, and enough room that a run at the
    /// edge of what is returned has been judged as a whole.
    pub fn latency(&self) -> (n: usize)
        requires
            self.valid(),
        ensures
            n == delay(self.limits()),
    {
        self.limits.ctx + self.limits.max_run + MARGIN
    }

    /// Takes `chunk` and returns the next `chunk.len()` samples of the guarded stream.
    pub fn process(&mut self, chunk: &[T]) -> (out: Vec<T>)
        requires
            old(self).valid(),
            delay(old(self).limits()) + memory(old(self).limits()) + chunk.len() <= usize::MAX,
            old(self).repaired + delay(old(self).limits()) + memory(old(self).limits())
                + chunk.len() <= u64::MAX,
        ensures
            final(self).valid(),
            final(self).primed(),
            final(self).limits() == old(self).limits(),
            out.len() == chunk.len(),
            arith::deterministic::<T>() ==> out@ == old(self).state().output(
                old(self).limits(),
                chunk@,
            ),
            arith::deterministic::<T>() ==> final(self).state() == old(self).state().after(
                old(self).limits(),
                chunk@,
            ),
    {
        let lim: Limits = self.limits;
        let n: usize = self.latency();
        let mut buf: Vec<T> = Vec::new();
        if self.buf.len() == 0 {
            buf = filled(T::whole(0), n);
            assert(arith::deterministic::<T>() ==> buf@ =~= fresh(lim).held);
        } else {
            std::mem::swap(&mut buf, &mut self.buf);
        }
        let from: usize = buf.len() - n;
        append(&mut buf, chunk);
        let (place, repaired) = scan(&mut buf, lim, self.place, self.repaired);
        let out: Vec<T> = part(buf.as_slice(), from, from + chunk.len());
        let reach: usize = if lim.ctx > MARGIN + lim.iso { lim.ctx } else { MARGIN + lim.iso };
        let gone: usize = if buf.len() > n + reach { buf.len() - n - reach } else { 0 };
        let ghost all = buf@;
        self.buf = part(buf.as_slice(), gone, buf.len());
        self.place = place - gone;
        self.repaired = repaired;
        proof {
            assert(self.buf@ =~= all.skip(gone as int));
        }
        out
    }
}

/// What a guard returns for a list of chunks taken one after the other, and what it goes by then.
pub open spec fn fed<T: Real>(lim: Limits, st: GuardState<T>, chunks: Seq<Seq<T>>) -> (
    Seq<T>,
    GuardState<T>,
)
    decreases chunks.len(),
{
    if chunks.len() == 0 {
        (Seq::empty(), st)
    } else {
        let before = fed(lim, st, chunks.drop_last());
        (
            before.0 + before.1.output(lim, chunks.last()),
            before.1.after(lim, chunks.last()),
        )
    }
}

/// A scan keeps the length of the buffer and everything more than the margin before the place
/// where it starts, and stops where too few samples follow; one that repairs nothing keeps the
/// buffer.
pub proof fn lemma_scan<T: Real>(b: Seq<T>, lim: Limits, i: int)
    requires
        0 <= i <= b.len(),
    ensures
        scanned(b, lim, i).0.len() == b.len(),
        i <= scanned(b, lim, i).1 <= b.len() <= scanned(b, lim, i).1 + look(lim),
        scanned(b, lim, i).2 == 0 ==> scanned(b, lim, i).0 == b,
        forall|k: int|
            0 <= k < i - MARGIN ==> #[trigger] scanned(b, lim, i).0[k] == b[k],
    decreases (if i + look(lim) < b.len() { b.len() - look(lim) - i } else { 0 }),
{
    if i + look(lim) >= b.len() {
    } else if !is_candidate(b, lim.ctx as int, i) {
        lemma_scan(b, lim, i + 1);
    } else {
        lemma_run_end(b, i, i + 1, lim.max_run as int, run_threshold(b, lim.ctx as int, i));
        let j = run_of(b, lim, i);
        if is_repaired(b, lim, i) {
            lemma_scan(repaired_at(b, lim, i), lim, repair_stop(lim, i, j) + 1);
        } else {
            lemma_scan(b, lim, j);
        }
    }
}

/// A signal whose samples all stay below the absolute floor is never touched; nor is one whose
/// local level is near silence and whose samples stay below the level of a loud needle.
pub proof fn law_quiet_is_untouched<T: Real>(b: Seq<T>, lim: Limits, i: int)
    requires
        0 <= i <= b.len(),
        forall|k: int|
            0 <= k < b.len() - look(lim) ==> {
                let y = arith::absolute(#[trigger] b[k]);
                ||| arith::below(y, arith::fraction(10, 100))
                ||| arith::below(local_median(b, lim.ctx as int, k), arith::fraction(18, 1000))
                    && arith::below(y, arith::fraction(25, 100))
            },
    ensures
        scanned(b, lim, i).0 == b,
        scanned(b, lim, i).2 == 0,
    decreases b.len() - i,
{
    if i + look(lim) < b.len() {
        let y = arith::absolute(b[i]);
        assert(!is_candidate(b, lim.ctx as int, i));
        law_quiet_is_untouched(b, lim, i + 1);
    }
}

/// A repair turns down the run and at most the margin on either side of it: each sample there is
/// multiplied by a gain, and everything else stays as it is.
pub proof fn law_repair_is_local<T: Real>(b: Seq<T>, lim: Limits, i: int)
    requires
        0 <= i < b.len() - look(lim),
        is_repaired(b, lim, i),
    ensures
        ({
            let j = run_of(b, lim, i);
            let start = repair_start(i);
            let stop = repair_stop(lim, i, j);
            &&& 0 <= start <= i < j <= stop < b.len()
            &&& stop - start <= lim.max_run + 2 * MARGIN
            &&& forall|k: int|
                0 <= k < b.len() ==> #[trigger] repaired_at(b, lim, i)[k] == (if start <= k <= stop {
                    arith::times(
                        b[k],
                        dip_gain(dip_depth(b, lim, i, j), start, i, j, stop, k),
                    )
                } else {
                    b[k]
                })
        }),
{
    lemma_run_end(b, i, i + 1, lim.max_run as int, run_threshold(b, lim.ctx as int, i));
}

proof fn lemma_peak_shift<T: Real>(p: Seq<T>, x: Seq<T>, lo: int, hi: int)
    requires
        0 <= lo,
        hi <= x.len(),
    ensures
        peak(p + x, p.len() + lo, p.len() + hi) == peak(x, lo, hi),
    decreases hi - lo,
{
    if lo < hi {
        lemma_peak_shift(p, x, lo, hi - 1);
    }
}

proof fn lemma_peak_prefix<T: Real>(b: Seq<T>, x: Seq<T>, lo: int, hi: int)
    requires
        0 <= lo,
        hi <= b.len(),
    ensures
        peak(b + x, lo, hi) == peak(b, lo, hi),
    decreases hi - lo,
{
    if lo < hi {
        lemma_peak_prefix(b, x, lo, hi - 1);
    }
}

proof fn lemma_run_shift<T: Real>(p: Seq<T>, x: Seq<T>, i: int, j: int, max_run: int, thr: T)
    requires
        0 <= i < j,
        i + max_run < x.len(),
    ensures
        run_end(p + x, p.len() + i, p.len() + j, max_run, thr) == p.len() + run_end(
            x,
            i,
            j,
            max_run,
            thr,
        ),
    decreases max_run + i + 1 - j,
{
    if j - i <= max_run && arith::below(thr, arith::absolute(x[j])) {
        lemma_run_shift(p, x, i, j + 1, max_run, thr);
    }
}

proof fn lemma_run_prefix<T: Real>(b: Seq<T>, x: Seq<T>, i: int, j: int, max_run: int, thr: T)
    requires
        0 <= i < j,
        i + max_run < b.len(),
    ensures
        run_end(b + x, i, j, max_run, thr) == run_end(b, i, j, max_run, thr),
    decreases max_run + i + 1 - j,
{
    if j - i <= max_run && arith::below(thr, arith::absolute(b[j])) {
        lemma_run_prefix(b, x, i, j + 1, max_run, thr);
    }
}

/// A scan does not see what lies further back than its memory.
proof fn lemma_scan_shift<T: Real>(p: Seq<T>, x: Seq<T>, lim: Limits, i: int)
    requires
        i >= memory(lim),
    ensures
        ({
            let s = scanned(x, lim, i);
            scanned(p + x, lim, p.len() + i) == (p + s.0, p.len() + s.1, s.2)
        }),
    decreases (if i + look(lim) < x.len() { x.len() - look(lim) - i } else { 0 }),
{
    let w = p + x;
    let n = p.len() as int;
    let ctx = lim.ctx as int;
    if i + look(lim) < x.len() {
        assert(ranks(w, n + i - ctx, n + i + ctx + 1) =~= ranks(x, i - ctx, i + ctx + 1));
        assert(local_median(w, ctx, n + i) == local_median(x, ctx, i));
        assert(is_candidate(w, ctx, n + i) == is_candidate(x, ctx, i));
        if !is_candidate(x, ctx, i) {
            lemma_scan_shift(p, x, lim, i + 1);
        } else {
            let thr = run_threshold(x, ctx, i);
            lemma_run_end(x, i, i + 1, lim.max_run as int, thr);
            lemma_run_shift(p, x, i, i + 1, lim.max_run as int, thr);
            let j = run_of(x, lim, i);
            assert(run_of(w, lim, n + i) == n + j);
            let last = i + look(lim) + 1;
            lemma_peak_shift(p, x, i, j);
            lemma_peak_shift(p, x, i - MARGIN - lim.iso, i - MARGIN);
            lemma_peak_shift(p, x, earlier(j + MARGIN, last), earlier(j + MARGIN + lim.iso, last));
            assert(is_isolated(w, lim, n + i, n + j) == is_isolated(x, lim, i, j));
            assert(is_repaired(w, lim, n + i) == is_repaired(x, lim, i));
            if is_repaired(x, lim, i) {
                let stop = repair_stop(lim, i, j);
                let start = repair_start(i);
                assert(repair_stop(lim, n + i, n + j) == n + stop);
                assert(repair_start(n + i) == n + start);
                let depth = dip_depth(x, lim, i, j);
                assert(dip_depth(w, lim, n + i, n + j) == depth);
                assert forall|k: int| start <= k <= stop implies #[trigger] dip_gain(
                    depth,
                    n + start,
                    n + i,
                    n + j,
                    n + stop,
                    n + k,
                ) == dip_gain(depth, start, i, j, stop, k) by {
                    assert(n + k - (n + start) == k - start);
                    assert(n + i - (n + start) == i - start);
                    assert(n + stop - (n + k) == stop - k);
                    assert(n + stop - (n + j) + 1 == stop - j + 1);
                }
                let a = repaired_at(w, lim, n + i);
                let b = p + repaired_at(x, lim, i);
                assert(a.len() == b.len());
                assert forall|m: int| 0 <= m < a.len() implies a[m] == b[m] by {
                    if n + start <= m <= n + stop {
                        let k = m - n;
                        assert(dip_gain(depth, n + start, n + i, n + j, n + stop, n + k)
                            == dip_gain(depth, start, i, j, stop, k));
                        assert(w[m] == x[k]);
                    }
                }
                assert(a =~= b);
                lemma_scan_shift(p, repaired_at(x, lim, i), lim, stop + 1);
            } else {
                lemma_scan_shift(p, x, lim, j);
            }
        }
    }
}

/// To scan a buffer and then, when more has come, to go on where the scan stopped, is to scan all
/// of it.
proof fn lemma_scan_goes_on<T: Real>(b: Seq<T>, x: Seq<T>, lim: Limits, i: int)
    requires
        0 <= i <= b.len(),
    ensures
        ({
            let s = scanned(b, lim, i);
            let t = scanned(s.0 + x, lim, s.1);
            scanned(b + x, lim, i) == (t.0, t.1, s.2 + t.2)
        }),
    decreases (if i + look(lim) < b.len() { b.len() - look(lim) - i } else { 0 }),
{
    let w = b + x;
    let ctx = lim.ctx as int;
    if i + look(lim) < b.len() {
        let lo = if i < ctx { 0 } else { i - ctx };
        assert(ranks(w, lo, i + ctx + 1) =~= ranks(b, lo, i + ctx + 1));
        assert(local_median(w, ctx, i) == local_median(b, ctx, i));
        assert(is_candidate(w, ctx, i) == is_candidate(b, ctx, i));
        if !is_candidate(b, ctx, i) {
            lemma_scan_goes_on(b, x, lim, i + 1);
        } else {
            let thr = run_threshold(b, ctx, i);
            lemma_run_end(b, i, i + 1, lim.max_run as int, thr);
            lemma_run_prefix(b, x, i, i + 1, lim.max_run as int, thr);
            let j = run_of(b, lim, i);
            assert(run_of(w, lim, i) == j);
            let last = i + look(lim) + 1;
            let l0 = if i < MARGIN + lim.iso { 0 } else { i - MARGIN - lim.iso };
            let l1 = if i < MARGIN { 0 } else { i - MARGIN };
            lemma_peak_prefix(b, x, i, j);
            lemma_peak_prefix(b, x, l0, l1);
            lemma_peak_prefix(b, x, earlier(j + MARGIN, last), earlier(j + MARGIN + lim.iso, last));
            assert(is_isolated(w, lim, i, j) == is_isolated(b, lim, i, j));
            assert(is_repaired(w, lim, i) == is_repaired(b, lim, i));
            if is_repaired(b, lim, i) {
                let stop = repair_stop(lim, i, j);
                assert(dip_depth(w, lim, i, j) == dip_depth(b, lim, i, j));
                assert(repaired_at(w, lim, i) =~= repaired_at(b, lim, i) + x);
                lemma_scan_goes_on(repaired_at(b, lim, i), x, lim, stop + 1);
            } else {
                lemma_scan_goes_on(b, x, lim, j);
            }
        }
    }
}

/// What judging every place makes of a whole stream behind the silence of a guard.
pub open spec fn whole_scan<T: Real>(lim: Limits, xs: Seq<T>) -> (Seq<T>, int, nat) {
    scanned(fresh::<T>(lim).held + xs, lim, MARGIN as int)
}

/// What a guard returns and goes by, however a stream is cut: it has returned the first samples
/// of a scan of the whole stream, as many as it has taken, and goes by the rest of it.
pub proof fn law_guard_scans_the_whole_stream<T: Real>(lim: Limits, chunks: Seq<Seq<T>>)
    ensures
        ({
            let xs = chunks.flatten();
            let s = whole_scan(lim, xs);
            let gone = outdated(lim, s.0.len() as int);
            let r = fed(lim, fresh::<T>(lim), chunks);
            &&& r.0 == s.0.take(xs.len() as int)
            &&& r.1 == (GuardState { held: s.0.skip(gone), place: s.1 - gone, repaired: s.2 })
        }),
    decreases chunks.len(),
{
    chunks.lemma_flatten_and_flatten_alt_are_equivalent();
    let xs = chunks.flatten();
    let zeros = fresh::<T>(lim).held;
    let s = whole_scan(lim, xs);
    let r = fed(lim, fresh::<T>(lim), chunks);
    let gone = outdated(lim, s.0.len() as int);
    if chunks.len() == 0 {
        assert(xs =~= Seq::<T>::empty());
        assert(zeros + xs =~= zeros);
        assert(s.0.skip(0) =~= zeros);
    } else {
        let front = chunks.drop_last();
        let c = chunks.last();
        law_guard_scans_the_whole_stream(lim, front);
        front.lemma_flatten_and_flatten_alt_are_equivalent();
        let ys = front.flatten();
        assert(xs == ys + c);
        let w = zeros + ys;
        let f = whole_scan(lim, ys);
        let dropped = outdated(lim, f.0.len() as int);
        let before = fed(lim, fresh::<T>(lim), front);
        lemma_scan(w, lim, MARGIN as int);
        lemma_scan_goes_on(w, c, lim, MARGIN as int);
        assert(zeros + xs =~= w + c);
        let p = f.0.take(dropped);
        let held = f.0.skip(dropped);
        let t = scanned(held + c, lim, f.1 - dropped);
        let full = scanned(f.0 + c, lim, f.1);
        assert(p + (held + c) =~= f.0 + c);
        if dropped > 0 {
            lemma_scan_shift(p, held + c, lim, f.1 - dropped);
        } else {
            assert(p =~= Seq::<T>::empty());
            assert(held =~= f.0);
            assert(p + t.0 =~= t.0);
        }
        assert(full == (p + t.0, dropped + t.1, t.2));
        assert(s == (full.0, full.1, f.2 + full.2));
        lemma_scan(held + c, lim, f.1 - dropped);
        let from = held.len() - delay(lim);
        assert(before.1.judged(lim, c) == t);
        assert(dropped + from == ys.len());
        assert(s.0.len() == zeros.len() + xs.len());
        assert forall|k: int| 0 <= k < ys.len() implies s.0[k] == f.0[k] by {
            if k >= dropped {
                assert(k - dropped < f.1 - dropped - MARGIN);
                assert(t.0[k - dropped] == (held + c)[k - dropped]);
            }
        }
        assert(r.0 =~= s.0.take(xs.len() as int));
        let more = outdated(lim, t.0.len() as int);
        assert(dropped + more == gone);
        assert(t.0.skip(more) =~= s.0.skip(gone));
    }
}

/// However a stream is cut into chunks, the guard returns the same samples, counts the same
/// repairs and goes on from the same state.
pub proof fn law_chunking_does_not_matter<T: Real>(
    lim: Limits,
    one: Seq<Seq<T>>,
    other: Seq<Seq<T>>,
)
    requires
        one.flatten() == other.flatten(),
    ensures
        fed(lim, fresh::<T>(lim), one) == fed(lim, fresh::<T>(lim), other),
{
    law_guard_scans_the_whole_stream(lim, one);
    law_guard_scans_the_whole_stream(lim, other);
}

/// As long as nothing is repaired, a guard is a pure delay: it returns silence for its latency,
/// and then what it has taken.
pub proof fn law_untouched_stream_is_delayed<T: Real>(lim: Limits, chunks: Seq<Seq<T>>)
    requires
        fed(lim, fresh::<T>(lim), chunks).1.repaired == 0,
    ensures
        fed(lim, fresh::<T>(lim), chunks).0 == (fresh::<T>(lim).held + chunks.flatten()).take(
            chunks.flatten().len() as int,
        ),
{
    law_guard_scans_the_whole_stream(lim, chunks);
    lemma_scan(fresh::<T>(lim).held + chunks.flatten(), lim, MARGIN as int);
}

/// A stream that stays below the absolute floor passes a guard untouched, however it is cut: the
/// guard returns silence for its latency and then what it has taken, and repairs nothing. Silence
/// has to be below the floor.
pub proof fn law_quiet_stream_is_delayed<T: Real>(lim: Limits, chunks: Seq<Seq<T>>)
    requires
        arith::below(arith::absolute(arith::whole::<T>(0)), arith::fraction(10, 100)),
        forall|k: int|
            0 <= k < chunks.flatten().len() ==> arith::below(
                arith::absolute(#[trigger] chunks.flatten()[k]),
                arith::fraction(10, 100),
            ),
    ensures
        fed(lim, fresh::<T>(lim), chunks).1.repaired == 0,
        fed(lim, fresh::<T>(lim), chunks).0 == (fresh::<T>(lim).held + chunks.flatten()).take(
            chunks.flatten().len() as int,
        ),
{
    let b = fresh::<T>(lim).held + chunks.flatten();
    law_guard_scans_the_whole_stream(lim, chunks);
    assert forall|k: int| 0 <= k < b.len() implies arith::below(
        arith::absolute(#[trigger] b[k]),
        arith::fraction(10, 100),
    ) by {
        if k >= fresh::<T>(lim).held.len() {
            assert(b[k] == chunks.flatten()[k - fresh::<T>(lim).held.len()]);
        }
    }
    law_quiet_is_untouched(b, lim, MARGIN as int);
}

/// The peak of a run is at least each sample of it.
proof fn lemma_peak_is_upper<T: Real>(b: Seq<T>, lo: int, hi: int, k: int)
    requires
        arith::ordered::<T>(),
        arith::larger_is_upper::<T>(),
        lo <= k < hi,
        arith::number(arith::absolute(b[k])),
    ensures
        arith::at_most(arith::absolute(b[k]), peak(b, lo, hi)),
    decreases hi - lo,
{
    let before = peak(b, lo, hi - 1);
    let last = arith::absolute(b[hi - 1]);
    if k < hi - 1 {
        lemma_peak_is_upper(b, lo, hi - 1, k);
        assert(arith::at_most(before, arith::larger(before, last)));
        arith::lemma_transitive(arith::absolute(b[k]), before, arith::larger(before, last));
    } else {
        assert(arith::at_most(last, arith::larger(before, last)));
    }
}

/// A repair only attenuates: at every place its gain lies between zero and one; all of the dip is
/// in force in the run, and none of it at both ends. Left out are needles that are no numbers.
pub proof fn law_repair_only_attenuates<T: Real>(b: Seq<T>, lim: Limits, i: int, k: int)
    requires
        arith::ordered::<T>(),
        arith::larger_is_upper::<T>(),
        arith::shares_stay_in_range::<T>(),
        arith::at_most(arith::whole::<T>(0), arith::fraction::<T>(12, 1000)),
        forall|x: T|
            arith::at_most(arith::whole(0), x) ==> arith::at_most(
                x,
                #[trigger] arith::times(arith::whole(6), x),
            ),
        0 <= i < b.len() - look(lim),
        is_repaired(b, lim, i),
        arith::number(arith::absolute(b[i])),
        arith::number(dip_depth(b, lim, i, run_of(b, lim, i))),
        repair_start(i) <= k <= repair_stop(lim, i, run_of(b, lim, i)),
    ensures
        ({
            let j = run_of(b, lim, i);
            let depth = dip_depth(b, lim, i, j);
            let start = repair_start(i);
            let stop = repair_stop(lim, i, j);
            &&& arith::is_share(dip_gain(depth, start, i, j, stop, k))
            &&& repaired_at(b, lim, i)[k] == arith::times(
                b[k],
                dip_gain(depth, start, i, j, stop, k),
            )
            &&& i <= k < j ==> dip_share::<T>(start, i, j, stop, k) == arith::whole::<T>(1)
            &&& k == start && start < i ==> dip_share::<T>(start, i, j, stop, k) == arith::over(
                arith::count::<T>(0),
                arith::count((i - start) as usize),
            )
            &&& k == stop ==> dip_share::<T>(start, i, j, stop, k) == arith::over(
                arith::count::<T>(0),
                arith::count((stop - j + 1) as usize),
            )
        }),
{
    law_repair_is_local(b, lim, i);
    let j = run_of(b, lim, i);
    let ctx = lim.ctx as int;
    let level = local_level(b, ctx, i);
    let floor = arith::fraction::<T>(12, 1000);
    let y = arith::absolute(b[i]);
    let six = arith::times(arith::whole(6), level);
    let depth = dip_depth(b, lim, i, j);
    assert(arith::number(floor));
    assert(arith::at_most(floor, level));
    arith::lemma_transitive(arith::whole::<T>(0), floor, level);
    assert(arith::at_most(level, six));
    arith::lemma_total(y, six);
    arith::lemma_transitive(level, six, y);
    lemma_peak_is_upper(b, i, j, i);
    arith::lemma_transitive(level, y, peak(b, i, j));
    assert(arith::is_share(depth));
    let start = repair_start(i);
    let stop = repair_stop(lim, i, j);
    assert(arith::is_share(dip_share::<T>(start, i, j, stop, k)));
    assert(arith::is_share(arith::minus(arith::whole(1), depth)));
    assert(arith::is_share(
        arith::times(
            arith::minus(arith::whole(1), depth),
            dip_share::<T>(start, i, j, stop, k),
        ),
    ));
}

/// Sorted numbers are in ascending order, and each of them is one of the list.
pub proof fn law_sorting_orders(s: Seq<u64>, a: int, b: int)
    requires
        0 <= a <= b < s.len(),
    ensures
        nth_smallest(s, a) <= nth_smallest(s, b),
        s.contains(nth_smallest(s, a)),
        s.to_multiset() == s.sort_by(ascending()).to_multiset(),
{
    s.lemma_sort_by_ensures(ascending());
    let r = s.sort_by(ascending());
    s.to_multiset_ensures();
    r.to_multiset_ensures();
    assert(r.len() == s.len());
    if a < b {
        assert(ascending()(r[a], r[b]));
    }
    assert(r.contains(r[a]));
}

/// The median at a place is the middle one of the `2 ctx + 1` sizes around it, and of nothing
/// else: a change of the signal further away leaves it as it is.
pub proof fn law_median_is_of_its_surroundings<T: Real>(
    b: Seq<T>,
    other: Seq<T>,
    ctx: int,
    c: int,
    d: int,
)
    requires
        0 <= ctx <= c,
        ctx <= d,
        c + ctx < b.len(),
        d + ctx < other.len(),
        forall|k: int| -ctx <= k <= ctx ==> #[trigger] b[c + k] == other[d + k],
    ensures
        local_median(b, ctx, c) == local_median(other, ctx, d),
        local_median(b, ctx, c) == arith::unranked::<T>(
            nth_smallest(
                Seq::new((2 * ctx + 1) as nat, |k: int| arith::rank(b[c - ctx + k])),
                ctx,
            ),
        ),
{
    let x = ranks(b, c - ctx, c + ctx + 1);
    let y = ranks(other, d - ctx, d + ctx + 1);
    assert forall|k: int| 0 <= k < x.len() implies #[trigger] x[k] == y[k] by {
        assert(b[c + (k - ctx)] == other[d + (k - ctx)]);
    }
    assert(x =~= y);
    assert(x =~= Seq::new((2 * ctx + 1) as nat, |k: int| arith::rank(b[c - ctx + k])));
}

/// A sample starts a needle if and only if it is a tenth or more, a quarter or more where the
/// median around it is under 0.018, and more than six times the level, which is the median or
/// 0.012.
pub proof fn law_needles_stand_out<T: Real>(b: Seq<T>, ctx: int, i: int)
    ensures
        ({
            let y = arith::absolute(b[i]);
            let m = local_median(b, ctx, i);
            let low = arith::fraction::<T>(12, 1000);
            &&& arith::below(y, arith::fraction(10, 100)) ==> !is_candidate(b, ctx, i)
            &&& arith::below(m, arith::fraction(18, 1000)) && arith::below(
                y,
                arith::fraction(25, 100),
            ) ==> !is_candidate(b, ctx, i)
            &&& arith::larger(m, low) == m && arith::at_most(y, arith::times(arith::whole(6), m))
                ==> !is_candidate(b, ctx, i)
            &&& arith::larger(m, low) == low && arith::at_most(
                y,
                arith::times(arith::whole(6), low),
            ) ==> !is_candidate(b, ctx, i)
            &&& !arith::below(y, arith::fraction(25, 100)) && !arith::below(
                y,
                arith::fraction(10, 100),
            ) && arith::larger(m, low) == low && !arith::at_most(
                y,
                arith::times(arith::whole(6), low),
            ) ==> is_candidate(b, ctx, i)
            &&& !arith::below(m, arith::fraction(18, 1000)) && !arith::below(
                y,
                arith::fraction(10, 100),
            ) && arith::larger(m, low) == m && !arith::at_most(y, arith::times(arith::whole(6), m))
                ==> is_candidate(b, ctx, i)
        }),
{
}

/// A run holds samples that are above its threshold and no others: every sample after its first is
/// above, and it ends at the first that is not, or one past its greatest length.
pub proof fn law_runs_stay_above_their_threshold<T: Real>(
    b: Seq<T>,
    i: int,
    j: int,
    max_run: int,
    thr: T,
    k: int,
)
    requires
        i < j <= i + max_run + 1,
    ensures
        ({
            let end = run_end(b, i, j, max_run, thr);
            &&& j <= end <= i + max_run + 1
            &&& j <= k < end ==> arith::below(thr, arith::absolute(b[k]))
            &&& end <= i + max_run ==> !arith::below(thr, arith::absolute(b[end]))
        }),
    decreases max_run + i + 1 - j,
{
    if j - i <= max_run && arith::below(thr, arith::absolute(b[j])) {
        law_runs_stay_above_their_threshold(b, i, j + 1, max_run, thr, k);
    }
}

/// The threshold of a run is half of that of its start: three times the level.
pub proof fn law_runs_go_on_at_half<T: Real>(b: Seq<T>, ctx: int, i: int)
    requires
        arith::times(arith::whole::<T>(6), arith::fraction(1, 2)) == arith::whole::<T>(3),
    ensures
        ({
            let m = local_median(b, ctx, i);
            let low = arith::fraction::<T>(12, 1000);
            &&& arith::larger(m, low) == m ==> run_threshold(b, ctx, i) == arith::times(
                arith::whole(3),
                m,
            )
            &&& arith::larger(m, low) == low ==> run_threshold(b, ctx, i) == arith::times(
                arith::whole(3),
                low,
            )
        }),
{
}

/// A peak is at least each size, and it is zero or one of them.
pub proof fn law_peak_is_the_largest<T: Real>(b: Seq<T>, lo: int, hi: int, k: int)
    requires
        arith::ordered::<T>(),
        arith::larger_is_upper::<T>(),
        forall|x: T, y: T| (#[trigger] arith::larger(x, y)) == x || arith::larger(x, y) == y,
        lo <= k < hi,
        arith::number(arith::absolute(b[k])),
    ensures
        arith::at_most(arith::absolute(b[k]), peak(b, lo, hi)),
        peak(b, lo, hi) == arith::whole::<T>(0) || exists|m: int|
            lo <= m < hi && peak(b, lo, hi) == #[trigger] arith::absolute(b[m]),
{
    lemma_peak_is_upper(b, lo, hi, k);
    lemma_peak_is_one_of_them(b, lo, hi);
}

/// A peak is zero or one of the sizes.
proof fn lemma_peak_is_one_of_them<T: Real>(b: Seq<T>, lo: int, hi: int)
    requires
        forall|x: T, y: T| (#[trigger] arith::larger(x, y)) == x || arith::larger(x, y) == y,
    ensures
        peak(b, lo, hi) == arith::whole::<T>(0) || exists|m: int|
            lo <= m < hi && peak(b, lo, hi) == #[trigger] arith::absolute(b[m]),
    decreases hi - lo,
{
    if lo < hi {
        lemma_peak_is_one_of_them(b, lo, hi - 1);
        let before = peak(b, lo, hi - 1);
        let last = arith::absolute(b[hi - 1]);
        if arith::larger(before, last) == before {
            if before != arith::whole::<T>(0) {
                let m = choose|m: int|
                    lo <= m < hi - 1 && before == #[trigger] arith::absolute(b[m]);
                assert(arith::absolute(b[m]) == peak(b, lo, hi));
            }
        } else {
            assert(last == peak(b, lo, hi));
        }
    }
}

/// A run stands alone only if it is louder than what is around it: every sample from 16 before it
/// on, as far back as the isolation reaches, and as many from 16 after it on as were there to be
/// looked at, is under 65 % of its peak.
pub proof fn law_lone_runs_are_louder_than_their_surroundings<T: Real>(
    b: Seq<T>,
    lim: Limits,
    i: int,
    j: int,
    k: int,
)
    requires
        arith::ordered::<T>(),
        arith::larger_is_upper::<T>(),
        forall|x: T, y: T, z: T|
            #[trigger] arith::at_most(x, y) && #[trigger] arith::below(y, z) ==> arith::below(x, z),
        0 <= k < b.len(),
        arith::number(arith::absolute(b[k])),
        16 + lim.iso <= i < j,
        i - 16 - lim.iso <= k < i - 16 || j + 16 <= k < j + 16 + lim.iso && k <= i + lim.ctx
            + lim.max_run,
        is_isolated(b, lim, i, j),
    ensures
        arith::below(
            arith::absolute(b[k]),
            arith::times(arith::fraction(65, 100), peak(b, i, j)),
        ),
{
    let n = i + look(lim) + 1;
    if k < i {
        lemma_peak_is_upper(b, i - 16 - lim.iso, i - 16, k);
    } else {
        lemma_peak_is_upper(b, earlier(j + 16, n), earlier(j + 16 + lim.iso, n), k);
    }
}

/// A run in silence stands alone.
pub proof fn law_runs_in_silence_stand_alone<T: Real>(b: Seq<T>, lim: Limits, i: int, j: int)
    requires
        arith::absolute(arith::whole::<T>(0)) == arith::whole::<T>(0),
        arith::larger(arith::whole::<T>(0), arith::whole(0)) == arith::whole::<T>(0),
        0 <= i < j,
        i + look(lim) < b.len(),
        forall|k: int|
            0 <= k < b.len() && !(i <= k < j) ==> #[trigger] b[k] == arith::whole::<T>(0),
        arith::below(
            arith::whole(0),
            arith::times(arith::fraction(65, 100), peak(b, i, j)),
        ),
    ensures
        is_isolated(b, lim, i, j),
{
    let n = i + look(lim) + 1;
    let l0 = if i < MARGIN + lim.iso { 0 } else { i - MARGIN - lim.iso };
    let l1 = if i < MARGIN { 0 } else { i - MARGIN };
    lemma_silence_has_no_peak(b, l0, l1);
    lemma_silence_has_no_peak(b, earlier(j + MARGIN, n), earlier(j + MARGIN + lim.iso, n));
}

/// Silence has no peak.
proof fn lemma_silence_has_no_peak<T: Real>(b: Seq<T>, lo: int, hi: int)
    requires
        arith::absolute(arith::whole::<T>(0)) == arith::whole::<T>(0),
        arith::larger(arith::whole::<T>(0), arith::whole(0)) == arith::whole::<T>(0),
        forall|k: int| lo <= k < hi ==> #[trigger] b[k] == arith::whole::<T>(0),
    ensures
        peak(b, lo, hi) == arith::whole::<T>(0),
    decreases hi - lo,
{
    if lo < hi {
        lemma_silence_has_no_peak(b, lo, hi - 1);
        assert(b[hi - 1] == arith::whole::<T>(0));
    }
}

/// A repair brings the peak of a run down to the local level: in the run the gain is the level
/// over the peak, so that a sample as large as the peak becomes one as large as the level; at the
/// ends of the repair the samples stay.
pub proof fn law_needle_comes_down_to_the_level<T: Real>(b: Seq<T>, lim: Limits, i: int, k: int)
    requires
        arith::neutral::<T>(),
        0 <= i < b.len() - look(lim),
        is_repaired(b, lim, i),
        forall|d: T|
            #[trigger] arith::minus(arith::whole(1), arith::minus(arith::whole(1), d)) == d,
        arith::count::<T>(0) == arith::whole::<T>(0),
        forall|n: usize|
            #[trigger] arith::over(arith::whole::<T>(0), arith::count(n)) == arith::whole::<T>(0),
        0 <= k < b.len(),
    ensures
        ({
            let j = run_of(b, lim, i);
            let depth = arith::over(local_level(b, lim.ctx as int, i), peak(b, i, j));
            let out = repaired_at(b, lim, i);
            &&& out.len() == b.len()
            &&& i <= k < j ==> out[k] == arith::times(b[k], depth)
            &&& i <= k < j && b[k] == peak(b, i, j) && arith::times(peak(b, i, j), depth)
                == local_level(b, lim.ctx as int, i) ==> out[k] == local_level(
                b,
                lim.ctx as int,
                i,
            )
            &&& 16 <= i && k == i - 16 ==> out[k] == b[k]
            &&& k == repair_stop(lim, i, j) ==> out[k] == b[k]
        }),
{
    law_repair_is_local(b, lim, i);
    let j = run_of(b, lim, i);
    let stop = repair_stop(lim, i, j);
    let depth = dip_depth(b, lim, i, j);
    if i <= k < j {
        assert(arith::minus(arith::whole(1), arith::minus(arith::whole(1), depth)) == depth);
    }
}

/// A needle that stands alone is repaired if and only if its run is no longer than the greatest
/// length, which may be reached; what does not stand out or does not stand alone never is.
pub proof fn law_short_lone_needles_are_repaired<T: Real>(b: Seq<T>, lim: Limits, i: int)
    ensures
        ({
            let j = run_of(b, lim, i);
            &&& is_candidate(b, lim.ctx as int, i) && is_isolated(b, lim, i, j) ==> (is_repaired(
                b,
                lim,
                i,
            ) <==> j <= i + lim.max_run)
            &&& !is_candidate(b, lim.ctx as int, i) ==> !is_repaired(b, lim, i)
            &&& !is_isolated(b, lim, i, j) ==> !is_repaired(b, lim, i)
        }),
{
}

} // verus!
