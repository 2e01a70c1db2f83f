//! Future-receptive chunking: which frames a layer of the decoder lets see each other.
//!
//! Frames are grouped into chunks. In a layer, chunk `i` sees the chunks from `i - past` to
//! `i + future`. Stacked layers see as far as the sums of their reaches.

use vstd::prelude::*;
use crate::arith;
use crate::arith::Real;

verus! {

/// Whether chunk `q` sees chunk `k` in a layer that reaches `past` chunks back and `future`
/// chunks ahead.
pub open spec fn sees(q: int, k: int, past: int, future: int) -> bool {
    q - past <= k <= q + future
}

/// What the mask adds to the attention of a pair that does not see each other.
pub open spec fn masked<T: Real>() -> T {
    arith::whole((-1_000_000_000) as i64)
}

/// What the mask adds to the attention of frame `q` to frame `k`.
pub open spec fn mask_at<T: Real>(q: int, k: int, chunk: int, past: int, future: int) -> T {
    if sees(q / chunk, k / chunk, past, future) {
        arith::whole(0)
    } else {
        masked()
    }
}

/// Whether `m` is the mask of a layer over `len` frames.
pub open spec fn is_mask<T: Real>(
    m: Seq<Vec<T>>,
    len: int,
    chunk: int,
    past: int,
    future: int,
) -> bool {
    &&& m.len() == len
    &&& forall|q: int| 0 <= q < len ==> (#[trigger] m[q]).len() == len
    &&& arith::deterministic::<T>() ==> forall|q: int, k: int|
        0 <= q < len && 0 <= k < len ==> #[trigger] m[q]@[k] == mask_at::<T>(
            q,
            k,
            chunk,
            past,
            future,
        )
}

/// The mask of a layer over `seq_len` frames in chunks of `chunk_frames`: zero where a frame
/// sees another, a large negative number where it does not.
pub fn layer_mask<T: Real>(
    seq_len: usize,
    chunk_frames: usize,
    past_chunks: usize,
    future_chunks: usize,
) -> (m: Vec<Vec<T>>)
    requires
        seq_len > 0 ==> chunk_frames > 0,
    ensures
        is_mask(
            m@,
            seq_len as int,
            chunk_frames as int,
            past_chunks as int,
            future_chunks as int,
        ),
{
    let mut m: Vec<Vec<T>> = Vec::new();
    let mut q: usize = 0;
    while q < seq_len
        invariant
            seq_len > 0 ==> chunk_frames > 0,
            q <= seq_len,
            m.len() == q,
            forall|i: int| 0 <= i < q ==> (#[trigger] m@[i]).len() == seq_len,
            arith::deterministic::<T>() ==> forall|i: int, k: int|
                0 <= i < q && 0 <= k < seq_len ==> #[trigger] m@[i]@[k] == mask_at::<T>(
                    i,
                    k,
                    chunk_frames as int,
                    past_chunks as int,
                    future_chunks as int,
                ),
        decreases seq_len - q,
    {
        let mut row: Vec<T> = Vec::new();
        let qc: usize = q / chunk_frames;
        let mut k: usize = 0;
        while k < seq_len
            invariant
                chunk_frames > 0,
                qc == q / chunk_frames,
                k <= seq_len,
                row.len() == k,
                arith::deterministic::<T>() ==> forall|j: int|
                    0 <= j < k ==> #[trigger] row@[j] == mask_at::<T>(
                        q as int,
                        j,
                        chunk_frames as int,
                        past_chunks as int,
                        future_chunks as int,
                    ),
            decreases seq_len - k,
        {
            let kc: usize = k / chunk_frames;
            let allowed: bool = if kc <= qc {
                qc - kc <= past_chunks
            } else {
                kc - qc <= future_chunks
            };
            assert(allowed == sees(
                q as int / chunk_frames as int,
                k as int / chunk_frames as int,
                past_chunks as int,
                future_chunks as int,
            ));
            if allowed {
                row.push(T::whole(0));
            } else {
                row.push(T::whole(-1_000_000_000));
            }
            k = k + 1;
        }
        m.push(row);
        q = q + 1;
    }
    m
}

/// The masks of the layers of a decoder.
pub fn decoder_masks<T: Real>(
    seq_len: usize,
    chunk_frames: usize,
    past: &[usize],
    future: &[usize],
) -> (v: Vec<Vec<Vec<T>>>)
    requires
        past.len() == future.len(),
        seq_len > 0 ==> chunk_frames > 0,
    ensures
        v.len() == past.len(),
        forall|l: int|
            0 <= l < v.len() ==> is_mask(
                (#[trigger] v@[l])@,
                seq_len as int,
                chunk_frames as int,
                past@[l] as int,
                future@[l] as int,
            ),
{
    let mut v: Vec<Vec<Vec<T>>> = Vec::new();
    let mut l: usize = 0;
    while l < past.len()
        invariant
            past.len() == future.len(),
            seq_len > 0 ==> chunk_frames > 0,
            l <= past.len(),
            v.len() == l,
            forall|k: int|
                0 <= k < l ==> is_mask(
                    (#[trigger] v@[k])@,
                    seq_len as int,
                    chunk_frames as int,
                    past@[k] as int,
                    future@[k] as int,
                ),
        decreases past.len() - l,
    {
        v.push(layer_mask(seq_len, chunk_frames, past[l], future[l]));
        l = l + 1;
    }
    v
}

/// The sum of a list of reaches.
pub open spec fn reach(s: Seq<usize>) -> int
    decreases s.len(),
{
    if s.len() == 0 {
        0
    } else {
        reach(s.drop_last()) + s.last()
    }
}

/// No part of a list reaches further than the list.
pub proof fn lemma_reach_grows(s: Seq<usize>, k: int)
    requires
        0 <= k <= s.len(),
    ensures
        0 <= reach(s.take(k)) <= reach(s),
    decreases s.len(),
{
    if k == s.len() {
        assert(s.take(k) =~= s);
        if k > 0 {
            lemma_reach_grows(s.drop_last(), k - 1);
        }
    } else {
        assert(s.take(k) =~= s.drop_last().take(k));
        lemma_reach_grows(s.drop_last(), k);
    }
}

/// The sum of a list of reaches.
fn total(s: &[usize]) -> (t: usize)
    requires
        reach(s@) <= usize::MAX,
    ensures
        t == reach(s@),
{
    let mut t: usize = 0;
    let mut k: usize = 0;
    while k < s.len()
        invariant
            reach(s@) <= usize::MAX,
            k <= s.len(),
            t == reach(s@.take(k as int)),
        decreases s.len() - k,
    {
        proof {
            lemma_reach_grows(s@, k + 1);
            assert(s@.take(k + 1).drop_last() =~= s@.take(k as int));
        }
        t = t + s[k];
        k = k + 1;
    }
    assert(s@.take(k as int) =~= s@);
    t
}

/// How many chunks back and ahead the stacked layers reach.
pub fn total_receptive_field(past: &[usize], future: &[usize]) -> (r: (usize, usize))
    requires
        reach(past@) <= usize::MAX,
        reach(future@) <= usize::MAX,
    ensures
        r.0 == reach(past@),
        r.1 == reach(future@),
{
    (total(past), total(future))
}

/// Whether what chunk `i` holds after the given layers depends on what chunk `j` held before
/// them, in a sequence of `n` chunks: whether a path leads from `i` to `j` on which each layer
/// lets one chunk see the next.
pub open spec fn depends(past: Seq<usize>, future: Seq<usize>, n: int, i: int, j: int) -> bool
    decreases past.len(),
{
    if past.len() == 0 {
        i == j
    } else {
        exists|m: int|
            0 <= m < n && #[trigger] sees(i, m, past.last() as int, future.last() as int)
                && depends(past.drop_last(), future.drop_last(), n, m, j)
    }
}

/// Each output chunk of the stacked layers depends on exactly the chunks within the total
/// receptive field.
pub proof fn law_layers_compose(past: Seq<usize>, future: Seq<usize>, n: int, i: int, j: int)
    requires
        past.len() == future.len(),
        0 <= i < n,
        0 <= j < n,
    ensures
        depends(past, future, n, i, j) <==> sees(i, j, reach(past), reach(future)),
    decreases past.len(),
{
    if past.len() > 0 {
        let p = past.last() as int;
        let f = future.last() as int;
        let pr = past.drop_last();
        let fr = future.drop_last();
        lemma_reach_grows(pr, pr.len() as int);
        lemma_reach_grows(fr, fr.len() as int);
        assert(pr.take(pr.len() as int) =~= pr);
        assert(fr.take(fr.len() as int) =~= fr);
        if depends(past, future, n, i, j) {
            let m = choose|m: int|
                0 <= m < n && #[trigger] sees(i, m, p, f) && depends(pr, fr, n, m, j);
            law_layers_compose(pr, fr, n, m, j);
        }
        if sees(i, j, reach(past), reach(future)) {
            let m = if j < i {
                if i - p > j {
                    i - p
                } else {
                    j
                }
            } else {
                if i + f < j {
                    i + f
                } else {
                    j
                }
            };
            law_layers_compose(pr, fr, n, m, j);
            assert(sees(i, m, p, f) && depends(pr, fr, n, m, j));
        }
    }
}

/// A mask depends on distances only: cut out of a longer sequence at a chunk, it is the mask of
/// the shorter one.
pub proof fn law_masks_shift_with_the_chunks<T: Real>(
    q: int,
    k: int,
    chunk: int,
    past: int,
    future: int,
    by: int,
)
    requires
        chunk > 0,
    ensures
        mask_at::<T>(q + by * chunk, k + by * chunk, chunk, past, future) == mask_at::<T>(
            q,
            k,
            chunk,
            past,
            future,
        ),
{
    vstd::arithmetic::div_mod::lemma_hoist_over_denominator(q, by, chunk as nat);
    vstd::arithmetic::div_mod::lemma_hoist_over_denominator(k, by, chunk as nat);
}

/// A frame always sees the frames of its own chunk, so no row of a mask blocks everything.
pub proof fn law_own_chunk_is_visible<T: Real>(
    q: int,
    k: int,
    chunk: int,
    past: int,
    future: int,
)
    requires
        chunk > 0,
        q / chunk == k / chunk,
        0 <= past,
        0 <= future,
    ensures
        mask_at::<T>(q, k, chunk, past, future) == arith::whole::<T>(0),
{
}

/// The masks of a decoder are those of its layers, each on its own: any list of masks such as
/// [`decoder_masks`] returns holds at each layer what [`layer_mask`] returns for its reaches.
pub proof fn law_layers_are_masked_on_their_own<T: Real>(
    masks: Seq<Vec<Vec<T>>>,
    one: Seq<Vec<T>>,
    len: int,
    chunk: int,
    past: Seq<usize>,
    future: Seq<usize>,
    l: int,
)
    requires
        arith::deterministic::<T>(),
        masks.len() == past.len() == future.len(),
        forall|k: int|
            0 <= k < masks.len() ==> is_mask(
                (#[trigger] masks[k])@,
                len,
                chunk,
                past[k] as int,
                future[k] as int,
            ),
        0 <= l < masks.len(),
        is_mask(one, len, chunk, past[l] as int, future[l] as int),
    ensures
        crate::spectra::grid(masks[l]@) == crate::spectra::grid(one),
{
    let a = crate::spectra::grid(masks[l]@);
    let b = crate::spectra::grid(one);
    assert forall|q: int| 0 <= q < a.len() implies #[trigger] a[q] == b[q] by {
        assert forall|k: int| 0 <= k < a[q].len() implies #[trigger] a[q][k] == b[q][k] by {
            assert(masks[l]@[q]@[k] == one[q]@[k]);
        }
        assert(a[q] =~= b[q]);
    }
    assert(a =~= b);
}

/// A layer sees as many chunks back as its first reach says and as many ahead as its second, and
/// no further; the chunk itself always.
pub proof fn law_reaches_are_back_and_ahead(q: int, d: int, past: int, future: int)
    requires
        0 <= d,
        0 <= past,
        0 <= future,
    ensures
        sees(q, q - d, past, future) <==> d <= past,
        sees(q, q + d, past, future) <==> d <= future,
{
}

/// A frame is blocked from the frames of chunks beyond the reach, by minus a thousand million, and
/// from no others.
pub proof fn law_mask_blocks_beyond_the_reach<T: Real>(
    q: int,
    k: int,
    chunk: int,
    past: int,
    future: int,
)
    requires
        0 <= q,
        0 <= k,
        0 < chunk,
        0 <= past,
        0 <= future,
    ensures
        k / chunk < q / chunk - past || q / chunk + future < k / chunk ==> mask_at::<T>(
            q,
            k,
            chunk,
            past,
            future,
        ) == arith::whole::<T>((-1_000_000_000) as i64),
        q / chunk - past <= k / chunk <= q / chunk + future ==> mask_at::<T>(
            q,
            k,
            chunk,
            past,
            future,
        ) == arith::whole::<T>(0),
{
}

/// The reach of stacked layers is the sum of theirs: one layer more reaches as much further.
pub proof fn law_reaches_add_up(s: Seq<usize>, x: usize)
    ensures
        reach(Seq::<usize>::empty()) == 0,
        reach(s.push(x)) == reach(s) + x,
{
    assert(s.push(x).drop_last() =~= s);
}

} // verus!
