//! Chunk-wise autoregressive denoising: which frames see each other in training, where clean
//! chunks stand before as many noisy ones.

use vstd::prelude::*;
use crate::arith;
use crate::arith::Real;
use crate::meanvc::frc;

verus! {

/// Whether chunk `q` sees chunk `k` in a row of `n` clean chunks and `n` noisy ones: every chunk
/// sees itself, and the noisy chunk at place `c` sees the clean chunks at the `lookback` places
/// before `c`.
pub open spec fn card_sees(q: int, k: int, n: int, lookback: int) -> bool {
    q == k || (q >= n && k < n && q - n - lookback <= k < q - n)
}

/// What the mask adds to the attention of frame `q` to frame `k`.
pub open spec fn card_at<T: Real>(q: int, k: int, n: int, chunk: int, lookback: int) -> T {
    if card_sees(q / chunk, k / chunk, n, lookback) {
        arith::whole(0)
    } else {
        frc::masked()
    }
}

/// The mask over `n_chunks` clean chunks and as many noisy ones.
pub fn card_mask<T: Real>(n_chunks: usize, chunk_size: usize, max_lookback: usize) -> (m: Vec<
    Vec<T>,
>)
    requires
        2 * n_chunks * chunk_size <= usize::MAX,
    ensures
        m.len() == 2 * n_chunks * chunk_size,
        forall|q: int| 0 <= q < m.len() ==> (#[trigger] m@[q]).len() == m.len(),
        arith::deterministic::<T>() ==> forall|q: int, k: int|
            0 <= q < m.len() && 0 <= k < m.len() ==> #[trigger] m@[q]@[k] == card_at::<T>(
                q,
                k,
                n_chunks as int,
                chunk_size as int,
                max_lookback as int,
            ),
{
    if n_chunks == 0 || chunk_size == 0 {
        assert(2 * n_chunks * chunk_size == 0) by (nonlinear_arith)
            requires
                n_chunks == 0 || chunk_size == 0,
        ;
        return Vec::new();
    }
    assert(2 * n_chunks <= 2 * n_chunks * chunk_size) by (nonlinear_arith)
        requires
            chunk_size >= 1,
    ;
    let len: usize = 2 * n_chunks * chunk_size;
    let mut m: Vec<Vec<T>> = Vec::new();
    let mut q: usize = 0;
    while q < len
        invariant
            chunk_size > 0,
            q <= len,
            m.len() == q,
            forall|i: int| 0 <= i < q ==> (#[trigger] m@[i]).len() == len,
            arith::deterministic::<T>() ==> forall|i: int, k: int|
                0 <= i < q && 0 <= k < len ==> #[trigger] m@[i]@[k] == card_at::<T>(
                    i,
                    k,
                    n_chunks as int,
                    chunk_size as int,
                    max_lookback as int,
                ),
        decreases len - q,
    {
        let mut row: Vec<T> = Vec::new();
        let cj: usize = q / chunk_size;
        let mut k: usize = 0;
        while k < len
            invariant
                chunk_size > 0,
                cj == q / chunk_size,
                k <= len,
                row.len() == k,
                arith::deterministic::<T>() ==> forall|j: int|
                    0 <= j < k ==> #[trigger] row@[j] == card_at::<T>(
                        q as int,
                        j,
                        n_chunks as int,
                        chunk_size as int,
                        max_lookback as int,
                    ),
            decreases len - k,
        {
            let ci: usize = k / chunk_size;
            let visible: bool = ci == cj || (cj >= n_chunks && ci < n_chunks && ci < cj - n_chunks
                && cj - n_chunks - ci <= max_lookback);
            assert(visible == card_sees(
                q as int / chunk_size as int,
                k as int / chunk_size as int,
                n_chunks as int,
                max_lookback as int,
            ));
            if visible {
                row.push(T::whole(0));
            } else {
                row.push(T::whole(-1_000_000_000));
            }
            k = k + 1;
        }
        m.push(row);
        q = q + 1;
    }
    m
}

/// Denoising goes forward: a clean chunk sees only itself, no noisy chunk sees another noisy
/// one, and none sees the clean chunk at its own place or at a later one.
pub proof fn law_denoising_is_autoregressive(q: int, k: int, n: int, lookback: int)
    requires
        0 <= q < 2 * n,
        0 <= k < 2 * n,
        0 <= lookback,
        card_sees(q, k, n, lookback),
        q != k,
    ensures
        n <= q,
        k < n,
        k < q - n,
        q - n - k <= lookback,
{
}

} // verus!
