//! Overlap-add: frames under a window laid over each other at a hop, divided by the sum of the
//! squared windows.

use vstd::prelude::*;
use crate::arith;
use crate::arith::Real;
use crate::buffers::filled;

verus! {

/// The sum of the first `count` frames at place `p`, each under the window.
pub open spec fn layered<T: Real>(
    rows: Seq<Seq<T>>,
    window: Seq<T>,
    hop: int,
    p: int,
    count: int,
) -> T
    decreases count,
{
    if count <= 0 {
        arith::whole(0)
    } else {
        let before = layered(rows, window, hop, p, count - 1);
        let i = p - (count - 1) * hop;
        if 0 <= i < window.len() {
            arith::plus(before, arith::times(rows[count - 1][i], window[i]))
        } else {
            before
        }
    }
}

/// The sum of the squared windows of the first `count` frames at place `p`.
pub open spec fn coverage<T: Real>(window: Seq<T>, hop: int, p: int, count: int) -> T
    decreases count,
{
    if count <= 0 {
        arith::whole(0)
    } else {
        let before = coverage(window, hop, p, count - 1);
        let i = p - (count - 1) * hop;
        if 0 <= i < window.len() {
            arith::plus(before, arith::times(window[i], window[i]))
        } else {
            before
        }
    }
}

/// The sum `y` divided by the coverage `w`, unless that is next to nothing.
pub open spec fn settled<T: Real>(y: T, w: T) -> T {
    if arith::below(arith::fraction(1, 100_000_000_000), w) {
        arith::over(y, w)
    } else {
        y
    }
}

/// The signal that the frames `rows` make up: half a window is cut off at either end.
pub open spec fn overlapped<T: Real>(rows: Seq<Seq<T>>, window: Seq<T>, hop: int) -> Seq<T> {
    Seq::new(
        ((rows.len() - 1) * hop) as nat,
        |k: int|
            {
                let p = window.len() as int / 2 + k;
                settled(
                    layered(rows, window, hop, p, rows.len() as int),
                    coverage(window, hop, p, rows.len() as int),
                )
            },
    )
}

/// Lays frames over each other.
pub fn overlap_add<T: Real>(rows: &Vec<Vec<T>>, window: &Vec<T>, hop: usize) -> (out: Vec<T>)
    requires
        rows.len() > 0,
        forall|f: int| 0 <= f < rows.len() ==> (#[trigger] rows@[f]).len() == window.len(),
        (rows.len() - 1) * hop + window.len() <= usize::MAX,
    ensures
        out.len() == (rows.len() - 1) * hop,
        arith::deterministic::<T>() ==> out@ == overlapped(
            crate::spectra::grid(rows@),
            window@,
            hop as int,
        ),
{
    let frames: usize = rows.len();
    let n: usize = window.len();
    proof {
        assert((frames - 1) * hop >= 0) by (nonlinear_arith)
            requires
                frames >= 1,
        ;
    }
    let body: usize = (frames - 1) * hop;
    let full: usize = body + n;
    let ghost grid = crate::spectra::grid(rows@);
    let mut y: Vec<T> = filled(T::whole(0), full);
    let mut norm: Vec<T> = filled(T::whole(0), full);
    let mut f: usize = 0;
    let mut start: usize = 0;
    while f < frames
        invariant
            frames == rows.len(),
            n == window.len(),
            body == (frames - 1) * hop,
            full == body + n,
            grid == crate::spectra::grid(rows@),
            forall|k: int| 0 <= k < rows.len() ==> (#[trigger] rows@[k]).len() == n,
            f <= frames,
            f < frames ==> start == f * hop,
            y.len() == full,
            norm.len() == full,
            arith::deterministic::<T>() ==> forall|p: int|
                0 <= p < full ==> #[trigger] y@[p] == layered(
                    grid,
                    window@,
                    hop as int,
                    p,
                    f as int,
                ),
            arith::deterministic::<T>() ==> forall|p: int|
                0 <= p < full ==> #[trigger] norm@[p] == coverage(
                    window@,
                    hop as int,
                    p,
                    f as int,
                ),
        decreases frames - f,
    {
        proof {
            assert(f * hop <= (frames - 1) * hop) by (nonlinear_arith)
                requires
                    f <= frames - 1,
            ;
        }
        let row: &Vec<T> = &rows[f];
        let mut i: usize = 0;
        while i < n
            invariant
                i <= n == window.len(),
                f < frames == rows.len(),
                start == f * hop,
                start + n <= full,
                y.len() == full,
                norm.len() == full,
                row@ == grid[f as int],
                row.len() == n,
                arith::deterministic::<T>() ==> forall|p: int|
                    0 <= p < full ==> #[trigger] y@[p] == layered(
                        grid,
                        window@,
                        hop as int,
                        p,
                        if start <= p < start + i {
                            f + 1
                        } else {
                            f as int
                        },
                    ),
                arith::deterministic::<T>() ==> forall|p: int|
                    0 <= p < full ==> #[trigger] norm@[p] == coverage(
                        window@,
                        hop as int,
                        p,
                        if start <= p < start + i {
                            f + 1
                        } else {
                            f as int
                        },
                    ),
            decreases n - i,
        {
            let a: T = y[start + i].plus(row[i].times(window[i]));
            let b: T = norm[start + i].plus(window[i].times(window[i]));
            y.set(start + i, a);
            norm.set(start + i, b);
            i = i + 1;
        }
        f = f + 1;
        if f < frames {
            proof {
                assert((f - 1) * hop + hop == f * hop) by (nonlinear_arith);
                assert(f * hop <= (frames - 1) * hop) by (nonlinear_arith)
                    requires
                        f <= frames - 1,
                ;
            }
            start = start + hop;
        }
    }
    let mut out: Vec<T> = Vec::new();
    let mut k: usize = 0;
    while k < body
        invariant
            k <= body,
            n == window.len(),
            full == body + n,
            y.len() == full,
            norm.len() == full,
            frames == grid.len(),
            body == (frames - 1) * hop,
            arith::deterministic::<T>() ==> forall|p: int|
                0 <= p < full ==> #[trigger] y@[p] == layered(
                    grid,
                    window@,
                    hop as int,
                    p,
                    frames as int,
                ),
            arith::deterministic::<T>() ==> forall|p: int|
                0 <= p < full ==> #[trigger] norm@[p] == coverage(
                    window@,
                    hop as int,
                    p,
                    frames as int,
                ),
            out.len() == k,
            arith::deterministic::<T>() ==> forall|j: int|
                0 <= j < k ==> #[trigger] out@[j] == overlapped(grid, window@, hop as int)[j],
        decreases body - k,
    {
        let p: usize = n / 2 + k;
        let w: T = norm[p];
        let v: T = if T::fraction(1, 100_000_000_000).below(w) { y[p].over(w) } else { y[p] };
        out.push(v);
        k = k + 1;
    }
    proof {
        if arith::deterministic::<T>() {
            assert(out@ =~= overlapped(grid, window@, hop as int));
        }
    }
    out
}

/// A signal that was cut into frames under a window comes back as it was: where the frame `f`
/// holds the samples from `f` hops on, each times the window, what they make up is the signal from
/// half a window on, wherever the windows cover it. The products have to add up, and a product be
/// undone by its factor, as in exact arithmetic.
pub proof fn law_overlap_gives_back_what_was_framed<T: Real>(
    s: Seq<T>,
    rows: Seq<Seq<T>>,
    window: Seq<T>,
    hop: int,
    k: int,
)
    requires
        0 < rows.len(),
        0 <= hop,
        0 <= k < (rows.len() - 1) * hop,
        (rows.len() - 1) * hop + window.len() <= s.len(),
        forall|f: int, i: int|
            0 <= f < rows.len() && 0 <= i < window.len() ==> #[trigger] rows[f][i] == arith::times(
                s[f * hop + i],
                window[i],
            ),
        forall|x: T| #[trigger] arith::times(x, arith::whole::<T>(0)) == arith::whole::<T>(0),
        forall|x: T, c: T, w: T|
            arith::plus(arith::times(x, c), #[trigger] arith::times(arith::times(x, w), w))
                == #[trigger] arith::times(x, arith::plus(c, arith::times(w, w))),
        arith::below(
            arith::fraction(1, 100_000_000_000),
            coverage(window, hop, window.len() as int / 2 + k, rows.len() as int),
        ),
        forall|x: T, c: T|
            arith::below(arith::fraction(1, 100_000_000_000), c) ==> #[trigger] arith::over(
                arith::times(x, c),
                c,
            ) == x,
    ensures
        overlapped(rows, window, hop).len() == (rows.len() - 1) * hop,
        overlapped(rows, window, hop)[k] == s[window.len() as int / 2 + k],
{
    let p = window.len() as int / 2 + k;
    lemma_layers_weigh_the_sample(s, rows, window, hop, p, rows.len() as int);
}

/// The layers of a framed signal are its sample, as often as the squared windows cover it.
proof fn lemma_layers_weigh_the_sample<T: Real>(
    s: Seq<T>,
    rows: Seq<Seq<T>>,
    window: Seq<T>,
    hop: int,
    p: int,
    count: int,
)
    requires
        0 <= count <= rows.len(),
        forall|f: int, i: int|
            0 <= f < rows.len() && 0 <= i < window.len() ==> #[trigger] rows[f][i] == arith::times(
                s[f * hop + i],
                window[i],
            ),
        forall|x: T| #[trigger] arith::times(x, arith::whole::<T>(0)) == arith::whole::<T>(0),
        forall|x: T, c: T, w: T|
            arith::plus(arith::times(x, c), #[trigger] arith::times(arith::times(x, w), w))
                == #[trigger] arith::times(x, arith::plus(c, arith::times(w, w))),
    ensures
        layered(rows, window, hop, p, count) == arith::times(
            s[p],
            coverage(window, hop, p, count),
        ),
    decreases count,
{
    if count > 0 {
        lemma_layers_weigh_the_sample(s, rows, window, hop, p, count - 1);
        let i = p - (count - 1) * hop;
        if 0 <= i < window.len() {
            assert(rows[count - 1][i] == arith::times(s[(count - 1) * hop + i], window[i]));
            let c = coverage(window, hop, p, count - 1);
            assert(arith::plus(
                arith::times(s[p], c),
                arith::times(arith::times(s[p], window[i]), window[i]),
            ) == arith::times(s[p], arith::plus(c, arith::times(window[i], window[i]))));
        }
    }
}

/// A frame lies over the samples from its own hops on: a window of one sample `i` alone covers
/// the places `i` after each frame's start, with its square, and no others, and lays there that
/// sample of that frame.
pub proof fn law_frame_lands_at_its_place<T: Real>(
    rows: Seq<Seq<T>>,
    window: Seq<T>,
    hop: int,
    i: int,
    p: int,
    count: int,
)
    requires
        arith::neutral::<T>(),
        0 < hop,
        0 <= i < window.len(),
        0 <= count <= rows.len(),
        forall|j: int|
            0 <= j < window.len() && j != i ==> #[trigger] window[j] == arith::whole::<T>(0),
    ensures
        forall|f: int|
            0 <= f < count && p == #[trigger] (f * hop) + i ==> coverage(window, hop, p, count)
                == arith::times(window[i], window[i]) && layered(rows, window, hop, p, count)
                == arith::times(rows[f][i], window[i]),
        (forall|f: int| 0 <= f < count ==> p != #[trigger] (f * hop) + i) ==> coverage(
            window,
            hop,
            p,
            count,
        ) == arith::whole::<T>(0) && layered(rows, window, hop, p, count) == arith::whole::<T>(0),
    decreases count,
{
    if count > 0 {
        law_frame_lands_at_its_place(rows, window, hop, i, p, count - 1);
        let at = p - (count - 1) * hop;
        if at == i {
            assert forall|f: int| 0 <= f < count - 1 implies p != #[trigger] (f * hop) + i by {
                assert(f * hop < (count - 1) * hop) by (nonlinear_arith)
                    requires
                        f < count - 1,
                        0 < hop,
                ;
            }
            assert forall|f: int| 0 <= f < count && p == #[trigger] (f * hop) + i implies f == count
                - 1 by {
                if f < count - 1 {
                    assert(f * hop < (count - 1) * hop) by (nonlinear_arith)
                        requires
                            f < count - 1,
                            0 < hop,
                    ;
                }
            }
        } else {
            assert(p != ((count - 1) * hop) + i);
            if 0 <= at < window.len() {
                assert(window[at] == arith::whole::<T>(0));
            }
        }
    }
}

} // verus!
