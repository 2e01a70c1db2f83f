//! Short-time spectra: padding, framing, powers, band sums.

use vstd::prelude::*;
use crate::arith;
use crate::arith::Real;
use crate::fir;
use crate::fourier;
use crate::fourier::Complex;
use crate::fourier::Transform;

verus! {

/// The rows of a table.
pub open spec fn grid<T>(v: Seq<Vec<T>>) -> Seq<Seq<T>> {
    Seq::new(v.len(), |i: int| v[i]@)
}

/// The signal with `pad` samples before and after it that mirror it at its first and last
/// sample; beyond its other end the mirror stays there.
pub open spec fn reflected<T>(s: Seq<T>, pad: int) -> Seq<T> {
    let n = s.len() as int;
    Seq::new(
        (n + 2 * pad) as nat,
        |j: int|
            if j < pad {
                s[if pad - j < n { pad - j } else { n - 1 }]
            } else if j < pad + n {
                s[j - pad]
            } else {
                let back = j - pad - n + 2;
                s[if back <= n { n - back } else { 0 }]
            },
    )
}

/// Pads a signal with `pad` mirrored samples on both sides.
pub fn reflect_pad<T: Copy>(s: &[T], pad: usize) -> (p: Vec<T>)
    requires
        s.len() > 0,
        s.len() + 2 * pad <= usize::MAX,
    ensures
        p@ == reflected(s@, pad as int),
{
    let n: usize = s.len();
    let total: usize = n + 2 * pad;
    let mut p: Vec<T> = Vec::new();
    let mut j: usize = 0;
    while j < total
        invariant
            n == s.len(),
            n > 0,
            total == n + 2 * pad,
            j <= total,
            p.len() == j,
            forall|k: int| 0 <= k < j ==> #[trigger] p@[k] == reflected(s@, pad as int)[k],
        decreases total - j,
    {
        let at: usize = if j < pad {
            if pad - j < n {
                pad - j
            } else {
                n - 1
            }
        } else if j < pad + n {
            j - pad
        } else {
            let beyond: usize = j - pad - n;
            if beyond + 2 <= n {
                n - (beyond + 2)
            } else {
                0
            }
        };
        p.push(s[at]);
        j = j + 1;
    }
    assert(p@ =~= reflected(s@, pad as int));
    p
}

/// Padding mirrors the signal at its first and at its last sample, and keeps it in between.
pub proof fn law_padding_mirrors<T>(s: Seq<T>, pad: int, k: int)
    requires
        0 <= k <= pad < s.len(),
    ensures
        ({
            let p = reflected(s, pad);
            let last = pad + s.len() - 1;
            &&& p.len() == s.len() + 2 * pad
            &&& p.subrange(pad, last + 1) == s
            &&& p[pad - k] == p[pad + k]
            &&& p[last + k] == p[last - k]
        }),
{
    let p = reflected(s, pad);
    assert(p.subrange(pad, pad + s.len()) =~= s);
}

/// The sample at place `j`, and zero beyond the end.
pub open spec fn sample_or_zero<T: Real>(p: Seq<T>, j: int) -> T {
    if j < p.len() {
        p[j]
    } else {
        arith::whole(0)
    }
}

/// The frame of `n_fft` samples of `p` from `start` on under a window that stands `offset`
/// samples from its start: zero outside the window.
pub open spec fn framed<T: Real>(
    p: Seq<T>,
    start: int,
    offset: int,
    window: Seq<T>,
    n_fft: int,
) -> Seq<Complex<T>> {
    Seq::new(
        n_fft as nat,
        |i: int|
            Complex {
                re: if offset <= i < offset + window.len() {
                    arith::times(sample_or_zero(p, start + i), window[i - offset])
                } else {
                    arith::whole::<T>(0)
                },
                im: arith::whole::<T>(0),
            },
    )
}

/// The spectrum of a frame.
pub open spec fn frame_bins<T: Real, F: Transform<T>>(
    p: Seq<T>,
    start: int,
    offset: int,
    window: Seq<T>,
    n_fft: int,
    fft: F,
) -> Seq<Complex<T>> {
    fourier::spectrum::<T, F>(fft, framed(p, start, offset, window, n_fft))
}

/// Transforms the frame of `p` that starts at `start`.
pub fn analyse<T: Real, F: Transform<T>>(
    p: &Vec<T>,
    start: usize,
    offset: usize,
    window: &Vec<T>,
    n_fft: usize,
    fft: &F,
) -> (bins: Vec<Complex<T>>)
    requires
        offset + window.len() <= n_fft,
        start + n_fft <= usize::MAX,
        fourier::keeps_length::<T, F>(*fft),
    ensures
        bins.len() == n_fft,
        arith::deterministic::<T>() && fourier::functional::<T, F>(*fft) ==> bins@
            == frame_bins::<T, F>(
            p@,
            start as int,
            offset as int,
            window@,
            n_fft as int,
            *fft,
        ),
{
    let mut buf: Vec<Complex<T>> = Vec::new();
    let mut i: usize = 0;
    while i < n_fft
        invariant
            i <= n_fft,
            offset + window.len() <= n_fft,
            start + n_fft <= usize::MAX,
            buf.len() == i,
            arith::deterministic::<T>() ==> forall|k: int|
                0 <= k < i ==> #[trigger] buf@[k] == framed(
                    p@,
                    start as int,
                    offset as int,
                    window@,
                    n_fft as int,
                )[k],
        decreases n_fft - i,
    {
        let re: T = if offset <= i && i < offset + window.len() {
            let s: T = if start + i < p.len() { p[start + i] } else { T::whole(0) };
            s.times(window[i - offset])
        } else {
            T::whole(0)
        };
        buf.push(Complex { re, im: T::whole(0) });
        i = i + 1;
    }
    proof {
        if arith::deterministic::<T>() {
            assert(buf@ =~= framed(
                p@,
                start as int,
                offset as int,
                window@,
                n_fft as int,
            ));
        }
    }
    fourier::transformed(fft, &buf)
}

/// The powers of the first `n` bins.
pub open spec fn powers<T: Real>(bins: Seq<Complex<T>>, n: int) -> Seq<T> {
    Seq::new(n as nat, |k: int| fourier::squared(bins[k]))
}

/// The powers of the first `n` bins.
pub fn power_of<T: Real>(bins: &Vec<Complex<T>>, n: usize) -> (p: Vec<T>)
    requires
        n <= bins.len(),
    ensures
        p.len() == n,
        arith::deterministic::<T>() ==> p@ == powers(bins@, n as int),
{
    let mut p: Vec<T> = Vec::new();
    let mut k: usize = 0;
    while k < n
        invariant
            k <= n <= bins.len(),
            p.len() == k,
            arith::deterministic::<T>() ==> forall|j: int|
                0 <= j < k ==> #[trigger] p@[j] == fourier::squared(bins@[j]),
        decreases n - k,
    {
        p.push(fourier::norm_sqr(bins[k]));
        k = k + 1;
    }
    proof {
        if arith::deterministic::<T>() {
            assert(p@ =~= powers(bins@, n as int));
        }
    }
    p
}

/// The roots of the powers `p`, each with `floor` added before.
pub open spec fn magnitudes<T: Real>(p: Seq<T>, floor: T) -> Seq<T> {
    Seq::new(p.len(), |k: int| arith::root(arith::plus(p[k], floor)))
}

/// The roots of the powers `p`, each with `floor` added before.
pub fn magnitude_of<T: Real>(p: &Vec<T>, floor: T) -> (m: Vec<T>)
    ensures
        m.len() == p.len(),
        arith::deterministic::<T>() ==> m@ == magnitudes(p@, floor),
{
    let mut m: Vec<T> = Vec::new();
    let mut k: usize = 0;
    while k < p.len()
        invariant
            k <= p.len(),
            m.len() == k,
            arith::deterministic::<T>() ==> forall|j: int|
                0 <= j < k ==> #[trigger] m@[j] == arith::root(arith::plus(p@[j], floor)),
        decreases p.len() - k,
    {
        m.push(p[k].plus(floor).root());
        k = k + 1;
    }
    proof {
        if arith::deterministic::<T>() {
            assert(m@ =~= magnitudes(p@, floor));
        }
    }
    m
}

/// The sums of the values `x` under the weights of each band.
pub open spec fn band_sums<T: Real>(banks: Seq<Seq<T>>, x: Seq<T>) -> Seq<T> {
    Seq::new(banks.len(), |m: int| fir::convolved(banks[m], x))
}

/// The sums of the values `x` under the weights of each band.
pub fn sum_bands<T: Real>(banks: &Vec<Vec<T>>, x: &Vec<T>) -> (r: Vec<T>)
    requires
        forall|m: int| 0 <= m < banks.len() ==> (#[trigger] banks@[m]).len() <= x.len(),
    ensures
        r.len() == banks.len(),
        arith::deterministic::<T>() ==> r@ == band_sums(grid(banks@), x@),
{
    let mut r: Vec<T> = Vec::new();
    let mut m: usize = 0;
    while m < banks.len()
        invariant
            m <= banks.len(),
            forall|k: int| 0 <= k < banks.len() ==> (#[trigger] banks@[k]).len() <= x.len(),
            r.len() == m,
            arith::deterministic::<T>() ==> forall|k: int|
                0 <= k < m ==> #[trigger] r@[k] == fir::convolved(grid(banks@)[k], x@),
        decreases banks.len() - m,
    {
        r.push(fir::dot(&banks[m], x));
        m = m + 1;
    }
    proof {
        if arith::deterministic::<T>() {
            assert(r@ =~= band_sums(grid(banks@), x@));
        }
    }
    r
}

/// The periodic Hann window of length `n` at place `i`, as the square of a sine.
pub open spec fn hann_periodic_at<T: Real>(i: int, n: int) -> T {
    let v = arith::sine(
        arith::over(
            arith::times(arith::pi::<T>(), arith::count(i as usize)),
            arith::count(n as usize),
        ),
    );
    arith::times(v, v)
}

/// The periodic Hann window of length `n`.
pub fn hann_periodic<T: Real>(n: usize) -> (w: Vec<T>)
    ensures
        w.len() == n,
        arith::deterministic::<T>() ==> w@ == Seq::new(
            n as nat,
            |i: int| hann_periodic_at::<T>(i, n as int),
        ),
{
    let mut w: Vec<T> = Vec::new();
    let mut i: usize = 0;
    while i < n
        invariant
            i <= n,
            w.len() == i,
            arith::deterministic::<T>() ==> forall|k: int|
                0 <= k < i ==> #[trigger] w@[k] == hann_periodic_at::<T>(k, n as int),
        decreases n - i,
    {
        let v: T = T::pi().times(T::count(i)).over(T::count(n)).sine();
        w.push(v.times(v));
        i = i + 1;
    }
    proof {
        if arith::deterministic::<T>() {
            assert(w@ =~= Seq::new(n as nat, |i: int| hann_periodic_at::<T>(i, n as int)));
        }
    }
    w
}

/// The largest of `start` and the values of a row.
pub open spec fn row_top<T: Real>(row: Seq<T>, start: T) -> T
    decreases row.len(),
{
    if row.len() == 0 {
        start
    } else {
        arith::larger(row_top(row.drop_last(), start), row.last())
    }
}

/// The largest value of a table, row after row.
pub open spec fn grid_top<T: Real>(rows: Seq<Seq<T>>) -> T
    decreases rows.len(),
{
    if rows.len() == 0 {
        arith::lowest()
    } else {
        row_top(rows.last(), grid_top(rows.drop_last()))
    }
}

/// The largest value of a table.
pub fn top_of<T: Real>(rows: &Vec<Vec<T>>) -> (top: T)
    ensures
        arith::deterministic::<T>() ==> top == grid_top(grid(rows@)),
{
    let mut top: T = T::lowest();
    let mut i: usize = 0;
    assert(grid(rows@).take(0) =~= Seq::empty());
    while i < rows.len()
        invariant
            i <= rows.len(),
            arith::deterministic::<T>() ==> top == grid_top(grid(rows@).take(i as int)),
        decreases rows.len() - i,
    {
        let row: &Vec<T> = &rows[i];
        let ghost start = top;
        let mut j: usize = 0;
        assert(row@.take(0) =~= Seq::empty());
        while j < row.len()
            invariant
                j <= row.len(),
                arith::deterministic::<T>() ==> top == row_top(row@.take(j as int), start),
            decreases row.len() - j,
        {
            top = top.larger(row[j]);
            assert(row@.take(j + 1).drop_last() =~= row@.take(j as int));
            j = j + 1;
        }
        proof {
            assert(row@.take(row.len() as int) =~= row@);
            let upto = grid(rows@).take(i + 1);
            assert(upto.drop_last() =~= grid(rows@).take(i as int));
            assert(upto.last() == row@);
        }
        i = i + 1;
    }
    assert(grid(rows@).take(rows.len() as int) =~= grid(rows@));
    top
}

/// A value of a log-mel table brought to the range that Whisper expects: held at eight below
/// the largest value `top`, moved and scaled.
pub open spec fn whisper_scaled<T: Real>(v: T, top: T) -> T {
    arith::over(
        arith::plus(
            arith::larger(v, arith::minus(top, arith::whole(8))),
            arith::whole(4),
        ),
        arith::whole(4),
    )
}

/// Brings a log-mel table to the range that Whisper expects.
pub fn whisper_scale<T: Real>(rows: &Vec<Vec<T>>) -> (out: Vec<Vec<T>>)
    ensures
        out.len() == rows.len(),
        forall|m: int|
            0 <= m < out.len() ==> (#[trigger] out@[m]).len() == rows@[m].len(),
        arith::deterministic::<T>() ==> forall|m: int, t: int|
            0 <= m < out.len() && 0 <= t < out@[m].len() ==> #[trigger] out@[m]@[t]
                == whisper_scaled(rows@[m]@[t], grid_top(grid(rows@))),
{
    let top: T = top_of(rows);
    let mut out: Vec<Vec<T>> = Vec::new();
    let mut m: usize = 0;
    while m < rows.len()
        invariant
            m <= rows.len(),
            out.len() == m,
            forall|k: int| 0 <= k < m ==> (#[trigger] out@[k]).len() == rows@[k].len(),
            arith::deterministic::<T>() ==> forall|k: int, t: int|
                0 <= k < m && 0 <= t < out@[k].len() ==> #[trigger] out@[k]@[t]
                    == whisper_scaled(rows@[k]@[t], top),
        decreases rows.len() - m,
    {
        let row: &Vec<T> = &rows[m];
        let mut line: Vec<T> = Vec::new();
        let mut t: usize = 0;
        while t < row.len()
            invariant
                t <= row.len(),
                line.len() == t,
                arith::deterministic::<T>() ==> forall|k: int|
                    0 <= k < t ==> #[trigger] line@[k] == whisper_scaled(row@[k], top),
            decreases row.len() - t,
        {
            line.push(row[t].larger(top.minus(T::whole(8))).plus(T::whole(4)).over(T::whole(4)));
            t = t + 1;
        }
        out.push(line);
        m = m + 1;
    }
    out
}

/// The columns of a table of rows of `cols` values, as rows.
pub fn transpose<T: Copy>(rows: &Vec<Vec<T>>, cols: usize) -> (out: Vec<Vec<T>>)
    requires
        forall|t: int| 0 <= t < rows.len() ==> (#[trigger] rows@[t]).len() == cols,
    ensures
        out.len() == cols,
        forall|m: int| 0 <= m < cols ==> (#[trigger] out@[m]).len() == rows.len(),
        forall|m: int, t: int|
            0 <= m < cols && 0 <= t < rows.len() ==> #[trigger] out@[m]@[t] == rows@[t]@[m],
{
    let mut out: Vec<Vec<T>> = Vec::new();
    let mut m: usize = 0;
    while m < cols
        invariant
            m <= cols,
            forall|t: int| 0 <= t < rows.len() ==> (#[trigger] rows@[t]).len() == cols,
            out.len() == m,
            forall|k: int| 0 <= k < m ==> (#[trigger] out@[k]).len() == rows.len(),
            forall|k: int, t: int|
                0 <= k < m && 0 <= t < rows.len() ==> #[trigger] out@[k]@[t] == rows@[t]@[k],
        decreases cols - m,
    {
        let mut line: Vec<T> = Vec::new();
        let mut t: usize = 0;
        while t < rows.len()
            invariant
                m < cols,
                t <= rows.len(),
                forall|k: int| 0 <= k < rows.len() ==> (#[trigger] rows@[k]).len() == cols,
                line.len() == t,
                forall|k: int| 0 <= k < t ==> #[trigger] line@[k] == rows@[k]@[m as int],
            decreases rows.len() - t,
        {
            line.push(rows[t][m]);
            t = t + 1;
        }
        out.push(line);
        m = m + 1;
    }
    out
}

/// The value to which everything eight or more below the largest value `top` is brought.
pub open spec fn scaled_floor<T: Real>(top: T) -> T {
    arith::over(arith::plus(arith::minus(top, arith::whole(8)), arith::whole(4)), arith::whole(4))
}

/// Whether the operations of the scaling keep the order, as those of an IEEE type do: the larger
/// of two is one of them that is a number, moving and dividing do not change which is larger, and
/// numbers between two that are at most two apart are at most two apart.
pub open spec fn scaling_keeps_order<T: Real>() -> bool {
    &&& arith::larger_is_upper::<T>()
    &&& arith::number(arith::lowest::<T>())
    &&& forall|a: T, b: T|
        arith::number(a) || arith::number(b) ==> {
            let m = #[trigger] arith::larger(a, b);
            (m == a || m == b) && arith::number(m)
        }
    &&& forall|a: T|
        arith::number(a) ==> arith::at_most(#[trigger] arith::minus(a, arith::whole(8)), a)
    &&& forall|a: T, b: T|
        #![trigger arith::plus(a, arith::whole(4)), arith::plus(b, arith::whole(4))]
        arith::at_most(a, b) ==> arith::at_most(
            arith::over(arith::plus(a, arith::whole(4)), arith::whole(4)),
            arith::over(arith::plus(b, arith::whole(4)), arith::whole(4)),
        )
    &&& forall|a: T, b: T, lo: T, hi: T|
        #![trigger arith::minus(a, b), arith::minus(hi, lo)]
        arith::at_most(lo, a) && arith::at_most(a, hi) && arith::at_most(lo, b) && arith::at_most(
            b,
            hi,
        ) && arith::at_most(arith::minus(hi, lo), arith::whole(2)) ==> arith::at_most(
            arith::minus(a, b),
            arith::whole(2),
        )
}

/// The largest value of a row is a number and no number of the row is larger.
proof fn lemma_row_top<T: Real>(row: Seq<T>, start: T)
    requires
        arith::ordered::<T>(),
        scaling_keeps_order::<T>(),
        arith::number(start),
    ensures
        arith::at_most(start, row_top(row, start)),
        forall|i: int|
            0 <= i < row.len() && arith::number(#[trigger] row[i]) ==> arith::at_most(
                row[i],
                row_top(row, start),
            ),
    decreases row.len(),
{
    if row.len() > 0 {
        let before = row.drop_last();
        let t = row_top(before, start);
        let u = row_top(row, start);
        lemma_row_top(before, start);
        assert(arith::number(t));
        assert(arith::at_most(t, u));
        arith::lemma_transitive(start, t, u);
        assert forall|i: int|
            0 <= i < row.len() && arith::number(#[trigger] row[i]) implies arith::at_most(
            row[i],
            u,
        ) by {
            if i < before.len() {
                assert(before[i] == row[i]);
                arith::lemma_transitive(row[i], t, u);
            }
        }
    }
}

/// The largest value of a table is a number and no number of the table is larger.
proof fn lemma_grid_top<T: Real>(rows: Seq<Seq<T>>)
    requires
        arith::ordered::<T>(),
        scaling_keeps_order::<T>(),
    ensures
        arith::number(grid_top(rows)),
        forall|m: int, t: int|
            0 <= m < rows.len() && 0 <= t < rows[m].len() && arith::number(#[trigger] rows[m][t])
                ==> arith::at_most(rows[m][t], grid_top(rows)),
    decreases rows.len(),
{
    if rows.len() > 0 {
        let before = rows.drop_last();
        lemma_grid_top(before);
        lemma_row_top(rows.last(), grid_top(before));
        assert forall|m: int, t: int|
            0 <= m < rows.len() && 0 <= t < rows[m].len() && arith::number(
                #[trigger] rows[m][t],
            ) implies arith::at_most(rows[m][t], grid_top(rows)) by {
            if m < before.len() {
                assert(before[m] == rows[m]);
                assert(arith::at_most(before[m][t], grid_top(before)));
                arith::lemma_transitive(rows[m][t], grid_top(before), grid_top(rows));
            } else {
                assert(rows.last()[t] == rows[m][t]);
            }
        }
    }
}

/// A scaled value lies between the floor and the scaled largest value.
proof fn lemma_scaled_between<T: Real>(v: T, top: T)
    requires
        arith::ordered::<T>(),
        scaling_keeps_order::<T>(),
        arith::number(top),
        arith::number(v) ==> arith::at_most(v, top),
    ensures
        arith::at_most(scaled_floor(top), whisper_scaled(v, top)),
        arith::at_most(whisper_scaled(v, top), whisper_scaled(top, top)),
{
    let f = arith::minus(top, arith::whole(8));
    assert(arith::at_most(f, top));
    let a = arith::larger(v, f);
    let b = arith::larger(top, f);
    assert(arith::at_most(f, a));
    assert(arith::at_most(top, b) && arith::at_most(f, b));
    if a != f {
        arith::lemma_transitive(v, top, b);
    }
    assert(arith::at_most(a, b));
}

/// Any two values of a scaled log-mel are at most two apart, so that all lie within two of the
/// largest. The operations have to keep the order, as those of IEEE types do, and the ends of the
/// range must not be further apart from rounding alone.
pub proof fn law_scaled_values_are_close<T: Real>(
    rows: Seq<Seq<T>>,
    m: int,
    t: int,
    n: int,
    u: int,
)
    requires
        arith::ordered::<T>(),
        scaling_keeps_order::<T>(),
        ({
            let top = grid_top(rows);
            arith::at_most(
                arith::minus(whisper_scaled(top, top), scaled_floor(top)),
                arith::whole(2),
            )
        }),
        0 <= m < rows.len(),
        0 <= t < rows[m].len(),
        0 <= n < rows.len(),
        0 <= u < rows[n].len(),
    ensures
        ({
            let top = grid_top(rows);
            arith::at_most(
                arith::minus(whisper_scaled(rows[m][t], top), whisper_scaled(rows[n][u], top)),
                arith::whole(2),
            )
        }),
{
    let top = grid_top(rows);
    lemma_grid_top(rows);
    lemma_scaled_between(rows[m][t], top);
    lemma_scaled_between(rows[n][u], top);
}

/// A frame is the samples of the signal from its start on, each under its own place of the window:
/// under a window of ones it is the signal there, on a signal of ones it is the window, and outside
/// the window and past the end of the signal it is silent.
pub proof fn law_frame_is_signal_under_window<T: Real>(
    p: Seq<T>,
    start: int,
    offset: int,
    window: Seq<T>,
    n_fft: int,
    i: int,
)
    requires
        arith::neutral::<T>(),
        0 <= start,
        0 <= offset,
        offset + window.len() <= n_fft,
        0 <= i < n_fft,
    ensures
        ({
            let frame = framed(p, start, offset, window, n_fft);
            let inside = offset <= i < offset + window.len();
            &&& frame.len() == n_fft
            &&& frame[i].im == arith::whole::<T>(0)
            &&& !inside || p.len() <= start + i ==> frame[i].re == arith::whole::<T>(0)
            &&& inside && start + i < p.len() && window[i - offset] == arith::whole::<T>(1)
                ==> frame[i].re == p[start + i]
            &&& inside && start + i < p.len() && p[start + i] == arith::whole::<T>(1)
                ==> frame[i].re == window[i - offset]
        }),
{
}

/// A spectrum depends on the samples of its frame and on nothing else: two frames of any two
/// signals that hold the same samples have the same spectrum.
pub proof fn law_spectrum_is_of_its_frame<T: Real, F: Transform<T>>(
    p: Seq<T>,
    start: int,
    q: Seq<T>,
    begin: int,
    offset: int,
    window: Seq<T>,
    n_fft: int,
    fft: F,
)
    requires
        0 <= start,
        0 <= begin,
        0 <= n_fft,
        start + n_fft <= p.len(),
        begin + n_fft <= q.len(),
        forall|i: int| 0 <= i < n_fft ==> #[trigger] p[start + i] == q[begin + i],
    ensures
        frame_bins::<T, F>(p, start, offset, window, n_fft, fft) == frame_bins::<T, F>(
            q,
            begin,
            offset,
            window,
            n_fft,
            fft,
        ),
{
    let a = framed(p, start, offset, window, n_fft);
    let b = framed(q, begin, offset, window, n_fft);
    assert forall|i: int| 0 <= i < a.len() implies #[trigger] a[i] == b[i] by {
        assert(p[start + i] == q[begin + i]);
    }
    assert(a =~= b);
}

/// The power of a bin is the square of its size: that of a real and of an imaginary number is its
/// square, and the two parts are alike.
pub proof fn law_power_is_the_square<T: Real>(bins: Seq<Complex<T>>, n: int, k: int)
    requires
        arith::neutral::<T>(),
        0 <= k < n <= bins.len(),
    ensures
        powers(bins, n).len() == n,
        bins[k].im == arith::whole::<T>(0) ==> powers(bins, n)[k] == arith::times(
            bins[k].re,
            bins[k].re,
        ),
        bins[k].re == arith::whole::<T>(0) ==> powers(bins, n)[k] == arith::times(
            bins[k].im,
            bins[k].im,
        ),
{
}

/// Each band sums under its own weights: where one bin alone has power, every band has that power
/// times its weight for that bin.
pub proof fn law_bands_have_their_weights<T: Real>(
    banks: Seq<Seq<T>>,
    x: Seq<T>,
    m: int,
    k: int,
)
    requires
        arith::neutral::<T>(),
        0 <= m < banks.len(),
        0 <= k < banks[m].len() <= x.len(),
        forall|j: int| 0 <= j < x.len() && j != k ==> #[trigger] x[j] == arith::whole::<T>(0),
    ensures
        band_sums(banks, x).len() == banks.len(),
        band_sums(banks, x)[m] == arith::times(banks[m][k], x[k]),
{
    fir::law_each_sample_has_its_coefficient(banks[m], x, k);
}

/// A periodic Hann window is zero at its start and one in its middle, and mirrors itself there.
/// The sine has to be zero at zero, one at a quarter turn and alike on both sides of it.
pub proof fn law_window_rises_and_falls<T: Real>(i: int, n: int)
    requires
        arith::neutral::<T>(),
        0 < i < n <= usize::MAX,
        arith::count::<T>(0) == arith::whole::<T>(0),
        arith::over(arith::whole::<T>(0), arith::count(n as usize)) == arith::whole::<T>(0),
        arith::sine(arith::whole::<T>(0)) == arith::whole::<T>(0),
        ({
            let at = |k: int|
                arith::over(
                    arith::times(arith::pi::<T>(), arith::count(k as usize)),
                    arith::count(n as usize),
                );
            &&& 2 * i == n ==> arith::sine(at(i)) == arith::whole::<T>(1)
            &&& arith::sine(at(n - i)) == arith::sine(at(i))
        }),
    ensures
        hann_periodic_at::<T>(0, n) == arith::whole::<T>(0),
        2 * i == n ==> hann_periodic_at::<T>(i, n) == arith::whole::<T>(1),
        hann_periodic_at::<T>(n - i, n) == hann_periodic_at::<T>(i, n),
{
}

/// The same stretch of audio has the same spectrum wherever it stands: a frame that lies within
/// a signal, beside the mirrored samples, depends on the samples of its stretch alone, and those
/// are found `pad` samples before its place in the padded signal.
pub proof fn law_same_stretch_has_the_same_spectrum<T: Real, F: Transform<T>>(
    a: Seq<T>,
    start: int,
    b: Seq<T>,
    begin: int,
    pad: int,
    offset: int,
    window: Seq<T>,
    n_fft: int,
    fft: F,
)
    requires
        0 <= pad <= start,
        pad <= begin,
        0 <= n_fft,
        start + n_fft <= pad + a.len(),
        begin + n_fft <= pad + b.len(),
        forall|i: int|
            0 <= i < n_fft ==> #[trigger] a[start - pad + i] == b[begin - pad + i],
    ensures
        frame_bins::<T, F>(reflected(a, pad), start, offset, window, n_fft, fft) == frame_bins::<
            T,
            F,
        >(reflected(b, pad), begin, offset, window, n_fft, fft),
{
    let p = reflected(a, pad);
    let q = reflected(b, pad);
    assert forall|i: int| 0 <= i < n_fft implies #[trigger] p[start + i] == q[begin + i] by {
        assert(a[start - pad + i] == b[begin - pad + i]);
    }
    law_spectrum_is_of_its_frame::<T, F>(p, start, q, begin, offset, window, n_fft, fft);
}

/// A magnitude is the root of a power, and in silence that of the floor.
pub proof fn law_magnitude_is_the_root<T: Real>(p: Seq<T>, floor: T, k: int)
    requires
        arith::neutral::<T>(),
        0 <= k < p.len(),
    ensures
        magnitudes(p, floor).len() == p.len(),
        floor == arith::whole::<T>(0) ==> magnitudes(p, floor)[k] == arith::root(p[k]),
        p[k] == arith::whole::<T>(0) ==> magnitudes(p, floor)[k] == arith::root(floor),
{
}

/// The top of a table is at least each number of it, and it is one of them, or the lowest number
/// there is.
pub proof fn law_top_is_the_largest<T: Real>(rows: Seq<Seq<T>>, m: int, t: int)
    requires
        arith::ordered::<T>(),
        scaling_keeps_order::<T>(),
        0 <= m < rows.len(),
        0 <= t < rows[m].len(),
        arith::number(rows[m][t]),
        forall|a: T, b: T| (#[trigger] arith::larger(a, b)) == a || arith::larger(a, b) == b,
    ensures
        arith::at_most(rows[m][t], grid_top(rows)),
        grid_top(rows) == arith::lowest::<T>() || exists|i: int, j: int|
            0 <= i < rows.len() && 0 <= j < rows[i].len() && grid_top(rows)
                == #[trigger] rows[i][j],
{
    lemma_grid_top(rows);
    lemma_top_is_one_of_them(rows);
}

/// The top of a table is the lowest number or one of the table.
proof fn lemma_top_is_one_of_them<T: Real>(rows: Seq<Seq<T>>)
    requires
        forall|a: T, b: T| (#[trigger] arith::larger(a, b)) == a || arith::larger(a, b) == b,
    ensures
        grid_top(rows) == arith::lowest::<T>() || exists|i: int, j: int|
            0 <= i < rows.len() && 0 <= j < rows[i].len() && grid_top(rows)
                == #[trigger] rows[i][j],
    decreases rows.len(),
{
    if rows.len() > 0 {
        let before = rows.drop_last();
        lemma_top_is_one_of_them(before);
        let start = grid_top(before);
        lemma_row_top_is_one_of_them(rows.last(), start);
        if grid_top(rows) == start {
            if start != arith::lowest::<T>() {
                let (i, j) = choose|i: int, j: int|
                    0 <= i < before.len() && 0 <= j < before[i].len() && start
                        == #[trigger] before[i][j];
                assert(rows[i][j] == grid_top(rows));
            }
        } else {
            let j = choose|j: int|
                0 <= j < rows.last().len() && row_top(rows.last(), start)
                    == #[trigger] rows.last()[j];
            assert(rows[rows.len() - 1][j] == grid_top(rows));
        }
    }
}

/// The top of a row is its start or one of the row.
proof fn lemma_row_top_is_one_of_them<T: Real>(row: Seq<T>, start: T)
    requires
        forall|a: T, b: T| (#[trigger] arith::larger(a, b)) == a || arith::larger(a, b) == b,
    ensures
        row_top(row, start) == start || exists|j: int|
            0 <= j < row.len() && row_top(row, start) == #[trigger] row[j],
    decreases row.len(),
{
    if row.len() > 0 {
        let before = row.drop_last();
        lemma_row_top_is_one_of_them(before, start);
        let top = row_top(before, start);
        if arith::larger(top, row.last()) == top {
            if top != start {
                let j = choose|j: int| 0 <= j < before.len() && top == #[trigger] before[j];
                assert(row[j] == row_top(row, start));
            }
        } else {
            assert(row[row.len() - 1] == row_top(row, start));
        }
    }
}

/// Scaling holds a value at eight below the top, moves it by four and divides it by four: a value
/// that is not held becomes a quarter of itself and one, and a held one what eight below the top
/// becomes.
pub proof fn law_scaling_holds_moves_and_divides<T: Real>(v: T, top: T)
    requires
        arith::over(
            arith::plus(arith::whole::<T>(0), arith::whole(4)),
            arith::whole(4),
        ) == arith::whole::<T>(1),
    ensures
        ({
            let low = arith::minus(top, arith::whole(8));
            &&& arith::larger(v, low) == v ==> whisper_scaled(v, top) == arith::over(
                arith::plus(v, arith::whole(4)),
                arith::whole(4),
            )
            &&& arith::larger(v, low) == low ==> whisper_scaled(v, top) == arith::over(
                arith::plus(low, arith::whole(4)),
                arith::whole(4),
            )
            &&& arith::larger(v, low) == v && v == arith::whole::<T>(0) ==> whisper_scaled(v, top)
                == arith::whole::<T>(1)
        }),
{
}

} // verus!
