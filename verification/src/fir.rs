//! Finite impulse response filters: sample history, windowed-sinc design, convolution.

use vstd::prelude::*;
use crate::arith;
use crate::arith::Real;
use crate::arith::Wide;
use crate::buffers::filled;

verus! {

/// The history after the samples `xs` were taken, one after the other: newest first.
pub open spec fn pushed<T>(h: Seq<T>, xs: Seq<T>) -> Seq<T> {
    Seq::new(h.len(), |k: int| if k < xs.len() { xs[xs.len() - 1 - k] } else { h[k - xs.len()] })
}

/// The sum of the products of coefficients and samples, added up from the first pair on.
pub open spec fn convolved<T: Real>(c: Seq<T>, x: Seq<T>) -> T
    decreases c.len(),
{
    if c.len() == 0 {
        arith::whole(0)
    } else {
        arith::plus(
            convolved(c.drop_last(), x),
            arith::times(c.last(), x[c.len() - 1]),
        )
    }
}

/// The last samples of a signal, as many as a filter has taps.
pub struct History<T: Real> {
    /// The samples, as a ring.
    pub ring: Vec<T>,
    /// Where the newest sample stands.
    pub pos: usize,
}

impl<T: Real> History<T> {
    /// The samples, newest first.
    pub open spec fn view(&self) -> Seq<T> {
        Seq::new(
            self.ring.len() as nat,
            |k: int|
                self.ring@[if k <= self.pos {
                    self.pos - k
                } else {
                    self.pos + self.ring.len() - k
                }],
        )
    }

    /// Whether the newest sample stands within the ring.
    pub open spec fn valid(&self) -> bool {
        self.pos < self.ring.len()
    }

    /// A history of `n` samples of silence.
    pub fn new(n: usize) -> (h: Self)
        requires
            n > 0,
        ensures
            h.valid(),
            h@.len() == n,
            arith::deterministic::<T>() ==> h@ == Seq::new(n as nat, |k: int| arith::whole::<T>(0)),
    {
        let zero: T = T::whole(0);
        let ring: Vec<T> = filled(zero, n);
        let h = History { ring, pos: 0 };
        proof {
            if arith::deterministic::<T>() {
                assert(h@ =~= Seq::new(n as nat, |k: int| arith::whole::<T>(0)));
            }
        }
        h
    }

    /// Takes one sample; the oldest one goes.
    pub fn push(&mut self, x: T)
        requires
            old(self).valid(),
        ensures
            final(self).valid(),
            final(self)@ == pushed(old(self)@, seq![x]),
    {
        let n: usize = self.ring.len();
        self.pos = if self.pos + 1 == n { 0 } else { self.pos + 1 };
        self.ring.set(self.pos, x);
        assert(self@ =~= pushed(old(self)@, seq![x]));
    }

    /// The sum of the products of `coeffs` and the samples, newest first.
    pub fn dot(&self, coeffs: &Vec<T>) -> (acc: T)
        requires
            self.valid(),
            coeffs.len() <= self@.len(),
        ensures
            arith::deterministic::<T>() ==> acc == convolved(coeffs@, self@),
    {
        let n: usize = self.ring.len();
        let mut acc: T = T::whole(0);
        let mut idx: usize = self.pos;
        let mut k: usize = 0;
        assert(coeffs@.take(0) =~= Seq::empty());
        while k < coeffs.len()
            invariant
                self.valid(),
                n == self.ring.len(),
                k <= coeffs.len() <= n,
                idx < n,
                idx == (if k <= self.pos { self.pos - k } else { self.pos + n - k }),
                arith::deterministic::<T>() ==> acc == convolved(coeffs@.take(k as int), self@),
            decreases coeffs.len() - k,
        {
            acc = acc.plus(coeffs[k].times(self.ring[idx]));
            assert(coeffs@.take(k + 1).drop_last() =~= coeffs@.take(k as int));
            idx = if idx == 0 { n - 1 } else { idx - 1 };
            k = k + 1;
        }
        assert(coeffs@.take(coeffs.len() as int) =~= coeffs@);
        acc
    }
}

/// The sum of the products of coefficients and numbers.
pub fn dot<T: Real>(c: &Vec<T>, x: &Vec<T>) -> (acc: T)
    requires
        c.len() <= x.len(),
    ensures
        arith::deterministic::<T>() ==> acc == convolved(c@, x@),
{
    let mut acc: T = T::whole(0);
    let mut k: usize = 0;
    assert(c@.take(0) =~= Seq::empty());
    while k < c.len()
        invariant
            k <= c.len() <= x.len(),
            arith::deterministic::<T>() ==> acc == convolved(c@.take(k as int), x@),
        decreases c.len() - k,
    {
        acc = acc.plus(c[k].times(x[k]));
        assert(c@.take(k + 1).drop_last() =~= c@.take(k as int));
        k = k + 1;
    }
    assert(c@.take(c.len() as int) =~= c@);
    acc
}

/// Samples taken in two portions leave the history that they leave together.
pub proof fn lemma_pushed_twice<T>(h: Seq<T>, a: Seq<T>, b: Seq<T>)
    ensures
        pushed(pushed(h, a), b) == pushed(h, a + b),
{
    assert(pushed(pushed(h, a), b) =~= pushed(h, a + b));
}

/// The rest of the power series of the Bessel function from the term `k` on, where the terms
/// so far add up to `sum` and the last of them was `term`.
pub open spec fn bessel_series<W: Real>(x2: W, k: int, term: W, sum: W) -> W
    decreases 32 - k,
{
    if k >= 32 {
        sum
    } else {
        let f = arith::whole::<W>(k as i64);
        let t = arith::times(term, arith::over(x2, arith::times(f, f)));
        let s = arith::plus(sum, t);
        if arith::below(t, arith::times(arith::fraction(1, 1_000_000_000_000), s)) {
            s
        } else {
            bessel_series(x2, k + 1, t, s)
        }
    }
}

/// The modified Bessel function of the first kind and order zero, as its power series gives it
/// in the wider type.
pub open spec fn bessel<T: Real, W: Wide<T>>(x: T) -> T {
    let half = arith::over(arith::widened::<T, W>(x), arith::whole(2));
    arith::narrowed(
        bessel_series(
            arith::times(half, half),
            1,
            arith::whole::<W>(1),
            arith::whole::<W>(1),
        ),
    )
}

/// The modified Bessel function of the first kind and order zero, for the Kaiser window.
pub fn bessel_i0<T: Real, W: Wide<T>>(x: T) -> (r: T)
    ensures
        arith::wide_deterministic::<T, W>() ==> r == bessel::<T, W>(x),
{
    let mut sum: W = W::whole(1);
    let mut term: W = W::whole(1);
    let x2: W = W::widened(x).over(W::whole(2)).times(W::widened(x).over(W::whole(2)));
    let ghost first = term;
    let mut k: i64 = 1;
    while k < 32
        invariant_except_break
            1 <= k <= 32,
            arith::deterministic::<W>() ==> bessel_series(x2, 1, first, first) == bessel_series(
                x2,
                k as int,
                term,
                sum,
            ),
        ensures
            arith::deterministic::<W>() ==> sum == bessel_series(x2, 1, first, first),
        decreases 32 - k,
    {
        term = term.times(x2.over(W::whole(k).times(W::whole(k))));
        sum = sum.plus(term);
        if term.below(W::fraction(1, 1_000_000_000_000).times(sum)) {
            break;
        }
        k = k + 1;
    }
    sum.narrowed()
}

/// The impulse response of an ideal low-pass at the distance `t` from its centre, with the
/// cutoff `fc` as a fraction of the sample rate.
pub open spec fn sinc<T: Real>(fc: T, t: T) -> T {
    if arith::below(arith::absolute(t), arith::fraction(1, 1_000_000)) {
        arith::times(arith::whole(2), fc)
    } else {
        arith::over(
            arith::sine(
                arith::times(arith::times(arith::times(arith::whole(2), arith::pi()), fc), t),
            ),
            arith::times(arith::pi(), t),
        )
    }
}

/// The impulse response of an ideal low-pass at the distance `t` from its centre.
pub fn sinc_at<T: Real>(fc: T, t: T) -> (r: T)
    ensures
        arith::deterministic::<T>() ==> r == sinc(fc, t),
{
    if t.absolute().below(T::fraction(1, 1_000_000)) {
        T::whole(2).times(fc)
    } else {
        T::whole(2).times(T::pi()).times(fc).times(t).sine().over(T::pi().times(t))
    }
}

/// The Kaiser window of shape `beta` at the distance `t` from its centre, before it is scaled
/// to one there; `c` is half of its width.
pub open spec fn kaiser<T: Real, W: Wide<T>>(beta: T, t: T, c: T) -> T {
    let r = arith::over(t, c);
    bessel::<T, W>(
        arith::times(
            beta,
            arith::root(
                arith::larger(
                    arith::minus(arith::whole(1), arith::times(r, r)),
                    arith::whole(0),
                ),
            ),
        ),
    )
}

/// The Kaiser window of shape `beta` at the distance `t` from its centre.
pub fn kaiser_at<T: Real, W: Wide<T>>(beta: T, t: T, c: T) -> (r: T)
    ensures
        arith::wide_deterministic::<T, W>() ==> r == kaiser::<T, W>(beta, t, c),
{
    let q: T = t.over(c);
    bessel_i0::<T, W>(beta.times(T::whole(1).minus(q.times(q)).larger(T::whole(0)).root()))
}

/// A sum of products takes each sample with its own coefficient: of a signal that is silent but
/// at place `k` it gives that sample times the coefficient `k`.
pub proof fn law_each_sample_has_its_coefficient<T: Real>(c: Seq<T>, x: Seq<T>, k: int)
    requires
        arith::neutral::<T>(),
        0 <= k < c.len() <= x.len(),
        forall|j: int| 0 <= j < c.len() && j != k ==> #[trigger] x[j] == arith::whole::<T>(0),
    ensures
        convolved(c, x) == arith::times(c[k], x[k]),
    decreases c.len(),
{
    let front = c.drop_last();
    if k < front.len() {
        law_each_sample_has_its_coefficient(front, x, k);
        assert(x[c.len() - 1] == arith::whole::<T>(0));
    } else {
        lemma_silence_adds_nothing(front, x);
    }
}

/// A sum of products with silence is zero.
pub proof fn lemma_silence_adds_nothing<T: Real>(c: Seq<T>, x: Seq<T>)
    requires
        arith::neutral::<T>(),
        c.len() <= x.len(),
        forall|j: int| 0 <= j < c.len() ==> #[trigger] x[j] == arith::whole::<T>(0),
    ensures
        convolved(c, x) == arith::whole::<T>(0),
    decreases c.len(),
{
    if c.len() > 0 {
        lemma_silence_adds_nothing(c.drop_last(), x);
        assert(x[c.len() - 1] == arith::whole::<T>(0));
    }
}

/// A sum of products depends on the samples that have a coefficient, and on nothing else.
pub proof fn law_sum_depends_on_its_samples<T: Real>(c: Seq<T>, x: Seq<T>, y: Seq<T>)
    requires
        forall|j: int| 0 <= j < c.len() ==> #[trigger] x[j] == y[j],
    ensures
        convolved(c, x) == convolved(c, y),
    decreases c.len(),
{
    if c.len() > 0 {
        assert(x[c.len() - 1] == y[c.len() - 1]);
        law_sum_depends_on_its_samples(c.drop_last(), x, y);
    }
}

/// A history holds the newest sample first, and behind it what it held, each one place on.
pub proof fn law_history_is_newest_first<T>(h: Seq<T>, x: T, k: int)
    requires
        0 < k < h.len(),
    ensures
        pushed(h, seq![x]).len() == h.len(),
        pushed(h, seq![x])[0] == x,
        pushed(h, seq![x])[k] == h[k - 1],
{
}

/// The Bessel function is one at zero, and a term of its series is that before it times the
/// squared half of the argument over the squared place: what follows a first term that is small
/// enough is left out.
pub proof fn law_bessel_is_a_power_series<T: Real, W: Wide<T>>(x: T)
    requires
        arith::neutral::<W>(),
    ensures
        ({
            let half = arith::over(arith::widened::<T, W>(x), arith::whole(2));
            let one = arith::whole::<W>(1);
            let first = arith::over(arith::times(half, half), arith::times(one, one));
            let least = arith::fraction::<W>(1, 1_000_000_000_000);
            &&& half == arith::whole::<W>(0) && arith::over(arith::whole::<W>(0), one)
                == arith::whole::<W>(0) && arith::below(arith::whole(0), least) ==> bessel::<T, W>(x)
                == arith::narrowed::<T, W>(one)
            &&& arith::below(first, arith::times(least, arith::plus(one, first))) ==> bessel::<
                T,
                W,
            >(x) == arith::narrowed::<T, W>(arith::plus(one, first))
        }),
{
    reveal_with_fuel(bessel_series, 2);
    assert(arith::times(arith::whole::<W>(1), arith::whole(1)) == arith::whole::<W>(1));
}

/// An ideal low-pass answers at its centre with twice its cutoff, and is zero where the sine is.
pub proof fn law_low_pass_peaks_at_its_centre<T: Real>(fc: T, t: T)
    requires
        arith::over(arith::whole::<T>(0), arith::times(arith::pi(), t)) == arith::whole::<T>(0),
    ensures
        arith::below(arith::absolute(t), arith::fraction(1, 1_000_000)) ==> sinc(fc, t)
            == arith::times(arith::whole::<T>(2), fc),
        !arith::below(arith::absolute(t), arith::fraction(1, 1_000_000)) && arith::sine(
            arith::times(arith::times(arith::times(arith::whole(2), arith::pi()), fc), t),
        ) == arith::whole::<T>(0) ==> sinc(fc, t) == arith::whole::<T>(0),
        !arith::below(arith::absolute(t), arith::fraction(1, 1_000_000)) && arith::sine(
            arith::times(arith::times(arith::times(arith::whole(2), arith::pi()), fc), t),
        ) == arith::whole::<T>(1) ==> sinc(fc, t) == arith::over(
            arith::whole::<T>(1),
            arith::times(arith::pi(), t),
        ),
{
}

/// A Kaiser window has the full Bessel function of its shape in its centre, that of zero at its
/// ends, and the same on both sides.
pub proof fn law_kaiser_window_falls_to_its_ends<T: Real, W: Wide<T>>(beta: T, t: T, s: T, c: T)
    requires
        arith::neutral::<T>(),
        arith::root(arith::whole::<T>(1)) == arith::whole::<T>(1),
        arith::root(arith::whole::<T>(0)) == arith::whole::<T>(0),
        arith::larger(arith::whole::<T>(1), arith::whole(0)) == arith::whole::<T>(1),
        arith::larger(arith::whole::<T>(0), arith::whole(0)) == arith::whole::<T>(0),
    ensures
        arith::over(t, c) == arith::whole::<T>(0) ==> kaiser::<T, W>(beta, t, c) == bessel::<T, W>(
            beta,
        ),
        arith::over(t, c) == arith::whole::<T>(1) ==> kaiser::<T, W>(beta, t, c) == bessel::<T, W>(
            arith::whole(0),
        ),
        arith::times(arith::over(t, c), arith::over(t, c)) == arith::times(
            arith::over(s, c),
            arith::over(s, c),
        ) ==> kaiser::<T, W>(beta, t, c) == kaiser::<T, W>(beta, s, c),
{
}

/// The second term of the Bessel series is the first one times the squared half of the argument
/// over four; where that is small enough, the two terms and one are the sum.
pub proof fn law_second_term_is_a_quarter<T: Real, W: Wide<T>>(x: T)
    requires
        arith::neutral::<W>(),
    ensures
        ({
            let half = arith::over(arith::widened::<T, W>(x), arith::whole(2));
            let one = arith::whole::<W>(1);
            let two = arith::whole::<W>(2);
            let square = arith::times(half, half);
            let second = arith::times(square, arith::over(square, arith::times(two, two)));
            let least = arith::fraction::<W>(1, 1_000_000_000_000);
            let sum = arith::plus(arith::plus(one, square), second);
            !arith::below(square, arith::times(least, arith::plus(one, square))) && arith::below(
                second,
                arith::times(least, sum),
            ) ==> bessel::<T, W>(x) == arith::narrowed::<T, W>(sum)
        }),
{
    reveal_with_fuel(bessel_series, 3);
    let one = arith::whole::<W>(1);
    assert(arith::times(one, one) == one);
    let half = arith::over(arith::widened::<T, W>(x), arith::whole(2));
    let square = arith::times(half, half);
    assert(arith::over(square, one) == square);
    assert(arith::times(one, square) == square);
}

} // verus!
