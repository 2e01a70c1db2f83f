//! Rate conversion of the engine: a windowed-sinc kernel for each output phase.

use vstd::prelude::*;
use crate::arith;
use crate::arith::Real;
use crate::arith::Wide;
use crate::ratio;

verus! {

pub use crate::ratio::gcd;

/// The low-pass frequency of a conversion, in units of the reduced rates.
pub open spec fn base<W: Real>(orig: usize, new: usize) -> W {
    arith::times(
        arith::fraction(99, 100),
        arith::count(if orig < new { orig } else { new }),
    )
}

/// The reach of the kernels in input samples, for a filter of `width` periods.
pub open spec fn reach<W: Real>(orig: usize, new: usize, width: usize) -> int {
    arith::ceiling(
        arith::over(
            arith::times(arith::count::<W>(width), arith::count(orig)),
            base::<W>(orig, new),
        ),
    ) as int
}

/// The weight of the input sample `j` samples from the block's first in the output phase `i`.
pub open spec fn kernel<W: Real>(orig: usize, new: usize, width: usize, i: int, j: int) -> W {
    let b = base::<W>(orig, new);
    let w = arith::count::<W>(width);
    let place = arith::times(
        arith::plus(
            arith::over(arith::negated(arith::count(i as usize)), arith::count(new)),
            arith::over(arith::whole(j as i64), arith::count(orig)),
        ),
        b,
    );
    let t = arith::clamped(place, arith::negated(w), w);
    let c = arith::cosine(
        arith::over(
            arith::over(arith::times(t, arith::pi()), w),
            arith::whole(2),
        ),
    );
    let sinc = if arith::at_most(t, arith::whole(0)) && arith::at_most(arith::whole(0), t) {
        arith::whole(1)
    } else {
        arith::over(
            arith::sine(arith::times(t, arith::pi())),
            arith::times(t, arith::pi()),
        )
    };
    arith::times(
        arith::times(arith::over(b, arith::count(orig)), sinc),
        arith::times(c, c),
    )
}

/// The first input sample of the block of the output sample `n`.
pub open spec fn block_start(orig: int, new: int, n: int) -> int {
    (n / new) * orig
}

/// Whether the kernels reach the input sample `at` from a block that starts at `from`: the reach
/// before it, and the block and the reach after it.
pub open spec fn reaches(reach: int, orig: int, from: int, at: int) -> bool {
    -reach <= at - from < reach + orig
}

/// The sum of those of the first `count` input samples that the output sample `n` reaches, each
/// times its weight.
pub open spec fn gathered<T: Real, W: Wide<T>>(
    input: Seq<T>,
    orig: usize,
    new: usize,
    width: usize,
    n: int,
    count: int,
) -> W
    decreases count,
{
    if count <= 0 {
        arith::whole(0)
    } else {
        let before = gathered::<T, W>(input, orig, new, width, n, count - 1);
        let from = block_start(orig as int, new as int, n);
        let at = count - 1;
        if reaches(reach::<W>(orig, new, width), orig as int, from, at) {
            arith::plus(
                before,
                arith::times(
                    kernel::<W>(orig, new, width, n % new as int, at - from),
                    arith::widened::<T, W>(input[at]),
                ),
            )
        } else {
            before
        }
    }
}

/// The output sample `n` of a conversion between the reduced rates.
pub open spec fn converted<T: Real, W: Wide<T>>(
    input: Seq<T>,
    orig: usize,
    new: usize,
    width: usize,
    n: int,
) -> T {
    arith::narrowed::<T, W>(gathered::<T, W>(input, orig, new, width, n, input.len() as int))
}

/// The smallest number of `d` that hold `n`.
pub open spec fn ceil_div(n: int, d: int) -> int {
    (n + d - 1) / d
}

/// The term `a` of the ratio of `a` to `b` in lowest terms.
pub open spec fn reduced(a: usize, b: usize) -> usize {
    (a as int / ratio::gcd_of(a as nat, b as nat) as int) as usize
}

/// The weight of the input sample `j` samples from the block's first in the output phase `i`.
fn kernel_at<W: Real>(orig: usize, new: usize, width: usize, i: usize, j: i64) -> (k: W)
    ensures
        arith::deterministic::<W>() ==> k == kernel::<W>(orig, new, width, i as int, j as int),
{
    let least: usize = if orig < new { orig } else { new };
    let b: W = W::fraction(99, 100).times(W::count(least));
    let w: W = W::count(width);
    let place: W = W::count(i).negated().over(W::count(new)).plus(
        W::whole(j).over(W::count(orig)),
    ).times(b);
    let t: W = arith::clamp(place, w.negated(), w);
    let c: W = t.times(W::pi()).over(w).over(W::whole(2)).cosine();
    let sinc: W = if t.at_most(W::whole(0)) && W::whole(0).at_most(t) {
        W::whole(1)
    } else {
        t.times(W::pi()).sine().over(t.times(W::pi()))
    };
    b.over(W::count(orig)).times(sinc).times(c.times(c))
}

/// The weights of the output phase `i` for the input samples from `back` before the block's first
/// to `ahead` after it.
fn kernel_row<W: Real>(
    orig: usize,
    new: usize,
    width: usize,
    i: usize,
    back: usize,
    ahead: usize,
) -> (row: Vec<W>)
    requires
        back + ahead <= isize::MAX,
    ensures
        row.len() == back + ahead,
        arith::deterministic::<W>() ==> forall|q: int|
            0 <= q < row.len() ==> #[trigger] row@[q] == kernel::<W>(
                orig,
                new,
                width,
                i as int,
                q - back,
            ),
{
    let mut row: Vec<W> = Vec::new();
    let mut q: usize = 0;
    while q < back + ahead
        invariant
            q <= back + ahead <= isize::MAX,
            row.len() == q,
            arith::deterministic::<W>() ==> forall|k: int|
                0 <= k < q ==> #[trigger] row@[k] == kernel::<W>(
                    orig,
                    new,
                    width,
                    i as int,
                    k - back,
                ),
        decreases back + ahead - q,
    {
        row.push(kernel_at(orig, new, width, i, q as i64 - back as i64));
        q = q + 1;
    }
    row
}

/// The size that is nearest to `x` and at most `most`.
fn size_within(x: i128, most: usize) -> (r: usize)
    ensures
        r == (if x < 0 {
            0
        } else if x > most {
            most as int
        } else {
            x as int
        }),
{
    if x < 0 {
        0
    } else if x > most as i128 {
        most
    } else {
        x as usize
    }
}

/// Converts `input` from the rate `orig` to the rate `new` with a low-pass filter of `width`
/// periods.
pub fn resample_width<T: Real, W: Wide<T>>(
    input: &[T],
    orig: usize,
    new: usize,
    width: usize,
) -> (out: Vec<T>)
    requires
        0 < orig,
        0 < new,
        input.len() * reduced(new, orig) <= usize::MAX,
        2 * input.len() <= isize::MAX,
    ensures
        out.len() == ceil_div(
            input.len() * reduced(new, orig),
            reduced(orig, new) as int,
        ),
        arith::wide_deterministic::<T, W>() ==> forall|n: int|
            0 <= n < out.len() ==> #[trigger] out@[n] == converted::<T, W>(
                input@,
                reduced(orig, new),
                reduced(new, orig),
                width,
                n,
            ),
{
    let g: usize = gcd(orig, new);
    proof {
        assert(ratio::is_gcd(g as nat, new as nat, orig as nat));
        ratio::lemma_gcd_unique(g as nat, new as nat, orig as nat);
        ratio::lemma_divided(g as nat, orig as nat);
        ratio::lemma_divided(g as nat, new as nat);
    }
    let o: usize = orig / g;
    let m: usize = new / g;
    let len: usize = input.len();
    let least: usize = if o < m { o } else { m };
    let b: W = W::fraction(99, 100).times(W::count(least));
    let kw: i64 = W::count(width).times(W::count(o)).over(b).ceiling();
    let back: usize = size_within(kw as i128, len);
    let ahead: usize = size_within(kw as i128 + o as i128, len);
    let mut kernels: Vec<Vec<W>> = Vec::new();
    let mut i: usize = 0;
    while i < m
        invariant
            i <= m,
            back + ahead <= isize::MAX,
            kernels.len() == i,
            forall|p: int| 0 <= p < i ==> (#[trigger] kernels@[p]).len() == back + ahead,
            arith::deterministic::<W>() ==> forall|p: int, q: int|
                0 <= p < i && 0 <= q < back + ahead ==> #[trigger] kernels@[p]@[q] == kernel::<W>(
                    o,
                    m,
                    width,
                    p,
                    q - back,
                ),
        decreases m - i,
    {
        kernels.push(kernel_row(o, m, width, i, back, ahead));
        i = i + 1;
    }
    let total: usize = len * m;
    proof {
        vstd::arithmetic::div_mod::lemma_fundamental_div_mod(total as int, o as int);
        let q = total as int / o as int;
        assert(q <= o * q) by (nonlinear_arith)
            requires
                0 <= q,
                0 < o,
        ;
    }
    let count: usize = total / o + (if total % o > 0 { 1 } else { 0 });
    proof {
        lemma_ceil_div(total as int, o as int);
    }
    let mut out: Vec<T> = Vec::new();
    let mut n: usize = 0;
    while n < count
        invariant
            n <= count,
            0 < m,
            0 < o,
            len == input.len(),
            2 * len <= isize::MAX,
            total == len * m,
            count == ceil_div(total as int, o as int),
            back == (if kw < 0 {
                0
            } else if kw > len {
                len as int
            } else {
                kw as int
            }),
            ahead == (if kw + o < 0 {
                0
            } else if kw + o > len {
                len as int
            } else {
                kw + o
            }),
            kernels.len() == m,
            forall|p: int| 0 <= p < m ==> (#[trigger] kernels@[p]).len() == back + ahead,
            arith::deterministic::<W>() ==> forall|p: int, q: int|
                0 <= p < m && 0 <= q < back + ahead ==> #[trigger] kernels@[p]@[q] == kernel::<W>(
                    o,
                    m,
                    width,
                    p,
                    q - back,
                ),
            arith::deterministic::<W>() ==> kw == reach::<W>(o, m, width),
            out.len() == n,
            arith::wide_deterministic::<T, W>() ==> forall|k: int|
                0 <= k < n ==> #[trigger] out@[k] == converted::<T, W>(
                    input@,
                    o,
                    m,
                    width,
                    k,
                ),
        decreases count - n,
    {
        let block: usize = n / m;
        let phase: usize = n % m;
        proof {
            lemma_block_within(n as int, m as int, o as int, len as int);
        }
        let from: usize = block * o;
        let lo: usize = size_within(from as i128 - kw as i128, len);
        let hi: usize = size_within(from as i128 + kw as i128 + o as i128, len);
        let row: &Vec<W> = &kernels[phase];
        let mut acc: W = W::whole(0);
        let mut at: usize = lo;
        proof {
            if arith::wide_deterministic::<T, W>() {
                lemma_gathered_nothing::<T, W>(input@, o, m, width, n as int, 0, lo as int);
            }
        }
        while at < hi
            invariant
                lo <= at,
                hi <= len,
                len == input.len(),
                2 * len <= isize::MAX,
                at <= hi || at == lo,
                from == block_start(o as int, m as int, n as int),
                from < len,
                lo == (if from - kw < 0 {
                    0
                } else if from - kw > len {
                    len as int
                } else {
                    from - kw
                }),
                hi == (if from + kw + o < 0 {
                    0
                } else if from + kw + o > len {
                    len as int
                } else {
                    from + kw + o
                }),
                back == (if kw < 0 {
                    0
                } else if kw > len {
                    len as int
                } else {
                    kw as int
                }),
                ahead == (if kw + o < 0 {
                    0
                } else if kw + o > len {
                    len as int
                } else {
                    kw + o
                }),
                row.len() == back + ahead,
                arith::deterministic::<W>() ==> kw == reach::<W>(o, m, width),
                arith::deterministic::<W>() ==> forall|k: int|
                    0 <= k < back + ahead ==> #[trigger] row@[k] == kernel::<W>(
                        o,
                        m,
                        width,
                        n as int % m as int,
                        k - back,
                    ),
                arith::wide_deterministic::<T, W>() ==> acc == gathered::<T, W>(
                    input@,
                    o,
                    m,
                    width,
                    n as int,
                    at as int,
                ),
            decreases hi - at,
        {
            let q: usize = (back + at) - from;
            acc = acc.plus(row[q].times(W::widened(input[at])));
            at = at + 1;
        }
        proof {
            if arith::wide_deterministic::<T, W>() {
                lemma_gathered_nothing::<T, W>(
                    input@,
                    o,
                    m,
                    width,
                    n as int,
                    at as int,
                    len as int,
                );
            }
        }
        out.push(acc.narrowed());
        n = n + 1;
    }
    out
}

/// Input samples that are not reached add nothing.
proof fn lemma_gathered_nothing<T: Real, W: Wide<T>>(
    input: Seq<T>,
    orig: usize,
    new: usize,
    width: usize,
    n: int,
    lo: int,
    hi: int,
)
    requires
        0 <= lo <= hi,
        forall|at: int|
            lo <= at < hi ==> !reaches(
                reach::<W>(orig, new, width),
                orig as int,
                block_start(orig as int, new as int, n),
                at,
            ),
    ensures
        gathered::<T, W>(input, orig, new, width, n, hi) == gathered::<T, W>(
            input,
            orig,
            new,
            width,
            n,
            lo,
        ),
    decreases hi - lo,
{
    if lo < hi {
        assert(!reaches(
            reach::<W>(orig, new, width),
            orig as int,
            block_start(orig as int, new as int, n),
            hi - 1,
        ));
        lemma_gathered_nothing::<T, W>(input, orig, new, width, n, lo, hi - 1);
    }
}

/// A quotient is rounded up by one more where there is a remainder.
proof fn lemma_ceil_div(n: int, d: int)
    requires
        0 <= n,
        0 < d,
    ensures
        ceil_div(n, d) == n / d + (if n % d > 0 { 1int } else { 0 }),
{
    vstd::arithmetic::div_mod::lemma_fundamental_div_mod(n, d);
    let q = n / d;
    let r = n % d;
    if r > 0 {
        assert(n + d - 1 == (q + 1) * d + (r - 1)) by (nonlinear_arith)
            requires
                n == d * q + r,
        ;
        vstd::arithmetic::div_mod::lemma_fundamental_div_mod_converse(n + d - 1, d, q + 1, r - 1);
    } else {
        assert(n + d - 1 == q * d + (d - 1)) by (nonlinear_arith)
            requires
                n == d * q + r,
                r == 0,
        ;
        vstd::arithmetic::div_mod::lemma_fundamental_div_mod_converse(n + d - 1, d, q, d - 1);
    }
}

/// The block of an output sample starts within the input.
proof fn lemma_block_within(n: int, m: int, o: int, len: int)
    requires
        0 < m,
        0 < o,
        0 <= len,
        0 <= n < ceil_div(len * m, o),
    ensures
        0 <= n / m,
        0 <= (n / m) * o < len,
{
    let total = len * m;
    vstd::arithmetic::div_mod::lemma_fundamental_div_mod(total + o - 1, o);
    vstd::arithmetic::div_mod::lemma_fundamental_div_mod(n, m);
    let c = (total + o - 1) / o;
    let b = n / m;
    assert(0 <= b) by {
        vstd::arithmetic::div_mod::lemma_div_pos_is_pos(n, m);
    }
    assert(o * c <= total + o - 1) by {
        vstd::arithmetic::div_mod::lemma_mod_bound(total + o - 1, o);
    }
    assert(m * b <= n) by {
        vstd::arithmetic::div_mod::lemma_mod_bound(n, m);
    }
    assert(b * o < len) by (nonlinear_arith)
        requires
            m * b <= n,
            n + 1 <= c,
            o * c <= len * m + o - 1,
            0 < m,
            0 < o,
            0 <= b,
            0 <= len,
    {
        assert(o * (n + 1) <= o * c);
        assert(o * n <= len * m - 1);
        assert(o * (m * b) <= o * n);
        assert(m * (b * o) < m * len);
    }
    assert(0 <= b * o) by (nonlinear_arith)
        requires
            0 <= b,
            0 < o,
    ;
}

/// Converts `input` from the rate `orig` to the rate `new` with a filter of six periods.
pub fn resample<T: Real, W: Wide<T>>(input: &[T], orig: usize, new: usize) -> (out: Vec<T>)
    requires
        0 < orig,
        0 < new,
        input.len() * reduced(new, orig) <= usize::MAX,
        2 * input.len() <= isize::MAX,
    ensures
        out.len() == ceil_div(
            input.len() * reduced(new, orig),
            reduced(orig, new) as int,
        ),
        arith::wide_deterministic::<T, W>() ==> forall|n: int|
            0 <= n < out.len() ==> #[trigger] out@[n] == converted::<T, W>(
                input@,
                reduced(orig, new),
                reduced(new, orig),
                6,
                n,
            ),
{
    resample_width::<T, W>(input, orig, new, 6)
}

/// Only the ratio of the rates matters: multiples of two rates are reduced to what they are
/// reduced to. A conversion has as many samples as the ratio says, rounded up.
pub proof fn law_only_the_ratio_matters(k: usize, orig: usize, new: usize, len: int)
    requires
        0 < k,
        0 < orig,
        0 < new,
        k * orig <= usize::MAX,
        k * new <= usize::MAX,
        0 <= len,
    ensures
        reduced((k * orig) as usize, (k * new) as usize) == reduced(orig, new),
        reduced((k * new) as usize, (k * orig) as usize) == reduced(new, orig),
        ceil_div(len * reduced(new, orig), reduced(orig, new) as int) == ceil_div(
            len * new,
            orig as int,
        ),
{
    lemma_reduced_multiple(k as nat, orig as nat, new as nat);
    lemma_reduced_multiple(k as nat, new as nat, orig as nat);
    let g = ratio::lemma_gcd_scales(1, orig as nat, new as nat);
    ratio::lemma_gcd_unique(g, orig as nat, new as nat);
    assert(ratio::is_gcd(g, new as nat, orig as nat));
    ratio::lemma_gcd_unique(g, new as nat, orig as nat);
    lemma_gcd_is_positive(g, orig as nat, new as nat);
    ratio::lemma_divided(g, orig as nat);
    ratio::lemma_divided(g, new as nat);
    let o = orig as int / g as int;
    let m = new as int / g as int;
    vstd::arithmetic::div_mod::lemma_div_is_ordered_by_denominator(orig as int, 1, g as int);
    vstd::arithmetic::div_mod::lemma_div_is_ordered_by_denominator(new as int, 1, g as int);
    let t = len * m;
    assert(t >= 0) by (nonlinear_arith)
        requires
            len >= 0,
            m >= 0,
            t == len * m,
    ;
    lemma_ceil_div(t, o);
    vstd::arithmetic::div_mod::lemma_fundamental_div_mod(t, o);
    let q = t / o;
    let r = t % o;
    assert(len * new == (q * (o * g)) + r * g) by (nonlinear_arith)
        requires
            new == m * g,
            t == len * m,
            t == o * q + r,
    ;
    assert(0 <= r * g < o * g) by (nonlinear_arith)
        requires
            0 <= r < o,
            0 < g,
    ;
    assert(r > 0 ==> r * g > 0) by (nonlinear_arith)
        requires
            0 < g,
    ;
    assert(r == 0 ==> r * g == 0) by (nonlinear_arith);
    vstd::arithmetic::div_mod::lemma_fundamental_div_mod_converse(
        len * new,
        orig as int,
        q,
        r * g,
    );
    assert(len * new >= 0) by (nonlinear_arith)
        requires
            len >= 0,
            new >= 0,
    ;
    lemma_ceil_div(len * new, orig as int);
}

proof fn lemma_gcd_is_positive(g: nat, a: nat, b: nat)
    requires
        ratio::is_gcd(g, a, b),
        0 < a,
    ensures
        0 < g,
{
    let k = choose|k: nat| a == #[trigger] (k * g);
    assert(0 < g) by (nonlinear_arith)
        requires
            a == k * g,
            0 < a,
    ;
}

proof fn lemma_reduced_multiple(k: nat, a: nat, b: nat)
    requires
        0 < k,
        0 < a,
        k * a <= usize::MAX,
        k * b <= usize::MAX,
        a <= usize::MAX,
        b <= usize::MAX,
    ensures
        reduced((k * a) as usize, (k * b) as usize) == reduced(a as usize, b as usize),
{
    let g = ratio::lemma_gcd_scales(k, a, b);
    ratio::lemma_gcd_unique(g, a, b);
    ratio::lemma_gcd_unique(k * g, k * a, k * b);
    lemma_gcd_is_positive(g, a, b);
    ratio::lemma_divided(g, a);
    let q = a as int / g as int;
    assert(k * a == q * (k * g) && 0 < k * g) by (nonlinear_arith)
        requires
            a == q * g,
            0 < g,
            0 < k,
    ;
    vstd::arithmetic::div_mod::lemma_div_by_multiple(q, (k * g) as int);
}

/// Silence stays silence, where any number times a zero is a zero, a zero and a zero make one, and
/// a zero is one in both types.
pub proof fn law_silence_stays_silence<T: Real, W: Wide<T>>(
    zero: spec_fn(W) -> bool,
    input: Seq<T>,
    orig: usize,
    new: usize,
    width: usize,
    n: int,
    count: int,
)
    requires
        zero(arith::whole(0)),
        forall|x: W, y: W| zero(y) ==> zero(#[trigger] arith::times(x, y)),
        forall|x: W, y: W| zero(x) && zero(y) ==> zero(#[trigger] arith::plus(x, y)),
        forall|k: int|
            0 <= k < input.len() ==> zero(arith::widened::<T, W>(#[trigger] input[k])),
        0 <= count <= input.len(),
    ensures
        zero(gathered::<T, W>(input, orig, new, width, n, count)),
    decreases count,
{
    if count > 0 {
        law_silence_stays_silence::<T, W>(zero, input, orig, new, width, n, count - 1);
        let x = input[count - 1];
    }
}

/// The distance in time of the input sample `at` from the output sample `n`, in seconds of a rate
/// of one.
pub open spec fn distance<W: Real>(orig: usize, new: usize, n: int, at: int) -> W {
    arith::minus(
        arith::over(arith::whole(at as i64), arith::count(orig)),
        arith::over(arith::count(n as usize), arith::count(new)),
    )
}

/// Every input sample whose distance in time from an output sample is within the reach of the
/// kernels is heard in it, whichever phase the output sample has.
pub proof fn law_near_samples_are_reached(reach: int, orig: int, new: int, n: int, at: int)
    requires
        0 < orig,
        0 < new,
        0 <= n,
        0 <= reach,
        -(reach * new) <= at * new - n * orig <= reach * new,
    ensures
        reaches(reach, orig, block_start(orig, new, n), at),
{
    vstd::arithmetic::div_mod::lemma_fundamental_div_mod(n, new);
    let q = n / new;
    let r = n % new;
    let d = at - q * orig;
    assert(d * new == (at * new - n * orig) + r * orig) by (nonlinear_arith)
        requires
            n == new * q + r,
            d == at - q * orig,
    ;
    assert(-reach <= d) by (nonlinear_arith)
        requires
            d * new == (at * new - n * orig) + r * orig,
            -(reach * new) <= at * new - n * orig,
            0 <= r,
            0 < orig,
            0 < new,
    ;
    assert(d < reach + orig) by (nonlinear_arith)
        requires
            d * new == (at * new - n * orig) + r * orig,
            at * new - n * orig <= reach * new,
            r < new,
            0 < orig,
            0 < new,
    ;
}

/// Samples of silence add nothing.
proof fn lemma_silence_adds_nothing<T: Real, W: Wide<T>>(
    input: Seq<T>,
    orig: usize,
    new: usize,
    width: usize,
    n: int,
    lo: int,
    hi: int,
)
    requires
        arith::neutral::<W>(),
        arith::widened::<T, W>(arith::whole(0)) == arith::whole::<W>(0),
        0 <= lo <= hi <= input.len(),
        forall|k: int| lo <= k < hi ==> #[trigger] input[k] == arith::whole::<T>(0),
    ensures
        gathered::<T, W>(input, orig, new, width, n, hi) == gathered::<T, W>(
            input,
            orig,
            new,
            width,
            n,
            lo,
        ),
    decreases hi - lo,
{
    if lo < hi {
        assert(input[hi - 1] == arith::whole::<T>(0));
        lemma_silence_adds_nothing::<T, W>(input, orig, new, width, n, lo, hi - 1);
    }
}

/// An output sample stands at its instant: of an input that is silent but at one place, each
/// output sample within reach is that input sample times a windowed sinc of the distance between
/// the two in time, and so for every output sample and not only for the first of a block. What the
/// rates make of the distance has to be what they make of it in exact arithmetic.
pub proof fn law_output_stands_at_its_instant<T: Real, W: Wide<T>>(
    input: Seq<T>,
    orig: usize,
    new: usize,
    width: usize,
    n: int,
    at: int,
)
    requires
        arith::neutral::<W>(),
        arith::widened::<T, W>(arith::whole(0)) == arith::whole::<W>(0),
        0 < orig,
        0 < new,
        0 <= n,
        0 <= at < input.len(),
        forall|k: int|
            0 <= k < input.len() && k != at ==> #[trigger] input[k] == arith::whole::<T>(0),
        0 <= reach::<W>(orig, new, width),
        -(reach::<W>(orig, new, width) * new) <= at * new - n * orig <= reach::<W>(orig, new, width)
            * new,
        arith::plus(
            arith::over(arith::negated(arith::count::<W>((n % new as int) as usize)), arith::count(new)),
            arith::over(arith::whole((at - (n / new as int) * orig) as i64), arith::count(orig)),
        ) == distance::<W>(orig, new, n, at),
    ensures
        ({
            let b = arith::times(
                arith::fraction::<W>(99, 100),
                arith::count(if orig < new { orig } else { new }),
            );
            let w = arith::count::<W>(width);
            let place = arith::times(distance::<W>(orig, new, n, at), b);
            let t = arith::clamped(place, arith::negated(w), w);
            let angle = arith::times(t, arith::pi());
            let c = arith::cosine(arith::over(arith::over(angle, w), arith::whole(2)));
            let at_zero = arith::at_most(t, arith::whole(0)) && arith::at_most(arith::whole(0), t);
            let sinc = if at_zero {
                arith::whole(1)
            } else {
                arith::over(arith::sine(angle), angle)
            };
            converted::<T, W>(input, orig, new, width, n) == arith::narrowed::<T, W>(
                arith::times(
                    arith::times(
                        arith::times(arith::over(b, arith::count(orig)), sinc),
                        arith::times(c, c),
                    ),
                    arith::widened::<T, W>(input[at]),
                ),
            )
        }),
{
    law_near_samples_are_reached(
        reach::<W>(orig, new, width),
        orig as int,
        new as int,
        n,
        at,
    );
    lemma_silence_adds_nothing::<T, W>(input, orig, new, width, n, 0, at);
    assert(gathered::<T, W>(input, orig, new, width, n, 0) == arith::whole::<W>(0));
    lemma_silence_adds_nothing::<T, W>(
        input,
        orig,
        new,
        width,
        n,
        at + 1,
        input.len() as int,
    );
}

/// Later input comes out later: an input delayed by one period of the reduced rates gives an
/// output that is delayed by as much time, away from the start.
pub proof fn law_later_input_comes_out_later<T: Real, W: Wide<T>>(
    input: Seq<T>,
    later: Seq<T>,
    orig: usize,
    new: usize,
    width: usize,
    n: int,
    count: int,
)
    requires
        arith::neutral::<W>(),
        arith::widened::<T, W>(arith::whole(0)) == arith::whole::<W>(0),
        0 < orig,
        0 < new,
        0 <= n,
        0 <= count,
        count <= input.len(),
        count + orig <= later.len(),
        forall|k: int| 0 <= k < orig ==> #[trigger] later[k] == arith::whole::<T>(0),
        forall|k: int| 0 <= k < count ==> #[trigger] later[k + orig] == input[k],
    ensures
        gathered::<T, W>(later, orig, new, width, n + new, count + orig) == gathered::<T, W>(
            input,
            orig,
            new,
            width,
            n,
            count,
        ),
    decreases count,
{
    if count == 0 {
        lemma_silence_adds_nothing::<T, W>(later, orig, new, width, n + new, 0, orig as int);
    } else {
        law_later_input_comes_out_later::<T, W>(input, later, orig, new, width, n, count - 1);
        vstd::arithmetic::div_mod::lemma_fundamental_div_mod(n, new as int);
        let q = n / new as int;
        let r = n % new as int;
        assert(n + new == (q + 1) * new + r) by (nonlinear_arith)
            requires
                n == new * q + r,
        ;
        vstd::arithmetic::div_mod::lemma_fundamental_div_mod_converse(
            n + new,
            new as int,
            q + 1,
            r,
        );
        assert((q + 1) * orig == q * orig + orig) by (nonlinear_arith);
        assert(later[count - 1 + orig] == input[count - 1]);
    }
}

/// The kernels reach as far as they are wide: as many input samples on either side as the zero
/// crossings of the band-limited kernel take. The ceiling of a number is not below it.
pub proof fn law_kernels_reach_their_width<W: Real>(orig: usize, new: usize, width: usize)
    requires
        forall|x: W| #[trigger] arith::at_most(x, arith::whole(arith::ceiling(x))),
    ensures
        arith::at_most(
            arith::over(
                arith::times(arith::count::<W>(width), arith::count(orig)),
                arith::times(
                    arith::fraction(99, 100),
                    arith::count(if orig < new { orig } else { new }),
                ),
            ),
            arith::whole(reach::<W>(orig, new, width) as i64),
        ),
{
}

/// A number of parts that hold `n` is the smallest that does, and exact where `n` divides evenly.
pub proof fn law_lengths_round_up(n: int, d: int)
    requires
        0 <= n,
        0 < d,
    ensures
        (ceil_div(n, d) - 1) * d < n <= ceil_div(n, d) * d || n == 0 && ceil_div(n, d) == 0,
        n % d == 0 ==> ceil_div(n, d) * d == n,
{
    let q = ceil_div(n, d);
    vstd::arithmetic::div_mod::lemma_fundamental_div_mod(n + d - 1, d);
    vstd::arithmetic::div_mod::lemma_mod_bound(n + d - 1, d);
    assert(q * d == d * q) by (nonlinear_arith);
    assert((q - 1) * d == d * q - d) by (nonlinear_arith);
    if n % d == 0 {
        vstd::arithmetic::div_mod::lemma_fundamental_div_mod(n, d);
        let p = n / d;
        assert(n + d - 1 == d * p + (d - 1));
        vstd::arithmetic::div_mod::lemma_fundamental_div_mod_converse(n + d - 1, d, p, d - 1);
        assert(q == p);
    }
}

} // verus!
