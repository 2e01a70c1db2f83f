//! The parts of the flow sampler that do not depend on the network: the skip connections, the
//! mirrored padding, the position and time tables, the time steps.

use vstd::prelude::*;
use crate::arith;
use crate::arith::Real;
use crate::arith::Wide;
use crate::spectra;

verus! {

/// Layers of the transformer.
pub const DEPTH: usize = 13;

/// Values of a head.
pub const HEAD_DIM: usize = 64;

/// Values of the embedding of a time.
pub const FREQ_EMB: usize = 256;

/// The layer whose output enters layer `i` once more: the layers of the upper half take those of
/// the lower half, the last first.
pub open spec fn skip_source(i: int) -> Option<int> {
    if i > 6 {
        Some(12 - i)
    } else {
        None
    }
}

/// For each layer, the layer whose output enters it once more. The layers of the lower half put
/// their outputs on a stack, from which those of the upper half take them.
pub fn skip_schedule() -> (v: Vec<Option<usize>>)
    ensures
        v.len() == DEPTH,
        forall|i: int|
            0 <= i < DEPTH ==> match #[trigger] v@[i] {
                Some(j) => skip_source(i) == Some(j as int),
                None => skip_source(i) is None,
            },
{
    let mut v: Vec<Option<usize>> = Vec::new();
    let mut stack: Vec<usize> = Vec::new();
    let mut i: usize = 0;
    while i < DEPTH
        invariant
            i <= DEPTH,
            v.len() == i,
            stack.len() == (if i <= 6 { i as int } else { 13 - i }),
            forall|k: int| 0 <= k < stack.len() ==> #[trigger] stack@[k] == k,
            forall|k: int|
                0 <= k < i ==> match #[trigger] v@[k] {
                    Some(j) => skip_source(k) == Some(j as int),
                    None => skip_source(k) is None,
                },
        decreases DEPTH - i,
    {
        if i > DEPTH / 2 {
            v.push(stack.pop());
        } else {
            v.push(None);
        }
        if i < DEPTH / 2 {
            stack.push(i);
        }
        i = i + 1;
    }
    v
}

/// The skips are a matching: each layer of the upper half has one of the lower half to itself.
pub proof fn law_skips_pair_the_halves(i: int, j: int)
    requires
        6 < i < DEPTH,
        6 < j < DEPTH,
    ensures
        skip_source(i) is Some,
        0 <= skip_source(i)->0 < 6,
        i != j ==> skip_source(i) != skip_source(j),
{
}

/// Two mirrored values on either side of a row, as a kernel of five needs.
pub fn reflect_pad2<T: Copy>(x: &Vec<T>) -> (p: Vec<T>)
    requires
        x.len() >= 3,
        x.len() + 4 <= usize::MAX,
    ensures
        p@ == seq![x@[2], x@[1]] + x@ + seq![x@[x.len() - 2], x@[x.len() - 3]],
        p@ == spectra::reflected(x@, 2),
{
    let p: Vec<T> = spectra::reflect_pad(x.as_slice(), 2);
    assert(p@ =~= seq![x@[2], x@[1]] + x@ + seq![x@[x.len() - 2], x@[x.len() - 3]]);
    p
}

/// The frequency `i` of the time embedding.
pub open spec fn time_frequency<T: Real, W: Wide<T>>(i: int) -> T {
    arith::narrowed::<T, W>(
        arith::exponential(
            arith::over(
                arith::times(
                    arith::negated(arith::logarithm(arith::whole(10_000))),
                    arith::count(i as usize),
                ),
                arith::count(128),
            ),
        ),
    )
}

/// The frequencies of the time embedding.
pub fn time_frequencies<T: Real, W: Wide<T>>() -> (f: Vec<T>)
    ensures
        f.len() == FREQ_EMB / 2,
        arith::wide_deterministic::<T, W>() ==> forall|i: int|
            0 <= i < f.len() ==> #[trigger] f@[i] == time_frequency::<T, W>(i),
{
    let mut f: Vec<T> = Vec::new();
    let mut i: usize = 0;
    while i < 128
        invariant
            i <= 128,
            f.len() == i,
            arith::wide_deterministic::<T, W>() ==> forall|k: int|
                0 <= k < i ==> #[trigger] f@[k] == time_frequency::<T, W>(k),
        decreases 128 - i,
    {
        f.push(
            W::whole(10_000).logarithm().negated().times(W::count(i)).over(
                W::count(128),
            ).exponential().narrowed(),
        );
        i = i + 1;
    }
    f
}

/// The rotation frequency `i`.
pub open spec fn rope_frequency<T: Real, W: Wide<T>>(i: int) -> T {
    arith::narrowed::<T, W>(
        arith::over(
            arith::whole(1),
            arith::power(
                arith::whole(10_000),
                arith::over(
                    arith::times(arith::whole(2), arith::count(i as usize)),
                    arith::count(64),
                ),
            ),
        ),
    )
}

/// The angle of position `p` at the rotation frequency `i`: formed in `T`, then widened.
pub open spec fn rope_angle<T: Real, W: Wide<T>>(p: int, i: int) -> W {
    arith::widened::<T, W>(
        arith::times(arith::count(p as usize), rope_frequency::<T, W>(i)),
    )
}

/// The cosines and sines of the rotations of the positions below `t_len`.
pub fn rope_tables<T: Real, W: Wide<T>>(t_len: usize) -> (r: (Vec<Vec<T>>, Vec<Vec<T>>))
    ensures
        r.0.len() == t_len,
        r.1.len() == t_len,
        forall|p: int| 0 <= p < t_len ==> (#[trigger] r.0@[p]).len() == 32,
        forall|p: int| 0 <= p < t_len ==> (#[trigger] r.1@[p]).len() == 32,
        arith::wide_deterministic::<T, W>() ==> forall|p: int, i: int|
            0 <= p < t_len && 0 <= i < 32 ==> #[trigger] r.0@[p]@[i] == arith::narrowed::<T, W>(
                arith::cosine(rope_angle::<T, W>(p, i)),
            ),
        arith::wide_deterministic::<T, W>() ==> forall|p: int, i: int|
            0 <= p < t_len && 0 <= i < 32 ==> #[trigger] r.1@[p]@[i] == arith::narrowed::<T, W>(
                arith::sine(rope_angle::<T, W>(p, i)),
            ),
{
    let mut cos: Vec<Vec<T>> = Vec::new();
    let mut sin: Vec<Vec<T>> = Vec::new();
    let mut p: usize = 0;
    while p < t_len
        invariant
            p <= t_len,
            cos.len() == p,
            sin.len() == p,
            forall|k: int| 0 <= k < p ==> (#[trigger] cos@[k]).len() == 32,
            forall|k: int| 0 <= k < p ==> (#[trigger] sin@[k]).len() == 32,
            arith::wide_deterministic::<T, W>() ==> forall|k: int, i: int|
                0 <= k < p && 0 <= i < 32 ==> #[trigger] cos@[k]@[i] == arith::narrowed::<T, W>(
                    arith::cosine(rope_angle::<T, W>(k, i)),
                ),
            arith::wide_deterministic::<T, W>() ==> forall|k: int, i: int|
                0 <= k < p && 0 <= i < 32 ==> #[trigger] sin@[k]@[i] == arith::narrowed::<T, W>(
                    arith::sine(rope_angle::<T, W>(k, i)),
                ),
        decreases t_len - p,
    {
        let mut cs: Vec<T> = Vec::new();
        let mut ss: Vec<T> = Vec::new();
        let mut i: usize = 0;
        while i < 32
            invariant
                i <= 32,
                cs.len() == i,
                ss.len() == i,
                arith::wide_deterministic::<T, W>() ==> forall|k: int|
                    0 <= k < i ==> #[trigger] cs@[k] == arith::narrowed::<T, W>(
                        arith::cosine(rope_angle::<T, W>(p as int, k)),
                    ),
                arith::wide_deterministic::<T, W>() ==> forall|k: int|
                    0 <= k < i ==> #[trigger] ss@[k] == arith::narrowed::<T, W>(
                        arith::sine(rope_angle::<T, W>(p as int, k)),
                    ),
            decreases 32 - i,
        {
            let f: T = W::whole(1).over(
                W::whole(10_000).power(W::whole(2).times(W::count(i)).over(W::count(64))),
            ).narrowed();
            let a: W = W::widened(T::count(p).times(f));
            cs.push(a.cosine().narrowed());
            ss.push(a.sine().narrowed());
            i = i + 1;
        }
        cos.push(cs);
        sin.push(ss);
        p = p + 1;
    }
    (cos, sin)
}

/// The point `i` of a uniform grid of `n` steps from 0 to 1.
pub open spec fn grid_time<T: Real, W: Wide<T>>(i: int, n: int) -> T {
    arith::narrowed::<T, W>(
        arith::over(arith::count::<W>(i as usize), arith::count(n as usize)),
    )
}

/// The length of step `i`, counted from zero.
pub open spec fn step_length<T: Real, W: Wide<T>>(i: int, n: int) -> T {
    arith::minus(grid_time::<T, W>(i + 1, n), grid_time::<T, W>(i, n))
}

/// The time at step `i`: the lengths of the steps before it, added up.
pub open spec fn step_time<T: Real, W: Wide<T>>(i: int, n: int) -> T
    decreases i,
{
    if i <= 0 {
        grid_time::<T, W>(0, n)
    } else {
        arith::plus(step_time::<T, W>(i - 1, n), step_length::<T, W>(i - 1, n))
    }
}

/// The times and the lengths of `n` steps from 0 to 1.
pub fn time_steps<T: Real, W: Wide<T>>(n: usize) -> (v: Vec<(T, T)>)
    requires
        n < usize::MAX,
    ensures
        v.len() == n,
        arith::wide_deterministic::<T, W>() ==> forall|i: int|
            0 <= i < n ==> #[trigger] v@[i] == (
                step_time::<T, W>(i, n as int),
                step_length::<T, W>(i, n as int),
            ),
{
    let mut v: Vec<(T, T)> = Vec::new();
    let mut t: T = W::count(0).over(W::count(n)).narrowed();
    let mut i: usize = 0;
    while i < n
        invariant
            i <= n < usize::MAX,
            v.len() == i,
            arith::wide_deterministic::<T, W>() ==> t == step_time::<T, W>(i as int, n as int),
            arith::wide_deterministic::<T, W>() ==> forall|k: int|
                0 <= k < i ==> #[trigger] v@[k] == (
                    step_time::<T, W>(k, n as int),
                    step_length::<T, W>(k, n as int),
                ),
        decreases n - i,
    {
        let next: T = W::count(i + 1).over(W::count(n)).narrowed();
        let here: T = W::count(i).over(W::count(n)).narrowed();
        let dt: T = next.minus(here);
        v.push((t, dt));
        t = t.plus(dt);
        i = i + 1;
    }
    v
}

/// The skips are nested: a layer and the one whose output it takes stand as far from the middle
/// layer, so that a later layer takes an earlier one; the layers up to the middle take none.
pub proof fn law_skips_are_nested(i: int, j: int)
    requires
        0 <= i < j < DEPTH,
    ensures
        i <= 6 ==> skip_source(i) is None,
        6 < i ==> skip_source(i) is Some && i - 6 == 6 - skip_source(i)->0,
        6 < i ==> skip_source(j)->0 < skip_source(i)->0,
{
}

/// The frequencies of the time embedding start at one and fall by the same factor from place to
/// place, to a ten-thousandth behind the last one.
pub proof fn law_time_frequencies_fall<T: Real, W: Wide<T>>(i: int)
    requires
        arith::neutral::<W>(),
        0 <= i < 128,
        ({
            let down = arith::negated(arith::logarithm(arith::whole::<W>(10_000)));
            &&& arith::count::<W>(0) == arith::whole::<W>(0)
            &&& arith::over(arith::whole::<W>(0), arith::count(128)) == arith::whole::<W>(0)
            &&& arith::over(arith::times(down, arith::count(128)), arith::count(128)) == down
            &&& arith::exponential(arith::whole::<W>(0)) == arith::whole::<W>(1)
            &&& arith::exponential(down) == arith::fraction::<W>(1, 10_000)
            &&& arith::exponential(
                arith::over(
                    arith::times(down, arith::count((i + 1) as usize)),
                    arith::count(128),
                ),
            ) == arith::times(
                arith::exponential(
                    arith::over(arith::times(down, arith::count(i as usize)), arith::count(128)),
                ),
                arith::exponential(arith::over(down, arith::count(128))),
            )
        }),
        forall|a: W, b: W|
            #[trigger] arith::narrowed::<T, W>(arith::times(a, b)) == arith::times(
                arith::narrowed::<T, W>(a),
                arith::narrowed::<T, W>(b),
            ),
    ensures
        time_frequency::<T, W>(0) == arith::narrowed::<T, W>(arith::whole(1)),
        time_frequency::<T, W>(128) == arith::narrowed::<T, W>(arith::fraction(1, 10_000)),
        time_frequency::<T, W>(i + 1) == arith::times(
            time_frequency::<T, W>(i),
            arith::narrowed::<T, W>(
                arith::exponential(
                    arith::over(
                        arith::negated(arith::logarithm(arith::whole::<W>(10_000))),
                        arith::count(128),
                    ),
                ),
            ),
        ),
{
}

/// The rotation frequencies start at one and come to a hundredth at the middle place; a position
/// turns by its number times the frequency of its place, so that the first one does not turn.
pub proof fn law_rotations_go_with_the_position<T: Real, W: Wide<T>>(p: int, i: int)
    requires
        arith::neutral::<T>(),
        arith::neutral::<W>(),
        0 <= p <= usize::MAX,
        0 <= i < 32,
        arith::count::<T>(0) == arith::whole::<T>(0),
        arith::count::<T>(1) == arith::whole::<T>(1),
        arith::count::<W>(0) == arith::whole::<W>(0),
        arith::over(arith::whole::<W>(0), arith::count(64)) == arith::whole::<W>(0),
        arith::over(arith::times(arith::whole::<W>(2), arith::count(16)), arith::count(64))
            == arith::fraction::<W>(1, 2),
        arith::power(arith::whole::<W>(10_000), arith::whole(0)) == arith::whole::<W>(1),
        arith::power(arith::whole::<W>(10_000), arith::fraction(1, 2)) == arith::whole::<W>(100),
        arith::narrowed::<T, W>(arith::whole(1)) == arith::whole::<T>(1),
    ensures
        rope_frequency::<T, W>(0) == arith::whole::<T>(1),
        rope_frequency::<T, W>(16) == arith::narrowed::<T, W>(
            arith::over(arith::whole(1), arith::whole(100)),
        ),
        rope_angle::<T, W>(0, i) == arith::widened::<T, W>(arith::whole(0)),
        rope_angle::<T, W>(1, i) == arith::widened::<T, W>(rope_frequency::<T, W>(i)),
        rope_angle::<T, W>(p, 0) == arith::widened::<T, W>(arith::count(p as usize)),
{
}

/// The rotation frequencies fall by the same factor from place to place.
pub proof fn law_rotation_frequencies_fall<T: Real, W: Wide<T>>(i: int)
    requires
        0 <= i < 31,
        ({
            let at = |k: int|
                arith::over(
                    arith::whole::<W>(1),
                    arith::power(
                        arith::whole(10_000),
                        arith::over(
                            arith::times(arith::whole(2), arith::count(k as usize)),
                            arith::count(64),
                        ),
                    ),
                );
            let less = arith::over(
                arith::whole::<W>(1),
                arith::power(
                    arith::whole(10_000),
                    arith::over(arith::whole(2), arith::count(64)),
                ),
            );
            at(i + 1) == arith::times(at(i), less)
        }),
        forall|a: W, b: W|
            #[trigger] arith::narrowed::<T, W>(arith::times(a, b)) == arith::times(
                arith::narrowed::<T, W>(a),
                arith::narrowed::<T, W>(b),
            ),
    ensures
        rope_frequency::<T, W>(i + 1) == arith::times(
            rope_frequency::<T, W>(i),
            arith::narrowed::<T, W>(
                arith::over(
                    arith::whole(1),
                    arith::power(
                        arith::whole(10_000),
                        arith::over(arith::whole(2), arith::count(64)),
                    ),
                ),
            ),
        ),
{
}

/// The steps lead along an even grid from zero to one: in exact arithmetic the time at a step is
/// that of the grid, which starts at zero, ends at one, and does not depend on how finely the same
/// point is counted.
pub proof fn law_steps_lead_along_the_grid<T: Real, W: Wide<T>>(i: int, n: int, k: int)
    requires
        0 <= i <= n <= usize::MAX,
        0 < k,
        k * n <= usize::MAX,
        forall|a: T, b: T| arith::plus(a, #[trigger] arith::minus(b, a)) == b,
        arith::over(arith::count::<W>(0), arith::count(n as usize)) == arith::whole::<W>(0),
        arith::over(arith::count::<W>(n as usize), arith::count(n as usize)) == arith::whole::<W>(
            1,
        ),
        arith::over(arith::count::<W>((k * i) as usize), arith::count((k * n) as usize))
            == arith::over(arith::count::<W>(i as usize), arith::count(n as usize)),
    ensures
        grid_time::<T, W>(0, n) == arith::narrowed::<T, W>(arith::whole(0)),
        grid_time::<T, W>(n, n) == arith::narrowed::<T, W>(arith::whole(1)),
        grid_time::<T, W>(k * i, k * n) == grid_time::<T, W>(i, n),
        step_time::<T, W>(i, n) == grid_time::<T, W>(i, n),
        arith::plus(step_time::<T, W>(i, n), step_length::<T, W>(i, n)) == grid_time::<T, W>(
            i + 1,
            n,
        ),
{
    lemma_times_are_of_the_grid::<T, W>(i, n);
}

/// The time at a step is that of the grid.
proof fn lemma_times_are_of_the_grid<T: Real, W: Wide<T>>(i: int, n: int)
    requires
        0 <= i,
        forall|a: T, b: T| arith::plus(a, #[trigger] arith::minus(b, a)) == b,
    ensures
        step_time::<T, W>(i, n) == grid_time::<T, W>(i, n),
    decreases i,
{
    if i > 0 {
        lemma_times_are_of_the_grid::<T, W>(i - 1, n);
    }
}

} // verus!
