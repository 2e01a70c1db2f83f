//! The time embedding of the velocity estimator.

use vstd::prelude::*;
use crate::arith;
use crate::arith::Real;
use crate::arith::Wide;

verus! {

/// Values of the embedding.
pub const IN_CH: usize = 320;

/// Mel frames of a streaming chunk.
pub const CHUNK_FRAMES: usize = 50;

/// The angle of the time `t` at frequency `i`.
pub open spec fn time_angle<T: Real, W: Wide<T>>(t: T, i: int) -> W {
    let base = arith::over(
        arith::logarithm(arith::whole::<W>(10_000)),
        arith::count(159),
    );
    arith::times(
        arith::times(arith::whole(1_000), arith::widened::<T, W>(t)),
        arith::exponential(arith::times(arith::negated(arith::count(i as usize)), base)),
    )
}

/// The embedding of the time `t`: the sines of 160 angles, then their cosines.
pub fn time_embedding<T: Real, W: Wide<T>>(t: T) -> (e: Vec<T>)
    ensures
        e.len() == IN_CH,
        arith::wide_deterministic::<T, W>() ==> forall|i: int|
            0 <= i < IN_CH ==> #[trigger] e@[i] == arith::narrowed::<T, W>(
                if i < 160 {
                    arith::sine(time_angle::<T, W>(t, i))
                } else {
                    arith::cosine(time_angle::<T, W>(t, i - 160))
                },
            ),
{
    let base: W = W::whole(10_000).logarithm().over(W::count(159));
    let mut e: Vec<T> = Vec::new();
    let mut i: usize = 0;
    while i < IN_CH
        invariant
            i <= IN_CH,
            arith::wide_deterministic::<T, W>() ==> base == arith::over(
                arith::logarithm(arith::whole::<W>(10_000)),
                arith::count(159),
            ),
            e.len() == i,
            arith::wide_deterministic::<T, W>() ==> forall|k: int|
                0 <= k < i ==> #[trigger] e@[k] == arith::narrowed::<T, W>(
                    if k < 160 {
                        arith::sine(time_angle::<T, W>(t, k))
                    } else {
                        arith::cosine(time_angle::<T, W>(t, k - 160))
                    },
                ),
        decreases IN_CH - i,
    {
        let k: usize = if i < 160 { i } else { i - 160 };
        let f: W = W::count(k).negated().times(base).exponential();
        let ang: W = W::whole(1_000).times(W::widened(t)).times(f);
        if i < 160 {
            e.push(ang.sine().narrowed());
        } else {
            e.push(ang.cosine().narrowed());
        }
        i = i + 1;
    }
    e
}

/// The angles fall over the places from a thousand times the time to a tenth of it, and at time
/// zero there are none. An exponential has to undo the logarithm, as in exact arithmetic.
pub proof fn law_angles_fall_with_their_place<T: Real, W: Wide<T>>(t: T, i: int)
    requires
        arith::neutral::<W>(),
        0 <= i < 160,
        ({
            let whole = arith::logarithm(arith::whole::<W>(10_000));
            let base = arith::over(whole, arith::count(159));
            &&& arith::times(arith::negated(arith::count(0)), base) == arith::whole::<W>(0)
            &&& arith::times(arith::negated(arith::count(159)), base) == arith::negated(whole)
            &&& arith::exponential(arith::whole::<W>(0)) == arith::whole::<W>(1)
            &&& arith::exponential(arith::negated(whole)) == arith::fraction::<W>(1, 10_000)
        }),
    ensures
        ({
            let ms = arith::times(arith::whole(1_000), arith::widened::<T, W>(t));
            &&& time_angle::<T, W>(t, 0) == ms
            &&& time_angle::<T, W>(t, 159) == arith::times(ms, arith::fraction(1, 10_000))
            &&& arith::widened::<T, W>(t) == arith::whole::<W>(0) ==> time_angle::<T, W>(t, i)
                == arith::whole::<W>(0)
        }),
{
}

/// One place on, an angle is smaller by the same factor everywhere.
pub proof fn law_angles_fall_evenly<T: Real, W: Wide<T>>(t: T, i: int)
    requires
        0 <= i < 159,
        ({
            let base = arith::over(
                arith::logarithm(arith::whole::<W>(10_000)),
                arith::count(159),
            );
            let at = |k: int|
                arith::exponential(arith::times(arith::negated(arith::count(k as usize)), base));
            let less = arith::exponential(arith::negated(base));
            &&& at(i + 1) == arith::times(at(i), less)
            &&& forall|a: W, b: W, c: W|
                #[trigger] arith::times(a, arith::times(b, c)) == arith::times(
                    arith::times(a, b),
                    c,
                )
        }),
    ensures
        time_angle::<T, W>(t, i + 1) == arith::times(
            time_angle::<T, W>(t, i),
            arith::exponential(
                arith::negated(
                    arith::over(arith::logarithm(arith::whole::<W>(10_000)), arith::count(159)),
                ),
            ),
        ),
{
}

} // verus!
