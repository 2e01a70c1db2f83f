//! Embeddings of time for the decoder.

use vstd::prelude::*;
use crate::arith;
use crate::arith::Real;

verus! {

/// The angle of the time `t` at frequency `i` of `half`.
pub open spec fn angle<T: Real>(t: T, i: int, half: int) -> T {
    let frequency = arith::exponential(
        arith::over(
            arith::times(
                arith::negated(arith::logarithm(arith::whole::<T>(10_000))),
                arith::count(i as usize),
            ),
            arith::count(half as usize),
        ),
    );
    arith::times(t, arith::times(frequency, arith::whole(1_000)))
}

/// The embedding of a time: the cosines of the angles, then their sines.
pub open spec fn embedded<T: Real>(t: T, half: int) -> Seq<T> {
    Seq::new(
        (2 * half) as nat,
        |i: int|
            if i < half {
                arith::cosine(angle(t, i, half))
            } else {
                arith::sine(angle(t, i - half, half))
            },
    )
}

/// The embeddings of the times `t` in `dim` values each, or one less where `dim` is odd.
pub fn sinusoidal_embedding<T: Real>(t: &[T], dim: usize) -> (e: Vec<Vec<T>>)
    ensures
        e.len() == t.len(),
        forall|b: int| 0 <= b < e.len() ==> (#[trigger] e@[b]).len() == 2 * (dim / 2),
        arith::deterministic::<T>() ==> forall|b: int|
            0 <= b < e.len() ==> (#[trigger] e@[b])@ == embedded(t@[b], dim as int / 2),
{
    let half: usize = dim / 2;
    let mut e: Vec<Vec<T>> = Vec::new();
    let mut b: usize = 0;
    while b < t.len()
        invariant
            half == dim / 2,
            b <= t.len(),
            e.len() == b,
            forall|k: int| 0 <= k < b ==> (#[trigger] e@[k]).len() == 2 * half,
            arith::deterministic::<T>() ==> forall|k: int|
                0 <= k < b ==> (#[trigger] e@[k])@ == embedded(t@[k], half as int),
        decreases t.len() - b,
    {
        let mut row: Vec<T> = Vec::new();
        let mut i: usize = 0;
        while i < 2 * half
            invariant
                half == dim / 2,
                b < t.len(),
                i <= 2 * half,
                row.len() == i,
                arith::deterministic::<T>() ==> forall|k: int|
                    0 <= k < i ==> #[trigger] row@[k] == embedded(t@[b as int], half as int)[k],
            decreases 2 * half - i,
        {
            let k: usize = if i < half { i } else { i - half };
            let f: T = T::whole(10_000).logarithm().negated().times(T::count(k)).over(
                T::count(half),
            ).exponential();
            let a: T = t[b].times(f.times(T::whole(1_000)));
            if i < half {
                row.push(a.cosine());
            } else {
                row.push(a.sine());
            }
            i = i + 1;
        }
        proof {
            if arith::deterministic::<T>() {
                assert(row@ =~= embedded(t@[b as int], half as int));
            }
        }
        e.push(row);
        b = b + 1;
    }
    e
}

/// The angles fall over the places from a thousand times the time, and would come to a tenth of it
/// at the place behind the last; at time zero there are none.
pub proof fn law_angles_fall_with_their_place<T: Real>(t: T, i: int, half: int)
    requires
        arith::neutral::<T>(),
        0 <= i < half <= usize::MAX,
        ({
            let down = arith::negated(arith::logarithm(arith::whole::<T>(10_000)));
            let n = arith::count::<T>(half as usize);
            &&& arith::count::<T>(0) == arith::whole::<T>(0)
            &&& arith::over(arith::whole::<T>(0), n) == arith::whole::<T>(0)
            &&& arith::over(arith::times(down, n), n) == down
            &&& arith::exponential(arith::whole::<T>(0)) == arith::whole::<T>(1)
            &&& arith::exponential(down) == arith::fraction::<T>(1, 10_000)
            &&& arith::times(arith::fraction::<T>(1, 10_000), arith::whole(1_000))
                == arith::fraction::<T>(1, 10)
        }),
    ensures
        angle(t, 0, half) == arith::times(t, arith::whole(1_000)),
        angle(t, half, half) == arith::times(t, arith::fraction(1, 10)),
        t == arith::whole::<T>(0) ==> angle(t, i, half) == arith::whole::<T>(0),
{
}

/// One place on, an angle is smaller by the same factor everywhere.
pub proof fn law_angles_fall_evenly<T: Real>(t: T, i: int, half: int)
    requires
        0 <= i < half <= usize::MAX,
        ({
            let down = arith::negated(arith::logarithm(arith::whole::<T>(10_000)));
            let n = arith::count::<T>(half as usize);
            let at = |k: int|
                arith::exponential(
                    arith::over(arith::times(down, arith::count(k as usize)), n),
                );
            let less = arith::exponential(arith::over(down, n));
            &&& at(i + 1) == arith::times(at(i), less)
            &&& forall|x: T|
                #[trigger] arith::times(
                    t,
                    arith::times(arith::times(x, less), arith::whole(1_000)),
                ) == arith::times(arith::times(t, arith::times(x, arith::whole(1_000))), less)
        }),
    ensures
        angle(t, i + 1, half) == arith::times(
            angle(t, i, half),
            arith::exponential(
                arith::over(
                    arith::negated(arith::logarithm(arith::whole::<T>(10_000))),
                    arith::count(half as usize),
                ),
            ),
        ),
{
}

/// An embedding holds the cosines, then the sines, of the same angles: a place of the first half
/// and that of the second half belong together, and time zero has ones before zeros.
pub proof fn law_cosines_stand_before_sines<T: Real>(t: T, half: int, i: int)
    requires
        arith::neutral::<T>(),
        0 <= i < half <= usize::MAX,
        arith::cosine(arith::whole::<T>(0)) == arith::whole::<T>(1),
        arith::sine(arith::whole::<T>(0)) == arith::whole::<T>(0),
        forall|x: T|
            arith::plus(
                arith::times(#[trigger] arith::cosine(x), arith::cosine(x)),
                arith::times(arith::sine(x), arith::sine(x)),
            ) == arith::whole::<T>(1),
    ensures
        ({
            let e = embedded(t, half);
            &&& e.len() == 2 * half
            &&& e[i] == arith::cosine(angle(t, i, half))
            &&& e[half + i] == arith::sine(angle(t, i, half))
            &&& arith::plus(arith::times(e[i], e[i]), arith::times(e[half + i], e[half + i]))
                == arith::whole::<T>(1)
            &&& t == arith::whole::<T>(0) ==> e[i] == arith::whole::<T>(1)
            &&& t == arith::whole::<T>(0) ==> e[half + i] == arith::whole::<T>(0)
        }),
{
}

} // verus!
