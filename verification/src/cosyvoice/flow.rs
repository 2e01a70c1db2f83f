//! The parts of the flow that do not depend on the network: the time steps, the noise it starts
//! from, the length of the prompt.

use vstd::prelude::*;
use crate::arith;
use crate::arith::Real;
use crate::buffers::copied;
use crate::buffers::part;

verus! {

/// Steps of the flow.
pub const N_TIMESTEPS: usize = 10;

/// Frames of the noise that the flow starts from.
pub const NOISE_FRAMES: usize = 15_000;

/// Mel frames for each token.
pub const TOKEN_MEL_RATIO: usize = 2;

/// The point `i` of the time grid: dense at the start, as a cosine is.
pub open spec fn cosine_time<W: Real>(i: int) -> W {
    arith::minus(
        arith::whole(1),
        arith::cosine(
            arith::times(
                arith::over(arith::count(i as usize), arith::count(10)),
                arith::over(arith::pi::<W>(), arith::whole(2)),
            ),
        ),
    )
}

/// The point `i` of the time grid.
fn cosine_time_at<W: Real>(i: usize) -> (t: W)
    ensures
        arith::deterministic::<W>() ==> t == cosine_time::<W>(i as int),
{
    W::whole(1).minus(
        W::count(i).over(W::count(10)).times(W::pi().over(W::whole(2))).cosine(),
    )
}

/// The times of the ten steps, and their lengths.
pub fn cosine_steps<W: Real>() -> (v: Vec<(W, W)>)
    ensures
        v.len() == N_TIMESTEPS,
        arith::deterministic::<W>() ==> forall|i: int|
            0 <= i < N_TIMESTEPS ==> #[trigger] v@[i] == (
                cosine_time::<W>(i),
                arith::minus(cosine_time::<W>(i + 1), cosine_time::<W>(i)),
            ),
{
    let mut v: Vec<(W, W)> = Vec::new();
    let mut i: usize = 0;
    while i < N_TIMESTEPS
        invariant
            i <= N_TIMESTEPS,
            v.len() == i,
            arith::deterministic::<W>() ==> forall|k: int|
                0 <= k < i ==> #[trigger] v@[k] == (
                    cosine_time::<W>(k),
                    arith::minus(cosine_time::<W>(k + 1), cosine_time::<W>(k)),
                ),
        decreases N_TIMESTEPS - i,
    {
        let t: W = cosine_time_at(i);
        let next: W = cosine_time_at(i + 1);
        v.push((t, next.minus(t)));
        i = i + 1;
    }
    v
}

/// The first `len` frames of the noise.
pub fn initial_noise<T: Copy>(noise: &Vec<Vec<T>>, len: usize) -> (x: Option<Vec<Vec<T>>>)
    requires
        forall|m: int| 0 <= m < noise.len() ==> (#[trigger] noise@[m]).len() == NOISE_FRAMES,
    ensures
        x is Some <==> len <= NOISE_FRAMES,
        x is Some ==> x->0.len() == noise.len() && forall|m: int|
            0 <= m < noise.len() ==> (#[trigger] x->0@[m])@ == noise@[m]@.take(len as int),
{
    if len > NOISE_FRAMES {
        return None;
    }
    let mut x: Vec<Vec<T>> = Vec::new();
    let mut m: usize = 0;
    while m < noise.len()
        invariant
            len <= NOISE_FRAMES,
            forall|k: int| 0 <= k < noise.len() ==> (#[trigger] noise@[k]).len() == NOISE_FRAMES,
            m <= noise.len(),
            x.len() == m,
            forall|k: int| 0 <= k < m ==> (#[trigger] x@[k])@ == noise@[k]@.take(len as int),
        decreases noise.len() - m,
    {
        let row: Vec<T> = part(noise[m].as_slice(), 0, len);
        assert(row@ =~= noise@[m as int]@.take(len as int));
        x.push(row);
        m = m + 1;
    }
    Some(x)
}

/// The frames of a prompt brought to twice as many as it has tokens: cut, or filled up with the
/// last frame.
pub fn snap_frames<T: Copy>(feat: &Vec<Vec<T>>, tokens: usize) -> (out: Vec<Vec<T>>)
    requires
        tokens * TOKEN_MEL_RATIO <= usize::MAX,
        feat.len() > 0 || tokens == 0,
    ensures
        out.len() == tokens * TOKEN_MEL_RATIO,
        forall|i: int|
            0 <= i < out.len() ==> (#[trigger] out@[i])@ == feat@[if i < feat.len() {
                i
            } else {
                feat.len() - 1
            }]@,
{
    let want: usize = tokens * TOKEN_MEL_RATIO;
    let mut out: Vec<Vec<T>> = Vec::new();
    let mut i: usize = 0;
    while i < want
        invariant
            want > 0 ==> feat.len() > 0,
            i <= want,
            out.len() == i,
            forall|k: int|
                0 <= k < i ==> (#[trigger] out@[k])@ == feat@[if k < feat.len() {
                    k
                } else {
                    feat.len() - 1
                }]@,
        decreases want - i,
    {
        let at: usize = if i < feat.len() { i } else { feat.len() - 1 };
        out.push(copied(feat[at].as_slice()));
        i = i + 1;
    }
    out
}

/// The time grid goes from zero to one over its ten steps and never back. The cosine has to fall
/// from one at zero to zero at a quarter turn, as in exact arithmetic.
pub proof fn law_time_goes_from_zero_to_one<W: Real>(i: int, j: int)
    requires
        arith::neutral::<W>(),
        0 <= i <= j <= 10,
        arith::count::<W>(0) == arith::whole::<W>(0),
        arith::over(arith::whole::<W>(0), arith::count(10)) == arith::whole::<W>(0),
        arith::over(arith::count::<W>(10), arith::count(10)) == arith::whole::<W>(1),
        arith::cosine(arith::whole::<W>(0)) == arith::whole::<W>(1),
        arith::cosine(arith::over(arith::pi::<W>(), arith::whole(2))) == arith::whole::<W>(0),
        forall|a: usize, b: usize|
            #![trigger arith::over(arith::count::<W>(a), arith::count(10)), arith::over(arith::count::<W>(b), arith::count(10))]
            a <= b <= 10 ==> arith::at_most(
                arith::cosine(
                    arith::times(
                        arith::over(arith::count(b), arith::count(10)),
                        arith::over(arith::pi::<W>(), arith::whole(2)),
                    ),
                ),
                arith::cosine(
                    arith::times(
                        arith::over(arith::count(a), arith::count(10)),
                        arith::over(arith::pi::<W>(), arith::whole(2)),
                    ),
                ),
            ),
        forall|x: W, y: W|
            #![trigger arith::minus(arith::whole::<W>(1), x), arith::minus(arith::whole::<W>(1), y)]
            arith::at_most(x, y) ==> arith::at_most(
                arith::minus(arith::whole(1), y),
                arith::minus(arith::whole(1), x),
            ),
    ensures
        cosine_time::<W>(0) == arith::whole::<W>(0),
        cosine_time::<W>(10) == arith::whole::<W>(1),
        arith::at_most(cosine_time::<W>(i), cosine_time::<W>(j)),
{
    let a = arith::over(arith::count::<W>(i as usize), arith::count(10));
    let b = arith::over(arith::count::<W>(j as usize), arith::count(10));
}

} // verus!
