//! Mean flows: the path between data and noise, and what the decoder is trained towards.
//!
//! The decoder predicts the average velocity over an interval of time. Its target is the
//! velocity of the path, less the length of the interval times the rate at which the prediction
//! changes along the path. Tables hold one row for each example of a batch.

use vstd::prelude::*;
use vstd::string::StringExecFns;
use crate::arith;
use crate::arith::Real;
use crate::arith::Wide;
use crate::error;
use crate::error::Error;
use crate::ode;
use crate::text;

verus! {

/// How the rate of change of a prediction is computed.
#[derive(Clone, Copy)]
pub enum JvpMode<W> {
    /// Exactly, by differentiation.
    Exact,
    /// As a difference quotient with the given step.
    FiniteDifference(W),
}

impl<W> Default for JvpMode<W> {
    /// Exactly.
    fn default() -> (m: Self)
        ensures
            m is Exact,
    {
        JvpMode::Exact
    }
}

/// The ends of an interval that the draws `a` and `b` give: the lower one moves up to the upper
/// one where the draw `c` is below `ratio`.
pub open spec fn interval<T: Real>(a: T, b: T, c: T, ratio: T) -> (T, T) {
    let t = arith::larger(a, b);
    (
        if arith::below(c, ratio) {
            t
        } else {
            arith::smaller(a, b)
        },
        t,
    )
}

/// The ends of an interval.
pub fn ends<T: Real>(a: T, b: T, c: T, ratio: T) -> (rt: (T, T))
    ensures
        arith::deterministic::<T>() ==> rt == interval(a, b, c, ratio),
{
    let t: T = a.larger(b);
    if c.below(ratio) {
        (t, t)
    } else {
        (a.smaller(b), t)
    }
}

/// An interval does not end before it starts, for draws that compare as numbers do: the larger
/// one is at most itself and not below the first, and the smaller one not above it.
pub proof fn law_intervals_are_ordered<T: Real>(a: T, b: T, c: T, ratio: T)
    requires
        arith::at_most(arith::larger(a, b), arith::larger(a, b)),
        arith::at_most(a, arith::larger(a, b)),
        arith::at_most(arith::smaller(a, b), a),
        forall|x: T, y: T, z: T|
            #[trigger] arith::at_most(x, y) && #[trigger] arith::at_most(y, z) ==> arith::at_most(
                x,
                z,
            ),
    ensures
        arith::at_most(interval(a, b, c, ratio).0, interval(a, b, c, ratio).1),
{
}

/// The point of the path at time `t`.
pub open spec fn path_at<T: Real>(x: T, noise: T, t: T) -> T {
    arith::plus(
        arith::times(x, arith::minus(arith::whole(1), t)),
        arith::times(noise, t),
    )
}

/// The target: the velocity of the path less the rate of change over the interval.
pub open spec fn target_at<T: Real>(v: T, rate: T, r: T, t: T) -> T {
    arith::minus(v, arith::times(rate, arith::minus(t, r)))
}

/// A table made out of two tables, value by value, with a number for each row.
pub open spec fn combined<T>(
    out: Seq<Vec<T>>,
    a: Seq<Vec<T>>,
    b: Seq<Vec<T>>,
    f: spec_fn(T, T, int) -> T,
) -> bool {
    forall|m: int, i: int|
        0 <= m < out.len() && 0 <= i < a[m].len() ==> #[trigger] out[m]@[i] == f(
            a[m]@[i],
            b[m]@[i],
            m,
        )
}

/// The points of the path between the data `x` and the noise at the times `t`.
pub fn path<T: Real>(x: &Vec<Vec<T>>, noise: &Vec<Vec<T>>, t: &Vec<T>) -> (z: Vec<Vec<T>>)
    requires
        ode::same_shape(x@, noise@),
        t.len() == x.len(),
    ensures
        ode::same_shape(z@, x@),
        arith::deterministic::<T>() ==> combined(
            z@,
            x@,
            noise@,
            |a: T, b: T, m: int| path_at(a, b, t@[m]),
        ),
{
    let mut z: Vec<Vec<T>> = Vec::new();
    let mut m: usize = 0;
    while m < x.len()
        invariant
            ode::same_shape(x@, noise@),
            t.len() == x.len(),
            m <= x.len(),
            z.len() == m,
            forall|k: int| 0 <= k < m ==> (#[trigger] z@[k]).len() == x@[k].len(),
            arith::deterministic::<T>() ==> forall|k: int, i: int|
                0 <= k < m && 0 <= i < x@[k].len() ==> #[trigger] z@[k]@[i] == path_at(
                    x@[k]@[i],
                    noise@[k]@[i],
                    t@[k],
                ),
        decreases x.len() - m,
    {
        let a: &Vec<T> = &x[m];
        let b: &Vec<T> = &noise[m];
        let rest: T = T::whole(1).minus(t[m]);
        let mut row: Vec<T> = Vec::new();
        let mut i: usize = 0;
        while i < a.len()
            invariant
                i <= a.len() == b.len(),
                m < t.len(),
                arith::deterministic::<T>() ==> rest == arith::minus(
                    arith::whole(1),
                    t@[m as int],
                ),
                row.len() == i,
                arith::deterministic::<T>() ==> forall|k: int|
                    0 <= k < i ==> #[trigger] row@[k] == path_at(a@[k], b@[k], t@[m as int]),
            decreases a.len() - i,
        {
            row.push(a[i].times(rest).plus(b[i].times(t[m])));
            i = i + 1;
        }
        z.push(row);
        m = m + 1;
    }
    z
}

/// The difference of two tables.
pub fn difference<T: Real>(a: &Vec<Vec<T>>, b: &Vec<Vec<T>>) -> (d: Vec<Vec<T>>)
    requires
        ode::same_shape(a@, b@),
    ensures
        ode::same_shape(d@, a@),
        arith::deterministic::<T>() ==> combined(
            d@,
            a@,
            b@,
            |p: T, q: T, m: int| arith::minus(p, q),
        ),
{
    let mut d: Vec<Vec<T>> = Vec::new();
    let mut m: usize = 0;
    while m < a.len()
        invariant
            ode::same_shape(a@, b@),
            m <= a.len(),
            d.len() == m,
            forall|k: int| 0 <= k < m ==> (#[trigger] d@[k]).len() == a@[k].len(),
            arith::deterministic::<T>() ==> forall|k: int, i: int|
                0 <= k < m && 0 <= i < a@[k].len() ==> #[trigger] d@[k]@[i] == arith::minus(
                    a@[k]@[i],
                    b@[k]@[i],
                ),
        decreases a.len() - m,
    {
        let p: &Vec<T> = &a[m];
        let q: &Vec<T> = &b[m];
        let mut row: Vec<T> = Vec::new();
        let mut i: usize = 0;
        while i < p.len()
            invariant
                i <= p.len() == q.len(),
                row.len() == i,
                arith::deterministic::<T>() ==> forall|k: int|
                    0 <= k < i ==> #[trigger] row@[k] == arith::minus(p@[k], q@[k]),
            decreases p.len() - i,
        {
            row.push(p[i].minus(q[i]));
            i = i + 1;
        }
        d.push(row);
        m = m + 1;
    }
    d
}

/// The velocity of the path: from the data to the noise.
pub fn velocity<T: Real>(x: &Vec<Vec<T>>, noise: &Vec<Vec<T>>) -> (v: Vec<Vec<T>>)
    requires
        ode::same_shape(x@, noise@),
    ensures
        ode::same_shape(v@, x@),
        arith::deterministic::<T>() ==> combined(
            v@,
            x@,
            noise@,
            |a: T, b: T, m: int| arith::minus(b, a),
        ),
{
    difference(noise, x)
}

/// The single step from noise to data: the noise less the average velocity of the whole path.
pub fn sample_1nfe<T: Real>(noise: &Vec<Vec<T>>, u: &Vec<Vec<T>>) -> (z: Vec<Vec<T>>)
    requires
        ode::same_shape(noise@, u@),
    ensures
        ode::same_shape(z@, noise@),
        arith::deterministic::<T>() ==> combined(
            z@,
            noise@,
            u@,
            |a: T, b: T, m: int| arith::minus(a, b),
        ),
{
    difference(noise, u)
}

/// The place and the times that a difference quotient with step `delta` compares with: a step
/// along the path, and as much later.
pub fn shifted<T: Real, W: Wide<T>>(
    z: &Vec<Vec<T>>,
    v: &Vec<Vec<T>>,
    t: &Vec<T>,
    delta: W,
) -> (s: (Vec<Vec<T>>, Vec<T>))
    requires
        ode::same_shape(z@, v@),
    ensures
        ode::same_shape(s.0@, z@),
        s.1.len() == t.len(),
        arith::wide_deterministic::<T, W>() ==> combined(
            s.0@,
            z@,
            v@,
            |a: T, b: T, m: int| ode::stepped(a, b, arith::narrowed::<T, W>(delta)),
        ),
        arith::wide_deterministic::<T, W>() ==> forall|m: int|
            0 <= m < t.len() ==> #[trigger] s.1@[m] == arith::plus(
                t@[m],
                arith::narrowed::<T, W>(delta),
            ),
{
    let d: T = delta.narrowed();
    let place: Vec<Vec<T>> = ode::euler_step(z, v, d, 0);
    let mut times: Vec<T> = Vec::new();
    let mut m: usize = 0;
    while m < t.len()
        invariant
            m <= t.len(),
            times.len() == m,
            arith::deterministic::<T>() ==> forall|k: int|
                0 <= k < m ==> #[trigger] times@[k] == arith::plus(t@[k], d),
        decreases t.len() - m,
    {
        times.push(t[m].plus(d));
        m = m + 1;
    }
    (place, times)
}

/// The rate of change between two predictions at a distance of `delta`.
pub fn difference_quotient<T: Real, W: Wide<T>>(
    later: &Vec<Vec<T>>,
    now: &Vec<Vec<T>>,
    delta: W,
) -> (q: Vec<Vec<T>>)
    requires
        ode::same_shape(later@, now@),
    ensures
        ode::same_shape(q@, later@),
        arith::wide_deterministic::<T, W>() ==> combined(
            q@,
            later@,
            now@,
            |a: T, b: T, m: int|
                arith::times(
                    arith::minus(a, b),
                    arith::narrowed::<T, W>(arith::over(arith::whole(1), delta)),
                ),
        ),
{
    let scale: T = W::whole(1).over(delta).narrowed();
    let d: Vec<Vec<T>> = difference(later, now);
    let mut q: Vec<Vec<T>> = Vec::new();
    let mut m: usize = 0;
    while m < d.len()
        invariant
            m <= d.len(),
            q.len() == m,
            forall|k: int| 0 <= k < m ==> (#[trigger] q@[k]).len() == d@[k].len(),
            arith::deterministic::<T>() ==> forall|k: int, i: int|
                0 <= k < m && 0 <= i < d@[k].len() ==> #[trigger] q@[k]@[i] == arith::times(
                    d@[k]@[i],
                    scale,
                ),
        decreases d.len() - m,
    {
        let p: &Vec<T> = &d[m];
        let mut row: Vec<T> = Vec::new();
        let mut i: usize = 0;
        while i < p.len()
            invariant
                i <= p.len(),
                row.len() == i,
                arith::deterministic::<T>() ==> forall|k: int|
                    0 <= k < i ==> #[trigger] row@[k] == arith::times(p@[k], scale),
            decreases p.len() - i,
        {
            row.push(p[i].times(scale));
            i = i + 1;
        }
        q.push(row);
        m = m + 1;
    }
    q
}

/// What the predictions are trained towards, from the velocities of the path and the rates of
/// change of the predictions over the intervals from `r` to `t`.
pub fn target<T: Real>(v: &Vec<Vec<T>>, rate: &Vec<Vec<T>>, r: &Vec<T>, t: &Vec<T>) -> (u: Vec<
    Vec<T>,
>)
    requires
        ode::same_shape(v@, rate@),
        r.len() == v.len(),
        t.len() == v.len(),
    ensures
        ode::same_shape(u@, v@),
        arith::deterministic::<T>() ==> combined(
            u@,
            v@,
            rate@,
            |a: T, b: T, m: int| target_at(a, b, r@[m], t@[m]),
        ),
{
    let mut u: Vec<Vec<T>> = Vec::new();
    let mut m: usize = 0;
    while m < v.len()
        invariant
            ode::same_shape(v@, rate@),
            r.len() == v.len(),
            t.len() == v.len(),
            m <= v.len(),
            u.len() == m,
            forall|k: int| 0 <= k < m ==> (#[trigger] u@[k]).len() == v@[k].len(),
            arith::deterministic::<T>() ==> forall|k: int, i: int|
                0 <= k < m && 0 <= i < v@[k].len() ==> #[trigger] u@[k]@[i] == target_at(
                    v@[k]@[i],
                    rate@[k]@[i],
                    r@[k],
                    t@[k],
                ),
        decreases v.len() - m,
    {
        let a: &Vec<T> = &v[m];
        let b: &Vec<T> = &rate[m];
        let span: T = t[m].minus(r[m]);
        let mut row: Vec<T> = Vec::new();
        let mut i: usize = 0;
        while i < a.len()
            invariant
                i <= a.len() == b.len(),
                arith::deterministic::<T>() ==> span == arith::minus(t@[m as int], r@[m as int]),
                row.len() == i,
                arith::deterministic::<T>() ==> forall|k: int|
                    0 <= k < i ==> #[trigger] row@[k] == target_at(
                        a@[k],
                        b@[k],
                        r@[m as int],
                        t@[m as int],
                    ),
            decreases a.len() - i,
        {
            row.push(a[i].minus(b[i].times(span)));
            i = i + 1;
        }
        u.push(row);
        m = m + 1;
    }
    u
}

/// At an interval without length the target is the velocity of the path, where a number less
/// itself is a zero, a zero times a number is a zero, and a number less a zero is the number.
pub proof fn law_empty_interval_regresses_the_velocity<T: Real>(
    zero: spec_fn(T) -> bool,
    v: T,
    rate: T,
    t: T,
)
    requires
        zero(arith::minus(t, t)),
        forall|z: T| zero(z) ==> zero(#[trigger] arith::times(rate, z)),
        forall|z: T| zero(z) ==> #[trigger] arith::minus(v, z) == v,
    ensures
        target_at(v, rate, t, t) == v,
{
}

/// Tests the length of a sequence that is converted as a whole: whole chunks only.
pub fn check_length(time: usize, chunk_frames: usize) -> (r: Result<(), Error>)
    requires
        chunk_frames > 0,
    ensures
        r is Ok <==> time % chunk_frames == 0,
        r is Err ==> error::input_error(
            r,
            "sequence length "@ + text::digits(time as nat)
                + " is not a multiple of chunk_frames "@ + text::digits(chunk_frames as nat),
        ),
{
    if time % chunk_frames != 0 {
        let a: String = text::decimal(time as u64);
        let b: String = text::decimal(chunk_frames as u64);
        let mut m: String = String::from_str("sequence length ");
        m.append(a.as_str());
        m.append(" is not a multiple of chunk_frames ");
        m.append(b.as_str());
        return Err(Error::Input(m));
    }
    Ok(())
}

/// The path leads from the data at time zero to the noise at time one, and where both are the same
/// it does not move.
pub proof fn law_path_leads_from_data_to_noise<T: Real>(x: T, noise: T, t: T)
    requires
        arith::neutral::<T>(),
    ensures
        path_at(x, noise, arith::whole(0)) == x,
        path_at(x, noise, arith::whole(1)) == noise,
        arith::blends::<T>() ==> path_at(x, x, t) == x,
{
    let a = arith::times(x, arith::minus(arith::whole(1), t));
    let b = arith::times(x, t);
}

/// An interval ends at the later draw and starts at the earlier one, or where it ends if the coin
/// is below the ratio, whichever draw was first.
pub proof fn law_interval_is_between_its_draws<T: Real>(a: T, b: T, c: T, ratio: T)
    requires
        arith::larger(a, b) == b && arith::smaller(a, b) == a || arith::larger(a, b) == a
            && arith::smaller(a, b) == b,
    ensures
        ({
            let (r, t) = interval(a, b, c, ratio);
            &&& arith::larger(a, b) == b ==> t == b
            &&& arith::larger(a, b) == a ==> t == a
            &&& arith::below(c, ratio) ==> r == t
            &&& !arith::below(c, ratio) && arith::smaller(a, b) == a ==> r == a
            &&& !arith::below(c, ratio) && arith::smaller(a, b) == b ==> r == b
        }),
{
}

/// A velocity that does not change is its own target, and over an interval of one a rate is taken
/// away in full.
pub proof fn law_target_takes_the_rate_away<T: Real>(v: T, rate: T, r: T, t: T)
    requires
        arith::neutral::<T>(),
    ensures
        rate == arith::whole::<T>(0) ==> target_at(v, rate, r, t) == v,
        arith::minus(t, r) == arith::whole::<T>(1) ==> target_at(v, rate, r, t) == arith::minus(
            v,
            rate,
        ),
{
}

} // verus!
