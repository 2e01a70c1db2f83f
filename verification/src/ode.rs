//! Euler steps of a flow under classifier-free guidance, on tables of mel rows.

use vstd::prelude::*;
use crate::arith;
use crate::arith::Real;
use crate::arith::Wide;

verus! {

/// The guided velocity: the conditional one, pushed away from the unconditional one by `rate`.
pub open spec fn guided<T: Real, W: Wide<T>>(cond: T, null: T, rate: W) -> T {
    arith::minus(
        arith::times(cond, arith::narrowed::<T, W>(arith::plus(arith::whole(1), rate))),
        arith::times(null, arith::narrowed::<T, W>(rate)),
    )
}

/// The value after a step of length `dt` along the velocity `v`.
pub open spec fn stepped<T: Real>(x: T, v: T, dt: T) -> T {
    arith::plus(x, arith::times(v, dt))
}

/// Whether two tables have rows of the same lengths.
pub open spec fn same_shape<T>(a: Seq<Vec<T>>, b: Seq<Vec<T>>) -> bool {
    &&& a.len() == b.len()
    &&& forall|m: int| 0 <= m < a.len() ==> (#[trigger] a[m]).len() == b[m].len()
}

/// The guided velocity of each value.
pub fn guide<T: Real, W: Wide<T>>(cond: &Vec<Vec<T>>, null: &Vec<Vec<T>>, rate: W) -> (out: Vec<
    Vec<T>,
>)
    requires
        same_shape(cond@, null@),
    ensures
        same_shape(out@, cond@),
        arith::wide_deterministic::<T, W>() ==> forall|m: int, t: int|
            0 <= m < out.len() && 0 <= t < cond@[m].len() ==> #[trigger] out@[m]@[t] == guided::<
                T,
                W,
            >(cond@[m]@[t], null@[m]@[t], rate),
{
    let push: T = W::whole(1).plus(rate).narrowed();
    let pull: T = rate.narrowed();
    let mut out: Vec<Vec<T>> = Vec::new();
    let mut m: usize = 0;
    while m < cond.len()
        invariant
            m <= cond.len(),
            same_shape(cond@, null@),
            out.len() == m,
            forall|k: int| 0 <= k < m ==> (#[trigger] out@[k]).len() == cond@[k].len(),
            arith::wide_deterministic::<T, W>() ==> push == arith::narrowed::<T, W>(
                arith::plus(arith::whole(1), rate),
            ) && pull == arith::narrowed::<T, W>(rate),
            arith::wide_deterministic::<T, W>() ==> forall|k: int, t: int|
                0 <= k < m && 0 <= t < cond@[k].len() ==> #[trigger] out@[k]@[t] == guided::<
                    T,
                    W,
                >(cond@[k]@[t], null@[k]@[t], rate),
        decreases cond.len() - m,
    {
        let a: &Vec<T> = &cond[m];
        let b: &Vec<T> = &null[m];
        let mut row: Vec<T> = Vec::new();
        let mut t: usize = 0;
        while t < a.len()
            invariant
                t <= a.len() == b.len(),
                row.len() == t,
                arith::deterministic::<T>() ==> forall|k: int|
                    0 <= k < t ==> #[trigger] row@[k] == arith::minus(
                        arith::times(a@[k], push),
                        arith::times(b@[k], pull),
                    ),
            decreases a.len() - t,
        {
            row.push(a[t].times(push).minus(b[t].times(pull)));
            t = t + 1;
        }
        out.push(row);
        m = m + 1;
    }
    out
}

/// The table after a step of length `dt` along the velocities `v`. The first `head` values of
/// each row are set to zero.
pub fn euler_step<T: Real>(x: &Vec<Vec<T>>, v: &Vec<Vec<T>>, dt: T, head: usize) -> (out: Vec<
    Vec<T>,
>)
    requires
        same_shape(x@, v@),
    ensures
        same_shape(out@, x@),
        arith::deterministic::<T>() ==> forall|m: int, t: int|
            0 <= m < out.len() && 0 <= t < x@[m].len() ==> #[trigger] out@[m]@[t] == (if t
                < head {
                arith::whole::<T>(0)
            } else {
                stepped(x@[m]@[t], v@[m]@[t], dt)
            }),
{
    let mut out: Vec<Vec<T>> = Vec::new();
    let mut m: usize = 0;
    while m < x.len()
        invariant
            m <= x.len(),
            same_shape(x@, v@),
            out.len() == m,
            forall|k: int| 0 <= k < m ==> (#[trigger] out@[k]).len() == x@[k].len(),
            arith::deterministic::<T>() ==> forall|k: int, t: int|
                0 <= k < m && 0 <= t < x@[k].len() ==> #[trigger] out@[k]@[t] == (if t < head {
                    arith::whole::<T>(0)
                } else {
                    stepped(x@[k]@[t], v@[k]@[t], dt)
                }),
        decreases x.len() - m,
    {
        let a: &Vec<T> = &x[m];
        let b: &Vec<T> = &v[m];
        let mut row: Vec<T> = Vec::new();
        let mut t: usize = 0;
        while t < a.len()
            invariant
                t <= a.len() == b.len(),
                row.len() == t,
                arith::deterministic::<T>() ==> forall|k: int|
                    0 <= k < t ==> #[trigger] row@[k] == (if k < head {
                        arith::whole::<T>(0)
                    } else {
                        stepped(a@[k], b@[k], dt)
                    }),
            decreases a.len() - t,
        {
            if t < head {
                row.push(T::whole(0));
            } else {
                row.push(a[t].plus(b[t].times(dt)));
            }
            t = t + 1;
        }
        out.push(row);
        m = m + 1;
    }
    out
}

/// A table with the first `head` values of each row set to zero.
pub fn with_zero_head<T: Real>(x: &Vec<Vec<T>>, head: usize) -> (out: Vec<Vec<T>>)
    ensures
        same_shape(out@, x@),
        forall|m: int, t: int|
            0 <= m < out.len() && head <= t < x@[m].len() ==> #[trigger] out@[m]@[t]
                == x@[m]@[t],
        arith::deterministic::<T>() ==> forall|m: int, t: int|
            0 <= m < out.len() && 0 <= t < x@[m].len() && t < head ==> #[trigger] out@[m]@[t]
                == arith::whole::<T>(0),
{
    let mut out: Vec<Vec<T>> = Vec::new();
    let mut m: usize = 0;
    while m < x.len()
        invariant
            m <= x.len(),
            out.len() == m,
            forall|k: int| 0 <= k < m ==> (#[trigger] out@[k]).len() == x@[k].len(),
            forall|k: int, t: int|
                0 <= k < m && head <= t < x@[k].len() ==> #[trigger] out@[k]@[t] == x@[k]@[t],
            arith::deterministic::<T>() ==> forall|k: int, t: int|
                0 <= k < m && 0 <= t < x@[k].len() && t < head ==> #[trigger] out@[k]@[t]
                    == arith::whole::<T>(0),
        decreases x.len() - m,
    {
        let a: &Vec<T> = &x[m];
        let mut row: Vec<T> = Vec::new();
        let mut t: usize = 0;
        while t < a.len()
            invariant
                t <= a.len(),
                row.len() == t,
                forall|k: int| head <= k < t ==> #[trigger] row@[k] == a@[k],
                arith::deterministic::<T>() ==> forall|k: int|
                    0 <= k < t && k < head ==> #[trigger] row@[k] == arith::whole::<T>(0),
            decreases a.len() - t,
        {
            if t < head {
                row.push(T::whole(0));
            } else {
                row.push(a[t]);
            }
            t = t + 1;
        }
        out.push(row);
        m = m + 1;
    }
    out
}

/// The rows of a prompt, filled up with zeros to `len` values.
pub fn padded_prompt<T: Real>(prompt: &Vec<Vec<T>>, len: usize) -> (out: Vec<Vec<T>>)
    requires
        forall|m: int| 0 <= m < prompt.len() ==> (#[trigger] prompt@[m]).len() <= len,
    ensures
        out.len() == prompt.len(),
        forall|m: int| 0 <= m < out.len() ==> (#[trigger] out@[m]).len() == len,
        forall|m: int, t: int|
            0 <= m < out.len() && 0 <= t < prompt@[m].len() ==> #[trigger] out@[m]@[t]
                == prompt@[m]@[t],
        arith::deterministic::<T>() ==> forall|m: int, t: int|
            0 <= m < out.len() && prompt@[m].len() <= t < len ==> #[trigger] out@[m]@[t]
                == arith::whole::<T>(0),
{
    let mut out: Vec<Vec<T>> = Vec::new();
    let mut m: usize = 0;
    while m < prompt.len()
        invariant
            m <= prompt.len(),
            forall|k: int| 0 <= k < prompt.len() ==> (#[trigger] prompt@[k]).len() <= len,
            out.len() == m,
            forall|k: int| 0 <= k < m ==> (#[trigger] out@[k]).len() == len,
            forall|k: int, t: int|
                0 <= k < m && 0 <= t < prompt@[k].len() ==> #[trigger] out@[k]@[t]
                    == prompt@[k]@[t],
            arith::deterministic::<T>() ==> forall|k: int, t: int|
                0 <= k < m && prompt@[k].len() <= t < len ==> #[trigger] out@[k]@[t]
                    == arith::whole::<T>(0),
        decreases prompt.len() - m,
    {
        let a: &Vec<T> = &prompt[m];
        let mut row: Vec<T> = Vec::new();
        let mut t: usize = 0;
        while t < len
            invariant
                t <= len,
                a.len() <= len,
                row.len() == t,
                forall|k: int| 0 <= k < t && k < a.len() ==> #[trigger] row@[k] == a@[k],
                arith::deterministic::<T>() ==> forall|k: int|
                    a.len() <= k < t ==> #[trigger] row@[k] == arith::whole::<T>(0),
            decreases len - t,
        {
            if t < a.len() {
                row.push(a[t]);
            } else {
                row.push(T::whole(0));
            }
            t = t + 1;
        }
        out.push(row);
        m = m + 1;
    }
    out
}

/// The rows of a table from place `from` on.
pub fn without_head<T: Copy>(x: &Vec<Vec<T>>, from: usize) -> (out: Vec<Vec<T>>)
    requires
        forall|m: int| 0 <= m < x.len() ==> from <= (#[trigger] x@[m]).len(),
    ensures
        out.len() == x.len(),
        forall|m: int|
            0 <= m < out.len() ==> (#[trigger] out@[m])@ == x@[m]@.skip(from as int),
{
    let mut out: Vec<Vec<T>> = Vec::new();
    let mut m: usize = 0;
    while m < x.len()
        invariant
            m <= x.len(),
            forall|k: int| 0 <= k < x.len() ==> from <= (#[trigger] x@[k]).len(),
            out.len() == m,
            forall|k: int| 0 <= k < m ==> (#[trigger] out@[k])@ == x@[k]@.skip(from as int),
        decreases x.len() - m,
    {
        let row: Vec<T> = crate::buffers::part(x[m].as_slice(), from, x[m].len());
        assert(row@ =~= x@[m as int]@.skip(from as int));
        out.push(row);
        m = m + 1;
    }
    out
}

/// Guidance without a rate is the conditional velocity, and where the two velocities are the same
/// it changes nothing, whatever the rate.
pub proof fn law_guidance_keeps_what_both_say<T: Real, W: Wide<T>>(cond: T, null: T, rate: W)
    requires
        arith::neutral::<T>(),
        arith::neutral::<W>(),
        arith::narrowed::<T, W>(arith::whole(0)) == arith::whole::<T>(0),
        arith::narrowed::<T, W>(arith::whole(1)) == arith::whole::<T>(1),
    ensures
        rate == arith::whole::<W>(0) ==> guided::<T, W>(cond, null, rate) == cond,
        arith::minus(
            arith::times(cond, arith::narrowed::<T, W>(arith::plus(arith::whole(1), rate))),
            arith::times(cond, arith::narrowed::<T, W>(rate)),
        ) == cond && null == cond ==> guided::<T, W>(cond, null, rate) == cond,
        null == arith::whole::<T>(0) ==> guided::<T, W>(cond, null, rate) == arith::times(
            cond,
            arith::narrowed::<T, W>(arith::plus(arith::whole(1), rate)),
        ),
        cond == arith::whole::<T>(0) ==> guided::<T, W>(cond, null, rate) == arith::minus(
            arith::whole(0),
            arith::times(null, arith::narrowed::<T, W>(rate)),
        ),
{
}

/// A step of no length or without velocity leads nowhere, one of length one leads as far as the
/// velocity, and two steps along the same velocity are one of both lengths.
pub proof fn law_steps_add_up<T: Real>(x: T, v: T, a: T, b: T)
    requires
        arith::neutral::<T>(),
        forall|p: T, q: T, r: T|
            #[trigger] arith::plus(arith::plus(p, q), r) == arith::plus(p, arith::plus(q, r)),
        forall|p: T, q: T, r: T|
            #[trigger] arith::times(p, arith::plus(q, r)) == arith::plus(
                arith::times(p, q),
                arith::times(p, r),
            ),
    ensures
        stepped(x, v, arith::whole(0)) == x,
        stepped(x, arith::whole(0), a) == x,
        stepped(x, v, arith::whole(1)) == arith::plus(x, v),
        stepped(arith::whole(0), v, a) == arith::times(v, a),
        stepped(stepped(x, v, a), v, b) == stepped(x, v, arith::plus(a, b)),
{
    assert(arith::times(v, arith::plus(a, b)) == arith::plus(
        arith::times(v, a),
        arith::times(v, b),
    ));
    assert(arith::plus(arith::plus(x, arith::times(v, a)), arith::times(v, b)) == arith::plus(
        x,
        arith::plus(arith::times(v, a), arith::times(v, b)),
    ));
}

} // verus!
