//! Helpers around the features of the encoders.

use vstd::prelude::*;
use crate::buffers::copied;

verus! {

/// Repeats each frame `factor` times, so that features of a slower frame rate match a faster one.
pub fn upsample_bnf<T: Copy>(bnf: &Vec<Vec<T>>, factor: usize) -> (out: Vec<Vec<T>>)
    requires
        bnf.len() * factor <= usize::MAX,
    ensures
        out.len() == bnf.len() * factor,
        forall|i: int|
            0 <= i < out.len() ==> (#[trigger] out@[i])@ == bnf@[i / factor as int]@,
{
    let mut out: Vec<Vec<T>> = Vec::new();
    let mut t: usize = 0;
    while t < bnf.len()
        invariant
            t <= bnf.len(),
            out.len() == t * factor,
            forall|i: int|
                0 <= i < out.len() ==> (#[trigger] out@[i])@ == bnf@[i / factor as int]@,
        decreases bnf.len() - t,
    {
        let mut r: usize = 0;
        while r < factor
            invariant
                t < bnf.len(),
                r <= factor,
                out.len() == t * factor + r,
                forall|i: int|
                    0 <= i < out.len() ==> (#[trigger] out@[i])@ == bnf@[i / factor as int]@,
            decreases factor - r,
        {
            out.push(copied(bnf[t].as_slice()));
            proof {
                let i = t * factor + r;
                assert(i / factor as int == t) by (nonlinear_arith)
                    requires
                        i == t * factor + r,
                        0 <= r < factor,
                ;
            }
            r = r + 1;
        }
        proof {
            assert(t * factor + factor == (t + 1) * factor) by (nonlinear_arith);
        }
        t = t + 1;
    }
    out
}

} // verus!
