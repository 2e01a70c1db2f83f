//! Lists of copied values: filled, joined, cut.

use vstd::prelude::*;

verus! {

/// A list of `n` times `x`.
pub fn filled<T: Copy>(x: T, n: usize) -> (v: Vec<T>)
    ensures
        v@ == Seq::new(n as nat, |k: int| x),
{
    let mut v: Vec<T> = Vec::new();
    let mut k: usize = 0;
    while k < n
        invariant
            k <= n,
            v@ == Seq::new(k as nat, |p: int| x),
        decreases n - k,
    {
        v.push(x);
        k = k + 1;
        assert(v@ =~= Seq::new(k as nat, |p: int| x));
    }
    v
}

/// The values of `s`.
pub fn copied<T: Copy>(s: &[T]) -> (v: Vec<T>)
    ensures
        v@ == s@,
{
    let mut v: Vec<T> = Vec::new();
    append(&mut v, s);
    assert(v@ =~= s@);
    v
}

/// Puts the values of `s` behind those of `v`.
pub fn append<T: Copy>(v: &mut Vec<T>, s: &[T])
    ensures
        final(v)@ == old(v)@ + s@,
{
    let ghost before = v@;
    let mut k: usize = 0;
    assert(before + s@.take(0) =~= before);
    while k < s.len()
        invariant
            k <= s.len(),
            v@ == before + s@.take(k as int),
        decreases s.len() - k,
    {
        v.push(s[k]);
        k = k + 1;
        assert(before + s@.take(k as int) =~= (before + s@.take(k - 1)).push(s@[k - 1]));
    }
    assert(s@.take(s.len() as int) =~= s@);
}

/// The values of `s` from place `lo` up to place `hi`.
pub fn part<T: Copy>(s: &[T], lo: usize, hi: usize) -> (v: Vec<T>)
    requires
        lo <= hi <= s.len(),
    ensures
        v@ == s@.subrange(lo as int, hi as int),
{
    let mut v: Vec<T> = Vec::new();
    let mut k: usize = lo;
    assert(v@ =~= s@.subrange(lo as int, lo as int));
    while k < hi
        invariant
            lo <= k <= hi <= s.len(),
            v@ == s@.subrange(lo as int, k as int),
        decreases hi - k,
    {
        v.push(s[k]);
        k = k + 1;
        assert(s@.subrange(lo as int, k as int) =~= s@.subrange(lo as int, k - 1).push(s@[k - 1]));
    }
    v
}

} // verus!
