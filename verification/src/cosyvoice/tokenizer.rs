//! Speech tokens: eight ternary digits each; and the rotation tables of the tokenizer.

use vstd::prelude::*;
use crate::arith;
use crate::arith::Real;
use crate::arith::Wide;

verus! {

/// Number of different tokens, the eighth power of three.
pub const VOCAB: u32 = 6561;

/// Values of a head.
pub const HEAD_DIM: usize = 64;

/// Taps of the memory filter.
pub const FSMN_KERNEL: usize = 31;

/// The power `k` of three.
pub open spec fn power_of_three(k: nat) -> nat
    decreases k,
{
    if k == 0 {
        1
    } else {
        3 * power_of_three((k - 1) as nat)
    }
}

/// The number that ternary digits stand for, the lowest first.
pub open spec fn ternary(d: Seq<u32>) -> nat
    decreases d.len(),
{
    if d.len() == 0 {
        0
    } else {
        ternary(d.drop_last()) + d.last() as nat * power_of_three((d.len() - 1) as nat)
    }
}

/// Whether all values are ternary digits.
pub open spec fn are_digits(d: Seq<u32>) -> bool {
    forall|k: int| 0 <= k < d.len() ==> #[trigger] d[k] <= 2
}

/// Ternary digits stand for less than the power of three of their number.
pub proof fn lemma_ternary_bound(d: Seq<u32>)
    requires
        are_digits(d),
    ensures
        ternary(d) < power_of_three(d.len()),
    decreases d.len(),
{
    if d.len() > 0 {
        let front = d.drop_last();
        assert(are_digits(front)) by {
            assert forall|k: int| 0 <= k < front.len() implies #[trigger] front[k] <= 2 by {
                assert(front[k] == d[k]);
            }
        }
        lemma_ternary_bound(front);
        let p = power_of_three(front.len());
        let last = d.last() as nat;
        assert(d[d.len() - 1] <= 2);
        assert(last * p <= 2 * p) by (nonlinear_arith)
            requires
                last <= 2,
        ;
    }
}

/// The token of eight ternary digits.
pub fn token_id(digits: &Vec<u32>) -> (id: u32)
    requires
        digits.len() == 8,
        are_digits(digits@),
    ensures
        id == ternary(digits@),
        id < VOCAB,
{
    let mut id: u32 = 0;
    let mut p: u32 = 1;
    let mut k: usize = 0;
    assert(digits@.take(0) =~= Seq::empty());
    while k < 8
        invariant
            digits.len() == 8,
            are_digits(digits@),
            k <= 8,
            id == ternary(digits@.take(k as int)),
            id < p,
            p == power_of_three(k as nat),
            p <= VOCAB,
        decreases 8 - k,
    {
        proof {
            let next = digits@.take(k + 1);
            assert(next.drop_last() =~= digits@.take(k as int));
            assert(digits@[k as int] <= 2);
            lemma_powers_grow((k + 1) as nat, 8);
            reveal_with_fuel(power_of_three, 9);
            let d = digits@[k as int];
            assert(d * p <= 2 * p) by (nonlinear_arith)
                requires
                    d <= 2,
            ;
        }
        id = id + digits[k] * p;
        p = 3 * p;
        k = k + 1;
    }
    assert(digits@.take(8) =~= digits@);
    assert(p == VOCAB) by {
        reveal_with_fuel(power_of_three, 9);
    }
    id
}

/// Powers of three grow.
proof fn lemma_powers_grow(a: nat, b: nat)
    requires
        a <= b,
    ensures
        power_of_three(a) <= power_of_three(b),
    decreases b - a,
{
    if a < b {
        lemma_powers_grow(a, (b - 1) as nat);
    }
}

/// Different digits make different tokens.
pub proof fn law_tokens_are_distinct(a: Seq<u32>, b: Seq<u32>)
    requires
        a.len() == b.len(),
        are_digits(a),
        are_digits(b),
        ternary(a) == ternary(b),
    ensures
        a == b,
    decreases a.len(),
{
    if a.len() > 0 {
        let fa = a.drop_last();
        let fb = b.drop_last();
        assert forall|k: int| 0 <= k < fa.len() implies #[trigger] fa[k] <= 2 by {
            assert(fa[k] == a[k]);
        }
        assert forall|k: int| 0 <= k < fb.len() implies #[trigger] fb[k] <= 2 by {
            assert(fb[k] == b[k]);
        }
        lemma_ternary_bound(fa);
        lemma_ternary_bound(fb);
        let p = power_of_three(fa.len());
        let la = a.last() as nat;
        let lb = b.last() as nat;
        assert(la == lb) by (nonlinear_arith)
            requires
                ternary(fa) + la * p == ternary(fb) + lb * p,
                ternary(fa) < p,
                ternary(fb) < p,
        ;
        law_tokens_are_distinct(fa, fb);
        assert(a =~= fa.push(a.last()));
        assert(b =~= fb.push(b.last()));
    } else {
        assert(a =~= b);
    }
}

/// The angle of position `pos` at the pair of columns `i`.
pub open spec fn rotary_angle<T: Real, W: Wide<T>>(pos: int, i: int) -> T {
    arith::narrowed::<T, W>(
        arith::times(
            arith::count(pos as usize),
            arith::over(
                arith::whole(1),
                arith::power(
                    arith::whole(10_000),
                    arith::over(
                        arith::times(arith::whole(2), arith::count(i as usize)),
                        arith::count(HEAD_DIM),
                    ),
                ),
            ),
        ),
    )
}

/// The cosines and sines of the rotations of `t` positions: both halves of a row hold the same
/// angles.
pub fn rotary_tables<T: Real, W: Wide<T>>(t: usize) -> (r: (Vec<Vec<T>>, Vec<Vec<T>>))
    ensures
        r.0.len() == t,
        r.1.len() == t,
        forall|p: int| 0 <= p < t ==> (#[trigger] r.0@[p]).len() == HEAD_DIM,
        forall|p: int| 0 <= p < t ==> (#[trigger] r.1@[p]).len() == HEAD_DIM,
        arith::wide_deterministic::<T, W>() ==> forall|p: int, c: int|
            0 <= p < t && 0 <= c < HEAD_DIM ==> #[trigger] r.0@[p]@[c] == arith::cosine(
                rotary_angle::<T, W>(p, c % 32),
            ),
        arith::wide_deterministic::<T, W>() ==> forall|p: int, c: int|
            0 <= p < t && 0 <= c < HEAD_DIM ==> #[trigger] r.1@[p]@[c] == arith::sine(
                rotary_angle::<T, W>(p, c % 32),
            ),
{
    let mut cos: Vec<Vec<T>> = Vec::new();
    let mut sin: Vec<Vec<T>> = Vec::new();
    let mut p: usize = 0;
    while p < t
        invariant
            p <= t,
            cos.len() == p,
            sin.len() == p,
            forall|k: int| 0 <= k < p ==> (#[trigger] cos@[k]).len() == HEAD_DIM,
            forall|k: int| 0 <= k < p ==> (#[trigger] sin@[k]).len() == HEAD_DIM,
            arith::wide_deterministic::<T, W>() ==> forall|k: int, c: int|
                0 <= k < p && 0 <= c < HEAD_DIM ==> #[trigger] cos@[k]@[c] == arith::cosine(
                    rotary_angle::<T, W>(k, c % 32),
                ),
            arith::wide_deterministic::<T, W>() ==> forall|k: int, c: int|
                0 <= k < p && 0 <= c < HEAD_DIM ==> #[trigger] sin@[k]@[c] == arith::sine(
                    rotary_angle::<T, W>(k, c % 32),
                ),
        decreases t - p,
    {
        let mut cs: Vec<T> = Vec::new();
        let mut ss: Vec<T> = Vec::new();
        let mut c: usize = 0;
        while c < HEAD_DIM
            invariant
                c <= HEAD_DIM,
                cs.len() == c,
                ss.len() == c,
                arith::wide_deterministic::<T, W>() ==> forall|k: int|
                    0 <= k < c ==> #[trigger] cs@[k] == arith::cosine(
                        rotary_angle::<T, W>(p as int, k % 32),
                    ),
                arith::wide_deterministic::<T, W>() ==> forall|k: int|
                    0 <= k < c ==> #[trigger] ss@[k] == arith::sine(
                        rotary_angle::<T, W>(p as int, k % 32),
                    ),
            decreases HEAD_DIM - c,
        {
            let freq: W = W::whole(1).over(
                W::whole(10_000).power(
                    W::whole(2).times(W::count(c % 32)).over(W::count(HEAD_DIM)),
                ),
            );
            let ang: T = W::count(p).times(freq).narrowed();
            cs.push(ang.cosine());
            ss.push(ang.sine());
            c = c + 1;
        }
        cos.push(cs);
        sin.push(ss);
        p = p + 1;
    }
    (cos, sin)
}

/// The tokenizer makes one token of four mel frames, rounded up: two convolutions that halve.
pub proof fn law_one_token_for_four_frames(frames: int)
    requires
        frames > 0,
    ensures
        ({
            let halve = |n: int| (n + 2 * 1 - (3 - 1) - 1) / 2 + 1;
            halve(halve(frames)) == (frames + 3) / 4
        }),
{
}

/// The first digit of a token is the lowest: the others count three times as much as they do
/// without it.
pub proof fn law_first_digit_is_the_lowest(d: Seq<u32>)
    requires
        0 < d.len(),
    ensures
        ternary(d) == d[0] + 3 * ternary(d.skip(1)),
        are_digits(d) ==> ternary(d) % 3 == d[0],
    decreases d.len(),
{
    let rest = d.skip(1);
    if d.len() == 1 {
        assert(d.drop_last().len() == 0);
        assert(ternary(d.drop_last()) == 0);
        assert(power_of_three(0) == 1);
        assert(d[0] as nat * 1 == d[0] as nat);
    } else {
        let front = d.drop_last();
        law_first_digit_is_the_lowest(front);
        assert(front.skip(1) =~= rest.drop_last());
        let p = power_of_three((rest.len() - 1) as nat);
        let last = d.last() as nat;
        assert(power_of_three((d.len() - 1) as nat) == 3 * p);
        assert(last * (3 * p) == 3 * (last * p)) by (nonlinear_arith);
        assert(rest.last() == d.last());
    }
    if are_digits(d) {
        assert(d[0] <= 2);
    }
}

/// A position turns by its number at the first pair of columns and by a hundredth of it at the
/// middle one; the position zero does not turn.
pub proof fn law_rotations_go_with_the_position<T: Real, W: Wide<T>>(p: int, i: int)
    requires
        arith::neutral::<W>(),
        0 <= p <= usize::MAX,
        0 <= i < 32,
        arith::count::<W>(0) == arith::whole::<W>(0),
        arith::over(arith::whole::<W>(0), arith::count(64)) == arith::whole::<W>(0),
        arith::over(arith::times(arith::whole::<W>(2), arith::count(16)), arith::count(64))
            == arith::fraction::<W>(1, 2),
        arith::power(arith::whole::<W>(10_000), arith::whole(0)) == arith::whole::<W>(1),
        arith::power(arith::whole::<W>(10_000), arith::fraction(1, 2)) == arith::whole::<W>(100),
    ensures
        rotary_angle::<T, W>(0, i) == arith::narrowed::<T, W>(arith::whole(0)),
        rotary_angle::<T, W>(p, 0) == arith::narrowed::<T, W>(arith::count(p as usize)),
        rotary_angle::<T, W>(p, 16) == arith::narrowed::<T, W>(
            arith::times(
                arith::count(p as usize),
                arith::over(arith::whole(1), arith::whole(100)),
            ),
        ),
{
}

/// From one pair of columns to the next the angle falls by the same factor everywhere.
pub proof fn law_rotations_fall_evenly<T: Real, W: Wide<T>>(p: int, i: int)
    requires
        0 <= i < 31,
        ({
            let at = |k: int|
                arith::over(
                    arith::whole::<W>(1),
                    arith::power(
                        arith::whole(10_000),
                        arith::over(
                            arith::times(arith::whole(2), arith::count(k as usize)),
                            arith::count(64),
                        ),
                    ),
                );
            let less = arith::over(
                arith::whole::<W>(1),
                arith::power(
                    arith::whole(10_000),
                    arith::over(arith::whole(2), arith::count(64)),
                ),
            );
            at(i + 1) == arith::times(at(i), less)
        }),
        forall|a: W, b: W, c: W|
            #[trigger] arith::times(a, arith::times(b, c)) == arith::times(arith::times(a, b), c),
        forall|a: W, b: W|
            #[trigger] arith::narrowed::<T, W>(arith::times(a, b)) == arith::times(
                arith::narrowed::<T, W>(a),
                arith::narrowed::<T, W>(b),
            ),
    ensures
        rotary_angle::<T, W>(p, i + 1) == arith::times(
            rotary_angle::<T, W>(p, i),
            arith::narrowed::<T, W>(
                arith::over(
                    arith::whole(1),
                    arith::power(
                        arith::whole(10_000),
                        arith::over(arith::whole(2), arith::count(64)),
                    ),
                ),
            ),
        ),
{
}

} // verus!
