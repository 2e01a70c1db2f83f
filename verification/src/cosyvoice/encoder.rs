//! The parts of the token encoder that do not depend on its weights: relative positions, the
//! shift that lines them up, the chunk masks, the look-ahead.

use vstd::prelude::*;
use crate::arith;
use crate::arith::Real;
use crate::arith::Wide;

verus! {

/// Width of the encoder.
pub const DIM: usize = 512;

/// Tokens of a streaming chunk.
pub const CHUNK_TOKENS: usize = 25;

/// Tokens that the encoder looks ahead.
pub const PRE_LOOKAHEAD: usize = 3;

/// The relative position that row `j` of the table for `t` positions stands for.
pub open spec fn relative_position(t: int, j: int) -> int {
    t - 1 - j
}

/// The angle of the pair of columns `i` at the relative position `pos`.
pub open spec fn position_angle<W: Real>(pos: int, i: int) -> W {
    arith::times(
        arith::whole(pos as i64),
        arith::exponential(
            arith::over(
                arith::times(
                    arith::negated(
                        arith::times(arith::whole(2), arith::count(i as usize)),
                    ),
                    arith::logarithm(arith::whole(10_000)),
                ),
                arith::count(DIM),
            ),
        ),
    )
}

/// Column `c` of the row of the relative position `pos`: sines and cosines in turn.
pub open spec fn position_value<T: Real, W: Wide<T>>(pos: int, c: int) -> T {
    let a = position_angle::<W>(pos, c / 2);
    arith::narrowed::<T, W>(
        if c % 2 == 0 {
            arith::sine(a)
        } else {
            arith::cosine(a)
        },
    )
}

/// The table of relative positions for `t` positions, from `t - 1` down to `1 - t`.
pub fn rel_pos_table<T: Real, W: Wide<T>>(t: usize) -> (pe: Vec<Vec<T>>)
    requires
        0 < t <= 0x4000_0000,
    ensures
        pe.len() == 2 * t - 1,
        forall|j: int| 0 <= j < pe.len() ==> (#[trigger] pe@[j]).len() == DIM,
        arith::wide_deterministic::<T, W>() ==> forall|j: int, c: int|
            0 <= j < pe.len() && 0 <= c < DIM ==> #[trigger] pe@[j]@[c] == position_value::<
                T,
                W,
            >(relative_position(t as int, j), c),
{
    let n: usize = 2 * t - 1;
    let mut pe: Vec<Vec<T>> = Vec::new();
    let mut j: usize = 0;
    while j < n
        invariant
            0 < t <= 0x4000_0000,
            n == 2 * t - 1,
            j <= n,
            pe.len() == j,
            forall|k: int| 0 <= k < j ==> (#[trigger] pe@[k]).len() == DIM,
            arith::wide_deterministic::<T, W>() ==> forall|k: int, c: int|
                0 <= k < j && 0 <= c < DIM ==> #[trigger] pe@[k]@[c] == position_value::<T, W>(
                    relative_position(t as int, k),
                    c,
                ),
        decreases n - j,
    {
        let pos: i64 = t as i64 - 1 - j as i64;
        let mut row: Vec<T> = Vec::new();
        let mut c: usize = 0;
        while c < DIM
            invariant
                c <= DIM,
                pos == relative_position(t as int, j as int),
                row.len() == c,
                arith::wide_deterministic::<T, W>() ==> forall|k: int|
                    0 <= k < c ==> #[trigger] row@[k] == position_value::<T, W>(pos as int, k),
            decreases DIM - c,
        {
            let div: W = W::whole(2).times(W::count(c / 2)).negated().times(
                W::whole(10_000).logarithm(),
            ).over(W::count(DIM)).exponential();
            let a: W = W::whole(pos).times(div);
            if c % 2 == 0 {
                row.push(a.sine().narrowed());
            } else {
                row.push(a.cosine().narrowed());
            }
            c = c + 1;
        }
        pe.push(row);
        j = j + 1;
    }
    pe
}

/// Whether position `i` may attend to position `j`: to its own chunk and to all before.
pub open spec fn attends(i: int, j: int, chunk: int) -> bool {
    j < (i / chunk + 1) * chunk
}

/// The additive attention mask of `t` positions in chunks.
pub fn chunk_bias<T: Real>(t: usize, chunk: usize) -> (m: Vec<Vec<T>>)
    requires
        0 < chunk,
        t + chunk <= usize::MAX,
    ensures
        m.len() == t,
        forall|i: int| 0 <= i < t ==> (#[trigger] m@[i]).len() == t,
        arith::deterministic::<T>() ==> forall|i: int, j: int|
            0 <= i < t && 0 <= j < t ==> #[trigger] m@[i]@[j] == (if attends(
                i,
                j,
                chunk as int,
            ) {
                arith::whole::<T>(0)
            } else {
                arith::whole::<T>((-10_000_000_000) as i64)
            }),
{
    let mut m: Vec<Vec<T>> = Vec::new();
    let mut i: usize = 0;
    while i < t
        invariant
            0 < chunk,
            t + chunk <= usize::MAX,
            i <= t,
            m.len() == i,
            forall|k: int| 0 <= k < i ==> (#[trigger] m@[k]).len() == t,
            arith::deterministic::<T>() ==> forall|k: int, j: int|
                0 <= k < i && 0 <= j < t ==> #[trigger] m@[k]@[j] == (if attends(
                    k,
                    j,
                    chunk as int,
                ) {
                    arith::whole::<T>(0)
                } else {
                    arith::whole::<T>((-10_000_000_000) as i64)
                }),
        decreases t - i,
    {
        proof {
            lemma_chunk_end(i as int, chunk as int);
        }
        let hi: usize = (i / chunk + 1) * chunk;
        let mut row: Vec<T> = Vec::new();
        let mut j: usize = 0;
        while j < t
            invariant
                j <= t,
                hi == (i as int / chunk as int + 1) * chunk,
                row.len() == j,
                arith::deterministic::<T>() ==> forall|k: int|
                    0 <= k < j ==> #[trigger] row@[k] == (if attends(
                        i as int,
                        k,
                        chunk as int,
                    ) {
                        arith::whole::<T>(0)
                    } else {
                        arith::whole::<T>((-10_000_000_000) as i64)
                    }),
            decreases t - j,
        {
            if j < hi {
                row.push(T::whole(0));
            } else {
                row.push(T::whole(-10_000_000_000));
            }
            j = j + 1;
        }
        m.push(row);
        i = i + 1;
    }
    m
}

/// The chunk of a position ends past it, and at most one chunk past it.
proof fn lemma_chunk_end(i: int, chunk: int)
    requires
        0 <= i,
        0 < chunk,
    ensures
        i < (i / chunk + 1) * chunk <= i + chunk,
{
    vstd::arithmetic::div_mod::lemma_fundamental_div_mod(i, chunk);
    vstd::arithmetic::div_mod::lemma_mod_bound(i, chunk);
    assert((i / chunk + 1) * chunk == chunk * (i / chunk) + chunk) by (nonlinear_arith);
}

/// A position attends to itself, to all before it, to nothing beyond its chunk; and two
/// positions of one chunk attend to the same.
pub proof fn law_chunks_see_themselves_and_the_past(i: int, j: int, k: int, chunk: int)
    requires
        0 <= i,
        0 <= j,
        0 <= k,
        0 < chunk,
    ensures
        j <= i ==> attends(i, j, chunk),
        attends(i, j, chunk) ==> j < i + chunk,
        i / chunk == k / chunk ==> (attends(i, j, chunk) <==> attends(k, j, chunk)),
{
    lemma_chunk_end(i, chunk);
}

/// Lines up scores by relative position: row `i` of the scores has one value for each row of the
/// table; the value for position `j` is that of the relative position `i - j`.
pub fn rel_shift<T: Copy>(x: &Vec<Vec<T>>) -> (out: Vec<Vec<T>>)
    requires
        0 < x.len() <= 0x4000_0000,
        forall|i: int| 0 <= i < x.len() ==> (#[trigger] x@[i]).len() == 2 * x.len() - 1,
    ensures
        out.len() == x.len(),
        forall|i: int| 0 <= i < x.len() ==> (#[trigger] out@[i]).len() == x.len(),
        forall|i: int, j: int|
            0 <= i < x.len() && 0 <= j < x.len() ==> #[trigger] out@[i]@[j] == x@[i]@[x.len() - 1
                - i + j],
{
    let t: usize = x.len();
    let mut out: Vec<Vec<T>> = Vec::new();
    let mut i: usize = 0;
    while i < t
        invariant
            0 < t == x.len(),
            t <= 0x4000_0000,
            forall|k: int| 0 <= k < t ==> (#[trigger] x@[k]).len() == 2 * t - 1,
            i <= t,
            out.len() == i,
            forall|k: int| 0 <= k < i ==> (#[trigger] out@[k]).len() == t,
            forall|k: int, j: int|
                0 <= k < i && 0 <= j < t ==> #[trigger] out@[k]@[j] == x@[k]@[t - 1 - k + j],
        decreases t - i,
    {
        let src: &Vec<T> = &x[i];
        let row: Vec<T> = crate::buffers::part(src.as_slice(), t - 1 - i, 2 * t - 1 - i);
        out.push(row);
        i = i + 1;
    }
    out
}

/// The shift picks, for the positions `i` and `j`, the row of the table for `i - j`; and it is
/// what comes of putting a zero in front of each row, running all values together, dropping the
/// first `t`, and cutting the rest into rows of the old length.
pub proof fn law_shift_is_by_relative_position(t: int, i: int, j: int)
    requires
        0 <= i < t,
        0 <= j < t,
    ensures
        0 <= t - 1 - i + j < 2 * t - 1,
        relative_position(t, t - 1 - i + j) == i - j,
        ({
            let place = i * (2 * t - 1) + j + t;
            &&& place / (2 * t) == i
            &&& place % (2 * t) == 1 + (t - 1 - i + j)
        }),
{
    let place = i * (2 * t - 1) + j + t;
    let rest = t - i + j;
    assert(place == i * (2 * t) + rest) by (nonlinear_arith)
        requires
            place == i * (2 * t - 1) + j + t,
            rest == t - i + j,
    ;
    vstd::arithmetic::div_mod::lemma_fundamental_div_mod_converse(place, 2 * t, i, rest);
}

/// How many of `t` tokens the encoder works on, and how many it only looks ahead at: none in the
/// last chunk of a stream.
pub fn lookahead_split(t: usize, finalize: bool) -> (r: (usize, usize))
    requires
        finalize || t >= PRE_LOOKAHEAD,
    ensures
        r.0 + r.1 == t,
        r.1 == (if finalize { 0 } else { PRE_LOOKAHEAD as int }),
{
    if finalize {
        (t, 0)
    } else {
        (t - PRE_LOOKAHEAD, PRE_LOOKAHEAD)
    }
}

/// The table of relative positions counts down by one from row to row, to zero at its middle, and
/// on both sides of that stand the same distances with opposite signs.
pub proof fn law_positions_count_down_through_zero(t: int, j: int)
    requires
        0 < t,
        0 <= j < 2 * t - 1,
    ensures
        relative_position(t, t - 1) == 0,
        relative_position(t, 0) == t - 1,
        relative_position(t, j) + relative_position(t, 2 * t - 2 - j) == 0,
        relative_position(t, j + 1) == relative_position(t, j) - 1,
{
}

/// The first pair of columns turns by the position itself, and the pair behind the last by a
/// ten-thousandth of it; at the position zero no pair turns.
pub proof fn law_positions_turn_their_columns<W: Real>(pos: int, i: int)
    requires
        arith::neutral::<W>(),
        0 <= i < 256,
        i64::MIN <= pos <= i64::MAX,
        ({
            let whole = arith::logarithm(arith::whole::<W>(10_000));
            let down = |k: int|
                arith::over(
                    arith::times(
                        arith::negated(arith::times(arith::whole(2), arith::count(k as usize))),
                        whole,
                    ),
                    arith::count(512),
                );
            &&& down(0) == arith::whole::<W>(0)
            &&& down(256) == arith::negated(whole)
            &&& arith::exponential(arith::whole::<W>(0)) == arith::whole::<W>(1)
            &&& arith::exponential(arith::negated(whole)) == arith::fraction::<W>(1, 10_000)
        }),
    ensures
        position_angle::<W>(0, i) == arith::whole::<W>(0),
        position_angle::<W>(pos, 0) == arith::whole::<W>(pos as i64),
        position_angle::<W>(pos, 256) == arith::times(
            arith::whole::<W>(pos as i64),
            arith::fraction(1, 10_000),
        ),
{
}

/// From one pair of columns to the next the angle falls by the same factor everywhere.
pub proof fn law_angles_fall_evenly<W: Real>(pos: int, i: int)
    requires
        0 <= i < 255,
        ({
            let at = |k: int|
                arith::exponential(
                    arith::over(
                        arith::times(
                            arith::negated(
                                arith::times(arith::whole(2), arith::count(k as usize)),
                            ),
                            arith::logarithm(arith::whole::<W>(10_000)),
                        ),
                        arith::count(512),
                    ),
                );
            let less = arith::exponential(
                arith::over(
                    arith::times(
                        arith::negated(arith::whole(2)),
                        arith::logarithm(arith::whole::<W>(10_000)),
                    ),
                    arith::count(512),
                ),
            );
            &&& at(i + 1) == arith::times(at(i), less)
            &&& forall|a: W, b: W, c: W|
                #[trigger] arith::times(a, arith::times(b, c)) == arith::times(
                    arith::times(a, b),
                    c,
                )
        }),
    ensures
        position_angle::<W>(pos, i + 1) == arith::times(
            position_angle::<W>(pos, i),
            arith::exponential(
                arith::over(
                    arith::times(
                        arith::negated(arith::whole(2)),
                        arith::logarithm(arith::whole::<W>(10_000)),
                    ),
                    arith::count(512),
                ),
            ),
        ),
{
}

/// A pair of columns holds the sine and the cosine of one angle, in this order; so the row of the
/// position zero has zeros and ones in turn.
pub proof fn law_columns_are_sine_and_cosine<T: Real, W: Wide<T>>(pos: int, i: int)
    requires
        arith::neutral::<W>(),
        0 <= i < 256,
        arith::sine(arith::whole::<W>(0)) == arith::whole::<W>(0),
        arith::cosine(arith::whole::<W>(0)) == arith::whole::<W>(1),
    ensures
        position_value::<T, W>(pos, 2 * i) == arith::narrowed::<T, W>(
            arith::sine(position_angle::<W>(pos, i)),
        ),
        position_value::<T, W>(pos, 2 * i + 1) == arith::narrowed::<T, W>(
            arith::cosine(position_angle::<W>(pos, i)),
        ),
        position_value::<T, W>(0, 2 * i) == arith::narrowed::<T, W>(arith::whole(0)),
        position_value::<T, W>(0, 2 * i + 1) == arith::narrowed::<T, W>(arith::whole(1)),
{
}

} // verus!
