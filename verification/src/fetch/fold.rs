//! Folding a weight norm: a direction and its magnitudes become the weight itself.
//!
//! A tensor is the list of its numbers, row after row, and the list of its sizes.

use vstd::prelude::*;
use crate::arith;
use crate::arith::Real;
use crate::buffers::filled;

verus! {

/// How many numbers a tensor of these sizes has.
pub open spec fn product(sizes: Seq<usize>) -> int
    decreases sizes.len(),
{
    if sizes.len() == 0 {
        1
    } else {
        product(sizes.drop_last()) * sizes.last()
    }
}

/// How many numbers there are for each place along a dimension, one after the other.
pub open spec fn stride(sizes: Seq<usize>, dim: int) -> int {
    product(sizes.skip(dim + 1))
}

/// The place along a dimension of the number `k` of a tensor. Along a dimension that it does not
/// have, all are at one place.
pub open spec fn place(sizes: Seq<usize>, dim: int, k: int) -> int {
    if dim < sizes.len() {
        (k / stride(sizes, dim)) % sizes[dim] as int
    } else {
        0
    }
}

/// How many places there are along a dimension.
pub open spec fn places(sizes: Seq<usize>, dim: int) -> int {
    if dim < sizes.len() {
        sizes[dim] as int
    } else {
        1
    }
}

/// The squares of those of the first `k` numbers that lie at the place `j`, added up in order.
pub open spec fn squares<T: Real>(v: Seq<T>, sizes: Seq<usize>, dim: int, j: int, k: int) -> T
    decreases k,
{
    if k <= 0 {
        arith::whole(0)
    } else if place(sizes, dim, k - 1) == j {
        arith::plus(squares(v, sizes, dim, j, k - 1), arith::times(v[k - 1], v[k - 1]))
    } else {
        squares(v, sizes, dim, j, k - 1)
    }
}

/// The magnitude at a place: a single one holds for all.
pub open spec fn magnitude_at<T>(g: Seq<T>, j: int) -> T {
    if g.len() == 1 {
        g[0]
    } else {
        g[j]
    }
}

/// The number `k` of a weight: that of the direction, times the magnitude at its place over the
/// norm of all numbers there.
pub open spec fn folded_at<T: Real>(v: Seq<T>, sizes: Seq<usize>, g: Seq<T>, dim: int, k: int) -> T {
    let j = place(sizes, dim, k);
    arith::times(
        v[k],
        arith::over(
            magnitude_at(g, j),
            arith::root(squares(v, sizes, dim, j, v.len() as int)),
        ),
    )
}

/// A tensor that has a number has no dimension of size zero.
proof fn lemma_sizes_are_positive(sizes: Seq<usize>, i: int)
    requires
        product(sizes) > 0,
        0 <= i < sizes.len(),
    ensures
        sizes[i] > 0,
        product(sizes.skip(i + 1)) > 0,
    decreases sizes.len(),
{
    let front = sizes.drop_last();
    let n = sizes.len() - 1;
    lemma_product_is_a_size(front);
    assert(product(front) > 0 && sizes.last() > 0) by (nonlinear_arith)
        requires
            product(front) * sizes.last() > 0,
            product(front) >= 0,
            sizes.last() >= 0,
    ;
    if i < n {
        lemma_sizes_are_positive(front, i);
        assert(sizes.skip(i + 1).drop_last() =~= front.skip(i + 1));
        assert(sizes.skip(i + 1).last() == sizes.last());
        assert(product(front.skip(i + 1)) * sizes.last() > 0) by (nonlinear_arith)
            requires
                product(front.skip(i + 1)) > 0,
                sizes.last() > 0,
        ;
    } else {
        assert(sizes.skip(i + 1) =~= seq![]);
    }
}

/// A product of sizes is not negative.
proof fn lemma_product_is_a_size(sizes: Seq<usize>)
    ensures
        product(sizes) >= 0,
    decreases sizes.len(),
{
    if sizes.len() > 0 {
        lemma_product_is_a_size(sizes.drop_last());
        assert(product(sizes.drop_last()) * sizes.last() >= 0) by (nonlinear_arith)
            requires
                product(sizes.drop_last()) >= 0,
                sizes.last() >= 0,
        ;
    }
}

/// The stride along a dimension.
fn stride_of(sizes: &Vec<usize>, dim: usize) -> (s: usize)
    requires
        dim < sizes.len(),
        0 < stride(sizes@, dim as int) <= usize::MAX,
    ensures
        s == stride(sizes@, dim as int),
{
    let ghost rest = sizes@.skip(dim + 1);
    let mut s: usize = 1;
    let mut i: usize = dim + 1;
    assert(rest.take(0) =~= seq![]);
    while i < sizes.len()
        invariant
            dim < i <= sizes.len(),
            rest == sizes@.skip(dim + 1),
            0 < product(rest) <= usize::MAX,
            s == product(rest.take(i - dim - 1)),
        decreases sizes.len() - i,
    {
        proof {
            let n = i - dim - 1;
            assert(rest.take(n + 1).drop_last() =~= rest.take(n));
            assert(rest.take(n + 1).last() == sizes@[i as int]);
            lemma_front_is_no_larger(rest, n + 1);
        }
        s = s * sizes[i];
        i = i + 1;
    }
    assert(rest.take(rest.len() as int) =~= rest);
    s
}

/// The first sizes of a tensor that has a number have no larger product than all of them.
proof fn lemma_front_is_no_larger(sizes: Seq<usize>, n: int)
    requires
        0 <= n <= sizes.len(),
        product(sizes) > 0,
    ensures
        0 < product(sizes.take(n)) <= product(sizes),
    decreases sizes.len(),
{
    if n == sizes.len() {
        assert(sizes.take(n) =~= sizes);
    } else {
        let front = sizes.drop_last();
        lemma_product_is_a_size(front);
        assert(product(front) > 0 && product(front) <= product(front) * sizes.last())
            by (nonlinear_arith)
            requires
                product(front) * sizes.last() > 0,
                product(front) >= 0,
                sizes.last() >= 0,
        ;
        assert(front.take(n) =~= sizes.take(n));
        lemma_front_is_no_larger(front, n);
    }
}

/// Folds a weight norm whose magnitudes `g` vary along the dimension `dim`, the norm being taken
/// over every other one: the direction `v`, of the given sizes, scaled at each place along it to
/// the magnitude there.
pub fn fold_weight_norm_dim<T: Real>(v: &Vec<T>, sizes: &Vec<usize>, g: &Vec<T>, dim: usize) -> (w:
    Vec<T>)
    requires
        v.len() == product(sizes@),
        g.len() == 1 || g.len() == places(sizes@, dim as int),
    ensures
        w.len() == v.len(),
        arith::deterministic::<T>() ==> forall|k: int|
            0 <= k < v.len() ==> #[trigger] w@[k] == folded_at(v@, sizes@, g@, dim as int, k),
{
    if v.len() == 0 {
        return Vec::new();
    }
    let mut n: usize = 1;
    let mut s: usize = 1;
    if dim < sizes.len() {
        proof {
            lemma_sizes_are_positive(sizes@, dim as int);
            lemma_stride_fits(sizes@, dim as int);
        }
        n = sizes[dim];
        s = stride_of(sizes, dim);
    }
    let mut sums: Vec<T> = filled(T::whole(0), n);
    let mut k: usize = 0;
    while k < v.len()
        invariant
            k <= v.len(),
            0 < s,
            0 < n,
            n == places(sizes@, dim as int),
            dim < sizes.len() ==> s == stride(sizes@, dim as int),
            sums.len() == n,
            arith::deterministic::<T>() ==> forall|j: int|
                0 <= j < n ==> #[trigger] sums@[j] == squares(
                    v@,
                    sizes@,
                    dim as int,
                    j,
                    k as int,
                ),
        decreases v.len() - k,
    {
        let j: usize = if dim < sizes.len() { (k / s) % n } else { 0 };
        assert(j == place(sizes@, dim as int, k as int));
        assert(0 <= j < n);
        let x: T = sums[j].plus(v[k].times(v[k]));
        sums.set(j, x);
        k = k + 1;
    }
    let mut norms: Vec<T> = Vec::new();
    let mut j: usize = 0;
    while j < n
        invariant
            j <= n,
            sums.len() == n,
            norms.len() == j,
            arith::deterministic::<T>() ==> forall|i: int|
                0 <= i < n ==> #[trigger] sums@[i] == squares(
                    v@,
                    sizes@,
                    dim as int,
                    i,
                    v.len() as int,
                ),
            arith::deterministic::<T>() ==> forall|i: int|
                0 <= i < j ==> #[trigger] norms@[i] == arith::root(
                    squares(v@, sizes@, dim as int, i, v.len() as int),
                ),
        decreases n - j,
    {
        let x: T = sums[j];
        norms.push(x.root());
        j = j + 1;
    }
    let mut w: Vec<T> = Vec::new();
    let mut k: usize = 0;
    while k < v.len()
        invariant
            k <= v.len(),
            0 < s,
            0 < n,
            n == places(sizes@, dim as int),
            dim < sizes.len() ==> s == stride(sizes@, dim as int),
            norms.len() == n,
            g.len() == 1 || g.len() == n,
            w.len() == k,
            arith::deterministic::<T>() ==> forall|i: int|
                0 <= i < n ==> #[trigger] norms@[i] == arith::root(
                    squares(v@, sizes@, dim as int, i, v.len() as int),
                ),
            arith::deterministic::<T>() ==> forall|i: int|
                0 <= i < k ==> #[trigger] w@[i] == folded_at(v@, sizes@, g@, dim as int, i),
        decreases v.len() - k,
    {
        let j: usize = if dim < sizes.len() { (k / s) % n } else { 0 };
        assert(j == place(sizes@, dim as int, k as int));
        assert(0 <= j < n);
        let m: T = if g.len() == 1 { g[0] } else { g[j] };
        w.push(v[k].times(m.over(norms[j])));
        k = k + 1;
    }
    w
}

/// The stride of a tensor that is in memory is a size.
proof fn lemma_stride_fits(sizes: Seq<usize>, dim: int)
    requires
        0 <= dim < sizes.len(),
        0 < product(sizes) <= usize::MAX,
    ensures
        0 < stride(sizes, dim) <= product(sizes),
    decreases sizes.len(),
{
    let front = sizes.drop_last();
    let last = sizes.last();
    lemma_product_is_a_size(front);
    assert(0 < product(front) && product(front) <= product(front) * last) by (nonlinear_arith)
        requires
            product(front) * last > 0,
            product(front) >= 0,
            last >= 0,
    ;
    if dim + 1 == sizes.len() {
        assert(sizes.skip(dim + 1) =~= seq![]);
    } else {
        lemma_stride_fits(front, dim);
        assert(sizes.skip(dim + 1).drop_last() =~= front.skip(dim + 1));
        assert(sizes.skip(dim + 1).last() == last);
        assert(0 < stride(front, dim) * last <= product(front) * last) by (nonlinear_arith)
            requires
                0 < stride(front, dim) <= product(front),
                product(front) * last > 0,
                last >= 0,
        ;
    }
}

/// Along the first dimension of a matrix the numbers of a row lie at one place, and each row at a
/// place of its own: rows are scaled on their own.
pub proof fn law_rows_fold_on_their_own(rows: usize, columns: usize, row: int, column: int)
    requires
        0 <= row < rows,
        0 <= column < columns,
    ensures
        place(seq![rows, columns], 0, row * columns + column) == row,
{
    let sizes = seq![rows, columns];
    assert(sizes.skip(1) =~= seq![columns]);
    assert(seq![columns].drop_last() =~= Seq::<usize>::empty());
    assert(product(Seq::<usize>::empty()) == 1);
    assert(product(seq![columns]) == columns);
    vstd::arithmetic::div_mod::lemma_fundamental_div_mod_converse(
        row * columns + column,
        columns as int,
        row,
        column,
    );
    vstd::arithmetic::div_mod::lemma_small_mod(row as nat, rows as nat);
}

/// Along the last dimension numbers that follow each other lie at places that follow each other,
/// round and round; along a dimension that there is not, all lie at one place.
pub proof fn law_last_dimension_runs_fastest(sizes: Seq<usize>, dim: int, k: int)
    requires
        0 <= k,
        sizes.len() > 0,
        0 < sizes.last(),
    ensures
        place(sizes, sizes.len() - 1, k) == k % sizes.last() as int,
        dim >= sizes.len() ==> place(sizes, dim, k) == 0,
{
    assert(sizes.skip(sizes.len() as int).len() == 0);
    assert(product(sizes.skip(sizes.len() as int)) == 1);
    assert(stride(sizes, sizes.len() - 1) == 1);
    assert(k / 1 == k);
}

/// A place with one number alone is scaled to its magnitude: where all other numbers at its place
/// are zero and the root undoes the square, the number becomes the magnitude there.
pub proof fn law_lone_number_gets_the_magnitude<T: Real>(
    v: Seq<T>,
    sizes: Seq<usize>,
    g: Seq<T>,
    dim: int,
    k: int,
)
    requires
        arith::neutral::<T>(),
        0 <= k < v.len(),
        forall|i: int|
            0 <= i < v.len() && i != k && place(sizes, dim, i) == place(sizes, dim, k)
                ==> #[trigger] v[i] == arith::whole::<T>(0),
        arith::root(arith::times(v[k], v[k])) == v[k],
        forall|m: T| #[trigger] arith::times(v[k], arith::over(m, v[k])) == m,
    ensures
        g.len() == 1 ==> folded_at(v, sizes, g, dim, k) == g[0],
        g.len() != 1 ==> folded_at(v, sizes, g, dim, k) == g[place(sizes, dim, k)],
{
    lemma_lone_square(v, sizes, dim, k, v.len() as int);
}

/// The squares of a place with one number alone add up to its square.
proof fn lemma_lone_square<T: Real>(v: Seq<T>, sizes: Seq<usize>, dim: int, k: int, n: int)
    requires
        arith::neutral::<T>(),
        0 <= k < v.len(),
        0 <= n <= v.len(),
        forall|i: int|
            0 <= i < v.len() && i != k && place(sizes, dim, i) == place(sizes, dim, k)
                ==> #[trigger] v[i] == arith::whole::<T>(0),
    ensures
        squares(v, sizes, dim, place(sizes, dim, k), n) == (if k < n {
            arith::times(v[k], v[k])
        } else {
            arith::whole::<T>(0)
        }),
    decreases n,
{
    if n > 0 {
        lemma_lone_square(v, sizes, dim, k, n - 1);
        if n - 1 != k && place(sizes, dim, n - 1) == place(sizes, dim, k) {
            assert(v[n - 1] == arith::whole::<T>(0));
        }
    }
}

/// The numbers at other places do not matter: directions that agree at the place of a number fold
/// it alike.
pub proof fn law_places_fold_on_their_own<T: Real>(
    v: Seq<T>,
    other: Seq<T>,
    sizes: Seq<usize>,
    g: Seq<T>,
    dim: int,
    k: int,
)
    requires
        v.len() == other.len(),
        0 <= k < v.len(),
        forall|i: int|
            0 <= i < v.len() && place(sizes, dim, i) == place(sizes, dim, k) ==> #[trigger] v[i]
                == other[i],
    ensures
        folded_at(v, sizes, g, dim, k) == folded_at(other, sizes, g, dim, k),
{
    lemma_squares_agree(v, other, sizes, dim, place(sizes, dim, k), v.len() as int);
    assert(v[k] == other[k]);
}

/// Directions that agree at a place have the same squares there.
proof fn lemma_squares_agree<T: Real>(
    v: Seq<T>,
    other: Seq<T>,
    sizes: Seq<usize>,
    dim: int,
    j: int,
    n: int,
)
    requires
        v.len() == other.len(),
        n <= v.len(),
        forall|i: int|
            0 <= i < v.len() && place(sizes, dim, i) == j ==> #[trigger] v[i] == other[i],
    ensures
        squares(v, sizes, dim, j, n) == squares(other, sizes, dim, j, n),
    decreases n,
{
    if n > 0 {
        lemma_squares_agree(v, other, sizes, dim, j, n - 1);
        if place(sizes, dim, n - 1) == j {
            assert(v[n - 1] == other[n - 1]);
        }
    }
}

} // verus!
