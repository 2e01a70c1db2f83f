//! Sample arithmetic, left to the caller.
//!
//! The signal code of this library is generic over the number type that it works on. A type
//! takes part by implementing [`Real`]; what its operations compute, and how they round, is
//! the type's own affair. What the library states about a result is stated over the results of
//! those operations, through the spec functions of this module (`plus(a, b)` is what
//! `a.plus(b)` returns), wherever each operation is a function of its operands
//! ([`deterministic`]), as it is for the IEEE types.

use vstd::prelude::*;

verus! {

/// A number type that signals are made of.
pub trait Real: Copy {
    /// The integer `n`, rounded to the type.
    fn whole(n: i64) -> Self;

    /// The size `n`, rounded to the type.
    fn count(n: usize) -> Self;

    /// The quotient of the integers `n` and `d`, rounded once: `fraction(65, 100)` is 0.65.
    fn fraction(n: i64, d: i64) -> Self;

    /// The non-negative number whose [`rank`](Real::rank) is `n`.
    fn unranked(n: u64) -> Self;

    /// The circle constant.
    fn pi() -> Self;

    /// The lowest finite number of the type.
    fn lowest() -> Self;

    /// Sum.
    fn plus(self, other: Self) -> Self;

    /// Difference.
    fn minus(self, other: Self) -> Self;

    /// Product.
    fn times(self, other: Self) -> Self;

    /// Quotient.
    fn over(self, other: Self) -> Self;

    /// The larger operand; an operand that is not a number is passed over.
    fn larger(self, other: Self) -> Self;

    /// The smaller operand; an operand that is not a number is passed over.
    fn smaller(self, other: Self) -> Self;

    /// `self` raised to `other`.
    fn power(self, other: Self) -> Self;

    /// The opposite number.
    fn negated(self) -> Self;

    /// The absolute value.
    fn absolute(self) -> Self;

    /// One with the sign of `self`.
    fn sign(self) -> Self;

    /// What is left of `self` after its integer part.
    fn fractional(self) -> Self;

    /// The square root.
    fn root(self) -> Self;

    /// The sine of an angle in radians.
    fn sine(self) -> Self;

    /// The cosine of an angle in radians.
    fn cosine(self) -> Self;

    /// The natural exponential.
    fn exponential(self) -> Self;

    /// The natural logarithm.
    fn logarithm(self) -> Self;

    /// The logarithm to base ten.
    fn decimal_logarithm(self) -> Self;

    /// The hyperbolic tangent.
    fn tangent(self) -> Self;

    /// Whether `self < other`.
    fn below(self, other: Self) -> bool;

    /// Whether `self <= other`.
    fn at_most(self, other: Self) -> bool;

    /// A number that orders absolute values: `a.rank() < b.rank()` where `|a|` comes before
    /// `|b|` in the total order of the type (for an IEEE type, the bits without the sign).
    fn rank(self) -> u64;

    /// The largest integer that is not above `self`, saturated to the range of `i64`.
    fn floor(self) -> i64;

    /// The smallest integer that is not below `self`, saturated to the range of `i64`.
    fn ceiling(self) -> i64;

    /// The integer part, saturated to the range of `usize`.
    fn truncated(self) -> usize;
}

/// What [`Real::whole`] returns.
pub open spec fn whole<T: Real>(n: i64) -> T {
    choose|r: T| call_ensures(T::whole, (n,), r)
}

/// What [`Real::count`] returns.
pub open spec fn count<T: Real>(n: usize) -> T {
    choose|r: T| call_ensures(T::count, (n,), r)
}

/// What [`Real::fraction`] returns.
pub open spec fn fraction<T: Real>(n: i64, d: i64) -> T {
    choose|r: T| call_ensures(T::fraction, (n, d), r)
}

/// What [`Real::unranked`] returns.
pub open spec fn unranked<T: Real>(n: u64) -> T {
    choose|r: T| call_ensures(T::unranked, (n,), r)
}

/// What [`Real::pi`] returns.
pub open spec fn pi<T: Real>() -> T {
    choose|r: T| call_ensures(T::pi, (), r)
}

/// What [`Real::lowest`] returns.
pub open spec fn lowest<T: Real>() -> T {
    choose|r: T| call_ensures(T::lowest, (), r)
}

/// What [`Real::plus`] returns.
pub open spec fn plus<T: Real>(a: T, b: T) -> T {
    choose|r: T| call_ensures(T::plus, (a, b), r)
}

/// What [`Real::minus`] returns.
pub open spec fn minus<T: Real>(a: T, b: T) -> T {
    choose|r: T| call_ensures(T::minus, (a, b), r)
}

/// What [`Real::times`] returns.
pub open spec fn times<T: Real>(a: T, b: T) -> T {
    choose|r: T| call_ensures(T::times, (a, b), r)
}

/// What [`Real::over`] returns.
pub open spec fn over<T: Real>(a: T, b: T) -> T {
    choose|r: T| call_ensures(T::over, (a, b), r)
}

/// What [`Real::larger`] returns.
pub open spec fn larger<T: Real>(a: T, b: T) -> T {
    choose|r: T| call_ensures(T::larger, (a, b), r)
}

/// What [`Real::smaller`] returns.
pub open spec fn smaller<T: Real>(a: T, b: T) -> T {
    choose|r: T| call_ensures(T::smaller, (a, b), r)
}

/// What [`Real::power`] returns.
pub open spec fn power<T: Real>(a: T, b: T) -> T {
    choose|r: T| call_ensures(T::power, (a, b), r)
}

/// What [`Real::negated`] returns.
pub open spec fn negated<T: Real>(a: T) -> T {
    choose|r: T| call_ensures(T::negated, (a,), r)
}

/// What [`Real::absolute`] returns.
pub open spec fn absolute<T: Real>(a: T) -> T {
    choose|r: T| call_ensures(T::absolute, (a,), r)
}

/// What [`Real::sign`] returns.
pub open spec fn sign<T: Real>(a: T) -> T {
    choose|r: T| call_ensures(T::sign, (a,), r)
}

/// What [`Real::fractional`] returns.
pub open spec fn fractional<T: Real>(a: T) -> T {
    choose|r: T| call_ensures(T::fractional, (a,), r)
}

/// What [`Real::root`] returns.
pub open spec fn root<T: Real>(a: T) -> T {
    choose|r: T| call_ensures(T::root, (a,), r)
}

/// What [`Real::sine`] returns.
pub open spec fn sine<T: Real>(a: T) -> T {
    choose|r: T| call_ensures(T::sine, (a,), r)
}

/// What [`Real::cosine`] returns.
pub open spec fn cosine<T: Real>(a: T) -> T {
    choose|r: T| call_ensures(T::cosine, (a,), r)
}

/// What [`Real::exponential`] returns.
pub open spec fn exponential<T: Real>(a: T) -> T {
    choose|r: T| call_ensures(T::exponential, (a,), r)
}

/// What [`Real::logarithm`] returns.
pub open spec fn logarithm<T: Real>(a: T) -> T {
    choose|r: T| call_ensures(T::logarithm, (a,), r)
}

/// What [`Real::decimal_logarithm`] returns.
pub open spec fn decimal_logarithm<T: Real>(a: T) -> T {
    choose|r: T| call_ensures(T::decimal_logarithm, (a,), r)
}

/// What [`Real::tangent`] returns.
pub open spec fn tangent<T: Real>(a: T) -> T {
    choose|r: T| call_ensures(T::tangent, (a,), r)
}

/// What [`Real::below`] returns.
pub open spec fn below<T: Real>(a: T, b: T) -> bool {
    choose|r: bool| call_ensures(T::below, (a, b), r)
}

/// What [`Real::at_most`] returns.
pub open spec fn at_most<T: Real>(a: T, b: T) -> bool {
    choose|r: bool| call_ensures(T::at_most, (a, b), r)
}

/// What [`Real::rank`] returns.
pub open spec fn rank<T: Real>(a: T) -> u64 {
    choose|r: u64| call_ensures(T::rank, (a,), r)
}

/// What [`Real::floor`] returns.
pub open spec fn floor<T: Real>(a: T) -> i64 {
    choose|r: i64| call_ensures(T::floor, (a,), r)
}

/// What [`Real::ceiling`] returns.
pub open spec fn ceiling<T: Real>(a: T) -> i64 {
    choose|r: i64| call_ensures(T::ceiling, (a,), r)
}

/// What [`Real::truncated`] returns.
pub open spec fn truncated<T: Real>(a: T) -> usize {
    choose|r: usize| call_ensures(T::truncated, (a,), r)
}

/// Whether each operation of `T` is a function of its operands.
pub open spec fn deterministic<T: Real>() -> bool {
    &&& forall|n: i64, r: T, s: T|
        #![trigger call_ensures(T::whole, (n,), r), call_ensures(T::whole, (n,), s)]
        call_ensures(T::whole, (n,), r) && call_ensures(T::whole, (n,), s) ==> r == s
    &&& forall|n: usize, r: T, s: T|
        #![trigger call_ensures(T::count, (n,), r), call_ensures(T::count, (n,), s)]
        call_ensures(T::count, (n,), r) && call_ensures(T::count, (n,), s) ==> r == s
    &&& forall|n: i64, d: i64, r: T, s: T|
        #![trigger call_ensures(T::fraction, (n, d), r), call_ensures(T::fraction, (n, d), s)]
        call_ensures(T::fraction, (n, d), r) && call_ensures(T::fraction, (n, d), s) ==> r == s
    &&& forall|n: u64, r: T, s: T|
        #![trigger call_ensures(T::unranked, (n,), r), call_ensures(T::unranked, (n,), s)]
        call_ensures(T::unranked, (n,), r) && call_ensures(T::unranked, (n,), s) ==> r == s
    &&& forall|r: T, s: T|
        #![trigger call_ensures(T::pi, (), r), call_ensures(T::pi, (), s)]
        call_ensures(T::pi, (), r) && call_ensures(T::pi, (), s) ==> r == s
    &&& forall|r: T, s: T|
        #![trigger call_ensures(T::lowest, (), r), call_ensures(T::lowest, (), s)]
        call_ensures(T::lowest, (), r) && call_ensures(T::lowest, (), s) ==> r == s
    &&& forall|a: T, b: T, r: T, s: T|
        #![trigger call_ensures(T::plus, (a, b), r), call_ensures(T::plus, (a, b), s)]
        call_ensures(T::plus, (a, b), r) && call_ensures(T::plus, (a, b), s) ==> r == s
    &&& forall|a: T, b: T, r: T, s: T|
        #![trigger call_ensures(T::minus, (a, b), r), call_ensures(T::minus, (a, b), s)]
        call_ensures(T::minus, (a, b), r) && call_ensures(T::minus, (a, b), s) ==> r == s
    &&& forall|a: T, b: T, r: T, s: T|
        #![trigger call_ensures(T::times, (a, b), r), call_ensures(T::times, (a, b), s)]
        call_ensures(T::times, (a, b), r) && call_ensures(T::times, (a, b), s) ==> r == s
    &&& forall|a: T, b: T, r: T, s: T|
        #![trigger call_ensures(T::over, (a, b), r), call_ensures(T::over, (a, b), s)]
        call_ensures(T::over, (a, b), r) && call_ensures(T::over, (a, b), s) ==> r == s
    &&& forall|a: T, b: T, r: T, s: T|
        #![trigger call_ensures(T::larger, (a, b), r), call_ensures(T::larger, (a, b), s)]
        call_ensures(T::larger, (a, b), r) && call_ensures(T::larger, (a, b), s) ==> r == s
    &&& forall|a: T, b: T, r: T, s: T|
        #![trigger call_ensures(T::smaller, (a, b), r), call_ensures(T::smaller, (a, b), s)]
        call_ensures(T::smaller, (a, b), r) && call_ensures(T::smaller, (a, b), s) ==> r == s
    &&& forall|a: T, b: T, r: T, s: T|
        #![trigger call_ensures(T::power, (a, b), r), call_ensures(T::power, (a, b), s)]
        call_ensures(T::power, (a, b), r) && call_ensures(T::power, (a, b), s) ==> r == s
    &&& forall|a: T, r: T, s: T|
        #![trigger call_ensures(T::negated, (a,), r), call_ensures(T::negated, (a,), s)]
        call_ensures(T::negated, (a,), r) && call_ensures(T::negated, (a,), s) ==> r == s
    &&& forall|a: T, r: T, s: T|
        #![trigger call_ensures(T::absolute, (a,), r), call_ensures(T::absolute, (a,), s)]
        call_ensures(T::absolute, (a,), r) && call_ensures(T::absolute, (a,), s) ==> r == s
    &&& forall|a: T, r: T, s: T|
        #![trigger call_ensures(T::sign, (a,), r), call_ensures(T::sign, (a,), s)]
        call_ensures(T::sign, (a,), r) && call_ensures(T::sign, (a,), s) ==> r == s
    &&& forall|a: T, r: T, s: T|
        #![trigger call_ensures(T::fractional, (a,), r), call_ensures(T::fractional, (a,), s)]
        call_ensures(T::fractional, (a,), r) && call_ensures(T::fractional, (a,), s) ==> r == s
    &&& forall|a: T, r: T, s: T|
        #![trigger call_ensures(T::root, (a,), r), call_ensures(T::root, (a,), s)]
        call_ensures(T::root, (a,), r) && call_ensures(T::root, (a,), s) ==> r == s
    &&& forall|a: T, r: T, s: T|
        #![trigger call_ensures(T::sine, (a,), r), call_ensures(T::sine, (a,), s)]
        call_ensures(T::sine, (a,), r) && call_ensures(T::sine, (a,), s) ==> r == s
    &&& forall|a: T, r: T, s: T|
        #![trigger call_ensures(T::cosine, (a,), r), call_ensures(T::cosine, (a,), s)]
        call_ensures(T::cosine, (a,), r) && call_ensures(T::cosine, (a,), s) ==> r == s
    &&& forall|a: T, r: T, s: T|
        #![trigger call_ensures(T::exponential, (a,), r), call_ensures(T::exponential, (a,), s)]
        call_ensures(T::exponential, (a,), r) && call_ensures(T::exponential, (a,), s) ==> r == s
    &&& forall|a: T, r: T, s: T|
        #![trigger call_ensures(T::logarithm, (a,), r), call_ensures(T::logarithm, (a,), s)]
        call_ensures(T::logarithm, (a,), r) && call_ensures(T::logarithm, (a,), s) ==> r == s
    &&& forall|a: T, r: T, s: T|
        #![trigger call_ensures(T::decimal_logarithm, (a,), r), call_ensures(T::decimal_logarithm, (a,), s)]
        call_ensures(T::decimal_logarithm, (a,), r) && call_ensures(T::decimal_logarithm, (a,), s) ==> r == s
    &&& forall|a: T, r: T, s: T|
        #![trigger call_ensures(T::tangent, (a,), r), call_ensures(T::tangent, (a,), s)]
        call_ensures(T::tangent, (a,), r) && call_ensures(T::tangent, (a,), s) ==> r == s
    &&& forall|a: T, b: T, r: bool, s: bool|
        #![trigger call_ensures(T::below, (a, b), r), call_ensures(T::below, (a, b), s)]
        call_ensures(T::below, (a, b), r) && call_ensures(T::below, (a, b), s) ==> r == s
    &&& forall|a: T, b: T, r: bool, s: bool|
        #![trigger call_ensures(T::at_most, (a, b), r), call_ensures(T::at_most, (a, b), s)]
        call_ensures(T::at_most, (a, b), r) && call_ensures(T::at_most, (a, b), s) ==> r == s
    &&& forall|a: T, r: u64, s: u64|
        #![trigger call_ensures(T::rank, (a,), r), call_ensures(T::rank, (a,), s)]
        call_ensures(T::rank, (a,), r) && call_ensures(T::rank, (a,), s) ==> r == s
    &&& forall|a: T, r: i64, s: i64|
        #![trigger call_ensures(T::floor, (a,), r), call_ensures(T::floor, (a,), s)]
        call_ensures(T::floor, (a,), r) && call_ensures(T::floor, (a,), s) ==> r == s
    &&& forall|a: T, r: i64, s: i64|
        #![trigger call_ensures(T::ceiling, (a,), r), call_ensures(T::ceiling, (a,), s)]
        call_ensures(T::ceiling, (a,), r) && call_ensures(T::ceiling, (a,), s) ==> r == s
    &&& forall|a: T, r: usize, s: usize|
        #![trigger call_ensures(T::truncated, (a,), r), call_ensures(T::truncated, (a,), s)]
        call_ensures(T::truncated, (a,), r) && call_ensures(T::truncated, (a,), s) ==> r == s
}

/// The number held between `lo` and `hi`: `lo` below the one, `hi` above the other.
pub open spec fn clamped<T: Real>(x: T, lo: T, hi: T) -> T {
    if below(x, lo) {
        lo
    } else if below(hi, x) {
        hi
    } else {
        x
    }
}

/// Holds `x` between `lo` and `hi`.
pub fn clamp<T: Real>(x: T, lo: T, hi: T) -> (r: T)
    ensures
        deterministic::<T>() ==> r == clamped(x, lo, hi),
{
    if x.below(lo) {
        lo
    } else if hi.below(x) {
        hi
    } else {
        x
    }
}

/// The sum of a list, added up from the first number on.
pub open spec fn total<T: Real>(s: Seq<T>) -> T
    decreases s.len(),
{
    if s.len() == 0 {
        whole(0)
    } else {
        plus(total(s.drop_last()), s.last())
    }
}

/// The sum of a list.
pub fn sum<T: Real>(v: &Vec<T>) -> (r: T)
    ensures
        deterministic::<T>() ==> r == total(v@),
{
    let mut r: T = T::whole(0);
    let mut k: usize = 0;
    assert(v@.take(0) =~= Seq::empty());
    while k < v.len()
        invariant
            k <= v.len(),
            deterministic::<T>() ==> r == total(v@.take(k as int)),
        decreases v.len() - k,
    {
        r = r.plus(v[k]);
        assert(v@.take(k + 1).drop_last() =~= v@.take(k as int));
        k = k + 1;
    }
    assert(v@.take(v.len() as int) =~= v@);
    r
}

/// A wider number type, in which sums of `T` are formed.
pub trait Wide<T: Real>: Real {
    /// The number `x` in the wider type.
    fn widened(x: T) -> Self;

    /// The number rounded to the narrower type.
    fn narrowed(self) -> T;
}

/// What [`Wide::widened`] returns.
pub open spec fn widened<T: Real, W: Wide<T>>(x: T) -> W {
    choose|r: W| call_ensures(W::widened, (x,), r)
}

/// What [`Wide::narrowed`] returns.
pub open spec fn narrowed<T: Real, W: Wide<T>>(x: W) -> T {
    choose|r: T| call_ensures(W::narrowed, (x,), r)
}

/// Whether each operation of `T` and `W`, and each conversion between them, is a function of
/// its operands.
pub open spec fn wide_deterministic<T: Real, W: Wide<T>>() -> bool {
    &&& deterministic::<T>()
    &&& deterministic::<W>()
    &&& forall|x: T, r: W, s: W|
        #![trigger call_ensures(W::widened, (x,), r), call_ensures(W::widened, (x,), s)]
        call_ensures(W::widened, (x,), r) && call_ensures(W::widened, (x,), s) ==> r == s
    &&& forall|x: W, r: T, s: T|
        #![trigger call_ensures(W::narrowed, (x,), r), call_ensures(W::narrowed, (x,), s)]
        call_ensures(W::narrowed, (x,), r) && call_ensures(W::narrowed, (x,), s) ==> r == s
}

/// Whether `a` is a number: an IEEE type has values that are not, and those do not compare with
/// themselves.
pub open spec fn number<T: Real>(a: T) -> bool {
    at_most(a, a)
}

/// Whether `at_most` is a total order of the numbers of the type, as it is for an IEEE type.
#[verifier::opaque]
pub open spec fn ordered<T: Real>() -> bool {
    &&& forall|a: T, b: T|
        number(a) && number(b) ==> #[trigger] at_most(a, b) || at_most(b, a)
    &&& forall|a: T, b: T, c: T|
        #[trigger] at_most(a, b) && #[trigger] at_most(b, c) ==> at_most(a, c)
}

/// Of two numbers one is at most the other.
pub proof fn lemma_total<T: Real>(a: T, b: T)
    requires
        ordered::<T>(),
        number(a),
        number(b),
    ensures
        at_most(a, b) || at_most(b, a),
{
    reveal(ordered);
}

/// The order is transitive.
pub proof fn lemma_transitive<T: Real>(a: T, b: T, c: T)
    requires
        ordered::<T>(),
        at_most(a, b),
        at_most(b, c),
    ensures
        at_most(a, c),
{
    reveal(ordered);
}

/// Whether a number lies in the range from zero to one.
pub open spec fn is_share<T: Real>(x: T) -> bool {
    at_most(whole(0), x) && at_most(x, whole(1))
}

/// Whether shares are computed with as in an IEEE type, where rounding never leaves a range whose
/// ends are numbers of the type: what is left of a share, a share of a share, the quotient of two
/// sizes and that of two numbers, if it is one, are shares where they are without rounding.
pub open spec fn shares_stay_in_range<T: Real>() -> bool {
    &&& is_share(whole::<T>(1))
    &&& forall|x: T| is_share(x) ==> is_share(#[trigger] minus(whole(1), x))
    &&& forall|x: T, y: T| is_share(x) && is_share(y) ==> is_share(#[trigger] times(x, y))
    &&& forall|m: usize, n: usize|
        m <= n && 0 < n ==> is_share(#[trigger] over(count::<T>(m), count::<T>(n)))
    &&& forall|x: T, y: T|
        at_most(whole(0), x) && at_most(x, y) && number(#[trigger] over(x, y)) ==> is_share(
            over(x, y),
        )
}

/// Whether the larger of two is at least each of them that is a number, and only numbers compare,
/// as it is for an IEEE type.
pub open spec fn larger_is_upper<T: Real>() -> bool {
    &&& forall|a: T, b: T| #[trigger] at_most(a, b) ==> number(a) && number(b)
    &&& forall|a: T, b: T| number(a) ==> at_most(a, #[trigger] larger(a, b))
    &&& forall|a: T, b: T| number(b) ==> at_most(b, #[trigger] larger(a, b))
}

/// Whether `a` is zero: an IEEE type has two zeros, each at most the other.
pub open spec fn is_zero<T: Real>(a: T) -> bool {
    at_most(a, whole(0)) && at_most(whole(0), a)
}

/// Whether zeros are computed with as in an IEEE type: the difference and the sum of two are zero,
/// so is one over a count, and none lies above zero or above one.
pub open spec fn zeros_stay_zero<T: Real>() -> bool {
    &&& is_zero(whole::<T>(0))
    &&& forall|a: T, b: T| is_zero(a) && is_zero(b) ==> is_zero(#[trigger] minus(a, b))
    &&& forall|a: T, b: T| is_zero(a) && is_zero(b) ==> is_zero(#[trigger] plus(a, b))
    &&& forall|a: T, n: usize| is_zero(a) && 0 < n ==> is_zero(#[trigger] over(a, count(n)))
    &&& forall|a: T| is_zero(a) ==> !#[trigger] below(whole(0), a)
    &&& forall|a: T| is_zero(a) ==> !#[trigger] below(whole(1), a)
}

/// Whether zero and one are neutral in `T`, as they are in exact arithmetic, and among the finite
/// numbers of an IEEE type up to the sign of zero: zero adds nothing and takes nothing away, what
/// is multiplied by it is zero, and what is multiplied or divided by one stays.
pub open spec fn neutral<T: Real>() -> bool {
    let zero = whole::<T>(0);
    let one = whole::<T>(1);
    &&& forall|x: T| #[trigger] plus(x, zero) == x
    &&& forall|x: T| #[trigger] plus(zero, x) == x
    &&& forall|x: T| #[trigger] minus(x, zero) == x
    &&& forall|x: T| #[trigger] times(x, zero) == zero
    &&& forall|x: T| #[trigger] times(zero, x) == zero
    &&& forall|x: T| #[trigger] times(x, one) == x
    &&& forall|x: T| #[trigger] times(one, x) == x
    &&& forall|x: T| #[trigger] over(x, one) == x
    &&& minus(one, one) == zero
}

/// Whether a number blended with itself stays, whatever the share, as in exact arithmetic.
pub open spec fn blends<T: Real>() -> bool {
    forall|x: T, w: T|
        plus(#[trigger] times(x, minus(whole(1), w)), #[trigger] times(x, w)) == x
}

/// Whether a blend of two numbers lies between them, as in exact arithmetic.
pub open spec fn blends_between<T: Real>() -> bool {
    forall|x: T, y: T, w: T|
        is_share(w) && at_most(x, y) ==> {
            let up = plus(#[trigger] times(x, minus(whole(1), w)), #[trigger] times(y, w));
            let down = plus(times(y, minus(whole(1), w)), times(x, w));
            &&& at_most(x, up) && at_most(up, y)
            &&& at_most(x, down) && at_most(down, y)
        }
}

/// A sum counts every number once: where all but one are zero it is that one, wherever it stands.
pub proof fn law_sum_counts_each<T: Real>(s: Seq<T>, k: int)
    requires
        neutral::<T>(),
        0 <= k < s.len(),
        forall|j: int| 0 <= j < s.len() && j != k ==> #[trigger] s[j] == whole::<T>(0),
    ensures
        total(s) == s[k],
    decreases s.len(),
{
    let front = s.drop_last();
    if k < front.len() {
        law_sum_counts_each(front, k);
        assert(s[s.len() - 1] == whole::<T>(0));
    } else {
        lemma_zeros_sum_to_zero(front);
    }
}

/// A sum of zeros is zero.
pub proof fn lemma_zeros_sum_to_zero<T: Real>(s: Seq<T>)
    requires
        neutral::<T>(),
        forall|j: int| 0 <= j < s.len() ==> #[trigger] s[j] == whole::<T>(0),
    ensures
        total(s) == whole::<T>(0),
    decreases s.len(),
{
    if s.len() > 0 {
        lemma_zeros_sum_to_zero(s.drop_last());
        assert(s[s.len() - 1] == whole::<T>(0));
    }
}

/// Whether the shares of a way add up to all of it, as in exact arithmetic: for an `x` between `a`
/// and `b`, what is left from there and what was gone, each as a share of the way from `a` to `b`.
pub open spec fn shares_add_up<T: Real>() -> bool {
    forall|a: T, b: T, x: T|
        below(a, x) && below(x, b) ==> plus(
            #[trigger] over(minus(b, x), minus(b, a)),
            #[trigger] over(minus(x, a), minus(b, a)),
        ) == whole::<T>(1)
}

/// Whether an order is strict, as that of numbers is: what is below another number is at most
/// that number, which is not at most it.
pub open spec fn strict<T: Real>() -> bool {
    forall|a: T, b: T| #[trigger] below(a, b) ==> at_most(a, b) && !at_most(b, a) && !below(b, a)
}

} // verus!
