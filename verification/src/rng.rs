//! A small random number generator, xorshift64*, whose sequence does not depend on the machine.

use vstd::prelude::*;
use crate::arith;
use crate::arith::Real;
use crate::arith::Wide;

verus! {

/// The state after one step of the generator.
pub open spec fn advanced(s: u64) -> u64 {
    let a = s ^ (s >> 12);
    let b = a ^ (a << 25);
    b ^ (b >> 27)
}

/// The state after `n` steps.
pub open spec fn state_after(seed: u64, n: nat) -> u64
    decreases n,
{
    if n == 0 {
        seed
    } else {
        advanced(state_after(seed, (n - 1) as nat))
    }
}

/// The 53 bits that a state gives: the upper ones of its product with a fixed odd number.
pub open spec fn bits(s: u64) -> u64 {
    s.wrapping_mul(0x2545_F491_4F6C_DD1D) >> 11
}

/// The number from 0 to 1 that a state stands for: its bits as a fraction.
pub open spec fn unit<W: Real>(s: u64) -> W {
    arith::over(arith::whole(bits(s) as i64), arith::whole(9_007_199_254_740_992))
}

/// The number from 0 to 1 that a state stands for, rounded to the narrower type.
pub open spec fn narrow_unit<T: Real, W: Wide<T>>(s: u64) -> T {
    arith::narrowed::<T, W>(unit::<W>(s))
}

/// The normally distributed number that two uniform ones stand for.
pub open spec fn normal<T: Real>(u1: T, u2: T) -> T {
    let u = arith::larger(u1, arith::fraction(1, 1_000_000_000_000));
    arith::times(
        arith::root(arith::times(arith::whole((-2) as i64), arith::logarithm(u))),
        arith::cosine(arith::times(arith::times(arith::whole(2), arith::pi()), u2)),
    )
}

/// A generator.
pub struct Rng {
    /// The state.
    pub state: u64,
}

impl Rng {
    /// The next number from 0 to 1, in the wider type.
    pub fn wide_uniform<W: Real>(&mut self) -> (r: W)
        ensures
            final(self).state == advanced(old(self).state),
            arith::deterministic::<W>() ==> r == unit::<W>(final(self).state),
    {
        let mut s: u64 = self.state;
        s = s ^ (s >> 12);
        s = s ^ (s << 25);
        s = s ^ (s >> 27);
        self.state = s;
        let product: u64 = s.wrapping_mul(0x2545_F491_4F6C_DD1D);
        let top: u64 = product >> 11;
        assert(top <= 0x1f_ffff_ffff_ffff) by (bit_vector)
            requires
                top == product >> 11,
        ;
        W::whole(top as i64).over(W::whole(9_007_199_254_740_992))
    }

    /// The next number from 0 to 1.
    pub fn uniform<T: Real, W: Wide<T>>(&mut self) -> (r: T)
        ensures
            final(self).state == advanced(old(self).state),
            arith::wide_deterministic::<T, W>() ==> r == narrow_unit::<T, W>(final(self).state),
    {
        let u: W = self.wide_uniform();
        u.narrowed()
    }

    /// The next normally distributed number.
    pub fn gaussian<T: Real, W: Wide<T>>(&mut self) -> (r: T)
        ensures
            final(self).state == advanced(advanced(old(self).state)),
            arith::wide_deterministic::<T, W>() ==> r == normal(
                narrow_unit::<T, W>(advanced(old(self).state)),
                narrow_unit::<T, W>(final(self).state),
            ),
    {
        let u1: T = self.uniform::<T, W>().larger(T::fraction(1, 1_000_000_000_000));
        let u2: T = self.uniform::<T, W>();
        T::whole(-2).times(u1.logarithm()).root().times(
            T::whole(2).times(T::pi()).times(u2).cosine(),
        )
    }
}

/// A generator that starts at any state but zero never comes to zero, where it would stay.
pub proof fn law_generator_never_stops(seed: u64, n: nat)
    requires
        seed != 0,
    ensures
        state_after(seed, n) != 0,
    decreases n,
{
    if n > 0 {
        law_generator_never_stops(seed, (n - 1) as nat);
        let s = state_after(seed, (n - 1) as nat);
        assert(s != 0 ==> {
            let a = s ^ (s >> 12);
            let b = a ^ (a << 25);
            b ^ (b >> 27) != 0
        }) by (bit_vector);
    }
}

/// A step of the generator loses nothing: different states have different successors, and the
/// successor of two states put together bit by bit is that of theirs.
pub proof fn law_steps_lose_nothing(s: u64, t: u64)
    ensures
        advanced(s) == advanced(t) ==> s == t,
        advanced(s ^ t) == advanced(s) ^ advanced(t),
{
    assert(({
        let a = s ^ (s >> 12);
        let b = a ^ (a << 25);
        let c = t ^ (t >> 12);
        let d = c ^ (c << 25);
        b ^ (b >> 27) == d ^ (d >> 27) ==> s == t
    })) by (bit_vector);
    assert(({
        let u = s ^ t;
        let a = s ^ (s >> 12);
        let b = a ^ (a << 25);
        let c = t ^ (t >> 12);
        let d = c ^ (c << 25);
        let e = u ^ (u >> 12);
        let f = e ^ (e << 25);
        f ^ (f >> 27) == (b ^ (b >> 27)) ^ (d ^ (d >> 27))
    })) by (bit_vector);
}

/// Where the bits of a state go: low ones stay and go 25 places up and 2 down, high ones stay and
/// go 12, 27 and 39 places down.
pub proof fn law_steps_spread_the_bits(x: u64)
    requires
        x < 4096,
    ensures
        advanced(x) == x ^ (x << 25) ^ (x >> 2),
        advanced(x << 52) == (x << 52) ^ (x << 40) ^ (x << 25) ^ (x << 13),
{
    assert(x < 4096 ==> ({
        let a = x ^ (x >> 12);
        let b = a ^ (a << 25);
        b ^ (b >> 27) == x ^ (x << 25) ^ (x >> 2)
    })) by (bit_vector);
    assert(x < 4096 ==> ({
        let y = x << 52;
        let a = y ^ (y >> 12);
        let b = a ^ (a << 25);
        b ^ (b >> 27) == (x << 52) ^ (x << 40) ^ (x << 25) ^ (x << 13)
    })) by (bit_vector);
}

/// The bits of a state are below the power of two by which they are divided, so that the number
/// is below one; for the first states they are the upper bits of the plain product.
pub proof fn law_bits_make_a_fraction(s: u64)
    ensures
        bits(s) < 9_007_199_254_740_992,
        s <= 6 ==> bits(s) == (s * 0x2545_F491_4F6C_DD1D) / 2048,
{
    let p = s.wrapping_mul(0x2545_F491_4F6C_DD1D);
    assert(p >> 11 < 9_007_199_254_740_992) by (bit_vector);
    assert(p >> 11 == p / 2048) by (bit_vector);
    if s <= 6 {
        assert(s * 0x2545_F491_4F6C_DD1D <= u64::MAX) by (nonlinear_arith)
            requires
                s <= 6,
        ;
    }
}

/// A normal number is its radius where the angle has the cosine one, nothing where the radius is
/// zero, and never that of less than 1e-12.
pub proof fn law_normal_has_radius_and_angle<T: Real>(u1: T, u2: T)
    requires
        arith::neutral::<T>(),
        arith::root(arith::whole::<T>(0)) == arith::whole::<T>(0),
    ensures
        ({
            let turn = arith::cosine(
                arith::times(arith::times(arith::whole::<T>(2), arith::pi()), u2),
            );
            let least = arith::fraction::<T>(1, 1_000_000_000_000);
            let radius = |u: T|
                arith::root(arith::times(arith::whole((-2) as i64), arith::logarithm(u)));
            let r = normal(u1, u2);
            &&& arith::larger(u1, least) == u1 && turn == arith::whole::<T>(1) ==> r == radius(u1)
            &&& arith::larger(u1, least) == least && turn == arith::whole::<T>(1) ==> r == radius(
                least,
            )
            &&& arith::larger(u1, least) == u1 && arith::logarithm(u1) == arith::whole::<T>(0) ==> r
                == arith::whole::<T>(0)
            &&& turn == arith::whole::<T>(0) ==> r == arith::whole::<T>(0)
            &&& arith::larger(u1, least) == u1 && radius(u1) == arith::whole::<T>(1) ==> r == turn
        }),
{
}

} // verus!
