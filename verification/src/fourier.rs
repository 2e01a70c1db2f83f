//! Discrete Fourier transforms, as far as this library looks into them.
//!
//! A transform comes from the caller, as a value that implements [`Transform`]. Nothing is said
//! here about what it computes; where the spectrum of a frame enters a contract, it enters as
//! `spectrum(f, frame)`, what `f` returns for the frame.

use vstd::prelude::*;
use crate::arith;
use crate::arith::Real;

verus! {

/// A complex number.
#[derive(Clone, Copy)]
pub struct Complex<W: Real> {
    /// Real part.
    pub re: W,
    /// Imaginary part.
    pub im: W,
}

/// A transform of a frame of complex numbers into as many.
pub trait Transform<W: Real> {
    /// The transform of `frame`.
    fn apply(&self, frame: &Vec<Complex<W>>) -> Vec<Complex<W>>;
}

/// Whether `f` returns as many numbers as it is given.
pub open spec fn keeps_length<W: Real, F: Transform<W>>(f: F) -> bool {
    forall|x: Vec<Complex<W>>, y: Vec<Complex<W>>|
        #[trigger] call_ensures(F::apply, (&f, &x), y) ==> y@.len() == x@.len()
}

/// Whether what `f` returns is a function of the frame.
pub open spec fn functional<W: Real, F: Transform<W>>(f: F) -> bool {
    forall|a: Vec<Complex<W>>, b: Vec<Complex<W>>, x: Vec<Complex<W>>, y: Vec<Complex<W>>|
        #![trigger call_ensures(F::apply, (&f, &a), x), call_ensures(F::apply, (&f, &b), y)]
        a@ == b@ && call_ensures(F::apply, (&f, &a), x) && call_ensures(F::apply, (&f, &b), y)
            ==> x@ == y@
}

/// Whether `f` returns `y` for a frame of the numbers `x`.
pub open spec fn maps<W: Real, F: Transform<W>>(
    f: F,
    x: Seq<Complex<W>>,
    y: Seq<Complex<W>>,
) -> bool {
    exists|a: Vec<Complex<W>>, b: Vec<Complex<W>>|
        a@ == x && b@ == y && #[trigger] call_ensures(F::apply, (&f, &a), b)
}

/// What `f` returns for a frame.
pub open spec fn spectrum<W: Real, F: Transform<W>>(
    f: F,
    frame: Seq<Complex<W>>,
) -> Seq<Complex<W>> {
    choose|y: Seq<Complex<W>>| maps(f, frame, y)
}

/// Applies `f` to a frame.
pub fn transformed<W: Real, F: Transform<W>>(f: &F, frame: &Vec<Complex<W>>) -> (r: Vec<
    Complex<W>,
>)
    requires
        keeps_length::<W, F>(*f),
    ensures
        r.len() == frame.len(),
        functional::<W, F>(*f) ==> r@ == spectrum::<W, F>(*f, frame@),
{
    let r: Vec<Complex<W>> = f.apply(frame);
    proof {
        assert(maps(*f, frame@, r@));
        if functional::<W, F>(*f) {
            let y = spectrum::<W, F>(*f, frame@);
            assert(maps(*f, frame@, y));
            let (a, b) = choose|a: Vec<Complex<W>>, b: Vec<Complex<W>>|
                a@ == frame@ && b@ == y && #[trigger] call_ensures(F::apply, (f, &a), b);
            assert(call_ensures(F::apply, (f, frame), r));
        }
    }
    r
}

/// The squared absolute value of a complex number.
pub open spec fn squared<W: Real>(c: Complex<W>) -> W {
    arith::plus(arith::times(c.re, c.re), arith::times(c.im, c.im))
}

/// The squared absolute value of a complex number.
pub fn norm_sqr<W: Real>(c: Complex<W>) -> (r: W)
    ensures
        arith::deterministic::<W>() ==> r == squared(c),
{
    c.re.times(c.re).plus(c.im.times(c.im))
}

} // verus!
