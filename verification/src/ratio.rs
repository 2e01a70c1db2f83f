//! Ratios of sample rates.

use vstd::prelude::*;
use vstd::arithmetic::div_mod::lemma_fundamental_div_mod;

verus! {

/// Whether `d` divides `n`.
pub open spec fn divides(d: nat, n: nat) -> bool {
    exists|k: nat| n == #[trigger] (k * d)
}

/// Whether `g` is the greatest common divisor of `a` and `b`: it divides both, and whatever
/// divides both divides it.
pub open spec fn is_gcd(g: nat, a: nat, b: nat) -> bool {
    &&& divides(g, a)
    &&& divides(g, b)
    &&& forall|d: nat| #[trigger] divides(d, a) && divides(d, b) ==> divides(d, g)
}

/// The greatest common divisor of `a` and `b`.
pub open spec fn gcd_of(a: nat, b: nat) -> nat {
    choose|g: nat| is_gcd(g, a, b)
}

/// There is only one greatest common divisor.
pub proof fn lemma_gcd_unique(g: nat, a: nat, b: nat)
    requires
        is_gcd(g, a, b),
    ensures
        g == gcd_of(a, b),
{
    let h = gcd_of(a, b);
    assert(is_gcd(h, a, b));
    assert(divides(g, h));
    assert(divides(h, g));
    let k = choose|k: nat| h == #[trigger] (k * g);
    let m = choose|m: nat| g == #[trigger] (m * h);
    assert(g == h) by (nonlinear_arith)
        requires
            h == k * g,
            g == m * h,
    ;
}

proof fn lemma_divides_sum(d: nat, a: nat, b: nat, q: nat, r: nat)
    requires
        a == q * b + r,
        divides(d, b),
    ensures
        divides(d, r) ==> divides(d, a),
        divides(d, a) ==> divides(d, r),
{
    let kb = choose|k: nat| b == #[trigger] (k * d);
    assert(q * b == (q * kb) * d) by (nonlinear_arith)
        requires
            b == kb * d,
    ;
    if divides(d, r) {
        let kr = choose|k: nat| r == #[trigger] (k * d);
        assert((q * kb + kr) * d == (q * kb) * d + kr * d) by (nonlinear_arith);
        assert(a == (q * kb + kr) * d);
    }
    if divides(d, a) {
        let ka = choose|k: nat| a == #[trigger] (k * d);
        if ka < q * kb {
            assert(ka * d <= (q * kb) * d) by (nonlinear_arith)
                requires
                    ka < q * kb,
            ;
            assert(r == 0);
            assert(r == 0nat * d);
        } else {
            let m = (ka - q * kb) as nat;
            assert(m * d == ka * d - (q * kb) * d) by (nonlinear_arith)
                requires
                    m == ka - q * kb,
            ;
            assert(r == m * d);
        }
    }
}

/// What is the greatest common divisor of a number and a remainder by it is also that of the
/// number and what was divided.
proof fn lemma_gcd_step(g: nat, a: nat, b: nat, q: nat, r: nat)
    requires
        is_gcd(g, b, r),
        a == q * b + r,
    ensures
        is_gcd(g, a, b),
{
    lemma_divides_sum(g, a, b, q, r);
    assert forall|d: nat| #[trigger] divides(d, a) && divides(d, b) implies divides(d, g) by {
        lemma_divides_sum(d, a, b, q, r);
        assert(divides(d, b));
    }
}

/// Two numbers have a greatest common divisor, and that of their multiples is the multiple of it.
pub proof fn lemma_gcd_scales(k: nat, a: nat, b: nat) -> (g: nat)
    ensures
        is_gcd(g, a, b),
        is_gcd(k * g, k * a, k * b),
    decreases b,
{
    if b == 0 {
        assert(a == 1nat * a);
        assert(0nat == 0nat * a);
        let m = k * a;
        assert(m == 1nat * m);
        assert(0nat == 0nat * m);
        assert(k * b == 0) by (nonlinear_arith)
            requires
                b == 0,
        ;
        assert(is_gcd(m, m, 0));
        a
    } else {
        let q = a / b;
        let r = a % b;
        lemma_fundamental_div_mod(a as int, b as int);
        assert(a == q * b + r) by (nonlinear_arith)
            requires
                a == b * q + r,
        ;
        assert(k * a == q * (k * b) + k * r) by (nonlinear_arith)
            requires
                a == q * b + r,
        ;
        let g = lemma_gcd_scales(k, b, r);
        lemma_gcd_step(g, a, b, q, r);
        lemma_gcd_step(k * g, k * a, k * b, q, k * r);
        g
    }
}

/// The greatest common divisor of `a` and `b`.
pub fn gcd(a: usize, b: usize) -> (g: usize)
    ensures
        is_gcd(g as nat, a as nat, b as nat),
        g == gcd_of(a as nat, b as nat),
        g == 0 <==> a == 0 && b == 0,
    decreases b,
{
    if b == 0 {
        proof {
            assert(a as nat == 1nat * (a as nat));
            assert(0nat == 0nat * (a as nat));
            lemma_gcd_unique(a as nat, a as nat, b as nat);
        }
        a
    } else {
        let g: usize = gcd(b, a % b);
        proof {
            let q = (a / b) as nat;
            let r = (a % b) as nat;
            lemma_fundamental_div_mod(a as int, b as int);
            assert(a as nat == q * (b as nat) + r) by (nonlinear_arith)
                requires
                    a as int == (b as int) * (q as int) + r as int,
            ;
            lemma_gcd_step(g as nat, a as nat, b as nat, q, r);
            lemma_gcd_unique(g as nat, a as nat, b as nat);
        }
        g
    }
}

/// A divisor goes into a number without remainder.
pub proof fn lemma_divided(d: nat, n: nat)
    requires
        d > 0,
        divides(d, n),
    ensures
        (n / d) * d == n,
        n > 0 ==> n / d > 0,
{
    let k = choose|k: nat| n == #[trigger] (k * d);
    vstd::arithmetic::div_mod::lemma_div_by_multiple(k as int, d as int);
    assert(n / d == k);
    if n > 0 && k == 0 {
        assert(0nat * d == 0);
    }
}

} // verus!
