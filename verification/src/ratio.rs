use vstd::prelude::*;
use vstd::arithmetic::div_mod::{lemma_fundamental_div_mod, lemma_mod_multiples_basic};

verus! {

/// Greatest common divisor, by Euclid's recurrence (`gcd(a, 0) == a`).
pub open spec fn gcd(a: nat, b: nat) -> nat
    decreases b,
{
    if b == 0 {
        a
    } else {
        gcd(b, a % b)
    }
}

/// A non-negative fraction `numer / denom` over `u32`.
///
/// Values built by [`GridRatio::new`] are in lowest terms with a positive
/// denominator, as `num::rational::Ratio::<u32>::new` makes them.
#[derive(Clone, Copy, Debug, PartialEq, Eq, Structural)]
pub struct GridRatio {
    pub numer: u32,
    pub denom: u32,
}

impl GridRatio {
    /// The fraction `numer / denom` reduced to lowest terms (`0 / d` becomes `0 / 1`).
    pub open spec fn reduced(numer: u32, denom: u32) -> GridRatio {
        GridRatio {
            numer: (numer as nat / gcd(numer as nat, denom as nat)) as u32,
            denom: (denom as nat / gcd(numer as nat, denom as nat)) as u32,
        }
    }

    /// Builds `numer / denom` in lowest terms.
    pub fn new(numer: u32, denom: u32) -> (r: GridRatio)
        requires
            denom > 0,
        ensures
            r == GridRatio::reduced(numer, denom),
    {
        let (n, d) = reduced_parts(numer, denom);
        GridRatio { numer: n, denom: d }
    }
}

/// Calls `num::rational::Ratio::<u32>::new(numer, denom)` and reads back its
/// numerator and denominator. The constructor divides both parts by their
/// greatest common divisor (for a zero numerator the denominator becomes one,
/// which is the same thing), and panics on a zero denominator, which `requires`
/// rules out.
#[verifier::external_body]
fn reduced_parts(numer: u32, denom: u32) -> (parts: (u32, u32))
    requires
        denom > 0,
    ensures
        parts.0 == numer as nat / gcd(numer as nat, denom as nat),
        parts.1 == denom as nat / gcd(numer as nat, denom as nat),
{
    let r = num::rational::Ratio::new(numer, denom);
    (*r.numer(), *r.denom())
}


/// `gcd(a, b)` is positive and divides both arguments when one of them is positive.
pub proof fn lemma_gcd_divides(a: nat, b: nat)
    requires
        a > 0 || b > 0,
    ensures
        gcd(a, b) > 0,
        a % gcd(a, b) == 0,
        b % gcd(a, b) == 0,
    decreases b,
{
    if b == 0 {
        assert(a % a == 0) by {
            lemma_mod_multiples_basic(1, a as int);
        }
        assert(0nat % a == 0) by {
            lemma_mod_multiples_basic(0, a as int);
        }
    } else {
        let r = a % b;
        lemma_gcd_divides(b, r);
        let g = gcd(b, r);
        assert(gcd(a, b) == g);
        lemma_fundamental_div_mod(b as int, g as int);
        lemma_fundamental_div_mod(r as int, g as int);
        lemma_fundamental_div_mod(a as int, b as int);
        let k1 = b as int / g as int;
        let k2 = r as int / g as int;
        let q = a as int / b as int;
        assert(b as int == g * k1);
        assert(r as int == g * k2);
        assert(a as int == b * q + r);
        assert(a as int == (q * k1 + k2) * g) by (nonlinear_arith)
            requires
                b as int == g * k1,
                r as int == g * k2,
                a as int == b * q + r,
        ;
        lemma_mod_multiples_basic(q * k1 + k2, g as int);
    }
}

/// A reduced fraction has the value of the fraction it was built from, and a
/// positive denominator.
pub proof fn lemma_reduced_value(numer: u32, denom: u32)
    requires
        denom > 0,
    ensures
        GridRatio::reduced(numer, denom).denom > 0,
        GridRatio::reduced(numer, denom).numer <= numer,
        GridRatio::reduced(numer, denom).denom <= denom,
        GridRatio::reduced(numer, denom).numer * denom == numer * GridRatio::reduced(
            numer,
            denom,
        ).denom,
{
    let g = gcd(numer as nat, denom as nat);
    lemma_gcd_divides(numer as nat, denom as nat);
    lemma_fundamental_div_mod(numer as int, g as int);
    lemma_fundamental_div_mod(denom as int, g as int);
    let n = numer as int / g as int;
    let d = denom as int / g as int;
    assert(numer as int == g * n);
    assert(denom as int == g * d);
    assert(0 <= n <= numer && 0 < d <= denom && n * denom == numer * d) by (nonlinear_arith)
        requires
            numer as int == g * n,
            denom as int == g * d,
            g > 0,
            denom > 0,
            numer >= 0,
    ;
}

/// Zero reduces to `0 / 1` and a whole reduces to `1 / 1`.
pub proof fn lemma_reduced_zero_and_one(d: u32)
    requires
        d > 0,
    ensures
        GridRatio::reduced(0, d) == (GridRatio { numer: 0, denom: 1 }),
        GridRatio::reduced(d, d) == (GridRatio { numer: 1, denom: 1 }),
{
    assert(gcd(0, d as nat) == d) by {
        assert(0nat % (d as nat) == 0) by {
            lemma_mod_multiples_basic(0, d as int);
        }
        assert(gcd(d as nat, 0) == d);
    }
    assert(gcd(d as nat, d as nat) == d) by {
        assert((d as nat) % (d as nat) == 0) by {
            lemma_mod_multiples_basic(1, d as int);
        }
        assert(gcd(d as nat, 0) == d);
    }
    assert((d as nat) / (d as nat) == 1) by {
        vstd::arithmetic::div_mod::lemma_div_by_multiple(1, d as int);
    }
}

} // verus!
