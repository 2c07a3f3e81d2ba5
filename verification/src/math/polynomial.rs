//! Polynomials over F_p, used to encode Shamir secrets.

use crate::math::mersenne61::Mersenne61;
use crate::math::mersenne61::field_add;
use crate::math::mersenne61::field_mul;
use vstd::prelude::*;

verus! {

/// The value of the polynomial with the given coefficients (constant term
/// first) at `x`, by Horner's rule.
pub open spec fn poly_eval(coeffs: Seq<nat>, x: nat) -> nat
    decreases coeffs.len(),
{
    if coeffs.len() == 0 {
        0
    } else {
        field_add(coeffs[0], field_mul(x, poly_eval(coeffs.drop_first(), x)))
    }
}

/// A polynomial over F_p: an ordered sequence of coefficients, constant
/// term first.  The nominal degree is one less than the coefficient count.
pub struct Polynomial {
    coeffs: Vec<Mersenne61>,
}

impl View for Polynomial {
    type V = Seq<nat>;

    closed spec fn view(&self) -> Seq<nat> {
        self.coeffs@.map_values(|c: Mersenne61| c@)
    }
}

impl Polynomial {
    /// Wraps a coefficient vector, constant term first.
    pub fn new(coeffs: Vec<Mersenne61>) -> (r: Self)
        ensures
            r@ == coeffs@.map_values(|c: Mersenne61| c@),
    {
        Polynomial { coeffs }
    }

    /// The number of coefficients (nominal degree plus one).
    pub fn len(&self) -> (r: usize)
        ensures
            r == self@.len(),
    {
        self.coeffs.len()
    }

    /// A polynomial of the given nominal degree with uniformly random
    /// coefficients.
    pub fn random(degree: usize, rng: &mut rand::rngs::ThreadRng) -> (r: Self)
        requires
            degree < usize::MAX,
        ensures
            r@.len() == degree + 1,
    {
        let count = degree + 1;
        let mut coeffs: Vec<Mersenne61> = Vec::with_capacity(count);
        let mut i: usize = 0;
        while i < count
            invariant
                i <= count,
                coeffs@.len() == i,
            decreases count - i,
        {
            coeffs.push(Mersenne61::random(rng));
            i = i + 1;
        }
        Polynomial::new(coeffs)
    }

    /// Overwrites one coefficient; the sharing protocol uses this to plant
    /// the secret as the constant term.
    pub fn set_coefficient(&mut self, index: usize, value: Mersenne61)
        requires
            index < old(self)@.len(),
        ensures
            final(self)@ == old(self)@.update(index as int, value@),
    {
        self.coeffs.set(index, value);
        proof {
            assert(self@ =~= old(self)@.update(index as int, value@));
        }
    }

    /// Evaluates the polynomial at `x` by Horner's rule.
    pub fn evaluate(&self, x: &Mersenne61) -> (r: Mersenne61)
        ensures
            r@ == poly_eval(self@, x@),
    {
        let n = self.coeffs.len();
        let mut acc = Mersenne61::zero();
        let mut j: usize = n;
        while j > 0
            invariant
                j <= n,
                n == self@.len(),
                acc@ == poly_eval(self@.subrange(j as int, n as int), x@),
            decreases j,
        {
            j = j - 1;
            let term = x.multiply(&acc);
            acc = self.coeffs[j].add(&term);
            proof {
                let tail = self@.subrange(j + 1, n as int);
                assert(self@.subrange(j as int, n as int).drop_first() =~= tail);
                assert(self@.subrange(j as int, n as int)[0] == self@[j as int]);
            }
        }
        proof {
            assert(self@.subrange(0, n as int) =~= self@);
        }
        acc
    }
}

} // verus!
