//! The field F_p for the Mersenne prime p = 2^61 - 1.
//!
//! Every element is stored already reduced into [0, p).  Reduction after an
//! addition uses repeated subtraction of the modulus; reduction after a
//! multiplication exploits the identity 2^61 == 1 (mod p).

use crate::math::FieldError;
use vstd::prelude::*;
use vstd::arithmetic::div_mod::lemma_add_mod_noop;
use vstd::arithmetic::div_mod::lemma_div_non_zero;
use vstd::arithmetic::div_mod::lemma_fundamental_div_mod;
use vstd::arithmetic::div_mod::lemma_mod_bound;
use vstd::arithmetic::div_mod::lemma_mod_equivalence;
use vstd::arithmetic::div_mod::lemma_mod_multiples_vanish;
use vstd::arithmetic::div_mod::lemma_mod_sub_multiples_vanish;
use vstd::arithmetic::div_mod::lemma_mul_mod_noop_left;
use vstd::arithmetic::div_mod::lemma_mul_mod_noop_right;
use vstd::arithmetic::div_mod::lemma_small_mod;
use vstd::assert_by_contradiction;
use vstd::math::abs;

verus! {

/// The Mersenne prime modulus p = 2^61 - 1.
pub const MODULUS: u64 = 0x1FFF_FFFF_FFFF_FFFF;

/// The modulus as a mathematical natural number.
pub open spec fn p() -> nat {
    MODULUS as nat
}

/// Field addition on reduced representatives.
pub open spec fn field_add(a: nat, b: nat) -> nat {
    (a + b) % p()
}

/// Field negation on reduced representatives.
pub open spec fn field_neg(a: nat) -> nat {
    ((p() - a % p()) % (p() as int)) as nat
}

/// Field subtraction on reduced representatives.
pub open spec fn field_sub(a: nat, b: nat) -> nat {
    field_add(a, field_neg(b))
}

/// Field multiplication on reduced representatives.
pub open spec fn field_mul(a: nat, b: nat) -> nat {
    (a * b) % p()
}

/// Whether `a` has a multiplicative inverse modulo p.
pub open spec fn has_inverse(a: nat) -> bool {
    exists|b: nat| b < p() && field_mul(a, b) == 1
}

/// The multiplicative inverse of `a` modulo p, when one exists.
pub open spec fn field_inv(a: nat) -> nat {
    choose|b: nat| b < p() && field_mul(a, b) == 1
}

/// The sequence of mathematical values of a sequence of field elements.
pub open spec fn seq_view(s: Seq<Mersenne61>) -> Seq<nat> {
    s.map_values(|c: Mersenne61| c@)
}

/// Zero is the additive identity: x + 0 = x for every reduced x.
pub proof fn lemma_add_identity(x: nat)
    requires
        x < p(),
    ensures
        field_add(x, 0) == x,
{
    lemma_small_mod(x, p());
}

/// One is the multiplicative identity: x * 1 = x for every reduced x.
pub proof fn lemma_mul_identity(x: nat)
    requires
        x < p(),
    ensures
        field_mul(x, 1) == x,
{
    assert(x * 1 == x);
    lemma_small_mod(x, p());
}

/// Negation is the additive inverse: x + (-x) = 0 for every reduced x.
pub proof fn lemma_add_negate(x: nat)
    requires
        x < p(),
    ensures
        field_add(x, field_neg(x)) == 0,
{
    lemma_small_mod(x, p());
    vstd::arithmetic::div_mod::lemma_mod_self_0(p() as int);
    if x == 0 {
        lemma_small_mod(0, p());
    }
}

/// Subtracting an element from itself gives zero: x - x = 0.
pub proof fn lemma_sub_self(x: nat)
    requires
        x < p(),
    ensures
        field_sub(x, x) == 0,
{
    lemma_add_negate(x);
}

/// Every element with an inverse multiplies with it to one.  Because p is
/// prime this covers every x != 0, though primality is not formalised here.
pub proof fn lemma_mul_inverse(x: nat)
    requires
        has_inverse(x),
    ensures
        field_inv(x) < p(),
        field_mul(x, field_inv(x)) == 1,
{
    let w = choose|b: nat| b < p() && field_mul(x, b) == 1;
    assert(w < p() && field_mul(x, w) == 1);
}

/// Field multiplication is commutative.
pub proof fn lemma_mul_commutative(x: nat, y: nat)
    ensures
        field_mul(x, y) == field_mul(y, x),
{
    vstd::arithmetic::mul::lemma_mul_is_commutative(x as int, y as int);
}

/// Field multiplication is associative.
pub proof fn lemma_mul_associative(x: nat, y: nat, z: nat)
    ensures
        field_mul(field_mul(x, y), z) == field_mul(x, field_mul(y, z)),
{
    let m = p() as int;
    let xi = x as int;
    let yi = y as int;
    let zi = z as int;
    lemma_mul_mod_noop_left(xi * yi, zi, m);
    vstd::arithmetic::mul::lemma_mul_is_associative(xi, yi, zi);
    lemma_mul_mod_noop_right(xi, yi * zi, m);
}

/// Field multiplication distributes over field addition.
pub proof fn lemma_mul_distributive(x: nat, y: nat, z: nat)
    ensures
        field_mul(x, field_add(y, z)) == field_add(field_mul(x, y), field_mul(x, z)),
{
    let m = p() as int;
    let xi = x as int;
    let yi = y as int;
    let zi = z as int;
    lemma_mul_mod_noop_right(xi, yi + zi, m);
    vstd::arithmetic::mul::lemma_mul_is_distributive_add(xi, yi, zi);
    lemma_add_mod_noop(xi * yi, xi * zi, m);
}

/// Zero admits no multiplicative inverse.
pub proof fn lemma_zero_has_no_inverse()
    ensures
        !has_inverse(0),
{
    assert_by_contradiction!(!has_inverse(0), {
        let b = choose|b: nat| b < p() && field_mul(0, b) == 1;
        assert(0 * b == 0) by (nonlinear_arith);
        assert(field_mul(0, b) == 0nat % p());
    });
}

/// A reduced multiplicative inverse, when it exists, is unique.
pub proof fn lemma_inverse_unique(a: nat, b: nat, c: nat)
    requires
        b < p(),
        c < p(),
        field_mul(a, b) == 1,
        field_mul(a, c) == 1,
    ensures
        b == c,
{
    let m = p() as int;
    let ai = a as int;
    let bi = b as int;
    let ci = c as int;
    lemma_small_mod(b, p());
    lemma_small_mod(c, p());
    lemma_mul_mod_noop_right(bi, ai * ci, m);
    vstd::arithmetic::mul::lemma_mul_is_associative(bi, ai, ci);
    lemma_mul_mod_noop_left(bi * ai, ci, m);
    assert((ai * ci) % m == 1);
    assert(bi == (bi * (ai * ci)) % m);
    assert((bi * ai) % m == 1);
    assert(((bi * ai) * ci) % m == (1 * ci) % m);
}

/// A linear combination of two multiples of `m` is a multiple of `m`.
proof fn lemma_linear_combo_mod(x: int, y: int, q: int, m: int)
    requires
        m > 0,
        x % m == 0,
        y % m == 0,
    ensures
        (x - q * y) % m == 0,
{
    let xc = x / m;
    let yc = y / m;
    lemma_fundamental_div_mod(x, m);
    lemma_fundamental_div_mod(y, m);
    assert(x - q * y == m * (xc - q * yc)) by (nonlinear_arith)
        requires
            x == m * xc,
            y == m * yc,
    ;
    lemma_mod_multiples_vanish(xc - q * yc, 0, m);
}

/// One exchange step of the extended Euclidean algorithm:
/// v1 <- v2 and v2 <- v1 - q * v2.
fn assign(v1: &mut i64, v2: &mut i64, q: i64)
    requires
        -0x7FFF_FFFF_FFFF_FFFF <= (q as int) * (*old(v2) as int),
        (q as int) * (*old(v2) as int) <= 0x7FFF_FFFF_FFFF_FFFF,
        -0x7FFF_FFFF_FFFF_FFFF <= (*old(v1) as int) - (q as int) * (*old(v2) as int),
        (*old(v1) as int) - (q as int) * (*old(v2) as int) <= 0x7FFF_FFFF_FFFF_FFFF,
    ensures
        *final(v1) == *old(v2),
        (*final(v2) as int) == (*old(v1) as int) - (q as int) * (*old(v2) as int),
{
    let temp = *v2;
    *v2 = *v1 - q * temp;
    *v1 = temp;
}

/// An element of F_p with p = 2^61 - 1, kept reduced into [0, p).
#[derive(Clone, Copy, Debug, PartialEq, Eq, Structural)]
pub struct Mersenne61(u64);

impl View for Mersenne61 {
    type V = nat;

    closed spec fn view(&self) -> nat {
        (self.0 % MODULUS) as nat
    }
}

/// Every field element's value is reduced into [0, p).
pub broadcast proof fn lemma_view_reduced(x: Mersenne61)
    ensures
        #[trigger] x@ < p(),
{
    lemma_mod_bound(x.0 as int, MODULUS as int);
}

impl Mersenne61 {
    /// Invariant: the stored representative is already reduced.
    #[verifier::type_invariant]
    spec fn reduced(self) -> bool {
        self.0 < MODULUS
    }

    /// The additive identity.
    pub fn zero() -> (r: Self)
        ensures
            r@ == 0,
    {
        Mersenne61(0)
    }

    /// The multiplicative identity.
    pub fn one() -> (r: Self)
        ensures
            r@ == 1,
    {
        Mersenne61(1)
    }

    /// Constructs a field element from any unsigned 64-bit integer,
    /// reducing it modulo p by repeated subtraction.
    pub fn from(value: u64) -> (r: Self)
        ensures
            r@ == value as nat % p(),
    {
        let mut v = value;
        while v >= MODULUS
            invariant
                v as int % MODULUS as int == value as int % MODULUS as int,
            decreases v,
        {
            proof {
                lemma_mod_sub_multiples_vanish(v as int, MODULUS as int);
            }
            v = v - MODULUS;
        }
        proof {
            lemma_small_mod(v as nat, p());
        }
        Mersenne61(v)
    }

    /// The reduced representative as an unsigned 64-bit integer.
    pub fn to_u64(&self) -> (r: u64)
        ensures
            r as nat == self@,
            r < MODULUS,
    {
        proof {
            use_type_invariant(self);
        }
        self.0
    }

    /// Field addition.
    pub fn add(&self, other: &Self) -> (r: Self)
        ensures
            r@ == field_add(self@, other@),
    {
        proof {
            use_type_invariant(self);
            use_type_invariant(other);
        }
        let sum = self.0 + other.0;
        Self::from(sum)
    }

    /// Field equality.
    pub fn equal(&self, other: &Self) -> (r: bool)
        ensures
            r == (self@ == other@),
    {
        proof {
            use_type_invariant(self);
            use_type_invariant(other);
            lemma_small_mod(self.0 as nat, p());
            lemma_small_mod(other.0 as nat, p());
        }
        self == other
    }

    /// Field negation.
    pub fn negate(&self) -> (r: Self)
        ensures
            r@ == field_neg(self@),
    {
        proof {
            use_type_invariant(self);
            lemma_small_mod(self@, p());
        }
        if !self.equal(&Self::zero()) {
            proof {
                lemma_small_mod((p() - self@) as nat, p());
            }
            Self::from(MODULUS - self.0)
        } else {
            Self::zero()
        }
    }

    /// Field multiplication.  The 128-bit product splits at bit 61; the
    /// identity 2^61 == 1 (mod p) turns the split into one modular addition.
    pub fn multiply(&self, other: &Self) -> (r: Self)
        ensures
            r@ == field_mul(self@, other@),
    {
        proof {
            use_type_invariant(self);
            use_type_invariant(other);
            assert((self.0 as int) * (other.0 as int) < (MODULUS as int) * (MODULUS as int))
                by (nonlinear_arith)
                requires
                    (self.0 as int) < (MODULUS as int),
                    (other.0 as int) < (MODULUS as int),
            ;
        }
        let non_reduced: u128 = (self.0 as u128) * (other.0 as u128);
        let most_sig_bits: u64 = #[verifier::truncate] ((non_reduced >> 61) as u64);
        let least_sig_bits: u64 = #[verifier::truncate] (non_reduced as u64);
        let folded: u64 = most_sig_bits | (least_sig_bits >> 61);
        let masked: u64 = least_sig_bits & MODULUS;
        proof {
            assert(non_reduced < (1u128 << 122)) by (bit_vector)
                requires
                    non_reduced < 0x1FFF_FFFF_FFFF_FFFFu128 * 0x1FFF_FFFF_FFFF_FFFFu128,
            ;
            assert(folded == (non_reduced >> 61) as u64 && folded <= 0x1FFF_FFFF_FFFF_FFFFu64)
                by (bit_vector)
                requires
                    non_reduced < (1u128 << 122),
                    folded == ((non_reduced >> 61) as u64) | (((non_reduced as u64)) >> 61),
            ;
            assert(masked <= 0x1FFF_FFFF_FFFF_FFFFu64
                && non_reduced == ((non_reduced >> 61) as u64 as u128) * 0x2000_0000_0000_0000u128
                    + (masked as u128)) by (bit_vector)
                requires
                    non_reduced < (1u128 << 122),
                    masked == (non_reduced as u64) & 0x1FFF_FFFF_FFFF_FFFFu64,
            ;
            let h = folded as int;
            let l = masked as int;
            let m = MODULUS as int;
            assert(self@ * other@ == m * h + (h + l));
            lemma_mod_multiples_vanish(h, h + l, m);
            lemma_add_mod_noop(h, l, m);
        }
        let high = Self::from(folded);
        let low = Self::from(masked);
        high.add(&low)
    }

    /// Multiplicative inverse via the extended Euclidean algorithm on
    /// signed 64-bit integers.  Fails with `ZeroInverse` on input 0.
    ///
    /// Because p is prime every non-zero element has an inverse, so the
    /// error case is reached only on input 0; primality is not formalised
    /// here, so the contract is phrased through `has_inverse`.
    pub fn inverse(&self) -> (res: Result<Self, FieldError>)
        ensures
            res is Ok <==> has_inverse(self@),
            res matches Ok(r) ==> r@ < p() && field_mul(self@, r@) == 1 && r@ == field_inv(
                self@,
            ),
            res matches Err(e) ==> e == FieldError::ZeroInverse,
    {
        proof {
            use_type_invariant(self);
        }
        if self.equal(&Self::zero()) {
            proof {
                lemma_zero_has_no_inverse();
            }
            Err(FieldError::ZeroInverse)
        } else {
            let ghost a: int = self.0 as int;
            let ghost m: int = MODULUS as int;
            let mut k: i64 = 0;
            let mut new_k: i64 = 1;
            let mut r: i64 = MODULUS as i64;
            let mut new_r: i64 = self.0 as i64;
            let ghost mut c11: int = 1;
            let ghost mut c12: int = 0;
            let ghost mut c21: int = 0;
            let ghost mut c22: int = 1;
            proof {
                lemma_mod_multiples_vanish(-1, 0, m);
                assert(abs(1) == 1 && abs(0) == 0);
            }
            while new_r != 0
                invariant
                    m == MODULUS as int,
                    a == self@ as int,
                    0 < a,
                    a < m,
                    0 <= new_r as int,
                    (new_r as int) < (r as int),
                    r as int <= m,
                    ((k as int) * a - (r as int)) % m == 0,
                    ((new_k as int) * a - (new_r as int)) % m == 0,
                    (r as int) * abs(new_k as int) + (new_r as int) * abs(k as int) == m,
                    (k as int) * (new_k as int) <= 0,
                    new_k != 0,
                    abs(k as int) <= m,
                    m == c11 * (r as int) + c12 * (new_r as int),
                    a == c21 * (r as int) + c22 * (new_r as int),
                decreases new_r as int,
            {
                let ghost k0 = k as int;
                let ghost nk0 = new_k as int;
                let ghost r0 = r as int;
                let ghost nr0 = new_r as int;
                let ghost ak0 = abs(k0);
                let ghost ank0 = abs(nk0);
                let q = ((r as u64) / (new_r as u64)) as i64;
                let ghost qi = q as int;
                proof {
                    lemma_fundamental_div_mod(r0, nr0);
                    lemma_mod_bound(r0, nr0);
                    lemma_div_non_zero(r0, nr0);
                    assert((r as u64) as int == r0 && (new_r as u64) as int == nr0);
                    assert(qi == r0 / nr0);
                    assert(qi * nr0 <= r0 && qi >= 1);
                    // magnitude bounds that keep the signed arithmetic in range
                    assert(-(2 * m) <= qi * nk0 && qi * nk0 <= 2 * m && -m <= k0 - qi * nk0 && k0
                        - qi * nk0 <= m) by (nonlinear_arith)
                        requires
                            nr0 >= 1,
                            qi >= 1,
                            qi * nr0 <= r0,
                            r0 * ank0 + nr0 * ak0 == m,
                            k0 * nk0 <= 0,
                            (nk0 >= 0 ==> ank0 == nk0) && (nk0 < 0 ==> ank0 == -nk0),
                            (k0 >= 0 ==> ak0 == k0) && (k0 < 0 ==> ak0 == -k0),
                            nk0 != 0,
                            m >= 1,
                    ;
                }
                assign(&mut k, &mut new_k, q);
                assign(&mut r, &mut new_r, q);
                proof {
                    let g11 = c11;
                    let g12 = c12;
                    let g21 = c21;
                    let g22 = c22;
                    c11 = g11 * qi + g12;
                    c12 = g11;
                    c21 = g21 * qi + g22;
                    c22 = g21;
                    // congruences survive the exchange step
                    lemma_linear_combo_mod(k0 * a - r0, nk0 * a - nr0, qi, m);
                    assert((new_k as int) * a - (new_r as int) == (k0 * a - r0) - qi * (nk0 * a
                        - nr0)) by (nonlinear_arith)
                        requires
                            new_k as int == k0 - qi * nk0,
                            new_r as int == r0 - qi * nr0,
                    ;
                    // the weighted-magnitude identity survives as well
                    assert((new_r as int) >= 0 && (new_r as int) < (r as int) && (r as int) * abs(
                        new_k as int,
                    ) + (new_r as int) * abs(k as int) == m && (k as int) * (new_k as int) <= 0
                        && new_k != 0 && abs(k as int) <= m) by (nonlinear_arith)
                        requires
                            new_k as int == k0 - qi * nk0,
                            new_r as int == r0 - qi * nr0,
                            r as int == nr0,
                            k as int == nk0,
                            r0 - qi * nr0 >= 0,
                            r0 - qi * nr0 < nr0,
                            nr0 >= 1,
                            qi >= 1,
                            r0 * ank0 + nr0 * ak0 == m,
                            k0 * nk0 <= 0,
                            (nk0 >= 0 ==> ank0 == nk0) && (nk0 < 0 ==> ank0 == -nk0),
                            (k0 >= 0 ==> ak0 == k0) && (k0 < 0 ==> ak0 == -k0),
                            nk0 != 0,
                            m >= 1,
                            abs(new_k as int) == if new_k as int >= 0 {
                                new_k as int
                            } else {
                                -(new_k as int)
                            },
                            abs(k as int) == if k as int >= 0 {
                                k as int
                            } else {
                                -(k as int)
                            },
                    ;
                    // the back-substitution rows survive
                    assert(m == c11 * (r as int) + c12 * (new_r as int) && a == c21 * (r as int)
                        + c22 * (new_r as int)) by (nonlinear_arith)
                        requires
                            c11 == g11 * qi + g12,
                            c12 == g11,
                            c21 == g21 * qi + g22,
                            c22 == g21,
                            r as int == nr0,
                            new_r as int == r0 - qi * nr0,
                            m == g11 * r0 + g12 * nr0,
                            a == g21 * r0 + g22 * nr0,
                    ;
                }
            }
            if r == 1 {
                proof {
                    lemma_mod_equivalence((k as int) * a, 1, m);
                    lemma_small_mod(1, p());
                    // k cannot be a multiple of m
                    if (k as int) % m == 0 {
                        lemma_mul_mod_noop_left(k as int, a, m);
                        assert((0 as int * a) % m == 0int % m);
                        assert(false);
                    }
                }
                let result: i64 = if k < 0 {
                    k + MODULUS as i64
                } else {
                    k
                };
                proof {
                    assert(0 <= result as int && (result as int) < m);
                    if k < 0 {
                        lemma_mod_multiples_vanish(a, (k as int) * a, m);
                        assert((result as int) * a == m * a + (k as int) * a) by (nonlinear_arith)
                            requires
                                result as int == k as int + m,
                        ;
                    }
                    assert(((result as int) * a) % m == 1);
                }
                let inv = Mersenne61(result as u64);
                proof {
                    let ri = result as int;
                    assert(inv@ as int == ri);
                    assert(self@ as int == a);
                    assert((self@ * inv@) as int == a * ri) by (nonlinear_arith)
                        requires
                            self@ as int == a,
                            inv@ as int == ri,
                    ;
                    vstd::arithmetic::mul::lemma_mul_is_commutative(a, ri);
                    assert(field_mul(self@, inv@) == 1);
                    assert(has_inverse(self@));
                    let w = field_inv(self@);
                    assert(w < p() && field_mul(self@, w) == 1);
                    lemma_inverse_unique(self@, inv@, w);
                }
                Ok(inv)
            } else {
                proof {
                    assert(r as int >= 2);
                    assert(m == c11 * (r as int));
                    assert(a == c21 * (r as int));
                    assert_by_contradiction!(!has_inverse(self@), {
                        let b = choose|b: nat| b < p() && field_mul(self@, b) == 1;
                        let bi = b as int;
                        assert((a * bi) % m == 1);
                        lemma_fundamental_div_mod(a * bi, m);
                        let t = (a * bi) / m;
                        assert(1 == (r as int) * (c21 * bi - c11 * t)) by (nonlinear_arith)
                            requires
                                a * bi == m * t + 1,
                                a == c21 * (r as int),
                                m == c11 * (r as int),
                        ;
                        assert(false) by (nonlinear_arith)
                            requires
                                1 == (r as int) * (c21 * bi - c11 * t),
                                r as int >= 2,
                        ;
                    });
                }
                Err(FieldError::ZeroInverse)
            }
        }
    }

    /// A uniformly random field element.
    pub fn random(rng: &mut rand::rngs::ThreadRng) -> (r: Self)
        ensures
            r@ < p(),
    {
        let value = crate::rng::random_u64(rng);
        proof {
            lemma_mod_bound(value as int, MODULUS as int);
        }
        Self::from(value)
    }

    /// Field subtraction; avoids wraparound by adding p first when needed.
    pub fn subtract(&self, other: &Self) -> (r: Self)
        ensures
            r@ == field_sub(self@, other@),
    {
        proof {
            use_type_invariant(self);
            use_type_invariant(other);
            lemma_small_mod(other@, p());
        }
        if other.0 > self.0 {
            Self::from(self.0 + MODULUS - other.0)
        } else {
            Self::from(self.0 - other.0)
        }
    }
}

} // verus!
