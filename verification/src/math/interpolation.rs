//! The interpolation theorem: Lagrange interpolation through the values
//! of a polynomial reproduces that polynomial everywhere, so long as
//! every difference of two distinct nodes admits an inverse.
//!
//! The development works with integer coefficient sequences and
//! congruences modulo p: exact integer algebra (synthetic division and
//! root counting) does the heavy lifting, and short congruence bridges
//! connect it to the reduced field operations of the `lagrange` module.

use crate::math::lagrange::distinct_nodes_invertible;
use crate::math::lagrange::interpolate_spec;
use crate::math::lagrange::interpolation_sum;
use crate::math::lagrange::lagrange_basis_at;
use crate::math::lagrange::lagrange_basis_prefix;
use crate::math::mersenne61::field_inv;
use crate::math::mersenne61::field_mul;
use crate::math::mersenne61::field_neg;
use crate::math::mersenne61::field_sub;
use crate::math::mersenne61::has_inverse;
use crate::math::mersenne61::p;
use crate::math::polynomial::poly_eval;
use vstd::arithmetic::div_mod::lemma_add_mod_noop;
use vstd::arithmetic::div_mod::lemma_fundamental_div_mod;
use vstd::arithmetic::div_mod::lemma_mod_bound;
use vstd::arithmetic::div_mod::lemma_mod_multiples_vanish;
use vstd::arithmetic::div_mod::lemma_mul_mod_noop;
use vstd::arithmetic::div_mod::lemma_small_mod;
use vstd::arithmetic::mul::lemma_mul_is_associative;
use vstd::arithmetic::mul::lemma_mul_is_commutative;
use vstd::arithmetic::mul::lemma_mul_is_distributive_add;
use vstd::prelude::*;

verus! {

/// The modulus as an integer.
pub open spec fn pi() -> int {
    p() as int
}

/// The value at `x` of the integer polynomial with coefficients `c`
/// (constant term first), by Horner's rule, over the integers.
pub open spec fn eval_int(c: Seq<int>, x: int) -> int
    decreases c.len(),
{
    if c.len() == 0 {
        0
    } else {
        c[0] + x * eval_int(c.drop_first(), x)
    }
}

/// Coefficient access that reads zero beyond the end.
pub open spec fn coeff(c: Seq<int>, i: int) -> int {
    if 0 <= i < c.len() {
        c[i]
    } else {
        0
    }
}

/// Evaluating a sequence that starts with `a` splits off the head.
proof fn lemma_eval_cons(a: int, q: Seq<int>, x: int)
    ensures
        eval_int(seq![a] + q, x) == a + x * eval_int(q, x),
{
    let c = seq![a] + q;
    assert(c[0] == a);
    assert(c.drop_first() =~= q);
}

/// Coefficient-wise sum of two integer polynomials.
pub open spec fn poly_add_int(c: Seq<int>, d: Seq<int>) -> Seq<int> {
    Seq::new(
        if c.len() >= d.len() {
            c.len()
        } else {
            d.len()
        },
        |i: int| coeff(c, i) + coeff(d, i),
    )
}

/// Evaluation is additive in the coefficients.
proof fn lemma_eval_add(c: Seq<int>, d: Seq<int>, x: int)
    ensures
        eval_int(poly_add_int(c, d), x) == eval_int(c, x) + eval_int(d, x),
    decreases c.len() + d.len(),
{
    let s = poly_add_int(c, d);
    if c.len() == 0 && d.len() == 0 {
        assert(s.len() == 0);
    } else {
        let ct = if c.len() == 0 {
            c
        } else {
            c.drop_first()
        };
        let dt = if d.len() == 0 {
            d
        } else {
            d.drop_first()
        };
        assert(s.drop_first() =~= poly_add_int(ct, dt));
        lemma_eval_add(ct, dt, x);
        assert(s[0] == coeff(c, 0) + coeff(d, 0));
        lemma_mul_is_distributive_add(x, eval_int(ct, x), eval_int(dt, x));
    }
}

/// Every coefficient multiplied by the scalar `s`.
pub open spec fn scale_int(c: Seq<int>, s: int) -> Seq<int> {
    Seq::new(c.len(), |i: int| s * c[i])
}

/// Evaluation commutes with scaling.
proof fn lemma_eval_scale(c: Seq<int>, s: int, x: int)
    ensures
        eval_int(scale_int(c, s), x) == s * eval_int(c, x),
    decreases c.len(),
{
    if c.len() == 0 {
        assert(s * 0 == 0) by (nonlinear_arith);
    } else {
        let t = c.drop_first();
        assert(scale_int(c, s).drop_first() =~= scale_int(t, s));
        lemma_eval_scale(t, s, x);
        let e = eval_int(t, x);
        assert(s * c[0] + x * (s * e) == s * (c[0] + x * e)) by (nonlinear_arith);
    }
}

/// The coefficients of `(x - r)` times the polynomial `c`.
pub open spec fn mul_linear(c: Seq<int>, r: int) -> Seq<int> {
    Seq::new(c.len() + 1, |i: int| coeff(c, i - 1) - r * coeff(c, i))
}

/// Evaluation of the product with a monic linear factor.
proof fn lemma_eval_mul_linear(c: Seq<int>, r: int, x: int)
    ensures
        eval_int(mul_linear(c, r), x) == (x - r) * eval_int(c, x),
    decreases c.len(),
{
    reveal_with_fuel(eval_int, 3);
    let m = mul_linear(c, r);
    if c.len() == 0 {
        assert(m =~= seq![0int]);
        assert(m.drop_first() =~= Seq::<int>::empty());
        assert(x * 0 == 0) by (nonlinear_arith);
        assert(eval_int(m, x) == 0);
        assert((x - r) * 0 == 0) by (nonlinear_arith);
    } else {
        let t = c.drop_first();
        assert(m[0] == -(r * c[0]));
        assert(m.drop_first() =~= poly_add_int(seq![c[0]], mul_linear(t, r)));
        lemma_eval_add(seq![c[0]], mul_linear(t, r), x);
        lemma_eval_mul_linear(t, r, x);
        assert(seq![c[0]].drop_first() =~= Seq::<int>::empty());
        assert(x * 0 == 0) by (nonlinear_arith);
        assert(eval_int(seq![c[0]], x) == c[0]);
        let e = eval_int(t, x);
        assert(-(r * c[0]) + x * (c[0] + (x - r) * e) == (x - r) * (c[0] + x * e))
            by (nonlinear_arith);
    }
}

/// The quotient of `c` by the monic linear factor `x - r`, by synthetic
/// division.
pub open spec fn quot(c: Seq<int>, r: int) -> Seq<int>
    decreases c.len(),
{
    if c.len() <= 1 {
        Seq::empty()
    } else {
        seq![eval_int(c.drop_first(), r)] + quot(c.drop_first(), r)
    }
}

/// The quotient has one coefficient fewer.
proof fn lemma_quot_len(c: Seq<int>, r: int)
    ensures
        quot(c, r).len() == if c.len() == 0 {
            0int
        } else {
            c.len() - 1
        },
    decreases c.len(),
{
    if c.len() <= 1 {
    } else {
        lemma_quot_len(c.drop_first(), r);
    }
}

/// Synthetic division: `c(x) - c(r)` equals `(x - r)` times the
/// quotient, exactly over the integers.
proof fn lemma_synthetic_division(c: Seq<int>, r: int, x: int)
    ensures
        eval_int(c, x) - eval_int(c, r) == (x - r) * eval_int(quot(c, r), x),
    decreases c.len(),
{
    reveal_with_fuel(eval_int, 3);
    if c.len() <= 1 {
        assert((x - r) * 0 == 0) by (nonlinear_arith);
    } else {
        let t = c.drop_first();
        lemma_synthetic_division(t, r, x);
        lemma_eval_cons(eval_int(t, r), quot(t, r), x);
        let tx = eval_int(t, x);
        let tr = eval_int(t, r);
        let qt = eval_int(quot(t, r), x);
        assert(tx - tr == (x - r) * qt);
        assert((c[0] + x * tx) - (c[0] + r * tr) == (x - r) * (tr + x * qt)) by (nonlinear_arith)
            requires
                tx - tr == (x - r) * qt,
        ;
    }
}

/// A multiple of the modulus stays one after multiplication.
proof fn lemma_mul_zero_mod(y: int, v: int)
    requires
        v % pi() == 0,
    ensures
        (y * v) % pi() == 0,
{
    let k = v / pi();
    lemma_fundamental_div_mod(v, pi());
    assert(y * v == pi() * (y * k)) by (nonlinear_arith)
        requires
            v == pi() * k,
    ;
    lemma_mod_multiples_vanish(y * k, 0, pi());
    lemma_small_mod(0, p());
}

/// The sum of two multiples of the modulus is a multiple.
proof fn lemma_add_zero_mod(u: int, v: int)
    requires
        u % pi() == 0,
        v % pi() == 0,
    ensures
        (u + v) % pi() == 0,
{
    lemma_add_mod_noop(u, v, pi());
    lemma_small_mod(0, p());
}

/// The difference of two multiples of the modulus is a multiple.
proof fn lemma_diff_zero_mod(u: int, v: int)
    requires
        u % pi() == 0,
        v % pi() == 0,
    ensures
        (u - v) % pi() == 0,
{
    lemma_fundamental_div_mod(u, pi());
    lemma_fundamental_div_mod(v, pi());
    let ku = u / pi();
    let kv = v / pi();
    assert(u - v == pi() * (ku - kv)) by (nonlinear_arith)
        requires
            u == pi() * ku,
            v == pi() * kv,
    ;
    lemma_mod_multiples_vanish(ku - kv, 0, pi());
    lemma_small_mod(0, p());
}

/// Cancellation: a product that vanishes modulo p, one factor of which
/// is invertible, forces the other factor to vanish.
proof fn lemma_cancel_invertible(a: int, b: int)
    requires
        (a * b) % pi() == 0,
        has_inverse((a % pi()) as nat),
    ensures
        b % pi() == 0,
{
    let m = pi();
    let ar = (a % m) as nat;
    lemma_mod_bound(a, m);
    let w = field_inv(ar);
    crate::math::mersenne61::lemma_mul_inverse(ar);
    assert(field_mul(ar, w) == 1);
    assert(((ar as int) * (w as int)) % m == 1);
    let x = (ar as int) * (w as int);
    // b == b * ((ar * w) % m) % m, then re-associate
    vstd::arithmetic::div_mod::lemma_mul_mod_noop_right(b % m, x, m);
    assert(((b % m) * (x % m)) % m == ((b % m) * x) % m);
    assert((b % m) * (x % m) == b % m) by (nonlinear_arith)
        requires
            x % m == 1,
    ;
    lemma_mod_bound(b, m);
    lemma_small_mod((b % m) as nat, p());
    assert(((b % m) * x) % m == b % m);
    vstd::arithmetic::div_mod::lemma_mul_mod_noop_left(b, x, m);
    assert((b * x) % m == b % m);
    // b * (ar * w) == (b * ar) * w
    lemma_mul_is_associative(b, ar as int, w as int);
    vstd::arithmetic::div_mod::lemma_mul_mod_noop_left(b * (ar as int), w as int, m);
    // b * ar == b * (a % m) and (b * (a % m)) % m == (b * a) % m
    vstd::arithmetic::div_mod::lemma_mul_mod_noop_right(b, a, m);
    lemma_mul_is_commutative(b, a);
    assert((b * (ar as int)) % m == 0);
    assert((b * x) % m == ((0int) * (w as int)) % m) by {
        assert(b * x == (b * (ar as int)) * (w as int));
        vstd::arithmetic::div_mod::lemma_mul_mod_noop_left(b * (ar as int), w as int, m);
    }
    assert((0int) * (w as int) == 0) by (nonlinear_arith);
    lemma_small_mod(0, p());
}

/// Whether every difference of two distinct nodes is invertible mod p.
pub open spec fn diffs_invertible_int(nodes: Seq<int>) -> bool {
    forall|i: int, j: int|
        0 <= i < nodes.len() && 0 <= j < nodes.len() && i != j ==> has_inverse(
            (((#[trigger] nodes[i]) - (#[trigger] nodes[j])) % pi()) as nat,
        )
}

/// Root counting: an integer polynomial with at most as many
/// coefficients as there are nodes, vanishing modulo p at every node,
/// vanishes modulo p everywhere.
proof fn lemma_roots_force_zero(c: Seq<int>, nodes: Seq<int>, x: int)
    requires
        c.len() <= nodes.len(),
        diffs_invertible_int(nodes),
        forall|i: int| 0 <= i < nodes.len() ==> (eval_int(c, #[trigger] nodes[i]) % pi()) == 0,
    ensures
        eval_int(c, x) % pi() == 0,
    decreases c.len(),
{
    if c.len() == 0 {
        lemma_small_mod(0, p());
    } else {
        let r = nodes[0];
        let q = quot(c, r);
        let ns = nodes.drop_first();
        lemma_quot_len(c, r);
        assert forall|i: int| 0 <= i < ns.len() implies (eval_int(q, #[trigger] ns[i]) % pi())
            == 0 by {
            let n_i = ns[i];
            assert(n_i == nodes[i + 1]);
            lemma_synthetic_division(c, r, n_i);
            lemma_diff_zero_mod(eval_int(c, n_i), eval_int(c, r));
            assert(((n_i - r) * eval_int(q, n_i)) % pi() == 0);
            assert(has_inverse(((n_i - r) % pi()) as nat));
            lemma_cancel_invertible(n_i - r, eval_int(q, n_i));
        }
        assert(diffs_invertible_int(ns)) by {
            assert forall|i: int, j: int|
                0 <= i < ns.len() && 0 <= j < ns.len() && i != j implies has_inverse(
                (((#[trigger] ns[i]) - (#[trigger] ns[j])) % pi()) as nat,
            ) by {
                assert(ns[i] == nodes[i + 1] && ns[j] == nodes[j + 1]);
            }
        }
        lemma_roots_force_zero(q, ns, x);
        lemma_synthetic_division(c, r, x);
        lemma_mul_zero_mod(x - r, eval_int(q, x));
        lemma_add_zero_mod((x - r) * eval_int(q, x), eval_int(c, r));
    }
}

/// Reduced subtraction agrees with integer subtraction modulo p.
proof fn lemma_field_sub_int(a: nat, b: nat)
    ensures
        field_sub(a, b) as int == ((a as int) - (b as int)) % pi(),
{
    let m = pi();
    let br = b % p();
    lemma_fundamental_div_mod(b as int, m);
    let kb = (b as int) / m;
    if br == 0 {
        vstd::arithmetic::div_mod::lemma_mod_self_0(m);
        assert(field_neg(b) == 0);
        assert((a as int) - (b as int) == m * (-kb) + (a as int)) by (nonlinear_arith)
            requires
                b as int == m * kb,
        ;
        lemma_mod_multiples_vanish(-kb, a as int, m);
    } else {
        lemma_mod_bound(b as int, m);
        lemma_small_mod((p() - br) as nat, p());
        assert(field_neg(b) == p() - br);
        assert((a as int) + m - (br as int) == m * (1 + kb) + ((a as int) - (b as int)))
            by (nonlinear_arith)
            requires
                b as int == m * kb + br,
        ;
        lemma_mod_multiples_vanish(1 + kb, (a as int) - (b as int), m);
    }
}

/// The coefficients of the Lagrange basis polynomial for node `j`,
/// restricted to the factors of the first `upto` nodes.
pub open spec fn basis_coeffs(nodes: Seq<nat>, j: int, upto: int) -> Seq<int>
    decreases upto,
{
    if upto <= 0 {
        seq![1int]
    } else if upto - 1 == j {
        basis_coeffs(nodes, j, upto - 1)
    } else {
        scale_int(
            mul_linear(basis_coeffs(nodes, j, upto - 1), nodes[upto - 1] as int),
            field_inv(field_sub(nodes[j], nodes[upto - 1])) as int,
        )
    }
}

/// The basis polynomial over `upto` nodes has at most `upto` coefficients.
proof fn lemma_basis_coeffs_len(nodes: Seq<nat>, j: int, upto: int)
    requires
        0 <= j,
        0 <= upto,
    ensures
        basis_coeffs(nodes, j, upto).len() == if j < upto {
            upto
        } else {
            upto + 1
        },
    decreases upto,
{
    if upto <= 0 {
    } else {
        lemma_basis_coeffs_len(nodes, j, upto - 1);
    }
}

/// The reduced basis prefix is the basis polynomial's value modulo p.
proof fn lemma_basis_coeffs_congruent(nodes: Seq<nat>, j: int, x: nat, upto: int)
    requires
        0 <= j < nodes.len(),
        upto <= nodes.len(),
    ensures
        lagrange_basis_prefix(nodes, j, x, upto) as int == eval_int(
            basis_coeffs(nodes, j, upto),
            x as int,
        ) % pi(),
    decreases upto,
{
    reveal_with_fuel(eval_int, 3);
    let m = pi();
    if upto <= 0 {
        assert(seq![1int].drop_first() =~= Seq::<int>::empty());
        assert((x as int) * 0 == 0) by (nonlinear_arith);
        lemma_small_mod(1, p());
    } else if upto - 1 == j {
        lemma_basis_coeffs_congruent(nodes, j, x, upto - 1);
    } else {
        lemma_basis_coeffs_congruent(nodes, j, x, upto - 1);
        let b_prev = basis_coeffs(nodes, j, upto - 1);
        let nm = nodes[upto - 1];
        let w = field_inv(field_sub(nodes[j], nm)) as int;
        let e_prev = eval_int(b_prev, x as int);
        lemma_eval_mul_linear(b_prev, nm as int, x as int);
        lemma_eval_scale(mul_linear(b_prev, nm as int), w, x as int);
        let u = (x as int) - (nm as int);
        assert(eval_int(basis_coeffs(nodes, j, upto), x as int) == w * (u * e_prev));
        let pp = lagrange_basis_prefix(nodes, j, x, upto - 1) as int;
        lemma_field_sub_int(x, nm);
        let fs = field_sub(x, nm) as int;
        assert(fs == u % m);
        // the combined factor: (fs * w) % m == (u * w) % m
        vstd::arithmetic::div_mod::lemma_mul_mod_noop_left(u, w, m);
        assert((fs * w) % m == (u * w) % m);
        // fold the previous product in: ((e_prev % m) * ((u*w) % m)) % m == (e_prev * (u*w)) % m
        lemma_mul_mod_noop(e_prev, u * w, m);
        assert(e_prev * (u * w) == w * (u * e_prev)) by (nonlinear_arith);
        assert(lagrange_basis_prefix(nodes, j, x, upto) as int == ((pp * ((fs * w) % m)) % m));
    }
}

/// The coefficients of the interpolation polynomial through the first
/// `upto` pairs `(nodes[i], evals[i])`.
pub open spec fn interp_coeffs(evals: Seq<nat>, nodes: Seq<nat>, upto: int) -> Seq<int>
    decreases upto,
{
    if upto <= 0 {
        Seq::empty()
    } else {
        poly_add_int(
            interp_coeffs(evals, nodes, upto - 1),
            scale_int(basis_coeffs(nodes, upto - 1, nodes.len() as int), evals[upto - 1] as int),
        )
    }
}

/// The interpolation polynomial has at most as many coefficients as
/// there are nodes.
proof fn lemma_interp_coeffs_len(evals: Seq<nat>, nodes: Seq<nat>, upto: int)
    requires
        upto <= nodes.len(),
    ensures
        interp_coeffs(evals, nodes, upto).len() <= nodes.len(),
    decreases upto,
{
    if upto <= 0 {
    } else {
        lemma_interp_coeffs_len(evals, nodes, upto - 1);
        lemma_basis_coeffs_len(nodes, upto - 1, nodes.len() as int);
    }
}

/// The reduced interpolation sum is the interpolation polynomial's
/// value modulo p.
proof fn lemma_interp_coeffs_congruent(evals: Seq<nat>, nodes: Seq<nat>, x: nat, upto: int)
    requires
        evals.len() == nodes.len(),
        upto <= nodes.len(),
    ensures
        interpolation_sum(evals, nodes, x, upto) as int == eval_int(
            interp_coeffs(evals, nodes, upto),
            x as int,
        ) % pi(),
    decreases upto,
{
    let m = pi();
    if upto <= 0 {
        lemma_small_mod(0, p());
    } else {
        lemma_interp_coeffs_congruent(evals, nodes, x, upto - 1);
        let n = nodes.len() as int;
        let i_prev = interp_coeffs(evals, nodes, upto - 1);
        let b = basis_coeffs(nodes, upto - 1, n);
        let e = evals[upto - 1] as int;
        lemma_eval_add(i_prev, scale_int(b, e), x as int);
        lemma_eval_scale(b, e, x as int);
        let e_i = eval_int(i_prev, x as int);
        let e_b = eval_int(b, x as int);
        assert(eval_int(interp_coeffs(evals, nodes, upto), x as int) == e_i + e * e_b);
        // the term: field_mul(evals, L) with L == e_b % m
        lemma_basis_coeffs_congruent(nodes, upto - 1, x, n);
        assert(lagrange_basis_at(nodes, upto - 1, x) as int == e_b % m);
        vstd::arithmetic::div_mod::lemma_mul_mod_noop_right(e, e_b, m);
        // the sum: (S' + term % m) % m == (e_i + e * e_b) % m
        lemma_add_mod_noop(e_i, e * e_b, m);
    }
}

/// The reduced Horner evaluation is the integer evaluation modulo p.
pub proof fn lemma_poly_eval_congruent(c: Seq<nat>, x: nat)
    ensures
        poly_eval(c, x) as int == eval_int(c.map_values(|v: nat| v as int), x as int) % pi(),
    decreases c.len(),
{
    let m = pi();
    let ci = c.map_values(|v: nat| v as int);
    if c.len() == 0 {
        lemma_small_mod(0, p());
    } else {
        lemma_poly_eval_congruent(c.drop_first(), x);
        assert(ci.drop_first() =~= c.drop_first().map_values(|v: nat| v as int));
        let e_t = eval_int(ci.drop_first(), x as int);
        let f_t = poly_eval(c.drop_first(), x) as int;
        assert(f_t == e_t % m);
        vstd::arithmetic::div_mod::lemma_mul_mod_noop_right(x as int, e_t, m);
        vstd::arithmetic::div_mod::lemma_add_mod_noop_right(c[0] as int, (x as int) * e_t, m);
    }
}

/// A Horner evaluation is always reduced.
pub proof fn lemma_poly_eval_bounded(c: Seq<nat>, x: nat)
    ensures
        poly_eval(c, x) < p(),
{
    if c.len() == 0 {
    } else {
        lemma_mod_bound(
            (c[0] + field_mul(x, poly_eval(c.drop_first(), x))) as int,
            pi(),
        );
    }
}

/// The product of two integer polynomials, by distributing the first
/// factor's coefficients.
pub open spec fn poly_mul_int(c: Seq<int>, d: Seq<int>) -> Seq<int>
    decreases c.len(),
{
    if c.len() == 0 {
        Seq::empty()
    } else {
        poly_add_int(scale_int(d, c[0]), seq![0int] + poly_mul_int(c.drop_first(), d))
    }
}

/// Evaluation is multiplicative.
pub proof fn lemma_eval_mul(c: Seq<int>, d: Seq<int>, x: int)
    ensures
        eval_int(poly_mul_int(c, d), x) == eval_int(c, x) * eval_int(d, x),
    decreases c.len(),
{
    if c.len() == 0 {
        assert(0 * eval_int(d, x) == 0) by (nonlinear_arith);
    } else {
        let t = c.drop_first();
        lemma_eval_mul(t, d, x);
        lemma_eval_add(scale_int(d, c[0]), seq![0int] + poly_mul_int(t, d), x);
        lemma_eval_scale(d, c[0], x);
        lemma_eval_cons(0, poly_mul_int(t, d), x);
        let dv = eval_int(d, x);
        let tv = eval_int(t, x);
        assert(c[0] * dv + (0 + x * (tv * dv)) == (c[0] + x * tv) * dv) by (nonlinear_arith);
    }
}

/// The product has one coefficient fewer than the factor lengths
/// combined.
pub proof fn lemma_poly_mul_len(c: Seq<int>, d: Seq<int>)
    requires
        1 <= c.len(),
        1 <= d.len(),
    ensures
        poly_mul_int(c, d).len() == c.len() + d.len() - 1,
    decreases c.len(),
{
    reveal_with_fuel(poly_mul_int, 3);
    if c.len() == 1 {
    } else {
        lemma_poly_mul_len(c.drop_first(), d);
    }
}

/// The interpolation theorem for integer coefficients: interpolating
/// through the reduced values of an integer polynomial with at most as
/// many coefficients as there are nodes reproduces its reduced value at
/// every point.
pub proof fn lemma_interpolation_exact_int(ic: Seq<int>, nodes: Seq<nat>, evals: Seq<nat>, x: nat)
    requires
        evals.len() == nodes.len(),
        ic.len() <= nodes.len(),
        distinct_nodes_invertible(nodes),
        forall|k: int| 0 <= k < nodes.len() ==> #[trigger] nodes[k] < p(),
        forall|i: int|
            0 <= i < nodes.len() ==> (#[trigger] evals[i]) as int == eval_int(
                ic,
                nodes[i] as int,
            ) % pi(),
    ensures
        interpolate_spec(evals, nodes, x) as int == eval_int(ic, x as int) % pi(),
{
    let m = pi();
    let n = nodes.len() as int;
    assert forall|i: int| 0 <= i < n implies #[trigger] evals[i] < p() by {
        lemma_mod_bound(eval_int(ic, nodes[i] as int), m);
    }
    let ip = interp_coeffs(evals, nodes, n);
    let d = poly_add_int(ip, scale_int(ic, -1));
    let ni = nodes.map_values(|v: nat| v as int);
    assert forall|i: int| 0 <= i < ni.len() implies (eval_int(d, #[trigger] ni[i]) % pi())
        == 0 by {
        let node = nodes[i];
        assert(ni[i] == node as int);
        lemma_eval_add(ip, scale_int(ic, -1), node as int);
        lemma_eval_scale(ic, -1, node as int);
        let e_ip = eval_int(ip, node as int);
        let e_c = eval_int(ic, node as int);
        assert((-1) * e_c == -e_c) by (nonlinear_arith);
        lemma_interp_coeffs_congruent(evals, nodes, node, n);
        crate::math::lagrange::lemma_interpolation_reproduces_at_nodes(evals, nodes, i);
        vstd::arithmetic::div_mod::lemma_mod_equivalence(e_ip, e_c, m);
    }
    assert forall|i: int, j: int|
        0 <= i < ni.len() && 0 <= j < ni.len() && i != j implies has_inverse(
        (((#[trigger] ni[i]) - (#[trigger] ni[j])) % pi()) as nat,
    ) by {
        lemma_field_sub_int(nodes[i], nodes[j]);
        assert(has_inverse(field_sub(nodes[i], nodes[j])));
    }
    lemma_interp_coeffs_len(evals, nodes, n);
    assert(d.len() <= ni.len());
    lemma_roots_force_zero(d, ni, x as int);
    lemma_eval_add(ip, scale_int(ic, -1), x as int);
    lemma_eval_scale(ic, -1, x as int);
    let e_ip = eval_int(ip, x as int);
    let e_c = eval_int(ic, x as int);
    assert((-1) * e_c == -e_c) by (nonlinear_arith);
    vstd::arithmetic::div_mod::lemma_mod_equivalence(e_ip, e_c, m);
    lemma_interp_coeffs_congruent(evals, nodes, x, n);
}

/// A polynomial's value at zero is its constant term.
pub proof fn lemma_poly_eval_at_zero(c: Seq<nat>)
    requires
        1 <= c.len(),
        c[0] < p(),
    ensures
        poly_eval(c, 0) == c[0],
{
    lemma_small_mod(0, p());
    assert(field_mul(0, poly_eval(c.drop_first(), 0)) == 0);
    lemma_small_mod(c[0], p());
}

/// The coefficients of the Lagrange recombination at zero of the first
/// `upto` polynomials: the sum of L_i(0) times `qs[i]`.
pub open spec fn recombination_coeffs(qs: Seq<Seq<nat>>, nodes: Seq<nat>, upto: int) -> Seq<int>
    decreases upto,
{
    if upto <= 0 {
        Seq::empty()
    } else {
        poly_add_int(
            recombination_coeffs(qs, nodes, upto - 1),
            scale_int(
                qs[upto - 1].map_values(|v: nat| v as int),
                lagrange_basis_at(nodes, upto - 1, 0) as int,
            ),
        )
    }
}

/// The recombination polynomial is no longer than its longest summand.
proof fn lemma_recombination_coeffs_len(qs: Seq<Seq<nat>>, nodes: Seq<nat>, upto: int, bound: int)
    requires
        0 <= upto <= qs.len(),
        0 <= bound,
        forall|i: int| 0 <= i < qs.len() ==> (#[trigger] qs[i]).len() <= bound,
    ensures
        recombination_coeffs(qs, nodes, upto).len() <= bound,
    decreases upto,
{
    if upto <= 0 {
    } else {
        lemma_recombination_coeffs_len(qs, nodes, upto - 1, bound);
    }
}

/// At any point, the reduced value of the recombination polynomial is
/// the Lagrange recombination at zero of the polynomials' values there.
proof fn lemma_recombination_congruent(qs: Seq<Seq<nat>>, nodes: Seq<nat>, y: nat, upto: int)
    requires
        0 <= upto <= qs.len(),
    ensures
        interpolation_sum(
            Seq::new(qs.len() as nat, |i: int| poly_eval(qs[i], y)),
            nodes,
            0,
            upto,
        ) as int == eval_int(recombination_coeffs(qs, nodes, upto), y as int) % pi(),
    decreases upto,
{
    let m = pi();
    if upto <= 0 {
        lemma_small_mod(0, p());
    } else {
        lemma_recombination_congruent(qs, nodes, y, upto - 1);
        let vs = Seq::new(qs.len() as nat, |i: int| poly_eval(qs[i], y));
        let r_prev = recombination_coeffs(qs, nodes, upto - 1);
        let q_int = qs[upto - 1].map_values(|v: nat| v as int);
        let lam = lagrange_basis_at(nodes, upto - 1, 0) as int;
        lemma_eval_add(r_prev, scale_int(q_int, lam), y as int);
        lemma_eval_scale(q_int, lam, y as int);
        let e_r = eval_int(r_prev, y as int);
        let e_q = eval_int(q_int, y as int);
        lemma_poly_eval_congruent(qs[upto - 1], y);
        assert(vs[upto - 1] as int == e_q % m);
        // the term: (v * lam) % m == (e_q * lam) % m
        vstd::arithmetic::div_mod::lemma_mul_mod_noop_left(e_q, lam, m);
        assert(lam * e_q == e_q * lam) by (nonlinear_arith);
        // the sum: ((e_r % m) + (e_q * lam) % m) % m == (e_r + lam * e_q) % m
        lemma_add_mod_noop(e_r, lam * e_q, m);
    }
}

/// Lagrange recombination at zero applied pointwise to a family of
/// polynomials is itself a polynomial value: its reduced evaluations are
/// those of the recombination polynomial.
pub proof fn lemma_recombination_is_polynomial(
    qs: Seq<Seq<nat>>,
    nodes: Seq<nat>,
    y: nat,
    bound: int,
)
    requires
        0 <= bound,
        forall|i: int| 0 <= i < qs.len() ==> (#[trigger] qs[i]).len() <= bound,
    ensures
        recombination_coeffs(qs, nodes, qs.len() as int).len() <= bound,
        interpolate_spec(
            Seq::new(qs.len() as nat, |i: int| poly_eval(qs[i], y)),
            nodes,
            0,
        ) as int == eval_int(
            recombination_coeffs(qs, nodes, qs.len() as int),
            y as int,
        ) % pi(),
{
    lemma_recombination_coeffs_len(qs, nodes, qs.len() as int, bound);
    lemma_recombination_congruent(qs, nodes, y, qs.len() as int);
}

/// The interpolation theorem: interpolating through the values of a
/// polynomial with at most as many coefficients as there are nodes
/// reproduces that polynomial at every point, whenever every difference
/// of two distinct nodes admits an inverse.
pub proof fn lemma_interpolation_exact(coeffs: Seq<nat>, nodes: Seq<nat>, evals: Seq<nat>, x: nat)
    requires
        evals.len() == nodes.len(),
        coeffs.len() <= nodes.len(),
        distinct_nodes_invertible(nodes),
        forall|k: int| 0 <= k < nodes.len() ==> #[trigger] nodes[k] < p(),
        forall|i: int| 0 <= i < nodes.len() ==> #[trigger] evals[i] == poly_eval(coeffs, nodes[i]),
    ensures
        interpolate_spec(evals, nodes, x) == poly_eval(coeffs, x),
{
    let m = pi();
    let n = nodes.len() as int;
    assert forall|i: int| 0 <= i < n implies #[trigger] evals[i] < p() by {
        lemma_poly_eval_bounded(coeffs, nodes[i]);
    }
    let ci = coeffs.map_values(|v: nat| v as int);
    let ip = interp_coeffs(evals, nodes, n);
    let d = poly_add_int(ip, scale_int(ci, -1));
    let ni = nodes.map_values(|v: nat| v as int);
    assert forall|i: int| 0 <= i < ni.len() implies (eval_int(d, #[trigger] ni[i]) % pi())
        == 0 by {
        let node = nodes[i];
        assert(ni[i] == node as int);
        lemma_eval_add(ip, scale_int(ci, -1), node as int);
        lemma_eval_scale(ci, -1, node as int);
        let e_ip = eval_int(ip, node as int);
        let e_c = eval_int(ci, node as int);
        assert((-1) * e_c == -e_c) by (nonlinear_arith);
        lemma_interp_coeffs_congruent(evals, nodes, node, n);
        crate::math::lagrange::lemma_interpolation_reproduces_at_nodes(evals, nodes, i);
        lemma_poly_eval_congruent(coeffs, node);
        vstd::arithmetic::div_mod::lemma_mod_equivalence(e_ip, e_c, m);
    }
    assert forall|i: int, j: int|
        0 <= i < ni.len() && 0 <= j < ni.len() && i != j implies has_inverse(
        (((#[trigger] ni[i]) - (#[trigger] ni[j])) % pi()) as nat,
    ) by {
        lemma_field_sub_int(nodes[i], nodes[j]);
        assert(has_inverse(field_sub(nodes[i], nodes[j])));
    }
    lemma_interp_coeffs_len(evals, nodes, n);
    assert(d.len() <= ni.len());
    lemma_roots_force_zero(d, ni, x as int);
    lemma_eval_add(ip, scale_int(ci, -1), x as int);
    lemma_eval_scale(ci, -1, x as int);
    let e_ip = eval_int(ip, x as int);
    let e_c = eval_int(ci, x as int);
    assert((-1) * e_c == -e_c) by (nonlinear_arith);
    vstd::arithmetic::div_mod::lemma_mod_equivalence(e_ip, e_c, m);
    lemma_interp_coeffs_congruent(evals, nodes, x, n);
    lemma_poly_eval_congruent(coeffs, x);
}

} // verus!
