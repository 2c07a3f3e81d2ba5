//! Lagrange basis computation and interpolation over F_p.

use crate::math::mersenne61::Mersenne61;
use crate::math::mersenne61::field_add;
use crate::math::mersenne61::field_inv;
use crate::math::mersenne61::field_mul;
use crate::math::mersenne61::field_sub;
use crate::math::mersenne61::has_inverse;
use crate::math::mersenne61::seq_view;
use vstd::prelude::*;

verus! {

/// Every difference of two distinct nodes admits an inverse.  For the
/// prime modulus this holds exactly when the nodes are pairwise distinct;
/// primality is not formalised here, so contracts carry this hypothesis.
pub open spec fn distinct_nodes_invertible(nodes: Seq<nat>) -> bool {
    forall|j: int, m: int|
        0 <= j < nodes.len() && 0 <= m < nodes.len() && j != m ==> has_inverse(
            #[trigger] field_sub(nodes[j], nodes[m]),
        )
}

/// The partial product over the first `upto` nodes of the Lagrange basis
/// polynomial L_j evaluated at `x`.
pub open spec fn lagrange_basis_prefix(nodes: Seq<nat>, j: int, x: nat, upto: int) -> nat
    decreases upto,
{
    if upto <= 0 {
        1
    } else if upto - 1 == j {
        lagrange_basis_prefix(nodes, j, x, upto - 1)
    } else {
        field_mul(
            lagrange_basis_prefix(nodes, j, x, upto - 1),
            field_mul(
                field_sub(x, nodes[upto - 1]),
                field_inv(field_sub(nodes[j], nodes[upto - 1])),
            ),
        )
    }
}

/// The Lagrange basis polynomial L_j over `nodes`, evaluated at `x`:
/// the product over m != j of (x - x_m) * (x_j - x_m)^-1.
pub open spec fn lagrange_basis_at(nodes: Seq<nat>, j: int, x: nat) -> nat {
    lagrange_basis_prefix(nodes, j, x, nodes.len() as int)
}

/// The partial sum of the first `upto` interpolation terms y_j * L_j(x).
pub open spec fn interpolation_sum(evals: Seq<nat>, nodes: Seq<nat>, x: nat, upto: int) -> nat
    decreases upto,
{
    if upto <= 0 {
        0
    } else {
        field_add(
            interpolation_sum(evals, nodes, x, upto - 1),
            field_mul(evals[upto - 1], lagrange_basis_at(nodes, upto - 1, x)),
        )
    }
}

/// The interpolated polynomial through `(nodes[j], evals[j])`, at `x`.
pub open spec fn interpolate_spec(evals: Seq<nat>, nodes: Seq<nat>, x: nat) -> nat {
    interpolation_sum(evals, nodes, x, evals.len() as int)
}

/// A basis prefix collapses to zero once the factor for a node equal to
/// `x` has been folded in.
proof fn lemma_basis_prefix_zero(nodes: Seq<nat>, j: int, m: int, upto: int)
    requires
        0 <= j < nodes.len(),
        0 <= m < nodes.len(),
        m != j,
        m < upto <= nodes.len(),
        nodes[m] < crate::math::mersenne61::p(),
    ensures
        lagrange_basis_prefix(nodes, j, nodes[m], upto) == 0,
    decreases upto,
{
    let x = nodes[m];
    let q = crate::math::mersenne61::p();
    vstd::arithmetic::div_mod::lemma_small_mod(0, q);
    if upto - 1 == m {
        crate::math::mersenne61::lemma_sub_self(x);
        assert(field_sub(x, nodes[upto - 1]) == 0);
        assert(field_mul(0, field_inv(field_sub(nodes[j], nodes[upto - 1]))) == 0);
        assert(field_mul(lagrange_basis_prefix(nodes, j, x, upto - 1), 0) == 0);
    } else {
        lemma_basis_prefix_zero(nodes, j, m, upto - 1);
        if upto - 1 == j {
        } else {
            assert(field_mul(
                0,
                field_mul(
                    field_sub(x, nodes[upto - 1]),
                    field_inv(field_sub(nodes[j], nodes[upto - 1])),
                ),
            ) == 0);
        }
    }
}

/// The basis polynomial for node `j`, evaluated at node `j` itself, is
/// one: every factor multiplies a difference with its own inverse.
proof fn lemma_basis_prefix_one(nodes: Seq<nat>, j: int, upto: int)
    requires
        0 <= j < nodes.len(),
        0 <= upto <= nodes.len(),
        distinct_nodes_invertible(nodes),
    ensures
        lagrange_basis_prefix(nodes, j, nodes[j], upto) == 1,
    decreases upto,
{
    let x = nodes[j];
    let q = crate::math::mersenne61::p();
    if upto <= 0 {
    } else {
        lemma_basis_prefix_one(nodes, j, upto - 1);
        if upto - 1 == j {
        } else {
            let d = field_sub(x, nodes[upto - 1]);
            assert(has_inverse(d));
            crate::math::mersenne61::lemma_mul_inverse(d);
            assert(field_mul(d, field_inv(d)) == 1);
            vstd::arithmetic::div_mod::lemma_small_mod(1, q);
            assert(field_mul(1, 1) == 1);
        }
    }
}

/// The first `upto` interpolation terms at node `m` sum to `evals[m]`
/// once term `m` has been folded in, and to zero before.
proof fn lemma_interpolation_sum_at_node(evals: Seq<nat>, nodes: Seq<nat>, m: int, upto: int)
    requires
        evals.len() == nodes.len(),
        0 <= m < nodes.len(),
        0 <= upto <= nodes.len(),
        distinct_nodes_invertible(nodes),
        forall|k: int| 0 <= k < nodes.len() ==> #[trigger] nodes[k] < crate::math::mersenne61::p(),
        forall|k: int| 0 <= k < evals.len() ==> #[trigger] evals[k] < crate::math::mersenne61::p(),
    ensures
        interpolation_sum(evals, nodes, nodes[m], upto) == if m < upto {
            evals[m]
        } else {
            0
        },
    decreases upto,
{
    let x = nodes[m];
    let q = crate::math::mersenne61::p();
    if upto <= 0 {
    } else {
        lemma_interpolation_sum_at_node(evals, nodes, m, upto - 1);
        let prev = interpolation_sum(evals, nodes, x, upto - 1);
        if upto - 1 == m {
            lemma_basis_prefix_one(nodes, m, nodes.len() as int);
            assert(lagrange_basis_at(nodes, m, x) == 1);
            vstd::arithmetic::div_mod::lemma_small_mod(evals[m], q);
            assert(field_mul(evals[m], 1) == evals[m]);
            assert(field_add(0, evals[m]) == evals[m]);
        } else {
            lemma_basis_prefix_zero(nodes, upto - 1, m, nodes.len() as int);
            assert(lagrange_basis_at(nodes, upto - 1, x) == 0);
            assert(field_mul(evals[upto - 1], 0) == 0);
            if m < upto - 1 {
                vstd::arithmetic::div_mod::lemma_small_mod(evals[m], q);
                assert(field_add(prev, 0) == evals[m]);
            } else {
                vstd::arithmetic::div_mod::lemma_small_mod(0, q);
                assert(field_add(prev, 0) == 0);
            }
        }
    }
}

/// Lagrange interpolation passes through its evaluation points: at the
/// m-th node it reproduces the m-th evaluation exactly.  (Agreement at
/// points other than the nodes rests on polynomial uniqueness, which is
/// not formalised here.)
pub proof fn lemma_interpolation_reproduces_at_nodes(evals: Seq<nat>, nodes: Seq<nat>, m: int)
    requires
        evals.len() == nodes.len(),
        0 <= m < nodes.len(),
        distinct_nodes_invertible(nodes),
        forall|k: int| 0 <= k < nodes.len() ==> #[trigger] nodes[k] < crate::math::mersenne61::p(),
        forall|k: int| 0 <= k < evals.len() ==> #[trigger] evals[k] < crate::math::mersenne61::p(),
    ensures
        interpolate_spec(evals, nodes, nodes[m]) == evals[m],
{
    lemma_interpolation_sum_at_node(evals, nodes, m, nodes.len() as int);
}

/// The interpolated value is always a reduced field value.
pub proof fn lemma_interpolate_spec_bounded(evals: Seq<nat>, nodes: Seq<nat>, x: nat)
    ensures
        interpolate_spec(evals, nodes, x) < crate::math::mersenne61::p(),
{
    let n = evals.len() as int;
    if n <= 0 {
    } else {
        vstd::arithmetic::div_mod::lemma_mod_bound(
            (interpolation_sum(evals, nodes, x, n - 1) + field_mul(
                evals[n - 1],
                lagrange_basis_at(nodes, n - 1, x),
            )) as int,
            crate::math::mersenne61::p() as int,
        );
    }
}

/// Computes the Lagrange basis over `nodes` evaluated at `x`.
pub fn compute_lagrange_basis(nodes: Vec<Mersenne61>, x: &Mersenne61) -> (r: Vec<Mersenne61>)
    requires
        distinct_nodes_invertible(seq_view(nodes@)),
    ensures
        r@.len() == nodes@.len(),
        forall|j: int|
            0 <= j < nodes@.len() ==> r@[j]@ == lagrange_basis_at(seq_view(nodes@), j, x@),
{
    let n = nodes.len();
    let mut lagrange_basis: Vec<Mersenne61> = Vec::with_capacity(n);
    let mut j: usize = 0;
    while j < n
        invariant
            j <= n,
            n == nodes@.len(),
            distinct_nodes_invertible(seq_view(nodes@)),
            lagrange_basis@.len() == j,
            forall|jj: int|
                0 <= jj < j ==> lagrange_basis@[jj]@ == lagrange_basis_at(seq_view(nodes@), jj, x@),
        decreases n - j,
    {
        let mut basis = Mersenne61::one();
        let mut m: usize = 0;
        while m < n
            invariant
                m <= n,
                j < n,
                n == nodes@.len(),
                distinct_nodes_invertible(seq_view(nodes@)),
                basis@ == lagrange_basis_prefix(seq_view(nodes@), j as int, x@, m as int),
            decreases n - m,
        {
            if m != j {
                let numerator = x.subtract(&nodes[m]);
                let denominator = nodes[j].subtract(&nodes[m]);
                proof {
                    assert(has_inverse(field_sub(seq_view(nodes@)[j as int], seq_view(nodes@)[m as int])));
                }
                let inverted = match denominator.inverse() {
                    Ok(v) => v,
                    Err(_) => {
                        proof {
                            assert(false);
                        }
                        denominator
                    },
                };
                let term = numerator.multiply(&inverted);
                basis = basis.multiply(&term);
            }
            m = m + 1;
        }
        lagrange_basis.push(basis);
        j = j + 1;
    }
    lagrange_basis
}

/// Evaluates at `x` the polynomial interpolated from `evaluations` at the
/// nodes `alphas`.
pub fn interpolate_polynomial_at(
    evaluations: Vec<Mersenne61>,
    alphas: Vec<Mersenne61>,
    x: &Mersenne61,
) -> (r: Mersenne61)
    requires
        evaluations@.len() == alphas@.len(),
        distinct_nodes_invertible(seq_view(alphas@)),
    ensures
        r@ == interpolate_spec(seq_view(evaluations@), seq_view(alphas@), x@),
{
    let n = evaluations.len();
    let ghost alpha_views = seq_view(alphas@);
    let lagrange_basis = compute_lagrange_basis(alphas, x);
    let mut interpolation = Mersenne61::zero();
    let mut i: usize = 0;
    while i < n
        invariant
            i <= n,
            n == evaluations@.len(),
            lagrange_basis@.len() == n,
            forall|j: int|
                0 <= j < n ==> lagrange_basis@[j]@ == lagrange_basis_at(alpha_views, j, x@),
            interpolation@ == interpolation_sum(seq_view(evaluations@), alpha_views, x@, i as int),
        decreases n - i,
    {
        let term = evaluations[i].multiply(&lagrange_basis[i]);
        interpolation = interpolation.add(&term);
        i = i + 1;
    }
    interpolation
}

} // verus!
