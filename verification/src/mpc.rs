//! Shamir sharing, reconstruction, and the degree-reduction
//! multiplication protocol.

use crate::math::lagrange::distinct_nodes_invertible;
use crate::math::lagrange::interpolate_polynomial_at;
use crate::math::lagrange::interpolate_spec;
use crate::math::mersenne61::Mersenne61;
use crate::math::mersenne61::field_add;
use crate::math::mersenne61::field_sub;
use crate::math::mersenne61::has_inverse;
use crate::math::mersenne61::field_mul;
use crate::math::mersenne61::p;
use crate::math::mersenne61::seq_view;
use crate::math::lagrange::compute_lagrange_basis;
use crate::math::lagrange::interpolation_sum;
use crate::math::lagrange::lagrange_basis_at;
use crate::math::polynomial::Polynomial;
use crate::math::polynomial::poly_eval;
use crate::mpc::share::ShamirShare;
use crate::mpc::share::decode_share;
use crate::mpc::share::encode_share;
use crate::mpc::share::is_share_encoding_of;
use crate::mpc::share::is_threshold_share_encoding;
use crate::mpc::share::lemma_share_encoding_parses;
use crate::mpc::share::share_bytes;
use crate::mpc::share::share_encoding;
use crate::mpc::share::valid_share_encoding;
use crate::net::Network;
use crate::net::Packet;
use crate::net::channel::Channel;
use crate::net::channel::ChannelError;
use crate::net::channel::all_loopback_open;
use crate::net::channel::kinds_preserved;
use crate::net::channel::loop_queues_empty;
use crate::net::channel::loopbacks_open;
use crate::net::channel::no_remote_slots;
use vstd::prelude::*;

pub mod share;

verus! {

/// Errors that abort a protocol run.
#[derive(Debug, Clone, Copy, PartialEq, Eq, Structural)]
pub enum ProtocolError {
    /// A transport failure surfaced by a channel.
    Channel(ChannelError),
    /// A received packet that does not decode into a valid share.
    Malformed,
}

/// The field image of party `i`'s evaluation node: the integer i + 1.
pub open spec fn share_node(i: int) -> nat {
    ((i + 1) % (p() as int)) as nat
}

/// The node sequence 1..n used for sharing and reconstruction.
pub open spec fn share_nodes(n: int) -> Seq<nat> {
    Seq::new(n as nat, |i: int| share_node(i))
}

/// The values carried by a sequence of shares.
pub open spec fn share_values(s: Seq<ShamirShare>) -> Seq<nat> {
    s.map_values(|sh: ShamirShare| sh.value@)
}

/// Computes the Shamir shares of a secret: a random polynomial of degree
/// `threshold` whose constant term is overwritten with the secret, then
/// evaluated at the nodes 1..n_parties.
pub fn compute_shamir_share(
    secret: &Mersenne61,
    n_parties: usize,
    threshold: usize,
    rng: &mut rand::rngs::ThreadRng,
) -> (r: Vec<ShamirShare>)
    requires
        threshold < usize::MAX,
    ensures
        r@.len() == n_parties,
        forall|i: int| 0 <= i < n_parties ==> (#[trigger] r@[i]).degree == threshold,
        exists|coeffs: Seq<nat>|
            coeffs.len() == threshold + 1 && coeffs[0] == secret@ && (forall|i: int|
                0 <= i < n_parties ==> (#[trigger] r@[i]).value@ == poly_eval(
                    coeffs,
                    share_node(i),
                )),
{
    let mut rand_poly = Polynomial::random(threshold, rng);
    rand_poly.set_coefficient(0, *secret);
    let ghost coeffs = rand_poly@;
    let mut shares: Vec<ShamirShare> = Vec::with_capacity(n_parties);
    let mut i: usize = 0;
    while i < n_parties
        invariant
            i <= n_parties,
            rand_poly@ == coeffs,
            shares@.len() == i,
            forall|k: int| 0 <= k < i ==> (#[trigger] shares@[k]).degree == threshold,
            forall|k: int|
                0 <= k < i ==> (#[trigger] shares@[k]).value@ == poly_eval(coeffs, share_node(k)),
        decreases n_parties - i,
    {
        let evaluation_point = Mersenne61::from((i + 1) as u64);
        proof {
            assert(evaluation_point@ == share_node(i as int));
        }
        let evaluation = rand_poly.evaluate(&evaluation_point);
        shares.push(ShamirShare::new(evaluation, threshold));
        i = i + 1;
    }
    proof {
        assert(coeffs.len() == threshold + 1 && coeffs[0] == secret@ && (forall|k: int|
            0 <= k < n_parties ==> (#[trigger] shares@[k]).value@ == poly_eval(
                coeffs,
                share_node(k),
            )));
        assert(exists|c: Seq<nat>|
            c.len() == threshold + 1 && c[0] == secret@ && (forall|k: int|
                0 <= k < n_parties ==> (#[trigger] shares@[k]).value@ == poly_eval(
                    c,
                    share_node(k),
                )));
    }
    shares
}

/// Reconstructs a secret from shares by Lagrange interpolation at zero
/// over the nodes 1..n.
pub fn reconstruct_secret(shares: Vec<ShamirShare>) -> (r: Mersenne61)
    requires
        distinct_nodes_invertible(share_nodes(shares@.len() as int)),
    ensures
        r@ == interpolate_spec(share_values(shares@), share_nodes(shares@.len() as int), 0),
{
    let n = shares.len();
    let mut alphas: Vec<Mersenne61> = Vec::with_capacity(n);
    let mut i: usize = 0;
    while i < n
        invariant
            i <= n,
            alphas@.len() == i,
            forall|k: int| 0 <= k < i ==> (#[trigger] alphas@[k])@ == share_node(k),
        decreases n - i,
    {
        alphas.push(Mersenne61::from((i + 1) as u64));
        i = i + 1;
    }
    let mut share_value_vec: Vec<Mersenne61> = Vec::with_capacity(n);
    let mut k: usize = 0;
    while k < n
        invariant
            k <= n,
            n == shares@.len(),
            share_value_vec@.len() == k,
            forall|j: int| 0 <= j < k ==> share_value_vec@[j] == shares@[j].value,
        decreases n - k,
    {
        share_value_vec.push(shares[k].value);
        k = k + 1;
    }
    proof {
        assert(seq_view(alphas@) =~= share_nodes(n as int));
        assert(seq_view(share_value_vec@) =~= share_values(shares@));
    }
    interpolate_polynomial_at(share_value_vec, alphas, &Mersenne61::zero())
}

/// Share/reconstruct round trip: the evaluations at the nodes 1..n of a
/// polynomial whose constant term is the secret interpolate at zero back
/// to that secret, for any n at least the coefficient count — so
/// reconstruction from all n shares, or from the first t + 1 of them,
/// recovers what was shared.
pub proof fn lemma_share_reconstruct_round_trip(coeffs: Seq<nat>, n: int)
    requires
        1 <= coeffs.len() <= n,
        coeffs[0] < p(),
        distinct_nodes_invertible(share_nodes(n)),
    ensures
        interpolate_spec(
            Seq::new(n as nat, |i: int| poly_eval(coeffs, share_node(i))),
            share_nodes(n),
            0,
        ) == coeffs[0],
{
    let nodes = share_nodes(n);
    let evals = Seq::new(n as nat, |i: int| poly_eval(coeffs, share_node(i)));
    assert forall|k: int| 0 <= k < nodes.len() implies #[trigger] nodes[k] < p() by {
        vstd::arithmetic::div_mod::lemma_mod_bound(k + 1, p() as int);
    }
    crate::math::interpolation::lemma_interpolation_exact(coeffs, nodes, evals, 0);
    vstd::arithmetic::div_mod::lemma_small_mod(0, p());
    assert(field_mul(0, poly_eval(coeffs.drop_first(), 0)) == 0);
    vstd::arithmetic::div_mod::lemma_small_mod(coeffs[0], p());
    assert(poly_eval(coeffs, 0) == field_add(coeffs[0], 0));
}

/// The output share of party `j` in the multiplication subprotocol,
/// when party `i` re-shared its local product with polynomial `rs[i]`:
/// the Lagrange recombination at zero of the sub-shares `rs[i](j + 1)`.
pub open spec fn reduced_share_value(rs: Seq<Seq<nat>>, n: int, j: int) -> nat {
    interpolate_spec(
        Seq::new(n as nat, |i: int| poly_eval(rs[i], share_node(j))),
        share_nodes(n),
        0,
    )
}

/// Multiplication protocol identity: if A and B are shared with
/// polynomials `ca` and `cb` of degree at most t, every party re-shares
/// its local product share at degree t, and 2t + 1 <= n, then the
/// parties' recombined output shares reconstruct to A * B.
pub proof fn lemma_multiply_protocol_identity(
    ca: Seq<nat>,
    cb: Seq<nat>,
    rs: Seq<Seq<nat>>,
    n: int,
    t: int,
)
    requires
        1 <= ca.len() <= t + 1,
        1 <= cb.len() <= t + 1,
        0 <= t,
        2 * t + 1 <= n,
        rs.len() == n,
        forall|i: int| 0 <= i < n ==> 1 <= (#[trigger] rs[i]).len() <= t + 1,
        forall|i: int|
            0 <= i < n ==> (#[trigger] rs[i])[0] == field_mul(
                poly_eval(ca, share_node(i)),
                poly_eval(cb, share_node(i)),
            ),
        distinct_nodes_invertible(share_nodes(n)),
    ensures
        interpolate_spec(
            Seq::new(n as nat, |j: int| reduced_share_value(rs, n, j)),
            share_nodes(n),
            0,
        ) == field_mul(poly_eval(ca, 0), poly_eval(cb, 0)),
{
    let m = p() as int;
    let nodes = share_nodes(n);
    assert forall|k: int| 0 <= k < nodes.len() implies #[trigger] nodes[k] < p() by {
        vstd::arithmetic::div_mod::lemma_mod_bound(k + 1, m);
    }
    // The recombined output shares are the values of one polynomial of
    // degree at most t: the lambda-weighted sum of the re-sharing
    // polynomials.
    let s = crate::math::interpolation::recombination_coeffs(rs, nodes, n);
    let outputs = Seq::new(n as nat, |j: int| reduced_share_value(rs, n, j));
    assert forall|j: int| 0 <= j < n implies (#[trigger] outputs[j]) as int
        == crate::math::interpolation::eval_int(s, nodes[j] as int) % m by {
        crate::math::interpolation::lemma_recombination_is_polynomial(
            rs,
            nodes,
            share_node(j),
            t + 1,
        );
    }
    crate::math::interpolation::lemma_recombination_is_polynomial(rs, nodes, 0, t + 1);
    // Interpolating those outputs at zero gives that polynomial at zero,
    // which is the lambda-weighted sum of the parties' product shares.
    crate::math::interpolation::lemma_interpolation_exact_int(s, nodes, outputs, 0);
    let h_seq = Seq::new(n as nat, |i: int| poly_eval(rs[i], 0));
    assert(interpolate_spec(h_seq, nodes, 0) as int
        == crate::math::interpolation::eval_int(s, 0) % m);
    // Each product share is the value of the product polynomial ca * cb.
    let ca_int = ca.map_values(|v: nat| v as int);
    let cb_int = cb.map_values(|v: nat| v as int);
    let q = crate::math::interpolation::poly_mul_int(ca_int, cb_int);
    crate::math::interpolation::lemma_poly_mul_len(ca_int, cb_int);
    assert forall|i: int| 0 <= i < n implies (#[trigger] h_seq[i]) as int
        == crate::math::interpolation::eval_int(q, nodes[i] as int) % m by {
        let node = nodes[i];
        assert(rs[i][0] == field_mul(poly_eval(ca, node), poly_eval(cb, node)));
        vstd::arithmetic::div_mod::lemma_mod_bound(
            (poly_eval(ca, node) * poly_eval(cb, node)) as int,
            m,
        );
        crate::math::interpolation::lemma_poly_eval_at_zero(rs[i]);
        crate::math::interpolation::lemma_eval_mul(ca_int, cb_int, node as int);
        crate::math::interpolation::lemma_poly_eval_congruent(ca, node);
        crate::math::interpolation::lemma_poly_eval_congruent(cb, node);
        vstd::arithmetic::div_mod::lemma_mul_mod_noop(
            crate::math::interpolation::eval_int(ca_int, node as int),
            crate::math::interpolation::eval_int(cb_int, node as int),
            m,
        );
    }
    // Interpolating the product shares at zero gives the product
    // polynomial at zero: A * B.
    crate::math::interpolation::lemma_interpolation_exact_int(q, nodes, h_seq, 0);
    crate::math::interpolation::lemma_eval_mul(ca_int, cb_int, 0);
    crate::math::interpolation::lemma_poly_eval_congruent(ca, 0);
    crate::math::interpolation::lemma_poly_eval_congruent(cb, 0);
    vstd::arithmetic::div_mod::lemma_mul_mod_noop(
        crate::math::interpolation::eval_int(ca_int, 0),
        crate::math::interpolation::eval_int(cb_int, 0),
        m,
    );
}

/// What every transport-layer phase preserves: the slot kinds, the
/// network's closed flag, and each loopback slot's lifecycle state.
pub open spec fn transport_frame<C>(pre: Network<C>, post: Network<C>) -> bool {
    &&& kinds_preserved(pre.channels(), post.channels())
    &&& post.is_closed() == pre.is_closed()
    &&& forall|i: int|
        0 <= i < pre.channels().len() && (#[trigger] pre.channels()[i]) is LoopBack
            ==> post.channels()[i].loop_closed() == pre.channels()[i].loop_closed()
}

/// A network this library fully governs, at rest: open, every slot an
/// open loopback queue, every queue empty.
pub open spec fn all_loopback_idle<C>(net: Network<C>) -> bool {
    &&& !net.is_closed()
    &&& all_loopback_open(net.channels())
    &&& loop_queues_empty(net.channels())
}

/// Shamir-shares a secret and sends the i-th share to party i, the own
/// slot through the loopback channel.  Succeeds whenever no slot is a
/// peer transport and no loopback slot was closed; every loopback slot
/// then receives the canonical encoding of a degree-`threshold` share
/// of the secret.
pub fn share_secret_and_send<C: Channel>(
    secret: &Mersenne61,
    n_parties: usize,
    threshold: usize,
    rng: &mut rand::rngs::ThreadRng,
    network: &mut Network<C>,
) -> (r: Result<(), ProtocolError>)
    requires
        old(network).channels().len() == n_parties,
        threshold < usize::MAX,
    ensures
        transport_frame(*old(network), *final(network)),
        r matches Err(e) ==> e is Channel,
        old(network).is_closed() && n_parties > 0 ==> r is Err,
        !old(network).is_closed() && no_remote_slots(old(network).channels()) && loopbacks_open(
            old(network).channels(),
        ) ==> r is Ok,
        r is Ok ==> (exists|coeffs: Seq<nat>|
            coeffs.len() == threshold + 1 && coeffs[0] == secret@ && (forall|i: int|
                0 <= i < n_parties && (#[trigger] old(network).channels()[i]) is LoopBack ==> ({
                    let pre = old(network).channels()[i];
                    let post = final(network).channels()[i];
                    !pre.loop_closed() && post.loop_queue() == pre.loop_queue().push(
                        share_encoding(poly_eval(coeffs, share_node(i)), threshold as nat),
                    )
                }))),
{
    let own_shares = compute_shamir_share(secret, n_parties, threshold, rng);
    let ghost coeffs = choose|c: Seq<nat>|
        c.len() == threshold + 1 && c[0] == secret@ && (forall|k: int|
            0 <= k < n_parties ==> (#[trigger] own_shares@[k]).value@ == poly_eval(
                c,
                share_node(k),
            ));
    let mut i: usize = 0;
    while i < n_parties
        invariant
            i <= n_parties,
            own_shares@.len() == n_parties,
            forall|k: int| 0 <= k < n_parties ==> (#[trigger] own_shares@[k]).degree == threshold,
            forall|k: int|
                0 <= k < n_parties ==> (#[trigger] own_shares@[k]).value@ == poly_eval(
                    coeffs,
                    share_node(k),
                ),
            network.channels().len() == n_parties,
            transport_frame(*old(network), *network),
            forall|j: int|
                0 <= j < i && (#[trigger] old(network).channels()[j]) is LoopBack ==> ({
                    let pre = old(network).channels()[j];
                    let post = network.channels()[j];
                    !pre.loop_closed() && post.loop_queue() == pre.loop_queue().push(
                        share_encoding(poly_eval(coeffs, share_node(j)), threshold as nat),
                    )
                }),
            forall|j: int|
                i <= j < n_parties ==> network.channels()[j] == old(network).channels()[j],
            i > 0 ==> !old(network).is_closed(),
        decreases n_parties - i,
    {
        let encoded = encode_share(&own_shares[i]);
        let packet = Packet::new(encoded);
        let result = network.send_to(&packet, i);
        match result {
            Ok(_) => {
                proof {
                    assert(packet@ == share_encoding(
                        poly_eval(coeffs, share_node(i as int)),
                        threshold as nat,
                    ));
                }
            },
            Err(e) => {
                proof {
                    let chs = old(network).channels();
                    if !old(network).is_closed() && no_remote_slots(chs) && loopbacks_open(chs) {
                        assert(!(chs[i as int] is Remote));
                        assert(chs[i as int] is LoopBack ==> !chs[i as int].loop_closed());
                        assert(false);
                    }
                }
                return Err(ProtocolError::Channel(e));
            },
        }
        i = i + 1;
    }
    Ok(())
}

/// Receives one degree-`threshold` share from every party in index
/// order.  A packet that does not decode into a share of that degree is
/// a protocol violation.  Succeeds whenever every slot is an open
/// loopback queue whose front is a valid degree-`threshold` encoding;
/// each returned share is then the decode of that slot's queue front.
pub fn recv_threshold_shares<C: Channel>(
    n_parties: usize,
    threshold: usize,
    network: &mut Network<C>,
) -> (r: Result<Vec<ShamirShare>, ProtocolError>)
    requires
        old(network).channels().len() == n_parties,
    ensures
        transport_frame(*old(network), *final(network)),
        r matches Ok(v) ==> v@.len() == n_parties && (forall|i: int|
            0 <= i < n_parties ==> (#[trigger] v@[i]).degree == threshold) && (forall|i: int|
            0 <= i < n_parties && (#[trigger] old(network).channels()[i]) is LoopBack ==> ({
                let pre = old(network).channels()[i];
                let post = final(network).channels()[i];
                &&& !pre.loop_closed()
                &&& pre.loop_queue().len() > 0
                &&& is_share_encoding_of(pre.loop_queue()[0], v@[i])
                &&& post.loop_queue() == pre.loop_queue().drop_first()
            })),
        ({
            let chs = old(network).channels();
            !old(network).is_closed() && all_loopback_open(chs) && (forall|i: int|
                0 <= i < chs.len() ==> (#[trigger] chs[i]).loop_queue().len() > 0
                    && is_threshold_share_encoding(chs[i].loop_queue()[0], threshold as nat))
        }) ==> r is Ok,
{
    let ghost ready = {
        let chs = old(network).channels();
        !old(network).is_closed() && all_loopback_open(chs) && (forall|i: int|
            0 <= i < chs.len() ==> (#[trigger] chs[i]).loop_queue().len() > 0
                && is_threshold_share_encoding(chs[i].loop_queue()[0], threshold as nat))
    };
    let mut shares: Vec<ShamirShare> = Vec::with_capacity(n_parties);
    let mut i: usize = 0;
    while i < n_parties
        invariant
            i <= n_parties,
            shares@.len() == i,
            network.channels().len() == n_parties,
            transport_frame(*old(network), *network),
            forall|k: int| 0 <= k < i ==> (#[trigger] shares@[k]).degree == threshold,
            forall|k: int|
                0 <= k < i && (#[trigger] old(network).channels()[k]) is LoopBack ==> ({
                    let pre = old(network).channels()[k];
                    let post = network.channels()[k];
                    &&& !pre.loop_closed()
                    &&& pre.loop_queue().len() > 0
                    &&& is_share_encoding_of(pre.loop_queue()[0], shares@[k])
                    &&& post.loop_queue() == pre.loop_queue().drop_first()
                }),
            forall|j: int|
                i <= j < n_parties ==> network.channels()[j] == old(network).channels()[j],
            ready == ({
                let chs = old(network).channels();
                !old(network).is_closed() && all_loopback_open(chs) && (forall|k: int|
                    0 <= k < chs.len() ==> (#[trigger] chs[k]).loop_queue().len() > 0
                        && is_threshold_share_encoding(chs[k].loop_queue()[0], threshold as nat))
            }),
        decreases n_parties - i,
    {
        let ghost pre_slot = old(network).channels()[i as int];
        let packet = match network.recv_from(i) {
            Ok(pk) => pk,
            Err(e) => {
                proof {
                    if ready {
                        assert(pre_slot is LoopBack && !pre_slot.loop_closed()
                            && pre_slot.loop_queue().len() > 0);
                        assert(false);
                    }
                }
                return Err(ProtocolError::Channel(e));
            },
        };
        let share = match decode_share(packet.as_slice()) {
            Ok(s) => s,
            Err(e) => {
                proof {
                    if ready {
                        assert(pre_slot is LoopBack && packet@ == pre_slot.loop_queue()[0]);
                        assert(is_threshold_share_encoding(pre_slot.loop_queue()[0], threshold as nat));
                        assert(false);
                    }
                }
                return Err(e);
            },
        };
        if share.degree != threshold {
            proof {
                if ready {
                    assert(pre_slot is LoopBack && packet@ == pre_slot.loop_queue()[0]);
                    assert(is_threshold_share_encoding(pre_slot.loop_queue()[0], threshold as nat));
                    assert(share.degree as u64 == threshold as u64);
                    assert(false);
                }
            }
            return Err(ProtocolError::Malformed);
        }
        shares.push(share);
        i = i + 1;
    }
    Ok(shares)
}

/// Recombines one degree-t sub-share from every party with the Lagrange
/// coefficients at zero over the nodes 1..n: the returned share has
/// degree t and carries the interpolation at zero of the given values.
pub fn recombine_product_shares(h_shares: &Vec<ShamirShare>, threshold: usize) -> (r: ShamirShare)
    requires
        1 <= h_shares@.len(),
        forall|k: int| 0 <= k < h_shares@.len() ==> (#[trigger] h_shares@[k]).degree == threshold,
        distinct_nodes_invertible(share_nodes(h_shares@.len() as int)),
    ensures
        r.degree == threshold,
        r.value@ == interpolate_spec(
            share_values(h_shares@),
            share_nodes(h_shares@.len() as int),
            0,
        ),
{
    let n_parties = h_shares.len();
    let mut alphas: Vec<Mersenne61> = Vec::with_capacity(n_parties);
    let mut i: usize = 0;
    while i < n_parties
        invariant
            i <= n_parties,
            alphas@.len() == i,
            forall|k: int| 0 <= k < i ==> (#[trigger] alphas@[k])@ == share_node(k),
        decreases n_parties - i,
    {
        alphas.push(Mersenne61::from((i + 1) as u64));
        i = i + 1;
    }
    let ghost nodes = share_nodes(n_parties as int);
    proof {
        assert(seq_view(alphas@) =~= nodes);
    }
    let basis = compute_lagrange_basis(alphas, &Mersenne61::zero());
    let ghost vs = share_values(h_shares@);
    let mut mult_share = h_shares[0].multiply_const(&basis[0]);
    proof {
        vstd::arithmetic::div_mod::lemma_mod_bound(
            (h_shares@[0].value@ * basis@[0]@) as int,
            p() as int,
        );
        vstd::arithmetic::div_mod::lemma_small_mod(mult_share.value@, p());
        assert(interpolation_sum(vs, nodes, 0, 0) == 0);
        assert(interpolation_sum(vs, nodes, 0, 1) == field_add(
            0,
            field_mul(vs[0], lagrange_basis_at(nodes, 0, 0)),
        ));
        assert(vs[0] == h_shares@[0].value@);
        assert(basis@[0]@ == lagrange_basis_at(nodes, 0, 0));
        assert(mult_share.value@ == field_mul(vs[0], lagrange_basis_at(nodes, 0, 0)));
        assert(mult_share.value@ == interpolation_sum(vs, nodes, 0, 1));
    }
    let mut k: usize = 1;
    while k < n_parties
        invariant
            1 <= k <= n_parties,
            h_shares@.len() == n_parties,
            basis@.len() == n_parties,
            nodes == share_nodes(n_parties as int),
            vs == share_values(h_shares@),
            forall|j: int| 0 <= j < n_parties ==> (#[trigger] h_shares@[j]).degree == threshold,
            forall|j: int|
                0 <= j < n_parties ==> (#[trigger] basis@[j])@ == lagrange_basis_at(nodes, j, 0),
            mult_share.degree == threshold,
            mult_share.value@ == interpolation_sum(vs, nodes, 0, k as int),
        decreases n_parties - k,
    {
        let term = h_shares[k].multiply_const(&basis[k]);
        mult_share = mult_share.add(&term);
        k = k + 1;
    }
    mult_share
}

/// The send half of the multiplication subprotocol: computes the local
/// degree-2t product share and re-shares it freshly at degree t, sending
/// sub-share j to party j.  On success every loopback slot received the
/// canonical encoding of a degree-t share of the local product.
pub fn multiply_protocol_send<C: Channel>(
    a: &ShamirShare,
    b: &ShamirShare,
    n_parties: usize,
    threshold: usize,
    rng: &mut rand::rngs::ThreadRng,
    network: &mut Network<C>,
) -> (r: Result<(), ProtocolError>)
    requires
        old(network).channels().len() == n_parties,
        threshold < usize::MAX,
        a.degree + b.degree <= usize::MAX,
    ensures
        transport_frame(*old(network), *final(network)),
        r matches Err(e) ==> e is Channel,
        !old(network).is_closed() && no_remote_slots(old(network).channels()) && loopbacks_open(
            old(network).channels(),
        ) ==> r is Ok,
        r is Ok ==> (exists|coeffs: Seq<nat>|
            coeffs.len() == threshold + 1 && coeffs[0] == field_mul(a.value@, b.value@) && (
            forall|i: int|
                0 <= i < n_parties && (#[trigger] old(network).channels()[i]) is LoopBack ==> ({
                    let pre = old(network).channels()[i];
                    let post = final(network).channels()[i];
                    !pre.loop_closed() && post.loop_queue() == pre.loop_queue().push(
                        share_encoding(poly_eval(coeffs, share_node(i)), threshold as nat),
                    )
                }))),
{
    let h = a.multiply(b);
    share_secret_and_send(&h.value, n_parties, threshold, rng, network)
}

/// The receive half of the multiplication subprotocol: collects one
/// degree-t sub-share from every party and recombines them with the
/// Lagrange coefficients at zero over the nodes 1..n.  The result is a
/// degree-t share whose value is the interpolation at zero of the
/// received sub-shares; for every loopback slot the sub-share used is
/// the decode of that slot's queue front.
pub fn multiply_protocol_recv<C: Channel>(
    n_parties: usize,
    threshold: usize,
    network: &mut Network<C>,
) -> (r: Result<ShamirShare, ProtocolError>)
    requires
        old(network).channels().len() == n_parties,
        1 <= n_parties,
        distinct_nodes_invertible(share_nodes(n_parties as int)),
    ensures
        transport_frame(*old(network), *final(network)),
        r matches Ok(s) ==> s.degree == threshold && (exists|v: Seq<ShamirShare>|
            v.len() == n_parties && (forall|k: int|
                0 <= k < n_parties ==> (#[trigger] v[k]).degree == threshold) && s.value@
                == interpolate_spec(share_values(v), share_nodes(n_parties as int), 0) && (
            forall|i: int|
                0 <= i < n_parties && (#[trigger] old(network).channels()[i]) is LoopBack ==> ({
                    let pre = old(network).channels()[i];
                    let post = final(network).channels()[i];
                    &&& !pre.loop_closed()
                    &&& pre.loop_queue().len() > 0
                    &&& is_share_encoding_of(pre.loop_queue()[0], v[i])
                    &&& post.loop_queue() == pre.loop_queue().drop_first()
                }))),
        ({
            let chs = old(network).channels();
            !old(network).is_closed() && all_loopback_open(chs) && (forall|i: int|
                0 <= i < chs.len() ==> (#[trigger] chs[i]).loop_queue().len() > 0
                    && is_threshold_share_encoding(chs[i].loop_queue()[0], threshold as nat))
        }) ==> r is Ok,
{
    let h_shares = match recv_threshold_shares(n_parties, threshold, network) {
        Ok(v) => v,
        Err(e) => {
            return Err(e);
        },
    };
    let mult_share = recombine_product_shares(&h_shares, threshold);
    proof {
        let v = h_shares@;
        assert(v.len() == n_parties && (forall|k: int|
            0 <= k < n_parties ==> (#[trigger] v[k]).degree == threshold) && mult_share.value@
            == interpolate_spec(share_values(v), share_nodes(n_parties as int), 0) && (forall|
            i: int,
        |
            0 <= i < n_parties && (#[trigger] old(network).channels()[i]) is LoopBack ==> ({
                let pre = old(network).channels()[i];
                let post = final(network).channels()[i];
                &&& !pre.loop_closed()
                &&& pre.loop_queue().len() > 0
                &&& is_share_encoding_of(pre.loop_queue()[0], v[i])
                &&& post.loop_queue() == pre.loop_queue().drop_first()
            })));
    }
    Ok(mult_share)
}

/// Runs the multiplication subprotocol on two degree-t shares of A and
/// B: each party re-shares its local product share and recombines what
/// it receives, ending with a degree-t share of A*B.  On a network of
/// open, empty loopback queues the round is self-contained: it succeeds
/// and leaves the queues empty again.
pub fn run_multiply_protocol<C: Channel>(
    a: &ShamirShare,
    b: &ShamirShare,
    n_parties: usize,
    threshold: usize,
    rng: &mut rand::rngs::ThreadRng,
    network: &mut Network<C>,
) -> (r: Result<ShamirShare, ProtocolError>)
    requires
        old(network).channels().len() == n_parties,
        1 <= n_parties,
        threshold < usize::MAX,
        a.degree + b.degree <= usize::MAX,
        distinct_nodes_invertible(share_nodes(n_parties as int)),
    ensures
        transport_frame(*old(network), *final(network)),
        r matches Ok(s) ==> s.degree == threshold && (exists|v: Seq<ShamirShare>|
            v.len() == n_parties && (forall|k: int|
                0 <= k < n_parties ==> (#[trigger] v[k]).degree == threshold) && s.value@
                == interpolate_spec(share_values(v), share_nodes(n_parties as int), 0)),
        all_loopback_idle(*old(network)) ==> r is Ok && all_loopback_idle(*final(network)),
{
    let ghost idle = all_loopback_idle(*old(network));
    match multiply_protocol_send(a, b, n_parties, threshold, rng, network) {
        Ok(()) => {},
        Err(e) => {
            proof {
                if idle {
                    assert(false);
                }
            }
            return Err(e);
        },
    }
    let ghost mid = *network;
    proof {
        if idle {
            let coeffs = choose|c: Seq<nat>|
                c.len() == threshold + 1 && c[0] == field_mul(a.value@, b.value@) && (forall|
                    i: int,
                |
                    0 <= i < n_parties && (#[trigger] old(network).channels()[i]) is LoopBack
                        ==> ({
                        let pre = old(network).channels()[i];
                        let post = mid.channels()[i];
                        !pre.loop_closed() && post.loop_queue() == pre.loop_queue().push(
                            share_encoding(poly_eval(c, share_node(i)), threshold as nat),
                        )
                    }));
            assert forall|i: int| 0 <= i < mid.channels().len() implies (#[trigger] mid.channels()[i]) is LoopBack
                && !mid.channels()[i].loop_closed() && mid.channels()[i].loop_queue().len() == 1
                && is_threshold_share_encoding(
                mid.channels()[i].loop_queue()[0],
                threshold as nat,
            ) by {
                assert(old(network).channels()[i] is LoopBack);
                assert(old(network).channels()[i].loop_queue().len() == 0);
                let enc = share_encoding(poly_eval(coeffs, share_node(i)), threshold as nat);
                crate::math::interpolation::lemma_poly_eval_bounded(coeffs, share_node(i));
                lemma_share_encoding_parses(poly_eval(coeffs, share_node(i)), threshold as nat);
                assert(mid.channels()[i].loop_queue() == old(
                    network,
                ).channels()[i].loop_queue().push(enc));
                assert(mid.channels()[i].loop_queue()[0] == enc);
            }
        }
    }
    let result = multiply_protocol_recv(n_parties, threshold, network);
    proof {
        if idle {
            assert(result is Ok);
            assert forall|i: int| 0 <= i < network.channels().len() implies (
            #[trigger] network.channels()[i]) is LoopBack
                && !network.channels()[i].loop_closed()
                && network.channels()[i].loop_queue().len() == 0 by {
                assert(mid.channels()[i] is LoopBack);
                assert(mid.channels()[i].loop_queue().len() == 1);
            }
        }
    }
    result
}

/// The reveal step: broadcasts this party's final share to every party,
/// the own slot included.  Succeeds whenever no slot is a peer
/// transport and no loopback slot was closed; every loopback slot then
/// receives the share's canonical encoding.
pub fn broadcast_result_share<C: Channel>(
    share: &ShamirShare,
    network: &mut Network<C>,
) -> (r: Result<(), ProtocolError>)
    ensures
        transport_frame(*old(network), *final(network)),
        r matches Err(e) ==> e is Channel,
        !old(network).is_closed() && no_remote_slots(old(network).channels()) && loopbacks_open(
            old(network).channels(),
        ) ==> r is Ok,
        r is Ok ==> (forall|i: int|
            0 <= i < old(network).channels().len() && (#[trigger] old(
                network,
            ).channels()[i]) is LoopBack ==> ({
                let pre = old(network).channels()[i];
                let post = final(network).channels()[i];
                !pre.loop_closed() && post.loop_queue() == pre.loop_queue().push(
                    share_bytes(*share),
                )
            })),
{
    let encoded = encode_share(share);
    let packet = Packet::new(encoded);
    match network.send(&packet) {
        Ok(_) => Ok(()),
        Err(e) => Err(ProtocolError::Channel(e)),
    }
}

/// The reconstruction step: collects every party's final share and
/// Lagrange-interpolates at zero.  Succeeds whenever every slot is an
/// open loopback queue whose front is a valid share encoding; the
/// result is then the interpolation of the decoded received shares.
pub fn recv_result_and_reconstruct<C: Channel>(
    n_parties: usize,
    network: &mut Network<C>,
) -> (r: Result<Mersenne61, ProtocolError>)
    requires
        old(network).channels().len() == n_parties,
        distinct_nodes_invertible(share_nodes(n_parties as int)),
    ensures
        transport_frame(*old(network), *final(network)),
        r matches Ok(res) ==> res@ < p() && (exists|v: Seq<ShamirShare>|
            v.len() == n_parties && res@ == interpolate_spec(
                share_values(v),
                share_nodes(n_parties as int),
                0,
            ) && (forall|i: int|
                0 <= i < n_parties && (#[trigger] old(network).channels()[i]) is LoopBack ==> ({
                    let pre = old(network).channels()[i];
                    let post = final(network).channels()[i];
                    &&& !pre.loop_closed()
                    &&& pre.loop_queue().len() > 0
                    &&& is_share_encoding_of(pre.loop_queue()[0], v[i])
                    &&& post.loop_queue() == pre.loop_queue().drop_first()
                }))),
        ({
            let chs = old(network).channels();
            !old(network).is_closed() && all_loopback_open(chs) && (forall|i: int|
                0 <= i < chs.len() ==> (#[trigger] chs[i]).loop_queue().len() > 0
                    && valid_share_encoding(chs[i].loop_queue()[0]))
        }) ==> r is Ok,
{
    let ghost ready = {
        let chs = old(network).channels();
        !old(network).is_closed() && all_loopback_open(chs) && (forall|i: int|
            0 <= i < chs.len() ==> (#[trigger] chs[i]).loop_queue().len() > 0
                && valid_share_encoding(chs[i].loop_queue()[0]))
    };
    let mut shares: Vec<ShamirShare> = Vec::with_capacity(n_parties);
    let mut i: usize = 0;
    while i < n_parties
        invariant
            i <= n_parties,
            shares@.len() == i,
            network.channels().len() == n_parties,
            transport_frame(*old(network), *network),
            forall|k: int|
                0 <= k < i && (#[trigger] old(network).channels()[k]) is LoopBack ==> ({
                    let pre = old(network).channels()[k];
                    let post = network.channels()[k];
                    &&& !pre.loop_closed()
                    &&& pre.loop_queue().len() > 0
                    &&& is_share_encoding_of(pre.loop_queue()[0], shares@[k])
                    &&& post.loop_queue() == pre.loop_queue().drop_first()
                }),
            forall|j: int|
                i <= j < n_parties ==> network.channels()[j] == old(network).channels()[j],
            ready == ({
                let chs = old(network).channels();
                !old(network).is_closed() && all_loopback_open(chs) && (forall|k: int|
                    0 <= k < chs.len() ==> (#[trigger] chs[k]).loop_queue().len() > 0
                        && valid_share_encoding(chs[k].loop_queue()[0]))
            }),
        decreases n_parties - i,
    {
        let ghost pre_slot = old(network).channels()[i as int];
        let packet = match network.recv_from(i) {
            Ok(pk) => pk,
            Err(e) => {
                proof {
                    if ready {
                        assert(pre_slot is LoopBack && !pre_slot.loop_closed()
                            && pre_slot.loop_queue().len() > 0);
                        assert(false);
                    }
                }
                return Err(ProtocolError::Channel(e));
            },
        };
        let share = match decode_share(packet.as_slice()) {
            Ok(s) => s,
            Err(e) => {
                proof {
                    if ready {
                        assert(pre_slot is LoopBack && packet@ == pre_slot.loop_queue()[0]);
                        assert(valid_share_encoding(pre_slot.loop_queue()[0]));
                        assert(false);
                    }
                }
                return Err(e);
            },
        };
        shares.push(share);
        i = i + 1;
    }
    let result = reconstruct_secret(shares);
    proof {
        crate::math::lagrange::lemma_interpolate_spec_bounded(
            share_values(shares@),
            share_nodes(shares@.len() as int),
            0,
        );
        let v = shares@;
        assert(v.len() == n_parties && result@ == interpolate_spec(
            share_values(v),
            share_nodes(n_parties as int),
            0,
        ));
    }
    Ok(result)
}

/// Checks at run time that every difference of two distinct nodes among
/// 1..n admits an inverse, which Lagrange interpolation over those
/// nodes relies on.  Because p is prime this holds whenever the nodes
/// are distinct, so for every n < p the check returns true; primality
/// is not formalised here, which is why the check is how verified and
/// unverified callers alike establish the hypothesis.
pub fn check_share_nodes_invertible(n_parties: usize) -> (r: bool)
    ensures
        r ==> distinct_nodes_invertible(share_nodes(n_parties as int)),
{
    let mut i: usize = 0;
    while i < n_parties
        invariant
            i <= n_parties,
            forall|a: int, b: int|
                0 <= a < i && 0 <= b < n_parties && a != b ==> has_inverse(
                    #[trigger] field_sub(share_node(a), share_node(b)),
                ),
        decreases n_parties - i,
    {
        let node_i = Mersenne61::from((i + 1) as u64);
        let mut j: usize = 0;
        while j < n_parties
            invariant
                i < n_parties,
                j <= n_parties,
                node_i@ == share_node(i as int),
                forall|a: int, b: int|
                    0 <= a < i && 0 <= b < n_parties && a != b ==> has_inverse(
                        #[trigger] field_sub(share_node(a), share_node(b)),
                    ),
                forall|b: int|
                    0 <= b < j && b != i ==> has_inverse(
                        #[trigger] field_sub(share_node(i as int), share_node(b)),
                    ),
            decreases n_parties - j,
        {
            if j != i {
                let node_j = Mersenne61::from((j + 1) as u64);
                let difference = node_i.subtract(&node_j);
                match difference.inverse() {
                    Ok(_) => {
                        proof {
                            assert(has_inverse(
                                field_sub(share_node(i as int), share_node(j as int)),
                            ));
                        }
                    },
                    Err(_) => {
                        return false;
                    },
                }
            }
            j = j + 1;
        }
        i = i + 1;
    }
    proof {
        let nodes = share_nodes(n_parties as int);
        assert forall|a: int, b: int|
            0 <= a < nodes.len() && 0 <= b < nodes.len() && a != b implies has_inverse(
            #[trigger] field_sub(nodes[a], nodes[b]),
        ) by {
            assert(nodes[a] == share_node(a) && nodes[b] == share_node(b));
        }
    }
    true
}

/// Runs one full session: shares the local input, folds every party's
/// input into a running product with the multiplication subprotocol,
/// reveals the final share, reconstructs the product, and closes the
/// network.  On a closed network the session fails with a channel
/// error; on a network of open, empty loopback queues it is
/// self-contained and succeeds.
pub fn run_session<C: Channel>(
    input: u64,
    n_parties: usize,
    threshold: usize,
    rng: &mut rand::rngs::ThreadRng,
    network: &mut Network<C>,
) -> (r: Result<Mersenne61, ProtocolError>)
    requires
        old(network).channels().len() == n_parties,
        2 <= n_parties,
        2 * threshold + 1 <= n_parties,
        distinct_nodes_invertible(share_nodes(n_parties as int)),
    ensures
        r matches Ok(v) ==> v@ < p() && final(network).is_closed() && (forall|i: int|
            0 <= i < final(network).channels().len()
                && (#[trigger] final(network).channels()[i]) is LoopBack
                ==> final(network).channels()[i].loop_queue().len() == 0
                && final(network).channels()[i].loop_closed()),
        old(network).is_closed() ==> (r matches Err(e) && e is Channel),
        all_loopback_idle(*old(network)) ==> r is Ok,
{
    let ghost idle = all_loopback_idle(*old(network));
    let own_value = Mersenne61::from(input);
    match share_secret_and_send(&own_value, n_parties, threshold, rng, network) {
        Ok(()) => {},
        Err(e) => {
            proof {
                if idle {
                    assert(false);
                }
            }
            return Err(e);
        },
    }
    proof {
        assert(!old(network).is_closed());
    }
    let ghost loaded = *network;
    proof {
        if idle {
            let coeffs = choose|c: Seq<nat>|
                c.len() == threshold + 1 && c[0] == own_value@ && (forall|i: int|
                    0 <= i < n_parties && (#[trigger] old(network).channels()[i]) is LoopBack
                        ==> ({
                        let pre = old(network).channels()[i];
                        let post = loaded.channels()[i];
                        !pre.loop_closed() && post.loop_queue() == pre.loop_queue().push(
                            share_encoding(poly_eval(c, share_node(i)), threshold as nat),
                        )
                    }));
            assert forall|i: int| 0 <= i < loaded.channels().len() implies (
            #[trigger] loaded.channels()[i]) is LoopBack && !loaded.channels()[i].loop_closed()
                && loaded.channels()[i].loop_queue().len() == 1 && is_threshold_share_encoding(
                loaded.channels()[i].loop_queue()[0],
                threshold as nat,
            ) by {
                assert(old(network).channels()[i] is LoopBack);
                assert(old(network).channels()[i].loop_queue().len() == 0);
                let enc = share_encoding(poly_eval(coeffs, share_node(i)), threshold as nat);
                crate::math::interpolation::lemma_poly_eval_bounded(coeffs, share_node(i));
                lemma_share_encoding_parses(poly_eval(coeffs, share_node(i)), threshold as nat);
                assert(loaded.channels()[i].loop_queue() == old(
                    network,
                ).channels()[i].loop_queue().push(enc));
                assert(loaded.channels()[i].loop_queue()[0] == enc);
            }
        }
    }
    let shares = match recv_threshold_shares(n_parties, threshold, network) {
        Ok(v) => v,
        Err(e) => {
            proof {
                if idle {
                    assert(false);
                }
            }
            return Err(e);
        },
    };
    proof {
        if idle {
            assert forall|i: int| 0 <= i < network.channels().len() implies (
            #[trigger] network.channels()[i]) is LoopBack && !network.channels()[i].loop_closed()
                && network.channels()[i].loop_queue().len() == 0 by {
                assert(loaded.channels()[i] is LoopBack);
                assert(loaded.channels()[i].loop_queue().len() == 1);
            }
            assert(all_loopback_idle(*network));
        }
    }
    let mut mult_share = match run_multiply_protocol(
        &shares[0],
        &shares[1],
        n_parties,
        threshold,
        rng,
        network,
    ) {
        Ok(s) => s,
        Err(e) => {
            proof {
                if idle {
                    assert(false);
                }
            }
            return Err(e);
        },
    };
    let mut idx: usize = 2;
    while idx < n_parties
        invariant
            2 <= idx <= n_parties,
            n_parties <= usize::MAX,
            2 * threshold + 1 <= n_parties,
            shares@.len() == n_parties,
            forall|k: int| 0 <= k < n_parties ==> (#[trigger] shares@[k]).degree == threshold,
            mult_share.degree == threshold,
            network.channels().len() == n_parties,
            distinct_nodes_invertible(share_nodes(n_parties as int)),
            idle == all_loopback_idle(*old(network)),
            idle ==> all_loopback_idle(*network),
            !old(network).is_closed(),
        decreases n_parties - idx,
    {
        mult_share = match run_multiply_protocol(
            &mult_share,
            &shares[idx],
            n_parties,
            threshold,
            rng,
            network,
        ) {
            Ok(s) => s,
            Err(e) => {
                proof {
                    if idle {
                        assert(false);
                    }
                }
                return Err(e);
            },
        };
        idx = idx + 1;
    }
    let ghost before_reveal = *network;
    match broadcast_result_share(&mult_share, network) {
        Ok(()) => {},
        Err(e) => {
            proof {
                if idle {
                    assert(false);
                }
            }
            return Err(e);
        },
    }
    proof {
        if idle {
            assert forall|i: int| 0 <= i < network.channels().len() implies (
            #[trigger] network.channels()[i]) is LoopBack && !network.channels()[i].loop_closed()
                && network.channels()[i].loop_queue().len() == 1 && valid_share_encoding(
                network.channels()[i].loop_queue()[0],
            ) by {
                assert(before_reveal.channels()[i] is LoopBack);
                assert(before_reveal.channels()[i].loop_queue().len() == 0);
                crate::math::mersenne61::lemma_view_reduced(mult_share.value);
                lemma_share_encoding_parses(mult_share.value@, mult_share.degree as nat);
                assert(network.channels()[i].loop_queue() == before_reveal.channels()[i].loop_queue().push(
                    share_bytes(mult_share),
                ));
                assert(network.channels()[i].loop_queue()[0] == share_bytes(mult_share));
            }
        }
    }
    let ghost reveal_loaded = *network;
    let result = match recv_result_and_reconstruct(n_parties, network) {
        Ok(v) => v,
        Err(e) => {
            proof {
                if idle {
                    assert(false);
                }
            }
            return Err(e);
        },
    };
    let ghost before_close = *network;
    proof {
        if idle {
            assert forall|i: int|
                0 <= i < before_close.channels().len() implies !((
            #[trigger] before_close.channels()[i]) is Remote) by {
                assert(reveal_loaded.channels()[i] is LoopBack);
            }
        }
    }
    match network.close() {
        Ok(()) => {},
        Err(e) => {
            proof {
                if idle {
                    assert(no_remote_slots(before_close.channels()));
                    assert(false);
                }
            }
            return Err(ProtocolError::Channel(e));
        },
    }
    proof {
        assert forall|i: int|
            0 <= i < network.channels().len() && (#[trigger] network.channels()[i]) is LoopBack
                implies network.channels()[i].loop_queue().len() == 0
                && network.channels()[i].loop_closed() by {
            assert(before_close.channels()[i].same_kind(network.channels()[i]));
            assert(before_close.channels()[i] is LoopBack);
        }
    }
    Ok(result)
}

} // verus!
