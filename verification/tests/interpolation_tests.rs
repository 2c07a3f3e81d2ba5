//! Tests of Lagrange interpolation and Shamir sharing.

use rand::seq::SliceRandom;
use rand::{Rng, thread_rng};
use shamir_mpc::math::lagrange::{compute_lagrange_basis, interpolate_polynomial_at};
use shamir_mpc::math::mersenne61::Mersenne61;
use shamir_mpc::math::polynomial::Polynomial;
use shamir_mpc::mpc::{compute_shamir_share, reconstruct_secret};

#[test]
fn interpolation() {
    const MAX_DEGREE: u64 = 100;
    const N_SAMPLES: u64 = 100;

    let mut rng = thread_rng();

    for _ in 0..N_SAMPLES {
        let degree: usize = (rng.gen::<u64>() % MAX_DEGREE) as usize;
        let random_poly: Polynomial = Polynomial::random(degree, &mut rng);

        let evaluation_test = Mersenne61::random(&mut rng);

        // Generates degree + 1 evaluation points
        let mut eval_points: Vec<usize> = (0..1000).collect();
        eval_points.shuffle(&mut rng);
        let eval_points: Vec<Mersenne61> = eval_points[0..degree + 1]
            .iter()
            .map(|elem| Mersenne61::from(*elem as u64))
            .collect();

        let evaluations = eval_points
            .iter()
            .map(|x| random_poly.evaluate(x))
            .collect();

        let interpolated_evaluation =
            interpolate_polynomial_at(evaluations, eval_points, &evaluation_test);

        assert_eq!(
            interpolated_evaluation,
            random_poly.evaluate(&evaluation_test)
        )
    }
}

#[test]
fn secret_sharing_reconstruction_correctness() {
    const N_MAX_PARTIES: usize = 100;
    const N_SAMPLES: usize = 30;

    for _ in 0..N_SAMPLES {
        let mut rng = thread_rng();
        let secret = Mersenne61::random(&mut rng);
        let n_parties = rng.gen::<usize>() % N_MAX_PARTIES + 3;
        let threshold = n_parties / 2;
        let shares = compute_shamir_share(&secret, n_parties, threshold, &mut rng);

        let reconst_secret = reconstruct_secret(shares);

        assert_eq!(secret, reconst_secret);
    }
}

#[test]
fn reconstruction_from_threshold_plus_one_shares() {
    // Any t + 1 of the shares suffice: reconstruct from the first t + 1.
    let mut rng = thread_rng();
    let secret = Mersenne61::from(123456789);
    let (n_parties, threshold) = (7, 3);
    let shares = compute_shamir_share(&secret, n_parties, threshold, &mut rng);
    let subset: Vec<_> = shares.into_iter().take(threshold + 1).collect();
    assert_eq!(reconstruct_secret(subset), secret);
}

#[test]
fn lagrange_basis_exact_for_two_nodes() {
    // Nodes 1 and 2 at x = 0: L_1(0) = (0-2)/(1-2) = 2, L_2(0) = (0-1)/(2-1) = p-1.
    let nodes = vec![Mersenne61::from(1), Mersenne61::from(2)];
    let basis = compute_lagrange_basis(nodes, &Mersenne61::zero());
    assert_eq!(basis.len(), 2);
    assert_eq!(basis[0], Mersenne61::from(2));
    assert_eq!(basis[1], Mersenne61::from(shamir_mpc::math::mersenne61::MODULUS - 1));
}

#[test]
fn interpolation_reproduces_at_nodes() {
    // Interpolating at one of the nodes returns that node's evaluation.
    let mut rng = thread_rng();
    let poly = Polynomial::random(4, &mut rng);
    let nodes: Vec<Mersenne61> = (1..=5).map(Mersenne61::from).collect();
    let evaluations: Vec<Mersenne61> = nodes.iter().map(|x| poly.evaluate(x)).collect();
    for m in 0..nodes.len() {
        let at_node = interpolate_polynomial_at(evaluations.clone(), nodes.clone(), &nodes[m]);
        assert_eq!(at_node, evaluations[m]);
    }
}

#[test]
fn evaluate_matches_horner() {
    // f(x) = 3 + 2x + x^2 at x = 5: 3 + 10 + 25 = 38.
    let poly = Polynomial::new(vec![
        Mersenne61::from(3),
        Mersenne61::from(2),
        Mersenne61::from(1),
    ]);
    assert_eq!(poly.evaluate(&Mersenne61::from(5)), Mersenne61::from(38));
}
