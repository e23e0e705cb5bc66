use polynomial::bn254::{Fq, Fr};
use polynomial::field::FiniteField;
use polynomial::interpolation::lagrange_interpolation;
use polynomial::shamir::ShamirSecretSharing;
use std::collections::HashMap;

#[test]
fn test_shamir_secret_sharing() {
    let sss = ShamirSecretSharing::<Fr>::new(3, 5);
    let secret = Fr::from(123456u64);
    let shares = sss.split_secret(secret);

    let selected_shares: HashMap<usize, Fr> =
        shares.iter().take(3).map(|(&k, &v)| (k, v)).collect();
    let reconstructed_secret = ShamirSecretSharing::reconstruct_secret(&selected_shares);

    assert_eq!(secret, reconstructed_secret);
}

#[test]
fn split_gives_one_share_for_each_number() {
    let sss = ShamirSecretSharing::<Fq>::new(2, 4);
    let shares = sss.split_secret(Fq::from(9));
    assert_eq!(shares.len(), 4);
    let mut keys: Vec<usize> = shares.keys().copied().collect();
    keys.sort();
    assert_eq!(keys, vec![1, 2, 3, 4]);
}

#[test]
fn any_three_shares_recover_the_secret() {
    let sss = ShamirSecretSharing::<Fr>::new(3, 5);
    let secret = Fr::from(424242);
    let shares = sss.split_secret(secret);
    for a in 1..=5usize {
        for b in (a + 1)..=5usize {
            for c in (b + 1)..=5usize {
                let mut chosen: HashMap<usize, Fr> = HashMap::new();
                chosen.insert(a, shares[&a]);
                chosen.insert(b, shares[&b]);
                chosen.insert(c, shares[&c]);
                assert_eq!(ShamirSecretSharing::reconstruct_secret(&chosen), secret);
            }
        }
    }
}

#[test]
fn shares_are_the_values_of_the_polynomial() {
    // 5 + 3x + 2x^2
    let coefficients = vec![Fq::from(5), Fq::from(3), Fq::from(2)];
    let sss = ShamirSecretSharing::<Fq>::new(3, 3);
    let shares = sss.shares_of_polynomial(&coefficients);
    assert_eq!(shares.len(), 3);
    assert_eq!(shares[&1], Fq::from(10));
    assert_eq!(shares[&2], Fq::from(19));
    assert_eq!(shares[&3], Fq::from(32));
    assert_eq!(ShamirSecretSharing::reconstruct_secret(&shares), Fq::from(5));
}

#[test]
fn fewer_shares_than_the_threshold_miss_the_secret() {
    let coefficients = vec![Fq::from(5), Fq::from(3), Fq::from(2)];
    let sss = ShamirSecretSharing::<Fq>::new(3, 3);
    let shares = sss.shares_of_polynomial(&coefficients);
    let mut two: HashMap<usize, Fq> = HashMap::new();
    two.insert(1, shares[&1]);
    two.insert(2, shares[&2]);
    // the line through (1, 10) and (2, 19) is 1 at zero
    assert_eq!(ShamirSecretSharing::reconstruct_secret(&two), Fq::from(1));
    assert_ne!(ShamirSecretSharing::reconstruct_secret(&two), Fq::from(5));
}

#[test]
fn no_shares_and_threshold_zero() {
    let sss = ShamirSecretSharing::<Fq>::new(0, 2);
    let shares = sss.split_secret(Fq::from(77));
    // a threshold of zero leaves the constant polynomial
    assert_eq!(shares[&1], Fq::from(77));
    assert_eq!(shares[&2], Fq::from(77));
    let none = ShamirSecretSharing::<Fq>::new(3, 0).split_secret(Fq::from(1));
    assert!(none.is_empty());
    let empty: HashMap<usize, Fq> = HashMap::new();
    assert_eq!(ShamirSecretSharing::reconstruct_secret(&empty), Fq::zero());
}

#[test]
fn evaluate_polynomial_is_exact() {
    let coefficients = vec![Fq::from(1), Fq::from(0), Fq::from(4)];
    assert_eq!(
        ShamirSecretSharing::evaluate_polynomial(&coefficients, Fq::from(3)),
        Fq::from(37)
    );
    assert_eq!(
        ShamirSecretSharing::evaluate_polynomial(&Vec::<Fq>::new(), Fq::from(3)),
        Fq::zero()
    );
}

#[test]
fn interpolation_passes_through_its_points() {
    let points = vec![
        (Fr::from(0), Fr::from(1)),
        (Fr::from(1), Fr::from(3)),
        (Fr::from(2), Fr::from(2)),
        (Fr::from(3), Fr::from(5)),
    ];
    assert_eq!(lagrange_interpolation(&points, Fr::from(0)), Fr::from(1));
    assert_eq!(lagrange_interpolation(&points, Fr::from(1)), Fr::from(3));
    assert_eq!(lagrange_interpolation(&points, Fr::from(2)), Fr::from(2));
    assert_eq!(lagrange_interpolation(&points, Fr::from(3)), Fr::from(5));
}

#[test]
fn interpolation_outside_its_points() {
    let points = vec![
        (Fq::from(0), Fq::from(1)),
        (Fq::from(1), Fq::from(3)),
        (Fq::from(2), Fq::from(2)),
        (Fq::from(3), Fq::from(5)),
    ];
    assert_eq!(lagrange_interpolation(&points, Fq::from(4)), Fq::from(19));
    assert_eq!(lagrange_interpolation(&points, Fq::from(10)), Fq::from(726));
    let one = vec![(Fq::from(8), Fq::from(6))];
    assert_eq!(lagrange_interpolation(&one, Fq::from(100)), Fq::from(6));
    let none: Vec<(Fq, Fq)> = Vec::new();
    assert_eq!(lagrange_interpolation(&none, Fq::from(100)), Fq::zero());
}
