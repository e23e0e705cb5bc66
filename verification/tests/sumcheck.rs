use polynomial::bn254::Fq;
use polynomial::multilinear_polynomial::MultilinearPoly;
use polynomial::sumcheck_implementation::{prover, verify};
use polynomial::transcript::Keccak256;

// A simple multilinear polynomial: f(x1, x2) = 2x1 + 3x2
fn create_test_polynomial() -> MultilinearPoly<Fq> {
    let coefficients = vec![
        Fq::from(0), // f(0, 0) = 0
        Fq::from(3), // f(0, 1) = 3
        Fq::from(2), // f(1, 0) = 2
        Fq::from(5), // f(1, 1) = 5
    ];
    MultilinearPoly::new(coefficients)
}

#[test]
fn test_sumcheck_protocol() {
    // Create a test polynomial
    let poly = create_test_polynomial();

    // Number of variables in the polynomial
    let num_vars = 2;

    // Initialize the hash function for the transcript
    let hash_function = Keccak256::new();

    // Run the prover
    let (claimed_sum, proof) = prover(poly.clone(), num_vars, hash_function.clone());

    // Verify the proof
    let is_valid = verify(claimed_sum, &proof, num_vars, &poly, hash_function);

    // Check that the proof is valid
    assert!(is_valid, "Sumcheck protocol verification failed");

    // Print the results
    println!("Claimed sum: {:?}", claimed_sum);
    println!("Proof: {:?}", proof);
    println!("Verification result: {}", is_valid);
}

use polynomial::field::FiniteField;
use polynomial::sumcheck_implementation::{
    check_rounds, compute_sum, draw_challenges, generate_round_poly, sum_elements, to_bytes,
    VerificationError,
};
use polynomial::transcript::Sha256;

#[test]
fn the_claimed_sum_is_the_sum_of_the_table() {
    let poly = create_test_polynomial();
    let (claimed_sum, proof) = prover(poly.clone(), 2, Keccak256::new());
    assert_eq!(claimed_sum, Fq::from(10));
    assert_eq!(compute_sum(&poly), Fq::from(10));
    assert_eq!(proof.len(), 2);
    // the first message does not depend on any challenge
    assert_eq!(proof[0], vec![Fq::from(3), Fq::from(7)]);
    assert_eq!(proof[1].len(), 2);
    assert_eq!(sum_elements(&Vec::<Fq>::new()), Fq::zero());
}

#[test]
fn a_round_message_holds_the_sums_of_the_halves() {
    let poly = MultilinearPoly::new(vec![
        Fq::from(1),
        Fq::from(2),
        Fq::from(3),
        Fq::from(4),
        Fq::from(5),
        Fq::from(6),
        Fq::from(7),
        Fq::from(8),
    ]);
    assert_eq!(generate_round_poly(&poly), vec![Fq::from(10), Fq::from(26)]);
}

#[test]
fn elements_are_encoded_one_after_the_other() {
    let bytes = to_bytes(&vec![Fq::from(1), Fq::from(258)]);
    let mut expected = vec![0u8; 64];
    expected[31] = 1;
    expected[62] = 1;
    expected[63] = 2;
    assert_eq!(bytes, expected);
    assert_eq!(to_bytes(&Vec::<Fq>::new()), Vec::<u8>::new());
}

#[test]
fn honest_proofs_are_accepted() {
    let tables: Vec<Vec<u64>> = vec![
        vec![7],
        vec![3, 9],
        vec![0, 3, 2, 5],
        vec![1, 2, 3, 4, 5, 6, 7, 8],
        vec![9, 0, 0, 1, 4, 4, 2, 8, 1, 1, 1, 1, 5, 0, 3, 7],
    ];
    for (num_vars, table) in tables.iter().enumerate() {
        let poly = MultilinearPoly::new(table.iter().map(|v| Fq::from(*v)).collect());
        let (claimed_sum, proof) = prover(poly.clone(), num_vars, Keccak256::new());
        assert_eq!(proof.len(), num_vars);
        assert!(verify(claimed_sum, &proof, num_vars, &poly, Keccak256::new()));
        let (claimed_sum, proof) = prover(poly.clone(), num_vars, Sha256::new());
        assert!(verify(claimed_sum, &proof, num_vars, &poly, Sha256::new()));
    }
}

#[test]
fn a_proof_is_bound_to_its_hash_function() {
    let poly = create_test_polynomial();
    let (claimed_sum, proof) = prover(poly.clone(), 2, Keccak256::new());
    assert!(!verify(claimed_sum, &proof, 2, &poly, Sha256::new()));
}

#[test]
fn changing_any_entry_of_any_message_is_rejected() {
    let poly = MultilinearPoly::new(
        [1u64, 2, 3, 4, 5, 6, 7, 8].iter().map(|v| Fq::from(*v)).collect(),
    );
    let (claimed_sum, proof) = prover(poly.clone(), 3, Keccak256::new());
    assert!(verify(claimed_sum, &proof, 3, &poly, Keccak256::new()));
    for round in 0..proof.len() {
        for entry in 0..2 {
            let mut tampered = proof.clone();
            tampered[round][entry] = tampered[round][entry].add(&Fq::one());
            assert!(!verify(claimed_sum, &tampered, 3, &poly, Keccak256::new()));
        }
    }
}

#[test]
fn a_wrong_sum_is_rejected() {
    let poly = create_test_polynomial();
    let (claimed_sum, proof) = prover(poly.clone(), 2, Keccak256::new());
    let wrong = claimed_sum.add(&Fq::one());
    assert!(!verify(wrong, &proof, 2, &poly, Keccak256::new()));
}

#[test]
fn a_proof_for_another_polynomial_is_rejected() {
    let poly = create_test_polynomial();
    let (claimed_sum, proof) = prover(poly.clone(), 2, Keccak256::new());
    // same sum, other table
    let other = MultilinearPoly::new(vec![Fq::from(3), Fq::from(0), Fq::from(2), Fq::from(5)]);
    assert!(!verify(claimed_sum, &proof, 2, &other, Keccak256::new()));
}

#[test]
fn messages_of_the_wrong_length_are_rejected() {
    let poly = create_test_polynomial();
    let (claimed_sum, proof) = prover(poly.clone(), 2, Keccak256::new());
    let mut long = proof.clone();
    long[1].push(Fq::zero());
    assert!(!verify(claimed_sum, &long, 2, &poly, Keccak256::new()));
    let mut short = proof.clone();
    short[0].pop();
    assert!(!verify(claimed_sum, &short, 2, &poly, Keccak256::new()));
    let mut fewer = proof.clone();
    fewer.pop();
    assert!(!verify(claimed_sum, &fewer, 2, &poly, Keccak256::new()));
    let mut more = proof.clone();
    more.push(vec![Fq::zero(), Fq::zero()]);
    assert!(!verify(claimed_sum, &more, 2, &poly, Keccak256::new()));
}

#[test]
fn the_verifier_draws_the_challenges_of_the_prover() {
    let poly = create_test_polynomial();
    let (claimed_sum, proof) = prover(poly.clone(), 2, Keccak256::new());
    let challenges = draw_challenges(claimed_sum, &proof, &poly, Keccak256::new());
    assert_eq!(challenges.len(), 2);
    // the second message is the first one's table fixed at the first challenge
    let folded = poly.partial_evaluate((0, challenges[0]));
    assert_eq!(proof[1], folded.coefficients);
    assert_eq!(check_rounds(claimed_sum, &proof, &challenges, 2, &poly), Ok(()));
}

#[test]
fn rounds_are_checked_against_given_challenges() {
    let poly = MultilinearPoly::new(vec![Fq::from(1), Fq::from(2)]);
    let challenges = vec![Fq::from(5)];
    // 1 + 5 * (2 - 1) = 6 is the value of the polynomial at 5
    let good = vec![vec![Fq::from(1), Fq::from(2)]];
    assert_eq!(check_rounds(Fq::from(3), &good, &challenges, 1, &poly), Ok(()));
    // the entries add up to the claim, but the line through them is another one
    let swapped = vec![vec![Fq::from(2), Fq::from(1)]];
    assert_eq!(
        check_rounds(Fq::from(3), &swapped, &challenges, 1, &poly),
        Err(VerificationError::FinalCheckFailed)
    );
    // the entries do not add up to the claim
    assert_eq!(
        check_rounds(Fq::from(4), &good, &challenges, 1, &poly),
        Err(VerificationError::InvalidRoundMessage)
    );
    // a message of three entries
    let long = vec![vec![Fq::from(1), Fq::from(2), Fq::from(0)]];
    assert_eq!(
        check_rounds(Fq::from(3), &long, &challenges, 1, &poly),
        Err(VerificationError::InvalidRoundMessage)
    );
    // no message at all for a polynomial with one variable
    assert_eq!(
        check_rounds(Fq::from(3), &Vec::new(), &Vec::new(), 1, &poly),
        Err(VerificationError::InvalidRoundMessage)
    );
}

#[test]
fn a_polynomial_without_variables_needs_no_message() {
    let poly = MultilinearPoly::new(vec![Fq::from(7)]);
    let (claimed_sum, proof) = prover(poly.clone(), 0, Sha256::new());
    assert_eq!(claimed_sum, Fq::from(7));
    assert!(proof.is_empty());
    assert!(verify(claimed_sum, &proof, 0, &poly, Sha256::new()));
    assert!(!verify(Fq::from(8), &proof, 0, &poly, Sha256::new()));
    assert_eq!(
        check_rounds(Fq::from(8), &proof, &Vec::new(), 0, &poly),
        Err(VerificationError::FinalCheckFailed)
    );
}
