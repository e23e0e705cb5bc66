use polynomial::bn254::{Fq, Fr};
use polynomial::circuit::{tensor_addition, tensor_multiplication, Circuit, Gate, Layer, Operator};
use polynomial::field::FiniteField;
use polynomial::multilinear_polynomial::MultilinearPoly;
use polynomial::partial_sumcheck::{
    check_rounds, compute_sum, draw_challenges, generate_round_poly, interpolate_round, prover,
    verify,
};
use polynomial::sum_poly::{ProductPoly, SumPoly};
use polynomial::sumcheck_implementation::VerificationError;
use polynomial::transcript::{Keccak256, Sha256};

fn column(values: &[u64]) -> Vec<Fq> {
    values.iter().map(|v| Fq::from(*v)).collect()
}

fn sum_of_products(a: &[u64], b: &[u64], c: &[u64], d: &[u64]) -> SumPoly<Fq> {
    SumPoly::new(vec![
        ProductPoly::new(vec![column(a), column(b)]),
        ProductPoly::new(vec![column(c), column(d)]),
    ])
}

fn sample() -> SumPoly<Fq> {
    sum_of_products(&[0, 3, 2, 5], &[1, 1, 4, 6], &[1, 0, 0, 1], &[2, 2, 2, 2])
}

#[test]
fn the_sum_runs_over_the_products_of_the_entries() {
    // 0*1 + 3*1 + 2*4 + 5*6 + 1*2 + 0 + 0 + 1*2
    assert_eq!(compute_sum(&sample()), Fq::from(45));
}

#[test]
fn a_message_holds_the_values_at_zero_one_and_two() {
    let message = generate_round_poly(&sample());
    // at 0: 0*1 + 3*1 + 1*2 + 0*2, at 1: 2*4 + 5*6 + 0*2 + 1*2
    // at 2: (4)(7) + (7)(11) + (-1)(2) + (2)(2)
    assert_eq!(message, column(&[5, 40, 107]));
}

#[test]
fn interpolation_through_three_values() {
    // x^2 + 1 at 0, 1, 2
    let message = column(&[1, 2, 5]);
    assert_eq!(interpolate_round(&message, Fq::from(0)), Fq::from(1));
    assert_eq!(interpolate_round(&message, Fq::from(1)), Fq::from(2));
    assert_eq!(interpolate_round(&message, Fq::from(2)), Fq::from(5));
    assert_eq!(interpolate_round(&message, Fq::from(3)), Fq::from(10));
    assert_eq!(interpolate_round(&message, Fq::from(10)), Fq::from(101));
    // 3 x^2 - 2 x + 7
    let message = vec![Fr::from(7), Fr::from(8), Fr::from(15)];
    assert_eq!(interpolate_round(&message, Fr::from(11)), Fr::from(348));
}

#[test]
fn honest_proofs_of_products_are_accepted() {
    let poly = sample();
    let (claimed_sum, proof) = prover(sample(), 2, Keccak256::new());
    assert_eq!(claimed_sum, Fq::from(45));
    assert_eq!(proof.len(), 2);
    assert_eq!(proof[0], column(&[5, 40, 107]));
    assert!(verify(claimed_sum, &proof, 2, &poly, Keccak256::new()));
    let (claimed_sum, proof) = prover(sample(), 2, Sha256::new());
    assert!(verify(claimed_sum, &proof, 2, &poly, Sha256::new()));
    assert!(!verify(claimed_sum, &proof, 2, &poly, Keccak256::new()));
}

#[test]
fn honest_proofs_for_three_variables_are_accepted() {
    let build = || {
        sum_of_products(
            &[1, 2, 3, 4, 5, 6, 7, 8],
            &[8, 7, 6, 5, 4, 3, 2, 1],
            &[0, 1, 0, 1, 1, 1, 0, 0],
            &[9, 9, 1, 1, 2, 3, 5, 8],
        )
    };
    let (claimed_sum, proof) = prover(build(), 3, Keccak256::new());
    assert_eq!(proof.len(), 3);
    assert!(verify(claimed_sum, &proof, 3, &build(), Keccak256::new()));
}

#[test]
fn products_without_variables_need_no_message() {
    let build = || sum_of_products(&[3], &[4], &[5], &[6]);
    let (claimed_sum, proof) = prover(build(), 0, Keccak256::new());
    assert_eq!(claimed_sum, Fq::from(42));
    assert!(proof.is_empty());
    assert!(verify(claimed_sum, &proof, 0, &build(), Keccak256::new()));
    assert!(!verify(Fq::from(41), &proof, 0, &build(), Keccak256::new()));
}

#[test]
fn changing_an_entry_of_a_message_is_rejected() {
    let poly = sample();
    let (claimed_sum, proof) = prover(sample(), 2, Keccak256::new());
    for round in 0..proof.len() {
        for entry in 0..3 {
            let mut tampered = proof.clone();
            tampered[round][entry] = tampered[round][entry].add(&Fq::one());
            assert!(!verify(claimed_sum, &tampered, 2, &poly, Keccak256::new()));
        }
    }
}

#[test]
fn product_messages_of_the_wrong_length_are_rejected() {
    let poly = sample();
    let (claimed_sum, proof) = prover(sample(), 2, Keccak256::new());
    let mut short = proof.clone();
    short[0].pop();
    assert!(!verify(claimed_sum, &short, 2, &poly, Keccak256::new()));
    let mut fewer = proof.clone();
    fewer.pop();
    assert!(!verify(claimed_sum, &fewer, 2, &poly, Keccak256::new()));
    assert!(!verify(claimed_sum.add(&Fq::one()), &proof, 2, &poly, Keccak256::new()));
}

#[test]
fn product_rounds_are_checked_against_given_challenges() {
    let poly = sum_of_products(&[1, 2], &[3, 5], &[0, 1], &[4, 4]);
    // at x: (1 + x)(3 + 2x) + 4x = 2x^2 + 9x + 3
    let challenges = column(&[6]);
    let good = vec![column(&[3, 14, 29])];
    assert_eq!(check_rounds(Fq::from(17), &good, &challenges, 1, &poly), Ok(()));
    let drawn = draw_challenges(Fq::from(17), &good, &poly, Keccak256::new());
    assert_eq!(drawn.len(), 1);
    let bent = vec![column(&[3, 14, 30])];
    assert_eq!(
        check_rounds(Fq::from(17), &bent, &challenges, 1, &poly),
        Err(VerificationError::FinalCheckFailed)
    );
    assert_eq!(
        check_rounds(Fq::from(18), &good, &challenges, 1, &poly),
        Err(VerificationError::InvalidRoundMessage)
    );
    let short = vec![column(&[3, 14])];
    assert_eq!(
        check_rounds(Fq::from(17), &short, &challenges, 1, &poly),
        Err(VerificationError::InvalidRoundMessage)
    );
}

#[test]
fn a_layer_of_a_circuit_is_proved_with_its_selectors() {
    let mut circuit = Circuit::<Fq>::new(vec![Layer::new(vec![Gate::new(0, 1, 0, Operator::Mul)])]);
    let output = circuit.evaluate(vec![Fq::from(6), Fq::from(7)]);
    assert_eq!(output[0], Fq::from(42));
    let (add_i, mul_i) = circuit.add_i_and_mul_i_mle(0);
    // the output is at a = 0; what is left of the selectors runs over (b, c)
    let add_bc = add_i.partial_evaluate((0, Fq::zero()));
    let mul_bc = mul_i.partial_evaluate((0, Fq::zero()));
    let w = circuit.w_i_polynomial(1);
    // W(b) and W(c) as tables over (b, c)
    let w_b = MultilinearPoly::new(vec![
        w.coefficients[0],
        w.coefficients[0],
        w.coefficients[1],
        w.coefficients[1],
    ]);
    let w_c = MultilinearPoly::new(vec![
        w.coefficients[0],
        w.coefficients[1],
        w.coefficients[0],
        w.coefficients[1],
    ]);
    let build = || {
        SumPoly::new(vec![
            ProductPoly::new(vec![
                add_bc.coefficients.clone(),
                tensor_addition(&w_b, &w_c).coefficients,
            ]),
            ProductPoly::new(vec![
                mul_bc.coefficients.clone(),
                tensor_multiplication(&w_b, &w_c).coefficients,
            ]),
        ])
    };
    let (claimed_sum, proof) = prover(build(), 2, Keccak256::new());
    assert_eq!(claimed_sum, output[0]);
    assert!(verify(claimed_sum, &proof, 2, &build(), Keccak256::new()));
}
