use polynomial::binary::num_of_layer_variables;
use polynomial::bn254::Fq;
use polynomial::circuit::{
    tensor_addition, tensor_multiplication, Circuit, Gate, Layer, Operator,
};
use polynomial::multilinear_polynomial::MultilinearPoly;

#[test]
fn test_circuit_evaluation() {
    let input = vec![Fq::from(2), Fq::from(3), Fq::from(4), Fq::from(5)];

    let gate1 = Gate::new(0, 1, 0, Operator::Mul);
    let gate2 = Gate::new(0, 1, 0, Operator::Add);
    let gate3 = Gate::new(2, 3, 1, Operator::Mul);

    let layer0 = Layer::new(vec![gate1]);
    let layer1 = Layer::new(vec![gate2, gate3]);

    let mut circuit = Circuit::<Fq>::new(vec![layer0, layer1]);

    let result = circuit.evaluate(input);

    let expected_layers_evaluation = vec![
        vec![Fq::from(100)],
        vec![Fq::from(5), Fq::from(20)],
        vec![Fq::from(2), Fq::from(3), Fq::from(4), Fq::from(5)],
    ];

    assert_eq!(result[0], Fq::from(100));
    assert_eq!(circuit.layer_evaluations, expected_layers_evaluation);
}

#[test]
fn test_circuit_evaluation2() {
    let input = vec![Fq::from(1), Fq::from(2), Fq::from(3), Fq::from(4)];

    let gate1 = Gate::new(0, 1, 0, Operator::Add);
    // switched output index
    let gate2 = Gate::new(0, 1, 1, Operator::Add);
    let gate3 = Gate::new(2, 3, 0, Operator::Mul);

    let layer0 = Layer::new(vec![gate1]);
    let layer1 = Layer::new(vec![gate2, gate3]);

    let mut circuit = Circuit::<Fq>::new(vec![layer0, layer1]);
    let result = circuit.evaluate(input);

    let expected_layers_evaluation = vec![
        vec![Fq::from(15)],
        vec![Fq::from(12), Fq::from(3)],
        vec![Fq::from(1), Fq::from(2), Fq::from(3), Fq::from(4)],
    ];

    assert_eq!(result[0], Fq::from(15));
    assert_eq!(circuit.layer_evaluations, expected_layers_evaluation)
}

#[test]
fn test_circuit_evaluation3() {
    let input = vec![
        Fq::from(1),
        Fq::from(2),
        Fq::from(3),
        Fq::from(4),
        Fq::from(5),
        Fq::from(6),
        Fq::from(7),
        Fq::from(8),
    ];

    // layer 0 gates
    let gate1 = Gate::new(0, 1, 0, Operator::Add);

    // layer 1 gates
    let gate2 = Gate::new(0, 1, 0, Operator::Add);
    let gate3 = Gate::new(2, 3, 1, Operator::Mul);

    // layer 2 gates
    let gate4 = Gate::new(0, 1, 0, Operator::Add);
    let gate5 = Gate::new(2, 3, 1, Operator::Mul);
    let gate6 = Gate::new(4, 5, 2, Operator::Mul);
    let gate7 = Gate::new(6, 7, 3, Operator::Mul);

    // Layers
    let layer0 = Layer::new(vec![gate1]);
    let layer1 = Layer::new(vec![gate2, gate3]);
    let layer2 = Layer::new(vec![gate4, gate5, gate6, gate7]);

    let mut circuit = Circuit::<Fq>::new(vec![layer0, layer1, layer2]);
    let result = circuit.evaluate(input);

    assert_eq!(result[0], Fq::from(1695));
}

#[test]
fn test_num_of_layer_variables() {
    // Assert Equal
    assert_eq!(num_of_layer_variables(0), 3);
    assert_eq!(num_of_layer_variables(1), 5);
    assert_eq!(num_of_layer_variables(2), 8);
    assert_eq!(num_of_layer_variables(3), 11);
    assert_eq!(num_of_layer_variables(4), 14);

    // Assert Not Equal
    assert_ne!(num_of_layer_variables(2), 7);
    assert_ne!(num_of_layer_variables(3), 9);
}

#[test]
fn test_add_i_and_mul_i_mle_layer0() {
    let gate1 = Gate::new(0, 1, 0, Operator::Add);
    // switched output index
    let gate2 = Gate::new(0, 1, 1, Operator::Add);
    let gate3 = Gate::new(2, 3, 0, Operator::Mul);

    let layer0 = Layer::new(vec![gate1]);
    let layer1 = Layer::new(vec![gate2, gate3]);

    let mut circuit = Circuit::<Fq>::new(vec![layer0, layer1]);

    let (add_i_poly, mul_i_poly) = circuit.add_i_and_mul_i_mle(0);
    let expected_add_i_poly = MultilinearPoly::new(vec![
        Fq::from(0),
        Fq::from(1),
        Fq::from(0),
        Fq::from(0),
        Fq::from(0),
        Fq::from(0),
        Fq::from(0),
        Fq::from(0),
    ]);

    let expected_mul_i_poly = MultilinearPoly::new(vec![
        Fq::from(0),
        Fq::from(0),
        Fq::from(0),
        Fq::from(0),
        Fq::from(0),
        Fq::from(0),
        Fq::from(0),
        Fq::from(0),
    ]);

    assert_eq!(add_i_poly, expected_add_i_poly);
    assert_eq!(mul_i_poly, expected_mul_i_poly);
}

#[test]
fn test_add_i_and_mul_i_mle_layer1() {
    let gate1 = Gate::new(0, 1, 0, Operator::Add);
    // switched output index
    let gate2 = Gate::new(0, 1, 1, Operator::Add);
    let gate3 = Gate::new(2, 3, 0, Operator::Mul);

    let layer0 = Layer::new(vec![gate1]);
    let layer1 = Layer::new(vec![gate2, gate3]);

    let mut circuit = Circuit::<Fq>::new(vec![layer0, layer1]);

    let (add_i_poly, mul_i_poly) = circuit.add_i_and_mul_i_mle(1);

    // For layer 1: 2^5 = 32 combinations
    let mut expected_add = vec![Fq::from(0); 32];
    expected_add[17] = Fq::from(1); // position from gate2: "10001" = 17
    let expected_add_i_poly = MultilinearPoly::new(expected_add);

    let mut expected_mul = vec![Fq::from(0); 32];
    expected_mul[11] = Fq::from(1); // position from gate3: "01011" = 11
    let expected_mul_i_poly = MultilinearPoly::new(expected_mul);

    assert_eq!(add_i_poly, expected_add_i_poly);
    assert_eq!(mul_i_poly, expected_mul_i_poly);
}

#[test]
fn test_tensor_addition() {
    let w_b = MultilinearPoly::new(vec![Fq::from(2), Fq::from(5), Fq::from(4), Fq::from(7)]);
    let w_c = MultilinearPoly::new(vec![Fq::from(3), Fq::from(3), Fq::from(3), Fq::from(3)]);
    let result = tensor_addition(&w_b, &w_c);
    assert_eq!(
        result.coefficients,
        vec![Fq::from(5), Fq::from(8), Fq::from(7), Fq::from(10)]
    );
}

#[test]
fn test_tensor_multiplication() {
    let w_b = MultilinearPoly::new(vec![Fq::from(3), Fq::from(3), Fq::from(5), Fq::from(5)]);
    let w_c = MultilinearPoly::new(vec![Fq::from(4), Fq::from(7), Fq::from(4), Fq::from(7)]);
    let result = tensor_multiplication(&w_b, &w_c);
    assert_eq!(
        result.coefficients,
        vec![Fq::from(12), Fq::from(21), Fq::from(20), Fq::from(35)]
    );
}
