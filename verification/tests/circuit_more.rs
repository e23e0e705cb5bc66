use polynomial::binary::{
    convert_decimal_to_padded_binary, convert_to_binary_and_to_decimal, num_of_layer_variables,
};
use polynomial::bn254::Fq;
use polynomial::circuit::{Circuit, Gate, Layer, Operator};
use polynomial::field::FiniteField;
use polynomial::multilinear_polynomial::MultilinearPoly;

fn two_layer_circuit() -> Circuit<Fq> {
    let gate1 = Gate::new(0, 1, 0, Operator::Add);
    let gate2 = Gate::new(0, 1, 1, Operator::Add);
    let gate3 = Gate::new(2, 3, 0, Operator::Mul);
    Circuit::new(vec![Layer::new(vec![gate1]), Layer::new(vec![gate2, gate3])])
}

fn ones(poly: &MultilinearPoly<Fq>) -> usize {
    poly.coefficients.iter().filter(|v| **v == Fq::one()).count()
}

#[test]
fn the_cache_is_empty_before_the_first_evaluation() {
    let circuit = two_layer_circuit();
    assert!(circuit.layer_evaluations.is_empty());
    assert_eq!(circuit.layers.len(), 2);
}

#[test]
fn evaluating_twice_gives_the_same_tables() {
    let mut circuit = two_layer_circuit();
    let input = vec![Fq::from(1), Fq::from(2), Fq::from(3), Fq::from(4)];
    let first = circuit.evaluate(input.clone());
    let first_tables = circuit.layer_evaluations.clone();
    let second = circuit.evaluate(input);
    assert_eq!(first, second);
    assert_eq!(circuit.layer_evaluations, first_tables);
    assert_eq!(circuit.layer_evaluations.len(), 3);
}

#[test]
fn the_cache_is_rebuilt_on_every_evaluation() {
    let mut circuit = two_layer_circuit();
    circuit.evaluate(vec![Fq::from(1), Fq::from(2), Fq::from(3), Fq::from(4)]);
    let result = circuit.evaluate(vec![Fq::from(5), Fq::from(6), Fq::from(7), Fq::from(8)]);
    assert_eq!(result, vec![Fq::from(67)]);
    assert_eq!(
        circuit.layer_evaluations,
        vec![
            vec![Fq::from(67)],
            vec![Fq::from(56), Fq::from(11)],
            vec![Fq::from(5), Fq::from(6), Fq::from(7), Fq::from(8)],
        ]
    );
}

#[test]
fn a_slot_that_no_gate_writes_is_zero() {
    let gate = Gate::new(0, 1, 2, Operator::Mul);
    let mut circuit = Circuit::<Fq>::new(vec![Layer::new(vec![gate])]);
    let result = circuit.evaluate(vec![Fq::from(3), Fq::from(5)]);
    assert_eq!(result, vec![Fq::zero(), Fq::zero(), Fq::from(15)]);
}

#[test]
fn the_last_gate_of_a_slot_wins() {
    let first = Gate::new(0, 1, 0, Operator::Add);
    let second = Gate::new(0, 1, 0, Operator::Mul);
    let mut circuit = Circuit::<Fq>::new(vec![Layer::new(vec![first, second])]);
    assert_eq!(circuit.evaluate(vec![Fq::from(3), Fq::from(5)]), vec![Fq::from(15)]);
}

#[test]
fn a_layer_without_gates_gives_one_zero() {
    let mut circuit = Circuit::<Fq>::new(vec![Layer::new(Vec::new())]);
    assert_eq!(circuit.evaluate(vec![Fq::from(3)]), vec![Fq::zero()]);
}

#[test]
fn a_circuit_without_layers_returns_its_input() {
    let mut circuit = Circuit::<Fq>::new(Vec::new());
    let input = vec![Fq::from(3), Fq::from(4)];
    assert_eq!(circuit.evaluate(input.clone()), input);
    assert_eq!(circuit.layer_evaluations, vec![input]);
}

#[test]
fn the_layer_polynomial_wraps_the_cached_table() {
    let mut circuit = two_layer_circuit();
    circuit.evaluate(vec![Fq::from(1), Fq::from(2), Fq::from(3), Fq::from(4)]);
    assert_eq!(circuit.w_i_polynomial(0).coefficients, vec![Fq::from(15)]);
    assert_eq!(
        circuit.w_i_polynomial(1).coefficients,
        vec![Fq::from(12), Fq::from(3)]
    );
    assert_eq!(
        circuit.w_i_polynomial(2).coefficients,
        vec![Fq::from(1), Fq::from(2), Fq::from(3), Fq::from(4)]
    );
}

#[test]
fn padded_binary_numerals() {
    assert_eq!(convert_decimal_to_padded_binary(5, 8), "00000101");
    assert_eq!(convert_decimal_to_padded_binary(5, 3), "101");
    assert_eq!(convert_decimal_to_padded_binary(5, 2), "101");
    assert_eq!(convert_decimal_to_padded_binary(0, 0), "0");
    assert_eq!(convert_decimal_to_padded_binary(0, 1), "0");
    assert_eq!(convert_decimal_to_padded_binary(0, 4), "0000");
    assert_eq!(convert_decimal_to_padded_binary(1, 0), "1");
    assert_eq!(
        convert_decimal_to_padded_binary(usize::MAX, 0),
        "1".repeat(usize::BITS as usize)
    );
}

#[test]
fn wiring_numbers() {
    // "0" "0" "1"
    assert_eq!(convert_to_binary_and_to_decimal(0, 0, 0, 1), 1);
    // "1" "1" "1"
    assert_eq!(convert_to_binary_and_to_decimal(0, 1, 1, 1), 7);
    // "1" "00" "01"
    assert_eq!(convert_to_binary_and_to_decimal(1, 1, 0, 1), 17);
    // "0" "10" "11"
    assert_eq!(convert_to_binary_and_to_decimal(1, 0, 2, 3), 11);
    // "11" "101" "010"
    assert_eq!(convert_to_binary_and_to_decimal(2, 3, 5, 2), 0b11_101_010);
    // an index that does not fit its digits makes the numeral longer
    // "1" "100" "01"
    assert_eq!(convert_to_binary_and_to_decimal(1, 1, 4, 1), 0b1_100_01);
}

#[test]
fn a_wiring_number_that_does_not_fit_is_zero() {
    // 40 digits, then 41, then 41: the leading one stands for 2^82
    assert_eq!(convert_to_binary_and_to_decimal(40, 1, 0, 0), 0);
    // leading zeros do not count
    assert_eq!(convert_to_binary_and_to_decimal(40, 0, 0, 9), 9);
}

#[test]
fn layer_variables() {
    assert_eq!(num_of_layer_variables(0), 3);
    assert_eq!(num_of_layer_variables(1), 5);
    assert_eq!(num_of_layer_variables(5), 17);
}

#[test]
fn selectors_hold_one_entry_for_each_gate() {
    let gate1 = Gate::new(0, 1, 0, Operator::Add);
    let gate2 = Gate::new(0, 1, 0, Operator::Add);
    let gate3 = Gate::new(2, 3, 1, Operator::Mul);
    let gate4 = Gate::new(0, 1, 0, Operator::Add);
    let gate5 = Gate::new(2, 3, 1, Operator::Mul);
    let gate6 = Gate::new(4, 5, 2, Operator::Mul);
    let gate7 = Gate::new(6, 7, 3, Operator::Mul);
    let mut circuit = Circuit::<Fq>::new(vec![
        Layer::new(vec![gate1]),
        Layer::new(vec![gate2, gate3]),
        Layer::new(vec![gate4, gate5, gate6, gate7]),
    ]);
    for (layer, gates) in [(0usize, 1usize), (1, 2), (2, 4)] {
        let (add, mul) = circuit.add_i_and_mul_i_mle(layer);
        assert_eq!(add.coefficients.len(), 1 << num_of_layer_variables(layer));
        assert_eq!(mul.coefficients.len(), 1 << num_of_layer_variables(layer));
        assert_eq!(ones(&add) + ones(&mul), gates);
        for (a, m) in add.coefficients.iter().zip(mul.coefficients.iter()) {
            assert!(*a == Fq::zero() || *a == Fq::one());
            assert!(*m == Fq::zero() || *m == Fq::one());
            assert!(!(*a == Fq::one() && *m == Fq::one()));
        }
    }
    let (add, mul) = circuit.add_i_and_mul_i_mle(2);
    // gate4: "00" "000" "001", gate7: "11" "110" "111"
    assert_eq!(add.coefficients[0b00_000_001], Fq::one());
    assert_eq!(mul.coefficients[0b01_010_011], Fq::one());
    assert_eq!(mul.coefficients[0b10_100_101], Fq::one());
    assert_eq!(mul.coefficients[0b11_110_111], Fq::one());
}

#[test]
fn selectors_of_a_layer_without_gates_are_zero() {
    let mut circuit = Circuit::<Fq>::new(vec![Layer::new(Vec::new())]);
    let (add, mul) = circuit.add_i_and_mul_i_mle(0);
    assert_eq!(add.coefficients, vec![Fq::zero(); 8]);
    assert_eq!(mul.coefficients, vec![Fq::zero(); 8]);
}

#[test]
fn gates_with_one_wiring_share_their_entry() {
    let mut circuit = Circuit::<Fq>::new(vec![Layer::new(vec![
        Gate::new(0, 1, 0, Operator::Add),
        Gate::new(0, 1, 0, Operator::Add),
        Gate::new(0, 1, 0, Operator::Mul),
    ])]);
    let (add, mul) = circuit.add_i_and_mul_i_mle(0);
    assert_eq!(ones(&add), 1);
    assert_eq!(ones(&mul), 1);
    assert_eq!(add.coefficients[1], Fq::one());
    assert_eq!(mul.coefficients[1], Fq::one());
}

#[test]
fn a_circuit_is_wired_for_inputs_that_its_gates_can_read() {
    let circuit = two_layer_circuit();
    assert!(circuit.is_wired(4));
    assert!(circuit.is_wired(9));
    assert!(!circuit.is_wired(3));
    assert!(!circuit.is_wired(0));
    // the top gate reads slot 1, and the lower layer fills slot 0 only
    let narrow = Circuit::<Fq>::new(vec![
        Layer::new(vec![Gate::new(0, 1, 0, Operator::Add)]),
        Layer::new(vec![Gate::new(0, 1, 0, Operator::Add)]),
    ]);
    assert!(!narrow.is_wired(2));
    let none = Circuit::<Fq>::new(Vec::new());
    assert!(none.is_wired(0));
    let overflowing = Circuit::<Fq>::new(vec![Layer::new(vec![Gate::new(
        0,
        0,
        usize::MAX,
        Operator::Add,
    )])]);
    assert!(!overflowing.is_wired(1));
}

#[test]
fn selectors_fit_when_every_wiring_lies_in_the_tables() {
    let circuit = two_layer_circuit();
    assert!(circuit.selectors_fit(0));
    assert!(circuit.selectors_fit(1));
    assert!(!circuit.selectors_fit(2));
    // "0" "0" "1000" is 8, one past the table of layer 0
    let wide = Circuit::<Fq>::new(vec![Layer::new(vec![Gate::new(0, 8, 0, Operator::Add)])]);
    assert!(!wide.selectors_fit(0));
    // "0" "0" "10" is 2: a longer numeral that still lands in the table
    let odd = Circuit::<Fq>::new(vec![Layer::new(vec![Gate::new(0, 2, 0, Operator::Add)])]);
    assert!(odd.selectors_fit(0));
    let tall = Circuit::<Fq>::new(vec![Layer::new(vec![Gate::new(0, 1, 2, Operator::Add)])]);
    assert!(!tall.selectors_fit(0));
    let fitting = Circuit::<Fq>::new(vec![Layer::new(vec![Gate::new(1, 1, 1, Operator::Mul)])]);
    assert!(fitting.selectors_fit(0));
}
