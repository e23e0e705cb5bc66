use polynomial::bn254::{Fq, Fr};
use polynomial::field::FiniteField;
use polynomial::multilinear_polynomial::MultilinearPoly;

fn table(values: &[u64]) -> MultilinearPoly<Fq> {
    MultilinearPoly::new(values.iter().map(|v| Fq::from(*v)).collect())
}

#[test]
fn folding_halves_the_table_and_keeps_the_operand() {
    let poly = table(&[0, 0, 0, 3, 0, 0, 2, 5]);
    let folded = poly.partial_evaluate((0, Fq::from(3)));
    assert_eq!(folded.coefficients.len(), 4);
    // low[i] + 3 * (high[i] - low[i])
    assert_eq!(folded, table(&[0, 0, 6, 9]));
    assert_eq!(poly, table(&[0, 0, 0, 3, 0, 0, 2, 5]));
    let again = folded.partial_evaluate((0, Fq::from(2)));
    assert_eq!(again, table(&[12, 18]));
    let last = again.partial_evaluate((0, Fq::from(10)));
    assert_eq!(last, table(&[72]));
}

#[test]
fn the_position_plays_no_part() {
    let poly = table(&[0, 0, 0, 3, 0, 0, 2, 5]);
    let value = Fq::from(5);
    let first = poly.partial_evaluate((0, value));
    assert_eq!(poly.partial_evaluate((1, value)), first);
    assert_eq!(poly.partial_evaluate((2, value)), first);
    assert_eq!(poly.partial_evaluate((usize::MAX, value)), first);
}

#[test]
fn folding_at_zero_keeps_the_first_half() {
    let poly = table(&[4, 8, 15, 16, 23, 42, 7, 9]);
    let folded = poly.partial_evaluate((0, Fq::zero()));
    assert_eq!(folded, table(&[4, 8, 15, 16]));
}

#[test]
fn folding_at_one_keeps_the_second_half() {
    let poly = table(&[4, 8, 15, 16, 23, 42, 7, 9]);
    let folded = poly.partial_evaluate((0, Fq::one()));
    assert_eq!(folded, table(&[23, 42, 7, 9]));
}

#[test]
fn folding_below_zero_wraps_around() {
    // 5 + 2 * (1 - 5) = -3
    let poly = table(&[5, 1]);
    let folded = poly.partial_evaluate((0, Fq::from(2)));
    assert_eq!(folded.coefficients, vec![Fq::zero().sub(&Fq::from(3))]);
}

#[test]
fn evaluation_is_the_multilinear_extension() {
    // f(x1, x2) = 2 x1 + 3 x2
    let poly = table(&[0, 3, 2, 5]);
    assert_eq!(poly.evaluate(&vec![Fq::from(4), Fq::from(7)]), Fq::from(29));
    assert_eq!(poly.evaluate(&vec![Fq::from(7), Fq::from(4)]), Fq::from(26));
    // 3 at (0,1,1), 2 at (1,1,0), 5 at (1,1,1): the extension is 3 x2 x3 + 2 x1 x2
    let cube = table(&[0, 0, 0, 3, 0, 0, 2, 5]);
    let x = (6u64, 5u64, 4u64);
    assert_eq!(
        cube.evaluate(&vec![Fq::from(x.0), Fq::from(x.1), Fq::from(x.2)]),
        Fq::from(3 * x.1 * x.2 + 2 * x.0 * x.1)
    );
}

#[test]
fn evaluation_at_the_corners_reads_the_table() {
    let values = [11u64, 22, 33, 44, 55, 66, 77, 88];
    let poly = table(&values);
    for (index, expected) in values.iter().enumerate() {
        let point = vec![
            Fq::from(((index >> 2) & 1) as u64),
            Fq::from(((index >> 1) & 1) as u64),
            Fq::from((index & 1) as u64),
        ];
        assert_eq!(poly.evaluate(&point), Fq::from(*expected));
    }
}

#[test]
fn a_polynomial_without_variables_is_its_one_entry() {
    let poly = table(&[9]);
    assert_eq!(poly.evaluate(&Vec::new()), Fq::from(9));
}

#[test]
fn evaluation_folds_one_variable_after_the_other() {
    let poly = MultilinearPoly::new(vec![
        Fr::from(3),
        Fr::from(1),
        Fr::from(4),
        Fr::from(1),
        Fr::from(5),
        Fr::from(9),
        Fr::from(2),
        Fr::from(6),
    ]);
    let point = vec![Fr::from(10), Fr::from(20), Fr::from(30)];
    let by_hand = poly
        .partial_evaluate((0, point[0]))
        .partial_evaluate((0, point[1]))
        .partial_evaluate((0, point[2]));
    assert_eq!(by_hand.coefficients.len(), 1);
    assert_eq!(poly.evaluate(&point), by_hand.coefficients[0]);
}

#[test]
fn polynomials_are_equal_when_their_tables_are() {
    assert_eq!(table(&[1, 2]), table(&[1, 2]));
    assert_ne!(table(&[1, 2]), table(&[2, 1]));
    assert_ne!(table(&[1, 2]), table(&[1, 2, 0, 0]));
}

#[test]
fn folding_splits_by_the_first_variable() {
    let poly = table(&[0, 2, 0, 5]);
    // halves [0, 2] and [0, 5]: 0 + 3 * (0 - 0) and 2 + 3 * (5 - 2)
    assert_eq!(poly.partial_evaluate((0, Fq::from(3))), table(&[0, 11]));
    let cube = table(&[0, 0, 0, 3, 0, 0, 2, 5]);
    assert_eq!(cube.partial_evaluate((1, Fq::from(5))), table(&[0, 0, 10, 13]));
    assert_eq!(cube.partial_evaluate((0, Fq::from(3))), table(&[0, 0, 6, 9]));
}
