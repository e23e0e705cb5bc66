use polynomial::bn254::Fq;
use polynomial::field::FiniteField;
use polynomial::multilinear_polynomial::MultilinearPoly;
use polynomial::sum_poly::{ProductPoly, SumPoly};

fn column(values: &[u64]) -> Vec<Fq> {
    values.iter().map(|v| Fq::from(*v)).collect()
}

fn product(first: &[u64], second: &[u64]) -> ProductPoly<Fq> {
    ProductPoly::new(vec![column(first), column(second)])
}

#[test]
fn a_product_keeps_its_factors_in_order() {
    let poly = product(&[1, 2], &[3, 4]);
    assert_eq!(poly.evaluation.len(), 2);
    assert_eq!(poly.evaluation[0], MultilinearPoly::new(column(&[1, 2])));
    assert_eq!(poly.evaluation[1], MultilinearPoly::new(column(&[3, 4])));
    assert_eq!(poly.get_degree(), 2);
}

#[test]
fn a_product_folds_every_factor() {
    let poly = product(&[0, 3, 2, 5], &[1, 1, 4, 6]);
    let folded = poly.partial_evaluate(Fq::from(2));
    assert_eq!(folded.evaluation[0].coefficients, column(&[4, 7]));
    assert_eq!(folded.evaluation[1].coefficients, column(&[7, 11]));
}

#[test]
fn a_product_evaluates_to_the_product_of_its_factors() {
    let poly = product(&[0, 3, 2, 5], &[1, 1, 4, 6]);
    // first: 2 x1 + 3 x2, second: 1 + 3 x1 + 2 x1 x2
    let point = vec![Fq::from(4), Fq::from(7)];
    assert_eq!(poly.evaluate(point), Fq::from(29 * (1 + 12 + 56)));
    let nothing = ProductPoly::<Fq>::new(Vec::new());
    assert_eq!(nothing.evaluate(Vec::new()), Fq::one());
    assert_eq!(nothing.get_degree(), 0);
}

#[test]
fn a_product_reduces_to_the_products_of_its_entries() {
    let poly = product(&[0, 3, 2, 5], &[1, 1, 4, 6]);
    assert_eq!(poly.reduce(), column(&[0, 3, 8, 30]));
}

#[test]
fn a_sum_folds_every_term() {
    let sum = SumPoly::new(vec![product(&[0, 3, 2, 5], &[1, 1, 4, 6]), product(&[1, 0, 0, 1], &[2, 2, 2, 2])]);
    let folded = sum.partial_evaluate(Fq::from(2));
    assert_eq!(folded.polys.len(), 2);
    assert_eq!(folded.polys[0].evaluation[0].coefficients, column(&[4, 7]));
    assert_eq!(folded.polys[0].evaluation[1].coefficients, column(&[7, 11]));
    assert_eq!(
        folded.polys[1].evaluation[0].coefficients,
        vec![Fq::zero().sub(&Fq::one()), Fq::from(2)]
    );
    assert_eq!(folded.polys[1].evaluation[1].coefficients, column(&[2, 2]));
}

#[test]
fn a_sum_evaluates_to_the_sum_of_its_terms() {
    let sum = SumPoly::new(vec![product(&[0, 3, 2, 5], &[1, 1, 4, 6]), product(&[1, 0, 0, 1], &[2, 2, 2, 2])]);
    // third factor: 1 - x1 - x2 + 2 x1 x2
    let point = vec![Fq::from(4), Fq::from(7)];
    let first = 29 * (1 + 12 + 56);
    let second = (1 + 56 - 4 - 7) * 2;
    assert_eq!(sum.evaluate(point), Fq::from(first + second));
    assert_eq!(sum.get_degree(), 2);
    let nothing = SumPoly::<Fq>::new(Vec::new());
    assert_eq!(nothing.evaluate(Vec::new()), Fq::zero());
}

#[test]
fn a_sum_reduces_to_the_sums_of_its_terms() {
    let sum = SumPoly::new(vec![product(&[0, 3, 2, 5], &[1, 1, 4, 6]), product(&[1, 0, 0, 1], &[2, 2, 2, 2])]);
    assert_eq!(sum.reduce(), column(&[2, 3, 8, 32]));
}

#[test]
fn reducing_stops_at_the_shorter_table() {
    let poly = product(&[1, 2, 3, 4], &[5, 6]);
    assert_eq!(poly.reduce(), column(&[5, 12]));
}
