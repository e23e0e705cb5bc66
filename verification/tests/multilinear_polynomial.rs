use polynomial::bn254::Fq;
use polynomial::multilinear_polynomial::MultilinearPoly;

fn create_multilinear_poly() -> MultilinearPoly<Fq> {
    MultilinearPoly::new(vec![
        Fq::from(0),
        Fq::from(0),
        Fq::from(0),
        Fq::from(3),
        Fq::from(0),
        Fq::from(0),
        Fq::from(2),
        Fq::from(5),
    ])
}

#[test]
fn test_multilinear_polynomial_1() {
    let poly = MultilinearPoly::<Fq> {
        coefficients: vec![Fq::from(0), Fq::from(2), Fq::from(0), Fq::from(5)],
    };

    let partial_evaluated_poly = poly.partial_evaluate((1, Fq::from(5)));
    assert_eq!(
        partial_evaluated_poly.coefficients,
        vec![Fq::from(0), Fq::from(17)]
    );
}

#[test]
fn test_multilinear_polynomial_3() {
    let poly_2 = create_multilinear_poly();
    let result = poly_2.partial_evaluate((2, Fq::from(1)));
    assert_eq!(
        result.coefficients,
        vec![Fq::from(0), Fq::from(0), Fq::from(2), Fq::from(5)]
    );
}

#[test]
fn test_partial_evaluate() {
    let poly = create_multilinear_poly();
    let result = poly.partial_evaluate((1, Fq::from(5)));
    assert_eq!(
        result.coefficients,
        vec![Fq::from(0), Fq::from(0), Fq::from(10), Fq::from(13)]
    );
}
