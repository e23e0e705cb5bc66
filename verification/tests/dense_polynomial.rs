use polynomial::dense_polynomial::{
    add_polynomials, degree, polynomial_mul, scalar_multiplication, sum_arrays,
};

#[test]
fn degree_is_the_largest_exponent() {
    assert_eq!(degree(vec![(3, 2), (2, 1), (5, 0)]), 2);
    assert_eq!(degree(vec![(1, 0), (1, 7), (1, 3)]), 7);
    assert_eq!(degree(vec![(9, 0)]), 0);
    assert_eq!(degree(Vec::new()), 0);
}

#[test]
fn addition_pads_the_shorter_polynomial() {
    assert_eq!(add_polynomials(vec![1, 2, 3], vec![4, 5, 6, 7]), vec![5, 7, 9, 7]);
    assert_eq!(add_polynomials(vec![4, 5, 6, 7], vec![1, 2, 3]), vec![5, 7, 9, 7]);
    assert_eq!(add_polynomials(Vec::new(), vec![1, -2]), vec![1, -2]);
    assert_eq!(add_polynomials(Vec::new(), Vec::new()), Vec::<i32>::new());
    assert_eq!(add_polynomials(vec![i32::MAX], vec![-1]), vec![i32::MAX - 1]);
}

#[test]
fn multiplication_convolves_the_coefficients() {
    assert_eq!(
        polynomial_mul(vec![1, 2, 3], vec![4, 3, 1, 2]),
        vec![4, 11, 19, 13, 7, 6]
    );
    assert_eq!(polynomial_mul(vec![5], vec![-3]), vec![-15]);
    assert_eq!(polynomial_mul(vec![1, 1], vec![1, -1]), vec![1, 0, -1]);
    // a polynomial without coefficients leaves zeros
    assert_eq!(polynomial_mul(Vec::new(), vec![1, 2, 3]), vec![0, 0]);
    assert_eq!(polynomial_mul(vec![1, 2, 3], Vec::new()), vec![0, 0]);
}

#[test]
fn scalar_multiplication_scales_every_coefficient() {
    assert_eq!(scalar_multiplication(vec![1, 2, 3], 0), vec![0, 0, 0]);
    assert_eq!(scalar_multiplication(vec![1, -2, 3], -4), vec![-4, 8, -12]);
    assert_eq!(scalar_multiplication(Vec::new(), 9), Vec::<i32>::new());
}

#[test]
fn arrays_are_added_entry_by_entry() {
    assert_eq!(sum_arrays(&[1, 2, 3], &[4, 5, 6]), vec![5, 7, 9]);
    assert_eq!(sum_arrays(&[], &[]), Vec::<i32>::new());
    assert_eq!(sum_arrays(&[i32::MIN], &[i32::MAX]), vec![-1]);
}
