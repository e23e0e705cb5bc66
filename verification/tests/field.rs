use polynomial::bn254::{Fq, Fr};
use polynomial::field::FiniteField;

const P_MINUS_ONE: [u8; 32] = [
    48, 100, 78, 114, 225, 49, 160, 41, 184, 80, 69, 182, 129, 129, 88, 93, 151, 129, 106, 145,
    104, 113, 202, 141, 60, 32, 140, 22, 216, 124, 253, 70,
];

const R_MINUS_ONE: [u8; 32] = [
    48, 100, 78, 114, 225, 49, 160, 41, 184, 80, 69, 182, 129, 129, 88, 93, 40, 51, 232, 72, 121,
    185, 112, 145, 67, 225, 245, 147, 240, 0, 0, 0,
];

#[test]
fn addition() {
    assert_eq!(Fq::from(2).add(&Fq::from(3)), Fq::from(5));
    assert_eq!(Fr::from(2).add(&Fr::from(3)), Fr::from(5));
    let top = Fq::from_be_bytes_mod_order(&P_MINUS_ONE);
    assert_eq!(top.add(&Fq::one()), Fq::zero());
    assert_eq!(top.add(&Fq::from(5)), Fq::from(4));
    let top = Fr::from_be_bytes_mod_order(&R_MINUS_ONE);
    assert_eq!(top.add(&Fr::one()), Fr::zero());
}

#[test]
fn subtraction() {
    assert_eq!(Fq::from(7).sub(&Fq::from(3)), Fq::from(4));
    assert_eq!(Fq::zero().sub(&Fq::one()).to_bytes_be(), P_MINUS_ONE.to_vec());
    assert_eq!(Fr::zero().sub(&Fr::one()).to_bytes_be(), R_MINUS_ONE.to_vec());
    assert_eq!(Fr::from(7).sub(&Fr::from(3)), Fr::from(4));
}

#[test]
fn multiplication() {
    assert_eq!(Fq::from(6).mul(&Fq::from(7)), Fq::from(42));
    assert_eq!(Fr::from(6).mul(&Fr::from(7)), Fr::from(42));
    let top = Fq::from_be_bytes_mod_order(&P_MINUS_ONE);
    assert_eq!(top.mul(&top), Fq::one());
    let top = Fr::from_be_bytes_mod_order(&R_MINUS_ONE);
    assert_eq!(top.mul(&top), Fr::one());
    assert_eq!(Fq::from(u64::MAX).mul(&Fq::from(u64::MAX)).to_bytes_be(), {
        let mut bytes = vec![0u8; 16];
        bytes.extend_from_slice(&[255, 255, 255, 255, 255, 255, 255, 254, 0, 0, 0, 0, 0, 0, 0, 1]);
        bytes
    });
}

#[test]
fn inversion() {
    assert!(Fq::zero().inverse().is_none());
    assert!(Fr::zero().inverse().is_none());
    let half = Fq::from(2).inverse().unwrap();
    assert_eq!(half.mul(&Fq::from(2)), Fq::one());
    assert_eq!(
        half.to_bytes_be(),
        vec![
            24, 50, 39, 57, 112, 152, 208, 20, 220, 40, 34, 219, 64, 192, 172, 46, 203, 192, 181,
            72, 180, 56, 229, 70, 158, 16, 70, 11, 108, 62, 126, 164
        ]
    );
    let x = Fr::from(123456789);
    assert_eq!(x.inverse().unwrap().mul(&x), Fr::one());
    assert_eq!(Fq::one().inverse().unwrap(), Fq::one());
}

#[test]
fn identities_and_small_numbers() {
    assert_eq!(Fq::zero(), Fq::from(0));
    assert_eq!(Fq::one(), Fq::from(1));
    assert_eq!(Fq::from_u64(17), Fq::from(17));
    assert_eq!(Fr::from_u64(17), Fr::from(17));
    assert!(Fq::from(5).equals(&Fq::from(5)));
    assert!(!Fq::from(5).equals(&Fq::from(6)));
    assert!(Fr::from(5).equals(&Fr::from(5)));
    assert!(!Fr::zero().equals(&Fr::one()));
}

#[test]
fn encoding_is_big_endian_and_32_bytes() {
    let mut expected = vec![0u8; 32];
    expected[30] = 1;
    expected[31] = 2;
    assert_eq!(Fq::from(258).to_bytes_be(), expected);
    assert_eq!(Fr::from(258).to_bytes_be(), expected);
    assert_eq!(Fq::zero().to_bytes_be(), vec![0u8; 32]);
    let mut wide = vec![0u8; 32];
    wide[24..].copy_from_slice(&[1, 2, 3, 4, 5, 6, 7, 8]);
    assert_eq!(Fq::from(0x0102030405060708).to_bytes_be(), wide);
}

#[test]
fn bytes_are_reduced_modulo_the_order() {
    assert_eq!(Fq::from_be_bytes_mod_order(&[1, 0]), Fq::from(256));
    assert_eq!(Fq::from_be_bytes_mod_order(&[]), Fq::zero());
    let mut p = P_MINUS_ONE;
    p[31] += 1;
    assert_eq!(Fq::from_be_bytes_mod_order(&p), Fq::zero());
    p[31] += 1;
    assert_eq!(Fq::from_be_bytes_mod_order(&p), Fq::one());
    let mut r = R_MINUS_ONE;
    r[31] += 1;
    assert_eq!(Fr::from_be_bytes_mod_order(&r), Fr::zero());
    // 2^256
    let mut big = vec![0u8; 33];
    big[0] = 1;
    assert_eq!(
        Fq::from_be_bytes_mod_order(&big).to_bytes_be(),
        vec![
            14, 10, 119, 193, 154, 7, 223, 47, 102, 110, 163, 111, 120, 121, 70, 44, 10, 120, 235,
            40, 245, 199, 11, 61, 211, 93, 67, 141, 197, 143, 13, 157
        ]
    );
    assert_eq!(
        Fr::from_be_bytes_mod_order(&big).to_bytes_be(),
        vec![
            14, 10, 119, 193, 154, 7, 223, 47, 102, 110, 163, 111, 120, 121, 70, 46, 54, 252, 118,
            149, 159, 96, 205, 41, 172, 150, 52, 28, 79, 255, 255, 251
        ]
    );
}

#[test]
fn encoding_round_trip() {
    let x = Fq::from(987654321).mul(&Fq::from(u64::MAX));
    assert_eq!(Fq::from_be_bytes_mod_order(&x.to_bytes_be()), x);
    let y = Fr::from(987654321).mul(&Fr::from(u64::MAX));
    assert_eq!(Fr::from_be_bytes_mod_order(&y.to_bytes_be()), y);
}

#[test]
fn random_elements_are_field_elements() {
    let a = Fq::random();
    let b = Fq::random();
    assert_eq!(a.add(&Fq::zero()), a);
    assert_eq!(a.sub(&a), Fq::zero());
    assert_eq!(a.add(&b).sub(&b), a);
    assert_eq!(Fq::from_be_bytes_mod_order(&a.to_bytes_be()), a);
    let c = Fr::random();
    assert_eq!(c.mul(&Fr::one()), c);
    assert_eq!(Fr::from_be_bytes_mod_order(&c.to_bytes_be()), c);
}
