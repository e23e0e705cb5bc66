//! The two prime fields of the BN254 curve: its base field `Fq` and its scalar
//! field `Fr`.
//!
//! An element is kept as the four 64-bit limbs of its canonical residue, least
//! significant limb first. Addition, subtraction, multiplication, inversion,
//! reduction of byte strings and sampling are done by `ark_ff` on `ark_bn254::Fq`
//! and `ark_bn254::Fr`; the functions that call it state what they rely on and are
//! not proved.
use crate::field::{be_bytes, be_value, FiniteField};
use crate::modular::{add_mod, mul_mod, sub_mod};
use vstd::prelude::*;
use vstd::std_specs::convert::{FromSpec, FromSpecImpl};

verus! {

/// The weight of a limb relative to the one before it: 2^64.
pub open spec fn limb_base() -> nat {
    0x1_0000_0000_0000_0000nat
}

/// The number that four limbs spell, least significant limb first.
pub open spec fn limbs_value(l: [u64; 4]) -> nat {
    (l[0] as nat) + limb_base() * ((l[1] as nat) + limb_base() * ((l[2] as nat) + limb_base() * (
    l[3] as nat)))
}

/// A number has one way to be written as `high * 2^64 + low` with `low` below
/// `2^64`.
proof fn lemma_limb_split(low1: int, high1: int, low2: int, high2: int)
    requires
        0 <= low1 < limb_base(),
        0 <= low2 < limb_base(),
        low1 + limb_base() * high1 == low2 + limb_base() * high2,
    ensures
        low1 == low2,
        high1 == high2,
{
}

/// Limbs that spell the same number are the same limbs.
pub proof fn lemma_limbs_injective(a: [u64; 4], b: [u64; 4])
    requires
        limbs_value(a) == limbs_value(b),
    ensures
        a[0] == b[0],
        a[1] == b[1],
        a[2] == b[2],
        a[3] == b[3],
{
    let base = limb_base() as int;
    let a2 = a[2] as int + base * (a[3] as int);
    let b2 = b[2] as int + base * (b[3] as int);
    let a1 = a[1] as int + base * a2;
    let b1 = b[1] as int + base * b2;
    lemma_limb_split(a[0] as int, a1, b[0] as int, b1);
    lemma_limb_split(a[1] as int, a2, b[1] as int, b2);
    lemma_limb_split(a[2] as int, a[3] as int, b[2] as int, b[3] as int);
}

/// The order of the base field of BN254.
pub open spec fn fq_modulus() -> nat {
    21888242871839275222246405745257275088696311157297823662689037894645226208583nat
}

/// An element of the base field of BN254.
#[derive(Clone, Copy, Debug, PartialEq, Eq)]
pub struct Fq {
    limbs: [u64; 4],
}

impl Fq {
    /// The limbs spell a residue below the modulus.
    #[verifier::type_invariant]
    spec fn canonical(self) -> bool {
        limbs_value(self.limbs) < fq_modulus()
    }
}

/// `ark_bn254::Fq` addition (`+`). The limbs of each argument are turned into an
/// `ark_bn254::Fq` with `Fp::new` and the result back with `into_bigint`, which
/// hands out the residue in `0..p`. Assumed: the result is the sum modulo `p`.
#[verifier::external_body]
fn fq_add(a: &Fq, b: &Fq) -> (r: Fq)
    ensures
        r.value() == add_mod(a.value(), b.value(), fq_modulus() as int),
{
    let x = ark_bn254::Fq::new(ark_ff::BigInt::new(a.limbs));
    let y = ark_bn254::Fq::new(ark_ff::BigInt::new(b.limbs));
    Fq { limbs: ark_ff::PrimeField::into_bigint(x + y).0 }
}

/// `ark_bn254::Fq` subtraction (`-`), with the conversions of [`fq_add`]. Assumed:
/// the result is the difference modulo `p`.
#[verifier::external_body]
fn fq_sub(a: &Fq, b: &Fq) -> (r: Fq)
    ensures
        r.value() == sub_mod(a.value(), b.value(), fq_modulus() as int),
{
    let x = ark_bn254::Fq::new(ark_ff::BigInt::new(a.limbs));
    let y = ark_bn254::Fq::new(ark_ff::BigInt::new(b.limbs));
    Fq { limbs: ark_ff::PrimeField::into_bigint(x - y).0 }
}

/// `ark_bn254::Fq` multiplication (`*`), with the conversions of [`fq_add`].
/// Assumed: the result is the product modulo `p`.
#[verifier::external_body]
fn fq_mul(a: &Fq, b: &Fq) -> (r: Fq)
    ensures
        r.value() == mul_mod(a.value(), b.value(), fq_modulus() as int),
{
    let x = ark_bn254::Fq::new(ark_ff::BigInt::new(a.limbs));
    let y = ark_bn254::Fq::new(ark_ff::BigInt::new(b.limbs));
    Fq { limbs: ark_ff::PrimeField::into_bigint(x * y).0 }
}

/// `ark_ff::Field::inverse` on `ark_bn254::Fq`. Assumed: there is no inverse
/// exactly for zero, and otherwise the product of the argument and the result is
/// one.
#[verifier::external_body]
fn fq_inverse(a: &Fq) -> (r: Option<Fq>)
    ensures
        r is None <==> a.value() == 0,
        r matches Some(inv) ==> mul_mod(a.value(), inv.value(), fq_modulus() as int) == 1,
{
    let x = ark_bn254::Fq::new(ark_ff::BigInt::new(a.limbs));
    match ark_ff::Field::inverse(&x) {
        Some(inv) => Some(Fq { limbs: ark_ff::PrimeField::into_bigint(inv).0 }),
        None => None,
    }
}

/// `ark_ff::PrimeField::from_be_bytes_mod_order` on `ark_bn254::Fq`. Assumed: the
/// result is the big-endian number that the bytes spell, reduced modulo `p`,
/// whatever the length of the input.
#[verifier::external_body]
fn fq_from_be_bytes_mod_order(bytes: &[u8]) -> (r: Fq)
    ensures
        r.value() == (be_value(bytes@) as int) % (fq_modulus() as int),
{
    let x = <ark_bn254::Fq as ark_ff::PrimeField>::from_be_bytes_mod_order(bytes);
    Fq { limbs: ark_ff::PrimeField::into_bigint(x).0 }
}

/// `ark_std::UniformRand::rand` on `ark_bn254::Fq` with the generator of
/// `rand::thread_rng`. Nothing is assumed of the outcome but that it is an element
/// of the field.
#[verifier::external_body]
fn fq_random() -> (r: Fq) {
    let x: ark_bn254::Fq = ark_std::UniformRand::rand(&mut rand::thread_rng());
    Fq { limbs: ark_ff::PrimeField::into_bigint(x).0 }
}

/// `ark_ff::BigInteger::to_bytes_be` on a four-limb `ark_ff::BigInt`. Assumed: the
/// result holds the 32 bytes of the number that the limbs spell, most significant
/// byte first.
#[verifier::external_body]
fn limbs_to_bytes_be(limbs: &[u64; 4]) -> (r: Vec<u8>)
    ensures
        r@ == be_bytes(limbs_value(*limbs), 32),
{
    ark_ff::BigInteger::to_bytes_be(&ark_ff::BigInt::new(*limbs))
}

impl FiniteField for Fq {
    open spec fn modulus() -> int {
        fq_modulus() as int
    }

    open spec fn encoded_len() -> nat {
        32
    }

    closed spec fn value(&self) -> int {
        (limbs_value(self.limbs) % fq_modulus()) as int
    }

    proof fn lemma_modulus() {
    }

    proof fn lemma_value_bound(x: Self) {
    }

    fn zero() -> (r: Self) {
        Fq { limbs: [0, 0, 0, 0] }
    }

    fn one() -> (r: Self) {
        Fq { limbs: [1, 0, 0, 0] }
    }

    fn from_u64(n: u64) -> (r: Self) {
        Fq { limbs: [n, 0, 0, 0] }
    }

    fn add(&self, rhs: &Self) -> (r: Self) {
        fq_add(self, rhs)
    }

    fn sub(&self, rhs: &Self) -> (r: Self) {
        fq_sub(self, rhs)
    }

    fn mul(&self, rhs: &Self) -> (r: Self) {
        fq_mul(self, rhs)
    }

    fn equals(&self, rhs: &Self) -> (r: bool) {
        proof {
            use_type_invariant(self);
            use_type_invariant(rhs);
            if self.value() == rhs.value() {
                lemma_limbs_injective(self.limbs, rhs.limbs);
            }
        }
        self.limbs[0] == rhs.limbs[0] && self.limbs[1] == rhs.limbs[1] && self.limbs[2]
            == rhs.limbs[2] && self.limbs[3] == rhs.limbs[3]
    }

    fn inverse(&self) -> (r: Option<Self>) {
        fq_inverse(self)
    }

    fn to_bytes_be(&self) -> (r: Vec<u8>) {
        proof {
            use_type_invariant(self);
        }
        limbs_to_bytes_be(&self.limbs)
    }

    fn from_be_bytes_mod_order(bytes: &[u8]) -> (r: Self) {
        fq_from_be_bytes_mod_order(bytes)
    }

    fn random() -> Self {
        fq_random()
    }
}

impl From<u64> for Fq {
    fn from(n: u64) -> (r: Self) {
        Fq { limbs: [n, 0, 0, 0] }
    }
}

impl FromSpecImpl<u64> for Fq {
    open spec fn obeys_from_spec() -> bool {
        true
    }

    closed spec fn from_spec(n: u64) -> Self {
        Fq { limbs: [n, 0, 0, 0] }
    }
}

/// The element made from a machine integer is the one that stands for it.
pub proof fn lemma_fq_from_u64(n: u64)
    ensures
        <Fq as FromSpec<u64>>::from_spec(n).value() == n as int,
{
}

/// The order of the scalar field of BN254.
pub open spec fn fr_modulus() -> nat {
    21888242871839275222246405745257275088548364400416034343698204186575808495617nat
}

/// An element of the scalar field of BN254: the field of the exponents of the curve.
#[derive(Clone, Copy, Debug, PartialEq, Eq)]
pub struct Fr {
    limbs: [u64; 4],
}

impl Fr {
    /// The limbs spell a residue below the modulus.
    #[verifier::type_invariant]
    spec fn canonical(self) -> bool {
        limbs_value(self.limbs) < fr_modulus()
    }
}

/// `ark_bn254::Fr` addition (`+`). The limbs of each argument are turned into an
/// `ark_bn254::Fr` with `Fp::new` and the result back with `into_bigint`, which
/// hands out the residue in `0..r`. Assumed: the result is the sum modulo `r`.
#[verifier::external_body]
fn fr_add(a: &Fr, b: &Fr) -> (r: Fr)
    ensures
        r.value() == add_mod(a.value(), b.value(), fr_modulus() as int),
{
    let x = ark_bn254::Fr::new(ark_ff::BigInt::new(a.limbs));
    let y = ark_bn254::Fr::new(ark_ff::BigInt::new(b.limbs));
    Fr { limbs: ark_ff::PrimeField::into_bigint(x + y).0 }
}

/// `ark_bn254::Fr` subtraction (`-`), with the conversions of [`fr_add`]. Assumed:
/// the result is the difference modulo `r`.
#[verifier::external_body]
fn fr_sub(a: &Fr, b: &Fr) -> (r: Fr)
    ensures
        r.value() == sub_mod(a.value(), b.value(), fr_modulus() as int),
{
    let x = ark_bn254::Fr::new(ark_ff::BigInt::new(a.limbs));
    let y = ark_bn254::Fr::new(ark_ff::BigInt::new(b.limbs));
    Fr { limbs: ark_ff::PrimeField::into_bigint(x - y).0 }
}

/// `ark_bn254::Fr` multiplication (`*`), with the conversions of [`fr_add`].
/// Assumed: the result is the product modulo `r`.
#[verifier::external_body]
fn fr_mul(a: &Fr, b: &Fr) -> (r: Fr)
    ensures
        r.value() == mul_mod(a.value(), b.value(), fr_modulus() as int),
{
    let x = ark_bn254::Fr::new(ark_ff::BigInt::new(a.limbs));
    let y = ark_bn254::Fr::new(ark_ff::BigInt::new(b.limbs));
    Fr { limbs: ark_ff::PrimeField::into_bigint(x * y).0 }
}

/// `ark_ff::Field::inverse` on `ark_bn254::Fr`. Assumed: there is no inverse
/// exactly for zero, and otherwise the product of the argument and the result is
/// one.
#[verifier::external_body]
fn fr_inverse(a: &Fr) -> (r: Option<Fr>)
    ensures
        r is None <==> a.value() == 0,
        r matches Some(inv) ==> mul_mod(a.value(), inv.value(), fr_modulus() as int) == 1,
{
    let x = ark_bn254::Fr::new(ark_ff::BigInt::new(a.limbs));
    match ark_ff::Field::inverse(&x) {
        Some(inv) => Some(Fr { limbs: ark_ff::PrimeField::into_bigint(inv).0 }),
        None => None,
    }
}

/// `ark_ff::PrimeField::from_be_bytes_mod_order` on `ark_bn254::Fr`. Assumed: the
/// result is the big-endian number that the bytes spell, reduced modulo `r`,
/// whatever the length of the input.
#[verifier::external_body]
fn fr_from_be_bytes_mod_order(bytes: &[u8]) -> (r: Fr)
    ensures
        r.value() == (be_value(bytes@) as int) % (fr_modulus() as int),
{
    let x = <ark_bn254::Fr as ark_ff::PrimeField>::from_be_bytes_mod_order(bytes);
    Fr { limbs: ark_ff::PrimeField::into_bigint(x).0 }
}

/// `ark_std::UniformRand::rand` on `ark_bn254::Fr` with the generator of
/// `rand::thread_rng`. Nothing is assumed of the outcome but that it is an element
/// of the field.
#[verifier::external_body]
fn fr_random() -> (r: Fr) {
    let x: ark_bn254::Fr = ark_std::UniformRand::rand(&mut rand::thread_rng());
    Fr { limbs: ark_ff::PrimeField::into_bigint(x).0 }
}

impl FiniteField for Fr {
    open spec fn modulus() -> int {
        fr_modulus() as int
    }

    open spec fn encoded_len() -> nat {
        32
    }

    closed spec fn value(&self) -> int {
        (limbs_value(self.limbs) % fr_modulus()) as int
    }

    proof fn lemma_modulus() {
    }

    proof fn lemma_value_bound(x: Self) {
    }

    fn zero() -> (r: Self) {
        Fr { limbs: [0, 0, 0, 0] }
    }

    fn one() -> (r: Self) {
        Fr { limbs: [1, 0, 0, 0] }
    }

    fn from_u64(n: u64) -> (r: Self) {
        Fr { limbs: [n, 0, 0, 0] }
    }

    fn add(&self, rhs: &Self) -> (r: Self) {
        fr_add(self, rhs)
    }

    fn sub(&self, rhs: &Self) -> (r: Self) {
        fr_sub(self, rhs)
    }

    fn mul(&self, rhs: &Self) -> (r: Self) {
        fr_mul(self, rhs)
    }

    fn equals(&self, rhs: &Self) -> (r: bool) {
        proof {
            use_type_invariant(self);
            use_type_invariant(rhs);
            if self.value() == rhs.value() {
                lemma_limbs_injective(self.limbs, rhs.limbs);
            }
        }
        self.limbs[0] == rhs.limbs[0] && self.limbs[1] == rhs.limbs[1] && self.limbs[2]
            == rhs.limbs[2] && self.limbs[3] == rhs.limbs[3]
    }

    fn inverse(&self) -> (r: Option<Self>) {
        fr_inverse(self)
    }

    fn to_bytes_be(&self) -> (r: Vec<u8>) {
        proof {
            use_type_invariant(self);
        }
        limbs_to_bytes_be(&self.limbs)
    }

    fn from_be_bytes_mod_order(bytes: &[u8]) -> (r: Self) {
        fr_from_be_bytes_mod_order(bytes)
    }

    fn random() -> Self {
        fr_random()
    }
}

impl From<u64> for Fr {
    fn from(n: u64) -> (r: Self) {
        Fr { limbs: [n, 0, 0, 0] }
    }
}

impl FromSpecImpl<u64> for Fr {
    open spec fn obeys_from_spec() -> bool {
        true
    }

    closed spec fn from_spec(n: u64) -> Self {
        Fr { limbs: [n, 0, 0, 0] }
    }
}

/// The element made from a machine integer is the one that stands for it.
pub proof fn lemma_fr_from_u64(n: u64)
    ensures
        <Fr as FromSpec<u64>>::from_spec(n).value() == n as int,
{
}

} // verus!
