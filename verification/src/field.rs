//! The finite field that polynomials, circuits and the sumcheck protocol compute in.
//!
//! A field element is modelled by its canonical residue, an integer in
//! `0..modulus()`. All arithmetic contracts are stated over these residues with the
//! operations of [`crate::modular`].
use crate::modular::{add_mod, mul_mod, sub_mod};
use vstd::prelude::*;

verus! {

/// The number that `bytes` spells when read most significant byte first.
pub open spec fn be_value(bytes: Seq<u8>) -> nat
    decreases bytes.len(),
{
    if bytes.len() == 0 {
        0
    } else {
        256 * be_value(bytes.drop_last()) + bytes.last() as nat
    }
}

/// The `len` low-order bytes of `v`, most significant byte first.
pub open spec fn be_bytes(v: nat, len: nat) -> Seq<u8>
    decreases len,
{
    if len == 0 {
        Seq::empty()
    } else {
        be_bytes(v / 256, (len - 1) as nat).push((v % 256) as u8)
    }
}

/// An element of a prime field.
///
/// `value` is the canonical residue of the element, and every operation says what
/// it does to residues. Two elements are the same element exactly when their
/// residues are equal.
pub trait FiniteField: Sized + Copy {
    /// The order of the field.
    spec fn modulus() -> int;

    /// The number of bytes of the canonical encoding of an element.
    spec fn encoded_len() -> nat;

    /// The canonical residue of this element, in `0..modulus()`.
    spec fn value(&self) -> int;

    /// A field has at least the two elements zero and one.
    proof fn lemma_modulus()
        ensures
            Self::modulus() >= 2,
    ;

    /// Residues are canonical.
    proof fn lemma_value_bound(x: Self)
        ensures
            0 <= x.value() < Self::modulus(),
    ;

    /// The additive identity.
    fn zero() -> (r: Self)
        ensures
            r.value() == 0,
    ;

    /// The multiplicative identity.
    fn one() -> (r: Self)
        ensures
            r.value() == 1,
    ;

    /// The element that the machine integer `n` stands for.
    fn from_u64(n: u64) -> (r: Self)
        ensures
            r.value() == (n as int) % Self::modulus(),
    ;

    /// The sum of two elements.
    fn add(&self, rhs: &Self) -> (r: Self)
        ensures
            r.value() == add_mod(self.value(), rhs.value(), Self::modulus()),
    ;

    /// The difference of two elements.
    fn sub(&self, rhs: &Self) -> (r: Self)
        ensures
            r.value() == sub_mod(self.value(), rhs.value(), Self::modulus()),
    ;

    /// The product of two elements.
    fn mul(&self, rhs: &Self) -> (r: Self)
        ensures
            r.value() == mul_mod(self.value(), rhs.value(), Self::modulus()),
    ;

    /// Whether two elements are equal.
    fn equals(&self, rhs: &Self) -> (r: bool)
        ensures
            r == (self.value() == rhs.value()),
    ;

    /// The multiplicative inverse, which every element but zero has.
    fn inverse(&self) -> (r: Option<Self>)
        ensures
            r is None <==> self.value() == 0,
            r matches Some(inv) ==> mul_mod(self.value(), inv.value(), Self::modulus()) == 1,
    ;

    /// The canonical residue in `encoded_len()` bytes, most significant byte first.
    fn to_bytes_be(&self) -> (r: Vec<u8>)
        ensures
            r@ == be_bytes(self.value() as nat, Self::encoded_len()),
    ;

    /// The element that the big-endian number `bytes` stands for, after reduction.
    fn from_be_bytes_mod_order(bytes: &[u8]) -> (r: Self)
        ensures
            r.value() == (be_value(bytes@) as int) % Self::modulus(),
    ;

    /// An element drawn at random. Nothing is known of the outcome but that it is
    /// an element of the field.
    fn random() -> Self;
}

/// The residues of a sequence of field elements, in order.
pub open spec fn residues<F: FiniteField>(s: Seq<F>) -> Seq<int> {
    Seq::new(s.len(), |i: int| s[i].value())
}

/// The residues of each row of a table of field elements.
pub open spec fn table_residues<F: FiniteField>(t: Seq<Vec<F>>) -> Seq<Seq<int>> {
    Seq::new(t.len(), |i: int| residues(t[i]@))
}

/// Every entry of `s` is a canonical residue modulo `m`.
pub open spec fn canonical_seq(s: Seq<int>, m: int) -> bool {
    forall|i: int| 0 <= i < s.len() ==> 0 <= #[trigger] s[i] < m
}

/// The residues of field elements are canonical.
pub proof fn lemma_residues_canonical<F: FiniteField>(s: Seq<F>)
    ensures
        canonical_seq(residues(s), F::modulus()),
        residues(s).len() == s.len(),
{
    assert forall|i: int| 0 <= i < s.len() implies 0 <= #[trigger] residues(s)[i] < F::modulus() by {
        F::lemma_value_bound(s[i]);
    }
}

} // verus!
