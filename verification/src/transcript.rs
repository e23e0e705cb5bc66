//! A Fiat-Shamir transcript: challenges that are a function of what was absorbed.
//!
//! The transcript keeps every byte it has absorbed. A challenge is the digest of
//! those bytes read as a big-endian number and reduced into the field, and the
//! digest is absorbed in turn, so that the next challenge differs. Nothing else
//! enters: two transcripts that absorbed the same bytes give the same challenges.
use crate::field::{be_value, FiniteField};
use vstd::prelude::*;

verus! {

/// The SHA-256 digest of a byte string.
pub uninterp spec fn sha256(data: Seq<u8>) -> Seq<u8>;

/// The Keccak-256 digest of a byte string.
pub uninterp spec fn keccak256(data: Seq<u8>) -> Seq<u8>;

/// `sha2::Sha256::digest`, the one-shot form of the hash. Assumed: the digest
/// depends on the bytes alone; `sha256` is the name of that dependency.
#[verifier::external_body]
fn sha256_digest(data: &Vec<u8>) -> (r: Vec<u8>)
    ensures
        r@ == sha256(data@),
{
    <sha2::Sha256 as sha2::Digest>::digest(data).to_vec()
}

/// `sha3::Keccak256::digest`, the one-shot form of the hash. Assumed: the digest
/// depends on the bytes alone; `keccak256` is the name of that dependency.
#[verifier::external_body]
fn keccak256_digest(data: &Vec<u8>) -> (r: Vec<u8>)
    ensures
        r@ == keccak256(data@),
{
    <sha3::Keccak256 as sha3::Digest>::digest(data).to_vec()
}

/// A hash function that a transcript can be built on.
pub trait HashTrait: Sized {
    /// The digest of a byte string.
    spec fn digest(data: Seq<u8>) -> Seq<u8>;

    /// Computes the digest of `data`.
    fn generate_hash(&self, data: &Vec<u8>) -> (r: Vec<u8>)
        ensures
            r@ == Self::digest(data@),
    ;
}

/// SHA-256.
#[derive(Clone, Copy, Debug)]
pub struct Sha256;

/// Keccak-256.
#[derive(Clone, Copy, Debug)]
pub struct Keccak256;

impl Sha256 {
    pub fn new() -> Self {
        Sha256
    }
}

impl Keccak256 {
    pub fn new() -> Self {
        Keccak256
    }
}

impl HashTrait for Sha256 {
    open spec fn digest(data: Seq<u8>) -> Seq<u8> {
        sha256(data)
    }

    fn generate_hash(&self, data: &Vec<u8>) -> (r: Vec<u8>) {
        sha256_digest(data)
    }
}

impl HashTrait for Keccak256 {
    open spec fn digest(data: Seq<u8>) -> Seq<u8> {
        keccak256(data)
    }

    fn generate_hash(&self, data: &Vec<u8>) -> (r: Vec<u8>) {
        keccak256_digest(data)
    }
}

/// The challenge that a transcript gives after it has absorbed `absorbed`.
pub open spec fn challenge<K: HashTrait, F: FiniteField>(absorbed: Seq<u8>) -> int {
    (be_value(K::digest(absorbed)) as int) % F::modulus()
}

/// What a transcript has absorbed after it gave a challenge: its digest is
/// appended.
pub open spec fn after_squeeze<K: HashTrait>(absorbed: Seq<u8>) -> Seq<u8> {
    absorbed + K::digest(absorbed)
}

/// What a transcript has absorbed after a list of byte strings, one at a time.
pub open spec fn after_absorbing(absorbed: Seq<u8>, chunks: Seq<Seq<u8>>) -> Seq<u8>
    decreases chunks.len(),
{
    if chunks.len() == 0 {
        absorbed
    } else {
        after_absorbing(absorbed, chunks.drop_last()) + chunks.last()
    }
}

/// The next `count` challenges of a transcript that has absorbed `absorbed`.
pub open spec fn challenges<K: HashTrait, F: FiniteField>(absorbed: Seq<u8>, count: nat) -> Seq<
    int,
>
    decreases count,
{
    if count == 0 {
        Seq::empty()
    } else {
        seq![challenge::<K, F>(absorbed)] + challenges::<K, F>(
            after_squeeze::<K>(absorbed),
            (count - 1) as nat,
        )
    }
}

/// A transcript over the hash function `K`.
pub struct Transcript<K: HashTrait> {
    hash_function: K,
    absorbed: Vec<u8>,
}

impl<K: HashTrait> View for Transcript<K> {
    type V = Seq<u8>;

    /// All bytes absorbed so far, in order.
    closed spec fn view(&self) -> Seq<u8> {
        self.absorbed@
    }
}

impl<K: HashTrait> Transcript<K> {
    /// A transcript that has absorbed nothing.
    pub fn init(hash_function: K) -> (r: Self)
        ensures
            r@ == Seq::<u8>::empty(),
    {
        Transcript { hash_function, absorbed: Vec::new() }
    }

    /// Absorbs `data` after everything absorbed before.
    pub fn absorb(&mut self, data: &[u8])
        ensures
            final(self)@ == old(self)@ + data@,
    {
        let mut i: usize = 0;
        while i < data.len()
            invariant
                i <= data@.len(),
                self.absorbed@ == old(self).absorbed@ + data@.take(i as int),
            decreases data.len() - i,
        {
            self.absorbed.push(data[i]);
            i += 1;
            assert(self.absorbed@ =~= old(self).absorbed@ + data@.take(i as int));
        }
        assert(data@.take(i as int) =~= data@);
    }

    /// The next challenge: the digest of everything absorbed, reduced into the
    /// field. The digest is absorbed, so that a second call gives another
    /// challenge.
    pub fn squeeze<F: FiniteField>(&mut self) -> (r: F)
        ensures
            r.value() == challenge::<K, F>(old(self)@),
            final(self)@ == after_squeeze::<K>(old(self)@),
    {
        let hash_output = self.hash_function.generate_hash(&self.absorbed);
        self.absorb(hash_output.as_slice());
        F::from_be_bytes_mod_order(hash_output.as_slice())
    }
}

/// The byte strings of `chunks` written one after the other.
pub open spec fn joined(chunks: Seq<Seq<u8>>) -> Seq<u8>
    decreases chunks.len(),
{
    if chunks.len() == 0 {
        Seq::empty()
    } else {
        joined(chunks.drop_last()) + chunks.last()
    }
}

/// Absorbing byte strings one at a time is absorbing them joined.
pub proof fn lemma_absorbing_joins(absorbed: Seq<u8>, chunks: Seq<Seq<u8>>)
    ensures
        after_absorbing(absorbed, chunks) == absorbed + joined(chunks),
    decreases chunks.len(),
{
    if chunks.len() == 0 {
        assert(absorbed + joined(chunks) =~= absorbed);
    } else {
        lemma_absorbing_joins(absorbed, chunks.drop_last());
        assert((absorbed + joined(chunks.drop_last())) + chunks.last() =~= absorbed + joined(
            chunks,
        ));
    }
}

/// Transcript determinism: fresh transcripts that absorbed the same bytes in the
/// same order give the same challenges, however the bytes were cut into calls of
/// `absorb`.
pub proof fn lemma_transcript_deterministic<K: HashTrait, F: FiniteField>(
    first: Seq<Seq<u8>>,
    second: Seq<Seq<u8>>,
    count: nat,
)
    requires
        joined(first) == joined(second),
    ensures
        challenges::<K, F>(after_absorbing(Seq::empty(), first), count) == challenges::<K, F>(
            after_absorbing(Seq::empty(), second),
            count,
        ),
{
    lemma_absorbing_joins(Seq::empty(), first);
    lemma_absorbing_joins(Seq::empty(), second);
}

} // verus!
