use polynomial::bn254::{Fq, Fr};
use polynomial::field::FiniteField;
use polynomial::transcript::{HashTrait, Keccak256, Sha256, Transcript};

const SHA256_ABC: [u8; 32] = [
    186, 120, 22, 191, 143, 1, 207, 234, 65, 65, 64, 222, 93, 174, 34, 35, 176, 3, 97, 163, 150,
    23, 122, 156, 180, 16, 255, 97, 242, 0, 21, 173,
];

#[test]
fn sha256_digests() {
    assert_eq!(Sha256::new().generate_hash(&b"abc".to_vec()), SHA256_ABC.to_vec());
    assert_eq!(
        Sha256::new().generate_hash(&Vec::new()),
        vec![
            227, 176, 196, 66, 152, 252, 28, 20, 154, 251, 244, 200, 153, 111, 185, 36, 39, 174,
            65, 228, 100, 155, 147, 76, 164, 149, 153, 27, 120, 82, 184, 85
        ]
    );
}

#[test]
fn keccak256_digests() {
    assert_eq!(
        Keccak256::new().generate_hash(&Vec::new()),
        vec![
            197, 210, 70, 1, 134, 247, 35, 60, 146, 126, 125, 178, 220, 199, 3, 192, 229, 0, 182,
            83, 202, 130, 39, 59, 123, 250, 216, 4, 93, 133, 164, 112
        ]
    );
    assert_eq!(
        Keccak256::new().generate_hash(&b"abc".to_vec()),
        vec![
            78, 3, 101, 122, 234, 69, 169, 79, 199, 212, 123, 168, 38, 200, 214, 103, 192, 209,
            230, 227, 58, 100, 160, 54, 236, 68, 245, 143, 161, 45, 108, 69
        ]
    );
}

#[test]
fn a_challenge_is_the_reduced_digest_of_what_was_absorbed() {
    let mut transcript = Transcript::init(Sha256::new());
    transcript.absorb(b"abc");
    let first: Fq = transcript.squeeze();
    assert_eq!(first, Fq::from_be_bytes_mod_order(&SHA256_ABC));
    assert_eq!(
        first.to_bytes_be(),
        vec![
            41, 75, 43, 102, 235, 108, 239, 109, 24, 80, 111, 186, 217, 42, 25, 10, 233, 127, 33,
            239, 92, 194, 26, 244, 255, 175, 91, 29, 104, 137, 29, 216
        ]
    );
    // the digest was absorbed, so the next challenge hashes "abc" and the digest
    let second: Fq = transcript.squeeze();
    assert_eq!(
        second.to_bytes_be(),
        vec![
            25, 228, 227, 112, 221, 153, 152, 85, 221, 197, 219, 58, 171, 195, 187, 151, 205, 185,
            153, 116, 81, 185, 156, 131, 223, 71, 5, 168, 212, 87, 254, 248
        ]
    );
    assert_ne!(first, second);
}

#[test]
fn absorbing_in_pieces_is_absorbing_the_whole() {
    let mut whole = Transcript::init(Keccak256::new());
    whole.absorb(b"sumcheck");
    let mut pieces = Transcript::init(Keccak256::new());
    pieces.absorb(b"sum");
    pieces.absorb(b"");
    pieces.absorb(b"check");
    let a: Fr = whole.squeeze();
    let b: Fr = pieces.squeeze();
    assert_eq!(a, b);
}

#[test]
fn equal_histories_give_equal_challenges() {
    let mut first = Transcript::init(Keccak256::new());
    let mut second = Transcript::init(Keccak256::new());
    for chunk in [&b"claimed sum"[..], &b"polynomial"[..], &b"round 0"[..]] {
        first.absorb(chunk);
        second.absorb(chunk);
    }
    for _ in 0..4 {
        let a: Fq = first.squeeze();
        let b: Fq = second.squeeze();
        assert_eq!(a, b);
        first.absorb(&a.to_bytes_be());
        second.absorb(&b.to_bytes_be());
    }
}

#[test]
fn different_histories_give_different_challenges() {
    let mut first = Transcript::init(Keccak256::new());
    let mut second = Transcript::init(Keccak256::new());
    first.absorb(&[1, 2, 3]);
    second.absorb(&[1, 2, 4]);
    let a: Fq = first.squeeze();
    let b: Fq = second.squeeze();
    assert_ne!(a, b);
    // the order of what is absorbed matters
    let mut third = Transcript::init(Keccak256::new());
    let mut fourth = Transcript::init(Keccak256::new());
    third.absorb(&[1]);
    third.absorb(&[2]);
    fourth.absorb(&[2]);
    fourth.absorb(&[1]);
    let c: Fq = third.squeeze();
    let d: Fq = fourth.squeeze();
    assert_ne!(c, d);
}

#[test]
fn hash_functions_differ() {
    let mut sha = Transcript::init(Sha256::new());
    let mut keccak = Transcript::init(Keccak256::new());
    let a: Fq = sha.squeeze();
    let b: Fq = keccak.squeeze();
    assert_ne!(a, b);
}
