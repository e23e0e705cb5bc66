//! The sumcheck protocol for a sum of two products of two multilinear polynomials.
//!
//! With the first variable left free, the sum over the other variables is a
//! polynomial of degree two in that variable. A round message therefore holds
//! three values of it, at 0, 1 and 2; the verifier checks that the first two add up
//! to the claim and takes the value at the challenge, by interpolation, as the
//! next claim.
use crate::field::{be_bytes, canonical_seq, residues, table_residues, FiniteField};
use crate::hypercube::fold_all;
use crate::interpolation::{inverse_mod, lemma_inverse_unique};
use crate::modular::{
    add_mod, congruent, lemma_canonical, lemma_congruent_add, lemma_congruent_mul,
    lemma_reduce_congruent, mul_mod, sum_mod,
};
use crate::sum_poly::{fold_terms, sum_table, sum_value, SumPoly};
use crate::sumcheck_implementation::{
    derive_challenges, encode, sum_elements, to_bytes, verifier_state, VerificationError,
};
use crate::transcript::{after_squeeze, challenge, HashTrait, Transcript};
use vstd::arithmetic::power2::pow2;
use vstd::prelude::*;

verus! {

/// A sum of two terms of two factors each.
pub open spec fn two_by_two(terms: Seq<Seq<Seq<int>>>) -> bool {
    &&& terms.len() == 2
    &&& terms[0].len() == 2
    &&& terms[1].len() == 2
}

/// The encodings of the four tables of a sum of two products of two factors, term
/// by term and factor by factor.
pub open spec fn encode_terms(terms: Seq<Seq<Seq<int>>>, width: nat) -> Seq<u8> {
    encode(terms[0][0], width) + encode(terms[0][1], width) + encode(terms[1][0], width) + encode(
        terms[1][1],
        width,
    )
}

/// What both sides absorb before the first round: the claimed sum, then the
/// tables of the polynomial.
pub open spec fn opening(claimed_sum: int, terms: Seq<Seq<Seq<int>>>, width: nat) -> Seq<u8> {
    be_bytes(claimed_sum as nat, width) + encode_terms(terms, width)
}

/// The sum over the hypercube of a sum of two products of two factors.
#[verifier::opaque]
pub open spec fn hypercube_sum(terms: Seq<Seq<Seq<int>>>, m: int) -> int {
    sum_mod(sum_table(terms, m), m)
}

/// The message of a round: the sums over the hypercube with the first variable
/// fixed to 0, to 1 and to 2.
pub open spec fn round_message(terms: Seq<Seq<Seq<int>>>, m: int) -> Seq<int> {
    seq![
        hypercube_sum(fold_terms(terms, 0, m), m),
        hypercube_sum(fold_terms(terms, 1, m), m),
        hypercube_sum(fold_terms(terms, 2int % m, m), m),
    ]
}

/// The prover before round `round`: what its transcript has absorbed, and the
/// polynomial that is left after the variables of the earlier rounds were fixed
/// to their challenges.
pub open spec fn prover_state<K: HashTrait, F: FiniteField>(
    start: Seq<u8>,
    terms: Seq<Seq<Seq<int>>>,
    round: nat,
) -> (Seq<u8>, Seq<Seq<Seq<int>>>)
    decreases round,
{
    if round == 0 {
        (start, terms)
    } else {
        let (absorbed, current) = prover_state::<K, F>(start, terms, (round - 1) as nat);
        let with_message = absorbed + encode(
            round_message(current, F::modulus()),
            F::encoded_len(),
        );
        (
            after_squeeze::<K>(with_message),
            fold_terms(current, challenge::<K, F>(with_message), F::modulus()),
        )
    }
}

/// The messages of an honest prover for `rounds` rounds.
pub open spec fn prover_messages<K: HashTrait, F: FiniteField>(
    start: Seq<u8>,
    terms: Seq<Seq<Seq<int>>>,
    rounds: nat,
) -> Seq<Seq<int>> {
    Seq::new(
        rounds,
        |i: int| round_message(prover_state::<K, F>(start, terms, i as nat).1, F::modulus()),
    )
}

/// The value at `x` of the polynomial of degree at most two that is `e0` at 0,
/// `e1` at 1 and `e2` at 2, in a field in which 2 has an inverse.
#[verifier::opaque]
pub open spec fn quadratic_mod(e0: int, e1: int, e2: int, x: int, m: int) -> int {
    let half = inverse_mod(2, m);
    (e0 * ((x - 1) * (x - 2) * half) + e1 * (x * (2 - x)) + e2 * (x * (x - 1) * half)) % m
}

/// The claim that round `round` has to answer: the claimed sum in the first round,
/// and afterwards the value at the last challenge of the polynomial through the
/// three entries of the message before.
pub open spec fn claim_before(
    claimed_sum: int,
    proof: Seq<Seq<int>>,
    challenges: Seq<int>,
    round: int,
    m: int,
) -> int {
    if round == 0 {
        claimed_sum
    } else {
        quadratic_mod(
            proof[round - 1][0],
            proof[round - 1][1],
            proof[round - 1][2],
            challenges[round - 1],
            m,
        )
    }
}

/// Round `round` of `proof` has three entries, and the values at 0 and at 1 add up
/// to the claim that the round answers.
pub open spec fn round_consistent(
    claimed_sum: int,
    proof: Seq<Seq<int>>,
    challenges: Seq<int>,
    round: int,
    m: int,
) -> bool {
    &&& proof[round].len() == 3
    &&& claim_before(claimed_sum, proof, challenges, round, m) == add_mod(
        proof[round][0],
        proof[round][1],
        m,
    )
}

/// The proof has one message for each variable and every round is consistent.
pub open spec fn rounds_consistent(
    claimed_sum: int,
    proof: Seq<Seq<int>>,
    challenges: Seq<int>,
    num_vars: nat,
    m: int,
) -> bool {
    &&& proof.len() == num_vars
    &&& forall|i: int|
        0 <= i < proof.len() ==> #[trigger] round_consistent(claimed_sum, proof, challenges, i, m)
}

/// The verifier accepts: every round is consistent, and the claim left by the last
/// round is the value of the polynomial at the challenges.
pub open spec fn accepts(
    claimed_sum: int,
    proof: Seq<Seq<int>>,
    challenges: Seq<int>,
    terms: Seq<Seq<Seq<int>>>,
    num_vars: nat,
    m: int,
) -> bool {
    &&& rounds_consistent(claimed_sum, proof, challenges, num_vars, m)
    &&& claim_before(claimed_sum, proof, challenges, proof.len() as int, m) == sum_value(
        terms,
        challenges,
        m,
    )
}

/// The sum of the polynomial over the hypercube.
pub fn compute_sum<F: FiniteField>(poly: &SumPoly<F>) -> (r: F)
    requires
        two_by_two(poly@),
    ensures
        r.value() == hypercube_sum(poly@, F::modulus()),
{
    proof {
        reveal(hypercube_sum);
    }
    sum_elements(&poly.reduce())
}

/// The message of a round for `poly`.
pub fn generate_round_poly<F: FiniteField>(poly: &SumPoly<F>) -> (r: Vec<F>)
    requires
        two_by_two(poly@),
        poly.foldable(),
    ensures
        residues(r@) == round_message(poly@, F::modulus()),
{
    proof {
        reveal(hypercube_sum);
    }
    let eval_zero = sum_elements(&poly.partial_evaluate(F::zero()).reduce());
    let eval_one = sum_elements(&poly.partial_evaluate(F::one()).reduce());
    let eval_two = sum_elements(&poly.partial_evaluate(F::from_u64(2_u64)).reduce());

    let mut message: Vec<F> = Vec::new();
    message.push(eval_zero);
    message.push(eval_one);
    message.push(eval_two);
    assert(residues(message@) =~= round_message(poly@, F::modulus()));
    message
}

/// Absorbs the four tables of `poly`, term by term and factor by factor.
fn absorb_terms<F: FiniteField, K: HashTrait>(transcript: &mut Transcript<K>, poly: &SumPoly<F>)
    requires
        two_by_two(poly@),
    ensures
        final(transcript)@ == old(transcript)@ + encode_terms(poly@, F::encoded_len()),
{
    transcript.absorb(to_bytes(&poly.polys[0].evaluation[0].coefficients).as_slice());
    transcript.absorb(to_bytes(&poly.polys[0].evaluation[1].coefficients).as_slice());
    transcript.absorb(to_bytes(&poly.polys[1].evaluation[0].coefficients).as_slice());
    transcript.absorb(to_bytes(&poly.polys[1].evaluation[1].coefficients).as_slice());
    assert(transcript@ =~= old(transcript)@ + encode_terms(poly@, F::encoded_len()));
}

/// Proves the sum of `initial_poly` over the hypercube: returns the sum and one
/// message for each of the `num_vars` variables.
pub fn prover<F: FiniteField, K: HashTrait>(
    initial_poly: SumPoly<F>,
    num_vars: usize,
    hash_function: K,
) -> (r: (F, Vec<Vec<F>>))
    requires
        two_by_two(initial_poly@),
        initial_poly.wf(num_vars as nat),
    ensures
        r.0.value() == hypercube_sum(initial_poly@, F::modulus()),
        table_residues(r.1@) == prover_messages::<K, F>(
            opening(
                hypercube_sum(initial_poly@, F::modulus()),
                initial_poly@,
                F::encoded_len(),
            ),
            initial_poly@,
            num_vars as nat,
        ),
{
    let claimed_sum: F = compute_sum(&initial_poly);
    let ghost terms = initial_poly@;
    let ghost start = opening(claimed_sum.value(), terms, F::encoded_len());

    let mut proof: Vec<Vec<F>> = Vec::new();
    let mut transcript = Transcript::init(hash_function);

    transcript.absorb(claimed_sum.to_bytes_be().as_slice());

    absorb_terms(&mut transcript, &initial_poly);
    proof {
        F::lemma_value_bound(claimed_sum);
        assert(transcript@ =~= start);
    }

    let mut poly = initial_poly;

    let mut round: usize = 0;
    while round < num_vars
        invariant
            round <= num_vars,
            two_by_two(poly@),
            poly.wf((num_vars - round) as nat),
            (transcript@, poly@) == prover_state::<K, F>(start, terms, round as nat),
            proof@.len() == round,
            forall|i: int|
                0 <= i < round ==> residues((#[trigger] proof@[i])@) == round_message(
                    prover_state::<K, F>(start, terms, i as nat).1,
                    F::modulus(),
                ),
        decreases num_vars - round,
    {
        proof {
            lemma_wf_foldable(&poly, (num_vars - round) as nat);
        }
        let round_poly = generate_round_poly(&poly);

        transcript.absorb(to_bytes(&round_poly).as_slice());

        proof.push(round_poly);

        let challenge: F = transcript.squeeze();

        poly = poly.partial_evaluate(challenge);

        round += 1;
    }
    proof {
        assert(table_residues(proof@) =~= prover_messages::<K, F>(start, terms, num_vars as nat));
    }

    (claimed_sum, proof)
}

/// A polynomial whose tables have `2^n` entries for some `n >= 1` can have its
/// first variable fixed.
pub proof fn lemma_wf_foldable<F: FiniteField>(poly: &SumPoly<F>, n: nat)
    requires
        poly.wf(n),
        n >= 1,
    ensures
        poly.foldable(),
{
    vstd::arithmetic::power2::lemma_pow2_unfold(n);
    vstd::arithmetic::power2::lemma_pow2_pos((n - 1) as nat);
    assert forall|i: int, j: int|
        0 <= i < poly.polys@.len() && 0 <= j < poly.polys@[i].evaluation@.len() implies (
    #[trigger] poly.polys@[i].evaluation@[j]).coefficients@.len() >= 2 by {
        assert(poly.polys@[i].wf(n));
        assert(poly.polys@[i].evaluation@[j].wf(n));
    }
}

/// The challenges that a verifier draws for `proof`, one after each message, from
/// a transcript that has absorbed the claimed sum and the polynomial.
pub fn draw_challenges<F: FiniteField, K: HashTrait>(
    claimed_sum: F,
    proof: &Vec<Vec<F>>,
    initial_poly: &SumPoly<F>,
    hash_function: K,
) -> (r: Vec<F>)
    requires
        two_by_two(initial_poly@),
    ensures
        r@.len() == proof@.len(),
        residues(r@) == derive_challenges::<K, F>(
            opening(claimed_sum.value(), initial_poly@, F::encoded_len()),
            table_residues(proof@),
        ),
{
    let ghost start = opening(claimed_sum.value(), initial_poly@, F::encoded_len());
    let ghost messages = table_residues(proof@);
    let mut transcript = Transcript::init(hash_function);
    transcript.absorb(claimed_sum.to_bytes_be().as_slice());
    absorb_terms(&mut transcript, initial_poly);
    proof {
        F::lemma_value_bound(claimed_sum);
        assert(transcript@ =~= start);
    }

    let mut challenges: Vec<F> = Vec::new();
    let mut i: usize = 0;
    while i < proof.len()
        invariant
            i <= proof@.len(),
            messages == table_residues(proof@),
            transcript@ == verifier_state::<K>(start, messages, F::encoded_len(), i as nat),
            challenges@.len() == i,
            forall|j: int|
                0 <= j < i ==> (#[trigger] challenges@[j]).value() == derive_challenges::<K, F>(
                    start,
                    messages,
                )[j],
        decreases proof.len() - i,
    {
        transcript.absorb(to_bytes(&proof[i]).as_slice());

        let challenge: F = transcript.squeeze();
        challenges.push(challenge);
        i += 1;
    }
    proof {
        assert(residues(challenges@) =~= derive_challenges::<K, F>(start, messages));
    }
    challenges
}

/// The value at `challenge` of the polynomial of degree at most two through the
/// three entries of a round message.
pub fn interpolate_round<F: FiniteField>(round_poly: &Vec<F>, challenge: F) -> (r: F)
    requires
        round_poly@.len() == 3,
        F::modulus() > 2,
    ensures
        r.value() == quadratic_mod(
            round_poly@[0].value(),
            round_poly@[1].value(),
            round_poly@[2].value(),
            challenge.value(),
            F::modulus(),
        ),
{
    let ghost m = F::modulus();
    let ghost x = challenge.value();
    let two = F::from_u64(2);
    proof {
        lemma_canonical(2, m);
    }
    let half = two.inverse().unwrap();
    proof {
        F::lemma_value_bound(half);
        lemma_inverse_unique(2, half.value(), half.value(), m);
    }
    let ghost h = half.value();
    let below_one = challenge.sub(&F::one());
    let below_two = challenge.sub(&two);
    let above = two.sub(&challenge);
    let product_zero = below_one.mul(&below_two);
    let weight_zero = product_zero.mul(&half);
    let weight_one = challenge.mul(&above);
    let product_two = challenge.mul(&below_one);
    let weight_two = product_two.mul(&half);
    let term_zero = round_poly[0].mul(&weight_zero);
    let term_one = round_poly[1].mul(&weight_one);
    let term_two = round_poly[2].mul(&weight_two);
    let partial = term_zero.add(&term_one);
    let result = partial.add(&term_two);
    proof {
        reveal(quadratic_mod);
        let e0 = round_poly@[0].value();
        let e1 = round_poly@[1].value();
        let e2 = round_poly@[2].value();
        lemma_reduce_congruent(x - 1, m);
        lemma_reduce_congruent(x - 2, m);
        lemma_reduce_congruent(2 - x, m);
        lemma_congruent_mul(below_one.value(), x - 1, below_two.value(), x - 2, m);
        lemma_reduce_congruent(below_one.value() * below_two.value(), m);
        lemma_congruent_mul(product_zero.value(), (x - 1) * (x - 2), h, h, m);
        lemma_reduce_congruent(product_zero.value() * h, m);
        lemma_congruent_mul(x, x, above.value(), 2 - x, m);
        lemma_reduce_congruent(x * above.value(), m);
        lemma_congruent_mul(x, x, below_one.value(), x - 1, m);
        lemma_reduce_congruent(x * below_one.value(), m);
        lemma_congruent_mul(product_two.value(), x * (x - 1), h, h, m);
        lemma_reduce_congruent(product_two.value() * h, m);
        lemma_congruent_mul(e0, e0, weight_zero.value(), (x - 1) * (x - 2) * h, m);
        lemma_reduce_congruent(e0 * weight_zero.value(), m);
        lemma_congruent_mul(e1, e1, weight_one.value(), x * (2 - x), m);
        lemma_reduce_congruent(e1 * weight_one.value(), m);
        lemma_congruent_mul(e2, e2, weight_two.value(), x * (x - 1) * h, m);
        lemma_reduce_congruent(e2 * weight_two.value(), m);
        lemma_congruent_add(
            term_zero.value(),
            e0 * ((x - 1) * (x - 2) * h),
            term_one.value(),
            e1 * (x * (2 - x)),
            m,
        );
        lemma_reduce_congruent(term_zero.value() + term_one.value(), m);
        lemma_congruent_add(
            partial.value(),
            e0 * ((x - 1) * (x - 2) * h) + e1 * (x * (2 - x)),
            term_two.value(),
            e2 * (x * (x - 1) * h),
            m,
        );
        lemma_reduce_congruent(partial.value() + term_two.value(), m);
        F::lemma_value_bound(result);
        lemma_canonical(result.value(), m);
    }
    result
}

/// Checks the messages of `proof` against the given challenges, and the last claim
/// against the polynomial.
pub fn check_rounds<F: FiniteField>(
    claimed_sum: F,
    proof: &Vec<Vec<F>>,
    challenges: &Vec<F>,
    num_vars: usize,
    initial_poly: &SumPoly<F>,
) -> (r: Result<(), VerificationError>)
    requires
        F::modulus() > 2,
        initial_poly.wf(num_vars as nat),
        challenges@.len() == proof@.len(),
    ensures
        r is Ok <==> accepts(
            claimed_sum.value(),
            table_residues(proof@),
            residues(challenges@),
            initial_poly@,
            num_vars as nat,
            F::modulus(),
        ),
        r == Err::<(), VerificationError>(VerificationError::InvalidRoundMessage)
            <==> !rounds_consistent(
            claimed_sum.value(),
            table_residues(proof@),
            residues(challenges@),
            num_vars as nat,
            F::modulus(),
        ),
{
    let ghost messages = table_residues(proof@);
    let ghost points = residues(challenges@);
    let ghost m = F::modulus();
    if proof.len() != num_vars {
        return Err(VerificationError::InvalidRoundMessage);
    }
    let mut running_claim = claimed_sum;

    let mut i: usize = 0;
    while i < proof.len()
        invariant
            i <= proof@.len(),
            challenges@.len() == proof@.len(),
            messages == table_residues(proof@),
            points == residues(challenges@),
            m == F::modulus(),
            m > 2,
            running_claim.value() == claim_before(claimed_sum.value(), messages, points, i as int, m),
            forall|j: int|
                0 <= j < i ==> #[trigger] round_consistent(
                    claimed_sum.value(),
                    messages,
                    points,
                    j,
                    m,
                ),
        decreases proof.len() - i,
    {
        let round_poly = &proof[i];
        if round_poly.len() != 3 {
            assert(!round_consistent(claimed_sum.value(), messages, points, i as int, m));
            return Err(VerificationError::InvalidRoundMessage);
        }
        let sum = round_poly[0].add(&round_poly[1]);
        if !running_claim.equals(&sum) {
            assert(!round_consistent(claimed_sum.value(), messages, points, i as int, m));
            return Err(VerificationError::InvalidRoundMessage);
        }
        running_claim = interpolate_round(round_poly, challenges[i]);
        i += 1;
    }
    let final_eval = initial_poly.evaluate_at(challenges);

    if running_claim.equals(&final_eval) {
        Ok(())
    } else {
        Err(VerificationError::FinalCheckFailed)
    }
}

/// Verifies a proof that `initial_poly` adds up to `claimed_sum` over the
/// hypercube.
///
/// The challenges are drawn from a transcript that absorbs what the prover's
/// transcript absorbed; the proof is accepted exactly if it passes `check_rounds`
/// with these challenges.
pub fn verify<F: FiniteField, K: HashTrait>(
    claimed_sum: F,
    proof: &Vec<Vec<F>>,
    num_vars: usize,
    initial_poly: &SumPoly<F>,
    hash_function: K,
) -> (r: bool)
    requires
        F::modulus() > 2,
        two_by_two(initial_poly@),
        initial_poly.wf(num_vars as nat),
    ensures
        r == accepts(
            claimed_sum.value(),
            table_residues(proof@),
            derive_challenges::<K, F>(
                opening(claimed_sum.value(), initial_poly@, F::encoded_len()),
                table_residues(proof@),
            ),
            initial_poly@,
            num_vars as nat,
            F::modulus(),
        ),
{
    let challenges = draw_challenges(claimed_sum, proof, initial_poly, hash_function);
    match check_rounds(claimed_sum, proof, &challenges, num_vars, initial_poly) {
        Ok(_) => true,
        Err(_) => false,
    }
}

/// The four tables of a sum of two products of two factors have `len` entries
/// each, all of them canonical residues.
#[verifier::opaque]
pub open spec fn uniform(terms: Seq<Seq<Seq<int>>>, len: nat, m: int) -> bool {
    &&& two_by_two(terms)
    &&& terms[0][0].len() == len && canonical_seq(terms[0][0], m)
    &&& terms[0][1].len() == len && canonical_seq(terms[0][1], m)
    &&& terms[1][0].len() == len && canonical_seq(terms[1][0], m)
    &&& terms[1][1].len() == len && canonical_seq(terms[1][1], m)
}

/// Each of the four tables of `current` is the table of `terms` at the same place
/// with its leading variables fixed to the coordinates of `points`.
#[verifier::opaque]
pub open spec fn folded_from(
    current: Seq<Seq<Seq<int>>>,
    terms: Seq<Seq<Seq<int>>>,
    points: Seq<int>,
    m: int,
) -> bool {
    &&& current[0][0] == fold_all(terms[0][0], points, m)
    &&& current[0][1] == fold_all(terms[0][1], points, m)
    &&& current[1][0] == fold_all(terms[1][0], points, m)
    &&& current[1][1] == fold_all(terms[1][1], points, m)
}

/// For each corner of the other variables, the constant coefficient of the sum of
/// the two products as a polynomial in the first variable.
pub open spec fn constant_parts(terms: Seq<Seq<Seq<int>>>) -> Seq<int> {
    let half = terms[0][0].len() / 2;
    Seq::new(
        half,
        |x: int| terms[0][0][x] * terms[0][1][x] + terms[1][0][x] * terms[1][1][x],
    )
}

/// For each corner of the other variables, the linear coefficient of the sum of
/// the two products as a polynomial in the first variable.
pub open spec fn linear_parts(terms: Seq<Seq<Seq<int>>>) -> Seq<int> {
    let half = terms[0][0].len() / 2;
    Seq::new(
        half,
        |x: int|
            terms[0][0][x] * (terms[0][1][x + half] - terms[0][1][x]) + (terms[0][0][x + half]
                - terms[0][0][x]) * terms[0][1][x] + terms[1][0][x] * (terms[1][1][x + half]
                - terms[1][1][x]) + (terms[1][0][x + half] - terms[1][0][x]) * terms[1][1][x],
    )
}

/// For each corner of the other variables, the quadratic coefficient of the sum of
/// the two products as a polynomial in the first variable.
pub open spec fn quadratic_parts(terms: Seq<Seq<Seq<int>>>) -> Seq<int> {
    let half = terms[0][0].len() / 2;
    Seq::new(
        half,
        |x: int|
            (terms[0][0][x + half] - terms[0][0][x]) * (terms[0][1][x + half] - terms[0][1][x]) + (
            terms[1][0][x + half] - terms[1][0][x]) * (terms[1][1][x + half] - terms[1][1][x]),
    )
}

/// The round polynomial over the integers: the sum over the other variables, as a
/// polynomial of degree two in the first variable, at `t`.
pub open spec fn round_polynomial(terms: Seq<Seq<Seq<int>>>, t: int) -> int {
    crate::modular::seq_sum(constant_parts(terms)) + t * crate::modular::seq_sum(
        linear_parts(terms),
    ) + t * t * crate::modular::seq_sum(quadratic_parts(terms))
}

/// Fixing the first variable keeps the shape of the polynomial and halves its
/// tables.
pub proof fn lemma_fold_terms_uniform(terms: Seq<Seq<Seq<int>>>, len: nat, t: int, m: int)
    requires
        m > 0,
        uniform(terms, len, m),
    ensures
        uniform(fold_terms(terms, t, m), len / 2, m),
{
    reveal(uniform);
    crate::hypercube::lemma_fold_shape(terms[0][0], t, m);
    crate::hypercube::lemma_fold_shape(terms[0][1], t, m);
    crate::hypercube::lemma_fold_shape(terms[1][0], t, m);
    crate::hypercube::lemma_fold_shape(terms[1][1], t, m);
}

/// The sum over the hypercube with the first variable fixed to `t` is the value of
/// the round polynomial at `t`.
pub proof fn lemma_round_polynomial(terms: Seq<Seq<Seq<int>>>, len: nat, t: int, m: int)
    requires
        m > 0,
        len % 2 == 0,
        uniform(terms, len, m),
    ensures
        congruent(hypercube_sum(fold_terms(terms, t, m), m), round_polynomial(terms, t), m),
{
    reveal(uniform);
    reveal(hypercube_sum);
    let half = (len / 2) as int;
    let a = terms[0][0];
    let b = terms[0][1];
    let c = terms[1][0];
    let d = terms[1][1];
    assert(a.len() == len && b.len() == len && c.len() == len && d.len() == len);
    let folded = fold_terms(terms, t, m);
    lemma_fold_terms_uniform(terms, len, t, m);
    let table = sum_table(folded, m);
    let alpha = constant_parts(terms);
    let beta = linear_parts(terms);
    let gamma = quadratic_parts(terms);
    let scaled_beta = Seq::new(half as nat, |x: int| t * beta[x]);
    let scaled_gamma = Seq::new(half as nat, |x: int| (t * t) * gamma[x]);
    let upper = Seq::new(half as nat, |x: int| scaled_beta[x] + scaled_gamma[x]);
    let exact = Seq::new(half as nat, |x: int| alpha[x] + upper[x]);
    assert(folded[0][0].len() == half && folded[0][1].len() == half && folded[1][0].len() == half
        && folded[1][1].len() == half);
    assert(table.len() == half);
    assert forall|x: int| 0 <= x < half implies congruent(#[trigger] table[x], exact[x], m) by {
        let la = a[x];
        let da = a[x + half] - a[x];
        let lb = b[x];
        let db = b[x + half] - b[x];
        let lc = c[x];
        let dc = c[x + half] - c[x];
        let ld = d[x];
        let dd = d[x + half] - d[x];
        crate::modular::lemma_line_congruent(a[x], a[x + half], t, m);
        crate::modular::lemma_line_congruent(b[x], b[x + half], t, m);
        crate::modular::lemma_line_congruent(c[x], c[x + half], t, m);
        crate::modular::lemma_line_congruent(d[x], d[x + half], t, m);
        let fa = folded[0][0][x];
        let fb = folded[0][1][x];
        let fc = folded[1][0][x];
        let fd = folded[1][1][x];
        lemma_congruent_mul(fa, la + t * da, fb, lb + t * db, m);
        lemma_congruent_mul(fc, lc + t * dc, fd, ld + t * dd, m);
        lemma_reduce_congruent(fa * fb, m);
        lemma_reduce_congruent(fc * fd, m);
        lemma_congruent_add(
            mul_mod(fa, fb, m),
            (la + t * da) * (lb + t * db),
            mul_mod(fc, fd, m),
            (lc + t * dc) * (ld + t * dd),
            m,
        );
        lemma_reduce_congruent(mul_mod(fa, fb, m) + mul_mod(fc, fd, m), m);
        lemma_expand_lines(la, da, lb, db, t);
        lemma_expand_lines(lc, dc, ld, dd, t);
        assert(t * (la * db + da * lb) + t * (lc * dd + dc * ld) == t * (la * db + da * lb + lc
            * dd + dc * ld)) by (nonlinear_arith);
        assert((t * t) * (da * db) + (t * t) * (dc * dd) == (t * t) * (da * db + dc * dd))
            by (nonlinear_arith);
    }
    crate::modular::lemma_seq_sum_congruent(table, exact, m);
    crate::modular::lemma_seq_sum_scale(beta, t, scaled_beta);
    crate::modular::lemma_seq_sum_scale(gamma, t * t, scaled_gamma);
    crate::modular::lemma_seq_sum_pointwise_add(scaled_beta, scaled_gamma, upper);
    crate::modular::lemma_seq_sum_pointwise_add(alpha, upper, exact);
    lemma_reduce_congruent(crate::modular::seq_sum(table), m);
}

/// The sum over the hypercube is the sum of the values of the round polynomial at
/// 0 and at 1.
pub proof fn lemma_sum_splits(terms: Seq<Seq<Seq<int>>>, len: nat, m: int)
    requires
        m > 0,
        len % 2 == 0,
        uniform(terms, len, m),
    ensures
        congruent(
            hypercube_sum(terms, m),
            round_polynomial(terms, 0) + round_polynomial(terms, 1),
            m,
        ),
{
    reveal(uniform);
    reveal(hypercube_sum);
    let half = (len / 2) as int;
    let a = terms[0][0];
    let b = terms[0][1];
    let c = terms[1][0];
    let d = terms[1][1];
    assert(a.len() == len && b.len() == len && c.len() == len && d.len() == len);
    let table = sum_table(terms, m);
    let alpha = constant_parts(terms);
    let beta = linear_parts(terms);
    let gamma = quadratic_parts(terms);
    let exact = Seq::new(len, |x: int| a[x] * b[x] + c[x] * d[x]);
    assert(table.len() == len);
    assert forall|x: int| 0 <= x < len implies congruent(#[trigger] table[x], exact[x], m) by {
        lemma_reduce_congruent(a[x] * b[x], m);
        lemma_reduce_congruent(c[x] * d[x], m);
        lemma_congruent_add(
            mul_mod(a[x], b[x], m),
            a[x] * b[x],
            mul_mod(c[x], d[x], m),
            c[x] * d[x],
            m,
        );
        lemma_reduce_congruent(mul_mod(a[x], b[x], m) + mul_mod(c[x], d[x], m), m);
    }
    crate::modular::lemma_seq_sum_congruent(table, exact, m);
    let low = exact.subrange(0, half);
    let high = exact.subrange(half, len as int);
    assert(exact =~= low + high);
    crate::modular::lemma_seq_sum_concat(low, high);
    assert(low =~= alpha);
    let rest = Seq::new(half as nat, |x: int| beta[x] + gamma[x]);
    crate::modular::lemma_seq_sum_pointwise_add(beta, gamma, rest);
    assert forall|x: int| 0 <= x < half implies #[trigger] high[x] == alpha[x] + rest[x] by {
        let la = a[x];
        let da = a[x + half] - a[x];
        let lb = b[x];
        let db = b[x + half] - b[x];
        let lc = c[x];
        let dc = c[x + half] - c[x];
        let ld = d[x];
        let dd = d[x + half] - d[x];
        assert(high[x] == exact[x + half]);
        assert((la + da) * (lb + db) == la * lb + (la * db + da * lb) + da * db)
            by (nonlinear_arith);
        assert((lc + dc) * (ld + dd) == lc * ld + (lc * dd + dc * ld) + dc * dd)
            by (nonlinear_arith);
    }
    crate::modular::lemma_seq_sum_pointwise_add(alpha, rest, high);
    lemma_reduce_congruent(crate::modular::seq_sum(table), m);
    let sa = crate::modular::seq_sum(alpha);
    let sb = crate::modular::seq_sum(beta);
    let sc = crate::modular::seq_sum(gamma);
    assert(round_polynomial(terms, 0) + round_polynomial(terms, 1) == sa + (sa + (sb + sc)))
        by (nonlinear_arith)
        requires
            round_polynomial(terms, 0) == sa + 0 * sb + 0 * 0 * sc,
            round_polynomial(terms, 1) == sa + 1 * sb + 1 * 1 * sc,
    ;
}

/// In a field of odd order the inverse of 2 is half of the order plus one.
pub proof fn lemma_half(m: int)
    requires
        m >= 3,
        m % 2 == 1,
    ensures
        inverse_mod(2, m) == (m + 1) / 2,
        mul_mod(2, inverse_mod(2, m), m) == 1,
        0 <= inverse_mod(2, m) < m,
{
    let half = (m + 1) / 2;
    assert(2 * half == m + 1);
    vstd::arithmetic::div_mod::lemma_mod_add_multiples_vanish(1, m);
    lemma_canonical(1, m);
    lemma_inverse_unique(2, half, half, m);
}

/// The polynomial through three values of a polynomial of degree two is that
/// polynomial: interpolating the values at 0, 1 and 2 gives its value anywhere.
pub proof fn lemma_quadratic_interpolation(
    e0: int,
    e1: int,
    e2: int,
    ca: int,
    cb: int,
    cc: int,
    x: int,
    m: int,
)
    requires
        m >= 3,
        m % 2 == 1,
        congruent(e0, ca, m),
        congruent(e1, ca + cb + cc, m),
        congruent(e2, ca + 2 * cb + 4 * cc, m),
    ensures
        congruent(quadratic_mod(e0, e1, e2, x, m), ca + x * cb + x * x * cc, m),
{
    reveal(quadratic_mod);
    lemma_half(m);
    let half = inverse_mod(2, m);
    let w0 = (x - 1) * (x - 2) * half;
    let w1 = x * (2 - x);
    let w2 = x * (x - 1) * half;
    let q1 = ca + cb + cc;
    let q2 = ca + 2 * cb + 4 * cc;
    lemma_congruent_mul(e0, ca, w0, w0, m);
    lemma_congruent_mul(e1, q1, w1, w1, m);
    lemma_congruent_mul(e2, q2, w2, w2, m);
    lemma_congruent_add(e0 * w0, ca * w0, e1 * w1, q1 * w1, m);
    lemma_congruent_add(e0 * w0 + e1 * w1, ca * w0 + q1 * w1, e2 * w2, q2 * w2, m);
    lemma_reduce_congruent(e0 * w0 + e1 * w1 + e2 * w2, m);
    // What is left of the target once the middle summand is taken away.
    let target = ca + x * cb + x * x * cc;
    let rest = target - q1 * w1;
    let square = x * x;
    let u = (x - 1) * (x - 2);
    let v = x * (x - 1);
    assert(u == square - 3 * x + 2) by (nonlinear_arith)
        requires
            u == (x - 1) * (x - 2),
            square == x * x,
    ;
    assert(v == square - x) by (nonlinear_arith)
        requires
            v == x * (x - 1),
            square == x * x,
    ;
    assert(w1 == 2 * x - square) by (nonlinear_arith)
        requires
            w1 == x * (2 - x),
            square == x * x,
    ;
    assert(ca * u == ca * square - 3 * (ca * x) + 2 * ca) by (nonlinear_arith)
        requires
            u == square - 3 * x + 2,
    ;
    assert(q2 * v == ca * square + 2 * (cb * square) + 4 * (cc * square) - ca * x - 2 * (cb * x)
        - 4 * (cc * x)) by (nonlinear_arith)
        requires
            v == square - x,
            q2 == ca + 2 * cb + 4 * cc,
    ;
    assert(q1 * w1 == 2 * (ca * x) + 2 * (cb * x) + 2 * (cc * x) - ca * square - cb * square - cc
        * square) by (nonlinear_arith)
        requires
            w1 == 2 * x - square,
            q1 == ca + cb + cc,
    ;
    assert(x * cb == cb * x && x * x * cc == cc * square) by (nonlinear_arith)
        requires
            square == x * x,
    ;
    assert(ca * u + q2 * v == 2 * rest);
    assert(ca * w0 == half * (ca * u)) by (nonlinear_arith)
        requires
            w0 == u * half,
    ;
    assert(q2 * w2 == half * (q2 * v)) by (nonlinear_arith)
        requires
            w2 == v * half,
    ;
    assert(half * (ca * u) + half * (q2 * v) == half * (ca * u + q2 * v)) by (nonlinear_arith);
    assert(half * (2 * rest) == (half * 2) * rest) by (nonlinear_arith);
    assert(ca * w0 + q2 * w2 == (half * 2) * rest);
    assert(half * 2 == 2 * half) by (nonlinear_arith);
    lemma_canonical(1, m);
    lemma_congruent_mul(half * 2, 1, rest, rest, m);
    assert(1 * rest == rest);
    lemma_congruent_add((half * 2) * rest, rest, q1 * w1, q1 * w1, m);
    assert(ca * w0 + q1 * w1 + q2 * w2 == (half * 2) * rest + q1 * w1);
}

/// A polynomial whose four tables have one entry each adds up to its value at any
/// point that its tables were folded down with.
pub proof fn lemma_last_claim(
    terms: Seq<Seq<Seq<int>>>,
    start_terms: Seq<Seq<Seq<int>>>,
    points: Seq<int>,
    m: int,
)
    requires
        m > 0,
        uniform(terms, 1, m),
        uniform(start_terms, pow2(points.len()), m),
        folded_from(terms, start_terms, points, m),
    ensures
        hypercube_sum(terms, m) == sum_value(start_terms, points, m),
{
    reveal(uniform);
    reveal(hypercube_sum);
    reveal(folded_from);
    let a = terms[0][0][0];
    let b = terms[0][1][0];
    let c = terms[1][0][0];
    let d = terms[1][1][0];
    crate::hypercube::lemma_fold_all_is_extension(start_terms[0][0], points, m);
    crate::hypercube::lemma_fold_all_is_extension(start_terms[0][1], points, m);
    crate::hypercube::lemma_fold_all_is_extension(start_terms[1][0], points, m);
    crate::hypercube::lemma_fold_all_is_extension(start_terms[1][1], points, m);
    let table = sum_table(terms, m);
    assert(terms[0][0].len() == 1 && terms[0][1].len() == 1 && terms[1][0].len() == 1
        && terms[1][1].len() == 1);
    assert(table.len() == 1);
    crate::modular::lemma_seq_sum_single(table);
    lemma_reduce_congruent(mul_mod(a, b, m) + mul_mod(c, d, m), m);
    lemma_canonical(table[0], m);
    // The value of the polynomial at the point, unfolded.
    let values = crate::sum_poly::term_values(start_terms, points, m);
    let first = crate::sum_poly::factor_values(start_terms[0], points, m);
    let second = crate::sum_poly::factor_values(start_terms[1], points, m);
    assert(first.len() == 2 && second.len() == 2 && values.len() == 2);
    assert(first[0] == a && first[1] == b && second[0] == c && second[1] == d);
    lemma_product_of_two(first);
    lemma_product_of_two(second);
    lemma_sum_of_two(values);
}

/// A sequence of two entries multiplies out to their product.
pub proof fn lemma_product_of_two(s: Seq<int>)
    requires
        s.len() == 2,
    ensures
        crate::sum_poly::seq_product(s) == s[0] * s[1],
{
    let front = s.drop_last();
    assert(front.drop_last().len() == 0);
    assert(crate::sum_poly::seq_product(front) == crate::sum_poly::seq_product(front.drop_last())
        * front.last());
    assert(crate::sum_poly::seq_product(s) == crate::sum_poly::seq_product(front) * s.last());
    assert(1 * s[0] * s[1] == s[0] * s[1]) by (nonlinear_arith);
}

/// A sequence of two entries adds up to their sum.
pub proof fn lemma_sum_of_two(s: Seq<int>)
    requires
        s.len() == 2,
    ensures
        crate::modular::seq_sum(s) == s[0] + s[1],
{
    let front = s.drop_last();
    crate::modular::lemma_seq_sum_single(front);
    assert(crate::modular::seq_sum(s) == crate::modular::seq_sum(front) + s.last());
}

/// The product of two lines in `t`, multiplied out.
pub proof fn lemma_expand_lines(p: int, dp: int, q: int, dq: int, t: int)
    ensures
        (p + t * dp) * (q + t * dq) == p * q + t * (p * dq + dp * q) + (t * t) * (dp * dq),
{
    let tp = t * dp;
    let tq = t * dq;
    assert((p + tp) * (q + tq) == p * q + p * tq + tp * q + tp * tq) by (nonlinear_arith);
    assert(p * tq == t * (p * dq)) by (nonlinear_arith)
        requires
            tq == t * dq,
    ;
    assert(tp * q == t * (dp * q)) by (nonlinear_arith)
        requires
            tp == t * dp,
    ;
    assert(tp * tq == (t * t) * (dp * dq)) by (nonlinear_arith)
        requires
            tp == t * dp,
            tq == t * dq,
    ;
    assert(t * (p * dq) + t * (dp * q) == t * (p * dq + dp * q)) by (nonlinear_arith);
}

/// An honest prover and the verifier that reads its messages agree before every
/// round.
pub proof fn lemma_honest_round<K: HashTrait, F: FiniteField>(
    terms: Seq<Seq<Seq<int>>>,
    num_vars: nat,
    round: nat,
)
    requires
        F::modulus() % 2 == 1,
        uniform(terms, pow2(num_vars), F::modulus()),
        round <= num_vars,
    ensures
        honest_at::<K, F>(terms, num_vars, round),
    decreases round,
{
    let m = F::modulus();
    let width = F::encoded_len();
    let claimed_sum = hypercube_sum(terms, m);
    let start = opening(claimed_sum, terms, width);
    let messages = prover_messages::<K, F>(start, terms, num_vars);
    let points = derive_challenges::<K, F>(start, messages);
    F::lemma_modulus();
    if round == 0 {
        assert(folded_from(terms, terms, points.take(0), m)) by {
            reveal(folded_from);
            assert(points.take(0).len() == 0);
        }
    } else {
        let before = (round - 1) as nat;
        lemma_honest_round::<K, F>(terms, num_vars, before);
        let state = prover_state::<K, F>(start, terms, before);
        let previous = state.1;
        let message = round_message(previous, m);
        let with_message = state.0 + encode(message, width);
        let point = challenge::<K, F>(with_message);
        let current = fold_terms(previous, point, m);
        let len = pow2((num_vars - before) as nat);
        assert(prover_state::<K, F>(start, terms, round) == (
            after_squeeze::<K>(with_message),
            current,
        ));
        assert(messages[before as int] == message);
        assert(verifier_state::<K>(start, messages, width, round) == after_squeeze::<K>(
            verifier_state::<K>(start, messages, width, before) + encode(
                messages[before as int],
                width,
            ),
        ));
        assert(points[before as int] == point);
        assert(uniform(current, pow2((num_vars - round) as nat), m)) by {
            vstd::arithmetic::power2::lemma_pow2_unfold((num_vars - before) as nat);
            lemma_fold_terms_uniform(previous, len, point, m);
        }
        assert(folded_from(current, terms, points.take(round as int), m)) by {
            assert(points.take(round as int) =~= points.take(before as int).push(point));
            lemma_uniform_shape(previous, len, m);
            lemma_fold_terms_from(previous, terms, points.take(before as int), point, m);
        }
        assert(quadratic_mod(message[0], message[1], message[2], point, m) == hypercube_sum(
            current,
            m,
        )) by {
            vstd::arithmetic::power2::lemma_pow2_unfold((num_vars - before) as nat);
            lemma_round_step(previous, len, point, m);
        }
        assert(claim_before(claimed_sum, messages, points, round as int, m) == quadratic_mod(
            message[0],
            message[1],
            message[2],
            point,
            m,
        ));
    }
}

/// Before round `round` the verifier that reads the messages of an honest prover
/// stands where the prover stands: the transcripts have absorbed the same bytes,
/// the prover's tables are those of the polynomial with its leading variables
/// fixed to the verifier's challenges, and the claim of the round is the sum of
/// what is left.
pub open spec fn honest_at<K: HashTrait, F: FiniteField>(
    terms: Seq<Seq<Seq<int>>>,
    num_vars: nat,
    round: nat,
) -> bool {
    let m = F::modulus();
    let claimed_sum = hypercube_sum(terms, m);
    let start = opening(claimed_sum, terms, F::encoded_len());
    let messages = prover_messages::<K, F>(start, terms, num_vars);
    let points = derive_challenges::<K, F>(start, messages);
    let state = prover_state::<K, F>(start, terms, round);
    &&& verifier_state::<K>(start, messages, F::encoded_len(), round) == state.0
    &&& uniform(state.1, pow2((num_vars - round) as nat), m)
    &&& folded_from(state.1, terms, points.take(round as int), m)
    &&& claim_before(claimed_sum, messages, points, round as int, m) == hypercube_sum(state.1, m)
}

/// Fixing one more variable of tables that were folded down from `terms` gives
/// the tables of `terms` folded down with one more coordinate.
pub proof fn lemma_fold_terms_from(
    previous: Seq<Seq<Seq<int>>>,
    terms: Seq<Seq<Seq<int>>>,
    earlier: Seq<int>,
    point: int,
    m: int,
)
    requires
        two_by_two(previous),
        folded_from(previous, terms, earlier, m),
    ensures
        folded_from(fold_terms(previous, point, m), terms, earlier.push(point), m),
{
    reveal(folded_from);
    crate::hypercube::lemma_fold_all_push(terms[0][0], earlier, point, m);
    crate::hypercube::lemma_fold_all_push(terms[0][1], earlier, point, m);
    crate::hypercube::lemma_fold_all_push(terms[1][0], earlier, point, m);
    crate::hypercube::lemma_fold_all_push(terms[1][1], earlier, point, m);
}

/// The value at a challenge of the polynomial through the three entries of an
/// honest message is the sum of what is left after the first variable is fixed to
/// the challenge.
pub proof fn lemma_round_step(previous: Seq<Seq<Seq<int>>>, len: nat, point: int, m: int)
    requires
        m >= 3,
        m % 2 == 1,
        len % 2 == 0,
        uniform(previous, len, m),
    ensures
        ({
            let message = round_message(previous, m);
            quadratic_mod(message[0], message[1], message[2], point, m) == hypercube_sum(
                fold_terms(previous, point, m),
                m,
            )
        }),
{
    reveal(hypercube_sum);
    let current = fold_terms(previous, point, m);
    lemma_canonical(2, m);
    lemma_round_polynomial(previous, len, 0, m);
    lemma_round_polynomial(previous, len, 1, m);
    lemma_round_polynomial(previous, len, 2, m);
    lemma_round_polynomial(previous, len, point, m);
    let ca = crate::modular::seq_sum(constant_parts(previous));
    let cb = crate::modular::seq_sum(linear_parts(previous));
    let cc = crate::modular::seq_sum(quadratic_parts(previous));
    assert(round_polynomial(previous, 0) == ca) by (nonlinear_arith)
        requires
            round_polynomial(previous, 0) == ca + 0 * cb + 0 * 0 * cc,
    ;
    assert(round_polynomial(previous, 1) == ca + cb + cc) by (nonlinear_arith)
        requires
            round_polynomial(previous, 1) == ca + 1 * cb + 1 * 1 * cc,
    ;
    assert(round_polynomial(previous, 2) == ca + 2 * cb + 4 * cc) by (nonlinear_arith)
        requires
            round_polynomial(previous, 2) == ca + 2 * cb + 2 * 2 * cc,
    ;
    let message = round_message(previous, m);
    lemma_quadratic_interpolation(message[0], message[1], message[2], ca, cb, cc, point, m);
    lemma_reduce_congruent(crate::modular::seq_sum(sum_table(current, m)), m);
    lemma_canonical(hypercube_sum(current, m), m);
    lemma_quadratic_canonical(message[0], message[1], message[2], point, m);
    lemma_canonical(quadratic_mod(message[0], message[1], message[2], point, m), m);
}

/// Completeness: the verifier accepts the sum and the messages of an honest
/// prover, for every sum of two products of two factors over a field of odd order
/// and for every hash function.
pub proof fn lemma_sumcheck_complete<K: HashTrait, F: FiniteField>(
    terms: Seq<Seq<Seq<int>>>,
    num_vars: nat,
)
    requires
        F::modulus() % 2 == 1,
        uniform(terms, pow2(num_vars), F::modulus()),
    ensures
        ({
            let m = F::modulus();
            let claimed_sum = hypercube_sum(terms, m);
            let start = opening(claimed_sum, terms, F::encoded_len());
            let messages = prover_messages::<K, F>(start, terms, num_vars);
            accepts(
                claimed_sum,
                messages,
                derive_challenges::<K, F>(start, messages),
                terms,
                num_vars,
                m,
            )
        }),
{
    let m = F::modulus();
    let claimed_sum = hypercube_sum(terms, m);
    let start = opening(claimed_sum, terms, F::encoded_len());
    let messages = prover_messages::<K, F>(start, terms, num_vars);
    let points = derive_challenges::<K, F>(start, messages);
    F::lemma_modulus();
    assert forall|i: int| 0 <= i < messages.len() implies #[trigger] round_consistent(
        claimed_sum,
        messages,
        points,
        i,
        m,
    ) by {
        lemma_honest_round::<K, F>(terms, num_vars, i as nat);
        let current = prover_state::<K, F>(start, terms, i as nat).1;
        let len = pow2((num_vars - i) as nat);
        vstd::arithmetic::power2::lemma_pow2_unfold((num_vars - i) as nat);
        lemma_sum_splits(current, len, m);
        lemma_round_polynomial(current, len, 0, m);
        lemma_round_polynomial(current, len, 1, m);
        let message = round_message(current, m);
        lemma_congruent_add(
            message[0],
            round_polynomial(current, 0),
            message[1],
            round_polynomial(current, 1),
            m,
        );
        lemma_hypercube_sum_canonical(current, m);
        lemma_canonical(hypercube_sum(current, m), m);
    }
    lemma_honest_round::<K, F>(terms, num_vars, num_vars);
    let last = prover_state::<K, F>(start, terms, num_vars).1;
    vstd::arithmetic::power2::lemma2_to64();
    assert(points.take(num_vars as int) =~= points);
    lemma_last_claim(last, terms, points, m);
}

/// Soundness against tampering with the values at 0 and at 1: if one of the first
/// two entries of one message of an accepted proof is replaced by another field
/// element, the verifier rejects, whatever the hash function gives for the
/// changed proof.
pub proof fn lemma_tampered_proof_rejected<K: HashTrait, F: FiniteField>(
    claimed_sum: int,
    terms: Seq<Seq<Seq<int>>>,
    num_vars: nat,
    proof: Seq<Seq<int>>,
    round: int,
    entry: int,
    replacement: int,
)
    requires
        accepts(
            claimed_sum,
            proof,
            derive_challenges::<K, F>(opening(claimed_sum, terms, F::encoded_len()), proof),
            terms,
            num_vars,
            F::modulus(),
        ),
        0 <= round < proof.len(),
        0 <= entry < 2,
        0 <= proof[round][entry] < F::modulus(),
        0 <= replacement < F::modulus(),
        replacement != proof[round][entry],
    ensures
        ({
            let tampered = proof.update(round, proof[round].update(entry, replacement));
            !accepts(
                claimed_sum,
                tampered,
                derive_challenges::<K, F>(opening(claimed_sum, terms, F::encoded_len()), tampered),
                terms,
                num_vars,
                F::modulus(),
            )
        }),
{
    let m = F::modulus();
    let start = opening(claimed_sum, terms, F::encoded_len());
    let tampered = proof.update(round, proof[round].update(entry, replacement));
    let points = derive_challenges::<K, F>(start, proof);
    let tampered_points = derive_challenges::<K, F>(start, tampered);
    assert(round_consistent(claimed_sum, proof, points, round, m));
    if round > 0 {
        crate::sumcheck_implementation::lemma_verifier_state_prefix::<K>(
            start,
            proof,
            tampered,
            F::encoded_len(),
            (round - 1) as nat,
        );
        assert(tampered[round - 1] == proof[round - 1]);
        assert(tampered_points[round - 1] == points[round - 1]);
    }
    let kept = proof[round][1 - entry];
    if round_consistent(claimed_sum, tampered, tampered_points, round, m) {
        if entry == 0 {
            crate::modular::lemma_add_mod_cancel(replacement, proof[round][0], kept, m);
        } else {
            assert(add_mod(kept, replacement, m) == add_mod(replacement, kept, m));
            assert(add_mod(kept, proof[round][1], m) == add_mod(proof[round][1], kept, m));
            crate::modular::lemma_add_mod_cancel(replacement, proof[round][1], kept, m);
        }
    }
}

/// The interpolated value is a canonical residue.
pub proof fn lemma_quadratic_canonical(e0: int, e1: int, e2: int, x: int, m: int)
    requires
        m > 0,
    ensures
        0 <= quadratic_mod(e0, e1, e2, x, m) < m,
{
    reveal(quadratic_mod);
    let half = inverse_mod(2, m);
    lemma_reduce_congruent(
        e0 * ((x - 1) * (x - 2) * half) + e1 * (x * (2 - x)) + e2 * (x * (x - 1) * half),
        m,
    );
}

/// A polynomial of uniform shape is a sum of two products of two factors.
pub proof fn lemma_uniform_shape(terms: Seq<Seq<Seq<int>>>, len: nat, m: int)
    requires
        uniform(terms, len, m),
    ensures
        two_by_two(terms),
{
    reveal(uniform);
}

/// The sum over the hypercube is a canonical residue.
pub proof fn lemma_hypercube_sum_canonical(terms: Seq<Seq<Seq<int>>>, m: int)
    requires
        m > 0,
    ensures
        0 <= hypercube_sum(terms, m) < m,
{
    reveal(hypercube_sum);
    lemma_reduce_congruent(crate::modular::seq_sum(sum_table(terms, m)), m);
}

} // verus!
