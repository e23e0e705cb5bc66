//! The sumcheck protocol for a multilinear polynomial, made non-interactive with a
//! Fiat-Shamir transcript.
//!
//! The prover claims the sum of a table over the hypercube and sends, for each
//! variable in turn, the two sums of the current table with that variable at 0 and
//! at 1. After each message both sides draw a challenge from the transcript and the
//! prover fixes the variable to it. The verifier checks each message against the
//! claim left by the one before, and the last claim against the polynomial itself.
use crate::field::{be_bytes, canonical_seq, residues, table_residues, FiniteField};
use crate::hypercube::{fold, fold_all, multilinear_extension};
use crate::modular::{add_mod, line_mod, sum_mod};
use crate::multilinear_polynomial::MultilinearPoly;
use crate::transcript::{after_squeeze, challenge, HashTrait, Transcript};
use vstd::arithmetic::power2::pow2;
use vstd::prelude::*;

verus! {

pub type Polynomial<F> = MultilinearPoly<F>;

/// Why a proof was not accepted.
#[derive(Clone, Copy, Debug, PartialEq, Eq)]
pub enum VerificationError {
    /// The proof has not one message for each variable, or a message has not two
    /// entries, or its entries do not add up to the claim that it answers.
    InvalidRoundMessage,
    /// The claim left by the last round is not the value of the polynomial at the
    /// challenges.
    FinalCheckFailed,
}

/// The canonical encodings of `values`, each `width` bytes long, one after the
/// other.
pub open spec fn encode(values: Seq<int>, width: nat) -> Seq<u8>
    decreases values.len(),
{
    if values.len() == 0 {
        Seq::empty()
    } else {
        encode(values.drop_last(), width) + be_bytes(values.last() as nat, width)
    }
}

/// What both sides absorb before the first round: the claimed sum, then the table
/// of the polynomial.
pub open spec fn opening(claimed_sum: int, table: Seq<int>, width: nat) -> Seq<u8> {
    be_bytes(claimed_sum as nat, width) + encode(table, width)
}

/// The message of a round: the sum of the table with its first variable at 0, and
/// the sum with it at 1.
pub open spec fn round_message(table: Seq<int>, m: int) -> Seq<int> {
    seq![sum_mod(fold(table, 0, m), m), sum_mod(fold(table, 1, m), m)]
}

/// The prover before round `round`: what its transcript has absorbed, and the
/// table that is left after the variables of the earlier rounds were fixed to
/// their challenges.
pub open spec fn prover_state<K: HashTrait, F: FiniteField>(
    start: Seq<u8>,
    table: Seq<int>,
    round: nat,
) -> (Seq<u8>, Seq<int>)
    decreases round,
{
    if round == 0 {
        (start, table)
    } else {
        let (absorbed, current) = prover_state::<K, F>(start, table, (round - 1) as nat);
        let with_message = absorbed + encode(
            round_message(current, F::modulus()),
            F::encoded_len(),
        );
        (
            after_squeeze::<K>(with_message),
            fold(current, challenge::<K, F>(with_message), F::modulus()),
        )
    }
}

/// The messages of an honest prover for `rounds` rounds.
pub open spec fn prover_messages<K: HashTrait, F: FiniteField>(
    start: Seq<u8>,
    table: Seq<int>,
    rounds: nat,
) -> Seq<Seq<int>> {
    Seq::new(
        rounds,
        |i: int| round_message(prover_state::<K, F>(start, table, i as nat).1, F::modulus()),
    )
}

/// What the verifier's transcript has absorbed before round `round` of `proof`.
pub open spec fn verifier_state<K: HashTrait>(
    start: Seq<u8>,
    proof: Seq<Seq<int>>,
    width: nat,
    round: nat,
) -> Seq<u8>
    decreases round,
{
    if round == 0 {
        start
    } else {
        after_squeeze::<K>(
            verifier_state::<K>(start, proof, width, (round - 1) as nat) + encode(
                proof[round - 1],
                width,
            ),
        )
    }
}

/// The challenges that the verifier draws, one after each message of `proof`.
pub open spec fn derive_challenges<K: HashTrait, F: FiniteField>(
    start: Seq<u8>,
    proof: Seq<Seq<int>>,
) -> Seq<int> {
    Seq::new(
        proof.len(),
        |i: int|
            challenge::<K, F>(
                verifier_state::<K>(start, proof, F::encoded_len(), i as nat) + encode(
                    proof[i],
                    F::encoded_len(),
                ),
            ),
    )
}

/// The claim that round `round` has to answer: the claimed sum in the first round,
/// and afterwards the value at the last challenge of the line through the two
/// entries of the message before.
pub open spec fn claim_before(
    claimed_sum: int,
    proof: Seq<Seq<int>>,
    challenges: Seq<int>,
    round: int,
    m: int,
) -> int {
    if round == 0 {
        claimed_sum
    } else {
        line_mod(proof[round - 1][0], proof[round - 1][1], challenges[round - 1], m)
    }
}

/// Round `round` of `proof` has two entries and they add up to the claim that the
/// round answers.
pub open spec fn round_consistent(
    claimed_sum: int,
    proof: Seq<Seq<int>>,
    challenges: Seq<int>,
    round: int,
    m: int,
) -> bool {
    &&& proof[round].len() == 2
    &&& claim_before(claimed_sum, proof, challenges, round, m) == add_mod(
        proof[round][0],
        proof[round][1],
        m,
    )
}

/// The proof has one message for each variable and every round is consistent.
pub open spec fn rounds_consistent(
    claimed_sum: int,
    proof: Seq<Seq<int>>,
    challenges: Seq<int>,
    num_vars: nat,
    m: int,
) -> bool {
    &&& proof.len() == num_vars
    &&& forall|i: int|
        0 <= i < proof.len() ==> #[trigger] round_consistent(claimed_sum, proof, challenges, i, m)
}

/// The verifier accepts: every round is consistent, and the claim left by the last
/// round is the value of the polynomial at the challenges.
pub open spec fn accepts(
    claimed_sum: int,
    proof: Seq<Seq<int>>,
    challenges: Seq<int>,
    table: Seq<int>,
    num_vars: nat,
    m: int,
) -> bool {
    &&& rounds_consistent(claimed_sum, proof, challenges, num_vars, m)
    &&& claim_before(claimed_sum, proof, challenges, proof.len() as int, m)
        == multilinear_extension(table, challenges, m)
}

/// The sum of the given field elements.
pub fn sum_elements<F: FiniteField>(values: &Vec<F>) -> (r: F)
    ensures
        r.value() == sum_mod(residues(values@), F::modulus()),
{
    let ghost s = residues(values@);
    let ghost m = F::modulus();
    let mut total = F::zero();
    let mut i: usize = 0;
    proof {
        F::lemma_modulus();
        assert(s.take(0).len() == 0);
    }
    while i < values.len()
        invariant
            i <= values@.len(),
            s == residues(values@),
            m == F::modulus(),
            m >= 2,
            crate::modular::congruent(total.value(), crate::modular::seq_sum(s.take(i as int)), m),
        decreases values.len() - i,
    {
        let ghost before = total.value();
        total = total.add(&values[i]);
        proof {
            assert(s.take(i + 1).drop_last() =~= s.take(i as int));
            assert(s.take(i + 1).last() == values@[i as int].value());
            crate::modular::lemma_congruent_add(
                before,
                crate::modular::seq_sum(s.take(i as int)),
                values@[i as int].value(),
                values@[i as int].value(),
                m,
            );
            crate::modular::lemma_reduce_congruent(before + values@[i as int].value(), m);
        }
        i += 1;
    }
    proof {
        assert(s.take(i as int) =~= s);
        F::lemma_value_bound(total);
        crate::modular::lemma_canonical(total.value(), m);
    }
    total
}

/// The canonical encodings of `values`, one after the other.
pub fn to_bytes<F: FiniteField>(values: &Vec<F>) -> (r: Vec<u8>)
    ensures
        r@ == encode(residues(values@), F::encoded_len()),
{
    let ghost s = residues(values@);
    let mut result: Vec<u8> = Vec::new();
    let mut i: usize = 0;
    proof {
        assert(s.take(0).len() == 0);
    }
    while i < values.len()
        invariant
            i <= values@.len(),
            s == residues(values@),
            result@ == encode(s.take(i as int), F::encoded_len()),
        decreases values.len() - i,
    {
        let mut bytes = values[i].to_bytes_be();
        result.append(&mut bytes);
        proof {
            assert(s.take(i + 1).drop_last() =~= s.take(i as int));
            assert(s.take(i + 1).last() == values@[i as int].value());
        }
        i += 1;
    }
    proof {
        assert(s.take(i as int) =~= s);
    }
    result
}

/// The message of a round for the table of `poly`.
pub fn generate_round_poly<F: FiniteField>(poly: &Polynomial<F>) -> (r: Vec<F>)
    requires
        poly.coefficients@.len() >= 2,
    ensures
        residues(r@) == round_message(poly@, F::modulus()),
{
    let eval_zero = sum_elements(&poly.partial_evaluate((0, F::zero())).coefficients);
    let eval_one = sum_elements(&poly.partial_evaluate((0, F::one())).coefficients);
    let mut message: Vec<F> = Vec::new();
    message.push(eval_zero);
    message.push(eval_one);
    assert(residues(message@) =~= round_message(poly@, F::modulus()));
    message
}

/// The sum of the table of `poly` over the hypercube.
pub fn compute_sum<F: FiniteField>(poly: &MultilinearPoly<F>) -> (r: F)
    ensures
        r.value() == sum_mod(poly@, F::modulus()),
{
    sum_elements(&poly.coefficients)
}

/// Proves the sum of `initial_poly` over the hypercube: returns the sum and one
/// message for each of the `num_vars` variables.
pub fn prover<F: FiniteField, K: HashTrait>(
    initial_poly: Polynomial<F>,
    num_vars: usize,
    hash_function: K,
) -> (r: (F, Vec<Vec<F>>))
    requires
        initial_poly.wf(num_vars as nat),
    ensures
        r.0.value() == sum_mod(initial_poly@, F::modulus()),
        table_residues(r.1@) == prover_messages::<K, F>(
            opening(sum_mod(initial_poly@, F::modulus()), initial_poly@, F::encoded_len()),
            initial_poly@,
            num_vars as nat,
        ),
{
    let claimed_sum: F = compute_sum(&initial_poly);
    let ghost table = initial_poly@;
    let ghost start = opening(claimed_sum.value(), table, F::encoded_len());

    let mut proof: Vec<Vec<F>> = Vec::new();
    let mut transcript = Transcript::init(hash_function);

    transcript.absorb(claimed_sum.to_bytes_be().as_slice());

    transcript.absorb(to_bytes(&initial_poly.coefficients).as_slice());
    proof {
        F::lemma_value_bound(claimed_sum);
        assert(transcript@ =~= start);
    }

    let mut poly = initial_poly;

    let mut round: usize = 0;
    while round < num_vars
        invariant
            round <= num_vars,
            poly.wf((num_vars - round) as nat),
            (transcript@, poly@) == prover_state::<K, F>(start, table, round as nat),
            proof@.len() == round,
            forall|i: int|
                0 <= i < round ==> residues((#[trigger] proof@[i])@) == round_message(
                    prover_state::<K, F>(start, table, i as nat).1,
                    F::modulus(),
                ),
        decreases num_vars - round,
    {
        proof {
            vstd::arithmetic::power2::lemma_pow2_unfold((num_vars - round) as nat);
            vstd::arithmetic::power2::lemma_pow2_pos((num_vars - round - 1) as nat);
        }
        let round_poly = generate_round_poly(&poly);

        transcript.absorb(to_bytes(&round_poly).as_slice());

        proof.push(round_poly);

        let challenge: F = transcript.squeeze();

        poly = poly.partial_evaluate((0, challenge));
        round += 1;
    }
    proof {
        assert(table_residues(proof@) =~= prover_messages::<K, F>(start, table, num_vars as nat));
    }

    (claimed_sum, proof)
}

/// The challenges that a verifier draws for `proof`, one after each message, from
/// a transcript that has absorbed the claimed sum and the polynomial.
pub fn draw_challenges<F: FiniteField, K: HashTrait>(
    claimed_sum: F,
    proof: &Vec<Vec<F>>,
    initial_poly: &Polynomial<F>,
    hash_function: K,
) -> (r: Vec<F>)
    ensures
        r@.len() == proof@.len(),
        residues(r@) == derive_challenges::<K, F>(
            opening(claimed_sum.value(), initial_poly@, F::encoded_len()),
            table_residues(proof@),
        ),
{
    let ghost start = opening(claimed_sum.value(), initial_poly@, F::encoded_len());
    let ghost messages = table_residues(proof@);
    let mut transcript = Transcript::init(hash_function);
    transcript.absorb(claimed_sum.to_bytes_be().as_slice());
    transcript.absorb(to_bytes(&initial_poly.coefficients).as_slice());
    proof {
        F::lemma_value_bound(claimed_sum);
        assert(transcript@ =~= start);
    }

    let mut challenges: Vec<F> = Vec::new();
    let mut i: usize = 0;
    while i < proof.len()
        invariant
            i <= proof@.len(),
            messages == table_residues(proof@),
            transcript@ == verifier_state::<K>(start, messages, F::encoded_len(), i as nat),
            challenges@.len() == i,
            forall|j: int|
                0 <= j < i ==> (#[trigger] challenges@[j]).value() == derive_challenges::<K, F>(
                    start,
                    messages,
                )[j],
        decreases proof.len() - i,
    {
        transcript.absorb(to_bytes(&proof[i]).as_slice());

        let challenge: F = transcript.squeeze();
        challenges.push(challenge);
        i += 1;
    }
    proof {
        assert(residues(challenges@) =~= derive_challenges::<K, F>(start, messages));
    }
    challenges
}

/// Checks the messages of `proof` against the given challenges, and the last claim
/// against the polynomial.
pub fn check_rounds<F: FiniteField>(
    claimed_sum: F,
    proof: &Vec<Vec<F>>,
    challenges: &Vec<F>,
    num_vars: usize,
    initial_poly: &Polynomial<F>,
) -> (r: Result<(), VerificationError>)
    requires
        initial_poly.wf(num_vars as nat),
        challenges@.len() == proof@.len(),
    ensures
        r is Ok <==> accepts(
            claimed_sum.value(),
            table_residues(proof@),
            residues(challenges@),
            initial_poly@,
            num_vars as nat,
            F::modulus(),
        ),
        r == Err::<(), VerificationError>(VerificationError::InvalidRoundMessage)
            <==> !rounds_consistent(
            claimed_sum.value(),
            table_residues(proof@),
            residues(challenges@),
            num_vars as nat,
            F::modulus(),
        ),
{
    let ghost messages = table_residues(proof@);
    let ghost points = residues(challenges@);
    let ghost m = F::modulus();
    if proof.len() != num_vars {
        return Err(VerificationError::InvalidRoundMessage);
    }
    let mut running_claim = claimed_sum;

    let mut i: usize = 0;
    while i < proof.len()
        invariant
            i <= proof@.len(),
            challenges@.len() == proof@.len(),
            messages == table_residues(proof@),
            points == residues(challenges@),
            m == F::modulus(),
            running_claim.value() == claim_before(claimed_sum.value(), messages, points, i as int, m),
            forall|j: int|
                0 <= j < i ==> #[trigger] round_consistent(
                    claimed_sum.value(),
                    messages,
                    points,
                    j,
                    m,
                ),
        decreases proof.len() - i,
    {
        let round_poly = &proof[i];
        if round_poly.len() != 2 {
            assert(!round_consistent(claimed_sum.value(), messages, points, i as int, m));
            return Err(VerificationError::InvalidRoundMessage);
        }
        let sum = round_poly[0].add(&round_poly[1]);
        if !running_claim.equals(&sum) {
            assert(!round_consistent(claimed_sum.value(), messages, points, i as int, m));
            return Err(VerificationError::InvalidRoundMessage);
        }
        let challenge = challenges[i];

        running_claim = round_poly[0].add(&challenge.mul(&round_poly[1].sub(&round_poly[0])));
        i += 1;
    }
    let final_eval = initial_poly.evaluate(challenges);

    if running_claim.equals(&final_eval) {
        Ok(())
    } else {
        Err(VerificationError::FinalCheckFailed)
    }
}

/// Verifies a proof that the table of `initial_poly` adds up to `claimed_sum`.
///
/// The challenges are drawn from a transcript that absorbs what the prover's
/// transcript absorbed; the proof is accepted exactly if it passes `check_rounds`
/// with these challenges.
pub fn verify<F: FiniteField, K: HashTrait>(
    claimed_sum: F,
    proof: &Vec<Vec<F>>,
    num_vars: usize,
    initial_poly: &Polynomial<F>,
    hash_function: K,
) -> (r: bool)
    requires
        initial_poly.wf(num_vars as nat),
    ensures
        r == accepts(
            claimed_sum.value(),
            table_residues(proof@),
            derive_challenges::<K, F>(
                opening(claimed_sum.value(), initial_poly@, F::encoded_len()),
                table_residues(proof@),
            ),
            initial_poly@,
            num_vars as nat,
            F::modulus(),
        ),
{
    let challenges = draw_challenges(claimed_sum, proof, initial_poly, hash_function);
    match check_rounds(claimed_sum, proof, &challenges, num_vars, initial_poly) {
        Ok(_) => true,
        Err(_) => false,
    }
}

/// `current` is `table` with its leading variables fixed to the coordinates of
/// `points`.
#[verifier::opaque]
pub open spec fn folded_from(current: Seq<int>, table: Seq<int>, points: Seq<int>, m: int) -> bool {
    current == fold_all(table, points, m)
}

/// Fixing one more variable of a table that was folded down from `table` gives
/// `table` folded down with one more coordinate.
pub proof fn lemma_folded_from_push(
    previous: Seq<int>,
    table: Seq<int>,
    points: Seq<int>,
    round: int,
    m: int,
)
    requires
        0 <= round < points.len(),
        folded_from(previous, table, points.take(round), m),
    ensures
        folded_from(fold(previous, points[round], m), table, points.take(round + 1), m),
{
    reveal(folded_from);
    assert(points.take(round + 1) =~= points.take(round).push(points[round]));
    crate::hypercube::lemma_fold_all_push(table, points.take(round), points[round], m);
}

/// Before round `round` the verifier that reads the messages of an honest prover
/// stands where the prover stands: the transcripts have absorbed the same bytes,
/// the prover's table is the polynomial with its leading variables fixed to the
/// verifier's challenges, and the claim of the round is the sum of that table.
pub open spec fn honest_at<K: HashTrait, F: FiniteField>(
    table: Seq<int>,
    num_vars: nat,
    round: nat,
) -> bool {
    let m = F::modulus();
    let claimed_sum = sum_mod(table, m);
    let start = opening(claimed_sum, table, F::encoded_len());
    let messages = prover_messages::<K, F>(start, table, num_vars);
    let points = derive_challenges::<K, F>(start, messages);
    let state = prover_state::<K, F>(start, table, round);
    &&& verifier_state::<K>(start, messages, F::encoded_len(), round) == state.0
    &&& state.1.len() == pow2((num_vars - round) as nat)
    &&& canonical_seq(state.1, m)
    &&& folded_from(state.1, table, points.take(round as int), m)
    &&& claim_before(claimed_sum, messages, points, round as int, m) == sum_mod(state.1, m)
}

/// An honest prover and the verifier that reads its messages agree before every
/// round.
pub proof fn lemma_honest_round<K: HashTrait, F: FiniteField>(
    table: Seq<int>,
    num_vars: nat,
    round: nat,
)
    requires
        table.len() == pow2(num_vars),
        canonical_seq(table, F::modulus()),
        round <= num_vars,
    ensures
        honest_at::<K, F>(table, num_vars, round),
    decreases round,
{
    let m = F::modulus();
    let width = F::encoded_len();
    let claimed_sum = sum_mod(table, m);
    let start = opening(claimed_sum, table, width);
    let messages = prover_messages::<K, F>(start, table, num_vars);
    let points = derive_challenges::<K, F>(start, messages);
    F::lemma_modulus();
    if round == 0 {
        assert(folded_from(table, table, points.take(0), m)) by {
            reveal(folded_from);
            assert(points.take(0).len() == 0);
        }
    } else {
        let before = (round - 1) as nat;
        lemma_honest_round::<K, F>(table, num_vars, before);
        let state = prover_state::<K, F>(start, table, before);
        let previous = state.1;
        let message = round_message(previous, m);
        let with_message = state.0 + encode(message, width);
        let point = challenge::<K, F>(with_message);
        let current = fold(previous, point, m);
        assert(prover_state::<K, F>(start, table, round) == (
            after_squeeze::<K>(with_message),
            current,
        ));
        assert(messages[before as int] == message);
        assert(verifier_state::<K>(start, messages, width, round) == after_squeeze::<K>(
            verifier_state::<K>(start, messages, width, before) + encode(
                messages[before as int],
                width,
            ),
        ));
        assert(points[before as int] == point);
        vstd::arithmetic::power2::lemma_pow2_unfold((num_vars - before) as nat);
        crate::hypercube::lemma_fold_shape(previous, point, m);
        lemma_folded_from_push(previous, table, points, before as int, m);
        lemma_round_step(previous, point, m);
        assert(claim_before(claimed_sum, messages, points, round as int, m) == line_mod(
            message[0],
            message[1],
            point,
            m,
        ));
    }
}

/// The value at a challenge of the line through the two entries of an honest
/// message is the sum of the table that is left after the first variable is fixed
/// to the challenge.
pub proof fn lemma_round_step(previous: Seq<int>, point: int, m: int)
    requires
        m > 0,
        previous.len() % 2 == 0,
    ensures
        line_mod(
            round_message(previous, m)[0],
            round_message(previous, m)[1],
            point,
            m,
        ) == sum_mod(fold(previous, point, m), m),
{
    crate::hypercube::lemma_sum_of_fold(previous, point, m);
    crate::hypercube::lemma_sum_of_fold_at_corners(previous, m);
}

/// Completeness: the verifier accepts the sum and the messages of an honest
/// prover, for every polynomial and every hash function.
pub proof fn lemma_sumcheck_complete<K: HashTrait, F: FiniteField>(table: Seq<int>, num_vars: nat)
    requires
        table.len() == pow2(num_vars),
        canonical_seq(table, F::modulus()),
    ensures
        ({
            let m = F::modulus();
            let claimed_sum = sum_mod(table, m);
            let start = opening(claimed_sum, table, F::encoded_len());
            let messages = prover_messages::<K, F>(start, table, num_vars);
            accepts(
                claimed_sum,
                messages,
                derive_challenges::<K, F>(start, messages),
                table,
                num_vars,
                m,
            )
        }),
{
    let m = F::modulus();
    let claimed_sum = sum_mod(table, m);
    let start = opening(claimed_sum, table, F::encoded_len());
    let messages = prover_messages::<K, F>(start, table, num_vars);
    let points = derive_challenges::<K, F>(start, messages);
    F::lemma_modulus();
    assert forall|i: int| 0 <= i < messages.len() implies #[trigger] round_consistent(
        claimed_sum,
        messages,
        points,
        i,
        m,
    ) by {
        lemma_honest_round::<K, F>(table, num_vars, i as nat);
        let current = prover_state::<K, F>(start, table, i as nat).1;
        vstd::arithmetic::power2::lemma_pow2_unfold((num_vars - i) as nat);
        crate::hypercube::lemma_sum_of_fold_at_corners(current, m);
        crate::hypercube::lemma_sum_of_halves(current);
        crate::modular::lemma_reduce_congruent(
            crate::modular::seq_sum(crate::hypercube::low_half(current)),
            m,
        );
        crate::modular::lemma_reduce_congruent(
            crate::modular::seq_sum(crate::hypercube::high_half(current)),
            m,
        );
        crate::modular::lemma_congruent_add(
            sum_mod(crate::hypercube::low_half(current), m),
            crate::modular::seq_sum(crate::hypercube::low_half(current)),
            sum_mod(crate::hypercube::high_half(current), m),
            crate::modular::seq_sum(crate::hypercube::high_half(current)),
            m,
        );
    }
    lemma_honest_round::<K, F>(table, num_vars, num_vars);
    let last = prover_state::<K, F>(start, table, num_vars).1;
    vstd::arithmetic::power2::lemma2_to64();
    assert(points.take(num_vars as int) =~= points);
    assert(last == fold_all(table, points, m)) by {
        reveal(folded_from);
    }
    crate::hypercube::lemma_fold_all_is_extension(table, points, m);
    crate::modular::lemma_seq_sum_single(last);
    crate::modular::lemma_canonical(last[0], m);
}

/// The verifier's transcript before a round depends on the earlier messages
/// alone.
pub proof fn lemma_verifier_state_prefix<K: HashTrait>(
    start: Seq<u8>,
    first: Seq<Seq<int>>,
    second: Seq<Seq<int>>,
    width: nat,
    round: nat,
)
    requires
        round <= first.len(),
        round <= second.len(),
        forall|i: int| 0 <= i < round ==> first[i] == second[i],
    ensures
        verifier_state::<K>(start, first, width, round) == verifier_state::<K>(
            start,
            second,
            width,
            round,
        ),
    decreases round,
{
    if round > 0 {
        lemma_verifier_state_prefix::<K>(start, first, second, width, (round - 1) as nat);
    }
}

/// Soundness against tampering: if one entry of one message of an accepted proof
/// is replaced by another field element, the verifier rejects, whatever the hash
/// function gives for the changed proof.
pub proof fn lemma_tampered_proof_rejected<K: HashTrait, F: FiniteField>(
    claimed_sum: int,
    table: Seq<int>,
    num_vars: nat,
    proof: Seq<Seq<int>>,
    round: int,
    entry: int,
    replacement: int,
)
    requires
        accepts(
            claimed_sum,
            proof,
            derive_challenges::<K, F>(opening(claimed_sum, table, F::encoded_len()), proof),
            table,
            num_vars,
            F::modulus(),
        ),
        0 <= round < proof.len(),
        0 <= entry < 2,
        0 <= proof[round][entry] < F::modulus(),
        0 <= replacement < F::modulus(),
        replacement != proof[round][entry],
    ensures
        ({
            let tampered = proof.update(round, proof[round].update(entry, replacement));
            !accepts(
                claimed_sum,
                tampered,
                derive_challenges::<K, F>(opening(claimed_sum, table, F::encoded_len()), tampered),
                table,
                num_vars,
                F::modulus(),
            )
        }),
{
    let m = F::modulus();
    let start = opening(claimed_sum, table, F::encoded_len());
    let tampered = proof.update(round, proof[round].update(entry, replacement));
    let points = derive_challenges::<K, F>(start, proof);
    let tampered_points = derive_challenges::<K, F>(start, tampered);
    assert(round_consistent(claimed_sum, proof, points, round, m));
    if round > 0 {
        lemma_verifier_state_prefix::<K>(
            start,
            proof,
            tampered,
            F::encoded_len(),
            (round - 1) as nat,
        );
        assert(tampered[round - 1] == proof[round - 1]);
        assert(tampered_points[round - 1] == points[round - 1]);
    }
    let kept = proof[round][1 - entry];
    if round_consistent(claimed_sum, tampered, tampered_points, round, m) {
        if entry == 0 {
            crate::modular::lemma_add_mod_cancel(replacement, proof[round][0], kept, m);
        } else {
            assert(add_mod(kept, replacement, m) == add_mod(replacement, kept, m));
            assert(add_mod(kept, proof[round][1], m) == add_mod(proof[round][1], kept, m));
            crate::modular::lemma_add_mod_cancel(replacement, proof[round][1], kept, m);
        }
    }
}

} // verus!
