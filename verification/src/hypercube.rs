//! Evaluation tables over the boolean hypercube, as sequences of residues.
//!
//! A table of length `2^n` lists the values of a function on `{0,1}^n`. Entry `i`
//! belongs to the corner whose coordinates are the `n` binary digits of `i`, the
//! first variable being the most significant digit. This module defines what it
//! means to fix the first variable of such a table (`fold`), to fix all of them in
//! turn (`fold_all`), and the multilinear extension that these compute.
use crate::field::canonical_seq;
use crate::modular::{
    congruent, lemma_canonical, lemma_congruent_mul, lemma_line_congruent, lemma_reduce_congruent,
    lemma_seq_sum_concat, lemma_seq_sum_congruent, lemma_seq_sum_line,
    lemma_seq_sum_pointwise_add, line_mod, seq_sum, sum_mod,
};
use vstd::arithmetic::power2::{lemma_pow2_pos, lemma_pow2_unfold, pow2};
use vstd::prelude::*;

verus! {

/// The table with its first variable fixed to `x`: entry `i` lies on the line
/// through entry `i` of the first half (the variable at 0) and entry `i` of the
/// second half (the variable at 1).
pub open spec fn fold(table: Seq<int>, x: int, m: int) -> Seq<int> {
    let half = table.len() / 2;
    Seq::new(half, |i: int| line_mod(table[i], table[i + half], x, m))
}

/// The table with its leading variables fixed to the coordinates of `point`, one
/// after the other.
pub open spec fn fold_all(table: Seq<int>, point: Seq<int>, m: int) -> Seq<int>
    decreases point.len(),
{
    if point.len() == 0 {
        table
    } else {
        fold_all(fold(table, point[0], m), point.skip(1), m)
    }
}

/// The weight that the multilinear extension gives, at `point`, to the corner
/// numbered `index`: the product over all variables of `x` where the corner has a 1
/// and of `1 - x` where it has a 0.
pub open spec fn corner_weight(point: Seq<int>, index: int) -> int
    decreases point.len(),
{
    if point.len() == 0 {
        1
    } else {
        let half = pow2((point.len() - 1) as nat) as int;
        if index < half {
            (1 - point[0]) * corner_weight(point.skip(1), index)
        } else {
            point[0] * corner_weight(point.skip(1), index - half)
        }
    }
}

/// The summands of the multilinear extension: each table entry times the weight
/// of its corner.
pub open spec fn mle_terms(table: Seq<int>, point: Seq<int>) -> Seq<int> {
    Seq::new(table.len(), |i: int| table[i] * corner_weight(point, i))
}

/// The value at `point` of the multilinear extension of `table`, as a residue
/// modulo `m`.
pub open spec fn multilinear_extension(table: Seq<int>, point: Seq<int>, m: int) -> int {
    seq_sum(mle_terms(table, point)) % m
}

/// The first half of a table: the corners at which the first variable is 0.
pub open spec fn low_half(table: Seq<int>) -> Seq<int> {
    table.subrange(0, (table.len() / 2) as int)
}

/// The second half of a table: the corners at which the first variable is 1.
pub open spec fn high_half(table: Seq<int>) -> Seq<int> {
    table.subrange((table.len() / 2) as int, 2 * (table.len() / 2) as int)
}

/// Folding halves the table and yields canonical residues.
pub proof fn lemma_fold_shape(table: Seq<int>, x: int, m: int)
    requires
        m > 0,
    ensures
        fold(table, x, m).len() == table.len() / 2,
        canonical_seq(fold(table, x, m), m),
{
    let half = table.len() / 2;
    assert forall|i: int| 0 <= i < fold(table, x, m).len() implies 0 <= #[trigger] fold(
        table,
        x,
        m,
    )[i] < m by {
        lemma_line_congruent(table[i], table[i + half], x, m);
    }
}

/// Fixing the first variable to 0 keeps the first half of the table, and fixing it
/// to 1 keeps the second half.
pub proof fn lemma_fold_at_corners(table: Seq<int>, m: int, i: int)
    requires
        m > 0,
        canonical_seq(table, m),
        0 <= i < table.len() / 2,
    ensures
        fold(table, 0, m)[i] == table[i],
        fold(table, 1, m)[i] == table[i + table.len() / 2],
{
    let half = (table.len() / 2) as int;
    let low = table[i];
    let high = table[i + half];
    lemma_line_congruent(low, high, 0, m);
    lemma_line_congruent(low, high, 1, m);
    assert(low + 0 * (high - low) == low) by (nonlinear_arith);
    assert(low + 1 * (high - low) == high) by (nonlinear_arith);
    assert(fold(table, 0, m)[i] == line_mod(low, high, 0, m));
    assert(fold(table, 1, m)[i] == line_mod(low, high, 1, m));
    assert(0 <= table[i] < m);
    assert(0 <= table[i + half] < m);
    lemma_canonical(low, m);
    lemma_canonical(high, m);
    lemma_canonical(line_mod(low, high, 0, m), m);
    lemma_canonical(line_mod(low, high, 1, m), m);
}

/// The entries of a table add up to the entries of its two halves.
pub proof fn lemma_sum_of_halves(table: Seq<int>)
    requires
        table.len() % 2 == 0,
    ensures
        seq_sum(table) == seq_sum(low_half(table)) + seq_sum(high_half(table)),
{
    assert(table =~= low_half(table) + high_half(table));
    lemma_seq_sum_concat(low_half(table), high_half(table));
}

/// The entries of a folded table add up, modulo `m`, to the value at `x` of the
/// line through the sum of the first half and the sum of the second half.
pub proof fn lemma_sum_of_fold(table: Seq<int>, x: int, m: int)
    requires
        m > 0,
        table.len() % 2 == 0,
    ensures
        sum_mod(fold(table, x, m), m) == line_mod(
            sum_mod(low_half(table), m),
            sum_mod(high_half(table), m),
            x,
            m,
        ),
{
    let half = (table.len() / 2) as int;
    let low = low_half(table);
    let high = high_half(table);
    let folded = fold(table, x, m);
    let exact = Seq::new(half as nat, |i: int| low[i] + x * (high[i] - low[i]));
    assert forall|i: int| 0 <= i < folded.len() implies congruent(
        #[trigger] folded[i],
        exact[i],
        m,
    ) by {
        lemma_line_congruent(table[i], table[i + half], x, m);
    }
    lemma_seq_sum_congruent(folded, exact, m);
    lemma_seq_sum_line(low, high, x, exact);
    let sl = seq_sum(low);
    let sh = seq_sum(high);
    // line_mod reduces its arguments, so the line through the reduced sums is
    // congruent to the line through the sums.
    lemma_line_congruent(sl % m, sh % m, x, m);
    lemma_reduce_congruent(sl, m);
    lemma_reduce_congruent(sh, m);
    crate::modular::lemma_congruent_sub(sh % m, sh, sl % m, sl, m);
    lemma_congruent_mul(x, x, sh % m - sl % m, sh - sl, m);
    crate::modular::lemma_congruent_add(sl % m, sl, x * (sh % m - sl % m), x * (sh - sl), m);
    lemma_canonical(line_mod(sl % m, sh % m, x, m), m);
}

/// Fixing all variables of a table of `2^n` canonical residues leaves one entry:
/// the value of the multilinear extension of the table at the point.
pub proof fn lemma_fold_all_is_extension(table: Seq<int>, point: Seq<int>, m: int)
    requires
        m > 0,
        table.len() == pow2(point.len()),
        canonical_seq(table, m),
    ensures
        fold_all(table, point, m).len() == 1,
        fold_all(table, point, m)[0] == multilinear_extension(table, point, m),
    decreases point.len(),
{
    if point.len() == 0 {
        vstd::arithmetic::power2::lemma2_to64();
        let terms = mle_terms(table, point);
        assert(terms[0] == table[0] * 1);
        assert(terms.drop_last().len() == 0);
        assert(seq_sum(terms) == seq_sum(terms.drop_last()) + terms.last());
        lemma_canonical(table[0], m);
    } else {
        let n = point.len();
        let x = point[0];
        let rest = point.skip(1);
        lemma_pow2_unfold(n);
        lemma_pow2_pos((n - 1) as nat);
        let half = pow2((n - 1) as nat) as int;
        let folded = fold(table, x, m);
        lemma_fold_shape(table, x, m);
        lemma_fold_all_is_extension(folded, rest, m);
        // The summands of the extension of `table`, split by the first variable.
        let zero_side = Seq::new(half as nat, |j: int| table[j] * ((1 - x) * corner_weight(rest, j)));
        let one_side = Seq::new(
            half as nat,
            |j: int| table[j + half] * (x * corner_weight(rest, j)),
        );
        let both = Seq::new(half as nat, |j: int| zero_side[j] + one_side[j]);
        assert(mle_terms(table, point) =~= zero_side + one_side);
        lemma_seq_sum_concat(zero_side, one_side);
        lemma_seq_sum_pointwise_add(zero_side, one_side, both);
        let folded_terms = mle_terms(folded, rest);
        assert forall|j: int| 0 <= j < folded_terms.len() implies congruent(
            #[trigger] folded_terms[j],
            both[j],
            m,
        ) by {
            let w = corner_weight(rest, j);
            let low = table[j];
            let high = table[j + half];
            lemma_line_congruent(low, high, x, m);
            lemma_congruent_mul(folded[j], low + x * (high - low), w, w, m);
            assert((low + x * (high - low)) * w == low * ((1 - x) * w) + high * (x * w))
                by (nonlinear_arith);
        }
        lemma_seq_sum_congruent(folded_terms, both, m);
    }
}

/// Fixing the variables of `point` and then one more to `x` is fixing the
/// variables of `point` followed by `x`.
pub proof fn lemma_fold_all_push(table: Seq<int>, point: Seq<int>, x: int, m: int)
    ensures
        fold_all(table, point.push(x), m) == fold(fold_all(table, point, m), x, m),
    decreases point.len(),
{
    let longer = point.push(x);
    if point.len() == 0 {
        assert(longer.skip(1).len() == 0);
        assert(fold_all(fold(table, x, m), longer.skip(1), m) == fold(table, x, m));
    } else {
        assert(longer.skip(1) =~= point.skip(1).push(x));
        lemma_fold_all_push(fold(table, point[0], m), point.skip(1), x, m);
    }
}

/// The sums of the two halves of a table of canonical residues are the sums of the
/// table with its first variable fixed to 0 and to 1.
pub proof fn lemma_sum_of_fold_at_corners(table: Seq<int>, m: int)
    requires
        m > 0,
        table.len() % 2 == 0,
    ensures
        sum_mod(fold(table, 0, m), m) == sum_mod(low_half(table), m),
        sum_mod(fold(table, 1, m), m) == sum_mod(high_half(table), m),
{
    let sl = sum_mod(low_half(table), m);
    let sh = sum_mod(high_half(table), m);
    lemma_sum_of_fold(table, 0, m);
    lemma_sum_of_fold(table, 1, m);
    lemma_reduce_congruent(seq_sum(low_half(table)), m);
    lemma_reduce_congruent(seq_sum(high_half(table)), m);
    lemma_line_congruent(sl, sh, 0, m);
    lemma_line_congruent(sl, sh, 1, m);
    assert(sl + 0 * (sh - sl) == sl) by (nonlinear_arith);
    assert(sl + 1 * (sh - sl) == sh) by (nonlinear_arith);
    lemma_canonical(sl, m);
    lemma_canonical(sh, m);
    lemma_canonical(line_mod(sl, sh, 0, m), m);
    lemma_canonical(line_mod(sl, sh, 1, m), m);
}

} // verus!
