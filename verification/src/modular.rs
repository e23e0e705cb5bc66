//! Residue arithmetic on mathematical integers, and sums of integer sequences.
//!
//! Every contract of the crate that speaks of field arithmetic is phrased with the
//! three operations below. The lemmas let a proof drop the intermediate reductions
//! of a nested expression and argue about plain integers instead.
use vstd::arithmetic::div_mod::{
    lemma_add_mod_noop, lemma_mul_mod_noop_general, lemma_small_mod, lemma_sub_mod_noop,
};
use vstd::prelude::*;

verus! {

/// `a + b` reduced into `0..m`.
pub open spec fn add_mod(a: int, b: int, m: int) -> int {
    (a + b) % m
}

/// `a - b` reduced into `0..m`.
pub open spec fn sub_mod(a: int, b: int, m: int) -> int {
    (a - b) % m
}

/// `a * b` reduced into `0..m`.
pub open spec fn mul_mod(a: int, b: int, m: int) -> int {
    (a * b) % m
}

/// `x` and `y` leave the same remainder modulo `m`.
pub open spec fn congruent(x: int, y: int, m: int) -> bool {
    x % m == y % m
}

/// A reduced value is congruent to what it was reduced from.
pub proof fn lemma_reduce_congruent(x: int, m: int)
    requires
        m > 0,
    ensures
        congruent(x % m, x, m),
        0 <= x % m < m,
{
    lemma_add_mod_noop(x, 0, m);
}

/// A value already in `0..m` is its own remainder.
pub proof fn lemma_canonical(x: int, m: int)
    requires
        0 <= x < m,
    ensures
        x % m == x,
{
    lemma_small_mod(x as nat, m as nat);
}

/// Congruence is kept by addition.
pub proof fn lemma_congruent_add(a: int, a2: int, b: int, b2: int, m: int)
    requires
        m > 0,
        congruent(a, a2, m),
        congruent(b, b2, m),
    ensures
        congruent(a + b, a2 + b2, m),
{
    lemma_add_mod_noop(a, b, m);
    lemma_add_mod_noop(a2, b2, m);
}

/// Congruence is kept by subtraction.
pub proof fn lemma_congruent_sub(a: int, a2: int, b: int, b2: int, m: int)
    requires
        m > 0,
        congruent(a, a2, m),
        congruent(b, b2, m),
    ensures
        congruent(a - b, a2 - b2, m),
{
    lemma_sub_mod_noop(a, b, m);
    lemma_sub_mod_noop(a2, b2, m);
}

/// Congruence is kept by multiplication.
pub proof fn lemma_congruent_mul(a: int, a2: int, b: int, b2: int, m: int)
    requires
        m > 0,
        congruent(a, a2, m),
        congruent(b, b2, m),
    ensures
        congruent(a * b, a2 * b2, m),
{
    lemma_mul_mod_noop_general(a, b, m);
    lemma_mul_mod_noop_general(a2, b2, m);
}

/// The line through `(0, low)` and `(1, high)` at `x`, computed with residues, is
/// congruent to the same line computed over the integers.
pub proof fn lemma_line_congruent(low: int, high: int, x: int, m: int)
    requires
        m > 0,
    ensures
        congruent(line_mod(low, high, x, m), low + x * (high - low), m),
        0 <= line_mod(low, high, x, m) < m,
{
    let d = sub_mod(high, low, m);
    let p = mul_mod(x, d, m);
    lemma_reduce_congruent(high - low, m);
    lemma_congruent_mul(x, x, d, high - low, m);
    lemma_reduce_congruent(x * d, m);
    lemma_congruent_add(low, low, p, x * (high - low), m);
    lemma_reduce_congruent(low + p, m);
}

/// `low + x * (high - low)` in residues: the value at `x` of the line that is `low`
/// at 0 and `high` at 1.
pub open spec fn line_mod(low: int, high: int, x: int, m: int) -> int {
    add_mod(low, mul_mod(x, sub_mod(high, low, m), m), m)
}

/// The sum of all entries of `s`.
pub open spec fn seq_sum(s: Seq<int>) -> int
    decreases s.len(),
{
    if s.len() == 0 {
        0
    } else {
        seq_sum(s.drop_last()) + s.last()
    }
}

/// The sum of all entries of `s`, reduced into `0..m`.
pub open spec fn sum_mod(s: Seq<int>, m: int) -> int {
    seq_sum(s) % m
}

/// The sum of a concatenation is the sum of the sums.
pub proof fn lemma_seq_sum_concat(a: Seq<int>, b: Seq<int>)
    ensures
        seq_sum(a + b) == seq_sum(a) + seq_sum(b),
    decreases b.len(),
{
    if b.len() == 0 {
        assert(a + b =~= a);
    } else {
        lemma_seq_sum_concat(a, b.drop_last());
        assert((a + b).drop_last() =~= a + b.drop_last());
        assert((a + b).last() == b.last());
    }
}

/// Sequences that are congruent entry by entry have congruent sums.
pub proof fn lemma_seq_sum_congruent(a: Seq<int>, b: Seq<int>, m: int)
    requires
        m > 0,
        a.len() == b.len(),
        forall|i: int| 0 <= i < a.len() ==> congruent(#[trigger] a[i], b[i], m),
    ensures
        congruent(seq_sum(a), seq_sum(b), m),
    decreases a.len(),
{
    if a.len() > 0 {
        lemma_seq_sum_congruent(a.drop_last(), b.drop_last(), m);
        assert(congruent(a[a.len() - 1], b[a.len() - 1], m));
        lemma_congruent_add(seq_sum(a.drop_last()), seq_sum(b.drop_last()), a.last(), b.last(), m);
    }
}

/// The sum of `p[i] + x * (q[i] - p[i])` over all `i` is
/// `sum(p) + x * (sum(q) - sum(p))`.
pub proof fn lemma_seq_sum_line(p: Seq<int>, q: Seq<int>, x: int, r: Seq<int>)
    requires
        p.len() == q.len(),
        r.len() == p.len(),
        forall|i: int| 0 <= i < r.len() ==> #[trigger] r[i] == p[i] + x * (q[i] - p[i]),
    ensures
        seq_sum(r) == seq_sum(p) + x * (seq_sum(q) - seq_sum(p)),
    decreases r.len(),
{
    if r.len() > 0 {
        let n = r.len() - 1;
        lemma_seq_sum_line(p.drop_last(), q.drop_last(), x, r.drop_last());
        assert(r[n] == p[n] + x * (q[n] - p[n]));
        let sp = seq_sum(p.drop_last());
        let sq = seq_sum(q.drop_last());
        let pn = p[n];
        let qn = q[n];
        assert(sp + x * (sq - sp) + (pn + x * (qn - pn)) == (sp + pn) + x * ((sq + qn) - (sp + pn)))
            by (nonlinear_arith);
    } else {
        assert(x * (0 - 0) == 0) by (nonlinear_arith);
    }
}

/// The sum of `p[i] + q[i]` over all `i` is `sum(p) + sum(q)`.
pub proof fn lemma_seq_sum_pointwise_add(p: Seq<int>, q: Seq<int>, r: Seq<int>)
    requires
        p.len() == q.len(),
        r.len() == p.len(),
        forall|i: int| 0 <= i < r.len() ==> #[trigger] r[i] == p[i] + q[i],
    ensures
        seq_sum(r) == seq_sum(p) + seq_sum(q),
    decreases r.len(),
{
    if r.len() > 0 {
        let n = r.len() - 1;
        lemma_seq_sum_pointwise_add(p.drop_last(), q.drop_last(), r.drop_last());
        assert(r[n] == p[n] + q[n]);
    }
}

/// The sum of `c * p[i]` over all `i` is `c * sum(p)`.
pub proof fn lemma_seq_sum_scale(p: Seq<int>, c: int, r: Seq<int>)
    requires
        r.len() == p.len(),
        forall|i: int| 0 <= i < r.len() ==> #[trigger] r[i] == c * p[i],
    ensures
        seq_sum(r) == c * seq_sum(p),
    decreases r.len(),
{
    if r.len() > 0 {
        let n = r.len() - 1;
        lemma_seq_sum_scale(p.drop_last(), c, r.drop_last());
        assert(r[n] == c * p[n]);
        let sp = seq_sum(p.drop_last());
        let pn = p[n];
        assert(c * sp + c * pn == c * (sp + pn)) by (nonlinear_arith);
    } else {
        assert(c * 0 == 0) by (nonlinear_arith);
    }
}

/// A sequence of one entry adds up to that entry.
pub proof fn lemma_seq_sum_single(s: Seq<int>)
    requires
        s.len() == 1,
    ensures
        seq_sum(s) == s[0],
{
    assert(s.drop_last().len() == 0);
    assert(seq_sum(s) == seq_sum(s.drop_last()) + s.last());
}

/// Canonical residues that give the same sum with a third number are equal.
pub proof fn lemma_add_mod_cancel(x: int, y: int, z: int, m: int)
    requires
        0 <= x < m,
        0 <= y < m,
        add_mod(x, z, m) == add_mod(y, z, m),
    ensures
        x == y,
{
    lemma_congruent_sub(x + z, y + z, z, z, m);
    lemma_canonical(x, m);
    lemma_canonical(y, m);
}

} // verus!
