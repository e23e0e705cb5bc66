//! Why Lagrange interpolation recovers a polynomial from its values.
//!
//! The proof goes through the Newton basis of the nodes: the products
//! `(x - x_0) ... (x - x_{k-1})`. Interpolation through `n` nodes reproduces the
//! first `n` of them, it is linear in the values it is given, and every
//! polynomial of degree below `n` is a combination of them.
use crate::field::canonical_seq;
use crate::interpolation::{
    basis_factors, basis_value, interpolation_terms, interpolation_value, inverse_mod,
    lemma_inverse_unique, pairwise_distinct,
};
use crate::modular::{
    congruent, lemma_canonical, lemma_congruent_add, lemma_congruent_mul, lemma_congruent_sub,
    lemma_reduce_congruent, mul_mod, seq_sum, sub_mod,
};
use crate::shamir::{polynomial_terms, polynomial_value};
use crate::sum_poly::seq_product;
use vstd::arithmetic::power::pow;
use vstd::prelude::*;

verus! {

/// `a` has an inverse among the residues modulo `m`.
pub open spec fn invertible(a: int, m: int) -> bool {
    exists|w: int| 0 <= w < m && mul_mod(a, w, m) == 1
}

/// The residues modulo `m` are a field: every residue but zero has an inverse.
pub open spec fn is_field(m: int) -> bool {
    &&& m >= 2
    &&& forall|a: int| 0 < a < m ==> #[trigger] invertible(a, m)
}

/// In a field, the inverse of a residue that is not zero is an inverse.
pub proof fn lemma_inverse(a: int, m: int)
    requires
        is_field(m),
        0 < a < m,
    ensures
        0 <= inverse_mod(a, m) < m,
        congruent(a * inverse_mod(a, m), 1, m),
{
    assert(invertible(a, m));
    lemma_canonical(1, m);
}

/// Sequences that are congruent entry by entry have congruent products.
pub proof fn lemma_seq_product_congruent(a: Seq<int>, b: Seq<int>, m: int)
    requires
        m > 0,
        a.len() == b.len(),
        forall|i: int| 0 <= i < a.len() ==> congruent(#[trigger] a[i], b[i], m),
    ensures
        congruent(seq_product(a), seq_product(b), m),
    decreases a.len(),
{
    if a.len() > 0 {
        lemma_seq_product_congruent(a.drop_last(), b.drop_last(), m);
        assert(congruent(a[a.len() - 1], b[a.len() - 1], m));
        lemma_congruent_mul(
            seq_product(a.drop_last()),
            seq_product(b.drop_last()),
            a.last(),
            b.last(),
            m,
        );
    }
}

/// The product of `p[i] * q[i]` over all `i` is the product of the products.
pub proof fn lemma_seq_product_pointwise(p: Seq<int>, q: Seq<int>, r: Seq<int>)
    requires
        p.len() == q.len(),
        r.len() == p.len(),
        forall|i: int| 0 <= i < r.len() ==> #[trigger] r[i] == p[i] * q[i],
    ensures
        seq_product(r) == seq_product(p) * seq_product(q),
    decreases r.len(),
{
    if r.len() > 0 {
        let n = r.len() - 1;
        lemma_seq_product_pointwise(p.drop_last(), q.drop_last(), r.drop_last());
        assert(r[n] == p[n] * q[n]);
        let sp = seq_product(p.drop_last());
        let sq = seq_product(q.drop_last());
        let pn = p[n];
        let qn = q[n];
        assert((sp * sq) * (pn * qn) == (sp * pn) * (sq * qn)) by (nonlinear_arith);
    }
}

/// A sequence that is 1 everywhere but at `i` multiplies out to its entry at `i`.
pub proof fn lemma_seq_product_single(s: Seq<int>, i: int)
    requires
        0 <= i < s.len(),
        forall|j: int| 0 <= j < s.len() && j != i ==> #[trigger] s[j] == 1,
    ensures
        seq_product(s) == s[i],
    decreases s.len(),
{
    let n = s.len() - 1;
    if i == n {
        lemma_seq_product_ones(s.drop_last());
    } else {
        lemma_seq_product_single(s.drop_last(), i);
        assert(s[n] == 1);
    }
}

/// A sequence of ones multiplies out to 1.
pub proof fn lemma_seq_product_ones(s: Seq<int>)
    requires
        forall|j: int| 0 <= j < s.len() ==> #[trigger] s[j] == 1,
    ensures
        seq_product(s) == 1,
    decreases s.len(),
{
    if s.len() > 0 {
        lemma_seq_product_ones(s.drop_last());
        assert(s[s.len() - 1] == 1);
    }
}

/// A product with a factor that is congruent to zero is congruent to zero.
pub proof fn lemma_seq_product_zero(s: Seq<int>, i: int, m: int)
    requires
        m > 0,
        0 <= i < s.len(),
        congruent(s[i], 0, m),
    ensures
        congruent(seq_product(s), 0, m),
    decreases s.len(),
{
    let n = s.len() - 1;
    let front = seq_product(s.drop_last());
    if i == n {
        lemma_congruent_mul(front, front, s[n], 0, m);
        assert(front * 0 == 0);
    } else {
        lemma_seq_product_zero(s.drop_last(), i, m);
        lemma_congruent_mul(front, 0, s[n], s[n], m);
        assert(0 * s[n] == 0);
    }
}

/// A sum of entries that are all congruent to zero is congruent to zero.
pub proof fn lemma_seq_sum_zero(s: Seq<int>, m: int)
    requires
        m > 0,
        forall|i: int| 0 <= i < s.len() ==> congruent(#[trigger] s[i], 0, m),
    ensures
        congruent(seq_sum(s), 0, m),
    decreases s.len(),
{
    if s.len() > 0 {
        lemma_seq_sum_zero(s.drop_last(), m);
        assert(congruent(s[s.len() - 1], 0, m));
        lemma_congruent_add(seq_sum(s.drop_last()), 0, s.last(), 0, m);
    }
}

/// The nodes are pairwise different canonical residues of a field.
pub open spec fn nodes_ok(xs: Seq<int>, m: int) -> bool {
    &&& is_field(m)
    &&& canonical_seq(xs, m)
    &&& pairwise_distinct(xs)
}

/// The inverse of the difference of nodes `i` and `j`.
pub open spec fn diff_inverse(xs: Seq<int>, i: int, j: int, m: int) -> int {
    inverse_mod(sub_mod(xs[i], xs[j], m), m)
}

/// The value at `x` of the `i`-th basis polynomial of the first `n` nodes.
pub open spec fn basis(xs: Seq<int>, n: int, i: int, x: int, m: int) -> int {
    basis_value(xs.take(n), i, x, m)
}

/// The factors `x - x_j` for the first `n` nodes.
pub open spec fn node_factors(xs: Seq<int>, n: int, x: int) -> Seq<int> {
    Seq::new(n as nat, |j: int| x - xs[j])
}

/// The Newton basis polynomial of the first `n` nodes at `x`: the product of
/// `x - x_j` over them.
pub open spec fn omega(xs: Seq<int>, n: int, x: int) -> int {
    seq_product(node_factors(xs, n, x))
}

/// The inverses of the differences of node `n` and the nodes before it.
pub open spec fn inverse_factors(xs: Seq<int>, n: int, m: int) -> Seq<int> {
    Seq::new(n as nat, |j: int| diff_inverse(xs, n, j, m))
}

/// What the interpolation through `n + 1` nodes adds, at `x`, for each unit by
/// which the value at node `n` differs from the interpolation through the first
/// `n` nodes: the Newton basis polynomial at `x` over its value at node `n`.
pub open spec fn bump(xs: Seq<int>, n: int, x: int, m: int) -> int {
    omega(xs, n, x) * seq_product(inverse_factors(xs, n, m))
}

/// The differences of different nodes have inverses.
pub proof fn lemma_diff_inverse(xs: Seq<int>, i: int, j: int, m: int)
    requires
        nodes_ok(xs, m),
        0 <= i < xs.len(),
        0 <= j < xs.len(),
        i != j,
    ensures
        0 <= diff_inverse(xs, i, j, m) < m,
        congruent((xs[i] - xs[j]) * diff_inverse(xs, i, j, m), 1, m),
{
    let d = sub_mod(xs[i], xs[j], m);
    lemma_reduce_congruent(xs[i] - xs[j], m);
    assert(0 <= xs[i] < m);
    assert(0 <= xs[j] < m);
    if d == 0 {
        lemma_congruent_add(xs[i] - xs[j], 0, xs[j], xs[j], m);
        lemma_canonical(xs[i], m);
        lemma_canonical(xs[j], m);
        assert(xs[i] != xs[j]);
    }
    lemma_inverse(d, m);
    let w = diff_inverse(xs, i, j, m);
    lemma_congruent_mul(xs[i] - xs[j], d, w, w, m);
}

/// The inverse of the difference of two nodes taken the other way round is the
/// negative.
pub proof fn lemma_diff_inverse_swap(xs: Seq<int>, i: int, j: int, m: int)
    requires
        nodes_ok(xs, m),
        0 <= i < xs.len(),
        0 <= j < xs.len(),
        i != j,
    ensures
        congruent(diff_inverse(xs, j, i, m), -diff_inverse(xs, i, j, m), m),
{
    let d = xs[i] - xs[j];
    let w = diff_inverse(xs, i, j, m);
    let v = diff_inverse(xs, j, i, m);
    lemma_diff_inverse(xs, i, j, m);
    lemma_diff_inverse(xs, j, i, m);
    // v = v * (d * w) = -((-d) * v) * w = -w
    lemma_congruent_mul(v, v, 1, d * w, m);
    lemma_congruent_mul((xs[j] - xs[i]) * v, 1, -w, -w, m);
    assert(v * (d * w) == ((xs[j] - xs[i]) * v) * (-w)) by (nonlinear_arith)
        requires
            d == xs[i] - xs[j],
    ;
    assert(v * 1 == v);
    assert(1 * (-w) == -w);
}

/// With one more node, a basis polynomial gets one more factor.
pub proof fn lemma_basis_extend(xs: Seq<int>, n: int, i: int, x: int, m: int)
    requires
        nodes_ok(xs, m),
        0 <= i < n < xs.len(),
    ensures
        congruent(
            basis(xs, n + 1, i, x, m),
            basis(xs, n, i, x, m) * ((x - xs[n]) * diff_inverse(xs, i, n, m)),
            m,
        ),
{
    let longer = basis_factors(xs.take(n + 1), i, x, m);
    let shorter = basis_factors(xs.take(n), i, x, m);
    let w = diff_inverse(xs, i, n, m);
    assert(longer.drop_last() =~= shorter);
    assert(longer.last() == mul_mod(sub_mod(x, xs[n], m), w, m));
    lemma_reduce_congruent(x - xs[n], m);
    lemma_congruent_mul(sub_mod(x, xs[n], m), x - xs[n], w, w, m);
    lemma_reduce_congruent(sub_mod(x, xs[n], m) * w, m);
    lemma_reduce_congruent(seq_product(shorter), m);
    lemma_reduce_congruent(seq_product(longer), m);
    lemma_congruent_mul(
        seq_product(shorter),
        basis(xs, n, i, x, m),
        longer.last(),
        (x - xs[n]) * w,
        m,
    );
}

/// The basis polynomial of the last of `n + 1` nodes is the Newton basis
/// polynomial of the nodes before it over its value at that node.
pub proof fn lemma_basis_last(xs: Seq<int>, n: int, x: int, m: int)
    requires
        nodes_ok(xs, m),
        0 <= n < xs.len(),
    ensures
        congruent(basis(xs, n + 1, n, x, m), bump(xs, n, x, m), m),
{
    let factors = basis_factors(xs.take(n + 1), n, x, m);
    let front = factors.drop_last();
    let tops = node_factors(xs, n, x);
    let bottoms = inverse_factors(xs, n, m);
    let exact = Seq::new(n as nat, |j: int| tops[j] * bottoms[j]);
    assert(factors.last() == 1);
    assert forall|j: int| 0 <= j < front.len() implies congruent(
        #[trigger] front[j],
        exact[j],
        m,
    ) by {
        let w = diff_inverse(xs, n, j, m);
        assert(front[j] == mul_mod(sub_mod(x, xs[j], m), w, m));
        lemma_reduce_congruent(x - xs[j], m);
        lemma_congruent_mul(sub_mod(x, xs[j], m), x - xs[j], w, w, m);
        lemma_reduce_congruent(sub_mod(x, xs[j], m) * w, m);
    }
    lemma_seq_product_congruent(front, exact, m);
    lemma_seq_product_pointwise(tops, bottoms, exact);
    assert(seq_product(factors) == seq_product(front) * 1);
    lemma_reduce_congruent(seq_product(factors), m);
}

/// At its own node, the last basis polynomial is 1.
pub proof fn lemma_bump_at_node(xs: Seq<int>, n: int, m: int)
    requires
        nodes_ok(xs, m),
        0 <= n < xs.len(),
    ensures
        congruent(bump(xs, n, xs[n], m), 1, m),
{
    let tops = node_factors(xs, n, xs[n]);
    let bottoms = inverse_factors(xs, n, m);
    let exact = Seq::new(n as nat, |j: int| tops[j] * bottoms[j]);
    let ones = Seq::new(n as nat, |j: int| 1int);
    assert forall|j: int| 0 <= j < exact.len() implies congruent(#[trigger] exact[j], ones[j], m) by {
        lemma_diff_inverse(xs, n, j, m);
    }
    lemma_seq_product_congruent(exact, ones, m);
    lemma_seq_product_ones(ones);
    lemma_seq_product_pointwise(tops, bottoms, exact);
}

/// A basis polynomial of the first `n` nodes at node `n`, times what node `n`
/// adds, is the basis polynomial at `x` times one more factor.
pub proof fn lemma_basis_shift(xs: Seq<int>, n: int, i: int, x: int, m: int)
    requires
        nodes_ok(xs, m),
        0 <= i < n < xs.len(),
    ensures
        congruent(
            basis(xs, n, i, xs[n], m) * bump(xs, n, x, m),
            basis(xs, n, i, x, m) * ((x - xs[i]) * diff_inverse(xs, n, i, m)),
            m,
        ),
{
    let here = basis_factors(xs.take(n), i, x, m);
    let there = basis_factors(xs.take(n), i, xs[n], m);
    let tops = node_factors(xs, n, x);
    let bottoms = inverse_factors(xs, n, m);
    let ratios = Seq::new(n as nat, |j: int| tops[j] * bottoms[j]);
    let left = Seq::new(n as nat, |j: int| there[j] * ratios[j]);
    let extra = (x - xs[i]) * diff_inverse(xs, n, i, m);
    let marks = Seq::new(
        n as nat,
        |j: int|
            if j == i {
                extra
            } else {
                1
            },
    );
    let right = Seq::new(n as nat, |j: int| here[j] * marks[j]);
    assert forall|j: int| 0 <= j < left.len() implies congruent(#[trigger] left[j], right[j], m) by {
        if j == i {
            assert(there[j] == 1 && here[j] == 1);
            assert(left[j] == 1 * ratios[j]);
            assert(right[j] == 1 * extra);
        } else {
            let w = diff_inverse(xs, i, j, m);
            let v = diff_inverse(xs, n, j, m);
            lemma_diff_inverse(xs, n, j, m);
            assert(there[j] == mul_mod(sub_mod(xs[n], xs[j], m), w, m));
            assert(here[j] == mul_mod(sub_mod(x, xs[j], m), w, m));
            lemma_reduce_congruent(xs[n] - xs[j], m);
            lemma_congruent_mul(sub_mod(xs[n], xs[j], m), xs[n] - xs[j], w, w, m);
            lemma_reduce_congruent(sub_mod(xs[n], xs[j], m) * w, m);
            lemma_reduce_congruent(x - xs[j], m);
            lemma_congruent_mul(sub_mod(x, xs[j], m), x - xs[j], w, w, m);
            lemma_reduce_congruent(sub_mod(x, xs[j], m) * w, m);
            // there[j] * ratios[j] = ((x_n - x_j) v) * ((x - x_j) w)
            lemma_congruent_mul(there[j], (xs[n] - xs[j]) * w, ratios[j], ratios[j], m);
            assert(((xs[n] - xs[j]) * w) * ((x - xs[j]) * v) == ((xs[n] - xs[j]) * v) * ((x
                - xs[j]) * w)) by (nonlinear_arith);
            lemma_congruent_mul((xs[n] - xs[j]) * v, 1, (x - xs[j]) * w, (x - xs[j]) * w, m);
            assert(1 * ((x - xs[j]) * w) == (x - xs[j]) * w);
            assert(right[j] == here[j] * 1);
        }
    }
    lemma_seq_product_congruent(left, right, m);
    lemma_seq_product_pointwise(tops, bottoms, ratios);
    lemma_seq_product_pointwise(there, ratios, left);
    lemma_seq_product_pointwise(here, marks, right);
    lemma_seq_product_single(marks, i);
    lemma_reduce_congruent(seq_product(there), m);
    lemma_reduce_congruent(seq_product(here), m);
    lemma_congruent_mul(
        basis(xs, n, i, xs[n], m),
        seq_product(there),
        bump(xs, n, x, m),
        bump(xs, n, x, m),
        m,
    );
    lemma_congruent_mul(basis(xs, n, i, x, m), seq_product(here), extra, extra, m);
}

/// With one more node, a basis polynomial loses what it was at the new node,
/// times what the new node adds.
pub proof fn lemma_basis_update(xs: Seq<int>, n: int, i: int, x: int, m: int)
    requires
        nodes_ok(xs, m),
        0 <= i < n < xs.len(),
    ensures
        congruent(
            basis(xs, n + 1, i, x, m),
            basis(xs, n, i, x, m) - basis(xs, n, i, xs[n], m) * bump(xs, n, x, m),
            m,
        ),
{
    let here = basis(xs, n, i, x, m);
    let there = basis(xs, n, i, xs[n], m);
    let w = diff_inverse(xs, i, n, m);
    let v = diff_inverse(xs, n, i, m);
    lemma_basis_extend(xs, n, i, x, m);
    lemma_basis_shift(xs, n, i, x, m);
    lemma_diff_inverse(xs, i, n, m);
    lemma_diff_inverse_swap(xs, i, n, m);
    // (x - x_n) w = (x_i - x_n) w + (x - x_i) w = 1 - (x - x_i) v
    lemma_congruent_mul(x - xs[i], x - xs[i], v, -w, m);
    lemma_congruent_sub((xs[i] - xs[n]) * w, 1, (x - xs[i]) * (-w), (x - xs[i]) * v, m);
    assert((xs[i] - xs[n]) * w - (x - xs[i]) * (-w) == (x - xs[n]) * w) by (nonlinear_arith);
    lemma_congruent_mul(here, here, (x - xs[n]) * w, 1 - (x - xs[i]) * v, m);
    assert(here * (1 - (x - xs[i]) * v) == here - here * ((x - xs[i]) * v)) by (nonlinear_arith);
    lemma_congruent_sub(here, here, here * ((x - xs[i]) * v), there * bump(xs, n, x, m), m);
}

/// The value at `x` of the interpolation through the first `n` nodes and values.
pub open spec fn interp(xs: Seq<int>, ys: Seq<int>, n: int, x: int, m: int) -> int {
    interpolation_value(xs.take(n), ys.take(n), x, m)
}

/// The sum of `p[i] + c * q[i]` over all `i` is `sum(p) + c * sum(q)`.
pub proof fn lemma_seq_sum_combination(p: Seq<int>, q: Seq<int>, c: int, r: Seq<int>)
    requires
        p.len() == q.len(),
        r.len() == p.len(),
        forall|i: int| 0 <= i < r.len() ==> #[trigger] r[i] == p[i] + c * q[i],
    ensures
        seq_sum(r) == seq_sum(p) + c * seq_sum(q),
{
    let scaled = Seq::new(q.len(), |i: int| c * q[i]);
    crate::modular::lemma_seq_sum_scale(q, c, scaled);
    crate::modular::lemma_seq_sum_pointwise_add(p, scaled, r);
}

/// Newton's update: the interpolation through one more node is the interpolation
/// through the nodes before it, corrected by what it misses at the new node.
pub proof fn lemma_interp_update(xs: Seq<int>, ys: Seq<int>, n: int, x: int, m: int)
    requires
        nodes_ok(xs, m),
        0 <= n < xs.len(),
        ys.len() == xs.len(),
    ensures
        congruent(
            interp(xs, ys, n + 1, x, m),
            interp(xs, ys, n, x, m) + (ys[n] - interp(xs, ys, n, xs[n], m)) * bump(xs, n, x, m),
            m,
        ),
{
    let c = bump(xs, n, x, m);
    let longer = interpolation_terms(xs.take(n + 1), ys.take(n + 1), x, m);
    let front = longer.drop_last();
    let here = interpolation_terms(xs.take(n), ys.take(n), x, m);
    let there = interpolation_terms(xs.take(n), ys.take(n), xs[n], m);
    let exact = Seq::new(n as nat, |i: int| here[i] + (-c) * there[i]);
    assert forall|i: int| 0 <= i < front.len() implies congruent(
        #[trigger] front[i],
        exact[i],
        m,
    ) by {
        lemma_basis_update(xs, n, i, x, m);
        let a = basis(xs, n, i, x, m);
        let b = basis(xs, n, i, xs[n], m);
        assert(front[i] == ys[i] * basis(xs, n + 1, i, x, m));
        assert(here[i] == ys[i] * a);
        assert(there[i] == ys[i] * b);
        lemma_congruent_mul(ys[i], ys[i], basis(xs, n + 1, i, x, m), a - b * c, m);
        assert(ys[i] * (a - b * c) == ys[i] * a + (-c) * (ys[i] * b)) by (nonlinear_arith);
    }
    crate::modular::lemma_seq_sum_congruent(front, exact, m);
    lemma_seq_sum_combination(here, there, -c, exact);
    lemma_basis_last(xs, n, x, m);
    assert(longer.last() == ys[n] * basis(xs, n + 1, n, x, m));
    lemma_congruent_mul(ys[n], ys[n], basis(xs, n + 1, n, x, m), c, m);
    lemma_congruent_add(seq_sum(front), seq_sum(exact), longer.last(), ys[n] * c, m);
    // Put the reduced sums in place of the sums.
    let sum_here = seq_sum(here);
    let sum_there = seq_sum(there);
    let at_x = interp(xs, ys, n, x, m);
    let at_node = interp(xs, ys, n, xs[n], m);
    lemma_reduce_congruent(sum_here, m);
    lemma_reduce_congruent(sum_there, m);
    lemma_reduce_congruent(seq_sum(longer), m);
    lemma_congruent_sub(ys[n], ys[n], at_node, sum_there, m);
    lemma_congruent_mul(ys[n] - at_node, ys[n] - sum_there, c, c, m);
    lemma_congruent_add(at_x, sum_here, (ys[n] - at_node) * c, (ys[n] - sum_there) * c, m);
    assert(sum_here + (-c) * sum_there + ys[n] * c == sum_here + (ys[n] - sum_there) * c)
        by (nonlinear_arith);
}

/// Interpolation is linear in the values: through values that are, node by node,
/// congruent to `us[i] + c * vs[i]` it gives the same combination of the
/// interpolations through `us` and through `vs`.
pub proof fn lemma_interp_linear(
    xs: Seq<int>,
    ys: Seq<int>,
    us: Seq<int>,
    vs: Seq<int>,
    c: int,
    n: int,
    x: int,
    m: int,
)
    requires
        m > 0,
        0 <= n <= xs.len(),
        ys.len() == xs.len(),
        us.len() == xs.len(),
        vs.len() == xs.len(),
        forall|i: int| 0 <= i < n ==> congruent(#[trigger] ys[i], us[i] + c * vs[i], m),
    ensures
        congruent(
            interp(xs, ys, n, x, m),
            interp(xs, us, n, x, m) + c * interp(xs, vs, n, x, m),
            m,
        ),
{
    let nodes = xs.take(n);
    let whole = interpolation_terms(nodes, ys.take(n), x, m);
    let first = interpolation_terms(nodes, us.take(n), x, m);
    let second = interpolation_terms(nodes, vs.take(n), x, m);
    let exact = Seq::new(n as nat, |i: int| first[i] + c * second[i]);
    assert forall|i: int| 0 <= i < whole.len() implies congruent(
        #[trigger] whole[i],
        exact[i],
        m,
    ) by {
        let b = basis_value(nodes, i, x, m);
        assert(congruent(ys[i], us[i] + c * vs[i], m));
        lemma_congruent_mul(ys[i], us[i] + c * vs[i], b, b, m);
        assert((us[i] + c * vs[i]) * b == us[i] * b + c * (vs[i] * b)) by (nonlinear_arith);
    }
    crate::modular::lemma_seq_sum_congruent(whole, exact, m);
    lemma_seq_sum_combination(first, second, c, exact);
    let sum_first = seq_sum(first);
    let sum_second = seq_sum(second);
    lemma_reduce_congruent(seq_sum(whole), m);
    lemma_reduce_congruent(sum_first, m);
    lemma_reduce_congruent(sum_second, m);
    lemma_congruent_mul(c, c, interp(xs, vs, n, x, m), sum_second, m);
    lemma_congruent_add(
        interp(xs, us, n, x, m),
        sum_first,
        c * interp(xs, vs, n, x, m),
        c * sum_second,
        m,
    );
}

/// Interpolation through values that are all congruent to zero is zero.
pub proof fn lemma_interp_zero(xs: Seq<int>, ys: Seq<int>, n: int, x: int, m: int)
    requires
        m > 0,
        0 <= n <= xs.len(),
        ys.len() == xs.len(),
        forall|i: int| 0 <= i < n ==> congruent(#[trigger] ys[i], 0, m),
    ensures
        congruent(interp(xs, ys, n, x, m), 0, m),
{
    let terms = interpolation_terms(xs.take(n), ys.take(n), x, m);
    assert forall|i: int| 0 <= i < terms.len() implies congruent(#[trigger] terms[i], 0, m) by {
        let b = basis_value(xs.take(n), i, x, m);
        assert(congruent(ys[i], 0, m));
        lemma_congruent_mul(ys[i], 0, b, b, m);
        assert(0 * b == 0);
    }
    lemma_seq_sum_zero(terms, m);
    lemma_reduce_congruent(seq_sum(terms), m);
}

/// A Newton basis polynomial is zero at each of its nodes.
pub proof fn lemma_omega_at_node(xs: Seq<int>, k: int, i: int, m: int)
    requires
        m > 0,
        0 <= i < k <= xs.len(),
    ensures
        congruent(omega(xs, k, xs[i]), 0, m),
{
    let factors = node_factors(xs, k, xs[i]);
    assert(factors[i] == 0);
    lemma_seq_product_zero(factors, i, m);
}

/// Interpolation through more than `k` nodes reproduces the Newton basis
/// polynomial of the first `k` nodes.
pub proof fn lemma_newton_reproduced(xs: Seq<int>, ys: Seq<int>, k: int, n: int, x: int, m: int)
    requires
        nodes_ok(xs, m),
        0 <= k < n <= xs.len(),
        ys.len() == xs.len(),
        forall|i: int| 0 <= i < n ==> congruent(#[trigger] ys[i], omega(xs, k, xs[i]), m),
    ensures
        congruent(interp(xs, ys, n, x, m), omega(xs, k, x), m),
    decreases n,
{
    let last = n - 1;
    let c = bump(xs, last, x, m);
    let target = omega(xs, k, x);
    lemma_interp_update(xs, ys, last, x, m);
    assert(congruent(ys[last], omega(xs, k, xs[last]), m));
    if last == k {
        assert forall|i: int| 0 <= i < k implies congruent(#[trigger] ys[i], 0, m) by {
            lemma_omega_at_node(xs, k, i, m);
            assert(congruent(ys[i], omega(xs, k, xs[i]), m));
        }
        lemma_interp_zero(xs, ys, k, x, m);
        lemma_interp_zero(xs, ys, k, xs[k], m);
        lemma_bump_at_node(xs, k, m);
        let lam = seq_product(inverse_factors(xs, k, m));
        let at_node = omega(xs, k, xs[k]);
        lemma_congruent_sub(ys[k], at_node, interp(xs, ys, k, xs[k], m), 0, m);
        lemma_congruent_mul(ys[k] - interp(xs, ys, k, xs[k], m), at_node - 0, c, c, m);
        lemma_congruent_add(
            interp(xs, ys, k, x, m),
            0,
            (ys[k] - interp(xs, ys, k, xs[k], m)) * c,
            (at_node - 0) * c,
            m,
        );
        assert((at_node - 0) * c == target * (at_node * lam)) by (nonlinear_arith)
            requires
                c == target * lam,
        ;
        lemma_congruent_mul(target, target, at_node * lam, 1, m);
        assert(target * 1 == target);
        assert(0 + (at_node - 0) * c == (at_node - 0) * c);
    } else {
        lemma_newton_reproduced(xs, ys, k, last, x, m);
        lemma_newton_reproduced(xs, ys, k, last, xs[last], m);
        let before = interp(xs, ys, last, x, m);
        let at_node = interp(xs, ys, last, xs[last], m);
        lemma_congruent_sub(ys[last], omega(xs, k, xs[last]), at_node, omega(xs, k, xs[last]), m);
        lemma_congruent_mul(ys[last] - at_node, 0, c, c, m);
        assert(0 * c == 0);
        lemma_congruent_add(before, target, (ys[last] - at_node) * c, 0, m);
    }
}

/// The summands of a polynomial in Newton form: each coefficient times the
/// Newton basis polynomial that it belongs to.
pub open spec fn newton_terms(a: Seq<int>, xs: Seq<int>, x: int) -> Seq<int> {
    Seq::new(a.len(), |k: int| a[k] * omega(xs, k, x))
}

/// The value at `x` of the polynomial with Newton coefficients `a`.
pub open spec fn newton_value(a: Seq<int>, xs: Seq<int>, x: int) -> int {
    seq_sum(newton_terms(a, xs, x))
}

/// A polynomial in Newton form is what it is without its last coefficient, plus
/// that coefficient times its Newton basis polynomial.
pub proof fn lemma_newton_value_last(a: Seq<int>, xs: Seq<int>, x: int)
    requires
        a.len() > 0,
    ensures
        newton_value(a, xs, x) == newton_value(a.drop_last(), xs, x) + a.last() * omega(
            xs,
            a.len() - 1,
            x,
        ),
{
    assert(newton_terms(a, xs, x).drop_last() =~= newton_terms(a.drop_last(), xs, x));
}

/// Interpolation through at least as many nodes as a polynomial in Newton form
/// has coefficients reproduces the polynomial.
pub proof fn lemma_newton_form(a: Seq<int>, xs: Seq<int>, ys: Seq<int>, n: int, x: int, m: int)
    requires
        nodes_ok(xs, m),
        a.len() <= n <= xs.len(),
        ys.len() == xs.len(),
        forall|i: int| 0 <= i < n ==> congruent(#[trigger] ys[i], newton_value(a, xs, xs[i]), m),
    ensures
        congruent(interp(xs, ys, n, x, m), newton_value(a, xs, x), m),
    decreases a.len(),
{
    if a.len() == 0 {
        assert forall|i: int| 0 <= i < n implies congruent(#[trigger] ys[i], 0, m) by {
            assert(congruent(ys[i], newton_value(a, xs, xs[i]), m));
        }
        lemma_interp_zero(xs, ys, n, x, m);
    } else {
        let front = a.drop_last();
        let c = a.last();
        let k = a.len() - 1;
        let us = Seq::new(xs.len(), |i: int| newton_value(front, xs, xs[i]));
        let vs = Seq::new(xs.len(), |i: int| omega(xs, k, xs[i]));
        assert forall|i: int| 0 <= i < n implies congruent(
            #[trigger] ys[i],
            us[i] + c * vs[i],
            m,
        ) by {
            assert(congruent(ys[i], newton_value(a, xs, xs[i]), m));
            lemma_newton_value_last(a, xs, xs[i]);
        }
        lemma_interp_linear(xs, ys, us, vs, c, n, x, m);
        lemma_newton_form(front, xs, us, n, x, m);
        lemma_newton_reproduced(xs, vs, k, n, x, m);
        lemma_newton_value_last(a, xs, x);
        lemma_congruent_mul(c, c, interp(xs, vs, n, x, m), omega(xs, k, x), m);
        lemma_congruent_add(
            interp(xs, us, n, x, m),
            newton_value(front, xs, x),
            c * interp(xs, vs, n, x, m),
            c * omega(xs, k, x),
            m,
        );
    }
}

/// The Newton coefficients of `x` times the polynomial with Newton coefficients
/// `b`.
pub open spec fn times_x(b: Seq<int>, xs: Seq<int>) -> Seq<int> {
    Seq::new(
        b.len() + 1,
        |k: int|
            (if k >= 1 {
                b[k - 1]
            } else {
                0
            }) + (if k < b.len() {
                xs[k] * b[k]
            } else {
                0
            }),
    )
}

/// A Newton basis polynomial is the one before it times one more factor.
pub proof fn lemma_omega_next(xs: Seq<int>, k: int, x: int)
    requires
        0 <= k,
    ensures
        omega(xs, k + 1, x) == omega(xs, k, x) * (x - xs[k]),
{
    assert(node_factors(xs, k + 1, x).drop_last() =~= node_factors(xs, k, x));
}

/// `times_x` multiplies by `x`.
pub proof fn lemma_times_x(b: Seq<int>, xs: Seq<int>, x: int)
    ensures
        newton_value(times_x(b, xs), xs, x) == x * newton_value(b, xs, x),
    decreases b.len(),
{
    let whole = newton_terms(times_x(b, xs), xs, x);
    if b.len() == 0 {
        assert(whole.drop_last().len() == 0);
        assert(whole.last() == (0 + 0) * omega(xs, 0, x));
        assert((0 + 0) * omega(xs, 0, x) == 0);
        assert(seq_sum(whole) == seq_sum(whole.drop_last()) + whole.last());
        assert(newton_terms(b, xs, x).len() == 0);
        assert(x * 0 == 0);
    } else {
        let front = b.drop_last();
        let c = b.last();
        let d = b.len() - 1;
        let shorter = newton_terms(times_x(front, xs), xs, x);
        lemma_times_x(front, xs, x);
        lemma_newton_value_last(b, xs, x);
        lemma_omega_next(xs, d, x);
        // whole has d + 2 entries, shorter has d + 1; they agree below d.
        let middle = whole.drop_last();
        assert(middle.drop_last() =~= shorter.drop_last());
        let w = omega(xs, d, x);
        let low = if d >= 1 {
            b[d - 1]
        } else {
            0
        };
        assert(shorter.last() == (low + 0) * w);
        assert(middle.last() == (low + xs[d] * c) * w);
        assert(whole.last() == (c + 0) * omega(xs, d + 1, x));
        assert(seq_sum(whole) == seq_sum(middle) + whole.last());
        assert(seq_sum(middle) == seq_sum(middle.drop_last()) + middle.last());
        assert(seq_sum(shorter) == seq_sum(shorter.drop_last()) + shorter.last());
        let rest = newton_value(front, xs, x);
        let below = seq_sum(middle.drop_last());
        let t = xs[d];
        assert((low + t * c) * w == low * w + (t * c) * w) by (nonlinear_arith);
        assert(w * (x - t) == w * x - w * t) by (nonlinear_arith);
        assert(c * (w * x - w * t) == c * (w * x) - c * (w * t)) by (nonlinear_arith);
        assert((t * c) * w == c * (w * t)) by (nonlinear_arith);
        assert(c * (w * x) == x * (c * w)) by (nonlinear_arith);
        assert((low + t * c) * w + (c + 0) * (w * (x - t)) == (low + 0) * w + x * (c * w));
        assert(x * (rest + c * w) == x * rest + x * (c * w)) by (nonlinear_arith);
        assert(below + (low + 0) * w == x * rest);
        assert(newton_value(times_x(b, xs), xs, x) == below + (low + xs[d] * c) * w + (c + 0) * (w
            * (x - xs[d])));
        assert(newton_value(b, xs, x) == rest + c * w);
    }
}

/// The Newton coefficients of the power `x^d`.
pub open spec fn power_newton(d: nat, xs: Seq<int>) -> Seq<int>
    decreases d,
{
    if d == 0 {
        seq![1int]
    } else {
        times_x(power_newton((d - 1) as nat, xs), xs)
    }
}

/// The Newton form of a power is that power, and it has one coefficient more than
/// the exponent.
pub proof fn lemma_power_newton(d: nat, xs: Seq<int>, x: int)
    ensures
        power_newton(d, xs).len() == d + 1,
        newton_value(power_newton(d, xs), xs, x) == vstd::arithmetic::power::pow(x, d),
    decreases d,
{
    if d == 0 {
        let terms = newton_terms(power_newton(0, xs), xs, x);
        assert(terms.drop_last().len() == 0);
        assert(node_factors(xs, 0, x).len() == 0);
        assert(omega(xs, 0, x) == 1);
        assert(terms.last() == 1 * omega(xs, 0, x));
        assert(seq_sum(terms) == seq_sum(terms.drop_last()) + terms.last());
        vstd::arithmetic::power::lemma_pow0(x);
    } else {
        lemma_power_newton((d - 1) as nat, xs, x);
        lemma_times_x(power_newton((d - 1) as nat, xs), xs, x);
        vstd::arithmetic::power::lemma_pow_adds(x, 1, (d - 1) as nat);
        vstd::arithmetic::power::lemma_pow1(x);
    }
}

/// Interpolation through more than `d` nodes reproduces the power `x^d`.
pub proof fn lemma_power_reproduced(xs: Seq<int>, ys: Seq<int>, d: nat, n: int, x: int, m: int)
    requires
        nodes_ok(xs, m),
        d < n <= xs.len(),
        ys.len() == xs.len(),
        forall|i: int| 0 <= i < n ==> congruent(#[trigger] ys[i], pow(xs[i], d), m),
    ensures
        congruent(interp(xs, ys, n, x, m), pow(x, d), m),
{
    let a = power_newton(d, xs);
    lemma_power_newton(d, xs, x);
    assert forall|i: int| 0 <= i < n implies congruent(
        #[trigger] ys[i],
        newton_value(a, xs, xs[i]),
        m,
    ) by {
        lemma_power_newton(d, xs, xs[i]);
        assert(congruent(ys[i], pow(xs[i], d), m));
    }
    lemma_newton_form(a, xs, ys, n, x, m);
}

/// Interpolation through at least as many nodes as a polynomial has coefficients
/// reproduces the polynomial, up to congruence.
pub proof fn lemma_polynomial_reproduced(
    c: Seq<int>,
    xs: Seq<int>,
    ys: Seq<int>,
    n: int,
    x: int,
    m: int,
)
    requires
        nodes_ok(xs, m),
        c.len() <= n <= xs.len(),
        ys.len() == xs.len(),
        forall|i: int|
            0 <= i < n ==> congruent(#[trigger] ys[i], seq_sum(polynomial_terms(c, xs[i])), m),
    ensures
        congruent(interp(xs, ys, n, x, m), seq_sum(polynomial_terms(c, x)), m),
    decreases c.len(),
{
    if c.len() == 0 {
        assert forall|i: int| 0 <= i < n implies congruent(#[trigger] ys[i], 0, m) by {
            assert(congruent(ys[i], seq_sum(polynomial_terms(c, xs[i])), m));
        }
        lemma_interp_zero(xs, ys, n, x, m);
    } else {
        let front = c.drop_last();
        let top = c.last();
        let d = (c.len() - 1) as nat;
        let us = Seq::new(xs.len(), |i: int| seq_sum(polynomial_terms(front, xs[i])));
        let vs = Seq::new(xs.len(), |i: int| pow(xs[i], d));
        assert forall|i: int| 0 <= i < n implies congruent(
            #[trigger] ys[i],
            us[i] + top * vs[i],
            m,
        ) by {
            assert(congruent(ys[i], seq_sum(polynomial_terms(c, xs[i])), m));
            assert(polynomial_terms(c, xs[i]).drop_last() =~= polynomial_terms(front, xs[i]));
        }
        assert(polynomial_terms(c, x).drop_last() =~= polynomial_terms(front, x));
        lemma_interp_linear(xs, ys, us, vs, top, n, x, m);
        lemma_polynomial_reproduced(front, xs, us, n, x, m);
        lemma_power_reproduced(xs, vs, d, n, x, m);
        lemma_congruent_mul(top, top, interp(xs, vs, n, x, m), pow(x, d), m);
        lemma_congruent_add(
            interp(xs, us, n, x, m),
            seq_sum(polynomial_terms(front, x)),
            top * interp(xs, vs, n, x, m),
            top * pow(x, d),
            m,
        );
    }
}

/// Interpolation recovers a polynomial: through pairwise different nodes of a
/// field, at least as many as the polynomial has coefficients, and the values of
/// the polynomial at them, it gives the value of the polynomial at every point.
pub proof fn lemma_interpolation_recovers(c: Seq<int>, xs: Seq<int>, ys: Seq<int>, x: int, m: int)
    requires
        nodes_ok(xs, m),
        c.len() <= xs.len(),
        ys.len() == xs.len(),
        forall|i: int| 0 <= i < xs.len() ==> #[trigger] ys[i] == polynomial_value(c, xs[i], m),
    ensures
        interpolation_value(xs, ys, x, m) == polynomial_value(c, x, m),
{
    let n = xs.len() as int;
    assert(xs.take(n) =~= xs);
    assert(ys.take(n) =~= ys);
    assert forall|i: int| 0 <= i < n implies congruent(
        #[trigger] ys[i],
        seq_sum(polynomial_terms(c, xs[i])),
        m,
    ) by {
        assert(ys[i] == polynomial_value(c, xs[i], m));
        lemma_reduce_congruent(seq_sum(polynomial_terms(c, xs[i])), m);
    }
    lemma_polynomial_reproduced(c, xs, ys, n, x, m);
    lemma_reduce_congruent(seq_sum(polynomial_terms(c, x)), m);
    lemma_reduce_congruent(seq_sum(interpolation_terms(xs, ys, x, m)), m);
    lemma_canonical(interpolation_value(xs, ys, x, m), m);
    lemma_canonical(polynomial_value(c, x, m), m);
}

} // verus!
