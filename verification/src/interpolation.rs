//! Lagrange interpolation over a prime field.
use crate::field::FiniteField;
use crate::modular::{
    congruent, lemma_canonical, lemma_congruent_add, lemma_congruent_mul, lemma_reduce_congruent,
    mul_mod, seq_sum, sub_mod,
};
use crate::sum_poly::seq_product;
use vstd::prelude::*;

verus! {

/// The residue in `0..m` whose product with `a` is 1 modulo `m`, where there is
/// one.
pub open spec fn inverse_mod(a: int, m: int) -> int {
    choose|w: int| 0 <= w < m && mul_mod(a, w, m) == 1
}

/// A residue has at most one inverse.
pub proof fn lemma_inverse_unique(a: int, first: int, second: int, m: int)
    requires
        m >= 2,
        0 <= first < m,
        0 <= second < m,
        mul_mod(a, first, m) == 1,
        mul_mod(a, second, m) == 1,
    ensures
        first == second,
        inverse_mod(a, m) == first,
{
    lemma_canonical(1, m);
    lemma_canonical(first, m);
    lemma_canonical(second, m);
    // first = first * 1 = first * (a * second) = (a * first) * second = second
    lemma_congruent_mul(first, first, 1, a * second, m);
    lemma_congruent_mul(a * first, 1, second, second, m);
    assert(first * (a * second) == (a * first) * second) by (nonlinear_arith);
    assert(first * 1 == first);
    assert(1 * second == second);
    let chosen = inverse_mod(a, m);
    if chosen != first {
        lemma_canonical(chosen, m);
        lemma_congruent_mul(chosen, chosen, 1, a * first, m);
        lemma_congruent_mul(a * chosen, 1, first, first, m);
        assert(chosen * (a * first) == (a * chosen) * first) by (nonlinear_arith);
        assert(chosen * 1 == chosen);
        assert(1 * first == first);
    }
}

/// The first coordinates of a list of points.
pub open spec fn abscissas<F: FiniteField>(points: Seq<(F, F)>) -> Seq<int> {
    Seq::new(points.len(), |i: int| points[i].0.value())
}

/// The second coordinates of a list of points.
pub open spec fn ordinates<F: FiniteField>(points: Seq<(F, F)>) -> Seq<int> {
    Seq::new(points.len(), |i: int| points[i].1.value())
}

/// No two entries of `xs` are equal.
pub open spec fn pairwise_distinct(xs: Seq<int>) -> bool {
    forall|i: int, j: int| 0 <= i < xs.len() && 0 <= j < xs.len() && i != j ==> xs[i] != xs[j]
}

/// The factors of the `i`-th Lagrange basis polynomial at `x`: for each `j` other
/// than `i` the quotient of `x - xs[j]` by `xs[i] - xs[j]`, and 1 at `i` itself.
pub open spec fn basis_factors(xs: Seq<int>, i: int, x: int, m: int) -> Seq<int> {
    Seq::new(
        xs.len(),
        |j: int|
            if j == i {
                1
            } else {
                mul_mod(sub_mod(x, xs[j], m), inverse_mod(sub_mod(xs[i], xs[j], m), m), m)
            },
    )
}

/// The value at `x` of the `i`-th Lagrange basis polynomial of the nodes `xs`.
pub open spec fn basis_value(xs: Seq<int>, i: int, x: int, m: int) -> int {
    seq_product(basis_factors(xs, i, x, m)) % m
}

/// The summands of the interpolation formula: each ordinate times the value of
/// its basis polynomial.
pub open spec fn interpolation_terms(xs: Seq<int>, ys: Seq<int>, x: int, m: int) -> Seq<int> {
    Seq::new(xs.len(), |i: int| ys[i] * basis_value(xs, i, x, m))
}

/// The value at `x` of the polynomial of least degree through the points with
/// first coordinates `xs` and second coordinates `ys`.
pub open spec fn interpolation_value(xs: Seq<int>, ys: Seq<int>, x: int, m: int) -> int {
    seq_sum(interpolation_terms(xs, ys, x, m)) % m
}

/// The value at `x` of the polynomial of least degree through `points`, whose
/// first coordinates are pairwise different.
pub fn lagrange_interpolation<F: FiniteField>(points: &[(F, F)], x: F) -> (r: F)
    requires
        pairwise_distinct(abscissas(points@)),
    ensures
        r.value() == interpolation_value(
            abscissas(points@),
            ordinates(points@),
            x.value(),
            F::modulus(),
        ),
{
    let ghost xs = abscissas(points@);
    let ghost ys = ordinates(points@);
    let ghost m = F::modulus();
    let ghost terms = interpolation_terms(xs, ys, x.value(), m);
    let mut result = F::zero();
    proof {
        F::lemma_modulus();
        assert(terms.take(0).len() == 0);
    }

    let mut i: usize = 0;
    while i < points.len()
        invariant
            i <= points@.len(),
            xs == abscissas(points@),
            ys == ordinates(points@),
            m == F::modulus(),
            m >= 2,
            pairwise_distinct(xs),
            terms == interpolation_terms(xs, ys, x.value(), m),
            congruent(result.value(), seq_sum(terms.take(i as int)), m),
        decreases points.len() - i,
    {
        let ghost factors = basis_factors(xs, i as int, x.value(), m);
        let mut li = F::one();
        proof {
            assert(factors.take(0).len() == 0);
            lemma_canonical(1, m);
        }
        let mut j: usize = 0;
        while j < points.len()
            invariant
                j <= points@.len(),
                i < points@.len(),
                xs == abscissas(points@),
                m == F::modulus(),
                m >= 2,
                pairwise_distinct(xs),
                factors == basis_factors(xs, i as int, x.value(), m),
                congruent(li.value(), seq_product(factors.take(j as int)), m),
            decreases points.len() - j,
        {
            let ghost before = li.value();
            proof {
                assert(factors.take(j + 1).drop_last() =~= factors.take(j as int));
                assert(factors.take(j + 1).last() == factors[j as int]);
            }
            if i != j {
                let x_i = points[i].0;
                let x_j = points[j].0;
                let difference = x_i.sub(&x_j);
                proof {
                    F::lemma_value_bound(x_i);
                    F::lemma_value_bound(x_j);
                    assert(xs[i as int] != xs[j as int]);
                    lemma_canonical(x_i.value(), m);
                    lemma_canonical(x_j.value(), m);
                    if difference.value() == 0 {
                        crate::modular::lemma_congruent_add(
                            x_i.value() - x_j.value(),
                            0,
                            x_j.value(),
                            x_j.value(),
                            m,
                        );
                    }
                }
                let inverse = difference.inverse().unwrap();
                let factor = x.sub(&x_j).mul(&inverse);
                li = li.mul(&factor);
                proof {
                    F::lemma_value_bound(inverse);
                    lemma_inverse_unique(difference.value(), inverse.value(), inverse.value(), m);
                    assert(factor.value() == factors[j as int]);
                    lemma_congruent_mul(
                        before,
                        seq_product(factors.take(j as int)),
                        factor.value(),
                        factor.value(),
                        m,
                    );
                    lemma_reduce_congruent(before * factor.value(), m);
                }
            } else {
                proof {
                    assert(seq_product(factors.take(j as int)) * 1 == seq_product(
                        factors.take(j as int),
                    ));
                }
            }
            j += 1;
        }
        let ghost before = result.value();
        let term = points[i].1.mul(&li);
        result = result.add(&term);
        proof {
            assert(factors.take(j as int) =~= factors);
            assert(terms.take(i + 1).drop_last() =~= terms.take(i as int));
            assert(terms.take(i + 1).last() == ys[i as int] * basis_value(
                xs,
                i as int,
                x.value(),
                m,
            ));
            // li is congruent to the basis value, so the term is congruent to the
            // summand of the formula.
            lemma_reduce_congruent(seq_product(factors), m);
            lemma_congruent_mul(
                ys[i as int],
                ys[i as int],
                li.value(),
                basis_value(xs, i as int, x.value(), m),
                m,
            );
            lemma_reduce_congruent(ys[i as int] * li.value(), m);
            lemma_congruent_add(
                before,
                seq_sum(terms.take(i as int)),
                term.value(),
                ys[i as int] * basis_value(xs, i as int, x.value(), m),
                m,
            );
            lemma_reduce_congruent(before + term.value(), m);
        }
        i += 1;
    }
    proof {
        assert(terms.take(i as int) =~= terms);
        F::lemma_value_bound(result);
        lemma_canonical(result.value(), m);
    }

    result
}

} // verus!
