//! Products and sums of multilinear polynomials over one hypercube.
//!
//! A `ProductPoly` stands for the product of its factors as functions, a `SumPoly`
//! for the sum of its terms. Both are kept as the tables of their factors.
use crate::field::{residues, FiniteField};
use crate::hypercube::{fold, multilinear_extension};
use crate::modular::{
    add_mod, congruent, lemma_congruent_add, lemma_congruent_mul, lemma_reduce_congruent, mul_mod,
    seq_sum,
};
use crate::multilinear_polynomial::MultilinearPoly;
use vstd::prelude::*;

verus! {

/// The product of a list of multilinear polynomials.
pub struct ProductPoly<F: FiniteField> {
    pub evaluation: Vec<MultilinearPoly<F>>,
}

/// The sum of a list of products of multilinear polynomials.
pub struct SumPoly<F: FiniteField> {
    pub polys: Vec<ProductPoly<F>>,
}

/// The product of all entries of `s`; 1 for the empty sequence.
pub open spec fn seq_product(s: Seq<int>) -> int
    decreases s.len(),
{
    if s.len() == 0 {
        1
    } else {
        seq_product(s.drop_last()) * s.last()
    }
}

/// Each factor with its first variable fixed to `x`.
pub open spec fn fold_factors(factors: Seq<Seq<int>>, x: int, m: int) -> Seq<Seq<int>> {
    Seq::new(factors.len(), |i: int| fold(factors[i], x, m))
}

/// The values of the factors at `point`.
pub open spec fn factor_values(factors: Seq<Seq<int>>, point: Seq<int>, m: int) -> Seq<int> {
    Seq::new(factors.len(), |i: int| multilinear_extension(factors[i], point, m))
}

/// The value of the product of the factors at `point`.
pub open spec fn product_value(factors: Seq<Seq<int>>, point: Seq<int>, m: int) -> int {
    seq_product(factor_values(factors, point, m)) % m
}

/// The entry-by-entry product of two tables, as long as the shorter of them.
pub open spec fn zip_product(a: Seq<int>, b: Seq<int>, m: int) -> Seq<int> {
    Seq::new(
        if a.len() <= b.len() {
            a.len()
        } else {
            b.len()
        },
        |i: int| mul_mod(a[i], b[i], m),
    )
}

/// The entry-by-entry sum of two tables, as long as the shorter of them.
pub open spec fn zip_sum(a: Seq<int>, b: Seq<int>, m: int) -> Seq<int> {
    Seq::new(
        if a.len() <= b.len() {
            a.len()
        } else {
            b.len()
        },
        |i: int| add_mod(a[i], b[i], m),
    )
}

/// The table of a product of two factors.
pub open spec fn product_table(factors: Seq<Seq<int>>, m: int) -> Seq<int> {
    zip_product(factors[0], factors[1], m)
}

/// Each term with the first variable of its factors fixed to `x`.
pub open spec fn fold_terms(terms: Seq<Seq<Seq<int>>>, x: int, m: int) -> Seq<Seq<Seq<int>>> {
    Seq::new(terms.len(), |i: int| fold_factors(terms[i], x, m))
}

/// The values of the terms at `point`.
pub open spec fn term_values(terms: Seq<Seq<Seq<int>>>, point: Seq<int>, m: int) -> Seq<int> {
    Seq::new(terms.len(), |i: int| product_value(terms[i], point, m))
}

/// The value of the sum of the terms at `point`.
pub open spec fn sum_value(terms: Seq<Seq<Seq<int>>>, point: Seq<int>, m: int) -> int {
    seq_sum(term_values(terms, point, m)) % m
}

/// The table of a sum of two terms of two factors each.
pub open spec fn sum_table(terms: Seq<Seq<Seq<int>>>, m: int) -> Seq<int> {
    zip_sum(product_table(terms[0], m), product_table(terms[1], m), m)
}

impl<F: FiniteField> View for ProductPoly<F> {
    type V = Seq<Seq<int>>;

    /// The tables of the factors.
    open spec fn view(&self) -> Seq<Seq<int>> {
        Seq::new(self.evaluation@.len(), |i: int| self.evaluation@[i]@)
    }
}

impl<F: FiniteField> View for SumPoly<F> {
    type V = Seq<Seq<Seq<int>>>;

    /// The tables of the factors of each term.
    open spec fn view(&self) -> Seq<Seq<Seq<int>>> {
        Seq::new(self.polys@.len(), |i: int| self.polys@[i]@)
    }
}

impl<F: FiniteField> ProductPoly<F> {
    /// Every factor has `2^n` entries.
    pub open spec fn wf(&self, n: nat) -> bool {
        forall|i: int| 0 <= i < self.evaluation@.len() ==> (#[trigger] self.evaluation@[i]).wf(n)
    }

    /// The product of the polynomials with the given tables.
    pub fn new(evaluations: Vec<Vec<F>>) -> (r: Self)
        ensures
            r.evaluation@.len() == evaluations@.len(),
            forall|i: int|
                0 <= i < evaluations@.len() ==> (#[trigger] r.evaluation@[i]).coefficients
                    == evaluations@[i],
    {
        let mut evaluations = evaluations;
        let ghost tables = evaluations@;
        let mut reversed: Vec<MultilinearPoly<F>> = Vec::new();
        while evaluations.len() > 0
            invariant
                evaluations@ == tables.take(evaluations@.len() as int),
                reversed@.len() + evaluations@.len() == tables.len(),
                forall|i: int|
                    0 <= i < reversed@.len() ==> (#[trigger] reversed@[i]).coefficients
                        == tables[tables.len() - 1 - i],
            decreases evaluations.len(),
        {
            let eval = evaluations.pop().unwrap();
            reversed.push(MultilinearPoly::new(eval));
        }
        let mut multi_polys: Vec<MultilinearPoly<F>> = Vec::new();
        while reversed.len() > 0
            invariant
                reversed@.len() + multi_polys@.len() == tables.len(),
                forall|i: int|
                    0 <= i < reversed@.len() ==> (#[trigger] reversed@[i]).coefficients
                        == tables[tables.len() - 1 - i],
                forall|i: int|
                    0 <= i < multi_polys@.len() ==> (#[trigger] multi_polys@[i]).coefficients
                        == tables[i],
            decreases reversed.len(),
        {
            let poly = reversed.pop().unwrap();
            multi_polys.push(poly);
        }

        Self { evaluation: multi_polys }
    }

    /// Fixes the first variable of every factor to `value`.
    pub fn partial_evaluate(&self, value: F) -> (r: Self)
        requires
            forall|i: int|
                0 <= i < self.evaluation@.len() ==> (#[trigger] self.evaluation@[i]).coefficients@.len()
                    >= 2,
        ensures
            r@ == fold_factors(self@, value.value(), F::modulus()),
            r.evaluation@.len() == self.evaluation@.len(),
            forall|j: int|
                0 <= j < r.evaluation@.len() ==> (#[trigger] r.evaluation@[j]).coefficients@.len()
                    == self.evaluation@[j].coefficients@.len() / 2,
            forall|n: nat| n >= 1 && self.wf(n) ==> r.wf((n - 1) as nat),
    {
        let mut partial_polys: Vec<Vec<F>> = Vec::new();
        let mut i: usize = 0;
        while i < self.evaluation.len()
            invariant
                i <= self.evaluation@.len(),
                forall|k: int|
                    0 <= k < self.evaluation@.len() ==> (#[trigger] self.evaluation@[k]).coefficients@.len()
                        >= 2,
                partial_polys@.len() == i,
                forall|k: int|
                    0 <= k < i ==> residues((#[trigger] partial_polys@[k])@) == fold(
                        self.evaluation@[k]@,
                        value.value(),
                        F::modulus(),
                    ),
                forall|k: int|
                    0 <= k < i ==> (#[trigger] partial_polys@[k])@.len()
                        == self.evaluation@[k].coefficients@.len() / 2,
            decreases self.evaluation.len() - i,
        {
            let partial_result = self.evaluation[i].partial_evaluate((0, value));
            partial_polys.push(partial_result.coefficients);
            i += 1;
        }
        let r = Self::new(partial_polys);
        proof {
            assert forall|j: int| 0 <= j < r.evaluation@.len() implies (
            #[trigger] r.evaluation@[j]).coefficients@.len() == self.evaluation@[j].coefficients@.len()
                / 2 by {
                assert(r.evaluation@[j].coefficients == partial_polys@[j]);
            }
            assert(r@ =~= fold_factors(self@, value.value(), F::modulus()));
            assert forall|n: nat| n >= 1 && self.wf(n) implies r.wf((n - 1) as nat) by {
                vstd::arithmetic::power2::lemma_pow2_unfold(n);
                assert forall|k: int| 0 <= k < r.evaluation@.len() implies (
                #[trigger] r.evaluation@[k]).wf((n - 1) as nat) by {
                    assert(self.evaluation@[k].wf(n));
                    assert(r.evaluation@[k].coefficients == partial_polys@[k]);
                }
            }
        }
        r
    }

    /// The value of the product at the point `values`.
    pub fn evaluate(&self, values: Vec<F>) -> (r: F)
        requires
            self.wf(values@.len()),
        ensures
            r.value() == product_value(self@, residues(values@), F::modulus()),
    {
        self.evaluate_at(&values)
    }

    /// The value of the product at a borrowed point.
    pub fn evaluate_at(&self, values: &Vec<F>) -> (r: F)
        requires
            self.wf(values@.len()),
        ensures
            r.value() == product_value(self@, residues(values@), F::modulus()),
    {
        let ghost point = residues(values@);
        let ghost m = F::modulus();
        let ghost factors = factor_values(self@, point, m);
        let mut product = F::one();
        let mut i: usize = 0;
        proof {
            F::lemma_modulus();
            assert(factors.take(0).len() == 0);
        }
        while i < self.evaluation.len()
            invariant
                i <= self.evaluation@.len(),
                self.wf(values@.len()),
                point == residues(values@),
                m == F::modulus(),
                m >= 2,
                factors == factor_values(self@, point, m),
                congruent(product.value(), seq_product(factors.take(i as int)), m),
            decreases self.evaluation.len() - i,
        {
            let factor = self.evaluation[i].evaluate(values);
            let ghost before = product.value();
            product = product.mul(&factor);
            proof {
                assert(factors.take(i + 1).drop_last() =~= factors.take(i as int));
                assert(factors.take(i + 1).last() == factor.value());
                lemma_congruent_mul(
                    before,
                    seq_product(factors.take(i as int)),
                    factor.value(),
                    factor.value(),
                    m,
                );
                lemma_reduce_congruent(before * factor.value(), m);
            }
            i += 1;
        }
        proof {
            assert(factors.take(i as int) =~= factors);
            F::lemma_value_bound(product);
            crate::modular::lemma_canonical(product.value(), m);
        }
        product
    }

    /// The number of factors, which is the degree of the product in each variable.
    pub fn get_degree(&self) -> (r: usize)
        ensures
            r == self.evaluation@.len(),
    {
        self.evaluation.len()
    }

    /// The table of a product of exactly two factors: the entry-by-entry product
    /// of their tables.
    pub fn reduce(&self) -> (r: Vec<F>)
        requires
            self.evaluation@.len() == 2,
        ensures
            residues(r@) == product_table(self@, F::modulus()),
    {
        let first_poly = &self.evaluation[0].coefficients;
        let second_poly = &self.evaluation[1].coefficients;
        let len = if first_poly.len() <= second_poly.len() {
            first_poly.len()
        } else {
            second_poly.len()
        };
        let mut table: Vec<F> = Vec::new();
        let mut i: usize = 0;
        while i < len
            invariant
                i <= len,
                len <= first_poly@.len(),
                len <= second_poly@.len(),
                table@.len() == i,
                forall|j: int|
                    0 <= j < i ==> (#[trigger] table@[j]).value() == mul_mod(
                        first_poly@[j].value(),
                        second_poly@[j].value(),
                        F::modulus(),
                    ),
            decreases len - i,
        {
            table.push(first_poly[i].mul(&second_poly[i]));
            i += 1;
        }
        assert(residues(table@) =~= product_table(self@, F::modulus()));
        table
    }
}

impl<F: FiniteField> SumPoly<F> {
    /// Every factor of every term has `2^n` entries.
    pub open spec fn wf(&self, n: nat) -> bool {
        forall|i: int| 0 <= i < self.polys@.len() ==> (#[trigger] self.polys@[i]).wf(n)
    }

    /// Every factor of every term has at least two entries, so that its first
    /// variable can be fixed.
    pub open spec fn foldable(&self) -> bool {
        forall|i: int, j: int|
            0 <= i < self.polys@.len() && 0 <= j < self.polys@[i].evaluation@.len() ==> (
            #[trigger] self.polys@[i].evaluation@[j]).coefficients@.len() >= 2
    }

    /// The sum of the given products.
    pub fn new(evaluations: Vec<ProductPoly<F>>) -> (r: Self)
        ensures
            r.polys == evaluations,
    {
        Self { polys: evaluations }
    }

    /// Fixes the first variable of every factor of every term to `value`.
    pub fn partial_evaluate(&self, value: F) -> (r: Self)
        requires
            self.foldable(),
        ensures
            r@ == fold_terms(self@, value.value(), F::modulus()),
            r.polys@.len() == self.polys@.len(),
            forall|k: int|
                0 <= k < r.polys@.len() ==> (#[trigger] r.polys@[k]).evaluation@.len()
                    == self.polys@[k].evaluation@.len(),
            forall|n: nat| n >= 1 && self.wf(n) ==> r.wf((n - 1) as nat),
    {
        let mut partial_result: Vec<ProductPoly<F>> = Vec::new();
        let mut i: usize = 0;
        while i < self.polys.len()
            invariant
                i <= self.polys@.len(),
                self.foldable(),
                partial_result@.len() == i,
                forall|k: int|
                    0 <= k < i ==> (#[trigger] partial_result@[k])@ == fold_factors(
                        self.polys@[k]@,
                        value.value(),
                        F::modulus(),
                    ),
                forall|k: int|
                    0 <= k < i ==> (#[trigger] partial_result@[k]).evaluation@.len()
                        == self.polys@[k].evaluation@.len(),
                forall|k: int, j: int|
                    0 <= k < i && 0 <= j < self.polys@[k].evaluation@.len() ==> (
                    #[trigger] partial_result@[k].evaluation@[j]).coefficients@.len()
                        == self.polys@[k].evaluation@[j].coefficients@.len() / 2,
            decreases self.polys.len() - i,
        {
            let product_poly = &self.polys[i];
            proof {
                assert forall|j: int| 0 <= j < product_poly.evaluation@.len() implies (
                #[trigger] product_poly.evaluation@[j]).coefficients@.len() >= 2 by {
                    assert(self.polys@[i as int].evaluation@[j].coefficients@.len() >= 2);
                }
            }
            partial_result.push(product_poly.partial_evaluate(value));
            i += 1;
        }
        let r = Self::new(partial_result);
        proof {
            assert(r@ =~= fold_terms(self@, value.value(), F::modulus()));
            assert forall|n: nat| n >= 1 && self.wf(n) implies r.wf((n - 1) as nat) by {
                vstd::arithmetic::power2::lemma_pow2_unfold(n);
                assert forall|k: int| 0 <= k < r.polys@.len() implies (#[trigger] r.polys@[k]).wf(
                    (n - 1) as nat,
                ) by {
                    assert(self.polys@[k].wf(n));
                    assert forall|j: int| 0 <= j < r.polys@[k].evaluation@.len() implies (
                    #[trigger] r.polys@[k].evaluation@[j]).wf((n - 1) as nat) by {
                        assert(self.polys@[k].evaluation@[j].wf(n));
                    }
                }
            }
        }
        r
    }

    /// The value of the sum at the point `values`.
    pub fn evaluate(&self, values: Vec<F>) -> (r: F)
        requires
            self.wf(values@.len()),
        ensures
            r.value() == sum_value(self@, residues(values@), F::modulus()),
    {
        self.evaluate_at(&values)
    }

    /// The value of the sum at a borrowed point.
    pub fn evaluate_at(&self, values: &Vec<F>) -> (r: F)
        requires
            self.wf(values@.len()),
        ensures
            r.value() == sum_value(self@, residues(values@), F::modulus()),
    {
        let ghost point = residues(values@);
        let ghost m = F::modulus();
        let ghost terms = term_values(self@, point, m);
        let mut sum = F::zero();
        let mut i: usize = 0;
        proof {
            F::lemma_modulus();
            assert(terms.take(0).len() == 0);
        }
        while i < self.polys.len()
            invariant
                i <= self.polys@.len(),
                self.wf(values@.len()),
                point == residues(values@),
                m == F::modulus(),
                m >= 2,
                terms == term_values(self@, point, m),
                congruent(sum.value(), seq_sum(terms.take(i as int)), m),
            decreases self.polys.len() - i,
        {
            assert(self.polys@[i as int].wf(values@.len()));
            let term = self.polys[i].evaluate_at(values);
            let ghost before = sum.value();
            sum = sum.add(&term);
            proof {
                assert(terms.take(i + 1).drop_last() =~= terms.take(i as int));
                assert(terms.take(i + 1).last() == term.value());
                lemma_congruent_add(
                    before,
                    seq_sum(terms.take(i as int)),
                    term.value(),
                    term.value(),
                    m,
                );
                lemma_reduce_congruent(before + term.value(), m);
            }
            i += 1;
        }
        proof {
            assert(terms.take(i as int) =~= terms);
            F::lemma_value_bound(sum);
            crate::modular::lemma_canonical(sum.value(), m);
        }
        sum
    }

    /// The degree of the sum in each variable: the number of factors of its first
    /// term.
    pub fn get_degree(&self) -> (r: usize)
        requires
            self.polys@.len() >= 1,
        ensures
            r == self.polys@[0].evaluation@.len(),
    {
        self.polys[0].get_degree()
    }

    /// The table of a sum of exactly two terms of two factors each: the
    /// entry-by-entry sum of the tables of the terms.
    pub fn reduce(&self) -> (r: Vec<F>)
        requires
            self.polys@.len() == 2,
            self.polys@[0].evaluation@.len() == 2,
            self.polys@[1].evaluation@.len() == 2,
        ensures
            residues(r@) == sum_table(self@, F::modulus()),
    {
        let first_poly = self.polys[0].reduce();
        let second_poly = self.polys[1].reduce();
        let len = if first_poly.len() <= second_poly.len() {
            first_poly.len()
        } else {
            second_poly.len()
        };
        let mut table: Vec<F> = Vec::new();
        let mut i: usize = 0;
        while i < len
            invariant
                i <= len,
                len <= first_poly@.len(),
                len <= second_poly@.len(),
                table@.len() == i,
                forall|j: int|
                    0 <= j < i ==> (#[trigger] table@[j]).value() == add_mod(
                        first_poly@[j].value(),
                        second_poly@[j].value(),
                        F::modulus(),
                    ),
            decreases len - i,
        {
            table.push(first_poly[i].add(&second_poly[i]));
            i += 1;
        }
        proof {
            let a = product_table(self@[0], F::modulus());
            let b = product_table(self@[1], F::modulus());
            assert(residues(first_poly@) == a);
            assert(residues(second_poly@) == b);
            assert forall|j: int| 0 <= j < table@.len() implies residues(table@)[j] == add_mod(
                a[j],
                b[j],
                F::modulus(),
            ) by {
                assert(residues(first_poly@)[j] == first_poly@[j].value());
                assert(residues(second_poly@)[j] == second_poly@[j].value());
            }
            assert(residues(table@) =~= sum_table(self@, F::modulus()));
        }
        table
    }
}

} // verus!
