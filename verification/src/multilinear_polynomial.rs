//! Multilinear polynomials, kept as their table of evaluations over the boolean
//! hypercube.
use crate::field::{residues, FiniteField};
use crate::hypercube::{fold, fold_all, lemma_fold_all_is_extension, multilinear_extension};
use crate::modular::line_mod;
use vstd::arithmetic::power2::{lemma_pow2_pos, lemma_pow2_unfold, pow2};
use vstd::prelude::*;
use vstd::std_specs::cmp::PartialEqSpecImpl;

verus! {

/// A multilinear polynomial in `n` variables, given by its `2^n` evaluations on
/// `{0,1}^n`. Entry `i` is the evaluation at the corner spelled by the binary
/// digits of `i`, the first variable being the most significant digit.
#[derive(Debug, Clone)]
pub struct MultilinearPoly<F: FiniteField> {
    pub coefficients: Vec<F>,
}

impl<F: FiniteField> View for MultilinearPoly<F> {
    type V = Seq<int>;

    /// The residues of the evaluation table.
    open spec fn view(&self) -> Seq<int> {
        residues(self.coefficients@)
    }
}

impl<F: FiniteField> PartialEq for MultilinearPoly<F> {
    /// Two polynomials are equal when their tables are equal entry by entry.
    fn eq(&self, other: &Self) -> (r: bool) {
        if self.coefficients.len() != other.coefficients.len() {
            assert(self@.len() != other@.len());
            return false;
        }
        let mut i: usize = 0;
        while i < self.coefficients.len()
            invariant
                i <= self.coefficients@.len(),
                self.coefficients@.len() == other.coefficients@.len(),
                forall|j: int| 0 <= j < i ==> self@[j] == other@[j],
            decreases self.coefficients.len() - i,
        {
            if !self.coefficients[i].equals(&other.coefficients[i]) {
                assert(self@[i as int] != other@[i as int]);
                return false;
            }
            i += 1;
        }
        assert(self@ =~= other@);
        true
    }
}

impl<F: FiniteField> PartialEqSpecImpl for MultilinearPoly<F> {
    open spec fn obeys_eq_spec() -> bool {
        true
    }

    open spec fn eq_spec(&self, other: &Self) -> bool {
        self@ == other@
    }
}

impl<F: FiniteField> MultilinearPoly<F> {
    /// The table has `2^n` entries for the number `n` of variables.
    pub open spec fn wf(&self, n: nat) -> bool {
        self.coefficients@.len() == pow2(n)
    }

    /// The polynomial with the given evaluation table.
    pub fn new(coefficients: Vec<F>) -> (r: Self)
        ensures
            r.coefficients == coefficients,
    {
        MultilinearPoly { coefficients }
    }

    /// Fixes the first variable to `point.1`.
    ///
    /// The table is always split into its first and second half, which is the
    /// split by the first variable; `point.0` plays no part. The operand is left as
    /// it is and the result has half its length.
    pub fn partial_evaluate(&self, point: (usize, F)) -> (r: Self)
        requires
            self.coefficients@.len() >= 2,
        ensures
            r@ == fold(self@, point.1.value(), F::modulus()),
            r.coefficients@.len() == self.coefficients@.len() / 2,
            forall|n: nat| n >= 1 && self.wf(n) ==> r.wf((n - 1) as nat),
    {
        let val = point.1;
        let pairs = Self::get_unique_pairs_coefficients(&self.coefficients, point.0);
        let mut new_coefficients: Vec<F> = Vec::new();
        let mut i: usize = 0;
        while i < pairs.len()
            invariant
                i <= pairs.len(),
                pairs@.len() == self.coefficients@.len() / 2,
                new_coefficients@.len() == i,
                forall|j: int|
                    0 <= j < pairs@.len() ==> #[trigger] pairs@[j] == (
                        self.coefficients@[j],
                        self.coefficients@[j + pairs@.len()],
                    ),
                forall|j: int|
                    0 <= j < i ==> (#[trigger] new_coefficients@[j]).value() == line_mod(
                        self.coefficients@[j].value(),
                        self.coefficients@[j + pairs@.len()].value(),
                        val.value(),
                        F::modulus(),
                    ),
            decreases pairs.len() - i,
        {
            let low = pairs[i].0;
            let high = pairs[i].1;
            let entry = low.add(&val.mul(&high.sub(&low)));
            new_coefficients.push(entry);
            i += 1;
        }
        let r = MultilinearPoly::new(new_coefficients);
        proof {
            assert(r@ =~= fold(self@, val.value(), F::modulus()));
            assert forall|n: nat| n >= 1 && self.wf(n) implies r.wf((n - 1) as nat) by {
                lemma_pow2_unfold(n);
            }
        }
        r
    }

    /// The value of the polynomial at the point `values`, one coordinate for each
    /// variable: the multilinear extension of the table.
    pub fn evaluate(&self, values: &Vec<F>) -> (r: F)
        requires
            self.wf(values@.len()),
        ensures
            r.value() == multilinear_extension(self@, residues(values@), F::modulus()),
            r.value() == fold_all(self@, residues(values@), F::modulus())[0],
    {
        let ghost point = residues(values@);
        let ghost m = F::modulus();
        proof {
            F::lemma_modulus();
            crate::field::lemma_residues_canonical(self.coefficients@);
            lemma_fold_all_is_extension(self@, point, m);
            lemma_pow2_pos(values@.len());
        }
        if values.len() == 0 {
            return self.coefficients[0];
        }
        proof {
            lemma_pow2_unfold(values@.len());
            lemma_pow2_pos((values@.len() - 1) as nat);
        }
        let mut poly = self.partial_evaluate((0, values[0]));
        let mut i: usize = 1;
        while i < values.len()
            invariant
                1 <= i <= values.len(),
                point == residues(values@),
                m == F::modulus(),
                m > 0,
                poly.wf((values@.len() - i) as nat),
                fold_all(poly@, point.skip(i as int), m) == fold_all(self@, point, m),
            decreases values.len() - i,
        {
            proof {
                lemma_pow2_unfold((values@.len() - i) as nat);
                lemma_pow2_pos((values@.len() - i - 1) as nat);
                assert(point.skip(i as int).skip(1) =~= point.skip(i + 1));
            }
            poly = poly.partial_evaluate((0, values[i]));
            i += 1;
        }
        proof {
            assert(point.skip(i as int).len() == 0);
            vstd::arithmetic::power2::lemma2_to64();
        }
        poly.coefficients[0]
    }

    /// Pairs each entry of the first half of `arr` with the entry at the same place
    /// in the second half.
    fn get_unique_pairs_coefficients(arr: &Vec<F>, pos: usize) -> (r: Vec<(F, F)>)
        ensures
            r@.len() == arr@.len() / 2,
            forall|i: int| 0 <= i < r@.len() ==> #[trigger] r@[i] == (arr@[i], arr@[i + r@.len()]),
    {
        let length = arr.len();
        let half = length / 2;
        let mut result: Vec<(F, F)> = Vec::new();
        let mut i: usize = 0;
        while i < half
            invariant
                i <= half,
                half == arr@.len() / 2,
                arr@.len() <= usize::MAX,
                result@.len() == i,
                forall|j: int| 0 <= j < i ==> #[trigger] result@[j] == (arr@[j], arr@[j + half]),
            decreases half - i,
        {
            let low = i;
            let high = i + half;
            result.push((arr[low], arr[high]));
            i += 1;
        }
        result
    }
}

} // verus!
