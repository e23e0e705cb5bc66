//! Shamir secret sharing over a prime field.
//!
//! A secret is the constant coefficient of a polynomial whose other coefficients
//! are drawn at random. Share `i` is the value of the polynomial at `i`, and the
//! secret is recovered by interpolating shares at zero.
use crate::field::{residues, FiniteField};
use crate::interpolation::{
    abscissas, interpolation_value, lagrange_interpolation, ordinates, pairwise_distinct,
};
use crate::modular::{
    congruent, lemma_canonical, lemma_congruent_add, lemma_congruent_mul, lemma_reduce_congruent,
    seq_sum,
};
use std::collections::HashMap;
use std::marker::PhantomData;
use vstd::arithmetic::power::pow;
use vstd::prelude::*;

verus! {

broadcast use vstd::std_specs::hash::group_hash_axioms;

/// A scheme that splits a secret into `shares` shares of which `threshold` are
/// meant to recover it.
pub struct ShamirSecretSharing<F: FiniteField> {
    threshold: usize,
    shares: usize,
    _field: PhantomData<F>,
}

/// The summands of a polynomial at `x`: each coefficient times the power of `x`
/// that it belongs to.
pub open spec fn polynomial_terms(coefficients: Seq<int>, x: int) -> Seq<int> {
    Seq::new(coefficients.len(), |j: int| coefficients[j] * pow(x, j as nat))
}

/// The value at `x` of the polynomial with the given coefficients, in ascending
/// order of the exponent, as a residue modulo `m`.
pub open spec fn polynomial_value(coefficients: Seq<int>, x: int, m: int) -> int {
    seq_sum(polynomial_terms(coefficients, x)) % m
}

/// `shares` holds the shares numbered 1 to `count` of the polynomial with the
/// given coefficients: share `i` is the value of the polynomial at `i`.
pub open spec fn is_sharing<F: FiniteField>(
    shares: Map<usize, F>,
    coefficients: Seq<int>,
    count: usize,
) -> bool {
    &&& forall|i: usize| shares.contains_key(i) <==> 1 <= i <= count
    &&& forall|i: usize|
        1 <= i <= count ==> (#[trigger] shares[i]).value() == polynomial_value(
            coefficients,
            (i as int) % F::modulus(),
            F::modulus(),
        )
}

/// The points that the shares numbered by `order` stand for: the number of a
/// share, as a field element, and the share.
pub open spec fn share_points<F: FiniteField>(shares: Map<usize, F>, order: Seq<usize>) -> (Seq<
    int,
>, Seq<int>) {
    (
        Seq::new(order.len(), |i: int| (order[i] as int) % F::modulus()),
        Seq::new(order.len(), |i: int| shares[order[i]].value()),
    )
}

/// `order` lists every key of `shares` once.
pub open spec fn lists_keys<F: FiniteField>(shares: Map<usize, F>, order: Seq<usize>) -> bool {
    &&& order.len() == shares.dom().len()
    &&& forall|i: int| 0 <= i < order.len() ==> shares.contains_key(#[trigger] order[i])
    &&& forall|i: int, j: int| 0 <= i < j < order.len() ==> order[i] != order[j]
}

impl<F: FiniteField> ShamirSecretSharing<F> {
    /// The number of shares that are meant to recover the secret.
    pub closed spec fn threshold(&self) -> usize {
        self.threshold
    }

    /// The number of shares that a secret is split into.
    pub closed spec fn shares(&self) -> usize {
        self.shares
    }

    pub fn new(threshold: usize, shares: usize) -> (r: Self)
        ensures
            r.threshold() == threshold,
            r.shares() == shares,
    {
        ShamirSecretSharing { threshold, shares, _field: PhantomData }
    }

    /// The value at `x` of the polynomial with the given coefficients.
    pub fn evaluate_polynomial(coefficients: &Vec<F>, x: F) -> (r: F)
        ensures
            r.value() == polynomial_value(residues(coefficients@), x.value(), F::modulus()),
    {
        let ghost m = F::modulus();
        let ghost terms = polynomial_terms(residues(coefficients@), x.value());
        let mut share = F::zero();
        let mut power = F::one();
        proof {
            F::lemma_modulus();
            assert(terms.take(0).len() == 0);
            lemma_canonical(1, m);
            vstd::arithmetic::power::lemma_pow0(x.value());
        }
        let mut j: usize = 0;
        while j < coefficients.len()
            invariant
                j <= coefficients@.len(),
                m == F::modulus(),
                m >= 2,
                terms == polynomial_terms(residues(coefficients@), x.value()),
                congruent(power.value(), pow(x.value(), j as nat), m),
                congruent(share.value(), seq_sum(terms.take(j as int)), m),
            decreases coefficients.len() - j,
        {
            let coeff = coefficients[j];
            let ghost share_before = share.value();
            let ghost power_before = power.value();
            let term = coeff.mul(&power);
            share = share.add(&term);
            power = power.mul(&x);
            proof {
                assert(terms.take(j + 1).drop_last() =~= terms.take(j as int));
                assert(terms.take(j + 1).last() == coeff.value() * pow(x.value(), j as nat));
                lemma_congruent_mul(
                    coeff.value(),
                    coeff.value(),
                    power_before,
                    pow(x.value(), j as nat),
                    m,
                );
                lemma_reduce_congruent(coeff.value() * power_before, m);
                lemma_congruent_add(
                    share_before,
                    seq_sum(terms.take(j as int)),
                    term.value(),
                    coeff.value() * pow(x.value(), j as nat),
                    m,
                );
                lemma_reduce_congruent(share_before + term.value(), m);
                lemma_congruent_mul(
                    power_before,
                    pow(x.value(), j as nat),
                    x.value(),
                    x.value(),
                    m,
                );
                lemma_reduce_congruent(power_before * x.value(), m);
                vstd::arithmetic::power::lemma_pow_adds(x.value(), j as nat, 1);
                vstd::arithmetic::power::lemma_pow1(x.value());
            }
            j += 1;
        }
        proof {
            assert(terms.take(j as int) =~= terms);
            F::lemma_value_bound(share);
            lemma_canonical(share.value(), m);
        }
        share
    }

    /// The shares numbered 1 to `shares` of the polynomial with the given
    /// coefficients.
    pub fn shares_of_polynomial(&self, coefficients: &Vec<F>) -> (r: HashMap<usize, F>)
        ensures
            is_sharing(r@, residues(coefficients@), self.shares()),
    {
        let mut shares: HashMap<usize, F> = HashMap::new();
        let mut i: usize = 0;
        while i < self.shares
            invariant
                i <= self.shares,
                forall|k: usize| shares@.contains_key(k) <==> 1 <= k <= i,
                forall|k: usize|
                    1 <= k <= i ==> (#[trigger] shares@[k]).value() == polynomial_value(
                        residues(coefficients@),
                        (k as int) % F::modulus(),
                        F::modulus(),
                    ),
            decreases self.shares - i,
        {
            i += 1;
            let x = F::from_u64(i as u64);
            let share = Self::evaluate_polynomial(coefficients, x);
            shares.insert(i, share);
        }
        shares
    }

    /// Splits `secret` into shares: the shares of a polynomial whose constant
    /// coefficient is the secret and whose other coefficients, as many as the
    /// threshold asks for, are drawn at random.
    pub fn split_secret(&self, secret: F) -> (r: HashMap<usize, F>)
        ensures
            exists|coefficients: Seq<int>|
                {
                    &&& coefficients.len() == (if self.threshold() >= 1 {
                        self.threshold() as int
                    } else {
                        1
                    })
                    &&& coefficients[0] == secret.value()
                    &&& #[trigger] is_sharing(r@, coefficients, self.shares())
                },
    {
        let mut coefficients: Vec<F> = Vec::new();
        coefficients.push(secret);
        let mut k: usize = 1;
        while k < self.threshold
            invariant
                k >= 1,
                k <= self.threshold || k == 1,
                coefficients@.len() == k,
                coefficients@[0] == secret,
            decreases self.threshold - k,
        {
            coefficients.push(F::random());
            k += 1;
        }

        let shares = self.shares_of_polynomial(&coefficients);
        proof {
            assert(is_sharing(shares@, residues(coefficients@), self.shares()));
        }
        shares
    }

    /// Recovers a secret from shares: the value at zero of the polynomial of least
    /// degree through the points that the shares stand for. The shares are read in
    /// the order in which the map hands them out.
    pub fn reconstruct_secret(shares: &HashMap<usize, F>) -> (r: F)
        requires
            forall|a: usize, b: usize|
                shares@.contains_key(a) && shares@.contains_key(b) && a != b ==> (a as int)
                    % F::modulus() != (b as int) % F::modulus(),
        ensures
            exists|order: Seq<usize>|
                {
                    &&& #[trigger] lists_keys(shares@, order)
                    &&& r.value() == interpolation_value(
                        share_points(shares@, order).0,
                        share_points(shares@, order).1,
                        0,
                        F::modulus(),
                    )
                },
    {
        let mut points: Vec<(F, F)> = Vec::new();
        let ghost mut order: Seq<usize> = Seq::empty();
        for entry in iter: shares.iter()
            invariant
                points@.len() == iter.index(),
                order.len() == iter.index(),
                iter.seq().len() == shares@.dom().len(),
                iter.seq().no_duplicates(),
                forall|i: int|
                    0 <= i < iter.seq().len() ==> shares@.contains_key(
                        *(#[trigger] iter.seq()[i]).0,
                    ) && shares@[*iter.seq()[i].0] == *iter.seq()[i].1,
                forall|i: int| 0 <= i < order.len() ==> #[trigger] order[i] == *iter.seq()[i].0,
                forall|i: int|
                    0 <= i < points@.len() ==> (#[trigger] points@[i]).0.value() == (
                    order[i] as int) % F::modulus() && points@[i].1 == shares@[order[i]],
        {
            let (x, y) = entry;
            proof {
                order = order.push(*x);
            }
            points.push((F::from_u64(*x as u64), *y));
        }
        proof {
            assert forall|i: int, j: int| 0 <= i < j < order.len() implies order[i] != order[j] by {
                if order[i] == order[j] {
                    assert(shares@[order[i]] == shares@[order[j]]);
                }
            }
            assert(lists_keys(shares@, order));
            assert(abscissas(points@) =~= share_points(shares@, order).0);
            assert(ordinates(points@) =~= share_points(shares@, order).1);
            assert(pairwise_distinct(abscissas(points@))) by {
                assert forall|i: int, j: int|
                    0 <= i < points@.len() && 0 <= j < points@.len() && i != j implies abscissas(
                    points@,
                )[i] != abscissas(points@)[j] by {
                    if i < j {
                        assert(order[i] != order[j]);
                    } else {
                        assert(order[j] != order[i]);
                    }
                }
            }
        }
        let secret = lagrange_interpolation(points.as_slice(), F::zero());
        secret
    }
}

/// Every share of `chosen` is a share of `shares`.
pub open spec fn chosen_from<F: FiniteField>(chosen: Map<usize, F>, shares: Map<usize, F>) -> bool {
    forall|k: usize|
        chosen.contains_key(k) ==> shares.contains_key(k) && #[trigger] chosen[k] == shares[k]
}

/// A polynomial at zero is its constant coefficient.
pub proof fn lemma_polynomial_at_zero(coefficients: Seq<int>)
    requires
        coefficients.len() >= 1,
    ensures
        seq_sum(polynomial_terms(coefficients, 0)) == coefficients[0],
    decreases coefficients.len(),
{
    let terms = polynomial_terms(coefficients, 0);
    if coefficients.len() == 1 {
        assert(terms.drop_last().len() == 0);
        assert(seq_sum(terms) == seq_sum(terms.drop_last()) + terms.last());
        vstd::arithmetic::power::lemma_pow0(0);
    } else {
        let front = coefficients.drop_last();
        lemma_polynomial_at_zero(front);
        assert(terms.drop_last() =~= polynomial_terms(front, 0));
        vstd::arithmetic::power::lemma0_pow((coefficients.len() - 1) as nat);
        assert(terms.last() == coefficients.last() * 0);
    }
}

/// Secret recovery: from any shares of a sharing, at least as many as the
/// polynomial has coefficients and numbered differently in the field, the
/// interpolation at zero is the secret, in whatever order the shares are read.
pub proof fn lemma_shares_recover_secret<F: FiniteField>(
    shares: Map<usize, F>,
    coefficients: Seq<int>,
    count: usize,
    chosen: Map<usize, F>,
    order: Seq<usize>,
)
    requires
        crate::lagrange::is_field(F::modulus()),
        coefficients.len() >= 1,
        is_sharing(shares, coefficients, count),
        chosen_from(chosen, shares),
        lists_keys(chosen, order),
        order.len() >= coefficients.len(),
        forall|a: usize, b: usize|
            chosen.contains_key(a) && chosen.contains_key(b) && a != b ==> (a as int)
                % F::modulus() != (b as int) % F::modulus(),
    ensures
        interpolation_value(
            share_points(chosen, order).0,
            share_points(chosen, order).1,
            0,
            F::modulus(),
        ) == coefficients[0] % F::modulus(),
{
    let m = F::modulus();
    let xs = share_points(chosen, order).0;
    let ys = share_points(chosen, order).1;
    assert forall|i: int| 0 <= i < xs.len() implies 0 <= #[trigger] xs[i] < m by {
        lemma_reduce_congruent(order[i] as int, m);
    }
    assert forall|i: int, j: int|
        0 <= i < xs.len() && 0 <= j < xs.len() && i != j implies xs[i] != xs[j] by {
        assert(chosen.contains_key(order[i]));
        assert(chosen.contains_key(order[j]));
        if i < j {
            assert(order[i] != order[j]);
        } else {
            assert(order[j] != order[i]);
        }
    }
    assert forall|i: int| 0 <= i < xs.len() implies #[trigger] ys[i] == polynomial_value(
        coefficients,
        xs[i],
        m,
    ) by {
        let k = order[i];
        assert(chosen.contains_key(k));
        assert(chosen[k] == shares[k]);
        assert(1 <= k <= count);
    }
    crate::lagrange::lemma_interpolation_recovers(coefficients, xs, ys, 0, m);
    lemma_polynomial_at_zero(coefficients);
}

} // verus!
