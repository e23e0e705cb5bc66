//! Polynomials in one variable over the machine integers, as lists of coefficients
//! in ascending order of the exponent, or as lists of terms.
//!
//! The arithmetic is that of the integers: every function asks that the numbers it
//! computes fit the machine type, and then returns the exact result.
use vstd::prelude::*;

verus! {

/// The coefficient of `x^i` in a list of coefficients; zero past its end.
pub open spec fn coefficient(poly: Seq<i32>, i: int) -> int {
    if 0 <= i < poly.len() {
        poly[i] as int
    } else {
        0
    }
}

/// The part of the coefficient of `x^k` in the product of `poly1` and `poly2`
/// that comes from the first `count` coefficients of `poly1`.
pub open spec fn product_coefficient(poly1: Seq<i32>, poly2: Seq<i32>, k: int, count: nat) -> int
    decreases count,
{
    if count == 0 {
        0
    } else {
        let i = count - 1;
        product_coefficient(poly1, poly2, k, i as nat) + (if i < poly1.len() && 0 <= k - i
            < poly2.len() {
            poly1[i] * poly2[k - i]
        } else {
            0
        })
    }
}

/// The largest exponent among the terms `(coefficient, exponent)` of a
/// polynomial; 0 for a polynomial without terms.
pub fn degree(polynomial: Vec<(u32, u32)>) -> (r: u32)
    ensures
        forall|i: int| 0 <= i < polynomial@.len() ==> (#[trigger] polynomial@[i]).1 <= r,
        r == 0 || exists|i: int| 0 <= i < polynomial@.len() && (#[trigger] polynomial@[i]).1 == r,
{
    let mut current_degree: u32 = 0;

    let mut k: usize = 0;
    while k < polynomial.len()
        invariant
            k <= polynomial@.len(),
            forall|i: int| 0 <= i < k ==> (#[trigger] polynomial@[i]).1 <= current_degree,
            current_degree == 0 || exists|i: int|
                0 <= i < k && (#[trigger] polynomial@[i]).1 == current_degree,
        decreases polynomial.len() - k,
    {
        let i = polynomial[k];
        if i.1 > current_degree {
            current_degree = i.1
        }
        k += 1;
    }

    current_degree
}

/// The sum of two polynomials: coefficient by coefficient, as long as the longer
/// of the two.
pub fn add_polynomials(poly1: Vec<i32>, poly2: Vec<i32>) -> (r: Vec<i32>)
    requires
        forall|i: int|
            0 <= i < poly1@.len() && i < poly2@.len() ==> i32::MIN <= #[trigger] poly1@[i]
                + poly2@[i] <= i32::MAX,
    ensures
        r@.len() == (if poly1@.len() >= poly2@.len() {
            poly1@.len()
        } else {
            poly2@.len()
        }),
        forall|i: int|
            0 <= i < r@.len() ==> #[trigger] r@[i] == coefficient(poly1@, i) + coefficient(
                poly2@,
                i,
            ),
{
    let max_len = if poly1.len() >= poly2.len() {
        poly1.len()
    } else {
        poly2.len()
    };
    let mut result: Vec<i32> = Vec::new();

    let mut i: usize = 0;
    while i < max_len
        invariant
            i <= max_len,
            max_len == (if poly1@.len() >= poly2@.len() {
                poly1@.len()
            } else {
                poly2@.len()
            }),
            forall|j: int|
                0 <= j < poly1@.len() && j < poly2@.len() ==> i32::MIN <= #[trigger] poly1@[j]
                    + poly2@[j] <= i32::MAX,
            result@.len() == i,
            forall|j: int|
                0 <= j < i ==> #[trigger] result@[j] == coefficient(poly1@, j) + coefficient(
                    poly2@,
                    j,
                ),
        decreases max_len - i,
    {
        let mut entry: i32 = 0;
        if i < poly1.len() {
            entry = poly1[i];
        }
        if i < poly2.len() {
            assert(i < poly1@.len() ==> i32::MIN <= poly1@[i as int] + poly2@[i as int]
                <= i32::MAX);
            entry = entry + poly2[i];
        }
        result.push(entry);
        i += 1;
    }

    result
}

/// The product of two polynomials, of which at least one has a coefficient.
pub fn polynomial_mul(poly1: Vec<i32>, poly2: Vec<i32>) -> (r: Vec<i32>)
    requires
        poly1@.len() + poly2@.len() >= 1,
        poly1@.len() + poly2@.len() - 1 <= usize::MAX,
        forall|i: int, j: int|
            0 <= i < poly1@.len() && 0 <= j < poly2@.len() ==> i32::MIN <= #[trigger] (poly1@[i]
                * poly2@[j]) <= i32::MAX,
        forall|k: int, count: nat|
            0 <= k < poly1@.len() + poly2@.len() - 1 && count <= poly1@.len() ==> i32::MIN
                <= #[trigger] product_coefficient(poly1@, poly2@, k, count) <= i32::MAX,
    ensures
        r@.len() == poly1@.len() + poly2@.len() - 1,
        forall|k: int|
            0 <= k < r@.len() ==> #[trigger] r@[k] == product_coefficient(
                poly1@,
                poly2@,
                k,
                poly1@.len(),
            ),
{
    let degree1 = poly1.len();
    let degree2 = poly2.len();
    let len = if degree1 == 0 {
        degree2 - 1
    } else {
        degree1 - 1 + degree2
    };
    let mut result: Vec<i32> = Vec::new();
    let mut z: usize = 0;
    while z < len
        invariant
            z <= len,
            result@.len() == z,
            forall|k: int| 0 <= k < z ==> #[trigger] result@[k] == 0,
        decreases len - z,
    {
        result.push(0);
        z += 1;
    }

    let mut i: usize = 0;
    while i < degree1
        invariant
            i <= degree1,
            degree1 == poly1@.len(),
            degree2 == poly2@.len(),
            len == degree1 + degree2 - 1,
            result@.len() == len,
            forall|a: int, b: int|
                0 <= a < poly1@.len() && 0 <= b < poly2@.len() ==> i32::MIN <= #[trigger] (
                poly1@[a] * poly2@[b]) <= i32::MAX,
            forall|k: int, count: nat|
                0 <= k < poly1@.len() + poly2@.len() - 1 && count <= poly1@.len() ==> i32::MIN
                    <= #[trigger] product_coefficient(poly1@, poly2@, k, count) <= i32::MAX,
            forall|k: int|
                0 <= k < len ==> #[trigger] result@[k] == product_coefficient(
                    poly1@,
                    poly2@,
                    k,
                    i as nat,
                ),
        decreases degree1 - i,
    {
        let mut j: usize = 0;
        while j < degree2
            invariant
                j <= degree2,
                i < degree1,
                degree1 == poly1@.len(),
                degree2 == poly2@.len(),
                len == degree1 + degree2 - 1,
                result@.len() == len,
                forall|a: int, b: int|
                    0 <= a < poly1@.len() && 0 <= b < poly2@.len() ==> i32::MIN <= #[trigger] (
                    poly1@[a] * poly2@[b]) <= i32::MAX,
                forall|k: int, count: nat|
                    0 <= k < poly1@.len() + poly2@.len() - 1 && count <= poly1@.len()
                        ==> i32::MIN <= #[trigger] product_coefficient(poly1@, poly2@, k, count)
                        <= i32::MAX,
                forall|k: int|
                    0 <= k < len ==> #[trigger] result@[k] == product_coefficient(
                        poly1@,
                        poly2@,
                        k,
                        (if 0 <= k - i < j {
                            i + 1
                        } else {
                            i as int
                        }) as nat,
                    ),
            decreases degree2 - j,
        {
            let k = i + j;
            assert(i32::MIN <= poly1@[i as int] * poly2@[j as int] <= i32::MAX);
            let term = poly1[i] * poly2[j];
            assert(product_coefficient(poly1@, poly2@, k as int, (i + 1) as nat)
                == product_coefficient(poly1@, poly2@, k as int, i as nat) + term);
            let entry = result[k] + term;
            result.set(k, entry);
            j += 1;
        }
        i += 1;
    }
    result
}

/// Every coefficient of `poly` times `scalar`.
pub fn scalar_multiplication(poly: Vec<i32>, scalar: i32) -> (r: Vec<i32>)
    requires
        forall|i: int|
            0 <= i < poly@.len() ==> i32::MIN <= #[trigger] poly@[i] * scalar <= i32::MAX,
    ensures
        r@.len() == poly@.len(),
        forall|i: int| 0 <= i < r@.len() ==> #[trigger] r@[i] == poly@[i] * scalar,
{
    let mut result: Vec<i32> = Vec::new();
    let mut i: usize = 0;
    while i < poly.len()
        invariant
            i <= poly@.len(),
            forall|j: int|
                0 <= j < poly@.len() ==> i32::MIN <= #[trigger] poly@[j] * scalar <= i32::MAX,
            result@.len() == i,
            forall|j: int| 0 <= j < i ==> #[trigger] result@[j] == poly@[j] * scalar,
        decreases poly.len() - i,
    {
        assert(i32::MIN <= poly@[i as int] * scalar <= i32::MAX);
        result.push(poly[i] * scalar);
        i += 1;
    }
    result
}

/// The entry-by-entry sum of two arrays of one length.
pub fn sum_arrays(arr1: &[i32], arr2: &[i32]) -> (r: Vec<i32>)
    requires
        arr1@.len() == arr2@.len(),
        forall|i: int|
            0 <= i < arr1@.len() ==> i32::MIN <= #[trigger] arr1@[i] + arr2@[i] <= i32::MAX,
    ensures
        r@.len() == arr1@.len(),
        forall|i: int| 0 <= i < r@.len() ==> #[trigger] r@[i] == arr1@[i] + arr2@[i],
{
    let mut result: Vec<i32> = Vec::new();
    let mut i: usize = 0;
    while i < arr1.len()
        invariant
            i <= arr1@.len(),
            arr1@.len() == arr2@.len(),
            forall|j: int|
                0 <= j < arr1@.len() ==> i32::MIN <= #[trigger] arr1@[j] + arr2@[j] <= i32::MAX,
            result@.len() == i,
            forall|j: int| 0 <= j < i ==> #[trigger] result@[j] == arr1@[j] + arr2@[j],
        decreases arr1.len() - i,
    {
        assert(i32::MIN <= arr1@[i as int] + arr2@[i as int] <= i32::MAX);
        result.push(arr1[i] + arr2[i]);
        i += 1;
    }
    result
}

/// The pairs of entries of `arr` whose indices differ in the bit `mask` alone, up
/// to index `count`: each pair is listed at its smaller index, in ascending order.
pub open spec fn unique_pairs(arr: Seq<i32>, mask: usize, count: nat) -> Seq<(i32, i32)>
    decreases count,
{
    if count == 0 {
        Seq::empty()
    } else {
        let i = (count - 1) as usize;
        let before = unique_pairs(arr, mask, (count - 1) as nat);
        if i < (i ^ mask) {
            before.push((arr[i as int], arr[(i ^ mask) as int]))
        } else {
            before
        }
    }
}

/// Pairs every entry of `arr` with the entry whose index differs from its own in
/// bit `pos` alone, each pair once.
pub fn unique_pairs_by_position(arr: &Vec<i32>, pos: usize) -> (r: Vec<(i32, i32)>)
    requires
        pos < usize::BITS,
        forall|i: usize| i < arr@.len() ==> #[trigger] (i ^ (1usize << pos)) < arr@.len(),
    ensures
        r@ == unique_pairs(arr@, 1usize << pos, arr@.len()),
{
    let mask: usize = 1 << pos;
    let mut coefficients: Vec<(i32, i32)> = Vec::new();
    let mut i: usize = 0;
    while i < arr.len()
        invariant
            i <= arr@.len(),
            mask == 1usize << pos,
            forall|k: usize| k < arr@.len() ==> #[trigger] (k ^ mask) < arr@.len(),
            coefficients@ == unique_pairs(arr@, mask, i as nat),
        decreases arr.len() - i,
    {
        let pair = i ^ mask;
        if i < pair {
            coefficients.push((arr[i], arr[pair]));
        }
        i += 1;
    }
    coefficients
}

} // verus!
