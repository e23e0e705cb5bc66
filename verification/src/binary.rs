//! Binary numerals as strings of the characters `0` and `1`.
//!
//! The wiring of a gate is numbered by writing its three indices in binary, each
//! padded with zeros to the width of its variable group, one after the other, and
//! reading the result as one number.
use vstd::arithmetic::power2::{lemma_pow2_adds, lemma_pow2_unfold, pow2};
use vstd::prelude::*;

verus! {

/// The character for one binary digit.
pub open spec fn digit(b: nat) -> char {
    if b == 0 {
        '0'
    } else {
        '1'
    }
}

/// The binary numeral of `n` without leading zeros; the numeral of zero is `0`.
pub open spec fn binary_digits(n: nat) -> Seq<char>
    decreases n,
{
    if n < 2 {
        seq![digit(n)]
    } else {
        binary_digits(n / 2).push(digit(n % 2))
    }
}

/// The binary numeral of `n`, with zeros in front until it has at least `width`
/// characters. A numeral that is longer than `width` is not shortened.
pub open spec fn padded_binary(n: nat, width: nat) -> Seq<char> {
    let digits = binary_digits(n);
    if digits.len() >= width {
        digits
    } else {
        Seq::new((width - digits.len()) as nat, |i: int| '0') + digits
    }
}

/// The number that a binary numeral spells. The empty numeral spells zero.
pub open spec fn binary_value(s: Seq<char>) -> nat
    decreases s.len(),
{
    if s.len() == 0 {
        0
    } else {
        2 * binary_value(s.drop_last()) + (if s.last() == '1' {
            1nat
        } else {
            0nat
        })
    }
}

/// A numeral is made of the characters `0` and `1` alone.
pub proof fn lemma_binary_digits_chars(n: nat)
    ensures
        forall|j: int|
            0 <= j < binary_digits(n).len() ==> binary_digits(n)[j] == '0' || binary_digits(n)[j]
                == '1',
    decreases n,
{
    let digits = binary_digits(n);
    if n >= 2 {
        lemma_binary_digits_chars(n / 2);
        let front = binary_digits(n / 2);
        assert forall|j: int| 0 <= j < digits.len() implies digits[j] == '0' || digits[j]
            == '1' by {
            if j < front.len() {
                assert(digits[j] == front[j]);
            }
        }
    }
}

/// A padded numeral is made of the characters `0` and `1` alone.
pub proof fn lemma_padded_binary_chars(n: nat, width: nat)
    ensures
        forall|j: int|
            0 <= j < padded_binary(n, width).len() ==> padded_binary(n, width)[j] == '0'
                || padded_binary(n, width)[j] == '1',
{
    lemma_binary_digits_chars(n);
}

/// A numeral spells at least twice what any proper prefix of it spells.
pub proof fn lemma_binary_value_prefix(s: Seq<char>, i: int)
    requires
        0 <= i <= s.len(),
    ensures
        binary_value(s.take(i)) <= binary_value(s),
        i < s.len() ==> 2 * binary_value(s.take(i)) <= binary_value(s),
    decreases s.len() - i,
{
    if i == s.len() {
        assert(s.take(i) =~= s);
    } else {
        lemma_binary_value_prefix(s, i + 1);
        assert(s.take(i + 1).drop_last() =~= s.take(i));
    }
}

/// The binary numeral of `n`, most significant digit first.
fn binary_digits_of(n: usize) -> (r: Vec<char>)
    ensures
        r@ == binary_digits(n as nat),
{
    // The successive halves of `n`, down to the leading digit.
    let mut halves: Vec<usize> = Vec::new();
    let mut q: usize = n;
    halves.push(q);
    while q >= 2
        invariant
            halves@.len() >= 1,
            halves@[0] == n,
            halves@.last() == q,
            forall|j: int| 0 <= j < halves@.len() - 1 ==> #[trigger] halves@[j] >= 2 && halves@[j + 1] == halves@[j] / 2,
        decreases q,
    {
        q = q / 2;
        halves.push(q);
    }
    let mut digits: Vec<char> = Vec::new();
    digits.push(if q == 0 { '0' } else { '1' });
    let mut k: usize = halves.len() - 1;
    while k > 0
        invariant
            k < halves@.len(),
            halves@[0] == n,
            forall|j: int| 0 <= j < halves@.len() - 1 ==> #[trigger] halves@[j] >= 2 && halves@[j + 1] == halves@[j] / 2,
            digits@ == binary_digits(halves@[k as int] as nat),
        decreases k,
    {
        k -= 1;
        let h = halves[k];
        assert(h >= 2 && halves@[k + 1] == h / 2);
        digits.push(if h % 2 == 0 { '0' } else { '1' });
    }
    digits
}

/// The binary numeral of `n` padded to `width`, as a vector of characters.
fn padded_binary_digits(n: usize, width: usize) -> (r: Vec<char>)
    ensures
        r@ == padded_binary(n as nat, width as nat),
{
    let digits = binary_digits_of(n);
    if digits.len() >= width {
        return digits;
    }
    let mut padded: Vec<char> = Vec::new();
    let zeros = width - digits.len();
    let mut i: usize = 0;
    while i < zeros
        invariant
            i <= zeros,
            padded@ == Seq::new(i as nat, |j: int| '0'),
        decreases zeros - i,
    {
        padded.push('0');
        i += 1;
        assert(padded@ =~= Seq::new(i as nat, |j: int| '0'));
    }
    let mut k: usize = 0;
    while k < digits.len()
        invariant
            k <= digits@.len(),
            padded@ == Seq::new(zeros as nat, |j: int| '0') + digits@.take(k as int),
        decreases digits.len() - k,
    {
        padded.push(digits[k]);
        k += 1;
        assert(padded@ =~= Seq::new(zeros as nat, |j: int| '0') + digits@.take(k as int));
    }
    assert(digits@.take(k as int) =~= digits@);
    padded
}

/// The number that a binary numeral spells, or 0 where that number does not fit
/// the machine word.
fn parse_binary(digits: &Vec<char>) -> (r: usize)
    ensures
        r == (if binary_value(digits@) <= usize::MAX {
            binary_value(digits@)
        } else {
            0
        }),
{
    let mut acc: usize = 0;
    let mut i: usize = 0;
    while i < digits.len()
        invariant
            i <= digits@.len(),
            acc == binary_value(digits@.take(i as int)),
        decreases digits.len() - i,
    {
        let bit: usize = if digits[i] == '1' { 1 } else { 0 };
        proof {
            assert(digits@.take(i + 1).drop_last() =~= digits@.take(i as int));
            lemma_binary_value_prefix(digits@, i + 1);
        }
        if acc > (usize::MAX - bit) / 2 {
            return 0;
        }
        acc = 2 * acc + bit;
        i += 1;
    }
    assert(digits@.take(i as int) =~= digits@);
    acc
}

/// The number spelled by the binary numerals of `variable_a`, `variable_b` and
/// `variable_c` written one after the other, padded to `layer_index`,
/// `layer_index + 1` and `layer_index + 1` digits.
pub open spec fn wiring_number(
    layer_index: usize,
    variable_a: usize,
    variable_b: usize,
    variable_c: usize,
) -> nat {
    binary_value(
        padded_binary(variable_a as nat, layer_index as nat) + padded_binary(
            variable_b as nat,
            (layer_index + 1) as nat,
        ) + padded_binary(variable_c as nat, (layer_index + 1) as nat),
    )
}

/// The index, in a selector table of layer `layer_index`, of the wiring that sends
/// inputs `variable_b` and `variable_c` to output `variable_a`; 0 where the number
/// does not fit the machine word.
pub open spec fn wiring_index(
    layer_index: usize,
    variable_a: usize,
    variable_b: usize,
    variable_c: usize,
) -> nat {
    let number = wiring_number(layer_index, variable_a, variable_b, variable_c);
    if number <= usize::MAX {
        number
    } else {
        0
    }
}

/// The number of variables of the selector polynomials of a layer: 3 for the
/// output layer, and for layer `i > 0` the `i` bits of an output index and the
/// `i + 1` bits of each of the two input indices.
pub open spec fn layer_variables(layer_index: nat) -> nat {
    if layer_index == 0 {
        3
    } else {
        3 * layer_index + 2
    }
}

/// The number of variables of the selector polynomials of layer `layer_index`.
pub fn num_of_layer_variables(layer_index: usize) -> (r: usize)
    requires
        layer_variables(layer_index as nat) <= usize::MAX,
    ensures
        r == layer_variables(layer_index as nat),
{
    if layer_index == 0 {
        return 3;
    }
    let var_a_length = layer_index;
    let var_b_length = var_a_length + 1;
    let var_c_length = var_a_length + 1;

    let num_of_variables = var_a_length + var_b_length + var_c_length;

    num_of_variables
}

/// Writes the three indices of a wiring in binary, one after the other, and reads
/// the result as one number.
pub fn convert_to_binary_and_to_decimal(
    layer_index: usize,
    variable_a: usize,
    variable_b: usize,
    variable_c: usize,
) -> (r: usize)
    requires
        layer_index < usize::MAX,
    ensures
        r == wiring_index(layer_index, variable_a, variable_b, variable_c),
{
    let a_in_binary = padded_binary_digits(variable_a, layer_index);
    let b_in_binary = padded_binary_digits(variable_b, layer_index + 1);
    let c_in_binary = padded_binary_digits(variable_c, layer_index + 1);

    let mut combined_binary = a_in_binary;
    let mut i: usize = 0;
    while i < b_in_binary.len()
        invariant
            i <= b_in_binary@.len(),
            combined_binary@ == padded_binary(variable_a as nat, layer_index as nat)
                + b_in_binary@.take(i as int),
        decreases b_in_binary.len() - i,
    {
        combined_binary.push(b_in_binary[i]);
        i += 1;
        assert(combined_binary@ =~= padded_binary(variable_a as nat, layer_index as nat)
            + b_in_binary@.take(i as int));
    }
    assert(b_in_binary@.take(i as int) =~= b_in_binary@);
    let mut k: usize = 0;
    while k < c_in_binary.len()
        invariant
            k <= c_in_binary@.len(),
            combined_binary@ == padded_binary(variable_a as nat, layer_index as nat)
                + b_in_binary@ + c_in_binary@.take(k as int),
        decreases c_in_binary.len() - k,
    {
        combined_binary.push(c_in_binary[k]);
        k += 1;
        assert(combined_binary@ =~= padded_binary(variable_a as nat, layer_index as nat)
            + b_in_binary@ + c_in_binary@.take(k as int));
    }
    assert(c_in_binary@.take(k as int) =~= c_in_binary@);

    parse_binary(&combined_binary)
}

/// The binary numeral of `decimal_number`, with zeros in front until it has at
/// least `bit_length` characters.
pub fn convert_decimal_to_padded_binary(decimal_number: usize, bit_length: usize) -> (r: String)
    ensures
        r@ == padded_binary(decimal_number as nat, bit_length as nat),
{
    let digits = padded_binary_digits(decimal_number, bit_length);
    let mut text = String::new();
    let mut i: usize = 0;
    proof {
        reveal_strlit("0");
        reveal_strlit("1");
        lemma_padded_binary_chars(decimal_number as nat, bit_length as nat);
    }
    while i < digits.len()
        invariant
            i <= digits@.len(),
            text@ == digits@.take(i as int),
            forall|j: int| 0 <= j < digits@.len() ==> digits@[j] == '0' || digits@[j] == '1',
            "0"@ == seq!['0'],
            "1"@ == seq!['1'],
        decreases digits.len() - i,
    {
        if digits[i] == '1' {
            text.append("1");
        } else {
            text.append("0");
        }
        i += 1;
        assert(text@ =~= digits@.take(i as int));
    }
    assert(digits@.take(i as int) =~= digits@);
    text
}

/// Writing one numeral after another shifts the first by the length of the second.
pub proof fn lemma_binary_value_concat(front: Seq<char>, back: Seq<char>)
    ensures
        binary_value(front + back) == binary_value(front) * pow2(back.len()) + binary_value(back),
    decreases back.len(),
{
    if back.len() == 0 {
        assert(front + back =~= front);
        vstd::arithmetic::power2::lemma2_to64();
        assert(binary_value(front) * 1 == binary_value(front)) by (nonlinear_arith);
    } else {
        let shorter = back.drop_last();
        lemma_binary_value_concat(front, shorter);
        assert((front + back).drop_last() =~= front + shorter);
        assert((front + back).last() == back.last());
        lemma_pow2_unfold(back.len());
        let f = binary_value(front) as int;
        let p = pow2(shorter.len()) as int;
        let s = binary_value(shorter) as int;
        assert(2 * (f * p + s) == f * (2 * p) + 2 * s) by (nonlinear_arith);
    }
}

/// The numeral of a number spells that number.
pub proof fn lemma_binary_value_of_digits(n: nat)
    ensures
        binary_value(binary_digits(n)) == n,
    decreases n,
{
    if n < 2 {
        let digits = binary_digits(n);
        assert(digits.drop_last().len() == 0);
        assert(binary_value(digits) == 2 * binary_value(digits.drop_last()) + (if digits.last()
            == '1' {
            1nat
        } else {
            0nat
        }));
    } else {
        lemma_binary_value_of_digits(n / 2);
        let digits = binary_digits(n);
        assert(digits.drop_last() =~= binary_digits(n / 2));
    }
}

/// A numeral of zeros spells zero.
pub proof fn lemma_binary_value_of_zeros(count: nat)
    ensures
        binary_value(Seq::new(count, |i: int| '0')) == 0,
    decreases count,
{
    if count > 0 {
        lemma_binary_value_of_zeros((count - 1) as nat);
        assert(Seq::new(count, |i: int| '0').drop_last() =~= Seq::new(
            (count - 1) as nat,
            |i: int| '0',
        ));
    }
}

/// A number below `2^width` has a numeral of at most `width` digits, for any
/// `width` but zero.
pub proof fn lemma_binary_digits_len(n: nat, width: nat)
    requires
        width >= 1,
        n < pow2(width),
    ensures
        1 <= binary_digits(n).len() <= width,
    decreases n,
{
    if n >= 2 {
        vstd::arithmetic::power2::lemma2_to64();
        lemma_pow2_unfold(width);
        if width == 1 {
            assert(false);
        }
        lemma_binary_digits_len(n / 2, (width - 1) as nat);
    }
}

/// A padded numeral spells its number, and a number below `2^width` is padded to
/// exactly `width` digits.
pub proof fn lemma_padded_binary(n: nat, width: nat)
    ensures
        binary_value(padded_binary(n, width)) == n,
        width >= 1 && n < pow2(width) ==> padded_binary(n, width).len() == width,
        padded_binary(n, width).len() >= 1,
{
    let digits = binary_digits(n);
    lemma_binary_value_of_digits(n);
    if width >= 1 && n < pow2(width) {
        lemma_binary_digits_len(n, width);
    }
    if digits.len() < width {
        let zeros = Seq::new((width - digits.len()) as nat, |i: int| '0');
        lemma_binary_value_of_zeros((width - digits.len()) as nat);
        lemma_binary_value_concat(zeros, digits);
        assert(0 * pow2(digits.len()) == 0) by (nonlinear_arith);
    }
}

/// The number of a wiring whose input indices fit their `layer_index + 1` digits:
/// the three indices are its digits in base `2^(layer_index + 1)`.
pub proof fn lemma_wiring_number(
    layer_index: usize,
    variable_a: usize,
    variable_b: usize,
    variable_c: usize,
)
    requires
        variable_b < pow2((layer_index + 1) as nat),
        variable_c < pow2((layer_index + 1) as nat),
    ensures
        wiring_number(layer_index, variable_a, variable_b, variable_c) == (variable_a * pow2(
            (layer_index + 1) as nat,
        ) + variable_b) * pow2((layer_index + 1) as nat) + variable_c,
{
    let width = (layer_index + 1) as nat;
    let a = padded_binary(variable_a as nat, layer_index as nat);
    let b = padded_binary(variable_b as nat, width);
    let c = padded_binary(variable_c as nat, width);
    lemma_padded_binary(variable_a as nat, layer_index as nat);
    lemma_padded_binary(variable_b as nat, width);
    lemma_padded_binary(variable_c as nat, width);
    lemma_binary_value_concat(a, b);
    lemma_binary_value_concat(a + b, c);
}

/// Wirings whose input indices fit their digits have the same number only if they
/// are the same wiring.
pub proof fn lemma_wiring_number_injective(
    layer_index: usize,
    a1: usize,
    b1: usize,
    c1: usize,
    a2: usize,
    b2: usize,
    c2: usize,
)
    requires
        b1 < pow2((layer_index + 1) as nat),
        c1 < pow2((layer_index + 1) as nat),
        b2 < pow2((layer_index + 1) as nat),
        c2 < pow2((layer_index + 1) as nat),
        wiring_number(layer_index, a1, b1, c1) == wiring_number(layer_index, a2, b2, c2),
    ensures
        a1 == a2,
        b1 == b2,
        c1 == c2,
{
    let base = pow2((layer_index + 1) as nat) as int;
    lemma_wiring_number(layer_index, a1, b1, c1);
    lemma_wiring_number(layer_index, a2, b2, c2);
    let high1 = a1 * base + b1;
    let high2 = a2 * base + b2;
    assert(high1 * base + c1 == high2 * base + c2);
    lemma_digits_unique(high1, c1 as int, high2, c2 as int, base);
    lemma_digits_unique(a1 as int, b1 as int, a2 as int, b2 as int, base);
}

/// A number has one way to be written as `high * base + low` with `low` below
/// `base`.
proof fn lemma_digits_unique(high1: int, low1: int, high2: int, low2: int, base: int)
    requires
        base > 0,
        0 <= low1 < base,
        0 <= low2 < base,
        high1 * base + low1 == high2 * base + low2,
    ensures
        high1 == high2,
        low1 == low2,
{
    if high1 < high2 {
        assert((high2 - high1) * base >= base) by (nonlinear_arith)
            requires
                high2 - high1 >= 1,
                base > 0,
        ;
        assert(high2 * base - high1 * base == (high2 - high1) * base) by (nonlinear_arith);
    } else if high2 < high1 {
        assert((high1 - high2) * base >= base) by (nonlinear_arith)
            requires
                high1 - high2 >= 1,
                base > 0,
        ;
        assert(high1 * base - high2 * base == (high1 - high2) * base) by (nonlinear_arith);
    }
}

/// The output index of a wiring of layer `layer_index` fits its digits: one digit
/// in the output layer, `layer_index` digits below it.
pub open spec fn output_fits(layer_index: usize, variable_a: usize) -> bool {
    variable_a < pow2(
        if layer_index == 0 {
            1nat
        } else {
            layer_index as nat
        },
    )
}

/// A wiring whose three indices fit their digits has its index inside the selector
/// tables of its layer, and the index is the number of the wiring.
pub proof fn lemma_wiring_index_in_range(
    layer_index: usize,
    variable_a: usize,
    variable_b: usize,
    variable_c: usize,
)
    requires
        output_fits(layer_index, variable_a),
        variable_b < pow2((layer_index + 1) as nat),
        variable_c < pow2((layer_index + 1) as nat),
        pow2(layer_variables(layer_index as nat)) <= usize::MAX,
    ensures
        wiring_index(layer_index, variable_a, variable_b, variable_c) == wiring_number(
            layer_index,
            variable_a,
            variable_b,
            variable_c,
        ),
        wiring_index(layer_index, variable_a, variable_b, variable_c) == (variable_a * pow2(
            (layer_index + 1) as nat,
        ) + variable_b) * pow2((layer_index + 1) as nat) + variable_c,
        wiring_index(layer_index, variable_a, variable_b, variable_c) < pow2(
            layer_variables(layer_index as nat),
        ),
{
    let width = (layer_index + 1) as nat;
    let base = pow2(width) as int;
    let a = variable_a as int;
    let b = variable_b as int;
    let c = variable_c as int;
    lemma_wiring_number(layer_index, variable_a, variable_b, variable_c);
    let top = pow2(
        if layer_index == 0 {
            1nat
        } else {
            layer_index as nat
        },
    ) as int;
    let number = (a * base + b) * base + c;
    let size = pow2(layer_variables(layer_index as nat)) as int;
    assert(wiring_number(layer_index, variable_a, variable_b, variable_c) == number);
    assert(number < top * base * base) by (nonlinear_arith)
        requires
            number == (a * base + b) * base + c,
            0 <= a < top,
            0 <= b < base,
            0 <= c < base,
    ;
    assert(top * base * base == size) by {
        if layer_index == 0 {
            vstd::arithmetic::power2::lemma2_to64();
            assert(top == 2 && base == 2 && size == 8);
            assert(top * base * base == 8) by (nonlinear_arith)
                requires
                    top == 2,
                    base == 2,
            ;
        } else {
            lemma_pow2_adds(layer_index as nat, width);
            lemma_pow2_adds((layer_index + width) as nat, width);
            let middle = pow2((layer_index + width) as nat) as int;
            assert(middle == top * base);
            assert(layer_variables(layer_index as nat) == layer_index + width + width);
            assert(size == middle * base);
            assert(top * base * base == middle * base);
        }
    }
    assert(0 <= number) by (nonlinear_arith)
        requires
            number == (a * base + b) * base + c,
            0 <= a,
            0 <= b,
            0 <= c,
            0 <= base,
    ;
    assert(number <= usize::MAX);
}

} // verus!
