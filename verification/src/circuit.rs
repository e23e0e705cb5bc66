//! Layered arithmetic circuits of addition and multiplication gates.
//!
//! Layers are listed output first. A gate of layer `i` reads two values of the
//! table below it (that of layer `i + 1`, or the circuit's input under the last
//! layer) and writes one value of the table of layer `i`.
use crate::binary::{
    convert_to_binary_and_to_decimal, layer_variables, lemma_wiring_index_in_range,
    lemma_wiring_number_injective, num_of_layer_variables, output_fits, wiring_index,
};
use crate::field::{residues, table_residues, FiniteField};
use crate::modular::{add_mod, mul_mod};
use crate::multilinear_polynomial::MultilinearPoly;
use vstd::arithmetic::power2::pow2;
use vstd::prelude::*;

verus! {

/// What a gate does with the two values it reads.
#[derive(Clone, Copy, Debug, PartialEq, Eq)]
pub enum Operator {
    Add,
    Mul,
}

/// A gate: it reads entries `left_index` and `right_index` of the table below its
/// layer and writes entry `output_index` of the table of its layer.
#[derive(Clone, Copy, Debug, PartialEq, Eq)]
pub struct Gate {
    pub left_index: usize,
    pub right_index: usize,
    pub output_index: usize,
    pub operator: Operator,
}

/// The gates of one layer, in the order in which they are applied.
pub struct Layer {
    pub gates: Vec<Gate>,
}

/// A circuit with the tables of its last evaluation: entry 0 of
/// `layer_evaluations` is the output table, the last entry is the input. The cache
/// is empty until the circuit is evaluated.
pub struct Circuit<F: FiniteField> {
    pub layers: Vec<Layer>,
    pub layer_evaluations: Vec<Vec<F>>,
}

impl Gate {
    pub fn new(left_index: usize, right_index: usize, output_index: usize, operator: Operator) -> (r:
        Self)
        ensures
            r.left_index == left_index,
            r.right_index == right_index,
            r.output_index == output_index,
            r.operator == operator,
    {
        Self { left_index, right_index, output_index, operator }
    }
}

impl Layer {
    pub fn new(gates: Vec<Gate>) -> (r: Self)
        ensures
            r.gates == gates,
    {
        Self { gates }
    }
}

/// The length of the table that a layer writes: one more than the largest output
/// index of its gates, and 1 for a layer without gates.
pub open spec fn layer_width(gates: Seq<Gate>) -> nat
    decreases gates.len(),
{
    if gates.len() == 0 {
        1
    } else {
        let before = layer_width(gates.drop_last());
        let here = (gates.last().output_index + 1) as nat;
        if here > before {
            here
        } else {
            before
        }
    }
}

/// The value that a gate computes from the table below it.
pub open spec fn gate_value(gate: Gate, input: Seq<int>, m: int) -> int {
    match gate.operator {
        Operator::Add => add_mod(input[gate.left_index as int], input[gate.right_index as int], m),
        Operator::Mul => mul_mod(input[gate.left_index as int], input[gate.right_index as int], m),
    }
}

/// The value of slot `slot` of a layer's table: that of the last gate that writes
/// the slot, and zero for a slot that no gate writes.
pub open spec fn slot_value(gates: Seq<Gate>, input: Seq<int>, slot: int, m: int) -> int
    decreases gates.len(),
{
    if gates.len() == 0 {
        0
    } else if gates.last().output_index == slot {
        gate_value(gates.last(), input, m)
    } else {
        slot_value(gates.drop_last(), input, slot, m)
    }
}

/// The table that a layer writes when the table below it is `input`.
pub open spec fn layer_table(gates: Seq<Gate>, input: Seq<int>, m: int) -> Seq<int> {
    Seq::new(layer_width(gates), |slot: int| slot_value(gates, input, slot, m))
}

/// The tables of all layers for the given input, output first; the last one is the
/// input itself.
pub open spec fn circuit_tables(layers: Seq<Layer>, input: Seq<int>, m: int) -> Seq<Seq<int>>
    decreases layers.len(),
{
    if layers.len() == 0 {
        seq![input]
    } else {
        let below = circuit_tables(layers.skip(1), input, m);
        seq![layer_table(layers[0].gates@, below[0], m)] + below
    }
}

/// Every gate reads inside a table of length `input_len`, and its output index
/// leaves room for a table that holds it.
pub open spec fn gates_in_range(gates: Seq<Gate>, input_len: nat) -> bool {
    forall|k: int|
        0 <= k < gates.len() ==> {
            &&& (#[trigger] gates[k]).left_index < input_len
            &&& gates[k].right_index < input_len
            &&& gates[k].output_index < usize::MAX
        }
}

/// The length of the table on top of `layers` for an input of length `input_len`.
pub open spec fn top_width(layers: Seq<Layer>, input_len: nat) -> nat {
    if layers.len() == 0 {
        input_len
    } else {
        layer_width(layers[0].gates@)
    }
}

/// The circuit can be evaluated on an input of length `input_len`: the gates of
/// each layer read inside the table below them.
pub open spec fn wired(layers: Seq<Layer>, input_len: nat) -> bool
    decreases layers.len(),
{
    if layers.len() == 0 {
        true
    } else {
        &&& wired(layers.skip(1), input_len)
        &&& gates_in_range(layers[0].gates@, top_width(layers.skip(1), input_len))
    }
}

/// The tables of a circuit are as many as its layers and one more, and the first
/// has the width of the top layer.
pub proof fn lemma_circuit_tables_shape(layers: Seq<Layer>, input: Seq<int>, m: int)
    ensures
        circuit_tables(layers, input, m).len() == layers.len() + 1,
        circuit_tables(layers, input, m)[0].len() == top_width(layers, input.len()),
        circuit_tables(layers, input, m).last() == input,
    decreases layers.len(),
{
    if layers.len() > 0 {
        lemma_circuit_tables_shape(layers.skip(1), input, m);
    }
}

/// A copy of a vector of field elements.
fn copy_elements<F: FiniteField>(source: &Vec<F>) -> (r: Vec<F>)
    ensures
        r@ == source@,
{
    let mut copy: Vec<F> = Vec::new();
    let mut i: usize = 0;
    while i < source.len()
        invariant
            i <= source@.len(),
            copy@ == source@.take(i as int),
        decreases source.len() - i,
    {
        copy.push(source[i]);
        i += 1;
        assert(copy@ =~= source@.take(i as int));
    }
    assert(source@.take(i as int) =~= source@);
    copy
}

/// The largest output index among `gates`, and 0 where there is none.
fn max_output_index(gates: &Vec<Gate>) -> (r: usize)
    requires
        forall|k: int| 0 <= k < gates@.len() ==> (#[trigger] gates@[k]).output_index < usize::MAX,
    ensures
        r < usize::MAX,
        r + 1 == layer_width(gates@),
        forall|k: int| 0 <= k < gates@.len() ==> (#[trigger] gates@[k]).output_index <= r,
{
    let mut max: usize = 0;
    let mut i: usize = 0;
    while i < gates.len()
        invariant
            i <= gates@.len(),
            max < usize::MAX,
            max + 1 == layer_width(gates@.take(i as int)),
            forall|k: int| 0 <= k < gates@.len() ==> (#[trigger] gates@[k]).output_index < usize::MAX,
            forall|k: int| 0 <= k < i ==> (#[trigger] gates@[k]).output_index <= max,
        decreases gates.len() - i,
    {
        proof {
            assert(gates@.take(i + 1).drop_last() =~= gates@.take(i as int));
        }
        if gates[i].output_index > max {
            max = gates[i].output_index;
        }
        i += 1;
    }
    assert(gates@.take(i as int) =~= gates@);
    max
}

/// The table that the gates of one layer write from the table below them.
fn evaluate_layer<F: FiniteField>(gates: &Vec<Gate>, current_input: &Vec<F>) -> (r: Vec<F>)
    requires
        gates_in_range(gates@, current_input@.len()),
    ensures
        residues(r@) == layer_table(gates@, residues(current_input@), F::modulus()),
{
    let max_output_index = max_output_index(gates);
    let width = max_output_index + 1;
    let ghost input = residues(current_input@);
    let ghost m = F::modulus();
    let mut resultant_evaluations: Vec<F> = zeros(width);
    let mut i: usize = 0;
    while i < gates.len()
        invariant
            i <= gates@.len(),
            width == layer_width(gates@),
            input == residues(current_input@),
            m == F::modulus(),
            gates_in_range(gates@, current_input@.len()),
            forall|k: int| 0 <= k < gates@.len() ==> (#[trigger] gates@[k]).output_index < width,
            resultant_evaluations@.len() == width,
            forall|j: int|
                0 <= j < width ==> (#[trigger] resultant_evaluations@[j]).value() == slot_value(
                    gates@.take(i as int),
                    input,
                    j,
                    m,
                ),
        decreases gates.len() - i,
    {
        let gate = gates[i];
        let left_index_value = current_input[gate.left_index];
        let right_index_value = current_input[gate.right_index];

        let current_gate_evaluation = match gate.operator {
            Operator::Add => left_index_value.add(&right_index_value),
            Operator::Mul => left_index_value.mul(&right_index_value),
        };
        resultant_evaluations.set(gate.output_index, current_gate_evaluation);
        proof {
            assert(gates@.take(i + 1).drop_last() =~= gates@.take(i as int));
            assert(gates@.take(i + 1).last() == gate);
        }
        i += 1;
    }
    proof {
        assert(gates@.take(i as int) =~= gates@);
        assert(residues(resultant_evaluations@) =~= layer_table(gates@, input, m));
    }
    resultant_evaluations
}

/// The index of a gate's wiring in the selector tables of layer `layer_index`.
pub open spec fn gate_position(layer_index: usize, gate: Gate) -> nat {
    wiring_index(layer_index, gate.output_index, gate.left_index, gate.right_index)
}

/// Some gate among `gates` has the given operator and its wiring at `position`.
pub open spec fn selects(
    gates: Seq<Gate>,
    layer_index: usize,
    operator: Operator,
    position: int,
) -> bool {
    exists|k: int|
        0 <= k < gates.len() && (#[trigger] gates[k]).operator == operator && gate_position(
            layer_index,
            gates[k],
        ) == position
}

/// The selector table of an operator: 1 at the wiring of each gate with that
/// operator, 0 everywhere else.
pub open spec fn selector_table(
    gates: Seq<Gate>,
    layer_index: usize,
    operator: Operator,
    len: nat,
) -> Seq<int> {
    Seq::new(
        len,
        |position: int|
            if selects(gates, layer_index, operator, position) {
                1int
            } else {
                0int
            },
    )
}

/// A wiring is selected by a list of gates if it is selected by the gates before
/// the last one, or if it is the wiring of the last one.
pub proof fn lemma_selects_last(
    gates: Seq<Gate>,
    layer_index: usize,
    operator: Operator,
    position: int,
)
    requires
        gates.len() > 0,
    ensures
        selects(gates, layer_index, operator, position) <==> (selects(
            gates.drop_last(),
            layer_index,
            operator,
            position,
        ) || (gates.last().operator == operator && gate_position(layer_index, gates.last())
            == position)),
{
    let front = gates.drop_last();
    if selects(gates, layer_index, operator, position) {
        let k = choose|k: int|
            0 <= k < gates.len() && (#[trigger] gates[k]).operator == operator && gate_position(
                layer_index,
                gates[k],
            ) == position;
        if k < gates.len() - 1 {
            assert(front[k] == gates[k]);
        }
    }
    if selects(front, layer_index, operator, position) {
        let k = choose|k: int|
            0 <= k < front.len() && (#[trigger] front[k]).operator == operator && gate_position(
                layer_index,
                front[k],
            ) == position;
        assert(gates[k] == front[k]);
    }
    if gates.last().operator == operator && gate_position(layer_index, gates.last()) == position {
        assert(gates[gates.len() - 1] == gates.last());
    }
}

/// `2^n` as a machine integer, where it is one.
fn checked_hypercube_size(n: usize) -> (r: Option<usize>)
    ensures
        r is Some <==> pow2(n as nat) <= usize::MAX,
        r matches Some(size) ==> size == pow2(n as nat),
{
    let mut size: usize = 1;
    let mut i: usize = 0;
    proof {
        vstd::arithmetic::power2::lemma2_to64();
    }
    while i < n
        invariant
            i <= n,
            size == pow2(i as nat),
        decreases n - i,
    {
        proof {
            vstd::arithmetic::power2::lemma_pow2_unfold((i + 1) as nat);
            if i + 1 < n {
                vstd::arithmetic::power2::lemma_pow2_strictly_increases((i + 1) as nat, n as nat);
            }
        }
        if size > usize::MAX / 2 {
            return None;
        }
        size = size * 2;
        i += 1;
    }
    Some(size)
}

/// `2^n` as a machine integer.
fn hypercube_size(n: usize) -> (r: usize)
    requires
        pow2(n as nat) <= usize::MAX,
    ensures
        r == pow2(n as nat),
{
    let mut size: usize = 1;
    let mut i: usize = 0;
    proof {
        vstd::arithmetic::power2::lemma2_to64();
    }
    while i < n
        invariant
            i <= n,
            size == pow2(i as nat),
            pow2(n as nat) <= usize::MAX,
        decreases n - i,
    {
        proof {
            vstd::arithmetic::power2::lemma_pow2_unfold((i + 1) as nat);
            if i + 1 < n {
                vstd::arithmetic::power2::lemma_pow2_strictly_increases((i + 1) as nat, n as nat);
            }
        }
        size = size * 2;
        i += 1;
    }
    size
}

/// A vector of `len` zeros.
fn zeros<F: FiniteField>(len: usize) -> (r: Vec<F>)
    ensures
        r@.len() == len,
        forall|i: int| 0 <= i < len ==> (#[trigger] r@[i]).value() == 0,
{
    let mut table: Vec<F> = Vec::new();
    let mut i: usize = 0;
    while i < len
        invariant
            i <= len,
            table@.len() == i,
            forall|j: int| 0 <= j < i ==> (#[trigger] table@[j]).value() == 0,
        decreases len - i,
    {
        table.push(F::zero());
        i += 1;
    }
    table
}

impl<F: FiniteField> Circuit<F> {
    /// The cached tables of the last evaluation, as residues.
    pub open spec fn tables(&self) -> Seq<Seq<int>> {
        table_residues(self.layer_evaluations@)
    }

    /// A circuit with the given layers, output layer first, and an empty cache.
    pub fn new(layers: Vec<Layer>) -> (r: Self)
        ensures
            r.layers == layers,
            r.layer_evaluations@.len() == 0,
    {
        Self { layers, layer_evaluations: Vec::new() }
    }

    /// Evaluates the circuit on `values`, from the last layer up to the first, and
    /// returns the output table.
    ///
    /// The cache is rebuilt from nothing: what it holds afterwards depends on the
    /// layers and on `values` alone, not on what it held before.
    pub fn evaluate(&mut self, values: Vec<F>) -> (r: Vec<F>)
        requires
            wired(old(self).layers@, values@.len()),
        ensures
            final(self).layers == old(self).layers,
            final(self).tables() == circuit_tables(
                old(self).layers@,
                residues(values@),
                F::modulus(),
            ),
            residues(r@) == circuit_tables(old(self).layers@, residues(values@), F::modulus())[0],
    {
        let ghost input = residues(values@);
        let ghost m = F::modulus();
        let ghost layers = self.layers@;
        let mut current_input = values;

        let mut reversed_evaluations: Vec<Vec<F>> = Vec::new();
        reversed_evaluations.push(copy_elements(&current_input));
        let mut k: usize = self.layers.len();
        while k > 0
            invariant
                k <= self.layers@.len(),
                self.layers@ == layers,
                input == residues(values@),
                m == F::modulus(),
                wired(layers, input.len()),
                residues(current_input@) == circuit_tables(layers.skip(k as int), input, m)[0],
                reversed_evaluations@.len() == layers.len() - k + 1,
                forall|i: int|
                    0 <= i < reversed_evaluations@.len() ==> residues(
                        (#[trigger] reversed_evaluations@[i])@,
                    ) == circuit_tables(layers.skip(k as int), input, m)[layers.len() - k - i],
            decreases k,
        {
            k -= 1;
            proof {
                lemma_wired_suffix(layers, input.len(), k as int);
                lemma_circuit_tables_shape(layers.skip(k + 1), input, m);
                assert(layers.skip(k as int).skip(1) =~= layers.skip(k + 1));
            }
            let ghost before = reversed_evaluations@;
            let resultant_evaluations = evaluate_layer(&self.layers[k].gates, &current_input);

            current_input = resultant_evaluations;
            reversed_evaluations.push(copy_elements(&current_input));
            proof {
                let below = circuit_tables(layers.skip(k + 1), input, m);
                let here = circuit_tables(layers.skip(k as int), input, m);
                assert(here == seq![residues(current_input@)] + below);
                assert forall|i: int| 0 <= i < reversed_evaluations@.len() implies residues(
                    (#[trigger] reversed_evaluations@[i])@,
                ) == here[layers.len() - k - i] by {
                    if i < before.len() {
                        assert(reversed_evaluations@[i] == before[i]);
                        assert(here[layers.len() - k - i] == below[layers.len() - k - 1 - i]);
                    }
                }
            }
        }
        proof {
            assert(layers.skip(0) =~= layers);
        }

        let ghost bottom_up = reversed_evaluations@;
        let evaluations = reversed(reversed_evaluations);
        self.layer_evaluations = evaluations;
        proof {
            let tables = circuit_tables(layers, input, m);
            lemma_circuit_tables_shape(layers, input, m);
            assert forall|i: int| 0 <= i < tables.len() implies self.tables()[i] == tables[i] by {
                assert(self.layer_evaluations@[i]@ == bottom_up[layers.len() - i]@);
            }
            assert(self.tables() =~= tables);
        }

        current_input
    }

    /// Whether the circuit can be evaluated on an input of `input_len` values.
    pub fn is_wired(&self, input_len: usize) -> (r: bool)
        ensures
            r == wired(self.layers@, input_len as nat),
    {
        let ghost layers = self.layers@;
        let mut width: usize = input_len;
        let mut k: usize = self.layers.len();
        proof {
            assert(layers.skip(k as int).len() == 0);
        }
        while k > 0
            invariant
                k <= self.layers@.len(),
                self.layers@ == layers,
                wired(layers.skip(k as int), input_len as nat),
                width == top_width(layers.skip(k as int), input_len as nat),
            decreases k,
        {
            k -= 1;
            let gates = &self.layers[k].gates;
            proof {
                assert(layers.skip(k as int).skip(1) =~= layers.skip(k + 1));
                assert(layers.skip(k as int)[0] == layers[k as int]);
                if wired(layers, input_len as nat) {
                    lemma_wired_suffix(layers, input_len as nat, k as int);
                }
            }
            let mut i: usize = 0;
            while i < gates.len()
                invariant
                    i <= gates@.len(),
                    self.layers@ == layers,
                    forall|j: int|
                        0 <= j < i ==> {
                            &&& (#[trigger] gates@[j]).left_index < width
                            &&& gates@[j].right_index < width
                            &&& gates@[j].output_index < usize::MAX
                        },
                    wired(layers, input_len as nat) ==> gates_in_range(gates@, width as nat),
                decreases gates.len() - i,
            {
                let gate = gates[i];
                if gate.left_index >= width || gate.right_index >= width || gate.output_index
                    == usize::MAX {
                    proof {
                        if wired(layers, input_len as nat) {
                            assert(gates@[i as int].left_index < width);
                        }
                    }
                    return false;
                }
                i += 1;
            }
            width = max_output_index(gates) + 1;
        }
        proof {
            assert(layers.skip(0) =~= layers);
        }
        true
    }

    /// Whether the selector polynomials of layer `layer_index` can be built: the
    /// layer exists, the tables fit the machine, and the wiring of every gate of
    /// the layer lies inside them.
    pub fn selectors_fit(&self, layer_index: usize) -> (r: bool)
        ensures
            r == {
                &&& layer_index < self.layers@.len()
                &&& pow2(layer_variables(layer_index as nat)) <= usize::MAX
                &&& forall|k: int|
                    0 <= k < self.layers@[layer_index as int].gates@.len() ==> gate_position(
                        layer_index,
                        #[trigger] self.layers@[layer_index as int].gates@[k],
                    ) < pow2(layer_variables(layer_index as nat))
            },
    {
        if layer_index >= self.layers.len() {
            return false;
        }
        if layer_index > (usize::MAX - 2) / 3 {
            proof {
                lemma_below_pow2(layer_variables(layer_index as nat));
            }
            return false;
        }
        let size = match checked_hypercube_size(num_of_layer_variables(layer_index)) {
            Some(size) => size,
            None => {
                return false;
            },
        };
        let gates = &self.layers[layer_index].gates;
        let mut i: usize = 0;
        while i < gates.len()
            invariant
                i <= gates@.len(),
                layer_index < usize::MAX,
                gates@ == self.layers@[layer_index as int].gates@,
                size == pow2(layer_variables(layer_index as nat)),
                forall|k: int| 0 <= k < i ==> gate_position(layer_index, #[trigger] gates@[k]) < size,
            decreases gates.len() - i,
        {
            let gate = gates[i];
            let position = convert_to_binary_and_to_decimal(
                layer_index,
                gate.output_index,
                gate.left_index,
                gate.right_index,
            );
            if position >= size {
                assert(gate_position(layer_index, gates@[i as int]) >= size);
                return false;
            }
            i += 1;
        }
        true
    }

    /// The cached table of a layer as a multilinear polynomial.
    pub fn w_i_polynomial(&self, layer_index: usize) -> (r: MultilinearPoly<F>)
        requires
            layer_index < self.layer_evaluations@.len(),
        ensures
            r.coefficients@ == self.layer_evaluations@[layer_index as int]@,
    {
        MultilinearPoly::new(copy_elements(&self.layer_evaluations[layer_index]))
    }

    /// The selector polynomials of a layer: the first is 1 at the wiring of each
    /// addition gate, the second at the wiring of each multiplication gate, and
    /// both are 0 everywhere else. The circuit is left as it is.
    pub fn add_i_and_mul_i_mle(&mut self, layer_index: usize) -> (r: (
        MultilinearPoly<F>,
        MultilinearPoly<F>,
    ))
        requires
            layer_index < old(self).layers@.len(),
            pow2(layer_variables(layer_index as nat)) <= usize::MAX,
            forall|k: int|
                0 <= k < old(self).layers@[layer_index as int].gates@.len() ==> gate_position(
                    layer_index,
                    #[trigger] old(self).layers@[layer_index as int].gates@[k],
                ) < pow2(layer_variables(layer_index as nat)),
        ensures
            *final(self) == *old(self),
            r.0@ == selector_table(
                old(self).layers@[layer_index as int].gates@,
                layer_index,
                Operator::Add,
                pow2(layer_variables(layer_index as nat)),
            ),
            r.1@ == selector_table(
                old(self).layers@[layer_index as int].gates@,
                layer_index,
                Operator::Mul,
                pow2(layer_variables(layer_index as nat)),
            ),
    {
        proof {
            lemma_below_pow2(layer_variables(layer_index as nat));
            F::lemma_modulus();
        }
        let number_of_layer_variables = num_of_layer_variables(layer_index);
        let boolean_hypercube_combinations = hypercube_size(number_of_layer_variables);

        let mut add_i_values: Vec<F> = zeros(boolean_hypercube_combinations);
        let mut mul_i_values: Vec<F> = zeros(boolean_hypercube_combinations);

        let gates = &self.layers[layer_index].gates;
        let mut i: usize = 0;
        while i < gates.len()
            invariant
                i <= gates@.len(),
                layer_index < usize::MAX,
                F::modulus() >= 2,
                boolean_hypercube_combinations == pow2(layer_variables(layer_index as nat)),
                forall|k: int|
                    0 <= k < gates@.len() ==> gate_position(layer_index, #[trigger] gates@[k])
                        < boolean_hypercube_combinations,
                add_i_values@.len() == boolean_hypercube_combinations,
                mul_i_values@.len() == boolean_hypercube_combinations,
                forall|p: int|
                    0 <= p < boolean_hypercube_combinations ==> (#[trigger] add_i_values@[p]).value()
                        == (if selects(gates@.take(i as int), layer_index, Operator::Add, p) {
                        1int
                    } else {
                        0int
                    }),
                forall|p: int|
                    0 <= p < boolean_hypercube_combinations ==> (#[trigger] mul_i_values@[p]).value()
                        == (if selects(gates@.take(i as int), layer_index, Operator::Mul, p) {
                        1int
                    } else {
                        0int
                    }),
            decreases gates.len() - i,
        {
            let gate = gates[i];
            proof {
                assert(gates@.take(i + 1).drop_last() =~= gates@.take(i as int));
                assert(gates@.take(i + 1).last() == gate);
                assert forall|p: int| 0 <= p < boolean_hypercube_combinations implies {
                    &&& selects(gates@.take(i + 1), layer_index, Operator::Add, p) <==> (selects(
                        gates@.take(i as int),
                        layer_index,
                        Operator::Add,
                        p,
                    ) || (gate.operator == Operator::Add && gate_position(layer_index, gate) == p))
                    &&& selects(gates@.take(i + 1), layer_index, Operator::Mul, p) <==> (selects(
                        gates@.take(i as int),
                        layer_index,
                        Operator::Mul,
                        p,
                    ) || (gate.operator == Operator::Mul && gate_position(layer_index, gate) == p))
                } by {
                    lemma_selects_last(gates@.take(i + 1), layer_index, Operator::Add, p);
                    lemma_selects_last(gates@.take(i + 1), layer_index, Operator::Mul, p);
                }
            }
            match gate.operator {
                Operator::Add => {
                    let position_index = convert_to_binary_and_to_decimal(
                        layer_index,
                        gate.output_index,
                        gate.left_index,
                        gate.right_index,
                    );
                    add_i_values.set(position_index, F::one());
                },
                Operator::Mul => {
                    let position_index = convert_to_binary_and_to_decimal(
                        layer_index,
                        gate.output_index,
                        gate.left_index,
                        gate.right_index,
                    );
                    mul_i_values.set(position_index, F::one());
                },
            }
            i += 1;
        }
        proof {
            assert(gates@.take(i as int) =~= gates@);
        }

        let add_i_polynomial = MultilinearPoly::new(add_i_values);
        let mul_i_polynomial = MultilinearPoly::new(mul_i_values);
        proof {
            assert(add_i_polynomial@ =~= selector_table(
                gates@,
                layer_index,
                Operator::Add,
                pow2(layer_variables(layer_index as nat)),
            ));
            assert(mul_i_polynomial@ =~= selector_table(
                gates@,
                layer_index,
                Operator::Mul,
                pow2(layer_variables(layer_index as nat)),
            ));
        }

        (add_i_polynomial, mul_i_polynomial)
    }
}

/// Every number is below the power of two that it is the exponent of.
pub proof fn lemma_below_pow2(n: nat)
    ensures
        n < pow2(n),
    decreases n,
{
    if n == 0 {
        vstd::arithmetic::power2::lemma2_to64();
    } else {
        lemma_below_pow2((n - 1) as nat);
        vstd::arithmetic::power2::lemma_pow2_unfold(n);
    }
}

/// A circuit that can be evaluated stays so when layers are taken off its top.
pub proof fn lemma_wired_suffix(layers: Seq<Layer>, input_len: nat, k: int)
    requires
        wired(layers, input_len),
        0 <= k <= layers.len(),
    ensures
        wired(layers.skip(k), input_len),
        k < layers.len() ==> gates_in_range(
            layers[k].gates@,
            top_width(layers.skip(k + 1), input_len),
        ),
    decreases k,
{
    if k == 0 {
        assert(layers.skip(0) =~= layers);
        if layers.len() > 0 {
            assert(layers.skip(1) =~= layers.skip(k + 1));
        }
    } else {
        lemma_wired_suffix(layers.skip(1), input_len, k - 1);
        assert(layers.skip(1).skip(k - 1) =~= layers.skip(k));
        if k < layers.len() {
            assert(layers.skip(1).skip(k) =~= layers.skip(k + 1));
        }
    }
}

/// The rows of `rows` in the opposite order.
fn reversed<F: FiniteField>(rows: Vec<Vec<F>>) -> (r: Vec<Vec<F>>)
    ensures
        r@.len() == rows@.len(),
        forall|i: int| 0 <= i < r@.len() ==> (#[trigger] r@[i])@ == rows@[rows@.len() - 1 - i]@,
{
    let mut rows = rows;
    let ghost before = rows@;
    let mut result: Vec<Vec<F>> = Vec::new();
    while rows.len() > 0
        invariant
            rows@.len() + result@.len() == before.len(),
            rows@ == before.take(rows@.len() as int),
            forall|i: int|
                0 <= i < result@.len() ==> (#[trigger] result@[i])@ == before[before.len() - 1
                    - i]@,
        decreases rows.len(),
    {
        let row = rows.pop().unwrap();
        result.push(row);
    }
    result
}

/// The entry-by-entry sum of two tables of equal length.
pub open spec fn pointwise_sum(b: Seq<int>, c: Seq<int>, m: int) -> Seq<int> {
    Seq::new(b.len(), |i: int| add_mod(b[i], c[i], m))
}

/// The entry-by-entry product of two tables of equal length.
pub open spec fn pointwise_product(b: Seq<int>, c: Seq<int>, m: int) -> Seq<int> {
    Seq::new(b.len(), |i: int| mul_mod(b[i], c[i], m))
}

/// The polynomial whose table is the entry-by-entry sum of the tables of `w_b` and
/// `w_c`, which are over the same hypercube.
pub fn tensor_addition<F: FiniteField>(w_b: &MultilinearPoly<F>, w_c: &MultilinearPoly<F>) -> (r:
    MultilinearPoly<F>)
    requires
        w_b.coefficients@.len() == w_c.coefficients@.len(),
    ensures
        r@ == pointwise_sum(w_b@, w_c@, F::modulus()),
{
    let mut result_values: Vec<F> = Vec::new();
    let mut i: usize = 0;
    while i < w_b.coefficients.len()
        invariant
            i <= w_b.coefficients@.len(),
            w_b.coefficients@.len() == w_c.coefficients@.len(),
            result_values@.len() == i,
            forall|j: int|
                0 <= j < i ==> (#[trigger] result_values@[j]).value() == add_mod(
                    w_b.coefficients@[j].value(),
                    w_c.coefficients@[j].value(),
                    F::modulus(),
                ),
        decreases w_b.coefficients.len() - i,
    {
        result_values.push(w_b.coefficients[i].add(&w_c.coefficients[i]));
        i += 1;
    }
    let r = MultilinearPoly::new(result_values);
    assert(r@ =~= pointwise_sum(w_b@, w_c@, F::modulus()));
    r
}

/// The polynomial whose table is the entry-by-entry product of the tables of `w_b`
/// and `w_c`, which are over the same hypercube.
pub fn tensor_multiplication<F: FiniteField>(
    w_b: &MultilinearPoly<F>,
    w_c: &MultilinearPoly<F>,
) -> (r: MultilinearPoly<F>)
    requires
        w_b.coefficients@.len() == w_c.coefficients@.len(),
    ensures
        r@ == pointwise_product(w_b@, w_c@, F::modulus()),
{
    let mut result_values: Vec<F> = Vec::new();
    let mut i: usize = 0;
    while i < w_b.coefficients.len()
        invariant
            i <= w_b.coefficients@.len(),
            w_b.coefficients@.len() == w_c.coefficients@.len(),
            result_values@.len() == i,
            forall|j: int|
                0 <= j < i ==> (#[trigger] result_values@[j]).value() == mul_mod(
                    w_b.coefficients@[j].value(),
                    w_c.coefficients@[j].value(),
                    F::modulus(),
                ),
        decreases w_b.coefficients.len() - i,
    {
        result_values.push(w_b.coefficients[i].mul(&w_c.coefficients[i]));
        i += 1;
    }
    let r = MultilinearPoly::new(result_values);
    assert(r@ =~= pointwise_product(w_b@, w_c@, F::modulus()));
    r
}

/// The three indices of a gate fit the digits that the selector tables of layer
/// `layer_index` give them.
pub open spec fn gate_fits(layer_index: usize, gate: Gate) -> bool {
    &&& output_fits(layer_index, gate.output_index)
    &&& gate.left_index < pow2((layer_index + 1) as nat)
    &&& gate.right_index < pow2((layer_index + 1) as nat)
}

/// Two gates read the same inputs and write the same output.
pub open spec fn same_wiring(first: Gate, second: Gate) -> bool {
    &&& first.output_index == second.output_index
    &&& first.left_index == second.left_index
    &&& first.right_index == second.right_index
}

/// The number of entries of `table` that are 1.
pub open spec fn count_ones(table: Seq<int>) -> nat
    decreases table.len(),
{
    if table.len() == 0 {
        0
    } else {
        count_ones(table.drop_last()) + (if table.last() == 1 {
            1nat
        } else {
            0nat
        })
    }
}

/// Setting an entry that is not 1 to 1 adds one to the count of ones.
pub proof fn lemma_count_ones_update(table: Seq<int>, position: int)
    requires
        0 <= position < table.len(),
        table[position] != 1,
    ensures
        count_ones(table.update(position, 1)) == count_ones(table) + 1,
    decreases table.len(),
{
    let updated = table.update(position, 1);
    if position == table.len() - 1 {
        assert(updated.drop_last() =~= table.drop_last());
    } else {
        lemma_count_ones_update(table.drop_last(), position);
        assert(updated.drop_last() =~= table.drop_last().update(position, 1));
    }
}

/// A gate that fits its layer has its wiring inside the selector tables, and two
/// such gates with the same position have the same wiring.
pub proof fn lemma_gate_position(layer_index: usize, first: Gate, second: Gate)
    requires
        pow2(layer_variables(layer_index as nat)) <= usize::MAX,
        gate_fits(layer_index, first),
        gate_fits(layer_index, second),
    ensures
        gate_position(layer_index, first) < pow2(layer_variables(layer_index as nat)),
        gate_position(layer_index, first) == gate_position(layer_index, second) ==> same_wiring(
            first,
            second,
        ),
{
    lemma_wiring_index_in_range(
        layer_index,
        first.output_index,
        first.left_index,
        first.right_index,
    );
    lemma_wiring_index_in_range(
        layer_index,
        second.output_index,
        second.left_index,
        second.right_index,
    );
    if gate_position(layer_index, first) == gate_position(layer_index, second) {
        lemma_wiring_number_injective(
            layer_index,
            first.output_index,
            first.left_index,
            first.right_index,
            second.output_index,
            second.left_index,
            second.right_index,
        );
    }
}

/// Selector well-formedness: for gates that fit their layer and have pairwise
/// different wirings, the two selector tables hold nothing but 0 and 1, hold as
/// many ones together as there are gates, and are never 1 at the same position.
pub proof fn lemma_selectors_well_formed(gates: Seq<Gate>, layer_index: usize)
    requires
        pow2(layer_variables(layer_index as nat)) <= usize::MAX,
        forall|k: int| 0 <= k < gates.len() ==> gate_fits(layer_index, #[trigger] gates[k]),
        forall|j: int, k: int|
            0 <= j < gates.len() && 0 <= k < gates.len() && j != k ==> !same_wiring(
                #[trigger] gates[j],
                #[trigger] gates[k],
            ),
    ensures
        ({
            let len = pow2(layer_variables(layer_index as nat));
            let add = selector_table(gates, layer_index, Operator::Add, len);
            let mul = selector_table(gates, layer_index, Operator::Mul, len);
            &&& count_ones(add) + count_ones(mul) == gates.len()
            &&& forall|p: int|
                0 <= p < len ==> {
                    &&& (#[trigger] add[p] == 0 || add[p] == 1)
                    &&& (mul[p] == 0 || mul[p] == 1)
                    &&& !(add[p] == 1 && mul[p] == 1)
                }
        }),
    decreases gates.len(),
{
    let len = pow2(layer_variables(layer_index as nat));
    let add = selector_table(gates, layer_index, Operator::Add, len);
    let mul = selector_table(gates, layer_index, Operator::Mul, len);
    assert forall|p: int| 0 <= p < len implies !(#[trigger] add[p] == 1 && mul[p] == 1) by {
        if add[p] == 1 && mul[p] == 1 {
            let j = choose|j: int|
                0 <= j < gates.len() && (#[trigger] gates[j]).operator == Operator::Add
                    && gate_position(layer_index, gates[j]) == p;
            let k = choose|k: int|
                0 <= k < gates.len() && (#[trigger] gates[k]).operator == Operator::Mul
                    && gate_position(layer_index, gates[k]) == p;
            lemma_gate_position(layer_index, gates[j], gates[k]);
        }
    }
    if gates.len() == 0 {
        lemma_count_ones_of_zeros(add);
        lemma_count_ones_of_zeros(mul);
    } else {
        let front = gates.drop_last();
        let last = gates.last();
        let position = gate_position(layer_index, last) as int;
        assert forall|k: int| 0 <= k < front.len() implies gate_fits(
            layer_index,
            #[trigger] front[k],
        ) by {
            assert(front[k] == gates[k]);
        }
        assert forall|j: int, k: int|
            0 <= j < front.len() && 0 <= k < front.len() && j != k implies !same_wiring(
            #[trigger] front[j],
            #[trigger] front[k],
        ) by {
            assert(front[j] == gates[j]);
            assert(front[k] == gates[k]);
        }
        lemma_selectors_well_formed(front, layer_index);
        let front_add = selector_table(front, layer_index, Operator::Add, len);
        let front_mul = selector_table(front, layer_index, Operator::Mul, len);
        assert(gates[gates.len() - 1] == last);
        lemma_gate_position(layer_index, last, last);
        // No earlier gate has the wiring of the last one.
        assert forall|op: Operator| !selects(front, layer_index, op, position) by {
            if selects(front, layer_index, op, position) {
                let k = choose|k: int|
                    0 <= k < front.len() && (#[trigger] front[k]).operator == op && gate_position(
                        layer_index,
                        front[k],
                    ) == position;
                assert(front[k] == gates[k]);
                lemma_gate_position(layer_index, gates[k], last);
                assert(same_wiring(gates[k], gates[gates.len() - 1]));
            }
        }
        assert forall|p: int, op: Operator| 0 <= p < len implies (selects(
            gates,
            layer_index,
            op,
            p,
        ) <==> (selects(front, layer_index, op, p) || (last.operator == op && position == p))) by {
            lemma_selects_last(gates, layer_index, op, p);
        }
        match last.operator {
            Operator::Add => {
                assert(add =~= front_add.update(position, 1));
                assert(mul =~= front_mul);
                lemma_count_ones_update(front_add, position);
            },
            Operator::Mul => {
                assert(mul =~= front_mul.update(position, 1));
                assert(add =~= front_add);
                lemma_count_ones_update(front_mul, position);
            },
        }
    }
}

/// A table without a 1 has no ones to count.
pub proof fn lemma_count_ones_of_zeros(table: Seq<int>)
    requires
        forall|p: int| 0 <= p < table.len() ==> #[trigger] table[p] != 1,
    ensures
        count_ones(table) == 0,
    decreases table.len(),
{
    if table.len() > 0 {
        lemma_count_ones_of_zeros(table.drop_last());
    }
}

/// Circuit determinism: two evaluations of the same layers on the same input
/// leave the same tables in the cache and return the same output, whatever the
/// caches held before. `first` and `second` are what `Circuit::evaluate` promises
/// of the cache after each of the two calls.
pub proof fn lemma_evaluation_deterministic(
    layers: Seq<Layer>,
    input: Seq<int>,
    m: int,
    first: Seq<Seq<int>>,
    second: Seq<Seq<int>>,
)
    requires
        first == circuit_tables(layers, input, m),
        second == circuit_tables(layers, input, m),
    ensures
        first == second,
        first[0] == second[0],
        first.len() == layers.len() + 1,
        first.last() == input,
{
    lemma_circuit_tables_shape(layers, input, m);
}

} // verus!
