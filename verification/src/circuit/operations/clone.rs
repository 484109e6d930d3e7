//! Clone operations: borrow one value and produce N copies of it.

use vstd::prelude::*;

use crate::arena::Key;
use crate::circuit::subcircuit::CircuitId;
use crate::circuit::value::ValueId;

verus! {

/// Handle identifying a clone operation in the circuit.
#[derive(Clone, Copy, PartialEq, Eq, Hash, Debug, Structural)]
pub struct CloneId {
    /// The circuit this clone belongs to.
    pub circuit: CircuitId,
    /// Specific clone in the circuit.
    pub key: Key,
}

impl CloneId {
    /// Create a new clone id from a key.
    pub fn new(circuit: CircuitId, key: Key) -> (r: Self)
        ensures
            r.circuit == circuit,
            r.key == key,
    {
        Self { circuit, key }
    }

    /// Return the underlying key.
    pub fn key(self) -> (r: Key)
        ensures
            r == self.key,
    {
        self.key
    }

    /// Return the circuit this clone belongs to.
    pub fn circuit(self) -> (r: CircuitId)
        ensures
            r == self.circuit,
    {
        self.circuit
    }
}

/// Clone operation: borrow one value, produce N copies.
pub struct CloneOp {
    /// The input value.
    input: ValueId,
    /// The output values.
    outputs: Vec<ValueId>,
}

impl CloneOp {
    /// The value this clone borrows.
    pub closed spec fn input(&self) -> ValueId {
        self.input
    }

    /// The copies this clone produces.
    pub closed spec fn outputs(&self) -> Seq<ValueId> {
        self.outputs@
    }

    /// Create a new clone operation.
    pub fn new(input: ValueId, outputs: Vec<ValueId>) -> (r: Self)
        ensures
            r.input() == input,
            r.outputs() == outputs@,
    {
        Self { input, outputs }
    }

    /// Get the input value.
    pub fn get_input(&self) -> (r: ValueId)
        ensures
            r == self.input(),
    {
        self.input
    }

    /// Get the output values.
    pub fn get_outputs(&self) -> (r: &[ValueId])
        ensures
            r@ == self.outputs(),
    {
        self.outputs.as_slice()
    }

    /// Get the number of output copies.
    pub fn output_count(&self) -> (r: usize)
        ensures
            r == self.outputs().len(),
    {
        self.outputs.len()
    }

    /// Set the input value.
    pub fn set_input(&mut self, value: ValueId)
        ensures
            final(self).input() == value,
            final(self).outputs() == old(self).outputs(),
    {
        self.input = value;
    }
}

} // verus!
