//! Output operations: circuit outputs, which consume one value and produce
//! nothing.

use vstd::prelude::*;

use crate::arena::Key;
use crate::circuit::subcircuit::CircuitId;
use crate::circuit::value::ValueId;

verus! {

/// Handle identifying a circuit output.
#[derive(Clone, Copy, PartialEq, Eq, Hash, Debug, Structural)]
pub struct OutputId {
    /// The circuit this output belongs to.
    pub circuit: CircuitId,
    /// Specific output in the circuit.
    pub key: Key,
}

impl OutputId {
    /// Create a new output id from a key.
    pub fn new(circuit: CircuitId, key: Key) -> (r: Self)
        ensures
            r.circuit == circuit,
            r.key == key,
    {
        Self { circuit, key }
    }

    /// Return the underlying key.
    pub fn key(self) -> (r: Key)
        ensures
            r == self.key,
    {
        self.key
    }

    /// Return the circuit this output belongs to.
    pub fn circuit(self) -> (r: CircuitId)
        ensures
            r == self.circuit,
    {
        self.circuit
    }
}

/// Output operation: circuit output, consumes one value.
pub struct OutputOp {
    /// The input value.
    input: ValueId,
}

impl OutputOp {
    /// The value this output consumes.
    pub closed spec fn input(&self) -> ValueId {
        self.input
    }

    /// Create a new output operation.
    pub fn new(input: ValueId) -> (r: Self)
        ensures
            r.input() == input,
    {
        Self { input }
    }

    /// Get the input value.
    pub fn get_input(&self) -> (r: ValueId)
        ensures
            r == self.input(),
    {
        self.input
    }

    /// Set the input value.
    pub fn set_input(&mut self, value: ValueId)
        ensures
            final(self).input() == value,
    {
        self.input = value;
    }
}

} // verus!
