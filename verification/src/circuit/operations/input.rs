//! Input operations: external circuit inputs, which produce one value and
//! consume nothing.

use vstd::prelude::*;

use crate::arena::Key;
use crate::circuit::subcircuit::CircuitId;
use crate::circuit::value::ValueId;

verus! {

/// Handle identifying a circuit input.
#[derive(Clone, Copy, PartialEq, Eq, Hash, Debug, Structural)]
pub struct InputId {
    /// The circuit this input belongs to.
    pub circuit: CircuitId,
    /// Specific input in the circuit.
    pub key: Key,
}

impl InputId {
    /// Create a new input id from a key.
    pub fn new(circuit: CircuitId, key: Key) -> (r: Self)
        ensures
            r.circuit == circuit,
            r.key == key,
    {
        Self { circuit, key }
    }

    /// Return the underlying key.
    pub fn key(self) -> (r: Key)
        ensures
            r == self.key,
    {
        self.key
    }

    /// Return the circuit this input belongs to.
    pub fn circuit(self) -> (r: CircuitId)
        ensures
            r == self.circuit,
    {
        self.circuit
    }
}

/// Input operation: external circuit input, produces one value.
pub struct InputOp {
    /// The output value.
    output: ValueId,
}

impl InputOp {
    /// The value this input produces.
    pub closed spec fn output(&self) -> ValueId {
        self.output
    }

    /// Create a new input operation.
    pub fn new(output: ValueId) -> (r: Self)
        ensures
            r.output() == output,
    {
        Self { output }
    }

    /// Get the output value.
    pub fn get_output(&self) -> (r: ValueId)
        ensures
            r == self.output(),
    {
        self.output
    }
}

} // verus!
