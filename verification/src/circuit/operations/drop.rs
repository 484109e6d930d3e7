//! Drop operations: consume one value and produce nothing.

use vstd::prelude::*;

use crate::arena::Key;
use crate::circuit::subcircuit::CircuitId;
use crate::circuit::value::ValueId;

verus! {

/// Handle identifying a drop operation.
#[derive(Clone, Copy, PartialEq, Eq, Hash, Debug, Structural)]
pub struct DropId {
    /// The circuit this drop belongs to.
    pub circuit: CircuitId,
    /// Specific drop in the circuit.
    pub key: Key,
}

impl DropId {
    /// Create a new drop id from a key.
    pub fn new(circuit: CircuitId, key: Key) -> (r: Self)
        ensures
            r.circuit == circuit,
            r.key == key,
    {
        Self { circuit, key }
    }

    /// Return the underlying key.
    pub fn key(self) -> (r: Key)
        ensures
            r == self.key,
    {
        self.key
    }

    /// Return the circuit this drop belongs to.
    pub fn circuit(self) -> (r: CircuitId)
        ensures
            r == self.circuit,
    {
        self.circuit
    }
}

/// Drop operation: consume a value, produce nothing.
pub struct DropOp {
    /// The input value.
    input: ValueId,
}

impl DropOp {
    /// The value this drop consumes.
    pub closed spec fn input(&self) -> ValueId {
        self.input
    }

    /// Create a new drop operation.
    pub fn new(input: ValueId) -> (r: Self)
        ensures
            r.input() == input,
    {
        Self { input }
    }

    /// Get the input value.
    pub fn get_input(&self) -> (r: ValueId)
        ensures
            r == self.input(),
    {
        self.input
    }

    /// Set the input value.
    pub fn set_input(&mut self, value: ValueId)
        ensures
            final(self).input() == value,
    {
        self.input = value;
    }
}

} // verus!
