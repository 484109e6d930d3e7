//! Gate operations: user-defined computations that take a number of input
//! values and produce a number of output values.

use vstd::prelude::*;

use crate::arena::Key;
use crate::circuit::subcircuit::CircuitId;
use crate::circuit::value::ValueId;
use crate::error::{Error, Result};
use crate::gate::Gate;

verus! {

/// Handle identifying a gate in a circuit.
#[derive(Clone, Copy, PartialEq, Eq, Hash, Debug, Structural)]
pub struct GateId {
    /// The circuit this gate belongs to.
    pub circuit: CircuitId,
    /// Specific gate in the circuit.
    pub key: Key,
}

impl GateId {
    /// Create a new gate id from a key.
    pub fn new(circuit: CircuitId, key: Key) -> (r: Self)
        ensures
            r.circuit == circuit,
            r.key == key,
    {
        Self { circuit, key }
    }

    /// Return the underlying key.
    pub fn key(self) -> (r: Key)
        ensures
            r == self.key,
    {
        self.key
    }

    /// Return the circuit this gate belongs to.
    pub fn circuit(self) -> (r: CircuitId)
        ensures
            r == self.circuit,
    {
        self.circuit
    }
}

/// A gate operation: a user-defined computation.
pub struct GateOp<G: Gate> {
    /// Gate descriptor.
    gate: G,
    /// Input values.
    inputs: Vec<ValueId>,
    /// Output values.
    outputs: Vec<ValueId>,
}

impl<G: Gate> GateOp<G> {
    /// Gate descriptor.
    pub closed spec fn gate(&self) -> G {
        self.gate
    }

    /// Values this gate reads, by input port.
    pub closed spec fn inputs(&self) -> Seq<ValueId> {
        self.inputs@
    }

    /// Values this gate produces, by output port.
    pub closed spec fn outputs(&self) -> Seq<ValueId> {
        self.outputs@
    }

    /// Create a new gate operation, checking the number of inputs and then
    /// the number of outputs against what this gate declares.
    pub fn new(gate: G, inputs: Vec<ValueId>, outputs: Vec<ValueId>) -> (r: Result<Self>)
        ensures
            r is Ok <==> inputs@.len() == gate.spec_input_count() && outputs@.len() == gate.spec_output_count(),
            r is Ok ==> r->Ok_0.gate() == gate && r->Ok_0.inputs() == inputs@ && r->Ok_0.outputs() == outputs@,
            inputs@.len() != gate.spec_input_count() ==> r == Err::<Self, Error>(
                Error::InvalidInputCount(gate.spec_input_count(), inputs@.len() as usize),
            ),
            inputs@.len() == gate.spec_input_count() && outputs@.len() != gate.spec_output_count() ==> r == Err::<Self, Error>(
                Error::InvalidOutputCount(gate.spec_output_count(), outputs@.len() as usize),
            ),
    {
        let expected_inputs = gate.input_count();
        if inputs.len() != expected_inputs {
            return Err(Error::InvalidInputCount(expected_inputs, inputs.len()));
        }
        let expected_outputs = gate.output_count();
        if outputs.len() != expected_outputs {
            return Err(Error::InvalidOutputCount(expected_outputs, outputs.len()));
        }
        Ok(Self { gate, inputs, outputs })
    }

    /// Assemble a gate operation whose port counts the caller has checked.
    pub(crate) fn from_parts(gate: G, inputs: Vec<ValueId>, outputs: Vec<ValueId>) -> (r: Self)
        ensures
            r.gate() == gate,
            r.inputs() == inputs@,
            r.outputs() == outputs@,
    {
        Self { gate, inputs, outputs }
    }

    /// Get gate descriptor.
    pub fn get_gate(&self) -> (r: &G)
        ensures
            *r == self.gate(),
    {
        &self.gate
    }

    /// Get the input values.
    pub fn get_inputs(&self) -> (r: &[ValueId])
        ensures
            r@ == self.inputs(),
    {
        self.inputs.as_slice()
    }

    /// Get the output values.
    pub fn get_outputs(&self) -> (r: &[ValueId])
        ensures
            r@ == self.outputs(),
    {
        self.outputs.as_slice()
    }

    /// Replace the value read at an input port.
    pub fn set_input(&mut self, port: usize, value: ValueId) -> (r: Result<()>)
        ensures
            r is Ok <==> port < old(self).inputs().len(),
            r is Ok ==> final(self).inputs() == old(self).inputs().update(port as int, value),
            r is Err ==> *final(self) == *old(self) && r->Err_0 == Error::PortOutOfRange(port),
            final(self).gate() == old(self).gate(),
            final(self).outputs() == old(self).outputs(),
    {
        if port < self.inputs.len() {
            self.inputs.set(port, value);
            Ok(())
        } else {
            Err(Error::PortOutOfRange(port))
        }
    }
}

} // verus!
