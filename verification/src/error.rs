//! Error types used throughout the circuit representation and its analyses.

use vstd::prelude::*;

use crate::circuit::operations::clone::CloneId;
use crate::circuit::operations::drop::DropId;
use crate::circuit::operations::gate::GateId;
use crate::circuit::operations::input::InputId;
use crate::circuit::operations::output::OutputId;
use crate::circuit::operations::{Consumer, Operation, PortId};
use crate::circuit::subcircuit::CircuitId;
use crate::circuit::value::ValueId;

verus! {

/// Errors that can occur in this crate.
#[derive(Debug, Clone, PartialEq, Eq)]
pub enum Error {
    /// Failed to create a circuit.
    FailedToCreateCircuit(CircuitId),
    /// Failed to create a value.
    FailedToCreateValue(ValueId),
    /// Failed to create an input.
    FailedToCreateInput(InputId),
    /// Failed to create an output.
    FailedToCreateOutput(OutputId),
    /// Failed to create a clone.
    FailedToCreateClone(CloneId),
    /// Failed to create a drop.
    FailedToCreateDrop(DropId),
    /// Failed to create a gate.
    FailedToCreateGate(GateId),
    /// No subcircuit with this id.
    CircuitNotFound(CircuitId),
    /// Non existing value.
    ValueNotFound(ValueId),
    /// Circuit id mismatch.
    CircuitIdMismatch(ValueId, CircuitId),
    /// Invalid input count: (expected, given).
    InvalidInputCount(usize, usize),
    /// Invalid output count: (expected, given).
    InvalidOutputCount(usize, usize),
    /// Invalid clone quantity.
    InvalidCloneQuantity,
    /// Tried to convert an invalid operation.
    InvalidOperationConversion(Operation),
    /// Gate not found.
    GateNotFound(GateId),
    /// Clone not found.
    CloneNotFound(CloneId),
    /// Drop not found.
    DropNotFound(DropId),
    /// Input not found.
    InputNotFound(InputId),
    /// Output not found.
    OutputNotFound(OutputId),
    /// Port index beyond the ports of an operation.
    PortOutOfRange(usize),
    /// Cycle detected during analysis.
    CycleDetected(Vec<Operation>),
    /// Operation not found in schedule.
    OperationNotScheduled(Operation),
    /// Subcircuit analysis result missing.
    SubcircuitAnalysisMissing(CircuitId),
    /// Destination not found when trying to rewire.
    DestinationNotFound(ValueId, Consumer, PortId),
}

/// Result type alias for this crate.
pub type Result<T> = std::result::Result<T, Error>;

} // verus!
