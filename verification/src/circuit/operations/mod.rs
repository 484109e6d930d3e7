//! Operations.
//!
//! All operations that can be added to a circuit, the handles used to
//! identify them, and the ports through which values flow.

use vstd::prelude::*;

use crate::circuit::operations::clone::CloneId;
use crate::circuit::operations::drop::DropId;
use crate::circuit::operations::gate::GateId;
use crate::circuit::operations::input::InputId;
use crate::circuit::operations::output::OutputId;
use crate::error::{Error, Result};

pub mod clone;
pub mod drop;
pub mod gate;
pub mod input;
pub mod output;

verus! {

/// Handle identifying a port. Operations may have several input and output ports.
#[derive(Clone, Copy, PartialEq, Eq, Hash, Debug, Structural)]
pub struct PortId(pub usize);

impl PortId {
    /// Create a new port id from a numeric index.
    pub fn new(id: usize) -> (r: Self)
        ensures
            r.0 == id,
    {
        PortId(id)
    }

    /// Return the numeric index.
    pub fn index(self) -> (r: usize)
        ensures
            r == self.0,
    {
        self.0
    }
}

/// Consumer operations of a circuit.
#[derive(Clone, Copy, Debug, PartialEq, Eq, Hash, Structural)]
pub enum Consumer {
    /// Used by a gate.
    Gate(GateId),
    /// Used by a clone.
    Clone(CloneId),
    /// Used by a drop.
    Drop(DropId),
    /// Circuit output.
    Output(OutputId),
}

/// What produces a value.
#[derive(Clone, Copy, Debug, PartialEq, Eq, Hash, Structural)]
pub enum Producer {
    /// External circuit input.
    Input(InputId),
    /// Produced by a gate.
    Gate(GateId),
    /// Produced by a clone.
    Clone(CloneId),
}

/// Any operation of a circuit.
#[derive(Clone, Copy, Debug, PartialEq, Eq, Hash, Structural)]
pub enum Operation {
    /// Circuit input.
    Input(InputId),
    /// A gate computation.
    Gate(GateId),
    /// A clone operation.
    Clone(CloneId),
    /// A drop operation.
    Drop(DropId),
    /// A circuit output.
    Output(OutputId),
}

/// The operation a consumer is.
pub open spec fn consumer_operation(c: Consumer) -> Operation {
    match c {
        Consumer::Gate(id) => Operation::Gate(id),
        Consumer::Clone(id) => Operation::Clone(id),
        Consumer::Drop(id) => Operation::Drop(id),
        Consumer::Output(id) => Operation::Output(id),
    }
}

/// The operation a producer is.
pub open spec fn producer_operation(p: Producer) -> Operation {
    match p {
        Producer::Input(id) => Operation::Input(id),
        Producer::Gate(id) => Operation::Gate(id),
        Producer::Clone(id) => Operation::Clone(id),
    }
}

impl Consumer {
    /// Convert an operation into a consumer; inputs consume nothing.
    pub fn try_from_operation(value: Operation) -> (r: Result<Consumer>)
        ensures
            r is Ok <==> !(value is Input),
            r is Ok ==> consumer_operation(r->Ok_0) == value,
            r is Err ==> r == Err::<Consumer, Error>(Error::InvalidOperationConversion(value)),
    {
        match value {
            Operation::Gate(id) => Ok(Consumer::Gate(id)),
            Operation::Clone(id) => Ok(Consumer::Clone(id)),
            Operation::Drop(id) => Ok(Consumer::Drop(id)),
            Operation::Output(id) => Ok(Consumer::Output(id)),
            _ => Err(Error::InvalidOperationConversion(value)),
        }
    }
}

impl Producer {
    /// Convert an operation into a producer; drops and outputs produce nothing.
    pub fn try_from_operation(value: Operation) -> (r: Result<Producer>)
        ensures
            r is Ok <==> !(value is Drop || value is Output),
            r is Ok ==> producer_operation(r->Ok_0) == value,
            r is Err ==> r == Err::<Producer, Error>(Error::InvalidOperationConversion(value)),
    {
        match value {
            Operation::Input(id) => Ok(Producer::Input(id)),
            Operation::Gate(id) => Ok(Producer::Gate(id)),
            Operation::Clone(id) => Ok(Producer::Clone(id)),
            _ => Err(Error::InvalidOperationConversion(value)),
        }
    }
}

impl Operation {
    /// The operation a consumer is.
    pub fn from_consumer(consumer: Consumer) -> (r: Operation)
        ensures
            r == consumer_operation(consumer),
    {
        match consumer {
            Consumer::Gate(id) => Operation::Gate(id),
            Consumer::Clone(id) => Operation::Clone(id),
            Consumer::Drop(id) => Operation::Drop(id),
            Consumer::Output(id) => Operation::Output(id),
        }
    }

    /// The operation a producer is.
    pub fn from_producer(producer: Producer) -> (r: Operation)
        ensures
            r == producer_operation(producer),
    {
        match producer {
            Producer::Input(id) => Operation::Input(id),
            Producer::Gate(id) => Operation::Gate(id),
            Producer::Clone(id) => Operation::Clone(id),
        }
    }
}

} // verus!
