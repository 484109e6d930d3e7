//! Handles used by the netlist builder and the netlists it builds.

use vstd::prelude::*;

verus! {

/// A gate of the builder, by index.
#[derive(Clone, Copy, Debug, PartialEq, Eq, Hash, Structural)]
pub struct Node(pub usize);

/// A circuit input of the builder, by index.
#[derive(Clone, Copy, Debug, PartialEq, Eq, Hash, Structural)]
pub struct Input(pub usize);

/// A circuit output of the builder, by index.
#[derive(Clone, Copy, Debug, PartialEq, Eq, Hash, Structural)]
pub struct Output(pub usize);

/// A wire of a built netlist, by index.
#[derive(Clone, Copy, Debug, PartialEq, Eq, Hash, Structural)]
pub struct Wire(pub usize);

/// Descriptor of a builder gate.
///
/// An implementation promises that `arity` and `name` give the same answer
/// for the same gate, which `spec_arity` and `spec_name` name; nothing
/// checks this on implementations outside this crate, and one written in
/// plain Rust defines `spec_arity` by calling `arity`, and `spec_name` by
/// calling `name`.
pub trait Gate {
    /// The number of inputs of this gate.
    spec fn spec_arity(&self) -> usize;

    /// The name of this gate.
    spec fn spec_name(&self) -> &str;

    /// Number of inputs this gate takes.
    fn arity(&self) -> (r: usize)
        ensures
            r == self.spec_arity(),
    ;

    /// Name of this gate, used when printing a netlist.
    fn name(&self) -> (r: &str)
        ensures
            r@ == self.spec_name()@,
    ;
}

/// Errors reported while connecting or building a netlist.
#[derive(Clone, Copy, Debug, PartialEq, Eq, Structural)]
pub enum Error {
    /// The input does not exist.
    NonExistentInput(Input),
    /// This gate does not exist.
    NonExistentGate(Node),
    /// The output does not exist.
    NonExistentOutput(Output),
    /// This gate already has as many connections as its arity.
    TooManyConnections { gate: Node, arity: usize },
    /// A gate cannot feed itself.
    SelfConnection(Node),
    /// The output is already connected to a gate.
    OutputAlreadyConnectedToGate(Output),
    /// This gate already feeds an output.
    GateAlreadyConnectedToOutput(Node),
    /// The input feeds no gate.
    UnusedInput(Input),
    /// The output is fed by no gate.
    UnusedOutput(Output),
    /// This gate takes no inputs.
    ZeroArityGate(Node),
    /// This gate has fewer connections than its arity.
    TooLittleConnections { gate: Node, arity: usize },
    /// This gate lies on a cycle.
    CycleDetected(Node),
    /// The cycle search met a gate it had already finished; `build` no
    /// longer reports it, since such a gate is simply skipped.
    AnomalyOnCycleCheck(Node),
    /// No circuit input reaches this gate.
    UnreachableGate(Node),
    /// This gate reaches no circuit output.
    DeadEndGate(Node),
    /// A gate entry was consumed twice while building.
    UnexpectedNoneGateEntry(Node),
    /// A gate's output wire was needed before it was assigned.
    UnmappedGateWire(Node),
    /// An output was found unconnected while building.
    UnexpectedUnusedOutput(Output),
}

} // verus!
