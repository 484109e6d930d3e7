//! Gate entries of the builder.

use vstd::prelude::*;

use crate::builder::handles::{Gate, Input, Node};

verus! {

/// Where a gate input comes from.
#[derive(Clone, Copy, Debug, PartialEq, Eq, Structural)]
pub enum Source {
    /// A circuit input.
    Input(Input),
    /// The output of another gate.
    Gate(Node),
}

/// A gate being built, with the sources of its inputs in port order.
pub(crate) struct BuilderEntry<T: Gate> {
    /// Gate descriptor.
    pub(crate) gate: T,
    /// The number of inputs this gate takes, as it reported when added.
    pub(crate) arity: usize,
    /// The sources connected so far, in port order.
    pub(crate) backward_edges: Vec<Source>,
}

impl<T: Gate> BuilderEntry<T> {
    /// A new entry for a gate, with no connections yet.
    pub(crate) fn new(gate: T) -> (r: Self)
        ensures
            r.backward_edges@ == Seq::<Source>::empty(),
            r.gate == gate,
            r.arity == gate.spec_arity(),
    {
        let arity = gate.arity();
        Self { backward_edges: Vec::new(), gate, arity }
    }
}

} // verus!
