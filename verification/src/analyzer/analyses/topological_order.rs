//! Topological order: an execution order of each subcircuit's operations in
//! which every operation comes after the operations producing its inputs.

use vstd::prelude::*;

use crate::analyzer::graph::graph_nodes;
use crate::analyzer::results::{
    is_cycle_error, is_cycle_of, is_schedule_of, lookup, node_priorities, pairs, result_for, schedule_operations,
};
use crate::circuit::operations::Operation;
use crate::circuit::subcircuit::{CircuitId, Subcircuit};
use crate::circuit::Circuit;
use crate::error::{Error, Result};
use crate::gate::Gate;

verus! {

/// The topological order of one subcircuit.
pub struct SubcircuitOrder {
    order: Vec<Operation>,
}

/// `ops` is a topological order of `sub`'s operations.
pub open spec fn is_topological_order<G: Gate>(sub: Subcircuit<G>, ops: Seq<Operation>) -> bool {
    is_schedule_of(sub, ops, node_priorities(graph_nodes(sub), false))
}

impl SubcircuitOrder {
    /// The operations, in execution order.
    pub closed spec fn ops(&self) -> Seq<Operation> {
        self.order@
    }

    /// The operations in topological order.
    pub fn operations(&self) -> (r: &[Operation])
        ensures
            r@ == self.ops(),
    {
        self.order.as_slice()
    }

    /// The operations in topological order, one by one.
    pub fn iter(&self) -> (r: Vec<Operation>)
        ensures
            r@ == self.ops(),
    {
        self.order.clone()
    }
}

/// Topological order of every subcircuit of a circuit.
pub struct TopologicalOrder {
    results: Vec<(CircuitId, SubcircuitOrder)>,
}

/// Computes the topological order of one subcircuit, by Kahn's algorithm.
/// Fails with the operations that wait on a cycle when there is one.
pub fn compute_topological_order<G: Gate>(subcircuit: &Subcircuit<G>) -> (r: Result<SubcircuitOrder>)
    requires
        subcircuit.wf(),
    ensures
        r matches Ok(order) ==> is_topological_order(*subcircuit, order.ops()),
        r matches Err(e) ==> e matches Error::CycleDetected(ops) && is_cycle_of(*subcircuit, ops@),
{
    let order = schedule_operations(subcircuit, false)?;
    Ok(SubcircuitOrder { order })
}

impl TopologicalOrder {
    /// The results, in subcircuit slot order.
    pub closed spec fn results(&self) -> Seq<(CircuitId, SubcircuitOrder)> {
        self.results@
    }

    /// Computes the topological order of every subcircuit, in slot order;
    /// fails with the first subcircuit's cycle.
    pub fn run<G: Gate>(circuit: &Circuit<G>) -> (r: Result<Self>)
        requires
            circuit.wf(),
        ensures
            r matches Ok(t) ==> {
                &&& t.results().len() == circuit.subcircuits().entries().len()
                &&& forall|j: int| 0 <= j < t.results().len() ==> {
                    &&& (#[trigger] t.results()[j]).0 == circuit.subcircuits().entries()[j].1.circuit_id()
                    &&& is_topological_order(circuit.subcircuits().entries()[j].1, t.results()[j].1.ops())
                }
            },
            r matches Err(e) ==> exists|j: int|
                0 <= j < circuit.subcircuits().entries().len() && #[trigger] is_cycle_error(circuit.subcircuits().entries()[j].1, e),
    {
        let subs = circuit.iter();
        let mut results: Vec<(CircuitId, SubcircuitOrder)> = Vec::with_capacity(subs.len());
        let mut k: usize = 0;
        while k < subs.len()
            invariant
                circuit.wf(),
                subs@.len() == circuit.subcircuits().entries().len(),
                forall|j: int| 0 <= j < subs@.len() ==> *(#[trigger] subs@[j]) == circuit.subcircuits().entries()[j].1,
                k <= subs@.len(),
                results@.len() == k,
                forall|j: int| 0 <= j < k ==> {
                    &&& (#[trigger] results@[j]).0 == circuit.subcircuits().entries()[j].1.circuit_id()
                    &&& is_topological_order(circuit.subcircuits().entries()[j].1, results@[j].1.ops())
                },
            decreases subs@.len() - k,
        {
            let sub = subs[k];
            proof {
                circuit.lemma_entry_wf(k as int);
            }
            let order = match compute_topological_order(sub) {
                Ok(order) => order,
                Err(e) => {
                    proof {
                        assert(is_cycle_error(circuit.subcircuits().entries()[k as int].1, e));
                    }
                    return Err(e);
                },
            };
            results.push((sub.id(), order));
            k = k + 1;
        }
        Ok(TopologicalOrder { results })
    }

    /// The topological order of a subcircuit.
    pub fn for_subcircuit(&self, id: CircuitId) -> (r: Option<&SubcircuitOrder>)
        ensures
            match result_for(self.results(), id) {
                Some(x) => r == Some(&x),
                None => r is None,
            },
    {
        lookup(&self.results, id)
    }

    /// Every subcircuit's topological order, in slot order.
    pub fn iter(&self) -> (r: Vec<(CircuitId, &SubcircuitOrder)>)
        ensures
            r@.len() == self.results().len(),
            forall|k: int| 0 <= k < r@.len() ==> (#[trigger] r@[k]).0 == self.results()[k].0 && *r@[k].1 == self.results()[k].1,
    {
        pairs(&self.results)
    }
}

} // verus!
