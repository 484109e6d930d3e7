//! Scheduled order: a topological order of each subcircuit's operations that
//! runs outputs and drops as early as possible and inputs and clones as late
//! as possible, so that values are freed soon after their last use.

use vstd::prelude::*;

use crate::analyzer::graph::graph_nodes;
use crate::analyzer::results::{
    is_cycle_error, is_cycle_of, is_schedule_of, lookup, node_priorities, pairs, result_for, schedule_operations,
};
use crate::circuit::operations::Operation;
use crate::circuit::subcircuit::{CircuitId, Subcircuit};
use crate::circuit::Circuit;
use crate::error::{Error, Result};
use crate::gate::Gate;

verus! {

/// The first position of `op` in `ops`.
#[verifier::opaque]
pub open spec fn first_position(ops: Seq<Operation>, op: Operation) -> Option<usize> {
    if ops.contains(op) {
        Some((choose|i: int| 0 <= i < ops.len() && ops[i] == op && forall|j: int| 0 <= j < i ==> ops[j] != op) as usize)
    } else {
        None
    }
}

/// The schedule of one subcircuit.
pub struct SubcircuitSchedule {
    order: Vec<Operation>,
}

/// `ops` is a schedule of `sub`'s operations by priority.
pub open spec fn is_scheduled_order<G: Gate>(sub: Subcircuit<G>, ops: Seq<Operation>) -> bool {
    is_schedule_of(sub, ops, node_priorities(graph_nodes(sub), true))
}

impl SubcircuitSchedule {
    /// The operations, in execution order.
    pub closed spec fn ops(&self) -> Seq<Operation> {
        self.order@
    }

    /// The operations in scheduled order.
    pub fn operations(&self) -> (r: &[Operation])
        ensures
            r@ == self.ops(),
    {
        self.order.as_slice()
    }

    /// The operations in scheduled order, one by one.
    pub fn iter(&self) -> (r: Vec<Operation>)
        ensures
            r@ == self.ops(),
    {
        self.order.clone()
    }

    /// The position of an operation in the schedule.
    #[verifier::spinoff_prover]
    pub fn position(&self, op: Operation) -> (r: Option<usize>)
        ensures
            r == first_position(self.ops(), op),
            r matches Some(i) ==> i < self.ops().len(),
    {
        reveal(first_position);
        let mut i: usize = 0;
        while i < self.order.len()
            invariant
                i <= self.order@.len(),
                forall|j: int| 0 <= j < i ==> self.order@[j] != op,
            decreases self.order@.len() - i,
        {
            if self.order[i] == op {
                proof {
                    reveal(first_position);
                    assert(self.ops()[i as int] == op);
                    assert(self.ops().contains(op));
                    assert(forall|j: int| 0 <= j < i ==> self.ops()[j] != op);
                    assert(exists|c: int| 0 <= c < self.ops().len() && self.ops()[c] == op && forall|j: int| 0 <= j < c ==> self.ops()[j] != op);
                    let c = choose|c: int| 0 <= c < self.ops().len() && self.ops()[c] == op && forall|j: int| 0 <= j < c ==> self.ops()[j] != op;
                    assert(c == i);
                }
                return Some(i);
            }
            i = i + 1;
        }
        proof {
            reveal(first_position);
            assert(!self.ops().contains(op));
        }
        None
    }
}

/// Schedule of every subcircuit of a circuit.
pub struct ScheduledOrder {
    results: Vec<(CircuitId, SubcircuitSchedule)>,
}

/// Computes the schedule of one subcircuit: Kahn's algorithm, taking the
/// ready operation of highest priority first. Fails with the operations
/// that wait on a cycle when there is one.
pub fn compute_scheduled_order<G: Gate>(subcircuit: &Subcircuit<G>) -> (r: Result<SubcircuitSchedule>)
    requires
        subcircuit.wf(),
    ensures
        r matches Ok(order) ==> is_scheduled_order(*subcircuit, order.ops()),
        r matches Err(e) ==> e matches Error::CycleDetected(ops) && is_cycle_of(*subcircuit, ops@),
{
    let order = schedule_operations(subcircuit, true)?;
    Ok(SubcircuitSchedule { order })
}

impl ScheduledOrder {
    /// The results, in subcircuit slot order.
    pub closed spec fn results(&self) -> Seq<(CircuitId, SubcircuitSchedule)> {
        self.results@
    }

    /// Computes the schedule of every subcircuit, in slot order;
    /// fails with the first subcircuit's cycle.
    pub fn run<G: Gate>(circuit: &Circuit<G>) -> (r: Result<Self>)
        requires
            circuit.wf(),
        ensures
            r matches Ok(t) ==> {
                &&& t.results().len() == circuit.subcircuits().entries().len()
                &&& forall|j: int| 0 <= j < t.results().len() ==> {
                    &&& (#[trigger] t.results()[j]).0 == circuit.subcircuits().entries()[j].1.circuit_id()
                    &&& is_scheduled_order(circuit.subcircuits().entries()[j].1, t.results()[j].1.ops())
                }
            },
            r matches Err(e) ==> exists|j: int|
                0 <= j < circuit.subcircuits().entries().len() && #[trigger] is_cycle_error(circuit.subcircuits().entries()[j].1, e),
    {
        let subs = circuit.iter();
        let mut results: Vec<(CircuitId, SubcircuitSchedule)> = Vec::with_capacity(subs.len());
        let mut k: usize = 0;
        while k < subs.len()
            invariant
                circuit.wf(),
                subs@.len() == circuit.subcircuits().entries().len(),
                forall|j: int| 0 <= j < subs@.len() ==> *(#[trigger] subs@[j]) == circuit.subcircuits().entries()[j].1,
                k <= subs@.len(),
                results@.len() == k,
                forall|j: int| 0 <= j < k ==> {
                    &&& (#[trigger] results@[j]).0 == circuit.subcircuits().entries()[j].1.circuit_id()
                    &&& is_scheduled_order(circuit.subcircuits().entries()[j].1, results@[j].1.ops())
                },
            decreases subs@.len() - k,
        {
            let sub = subs[k];
            proof {
                circuit.lemma_entry_wf(k as int);
            }
            let order = match compute_scheduled_order(sub) {
                Ok(order) => order,
                Err(e) => {
                    proof {
                        assert(is_cycle_error(circuit.subcircuits().entries()[k as int].1, e));
                    }
                    return Err(e);
                },
            };
            results.push((sub.id(), order));
            k = k + 1;
        }
        Ok(ScheduledOrder { results })
    }

    /// The schedule of a subcircuit.
    pub fn for_subcircuit(&self, id: CircuitId) -> (r: Option<&SubcircuitSchedule>)
        ensures
            match result_for(self.results(), id) {
                Some(x) => r == Some(&x),
                None => r is None,
            },
    {
        lookup(&self.results, id)
    }

    /// Every subcircuit's schedule, in slot order.
    pub fn iter(&self) -> (r: Vec<(CircuitId, &SubcircuitSchedule)>)
        ensures
            r@.len() == self.results().len(),
            forall|k: int| 0 <= k < r@.len() ==> (#[trigger] r@[k]).0 == self.results()[k].0 && *r@[k].1 == self.results()[k].1,
    {
        pairs(&self.results)
    }
}

} // verus!
