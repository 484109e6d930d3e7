//! Per-subcircuit results of an analysis, kept in subcircuit slot order.

use vstd::prelude::*;

use crate::analyzer::graph::{graph_nodes, indexes_edges, operation_graph};
use crate::analyzer::priority::{priority_rank, Priority};
use crate::analyzer::schedule::{is_complete_order, is_stuck_set, list_schedule, respects_priority};
use crate::circuit::operations::Operation;
use crate::circuit::subcircuit::{CircuitId, Subcircuit};
use crate::circuit::Circuit;
use crate::error::{Error, Result};
use crate::gate::Gate;

verus! {

/// The result stored for `id`: that of its first entry.
pub open spec fn result_for<K, X>(results: Seq<(K, X)>, id: K) -> Option<X> {
    if exists|k: int| 0 <= k < results.len() && (#[trigger] results[k]).0 == id {
        let k = choose|k: int|
            0 <= k < results.len() && (#[trigger] results[k]).0 == id && forall|j: int| 0 <= j < k ==> results[j].0 != id;
        Some(results[k].1)
    } else {
        None
    }
}

/// The entry at `j` is the one found for its id when no earlier entry has
/// that id.
pub proof fn lemma_result_for_at<K, X>(results: Seq<(K, X)>, j: int)
    requires
        0 <= j < results.len(),
        forall|a: int| 0 <= a < j ==> (#[trigger] results[a]).0 != results[j].0,
    ensures
        result_for(results, results[j].0) == Some(results[j].1),
{
    let id = results[j].0;
    assert(0 <= j < results.len() && results[j].0 == id);
    let k = choose|k: int|
        0 <= k < results.len() && (#[trigger] results[k]).0 == id && forall|i: int| 0 <= i < k ==> results[i].0 != id;
    if k < j {
        assert(results[k].0 == id);
    } else if j < k {
        assert(results[j].0 == id);
    }
}

/// When the results follow a circuit's subcircuits in slot order, the one
/// found for a subcircuit's id is its own.
pub proof fn lemma_result_for_subcircuit<G: Gate, X>(circuit: Circuit<G>, results: Seq<(CircuitId, X)>, j: int)
    requires
        circuit.wf(),
        results.len() == circuit.subcircuits().entries().len(),
        forall|k: int| 0 <= k < results.len() ==> (#[trigger] results[k]).0 == circuit.subcircuits().entries()[k].1.circuit_id(),
        0 <= j < results.len(),
    ensures
        result_for(results, circuit.subcircuits().entries()[j].1.circuit_id()) == Some(results[j].1),
{
    assert forall|a: int| 0 <= a < j implies (#[trigger] results[a]).0 != results[j].0 by {
        if results[a].0 == results[j].0 {
            circuit.lemma_entry_ids_distinct(a, j);
        }
    }
    lemma_result_for_at(results, j);
}

/// The result stored for `id`, if any.
pub(crate) fn lookup<X>(results: &Vec<(CircuitId, X)>, id: CircuitId) -> (r: Option<&X>)
    ensures
        match result_for(results@, id) {
            Some(x) => r == Some(&x),
            None => r is None,
        },
{
    let mut k: usize = 0;
    while k < results.len()
        invariant
            k <= results@.len(),
            forall|j: int| 0 <= j < k ==> results@[j].0 != id,
        decreases results@.len() - k,
    {
        if results[k].0 == id {
            proof {
                let c = choose|c: int|
                    0 <= c < results@.len() && (#[trigger] results@[c]).0 == id && forall|j: int| 0 <= j < c ==> results@[j].0 != id;
                assert(c == k);
            }
            return Some(&results[k].1);
        }
        k = k + 1;
    }
    None
}

/// The results paired with their subcircuit ids, by reference.
pub(crate) fn pairs<X>(results: &Vec<(CircuitId, X)>) -> (r: Vec<(CircuitId, &X)>)
    ensures
        r@.len() == results@.len(),
        forall|k: int| 0 <= k < r@.len() ==> (#[trigger] r@[k]).0 == results@[k].0 && *r@[k].1 == results@[k].1,
{
    let mut r: Vec<(CircuitId, &X)> = Vec::with_capacity(results.len());
    let mut k: usize = 0;
    while k < results.len()
        invariant
            k <= results@.len(),
            r@.len() == k,
            forall|j: int| 0 <= j < k ==> (#[trigger] r@[j]).0 == results@[j].0 && *r@[j].1 == results@[j].1,
        decreases results@.len() - k,
    {
        r.push((results[k].0, &results[k].1));
        k = k + 1;
    }
    r
}

/// The operations at the given node indices.
pub open spec fn ops_at(nodes: Seq<Operation>, idx: Seq<usize>) -> Seq<Operation> {
    idx.map_values(|i: usize| nodes[i as int])
}

/// `ops` schedules every operation of `sub` after the operations producing
/// the values it uses, always picking a ready operation of highest priority
/// by `prio`, given per node.
pub open spec fn is_schedule_of<G: Gate>(sub: Subcircuit<G>, ops: Seq<Operation>, prio: Seq<u8>) -> bool {
    exists|es: Seq<(Option<usize>, usize)>, idx: Seq<usize>|
        #![trigger indexes_edges(sub, graph_nodes(sub), es), is_complete_order(graph_nodes(sub).len() as int, es, idx)]
        indexes_edges(sub, graph_nodes(sub), es) && is_complete_order(graph_nodes(sub).len() as int, es, idx)
            && respects_priority(es, prio, idx) && ops == ops_at(graph_nodes(sub), idx)
}

/// `ops` lists, in node order, the operations of `sub` that can never be
/// scheduled because they wait on a cycle or on a missing producer.
pub open spec fn is_cycle_of<G: Gate>(sub: Subcircuit<G>, ops: Seq<Operation>) -> bool {
    exists|es: Seq<(Option<usize>, usize)>, stuck: Seq<usize>|
        #![trigger indexes_edges(sub, graph_nodes(sub), es), is_stuck_set(graph_nodes(sub).len() as int, es, stuck)]
        indexes_edges(sub, graph_nodes(sub), es) && is_stuck_set(graph_nodes(sub).len() as int, es, stuck)
            && ops == ops_at(graph_nodes(sub), stuck)
}

/// `e` reports the operations of `sub` that wait on a cycle.
pub open spec fn is_cycle_error<G: Gate>(sub: Subcircuit<G>, e: Error) -> bool {
    e matches Error::CycleDetected(ops) && is_cycle_of(sub, ops@)
}

fn map_nodes(nodes: &Vec<Operation>, idx: &Vec<usize>) -> (r: Vec<Operation>)
    requires
        forall|k: int| 0 <= k < idx@.len() ==> #[trigger] idx@[k] < nodes@.len(),
    ensures
        r@ == ops_at(nodes@, idx@),
{
    let mut r: Vec<Operation> = Vec::with_capacity(idx.len());
    let mut k: usize = 0;
    while k < idx.len()
        invariant
            forall|k: int| 0 <= k < idx@.len() ==> #[trigger] idx@[k] < nodes@.len(),
            k <= idx@.len(),
            r@ == ops_at(nodes@, idx@.take(k as int)),
        decreases idx@.len() - k,
    {
        r.push(nodes[idx[k]]);
        proof {
            assert(ops_at(nodes@, idx@.take(k as int + 1)) =~= ops_at(nodes@, idx@.take(k as int)).push(nodes@[idx@[k as int] as int]));
        }
        k = k + 1;
    }
    proof {
        assert(idx@.take(idx@.len() as int) =~= idx@);
    }
    r
}

/// The priority of each node: its operation's rank when scheduling by
/// priority, and zero otherwise.
pub open spec fn node_priorities(nodes: Seq<Operation>, by_priority: bool) -> Seq<u8> {
    nodes.map_values(|op: Operation| if by_priority { priority_rank(op) } else { 0u8 })
}

/// Schedules the operations of `sub`, by priority or in dependency order
/// alone; reports the operations that can never be scheduled as a cycle.
pub(crate) fn schedule_operations<G: Gate>(sub: &Subcircuit<G>, by_priority: bool) -> (r: Result<Vec<Operation>>)
    requires
        sub.wf(),
    ensures
        r matches Ok(ops) ==> is_schedule_of(*sub, ops@, node_priorities(graph_nodes(*sub), by_priority)),
        r matches Err(e) ==> e matches Error::CycleDetected(ops) && is_cycle_of(*sub, ops@),
{
    let (nodes, es) = operation_graph(sub);
    let n = nodes.len();
    let mut prio: Vec<u8> = Vec::with_capacity(n);
    let mut k: usize = 0;
    while k < n
        invariant
            n == nodes@.len(),
            k <= n,
            prio@ == node_priorities(nodes@.take(k as int), by_priority),
        decreases n - k,
    {
        let p = if by_priority {
            Priority::for_operation(&nodes[k]).rank()
        } else {
            0
        };
        prio.push(p);
        proof {
            assert(node_priorities(nodes@.take(k as int + 1), by_priority) =~= node_priorities(nodes@.take(k as int), by_priority).push(p));
        }
        k = k + 1;
    }
    proof {
        assert(nodes@.take(n as int) =~= nodes@);
    }
    match list_schedule(n, &es, &prio) {
        Ok(idx) => {
            let ops = map_nodes(&nodes, &idx);
            proof {
                assert(indexes_edges(*sub, graph_nodes(*sub), es@) && is_complete_order(graph_nodes(*sub).len() as int, es@, idx@));
            }
            Ok(ops)
        },
        Err(stuck) => {
            let ops = map_nodes(&nodes, &stuck);
            proof {
                assert(indexes_edges(*sub, graph_nodes(*sub), es@) && is_stuck_set(graph_nodes(*sub).len() as int, es@, stuck@));
            }
            Err(Error::CycleDetected(ops))
        },
    }
}

} // verus!
