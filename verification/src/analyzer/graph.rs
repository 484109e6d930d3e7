//! The dependency graph of a subcircuit's operations.
//!
//! Every use of a value is an edge from the operation producing the value to
//! the operation consuming it, in value slot order and, within a value, in
//! use order. The nodes are the subcircuit's operations followed by the
//! consumers that are named by a use but not stored, in order of first use.

use vstd::prelude::*;

use crate::circuit::operations::{consumer_operation, producer_operation, Operation};
use crate::circuit::subcircuit::Subcircuit;
use crate::circuit::value::{Destination, Value};
use crate::gate::Gate;

verus! {

/// The edges contributed by one value: producer to each consumer.
pub open spec fn edges_of_value<G: Gate>(v: Value<G>) -> Seq<(Operation, Operation)> {
    v.destinations().map_values(
        |d: Destination| (producer_operation(v.origin().producer), consumer_operation(d.consumer)),
    )
}

/// The edges contributed by a list of values, in order.
pub open spec fn edges_of_values<G: Gate>(vals: Seq<((usize, usize), Value<G>)>) -> Seq<(Operation, Operation)>
    decreases vals.len(),
{
    if vals.len() == 0 {
        Seq::empty()
    } else {
        edges_of_values(vals.drop_last()) + edges_of_value(vals.last().1)
    }
}

/// All edges of a subcircuit.
pub open spec fn graph_edges<G: Gate>(sub: Subcircuit<G>) -> Seq<(Operation, Operation)> {
    edges_of_values(sub.values().entries())
}

/// The consumers of `edges` that are not in `known`, once each, in order of
/// first appearance.
pub open spec fn extra_nodes(known: Seq<Operation>, edges: Seq<(Operation, Operation)>) -> Seq<Operation>
    decreases edges.len(),
{
    if edges.len() == 0 {
        Seq::empty()
    } else {
        let prev = extra_nodes(known, edges.drop_last());
        let c = edges.last().1;
        if known.contains(c) || prev.contains(c) {
            prev
        } else {
            prev.push(c)
        }
    }
}

/// All nodes of a subcircuit's graph.
pub open spec fn graph_nodes<G: Gate>(sub: Subcircuit<G>) -> Seq<Operation> {
    sub.operations() + extra_nodes(sub.operations(), graph_edges(sub))
}

/// `es` lists the edges of `sub` by node index: the consumer's index, and the
/// producer's index when the producer is a node.
pub open spec fn indexes_edges<G: Gate>(sub: Subcircuit<G>, nodes: Seq<Operation>, es: Seq<(Option<usize>, usize)>) -> bool {
    &&& es.len() == graph_edges(sub).len()
    &&& forall|e: int| 0 <= e < es.len() ==> {
        &&& (#[trigger] es[e]).1 < nodes.len()
        &&& nodes[es[e].1 as int] == graph_edges(sub)[e].1
        &&& match es[e].0 {
            Some(p) => p < nodes.len() && nodes[p as int] == graph_edges(sub)[e].0,
            None => !nodes.contains(graph_edges(sub)[e].0),
        }
    }
}

/// The first index of `op` in `nodes`.
pub(crate) fn find_node(nodes: &Vec<Operation>, op: Operation) -> (r: Option<usize>)
    ensures
        match r {
            Some(i) => i < nodes@.len() && nodes@[i as int] == op && forall|j: int| 0 <= j < i ==> nodes@[j] != op,
            None => !nodes@.contains(op),
        },
{
    let mut i: usize = 0;
    while i < nodes.len()
        invariant
            i <= nodes@.len(),
            forall|j: int| 0 <= j < i ==> nodes@[j] != op,
        decreases nodes@.len() - i,
    {
        if nodes[i] == op {
            return Some(i);
        }
        i = i + 1;
    }
    None
}

proof fn lemma_edges_of_values_push<G: Gate>(vals: Seq<((usize, usize), Value<G>)>, i: int)
    requires
        0 <= i < vals.len(),
    ensures
        edges_of_values(vals.take(i + 1)) == edges_of_values(vals.take(i)) + edges_of_value(vals[i].1),
{
    assert(vals.take(i + 1).drop_last() =~= vals.take(i));
}

/// The operations and the edges by node index of a subcircuit's graph.
#[verifier::rlimit(40)]
pub(crate) fn operation_graph<G: Gate>(sub: &Subcircuit<G>) -> (r: (Vec<Operation>, Vec<(Option<usize>, usize)>))
    requires
        sub.wf(),
    ensures
        r.0@ == graph_nodes(*sub),
        indexes_edges(*sub, r.0@, r.1@),
{
    let mut nodes = sub.all_operations();
    let ghost known = nodes@;
    let vals = sub.all_values();
    let ghost entries = sub.values().entries();
    let mut raw: Vec<(Operation, Operation)> = Vec::new();
    let mut i: usize = 0;
    while i < vals.len()
        invariant
            known == sub.operations(),
            entries == sub.values().entries(),
            vals@.len() == entries.len(),
            forall|j: int| 0 <= j < vals@.len() ==> *(#[trigger] vals@[j]).1 == entries[j].1,
            i <= vals@.len(),
            raw@ == edges_of_values(entries.take(i as int)),
            nodes@ == known + extra_nodes(known, raw@),
        decreases vals@.len() - i,
    {
        let value = vals[i].1;
        let p = Operation::from_producer(value.get_product().producer);
        let dests = value.get_destinations();
        let ghost base = raw@;
        let mut m: usize = 0;
        while m < dests.len()
            invariant
                known == sub.operations(),
                m <= dests@.len(),
                dests@ == value.destinations(),
                p == producer_operation(value.origin().producer),
                raw@ == base + edges_of_value(*value).take(m as int),
                nodes@ == known + extra_nodes(known, raw@),
            decreases dests@.len() - m,
        {
            let c = Operation::from_consumer(dests[m].consumer);
            let ghost before = raw@;
            let found = find_node(&nodes, c);
            raw.push((p, c));
            proof {
                assert(raw@.drop_last() == before);
                assert(edges_of_value(*value)[m as int] == (p, c));
                assert(edges_of_value(*value).take(m as int + 1) =~= edges_of_value(*value).take(m as int).push((p, c)));
                assert(raw@ =~= base + edges_of_value(*value).take(m as int + 1));
                let ex = extra_nodes(known, before);
                assert(nodes@.contains(c) <==> (known.contains(c) || ex.contains(c))) by {
                    if nodes@.contains(c) {
                        let j = choose|j: int| 0 <= j < nodes@.len() && nodes@[j] == c;
                        if j >= known.len() {
                            assert(ex[j - known.len()] == c);
                        }
                    }
                    if known.contains(c) {
                        let j = choose|j: int| 0 <= j < known.len() && known[j] == c;
                        assert(nodes@[j] == c);
                    }
                    if ex.contains(c) {
                        let j = choose|j: int| 0 <= j < ex.len() && ex[j] == c;
                        assert(nodes@[known.len() + j] == c);
                    }
                }
            }
            if found.is_none() {
                nodes.push(c);
                proof {
                    assert(nodes@ =~= known + extra_nodes(known, raw@));
                }
            }
            m = m + 1;
        }
        proof {
            assert(edges_of_value(*value).take(dests@.len() as int) =~= edges_of_value(*value));
            lemma_edges_of_values_push(entries, i as int);
            assert(*vals@[i as int].1 == entries[i as int].1);
        }
        i = i + 1;
    }
    proof {
        assert(entries.take(entries.len() as int) =~= entries);
    }
    let mut es: Vec<(Option<usize>, usize)> = Vec::with_capacity(raw.len());
    let mut e: usize = 0;
    while e < raw.len()
        invariant
            raw@ == graph_edges(*sub),
            nodes@ == graph_nodes(*sub),
            e <= raw@.len(),
            es@.len() == e,
            forall|x: int| 0 <= x < e ==> {
                &&& (#[trigger] es@[x]).1 < nodes@.len()
                &&& nodes@[es@[x].1 as int] == raw@[x].1
                &&& match es@[x].0 {
                    Some(p) => p < nodes@.len() && nodes@[p as int] == raw@[x].0,
                    None => !nodes@.contains(raw@[x].0),
                }
            },
        decreases raw@.len() - e,
    {
        let (p, c) = raw[e];
        let pi = find_node(&nodes, p);
        let ci = match find_node(&nodes, c) {
            Some(ci) => ci,
            None => {
                proof {
                    lemma_consumers_are_nodes(sub.operations(), raw@, e as int);
                }
                vstd::pervasive::unreached()
            },
        };
        es.push((pi, ci));
        e = e + 1;
    }
    (nodes, es)
}

/// Every consumer of an edge is a known operation or an extra node.
proof fn lemma_consumers_are_nodes(known: Seq<Operation>, edges: Seq<(Operation, Operation)>, e: int)
    requires
        0 <= e < edges.len(),
    ensures
        (known + extra_nodes(known, edges)).contains(edges[e].1),
    decreases edges.len(),
{
    let all = known + extra_nodes(known, edges);
    let c = edges[e].1;
    if known.contains(c) {
        let j = choose|j: int| 0 <= j < known.len() && known[j] == c;
        assert(all[j] == c);
    } else {
        lemma_extra_contains(known, edges, e);
        let ex = extra_nodes(known, edges);
        let j = choose|j: int| 0 <= j < ex.len() && ex[j] == c;
        assert(all[known.len() + j] == c);
    }
}

proof fn lemma_extra_contains(known: Seq<Operation>, edges: Seq<(Operation, Operation)>, e: int)
    requires
        0 <= e < edges.len(),
        !known.contains(edges[e].1),
    ensures
        extra_nodes(known, edges).contains(edges[e].1),
    decreases edges.len(),
{
    let prev = extra_nodes(known, edges.drop_last());
    let c = edges.last().1;
    if e == edges.len() - 1 {
        if prev.contains(c) {
        } else {
            assert(prev.push(c)[prev.len() as int] == c);
        }
    } else {
        assert(edges.drop_last()[e] == edges[e]);
        lemma_extra_contains(known, edges.drop_last(), e);
        let j = choose|j: int| 0 <= j < prev.len() && prev[j] == edges[e].1;
        if !(known.contains(c) || prev.contains(c)) {
            assert(prev.push(c)[j] == edges[e].1);
        }
    }
}

} // verus!
