//! Connected components: the groups of operations of a subcircuit that are
//! joined, directly or through other operations, by uses of values.

use vstd::prelude::*;

use crate::analyzer::graph::{find_node, graph_edges, edges_of_value, edges_of_values};
use crate::analyzer::results::{lookup, pairs, result_for};
use crate::circuit::operations::Operation;
use crate::circuit::subcircuit::{CircuitId, Subcircuit};
use crate::circuit::Circuit;
use crate::gate::Gate;

verus! {

/// The operations named by `edges` that are not in `known`, once each, in
/// order of first appearance, producer before consumer.
pub open spec fn unknown_ops(known: Seq<Operation>, edges: Seq<(Operation, Operation)>) -> Seq<Operation>
    decreases edges.len(),
{
    if edges.len() == 0 {
        Seq::empty()
    } else {
        let prev = unknown_ops(known, edges.drop_last());
        let (p, c) = edges.last();
        let with_p = if known.contains(p) || prev.contains(p) {
            prev
        } else {
            prev.push(p)
        };
        if known.contains(c) || with_p.contains(c) {
            with_p
        } else {
            with_p.push(c)
        }
    }
}

/// Some use joins `a` and `b`, in either direction.
pub open spec fn linked(edges: Seq<(Operation, Operation)>, a: Operation, b: Operation) -> bool {
    exists|e: int| 0 <= e < edges.len() && (#[trigger] edges[e] == (a, b) || edges[e] == (b, a))
}

/// `p` is a chain of operations, each joined to the next by a use.
pub open spec fn is_link_path(edges: Seq<(Operation, Operation)>, p: Seq<Operation>) -> bool {
    &&& p.len() > 0
    &&& forall|i: int| 0 <= i < p.len() - 1 ==> linked(edges, #[trigger] p[i], p[i + 1])
}

/// A chain of uses joins `a` and `b`.
pub open spec fn connected(edges: Seq<(Operation, Operation)>, a: Operation, b: Operation) -> bool {
    exists|p: Seq<Operation>| #[trigger] is_link_path(edges, p) && p[0] == a && p.last() == b
}

/// The number of labels a canonical labeling uses.
pub open spec fn label_count(c: Seq<usize>) -> nat
    decreases c.len(),
{
    if c.len() == 0 {
        0
    } else {
        let n = label_count(c.drop_last());
        if c.last() >= n {
            (c.last() + 1) as nat
        } else {
            n
        }
    }
}

/// Labels are numbered by first appearance: each label is one already used
/// or the next unused one.
pub open spec fn canonical(c: Seq<usize>) -> bool
    decreases c.len(),
{
    c.len() == 0 || (canonical(c.drop_last()) && c.last() <= label_count(c.drop_last()))
}

proof fn lemma_path_single(edges: Seq<(Operation, Operation)>, a: Operation)
    ensures
        connected(edges, a, a),
{
    let p = seq![a];
    assert(is_link_path(edges, p));
}

proof fn lemma_path_reverse(edges: Seq<(Operation, Operation)>, a: Operation, b: Operation)
    requires
        connected(edges, a, b),
    ensures
        connected(edges, b, a),
{
    let p = choose|p: Seq<Operation>| #[trigger] is_link_path(edges, p) && p[0] == a && p.last() == b;
    let q = p.reverse();
    assert forall|i: int| 0 <= i < q.len() - 1 implies linked(edges, #[trigger] q[i], q[i + 1]) by {
        let j = p.len() - 2 - i;
        assert(q[i] == p[j + 1] && q[i + 1] == p[j]);
        assert(linked(edges, p[j], p[j + 1]));
        let e = choose|e: int| 0 <= e < edges.len() && (#[trigger] edges[e] == (p[j], p[j + 1]) || edges[e] == (p[j + 1], p[j]));
    }
    assert(is_link_path(edges, q));
}

proof fn lemma_path_join(edges: Seq<(Operation, Operation)>, a: Operation, b: Operation, c: Operation)
    requires
        connected(edges, a, b),
        connected(edges, b, c),
    ensures
        connected(edges, a, c),
{
    let p = choose|p: Seq<Operation>| #[trigger] is_link_path(edges, p) && p[0] == a && p.last() == b;
    let q = choose|q: Seq<Operation>| #[trigger] is_link_path(edges, q) && q[0] == b && q.last() == c;
    let r = p + q.drop_first();
    assert forall|i: int| 0 <= i < r.len() - 1 implies linked(edges, #[trigger] r[i], r[i + 1]) by {
        if i < p.len() - 1 {
            assert(r[i] == p[i] && r[i + 1] == p[i + 1]);
        } else {
            let j = i - p.len() + 1;
            assert(r[i] == q[j]) by {
                if i == p.len() - 1 {
                    assert(r[i] == p.last());
                } else {
                    assert(r[i] == q.drop_first()[i - p.len()]);
                }
            }
            assert(r[i + 1] == q[j + 1]);
            assert(linked(edges, q[j], q[j + 1]));
        }
    }
    if q.len() == 1 {
        assert(r =~= p);
    }
    assert(is_link_path(edges, r));
}

proof fn lemma_path_edge(edges: Seq<(Operation, Operation)>, e: int)
    requires
        0 <= e < edges.len(),
    ensures
        connected(edges, edges[e].0, edges[e].1),
{
    let p = seq![edges[e].0, edges[e].1];
    assert(linked(edges, p[0], p[1]));
    assert(is_link_path(edges, p));
}

proof fn lemma_path_widen(edges: Seq<(Operation, Operation)>, k: int, a: Operation, b: Operation)
    requires
        0 <= k <= edges.len(),
        connected(edges.take(k), a, b),
    ensures
        connected(edges, a, b),
{
    let w = edges.take(k);
    let p = choose|p: Seq<Operation>| #[trigger] is_link_path(w, p) && p[0] == a && p.last() == b;
    assert forall|i: int| 0 <= i < p.len() - 1 implies linked(edges, #[trigger] p[i], p[i + 1]) by {
        assert(linked(w, p[i], p[i + 1]));
        let e = choose|e: int| 0 <= e < w.len() && (#[trigger] w[e] == (p[i], p[i + 1]) || w[e] == (p[i + 1], p[i]));
        assert(edges[e] == w[e]);
    }
    assert(is_link_path(edges, p));
}

/// Along a chain of uses, labels that agree on the two ends of every use
/// agree on the two ends of the chain.
proof fn lemma_labels_along(edges: Seq<(Operation, Operation)>, nodes: Seq<Operation>, labels: Seq<usize>, p: Seq<Operation>)
    requires
        is_link_path(edges, p),
        labels.len() == nodes.len(),
        forall|e: int| 0 <= e < edges.len() ==> nodes.contains((#[trigger] edges[e]).0) && nodes.contains(edges[e].1),
        forall|e: int| 0 <= e < edges.len() ==> labels[nodes.index_of((#[trigger] edges[e]).0)] == labels[nodes.index_of(edges[e].1)],
        nodes.contains(p[0]),
    ensures
        nodes.contains(p.last()),
        labels[nodes.index_of(p[0])] == labels[nodes.index_of(p.last())],
    decreases p.len(),
{
    if p.len() > 1 {
        let q = p.drop_last();
        assert forall|i: int| 0 <= i < q.len() - 1 implies linked(edges, #[trigger] q[i], q[i + 1]) by {
            assert(q[i] == p[i] && q[i + 1] == p[i + 1]);
        }
        lemma_labels_along(edges, nodes, labels, q);
        let x = p[p.len() - 2];
        let y = p.last();
        assert(linked(edges, x, y));
        let e = choose|e: int| 0 <= e < edges.len() && (#[trigger] edges[e] == (x, y) || edges[e] == (y, x));
    }
}

/// The number of times `c` occurs in `s`.
pub open spec fn occurrences(s: Seq<usize>, c: usize) -> nat
    decreases s.len(),
{
    if s.len() == 0 {
        0
    } else {
        occurrences(s.drop_last(), c) + if s.last() == c {
            1nat
        } else {
            0nat
        }
    }
}

/// The operations, and the uses by operation index, of a subcircuit's
/// component graph: its operations, then the operations that uses name but
/// it does not hold.
#[verifier::rlimit(60)]
fn component_graph<G: Gate>(sub: &Subcircuit<G>) -> (r: (Vec<Operation>, Vec<(usize, usize)>))
    requires
        sub.wf(),
    ensures
        r.0@ == sub.operations() + unknown_ops(sub.operations(), graph_edges(*sub)),
        r.0@.no_duplicates(),
        r.1@.len() == graph_edges(*sub).len(),
        forall|e: int| 0 <= e < r.1@.len() ==> {
            &&& (#[trigger] r.1@[e]).0 < r.0@.len()
            &&& r.1@[e].1 < r.0@.len()
            &&& r.0@[r.1@[e].0 as int] == graph_edges(*sub)[e].0
            &&& r.0@[r.1@[e].1 as int] == graph_edges(*sub)[e].1
        },
{
    let mut nodes = sub.all_operations();
    let ghost known = nodes@;
    proof {
        sub.lemma_operations_distinct();
        assert(nodes@ =~= known + unknown_ops(known, Seq::empty()));
    }
    let vals = sub.all_values();
    let ghost entries = sub.values().entries();
    let mut raw: Vec<(Operation, Operation)> = Vec::new();
    proof {
        assert(entries.take(0) =~= Seq::<((usize, usize), crate::circuit::value::Value<G>)>::empty());
    }
    let mut i: usize = 0;
    while i < vals.len()
        invariant
            known == sub.operations(),
            known.no_duplicates(),
            entries == sub.values().entries(),
            vals@.len() == entries.len(),
            forall|j: int| 0 <= j < vals@.len() ==> *(#[trigger] vals@[j]).1 == entries[j].1,
            i <= vals@.len(),
            raw@ == edges_of_values(entries.take(i as int)),
            nodes@ == known + unknown_ops(known, raw@),
            nodes@.no_duplicates(),
        decreases vals@.len() - i,
    {
        let value = vals[i].1;
        let p = Operation::from_producer(value.get_product().producer);
        let dests = value.get_destinations();
        let ghost base = raw@;
        let mut m: usize = 0;
        while m < dests.len()
            invariant
                known == sub.operations(),
                known.no_duplicates(),
                m <= dests@.len(),
                dests@ == value.destinations(),
                p == crate::circuit::operations::producer_operation(value.origin().producer),
                raw@ == base + edges_of_value(*value).take(m as int),
                nodes@ == known + unknown_ops(known, raw@),
                nodes@.no_duplicates(),
            decreases dests@.len() - m,
        {
            let c = Operation::from_consumer(dests[m].consumer);
            let ghost before = raw@;
            let ghost nodes_before = nodes@;
            let ghost ex = unknown_ops(known, before);
            proof {
                lemma_all_nodes_contains(known, ex, p);
            }
            if find_node(&nodes, p).is_none() {
                nodes.push(p);
                proof {
                    lemma_push_fresh(nodes_before, p);
                }
            }
            let ghost mid = nodes@;
            proof {
                let with_p = if known.contains(p) || ex.contains(p) { ex } else { ex.push(p) };
                assert(mid == known + with_p);
                lemma_all_nodes_contains(known, with_p, c);
            }
            if find_node(&nodes, c).is_none() {
                nodes.push(c);
                proof {
                    lemma_push_fresh(mid, c);
                }
            }
            raw.push((p, c));
            proof {
                assert(raw@.drop_last() == before);
                assert(edges_of_value(*value)[m as int] == (p, c));
                assert(edges_of_value(*value).take(m as int + 1) =~= edges_of_value(*value).take(m as int).push((p, c)));
                assert(raw@ =~= base + edges_of_value(*value).take(m as int + 1));
                assert(nodes@ =~= known + unknown_ops(known, raw@));
            }
            m = m + 1;
        }
        proof {
            assert(edges_of_value(*value).take(dests@.len() as int) =~= edges_of_value(*value));
            assert(entries.take(i as int + 1).drop_last() =~= entries.take(i as int));
            assert(*vals@[i as int].1 == entries[i as int].1);
        }
        i = i + 1;
    }
    proof {
        assert(entries.take(entries.len() as int) =~= entries);
    }
    let mut es: Vec<(usize, usize)> = Vec::with_capacity(raw.len());
    let mut e: usize = 0;
    while e < raw.len()
        invariant
            raw@ == graph_edges(*sub),
            nodes@ == sub.operations() + unknown_ops(sub.operations(), raw@),
            e <= raw@.len(),
            es@.len() == e,
            forall|x: int| 0 <= x < e ==> {
                &&& (#[trigger] es@[x]).0 < nodes@.len()
                &&& es@[x].1 < nodes@.len()
                &&& nodes@[es@[x].0 as int] == raw@[x].0
                &&& nodes@[es@[x].1 as int] == raw@[x].1
            },
        decreases raw@.len() - e,
    {
        let (p, c) = raw[e];
        proof {
            lemma_endpoints_known(sub.operations(), raw@, e as int);
        }
        let pi = match find_node(&nodes, p) {
            Some(pi) => pi,
            None => vstd::pervasive::unreached(),
        };
        let ci = match find_node(&nodes, c) {
            Some(ci) => ci,
            None => vstd::pervasive::unreached(),
        };
        es.push((pi, ci));
        e = e + 1;
    }
    (nodes, es)
}

/// An operation is among the nodes exactly when it is known or unknown-listed.
proof fn lemma_all_nodes_contains(known: Seq<Operation>, ex: Seq<Operation>, x: Operation)
    ensures
        (known + ex).contains(x) <==> (known.contains(x) || ex.contains(x)),
{
    if (known + ex).contains(x) {
        let j = choose|j: int| 0 <= j < (known + ex).len() && (known + ex)[j] == x;
        if j >= known.len() {
            assert(ex[j - known.len()] == x);
        }
    }
    if known.contains(x) {
        let j = choose|j: int| 0 <= j < known.len() && known[j] == x;
        assert((known + ex)[j] == x);
    }
    if ex.contains(x) {
        let j = choose|j: int| 0 <= j < ex.len() && ex[j] == x;
        assert((known + ex)[known.len() + j] == x);
    }
}

proof fn lemma_push_fresh(s: Seq<Operation>, x: Operation)
    requires
        s.no_duplicates(),
        !s.contains(x),
    ensures
        s.push(x).no_duplicates(),
{
    assert forall|a: int, b: int| 0 <= a < s.push(x).len() && 0 <= b < s.push(x).len() && a != b implies s.push(x)[a] != s.push(x)[b] by {
        if a < s.len() && b < s.len() {
        } else if a < s.len() {
            assert(s.push(x)[b] == x);
            assert(s[a] == s.push(x)[a]);
        } else {
            assert(s.push(x)[a] == x);
            assert(s[b] == s.push(x)[b]);
        }
    }
}

/// Both ends of every use are nodes.
proof fn lemma_endpoints_known(known: Seq<Operation>, edges: Seq<(Operation, Operation)>, e: int)
    requires
        0 <= e < edges.len(),
    ensures
        (known + unknown_ops(known, edges)).contains(edges[e].0),
        (known + unknown_ops(known, edges)).contains(edges[e].1),
    decreases edges.len(),
{
    let prev = unknown_ops(known, edges.drop_last());
    let (p, c) = edges.last();
    let with_p = if known.contains(p) || prev.contains(p) { prev } else { prev.push(p) };
    let ex = unknown_ops(known, edges);
    // everything listed before stays listed
    assert forall|x: Operation| prev.contains(x) implies ex.contains(x) by {
        let j = choose|j: int| 0 <= j < prev.len() && prev[j] == x;
        assert(with_p[j] == x);
        assert(ex[j] == x);
    }
    assert(known.contains(p) || ex.contains(p)) by {
        if !(known.contains(p) || prev.contains(p)) {
            assert(with_p[prev.len() as int] == p);
            assert(ex[prev.len() as int] == p);
        }
    }
    assert(known.contains(c) || ex.contains(c)) by {
        if !(known.contains(c) || with_p.contains(c)) {
            assert(ex[with_p.len() as int] == c);
        } else if with_p.contains(c) && !known.contains(c) {
            let j = choose|j: int| 0 <= j < with_p.len() && with_p[j] == c;
            assert(ex[j] == c);
        }
    }
    if e < edges.len() - 1 {
        lemma_endpoints_known(known, edges.drop_last(), e);
        assert(edges.drop_last()[e] == edges[e]);
        lemma_all_nodes_contains(known, prev, edges[e].0);
        lemma_all_nodes_contains(known, prev, edges[e].1);
    }
    lemma_all_nodes_contains(known, ex, edges[e].0);
    lemma_all_nodes_contains(known, ex, edges[e].1);
}


/// `old` with every label `from` replaced by `to`.
pub open spec fn relabeled(old: Seq<usize>, from: usize, to: usize) -> Seq<usize> {
    old.map_values(|l: usize| if l == from { to } else { l })
}

/// Replaces every label `from` by `to`.
fn relabel(labels: &mut Vec<usize>, from: usize, to: usize)
    ensures
        final(labels)@ == relabeled(old(labels)@, from, to),
{
    let ghost start = labels@;
    let mut k: usize = 0;
    while k < labels.len()
        invariant
            labels@.len() == start.len(),
            k <= labels@.len(),
            forall|j: int| 0 <= j < k ==> #[trigger] labels@[j] == (if start[j] == from { to } else { start[j] }),
            forall|j: int| k <= j < labels@.len() ==> #[trigger] labels@[j] == start[j],
        decreases labels@.len() - k,
    {
        if labels[k] == from {
            labels.set(k, to);
        }
        k = k + 1;
    }
    proof {
        assert(labels@ =~= relabeled(start, from, to));
    }
}

/// In a sequence without repeats, the index of the element at `i` is `i`.
proof fn lemma_index_of_distinct(s: Seq<Operation>, i: int)
    requires
        s.no_duplicates(),
        0 <= i < s.len(),
    ensures
        s.index_of(s[i]) == i,
{
    assert(s[i] == s[i]);
    let k = s.index_of(s[i]);
    assert(0 <= k < s.len() && s[k] == s[i]);
}

/// Labels the nodes so that two nodes share a label exactly when a chain of
/// uses joins them.
fn label_components(
    n: usize,
    es: &Vec<(usize, usize)>,
    Ghost(nodes): Ghost<Seq<Operation>>,
    Ghost(edges): Ghost<Seq<(Operation, Operation)>>,
) -> (labels: Vec<usize>)
    requires
        nodes.len() == n,
        nodes.no_duplicates(),
        es@.len() == edges.len(),
        forall|e: int| 0 <= e < es@.len() ==> {
            &&& (#[trigger] es@[e]).0 < n
            &&& es@[e].1 < n
            &&& nodes[es@[e].0 as int] == edges[e].0
            &&& nodes[es@[e].1 as int] == edges[e].1
        },
    ensures
        labels@.len() == n,
        forall|i: int| 0 <= i < n ==> #[trigger] labels@[i] < n,
        forall|i: int, j: int|
            0 <= i < n && 0 <= j < n ==> (#[trigger] labels@[i] == #[trigger] labels@[j] <==> connected(edges, nodes[i], nodes[j])),
{
    let mut labels: Vec<usize> = Vec::with_capacity(n);
    let mut k: usize = 0;
    while k < n
        invariant
            k <= n,
            labels@.len() == k,
            forall|j: int| 0 <= j < k ==> #[trigger] labels@[j] == j,
        decreases n - k,
    {
        labels.push(k);
        k = k + 1;
    }
    proof {
        assert forall|i: int, j: int| 0 <= i < n && 0 <= j < n && #[trigger] labels@[i] == #[trigger] labels@[j]
            implies connected(edges.take(0), nodes[i], nodes[j]) by {
            lemma_path_single(edges.take(0), nodes[i]);
        }
    }
    let mut e: usize = 0;
    while e < es.len()
        invariant
            nodes.len() == n,
            nodes.no_duplicates(),
            es@.len() == edges.len(),
            forall|x: int| 0 <= x < es@.len() ==> {
                &&& (#[trigger] es@[x]).0 < n
                &&& es@[x].1 < n
                &&& nodes[es@[x].0 as int] == edges[x].0
                &&& nodes[es@[x].1 as int] == edges[x].1
            },
            e <= es@.len(),
            labels@.len() == n,
            forall|i: int| 0 <= i < n ==> #[trigger] labels@[i] < n,
            forall|i: int, j: int|
                0 <= i < n && 0 <= j < n && #[trigger] labels@[i] == #[trigger] labels@[j]
                    ==> connected(edges.take(e as int), nodes[i], nodes[j]),
            forall|x: int| 0 <= x < e ==> labels@[(#[trigger] es@[x]).0 as int] == labels@[es@[x].1 as int],
        decreases es@.len() - e,
    {
        let (a, b) = es[e];
        let la = labels[a];
        let lb = labels[b];
        let ghost old_labels = labels@;
        let ghost w = edges.take(e as int);
        let ghost w2 = edges.take(e as int + 1);
        proof {
            assert(w2.take(e as int) =~= w);
            assert(w2[e as int] == edges[e as int]);
            lemma_path_edge(w2, e as int);
        }
        if la != lb {
            relabel(&mut labels, lb, la);
        }
        proof {
            assert forall|i: int, j: int|
                0 <= i < n && 0 <= j < n && #[trigger] labels@[i] == #[trigger] labels@[j]
                    implies connected(w2, nodes[i], nodes[j]) by {
                let oi = old_labels[i];
                let oj = old_labels[j];
                if oi == oj {
                    lemma_path_widen(w2, e as int, nodes[i], nodes[j]);
                } else {
                    // one of them carried the merged label, the other the kept one
                    assert(la != lb);
                    if oi == lb {
                        assert(oj == la);
                        assert(old_labels[b as int] == oi);
                        assert(old_labels[a as int] == oj);
                        lemma_path_widen(w2, e as int, nodes[i], nodes[b as int]);
                        lemma_path_widen(w2, e as int, nodes[a as int], nodes[j]);
                        lemma_path_reverse(w2, nodes[a as int], nodes[b as int]);
                        lemma_path_join(w2, nodes[i], nodes[b as int], nodes[a as int]);
                        lemma_path_join(w2, nodes[i], nodes[a as int], nodes[j]);
                    } else {
                        assert(oj == lb && oi == la);
                        assert(old_labels[b as int] == oj);
                        assert(old_labels[a as int] == oi);
                        lemma_path_widen(w2, e as int, nodes[i], nodes[a as int]);
                        lemma_path_widen(w2, e as int, nodes[b as int], nodes[j]);
                        lemma_path_join(w2, nodes[i], nodes[a as int], nodes[b as int]);
                        lemma_path_join(w2, nodes[i], nodes[b as int], nodes[j]);
                    }
                }
            }
            assert forall|x: int| 0 <= x < e + 1 implies labels@[(#[trigger] es@[x]).0 as int] == labels@[es@[x].1 as int] by {
                if x < e {
                    assert(old_labels[es@[x].0 as int] == old_labels[es@[x].1 as int]);
                }
            }
        }
        e = e + 1;
    }
    proof {
        assert(edges.take(edges.len() as int) =~= edges);
        assert forall|x: int| 0 <= x < edges.len() implies nodes.contains((#[trigger] edges[x]).0) && nodes.contains(edges[x].1) by {
            assert(nodes[es@[x].0 as int] == edges[x].0);
            assert(nodes[es@[x].1 as int] == edges[x].1);
        }
        assert forall|x: int| 0 <= x < edges.len() implies labels@[nodes.index_of((#[trigger] edges[x]).0)] == labels@[nodes.index_of(edges[x].1)] by {
            lemma_index_of_distinct(nodes, es@[x].0 as int);
            lemma_index_of_distinct(nodes, es@[x].1 as int);
            assert(labels@[(es@[x]).0 as int] == labels@[es@[x].1 as int]);
        }
        assert forall|i: int, j: int|
            0 <= i < n && 0 <= j < n && connected(edges, nodes[i], nodes[j]) implies #[trigger] labels@[i] == #[trigger] labels@[j] by {
            let p = choose|p: Seq<Operation>| #[trigger] is_link_path(edges, p) && p[0] == nodes[i] && p.last() == nodes[j];
            lemma_index_of_distinct(nodes, i);
            lemma_index_of_distinct(nodes, j);
            lemma_labels_along(edges, nodes, labels@, p);
        }
    }
    labels
}


proof fn lemma_push_counts(s: Seq<usize>, x: usize)
    ensures
        s.push(x).drop_last() == s,
        label_count(s.push(x)) == (if x >= label_count(s) { (x + 1) as nat } else { label_count(s) }),
        canonical(s.push(x)) == (canonical(s) && x <= label_count(s)),
        forall|c: usize| #[trigger] occurrences(s.push(x), c) == occurrences(s, c) + if x == c { 1nat } else { 0nat },
{
    assert(s.push(x).drop_last() =~= s);
}

proof fn lemma_occurrences_absent(s: Seq<usize>, c: usize)
    requires
        c >= label_count(s),
    ensures
        occurrences(s, c) == 0,
    decreases s.len(),
{
    if s.len() > 0 {
        lemma_occurrences_absent(s.drop_last(), c);
    }
}

proof fn lemma_occurrences_bound(s: Seq<usize>, c: usize)
    ensures
        occurrences(s, c) <= s.len(),
    decreases s.len(),
{
    if s.len() > 0 {
        lemma_occurrences_bound(s.drop_last(), c);
    }
}

/// Numbers the labels of the first `nops` nodes by first appearance, and
/// counts the nodes of each number.
fn number_components(labels: &Vec<usize>, nops: usize) -> (r: (Vec<usize>, usize, Vec<usize>))
    requires
        nops <= labels@.len(),
        forall|i: int| 0 <= i < labels@.len() ==> #[trigger] labels@[i] < labels@.len(),
    ensures
        r.0@.len() == nops,
        canonical(r.0@),
        r.1 == label_count(r.0@),
        r.2@.len() == r.1,
        forall|c: int| 0 <= c < r.1 ==> #[trigger] r.2@[c] == occurrences(r.0@, c as usize),
        forall|i: int, j: int| 0 <= i < nops && 0 <= j < nops ==> (#[trigger] r.0@[i] == #[trigger] r.0@[j] <==> labels@[i] == labels@[j]),
{
    let n = labels.len();
    let mut root_comp: Vec<Option<usize>> = Vec::with_capacity(n);
    let mut k: usize = 0;
    while k < n
        invariant
            k <= n,
            root_comp@.len() == k,
            forall|j: int| 0 <= j < k ==> #[trigger] root_comp@[j] is None,
        decreases n - k,
    {
        root_comp.push(None);
        k = k + 1;
    }
    let mut comp: Vec<usize> = Vec::with_capacity(nops);
    let mut sizes: Vec<usize> = Vec::new();
    let mut next: usize = 0;
    let mut i: usize = 0;
    while i < nops
        invariant
            n == labels@.len(),
            nops <= n,
            forall|x: int| 0 <= x < n ==> #[trigger] labels@[x] < n,
            i <= nops,
            comp@.len() == i,
            root_comp@.len() == n,
            canonical(comp@),
            next == label_count(comp@),
            next <= i,
            sizes@.len() == next,
            forall|c: int| 0 <= c < next ==> #[trigger] sizes@[c] == occurrences(comp@, c as usize),
            forall|x: int| 0 <= x < i ==> root_comp@[labels@[x] as int] == Some(#[trigger] comp@[x]),
            forall|l: int| 0 <= l < n ==> (#[trigger] root_comp@[l] matches Some(c) ==> c < next),
            forall|l1: int, l2: int|
                0 <= l1 < n && 0 <= l2 < n && #[trigger] root_comp@[l1] is Some && root_comp@[l1] == #[trigger] root_comp@[l2] ==> l1 == l2,
        decreases nops - i,
    {
        let l = labels[i];
        let ghost s0 = sizes@;
        let ghost n0 = next;
        let c = match root_comp[l] {
            Some(c) => c,
            None => {
                let c = next;
                root_comp.set(l, Some(c));
                sizes.push(0);
                next = next + 1;
                c
            },
        };
        let ghost before = comp@;
        proof {
            lemma_push_counts(before, c);
            lemma_occurrences_bound(before, c);
            lemma_occurrences_absent(before, n0);
        }
        comp.push(c);
        let sz = sizes[c];
        sizes.set(c, sz + 1);
        proof {
            assert forall|d: int| 0 <= d < next implies #[trigger] sizes@[d] == occurrences(comp@, d as usize) by {
                assert(occurrences(comp@, d as usize) == occurrences(before, d as usize) + if c == d as usize { 1nat } else { 0nat });
                if d < n0 {
                    assert(s0[d] == occurrences(before, d as usize));
                }
            }
            assert forall|x: int| 0 <= x < i + 1 implies root_comp@[labels@[x] as int] == Some(#[trigger] comp@[x]) by {
                if x < i {
                    assert(comp@[x] == before[x]);
                }
            }
        }
        i = i + 1;
    }
    proof {
        assert forall|a: int, b: int| 0 <= a < nops && 0 <= b < nops implies (#[trigger] comp@[a] == #[trigger] comp@[b] <==> labels@[a] == labels@[b]) by {
            assert(root_comp@[labels@[a] as int] == Some(comp@[a]));
            assert(root_comp@[labels@[b] as int] == Some(comp@[b]));
        }
    }
    (comp, next, sizes)
}


/// The component number of each entry.
pub open spec fn numbers(ids: Seq<(Operation, usize)>) -> Seq<usize> {
    ids.map_values(|p: (Operation, usize)| p.1)
}

/// `ids`, `count` and `sizes` are the connected components of `sub`: each
/// operation, in order, with its component number; two operations share a
/// number exactly when a chain of uses joins them; numbers are given by
/// first appearance; `sizes` counts the operations of each number.
pub open spec fn is_components_of<G: Gate>(sub: Subcircuit<G>, ids: Seq<(Operation, usize)>, count: nat, sizes: Seq<usize>) -> bool {
    let ops = sub.operations();
    let comp = numbers(ids);
    &&& ids.len() == ops.len()
    &&& forall|k: int| 0 <= k < ids.len() ==> (#[trigger] ids[k]).0 == ops[k]
    &&& canonical(comp)
    &&& forall|i: int, j: int|
        0 <= i < ops.len() && 0 <= j < ops.len() ==> (#[trigger] comp[i] == #[trigger] comp[j] <==> connected(
            graph_edges(sub),
            ops[i],
            ops[j],
        ))
    &&& count == label_count(comp)
    &&& sizes.len() == count
    &&& forall|c: int| 0 <= c < count ==> #[trigger] sizes[c] == occurrences(comp, c as usize)
}

/// The operations of `ids` numbered `c`, in order.
pub open spec fn ops_numbered(ids: Seq<(Operation, usize)>, c: usize) -> Seq<Operation>
    decreases ids.len(),
{
    if ids.len() == 0 {
        Seq::empty()
    } else {
        let prev = ops_numbered(ids.drop_last(), c);
        if ids.last().1 == c {
            prev.push(ids.last().0)
        } else {
            prev
        }
    }
}

/// `i` is the last index of a largest entry of `sizes`.
pub open spec fn is_last_largest(sizes: Seq<usize>, i: int) -> bool {
    &&& 0 <= i < sizes.len()
    &&& forall|j: int| 0 <= j < sizes.len() ==> #[trigger] sizes[j] <= sizes[i]
    &&& forall|j: int| i < j < sizes.len() ==> #[trigger] sizes[j] < sizes[i]
}

/// The connected components of one subcircuit.
pub struct SubcircuitComponents {
    component_id: Vec<(Operation, usize)>,
    component_count: usize,
    component_sizes: Vec<usize>,
}

impl SubcircuitComponents {
    /// Each operation with its component number, in operation order.
    pub closed spec fn ids(&self) -> Seq<(Operation, usize)> {
        self.component_id@
    }

    /// The number of components.
    pub closed spec fn total(&self) -> nat {
        self.component_count as nat
    }

    /// The number of operations in each component.
    pub closed spec fn sizes(&self) -> Seq<usize> {
        self.component_sizes@
    }

    /// The component of `op`, if it is an operation of the subcircuit.
    pub fn component_of(&self, op: Operation) -> (r: Option<usize>)
        ensures
            match r {
                Some(c) => exists|k: int| 0 <= k < self.ids().len() && #[trigger] self.ids()[k] == (op, c),
                None => forall|k: int| 0 <= k < self.ids().len() ==> (#[trigger] self.ids()[k]).0 != op,
            },
    {
        let mut k: usize = 0;
        while k < self.component_id.len()
            invariant
                k <= self.component_id@.len(),
                forall|j: int| 0 <= j < k ==> (#[trigger] self.component_id@[j]).0 != op,
            decreases self.component_id@.len() - k,
        {
            if self.component_id[k].0 == op {
                let c = self.component_id[k].1;
                proof {
                    assert(self.ids()[k as int] == (op, c));
                }
                return Some(c);
            }
            k = k + 1;
        }
        None
    }

    /// Each operation with its component number, in operation order.
    pub fn all_ids(&self) -> (r: &[(Operation, usize)])
        ensures
            r@ == self.ids(),
    {
        self.component_id.as_slice()
    }

    /// The number of components.
    pub fn count(&self) -> (r: usize)
        ensures
            r == self.total(),
    {
        self.component_count
    }

    /// Whether the subcircuit falls into more than one component.
    pub fn is_disjoint(&self) -> (r: bool)
        ensures
            r == (self.total() > 1),
    {
        self.component_count > 1
    }

    /// The number of operations in `component`; zero for an unknown one.
    pub fn component_size(&self, component: usize) -> (r: usize)
        ensures
            r == (if component < self.sizes().len() { self.sizes()[component as int] } else { 0 }),
    {
        if component < self.component_sizes.len() {
            self.component_sizes[component]
        } else {
            0
        }
    }

    /// The last of the largest components; zero when there is none.
    pub fn largest_component(&self) -> (r: usize)
        ensures
            self.sizes().len() == 0 ==> r == 0,
            self.sizes().len() > 0 ==> is_last_largest(self.sizes(), r as int),
    {
        if self.component_sizes.len() == 0 {
            return 0;
        }
        let mut best: usize = 0;
        let mut k: usize = 1;
        while k < self.component_sizes.len()
            invariant
                1 <= k <= self.component_sizes@.len(),
                best < k,
                forall|j: int| 0 <= j < k ==> #[trigger] self.component_sizes@[j] <= self.component_sizes@[best as int],
                forall|j: int| best < j < k ==> #[trigger] self.component_sizes@[j] < self.component_sizes@[best as int],
            decreases self.component_sizes@.len() - k,
        {
            if self.component_sizes[k] >= self.component_sizes[best] {
                best = k;
            }
            k = k + 1;
        }
        best
    }

    /// The operations of `component`, in operation order.
    pub fn operations_in(&self, component: usize) -> (r: Vec<Operation>)
        ensures
            r@ == ops_numbered(self.ids(), component),
    {
        let mut r: Vec<Operation> = Vec::new();
        let mut k: usize = 0;
        while k < self.component_id.len()
            invariant
                k <= self.component_id@.len(),
                r@ == ops_numbered(self.component_id@.take(k as int), component),
            decreases self.component_id@.len() - k,
        {
            proof {
                assert(self.component_id@.take(k as int + 1).drop_last() =~= self.component_id@.take(k as int));
            }
            if self.component_id[k].1 == component {
                r.push(self.component_id[k].0);
            }
            k = k + 1;
        }
        proof {
            assert(self.component_id@.take(self.component_id@.len() as int) =~= self.component_id@);
        }
        r
    }

    /// The component numbers, from zero up to the count.
    pub fn component_ids(&self) -> (r: Vec<usize>)
        ensures
            r@.len() == self.total(),
            forall|k: int| 0 <= k < r@.len() ==> #[trigger] r@[k] == k,
    {
        let mut r: Vec<usize> = Vec::with_capacity(self.component_count);
        let mut k: usize = 0;
        while k < self.component_count
            invariant
                k <= self.component_count,
                r@.len() == k,
                forall|j: int| 0 <= j < k ==> #[trigger] r@[j] == j,
            decreases self.component_count - k,
        {
            r.push(k);
            k = k + 1;
        }
        r
    }
}

/// Finds the connected components of a subcircuit.
pub fn compute_connected_components<G: Gate>(subcircuit: &Subcircuit<G>) -> (r: SubcircuitComponents)
    requires
        subcircuit.wf(),
    ensures
        is_components_of(*subcircuit, r.ids(), r.total(), r.sizes()),
{
    let (nodes, es) = component_graph(subcircuit);
    let ghost edges = graph_edges(*subcircuit);
    let ghost ops = subcircuit.operations();
    let labels = label_components(nodes.len(), &es, Ghost(nodes@), Ghost(edges));
    let nops = subcircuit.all_operations().len();
    let (comp, count, sizes) = number_components(&labels, nops);
    let mut ids: Vec<(Operation, usize)> = Vec::with_capacity(nops);
    let mut k: usize = 0;
    while k < nops
        invariant
            nops == ops.len(),
            nodes@ == ops + unknown_ops(ops, edges),
            comp@.len() == nops,
            k <= nops,
            ids@.len() == k,
            forall|j: int| 0 <= j < k ==> #[trigger] ids@[j] == (ops[j], comp@[j]),
        decreases nops - k,
    {
        ids.push((nodes[k], comp[k]));
        k = k + 1;
    }
    let r = SubcircuitComponents { component_id: ids, component_count: count, component_sizes: sizes };
    proof {
        assert(numbers(ids@) =~= comp@);
        assert forall|i: int, j: int| 0 <= i < ops.len() && 0 <= j < ops.len() implies (#[trigger] numbers(ids@)[i] == #[trigger] numbers(ids@)[j] <==> connected(edges, ops[i], ops[j])) by {
            assert(nodes@[i] == ops[i] && nodes@[j] == ops[j]);
            assert(labels@[i] == labels@[j] <==> connected(edges, nodes@[i], nodes@[j]));
            assert(comp@[i] == comp@[j] <==> labels@[i] == labels@[j]);
        }
    }
    r
}

/// Connected components of every subcircuit of a circuit.
pub struct ConnectedComponents {
    results: Vec<(CircuitId, SubcircuitComponents)>,
}

impl ConnectedComponents {
    /// The results, in subcircuit slot order.
    pub closed spec fn results(&self) -> Seq<(CircuitId, SubcircuitComponents)> {
        self.results@
    }

    /// Finds the connected components of every subcircuit, in slot order.
    pub fn run<G: Gate>(circuit: &Circuit<G>) -> (r: Self)
        requires
            circuit.wf(),
        ensures
            r.results().len() == circuit.subcircuits().entries().len(),
            forall|j: int| 0 <= j < r.results().len() ==> {
                let sub = circuit.subcircuits().entries()[j].1;
                &&& (#[trigger] r.results()[j]).0 == sub.circuit_id()
                &&& is_components_of(sub, r.results()[j].1.ids(), r.results()[j].1.total(), r.results()[j].1.sizes())
            },
    {
        let subs = circuit.iter();
        let mut results: Vec<(CircuitId, SubcircuitComponents)> = Vec::with_capacity(subs.len());
        let mut k: usize = 0;
        while k < subs.len()
            invariant
                circuit.wf(),
                subs@.len() == circuit.subcircuits().entries().len(),
                forall|j: int| 0 <= j < subs@.len() ==> *(#[trigger] subs@[j]) == circuit.subcircuits().entries()[j].1,
                k <= subs@.len(),
                results@.len() == k,
                forall|j: int| 0 <= j < k ==> {
                    let sub = circuit.subcircuits().entries()[j].1;
                    &&& (#[trigger] results@[j]).0 == sub.circuit_id()
                    &&& is_components_of(sub, results@[j].1.ids(), results@[j].1.total(), results@[j].1.sizes())
                },
            decreases subs@.len() - k,
        {
            let sub = subs[k];
            proof {
                circuit.lemma_entry_wf(k as int);
            }
            let comps = compute_connected_components(sub);
            results.push((sub.id(), comps));
            k = k + 1;
        }
        ConnectedComponents { results }
    }

    /// The components of a subcircuit.
    pub fn for_subcircuit(&self, id: CircuitId) -> (r: Option<&SubcircuitComponents>)
        ensures
            match result_for(self.results(), id) {
                Some(x) => r == Some(&x),
                None => r is None,
            },
    {
        lookup(&self.results, id)
    }

    /// Every subcircuit's components, in slot order.
    pub fn iter(&self) -> (r: Vec<(CircuitId, &SubcircuitComponents)>)
        ensures
            r@.len() == self.results().len(),
            forall|k: int| 0 <= k < r@.len() ==> (#[trigger] r@[k]).0 == self.results()[k].0 && *r@[k].1 == self.results()[k].1,
    {
        pairs(&self.results)
    }

    /// Whether some subcircuit falls into more than one component.
    pub fn has_disjoint_subcircuits(&self) -> (r: bool)
        ensures
            r == exists|k: int| 0 <= k < self.results().len() && (#[trigger] self.results()[k]).1.total() > 1,
    {
        let mut k: usize = 0;
        while k < self.results.len()
            invariant
                k <= self.results@.len(),
                forall|j: int| 0 <= j < k ==> (#[trigger] self.results@[j]).1.total() <= 1,
            decreases self.results@.len() - k,
        {
            if self.results[k].1.is_disjoint() {
                proof {
                    assert(self.results()[k as int].1.total() > 1);
                }
                return true;
            }
            k = k + 1;
        }
        false
    }
}

} // verus!
