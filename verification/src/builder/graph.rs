//! Gate graph of a builder, as a mathematical object.
//!
//! A builder's gates are numbered `0..n`; `srcs[d]` lists the sources
//! connected to gate `d` in port order. A gate `s` feeds gate `d` when
//! `Source::Gate(Node(s))` is among the sources of `d`.

use vstd::prelude::*;

use crate::builder::entry::Source;
use crate::builder::handles::Node;

verus! {

/// Gate `s` feeds gate `d`.
pub open spec fn feeds(srcs: Seq<Seq<Source>>, s: int, d: int) -> bool {
    srcs[d].contains(Source::Gate(Node(s as usize)))
}

/// Some circuit input feeds gate `g`.
pub open spec fn fed_by_input(srcs: Seq<Seq<Source>>, g: int) -> bool {
    exists|m: int| 0 <= m < srcs[g].len() && #[trigger] srcs[g][m] is Input
}

/// `p` is a nonempty chain of gates below `n`, each feeding the next.
pub open spec fn is_gate_path(srcs: Seq<Seq<Source>>, n: int, p: Seq<usize>) -> bool {
    &&& p.len() > 0
    &&& forall|i: int| 0 <= i < p.len() ==> #[trigger] p[i] < n
    &&& forall|i: int| 0 <= i < p.len() - 1 ==> feeds(srcs, #[trigger] p[i] as int, p[i + 1] as int)
}

/// Gate `g` lies on a cycle: a chain of at least one connection leads from
/// `g` back to `g`.
pub open spec fn on_cycle(srcs: Seq<Seq<Source>>, n: int, g: int) -> bool {
    exists|p: Seq<usize>|
        #![trigger is_gate_path(srcs, n, p)]
        is_gate_path(srcs, n, p) && p.len() >= 2 && p[0] == g && p.last() == g
}

/// Some circuit input reaches gate `g` through a chain of gates.
pub open spec fn reached_from_inputs(srcs: Seq<Seq<Source>>, n: int, g: int) -> bool {
    exists|p: Seq<usize>|
        #![trigger is_gate_path(srcs, n, p)]
        is_gate_path(srcs, n, p) && fed_by_input(srcs, p[0] as int) && p.last() == g
}

/// Gate `g` reaches a gate that feeds a circuit output.
pub open spec fn reaches_outputs(
    srcs: Seq<Seq<Source>>,
    n: int,
    outs: Seq<Option<Node>>,
    g: int,
) -> bool {
    exists|p: Seq<usize>|
        #![trigger is_gate_path(srcs, n, p)]
        is_gate_path(srcs, n, p) && p[0] == g && outs.contains(Some(Node(p.last())))
}

/// `order` lists every gate below `n` exactly once, each after all gates
/// that feed it.
pub open spec fn is_topological(srcs: Seq<Seq<Source>>, n: int, order: Seq<usize>) -> bool {
    &&& order.len() == n
    &&& order.no_duplicates()
    &&& forall|i: int| 0 <= i < order.len() ==> #[trigger] order[i] < n
    &&& forall|g: int| 0 <= g < n ==> #[trigger] order.contains(g as usize)
    &&& forall|i: int, m: int|
        0 <= i < order.len() && 0 <= m < srcs[order[i] as int].len()
            && (#[trigger] srcs[order[i] as int][m]) is Gate ==> exists|j: int|
            0 <= j < i && order[j] == (srcs[order[i] as int][m]->Gate_0).0
}

/// Position of gate `g` in `order`.
pub open spec fn position(order: Seq<usize>, g: int) -> int {
    order.index_of(g as usize)
}

/// A gate that is fed only by gates that come before it in `order` never
/// feeds a gate that comes before it.
pub proof fn lemma_topological_feeds(srcs: Seq<Seq<Source>>, n: int, order: Seq<usize>, i: int, j: int)
    requires
        is_topological(srcs, n, order),
        0 <= i < n,
        0 <= j < n,
        feeds(srcs, order[i] as int, order[j] as int),
    ensures
        i < j,
{
    let s = Source::Gate(Node(order[i]));
    let m = choose|m: int| 0 <= m < srcs[order[j] as int].len() && srcs[order[j] as int][m] == s;
    assert(srcs[order[j] as int][m] is Gate);
    let k = choose|k: int| 0 <= k < j && order[k] == (srcs[order[j] as int][m]->Gate_0).0;
    assert(order[k] == order[i]);
}

/// The chain `p` ending at `p.last()` extended by a gate that it feeds.
pub proof fn lemma_path_push(srcs: Seq<Seq<Source>>, n: int, p: Seq<usize>, d: usize)
    requires
        is_gate_path(srcs, n, p),
        d < n,
        feeds(srcs, p.last() as int, d as int),
    ensures
        is_gate_path(srcs, n, p.push(d)),
{
    let q = p.push(d);
    assert forall|i: int| 0 <= i < q.len() - 1 implies feeds(srcs, #[trigger] q[i] as int, q[i + 1] as int) by {
        if i < p.len() - 1 {
            assert(q[i] == p[i] && q[i + 1] == p[i + 1]);
        } else {
            assert(q[i] == p.last() && q[i + 1] == d);
        }
    }
    assert forall|i: int| 0 <= i < q.len() implies #[trigger] q[i] < n by {
        if i < p.len() {
            assert(q[i] == p[i]);
        }
    }
}

/// The chain `p` starting at `p[0]` preceded by a gate that feeds it.
pub proof fn lemma_path_prepend(srcs: Seq<Seq<Source>>, n: int, s: usize, p: Seq<usize>)
    requires
        is_gate_path(srcs, n, p),
        s < n,
        feeds(srcs, s as int, p[0] as int),
    ensures
        is_gate_path(srcs, n, seq![s] + p),
        (seq![s] + p)[0] == s,
        (seq![s] + p).last() == p.last(),
{
    let q = seq![s] + p;
    assert forall|i: int| 0 <= i < q.len() - 1 implies feeds(srcs, #[trigger] q[i] as int, q[i + 1] as int) by {
        if i == 0 {
            assert(q[0] == s && q[1] == p[0]);
        } else {
            assert(q[i] == p[i - 1] && q[i + 1] == p[i]);
        }
    }
    assert forall|i: int| 0 <= i < q.len() implies #[trigger] q[i] < n by {
        if i > 0 {
            assert(q[i] == p[i - 1]);
        }
    }
}

/// Along a chain of connections, gates come later and later in a
/// topological order.
proof fn lemma_path_rises(srcs: Seq<Seq<Source>>, n: int, order: Seq<usize>, p: Seq<usize>, k: int)
    requires
        is_topological(srcs, n, order),
        is_gate_path(srcs, n, p),
        0 < k < p.len(),
    ensures
        order.index_of(p[0]) < order.index_of(p[k]),
    decreases k,
{
    let a = p[k - 1];
    let b = p[k];
    assert(order.contains(a as usize));
    assert(order.contains(b as usize));
    let ia = order.index_of(a);
    let ib = order.index_of(b);
    assert(order[ia] == a && order[ib] == b);
    assert(feeds(srcs, p[k - 1] as int, p[k] as int));
    lemma_topological_feeds(srcs, n, order, ia, ib);
    if k > 1 {
        lemma_path_rises(srcs, n, order, p, k - 1);
    }
}

/// A gate on a cycle rules out every topological order.
pub proof fn lemma_cycle_not_acyclic(srcs: Seq<Seq<Source>>, n: int, order: Seq<usize>, g: int)
    requires
        on_cycle(srcs, n, g),
    ensures
        !is_topological(srcs, n, order),
{
    if is_topological(srcs, n, order) {
        let p = choose|p: Seq<usize>| #[trigger] is_gate_path(srcs, n, p) && p.len() >= 2 && p[0] == g && p.last() == g;
        lemma_path_rises(srcs, n, order, p, p.len() - 1);
    }
}

} // verus!
