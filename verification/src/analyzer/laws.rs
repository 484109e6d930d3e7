//! What the analyses promise of every subcircuit: a schedule runs each
//! operation once and after the operations producing the values it uses; a
//! reported cycle rules out every schedule; each live range holds every use
//! of its value; connected components split the operations into non-empty
//! groups; and a subcircuit has no ownership issue exactly when each of its
//! values is moved once.

use vstd::prelude::*;
use vstd::set_lib::{lemma_int_range, lemma_len_subset, set_int_range};

use crate::analyzer::analyses::connected_components::{canonical, is_components_of, label_count, numbers, occurrences};
use crate::analyzer::analyses::ownership_issues::{issues_of, issues_of_value, issues_of_values, move_count, OwnershipIssue};
use crate::analyzer::analyses::scheduled_order::first_position;
use crate::analyzer::analyses::value_liveness::{last_use, live_range_of, live_ranges_of, LiveRange};
use crate::arena::key::Key;
use crate::analyzer::graph::{edges_of_value, edges_of_values, extra_nodes, graph_edges, graph_nodes, indexes_edges};
use crate::analyzer::results::{is_cycle_of, is_schedule_of, ops_at};
use crate::analyzer::schedule::{blocked, inputs_within, is_complete_order, is_stuck_set, respects_priority};
use crate::circuit::operations::Operation;
use crate::circuit::subcircuit::{CircuitId, Subcircuit};
use crate::circuit::operations::{consumer_operation, producer_operation};
use crate::circuit::value::{Destination, Value, ValueId};
use crate::error::Error;
use crate::gate::Gate;

verus! {

/// A sequence of distinct machine integers is no longer than there are
/// such integers.
proof fn lemma_distinct_usizes_bound(s: Seq<usize>)
    requires
        s.no_duplicates(),
    ensures
        s.len() <= usize::MAX + 1,
{
    let t = s.map_values(|u: usize| u as int);
    assert(t.no_duplicates()) by {
        assert forall|a: int, b: int| 0 <= a < t.len() && 0 <= b < t.len() && a != b implies t[a] != t[b] by {
            assert(s[a] != s[b]);
        }
    }
    t.unique_seq_to_set();
    let r = set_int_range(0, usize::MAX + 1);
    assert(t.to_set().subset_of(r)) by {
        assert forall|x: int| t.to_set().contains(x) implies r.contains(x) by {
            let i = choose|i: int| 0 <= i < t.len() && t[i] == x;
            assert(t[i] == s[i] as int);
        }
    }
    lemma_int_range(0, usize::MAX + 1);
    lemma_len_subset(t.to_set(), r);
}

proof fn lemma_concat_contains(known: Seq<Operation>, ex: Seq<Operation>, x: Operation)
    ensures
        (known + ex).contains(x) <==> (known.contains(x) || ex.contains(x)),
{
    if (known + ex).contains(x) {
        let j = choose|j: int| 0 <= j < (known + ex).len() && (known + ex)[j] == x;
        if j >= known.len() {
            assert(ex[j - known.len()] == x);
        }
    }
    if known.contains(x) {
        let j = choose|j: int| 0 <= j < known.len() && known[j] == x;
        assert((known + ex)[j] == x);
    }
    if ex.contains(x) {
        let j = choose|j: int| 0 <= j < ex.len() && ex[j] == x;
        assert((known + ex)[known.len() + j] == x);
    }
}

/// The graph's nodes are distinct when the known operations are.
proof fn lemma_nodes_distinct(known: Seq<Operation>, edges: Seq<(Operation, Operation)>)
    requires
        known.no_duplicates(),
    ensures
        (known + extra_nodes(known, edges)).no_duplicates(),
    decreases edges.len(),
{
    if edges.len() == 0 {
        assert(known + extra_nodes(known, edges) =~= known);
    } else {
        let prev = extra_nodes(known, edges.drop_last());
        lemma_nodes_distinct(known, edges.drop_last());
        let c = edges.last().1;
        if !(known.contains(c) || prev.contains(c)) {
            let s = known + prev;
            lemma_concat_contains(known, prev, c);
            assert(known + prev.push(c) =~= s.push(c));
            assert forall|a: int, b: int| 0 <= a < s.push(c).len() && 0 <= b < s.push(c).len() && a != b implies s.push(c)[a] != s.push(c)[b] by {
                if a == s.len() as int {
                    assert(s[b] == s.push(c)[b]);
                } else if b == s.len() as int {
                    assert(s[a] == s.push(c)[a]);
                }
            }
        }
    }
}

/// `a` runs before `b` in `ops`.
pub open spec fn runs_before(ops: Seq<Operation>, a: Operation, b: Operation) -> bool {
    exists|i: int, j: int| 0 <= i < j < ops.len() && #[trigger] ops[i] == a && #[trigger] ops[j] == b
}

/// A schedule, by priority or not, runs every operation of the subcircuit
/// exactly once, and runs the producer of each used value before the
/// operation using it.
pub proof fn law_schedule_respects_uses<G: Gate>(sub: Subcircuit<G>, ops: Seq<Operation>, prio: Seq<u8>)
    requires
        sub.wf(),
        is_schedule_of(sub, ops, prio),
    ensures
        ops.no_duplicates(),
        ops.len() == graph_nodes(sub).len(),
        forall|op: Operation| #[trigger] sub.operations().contains(op) ==> ops.contains(op),
        forall|e: int| 0 <= e < graph_edges(sub).len() ==> #[trigger] runs_before(ops, graph_edges(sub)[e].0, graph_edges(sub)[e].1),
{
    let nodes = graph_nodes(sub);
    let n = nodes.len() as int;
    let (es, idx) = choose|es: Seq<(Option<usize>, usize)>, idx: Seq<usize>|
        #![trigger indexes_edges(sub, graph_nodes(sub), es), is_complete_order(graph_nodes(sub).len() as int, es, idx)]
        indexes_edges(sub, graph_nodes(sub), es) && is_complete_order(graph_nodes(sub).len() as int, es, idx)
            && respects_priority(es, prio, idx) && ops == ops_at(graph_nodes(sub), idx);
    lemma_distinct_usizes_bound(idx);
    sub.lemma_operations_distinct();
    lemma_nodes_distinct(sub.operations(), graph_edges(sub));
    assert(ops.len() == idx.len());
    assert forall|a: int, b: int| 0 <= a < ops.len() && 0 <= b < ops.len() && a != b implies ops[a] != ops[b] by {
        assert(ops_at(nodes, idx)[a] == nodes[idx[a] as int]);
        assert(ops_at(nodes, idx)[b] == nodes[idx[b] as int]);
        assert(idx[a] != idx[b]);
    }
    assert forall|op: Operation| #[trigger] sub.operations().contains(op) implies ops.contains(op) by {
        let k = choose|k: int| 0 <= k < sub.operations().len() && sub.operations()[k] == op;
        assert(nodes[k] == op);
        assert(idx.contains(k as usize));
        let m = choose|m: int| 0 <= m < idx.len() && idx[m] == k as usize;
        assert(ops_at(nodes, idx)[m] == nodes[idx[m] as int]);
        assert(ops[m] == op);
    }
    assert forall|e: int| 0 <= e < graph_edges(sub).len() implies #[trigger] runs_before(ops, graph_edges(sub)[e].0, graph_edges(sub)[e].1) by {
        let c = es[e].1;
        assert(c < n);
        let x = c as int;
        assert(idx.contains(x as usize));
        let j = choose|j: int| 0 <= j < idx.len() && idx[j] == c;
        assert(inputs_within(es, idx[j], idx.take(j)));
        assert(es[e].1 == idx[j]);
        let p = es[e].0->0;
        assert(idx.take(j).contains(p));
        let i = choose|i: int| 0 <= i < idx.take(j).len() && idx.take(j)[i] == p;
        assert(idx[i] == p);
        assert(ops_at(nodes, idx)[i] == nodes[idx[i] as int]);
        assert(ops_at(nodes, idx)[j] == nodes[idx[j] as int]);
        assert(ops[i] == graph_edges(sub)[e].0);
        assert(ops[j] == graph_edges(sub)[e].1);
    }
}

/// The sum of a sequence of sizes.
pub open spec fn total_size(sizes: Seq<usize>) -> int
    decreases sizes.len(),
{
    if sizes.len() == 0 {
        0
    } else {
        total_size(sizes.drop_last()) + sizes.last()
    }
}

/// Occurrences in `s` of the numbers below `m`.
spec fn occurrences_below(s: Seq<usize>, m: nat) -> int
    decreases m,
{
    if m == 0 {
        0
    } else {
        occurrences_below(s, (m - 1) as nat) + occurrences(s, (m - 1) as usize)
    }
}

proof fn lemma_occurrences_push(s: Seq<usize>, x: usize, c: usize)
    ensures
        occurrences(s.push(x), c) == occurrences(s, c) + if x == c { 1int } else { 0int },
{
    assert(s.push(x).drop_last() =~= s);
}

proof fn lemma_occurrences_below_push(s: Seq<usize>, x: usize, m: nat)
    requires
        m <= usize::MAX + 1,
    ensures
        occurrences_below(s.push(x), m) == occurrences_below(s, m) + if x < m { 1int } else { 0int },
    decreases m,
{
    if m > 0 {
        lemma_occurrences_below_push(s, x, (m - 1) as nat);
        lemma_occurrences_push(s, x, (m - 1) as usize);
    }
}

proof fn lemma_occurrences_below_all(s: Seq<usize>, m: nat)
    requires
        m <= usize::MAX + 1,
        forall|k: int| 0 <= k < s.len() ==> #[trigger] s[k] < m,
    ensures
        occurrences_below(s, m) == s.len(),
    decreases s.len(),
{
    if s.len() == 0 {
        assert forall|j: nat| j <= m implies #[trigger] occurrences_below(s, j) == 0 by {
            lemma_occurrences_below_empty(s, j);
        }
    } else {
        let t = s.drop_last();
        lemma_occurrences_below_all(t, m);
        assert(t.push(s.last()) =~= s);
        lemma_occurrences_below_push(t, s.last(), m);
    }
}

proof fn lemma_occurrences_below_empty(s: Seq<usize>, m: nat)
    requires
        s.len() == 0,
    ensures
        occurrences_below(s, m) == 0,
    decreases m,
{
    if m > 0 {
        lemma_occurrences_below_empty(s, (m - 1) as nat);
    }
}

proof fn lemma_total_size_prefix(sizes: Seq<usize>, s: Seq<usize>, m: nat)
    requires
        m <= sizes.len(),
        sizes.len() <= usize::MAX + 1,
        forall|c: int| 0 <= c < sizes.len() ==> #[trigger] sizes[c] == occurrences(s, c as usize),
    ensures
        total_size(sizes.take(m as int)) == occurrences_below(s, m),
    decreases m,
{
    if m > 0 {
        lemma_total_size_prefix(sizes, s, (m - 1) as nat);
        assert(sizes.take(m as int).drop_last() =~= sizes.take(m - 1));
    }
}

proof fn lemma_labels_below_count(s: Seq<usize>)
    ensures
        label_count(s) <= usize::MAX + 1,
        forall|k: int| 0 <= k < s.len() ==> #[trigger] s[k] < label_count(s),
    decreases s.len(),
{
    if s.len() > 0 {
        let t = s.drop_last();
        lemma_labels_below_count(t);
        assert forall|k: int| 0 <= k < s.len() implies #[trigger] s[k] < label_count(s) by {
            if k < s.len() - 1 {
                assert(s[k] == t[k]);
            }
        }
    }
}

proof fn lemma_canonical_labels_used(s: Seq<usize>)
    requires
        canonical(s),
    ensures
        forall|c: int| 0 <= c < label_count(s) ==> #[trigger] occurrences(s, c as usize) >= 1,
    decreases s.len(),
{
    if s.len() > 0 {
        let t = s.drop_last();
        lemma_canonical_labels_used(t);
        assert(t.push(s.last()) =~= s);
        assert forall|c: int| 0 <= c < label_count(s) implies #[trigger] occurrences(s, c as usize) >= 1 by {
            lemma_occurrences_push(t, s.last(), c as usize);
        }
    }
}

/// The connected components number every operation below their count,
/// none of them is empty, and their sizes add up to the number of
/// operations.
pub proof fn law_components_partition<G: Gate>(sub: Subcircuit<G>, ids: Seq<(Operation, usize)>, count: nat, sizes: Seq<usize>)
    requires
        is_components_of(sub, ids, count, sizes),
    ensures
        forall|k: int| 0 <= k < ids.len() ==> (#[trigger] ids[k]).1 < count,
        forall|c: int| 0 <= c < count ==> #[trigger] sizes[c] >= 1,
        total_size(sizes) == sub.operations().len(),
{
    let comp = numbers(ids);
    lemma_labels_below_count(comp);
    lemma_canonical_labels_used(comp);
    assert forall|k: int| 0 <= k < ids.len() implies (#[trigger] ids[k]).1 < count by {
        assert(comp[k] == ids[k].1);
    }
    lemma_total_size_prefix(sizes, comp, count);
    assert(sizes.take(count as int) =~= sizes);
    lemma_occurrences_below_all(comp, count);
}

proof fn lemma_no_issues_of_values<G: Gate>(c: CircuitId, vals: Seq<((usize, usize), Value<G>)>)
    ensures
        issues_of_values(c, vals).len() == 0 <==> forall|j: int| 0 <= j < vals.len() ==> move_count(#[trigger] vals[j].1) == 1,
    decreases vals.len(),
{
    if vals.len() > 0 {
        let t = vals.drop_last();
        lemma_no_issues_of_values(c, t);
        if issues_of_values(c, vals).len() == 0 {
            assert forall|j: int| 0 <= j < vals.len() implies move_count(#[trigger] vals[j].1) == 1 by {
                if j < vals.len() - 1 {
                    assert(vals[j] == t[j]);
                }
            }
        } else if forall|j: int| 0 <= j < vals.len() ==> move_count(#[trigger] vals[j].1) == 1 {
            assert forall|j: int| 0 <= j < t.len() implies move_count(#[trigger] t[j].1) == 1 by {
                assert(t[j] == vals[j]);
            }
            assert(move_count(vals[vals.len() - 1].1) == 1);
        }
    }
}

/// A subcircuit has no ownership issue exactly when every one of its
/// values is moved by exactly one use.
pub proof fn law_valid_iff_moved_once<G: Gate>(sub: Subcircuit<G>)
    ensures
        issues_of(sub).len() == 0 <==> forall|j: int|
            0 <= j < sub.values().entries().len() ==> move_count(#[trigger] sub.values().entries()[j].1) == 1,
{
    lemma_no_issues_of_values(sub.circuit_id(), sub.values().entries());
}

/// The `m`-th use of `v` runs after the operation producing `v`.
pub open spec fn use_after_birth<G: Gate>(ops: Seq<Operation>, v: Value<G>, m: int) -> bool {
    &&& first_position(ops, producer_operation(v.origin().producer)) matches Some(b)
    &&& first_position(ops, consumer_operation(v.destinations()[m].consumer)) matches Some(q)
    &&& b < q
}

/// `r` starts at the position of `v`'s producer, is not empty, and every use
/// of `v` falls inside it.
pub open spec fn range_covers_uses<G: Gate>(ops: Seq<Operation>, v: Value<G>, r: LiveRange) -> bool {
    &&& first_position(ops, producer_operation(v.origin().producer)) == Some(r.birth)
    &&& r.birth < r.death
    &&& forall|m: int| 0 <= m < v.destinations().len() ==> {
        &&& first_position(ops, consumer_operation(#[trigger] v.destinations()[m].consumer)) matches Some(q)
        &&& r.birth < q < r.death
    }
}

/// In a sequence without repeats, the first position of an element is its
/// only position.
proof fn lemma_first_position_at(ops: Seq<Operation>, i: int)
    requires
        ops.no_duplicates(),
        0 <= i < ops.len(),
        ops.len() <= usize::MAX + 1,
    ensures
        first_position(ops, ops[i]) == Some(i as usize),
{
    reveal(first_position);
    assert(ops.contains(ops[i]));
    let c = choose|c: int| 0 <= c < ops.len() && ops[c] == ops[i] && forall|j: int| 0 <= j < c ==> ops[j] != ops[i];
    assert(ops[i] == ops[i]);
    if c != i {
        assert(ops[c] == ops[i]);
    }
}

/// A position found in `ops` is one of its positions.
proof fn lemma_first_position_bound(ops: Seq<Operation>, x: Operation)
    requires
        ops.len() <= usize::MAX,
    ensures
        first_position(ops, x) matches Some(i) ==> i < ops.len(),
{
    reveal(first_position);
    if ops.contains(x) {
        lemma_first_index_exists(ops, x);
    }
}

/// An element that occurs has a first occurrence.
proof fn lemma_first_index_exists(ops: Seq<Operation>, x: Operation)
    requires
        ops.contains(x),
    ensures
        exists|i: int| 0 <= i < ops.len() && ops[i] == x && forall|j: int| 0 <= j < i ==> ops[j] != x,
    decreases ops.len(),
{
    if ops[0] != x {
        let t = ops.drop_first();
        let k = choose|k: int| 0 <= k < ops.len() && ops[k] == x;
        assert(t[k - 1] == x);
        lemma_first_index_exists(t, x);
        let i = choose|i: int| 0 <= i < t.len() && t[i] == x && forall|j: int| 0 <= j < i ==> t[j] != x;
        assert forall|j: int| 0 <= j < i + 1 implies ops[j] != x by {
            if j > 0 {
                assert(ops[j] == t[j - 1]);
            }
        }
        assert(ops[i + 1] == x);
    } else {
        assert(ops[0] == x);
    }
}

/// Every use of a stored value is an edge of the graph.
proof fn lemma_use_is_edge<G: Gate>(vals: Seq<((usize, usize), Value<G>)>, j: int, m: int)
    requires
        0 <= j < vals.len(),
        0 <= m < vals[j].1.destinations().len(),
    ensures
        exists|e: int| 0 <= e < edges_of_values(vals).len() && #[trigger] edges_of_values(vals)[e] == (
            producer_operation(vals[j].1.origin().producer),
            consumer_operation(vals[j].1.destinations()[m].consumer),
        ),
    decreases vals.len(),
{
    let prev = edges_of_values(vals.drop_last());
    let last = edges_of_value(vals.last().1);
    assert(edges_of_values(vals) == prev + last);
    if j < vals.len() - 1 {
        lemma_use_is_edge(vals.drop_last(), j, m);
        assert(vals.drop_last()[j] == vals[j]);
        let e = choose|e: int| 0 <= e < prev.len() && #[trigger] prev[e] == (
            producer_operation(vals[j].1.origin().producer),
            consumer_operation(vals[j].1.destinations()[m].consumer),
        );
        assert((prev + last)[e] == prev[e]);
    } else {
        assert(last[m] == (
            producer_operation(vals[j].1.origin().producer),
            consumer_operation(vals[j].1.destinations()[m].consumer),
        ));
        assert((prev + last)[prev.len() + m] == last[m]);
    }
}

/// The latest use of `dests` is known and after `b` when every use is.
proof fn lemma_last_use_after(ops: Seq<Operation>, dests: Seq<Destination>, b: usize)
    requires
        ops.len() <= usize::MAX,
        forall|m: int| 0 <= m < dests.len() ==> (first_position(ops, consumer_operation(#[trigger] dests[m].consumer)) matches Some(q) && b < q),
    ensures
        last_use(ops, dests) is Ok,
        dests.len() == 0 ==> last_use(ops, dests)->Ok_0 is None,
        dests.len() > 0 ==> last_use(ops, dests)->Ok_0 is Some,
        dests.len() > 0 ==> b < last_use(ops, dests)->Ok_0->Some_0,
        dests.len() > 0 ==> last_use(ops, dests)->Ok_0->Some_0 < ops.len(),
        forall|m: int| 0 <= m < dests.len() ==> first_position(ops, consumer_operation(#[trigger] dests[m].consumer))->Some_0
            <= last_use(ops, dests)->Ok_0->Some_0,
    decreases dests.len(),
{
    if dests.len() > 0 {
        let d = dests.drop_last();
        assert forall|m: int| 0 <= m < d.len() implies (first_position(ops, consumer_operation(#[trigger] d[m].consumer)) matches Some(q) && b < q) by {
            assert(d[m] == dests[m]);
        }
        lemma_last_use_after(ops, d, b);
        lemma_first_position_bound(ops, consumer_operation(dests[dests.len() - 1].consumer));
        assert(first_position(ops, consumer_operation(dests[dests.len() - 1].consumer)) is Some);
        assert forall|m: int| 0 <= m < dests.len() implies first_position(ops, consumer_operation(#[trigger] dests[m].consumer))->Some_0
            <= last_use(ops, dests)->Ok_0->Some_0 by {
            if m < dests.len() - 1 {
                assert(d[m] == dests[m]);
            }
        }
    }
}

/// When every use of every value runs after its producer, each computed
/// live range covers its value's uses.
proof fn lemma_ranges_cover<G: Gate>(c: CircuitId, ops: Seq<Operation>, vals: Seq<((usize, usize), Value<G>)>)
    requires
        ops.len() <= usize::MAX,
        forall|j: int, m: int| 0 <= j < vals.len() && 0 <= m < vals[j].1.destinations().len() ==> #[trigger] use_after_birth(ops, vals[j].1, m),
    ensures
        live_ranges_of(c, ops, vals) matches Ok(rs) ==> rs.len() == vals.len() && forall|j: int|
            0 <= j < vals.len() ==> #[trigger] range_covers_uses(ops, vals[j].1, rs[j].1),
    decreases vals.len(),
{
    if vals.len() > 0 {
        let d = vals.drop_last();
        assert forall|j: int, m: int| 0 <= j < d.len() && 0 <= m < d[j].1.destinations().len() implies #[trigger] use_after_birth(ops, d[j].1, m) by {
            assert(d[j] == vals[j]);
            assert(use_after_birth(ops, vals[j].1, m));
        }
        lemma_ranges_cover(c, ops, d);
        let v = vals.last().1;
        if let Ok(rs) = live_ranges_of(c, ops, vals) {
            let prev = live_ranges_of(c, ops, d)->Ok_0;
            let b = first_position(ops, producer_operation(v.origin().producer))->Some_0;
            assert forall|m: int| 0 <= m < v.destinations().len() implies (first_position(ops, consumer_operation(#[trigger] v.destinations()[m].consumer)) matches Some(q) && b < q) by {
                assert(use_after_birth(ops, vals[vals.len() - 1].1, m));
            }
            lemma_last_use_after(ops, v.destinations(), b);
            assert(rs == prev.push((ValueId { circuit: c, value: Key::from_view(vals.last().0) }, live_range_of(ops, v)->Ok_0)));
            let r = rs[vals.len() - 1].1;
            lemma_first_position_bound(ops, producer_operation(v.origin().producer));
            assert(r == live_range_of(ops, v)->Ok_0);
            assert(first_position(ops, producer_operation(v.origin().producer)) == Some(b));
            assert(r.birth == b);
            if v.destinations().len() > 0 {
                let last = last_use(ops, v.destinations())->Ok_0->Some_0;
                assert(r.death == last + 1);
                assert forall|m: int| 0 <= m < v.destinations().len() implies {
                    &&& first_position(ops, consumer_operation(#[trigger] v.destinations()[m].consumer)) matches Some(q)
                    &&& r.birth < q < r.death
                } by {
                    assert(first_position(ops, consumer_operation(v.destinations()[m].consumer))->Some_0 <= last);
                }
            } else {
                assert(r.death == b + 1);
            }
            assert(range_covers_uses(ops, v, r));
            assert forall|j: int| 0 <= j < vals.len() implies #[trigger] range_covers_uses(ops, vals[j].1, rs[j].1) by {
                if j < vals.len() - 1 {
                    assert(d[j] == vals[j]);
                    assert(rs[j] == prev[j]);
                }
            }
        }
    }
}

/// In a schedule of a subcircuit, the live range computed for each value
/// starts at its producer, is not empty, and holds every use of the value.
pub proof fn law_live_ranges_cover_uses<G: Gate>(
    sub: Subcircuit<G>,
    ops: Seq<Operation>,
    prio: Seq<u8>,
    ranges: Seq<(ValueId, LiveRange)>,
)
    requires
        sub.wf(),
        is_schedule_of(sub, ops, prio),
        ops.len() <= usize::MAX,
        live_ranges_of(sub.circuit_id(), ops, sub.values().entries()) == Ok::<Seq<(ValueId, LiveRange)>, Error>(ranges),
    ensures
        ranges.len() == sub.values().entries().len(),
        forall|j: int| 0 <= j < ranges.len() ==> #[trigger] range_covers_uses(ops, sub.values().entries()[j].1, ranges[j].1),
{
    let vals = sub.values().entries();
    law_schedule_respects_uses(sub, ops, prio);
    let (es, idx) = choose|es: Seq<(Option<usize>, usize)>, idx: Seq<usize>|
        #![trigger indexes_edges(sub, graph_nodes(sub), es), is_complete_order(graph_nodes(sub).len() as int, es, idx)]
        indexes_edges(sub, graph_nodes(sub), es) && is_complete_order(graph_nodes(sub).len() as int, es, idx)
            && respects_priority(es, prio, idx) && ops == ops_at(graph_nodes(sub), idx);
    lemma_distinct_usizes_bound(idx);
    assert forall|j: int, m: int| 0 <= j < vals.len() && 0 <= m < vals[j].1.destinations().len() implies #[trigger] use_after_birth(ops, vals[j].1, m) by {
        lemma_use_is_edge(vals, j, m);
        let edges = graph_edges(sub);
        let e = choose|e: int| 0 <= e < edges.len() && #[trigger] edges[e] == (
            producer_operation(vals[j].1.origin().producer),
            consumer_operation(vals[j].1.destinations()[m].consumer),
        );
        assert(runs_before(ops, edges[e].0, edges[e].1));
        let (a, b) = choose|a: int, b: int| 0 <= a < b < ops.len() && #[trigger] ops[a] == edges[e].0 && #[trigger] ops[b] == edges[e].1;
        lemma_first_position_at(ops, a);
        lemma_first_position_at(ops, b);
    }
    lemma_ranges_cover(sub.circuit_id(), ops, vals);
}

/// Some node of `stuck` occurs in `idx`, and a first one does.
proof fn lemma_first_stuck(idx: Seq<usize>, stuck: Seq<usize>, i: int)
    requires
        0 <= i < idx.len(),
        stuck.contains(idx[i]),
    ensures
        exists|f: int| 0 <= f < idx.len() && stuck.contains(#[trigger] idx[f]) && forall|j: int| 0 <= j < f ==> !stuck.contains(idx[j]),
    decreases i,
{
    if exists|j: int| 0 <= j < i && stuck.contains(#[trigger] idx[j]) {
        let j = choose|j: int| 0 <= j < i && stuck.contains(#[trigger] idx[j]);
        lemma_first_stuck(idx, stuck, j);
    } else {
        assert(forall|j: int| 0 <= j < i ==> !stuck.contains(idx[j]));
    }
}

/// Two edge listings of the same subcircuit over distinct nodes agree.
proof fn lemma_edge_indexes_agree<G: Gate>(sub: Subcircuit<G>, nodes: Seq<Operation>, a: Seq<(Option<usize>, usize)>, b: Seq<(Option<usize>, usize)>, e: int)
    requires
        nodes == graph_nodes(sub),
        nodes.no_duplicates(),
        indexes_edges(sub, nodes, a),
        indexes_edges(sub, nodes, b),
        0 <= e < a.len(),
    ensures
        a[e] == b[e],
{
    assert(nodes[a[e].1 as int] == nodes[b[e].1 as int]);
    match (a[e].0, b[e].0) {
        (Some(p), Some(q)) => {
            assert(nodes[p as int] == nodes[q as int]);
        },
        (Some(p), None) => {
            assert(nodes[p as int] == graph_edges(sub)[e].0);
            assert(nodes.contains(graph_edges(sub)[e].0));
        },
        (None, Some(q)) => {
            assert(nodes[q as int] == graph_edges(sub)[e].0);
            assert(nodes.contains(graph_edges(sub)[e].0));
        },
        (None, None) => {},
    }
}

/// When the analyses report operations waiting on a cycle, the subcircuit
/// has no schedule at all, by priority or not.
pub proof fn law_cycle_excludes_schedule<G: Gate>(sub: Subcircuit<G>, waiting: Seq<Operation>, ops: Seq<Operation>, prio: Seq<u8>)
    requires
        sub.wf(),
        is_cycle_of(sub, waiting),
    ensures
        !is_schedule_of(sub, ops, prio),
{
    let nodes = graph_nodes(sub);
    let n = nodes.len() as int;
    sub.lemma_operations_distinct();
    lemma_nodes_distinct(sub.operations(), graph_edges(sub));
    let (es2, stuck) = choose|es: Seq<(Option<usize>, usize)>, stuck: Seq<usize>|
        #![trigger indexes_edges(sub, graph_nodes(sub), es), is_stuck_set(graph_nodes(sub).len() as int, es, stuck)]
        indexes_edges(sub, graph_nodes(sub), es) && is_stuck_set(graph_nodes(sub).len() as int, es, stuck)
            && waiting == ops_at(graph_nodes(sub), stuck);
    if is_schedule_of(sub, ops, prio) {
        let (es1, idx) = choose|es: Seq<(Option<usize>, usize)>, idx: Seq<usize>|
            #![trigger indexes_edges(sub, graph_nodes(sub), es), is_complete_order(graph_nodes(sub).len() as int, es, idx)]
            indexes_edges(sub, graph_nodes(sub), es) && is_complete_order(graph_nodes(sub).len() as int, es, idx)
                && respects_priority(es, prio, idx) && ops == ops_at(graph_nodes(sub), idx);
        let s0 = stuck[0];
        assert(s0 < n);
        let x0 = s0 as int;
        assert(idx.contains(x0 as usize));
        let i0 = choose|i: int| 0 <= i < idx.len() && idx[i] == x0 as usize;
        assert(stuck.contains(idx[i0]));
        lemma_first_stuck(idx, stuck, i0);
        let f = choose|f: int| 0 <= f < idx.len() && stuck.contains(#[trigger] idx[f]) && forall|j: int| 0 <= j < f ==> !stuck.contains(idx[j]);
        let x = idx[f];
        let k = choose|k: int| 0 <= k < stuck.len() && stuck[k] == x;
        assert(blocked(es2, stuck, stuck[k]));
        let e = choose|e: int| 0 <= e < es2.len() && (#[trigger] es2[e]).1 == stuck[k] && (es2[e].0 matches Some(p) ==> stuck.contains(p));
        lemma_edge_indexes_agree(sub, nodes, es1, es2, e);
        assert(inputs_within(es1, idx[f], idx.take(f)));
        assert(es1[e].1 == idx[f]);
        let p = es1[e].0->Some_0;
        assert(idx.take(f).contains(p));
        let j = choose|j: int| 0 <= j < idx.take(f).len() && idx.take(f)[j] == p;
        assert(idx[j] == p);
        assert(stuck.contains(p));
    }
}


/// The last use found among `dests` is the position of one of their
/// consumers, and no consumer comes later; none is found only when there
/// are no uses.
proof fn lemma_last_use_is_latest(ops: Seq<Operation>, dests: Seq<Destination>)
    requires
        last_use(ops, dests) is Ok,
    ensures
        dests.len() == 0 <==> last_use(ops, dests)->Ok_0 is None,
        last_use(ops, dests)->Ok_0 matches Some(p) ==> {
            &&& exists|m: int| 0 <= m < dests.len() && first_position(ops, consumer_operation(#[trigger] dests[m].consumer)) == Some(p)
            &&& forall|m: int| 0 <= m < dests.len() ==> (first_position(ops, consumer_operation(#[trigger] dests[m].consumer)) matches Some(q)
                && q <= p)
        },
    decreases dests.len(),
{
    if dests.len() > 0 {
        let d = dests.drop_last();
        lemma_last_use_is_latest(ops, d);
        let last = dests[dests.len() - 1];
        assert(dests.last() == last);
        let p = first_position(ops, consumer_operation(last.consumer))->Some_0;
        let r = last_use(ops, dests)->Ok_0->Some_0;
        match last_use(ops, d)->Ok_0 {
            None => {
                assert(r == p);
                assert(first_position(ops, consumer_operation(dests[dests.len() - 1].consumer)) == Some(r));
            },
            Some(q) => {
                if q >= p {
                    let m = choose|m: int| 0 <= m < d.len() && first_position(ops, consumer_operation(#[trigger] d[m].consumer)) == Some(q);
                    assert(dests[m] == d[m]);
                } else {
                    assert(first_position(ops, consumer_operation(dests[dests.len() - 1].consumer)) == Some(r));
                }
            },
        }
        assert forall|m: int| 0 <= m < dests.len() implies (first_position(ops, consumer_operation(#[trigger] dests[m].consumer)) matches Some(q)
            && q <= r) by {
            if m < d.len() {
                assert(dests[m] == d[m]);
            }
        }
    }
}

/// Each computed live range starts at its value's producer and ends one
/// past the latest position among the value's uses: some use sits at the
/// last live position and none later; a value no operation uses is live
/// at its producer's position only.
pub proof fn law_live_range_ends_at_last_use<G: Gate>(
    c: CircuitId,
    ops: Seq<Operation>,
    vals: Seq<((usize, usize), Value<G>)>,
    ranges: Seq<(ValueId, LiveRange)>,
)
    requires
        ops.len() <= usize::MAX,
        live_ranges_of(c, ops, vals) == Ok::<Seq<(ValueId, LiveRange)>, Error>(ranges),
    ensures
        ranges.len() == vals.len(),
        forall|j: int| 0 <= j < ranges.len() ==> #[trigger] ends_at_last_use(ops, vals[j].1, ranges[j].1),
    decreases vals.len(),
{
    if vals.len() > 0 {
        let d = vals.drop_last();
        let prev = live_ranges_of(c, ops, d)->Ok_0;
        law_live_range_ends_at_last_use(c, ops, d, prev);
        let v = vals.last().1;
        let r = live_range_of(ops, v)->Ok_0;
        assert(ranges == prev.push((ValueId { circuit: c, value: Key::from_view(vals.last().0) }, r)));
        lemma_last_use_is_latest(ops, v.destinations());
        lemma_first_position_bound(ops, producer_operation(v.origin().producer));
        if let Some(p) = last_use(ops, v.destinations())->Ok_0 {
            let m = choose|m: int| 0 <= m < v.destinations().len() && first_position(ops, consumer_operation(#[trigger] v.destinations()[m].consumer)) == Some(p);
            lemma_first_position_bound(ops, consumer_operation(v.destinations()[m].consumer));
        }
        assert(ends_at_last_use(ops, v, r));
        assert forall|j: int| 0 <= j < ranges.len() implies #[trigger] ends_at_last_use(ops, vals[j].1, ranges[j].1) by {
            if j < d.len() {
                assert(vals[j] == d[j]);
                assert(ranges[j] == prev[j]);
            }
        }
    }
}

/// `r` starts at the position of `v`'s producer and ends one past the
/// latest position among `v`'s uses, or one past its start when `v` has no
/// use.
pub open spec fn ends_at_last_use<G: Gate>(ops: Seq<Operation>, v: Value<G>, r: LiveRange) -> bool {
    &&& first_position(ops, producer_operation(v.origin().producer)) == Some(r.birth)
    &&& v.destinations().len() == 0 ==> r.death == r.birth + 1
    &&& v.destinations().len() > 0 ==> {
        &&& exists|m: int| 0 <= m < v.destinations().len()
            && first_position(ops, consumer_operation(#[trigger] v.destinations()[m].consumer)) == Some((r.death - 1) as usize)
        &&& forall|m: int| 0 <= m < v.destinations().len() ==> (first_position(ops, consumer_operation(#[trigger] v.destinations()[m].consumer)) matches Some(q)
            && q < r.death)
    }
}


/// The id of the `j`-th value of `vals`, in subcircuit `c`.
pub open spec fn id_at<G: Gate>(c: CircuitId, vals: Seq<((usize, usize), Value<G>)>, j: int) -> ValueId {
    ValueId { circuit: c, value: Key::from_view(vals[j].0) }
}

/// The ownership issues name exactly the values that no use moves, as
/// leaked, and the values that more than one use moves, as overconsumed
/// with their number of moving uses; a value moved once has none.
pub proof fn law_issues_name_bad_moves<G: Gate>(c: CircuitId, vals: Seq<((usize, usize), Value<G>)>)
    ensures
        forall|j: int| 0 <= j < vals.len() && move_count(#[trigger] vals[j].1) == 0 ==> issues_of_values(c, vals).contains(
            OwnershipIssue::Leaked { value: id_at(c, vals, j) },
        ),
        forall|j: int| 0 <= j < vals.len() && move_count(#[trigger] vals[j].1) >= 2 ==> issues_of_values(c, vals).contains(
            OwnershipIssue::Overconsumed { value: id_at(c, vals, j), move_count: move_count(vals[j].1) as usize },
        ),
        forall|i: int| 0 <= i < issues_of_values(c, vals).len() ==> match #[trigger] issues_of_values(c, vals)[i] {
            OwnershipIssue::Leaked { value } => exists|j: int| 0 <= j < vals.len() && id_at(c, vals, j) == value && move_count(#[trigger] vals[j].1) == 0,
            OwnershipIssue::Overconsumed { value, move_count: n } => exists|j: int|
                0 <= j < vals.len() && id_at(c, vals, j) == value && move_count(#[trigger] vals[j].1) >= 2 && n == move_count(vals[j].1) as usize,
        },
    decreases vals.len(),
{
    if vals.len() > 0 {
        let d = vals.drop_last();
        law_issues_name_bad_moves(c, d);
        let last = vals.len() - 1;
        let v = vals[last].1;
        let prev = issues_of_values(c, d);
        let mine = issues_of_value(id_at(c, vals, last), v);
        assert(vals.last() == vals[last]);
        assert(issues_of_values(c, vals) == prev + mine);
        let all = issues_of_values(c, vals);
        assert forall|j: int| 0 <= j < d.len() implies vals[j] == d[j] && id_at(c, vals, j) == id_at(c, d, j) by {}
        assert forall|j: int| 0 <= j < vals.len() && move_count(#[trigger] vals[j].1) == 0 implies all.contains(
            OwnershipIssue::Leaked { value: id_at(c, vals, j) },
        ) by {
            if j < d.len() {
                assert(move_count(d[j].1) == 0);
                let i = choose|i: int| 0 <= i < prev.len() && prev[i] == OwnershipIssue::Leaked { value: id_at(c, d, j) };
                assert(all[i] == prev[i]);
            } else {
                assert(all[prev.len() as int] == mine[0]);
            }
        }
        assert forall|j: int| 0 <= j < vals.len() && move_count(#[trigger] vals[j].1) >= 2 implies all.contains(
            OwnershipIssue::Overconsumed { value: id_at(c, vals, j), move_count: move_count(vals[j].1) as usize },
        ) by {
            if j < d.len() {
                assert(move_count(d[j].1) >= 2);
                let i = choose|i: int| 0 <= i < prev.len() && prev[i] == OwnershipIssue::Overconsumed { value: id_at(c, d, j), move_count: move_count(d[j].1) as usize };
                assert(all[i] == prev[i]);
            } else {
                assert(all[prev.len() as int] == mine[0]);
            }
        }
        assert forall|i: int| 0 <= i < all.len() implies match #[trigger] all[i] {
            OwnershipIssue::Leaked { value } => exists|j: int| 0 <= j < vals.len() && id_at(c, vals, j) == value && move_count(#[trigger] vals[j].1) == 0,
            OwnershipIssue::Overconsumed { value, move_count: n } => exists|j: int|
                0 <= j < vals.len() && id_at(c, vals, j) == value && move_count(#[trigger] vals[j].1) >= 2 && n == move_count(vals[j].1) as usize,
        } by {
            if i < prev.len() {
                assert(all[i] == prev[i]);
                match prev[i] {
                    OwnershipIssue::Leaked { value } => {
                        let j = choose|j: int| 0 <= j < d.len() && id_at(c, d, j) == value && move_count(#[trigger] d[j].1) == 0;
                        assert(vals[j] == d[j]);
                    },
                    OwnershipIssue::Overconsumed { value, move_count: n } => {
                        let j = choose|j: int| 0 <= j < d.len() && id_at(c, d, j) == value && move_count(#[trigger] d[j].1) >= 2 && n == move_count(d[j].1) as usize;
                        assert(vals[j] == d[j]);
                    },
                }
            } else {
                assert(all[i] == mine[i - prev.len()]);
                assert(move_count(vals[last].1) == move_count(v));
            }
        }
    }
}

} // verus!
