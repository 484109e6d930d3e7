//! List scheduling over a dependency graph given by node indices.
//!
//! A node becomes ready once every edge into it comes from a node already
//! scheduled; among the ready nodes the one of highest priority is scheduled
//! next, the earliest to become ready among equals. With equal priorities
//! this is Kahn's algorithm with a first-in first-out queue.

use vstd::prelude::*;

use crate::builder::order::{count, lemma_count_all, lemma_count_none, lemma_step, weight, VisitState};

verus! {

/// Every edge names nodes below `n`; the producer may be outside the graph.
pub open spec fn edges_valid(n: int, es: Seq<(Option<usize>, usize)>) -> bool {
    forall|e: int| 0 <= e < es.len() ==> (#[trigger] es[e]).1 < n && (es[e].0 matches Some(p) ==> p < n)
}

/// The edge comes from a node marked done.
pub open spec fn done_by(e: (Option<usize>, usize), done: Seq<bool>) -> bool {
    match e.0 {
        Some(p) => p < done.len() && done[p as int],
        None => false,
    }
}

/// Number of edges into `c` that do not come from a node marked done.
pub open spec fn pending(es: Seq<(Option<usize>, usize)>, c: usize, done: Seq<bool>) -> nat
    decreases es.len(),
{
    if es.len() == 0 {
        0
    } else {
        pending(es.drop_last(), c, done) + if es.last().1 == c && !done_by(es.last(), done) {
            1nat
        } else {
            0nat
        }
    }
}

/// Number of edges from `p` to `c`.
pub open spec fn edges_from_to(es: Seq<(Option<usize>, usize)>, p: usize, c: usize) -> nat
    decreases es.len(),
{
    if es.len() == 0 {
        0
    } else {
        edges_from_to(es.drop_last(), p, c) + if es.last() == (Some(p), c) {
            1nat
        } else {
            0nat
        }
    }
}

/// The nodes marked done in a search state.
pub(crate) open spec fn done_of(state: Seq<VisitState>) -> Seq<bool> {
    state.map_values(|s: VisitState| s == VisitState::Visited)
}

/// Every edge into `x` comes from a node listed in `prefix`.
pub open spec fn inputs_within(es: Seq<(Option<usize>, usize)>, x: usize, prefix: Seq<usize>) -> bool {
    forall|e: int| 0 <= e < es.len() && (#[trigger] es[e]).1 == x ==> (es[e].0 matches Some(p) && prefix.contains(p))
}

/// `order` lists distinct nodes below `n`, each after the nodes its edges
/// come from.
pub open spec fn is_dependency_order(n: int, es: Seq<(Option<usize>, usize)>, order: Seq<usize>) -> bool {
    &&& order.no_duplicates()
    &&& forall|i: int| 0 <= i < order.len() ==> #[trigger] order[i] < n
    &&& forall|i: int| 0 <= i < order.len() ==> inputs_within(es, #[trigger] order[i], order.take(i))
}

/// `order` lists every node below `n` once, each after the nodes its edges
/// come from.
pub open spec fn is_complete_order(n: int, es: Seq<(Option<usize>, usize)>, order: Seq<usize>) -> bool {
    &&& is_dependency_order(n, es, order)
    &&& order.len() == n
    &&& forall|x: int| 0 <= x < n ==> #[trigger] order.contains(x as usize)
}

/// Whenever a node was scheduled, no node that was ready then had a higher
/// priority.
pub open spec fn respects_priority(es: Seq<(Option<usize>, usize)>, prio: Seq<u8>, order: Seq<usize>) -> bool {
    forall|i: int, x: usize|
        0 <= i < order.len() && x < prio.len() && !order.take(i).contains(x) && #[trigger] inputs_within(
            es,
            x,
            order.take(i),
        ) ==> prio[order[i] as int] >= prio[x as int]
}

/// `stuck` lists, in increasing order, exactly the nodes that can never be
/// scheduled: the others can be ordered by their dependencies, and each
/// stuck node has an edge from a stuck node or from outside the graph.
pub open spec fn is_stuck_set(n: int, es: Seq<(Option<usize>, usize)>, stuck: Seq<usize>) -> bool {
    &&& stuck.len() > 0
    &&& forall|k: int| 0 <= k < stuck.len() ==> #[trigger] stuck[k] < n
    &&& forall|k: int, l: int| 0 <= k < l < stuck.len() ==> stuck[k] < stuck[l]
    &&& exists|done: Seq<usize>|
        #![trigger is_dependency_order(n, es, done)]
        is_dependency_order(n, es, done) && forall|x: int|
            0 <= x < n ==> (#[trigger] done.contains(x as usize) <==> !stuck.contains(x as usize))
    &&& forall|k: int| 0 <= k < stuck.len() ==> #[trigger] blocked(es, stuck, stuck[k])
}

/// Some edge into `s` comes from a node of `stuck` or from outside the graph.
pub open spec fn blocked(es: Seq<(Option<usize>, usize)>, stuck: Seq<usize>, s: usize) -> bool {
    exists|e: int| 0 <= e < es.len() && (#[trigger] es[e]).1 == s && (es[e].0 matches Some(p) ==> stuck.contains(p))
}

proof fn lemma_pending_mark(es: Seq<(Option<usize>, usize)>, c: usize, done: Seq<bool>, p: usize)
    requires
        p < done.len(),
        !done[p as int],
    ensures
        pending(es, c, done.update(p as int, true)) + edges_from_to(es, p, c) == pending(es, c, done),
    decreases es.len(),
{
    if es.len() > 0 {
        lemma_pending_mark(es.drop_last(), c, done, p);
    }
}

proof fn lemma_pending_zero(es: Seq<(Option<usize>, usize)>, c: usize, done: Seq<bool>)
    ensures
        pending(es, c, done) == 0 <==> forall|e: int| 0 <= e < es.len() && (#[trigger] es[e]).1 == c ==> done_by(es[e], done),
    decreases es.len(),
{
    if es.len() > 0 {
        let d = es.drop_last();
        lemma_pending_zero(d, c, done);
        if pending(es, c, done) == 0 {
            assert forall|e: int| 0 <= e < es.len() && (#[trigger] es[e]).1 == c implies done_by(es[e], done) by {
                if e < es.len() - 1 {
                    assert(d[e] == es[e]);
                }
            }
        }
        if forall|e: int| 0 <= e < es.len() && (#[trigger] es[e]).1 == c ==> done_by(es[e], done) {
            assert forall|e: int| 0 <= e < d.len() && (#[trigger] d[e]).1 == c implies done_by(d[e], done) by {
                assert(es[e] == d[e]);
            }
            assert(es[es.len() - 1] == es.last());
        }
    }
}

proof fn lemma_edges_prefix(es: Seq<(Option<usize>, usize)>, p: usize, c: usize, k: int)
    requires
        0 <= k < es.len(),
    ensures
        edges_from_to(es.take(k + 1), p, c) == edges_from_to(es.take(k), p, c) + if es[k] == (Some(p), c) {
            1nat
        } else {
            0nat
        },
{
    assert(es.take(k + 1).drop_last() =~= es.take(k));
}

proof fn lemma_edges_prefix_le(es: Seq<(Option<usize>, usize)>, p: usize, c: usize, k: int)
    requires
        0 <= k <= es.len(),
    ensures
        edges_from_to(es.take(k), p, c) <= edges_from_to(es, p, c),
    decreases es.len() - k,
{
    if k < es.len() {
        lemma_edges_prefix(es, p, c, k);
        lemma_edges_prefix_le(es, p, c, k + 1);
    } else {
        assert(es.take(k) =~= es);
    }
}

proof fn lemma_pending_prefix(es: Seq<(Option<usize>, usize)>, c: usize, done: Seq<bool>, k: int)
    requires
        0 <= k < es.len(),
    ensures
        pending(es.take(k + 1), c, done) == pending(es.take(k), c, done) + if es[k].1 == c && !done_by(es[k], done) {
            1nat
        } else {
            0nat
        },
{
    assert(es.take(k + 1).drop_last() =~= es.take(k));
}

proof fn lemma_count_le(s: Seq<VisitState>, x: VisitState)
    ensures
        count(s, x) <= s.len(),
        count(s, x) == s.len() ==> forall|i: int| 0 <= i < s.len() ==> s[i] == x,
    decreases s.len(),
{
    if s.len() > 0 {
        lemma_count_le(s.drop_last(), x);
        if count(s, x) == s.len() {
            assert forall|i: int| 0 <= i < s.len() implies s[i] == x by {
                if i < s.len() - 1 {
                    assert(s.drop_last()[i] == s[i]);
                }
            }
        }
    }
}

/// The search invariant of `list_schedule`'s main loop.
pub(crate) open spec fn schedule_inv(
    n: int,
    es: Seq<(Option<usize>, usize)>,
    prio: Seq<u8>,
    state: Seq<VisitState>,
    deg: Seq<usize>,
    ready: Seq<(usize, usize)>,
    order: Seq<usize>,
) -> bool {
    &&& state.len() == n
    &&& deg.len() == n
    &&& forall|c: int| 0 <= c < n ==> #[trigger] deg[c] == pending(es, c as usize, done_of(state))
    &&& forall|c: int|
        0 <= c < n && #[trigger] state[c] != VisitState::Visited ==> (state[c] == VisitState::Visiting <==> deg[c] == 0)
    &&& forall|k: int| 0 <= k < ready.len() ==> (#[trigger] ready[k]).0 < n && state[ready[k].0 as int] == VisitState::Visiting
    &&& forall|c: int| 0 <= c < n && #[trigger] state[c] == VisitState::Visiting ==> exists|k: int| 0 <= k < ready.len() && ready[k].0 == c
    &&& forall|k: int, l: int| 0 <= k < l < ready.len() ==> ready[k].0 != ready[l].0
    &&& order.len() == count(state, VisitState::Visited)
    &&& is_dependency_order(n, es, order)
    &&& forall|i: int| 0 <= i < order.len() ==> state[#[trigger] order[i] as int] == VisitState::Visited
    &&& forall|c: int| 0 <= c < n && #[trigger] state[c] == VisitState::Visited ==> order.contains(c as usize)
    &&& respects_priority(es, prio, order)
}

/// Schedules the nodes `0..n` of the graph with edges `es` by priority.
///
/// Returns the schedule when every node gets scheduled, and otherwise the
/// nodes that never become ready, in increasing order.
#[verifier::rlimit(80)]
#[verifier::spinoff_prover]
pub(crate) fn list_schedule(n: usize, es: &Vec<(Option<usize>, usize)>, prio: &Vec<u8>) -> (r: Result<Vec<usize>, Vec<usize>>)
    requires
        edges_valid(n as int, es@),
        prio@.len() == n,
    ensures
        r matches Ok(order) ==> is_complete_order(n as int, es@, order@) && respects_priority(es@, prio@, order@),
        r matches Err(stuck) ==> is_stuck_set(n as int, es@, stuck@),
{
    let mut state: Vec<VisitState> = Vec::with_capacity(n);
    let mut deg: Vec<usize> = Vec::with_capacity(n);
    let mut i: usize = 0;
    while i < n
        invariant
            i <= n,
            state@.len() == i,
            deg@.len() == i,
            forall|c: int| 0 <= c < i ==> #[trigger] state@[c] == VisitState::Unvisited,
            forall|c: int| 0 <= c < i ==> #[trigger] deg@[c] == 0,
        decreases n - i,
    {
        state.push(VisitState::Unvisited);
        deg.push(0);
        i = i + 1;
    }
    let ghost none_done = done_of(state@);
    proof {
        assert forall|c: int| 0 <= c < n implies #[trigger] deg@[c] == pending(es@.take(0), c as usize, none_done) by {
            assert(es@.take(0) =~= Seq::<(Option<usize>, usize)>::empty());
        }
    }
    let mut e: usize = 0;
    while e < es.len()
        invariant
            edges_valid(n as int, es@),
            state@.len() == n,
            deg@.len() == n,
            none_done == done_of(state@),
            forall|c: int| 0 <= c < n ==> #[trigger] state@[c] == VisitState::Unvisited,
            e <= es@.len(),
            forall|c: int| 0 <= c < n ==> #[trigger] deg@[c] == pending(es@.take(e as int), c as usize, none_done),
            forall|c: int| 0 <= c < n ==> #[trigger] deg@[c] <= e,
        decreases es@.len() - e,
    {
        let c = es[e].1;
        proof {
            assert forall|x: int| 0 <= x < n implies #[trigger] deg@[x] + (if x == c { 1int } else { 0int }) == pending(es@.take(e as int + 1), x as usize, none_done) by {
                lemma_pending_prefix(es@, x as usize, none_done, e as int);
                assert(!done_by(es@[e as int], none_done));
            }
        }
        deg.set(c, deg[c] + 1);
        e = e + 1;
    }
    proof {
        assert(es@.take(es@.len() as int) =~= es@);
    }
    let mut ready: Vec<(usize, usize)> = Vec::new();
    let mut order: Vec<usize> = Vec::with_capacity(n);
    proof {
        lemma_count_none(state@, VisitState::Visited);
        assert(order@ =~= Seq::<usize>::empty());
    }
    let mut c: usize = 0;
    while c < n
        invariant
            edges_valid(n as int, es@),
            c <= n,
            state@.len() == n,
            deg@.len() == n,
            order@.len() == 0,
            forall|x: int| 0 <= x < n ==> #[trigger] state@[x] != VisitState::Visited,
            done_of(state@) == none_done,
            forall|x: int| 0 <= x < n ==> #[trigger] deg@[x] == pending(es@, x as usize, none_done),
            forall|x: int| 0 <= x < c ==> (#[trigger] state@[x] == VisitState::Visiting <==> deg@[x] == 0),
            forall|x: int| c <= x < n ==> #[trigger] state@[x] == VisitState::Unvisited,
            forall|k: int| 0 <= k < ready@.len() ==> (#[trigger] ready@[k]).0 < c && state@[ready@[k].0 as int] == VisitState::Visiting,
            forall|x: int| 0 <= x < n && #[trigger] state@[x] == VisitState::Visiting ==> exists|k: int| 0 <= k < ready@.len() && ready@[k].0 == x,
            forall|k: int, l: int| 0 <= k < l < ready@.len() ==> ready@[k].0 < ready@[l].0,
            count(state@, VisitState::Visited) == 0,
        decreases n - c,
    {
        if deg[c] == 0 {
            proof {
                lemma_step(state@, c as int, VisitState::Visiting);
            }
            let ghost before = ready@;
            state.set(c, VisitState::Visiting);
            ready.push((c, 0));
            proof {
                assert(done_of(state@) =~= none_done);
                assert forall|x: int| 0 <= x < n && #[trigger] state@[x] == VisitState::Visiting implies exists|k: int|
                    0 <= k < ready@.len() && ready@[k].0 == x by {
                    if x == c {
                        assert(ready@[ready@.len() - 1].0 == c);
                    } else {
                        let k = choose|k: int| 0 <= k < before.len() && before[k].0 == x;
                        assert(ready@[k] == before[k]);
                    }
                }
            }
        }
        c = c + 1;
    }
    proof {
        assert forall|i: int, x: usize|
            0 <= i < order@.len() && x < prio@.len() && !order@.take(i).contains(x) && #[trigger] inputs_within(
                es@,
                x,
                order@.take(i),
            ) implies prio@[order@[i] as int] >= prio@[x as int] by {}
        assert(is_dependency_order(n as int, es@, order@));
    }
    while ready.len() > 0
        invariant
            edges_valid(n as int, es@),
            prio@.len() == n,
            schedule_inv(n as int, es@, prio@, state@, deg@, ready@, order@),
        decreases weight(state@),
    {
        // pick the ready node of highest priority, the earliest among equals
        let mut best: usize = 0;
        let mut k: usize = 1;
        while k < ready.len()
            invariant
                prio@.len() == n,
                forall|j: int| 0 <= j < ready@.len() ==> (#[trigger] ready@[j]).0 < n,
                1 <= k <= ready@.len(),
                best < k,
                forall|j: int| 0 <= j < k ==> prio@[(#[trigger] ready@[j]).0 as int] <= prio@[ready@[best as int].0 as int],
            decreases ready@.len() - k,
        {
            if prio[ready[k].0] > prio[ready[best].0] {
                best = k;
            }
            k = k + 1;
        }
        let ghost old_state = state@;
        let ghost old_ready = ready@;
        let ghost old_order = order@;
        let ghost old_deg = deg@;
        let (p, _) = ready.remove(best);
        proof {
            lemma_step(state@, p as int, VisitState::Visited);
            // every node ready now is no more urgent than p
            assert forall|x: usize|
                x < prio@.len() && !old_order.contains(x) && #[trigger] inputs_within(es@, x, old_order) implies prio@[p as int] >= prio@[x as int] by {
                assert(old_state[x as int] != VisitState::Visited);
                assert forall|e: int| 0 <= e < es@.len() && (#[trigger] es@[e]).1 == x implies done_by(es@[e], done_of(old_state)) by {
                    let q = es@[e].0->0;
                    let j = choose|j: int| 0 <= j < old_order.len() && old_order[j] == q;
                    assert(old_state[old_order[j] as int] == VisitState::Visited);
                }
                lemma_pending_zero(es@, x, done_of(old_state));
                assert(old_deg[x as int] == 0);
                let j = choose|j: int| 0 <= j < old_ready.len() && old_ready[j].0 == x;
                assert(prio@[old_ready[j].0 as int] <= prio@[old_ready[best as int].0 as int]);
            }
        }
        state.set(p, VisitState::Visited);
        order.push(p);
        let ghost dn = done_of(state@);
        proof {
            assert(dn =~= done_of(old_state).update(p as int, true));
            assert forall|x: int| 0 <= x < n implies pending(es@, x as usize, dn) + edges_from_to(es@, p, x as usize) == #[trigger] old_deg[x] by {
                lemma_pending_mark(es@, x as usize, done_of(old_state), p);
            }
            assert(old_state[p as int] == VisitState::Visiting);
            assert forall|i: int| 0 <= i < order@.len() implies inputs_within(es@, #[trigger] order@[i], order@.take(i)) by {
                if i < old_order.len() {
                    assert(order@.take(i) =~= old_order.take(i));
                } else {
                    assert(order@.take(i) =~= old_order);
                    assert forall|e: int| 0 <= e < es@.len() && (#[trigger] es@[e]).1 == p implies (es@[e].0 matches Some(q) && old_order.contains(q)) by {
                        lemma_pending_zero(es@, p, done_of(old_state));
                        assert(done_by(es@[e], done_of(old_state)));
                        let q = es@[e].0->0;
                        assert(old_state[q as int] == VisitState::Visited);
                    }
                }
            }
            assert forall|i: int, x: usize|
                0 <= i < order@.len() && x < prio@.len() && !order@.take(i).contains(x) && #[trigger] inputs_within(
                    es@,
                    x,
                    order@.take(i),
                ) implies prio@[order@[i] as int] >= prio@[x as int] by {
                if i < old_order.len() {
                    assert(order@.take(i) =~= old_order.take(i));
                } else {
                    assert(order@.take(i) =~= old_order);
                }
            }
            assert(!old_order.contains(p));
            assert(es@.take(0) =~= Seq::<(Option<usize>, usize)>::empty());
            assert forall|x: int| 0 <= x < n implies #[trigger] deg@[x] + edges_from_to(es@.take(0), p, x as usize)
                == pending(es@, x as usize, dn) + edges_from_to(es@, p, x as usize) by {
                assert(deg@[x] == old_deg[x]);
            }
            assert forall|x: int|
                0 <= x < n && #[trigger] state@[x] != VisitState::Visited implies (state@[x] == VisitState::Visiting <==> deg@[x] == 0) by {
                assert(x != p);
                assert(state@[x] == old_state[x]);
            }
            assert forall|k: int| 0 <= k < ready@.len() implies (#[trigger] ready@[k]).0 < n && state@[ready@[k].0 as int] == VisitState::Visiting by {
                assert(ready@[k] == if k < best { old_ready[k] } else { old_ready[k + 1] });
                if ready@[k].0 == p {
                    assert(old_ready[best as int].0 == p);
                }
            }
            assert forall|x: int| 0 <= x < n && #[trigger] state@[x] == VisitState::Visiting implies exists|k: int| 0 <= k < ready@.len() && ready@[k].0 == x by {
                assert(old_state[x] == VisitState::Visiting);
                let j = choose|j: int| 0 <= j < old_ready.len() && old_ready[j].0 == x;
                assert(j != best);
                if j < best {
                    assert(ready@[j] == old_ready[j]);
                } else {
                    assert(ready@[j - 1] == old_ready[j]);
                }
            }
            assert forall|k: int, l: int| 0 <= k < l < ready@.len() implies ready@[k].0 != ready@[l].0 by {
                let k2 = if k < best { k } else { k + 1 };
                let l2 = if l < best { l } else { l + 1 };
                assert(ready@[k] == old_ready[k2]);
                assert(ready@[l] == old_ready[l2]);
            }
            assert forall|i: int| 0 <= i < order@.len() implies state@[#[trigger] order@[i] as int] == VisitState::Visited by {
                if i < old_order.len() {
                    assert(order@[i] == old_order[i]);
                }
            }
            assert forall|x: int| 0 <= x < n && #[trigger] state@[x] == VisitState::Visited implies order@.contains(x as usize) by {
                if x == p {
                    assert(order@[order@.len() - 1] == p);
                } else {
                    assert(old_state[x] == VisitState::Visited);
                    let j = choose|j: int| 0 <= j < old_order.len() && old_order[j] == x as usize;
                    assert(order@[j] == old_order[j]);
                }
            }
        }
        let mut e: usize = 0;
        while e < es.len()
            invariant
                edges_valid(n as int, es@),
                prio@.len() == n,
                p < n,
                order@.len() > 0,
                order@[order@.len() - 1] == p,
                dn == done_of(state@),
                dn[p as int],
                state@.len() == n,
                deg@.len() == n,
                e <= es@.len(),
                forall|x: int| 0 <= x < n ==> #[trigger] deg@[x] + edges_from_to(es@.take(e as int), p, x as usize)
                    == pending(es@, x as usize, dn) + edges_from_to(es@, p, x as usize),
                forall|x: int|
                    0 <= x < n && #[trigger] state@[x] != VisitState::Visited ==> (state@[x] == VisitState::Visiting <==> deg@[x] == 0),
                forall|k: int| 0 <= k < ready@.len() ==> (#[trigger] ready@[k]).0 < n && state@[ready@[k].0 as int] == VisitState::Visiting,
                forall|x: int| 0 <= x < n && #[trigger] state@[x] == VisitState::Visiting ==> exists|k: int| 0 <= k < ready@.len() && ready@[k].0 == x,
                forall|k: int, l: int| 0 <= k < l < ready@.len() ==> ready@[k].0 != ready@[l].0,
                order@.len() == count(state@, VisitState::Visited),
                is_dependency_order(n as int, es@, order@),
                forall|i: int| 0 <= i < order@.len() ==> state@[#[trigger] order@[i] as int] == VisitState::Visited,
                forall|x: int| 0 <= x < n && #[trigger] state@[x] == VisitState::Visited ==> order@.contains(x as usize),
                respects_priority(es@, prio@, order@),
                weight(state@) < weight(old_state),
            decreases es@.len() - e,
        {
            proof {
                assert forall|x: int| 0 <= x < n implies #[trigger] deg@[x] + edges_from_to(es@.take(e as int + 1), p, x as usize)
                    == pending(es@, x as usize, dn) + edges_from_to(es@, p, x as usize) + (if es@[e as int] == (Some(p), x as usize) { 1int } else { 0int }) by {
                    lemma_edges_prefix(es@, p, x as usize, e as int);
                }
            }
            let (src, c) = es[e];
            let from_p = match src {
                Some(q) => q == p,
                None => false,
            };
            if from_p {
                proof {
                    assert(es@[e as int] == (Some(p), c));
                    lemma_edges_prefix_le(es@, p, c, e as int + 1);
                    assert(deg@[c as int] >= 1);
                    // a scheduled node has no edge from a node scheduled after it
                    if state@[c as int] == VisitState::Visited {
                        let i = choose|i: int| 0 <= i < order@.len() && order@[i] == c;
                        assert(inputs_within(es@, order@[i], order@.take(i)));
                        assert(order@.take(i).contains(p));
                        let j = choose|j: int| 0 <= j < i && order@.take(i)[j] == p;
                        assert(order@[j] == p);
                        assert(order@[order@.len() - 1] == p);
                    }
                }
                let d = deg[c] - 1;
                deg.set(c, d);
                if d == 0 {
                    let ghost before_state = state@;
                    let ghost before_ready = ready@;
                    proof {
                        lemma_step(state@, c as int, VisitState::Visiting);
                    }
                    state.set(c, VisitState::Visiting);
                    ready.push((c, 0));
                    proof {
                        assert(done_of(state@) =~= dn);
                        assert forall|x: int| 0 <= x < n && #[trigger] state@[x] == VisitState::Visiting implies exists|k: int|
                            0 <= k < ready@.len() && ready@[k].0 == x by {
                            if x == c {
                                assert(ready@[ready@.len() - 1].0 == c);
                            } else {
                                let k = choose|k: int| 0 <= k < before_ready.len() && before_ready[k].0 == x;
                                assert(ready@[k] == before_ready[k]);
                            }
                        }
                        assert forall|i: int| 0 <= i < order@.len() implies state@[#[trigger] order@[i] as int] == VisitState::Visited by {
                            assert(before_state[order@[i] as int] == VisitState::Visited);
                        }
                    }
                }
            }
            e = e + 1;
        }
        proof {
            assert(es@.take(es@.len() as int) =~= es@);
        }
    }
    if order.len() == n {
        proof {
            lemma_count_le(state@, VisitState::Visited);
            assert forall|x: int| 0 <= x < n implies #[trigger] order@.contains(x as usize) by {
                assert(state@[x] == VisitState::Visited);
            }
        }
        return Ok(order);
    }
    let mut stuck: Vec<usize> = Vec::new();
    let mut x: usize = 0;
    while x < n
        invariant
            edges_valid(n as int, es@),
            schedule_inv(n as int, es@, prio@, state@, deg@, ready@, order@),
            ready@.len() == 0,
            x <= n,
            forall|k: int| 0 <= k < stuck@.len() ==> (#[trigger] stuck@[k]) < x,
            forall|k: int, l: int| 0 <= k < l < stuck@.len() ==> stuck@[k] < stuck@[l],
            forall|k: int| 0 <= k < stuck@.len() ==> state@[(#[trigger] stuck@[k]) as int] != VisitState::Visited,
            forall|y: int| 0 <= y < x && #[trigger] state@[y] != VisitState::Visited ==> stuck@.contains(y as usize),
        decreases n - x,
    {
        if state[x] != VisitState::Visited {
            let ghost before = stuck@;
            stuck.push(x);
            proof {
                assert forall|y: int| 0 <= y < x + 1 && #[trigger] state@[y] != VisitState::Visited implies stuck@.contains(y as usize) by {
                    if y == x {
                        assert(stuck@[stuck@.len() - 1] == x);
                    } else {
                        let k = choose|k: int| 0 <= k < before.len() && before[k] == y as usize;
                        assert(stuck@[k] == before[k]);
                    }
                }
            }
        }
        x = x + 1;
    }
    proof {
        let dn = done_of(state@);
        // some node is left
        if stuck@.len() == 0 {
            assert forall|i: int| 0 <= i < state@.len() implies state@[i] == VisitState::Visited by {
                if state@[i] != VisitState::Visited {
                    assert(stuck@.contains(i as usize));
                }
            }
            lemma_count_all(state@, VisitState::Visited);
        }
        assert forall|y: int| 0 <= y < n implies (#[trigger] order@.contains(y as usize) <==> !stuck@.contains(y as usize)) by {
            if order@.contains(y as usize) {
                let j = choose|j: int| 0 <= j < order@.len() && order@[j] == y as usize;
                assert(state@[order@[j] as int] == VisitState::Visited);
                if stuck@.contains(y as usize) {
                    let k = choose|k: int| 0 <= k < stuck@.len() && stuck@[k] == y as usize;
                }
            } else {
                assert(state@[y] != VisitState::Visited);
            }
        }
        assert forall|k: int| 0 <= k < stuck@.len() implies #[trigger] blocked(es@, stuck@, stuck@[k]) by {
            let s = stuck@[k];
            assert(state@[s as int] != VisitState::Visited);
            if state@[s as int] == VisitState::Visiting {
                let j = choose|j: int| 0 <= j < ready@.len() && ready@[j].0 == s;
            }
            assert(deg@[s as int] != 0);
            lemma_pending_zero(es@, s, dn);
            let e = choose|e: int| 0 <= e < es@.len() && (#[trigger] es@[e]).1 == s && !done_by(es@[e], dn);
            if es@[e].0 is Some {
                let q = es@[e].0->0;
                assert(state@[q as int] != VisitState::Visited);
                assert(stuck@.contains(q));
            }
        }
        assert(is_dependency_order(n as int, es@, order@));
    }
    Err(stuck)
}

} // verus!
