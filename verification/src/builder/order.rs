//! Depth-first search over a builder's gate graph: the topological order that
//! `build` numbers wires by, and the cycle check that comes with it.

use vstd::prelude::*;

use crate::builder::entry::Source;
use crate::builder::graph::{feeds, is_gate_path, is_topological, lemma_path_prepend, on_cycle};
use crate::builder::handles::{Error, Gate, Node};
use crate::builder::Builder;

verus! {

/// Progress of a gate through the search.
#[derive(Clone, Copy, PartialEq, Eq, Structural)]
pub(crate) enum VisitState {
    Unvisited,
    Visiting,
    Visited,
}

/// Number of gates in state `x`.
pub(crate) open spec fn count(s: Seq<VisitState>, x: VisitState) -> nat
    decreases s.len(),
{
    if s.len() == 0 {
        0
    } else {
        count(s.drop_last(), x) + if s.last() == x { 1nat } else { 0nat }
    }
}

/// Work left on all gates: two steps per unvisited gate, one per gate being
/// visited.
pub(crate) open spec fn weight(s: Seq<VisitState>) -> nat {
    2 * count(s, VisitState::Unvisited) + count(s, VisitState::Visiting)
}

proof fn lemma_count_update(s: Seq<VisitState>, i: int, y: VisitState, x: VisitState)
    requires
        0 <= i < s.len(),
    ensures
        count(s.update(i, y), x) + (if s[i] == x { 1int } else { 0int })
            == count(s, x) + (if y == x { 1int } else { 0int }),
    decreases s.len(),
{
    if i == s.len() - 1 {
        assert(s.update(i, y).drop_last() =~= s.drop_last());
    } else {
        lemma_count_update(s.drop_last(), i, y, x);
        assert(s.update(i, y).drop_last() =~= s.drop_last().update(i, y));
    }
}

pub(crate) proof fn lemma_count_all(s: Seq<VisitState>, x: VisitState)
    requires
        forall|i: int| 0 <= i < s.len() ==> s[i] == x,
    ensures
        count(s, x) == s.len(),
    decreases s.len(),
{
    if s.len() > 0 {
        lemma_count_all(s.drop_last(), x);
    }
}

pub(crate) proof fn lemma_count_none(s: Seq<VisitState>, x: VisitState)
    requires
        forall|i: int| 0 <= i < s.len() ==> s[i] != x,
    ensures
        count(s, x) == 0,
    decreases s.len(),
{
    if s.len() > 0 {
        lemma_count_none(s.drop_last(), x);
    }
}

pub(crate) proof fn lemma_step(s: Seq<VisitState>, i: int, y: VisitState)
    requires
        0 <= i < s.len(),
    ensures
        count(s.update(i, y), VisitState::Unvisited) + (if s[i] == VisitState::Unvisited { 1int } else { 0int })
            == count(s, VisitState::Unvisited) + (if y == VisitState::Unvisited { 1int } else { 0int }),
        count(s.update(i, y), VisitState::Visiting) + (if s[i] == VisitState::Visiting { 1int } else { 0int })
            == count(s, VisitState::Visiting) + (if y == VisitState::Visiting { 1int } else { 0int }),
        count(s.update(i, y), VisitState::Visited) + (if s[i] == VisitState::Visited { 1int } else { 0int })
            == count(s, VisitState::Visited) + (if y == VisitState::Visited { 1int } else { 0int }),
{
    lemma_count_update(s, i, y, VisitState::Unvisited);
    lemma_count_update(s, i, y, VisitState::Visiting);
    lemma_count_update(s, i, y, VisitState::Visited);
}

/// Every search state the loop below keeps: `order` holds exactly the
/// finished gates, each after the gates feeding it.
pub(crate) open spec fn order_inv(srcs: Seq<Seq<Source>>, n: int, state: Seq<VisitState>, order: Seq<usize>) -> bool {
    &&& order.len() == count(state, VisitState::Visited)
    &&& order.no_duplicates()
    &&& forall|i: int| 0 <= i < order.len() ==> #[trigger] order[i] < n
    &&& forall|i: int| 0 <= i < order.len() ==> state[#[trigger] order[i] as int] == VisitState::Visited
    &&& forall|g: int| 0 <= g < n && #[trigger] state[g] == VisitState::Visited ==> order.contains(g as usize)
    &&& forall|i: int, m: int|
        0 <= i < order.len() && 0 <= m < srcs[order[i] as int].len()
            && (#[trigger] srcs[order[i] as int][m]) is Gate ==> exists|j: int|
            0 <= j < i && order[j] == (srcs[order[i] as int][m]->Gate_0).0
}

/// The stack discipline of the search: each gate being visited sits at its
/// mark, with no copy of it above, and each gate feeding it is finished or
/// waits above its mark.
pub(crate) open spec fn stack_inv(
    srcs: Seq<Seq<Source>>,
    n: int,
    state: Seq<VisitState>,
    stack: Seq<usize>,
    mark: Seq<int>,
) -> bool {
    &&& mark.len() == n
    &&& forall|k: int| 0 <= k < stack.len() ==> #[trigger] stack[k] < n
    &&& forall|v: int| 0 <= v < n && #[trigger] state[v] == VisitState::Visiting ==> {
        &&& 0 <= mark[v] < stack.len()
        &&& stack[mark[v]] == v
        &&& forall|k: int| mark[v] < k < stack.len() ==> stack[k] != v
    }
    &&& forall|v: int, m: int|
        0 <= v < n && state[v] == VisitState::Visiting && 0 <= m < srcs[v].len()
            && (#[trigger] srcs[v][m]) is Gate ==> {
            let s = (srcs[v][m]->Gate_0).0 as int;
            state[s] == VisitState::Visited || exists|k: int| mark[v] < k < stack.len() && stack[k] == s
        }
}

/// A chain of connections leads from gate `w` to gate `v`.
pub(crate) open spec fn leads_to(srcs: Seq<Seq<Source>>, n: int, w: int, v: int) -> bool {
    exists|p: Seq<usize>| #[trigger] is_gate_path(srcs, n, p) && p[0] == w && p.last() == v
}

/// The gates being visited form one chain: each entry of the stack above
/// the bottom was pushed by a gate being visited lower down, which it feeds,
/// with no gate being visited in between; and a chain of connections leads
/// from each gate being visited to every one below it.
pub(crate) open spec fn chain_inv(
    srcs: Seq<Seq<Source>>,
    n: int,
    state: Seq<VisitState>,
    stack: Seq<usize>,
    mark: Seq<int>,
    pushed_by: Seq<int>,
) -> bool {
    &&& pushed_by.len() == stack.len()
    &&& forall|k: int| 1 <= k < stack.len() ==> {
        let p = #[trigger] pushed_by[k];
        &&& 0 <= p < k
        &&& state[stack[p] as int] == VisitState::Visiting
        &&& mark[stack[p] as int] == p
        &&& feeds(srcs, stack[k] as int, stack[p] as int)
    }
    &&& forall|k: int, v: int|
        1 <= k < stack.len() && 0 <= v < n && #[trigger] state[v] == VisitState::Visiting ==> !(#[trigger] pushed_by[k] < mark[v] < k)
    &&& forall|v: int, w: int|
        0 <= v < n && 0 <= w < n && #[trigger] state[v] == VisitState::Visiting && #[trigger] state[w] == VisitState::Visiting
            && mark[v] < mark[w] ==> leads_to(srcs, n, w, v)
}

/// Once the top of the stack starts being visited, the gates being
/// visited still form one chain.
proof fn lemma_chain_extend(
    srcs: Seq<Seq<Source>>,
    n: int,
    old_state: Seq<VisitState>,
    state: Seq<VisitState>,
    stack: Seq<usize>,
    old_mark: Seq<int>,
    mark: Seq<int>,
    pushed_by: Seq<int>,
    g: int,
)
    requires
        0 <= g < n,
        stack.len() > 0,
        stack.last() == g,
        old_state.len() == n,
        old_state[g] == VisitState::Unvisited,
        state == old_state.update(g, VisitState::Visiting),
        mark == old_mark.update(g, stack.len() - 1),
        stack_inv(srcs, n, old_state, stack, old_mark),
        chain_inv(srcs, n, old_state, stack, old_mark, pushed_by),
        stack.len() == 1 ==> forall|v: int| 0 <= v < n ==> old_state[v] != VisitState::Visiting,
    ensures
        chain_inv(srcs, n, state, stack, mark, pushed_by),
        forall|v: int| 0 <= v < n && #[trigger] state[v] == VisitState::Visiting ==> mark[v] <= stack.len() - 1,
{
    let t = stack.len() - 1;
    assert forall|v: int| 0 <= v < n && #[trigger] state[v] == VisitState::Visiting implies mark[v] <= t by {
        if v != g {
            assert(old_state[v] == VisitState::Visiting);
        }
    }
    assert forall|k: int| 1 <= k < stack.len() implies {
        let p = #[trigger] pushed_by[k];
        &&& 0 <= p < k
        &&& state[stack[p] as int] == VisitState::Visiting
        &&& mark[stack[p] as int] == p
        &&& feeds(srcs, stack[k] as int, stack[p] as int)
    } by {
        let p = pushed_by[k];
        assert(old_state[stack[p] as int] == VisitState::Visiting);
        assert(stack[p] as int != g);
    }
    assert forall|k: int, v: int|
        1 <= k < stack.len() && 0 <= v < n && #[trigger] state[v] == VisitState::Visiting implies !(#[trigger] pushed_by[k] < mark[v] < k) by {
        if v != g {
            assert(old_state[v] == VisitState::Visiting);
        }
    }
    assert forall|v: int, w: int|
        0 <= v < n && 0 <= w < n && #[trigger] state[v] == VisitState::Visiting && #[trigger] state[w] == VisitState::Visiting
            && mark[v] < mark[w] implies leads_to(srcs, n, w, v) by {
        if v != g && w != g {
            assert(old_state[v] == VisitState::Visiting && old_state[w] == VisitState::Visiting);
        } else if v == g {
            assert(old_state[w] == VisitState::Visiting);
            assert(old_mark[w] < stack.len());
        } else {
            // w starts its visit now; v is visited lower down
            assert(old_state[v] == VisitState::Visiting);
            if t == 0 {
                assert(old_mark[v] < stack.len());
            } else {
                let p = pushed_by[t];
                let y = stack[p] as int;
                assert(old_state[y] == VisitState::Visiting);
                assert(old_mark[y] == p);
                assert(feeds(srcs, g, y));
                assert(!(p < old_mark[v] < t));
                assert(stack[old_mark[v]] == v);
                if old_mark[v] == p {
                    let q = seq![g as usize, y as usize];
                    assert(is_gate_path(srcs, n, q));
                } else {
                    assert(old_mark[v] < old_mark[y]);
                    assert(leads_to(srcs, n, y, v));
                    let q = choose|q: Seq<usize>| #[trigger] is_gate_path(srcs, n, q) && q[0] == y && q.last() == v;
                    lemma_path_prepend(srcs, n, g as usize, q);
                    assert(is_gate_path(srcs, n, seq![g as usize] + q));
                }
            }
        }
    }
}

/// A gate being visited that feeds the one whose visit has just started
/// closes a cycle.
proof fn lemma_cycle_found(
    srcs: Seq<Seq<Source>>,
    n: int,
    state: Seq<VisitState>,
    stack: Seq<usize>,
    mark: Seq<int>,
    pushed_by: Seq<int>,
    g: int,
    s: int,
)
    requires
        0 <= g < n,
        0 <= s < n,
        stack.len() > 0,
        stack.last() == g,
        state[g] == VisitState::Visiting,
        state[s] == VisitState::Visiting,
        mark[g] == stack.len() - 1,
        forall|v: int| 0 <= v < n && #[trigger] state[v] == VisitState::Visiting ==> 0 <= mark[v] < stack.len() && stack[mark[v]] == v,
        chain_inv(srcs, n, state, stack, mark, pushed_by),
        feeds(srcs, s, g),
    ensures
        on_cycle(srcs, n, s),
{
    if s == g {
        let q = seq![g as usize, g as usize];
        assert(is_gate_path(srcs, n, q));
    } else {
        assert(stack[mark[s]] == s);
        assert(mark[s] < mark[g]);
        assert(leads_to(srcs, n, g, s));
        let q = choose|q: Seq<usize>| #[trigger] is_gate_path(srcs, n, q) && q[0] == g && q.last() == s;
        lemma_path_prepend(srcs, n, s as usize, q);
        assert(is_gate_path(srcs, n, seq![s as usize] + q));
    }
}

impl<T: Gate> Builder<T> {
    /// Depth-first search from each gate in index order, following each
    /// gate's sources; a gate is finished once all gates feeding it are.
    ///
    /// Returns the gates in the order they finish, which lists each gate
    /// after the gates feeding it. Meeting a gate that is being visited
    /// reports `CycleDetected` with that gate; a finished gate met again on
    /// top of the stack, pushed twice before its visit, is simply dropped.
    #[verifier::rlimit(60)]
    #[verifier::spinoff_prover]
    pub(crate) fn depth_first_order(&self) -> (r: Result<Vec<usize>, Error>)
        requires
            self.wf(),
        ensures
            r matches Ok(order) ==> is_topological(self.sources(), self.gates().len() as int, order@),
            r matches Err(e) ==> match e {
                Error::CycleDetected(g) => g.0 < self.gates().len() && on_cycle(self.sources(), self.gates().len() as int, g.0 as int),
                _ => false,
            },
    {
        let n = self.gate_entries.len();
        let ghost srcs = self.sources();
        let mut state: Vec<VisitState> = Vec::with_capacity(n);
        let mut i: usize = 0;
        while i < n
            invariant
                i <= n,
                state@.len() == i,
                forall|v: int| 0 <= v < i ==> #[trigger] state@[v] == VisitState::Unvisited,
            decreases n - i,
        {
            state.push(VisitState::Unvisited);
            i = i + 1;
        }
        let mut order: Vec<usize> = Vec::with_capacity(n);
        proof {
            assert(order@ =~= Seq::<usize>::empty());
            lemma_count_none(state@, VisitState::Visited);
        }
        let mut start: usize = 0;
        while start < n
            invariant
                self.wf(),
                n == self.gates().len(),
                srcs == self.sources(),
                start <= n,
                state@.len() == n,
                forall|v: int| 0 <= v < n ==> #[trigger] state@[v] != VisitState::Visiting,
                forall|v: int| 0 <= v < start ==> #[trigger] state@[v] == VisitState::Visited,
                order_inv(srcs, n as int, state@, order@),
            decreases n - start,
        {
            if state[start] == VisitState::Unvisited {
                let mut stack: Vec<usize> = Vec::new();
                stack.push(start);
                let ghost mut mark: Seq<int> = Seq::new(n as nat, |v: int| 0int);
                let ghost mut pushed_by: Seq<int> = seq![0int];
                while stack.len() > 0
                    invariant
                        self.wf(),
                        n == self.gates().len(),
                        srcs == self.sources(),
                        start < n,
                        state@.len() == n,
                        forall|v: int| 0 <= v < start ==> #[trigger] state@[v] == VisitState::Visited,
                        state@[start as int] == VisitState::Unvisited ==> stack@ == seq![start],
                        order_inv(srcs, n as int, state@, order@),
                        stack_inv(srcs, n as int, state@, stack@, mark),
                        chain_inv(srcs, n as int, state@, stack@, mark, pushed_by),
                        stack@.len() > 0 ==> stack@[0] == start,
                    decreases weight(state@), stack@.len(),
                {
                    let top = stack.len() - 1;
                    let g = stack[top];
                    let sg = state[g];
                    match sg {
                        VisitState::Visited => {
                            let ghost old_stack = stack@;
                            let ghost old_pb = pushed_by;
                            stack.pop();
                            proof {
                                pushed_by = pushed_by.drop_last();
                                assert(old_stack =~= stack@.push(g));
                                assert forall|k: int| 1 <= k < stack@.len() implies {
                                    let p = #[trigger] pushed_by[k];
                                    &&& 0 <= p < k
                                    &&& state@[stack@[p] as int] == VisitState::Visiting
                                    &&& mark[stack@[p] as int] == p
                                    &&& feeds(srcs, stack@[k] as int, stack@[p] as int)
                                } by {
                                    let p = old_pb[k];
                                    assert(pushed_by[k] == p);
                                    assert(stack@[p] == old_stack[p]);
                                    assert(stack@[k] == old_stack[k]);
                                }
                                assert forall|k: int, v: int|
                                    1 <= k < stack@.len() && 0 <= v < n && #[trigger] state@[v] == VisitState::Visiting
                                        implies !(#[trigger] pushed_by[k] < mark[v] < k) by {
                                    assert(pushed_by[k] == old_pb[k]);
                                }
                                assert forall|v: int| 0 <= v < n && #[trigger] state@[v] == VisitState::Visiting implies {
                                    &&& 0 <= mark[v] < stack@.len()
                                    &&& stack@[mark[v]] == v
                                    &&& forall|k: int| mark[v] < k < stack@.len() ==> stack@[k] != v
                                } by {
                                    assert(v != g);
                                    assert(old_stack[mark[v]] == v);
                                    assert(mark[v] != top);
                                }
                                assert forall|v: int, m: int|
                                    0 <= v < n && state@[v] == VisitState::Visiting && 0 <= m < srcs[v].len()
                                        && (#[trigger] srcs[v][m]) is Gate implies {
                                        let s = (srcs[v][m]->Gate_0).0 as int;
                                        state@[s] == VisitState::Visited || exists|k: int| mark[v] < k < stack@.len() && stack@[k] == s
                                    } by {
                                    let s = (srcs[v][m]->Gate_0).0 as int;
                                    if state@[s] != VisitState::Visited {
                                        let k = choose|k: int| mark[v] < k < old_stack.len() && old_stack[k] == s;
                                        assert(k != top);
                                        assert(stack@[k] == s);
                                    }
                                }
                            }
                        },
                        VisitState::Visiting => {
                            proof {
                                lemma_step(state@, g as int, VisitState::Visited);
                                assert(mark[g as int] == top);
                            }
                            let ghost old_state = state@;
                            let ghost old_stack = stack@;
                            let ghost old_order = order@;
                            let ghost old_pb = pushed_by;
                            state.set(g, VisitState::Visited);
                            stack.pop();
                            order.push(g);
                            proof {
                                pushed_by = pushed_by.drop_last();
                                assert(old_stack =~= stack@.push(g));
                                assert forall|k: int| 1 <= k < stack@.len() implies {
                                    let p = #[trigger] pushed_by[k];
                                    &&& 0 <= p < k
                                    &&& state@[stack@[p] as int] == VisitState::Visiting
                                    &&& mark[stack@[p] as int] == p
                                    &&& feeds(srcs, stack@[k] as int, stack@[p] as int)
                                } by {
                                    let p = old_pb[k];
                                    assert(pushed_by[k] == p);
                                    assert(stack@[p] == old_stack[p]);
                                    assert(stack@[k] == old_stack[k]);
                                    assert(old_state[old_stack[p] as int] == VisitState::Visiting);
                                    assert(old_stack[p] != g);
                                }
                                assert forall|k: int, v: int|
                                    1 <= k < stack@.len() && 0 <= v < n && #[trigger] state@[v] == VisitState::Visiting
                                        implies !(#[trigger] pushed_by[k] < mark[v] < k) by {
                                    assert(old_state[v] == VisitState::Visiting);
                                    assert(pushed_by[k] == old_pb[k]);
                                }
                                assert forall|v: int, w: int|
                                    0 <= v < n && 0 <= w < n && #[trigger] state@[v] == VisitState::Visiting && #[trigger] state@[w] == VisitState::Visiting
                                        && mark[v] < mark[w] implies leads_to(srcs, n as int, w, v) by {
                                    assert(old_state[v] == VisitState::Visiting);
                                    assert(old_state[w] == VisitState::Visiting);
                                }
                                assert forall|v: int| 0 <= v < n && #[trigger] state@[v] == VisitState::Visiting implies {
                                    &&& 0 <= mark[v] < stack@.len()
                                    &&& stack@[mark[v]] == v
                                    &&& forall|k: int| mark[v] < k < stack@.len() ==> stack@[k] != v
                                } by {
                                    assert(old_state[v] == VisitState::Visiting);
                                    assert(v != g);
                                    assert(old_stack[mark[v]] == v);
                                }
                                assert forall|v: int, m: int|
                                    0 <= v < n && state@[v] == VisitState::Visiting && 0 <= m < srcs[v].len()
                                        && (#[trigger] srcs[v][m]) is Gate implies {
                                        let s = (srcs[v][m]->Gate_0).0 as int;
                                        state@[s] == VisitState::Visited || exists|k: int| mark[v] < k < stack@.len() && stack@[k] == s
                                    } by {
                                    let s = (srcs[v][m]->Gate_0).0 as int;
                                    assert(old_state[v] == VisitState::Visiting);
                                    if state@[s] != VisitState::Visited {
                                        let k = choose|k: int| mark[v] < k < old_stack.len() && old_stack[k] == s;
                                        assert(k != top);
                                        assert(stack@[k] == s);
                                    }
                                }
                                // the finished gate's sources are all finished, hence already listed
                                assert forall|m: int|
                                    0 <= m < srcs[g as int].len() && (#[trigger] srcs[g as int][m]) is Gate implies exists|j: int|
                                        0 <= j < old_order.len() && old_order[j] == (srcs[g as int][m]->Gate_0).0 by {
                                    let s = (srcs[g as int][m]->Gate_0).0 as int;
                                    assert(0 <= s < n);
                                    assert(old_state[s] == VisitState::Visited);
                                    assert(old_order.contains(s as usize));
                                }
                                assert forall|i: int, m: int|
                                    0 <= i < order@.len() && 0 <= m < srcs[order@[i] as int].len()
                                        && (#[trigger] srcs[order@[i] as int][m]) is Gate implies exists|j: int|
                                        0 <= j < i && order@[j] == (srcs[order@[i] as int][m]->Gate_0).0 by {
                                    if i < old_order.len() {
                                        let j = choose|j: int| 0 <= j < i && old_order[j] == (srcs[old_order[i] as int][m]->Gate_0).0;
                                        assert(order@[j] == old_order[j]);
                                    } else {
                                        let j = choose|j: int| 0 <= j < old_order.len() && old_order[j] == (srcs[g as int][m]->Gate_0).0;
                                        assert(order@[j] == old_order[j]);
                                    }
                                }
                                assert(!old_order.contains(g));
                                assert forall|g2: int| 0 <= g2 < n && #[trigger] state@[g2] == VisitState::Visited implies order@.contains(g2 as usize) by {
                                    if g2 == g {
                                        assert(order@[order@.len() - 1] == g);
                                    } else {
                                        let j = choose|j: int| 0 <= j < old_order.len() && old_order[j] == g2 as usize;
                                        assert(order@[j] == old_order[j]);
                                    }
                                }
                            }
                        },
                        VisitState::Unvisited => {
                            proof {
                                lemma_step(state@, g as int, VisitState::Visiting);
                            }
                            let ghost old_state = state@;
                            let ghost base = stack@;
                            let ghost old_mark = mark;
                            let ghost pb_base = pushed_by;
                            state.set(g, VisitState::Visiting);
                            proof {
                                mark = mark.update(g as int, top as int);
                                lemma_chain_extend(srcs, n as int, old_state, state@, base, old_mark, mark, pb_base, g as int);
                            }
                            let sources = &self.gate_entries[g].backward_edges;
                            proof {
                                assert(sources@ == srcs[g as int]);
                            }
                            let mut m: usize = 0;
                            while m < sources.len()
                                invariant
                                    self.wf(),
                                    n == self.gates().len(),
                                    srcs == self.sources(),
                                    g < n,
                                    top < base.len(),
                                    sources@ == srcs[g as int],
                                    m <= sources@.len(),
                                    state@.len() == n,
                                    state@[g as int] == VisitState::Visiting,
                                    mark[g as int] == top,
                                    stack@.len() >= base.len(),
                                    stack@.subrange(0, base.len() as int) == base,
                                    base[top as int] == g,
                                    forall|k: int| base.len() <= k < stack@.len() ==> #[trigger] state@[stack@[k] as int] == VisitState::Unvisited,
                                    forall|k: int| base.len() <= k < stack@.len() ==> #[trigger] stack@[k] < n,
                                    stack_inv(srcs, n as int, old_state, base, old_mark),
                                    old_state.len() == n,
                                    old_state[g as int] == VisitState::Unvisited,
                                    mark == old_mark.update(g as int, top as int),
                                    top == base.len() - 1,
                                    state@ == old_state.update(g as int, VisitState::Visiting),
                                    forall|mm: int| 0 <= mm < m && (#[trigger] srcs[g as int][mm]) is Gate ==> {
                                        let s = (srcs[g as int][mm]->Gate_0).0 as int;
                                        state@[s] == VisitState::Visited || exists|k: int| top < k < stack@.len() && stack@[k] == s
                                    },
                                    chain_inv(srcs, n as int, state@, base, mark, pb_base),
                                    pushed_by.len() == stack@.len(),
                                    pushed_by.subrange(0, base.len() as int) == pb_base,
                                    forall|k: int| base.len() <= k < stack@.len() ==> #[trigger] pushed_by[k] == top as int
                                        && feeds(srcs, stack@[k] as int, g as int),
                                    forall|v: int| 0 <= v < n && #[trigger] state@[v] == VisitState::Visiting ==> mark[v] <= top,
                                decreases sources@.len() - m,
                            {
                                let source = sources[m];
                                if let Source::Gate(src) = source {
                                    proof {
                                        assert(srcs[g as int][m as int] == source);
                                    }
                                    let ss = state[src.0];
                                    match ss {
                                        VisitState::Visiting => {
                                            proof {
                                                assert(srcs[g as int].contains(Source::Gate(Node(src.0))));
                                                assert forall|v: int| 0 <= v < n && #[trigger] state@[v] == VisitState::Visiting
                                                    implies 0 <= mark[v] < base.len() && base[mark[v]] == v by {
                                                    if v != g {
                                                        assert(old_state.len() == n);
                                                        assert(state@[v] == old_state.update(g as int, VisitState::Visiting)[v]);
                                                        assert(old_state[v] == VisitState::Visiting);
                                                        assert(mark[v] == old_mark[v]);
                                                    }
                                                }
                                                lemma_cycle_found(srcs, n as int, state@, base, mark, pb_base, g as int, src.0 as int);
                                            }
                                            return Err(Error::CycleDetected(Node(src.0)));
                                        },
                                        VisitState::Unvisited => {
                                            let ghost before = stack@;
                                            let ghost pb_before = pushed_by;
                                            stack.push(src.0);
                                            proof {
                                                pushed_by = pushed_by.push(top as int);
                                                assert(srcs[g as int].contains(Source::Gate(Node(src.0))));
                                                assert(pushed_by.subrange(0, base.len() as int) =~= pb_before.subrange(0, base.len() as int));
                                                assert forall|k: int| base.len() <= k < stack@.len() implies #[trigger] pushed_by[k] == top as int
                                                    && feeds(srcs, stack@[k] as int, g as int) by {
                                                    if k < before.len() {
                                                        assert(pushed_by[k] == pb_before[k]);
                                                        assert(stack@[k] == before[k]);
                                                    }
                                                }
                                                assert(stack@.subrange(0, base.len() as int) =~= before.subrange(0, base.len() as int));
                                                assert(stack@[stack@.len() - 1] == src.0);
                                                assert forall|mm: int| 0 <= mm < m && (#[trigger] srcs[g as int][mm]) is Gate implies {
                                                    let s = (srcs[g as int][mm]->Gate_0).0 as int;
                                                    state@[s] == VisitState::Visited || exists|k: int| top < k < stack@.len() && stack@[k] == s
                                                } by {
                                                    let s = (srcs[g as int][mm]->Gate_0).0 as int;
                                                    if state@[s] != VisitState::Visited {
                                                        let k = choose|k: int| top < k < before.len() && before[k] == s;
                                                        assert(stack@[k] == s);
                                                    }
                                                }
                                            }
                                        },
                                        VisitState::Visited => {},
                                    }
                                }
                                m = m + 1;
                            }
                            proof {
                                let st = state@;
                                assert forall|k: int| 0 <= k < stack@.len() implies #[trigger] stack@[k] < n by {
                                    if k < base.len() {
                                        assert(stack@[k] == base[k]);
                                    }
                                }
                                assert forall|v: int| 0 <= v < n && #[trigger] st[v] == VisitState::Visiting implies {
                                    &&& 0 <= mark[v] < stack@.len()
                                    &&& stack@[mark[v]] == v
                                    &&& forall|k: int| mark[v] < k < stack@.len() ==> stack@[k] != v
                                } by {
                                    if v != g {
                                        assert(old_state[v] == VisitState::Visiting);
                                    }
                                    assert(stack@[mark[v]] == base[mark[v]]);
                                    assert forall|k: int| mark[v] < k < stack@.len() implies stack@[k] != v by {
                                        if k < base.len() {
                                            assert(stack@[k] == base[k]);
                                        } else {
                                            assert(st[stack@[k] as int] == VisitState::Unvisited);
                                        }
                                    }
                                }
                                assert forall|v: int, mm: int|
                                    0 <= v < n && st[v] == VisitState::Visiting && 0 <= mm < srcs[v].len()
                                        && (#[trigger] srcs[v][mm]) is Gate implies {
                                        let s = (srcs[v][mm]->Gate_0).0 as int;
                                        st[s] == VisitState::Visited || exists|k: int| mark[v] < k < stack@.len() && stack@[k] == s
                                    } by {
                                    let s = (srcs[v][mm]->Gate_0).0 as int;
                                    if v != g && st[s] != VisitState::Visited {
                                        assert(old_state[v] == VisitState::Visiting);
                                        assert(old_state[s] != VisitState::Visited);
                                        let k = choose|k: int| old_mark[v] < k < base.len() && base[k] == s;
                                        assert(stack@[k] == base[k]);
                                    }
                                }
                                assert forall|i: int| 0 <= i < order@.len() implies st[#[trigger] order@[i] as int] == VisitState::Visited by {
                                    assert(old_state[order@[i] as int] == VisitState::Visited);
                                }
                                assert forall|k: int| 1 <= k < stack@.len() implies {
                                    let p = #[trigger] pushed_by[k];
                                    &&& 0 <= p < k
                                    &&& st[stack@[p] as int] == VisitState::Visiting
                                    &&& mark[stack@[p] as int] == p
                                    &&& feeds(srcs, stack@[k] as int, stack@[p] as int)
                                } by {
                                    if k < base.len() {
                                        assert(pushed_by[k] == pb_base[k]);
                                        assert(stack@[k] == base[k]);
                                        assert(stack@[pb_base[k]] == base[pb_base[k]]);
                                    } else {
                                        assert(stack@[top as int] == base[top as int]);
                                    }
                                }
                                assert forall|k: int, v: int|
                                    1 <= k < stack@.len() && 0 <= v < n && #[trigger] st[v] == VisitState::Visiting
                                        implies !(#[trigger] pushed_by[k] < mark[v] < k) by {
                                    if k < base.len() {
                                        assert(pushed_by[k] == pb_base[k]);
                                    }
                                }
                            }
                        },
                    }
                }
                proof {
                    assert forall|v: int| 0 <= v < n implies #[trigger] state@[v] != VisitState::Visiting by {
                        if state@[v] == VisitState::Visiting {
                            assert(0 <= mark[v] < stack@.len());
                        }
                    }
                }
            }
            start = start + 1;
        }
        proof {
            assert forall|g: int| 0 <= g < n implies #[trigger] order@.contains(g as usize) by {
                assert(state@[g] == VisitState::Visited);
            }
            lemma_count_all(state@, VisitState::Visited);
        }
        Ok(order)
    }
}

} // verus!
