//! Which gates the circuit inputs reach, and which gates reach the circuit
//! outputs, computed in one pass each over a topological order.

use vstd::prelude::*;

use crate::builder::entry::Source;
use crate::builder::graph::{
    feeds, fed_by_input, is_gate_path, is_topological, lemma_path_prepend, lemma_path_push,
    lemma_topological_feeds, reached_from_inputs, reaches_outputs,
};
use crate::builder::handles::{Gate, Node};
use crate::builder::Builder;

verus! {

/// Along a chain of gates, a set of gates closed under "feeds" that holds
/// the first gate holds the last.
proof fn lemma_forward_closed(srcs: Seq<Seq<Source>>, n: int, r: Seq<bool>, p: Seq<usize>)
    requires
        r.len() == n,
        is_gate_path(srcs, n, p),
        r[p[0] as int],
        forall|g: int, d: int| 0 <= g < n && 0 <= d < n && r[g] && #[trigger] feeds(srcs, g, d) ==> r[d],
    ensures
        r[p.last() as int],
    decreases p.len(),
{
    if p.len() > 1 {
        let q = p.drop_last();
        assert forall|i: int| 0 <= i < q.len() - 1 implies feeds(srcs, #[trigger] q[i] as int, q[i + 1] as int) by {
            assert(q[i] == p[i] && q[i + 1] == p[i + 1]);
        }
        assert forall|i: int| 0 <= i < q.len() implies #[trigger] q[i] < n by {
            assert(q[i] == p[i]);
        }
        lemma_forward_closed(srcs, n, r, q);
        assert(feeds(srcs, p[p.len() - 2] as int, p[p.len() - 1] as int));
    }
}

/// Along a chain of gates, a set of gates closed under "is fed by" that
/// holds the last gate holds the first.
proof fn lemma_backward_closed(srcs: Seq<Seq<Source>>, n: int, r: Seq<bool>, p: Seq<usize>)
    requires
        r.len() == n,
        is_gate_path(srcs, n, p),
        r[p.last() as int],
        forall|g: int, d: int| 0 <= g < n && 0 <= d < n && r[d] && #[trigger] feeds(srcs, g, d) ==> r[g],
    ensures
        r[p[0] as int],
    decreases p.len(),
{
    if p.len() > 1 {
        let q = p.subrange(1, p.len() as int);
        assert forall|i: int| 0 <= i < q.len() - 1 implies feeds(srcs, #[trigger] q[i] as int, q[i + 1] as int) by {
            assert(q[i] == p[i + 1] && q[i + 1] == p[i + 2]);
        }
        assert forall|i: int| 0 <= i < q.len() implies #[trigger] q[i] < n by {
            assert(q[i] == p[i + 1]);
        }
        assert(q.last() == p.last());
        lemma_backward_closed(srcs, n, r, q);
        assert(feeds(srcs, p[0] as int, p[1] as int));
    }
}

impl<T: Gate> Builder<T> {
    /// Whether gate `g` feeds gate `d`.
    fn gate_feeds(&self, g: usize, d: usize) -> (r: bool)
        requires
            self.wf(),
            d < self.gates().len(),
        ensures
            r == feeds(self.sources(), g as int, d as int),
    {
        let sources = &self.gate_entries[d].backward_edges;
        proof {
            assert(sources@ == self.sources()[d as int]);
        }
        let mut m: usize = 0;
        while m < sources.len()
            invariant
                m <= sources@.len(),
                sources@ == self.sources()[d as int],
                forall|mm: int| 0 <= mm < m ==> sources@[mm] != Source::Gate(Node(g)),
            decreases sources@.len() - m,
        {
            if let Source::Gate(s) = sources[m] {
                if s.0 == g {
                    proof {
                        assert(sources@[m as int] == Source::Gate(Node(g)));
                    }
                    return true;
                }
            }
            m = m + 1;
        }
        false
    }

    /// Whether some circuit input feeds gate `d`.
    fn has_input_source(&self, d: usize) -> (r: bool)
        requires
            self.wf(),
            d < self.gates().len(),
        ensures
            r == fed_by_input(self.sources(), d as int),
    {
        let sources = &self.gate_entries[d].backward_edges;
        proof {
            assert(sources@ == self.sources()[d as int]);
        }
        let mut m: usize = 0;
        while m < sources.len()
            invariant
                m <= sources@.len(),
                sources@ == self.sources()[d as int],
                forall|mm: int| 0 <= mm < m ==> !(#[trigger] sources@[mm] is Input),
            decreases sources@.len() - m,
        {
            if let Source::Input(_) = sources[m] {
                return true;
            }
            m = m + 1;
        }
        false
    }

    /// For each gate, whether some circuit input reaches it.
    #[verifier::rlimit(40)]
    #[verifier::spinoff_prover]
    pub(crate) fn reached_from_inputs_flags(&self, order: &Vec<usize>) -> (r: Vec<bool>)
        requires
            self.wf(),
            is_topological(self.sources(), self.gates().len() as int, order@),
        ensures
            r@.len() == self.gates().len(),
            forall|g: int| 0 <= g < r@.len() ==> #[trigger] r@[g] == reached_from_inputs(self.sources(), r@.len() as int, g),
    {
        let n = self.gate_entries.len();
        let ghost srcs = self.sources();
        let mut r: Vec<bool> = Vec::with_capacity(n);
        let mut d: usize = 0;
        while d < n
            invariant
                self.wf(),
                n == self.gates().len(),
                srcs == self.sources(),
                d <= n,
                r@.len() == d,
                forall|x: int| 0 <= x < d ==> #[trigger] r@[x] == fed_by_input(srcs, x),
            decreases n - d,
        {
            let b = self.has_input_source(d);
            r.push(b);
            d = d + 1;
        }
        proof {
            assert forall|x: int| 0 <= x < n && #[trigger] r@[x] implies reached_from_inputs(srcs, n as int, x) by {
                let p = seq![x as usize];
                assert(is_gate_path(srcs, n as int, p));
            }
        }
        let mut k: usize = 0;
        while k < n
            invariant
                self.wf(),
                n == self.gates().len(),
                srcs == self.sources(),
                is_topological(srcs, n as int, order@),
                k <= n,
                r@.len() == n,
                forall|x: int| 0 <= x < n && #[trigger] r@[x] ==> reached_from_inputs(srcs, n as int, x),
                forall|x: int| 0 <= x < n && fed_by_input(srcs, x) ==> #[trigger] r@[x],
                forall|j: int, x: int|
                    0 <= j < k && 0 <= x < n && r@[order@[j] as int] && #[trigger] feeds(srcs, order@[j] as int, x) ==> r@[x],
            decreases n - k,
        {
            let g = order[k];
            if r[g] {
                let ghost before = r@;
                let mut x: usize = 0;
                while x < n
                    invariant
                        self.wf(),
                        n == self.gates().len(),
                        srcs == self.sources(),
                        g < n,
                        before[g as int],
                        reached_from_inputs(srcs, n as int, g as int),
                        x <= n,
                        r@.len() == n,
                        forall|y: int| 0 <= y < n && before[y] ==> #[trigger] r@[y],
                        forall|y: int| 0 <= y < n && #[trigger] r@[y] != before[y] ==> feeds(srcs, g as int, y),
                        forall|y: int| 0 <= y < x && #[trigger] feeds(srcs, g as int, y) ==> r@[y],
                        forall|y: int| 0 <= y < n && #[trigger] r@[y] ==> reached_from_inputs(srcs, n as int, y),
                    decreases n - x,
                {
                    if self.gate_feeds(g, x) {
                        proof {
                            let p = choose|p: Seq<usize>|
                                #![trigger is_gate_path(srcs, n as int, p)]
                                is_gate_path(srcs, n as int, p) && fed_by_input(srcs, p[0] as int) && p.last() == g;
                            lemma_path_push(srcs, n as int, p, x);
                            assert(p.push(x)[0] == p[0]);
                        }
                        r.set(x, true);
                    }
                    x = x + 1;
                }
                proof {
                    assert forall|j: int, y: int|
                        0 <= j < k + 1 && 0 <= y < n && r@[order@[j] as int] && #[trigger] feeds(srcs, order@[j] as int, y) implies r@[y] by {
                        if j < k {
                            if r@[order@[j] as int] != before[order@[j] as int] {
                                lemma_topological_feeds(srcs, n as int, order@, k as int, j);
                            }
                        }
                    }
                }
            } else {
                proof {
                    assert forall|j: int, y: int|
                        0 <= j < k + 1 && 0 <= y < n && r@[order@[j] as int] && #[trigger] feeds(srcs, order@[j] as int, y) implies r@[y] by {
                        if j == k {
                            assert(!r@[g as int]);
                        }
                    }
                }
            }
            k = k + 1;
        }
        proof {
            assert forall|g: int, y: int| 0 <= g < n && 0 <= y < n && r@[g] && #[trigger] feeds(srcs, g, y) implies r@[y] by {
                assert(order@.contains(g as usize));
                let j = choose|j: int| 0 <= j < order@.len() && order@[j] == g as usize;
                assert(feeds(srcs, order@[j] as int, y));
            }
            assert forall|g: int| 0 <= g < r@.len() implies #[trigger] r@[g] == reached_from_inputs(srcs, r@.len() as int, g) by {
                if reached_from_inputs(srcs, n as int, g) {
                    let p = choose|p: Seq<usize>|
                        #![trigger is_gate_path(srcs, n as int, p)]
                        is_gate_path(srcs, n as int, p) && fed_by_input(srcs, p[0] as int) && p.last() == g;
                    lemma_forward_closed(srcs, n as int, r@, p);
                }
            }
        }
        r
    }

    /// For each gate, whether it reaches a gate that feeds a circuit output.
    #[verifier::rlimit(40)]
    #[verifier::spinoff_prover]
    pub(crate) fn reaching_outputs_flags(&self, order: &Vec<usize>) -> (r: Vec<bool>)
        requires
            self.wf(),
            is_topological(self.sources(), self.gates().len() as int, order@),
        ensures
            r@.len() == self.gates().len(),
            forall|g: int| 0 <= g < r@.len() ==> #[trigger] r@[g]
                == reaches_outputs(self.sources(), r@.len() as int, self.output_links(), g),
    {
        let n = self.gate_entries.len();
        let ghost srcs = self.sources();
        let ghost outs = self.output_links();
        let mut r: Vec<bool> = Vec::with_capacity(n);
        let mut d: usize = 0;
        while d < n
            invariant
                d <= n,
                r@.len() == d,
                forall|x: int| 0 <= x < d ==> !(#[trigger] r@[x]),
            decreases n - d,
        {
            r.push(false);
            d = d + 1;
        }
        let mut o: usize = 0;
        while o < self.connected_outputs.len()
            invariant
                self.wf(),
                n == self.gates().len(),
                srcs == self.sources(),
                outs == self.output_links(),
                o <= outs.len(),
                r@.len() == n,
                forall|x: int| 0 <= x < n && #[trigger] r@[x] ==> outs.contains(Some(Node(x as usize))),
                forall|i: int| 0 <= i < o && (#[trigger] outs[i]) is Some ==> r@[(outs[i]->0).0 as int],
            decreases outs.len() - o,
        {
            if let Some(node) = self.connected_outputs[o] {
                proof {
                    assert(outs[o as int] == Some(node));
                }
                r.set(node.0, true);
            }
            o = o + 1;
        }
        proof {
            assert forall|x: int| 0 <= x < n && #[trigger] r@[x] implies reaches_outputs(srcs, n as int, outs, x) by {
                let p = seq![x as usize];
                assert(is_gate_path(srcs, n as int, p));
            }
        }
        let mut k: usize = n;
        while k > 0
            invariant
                self.wf(),
                n == self.gates().len(),
                srcs == self.sources(),
                outs == self.output_links(),
                is_topological(srcs, n as int, order@),
                k <= n,
                r@.len() == n,
                forall|x: int| 0 <= x < n && #[trigger] r@[x] ==> reaches_outputs(srcs, n as int, outs, x),
                forall|x: int| 0 <= x < n && #[trigger] outs.contains(Some(Node(x as usize))) ==> r@[x],
                forall|j: int, x: int|
                    k <= j < n && 0 <= x < n && r@[order@[j] as int] && #[trigger] feeds(srcs, x, order@[j] as int) ==> r@[x],
            decreases k,
        {
            k = k - 1;
            let d = order[k];
            if r[d] {
                let ghost before = r@;
                let sources = &self.gate_entries[d].backward_edges;
                proof {
                    assert(sources@ == srcs[d as int]);
                }
                let mut m: usize = 0;
                while m < sources.len()
                    invariant
                        self.wf(),
                        n == self.gates().len(),
                        srcs == self.sources(),
                        d < n,
                        sources@ == srcs[d as int],
                        before[d as int],
                        reaches_outputs(srcs, n as int, outs, d as int),
                        m <= sources@.len(),
                        r@.len() == n,
                        forall|y: int| 0 <= y < n && before[y] ==> #[trigger] r@[y],
                        forall|y: int| 0 <= y < n && #[trigger] r@[y] != before[y] ==> feeds(srcs, y, d as int),
                        forall|mm: int| 0 <= mm < m && (#[trigger] sources@[mm]) is Gate ==> r@[(sources@[mm]->Gate_0).0 as int],
                        forall|y: int| 0 <= y < n && #[trigger] r@[y] ==> reaches_outputs(srcs, n as int, outs, y),
                    decreases sources@.len() - m,
                {
                    if let Source::Gate(s) = sources[m] {
                        proof {
                            assert(srcs[d as int][m as int] == Source::Gate(s));
                            assert(feeds(srcs, s.0 as int, d as int));
                            let p = choose|p: Seq<usize>|
                                #![trigger is_gate_path(srcs, n as int, p)]
                                is_gate_path(srcs, n as int, p) && p[0] == d && outs.contains(Some(Node(p.last())));
                            lemma_path_prepend(srcs, n as int, s.0, p);
                        }
                        r.set(s.0, true);
                    }
                    m = m + 1;
                }
                proof {
                    assert forall|j: int, y: int|
                        k <= j < n && 0 <= y < n && r@[order@[j] as int] && #[trigger] feeds(srcs, y, order@[j] as int) implies r@[y] by {
                        if j == k {
                            let mm = choose|mm: int| 0 <= mm < srcs[d as int].len() && srcs[d as int][mm] == Source::Gate(Node(y as usize));
                            assert(sources@[mm] is Gate);
                        } else if r@[order@[j] as int] != before[order@[j] as int] {
                            lemma_topological_feeds(srcs, n as int, order@, j, k as int);
                        }
                    }
                }
            } else {
                proof {
                    assert forall|j: int, y: int|
                        k <= j < n && 0 <= y < n && r@[order@[j] as int] && #[trigger] feeds(srcs, y, order@[j] as int) implies r@[y] by {
                        if j == k {
                            assert(!r@[d as int]);
                        }
                    }
                }
            }
        }
        proof {
            assert forall|g: int, y: int| 0 <= g < n && 0 <= y < n && r@[y] && #[trigger] feeds(srcs, g, y) implies r@[g] by {
                assert(order@.contains(y as usize));
                let j = choose|j: int| 0 <= j < order@.len() && order@[j] == y as usize;
                assert(feeds(srcs, g, order@[j] as int));
            }
            assert forall|g: int| 0 <= g < r@.len() implies #[trigger] r@[g] == reaches_outputs(srcs, r@.len() as int, outs, g) by {
                if reaches_outputs(srcs, n as int, outs, g) {
                    let p = choose|p: Seq<usize>|
                        #![trigger is_gate_path(srcs, n as int, p)]
                        is_gate_path(srcs, n as int, p) && p[0] == g && outs.contains(Some(Node(p.last())));
                    lemma_backward_closed(srcs, n as int, r@, p);
                }
            }
        }
        r
    }
}

} // verus!
