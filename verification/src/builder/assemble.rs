//! Numbering the wires of a checked builder and moving its gates into a
//! netlist.

use vstd::prelude::*;

use crate::builder::entry::{BuilderEntry, Source};
use crate::builder::graph::{is_topological, position};
use crate::builder::handles::{Gate, Wire};
use crate::builder::netlist::{source_wire, Netlist, NetlistEntry};
use crate::builder::Builder;

verus! {

/// In a list without duplicates, an element's position is where it stands.
pub proof fn lemma_position(order: Seq<usize>, j: int)
    requires
        order.no_duplicates(),
        0 <= j < order.len(),
    ensures
        position(order, order[j] as int) == j,
{
    assert(order.contains(order[j]));
}

/// A listed element stands at its position.
pub proof fn lemma_at_position(order: Seq<usize>, g: int)
    requires
        0 <= g,
        g <= usize::MAX,
        order.contains(g as usize),
    ensures
        0 <= position(order, g) < order.len(),
        order[position(order, g)] == g,
{
}

impl<T: Gate> Builder<T> {
    /// Numbers the wires and moves the gates into a netlist evaluated in
    /// `order`.
    #[verifier::rlimit(60)]
    #[verifier::spinoff_prover]
    pub(crate) fn assemble(self, order: Vec<usize>) -> (r: Netlist<T>)
        requires
            self.wf(),
            is_topological(self.sources(), self.gates().len() as int, order@),
            forall|o: int| 0 <= o < self.output_links().len() ==> (#[trigger] self.output_links()[o]) is Some,
            self.input_links().len() + self.gates().len() <= usize::MAX,
        ensures
            r.is_built_from(self.gates(), self.sources(), self.input_links().len(), self.output_links(), order@),
    {
        let ghost gates = self.gates();
        let ghost srcs = self.sources();
        let ghost outs = self.output_links();
        let ghost orig = self.gate_entries@;
        let ni = self.connected_inputs.len();
        let n = self.gate_entries.len();
        let ghost nin = ni as nat;
        let mut input_wires: Vec<Wire> = Vec::with_capacity(ni);
        let mut i: usize = 0;
        while i < ni
            invariant
                i <= ni,
                input_wires@ == Seq::new(i as nat, |j: int| Wire(j as usize)),
            decreases ni - i,
        {
            input_wires.push(Wire(i));
            proof {
                assert(input_wires@ =~= Seq::new(i as nat + 1, |j: int| Wire(j as usize)));
            }
            i = i + 1;
        }
        let mut gate_wires: Vec<Option<Wire>> = Vec::with_capacity(n);
        let mut owned: Vec<Option<BuilderEntry<T>>> = Vec::with_capacity(n);
        let mut g: usize = 0;
        while g < n
            invariant
                g <= n,
                gate_wires@.len() == g,
                owned@.len() == g,
                forall|x: int| 0 <= x < g ==> (#[trigger] gate_wires@[x]) is None,
                forall|x: int| 0 <= x < g ==> (#[trigger] owned@[x]) is None,
            decreases n - g,
        {
            gate_wires.push(None);
            owned.push(None);
            g = g + 1;
        }
        let connected_outputs = self.connected_outputs;
        let mut entries = self.gate_entries;
        while entries.len() > 0
            invariant
                orig.len() == n,
                owned@.len() == n,
                entries@.len() <= n,
                entries@ == orig.take(entries@.len() as int),
                forall|x: int| 0 <= x < entries@.len() ==> (#[trigger] owned@[x]) is None,
                forall|x: int| entries@.len() <= x < n ==> #[trigger] owned@[x] == Some(orig[x]),
            decreases entries@.len(),
        {
            let ghost before = entries@;
            let e = entries.pop().unwrap();
            let x = entries.len();
            proof {
                assert(e == orig[x as int]);
                assert(entries@ =~= orig.take(x as int));
            }
            owned.set(x, Some(e));
        }
        let mut netlist_entries: Vec<NetlistEntry<T>> = Vec::with_capacity(n);
        proof {
            assert forall|x: int| 0 <= x < n implies position(order@, x) >= 0 by {
                assert(order@.contains(x as usize));
                lemma_at_position(order@, x);
            }
        }
        let mut k: usize = 0;
        while k < n
            invariant
                n == order@.len(),
                ni == nin,
                nin + n <= usize::MAX,
                is_topological(srcs, n as int, order@),
                orig.len() == n,
                gates == orig.map_values(|e: BuilderEntry<T>| e.gate),
                srcs == orig.map_values(|e: BuilderEntry<T>| e.backward_edges@),
                forall|x: int| 0 <= x < n ==> forall|m: int|
                    0 <= m < (#[trigger] srcs[x]).len() && (#[trigger] srcs[x][m]) is Input ==> (srcs[x][m]->Input_0).0 < nin,
                input_wires@ == Seq::new(nin, |j: int| Wire(j as usize)),
                k <= n,
                owned@.len() == n,
                gate_wires@.len() == n,
                forall|x: int| 0 <= x < n ==> (#[trigger] owned@[x]) == if position(order@, x) < k {
                    None::<BuilderEntry<T>>
                } else {
                    Some(orig[x])
                },
                forall|x: int| 0 <= x < n ==> (#[trigger] gate_wires@[x]) == if position(order@, x) < k {
                    Some(Wire((nin + position(order@, x)) as usize))
                } else {
                    None::<Wire>
                },
                netlist_entries@.len() == k,
                forall|j: int| 0 <= j < k ==> {
                    &&& (#[trigger] netlist_entries@[j]).gate() == gates[order@[j] as int]
                    &&& netlist_entries@[j].output() == Wire((nin + j) as usize)
                    &&& netlist_entries@[j].inputs() == srcs[order@[j] as int].map_values(
                        |s: Source| source_wire(nin, order@, s),
                    )
                },
            decreases n - k,
        {
            let gi = order[k];
            proof {
                lemma_position(order@, k as int);
            }
            let taken = owned[gi].take();
            let entry = match taken {
                Some(e) => e,
                None => {
                    proof {
                        assert(false);
                    }
                    vstd::pervasive::unreached()
                },
            };
            proof {
                assert(entry == orig[gi as int]);
                assert(entry.backward_edges@ == srcs[gi as int]);
            }
            let mut gate_inputs: Vec<Wire> = Vec::with_capacity(entry.backward_edges.len());
            let mut m: usize = 0;
            while m < entry.backward_edges.len()
                invariant
                    n == order@.len(),
                    ni == nin,
                    nin + n <= usize::MAX,
                    is_topological(srcs, n as int, order@),
                    0 <= k < n,
                    gi == order@[k as int],
                    position(order@, gi as int) == k,
                    entry.backward_edges@ == srcs[gi as int],
                    forall|mm: int|
                        0 <= mm < srcs[gi as int].len() && (#[trigger] srcs[gi as int][mm]) is Input ==> (srcs[gi as int][mm]->Input_0).0 < nin,
                    input_wires@ == Seq::new(nin, |j: int| Wire(j as usize)),
                    gate_wires@.len() == n,
                    forall|x: int| 0 <= x < n ==> (#[trigger] gate_wires@[x]) == if position(order@, x) < k {
                        Some(Wire((nin + position(order@, x)) as usize))
                    } else {
                        None::<Wire>
                    },
                    m <= entry.backward_edges@.len(),
                    gate_inputs@ == srcs[gi as int].take(m as int).map_values(|s: Source| source_wire(nin, order@, s)),
                decreases entry.backward_edges@.len() - m,
            {
                let source = entry.backward_edges[m];
                let wire = match source {
                    Source::Input(input) => input_wires[input.0],
                    Source::Gate(src) => {
                        proof {
                            assert(srcs[order@[k as int] as int][m as int] == source);
                            let j = choose|j: int| 0 <= j < k && order@[j] == (srcs[order@[k as int] as int][m as int]->Gate_0).0;
                            lemma_position(order@, j);
                        }
                        match gate_wires[src.0] {
                            Some(w) => w,
                            None => {
                                proof {
                                    assert(false);
                                }
                                vstd::pervasive::unreached()
                            },
                        }
                    },
                };
                gate_inputs.push(wire);
                proof {
                    assert(srcs[gi as int].take(m as int + 1) =~= srcs[gi as int].take(m as int).push(source));
                    assert(gate_inputs@ =~= srcs[gi as int].take(m as int + 1).map_values(
                        |s: Source| source_wire(nin, order@, s),
                    ));
                }
                m = m + 1;
            }
            proof {
                assert(srcs[gi as int].take(srcs[gi as int].len() as int) =~= srcs[gi as int]);
            }
            let output_wire = Wire(ni + k);
            gate_wires.set(gi, Some(output_wire));
            let ghost before_entries = netlist_entries@;
            netlist_entries.push(NetlistEntry::new(entry.gate, gate_inputs, output_wire));
            proof {
                assert forall|x: int| 0 <= x < n implies (#[trigger] owned@[x]) == if position(order@, x) < k + 1 {
                    None::<BuilderEntry<T>>
                } else {
                    Some(orig[x])
                } by {
                    assert(order@.contains(x as usize));
                    lemma_at_position(order@, x);
                }
                assert forall|x: int| 0 <= x < n implies (#[trigger] gate_wires@[x]) == if position(order@, x) < k + 1 {
                    Some(Wire((nin + position(order@, x)) as usize))
                } else {
                    None::<Wire>
                } by {
                    assert(order@.contains(x as usize));
                    lemma_at_position(order@, x);
                }
                assert forall|j: int| 0 <= j < k + 1 implies {
                    &&& (#[trigger] netlist_entries@[j]).gate() == gates[order@[j] as int]
                    &&& netlist_entries@[j].output() == Wire((nin + j) as usize)
                    &&& netlist_entries@[j].inputs() == srcs[order@[j] as int].map_values(
                        |s: Source| source_wire(nin, order@, s),
                    )
                } by {
                    if j < k {
                        assert(netlist_entries@[j] == before_entries[j]);
                    }
                }
            }
            k = k + 1;
        }
        let mut output_wires: Vec<Wire> = Vec::with_capacity(connected_outputs.len());
        let mut o: usize = 0;
        while o < connected_outputs.len()
            invariant
                n == order@.len(),
                is_topological(srcs, n as int, order@),
                connected_outputs@ == outs,
                forall|x: int| 0 <= x < outs.len() ==> (#[trigger] outs[x]) is Some && (outs[x]->0).0 < n,
                gate_wires@.len() == n,
                forall|x: int| 0 <= x < n ==> (#[trigger] gate_wires@[x]) == if position(order@, x) < n {
                    Some(Wire((nin + position(order@, x)) as usize))
                } else {
                    None::<Wire>
                },
                o <= outs.len(),
                output_wires@.len() == o,
                forall|x: int| 0 <= x < o ==> #[trigger] output_wires@[x] == Wire(
                    (nin + position(order@, (outs[x]->0).0 as int)) as usize,
                ),
            decreases outs.len() - o,
        {
            let node = match connected_outputs[o] {
                Some(node) => node,
                None => {
                    proof {
                        assert(false);
                    }
                    vstd::pervasive::unreached()
                },
            };
            proof {
                assert(outs[o as int] == Some(node));
                assert(order@.contains((node.0 as int) as usize));
                lemma_at_position(order@, node.0 as int);
            }
            let wire = match gate_wires[node.0] {
                Some(w) => w,
                None => {
                    proof {
                        assert(false);
                    }
                    vstd::pervasive::unreached()
                },
            };
            output_wires.push(wire);
            o = o + 1;
        }
        let r = Netlist::from_parts(netlist_entries, input_wires, output_wires, ni + n);
        proof {
            assert(r.entries().len() == order@.len());
        }
        r
    }
}

} // verus!
