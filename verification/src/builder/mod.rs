//! Netlist builder.
//!
//! Gates, circuit inputs and circuit outputs are added to a builder and
//! connected one wire at a time; `build` checks that the result is a
//! complete acyclic netlist and numbers its wires.

use vstd::prelude::*;

use crate::builder::entry::{BuilderEntry, Source};
use crate::builder::graph::{is_topological, lemma_cycle_not_acyclic, on_cycle, reached_from_inputs, reaches_outputs};
use crate::builder::handles::{Error, Gate, Input, Node, Output};
use crate::builder::netlist::Netlist;

pub mod assemble;
pub mod entry;
pub mod graph;
pub mod order;
pub mod netlist;
pub mod reach;
pub mod handles;

verus! {

/// Initial room for gates.
pub const INITIAL_GATE_CAPACITY: usize = 16;

/// Initial room for inputs.
pub const INITIAL_INPUT_CAPACITY: usize = 4;

/// Initial room for outputs.
pub const INITIAL_OUTPUT_CAPACITY: usize = 4;

/// A netlist under construction.
pub struct Builder<T: Gate> {
    /// The gates, by node index.
    gate_entries: Vec<BuilderEntry<T>>,
    /// For each output, which gate feeds it, if any.
    connected_outputs: Vec<Option<Node>>,
    /// For each input, the last gate it was connected to, if any.
    connected_inputs: Vec<Option<Node>>,
}

impl<T: Gate> Builder<T> {
    /// The arity of each gate, by node index.
    pub closed spec fn arities(&self) -> Seq<usize> {
        self.gate_entries@.map_values(|e: BuilderEntry<T>| e.arity)
    }

    /// The sources connected to each gate, by node index, in port order.
    pub closed spec fn sources(&self) -> Seq<Seq<Source>> {
        self.gate_entries@.map_values(|e: BuilderEntry<T>| e.backward_edges@)
    }

    /// Gate descriptors, by node index.
    pub closed spec fn gates(&self) -> Seq<T> {
        self.gate_entries@.map_values(|e: BuilderEntry<T>| e.gate)
    }

    /// For each input, the last gate it was connected to.
    pub closed spec fn input_links(&self) -> Seq<Option<Node>> {
        self.connected_inputs@
    }

    /// For each output, which gate feeds it.
    pub closed spec fn output_links(&self) -> Seq<Option<Node>> {
        self.connected_outputs@
    }

    /// Circuit input `i` feeds no gate.
    pub open spec fn unused_input(&self, i: int) -> bool {
        0 <= i < self.input_links().len() && self.input_links()[i] is None
    }

    /// Circuit output `o` is fed by no gate.
    pub open spec fn unused_output(&self, o: int) -> bool {
        0 <= o < self.output_links().len() && self.output_links()[o] is None
    }

    /// Gate `g` takes no inputs, or has fewer connections than it takes.
    pub open spec fn incomplete_gate(&self, g: int) -> bool {
        0 <= g < self.gates().len() && (self.arities()[g] == 0 || self.sources()[g].len() != self.arities()[g])
    }

    /// The first fault in the connections, if any: an unused input, then an
    /// unused output, then an incomplete gate, each the lowest-numbered.
    pub open spec fn connection_error(&self) -> Option<Error> {
        if exists|i: int| self.unused_input(i) {
            let i = choose|i: int| self.unused_input(i) && forall|j: int| 0 <= j < i ==> !self.unused_input(j);
            Some(Error::UnusedInput(Input(i as usize)))
        } else if exists|o: int| self.unused_output(o) {
            let o = choose|o: int| self.unused_output(o) && forall|j: int| 0 <= j < o ==> !self.unused_output(j);
            Some(Error::UnusedOutput(Output(o as usize)))
        } else if exists|g: int| self.incomplete_gate(g) {
            let g = choose|g: int| self.incomplete_gate(g) && forall|j: int| 0 <= j < g ==> !self.incomplete_gate(j);
            if self.arities()[g] == 0 {
                Some(Error::ZeroArityGate(Node(g as usize)))
            } else {
                Some(Error::TooLittleConnections { gate: Node(g as usize), arity: self.arities()[g] })
            }
        } else {
            None
        }
    }

    /// The gates can be ordered so that each comes after the gates feeding it.
    pub open spec fn is_acyclic(&self) -> bool {
        exists|order: Seq<usize>| is_topological(self.sources(), self.gates().len() as int, order)
    }

    /// Every connection names existing gates and inputs, and no gate has
    /// more connections than its arity.
    pub open spec fn wf(&self) -> bool {
        let n = self.gates().len();
        &&& self.arities().len() == n
        &&& self.sources().len() == n
        &&& forall|g: int| 0 <= g < n ==> (#[trigger] self.sources()[g]).len() <= self.arities()[g]
        &&& forall|g: int, j: int| 0 <= g < n && 0 <= j < self.sources()[g].len() ==> {
            let s = #[trigger] self.sources()[g][j];
            &&& s is Gate ==> (s->Gate_0).0 < n && (s->Gate_0).0 != g
            &&& s is Input ==> (s->Input_0).0 < self.input_links().len()
        }
        &&& forall|i: int| 0 <= i < self.input_links().len() && (#[trigger] self.input_links()[i]) is Some
            ==> (self.input_links()[i]->0).0 < n
        &&& forall|o: int| 0 <= o < self.output_links().len() && (#[trigger] self.output_links()[o]) is Some
            ==> (self.output_links()[o]->0).0 < n
    }

    /// Create a new builder with default initial capacities.
    pub fn new() -> (r: Self)
        ensures
            r.wf(),
            r.gates().len() == 0,
            r.input_links().len() == 0,
            r.output_links().len() == 0,
    {
        Self::with_capacity(INITIAL_GATE_CAPACITY, INITIAL_INPUT_CAPACITY, INITIAL_OUTPUT_CAPACITY)
    }

    /// Create a new builder with room for the given numbers of gates,
    /// inputs and outputs.
    pub fn with_capacity(gates: usize, inputs: usize, outputs: usize) -> (r: Self)
        ensures
            r.wf(),
            r.gates().len() == 0,
            r.input_links().len() == 0,
            r.output_links().len() == 0,
    {
        let r = Self {
            gate_entries: Vec::with_capacity(gates),
            connected_outputs: Vec::with_capacity(outputs),
            connected_inputs: Vec::with_capacity(inputs),
        };
        proof {
            assert(r.gates() =~= Seq::<T>::empty());
            assert(r.arities() =~= Seq::<usize>::empty());
            assert(r.sources() =~= Seq::<Seq<Source>>::empty());
        }
        r
    }

    /// Number of gates added so far.
    pub fn gate_count(&self) -> (r: usize)
        ensures
            r == self.gates().len(),
    {
        self.gate_entries.len()
    }

    /// Number of inputs added so far.
    pub fn input_count(&self) -> (r: usize)
        ensures
            r == self.input_links().len(),
    {
        self.connected_inputs.len()
    }

    /// Number of outputs added so far.
    pub fn output_count(&self) -> (r: usize)
        ensures
            r == self.output_links().len(),
    {
        self.connected_outputs.len()
    }

    /// Add a gate, returning its node; its arity is read once, here.
    pub fn add_gate(&mut self, gate: T) -> (r: Node)
        requires
            old(self).wf(),
        ensures
            final(self).wf(),
            r == Node(old(self).gates().len() as usize),
            final(self).gates() == old(self).gates().push(gate),
            final(self).sources() == old(self).sources().push(Seq::<Source>::empty()),
            final(self).arities() == old(self).arities().push(gate.spec_arity()),
            final(self).input_links() == old(self).input_links(),
            final(self).output_links() == old(self).output_links(),
    {
        let handle = self.gate_entries.len();
        self.gate_entries.push(BuilderEntry::new(gate));
        proof {
            assert(self.gates() =~= old(self).gates().push(gate));
            assert(self.sources() =~= old(self).sources().push(Seq::<Source>::empty()));
            assert(self.arities() =~= old(self).arities().push(gate.spec_arity()));
        }
        Node(handle)
    }

    /// Add a circuit input, returning its handle.
    pub fn add_input(&mut self) -> (r: Input)
        requires
            old(self).wf(),
        ensures
            final(self).wf(),
            r == Input(old(self).input_links().len() as usize),
            final(self).input_links() == old(self).input_links().push(None),
            final(self).gates() == old(self).gates(),
            final(self).arities() == old(self).arities(),
            final(self).sources() == old(self).sources(),
            final(self).output_links() == old(self).output_links(),
    {
        let handle = self.connected_inputs.len();
        self.connected_inputs.push(None);
        Input(handle)
    }

    /// Add a circuit output, returning its handle.
    pub fn add_output(&mut self) -> (r: Output)
        requires
            old(self).wf(),
        ensures
            final(self).wf(),
            r == Output(old(self).output_links().len() as usize),
            final(self).output_links() == old(self).output_links().push(None),
            final(self).gates() == old(self).gates(),
            final(self).arities() == old(self).arities(),
            final(self).sources() == old(self).sources(),
            final(self).input_links() == old(self).input_links(),
    {
        let handle = self.connected_outputs.len();
        self.connected_outputs.push(None);
        Output(handle)
    }

    /// Appends a source to a gate's connections.
    fn push_source(&mut self, gate: usize, source: Source)
        requires
            old(self).wf(),
            gate < old(self).gates().len(),
            old(self).sources()[gate as int].len() < old(self).arities()[gate as int],
            source is Gate ==> (source->Gate_0).0 < old(self).gates().len() && (source->Gate_0).0 != gate,
            source is Input ==> (source->Input_0).0 < old(self).input_links().len(),
        ensures
            final(self).wf(),
            final(self).sources() == old(self).sources().update(
                gate as int,
                old(self).sources()[gate as int].push(source),
            ),
            final(self).gates() == old(self).gates(),
            final(self).arities() == old(self).arities(),
            final(self).input_links() == old(self).input_links(),
            final(self).output_links() == old(self).output_links(),
    {
        let ghost before = self.gate_entries@;
        let entry = &mut self.gate_entries[gate];
        entry.backward_edges.push(source);
        proof {
            assert(self.gates() =~= old(self).gates());
            assert(self.arities() =~= old(self).arities());
            assert(self.sources() =~= old(self).sources().update(
                gate as int,
                old(self).sources()[gate as int].push(source),
            ));
        }
    }

    /// Connect a circuit input to the next free input port of a gate.
    pub fn connect_input_to_gate(&mut self, input: Input, gate: Node) -> (r: Result<(), Error>)
        requires
            old(self).wf(),
        ensures
            final(self).wf(),
            input.0 >= old(self).input_links().len() ==> r == Err::<(), Error>(Error::NonExistentInput(input)),
            input.0 < old(self).input_links().len() && gate.0 >= old(self).gates().len()
                ==> r == Err::<(), Error>(Error::NonExistentGate(gate)),
            input.0 < old(self).input_links().len() && gate.0 < old(self).gates().len()
                && old(self).sources()[gate.0 as int].len() >= old(self).arities()[gate.0 as int]
                ==> r == Err::<(), Error>(Error::TooManyConnections { gate, arity: old(self).arities()[gate.0 as int] }),
            r is Err ==> *final(self) == *old(self),
            r is Ok <==> (input.0 < old(self).input_links().len() && gate.0 < old(self).gates().len()
                && old(self).sources()[gate.0 as int].len() < old(self).arities()[gate.0 as int]),
            r is Ok ==> final(self).sources() == old(self).sources().update(
                gate.0 as int,
                old(self).sources()[gate.0 as int].push(Source::Input(input)),
            ) && final(self).input_links() == old(self).input_links().update(input.0 as int, Some(gate))
                && final(self).gates() == old(self).gates() && final(self).arities() == old(self).arities()
                && final(self).output_links() == old(self).output_links(),
    {
        if input.0 >= self.connected_inputs.len() {
            return Err(Error::NonExistentInput(input));
        }
        if gate.0 >= self.gate_entries.len() {
            return Err(Error::NonExistentGate(gate));
        }
        let arity = self.gate_entries[gate.0].arity;
        if self.gate_entries[gate.0].backward_edges.len() >= arity {
            return Err(Error::TooManyConnections { gate, arity });
        }
        self.push_source(gate.0, Source::Input(input));
        self.connected_inputs.set(input.0, Some(gate));
        Ok(())
    }

    /// Connect the output of one gate to the next free input port of another.
    pub fn connect_gate_to_gate(&mut self, src_gate: Node, dst_gate: Node) -> (r: Result<(), Error>)
        requires
            old(self).wf(),
        ensures
            final(self).wf(),
            src_gate.0 >= old(self).gates().len() ==> r == Err::<(), Error>(Error::NonExistentGate(src_gate)),
            src_gate.0 < old(self).gates().len() && dst_gate.0 >= old(self).gates().len()
                ==> r == Err::<(), Error>(Error::NonExistentGate(dst_gate)),
            src_gate.0 < old(self).gates().len() && dst_gate.0 < old(self).gates().len() && src_gate == dst_gate
                ==> r == Err::<(), Error>(Error::SelfConnection(src_gate)),
            src_gate.0 < old(self).gates().len() && dst_gate.0 < old(self).gates().len() && src_gate != dst_gate
                && old(self).sources()[dst_gate.0 as int].len() >= old(self).arities()[dst_gate.0 as int]
                ==> r == Err::<(), Error>(Error::TooManyConnections { gate: dst_gate, arity: old(self).arities()[dst_gate.0 as int] }),
            r is Err ==> *final(self) == *old(self),
            r is Ok <==> (src_gate.0 < old(self).gates().len() && dst_gate.0 < old(self).gates().len() && src_gate != dst_gate
                && old(self).sources()[dst_gate.0 as int].len() < old(self).arities()[dst_gate.0 as int]),
            r is Ok ==> final(self).sources() == old(self).sources().update(
                dst_gate.0 as int,
                old(self).sources()[dst_gate.0 as int].push(Source::Gate(src_gate)),
            ) && final(self).input_links() == old(self).input_links()
                && final(self).gates() == old(self).gates() && final(self).arities() == old(self).arities()
                && final(self).output_links() == old(self).output_links(),
    {
        if src_gate.0 >= self.gate_entries.len() {
            return Err(Error::NonExistentGate(src_gate));
        }
        if dst_gate.0 >= self.gate_entries.len() {
            return Err(Error::NonExistentGate(dst_gate));
        }
        if src_gate == dst_gate {
            return Err(Error::SelfConnection(src_gate));
        }
        let arity = self.gate_entries[dst_gate.0].arity;
        if self.gate_entries[dst_gate.0].backward_edges.len() >= arity {
            return Err(Error::TooManyConnections { gate: dst_gate, arity });
        }
        self.push_source(dst_gate.0, Source::Gate(src_gate));
        Ok(())
    }

    /// Connect the output of a gate to a circuit output. Each output takes
    /// one gate and each gate feeds at most one output.
    pub fn connect_gate_to_output(&mut self, gate: Node, output: Output) -> (r: Result<(), Error>)
        requires
            old(self).wf(),
        ensures
            final(self).wf(),
            gate.0 >= old(self).gates().len() ==> r == Err::<(), Error>(Error::NonExistentGate(gate)),
            gate.0 < old(self).gates().len() && output.0 >= old(self).output_links().len()
                ==> r == Err::<(), Error>(Error::NonExistentOutput(output)),
            gate.0 < old(self).gates().len() && output.0 < old(self).output_links().len()
                && old(self).output_links()[output.0 as int] is Some
                ==> r == Err::<(), Error>(Error::OutputAlreadyConnectedToGate(output)),
            gate.0 < old(self).gates().len() && output.0 < old(self).output_links().len()
                && old(self).output_links()[output.0 as int] is None && old(self).output_links().contains(Some(gate))
                ==> r == Err::<(), Error>(Error::GateAlreadyConnectedToOutput(gate)),
            r is Err ==> *final(self) == *old(self),
            r is Ok <==> (gate.0 < old(self).gates().len() && output.0 < old(self).output_links().len()
                && old(self).output_links()[output.0 as int] is None && !old(self).output_links().contains(Some(gate))),
            r is Ok ==> final(self).output_links() == old(self).output_links().update(output.0 as int, Some(gate))
                && final(self).input_links() == old(self).input_links() && final(self).sources() == old(self).sources()
                && final(self).gates() == old(self).gates() && final(self).arities() == old(self).arities(),
    {
        if gate.0 >= self.gate_entries.len() {
            return Err(Error::NonExistentGate(gate));
        }
        if output.0 >= self.connected_outputs.len() {
            return Err(Error::NonExistentOutput(output));
        }
        if self.connected_outputs[output.0].is_some() {
            return Err(Error::OutputAlreadyConnectedToGate(output));
        }
        let mut i: usize = 0;
        while i < self.connected_outputs.len()
            invariant
                i <= self.connected_outputs@.len(),
                forall|j: int| 0 <= j < i ==> self.connected_outputs@[j] != Some(gate),
                *self == *old(self),
                self.wf(),
                gate.0 < self.gates().len(),
                output.0 < self.output_links().len(),
                self.connected_outputs@[output.0 as int] is None,
            decreases self.connected_outputs@.len() - i,
        {
            if let Some(g) = self.connected_outputs[i] {
                if g == gate {
                    return Err(Error::GateAlreadyConnectedToOutput(gate));
                }
            }
            i = i + 1;
        }
        self.connected_outputs.set(output.0, Some(gate));
        Ok(())
    }

    /// Checks the connections and, if they form a complete acyclic netlist,
    /// numbers its wires.
    ///
    /// Fails with the first fault found: an unused input, an unused output,
    /// a gate with no inputs or too few connections, a cycle, a gate no input
    /// reaches, or a gate that reaches no output. On success, input `i`
    /// drives wire `i` and the gates, in an order that puts each gate after
    /// the gates feeding it, write the following wires.
    #[verifier::rlimit(40)]
    #[verifier::spinoff_prover]
    pub fn build(self) -> (r: Result<Netlist<T>, Error>)
        requires
            self.wf(),
            self.input_links().len() + self.gates().len() <= usize::MAX,
        ensures
            self.connection_error() is Some ==> r == Err::<Netlist<T>, Error>(self.connection_error()->0),
            r is Ok ==> {
                &&& self.connection_error() is None
                &&& forall|g: int| 0 <= g < self.gates().len() ==> #[trigger] reached_from_inputs(
                    self.sources(),
                    self.gates().len() as int,
                    g,
                )
                &&& forall|g: int| 0 <= g < self.gates().len() ==> #[trigger] reaches_outputs(
                    self.sources(),
                    self.gates().len() as int,
                    self.output_links(),
                    g,
                )
                &&& exists|order: Seq<usize>|
                    is_topological(self.sources(), self.gates().len() as int, order) && #[trigger] r->Ok_0.is_built_from(
                        self.gates(),
                        self.sources(),
                        self.input_links().len(),
                        self.output_links(),
                        order,
                    )
            },
            r matches Err(e) ==> match e {
                Error::UnusedInput(_) | Error::UnusedOutput(_) | Error::ZeroArityGate(_) | Error::TooLittleConnections { .. } =>
                    self.connection_error() == Some(e),
                Error::CycleDetected(g) => {
                    &&& self.connection_error() is None
                    &&& g.0 < self.gates().len()
                    &&& on_cycle(self.sources(), self.gates().len() as int, g.0 as int)
                    &&& !self.is_acyclic()
                },
                Error::UnreachableGate(g) => {
                    &&& self.connection_error() is None
                    &&& self.is_acyclic()
                    &&& g.0 < self.gates().len()
                    &&& !reached_from_inputs(self.sources(), self.gates().len() as int, g.0 as int)
                    &&& forall|j: int| 0 <= j < g.0 ==> #[trigger] reached_from_inputs(self.sources(), self.gates().len() as int, j)
                },
                Error::DeadEndGate(g) => {
                    &&& self.connection_error() is None
                    &&& self.is_acyclic()
                    &&& forall|j: int| 0 <= j < self.gates().len() ==> #[trigger] reached_from_inputs(self.sources(), self.gates().len() as int, j)
                    &&& g.0 < self.gates().len()
                    &&& !reaches_outputs(self.sources(), self.gates().len() as int, self.output_links(), g.0 as int)
                    &&& forall|j: int| 0 <= j < g.0 ==> #[trigger] reaches_outputs(self.sources(), self.gates().len() as int, self.output_links(), j)
                },
                _ => false,
            },
            r is Ok ==> {
                &&& r->Ok_0.entries().len() == self.gates().len()
                &&& r->Ok_0.inputs().len() == self.input_links().len()
                &&& r->Ok_0.outputs().len() == self.output_links().len()
                &&& r->Ok_0.wires() == self.input_links().len() + self.gates().len()
            },
            !self.is_acyclic() && self.connection_error() is None ==> (r matches Err(e) && e is CycleDetected),
            r is Ok <==> {
                &&& self.connection_error() is None
                &&& self.is_acyclic()
                &&& forall|g: int| 0 <= g < self.gates().len() ==> #[trigger] reached_from_inputs(
                    self.sources(),
                    self.gates().len() as int,
                    g,
                )
                &&& forall|g: int| 0 <= g < self.gates().len() ==> #[trigger] reaches_outputs(
                    self.sources(),
                    self.gates().len() as int,
                    self.output_links(),
                    g,
                )
            },
    {
        let mut i: usize = 0;
        while i < self.connected_inputs.len()
            invariant
                i <= self.input_links().len(),
                forall|j: int| 0 <= j < i ==> !self.unused_input(j),
            decreases self.input_links().len() - i,
        {
            if self.connected_inputs[i].is_none() {
                proof {
                    assert(self.unused_input(i as int));
                    let c = choose|c: int| self.unused_input(c) && forall|j: int| 0 <= j < c ==> !self.unused_input(j);
                    assert(c == i);
                }
                return Err(Error::UnusedInput(Input(i)));
            }
            i = i + 1;
        }
        let mut o: usize = 0;
        while o < self.connected_outputs.len()
            invariant
                forall|j: int| !self.unused_input(j),
                o <= self.output_links().len(),
                forall|j: int| 0 <= j < o ==> !self.unused_output(j),
            decreases self.output_links().len() - o,
        {
            if self.connected_outputs[o].is_none() {
                proof {
                    assert(self.unused_output(o as int));
                    let c = choose|c: int| self.unused_output(c) && forall|j: int| 0 <= j < c ==> !self.unused_output(j);
                    assert(c == o);
                }
                return Err(Error::UnusedOutput(Output(o)));
            }
            o = o + 1;
        }
        let mut g: usize = 0;
        while g < self.gate_entries.len()
            invariant
                self.wf(),
                forall|j: int| !self.unused_input(j),
                forall|j: int| !self.unused_output(j),
                g <= self.gates().len(),
                forall|j: int| 0 <= j < g ==> !self.incomplete_gate(j),
            decreases self.gates().len() - g,
        {
            let arity = self.gate_entries[g].arity;
            if arity == 0 {
                proof {
                    assert(self.incomplete_gate(g as int));
                    let c = choose|c: int| self.incomplete_gate(c) && forall|j: int| 0 <= j < c ==> !self.incomplete_gate(j);
                    assert(c == g);
                }
                return Err(Error::ZeroArityGate(Node(g)));
            }
            if self.gate_entries[g].backward_edges.len() != arity {
                proof {
                    assert(self.incomplete_gate(g as int));
                    let c = choose|c: int| self.incomplete_gate(c) && forall|j: int| 0 <= j < c ==> !self.incomplete_gate(j);
                    assert(c == g);
                }
                return Err(Error::TooLittleConnections { gate: Node(g), arity });
            }
            g = g + 1;
        }
        proof {
            assert(self.connection_error() is None);
        }
        let order = match self.depth_first_order() {
            Ok(order) => order,
            Err(e) => {
                proof {
                    if let Error::CycleDetected(g) = e {
                        assert forall|order: Seq<usize>| !is_topological(self.sources(), self.gates().len() as int, order) by {
                            lemma_cycle_not_acyclic(self.sources(), self.gates().len() as int, order, g.0 as int);
                        }
                    }
                }
                return Err(e);
            },
        };
        let n = self.gate_entries.len();
        let ghost srcs = self.sources();
        let from_inputs = self.reached_from_inputs_flags(&order);
        let mut g: usize = 0;
        while g < n
            invariant
                self.wf(),
                self.connection_error() is None,
                is_topological(srcs, n as int, order@),
                n == self.gates().len(),
                srcs == self.sources(),
                from_inputs@.len() == n,
                forall|x: int| 0 <= x < n ==> #[trigger] from_inputs@[x] == reached_from_inputs(srcs, n as int, x),
                g <= n,
                forall|j: int| 0 <= j < g ==> #[trigger] reached_from_inputs(srcs, n as int, j),
            decreases n - g,
        {
            if !from_inputs[g] {
                proof {
                    assert(self.is_acyclic());
                }
                return Err(Error::UnreachableGate(Node(g)));
            }
            g = g + 1;
        }
        let to_outputs = self.reaching_outputs_flags(&order);
        let mut g: usize = 0;
        while g < n
            invariant
                self.wf(),
                self.connection_error() is None,
                is_topological(srcs, n as int, order@),
                forall|j: int| 0 <= j < n ==> #[trigger] reached_from_inputs(srcs, n as int, j),
                n == self.gates().len(),
                srcs == self.sources(),
                to_outputs@.len() == n,
                forall|x: int| 0 <= x < n ==> #[trigger] to_outputs@[x] == reaches_outputs(srcs, n as int, self.output_links(), x),
                g <= n,
                forall|j: int| 0 <= j < g ==> #[trigger] reaches_outputs(srcs, n as int, self.output_links(), j),
            decreases n - g,
        {
            if !to_outputs[g] {
                proof {
                    assert(self.is_acyclic());
                }
                return Err(Error::DeadEndGate(Node(g)));
            }
            g = g + 1;
        }
        let ghost this = self;
        let ghost ord = order@;
        proof {
            assert(self.is_acyclic());
            assert forall|x: int| 0 <= x < self.output_links().len() implies (#[trigger] self.output_links()[x]) is Some by {
                assert(!self.unused_output(x));
            }
        }
        let net = self.assemble(order);
        let r = Ok(net);
        proof {
            assert(net.is_built_from(this.gates(), this.sources(), this.input_links().len(), this.output_links(), ord));
            assert(r->Ok_0 == net);
            assert(is_topological(this.sources(), this.gates().len() as int, ord) && r->Ok_0.is_built_from(
                this.gates(),
                this.sources(),
                this.input_links().len(),
                this.output_links(),
                ord,
            ));
        }
        r
    }
}

impl<T: Gate> Default for Builder<T> {
    /// A builder with default initial capacities.
    fn default() -> (r: Self)
        ensures
            r.wf(),
            r.gates().len() == 0,
            r.input_links().len() == 0,
            r.output_links().len() == 0,
    {
        Self::new()
    }
}

} // verus!
