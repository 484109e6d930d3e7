//! Subcircuits: a static single assignment form of values produced and
//! consumed or borrowed by operations.

use vstd::prelude::*;

pub mod split;

use crate::arena::{Arena, Key};
use crate::circuit::operations::clone::{CloneId, CloneOp};
use crate::circuit::operations::drop::{DropId, DropOp};
use crate::circuit::operations::gate::{GateId, GateOp};
use crate::circuit::operations::input::{InputId, InputOp};
use crate::circuit::operations::output::{OutputId, OutputOp};
use crate::arena::slots::shared_item;
use crate::circuit::operations::{Consumer, Operation, PortId, Producer};
use crate::circuit::value::{copy_value_ids, with_mode, Destination, Origin, Ownership, Value, ValueId};
use crate::error::{Error, Result};
use crate::gate::{all_ok, first_error, port_modes, Gate};

verus! {

broadcast use crate::arena::key::lemma_key_view;

/// Handle identifying a specific subcircuit.
#[derive(Clone, Copy, PartialEq, Eq, Hash, Debug, Structural)]
pub struct CircuitId(pub Key);

impl CircuitId {
    /// Create a new circuit id from a key.
    pub fn new(key: Key) -> (r: Self)
        ensures
            r.0 == key,
    {
        Self(key)
    }

    /// Return the underlying key.
    pub fn key(self) -> (r: Key)
        ensures
            r == self.0,
    {
        self.0
    }
}

/// A subcircuit in linear SSA form.
pub struct Subcircuit<G: Gate> {
    /// Id of this circuit.
    id: CircuitId,
    /// All gates.
    gates: Arena<GateOp<G>>,
    /// All clones.
    clones: Arena<CloneOp>,
    /// All drops.
    drops: Arena<DropOp>,
    /// Circuit inputs.
    inputs: Arena<InputOp>,
    /// Circuit outputs.
    outputs: Arena<OutputOp>,
    /// All values.
    values: Arena<Value<G>>,
}

/// The operations stored in an arena, in slot order, each made from its key.
pub open spec fn ops_of<T>(entries: Seq<((usize, usize), T)>, make: spec_fn(Key) -> Operation) -> Seq<Operation> {
    entries.map_values(|e: ((usize, usize), T)| make(Key::from_view(e.0)))
}

/// Taking one more entry adds that entry's operation at the end.
proof fn lemma_ops_of_take<T>(entries: Seq<((usize, usize), T)>, make: spec_fn(Key) -> Operation, i: int)
    requires
        0 <= i < entries.len(),
    ensures
        ops_of(entries.take(i + 1), make) == ops_of(entries.take(i), make).push(make(Key::from_view(entries[i].0))),
{
    assert(ops_of(entries.take(i + 1), make) =~= ops_of(entries.take(i), make).push(make(Key::from_view(entries[i].0))));
}

/// Entries with distinct slots make distinct operations when `make` keeps
/// keys apart.
proof fn lemma_ops_of_distinct<T>(entries: Seq<((usize, usize), T)>, make: spec_fn(Key) -> Operation)
    requires
        forall|a: int, b: int| 0 <= a < b < entries.len() ==> (#[trigger] entries[a]).0.0 < (#[trigger] entries[b]).0.0,
        forall|k1: Key, k2: Key| #[trigger] make(k1) == #[trigger] make(k2) ==> k1 == k2,
    ensures
        ops_of(entries, make).no_duplicates(),
{
    let ops = ops_of(entries, make);
    assert forall|a: int, b: int| 0 <= a < ops.len() && 0 <= b < ops.len() && a != b implies ops[a] != ops[b] by {
        let (x, y) = if a < b { (a, b) } else { (b, a) };
        assert(entries[x].0.0 < entries[y].0.0);
        if ops[a] == ops[b] {
            assert(make(Key::from_view(entries[a].0)) == make(Key::from_view(entries[b].0)));
            Key::lemma_from_view(entries[a].0);
            Key::lemma_from_view(entries[b].0);
        }
    }
}

/// `i` is the first position in `s` of a use by consumer `c` at port `p`.
pub open spec fn is_first_use(s: Seq<Destination>, c: Consumer, p: PortId, i: int) -> bool {
    &&& 0 <= i < s.len()
    &&& s[i].consumer == c
    &&& s[i].port == p
    &&& forall|j: int| 0 <= j < i ==> !((#[trigger] s[j]).consumer == c && s[j].port == p)
}

/// `s` holds a use by consumer `c` at port `p`.
pub open spec fn has_use(s: Seq<Destination>, c: Consumer, p: PortId) -> bool {
    exists|i: int| 0 <= i < s.len() && (#[trigger] s[i]).consumer == c && s[i].port == p
}

/// The uses that a gate reading `inputs` adds to the value with key `k`:
/// one per input port that reads it, in port order.
pub open spec fn gate_uses(inputs: Seq<ValueId>, k: (usize, usize), consumer: Consumer, modes: Seq<Ownership>) -> Seq<Destination>
    decreases inputs.len(),
{
    if inputs.len() == 0 {
        Seq::empty()
    } else {
        let p = inputs.len() - 1;
        let prev = gate_uses(inputs.drop_last(), k, consumer, modes);
        if inputs[p].value@ == k {
            prev.push(Destination { consumer, port: PortId(p as usize), mode: modes[p] })
        } else {
            prev
        }
    }
}

impl<G: Gate> Subcircuit<G> {
    /// The id of this subcircuit.
    pub closed spec fn circuit_id(&self) -> CircuitId {
        self.id
    }

    /// Gate operations.
    pub closed spec fn gates(&self) -> Arena<GateOp<G>> {
        self.gates
    }

    /// The clone operations.
    pub closed spec fn clones(&self) -> Arena<CloneOp> {
        self.clones
    }

    /// The drop operations.
    pub closed spec fn drops(&self) -> Arena<DropOp> {
        self.drops
    }

    /// The circuit inputs.
    pub closed spec fn inputs(&self) -> Arena<InputOp> {
        self.inputs
    }

    /// The circuit outputs.
    pub closed spec fn outputs(&self) -> Arena<OutputOp> {
        self.outputs
    }

    /// The values.
    pub closed spec fn values(&self) -> Arena<Value<G>> {
        self.values
    }

    /// All arenas are consistent.
    pub open spec fn wf(&self) -> bool {
        &&& self.gates().wf()
        &&& self.clones().wf()
        &&& self.drops().wf()
        &&& self.inputs().wf()
        &&& self.outputs().wf()
        &&& self.values().wf()
    }

    /// The value id belongs to this subcircuit and names a stored value.
    pub open spec fn has_value(&self, v: ValueId) -> bool {
        v.circuit == self.circuit_id() && self.values()@.dom().contains(v.value@)
    }

    /// The value named by an id of this subcircuit.
    pub open spec fn value_of(&self, v: ValueId) -> Value<G> {
        self.values()@[v.value@]
    }

    /// The error reported for a value id that is not valid here.
    pub open spec fn value_error(&self, v: ValueId) -> Error {
        if v.circuit != self.circuit_id() {
            Error::CircuitIdMismatch(v, self.circuit_id())
        } else {
            Error::ValueNotFound(v)
        }
    }

    /// The operation names a stored operation of this subcircuit.
    pub open spec fn has_operation(&self, op: Operation) -> bool {
        match op {
            Operation::Input(id) => id.circuit == self.circuit_id() && self.inputs()@.dom().contains(id.key@),
            Operation::Gate(id) => id.circuit == self.circuit_id() && self.gates()@.dom().contains(id.key@),
            Operation::Clone(id) => id.circuit == self.circuit_id() && self.clones()@.dom().contains(id.key@),
            Operation::Drop(id) => id.circuit == self.circuit_id() && self.drops()@.dom().contains(id.key@),
            Operation::Output(id) => id.circuit == self.circuit_id() && self.outputs()@.dom().contains(id.key@),
        }
    }

    /// All operations: inputs, then gates, clones, drops and outputs, each
    /// group in slot order.
    pub open spec fn operations(&self) -> Seq<Operation> {
        let id = self.circuit_id();
        ops_of(self.inputs().entries(), |k: Key| Operation::Input(InputId { circuit: id, key: k }))
            + ops_of(self.gates().entries(), |k: Key| Operation::Gate(GateId { circuit: id, key: k }))
            + ops_of(self.clones().entries(), |k: Key| Operation::Clone(CloneId { circuit: id, key: k }))
            + ops_of(self.drops().entries(), |k: Key| Operation::Drop(DropId { circuit: id, key: k }))
            + ops_of(self.outputs().entries(), |k: Key| Operation::Output(OutputId { circuit: id, key: k }))
    }

    /// The values an operation produces, by output port; none for drops,
    /// outputs and operations that are not stored here.
    pub open spec fn produced(&self, op: Operation) -> Seq<ValueId> {
        if !self.has_operation(op) {
            Seq::empty()
        } else {
            match op {
                Operation::Input(id) => seq![self.inputs()@[id.key@].output()],
                Operation::Gate(id) => self.gates()@[id.key@].outputs(),
                Operation::Clone(id) => self.clones()@[id.key@].outputs(),
                _ => Seq::empty(),
            }
        }
    }

    /// No operation is listed twice.
    pub proof fn lemma_operations_distinct(&self)
        requires
            self.wf(),
        ensures
            self.operations().no_duplicates(),
    {
        let id = self.circuit_id();
        let mi = |k: Key| Operation::Input(InputId { circuit: id, key: k });
        let mg = |k: Key| Operation::Gate(GateId { circuit: id, key: k });
        let mc = |k: Key| Operation::Clone(CloneId { circuit: id, key: k });
        let md = |k: Key| Operation::Drop(DropId { circuit: id, key: k });
        let mo = |k: Key| Operation::Output(OutputId { circuit: id, key: k });
        self.inputs().lemma_entries_are_elements();
        self.gates().lemma_entries_are_elements();
        self.clones().lemma_entries_are_elements();
        self.drops().lemma_entries_are_elements();
        self.outputs().lemma_entries_are_elements();
        let a = ops_of(self.inputs().entries(), mi);
        let b = ops_of(self.gates().entries(), mg);
        let c = ops_of(self.clones().entries(), mc);
        let d = ops_of(self.drops().entries(), md);
        let e = ops_of(self.outputs().entries(), mo);
        lemma_ops_of_distinct(self.inputs().entries(), mi);
        lemma_ops_of_distinct(self.gates().entries(), mg);
        lemma_ops_of_distinct(self.clones().entries(), mc);
        lemma_ops_of_distinct(self.drops().entries(), md);
        lemma_ops_of_distinct(self.outputs().entries(), mo);
        assert(forall|i: int| 0 <= i < a.len() ==> (#[trigger] a[i]) is Input);
        assert(forall|i: int| 0 <= i < b.len() ==> (#[trigger] b[i]) is Gate);
        assert(forall|i: int| 0 <= i < c.len() ==> (#[trigger] c[i]) is Clone);
        assert(forall|i: int| 0 <= i < d.len() ==> (#[trigger] d[i]) is Drop);
        assert(forall|i: int| 0 <= i < e.len() ==> (#[trigger] e[i]) is Output);
        vstd::seq_lib::lemma_no_dup_in_concat(a, b);
        vstd::seq_lib::lemma_no_dup_in_concat(a + b, c);
        vstd::seq_lib::lemma_no_dup_in_concat(a + b + c, d);
        vstd::seq_lib::lemma_no_dup_in_concat(a + b + c + d, e);
        assert(self.operations() == a + b + c + d + e);
    }

    /// A well-formed subcircuit with the given id and nothing in it.
    pub open spec fn is_fresh(&self, id: CircuitId) -> bool {
        &&& self.wf()
        &&& self.circuit_id() == id
        &&& self.gates()@.dom().is_empty()
        &&& self.clones()@.dom().is_empty()
        &&& self.drops()@.dom().is_empty()
        &&& self.inputs()@.dom().is_empty()
        &&& self.outputs()@.dom().is_empty()
        &&& self.values()@.dom().is_empty()
    }

    /// Create a new empty subcircuit.
    pub fn new(id: CircuitId) -> (r: Self)
        ensures
            r.is_fresh(id),
            r.wf(),
            r.circuit_id() == id,
            r.gates()@.dom().is_empty(),
            r.clones()@.dom().is_empty(),
            r.drops()@.dom().is_empty(),
            r.inputs()@.dom().is_empty(),
            r.outputs()@.dom().is_empty(),
            r.values()@.dom().is_empty(),
    {
        Self {
            id,
            gates: Arena::new(),
            clones: Arena::new(),
            drops: Arena::new(),
            values: Arena::new(),
            inputs: Arena::new(),
            outputs: Arena::new(),
        }
    }

    /// Get the circuit id.
    pub fn id(&self) -> (r: CircuitId)
        ensures
            r == self.circuit_id(),
    {
        self.id
    }

    /// Validate that a value belongs to this circuit and exists.
    fn validate_value(&self, value: ValueId) -> (r: Result<()>)
        requires
            self.wf(),
        ensures
            r is Ok <==> self.has_value(value),
            r is Err ==> r->Err_0 == self.value_error(value),
    {
        if value.circuit() != self.id {
            return Err(Error::CircuitIdMismatch(value, self.id));
        }
        if !self.values.contains_key(value.key()) {
            return Err(Error::ValueNotFound(value));
        }
        Ok(())
    }

    /// Get a value, validating circuit ownership.
    pub fn value(&self, value: ValueId) -> (r: Result<&Value<G>>)
        requires
            self.wf(),
        ensures
            r is Ok <==> self.has_value(value),
            r is Ok ==> *r->Ok_0 == self.value_of(value),
            r is Err ==> r->Err_0 == self.value_error(value),
    {
        self.validate_value(value)?;
        match self.values.get(value.key()) {
            Some(v) => Ok(v),
            None => Err(Error::ValueNotFound(value)),
        }
    }

    /// Get a gate operation by id.
    pub fn gate_op(&self, id: GateId) -> (r: Result<&GateOp<G>>)
        requires
            self.wf(),
        ensures
            r is Ok <==> self.has_operation(Operation::Gate(id)),
            r is Ok ==> *r->Ok_0 == self.gates()@[id.key@],
            r is Err ==> r->Err_0 == Error::GateNotFound(id),
    {
        if id.circuit() != self.id {
            return Err(Error::GateNotFound(id));
        }
        match self.gates.get(id.key()) {
            Some(g) => Ok(g),
            None => Err(Error::GateNotFound(id)),
        }
    }

    /// Get a clone operation by id.
    pub fn clone_op(&self, id: CloneId) -> (r: Result<&CloneOp>)
        requires
            self.wf(),
        ensures
            r is Ok <==> self.has_operation(Operation::Clone(id)),
            r is Ok ==> *r->Ok_0 == self.clones()@[id.key@],
            r is Err ==> r->Err_0 == Error::CloneNotFound(id),
    {
        if id.circuit() != self.id {
            return Err(Error::CloneNotFound(id));
        }
        match self.clones.get(id.key()) {
            Some(c) => Ok(c),
            None => Err(Error::CloneNotFound(id)),
        }
    }

    /// Get a drop operation by id.
    pub fn drop_op(&self, id: DropId) -> (r: Result<&DropOp>)
        requires
            self.wf(),
        ensures
            r is Ok <==> self.has_operation(Operation::Drop(id)),
            r is Ok ==> *r->Ok_0 == self.drops()@[id.key@],
            r is Err ==> r->Err_0 == Error::DropNotFound(id),
    {
        if id.circuit() != self.id {
            return Err(Error::DropNotFound(id));
        }
        match self.drops.get(id.key()) {
            Some(d) => Ok(d),
            None => Err(Error::DropNotFound(id)),
        }
    }

    /// Get an input operation by id.
    pub fn input_op(&self, id: InputId) -> (r: Result<&InputOp>)
        requires
            self.wf(),
        ensures
            r is Ok <==> self.has_operation(Operation::Input(id)),
            r is Ok ==> *r->Ok_0 == self.inputs()@[id.key@],
            r is Err ==> r->Err_0 == Error::InputNotFound(id),
    {
        if id.circuit() != self.id {
            return Err(Error::InputNotFound(id));
        }
        match self.inputs.get(id.key()) {
            Some(i) => Ok(i),
            None => Err(Error::InputNotFound(id)),
        }
    }

    /// Get an output operation by id.
    pub fn output_op(&self, id: OutputId) -> (r: Result<&OutputOp>)
        requires
            self.wf(),
        ensures
            r is Ok <==> self.has_operation(Operation::Output(id)),
            r is Ok ==> *r->Ok_0 == self.outputs()@[id.key@],
            r is Err ==> r->Err_0 == Error::OutputNotFound(id),
    {
        if id.circuit() != self.id {
            return Err(Error::OutputNotFound(id));
        }
        match self.outputs.get(id.key()) {
            Some(o) => Ok(o),
            None => Err(Error::OutputNotFound(id)),
        }
    }

    /// Get the values produced by an operation, by output port.
    pub fn produced_values(&self, op: Operation) -> (r: Result<Vec<ValueId>>)
        requires
            self.wf(),
        ensures
            r is Ok <==> (self.has_operation(op) || op is Drop || op is Output),
            r is Ok ==> r->Ok_0@ == self.produced(op),
            r is Err ==> r->Err_0 == match op {
                Operation::Input(id) => Error::InputNotFound(id),
                Operation::Gate(id) => Error::GateNotFound(id),
                Operation::Clone(id) => Error::CloneNotFound(id),
                Operation::Drop(id) => Error::DropNotFound(id),
                Operation::Output(id) => Error::OutputNotFound(id),
            },
    {
        match op {
            Operation::Input(id) => {
                let input = self.input_op(id)?;
                let mut v: Vec<ValueId> = Vec::new();
                v.push(input.get_output());
                proof {
                    assert(v@ =~= seq![input.output()]);
                }
                Ok(v)
            },
            Operation::Gate(id) => {
                let gate = self.gate_op(id)?;
                Ok(copy_value_ids(gate.get_outputs()))
            },
            Operation::Clone(id) => {
                let clone = self.clone_op(id)?;
                Ok(copy_value_ids(clone.get_outputs()))
            },
            Operation::Drop(_) | Operation::Output(_) => Ok(Vec::new()),
        }
    }

    /// Get all moving uses of a value, in order.
    pub fn get_move_destinations(&self, value: ValueId) -> (r: Result<Vec<Destination>>)
        requires
            self.wf(),
        ensures
            r is Ok <==> self.has_value(value),
            r is Ok ==> r->Ok_0@ == with_mode(self.value_of(value).destinations(), Ownership::Move),
            r is Err ==> r->Err_0 == self.value_error(value),
    {
        let val = self.value(value)?;
        let moves = val.uses_with_mode(Ownership::Move);
        Ok(moves)
    }

    /// Remove a gate without checking references.
    pub fn remove_gate_unchecked(&mut self, id: GateId)
        requires
            old(self).wf(),
        ensures
            final(self).wf(),
            final(self).gates()@ == old(self).gates()@.remove(id.key@),
            final(self).clones() == old(self).clones(),
            final(self).drops() == old(self).drops(),
            final(self).inputs() == old(self).inputs(),
            final(self).outputs() == old(self).outputs(),
            final(self).values() == old(self).values(),
            final(self).circuit_id() == old(self).circuit_id(),
    {
        let _ = self.gates.remove(id.key());
    }

    /// Remove a clone without checking references.
    pub fn remove_clone_unchecked(&mut self, id: CloneId)
        requires
            old(self).wf(),
        ensures
            final(self).wf(),
            final(self).clones()@ == old(self).clones()@.remove(id.key@),
            final(self).gates() == old(self).gates(),
            final(self).drops() == old(self).drops(),
            final(self).inputs() == old(self).inputs(),
            final(self).outputs() == old(self).outputs(),
            final(self).values() == old(self).values(),
            final(self).circuit_id() == old(self).circuit_id(),
    {
        let _ = self.clones.remove(id.key());
    }

    /// Remove a drop without checking references.
    pub fn remove_drop_unchecked(&mut self, id: DropId)
        requires
            old(self).wf(),
        ensures
            final(self).wf(),
            final(self).drops()@ == old(self).drops()@.remove(id.key@),
            final(self).gates() == old(self).gates(),
            final(self).clones() == old(self).clones(),
            final(self).inputs() == old(self).inputs(),
            final(self).outputs() == old(self).outputs(),
            final(self).values() == old(self).values(),
            final(self).circuit_id() == old(self).circuit_id(),
    {
        let _ = self.drops.remove(id.key());
    }

    /// Remove an input without checking references.
    pub fn remove_input_unchecked(&mut self, id: InputId)
        requires
            old(self).wf(),
        ensures
            final(self).wf(),
            final(self).inputs()@ == old(self).inputs()@.remove(id.key@),
            final(self).gates() == old(self).gates(),
            final(self).clones() == old(self).clones(),
            final(self).drops() == old(self).drops(),
            final(self).outputs() == old(self).outputs(),
            final(self).values() == old(self).values(),
            final(self).circuit_id() == old(self).circuit_id(),
    {
        let _ = self.inputs.remove(id.key());
    }

    /// Remove an output without checking references.
    pub fn remove_output_unchecked(&mut self, id: OutputId)
        requires
            old(self).wf(),
        ensures
            final(self).wf(),
            final(self).outputs()@ == old(self).outputs()@.remove(id.key@),
            final(self).gates() == old(self).gates(),
            final(self).clones() == old(self).clones(),
            final(self).drops() == old(self).drops(),
            final(self).inputs() == old(self).inputs(),
            final(self).values() == old(self).values(),
            final(self).circuit_id() == old(self).circuit_id(),
    {
        let _ = self.outputs.remove(id.key());
    }

    /// Remove a value without checking references.
    pub fn remove_value_unchecked(&mut self, id: ValueId)
        requires
            old(self).wf(),
        ensures
            final(self).wf(),
            final(self).values()@ == old(self).values()@.remove(id.value@),
            final(self).gates() == old(self).gates(),
            final(self).clones() == old(self).clones(),
            final(self).drops() == old(self).drops(),
            final(self).inputs() == old(self).inputs(),
            final(self).outputs() == old(self).outputs(),
            final(self).circuit_id() == old(self).circuit_id(),
    {
        let _ = self.values.remove(id.key());
    }

    /// Check if the subcircuit is empty.
    pub fn is_empty(&self) -> (r: bool)
        requires
            self.wf(),
        ensures
            r == (self.gates()@.dom().len() == 0 && self.clones()@.dom().len() == 0
                && self.drops()@.dom().len() == 0 && self.inputs()@.dom().len() == 0
                && self.outputs()@.dom().len() == 0 && self.values()@.dom().len() == 0),
    {
        self.gates.is_empty() && self.clones.is_empty() && self.drops.is_empty()
            && self.inputs.is_empty() && self.outputs.is_empty() && self.values.is_empty()
    }
}

impl<G: Gate> Subcircuit<G> {
    /// Iterate over all values in the circuit, in slot order.
    pub fn all_values(&self) -> (r: Vec<(ValueId, &Value<G>)>)
        requires
            self.wf(),
        ensures
            r@.len() == self.values().entries().len(),
            forall|j: int|
                0 <= j < r@.len() ==> (#[trigger] r@[j]).0 == (ValueId { circuit: self.circuit_id(), value: Key::from_view(self.values().entries()[j].0) })
                    && *r@[j].1 == self.values().entries()[j].1,
    {
        let items = self.values.items();
        let mut r: Vec<(ValueId, &Value<G>)> = Vec::new();
        let mut i: usize = 0;
        while i < items.len()
            invariant
                items@.map_values(|it: (Key, &Value<G>)| shared_item(it)) == self.values().entries(),
                i <= items@.len(),
                r@.len() == i,
                forall|j: int|
                    0 <= j < i ==> (#[trigger] r@[j]).0 == (ValueId { circuit: self.circuit_id(), value: items@[j].0 })
                        && r@[j].1 == items@[j].1,
            decreases items@.len() - i,
        {
            let (k, v) = items[i];
            r.push((ValueId::new(self.id, k), v));
            i = i + 1;
        }
        proof {
            assert forall|j: int| 0 <= j < r@.len() implies (#[trigger] r@[j]).0 == (ValueId { circuit: self.circuit_id(), value: Key::from_view(self.values().entries()[j].0) })
                && *r@[j].1 == self.values().entries()[j].1 by {
                assert(shared_item(items@[j]) == self.values().entries()[j]);
                Key::lemma_view_from(items@[j].0);
            }
        }
        r
    }

    /// Iterate over all outputs in the circuit, in slot order.
    pub fn all_outputs(&self) -> (r: Vec<(OutputId, &OutputOp)>)
        requires
            self.wf(),
        ensures
            r@.len() == self.outputs().entries().len(),
            forall|j: int|
                0 <= j < r@.len() ==> (#[trigger] r@[j]).0 == (OutputId { circuit: self.circuit_id(), key: Key::from_view(self.outputs().entries()[j].0) })
                    && *r@[j].1 == self.outputs().entries()[j].1,
    {
        let items = self.outputs.items();
        let mut r: Vec<(OutputId, &OutputOp)> = Vec::new();
        let mut i: usize = 0;
        while i < items.len()
            invariant
                items@.map_values(|it: (Key, &OutputOp)| shared_item(it)) == self.outputs().entries(),
                i <= items@.len(),
                r@.len() == i,
                forall|j: int|
                    0 <= j < i ==> (#[trigger] r@[j]).0 == (OutputId { circuit: self.circuit_id(), key: items@[j].0 })
                        && r@[j].1 == items@[j].1,
            decreases items@.len() - i,
        {
            let (k, v) = items[i];
            r.push((OutputId::new(self.id, k), v));
            i = i + 1;
        }
        proof {
            assert forall|j: int| 0 <= j < r@.len() implies (#[trigger] r@[j]).0 == (OutputId { circuit: self.circuit_id(), key: Key::from_view(self.outputs().entries()[j].0) })
                && *r@[j].1 == self.outputs().entries()[j].1 by {
                assert(shared_item(items@[j]) == self.outputs().entries()[j]);
                Key::lemma_view_from(items@[j].0);
            }
        }
        r
    }

    /// Iterate over all inputs in the circuit, in slot order.
    pub fn all_inputs(&self) -> (r: Vec<(InputId, &InputOp)>)
        requires
            self.wf(),
        ensures
            r@.len() == self.inputs().entries().len(),
            forall|j: int|
                0 <= j < r@.len() ==> (#[trigger] r@[j]).0 == (InputId { circuit: self.circuit_id(), key: Key::from_view(self.inputs().entries()[j].0) })
                    && *r@[j].1 == self.inputs().entries()[j].1,
    {
        let items = self.inputs.items();
        let mut r: Vec<(InputId, &InputOp)> = Vec::new();
        let mut i: usize = 0;
        while i < items.len()
            invariant
                items@.map_values(|it: (Key, &InputOp)| shared_item(it)) == self.inputs().entries(),
                i <= items@.len(),
                r@.len() == i,
                forall|j: int|
                    0 <= j < i ==> (#[trigger] r@[j]).0 == (InputId { circuit: self.circuit_id(), key: items@[j].0 })
                        && r@[j].1 == items@[j].1,
            decreases items@.len() - i,
        {
            let (k, v) = items[i];
            r.push((InputId::new(self.id, k), v));
            i = i + 1;
        }
        proof {
            assert forall|j: int| 0 <= j < r@.len() implies (#[trigger] r@[j]).0 == (InputId { circuit: self.circuit_id(), key: Key::from_view(self.inputs().entries()[j].0) })
                && *r@[j].1 == self.inputs().entries()[j].1 by {
                assert(shared_item(items@[j]) == self.inputs().entries()[j]);
                Key::lemma_view_from(items@[j].0);
            }
        }
        r
    }

    /// Iterate over all gates in the circuit, in slot order.
    pub fn all_gates(&self) -> (r: Vec<(GateId, &GateOp<G>)>)
        requires
            self.wf(),
        ensures
            r@.len() == self.gates().entries().len(),
            forall|j: int|
                0 <= j < r@.len() ==> (#[trigger] r@[j]).0 == (GateId { circuit: self.circuit_id(), key: Key::from_view(self.gates().entries()[j].0) })
                    && *r@[j].1 == self.gates().entries()[j].1,
    {
        let items = self.gates.items();
        let mut r: Vec<(GateId, &GateOp<G>)> = Vec::new();
        let mut i: usize = 0;
        while i < items.len()
            invariant
                items@.map_values(|it: (Key, &GateOp<G>)| shared_item(it)) == self.gates().entries(),
                i <= items@.len(),
                r@.len() == i,
                forall|j: int|
                    0 <= j < i ==> (#[trigger] r@[j]).0 == (GateId { circuit: self.circuit_id(), key: items@[j].0 })
                        && r@[j].1 == items@[j].1,
            decreases items@.len() - i,
        {
            let (k, v) = items[i];
            r.push((GateId::new(self.id, k), v));
            i = i + 1;
        }
        proof {
            assert forall|j: int| 0 <= j < r@.len() implies (#[trigger] r@[j]).0 == (GateId { circuit: self.circuit_id(), key: Key::from_view(self.gates().entries()[j].0) })
                && *r@[j].1 == self.gates().entries()[j].1 by {
                assert(shared_item(items@[j]) == self.gates().entries()[j]);
                Key::lemma_view_from(items@[j].0);
            }
        }
        r
    }

    /// Iterate over all clones in the circuit, in slot order.
    pub fn all_clones(&self) -> (r: Vec<(CloneId, &CloneOp)>)
        requires
            self.wf(),
        ensures
            r@.len() == self.clones().entries().len(),
            forall|j: int|
                0 <= j < r@.len() ==> (#[trigger] r@[j]).0 == (CloneId { circuit: self.circuit_id(), key: Key::from_view(self.clones().entries()[j].0) })
                    && *r@[j].1 == self.clones().entries()[j].1,
    {
        let items = self.clones.items();
        let mut r: Vec<(CloneId, &CloneOp)> = Vec::new();
        let mut i: usize = 0;
        while i < items.len()
            invariant
                items@.map_values(|it: (Key, &CloneOp)| shared_item(it)) == self.clones().entries(),
                i <= items@.len(),
                r@.len() == i,
                forall|j: int|
                    0 <= j < i ==> (#[trigger] r@[j]).0 == (CloneId { circuit: self.circuit_id(), key: items@[j].0 })
                        && r@[j].1 == items@[j].1,
            decreases items@.len() - i,
        {
            let (k, v) = items[i];
            r.push((CloneId::new(self.id, k), v));
            i = i + 1;
        }
        proof {
            assert forall|j: int| 0 <= j < r@.len() implies (#[trigger] r@[j]).0 == (CloneId { circuit: self.circuit_id(), key: Key::from_view(self.clones().entries()[j].0) })
                && *r@[j].1 == self.clones().entries()[j].1 by {
                assert(shared_item(items@[j]) == self.clones().entries()[j]);
                Key::lemma_view_from(items@[j].0);
            }
        }
        r
    }

    /// Iterate over all drops in the circuit, in slot order.
    pub fn all_drops(&self) -> (r: Vec<(DropId, &DropOp)>)
        requires
            self.wf(),
        ensures
            r@.len() == self.drops().entries().len(),
            forall|j: int|
                0 <= j < r@.len() ==> (#[trigger] r@[j]).0 == (DropId { circuit: self.circuit_id(), key: Key::from_view(self.drops().entries()[j].0) })
                    && *r@[j].1 == self.drops().entries()[j].1,
    {
        let items = self.drops.items();
        let mut r: Vec<(DropId, &DropOp)> = Vec::new();
        let mut i: usize = 0;
        while i < items.len()
            invariant
                items@.map_values(|it: (Key, &DropOp)| shared_item(it)) == self.drops().entries(),
                i <= items@.len(),
                r@.len() == i,
                forall|j: int|
                    0 <= j < i ==> (#[trigger] r@[j]).0 == (DropId { circuit: self.circuit_id(), key: items@[j].0 })
                        && r@[j].1 == items@[j].1,
            decreases items@.len() - i,
        {
            let (k, v) = items[i];
            r.push((DropId::new(self.id, k), v));
            i = i + 1;
        }
        proof {
            assert forall|j: int| 0 <= j < r@.len() implies (#[trigger] r@[j]).0 == (DropId { circuit: self.circuit_id(), key: Key::from_view(self.drops().entries()[j].0) })
                && *r@[j].1 == self.drops().entries()[j].1 by {
                assert(shared_item(items@[j]) == self.drops().entries()[j]);
                Key::lemma_view_from(items@[j].0);
            }
        }
        r
    }

    /// All operations in the circuit: inputs, then gates, clones, drops and
    /// outputs, each group in slot order.
    pub fn all_operations(&self) -> (r: Vec<Operation>)
        requires
            self.wf(),
        ensures
            r@ == self.operations(),
    {
        let ghost id = self.circuit_id();
        let mut r: Vec<Operation> = Vec::new();
        let ghost make_input = |k: Key| Operation::Input(InputId { circuit: id, key: k });
        let ghost make_gate = |k: Key| Operation::Gate(GateId { circuit: id, key: k });
        let ghost make_clone = |k: Key| Operation::Clone(CloneId { circuit: id, key: k });
        let ghost make_drop = |k: Key| Operation::Drop(DropId { circuit: id, key: k });
        let ghost make_output = |k: Key| Operation::Output(OutputId { circuit: id, key: k });
        let items = self.inputs.items();
        let ghost base = r@;
        let mut i: usize = 0;
        proof {
            assert(items@.map_values(|it| shared_item(it)).len() == items@.len());
        }
        while i < items.len()
            invariant
                id == self.circuit_id(),
                items@.map_values(|it: (Key, &InputOp)| shared_item(it)) == self.inputs().entries(),
                forall|k: Key| #[trigger] make_input(k) == Operation::Input(InputId { circuit: id, key: k }),
                i <= items@.len(),
                r@ == base + ops_of(self.inputs().entries().take(i as int), make_input),
            decreases items@.len() - i,
        {
            let (k, _) = items[i];
            r.push(Operation::Input(InputId::new(self.id, k)));
            i = i + 1;
            proof {
                assert(shared_item(items@[i - 1]) == self.inputs().entries()[i - 1]);
                Key::lemma_view_from(items@[i - 1].0);
                lemma_ops_of_take(self.inputs().entries(), make_input, i - 1);
                assert(r@ =~= base + ops_of(self.inputs().entries().take(i as int), make_input));
            }
        }
        proof {
            assert(i == self.inputs().entries().len());
            assert(self.inputs().entries().take(i as int) =~= self.inputs().entries());
        }
        let items = self.gates.items();
        let ghost base = r@;
        let mut i: usize = 0;
        proof {
            assert(items@.map_values(|it| shared_item(it)).len() == items@.len());
        }
        while i < items.len()
            invariant
                id == self.circuit_id(),
                items@.map_values(|it: (Key, &GateOp<G>)| shared_item(it)) == self.gates().entries(),
                forall|k: Key| #[trigger] make_gate(k) == Operation::Gate(GateId { circuit: id, key: k }),
                i <= items@.len(),
                r@ == base + ops_of(self.gates().entries().take(i as int), make_gate),
            decreases items@.len() - i,
        {
            let (k, _) = items[i];
            r.push(Operation::Gate(GateId::new(self.id, k)));
            i = i + 1;
            proof {
                assert(shared_item(items@[i - 1]) == self.gates().entries()[i - 1]);
                Key::lemma_view_from(items@[i - 1].0);
                lemma_ops_of_take(self.gates().entries(), make_gate, i - 1);
                assert(r@ =~= base + ops_of(self.gates().entries().take(i as int), make_gate));
            }
        }
        proof {
            assert(i == self.gates().entries().len());
            assert(self.gates().entries().take(i as int) =~= self.gates().entries());
        }
        let items = self.clones.items();
        let ghost base = r@;
        let mut i: usize = 0;
        proof {
            assert(items@.map_values(|it| shared_item(it)).len() == items@.len());
        }
        while i < items.len()
            invariant
                id == self.circuit_id(),
                items@.map_values(|it: (Key, &CloneOp)| shared_item(it)) == self.clones().entries(),
                forall|k: Key| #[trigger] make_clone(k) == Operation::Clone(CloneId { circuit: id, key: k }),
                i <= items@.len(),
                r@ == base + ops_of(self.clones().entries().take(i as int), make_clone),
            decreases items@.len() - i,
        {
            let (k, _) = items[i];
            r.push(Operation::Clone(CloneId::new(self.id, k)));
            i = i + 1;
            proof {
                assert(shared_item(items@[i - 1]) == self.clones().entries()[i - 1]);
                Key::lemma_view_from(items@[i - 1].0);
                lemma_ops_of_take(self.clones().entries(), make_clone, i - 1);
                assert(r@ =~= base + ops_of(self.clones().entries().take(i as int), make_clone));
            }
        }
        proof {
            assert(i == self.clones().entries().len());
            assert(self.clones().entries().take(i as int) =~= self.clones().entries());
        }
        let items = self.drops.items();
        let ghost base = r@;
        let mut i: usize = 0;
        proof {
            assert(items@.map_values(|it| shared_item(it)).len() == items@.len());
        }
        while i < items.len()
            invariant
                id == self.circuit_id(),
                items@.map_values(|it: (Key, &DropOp)| shared_item(it)) == self.drops().entries(),
                forall|k: Key| #[trigger] make_drop(k) == Operation::Drop(DropId { circuit: id, key: k }),
                i <= items@.len(),
                r@ == base + ops_of(self.drops().entries().take(i as int), make_drop),
            decreases items@.len() - i,
        {
            let (k, _) = items[i];
            r.push(Operation::Drop(DropId::new(self.id, k)));
            i = i + 1;
            proof {
                assert(shared_item(items@[i - 1]) == self.drops().entries()[i - 1]);
                Key::lemma_view_from(items@[i - 1].0);
                lemma_ops_of_take(self.drops().entries(), make_drop, i - 1);
                assert(r@ =~= base + ops_of(self.drops().entries().take(i as int), make_drop));
            }
        }
        proof {
            assert(i == self.drops().entries().len());
            assert(self.drops().entries().take(i as int) =~= self.drops().entries());
        }
        let items = self.outputs.items();
        let ghost base = r@;
        let mut i: usize = 0;
        proof {
            assert(items@.map_values(|it| shared_item(it)).len() == items@.len());
        }
        while i < items.len()
            invariant
                id == self.circuit_id(),
                items@.map_values(|it: (Key, &OutputOp)| shared_item(it)) == self.outputs().entries(),
                forall|k: Key| #[trigger] make_output(k) == Operation::Output(OutputId { circuit: id, key: k }),
                i <= items@.len(),
                r@ == base + ops_of(self.outputs().entries().take(i as int), make_output),
            decreases items@.len() - i,
        {
            let (k, _) = items[i];
            r.push(Operation::Output(OutputId::new(self.id, k)));
            i = i + 1;
            proof {
                assert(shared_item(items@[i - 1]) == self.outputs().entries()[i - 1]);
                Key::lemma_view_from(items@[i - 1].0);
                lemma_ops_of_take(self.outputs().entries(), make_output, i - 1);
                assert(r@ =~= base + ops_of(self.outputs().entries().take(i as int), make_output));
            }
        }
        proof {
            assert(i == self.outputs().entries().len());
            assert(self.outputs().entries().take(i as int) =~= self.outputs().entries());
        }
        proof {
            assert(r@ =~= self.operations());
        }
        r
    }
}

impl<G: Gate> Subcircuit<G> {
    /// Add a use to a stored value.
    fn link_destination(&mut self, value: ValueId, destination: Destination)
        requires
            old(self).wf(),
            old(self).values()@.dom().contains(value.value@),
        ensures
            final(self).wf(),
            final(self).values()@ == old(self).values()@.insert(value.value@, final(self).values()@[value.value@]),
            final(self).values()@[value.value@].destinations() == old(self).values()@[value.value@].destinations().push(destination),
            final(self).values()@[value.value@].origin() == old(self).values()@[value.value@].origin(),
            final(self).values()@[value.value@].value_type() == old(self).values()@[value.value@].value_type(),
            final(self).gates() == old(self).gates(),
            final(self).clones() == old(self).clones(),
            final(self).drops() == old(self).drops(),
            final(self).inputs() == old(self).inputs(),
            final(self).outputs() == old(self).outputs(),
            final(self).circuit_id() == old(self).circuit_id(),
    {
        match self.values.get_mut(value.key()) {
            Some(v) => {
                v.add_destination(destination);
            },
            None => {},
        }
    }

    /// Add a new input to the circuit, with the value it produces.
    pub fn add_input(&mut self, operand: G::Operand) -> (r: Result<(InputId, ValueId)>)
        requires
            old(self).wf(),
        ensures
            final(self).wf(),
            r is Ok,
            ({
                let (iid, vid) = r->Ok_0;
                &&& iid == (InputId { circuit: old(self).circuit_id(), key: Key::from_view(old(self).inputs().next_key()) })
                &&& vid == (ValueId { circuit: old(self).circuit_id(), value: Key::from_view(old(self).values().next_key()) })
                &&& !old(self).inputs()@.dom().contains(iid.key@)
                &&& !old(self).values()@.dom().contains(vid.value@)
                &&& final(self).inputs()@ == old(self).inputs()@.insert(iid.key@, final(self).inputs()@[iid.key@])
                &&& final(self).inputs()@[iid.key@].output() == vid
                &&& final(self).values()@ == old(self).values()@.insert(vid.value@, final(self).values()@[vid.value@])
                &&& final(self).value_of(vid).origin() == (Origin { producer: Producer::Input(iid), port: PortId(0) })
                &&& final(self).value_of(vid).destinations() == Seq::<Destination>::empty()
                &&& final(self).value_of(vid).value_type() == operand
            }),
            final(self).gates() == old(self).gates(),
            final(self).clones() == old(self).clones(),
            final(self).drops() == old(self).drops(),
            final(self).outputs() == old(self).outputs(),
            final(self).circuit_id() == old(self).circuit_id(),
    {
        let input_id = InputId::new(self.id, self.inputs.peek_key());
        let value_id = ValueId::new(self.id, self.values.peek_key());
        let origin = Origin::new(Producer::Input(input_id), PortId::new(0));
        let value = Value::new(origin, operand);
        let ik = self.inputs.insert(InputOp::new(value_id));
        let vk = self.values.insert(value);
        proof {
            Key::lemma_view_from(ik);
            Key::lemma_view_from(vk);
        }
        Ok((input_id, value_id))
    }

    /// Add a new output to the circuit, moving the given value.
    pub fn add_output(&mut self, value: ValueId) -> (r: Result<OutputId>)
        requires
            old(self).wf(),
        ensures
            final(self).wf(),
            r is Ok <==> old(self).has_value(value),
            r is Err ==> r->Err_0 == old(self).value_error(value) && *final(self) == *old(self),
            r is Ok ==> {
                let oid = r->Ok_0;
                &&& oid == (OutputId { circuit: old(self).circuit_id(), key: Key::from_view(old(self).outputs().next_key()) })
                &&& !old(self).outputs()@.dom().contains(oid.key@)
                &&& final(self).outputs()@ == old(self).outputs()@.insert(oid.key@, final(self).outputs()@[oid.key@])
                &&& final(self).outputs()@[oid.key@].input() == value
                &&& final(self).values()@ == old(self).values()@.insert(value.value@, final(self).value_of(value))
                &&& final(self).value_of(value).destinations() == old(self).value_of(value).destinations().push(
                    Destination { consumer: Consumer::Output(oid), port: PortId(0), mode: Ownership::Move },
                )
                &&& final(self).value_of(value).origin() == old(self).value_of(value).origin()
                &&& final(self).value_of(value).value_type() == old(self).value_of(value).value_type()
                &&& final(self).gates() == old(self).gates()
                &&& final(self).clones() == old(self).clones()
                &&& final(self).drops() == old(self).drops()
                &&& final(self).inputs() == old(self).inputs()
                &&& final(self).circuit_id() == old(self).circuit_id()
            },
    {
        self.validate_value(value)?;
        let output_id = OutputId::new(self.id, self.outputs.peek_key());
        let ok = self.outputs.insert(OutputOp::new(value));
        proof {
            Key::lemma_view_from(ok);
        }
        let destination = Destination::new(Consumer::Output(output_id), PortId::new(0), Ownership::Move);
        self.link_destination(value, destination);
        Ok(output_id)
    }

    /// Add a new drop to the circuit, moving the given value.
    pub fn add_drop(&mut self, value: ValueId) -> (r: Result<DropId>)
        requires
            old(self).wf(),
        ensures
            final(self).wf(),
            r is Ok <==> old(self).has_value(value),
            r is Err ==> r->Err_0 == old(self).value_error(value) && *final(self) == *old(self),
            r is Ok ==> {
                let did = r->Ok_0;
                &&& did == (DropId { circuit: old(self).circuit_id(), key: Key::from_view(old(self).drops().next_key()) })
                &&& !old(self).drops()@.dom().contains(did.key@)
                &&& final(self).drops()@ == old(self).drops()@.insert(did.key@, final(self).drops()@[did.key@])
                &&& final(self).drops()@[did.key@].input() == value
                &&& final(self).values()@ == old(self).values()@.insert(value.value@, final(self).value_of(value))
                &&& final(self).value_of(value).destinations() == old(self).value_of(value).destinations().push(
                    Destination { consumer: Consumer::Drop(did), port: PortId(0), mode: Ownership::Move },
                )
                &&& final(self).value_of(value).origin() == old(self).value_of(value).origin()
                &&& final(self).value_of(value).value_type() == old(self).value_of(value).value_type()
                &&& final(self).gates() == old(self).gates()
                &&& final(self).clones() == old(self).clones()
                &&& final(self).inputs() == old(self).inputs()
                &&& final(self).outputs() == old(self).outputs()
                &&& final(self).circuit_id() == old(self).circuit_id()
            },
    {
        self.validate_value(value)?;
        let drop_id = DropId::new(self.id, self.drops.peek_key());
        let dk = self.drops.insert(DropOp::new(value));
        proof {
            Key::lemma_view_from(dk);
        }
        let destination = Destination::new(Consumer::Drop(drop_id), PortId::new(0), Ownership::Move);
        self.link_destination(value, destination);
        Ok(drop_id)
    }
}

impl<G: Gate> Subcircuit<G> {
    /// Stores fresh values produced at ports `0..types.len()` of `producer`,
    /// with the given types and no uses; returns their ids in port order.
    fn add_produced_values(&mut self, producer: Producer, types: &Vec<G::Operand>) -> (outs: Vec<ValueId>)
        requires
            old(self).wf(),
        ensures
            final(self).wf(),
            outs@.len() == types@.len(),
            forall|i: int| 0 <= i < outs@.len() ==> {
                let v = #[trigger] outs@[i];
                &&& v.circuit == old(self).circuit_id()
                &&& !old(self).values()@.dom().contains(v.value@)
                &&& final(self).values()@.dom().contains(v.value@)
                &&& final(self).value_of(v).origin() == (Origin { producer, port: PortId(i as usize) })
                &&& final(self).value_of(v).destinations() == Seq::<Destination>::empty()
                &&& final(self).value_of(v).value_type() == types@[i]
            },
            forall|i: int, j: int| 0 <= i < j < outs@.len() ==> (#[trigger] outs@[i]).value@ != (#[trigger] outs@[j]).value@,
            forall|k: (usize, usize)| #[trigger] final(self).values()@.dom().contains(k) <==> (old(self).values()@.dom().contains(k)
                || exists|i: int| 0 <= i < outs@.len() && (#[trigger] outs@[i]).value@ == k),
            forall|k: (usize, usize)| #[trigger] old(self).values()@.dom().contains(k) ==> final(self).values()@[k] == old(self).values()@[k],
            final(self).gates() == old(self).gates(),
            final(self).clones() == old(self).clones(),
            final(self).drops() == old(self).drops(),
            final(self).inputs() == old(self).inputs(),
            final(self).outputs() == old(self).outputs(),
            final(self).circuit_id() == old(self).circuit_id(),
    {
        let mut outs: Vec<ValueId> = Vec::new();
        let n = types.len();
        let mut i: usize = 0;
        while i < n
            invariant
                self.wf(),
                n == types@.len(),
                i <= n,
                outs@.len() == i,
                self.circuit_id() == old(self).circuit_id(),
                forall|t: int| 0 <= t < i ==> {
                    let v = #[trigger] outs@[t];
                    &&& v.circuit == old(self).circuit_id()
                    &&& !old(self).values()@.dom().contains(v.value@)
                    &&& self.values()@.dom().contains(v.value@)
                    &&& self.value_of(v).origin() == (Origin { producer, port: PortId(t as usize) })
                    &&& self.value_of(v).destinations() == Seq::<Destination>::empty()
                    &&& self.value_of(v).value_type() == types@[t]
                },
                forall|a: int, b: int| 0 <= a < b < i ==> (#[trigger] outs@[a]).value@ != (#[trigger] outs@[b]).value@,
                forall|k: (usize, usize)| #[trigger] self.values()@.dom().contains(k) <==> (old(self).values()@.dom().contains(k)
                    || exists|t: int| 0 <= t < outs@.len() && (#[trigger] outs@[t]).value@ == k),
                forall|k: (usize, usize)| #[trigger] old(self).values()@.dom().contains(k) ==> self.values()@[k] == old(self).values()@[k],
                self.gates() == old(self).gates(),
                self.clones() == old(self).clones(),
                self.drops() == old(self).drops(),
                self.inputs() == old(self).inputs(),
                self.outputs() == old(self).outputs(),
            decreases n - i,
        {
            let origin = Origin::new(producer, PortId::new(i));
            let key = self.values.insert(Value::new(origin, types[i]));
            let id = ValueId::new(self.id, key);
            let ghost before = outs@;
            outs.push(id);
            proof {
                assert forall|t: int| 0 <= t < i implies (#[trigger] outs@[t]).value@ != key@ by {
                    assert(outs@[t] == before[t]);
                }
                assert forall|k: (usize, usize)| #[trigger] self.values()@.dom().contains(k) <==> (old(self).values()@.dom().contains(k)
                    || exists|t: int| 0 <= t < outs@.len() && (#[trigger] outs@[t]).value@ == k) by {
                    if k == key@ {
                        assert(outs@[i as int].value@ == k);
                    } else if exists|t: int| 0 <= t < before.len() && (#[trigger] before[t]).value@ == k {
                        let t = choose|t: int| 0 <= t < before.len() && (#[trigger] before[t]).value@ == k;
                        assert(outs@[t] == before[t]);
                    } else if exists|t: int| 0 <= t < outs@.len() && (#[trigger] outs@[t]).value@ == k {
                        let t = choose|t: int| 0 <= t < outs@.len() && (#[trigger] outs@[t]).value@ == k;
                        assert(t != i);
                        assert(before[t] == outs@[t]);
                    }
                }
            }
            i = i + 1;
        }
        outs
    }

    /// Add a new clone operation, which borrows `value` and produces
    /// `quantity` copies of it.
    pub fn add_clone(&mut self, value: ValueId, quantity: usize) -> (r: Result<(CloneId, Vec<ValueId>)>)
        requires
            old(self).wf(),
        ensures
            final(self).wf(),
            r is Ok <==> (quantity > 0 && old(self).has_value(value)),
            quantity == 0 ==> r == Err::<(CloneId, Vec<ValueId>), Error>(Error::InvalidCloneQuantity),
            quantity > 0 && !old(self).has_value(value) ==> r->Err_0 == old(self).value_error(value),
            r is Err ==> *final(self) == *old(self),
            r is Ok ==> {
                let (cid, outs) = r->Ok_0;
                &&& cid == (CloneId { circuit: old(self).circuit_id(), key: Key::from_view(old(self).clones().next_key()) })
                &&& !old(self).clones()@.dom().contains(cid.key@)
                &&& final(self).clones()@ == old(self).clones()@.insert(cid.key@, final(self).clones()@[cid.key@])
                &&& final(self).clones()@[cid.key@].input() == value
                &&& final(self).clones()@[cid.key@].outputs() == outs@
                &&& outs@.len() == quantity
                &&& forall|i: int| 0 <= i < outs@.len() ==> {
                    let v = #[trigger] outs@[i];
                    &&& v.circuit == old(self).circuit_id()
                    &&& !old(self).values()@.dom().contains(v.value@)
                    &&& final(self).values()@.dom().contains(v.value@)
                    &&& final(self).value_of(v).origin() == (Origin { producer: Producer::Clone(cid), port: PortId(i as usize) })
                    &&& final(self).value_of(v).destinations() == Seq::<Destination>::empty()
                    &&& final(self).value_of(v).value_type() == old(self).value_of(value).value_type()
                }
                &&& forall|i: int, j: int| 0 <= i < j < outs@.len() ==> (#[trigger] outs@[i]).value@ != (#[trigger] outs@[j]).value@
                &&& forall|k: (usize, usize)| #[trigger] final(self).values()@.dom().contains(k) <==> (old(self).values()@.dom().contains(k)
                    || exists|i: int| 0 <= i < outs@.len() && (#[trigger] outs@[i]).value@ == k)
                &&& forall|k: (usize, usize)| #[trigger] old(self).values()@.dom().contains(k) && k != value.value@
                    ==> final(self).values()@[k] == old(self).values()@[k]
                &&& final(self).value_of(value).destinations() == old(self).value_of(value).destinations().push(
                    Destination { consumer: Consumer::Clone(cid), port: PortId(0), mode: Ownership::Borrow },
                )
                &&& final(self).value_of(value).origin() == old(self).value_of(value).origin()
                &&& final(self).value_of(value).value_type() == old(self).value_of(value).value_type()
                &&& final(self).gates() == old(self).gates()
                &&& final(self).drops() == old(self).drops()
                &&& final(self).inputs() == old(self).inputs()
                &&& final(self).outputs() == old(self).outputs()
                &&& final(self).circuit_id() == old(self).circuit_id()
            },
    {
        if quantity == 0 {
            return Err(Error::InvalidCloneQuantity);
        }
        let value_type = self.value(value)?.get_type();
        let clone_id = CloneId::new(self.id, self.clones.peek_key());
        let mut types: Vec<G::Operand> = Vec::new();
        let mut i: usize = 0;
        while i < quantity
            invariant
                i <= quantity,
                types@.len() == i,
                forall|t: int| 0 <= t < i ==> #[trigger] types@[t] == value_type,
            decreases quantity - i,
        {
            types.push(value_type);
            i = i + 1;
        }
        let ghost mid = *self;
        let outs = self.add_produced_values(Producer::Clone(clone_id), &types);
        let ghost outs_view = outs@;
        let ret = copy_value_ids(outs.as_slice());
        let ck = self.clones.insert(CloneOp::new(value, outs));
        proof {
            Key::lemma_view_from(ck);
        }
        let destination = Destination::new(Consumer::Clone(clone_id), PortId::new(0), Ownership::Borrow);
        proof {
            assert(mid.values()@.dom().contains(value.value@));
        }
        self.link_destination(value, destination);
        proof {
            assert forall|t: int| 0 <= t < outs_view.len() implies #[trigger] outs_view[t].value@ != value.value@ by {}
        }
        Ok((clone_id, ret))
    }
}

impl<G: Gate> Subcircuit<G> {
    /// Add a new gate reading the given input values (one per input port).
    ///
    /// The input values are checked in port order first; then this gate is
    /// asked for its input count, its output types and its access modes.
    /// On any error nothing changes.
    pub fn add_gate(&mut self, inputs: &[ValueId], gate: G) -> (r: Result<(GateId, Vec<ValueId>)>)
        requires
            old(self).wf(),
        ensures
            final(self).wf(),
            r is Err ==> *final(self) == *old(self),
            forall|p: int| 0 <= p < inputs@.len() && !old(self).has_value(#[trigger] inputs@[p])
                && (forall|q: int| 0 <= q < p ==> old(self).has_value(inputs@[q]))
                ==> r == Err::<(GateId, Vec<ValueId>), Error>(old(self).value_error(inputs@[p])),
            r is Ok <==> {
                &&& forall|p: int| 0 <= p < inputs@.len() ==> old(self).has_value(#[trigger] inputs@[p])
                &&& inputs@.len() == gate.spec_input_count()
                &&& all_ok(gate.spec_output_count(), |i: int| gate.spec_output_type(i as usize))
                &&& all_ok(gate.spec_input_count(), |j: int| gate.spec_access_mode(j as usize))
            },
            (forall|p: int| 0 <= p < inputs@.len() ==> old(self).has_value(#[trigger] inputs@[p]))
                && inputs@.len() != gate.spec_input_count() ==> r == Err::<(GateId, Vec<ValueId>), Error>(
                Error::InvalidInputCount(gate.spec_input_count(), inputs@.len() as usize),
            ),
            (forall|p: int| 0 <= p < inputs@.len() ==> old(self).has_value(#[trigger] inputs@[p]))
                && inputs@.len() == gate.spec_input_count()
                && !all_ok(gate.spec_output_count(), |i: int| gate.spec_output_type(i as usize))
                ==> r is Err && first_error(gate.spec_output_count(), |i: int| gate.spec_output_type(i as usize), r->Err_0),
            (forall|p: int| 0 <= p < inputs@.len() ==> old(self).has_value(#[trigger] inputs@[p]))
                && inputs@.len() == gate.spec_input_count()
                && all_ok(gate.spec_output_count(), |i: int| gate.spec_output_type(i as usize))
                && !all_ok(gate.spec_input_count(), |j: int| gate.spec_access_mode(j as usize))
                ==> r is Err && first_error(gate.spec_input_count(), |j: int| gate.spec_access_mode(j as usize), r->Err_0),
            r is Ok ==> {
                let (gid, outs) = r->Ok_0;
                &&& outs@.len() == gate.spec_output_count()
                &&& forall|i: int| 0 <= i < outs@.len() ==> final(self).value_of(#[trigger] outs@[i]).value_type()
                    == gate.spec_output_type(i as usize)->Ok_0
                &&& gid == (GateId { circuit: old(self).circuit_id(), key: Key::from_view(old(self).gates().next_key()) })
                &&& !old(self).gates()@.dom().contains(gid.key@)
                &&& final(self).gates()@ == old(self).gates()@.insert(gid.key@, final(self).gates()@[gid.key@])
                &&& final(self).gates()@[gid.key@].gate() == gate
                &&& final(self).gates()@[gid.key@].inputs() == inputs@
                &&& final(self).gates()@[gid.key@].outputs() == outs@
                &&& forall|i: int| 0 <= i < outs@.len() ==> {
                    let v = #[trigger] outs@[i];
                    &&& v.circuit == old(self).circuit_id()
                    &&& !old(self).values()@.dom().contains(v.value@)
                    &&& final(self).values()@.dom().contains(v.value@)
                    &&& final(self).value_of(v).origin() == (Origin { producer: Producer::Gate(gid), port: PortId(i as usize) })
                    &&& final(self).value_of(v).destinations() == Seq::<Destination>::empty()
                }
                &&& forall|i: int, j: int| 0 <= i < j < outs@.len() ==> (#[trigger] outs@[i]).value@ != (#[trigger] outs@[j]).value@
                &&& forall|k: (usize, usize)| #[trigger] final(self).values()@.dom().contains(k) <==> (old(self).values()@.dom().contains(k)
                    || exists|i: int| 0 <= i < outs@.len() && (#[trigger] outs@[i]).value@ == k)
                &&& forall|k: (usize, usize)|
                    #[trigger] old(self).values()@.dom().contains(k) ==> {
                        &&& final(self).values()@[k].destinations() == old(self).values()@[k].destinations()
                            + gate_uses(inputs@, k, Consumer::Gate(gid), port_modes(gate, inputs@.len()))
                        &&& final(self).values()@[k].origin() == old(self).values()@[k].origin()
                        &&& final(self).values()@[k].value_type() == old(self).values()@[k].value_type()
                    }
                &&& final(self).clones() == old(self).clones()
                &&& final(self).drops() == old(self).drops()
                &&& final(self).inputs() == old(self).inputs()
                &&& final(self).outputs() == old(self).outputs()
                &&& final(self).circuit_id() == old(self).circuit_id()
            },
    {
        let n = inputs.len();
        let mut p: usize = 0;
        while p < n
            invariant
                self.wf(),
                *self == *old(self),
                n == inputs@.len(),
                p <= n,
                forall|q: int| 0 <= q < p ==> self.has_value(#[trigger] inputs@[q]),
            decreases n - p,
        {
            self.validate_value(inputs[p])?;
            p = p + 1;
        }
        let expected = gate.input_count();
        if n != expected {
            return Err(Error::InvalidInputCount(expected, n));
        }
        let output_count = gate.output_count();
        let ghost tf = |x: int| gate.spec_output_type(x as usize);
        let ghost mf = |x: int| gate.spec_access_mode(x as usize);
        let mut types: Vec<G::Operand> = Vec::new();
        let mut i: usize = 0;
        while i < output_count
            invariant
                i <= output_count,
                output_count == gate.spec_output_count(),
                n == inputs@.len(),
                n == gate.spec_input_count(),
                *self == *old(self),
                self.wf(),
                forall|q: int| 0 <= q < n ==> self.has_value(#[trigger] inputs@[q]),
                types@.len() == i,
                tf == (|x: int| gate.spec_output_type(x as usize)),
                forall|q: int| 0 <= q < i ==> tf(q) == Ok::<G::Operand, Error>(#[trigger] types@[q]),
            decreases output_count - i,
        {
            match gate.output_type(i) {
                Ok(t) => types.push(t),
                Err(e) => {
                    proof {
                        assert forall|q: int| 0 <= q < i implies (#[trigger] tf(q)) is Ok by {
                            assert(tf(q) == Ok::<G::Operand, Error>(types@[q]));
                        }
                        assert(tf(i as int) == Err::<G::Operand, Error>(e));
                        assert(!all_ok(output_count, tf));
                    }
                    return Err(e);
                },
            }
            i = i + 1;
        }
        proof {
            assert forall|q: int| 0 <= q < output_count implies (#[trigger] tf(q)) is Ok by {
                assert(tf(q) == Ok::<G::Operand, Error>(types@[q]));
            }
        }
        let mut modes: Vec<Ownership> = Vec::new();
        let mut j: usize = 0;
        while j < n
            invariant
                n == inputs@.len(),
                n == gate.spec_input_count(),
                j <= n,
                modes@.len() == j,
                *self == *old(self),
                self.wf(),
                forall|q: int| 0 <= q < n ==> self.has_value(#[trigger] inputs@[q]),
                mf == (|x: int| gate.spec_access_mode(x as usize)),
                forall|q: int| 0 <= q < j ==> mf(q) == Ok::<Ownership, Error>(#[trigger] modes@[q]),
                all_ok(output_count, tf),
                output_count == gate.spec_output_count(),
                tf == (|x: int| gate.spec_output_type(x as usize)),
            decreases n - j,
        {
            match gate.access_mode(j) {
                Ok(m) => modes.push(m),
                Err(e) => {
                    proof {
                        assert forall|q: int| 0 <= q < j implies (#[trigger] mf(q)) is Ok by {
                            assert(mf(q) == Ok::<Ownership, Error>(modes@[q]));
                        }
                        assert(mf(j as int) == Err::<Ownership, Error>(e));
                        assert(!all_ok(n, mf));
                    }
                    return Err(e);
                },
            }
            j = j + 1;
        }
        proof {
            assert forall|q: int| 0 <= q < n implies (#[trigger] mf(q)) is Ok by {
                assert(mf(q) == Ok::<Ownership, Error>(modes@[q]));
            }
            assert(modes@ =~= port_modes(gate, n as nat));
        }
        let ghost o = *self;
        let gate_id = GateId::new(self.id, self.gates.peek_key());
        let outs = self.add_produced_values(Producer::Gate(gate_id), &types);
        let ghost outs_view = outs@;
        let ret = copy_value_ids(outs.as_slice());
        let gk = self.gates.insert(GateOp::from_parts(gate, copy_value_ids(inputs), outs));
        proof {
            Key::lemma_view_from(gk);
        }
        let ghost mid = *self;
        let mut q: usize = 0;
        while q < n
            invariant
                self.wf(),
                n == inputs@.len(),
                modes@.len() == n,
                q <= n,
                forall|t: int| 0 <= t < n ==> o.has_value(#[trigger] inputs@[t]),
                self.circuit_id() == o.circuit_id(),
                forall|k: (usize, usize)| #[trigger] self.values()@.dom().contains(k) <==> mid.values()@.dom().contains(k),
                forall|k: (usize, usize)| #[trigger] mid.values()@.dom().contains(k) && !o.values()@.dom().contains(k)
                    ==> self.values()@[k] == mid.values()@[k],
                forall|k: (usize, usize)| #[trigger] o.values()@.dom().contains(k) ==> {
                    &&& self.values()@[k].destinations() == o.values()@[k].destinations()
                        + gate_uses(inputs@.take(q as int), k, Consumer::Gate(gate_id), modes@)
                    &&& self.values()@[k].origin() == o.values()@[k].origin()
                    &&& self.values()@[k].value_type() == o.values()@[k].value_type()
                },
                forall|k: (usize, usize)| #[trigger] o.values()@.dom().contains(k) ==> mid.values()@[k] == o.values()@[k],
                forall|k: (usize, usize)| #[trigger] o.values()@.dom().contains(k) ==> mid.values()@.dom().contains(k),
                self.gates() == mid.gates(),
                self.clones() == mid.clones(),
                self.drops() == mid.drops(),
                self.inputs() == mid.inputs(),
                self.outputs() == mid.outputs(),
            decreases n - q,
        {
            let destination = Destination::new(Consumer::Gate(gate_id), PortId::new(q), modes[q]);
            let ghost before = *self;
            proof {
                assert(o.has_value(inputs@[q as int]));
            }
            self.link_destination(inputs[q], destination);
            proof {
                let kq = inputs@[q as int].value@;
                assert(inputs@.take(q + 1).drop_last() =~= inputs@.take(q as int));
                assert forall|k: (usize, usize)| #[trigger] o.values()@.dom().contains(k) implies {
                    &&& self.values()@[k].destinations() == o.values()@[k].destinations()
                        + gate_uses(inputs@.take(q + 1), k, Consumer::Gate(gate_id), modes@)
                    &&& self.values()@[k].origin() == o.values()@[k].origin()
                    &&& self.values()@[k].value_type() == o.values()@[k].value_type()
                } by {
                    let prev = gate_uses(inputs@.take(q as int), k, Consumer::Gate(gate_id), modes@);
                    if k == kq {
                        assert(gate_uses(inputs@.take(q + 1), k, Consumer::Gate(gate_id), modes@) == prev.push(destination));
                        assert(o.values()@[k].destinations() + prev.push(destination)
                            =~= (o.values()@[k].destinations() + prev).push(destination));
                    } else {
                        assert(gate_uses(inputs@.take(q + 1), k, Consumer::Gate(gate_id), modes@) == prev);
                    }
                }
            }
            q = q + 1;
        }
        proof {
            assert(inputs@.take(n as int) =~= inputs@);
            assert forall|k: (usize, usize)| #[trigger] self.values()@.dom().contains(k) <==> (o.values()@.dom().contains(k)
                || exists|i: int| 0 <= i < outs_view.len() && (#[trigger] outs_view[i]).value@ == k) by {}
        }
        Ok((gate_id, ret))
    }
}

/// Finds the first use by `consumer` at `port`.
fn find_use(s: &[Destination], consumer: Consumer, port: PortId) -> (r: Option<usize>)
    ensures
        r is Some <==> has_use(s@, consumer, port),
        r is Some ==> is_first_use(s@, consumer, port, r->0 as int),
{
    let mut i: usize = 0;
    while i < s.len()
        invariant
            i <= s@.len(),
            forall|j: int| 0 <= j < i ==> !((#[trigger] s@[j]).consumer == consumer && s@[j].port == port),
        decreases s@.len() - i,
    {
        if s[i].consumer == consumer && s[i].port == port {
            return Some(i);
        }
        i = i + 1;
    }
    None
}

impl<G: Gate> Subcircuit<G> {
    /// Rewire a use from one value to another.
    ///
    /// Finds where `old_value` is used by the given consumer and port, moves
    /// that use to `new_value`, and then points the consumer's input at
    /// `new_value`. If the consumer cannot be updated the uses have already
    /// been moved and the error is returned.
    pub fn rewire_destination(&mut self, old_value: ValueId, new_value: ValueId, consumer: Consumer, port: PortId) -> (r: Result<()>)
        requires
            old(self).wf(),
        ensures
            final(self).wf(),
            final(self).circuit_id() == old(self).circuit_id(),
            !old(self).has_value(old_value) ==> r == Err::<(), Error>(old(self).value_error(old_value)) && *final(self) == *old(self),
            old(self).has_value(old_value) && !old(self).has_value(new_value)
                ==> r == Err::<(), Error>(old(self).value_error(new_value)) && *final(self) == *old(self),
            old(self).has_value(old_value) && old(self).has_value(new_value)
                && !has_use(old(self).value_of(old_value).destinations(), consumer, port)
                ==> r == Err::<(), Error>(Error::DestinationNotFound(old_value, consumer, port)) && *final(self) == *old(self),
            old(self).has_value(old_value) && old(self).has_value(new_value)
                && has_use(old(self).value_of(old_value).destinations(), consumer, port) ==> {
                let ds = old(self).value_of(old_value).destinations();
                let i = choose|i: int| is_first_use(ds, consumer, port, i);
                let moved = old(self).values()@.insert(old_value.value@, final(self).value_of(old_value));
                &&& is_first_use(ds, consumer, port, i)
                &&& final(self).value_of(old_value).destinations() == (if old_value.value@ == new_value.value@ {
                    ds.remove(i).push(ds[i])
                } else {
                    ds.remove(i)
                })
                &&& old_value.value@ != new_value.value@ ==> final(self).value_of(new_value).destinations()
                    == old(self).value_of(new_value).destinations().push(ds[i])
                &&& final(self).values()@ == moved.insert(new_value.value@, final(self).value_of(new_value))
                &&& final(self).value_of(old_value).origin() == old(self).value_of(old_value).origin()
                &&& final(self).value_of(old_value).value_type() == old(self).value_of(old_value).value_type()
                &&& final(self).value_of(new_value).origin() == old(self).value_of(new_value).origin()
                &&& final(self).value_of(new_value).value_type() == old(self).value_of(new_value).value_type()
                &&& match consumer {
                    Consumer::Gate(id) => {
                        &&& final(self).clones() == old(self).clones() && final(self).drops() == old(self).drops()
                        &&& final(self).outputs() == old(self).outputs() && final(self).inputs() == old(self).inputs()
                        &&& !old(self).gates()@.dom().contains(id.key@) ==> r == Err::<(), Error>(Error::GateNotFound(id))
                            && final(self).gates() == old(self).gates()
                        &&& old(self).gates()@.dom().contains(id.key@) ==> {
                            let g = old(self).gates()@[id.key@];
                            &&& port.0 < g.inputs().len() ==> r is Ok
                                && final(self).gates()@ == old(self).gates()@.insert(id.key@, final(self).gates()@[id.key@])
                                && final(self).gates()@[id.key@].inputs() == g.inputs().update(port.0 as int, new_value)
                                && final(self).gates()@[id.key@].gate() == g.gate()
                                && final(self).gates()@[id.key@].outputs() == g.outputs()
                            &&& port.0 >= g.inputs().len() ==> r == Err::<(), Error>(Error::PortOutOfRange(port.0))
                                && final(self).gates()@ == old(self).gates()@
                        }
                    },
                    Consumer::Clone(id) => {
                        &&& final(self).gates() == old(self).gates() && final(self).drops() == old(self).drops()
                        &&& final(self).outputs() == old(self).outputs() && final(self).inputs() == old(self).inputs()
                        &&& !old(self).clones()@.dom().contains(id.key@) ==> r == Err::<(), Error>(Error::CloneNotFound(id))
                            && final(self).clones() == old(self).clones()
                        &&& old(self).clones()@.dom().contains(id.key@) ==> r is Ok
                            && final(self).clones()@ == old(self).clones()@.insert(id.key@, final(self).clones()@[id.key@])
                            && final(self).clones()@[id.key@].input() == new_value
                            && final(self).clones()@[id.key@].outputs() == old(self).clones()@[id.key@].outputs()
                    },
                    Consumer::Drop(id) => {
                        &&& final(self).gates() == old(self).gates() && final(self).clones() == old(self).clones()
                        &&& final(self).outputs() == old(self).outputs() && final(self).inputs() == old(self).inputs()
                        &&& !old(self).drops()@.dom().contains(id.key@) ==> r == Err::<(), Error>(Error::DropNotFound(id))
                            && final(self).drops() == old(self).drops()
                        &&& old(self).drops()@.dom().contains(id.key@) ==> r is Ok
                            && final(self).drops()@ == old(self).drops()@.insert(id.key@, final(self).drops()@[id.key@])
                            && final(self).drops()@[id.key@].input() == new_value
                    },
                    Consumer::Output(id) => {
                        &&& final(self).gates() == old(self).gates() && final(self).clones() == old(self).clones()
                        &&& final(self).drops() == old(self).drops() && final(self).inputs() == old(self).inputs()
                        &&& !old(self).outputs()@.dom().contains(id.key@) ==> r == Err::<(), Error>(Error::OutputNotFound(id))
                            && final(self).outputs() == old(self).outputs()
                        &&& old(self).outputs()@.dom().contains(id.key@) ==> r is Ok
                            && final(self).outputs()@ == old(self).outputs()@.insert(id.key@, final(self).outputs()@[id.key@])
                            && final(self).outputs()@[id.key@].input() == new_value
                    },
                }
            },
    {
        self.validate_value(old_value)?;
        self.validate_value(new_value)?;
        let ghost o = *self;
        let idx = match self.values.get(old_value.key()) {
            Some(v) => find_use(v.get_destinations(), consumer, port),
            None => None,
        };
        let idx = match idx {
            Some(i) => i,
            None => return Err(Error::DestinationNotFound(old_value, consumer, port)),
        };
        proof {
            let ds = o.value_of(old_value).destinations();
            assert(is_first_use(ds, consumer, port, idx as int));
            assert forall|i: int| is_first_use(ds, consumer, port, i) implies i == idx by {
                if i < idx {
                    assert(!(ds[i].consumer == consumer && ds[i].port == port));
                } else if i > idx {
                    assert(!(ds[idx as int].consumer == consumer && ds[idx as int].port == port));
                }
            }
        }
        let destination = match self.values.get_mut(old_value.key()) {
            Some(v) => {
                let d = v.get_destinations()[idx];
                v.remove_destination_at(idx);
                d
            },
            None => return Err(Error::ValueNotFound(old_value)),
        };
        match self.values.get_mut(new_value.key()) {
            Some(v) => v.add_destination(destination),
            None => return Err(Error::ValueNotFound(new_value)),
        }
        match consumer {
            Consumer::Gate(gate_id) => {
                match self.gates.get_mut(gate_id.key()) {
                    Some(gate) => gate.set_input(port.index(), new_value),
                    None => Err(Error::GateNotFound(gate_id)),
                }
            },
            Consumer::Drop(drop_id) => {
                match self.drops.get_mut(drop_id.key()) {
                    Some(drop_op) => {
                        drop_op.set_input(new_value);
                        Ok(())
                    },
                    None => Err(Error::DropNotFound(drop_id)),
                }
            },
            Consumer::Output(output_id) => {
                match self.outputs.get_mut(output_id.key()) {
                    Some(output) => {
                        output.set_input(new_value);
                        Ok(())
                    },
                    None => Err(Error::OutputNotFound(output_id)),
                }
            },
            Consumer::Clone(clone_id) => {
                match self.clones.get_mut(clone_id.key()) {
                    Some(clone_op) => {
                        clone_op.set_input(new_value);
                        Ok(())
                    },
                    None => Err(Error::CloneNotFound(clone_id)),
                }
            },
        }
    }
}

} // verus!
