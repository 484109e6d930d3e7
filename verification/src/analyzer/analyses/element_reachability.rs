//! Element reachability: the values and operations that some circuit output
//! depends on.

use vstd::prelude::*;

use crate::analyzer::results::{lookup, pairs, result_for};
use crate::arena::key::Key;
use crate::circuit::operations::output::OutputId;
use crate::circuit::operations::{producer_operation, Operation, Producer};
use crate::circuit::subcircuit::{CircuitId, Subcircuit};
use crate::circuit::value::{copy_value_ids, ValueId};
use crate::circuit::Circuit;
use crate::error::{Error, Result};
use crate::gate::Gate;

verus! {

/// The values a value is computed from: a gate's inputs, a clone's input.
pub open spec fn feeding_values<G: Gate>(sub: Subcircuit<G>, v: ValueId) -> Seq<ValueId> {
    if !sub.has_value(v) {
        Seq::empty()
    } else {
        match sub.value_of(v).origin().producer {
            Producer::Input(_) => Seq::empty(),
            Producer::Gate(g) => if sub.has_operation(Operation::Gate(g)) {
                sub.gates()@[g.key@].inputs()
            } else {
                Seq::empty()
            },
            Producer::Clone(c) => if sub.has_operation(Operation::Clone(c)) {
                seq![sub.clones()@[c.key@].input()]
            } else {
                Seq::empty()
            },
        }
    }
}

/// The value a circuit output reads is where reachability starts.
pub open spec fn is_seed<G: Gate>(sub: Subcircuit<G>, v: ValueId) -> bool {
    exists|j: int| 0 <= j < sub.outputs().entries().len() && (#[trigger] sub.outputs().entries()[j]).1.input() == v
}

/// `p` is a chain of values from an output's value, each computed from the next.
pub open spec fn is_value_chain<G: Gate>(sub: Subcircuit<G>, p: Seq<ValueId>) -> bool {
    &&& p.len() > 0
    &&& is_seed(sub, p[0])
    &&& forall|i: int| 0 <= i < p.len() - 1 ==> feeding_values(sub, #[trigger] p[i]).contains(p[i + 1])
}

/// Some circuit output depends on the value.
pub open spec fn value_reachable<G: Gate>(sub: Subcircuit<G>, v: ValueId) -> bool {
    exists|p: Seq<ValueId>| #[trigger] is_value_chain(sub, p) && p.last() == v
}

/// Reaching the value fails: it is missing, or its producing gate or clone is.
pub open spec fn is_broken<G: Gate>(sub: Subcircuit<G>, v: ValueId) -> bool {
    ||| !sub.has_value(v)
    ||| (sub.value_of(v).origin().producer matches Producer::Gate(g) && !sub.has_operation(Operation::Gate(g)))
    ||| (sub.value_of(v).origin().producer matches Producer::Clone(c) && !sub.has_operation(Operation::Clone(c)))
}

/// The error reported for a broken value.
pub open spec fn broken_error<G: Gate>(sub: Subcircuit<G>, v: ValueId) -> Error {
    if !sub.has_value(v) {
        sub.value_error(v)
    } else {
        match sub.value_of(v).origin().producer {
            Producer::Gate(g) => Error::GateNotFound(g),
            Producer::Clone(c) => Error::CloneNotFound(c),
            Producer::Input(_) => sub.value_error(v),
        }
    }
}

/// The operation is a circuit output of `sub`, or produces a value some
/// output depends on.
pub open spec fn operation_reachable<G: Gate>(sub: Subcircuit<G>, op: Operation) -> bool {
    ||| exists|j: int|
        0 <= j < sub.outputs().entries().len() && op == Operation::Output(
            OutputId { circuit: sub.circuit_id(), key: Key::from_view(#[trigger] sub.outputs().entries()[j].0) },
        )
    ||| exists|v: ValueId| #[trigger] value_reachable(sub, v) && producer_operation(sub.value_of(v).origin().producer) == op
}

/// The reachable values and operations of one subcircuit.
pub struct SubcircuitReachability {
    values: Vec<ValueId>,
    operations: Vec<Operation>,
}

impl SubcircuitReachability {
    /// The reachable values, each once.
    pub closed spec fn value_set(&self) -> Seq<ValueId> {
        self.values@
    }

    /// The reachable operations, each once.
    pub closed spec fn operation_set(&self) -> Seq<Operation> {
        self.operations@
    }

    /// Whether some circuit output depends on the value.
    pub fn is_value_reachable(&self, value: ValueId) -> (r: bool)
        ensures
            r == self.value_set().contains(value),
    {
        let mut k: usize = 0;
        while k < self.values.len()
            invariant
                k <= self.values@.len(),
                forall|j: int| 0 <= j < k ==> self.values@[j] != value,
            decreases self.values@.len() - k,
        {
            if self.values[k] == value {
                return true;
            }
            k = k + 1;
        }
        false
    }

    /// Whether the operation is an output or produces a value some output
    /// depends on.
    pub fn is_operation_reachable(&self, op: Operation) -> (r: bool)
        ensures
            r == self.operation_set().contains(op),
    {
        let mut k: usize = 0;
        while k < self.operations.len()
            invariant
                k <= self.operations@.len(),
                forall|j: int| 0 <= j < k ==> self.operations@[j] != op,
            decreases self.operations@.len() - k,
        {
            if self.operations[k] == op {
                return true;
            }
            k = k + 1;
        }
        false
    }

    /// The reachable values, each once.
    pub fn reachable_values(&self) -> (r: &[ValueId])
        ensures
            r@ == self.value_set(),
    {
        self.values.as_slice()
    }

    /// The reachable operations, each once.
    pub fn reachable_operations(&self) -> (r: &[Operation])
        ensures
            r@ == self.operation_set(),
    {
        self.operations.as_slice()
    }
}

fn push_new_op(ops: &mut Vec<Operation>, op: Operation)
    ensures
        forall|x: Operation| #[trigger] final(ops)@.contains(x) <==> (old(ops)@.contains(x) || x == op),
        old(ops)@.no_duplicates() ==> final(ops)@.no_duplicates(),
{
    let mut k: usize = 0;
    while k < ops.len()
        invariant
            k <= ops@.len(),
            forall|j: int| 0 <= j < k ==> ops@[j] != op,
        decreases ops@.len() - k,
    {
        if ops[k] == op {
            return;
        }
        k = k + 1;
    }
    let ghost before = ops@;
    ops.push(op);
    proof {
        assert forall|x: Operation| #[trigger] ops@.contains(x) <==> (before.contains(x) || x == op) by {
            if ops@.contains(x) {
                let j = choose|j: int| 0 <= j < ops@.len() && ops@[j] == x;
                if j < before.len() {
                    assert(before[j] == x);
                }
            }
            if before.contains(x) {
                let j = choose|j: int| 0 <= j < before.len() && before[j] == x;
                assert(ops@[j] == x);
            }
            if x == op {
                assert(ops@[before.len() as int] == op);
            }
        }
    }
}

fn contains_value(values: &Vec<ValueId>, x: ValueId) -> (r: bool)
    ensures
        r == values@.contains(x),
{
    let mut k: usize = 0;
    while k < values.len()
        invariant
            k <= values@.len(),
            forall|j: int| 0 <= j < k ==> values@[j] != x,
        decreases values@.len() - k,
    {
        if values[k] == x {
            return true;
        }
        k = k + 1;
    }
    false
}

/// The bookkeeping of the walk: `values` holds each value met once, and the
/// values met but not yet walked from wait in `worklist`.
pub open spec fn walk_inv<G: Gate>(
    sub: Subcircuit<G>,
    values: Seq<ValueId>,
    worklist: Seq<ValueId>,
    ops: Seq<Operation>,
    done: Seq<ValueId>,
) -> bool {
    &&& values.no_duplicates()
    &&& worklist.no_duplicates()
    &&& ops.no_duplicates()
    &&& forall|j: int| 0 <= j < worklist.len() ==> values.contains(#[trigger] worklist[j])
    &&& forall|x: ValueId| #[trigger] values.contains(x) ==> value_reachable(sub, x)
    &&& forall|x: ValueId| #[trigger] done.contains(x) <==> (values.contains(x) && !worklist.contains(x))
    &&& forall|x: ValueId| #[trigger] done.contains(x) ==> {
        &&& !is_broken(sub, x)
        &&& forall|y: ValueId| #[trigger] feeding_values(sub, x).contains(y) ==> values.contains(y)
        &&& ops.contains(producer_operation(sub.value_of(x).origin().producer))
    }
    &&& forall|j: int| 0 <= j < sub.outputs().entries().len() ==> values.contains(#[trigger] sub.outputs().entries()[j].1.input())
    &&& forall|j: int|
        0 <= j < sub.outputs().entries().len() ==> ops.contains(
            Operation::Output(OutputId { circuit: sub.circuit_id(), key: Key::from_view(#[trigger] sub.outputs().entries()[j].0) }),
        )
    &&& forall|op: Operation| #[trigger] ops.contains(op) ==> operation_reachable(sub, op)
    &&& done.map_values(|x: ValueId| x.value@).no_duplicates()
    &&& forall|j: int| 0 <= j < done.len() ==> #[trigger] sub.has_value(done[j])
}

proof fn lemma_done_bound<G: Gate>(sub: Subcircuit<G>, done: Seq<ValueId>)
    requires
        sub.wf(),
        done.map_values(|x: ValueId| x.value@).no_duplicates(),
        forall|j: int| 0 <= j < done.len() ==> #[trigger] sub.has_value(done[j]),
    ensures
        done.len() <= sub.values()@.dom().len(),
{
    let keys = done.map_values(|x: ValueId| x.value@);
    keys.unique_seq_to_set();
    assert forall|k: (usize, usize)| keys.to_set().contains(k) implies sub.values()@.dom().contains(k) by {
        let j = choose|j: int| 0 <= j < keys.len() && keys[j] == k;
        assert(sub.has_value(done[j]));
    }
    sub.values().lemma_finite();
    vstd::set_lib::lemma_len_subset(keys.to_set(), sub.values()@.dom());
}

/// Adds the value to the walk if it is new.
fn meet(values: &mut Vec<ValueId>, worklist: &mut Vec<ValueId>, x: ValueId)
    requires
        old(values)@.no_duplicates(),
        old(worklist)@.no_duplicates(),
        forall|j: int| 0 <= j < old(worklist)@.len() ==> old(values)@.contains(#[trigger] old(worklist)@[j]),
    ensures
        final(values)@.no_duplicates(),
        final(worklist)@.no_duplicates(),
        forall|j: int| 0 <= j < final(worklist)@.len() ==> final(values)@.contains(#[trigger] final(worklist)@[j]),
        final(values)@.contains(x),
        forall|y: ValueId| #[trigger] final(values)@.contains(y) <==> (old(values)@.contains(y) || y == x),
        forall|y: ValueId| #[trigger] final(worklist)@.contains(y) <==> (old(worklist)@.contains(y) || (y == x && !old(values)@.contains(x))),
        final(values)@.len() + old(worklist)@.len() == old(values)@.len() + final(worklist)@.len(),
{
    if !contains_value(values, x) {
        let ghost vb = values@;
        let ghost wb = worklist@;
        values.push(x);
        worklist.push(x);
        proof {
            assert forall|y: ValueId| #[trigger] values@.contains(y) <==> (vb.contains(y) || y == x) by {
                if values@.contains(y) {
                    let j = choose|j: int| 0 <= j < values@.len() && values@[j] == y;
                    if j < vb.len() {
                        assert(vb[j] == y);
                    }
                }
                if vb.contains(y) {
                    let j = choose|j: int| 0 <= j < vb.len() && vb[j] == y;
                    assert(values@[j] == y);
                }
                if y == x {
                    assert(values@[vb.len() as int] == x);
                }
            }
            assert forall|y: ValueId| #[trigger] worklist@.contains(y) <==> (wb.contains(y) || y == x) by {
                if worklist@.contains(y) {
                    let j = choose|j: int| 0 <= j < worklist@.len() && worklist@[j] == y;
                    if j < wb.len() {
                        assert(wb[j] == y);
                    }
                }
                if wb.contains(y) {
                    let j = choose|j: int| 0 <= j < wb.len() && wb[j] == y;
                    assert(worklist@[j] == y);
                }
                if y == x {
                    assert(worklist@[wb.len() as int] == x);
                }
            }
            assert forall|j: int| 0 <= j < worklist@.len() implies values@.contains(#[trigger] worklist@[j]) by {
                if j < wb.len() {
                    assert(worklist@[j] == wb[j]);
                    assert(vb.contains(wb[j]));
                } else {
                    assert(worklist@[j] == x);
                }
            }
            assert(!wb.contains(x));
        }
    }
}

/// Chains of values stay within a set that holds the outputs' values and,
/// with each of its values, the values it is computed from.
proof fn lemma_chain_within<G: Gate>(sub: Subcircuit<G>, values: Seq<ValueId>, p: Seq<ValueId>)
    requires
        is_value_chain(sub, p),
        forall|j: int| 0 <= j < sub.outputs().entries().len() ==> values.contains(#[trigger] sub.outputs().entries()[j].1.input()),
        forall|x: ValueId, y: ValueId| #[trigger] values.contains(x) && #[trigger] feeding_values(sub, x).contains(y) ==> values.contains(y),
    ensures
        values.contains(p.last()),
    decreases p.len(),
{
    if p.len() == 1 {
        let j = choose|j: int| 0 <= j < sub.outputs().entries().len() && (#[trigger] sub.outputs().entries()[j]).1.input() == p[0];
        assert(values.contains(sub.outputs().entries()[j].1.input()));
    } else {
        let q = p.drop_last();
        assert forall|i: int| 0 <= i < q.len() - 1 implies feeding_values(sub, #[trigger] q[i]).contains(q[i + 1]) by {
            assert(q[i] == p[i] && q[i + 1] == p[i + 1]);
        }
        lemma_chain_within(sub, values, q);
        assert(feeding_values(sub, p[p.len() - 2]).contains(p[p.len() - 1]));
    }
}

/// A chain to a value extends to any value it is computed from.
proof fn lemma_chain_extend<G: Gate>(sub: Subcircuit<G>, x: ValueId, y: ValueId)
    requires
        value_reachable(sub, x),
        feeding_values(sub, x).contains(y),
    ensures
        value_reachable(sub, y),
{
    let p = choose|p: Seq<ValueId>| #[trigger] is_value_chain(sub, p) && p.last() == x;
    let q = p.push(y);
    assert forall|i: int| 0 <= i < q.len() - 1 implies feeding_values(sub, #[trigger] q[i]).contains(q[i + 1]) by {
        if i < p.len() - 1 {
            assert(q[i] == p[i] && q[i + 1] == p[i + 1]);
        } else {
            assert(q[i] == x && q[i + 1] == y);
        }
    }
    assert(q[0] == p[0]);
    assert(is_value_chain(sub, q));
}

/// The values a producer computes from: a gate's inputs, a clone's input.
fn feeding_of<G: Gate>(sub: &Subcircuit<G>, producer: Producer) -> (r: Result<Vec<ValueId>>)
    requires
        sub.wf(),
    ensures
        r matches Ok(f) ==> f@ == match producer {
            Producer::Input(_) => Seq::<ValueId>::empty(),
            Producer::Gate(g) => sub.gates()@[g.key@].inputs(),
            Producer::Clone(c) => seq![sub.clones()@[c.key@].input()],
        } && match producer {
            Producer::Input(_) => true,
            Producer::Gate(g) => sub.has_operation(Operation::Gate(g)),
            Producer::Clone(c) => sub.has_operation(Operation::Clone(c)),
        },
        r matches Err(e) ==> match producer {
            Producer::Input(_) => false,
            Producer::Gate(g) => !sub.has_operation(Operation::Gate(g)) && e == Error::GateNotFound(g),
            Producer::Clone(c) => !sub.has_operation(Operation::Clone(c)) && e == Error::CloneNotFound(c),
        },
{
    match producer {
        Producer::Input(_) => Ok(Vec::new()),
        Producer::Gate(gate_id) => {
            let gate = sub.gate_op(gate_id)?;
            Ok(copy_value_ids(gate.get_inputs()))
        },
        Producer::Clone(clone_id) => {
            let clone = sub.clone_op(clone_id)?;
            let mut f: Vec<ValueId> = Vec::new();
            f.push(clone.get_input());
            proof {
                assert(f@ =~= seq![clone.input()]);
            }
            Ok(f)
        },
    }
}

proof fn lemma_reachable_of_walked<G: Gate>(sub: Subcircuit<G>, values: Seq<ValueId>, v: ValueId)
    requires
        values.contains(v),
        forall|x: ValueId| #[trigger] values.contains(x) ==> value_reachable(sub, x),
    ensures
        value_reachable(sub, v),
{
}

proof fn lemma_error_witness<G: Gate>(sub: Subcircuit<G>, v: ValueId, e: Error)
    requires
        value_reachable(sub, v),
        is_broken(sub, v),
        e == broken_error(sub, v),
    ensures
        exists|w: ValueId| value_reachable(sub, w) && #[trigger] is_broken(sub, w) && e == broken_error(sub, w),
{
}

/// `e` reports a value of `sub`, reachable from its outputs, whose producer
/// is missing.
pub open spec fn is_reachability_error<G: Gate>(sub: Subcircuit<G>, e: Error) -> bool {
    exists|v: ValueId| value_reachable(sub, v) && #[trigger] is_broken(sub, v) && e == broken_error(sub, v)
}

/// Finds the values and operations the circuit outputs depend on, walking
/// back from each output's value, most recently met value first. Fails at
/// the first broken value walked from.
#[verifier::rlimit(80)]
#[verifier::spinoff_prover]
pub fn compute_reachability<G: Gate>(subcircuit: &Subcircuit<G>) -> (r: Result<SubcircuitReachability>)
    requires
        subcircuit.wf(),
    ensures
        r matches Ok(reach) ==> {
            &&& reach.value_set().no_duplicates()
            &&& forall|v: ValueId| #[trigger] reach.value_set().contains(v) <==> value_reachable(*subcircuit, v)
            &&& forall|v: ValueId| value_reachable(*subcircuit, v) ==> !#[trigger] is_broken(*subcircuit, v)
            &&& reach.operation_set().no_duplicates()
            &&& forall|op: Operation| #[trigger] reach.operation_set().contains(op) <==> operation_reachable(*subcircuit, op)
        },
        r matches Err(e) ==> is_reachability_error(*subcircuit, e),
{
    let mut values: Vec<ValueId> = Vec::new();
    let mut operations: Vec<Operation> = Vec::new();
    let mut worklist: Vec<ValueId> = Vec::new();
    let ghost mut done: Seq<ValueId> = Seq::empty();
    let outs = subcircuit.all_outputs();
    let ghost oentries = subcircuit.outputs().entries();
    let mut i: usize = 0;
    while i < outs.len()
        invariant
            subcircuit.wf(),
            oentries == subcircuit.outputs().entries(),
            outs@.len() == oentries.len(),
            forall|j: int|
                0 <= j < outs@.len() ==> (#[trigger] outs@[j]).0 == (OutputId { circuit: subcircuit.circuit_id(), key: Key::from_view(oentries[j].0) })
                    && *outs@[j].1 == oentries[j].1,
            i <= outs@.len(),
            done == Seq::<ValueId>::empty(),
            values@.no_duplicates(),
            worklist@.no_duplicates(),
            operations@.no_duplicates(),
            forall|j: int| 0 <= j < worklist@.len() ==> values@.contains(#[trigger] worklist@[j]),
            forall|x: ValueId| #[trigger] values@.contains(x) <==> worklist@.contains(x),
            forall|x: ValueId| #[trigger] values@.contains(x) ==> value_reachable(*subcircuit, x),
            forall|j: int| 0 <= j < i ==> values@.contains(#[trigger] oentries[j].1.input()),
            forall|j: int|
                0 <= j < i ==> operations@.contains(
                    Operation::Output(OutputId { circuit: subcircuit.circuit_id(), key: Key::from_view(#[trigger] oentries[j].0) }),
                ),
            forall|op: Operation| #[trigger] operations@.contains(op) ==> operation_reachable(*subcircuit, op),
        decreases outs@.len() - i,
    {
        let (output_id, output) = outs[i];
        let ghost ops_before = operations@;
        let op = Operation::Output(output_id);
        proof {
            assert(operation_reachable(*subcircuit, op)) by {
                assert(op == Operation::Output(OutputId { circuit: subcircuit.circuit_id(), key: Key::from_view(oentries[i as int].0) }));
            }
        }
        push_new_op(&mut operations, op);
        let value_id = output.get_input();
        proof {
            assert(oentries[i as int].1.input() == value_id);
            let p = seq![value_id];
            assert(is_value_chain(*subcircuit, p));
            assert forall|o: Operation| #[trigger] operations@.contains(o) implies operation_reachable(*subcircuit, o) by {
                if o != op {
                    assert(ops_before.contains(o));
                }
            }
            assert forall|j: int| 0 <= j < i + 1 implies operations@.contains(
                Operation::Output(OutputId { circuit: subcircuit.circuit_id(), key: Key::from_view(#[trigger] oentries[j].0) }),
            ) by {
                let o = Operation::Output(OutputId { circuit: subcircuit.circuit_id(), key: Key::from_view(oentries[j].0) });
                if j < i {
                    assert(ops_before.contains(o));
                }
            }
        }
        meet(&mut values, &mut worklist, value_id);
        i = i + 1;
    }
    proof {
        assert forall|x: ValueId| #[trigger] done.contains(x) <==> (values@.contains(x) && !worklist@.contains(x)) by {}
        assert forall|j: int| 0 <= j < subcircuit.outputs().entries().len() implies values@.contains(#[trigger] subcircuit.outputs().entries()[j].1.input()) by {
            assert(values@.contains(oentries[j].1.input()));
        }
        assert(done.map_values(|x: ValueId| x.value@) =~= Seq::<(usize, usize)>::empty());
    }
    while worklist.len() > 0
        invariant
            subcircuit.wf(),
            walk_inv(*subcircuit, values@, worklist@, operations@, done),
        decreases subcircuit.values()@.dom().len() - done.len(), worklist@.len(),
    {
        proof {
            lemma_done_bound(*subcircuit, done);
        }
        let ghost wb = worklist@;
        let ghost vb = values@;
        let v = worklist.pop().unwrap();
        proof {
            assert(wb.last() == v);
            assert(wb =~= worklist@.push(v));
            assert(!worklist@.contains(v));
            assert(values@.contains(v));
            assert(value_reachable(*subcircuit, v));
        }
        proof {
            lemma_reachable_of_walked(*subcircuit, values@, v);
        }
        let value = match subcircuit.value(v) {
            Ok(value) => value,
            Err(e) => {
                proof {
                    assert(is_broken(*subcircuit, v));
                }
                return Err(e);
            },
        };
        let producer = value.get_product().producer;
        let ghost ops_before = operations@;
        push_new_op(&mut operations, Operation::from_producer(producer));
        proof {
            assert(subcircuit.value_of(v) == *value);
            assert(operation_reachable(*subcircuit, producer_operation(producer)));
            assert forall|o: Operation| #[trigger] operations@.contains(o) implies operation_reachable(*subcircuit, o) by {
                if o != producer_operation(producer) {
                    assert(ops_before.contains(o));
                }
            }
            assert(operations@.contains(producer_operation(producer)));
        }
        let feeding = match feeding_of(subcircuit, producer) {
            Ok(f) => f,
            Err(e) => {
                proof {
                    assert(subcircuit.value_of(v) == *value);
                    assert(is_broken(*subcircuit, v));
                    assert(e == broken_error(*subcircuit, v));
                    assert(value_reachable(*subcircuit, v));
                    lemma_error_witness(*subcircuit, v, e);
                }
                return Err(e);
            },
        };
        proof {
            assert(feeding@ =~= feeding_values(*subcircuit, v));
        }
        let ghost mid_values = values@;
        let ghost mid_worklist = worklist@;
        let mut k: usize = 0;
        while k < feeding.len()
            invariant
                subcircuit.wf(),
                feeding@ == feeding_values(*subcircuit, v),
                k <= feeding@.len(),
                value_reachable(*subcircuit, v),
                values@.no_duplicates(),
                worklist@.no_duplicates(),
                forall|j: int| 0 <= j < worklist@.len() ==> values@.contains(#[trigger] worklist@[j]),
                forall|x: ValueId| #[trigger] values@.contains(x) ==> value_reachable(*subcircuit, x),
                forall|x: ValueId| #[trigger] mid_values.contains(x) ==> values@.contains(x),
                forall|x: ValueId| #[trigger] values@.contains(x) && !mid_values.contains(x) ==> worklist@.contains(x),
                forall|x: ValueId| #[trigger] worklist@.contains(x) ==> mid_worklist.contains(x) || !mid_values.contains(x),
                forall|x: ValueId| #[trigger] mid_worklist.contains(x) ==> worklist@.contains(x),
                forall|j: int| 0 <= j < k ==> values@.contains(#[trigger] feeding@[j]),
            decreases feeding@.len() - k,
        {
            let x = feeding[k];
            proof {
                assert(feeding_values(*subcircuit, v).contains(x));
                lemma_chain_extend(*subcircuit, v, x);
            }
            meet(&mut values, &mut worklist, x);
            k = k + 1;
        }
        proof {
            let old_done = done;
            done = done.push(v);
            assert(!is_broken(*subcircuit, v));
            assert forall|y: ValueId| #[trigger] feeding_values(*subcircuit, v).contains(y) implies values@.contains(y) by {
                let j = choose|j: int| 0 <= j < feeding@.len() && feeding@[j] == y;
            }
            assert forall|x: ValueId| #[trigger] done.contains(x) <==> (values@.contains(x) && !worklist@.contains(x)) by {
                if done.contains(x) {
                    if x != v {
                        let j = choose|j: int| 0 <= j < done.len() && done[j] == x;
                        assert(old_done[j] == x);
                        assert(old_done.contains(x));
                    }
                }
                if values@.contains(x) && !worklist@.contains(x) && x != v {
                    assert(mid_values.contains(x));
                    assert(!mid_worklist.contains(x));
                    assert(vb.contains(x));
                    assert(!wb.contains(x));
                    assert(old_done.contains(x));
                    let j = choose|j: int| 0 <= j < old_done.len() && old_done[j] == x;
                    assert(done[j] == x);
                }
                if x == v {
                    assert(done[done.len() - 1] == v);
                }
            }
            assert forall|x: ValueId| #[trigger] done.contains(x) implies {
                &&& !is_broken(*subcircuit, x)
                &&& forall|y: ValueId| #[trigger] feeding_values(*subcircuit, x).contains(y) ==> values@.contains(y)
                &&& operations@.contains(producer_operation(subcircuit.value_of(x).origin().producer))
            } by {
                if x != v {
                    let j = choose|j: int| 0 <= j < done.len() && done[j] == x;
                    assert(old_done[j] == x);
                    assert(old_done.contains(x));
                    assert(ops_before.contains(producer_operation(subcircuit.value_of(x).origin().producer)));
                }
            }
            assert forall|j: int| 0 <= j < subcircuit.outputs().entries().len() implies operations@.contains(
                Operation::Output(OutputId { circuit: subcircuit.circuit_id(), key: Key::from_view(#[trigger] subcircuit.outputs().entries()[j].0) }),
            ) by {
                let o = Operation::Output(OutputId { circuit: subcircuit.circuit_id(), key: Key::from_view(subcircuit.outputs().entries()[j].0) });
                assert(ops_before.contains(o));
            }
            // the walked value's key is new among the walked values
            let keys = done.map_values(|x: ValueId| x.value@);
            let old_keys = old_done.map_values(|x: ValueId| x.value@);
            assert forall|a: int, b: int| 0 <= a < keys.len() && 0 <= b < keys.len() && a != b implies keys[a] != keys[b] by {
                if a < old_done.len() && b < old_done.len() {
                    assert(keys[a] == old_keys[a] && keys[b] == old_keys[b]);
                } else {
                    let c = if a < old_done.len() { a } else { b };
                    assert(old_done.contains(old_done[c]));
                    assert(subcircuit.has_value(old_done[c]));
                    if old_done[c].value@ == v.value@ {
                        Key::lemma_view_injective(old_done[c].value, v.value);
                        assert(old_done[c] == v);
                    }
                }
            }
            assert(subcircuit.has_value(v));
            assert forall|j: int| 0 <= j < done.len() implies #[trigger] subcircuit.has_value(done[j]) by {
                if j < old_done.len() {
                    assert(done[j] == old_done[j]);
                }
            }
            lemma_done_bound(*subcircuit, done);
        }
    }
    proof {
        assert forall|x: ValueId, y: ValueId| #[trigger] values@.contains(x) && #[trigger] feeding_values(*subcircuit, x).contains(y) implies values@.contains(y) by {
            assert(done.contains(x));
        }
        assert forall|v: ValueId| #[trigger] values@.contains(v) <==> value_reachable(*subcircuit, v) by {
            if value_reachable(*subcircuit, v) {
                let p = choose|p: Seq<ValueId>| #[trigger] is_value_chain(*subcircuit, p) && p.last() == v;
                lemma_chain_within(*subcircuit, values@, p);
            }
        }
        assert forall|v: ValueId| value_reachable(*subcircuit, v) implies !#[trigger] is_broken(*subcircuit, v) by {
            assert(values@.contains(v));
            assert(done.contains(v));
        }
        assert forall|op: Operation| #[trigger] operations@.contains(op) <==> operation_reachable(*subcircuit, op) by {
            if operation_reachable(*subcircuit, op) {
                if exists|v: ValueId| #[trigger] value_reachable(*subcircuit, v) && producer_operation(subcircuit.value_of(v).origin().producer) == op {
                    let v = choose|v: ValueId| #[trigger] value_reachable(*subcircuit, v) && producer_operation(subcircuit.value_of(v).origin().producer) == op;
                    assert(values@.contains(v));
                    assert(done.contains(v));
                }
            }
        }
    }
    Ok(SubcircuitReachability { values, operations })
}

/// Reachable values and operations of every subcircuit of a circuit.
pub struct ElementReachability {
    results: Vec<(CircuitId, SubcircuitReachability)>,
}

impl ElementReachability {
    /// The results, in subcircuit slot order.
    pub closed spec fn results(&self) -> Seq<(CircuitId, SubcircuitReachability)> {
        self.results@
    }

    /// Finds the reachable elements of every subcircuit, in slot order;
    /// fails with the first subcircuit's failure.
    pub fn run<G: Gate>(circuit: &Circuit<G>) -> (r: Result<Self>)
        requires
            circuit.wf(),
        ensures
            r matches Ok(t) ==> {
                &&& t.results().len() == circuit.subcircuits().entries().len()
                &&& forall|j: int| 0 <= j < t.results().len() ==> {
                    &&& (#[trigger] t.results()[j]).0 == circuit.subcircuits().entries()[j].1.circuit_id()
                    &&& forall|v: ValueId| #[trigger] t.results()[j].1.value_set().contains(v)
                        <==> value_reachable(circuit.subcircuits().entries()[j].1, v)
                    &&& forall|op: Operation| #[trigger] t.results()[j].1.operation_set().contains(op)
                        <==> operation_reachable(circuit.subcircuits().entries()[j].1, op)
                }
            },
            r matches Err(e) ==> exists|j: int|
                0 <= j < circuit.subcircuits().entries().len() && #[trigger] is_reachability_error(
                    circuit.subcircuits().entries()[j].1,
                    e,
                ),
    {
        let subs = circuit.iter();
        let mut results: Vec<(CircuitId, SubcircuitReachability)> = Vec::with_capacity(subs.len());
        let mut k: usize = 0;
        while k < subs.len()
            invariant
                circuit.wf(),
                subs@.len() == circuit.subcircuits().entries().len(),
                forall|j: int| 0 <= j < subs@.len() ==> *(#[trigger] subs@[j]) == circuit.subcircuits().entries()[j].1,
                k <= subs@.len(),
                results@.len() == k,
                forall|j: int| 0 <= j < k ==> {
                    &&& (#[trigger] results@[j]).0 == circuit.subcircuits().entries()[j].1.circuit_id()
                    &&& forall|v: ValueId| #[trigger] results@[j].1.value_set().contains(v)
                        <==> value_reachable(circuit.subcircuits().entries()[j].1, v)
                    &&& forall|op: Operation| #[trigger] results@[j].1.operation_set().contains(op)
                        <==> operation_reachable(circuit.subcircuits().entries()[j].1, op)
                },
            decreases subs@.len() - k,
        {
            let sub = subs[k];
            proof {
                circuit.lemma_entry_wf(k as int);
            }
            let reach = match compute_reachability(sub) {
                Ok(reach) => reach,
                Err(e) => {
                    proof {
                        assert(is_reachability_error(circuit.subcircuits().entries()[k as int].1, e));
                    }
                    return Err(e);
                },
            };
            results.push((sub.id(), reach));
            k = k + 1;
        }
        Ok(ElementReachability { results })
    }

    /// The reachable elements of a subcircuit.
    pub fn for_subcircuit(&self, id: CircuitId) -> (r: Option<&SubcircuitReachability>)
        ensures
            match result_for(self.results(), id) {
                Some(x) => r == Some(&x),
                None => r is None,
            },
    {
        lookup(&self.results, id)
    }

    /// Every subcircuit's reachable elements, in slot order.
    pub fn iter(&self) -> (r: Vec<(CircuitId, &SubcircuitReachability)>)
        ensures
            r@.len() == self.results().len(),
            forall|k: int| 0 <= k < r@.len() ==> (#[trigger] r@[k]).0 == self.results()[k].0 && *r@[k].1 == self.results()[k].1,
    {
        pairs(&self.results)
    }
}

} // verus!
