//! Moving a set of operations of a subcircuit into a new subcircuit.

use vstd::prelude::*;

use crate::arena::Key;
use crate::circuit::operations::gate::{GateId, GateOp};
use crate::circuit::operations::Operation;
use crate::circuit::subcircuit::{CircuitId, Subcircuit};
use crate::circuit::value::ValueId;
use crate::error::Result;
use crate::gate::{all_ok, Gate};

verus! {

/// Keys of the inputs listed in `ops`.
pub open spec fn listed_inputs(ops: Seq<Operation>) -> Set<(usize, usize)> {
    Set::new(|k: (usize, usize)| exists|i: int| 0 <= i < ops.len() && (#[trigger] ops[i]) is Input && ops[i]->Input_0.key@ == k)
}

/// A gate with key `k` is listed in `ops`.
pub open spec fn lists_gate(ops: Seq<Operation>, k: (usize, usize)) -> bool {
    exists|i: int| 0 <= i < ops.len() && (#[trigger] ops[i]) is Gate && ops[i]->Gate_0.key@ == k
}

/// Keys of the clones listed in `ops`.
pub open spec fn listed_clones(ops: Seq<Operation>) -> Set<(usize, usize)> {
    Set::new(|k: (usize, usize)| exists|i: int| 0 <= i < ops.len() && (#[trigger] ops[i]) is Clone && ops[i]->Clone_0.key@ == k)
}

/// Keys of the drops listed in `ops`.
pub open spec fn listed_drops(ops: Seq<Operation>) -> Set<(usize, usize)> {
    Set::new(|k: (usize, usize)| exists|i: int| 0 <= i < ops.len() && (#[trigger] ops[i]) is Drop && ops[i]->Drop_0.key@ == k)
}

/// Keys of the outputs listed in `ops`.
pub open spec fn listed_outputs(ops: Seq<Operation>) -> Set<(usize, usize)> {
    Set::new(|k: (usize, usize)| exists|i: int| 0 <= i < ops.len() && (#[trigger] ops[i]) is Output && ops[i]->Output_0.key@ == k)
}

/// Some new value is mapped to the old value key.
pub open spec fn is_mapped(map: Seq<(Key, ValueId)>, key: Key) -> bool {
    exists|i: int| 0 <= i < map.len() && (#[trigger] map[i]).0 == key
}

/// Every value that gate op `k` of `sub` reads is mapped.
pub open spec fn ready_in<G: Gate>(sub: Subcircuit<G>, k: (usize, usize), map: Seq<(Key, ValueId)>) -> bool {
    forall|x: int| 0 <= x < sub.gates()@[k].inputs().len() ==> is_mapped(map, (#[trigger] sub.gates()@[k].inputs()[x]).value)
}

/// Some id in `ids` has key `k`.
pub open spec fn has_gate_key(ids: Seq<GateId>, k: (usize, usize)) -> bool {
    exists|x: int| 0 <= x < ids.len() && (#[trigger] ids[x]).key@ == k
}

/// Some id in `ids` at position `from` or later has key `k`.
pub open spec fn has_gate_key_from(ids: Seq<GateId>, from: int, k: (usize, usize)) -> bool {
    exists|x: int| from <= x < ids.len() && (#[trigger] ids[x]).key@ == k
}

/// The key of the value that input `k` of `s` produces.
pub open spec fn input_out<G: Gate>(s: Subcircuit<G>, k: (usize, usize)) -> (usize, usize) {
    s.inputs()@[k].output().value@
}

/// Input `k` of `s` produces a stored value that no other input of `s`
/// claims to produce.
pub open spec fn owns_output<G: Gate>(s: Subcircuit<G>, k: (usize, usize)) -> bool {
    &&& s.values()@.dom().contains(input_out(s, k))
    &&& forall|k2: (usize, usize)| #[trigger] s.inputs()@.dom().contains(k2) && k2 != k ==> input_out(s, k2) != input_out(s, k)
}

/// `mi` matches each input of `n` with a distinct listed input of `before`
/// whose value has the same type, and every listed input of `before` that
/// owns its value has a match.
pub open spec fn moves_inputs<G: Gate>(
    before: Subcircuit<G>,
    ops: Seq<Operation>,
    n: Subcircuit<G>,
    mi: Map<(usize, usize), (usize, usize)>,
) -> bool {
    &&& mi.dom() == n.inputs()@.dom()
    &&& forall|a: (usize, usize), b: (usize, usize)|
        #[trigger] mi.dom().contains(a) && #[trigger] mi.dom().contains(b) && a != b ==> mi[a] != mi[b]
    &&& forall|a: (usize, usize)| #[trigger] mi.dom().contains(a) ==> {
        &&& before.inputs()@.dom().contains(mi[a])
        &&& listed_inputs(ops).contains(mi[a])
        &&& n.values()@.dom().contains(input_out(n, a))
        &&& before.values()@.dom().contains(input_out(before, mi[a]))
        &&& n.values()@[input_out(n, a)].value_type() == before.values()@[input_out(before, mi[a])].value_type()
    }
    &&& forall|k: (usize, usize)|
        #[trigger] before.inputs()@.dom().contains(k) && listed_inputs(ops).contains(k) && owns_output(before, k)
            ==> exists|a: (usize, usize)| #[trigger] mi.dom().contains(a) && mi[a] == k
}

/// `b` has the inputs of `a`, and every value of `a` with its type.
pub open spec fn keeps_inputs<G: Gate>(a: Subcircuit<G>, b: Subcircuit<G>) -> bool {
    &&& b.inputs() == a.inputs()
    &&& forall|v: (usize, usize)| #[trigger] a.values()@.dom().contains(v) ==> b.values()@.dom().contains(v)
        && b.values()@[v].value_type() == a.values()@[v].value_type()
}

proof fn lemma_keeps_inputs_trans<G: Gate>(a: Subcircuit<G>, b: Subcircuit<G>, c: Subcircuit<G>)
    requires
        keeps_inputs(a, b),
        keeps_inputs(b, c),
    ensures
        keeps_inputs(a, c),
{
    assert forall|v: (usize, usize)| #[trigger] a.values()@.dom().contains(v) implies c.values()@.dom().contains(v)
        && c.values()@[v].value_type() == a.values()@[v].value_type() by {
        assert(b.values()@.dom().contains(v));
    }
}

proof fn lemma_moves_inputs_kept<G: Gate>(
    before: Subcircuit<G>,
    ops: Seq<Operation>,
    a: Subcircuit<G>,
    b: Subcircuit<G>,
    mi: Map<(usize, usize), (usize, usize)>,
)
    requires
        moves_inputs(before, ops, a, mi),
        keeps_inputs(a, b),
    ensures
        moves_inputs(before, ops, b, mi),
{
    assert forall|x: (usize, usize)| #[trigger] mi.dom().contains(x) implies {
        &&& b.values()@.dom().contains(input_out(b, x))
        &&& b.values()@[input_out(b, x)].value_type() == before.values()@[input_out(before, mi[x])].value_type()
    } by {
        assert(a.values()@.dom().contains(input_out(a, x)));
    }
}

/// `m` matches each key of `new_dom` with a distinct key of `old_dom` that
/// is in `listed`.
pub open spec fn stems_from(
    m: Map<(usize, usize), (usize, usize)>,
    new_dom: Set<(usize, usize)>,
    old_dom: Set<(usize, usize)>,
    listed: Set<(usize, usize)>,
) -> bool {
    &&& m.dom() == new_dom
    &&& forall|a: (usize, usize), b: (usize, usize)|
        #[trigger] m.dom().contains(a) && #[trigger] m.dom().contains(b) && a != b ==> m[a] != m[b]
    &&& forall|a: (usize, usize)| #[trigger] m.dom().contains(a) ==> old_dom.contains(m[a]) && listed.contains(m[a])
}

/// `n` is what `before` gives up when the operations `ops` are split off:
/// it holds one input for each listed input of `before` that owns its
/// value, with that value's type, and nothing else; and its gates, clones,
/// drops and outputs are each a different listed one of `before`, gates
/// with the same descriptor and clones with as many copies.
pub open spec fn is_split_part<G: Gate>(before: Subcircuit<G>, n: Subcircuit<G>, ops: Seq<Operation>) -> bool {
    &&& exists|mi: Map<(usize, usize), (usize, usize)>| moves_inputs(before, ops, n, mi)
    &&& exists|mg: Map<(usize, usize), (usize, usize)>| moves_gates(before, ops, n, mg)
    &&& exists|mc: Map<(usize, usize), (usize, usize)>| moves_clones(before, ops, n, mc)
    &&& exists|md: Map<(usize, usize), (usize, usize)>| stems_from(md, n.drops()@.dom(), before.drops()@.dom(), listed_drops(ops))
    &&& exists|mo: Map<(usize, usize), (usize, usize)>| stems_from(mo, n.outputs()@.dom(), before.outputs()@.dom(), listed_outputs(ops))
}

/// Gate `k` of `before` owns its outputs: they are stored, as many as its
/// descriptor gives, each a different one, and no input or other gate of
/// `before` produces any of them.
pub open spec fn gate_owns_outputs<G: Gate>(before: Subcircuit<G>, k: (usize, usize)) -> bool {
    &&& owned_in(before, k)
    &&& forall|k2: (usize, usize), p: int|
        #[trigger] before.inputs()@.dom().contains(k2) && 0 <= p < before.gates()@[k].outputs().len() ==> input_out(before, k2)
            != (#[trigger] before.gates()@[k].outputs()[p]).value@
}

/// What moving the gates during a split leaves, with `mi` and `mg` matching the
/// inputs and gates of `n` to those of `before` and `vm` the old value
/// keys that have a new value once the gates have moved: each moved input's
/// value is paired there with the value of its counterpart; each moved gate
/// reads, port by port, values paired with those its original reads; the
/// outputs of each moved gate that owns them (see `gate_owns_outputs`) are
/// among the keys; a listed gate of `before` that reads only such
/// values has left `after`; and a listed gate that left and that its gate
/// accepts (its input count, output types and access modes) has exactly
/// one counterpart in `n`.
pub open spec fn gate_step<G: Gate>(
    before: Subcircuit<G>,
    after: Subcircuit<G>,
    n: Subcircuit<G>,
    ops: Seq<Operation>,
    mi: Map<(usize, usize), (usize, usize)>,
    mg: Map<(usize, usize), (usize, usize)>,
    vm: Seq<(Key, ValueId)>,
) -> bool {
    &&& moves_inputs(before, ops, n, mi)
    &&& moves_gates(before, ops, n, mg)
    &&& forall|a: (usize, usize)| #[trigger] mi.dom().contains(a) ==> is_mapped(vm, before.inputs()@[mi[a]].output().value)
    &&& forall|a: (usize, usize)| #[trigger] mi.dom().contains(a) ==> pairs_with(vm, before.inputs()@[mi[a]].output().value, n.inputs()@[a].output())
    &&& forall|a: (usize, usize)| #[trigger] mg.dom().contains(a) ==> reads_counterparts(vm, before.gates()@[mg[a]], n.gates()@[a])
    &&& forall|a: (usize, usize)| #[trigger] mg.dom().contains(a) && gate_owns_outputs(before, mg[a]) ==> forall|p: int|
        0 <= p < before.gates()@[mg[a]].outputs().len() ==> is_mapped(vm, (#[trigger] before.gates()@[mg[a]].outputs()[p]).value)
    &&& forall|k: (usize, usize)|
        #[trigger] before.gates()@.dom().contains(k) && listed_gates(ops).contains(k) && ready_in(before, k, vm)
            ==> !after.gates()@.dom().contains(k)
    &&& forall|k: (usize, usize)|
        #[trigger] before.gates()@.dom().contains(k) && listed_gates(ops).contains(k) && !after.gates()@.dom().contains(k)
            && gate_accepts(before.gates()@[k]) ==> exists|a: (usize, usize)| #[trigger] mg.dom().contains(a) && mg[a] == k
}

/// What moving the clones, drops and outputs during a split leaves, with
/// `mc`, `md` and `mo` matching those of `n` to those of `before`, `vm`
/// the value map once the gates have moved and `vm2` the one at the end,
/// which extends it: each moved clone reads a value paired in `vm2` with the
/// one its original reads, and each moved drop or output reads the value
/// that `vm2` last pairs with its original's; a listed clone of `before`
/// whose input is in `vm` and
/// that makes at least one copy, and a listed drop or output of `before`
/// whose input is in `vm2`, each has a counterpart in `n`.
pub open spec fn later_steps<G: Gate>(
    before: Subcircuit<G>,
    n: Subcircuit<G>,
    ops: Seq<Operation>,
    vm: Seq<(Key, ValueId)>,
    mc: Map<(usize, usize), (usize, usize)>,
    md: Map<(usize, usize), (usize, usize)>,
    mo: Map<(usize, usize), (usize, usize)>,
    vm2: Seq<(Key, ValueId)>,
) -> bool {
    &&& moves_clones(before, ops, n, mc)
    &&& stems_from(md, n.drops()@.dom(), before.drops()@.dom(), listed_drops(ops))
    &&& stems_from(mo, n.outputs()@.dom(), before.outputs()@.dom(), listed_outputs(ops))
    &&& vm2.len() >= vm.len()
    &&& vm2.take(vm.len() as int) == vm
    &&& forall|a: (usize, usize)| #[trigger] mc.dom().contains(a) ==> pairs_with(vm2, before.clones()@[mc[a]].input().value, n.clones()@[a].input())
    &&& forall|a: (usize, usize)| #[trigger] md.dom().contains(a) ==> maps_to(vm2, before.drops()@[md[a]].input().value, n.drops()@[a].input())
    &&& forall|a: (usize, usize)| #[trigger] mo.dom().contains(a) ==> maps_to(vm2, before.outputs()@[mo[a]].input().value, n.outputs()@[a].input())
    &&& forall|k: (usize, usize)|
        #[trigger] before.clones()@.dom().contains(k) && listed_clones(ops).contains(k) && is_mapped(vm, before.clones()@[k].input().value)
            && before.clones()@[k].outputs().len() > 0 ==> exists|a: (usize, usize)| #[trigger] mc.dom().contains(a) && mc[a] == k
    &&& forall|k: (usize, usize)|
        #[trigger] before.drops()@.dom().contains(k) && listed_drops(ops).contains(k) && is_mapped(vm2, before.drops()@[k].input().value)
            ==> exists|a: (usize, usize)| #[trigger] md.dom().contains(a) && md[a] == k
    &&& forall|k: (usize, usize)|
        #[trigger] before.outputs()@.dom().contains(k) && listed_outputs(ops).contains(k) && is_mapped(vm2, before.outputs()@[k].input().value)
            ==> exists|a: (usize, usize)| #[trigger] mo.dom().contains(a) && mo[a] == k
}

/// Splitting `ops` off `before` left `after` and moved the operations into
/// `n` as `gate_step` and `later_steps` say, for some matchings and value
/// maps.
pub open spec fn moves_ready_gates<G: Gate>(before: Subcircuit<G>, after: Subcircuit<G>, n: Subcircuit<G>, ops: Seq<Operation>) -> bool {
    exists|
        mi: Map<(usize, usize), (usize, usize)>,
        mg: Map<(usize, usize), (usize, usize)>,
        vm: Seq<(Key, ValueId)>,
        mc: Map<(usize, usize), (usize, usize)>,
        md: Map<(usize, usize), (usize, usize)>,
        mo: Map<(usize, usize), (usize, usize)>,
        vm2: Seq<(Key, ValueId)>,
    |
        #![trigger gate_step(before, after, n, ops, mi, mg, vm), later_steps(before, n, ops, vm, mc, md, mo, vm2)]
        gate_step(before, after, n, ops, mi, mg, vm) && later_steps(before, n, ops, vm, mc, md, mo, vm2)
}

/// After a split, every operation moved into the new subcircuit reads the
/// counterpart of what its original read: one value map, valid in the new
/// subcircuit, pairs each moved input's value with its counterpart's value;
/// each moved gate reads, port by port, values it pairs with those its
/// original reads; each moved clone reads a value it pairs with its
/// original's input; and each moved drop and output reads the value it
/// last pairs with its original's input.
pub proof fn law_split_moves_read_counterparts<G: Gate>(
    before: Subcircuit<G>,
    after: Subcircuit<G>,
    n: Subcircuit<G>,
    ops: Seq<Operation>,
)
    requires
        moves_ready_gates(before, after, n, ops),
    ensures
        exists|
            mi: Map<(usize, usize), (usize, usize)>,
            mg: Map<(usize, usize), (usize, usize)>,
            mc: Map<(usize, usize), (usize, usize)>,
            md: Map<(usize, usize), (usize, usize)>,
            mo: Map<(usize, usize), (usize, usize)>,
            vm: Seq<(Key, ValueId)>,
        |
            #![trigger moves_inputs(before, ops, n, mi), moves_gates(before, ops, n, mg), moves_clones(before, ops, n, mc), pairs_with(vm, Key::from_view(mo.dom().choose()), ValueId { circuit: n.circuit_id(), value: Key::from_view(md.dom().choose()) })]
            {
                &&& moves_inputs(before, ops, n, mi)
                &&& moves_gates(before, ops, n, mg)
                &&& moves_clones(before, ops, n, mc)
                &&& stems_from(md, n.drops()@.dom(), before.drops()@.dom(), listed_drops(ops))
                &&& stems_from(mo, n.outputs()@.dom(), before.outputs()@.dom(), listed_outputs(ops))
                &&& forall|a: (usize, usize)| #[trigger] mi.dom().contains(a) ==> pairs_with(vm, before.inputs()@[mi[a]].output().value, n.inputs()@[a].output())
                &&& forall|a: (usize, usize)| #[trigger] mg.dom().contains(a) ==> {
                    &&& n.gates()@[a].inputs().len() == before.gates()@[mg[a]].inputs().len()
                    &&& forall|p: int| 0 <= p < n.gates()@[a].inputs().len() ==> pairs_with(vm, before.gates()@[mg[a]].inputs()[p].value, #[trigger] n.gates()@[a].inputs()[p])
                }
                &&& forall|a: (usize, usize)| #[trigger] mc.dom().contains(a) ==> pairs_with(vm, before.clones()@[mc[a]].input().value, n.clones()@[a].input())
                &&& forall|a: (usize, usize)| #[trigger] md.dom().contains(a) ==> maps_to(vm, before.drops()@[md[a]].input().value, n.drops()@[a].input())
                &&& forall|a: (usize, usize)| #[trigger] mo.dom().contains(a) ==> maps_to(vm, before.outputs()@[mo[a]].input().value, n.outputs()@[a].input())
            },
{
    let (mi, mg, vm, mc, md, mo, vm2) = choose|
        mi: Map<(usize, usize), (usize, usize)>,
        mg: Map<(usize, usize), (usize, usize)>,
        vm: Seq<(Key, ValueId)>,
        mc: Map<(usize, usize), (usize, usize)>,
        md: Map<(usize, usize), (usize, usize)>,
        mo: Map<(usize, usize), (usize, usize)>,
        vm2: Seq<(Key, ValueId)>,
    |
        #![trigger gate_step(before, after, n, ops, mi, mg, vm), later_steps(before, n, ops, vm, mc, md, mo, vm2)]
        gate_step(before, after, n, ops, mi, mg, vm) && later_steps(before, n, ops, vm, mc, md, mo, vm2);
    assert forall|a: (usize, usize)| #[trigger] mi.dom().contains(a) implies pairs_with(vm2, before.inputs()@[mi[a]].output().value, n.inputs()@[a].output()) by {
        lemma_pairs_with_extend(vm, vm2, before.inputs()@[mi[a]].output().value, n.inputs()@[a].output());
    }
    assert forall|a: (usize, usize)| #[trigger] mg.dom().contains(a) implies {
        &&& n.gates()@[a].inputs().len() == before.gates()@[mg[a]].inputs().len()
        &&& forall|p: int| 0 <= p < n.gates()@[a].inputs().len() ==> pairs_with(vm2, before.gates()@[mg[a]].inputs()[p].value, #[trigger] n.gates()@[a].inputs()[p])
    } by {
        lemma_reads_counterparts_extend(vm, vm2, before.gates()@[mg[a]], n.gates()@[a]);
    }
    let w = pairs_with(vm2, Key::from_view(mo.dom().choose()), ValueId { circuit: n.circuit_id(), value: Key::from_view(md.dom().choose()) });
}

/// Keys of the gates listed in `ops`.
pub open spec fn listed_gates(ops: Seq<Operation>) -> Set<(usize, usize)> {
    Set::new(|k: (usize, usize)| lists_gate(ops, k))
}

/// Each gate of `n` is a listed gate of `before`, each a different one,
/// with the same gate descriptor.
pub open spec fn moves_gates<G: Gate>(
    before: Subcircuit<G>,
    ops: Seq<Operation>,
    n: Subcircuit<G>,
    m: Map<(usize, usize), (usize, usize)>,
) -> bool {
    &&& stems_from(m, n.gates()@.dom(), before.gates()@.dom(), listed_gates(ops))
    &&& forall|a: (usize, usize)| #[trigger] m.dom().contains(a) ==> n.gates()@[a].gate() == before.gates()@[m[a]].gate()
}

/// Each clone of `n` is a listed clone of `before`, each a different one,
/// with as many copies.
pub open spec fn moves_clones<G: Gate>(
    before: Subcircuit<G>,
    ops: Seq<Operation>,
    n: Subcircuit<G>,
    m: Map<(usize, usize), (usize, usize)>,
) -> bool {
    &&& stems_from(m, n.clones()@.dom(), before.clones()@.dom(), listed_clones(ops))
    &&& forall|a: (usize, usize)| #[trigger] m.dom().contains(a) ==> n.clones()@[a].outputs().len() == before.clones()@[m[a]].outputs().len()
}

proof fn lemma_stems_step(
    m: Map<(usize, usize), (usize, usize)>,
    new_dom: Set<(usize, usize)>,
    old_dom: Set<(usize, usize)>,
    s0: Set<(usize, usize)>,
    s1: Set<(usize, usize)>,
    a: (usize, usize),
    k: (usize, usize),
)
    requires
        stems_from(m, new_dom, old_dom, s0),
        !new_dom.contains(a),
        old_dom.contains(k),
        !s0.contains(k),
        s1.contains(k),
        forall|x: (usize, usize)| s0.contains(x) ==> s1.contains(x),
    ensures
        stems_from(m.insert(a, k), new_dom.insert(a), old_dom, s1),
{
    let m1 = m.insert(a, k);
    assert(m1.dom() =~= new_dom.insert(a));
    assert forall|x: (usize, usize), y: (usize, usize)|
        #[trigger] m1.dom().contains(x) && #[trigger] m1.dom().contains(y) && x != y implies m1[x] != m1[y] by {
        if x != a && y != a {
            assert(m.dom().contains(x) && m.dom().contains(y));
        } else if x == a {
            assert(m.dom().contains(y) && s0.contains(m[y]));
        } else {
            assert(m.dom().contains(x) && s0.contains(m[x]));
        }
    }
    assert forall|x: (usize, usize)| #[trigger] m1.dom().contains(x) implies old_dom.contains(m1[x]) && s1.contains(m1[x]) by {
        if x != a {
            assert(m.dom().contains(x));
        }
    }
}

proof fn lemma_stems_grow(
    m: Map<(usize, usize), (usize, usize)>,
    new_dom: Set<(usize, usize)>,
    old_dom: Set<(usize, usize)>,
    s0: Set<(usize, usize)>,
    s1: Set<(usize, usize)>,
)
    requires
        stems_from(m, new_dom, old_dom, s0),
        forall|x: (usize, usize)| s0.contains(x) ==> s1.contains(x),
    ensures
        stems_from(m, new_dom, old_dom, s1),
{
    assert forall|x: (usize, usize)| #[trigger] m.dom().contains(x) implies old_dom.contains(m[x]) && s1.contains(m[x]) by {
        assert(s0.contains(m[x]));
    }
}

/// A listed gate's key is among the listed gate keys.
proof fn lemma_listed_gate(ops: Seq<Operation>, i: int)
    requires
        0 <= i < ops.len(),
        ops[i] is Gate,
    ensures
        lists_gate(ops, ops[i]->Gate_0.key@),
{
    let k = ops[i]->Gate_0.key@;
    assert(exists|j: int| 0 <= j < ops.len() && (#[trigger] ops[j]) is Gate && ops[j]->Gate_0.key@ == k);
}

proof fn lemma_push_listed(ops: Seq<Operation>, before: Seq<GateId>, id: GateId)
    requires
        forall|j: int| 0 <= j < before.len() ==> #[trigger] lists_gate(ops, before[j].key@),
        lists_gate(ops, id.key@),
    ensures
        forall|j: int| 0 <= j < before.push(id).len() ==> #[trigger] lists_gate(ops, before.push(id)[j].key@),
{
    assert forall|j: int| 0 <= j < before.push(id).len() implies #[trigger] lists_gate(ops, before.push(id)[j].key@) by {
        if j < before.len() {
            assert(before.push(id)[j] == before[j]);
        } else {
            assert(before.push(id)[j] == id);
        }
    }
}

/// `after` is what remains of `before` once the operations `ops` are split
/// off: the listed inputs, clones, drops and outputs are gone, some listed
/// gates are gone and no other, and some values are gone and no other.
pub open spec fn is_split_remainder<G: Gate>(before: Subcircuit<G>, after: Subcircuit<G>, ops: Seq<Operation>) -> bool {
    &&& after.wf()
    &&& after.circuit_id() == before.circuit_id()
    &&& after.inputs()@ == before.inputs()@.remove_keys(listed_inputs(ops))
    &&& after.clones()@ == before.clones()@.remove_keys(listed_clones(ops))
    &&& after.drops()@ == before.drops()@.remove_keys(listed_drops(ops))
    &&& after.outputs()@ == before.outputs()@.remove_keys(listed_outputs(ops))
    &&& after.gates()@.submap_of(before.gates()@)
    &&& forall|k: (usize, usize)|
        before.gates()@.dom().contains(k) && !after.gates()@.dom().contains(k) ==> #[trigger] lists_gate(ops, k)
    &&& after.values()@.submap_of(before.values()@)
}

/// Some key is mapped to the value `v`.
pub open spec fn holds_value(map: Seq<(Key, ValueId)>, v: ValueId) -> bool {
    exists|j: int| 0 <= j < map.len() && (#[trigger] map[j]).1 == v
}

/// Every value mapped to is a value of `sub`.
pub open spec fn map_valid<G: Gate>(map: Seq<(Key, ValueId)>, sub: Subcircuit<G>) -> bool {
    forall|j: int| 0 <= j < map.len() ==> sub.has_value(#[trigger] map[j].1)
}

/// `op` produces a value with key `v`.
pub open spec fn produces<G: Gate>(op: GateOp<G>, v: (usize, usize)) -> bool {
    exists|q: int| 0 <= q < op.outputs().len() && (#[trigger] op.outputs()[q]).value@ == v
}

/// The outputs of `op` are stored values of `s`, as many as its
/// descriptor gives, each a different one.
pub open spec fn outputs_stored<G: Gate>(s: Subcircuit<G>, op: GateOp<G>) -> bool {
    &&& op.outputs().len() == op.gate().spec_output_count()
    &&& forall|p: int| 0 <= p < op.outputs().len() ==> s.values()@.dom().contains(#[trigger] op.outputs()[p].value@)
    &&& forall|p: int, q: int| 0 <= p < q < op.outputs().len() ==> (#[trigger] op.outputs()[p]).value@ != (#[trigger] op.outputs()[q]).value@
}

/// Gate `k` of `o` has its outputs stored, and no other gate of `o`
/// produces any of them.
pub open spec fn owned_in<G: Gate>(o: Subcircuit<G>, k: (usize, usize)) -> bool {
    &&& outputs_stored(o, o.gates()@[k])
    &&& forall|g2: (usize, usize), p: int|
        #[trigger] o.gates()@.dom().contains(g2) && g2 != k && 0 <= p < o.gates()@[k].outputs().len() ==> !produces(
            o.gates()@[g2],
            (#[trigger] o.gates()@[k].outputs()[p]).value@,
        )
}

/// A gate of `o` that `s` no longer holds produces `v`.
pub open spec fn removed_produces<G: Gate>(o: Subcircuit<G>, s: Subcircuit<G>, v: (usize, usize)) -> bool {
    exists|g2: (usize, usize)| #[trigger] o.gates()@.dom().contains(g2) && !s.gates()@.dom().contains(g2) && produces(o.gates()@[g2], v)
}

proof fn lemma_is_mapped_extend(m0: Seq<(Key, ValueId)>, m1: Seq<(Key, ValueId)>, key: Key)
    requires
        m1.len() >= m0.len(),
        m1.take(m0.len() as int) == m0,
        is_mapped(m0, key),
    ensures
        is_mapped(m1, key),
{
    let j = choose|j: int| 0 <= j < m0.len() && (#[trigger] m0[j]).0 == key;
    assert(m1.take(m0.len() as int)[j] == m0[j]);
    assert(m1[j] == m0[j]);
}

/// `new` reads, port by port, values that `map` pairs with the values `old`
/// reads.
pub open spec fn reads_counterparts<G: Gate>(map: Seq<(Key, ValueId)>, old: GateOp<G>, new: GateOp<G>) -> bool {
    &&& new.inputs().len() == old.inputs().len()
    &&& forall|p: int| 0 <= p < new.inputs().len() ==> pairs_with(map, old.inputs()[p].value, #[trigger] new.inputs()[p])
}

proof fn lemma_reads_counterparts_extend<G: Gate>(m0: Seq<(Key, ValueId)>, m1: Seq<(Key, ValueId)>, old: GateOp<G>, new: GateOp<G>)
    requires
        m1.len() >= m0.len(),
        m1.take(m0.len() as int) == m0,
        reads_counterparts(m0, old, new),
    ensures
        reads_counterparts(m1, old, new),
{
    assert forall|p: int| 0 <= p < new.inputs().len() implies pairs_with(m1, old.inputs()[p].value, #[trigger] new.inputs()[p]) by {
        lemma_pairs_with_extend(m0, m1, old.inputs()[p].value, new.inputs()[p]);
    }
}

/// The descriptor of `op` takes its inputs and gives its output types and
/// access modes without error.
pub open spec fn gate_accepts<G: Gate>(op: GateOp<G>) -> bool {
    &&& op.inputs().len() == op.gate().spec_input_count()
    &&& all_ok(op.gate().spec_output_count(), |i: int| op.gate().spec_output_type(i as usize))
    &&& all_ok(op.gate().spec_input_count(), |j: int| op.gate().spec_access_mode(j as usize))
}

/// Some entry of `map` pairs the old value key `key` with the new value `v`.
pub open spec fn pairs_with(map: Seq<(Key, ValueId)>, key: Key, v: ValueId) -> bool {
    exists|j: int| 0 <= j < map.len() && #[trigger] map[j] == (key, v)
}

/// The last entry of `map` for the old value key `key` pairs it with `v`.
pub open spec fn maps_to(map: Seq<(Key, ValueId)>, key: Key, v: ValueId) -> bool {
    exists|j: int| 0 <= j < map.len() && #[trigger] map[j] == (key, v) && forall|j2: int| j < j2 < map.len() ==> map[j2].0 != key
}

proof fn lemma_pairs_with_extend(m0: Seq<(Key, ValueId)>, m1: Seq<(Key, ValueId)>, key: Key, v: ValueId)
    requires
        m1.len() >= m0.len(),
        m1.take(m0.len() as int) == m0,
        pairs_with(m0, key, v) || maps_to(m0, key, v),
    ensures
        pairs_with(m1, key, v),
{
    let j = choose|j: int| 0 <= j < m0.len() && #[trigger] m0[j] == (key, v);
    assert(m1.take(m0.len() as int)[j] == m0[j]);
    assert(m1[j] == (key, v));
}

/// The new value mapped to an old value key: the one mapped last.
fn mapped(map: &Vec<(Key, ValueId)>, key: Key) -> (r: Option<ValueId>)
    ensures
        r is Some <==> is_mapped(map@, key),
        r is Some ==> exists|j: int| 0 <= j < map@.len() && (#[trigger] map@[j]).0 == key && map@[j].1 == r->0,
        r is Some ==> maps_to(map@, key, r->0),
{
    let mut i: usize = map.len();
    while i > 0
        invariant
            i <= map@.len(),
            forall|j: int| i <= j < map@.len() ==> map@[j].0 != key,
        decreases i,
    {
        i = i - 1;
        if map[i].0 == key {
            proof {
                assert(map@[i as int].0 == key);
            }
            proof {
                assert(map@[i as int] == (key, map@[i as int].1));
            }
            return Some(map[i].1);
        }
    }
    None
}

proof fn lemma_submap_trans<K, V>(a: Map<K, V>, b: Map<K, V>, c: Map<K, V>)
    requires
        a.submap_of(b),
        b.submap_of(c),
    ensures
        a.submap_of(c),
{
    assert forall|k: K| #[trigger] a.dom().contains(k) implies c.dom().contains(k) && a[k] == c[k] by {
        assert(b.dom().contains(k));
    }
}

proof fn lemma_remove_submap<K, V>(a: Map<K, V>, key: K)
    ensures
        a.remove(key).submap_of(a),
{
    assert forall|k: K| #[trigger] a.remove(key).dom().contains(k) implies a.dom().contains(k) && a.remove(key)[k] == a[k] by {
        assert(k != key);
    }
}

/// Whether every value `inputs` reads is mapped.
fn all_mapped(inputs: &[ValueId], map: &Vec<(Key, ValueId)>) -> (r: bool)
    ensures
        r == forall|k: int| 0 <= k < inputs@.len() ==> is_mapped(map@, (#[trigger] inputs@[k]).value),
{
    let mut k: usize = 0;
    while k < inputs.len()
        invariant
            k <= inputs@.len(),
            forall|j: int| 0 <= j < k ==> is_mapped(map@, (#[trigger] inputs@[j]).value),
        decreases inputs@.len() - k,
    {
        if mapped(map, inputs[k].key()).is_none() {
            return false;
        }
        k = k + 1;
    }
    true
}

/// The new values of the values `inputs` reads, all of which are mapped.
fn map_all(inputs: &[ValueId], map: &Vec<(Key, ValueId)>) -> (r: Vec<ValueId>)
    requires
        forall|k: int| 0 <= k < inputs@.len() ==> is_mapped(map@, (#[trigger] inputs@[k]).value),
    ensures
        r@.len() == inputs@.len(),
        forall|p: int| 0 <= p < r@.len() ==> #[trigger] holds_value(map@, r@[p]),
        forall|p: int| 0 <= p < r@.len() ==> maps_to(map@, inputs@[p].value, #[trigger] r@[p]),
{
    let mut r: Vec<ValueId> = Vec::with_capacity(inputs.len());
    let mut k: usize = 0;
    while k < inputs.len()
        invariant
            k <= inputs@.len(),
            r@.len() == k,
            forall|j: int| 0 <= j < inputs@.len() ==> is_mapped(map@, (#[trigger] inputs@[j]).value),
            forall|p: int| 0 <= p < r@.len() ==> #[trigger] holds_value(map@, r@[p]),
            forall|p: int| 0 <= p < r@.len() ==> maps_to(map@, inputs@[p].value, #[trigger] r@[p]),
        decreases inputs@.len() - k,
    {
        let v = match mapped(map, inputs[k].key()) {
            Some(v) => v,
            None => {
                proof {
                    assert(is_mapped(map@, inputs@[k as int].value));
                }
                vstd::pervasive::unreached()
            },
        };
        let ghost before = r@;
        r.push(v);
        proof {
            let j = choose|j: int| 0 <= j < map@.len() && (#[trigger] map@[j]).0 == inputs@[k as int].value && map@[j].1 == v;
            assert(holds_value(map@, v));
            assert forall|p: int| 0 <= p < r@.len() implies #[trigger] holds_value(map@, r@[p]) by {
                if p < before.len() {
                    assert(r@[p] == before[p]);
                }
            }
            assert forall|p: int| 0 <= p < r@.len() implies maps_to(map@, inputs@[p].value, #[trigger] r@[p]) by {
                if p < before.len() {
                    assert(r@[p] == before[p]);
                }
            }
        }
        k = k + 1;
    }
    r
}

/// The pairs of an old key and the new value at the same position, for as
/// many positions as both lists have.
pub open spec fn pairs(old_keys: Seq<Key>, new_values: Seq<ValueId>) -> Seq<(Key, ValueId)> {
    let n = if old_keys.len() <= new_values.len() { old_keys.len() } else { new_values.len() };
    Seq::new(n, |k: int| (old_keys[k], new_values[k]))
}

/// Records that each old key now names the new value at the same position,
/// for as many positions as both lists have.
fn map_pairwise(map: &mut Vec<(Key, ValueId)>, old_keys: &Vec<Key>, new_values: &Vec<ValueId>)
    ensures
        final(map)@ == old(map)@ + pairs(old_keys@, new_values@),
        final(map)@.len() >= old(map)@.len(),
        final(map)@.take(old(map)@.len() as int) == old(map)@,
{
    let ghost start = map@;
    let mut k: usize = 0;
    while k < old_keys.len() && k < new_values.len()
        invariant
            k <= old_keys@.len(),
            k <= new_values@.len(),
            map@ == start + pairs(old_keys@.take(k as int), new_values@.take(k as int)),
        decreases old_keys@.len() - k,
    {
        let ghost before = map@;
        map.push((old_keys[k], new_values[k]));
        proof {
            assert(map@ =~= start + pairs(old_keys@.take(k + 1), new_values@.take(k + 1)));
        }
        k = k + 1;
    }
    proof {
        assert(pairs(old_keys@.take(k as int), new_values@.take(k as int)) =~= pairs(old_keys@, new_values@));
        assert(map@.take(start.len() as int) =~= start);
    }
}

impl<G: Gate> Subcircuit<G> {
    /// Moves the listed inputs, with the values they produce, into `new_sub`.
    fn split_inputs(&mut self, new_sub: &mut Self, ops: &[Operation], map: &mut Vec<(Key, ValueId)>) -> (mi: Ghost<
        Map<(usize, usize), (usize, usize)>,
    >)
        requires
            old(self).wf(),
            old(new_sub).wf(),
            old(new_sub).inputs()@.dom().is_empty(),
            map_valid(old(map)@, *old(new_sub)),
        ensures
            final(self).wf(),
            final(new_sub).wf(),
            final(new_sub).circuit_id() == old(new_sub).circuit_id(),
            final(new_sub).gates() == old(new_sub).gates(),
            final(new_sub).clones() == old(new_sub).clones(),
            final(new_sub).drops() == old(new_sub).drops(),
            final(new_sub).outputs() == old(new_sub).outputs(),
            final(self).circuit_id() == old(self).circuit_id(),
            final(self).inputs()@ == old(self).inputs()@.remove_keys(listed_inputs(ops@)),
            final(self).gates() == old(self).gates(),
            final(self).clones() == old(self).clones(),
            final(self).drops() == old(self).drops(),
            final(self).outputs() == old(self).outputs(),
            final(self).values()@.submap_of(old(self).values()@),
            moves_inputs(*old(self), ops@, *final(new_sub), mi@),
            forall|v: (usize, usize)| #[trigger] old(self).values()@.dom().contains(v) && !(exists|k: (usize, usize)|
                #[trigger] old(self).inputs()@.dom().contains(k) && input_out(*old(self), k) == v) ==> final(self).values()@.dom().contains(v),
            map_valid(final(map)@, *final(new_sub)),
            final(map)@.len() >= old(map)@.len(),
            final(map)@.take(old(map)@.len() as int) == old(map)@,
            forall|a: (usize, usize)| #[trigger] mi@.dom().contains(a) ==> is_mapped(final(map)@, old(self).inputs()@[mi@[a]].output().value),
            forall|a: (usize, usize)| #[trigger] mi@.dom().contains(a) ==> pairs_with(
                final(map)@,
                old(self).inputs()@[mi@[a]].output().value,
                final(new_sub).inputs()@[a].output(),
            ),
    {
        let mut i: usize = 0;
        let ghost mut mi: Map<(usize, usize), (usize, usize)> = Map::empty();
        proof {
            assert(old(self).inputs()@.remove_keys(listed_inputs(ops@.take(0))) =~= old(self).inputs()@);
            assert(mi.dom() =~= new_sub.inputs()@.dom());
            assert forall|k: (usize, usize)| !listed_inputs(ops@.take(0)).contains(k) by {}
        }
        while i < ops.len()
            invariant
                self.wf(),
                new_sub.wf(),
                new_sub.circuit_id() == old(new_sub).circuit_id(),
                new_sub.gates() == old(new_sub).gates(),
                new_sub.clones() == old(new_sub).clones(),
                new_sub.drops() == old(new_sub).drops(),
                new_sub.outputs() == old(new_sub).outputs(),
                self.circuit_id() == old(self).circuit_id(),
                i <= ops@.len(),
                self.inputs()@ == old(self).inputs()@.remove_keys(listed_inputs(ops@.take(i as int))),
                self.gates() == old(self).gates(),
                self.clones() == old(self).clones(),
                self.drops() == old(self).drops(),
                self.outputs() == old(self).outputs(),
                self.values()@.submap_of(old(self).values()@),
                old(self).wf(),
                moves_inputs(*old(self), ops@.take(i as int), *new_sub, mi),
                map_valid(map@, *new_sub),
                map@.len() >= old(map)@.len(),
                map@.take(old(map)@.len() as int) == old(map)@,
                forall|a: (usize, usize)| #[trigger] mi.dom().contains(a) ==> is_mapped(map@, old(self).inputs()@[mi[a]].output().value),
                forall|a: (usize, usize)| #[trigger] mi.dom().contains(a) ==> pairs_with(map@, old(self).inputs()@[mi[a]].output().value, new_sub.inputs()@[a].output()),
                forall|v: (usize, usize)| #[trigger] self.values()@.dom().contains(v) <==> (old(self).values()@.dom().contains(v)
                    && !exists|k: (usize, usize)| #[trigger] old(self).inputs()@.dom().contains(k)
                        && listed_inputs(ops@.take(i as int)).contains(k) && input_out(*old(self), k) == v),
            decreases ops@.len() - i,
        {
            let ghost o = *old(self);
            let ghost s0 = listed_inputs(ops@.take(i as int));
            let ghost s1 = listed_inputs(ops@.take(i as int + 1));
            proof {
                assert forall|k: (usize, usize)| s1.contains(k) <==> (s0.contains(k) || (ops@[i as int] is Input && ops@[i as int]->Input_0.key@ == k)) by {
                    if s1.contains(k) {
                        let j = choose|j: int| 0 <= j < ops@.take(i as int + 1).len() && (#[trigger] ops@.take(i as int + 1)[j]) is Input && ops@.take(i as int + 1)[j]->Input_0.key@ == k;
                        if j < i {
                            assert(ops@.take(i as int)[j] == ops@[j]);
                        }
                    }
                    if s0.contains(k) {
                        let j = choose|j: int| 0 <= j < ops@.take(i as int).len() && (#[trigger] ops@.take(i as int)[j]) is Input && ops@.take(i as int)[j]->Input_0.key@ == k;
                        assert(ops@.take(i as int + 1)[j] == ops@[j]);
                    }
                    if ops@[i as int] is Input && ops@[i as int]->Input_0.key@ == k {
                        assert(ops@.take(i as int + 1)[i as int] == ops@[i as int]);
                    }
                }
            }
            let ghost vals0 = self.values()@;
            let ghost ins0 = self.inputs()@;
            let ghost ns0 = *new_sub;
            let ghost mi0 = mi;
            let ghost map0 = map@;
            let mut moved = false;
            if let Operation::Input(input_id) = ops[i] {
                if let Some(input_op) = self.inputs.remove(input_id.key()) {
                    let old_value_id = input_op.get_output();
                    proof {
                        assert(ins0.dom().contains(input_id.key@));
                        assert(input_op == o.inputs()@[input_id.key@]);
                    }
                    if let Some(old_value) = self.values.remove(old_value_id.key()) {
                        let operand = old_value.get_type();
                        match new_sub.add_input(operand) {
                            Ok((iid, new_value_id)) => {
                                map.push((old_value_id.key(), new_value_id));
                                proof {
                                    assert(map@[map0.len() as int] == (old_value_id.value, new_value_id));
                                    assert forall|j: int| 0 <= j < map@.len() implies new_sub.has_value(#[trigger] map@[j].1) by {
                                        if j < map0.len() {
                                            assert(map@[j] == map0[j]);
                                            assert(ns0.has_value(map0[j].1));
                                        }
                                    }
                                    assert(map@.take(old(map)@.len() as int) =~= map0.take(old(map)@.len() as int));
                                    assert forall|x: (usize, usize)| #[trigger] mi0.dom().contains(x) implies is_mapped(map@, o.inputs()@[mi0[x]].output().value) by {
                                        let j = choose|j: int| 0 <= j < map0.len() && (#[trigger] map0[j]).0 == o.inputs()@[mi0[x]].output().value;
                                        assert(map@[j] == map0[j]);
                                    }
                                    let k = input_id.key@;
                                    let a = iid.key@;
                                    mi = mi0.insert(a, k);
                                    assert(!s0.contains(k));
                                    assert(new_sub.inputs()@.dom() =~= ns0.inputs()@.dom().insert(a));
                                    assert(mi.dom() =~= new_sub.inputs()@.dom());
                                    assert forall|x: (usize, usize)| #[trigger] mi0.dom().contains(x) implies mi0[x] != k by {
                                        assert(s0.contains(mi0[x]));
                                    }
                                    assert forall|x: (usize, usize), y: (usize, usize)|
                                        #[trigger] mi.dom().contains(x) && #[trigger] mi.dom().contains(y) && x != y implies mi[x] != mi[y] by {
                                        if x != a && y != a {
                                            assert(mi0.dom().contains(x) && mi0.dom().contains(y));
                                        } else if x == a {
                                            assert(mi0.dom().contains(y));
                                        } else {
                                            assert(mi0.dom().contains(x));
                                        }
                                    }
                                    assert(input_out(*new_sub, a) == new_value_id.value@);
                                    assert forall|x: (usize, usize)| #[trigger] mi.dom().contains(x) implies {
                                        &&& o.inputs()@.dom().contains(mi[x])
                                        &&& s1.contains(mi[x])
                                        &&& new_sub.values()@.dom().contains(input_out(*new_sub, x))
                                        &&& o.values()@.dom().contains(input_out(o, mi[x]))
                                        &&& new_sub.values()@[input_out(*new_sub, x)].value_type() == o.values()@[input_out(o, mi[x])].value_type()
                                    } by {
                                        if x != a {
                                            assert(mi0.dom().contains(x));
                                            assert(ns0.inputs()@.dom().contains(x));
                                            assert(new_sub.inputs()@[x] == ns0.inputs()@[x]);
                                            assert(ns0.values()@.dom().contains(input_out(ns0, x)));
                                            assert(input_out(ns0, x) != new_value_id.value@);
                                        }
                                    }
                                    assert forall|x: (usize, usize)| #[trigger] mi.dom().contains(x) implies pairs_with(map@, o.inputs()@[mi[x]].output().value, new_sub.inputs()@[x].output()) by {
                                        if x == a {
                                            assert(map@[map0.len() as int] == (o.inputs()@[k].output().value, new_sub.inputs()@[a].output()));
                                        } else {
                                            assert(mi0.dom().contains(x));
                                            assert(new_sub.inputs()@[x] == ns0.inputs()@[x]);
                                            let j = choose|j: int| 0 <= j < map0.len() && #[trigger] map0[j] == (o.inputs()@[mi0[x]].output().value, ns0.inputs()@[x].output());
                                            assert(map@[j] == map0[j]);
                                        }
                                    }
                                    assert forall|x: (usize, usize)| #[trigger] mi.dom().contains(x) implies is_mapped(map@, o.inputs()@[mi[x]].output().value) by {
                                        if x == a {
                                            assert(map@[map0.len() as int].0 == o.inputs()@[k].output().value);
                                        } else {
                                            assert(mi0.dom().contains(x));
                                        }
                                    }
                                    assert forall|k2: (usize, usize)|
                                        #[trigger] o.inputs()@.dom().contains(k2) && s1.contains(k2) && owns_output(o, k2)
                                            implies exists|x: (usize, usize)| #[trigger] mi.dom().contains(x) && mi[x] == k2 by {
                                        if k2 == k {
                                            assert(mi.dom().contains(a) && mi[a] == k);
                                        } else {
                                            assert(s0.contains(k2));
                                            let x = choose|x: (usize, usize)| #[trigger] mi0.dom().contains(x) && mi0[x] == k2;
                                            assert(mi.dom().contains(x) && mi[x] == k2);
                                        }
                                    }
                                }
                                moved = true;
                            },
                            Err(_) => {},
                        }
                    }
                }
            }
            proof {
                if !moved {
                    assert(mi == mi0);
                    assert(*new_sub == ns0);
                    assert forall|k2: (usize, usize)|
                        #[trigger] o.inputs()@.dom().contains(k2) && s1.contains(k2) && owns_output(o, k2)
                            implies exists|x: (usize, usize)| #[trigger] mi.dom().contains(x) && mi[x] == k2 by {
                        if !s0.contains(k2) {
                            // k2 is the input just looked at, still stored before this step
                            let ov = input_out(o, k2);
                            assert(ins0.dom().contains(k2));
                            assert(o.values()@.dom().contains(ov));
                            assert(!exists|k: (usize, usize)| #[trigger] o.inputs()@.dom().contains(k) && s0.contains(k) && input_out(o, k) == ov) by {
                                if exists|k: (usize, usize)| #[trigger] o.inputs()@.dom().contains(k) && s0.contains(k) && input_out(o, k) == ov {
                                    let k = choose|k: (usize, usize)| #[trigger] o.inputs()@.dom().contains(k) && s0.contains(k) && input_out(o, k) == ov;
                                    assert(k != k2);
                                }
                            }
                            assert(vals0.dom().contains(ov));
                            assert(false);
                        }
                    }
                }
                assert forall|x: (usize, usize)| #[trigger] mi.dom().contains(x) implies s1.contains(mi[x]) by {
                    if moved {
                    } else {
                        assert(s0.contains(mi0[x]));
                    }
                }
                assert forall|v: (usize, usize)| #[trigger] self.values()@.dom().contains(v) <==> (o.values()@.dom().contains(v)
                    && !exists|k: (usize, usize)| #[trigger] o.inputs()@.dom().contains(k) && s1.contains(k) && input_out(o, k) == v) by {
                    if exists|k: (usize, usize)| #[trigger] o.inputs()@.dom().contains(k) && s1.contains(k) && input_out(o, k) == v {
                        let k = choose|k: (usize, usize)| #[trigger] o.inputs()@.dom().contains(k) && s1.contains(k) && input_out(o, k) == v;
                        if s0.contains(k) {
                            assert(!vals0.dom().contains(v));
                        }
                    }
                    if self.values()@.dom().contains(v) {
                        assert(vals0.dom().contains(v));
                    }
                }
                assert(self.inputs()@ =~= o.inputs()@.remove_keys(s1));
            }
            i = i + 1;
        }
        proof {
            assert(ops@.take(ops@.len() as int) =~= ops@);
            assert forall|v: (usize, usize)| #[trigger] old(self).values()@.dom().contains(v) && !(exists|k: (usize, usize)|
                #[trigger] old(self).inputs()@.dom().contains(k) && input_out(*old(self), k) == v) implies self.values()@.dom().contains(v) by {
                if exists|k: (usize, usize)| #[trigger] old(self).inputs()@.dom().contains(k) && listed_inputs(ops@.take(ops@.len() as int)).contains(k) && input_out(*old(self), k) == v {
                    let k = choose|k: (usize, usize)| #[trigger] old(self).inputs()@.dom().contains(k) && listed_inputs(ops@.take(ops@.len() as int)).contains(k) && input_out(*old(self), k) == v;
                    assert(old(self).inputs()@.dom().contains(k) && input_out(*old(self), k) == v);
                }
            }
        }
        Ghost(mi)
    }

    /// Gate `gid` is stored here and every value it reads is mapped.
    fn gate_ready(&self, gid: GateId, map: &Vec<(Key, ValueId)>) -> (r: bool)
        requires
            self.wf(),
        ensures
            r ==> self.gates()@.dom().contains(gid.key@),
            r ==> forall|k: int|
                0 <= k < self.gates()@[gid.key@].inputs().len() ==> is_mapped(map@, (#[trigger] self.gates()@[gid.key@].inputs()[k]).value),
            !r && self.gates()@.dom().contains(gid.key@) ==> !forall|k: int|
                0 <= k < self.gates()@[gid.key@].inputs().len() ==> is_mapped(map@, (#[trigger] self.gates()@[gid.key@].inputs()[k]).value),
    {
        match self.gates.get(gid.key()) {
            Some(g) => all_mapped(g.get_inputs(), map),
            None => false,
        }
    }

    /// Moves one gate, whose inputs are all mapped, into `new_sub`, with the
    /// values it produces.
    fn move_gate(&mut self, new_sub: &mut Self, gid: GateId, map: &mut Vec<(Key, ValueId)>) -> (added: Ghost<Option<(usize, usize)>>)
        requires
            old(self).wf(),
            old(new_sub).wf(),
            old(self).gates()@.dom().contains(gid.key@),
            forall|k: int|
                0 <= k < old(self).gates()@[gid.key@].inputs().len() ==> is_mapped(old(map)@, (#[trigger] old(self).gates()@[gid.key@].inputs()[k]).value),
            map_valid(old(map)@, *old(new_sub)),
        ensures
            final(self).wf(),
            map_valid(final(map)@, *final(new_sub)),
            added@ is Some <==> gate_accepts(old(self).gates()@[gid.key@]),
            added@ is Some ==> reads_counterparts(final(map)@, old(self).gates()@[gid.key@], final(new_sub).gates()@[added@->0]),
            forall|v: (usize, usize)| #[trigger] old(self).values()@.dom().contains(v) && !produces(old(self).gates()@[gid.key@], v)
                ==> final(self).values()@.dom().contains(v),
            added@ is Some && outputs_stored(*old(self), old(self).gates()@[gid.key@]) ==> forall|p: int|
                0 <= p < old(self).gates()@[gid.key@].outputs().len() ==> is_mapped(
                    final(map)@,
                    (#[trigger] old(self).gates()@[gid.key@].outputs()[p]).value,
                ),
            final(new_sub).wf(),
            final(new_sub).circuit_id() == old(new_sub).circuit_id(),
            final(new_sub).clones() == old(new_sub).clones(),
            final(new_sub).drops() == old(new_sub).drops(),
            final(new_sub).outputs() == old(new_sub).outputs(),
            keeps_inputs(*old(new_sub), *final(new_sub)),
            final(self).circuit_id() == old(self).circuit_id(),
            final(self).gates()@ == old(self).gates()@.remove(gid.key@),
            final(self).inputs() == old(self).inputs(),
            final(self).clones() == old(self).clones(),
            final(self).drops() == old(self).drops(),
            final(self).outputs() == old(self).outputs(),
            final(self).values()@.submap_of(old(self).values()@),
            final(map)@.len() >= old(map)@.len(),
            final(map)@.take(old(map)@.len() as int) == old(map)@,
            added@ is None ==> final(new_sub).gates() == old(new_sub).gates(),
            added@ is Some ==> {
                let a = added@->0;
                &&& !old(new_sub).gates()@.dom().contains(a)
                &&& final(new_sub).gates()@ == old(new_sub).gates()@.insert(a, final(new_sub).gates()@[a])
                &&& final(new_sub).gates()@[a].gate() == old(self).gates()@[gid.key@].gate()
            },
    {
        let gate_op = match self.gates.remove(gid.key()) {
            Some(g) => g,
            None => {
                return Ghost(None);
            },
        };
        let gate = *gate_op.get_gate();
        let new_inputs = map_all(gate_op.get_inputs(), map);
        proof {
            assert forall|p: int| 0 <= p < new_inputs@.len() implies new_sub.has_value(#[trigger] new_inputs@[p]) by {
                assert(holds_value(map@, new_inputs@[p]));
                let j = choose|j: int| 0 <= j < map@.len() && (#[trigger] map@[j]).1 == new_inputs@[p];
            }
            assert(gate_op == old(self).gates()@[gid.key@]);
        }
        let outputs = gate_op.get_outputs();
        let ghost stored = outputs_stored(*old(self), gate_op);
        let mut old_keys: Vec<Key> = Vec::new();
        let mut k: usize = 0;
        while k < outputs.len()
            invariant
                self.wf(),
                self.values()@.submap_of(old(self).values()@),
                self.gates()@ == old(self).gates()@.remove(gid.key@),
                self.inputs() == old(self).inputs(),
                self.clones() == old(self).clones(),
                self.drops() == old(self).drops(),
                self.outputs() == old(self).outputs(),
                self.circuit_id() == old(self).circuit_id(),
                k <= outputs@.len(),
                outputs@ == gate_op.outputs(),
                gate_op == old(self).gates()@[gid.key@],
                stored == outputs_stored(*old(self), gate_op),
                forall|v: (usize, usize)| #[trigger] old(self).values()@.dom().contains(v) && !produces(gate_op, v)
                    ==> self.values()@.dom().contains(v),
                stored ==> old_keys@.len() == k,
                stored ==> forall|q: int| 0 <= q < k ==> #[trigger] old_keys@[q] == outputs@[q].value,
                stored ==> forall|q: int| k <= q < outputs@.len() ==> self.values()@.dom().contains(#[trigger] outputs@[q].value@),
            decreases outputs@.len() - k,
        {
            let key = outputs[k].key();
            let ghost vals0 = self.values()@;
            let ghost keys0 = old_keys@;
            if let Some(_old_value) = self.values.remove(key) {
                old_keys.push(key);
            }
            proof {
                assert(produces(gate_op, key@)) by {
                    assert(gate_op.outputs()[k as int].value@ == key@);
                }
                assert forall|v: (usize, usize)| #[trigger] old(self).values()@.dom().contains(v) && !produces(gate_op, v)
                    implies self.values()@.dom().contains(v) by {
                    assert(vals0.dom().contains(v));
                }
                if stored {
                    assert(vals0.dom().contains(outputs@[k as int].value@));
                    assert forall|q: int| 0 <= q < k + 1 implies #[trigger] old_keys@[q] == outputs@[q].value by {
                        if q < k {
                            assert(old_keys@[q] == keys0[q]);
                        }
                    }
                    assert forall|q: int| k + 1 <= q < outputs@.len() implies self.values()@.dom().contains(#[trigger] outputs@[q].value@) by {
                        assert(vals0.dom().contains(outputs@[q].value@));
                        assert(outputs@[k as int].value@ != outputs@[q].value@);
                    }
                }
            }
            k = k + 1;
        }
        let ghost nb = *new_sub;
        match new_sub.add_gate(&new_inputs, gate) {
            Ok((new_gid, new_outputs)) => {
                let ghost map0 = map@;
                map_pairwise(map, &old_keys, &new_outputs);
                proof {
                    assert forall|p: int| 0 <= p < new_inputs@.len() implies pairs_with(map@, gate_op.inputs()[p].value, #[trigger] new_inputs@[p]) by {
                        lemma_pairs_with_extend(map0, map@, gate_op.inputs()[p].value, new_inputs@[p]);
                    }
                    assert forall|j: int| 0 <= j < map@.len() implies new_sub.has_value(#[trigger] map@[j].1) by {
                        if j < map0.len() {
                            assert(map@[j] == map0[j]);
                            assert(nb.has_value(map0[j].1));
                        } else {
                            let q = j - map0.len();
                            assert(map@[j] == pairs(old_keys@, new_outputs@)[q]);
                            assert(map@[j].1 == new_outputs@[q]);
                        }
                    }
                    assert(keeps_inputs(nb, *new_sub));
                    if stored {
                        assert forall|p: int| 0 <= p < outputs@.len() implies is_mapped(map@, (#[trigger] outputs@[p]).value) by {
                            assert(map@[map0.len() + p] == pairs(old_keys@, new_outputs@)[p]);
                            assert(map@[map0.len() + p].0 == outputs@[p].value);
                        }
                    }
                }
                Ghost(Some(new_gid.key@))
            },
            Err(_) => {
                proof {
                    assert(!gate_accepts(old(self).gates()@[gid.key@]));
                }
                Ghost(None)
            },
        }
    }

    /// Moves the listed gates into `new_sub`, in passes: a gate moves once
    /// every value it reads is mapped, until a pass moves none.
    fn split_gates(&mut self, new_sub: &mut Self, ops: &[Operation], map: &mut Vec<(Key, ValueId)>) -> (m: Ghost<
        Map<(usize, usize), (usize, usize)>,
    >)
        requires
            old(self).wf(),
            old(new_sub).wf(),
            old(new_sub).gates()@.dom().is_empty(),
            map_valid(old(map)@, *old(new_sub)),
        ensures
            final(self).wf(),
            final(new_sub).wf(),
            final(new_sub).circuit_id() == old(new_sub).circuit_id(),
            final(new_sub).clones() == old(new_sub).clones(),
            final(new_sub).drops() == old(new_sub).drops(),
            final(new_sub).outputs() == old(new_sub).outputs(),
            keeps_inputs(*old(new_sub), *final(new_sub)),
            moves_gates(*old(self), ops@, *final(new_sub), m@),
            map_valid(final(map)@, *final(new_sub)),
            forall|a: (usize, usize)| #[trigger] m@.dom().contains(a) ==> reads_counterparts(
                final(map)@,
                old(self).gates()@[m@[a]],
                final(new_sub).gates()@[a],
            ),
            forall|v: (usize, usize)| #[trigger] old(self).values()@.dom().contains(v) && !removed_produces(*old(self), *final(self), v)
                ==> final(self).values()@.dom().contains(v),
            forall|a: (usize, usize)| #[trigger] m@.dom().contains(a) && owned_in(*old(self), m@[a]) ==> forall|p: int|
                0 <= p < old(self).gates()@[m@[a]].outputs().len() ==> is_mapped(final(map)@, (#[trigger] old(self).gates()@[m@[a]].outputs()[p]).value),
            forall|k: (usize, usize)|
                #[trigger] old(self).gates()@.dom().contains(k) && listed_gates(ops@).contains(k) && !final(self).gates()@.dom().contains(k)
                    && gate_accepts(old(self).gates()@[k]) ==> exists|a: (usize, usize)| #[trigger] m@.dom().contains(a) && m@[a] == k,
            final(self).circuit_id() == old(self).circuit_id(),
            final(self).gates()@.submap_of(old(self).gates()@),
            forall|k: (usize, usize)|
                old(self).gates()@.dom().contains(k) && !final(self).gates()@.dom().contains(k) ==> #[trigger] lists_gate(ops@, k),
            final(self).inputs() == old(self).inputs(),
            final(self).clones() == old(self).clones(),
            final(self).drops() == old(self).drops(),
            final(self).outputs() == old(self).outputs(),
            final(self).values()@.submap_of(old(self).values()@),
            final(map)@.len() >= old(map)@.len(),
            final(map)@.take(old(map)@.len() as int) == old(map)@,
            forall|k: (usize, usize)|
                #[trigger] final(self).gates()@.dom().contains(k) && lists_gate(ops@, k) ==> !ready_in(*final(self), k, final(map)@),
    {
        let mut remaining: Vec<GateId> = Vec::new();
        let mut i: usize = 0;
        while i < ops.len()
            invariant
                i <= ops@.len(),
                forall|j: int| 0 <= j < remaining@.len() ==> #[trigger] lists_gate(ops@, remaining@[j].key@),
                forall|j: int| 0 <= j < i && (#[trigger] ops@[j]) is Gate ==> has_gate_key(remaining@, ops@[j]->Gate_0.key@),
            decreases ops@.len() - i,
        {
            let ghost before = remaining@;
            if let Operation::Gate(id) = ops[i] {
                proof {
                    assert(ops@[i as int] is Gate && ops@[i as int]->Gate_0.key@ == id.key@);
                    lemma_listed_gate(ops@, i as int);
                }
                remaining.push(id);
                proof {
                    lemma_push_listed(ops@, before, id);
                    assert(remaining@[before.len() as int] == id);
                }
            }
            proof {
                assert forall|j: int| 0 <= j < i + 1 && (#[trigger] ops@[j]) is Gate implies has_gate_key(remaining@, ops@[j]->Gate_0.key@) by {
                    if j < i {
                        let x = choose|x: int| 0 <= x < before.len() && (#[trigger] before[x]).key@ == ops@[j]->Gate_0.key@;
                        assert(remaining@[x] == before[x]);
                    } else {
                        assert(remaining@[before.len() as int].key@ == ops@[j]->Gate_0.key@);
                    }
                }
            }
            i = i + 1;
        }
        proof {
            assert forall|k: (usize, usize)| lists_gate(ops@, k) implies #[trigger] has_gate_key(remaining@, k) by {
                let j = choose|j: int| 0 <= j < ops@.len() && (#[trigger] ops@[j]) is Gate && ops@[j]->Gate_0.key@ == k;
                assert(has_gate_key(remaining@, ops@[j]->Gate_0.key@));
            }
        }
        let ghost mut m: Map<(usize, usize), (usize, usize)> = Map::empty();
        proof {
            assert(m.dom() =~= new_sub.gates()@.dom());
        }
        let mut progress = true;
        while progress && remaining.len() > 0
            invariant
                self.wf(),
                new_sub.wf(),
                new_sub.circuit_id() == old(new_sub).circuit_id(),
                new_sub.clones() == old(new_sub).clones(),
                new_sub.drops() == old(new_sub).drops(),
                new_sub.outputs() == old(new_sub).outputs(),
                keeps_inputs(*old(new_sub), *new_sub),
                moves_gates(*old(self), ops@, *new_sub, m),
                forall|x: (usize, usize)| #[trigger] m.dom().contains(x) ==> !self.gates()@.dom().contains(m[x]),
                map_valid(map@, *new_sub),
                forall|a: (usize, usize)| #[trigger] m.dom().contains(a) ==> reads_counterparts(map@, old(self).gates()@[m[a]], new_sub.gates()@[a]),
                forall|v: (usize, usize)| #[trigger] old(self).values()@.dom().contains(v) && !removed_produces(*old(self), *self, v)
                    ==> self.values()@.dom().contains(v),
                forall|a: (usize, usize)| #[trigger] m.dom().contains(a) && owned_in(*old(self), m[a]) ==> forall|p: int|
                    0 <= p < old(self).gates()@[m[a]].outputs().len() ==> is_mapped(map@, (#[trigger] old(self).gates()@[m[a]].outputs()[p]).value),
                forall|k: (usize, usize)|
                    #[trigger] old(self).gates()@.dom().contains(k) && listed_gates(ops@).contains(k) && !self.gates()@.dom().contains(k)
                        && gate_accepts(old(self).gates()@[k]) ==> exists|a: (usize, usize)| #[trigger] m.dom().contains(a) && m[a] == k,
                self.circuit_id() == old(self).circuit_id(),
                self.gates()@.submap_of(old(self).gates()@),
                forall|k: (usize, usize)|
                    old(self).gates()@.dom().contains(k) && !self.gates()@.dom().contains(k) ==> #[trigger] lists_gate(ops@, k),
                self.inputs() == old(self).inputs(),
                self.clones() == old(self).clones(),
                self.drops() == old(self).drops(),
                self.outputs() == old(self).outputs(),
                self.values()@.submap_of(old(self).values()@),
                forall|j: int| 0 <= j < remaining@.len() ==> #[trigger] lists_gate(ops@, remaining@[j].key@),
                map@.len() >= old(map)@.len(),
                map@.take(old(map)@.len() as int) == old(map)@,
                forall|k: (usize, usize)|
                    #[trigger] self.gates()@.dom().contains(k) && lists_gate(ops@, k) ==> has_gate_key(remaining@, k),
                !progress ==> forall|x: int| 0 <= x < remaining@.len() ==> !ready_in(*self, (#[trigger] remaining@[x]).key@, map@),
            decreases 2 * remaining@.len() + if progress { 1int } else { 0int },
        {
            progress = false;
            let mut kept: Vec<GateId> = Vec::new();
            let mut j: usize = 0;
            proof {
                assert forall|k: (usize, usize)|
                    #[trigger] self.gates()@.dom().contains(k) && lists_gate(ops@, k) implies has_gate_key_from(remaining@, 0, k) by {
                    assert(has_gate_key(remaining@, k));
                    let x = choose|x: int| 0 <= x < remaining@.len() && (#[trigger] remaining@[x]).key@ == k;
                    assert(remaining@[x].key@ == k);
                }
            }
            while j < remaining.len()
                invariant
                    self.wf(),
                    new_sub.wf(),
                    new_sub.circuit_id() == old(new_sub).circuit_id(),
                    new_sub.clones() == old(new_sub).clones(),
                    new_sub.drops() == old(new_sub).drops(),
                    new_sub.outputs() == old(new_sub).outputs(),
                    keeps_inputs(*old(new_sub), *new_sub),
                    moves_gates(*old(self), ops@, *new_sub, m),
                    forall|x: (usize, usize)| #[trigger] m.dom().contains(x) ==> !self.gates()@.dom().contains(m[x]),
                    map_valid(map@, *new_sub),
                    forall|a: (usize, usize)| #[trigger] m.dom().contains(a) ==> reads_counterparts(map@, old(self).gates()@[m[a]], new_sub.gates()@[a]),
                    forall|v: (usize, usize)| #[trigger] old(self).values()@.dom().contains(v) && !removed_produces(*old(self), *self, v)
                        ==> self.values()@.dom().contains(v),
                    forall|a: (usize, usize)| #[trigger] m.dom().contains(a) && owned_in(*old(self), m[a]) ==> forall|p: int|
                        0 <= p < old(self).gates()@[m[a]].outputs().len() ==> is_mapped(map@, (#[trigger] old(self).gates()@[m[a]].outputs()[p]).value),
                    forall|k: (usize, usize)|
                        #[trigger] old(self).gates()@.dom().contains(k) && listed_gates(ops@).contains(k) && !self.gates()@.dom().contains(k)
                            && gate_accepts(old(self).gates()@[k]) ==> exists|a: (usize, usize)| #[trigger] m.dom().contains(a) && m[a] == k,
                    self.circuit_id() == old(self).circuit_id(),
                    self.gates()@.submap_of(old(self).gates()@),
                    forall|k: (usize, usize)|
                        old(self).gates()@.dom().contains(k) && !self.gates()@.dom().contains(k) ==> #[trigger] lists_gate(ops@, k),
                    self.inputs() == old(self).inputs(),
                    self.clones() == old(self).clones(),
                    self.drops() == old(self).drops(),
                    self.outputs() == old(self).outputs(),
                    self.values()@.submap_of(old(self).values()@),
                    forall|x: int| 0 <= x < remaining@.len() ==> #[trigger] lists_gate(ops@, remaining@[x].key@),
                    forall|x: int| 0 <= x < kept@.len() ==> #[trigger] lists_gate(ops@, kept@[x].key@),
                    j <= remaining@.len(),
                    kept@.len() + (if progress { 1int } else { 0int }) <= j,
                    map@.len() >= old(map)@.len(),
                    map@.take(old(map)@.len() as int) == old(map)@,
                    forall|k: (usize, usize)|
                        #[trigger] self.gates()@.dom().contains(k) && lists_gate(ops@, k) ==> has_gate_key(kept@, k)
                            || has_gate_key_from(remaining@, j as int, k),
                    !progress ==> forall|x: int| 0 <= x < kept@.len() ==> !ready_in(*self, (#[trigger] kept@[x]).key@, map@),
                decreases remaining@.len() - j,
            {
                let gid = remaining[j];
                let ghost gates_now = self.gates()@;
                let ghost kept_now = kept@;
                let ghost map_now = map@;
                if self.gate_ready(gid, map) {
                    proof {
                        assert(lists_gate(ops@, remaining@[j as int].key@));
                    }
                    let ghost vals_before = self.values()@;
                    let ghost gates_before = self.gates()@;
                    let ghost nb = *new_sub;
                    let ghost m0 = m;
                    let ghost sg0 = self.gates()@;
                    let ghost snow = *self;
                    let ghost mapnow = map@;
                    proof {
                        assert(sg0.dom().contains(gid.key@));
                        assert(old(self).gates()@.dom().contains(gid.key@));
                        assert(sg0[gid.key@] == old(self).gates()@[gid.key@]);
                        if owned_in(*old(self), gid.key@) {
                            let op = old(self).gates()@[gid.key@];
                            assert forall|p: int| 0 <= p < op.outputs().len() implies snow.values()@.dom().contains(#[trigger] op.outputs()[p].value@) by {
                                let v = op.outputs()[p].value@;
                                assert(old(self).values()@.dom().contains(v));
                                if removed_produces(*old(self), snow, v) {
                                    let g2 = choose|g2: (usize, usize)| #[trigger] old(self).gates()@.dom().contains(g2) && !snow.gates()@.dom().contains(g2) && produces(old(self).gates()@[g2], v);
                                    assert(g2 != gid.key@);
                                }
                            }
                            assert(outputs_stored(snow, snow.gates()@[gid.key@]));
                        }
                    }
                    let added = self.move_gate(new_sub, gid, map);
                    proof {
                        assert forall|v: (usize, usize)| #[trigger] old(self).values()@.dom().contains(v) && !removed_produces(*old(self), *self, v)
                            implies self.values()@.dom().contains(v) by {
                            if removed_produces(*old(self), snow, v) {
                                let g2 = choose|g2: (usize, usize)| #[trigger] old(self).gates()@.dom().contains(g2) && !snow.gates()@.dom().contains(g2) && produces(old(self).gates()@[g2], v);
                                assert(!self.gates()@.dom().contains(g2));
                            }
                            assert(snow.values()@.dom().contains(v));
                            if produces(snow.gates()@[gid.key@], v) {
                                assert(!self.gates()@.dom().contains(gid.key@));
                                assert(removed_produces(*old(self), *self, v));
                            }
                        }
                        match added@ {
                            Some(a) => {
                                let k = gid.key@;
                                m = m0.insert(a, k);
                                assert forall|x: (usize, usize)| #[trigger] m.dom().contains(x) implies reads_counterparts(map@, old(self).gates()@[m[x]], new_sub.gates()@[x]) by {
                                    if x != a {
                                        assert(m0.dom().contains(x));
                                        assert(new_sub.gates()@[x] == nb.gates()@[x]);
                                        lemma_reads_counterparts_extend(mapnow, map@, old(self).gates()@[m[x]], new_sub.gates()@[x]);
                                    }
                                }
                                assert forall|x: (usize, usize)| #[trigger] m.dom().contains(x) && owned_in(*old(self), m[x]) implies forall|p: int|
                                    0 <= p < old(self).gates()@[m[x]].outputs().len() ==> is_mapped(map@, (#[trigger] old(self).gates()@[m[x]].outputs()[p]).value) by {
                                    if x == a {
                                    } else {
                                        assert(m0.dom().contains(x));
                                        assert forall|p: int| 0 <= p < old(self).gates()@[m[x]].outputs().len() implies is_mapped(map@, (#[trigger] old(self).gates()@[m[x]].outputs()[p]).value) by {
                                            lemma_is_mapped_extend(mapnow, map@, old(self).gates()@[m[x]].outputs()[p].value);
                                        }
                                    }
                                }
                                assert(m.dom() =~= new_sub.gates()@.dom());
                                assert(lists_gate(ops@, remaining@[j as int].key@));
                                assert(listed_gates(ops@).contains(k));
                                assert forall|x: (usize, usize), y: (usize, usize)|
                                    #[trigger] m.dom().contains(x) && #[trigger] m.dom().contains(y) && x != y implies m[x] != m[y] by {
                                    if x != a && y != a {
                                        assert(m0.dom().contains(x) && m0.dom().contains(y));
                                    } else if x == a {
                                        assert(m0.dom().contains(y));
                                    } else {
                                        assert(m0.dom().contains(x));
                                    }
                                }
                                assert forall|k2: (usize, usize)|
                                    #[trigger] old(self).gates()@.dom().contains(k2) && listed_gates(ops@).contains(k2) && !self.gates()@.dom().contains(k2)
                                        && gate_accepts(old(self).gates()@[k2]) implies exists|x: (usize, usize)| #[trigger] m.dom().contains(x) && m[x] == k2 by {
                                    if k2 == k {
                                        assert(m.dom().contains(a) && m[a] == k);
                                    } else {
                                        assert(!sg0.dom().contains(k2));
                                        let x = choose|x: (usize, usize)| #[trigger] m0.dom().contains(x) && m0[x] == k2;
                                        assert(m.dom().contains(x) && m[x] == k2);
                                    }
                                }
                                assert forall|x: (usize, usize)| #[trigger] m.dom().contains(x) implies {
                                    &&& old(self).gates()@.dom().contains(m[x])
                                    &&& listed_gates(ops@).contains(m[x])
                                    &&& new_sub.gates()@[x].gate() == old(self).gates()@[m[x]].gate()
                                    &&& !self.gates()@.dom().contains(m[x])
                                } by {
                                    if x != a {
                                        assert(m0.dom().contains(x));
                                        assert(new_sub.gates()@[x] == nb.gates()@[x]);
                                    }
                                }
                            },
                            None => {
                                assert forall|x: (usize, usize)| #[trigger] m.dom().contains(x) implies !self.gates()@.dom().contains(m[x]) by {}
                                assert forall|x: (usize, usize)| #[trigger] m.dom().contains(x) implies reads_counterparts(map@, old(self).gates()@[m[x]], new_sub.gates()@[x]) by {
                                    lemma_reads_counterparts_extend(mapnow, map@, old(self).gates()@[m[x]], new_sub.gates()@[x]);
                                }
                                assert forall|x: (usize, usize)| #[trigger] m.dom().contains(x) && owned_in(*old(self), m[x]) implies forall|p: int|
                                    0 <= p < old(self).gates()@[m[x]].outputs().len() ==> is_mapped(map@, (#[trigger] old(self).gates()@[m[x]].outputs()[p]).value) by {
                                    assert forall|p: int| 0 <= p < old(self).gates()@[m[x]].outputs().len() implies is_mapped(map@, (#[trigger] old(self).gates()@[m[x]].outputs()[p]).value) by {
                                        lemma_is_mapped_extend(mapnow, map@, old(self).gates()@[m[x]].outputs()[p].value);
                                    }
                                }
                                assert(sg0.dom().contains(gid.key@));
                                assert(sg0.submap_of(old(self).gates()@));
                                assert(old(self).gates()@.dom().contains(gid.key@));
                                assert(sg0[gid.key@] == old(self).gates()@[gid.key@]);
                                assert forall|k2: (usize, usize)|
                                    #[trigger] old(self).gates()@.dom().contains(k2) && listed_gates(ops@).contains(k2) && !self.gates()@.dom().contains(k2)
                                        && gate_accepts(old(self).gates()@[k2]) implies exists|x: (usize, usize)| #[trigger] m.dom().contains(x) && m[x] == k2 by {
                                    if k2 == gid.key@ {
                                        assert(false);
                                    } else {
                                        assert(!sg0.dom().contains(k2));
                                    }
                                }
                            },
                        }
                        lemma_keeps_inputs_trans(*old(new_sub), nb, *new_sub);
                        lemma_submap_trans(self.values()@, vals_before, old(self).values()@);
                        lemma_remove_submap(gates_before, gid.key@);
                        lemma_submap_trans(self.gates()@, gates_before, old(self).gates()@);
                        assert(map@.take(old(map)@.len() as int) =~= map@.take(map_now.len() as int).take(old(map)@.len() as int));
                    }
                    progress = true;
                } else if self.gates.contains_key(gid.key()) {
                    kept.push(gid);
                    proof {
                        lemma_push_listed(ops@, kept_now, gid);
                        assert(kept@[kept_now.len() as int] == gid);
                        assert forall|x: int| 0 <= x < kept_now.len() implies kept@[x] == kept_now[x] by {}
                    }
                }
                proof {
                    assert forall|k: (usize, usize)|
                        #[trigger] self.gates()@.dom().contains(k) && lists_gate(ops@, k) implies has_gate_key(kept@, k)
                            || has_gate_key_from(remaining@, j + 1, k) by {
                        assert(gates_now.dom().contains(k));
                        if has_gate_key(kept_now, k) {
                            let x = choose|x: int| 0 <= x < kept_now.len() && (#[trigger] kept_now[x]).key@ == k;
                            assert(kept@[x] == kept_now[x]);
                        } else {
                            let x = choose|x: int| j <= x < remaining@.len() && (#[trigger] remaining@[x]).key@ == k;
                            if x == j {
                                assert(kept@[kept_now.len() as int].key@ == k);
                            } else {
                                assert(remaining@[x].key@ == k);
                            }
                        }
                    }
                }
                j = j + 1;
            }
            proof {
                assert forall|k: (usize, usize)|
                    #[trigger] self.gates()@.dom().contains(k) && lists_gate(ops@, k) implies has_gate_key(kept@, k) by {
                    if has_gate_key_from(remaining@, j as int, k) {
                        let x = choose|x: int| j <= x < remaining@.len() && (#[trigger] remaining@[x]).key@ == k;
                    }
                }
            }
            remaining = kept;
        }
        proof {
            assert forall|k: (usize, usize)|
                #[trigger] self.gates()@.dom().contains(k) && lists_gate(ops@, k) implies !ready_in(*self, k, map@) by {
                assert(has_gate_key(remaining@, k));
                let x = choose|x: int| 0 <= x < remaining@.len() && (#[trigger] remaining@[x]).key@ == k;
                assert(!ready_in(*self, remaining@[x].key@, map@));
            }
        }
        Ghost(m)
    }

    /// Moves the listed clones out; each whose input is mapped goes to
    /// `new_sub` with as many copies, and the values it produced leave.
    fn split_clones(&mut self, new_sub: &mut Self, ops: &[Operation], map: &mut Vec<(Key, ValueId)>) -> (m: Ghost<
        Map<(usize, usize), (usize, usize)>,
    >)
        requires
            old(self).wf(),
            old(new_sub).wf(),
            old(new_sub).clones()@.dom().is_empty(),
            map_valid(old(map)@, *old(new_sub)),
        ensures
            map_valid(final(map)@, *final(new_sub)),
            forall|a: (usize, usize)| #[trigger] m@.dom().contains(a) ==> pairs_with(
                final(map)@,
                old(self).clones()@[m@[a]].input().value,
                final(new_sub).clones()@[a].input(),
            ),
            final(map)@.len() >= old(map)@.len(),
            final(map)@.take(old(map)@.len() as int) == old(map)@,
            forall|k: (usize, usize)|
                #[trigger] old(self).clones()@.dom().contains(k) && listed_clones(ops@).contains(k)
                    && is_mapped(old(map)@, old(self).clones()@[k].input().value) && old(self).clones()@[k].outputs().len() > 0
                    ==> exists|a: (usize, usize)| #[trigger] m@.dom().contains(a) && m@[a] == k,
            final(self).wf(),
            final(new_sub).wf(),
            final(new_sub).circuit_id() == old(new_sub).circuit_id(),
            final(new_sub).gates() == old(new_sub).gates(),
            final(new_sub).drops() == old(new_sub).drops(),
            final(new_sub).outputs() == old(new_sub).outputs(),
            keeps_inputs(*old(new_sub), *final(new_sub)),
            moves_clones(*old(self), ops@, *final(new_sub), m@),
            final(self).circuit_id() == old(self).circuit_id(),
            final(self).clones()@ == old(self).clones()@.remove_keys(listed_clones(ops@)),
            final(self).inputs() == old(self).inputs(),
            final(self).gates() == old(self).gates(),
            final(self).drops() == old(self).drops(),
            final(self).outputs() == old(self).outputs(),
            final(self).values()@.submap_of(old(self).values()@),
    {
        let mut i: usize = 0;
        let ghost mut m: Map<(usize, usize), (usize, usize)> = Map::empty();
        proof {
            assert(m.dom() =~= new_sub.clones()@.dom());
            assert(old(self).clones()@.remove_keys(listed_clones(ops@.take(0))) =~= old(self).clones()@);
        }
        while i < ops.len()
            invariant
                self.wf(),
                new_sub.wf(),
                new_sub.circuit_id() == old(new_sub).circuit_id(),
                new_sub.gates() == old(new_sub).gates(),
                new_sub.drops() == old(new_sub).drops(),
                new_sub.outputs() == old(new_sub).outputs(),
                keeps_inputs(*old(new_sub), *new_sub),
                moves_clones(*old(self), ops@.take(i as int), *new_sub, m),
                map_valid(map@, *new_sub),
                forall|a: (usize, usize)| #[trigger] m.dom().contains(a) ==> pairs_with(
                    map@,
                    old(self).clones()@[m[a]].input().value,
                    new_sub.clones()@[a].input(),
                ),
                map@.len() >= old(map)@.len(),
                map@.take(old(map)@.len() as int) == old(map)@,
                forall|k: (usize, usize)|
                    #[trigger] old(self).clones()@.dom().contains(k) && listed_clones(ops@.take(i as int)).contains(k)
                        && is_mapped(old(map)@, old(self).clones()@[k].input().value) && old(self).clones()@[k].outputs().len() > 0
                        ==> exists|a: (usize, usize)| #[trigger] m.dom().contains(a) && m[a] == k,
                self.circuit_id() == old(self).circuit_id(),
                i <= ops@.len(),
                self.clones()@ == old(self).clones()@.remove_keys(listed_clones(ops@.take(i as int))),
                self.inputs() == old(self).inputs(),
                self.gates() == old(self).gates(),
                self.drops() == old(self).drops(),
                self.outputs() == old(self).outputs(),
                self.values()@.submap_of(old(self).values()@),
            decreases ops@.len() - i,
        {
            let ghost m0 = m;
            let ghost ns_start = *new_sub;
            let ghost map_start = map@;
            let ghost ns0 = *new_sub;
            let ghost nd0 = new_sub.clones()@.dom();
            let ghost sd0 = self.clones()@;
            let ghost mut step: Option<((usize, usize), (usize, usize))> = None;
            if let Operation::Clone(clone_id) = ops[i] {
                if let Some(clone_op) = self.clones.remove(clone_id.key()) {
                    let input_key = clone_op.get_input().key();
                    proof {
                        assert(clone_op == old(self).clones()@[clone_id.key@]);
                        if is_mapped(old(map)@, input_key) {
                            lemma_is_mapped_extend(old(map)@, map@, input_key);
                        }
                    }
                    if let Some(new_input) = mapped(map, input_key) {
                        proof {
                            let j = choose|j: int| 0 <= j < map@.len() && (#[trigger] map@[j]).0 == input_key && map@[j].1 == new_input;
                            assert(new_sub.has_value(map@[j].1));
                        }
                        let quantity = clone_op.output_count();
                        let outputs = clone_op.get_outputs();
                        let mut old_keys: Vec<Key> = Vec::new();
                        let mut k: usize = 0;
                        while k < outputs.len()
                            invariant
                                self.wf(),
                                self.values()@.submap_of(old(self).values()@),
                                self.clones()@ == old(self).clones()@.remove_keys(listed_clones(ops@.take(i as int))).remove(clone_id.key@),
                                self.inputs() == old(self).inputs(),
                                self.gates() == old(self).gates(),
                                self.drops() == old(self).drops(),
                                self.outputs() == old(self).outputs(),
                                self.circuit_id() == old(self).circuit_id(),
                                k <= outputs@.len(),
                                old_keys@.len() == k,
                            decreases outputs@.len() - k,
                        {
                            let key = outputs[k].key();
                            old_keys.push(key);
                            self.values.remove(key);
                            k = k + 1;
                        }
                        let ghost nb = *new_sub;
                        match new_sub.add_clone(new_input, quantity) {
                            Ok((cid, new_outputs)) => {
                                let ghost map0 = map@;
                                map_pairwise(map, &old_keys, &new_outputs);
                                proof {
                                    lemma_pairs_with_extend(map0, map@, input_key, new_input);
                                    assert(map@.take(old(map)@.len() as int) =~= map@.take(map0.len() as int).take(old(map)@.len() as int));
                                    assert forall|j: int| 0 <= j < map@.len() implies new_sub.has_value(#[trigger] map@[j].1) by {
                                        if j < map0.len() {
                                            assert(map@[j] == map0[j]);
                                            assert(nb.has_value(map0[j].1));
                                        } else {
                                            let q = j - map0.len();
                                            assert(map@[j] == pairs(old_keys@, new_outputs@)[q]);
                                            assert(map@[j].1 == new_outputs@[q]);
                                        }
                                    }
                                    step = Some((cid.key@, clone_id.key@));
                                    m = m0.insert(cid.key@, clone_id.key@);
                                    assert(new_sub.clones()@.dom() =~= nd0.insert(cid.key@));
                                    assert(sd0.dom().contains(clone_id.key@));
                                    assert(new_sub.clones()@[cid.key@].outputs().len() == old(self).clones()@[clone_id.key@].outputs().len());
                                    assert(keeps_inputs(nb, *new_sub));
                                    lemma_keeps_inputs_trans(*old(new_sub), nb, *new_sub);
                                }
                            },
                            Err(_) => {},
                        }
                    }
                }
            }
            proof {
                let s0 = listed_clones(ops@.take(i as int));
                let s1 = listed_clones(ops@.take(i as int + 1));
                assert forall|k: (usize, usize)| s1.contains(k) <==> (s0.contains(k) || (ops@[i as int] is Clone && ops@[i as int]->Clone_0.key@ == k)) by {
                    if s1.contains(k) {
                        let j = choose|j: int| 0 <= j < ops@.take(i as int + 1).len() && (#[trigger] ops@.take(i as int + 1)[j]) is Clone && ops@.take(i as int + 1)[j]->Clone_0.key@ == k;
                        if j < i {
                            assert(ops@.take(i as int)[j] == ops@[j]);
                        }
                    }
                    if s0.contains(k) {
                        let j = choose|j: int| 0 <= j < ops@.take(i as int).len() && (#[trigger] ops@.take(i as int)[j]) is Clone && ops@.take(i as int)[j]->Clone_0.key@ == k;
                        assert(ops@.take(i as int + 1)[j] == ops@[j]);
                    }
                    if ops@[i as int] is Clone && ops@[i as int]->Clone_0.key@ == k {
                        assert(ops@.take(i as int + 1)[i as int] == ops@[i as int]);
                    }
                }
                assert(self.clones()@ =~= old(self).clones()@.remove_keys(s1));
                assert forall|k2: (usize, usize)|
                    #[trigger] old(self).clones()@.dom().contains(k2) && s1.contains(k2)
                        && is_mapped(old(map)@, old(self).clones()@[k2].input().value) && old(self).clones()@[k2].outputs().len() > 0
                        implies exists|x: (usize, usize)| #[trigger] m.dom().contains(x) && m[x] == k2 by {
                    if s0.contains(k2) {
                        let x = choose|x: (usize, usize)| #[trigger] m0.dom().contains(x) && m0[x] == k2;
                        if let Some((a, k)) = step {
                            assert(x != a);
                        }
                        assert(m.dom().contains(x) && m[x] == k2);
                    } else {
                        assert(sd0.dom().contains(k2));
                        assert(step is Some && (step->0).1 == k2);
                        let a = (step->0).0;
                        assert(m.dom().contains(a) && m[a] == k2);
                    }
                }
                assert(map@.len() >= map_start.len() && map@.take(map_start.len() as int) == map_start);
                match step {
                    Some((a, k)) => {
                        assert forall|x: (usize, usize)| #[trigger] m.dom().contains(x) implies pairs_with(
                            map@,
                            old(self).clones()@[m[x]].input().value,
                            new_sub.clones()@[x].input(),
                        ) by {
                            if x != a {
                                assert(m0.dom().contains(x));
                                assert(new_sub.clones()@[x] == ns_start.clones()@[x]);
                                lemma_pairs_with_extend(map_start, map@, old(self).clones()@[m[x]].input().value, new_sub.clones()@[x].input());
                            }
                        }
                        assert(sd0.dom().contains(k));
                        lemma_stems_step(m0, nd0, old(self).clones()@.dom(), s0, s1, a, k);
                        assert forall|x: (usize, usize)| #[trigger] m.dom().contains(x) implies new_sub.clones()@[x].outputs().len()
                            == old(self).clones()@[m[x]].outputs().len() by {
                            if x != a {
                                assert(m0.dom().contains(x));
                                assert(new_sub.clones()@[x] == ns0.clones()@[x]);
                            }
                        }
                    },
                    None => {
                        assert(new_sub.clones() == ns_start.clones());
                        assert forall|x: (usize, usize)| #[trigger] m.dom().contains(x) implies pairs_with(
                            map@,
                            old(self).clones()@[m[x]].input().value,
                            new_sub.clones()@[x].input(),
                        ) by {
                            lemma_pairs_with_extend(map_start, map@, old(self).clones()@[m[x]].input().value, new_sub.clones()@[x].input());
                        }
                        assert(new_sub.clones() == ns0.clones());
                        assert(new_sub.clones()@.dom() =~= nd0);
                        lemma_stems_grow(m0, nd0, old(self).clones()@.dom(), s0, s1);
                    },
                }
            }
            i = i + 1;
        }
        proof {
            assert(ops@.take(ops@.len() as int) =~= ops@);
        }
        Ghost(m)
    }

    /// Moves the listed drops out; each whose input is mapped is added
    /// to `new_sub` on the new value.
    fn split_drops(&mut self, new_sub: &mut Self, ops: &[Operation], map: &Vec<(Key, ValueId)>) -> (m: Ghost<Map<(usize, usize), (usize, usize)>>)
        requires
            old(self).wf(),
            old(new_sub).wf(),
            old(new_sub).drops()@.dom().is_empty(),
            map_valid(map@, *old(new_sub)),
        ensures
            map_valid(map@, *final(new_sub)),
            forall|a: (usize, usize)| #[trigger] m@.dom().contains(a) ==> maps_to(
                map@,
                old(self).drops()@[m@[a]].input().value,
                final(new_sub).drops()@[a].input(),
            ),
            forall|k: (usize, usize)|
                #[trigger] old(self).drops()@.dom().contains(k) && listed_drops(ops@).contains(k) && is_mapped(map@, old(self).drops()@[k].input().value)
                    ==> exists|a: (usize, usize)| #[trigger] m@.dom().contains(a) && m@[a] == k,
            final(self).wf(),
            final(new_sub).wf(),
            final(new_sub).circuit_id() == old(new_sub).circuit_id(),
            keeps_inputs(*old(new_sub), *final(new_sub)),
            stems_from(m@, final(new_sub).drops()@.dom(), old(self).drops()@.dom(), listed_drops(ops@)),
            final(new_sub).gates() == old(new_sub).gates(),
            final(new_sub).clones() == old(new_sub).clones(),
            final(new_sub).outputs() == old(new_sub).outputs(),
            final(self).circuit_id() == old(self).circuit_id(),
            final(self).drops()@ == old(self).drops()@.remove_keys(listed_drops(ops@)),
            final(self).inputs() == old(self).inputs(),
            final(self).gates() == old(self).gates(),
            final(self).clones() == old(self).clones(),
            final(self).outputs() == old(self).outputs(),
            final(self).values() == old(self).values(),
    {
        let mut i: usize = 0;
        let ghost mut m: Map<(usize, usize), (usize, usize)> = Map::empty();
        proof {
            assert(m.dom() =~= new_sub.drops()@.dom());
            assert(old(self).drops()@.remove_keys(listed_drops(ops@.take(0))) =~= old(self).drops()@);
        }
        while i < ops.len()
            invariant
                self.wf(),
                new_sub.wf(),
                new_sub.circuit_id() == old(new_sub).circuit_id(),
                keeps_inputs(*old(new_sub), *new_sub),
                stems_from(m, new_sub.drops()@.dom(), old(self).drops()@.dom(), listed_drops(ops@.take(i as int))),
                map_valid(map@, *new_sub),
                forall|a: (usize, usize)| #[trigger] m.dom().contains(a) ==> maps_to(
                    map@,
                    old(self).drops()@[m[a]].input().value,
                    new_sub.drops()@[a].input(),
                ),
                forall|k: (usize, usize)|
                    #[trigger] old(self).drops()@.dom().contains(k) && listed_drops(ops@.take(i as int)).contains(k) && is_mapped(map@, old(self).drops()@[k].input().value)
                        ==> exists|a: (usize, usize)| #[trigger] m.dom().contains(a) && m[a] == k,
                new_sub.gates() == old(new_sub).gates(),
                new_sub.clones() == old(new_sub).clones(),
                new_sub.outputs() == old(new_sub).outputs(),
                self.circuit_id() == old(self).circuit_id(),
                i <= ops@.len(),
                self.drops()@ == old(self).drops()@.remove_keys(listed_drops(ops@.take(i as int))),
                self.inputs() == old(self).inputs(),
                self.gates() == old(self).gates(),
                self.clones() == old(self).clones(),
                self.outputs() == old(self).outputs(),
                self.values() == old(self).values(),
            decreases ops@.len() - i,
        {
            let ghost m0 = m;
            let ghost ns_start = *new_sub;
            let ghost nd0 = new_sub.drops()@.dom();
            let ghost sd0 = self.drops()@;
            let ghost mut step: Option<((usize, usize), (usize, usize))> = None;
            if let Operation::Drop(id) = ops[i] {
                if let Some(op) = self.drops.remove(id.key()) {
                    let input_key = op.get_input().key();
                    proof {
                        assert(op == old(self).drops()@[id.key@]);
                    }
                    if let Some(new_input) = mapped(map, input_key) {
                        let ghost nb = *new_sub;
                        proof {
                            let j = choose|j: int| 0 <= j < map@.len() && (#[trigger] map@[j]).0 == input_key && map@[j].1 == new_input;
                            assert(nb.has_value(map@[j].1));
                        }
                        let added = new_sub.add_drop(new_input);
                        proof {
                            if let Ok(nid) = added {
                                step = Some((nid.key@, id.key@));
                                m = m0.insert(nid.key@, id.key@);
                                assert(new_sub.drops()@.dom() =~= nd0.insert(nid.key@));
                            }
                            assert(keeps_inputs(nb, *new_sub));
                            lemma_keeps_inputs_trans(*old(new_sub), nb, *new_sub);
                            assert forall|j: int| 0 <= j < map@.len() implies new_sub.has_value(#[trigger] map@[j].1) by {
                                assert(nb.has_value(map@[j].1));
                            }
                        }
                    }
                }
            }
            proof {
                let s0 = listed_drops(ops@.take(i as int));
                let s1 = listed_drops(ops@.take(i as int + 1));
                assert forall|k: (usize, usize)| s1.contains(k) <==> (s0.contains(k) || (ops@[i as int] is Drop && ops@[i as int]->Drop_0.key@ == k)) by {
                    if s1.contains(k) {
                        let j = choose|j: int| 0 <= j < ops@.take(i as int + 1).len() && (#[trigger] ops@.take(i as int + 1)[j]) is Drop && ops@.take(i as int + 1)[j]->Drop_0.key@ == k;
                        if j < i {
                            assert(ops@.take(i as int)[j] == ops@[j]);
                        }
                    }
                    if s0.contains(k) {
                        let j = choose|j: int| 0 <= j < ops@.take(i as int).len() && (#[trigger] ops@.take(i as int)[j]) is Drop && ops@.take(i as int)[j]->Drop_0.key@ == k;
                        assert(ops@.take(i as int + 1)[j] == ops@[j]);
                    }
                    if ops@[i as int] is Drop && ops@[i as int]->Drop_0.key@ == k {
                        assert(ops@.take(i as int + 1)[i as int] == ops@[i as int]);
                    }
                }
                assert(self.drops()@ =~= old(self).drops()@.remove_keys(s1));
                assert forall|k2: (usize, usize)|
                    #[trigger] old(self).drops()@.dom().contains(k2) && s1.contains(k2) && is_mapped(map@, old(self).drops()@[k2].input().value)
                        implies exists|x: (usize, usize)| #[trigger] m.dom().contains(x) && m[x] == k2 by {
                    if s0.contains(k2) {
                        let x = choose|x: (usize, usize)| #[trigger] m0.dom().contains(x) && m0[x] == k2;
                        if let Some((a, k)) = step {
                            assert(x != a);
                        }
                        assert(m.dom().contains(x) && m[x] == k2);
                    } else {
                        assert(sd0.dom().contains(k2));
                        assert(step is Some && (step->0).1 == k2);
                        let a = (step->0).0;
                        assert(m.dom().contains(a) && m[a] == k2);
                    }
                }
                match step {
                    Some((a, k)) => {
                        assert(sd0.dom().contains(k));
                        assert forall|x: (usize, usize)| #[trigger] m.dom().contains(x) implies maps_to(
                            map@,
                            old(self).drops()@[m[x]].input().value,
                            new_sub.drops()@[x].input(),
                        ) by {
                            if x != a {
                                assert(m0.dom().contains(x));
                                assert(new_sub.drops()@[x] == ns_start.drops()@[x]);
                            }
                        }
                        lemma_stems_step(m0, nd0, old(self).drops()@.dom(), s0, s1, a, k);
                    },
                    None => {
                        assert(new_sub.drops() == ns_start.drops());
                        assert(new_sub.drops()@.dom() =~= nd0);
                        lemma_stems_grow(m0, nd0, old(self).drops()@.dom(), s0, s1);
                    },
                }
            }
            i = i + 1;
        }
        proof {
            assert(ops@.take(ops@.len() as int) =~= ops@);
        }
        Ghost(m)
    }

    /// Moves the listed outputs out; each whose input is mapped is added
    /// to `new_sub` on the new value.
    fn split_outputs(&mut self, new_sub: &mut Self, ops: &[Operation], map: &Vec<(Key, ValueId)>) -> (m: Ghost<Map<(usize, usize), (usize, usize)>>)
        requires
            old(self).wf(),
            old(new_sub).wf(),
            old(new_sub).outputs()@.dom().is_empty(),
            map_valid(map@, *old(new_sub)),
        ensures
            map_valid(map@, *final(new_sub)),
            forall|a: (usize, usize)| #[trigger] m@.dom().contains(a) ==> maps_to(
                map@,
                old(self).outputs()@[m@[a]].input().value,
                final(new_sub).outputs()@[a].input(),
            ),
            forall|k: (usize, usize)|
                #[trigger] old(self).outputs()@.dom().contains(k) && listed_outputs(ops@).contains(k) && is_mapped(map@, old(self).outputs()@[k].input().value)
                    ==> exists|a: (usize, usize)| #[trigger] m@.dom().contains(a) && m@[a] == k,
            final(self).wf(),
            final(new_sub).wf(),
            final(new_sub).circuit_id() == old(new_sub).circuit_id(),
            keeps_inputs(*old(new_sub), *final(new_sub)),
            stems_from(m@, final(new_sub).outputs()@.dom(), old(self).outputs()@.dom(), listed_outputs(ops@)),
            final(new_sub).gates() == old(new_sub).gates(),
            final(new_sub).clones() == old(new_sub).clones(),
            final(new_sub).drops() == old(new_sub).drops(),
            final(self).circuit_id() == old(self).circuit_id(),
            final(self).outputs()@ == old(self).outputs()@.remove_keys(listed_outputs(ops@)),
            final(self).inputs() == old(self).inputs(),
            final(self).gates() == old(self).gates(),
            final(self).clones() == old(self).clones(),
            final(self).drops() == old(self).drops(),
            final(self).values() == old(self).values(),
    {
        let mut i: usize = 0;
        let ghost mut m: Map<(usize, usize), (usize, usize)> = Map::empty();
        proof {
            assert(m.dom() =~= new_sub.outputs()@.dom());
            assert(old(self).outputs()@.remove_keys(listed_outputs(ops@.take(0))) =~= old(self).outputs()@);
        }
        while i < ops.len()
            invariant
                self.wf(),
                new_sub.wf(),
                new_sub.circuit_id() == old(new_sub).circuit_id(),
                keeps_inputs(*old(new_sub), *new_sub),
                stems_from(m, new_sub.outputs()@.dom(), old(self).outputs()@.dom(), listed_outputs(ops@.take(i as int))),
                map_valid(map@, *new_sub),
                forall|a: (usize, usize)| #[trigger] m.dom().contains(a) ==> maps_to(
                    map@,
                    old(self).outputs()@[m[a]].input().value,
                    new_sub.outputs()@[a].input(),
                ),
                forall|k: (usize, usize)|
                    #[trigger] old(self).outputs()@.dom().contains(k) && listed_outputs(ops@.take(i as int)).contains(k) && is_mapped(map@, old(self).outputs()@[k].input().value)
                        ==> exists|a: (usize, usize)| #[trigger] m.dom().contains(a) && m[a] == k,
                new_sub.gates() == old(new_sub).gates(),
                new_sub.clones() == old(new_sub).clones(),
                new_sub.drops() == old(new_sub).drops(),
                self.circuit_id() == old(self).circuit_id(),
                i <= ops@.len(),
                self.outputs()@ == old(self).outputs()@.remove_keys(listed_outputs(ops@.take(i as int))),
                self.inputs() == old(self).inputs(),
                self.gates() == old(self).gates(),
                self.clones() == old(self).clones(),
                self.drops() == old(self).drops(),
                self.values() == old(self).values(),
            decreases ops@.len() - i,
        {
            let ghost m0 = m;
            let ghost ns_start = *new_sub;
            let ghost nd0 = new_sub.outputs()@.dom();
            let ghost sd0 = self.outputs()@;
            let ghost mut step: Option<((usize, usize), (usize, usize))> = None;
            if let Operation::Output(id) = ops[i] {
                if let Some(op) = self.outputs.remove(id.key()) {
                    let input_key = op.get_input().key();
                    proof {
                        assert(op == old(self).outputs()@[id.key@]);
                    }
                    if let Some(new_input) = mapped(map, input_key) {
                        let ghost nb = *new_sub;
                        proof {
                            let j = choose|j: int| 0 <= j < map@.len() && (#[trigger] map@[j]).0 == input_key && map@[j].1 == new_input;
                            assert(nb.has_value(map@[j].1));
                        }
                        let added = new_sub.add_output(new_input);
                        proof {
                            if let Ok(nid) = added {
                                step = Some((nid.key@, id.key@));
                                m = m0.insert(nid.key@, id.key@);
                                assert(new_sub.outputs()@.dom() =~= nd0.insert(nid.key@));
                            }
                            assert(keeps_inputs(nb, *new_sub));
                            lemma_keeps_inputs_trans(*old(new_sub), nb, *new_sub);
                            assert forall|j: int| 0 <= j < map@.len() implies new_sub.has_value(#[trigger] map@[j].1) by {
                                assert(nb.has_value(map@[j].1));
                            }
                        }
                    }
                }
            }
            proof {
                let s0 = listed_outputs(ops@.take(i as int));
                let s1 = listed_outputs(ops@.take(i as int + 1));
                assert forall|k: (usize, usize)| s1.contains(k) <==> (s0.contains(k) || (ops@[i as int] is Output && ops@[i as int]->Output_0.key@ == k)) by {
                    if s1.contains(k) {
                        let j = choose|j: int| 0 <= j < ops@.take(i as int + 1).len() && (#[trigger] ops@.take(i as int + 1)[j]) is Output && ops@.take(i as int + 1)[j]->Output_0.key@ == k;
                        if j < i {
                            assert(ops@.take(i as int)[j] == ops@[j]);
                        }
                    }
                    if s0.contains(k) {
                        let j = choose|j: int| 0 <= j < ops@.take(i as int).len() && (#[trigger] ops@.take(i as int)[j]) is Output && ops@.take(i as int)[j]->Output_0.key@ == k;
                        assert(ops@.take(i as int + 1)[j] == ops@[j]);
                    }
                    if ops@[i as int] is Output && ops@[i as int]->Output_0.key@ == k {
                        assert(ops@.take(i as int + 1)[i as int] == ops@[i as int]);
                    }
                }
                assert(self.outputs()@ =~= old(self).outputs()@.remove_keys(s1));
                assert forall|k2: (usize, usize)|
                    #[trigger] old(self).outputs()@.dom().contains(k2) && s1.contains(k2) && is_mapped(map@, old(self).outputs()@[k2].input().value)
                        implies exists|x: (usize, usize)| #[trigger] m.dom().contains(x) && m[x] == k2 by {
                    if s0.contains(k2) {
                        let x = choose|x: (usize, usize)| #[trigger] m0.dom().contains(x) && m0[x] == k2;
                        if let Some((a, k)) = step {
                            assert(x != a);
                        }
                        assert(m.dom().contains(x) && m[x] == k2);
                    } else {
                        assert(sd0.dom().contains(k2));
                        assert(step is Some && (step->0).1 == k2);
                        let a = (step->0).0;
                        assert(m.dom().contains(a) && m[a] == k2);
                    }
                }
                match step {
                    Some((a, k)) => {
                        assert(sd0.dom().contains(k));
                        assert forall|x: (usize, usize)| #[trigger] m.dom().contains(x) implies maps_to(
                            map@,
                            old(self).outputs()@[m[x]].input().value,
                            new_sub.outputs()@[x].input(),
                        ) by {
                            if x != a {
                                assert(m0.dom().contains(x));
                                assert(new_sub.outputs()@[x] == ns_start.outputs()@[x]);
                            }
                        }
                        lemma_stems_step(m0, nd0, old(self).outputs()@.dom(), s0, s1, a, k);
                    },
                    None => {
                        assert(new_sub.outputs() == ns_start.outputs());
                        assert(new_sub.outputs()@.dom() =~= nd0);
                        lemma_stems_grow(m0, nd0, old(self).outputs()@.dom(), s0, s1);
                    },
                }
            }
            i = i + 1;
        }
        proof {
            assert(ops@.take(ops@.len() as int) =~= ops@);
        }
        Ghost(m)
    }

    /// Moves the listed operations into a new subcircuit with id `new_id`:
    /// first the inputs, then the gates whose inputs have been moved (in
    /// passes, until a pass moves none), then the clones, drops and outputs.
    /// Values produced by moved operations move with them; a clone, drop or
    /// output whose input did not move is removed here without a counterpart
    /// there. Gates move before clones, so a listed gate that reads a copy
    /// made by a listed clone stays here.
    pub fn split(&mut self, new_id: CircuitId, ops_to_extract: &[Operation]) -> (r: Result<Self>)
        requires
            old(self).wf(),
        ensures
            r is Ok,
            is_split_remainder(*old(self), *final(self), ops_to_extract@),
            r->Ok_0.wf(),
            r->Ok_0.circuit_id() == new_id,
            is_split_part(*old(self), r->Ok_0, ops_to_extract@),
            moves_ready_gates(*old(self), *final(self), r->Ok_0, ops_to_extract@),
    {
        let mut new_subcircuit = Subcircuit::new(new_id);
        let mut value_map: Vec<(Key, ValueId)> = Vec::new();
        let ghost s0 = *self;
        let mi = self.split_inputs(&mut new_subcircuit, ops_to_extract, &mut value_map);
        let ghost n1 = new_subcircuit;
        let ghost s1 = *self;
        let ghost m1 = value_map@;
        let mg = self.split_gates(&mut new_subcircuit, ops_to_extract, &mut value_map);
        let ghost vm = value_map@;
        let ghost s2 = *self;
        let ghost n2 = new_subcircuit;
        let mc = self.split_clones(&mut new_subcircuit, ops_to_extract, &mut value_map);
        let ghost s3 = *self;
        let ghost n3 = new_subcircuit;
        let md = self.split_drops(&mut new_subcircuit, ops_to_extract, &value_map);
        let ghost s4 = *self;
        let ghost n4 = new_subcircuit;
        let mo = self.split_outputs(&mut new_subcircuit, ops_to_extract, &value_map);
        proof {
            assert(moves_gates(*old(self), ops_to_extract@, new_subcircuit, mg@));
            assert(moves_clones(*old(self), ops_to_extract@, new_subcircuit, mc@));
            assert(stems_from(md@, new_subcircuit.drops()@.dom(), old(self).drops()@.dom(), listed_drops(ops_to_extract@)));
            assert(stems_from(mo@, new_subcircuit.outputs()@.dom(), old(self).outputs()@.dom(), listed_outputs(ops_to_extract@)));
            lemma_submap_trans(s2.values()@, s1.values()@, s0.values()@);
            lemma_submap_trans(s3.values()@, s2.values()@, s0.values()@);
            lemma_keeps_inputs_trans(n1, n2, n3);
            lemma_keeps_inputs_trans(n1, n3, n4);
            lemma_keeps_inputs_trans(n1, n4, new_subcircuit);
            lemma_moves_inputs_kept(s0, ops_to_extract@, n1, new_subcircuit, mi@);
            assert forall|a: (usize, usize)| #[trigger] mi@.dom().contains(a) implies is_mapped(vm, s0.inputs()@[mi@[a]].output().value) by {
                let j = choose|j: int| 0 <= j < m1.len() && (#[trigger] m1[j]).0 == s0.inputs()@[mi@[a]].output().value;
                assert(vm.take(m1.len() as int)[j] == m1[j]);
                assert(vm[j] == m1[j]);
            }
            assert forall|k: (usize, usize)|
                #[trigger] s0.gates()@.dom().contains(k) && listed_gates(ops_to_extract@).contains(k) && ready_in(s0, k, vm)
                    implies !self.gates()@.dom().contains(k) by {
                assert(lists_gate(ops_to_extract@, k));
                if s2.gates()@.dom().contains(k) {
                    assert(s2.gates()@[k] == s0.gates()@[k]);
                    assert(ready_in(s2, k, vm));
                }
            }
            assert forall|a: (usize, usize)| #[trigger] mg@.dom().contains(a) && gate_owns_outputs(s0, mg@[a]) implies forall|p: int|
                0 <= p < s0.gates()@[mg@[a]].outputs().len() ==> is_mapped(vm, (#[trigger] s0.gates()@[mg@[a]].outputs()[p]).value) by {
                let k = mg@[a];
                let op = s0.gates()@[k];
                assert forall|p: int| 0 <= p < op.outputs().len() implies s1.values()@.dom().contains(#[trigger] op.outputs()[p].value@) by {
                    let v = op.outputs()[p].value@;
                    if exists|k2: (usize, usize)| #[trigger] s0.inputs()@.dom().contains(k2) && input_out(s0, k2) == v {
                        let k2 = choose|k2: (usize, usize)| #[trigger] s0.inputs()@.dom().contains(k2) && input_out(s0, k2) == v;
                        assert(input_out(s0, k2) != op.outputs()[p].value@);
                    }
                }
                assert(s1.gates() == s0.gates());
                assert(owned_in(s1, k));
            }
            assert(gate_step(s0, *self, new_subcircuit, ops_to_extract@, mi@, mg@, vm));
            assert(later_steps(s0, new_subcircuit, ops_to_extract@, vm, mc@, md@, mo@, value_map@));
        }
        Ok(new_subcircuit)
    }
}

} // verus!
