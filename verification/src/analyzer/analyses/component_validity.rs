//! Component validity: the connected components of a subcircuit that do not
//! form a complete workflow, taking an input, computing with a gate and
//! emitting an output.

use vstd::prelude::*;

use crate::analyzer::analyses::connected_components::{compute_connected_components, is_components_of, SubcircuitComponents};
use crate::circuit::operations::Operation;
use crate::circuit::subcircuit::{CircuitId, Subcircuit};
use crate::circuit::Circuit;
use crate::gate::Gate;

verus! {

/// Component `c` holds an input.
pub open spec fn has_input(ids: Seq<(Operation, usize)>, c: usize) -> bool {
    exists|k: int| 0 <= k < ids.len() && (#[trigger] ids[k]).1 == c && ids[k].0 is Input
}

/// Component `c` holds a gate.
pub open spec fn has_gate(ids: Seq<(Operation, usize)>, c: usize) -> bool {
    exists|k: int| 0 <= k < ids.len() && (#[trigger] ids[k]).1 == c && ids[k].0 is Gate
}

/// Component `c` holds an output.
pub open spec fn has_output(ids: Seq<(Operation, usize)>, c: usize) -> bool {
    exists|k: int| 0 <= k < ids.len() && (#[trigger] ids[k]).1 == c && ids[k].0 is Output
}

/// Component `c` lacks an input, a gate or an output.
pub open spec fn is_invalid(ids: Seq<(Operation, usize)>, c: usize) -> bool {
    !(has_input(ids, c) && has_gate(ids, c) && has_output(ids, c))
}

/// The components below `count` that are invalid (or valid, by `invalid`),
/// in increasing order.
pub open spec fn components_where(ids: Seq<(Operation, usize)>, count: nat, invalid: bool) -> Seq<usize>
    decreases count,
{
    if count == 0 {
        Seq::empty()
    } else {
        let prev = components_where(ids, (count - 1) as nat, invalid);
        if is_invalid(ids, (count - 1) as usize) == invalid {
            prev.push((count - 1) as usize)
        } else {
            prev
        }
    }
}

/// A component below `count` is listed as invalid exactly when it lacks an
/// input, a gate or an output, and as valid exactly when it holds all three.
pub proof fn law_invalid_iff_incomplete(ids: Seq<(Operation, usize)>, count: nat, c: usize)
    requires
        c < count,
        count <= usize::MAX,
    ensures
        components_where(ids, count, true).contains(c) <==> !((exists|k: int| 0 <= k < ids.len() && ids[k].1 == c && ids[k].0 is Input)
            && (exists|k: int| 0 <= k < ids.len() && ids[k].1 == c && ids[k].0 is Gate)
            && (exists|k: int| 0 <= k < ids.len() && ids[k].1 == c && ids[k].0 is Output)),
        components_where(ids, count, false).contains(c) <==> ((exists|k: int| 0 <= k < ids.len() && ids[k].1 == c && ids[k].0 is Input)
            && (exists|k: int| 0 <= k < ids.len() && ids[k].1 == c && ids[k].0 is Gate)
            && (exists|k: int| 0 <= k < ids.len() && ids[k].1 == c && ids[k].0 is Output)),
    decreases count,
{
    lemma_components_where_members(ids, count, true);
    lemma_components_where_members(ids, count, false);
    let i = (exists|k: int| 0 <= k < ids.len() && ids[k].1 == c && ids[k].0 is Input);
    let g = (exists|k: int| 0 <= k < ids.len() && ids[k].1 == c && ids[k].0 is Gate);
    let o = (exists|k: int| 0 <= k < ids.len() && ids[k].1 == c && ids[k].0 is Output);
    if i {
        let k = choose|k: int| 0 <= k < ids.len() && ids[k].1 == c && ids[k].0 is Input;
        assert(has_input(ids, c));
    }
    if has_input(ids, c) {
        let k = choose|k: int| 0 <= k < ids.len() && (#[trigger] ids[k]).1 == c && ids[k].0 is Input;
        assert(i);
    }
    if g {
        let k = choose|k: int| 0 <= k < ids.len() && ids[k].1 == c && ids[k].0 is Gate;
        assert(has_gate(ids, c));
    }
    if has_gate(ids, c) {
        let k = choose|k: int| 0 <= k < ids.len() && (#[trigger] ids[k]).1 == c && ids[k].0 is Gate;
        assert(g);
    }
    if o {
        let k = choose|k: int| 0 <= k < ids.len() && ids[k].1 == c && ids[k].0 is Output;
        assert(has_output(ids, c));
    }
    if has_output(ids, c) {
        let k = choose|k: int| 0 <= k < ids.len() && (#[trigger] ids[k]).1 == c && ids[k].0 is Output;
        assert(o);
    }
    assert(components_where(ids, count, true).contains(c) <==> is_invalid(ids, c));
    assert(components_where(ids, count, false).contains(c) <==> !is_invalid(ids, c));
}

/// The components listed are those below `count` whose invalidity is
/// `invalid`.
proof fn lemma_components_where_members(ids: Seq<(Operation, usize)>, count: nat, invalid: bool)
    requires
        count <= usize::MAX,
    ensures
        forall|c: usize| #[trigger] components_where(ids, count, invalid).contains(c) <==> c < count && is_invalid(ids, c) == invalid,
    decreases count,
{
    if count > 0 {
        lemma_components_where_members(ids, (count - 1) as nat, invalid);
        let prev = components_where(ids, (count - 1) as nat, invalid);
        let last = (count - 1) as usize;
        let all = components_where(ids, count, invalid);
        assert forall|c: usize| all.contains(c) <==> c < count && is_invalid(ids, c) == invalid by {
            assert(prev.contains(c) <==> c < count - 1 && is_invalid(ids, c) == invalid);
            if is_invalid(ids, last) == invalid {
                assert(all == prev.push(last));
                if all.contains(c) {
                    let x = choose|x: int| 0 <= x < all.len() && all[x] == c;
                    if x < prev.len() {
                        assert(all[x] == prev[x]);
                        assert(prev.contains(c));
                    } else {
                        assert(c == last);
                    }
                }
                if c < count && is_invalid(ids, c) == invalid {
                    if c == last {
                        assert(all[prev.len() as int] == c);
                    } else {
                        let x = choose|x: int| 0 <= x < prev.len() && prev[x] == c;
                        assert(all[x] == c);
                    }
                }
            } else {
                assert(all == prev);
            }
        }
    }
}

/// The invalid components of one subcircuit.
pub struct ComponentValidity {
    invalid: Vec<usize>,
    count: usize,
}

impl ComponentValidity {
    /// The invalid components, in increasing order.
    pub closed spec fn invalid(&self) -> Seq<usize> {
        self.invalid@
    }

    /// The number of components.
    pub closed spec fn total(&self) -> nat {
        self.count as nat
    }

    /// The invalid components, in increasing order.
    pub fn get_invalid(&self) -> (r: Vec<usize>)
        ensures
            r@ == self.invalid(),
    {
        self.invalid.clone()
    }

    /// The valid components, in increasing order.
    pub fn get_valid(&self) -> (r: Vec<usize>)
        ensures
            forall|c: usize| r@.contains(c) <==> c < self.total() && !self.invalid().contains(c),
            forall|i: int, j: int| 0 <= i < j < r@.len() ==> #[trigger] r@[i] < #[trigger] r@[j],
    {
        let mut r: Vec<usize> = Vec::new();
        let mut c: usize = 0;
        while c < self.count
            invariant
                c <= self.count,
                forall|x: usize| r@.contains(x) <==> x < c && !self.invalid@.contains(x),
                forall|i: int| 0 <= i < r@.len() ==> #[trigger] r@[i] < c,
                forall|i: int, j: int| 0 <= i < j < r@.len() ==> #[trigger] r@[i] < #[trigger] r@[j],
            decreases self.count - c,
        {
            let ghost before = r@;
            let known = contains_usize(&self.invalid, c);
            if !known {
                r.push(c);
                proof {
                    assert(r@ == before.push(c));
                    assert forall|x: usize| r@.contains(x) implies x < c + 1 && !self.invalid@.contains(x) by {
                        let k = choose|k: int| 0 <= k < r@.len() && r@[k] == x;
                        if k < before.len() {
                            assert(before[k] == x);
                            assert(before.contains(x));
                        }
                    }
                    assert forall|x: usize| x < c + 1 && !self.invalid@.contains(x) implies r@.contains(x) by {
                        if x < c {
                            assert(before.contains(x));
                            let k = choose|k: int| 0 <= k < before.len() && before[k] == x;
                            assert(r@[k] == x);
                        } else {
                            assert(r@[r@.len() - 1] == x);
                        }
                    }
                }
            } else {
                proof {
                    assert forall|x: usize| r@.contains(x) <==> x < c + 1 && !self.invalid@.contains(x) by {
                        if r@.contains(x) {
                            let k = choose|k: int| 0 <= k < r@.len() && r@[k] == x;
                            assert(r@[k] < c);
                        }
                    }
                }
            }
            c = c + 1;
        }
        r
    }
}

/// Whether `v` holds `x`.
fn contains_usize(v: &Vec<usize>, x: usize) -> (r: bool)
    ensures
        r == v@.contains(x),
{
    let mut k: usize = 0;
    while k < v.len()
        invariant
            k <= v@.len(),
            forall|j: int| 0 <= j < k ==> v@[j] != x,
        decreases v@.len() - k,
    {
        if v[k] == x {
            proof {
                assert(v@[k as int] == x);
            }
            return true;
        }
        k = k + 1;
    }
    false
}

/// Finds the components of a subcircuit that lack an input, a gate or an
/// output.
pub fn compute_component_validity(components: &SubcircuitComponents) -> (r: ComponentValidity)
    ensures
        r.total() == components.total(),
        r.invalid() == components_where(components.ids(), components.total(), true),
{
    let ids = components.all_ids();
    let count = components.count();
    let mut invalid: Vec<usize> = Vec::new();
    let mut c: usize = 0;
    while c < count
        invariant
            ids@ == components.ids(),
            count == components.total(),
            c <= count,
            invalid@ == components_where(ids@, c as nat, true),
        decreases count - c,
    {
        let mut found_input = false;
        let mut found_gate = false;
        let mut found_output = false;
        let mut k: usize = 0;
        while k < ids.len()
            invariant
                k <= ids@.len(),
                found_input <==> exists|j: int| 0 <= j < k && (#[trigger] ids@[j]).1 == c && ids@[j].0 is Input,
                found_gate <==> exists|j: int| 0 <= j < k && (#[trigger] ids@[j]).1 == c && ids@[j].0 is Gate,
                found_output <==> exists|j: int| 0 <= j < k && (#[trigger] ids@[j]).1 == c && ids@[j].0 is Output,
            decreases ids@.len() - k,
        {
            let (op, comp) = ids[k];
            if comp == c {
                match op {
                    Operation::Input(_) => {
                        found_input = true;
                    },
                    Operation::Gate(_) => {
                        found_gate = true;
                    },
                    Operation::Output(_) => {
                        found_output = true;
                    },
                    _ => {},
                }
            }
            proof {
                assert(ids@[k as int] == (op, comp));
            }
            k = k + 1;
        }
        if !(found_input && found_gate && found_output) {
            invalid.push(c);
        }
        c = c + 1;
    }
    ComponentValidity { invalid, count }
}

/// `v` lists the invalid components of `sub`, numbered as its connected
/// components are.
pub open spec fn is_validity_of<G: Gate>(sub: Subcircuit<G>, v: ComponentValidity) -> bool {
    exists|c: SubcircuitComponents|
        #[trigger] is_components_of(sub, c.ids(), c.total(), c.sizes()) && v.total() == c.total() && v.invalid()
            == components_where(c.ids(), c.total(), true)
}

/// The component validity of every subcircuit of a circuit, in slot order.
pub fn component_validity<G: Gate>(circuit: &Circuit<G>) -> (r: Vec<(CircuitId, ComponentValidity)>)
    requires
        circuit.wf(),
    ensures
        r@.len() == circuit.subcircuits().entries().len(),
        forall|j: int| 0 <= j < r@.len() ==> {
            let sub = circuit.subcircuits().entries()[j].1;
            &&& (#[trigger] r@[j]).0 == sub.circuit_id()
            &&& is_validity_of(sub, r@[j].1)
        },
{
    let subs = circuit.iter();
    let mut r: Vec<(CircuitId, ComponentValidity)> = Vec::with_capacity(subs.len());
    let mut k: usize = 0;
    while k < subs.len()
        invariant
            circuit.wf(),
            subs@.len() == circuit.subcircuits().entries().len(),
            forall|j: int| 0 <= j < subs@.len() ==> *(#[trigger] subs@[j]) == circuit.subcircuits().entries()[j].1,
            k <= subs@.len(),
            r@.len() == k,
            forall|j: int| 0 <= j < k ==> {
                let sub = circuit.subcircuits().entries()[j].1;
                &&& (#[trigger] r@[j]).0 == sub.circuit_id()
                &&& is_validity_of(sub, r@[j].1)
            },
        decreases subs@.len() - k,
    {
        let sub = subs[k];
        proof {
            circuit.lemma_entry_wf(k as int);
        }
        let comps = compute_connected_components(sub);
        let validity = compute_component_validity(&comps);
        let ghost before = r@;
        r.push((sub.id(), validity));
        proof {
            assert forall|j: int| 0 <= j < k + 1 implies {
                let s = circuit.subcircuits().entries()[j].1;
                &&& (#[trigger] r@[j]).0 == s.circuit_id()
                &&& is_validity_of(s, r@[j].1)
            } by {
                if j < k {
                    assert(r@[j] == before[j]);
                } else {
                    assert(is_components_of(*sub, comps.ids(), comps.total(), comps.sizes()));
                    assert(is_validity_of(*sub, validity));
                }
            }
        }
        k = k + 1;
    }
    r
}

} // verus!
