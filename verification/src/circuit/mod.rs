//! A circuit representation: a collection of subcircuits in linear SSA form.

use vstd::prelude::*;

use crate::arena::{Arena, Key};
use crate::circuit::operations::Operation;
use crate::circuit::subcircuit::split::{is_split_part, is_split_remainder, moves_ready_gates};
use crate::circuit::subcircuit::{CircuitId, Subcircuit};
use crate::error::{Error, Result};
use crate::gate::Gate;

pub mod operations;
pub mod subcircuit;
pub mod value;

verus! {

/// A circuit: a collection of disjoint subcircuits.
pub struct Circuit<G: Gate> {
    /// Individual disjoint subcircuits.
    subcircuits: Arena<Subcircuit<G>>,
}

impl<G: Gate> Circuit<G> {
    /// The subcircuits, by key.
    pub closed spec fn subcircuits(&self) -> Arena<Subcircuit<G>> {
        self.subcircuits
    }

    /// The subcircuits are consistent and each knows the key it is stored under.
    pub open spec fn wf(&self) -> bool {
        &&& self.subcircuits().wf()
        &&& forall|k: (usize, usize)| #[trigger] self.subcircuits()@.dom().contains(k) ==> {
            &&& self.subcircuits()@[k].wf()
            &&& self.subcircuits()@[k].circuit_id() == CircuitId(Key::from_view(k))
        }
    }

    /// Every subcircuit met in slot order is well formed and carries the id
    /// of the slot it is stored in.
    /// Subcircuits met at different places in slot order carry different ids.
    pub proof fn lemma_entry_ids_distinct(&self, j: int, k: int)
        requires
            self.wf(),
            0 <= j < self.subcircuits().entries().len(),
            0 <= k < self.subcircuits().entries().len(),
            self.subcircuits().entries()[j].1.circuit_id() == self.subcircuits().entries()[k].1.circuit_id(),
        ensures
            j == k,
    {
        self.lemma_entry_wf(j);
        self.lemma_entry_wf(k);
        self.subcircuits().lemma_entries_are_elements();
        let a = self.subcircuits().entries()[j].0;
        let b = self.subcircuits().entries()[k].0;
        Key::lemma_from_view(a);
        Key::lemma_from_view(b);
        assert(a == b);
        if j < k {
            assert(self.subcircuits().entries()[j].0.0 < self.subcircuits().entries()[k].0.0);
        } else if k < j {
            assert(self.subcircuits().entries()[k].0.0 < self.subcircuits().entries()[j].0.0);
        }
    }

    pub proof fn lemma_entry_wf(&self, j: int)
        requires
            self.wf(),
            0 <= j < self.subcircuits().entries().len(),
        ensures
            self.subcircuits().entries()[j].1.wf(),
            self.subcircuits().entries()[j].1.circuit_id() == CircuitId(Key::from_view(self.subcircuits().entries()[j].0)),
    {
        self.subcircuits().lemma_entries_are_elements();
        assert(self.subcircuits()@.dom().contains(self.subcircuits().entries()[j].0));
    }

    /// Create a new empty circuit.
    pub fn new() -> (r: Self)
        ensures
            r.wf(),
            r.subcircuits()@.dom().is_empty(),
    {
        Self { subcircuits: Arena::new() }
    }

    /// Create a new empty circuit with room for the given number of subcircuits.
    pub fn with_capacity(capacity: usize) -> (r: Self)
        ensures
            r.wf(),
            r.subcircuits()@.dom().is_empty(),
            r.subcircuits().versions() == Seq::<usize>::empty(),
            r.subcircuits().free_list() == Seq::<usize>::empty(),
    {
        Self { subcircuits: Arena::with_capacity(capacity) }
    }

    /// The ids of all subcircuits, in slot order; with `get_mut` they
    /// reach each subcircuit for changing it.
    pub fn ids(&self) -> (r: Vec<CircuitId>)
        requires
            self.wf(),
        ensures
            r@.len() == self.subcircuits().entries().len(),
            forall|j: int| 0 <= j < r@.len() ==> (#[trigger] r@[j]).0@ == self.subcircuits().entries()[j].0,
    {
        let keys = self.subcircuits.keys();
        let mut r: Vec<CircuitId> = Vec::new();
        let mut j: usize = 0;
        while j < keys.len()
            invariant
                j <= keys@.len(),
                r@.len() == j,
                forall|x: int| 0 <= x < j ==> (#[trigger] r@[x]).0 == keys@[x],
            decreases keys@.len() - j,
        {
            r.push(CircuitId::new(keys[j]));
            j = j + 1;
        }
        r
    }

    /// All subcircuits, in slot order.
    pub fn iter(&self) -> (r: Vec<&Subcircuit<G>>)
        requires
            self.wf(),
        ensures
            r@.len() == self.subcircuits().entries().len(),
            forall|j: int| 0 <= j < r@.len() ==> *(#[trigger] r@[j]) == self.subcircuits().entries()[j].1,
    {
        self.subcircuits.values()
    }

    /// Get a subcircuit by id.
    pub fn get(&self, id: CircuitId) -> (r: Option<&Subcircuit<G>>)
        requires
            self.wf(),
        ensures
            r == (if self.subcircuits()@.dom().contains(id.0@) {
                Some(&self.subcircuits()@[id.0@])
            } else {
                None
            }),
    {
        self.subcircuits.get(id.key())
    }

    /// Get a subcircuit mutably by id.
    pub fn get_mut(&mut self, id: CircuitId) -> (r: Option<&mut Subcircuit<G>>)
        requires
            old(self).wf(),
        ensures
            r is Some <==> old(self).subcircuits()@.dom().contains(id.0@),
            r is Some ==> *r->0 == old(self).subcircuits()@[id.0@]
                && final(self).subcircuits()@ == old(self).subcircuits()@.insert(id.0@, *final(r->0))
                && (final(self).wf() <== (final(r->0).wf() && final(r->0).circuit_id() == id)),
            r is None ==> *final(self) == *old(self),
    {
        proof {
            Key::lemma_view_from(id.0);
        }
        self.subcircuits.get_mut(id.key())
    }

    /// Add a new empty subcircuit to the circuit.
    pub fn add_subcircuit(&mut self) -> (r: Result<CircuitId>)
        requires
            old(self).wf(),
        ensures
            final(self).wf(),
            r is Ok,
            r->Ok_0 == CircuitId(Key::from_view(old(self).subcircuits().next_key())),
            !old(self).subcircuits()@.dom().contains(r->Ok_0.0@),
            final(self).subcircuits()@ == old(self).subcircuits()@.insert(r->Ok_0.0@, final(self).subcircuits()@[r->Ok_0.0@]),
            final(self).subcircuits()@[r->Ok_0.0@].is_fresh(r->Ok_0),
    {
        let pk = self.subcircuits.peek_key();
        let id = CircuitId::new(pk);
        let subcircuit = Subcircuit::new(id);
        let k = self.subcircuits.insert(subcircuit);
        proof {
            Key::lemma_view_from(k);
            Key::lemma_view_from(pk);
            assert forall|key: (usize, usize)| #[trigger] self.subcircuits()@.dom().contains(key) implies {
                &&& self.subcircuits()@[key].wf()
                &&& self.subcircuits()@[key].circuit_id() == CircuitId(Key::from_view(key))
            } by {
                if key != k@ {
                    assert(old(self).subcircuits()@.dom().contains(key));
                }
            }
        }
        Ok(id)
    }

    /// Moves the listed operations of a subcircuit into a new subcircuit of
    /// this circuit, returning the new subcircuit's id.
    pub fn split_subcircuit(&mut self, source_id: CircuitId, ops_to_extract: &[Operation]) -> (r: Result<CircuitId>)
        requires
            old(self).wf(),
        ensures
            final(self).wf(),
            r is Ok <==> old(self).subcircuits()@.dom().contains(source_id.0@),
            r is Err ==> r == Err::<CircuitId, Error>(Error::CircuitNotFound(source_id)) && *final(self) == *old(self),
            r is Ok ==> {
                let new_id = r->Ok_0;
                let src = source_id.0@;
                &&& new_id == CircuitId(Key::from_view(old(self).subcircuits().next_key()))
                &&& !old(self).subcircuits()@.dom().contains(new_id.0@)
                &&& final(self).subcircuits()@.dom() == old(self).subcircuits()@.dom().insert(new_id.0@)
                &&& forall|k: (usize, usize)|
                    #[trigger] old(self).subcircuits()@.dom().contains(k) && k != src ==> final(self).subcircuits()@[k]
                        == old(self).subcircuits()@[k]
                &&& is_split_remainder(old(self).subcircuits()@[src], final(self).subcircuits()@[src], ops_to_extract@)
                &&& final(self).subcircuits()@[new_id.0@].circuit_id() == new_id
                &&& is_split_part(old(self).subcircuits()@[src], final(self).subcircuits()@[new_id.0@], ops_to_extract@)
                &&& moves_ready_gates(
                    old(self).subcircuits()@[src],
                    final(self).subcircuits()@[src],
                    final(self).subcircuits()@[new_id.0@],
                    ops_to_extract@,
                )
            },
    {
        let new_key = self.subcircuits.peek_key();
        let new_id = CircuitId::new(new_key);
        let ghost before = self.subcircuits@;
        let new_subcircuit = match self.subcircuits.get_mut(source_id.key()) {
            Some(source) => {
                proof {
                    Key::lemma_view_from(source_id.0);
                    assert(before.dom().contains(source_id.0@));
                    assert(before[source_id.0@].wf());
                }
                match source.split(new_id, ops_to_extract) {
                    Ok(s) => s,
                    Err(e) => {
                        proof {
                            assert(false);
                        }
                        return Err(e);
                    },
                }
            },
            None => {
                proof {
                    Key::lemma_view_from(source_id.0);
                }
                return Err(Error::CircuitNotFound(source_id));
            },
        };
        let ghost ns = new_subcircuit;
        let k = self.subcircuits.insert(new_subcircuit);
        proof {
            assert(self.subcircuits()@[k@] == ns);
            Key::lemma_view_from(k);
            Key::lemma_view_from(new_key);
            Key::lemma_view_from(source_id.0);
            assert(k@ == new_key@);
            assert forall|key: (usize, usize)| #[trigger] self.subcircuits()@.dom().contains(key) implies {
                &&& self.subcircuits()@[key].wf()
                &&& self.subcircuits()@[key].circuit_id() == CircuitId(Key::from_view(key))
            } by {
                if key != k@ && key != source_id.0@ {
                    assert(old(self).subcircuits()@.dom().contains(key));
                }
            }
            assert(self.subcircuits()@.dom() =~= old(self).subcircuits()@.dom().insert(new_id.0@));
        }
        Ok(new_id)
    }

    /// Remove a subcircuit from the circuit.
    pub fn remove_subcircuit(&mut self, id: CircuitId) -> (r: Option<Subcircuit<G>>)
        requires
            old(self).wf(),
        ensures
            final(self).wf(),
            r is Some <==> old(self).subcircuits()@.dom().contains(id.0@),
            r is Some ==> r->0 == old(self).subcircuits()@[id.0@]
                && final(self).subcircuits()@ == old(self).subcircuits()@.remove(id.0@),
            r is None ==> final(self).subcircuits()@ == old(self).subcircuits()@,
    {
        self.subcircuits.remove(id.key())
    }
}

impl<G: Gate> Default for Circuit<G> {
    /// An empty circuit.
    fn default() -> (r: Self)
        ensures
            r.wf(),
            r.subcircuits()@.dom().is_empty(),
    {
        Self::new()
    }
}

} // verus!
