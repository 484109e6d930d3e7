use vstd::prelude::*;

use crate::arena::key::Key;

verus! {

broadcast use crate::arena::key::lemma_key_view;

/// Content of a slot: either a stored value or the index of the next free slot.
#[derive(Clone, Debug)]
pub(crate) enum Entry<T> {
    /// Stored data.
    Occupied(T),
    /// Index of the next free slot (the slot count ends the chain).
    Vacant(usize),
}

/// Slot that stores data or a free-list link, with its current version.
#[derive(Clone, Debug)]
pub struct Slot<T> {
    /// Data stored in the slot, or the next free index.
    pub(crate) entry: Entry<T>,
    /// Current slot version. Even is empty, odd is occupied.
    pub(crate) version: usize,
}

impl<T> Slot<T> {
    /// The slot holds no data.
    pub closed spec fn is_free(&self) -> bool {
        self.entry is Vacant
    }

    /// Check if the slot holds no data.
    pub fn empty(&self) -> (r: bool)
        ensures
            r == self.is_free(),
    {
        match self.entry {
            Entry::Vacant(_) => true,
            Entry::Occupied(_) => false,
        }
    }
}

/// Successor of the `j`-th free slot in the free list: the next free slot,
/// or the slot count at the end of the chain.
pub(crate) open spec fn next_free(free: Seq<usize>, j: int, n: nat) -> usize {
    if j + 1 < free.len() {
        free[j + 1]
    } else {
        n as usize
    }
}

/// The version a slot takes when its value is removed. A slot whose
/// version cannot grow any more is retired instead: it keeps its version and
/// is never reused, so keys to it stay invalid.
pub open spec fn bump_version(v: usize) -> usize {
    if v < usize::MAX {
        (v + 1) as usize
    } else {
        v
    }
}

/// `after` is `before` with `value` stored under `key`: the key that
/// `before` hands out next, which it does not hold; the slot comes off the
/// front of the free list with its version bumped, or is appended with
/// version 1.
pub open spec fn is_insert_of<T>(before: Arena<T>, after: Arena<T>, key: (usize, usize), value: T) -> bool {
    &&& after.wf()
    &&& key == before.next_key()
    &&& !before@.dom().contains(key)
    &&& after@ == before@.insert(key, value)
    &&& before.free_list().len() > 0 ==> after.free_list() == before.free_list().drop_first()
        && after.versions() == before.versions().update(key.0 as int, key.1)
    &&& before.free_list().len() == 0 ==> after.free_list() == before.free_list()
        && after.versions() == before.versions().push(1)
}

/// `after` is `before` once `key` is removed, `r` being what the removal
/// returns: the value under `key` if `before` holds it, and then the slot's
/// version is bumped and the slot goes to the front of the free list unless
/// its version cannot grow; otherwise nothing changes.
pub open spec fn is_remove_of<T>(before: Arena<T>, after: Arena<T>, key: (usize, usize), r: Option<T>) -> bool {
    &&& after.wf()
    &&& r is Some <==> before@.dom().contains(key)
    &&& r is Some ==> r->0 == before@[key] && after@ == before@.remove(key) && after.free_list() == (if key.1 < usize::MAX {
        seq![key.0].add(before.free_list())
    } else {
        before.free_list()
    }) && after.versions() == before.versions().update(key.0 as int, bump_version(key.1))
    &&& r is None ==> after@ == before@ && after.free_list() == before.free_list() && after.versions() == before.versions()
}

/// Slotmap arena structure.
pub struct Arena<T> {
    /// Storage for the slots.
    slots: Vec<Slot<T>>,
    /// Index of the next free slot.
    head: usize,
    /// Number of occupied slots.
    count: usize,
    /// The free slots, in the order in which they will be reused.
    free: Ghost<Seq<usize>>,
}

impl<T> View for Arena<T> {
    type V = Map<(usize, usize), T>;

    /// The arena maps each valid key (index, version) to its value.
    closed spec fn view(&self) -> Map<(usize, usize), T> {
        Map::new(
            |k: (usize, usize)|
                k.0 < self.slots@.len() && self.slots@[k.0 as int].entry is Occupied
                    && self.slots@[k.0 as int].version == k.1,
            |k: (usize, usize)| self.slots@[k.0 as int].entry->Occupied_0,
        )
    }
}

impl<T> Arena<T> {
    /// Version of every slot, by index.
    pub closed spec fn versions(&self) -> Seq<usize> {
        Seq::new(self.slots@.len(), |i: int| self.slots@[i].version)
    }

    /// Free slots in the order in which insertions reuse them.
    pub closed spec fn free_list(&self) -> Seq<usize> {
        self.free@
    }

    /// The key that the next insertion hands out: the head of the free list
    /// with its version bumped, or a fresh slot at the end with version 1.
    pub open spec fn next_key(&self) -> (usize, usize) {
        if self.free_list().len() > 0 {
            (self.free_list()[0], (self.versions()[self.free_list()[0] as int] + 1) as usize)
        } else {
            (self.versions().len() as usize, 1usize)
        }
    }

    /// Internal consistency of the slots, the free list, the head and the count.
    pub closed spec fn wf(&self) -> bool {
        let n = self.slots@.len();
        &&& n <= usize::MAX
        &&& self.free@.no_duplicates()
        &&& forall|j: int| 0 <= j < self.free@.len() ==> #[trigger] self.free@[j] < n
        &&& forall|i: int|
            0 <= i < n && self.free@.contains(i as usize) ==> (#[trigger] self.slots@[i]).entry is Vacant
                && self.slots@[i].version % 2 == 0
        &&& forall|i: int|
            0 <= i < n && (#[trigger] self.slots@[i]).entry is Vacant && !self.free@.contains(i as usize)
                ==> self.slots@[i].version == usize::MAX
        &&& forall|i: int|
            0 <= i < n && (#[trigger] self.slots@[i]).entry is Occupied ==> self.slots@[i].version % 2 == 1
        &&& forall|j: int|
            0 <= j < self.free@.len() ==> (#[trigger] self.slots@[self.free@[j] as int]).entry
                == Entry::<T>::Vacant(next_free(self.free@, j, n))
        &&& self.head == (if self.free@.len() > 0 {
            self.free@[0]
        } else {
            n as usize
        })
        &&& self.count + self.free@.len() <= n
        &&& self@.dom().finite()
        &&& self@.dom().len() == self.count
    }

    /// Valid keys always carry odd versions of slots that exist.
    /// A consistent arena holds finitely many elements.
    pub proof fn lemma_finite(&self)
        requires
            self.wf(),
        ensures
            self@.dom().finite(),
    {
    }

    /// The slots fit in memory, and every slot on the free list exists and
    /// carries an even version.
    pub proof fn lemma_free_slots(&self)
        requires
            self.wf(),
        ensures
            self.versions().len() <= usize::MAX,
            forall|j: int| 0 <= j < self.free_list().len() ==> #[trigger] self.free_list()[j] < self.versions().len()
                && self.versions()[self.free_list()[j] as int] % 2 == 0,
    {
        assert forall|j: int| 0 <= j < self.free_list().len() implies #[trigger] self.free_list()[j] < self.versions().len()
            && self.versions()[self.free_list()[j] as int] % 2 == 0 by {
            let i = self.free@[j];
            assert(self.free@.contains(i));
        }
    }

    /// A key in use names a slot whose version is odd and equals the key's.
    pub proof fn lemma_valid_keys(&self, k: (usize, usize))
        requires
            self.wf(),
            self@.dom().contains(k),
        ensures
            k.0 < self.versions().len(),
            self.versions()[k.0 as int] == k.1,
            k.1 % 2 == 1,
            !self.free_list().contains(k.0),
    {
    }

    /// Create a new arena with the given capacity.
    pub fn with_capacity(capacity: usize) -> (r: Self)
        ensures
            r.wf(),
            r@ == Map::<(usize, usize), T>::empty(),
            r.versions() == Seq::<usize>::empty(),
            r.free_list() == Seq::<usize>::empty(),
    {
        let slots: Vec<Slot<T>> = Vec::with_capacity(capacity);
        let r = Arena { slots, head: 0, count: 0, free: Ghost(Seq::empty()) };
        assert(r@ =~= Map::<(usize, usize), T>::empty());
        assert(r.versions() =~= Seq::<usize>::empty());
        r
    }

    /// Create a new empty arena.
    pub fn new() -> (r: Self)
        ensures
            r.wf(),
            r@ == Map::<(usize, usize), T>::empty(),
            r.versions() == Seq::<usize>::empty(),
            r.free_list() == Seq::<usize>::empty(),
    {
        Self::with_capacity(0)
    }

    /// Returns the number of elements in the arena.
    pub fn len(&self) -> (r: usize)
        requires
            self.wf(),
        ensures
            r == self@.dom().len(),
    {
        self.count
    }

    /// Returns true if the arena is empty.
    pub fn is_empty(&self) -> (r: bool)
        requires
            self.wf(),
        ensures
            r == (self@.dom().len() == 0),
    {
        self.count == 0
    }
}


impl<T> Arena<T> {
    /// Returns true if the arena contains the given key.
    pub fn contains_key(&self, key: Key) -> (r: bool)
        requires
            self.wf(),
        ensures
            r == self@.dom().contains(key@),
    {
        let i = key.index();
        if i < self.slots.len() {
            let slot = &self.slots[i];
            slot.version == key.version() && !slot.empty()
        } else {
            false
        }
    }

    /// Returns a reference to the value corresponding to the key.
    pub fn get(&self, key: Key) -> (r: Option<&T>)
        requires
            self.wf(),
        ensures
            r == (if self@.dom().contains(key@) {
                Some(&self@[key@])
            } else {
                None
            }),
    {
        let i = key.index();
        if i < self.slots.len() {
            let slot = &self.slots[i];
            if slot.version == key.version() {
                match &slot.entry {
                    Entry::Occupied(v) => Some(v),
                    Entry::Vacant(_) => None,
                }
            } else {
                None
            }
        } else {
            None
        }
    }

    /// Insert a value into the arena, returning a key to access it.
    ///
    /// The most recently freed slot is reused first; when no slot is free a
    /// new one is appended.
    pub fn insert(&mut self, value: T) -> (key: Key)
        requires
            old(self).wf(),
        ensures
            is_insert_of(*old(self), *final(self), key@, value),
    {
        let ghost old_view = self@;
        let ghost n = self.slots@.len();
        let ghost free = self.free@;
        if self.head < self.slots.len() {
            let index = self.head;
            proof {
                assert(free.len() > 0);
                assert(self.slots@[free[0] as int].entry == Entry::<T>::Vacant(next_free(free, 0, n)));
            }
            let old_version = self.slots[index].version;
            let next = match &self.slots[index].entry {
                Entry::Vacant(next) => *next,
                Entry::Occupied(_) => index,
            };
            proof {
                assert(old_version % 2 == 0);
                assert(old_version < usize::MAX) by {
                    assert(usize::MAX == 0xffff_ffff || usize::MAX == 0xffff_ffff_ffff_ffff);
                }
            }
            let version = old_version + 1;
            let mut slot = Slot { entry: Entry::Occupied(value), version };
            std::mem::swap(&mut self.slots[index], &mut slot);
            self.head = next;
            self.count = self.count + 1;
            self.free = Ghost(free.drop_first());
            let key = Key::from_parts(index, version);
            proof {
                let nf = self.free@;
                assert forall|j: int| 0 <= j < nf.len() implies next_free(nf, j, n) == next_free(free, j + 1, n) by {}
                assert forall|j: int| 0 <= j < nf.len() implies (#[trigger] self.slots@[nf[j] as int]).entry
                    == Entry::<T>::Vacant(next_free(nf, j, n)) by {
                    assert(nf[j] == free[j + 1]);
                    assert(free[j + 1] != free[0]);
                }
                assert forall|i: int| 0 <= i < n && i != index implies (#[trigger] nf.contains(i as usize) <==> free.contains(i as usize)) by {
                    if free.contains(i as usize) {
                        let j = choose|j: int| 0 <= j < free.len() && free[j] == i as usize;
                        assert(j != 0);
                        assert(nf[j - 1] == i as usize);
                    }
                    if nf.contains(i as usize) {
                        let j = choose|j: int| 0 <= j < nf.len() && nf[j] == i as usize;
                        assert(free[j + 1] == i as usize);
                    }
                }
                assert(!nf.contains(index)) by {
                    if nf.contains(index) {
                        let j = choose|j: int| 0 <= j < nf.len() && nf[j] == index;
                        assert(free[j + 1] == free[0]);
                    }
                }
                assert(self@ =~= old_view.insert(key@, value));
                assert(self.versions() =~= Seq::new(n, |i: int| {
                    if i == index { version } else { old(self).versions()[i] }
                }));
                assert(self.versions() =~= old(self).versions().update(index as int, version));
            }
            key
        } else {
            let index = self.slots.len();
            self.slots.push(Slot { entry: Entry::Occupied(value), version: 1 });
            self.head = self.slots.len();
            self.count = self.count + 1;
            let key = Key::from_parts(index, 1);
            proof {
                assert(free.len() == 0);
                assert(self@ =~= old_view.insert(key@, value));
                assert(self.versions() =~= old(self).versions().push(1));
                assert forall|i: int| 0 <= i < n implies #[trigger] self.slots@[i] == old(self).slots@[i] by {}
            }
            key
        }
    }
}

impl<T> Arena<T> {
    /// Remove the value associated with the given key, returning it if it exists.
    ///
    /// The freed slot goes to the front of the free list and its version is
    /// bumped, so the removed key stays invalid.
    pub fn remove(&mut self, key: Key) -> (r: Option<T>)
        requires
            old(self).wf(),
        ensures
            is_remove_of(*old(self), *final(self), key@, r),
    {
        let ghost old_view = self@;
        let ghost n = self.slots@.len();
        let ghost free = self.free@;
        let index = key.index();
        if index >= self.slots.len() {
            return None;
        }
        if self.slots[index].version != key.version() || self.slots[index].empty() {
            proof {
                assert(!old_view.dom().contains(key@));
            }
            return None;
        }
        let v = self.take_slot(index);
        Some(v)
    }

    /// Empties the occupied slot `index`, pushes it on the free list and
    /// bumps its version; returns the value it held.
    fn take_slot(&mut self, index: usize) -> (r: T)
        requires
            old(self).wf(),
            index < old(self).slots@.len(),
            old(self).slots@[index as int].entry is Occupied,
        ensures
            final(self).wf(),
            r == old(self).slots@[index as int].entry->Occupied_0,
            final(self).slots@ == old(self).slots@.update(
                index as int,
                Slot { entry: Entry::Vacant(old(self).head), version: bump_version(old(self).slots@[index as int].version) },
            ),
            final(self).free@ == (if old(self).slots@[index as int].version < usize::MAX {
                seq![index].add(old(self).free@)
            } else {
                old(self).free@
            }),
            final(self)@ == old(self)@.remove((index, old(self).slots@[index as int].version)),
            final(self).versions() == old(self).versions().update(index as int, bump_version(old(self).slots@[index as int].version)),
    {
        let ghost old_view = self@;
        let ghost n = self.slots@.len();
        let ghost free = self.free@;
        let ghost key = (index, self.slots@[index as int].version);
        assert(old_view.dom().contains(key));
        let old_version = self.slots[index].version;
        if old_version < usize::MAX {
            let version = old_version + 1;
            let mut slot = Slot { entry: Entry::Vacant(self.head), version };
            std::mem::swap(&mut self.slots[index], &mut slot);
            self.head = index;
            self.count = self.count - 1;
            self.free = Ghost(seq![index].add(free));
            proof {
                let nf = self.free@;
                assert(!free.contains(index));
                assert forall|j: int| 0 <= j < nf.len() implies (#[trigger] self.slots@[nf[j] as int]).entry
                    == Entry::<T>::Vacant(next_free(nf, j, n)) by {
                    if j > 0 {
                        assert(nf[j] == free[j - 1]);
                        assert(next_free(nf, j, n) == next_free(free, j - 1, n));
                    }
                }
                assert forall|i: int| 0 <= i < n && nf.contains(i as usize) implies (#[trigger] self.slots@[i]).entry is Vacant
                    && self.slots@[i].version % 2 == 0 by {
                    if i != index {
                        let j = choose|j: int| 0 <= j < nf.len() && nf[j] == i as usize;
                        assert(j != 0);
                        assert(free[j - 1] == i as usize);
                    }
                }
                assert forall|i: int| 0 <= i < n && (#[trigger] self.slots@[i]).entry is Vacant && !nf.contains(i as usize)
                    implies self.slots@[i].version == usize::MAX by {
                    assert(nf[0] == index);
                    if i != index && free.contains(i as usize) {
                        let j = choose|j: int| 0 <= j < free.len() && free[j] == i as usize;
                        assert(nf[j + 1] == i as usize);
                    }
                }
                assert(nf.no_duplicates()) by {
                    assert forall|a: int, b: int| 0 <= a < nf.len() && 0 <= b < nf.len() && a != b implies nf[a] != nf[b] by {
                        if a > 0 && b > 0 {
                            assert(nf[a] == free[a - 1] && nf[b] == free[b - 1]);
                        } else if a == 0 {
                            assert(nf[b] == free[b - 1]);
                        } else {
                            assert(nf[a] == free[a - 1]);
                        }
                    }
                }
                assert(self@ =~= old_view.remove(key));
                assert(self.versions() =~= old(self).versions().update(index as int, version));
            }
            match slot.entry {
                Entry::Occupied(v) => v,
                Entry::Vacant(_) => vstd::pervasive::unreached(),
            }
        } else {
            let mut slot = Slot { entry: Entry::Vacant(self.head), version: old_version };
            std::mem::swap(&mut self.slots[index], &mut slot);
            self.count = self.count - 1;
            proof {
                assert(!free.contains(index));
                assert forall|j: int| 0 <= j < free.len() implies (#[trigger] self.slots@[free[j] as int]).entry
                    == Entry::<T>::Vacant(next_free(free, j, n)) by {
                    assert(free[j] != index);
                }
                assert(self@ =~= old_view.remove(key));
                assert(self.versions() =~= old(self).versions());
            }
            match slot.entry {
                Entry::Occupied(v) => v,
                Entry::Vacant(_) => vstd::pervasive::unreached(),
            }
        }
    }

    /// Insert a value created from a closure that receives the key it will be
    /// stored under.
    pub fn insert_with_key<F: FnOnce(Key) -> T>(&mut self, f: F) -> (key: Key)
        requires
            old(self).wf(),
            forall|k: Key| k@ == old(self).next_key() ==> call_requires(f, (k,)),
        ensures
            final(self).wf(),
            key@ == old(self).next_key(),
            !old(self)@.dom().contains(key@),
            exists|v: T| call_ensures(f, (key,), v) && is_insert_of(*old(self), *final(self), key@, v),
    {
        let (index, version) = if self.head < self.slots.len() {
            proof {
                assert(self.free@.len() > 0);
                assert(self.slots@[self.head as int].version % 2 == 0);
                assert(usize::MAX == 0xffff_ffff || usize::MAX == 0xffff_ffff_ffff_ffff);
            }
            (self.head, self.slots[self.head].version + 1)
        } else {
            (self.slots.len(), 1)
        };
        let key = Key::from_parts(index, version);
        let value = f(key);
        let ghost v = value;
        let k = self.insert(value);
        proof {
            Key::lemma_view_injective(key, k);
            assert(call_ensures(f, (k,), v));
        }
        k
    }

    /// Remove all elements from the arena, keeping the allocated memory.
    /// Slot versions start over, so keys handed out before may become valid
    /// again for new values.
    pub fn clear(&mut self)
        requires
            old(self).wf(),
        ensures
            final(self).wf(),
            final(self)@ == Map::<(usize, usize), T>::empty(),
            final(self).versions() == Seq::<usize>::empty(),
            final(self).free_list() == Seq::<usize>::empty(),
    {
        self.slots.clear();
        self.head = 0;
        self.count = 0;
        self.free = Ghost(Seq::empty());
        proof {
            assert(self@ =~= Map::<(usize, usize), T>::empty());
            assert(self.versions() =~= Seq::<usize>::empty());
        }
    }
}

impl<T> Arena<T> {
    /// Returns a mutable reference to the value corresponding to the key.
    #[verifier::spinoff_prover]
    #[verifier::rlimit(40)]
    pub fn get_mut(&mut self, key: Key) -> (r: Option<&mut T>)
        requires
            old(self).wf(),
        ensures
            r is Some <==> old(self)@.dom().contains(key@),
            r is Some ==> *r->0 == old(self)@[key@]
                && final(self)@ == old(self)@.insert(key@, *final(r->0)),
            r is None ==> *final(self) == *old(self),
            final(self).wf(),
            final(self).versions() == old(self).versions(),
            final(self).free_list() == old(self).free_list(),
    {
        let i = key.index();
        if i >= self.slots.len() {
            return None;
        }
        if self.slots[i].version != key.version() || self.slots[i].empty() {
            return None;
        }
        let slot = &mut self.slots[i];
        match &mut slot.entry {
            Entry::Occupied(v) => Some(v),
            Entry::Vacant(_) => None,
        }
    }
}

/// `Vec::capacity`, which the standard library documents as the number of
/// elements the vector can hold without reallocating. Only that it is at
/// least the length is stated; the exact number is the allocator's choice.
#[verifier::external_body]
fn vec_capacity<T>(v: &Vec<T>) -> (r: usize)
    ensures
        r >= v@.len(),
{
    v.capacity()
}

/// The stored elements of a slot sequence, in index order, each with its key.
pub(crate) open spec fn entries_of<T>(slots: Seq<Slot<T>>) -> Seq<((usize, usize), T)>
    decreases slots.len(),
{
    if slots.len() == 0 {
        Seq::empty()
    } else {
        let i = slots.len() - 1;
        let prev = entries_of(slots.drop_last());
        match slots[i].entry {
            Entry::Occupied(v) => prev.push(((i as usize, slots[i].version), v)),
            Entry::Vacant(_) => prev,
        }
    }
}

impl<T> Arena<T> {
    /// The stored elements in increasing slot order, each with its key.
    pub closed spec fn entries(&self) -> Seq<((usize, usize), T)> {
        entries_of(self.slots@)
    }

    /// Returns the capacity of the arena.
    pub fn capacity(&self) -> (r: usize)
        ensures
            r >= self.versions().len(),
    {
        vec_capacity(&self.slots)
    }

    /// Reserves capacity for at least `additional` more elements.
    pub fn reserve(&mut self, additional: usize)
        requires
            old(self).wf(),
        ensures
            final(self).wf(),
            final(self)@ == old(self)@,
            final(self).versions() == old(self).versions(),
            final(self).free_list() == old(self).free_list(),
            final(self).entries() == old(self).entries(),
    {
        self.slots.reserve(additional);
        proof {
            assert(self@ =~= old(self)@);
            assert(self.versions() =~= old(self).versions());
        }
    }

    /// Tries to reserve capacity for at least `additional` more elements;
    /// the allocator decides whether it succeeds.
    pub fn try_reserve(&mut self, additional: usize) -> (r: Result<(), std::collections::TryReserveError>)
        requires
            old(self).wf(),
        ensures
            final(self).wf(),
            final(self)@ == old(self)@,
            final(self).versions() == old(self).versions(),
            final(self).free_list() == old(self).free_list(),
            final(self).entries() == old(self).entries(),
    {
        let r = self.slots.try_reserve(additional);
        proof {
            assert(self@ =~= old(self)@);
            assert(self.versions() =~= old(self).versions());
        }
        r
    }
}

/// The entries of a slot sequence are exactly its occupied slots.
proof fn lemma_entries_of<T>(slots: Seq<Slot<T>>)
    requires
        slots.len() <= usize::MAX,
    ensures
        forall|j: int|
            0 <= j < entries_of(slots).len() ==> {
                let e = #[trigger] entries_of(slots)[j];
                &&& e.0.0 < slots.len()
                &&& slots[e.0.0 as int].entry == Entry::Occupied(e.1)
                &&& slots[e.0.0 as int].version == e.0.1
            },
        forall|a: int, b: int|
            0 <= a < b < entries_of(slots).len() ==> (#[trigger] entries_of(slots)[a]).0.0
                < (#[trigger] entries_of(slots)[b]).0.0,
        forall|i: int|
            0 <= i < slots.len() && (#[trigger] slots[i]).entry is Occupied ==> exists|j: int|
                0 <= j < entries_of(slots).len() && (#[trigger] entries_of(slots)[j]).0.0 == i,
        entries_of(slots).len() <= slots.len(),
    decreases slots.len(),
{
    if slots.len() > 0 {
        let prev = slots.drop_last();
        lemma_entries_of(prev);
        let i = slots.len() - 1;
        let es = entries_of(slots);
        assert forall|k: int| 0 <= k < slots.len() && (#[trigger] slots[k]).entry is Occupied implies exists|j: int|
            0 <= j < es.len() && (#[trigger] es[j]).0.0 == k by {
            if k < i {
                assert(prev[k] == slots[k]);
                let j = choose|j: int| 0 <= j < entries_of(prev).len() && (#[trigger] entries_of(prev)[j]).0.0 == k;
                assert(es[j] == entries_of(prev)[j]);
            } else {
                let v = slots[i].entry->Occupied_0;
                assert(es == entries_of(prev).push(((i as usize, slots[i].version), v)));
                assert(es[es.len() - 1].0.0 == k);
            }
        }
    }
}

impl<T> Arena<T> {
    /// Iteration sees every element exactly once: the entries are in
    /// strictly increasing slot order, every entry is an element of the
    /// arena, and every element is an entry.
    pub proof fn lemma_entries_are_elements(&self)
        requires
            self.wf(),
        ensures
            forall|j: int|
                0 <= j < self.entries().len() ==> self@.dom().contains(#[trigger] self.entries()[j].0)
                    && self@[self.entries()[j].0] == self.entries()[j].1,
            forall|a: int, b: int|
                0 <= a < b < self.entries().len() ==> (#[trigger] self.entries()[a]).0.0
                    < (#[trigger] self.entries()[b]).0.0,
            forall|k: (usize, usize)|
                #[trigger] self@.dom().contains(k) ==> exists|j: int|
                    0 <= j < self.entries().len() && #[trigger] self.entries()[j].0 == k,
    {
        lemma_entries_of(self.slots@);
        assert forall|k: (usize, usize)| #[trigger] self@.dom().contains(k) implies exists|j: int|
            0 <= j < self.entries().len() && #[trigger] self.entries()[j].0 == k by {
            assert(self.slots@[k.0 as int].entry is Occupied);
            let j = choose|j: int| 0 <= j < self.entries().len() && (#[trigger] self.entries()[j]).0.0 == k.0;
            assert(self.entries()[j].0 == k);
        }
    }
}

impl<T> Arena<T> {
    /// There are as many entries as elements.
    pub proof fn lemma_entries_len(&self)
        requires
            self.wf(),
        ensures
            self.entries().len() == self@.dom().len(),
    {
        self.lemma_entries_are_elements();
        self.lemma_finite();
        let ks = self.entries().map_values(|e: ((usize, usize), T)| e.0);
        assert forall|a: int, b: int| 0 <= a < ks.len() && 0 <= b < ks.len() && a != b implies ks[a] != ks[b] by {
            if a < b {
                assert(self.entries()[a].0.0 < self.entries()[b].0.0);
            } else {
                assert(self.entries()[b].0.0 < self.entries()[a].0.0);
            }
        }
        assert(ks.no_duplicates());
        ks.unique_seq_to_set();
        assert forall|k: (usize, usize)| ks.to_set().contains(k) <==> self@.dom().contains(k) by {
            if ks.to_set().contains(k) {
                let j = choose|j: int| 0 <= j < ks.len() && ks[j] == k;
                assert(self@.dom().contains(self.entries()[j].0));
            }
            if self@.dom().contains(k) {
                let j = choose|j: int| 0 <= j < self.entries().len() && #[trigger] self.entries()[j].0 == k;
                assert(ks[j] == k);
                assert(ks.contains(k));
            }
        }
        assert(ks.to_set() =~= self@.dom());
    }
}

/// A shared element reference with its key, viewed as (key, value).
pub open spec fn shared_item<'a, T>(it: (Key, &'a T)) -> ((usize, usize), T) {
    (it.0@, *it.1)
}

/// An owned element with its key, viewed as (key, value).
pub open spec fn owned_item<T>(it: (Key, T)) -> ((usize, usize), T) {
    (it.0@, it.1)
}

/// Iterator over shared references to arena elements, in slot order.
pub struct Iter<'a, T> {
    /// The elements with their keys, in slot order.
    items: Vec<(Key, &'a T)>,
    /// Number of elements already handed out.
    position: usize,
}

impl<'a, T> Iter<'a, T> {
    /// The elements that are still to come, in order.
    pub closed spec fn remaining(&self) -> Seq<((usize, usize), T)> {
        if self.position <= self.items@.len() {
            self.items@.subrange(self.position as int, self.items@.len() as int).map_values(
                |it: (Key, &'a T)| shared_item(it),
            )
        } else {
            Seq::empty()
        }
    }

    /// Returns the next element with its key.
    pub fn next(&mut self) -> (r: Option<(Key, &'a T)>)
        ensures
            old(self).remaining().len() == 0 ==> r is None && final(self).remaining() == old(
                self,
            ).remaining(),
            old(self).remaining().len() > 0 ==> r is Some && shared_item(r->0) == old(
                self,
            ).remaining()[0] && final(self).remaining() == old(self).remaining().drop_first(),
    {
        if self.position < self.items.len() {
            let it = self.items[self.position];
            self.position = self.position + 1;
            proof {
                assert(final(self).remaining() =~= old(self).remaining().drop_first());
            }
            Some(it)
        } else {
            None
        }
    }

    /// Bounds on the number of remaining elements: exact in both directions.
    pub fn size_hint(&self) -> (r: (usize, Option<usize>))
        ensures
            r.0 == self.remaining().len(),
            r.1 == Some(r.0),
    {
        let n = if self.position <= self.items.len() {
            self.items.len() - self.position
        } else {
            0
        };
        (n, Some(n))
    }
}

/// Owning iterator over arena elements, in slot order.
pub struct IntoIter<T> {
    /// The elements with their keys, last one first.
    items: Vec<(Key, T)>,
}

impl<T> IntoIter<T> {
    /// The elements that are still to come, in order.
    pub closed spec fn remaining(&self) -> Seq<((usize, usize), T)> {
        self.items@.reverse().map_values(|it: (Key, T)| owned_item(it))
    }

    /// Returns the next element with its key.
    pub fn next(&mut self) -> (r: Option<(Key, T)>)
        ensures
            old(self).remaining().len() == 0 ==> r is None && final(self).remaining() == old(
                self,
            ).remaining(),
            old(self).remaining().len() > 0 ==> r is Some && owned_item(r->0) == old(
                self,
            ).remaining()[0] && final(self).remaining() == old(self).remaining().drop_first(),
    {
        let r = self.items.pop();
        proof {
            if old(self).items@.len() > 0 {
                assert(final(self).remaining() =~= old(self).remaining().drop_first());
            }
        }
        r
    }

    /// Bounds on the number of remaining elements: exact in both directions.
    pub fn size_hint(&self) -> (r: (usize, Option<usize>))
        ensures
            r.0 == self.remaining().len(),
            r.1 == Some(r.0),
    {
        (self.items.len(), Some(self.items.len()))
    }
}

impl<T> Arena<T> {
    /// Returns an iterator over shared references to the arena elements.
    pub fn iter(&self) -> (r: Iter<'_, T>)
        requires
            self.wf(),
        ensures
            r.remaining() == self.entries(),
            r.remaining().len() == self@.dom().len(),
    {
        proof {
            self.lemma_entries_len();
        }
        let items = self.items();
        let r = Iter { items, position: 0 };
        proof {
            assert(r.remaining() =~= self.entries());
        }
        r
    }

    /// Returns the keys of the arena elements, in slot order.
    pub fn keys(&self) -> (r: Vec<Key>)
        requires
            self.wf(),
        ensures
            r@.len() == self.entries().len(),
            forall|j: int| 0 <= j < r@.len() ==> (#[trigger] r@[j])@ == self.entries()[j].0,
    {
        let mut keys: Vec<Key> = Vec::new();
        let n = self.slots.len();
        let mut i: usize = 0;
        while i < n
            invariant
                self.wf(),
                n == self.slots@.len(),
                i <= n,
                keys@.map_values(|k: Key| k@) == entries_of(self.slots@.subrange(0, i as int)).map_values(
                    |e: ((usize, usize), T)| e.0,
                ),
            decreases n - i,
        {
            let slot = &self.slots[i];
            proof {
                assert(self.slots@.subrange(0, i + 1).drop_last() =~= self.slots@.subrange(0, i as int));
            }
            let ghost prev = entries_of(self.slots@.subrange(0, i as int));
            if !slot.empty() {
                keys.push(Key::from_parts(i, slot.version));
                proof {
                    let v = slot.entry->Occupied_0;
                    assert(entries_of(self.slots@.subrange(0, i + 1)) == prev.push(((i, slot.version), v)));
                    assert(prev.push(((i, slot.version), v)).map_values(|e: ((usize, usize), T)| e.0)
                        =~= prev.map_values(|e: ((usize, usize), T)| e.0).push((i, slot.version)));
                }
            } else {
                proof {
                    assert(entries_of(self.slots@.subrange(0, i + 1)) == prev);
                }
            }
            i = i + 1;
            proof {
                assert(keys@.map_values(|k: Key| k@) =~= entries_of(self.slots@.subrange(0, i as int)).map_values(
                    |e: ((usize, usize), T)| e.0,
                ));
            }
        }
        proof {
            assert(self.slots@.subrange(0, n as int) =~= self.slots@);
            assert forall|j: int| 0 <= j < keys@.len() implies (#[trigger] keys@[j])@ == self.entries()[j].0 by {
                assert(keys@.map_values(|k: Key| k@)[j] == keys@[j]@);
            }
        }
        keys
    }

    /// Returns references to the values of the arena elements, in slot order.
    pub fn values(&self) -> (r: Vec<&T>)
        requires
            self.wf(),
        ensures
            r@.len() == self.entries().len(),
            forall|j: int| 0 <= j < r@.len() ==> *(#[trigger] r@[j]) == self.entries()[j].1,
    {
        let mut values: Vec<&T> = Vec::new();
        let n = self.slots.len();
        let mut i: usize = 0;
        while i < n
            invariant
                n == self.slots@.len(),
                i <= n,
                values@.map_values(|v: &T| *v) == entries_of(self.slots@.subrange(0, i as int)).map_values(
                    |e: ((usize, usize), T)| e.1,
                ),
            decreases n - i,
        {
            let slot = &self.slots[i];
            proof {
                assert(self.slots@.subrange(0, i + 1).drop_last() =~= self.slots@.subrange(0, i as int));
            }
            let ghost prev = entries_of(self.slots@.subrange(0, i as int));
            match &slot.entry {
                Entry::Occupied(v) => {
                    values.push(v);
                    proof {
                        assert(entries_of(self.slots@.subrange(0, i + 1)) == prev.push(((i as usize, slot.version), *v)));
                        assert(prev.push(((i as usize, slot.version), *v)).map_values(|e: ((usize, usize), T)| e.1)
                            =~= prev.map_values(|e: ((usize, usize), T)| e.1).push(*v));
                    }
                },
                Entry::Vacant(_) => {
                    proof {
                        assert(entries_of(self.slots@.subrange(0, i + 1)) == prev);
                    }
                },
            }
            i = i + 1;
            proof {
                assert(values@.map_values(|v: &T| *v) =~= entries_of(self.slots@.subrange(0, i as int)).map_values(
                    |e: ((usize, usize), T)| e.1,
                ));
            }
        }
        proof {
            assert(self.slots@.subrange(0, n as int) =~= self.slots@);
            assert forall|j: int| 0 <= j < values@.len() implies *(#[trigger] values@[j]) == self.entries()[j].1 by {
                assert(values@.map_values(|v: &T| *v)[j] == *values@[j]);
            }
        }
        values
    }

    /// Consumes the arena, returning its elements with their keys in slot order.
    pub fn into_iter(self) -> (r: IntoIter<T>)
        requires
            self.wf(),
        ensures
            r.remaining() == self.entries(),
    {
        let ghost all = self.entries();
        let ghost initial = self.slots@;
        let mut slots = self.slots;
        let mut items: Vec<(Key, T)> = Vec::new();
        proof {
            assert(initial.subrange(0, initial.len() as int) =~= initial);
            assert(items@.reverse().map_values(|it: (Key, T)| owned_item(it)) =~= Seq::empty());
            assert(entries_of(slots@) + Seq::empty() =~= entries_of(slots@));
        }
        while slots.len() > 0
            invariant
                initial.len() <= usize::MAX,
                slots@.len() <= initial.len(),
                slots@ == initial.subrange(0, slots@.len() as int),
                entries_of(slots@) + items@.reverse().map_values(|it: (Key, T)| owned_item(it))
                    == entries_of(initial),
            decreases slots@.len(),
        {
            let ghost before = slots@;
            let ghost before_items = items@;
            let n = slots.len();
            let slot = slots.pop().unwrap();
            proof {
                assert(before.drop_last() =~= slots@);
                assert(slots@ =~= initial.subrange(0, slots@.len() as int));
            }
            match slot.entry {
                Entry::Occupied(v) => {
                    let ghost x = ((n - 1) as usize, slot.version);
                    let ghost gv = v;
                    items.push((Key::from_parts(n - 1, slot.version), v));
                    proof {
                        assert(items@.reverse().map_values(|it: (Key, T)| owned_item(it))
                            =~= seq![(x, gv)].add(before_items.reverse().map_values(|it: (Key, T)| owned_item(it))));
                        assert(entries_of(before) == entries_of(slots@).push((x, gv)));
                        assert(entries_of(slots@) + items@.reverse().map_values(|it: (Key, T)| owned_item(it))
                            =~= entries_of(before) + before_items.reverse().map_values(|it: (Key, T)| owned_item(it)));
                    }
                },
                Entry::Vacant(_) => {
                    proof {
                        assert(entries_of(before) == entries_of(slots@));
                    }
                },
            }
        }
        proof {
            assert(entries_of(slots@) =~= Seq::empty());
            assert(Seq::<((usize, usize), T)>::empty() + items@.reverse().map_values(|it: (Key, T)| owned_item(it))
                =~= items@.reverse().map_values(|it: (Key, T)| owned_item(it)));
        }
        IntoIter { items }
    }
}

/// Draining iterator over the elements removed from an arena, in slot order.
pub struct Drain<T> {
    /// The removed elements with their keys, last one first.
    items: Vec<(Key, T)>,
}

impl<T> Drain<T> {
    /// The elements that are still to come, in order.
    pub closed spec fn remaining(&self) -> Seq<((usize, usize), T)> {
        self.items@.reverse().map_values(|it: (Key, T)| owned_item(it))
    }

    /// Returns the next element with its key.
    pub fn next(&mut self) -> (r: Option<(Key, T)>)
        ensures
            old(self).remaining().len() == 0 ==> r is None && final(self).remaining() == old(
                self,
            ).remaining(),
            old(self).remaining().len() > 0 ==> r is Some && owned_item(r->0) == old(
                self,
            ).remaining()[0] && final(self).remaining() == old(self).remaining().drop_first(),
    {
        let r = self.items.pop();
        proof {
            if old(self).items@.len() > 0 {
                assert(final(self).remaining() =~= old(self).remaining().drop_first());
            }
        }
        r
    }
}

/// Versions after the elements of `a` that `keep` rejects are removed:
/// each removed element's slot version is bumped.
pub open spec fn versions_after_removal<T>(a: Arena<T>, keep: spec_fn((usize, usize)) -> bool) -> Seq<usize> {
    Seq::new(
        a.versions().len(),
        |j: int|
            if a@.dom().contains((j as usize, a.versions()[j])) && !keep((j as usize, a.versions()[j])) {
                bump_version(a.versions()[j])
            } else {
                a.versions()[j]
            },
    )
}

/// The order in which removing the given entries one by one, first to
/// last, leaves their slots on the free list (retired slots excepted).
pub open spec fn freed_order<T>(es: Seq<((usize, usize), T)>) -> Seq<usize>
    decreases es.len(),
{
    if es.len() == 0 {
        Seq::empty()
    } else {
        let prev = freed_order(es.drop_last());
        let e = es.last();
        if e.0.1 < usize::MAX {
            seq![e.0.0].add(prev)
        } else {
            prev
        }
    }
}

/// Moves an owned sequence into a vector in reverse order.
fn reverse_into<T>(v: Vec<(Key, T)>) -> (r: Vec<(Key, T)>)
    ensures
        r@ == v@.reverse(),
{
    let ghost orig = v@;
    let mut v = v;
    let mut r: Vec<(Key, T)> = Vec::new();
    while v.len() > 0
        invariant
            v@.len() <= orig.len(),
            v@ == orig.subrange(0, v@.len() as int),
            r@ == orig.subrange(v@.len() as int, orig.len() as int).reverse(),
        decreases v@.len(),
    {
        let x = v.pop().unwrap();
        r.push(x);
        proof {
            assert(r@ =~= orig.subrange(v@.len() as int, orig.len() as int).reverse());
            assert(v@ =~= orig.subrange(0, v@.len() as int));
        }
    }
    proof {
        assert(orig.subrange(0, orig.len() as int) =~= orig);
    }
    r
}

impl<T> Arena<T> {
    /// Removes all elements from the arena, returning them with their keys
    /// in slot order. The arena keeps its allocated memory; each freed slot
    /// goes to the front of the free list in turn, as with `remove`.
    pub fn drain(&mut self) -> (r: Drain<T>)
        requires
            old(self).wf(),
        ensures
            final(self).wf(),
            final(self)@ == Map::<(usize, usize), T>::empty(),
            r.remaining() == old(self).entries(),
            final(self).free_list() == freed_order(old(self).entries()) + old(self).free_list(),
            final(self).versions() == versions_after_removal(*old(self), |k: (usize, usize)| false),
    {
        let ghost o = *self;
        let n = self.slots.len();
        let mut taken: Vec<(Key, T)> = Vec::new();
        let mut i: usize = 0;
        proof {
            assert(o.slots@.subrange(0, 0) =~= Seq::<Slot<T>>::empty());
            assert(self.free@ =~= freed_order(entries_of(o.slots@.subrange(0, 0))) + o.free@);
            assert(taken@.map_values(|it: (Key, T)| owned_item(it)) =~= entries_of(o.slots@.subrange(0, 0)));
        }
        while i < n
            invariant
                o.wf(),
                self.wf(),
                n == o.slots@.len(),
                self.slots@.len() == n,
                i <= n,
                forall|j: int| i <= j < n ==> #[trigger] self.slots@[j] == o.slots@[j],
                forall|j: int| 0 <= j < i ==> (#[trigger] self.slots@[j]).entry is Vacant
                    && self.slots@[j].version == (if o.slots@[j].entry is Occupied { bump_version(o.slots@[j].version) } else { o.slots@[j].version }),
                self.free@ == freed_order(entries_of(o.slots@.subrange(0, i as int))) + o.free@,
                taken@.map_values(|it: (Key, T)| owned_item(it)) == entries_of(o.slots@.subrange(0, i as int)),
            decreases n - i,
        {
            let ghost prev = entries_of(o.slots@.subrange(0, i as int));
            let ghost before = self.slots@;
            proof {
                assert(o.slots@.subrange(0, i + 1).drop_last() =~= o.slots@.subrange(0, i as int));
                assert(self.slots@[i as int] == o.slots@[i as int]);
            }
            if !self.slots[i].empty() {
                let version = self.slots[i].version;
                let key = Key::from_parts(i, version);
                proof {
                    assert(o@.dom().contains(key@));
                }
                let ghost gv = o.slots@[i as int].entry->Occupied_0;
                let v = self.take_slot(i);
                taken.push((key, v));
                proof {
                    let e = ((i, version), gv);
                    assert(entries_of(o.slots@.subrange(0, i + 1)) == prev.push(e));
                    assert(taken@.map_values(|it: (Key, T)| owned_item(it)) =~= prev.push(e));
                    assert(prev.push(e).drop_last() =~= prev);
                    assert(self.free@ =~= freed_order(entries_of(o.slots@.subrange(0, i + 1))) + o.free@);
                    assert forall|j: int| i + 1 <= j < n implies #[trigger] self.slots@[j] == o.slots@[j] by {
                        assert(self.slots@[j] == before[j]);
                    }
                    assert forall|j: int| 0 <= j < i + 1 implies (#[trigger] self.slots@[j]).entry is Vacant
                        && self.slots@[j].version == (if o.slots@[j].entry is Occupied { bump_version(o.slots@[j].version) } else { o.slots@[j].version }) by {
                        if j < i {
                            assert(self.slots@[j] == before[j]);
                        }
                    }
                }
            } else {
                proof {
                    assert(entries_of(o.slots@.subrange(0, i + 1)) == prev);
                }
            }
            i = i + 1;
        }
        proof {
            assert(o.slots@.subrange(0, n as int) =~= o.slots@);
            assert(self@ =~= Map::<(usize, usize), T>::empty());
            assert forall|j: int| 0 <= j < n implies (o@.dom().contains((j as usize, o.versions()[j])) <==> o.slots@[j].entry is Occupied) by {}
            assert(self.versions() =~= versions_after_removal(o, |k: (usize, usize)| false));
        }
        let items = reverse_into(taken);
        let r = Drain { items };
        proof {
            assert(r.remaining() =~= taken@.map_values(|it: (Key, T)| owned_item(it)));
        }
        r
    }
}

impl<T> Arena<T> {
    /// Calls `f` once on each element, in increasing slot order, letting it
    /// change the element in place.
    pub fn for_each_mut<F: FnMut(Key, &mut T)>(&mut self, mut f: F)
        requires
            old(self).wf(),
            forall|key: Key, v: &mut T| #[trigger] call_requires(f, (key, v)),
        ensures
            final(self).wf(),
            final(self)@.dom() == old(self)@.dom(),
            final(self).versions() == old(self).versions(),
            final(self).free_list() == old(self).free_list(),
            forall|key: Key| #[trigger] old(self)@.dom().contains(key@) ==> exists|m: &mut T|
                *m == old(self)@[key@] && #[trigger] call_ensures(f, (key, m), ()) && *final(m) == final(self)@[key@],
    {
        let ghost o = *self;
        let ghost f0 = f;
        let n = self.slots.len();
        let mut i: usize = 0;
        while i < n
            invariant
                o.wf(),
                self.wf(),
                n == o.slots@.len(),
                self.slots@.len() == n,
                i <= n,
                forall|key: Key, v: &mut T| #[trigger] call_requires(f, (key, v)),
                f == f0,
                self.free@ == o.free@,
                self@.dom() == o@.dom(),
                forall|j: int| i <= j < n ==> #[trigger] self.slots@[j] == o.slots@[j],
                forall|j: int| 0 <= j < i ==> {
                    let os = o.slots@[j];
                    let key = Key { index: j as usize, version: os.version };
                    &&& (#[trigger] self.slots@[j]).version == os.version
                    &&& os.entry is Vacant ==> self.slots@[j] == os
                    &&& os.entry is Occupied ==> exists|m: &mut T| *m == os.entry->Occupied_0 && #[trigger] call_ensures(f, (key, m), ())
                        && self.slots@[j].entry == Entry::Occupied(*final(m))
                },
            decreases n - i,
        {
            let ghost before = self.slots@;
            proof {
                assert(self.slots@[i as int] == o.slots@[i as int]);
            }
            if !self.slots[i].empty() {
                let version = self.slots[i].version;
                let key = Key::from_parts(i, version);
                let ghost gv = o.slots@[i as int].entry->Occupied_0;
                let ghost view0 = self@;
                match &mut self.slots[i].entry {
                    Entry::Occupied(v) => f(key, v),
                    Entry::Vacant(_) => {},
                }
                proof {
                    assert(key == Key { index: i, version: o.slots@[i as int].version });
                    assert(self.slots@[i as int].version == before[i as int].version);
                    assert(self.slots@[i as int].entry is Occupied);
                    assert(exists|m: &mut T| *m == gv && #[trigger] call_ensures(f, (key, m), ())
                        && self.slots@[i as int].entry == Entry::Occupied(*final(m)));
                    assert forall|j: int| 0 <= j < n && j != i implies #[trigger] self.slots@[j] == before[j] by {}
                    assert forall|k: (usize, usize)| #[trigger] self@.dom().contains(k) <==> view0.dom().contains(k) by {
                        if k.0 != i {
                            assert(k.0 < n ==> self.slots@[k.0 as int] == before[k.0 as int]);
                        }
                    }
                    assert(self@.dom() =~= view0.dom());
                }
            }
            i = i + 1;
        }
        proof {
            assert(self.versions() =~= o.versions());
            assert forall|key: Key| #[trigger] o@.dom().contains(key@) implies exists|m: &mut T|
                *m == o@[key@] && #[trigger] call_ensures(f, (key, m), ()) && *final(m) == self@[key@] by {
                let j = key@.0 as int;
                assert(key.index == j as usize);
                assert(key.version == o.slots@[j].version);
                assert(key == Key { index: j as usize, version: o.slots@[j].version });
                assert(0 <= j < n);
                let sj = self.slots@[j];
                assert(o.slots@[j].entry is Occupied);
                assert(o@[key@] == o.slots@[j].entry->Occupied_0);
                assert(self@.dom().contains(key@));
                assert(self@[key@] == sj.entry->Occupied_0);
                let m = choose|m: &mut T| *m == o.slots@[j].entry->Occupied_0 && #[trigger] call_ensures(f, (key, m), ())
                    && sj.entry == Entry::Occupied(*final(m));
                assert(*m == o@[key@] && call_ensures(f, (key, m), ()) && *final(m) == self@[key@]);
            }
        }
    }

    /// Retains only the elements for which the predicate returns true,
    /// visiting slots in increasing order; removed slots are freed as by
    /// `remove`.
    pub fn retain<F: FnMut(Key, &mut T) -> bool>(&mut self, mut f: F)
        requires
            old(self).wf(),
            forall|key: Key, v: &mut T| #[trigger] call_requires(f, (key, v)),
        ensures
            final(self).wf(),
            forall|k: (usize, usize)| #[trigger] final(self)@.dom().contains(k) ==> old(self)@.dom().contains(k),
            forall|key: Key| #[trigger] old(self)@.dom().contains(key@) ==> {
                &&& final(self)@.dom().contains(key@) ==> exists|m: &mut T|
                    *m == old(self)@[key@] && #[trigger] call_ensures(f, (key, m), true) && *final(m) == final(self)@[key@]
                &&& !final(self)@.dom().contains(key@) ==> exists|m: &mut T|
                    *m == old(self)@[key@] && #[trigger] call_ensures(f, (key, m), false)
            },
            final(self).versions() == versions_after_removal(*old(self), |k: (usize, usize)| final(self)@.dom().contains(k)),
            forall|x: usize| #[trigger] final(self).free_list().contains(x) ==> old(self).free_list().contains(x)
                || (x < old(self).versions().len() && old(self)@.dom().contains((x, old(self).versions()[x as int]))
                    && !final(self)@.dom().contains((x, old(self).versions()[x as int]))),
    {
        let ghost o = *self;
        let ghost f0 = f;
        let n = self.slots.len();
        let mut i: usize = 0;
        while i < n
            invariant
                o.wf(),
                self.wf(),
                n == o.slots@.len(),
                self.slots@.len() == n,
                i <= n,
                forall|key: Key, v: &mut T| #[trigger] call_requires(f, (key, v)),
                f == f0,
                forall|j: int| i <= j < n ==> #[trigger] self.slots@[j] == o.slots@[j],
                forall|x: usize| #[trigger] self.free@.contains(x) ==> o.free@.contains(x)
                    || (x < i && o.slots@[x as int].entry is Occupied && self.slots@[x as int].entry is Vacant),
                forall|j: int| 0 <= j < i ==> {
                    let os = o.slots@[j];
                    let key = Key { index: j as usize, version: os.version };
                    &&& (#[trigger] self.slots@[j]).entry is Vacant && os.entry is Vacant ==> self.slots@[j] == os
                    &&& os.entry is Vacant ==> self.slots@[j].entry is Vacant
                    &&& os.entry is Occupied && self.slots@[j].entry is Occupied ==> self.slots@[j].version == os.version
                        && exists|m: &mut T| *m == os.entry->Occupied_0 && #[trigger] call_ensures(f, (key, m), true)
                            && self.slots@[j].entry == Entry::Occupied(*final(m))
                    &&& os.entry is Occupied && self.slots@[j].entry is Vacant ==> self.slots@[j].version == bump_version(os.version)
                        && exists|m: &mut T| *m == os.entry->Occupied_0 && #[trigger] call_ensures(f, (key, m), false)
                },
            decreases n - i,
        {
            let ghost before = self.slots@;
            proof {
                assert(self.slots@[i as int] == o.slots@[i as int]);
            }
            if !self.slots[i].empty() {
                let version = self.slots[i].version;
                let key = Key::from_parts(i, version);
                proof {
                    assert(o@.dom().contains(key@));
                }
                let ghost gv = o.slots@[i as int].entry->Occupied_0;
                let ghost view0 = self@;
                let keep = match &mut self.slots[i].entry {
                    Entry::Occupied(v) => f(key, v),
                    Entry::Vacant(_) => true,
                };
                proof {
                    assert(key == Key { index: i, version: o.slots@[i as int].version });
                    assert(self.slots@[i as int].version == before[i as int].version);
                    assert(self.slots@[i as int].entry is Occupied);
                    assert(exists|m: &mut T| *m == gv && #[trigger] call_ensures(f, (key, m), keep)
                        && self.slots@[i as int].entry == Entry::Occupied(*final(m)));
                    assert forall|j: int| 0 <= j < n && j != i implies #[trigger] self.slots@[j] == before[j] by {}
                    assert forall|k: (usize, usize)| #[trigger] self@.dom().contains(k) <==> view0.dom().contains(k) by {
                        if k.0 != i {
                            assert(k.0 < n ==> self.slots@[k.0 as int] == before[k.0 as int]);
                        }
                    }
                    assert(self@.dom() =~= view0.dom());
                }
                if !keep {
                    let ghost free_before = self.free@;
                    let _ = self.take_slot(i);
                    proof {
                        assert forall|x: usize| #[trigger] self.free@.contains(x) implies o.free@.contains(x)
                            || (x < i + 1 && o.slots@[x as int].entry is Occupied && self.slots@[x as int].entry is Vacant) by {
                            if x != i {
                                let t = choose|t: int| 0 <= t < self.free@.len() && self.free@[t] == x;
                                if before[i as int].version < usize::MAX {
                                    assert(free_before[t - 1] == x);
                                } else {
                                    assert(free_before[t] == x);
                                }
                                assert(free_before.contains(x));
                                assert(self.slots@[x as int] == before[x as int]);
                            }
                        }
                    }
                }
                proof {
                    assert forall|j: int| i + 1 <= j < n implies #[trigger] self.slots@[j] == o.slots@[j] by {
                        assert(self.slots@[j] == before[j]);
                    }
                    assert forall|j: int| 0 <= j < i implies #[trigger] self.slots@[j] == before[j] by {}
                }
            }
            i = i + 1;
        }
        proof {
            assert forall|j: int| 0 <= j < n implies (o@.dom().contains((j as usize, o.versions()[j])) <==> o.slots@[j].entry is Occupied) by {}
            assert forall|k: (usize, usize)| #[trigger] self@.dom().contains(k) implies o@.dom().contains(k) by {
                assert(self.slots@[k.0 as int].version == o.slots@[k.0 as int].version);
            }
            assert forall|key: Key| #[trigger] o@.dom().contains(key@) implies {
                &&& self@.dom().contains(key@) ==> exists|m: &mut T|
                    *m == o@[key@] && #[trigger] call_ensures(f, (key, m), true) && *final(m) == self@[key@]
                &&& !self@.dom().contains(key@) ==> exists|m: &mut T|
                    *m == o@[key@] && #[trigger] call_ensures(f, (key, m), false)
            } by {
                let j = key@.0 as int;
                assert(key.index == j as usize);
                assert(key.version == o.slots@[j].version);
                assert(key == Key { index: j as usize, version: o.slots@[j].version });
                assert(0 <= j < n);
                let sj = self.slots@[j];
                assert(o.slots@[j].entry is Occupied);
                assert(o@[key@] == o.slots@[j].entry->Occupied_0);
                if self@.dom().contains(key@) {
                    assert(sj.entry is Occupied);
                    assert(self@[key@] == sj.entry->Occupied_0);
                    let m = choose|m: &mut T| *m == o.slots@[j].entry->Occupied_0 && #[trigger] call_ensures(f, (key, m), true)
                        && sj.entry == Entry::Occupied(*final(m));
                    assert(*m == o@[key@] && call_ensures(f, (key, m), true) && *final(m) == self@[key@]);
                } else {
                    assert(sj.entry is Vacant);
                    let m = choose|m: &mut T| *m == o.slots@[j].entry->Occupied_0 && #[trigger] call_ensures(f, (key, m), false);
                    assert(*m == o@[key@] && call_ensures(f, (key, m), false));
                }
            }
            assert(self.versions() =~= versions_after_removal(o, |k: (usize, usize)| self@.dom().contains(k)));
            assert forall|x: usize| #[trigger] self.free_list().contains(x) implies o.free_list().contains(x)
                || (x < o.versions().len() && o@.dom().contains((x, o.versions()[x as int]))
                    && !self@.dom().contains((x, o.versions()[x as int]))) by {
                if !o.free_list().contains(x) {
                    assert(o.slots@[x as int].entry is Occupied && self.slots@[x as int].entry is Vacant);
                }
            }
        }
    }
}

impl<T: Clone> Clone for Arena<T> {
    /// A copy of the arena, slot by slot.
    fn clone(&self) -> (r: Self) {
        Arena { slots: self.slots.clone(), head: self.head, count: self.count, free: Ghost(self.free@) }
    }

    /// Makes this arena a copy of `source`, slot by slot, keeping the
    /// memory it has already allocated.
    fn clone_from(&mut self, source: &Self) {
        self.slots.clear();
        let mut i: usize = 0;
        while i < source.slots.len()
            decreases source.slots@.len() - i,
        {
            self.slots.push(source.slots[i].clone());
            i = i + 1;
        }
        self.head = source.head;
        self.count = source.count;
        self.free = Ghost(source.free@);
    }
}

impl<T> Default for Arena<T> {
    /// An empty arena.
    fn default() -> (r: Self)
        ensures
            r.wf(),
            r@ == Map::<(usize, usize), T>::empty(),
            r.versions() == Seq::<usize>::empty(),
            r.free_list() == Seq::<usize>::empty(),
    {
        Self::new()
    }
}

impl<T> Arena<T> {
    /// The elements with their keys, in slot order.
    pub fn items(&self) -> (r: Vec<(Key, &T)>)
        requires
            self.wf(),
        ensures
            r@.map_values(|it: (Key, &T)| shared_item(it)) == self.entries(),
    {
        let mut items: Vec<(Key, &T)> = Vec::new();
        let n = self.slots.len();
        let mut i: usize = 0;
        while i < n
            invariant
                n == self.slots@.len(),
                i <= n,
                items@.map_values(|it: (Key, &T)| shared_item(it)) == entries_of(
                    self.slots@.subrange(0, i as int),
                ),
            decreases n - i,
        {
            let slot = &self.slots[i];
            proof {
                assert(self.slots@.subrange(0, i + 1).drop_last() =~= self.slots@.subrange(0, i as int));
            }
            match &slot.entry {
                Entry::Occupied(v) => {
                    items.push((Key::from_parts(i, slot.version), v));
                },
                Entry::Vacant(_) => {},
            }
            i = i + 1;
            proof {
                assert(items@.map_values(|it: (Key, &T)| shared_item(it)) =~= entries_of(
                    self.slots@.subrange(0, i as int),
                ));
            }
        }
        proof {
            assert(self.slots@.subrange(0, n as int) =~= self.slots@);
        }
        items
    }

    /// The key that the next insertion will hand out.
    pub fn peek_key(&self) -> (r: Key)
        requires
            self.wf(),
        ensures
            r@ == self.next_key(),
            !self@.dom().contains(r@),
    {
        if self.head < self.slots.len() {
            proof {
                assert(self.free@.len() > 0);
                assert(self.slots@[self.head as int].version % 2 == 0);
                assert(usize::MAX == 0xffff_ffff || usize::MAX == 0xffff_ffff_ffff_ffff);
            }
            Key::from_parts(self.head, self.slots[self.head].version + 1)
        } else {
            Key::from_parts(self.slots.len(), 1)
        }
    }
}

} // verus!
