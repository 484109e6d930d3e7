//! What holds across calls: a value stored is read back under its key,
//! removing it undoes the insertion, and a key whose value was removed
//! never becomes valid again through later insertions and removals.

use vstd::prelude::*;

use crate::arena::slots::{freed_order, is_insert_of, is_remove_of, versions_after_removal, Arena};

verus! {

/// `key` names a slot of `a` that no longer holds the value it was handed
/// out for: its version has moved past the key's, or the slot is retired
/// (empty with the key's version and never handed out again).
pub open spec fn is_stale<T>(a: Arena<T>, key: (usize, usize)) -> bool {
    &&& !a@.dom().contains(key)
    &&& key.0 < a.versions().len()
    &&& (key.1 < a.versions()[key.0 as int] || (a.versions()[key.0 as int] == key.1 && !a.free_list().contains(key.0)))
}

/// After an insertion the new key reads back the stored value, every other
/// key reads what it read before, and the arena holds one element more.
pub proof fn law_insert_then_get<T>(before: Arena<T>, after: Arena<T>, key: (usize, usize), value: T)
    requires
        before.wf(),
        is_insert_of(before, after, key, value),
    ensures
        after@.dom().contains(key),
        after@[key] == value,
        forall|k: (usize, usize)| k != key ==> (#[trigger] after@.dom().contains(k) <==> before@.dom().contains(k)),
        forall|k: (usize, usize)| k != key && before@.dom().contains(k) ==> #[trigger] after@[k] == before@[k],
        after@.dom().len() == before@.dom().len() + 1,
{
    before.lemma_finite();
}

/// Removing the key that an insertion handed out returns the inserted
/// value and leaves the elements as they were before the insertion.
pub proof fn law_remove_undoes_insert<T>(
    a0: Arena<T>,
    a1: Arena<T>,
    a2: Arena<T>,
    key: (usize, usize),
    value: T,
    r: Option<T>,
)
    requires
        a0.wf(),
        is_insert_of(a0, a1, key, value),
        is_remove_of(a1, a2, key, r),
    ensures
        r == Some(value),
        a2@ == a0@,
{
    assert(a2@ =~= a0@);
}

/// A successful removal leaves the removed key stale, with one element
/// less in the arena.
pub proof fn law_remove_makes_stale<T>(before: Arena<T>, after: Arena<T>, key: (usize, usize), r: Option<T>)
    requires
        before.wf(),
        before@.dom().contains(key),
        is_remove_of(before, after, key, r),
    ensures
        is_stale(after, key),
        after@.dom().len() + 1 == before@.dom().len(),
{
    before.lemma_valid_keys(key);
    before.lemma_finite();
}

/// An insertion, by `insert` or `insert_with_key`, never hands a stale key
/// out again.
pub proof fn law_insert_keeps_stale<T>(before: Arena<T>, after: Arena<T>, key: (usize, usize), value: T, stale: (usize, usize))
    requires
        before.wf(),
        is_insert_of(before, after, key, value),
        is_stale(before, stale),
    ensures
        key != stale,
        is_stale(after, stale),
{
    let i = stale.0;
    before.lemma_free_slots();
    if before.free_list().len() > 0 {
        if before.free_list()[0] == i {
            assert(before.free_list().contains(i));
            assert(before.versions()[i as int] % 2 == 0);
            assert(key.1 == before.versions()[i as int] + 1);
        }
        assert forall|x: usize| after.free_list().contains(x) implies before.free_list().contains(x) by {
            let j = choose|j: int| 0 <= j < after.free_list().len() && after.free_list()[j] == x;
            assert(before.free_list()[j + 1] == x);
        }
    } else {
        assert(key.0 == before.versions().len());
    }
}

/// A removal, of any key, keeps a stale key stale.
pub proof fn law_remove_keeps_stale<T>(before: Arena<T>, after: Arena<T>, key: (usize, usize), r: Option<T>, stale: (usize, usize))
    requires
        before.wf(),
        is_remove_of(before, after, key, r),
        is_stale(before, stale),
    ensures
        is_stale(after, stale),
{
    if r is Some {
        before.lemma_valid_keys(key);
        if key.0 == stale.0 {
            assert(key != stale);
        }
    }
}

/// Changing an element in place through `get_mut` keeps a stale key stale.
pub proof fn law_get_mut_keeps_stale<T>(before: Arena<T>, after: Arena<T>, key: (usize, usize), value: T, stale: (usize, usize))
    requires
        before.wf(),
        before@.dom().contains(key),
        after@ == before@.insert(key, value),
        after.versions() == before.versions(),
        after.free_list() == before.free_list(),
        is_stale(before, stale),
    ensures
        is_stale(after, stale),
{
}

/// `retain` keeps a stale key stale.
pub proof fn law_retain_keeps_stale<T>(before: Arena<T>, after: Arena<T>, stale: (usize, usize))
    requires
        before.wf(),
        forall|k: (usize, usize)| #[trigger] after@.dom().contains(k) ==> before@.dom().contains(k),
        after.versions() == versions_after_removal(before, |k: (usize, usize)| after@.dom().contains(k)),
        forall|x: usize| #[trigger] after.free_list().contains(x) ==> before.free_list().contains(x)
            || (x < before.versions().len() && before@.dom().contains((x, before.versions()[x as int]))
                && !after@.dom().contains((x, before.versions()[x as int]))),
        is_stale(before, stale),
    ensures
        is_stale(after, stale),
{
    let i = stale.0;
    if before.versions()[i as int] == stale.1 {
        assert(!after.free_list().contains(i));
    }
}

/// An entry's slot index is on the freed order only if one of the entries
/// sits in that slot.
proof fn lemma_freed_from_entries<T>(es: Seq<((usize, usize), T)>, x: usize)
    requires
        freed_order(es).contains(x),
    ensures
        exists|j: int| 0 <= j < es.len() && (#[trigger] es[j]).0.0 == x,
    decreases es.len(),
{
    let prev = freed_order(es.drop_last());
    let e = es.last();
    if e.0.0 == x {
        assert(es[es.len() - 1].0.0 == x);
    } else {
        if e.0.1 < usize::MAX {
            let t = choose|t: int| 0 <= t < freed_order(es).len() && freed_order(es)[t] == x;
            assert(t > 0);
            assert(prev[t - 1] == x);
        }
        assert(prev.contains(x));
        lemma_freed_from_entries(es.drop_last(), x);
        let j = choose|j: int| 0 <= j < es.drop_last().len() && (#[trigger] es.drop_last()[j]).0.0 == x;
        assert(es[j] == es.drop_last()[j]);
    }
}

/// `drain` keeps a stale key stale.
pub proof fn law_drain_keeps_stale<T>(before: Arena<T>, after: Arena<T>, stale: (usize, usize))
    requires
        before.wf(),
        after@ == Map::<(usize, usize), T>::empty(),
        after.free_list() == freed_order(before.entries()) + before.free_list(),
        after.versions() == versions_after_removal(before, |k: (usize, usize)| false),
        is_stale(before, stale),
    ensures
        is_stale(after, stale),
{
    let i = stale.0;
    if before.versions()[i as int] == stale.1 && after.free_list().contains(i) {
        let t = choose|t: int| 0 <= t < after.free_list().len() && after.free_list()[t] == i;
        let fo = freed_order(before.entries());
        if t < fo.len() {
            assert(fo[t] == i);
            assert(fo.contains(i));
            lemma_freed_from_entries(before.entries(), i);
            before.lemma_entries_are_elements();
            let j = choose|j: int| 0 <= j < before.entries().len() && (#[trigger] before.entries()[j]).0.0 == i;
            let k = before.entries()[j].0;
            assert(before@.dom().contains(k));
            before.lemma_valid_keys(k);
        } else {
            assert(before.free_list()[t - fo.len()] == i);
            assert(before.free_list().contains(i));
        }
    }
}

/// The entries that iteration yields are the elements, each once, in
/// increasing slot order, and there are as many of them as elements.
pub proof fn law_entries_are_the_elements<T>(a: Arena<T>)
    requires
        a.wf(),
    ensures
        a.entries().len() == a@.dom().len(),
        forall|j: int| 0 <= j < a.entries().len() ==> a@.dom().contains(#[trigger] a.entries()[j].0)
            && a@[a.entries()[j].0] == a.entries()[j].1,
        forall|x: int, y: int| 0 <= x < y < a.entries().len() ==> (#[trigger] a.entries()[x]).0.0 < (#[trigger] a.entries()[y]).0.0,
        forall|k: (usize, usize)| #[trigger] a@.dom().contains(k) ==> exists|j: int| 0 <= j < a.entries().len() && #[trigger] a.entries()[j].0 == k,
{
    a.lemma_entries_are_elements();
    a.lemma_entries_len();
}

/// `after` is `before` with the element under `key` changed to `value` in
/// place, as `get_mut` leaves it.
pub open spec fn is_update_of<T>(before: Arena<T>, after: Arena<T>, key: (usize, usize), value: T) -> bool {
    &&& after.wf()
    &&& before@.dom().contains(key)
    &&& after@ == before@.insert(key, value)
    &&& after.versions() == before.versions()
    &&& after.free_list() == before.free_list()
}

/// `after` is what `retain` leaves of `before`.
pub open spec fn is_retain_of<T>(before: Arena<T>, after: Arena<T>) -> bool {
    &&& after.wf()
    &&& forall|k: (usize, usize)| #[trigger] after@.dom().contains(k) ==> before@.dom().contains(k)
    &&& after.versions() == versions_after_removal(before, |k: (usize, usize)| after@.dom().contains(k))
    &&& forall|x: usize| #[trigger] after.free_list().contains(x) ==> before.free_list().contains(x)
        || (x < before.versions().len() && before@.dom().contains((x, before.versions()[x as int]))
            && !after@.dom().contains((x, before.versions()[x as int])))
}

/// `after` is what `drain` leaves of `before`.
pub open spec fn is_drain_of<T>(before: Arena<T>, after: Arena<T>) -> bool {
    &&& after.wf()
    &&& after@ == Map::<(usize, usize), T>::empty()
    &&& after.free_list() == freed_order(before.entries()) + before.free_list()
    &&& after.versions() == versions_after_removal(before, |k: (usize, usize)| false)
}

/// `after` follows `before` by one call of `insert`, `insert_with_key`,
/// `remove`, `get_mut`, `retain` or `drain`.
pub open spec fn is_call_step<T>(before: Arena<T>, after: Arena<T>) -> bool {
    ||| exists|k: (usize, usize), v: T| #[trigger] is_insert_of(before, after, k, v)
    ||| exists|k: (usize, usize), r: Option<T>| #[trigger] is_remove_of(before, after, k, r)
    ||| exists|k: (usize, usize), v: T| #[trigger] is_update_of(before, after, k, v)
    ||| is_retain_of(before, after)
    ||| is_drain_of(before, after)
}

/// Along any sequence of such calls, a stale key stays stale, so it names
/// no element at the end.
pub proof fn law_stale_across_calls<T>(trace: Seq<Arena<T>>, stale: (usize, usize))
    requires
        trace.len() > 0,
        trace[0].wf(),
        forall|i: int| 0 <= i < trace.len() - 1 ==> #[trigger] is_call_step(trace[i], trace[i + 1]),
        is_stale(trace[0], stale),
    ensures
        trace.last().wf(),
        is_stale(trace.last(), stale),
        !trace.last()@.dom().contains(stale),
    decreases trace.len(),
{
    if trace.len() > 1 {
        let prev = trace.drop_last();
        assert forall|i: int| 0 <= i < prev.len() - 1 implies #[trigger] is_call_step(prev[i], prev[i + 1]) by {
            assert(prev[i] == trace[i] && prev[i + 1] == trace[i + 1]);
            assert(is_call_step(trace[i], trace[i + 1]));
        }
        law_stale_across_calls(prev, stale);
        let a = prev.last();
        let b = trace.last();
        assert(a == trace[trace.len() - 2]);
        assert(is_call_step(trace[trace.len() - 2], trace[trace.len() - 2 + 1]));
        if exists|k: (usize, usize), v: T| #[trigger] is_insert_of(a, b, k, v) {
            let (k, v) = choose|k: (usize, usize), v: T| #[trigger] is_insert_of(a, b, k, v);
            law_insert_keeps_stale(a, b, k, v, stale);
        } else if exists|k: (usize, usize), r: Option<T>| #[trigger] is_remove_of(a, b, k, r) {
            let (k, r) = choose|k: (usize, usize), r: Option<T>| #[trigger] is_remove_of(a, b, k, r);
            law_remove_keeps_stale(a, b, k, r, stale);
        } else if exists|k: (usize, usize), v: T| #[trigger] is_update_of(a, b, k, v) {
            let (k, v) = choose|k: (usize, usize), v: T| #[trigger] is_update_of(a, b, k, v);
            law_get_mut_keeps_stale(a, b, k, v, stale);
        } else if is_retain_of(a, b) {
            law_retain_keeps_stale(a, b, stale);
        } else {
            law_drain_keeps_stale(a, b, stale);
        }
    }
}

} // verus!
