//! Register allocation: a linear scan over the live ranges of each operand
//! type, giving values whose ranges overlap different registers.

use vstd::prelude::*;
use vstd::std_specs::cmp::PartialEqSpec;

use crate::analyzer::analyses::value_liveness::{
    is_scheduled_liveness_of, scheduled_liveness_fails, LiveRange, SubcircuitLiveness, ValueLiveness,
};
use crate::analyzer::results::{lemma_result_for_subcircuit, lookup, pairs, result_for};
use crate::arena::key::Key;
use crate::circuit::subcircuit::{CircuitId, Subcircuit};
use crate::circuit::value::{Value, ValueId};
use crate::circuit::Circuit;
use crate::error::{Error, Result};
use crate::gate::Gate;

verus! {

/// `==` on `T` is equality.
pub open spec fn lawful_eq<T: PartialEq>() -> bool {
    &&& T::obeys_eq_spec()
    &&& forall|a: T, b: T| #[trigger] a.eq_spec(&b) <==> a == b
}

/// Two live ranges share a position.
pub open spec fn overlap(a: LiveRange, b: LiveRange) -> bool {
    a.birth < b.death && b.birth < a.death
}

/// The id of the value in slot `j` of `sub`.
pub open spec fn value_id_at<G: Gate>(sub: Subcircuit<G>, j: int) -> ValueId {
    ValueId { circuit: sub.circuit_id(), value: Key::from_view(sub.values().entries()[j].0) }
}

/// Register assignments and peak register counts of one subcircuit.
pub struct SubcircuitAllocation<G: Gate> {
    assignments: Vec<(ValueId, usize)>,
    peak_usage: Vec<(G::Operand, usize)>,
}

impl<G: Gate> SubcircuitAllocation<G> {
    /// The register of each value, by value in slot order.
    pub closed spec fn assigned(&self) -> Seq<(ValueId, usize)> {
        self.assignments@
    }

    /// The number of registers used for each operand type, by type in
    /// order of first appearance.
    pub closed spec fn peaks(&self) -> Seq<(G::Operand, usize)> {
        self.peak_usage@
    }

    /// The register of a value.
    pub fn get(&self, value: ValueId) -> (r: Option<usize>)
        ensures
            r == result_for(self.assigned(), value),
    {
        let mut k: usize = 0;
        while k < self.assignments.len()
            invariant
                k <= self.assignments@.len(),
                forall|j: int| 0 <= j < k ==> self.assignments@[j].0 != value,
            decreases self.assignments@.len() - k,
        {
            if self.assignments[k].0 == value {
                proof {
                    assert(self.assigned()[k as int].0 == value);
                    let c = choose|c: int|
                        0 <= c < self.assigned().len() && (#[trigger] self.assigned()[c]).0 == value && forall|j: int|
                            0 <= j < c ==> self.assigned()[j].0 != value;
                    assert(c == k);
                }
                return Some(self.assignments[k].1);
            }
            k = k + 1;
        }
        None
    }

    /// All register assignments, by value in slot order.
    pub fn all_assignments(&self) -> (r: &[(ValueId, usize)])
        ensures
            r@ == self.assigned(),
    {
        self.assignments.as_slice()
    }

    /// All register assignments, by value in slot order, one by one.
    pub fn iter(&self) -> (r: Vec<(ValueId, usize)>)
        ensures
            r@ == self.assigned(),
    {
        let mut r: Vec<(ValueId, usize)> = Vec::with_capacity(self.assignments.len());
        let mut k: usize = 0;
        while k < self.assignments.len()
            invariant
                k <= self.assignments@.len(),
                r@ == self.assignments@.take(k as int),
            decreases self.assignments@.len() - k,
        {
            r.push(self.assignments[k]);
            proof {
                assert(r@ =~= self.assignments@.take(k as int + 1));
            }
            k = k + 1;
        }
        proof {
            assert(self.assignments@.take(k as int) =~= self.assignments@);
        }
        r
    }

    /// The number of registers used for an operand type; zero for a type
    /// no value has.
    pub fn peak_for_type(&self, ty: G::Operand) -> (r: usize)
        ensures
            lawful_eq::<G::Operand>() ==> r == match result_for(self.peaks(), ty) {
                Some(n) => n,
                None => 0,
            },
    {
        let mut k: usize = 0;
        while k < self.peak_usage.len()
            invariant
                k <= self.peak_usage@.len(),
                lawful_eq::<G::Operand>() ==> forall|j: int| 0 <= j < k ==> self.peak_usage@[j].0 != ty,
            decreases self.peak_usage@.len() - k,
        {
            if self.peak_usage[k].0 == ty {
                proof {
                    if lawful_eq::<G::Operand>() {
                    assert(self.peaks()[k as int].0 == ty);
                    let c = choose|c: int|
                        0 <= c < self.peaks().len() && (#[trigger] self.peaks()[c]).0 == ty && forall|j: int|
                            0 <= j < c ==> self.peaks()[j].0 != ty;
                    assert(c == k);
                    }
                }
                return self.peak_usage[k].1;
            }
            k = k + 1;
        }
        0
    }

    /// The number of registers used for each operand type.
    pub fn peak_usage(&self) -> (r: &[(G::Operand, usize)])
        ensures
            r@ == self.peaks(),
    {
        self.peak_usage.as_slice()
    }
}

/// `alloc` is a valid register allocation of the values of `sub` with the
/// live ranges `ranges`: one register per value, in slot order; values of
/// the same type whose ranges overlap get different registers; each type
/// uses exactly the registers below its peak.
pub open spec fn is_allocation<G: Gate>(sub: Subcircuit<G>, ranges: Seq<(ValueId, LiveRange)>, alloc: SubcircuitAllocation<G>) -> bool {
    let entries = sub.values().entries();
    let n = entries.len();
    let a = alloc.assigned();
    let p = alloc.peaks();
    &&& a.len() == n
    &&& forall|i: int| 0 <= i < n ==> (#[trigger] a[i]).0 == value_id_at(sub, i)
    &&& forall|i: int, j: int|
        0 <= i < n && 0 <= j < n && i != j && entries[i].1.value_type() == entries[j].1.value_type() && overlap(
            result_for(ranges, value_id_at(sub, i))->0,
            result_for(ranges, value_id_at(sub, j))->0,
        ) ==> (#[trigger] a[i]).1 != (#[trigger] a[j]).1
    &&& forall|g: int, h: int| 0 <= g < h < p.len() ==> p[g].0 != p[h].0
    &&& forall|i: int| 0 <= i < n ==> has_peak(p, entries[i].1.value_type(), (#[trigger] a[i]).1)
    &&& forall|g: int, r: int| 0 <= g < p.len() && 0 <= r < p[g].1 ==> #[trigger] register_used(sub, a, p[g].0, r)
    &&& forall|i: int, j: int|
        0 <= i < n && 0 <= j < n && entries[i].1.value_type() == entries[j].1.value_type() && scanned_first(sub, ranges, j, i)
            && (#[trigger] a[j]).1 == (#[trigger] a[i]).1 ==> range_at(sub, ranges, j).death <= range_at(sub, ranges, i).birth
    &&& forall|i: int, r: int| 0 <= i < n && 0 <= r < a[i].1 ==> #[trigger] register_busy(sub, ranges, a, i, r)
}

/// The live range of the value in slot `i` of `sub`.
pub open spec fn range_at<G: Gate>(sub: Subcircuit<G>, ranges: Seq<(ValueId, LiveRange)>, i: int) -> LiveRange {
    result_for(ranges, value_id_at(sub, i))->0
}

/// The value in slot `j` is allocated before the one in slot `i`: it is
/// born first, or at the same position and in an earlier slot.
pub open spec fn scanned_first<G: Gate>(sub: Subcircuit<G>, ranges: Seq<(ValueId, LiveRange)>, j: int, i: int) -> bool {
    range_at(sub, ranges, j).birth < range_at(sub, ranges, i).birth || (range_at(sub, ranges, j).birth
        == range_at(sub, ranges, i).birth && j < i)
}

/// At the birth of the value in slot `i`, register `r` of its type is held
/// by a value of that type allocated before it and still live.
pub open spec fn register_busy<G: Gate>(sub: Subcircuit<G>, ranges: Seq<(ValueId, LiveRange)>, a: Seq<(ValueId, usize)>, i: int, r: int) -> bool {
    exists|j: int|
        0 <= j < sub.values().entries().len() && sub.values().entries()[j].1.value_type() == sub.values().entries()[i].1.value_type()
            && scanned_first(sub, ranges, j, i) && (#[trigger] a[j]).1 == r && range_at(sub, ranges, j).death > range_at(
            sub,
            ranges,
            i,
        ).birth
}

/// Type `ty` has a peak above register `r`.
pub open spec fn has_peak<T>(p: Seq<(T, usize)>, ty: T, r: usize) -> bool {
    exists|g: int| 0 <= g < p.len() && (#[trigger] p[g]).0 == ty && r < p[g].1
}

/// Some value of type `ty` is assigned register `r`.
pub open spec fn register_used<G: Gate>(sub: Subcircuit<G>, a: Seq<(ValueId, usize)>, ty: G::Operand, r: int) -> bool {
    exists|i: int| 0 <= i < sub.values().entries().len() && sub.values().entries()[i].1.value_type() == ty && (#[trigger] a[i]).1 == r
}

/// Some value of `s` holds register `r`.
pub open spec fn held_by(s: Seq<usize>, regs: Seq<usize>, r: int) -> bool {
    exists|k: int| 0 <= k < s.len() && regs[#[trigger] s[k] as int] == r
}

/// Value `x` is scanned before value `y`: it is born first, or at the same
/// position and listed first.
pub open spec fn scanned_before(births: Seq<usize>, x: usize, y: usize) -> bool {
    births[x as int] < births[y as int] || (births[x as int] == births[y as int] && x < y)
}

/// Register `r` is held, at the birth of `scanned[i]`, by a value scanned
/// before it that is still live.
pub open spec fn busy_before(scanned: Seq<usize>, regs: Seq<usize>, births: Seq<usize>, deaths: Seq<usize>, i: int, r: int) -> bool {
    exists|j: int| 0 <= j < i && regs[#[trigger] scanned[j] as int] == r && deaths[scanned[j] as int] > births[scanned[i] as int]
}

/// Register `r` is held, at the birth of `members[k]`, by a member scanned
/// before it that is still live.
pub open spec fn busy_at(members: Seq<usize>, regs: Seq<usize>, births: Seq<usize>, deaths: Seq<usize>, k: int, r: int) -> bool {
    exists|l: int|
        0 <= l < members.len() && scanned_before(births, members[l], members[k]) && regs[#[trigger] members[l] as int] == r
            && deaths[members[l] as int] > births[members[k] as int]
}

/// Register `q`'s latest holder among `scanned` dies at `d`.
pub open spec fn holder_dies_at(scanned: Seq<usize>, regs: Seq<usize>, deaths: Seq<usize>, q: int, d: usize) -> bool {
    exists|k: int| 0 <= k < scanned.len() && regs[#[trigger] scanned[k] as int] == q && deaths[scanned[k] as int] == d
}

/// Gives each value of `members` a register: in order of birth, earlier
/// listed first among equal births, each value takes the lowest register
/// whose holder is dead by its birth, or a new one. Returns the number of
/// registers used.
#[verifier::rlimit(100)]
#[verifier::spinoff_prover]
fn linear_scan(births: &Vec<usize>, deaths: &Vec<usize>, members: &Vec<usize>, regs: &mut Vec<usize>) -> (peak: usize)
    requires
        births@.len() == deaths@.len(),
        old(regs)@.len() == births@.len(),
        members@.no_duplicates(),
        forall|k: int, l: int| 0 <= k < l < members@.len() ==> members@[k] < members@[l],
        forall|k: int| 0 <= k < members@.len() ==> #[trigger] members@[k] < births@.len(),
    ensures
        final(regs)@.len() == old(regs)@.len(),
        forall|k: int, l: int|
            0 <= k < members@.len() && 0 <= l < members@.len() && scanned_before(births@, members@[l], members@[k])
                && final(regs)@[#[trigger] members@[l] as int] == final(regs)@[#[trigger] members@[k] as int]
                ==> deaths@[members@[l] as int] <= births@[members@[k] as int],
        forall|k: int, r: int|
            0 <= k < members@.len() && 0 <= r < final(regs)@[members@[k] as int] ==> #[trigger] busy_at(members@, final(regs)@, births@, deaths@, k, r),
        forall|i: int| 0 <= i < final(regs)@.len() && !members@.contains(i as usize) ==> #[trigger] final(regs)@[i] == old(regs)@[i],
        forall|k: int| 0 <= k < members@.len() ==> final(regs)@[#[trigger] members@[k] as int] < peak,
        forall|k: int, l: int|
            0 <= k < members@.len() && 0 <= l < members@.len() && k != l && births@[members@[k] as int] < deaths@[members@[l] as int]
                && births@[members@[l] as int] < deaths@[members@[k] as int] ==> final(regs)@[#[trigger] members@[k] as int]
                != final(regs)@[#[trigger] members@[l] as int],
        forall|r: int| 0 <= r < peak ==> #[trigger] held_by(members@, final(regs)@, r),
{
    let mut remaining: Vec<usize> = Vec::new();
    let mut m: usize = 0;
    while m < members.len()
        invariant
            m <= members@.len(),
            remaining@ == members@.take(m as int),
        decreases members@.len() - m,
    {
        remaining.push(members[m]);
        proof {
            assert(remaining@ =~= members@.take(m as int + 1));
        }
        m = m + 1;
    }
    proof {
        assert(members@.take(members@.len() as int) =~= members@);
    }
    // the death of each register's current holder
    let mut holder_death: Vec<usize> = Vec::new();
    let mut now: usize = 0;
    let ghost mut scanned: Seq<usize> = Seq::empty();
    while remaining.len() > 0
        invariant
            births@.len() == deaths@.len(),
            regs@.len() == births@.len(),
            members@.no_duplicates(),
            forall|k: int| 0 <= k < members@.len() ==> #[trigger] members@[k] < births@.len(),
            remaining@.no_duplicates(),
            forall|x: usize| #[trigger] members@.contains(x) <==> (remaining@.contains(x) || scanned.contains(x)),
            forall|x: usize| #[trigger] scanned.contains(x) ==> !remaining@.contains(x),
            scanned.no_duplicates(),
            holder_death@.len() <= scanned.len(),
            scanned.len() + remaining@.len() == members@.len(),
            forall|i: int| 0 <= i < regs@.len() && !scanned.contains(i as usize) ==> #[trigger] regs@[i] == old(regs)@[i],
            forall|k: int| 0 <= k < remaining@.len() ==> births@[#[trigger] remaining@[k] as int] >= now,
            forall|k: int| 0 <= k < scanned.len() ==> #[trigger] scanned[k] < births@.len(),
            forall|k: int| 0 <= k < scanned.len() ==> regs@[#[trigger] scanned[k] as int] < holder_death@.len(),
            forall|k: int| 0 <= k < scanned.len() ==> births@[#[trigger] scanned[k] as int] <= now,
            forall|k: int|
                0 <= k < scanned.len() ==> holder_death@[regs@[#[trigger] scanned[k] as int] as int] == deaths@[scanned[k] as int]
                    || deaths@[scanned[k] as int] <= now,
            forall|k: int, l: int|
                0 <= k < scanned.len() && 0 <= l < scanned.len() && k != l && births@[scanned[k] as int] < deaths@[scanned[l] as int]
                    && births@[scanned[l] as int] < deaths@[scanned[k] as int] ==> regs@[#[trigger] scanned[k] as int]
                    != regs@[#[trigger] scanned[l] as int],
            forall|r: int| 0 <= r < holder_death@.len() ==> #[trigger] held_by(scanned, regs@, r),
            forall|i: int, j: int| 0 <= i < j < remaining@.len() ==> remaining@[i] < remaining@[j],
            forall|i: int, j: int| 0 <= i < j < scanned.len() ==> scanned_before(births@, #[trigger] scanned[i], #[trigger] scanned[j]),
            forall|i: int, j: int|
                0 <= i < scanned.len() && 0 <= j < remaining@.len() ==> scanned_before(births@, #[trigger] scanned[i], #[trigger] remaining@[j]),
            forall|q: int| 0 <= q < holder_death@.len() ==> holder_dies_at(scanned, regs@, deaths@, q, #[trigger] holder_death@[q]),
            forall|i: int, j: int|
                0 <= j < i < scanned.len() && regs@[#[trigger] scanned[j] as int] == regs@[#[trigger] scanned[i] as int]
                    ==> deaths@[scanned[j] as int] <= births@[scanned[i] as int],
            forall|i: int, r: int|
                0 <= i < scanned.len() && 0 <= r < regs@[scanned[i] as int] ==> #[trigger] busy_before(scanned, regs@, births@, deaths@, i, r),
        decreases remaining@.len(),
    {
        proof {
            assert forall|j: int| 0 <= j < remaining@.len() implies (#[trigger] remaining@[j]) < births@.len() by {
                assert(remaining@.contains(remaining@[j]));
                assert(members@.contains(remaining@[j]));
                let q = choose|q: int| 0 <= q < members@.len() && members@[q] == remaining@[j];
            }
        }
        // the remaining value born first, the earliest listed among equals
        let mut best: usize = 0;
        let mut k: usize = 1;
        while k < remaining.len()
            invariant
                births@.len() == deaths@.len(),
                remaining@.len() > 0,
                forall|j: int| 0 <= j < remaining@.len() ==> (#[trigger] remaining@[j]) < births@.len(),
                1 <= k <= remaining@.len(),
                best < k,
                forall|j: int| 0 <= j < k ==> births@[remaining@[best as int] as int] <= births@[(#[trigger] remaining@[j]) as int],
                forall|j: int| 0 <= j < k && births@[(#[trigger] remaining@[j]) as int] == births@[remaining@[best as int] as int] ==> best <= j,
            decreases remaining@.len() - k,
        {
            if births[remaining[k]] < births[remaining[best]] {
                best = k;
            }
            k = k + 1;
        }
        let ghost rem_before = remaining@;
        let w = remaining.remove(best);
        let b = births[w];
        let d = deaths[w];
        proof {
            assert(rem_before[best as int] == w);
            assert(rem_before.contains(w));
            assert forall|x: usize| #[trigger] remaining@.contains(x) <==> (rem_before.contains(x) && x != w) by {
                if remaining@.contains(x) {
                    let j = choose|j: int| 0 <= j < remaining@.len() && remaining@[j] == x;
                    if j < best {
                        assert(rem_before[j] == x);
                    } else {
                        assert(rem_before[j + 1] == x);
                    }
                }
                if rem_before.contains(x) && x != w {
                    let j = choose|j: int| 0 <= j < rem_before.len() && rem_before[j] == x;
                    if j < best {
                        assert(remaining@[j] == x);
                    } else {
                        assert(j != best);
                        assert(remaining@[j - 1] == x);
                    }
                }
            }
        }
        // the lowest register whose holder is dead by this birth
        let mut r: usize = 0;
        while r < holder_death.len() && holder_death[r] > b
            invariant
                r <= holder_death@.len(),
                forall|q: int| 0 <= q < r ==> #[trigger] holder_death@[q] > b,
            decreases holder_death@.len() - r,
        {
            r = r + 1;
        }
        let ghost hd_before = holder_death@;
        let ghost regs_before = regs@;
        if r < holder_death.len() {
            holder_death.set(r, d);
        } else {
            holder_death.push(d);
        }
        regs.set(w, r);
        let ghost old_now = now;
        now = b;
        proof {
            let old_scanned = scanned;
            scanned = scanned.push(w);
            assert(!old_scanned.contains(w));
            assert forall|k: int| 0 <= k < old_scanned.len() implies regs@[#[trigger] old_scanned[k] as int] == regs_before[old_scanned[k] as int] by {
                assert(old_scanned[k] != w);
            }
            assert forall|k: int, l: int|
                0 <= k < scanned.len() && 0 <= l < scanned.len() && k != l && births@[scanned[k] as int] < deaths@[scanned[l] as int]
                    && births@[scanned[l] as int] < deaths@[scanned[k] as int] implies regs@[#[trigger] scanned[k] as int]
                    != regs@[#[trigger] scanned[l] as int] by {
                if k < old_scanned.len() && l < old_scanned.len() {
                    assert(scanned[k] == old_scanned[k] && scanned[l] == old_scanned[l]);
                } else if k < old_scanned.len() {
                    let u = old_scanned[k];
                    assert(scanned[k] == u && scanned[l] == w);
                    assert(regs_before[u as int] < hd_before.len());
                    if r < hd_before.len() && regs_before[u as int] == r {
                        assert(hd_before[r as int] <= b);
                    }
                } else if l < old_scanned.len() {
                    let u = old_scanned[l];
                    assert(scanned[l] == u && scanned[k] == w);
                    assert(regs_before[u as int] < hd_before.len());
                    if r < hd_before.len() && regs_before[u as int] == r {
                        assert(hd_before[r as int] <= b);
                    }
                }
            }
            assert forall|k: int| 0 <= k < scanned.len() implies holder_death@[regs@[#[trigger] scanned[k] as int] as int] == deaths@[scanned[k] as int]
                || deaths@[scanned[k] as int] <= now by {
                if k < old_scanned.len() {
                    let u = old_scanned[k];
                    assert(scanned[k] == u);
                    if regs_before[u as int] == r && r < hd_before.len() {
                        assert(hd_before[r as int] <= b);
                    }
                }
            }
            assert forall|rr: int| 0 <= rr < holder_death@.len() implies #[trigger] held_by(scanned, regs@, rr) by {
                if rr == r {
                    assert(regs@[scanned[old_scanned.len() as int] as int] == rr);
                } else {
                    assert(held_by(old_scanned, regs_before, rr));
                    let k = choose|k: int| 0 <= k < old_scanned.len() && regs_before[#[trigger] old_scanned[k] as int] == rr;
                    assert(scanned[k] == old_scanned[k]);
                }
            }
            assert forall|x: usize| #[trigger] members@.contains(x) <==> (remaining@.contains(x) || scanned.contains(x)) by {
                if scanned.contains(x) && x != w {
                    let j = choose|j: int| 0 <= j < scanned.len() && scanned[j] == x;
                    assert(old_scanned[j] == x);
                }
                if old_scanned.contains(x) {
                    let j = choose|j: int| 0 <= j < old_scanned.len() && old_scanned[j] == x;
                    assert(scanned[j] == x);
                }
                if x == w {
                    assert(scanned[old_scanned.len() as int] == w);
                }
            }
            assert forall|x: usize| #[trigger] scanned.contains(x) implies !remaining@.contains(x) by {
                if x != w {
                    let j = choose|j: int| 0 <= j < scanned.len() && scanned[j] == x;
                    assert(old_scanned[j] == x);
                }
            }
            assert forall|k: int| 0 <= k < remaining@.len() implies births@[#[trigger] remaining@[k] as int] >= now by {
                assert(rem_before.contains(remaining@[k]));
                let j = choose|j: int| 0 <= j < rem_before.len() && rem_before[j] == remaining@[k];
                assert(births@[rem_before[best as int] as int] <= births@[rem_before[j] as int]);
            }
            assert(scanned[old_scanned.len() as int] == w);
            assert(scanned.contains(w));
            assert forall|i: int| 0 <= i < regs@.len() && !scanned.contains(i as usize) implies #[trigger] regs@[i] == old(regs)@[i] by {
                assert(i != w);
                if old_scanned.contains(i as usize) {
                    let j = choose|j: int| 0 <= j < old_scanned.len() && old_scanned[j] == i as usize;
                    assert(scanned[j] == i as usize);
                }
            }
            let n = old_scanned.len() as int;
            assert forall|i: int, j: int| 0 <= i < j < remaining@.len() implies remaining@[i] < remaining@[j] by {
                let i0 = if i < best { i } else { i + 1 };
                let j0 = if j < best { j } else { j + 1 };
                assert(remaining@[i] == rem_before[i0]);
                assert(remaining@[j] == rem_before[j0]);
            }
            assert forall|i: int, j: int| 0 <= i < j < scanned.len() implies scanned_before(births@, #[trigger] scanned[i], #[trigger] scanned[j]) by {
                assert(scanned[i] == old_scanned[i]);
                if j < n {
                    assert(scanned[j] == old_scanned[j]);
                } else {
                    assert(scanned[j] == rem_before[best as int]);
                }
            }
            assert forall|i: int, j: int|
                0 <= i < scanned.len() && 0 <= j < remaining@.len() implies scanned_before(births@, #[trigger] scanned[i], #[trigger] remaining@[j]) by {
                let j0 = if j < best { j } else { j + 1 };
                assert(remaining@[j] == rem_before[j0]);
                if i < n {
                    assert(scanned[i] == old_scanned[i]);
                } else {
                    assert(scanned[i] == w);
                    assert(births@[rem_before[best as int] as int] <= births@[rem_before[j0] as int]);
                    if births@[rem_before[j0] as int] == births@[w as int] {
                        assert(best <= j0);
                        assert(best < j0);
                    }
                }
            }
            assert forall|q: int| 0 <= q < holder_death@.len() implies holder_dies_at(scanned, regs@, deaths@, q, #[trigger] holder_death@[q]) by {
                if q == r {
                    assert(regs@[scanned[n] as int] == q);
                } else {
                    assert(holder_dies_at(old_scanned, regs_before, deaths@, q, hd_before[q]));
                    let k = choose|k: int| 0 <= k < old_scanned.len() && regs_before[#[trigger] old_scanned[k] as int] == q
                        && deaths@[old_scanned[k] as int] == hd_before[q];
                    assert(scanned[k] == old_scanned[k]);
                }
            }
            assert forall|i: int, j: int|
                0 <= j < i < scanned.len() && regs@[#[trigger] scanned[j] as int] == regs@[#[trigger] scanned[i] as int]
                    implies deaths@[scanned[j] as int] <= births@[scanned[i] as int] by {
                assert(scanned[j] == old_scanned[j]);
                if i < n {
                    assert(scanned[i] == old_scanned[i]);
                } else {
                    let u = old_scanned[j];
                    assert(regs_before[u as int] < hd_before.len());
                    assert(regs@[u as int] == r);
                    assert(r < hd_before.len());
                    assert(hd_before[r as int] <= b);
                }
            }
            assert forall|i: int, rr: int|
                0 <= i < scanned.len() && 0 <= rr < regs@[scanned[i] as int] implies #[trigger] busy_before(scanned, regs@, births@, deaths@, i, rr) by {
                if i < n {
                    assert(scanned[i] == old_scanned[i]);
                    assert(busy_before(old_scanned, regs_before, births@, deaths@, i, rr));
                    let j = choose|j: int|
                        0 <= j < i && regs_before[#[trigger] old_scanned[j] as int] == rr && deaths@[old_scanned[j] as int] > births@[old_scanned[i] as int];
                    assert(scanned[j] == old_scanned[j]);
                } else {
                    assert(scanned[i] == w);
                    assert(hd_before[rr] > b);
                    assert(holder_dies_at(old_scanned, regs_before, deaths@, rr, hd_before[rr]));
                    let k = choose|k: int| 0 <= k < old_scanned.len() && regs_before[#[trigger] old_scanned[k] as int] == rr
                        && deaths@[old_scanned[k] as int] == hd_before[rr];
                    assert(scanned[k] == old_scanned[k]);
                }
            }
        }
    }
    proof {
        assert forall|k: int| 0 <= k < members@.len() implies scanned.contains(#[trigger] members@[k]) by {
            assert(members@.contains(members@[k]));
        }
    }
    let peak = holder_death.len();
    proof {
        assert forall|k: int, r: int|
            0 <= k < members@.len() && 0 <= r < regs@[members@[k] as int] implies #[trigger] busy_at(members@, regs@, births@, deaths@, k, r) by {
            assert(members@.contains(members@[k]));
            assert(scanned.contains(members@[k]));
            let a = choose|a: int| 0 <= a < scanned.len() && scanned[a] == members@[k];
            assert(busy_before(scanned, regs@, births@, deaths@, a, r));
            let j = choose|j: int| 0 <= j < a && regs@[#[trigger] scanned[j] as int] == r && deaths@[scanned[j] as int] > births@[scanned[a] as int];
            assert(scanned_before(births@, scanned[j], scanned[a]));
            assert(scanned.contains(scanned[j]));
            assert(members@.contains(scanned[j]));
            let l = choose|l: int| 0 <= l < members@.len() && members@[l] == scanned[j];
            assert(regs@[members@[l] as int] == r);
        }
        assert forall|k: int| 0 <= k < members@.len() implies regs@[#[trigger] members@[k] as int] < peak by {
            assert(scanned.contains(members@[k]));
            let j = choose|j: int| 0 <= j < scanned.len() && scanned[j] == members@[k];
        }
        assert forall|k: int, l: int|
            0 <= k < members@.len() && 0 <= l < members@.len() && k != l && births@[members@[k] as int] < deaths@[members@[l] as int]
                && births@[members@[l] as int] < deaths@[members@[k] as int] implies regs@[#[trigger] members@[k] as int]
                != regs@[#[trigger] members@[l] as int] by {
            assert(scanned.contains(members@[k]));
            assert(scanned.contains(members@[l]));
            let a = choose|a: int| 0 <= a < scanned.len() && scanned[a] == members@[k];
            let c = choose|c: int| 0 <= c < scanned.len() && scanned[c] == members@[l];
            assert(a != c);
        }
        assert forall|rr: int| 0 <= rr < peak implies #[trigger] held_by(members@, regs@, rr) by {
            assert(held_by(scanned, regs@, rr));
            let k = choose|k: int| 0 <= k < scanned.len() && regs@[#[trigger] scanned[k] as int] == rr;
            assert(members@.contains(scanned[k]));
            let j = choose|j: int| 0 <= j < members@.len() && members@[j] == scanned[k];
            assert(regs@[members@[j] as int] == rr);
        }
    }
    peak
}

/// The ranges of the values `0..n` of `sub` are all known.
pub open spec fn ranges_known<G: Gate>(sub: Subcircuit<G>, ranges: Seq<(ValueId, LiveRange)>, n: int) -> bool {
    forall|i: int| 0 <= i < n ==> (#[trigger] result_for(ranges, value_id_at(sub, i))) is Some
}

/// The registers of the listed values `members` of one type: conflict-free
/// and below `peak`, which they all use.
pub open spec fn group_allocated(
    births: Seq<usize>,
    deaths: Seq<usize>,
    members: Seq<usize>,
    regs: Seq<usize>,
    peak: usize,
) -> bool {
    &&& forall|k: int| 0 <= k < members.len() ==> regs[#[trigger] members[k] as int] < peak
    &&& forall|k: int, l: int|
        0 <= k < members.len() && 0 <= l < members.len() && k != l && births[members[k] as int] < deaths[members[l] as int]
            && births[members[l] as int] < deaths[members[k] as int] ==> regs[#[trigger] members[k] as int] != regs[#[trigger] members[l] as int]
    &&& forall|r: int| 0 <= r < peak ==> #[trigger] held_by(members, regs, r)
    &&& forall|k: int, l: int|
        0 <= k < members.len() && 0 <= l < members.len() && scanned_before(births, members[l], members[k])
            && regs[#[trigger] members[l] as int] == regs[#[trigger] members[k] as int] ==> deaths[members[l] as int] <= births[members[k] as int]
    &&& forall|k: int, r: int| 0 <= k < members.len() && 0 <= r < regs[members[k] as int] ==> #[trigger] busy_at(members, regs, births, deaths, k, r)
}

/// The values of group `g`, in slot order.
fn members_of(group_of: &Vec<usize>, g: usize) -> (r: Vec<usize>)
    ensures
        r@.no_duplicates(),
        forall|k: int, l: int| 0 <= k < l < r@.len() ==> r@[k] < r@[l],
        forall|k: int| 0 <= k < r@.len() ==> #[trigger] r@[k] < group_of@.len() && group_of@[r@[k] as int] == g,
        forall|i: int| 0 <= i < group_of@.len() && group_of@[i] == g ==> #[trigger] r@.contains(i as usize),
{
    let mut r: Vec<usize> = Vec::new();
    let mut i: usize = 0;
    while i < group_of.len()
        invariant
            i <= group_of@.len(),
            forall|k: int| 0 <= k < r@.len() ==> #[trigger] r@[k] < i && group_of@[r@[k] as int] == g,
            forall|k: int, l: int| 0 <= k < l < r@.len() ==> r@[k] < r@[l],
            forall|x: int| 0 <= x < i && group_of@[x] == g ==> #[trigger] r@.contains(x as usize),
        decreases group_of@.len() - i,
    {
        if group_of[i] == g {
            let ghost before = r@;
            r.push(i);
            proof {
                assert(r@ == before.push(i));
                assert forall|x: int| 0 <= x < i + 1 && group_of@[x] == g implies #[trigger] r@.contains(x as usize) by {
                    if x == i {
                        assert(r@[before.len() as int] == i);
                    } else {
                        assert(before.contains(x as usize));
                        let k = choose|k: int| 0 <= k < before.len() && before[k] == x as usize;
                        assert(r@[k] == x as usize);
                    }
                }
            }
        }
        i = i + 1;
    }
    r
}

/// Allocates registers to the values of a subcircuit from their live
/// ranges: a linear scan per operand type. Fails with the first value, in
/// slot order, that has no live range. Values are grouped by the operand
/// type's `==`; what is stated of the registers holds when that `==` is
/// equality of values (`lawful_eq`), as for derived `PartialEq`.
#[verifier::rlimit(100)]
#[verifier::spinoff_prover]
pub fn compute_register_allocation<G: Gate>(subcircuit: &Subcircuit<G>, liveness: &SubcircuitLiveness) -> (r: Result<SubcircuitAllocation<G>>)
    requires
        subcircuit.wf(),
    ensures
        r is Ok <==> ranges_known(*subcircuit, liveness.ranges(), subcircuit.values().entries().len() as int),
        r matches Ok(a) ==> (lawful_eq::<G::Operand>() ==> is_allocation(*subcircuit, liveness.ranges(), a)),
        r matches Err(e) ==> is_missing_range_error(*subcircuit, liveness.ranges(), e),
{
    let vals = subcircuit.all_values();
    let ghost entries = subcircuit.values().entries();
    let ghost ranges = liveness.ranges();
    let n = vals.len();
    let mut vids: Vec<ValueId> = Vec::with_capacity(n);
    let mut types: Vec<G::Operand> = Vec::with_capacity(n);
    let mut births: Vec<usize> = Vec::with_capacity(n);
    let mut deaths: Vec<usize> = Vec::with_capacity(n);
    let mut i: usize = 0;
    while i < n
        invariant
            n == vals@.len(),
            entries == subcircuit.values().entries(),
            ranges == liveness.ranges(),
            vals@.len() == entries.len(),
            forall|j: int| 0 <= j < vals@.len() ==> (#[trigger] vals@[j]).0 == value_id_at(*subcircuit, j) && *vals@[j].1 == entries[j].1,
            i <= n,
            vids@.len() == i,
            types@.len() == i,
            births@.len() == i,
            deaths@.len() == i,
            ranges_known(*subcircuit, ranges, i as int),
            forall|j: int| 0 <= j < i ==> #[trigger] vids@[j] == value_id_at(*subcircuit, j),
            forall|j: int| 0 <= j < i ==> #[trigger] types@[j] == entries[j].1.value_type(),
            forall|j: int| 0 <= j < i ==> #[trigger] births@[j] == result_for(ranges, value_id_at(*subcircuit, j))->0.birth,
            forall|j: int| 0 <= j < i ==> #[trigger] deaths@[j] == result_for(ranges, value_id_at(*subcircuit, j))->0.death,
        decreases n - i,
    {
        let (value_id, value) = vals[i];
        let range = match liveness.get(value_id) {
            Some(range) => *range,
            None => {
                proof {
                    assert(value_id == value_id_at(*subcircuit, i as int));
                    assert(result_for(liveness.ranges(), value_id_at(*subcircuit, i as int)) is None);
                    assert(ranges_known(*subcircuit, liveness.ranges(), i as int));
                }
                return Err(Error::ValueNotFound(value_id));
            },
        };
        vids.push(value_id);
        types.push(value.get_type());
        births.push(range.birth);
        deaths.push(range.death);
        proof {
            assert(value_id == value_id_at(*subcircuit, i as int));
            assert forall|j: int| 0 <= j < i + 1 implies (#[trigger] result_for(ranges, value_id_at(*subcircuit, j))) is Some by {
                if j < i {
                    assert(ranges_known(*subcircuit, ranges, i as int));
                }
            }
        }
        i = i + 1;
    }
    // group the values by type, types in order of first appearance
    let mut reps: Vec<G::Operand> = Vec::new();
    let mut group_of: Vec<usize> = Vec::with_capacity(n);
    let mut i: usize = 0;
    while i < n
        invariant
            n == types@.len(),
            i <= n,
            group_of@.len() == i,
            forall|j: int| 0 <= j < i ==> #[trigger] group_of@[j] < reps@.len(),
            lawful_eq::<G::Operand>() ==> forall|j: int| 0 <= j < i ==> reps@[#[trigger] group_of@[j] as int] == types@[j],
            lawful_eq::<G::Operand>() ==> forall|g: int, h: int| 0 <= g < h < reps@.len() ==> reps@[g] != reps@[h],
            reps@.len() <= i,
        decreases n - i,
    {
        let mut g: usize = 0;
        while g < reps.len() && !(reps[g] == types[i])
            invariant
                i < types@.len(),
                g <= reps@.len(),
                lawful_eq::<G::Operand>() ==> forall|h: int| 0 <= h < g ==> reps@[h] != types@[i as int],
            decreases reps@.len() - g,
        {
            g = g + 1;
        }
        if g == reps.len() {
            reps.push(types[i]);
        }
        group_of.push(g);
        i = i + 1;
    }
    // one linear scan per type
    let mut regs: Vec<usize> = Vec::with_capacity(n);
    let mut i: usize = 0;
    while i < n
        invariant
            i <= n,
            regs@.len() == i,
        decreases n - i,
    {
        regs.push(0);
        i = i + 1;
    }
    let mut peak_usage: Vec<(G::Operand, usize)> = Vec::with_capacity(reps.len());
    let ghost mut groups: Seq<Seq<usize>> = Seq::empty();
    let mut g: usize = 0;
    while g < reps.len()
        invariant
            n == types@.len(),
            births@.len() == n,
            deaths@.len() == n,
            regs@.len() == n,
            group_of@.len() == n,
            forall|j: int| 0 <= j < n ==> #[trigger] group_of@[j] < reps@.len(),
            lawful_eq::<G::Operand>() ==> forall|j: int| 0 <= j < n ==> reps@[#[trigger] group_of@[j] as int] == types@[j],
            g <= reps@.len(),
            peak_usage@.len() == g,
            groups.len() == g,
            forall|h: int| 0 <= h < g ==> (#[trigger] peak_usage@[h]).0 == reps@[h],
            forall|h: int| 0 <= h < g ==> forall|k: int| 0 <= k < (#[trigger] groups[h]).len() ==> groups[h][k] < n && group_of@[groups[h][k] as int] == h,
            forall|h: int, i: int| 0 <= h < g && 0 <= i < n && group_of@[i] == h ==> #[trigger] groups[h].contains(i as usize),
            forall|h: int| 0 <= h < g ==> #[trigger] group_allocated(births@, deaths@, groups[h], regs@, peak_usage@[h].1),
        decreases reps@.len() - g,
    {
        let members = members_of(&group_of, g);
        let ghost regs_before = regs@;
        let peak = linear_scan(&births, &deaths, &members, &mut regs);
        peak_usage.push((reps[g], peak));
        proof {
            let old_groups = groups;
            groups = groups.push(members@);
            assert forall|h: int| 0 <= h < g + 1 implies #[trigger] group_allocated(births@, deaths@, groups[h], regs@, peak_usage@[h].1) by {
                if h < g {
                    assert(groups[h] == old_groups[h]);
                    assert(group_allocated(births@, deaths@, old_groups[h], regs_before, peak_usage@[h].1));
                    // the scan left the other groups' registers alone
                    assert forall|k: int| 0 <= k < groups[h].len() implies regs@[#[trigger] groups[h][k] as int] == regs_before[groups[h][k] as int] by {
                        let x = groups[h][k];
                        if members@.contains(x) {
                            let q = choose|q: int| 0 <= q < members@.len() && members@[q] == x;
                        }
                    }
                    assert forall|r: int| 0 <= r < peak_usage@[h].1 implies #[trigger] held_by(groups[h], regs@, r) by {
                        assert(held_by(groups[h], regs_before, r));
                        let k = choose|k: int| 0 <= k < groups[h].len() && regs_before[#[trigger] groups[h][k] as int] == r;
                    }
                    assert forall|k: int, r: int| 0 <= k < groups[h].len() && 0 <= r < regs@[groups[h][k] as int]
                        implies #[trigger] busy_at(groups[h], regs@, births@, deaths@, k, r) by {
                        assert(busy_at(groups[h], regs_before, births@, deaths@, k, r));
                        let l = choose|l: int|
                            0 <= l < groups[h].len() && scanned_before(births@, groups[h][l], groups[h][k]) && regs_before[#[trigger] groups[h][l] as int] == r
                                && deaths@[groups[h][l] as int] > births@[groups[h][k] as int];
                    }
                } else {
                    assert(groups[h] == members@);
                }
            }
            assert forall|h: int, i: int| 0 <= h < g + 1 && 0 <= i < n && group_of@[i] == h implies #[trigger] groups[h].contains(i as usize) by {
                if h < g {
                    assert(groups[h] == old_groups[h]);
                }
            }
        }
        g = g + 1;
    }
    let mut assignments: Vec<(ValueId, usize)> = Vec::with_capacity(n);
    let mut i: usize = 0;
    while i < n
        invariant
            i <= n,
            vids@.len() == n,
            regs@.len() == n,
            assignments@.len() == i,
            forall|j: int| 0 <= j < i ==> #[trigger] assignments@[j] == (vids@[j], regs@[j]),
        decreases n - i,
    {
        assignments.push((vids[i], regs[i]));
        i = i + 1;
    }
    let a = SubcircuitAllocation { assignments, peak_usage };
    proof {
        if lawful_eq::<G::Operand>() {
        let asg = a.assigned();
        let p = a.peaks();
        assert forall|i: int, j: int|
            0 <= i < n && 0 <= j < n && i != j && entries[i].1.value_type() == entries[j].1.value_type() && overlap(
                result_for(ranges, value_id_at(*subcircuit, i))->0,
                result_for(ranges, value_id_at(*subcircuit, j))->0,
            ) implies (#[trigger] asg[i]).1 != (#[trigger] asg[j]).1 by {
            let h = group_of@[i] as int;
            assert(types@[i] == types@[j]);
            assert(group_of@[j] == h) by {
                assert(reps@[group_of@[j] as int] == types@[j]);
            }
            assert(groups[h].contains(i as usize));
            assert(groups[h].contains(j as usize));
            let k = choose|k: int| 0 <= k < groups[h].len() && groups[h][k] == i as usize;
            let l = choose|l: int| 0 <= l < groups[h].len() && groups[h][l] == j as usize;
            assert(group_allocated(births@, deaths@, groups[h], regs@, peak_usage@[h].1));
            assert(regs@[groups[h][k] as int] != regs@[groups[h][l] as int]);
        }
        assert forall|i: int| 0 <= i < n implies has_peak(p, entries[i].1.value_type(), (#[trigger] asg[i]).1) by {
            let h = group_of@[i] as int;
            assert(groups[h].contains(i as usize));
            let k = choose|k: int| 0 <= k < groups[h].len() && groups[h][k] == i as usize;
            assert(group_allocated(births@, deaths@, groups[h], regs@, peak_usage@[h].1));
            assert(p[h].0 == entries[i].1.value_type());
            assert(regs@[groups[h][k] as int] < peak_usage@[h].1);
            assert(asg[i] == (vids@[i], regs@[i]));
            assert(asg[i].1 < p[h].1);
        }
        assert forall|g: int, r: int| 0 <= g < p.len() && 0 <= r < p[g].1 implies #[trigger] register_used(*subcircuit, asg, p[g].0, r) by {
            assert(group_allocated(births@, deaths@, groups[g], regs@, peak_usage@[g].1));
            assert(held_by(groups[g], regs@, r));
            let k = choose|k: int| 0 <= k < groups[g].len() && regs@[#[trigger] groups[g][k] as int] == r;
            let x = groups[g][k] as int;
            assert(asg[x].1 == r);
            assert(entries[x].1.value_type() == p[g].0);
        }
        assert forall|i: int, j: int|
            0 <= i < n && 0 <= j < n && entries[i].1.value_type() == entries[j].1.value_type() && scanned_first(*subcircuit, ranges, j, i)
                && (#[trigger] asg[j]).1 == (#[trigger] asg[i]).1 implies range_at(*subcircuit, ranges, j).death <= range_at(*subcircuit, ranges, i).birth by {
            let h = group_of@[i] as int;
            assert(types@[i] == types@[j]);
            assert(group_of@[j] == h) by {
                assert(reps@[group_of@[j] as int] == types@[j]);
            }
            assert(groups[h].contains(i as usize));
            assert(groups[h].contains(j as usize));
            let k = choose|k: int| 0 <= k < groups[h].len() && groups[h][k] == i as usize;
            let l = choose|l: int| 0 <= l < groups[h].len() && groups[h][l] == j as usize;
            assert(group_allocated(births@, deaths@, groups[h], regs@, peak_usage@[h].1));
            assert(asg[i] == (vids@[i], regs@[i]));
            assert(asg[j] == (vids@[j], regs@[j]));
            assert(scanned_before(births@, groups[h][l], groups[h][k]));
        }
        assert forall|i: int, r: int| 0 <= i < n && 0 <= r < asg[i].1 implies #[trigger] register_busy(*subcircuit, ranges, asg, i, r) by {
            let h = group_of@[i] as int;
            assert(groups[h].contains(i as usize));
            let k = choose|k: int| 0 <= k < groups[h].len() && groups[h][k] == i as usize;
            assert(group_allocated(births@, deaths@, groups[h], regs@, peak_usage@[h].1));
            assert(asg[i] == (vids@[i], regs@[i]));
            assert(busy_at(groups[h], regs@, births@, deaths@, k, r));
            let l = choose|l: int|
                0 <= l < groups[h].len() && scanned_before(births@, groups[h][l], groups[h][k]) && regs@[#[trigger] groups[h][l] as int] == r
                    && deaths@[groups[h][l] as int] > births@[groups[h][k] as int];
            let j = groups[h][l] as int;
            assert(asg[j] == (vids@[j], regs@[j]));
            assert(group_of@[j] == h);
            assert(types@[j] == reps@[h]);
            assert(types@[i] == reps@[h]);
        }
        assert(n == entries.len());
        assert(is_allocation(*subcircuit, liveness.ranges(), a));
        }
    }
    Ok(a)
}

/// `e` names the first value of `sub`, in slot order, that `ranges` gives
/// no live range.
pub open spec fn is_missing_range_error<G: Gate>(sub: Subcircuit<G>, ranges: Seq<(ValueId, LiveRange)>, e: Error) -> bool {
    exists|i: int|
        0 <= i < sub.values().entries().len() && ranges_known(sub, ranges, i) && result_for(ranges, value_id_at(sub, i)) is None
            && e == Error::ValueNotFound(#[trigger] value_id_at(sub, i))
}

/// Allocating registers for `sub` from the live ranges `liveness` fails
/// with `e`: none of them has its id, or they miss one of its values.
pub open spec fn allocation_fails<G: Gate>(sub: Subcircuit<G>, liveness: Seq<(CircuitId, SubcircuitLiveness)>, e: Error) -> bool {
    match result_for(liveness, sub.circuit_id()) {
        None => e == Error::SubcircuitAnalysisMissing(sub.circuit_id()),
        Some(l) => is_missing_range_error(sub, l.ranges(), e),
    }
}

/// `a` allocates the registers of `sub` by the live ranges of a schedule
/// of it by priority.
pub open spec fn is_scheduled_allocation_of<G: Gate>(sub: Subcircuit<G>, a: SubcircuitAllocation<G>) -> bool {
    exists|l: SubcircuitLiveness| #[trigger] is_scheduled_liveness_of(sub, l) && is_allocation(sub, l.ranges(), a)
}

/// Scheduling `sub`, computing its live ranges and allocating its
/// registers fails with `e`.
pub open spec fn scheduled_allocation_fails<G: Gate>(sub: Subcircuit<G>, e: Error) -> bool {
    ||| scheduled_liveness_fails(sub, e)
    ||| exists|l: SubcircuitLiveness| #[trigger] is_scheduled_liveness_of(sub, l) && is_missing_range_error(sub, l.ranges(), e)
}

/// Register allocations of every subcircuit of a circuit.
pub struct RegisterAllocation<G: Gate> {
    results: Vec<(CircuitId, SubcircuitAllocation<G>)>,
}

impl<G: Gate> RegisterAllocation<G> {
    /// The results, in subcircuit slot order.
    pub closed spec fn results(&self) -> Seq<(CircuitId, SubcircuitAllocation<G>)> {
        self.results@
    }

    /// Allocates registers for every subcircuit, in slot order, from the
    /// live ranges of each. Fails when a subcircuit has no live ranges, or
    /// with the first value that has none.
    pub fn from_liveness(circuit: &Circuit<G>, liveness: &ValueLiveness) -> (r: Result<Self>)
        requires
            circuit.wf(),
        ensures
            r matches Ok(t) ==> {
                &&& t.results().len() == circuit.subcircuits().entries().len()
                &&& forall|j: int| 0 <= j < t.results().len() ==> {
                    let sub = circuit.subcircuits().entries()[j].1;
                    &&& (#[trigger] t.results()[j]).0 == sub.circuit_id()
                    &&& result_for(liveness.results(), sub.circuit_id()) matches Some(l)
                    &&& (lawful_eq::<G::Operand>() ==> is_allocation(sub, l.ranges(), t.results()[j].1))
                }
            },
            r matches Err(e) ==> exists|j: int|
                0 <= j < circuit.subcircuits().entries().len() && #[trigger] allocation_fails(
                    circuit.subcircuits().entries()[j].1,
                    liveness.results(),
                    e,
                ),
    {
        let subs = circuit.iter();
        let mut results: Vec<(CircuitId, SubcircuitAllocation<G>)> = Vec::with_capacity(subs.len());
        let mut k: usize = 0;
        while k < subs.len()
            invariant
                circuit.wf(),
                subs@.len() == circuit.subcircuits().entries().len(),
                forall|j: int| 0 <= j < subs@.len() ==> *(#[trigger] subs@[j]) == circuit.subcircuits().entries()[j].1,
                k <= subs@.len(),
                results@.len() == k,
                forall|j: int| 0 <= j < k ==> {
                    let sub = circuit.subcircuits().entries()[j].1;
                    &&& (#[trigger] results@[j]).0 == sub.circuit_id()
                    &&& result_for(liveness.results(), sub.circuit_id()) matches Some(l)
                    &&& (lawful_eq::<G::Operand>() ==> is_allocation(sub, l.ranges(), results@[j].1))
                },
            decreases subs@.len() - k,
        {
            let sub = subs[k];
            proof {
                circuit.lemma_entry_wf(k as int);
            }
            let id = sub.id();
            let l = match liveness.for_subcircuit(id) {
                Some(l) => l,
                None => {
                    proof {
                        assert(allocation_fails(circuit.subcircuits().entries()[k as int].1, liveness.results(), Error::SubcircuitAnalysisMissing(id)));
                    }
                    return Err(Error::SubcircuitAnalysisMissing(id));
                },
            };
            let allocation = match compute_register_allocation(sub, l) {
                Ok(a) => a,
                Err(e) => {
                    proof {
                        assert(allocation_fails(circuit.subcircuits().entries()[k as int].1, liveness.results(), e));
                    }
                    return Err(e);
                },
            };
            results.push((id, allocation));
            k = k + 1;
        }
        Ok(RegisterAllocation { results })
    }

    /// Schedules every subcircuit, computes its live ranges and allocates
    /// its registers.
    pub fn run(circuit: &Circuit<G>) -> (r: Result<Self>)
        requires
            circuit.wf(),
        ensures
            r matches Ok(t) ==> {
                &&& t.results().len() == circuit.subcircuits().entries().len()
                &&& forall|j: int| 0 <= j < t.results().len() ==> {
                    let sub = circuit.subcircuits().entries()[j].1;
                    &&& (#[trigger] t.results()[j]).0 == sub.circuit_id()
                    &&& (lawful_eq::<G::Operand>() ==> is_scheduled_allocation_of(sub, t.results()[j].1))
                }
            },
            r matches Err(e) ==> exists|j: int|
                0 <= j < circuit.subcircuits().entries().len() && #[trigger] scheduled_allocation_fails(
                    circuit.subcircuits().entries()[j].1,
                    e,
                ),
    {
        let liveness = match ValueLiveness::run(circuit) {
            Ok(l) => l,
            Err(e) => {
                proof {
                    let j = choose|j: int|
                        0 <= j < circuit.subcircuits().entries().len() && #[trigger] scheduled_liveness_fails(circuit.subcircuits().entries()[j].1, e);
                    assert(scheduled_allocation_fails(circuit.subcircuits().entries()[j].1, e));
                }
                return Err(e);
            },
        };
        let r = Self::from_liveness(circuit, &liveness);
        proof {
            let entries = circuit.subcircuits().entries();
            match &r {
                Ok(t) => {
                    assert forall|j: int| 0 <= j < t.results().len() && lawful_eq::<G::Operand>() implies is_scheduled_allocation_of(entries[j].1, (#[trigger] t.results()[j]).1) by {
                        lemma_result_for_subcircuit(*circuit, liveness.results(), j);
                        assert(is_scheduled_liveness_of(entries[j].1, liveness.results()[j].1));
                    }
                },
                Err(e) => {
                    let j = choose|j: int| 0 <= j < entries.len() && #[trigger] allocation_fails(entries[j].1, liveness.results(), *e);
                    lemma_result_for_subcircuit(*circuit, liveness.results(), j);
                    assert(is_scheduled_liveness_of(entries[j].1, liveness.results()[j].1));
                    assert(scheduled_allocation_fails(entries[j].1, *e));
                },
            }
        }
        r
    }

    /// The register allocation of a subcircuit.
    pub fn for_subcircuit(&self, id: CircuitId) -> (r: Option<&SubcircuitAllocation<G>>)
        ensures
            match result_for(self.results(), id) {
                Some(x) => r == Some(&x),
                None => r is None,
            },
    {
        lookup(&self.results, id)
    }

    /// Every subcircuit's register allocation, in slot order.
    pub fn iter(&self) -> (r: Vec<(CircuitId, &SubcircuitAllocation<G>)>)
        ensures
            r@.len() == self.results().len(),
            forall|k: int| 0 <= k < r@.len() ==> (#[trigger] r@[k]).0 == self.results()[k].0 && *r@[k].1 == self.results()[k].1,
    {
        pairs(&self.results)
    }
}

} // verus!
