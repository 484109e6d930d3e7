//! Ownership issues: values that no use consumes, and values that more than
//! one use consumes.

use vstd::prelude::*;

use crate::analyzer::results::{lookup, pairs, result_for};
use crate::arena::key::Key;
use crate::circuit::subcircuit::{CircuitId, Subcircuit};
use crate::circuit::value::{with_mode, Ownership, Value, ValueId};
use crate::circuit::Circuit;
use crate::gate::Gate;

verus! {

/// A violation of the rule that each value is moved exactly once.
#[derive(Clone, Copy, Debug, PartialEq, Eq, Structural)]
pub enum OwnershipIssue {
    /// The value is moved by more than one use.
    Overconsumed { value: ValueId, move_count: usize },
    /// The value is never moved.
    Leaked { value: ValueId },
}

/// Number of uses that move a value.
pub open spec fn move_count<G: Gate>(v: Value<G>) -> nat {
    with_mode(v.destinations(), Ownership::Move).len()
}

/// The issue a value has, if any.
pub open spec fn issues_of_value<G: Gate>(id: ValueId, v: Value<G>) -> Seq<OwnershipIssue> {
    if move_count(v) == 0 {
        seq![OwnershipIssue::Leaked { value: id }]
    } else if move_count(v) == 1 {
        Seq::empty()
    } else {
        seq![OwnershipIssue::Overconsumed { value: id, move_count: move_count(v) as usize }]
    }
}

/// The issues of a list of values of subcircuit `c`, in order.
pub open spec fn issues_of_values<G: Gate>(c: CircuitId, vals: Seq<((usize, usize), Value<G>)>) -> Seq<OwnershipIssue>
    decreases vals.len(),
{
    if vals.len() == 0 {
        Seq::empty()
    } else {
        issues_of_values(c, vals.drop_last()) + issues_of_value(
            ValueId { circuit: c, value: Key::from_view(vals.last().0) },
            vals.last().1,
        )
    }
}

/// The issues of a subcircuit, by value in slot order.
pub open spec fn issues_of<G: Gate>(sub: Subcircuit<G>) -> Seq<OwnershipIssue> {
    issues_of_values(sub.circuit_id(), sub.values().entries())
}

/// The ownership issues of one subcircuit.
pub struct SubcircuitOwnership {
    issues: Vec<OwnershipIssue>,
}

impl SubcircuitOwnership {
    /// The issues, by value in slot order.
    pub closed spec fn all_issues(&self) -> Seq<OwnershipIssue> {
        self.issues@
    }

    /// The issues, by value in slot order.
    pub fn issues(&self) -> (r: &[OwnershipIssue])
        ensures
            r@ == self.all_issues(),
    {
        self.issues.as_slice()
    }

    /// Whether every value is moved exactly once.
    pub fn is_valid(&self) -> (r: bool)
        ensures
            r == (self.all_issues().len() == 0),
    {
        self.issues.len() == 0
    }

    /// The overconsumed values with their number of moves, in order.
    pub fn overconsumed(&self) -> (r: Vec<(ValueId, usize)>)
        ensures
            r@ == overconsumed_of(self.all_issues()),
    {
        let mut r: Vec<(ValueId, usize)> = Vec::new();
        let mut i: usize = 0;
        while i < self.issues.len()
            invariant
                i <= self.issues@.len(),
                r@ == overconsumed_of(self.issues@.take(i as int)),
            decreases self.issues@.len() - i,
        {
            proof {
                assert(self.issues@.take(i as int + 1).drop_last() =~= self.issues@.take(i as int));
            }
            if let OwnershipIssue::Overconsumed { value, move_count } = self.issues[i] {
                r.push((value, move_count));
            }
            i = i + 1;
        }
        proof {
            assert(self.issues@.take(self.issues@.len() as int) =~= self.issues@);
        }
        r
    }

    /// The leaked values, in order.
    pub fn leaked(&self) -> (r: Vec<ValueId>)
        ensures
            r@ == leaked_of(self.all_issues()),
    {
        let mut r: Vec<ValueId> = Vec::new();
        let mut i: usize = 0;
        while i < self.issues.len()
            invariant
                i <= self.issues@.len(),
                r@ == leaked_of(self.issues@.take(i as int)),
            decreases self.issues@.len() - i,
        {
            proof {
                assert(self.issues@.take(i as int + 1).drop_last() =~= self.issues@.take(i as int));
            }
            if let OwnershipIssue::Leaked { value } = self.issues[i] {
                r.push(value);
            }
            i = i + 1;
        }
        proof {
            assert(self.issues@.take(self.issues@.len() as int) =~= self.issues@);
        }
        r
    }
}

/// The overconsumed values of a list of issues, with their move counts.
pub open spec fn overconsumed_of(issues: Seq<OwnershipIssue>) -> Seq<(ValueId, usize)>
    decreases issues.len(),
{
    if issues.len() == 0 {
        Seq::empty()
    } else {
        let prev = overconsumed_of(issues.drop_last());
        match issues.last() {
            OwnershipIssue::Overconsumed { value, move_count } => prev.push((value, move_count)),
            _ => prev,
        }
    }
}

/// The leaked values of a list of issues.
pub open spec fn leaked_of(issues: Seq<OwnershipIssue>) -> Seq<ValueId>
    decreases issues.len(),
{
    if issues.len() == 0 {
        Seq::empty()
    } else {
        let prev = leaked_of(issues.drop_last());
        match issues.last() {
            OwnershipIssue::Leaked { value } => prev.push(value),
            _ => prev,
        }
    }
}

/// Finds the values of a subcircuit that are not moved exactly once.
pub fn compute_ownership_issues<G: Gate>(subcircuit: &Subcircuit<G>) -> (r: SubcircuitOwnership)
    requires
        subcircuit.wf(),
    ensures
        r.all_issues() == issues_of(*subcircuit),
{
    let vals = subcircuit.all_values();
    let ghost entries = subcircuit.values().entries();
    let mut issues: Vec<OwnershipIssue> = Vec::new();
    let mut i: usize = 0;
    while i < vals.len()
        invariant
            entries == subcircuit.values().entries(),
            vals@.len() == entries.len(),
            forall|j: int|
                0 <= j < vals@.len() ==> (#[trigger] vals@[j]).0 == (ValueId {
                    circuit: subcircuit.circuit_id(),
                    value: Key::from_view(entries[j].0),
                }) && *vals@[j].1 == entries[j].1,
            i <= vals@.len(),
            issues@ == issues_of_values(subcircuit.circuit_id(), entries.take(i as int)),
        decreases vals@.len() - i,
    {
        let (value_id, value) = vals[i];
        let moves = value.uses_with_mode(Ownership::Move).len();
        proof {
            assert(entries.take(i as int + 1).drop_last() =~= entries.take(i as int));
            assert(entries.take(i as int + 1).last() == entries[i as int]);
        }
        if moves == 0 {
            issues.push(OwnershipIssue::Leaked { value: value_id });
        } else if moves > 1 {
            issues.push(OwnershipIssue::Overconsumed { value: value_id, move_count: moves });
        }
        proof {
            assert(issues@ =~= issues_of_values(subcircuit.circuit_id(), entries.take(i as int + 1)));
        }
        i = i + 1;
    }
    proof {
        assert(entries.take(entries.len() as int) =~= entries);
    }
    SubcircuitOwnership { issues }
}

/// Ownership issues of every subcircuit of a circuit.
pub struct OwnershipIssues {
    results: Vec<(CircuitId, SubcircuitOwnership)>,
}

impl OwnershipIssues {
    /// The results, in subcircuit slot order.
    pub closed spec fn results(&self) -> Seq<(CircuitId, SubcircuitOwnership)> {
        self.results@
    }

    /// Finds the ownership issues of every subcircuit, in slot order.
    pub fn run<G: Gate>(circuit: &Circuit<G>) -> (r: Self)
        requires
            circuit.wf(),
        ensures
            r.results().len() == circuit.subcircuits().entries().len(),
            forall|j: int| 0 <= j < r.results().len() ==> {
                &&& (#[trigger] r.results()[j]).0 == circuit.subcircuits().entries()[j].1.circuit_id()
                &&& r.results()[j].1.all_issues() == issues_of(circuit.subcircuits().entries()[j].1)
            },
    {
        let subs = circuit.iter();
        let mut results: Vec<(CircuitId, SubcircuitOwnership)> = Vec::with_capacity(subs.len());
        let mut k: usize = 0;
        while k < subs.len()
            invariant
                circuit.wf(),
                subs@.len() == circuit.subcircuits().entries().len(),
                forall|j: int| 0 <= j < subs@.len() ==> *(#[trigger] subs@[j]) == circuit.subcircuits().entries()[j].1,
                k <= subs@.len(),
                results@.len() == k,
                forall|j: int| 0 <= j < k ==> {
                    &&& (#[trigger] results@[j]).0 == circuit.subcircuits().entries()[j].1.circuit_id()
                    &&& results@[j].1.all_issues() == issues_of(circuit.subcircuits().entries()[j].1)
                },
            decreases subs@.len() - k,
        {
            let sub = subs[k];
            proof {
                circuit.lemma_entry_wf(k as int);
            }
            let issues = compute_ownership_issues(sub);
            results.push((sub.id(), issues));
            k = k + 1;
        }
        OwnershipIssues { results }
    }

    /// The ownership issues of a subcircuit.
    pub fn for_subcircuit(&self, id: CircuitId) -> (r: Option<&SubcircuitOwnership>)
        ensures
            match result_for(self.results(), id) {
                Some(x) => r == Some(&x),
                None => r is None,
            },
    {
        lookup(&self.results, id)
    }

    /// Every subcircuit's ownership issues, in slot order.
    pub fn iter(&self) -> (r: Vec<(CircuitId, &SubcircuitOwnership)>)
        ensures
            r@.len() == self.results().len(),
            forall|k: int| 0 <= k < r@.len() ==> (#[trigger] r@[k]).0 == self.results()[k].0 && *r@[k].1 == self.results()[k].1,
    {
        pairs(&self.results)
    }

    /// Whether no subcircuit has an ownership issue.
    pub fn is_all_valid(&self) -> (r: bool)
        ensures
            r == forall|k: int| 0 <= k < self.results().len() ==> (#[trigger] self.results()[k]).1.all_issues().len() == 0,
    {
        let mut k: usize = 0;
        while k < self.results.len()
            invariant
                k <= self.results@.len(),
                forall|j: int| 0 <= j < k ==> (#[trigger] self.results@[j]).1.all_issues().len() == 0,
            decreases self.results@.len() - k,
        {
            if !self.results[k].1.is_valid() {
                proof {
                    assert(self.results()[k as int].1.all_issues().len() != 0);
                }
                return false;
            }
            k = k + 1;
        }
        true
    }
}

} // verus!
