//! Value liveness: for each value, the span of schedule positions from the
//! operation producing it to the last operation using it.

use vstd::prelude::*;

use crate::analyzer::analyses::scheduled_order::{first_position, is_scheduled_order, ScheduledOrder, SubcircuitSchedule};
use crate::analyzer::results::{is_cycle_error, lemma_result_for_subcircuit, lookup, pairs, result_for};
use crate::arena::key::Key;
use crate::circuit::operations::{consumer_operation, producer_operation, Operation};
use crate::circuit::subcircuit::{CircuitId, Subcircuit};
use crate::circuit::value::{Destination, Value, ValueId};
use crate::circuit::Circuit;
use crate::error::{Error, Result};
use crate::gate::Gate;

verus! {

/// The schedule positions a value is live at: from `birth` up to, not
/// including, `death`.
#[derive(Clone, Copy, Debug, PartialEq, Eq, Structural)]
pub struct LiveRange {
    /// Position of the operation producing the value.
    pub birth: usize,
    /// One past the position of the last operation using the value.
    pub death: usize,
}

impl LiveRange {
    /// Whether two values are live at a common position.
    pub fn overlaps(&self, other: &LiveRange) -> (r: bool)
        ensures
            r == (self.birth < other.death && other.birth < self.death),
    {
        self.birth < other.death && other.birth < self.death
    }

    /// Number of positions the value is live at.
    pub fn len(&self) -> (r: usize)
        ensures
            r == if self.death >= self.birth { (self.death - self.birth) as usize } else { 0 },
    {
        self.death.saturating_sub(self.birth)
    }

    /// Whether the value is live at no position.
    pub fn is_empty(&self) -> (r: bool)
        ensures
            r == (self.birth >= self.death),
    {
        self.birth >= self.death
    }
}

/// The latest position among the consumers of `dests`, failing at the first
/// consumer that is not scheduled.
pub open spec fn last_use(ops: Seq<Operation>, dests: Seq<Destination>) -> Result<Option<usize>>
    decreases dests.len(),
{
    if dests.len() == 0 {
        Ok(None)
    } else {
        match last_use(ops, dests.drop_last()) {
            Err(e) => Err(e),
            Ok(m) => {
                let op = consumer_operation(dests.last().consumer);
                match first_position(ops, op) {
                    None => Err(Error::OperationNotScheduled(op)),
                    Some(p) => Ok(
                        match m {
                            Some(q) => Some(if q >= p { q } else { p }),
                            None => Some(p),
                        },
                    ),
                }
            },
        }
    }
}

/// The live range of a value in the schedule `ops`.
pub open spec fn live_range_of<G: Gate>(ops: Seq<Operation>, v: Value<G>) -> Result<LiveRange> {
    let op = producer_operation(v.origin().producer);
    match first_position(ops, op) {
        None => Err(Error::OperationNotScheduled(op)),
        Some(birth) => match last_use(ops, v.destinations()) {
            Err(e) => Err(e),
            Ok(None) => Ok(LiveRange { birth, death: (birth + 1) as usize }),
            Ok(Some(p)) => Ok(LiveRange { birth, death: (p + 1) as usize }),
        },
    }
}

/// The live ranges of a list of values of subcircuit `c`, failing at the
/// first value whose operations are not all scheduled.
pub open spec fn live_ranges_of<G: Gate>(
    c: CircuitId,
    ops: Seq<Operation>,
    vals: Seq<((usize, usize), Value<G>)>,
) -> Result<Seq<(ValueId, LiveRange)>>
    decreases vals.len(),
{
    if vals.len() == 0 {
        Ok(Seq::empty())
    } else {
        match live_ranges_of(c, ops, vals.drop_last()) {
            Err(e) => Err(e),
            Ok(prev) => match live_range_of(ops, vals.last().1) {
                Err(e) => Err(e),
                Ok(r) => Ok(prev.push((ValueId { circuit: c, value: Key::from_view(vals.last().0) }, r))),
            },
        }
    }
}

/// The live ranges of one subcircuit, by value in slot order.
pub struct SubcircuitLiveness {
    live_ranges: Vec<(ValueId, LiveRange)>,
}

impl SubcircuitLiveness {
    /// The live ranges, by value in slot order.
    pub closed spec fn ranges(&self) -> Seq<(ValueId, LiveRange)> {
        self.live_ranges@
    }

    /// The live range of a value.
    pub fn get(&self, value: ValueId) -> (r: Option<&LiveRange>)
        ensures
            match result_for(self.ranges(), value) {
                Some(x) => r == Some(&x),
                None => r is None,
            },
    {
        let mut k: usize = 0;
        while k < self.live_ranges.len()
            invariant
                k <= self.live_ranges@.len(),
                forall|j: int| 0 <= j < k ==> self.live_ranges@[j].0 != value,
            decreases self.live_ranges@.len() - k,
        {
            if self.live_ranges[k].0 == value {
                proof {
                    assert(self.ranges()[k as int].0 == value);
                    let c = choose|c: int|
                        0 <= c < self.ranges().len() && (#[trigger] self.ranges()[c]).0 == value && forall|j: int|
                            0 <= j < c ==> self.ranges()[j].0 != value;
                    assert(c == k);
                }
                return Some(&self.live_ranges[k].1);
            }
            k = k + 1;
        }
        None
    }

    /// All live ranges, by value in slot order.
    pub fn all_ranges(&self) -> (r: &[(ValueId, LiveRange)])
        ensures
            r@ == self.ranges(),
    {
        self.live_ranges.as_slice()
    }

    /// All live ranges, by value in slot order, one by one.
    pub fn iter(&self) -> (r: Vec<(ValueId, LiveRange)>)
        ensures
            r@ == self.ranges(),
    {
        let mut r: Vec<(ValueId, LiveRange)> = Vec::with_capacity(self.live_ranges.len());
        let mut k: usize = 0;
        while k < self.live_ranges.len()
            invariant
                k <= self.live_ranges@.len(),
                r@ == self.live_ranges@.take(k as int),
            decreases self.live_ranges@.len() - k,
        {
            r.push(self.live_ranges[k]);
            proof {
                assert(r@ =~= self.live_ranges@.take(k as int + 1));
            }
            k = k + 1;
        }
        proof {
            assert(self.live_ranges@.take(k as int) =~= self.live_ranges@);
        }
        r
    }

    /// The values live at a schedule position, in slot order.
    pub fn live_at(&self, position: usize) -> (r: Vec<ValueId>)
        ensures
            r@ == live_at_of(self.ranges(), position),
    {
        let mut r: Vec<ValueId> = Vec::new();
        let mut k: usize = 0;
        while k < self.live_ranges.len()
            invariant
                k <= self.live_ranges@.len(),
                r@ == live_at_of(self.live_ranges@.take(k as int), position),
            decreases self.live_ranges@.len() - k,
        {
            proof {
                assert(self.live_ranges@.take(k as int + 1).drop_last() =~= self.live_ranges@.take(k as int));
            }
            let (v, range) = self.live_ranges[k];
            if range.birth <= position && position < range.death {
                r.push(v);
            }
            k = k + 1;
        }
        proof {
            assert(self.live_ranges@.take(self.live_ranges@.len() as int) =~= self.live_ranges@);
        }
        r
    }
}

/// The values of `ranges` live at `position`, in order.
pub open spec fn live_at_of(ranges: Seq<(ValueId, LiveRange)>, position: usize) -> Seq<ValueId>
    decreases ranges.len(),
{
    if ranges.len() == 0 {
        Seq::empty()
    } else {
        let prev = live_at_of(ranges.drop_last(), position);
        let (v, r) = ranges.last();
        if r.birth <= position && position < r.death {
            prev.push(v)
        } else {
            prev
        }
    }
}

fn last_use_exec(schedule: &SubcircuitSchedule, dests: &[Destination]) -> (r: Result<Option<usize>>)
    ensures
        r == last_use(schedule.ops(), dests@),
        r matches Ok(Some(p)) ==> p < schedule.ops().len(),
{
    let mut m: Option<usize> = None;
    let mut k: usize = 0;
    while k < dests.len()
        invariant
            k <= dests@.len(),
            Ok::<Option<usize>, Error>(m) == last_use(schedule.ops(), dests@.take(k as int)),
            m matches Some(p) ==> p < schedule.ops().len(),
        decreases dests@.len() - k,
    {
        proof {
            assert(dests@.take(k as int + 1).drop_last() =~= dests@.take(k as int));
        }
        let op = Operation::from_consumer(dests[k].consumer);
        let pos = match schedule.position(op) {
            Some(p) => p,
            None => {
                proof {
                    lemma_last_use_err(schedule.ops(), dests@, k as int);
                }
                return Err(Error::OperationNotScheduled(op));
            },
        };
        m = Some(
            match m {
                Some(q) => if q >= pos {
                    q
                } else {
                    pos
                },
                None => pos,
            },
        );
        k = k + 1;
    }
    proof {
        assert(dests@.take(dests@.len() as int) =~= dests@);
    }
    Ok(m)
}

/// Once a consumer is found unscheduled, the failure persists to the end.
proof fn lemma_last_use_err(ops: Seq<Operation>, dests: Seq<Destination>, k: int)
    requires
        0 <= k < dests.len(),
        last_use(ops, dests.take(k)) is Ok,
        first_position(ops, consumer_operation(dests[k].consumer)) is None,
    ensures
        last_use(ops, dests) == Err::<Option<usize>, Error>(Error::OperationNotScheduled(consumer_operation(dests[k].consumer))),
    decreases dests.len(),
{
    if k == dests.len() - 1 {
        assert(dests.take(k) =~= dests.drop_last());
    } else {
        assert(dests.drop_last().take(k) =~= dests.take(k));
        lemma_last_use_err(ops, dests.drop_last(), k);
    }
}

/// A failure on a prefix persists to the end.
proof fn lemma_live_ranges_err<G: Gate>(c: CircuitId, ops: Seq<Operation>, vals: Seq<((usize, usize), Value<G>)>, k: int)
    requires
        0 <= k <= vals.len(),
        live_ranges_of(c, ops, vals.take(k)) is Err,
    ensures
        live_ranges_of(c, ops, vals) == live_ranges_of(c, ops, vals.take(k)),
    decreases vals.len() - k,
{
    if k < vals.len() {
        assert(vals.take(k + 1).drop_last() =~= vals.take(k));
        lemma_live_ranges_err(c, ops, vals, k + 1);
    } else {
        assert(vals.take(k) =~= vals);
    }
}

/// Computes the live range of every value of a subcircuit from its schedule.
/// Fails with the first operation that is not scheduled.
pub fn compute_liveness<G: Gate>(subcircuit: &Subcircuit<G>, schedule: &SubcircuitSchedule) -> (r: Result<SubcircuitLiveness>)
    requires
        subcircuit.wf(),
    ensures
        match live_ranges_of(subcircuit.circuit_id(), schedule.ops(), subcircuit.values().entries()) {
            Ok(ranges) => r matches Ok(l) && l.ranges() == ranges,
            Err(e) => r == Err::<SubcircuitLiveness, Error>(e),
        },
{
    let vals = subcircuit.all_values();
    let ghost entries = subcircuit.values().entries();
    let ghost ops = schedule.ops();
    let ghost c = subcircuit.circuit_id();
    let mut live_ranges: Vec<(ValueId, LiveRange)> = Vec::new();
    let mut i: usize = 0;
    while i < vals.len()
        invariant
            entries == subcircuit.values().entries(),
            ops == schedule.ops(),
            c == subcircuit.circuit_id(),
            vals@.len() == entries.len(),
            forall|j: int|
                0 <= j < vals@.len() ==> (#[trigger] vals@[j]).0 == (ValueId { circuit: c, value: Key::from_view(entries[j].0) })
                    && *vals@[j].1 == entries[j].1,
            i <= vals@.len(),
            live_ranges_of(c, ops, entries.take(i as int)) == Ok::<Seq<(ValueId, LiveRange)>, Error>(live_ranges@),
        decreases vals@.len() - i,
    {
        let (value_id, value) = vals[i];
        proof {
            assert(entries.take(i as int + 1).drop_last() =~= entries.take(i as int));
            assert(entries.take(i as int + 1).last() == entries[i as int]);
        }
        let producer_op = Operation::from_producer(value.get_product().producer);
        let birth = match schedule.position(producer_op) {
            Some(b) => b,
            None => {
                proof {
                    lemma_live_ranges_err(c, ops, entries, i as int + 1);
                }
                return Err(Error::OperationNotScheduled(producer_op));
            },
        };
        let total = schedule.operations().len();
        let death = match last_use_exec(schedule, value.get_destinations()) {
            Err(e) => {
                proof {
                    lemma_live_ranges_err(c, ops, entries, i as int + 1);
                }
                return Err(e);
            },
            Ok(None) => birth + 1,
            Ok(Some(p)) => p + 1,
        };
        live_ranges.push((value_id, LiveRange { birth, death }));
        i = i + 1;
    }
    proof {
        assert(entries.take(entries.len() as int) =~= entries);
    }
    Ok(SubcircuitLiveness { live_ranges })
}

/// Live ranges of every subcircuit of a circuit.
pub struct ValueLiveness {
    results: Vec<(CircuitId, SubcircuitLiveness)>,
}

/// `l` holds, for subcircuit `sub`, the live ranges in schedule `ops`.
pub open spec fn is_liveness_of<G: Gate>(sub: Subcircuit<G>, ops: Seq<Operation>, l: SubcircuitLiveness) -> bool {
    live_ranges_of(sub.circuit_id(), ops, sub.values().entries()) == Ok::<Seq<(ValueId, LiveRange)>, Error>(l.ranges())
}

/// Computing the live ranges of `sub` from the schedules `schedule` fails
/// with `e`: no schedule has its id, or its values use an operation that its
/// schedule leaves out.
pub open spec fn liveness_fails<G: Gate>(sub: Subcircuit<G>, schedule: Seq<(CircuitId, SubcircuitSchedule)>, e: Error) -> bool {
    match result_for(schedule, sub.circuit_id()) {
        None => e == Error::SubcircuitAnalysisMissing(sub.circuit_id()),
        Some(s) => live_ranges_of(sub.circuit_id(), s.ops(), sub.values().entries()) == Err::<Seq<(ValueId, LiveRange)>, Error>(e),
    }
}

/// `l` holds the live ranges of `sub` in a schedule of it by priority.
pub open spec fn is_scheduled_liveness_of<G: Gate>(sub: Subcircuit<G>, l: SubcircuitLiveness) -> bool {
    exists|ops: Seq<Operation>| #[trigger] is_scheduled_order(sub, ops) && is_liveness_of(sub, ops, l)
}

/// Scheduling `sub` and computing its live ranges fails with `e`: it has a
/// cycle, or its values use an operation that its schedule leaves out.
pub open spec fn scheduled_liveness_fails<G: Gate>(sub: Subcircuit<G>, e: Error) -> bool {
    ||| is_cycle_error(sub, e)
    ||| exists|ops: Seq<Operation>|
        #[trigger] is_scheduled_order(sub, ops) && live_ranges_of(sub.circuit_id(), ops, sub.values().entries())
            == Err::<Seq<(ValueId, LiveRange)>, Error>(e)
}

impl ValueLiveness {
    /// The results, in subcircuit slot order.
    pub closed spec fn results(&self) -> Seq<(CircuitId, SubcircuitLiveness)> {
        self.results@
    }

    /// Computes the live ranges of every subcircuit, in slot order, from
    /// the schedule of each. Fails when a subcircuit has no schedule, or
    /// with the first operation that is not scheduled.
    pub fn from_schedule<G: Gate>(circuit: &Circuit<G>, schedule: &ScheduledOrder) -> (r: Result<Self>)
        requires
            circuit.wf(),
        ensures
            r matches Ok(t) ==> {
                &&& t.results().len() == circuit.subcircuits().entries().len()
                &&& forall|j: int| 0 <= j < t.results().len() ==> {
                    let sub = circuit.subcircuits().entries()[j].1;
                    &&& (#[trigger] t.results()[j]).0 == sub.circuit_id()
                    &&& result_for(schedule.results(), sub.circuit_id()) matches Some(s)
                    &&& is_liveness_of(sub, s.ops(), t.results()[j].1)
                }
            },
            r matches Err(e) ==> exists|j: int|
                0 <= j < circuit.subcircuits().entries().len() && #[trigger] liveness_fails(
                    circuit.subcircuits().entries()[j].1,
                    schedule.results(),
                    e,
                ),
    {
        let subs = circuit.iter();
        let mut results: Vec<(CircuitId, SubcircuitLiveness)> = Vec::with_capacity(subs.len());
        let mut k: usize = 0;
        while k < subs.len()
            invariant
                circuit.wf(),
                subs@.len() == circuit.subcircuits().entries().len(),
                forall|j: int| 0 <= j < subs@.len() ==> *(#[trigger] subs@[j]) == circuit.subcircuits().entries()[j].1,
                k <= subs@.len(),
                results@.len() == k,
                forall|j: int| 0 <= j < k ==> {
                    let sub = circuit.subcircuits().entries()[j].1;
                    &&& (#[trigger] results@[j]).0 == sub.circuit_id()
                    &&& result_for(schedule.results(), sub.circuit_id()) matches Some(s)
                    &&& is_liveness_of(sub, s.ops(), results@[j].1)
                },
            decreases subs@.len() - k,
        {
            let sub = subs[k];
            proof {
                circuit.lemma_entry_wf(k as int);
            }
            let id = sub.id();
            let s = match schedule.for_subcircuit(id) {
                Some(s) => s,
                None => {
                    proof {
                        assert(liveness_fails(circuit.subcircuits().entries()[k as int].1, schedule.results(), Error::SubcircuitAnalysisMissing(id)));
                    }
                    return Err(Error::SubcircuitAnalysisMissing(id));
                },
            };
            let liveness = match compute_liveness(sub, s) {
                Ok(l) => l,
                Err(e) => {
                    proof {
                        assert(liveness_fails(circuit.subcircuits().entries()[k as int].1, schedule.results(), e));
                    }
                    return Err(e);
                },
            };
            results.push((id, liveness));
            k = k + 1;
        }
        Ok(ValueLiveness { results })
    }

    /// Schedules every subcircuit and computes its live ranges.
    pub fn run<G: Gate>(circuit: &Circuit<G>) -> (r: Result<Self>)
        requires
            circuit.wf(),
        ensures
            r matches Ok(t) ==> {
                &&& t.results().len() == circuit.subcircuits().entries().len()
                &&& forall|j: int| 0 <= j < t.results().len() ==> {
                    let sub = circuit.subcircuits().entries()[j].1;
                    &&& (#[trigger] t.results()[j]).0 == sub.circuit_id()
                    &&& is_scheduled_liveness_of(sub, t.results()[j].1)
                }
            },
            r matches Err(e) ==> exists|j: int|
                0 <= j < circuit.subcircuits().entries().len() && #[trigger] scheduled_liveness_fails(
                    circuit.subcircuits().entries()[j].1,
                    e,
                ),
    {
        let schedule = match ScheduledOrder::run(circuit) {
            Ok(s) => s,
            Err(e) => {
                proof {
                    let j = choose|j: int|
                        0 <= j < circuit.subcircuits().entries().len() && #[trigger] is_cycle_error(circuit.subcircuits().entries()[j].1, e);
                    assert(scheduled_liveness_fails(circuit.subcircuits().entries()[j].1, e));
                }
                return Err(e);
            },
        };
        let r = Self::from_schedule(circuit, &schedule);
        proof {
            let entries = circuit.subcircuits().entries();
            match &r {
                Ok(t) => {
                    assert forall|j: int| 0 <= j < t.results().len() implies is_scheduled_liveness_of(entries[j].1, (#[trigger] t.results()[j]).1) by {
                        lemma_result_for_subcircuit(*circuit, schedule.results(), j);
                        assert(is_scheduled_order(entries[j].1, schedule.results()[j].1.ops()));
                    }
                },
                Err(e) => {
                    let j = choose|j: int| 0 <= j < entries.len() && #[trigger] liveness_fails(entries[j].1, schedule.results(), *e);
                    lemma_result_for_subcircuit(*circuit, schedule.results(), j);
                    assert(is_scheduled_order(entries[j].1, schedule.results()[j].1.ops()));
                    assert(scheduled_liveness_fails(entries[j].1, *e));
                },
            }
        }
        r
    }

    /// The live ranges of a subcircuit.
    pub fn for_subcircuit(&self, id: CircuitId) -> (r: Option<&SubcircuitLiveness>)
        ensures
            match result_for(self.results(), id) {
                Some(x) => r == Some(&x),
                None => r is None,
            },
    {
        lookup(&self.results, id)
    }

    /// Every subcircuit's live ranges, in slot order.
    pub fn iter(&self) -> (r: Vec<(CircuitId, &SubcircuitLiveness)>)
        ensures
            r@.len() == self.results().len(),
            forall|k: int| 0 <= k < r@.len() ==> (#[trigger] r@[k]).0 == self.results()[k].0 && *r@[k].1 == self.results()[k].1,
    {
        pairs(&self.results)
    }
}

} // verus!
