//! Values of a circuit.
//!
//! A value is defined exactly once and should be consumed (moved) exactly
//! once; it can be borrowed any number of times before that.

use vstd::prelude::*;

use crate::arena::Key;
use crate::circuit::operations::{Consumer, PortId, Producer};
use crate::circuit::subcircuit::CircuitId;
use crate::gate::Gate;

verus! {

/// Ownership mode for a use of a value.
#[derive(Clone, Copy, PartialEq, Eq, Debug, Structural)]
pub enum Ownership {
    /// Value is borrowed. Remains available after use.
    Borrow,
    /// Value is moved. Consumed, no longer available.
    Move,
}

/// A specific use of a value.
#[derive(Clone, Copy, PartialEq, Eq, Debug, Structural)]
pub struct Destination {
    /// Who consumes this value.
    pub consumer: Consumer,
    /// Which input port on the consumer.
    pub port: PortId,
    /// Access mode of the value.
    pub mode: Ownership,
}

impl Destination {
    /// Create a new use.
    pub fn new(consumer: Consumer, port: PortId, mode: Ownership) -> (r: Self)
        ensures
            r == (Destination { consumer, port, mode }),
    {
        Self { consumer, port, mode }
    }

    /// Get the consumer.
    pub fn get_consumer(&self) -> (r: Consumer)
        ensures
            r == self.consumer,
    {
        self.consumer
    }

    /// Get the port.
    pub fn get_port(&self) -> (r: PortId)
        ensures
            r == self.port,
    {
        self.port
    }

    /// Get the mode.
    pub fn get_mode(&self) -> (r: Ownership)
        ensures
            r == self.mode,
    {
        self.mode
    }
}

/// Where a value comes from: a producer and one of its output ports.
#[derive(Clone, Copy, PartialEq, Eq, Debug, Structural)]
pub struct Origin {
    /// Who produces this value.
    pub producer: Producer,
    /// Which output port of the producer.
    pub port: PortId,
}

impl Origin {
    /// Create a new origin.
    pub fn new(producer: Producer, port: PortId) -> (r: Self)
        ensures
            r == (Origin { producer, port }),
    {
        Self { producer, port }
    }

    /// Get the producer.
    pub fn get_producer(&self) -> (r: Producer)
        ensures
            r == self.producer,
    {
        self.producer
    }

    /// Get the port.
    pub fn get_port(&self) -> (r: PortId)
        ensures
            r == self.port,
    {
        self.port
    }
}

/// Handle identifying a value in the circuit.
#[derive(Clone, Copy, PartialEq, Eq, Hash, Debug, Structural)]
pub struct ValueId {
    /// The circuit this value belongs to.
    pub circuit: CircuitId,
    /// The key of the value.
    pub value: Key,
}

impl ValueId {
    /// Create a new value id from a key.
    pub fn new(circuit: CircuitId, key: Key) -> (r: Self)
        ensures
            r.circuit == circuit,
            r.value == key,
    {
        Self { circuit, value: key }
    }

    /// Return the underlying key.
    pub fn key(self) -> (r: Key)
        ensures
            r == self.value,
    {
        self.value
    }

    /// Return the circuit this value belongs to.
    pub fn circuit(self) -> (r: CircuitId)
        ensures
            r == self.circuit,
    {
        self.circuit
    }
}

/// A vector holding the ids of a slice, in order.
pub(crate) fn copy_value_ids(s: &[ValueId]) -> (r: Vec<ValueId>)
    ensures
        r@ == s@,
{
    let mut r: Vec<ValueId> = Vec::new();
    let mut i: usize = 0;
    while i < s.len()
        invariant
            i <= s@.len(),
            r@ == s@.take(i as int),
        decreases s@.len() - i,
    {
        r.push(s[i]);
        i = i + 1;
        proof {
            assert(r@ =~= s@.take(i as int));
        }
    }
    proof {
        assert(s@.take(s@.len() as int) =~= s@);
    }
    r
}

/// The uses of `s` with the given mode, in order.
pub open spec fn with_mode(s: Seq<Destination>, mode: Ownership) -> Seq<Destination>
    decreases s.len(),
{
    if s.len() == 0 {
        s
    } else {
        let prev = with_mode(s.drop_last(), mode);
        if s.last().mode == mode {
            prev.push(s.last())
        } else {
            prev
        }
    }
}

/// The uses of `s` by consumers other than `c`, in order.
pub open spec fn without_consumer(s: Seq<Destination>, c: Consumer) -> Seq<Destination>
    decreases s.len(),
{
    if s.len() == 0 {
        s
    } else {
        let prev = without_consumer(s.drop_last(), c);
        if s.last().consumer != c {
            prev.push(s.last())
        } else {
            prev
        }
    }
}

/// A circuit value. Defined exactly once, consumed exactly once.
pub struct Value<G: Gate> {
    /// Who produces this value.
    origin: Origin,
    /// Who uses this value.
    destinations: Vec<Destination>,
    /// Type of the value.
    value_type: G::Operand,
}

impl<G: Gate> Value<G> {
    /// Where the value comes from.
    pub closed spec fn origin(&self) -> Origin {
        self.origin
    }

    /// All uses of the value, in the order they were recorded.
    pub closed spec fn destinations(&self) -> Seq<Destination> {
        self.destinations@
    }

    /// The operand type of the value.
    pub closed spec fn value_type(&self) -> G::Operand {
        self.value_type
    }

    /// Create a value with no uses yet.
    pub fn new(origin: Origin, value_type: G::Operand) -> (r: Self)
        ensures
            r.origin() == origin,
            r.destinations() == Seq::<Destination>::empty(),
            r.value_type() == value_type,
    {
        Self { origin, destinations: Vec::new(), value_type }
    }

    /// Get where this value comes from.
    pub fn get_product(&self) -> (r: &Origin)
        ensures
            *r == self.origin(),
    {
        &self.origin
    }

    /// Get all uses of this value.
    pub fn get_destinations(&self) -> (r: &[Destination])
        ensures
            r@ == self.destinations(),
    {
        self.destinations.as_slice()
    }

    /// The uses with the given mode, in order.
    pub(crate) fn uses_with_mode(&self, mode: Ownership) -> (r: Vec<Destination>)
        ensures
            r@ == with_mode(self.destinations(), mode),
    {
        let mut r: Vec<Destination> = Vec::new();
        let n = self.destinations.len();
        let mut i: usize = 0;
        while i < n
            invariant
                n == self.destinations@.len(),
                i <= n,
                r@ == with_mode(self.destinations@.take(i as int), mode),
            decreases n - i,
        {
            let d = self.destinations[i];
            proof {
                assert(self.destinations@.take(i + 1).drop_last() =~= self.destinations@.take(i as int));
            }
            if d.mode == mode {
                r.push(d);
            }
            i = i + 1;
        }
        proof {
            assert(self.destinations@.take(n as int) =~= self.destinations@);
        }
        r
    }

    /// Check if this value has exactly one Move consumer.
    pub fn has_single_move(&self) -> (r: bool)
        ensures
            r == (with_mode(self.destinations(), Ownership::Move).len() == 1),
    {
        self.uses_with_mode(Ownership::Move).len() == 1
    }

    /// Get the moving use, if exactly one exists.
    pub fn get_move_consumer(&self) -> (r: Option<Destination>)
        ensures
            r is Some <==> with_mode(self.destinations(), Ownership::Move).len() == 1,
            r is Some ==> r->0 == with_mode(self.destinations(), Ownership::Move)[0],
    {
        let moves = self.uses_with_mode(Ownership::Move);
        if moves.len() == 1 {
            Some(moves[0])
        } else {
            None
        }
    }

    /// Get all borrowing uses, in order.
    pub fn get_borrow_consumers(&self) -> (r: Vec<Destination>)
        ensures
            r@ == with_mode(self.destinations(), Ownership::Borrow),
    {
        self.uses_with_mode(Ownership::Borrow)
    }

    /// Get the type of this value.
    pub fn get_type(&self) -> (r: G::Operand)
        ensures
            r == self.value_type(),
    {
        self.value_type
    }

    /// Add a use of this value.
    pub fn add_destination(&mut self, destination: Destination)
        ensures
            final(self).destinations() == old(self).destinations().push(destination),
            final(self).origin() == old(self).origin(),
            final(self).value_type() == old(self).value_type(),
    {
        self.destinations.push(destination);
    }

    /// Remove the uses by a specific consumer, keeping the others in order.
    pub fn remove_destinations_for(&mut self, consumer: Consumer)
        ensures
            final(self).destinations() == without_consumer(old(self).destinations(), consumer),
            final(self).origin() == old(self).origin(),
            final(self).value_type() == old(self).value_type(),
    {
        let mut kept: Vec<Destination> = Vec::new();
        let n = self.destinations.len();
        let mut i: usize = 0;
        while i < n
            invariant
                n == self.destinations@.len(),
                i <= n,
                kept@ == without_consumer(self.destinations@.take(i as int), consumer),
            decreases n - i,
        {
            let d = self.destinations[i];
            proof {
                assert(self.destinations@.take(i + 1).drop_last() =~= self.destinations@.take(i as int));
            }
            if d.consumer != consumer {
                kept.push(d);
            }
            i = i + 1;
        }
        proof {
            assert(self.destinations@.take(n as int) =~= self.destinations@);
        }
        self.destinations = kept;
    }

    /// Remove the use at a given position, keeping the others in order.
    pub fn remove_destination_at(&mut self, index: usize)
        requires
            index < old(self).destinations().len(),
        ensures
            final(self).destinations() == old(self).destinations().remove(index as int),
            final(self).origin() == old(self).origin(),
            final(self).value_type() == old(self).value_type(),
    {
        self.destinations.remove(index);
    }
}

} // verus!
