//! Scheduling priorities of operations.

use vstd::prelude::*;

use crate::circuit::operations::Operation;

verus! {

/// How urgently an operation should be scheduled once it is ready.
#[derive(Clone, Copy, Debug, PartialEq, Eq, PartialOrd, Ord, Hash, Structural)]
pub enum Priority {
    /// Inputs and clones: scheduled as late as possible.
    Low,
    /// Gates.
    Normal,
    /// Outputs and drops: scheduled as early as possible, to free values.
    High,
}

/// The rank of an operation's priority: higher is more urgent.
pub open spec fn priority_rank(op: Operation) -> u8 {
    match op {
        Operation::Output(_) | Operation::Drop(_) => 2,
        Operation::Gate(_) => 1,
        Operation::Input(_) | Operation::Clone(_) => 0,
    }
}

/// The rank of a priority: higher is more urgent.
pub open spec fn rank_of(p: Priority) -> u8 {
    match p {
        Priority::Low => 0,
        Priority::Normal => 1,
        Priority::High => 2,
    }
}

impl Priority {
    /// The priority of an operation: outputs and drops first, then gates,
    /// then inputs and clones.
    pub fn for_operation(op: &Operation) -> (r: Self)
        ensures
            rank_of(r) == priority_rank(*op),
            r == match *op {
                Operation::Output(_) | Operation::Drop(_) => Priority::High,
                Operation::Gate(_) => Priority::Normal,
                Operation::Input(_) | Operation::Clone(_) => Priority::Low,
            },
    {
        match op {
            Operation::Output(_) | Operation::Drop(_) => Priority::High,
            Operation::Gate(_) => Priority::Normal,
            Operation::Input(_) | Operation::Clone(_) => Priority::Low,
        }
    }

    /// The rank of this priority: higher is more urgent.
    pub fn rank(self) -> (r: u8)
        ensures
            r == rank_of(self),
    {
        match self {
            Priority::Low => 0,
            Priority::Normal => 1,
            Priority::High => 2,
        }
    }
}

} // verus!
