//! Balanced ternary values and agent statuses.

use vstd::prelude::*;

verus! {

/// A balanced ternary digit: Negative (-1), Zero (0), or Positive (+1).
#[derive(Debug, Clone, Copy, PartialEq, Eq, Hash, Structural)]
pub enum Ternary {
    Negative,
    Zero,
    Positive,
}

/// The integer a ternary digit stands for.
pub open spec fn ternary_value(t: Ternary) -> int {
    match t {
        Ternary::Negative => -1,
        Ternary::Zero => 0,
        Ternary::Positive => 1,
    }
}

impl Ternary {
    /// The digit as -1, 0 or +1.
    pub fn to_i8(self) -> (r: i8)
        ensures
            r == ternary_value(self),
    {
        match self {
            Ternary::Negative => -1,
            Ternary::Zero => 0,
            Ternary::Positive => 1,
        }
    }
}

/// Status of an agent in the fleet.
#[derive(Debug, Clone, Copy, PartialEq, Eq, Hash, Structural)]
pub enum AgentStatus {
    Ready,
    Busy,
    Offline,
    Compromised,
}

impl AgentStatus {
    /// Is this agent available for task assignment?
    pub fn available(self) -> (r: bool)
        ensures
            r <==> self == AgentStatus::Ready,
    {
        self == AgentStatus::Ready
    }
}

} // verus!
