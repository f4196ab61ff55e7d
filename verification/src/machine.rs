//! Outcomes of running a machine forward.
use vstd::prelude::*;

use crate::instrs::Slot;

verus! {

/// How a forward run ended.
pub enum RunResult {
    Recur,
    Spinout,
    MultRule,
    InfiniteRule,
    Undefined(Slot),
    StepLimit,
    ConfigLimit,
}

impl RunResult {
    /// The run settled the machine's fate: it recurs, runs into an
    /// infinite rule, or reaches an undefined slot.
    pub fn is_settled(&self) -> (r: bool)
        ensures
            r == (self is Recur || self is Spinout || self is InfiniteRule || self is Undefined),
    {
        self.is_recur() || self.is_infinite() || self.is_undefined()
    }

    pub fn is_undefined(&self) -> (r: bool)
        ensures
            r == (self is Undefined),
    {
        matches!(self, RunResult::Undefined(_))
    }

    /// A spinout counts as a recurrence.
    pub fn is_recur(&self) -> (r: bool)
        ensures
            r == (self is Recur || self is Spinout),
    {
        matches!(self, RunResult::Recur | RunResult::Spinout)
    }

    pub fn is_infinite(&self) -> (r: bool)
        ensures
            r == (self is InfiniteRule),
    {
        matches!(self, RunResult::InfiniteRule)
    }

    pub fn is_mult(&self) -> (r: bool)
        ensures
            r == (self is MultRule),
    {
        matches!(self, RunResult::MultRule)
    }
}

} // verus!
