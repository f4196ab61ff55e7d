//! What a decider tries to rule out.
use vstd::prelude::*;

verus! {

#[derive(Clone, Copy, PartialEq, Eq, Structural)]
pub enum Goal {
    Halt,
    Blank,
    Spinout,
}

impl Goal {
    pub fn is_halt(&self) -> (r: bool)
        ensures
            r == (*self == Goal::Halt),
    {
        matches!(self, Goal::Halt)
    }

    pub fn is_blank(&self) -> (r: bool)
        ensures
            r == (*self == Goal::Blank),
    {
        matches!(self, Goal::Blank)
    }

    pub fn is_spinout(&self) -> (r: bool)
        ensures
            r == (*self == Goal::Spinout),
    {
        matches!(self, Goal::Spinout)
    }
}

} // verus!
