//! A machine configuration: a state and a tape.
use vstd::prelude::*;

use crate::instrs::{Color, Slot, State};

verus! {

/// Tapes that know the color under the head.
pub trait Scan {
    spec fn scan_spec(&self) -> Color;

    fn scan(&self) -> (c: Color)
        ensures
            c == self.scan_spec(),
    ;
}

/// Tapes with a starting form, and a form one step later.
pub trait Init: Sized {
    fn init() -> Self;

    fn init_stepped() -> Self;
}

pub struct Config<Tape> {
    pub state: State,
    pub tape: Tape,
}

impl<Tape: Init> Config<Tape> {
    /// State 0 on the initial tape.
    pub fn init() -> (r: Self)
        ensures
            r.state == 0,
    {
        Config { state: 0, tape: Tape::init() }
    }

    /// State 1 on the tape after the first step.
    pub fn init_stepped() -> (r: Self)
        ensures
            r.state == 1,
    {
        Config { state: 1, tape: Tape::init_stepped() }
    }
}

impl<Tape: Scan> Config<Tape> {
    /// The slot of the configuration: its state and scanned color.
    pub fn slot(&self) -> (r: Slot)
        ensures
            r == (self.state, self.tape.scan_spec()),
    {
        (self.state, self.tape.scan())
    }
}

} // verus!
