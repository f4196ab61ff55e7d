pub mod config;
pub mod goal;
pub mod graph;
pub mod hashed;
pub mod instrs;
pub mod machine;
pub mod macros;
pub mod prog;
pub mod run;
pub mod simloop;
pub mod text;

pub use crate::goal::Goal;
pub use crate::instrs::{Color, Instr, Parse, Shift, Slot, State};
pub use crate::prog::Prog;
pub mod bkw;
