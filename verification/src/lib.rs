//! A verified interpreter for a small, stack-free, tape-based esoteric
//! language: eight single-character instructions executed against a
//! fixed-size circular memory tape.
//!
//! `semantics` holds the mathematical model: machine states and the
//! small-step transition relation. `vm` holds the executable interpreter,
//! proved to follow that model step for step. `laws` states and proves
//! the general properties of the machine.

pub mod laws;
pub mod semantics;
pub mod vm;

use vstd::prelude::*;

verus! {

pub use crate::semantics::ErrorKind;
pub use crate::vm::Brainfuck;

} // verus!
