//! Compiler from two-qubit gate circuits to schedules of physical operations
//! on a dynamically-programmable qubit array: a grid of stationary (SLM)
//! optical traps overlaid with a movable (AOD) trap grid. The scheduling
//! problem is encoded as a system of integer and boolean constraints, handed
//! to an SMT solver, and every model the solver returns is re-checked against
//! the constraint semantics before it is decoded into an instruction stream.

use vstd::prelude::*;

pub mod circuit;
pub mod constraints;
pub mod decode;
pub mod dpqa;
pub mod formula;
pub mod gates;
pub mod instruction;
pub mod result;
pub mod smt;
pub mod values;

verus! {

} // verus!
