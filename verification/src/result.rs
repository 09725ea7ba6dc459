//! Compilation result object.

use vstd::prelude::*;
use crate::instruction::DPQAInstruction;

verus! {

/// The outcome of a solve: `Failed` when the architecture cannot host the
/// circuit within the given stages (or the backend gave no usable model),
/// else the instruction stream of a checked schedule.
#[derive(PartialEq, Eq, Debug)]
pub enum DPQAResult {
    Failed,
    Succeeded(Vec<DPQAInstruction>),
}

} // verus!
