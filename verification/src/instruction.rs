//! Qubit array instructions: the linear plan a successful solve emits.

use vstd::prelude::*;
use crate::gates::TwoQubitGate;

verus! {

/// One physical operation of the schedule: initial placement of a qubit,
/// a rigid AOD row or column translation, a trap transfer, or the set of
/// gates firing at a stage.
#[derive(PartialEq, Eq, Debug)]
pub enum DPQAInstruction {
    Init { qubit: usize, x: u64, y: u64, in_aod: bool },
    MoveAODRow { qubits: Vec<usize>, y_from: u64, y_to: u64 },
    MoveAODCol { qubits: Vec<usize>, x_from: u64, x_to: u64 },
    MoveToSLM(usize),
    MoveToAOD(usize),
    Gate(Vec<TwoQubitGate>),
}

} // verus!
