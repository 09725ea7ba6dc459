//! Two-qubit gate records and their commutation algebra.

use vstd::prelude::*;

verus! {

/// The supported two-qubit gate kinds.
#[derive(PartialEq, Eq, Clone, Copy, Debug, Structural)]
pub enum TwoQubitGateType {
    CX,
    CZ,
}

/// A two-qubit gate: a kind together with a control and a target qubit.
/// The two qubit indices are always distinct.
#[derive(PartialEq, Eq, Clone, Copy, Debug, Structural)]
pub struct TwoQubitGate {
    pub gate_type: TwoQubitGateType,
    pub q_ctrl: usize,
    pub q_target: usize,
}

impl TwoQubitGate {
    /// A gate is well formed when its control and target qubits differ.
    pub open spec fn wf(self) -> bool {
        self.q_ctrl != self.q_target
    }

    /// Whether a qubit is one of the two this gate acts on.
    pub open spec fn uses(self, q: usize) -> bool {
        self.q_ctrl == q || self.q_target == q
    }

    /// Two gates are parallel when they act on disjoint qubit sets, so they
    /// can fire in the same stage.
    pub open spec fn spec_parallel_with(self, other: TwoQubitGate) -> bool {
        &&& self.q_ctrl != other.q_ctrl
        &&& self.q_ctrl != other.q_target
        &&& self.q_target != other.q_ctrl
        &&& self.q_target != other.q_target
    }

    /// Two gates commute when they are parallel, or when the CX/CZ algebra
    /// makes their order irrelevant: two CZs always commute; two CXs commute
    /// unless one's control is the other's target; a CX and a CZ commute
    /// unless their targets coincide.
    pub open spec fn spec_commutes_with(self, other: TwoQubitGate) -> bool {
        self.spec_parallel_with(other) || match (self.gate_type, other.gate_type) {
            (TwoQubitGateType::CX, TwoQubitGateType::CX) => {
                self.q_ctrl != other.q_target && self.q_target != other.q_ctrl
            },
            (TwoQubitGateType::CX, TwoQubitGateType::CZ) => self.q_target != other.q_target,
            (TwoQubitGateType::CZ, TwoQubitGateType::CX) => self.q_target != other.q_target,
            (TwoQubitGateType::CZ, TwoQubitGateType::CZ) => true,
        }
    }

    pub fn new(gate_type: TwoQubitGateType, q_ctrl: usize, q_target: usize) -> (g: TwoQubitGate)
        requires
            q_ctrl != q_target,
        ensures
            g == (TwoQubitGate { gate_type, q_ctrl, q_target }),
            g.wf(),
    {
        TwoQubitGate { gate_type, q_ctrl, q_target }
    }

    pub fn parallel_with(&self, gate: &TwoQubitGate) -> (r: bool)
        ensures
            r == self.spec_parallel_with(*gate),
    {
        self.q_ctrl != gate.q_ctrl && self.q_ctrl != gate.q_target
            && self.q_target != gate.q_ctrl && self.q_target != gate.q_target
    }

    pub fn commutes_with(&self, gate: &TwoQubitGate) -> (r: bool)
        ensures
            r == self.spec_commutes_with(*gate),
    {
        if self.parallel_with(gate) {
            return true;
        }

        match self.gate_type {
            TwoQubitGateType::CX => match gate.gate_type {
                TwoQubitGateType::CX => {
                    self.q_ctrl != gate.q_target && self.q_target != gate.q_ctrl
                },
                TwoQubitGateType::CZ => self.q_target != gate.q_target,
            },
            TwoQubitGateType::CZ => match gate.gate_type {
                TwoQubitGateType::CX => self.q_target != gate.q_target,
                TwoQubitGateType::CZ => true,
            },
        }
    }
}

/// Parallelism is a symmetric relation.
pub proof fn lemma_parallel_symmetric(a: TwoQubitGate, b: TwoQubitGate)
    ensures
        a.spec_parallel_with(b) == b.spec_parallel_with(a),
{
}

/// Commutation is a symmetric relation.
pub proof fn lemma_commutes_symmetric(a: TwoQubitGate, b: TwoQubitGate)
    ensures
        a.spec_commutes_with(b) == b.spec_commutes_with(a),
{
}

/// Every well-formed gate commutes with an identical copy of itself.
pub proof fn lemma_commutes_reflexive(a: TwoQubitGate)
    requires
        a.wf(),
    ensures
        a.spec_commutes_with(a),
{
}

} // verus!
