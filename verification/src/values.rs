//! Concrete values of all decision variables of one scheduling instance, as
//! read back from a satisfying model: positions, trap flags and gate times.

use vstd::prelude::*;

verus! {

/// Results from a successful solver run: for each qubit and stage the
/// physical grid position `xy`, the logical AOD position `cr` and the trap
/// flag `aod`, and for each gate the stage `t` at which it fires.
pub struct DPQAVarsValues {
    pub xy: Vec<Vec<(u64, u64)>>,
    pub cr: Vec<Vec<(u64, u64)>>,
    pub aod: Vec<Vec<bool>>,
    pub t: Vec<u64>,
}

impl DPQAVarsValues {
    /// Physical column of qubit `q` at stage `t`.
    pub open spec fn x(self, q: int, t: int) -> int {
        self.xy@[q]@[t].0 as int
    }

    /// Physical row of qubit `q` at stage `t`.
    pub open spec fn y(self, q: int, t: int) -> int {
        self.xy@[q]@[t].1 as int
    }

    /// Logical AOD column of qubit `q` at stage `t`.
    pub open spec fn c(self, q: int, t: int) -> int {
        self.cr@[q]@[t].0 as int
    }

    /// Logical AOD row of qubit `q` at stage `t`.
    pub open spec fn r(self, q: int, t: int) -> int {
        self.cr@[q]@[t].1 as int
    }

    /// Whether qubit `q` sits in the AOD at stage `t` (else in an SLM trap).
    pub open spec fn aod_at(self, q: int, t: int) -> bool {
        self.aod@[q]@[t]
    }

    /// The stage at which gate `g` fires.
    pub open spec fn tg(self, g: int) -> int {
        self.t@[g] as int
    }

    /// The tables have one row per qubit, one entry per stage, and one gate
    /// time per gate.
    pub open spec fn wf(self, n_qubits: nat, n_stages: nat, n_gates: nat) -> bool {
        &&& self.xy@.len() == n_qubits
        &&& self.cr@.len() == n_qubits
        &&& self.aod@.len() == n_qubits
        &&& self.t@.len() == n_gates
        &&& forall|q: int| 0 <= q < n_qubits ==> (#[trigger] self.xy@[q])@.len() == n_stages
        &&& forall|q: int| 0 <= q < n_qubits ==> (#[trigger] self.cr@[q])@.len() == n_stages
        &&& forall|q: int| 0 <= q < n_qubits ==> (#[trigger] self.aod@[q])@.len() == n_stages
    }
}

} // verus!
