//! The scheduling solver: encode the constraint system of a (circuit,
//! grid) instance, hand it to the SMT backend, re-check the model it
//! returns against the constraint semantics, and decode it into an
//! instruction stream. A `Succeeded` answer therefore always carries a
//! schedule whose variable values provably satisfy every architectural
//! and circuit constraint.

use vstd::prelude::*;
use crate::circuit::Circuit;
use crate::constraints::DPQAVars;
use crate::constraints::aod_order_all;
use crate::constraints::aod_persist_all;
use crate::constraints::crowding_all;
use crate::constraints::entangle_all;
use crate::constraints::fixed_slm_all;
use crate::constraints::grid_bounds_all;
use crate::constraints::interaction_all;
use crate::constraints::move_together_all;
use crate::constraints::no_swap_all;
use crate::constraints::site_exclusion_all;
use crate::constraints::slm_order_all;
use crate::constraints::time_bounds_all;
use crate::constraints::time_order_all;
use crate::constraints::type_separate_all;
use crate::decode::decode_instructions;
use crate::decode::decoded_ok;
use crate::formula::Formula;
use crate::formula::check_formulas;
use crate::formula::sat_all;
use crate::smt::run_backend;
use crate::values::DPQAVarsValues;

pub use crate::instruction::DPQAInstruction;
pub use crate::result::DPQAResult;

verus! {

/// Gates of every stage fire strictly before the gates of the next stage.
pub open spec fn stage_deps_ordered(v: DPQAVarsValues, stages: Seq<Seq<usize>>) -> bool {
    forall|s: int, i: int, j: int|
        #![trigger stages[s][i], stages[s + 1][j]]
        0 <= s < stages.len() - 1 && 0 <= i < stages[s].len() && 0 <= j < stages[s + 1].len()
            ==> v.tg(stages[s][i] as int) < v.tg(stages[s + 1][j] as int)
}

/// The witness behind a successful solve: variable values of the right
/// dimensions that satisfy every architectural constraint, every
/// circuit-dependency constraint (with the cross-stage ordering stated
/// over the circuit's own stage partition), and that the instruction
/// stream faithfully decodes.
pub open spec fn schedule_model_ok(
    c: Circuit,
    rows: u64,
    cols: u64,
    aod_rows: u64,
    aod_cols: u64,
    n_stages: int,
    instrs: Seq<crate::instruction::DPQAInstruction>,
    v: DPQAVarsValues,
) -> bool {
    &&& v.wf(c.n_qubits as nat, n_stages as nat, c.gates@.len())
    &&& grid_bounds_all(v, c.n_qubits as int, n_stages, rows, cols, aod_rows, aod_cols)
    &&& fixed_slm_all(v, c.n_qubits as int, n_stages)
    &&& aod_persist_all(v, c.n_qubits as int, n_stages)
    &&& move_together_all(v, c.n_qubits as int, n_stages)
    &&& aod_order_all(v, c.n_qubits as int, n_stages)
    &&& slm_order_all(v, c.n_qubits as int, n_stages)
    &&& crowding_all(v, c.n_qubits as int, n_stages)
    &&& site_exclusion_all(v, c.n_qubits as int, n_stages)
    &&& no_swap_all(v, c.n_qubits as int, n_stages)
    &&& time_bounds_all(v, c.gates@.len() as int, n_stages)
    &&& stage_deps_ordered(v, c.stages_seq())
    &&& entangle_all(v, c.gates@, n_stages)
    &&& interaction_all(v, c.gates@, c.n_qubits as int, n_stages)
    &&& type_separate_all(v, c.gates@)
    &&& decoded_ok(instrs, v, c.gates@, c.n_qubits as int, n_stages)
}

/// A successful solve's output: some satisfying variable assignment
/// stands behind the emitted instruction stream.
pub open spec fn valid_schedule(
    c: Circuit,
    rows: u64,
    cols: u64,
    aod_rows: u64,
    aod_cols: u64,
    n_stages: int,
    instrs: Seq<crate::instruction::DPQAInstruction>,
) -> bool {
    exists|v: DPQAVarsValues|
        #[trigger] schedule_model_ok(c, rows, cols, aod_rows, aod_cols, n_stages, instrs, v)
}

/// Ordering over the dependency pairs implies ordering over all pairs of
/// gates in consecutive stages, when the pair list covers them all.
proof fn lemma_deps_bridge(
    v: DPQAVarsValues,
    stages: Seq<Seq<usize>>,
    pairs: Seq<(usize, usize)>,
)
    requires
        time_order_all(v, pairs),
        forall|s: int, i: int, j: int|
            0 <= s < stages.len() - 1 && 0 <= i < stages[s].len() && 0 <= j < stages[s + 1].len()
                ==> pairs.contains((#[trigger] stages[s][i], #[trigger] stages[s + 1][j])),
    ensures
        stage_deps_ordered(v, stages),
{
    assert forall|s: int, i: int, j: int|
        #![trigger stages[s][i], stages[s + 1][j]]
        0 <= s < stages.len() - 1 && 0 <= i < stages[s].len() && 0 <= j < stages[s + 1].len() implies v.tg(
        stages[s][i] as int,
    ) < v.tg(stages[s + 1][j] as int) by {
        let p = (stages[s][i], stages[s + 1][j]);
        assert(pairs.contains(p));
        let k = choose|k: int| 0 <= k < pairs.len() && pairs[k] == p;
        assert(v.tg(pairs[k].0 as int) < v.tg(pairs[k].1 as int));
    }
}

/// DPQA solver: the grid dimensions of one dynamically-programmable qubit
/// array, and the slack added to the minimum stage count when solving.
pub struct DPQA {
    pub rows: u64,
    pub cols: u64,
    pub aod_rows: u64,
    pub aod_cols: u64,
    pub extra_stages: usize,
}

impl DPQA {
    /// Create a new DPQA solver by specifying the size of the grid; the
    /// AOD grid inherits the SLM dimensions.
    pub fn new(rows: u64, cols: u64) -> (d: DPQA)
        ensures
            d == (DPQA { rows, cols, aod_rows: rows, aod_cols: cols, extra_stages: 0 }),
    {
        DPQA { rows, cols, aod_rows: rows, aod_cols: cols, extra_stages: 0 }
    }

    /// Create a new DPQA solver by specifying the grid, potentially with a
    /// differently sized grid of AOD traps.
    pub fn new_aod(rows: u64, cols: u64, aod_rows: u64, aod_cols: u64) -> (d: DPQA)
        ensures
            d == (DPQA { rows, cols, aod_rows, aod_cols, extra_stages: 0 }),
    {
        DPQA { rows, cols, aod_rows, aod_cols, extra_stages: 0 }
    }

    /// Increase the number of stages (time steps) beyond the minimum number
    /// needed to execute all the gates in the circuit
    pub fn set_extra_stages(&mut self, extra_stages: usize)
        ensures
            *final(self) == (DPQA { extra_stages, ..*old(self) }),
    {
        self.extra_stages = extra_stages;
    }

    /// Set up constraints for the given architecture and circuit, then
    /// attempt to solve. On success, the emitted instruction stream is
    /// backed by a model that was re-checked, in verified code, against
    /// every constraint of the instance. A stage count beyond the machine
    /// limit fails outright. The optional minimization objective of the
    /// backend (fewer transfers, fewer AOD stays) is a quality lever only
    /// and is not used: plans are checked for feasibility, not optimality.
    pub fn solve(&self, circuit: &Circuit) -> (res: DPQAResult)
        requires
            circuit.wf(),
        ensures
            res is Succeeded ==> valid_schedule(
                *circuit,
                self.rows,
                self.cols,
                self.aod_rows,
                self.aod_cols,
                circuit.stages_seq().len() + self.extra_stages,
                res->Succeeded_0@,
            ),
            circuit.stages_seq().len() + self.extra_stages > usize::MAX ==> res is Failed,
    {
        let base = circuit.get_n_stages();
        if self.extra_stages > usize::MAX - base {
            return DPQAResult::Failed;
        }
        let n_stages = base + self.extra_stages;
        let nq = circuit.get_n_qubits();
        let ng = circuit.get_n_two_qubit_gates();

        let vars = DPQAVars::new(
            circuit,
            self.rows,
            self.cols,
            self.aod_rows,
            self.aod_cols,
            n_stages,
        );
        let mut fs: Vec<Formula> = Vec::new();
        proof {
            assert(crate::formula::formulas_wf(
                fs@,
                nq as nat,
                n_stages as nat,
                ng as nat,
            ));
        }
        vars.set_constraints(&mut fs);

        let vals = match run_backend(&fs, nq, n_stages, ng) {
            Option::Some(v) => v,
            Option::None => { return DPQAResult::Failed },
        };

        // re-check the backend's model against the constraint semantics;
        // rejecting here turns a backend contract violation into failure
        if !check_formulas(&vals, &fs, nq, n_stages, ng) {
            return DPQAResult::Failed;
        }

        let instrs = decode_instructions(&vars.gates, nq, n_stages, &vals);

        proof {
            assert(sat_all(vals, fs@));
            let empty: Seq<Formula> = Seq::empty();
            assert(sat_all(vals, empty));
            assert(crate::constraints::all_constraints(
                vals,
                vars.gates@,
                vars.t_order@,
                nq as int,
                n_stages as int,
                self.rows,
                self.cols,
                self.aod_rows,
                self.aod_cols,
            ));
            lemma_deps_bridge(vals, circuit.stages_seq(), vars.t_order@);
            assert(vars.gates@.len() as int == ng as int);
            assert(schedule_model_ok(
                *circuit,
                self.rows,
                self.cols,
                self.aod_rows,
                self.aod_cols,
                n_stages as int,
                instrs@,
                vals,
            ));
        }
        DPQAResult::Succeeded(instrs)
    }
}

} // verus!
