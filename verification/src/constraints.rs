//! The constraint encoder: for one (circuit, grid) instance it emits the
//! full conjunction of architectural and circuit-dependency constraints as
//! formulas, and its contracts state exactly which predicate over the
//! decision variables each emission adds.

use vstd::prelude::*;
use crate::circuit::Circuit;
use crate::circuit::pair_in_consecutive_stages;
use crate::circuit::gates_wf;
use crate::formula::Formula;
use crate::formula::bounds_at;
use crate::formula::fixed_slm_at;
use crate::formula::aod_persist_at;
use crate::formula::move_together_at;
use crate::formula::aod_order_at;
use crate::formula::slm_order_at;
use crate::formula::crowd_at;
use crate::formula::site_exclusion_at;
use crate::formula::no_swap_at;
use crate::formula::time_bounds_at;
use crate::formula::entangle_at;
use crate::formula::formula_holds;
use crate::formula::formula_wf;
use crate::formula::formulas_wf;
use crate::formula::sat_all;
use crate::gates::TwoQubitGate;
use crate::values::DPQAVarsValues;

verus! {

/// Grid bounds hold for every qubit at every stage.
pub open spec fn grid_bounds_all(
    v: DPQAVarsValues,
    nq: int,
    ns: int,
    rows: u64,
    cols: u64,
    aod_rows: u64,
    aod_cols: u64,
) -> bool {
    forall|a: int, b: int|
        0 <= a < nq && 0 <= b < ns ==> #[trigger] bounds_at(v, a, b, rows, cols, aod_rows, aod_cols)
}

/// Atoms entering a stage in an SLM trap have not moved.
pub open spec fn fixed_slm_all(v: DPQAVarsValues, nq: int, ns: int) -> bool {
    forall|a: int, b: int| 0 <= a < nq && 1 <= b < ns ==> #[trigger] fixed_slm_at(v, a, b)
}

/// Atoms held by the AOD keep their logical coordinates.
pub open spec fn aod_persist_all(v: DPQAVarsValues, nq: int, ns: int) -> bool {
    forall|a: int, b: int| 0 <= a < nq && 1 <= b < ns ==> #[trigger] aod_persist_at(v, a, b)
}

/// AOD columns and rows move as rigid units, for every pair and move.
pub open spec fn move_together_all(v: DPQAVarsValues, nq: int, ns: int) -> bool {
    forall|a: int, b: int, u: int|
        0 <= a < b < nq && 1 <= u < ns ==> #[trigger] move_together_at(v, a, b, u)
}

/// Physical order pins logical order, for every pair at every stage.
pub open spec fn aod_order_all(v: DPQAVarsValues, nq: int, ns: int) -> bool {
    forall|a: int, b: int, u: int|
        0 <= a < b < nq && 0 <= u < ns ==> #[trigger] aod_order_at(v, a, b, u)
}

/// Logical order bounds physical order across every move.
pub open spec fn slm_order_all(v: DPQAVarsValues, nq: int, ns: int) -> bool {
    forall|a: int, b: int, u: int|
        0 <= a < b < nq && 1 <= u < ns ==> #[trigger] slm_order_at(v, a, b, u)
}

/// The crowding rule holds at the initial stage.
pub open spec fn crowd_init_all(v: DPQAVarsValues, nq: int) -> bool {
    forall|a: int, b: int| 0 <= a < b < nq ==> #[trigger] crowd_at(v, a, b, 0, 0)
}

/// The crowding rule holds across every move.
pub open spec fn crowd_steps_all(v: DPQAVarsValues, nq: int, ns: int) -> bool {
    forall|a: int, b: int, u: int|
        0 <= a < b < nq && 1 <= u < ns ==> #[trigger] crowd_at(v, a, b, u - 1, u)
}

/// The crowding rule holds at the initial stage and across every move.
pub open spec fn crowding_all(v: DPQAVarsValues, nq: int, ns: int) -> bool {
    crowd_init_all(v, nq) && crowd_steps_all(v, nq, ns)
}

/// No two atoms of one trap type share a site, for every pair and stage.
pub open spec fn site_exclusion_all(v: DPQAVarsValues, nq: int, ns: int) -> bool {
    forall|a: int, b: int, u: int|
        0 <= a < b < nq && 0 <= u < ns ==> #[trigger] site_exclusion_at(v, a, b, u)
}

/// No trap transfer happens through a shared site, for every pair and move.
pub open spec fn no_swap_all(v: DPQAVarsValues, nq: int, ns: int) -> bool {
    forall|a: int, b: int, u: int|
        0 <= a < b < nq && 1 <= u < ns ==> #[trigger] no_swap_at(v, a, b, u)
}

/// Every gate fires within the schedule.
pub open spec fn time_bounds_all(v: DPQAVarsValues, ng: int, ns: int) -> bool {
    forall|i: int| 0 <= i < ng ==> #[trigger] time_bounds_at(v, i, ns)
}

/// Every dependency pair fires in order.
pub open spec fn time_order_all(v: DPQAVarsValues, t_order: Seq<(usize, usize)>) -> bool {
    forall|k: int|
        0 <= k < t_order.len() ==> v.tg((#[trigger] t_order[k]).0 as int) < v.tg(
            t_order[k].1 as int,
        )
}

/// Every gate's qubits coincide at the stage where it fires.
pub open spec fn entangle_all(v: DPQAVarsValues, gates: Seq<TwoQubitGate>, ns: int) -> bool {
    forall|i: int, u: int|
        0 <= i < gates.len() && 0 <= u < ns ==> #[trigger] entangle_at(
            v,
            gates[i].q_ctrl as int,
            gates[i].q_target as int,
            i,
            u,
        )
}

/// Gate `i` acts on exactly the unordered qubit pair {`a`, `b`}.
pub open spec fn pair_matches(gates: Seq<TwoQubitGate>, i: int, a: int, b: int) -> bool {
    (gates[i].q_ctrl == a && gates[i].q_target == b) || (gates[i].q_ctrl == b && gates[i].q_target
        == a)
}

/// Two qubits share a site at a stage only when some gate on exactly this
/// pair fires there; pairs never coupled by a gate never coincide.
pub open spec fn interaction_at(
    v: DPQAVarsValues,
    gates: Seq<TwoQubitGate>,
    a: int,
    b: int,
    u: int,
) -> bool {
    v.x(a, u) == v.x(b, u) && v.y(a, u) == v.y(b, u) ==> exists|i: int|
        0 <= i < gates.len() && #[trigger] pair_matches(gates, i, a, b) && v.tg(i) == u
}

/// Interaction exactness for every pair at every stage.
pub open spec fn interaction_all(
    v: DPQAVarsValues,
    gates: Seq<TwoQubitGate>,
    nq: int,
    ns: int,
) -> bool {
    forall|a: int, b: int, u: int|
        0 <= a < b < nq && 0 <= u < ns ==> #[trigger] interaction_at(v, gates, a, b, u)
}

/// Gates of different kinds never fire at the same stage.
pub open spec fn type_separate_all(v: DPQAVarsValues, gates: Seq<TwoQubitGate>) -> bool {
    forall|i: int, j: int|
        0 <= i < j < gates.len() && (#[trigger] gates[i]).gate_type != (#[trigger] gates[j]).gate_type
            ==> v.tg(i) != v.tg(j)
}

/// The full constraint system of one instance: a model satisfies it
/// exactly when the schedule it describes is physically executable.
pub open spec fn all_constraints(
    v: DPQAVarsValues,
    gates: Seq<TwoQubitGate>,
    t_order: Seq<(usize, usize)>,
    nq: int,
    ns: int,
    rows: u64,
    cols: u64,
    aod_rows: u64,
    aod_cols: u64,
) -> bool {
    &&& grid_bounds_all(v, nq, ns, rows, cols, aod_rows, aod_cols)
    &&& fixed_slm_all(v, nq, ns)
    &&& aod_persist_all(v, nq, ns)
    &&& move_together_all(v, nq, ns)
    &&& aod_order_all(v, nq, ns)
    &&& slm_order_all(v, nq, ns)
    &&& crowding_all(v, nq, ns)
    &&& site_exclusion_all(v, nq, ns)
    &&& no_swap_all(v, nq, ns)
    &&& time_bounds_all(v, gates.len() as int, ns)
    &&& time_order_all(v, t_order)
    &&& entangle_all(v, gates, ns)
    &&& interaction_all(v, gates, nq, ns)
    &&& type_separate_all(v, gates)
}

/// Variables and instance data used by the scheduling solver: the instance
/// dimensions, the circuit's gates and the dependency pairs of its stage
/// partition.
pub struct DPQAVars {
    pub n_qubits: usize,
    pub n_gates: usize,
    pub n_stages: usize,
    pub rows: u64,
    pub cols: u64,
    pub aod_rows: u64,
    pub aod_cols: u64,
    pub gates: Vec<TwoQubitGate>,
    pub t_order: Vec<(usize, usize)>,
}

impl DPQAVars {
    /// Internal consistency of one instance.
    pub open spec fn wf(self) -> bool {
        &&& self.gates@.len() == self.n_gates
        &&& gates_wf(self.gates@, self.n_qubits as nat)
        &&& self.n_qubits > 0 ==> self.n_stages > 0
        &&& forall|k: int|
            0 <= k < self.t_order@.len() ==> (#[trigger] self.t_order@[k]).0 < self.n_gates
                && self.t_order@[k].1 < self.n_gates
    }

    /// Set up the instance data for a circuit on a grid with `n_stages`
    /// time steps.
    pub fn new(
        circuit: &Circuit,
        rows: u64,
        cols: u64,
        aod_rows: u64,
        aod_cols: u64,
        n_stages: usize,
    ) -> (vars: DPQAVars)
        requires
            circuit.wf(),
            n_stages >= circuit.stages_seq().len(),
        ensures
            vars.wf(),
            vars.gates@ == circuit.gates@,
            vars.n_qubits == circuit.n_qubits,
            vars.n_gates == circuit.gates@.len(),
            vars.n_stages == n_stages,
            vars.rows == rows,
            vars.cols == cols,
            vars.aod_rows == aod_rows,
            vars.aod_cols == aod_cols,
            forall|m: int|
                0 <= m < vars.t_order@.len() ==> pair_in_consecutive_stages(
                    circuit.stages_seq(),
                    #[trigger] vars.t_order@[m],
                ),
            forall|s: int, i: int, j: int|
                0 <= s < circuit.stages_seq().len() - 1 && 0 <= i < circuit.stages_seq()[s].len()
                    && 0 <= j < circuit.stages_seq()[s + 1].len() ==> vars.t_order@.contains(
                    (#[trigger] circuit.stages_seq()[s][i], #[trigger] circuit.stages_seq()[s
                        + 1][j]),
                ),
    {
        let n_gates = circuit.get_n_two_qubit_gates();
        let mut gates: Vec<TwoQubitGate> = Vec::new();
        let mut i: usize = 0;
        while i < n_gates
            invariant
                circuit.wf(),
                n_gates == circuit.gates@.len(),
                gates@.len() == i,
                forall|m: int| 0 <= m < i ==> gates@[m] == circuit.gates@[m],
                i <= n_gates,
            decreases n_gates - i,
        {
            gates.push(circuit.get_gate(i));
            i = i + 1;
        }
        proof {
            assert(gates@ =~= circuit.gates@);
        }
        let t_order = circuit.get_gate_ordering();
        let vars = DPQAVars {
            n_qubits: circuit.get_n_qubits(),
            n_gates,
            n_stages,
            rows,
            cols,
            aod_rows,
            aod_cols,
            gates,
            t_order,
        };
        proof {
            if vars.n_qubits > 0 {
                let q = (vars.n_qubits - 1) as usize;
                let w = choose|w: int|
                    0 <= w < circuit.gates@.len() && (#[trigger] circuit.gates@[w]).uses(q);
                assert(crate::circuit::gate_placed(circuit.stages_seq(), w));
            }
            assert forall|k: int|
                0 <= k < vars.t_order@.len() implies (#[trigger] vars.t_order@[k]).0
                < vars.n_gates && vars.t_order@[k].1 < vars.n_gates by {
                assert(pair_in_consecutive_stages(circuit.stages_seq(), vars.t_order@[k]));
                let (s, a, b) = choose|s: int, a: int, b: int|
                    #![trigger circuit.stages_seq()[s][a], circuit.stages_seq()[s + 1][b]]
                    0 <= s < circuit.stages_seq().len() - 1 && 0 <= a
                        < circuit.stages_seq()[s].len() && 0 <= b < circuit.stages_seq()[s
                        + 1].len() && vars.t_order@[k] == (
                    circuit.stages_seq()[s][a],
                    circuit.stages_seq()[s + 1][b],
                    );
            }
        }
        vars
    }
}

/// The emitted formula constrains one qubit's positions at one stage of
/// this instance to its grids.
pub open spec fn is_bounds_formula(
    f: Formula,
    nq: int,
    ns: int,
    rows: u64,
    cols: u64,
    aod_rows: u64,
    aod_cols: u64,
) -> bool {
    match f {
        Formula::Bounds { q, t, rows: r2, cols: c2, aod_rows: ar2, aod_cols: ac2 } => {
            q < nq && t < ns && r2 == rows && c2 == cols && ar2 == aod_rows && ac2 == aod_cols
        },
        _ => false,
    }
}

/// A list of bounds formulas, one per qubit and stage, means exactly the
/// grid-bounds predicate.
proof fn lemma_bounds_sem(
    emitted: Seq<Formula>,
    nq: int,
    ns: int,
    rows: u64,
    cols: u64,
    aod_rows: u64,
    aod_cols: u64,
)
    requires
        0 <= nq <= usize::MAX,
        0 <= ns <= usize::MAX,
        forall|m: int|
            0 <= m < emitted.len() ==> is_bounds_formula(
                #[trigger] emitted[m],
                nq,
                ns,
                rows,
                cols,
                aod_rows,
                aod_cols,
            ),
        forall|a: int, b: int|
            0 <= a < nq && 0 <= b < ns ==> #[trigger] emitted.contains(
                Formula::Bounds {
                    q: a as usize,
                    t: b as usize,
                    rows,
                    cols,
                    aod_rows,
                    aod_cols,
                },
            ),
    ensures
        forall|v: DPQAVarsValues|
            sat_all(v, emitted) == grid_bounds_all(v, nq, ns, rows, cols, aod_rows, aod_cols),
{
    assert forall|v: DPQAVarsValues|
        sat_all(v, emitted) == grid_bounds_all(v, nq, ns, rows, cols, aod_rows, aod_cols) by {
        if sat_all(v, emitted) {
            assert forall|a: int, b: int|
                0 <= a < nq && 0 <= b < ns implies #[trigger] bounds_at(
                v,
                a,
                b,
                rows,
                cols,
                aod_rows,
                aod_cols,
            ) by {
                let f = Formula::Bounds { q: a as usize, t: b as usize, rows, cols, aod_rows, aod_cols };
                assert(emitted.contains(f));
                let m = choose|m: int| 0 <= m < emitted.len() && emitted[m] == f;
                assert(formula_holds(v, emitted[m]));
            }
        }
        if grid_bounds_all(v, nq, ns, rows, cols, aod_rows, aod_cols) {
            assert forall|m: int| 0 <= m < emitted.len() implies formula_holds(
                v,
                #[trigger] emitted[m],
            ) by {
                let f = emitted[m];
                assert(is_bounds_formula(f, nq, ns, rows, cols, aod_rows, aod_cols));
                assert(bounds_at(
                    v,
                    f->Bounds_q as int,
                    f->Bounds_t as int,
                    rows,
                    cols,
                    aod_rows,
                    aod_cols,
                ));
            }
        }
    }
}

impl DPQAVars {
    /// Constrain all qubits to stay within grid bounds
    fn constraint_grid_bounds(&self, fs: &mut Vec<Formula>)
        requires
            self.wf(),
        ensures
            final(fs)@.len() >= old(fs)@.len(),
            forall|m: int| 0 <= m < old(fs)@.len() ==> final(fs)@[m] == old(fs)@[m],
            formulas_wf(final(fs)@, self.n_qubits as nat, self.n_stages as nat, self.n_gates as nat)
                <== formulas_wf(
                old(fs)@,
                self.n_qubits as nat,
                self.n_stages as nat,
                self.n_gates as nat,
            ),
            forall|v: DPQAVarsValues|
                sat_all(v, final(fs)@) == (sat_all(v, old(fs)@) && grid_bounds_all(
                    v,
                    self.n_qubits as int,
                    self.n_stages as int,
                    self.rows,
                    self.cols,
                    self.aod_rows,
                    self.aod_cols,
                )),
    {
        let nq = self.n_qubits;
        let ns = self.n_stages;
        let ghost mut emitted: Seq<Formula> = Seq::empty();
        proof {
            assert(fs@ =~= old(fs)@ + emitted);
        }
        let mut q: usize = 0;
        while q < nq
            invariant
                fs@ == old(fs)@ + emitted,
                forall|m: int|
                    0 <= m < emitted.len() ==> is_bounds_formula(
                        #[trigger] emitted[m],
                        nq as int,
                        ns as int,
                        self.rows,
                        self.cols,
                        self.aod_rows,
                        self.aod_cols,
                    ),
                forall|a: int, b: int|
                    0 <= a < nq && 0 <= b < ns && a < q ==> #[trigger] emitted.contains(
                        Formula::Bounds {
                            q: a as usize,
                            t: b as usize,
                            rows: self.rows,
                            cols: self.cols,
                            aod_rows: self.aod_rows,
                            aod_cols: self.aod_cols,
                        },
                    ),
                q <= nq,
            decreases nq - q,
        {
            let mut t: usize = 0;
            while t < ns
                invariant
                    fs@ == old(fs)@ + emitted,
                    q < nq,
                    forall|m: int|
                        0 <= m < emitted.len() ==> is_bounds_formula(
                            #[trigger] emitted[m],
                            nq as int,
                            ns as int,
                            self.rows,
                            self.cols,
                            self.aod_rows,
                            self.aod_cols,
                        ),
                    forall|a: int, b: int|
                        0 <= a < nq && 0 <= b < ns && (a < q || (a == q && b < t))
                            ==> #[trigger] emitted.contains(
                            Formula::Bounds {
                                q: a as usize,
                                t: b as usize,
                                rows: self.rows,
                                cols: self.cols,
                                aod_rows: self.aod_rows,
                                aod_cols: self.aod_cols,
                            },
                        ),
                    t <= ns,
                decreases ns - t,
            {
                let f = Formula::Bounds {
                    q,
                    t,
                    rows: self.rows,
                    cols: self.cols,
                    aod_rows: self.aod_rows,
                    aod_cols: self.aod_cols,
                };
                fs.push(f);
                proof {
                    let pre = emitted;
                    emitted = emitted.push(
                        Formula::Bounds {
                            q,
                            t,
                            rows: self.rows,
                            cols: self.cols,
                            aod_rows: self.aod_rows,
                            aod_cols: self.aod_cols,
                        },
                    );
                    assert(fs@ =~= old(fs)@ + emitted);
                    assert forall|g: Formula| pre.contains(g) implies emitted.contains(g) by {
                        let m = choose|m: int| 0 <= m < pre.len() && pre[m] == g;
                        assert(emitted[m] == g);
                    }
                    assert(emitted[pre.len() as int] == Formula::Bounds {
                        q,
                        t,
                        rows: self.rows,
                        cols: self.cols,
                        aod_rows: self.aod_rows,
                        aod_cols: self.aod_cols,
                    });
                    assert(emitted.contains(
                        Formula::Bounds {
                            q,
                            t,
                            rows: self.rows,
                            cols: self.cols,
                            aod_rows: self.aod_rows,
                            aod_cols: self.aod_cols,
                        },
                    ));
                }
                t = t + 1;
            }
            q = q + 1;
        }
        proof {
            lemma_bounds_sem(
                emitted,
                nq as int,
                ns as int,
                self.rows,
                self.cols,
                self.aod_rows,
                self.aod_cols,
            );
            assert forall|v: DPQAVarsValues|
                sat_all(v, fs@) == (sat_all(v, old(fs)@) && grid_bounds_all(
                    v,
                    nq as int,
                    ns as int,
                    self.rows,
                    self.cols,
                    self.aod_rows,
                    self.aod_cols,
                )) by {
                lemma_sat_add(v, old(fs)@, emitted);
            }
            assert forall|m: int|
                0 <= m < fs@.len() && formulas_wf(
                    old(fs)@,
                    nq as nat,
                    ns as nat,
                    self.n_gates as nat,
                ) implies formula_wf(
                #[trigger] fs@[m],
                nq as nat,
                ns as nat,
                self.n_gates as nat,
            ) by {
                if m >= old(fs)@.len() {
                    assert(is_bounds_formula(
                        emitted[m - old(fs)@.len()],
                        nq as int,
                        ns as int,
                        self.rows,
                        self.cols,
                        self.aod_rows,
                        self.aod_cols,
                    ));
                }
            }
        }
    }
}

/// Appending a whole list of formulas conjoins its meaning.
pub proof fn lemma_sat_add(v: DPQAVarsValues, fs: Seq<Formula>, gs: Seq<Formula>)
    ensures
        sat_all(v, fs + gs) == (sat_all(v, fs) && sat_all(v, gs)),
{
    let both = fs + gs;
    if sat_all(v, both) {
        assert forall|i: int| 0 <= i < fs.len() implies formula_holds(v, #[trigger] fs[i]) by {
            assert(both[i] == fs[i]);
            assert(formula_holds(v, both[i]));
        }
        assert forall|i: int| 0 <= i < gs.len() implies formula_holds(v, #[trigger] gs[i]) by {
            assert(both[fs.len() + i] == gs[i]);
            assert(formula_holds(v, both[fs.len() + i]));
        }
    }
    if sat_all(v, fs) && sat_all(v, gs) {
        assert forall|i: int| 0 <= i < both.len() implies formula_holds(v, #[trigger] both[i]) by {
            if i < fs.len() {
                assert(both[i] == fs[i]);
            } else {
                assert(both[i] == gs[i - fs.len()]);
            }
        }
    }
}


/// The emitted formula is one AOD rigidity rule instance of this instance.
pub open spec fn is_move_together_formula(f: Formula, nq: int, ns: int) -> bool {
    match f {
        Formula::MoveTogether { q1, q2, t } => q1 < q2 && (q2 as int) < nq && 1 <= t && (t as int) < ns,
        _ => false,
    }
}

/// A list of AOD rigidity formulas, one per qubit pair and move, means
/// exactly the corresponding predicate.
proof fn lemma_move_together_sem(emitted: Seq<Formula>, nq: int, ns: int)
    requires
        0 <= nq <= usize::MAX,
        0 <= ns <= usize::MAX,
        forall|m: int| 0 <= m < emitted.len() ==> is_move_together_formula(#[trigger] emitted[m], nq, ns),
        forall|a: int, b: int, u: int|
            0 <= a < b < nq && 1 <= u < ns ==> #[trigger] emitted.contains(
                Formula::MoveTogether { q1: a as usize, q2: b as usize, t: u as usize },
            ),
    ensures
        forall|v: DPQAVarsValues| sat_all(v, emitted) == move_together_all(v, nq, ns),
{
    assert forall|v: DPQAVarsValues| sat_all(v, emitted) == move_together_all(v, nq, ns) by {
        if sat_all(v, emitted) {
            assert forall|a: int, b: int, u: int|
                0 <= a < b < nq && 1 <= u < ns implies #[trigger] move_together_at(v, a, b, u) by {
                let f = Formula::MoveTogether { q1: a as usize, q2: b as usize, t: u as usize };
                assert(emitted.contains(f));
                let m = choose|m: int| 0 <= m < emitted.len() && emitted[m] == f;
                assert(formula_holds(v, emitted[m]));
            }
        }
        if move_together_all(v, nq, ns) {
            assert forall|m: int|
                0 <= m < emitted.len() implies formula_holds(v, #[trigger] emitted[m]) by {
                let f = emitted[m];
                assert(is_move_together_formula(f, nq, ns));
                assert(move_together_at(v, f->MoveTogether_q1 as int, f->MoveTogether_q2 as int, f->MoveTogether_t as int));
            }
        }
    }
}

impl DPQAVars {
    /// Emit the pairwise part of AOD rigidity: atoms sharing a logical
    /// column or row move to one physical column or row.
    fn emit_move_together(&self, fs: &mut Vec<Formula>)
        requires
            self.wf(),
        ensures
            final(fs)@.len() >= old(fs)@.len(),
            forall|m: int| 0 <= m < old(fs)@.len() ==> final(fs)@[m] == old(fs)@[m],
            formulas_wf(final(fs)@, self.n_qubits as nat, self.n_stages as nat, self.n_gates as nat)
                <== formulas_wf(
                old(fs)@,
                self.n_qubits as nat,
                self.n_stages as nat,
                self.n_gates as nat,
            ),
            forall|v: DPQAVarsValues|
                sat_all(v, final(fs)@) == (sat_all(v, old(fs)@) && move_together_all(v, self.n_qubits as int, self.n_stages as int)),
    {
        let nq = self.n_qubits;
        let ns = self.n_stages;
        let ghost mut emitted: Seq<Formula> = Seq::empty();
        proof {
            assert(fs@ =~= old(fs)@ + emitted);
        }
        let mut q1: usize = 0;
        while q1 < nq
            invariant
                fs@ == old(fs)@ + emitted,
                forall|m: int|
                    0 <= m < emitted.len() ==> is_move_together_formula(
                        #[trigger] emitted[m],
                        nq as int,
                        ns as int,
                    ),
                forall|a: int, b: int, u: int|
                    0 <= a < b < nq && 1 <= u < ns && a < q1 ==> #[trigger] emitted.contains(
                        Formula::MoveTogether { q1: a as usize, q2: b as usize, t: u as usize },
                    ),
                q1 <= nq,
            decreases nq - q1,
        {
            let mut q2: usize = q1 + 1;
            while q2 < nq
                invariant
                    fs@ == old(fs)@ + emitted,
                    q1 < nq,
                    forall|m: int|
                        0 <= m < emitted.len() ==> is_move_together_formula(
                            #[trigger] emitted[m],
                            nq as int,
                            ns as int,
                        ),
                    forall|a: int, b: int, u: int|
                        0 <= a < b < nq && 1 <= u < ns && (a < q1 || (a == q1 && b < q2))
                            ==> #[trigger] emitted.contains(
                            Formula::MoveTogether { q1: a as usize, q2: b as usize, t: u as usize },
                        ),
                    q1 < q2 <= nq,
                decreases nq - q2,
            {
                let mut t: usize = 1;
                while t < ns
                    invariant
                        fs@ == old(fs)@ + emitted,
                        q1 < q2 < nq,
                        forall|m: int|
                            0 <= m < emitted.len() ==> is_move_together_formula(
                                #[trigger] emitted[m],
                                nq as int,
                                ns as int,
                            ),
                        forall|a: int, b: int, u: int|
                            0 <= a < b < nq && 1 <= u < ns && (a < q1 || (a == q1 && b < q2) || (
                            a == q1 && b == q2 && u < t)) ==> #[trigger] emitted.contains(
                                Formula::MoveTogether { q1: a as usize, q2: b as usize, t: u as usize },
                            ),
                        1 <= t,
                        t <= ns || ns == 0,
                    decreases ns - t,
                {
                    fs.push(Formula::MoveTogether { q1, q2, t });
                    proof {
                        let pre = emitted;
                        emitted = emitted.push(Formula::MoveTogether { q1, q2, t });
                        assert(fs@ =~= old(fs)@ + emitted);
                        assert forall|g: Formula| pre.contains(g) implies emitted.contains(g) by {
                            let m = choose|m: int| 0 <= m < pre.len() && pre[m] == g;
                            assert(emitted[m] == g);
                        }
                        assert(emitted[pre.len() as int] == Formula::MoveTogether { q1, q2, t });
                        assert(emitted.contains(Formula::MoveTogether { q1, q2, t }));
                    }
                    t = t + 1;
                }
                q2 = q2 + 1;
            }
            q1 = q1 + 1;
        }
        proof {
            lemma_move_together_sem(emitted, nq as int, ns as int);
            assert forall|v: DPQAVarsValues|
                sat_all(v, fs@) == (sat_all(v, old(fs)@) && move_together_all(v, self.n_qubits as int, self.n_stages as int)) by {
                lemma_sat_add(v, old(fs)@, emitted);
            }
            assert forall|m: int|
                0 <= m < fs@.len() && formulas_wf(
                    old(fs)@,
                    nq as nat,
                    ns as nat,
                    self.n_gates as nat,
                ) implies formula_wf(
                #[trigger] fs@[m],
                nq as nat,
                ns as nat,
                self.n_gates as nat,
            ) by {
                if m >= old(fs)@.len() {
                    assert(is_move_together_formula(emitted[m - old(fs)@.len()], nq as int, ns as int));
                }
            }
        }
    }
}


/// The emitted formula is one AOD ordering rule instance of this instance.
pub open spec fn is_aod_order_formula(f: Formula, nq: int, ns: int) -> bool {
    match f {
        Formula::AodOrder { q1, q2, t } => q1 < q2 && (q2 as int) < nq && 0 <= t && (t as int) < ns,
        _ => false,
    }
}

/// A list of AOD ordering formulas, one per qubit pair and stage, means
/// exactly the corresponding predicate.
proof fn lemma_aod_order_sem(emitted: Seq<Formula>, nq: int, ns: int)
    requires
        0 <= nq <= usize::MAX,
        0 <= ns <= usize::MAX,
        forall|m: int| 0 <= m < emitted.len() ==> is_aod_order_formula(#[trigger] emitted[m], nq, ns),
        forall|a: int, b: int, u: int|
            0 <= a < b < nq && 0 <= u < ns ==> #[trigger] emitted.contains(
                Formula::AodOrder { q1: a as usize, q2: b as usize, t: u as usize },
            ),
    ensures
        forall|v: DPQAVarsValues| sat_all(v, emitted) == aod_order_all(v, nq, ns),
{
    assert forall|v: DPQAVarsValues| sat_all(v, emitted) == aod_order_all(v, nq, ns) by {
        if sat_all(v, emitted) {
            assert forall|a: int, b: int, u: int|
                0 <= a < b < nq && 0 <= u < ns implies #[trigger] aod_order_at(v, a, b, u) by {
                let f = Formula::AodOrder { q1: a as usize, q2: b as usize, t: u as usize };
                assert(emitted.contains(f));
                let m = choose|m: int| 0 <= m < emitted.len() && emitted[m] == f;
                assert(formula_holds(v, emitted[m]));
            }
        }
        if aod_order_all(v, nq, ns) {
            assert forall|m: int|
                0 <= m < emitted.len() implies formula_holds(v, #[trigger] emitted[m]) by {
                let f = emitted[m];
                assert(is_aod_order_formula(f, nq, ns));
                assert(aod_order_at(v, f->AodOrder_q1 as int, f->AodOrder_q2 as int, f->AodOrder_t as int));
            }
        }
    }
}

impl DPQAVars {
    /// The order of AOD columns must be consistent with the order\n    /// of SLM columns
    fn constraint_aod_order_from_slm(&self, fs: &mut Vec<Formula>)
        requires
            self.wf(),
        ensures
            final(fs)@.len() >= old(fs)@.len(),
            forall|m: int| 0 <= m < old(fs)@.len() ==> final(fs)@[m] == old(fs)@[m],
            formulas_wf(final(fs)@, self.n_qubits as nat, self.n_stages as nat, self.n_gates as nat)
                <== formulas_wf(
                old(fs)@,
                self.n_qubits as nat,
                self.n_stages as nat,
                self.n_gates as nat,
            ),
            forall|v: DPQAVarsValues|
                sat_all(v, final(fs)@) == (sat_all(v, old(fs)@) && aod_order_all(v, self.n_qubits as int, self.n_stages as int)),
    {
        let nq = self.n_qubits;
        let ns = self.n_stages;
        let ghost mut emitted: Seq<Formula> = Seq::empty();
        proof {
            assert(fs@ =~= old(fs)@ + emitted);
        }
        let mut q1: usize = 0;
        while q1 < nq
            invariant
                fs@ == old(fs)@ + emitted,
                forall|m: int|
                    0 <= m < emitted.len() ==> is_aod_order_formula(
                        #[trigger] emitted[m],
                        nq as int,
                        ns as int,
                    ),
                forall|a: int, b: int, u: int|
                    0 <= a < b < nq && 0 <= u < ns && a < q1 ==> #[trigger] emitted.contains(
                        Formula::AodOrder { q1: a as usize, q2: b as usize, t: u as usize },
                    ),
                q1 <= nq,
            decreases nq - q1,
        {
            let mut q2: usize = q1 + 1;
            while q2 < nq
                invariant
                    fs@ == old(fs)@ + emitted,
                    q1 < nq,
                    forall|m: int|
                        0 <= m < emitted.len() ==> is_aod_order_formula(
                            #[trigger] emitted[m],
                            nq as int,
                            ns as int,
                        ),
                    forall|a: int, b: int, u: int|
                        0 <= a < b < nq && 0 <= u < ns && (a < q1 || (a == q1 && b < q2))
                            ==> #[trigger] emitted.contains(
                            Formula::AodOrder { q1: a as usize, q2: b as usize, t: u as usize },
                        ),
                    q1 < q2 <= nq,
                decreases nq - q2,
            {
                let mut t: usize = 0;
                while t < ns
                    invariant
                        fs@ == old(fs)@ + emitted,
                        q1 < q2 < nq,
                        forall|m: int|
                            0 <= m < emitted.len() ==> is_aod_order_formula(
                                #[trigger] emitted[m],
                                nq as int,
                                ns as int,
                            ),
                        forall|a: int, b: int, u: int|
                            0 <= a < b < nq && 0 <= u < ns && (a < q1 || (a == q1 && b < q2) || (
                            a == q1 && b == q2 && u < t)) ==> #[trigger] emitted.contains(
                                Formula::AodOrder { q1: a as usize, q2: b as usize, t: u as usize },
                            ),
                        0 <= t,
                        t <= ns,
                    decreases ns - t,
                {
                    fs.push(Formula::AodOrder { q1, q2, t });
                    proof {
                        let pre = emitted;
                        emitted = emitted.push(Formula::AodOrder { q1, q2, t });
                        assert(fs@ =~= old(fs)@ + emitted);
                        assert forall|g: Formula| pre.contains(g) implies emitted.contains(g) by {
                            let m = choose|m: int| 0 <= m < pre.len() && pre[m] == g;
                            assert(emitted[m] == g);
                        }
                        assert(emitted[pre.len() as int] == Formula::AodOrder { q1, q2, t });
                        assert(emitted.contains(Formula::AodOrder { q1, q2, t }));
                    }
                    t = t + 1;
                }
                q2 = q2 + 1;
            }
            q1 = q1 + 1;
        }
        proof {
            lemma_aod_order_sem(emitted, nq as int, ns as int);
            assert forall|v: DPQAVarsValues|
                sat_all(v, fs@) == (sat_all(v, old(fs)@) && aod_order_all(v, self.n_qubits as int, self.n_stages as int)) by {
                lemma_sat_add(v, old(fs)@, emitted);
            }
            assert forall|m: int|
                0 <= m < fs@.len() && formulas_wf(
                    old(fs)@,
                    nq as nat,
                    ns as nat,
                    self.n_gates as nat,
                ) implies formula_wf(
                #[trigger] fs@[m],
                nq as nat,
                ns as nat,
                self.n_gates as nat,
            ) by {
                if m >= old(fs)@.len() {
                    assert(is_aod_order_formula(emitted[m - old(fs)@.len()], nq as int, ns as int));
                }
            }
        }
    }
}


/// The emitted formula is one move ordering rule instance of this instance.
pub open spec fn is_slm_order_formula(f: Formula, nq: int, ns: int) -> bool {
    match f {
        Formula::SlmOrder { q1, q2, t } => q1 < q2 && (q2 as int) < nq && 1 <= t && (t as int) < ns,
        _ => false,
    }
}

/// A list of move ordering formulas, one per qubit pair and move, means
/// exactly the corresponding predicate.
proof fn lemma_slm_order_sem(emitted: Seq<Formula>, nq: int, ns: int)
    requires
        0 <= nq <= usize::MAX,
        0 <= ns <= usize::MAX,
        forall|m: int| 0 <= m < emitted.len() ==> is_slm_order_formula(#[trigger] emitted[m], nq, ns),
        forall|a: int, b: int, u: int|
            0 <= a < b < nq && 1 <= u < ns ==> #[trigger] emitted.contains(
                Formula::SlmOrder { q1: a as usize, q2: b as usize, t: u as usize },
            ),
    ensures
        forall|v: DPQAVarsValues| sat_all(v, emitted) == slm_order_all(v, nq, ns),
{
    assert forall|v: DPQAVarsValues| sat_all(v, emitted) == slm_order_all(v, nq, ns) by {
        if sat_all(v, emitted) {
            assert forall|a: int, b: int, u: int|
                0 <= a < b < nq && 1 <= u < ns implies #[trigger] slm_order_at(v, a, b, u) by {
                let f = Formula::SlmOrder { q1: a as usize, q2: b as usize, t: u as usize };
                assert(emitted.contains(f));
                let m = choose|m: int| 0 <= m < emitted.len() && emitted[m] == f;
                assert(formula_holds(v, emitted[m]));
            }
        }
        if slm_order_all(v, nq, ns) {
            assert forall|m: int|
                0 <= m < emitted.len() implies formula_holds(v, #[trigger] emitted[m]) by {
                let f = emitted[m];
                assert(is_slm_order_formula(f, nq, ns));
                assert(slm_order_at(v, f->SlmOrder_q1 as int, f->SlmOrder_q2 as int, f->SlmOrder_t as int));
            }
        }
    }
}

impl DPQAVars {
    /// The order of SLM columns must be consistent with the order\n    /// of AOD columns
    fn constraint_slm_order_from_aod(&self, fs: &mut Vec<Formula>)
        requires
            self.wf(),
        ensures
            final(fs)@.len() >= old(fs)@.len(),
            forall|m: int| 0 <= m < old(fs)@.len() ==> final(fs)@[m] == old(fs)@[m],
            formulas_wf(final(fs)@, self.n_qubits as nat, self.n_stages as nat, self.n_gates as nat)
                <== formulas_wf(
                old(fs)@,
                self.n_qubits as nat,
                self.n_stages as nat,
                self.n_gates as nat,
            ),
            forall|v: DPQAVarsValues|
                sat_all(v, final(fs)@) == (sat_all(v, old(fs)@) && slm_order_all(v, self.n_qubits as int, self.n_stages as int)),
    {
        let nq = self.n_qubits;
        let ns = self.n_stages;
        let ghost mut emitted: Seq<Formula> = Seq::empty();
        proof {
            assert(fs@ =~= old(fs)@ + emitted);
        }
        let mut q1: usize = 0;
        while q1 < nq
            invariant
                fs@ == old(fs)@ + emitted,
                forall|m: int|
                    0 <= m < emitted.len() ==> is_slm_order_formula(
                        #[trigger] emitted[m],
                        nq as int,
                        ns as int,
                    ),
                forall|a: int, b: int, u: int|
                    0 <= a < b < nq && 1 <= u < ns && a < q1 ==> #[trigger] emitted.contains(
                        Formula::SlmOrder { q1: a as usize, q2: b as usize, t: u as usize },
                    ),
                q1 <= nq,
            decreases nq - q1,
        {
            let mut q2: usize = q1 + 1;
            while q2 < nq
                invariant
                    fs@ == old(fs)@ + emitted,
                    q1 < nq,
                    forall|m: int|
                        0 <= m < emitted.len() ==> is_slm_order_formula(
                            #[trigger] emitted[m],
                            nq as int,
                            ns as int,
                        ),
                    forall|a: int, b: int, u: int|
                        0 <= a < b < nq && 1 <= u < ns && (a < q1 || (a == q1 && b < q2))
                            ==> #[trigger] emitted.contains(
                            Formula::SlmOrder { q1: a as usize, q2: b as usize, t: u as usize },
                        ),
                    q1 < q2 <= nq,
                decreases nq - q2,
            {
                let mut t: usize = 1;
                while t < ns
                    invariant
                        fs@ == old(fs)@ + emitted,
                        q1 < q2 < nq,
                        forall|m: int|
                            0 <= m < emitted.len() ==> is_slm_order_formula(
                                #[trigger] emitted[m],
                                nq as int,
                                ns as int,
                            ),
                        forall|a: int, b: int, u: int|
                            0 <= a < b < nq && 1 <= u < ns && (a < q1 || (a == q1 && b < q2) || (
                            a == q1 && b == q2 && u < t)) ==> #[trigger] emitted.contains(
                                Formula::SlmOrder { q1: a as usize, q2: b as usize, t: u as usize },
                            ),
                        1 <= t,
                        t <= ns || ns == 0,
                    decreases ns - t,
                {
                    fs.push(Formula::SlmOrder { q1, q2, t });
                    proof {
                        let pre = emitted;
                        emitted = emitted.push(Formula::SlmOrder { q1, q2, t });
                        assert(fs@ =~= old(fs)@ + emitted);
                        assert forall|g: Formula| pre.contains(g) implies emitted.contains(g) by {
                            let m = choose|m: int| 0 <= m < pre.len() && pre[m] == g;
                            assert(emitted[m] == g);
                        }
                        assert(emitted[pre.len() as int] == Formula::SlmOrder { q1, q2, t });
                        assert(emitted.contains(Formula::SlmOrder { q1, q2, t }));
                    }
                    t = t + 1;
                }
                q2 = q2 + 1;
            }
            q1 = q1 + 1;
        }
        proof {
            lemma_slm_order_sem(emitted, nq as int, ns as int);
            assert forall|v: DPQAVarsValues|
                sat_all(v, fs@) == (sat_all(v, old(fs)@) && slm_order_all(v, self.n_qubits as int, self.n_stages as int)) by {
                lemma_sat_add(v, old(fs)@, emitted);
            }
            assert forall|m: int|
                0 <= m < fs@.len() && formulas_wf(
                    old(fs)@,
                    nq as nat,
                    ns as nat,
                    self.n_gates as nat,
                ) implies formula_wf(
                #[trigger] fs@[m],
                nq as nat,
                ns as nat,
                self.n_gates as nat,
            ) by {
                if m >= old(fs)@.len() {
                    assert(is_slm_order_formula(emitted[m - old(fs)@.len()], nq as int, ns as int));
                }
            }
        }
    }
}


/// The emitted formula is one crowding rule instance of this instance.
pub open spec fn is_crowd_steps_formula(f: Formula, nq: int, ns: int) -> bool {
    match f {
        Formula::Crowd { q1, q2, t } => q1 < q2 && (q2 as int) < nq && 1 <= t && (t as int) < ns,
        _ => false,
    }
}

/// A list of crowding formulas, one per qubit pair and move, means
/// exactly the corresponding predicate.
proof fn lemma_crowd_steps_sem(emitted: Seq<Formula>, nq: int, ns: int)
    requires
        0 <= nq <= usize::MAX,
        0 <= ns <= usize::MAX,
        forall|m: int| 0 <= m < emitted.len() ==> is_crowd_steps_formula(#[trigger] emitted[m], nq, ns),
        forall|a: int, b: int, u: int|
            0 <= a < b < nq && 1 <= u < ns ==> #[trigger] emitted.contains(
                Formula::Crowd { q1: a as usize, q2: b as usize, t: u as usize },
            ),
    ensures
        forall|v: DPQAVarsValues| sat_all(v, emitted) == crowd_steps_all(v, nq, ns),
{
    assert forall|v: DPQAVarsValues| sat_all(v, emitted) == crowd_steps_all(v, nq, ns) by {
        if sat_all(v, emitted) {
            assert forall|a: int, b: int, u: int|
                0 <= a < b < nq && 1 <= u < ns implies #[trigger] crowd_at(v, a, b, u - 1, u) by {
                let f = Formula::Crowd { q1: a as usize, q2: b as usize, t: u as usize };
                assert(emitted.contains(f));
                let m = choose|m: int| 0 <= m < emitted.len() && emitted[m] == f;
                assert(formula_holds(v, emitted[m]));
            }
        }
        if crowd_steps_all(v, nq, ns) {
            assert forall|m: int|
                0 <= m < emitted.len() implies formula_holds(v, #[trigger] emitted[m]) by {
                let f = emitted[m];
                assert(is_crowd_steps_formula(f, nq, ns));
                assert(crowd_at(v, f->Crowd_q1 as int, f->Crowd_q2 as int, f->Crowd_t as int - 1, f->Crowd_t as int));
            }
        }
    }
}

impl DPQAVars {
    /// Emit the per-move part of the AOD crowding rule.
    fn emit_crowd_steps(&self, fs: &mut Vec<Formula>)
        requires
            self.wf(),
        ensures
            final(fs)@.len() >= old(fs)@.len(),
            forall|m: int| 0 <= m < old(fs)@.len() ==> final(fs)@[m] == old(fs)@[m],
            formulas_wf(final(fs)@, self.n_qubits as nat, self.n_stages as nat, self.n_gates as nat)
                <== formulas_wf(
                old(fs)@,
                self.n_qubits as nat,
                self.n_stages as nat,
                self.n_gates as nat,
            ),
            forall|v: DPQAVarsValues|
                sat_all(v, final(fs)@) == (sat_all(v, old(fs)@) && crowd_steps_all(v, self.n_qubits as int, self.n_stages as int)),
    {
        let nq = self.n_qubits;
        let ns = self.n_stages;
        let ghost mut emitted: Seq<Formula> = Seq::empty();
        proof {
            assert(fs@ =~= old(fs)@ + emitted);
        }
        let mut q1: usize = 0;
        while q1 < nq
            invariant
                fs@ == old(fs)@ + emitted,
                forall|m: int|
                    0 <= m < emitted.len() ==> is_crowd_steps_formula(
                        #[trigger] emitted[m],
                        nq as int,
                        ns as int,
                    ),
                forall|a: int, b: int, u: int|
                    0 <= a < b < nq && 1 <= u < ns && a < q1 ==> #[trigger] emitted.contains(
                        Formula::Crowd { q1: a as usize, q2: b as usize, t: u as usize },
                    ),
                q1 <= nq,
            decreases nq - q1,
        {
            let mut q2: usize = q1 + 1;
            while q2 < nq
                invariant
                    fs@ == old(fs)@ + emitted,
                    q1 < nq,
                    forall|m: int|
                        0 <= m < emitted.len() ==> is_crowd_steps_formula(
                            #[trigger] emitted[m],
                            nq as int,
                            ns as int,
                        ),
                    forall|a: int, b: int, u: int|
                        0 <= a < b < nq && 1 <= u < ns && (a < q1 || (a == q1 && b < q2))
                            ==> #[trigger] emitted.contains(
                            Formula::Crowd { q1: a as usize, q2: b as usize, t: u as usize },
                        ),
                    q1 < q2 <= nq,
                decreases nq - q2,
            {
                let mut t: usize = 1;
                while t < ns
                    invariant
                        fs@ == old(fs)@ + emitted,
                        q1 < q2 < nq,
                        forall|m: int|
                            0 <= m < emitted.len() ==> is_crowd_steps_formula(
                                #[trigger] emitted[m],
                                nq as int,
                                ns as int,
                            ),
                        forall|a: int, b: int, u: int|
                            0 <= a < b < nq && 1 <= u < ns && (a < q1 || (a == q1 && b < q2) || (
                            a == q1 && b == q2 && u < t)) ==> #[trigger] emitted.contains(
                                Formula::Crowd { q1: a as usize, q2: b as usize, t: u as usize },
                            ),
                        1 <= t,
                        t <= ns || ns == 0,
                    decreases ns - t,
                {
                    fs.push(Formula::Crowd { q1, q2, t });
                    proof {
                        let pre = emitted;
                        emitted = emitted.push(Formula::Crowd { q1, q2, t });
                        assert(fs@ =~= old(fs)@ + emitted);
                        assert forall|g: Formula| pre.contains(g) implies emitted.contains(g) by {
                            let m = choose|m: int| 0 <= m < pre.len() && pre[m] == g;
                            assert(emitted[m] == g);
                        }
                        assert(emitted[pre.len() as int] == Formula::Crowd { q1, q2, t });
                        assert(emitted.contains(Formula::Crowd { q1, q2, t }));
                    }
                    t = t + 1;
                }
                q2 = q2 + 1;
            }
            q1 = q1 + 1;
        }
        proof {
            lemma_crowd_steps_sem(emitted, nq as int, ns as int);
            assert forall|v: DPQAVarsValues|
                sat_all(v, fs@) == (sat_all(v, old(fs)@) && crowd_steps_all(v, self.n_qubits as int, self.n_stages as int)) by {
                lemma_sat_add(v, old(fs)@, emitted);
            }
            assert forall|m: int|
                0 <= m < fs@.len() && formulas_wf(
                    old(fs)@,
                    nq as nat,
                    ns as nat,
                    self.n_gates as nat,
                ) implies formula_wf(
                #[trigger] fs@[m],
                nq as nat,
                ns as nat,
                self.n_gates as nat,
            ) by {
                if m >= old(fs)@.len() {
                    assert(is_crowd_steps_formula(emitted[m - old(fs)@.len()], nq as int, ns as int));
                }
            }
        }
    }
}


/// The emitted formula is one site exclusion rule instance of this instance.
pub open spec fn is_site_exclusion_formula(f: Formula, nq: int, ns: int) -> bool {
    match f {
        Formula::SiteExclusion { q1, q2, t } => q1 < q2 && (q2 as int) < nq && 0 <= t && (t as int) < ns,
        _ => false,
    }
}

/// A list of site exclusion formulas, one per qubit pair and stage, means
/// exactly the corresponding predicate.
proof fn lemma_site_exclusion_sem(emitted: Seq<Formula>, nq: int, ns: int)
    requires
        0 <= nq <= usize::MAX,
        0 <= ns <= usize::MAX,
        forall|m: int| 0 <= m < emitted.len() ==> is_site_exclusion_formula(#[trigger] emitted[m], nq, ns),
        forall|a: int, b: int, u: int|
            0 <= a < b < nq && 0 <= u < ns ==> #[trigger] emitted.contains(
                Formula::SiteExclusion { q1: a as usize, q2: b as usize, t: u as usize },
            ),
    ensures
        forall|v: DPQAVarsValues| sat_all(v, emitted) == site_exclusion_all(v, nq, ns),
{
    assert forall|v: DPQAVarsValues| sat_all(v, emitted) == site_exclusion_all(v, nq, ns) by {
        if sat_all(v, emitted) {
            assert forall|a: int, b: int, u: int|
                0 <= a < b < nq && 0 <= u < ns implies #[trigger] site_exclusion_at(v, a, b, u) by {
                let f = Formula::SiteExclusion { q1: a as usize, q2: b as usize, t: u as usize };
                assert(emitted.contains(f));
                let m = choose|m: int| 0 <= m < emitted.len() && emitted[m] == f;
                assert(formula_holds(v, emitted[m]));
            }
        }
        if site_exclusion_all(v, nq, ns) {
            assert forall|m: int|
                0 <= m < emitted.len() implies formula_holds(v, #[trigger] emitted[m]) by {
                let f = emitted[m];
                assert(is_site_exclusion_formula(f, nq, ns));
                assert(site_exclusion_at(v, f->SiteExclusion_q1 as int, f->SiteExclusion_q2 as int, f->SiteExclusion_t as int));
            }
        }
    }
}

impl DPQAVars {
    /// Limit traps to one atom at a time
    fn constraint_site_crowding(&self, fs: &mut Vec<Formula>)
        requires
            self.wf(),
        ensures
            final(fs)@.len() >= old(fs)@.len(),
            forall|m: int| 0 <= m < old(fs)@.len() ==> final(fs)@[m] == old(fs)@[m],
            formulas_wf(final(fs)@, self.n_qubits as nat, self.n_stages as nat, self.n_gates as nat)
                <== formulas_wf(
                old(fs)@,
                self.n_qubits as nat,
                self.n_stages as nat,
                self.n_gates as nat,
            ),
            forall|v: DPQAVarsValues|
                sat_all(v, final(fs)@) == (sat_all(v, old(fs)@) && site_exclusion_all(v, self.n_qubits as int, self.n_stages as int)),
    {
        let nq = self.n_qubits;
        let ns = self.n_stages;
        let ghost mut emitted: Seq<Formula> = Seq::empty();
        proof {
            assert(fs@ =~= old(fs)@ + emitted);
        }
        let mut q1: usize = 0;
        while q1 < nq
            invariant
                fs@ == old(fs)@ + emitted,
                forall|m: int|
                    0 <= m < emitted.len() ==> is_site_exclusion_formula(
                        #[trigger] emitted[m],
                        nq as int,
                        ns as int,
                    ),
                forall|a: int, b: int, u: int|
                    0 <= a < b < nq && 0 <= u < ns && a < q1 ==> #[trigger] emitted.contains(
                        Formula::SiteExclusion { q1: a as usize, q2: b as usize, t: u as usize },
                    ),
                q1 <= nq,
            decreases nq - q1,
        {
            let mut q2: usize = q1 + 1;
            while q2 < nq
                invariant
                    fs@ == old(fs)@ + emitted,
                    q1 < nq,
                    forall|m: int|
                        0 <= m < emitted.len() ==> is_site_exclusion_formula(
                            #[trigger] emitted[m],
                            nq as int,
                            ns as int,
                        ),
                    forall|a: int, b: int, u: int|
                        0 <= a < b < nq && 0 <= u < ns && (a < q1 || (a == q1 && b < q2))
                            ==> #[trigger] emitted.contains(
                            Formula::SiteExclusion { q1: a as usize, q2: b as usize, t: u as usize },
                        ),
                    q1 < q2 <= nq,
                decreases nq - q2,
            {
                let mut t: usize = 0;
                while t < ns
                    invariant
                        fs@ == old(fs)@ + emitted,
                        q1 < q2 < nq,
                        forall|m: int|
                            0 <= m < emitted.len() ==> is_site_exclusion_formula(
                                #[trigger] emitted[m],
                                nq as int,
                                ns as int,
                            ),
                        forall|a: int, b: int, u: int|
                            0 <= a < b < nq && 0 <= u < ns && (a < q1 || (a == q1 && b < q2) || (
                            a == q1 && b == q2 && u < t)) ==> #[trigger] emitted.contains(
                                Formula::SiteExclusion { q1: a as usize, q2: b as usize, t: u as usize },
                            ),
                        0 <= t,
                        t <= ns,
                    decreases ns - t,
                {
                    fs.push(Formula::SiteExclusion { q1, q2, t });
                    proof {
                        let pre = emitted;
                        emitted = emitted.push(Formula::SiteExclusion { q1, q2, t });
                        assert(fs@ =~= old(fs)@ + emitted);
                        assert forall|g: Formula| pre.contains(g) implies emitted.contains(g) by {
                            let m = choose|m: int| 0 <= m < pre.len() && pre[m] == g;
                            assert(emitted[m] == g);
                        }
                        assert(emitted[pre.len() as int] == Formula::SiteExclusion { q1, q2, t });
                        assert(emitted.contains(Formula::SiteExclusion { q1, q2, t }));
                    }
                    t = t + 1;
                }
                q2 = q2 + 1;
            }
            q1 = q1 + 1;
        }
        proof {
            lemma_site_exclusion_sem(emitted, nq as int, ns as int);
            assert forall|v: DPQAVarsValues|
                sat_all(v, fs@) == (sat_all(v, old(fs)@) && site_exclusion_all(v, self.n_qubits as int, self.n_stages as int)) by {
                lemma_sat_add(v, old(fs)@, emitted);
            }
            assert forall|m: int|
                0 <= m < fs@.len() && formulas_wf(
                    old(fs)@,
                    nq as nat,
                    ns as nat,
                    self.n_gates as nat,
                ) implies formula_wf(
                #[trigger] fs@[m],
                nq as nat,
                ns as nat,
                self.n_gates as nat,
            ) by {
                if m >= old(fs)@.len() {
                    assert(is_site_exclusion_formula(emitted[m - old(fs)@.len()], nq as int, ns as int));
                }
            }
        }
    }
}


/// The emitted formula is one transfer exclusion rule instance of this instance.
pub open spec fn is_no_swap_formula(f: Formula, nq: int, ns: int) -> bool {
    match f {
        Formula::NoSwap { q1, q2, t } => q1 < q2 && (q2 as int) < nq && 1 <= t && (t as int) < ns,
        _ => false,
    }
}

/// A list of transfer exclusion formulas, one per qubit pair and move, means
/// exactly the corresponding predicate.
proof fn lemma_no_swap_sem(emitted: Seq<Formula>, nq: int, ns: int)
    requires
        0 <= nq <= usize::MAX,
        0 <= ns <= usize::MAX,
        forall|m: int| 0 <= m < emitted.len() ==> is_no_swap_formula(#[trigger] emitted[m], nq, ns),
        forall|a: int, b: int, u: int|
            0 <= a < b < nq && 1 <= u < ns ==> #[trigger] emitted.contains(
                Formula::NoSwap { q1: a as usize, q2: b as usize, t: u as usize },
            ),
    ensures
        forall|v: DPQAVarsValues| sat_all(v, emitted) == no_swap_all(v, nq, ns),
{
    assert forall|v: DPQAVarsValues| sat_all(v, emitted) == no_swap_all(v, nq, ns) by {
        if sat_all(v, emitted) {
            assert forall|a: int, b: int, u: int|
                0 <= a < b < nq && 1 <= u < ns implies #[trigger] no_swap_at(v, a, b, u) by {
                let f = Formula::NoSwap { q1: a as usize, q2: b as usize, t: u as usize };
                assert(emitted.contains(f));
                let m = choose|m: int| 0 <= m < emitted.len() && emitted[m] == f;
                assert(formula_holds(v, emitted[m]));
            }
        }
        if no_swap_all(v, nq, ns) {
            assert forall|m: int|
                0 <= m < emitted.len() implies formula_holds(v, #[trigger] emitted[m]) by {
                let f = emitted[m];
                assert(is_no_swap_formula(f, nq, ns));
                assert(no_swap_at(v, f->NoSwap_q1 as int, f->NoSwap_q2 as int, f->NoSwap_t as int));
            }
        }
    }
}

impl DPQAVars {
    /// Only allow AOD-SLM transfer when there is one atom at a given site
    fn constraint_no_swap(&self, fs: &mut Vec<Formula>)
        requires
            self.wf(),
        ensures
            final(fs)@.len() >= old(fs)@.len(),
            forall|m: int| 0 <= m < old(fs)@.len() ==> final(fs)@[m] == old(fs)@[m],
            formulas_wf(final(fs)@, self.n_qubits as nat, self.n_stages as nat, self.n_gates as nat)
                <== formulas_wf(
                old(fs)@,
                self.n_qubits as nat,
                self.n_stages as nat,
                self.n_gates as nat,
            ),
            forall|v: DPQAVarsValues|
                sat_all(v, final(fs)@) == (sat_all(v, old(fs)@) && no_swap_all(v, self.n_qubits as int, self.n_stages as int)),
    {
        let nq = self.n_qubits;
        let ns = self.n_stages;
        let ghost mut emitted: Seq<Formula> = Seq::empty();
        proof {
            assert(fs@ =~= old(fs)@ + emitted);
        }
        let mut q1: usize = 0;
        while q1 < nq
            invariant
                fs@ == old(fs)@ + emitted,
                forall|m: int|
                    0 <= m < emitted.len() ==> is_no_swap_formula(
                        #[trigger] emitted[m],
                        nq as int,
                        ns as int,
                    ),
                forall|a: int, b: int, u: int|
                    0 <= a < b < nq && 1 <= u < ns && a < q1 ==> #[trigger] emitted.contains(
                        Formula::NoSwap { q1: a as usize, q2: b as usize, t: u as usize },
                    ),
                q1 <= nq,
            decreases nq - q1,
        {
            let mut q2: usize = q1 + 1;
            while q2 < nq
                invariant
                    fs@ == old(fs)@ + emitted,
                    q1 < nq,
                    forall|m: int|
                        0 <= m < emitted.len() ==> is_no_swap_formula(
                            #[trigger] emitted[m],
                            nq as int,
                            ns as int,
                        ),
                    forall|a: int, b: int, u: int|
                        0 <= a < b < nq && 1 <= u < ns && (a < q1 || (a == q1 && b < q2))
                            ==> #[trigger] emitted.contains(
                            Formula::NoSwap { q1: a as usize, q2: b as usize, t: u as usize },
                        ),
                    q1 < q2 <= nq,
                decreases nq - q2,
            {
                let mut t: usize = 1;
                while t < ns
                    invariant
                        fs@ == old(fs)@ + emitted,
                        q1 < q2 < nq,
                        forall|m: int|
                            0 <= m < emitted.len() ==> is_no_swap_formula(
                                #[trigger] emitted[m],
                                nq as int,
                                ns as int,
                            ),
                        forall|a: int, b: int, u: int|
                            0 <= a < b < nq && 1 <= u < ns && (a < q1 || (a == q1 && b < q2) || (
                            a == q1 && b == q2 && u < t)) ==> #[trigger] emitted.contains(
                                Formula::NoSwap { q1: a as usize, q2: b as usize, t: u as usize },
                            ),
                        1 <= t,
                        t <= ns || ns == 0,
                    decreases ns - t,
                {
                    fs.push(Formula::NoSwap { q1, q2, t });
                    proof {
                        let pre = emitted;
                        emitted = emitted.push(Formula::NoSwap { q1, q2, t });
                        assert(fs@ =~= old(fs)@ + emitted);
                        assert forall|g: Formula| pre.contains(g) implies emitted.contains(g) by {
                            let m = choose|m: int| 0 <= m < pre.len() && pre[m] == g;
                            assert(emitted[m] == g);
                        }
                        assert(emitted[pre.len() as int] == Formula::NoSwap { q1, q2, t });
                        assert(emitted.contains(Formula::NoSwap { q1, q2, t }));
                    }
                    t = t + 1;
                }
                q2 = q2 + 1;
            }
            q1 = q1 + 1;
        }
        proof {
            lemma_no_swap_sem(emitted, nq as int, ns as int);
            assert forall|v: DPQAVarsValues|
                sat_all(v, fs@) == (sat_all(v, old(fs)@) && no_swap_all(v, self.n_qubits as int, self.n_stages as int)) by {
                lemma_sat_add(v, old(fs)@, emitted);
            }
            assert forall|m: int|
                0 <= m < fs@.len() && formulas_wf(
                    old(fs)@,
                    nq as nat,
                    ns as nat,
                    self.n_gates as nat,
                ) implies formula_wf(
                #[trigger] fs@[m],
                nq as nat,
                ns as nat,
                self.n_gates as nat,
            ) by {
                if m >= old(fs)@.len() {
                    assert(is_no_swap_formula(emitted[m - old(fs)@.len()], nq as int, ns as int));
                }
            }
        }
    }
}


/// The emitted formula is one stationary-trap rule instance of this instance.
pub open spec fn is_fixed_slm_formula(f: Formula, nq: int, ns: int) -> bool {
    match f {
        Formula::FixedSlm { q, t } => (q as int) < nq && 1 <= t && (t as int) < ns,
        _ => false,
    }
}

/// A list of stationary-trap formulas, one per qubit and move, means exactly the
/// corresponding predicate.
proof fn lemma_fixed_slm_sem(emitted: Seq<Formula>, nq: int, ns: int)
    requires
        0 <= nq <= usize::MAX,
        0 <= ns <= usize::MAX,
        forall|m: int| 0 <= m < emitted.len() ==> is_fixed_slm_formula(#[trigger] emitted[m], nq, ns),
        forall|a: int, b: int|
            0 <= a < nq && 1 <= b < ns ==> #[trigger] emitted.contains(
                Formula::FixedSlm { q: a as usize, t: b as usize },
            ),
    ensures
        forall|v: DPQAVarsValues| sat_all(v, emitted) == fixed_slm_all(v, nq, ns),
{
    assert forall|v: DPQAVarsValues| sat_all(v, emitted) == fixed_slm_all(v, nq, ns) by {
        if sat_all(v, emitted) {
            assert forall|a: int, b: int|
                0 <= a < nq && 1 <= b < ns implies #[trigger] fixed_slm_at(v, a, b) by {
                let f = Formula::FixedSlm { q: a as usize, t: b as usize };
                assert(emitted.contains(f));
                let m = choose|m: int| 0 <= m < emitted.len() && emitted[m] == f;
                assert(formula_holds(v, emitted[m]));
            }
        }
        if fixed_slm_all(v, nq, ns) {
            assert forall|m: int|
                0 <= m < emitted.len() implies formula_holds(v, #[trigger] emitted[m]) by {
                let f = emitted[m];
                assert(is_fixed_slm_formula(f, nq, ns));
                assert(fixed_slm_at(v, f->FixedSlm_q as int, f->FixedSlm_t as int));
            }
        }
    }
}

impl DPQAVars {
    /// Any qubit in an SLM trap must stay in place between stages
    fn constraint_fixed_slm(&self, fs: &mut Vec<Formula>)
        requires
            self.wf(),
        ensures
            final(fs)@.len() >= old(fs)@.len(),
            forall|m: int| 0 <= m < old(fs)@.len() ==> final(fs)@[m] == old(fs)@[m],
            formulas_wf(final(fs)@, self.n_qubits as nat, self.n_stages as nat, self.n_gates as nat)
                <== formulas_wf(
                old(fs)@,
                self.n_qubits as nat,
                self.n_stages as nat,
                self.n_gates as nat,
            ),
            forall|v: DPQAVarsValues|
                sat_all(v, final(fs)@) == (sat_all(v, old(fs)@) && fixed_slm_all(
                    v,
                    self.n_qubits as int,
                    self.n_stages as int,
                )),
    {
        let nq = self.n_qubits;
        let ns = self.n_stages;
        let ghost mut emitted: Seq<Formula> = Seq::empty();
        proof {
            assert(fs@ =~= old(fs)@ + emitted);
        }
        let mut q: usize = 0;
        while q < nq
            invariant
                fs@ == old(fs)@ + emitted,
                forall|m: int|
                    0 <= m < emitted.len() ==> is_fixed_slm_formula(
                        #[trigger] emitted[m],
                        nq as int,
                        ns as int,
                    ),
                forall|a: int, b: int|
                    0 <= a < nq && 1 <= b < ns && a < q ==> #[trigger] emitted.contains(
                        Formula::FixedSlm { q: a as usize, t: b as usize },
                    ),
                q <= nq,
            decreases nq - q,
        {
            let mut t: usize = 1;
            while t < ns
                invariant
                    fs@ == old(fs)@ + emitted,
                    q < nq,
                    forall|m: int|
                        0 <= m < emitted.len() ==> is_fixed_slm_formula(
                            #[trigger] emitted[m],
                            nq as int,
                            ns as int,
                        ),
                    forall|a: int, b: int|
                        0 <= a < nq && 1 <= b < ns && (a < q || (a == q && b < t))
                            ==> #[trigger] emitted.contains(
                            Formula::FixedSlm { q: a as usize, t: b as usize },
                        ),
                    1 <= t,
                    t <= ns || ns == 0,
                decreases ns - t,
            {
                fs.push(Formula::FixedSlm { q, t });
                proof {
                    let pre = emitted;
                    emitted = emitted.push(Formula::FixedSlm { q, t });
                    assert(fs@ =~= old(fs)@ + emitted);
                    assert forall|g: Formula| pre.contains(g) implies emitted.contains(g) by {
                        let m = choose|m: int| 0 <= m < pre.len() && pre[m] == g;
                        assert(emitted[m] == g);
                    }
                    assert(emitted[pre.len() as int] == Formula::FixedSlm { q, t });
                    assert(emitted.contains(Formula::FixedSlm { q, t }));
                }
                t = t + 1;
            }
            q = q + 1;
        }
        proof {
            lemma_fixed_slm_sem(emitted, nq as int, ns as int);
            assert forall|v: DPQAVarsValues|
                sat_all(v, fs@) == (sat_all(v, old(fs)@) && fixed_slm_all(v, self.n_qubits as int, self.n_stages as int)) by {
                lemma_sat_add(v, old(fs)@, emitted);
            }
            assert forall|m: int|
                0 <= m < fs@.len() && formulas_wf(
                    old(fs)@,
                    nq as nat,
                    ns as nat,
                    self.n_gates as nat,
                ) implies formula_wf(
                #[trigger] fs@[m],
                nq as nat,
                ns as nat,
                self.n_gates as nat,
            ) by {
                if m >= old(fs)@.len() {
                    assert(is_fixed_slm_formula(emitted[m - old(fs)@.len()], nq as int, ns as int));
                }
            }
        }
    }
}


/// The emitted formula is one label persistence rule instance of this instance.
pub open spec fn is_aod_persist_formula(f: Formula, nq: int, ns: int) -> bool {
    match f {
        Formula::AodPersist { q, t } => (q as int) < nq && 1 <= t && (t as int) < ns,
        _ => false,
    }
}

/// A list of label persistence formulas, one per qubit and move, means exactly the
/// corresponding predicate.
proof fn lemma_aod_persist_sem(emitted: Seq<Formula>, nq: int, ns: int)
    requires
        0 <= nq <= usize::MAX,
        0 <= ns <= usize::MAX,
        forall|m: int| 0 <= m < emitted.len() ==> is_aod_persist_formula(#[trigger] emitted[m], nq, ns),
        forall|a: int, b: int|
            0 <= a < nq && 1 <= b < ns ==> #[trigger] emitted.contains(
                Formula::AodPersist { q: a as usize, t: b as usize },
            ),
    ensures
        forall|v: DPQAVarsValues| sat_all(v, emitted) == aod_persist_all(v, nq, ns),
{
    assert forall|v: DPQAVarsValues| sat_all(v, emitted) == aod_persist_all(v, nq, ns) by {
        if sat_all(v, emitted) {
            assert forall|a: int, b: int|
                0 <= a < nq && 1 <= b < ns implies #[trigger] aod_persist_at(v, a, b) by {
                let f = Formula::AodPersist { q: a as usize, t: b as usize };
                assert(emitted.contains(f));
                let m = choose|m: int| 0 <= m < emitted.len() && emitted[m] == f;
                assert(formula_holds(v, emitted[m]));
            }
        }
        if aod_persist_all(v, nq, ns) {
            assert forall|m: int|
                0 <= m < emitted.len() implies formula_holds(v, #[trigger] emitted[m]) by {
                let f = emitted[m];
                assert(is_aod_persist_formula(f, nq, ns));
                assert(aod_persist_at(v, f->AodPersist_q as int, f->AodPersist_t as int));
            }
        }
    }
}

impl DPQAVars {
    /// Emit the per-qubit part of AOD rigidity: an atom held by the
    /// AOD keeps its logical row and column labels.
    fn emit_aod_persist(&self, fs: &mut Vec<Formula>)
        requires
            self.wf(),
        ensures
            final(fs)@.len() >= old(fs)@.len(),
            forall|m: int| 0 <= m < old(fs)@.len() ==> final(fs)@[m] == old(fs)@[m],
            formulas_wf(final(fs)@, self.n_qubits as nat, self.n_stages as nat, self.n_gates as nat)
                <== formulas_wf(
                old(fs)@,
                self.n_qubits as nat,
                self.n_stages as nat,
                self.n_gates as nat,
            ),
            forall|v: DPQAVarsValues|
                sat_all(v, final(fs)@) == (sat_all(v, old(fs)@) && aod_persist_all(
                    v,
                    self.n_qubits as int,
                    self.n_stages as int,
                )),
    {
        let nq = self.n_qubits;
        let ns = self.n_stages;
        let ghost mut emitted: Seq<Formula> = Seq::empty();
        proof {
            assert(fs@ =~= old(fs)@ + emitted);
        }
        let mut q: usize = 0;
        while q < nq
            invariant
                fs@ == old(fs)@ + emitted,
                forall|m: int|
                    0 <= m < emitted.len() ==> is_aod_persist_formula(
                        #[trigger] emitted[m],
                        nq as int,
                        ns as int,
                    ),
                forall|a: int, b: int|
                    0 <= a < nq && 1 <= b < ns && a < q ==> #[trigger] emitted.contains(
                        Formula::AodPersist { q: a as usize, t: b as usize },
                    ),
                q <= nq,
            decreases nq - q,
        {
            let mut t: usize = 1;
            while t < ns
                invariant
                    fs@ == old(fs)@ + emitted,
                    q < nq,
                    forall|m: int|
                        0 <= m < emitted.len() ==> is_aod_persist_formula(
                            #[trigger] emitted[m],
                            nq as int,
                            ns as int,
                        ),
                    forall|a: int, b: int|
                        0 <= a < nq && 1 <= b < ns && (a < q || (a == q && b < t))
                            ==> #[trigger] emitted.contains(
                            Formula::AodPersist { q: a as usize, t: b as usize },
                        ),
                    1 <= t,
                    t <= ns || ns == 0,
                decreases ns - t,
            {
                fs.push(Formula::AodPersist { q, t });
                proof {
                    let pre = emitted;
                    emitted = emitted.push(Formula::AodPersist { q, t });
                    assert(fs@ =~= old(fs)@ + emitted);
                    assert forall|g: Formula| pre.contains(g) implies emitted.contains(g) by {
                        let m = choose|m: int| 0 <= m < pre.len() && pre[m] == g;
                        assert(emitted[m] == g);
                    }
                    assert(emitted[pre.len() as int] == Formula::AodPersist { q, t });
                    assert(emitted.contains(Formula::AodPersist { q, t }));
                }
                t = t + 1;
            }
            q = q + 1;
        }
        proof {
            lemma_aod_persist_sem(emitted, nq as int, ns as int);
            assert forall|v: DPQAVarsValues|
                sat_all(v, fs@) == (sat_all(v, old(fs)@) && aod_persist_all(v, self.n_qubits as int, self.n_stages as int)) by {
                lemma_sat_add(v, old(fs)@, emitted);
            }
            assert forall|m: int|
                0 <= m < fs@.len() && formulas_wf(
                    old(fs)@,
                    nq as nat,
                    ns as nat,
                    self.n_gates as nat,
                ) implies formula_wf(
                #[trigger] fs@[m],
                nq as nat,
                ns as nat,
                self.n_gates as nat,
            ) by {
                if m >= old(fs)@.len() {
                    assert(is_aod_persist_formula(emitted[m - old(fs)@.len()], nq as int, ns as int));
                }
            }
        }
    }
}


/// The emitted formula is one initial-stage crowding rule instance.
pub open spec fn is_crowd_init_formula(f: Formula, nq: int, ns: int) -> bool {
    match f {
        Formula::CrowdInit { q1, q2 } => q1 < q2 && (q2 as int) < nq && 0 < ns,
        _ => false,
    }
}

/// A list of initial-stage crowding formulas, one per qubit pair, means
/// exactly the corresponding predicate.
proof fn lemma_crowd_init_sem(emitted: Seq<Formula>, nq: int, ns: int)
    requires
        0 <= nq <= usize::MAX,
        forall|m: int| 0 <= m < emitted.len() ==> is_crowd_init_formula(#[trigger] emitted[m], nq, ns),
        forall|a: int, b: int|
            0 <= a < b < nq ==> #[trigger] emitted.contains(
                Formula::CrowdInit { q1: a as usize, q2: b as usize },
            ),
    ensures
        forall|v: DPQAVarsValues| sat_all(v, emitted) == crowd_init_all(v, nq),
{
    assert forall|v: DPQAVarsValues| sat_all(v, emitted) == crowd_init_all(v, nq) by {
        if sat_all(v, emitted) {
            assert forall|a: int, b: int|
                0 <= a < b < nq implies #[trigger] crowd_at(v, a, b, 0, 0) by {
                let f = Formula::CrowdInit { q1: a as usize, q2: b as usize };
                assert(emitted.contains(f));
                let m = choose|m: int| 0 <= m < emitted.len() && emitted[m] == f;
                assert(formula_holds(v, emitted[m]));
            }
        }
        if crowd_init_all(v, nq) {
            assert forall|m: int|
                0 <= m < emitted.len() implies formula_holds(v, #[trigger] emitted[m]) by {
                let f = emitted[m];
                assert(is_crowd_init_formula(f, nq, ns));
                assert(crowd_at(v, f->CrowdInit_q1 as int, f->CrowdInit_q2 as int, 0, 0));
            }
        }
    }
}

impl DPQAVars {
    /// Prevent stacking/crowding of more than 3 AOD rows/columns
    fn constraint_aod_crowding(&self, fs: &mut Vec<Formula>)
        requires
            self.wf(),
        ensures
            final(fs)@.len() >= old(fs)@.len(),
            forall|m: int| 0 <= m < old(fs)@.len() ==> final(fs)@[m] == old(fs)@[m],
            formulas_wf(final(fs)@, self.n_qubits as nat, self.n_stages as nat, self.n_gates as nat)
                <== formulas_wf(
                old(fs)@,
                self.n_qubits as nat,
                self.n_stages as nat,
                self.n_gates as nat,
            ),
            forall|v: DPQAVarsValues|
                sat_all(v, final(fs)@) == (sat_all(v, old(fs)@) && crowding_all(v, self.n_qubits as int, self.n_stages as int)),
    {
        let nq = self.n_qubits;
        let ns = self.n_stages;
        let ghost mut emitted: Seq<Formula> = Seq::empty();
        proof {
            assert(fs@ =~= old(fs)@ + emitted);
        }
        let mut q1: usize = 0;
        while q1 < nq
            invariant
                fs@ == old(fs)@ + emitted,
                nq > 0 ==> ns > 0,
                forall|m: int|
                    0 <= m < emitted.len() ==> is_crowd_init_formula(
                        #[trigger] emitted[m],
                        nq as int,
                        ns as int,
                    ),
                forall|a: int, b: int|
                    0 <= a < b < nq && a < q1 ==> #[trigger] emitted.contains(
                        Formula::CrowdInit { q1: a as usize, q2: b as usize },
                    ),
                q1 <= nq,
            decreases nq - q1,
        {
            let mut q2: usize = q1 + 1;
            while q2 < nq
                invariant
                    fs@ == old(fs)@ + emitted,
                    q1 < nq,
                    nq > 0 ==> ns > 0,
                    forall|m: int|
                        0 <= m < emitted.len() ==> is_crowd_init_formula(
                            #[trigger] emitted[m],
                            nq as int,
                            ns as int,
                        ),
                    forall|a: int, b: int|
                        0 <= a < b < nq && (a < q1 || (a == q1 && b < q2))
                            ==> #[trigger] emitted.contains(
                            Formula::CrowdInit { q1: a as usize, q2: b as usize },
                        ),
                    q1 < q2 <= nq,
                decreases nq - q2,
            {
                fs.push(Formula::CrowdInit { q1, q2 });
                proof {
                    let pre = emitted;
                    emitted = emitted.push(Formula::CrowdInit { q1, q2 });
                    assert(fs@ =~= old(fs)@ + emitted);
                    assert forall|g: Formula| pre.contains(g) implies emitted.contains(g) by {
                        let m = choose|m: int| 0 <= m < pre.len() && pre[m] == g;
                        assert(emitted[m] == g);
                    }
                    assert(emitted[pre.len() as int] == Formula::CrowdInit { q1, q2 });
                    assert(emitted.contains(Formula::CrowdInit { q1, q2 }));
                }
                q2 = q2 + 1;
            }
            q1 = q1 + 1;
        }
        let ghost fs_mid = fs@;
        proof {
            lemma_crowd_init_sem(emitted, nq as int, ns as int);
        }
        self.emit_crowd_steps(fs);
        proof {
            assert forall|v: DPQAVarsValues|
                sat_all(v, fs@) == (sat_all(v, old(fs)@) && crowding_all(v, self.n_qubits as int, self.n_stages as int)) by {
                assert(sat_all(v, fs@) == (sat_all(v, fs_mid) && crowd_steps_all(
                    v,
                    self.n_qubits as int,
                    self.n_stages as int,
                )));
                lemma_sat_add(v, old(fs)@, emitted);
                assert(sat_all(v, emitted) == crowd_init_all(v, nq as int));
            }
            assert forall|m: int|
                0 <= m < fs_mid.len() && formulas_wf(
                    old(fs)@,
                    nq as nat,
                    ns as nat,
                    self.n_gates as nat,
                ) implies formula_wf(
                #[trigger] fs_mid[m],
                nq as nat,
                ns as nat,
                self.n_gates as nat,
            ) by {
                if m >= old(fs)@.len() {
                    assert(is_crowd_init_formula(emitted[m - old(fs)@.len()], nq as int, ns as int));
                }
            }
        }
    }

    /// Rows and columns of the AOD grid must move together: atoms keep
    /// their logical labels while held, and equal labels force equal
    /// physical coordinates after a move.
    fn constraint_aod_move_together(&self, fs: &mut Vec<Formula>)
        requires
            self.wf(),
        ensures
            final(fs)@.len() >= old(fs)@.len(),
            forall|m: int| 0 <= m < old(fs)@.len() ==> final(fs)@[m] == old(fs)@[m],
            formulas_wf(final(fs)@, self.n_qubits as nat, self.n_stages as nat, self.n_gates as nat)
                <== formulas_wf(
                old(fs)@,
                self.n_qubits as nat,
                self.n_stages as nat,
                self.n_gates as nat,
            ),
            forall|v: DPQAVarsValues|
                sat_all(v, final(fs)@) == (sat_all(v, old(fs)@) && aod_persist_all(
                    v,
                    self.n_qubits as int,
                    self.n_stages as int,
                ) && move_together_all(v, self.n_qubits as int, self.n_stages as int)),
    {
        self.emit_aod_persist(fs);
        self.emit_move_together(fs);
    }

}


/// The emitted formula is one gate-coincidence rule instance of this
/// instance: when that gate fires at the stage, its qubits share a site.
pub open spec fn is_entangle_formula(f: Formula, gates: Seq<TwoQubitGate>, ns: int) -> bool {
    match f {
        Formula::Entangle { qc, qt, g, t } => (g as int) < gates.len() && (t as int) < ns && qc
            == gates[g as int].q_ctrl && qt == gates[g as int].q_target,
        _ => false,
    }
}

/// A list of gate-coincidence formulas, one per gate and stage, means
/// exactly the entangling predicate.
proof fn lemma_entangle_sem(emitted: Seq<Formula>, gates: Seq<TwoQubitGate>, ns: int)
    requires
        gates.len() <= usize::MAX,
        0 <= ns <= usize::MAX,
        forall|m: int|
            0 <= m < emitted.len() ==> is_entangle_formula(#[trigger] emitted[m], gates, ns),
        forall|i: int, u: int|
            0 <= i < gates.len() && 0 <= u < ns ==> #[trigger] emitted.contains(
                Formula::Entangle {
                    qc: gates[i].q_ctrl,
                    qt: gates[i].q_target,
                    g: i as usize,
                    t: u as usize,
                },
            ),
    ensures
        forall|v: DPQAVarsValues| sat_all(v, emitted) == entangle_all(v, gates, ns),
{
    assert forall|v: DPQAVarsValues| sat_all(v, emitted) == entangle_all(v, gates, ns) by {
        if sat_all(v, emitted) {
            assert forall|i: int, u: int|
                0 <= i < gates.len() && 0 <= u < ns implies #[trigger] entangle_at(
                v,
                gates[i].q_ctrl as int,
                gates[i].q_target as int,
                i,
                u,
            ) by {
                let f = Formula::Entangle {
                    qc: gates[i].q_ctrl,
                    qt: gates[i].q_target,
                    g: i as usize,
                    t: u as usize,
                };
                assert(emitted.contains(f));
                let m = choose|m: int| 0 <= m < emitted.len() && emitted[m] == f;
                assert(formula_holds(v, emitted[m]));
            }
        }
        if entangle_all(v, gates, ns) {
            assert forall|m: int|
                0 <= m < emitted.len() implies formula_holds(v, #[trigger] emitted[m]) by {
                let f = emitted[m];
                assert(is_entangle_formula(f, gates, ns));
                let g = f->Entangle_g as int;
                let t = f->Entangle_t as int;
                assert(entangle_at(v, gates[g].q_ctrl as int, gates[g].q_target as int, g, t));
            }
        }
    }
}

/// The emitted formula separates one pair of gates of differing kinds.
pub open spec fn is_type_sep_formula(f: Formula, gates: Seq<TwoQubitGate>) -> bool {
    match f {
        Formula::TypeSeparate { g0, g1 } => g0 < g1 && (g1 as int) < gates.len() && gates[
            g0 as int
        ].gate_type != gates[g1 as int].gate_type,
        _ => false,
    }
}

/// A list of kind-separation formulas, one per pair of gates of differing
/// kinds, means exactly the kind-separation predicate.
proof fn lemma_type_sep_sem(emitted: Seq<Formula>, gates: Seq<TwoQubitGate>)
    requires
        gates.len() <= usize::MAX,
        forall|m: int| 0 <= m < emitted.len() ==> is_type_sep_formula(#[trigger] emitted[m], gates),
        forall|i: int, j: int|
            0 <= i < j < gates.len() && (#[trigger] gates[i]).gate_type != (
            #[trigger] gates[j]).gate_type ==> emitted.contains(
                Formula::TypeSeparate { g0: i as usize, g1: j as usize },
            ),
    ensures
        forall|v: DPQAVarsValues| sat_all(v, emitted) == type_separate_all(v, gates),
{
    assert forall|v: DPQAVarsValues| sat_all(v, emitted) == type_separate_all(v, gates) by {
        if sat_all(v, emitted) {
            assert forall|i: int, j: int|
                0 <= i < j < gates.len() && (#[trigger] gates[i]).gate_type != (
                #[trigger] gates[j]).gate_type implies v.tg(i) != v.tg(j) by {
                let f = Formula::TypeSeparate { g0: i as usize, g1: j as usize };
                assert(emitted.contains(f));
                let m = choose|m: int| 0 <= m < emitted.len() && emitted[m] == f;
                assert(formula_holds(v, emitted[m]));
            }
        }
        if type_separate_all(v, gates) {
            assert forall|m: int|
                0 <= m < emitted.len() implies formula_holds(v, #[trigger] emitted[m]) by {
                let f = emitted[m];
                assert(is_type_sep_formula(f, gates));
                let i = f->TypeSeparate_g0 as int;
                let j = f->TypeSeparate_g1 as int;
                assert(gates[i].gate_type != gates[j].gate_type);
                assert(v.tg(i) != v.tg(j));
            }
        }
    }
}

/// The listed gates are exactly those acting on the unordered pair
/// {`a`, `b`}.
pub open spec fn coincide_content_ok(
    gates_at: Seq<usize>,
    gates: Seq<TwoQubitGate>,
    a: int,
    b: int,
) -> bool {
    &&& forall|k: int|
        0 <= k < gates_at.len() ==> (#[trigger] gates_at[k]) < gates.len() && pair_matches(
            gates,
            gates_at[k] as int,
            a,
            b,
        )
    &&& forall|i: int|
        0 <= i < gates.len() && #[trigger] pair_matches(gates, i, a, b) ==> gates_at.contains(
            i as usize,
        )
}

/// The formula is the interaction constraint of the pair ({`a`, `b`}, `u`).
pub open spec fn is_coincide_for(
    f: Formula,
    gates: Seq<TwoQubitGate>,
    a: int,
    b: int,
    u: int,
) -> bool {
    match f {
        Formula::Coincide { q1, q2, t, gates_at } => q1 == a && q2 == b && t == u
            && coincide_content_ok(gates_at@, gates, a, b),
        _ => false,
    }
}

/// The formula is the interaction constraint of some valid pair and stage.
pub open spec fn is_coincide_sound(f: Formula, gates: Seq<TwoQubitGate>, nq: int, ns: int) -> bool {
    match f {
        Formula::Coincide { q1, q2, t, gates_at } => q1 < q2 && (q2 as int) < nq && (t as int) < ns
            && coincide_content_ok(gates_at@, gates, q1 as int, q2 as int),
        _ => false,
    }
}

/// The list holds the interaction constraint of the pair ({`a`,`b`}, `u`).
pub open spec fn has_coincide(
    emitted: Seq<Formula>,
    gates: Seq<TwoQubitGate>,
    a: int,
    b: int,
    u: int,
) -> bool {
    exists|m: int| 0 <= m < emitted.len() && is_coincide_for(#[trigger] emitted[m], gates, a, b, u)
}

/// A list of interaction formulas, one per qubit pair and stage, means
/// exactly the interaction-exactness predicate.
proof fn lemma_interaction_sem(emitted: Seq<Formula>, gates: Seq<TwoQubitGate>, nq: int, ns: int)
    requires
        0 <= nq <= usize::MAX,
        0 <= ns <= usize::MAX,
        gates.len() <= usize::MAX,
        forall|m: int|
            0 <= m < emitted.len() ==> is_coincide_sound(#[trigger] emitted[m], gates, nq, ns),
        forall|a: int, b: int, u: int|
            0 <= a < b < nq && 0 <= u < ns ==> #[trigger] has_coincide(emitted, gates, a, b, u),
    ensures
        forall|v: DPQAVarsValues| sat_all(v, emitted) == interaction_all(v, gates, nq, ns),
{
    assert forall|v: DPQAVarsValues| sat_all(v, emitted) == interaction_all(v, gates, nq, ns) by {
        if sat_all(v, emitted) {
            assert forall|a: int, b: int, u: int|
                0 <= a < b < nq && 0 <= u < ns implies #[trigger] interaction_at(
                v,
                gates,
                a,
                b,
                u,
            ) by {
                assert(has_coincide(emitted, gates, a, b, u));
                let m = choose|m: int|
                    0 <= m < emitted.len() && is_coincide_for(#[trigger] emitted[m], gates, a, b, u);
                let f = emitted[m];
                assert(formula_holds(v, f));
                let gs = f->Coincide_gates_at;
                if v.x(a, u) == v.x(b, u) && v.y(a, u) == v.y(b, u) {
                    let k = choose|k: int|
                        #![trigger gs@[k]]
                        0 <= k < gs@.len() && v.tg(gs@[k] as int) == f->Coincide_t as int;
                    assert(pair_matches(gates, gs@[k] as int, a, b));
                    assert((gs@[k] as int) < gates.len() && pair_matches(gates, gs@[k] as int, a, b)
                        && v.tg(gs@[k] as int) == u);
                }
            }
        }
        if interaction_all(v, gates, nq, ns) {
            assert forall|m: int|
                0 <= m < emitted.len() implies formula_holds(v, #[trigger] emitted[m]) by {
                let f = emitted[m];
                assert(is_coincide_sound(f, gates, nq, ns));
                let a = f->Coincide_q1 as int;
                let b = f->Coincide_q2 as int;
                let u = f->Coincide_t as int;
                let gs = f->Coincide_gates_at;
                assert(interaction_at(v, gates, a, b, u));
                if v.x(a, u) == v.x(b, u) && v.y(a, u) == v.y(b, u) {
                    let i = choose|i: int|
                        0 <= i < gates.len() && #[trigger] pair_matches(gates, i, a, b) && v.tg(i)
                            == u;
                    assert(gs@.contains(i as usize));
                    let k = choose|k: int| 0 <= k < gs@.len() && gs@[k] == i as usize;
                    assert(v.tg(gs@[k] as int) == u);
                }
            }
        }
    }
}

impl DPQAVars {
    /// Restrict each gate time to the schedule's stages, and ensure that
    /// gates with dependencies on each other are run in the right order
    pub fn constraint_t_bounds(&self, fs: &mut Vec<Formula>)
        requires
            self.wf(),
        ensures
            final(fs)@.len() >= old(fs)@.len(),
            forall|m: int| 0 <= m < old(fs)@.len() ==> final(fs)@[m] == old(fs)@[m],
            formulas_wf(final(fs)@, self.n_qubits as nat, self.n_stages as nat, self.n_gates as nat)
                <== formulas_wf(
                old(fs)@,
                self.n_qubits as nat,
                self.n_stages as nat,
                self.n_gates as nat,
            ),
            forall|v: DPQAVarsValues|
                sat_all(v, final(fs)@) == (sat_all(v, old(fs)@) && time_bounds_all(v, self.n_gates as int, self.n_stages as int) && time_order_all(v, self.t_order@)),
    {
        let ng = self.n_gates;
        let ghost mut em1: Seq<Formula> = Seq::empty();
        proof {
            assert(fs@ =~= old(fs)@ + em1);
        }
        let mut g: usize = 0;
        while g < ng
            invariant
                fs@ == old(fs)@ + em1,
                em1.len() == g,
                forall|k: int|
                    0 <= k < g ==> #[trigger] em1[k] == (Formula::TimeBounds {
                        g: k as usize,
                        n_stages: self.n_stages,
                    }),
                g <= ng,
            decreases ng - g,
        {
            fs.push(Formula::TimeBounds { g, n_stages: self.n_stages });
            proof {
                em1 = em1.push(Formula::TimeBounds { g, n_stages: self.n_stages });
                assert(fs@ =~= old(fs)@ + em1);
            }
            g = g + 1;
        }
        let ghost fs_mid = fs@;
        let n_ord = self.t_order.len();
        let ghost mut em2: Seq<Formula> = Seq::empty();
        proof {
            assert(fs@ =~= fs_mid + em2);
        }
        let mut k: usize = 0;
        while k < n_ord
            invariant
                fs@ == fs_mid + em2,
                n_ord == self.t_order@.len(),
                em2.len() == k,
                forall|m: int|
                    0 <= m < k ==> #[trigger] em2[m] == (Formula::TimeOrder {
                        g0: self.t_order@[m].0,
                        g1: self.t_order@[m].1,
                    }),
                k <= n_ord,
            decreases n_ord - k,
        {
            let p = self.t_order[k];
            fs.push(Formula::TimeOrder { g0: p.0, g1: p.1 });
            proof {
                em2 = em2.push(Formula::TimeOrder { g0: p.0, g1: p.1 });
                assert(fs@ =~= fs_mid + em2);
            }
            k = k + 1;
        }
        proof {
            assert forall|v: DPQAVarsValues|
                sat_all(v, em1) == time_bounds_all(v, self.n_gates as int, self.n_stages as int) by {
                if sat_all(v, em1) {
                    assert forall|i: int|
                        0 <= i < self.n_gates implies #[trigger] time_bounds_at(
                        v,
                        i,
                        self.n_stages as int,
                    ) by {
                        assert(formula_holds(v, em1[i]));
                    }
                }
                if time_bounds_all(v, self.n_gates as int, self.n_stages as int) {
                    assert forall|m: int|
                        0 <= m < em1.len() implies formula_holds(v, #[trigger] em1[m]) by {
                        assert(time_bounds_at(v, m, self.n_stages as int));
                    }
                }
            }
            assert forall|v: DPQAVarsValues|
                sat_all(v, em2) == time_order_all(v, self.t_order@) by {
                if sat_all(v, em2) {
                    assert forall|m: int|
                        0 <= m < self.t_order@.len() implies v.tg(
                        (#[trigger] self.t_order@[m]).0 as int,
                    ) < v.tg(self.t_order@[m].1 as int) by {
                        assert(formula_holds(v, em2[m]));
                    }
                }
                if time_order_all(v, self.t_order@) {
                    assert forall|m: int|
                        0 <= m < em2.len() implies formula_holds(v, #[trigger] em2[m]) by {
                        assert(v.tg(self.t_order@[m].0 as int) < v.tg(self.t_order@[m].1 as int));
                    }
                }
            }
            assert forall|v: DPQAVarsValues|
                sat_all(v, fs@) == (sat_all(v, old(fs)@) && time_bounds_all(v, self.n_gates as int, self.n_stages as int) && time_order_all(v, self.t_order@)) by {
                lemma_sat_add(v, old(fs)@, em1);
                lemma_sat_add(v, fs_mid, em2);
            }
            assert forall|m: int|
                0 <= m < fs@.len() && formulas_wf(
                    old(fs)@,
                    self.n_qubits as nat,
                    self.n_stages as nat,
                    self.n_gates as nat,
                ) implies formula_wf(
                #[trigger] fs@[m],
                self.n_qubits as nat,
                self.n_stages as nat,
                self.n_gates as nat,
            ) by {
                if m >= fs_mid.len() {
                    assert(fs@[m] == em2[m - fs_mid.len()]);
                    assert(self.t_order@[m - fs_mid.len()].0 < self.n_gates);
                } else if m >= old(fs)@.len() {
                    assert(fs@[m] == em1[m - old(fs)@.len()]);
                }
            }
        }
    }

    /// Two qubits must be at the same grid position when an entangling gate
    /// is run on them
    pub fn constraint_entangling_gates(&self, fs: &mut Vec<Formula>)
        requires
            self.wf(),
        ensures
            final(fs)@.len() >= old(fs)@.len(),
            forall|m: int| 0 <= m < old(fs)@.len() ==> final(fs)@[m] == old(fs)@[m],
            formulas_wf(final(fs)@, self.n_qubits as nat, self.n_stages as nat, self.n_gates as nat)
                <== formulas_wf(
                old(fs)@,
                self.n_qubits as nat,
                self.n_stages as nat,
                self.n_gates as nat,
            ),
            forall|v: DPQAVarsValues|
                sat_all(v, final(fs)@) == (sat_all(v, old(fs)@) && entangle_all(v, self.gates@, self.n_stages as int)),
    {
        let ng = self.n_gates;
        let ns = self.n_stages;
        let ghost mut emitted: Seq<Formula> = Seq::empty();
        proof {
            assert(fs@ =~= old(fs)@ + emitted);
        }
        let mut i: usize = 0;
        while i < ng
            invariant
                fs@ == old(fs)@ + emitted,
                self.wf(),
                ng == self.n_gates,
                ns == self.n_stages,
                forall|m: int|
                    0 <= m < emitted.len() ==> is_entangle_formula(
                        #[trigger] emitted[m],
                        self.gates@,
                        ns as int,
                    ),
                forall|a: int, u: int|
                    0 <= a < ng && 0 <= u < ns && a < i ==> #[trigger] emitted.contains(
                        Formula::Entangle {
                            qc: self.gates@[a].q_ctrl,
                            qt: self.gates@[a].q_target,
                            g: a as usize,
                            t: u as usize,
                        },
                    ),
                i <= ng,
            decreases ng - i,
        {
            let gate = self.gates[i];
            let mut u: usize = 0;
            while u < ns
                invariant
                    fs@ == old(fs)@ + emitted,
                    self.wf(),
                    ng == self.n_gates,
                    ns == self.n_stages,
                    i < ng,
                    gate == self.gates@[i as int],
                    forall|m: int|
                        0 <= m < emitted.len() ==> is_entangle_formula(
                            #[trigger] emitted[m],
                            self.gates@,
                            ns as int,
                        ),
                    forall|a: int, u2: int|
                        0 <= a < ng && 0 <= u2 < ns && (a < i || (a == i && u2 < u))
                            ==> #[trigger] emitted.contains(
                            Formula::Entangle {
                                qc: self.gates@[a].q_ctrl,
                                qt: self.gates@[a].q_target,
                                g: a as usize,
                                t: u2 as usize,
                            },
                        ),
                    u <= ns,
                decreases ns - u,
            {
                fs.push(Formula::Entangle { qc: gate.q_ctrl, qt: gate.q_target, g: i, t: u });
                proof {
                    let pre = emitted;
                    emitted = emitted.push(
                        Formula::Entangle { qc: gate.q_ctrl, qt: gate.q_target, g: i, t: u },
                    );
                    assert(fs@ =~= old(fs)@ + emitted);
                    assert forall|g2: Formula| pre.contains(g2) implies emitted.contains(g2) by {
                        let m = choose|m: int| 0 <= m < pre.len() && pre[m] == g2;
                        assert(emitted[m] == g2);
                    }
                    assert(emitted[pre.len() as int] == Formula::Entangle {
                        qc: gate.q_ctrl,
                        qt: gate.q_target,
                        g: i,
                        t: u,
                    });
                    assert(emitted.contains(
                        Formula::Entangle { qc: gate.q_ctrl, qt: gate.q_target, g: i, t: u },
                    ));
                }
                u = u + 1;
            }
            i = i + 1;
        }
        proof {
            lemma_entangle_sem(emitted, self.gates@, ns as int);
            assert forall|v: DPQAVarsValues|
                sat_all(v, fs@) == (sat_all(v, old(fs)@) && entangle_all(v, self.gates@, self.n_stages as int)) by {
                lemma_sat_add(v, old(fs)@, emitted);
            }
            assert forall|m: int|
                0 <= m < fs@.len() && formulas_wf(
                    old(fs)@,
                    self.n_qubits as nat,
                    self.n_stages as nat,
                    self.n_gates as nat,
                ) implies formula_wf(
                #[trigger] fs@[m],
                self.n_qubits as nat,
                self.n_stages as nat,
                self.n_gates as nat,
            ) by {
                if m >= old(fs)@.len() {
                    let f = emitted[m - old(fs)@.len()];
                    assert(is_entangle_formula(f, self.gates@, ns as int));
                    assert(self.gates@[f->Entangle_g as int].wf());
                }
            }
        }
    }

    /// If two gates are run at the same time, they must have the same type
    fn constraint_gate_type_timing(&self, fs: &mut Vec<Formula>)
        requires
            self.wf(),
        ensures
            final(fs)@.len() >= old(fs)@.len(),
            forall|m: int| 0 <= m < old(fs)@.len() ==> final(fs)@[m] == old(fs)@[m],
            formulas_wf(final(fs)@, self.n_qubits as nat, self.n_stages as nat, self.n_gates as nat)
                <== formulas_wf(
                old(fs)@,
                self.n_qubits as nat,
                self.n_stages as nat,
                self.n_gates as nat,
            ),
            forall|v: DPQAVarsValues|
                sat_all(v, final(fs)@) == (sat_all(v, old(fs)@) && type_separate_all(v, self.gates@)),
    {
        let ng = self.n_gates;
        let ghost mut emitted: Seq<Formula> = Seq::empty();
        proof {
            assert(fs@ =~= old(fs)@ + emitted);
        }
        let mut i: usize = 0;
        while i < ng
            invariant
                fs@ == old(fs)@ + emitted,
                self.wf(),
                ng == self.n_gates,
                forall|m: int|
                    0 <= m < emitted.len() ==> is_type_sep_formula(#[trigger] emitted[m], self.gates@),
                forall|a: int, b: int|
                    0 <= a < b < ng && a < i && (#[trigger] self.gates@[a]).gate_type != (
                    #[trigger] self.gates@[b]).gate_type ==> emitted.contains(
                        Formula::TypeSeparate { g0: a as usize, g1: b as usize },
                    ),
                i <= ng,
            decreases ng - i,
        {
            let gi = self.gates[i];
            let mut j: usize = i + 1;
            while j < ng
                invariant
                    fs@ == old(fs)@ + emitted,
                    self.wf(),
                    ng == self.n_gates,
                    i < ng,
                    gi == self.gates@[i as int],
                    forall|m: int|
                        0 <= m < emitted.len() ==> is_type_sep_formula(
                            #[trigger] emitted[m],
                            self.gates@,
                        ),
                    forall|a: int, b: int|
                        0 <= a < b < ng && (a < i || (a == i && b < j)) && (
                        #[trigger] self.gates@[a]).gate_type != (#[trigger] self.gates@[b]).gate_type
                            ==> emitted.contains(
                            Formula::TypeSeparate { g0: a as usize, g1: b as usize },
                        ),
                    i < j <= ng,
                decreases ng - j,
            {
                let gj = self.gates[j];
                if gi.gate_type != gj.gate_type {
                    fs.push(Formula::TypeSeparate { g0: i, g1: j });
                    proof {
                        let pre = emitted;
                        emitted = emitted.push(Formula::TypeSeparate { g0: i, g1: j });
                        assert(fs@ =~= old(fs)@ + emitted);
                        assert forall|g2: Formula| pre.contains(g2) implies emitted.contains(
                            g2,
                        ) by {
                            let m = choose|m: int| 0 <= m < pre.len() && pre[m] == g2;
                            assert(emitted[m] == g2);
                        }
                        assert(emitted[pre.len() as int] == Formula::TypeSeparate { g0: i, g1: j });
                        assert(emitted.contains(Formula::TypeSeparate { g0: i, g1: j }));
                    }
                }
                j = j + 1;
            }
            i = i + 1;
        }
        proof {
            lemma_type_sep_sem(emitted, self.gates@);
            assert forall|v: DPQAVarsValues|
                sat_all(v, fs@) == (sat_all(v, old(fs)@) && type_separate_all(v, self.gates@)) by {
                lemma_sat_add(v, old(fs)@, emitted);
            }
            assert forall|m: int|
                0 <= m < fs@.len() && formulas_wf(
                    old(fs)@,
                    self.n_qubits as nat,
                    self.n_stages as nat,
                    self.n_gates as nat,
                ) implies formula_wf(
                #[trigger] fs@[m],
                self.n_qubits as nat,
                self.n_stages as nat,
                self.n_gates as nat,
            ) by {
                if m >= old(fs)@.len() {
                    assert(is_type_sep_formula(emitted[m - old(fs)@.len()], self.gates@));
                }
            }
        }
    }

    /// Two qubits may only be at the same grid position if a gate acting
    /// on exactly this pair fires at that stage
    pub fn constraint_interaction_exactness(&self, fs: &mut Vec<Formula>)
        requires
            self.wf(),
        ensures
            final(fs)@.len() >= old(fs)@.len(),
            forall|m: int| 0 <= m < old(fs)@.len() ==> final(fs)@[m] == old(fs)@[m],
            formulas_wf(final(fs)@, self.n_qubits as nat, self.n_stages as nat, self.n_gates as nat)
                <== formulas_wf(
                old(fs)@,
                self.n_qubits as nat,
                self.n_stages as nat,
                self.n_gates as nat,
            ),
            forall|v: DPQAVarsValues|
                sat_all(v, final(fs)@) == (sat_all(v, old(fs)@) && interaction_all(v, self.gates@, self.n_qubits as int, self.n_stages as int)),
    {
        let nq = self.n_qubits;
        let ns = self.n_stages;
        let ng = self.n_gates;
        let ghost mut emitted: Seq<Formula> = Seq::empty();
        proof {
            assert(fs@ =~= old(fs)@ + emitted);
        }
        let mut q1: usize = 0;
        while q1 < nq
            invariant
                fs@ == old(fs)@ + emitted,
                self.wf(),
                nq == self.n_qubits,
                ns == self.n_stages,
                ng == self.n_gates,
                forall|m: int|
                    0 <= m < emitted.len() ==> is_coincide_sound(
                        #[trigger] emitted[m],
                        self.gates@,
                        nq as int,
                        ns as int,
                    ),
                forall|a: int, b: int, u: int|
                    0 <= a < b < nq && 0 <= u < ns && a < q1 ==> #[trigger] has_coincide(
                        emitted,
                        self.gates@,
                        a,
                        b,
                        u,
                    ),
                q1 <= nq,
            decreases nq - q1,
        {
            let mut q2: usize = q1 + 1;
            while q2 < nq
                invariant
                    fs@ == old(fs)@ + emitted,
                    self.wf(),
                    nq == self.n_qubits,
                    ns == self.n_stages,
                    ng == self.n_gates,
                    q1 < nq,
                    forall|m: int|
                        0 <= m < emitted.len() ==> is_coincide_sound(
                            #[trigger] emitted[m],
                            self.gates@,
                            nq as int,
                            ns as int,
                        ),
                    forall|a: int, b: int, u: int|
                        0 <= a < b < nq && 0 <= u < ns && (a < q1 || (a == q1 && b < q2))
                            ==> #[trigger] has_coincide(emitted, self.gates@, a, b, u),
                    q1 < q2 <= nq,
                decreases nq - q2,
            {
                // collect the gates acting on exactly this pair
                let mut matching: Vec<usize> = Vec::new();
                let mut gi: usize = 0;
                while gi < ng
                    invariant
                        self.wf(),
                        ng == self.n_gates,
                        forall|k: int|
                            0 <= k < matching@.len() ==> (#[trigger] matching@[k])
                                < self.gates@.len() && pair_matches(
                                self.gates@,
                                matching@[k] as int,
                                q1 as int,
                                q2 as int,
                            ),
                        forall|a: int|
                            0 <= a < gi && #[trigger] pair_matches(
                                self.gates@,
                                a,
                                q1 as int,
                                q2 as int,
                            ) ==> matching@.contains(a as usize),
                        gi <= ng,
                    decreases ng - gi,
                {
                    let gg = self.gates[gi];
                    if (gg.q_ctrl == q1 && gg.q_target == q2) || (gg.q_ctrl == q2 && gg.q_target
                        == q1) {
                        let ghost pre = matching@;
                        matching.push(gi);
                        proof {
                            assert forall|a: int|
                                0 <= a < gi + 1 && #[trigger] pair_matches(
                                    self.gates@,
                                    a,
                                    q1 as int,
                                    q2 as int,
                                ) implies matching@.contains(a as usize) by {
                                if a < gi {
                                    assert(pre.contains(a as usize));
                                    let m = choose|m: int|
                                        0 <= m < pre.len() && pre[m] == a as usize;
                                    assert(matching@[m] == a as usize);
                                } else {
                                    assert(matching@[pre.len() as int] == gi);
                                }
                            }
                        }
                    } else {
                        proof {
                            assert(!pair_matches(self.gates@, gi as int, q1 as int, q2 as int));
                        }
                    }
                    gi = gi + 1;
                }

                let mut t: usize = 0;
                while t < ns
                    invariant
                        fs@ == old(fs)@ + emitted,
                        self.wf(),
                        nq == self.n_qubits,
                        ns == self.n_stages,
                        ng == self.n_gates,
                        q1 < q2 < nq,
                        coincide_content_ok(matching@, self.gates@, q1 as int, q2 as int),
                        forall|m: int|
                            0 <= m < emitted.len() ==> is_coincide_sound(
                                #[trigger] emitted[m],
                                self.gates@,
                                nq as int,
                                ns as int,
                            ),
                        forall|a: int, b: int, u: int|
                            0 <= a < b < nq && 0 <= u < ns && (a < q1 || (a == q1 && b < q2) || (a
                                == q1 && b == q2 && u < t)) ==> #[trigger] has_coincide(
                                emitted,
                                self.gates@,
                                a,
                                b,
                                u,
                            ),
                        t <= ns,
                    decreases ns - t,
                {
                    // a fresh copy of the matching gate list for this stage
                    let mut gcopy: Vec<usize> = Vec::new();
                    let mlen = matching.len();
                    let mut ci: usize = 0;
                    while ci < mlen
                        invariant
                            mlen == matching@.len(),
                            gcopy@.len() == ci,
                            forall|k: int| 0 <= k < ci ==> #[trigger] gcopy@[k] == matching@[k],
                            ci <= mlen,
                        decreases mlen - ci,
                    {
                        gcopy.push(matching[ci]);
                        ci = ci + 1;
                    }
                    proof {
                        assert(gcopy@ =~= matching@);
                    }
                    let f = Formula::Coincide { q1, q2, t, gates_at: gcopy };
                    let ghost fv = f;
                    fs.push(f);
                    proof {
                        let pre = emitted;
                        emitted = emitted.push(fv);
                        assert(fs@ =~= old(fs)@ + emitted);
                        assert(is_coincide_for(fv, self.gates@, q1 as int, q2 as int, t as int));
                        assert forall|a: int, b: int, u: int|
                            0 <= a < b < nq && 0 <= u < ns && (a < q1 || (a == q1 && b < q2) || (a
                                == q1 && b == q2 && u < t + 1)) implies #[trigger] has_coincide(
                            emitted,
                            self.gates@,
                            a,
                            b,
                            u,
                        ) by {
                            if a == q1 && b == q2 && u == t {
                                assert(emitted[pre.len() as int] == fv);
                            } else {
                                assert(has_coincide(pre, self.gates@, a, b, u));
                                let m = choose|m: int|
                                    0 <= m < pre.len() && is_coincide_for(
                                        #[trigger] pre[m],
                                        self.gates@,
                                        a,
                                        b,
                                        u,
                                    );
                                assert(emitted[m] == pre[m]);
                                assert(is_coincide_for(emitted[m], self.gates@, a, b, u));
                            }
                        }
                    }
                    t = t + 1;
                }
                q2 = q2 + 1;
            }
            q1 = q1 + 1;
        }
        proof {
            lemma_interaction_sem(emitted, self.gates@, nq as int, ns as int);
            assert forall|v: DPQAVarsValues|
                sat_all(v, fs@) == (sat_all(v, old(fs)@) && interaction_all(v, self.gates@, self.n_qubits as int, self.n_stages as int)) by {
                lemma_sat_add(v, old(fs)@, emitted);
            }
            assert forall|m: int|
                0 <= m < fs@.len() && formulas_wf(
                    old(fs)@,
                    self.n_qubits as nat,
                    self.n_stages as nat,
                    self.n_gates as nat,
                ) implies formula_wf(
                #[trigger] fs@[m],
                self.n_qubits as nat,
                self.n_stages as nat,
                self.n_gates as nat,
            ) by {
                if m >= old(fs)@.len() {
                    let f = emitted[m - old(fs)@.len()];
                    assert(is_coincide_sound(f, self.gates@, nq as int, ns as int));
                }
            }
        }
    }

    /// Set all constraints
    pub fn set_constraints(&self, fs: &mut Vec<Formula>)
        requires
            self.wf(),
        ensures
            final(fs)@.len() >= old(fs)@.len(),
            formulas_wf(final(fs)@, self.n_qubits as nat, self.n_stages as nat, self.n_gates as nat)
                <== formulas_wf(
                old(fs)@,
                self.n_qubits as nat,
                self.n_stages as nat,
                self.n_gates as nat,
            ),
            forall|v: DPQAVarsValues|
                sat_all(v, final(fs)@) == (sat_all(v, old(fs)@) && all_constraints(v, self.gates@, self.t_order@, self.n_qubits as int, self.n_stages as int, self.rows, self.cols, self.aod_rows, self.aod_cols)),
    {
        let ghost fs0 = fs@;
        self.constraint_grid_bounds(fs);
        let ghost fs1 = fs@;
        self.constraint_fixed_slm(fs);
        let ghost fs2 = fs@;
        self.constraint_aod_move_together(fs);
        let ghost fs3 = fs@;
        self.constraint_slm_order_from_aod(fs);
        let ghost fs4 = fs@;
        self.constraint_aod_order_from_slm(fs);
        let ghost fs5 = fs@;
        self.constraint_aod_crowding(fs);
        let ghost fs6 = fs@;
        self.constraint_site_crowding(fs);
        let ghost fs7 = fs@;
        self.constraint_no_swap(fs);
        let ghost fs8 = fs@;
        self.constraint_t_bounds(fs);
        let ghost fs9 = fs@;
        self.constraint_entangling_gates(fs);
        let ghost fs10 = fs@;
        self.constraint_interaction_exactness(fs);
        let ghost fs11 = fs@;
        self.constraint_gate_type_timing(fs);
        proof {
            assert(self.n_gates as int == self.gates@.len() as int);
            assert forall|v: DPQAVarsValues|
                sat_all(v, fs@) == (sat_all(v, fs0) && all_constraints(v, self.gates@, self.t_order@, self.n_qubits as int, self.n_stages as int, self.rows, self.cols, self.aod_rows, self.aod_cols)) by {
                assert(sat_all(v, fs1) == (sat_all(v, fs0) && grid_bounds_all(
                    v,
                    self.n_qubits as int,
                    self.n_stages as int,
                    self.rows,
                    self.cols,
                    self.aod_rows,
                    self.aod_cols,
                )));
                assert(sat_all(v, fs2) == (sat_all(v, fs1) && fixed_slm_all(
                    v,
                    self.n_qubits as int,
                    self.n_stages as int,
                )));
                assert(sat_all(v, fs3) == (sat_all(v, fs2) && aod_persist_all(
                    v,
                    self.n_qubits as int,
                    self.n_stages as int,
                ) && move_together_all(v, self.n_qubits as int, self.n_stages as int)));
                assert(sat_all(v, fs4) == (sat_all(v, fs3) && slm_order_all(
                    v,
                    self.n_qubits as int,
                    self.n_stages as int,
                )));
                assert(sat_all(v, fs5) == (sat_all(v, fs4) && aod_order_all(
                    v,
                    self.n_qubits as int,
                    self.n_stages as int,
                )));
                assert(sat_all(v, fs6) == (sat_all(v, fs5) && crowding_all(
                    v,
                    self.n_qubits as int,
                    self.n_stages as int,
                )));
                assert(sat_all(v, fs7) == (sat_all(v, fs6) && site_exclusion_all(
                    v,
                    self.n_qubits as int,
                    self.n_stages as int,
                )));
                assert(sat_all(v, fs8) == (sat_all(v, fs7) && no_swap_all(
                    v,
                    self.n_qubits as int,
                    self.n_stages as int,
                )));
                assert(sat_all(v, fs9) == (sat_all(v, fs8) && time_bounds_all(
                    v,
                    self.n_gates as int,
                    self.n_stages as int,
                ) && time_order_all(v, self.t_order@)));
                assert(sat_all(v, fs10) == (sat_all(v, fs9) && entangle_all(
                    v,
                    self.gates@,
                    self.n_stages as int,
                )));
                assert(sat_all(v, fs11) == (sat_all(v, fs10) && interaction_all(
                    v,
                    self.gates@,
                    self.n_qubits as int,
                    self.n_stages as int,
                )));
                assert(sat_all(v, fs@) == (sat_all(v, fs11) && type_separate_all(v, self.gates@)));
            }
        }
    }
}

} // verus!
