//! Circuits: ordered sequences of two-qubit gates together with a partition
//! of gate indices into stages of mutually parallel gates.

use vstd::prelude::*;
use crate::gates::TwoQubitGate;

verus! {

/// The per-stage gate index lists of a circuit, as mathematical sequences.
pub open spec fn stages_view(stages: Seq<Vec<usize>>) -> Seq<Seq<usize>> {
    stages.map_values(|s: Vec<usize>| s@)
}

/// Every gate is well formed and touches only qubits below `n_qubits`.
pub open spec fn gates_wf(gates: Seq<TwoQubitGate>, n_qubits: nat) -> bool {
    forall|i: int|
        0 <= i < gates.len() ==> (#[trigger] gates[i]).wf() && gates[i].q_ctrl < n_qubits
            && gates[i].q_target < n_qubits
}

/// Whether some gate of the sequence acts on qubit `q`.
pub open spec fn q_used(gates: Seq<TwoQubitGate>, q: usize) -> bool {
    exists|i: int| 0 <= i < gates.len() && (#[trigger] gates[i]).uses(q)
}

/// The qubit count is tight: the highest qubit index is actually referenced.
pub open spec fn qubits_tight(gates: Seq<TwoQubitGate>, n_qubits: nat) -> bool {
    n_qubits > 0 ==> q_used(gates, (n_qubits - 1) as usize)
}

/// Every qubit index below `n` is referenced by some gate.
pub open spec fn all_used(gates: Seq<TwoQubitGate>, n: nat) -> bool {
    forall|q: usize| q < n ==> #[trigger] q_used(gates, q)
}

/// How many qubit indices below `n` are referenced by some gate.
pub open spec fn count_used(gates: Seq<TwoQubitGate>, n: nat) -> nat
    decreases n,
{
    if n == 0 {
        0
    } else {
        count_used(gates, (n - 1) as nat) + if q_used(gates, (n - 1) as usize) {
            1nat
        } else {
            0nat
        }
    }
}

/// The rank of qubit `q`: how many referenced indices lie strictly below it.
/// Renumbering maps every referenced qubit to its rank.
pub open spec fn rank_of(gates: Seq<TwoQubitGate>, q: usize) -> nat {
    count_used(gates, q as nat)
}

/// A single gate, its qubits replaced by their ranks.
pub open spec fn renumber_gate(gates: Seq<TwoQubitGate>, g: TwoQubitGate) -> TwoQubitGate {
    TwoQubitGate {
        gate_type: g.gate_type,
        q_ctrl: rank_of(gates, g.q_ctrl) as usize,
        q_target: rank_of(gates, g.q_target) as usize,
    }
}

/// The whole gate sequence after renumbering.
pub open spec fn renumbered_gates(gates: Seq<TwoQubitGate>) -> Seq<TwoQubitGate> {
    gates.map_values(|g: TwoQubitGate| renumber_gate(gates, g))
}

/// Every stage entry is a valid gate index below `n_gates`.
pub open spec fn stage_entries_valid(stages: Seq<Seq<usize>>, n_gates: nat) -> bool {
    forall|s: int, k: int|
        0 <= s < stages.len() && 0 <= k < stages[s].len() ==> #[trigger] stages[s][k] < n_gates
}

/// Within each stage, gate indices are strictly increasing.
pub open spec fn stages_sorted(stages: Seq<Seq<usize>>) -> bool {
    forall|s: int, k1: int, k2: int|
        #![trigger stages[s][k1], stages[s][k2]]
        0 <= s < stages.len() && 0 <= k1 < k2 < stages[s].len() ==> stages[s][k1] < stages[s][k2]
}

/// No gate index appears in two different positions of the partition.
pub open spec fn stages_distinct(stages: Seq<Seq<usize>>) -> bool {
    forall|s1: int, k1: int, s2: int, k2: int|
        #![trigger stages[s1][k1], stages[s2][k2]]
        0 <= s1 < stages.len() && 0 <= k1 < stages[s1].len() && 0 <= s2 < stages.len() && 0 <= k2
            < stages[s2].len() && stages[s1][k1] == stages[s2][k2] ==> s1 == s2 && k1 == k2
}

/// Gate index `g` appears somewhere in the partition.
pub open spec fn gate_placed(stages: Seq<Seq<usize>>, g: int) -> bool {
    exists|s: int, k: int|
        0 <= s < stages.len() && 0 <= k < stages[s].len() && stages[s][k] == g
}

/// Every gate index below `n_gates` appears in the partition.
pub open spec fn stages_cover(stages: Seq<Seq<usize>>, n_gates: nat) -> bool {
    forall|g: int| 0 <= g < n_gates ==> #[trigger] gate_placed(stages, g)
}

/// No stage of the partition is empty.
pub open spec fn stages_nonempty(stages: Seq<Seq<usize>>) -> bool {
    forall|s: int| 0 <= s < stages.len() ==> #[trigger] stages[s].len() > 0
}

/// Circuit represented as a sequence of basic two-qubit gates, partitioned
/// into stages of gates that can fire together.
pub struct Circuit {
    pub gates: Vec<TwoQubitGate>,
    pub stages: Vec<Vec<usize>>,
    pub n_qubits: usize,
}

impl Circuit {
    /// The stage partition as a sequence of sequences of gate indices.
    pub open spec fn stages_seq(self) -> Seq<Seq<usize>> {
        stages_view(self.stages@)
    }

    /// Internal consistency of a circuit: well-formed, bounded gates, a
    /// tight qubit count, and a stage partition that covers every gate
    /// index exactly once, sorted within each stage.
    pub open spec fn wf(self) -> bool {
        &&& gates_wf(self.gates@, self.n_qubits as nat)
        &&& qubits_tight(self.gates@, self.n_qubits as nat)
        &&& stage_entries_valid(self.stages_seq(), self.gates@.len())
        &&& stages_sorted(self.stages_seq())
        &&& stages_distinct(self.stages_seq())
        &&& stages_cover(self.stages_seq(), self.gates@.len())
        &&& stages_nonempty(self.stages_seq())
    }

    pub fn new() -> (c: Circuit)
        ensures
            c.wf(),
            c.gates@ == Seq::<TwoQubitGate>::empty(),
            c.stages_seq() == Seq::<Seq<usize>>::empty(),
            c.n_qubits == 0,
    {
        let c = Circuit { gates: Vec::new(), stages: Vec::new(), n_qubits: 0 };
        proof {
            assert(c.gates@ =~= Seq::<TwoQubitGate>::empty());
            assert(c.stages_seq() =~= Seq::<Seq<usize>>::empty());
        }
        c
    }

    /// Append a two-qubit gate to the circuit. It lands in a new
    /// trailing singleton stage, and the qubit count grows as needed.
    pub fn append(&mut self, g: TwoQubitGate)
        requires
            old(self).wf(),
            g.wf(),
            g.q_ctrl < usize::MAX,
            g.q_target < usize::MAX,
        ensures
            final(self).wf(),
            final(self).gates@ == old(self).gates@.push(g),
            final(self).stages_seq() == old(self).stages_seq().push(
                seq![old(self).gates@.len() as usize],
            ),
            final(self).n_qubits == if g.q_ctrl + 1 > old(self).n_qubits && g.q_ctrl
                >= g.q_target {
                g.q_ctrl + 1
            } else if g.q_target + 1 > old(self).n_qubits && g.q_target >= g.q_ctrl {
                g.q_target + 1
            } else {
                old(self).n_qubits as int
            },
    {
        if g.q_ctrl + 1 > self.n_qubits {
            self.n_qubits = g.q_ctrl + 1;
        }
        if g.q_target + 1 > self.n_qubits {
            self.n_qubits = g.q_target + 1;
        }
        let idx = self.gates.len();
        self.gates.push(g);
        let mut st: Vec<usize> = Vec::new();
        st.push(idx);
        self.stages.push(st);
        proof {
            let og = old(self).gates@;
            let ng = self.gates@;
            let os = old(self).stages_seq();
            let ns = self.stages_seq();
            assert(st@ =~= seq![idx]);
            assert(ns =~= os.push(seq![idx]));
            assert forall|i: int|
                0 <= i < ng.len() implies (#[trigger] ng[i]).wf() && ng[i].q_ctrl < self.n_qubits
                    && ng[i].q_target < self.n_qubits by {
                if i < og.len() {
                    assert(og[i].wf() && og[i].q_ctrl < old(self).n_qubits && og[i].q_target < old(
                        self,
                    ).n_qubits);
                }
            }
            // the appended gate witnesses tightness when the count grew;
            // the old witness still does when it did not
            if self.n_qubits == old(self).n_qubits {
                if self.n_qubits > 0 {
                    let q = (self.n_qubits - 1) as usize;
                    let i = choose|i: int| 0 <= i < og.len() && (#[trigger] og[i]).uses(q);
                    assert(ng[i].uses(q));
                }
            } else {
                assert(ng[og.len() as int].uses((self.n_qubits - 1) as usize));
            }
            assert(qubits_tight(ng, self.n_qubits as nat));
            // partition facts: the new singleton stage holds the one new index
            assert forall|gi: int| 0 <= gi < ng.len() implies #[trigger] gate_placed(ns, gi) by {
                if gi < og.len() {
                    assert(gate_placed(os, gi));
                    let (s, k) = choose|s: int, k: int|
                        0 <= s < os.len() && 0 <= k < os[s].len() && os[s][k] == gi;
                    assert(ns[s][k] == gi);
                } else {
                    assert(ns[os.len() as int][0] == idx);
                }
            }
        }
    }

    /// Get the number of qubits needed by the gates in this circuit
    pub fn get_n_qubits(&self) -> (n: usize)
        ensures
            n == self.n_qubits,
    {
        self.n_qubits
    }

    /// Get the number of stages in the current partition
    pub fn get_n_stages(&self) -> (n: usize)
        ensures
            n == self.stages_seq().len(),
    {
        self.stages.len()
    }

    /// Get the number of two-qubit gates in the circuit
    pub fn get_n_two_qubit_gates(&self) -> (n: usize)
        ensures
            n == self.gates@.len(),
    {
        self.gates.len()
    }

    /// Get the nth gate in the circuit
    pub fn get_gate(&self, n: usize) -> (g: TwoQubitGate)
        requires
            n < self.gates@.len(),
        ensures
            g == self.gates@[n as int],
    {
        self.gates[n]
    }

    /// The gates of the circuit, in order, as a slice to iterate over
    pub fn iter(&self) -> (s: &[TwoQubitGate])
        ensures
            s@ == self.gates@,
    {
        self.gates.as_slice()
    }

    /// Re-number qubits so that the indices of all qubits used by the gates
    /// are consecutive integers starting from 0; every referenced qubit is
    /// replaced by its rank among the referenced indices. Returns `true` if
    /// any indices were changed.
    pub fn renumber_qubits(&mut self) -> (changed: bool)
        requires
            old(self).wf(),
        ensures
            final(self).wf(),
            changed == !all_used(old(self).gates@, old(self).n_qubits as nat),
            !changed ==> *final(self) == *old(self),
            changed ==> final(self).gates@ == renumbered_gates(old(self).gates@),
            changed ==> final(self).n_qubits as nat == count_used(
                old(self).gates@,
                old(self).n_qubits as nat,
            ),
            final(self).stages_seq() == old(self).stages_seq(),
            final(self).gates@.len() == old(self).gates@.len(),
            all_used(final(self).gates@, final(self).n_qubits as nat),
    {
        let ghost gs = self.gates@;
        let ghost nq = self.n_qubits as nat;
        let n = self.n_qubits;
        let n_gates = self.gates.len();

        // mark the qubits that some gate references
        let mut seen: Vec<bool> = Vec::new();
        let mut z: usize = 0;
        while z < n
            invariant
                seen@.len() == z,
                forall|q: int| 0 <= q < z ==> !seen@[q],
                z <= n,
            decreases n - z,
        {
            seen.push(false);
            z = z + 1;
        }
        let mut i: usize = 0;
        while i < n_gates
            invariant
                self == old(self),
                gs == self.gates@,
                n == self.n_qubits,
                n_gates == self.gates@.len(),
                old(self).wf(),
                seen@.len() == n,
                forall|q: usize| q < n ==> seen@[q as int] == q_used(gs.take(i as int), q),
                i <= n_gates,
            decreases n_gates - i,
        {
            let g = self.gates[i];
            let ghost pre = seen@;
            seen[g.q_ctrl] = true;
            seen[g.q_target] = true;
            proof {
                assert(gs.take(i as int) =~= gs.take(i as int + 1).take(i as int));
                assert forall|q: usize| q < n implies seen@[q as int] == q_used(
                    gs.take(i + 1),
                    q,
                ) by {
                    let tk = gs.take(i + 1);
                    if seen@[q as int] {
                        if pre[q as int] {
                            let w = choose|j: int|
                                0 <= j < gs.take(i as int).len() && (#[trigger] gs.take(
                                    i as int,
                                )[j]).uses(q);
                            assert(tk[w].uses(q));
                        } else {
                            assert(tk[i as int].uses(q));
                        }
                    } else {
                        assert(!g.uses(q));
                        if q_used(tk, q) {
                            let w = choose|j: int|
                                0 <= j < tk.len() && (#[trigger] tk[j]).uses(q);
                            assert(w < i);
                            assert(gs.take(i as int)[w].uses(q));
                        }
                    }
                }
            }
            i = i + 1;
        }
        proof {
            assert(gs.take(n_gates as int) =~= gs);
        }

        // if every index below n_qubits is referenced there is nothing to do
        let mut all: bool = true;
        let mut j: usize = 0;
        while j < n
            invariant
                seen@.len() == n,
                forall|q: usize| q < n ==> seen@[q as int] == q_used(gs, q),
                all ==> forall|q: usize| q < j ==> #[trigger] q_used(gs, q),
                !all ==> exists|q: usize| q < j && !(#[trigger] q_used(gs, q)),
                j <= n,
            decreases n - j,
        {
            let ghost pre_all = all;
            all = all && seen[j];
            proof {
                if pre_all && seen@[j as int] {
                    assert forall|q: usize| q < j + 1 implies #[trigger] q_used(gs, q) by {
                        if q < j {
                        } else {
                            assert(seen@[q as int]);
                        }
                    }
                } else if pre_all {
                    assert(!q_used(gs, j));
                } else {
                    let w = choose|q: usize| q < j && !(#[trigger] q_used(gs, q));
                    assert(w < j + 1 && !q_used(gs, w));
                }
            }
            j = j + 1;
        }
        if all {
            return false;
        }
        proof {
            let w = choose|q: usize| q < n && !(#[trigger] q_used(gs, q));
            assert(!all_used(gs, nq));
        }

        // rank every referenced index
        let mut new_idx: Vec<usize> = Vec::new();
        let mut nn: usize = 0;
        let mut jj: usize = 0;
        while jj < n
            invariant
                self == old(self),
                gs == self.gates@,
                n == self.n_qubits,
                old(self).wf(),
                seen@.len() == n,
                forall|q: usize| q < n ==> seen@[q as int] == q_used(gs, q),
                new_idx@.len() == jj,
                nn as nat == count_used(gs, jj as nat),
                forall|q: usize|
                    q < jj && q_used(gs, q) ==> #[trigger] new_idx@[q as int] == rank_of(gs, q),
                jj <= n,
            decreases n - jj,
        {
            proof {
                lemma_count_used_le(gs, (jj + 1) as nat);
            }
            if seen[jj] {
                new_idx.push(nn);
                nn = nn + 1;
            } else {
                new_idx.push(0);
            }
            jj = jj + 1;
        }

        // rewrite the gates
        let mut new_gates: Vec<TwoQubitGate> = Vec::new();
        let mut k: usize = 0;
        while k < n_gates
            invariant
                self == old(self),
                gs == self.gates@,
                n == self.n_qubits,
                n_gates == self.gates@.len(),
                old(self).wf(),
                new_idx@.len() == n,
                forall|q: usize|
                    q < n && q_used(gs, q) ==> #[trigger] new_idx@[q as int] == rank_of(gs, q),
                new_gates@.len() == k,
                forall|m: int| 0 <= m < k ==> new_gates@[m] == renumber_gate(gs, gs[m]),
                k <= n_gates,
            decreases n_gates - k,
        {
            let g = self.gates[k];
            proof {
                assert(gs[k as int].uses(g.q_ctrl));
                assert(gs[k as int].uses(g.q_target));
                lemma_count_used_le(gs, g.q_ctrl as nat);
                lemma_count_used_le(gs, g.q_target as nat);
            }
            let nc = new_idx[g.q_ctrl];
            let nt = new_idx[g.q_target];
            new_gates.push(TwoQubitGate { gate_type: g.gate_type, q_ctrl: nc, q_target: nt });
            k = k + 1;
        }
        proof {
            assert(new_gates@ =~= renumbered_gates(gs));
        }

        self.gates = new_gates;
        self.n_qubits = nn;

        proof {
            lemma_renumbered_wf(gs, nq);
            assert(self.stages_seq() =~= old(self).stages_seq());
        }
        true
    }
}

/// Some gate of the stage acts on one of `g`'s qubits, so `g` cannot join
/// or precede this stage.
pub open spec fn gate_blocked(gates: Seq<TwoQubitGate>, stage: Seq<usize>, g: TwoQubitGate) -> bool {
    exists|k: int|
        0 <= k < stage.len() && ((#[trigger] gates[stage[k] as int]).uses(g.q_ctrl)
            || gates[stage[k] as int].uses(g.q_target))
}

/// Every gate of the stage commutes with `g`.
pub open spec fn stage_commutes_all(
    gates: Seq<TwoQubitGate>,
    stage: Seq<usize>,
    g: TwoQubitGate,
) -> bool {
    forall|k: int|
        0 <= k < stage.len() ==> (#[trigger] gates[stage[k] as int]).spec_commutes_with(g)
}

/// The backward walk of the greedy placement: starting from stage `jj` and
/// the best stage found so far, keep the earliest stage whose qubits are
/// free, and stop as soon as a stage holds a gate that does not commute.
pub open spec fn place_from(
    gates: Seq<TwoQubitGate>,
    stages: Seq<Seq<usize>>,
    g: TwoQubitGate,
    jj: int,
    best: int,
) -> int
    decreases jj + 1,
{
    if jj < 0 {
        best
    } else {
        let best2 = if !gate_blocked(gates, stages[jj], g) {
            jj
        } else {
            best
        };
        if stage_commutes_all(gates, stages[jj], g) {
            place_from(gates, stages, g, jj - 1, best2)
        } else {
            best2
        }
    }
}

/// The stage where the greedy algorithm places `g` given the partition so
/// far; `stages.len()` means a new trailing stage.
pub open spec fn placement(gates: Seq<TwoQubitGate>, stages: Seq<Seq<usize>>, g: TwoQubitGate) -> int {
    place_from(gates, stages, g, stages.len() - 1, stages.len() as int)
}

/// Add gate index `ii` to stage `p` of the partition, or open a new
/// singleton stage when `p` equals the stage count.
pub open spec fn insert_gate(stages: Seq<Seq<usize>>, p: int, ii: usize) -> Seq<Seq<usize>> {
    if p == stages.len() {
        stages.push(seq![ii])
    } else {
        stages.update(p, stages[p].push(ii))
    }
}

/// The partition the greedy algorithm builds from the first `i` gates.
pub open spec fn restage_prefix(gates: Seq<TwoQubitGate>, i: int) -> Seq<Seq<usize>>
    decreases i,
{
    if i <= 0 {
        Seq::empty()
    } else {
        let prev = restage_prefix(gates, i - 1);
        insert_gate(prev, placement(gates, prev, gates[i - 1]), (i - 1) as usize)
    }
}

/// The stage partition that recalculation produces for a gate sequence.
pub open spec fn restaged(gates: Seq<TwoQubitGate>) -> Seq<Seq<usize>> {
    restage_prefix(gates, gates.len() as int)
}

/// Gates within one stage act on pairwise disjoint qubit sets.
pub open spec fn stages_parallel(gates: Seq<TwoQubitGate>, stages: Seq<Seq<usize>>) -> bool {
    forall|s: int, k1: int, k2: int|
        #![trigger stages[s][k1], stages[s][k2]]
        0 <= s < stages.len() && 0 <= k1 < stages[s].len() && 0 <= k2 < stages[s].len() && k1 != k2
            ==> gates[stages[s][k1] as int].spec_parallel_with(gates[stages[s][k2] as int])
}

/// Every gate of a later stage shares a qubit with some gate of the stage
/// right before it, so no gate can be moved one stage earlier.
pub open spec fn stages_barrier(gates: Seq<TwoQubitGate>, stages: Seq<Seq<usize>>) -> bool {
    forall|s: int, k: int|
        #![trigger stages[s][k]]
        1 <= s < stages.len() && 0 <= k < stages[s].len() ==> gate_blocked(
            gates,
            stages[s - 1],
            gates[stages[s][k] as int],
        )
}

/// A stage none of whose gates touches `g`'s qubits consists of gates
/// parallel to `g`, which therefore all commute with `g`.
pub proof fn lemma_free_stage(gates: Seq<TwoQubitGate>, stage: Seq<usize>, g: TwoQubitGate)
    requires
        !gate_blocked(gates, stage, g),
    ensures
        stage_commutes_all(gates, stage, g),
        forall|k: int|
            0 <= k < stage.len() ==> (#[trigger] gates[stage[k] as int]).spec_parallel_with(g)
                && g.spec_parallel_with(gates[stage[k] as int]),
{
    assert forall|k: int|
        0 <= k < stage.len() implies (#[trigger] gates[stage[k] as int]).spec_parallel_with(g)
        && g.spec_parallel_with(gates[stage[k] as int]) && gates[stage[k] as int].spec_commutes_with(
        g,
    ) by {
        let h = gates[stage[k] as int];
        assert(!(h.uses(g.q_ctrl) || h.uses(g.q_target)));
    }
}

/// What the backward walk guarantees about its result: it is a stage whose
/// qubits are free (or a fresh trailing stage), and the stage right below
/// it is blocked, which is why the walk went no further down.
pub proof fn lemma_place_from_props(
    gates: Seq<TwoQubitGate>,
    stages: Seq<Seq<usize>>,
    g: TwoQubitGate,
    jj: int,
    best: int,
)
    requires
        -1 <= jj < stages.len(),
        best == stages.len() || (jj < best < stages.len() && !gate_blocked(
            gates,
            stages[best],
            g,
        )),
        forall|m: int| jj < m < best ==> gate_blocked(gates, #[trigger] stages[m], g),
    ensures
        ({
            let r = place_from(gates, stages, g, jj, best);
            &&& 0 <= r <= stages.len()
            &&& r <= best
            &&& r == stages.len() || !gate_blocked(gates, stages[r], g)
            &&& r >= 1 ==> gate_blocked(gates, stages[r - 1], g)
        }),
    decreases jj + 1,
{
    if jj < 0 {
        let r = place_from(gates, stages, g, jj, best);
        assert(r == best);
        if r >= 1 {
            assert(gate_blocked(gates, stages[r - 1], g));
        }
    } else {
        let blocked_j = gate_blocked(gates, stages[jj], g);
        let commutes_j = stage_commutes_all(gates, stages[jj], g);
        if !blocked_j {
            lemma_free_stage(gates, stages[jj], g);
        }
        let best2 = if !blocked_j {
            jj
        } else {
            best
        };
        if commutes_j {
            assert forall|m: int| jj - 1 < m < best2 implies gate_blocked(
                gates,
                #[trigger] stages[m],
                g,
            ) by {
                if m == jj {
                    assert(blocked_j);
                } else {
                    assert(jj < m < best);
                }
            }
            lemma_place_from_props(gates, stages, g, jj - 1, best2);
        } else {
            assert(blocked_j);
            let r = place_from(gates, stages, g, jj, best);
            assert(r == best);
            if r >= 1 {
                if r - 1 == jj {
                    assert(gate_blocked(gates, stages[r - 1], g));
                } else {
                    assert(jj < r - 1 < best);
                }
            }
        }
    }
}

/// The guarantees of the greedy placement of `g` into a partition.
pub proof fn lemma_placement_props(
    gates: Seq<TwoQubitGate>,
    stages: Seq<Seq<usize>>,
    g: TwoQubitGate,
)
    ensures
        ({
            let p = placement(gates, stages, g);
            &&& 0 <= p <= stages.len()
            &&& p < stages.len() ==> !gate_blocked(gates, stages[p], g)
            &&& p >= 1 ==> gate_blocked(gates, stages[p - 1], g)
        }),
{
    lemma_place_from_props(gates, stages, g, stages.len() - 1, stages.len() as int);
}

/// The partition the greedy algorithm builds from a gate prefix is a sorted
/// exact cover of all gate indices, its stages hold pairwise parallel
/// gates, and each stage is pinned behind its predecessor by a shared
/// qubit.
pub proof fn lemma_restage_valid(gates: Seq<TwoQubitGate>, i: int)
    requires
        0 <= i <= gates.len(),
        i <= usize::MAX,
    ensures
        ({
            let st = restage_prefix(gates, i);
            &&& stage_entries_valid(st, i as nat)
            &&& stages_sorted(st)
            &&& stages_distinct(st)
            &&& stages_cover(st, i as nat)
            &&& stages_nonempty(st)
            &&& stages_parallel(gates, st)
            &&& stages_barrier(gates, st)
        }),
    decreases i,
{
    if i == 0 {
        let st = restage_prefix(gates, 0);
        assert(st.len() == 0);
    } else {
        lemma_restage_valid(gates, i - 1);
        let prev = restage_prefix(gates, i - 1);
        let g = gates[i - 1];
        lemma_placement_props(gates, prev, g);
        let p = placement(gates, prev, g);
        let st = restage_prefix(gates, i);
        let ii = (i - 1) as usize;
        assert(st == insert_gate(prev, p, ii));
        if p < prev.len() {
            lemma_free_stage(gates, prev[p], g);
        }

        // shape of the partition after the insertion
        let newlen: int = if p == prev.len() {
            0int
        } else {
            prev[p].len() as int
        };
        assert(st.len() == if p == prev.len() {
            prev.len() as int + 1
        } else {
            prev.len() as int
        });
        assert forall|s: int| 0 <= s < prev.len() && s != p implies st[s] == prev[s] by {}
        assert(st[p].len() == newlen + 1);
        assert(st[p][newlen] == ii);
        assert forall|k: int| 0 <= k < newlen implies st[p][k] == prev[p][k] by {}

        assert forall|s: int, k: int|
            0 <= s < st.len() && 0 <= k < st[s].len() implies #[trigger] st[s][k] < i as nat by {
            if s == p && k == newlen {
                assert(st[s][k] == ii);
            } else if s == p {
                assert(st[s][k] == prev[p][k] && prev[p][k] < (i - 1) as nat);
            } else {
                assert(st[s] == prev[s] && prev[s][k] < (i - 1) as nat);
            }
        }

        assert forall|s: int, k1: int, k2: int|
            #![trigger st[s][k1], st[s][k2]]
            0 <= s < st.len() && 0 <= k1 < k2 < st[s].len() implies st[s][k1] < st[s][k2] by {
            if s == p && k2 == newlen {
                assert(st[s][k1] == prev[p][k1] && prev[p][k1] < (i - 1) as nat);
                assert(st[s][k2] == ii);
            } else if s == p {
                assert(st[s][k1] == prev[p][k1] && st[s][k2] == prev[p][k2]);
                assert(prev[p][k1] < prev[p][k2]);
            } else {
                assert(st[s] == prev[s]);
                assert(st[s][k1] == prev[s][k1] && st[s][k2] == prev[s][k2]);
                assert(prev[s][k1] < prev[s][k2]);
            }
        }

        assert forall|s1: int, k1: int, s2: int, k2: int|
            #![trigger st[s1][k1], st[s2][k2]]
            0 <= s1 < st.len() && 0 <= k1 < st[s1].len() && 0 <= s2 < st.len() && 0 <= k2
                < st[s2].len() && st[s1][k1] == st[s2][k2] implies s1 == s2 && k1 == k2 by {
            let new1 = s1 == p && k1 == newlen;
            let new2 = s2 == p && k2 == newlen;
            if new1 && new2 {
            } else if new1 {
                assert(st[s1][k1] == ii);
                if s2 == p {
                    assert(st[s2][k2] == prev[p][k2] && prev[p][k2] < (i - 1) as nat);
                } else {
                    assert(st[s2] == prev[s2] && prev[s2][k2] < (i - 1) as nat);
                }
            } else if new2 {
                assert(st[s2][k2] == ii);
                if s1 == p {
                    assert(st[s1][k1] == prev[p][k1] && prev[p][k1] < (i - 1) as nat);
                } else {
                    assert(st[s1] == prev[s1] && prev[s1][k1] < (i - 1) as nat);
                }
            } else {
                assert(st[s1][k1] == prev[s1][k1] && st[s2][k2] == prev[s2][k2]);
                assert(prev[s1][k1] == prev[s2][k2] ==> s1 == s2 && k1 == k2);
            }
        }

        assert forall|gi: int| 0 <= gi < i as nat implies #[trigger] gate_placed(st, gi) by {
            if gi < i - 1 {
                assert(gate_placed(prev, gi));
                let (s, k) = choose|s: int, k: int|
                    0 <= s < prev.len() && 0 <= k < prev[s].len() && prev[s][k] == gi;
                if s == p {
                    assert(st[p][k] == prev[p][k]);
                } else {
                    assert(st[s] == prev[s]);
                }
                assert(st[s][k] == gi);
            } else {
                assert(st[p][newlen] == ii);
            }
        }

        assert forall|s: int, k1: int, k2: int|
            #![trigger st[s][k1], st[s][k2]]
            0 <= s < st.len() && 0 <= k1 < st[s].len() && 0 <= k2 < st[s].len() && k1 != k2 implies
            gates[st[s][k1] as int].spec_parallel_with(gates[st[s][k2] as int]) by {
            if s == p {
                if k1 == newlen {
                    assert(st[s][k2] == prev[p][k2]);
                    assert(g.spec_parallel_with(gates[prev[p][k2] as int]));
                } else if k2 == newlen {
                    assert(st[s][k1] == prev[p][k1]);
                    assert(gates[prev[p][k1] as int].spec_parallel_with(g));
                } else {
                    assert(st[s][k1] == prev[p][k1] && st[s][k2] == prev[p][k2]);
                }
            } else {
                assert(st[s] == prev[s]);
            }
        }

        assert forall|s: int, k: int|
            #![trigger st[s][k]]
            1 <= s < st.len() && 0 <= k < st[s].len() implies gate_blocked(
                gates,
                st[s - 1],
                gates[st[s][k] as int],
            ) by {
            if s == p && k == newlen {
                assert(st[s][k] == ii && gates[st[s][k] as int] == g);
                assert(gate_blocked(gates, prev[p - 1], g));
                assert(st[p - 1] == prev[p - 1]);
                let w = choose|w: int|
                    0 <= w < prev[p - 1].len() && ((#[trigger] gates[prev[p - 1][w] as int]).uses(
                        g.q_ctrl,
                    ) || gates[prev[p - 1][w] as int].uses(g.q_target));
                assert(gates[st[s - 1][w] as int].uses(g.q_ctrl) || gates[st[s - 1][w] as int].uses(
                    g.q_target,
                ));
            } else {
                let h = gates[st[s][k] as int];
                if s == p {
                    assert(st[s][k] == prev[p][k]);
                } else {
                    assert(st[s] == prev[s]);
                }
                assert(st[s][k] == prev[s][k]);
                assert(gate_blocked(gates, prev[s - 1], h));
                let w = choose|w: int|
                    0 <= w < prev[s - 1].len() && ((#[trigger] gates[prev[s - 1][w] as int]).uses(
                        h.q_ctrl,
                    ) || gates[prev[s - 1][w] as int].uses(h.q_target));
                if s - 1 == p {
                    assert(st[s - 1][w] == prev[s - 1][w]);
                } else {
                    assert(st[s - 1] == prev[s - 1]);
                }
                assert(gates[st[s - 1][w] as int].uses(h.q_ctrl) || gates[st[s - 1][w] as int].uses(
                    h.q_target,
                ));
            }
        }
    }
}

/// At most `n` qubit indices below `n` can be referenced.
pub proof fn lemma_count_used_le(gates: Seq<TwoQubitGate>, n: nat)
    ensures
        count_used(gates, n) <= n,
    decreases n,
{
    if n > 0 {
        lemma_count_used_le(gates, (n - 1) as nat);
    }
}

/// Counting referenced indices is monotone in the bound.
pub proof fn lemma_count_used_mono(gates: Seq<TwoQubitGate>, a: nat, b: nat)
    requires
        a <= b,
    ensures
        count_used(gates, a) <= count_used(gates, b),
    decreases b,
{
    if a < b {
        lemma_count_used_mono(gates, a, (b - 1) as nat);
    }
}

/// The rank of a referenced qubit below `n` lies below the total count.
pub proof fn lemma_rank_bound(gates: Seq<TwoQubitGate>, q: usize, n: nat)
    requires
        (q as nat) < n,
        q_used(gates, q),
    ensures
        rank_of(gates, q) < count_used(gates, n),
{
    assert(count_used(gates, (q + 1) as nat) == rank_of(gates, q) + 1);
    lemma_count_used_mono(gates, (q + 1) as nat, n);
}

/// Ranking is strictly monotone on referenced qubits.
pub proof fn lemma_rank_strict(gates: Seq<TwoQubitGate>, q1: usize, q2: usize)
    requires
        q1 < q2,
        q_used(gates, q1),
    ensures
        rank_of(gates, q1) < rank_of(gates, q2),
{
    assert(count_used(gates, (q1 + 1) as nat) == rank_of(gates, q1) + 1);
    lemma_count_used_mono(gates, (q1 + 1) as nat, q2 as nat);
}

/// Every value below the count is the rank of some referenced qubit.
pub proof fn lemma_rank_surjective(gates: Seq<TwoQubitGate>, n: nat, v: nat)
    requires
        n <= usize::MAX,
        v < count_used(gates, n),
    ensures
        exists|q: usize|
            (q as nat) < n && #[trigger] q_used(gates, q) && rank_of(gates, q) == v,
    decreases n,
{
    assert(n > 0) by {
        if n == 0 {
            assert(count_used(gates, 0) == 0);
        }
    }
    let qm = (n - 1) as usize;
    if q_used(gates, qm) && v == count_used(gates, (n - 1) as nat) {
        assert((qm as nat) < n && q_used(gates, qm) && rank_of(gates, qm) == v);
    } else {
        lemma_rank_surjective(gates, (n - 1) as nat, v);
        let q = choose|q: usize|
            (q as nat) < (n - 1) as nat && #[trigger] q_used(gates, q) && rank_of(gates, q) == v;
        assert((q as nat) < n && q_used(gates, q) && rank_of(gates, q) == v);
    }
}

/// When every index below `n` is referenced, every rank equals its index.
pub proof fn lemma_all_used_rank_id(gates: Seq<TwoQubitGate>, n: nat)
    requires
        all_used(gates, n),
    ensures
        forall|q: usize| (q as nat) <= n ==> rank_of(gates, q) == q,
    decreases n,
{
    if n > 0 {
        lemma_all_used_rank_id(gates, (n - 1) as nat);
        assert(q_used(gates, (n - 1) as usize));
        assert forall|q: usize| (q as nat) <= n implies rank_of(gates, q) == q by {
            if (q as nat) == n {
                assert(rank_of(gates, (n - 1) as usize) == (n - 1) as usize);
                assert(count_used(gates, n) == count_used(gates, (n - 1) as nat) + 1);
            }
        }
    }
}

/// The renumbered gate sequence is well formed over the new tight qubit
/// count, and references exactly the indices below it.
pub proof fn lemma_renumbered_wf(gates: Seq<TwoQubitGate>, n: nat)
    requires
        gates_wf(gates, n),
        n <= usize::MAX,
    ensures
        gates_wf(renumbered_gates(gates), count_used(gates, n)),
        qubits_tight(renumbered_gates(gates), count_used(gates, n)),
        all_used(renumbered_gates(gates), count_used(gates, n)),
        renumbered_gates(gates).len() == gates.len(),
{
    let rg = renumbered_gates(gates);
    let cnt = count_used(gates, n);
    assert forall|i: int| 0 <= i < rg.len() implies (#[trigger] rg[i]).wf() && rg[i].q_ctrl < cnt
        && rg[i].q_target < cnt by {
        let g = gates[i];
        assert(gates[i].uses(g.q_ctrl));
        assert(gates[i].uses(g.q_target));
        lemma_rank_bound(gates, g.q_ctrl, n);
        lemma_rank_bound(gates, g.q_target, n);
        lemma_count_used_le(gates, n);
        lemma_count_used_le(gates, g.q_ctrl as nat);
        lemma_count_used_le(gates, g.q_target as nat);
        if g.q_ctrl < g.q_target {
            lemma_rank_strict(gates, g.q_ctrl, g.q_target);
        } else {
            lemma_rank_strict(gates, g.q_target, g.q_ctrl);
        }
    }
    assert forall|v: usize| (v as nat) < cnt implies #[trigger] q_used(rg, v) by {
        lemma_count_used_le(gates, n);
        lemma_rank_surjective(gates, n, v as nat);
        let q = choose|q: usize|
            (q as nat) < n && #[trigger] q_used(gates, q) && rank_of(gates, q) == v as nat;
        let w = choose|i: int| 0 <= i < gates.len() && (#[trigger] gates[i]).uses(q);
        assert(rg[w].uses(v));
    }
    if cnt > 0 {
        assert(q_used(rg, (cnt - 1) as usize));
    }
}

/// A circuit built by appends references every index below its qubit count
/// only if no gaps were left; its qubit count always bounds all referenced
/// indices and, when positive, the top index is referenced.
pub proof fn lemma_qubit_count_tight(c: Circuit)
    requires
        c.wf(),
    ensures
        forall|q: usize| q_used(c.gates@, q) ==> q < c.n_qubits,
        c.n_qubits > 0 ==> q_used(c.gates@, (c.n_qubits - 1) as usize),
        c.gates@.len() == 0 ==> c.n_qubits == 0,
{
    assert forall|q: usize| q_used(c.gates@, q) implies q < c.n_qubits by {
        let i = choose|i: int| 0 <= i < c.gates@.len() && (#[trigger] c.gates@[i]).uses(q);
        assert(c.gates@[i].q_ctrl < c.n_qubits && c.gates@[i].q_target < c.n_qubits);
    }
    if c.gates@.len() == 0 && c.n_qubits > 0 {
        assert(q_used(c.gates@, (c.n_qubits - 1) as usize));
        let i = choose|i: int|
            0 <= i < c.gates@.len() && (#[trigger] c.gates@[i]).uses((c.n_qubits - 1) as usize);
        assert(false);
    }
}

/// Whether some gate of the stage acts on one of `g`'s qubits.
fn stage_blocked_exec(gates: &Vec<TwoQubitGate>, stage: &Vec<usize>, g: TwoQubitGate) -> (r: bool)
    requires
        forall|k: int| 0 <= k < stage@.len() ==> #[trigger] stage@[k] < gates@.len(),
    ensures
        r == gate_blocked(gates@, stage@, g),
{
    let n = stage.len();
    let mut k: usize = 0;
    while k < n
        invariant
            n == stage@.len(),
            forall|m: int| 0 <= m < stage@.len() ==> #[trigger] stage@[m] < gates@.len(),
            forall|m: int|
                0 <= m < k ==> !((#[trigger] gates@[stage@[m] as int]).uses(g.q_ctrl)
                    || gates@[stage@[m] as int].uses(g.q_target)),
            k <= n,
        decreases n - k,
    {
        let h = gates[stage[k]];
        if h.q_ctrl == g.q_ctrl || h.q_ctrl == g.q_target || h.q_target == g.q_ctrl
            || h.q_target == g.q_target {
            proof {
                let e = stage@[k as int] as int;
                assert(gates@[e].uses(g.q_ctrl) || gates@[e].uses(g.q_target));
            }
            return true;
        }
        k = k + 1;
    }
    false
}

/// Whether every gate of the stage commutes with `g`.
fn stage_commutes_exec(gates: &Vec<TwoQubitGate>, stage: &Vec<usize>, g: &TwoQubitGate) -> (r:
    bool)
    requires
        forall|k: int| 0 <= k < stage@.len() ==> #[trigger] stage@[k] < gates@.len(),
    ensures
        r == stage_commutes_all(gates@, stage@, *g),
{
    let n = stage.len();
    let mut k: usize = 0;
    while k < n
        invariant
            n == stage@.len(),
            forall|m: int| 0 <= m < stage@.len() ==> #[trigger] stage@[m] < gates@.len(),
            forall|m: int|
                0 <= m < k ==> (#[trigger] gates@[stage@[m] as int]).spec_commutes_with(*g),
            k <= n,
        decreases n - k,
    {
        let h = &gates[stage[k]];
        if !h.commutes_with(g) {
            return false;
        }
        k = k + 1;
    }
    true
}

/// Whether two stage partitions hold the same gate indices in the same
/// order everywhere.
fn stages_equal(a: &Vec<Vec<usize>>, b: &Vec<Vec<usize>>) -> (r: bool)
    ensures
        r == (stages_view(a@) == stages_view(b@)),
{
    let ghost va = stages_view(a@);
    let ghost vb = stages_view(b@);
    if a.len() != b.len() {
        proof {
            assert(va.len() != vb.len());
        }
        return false;
    }
    let n = a.len();
    let mut s: usize = 0;
    while s < n
        invariant
            va == stages_view(a@),
            vb == stages_view(b@),
            n == a@.len() && n == b@.len(),
            forall|m: int| 0 <= m < s ==> #[trigger] va[m] == vb[m],
            s <= n,
        decreases n - s,
    {
        let sa = &a[s];
        let sb = &b[s];
        if sa.len() != sb.len() {
            proof {
                assert(va[s as int].len() != vb[s as int].len());
            }
            return false;
        }
        let m = sa.len();
        let mut k: usize = 0;
        while k < m
            invariant
                va == stages_view(a@),
                vb == stages_view(b@),
                s < a@.len() && s < b@.len(),
                sa@ == va[s as int] && sb@ == vb[s as int],
                m == sa@.len() && m == sb@.len(),
                forall|j: int| 0 <= j < k ==> #[trigger] sa@[j] == sb@[j],
                k <= m,
            decreases m - k,
        {
            if sa[k] != sb[k] {
                proof {
                    assert(va[s as int][k as int] != vb[s as int][k as int]);
                }
                return false;
            }
            k = k + 1;
        }
        proof {
            assert(va[s as int] =~= vb[s as int]);
        }
        s = s + 1;
    }
    proof {
        assert(va =~= vb);
    }
    true
}

impl Circuit {
    /// Group gates into stages: sets of gates acting on disjoint qubits,
    /// each placed in the earliest stage its qubits allow without walking
    /// past a gate it does not commute with. Returns `true` if the
    /// partition changed.
    pub fn recalculate_stages(&mut self) -> (changed: bool)
        requires
            old(self).wf(),
        ensures
            final(self).wf(),
            final(self).gates == old(self).gates,
            final(self).n_qubits == old(self).n_qubits,
            final(self).stages_seq() == restaged(old(self).gates@),
            changed == (final(self).stages_seq() != old(self).stages_seq()),
            stages_parallel(final(self).gates@, final(self).stages_seq()),
            stages_barrier(final(self).gates@, final(self).stages_seq()),
    {
        let ghost gs = self.gates@;
        let n_gates = self.gates.len();
        let mut new_stages: Vec<Vec<usize>> = Vec::new();
        proof {
            assert(stages_view(new_stages@) =~= restage_prefix(gs, 0));
        }
        let mut ii: usize = 0;
        while ii < n_gates
            invariant
                self == old(self),
                gs == self.gates@,
                n_gates == gs.len(),
                old(self).wf(),
                stages_view(new_stages@) == restage_prefix(gs, ii as int),
                ii <= n_gates,
            decreases n_gates - ii,
        {
            let g = self.gates[ii];
            let ghost prev = stages_view(new_stages@);
            proof {
                lemma_restage_valid(gs, ii as int);
                lemma_placement_props(gs, prev, g);
            }
            let n_s = new_stages.len();
            let mut stage_idx: usize = n_s;
            let mut jj: usize = n_s;
            proof {
                assert(place_from(gs, prev, g, jj as int - 1, stage_idx as int) == placement(
                    gs,
                    prev,
                    g,
                ));
            }
            while jj > 0
                invariant_except_break
                    jj <= n_s,
                    stage_idx <= n_s,
                    n_s == prev.len(),
                    prev == stages_view(new_stages@),
                    gs == self.gates@,
                    self == old(self),
                    stage_entries_valid(prev, ii as nat),
                    ii <= n_gates,
                    n_gates == gs.len(),
                    place_from(gs, prev, g, jj as int - 1, stage_idx as int) == placement(
                        gs,
                        prev,
                        g,
                    ),
                ensures
                    stage_idx <= n_s,
                    stage_idx as int == placement(gs, prev, g),
                decreases jj,
            {
                let j = jj - 1;
                proof {
                    assert(prev[j as int] == new_stages@[j as int]@);
                    assert forall|k: int|
                        0 <= k < new_stages@[j as int]@.len() implies #[trigger] new_stages@[
                    j as int]@[k] < self.gates@.len() by {
                        assert(prev[j as int][k] < ii as nat);
                    }
                }
                let blocked = stage_blocked_exec(&self.gates, &new_stages[j], g);
                let ghost old_si = stage_idx as int;
                if !blocked {
                    stage_idx = j;
                }
                let commutes = stage_commutes_exec(&self.gates, &new_stages[j], &g);
                proof {
                    assert(place_from(gs, prev, g, j as int, old_si) == (
                    if stage_commutes_all(gs, prev[j as int], g) {
                        place_from(gs, prev, g, j as int - 1, stage_idx as int)
                    } else {
                        stage_idx as int
                    }));
                }
                if !commutes {
                    break ;
                }
                jj = j;
            }
            if stage_idx == n_s {
                let nv: Vec<usize> = Vec::new();
                new_stages.push(nv);
            }
            new_stages[stage_idx].push(ii);
            proof {
                assert(stages_view(new_stages@) =~~= insert_gate(prev, placement(gs, prev, g), ii));
                assert(stages_view(new_stages@) == restage_prefix(gs, ii as int + 1));
            }
            ii = ii + 1;
        }
        proof {
            assert(stages_view(new_stages@) == restaged(gs));
            lemma_restage_valid(gs, n_gates as int);
        }
        let eq = stages_equal(&new_stages, &self.stages);
        if eq {
            return false;
        }
        self.stages = new_stages;
        true
    }

    /// Returns pairs of gate indices (g0, g1) where g0 sits one stage
    /// before g1, so g0 must execute before g1.
    pub fn get_gate_ordering(&self) -> (v: Vec<(usize, usize)>)
        requires
            self.wf(),
        ensures
            forall|m: int|
                0 <= m < v@.len() ==> pair_in_consecutive_stages(self.stages_seq(), #[trigger] v@[m]),
            forall|s: int, i: int, j: int|
                0 <= s < self.stages_seq().len() - 1 && 0 <= i < self.stages_seq()[s].len() && 0
                    <= j < self.stages_seq()[s + 1].len() ==> v@.contains(
                    (#[trigger] self.stages_seq()[s][i], #[trigger] self.stages_seq()[s + 1][j]),
                ),
            forall|m: int|
                0 <= m < v@.len() ==> (#[trigger] v@[m]).0 < self.gates@.len() && v@[m].1
                    < self.gates@.len(),
            forall|m1: int, m2: int| 0 <= m1 < m2 < v@.len() ==> v@[m1] != v@[m2],
    {
        let ghost stv = self.stages_seq();
        let mut v: Vec<(usize, usize)> = Vec::new();
        let n_s = self.stages.len();
        let mut s: usize = 1;
        while s < n_s
            invariant
                self.wf(),
                stv == self.stages_seq(),
                n_s == stv.len(),
                1 <= s || s == 1,
                s <= n_s || (n_s == 0 && s == 1),
                forall|m: int|
                    0 <= m < v@.len() ==> pair_in_consecutive_stages(stv, #[trigger] v@[m]),
                forall|m: int|
                    0 <= m < v@.len() ==> (#[trigger] v@[m]).0 < self.gates@.len() && v@[m].1
                        < self.gates@.len(),
                forall|s0: int, i: int, j: int|
                    0 <= s0 < s - 1 && 0 <= i < stv[s0].len() && 0 <= j < stv[s0 + 1].len()
                        ==> v@.contains((#[trigger] stv[s0][i], #[trigger] stv[s0 + 1][j])),
                forall|m1: int, m2: int| 0 <= m1 < m2 < v@.len() ==> v@[m1] != v@[m2],
                forall|m: int|
                    0 <= m < v@.len() ==> pair_emitted_before(stv, #[trigger] v@[m], s as int, 0, 0),
            decreases n_s - s,
        {
            let prev_len = self.stages[s - 1].len();
            let mut i: usize = 0;
            while i < prev_len
                invariant
                    self.wf(),
                    stv == self.stages_seq(),
                    n_s == stv.len(),
                    1 <= s < n_s,
                    prev_len == stv[s as int - 1].len(),
                    forall|m: int|
                        0 <= m < v@.len() ==> pair_in_consecutive_stages(stv, #[trigger] v@[m]),
                    forall|m: int|
                        0 <= m < v@.len() ==> (#[trigger] v@[m]).0 < self.gates@.len() && v@[m].1
                            < self.gates@.len(),
                    forall|s0: int, i0: int, j: int|
                        0 <= s0 < s - 1 && 0 <= i0 < stv[s0].len() && 0 <= j < stv[s0 + 1].len()
                            ==> v@.contains((#[trigger] stv[s0][i0], #[trigger] stv[s0 + 1][j])),
                    forall|i0: int, j: int|
                        0 <= i0 < i && 0 <= j < stv[s as int].len() ==> v@.contains(
                            (#[trigger] stv[s as int - 1][i0], #[trigger] stv[s as int][j]),
                        ),
                    forall|m1: int, m2: int| 0 <= m1 < m2 < v@.len() ==> v@[m1] != v@[m2],
                    forall|m: int|
                        0 <= m < v@.len() ==> pair_emitted_before(
                            stv,
                            #[trigger] v@[m],
                            s as int,
                            i as int,
                            0,
                        ),
                    i <= prev_len,
                decreases prev_len - i,
            {
                let g0 = self.stages[s - 1][i];
                let curr_len = self.stages[s].len();
                let mut j: usize = 0;
                while j < curr_len
                    invariant
                        self.wf(),
                        stv == self.stages_seq(),
                        n_s == stv.len(),
                        1 <= s < n_s,
                        i < stv[s as int - 1].len(),
                        g0 == stv[s as int - 1][i as int],
                        curr_len == stv[s as int].len(),
                        forall|m: int|
                            0 <= m < v@.len() ==> pair_in_consecutive_stages(stv, #[trigger] v@[m]),
                        forall|m: int|
                            0 <= m < v@.len() ==> (#[trigger] v@[m]).0 < self.gates@.len()
                                && v@[m].1 < self.gates@.len(),
                        forall|s0: int, i0: int, j0: int|
                            0 <= s0 < s - 1 && 0 <= i0 < stv[s0].len() && 0 <= j0 < stv[s0
                                + 1].len() ==> v@.contains(
                                (#[trigger] stv[s0][i0], #[trigger] stv[s0 + 1][j0]),
                            ),
                        forall|i0: int, j0: int|
                            0 <= i0 < i && 0 <= j0 < stv[s as int].len() ==> v@.contains(
                                (#[trigger] stv[s as int - 1][i0], #[trigger] stv[s as int][j0]),
                            ),
                        forall|j0: int|
                            0 <= j0 < j ==> v@.contains(
                                (g0, #[trigger] stv[s as int][j0]),
                            ),
                        forall|m1: int, m2: int| 0 <= m1 < m2 < v@.len() ==> v@[m1] != v@[m2],
                        forall|m: int|
                            0 <= m < v@.len() ==> pair_emitted_before(
                                stv,
                                #[trigger] v@[m],
                                s as int,
                                i as int,
                                j as int,
                            ),
                        j <= curr_len,
                    decreases curr_len - j,
                {
                    let g1 = self.stages[s][j];
                    let ghost pre = v@;
                    v.push((g0, g1));
                    proof {
                        assert forall|m: int|
                            0 <= m < v@.len() implies pair_in_consecutive_stages(
                            stv,
                            #[trigger] v@[m],
                        ) by {
                            if m < pre.len() {
                                assert(pre[m] == v@[m]);
                                assert(pair_in_consecutive_stages(stv, pre[m]));
                            } else {
                                let s0 = s as int - 1;
                                assert(v@[m] == (stv[s0][i as int], stv[s0 + 1][j as int]));
                                assert(0 <= s0 < stv.len() - 1 && (i as int) < stv[s0].len() && (
                                j as int) < stv[s0 + 1].len());
                            }
                        }
                        assert forall|p: (usize, usize)| pre.contains(p) implies v@.contains(p) by {
                            let w = choose|w: int| 0 <= w < pre.len() && pre[w] == p;
                            assert(v@[w] == p);
                        }
                        assert(v@[pre.len() as int] == (g0, stv[s as int][j as int]));
                        assert(v@[pre.len() as int] == ordering_pair_at(
                            stv,
                            s as int,
                            i as int,
                            j as int,
                        ));
                        assert forall|m: int|
                            0 <= m < v@.len() implies pair_emitted_before(
                            stv,
                            #[trigger] v@[m],
                            s as int,
                            i as int,
                            j as int + 1,
                        ) by {
                            if m < pre.len() {
                                assert(pair_emitted_before(stv, pre[m], s as int, i as int, j as int));
                                let (s0, i0, j0) = choose|s0: int, i0: int, j0: int|
                                    #![trigger ordering_pair_at(stv, s0, i0, j0)]
                                    1 <= s0 < stv.len() && 0 <= i0 < stv[s0 - 1].len() && 0 <= j0
                                        < stv[s0].len() && (s0 < s as int || (s0 == s as int && (i0
                                        < i as int || (i0 == i as int && j0 < j as int)))) && pre[m]
                                        == ordering_pair_at(stv, s0, i0, j0);
                                assert(v@[m] == ordering_pair_at(stv, s0, i0, j0));
                            } else {
                                assert(v@[m] == ordering_pair_at(stv, s as int, i as int, j as int));
                            }
                        }
                        assert forall|m1: int, m2: int|
                            0 <= m1 < m2 < v@.len() implies v@[m1] != v@[m2] by {
                            if m2 < pre.len() {
                                assert(v@[m1] == pre[m1] && v@[m2] == pre[m2]);
                            } else {
                                assert(v@[m1] == pre[m1]);
                                assert(pair_emitted_before(stv, pre[m1], s as int, i as int, j as int));
                                let (s0, i0, j0) = choose|s0: int, i0: int, j0: int|
                                    #![trigger ordering_pair_at(stv, s0, i0, j0)]
                                    1 <= s0 < stv.len() && 0 <= i0 < stv[s0 - 1].len() && 0 <= j0
                                        < stv[s0].len() && (s0 < s as int || (s0 == s as int && (i0
                                        < i as int || (i0 == i as int && j0 < j as int)))) && pre[m1]
                                        == ordering_pair_at(stv, s0, i0, j0);
                                if v@[m1] == v@[m2] {
                                    lemma_ordering_pair_injective(
                                        stv,
                                        s as int,
                                        i as int,
                                        j as int,
                                        s0,
                                        i0,
                                        j0,
                                    );
                                }
                            }
                        }
                    }
                    j = j + 1;
                }
                proof {
                    assert forall|m: int|
                        0 <= m < v@.len() implies pair_emitted_before(
                        stv,
                        #[trigger] v@[m],
                        s as int,
                        i as int + 1,
                        0,
                    ) by {
                        assert(pair_emitted_before(stv, v@[m], s as int, i as int, curr_len as int));
                        let (s0, i0, j0) = choose|s0: int, i0: int, j0: int|
                            #![trigger ordering_pair_at(stv, s0, i0, j0)]
                            1 <= s0 < stv.len() && 0 <= i0 < stv[s0 - 1].len() && 0 <= j0
                                < stv[s0].len() && (s0 < s as int || (s0 == s as int && (i0
                                < i as int || (i0 == i as int && j0 < curr_len as int)))) && v@[m]
                                == ordering_pair_at(stv, s0, i0, j0);
                        assert(v@[m] == ordering_pair_at(stv, s0, i0, j0));
                    }
                }
                i = i + 1;
            }
            proof {
                assert forall|s0: int, i0: int, j: int|
                    0 <= s0 < s && 0 <= i0 < stv[s0].len() && 0 <= j < stv[s0 + 1].len() implies v@.contains(
                    (#[trigger] stv[s0][i0], #[trigger] stv[s0 + 1][j]),
                ) by {
                    if s0 < s - 1 {
                    } else {
                        assert(s0 == s - 1);
                    }
                }
                assert forall|m: int|
                    0 <= m < v@.len() implies pair_emitted_before(
                    stv,
                    #[trigger] v@[m],
                    s as int + 1,
                    0,
                    0,
                ) by {
                    assert(pair_emitted_before(stv, v@[m], s as int, prev_len as int, 0));
                    let (s0, i0, j0) = choose|s0: int, i0: int, j0: int|
                        #![trigger ordering_pair_at(stv, s0, i0, j0)]
                        1 <= s0 < stv.len() && 0 <= i0 < stv[s0 - 1].len() && 0 <= j0
                            < stv[s0].len() && (s0 < s as int || (s0 == s as int && (i0
                            < prev_len as int || (i0 == prev_len as int && j0 < 0)))) && v@[m]
                            == ordering_pair_at(stv, s0, i0, j0);
                    assert(v@[m] == ordering_pair_at(stv, s0, i0, j0));
                }
            }
            s = s + 1;
        }
        v
    }
}

/// A pair of gate indices drawn from two consecutive stages, in order.
pub open spec fn pair_in_consecutive_stages(stages: Seq<Seq<usize>>, p: (usize, usize)) -> bool {
    exists|s: int, i: int, j: int|
        #![trigger stages[s][i], stages[s + 1][j]]
        0 <= s < stages.len() - 1 && 0 <= i < stages[s].len() && 0 <= j < stages[s + 1].len()
            && p == (stages[s][i], stages[s + 1][j])
}

/// The ordering pair drawn from position (`s`, `i`, `j`): gate `i` of
/// stage `s - 1` before gate `j` of stage `s`.
pub open spec fn ordering_pair_at(stages: Seq<Seq<usize>>, s: int, i: int, j: int) -> (usize, usize) {
    (stages[s - 1][i], stages[s][j])
}

/// `p` is the ordering pair of some position lexicographically before
/// (`s`, `i`, `j`).
pub open spec fn pair_emitted_before(
    stages: Seq<Seq<usize>>,
    p: (usize, usize),
    s: int,
    i: int,
    j: int,
) -> bool {
    exists|s0: int, i0: int, j0: int|
        #![trigger ordering_pair_at(stages, s0, i0, j0)]
        1 <= s0 < stages.len() && 0 <= i0 < stages[s0 - 1].len() && 0 <= j0 < stages[s0].len() && (
        s0 < s || (s0 == s && (i0 < i || (i0 == i && j0 < j)))) && p == ordering_pair_at(
            stages,
            s0,
            i0,
            j0,
        )
}

/// Distinct positions yield distinct ordering pairs, since the partition
/// holds each gate index exactly once.
proof fn lemma_ordering_pair_injective(
    stages: Seq<Seq<usize>>,
    s: int,
    i: int,
    j: int,
    s0: int,
    i0: int,
    j0: int,
)
    requires
        stages_distinct(stages),
        1 <= s < stages.len(),
        0 <= i < stages[s - 1].len(),
        0 <= j < stages[s].len(),
        1 <= s0 < stages.len(),
        0 <= i0 < stages[s0 - 1].len(),
        0 <= j0 < stages[s0].len(),
        ordering_pair_at(stages, s, i, j) == ordering_pair_at(stages, s0, i0, j0),
    ensures
        s == s0 && i == i0 && j == j0,
{
    assert(stages[s - 1][i] == stages[s0 - 1][i0]);
    assert(stages[s][j] == stages[s0][j0]);
}

/// Recomputing the stage partition is idempotent. `after` is a circuit as
/// `recalculate_stages` leaves it: the gates untouched and the partition
/// recomputed from them. Recomputing once more yields the very same
/// partition, so by the contract of `recalculate_stages` a second call
/// leaves the circuit unchanged and reports so.
pub proof fn lemma_recalculate_idempotent(before: Circuit, after: Circuit)
    requires
        after.gates@ == before.gates@,
        after.stages_seq() == restaged(before.gates@),
    ensures
        restaged(after.gates@) == after.stages_seq(),
{
}

/// Renumbering is idempotent: a renumbered gate sequence references the
/// indices below its new qubit count contiguously, so renumbering it once
/// more changes nothing.
pub proof fn lemma_renumber_idempotent(gates: Seq<TwoQubitGate>, n: nat)
    requires
        gates_wf(gates, n),
        n <= usize::MAX,
    ensures
        renumbered_gates(renumbered_gates(gates)) == renumbered_gates(gates),
{
    lemma_count_used_le(gates, n);
    lemma_renumbered_wf(gates, n);
    lemma_renumber_identity(renumbered_gates(gates), count_used(gates, n));
}

/// Renumbering a circuit whose referenced indices are already contiguous
/// from zero changes nothing: every rank equals its index.
pub proof fn lemma_renumber_identity(gates: Seq<TwoQubitGate>, n: nat)
    requires
        gates_wf(gates, n),
        all_used(gates, n),
        n <= usize::MAX,
    ensures
        renumbered_gates(gates) == gates,
{
    lemma_all_used_rank_id(gates, n);
    assert forall|i: int| 0 <= i < gates.len() implies renumbered_gates(gates)[i] == gates[i] by {
        assert(gates[i].q_ctrl < n && gates[i].q_target < n);
    }
    assert(renumbered_gates(gates) =~= gates);
}

} // verus!
