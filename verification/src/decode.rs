//! Decoding a satisfying assignment into the linear instruction stream:
//! initial placements, trap transfers, rigid row/column moves and gate
//! bundles, stage by stage.

use vstd::prelude::*;
use crate::constraints::entangle_all;
use crate::constraints::fixed_slm_all;
use crate::formula::entangle_at;
use crate::formula::fixed_slm_at;
use crate::gates::TwoQubitGate;
use crate::instruction::DPQAInstruction;
use crate::values::DPQAVarsValues;

verus! {

/// The gates among the first `i` whose firing stage is `t`, in order.
pub open spec fn fired_upto(
    gates: Seq<TwoQubitGate>,
    v: DPQAVarsValues,
    t: int,
    i: int,
) -> Seq<TwoQubitGate>
    decreases i,
{
    if i <= 0 {
        Seq::empty()
    } else {
        let p = fired_upto(gates, v, t, i - 1);
        if v.tg(i - 1) == t {
            p.push(gates[i - 1])
        } else {
            p
        }
    }
}

/// The gates firing at stage `t`, in original order.
pub open spec fn fired(gates: Seq<TwoQubitGate>, v: DPQAVarsValues, t: int) -> Seq<TwoQubitGate> {
    fired_upto(gates, v, t, gates.len() as int)
}

/// What one instruction of the stream after the initial placements says
/// about the variable values, at its stage `t`.
pub open spec fn instr_at_ok(
    ins: DPQAInstruction,
    v: DPQAVarsValues,
    gates: Seq<TwoQubitGate>,
    nq: int,
    t: int,
) -> bool {
    match ins {
        DPQAInstruction::Init { .. } => false,
        DPQAInstruction::MoveToAOD(..) => false,
        DPQAInstruction::MoveToSLM(q) => t >= 1 && (q as int) < nq && v.aod_at(q as int, t - 1)
            && !v.aod_at(q as int, t),
        DPQAInstruction::MoveAODCol { qubits, x_from, x_to } => {
            &&& t >= 1
            &&& x_from != x_to
            &&& qubits@.len() > 0
            &&& forall|k: int|
                0 <= k < qubits@.len() ==> ((#[trigger] qubits@[k]) as int) < nq && v.xy@[qubits@[k] as int]@[t
                    - 1].0 == x_from && v.xy@[qubits@[k] as int]@[t].0 == x_to && v.c(
                    qubits@[k] as int,
                    t,
                ) == v.c(qubits@[k] as int, t - 1)
            &&& forall|k1: int, k2: int|
                #![trigger qubits@[k1], qubits@[k2]]
                0 <= k1 < k2 < qubits@.len() ==> qubits@[k1] < qubits@[k2]
            &&& forall|k1: int, k2: int|
                #![trigger qubits@[k1], qubits@[k2]]
                0 <= k1 < qubits@.len() && 0 <= k2 < qubits@.len() ==> v.c(
                    qubits@[k1] as int,
                    t - 1,
                ) == v.c(qubits@[k2] as int, t - 1)
        },
        DPQAInstruction::MoveAODRow { qubits, y_from, y_to } => {
            &&& t >= 1
            &&& y_from != y_to
            &&& qubits@.len() > 0
            &&& forall|k: int|
                0 <= k < qubits@.len() ==> ((#[trigger] qubits@[k]) as int) < nq && v.xy@[qubits@[k] as int]@[t
                    - 1].1 == y_from && v.xy@[qubits@[k] as int]@[t].1 == y_to && v.r(
                    qubits@[k] as int,
                    t,
                ) == v.r(qubits@[k] as int, t - 1)
            &&& forall|k1: int, k2: int|
                #![trigger qubits@[k1], qubits@[k2]]
                0 <= k1 < k2 < qubits@.len() ==> qubits@[k1] < qubits@[k2]
            &&& forall|k1: int, k2: int|
                #![trigger qubits@[k1], qubits@[k2]]
                0 <= k1 < qubits@.len() && 0 <= k2 < qubits@.len() ==> v.r(
                    qubits@[k1] as int,
                    t - 1,
                ) == v.r(qubits@[k2] as int, t - 1)
        },
        DPQAInstruction::Gate(gs) => gs@.len() > 0 && gs@ == fired(gates, v, t),
    }
}

/// The category of an instruction within its stage: initial placements,
/// then transfers, then column moves, then row moves, then the bundle of
/// firing gates.
pub open spec fn instr_rank(ins: DPQAInstruction) -> int {
    match ins {
        DPQAInstruction::Init { .. } => 0,
        DPQAInstruction::MoveToSLM(..) => 1,
        DPQAInstruction::MoveToAOD(..) => 1,
        DPQAInstruction::MoveAODCol { .. } => 2,
        DPQAInstruction::MoveAODRow { .. } => 3,
        DPQAInstruction::Gate(..) => 4,
    }
}

/// Strict order of two same-stage, same-category instructions: transfers
/// by their qubit, moves by their first (smallest) listed qubit. No two
/// gate bundles compare, so a stage holds at most one.
pub open spec fn within_rank_lt(a: DPQAInstruction, b: DPQAInstruction) -> bool {
    match (a, b) {
        (DPQAInstruction::MoveToSLM(x), DPQAInstruction::MoveToSLM(y)) => x < y,
        (
            DPQAInstruction::MoveAODCol { qubits: qa, .. },
            DPQAInstruction::MoveAODCol { qubits: qb, .. },
        ) => qa@.len() > 0 && qb@.len() > 0 && qa@[0] < qb@[0],
        (
            DPQAInstruction::MoveAODRow { qubits: qa, .. },
            DPQAInstruction::MoveAODRow { qubits: qb, .. },
        ) => qa@.len() > 0 && qb@.len() > 0 && qa@[0] < qb@[0],
        _ => false,
    }
}

/// Emission order of the stream: ascending stage; within one stage
/// ascending category; within one category the strict order above.
pub open spec fn stream_le(a: DPQAInstruction, ta: int, b: DPQAInstruction, tb: int) -> bool {
    ||| ta < tb
    ||| (ta == tb && instr_rank(a) < instr_rank(b))
    ||| (ta == tb && instr_rank(a) == instr_rank(b) && within_rank_lt(a, b))
}

/// The instructions after the initial placements, each tagged with its
/// stage: every instruction is a true fact of its own stage, and the
/// stream is strictly ordered by stage, category, and qubit within a
/// category — so stages ascend, transfers precede column moves, column
/// moves precede row moves, the bundle comes last, transfers ascend by
/// qubit, moves ascend by leading qubit, and no stage holds two bundles
/// or a repeated transfer or move.
pub open spec fn stream_ordered(
    out: Seq<DPQAInstruction>,
    v: DPQAVarsValues,
    gates: Seq<TwoQubitGate>,
    nq: int,
    ns: int,
    tags: Seq<int>,
) -> bool {
    &&& out.len() == nq + tags.len()
    &&& forall|m: int| nq <= m < out.len() ==> 0 <= #[trigger] tags[m - nq] < ns
    &&& forall|m: int|
        nq <= m < out.len() ==> instr_at_ok(#[trigger] out[m], v, gates, nq, tags[m - nq])
    &&& forall|m1: int, m2: int|
        #![trigger tags[m1 - nq], tags[m2 - nq]]
        nq <= m1 < m2 < out.len() ==> stream_le(out[m1], tags[m1 - nq], out[m2], tags[m2 - nq])
}

/// The decoded stream opens with one initial placement per qubit, in
/// qubit order, and everything after describes true movements, transfers
/// and gate bundles of the assignment.
pub open spec fn decoded_ok(
    out: Seq<DPQAInstruction>,
    v: DPQAVarsValues,
    gates: Seq<TwoQubitGate>,
    nq: int,
    ns: int,
) -> bool {
    &&& ns > 0 ==> out.len() >= nq
    &&& ns > 0 ==> forall|q: int|
        0 <= q < nq ==> out[q] == (DPQAInstruction::Init {
            qubit: q as usize,
            x: v.xy@[q]@[0].0,
            y: v.xy@[q]@[0].1,
            in_aod: v.aod@[q]@[0],
        })
    &&& exists|tags: Seq<int>| stream_ordered(out, v, gates, nq, ns, tags)
    &&& forall|t: int|
        0 <= t < ns && fired(gates, v, t).len() > 0 ==> #[trigger] has_gate_bundle(
            out,
            v,
            gates,
            t,
        )
    &&& forall|t: int| 1 <= t < ns ==> #[trigger] transfers_complete(out, v, nq, t)
    &&& forall|t: int| 1 <= t < ns ==> #[trigger] moves_complete(out, v, nq, t)
    &&& ns == 0 ==> out.len() == 0
}

/// The stream carries the bundle of gates firing at stage `t`.
pub open spec fn has_gate_bundle(
    out: Seq<DPQAInstruction>,
    v: DPQAVarsValues,
    gates: Seq<TwoQubitGate>,
    t: int,
) -> bool {
    exists|m: int|
        0 <= m < out.len() && (#[trigger] out[m]) is Gate && out[m]->Gate_0@ == fired(gates, v, t)
}

/// Every transfer from the AOD into an SLM trap at stage `t` is reported.
pub open spec fn transfers_complete(
    out: Seq<DPQAInstruction>,
    v: DPQAVarsValues,
    nq: int,
    t: int,
) -> bool {
    forall|q: int|
        0 <= q < nq && v.aod_at(q, t - 1) && !v.aod_at(q, t) ==> #[trigger] out.contains(
            DPQAInstruction::MoveToSLM(q as usize),
        )
}

/// Qubit `q` changes its physical column into stage `t` while keeping its
/// logical column label: it takes part in a rigid column move.
pub open spec fn col_moved(v: DPQAVarsValues, q: int, t: int) -> bool {
    v.xy@[q]@[t].0 != v.xy@[q]@[t - 1].0 && v.c(q, t) == v.c(q, t - 1)
}

/// Qubit `q` changes its physical row into stage `t` while keeping its
/// logical row label: it takes part in a rigid row move.
pub open spec fn row_moved(v: DPQAVarsValues, q: int, t: int) -> bool {
    v.xy@[q]@[t].1 != v.xy@[q]@[t - 1].1 && v.r(q, t) == v.r(q, t - 1)
}

/// The stream lists `q` in a column move matching its displacement into
/// stage `t`.
pub open spec fn in_col_move(
    out: Seq<DPQAInstruction>,
    v: DPQAVarsValues,
    q: int,
    t: int,
) -> bool {
    exists|m: int|
        0 <= m < out.len() && (#[trigger] out[m]) is MoveAODCol
            && out[m]->MoveAODCol_qubits@.contains(q as usize) && out[m]->MoveAODCol_x_from
            == v.xy@[q]@[t - 1].0 && out[m]->MoveAODCol_x_to == v.xy@[q]@[t].0
}

/// The stream lists `q` in a row move matching its displacement into
/// stage `t`.
pub open spec fn in_row_move(
    out: Seq<DPQAInstruction>,
    v: DPQAVarsValues,
    q: int,
    t: int,
) -> bool {
    exists|m: int|
        0 <= m < out.len() && (#[trigger] out[m]) is MoveAODRow
            && out[m]->MoveAODRow_qubits@.contains(q as usize) && out[m]->MoveAODRow_y_from
            == v.xy@[q]@[t - 1].1 && out[m]->MoveAODRow_y_to == v.xy@[q]@[t].1
}

/// Qubits `a` and `b` belong to one column move into stage `t`: same
/// logical AOD column and same from/to physical columns.
pub open spec fn col_key_match(v: DPQAVarsValues, a: int, b: int, t: int) -> bool {
    &&& v.c(a, t - 1) == v.c(b, t - 1)
    &&& v.xy@[a]@[t - 1].0 == v.xy@[b]@[t - 1].0
    &&& v.xy@[a]@[t].0 == v.xy@[b]@[t].0
}

/// Qubits `a` and `b` belong to one row move into stage `t`: same logical
/// AOD row and same from/to physical rows.
pub open spec fn row_key_match(v: DPQAVarsValues, a: int, b: int, t: int) -> bool {
    &&& v.r(a, t - 1) == v.r(b, t - 1)
    &&& v.xy@[a]@[t - 1].1 == v.xy@[b]@[t - 1].1
    &&& v.xy@[a]@[t].1 == v.xy@[b]@[t].1
}

/// Every qubit displaced into stage `t` is listed in a matching move.
pub open spec fn moves_complete(
    out: Seq<DPQAInstruction>,
    v: DPQAVarsValues,
    nq: int,
    t: int,
) -> bool {
    &&& forall|q: int| 0 <= q < nq && col_moved(v, q, t) ==> #[trigger] in_col_move(out, v, q, t)
    &&& forall|q: int| 0 <= q < nq && row_moved(v, q, t) ==> #[trigger] in_row_move(out, v, q, t)
}

/// Appending an instruction loses no bundle, no transfer report and no
/// membership already in the stream.
proof fn lemma_push_keeps_parts(
    out: Seq<DPQAInstruction>,
    x: DPQAInstruction,
    v: DPQAVarsValues,
    gates: Seq<TwoQubitGate>,
    nq: int,
)
    ensures
        forall|t: int|
            has_gate_bundle(out, v, gates, t) ==> #[trigger] has_gate_bundle(
                out.push(x),
                v,
                gates,
                t,
            ),
        forall|t: int|
            transfers_complete(out, v, nq, t) ==> #[trigger] transfers_complete(
                out.push(x),
                v,
                nq,
                t,
            ),
        forall|q: int, t: int|
            in_col_move(out, v, q, t) ==> #[trigger] in_col_move(out.push(x), v, q, t),
        forall|q: int, t: int|
            in_row_move(out, v, q, t) ==> #[trigger] in_row_move(out.push(x), v, q, t),
{
    assert forall|t: int|
        has_gate_bundle(out, v, gates, t) implies #[trigger] has_gate_bundle(
        out.push(x),
        v,
        gates,
        t,
    ) by {
        let m = choose|m: int|
            0 <= m < out.len() && (#[trigger] out[m]) is Gate && out[m]->Gate_0@ == fired(
                gates,
                v,
                t,
            );
        assert(out.push(x)[m] == out[m]);
    }
    assert forall|t: int|
        transfers_complete(out, v, nq, t) implies #[trigger] transfers_complete(
        out.push(x),
        v,
        nq,
        t,
    ) by {
        assert forall|q: int|
            0 <= q < nq && v.aod_at(q, t - 1) && !v.aod_at(q, t) implies #[trigger] out.push(
            x,
        ).contains(DPQAInstruction::MoveToSLM(q as usize)) by {
            assert(out.contains(DPQAInstruction::MoveToSLM(q as usize)));
            let m = choose|m: int|
                0 <= m < out.len() && out[m] == DPQAInstruction::MoveToSLM(q as usize);
            assert(out.push(x)[m] == out[m]);
        }
    }
    assert forall|q: int, t: int|
        in_col_move(out, v, q, t) implies #[trigger] in_col_move(out.push(x), v, q, t) by {
        let m = choose|m: int|
            0 <= m < out.len() && (#[trigger] out[m]) is MoveAODCol
                && out[m]->MoveAODCol_qubits@.contains(q as usize) && out[m]->MoveAODCol_x_from
                == v.xy@[q]@[t - 1].0 && out[m]->MoveAODCol_x_to == v.xy@[q]@[t].0;
        assert(out.push(x)[m] == out[m]);
    }
    assert forall|q: int, t: int|
        in_row_move(out, v, q, t) implies #[trigger] in_row_move(out.push(x), v, q, t) by {
        let m = choose|m: int|
            0 <= m < out.len() && (#[trigger] out[m]) is MoveAODRow
                && out[m]->MoveAODRow_qubits@.contains(q as usize) && out[m]->MoveAODRow_y_from
                == v.xy@[q]@[t - 1].1 && out[m]->MoveAODRow_y_to == v.xy@[q]@[t].1;
        assert(out.push(x)[m] == out[m]);
    }
}

/// Collect the gates firing at stage `t`, in original order.
fn fired_at(
    gates: &Vec<TwoQubitGate>,
    vals: &DPQAVarsValues,
    t: usize,
    nq: usize,
    ns: usize,
) -> (gs: Vec<TwoQubitGate>)
    requires
        vals.wf(nq as nat, ns as nat, gates@.len()),
    ensures
        gs@ == fired(gates@, *vals, t as int),
{
    let ng = gates.len();
    let mut gs: Vec<TwoQubitGate> = Vec::new();
    let mut i: usize = 0;
    while i < ng
        invariant
            ng == gates@.len(),
            vals.wf(nq as nat, ns as nat, gates@.len()),
            gs@ == fired_upto(gates@, *vals, t as int, i as int),
            i <= ng,
        decreases ng - i,
    {
        if vals.t[i] == t as u64 {
            gs.push(gates[i]);
        }
        i = i + 1;
    }
    gs
}

/// Decode a satisfying assignment into the instruction stream: initial
/// placements at the first stage; then, per stage, transfers to SLM in
/// qubit order, column moves, row moves, and the bundle of gates firing
/// at the stage. A move instruction groups the qubits that share one
/// logical AOD column (row) and one from/to pair of physical columns
/// (rows): the logical label joins the grouping key, so every group is a
/// single rigid line of the AOD even where two lines coincide physically.
pub fn decode_instructions(
    gates: &Vec<TwoQubitGate>,
    n_qubits: usize,
    n_stages: usize,
    vals: &DPQAVarsValues,
) -> (out: Vec<DPQAInstruction>)
    requires
        vals.wf(n_qubits as nat, n_stages as nat, gates@.len()),
        n_qubits > 0 ==> n_stages > 0,
    ensures
        decoded_ok(out@, *vals, gates@, n_qubits as int, n_stages as int),
{
    let nq = n_qubits;
    let ns = n_stages;
    let ghost mut tags: Seq<int> = Seq::empty();
    let mut out: Vec<DPQAInstruction> = Vec::new();
    if ns == 0 {
        proof {
            assert(stream_ordered(out@, *vals, gates@, nq as int, ns as int, tags));
        }
        return out;
    }

    // initial placements
    let mut q: usize = 0;
    while q < nq
        invariant
            vals.wf(nq as nat, ns as nat, gates@.len()),
            ns > 0,
            out@.len() == q,
            forall|q2: int|
                0 <= q2 < q ==> out@[q2] == (DPQAInstruction::Init {
                    qubit: q2 as usize,
                    x: vals.xy@[q2]@[0].0,
                    y: vals.xy@[q2]@[0].1,
                    in_aod: vals.aod@[q2]@[0],
                }),
            q <= nq,
        decreases nq - q,
    {
        let xy = vals.xy[q][0];
        out.push(
            DPQAInstruction::Init { qubit: q, x: xy.0, y: xy.1, in_aod: vals.aod[q][0] },
        );
        q = q + 1;
    }

    // gates firing at the initial stage
    let gs0 = fired_at(gates, vals, 0, nq, ns);
    if gs0.len() > 0 {
        let f = DPQAInstruction::Gate(gs0);
        let ghost fv = f;
        let ghost pre = out@;
        out.push(f);
        proof {
            tags = tags.push(0);
            assert(instr_at_ok(fv, *vals, gates@, nq as int, 0));
            assert(out@.len() == nq + tags.len());
            assert forall|m: int|
                nq <= m < out@.len() implies instr_at_ok(
                #[trigger] out@[m],
                *vals,
                gates@,
                nq as int,
                tags[m - nq],
            ) by {
                assert(out@[m] == fv && tags[m - nq] == 0);
            }
            assert(out@[pre.len() as int] is Gate && out@[pre.len() as int]->Gate_0@ == fired(
                gates@,
                *vals,
                0,
            ));
            assert(has_gate_bundle(out@, *vals, gates@, 0));
        }
    }

    // later stages
    let mut t: usize = 1;
    while t < ns
        invariant
            vals.wf(nq as nat, ns as nat, gates@.len()),
            ns > 0,
            1 <= t,
            t <= ns,
            out@.len() >= nq,
            forall|q2: int|
                0 <= q2 < nq ==> out@[q2] == (DPQAInstruction::Init {
                    qubit: q2 as usize,
                    x: vals.xy@[q2]@[0].0,
                    y: vals.xy@[q2]@[0].1,
                    in_aod: vals.aod@[q2]@[0],
                }),
            out@.len() == nq + tags.len(),
            forall|m: int| nq <= m < out@.len() ==> 0 <= #[trigger] tags[m - nq] < ns,
            forall|m: int|
                nq <= m < out@.len() ==> instr_at_ok(
                    #[trigger] out@[m],
                    *vals,
                    gates@,
                    nq as int,
                    tags[m - nq],
                ),
            forall|m1: int, m2: int|
                #![trigger tags[m1 - nq], tags[m2 - nq]]
                nq <= m1 < m2 < out@.len() ==> stream_le(
                    out@[m1],
                    tags[m1 - nq],
                    out@[m2],
                    tags[m2 - nq],
                ),
            forall|m: int| nq <= m < out@.len() ==> #[trigger] tags[m - nq] < t,
            forall|u: int|
                0 <= u < t && fired(gates@, *vals, u).len() > 0 ==> #[trigger] has_gate_bundle(
                    out@,
                    *vals,
                    gates@,
                    u,
                ),
            forall|u: int| 1 <= u < t ==> #[trigger] transfers_complete(out@, *vals, nq as int, u),
                forall|q2: int, u: int|
                    #![trigger in_col_move(out@, *vals, q2, u)]
                    0 <= q2 < nq && 1 <= u < t && col_moved(*vals, q2, u) ==> in_col_move(
                        out@,
                        *vals,
                        q2,
                        u,
                    ),
                forall|q2: int, u: int|
                    #![trigger in_row_move(out@, *vals, q2, u)]
                    0 <= q2 < nq && 1 <= u < t && row_moved(*vals, q2, u) ==> in_row_move(
                        out@,
                        *vals,
                        q2,
                        u,
                    ),
        decreases ns - t,
    {
        // transfers from AOD to SLM, in qubit order
        let mut q1: usize = 0;
        while q1 < nq
            invariant
                vals.wf(nq as nat, ns as nat, gates@.len()),
                ns > 0,
                1 <= t < ns,
                out@.len() >= nq,
                forall|q2: int|
                    0 <= q2 < nq ==> out@[q2] == (DPQAInstruction::Init {
                        qubit: q2 as usize,
                        x: vals.xy@[q2]@[0].0,
                        y: vals.xy@[q2]@[0].1,
                        in_aod: vals.aod@[q2]@[0],
                    }),
                out@.len() == nq + tags.len(),
                forall|m: int| nq <= m < out@.len() ==> 0 <= #[trigger] tags[m - nq] < ns,
                forall|m: int|
                    nq <= m < out@.len() ==> instr_at_ok(
                        #[trigger] out@[m],
                        *vals,
                        gates@,
                        nq as int,
                        tags[m - nq],
                    ),
                forall|m1: int, m2: int|
                    #![trigger tags[m1 - nq], tags[m2 - nq]]
                    nq <= m1 < m2 < out@.len() ==> stream_le(
                        out@[m1],
                        tags[m1 - nq],
                        out@[m2],
                        tags[m2 - nq],
                    ),
                forall|m: int| nq <= m < out@.len() ==> #[trigger] tags[m - nq] <= t,
                forall|m: int|
                    nq <= m < out@.len() && tags[m - nq] == t ==> (#[trigger] out@[m])
                        is MoveToSLM && (out@[m]->MoveToSLM_0 as int) < q1 as int,
                forall|u: int|
                    0 <= u < t && fired(gates@, *vals, u).len() > 0 ==> #[trigger] has_gate_bundle(
                        out@,
                        *vals,
                        gates@,
                        u,
                    ),
                forall|u: int|
                    1 <= u < t ==> #[trigger] transfers_complete(out@, *vals, nq as int, u),
                forall|q2: int|
                    0 <= q2 < q1 && vals.aod_at(q2, t as int - 1) && !vals.aod_at(q2, t as int)
                        ==> #[trigger] out@.contains(DPQAInstruction::MoveToSLM(q2 as usize)),
                forall|q2: int, u: int|
                    #![trigger in_col_move(out@, *vals, q2, u)]
                    0 <= q2 < nq && 1 <= u < t && col_moved(*vals, q2, u) ==> in_col_move(
                        out@,
                        *vals,
                        q2,
                        u,
                    ),
                forall|q2: int, u: int|
                    #![trigger in_row_move(out@, *vals, q2, u)]
                    0 <= q2 < nq && 1 <= u < t && row_moved(*vals, q2, u) ==> in_row_move(
                        out@,
                        *vals,
                        q2,
                        u,
                    ),
                q1 <= nq,
            decreases nq - q1,
        {
            if vals.aod[q1][t - 1] && !vals.aod[q1][t] {
                let f = DPQAInstruction::MoveToSLM(q1);
                let ghost fv = f;
                let ghost pre = out@;
                out.push(f);
                proof {
                    let tags_pre = tags;
                    tags = tags.push(t as int);
                    assert(instr_at_ok(fv, *vals, gates@, nq as int, t as int));
                    assert(out@.len() == nq + tags.len());
                    assert forall|m: int|
                        nq <= m < out@.len() implies instr_at_ok(
                        #[trigger] out@[m],
                        *vals,
                        gates@,
                        nq as int,
                        tags[m - nq],
                    ) by {
                        if m < pre.len() {
                            assert(out@[m] == pre[m] && tags[m - nq] == tags_pre[m - nq]);
                        } else {
                            assert(out@[m] == fv && tags[m - nq] == t as int);
                        }
                    }
                    assert forall|m1: int, m2: int|
                        #![trigger tags[m1 - nq], tags[m2 - nq]]
                        nq <= m1 < m2 < out@.len() implies stream_le(
                        out@[m1],
                        tags[m1 - nq],
                        out@[m2],
                        tags[m2 - nq],
                    ) by {
                        if m2 < pre.len() {
                            assert(out@[m1] == pre[m1] && out@[m2] == pre[m2] && tags[m1 - nq]
                                == tags_pre[m1 - nq] && tags[m2 - nq] == tags_pre[m2 - nq]);
                        } else {
                            assert(out@[m2] == fv && tags[m2 - nq] == t as int);
                            assert(out@[m1] == pre[m1] && tags[m1 - nq] == tags_pre[m1 - nq]);
                            if tags_pre[m1 - nq] == t as int {
                                assert(pre[m1] is MoveToSLM && (pre[m1]->MoveToSLM_0 as int)
                                    < q1 as int);
                                assert(within_rank_lt(pre[m1], fv));
                            }
                        }
                    }
                    assert forall|m: int|
                        nq <= m < out@.len() && tags[m - nq] == t implies (#[trigger] out@[m])
                        is MoveToSLM && (out@[m]->MoveToSLM_0 as int) < q1 as int + 1 by {
                        if m < pre.len() {
                            assert(out@[m] == pre[m] && tags[m - nq] == tags_pre[m - nq]);
                        } else {
                            assert(out@[m] == fv);
                        }
                    }
                    lemma_push_keeps_parts(pre, fv, *vals, gates@, nq as int);
                    assert forall|q2: int|
                        0 <= q2 < q1 + 1 && vals.aod_at(q2, t as int - 1) && !vals.aod_at(
                            q2,
                            t as int,
                        ) implies #[trigger] out@.contains(
                        DPQAInstruction::MoveToSLM(q2 as usize),
                    ) by {
                        if q2 < q1 {
                            assert(pre.contains(DPQAInstruction::MoveToSLM(q2 as usize)));
                            let m = choose|m: int|
                                0 <= m < pre.len() && pre[m] == DPQAInstruction::MoveToSLM(
                                    q2 as usize,
                                );
                            assert(out@[m] == pre[m]);
                        } else {
                            assert(out@[pre.len() as int] == DPQAInstruction::MoveToSLM(q1));
                        }
                    }
                }
            }
            q1 = q1 + 1;
        }
        proof {
            assert(transfers_complete(out@, *vals, nq as int, t as int));
        }

        // rigid column moves, grouped by (from, to)
        let mut qc: usize = 0;
        while qc < nq
            invariant
                vals.wf(nq as nat, ns as nat, gates@.len()),
                ns > 0,
                1 <= t < ns,
                out@.len() >= nq,
                forall|q2: int|
                    0 <= q2 < nq ==> out@[q2] == (DPQAInstruction::Init {
                        qubit: q2 as usize,
                        x: vals.xy@[q2]@[0].0,
                        y: vals.xy@[q2]@[0].1,
                        in_aod: vals.aod@[q2]@[0],
                    }),
                out@.len() == nq + tags.len(),
                forall|m: int| nq <= m < out@.len() ==> 0 <= #[trigger] tags[m - nq] < ns,
                forall|m: int|
                    nq <= m < out@.len() ==> instr_at_ok(
                        #[trigger] out@[m],
                        *vals,
                        gates@,
                        nq as int,
                        tags[m - nq],
                    ),
                forall|m1: int, m2: int|
                    #![trigger tags[m1 - nq], tags[m2 - nq]]
                    nq <= m1 < m2 < out@.len() ==> stream_le(
                        out@[m1],
                        tags[m1 - nq],
                        out@[m2],
                        tags[m2 - nq],
                    ),
                forall|m: int| nq <= m < out@.len() ==> #[trigger] tags[m - nq] <= t,
                forall|m: int|
                    nq <= m < out@.len() && tags[m - nq] == t ==> instr_rank(#[trigger] out@[m])
                        <= 2 && (out@[m] is MoveAODCol ==> (
                    out@[m]->MoveAODCol_qubits@[0] as int) < qc as int),
                forall|u: int|
                    0 <= u < t && fired(gates@, *vals, u).len() > 0 ==> #[trigger] has_gate_bundle(
                        out@,
                        *vals,
                        gates@,
                        u,
                    ),
                forall|u: int|
                    1 <= u < t ==> #[trigger] transfers_complete(out@, *vals, nq as int, u),
                transfers_complete(out@, *vals, nq as int, t as int),
                forall|q2: int, u: int|
                    #![trigger in_col_move(out@, *vals, q2, u)]
                    0 <= q2 < nq && 1 <= u < t && col_moved(*vals, q2, u) ==> in_col_move(
                        out@,
                        *vals,
                        q2,
                        u,
                    ),
                forall|q2: int, u: int|
                    #![trigger in_row_move(out@, *vals, q2, u)]
                    0 <= q2 < nq && 1 <= u < t && row_moved(*vals, q2, u) ==> in_row_move(
                        out@,
                        *vals,
                        q2,
                        u,
                    ),
                forall|q2: int|
                    0 <= q2 < nq && col_moved(*vals, q2, t as int) && q2 < qc
                        ==> #[trigger] in_col_move(out@, *vals, q2, t as int),
                forall|q2: int|
                    0 <= q2 < nq && col_moved(*vals, q2, t as int) && (exists|q3: int|
                        0 <= q3 < qc && col_moved(*vals, q3, t as int) && #[trigger] col_key_match(
                            *vals,
                            q3,
                            q2,
                            t as int,
                        )) ==> #[trigger] in_col_move(out@, *vals, q2, t as int),
                qc <= nq,
            decreases nq - qc,
        {
            let xf = vals.xy[qc][t - 1].0;
            let xt = vals.xy[qc][t].0;
            let cl = vals.cr[qc][t - 1].0;
            let moved = xf != xt && vals.cr[qc][t].0 == cl;
            if moved {
                // emit the group only at its first member
                let mut leader = true;
                let mut qp: usize = 0;
                while qp < qc
                    invariant
                        vals.wf(nq as nat, ns as nat, gates@.len()),
                        1 <= t < ns,
                        qc < nq,
                        xf != xt,
                        xf == vals.xy@[qc as int]@[t - 1].0,
                        xt == vals.xy@[qc as int]@[t as int].0,
                        cl == vals.cr@[qc as int]@[t - 1].0,
                        leader ==> forall|q3: int|
                            0 <= q3 < qp ==> !(col_moved(*vals, q3, t as int)
                                && #[trigger] col_key_match(*vals, q3, qc as int, t as int)),
                        !leader ==> exists|q3: int|
                            0 <= q3 < qc && col_moved(*vals, q3, t as int)
                                && #[trigger] col_key_match(*vals, q3, qc as int, t as int),
                        qp <= qc,
                    decreases qc - qp,
                {
                    if vals.xy[qp][t - 1].0 == xf && vals.xy[qp][t].0 == xt && vals.cr[qp][t].0
                        == vals.cr[qp][t - 1].0 && vals.cr[qp][t - 1].0 == cl {
                        leader = false;
                        proof {
                            assert(col_moved(*vals, qp as int, t as int) && col_key_match(
                                *vals,
                                qp as int,
                                qc as int,
                                t as int,
                            ));
                        }
                    }
                    qp = qp + 1;
                }
                if leader {
                    let mut qs: Vec<usize> = Vec::new();
                    let mut qg: usize = qc;
                    while qg < nq
                        invariant
                            vals.wf(nq as nat, ns as nat, gates@.len()),
                            1 <= t < ns,
                            qc < nq,
                            qc <= qg <= nq,
                            qg == qc ==> qs@.len() == 0,
                            qg > qc ==> qs@.len() > 0 && qs@[0] == qc,
                            xf != xt,
                            xf == vals.xy@[qc as int]@[t - 1].0,
                            xt == vals.xy@[qc as int]@[t as int].0,
                            cl == vals.cr@[qc as int]@[t - 1].0,
                            vals.cr@[qc as int]@[t as int].0 == vals.cr@[qc as int]@[t - 1].0,
                            forall|k: int|
                                0 <= k < qs@.len() ==> ((#[trigger] qs@[k]) as int) < nq as int
                                    && vals.xy@[qs@[k] as int]@[t - 1].0 == xf
                                    && vals.xy@[qs@[k] as int]@[t as int].0 == xt && vals.c(
                                    qs@[k] as int,
                                    t as int,
                                ) == vals.c(qs@[k] as int, t as int - 1)
                                    && vals.cr@[qs@[k] as int]@[t - 1].0 == cl && qs@[k] < qg,
                            forall|k1: int, k2: int|
                                #![trigger qs@[k1], qs@[k2]]
                                0 <= k1 < k2 < qs@.len() ==> qs@[k1] < qs@[k2],
                            forall|q2: int|
                                qc <= q2 < qg && col_moved(*vals, q2, t as int)
                                    && #[trigger] col_key_match(*vals, qc as int, q2, t as int)
                                    ==> qs@.contains(q2 as usize),
                        decreases nq - qg,
                    {
                        let ghost qs_pre = qs@;
                        if vals.xy[qg][t - 1].0 == xf && vals.xy[qg][t].0 == xt && vals.cr[qg][t].0
                            == vals.cr[qg][t - 1].0 && vals.cr[qg][t - 1].0 == cl {
                            qs.push(qg);
                        }
                        proof {
                            if qg == qc {
                                assert(qs@.len() > 0);
                                assert(qs@[0] == qc);
                            }
                            assert forall|q2: int|
                                qc <= q2 < qg + 1 && col_moved(*vals, q2, t as int)
                                    && #[trigger] col_key_match(*vals, qc as int, q2, t as int) implies qs@.contains(
                                q2 as usize,
                            ) by {
                                if q2 < qg {
                                    assert(qs_pre.contains(q2 as usize));
                                    let k = choose|k: int|
                                        0 <= k < qs_pre.len() && qs_pre[k] == q2 as usize;
                                    assert(qs@[k] == q2 as usize);
                                } else {
                                    assert(qs@[qs@.len() - 1] == qg);
                                }
                            }
                        }
                        qg = qg + 1;
                    }
                    let f = DPQAInstruction::MoveAODCol { qubits: qs, x_from: xf, x_to: xt };
                    let ghost fv = f;
                    let ghost pre = out@;
                    out.push(f);
                    proof {
                        lemma_push_keeps_parts(pre, fv, *vals, gates@, nq as int);
                        assert(instr_at_ok(fv, *vals, gates@, nq as int, t as int));
                        let tags_pre = tags;
                        tags = tags.push(t as int);
                        assert(out@.len() == nq + tags.len());
                        assert forall|m: int|
                            nq <= m < out@.len() implies instr_at_ok(
                            #[trigger] out@[m],
                            *vals,
                            gates@,
                            nq as int,
                            tags[m - nq],
                        ) by {
                            if m < pre.len() {
                                assert(out@[m] == pre[m] && tags[m - nq] == tags_pre[m - nq]);
                            } else {
                                assert(out@[m] == fv && tags[m - nq] == t as int);
                            }
                        }
                        assert forall|m1: int, m2: int|
                            #![trigger tags[m1 - nq], tags[m2 - nq]]
                            nq <= m1 < m2 < out@.len() implies stream_le(
                            out@[m1],
                            tags[m1 - nq],
                            out@[m2],
                            tags[m2 - nq],
                        ) by {
                            if m2 < pre.len() {
                                assert(out@[m1] == pre[m1] && out@[m2] == pre[m2] && tags[m1 - nq]
                                    == tags_pre[m1 - nq] && tags[m2 - nq] == tags_pre[m2 - nq]);
                            } else {
                                assert(out@[m2] == fv && tags[m2 - nq] == t as int);
                                assert(out@[m1] == pre[m1] && tags[m1 - nq] == tags_pre[m1 - nq]);
                                    if tags_pre[m1 - nq] == t as int {
                                        assert(instr_rank(pre[m1]) <= 2);
                                        assert(instr_at_ok(pre[m1], *vals, gates@, nq as int, tags_pre[m1 - nq]));
                                        if pre[m1] is MoveAODCol {
                                            assert((pre[m1]->MoveAODCol_qubits@[0] as int) < qc as int);
                                            assert(fv->MoveAODCol_qubits@[0] == qc);
                                            assert(within_rank_lt(pre[m1], fv));
                                        }
                                    }
                            }
                        }
                        assert forall|m: int|
                            nq <= m < out@.len() && tags[m - nq] == t implies instr_rank(#[trigger] out@[m])
                                <= 2 && (out@[m] is MoveAODCol ==> (
                            out@[m]->MoveAODCol_qubits@[0] as int) < qc as int + 1) by {
                            if m < pre.len() {
                                assert(out@[m] == pre[m] && tags[m - nq] == tags_pre[m - nq]);
                            } else {
                                assert(out@[m] == fv);
                                assert(fv->MoveAODCol_qubits@[0] == qc);
                            }
                        }
                        // the pushed move lists this whole group
                        assert forall|q2: int|
                            0 <= q2 < nq && col_moved(*vals, q2, t as int) && #[trigger] col_key_match(
                                *vals,
                                qc as int,
                                q2,
                                t as int,
                            ) implies in_col_move(out@, *vals, q2, t as int) by {
                            if q2 >= qc {
                                assert(fv->MoveAODCol_qubits@.contains(q2 as usize));
                                assert(out@[pre.len() as int] == fv);
                            } else {
                                assert(col_key_match(*vals, q2, qc as int, t as int));
                                assert(false);
                            }
                        }
                        assert forall|q2: int|
                            0 <= q2 < nq && col_moved(*vals, q2, t as int) && q2 < qc + 1 implies
                            #[trigger] in_col_move(out@, *vals, q2, t as int) by {
                            if q2 == qc {
                                assert(col_key_match(*vals, qc as int, q2, t as int));
                            } else {
                                assert(in_col_move(pre, *vals, q2, t as int));
                            }
                        }
                        assert forall|q2: int|
                            0 <= q2 < nq && col_moved(*vals, q2, t as int) && (exists|q3: int|
                                0 <= q3 < qc + 1 && col_moved(*vals, q3, t as int)
                                    && #[trigger] col_key_match(
                                    *vals,
                                    q3,
                                    q2,
                                    t as int,
                                )) implies #[trigger] in_col_move(out@, *vals, q2, t as int) by {
                            let q3 = choose|q3: int|
                                0 <= q3 < qc + 1 && col_moved(*vals, q3, t as int)
                                    && #[trigger] col_key_match(*vals, q3, q2, t as int);
                            if q3 == qc {
                                assert(col_key_match(*vals, qc as int, q2, t as int));
                            } else {
                                assert(in_col_move(pre, *vals, q2, t as int));
                            }
                        }
                    }
                } else {
                    proof {
                        // a smaller member of this group was the leader: the
                        // group was already emitted
                        let q4 = choose|q4: int|
                            0 <= q4 < qc && col_moved(*vals, q4, t as int)
                                && #[trigger] col_key_match(*vals, q4, qc as int, t as int);
                        assert forall|q2: int|
                            0 <= q2 < nq && col_moved(*vals, q2, t as int) && (exists|q3: int|
                                0 <= q3 < qc + 1 && col_moved(*vals, q3, t as int)
                                    && #[trigger] col_key_match(
                                    *vals,
                                    q3,
                                    q2,
                                    t as int,
                                )) implies #[trigger] in_col_move(out@, *vals, q2, t as int) by {
                            let q3 = choose|q3: int|
                                0 <= q3 < qc + 1 && col_moved(*vals, q3, t as int)
                                    && #[trigger] col_key_match(*vals, q3, q2, t as int);
                            if q3 == qc {
                                assert(col_key_match(*vals, q4, q2, t as int));
                            }
                        }
                        assert(col_key_match(*vals, q4, qc as int, t as int));
                        assert(in_col_move(out@, *vals, qc as int, t as int));
                    }
                }
            } else {
                proof {
                    assert(!col_moved(*vals, qc as int, t as int));
                }
            }
            qc = qc + 1;
        }
        proof {
            assert forall|q2: int|
                0 <= q2 < nq && col_moved(*vals, q2, t as int) implies #[trigger] in_col_move(
                out@,
                *vals,
                q2,
                t as int,
            ) by {}
        }

        // rigid row moves, grouped by (from, to)
        let mut qr: usize = 0;
        while qr < nq
            invariant
                vals.wf(nq as nat, ns as nat, gates@.len()),
                ns > 0,
                1 <= t < ns,
                out@.len() >= nq,
                forall|q2: int|
                    0 <= q2 < nq ==> out@[q2] == (DPQAInstruction::Init {
                        qubit: q2 as usize,
                        x: vals.xy@[q2]@[0].0,
                        y: vals.xy@[q2]@[0].1,
                        in_aod: vals.aod@[q2]@[0],
                    }),
                out@.len() == nq + tags.len(),
                forall|m: int| nq <= m < out@.len() ==> 0 <= #[trigger] tags[m - nq] < ns,
                forall|m: int|
                    nq <= m < out@.len() ==> instr_at_ok(
                        #[trigger] out@[m],
                        *vals,
                        gates@,
                        nq as int,
                        tags[m - nq],
                    ),
                forall|m1: int, m2: int|
                    #![trigger tags[m1 - nq], tags[m2 - nq]]
                    nq <= m1 < m2 < out@.len() ==> stream_le(
                        out@[m1],
                        tags[m1 - nq],
                        out@[m2],
                        tags[m2 - nq],
                    ),
                forall|m: int| nq <= m < out@.len() ==> #[trigger] tags[m - nq] <= t,
                forall|m: int|
                    nq <= m < out@.len() && tags[m - nq] == t ==> instr_rank(#[trigger] out@[m])
                        <= 3 && (out@[m] is MoveAODRow ==> (
                    out@[m]->MoveAODRow_qubits@[0] as int) < qr as int),
                forall|u: int|
                    0 <= u < t && fired(gates@, *vals, u).len() > 0 ==> #[trigger] has_gate_bundle(
                        out@,
                        *vals,
                        gates@,
                        u,
                    ),
                forall|u: int|
                    1 <= u < t ==> #[trigger] transfers_complete(out@, *vals, nq as int, u),
                transfers_complete(out@, *vals, nq as int, t as int),
                forall|q2: int, u: int|
                    #![trigger in_col_move(out@, *vals, q2, u)]
                    0 <= q2 < nq && 1 <= u < t && col_moved(*vals, q2, u) ==> in_col_move(
                        out@,
                        *vals,
                        q2,
                        u,
                    ),
                forall|q2: int, u: int|
                    #![trigger in_row_move(out@, *vals, q2, u)]
                    0 <= q2 < nq && 1 <= u < t && row_moved(*vals, q2, u) ==> in_row_move(
                        out@,
                        *vals,
                        q2,
                        u,
                    ),
                forall|q2: int|
                    0 <= q2 < nq && #[trigger] col_moved(*vals, q2, t as int) ==> in_col_move(
                        out@,
                        *vals,
                        q2,
                        t as int,
                    ),
                forall|q2: int|
                    0 <= q2 < nq && row_moved(*vals, q2, t as int) && q2 < qr
                        ==> #[trigger] in_row_move(out@, *vals, q2, t as int),
                forall|q2: int|
                    0 <= q2 < nq && row_moved(*vals, q2, t as int) && (exists|q3: int|
                        0 <= q3 < qr && row_moved(*vals, q3, t as int) && #[trigger] row_key_match(
                            *vals,
                            q3,
                            q2,
                            t as int,
                        )) ==> #[trigger] in_row_move(out@, *vals, q2, t as int),
                qr <= nq,
            decreases nq - qr,
        {
            let yf = vals.xy[qr][t - 1].1;
            let yt = vals.xy[qr][t].1;
            let rl = vals.cr[qr][t - 1].1;
            let moved = yf != yt && vals.cr[qr][t].1 == rl;
            if moved {
                let mut leader = true;
                let mut qp: usize = 0;
                while qp < qr
                    invariant
                        vals.wf(nq as nat, ns as nat, gates@.len()),
                        1 <= t < ns,
                        qr < nq,
                        yf != yt,
                        yf == vals.xy@[qr as int]@[t - 1].1,
                        yt == vals.xy@[qr as int]@[t as int].1,
                        rl == vals.cr@[qr as int]@[t - 1].1,
                        leader ==> forall|q3: int|
                            0 <= q3 < qp ==> !(row_moved(*vals, q3, t as int)
                                && #[trigger] row_key_match(*vals, q3, qr as int, t as int)),
                        !leader ==> exists|q3: int|
                            0 <= q3 < qr && row_moved(*vals, q3, t as int)
                                && #[trigger] row_key_match(*vals, q3, qr as int, t as int),
                        qp <= qr,
                    decreases qr - qp,
                {
                    if vals.xy[qp][t - 1].1 == yf && vals.xy[qp][t].1 == yt && vals.cr[qp][t].1
                        == vals.cr[qp][t - 1].1 && vals.cr[qp][t - 1].1 == rl {
                        leader = false;
                        proof {
                            assert(row_moved(*vals, qp as int, t as int) && row_key_match(
                                *vals,
                                qp as int,
                                qr as int,
                                t as int,
                            ));
                        }
                    }
                    qp = qp + 1;
                }
                if leader {
                    let mut qs: Vec<usize> = Vec::new();
                    let mut qg: usize = qr;
                    while qg < nq
                        invariant
                            vals.wf(nq as nat, ns as nat, gates@.len()),
                            1 <= t < ns,
                            qr < nq,
                            qr <= qg <= nq,
                            qg == qr ==> qs@.len() == 0,
                            qg > qr ==> qs@.len() > 0 && qs@[0] == qr,
                            yf != yt,
                            yf == vals.xy@[qr as int]@[t - 1].1,
                            yt == vals.xy@[qr as int]@[t as int].1,
                            rl == vals.cr@[qr as int]@[t - 1].1,
                            vals.cr@[qr as int]@[t as int].1 == vals.cr@[qr as int]@[t - 1].1,
                            forall|k: int|
                                0 <= k < qs@.len() ==> ((#[trigger] qs@[k]) as int) < nq as int
                                    && vals.xy@[qs@[k] as int]@[t - 1].1 == yf
                                    && vals.xy@[qs@[k] as int]@[t as int].1 == yt && vals.r(
                                    qs@[k] as int,
                                    t as int,
                                ) == vals.r(qs@[k] as int, t as int - 1)
                                    && vals.cr@[qs@[k] as int]@[t - 1].1 == rl && qs@[k] < qg,
                            forall|k1: int, k2: int|
                                #![trigger qs@[k1], qs@[k2]]
                                0 <= k1 < k2 < qs@.len() ==> qs@[k1] < qs@[k2],
                            forall|q2: int|
                                qr <= q2 < qg && row_moved(*vals, q2, t as int)
                                    && #[trigger] row_key_match(*vals, qr as int, q2, t as int)
                                    ==> qs@.contains(q2 as usize),
                        decreases nq - qg,
                    {
                        let ghost qs_pre = qs@;
                        if vals.xy[qg][t - 1].1 == yf && vals.xy[qg][t].1 == yt && vals.cr[qg][t].1
                            == vals.cr[qg][t - 1].1 && vals.cr[qg][t - 1].1 == rl {
                            qs.push(qg);
                        }
                        proof {
                            if qg == qr {
                                assert(qs@.len() > 0);
                                assert(qs@[0] == qr);
                            }
                            assert forall|q2: int|
                                qr <= q2 < qg + 1 && row_moved(*vals, q2, t as int)
                                    && #[trigger] row_key_match(*vals, qr as int, q2, t as int) implies qs@.contains(
                                q2 as usize,
                            ) by {
                                if q2 < qg {
                                    assert(qs_pre.contains(q2 as usize));
                                    let k = choose|k: int|
                                        0 <= k < qs_pre.len() && qs_pre[k] == q2 as usize;
                                    assert(qs@[k] == q2 as usize);
                                } else {
                                    assert(qs@[qs@.len() - 1] == qg);
                                }
                            }
                        }
                        qg = qg + 1;
                    }
                    let f = DPQAInstruction::MoveAODRow { qubits: qs, y_from: yf, y_to: yt };
                    let ghost fv = f;
                    let ghost pre = out@;
                    out.push(f);
                    proof {
                        lemma_push_keeps_parts(pre, fv, *vals, gates@, nq as int);
                        assert(instr_at_ok(fv, *vals, gates@, nq as int, t as int));
                        let tags_pre = tags;
                        tags = tags.push(t as int);
                        assert(out@.len() == nq + tags.len());
                        assert forall|m: int|
                            nq <= m < out@.len() implies instr_at_ok(
                            #[trigger] out@[m],
                            *vals,
                            gates@,
                            nq as int,
                            tags[m - nq],
                        ) by {
                            if m < pre.len() {
                                assert(out@[m] == pre[m] && tags[m - nq] == tags_pre[m - nq]);
                            } else {
                                assert(out@[m] == fv && tags[m - nq] == t as int);
                            }
                        }
                        assert forall|m1: int, m2: int|
                            #![trigger tags[m1 - nq], tags[m2 - nq]]
                            nq <= m1 < m2 < out@.len() implies stream_le(
                            out@[m1],
                            tags[m1 - nq],
                            out@[m2],
                            tags[m2 - nq],
                        ) by {
                            if m2 < pre.len() {
                                assert(out@[m1] == pre[m1] && out@[m2] == pre[m2] && tags[m1 - nq]
                                    == tags_pre[m1 - nq] && tags[m2 - nq] == tags_pre[m2 - nq]);
                            } else {
                                assert(out@[m2] == fv && tags[m2 - nq] == t as int);
                                assert(out@[m1] == pre[m1] && tags[m1 - nq] == tags_pre[m1 - nq]);
                                    if tags_pre[m1 - nq] == t as int {
                                        assert(instr_rank(pre[m1]) <= 3);
                                        assert(instr_at_ok(pre[m1], *vals, gates@, nq as int, tags_pre[m1 - nq]));
                                        if pre[m1] is MoveAODRow {
                                            assert((pre[m1]->MoveAODRow_qubits@[0] as int) < qr as int);
                                            assert(fv->MoveAODRow_qubits@[0] == qr);
                                            assert(within_rank_lt(pre[m1], fv));
                                        }
                                    }
                            }
                        }
                        assert forall|m: int|
                            nq <= m < out@.len() && tags[m - nq] == t implies instr_rank(#[trigger] out@[m])
                                <= 3 && (out@[m] is MoveAODRow ==> (
                            out@[m]->MoveAODRow_qubits@[0] as int) < qr as int + 1) by {
                            if m < pre.len() {
                                assert(out@[m] == pre[m] && tags[m - nq] == tags_pre[m - nq]);
                            } else {
                                assert(out@[m] == fv);
                                assert(fv->MoveAODRow_qubits@[0] == qr);
                            }
                        }
                        // the pushed move lists this whole group
                        assert forall|q2: int|
                            0 <= q2 < nq && row_moved(*vals, q2, t as int) && #[trigger] row_key_match(
                                *vals,
                                qr as int,
                                q2,
                                t as int,
                            ) implies in_row_move(out@, *vals, q2, t as int) by {
                            if q2 >= qr {
                                assert(fv->MoveAODRow_qubits@.contains(q2 as usize));
                                assert(out@[pre.len() as int] == fv);
                            } else {
                                assert(row_key_match(*vals, q2, qr as int, t as int));
                                assert(false);
                            }
                        }
                        assert forall|q2: int|
                            0 <= q2 < nq && row_moved(*vals, q2, t as int) && q2 < qr + 1 implies
                            #[trigger] in_row_move(out@, *vals, q2, t as int) by {
                            if q2 == qr {
                                assert(row_key_match(*vals, qr as int, q2, t as int));
                            } else {
                                assert(in_row_move(pre, *vals, q2, t as int));
                            }
                        }
                        assert forall|q2: int|
                            0 <= q2 < nq && row_moved(*vals, q2, t as int) && (exists|q3: int|
                                0 <= q3 < qr + 1 && row_moved(*vals, q3, t as int)
                                    && #[trigger] row_key_match(
                                    *vals,
                                    q3,
                                    q2,
                                    t as int,
                                )) implies #[trigger] in_row_move(out@, *vals, q2, t as int) by {
                            let q3 = choose|q3: int|
                                0 <= q3 < qr + 1 && row_moved(*vals, q3, t as int)
                                    && #[trigger] row_key_match(*vals, q3, q2, t as int);
                            if q3 == qr {
                                assert(row_key_match(*vals, qr as int, q2, t as int));
                            } else {
                                assert(in_row_move(pre, *vals, q2, t as int));
                            }
                        }
                    }
                } else {
                    proof {
                        // a smaller member of this group was the leader: the
                        // group was already emitted
                        let q4 = choose|q4: int|
                            0 <= q4 < qr && row_moved(*vals, q4, t as int)
                                && #[trigger] row_key_match(*vals, q4, qr as int, t as int);
                        assert forall|q2: int|
                            0 <= q2 < nq && row_moved(*vals, q2, t as int) && (exists|q3: int|
                                0 <= q3 < qr + 1 && row_moved(*vals, q3, t as int)
                                    && #[trigger] row_key_match(
                                    *vals,
                                    q3,
                                    q2,
                                    t as int,
                                )) implies #[trigger] in_row_move(out@, *vals, q2, t as int) by {
                            let q3 = choose|q3: int|
                                0 <= q3 < qr + 1 && row_moved(*vals, q3, t as int)
                                    && #[trigger] row_key_match(*vals, q3, q2, t as int);
                            if q3 == qr {
                                assert(row_key_match(*vals, q4, q2, t as int));
                            }
                        }
                        assert(row_key_match(*vals, q4, qr as int, t as int));
                        assert(in_row_move(out@, *vals, qr as int, t as int));
                    }
                }
            } else {
                proof {
                    assert(!row_moved(*vals, qr as int, t as int));
                }
            }
            qr = qr + 1;
        }
        proof {
            assert forall|q2: int|
                0 <= q2 < nq && row_moved(*vals, q2, t as int) implies #[trigger] in_row_move(
                out@,
                *vals,
                q2,
                t as int,
            ) by {}
        }

        // the gates firing at this stage
        let gs = fired_at(gates, vals, t, nq, ns);
        if gs.len() > 0 {
            let f = DPQAInstruction::Gate(gs);
            let ghost fv = f;
            let ghost pre = out@;
            out.push(f);
            proof {
                lemma_push_keeps_parts(pre, fv, *vals, gates@, nq as int);
                assert(instr_at_ok(fv, *vals, gates@, nq as int, t as int));
                let tags_pre = tags;
                tags = tags.push(t as int);
                assert(out@.len() == nq + tags.len());
                assert forall|m: int|
                    nq <= m < out@.len() implies instr_at_ok(
                    #[trigger] out@[m],
                    *vals,
                    gates@,
                    nq as int,
                    tags[m - nq],
                ) by {
                    if m < pre.len() {
                        assert(out@[m] == pre[m] && tags[m - nq] == tags_pre[m - nq]);
                    } else {
                        assert(out@[m] == fv && tags[m - nq] == t as int);
                    }
                }
                assert forall|m1: int, m2: int|
                    #![trigger tags[m1 - nq], tags[m2 - nq]]
                    nq <= m1 < m2 < out@.len() implies stream_le(
                    out@[m1],
                    tags[m1 - nq],
                    out@[m2],
                    tags[m2 - nq],
                ) by {
                    if m2 < pre.len() {
                        assert(out@[m1] == pre[m1] && out@[m2] == pre[m2] && tags[m1 - nq]
                            == tags_pre[m1 - nq] && tags[m2 - nq] == tags_pre[m2 - nq]);
                    } else {
                        assert(out@[m2] == fv && tags[m2 - nq] == t as int);
                        assert(out@[m1] == pre[m1] && tags[m1 - nq] == tags_pre[m1 - nq]);
                            if tags_pre[m1 - nq] == t as int {
                                assert(instr_rank(pre[m1]) <= 3);
                            }
                    }
                }
                assert(out@[pre.len() as int] is Gate && out@[pre.len() as int]->Gate_0@ == fired(
                    gates@,
                    *vals,
                    t as int,
                ));
                assert(has_gate_bundle(out@, *vals, gates@, t as int));
            }
        }
        proof {
            assert forall|u: int|
                0 <= u < t + 1 && fired(gates@, *vals, u).len() > 0 implies #[trigger] has_gate_bundle(
                out@,
                *vals,
                gates@,
                u,
            ) by {
                if u == t {
                }
            }
            assert forall|q2: int, u: int|
                #![trigger in_col_move(out@, *vals, q2, u)]
                0 <= q2 < nq && 1 <= u < t + 1 && col_moved(*vals, q2, u) implies in_col_move(
                out@,
                *vals,
                q2,
                u,
            ) by {
                if u == t {
                }
            }
            assert forall|q2: int, u: int|
                #![trigger in_row_move(out@, *vals, q2, u)]
                0 <= q2 < nq && 1 <= u < t + 1 && row_moved(*vals, q2, u) implies in_row_move(
                out@,
                *vals,
                q2,
                u,
            ) by {
                if u == t {
                }
            }
        }
        t = t + 1;
    }
    proof {
        assert(stream_ordered(out@, *vals, gates@, nq as int, ns as int, tags));
        assert forall|u: int| 1 <= u < ns implies #[trigger] moves_complete(
            out@,
            *vals,
            nq as int,
            u,
        ) by {
            assert forall|q2: int|
                0 <= q2 < nq && col_moved(*vals, q2, u) implies #[trigger] in_col_move(
                out@,
                *vals,
                q2,
                u,
            ) by {}
            assert forall|q2: int|
                0 <= q2 < nq && row_moved(*vals, q2, u) implies #[trigger] in_row_move(
                out@,
                *vals,
                q2,
                u,
            ) by {}
        }
    }
    out
}

/// Some gate among the first `i` equals `gg` and fires at stage `t`.
pub open spec fn fired_gate_ok(
    gates: Seq<TwoQubitGate>,
    v: DPQAVarsValues,
    t: int,
    i: int,
    gg: TwoQubitGate,
) -> bool {
    exists|g: int| 0 <= g < i && #[trigger] gates[g] == gg && v.tg(g) == t
}

/// Every gate of a bundle fires at the bundle's stage.
pub proof fn lemma_fired_members(gates: Seq<TwoQubitGate>, v: DPQAVarsValues, t: int, i: int)
    requires
        0 <= i <= gates.len(),
    ensures
        forall|k: int|
            0 <= k < fired_upto(gates, v, t, i).len() ==> #[trigger] fired_gate_ok(
                gates,
                v,
                t,
                i,
                fired_upto(gates, v, t, i)[k],
            ),
    decreases i,
{
    if i <= 0 {
        assert(fired_upto(gates, v, t, i).len() == 0);
    } else {
        lemma_fired_members(gates, v, t, i - 1);
        assert forall|k: int|
            0 <= k < fired_upto(gates, v, t, i).len() implies #[trigger] fired_gate_ok(
            gates,
            v,
            t,
            i,
            fired_upto(gates, v, t, i)[k],
        ) by {
            if k < fired_upto(gates, v, t, i - 1).len() {
                assert(fired_upto(gates, v, t, i)[k] == fired_upto(gates, v, t, i - 1)[k]);
                assert(fired_gate_ok(gates, v, t, i - 1, fired_upto(gates, v, t, i - 1)[k]));
                let g = choose|g: int|
                    0 <= g < i - 1 && #[trigger] gates[g] == fired_upto(gates, v, t, i - 1)[k]
                        && v.tg(g) == t;
                assert(0 <= g < i && gates[g] == fired_upto(gates, v, t, i)[k] && v.tg(g) == t);
            } else {
                assert(v.tg(i - 1) == t && fired_upto(gates, v, t, i)[k] == gates[i - 1]);
            }
        }
    }
}

/// A gate of a bundle together with the facts the schedule grants it:
/// it is a circuit gate firing at the bundle's stage, and its two qubits
/// share a grid site there.
pub open spec fn bundle_gate_ok(
    gates: Seq<TwoQubitGate>,
    v: DPQAVarsValues,
    t: int,
    gg: TwoQubitGate,
) -> bool {
    exists|g: int|
        0 <= g < gates.len() && #[trigger] gates[g] == gg && v.tg(g) == t && v.x(
            gates[g].q_ctrl as int,
            t,
        ) == v.x(gates[g].q_target as int, t) && v.y(gates[g].q_ctrl as int, t) == v.y(
            gates[g].q_target as int,
            t,
        )
}

/// Every gate listed in a bundle at stage `t` fires at `t`, and under the
/// entangling constraint its two qubits share their site at `t`.
pub proof fn lemma_gate_bundle_sound(
    gates: Seq<TwoQubitGate>,
    v: DPQAVarsValues,
    ns: int,
    t: int,
    gs: Seq<TwoQubitGate>,
)
    requires
        gs == fired(gates, v, t),
        entangle_all(v, gates, ns),
        0 <= t < ns,
    ensures
        forall|k: int| 0 <= k < gs.len() ==> bundle_gate_ok(gates, v, t, #[trigger] gs[k]),
{
    lemma_fired_members(gates, v, t, gates.len() as int);
    assert forall|k: int| 0 <= k < gs.len() implies bundle_gate_ok(gates, v, t, #[trigger] gs[k]) by {
        assert(fired_gate_ok(gates, v, t, gates.len() as int, fired_upto(gates, v, t, gates.len() as int)[k]));
        let g = choose|g: int|
            0 <= g < gates.len() && #[trigger] gates[g] == gs[k] && v.tg(g) == t;
        assert(entangle_at(v, gates[g].q_ctrl as int, gates[g].q_target as int, g, t));
        assert(gates[g] == gs[k] && v.tg(g) == t && v.x(gates[g].q_ctrl as int, t) == v.x(
            gates[g].q_target as int,
            t,
        ) && v.y(gates[g].q_ctrl as int, t) == v.y(gates[g].q_target as int, t));
    }
}

/// Every qubit listed in a rigid column move is held by the AOD at the
/// move's stage: a stationary atom could not have changed its column.
pub proof fn lemma_col_move_in_aod(
    v: DPQAVarsValues,
    nq: int,
    ns: int,
    qubits: Seq<usize>,
    x_from: u64,
    x_to: u64,
    t: int,
)
    requires
        fixed_slm_all(v, nq, ns),
        1 <= t < ns,
        x_from != x_to,
        forall|k: int|
            0 <= k < qubits.len() ==> ((#[trigger] qubits[k]) as int) < nq && v.xy@[qubits[k] as int]@[t
                - 1].0 == x_from && v.xy@[qubits[k] as int]@[t].0 == x_to,
    ensures
        forall|k: int| 0 <= k < qubits.len() ==> v.aod_at((#[trigger] qubits[k]) as int, t),
{
    assert forall|k: int|
        0 <= k < qubits.len() implies v.aod_at((#[trigger] qubits[k]) as int, t) by {
        let q = qubits[k] as int;
        assert(fixed_slm_at(v, q, t));
        assert(v.x(q, t - 1) != v.x(q, t));
    }
}

/// The row-move counterpart: every listed qubit is held by the AOD at the
/// move's stage.
pub proof fn lemma_row_move_in_aod(
    v: DPQAVarsValues,
    nq: int,
    ns: int,
    qubits: Seq<usize>,
    y_from: u64,
    y_to: u64,
    t: int,
)
    requires
        fixed_slm_all(v, nq, ns),
        1 <= t < ns,
        y_from != y_to,
        forall|k: int|
            0 <= k < qubits.len() ==> ((#[trigger] qubits[k]) as int) < nq && v.xy@[qubits[k] as int]@[t
                - 1].1 == y_from && v.xy@[qubits[k] as int]@[t].1 == y_to,
    ensures
        forall|k: int| 0 <= k < qubits.len() ==> v.aod_at((#[trigger] qubits[k]) as int, t),
{
    assert forall|k: int|
        0 <= k < qubits.len() implies v.aod_at((#[trigger] qubits[k]) as int, t) by {
        let q = qubits[k] as int;
        assert(fixed_slm_at(v, q, t));
        assert(v.y(q, t - 1) != v.y(q, t));
    }
}

} // verus!
