//! The constraint language of a scheduling instance: one formula per
//! instance of an architectural or circuit rule, over the decision
//! variables of the instance. The constraint encoder emits formulas of
//! this language, the solver backend receives them, and every model the
//! backend returns is re-evaluated here, in verified code, against the
//! same semantics the encoder is specified by.

use vstd::prelude::*;
use crate::values::DPQAVarsValues;

verus! {

/// One emitted constraint. `t` is a stage index; in the variants that
/// relate a stage to its predecessor, `t >= 1`.
pub enum Formula {
    /// Positions of qubit `q` at stage `t` lie on the grids.
    Bounds { q: usize, t: usize, rows: u64, cols: u64, aod_rows: u64, aod_cols: u64 },
    /// A qubit entering stage `t` in an SLM trap keeps its position.
    FixedSlm { q: usize, t: usize },
    /// A qubit held by the AOD at stage `t` keeps its logical coordinates.
    AodPersist { q: usize, t: usize },
    /// Qubits sharing an AOD column (row) move to one physical column (row).
    MoveTogether { q1: usize, q2: usize, t: usize },
    /// Physical order of AOD atoms at stage `t` pins their logical order.
    AodOrder { q1: usize, q2: usize, t: usize },
    /// Logical AOD order before a move bounds the physical order after it.
    SlmOrder { q1: usize, q2: usize, t: usize },
    /// Logical separation of three or more forces strict physical
    /// separation, at the initial stage.
    CrowdInit { q1: usize, q2: usize },
    /// Logical separation of three or more before a move forces strict
    /// physical separation after it.
    Crowd { q1: usize, q2: usize, t: usize },
    /// Two atoms in one trap type never share a site at stage `t`.
    SiteExclusion { q1: usize, q2: usize, t: usize },
    /// Two atoms sharing a site at stage `t` keep their trap types.
    NoSwap { q1: usize, q2: usize, t: usize },
    /// Gate `g` fires at a stage within `[0, n_stages)`.
    TimeBounds { g: usize, n_stages: usize },
    /// Gate `g0` fires strictly before gate `g1`.
    TimeOrder { g0: usize, g1: usize },
    /// When gate `g` on qubits (`qc`, `qt`) fires at stage `t`, its qubits
    /// share a site.
    Entangle { qc: usize, qt: usize, g: usize, t: usize },
    /// If qubits `q1` and `q2` share a site at stage `t`, one of the
    /// listed gates fires at `t`; with no listed gate they never coincide.
    Coincide { q1: usize, q2: usize, t: usize, gates_at: Vec<usize> },
    /// Gates `g0` and `g1` are of different kinds and never fire together.
    TypeSeparate { g0: usize, g1: usize },
}

/// Grid bounds of one qubit at one stage (rule instance of `Bounds`).
pub open spec fn bounds_at(
    v: DPQAVarsValues,
    q: int,
    t: int,
    rows: u64,
    cols: u64,
    aod_rows: u64,
    aod_cols: u64,
) -> bool {
    &&& 0 <= v.x(q, t) < cols
    &&& 0 <= v.y(q, t) < rows
    &&& 0 <= v.c(q, t) < aod_cols
    &&& 0 <= v.r(q, t) < aod_rows
}

/// An atom entering stage `t` in an SLM trap has not moved.
pub open spec fn fixed_slm_at(v: DPQAVarsValues, q: int, t: int) -> bool {
    !v.aod_at(q, t) ==> v.x(q, t) == v.x(q, t - 1) && v.y(q, t) == v.y(q, t - 1)
}

/// An atom held by the AOD at stage `t` keeps its logical coordinates.
pub open spec fn aod_persist_at(v: DPQAVarsValues, q: int, t: int) -> bool {
    v.aod_at(q, t) ==> v.c(q, t) == v.c(q, t - 1) && v.r(q, t) == v.r(q, t - 1)
}

/// AOD columns and rows move as rigid units into stage `t`.
pub open spec fn move_together_at(v: DPQAVarsValues, q1: int, q2: int, t: int) -> bool {
    v.aod_at(q1, t - 1) && v.aod_at(q2, t - 1) ==> {
        &&& v.c(q1, t - 1) == v.c(q2, t - 1) ==> v.x(q1, t) == v.x(q2, t)
        &&& v.r(q1, t - 1) == v.r(q2, t - 1) ==> v.y(q1, t) == v.y(q2, t)
    }
}

/// Physical order of two AOD atoms at stage `t` pins their logical order.
pub open spec fn aod_order_at(v: DPQAVarsValues, q1: int, q2: int, t: int) -> bool {
    v.aod_at(q1, t) && v.aod_at(q2, t) ==> {
        &&& v.x(q1, t) < v.x(q2, t) ==> v.c(q1, t) < v.c(q2, t)
        &&& v.x(q2, t) < v.x(q1, t) ==> v.c(q2, t) < v.c(q1, t)
        &&& v.y(q1, t) < v.y(q2, t) ==> v.r(q1, t) < v.r(q2, t)
        &&& v.y(q2, t) < v.y(q1, t) ==> v.r(q2, t) < v.r(q1, t)
    }
}

/// Logical AOD order before the move into stage `t` bounds physical order
/// after it: columns cannot cross while moving.
pub open spec fn slm_order_at(v: DPQAVarsValues, q1: int, q2: int, t: int) -> bool {
    v.aod_at(q1, t - 1) && v.aod_at(q2, t - 1) ==> {
        &&& v.c(q1, t - 1) < v.c(q2, t - 1) ==> v.x(q1, t) <= v.x(q2, t)
        &&& v.c(q2, t - 1) < v.c(q1, t - 1) ==> v.x(q2, t) <= v.x(q1, t)
        &&& v.r(q1, t - 1) < v.r(q2, t - 1) ==> v.y(q1, t) <= v.y(q2, t)
        &&& v.r(q2, t - 1) < v.r(q1, t - 1) ==> v.y(q2, t) <= v.y(q1, t)
    }
}

/// Two AOD atoms whose logical coordinates differ by three or more sit at
/// strictly separated physical coordinates; `tc` is the stage whose
/// logical coordinates gate the rule, `tx` the stage whose physical
/// coordinates it constrains.
pub open spec fn crowd_at(v: DPQAVarsValues, q1: int, q2: int, tc: int, tx: int) -> bool {
    v.aod_at(q1, tc) && v.aod_at(q2, tc) ==> {
        &&& v.c(q1, tc) >= v.c(q2, tc) + 3 ==> v.x(q1, tx) > v.x(q2, tx)
        &&& v.c(q2, tc) >= v.c(q1, tc) + 3 ==> v.x(q2, tx) > v.x(q1, tx)
        &&& v.r(q1, tc) >= v.r(q2, tc) + 3 ==> v.y(q1, tx) > v.y(q2, tx)
        &&& v.r(q2, tc) >= v.r(q1, tc) + 3 ==> v.y(q2, tx) > v.y(q1, tx)
    }
}

/// Two atoms in the same trap type never share a site at stage `t`.
pub open spec fn site_exclusion_at(v: DPQAVarsValues, q1: int, q2: int, t: int) -> bool {
    &&& v.aod_at(q1, t) && v.aod_at(q2, t) ==> v.c(q1, t) != v.c(q2, t) || v.r(q1, t) != v.r(
        q2,
        t,
    )
    &&& !v.aod_at(q1, t) && !v.aod_at(q2, t) ==> v.x(q1, t) != v.x(q2, t) || v.y(q1, t) != v.y(
        q2,
        t,
    )
}

/// Two atoms sharing a site at stage `t` both keep their trap types: no
/// transfer through a shared site.
pub open spec fn no_swap_at(v: DPQAVarsValues, q1: int, q2: int, t: int) -> bool {
    v.x(q1, t) == v.x(q2, t) && v.y(q1, t) == v.y(q2, t) ==> {
        &&& v.aod_at(q1, t) == v.aod_at(q1, t - 1)
        &&& v.aod_at(q2, t) == v.aod_at(q2, t - 1)
    }
}

/// Gate `g` fires within the schedule's stages.
pub open spec fn time_bounds_at(v: DPQAVarsValues, g: int, n_stages: int) -> bool {
    0 <= v.tg(g) < n_stages
}

/// When gate `g` on (`qc`, `qt`) fires at stage `t`, its qubits coincide.
pub open spec fn entangle_at(v: DPQAVarsValues, qc: int, qt: int, g: int, t: int) -> bool {
    v.tg(g) == t ==> v.x(qc, t) == v.x(qt, t) && v.y(qc, t) == v.y(qt, t)
}

/// If `q1` and `q2` share a site at stage `t`, one of the listed gates
/// fires at `t`.
pub open spec fn coincide_at(v: DPQAVarsValues, q1: int, q2: int, t: int, gates_at: Seq<usize>) -> bool {
    v.x(q1, t) == v.x(q2, t) && v.y(q1, t) == v.y(q2, t) ==> exists|k: int|
        #![trigger gates_at[k]]
        0 <= k < gates_at.len() && v.tg(gates_at[k] as int) == t
}

/// Whether a formula holds under concrete variable values.
pub open spec fn formula_holds(v: DPQAVarsValues, f: Formula) -> bool {
    match f {
        Formula::Bounds { q, t, rows, cols, aod_rows, aod_cols } => bounds_at(
            v,
            q as int,
            t as int,
            rows,
            cols,
            aod_rows,
            aod_cols,
        ),
        Formula::FixedSlm { q, t } => fixed_slm_at(v, q as int, t as int),
        Formula::AodPersist { q, t } => aod_persist_at(v, q as int, t as int),
        Formula::MoveTogether { q1, q2, t } => move_together_at(v, q1 as int, q2 as int, t as int),
        Formula::AodOrder { q1, q2, t } => aod_order_at(v, q1 as int, q2 as int, t as int),
        Formula::SlmOrder { q1, q2, t } => slm_order_at(v, q1 as int, q2 as int, t as int),
        Formula::CrowdInit { q1, q2 } => crowd_at(v, q1 as int, q2 as int, 0, 0),
        Formula::Crowd { q1, q2, t } => crowd_at(v, q1 as int, q2 as int, t as int - 1, t as int),
        Formula::SiteExclusion { q1, q2, t } => site_exclusion_at(v, q1 as int, q2 as int, t as int),
        Formula::NoSwap { q1, q2, t } => no_swap_at(v, q1 as int, q2 as int, t as int),
        Formula::TimeBounds { g, n_stages } => time_bounds_at(v, g as int, n_stages as int),
        Formula::TimeOrder { g0, g1 } => v.tg(g0 as int) < v.tg(g1 as int),
        Formula::Entangle { qc, qt, g, t } => entangle_at(v, qc as int, qt as int, g as int, t as int),
        Formula::Coincide { q1, q2, t, gates_at } => coincide_at(
            v,
            q1 as int,
            q2 as int,
            t as int,
            gates_at@,
        ),
        Formula::TypeSeparate { g0, g1 } => v.tg(g0 as int) != v.tg(g1 as int),
    }
}

/// All formulas of a list hold under concrete variable values.
pub open spec fn sat_all(v: DPQAVarsValues, fs: Seq<Formula>) -> bool {
    forall|i: int| 0 <= i < fs.len() ==> formula_holds(v, #[trigger] fs[i])
}

/// A formula references only variables of an instance with `nq` qubits,
/// `ns` stages and `ng` gates.
pub open spec fn formula_wf(f: Formula, nq: nat, ns: nat, ng: nat) -> bool {
    match f {
        Formula::Bounds { q, t, .. } => q < nq && t < ns,
        Formula::FixedSlm { q, t } => q < nq && 1 <= t < ns,
        Formula::AodPersist { q, t } => q < nq && 1 <= t < ns,
        Formula::MoveTogether { q1, q2, t } => q1 < nq && q2 < nq && 1 <= t < ns,
        Formula::AodOrder { q1, q2, t } => q1 < nq && q2 < nq && t < ns,
        Formula::SlmOrder { q1, q2, t } => q1 < nq && q2 < nq && 1 <= t < ns,
        Formula::CrowdInit { q1, q2 } => q1 < nq && q2 < nq && 0 < ns,
        Formula::Crowd { q1, q2, t } => q1 < nq && q2 < nq && 1 <= t < ns,
        Formula::SiteExclusion { q1, q2, t } => q1 < nq && q2 < nq && t < ns,
        Formula::NoSwap { q1, q2, t } => q1 < nq && q2 < nq && 1 <= t < ns,
        Formula::TimeBounds { g, .. } => g < ng,
        Formula::TimeOrder { g0, g1 } => g0 < ng && g1 < ng,
        Formula::Entangle { qc, qt, g, t } => qc < nq && qt < nq && g < ng && t < ns,
        Formula::Coincide { q1, q2, t, gates_at } => q1 < nq && q2 < nq && t < ns && forall|k: int|
            0 <= k < gates_at@.len() ==> #[trigger] gates_at@[k] < ng,
        Formula::TypeSeparate { g0, g1 } => g0 < ng && g1 < ng,
    }
}

/// Every formula of a list references only variables of the instance.
pub open spec fn formulas_wf(fs: Seq<Formula>, nq: nat, ns: nat, ng: nat) -> bool {
    forall|i: int| 0 <= i < fs.len() ==> formula_wf(#[trigger] fs[i], nq, ns, ng)
}

/// Evaluate one formula against concrete variable values.
#[verifier::loop_isolation(false)]
fn formula_eval(vals: &DPQAVarsValues, f: &Formula, nq: usize, ns: usize, ng: usize) -> (r: bool)
    requires
        vals.wf(nq as nat, ns as nat, ng as nat),
        formula_wf(*f, nq as nat, ns as nat, ng as nat),
    ensures
        r == formula_holds(*vals, *f),
{
    match f {
        Formula::Bounds { q, t, rows, cols, aod_rows, aod_cols } => {
            let xy = vals.xy[*q][*t];
            let cr = vals.cr[*q][*t];
            xy.0 < *cols && xy.1 < *rows && cr.0 < *aod_cols && cr.1 < *aod_rows
        },
        Formula::FixedSlm { q, t } => {
            vals.aod[*q][*t] || {
                let now = vals.xy[*q][*t];
                let before = vals.xy[*q][*t - 1];
                now.0 == before.0 && now.1 == before.1
            }
        },
        Formula::AodPersist { q, t } => {
            !vals.aod[*q][*t] || {
                let now = vals.cr[*q][*t];
                let before = vals.cr[*q][*t - 1];
                now.0 == before.0 && now.1 == before.1
            }
        },
        Formula::MoveTogether { q1, q2, t } => {
            !(vals.aod[*q1][*t - 1] && vals.aod[*q2][*t - 1]) || {
                let a = vals.cr[*q1][*t - 1];
                let b = vals.cr[*q2][*t - 1];
                let na = vals.xy[*q1][*t];
                let nb = vals.xy[*q2][*t];
                (a.0 != b.0 || na.0 == nb.0) && (a.1 != b.1 || na.1 == nb.1)
            }
        },
        Formula::AodOrder { q1, q2, t } => {
            !(vals.aod[*q1][*t] && vals.aod[*q2][*t]) || {
                let pa = vals.xy[*q1][*t];
                let pb = vals.xy[*q2][*t];
                let la = vals.cr[*q1][*t];
                let lb = vals.cr[*q2][*t];
                (!(pa.0 < pb.0) || la.0 < lb.0) && (!(pb.0 < pa.0) || lb.0 < la.0) && (!(pa.1
                    < pb.1) || la.1 < lb.1) && (!(pb.1 < pa.1) || lb.1 < la.1)
            }
        },
        Formula::SlmOrder { q1, q2, t } => {
            !(vals.aod[*q1][*t - 1] && vals.aod[*q2][*t - 1]) || {
                let la = vals.cr[*q1][*t - 1];
                let lb = vals.cr[*q2][*t - 1];
                let pa = vals.xy[*q1][*t];
                let pb = vals.xy[*q2][*t];
                (!(la.0 < lb.0) || pa.0 <= pb.0) && (!(lb.0 < la.0) || pb.0 <= pa.0) && (!(la.1
                    < lb.1) || pa.1 <= pb.1) && (!(lb.1 < la.1) || pb.1 <= pa.1)
            }
        },
        Formula::CrowdInit { q1, q2 } => crowd_eval(vals, *q1, *q2, 0, 0, nq, ns, ng),
        Formula::Crowd { q1, q2, t } => crowd_eval(vals, *q1, *q2, *t - 1, *t, nq, ns, ng),
        Formula::SiteExclusion { q1, q2, t } => {
            let both_aod = vals.aod[*q1][*t] && vals.aod[*q2][*t];
            let both_slm = !vals.aod[*q1][*t] && !vals.aod[*q2][*t];
            let pa = vals.xy[*q1][*t];
            let pb = vals.xy[*q2][*t];
            let la = vals.cr[*q1][*t];
            let lb = vals.cr[*q2][*t];
            (!both_aod || la.0 != lb.0 || la.1 != lb.1) && (!both_slm || pa.0 != pb.0 || pa.1
                != pb.1)
        },
        Formula::NoSwap { q1, q2, t } => {
            let pa = vals.xy[*q1][*t];
            let pb = vals.xy[*q2][*t];
            !(pa.0 == pb.0 && pa.1 == pb.1) || {
                vals.aod[*q1][*t] == vals.aod[*q1][*t - 1] && vals.aod[*q2][*t] == vals.aod[*q2][*t
                    - 1]
            }
        },
        Formula::TimeBounds { g, n_stages } => vals.t[*g] < *n_stages as u64,
        Formula::TimeOrder { g0, g1 } => vals.t[*g0] < vals.t[*g1],
        Formula::Entangle { qc, qt, g, t } => {
            vals.t[*g] != *t as u64 || {
                let pa = vals.xy[*qc][*t];
                let pb = vals.xy[*qt][*t];
                pa.0 == pb.0 && pa.1 == pb.1
            }
        },
        Formula::Coincide { q1, q2, t, gates_at } => {
            let p1 = vals.xy[*q1][*t];
            let p2 = vals.xy[*q2][*t];
            if p1.0 != p2.0 || p1.1 != p2.1 {
                return true;
            }
            let n = gates_at.len();
            let mut k: usize = 0;
            while k < n
                invariant
                    forall|k2: int|
                        0 <= k2 < k ==> vals.tg(#[trigger] gates_at@[k2] as int) != *t as int,
                    k <= n,
                decreases n - k,
            {
                if vals.t[gates_at[k]] == *t as u64 {
                    proof {
                        let kk = k as int;
                        assert(0 <= kk < gates_at@.len() && vals.tg(gates_at@[kk] as int)
                            == *t as int);
                    }
                    return true;
                }
                k = k + 1;
            }
            false
        },
        Formula::TypeSeparate { g0, g1 } => vals.t[*g0] != vals.t[*g1],
    }
}

/// Whether the crowding rule holds between two qubits, with logical
/// coordinates read at stage `tc` and physical ones at stage `tx`.
fn crowd_eval(
    vals: &DPQAVarsValues,
    q1: usize,
    q2: usize,
    tc: usize,
    tx: usize,
    nq: usize,
    ns: usize,
    ng: usize,
) -> (r: bool)
    requires
        vals.wf(nq as nat, ns as nat, ng as nat),
        q1 < nq,
        q2 < nq,
        tc < ns,
        tx < ns,
    ensures
        r == crowd_at(*vals, q1 as int, q2 as int, tc as int, tx as int),
{
    if !(vals.aod[q1][tc] && vals.aod[q2][tc]) {
        return true;
    }
    let la = vals.cr[q1][tc];
    let lb = vals.cr[q2][tc];
    let pa = vals.xy[q1][tx];
    let pb = vals.xy[q2][tx];
    let c1 = la.0 as u128;
    let c2 = lb.0 as u128;
    let r1 = la.1 as u128;
    let r2 = lb.1 as u128;
    (!(c1 >= c2 + 3) || pa.0 > pb.0) && (!(c2 >= c1 + 3) || pb.0 > pa.0) && (!(r1 >= r2 + 3)
        || pa.1 > pb.1) && (!(r2 >= r1 + 3) || pb.1 > pa.1)
}

/// Evaluate a whole constraint list against concrete variable values: the
/// verified re-check every model from the solver backend must pass.
pub fn check_formulas(
    vals: &DPQAVarsValues,
    fs: &Vec<Formula>,
    nq: usize,
    ns: usize,
    ng: usize,
) -> (r: bool)
    requires
        vals.wf(nq as nat, ns as nat, ng as nat),
        formulas_wf(fs@, nq as nat, ns as nat, ng as nat),
    ensures
        r == sat_all(*vals, fs@),
{
    let n = fs.len();
    let mut i: usize = 0;
    while i < n
        invariant
            n == fs@.len(),
            vals.wf(nq as nat, ns as nat, ng as nat),
            formulas_wf(fs@, nq as nat, ns as nat, ng as nat),
            forall|m: int| 0 <= m < i ==> formula_holds(*vals, #[trigger] fs@[m]),
            i <= n,
        decreases n - i,
    {
        if !formula_eval(vals, &fs[i], nq, ns, ng) {
            return false;
        }
        i = i + 1;
    }
    true
}

} // verus!
