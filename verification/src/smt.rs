//! The boundary to the SMT backend. The formulas of an instance are
//! translated literally into solver assertions through small trusted
//! wrappers, and a model's values are read back through the same kind of
//! wrappers. Nothing here is given a behavioural contract beyond types:
//! whatever the backend answers, the values read back are re-checked
//! against the formula semantics by verified code before they are used.

use vstd::prelude::*;
use crate::formula::Formula;
use crate::formula::formula_wf;
use crate::formula::formulas_wf;
use crate::values::DPQAVarsValues;

verus! {

#[verifier::external_type_specification]
#[verifier::external_body]
pub struct ExSolver(z3::Solver);

#[verifier::external_type_specification]
#[verifier::external_body]
pub struct ExModel(z3::Model);

#[verifier::external_type_specification]
#[verifier::external_body]
pub struct ExInt(z3::ast::Int);

#[verifier::external_type_specification]
#[verifier::external_body]
pub struct ExBool(z3::ast::Bool);

/// Relies on z3::Solver::new: a fresh solver over the thread's context.
#[verifier::external_body]
fn solver_new() -> z3::Solver {
    z3::Solver::new()
}

/// Relies on z3::Solver::assert: conjoins one assertion to the solver.
#[verifier::external_body]
fn solver_assert(s: &z3::Solver, b: z3::ast::Bool) {
    s.assert(b)
}

/// Relies on z3::Solver::check: whether the solver found the assertions
/// satisfiable; an unknown outcome is reported as unsatisfiable.
#[verifier::external_body]
fn solver_check_sat(s: &z3::Solver) -> bool {
    match s.check() {
        z3::SatResult::Sat => true,
        z3::SatResult::Unsat => false,
        z3::SatResult::Unknown => false,
    }
}

/// Relies on z3::Solver::get_model: the model of the last check, if any.
#[verifier::external_body]
fn solver_model(s: &z3::Solver) -> Option<z3::Model> {
    s.get_model()
}

/// The string holds no NUL character; the backend's symbol conversion
/// panics on interior NUL bytes.
pub open spec fn nul_free(s: Seq<char>) -> bool {
    forall|i: int| 0 <= i < s.len() ==> s[i] != '\u{0000}'
}

/// Relies on z3::ast::Int::new_const: the integer variable whose name is
/// built from the prefix and two indices. The name reaches the backend as
/// a C string, so the prefix must hold no NUL character.
#[verifier::external_body]
fn int_var(prefix: &str, a: usize, b: usize) -> z3::ast::Int
    requires
        nul_free(prefix@),
{
    z3::ast::Int::new_const(format!("{}_q{}_t{}", prefix, a, b))
}

/// Relies on z3::ast::Bool::new_const: the boolean variable whose name is
/// built from the prefix and two indices. The name reaches the backend as
/// a C string, so the prefix must hold no NUL character.
#[verifier::external_body]
fn bool_var(prefix: &str, a: usize, b: usize) -> z3::ast::Bool
    requires
        nul_free(prefix@),
{
    z3::ast::Bool::new_const(format!("{}_q{}_t{}", prefix, a, b))
}

/// Relies on z3::ast::Int::from_u64: the integer constant `k`.
#[verifier::external_body]
fn int_val(k: u64) -> z3::ast::Int {
    z3::ast::Int::from_u64(k)
}

/// Relies on z3::ast::Int::le.
#[verifier::external_body]
fn int_le(a: &z3::ast::Int, b: &z3::ast::Int) -> z3::ast::Bool {
    a.le(b)
}

/// Relies on z3::ast::Int::lt.
#[verifier::external_body]
fn int_lt(a: &z3::ast::Int, b: &z3::ast::Int) -> z3::ast::Bool {
    a.lt(b)
}

/// Relies on z3::ast::Int::gt.
#[verifier::external_body]
fn int_gt(a: &z3::ast::Int, b: &z3::ast::Int) -> z3::ast::Bool {
    a.gt(b)
}

/// Relies on z3::ast::Int::ge.
#[verifier::external_body]
fn int_ge(a: &z3::ast::Int, b: &z3::ast::Int) -> z3::ast::Bool {
    a.ge(b)
}

/// Relies on z3::ast::Int::eq (the term-level equality of two integers).
#[verifier::external_body]
fn int_eq(a: &z3::ast::Int, b: &z3::ast::Int) -> z3::ast::Bool {
    a.eq(b)
}

/// Relies on z3::ast::Int::add.
#[verifier::external_body]
fn int_add(a: &z3::ast::Int, b: &z3::ast::Int) -> z3::ast::Int {
    z3::ast::Int::add(&[a, b])
}

/// Relies on z3::ast::Bool::not.
#[verifier::external_body]
fn bool_not(a: &z3::ast::Bool) -> z3::ast::Bool {
    a.not()
}

/// Relies on z3::ast::Bool::and (binary use of the variadic operation).
#[verifier::external_body]
fn bool_and(a: &z3::ast::Bool, b: &z3::ast::Bool) -> z3::ast::Bool {
    z3::ast::Bool::and(&[a, b])
}

/// Relies on z3::ast::Bool::or (binary use of the variadic operation).
#[verifier::external_body]
fn bool_or(a: &z3::ast::Bool, b: &z3::ast::Bool) -> z3::ast::Bool {
    z3::ast::Bool::or(&[a, b])
}

/// Relies on z3::ast::Bool::implies.
#[verifier::external_body]
fn bool_implies(a: &z3::ast::Bool, b: &z3::ast::Bool) -> z3::ast::Bool {
    a.implies(b)
}

/// Relies on z3::ast::Bool::eq (the term-level equivalence of booleans).
#[verifier::external_body]
fn bool_eq(a: &z3::ast::Bool, b: &z3::ast::Bool) -> z3::ast::Bool {
    a.eq(b)
}

/// Relies on z3::ast::Bool::from_bool: the boolean constant `b`.
#[verifier::external_body]
fn bool_lit(b: bool) -> z3::ast::Bool {
    z3::ast::Bool::from_bool(b)
}

/// Relies on z3::Model::eval at integer sort, completing the model.
#[verifier::external_body]
fn model_eval_int(m: &z3::Model, a: &z3::ast::Int) -> Option<z3::ast::Int> {
    m.eval(a, true)
}

/// Relies on z3::Model::eval at boolean sort, completing the model.
#[verifier::external_body]
fn model_eval_bool(m: &z3::Model, a: &z3::ast::Bool) -> Option<z3::ast::Bool> {
    m.eval(a, true)
}

/// Relies on z3::ast::Int::as_u64: the numeral's value when it fits.
#[verifier::external_body]
fn int_as_u64(a: &z3::ast::Int) -> Option<u64> {
    a.as_u64()
}

/// Relies on z3::ast::Bool::as_bool: the literal's value when it is one.
#[verifier::external_body]
fn bool_as_bool(a: &z3::ast::Bool) -> Option<bool> {
    a.as_bool()
}

/// The physical-column variable of qubit `q` at stage `t`.
fn x_var(q: usize, t: usize) -> z3::ast::Int {
    proof {
        reveal_strlit("x");
        assert(nul_free("x"@));
    }
    int_var("x", q, t)
}

/// The physical-row variable of qubit `q` at stage `t`.
fn y_var(q: usize, t: usize) -> z3::ast::Int {
    proof {
        reveal_strlit("y");
        assert(nul_free("y"@));
    }
    int_var("y", q, t)
}

/// The logical-column variable of qubit `q` at stage `t`.
fn c_var(q: usize, t: usize) -> z3::ast::Int {
    proof {
        reveal_strlit("c");
        assert(nul_free("c"@));
    }
    int_var("c", q, t)
}

/// The logical-row variable of qubit `q` at stage `t`.
fn r_var(q: usize, t: usize) -> z3::ast::Int {
    proof {
        reveal_strlit("r");
        assert(nul_free("r"@));
    }
    int_var("r", q, t)
}

/// The trap-flag variable of qubit `q` at stage `t`.
fn aod_var(q: usize, t: usize) -> z3::ast::Bool {
    proof {
        reveal_strlit("aod");
        assert(nul_free("aod"@));
    }
    bool_var("aod", q, t)
}

/// The firing-stage variable of gate `g`.
fn tg_var(g: usize) -> z3::ast::Int {
    proof {
        reveal_strlit("t");
        assert(nul_free("t"@));
    }
    int_var("t", g, 0)
}

/// The solver term `a >= b + 3`, the crowding separation.
fn sep3(a: &z3::ast::Int, b: &z3::ast::Int) -> z3::ast::Bool {
    let three = int_val(3);
    let shifted = int_add(b, &three);
    int_ge(a, &shifted)
}

/// Translate one formula into a solver term, variable by variable.
fn formula_ast(f: &Formula, nq: usize, ns: usize, ng: usize) -> (b: z3::ast::Bool)
    requires
        formula_wf(*f, nq as nat, ns as nat, ng as nat),
{
    match f {
        Formula::Bounds { q, t, rows, cols, aod_rows, aod_cols } => {
            let zero = int_val(0);
            let x = x_var(*q, *t);
            let y = y_var(*q, *t);
            let c = c_var(*q, *t);
            let r = r_var(*q, *t);
            let bx = bool_and(&int_ge(&x, &zero), &int_lt(&x, &int_val(*cols)));
            let by = bool_and(&int_ge(&y, &zero), &int_lt(&y, &int_val(*rows)));
            let bc = bool_and(&int_ge(&c, &zero), &int_lt(&c, &int_val(*aod_cols)));
            let br = bool_and(&int_ge(&r, &zero), &int_lt(&r, &int_val(*aod_rows)));
            bool_and(&bool_and(&bx, &by), &bool_and(&bc, &br))
        },
        Formula::FixedSlm { q, t } => {
            let stay = bool_and(
                &int_eq(&x_var(*q, *t), &x_var(*q, *t - 1)),
                &int_eq(&y_var(*q, *t), &y_var(*q, *t - 1)),
            );
            bool_implies(&bool_not(&aod_var(*q, *t)), &stay)
        },
        Formula::AodPersist { q, t } => {
            let stay = bool_and(
                &int_eq(&c_var(*q, *t), &c_var(*q, *t - 1)),
                &int_eq(&r_var(*q, *t), &r_var(*q, *t - 1)),
            );
            bool_implies(&aod_var(*q, *t), &stay)
        },
        Formula::MoveTogether { q1, q2, t } => {
            let both = bool_and(&aod_var(*q1, *t - 1), &aod_var(*q2, *t - 1));
            let cols = bool_implies(
                &int_eq(&c_var(*q1, *t - 1), &c_var(*q2, *t - 1)),
                &int_eq(&x_var(*q1, *t), &x_var(*q2, *t)),
            );
            let rows = bool_implies(
                &int_eq(&r_var(*q1, *t - 1), &r_var(*q2, *t - 1)),
                &int_eq(&y_var(*q1, *t), &y_var(*q2, *t)),
            );
            bool_implies(&both, &bool_and(&cols, &rows))
        },
        Formula::AodOrder { q1, q2, t } => {
            let both = bool_and(&aod_var(*q1, *t), &aod_var(*q2, *t));
            let c1 = bool_implies(
                &int_lt(&x_var(*q1, *t), &x_var(*q2, *t)),
                &int_lt(&c_var(*q1, *t), &c_var(*q2, *t)),
            );
            let c2 = bool_implies(
                &int_lt(&x_var(*q2, *t), &x_var(*q1, *t)),
                &int_lt(&c_var(*q2, *t), &c_var(*q1, *t)),
            );
            let r1 = bool_implies(
                &int_lt(&y_var(*q1, *t), &y_var(*q2, *t)),
                &int_lt(&r_var(*q1, *t), &r_var(*q2, *t)),
            );
            let r2 = bool_implies(
                &int_lt(&y_var(*q2, *t), &y_var(*q1, *t)),
                &int_lt(&r_var(*q2, *t), &r_var(*q1, *t)),
            );
            bool_implies(&both, &bool_and(&bool_and(&c1, &c2), &bool_and(&r1, &r2)))
        },
        Formula::SlmOrder { q1, q2, t } => {
            let both = bool_and(&aod_var(*q1, *t - 1), &aod_var(*q2, *t - 1));
            let c1 = bool_implies(
                &int_lt(&c_var(*q1, *t - 1), &c_var(*q2, *t - 1)),
                &int_le(&x_var(*q1, *t), &x_var(*q2, *t)),
            );
            let c2 = bool_implies(
                &int_lt(&c_var(*q2, *t - 1), &c_var(*q1, *t - 1)),
                &int_le(&x_var(*q2, *t), &x_var(*q1, *t)),
            );
            let r1 = bool_implies(
                &int_lt(&r_var(*q1, *t - 1), &r_var(*q2, *t - 1)),
                &int_le(&y_var(*q1, *t), &y_var(*q2, *t)),
            );
            let r2 = bool_implies(
                &int_lt(&r_var(*q2, *t - 1), &r_var(*q1, *t - 1)),
                &int_le(&y_var(*q2, *t), &y_var(*q1, *t)),
            );
            bool_implies(&both, &bool_and(&bool_and(&c1, &c2), &bool_and(&r1, &r2)))
        },
        Formula::CrowdInit { q1, q2 } => crowd_ast(*q1, *q2, 0, 0),
        Formula::Crowd { q1, q2, t } => crowd_ast(*q1, *q2, *t - 1, *t),
        Formula::SiteExclusion { q1, q2, t } => {
            let both_aod = bool_and(&aod_var(*q1, *t), &aod_var(*q2, *t));
            let cr_diff = bool_or(
                &bool_not(&int_eq(&c_var(*q1, *t), &c_var(*q2, *t))),
                &bool_not(&int_eq(&r_var(*q1, *t), &r_var(*q2, *t))),
            );
            let both_slm = bool_and(
                &bool_not(&aod_var(*q1, *t)),
                &bool_not(&aod_var(*q2, *t)),
            );
            let xy_diff = bool_or(
                &bool_not(&int_eq(&x_var(*q1, *t), &x_var(*q2, *t))),
                &bool_not(&int_eq(&y_var(*q1, *t), &y_var(*q2, *t))),
            );
            bool_and(&bool_implies(&both_aod, &cr_diff), &bool_implies(&both_slm, &xy_diff))
        },
        Formula::NoSwap { q1, q2, t } => {
            let same_site = bool_and(
                &int_eq(&x_var(*q1, *t), &x_var(*q2, *t)),
                &int_eq(&y_var(*q1, *t), &y_var(*q2, *t)),
            );
            let keep = bool_and(
                &bool_eq(&aod_var(*q1, *t), &aod_var(*q1, *t - 1)),
                &bool_eq(&aod_var(*q2, *t), &aod_var(*q2, *t - 1)),
            );
            bool_implies(&same_site, &keep)
        },
        Formula::TimeBounds { g, n_stages } => {
            let tv = tg_var(*g);
            bool_and(
                &int_ge(&tv, &int_val(0)),
                &int_lt(&tv, &int_val(*n_stages as u64)),
            )
        },
        Formula::TimeOrder { g0, g1 } => int_lt(&tg_var(*g0), &tg_var(*g1)),
        Formula::Entangle { qc, qt, g, t } => {
            let fires = int_eq(&tg_var(*g), &int_val(*t as u64));
            let same = bool_and(
                &int_eq(&x_var(*qc, *t), &x_var(*qt, *t)),
                &int_eq(&y_var(*qc, *t), &y_var(*qt, *t)),
            );
            bool_implies(&fires, &same)
        },
        Formula::Coincide { q1, q2, t, gates_at } => {
            let same = bool_and(
                &int_eq(&x_var(*q1, *t), &x_var(*q2, *t)),
                &int_eq(&y_var(*q1, *t), &y_var(*q2, *t)),
            );
            let mut any = bool_lit(false);
            let n = gates_at.len();
            let mut k: usize = 0;
            while k < n
                invariant
                    n == gates_at@.len(),
                    k <= n,
                decreases n - k,
            {
                let fires = int_eq(&tg_var(gates_at[k]), &int_val(*t as u64));
                any = bool_or(&any, &fires);
                k = k + 1;
            }
            bool_implies(&same, &any)
        },
        Formula::TypeSeparate { g0, g1 } => {
            bool_not(&int_eq(&tg_var(*g0), &tg_var(*g1)))
        },
    }
}

/// The crowding rule between two qubits as a solver term, with logical
/// coordinates read at stage `tc` and physical ones at stage `tx`.
fn crowd_ast(q1: usize, q2: usize, tc: usize, tx: usize) -> z3::ast::Bool {
    let both = bool_and(&aod_var(q1, tc), &aod_var(q2, tc));
    let c1 = bool_implies(
        &sep3(&c_var(q1, tc), &c_var(q2, tc)),
        &int_gt(&x_var(q1, tx), &x_var(q2, tx)),
    );
    let c2 = bool_implies(
        &sep3(&c_var(q2, tc), &c_var(q1, tc)),
        &int_gt(&x_var(q2, tx), &x_var(q1, tx)),
    );
    let r1 = bool_implies(
        &sep3(&r_var(q1, tc), &r_var(q2, tc)),
        &int_gt(&y_var(q1, tx), &y_var(q2, tx)),
    );
    let r2 = bool_implies(
        &sep3(&r_var(q2, tc), &r_var(q1, tc)),
        &int_gt(&y_var(q2, tx), &y_var(q1, tx)),
    );
    bool_implies(&both, &bool_and(&bool_and(&c1, &c2), &bool_and(&r1, &r2)))
}

/// Assert every formula of the instance into the solver.
fn assert_formulas(s: &z3::Solver, fs: &Vec<Formula>, nq: usize, ns: usize, ng: usize)
    requires
        formulas_wf(fs@, nq as nat, ns as nat, ng as nat),
{
    let n = fs.len();
    let mut i: usize = 0;
    while i < n
        invariant
            n == fs@.len(),
            formulas_wf(fs@, nq as nat, ns as nat, ng as nat),
            i <= n,
        decreases n - i,
    {
        let b = formula_ast(&fs[i], nq, ns, ng);
        solver_assert(s, b);
        i = i + 1;
    }
}

/// Read one integer variable's value out of the model.
fn read_u64(m: &z3::Model, v: &z3::ast::Int) -> Option<u64> {
    match model_eval_int(m, v) {
        Option::Some(n) => int_as_u64(&n),
        Option::None => Option::None,
    }
}

/// Read one boolean variable's value out of the model.
fn read_bool(m: &z3::Model, v: &z3::ast::Bool) -> Option<bool> {
    match model_eval_bool(m, v) {
        Option::Some(b) => bool_as_bool(&b),
        Option::None => Option::None,
    }
}

/// Read all variable values of the instance out of a model. Returns
/// `None` when any variable lacks a concrete value: a backend contract
/// violation, which aborts the solve.
fn extract_values(m: &z3::Model, nq: usize, ns: usize, ng: usize) -> (r: Option<DPQAVarsValues>)
    ensures
        (match r {
            Option::Some(v) => v.wf(nq as nat, ns as nat, ng as nat),
            Option::None => true,
        }),
{
    let mut xy: Vec<Vec<(u64, u64)>> = Vec::new();
    let mut cr: Vec<Vec<(u64, u64)>> = Vec::new();
    let mut aod: Vec<Vec<bool>> = Vec::new();
    let mut q: usize = 0;
    while q < nq
        invariant
            xy@.len() == q,
            cr@.len() == q,
            aod@.len() == q,
            forall|q2: int| 0 <= q2 < q ==> (#[trigger] xy@[q2])@.len() == ns,
            forall|q2: int| 0 <= q2 < q ==> (#[trigger] cr@[q2])@.len() == ns,
            forall|q2: int| 0 <= q2 < q ==> (#[trigger] aod@[q2])@.len() == ns,
            q <= nq,
        decreases nq - q,
    {
        let mut xy_row: Vec<(u64, u64)> = Vec::new();
        let mut cr_row: Vec<(u64, u64)> = Vec::new();
        let mut aod_row: Vec<bool> = Vec::new();
        let mut t: usize = 0;
        while t < ns
            invariant
                xy_row@.len() == t,
                cr_row@.len() == t,
                aod_row@.len() == t,
                t <= ns,
            decreases ns - t,
        {
            let xv = match read_u64(m, &x_var(q, t)) {
                Option::Some(u) => u,
                Option::None => { return Option::None },
            };
            let yv = match read_u64(m, &y_var(q, t)) {
                Option::Some(u) => u,
                Option::None => { return Option::None },
            };
            let cv = match read_u64(m, &c_var(q, t)) {
                Option::Some(u) => u,
                Option::None => { return Option::None },
            };
            let rv = match read_u64(m, &r_var(q, t)) {
                Option::Some(u) => u,
                Option::None => { return Option::None },
            };
            let av = match read_bool(m, &aod_var(q, t)) {
                Option::Some(b) => b,
                Option::None => { return Option::None },
            };
            xy_row.push((xv, yv));
            cr_row.push((cv, rv));
            aod_row.push(av);
            t = t + 1;
        }
        xy.push(xy_row);
        cr.push(cr_row);
        aod.push(aod_row);
        q = q + 1;
    }
    let mut tg: Vec<u64> = Vec::new();
    let mut g: usize = 0;
    while g < ng
        invariant
            tg@.len() == g,
            xy@.len() == nq,
            cr@.len() == nq,
            aod@.len() == nq,
            forall|q2: int| 0 <= q2 < nq ==> (#[trigger] xy@[q2])@.len() == ns,
            forall|q2: int| 0 <= q2 < nq ==> (#[trigger] cr@[q2])@.len() == ns,
            forall|q2: int| 0 <= q2 < nq ==> (#[trigger] aod@[q2])@.len() == ns,
            g <= ng,
        decreases ng - g,
    {
        let tv = match read_u64(m, &tg_var(g)) {
            Option::Some(u) => u,
            Option::None => { return Option::None },
        };
        tg.push(tv);
        g = g + 1;
    }
    Option::Some(DPQAVarsValues { xy, cr, aod, t: tg })
}

/// Hand the instance's formulas to the backend and, when it reports a
/// model, read the variable values back. Nothing about the returned
/// values is assumed: the caller re-checks them against the formulas.
pub fn run_backend(fs: &Vec<Formula>, nq: usize, ns: usize, ng: usize) -> (r: Option<
    DPQAVarsValues,
>)
    requires
        formulas_wf(fs@, nq as nat, ns as nat, ng as nat),
    ensures
        (match r {
            Option::Some(v) => v.wf(nq as nat, ns as nat, ng as nat),
            Option::None => true,
        }),
{
    let solver = solver_new();
    assert_formulas(&solver, fs, nq, ns, ng);
    if !solver_check_sat(&solver) {
        return Option::None;
    }
    let model = match solver_model(&solver) {
        Option::Some(m) => m,
        Option::None => { return Option::None },
    };
    extract_values(&model, nq, ns, ng)
}

} // verus!
