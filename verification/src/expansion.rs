//! Why substituting the let definitions is sound: the path constraints of a
//! run, expanded over its let definitions, hold for the run's input.
use vstd::prelude::*;
use crate::node::{BoolExprModel, Eval, ExprModel, SsaVarModel, SsaVersion, StmtModel, SymBoolExprModel, SymBranchesModel, SymExprModel, lemma_bool_eval_value, lemma_eval_value, val_of};
use crate::solver::{last_def, lemma_last_def, subst_bool, subst_expr};
use crate::state::{StateModel, assert_trace, branch_trace, initial, lemma_step_headroom, run, ssa_var_of, step, sym_bool_of, sym_of, trace_of, version_count, version_headroom};

verus! {

/// Whether an SSA variable names an input or a definition made so far.
pub open spec fn in_scope(v: SsaVarModel, vers: Map<Seq<char>, usize>) -> bool {
    match v.version {
        SsaVersion::Input => true,
        SsaVersion::Defined(k) => 1 <= k <= version_count(vers, v.name),
    }
}

/// Whether every variable of the SSA parts of `e` is in scope.
pub open spec fn scoped(e: SymExprModel, vers: Map<Seq<char>, usize>) -> bool
    decreases e,
{
    match e {
        SymExprModel::Lit(_) => true,
        SymExprModel::Var(v) => in_scope(v, vers),
        SymExprModel::Add(l, r) => scoped(*l, vers) && scoped(*r, vers),
        SymExprModel::Sub(l, r) => scoped(*l, vers) && scoped(*r, vers),
        SymExprModel::If(c, b) => scoped_bool(*c, vers) && match b {
            SymBranchesModel::ThenTaken(t, _) => scoped(*t, vers),
            SymBranchesModel::ElseTaken(_, f) => scoped(*f, vers),
        },
    }
}

/// Whether every variable of the SSA parts of `c` is in scope.
pub open spec fn scoped_bool(c: SymBoolExprModel, vers: Map<Seq<char>, usize>) -> bool
    decreases c,
{
    match c {
        SymBoolExprModel::Lit(_) => true,
        SymBoolExprModel::Le(l, r) => scoped(*l, vers) && scoped(*r, vers),
        SymBoolExprModel::Ge(l, r) => scoped(*l, vers) && scoped(*r, vers),
        SymBoolExprModel::Eq(l, r) => scoped(*l, vers) && scoped(*r, vers),
    }
}

/// Whether every constraint, expanded over `lets`, holds for `env0`.
pub open spec fn expanded_hold(
    cs: Seq<(SymBoolExprModel, bool)>,
    lets: Seq<(SsaVarModel, SymExprModel)>,
    env0: Map<Seq<char>, i64>,
) -> bool {
    forall|i: int| 0 <= i < cs.len() ==> subst_bool((#[trigger] cs[i]).0, lets).value(env0) == Some(cs[i].1)
}

/// Whether every bound name, in the SSA form it currently has, expands over
/// `lets` to an expression whose value for `env0` is the name's value.
pub open spec fn denotes_all(
    env: Map<Seq<char>, i64>,
    vers: Map<Seq<char>, usize>,
    lets: Seq<(SsaVarModel, SymExprModel)>,
    env0: Map<Seq<char>, i64>,
) -> bool {
    forall|x: Seq<char>| #[trigger] env.contains_key(x)
        ==> subst_expr(SymExprModel::Var(ssa_var_of(x, vers)), lets).value(env0) == Some(env[x] as int)
}

/// What holds of every state of a run from `env0`.
pub open spec fn expansion_inv(st: StateModel, env0: Map<Seq<char>, i64>) -> bool {
    &&& denotes_all(st.env, st.versions, st.let_constraints, env0)
    &&& expanded_hold(st.path_constraints, st.let_constraints, env0)
    &&& forall|i: int| 0 <= i < st.path_constraints.len() ==> scoped_bool((#[trigger] st.path_constraints[i]).0, st.versions)
    &&& forall|i: int| 0 <= i < st.passed_asserts.len() ==> {
        &&& subst_bool(#[trigger] st.passed_asserts[i], st.let_constraints).value(env0) == Some(true)
        &&& scoped_bool(st.passed_asserts[i], st.versions)
    }
}

// ---------------------------------------------------------------------------
// A new definition leaves earlier expansions unchanged
// ---------------------------------------------------------------------------

proof fn lemma_last_def_push(lets: Seq<(SsaVarModel, SymExprModel)>, p: (SsaVarModel, SymExprModel), v: SsaVarModel)
    requires
        p.0 != v,
    ensures
        last_def(lets.push(p), v) == last_def(lets, v),
{
    assert(lets.push(p).drop_last() =~= lets);
}

proof fn lemma_subst_push(e: SymExprModel, lets: Seq<(SsaVarModel, SymExprModel)>, vers: Map<Seq<char>, usize>, p: (SsaVarModel, SymExprModel))
    requires
        scoped(e, vers),
        p.0.version == SsaVersion::Defined((version_count(vers, p.0.name) + 1) as usize),
        version_count(vers, p.0.name) < usize::MAX,
    ensures
        subst_expr(e, lets.push(p)) == subst_expr(e, lets),
    decreases e,
{
    let s2 = lets.push(p);
    match e {
        SymExprModel::Var(v) => {
            assert(p.0 != v);
            lemma_last_def_push(lets, p, v);
            lemma_last_def(lets, v);
            match last_def(lets, v) {
                Some(j) => {
                    assert(s2[j] == lets[j]);
                    assert(s2.take(j) =~= lets.take(j));
                },
                None => {},
            }
        },
        SymExprModel::Add(l, r) | SymExprModel::Sub(l, r) => {
            lemma_subst_push(*l, lets, vers, p);
            lemma_subst_push(*r, lets, vers, p);
        },
        SymExprModel::If(c, b) => {
            lemma_subst_bool_push(*c, lets, vers, p);
            match b {
                SymBranchesModel::ThenTaken(t, _) => lemma_subst_push(*t, lets, vers, p),
                SymBranchesModel::ElseTaken(_, f) => lemma_subst_push(*f, lets, vers, p),
            }
        },
        _ => {},
    }
}

proof fn lemma_subst_bool_push(c: SymBoolExprModel, lets: Seq<(SsaVarModel, SymExprModel)>, vers: Map<Seq<char>, usize>, p: (SsaVarModel, SymExprModel))
    requires
        scoped_bool(c, vers),
        p.0.version == SsaVersion::Defined((version_count(vers, p.0.name) + 1) as usize),
        version_count(vers, p.0.name) < usize::MAX,
    ensures
        subst_bool(c, lets.push(p)) == subst_bool(c, lets),
    decreases c,
{
    match c {
        SymBoolExprModel::Le(l, r) | SymBoolExprModel::Ge(l, r) | SymBoolExprModel::Eq(l, r) => {
            lemma_subst_push(*l, lets, vers, p);
            lemma_subst_push(*r, lets, vers, p);
        },
        _ => {},
    }
}

// ---------------------------------------------------------------------------
// Scope
// ---------------------------------------------------------------------------

proof fn lemma_scoped_mono(e: SymExprModel, vers: Map<Seq<char>, usize>, vers2: Map<Seq<char>, usize>)
    requires
        scoped(e, vers),
        forall|x: Seq<char>| version_count(vers, x) <= #[trigger] version_count(vers2, x),
    ensures
        scoped(e, vers2),
    decreases e,
{
    match e {
        SymExprModel::Var(v) => {
            assert(version_count(vers, v.name) <= version_count(vers2, v.name));
        },
        SymExprModel::Add(l, r) | SymExprModel::Sub(l, r) => {
            lemma_scoped_mono(*l, vers, vers2);
            lemma_scoped_mono(*r, vers, vers2);
        },
        SymExprModel::If(c, b) => {
            lemma_scoped_bool_mono(*c, vers, vers2);
            match b {
                SymBranchesModel::ThenTaken(t, _) => lemma_scoped_mono(*t, vers, vers2),
                SymBranchesModel::ElseTaken(_, f) => lemma_scoped_mono(*f, vers, vers2),
            }
        },
        _ => {},
    }
}

pub(crate) proof fn lemma_scoped_bool_mono(c: SymBoolExprModel, vers: Map<Seq<char>, usize>, vers2: Map<Seq<char>, usize>)
    requires
        scoped_bool(c, vers),
        forall|x: Seq<char>| version_count(vers, x) <= #[trigger] version_count(vers2, x),
    ensures
        scoped_bool(c, vers2),
    decreases c,
{
    match c {
        SymBoolExprModel::Le(l, r) | SymBoolExprModel::Ge(l, r) | SymBoolExprModel::Eq(l, r) => {
            lemma_scoped_mono(*l, vers, vers2);
            lemma_scoped_mono(*r, vers, vers2);
        },
        _ => {},
    }
}

proof fn lemma_sym_of_scoped(e: ExprModel, env: Map<Seq<char>, i64>, vers: Map<Seq<char>, usize>)
    ensures
        scoped(sym_of(e, env, vers), vers),
    decreases e,
{
    match e {
        ExprModel::Add(l, r) | ExprModel::Sub(l, r) => {
            lemma_sym_of_scoped(*l, env, vers);
            lemma_sym_of_scoped(*r, env, vers);
        },
        ExprModel::If(c, t, f) => {
            lemma_sym_bool_of_scoped(*c, env, vers);
            lemma_sym_of_scoped(*t, env, vers);
            lemma_sym_of_scoped(*f, env, vers);
        },
        _ => {},
    }
}

proof fn lemma_sym_bool_of_scoped(c: BoolExprModel, env: Map<Seq<char>, i64>, vers: Map<Seq<char>, usize>)
    ensures
        scoped_bool(sym_bool_of(c, env, vers), vers),
    decreases c,
{
    match c {
        BoolExprModel::Le(l, r) | BoolExprModel::Ge(l, r) | BoolExprModel::Eq(l, r) => {
            lemma_sym_of_scoped(*l, env, vers);
            lemma_sym_of_scoped(*r, env, vers);
        },
        _ => {},
    }
}

// ---------------------------------------------------------------------------
// Expanded SSA forms evaluate to the concrete values
// ---------------------------------------------------------------------------

proof fn lemma_subst_sym_of_value(
    e: ExprModel,
    env: Map<Seq<char>, i64>,
    vers: Map<Seq<char>, usize>,
    lets: Seq<(SsaVarModel, SymExprModel)>,
    env0: Map<Seq<char>, i64>,
)
    requires
        e.eval(env) is Val,
        denotes_all(env, vers, lets, env0),
    ensures
        subst_expr(sym_of(e, env, vers), lets).value(env0) == Some(val_of(e.eval(env))),
    decreases e,
{
    match e {
        ExprModel::Var(x) => {
            assert(env.contains_key(x));
        },
        ExprModel::Add(l, r) | ExprModel::Sub(l, r) => {
            lemma_subst_sym_of_value(*l, env, vers, lets, env0);
            lemma_subst_sym_of_value(*r, env, vers, lets, env0);
        },
        ExprModel::If(c, t, f) => {
            lemma_subst_sym_bool_of_value(*c, env, vers, lets, env0);
            if c.eval(env) == Eval::Val(true) {
                lemma_subst_sym_of_value(*t, env, vers, lets, env0);
            } else {
                lemma_subst_sym_of_value(*f, env, vers, lets, env0);
            }
        },
        _ => {},
    }
}

proof fn lemma_subst_sym_bool_of_value(
    c: BoolExprModel,
    env: Map<Seq<char>, i64>,
    vers: Map<Seq<char>, usize>,
    lets: Seq<(SsaVarModel, SymExprModel)>,
    env0: Map<Seq<char>, i64>,
)
    requires
        c.eval(env) is Val,
        denotes_all(env, vers, lets, env0),
    ensures
        subst_bool(sym_bool_of(c, env, vers), lets).value(env0) == Some(c.eval(env)->Val_0),
    decreases c,
{
    match c {
        BoolExprModel::Le(l, r) | BoolExprModel::Ge(l, r) | BoolExprModel::Eq(l, r) => {
            lemma_subst_sym_of_value(*l, env, vers, lets, env0);
            lemma_subst_sym_of_value(*r, env, vers, lets, env0);
        },
        _ => {},
    }
}

proof fn lemma_expanded_concat(
    a: Seq<(SymBoolExprModel, bool)>,
    b: Seq<(SymBoolExprModel, bool)>,
    lets: Seq<(SsaVarModel, SymExprModel)>,
    env0: Map<Seq<char>, i64>,
    vers: Map<Seq<char>, usize>,
)
    requires
        expanded_hold(a, lets, env0),
        expanded_hold(b, lets, env0),
        forall|i: int| 0 <= i < a.len() ==> scoped_bool((#[trigger] a[i]).0, vers),
        forall|i: int| 0 <= i < b.len() ==> scoped_bool((#[trigger] b[i]).0, vers),
    ensures
        expanded_hold(a + b, lets, env0),
        forall|i: int| 0 <= i < (a + b).len() ==> scoped_bool((#[trigger] (a + b)[i]).0, vers),
{
    assert forall|i: int| 0 <= i < (a + b).len() implies
        subst_bool((#[trigger] (a + b)[i]).0, lets).value(env0) == Some((a + b)[i].1)
        && scoped_bool((a + b)[i].0, vers) by {
        if i < a.len() {
            assert((a + b)[i] == a[i]);
        } else {
            assert((a + b)[i] == b[i - a.len()]);
        }
    }
}

pub(crate) proof fn lemma_trace_expanded(
    e: ExprModel,
    env: Map<Seq<char>, i64>,
    vers: Map<Seq<char>, usize>,
    lets: Seq<(SsaVarModel, SymExprModel)>,
    env0: Map<Seq<char>, i64>,
)
    requires
        denotes_all(env, vers, lets, env0),
    ensures
        expanded_hold(trace_of(e, env, vers), lets, env0),
        forall|i: int| 0 <= i < trace_of(e, env, vers).len() ==> scoped_bool((#[trigger] trace_of(e, env, vers)[i]).0, vers),
    decreases e,
{
    match e {
        ExprModel::Add(l, r) | ExprModel::Sub(l, r) => {
            lemma_trace_expanded(*l, env, vers, lets, env0);
            lemma_trace_expanded(*r, env, vers, lets, env0);
            lemma_expanded_concat(trace_of(*l, env, vers), if l.eval(env) is Val { trace_of(*r, env, vers) } else { seq![] }, lets, env0, vers);
        },
        ExprModel::If(c, t, f) => {
            lemma_branch_trace_expanded(*c, env, vers, lets, env0);
            lemma_trace_expanded(*t, env, vers, lets, env0);
            lemma_trace_expanded(*f, env, vers, lets, env0);
            lemma_expanded_concat(
                branch_trace(*c, env, vers),
                match c.eval(env) {
                    Eval::Val(true) => trace_of(*t, env, vers),
                    Eval::Val(false) => trace_of(*f, env, vers),
                    _ => seq![],
                },
                lets,
                env0,
                vers,
            );
        },
        _ => {},
    }
}

pub(crate) proof fn lemma_branch_trace_expanded(
    c: BoolExprModel,
    env: Map<Seq<char>, i64>,
    vers: Map<Seq<char>, usize>,
    lets: Seq<(SsaVarModel, SymExprModel)>,
    env0: Map<Seq<char>, i64>,
)
    requires
        denotes_all(env, vers, lets, env0),
    ensures
        expanded_hold(assert_trace(c, env, vers), lets, env0),
        forall|i: int| 0 <= i < assert_trace(c, env, vers).len() ==> scoped_bool((#[trigger] assert_trace(c, env, vers)[i]).0, vers),
        expanded_hold(branch_trace(c, env, vers), lets, env0),
        forall|i: int| 0 <= i < branch_trace(c, env, vers).len() ==> scoped_bool((#[trigger] branch_trace(c, env, vers)[i]).0, vers),
    decreases c,
{
    match c {
        BoolExprModel::Le(l, r) | BoolExprModel::Ge(l, r) | BoolExprModel::Eq(l, r) => {
            lemma_trace_expanded(*l, env, vers, lets, env0);
            lemma_trace_expanded(*r, env, vers, lets, env0);
            lemma_expanded_concat(trace_of(*l, env, vers), if l.eval(env) is Val { trace_of(*r, env, vers) } else { seq![] }, lets, env0, vers);
        },
        _ => {},
    }
    let tail = match c.eval(env) {
        Eval::Val(b) => if c is Lit { seq![] } else { seq![(sym_bool_of(c, env, vers), b)] },
        _ => seq![],
    };
    if c.eval(env) is Val {
        lemma_subst_sym_bool_of_value(c, env, vers, lets, env0);
        lemma_sym_bool_of_scoped(c, env, vers);
    }
    lemma_expanded_concat(assert_trace(c, env, vers), tail, lets, env0, vers);
}

// ---------------------------------------------------------------------------
// The invariant of a run
// ---------------------------------------------------------------------------

pub(crate) proof fn lemma_initial_inv(env0: Map<Seq<char>, i64>)
    ensures
        expansion_inv(initial(env0), env0),
{
    let st = initial(env0);
    assert forall|x: Seq<char>| #[trigger] st.env.contains_key(x) implies
        subst_expr(SymExprModel::Var(ssa_var_of(x, st.versions)), st.let_constraints).value(env0) == Some(st.env[x] as int) by {
        assert(last_def(st.let_constraints, ssa_var_of(x, st.versions)) is None);
    }
}

/// Appending scoped constraints that hold keeps the constraints holding.
proof fn lemma_extend_constraints(
    st: StateModel,
    more: Seq<(SymBoolExprModel, bool)>,
    env0: Map<Seq<char>, i64>,
)
    requires
        expansion_inv(st, env0),
        expanded_hold(more, st.let_constraints, env0),
        forall|i: int| 0 <= i < more.len() ==> scoped_bool((#[trigger] more[i]).0, st.versions),
    ensures
        expansion_inv(StateModel { path_constraints: st.path_constraints + more, ..st }, env0),
{
    lemma_expanded_concat(st.path_constraints, more, st.let_constraints, env0, st.versions);
}

/// A new definition keeps the invariant.
proof fn lemma_define_inv(st: StateModel, name: Seq<char>, e: ExprModel, env0: Map<Seq<char>, i64>)
    requires
        expansion_inv(st, env0),
        e.eval(st.env) is Val,
        version_count(st.versions, name) < usize::MAX,
    ensures
        ({
            let n = version_count(st.versions, name) + 1;
            let v = e.eval(st.env)->Val_0;
            expansion_inv(
                StateModel {
                    env: st.env.insert(name, v),
                    versions: st.versions.insert(name, n as usize),
                    let_constraints: st.let_constraints.push(
                        (SsaVarModel { name, version: SsaVersion::Defined(n as usize) }, sym_of(e, st.env, st.versions)),
                    ),
                    ..st
                },
                env0,
            )
        }),
{
    let n = version_count(st.versions, name) + 1;
    let v = e.eval(st.env)->Val_0;
    let nv = SsaVarModel { name, version: SsaVersion::Defined(n as usize) };
    let p = (nv, sym_of(e, st.env, st.versions));
    let lets = st.let_constraints;
    let lets2 = lets.push(p);
    let env2 = st.env.insert(name, v);
    let vers2 = st.versions.insert(name, n as usize);
    assert forall|x: Seq<char>| version_count(st.versions, x) <= #[trigger] version_count(vers2, x) by {}
    // Earlier constraints keep their expansions and their scope.
    assert forall|i: int| 0 <= i < st.path_constraints.len() implies
        subst_bool((#[trigger] st.path_constraints[i]).0, lets2).value(env0) == Some(st.path_constraints[i].1)
        && scoped_bool(st.path_constraints[i].0, vers2) by {
        lemma_subst_bool_push(st.path_constraints[i].0, lets, st.versions, p);
        lemma_scoped_bool_mono(st.path_constraints[i].0, st.versions, vers2);
    }
    assert forall|i: int| 0 <= i < st.passed_asserts.len() implies
        subst_bool(#[trigger] st.passed_asserts[i], lets2).value(env0) == Some(true)
        && scoped_bool(st.passed_asserts[i], vers2) by {
        lemma_subst_bool_push(st.passed_asserts[i], lets, st.versions, p);
        lemma_scoped_bool_mono(st.passed_asserts[i], st.versions, vers2);
    }
    // Every bound name still denotes its value.
    assert forall|x: Seq<char>| #[trigger] env2.contains_key(x) implies
        subst_expr(SymExprModel::Var(ssa_var_of(x, vers2)), lets2).value(env0) == Some(env2[x] as int) by {
        if x == name {
            assert(ssa_var_of(x, vers2) == nv);
            assert(last_def(lets2, nv) == Some(lets.len() as int));
            assert(lets2.take(lets.len() as int) =~= lets);
            assert(lets2[lets.len() as int] == p);
            lemma_subst_sym_of_value(e, st.env, st.versions, lets, env0);
        } else {
            assert(ssa_var_of(x, vers2) == ssa_var_of(x, st.versions));
            assert(st.env.contains_key(x));
            let var = SymExprModel::Var(ssa_var_of(x, st.versions));
            assert(scoped(var, st.versions));
            lemma_subst_push(var, lets, st.versions, p);
        }
    }
}

/// One step keeps the invariant.
pub(crate) proof fn lemma_step_inv(st: StateModel, s: StmtModel, env0: Map<Seq<char>, i64>)
    requires
        expansion_inv(st, env0),
        version_headroom(st.versions, 1),
    ensures
        expansion_inv(step(st, s).0, env0),
{
    match s {
        StmtModel::Assert(c) => {
            lemma_branch_trace_expanded(c, st.env, st.versions, st.let_constraints, env0);
            lemma_extend_constraints(st, assert_trace(c, st.env, st.versions), env0);
            if c.eval(st.env) == Eval::Val(true) {
                lemma_subst_sym_bool_of_value(c, st.env, st.versions, st.let_constraints, env0);
                lemma_sym_bool_of_scoped(c, st.env, st.versions);
                let pa = st.passed_asserts.push(sym_bool_of(c, st.env, st.versions));
                assert forall|i: int| 0 <= i < pa.len() implies
                    subst_bool(#[trigger] pa[i], st.let_constraints).value(env0) == Some(true)
                    && scoped_bool(pa[i], st.versions) by {
                    if i < st.passed_asserts.len() {
                        assert(pa[i] == st.passed_asserts[i]);
                    }
                }
            }
        },
        StmtModel::Let(name, e) => {
            lemma_trace_expanded(e, st.env, st.versions, st.let_constraints, env0);
            lemma_extend_constraints(st, trace_of(e, st.env, st.versions), env0);
            let st1 = StateModel {
                path_constraints: st.path_constraints + trace_of(e, st.env, st.versions),
                ..st
            };
            if e.eval(st.env) is Val {
                assert(version_count(st.versions, name) < usize::MAX);
                lemma_define_inv(st1, name, e, env0);
            }
        },
    }
}

/// Running statements keeps the invariant.
proof fn lemma_run_inv(st: StateModel, stmts: Seq<StmtModel>, env0: Map<Seq<char>, i64>)
    requires
        expansion_inv(st, env0),
        version_headroom(st.versions, stmts.len()),
        stmts.len() <= usize::MAX,
    ensures
        expansion_inv(run(st, stmts).0, env0),
    decreases stmts.len(),
{
    if stmts.len() > 0 {
        lemma_step_inv(st, stmts[0], env0);
        lemma_step_headroom(st, stmts[0], stmts.len());
        let (st1, r) = step(st, stmts[0]);
        if r is Done {
            lemma_run_inv(st1, stmts.drop_first(), env0);
        }
    }
}

/// Definitions made after a condition was recorded leave its expansion
/// unchanged.
pub(crate) proof fn lemma_run_stable(st: StateModel, stmts: Seq<StmtModel>, c: SymBoolExprModel)
    requires
        scoped_bool(c, st.versions),
        version_headroom(st.versions, stmts.len()),
        stmts.len() <= usize::MAX,
    ensures
        subst_bool(c, run(st, stmts).0.let_constraints) == subst_bool(c, st.let_constraints),
    decreases stmts.len(),
{
    if stmts.len() > 0 {
        let (st1, r) = step(st, stmts[0]);
        match stmts[0] {
            StmtModel::Let(name, e) => {
                if e.eval(st.env) is Val {
                    let n = version_count(st.versions, name) + 1;
                    let p = (SsaVarModel { name, version: SsaVersion::Defined(n as usize) }, sym_of(e, st.env, st.versions));
                    assert(st1.let_constraints == st.let_constraints.push(p));
                    lemma_subst_bool_push(c, st.let_constraints, st.versions, p);
                    assert forall|x: Seq<char>| version_count(st.versions, x) <= #[trigger] version_count(st1.versions, x) by {}
                    lemma_scoped_bool_mono(c, st.versions, st1.versions);
                }
            },
            StmtModel::Assert(_) => {},
        }
        if r is Done {
            lemma_step_headroom(st, stmts[0], stmts.len());
            lemma_run_stable(st1, stmts.drop_first(), c);
        }
    }
}

/// Expanding the path constraints of a run over its let definitions
/// expresses them over the input: each expanded constraint holds, in the
/// direction taken, for the input the run started from, and so does each
/// assertion that passed.
pub proof fn lemma_expanded_constraints_hold(env0: Map<Seq<char>, i64>, stmts: Seq<StmtModel>)
    requires
        stmts.len() <= usize::MAX,
    ensures
        ({
            let st = run(initial(env0), stmts).0;
            &&& expanded_hold(st.path_constraints, st.let_constraints, env0)
            &&& forall|i: int| 0 <= i < st.passed_asserts.len()
                ==> subst_bool(#[trigger] st.passed_asserts[i], st.let_constraints).value(env0) == Some(true)
        }),
{
    lemma_initial_inv(env0);
    lemma_run_inv(initial(env0), stmts, env0);
}

} // verus!
