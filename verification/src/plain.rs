//! Variable names without `@` cannot be mistaken for let-defined variables
//! as written (`name@version`), which the solver leaves out of what it
//! draws values for.
use vstd::prelude::*;
use crate::node::{BoolExprModel, Eval, ExprModel, SsaVarModel, StmtModel, SymBoolExprModel, SymBranchesModel, SymExprModel, ssa_text};
use crate::solver::{bounds_of, classify, last_def, lemma_last_def, let_texts, linear_form, negated, subst_bool, subst_constraints, subst_expr};
use crate::state::{StateModel, assert_trace, branch_trace, initial, run, step, sym_bool_of, sym_of, trace_of};

verus! {

/// Whether `x` contains no `@`.
pub open spec fn plain(x: Seq<char>) -> bool {
    !x.contains('@')
}

/// Whether every name of `ns` contains no `@`.
pub open spec fn plain_all(ns: Seq<Seq<char>>) -> bool {
    forall|i: int| 0 <= i < ns.len() ==> plain(#[trigger] ns[i])
}

/// Whether no variable read by the statements has `@` in its name.
pub open spec fn plain_stmts(stmts: Seq<StmtModel>) -> bool {
    forall|k: int| 0 <= k < stmts.len() ==> match #[trigger] stmts[k] {
        StmtModel::Assert(c) => plain_all(c.names()),
        StmtModel::Let(_, e) => plain_all(e.names()),
    }
}

/// Whether every condition of `cs` reads only names without `@`.
pub open spec fn plain_conditions(cs: Seq<(SymBoolExprModel, bool)>) -> bool {
    forall|k: int| 0 <= k < cs.len() ==> plain_all((#[trigger] cs[k]).0.names())
}

/// Whether every definition of `lets` reads only names without `@`.
pub open spec fn plain_lets(lets: Seq<(SsaVarModel, SymExprModel)>) -> bool {
    forall|k: int| 0 <= k < lets.len() ==> plain_all((#[trigger] lets[k]).1.names())
}

proof fn lemma_plain_concat(a: Seq<Seq<char>>, b: Seq<Seq<char>>)
    ensures
        plain_all(a + b) <==> plain_all(a) && plain_all(b),
{
    if plain_all(a + b) {
        assert forall|i: int| 0 <= i < a.len() implies plain(#[trigger] a[i]) by {
            assert((a + b)[i] == a[i]);
        }
        assert forall|i: int| 0 <= i < b.len() implies plain(#[trigger] b[i]) by {
            assert((a + b)[a.len() + i] == b[i]);
        }
    }
    if plain_all(a) && plain_all(b) {
        assert forall|i: int| 0 <= i < (a + b).len() implies plain(#[trigger] (a + b)[i]) by {
            if i < a.len() {
                assert((a + b)[i] == a[i]);
            } else {
                assert((a + b)[i] == b[i - a.len()]);
            }
        }
    }
}

proof fn lemma_plain_concat3(a: Seq<Seq<char>>, b: Seq<Seq<char>>, c: Seq<Seq<char>>)
    ensures
        plain_all(a + b + c) <==> plain_all(a) && plain_all(b) && plain_all(c),
{
    lemma_plain_concat(a, b);
    lemma_plain_concat(a + b, c);
}

// ---------------------------------------------------------------------------
// SSA forms read the names of the expressions they come from
// ---------------------------------------------------------------------------

proof fn lemma_sym_of_names(e: ExprModel, env: Map<Seq<char>, i64>, vers: Map<Seq<char>, usize>)
    ensures
        sym_of(e, env, vers).names() == e.names(),
    decreases e,
{
    match e {
        ExprModel::Add(l, r) | ExprModel::Sub(l, r) => {
            lemma_sym_of_names(*l, env, vers);
            lemma_sym_of_names(*r, env, vers);
        },
        ExprModel::If(c, t, f) => {
            lemma_sym_bool_of_names(*c, env, vers);
            lemma_sym_of_names(*t, env, vers);
            lemma_sym_of_names(*f, env, vers);
        },
        _ => {},
    }
}

proof fn lemma_sym_bool_of_names(c: BoolExprModel, env: Map<Seq<char>, i64>, vers: Map<Seq<char>, usize>)
    ensures
        sym_bool_of(c, env, vers).names() == c.names(),
    decreases c,
{
    match c {
        BoolExprModel::Le(l, r) | BoolExprModel::Ge(l, r) | BoolExprModel::Eq(l, r) => {
            lemma_sym_of_names(*l, env, vers);
            lemma_sym_of_names(*r, env, vers);
        },
        _ => {},
    }
}

proof fn lemma_plain_conditions_concat(a: Seq<(SymBoolExprModel, bool)>, b: Seq<(SymBoolExprModel, bool)>)
    requires
        plain_conditions(a),
        plain_conditions(b),
    ensures
        plain_conditions(a + b),
{
    assert forall|k: int| 0 <= k < (a + b).len() implies plain_all((#[trigger] (a + b)[k]).0.names()) by {
        if k < a.len() {
            assert((a + b)[k] == a[k]);
        } else {
            assert((a + b)[k] == b[k - a.len()]);
        }
    }
}

proof fn lemma_trace_plain(e: ExprModel, env: Map<Seq<char>, i64>, vers: Map<Seq<char>, usize>)
    requires
        plain_all(e.names()),
    ensures
        plain_conditions(trace_of(e, env, vers)),
    decreases e, 1nat,
{
    match e {
        ExprModel::Add(l, r) | ExprModel::Sub(l, r) => {
            lemma_plain_concat(l.names(), r.names());
            lemma_trace_plain(*l, env, vers);
            lemma_trace_plain(*r, env, vers);
            lemma_plain_conditions_concat(trace_of(*l, env, vers), if l.eval(env) is Val { trace_of(*r, env, vers) } else { seq![] });
        },
        ExprModel::If(c, t, f) => {
            lemma_plain_concat3(c.names(), t.names(), f.names());
            lemma_branch_plain(*c, env, vers);
            lemma_trace_plain(*t, env, vers);
            lemma_trace_plain(*f, env, vers);
            lemma_plain_conditions_concat(
                branch_trace(*c, env, vers),
                match c.eval(env) {
                    Eval::Val(true) => trace_of(*t, env, vers),
                    Eval::Val(false) => trace_of(*f, env, vers),
                    _ => seq![],
                },
            );
        },
        _ => {},
    }
}

proof fn lemma_branch_plain(c: BoolExprModel, env: Map<Seq<char>, i64>, vers: Map<Seq<char>, usize>)
    requires
        plain_all(c.names()),
    ensures
        plain_conditions(assert_trace(c, env, vers)),
        plain_conditions(branch_trace(c, env, vers)),
    decreases c, 0nat,
{
    match c {
        BoolExprModel::Le(l, r) | BoolExprModel::Ge(l, r) | BoolExprModel::Eq(l, r) => {
            lemma_plain_concat(l.names(), r.names());
            lemma_trace_plain(*l, env, vers);
            lemma_trace_plain(*r, env, vers);
            lemma_plain_conditions_concat(trace_of(*l, env, vers), if l.eval(env) is Val { trace_of(*r, env, vers) } else { seq![] });
        },
        _ => {},
    }
    lemma_sym_bool_of_names(c, env, vers);
    let tail = match c.eval(env) {
        Eval::Val(b) => if c is Lit { seq![] } else { seq![(sym_bool_of(c, env, vers), b)] },
        _ => seq![],
    };
    assert(plain_conditions(tail)) by {
        if tail.len() > 0 {
            assert(tail[0].0 == sym_bool_of(c, env, vers));
        }
    }
    lemma_plain_conditions_concat(assert_trace(c, env, vers), tail);
}

/// A run of statements that read only names without `@` records conditions
/// and definitions that read only such names.
proof fn lemma_run_plain(st: StateModel, stmts: Seq<StmtModel>)
    requires
        plain_stmts(stmts),
        plain_conditions(st.path_constraints),
        plain_lets(st.let_constraints),
    ensures
        plain_conditions(run(st, stmts).0.path_constraints),
        plain_lets(run(st, stmts).0.let_constraints),
    decreases stmts.len(),
{
    if stmts.len() > 0 {
        let (st1, r) = step(st, stmts[0]);
        match stmts[0] {
            StmtModel::Assert(c) => {
                lemma_branch_plain(c, st.env, st.versions);
                lemma_plain_conditions_concat(st.path_constraints, assert_trace(c, st.env, st.versions));
            },
            StmtModel::Let(name, e) => {
                lemma_trace_plain(e, st.env, st.versions);
                lemma_plain_conditions_concat(st.path_constraints, trace_of(e, st.env, st.versions));
                lemma_sym_of_names(e, st.env, st.versions);
                assert forall|k: int| 0 <= k < st1.let_constraints.len() implies plain_all((#[trigger] st1.let_constraints[k]).1.names()) by {
                    if k < st.let_constraints.len() {
                        assert(st1.let_constraints[k] == st.let_constraints[k]);
                    }
                }
            },
        }
        if r is Done {
            assert forall|k: int| 0 <= k < stmts.drop_first().len() implies match #[trigger] stmts.drop_first()[k] {
                StmtModel::Assert(c) => plain_all(c.names()),
                StmtModel::Let(_, e) => plain_all(e.names()),
            } by {
                assert(stmts.drop_first()[k] == stmts[k + 1]);
            }
            lemma_run_plain(st1, stmts.drop_first());
        }
    }
}

// ---------------------------------------------------------------------------
// Substitution reads only the names of the expression and the definitions
// ---------------------------------------------------------------------------

proof fn lemma_subst_plain(e: SymExprModel, s: Seq<(SsaVarModel, SymExprModel)>)
    requires
        plain_all(e.names()),
        plain_lets(s),
    ensures
        plain_all(subst_expr(e, s).names()),
    decreases s.len(), e,
{
    match e {
        SymExprModel::Var(v) => {
            lemma_last_def(s, v);
            match last_def(s, v) {
                Some(j) => {
                    if 0 <= j < s.len() {
                        assert(plain_all(s[j].1.names()));
                        assert forall|k: int| 0 <= k < s.take(j).len() implies plain_all((#[trigger] s.take(j)[k]).1.names()) by {
                            assert(s.take(j)[k] == s[k]);
                        }
                        lemma_subst_plain(s[j].1, s.take(j));
                    }
                },
                None => {},
            }
        },
        SymExprModel::Add(l, r) | SymExprModel::Sub(l, r) => {
            lemma_plain_concat(l.names(), r.names());
            lemma_subst_plain(*l, s);
            lemma_subst_plain(*r, s);
            lemma_plain_concat(subst_expr(*l, s).names(), subst_expr(*r, s).names());
        },
        SymExprModel::If(c, b) => match b {
            SymBranchesModel::ThenTaken(t, f) => {
                lemma_plain_concat3(c.names(), t.names(), f.names());
                lemma_subst_bool_plain(*c, s);
                lemma_subst_plain(*t, s);
                lemma_plain_concat3(subst_bool(*c, s).names(), subst_expr(*t, s).names(), f.names());
            },
            SymBranchesModel::ElseTaken(t, f) => {
                lemma_plain_concat3(c.names(), t.names(), f.names());
                lemma_subst_bool_plain(*c, s);
                lemma_subst_plain(*f, s);
                lemma_plain_concat3(subst_bool(*c, s).names(), t.names(), subst_expr(*f, s).names());
            },
        },
        _ => {},
    }
}

proof fn lemma_subst_bool_plain(c: SymBoolExprModel, s: Seq<(SsaVarModel, SymExprModel)>)
    requires
        plain_all(c.names()),
        plain_lets(s),
    ensures
        plain_all(subst_bool(c, s).names()),
    decreases s.len(), c,
{
    match c {
        SymBoolExprModel::Le(l, r) | SymBoolExprModel::Ge(l, r) | SymBoolExprModel::Eq(l, r) => {
            lemma_plain_concat(l.names(), r.names());
            lemma_subst_plain(*l, s);
            lemma_subst_plain(*r, s);
            lemma_plain_concat(subst_expr(*l, s).names(), subst_expr(*r, s).names());
        },
        _ => {},
    }
}

// ---------------------------------------------------------------------------
// Bound names
// ---------------------------------------------------------------------------

proof fn lemma_linear_form_plain(e: SymExprModel)
    requires
        linear_form(e) is Some,
        plain_all(e.names()),
    ensures
        plain(linear_form(e)->Some_0.0),
{
    match e {
        SymExprModel::Var(v) => {
            assert(e.names()[0] == v.name);
        },
        SymExprModel::Add(l, r) => {
            lemma_plain_concat(l.names(), r.names());
            match (*l, *r) {
                (SymExprModel::Var(v), SymExprModel::Lit(_)) => {
                    assert(l.names()[0] == v.name);
                },
                (SymExprModel::Lit(_), SymExprModel::Var(v)) => {
                    assert(r.names()[0] == v.name);
                },
                _ => {},
            }
        },
        SymExprModel::Sub(l, r) => {
            lemma_plain_concat(l.names(), r.names());
            match (*l, *r) {
                (SymExprModel::Var(v), SymExprModel::Lit(_)) => {
                    assert(l.names()[0] == v.name);
                },
                _ => {},
            }
        },
        _ => {},
    }
}

proof fn lemma_classify_plain(c: SymBoolExprModel, taken: bool)
    requires
        classify(c, taken) is Some,
        plain_all(c.names()),
    ensures
        plain(classify(c, taken)->Some_0.0),
{
    match c {
        SymBoolExprModel::Le(l, r) | SymBoolExprModel::Ge(l, r) | SymBoolExprModel::Eq(l, r) => {
            lemma_plain_concat(l.names(), r.names());
            if linear_form(*l) is Some {
                lemma_linear_form_plain(*l);
            }
            if linear_form(*r) is Some {
                lemma_linear_form_plain(*r);
            }
        },
        _ => {},
    }
}

proof fn lemma_bounds_plain(cs: Seq<(SymBoolExprModel, bool)>)
    requires
        plain_conditions(cs),
    ensures
        forall|x: Seq<char>| #[trigger] bounds_of(cs).contains_key(x) ==> plain(x),
    decreases cs.len(),
{
    if cs.len() > 0 {
        let dl = cs.drop_last();
        assert forall|k: int| 0 <= k < dl.len() implies plain_all((#[trigger] dl[k]).0.names()) by {
            assert(dl[k] == cs[k]);
        }
        lemma_bounds_plain(dl);
        assert(cs.last() == cs[cs.len() - 1]);
        let m = bounds_of(dl);
        match classify(cs.last().0, cs.last().1) {
            Some((y, u)) => {
                lemma_classify_plain(cs.last().0, cs.last().1);
                assert forall|x: Seq<char>| #[trigger] bounds_of(cs).contains_key(x) implies plain(x) by {
                    if x != y {
                        assert(m.contains_key(x));
                    }
                }
            },
            None => {},
        }
    }
}

proof fn lemma_plain_not_let_text(x: Seq<char>, lets: Seq<(SsaVarModel, SymExprModel)>)
    requires
        plain(x),
    ensures
        !let_texts(lets).contains(x),
{
    if let_texts(lets).contains(x) {
        let i = choose|i: int| 0 <= i < lets.len() && ssa_text(lets[i].0) == x;
        let v = lets[i].0;
        assert(ssa_text(v)[v.name.len() as int] == '@');
        assert(x.contains('@'));
    }
}

/// For statements that read only names without `@`, no name the solver
/// bounds, in the constraints of a completed run with one direction
/// flipped, is written like one of the run's let-defined variables.
pub proof fn lemma_bound_names_plain(env: Map<Seq<char>, i64>, stmts: Seq<StmtModel>, i: int)
    requires
        plain_stmts(stmts),
        0 <= i < run(initial(env), stmts).0.path_constraints.len(),
    ensures
        ({
            let st = run(initial(env), stmts).0;
            let cs = subst_constraints(negated(st.path_constraints, i), st.let_constraints);
            forall|x: Seq<char>| #[trigger] bounds_of(cs).contains_key(x) ==> !let_texts(st.let_constraints).contains(x)
        }),
{
    let st = run(initial(env), stmts).0;
    lemma_run_plain(initial(env), stmts);
    let p = st.path_constraints;
    let l = st.let_constraints;
    let ng = negated(p, i);
    assert(plain_conditions(ng)) by {
        assert forall|k: int| 0 <= k < ng.len() implies plain_all((#[trigger] ng[k]).0.names()) by {
            if k < i {
                assert(ng[k] == p.take(i)[k]);
            }
            assert(ng[k].0 == p[k].0);
        }
    }
    let cs = subst_constraints(ng, l);
    assert(plain_conditions(cs)) by {
        assert forall|k: int| 0 <= k < cs.len() implies plain_all((#[trigger] cs[k]).0.names()) by {
            assert(cs[k].0 == subst_bool(ng[k].0, l));
            lemma_subst_bool_plain(ng[k].0, l);
        }
    }
    lemma_bounds_plain(cs);
    assert forall|x: Seq<char>| #[trigger] bounds_of(cs).contains_key(x) implies !let_texts(l).contains(x) by {
        lemma_plain_not_let_text(x, l);
    }
}

} // verus!
