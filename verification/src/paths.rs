//! Runs that take the same branch directions meet the same branch
//! conditions.
use vstd::prelude::*;
use crate::expansion::{expanded_hold, expansion_inv, lemma_branch_trace_expanded, lemma_expanded_constraints_hold, lemma_initial_inv, lemma_run_stable, lemma_step_inv, lemma_trace_expanded, scoped_bool};
use crate::node::{BoolExprModel, Eval, ExprModel, SsaVarModel, StmtModel, SymBoolExprModel, SymExprModel};
use crate::solver::{negated, nonlit_hold, subst_bool, subst_constraints};
use crate::state::{StateModel, assert_trace, branch_trace, initial, lemma_step_headroom, run, step, sym_bool_of, sym_of, trace_of, version_headroom};

verus! {

/// Whether the directions of `a` and `b` agree before index `k`.
pub open spec fn agree_before(a: Seq<(SymBoolExprModel, bool)>, b: Seq<(SymBoolExprModel, bool)>, k: int) -> bool {
    forall|j: int| 0 <= j < k ==> #[trigger] a[j].1 == b[j].1
}

/// Whether the directions of `a` and `b` agree wherever both have one.
pub open spec fn dirs_agree(a: Seq<(SymBoolExprModel, bool)>, b: Seq<(SymBoolExprModel, bool)>) -> bool {
    agree_before(a, b, if a.len() <= b.len() { a.len() as int } else { b.len() as int })
}

/// Whether `a` and `b` have the same conditions up to and including the
/// first index at which their directions differ.
pub open spec fn same_until_split(a: Seq<(SymBoolExprModel, bool)>, b: Seq<(SymBoolExprModel, bool)>) -> bool {
    forall|k: int| #![trigger a[k], b[k]] 0 <= k < a.len() && k < b.len() && agree_before(a, b, k) ==> a[k].0 == b[k].0
}

/// Appending keeps the split property: after a split, whatever follows;
/// after equal prefixes, whatever keeps it.
proof fn lemma_split_concat(
    a1: Seq<(SymBoolExprModel, bool)>,
    a2: Seq<(SymBoolExprModel, bool)>,
    b1: Seq<(SymBoolExprModel, bool)>,
    b2: Seq<(SymBoolExprModel, bool)>,
)
    requires
        same_until_split(a1, a2),
        a1 == a2 || !dirs_agree(a1, a2),
        a1 == a2 ==> same_until_split(b1, b2),
    ensures
        same_until_split(a1 + b1, a2 + b2),
        dirs_agree(a1 + b1, a2 + b2) ==> a1 == a2 && dirs_agree(b1, b2),
{
    let c1 = a1 + b1;
    let c2 = a2 + b2;
    if a1 == a2 {
        let n = a1.len() as int;
        assert forall|k: int| #![trigger c1[k], c2[k]] 0 <= k < c1.len() && k < c2.len() && agree_before(c1, c2, k)
            implies c1[k].0 == c2[k].0 by {
            if k >= n {
                assert(c1[k] == b1[k - n] && c2[k] == b2[k - n]);
                assert forall|j: int| 0 <= j < k - n implies #[trigger] b1[j].1 == b2[j].1 by {
                    assert(c1[j + n] == b1[j] && c2[j + n] == b2[j]);
                }
            } else {
                assert(c1[k] == a1[k] && c2[k] == a2[k]);
            }
        }
        if dirs_agree(c1, c2) {
            let m = if b1.len() <= b2.len() { b1.len() as int } else { b2.len() as int };
            assert forall|j: int| 0 <= j < m implies #[trigger] b1[j].1 == b2[j].1 by {
                assert(c1[j + n] == b1[j] && c2[j + n] == b2[j]);
            }
        }
    } else {
        let m = if a1.len() <= a2.len() { a1.len() as int } else { a2.len() as int };
        let s = choose|s: int| 0 <= s < m && !(a1[s].1 == a2[s].1);
        assert(c1[s] == a1[s] && c2[s] == a2[s]);
        assert forall|k: int| #![trigger c1[k], c2[k]] 0 <= k < c1.len() && k < c2.len() && agree_before(c1, c2, k)
            implies c1[k].0 == c2[k].0 by {
            assert(k <= s);
            assert(c1[k] == a1[k] && c2[k] == a2[k]);
            assert forall|j: int| 0 <= j < k implies #[trigger] a1[j].1 == a2[j].1 by {
                assert(c1[j] == a1[j] && c2[j] == a2[j]);
            }
        }
    }
}

/// The split property of two traces, and their equality when their
/// directions agree.
#[verifier::opaque]
pub open spec fn split_or_equal(a: Seq<(SymBoolExprModel, bool)>, b: Seq<(SymBoolExprModel, bool)>) -> bool {
    &&& same_until_split(a, b)
    &&& (a == b || !dirs_agree(a, b))
}

/// Evaluating the same expression in two environments records constraints
/// with the split property, and the same SSA form when they are equal.
proof fn lemma_trace_split(e: ExprModel, env1: Map<Seq<char>, i64>, env2: Map<Seq<char>, i64>, vers: Map<Seq<char>, usize>)
    requires
        e.eval(env1) is Val,
        e.eval(env2) is Val,
    ensures
        split_or_equal(trace_of(e, env1, vers), trace_of(e, env2, vers)),
        trace_of(e, env1, vers) == trace_of(e, env2, vers) ==> sym_of(e, env1, vers) == sym_of(e, env2, vers),
    decreases e, 1nat,
{
    match e {
        ExprModel::Add(l, r) | ExprModel::Sub(l, r) => {
            lemma_trace_split(*l, env1, env2, vers);
            lemma_trace_split(*r, env1, env2, vers);
            assert(trace_of(e, env1, vers) == trace_of(*l, env1, vers) + trace_of(*r, env1, vers));
            assert(trace_of(e, env2, vers) == trace_of(*l, env2, vers) + trace_of(*r, env2, vers));
            lemma_equal_concat(trace_of(*l, env1, vers), trace_of(*l, env2, vers), trace_of(*r, env1, vers), trace_of(*r, env2, vers));
        },
        ExprModel::If(c, t, f) => {
            lemma_if_split(e, *c, *t, *f, env1, env2, vers);
        },
        _ => {
            lemma_split_refl(trace_of(e, env1, vers));
        },
    }
}

/// The conditional case of `lemma_trace_split`.
proof fn lemma_if_split(
    e: ExprModel,
    c: BoolExprModel,
    t: ExprModel,
    f: ExprModel,
    env1: Map<Seq<char>, i64>,
    env2: Map<Seq<char>, i64>,
    vers: Map<Seq<char>, usize>,
)
    requires
        e == ExprModel::If(Box::new(c), Box::new(t), Box::new(f)),
        e.eval(env1) is Val,
        e.eval(env2) is Val,
    ensures
        split_or_equal(trace_of(e, env1, vers), trace_of(e, env2, vers)),
        trace_of(e, env1, vers) == trace_of(e, env2, vers) ==> sym_of(e, env1, vers) == sym_of(e, env2, vers),
    decreases e, 0nat,
{
    lemma_branch_split(c, env1, env2, vers);
    let bt1 = branch_trace(c, env1, vers);
    let bt2 = branch_trace(c, env2, vers);
    let t1 = if c.eval(env1) == Eval::Val(true) { trace_of(t, env1, vers) } else { trace_of(f, env1, vers) };
    let t2 = if c.eval(env2) == Eval::Val(true) { trace_of(t, env2, vers) } else { trace_of(f, env2, vers) };
    assert(trace_of(e, env1, vers) == bt1 + t1);
    assert(trace_of(e, env2, vers) == bt2 + t2);
    if bt1 == bt2 {
        if c.eval(env1) == Eval::Val(true) {
            lemma_trace_split(t, env1, env2, vers);
        } else {
            lemma_trace_split(f, env1, env2, vers);
        }
    }
    lemma_equal_concat(bt1, bt2, t1, t2);
}

/// `lemma_split_concat` for the split-or-equal form; equal concatenations
/// of split-or-equal parts have equal parts.
proof fn lemma_equal_concat(
    a1: Seq<(SymBoolExprModel, bool)>,
    a2: Seq<(SymBoolExprModel, bool)>,
    b1: Seq<(SymBoolExprModel, bool)>,
    b2: Seq<(SymBoolExprModel, bool)>,
)
    requires
        split_or_equal(a1, a2),
        a1 == a2 ==> split_or_equal(b1, b2),
    ensures
        split_or_equal(a1 + b1, a2 + b2),
        a1 + b1 == a2 + b2 ==> a1 == a2 && b1 == b2,
{
    reveal(split_or_equal);
    lemma_split_concat(a1, a2, b1, b2);
    if a1 == a2 {
        if b1 == b2 {
            assert(a1 + b1 == a2 + b2);
        }
    }
    if a1 + b1 == a2 + b2 {
        if a1 != a2 {
            assert(dirs_agree(a1 + b1, a2 + b2)) by {
                let m = if (a1 + b1).len() <= (a2 + b2).len() { (a1 + b1).len() as int } else { (a2 + b2).len() as int };
                assert forall|j: int| 0 <= j < m implies #[trigger] (a1 + b1)[j].1 == (a2 + b2)[j].1 by {}
            }
        }
        assert(b1 =~= (a1 + b1).skip(a1.len() as int));
        assert(b2 =~= (a2 + b2).skip(a2.len() as int));
    }
}

/// The operands of a condition, evaluated in two environments, record
/// constraints with the split property.
proof fn lemma_assert_split(c: BoolExprModel, env1: Map<Seq<char>, i64>, env2: Map<Seq<char>, i64>, vers: Map<Seq<char>, usize>)
    requires
        c.eval(env1) is Val,
        c.eval(env2) is Val,
    ensures
        split_or_equal(assert_trace(c, env1, vers), assert_trace(c, env2, vers)),
        assert_trace(c, env1, vers) == assert_trace(c, env2, vers) ==> sym_bool_of(c, env1, vers) == sym_bool_of(c, env2, vers),
    decreases c, 0nat,
{
    match c {
        BoolExprModel::Le(l, r) | BoolExprModel::Ge(l, r) | BoolExprModel::Eq(l, r) => {
            lemma_trace_split(*l, env1, env2, vers);
            lemma_trace_split(*r, env1, env2, vers);
            assert(assert_trace(c, env1, vers) == trace_of(*l, env1, vers) + trace_of(*r, env1, vers));
            assert(assert_trace(c, env2, vers) == trace_of(*l, env2, vers) + trace_of(*r, env2, vers));
            lemma_equal_concat(trace_of(*l, env1, vers), trace_of(*l, env2, vers), trace_of(*r, env1, vers), trace_of(*r, env2, vers));
        },
        _ => {
            lemma_split_refl(assert_trace(c, env1, vers));
        },
    }
}

/// A branch condition, evaluated in two environments, records constraints
/// with the split property; when they are equal, so are its value and SSA
/// form.
proof fn lemma_branch_split(c: BoolExprModel, env1: Map<Seq<char>, i64>, env2: Map<Seq<char>, i64>, vers: Map<Seq<char>, usize>)
    requires
        c.eval(env1) is Val,
        c.eval(env2) is Val,
    ensures
        split_or_equal(branch_trace(c, env1, vers), branch_trace(c, env2, vers)),
        branch_trace(c, env1, vers) == branch_trace(c, env2, vers) ==> c.eval(env1) == c.eval(env2)
            && sym_bool_of(c, env1, vers) == sym_bool_of(c, env2, vers),
    decreases c, 1nat,
{
    reveal(split_or_equal);
    lemma_assert_split(c, env1, env2, vers);
    let a1 = assert_trace(c, env1, vers);
    let a2 = assert_trace(c, env2, vers);
    let t1 = if c is Lit { seq![] } else { seq![(sym_bool_of(c, env1, vers), c.eval(env1)->Val_0)] };
    let t2 = if c is Lit { seq![] } else { seq![(sym_bool_of(c, env2, vers), c.eval(env2)->Val_0)] };
    assert(branch_trace(c, env1, vers) == a1 + t1);
    assert(branch_trace(c, env2, vers) == a2 + t2);
    if a1 == a2 {
        assert(split_or_equal(t1, t2)) by {
            if !(c is Lit) {
                assert(t1[0].0 == t2[0].0);
                if c.eval(env1) != c.eval(env2) {
                    assert(t1[0].1 != t2[0].1);
                    assert(!dirs_agree(t1, t2));
                }
            }
        }
    }
    lemma_equal_concat(a1, a2, t1, t2);
    if a1 + t1 == a2 + t2 {
        if !(c is Lit) {
            assert(t1[0].1 == t2[0].1);
        }
    }
}

/// Running statements only appends path constraints.
proof fn lemma_run_appends(st: StateModel, stmts: Seq<StmtModel>)
    ensures
        st.path_constraints.len() <= run(st, stmts).0.path_constraints.len(),
        run(st, stmts).0.path_constraints.take(st.path_constraints.len() as int) == st.path_constraints,
    decreases stmts.len(),
{
    if stmts.len() > 0 {
        let (st1, r) = step(st, stmts[0]);
        assert(st1.path_constraints.take(st.path_constraints.len() as int) =~= st.path_constraints);
        if r is Done {
            lemma_run_appends(st1, stmts.drop_first());
            let p = run(st1, stmts.drop_first()).0.path_constraints;
            assert(p.take(st.path_constraints.len() as int) =~= st1.path_constraints.take(st.path_constraints.len() as int));
        }
    }
}

/// Every trace has the split property with itself.
proof fn lemma_split_refl(a: Seq<(SymBoolExprModel, bool)>)
    ensures
        split_or_equal(a, a),
{
    reveal(split_or_equal);
    assert forall|k: int| #![trigger a[k]] 0 <= k < a.len() && agree_before(a, a, k) implies a[k].0 == a[k].0 by {}
}

/// Once two runs' new constraints diverge, the whole records keep the split
/// property, whatever is appended after.
proof fn lemma_diverged(
    pcs: Seq<(SymBoolExprModel, bool)>,
    a1: Seq<(SymBoolExprModel, bool)>,
    a2: Seq<(SymBoolExprModel, bool)>,
    x1: Seq<(SymBoolExprModel, bool)>,
    x2: Seq<(SymBoolExprModel, bool)>,
)
    requires
        split_or_equal(a1, a2),
        a1 != a2,
    ensures
        split_or_equal(pcs + a1 + x1, pcs + a2 + x2),
{
    lemma_equal_concat(a1, a2, x1, x2);
    lemma_split_refl(pcs);
    lemma_equal_concat(pcs, pcs, a1 + x1, a2 + x2);
    assert(pcs + a1 + x1 =~= pcs + (a1 + x1));
    assert(pcs + a2 + x2 =~= pcs + (a2 + x2));
}

/// One statement completed in two states that differ only in their
/// environments appends constraints with the split property; where the
/// appended constraints are equal, the resulting states still differ only
/// in their environments.
proof fn lemma_step_split(st1: StateModel, st2: StateModel, s: StmtModel)
    requires
        st1.versions == st2.versions,
        st1.let_constraints == st2.let_constraints,
        st1.path_constraints == st2.path_constraints,
        step(st1, s).1 is Done,
        step(st2, s).1 is Done,
    ensures
        ({
            let n1 = step(st1, s).0;
            let n2 = step(st2, s).0;
            let a1 = n1.path_constraints.skip(st1.path_constraints.len() as int);
            let a2 = n2.path_constraints.skip(st2.path_constraints.len() as int);
            &&& n1.path_constraints == st1.path_constraints + a1
            &&& n2.path_constraints == st2.path_constraints + a2
            &&& split_or_equal(a1, a2)
            &&& a1 == a2 ==> n1.versions == n2.versions && n1.let_constraints == n2.let_constraints
        }),
{
    let pcs = st1.path_constraints;
    match s {
        StmtModel::Assert(c) => {
            let a1 = assert_trace(c, st1.env, st1.versions);
            let a2 = assert_trace(c, st2.env, st2.versions);
            lemma_assert_split(c, st1.env, st2.env, st1.versions);
            assert((pcs + a1).skip(pcs.len() as int) =~= a1);
            assert((pcs + a2).skip(pcs.len() as int) =~= a2);
        },
        StmtModel::Let(name, e) => {
            let a1 = trace_of(e, st1.env, st1.versions);
            let a2 = trace_of(e, st2.env, st2.versions);
            lemma_trace_split(e, st1.env, st2.env, st1.versions);
            assert((pcs + a1).skip(pcs.len() as int) =~= a1);
            assert((pcs + a2).skip(pcs.len() as int) =~= a2);
        },
    }
}

/// Runs from states that differ only in their environments record path
/// constraints with the split property.
proof fn lemma_run_split(st1: StateModel, st2: StateModel, stmts: Seq<StmtModel>)
    requires
        st1.versions == st2.versions,
        st1.let_constraints == st2.let_constraints,
        st1.path_constraints == st2.path_constraints,
        run(st1, stmts).1 is Done,
        run(st2, stmts).1 is Done,
    ensures
        split_or_equal(run(st1, stmts).0.path_constraints, run(st2, stmts).0.path_constraints),
    decreases stmts.len(),
{
    if stmts.len() == 0 {
        lemma_split_refl(st1.path_constraints);
    } else {
        let rest = stmts.drop_first();
        let s1 = step(st1, stmts[0]).0;
        let s2 = step(st2, stmts[0]).0;
        lemma_step_split(st1, st2, stmts[0]);
        let pcs = st1.path_constraints;
        let a1 = s1.path_constraints.skip(pcs.len() as int);
        let a2 = s2.path_constraints.skip(pcs.len() as int);
        if a1 == a2 {
            lemma_run_split(s1, s2, rest);
        } else {
            lemma_run_appends(s1, rest);
            lemma_run_appends(s2, rest);
            let p1 = run(s1, rest).0.path_constraints;
            let p2 = run(s2, rest).0.path_constraints;
            let x1 = p1.skip(s1.path_constraints.len() as int);
            let x2 = p2.skip(s2.path_constraints.len() as int);
            assert(p1 =~= s1.path_constraints + x1);
            assert(p2 =~= s2.path_constraints + x2);
            lemma_diverged(pcs, a1, a2, x1, x2);
        }
    }
}

/// Two runs of the same statements that both complete meet the same branch
/// conditions, in SSA form, up to and including the first branch at which
/// they take different directions; runs whose directions never differ
/// record the same path constraints.
pub proof fn lemma_runs_agree_until_split(env1: Map<Seq<char>, i64>, env2: Map<Seq<char>, i64>, stmts: Seq<StmtModel>)
    requires
        run(initial(env1), stmts).1 is Done,
        run(initial(env2), stmts).1 is Done,
    ensures
        split_or_equal(run(initial(env1), stmts).0.path_constraints, run(initial(env2), stmts).0.path_constraints),
{
    lemma_run_split(initial(env1), initial(env2), stmts);
}

// ---------------------------------------------------------------------------
// Expanded conditions
// ---------------------------------------------------------------------------

/// Whether the conditions of `p1` and `p2`, expanded over `l1` and `l2`,
/// are the same up to and including the first index at which their
/// directions differ.
pub open spec fn expanded_agree(
    p1: Seq<(SymBoolExprModel, bool)>,
    l1: Seq<(SsaVarModel, SymExprModel)>,
    p2: Seq<(SymBoolExprModel, bool)>,
    l2: Seq<(SsaVarModel, SymExprModel)>,
) -> bool {
    forall|k: int| #![trigger p1[k], p2[k]] 0 <= k < p1.len() && k < p2.len() && agree_before(p1, p2, k)
        ==> subst_bool(p1[k].0, l1) == subst_bool(p2[k].0, l2)
}

/// The constraints that one completed statement appends are in scope
/// before it.
proof fn lemma_step_new_scoped(st: StateModel, s: StmtModel, env0: Map<Seq<char>, i64>)
    requires
        expansion_inv(st, env0),
        step(st, s).1 is Done,
    ensures
        ({
            let a = step(st, s).0.path_constraints.skip(st.path_constraints.len() as int);
            forall|j: int| 0 <= j < a.len() ==> scoped_bool((#[trigger] a[j]).0, st.versions)
        }),
{
    let pcs = st.path_constraints;
    match s {
        StmtModel::Assert(c) => {
            lemma_branch_trace_expanded(c, st.env, st.versions, st.let_constraints, env0);
            assert((pcs + assert_trace(c, st.env, st.versions)).skip(pcs.len() as int) =~= assert_trace(c, st.env, st.versions));
        },
        StmtModel::Let(name, e) => {
            lemma_trace_expanded(e, st.env, st.versions, st.let_constraints, env0);
            assert((pcs + trace_of(e, st.env, st.versions)).skip(pcs.len() as int) =~= trace_of(e, st.env, st.versions));
        },
    }
}

/// Where the split happens at the first statement: the conditions before
/// and at the split are expanded over the definitions made before it.
proof fn lemma_expanded_at_split(
    st1: StateModel,
    st2: StateModel,
    stmts: Seq<StmtModel>,
    env1: Map<Seq<char>, i64>,
    env2: Map<Seq<char>, i64>,
)
    requires
        st1.versions == st2.versions,
        st1.let_constraints == st2.let_constraints,
        st1.path_constraints == st2.path_constraints,
        expansion_inv(st1, env1),
        expansion_inv(st2, env2),
        version_headroom(st1.versions, stmts.len()),
        1 <= stmts.len() <= usize::MAX,
        run(st1, stmts).1 is Done,
        run(st2, stmts).1 is Done,
        step(st1, stmts[0]).0.path_constraints.skip(st1.path_constraints.len() as int)
            != step(st2, stmts[0]).0.path_constraints.skip(st2.path_constraints.len() as int),
    ensures
        expanded_agree(
            run(st1, stmts).0.path_constraints,
            run(st1, stmts).0.let_constraints,
            run(st2, stmts).0.path_constraints,
            run(st2, stmts).0.let_constraints,
        ),
{
    let rest = stmts.drop_first();
    let s1 = step(st1, stmts[0]).0;
    let s2 = step(st2, stmts[0]).0;
    lemma_step_split(st1, st2, stmts[0]);
    lemma_step_new_scoped(st1, stmts[0], env1);
    lemma_step_new_scoped(st2, stmts[0], env2);
    let pcs = st1.path_constraints;
    let n = pcs.len() as int;
    let a1 = s1.path_constraints.skip(n);
    let a2 = s2.path_constraints.skip(n);
    lemma_run_appends(s1, rest);
    lemma_run_appends(s2, rest);
    let p1 = run(st1, stmts).0.path_constraints;
    let p2 = run(st2, stmts).0.path_constraints;
    let l1 = run(st1, stmts).0.let_constraints;
    let l2 = run(st2, stmts).0.let_constraints;
    assert(p1 == run(s1, rest).0.path_constraints);
    assert(p2 == run(s2, rest).0.path_constraints);
    reveal(split_or_equal);
    let m = if a1.len() <= a2.len() { a1.len() as int } else { a2.len() as int };
    let sp = choose|sp: int| 0 <= sp < m && !(a1[sp].1 == a2[sp].1);
    assert(p1[n + sp] == a1[sp] && p2[n + sp] == a2[sp]) by {
        assert(p1.take(s1.path_constraints.len() as int)[n + sp] == s1.path_constraints[n + sp]);
        assert(p2.take(s2.path_constraints.len() as int)[n + sp] == s2.path_constraints[n + sp]);
    }
    assert forall|k: int| #![trigger p1[k], p2[k]] 0 <= k < p1.len() && k < p2.len() && agree_before(p1, p2, k)
        implies subst_bool(p1[k].0, l1) == subst_bool(p2[k].0, l2) by {
        assert(k <= n + sp);
        if k < n {
            assert(p1[k] == pcs[k]) by {
                assert(p1.take(s1.path_constraints.len() as int)[k] == s1.path_constraints[k]);
            }
            assert(p2[k] == pcs[k]) by {
                assert(p2.take(s2.path_constraints.len() as int)[k] == s2.path_constraints[k]);
            }
            lemma_run_stable(st1, stmts, pcs[k].0);
            lemma_run_stable(st2, stmts, pcs[k].0);
        } else {
            let j = k - n;
            assert(p1[k] == a1[j]) by {
                assert(p1.take(s1.path_constraints.len() as int)[k] == s1.path_constraints[k]);
            }
            assert(p2[k] == a2[j]) by {
                assert(p2.take(s2.path_constraints.len() as int)[k] == s2.path_constraints[k]);
            }
            assert forall|i: int| 0 <= i < j implies #[trigger] a1[i].1 == a2[i].1 by {
                assert(p1.take(s1.path_constraints.len() as int)[n + i] == s1.path_constraints[n + i]);
                assert(p2.take(s2.path_constraints.len() as int)[n + i] == s2.path_constraints[n + i]);
                assert(p1[n + i].1 == p2[n + i].1);
            }
            assert(agree_before(a1, a2, j));
            assert(a1[j].0 == a2[j].0);
            lemma_run_stable(st1, stmts, a1[j].0);
            lemma_run_stable(st2, stmts, a2[j].0);
        }
    }
}

/// Runs from states that differ only in their environments have the same
/// expanded conditions up to the first branch where they part.
proof fn lemma_run_expanded_agree(
    st1: StateModel,
    st2: StateModel,
    stmts: Seq<StmtModel>,
    env1: Map<Seq<char>, i64>,
    env2: Map<Seq<char>, i64>,
)
    requires
        st1.versions == st2.versions,
        st1.let_constraints == st2.let_constraints,
        st1.path_constraints == st2.path_constraints,
        expansion_inv(st1, env1),
        expansion_inv(st2, env2),
        version_headroom(st1.versions, stmts.len()),
        stmts.len() <= usize::MAX,
        run(st1, stmts).1 is Done,
        run(st2, stmts).1 is Done,
    ensures
        expanded_agree(
            run(st1, stmts).0.path_constraints,
            run(st1, stmts).0.let_constraints,
            run(st2, stmts).0.path_constraints,
            run(st2, stmts).0.let_constraints,
        ),
    decreases stmts.len(),
{
    if stmts.len() > 0 {
        let s1 = step(st1, stmts[0]).0;
        let s2 = step(st2, stmts[0]).0;
        lemma_step_split(st1, st2, stmts[0]);
        let n = st1.path_constraints.len() as int;
        if s1.path_constraints.skip(n) == s2.path_constraints.skip(n) {
            lemma_step_inv(st1, stmts[0], env1);
            lemma_step_inv(st2, stmts[0], env2);
            lemma_step_headroom(st1, stmts[0], stmts.len());
            lemma_run_expanded_agree(s1, s2, stmts.drop_first(), env1, env2);
        } else {
            lemma_expanded_at_split(st1, st2, stmts, env1, env2);
        }
    }
}

// ---------------------------------------------------------------------------
// Conditions are never literals
// ---------------------------------------------------------------------------

/// Whether no condition of `cs` is a literal.
pub open spec fn no_lit(cs: Seq<(SymBoolExprModel, bool)>) -> bool {
    forall|k: int| 0 <= k < cs.len() ==> !((#[trigger] cs[k]).0 is Lit)
}

proof fn lemma_no_lit_concat(a: Seq<(SymBoolExprModel, bool)>, b: Seq<(SymBoolExprModel, bool)>)
    requires
        no_lit(a),
        no_lit(b),
    ensures
        no_lit(a + b),
{
    assert forall|k: int| 0 <= k < (a + b).len() implies !((#[trigger] (a + b)[k]).0 is Lit) by {
        if k < a.len() {
            assert((a + b)[k] == a[k]);
        } else {
            assert((a + b)[k] == b[k - a.len()]);
        }
    }
}

proof fn lemma_trace_no_lit(e: ExprModel, env: Map<Seq<char>, i64>, vers: Map<Seq<char>, usize>)
    ensures
        no_lit(trace_of(e, env, vers)),
    decreases e, 1nat,
{
    match e {
        ExprModel::Add(l, r) | ExprModel::Sub(l, r) => {
            lemma_trace_no_lit(*l, env, vers);
            lemma_trace_no_lit(*r, env, vers);
            lemma_no_lit_concat(trace_of(*l, env, vers), if l.eval(env) is Val { trace_of(*r, env, vers) } else { seq![] });
        },
        ExprModel::If(c, t, f) => {
            lemma_branch_no_lit(*c, env, vers);
            lemma_trace_no_lit(*t, env, vers);
            lemma_trace_no_lit(*f, env, vers);
            lemma_no_lit_concat(
                branch_trace(*c, env, vers),
                match c.eval(env) {
                    Eval::Val(true) => trace_of(*t, env, vers),
                    Eval::Val(false) => trace_of(*f, env, vers),
                    _ => seq![],
                },
            );
        },
        _ => {},
    }
}

proof fn lemma_branch_no_lit(c: BoolExprModel, env: Map<Seq<char>, i64>, vers: Map<Seq<char>, usize>)
    ensures
        no_lit(assert_trace(c, env, vers)),
        no_lit(branch_trace(c, env, vers)),
    decreases c, 0nat,
{
    match c {
        BoolExprModel::Le(l, r) | BoolExprModel::Ge(l, r) | BoolExprModel::Eq(l, r) => {
            lemma_trace_no_lit(*l, env, vers);
            lemma_trace_no_lit(*r, env, vers);
            lemma_no_lit_concat(trace_of(*l, env, vers), if l.eval(env) is Val { trace_of(*r, env, vers) } else { seq![] });
        },
        _ => {},
    }
    let tail = match c.eval(env) {
        Eval::Val(b) => if c is Lit { seq![] } else { seq![(sym_bool_of(c, env, vers), b)] },
        _ => seq![],
    };
    lemma_no_lit_concat(assert_trace(c, env, vers), tail);
}

proof fn lemma_run_no_lit(st: StateModel, stmts: Seq<StmtModel>)
    requires
        no_lit(st.path_constraints),
    ensures
        no_lit(run(st, stmts).0.path_constraints),
    decreases stmts.len(),
{
    if stmts.len() > 0 {
        match stmts[0] {
            StmtModel::Assert(c) => {
                lemma_branch_no_lit(c, st.env, st.versions);
                lemma_no_lit_concat(st.path_constraints, assert_trace(c, st.env, st.versions));
            },
            StmtModel::Let(_, e) => {
                lemma_trace_no_lit(e, st.env, st.versions);
                lemma_no_lit_concat(st.path_constraints, trace_of(e, st.env, st.versions));
            },
        }
        let (st1, r) = step(st, stmts[0]);
        if r is Done {
            lemma_run_no_lit(st1, stmts.drop_first());
        }
    }
}

// ---------------------------------------------------------------------------
// An input found for another path follows it
// ---------------------------------------------------------------------------

/// Directions agree before `k + 1` once they agree before `k` and the
/// expanded condition at `k` holds in both directions.
proof fn lemma_agree_upto(
    p: Seq<(SymBoolExprModel, bool)>,
    l: Seq<(SsaVarModel, SymExprModel)>,
    c: Seq<(SymBoolExprModel, bool)>,
    lc: Seq<(SsaVarModel, SymExprModel)>,
    env: Map<Seq<char>, i64>,
    i: int,
    k: int,
)
    requires
        0 <= k <= i < p.len(),
        k <= c.len(),
        expanded_agree(p, l, c, lc),
        expanded_hold(c, lc, env),
        nonlit_hold(subst_constraints(negated(p, i), l), env),
        no_lit(p),
    ensures
        agree_before(p, c, k),
    decreases k,
{
    if k > 0 {
        let j = k - 1;
        lemma_agree_upto(p, l, c, lc, env, i, j);
        let x = subst_constraints(negated(p, i), l);
        assert(x[j] == (subst_bool(p[j].0, l), p[j].1));
        assert(!(p[j].0 is Lit));
        assert(!(x[j].0 is Lit));
        assert(subst_bool(p[j].0, l) == subst_bool(c[j].0, lc));
        assert(subst_bool(c[j].0, lc).value(env) == Some(c[j].1));
        assert(x[j].0.value(env) == Some(x[j].1));
    }
}

/// An input that satisfies the constraints of a completed run before branch
/// `i`, and the other direction at branch `i`, each expanded over the run's
/// let definitions, takes the same directions as the run before branch `i`
/// and the other direction at branch `i`, when the statements complete for
/// it.
pub proof fn lemma_alternative_followed(
    env_p: Map<Seq<char>, i64>,
    env_c: Map<Seq<char>, i64>,
    stmts: Seq<StmtModel>,
    i: int,
)
    requires
        stmts.len() <= usize::MAX,
        run(initial(env_p), stmts).1 is Done,
        run(initial(env_c), stmts).1 is Done,
        0 <= i < run(initial(env_p), stmts).0.path_constraints.len(),
        nonlit_hold(
            subst_constraints(
                negated(run(initial(env_p), stmts).0.path_constraints, i),
                run(initial(env_p), stmts).0.let_constraints,
            ),
            env_c,
        ),
    ensures
        ({
            let p = run(initial(env_p), stmts).0.path_constraints;
            let c = run(initial(env_c), stmts).0.path_constraints;
            &&& i < c.len()
            &&& forall|k: int| 0 <= k < i ==> #[trigger] c[k].1 == p[k].1
            &&& c[i].1 == !p[i].1
        }),
{
    let p = run(initial(env_p), stmts).0.path_constraints;
    let l = run(initial(env_p), stmts).0.let_constraints;
    let c = run(initial(env_c), stmts).0.path_constraints;
    let lc = run(initial(env_c), stmts).0.let_constraints;
    lemma_initial_inv(env_p);
    lemma_initial_inv(env_c);
    assert(version_headroom(initial(env_p).versions, stmts.len()));
    lemma_run_expanded_agree(initial(env_p), initial(env_c), stmts, env_p, env_c);
    lemma_expanded_constraints_hold(env_c, stmts);
    lemma_runs_agree_until_split(env_p, env_c, stmts);
    lemma_run_no_lit(initial(env_p), stmts);
    reveal(split_or_equal);
    if c.len() <= i {
        lemma_agree_upto(p, l, c, lc, env_c, i, c.len() as int);
        assert(dirs_agree(p, c));
        assert(p == c);
        assert(false);
    }
    lemma_agree_upto(p, l, c, lc, env_c, i, i);
    let x = subst_constraints(negated(p, i), l);
    assert(x[i] == (subst_bool(p[i].0, l), !p[i].1));
    assert(!(p[i].0 is Lit));
    assert(subst_bool(p[i].0, l) == subst_bool(c[i].0, lc));
    assert(subst_bool(c[i].0, lc).value(env_c) == Some(c[i].1));
    assert(x[i].0.value(env_c) == Some(x[i].1));
}

} // verus!
