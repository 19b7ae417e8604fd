//! Concolic execution: concrete evaluation that records symbolic path
//! constraints.
use vstd::prelude::*;
use crate::env::{Env, NameMap};
use crate::node::{BoolExpr, BoolExprModel, Eval, ExprModel, Expr, SsaVar, SsaVarModel, SsaVersion, SymBranchesModel, SymIfBranches, SymBoolExpr, SymBoolExprModel, SymExpr, SymExprModel, Stmt, StmtModel, Stmts, val_of};

verus! {

/// Oracle failures: property violations found during evaluation.
///
/// These are separate from path constraints, which record the branches
/// taken and drive exploration.
#[derive(Debug, Clone, PartialEq)]
pub enum OracleFailure {
    /// An assertion evaluated to false.
    AssertionFailed {
        /// The asserted boolean expression.
        expr: BoolExpr,
    },
    /// A variable was referenced before being bound.
    UndefinedVariable {
        /// The name of the undefined variable.
        name: String,
    },
}

/// Mathematical model of an oracle failure.
pub enum OracleFailureModel {
    AssertionFailed(BoolExprModel),
    UndefinedVariable(Seq<char>),
}

impl View for OracleFailure {
    type V = OracleFailureModel;

    open spec fn view(&self) -> OracleFailureModel {
        match self {
            OracleFailure::AssertionFailed { expr } => OracleFailureModel::AssertionFailed(expr@),
            OracleFailure::UndefinedVariable { name } => OracleFailureModel::UndefinedVariable(name@),
        }
    }
}

impl OracleFailure {
    /// A copy of this failure.
    pub fn duplicate(&self) -> (r: OracleFailure)
        ensures
            r@ == self@,
    {
        match self {
            OracleFailure::AssertionFailed { expr } => OracleFailure::AssertionFailed { expr: expr.duplicate() },
            OracleFailure::UndefinedVariable { name } => OracleFailure::UndefinedVariable { name: name.clone() },
        }
    }
}

// ---------------------------------------------------------------------------
// Specification of concolic evaluation
// ---------------------------------------------------------------------------

/// The models of a list of path constraints.
pub open spec fn constraints_view(v: Seq<(SymBoolExpr, bool)>) -> Seq<(SymBoolExprModel, bool)> {
    v.map_values(|p: (SymBoolExpr, bool)| (p.0@, p.1))
}

/// The models of a list of let constraints.
pub open spec fn lets_view(v: Seq<(SsaVar, SymExpr)>) -> Seq<(SsaVarModel, SymExprModel)> {
    v.map_values(|p: (SsaVar, SymExpr)| (p.0@, p.1@))
}

/// The models of a list of boolean expressions.
pub open spec fn bools_view(v: Seq<SymBoolExpr>) -> Seq<SymBoolExprModel> {
    v.map_values(|p: SymBoolExpr| p@)
}

/// The number of `let` definitions of `name` so far (0 for none).
pub open spec fn version_count(vers: Map<Seq<char>, usize>, name: Seq<char>) -> nat {
    if vers.contains_key(name) { vers[name] as nat } else { 0 }
}

/// The SSA variable that `name` currently denotes.
pub open spec fn ssa_var_of(name: Seq<char>, vers: Map<Seq<char>, usize>) -> SsaVarModel {
    if version_count(vers, name) > 0 {
        SsaVarModel { name, version: SsaVersion::Defined(vers[name]) }
    } else {
        SsaVarModel { name, version: SsaVersion::Input }
    }
}

/// The SSA form of `e` evaluated in `env`: variables take their current
/// versions; of a conditional, the branch that runs is put in SSA form and
/// the other is kept as parsed.
pub open spec fn sym_of(e: ExprModel, env: Map<Seq<char>, i64>, vers: Map<Seq<char>, usize>) -> SymExprModel
    decreases e,
{
    match e {
        ExprModel::Lit(n) => SymExprModel::Lit(n),
        ExprModel::Var(x) => SymExprModel::Var(ssa_var_of(x, vers)),
        ExprModel::Add(l, r) => SymExprModel::Add(
            Box::new(sym_of(*l, env, vers)),
            Box::new(sym_of(*r, env, vers)),
        ),
        ExprModel::Sub(l, r) => SymExprModel::Sub(
            Box::new(sym_of(*l, env, vers)),
            Box::new(sym_of(*r, env, vers)),
        ),
        ExprModel::If(c, t, f) => SymExprModel::If(
            Box::new(sym_bool_of(*c, env, vers)),
            if c.eval(env) == Eval::Val(true) {
                SymBranchesModel::ThenTaken(Box::new(sym_of(*t, env, vers)), *f)
            } else {
                SymBranchesModel::ElseTaken(*t, Box::new(sym_of(*f, env, vers)))
            },
        ),
    }
}

/// The SSA form of a boolean expression evaluated in `env`.
pub open spec fn sym_bool_of(c: BoolExprModel, env: Map<Seq<char>, i64>, vers: Map<Seq<char>, usize>) -> SymBoolExprModel
    decreases c,
{
    match c {
        BoolExprModel::Lit(b) => SymBoolExprModel::Lit(b),
        BoolExprModel::Le(l, r) => SymBoolExprModel::Le(
            Box::new(sym_of(*l, env, vers)),
            Box::new(sym_of(*r, env, vers)),
        ),
        BoolExprModel::Ge(l, r) => SymBoolExprModel::Ge(
            Box::new(sym_of(*l, env, vers)),
            Box::new(sym_of(*r, env, vers)),
        ),
        BoolExprModel::Eq(l, r) => SymBoolExprModel::Eq(
            Box::new(sym_of(*l, env, vers)),
            Box::new(sym_of(*r, env, vers)),
        ),
    }
}

/// The path constraints recorded while evaluating `e` in `env`, in order;
/// evaluation stops at the first undefined variable or overflow.
pub open spec fn trace_of(e: ExprModel, env: Map<Seq<char>, i64>, vers: Map<Seq<char>, usize>) -> Seq<(SymBoolExprModel, bool)>
    decreases e, 0nat,
{
    match e {
        ExprModel::Lit(_) => seq![],
        ExprModel::Var(_) => seq![],
        ExprModel::Add(l, r) => trace_of(*l, env, vers) + if l.eval(env) is Val {
            trace_of(*r, env, vers)
        } else {
            seq![]
        },
        ExprModel::Sub(l, r) => trace_of(*l, env, vers) + if l.eval(env) is Val {
            trace_of(*r, env, vers)
        } else {
            seq![]
        },
        ExprModel::If(c, t, f) => branch_trace(*c, env, vers) + match c.eval(env) {
            Eval::Val(true) => trace_of(*t, env, vers),
            Eval::Val(false) => trace_of(*f, env, vers),
            _ => seq![],
        },
    }
}

/// The path constraints recorded while evaluating the operands of `c`.
pub open spec fn assert_trace(c: BoolExprModel, env: Map<Seq<char>, i64>, vers: Map<Seq<char>, usize>) -> Seq<(SymBoolExprModel, bool)>
    decreases c, 0nat,
{
    match c {
        BoolExprModel::Lit(_) => seq![],
        BoolExprModel::Le(l, r) => trace_of(*l, env, vers) + if l.eval(env) is Val {
            trace_of(*r, env, vers)
        } else {
            seq![]
        },
        BoolExprModel::Ge(l, r) => trace_of(*l, env, vers) + if l.eval(env) is Val {
            trace_of(*r, env, vers)
        } else {
            seq![]
        },
        BoolExprModel::Eq(l, r) => trace_of(*l, env, vers) + if l.eval(env) is Val {
            trace_of(*r, env, vers)
        } else {
            seq![]
        },
    }
}

/// The path constraints recorded when `c` is a branch condition: those of
/// its operands, then `c` itself with the direction taken (unless `c` is a
/// literal or could not be evaluated).
pub open spec fn branch_trace(c: BoolExprModel, env: Map<Seq<char>, i64>, vers: Map<Seq<char>, usize>) -> Seq<(SymBoolExprModel, bool)>
    decreases c, 1nat,
{
    assert_trace(c, env, vers) + match c.eval(env) {
        Eval::Val(b) => if c is Lit {
            seq![]
        } else {
            seq![(sym_bool_of(c, env, vers), b)]
        },
        _ => seq![],
    }
}

/// Mathematical model of the state of a concolic run.
#[verifier::ext_equal]
pub struct StateModel {
    pub env: Map<Seq<char>, i64>,
    pub versions: Map<Seq<char>, usize>,
    pub path_constraints: Seq<(SymBoolExprModel, bool)>,
    pub let_constraints: Seq<(SsaVarModel, SymExprModel)>,
    pub passed_asserts: Seq<SymBoolExprModel>,
}

/// How a statement, or a run of statements, ended.
pub enum RunResult {
    /// Completed normally.
    Done,
    /// Stopped on an oracle failure.
    Failed(OracleFailureModel),
    /// Stopped on an arithmetic overflow.
    Overflow,
}

/// The state in which a run starts from `env`.
pub open spec fn initial(env: Map<Seq<char>, i64>) -> StateModel {
    StateModel {
        env,
        versions: Map::empty(),
        path_constraints: seq![],
        let_constraints: seq![],
        passed_asserts: seq![],
    }
}

/// The effect of executing one statement.
pub open spec fn step(st: StateModel, s: StmtModel) -> (StateModel, RunResult) {
    match s {
        StmtModel::Assert(c) => {
            let st1 = StateModel {
                path_constraints: st.path_constraints + assert_trace(c, st.env, st.versions),
                ..st
            };
            match c.eval(st.env) {
                Eval::Val(true) => (
                    StateModel {
                        passed_asserts: st1.passed_asserts.push(sym_bool_of(c, st.env, st.versions)),
                        ..st1
                    },
                    RunResult::Done,
                ),
                Eval::Val(false) => (st1, RunResult::Failed(OracleFailureModel::AssertionFailed(c))),
                Eval::Undefined(x) => (st1, RunResult::Failed(OracleFailureModel::UndefinedVariable(x))),
                Eval::Overflow => (st1, RunResult::Overflow),
            }
        },
        StmtModel::Let(name, e) => {
            let st1 = StateModel {
                path_constraints: st.path_constraints + trace_of(e, st.env, st.versions),
                ..st
            };
            match e.eval(st.env) {
                Eval::Val(v) => {
                    let n = version_count(st.versions, name) + 1;
                    (
                        StateModel {
                            env: st.env.insert(name, v),
                            versions: st.versions.insert(name, n as usize),
                            let_constraints: st1.let_constraints.push(
                                (
                                    SsaVarModel { name, version: SsaVersion::Defined(n as usize) },
                                    sym_of(e, st.env, st.versions),
                                ),
                            ),
                            ..st1
                        },
                        RunResult::Done,
                    )
                },
                Eval::Undefined(x) => (st1, RunResult::Failed(OracleFailureModel::UndefinedVariable(x))),
                Eval::Overflow => (st1, RunResult::Overflow),
            }
        },
    }
}

/// The effect of executing statements in order, stopping at the first that
/// does not complete.
pub open spec fn run(st: StateModel, stmts: Seq<StmtModel>) -> (StateModel, RunResult)
    decreases stmts.len(),
{
    if stmts.len() == 0 {
        (st, RunResult::Done)
    } else {
        let (st1, r) = step(st, stmts[0]);
        if r is Done {
            run(st1, stmts.drop_first())
        } else {
            (st1, r)
        }
    }
}

/// Every version count leaves room for `n` more definitions.
pub open spec fn version_headroom(vers: Map<Seq<char>, usize>, n: nat) -> bool {
    forall|k: Seq<char>| vers.contains_key(k) ==> vers[k] + n <= usize::MAX
}

// ---------------------------------------------------------------------------
// Laws
// ---------------------------------------------------------------------------

/// The SSA form of an expression, produced in any environment, evaluates in
/// every environment as the expression itself does: variables are read by
/// their base names, and a conditional's branch is selected anew, the one
/// not taken when the form was produced being kept as parsed.
pub proof fn lemma_sym_of_eval(e: ExprModel, env0: Map<Seq<char>, i64>, vers: Map<Seq<char>, usize>, env: Map<Seq<char>, i64>)
    ensures
        sym_of(e, env0, vers).eval(env) == e.eval(env),
    decreases e,
{
    match e {
        ExprModel::Add(l, r) | ExprModel::Sub(l, r) => {
            lemma_sym_of_eval(*l, env0, vers, env);
            lemma_sym_of_eval(*r, env0, vers, env);
        },
        ExprModel::If(c, t, f) => {
            lemma_sym_bool_of_eval(*c, env0, vers, env);
            lemma_sym_of_eval(*t, env0, vers, env);
            lemma_sym_of_eval(*f, env0, vers, env);
        },
        _ => {},
    }
}

/// The SSA form of a condition, produced in any environment, evaluates in
/// every environment as the condition itself does.
pub proof fn lemma_sym_bool_of_eval(c: BoolExprModel, env0: Map<Seq<char>, i64>, vers: Map<Seq<char>, usize>, env: Map<Seq<char>, i64>)
    ensures
        sym_bool_of(c, env0, vers).eval(env) == c.eval(env),
    decreases c,
{
    match c {
        BoolExprModel::Le(l, r) | BoolExprModel::Ge(l, r) | BoolExprModel::Eq(l, r) => {
            lemma_sym_of_eval(*l, env0, vers, env);
            lemma_sym_of_eval(*r, env0, vers, env);
        },
        _ => {},
    }
}

/// The SSA form of an expression, evaluated in the environment in which it
/// was produced, gives the concrete value.
pub proof fn lemma_sym_of_value(e: ExprModel, env: Map<Seq<char>, i64>, vers: Map<Seq<char>, usize>)
    requires
        e.eval(env) is Val,
    ensures
        sym_of(e, env, vers).value(env) == Some(val_of(e.eval(env))),
    decreases e,
{
    match e {
        ExprModel::Lit(_) => {},
        ExprModel::Var(_) => {},
        ExprModel::Add(l, r) => {
            lemma_sym_of_value(*l, env, vers);
            lemma_sym_of_value(*r, env, vers);
        },
        ExprModel::Sub(l, r) => {
            lemma_sym_of_value(*l, env, vers);
            lemma_sym_of_value(*r, env, vers);
        },
        ExprModel::If(c, t, f) => {
            lemma_sym_bool_of_value(*c, env, vers);
            if c.eval(env) == Eval::Val(true) {
                lemma_sym_of_value(*t, env, vers);
            } else {
                lemma_sym_of_value(*f, env, vers);
            }
        },
    }
}

/// The SSA form of a boolean expression, evaluated in the environment in
/// which it was produced, gives the concrete truth value.
pub proof fn lemma_sym_bool_of_value(c: BoolExprModel, env: Map<Seq<char>, i64>, vers: Map<Seq<char>, usize>)
    requires
        c.eval(env) is Val,
    ensures
        sym_bool_of(c, env, vers).value(env) == Some(c.eval(env)->Val_0),
    decreases c,
{
    match c {
        BoolExprModel::Lit(_) => {},
        BoolExprModel::Le(l, r) => {
            lemma_sym_of_value(*l, env, vers);
            lemma_sym_of_value(*r, env, vers);
        },
        BoolExprModel::Ge(l, r) => {
            lemma_sym_of_value(*l, env, vers);
            lemma_sym_of_value(*r, env, vers);
        },
        BoolExprModel::Eq(l, r) => {
            lemma_sym_of_value(*l, env, vers);
            lemma_sym_of_value(*r, env, vers);
        },
    }
}

/// Every path constraint recorded while evaluating an expression holds, in
/// the direction recorded, in the environment of the evaluation.
pub proof fn lemma_trace_holds(e: ExprModel, env: Map<Seq<char>, i64>, vers: Map<Seq<char>, usize>)
    ensures
        forall|i: int| 0 <= i < trace_of(e, env, vers).len() ==>
            (#[trigger] trace_of(e, env, vers)[i]).0.value(env) == Some(trace_of(e, env, vers)[i].1),
    decreases e,
{
    match e {
        ExprModel::Lit(_) => {},
        ExprModel::Var(_) => {},
        ExprModel::Add(l, r) => {
            lemma_trace_holds(*l, env, vers);
            lemma_trace_holds(*r, env, vers);
            lemma_concat_holds(trace_of(*l, env, vers), if l.eval(env) is Val { trace_of(*r, env, vers) } else { seq![] }, env);
        },
        ExprModel::Sub(l, r) => {
            lemma_trace_holds(*l, env, vers);
            lemma_trace_holds(*r, env, vers);
            lemma_concat_holds(trace_of(*l, env, vers), if l.eval(env) is Val { trace_of(*r, env, vers) } else { seq![] }, env);
        },
        ExprModel::If(c, t, f) => {
            lemma_branch_trace_holds(*c, env, vers);
            lemma_trace_holds(*t, env, vers);
            lemma_trace_holds(*f, env, vers);
            lemma_concat_holds(
                branch_trace(*c, env, vers),
                match c.eval(env) {
                    Eval::Val(true) => trace_of(*t, env, vers),
                    Eval::Val(false) => trace_of(*f, env, vers),
                    _ => seq![],
                },
                env,
            );
        },
    }
}

/// Every path constraint recorded while evaluating a condition holds, in
/// the direction recorded, in the environment of the evaluation.
pub proof fn lemma_branch_trace_holds(c: BoolExprModel, env: Map<Seq<char>, i64>, vers: Map<Seq<char>, usize>)
    ensures
        forall|i: int| 0 <= i < assert_trace(c, env, vers).len() ==>
            (#[trigger] assert_trace(c, env, vers)[i]).0.value(env) == Some(assert_trace(c, env, vers)[i].1),
        forall|i: int| 0 <= i < branch_trace(c, env, vers).len() ==>
            (#[trigger] branch_trace(c, env, vers)[i]).0.value(env) == Some(branch_trace(c, env, vers)[i].1),
    decreases c,
{
    match c {
        BoolExprModel::Lit(_) => {},
        BoolExprModel::Le(l, r) | BoolExprModel::Ge(l, r) | BoolExprModel::Eq(l, r) => {
            lemma_trace_holds(*l, env, vers);
            lemma_trace_holds(*r, env, vers);
            lemma_concat_holds(trace_of(*l, env, vers), if l.eval(env) is Val { trace_of(*r, env, vers) } else { seq![] }, env);
        },
    }
    let tail = match c.eval(env) {
        Eval::Val(b) => if c is Lit { seq![] } else { seq![(sym_bool_of(c, env, vers), b)] },
        _ => seq![],
    };
    if c.eval(env) is Val {
        lemma_sym_bool_of_value(c, env, vers);
    }
    lemma_concat_holds(assert_trace(c, env, vers), tail, env);
}

/// Whether every constraint of `s` holds in `env` in its recorded direction.
pub open spec fn all_hold(s: Seq<(SymBoolExprModel, bool)>, env: Map<Seq<char>, i64>) -> bool {
    forall|i: int| 0 <= i < s.len() ==> (#[trigger] s[i]).0.value(env) == Some(s[i].1)
}

proof fn lemma_concat_holds(a: Seq<(SymBoolExprModel, bool)>, b: Seq<(SymBoolExprModel, bool)>, env: Map<Seq<char>, i64>)
    requires
        all_hold(a, env),
        all_hold(b, env),
    ensures
        all_hold(a + b, env),
{
    assert forall|i: int| 0 <= i < (a + b).len() implies (#[trigger] (a + b)[i]).0.value(env) == Some((a + b)[i].1) by {
        if i < a.len() {
            assert((a + b)[i] == a[i]);
        } else {
            assert((a + b)[i] == b[i - a.len()]);
        }
    }
}

} // verus!

verus! {

// ---------------------------------------------------------------------------
// Execution
// ---------------------------------------------------------------------------

/// Result of executing a sequence of statements.
#[derive(Debug)]
pub struct ExecutionTrace {
    /// Final environment (includes let-bound variables).
    pub env: Env,
    /// Path constraints with the direction taken.
    pub path_constraints: Vec<(SymBoolExpr, bool)>,
    /// Let binding constraints in SSA form.
    pub let_constraints: Vec<(SsaVar, SymExpr)>,
    /// Assertions that passed, in SSA form.
    pub passed_asserts: Vec<SymBoolExpr>,
    /// `Ok` if every statement completed, else the failure that stopped the run.
    pub result: Result<(), OracleFailure>,
}

/// Whether a trace records the state and outcome of a run.
pub open spec fn trace_records(t: ExecutionTrace, st: StateModel, r: RunResult) -> bool {
    &&& t.env@ == st.env
    &&& constraints_view(t.path_constraints@) == st.path_constraints
    &&& lets_view(t.let_constraints@) == st.let_constraints
    &&& bools_view(t.passed_asserts@) == st.passed_asserts
    &&& match t.result {
        Ok(()) => r is Done,
        Err(f) => r == RunResult::Failed(f@),
    }
}

/// Error of evaluation with checked arithmetic.
pub(crate) enum EvalError {
    Failure(OracleFailure),
    Overflow,
}

/// Whether an evaluation result matches the outcome `e` of the model.
pub(crate) open spec fn matches_outcome<T>(r: Result<T, EvalError>, e: Eval<T>) -> bool {
    match r {
        Ok(v) => e == Eval::Val(v),
        Err(EvalError::Failure(f)) => e matches Eval::Undefined(x) && f@ == OracleFailureModel::UndefinedVariable(x),
        Err(EvalError::Overflow) => e is Overflow,
    }
}

/// Whether a statement result matches the outcome `r` of the model.
pub(crate) open spec fn matches_run(res: Result<(), EvalError>, r: RunResult) -> bool {
    match res {
        Ok(()) => r is Done,
        Err(EvalError::Failure(f)) => r == RunResult::Failed(f@),
        Err(EvalError::Overflow) => r is Overflow,
    }
}

/// State of a concolic run, one statement at a time.
#[derive(Debug, Clone)]
pub struct ConcolicState {
    /// Concrete values of the variables.
    pub env: Env,
    /// Conditions of the branches met, with the direction taken.
    pub path_constraints: Vec<(SymBoolExpr, bool)>,
    /// Let binding constraints in SSA form.
    pub let_constraints: Vec<(SsaVar, SymExpr)>,
    /// Assertions that passed, in SSA form.
    pub passed_asserts: Vec<SymBoolExpr>,
    /// Number of let definitions of each name so far.
    pub versions: NameMap<usize>,
}

impl ConcolicState {
    /// Number of let definitions of each name so far.
    pub open spec fn version_map(self) -> Map<Seq<char>, usize> {
        self.versions@
    }
}

impl View for ConcolicState {
    type V = StateModel;

    open spec fn view(&self) -> StateModel {
        StateModel {
            env: self.env@,
            versions: self.version_map(),
            path_constraints: constraints_view(self.path_constraints@),
            let_constraints: lets_view(self.let_constraints@),
            passed_asserts: bools_view(self.passed_asserts@),
        }
    }
}

impl ConcolicState {
    /// A state that starts from `env`, with nothing recorded yet.
    pub fn new(env: Env) -> (r: ConcolicState)
        ensures
            r@ == initial(env@),
    {
        let r = ConcolicState {
            env,
            path_constraints: Vec::new(),
            let_constraints: Vec::new(),
            passed_asserts: Vec::new(),
            versions: NameMap::new(),
        };
        assert(r@ =~= initial(env@));
        r
    }

    /// The SSA variable that `name` currently denotes.
    fn current_ssa_var(&self, name: &String) -> (r: SsaVar)
        ensures
            r@ == ssa_var_of(name@, self.version_map()),
    {
        match self.versions.lookup(name) {
            Some(count) => {
                if *count > 0 {
                    SsaVar { name: name.clone(), version: SsaVersion::Defined(*count) }
                } else {
                    SsaVar { name: name.clone(), version: SsaVersion::Input }
                }
            },
            None => SsaVar { name: name.clone(), version: SsaVersion::Input },
        }
    }

    /// Allocates the next version of `name`.
    fn next_ssa_var(&mut self, name: &String) -> (r: SsaVar)
        requires
            version_count(old(self).version_map(), name@) < usize::MAX,
        ensures
            final(self).version_map() == old(self).version_map().insert(
                name@,
                (version_count(old(self).version_map(), name@) + 1) as usize,
            ),
            r@ == (SsaVarModel {
                name: name@,
                version: SsaVersion::Defined((version_count(old(self).version_map(), name@) + 1) as usize),
            }),
            final(self).env == old(self).env,
            final(self).path_constraints == old(self).path_constraints,
            final(self).let_constraints == old(self).let_constraints,
            final(self).passed_asserts == old(self).passed_asserts,
    {
        let count: usize = match self.versions.lookup(name) {
            Some(c) => *c,
            None => 0,
        };
        let next = count + 1;
        self.versions.insert(name.clone(), next);
        SsaVar { name: name.clone(), version: SsaVersion::Defined(next) }
    }

    /// Evaluates with checked arithmetic, recording path constraints.
    #[verifier::rlimit(50)]
    pub(crate) fn eval_checked(&mut self, expr: &Expr) -> (r: Result<(i64, SymExpr), EvalError>)
        ensures
            final(self).env == old(self).env,
            final(self).versions == old(self).versions,
            final(self).let_constraints == old(self).let_constraints,
            final(self).passed_asserts == old(self).passed_asserts,
            constraints_view(final(self).path_constraints@) == constraints_view(old(self).path_constraints@)
                + trace_of(expr@, old(self).env@, old(self).version_map()),
            matches_outcome(
                match r {
                    Ok((v, _)) => Ok(v),
                    Err(e) => Err(e),
                },
                expr@.eval(old(self).env@),
            ),
            r matches Ok((_, s)) ==> s@ == sym_of(expr@, old(self).env@, old(self).version_map()),
        decreases expr,
    {
        let ghost env = self.env@;
        let ghost vers = self.version_map();
        let ghost pc0 = constraints_view(self.path_constraints@);
        match expr {
            Expr::Lit(n) => {
                assert(constraints_view(self.path_constraints@) =~= pc0 + trace_of(expr@, env, vers));
                Ok((*n, SymExpr::Lit(*n)))
            },
            Expr::Var(name) => {
                assert(constraints_view(self.path_constraints@) =~= pc0 + trace_of(expr@, env, vers));
                match self.env.lookup(name) {
                    Some(v) => {
                        let val = *v;
                        let s = self.current_ssa_var(name);
                        Ok((val, SymExpr::Var(s)))
                    },
                    None => Err(EvalError::Failure(OracleFailure::UndefinedVariable { name: name.clone() })),
                }
            },
            Expr::Add(l, r) => {
                let lr = self.eval_checked(l);
                let (lv, ls) = match lr {
                    Ok(p) => p,
                    Err(e) => {
                        assert(constraints_view(self.path_constraints@) =~= pc0 + trace_of(expr@, env, vers));
                        return Err(e);
                    },
                };
                let rr = self.eval_checked(r);
                assert(constraints_view(self.path_constraints@) =~= pc0 + trace_of(expr@, env, vers));
                let (rv, rs) = match rr {
                    Ok(p) => p,
                    Err(e) => return Err(e),
                };
                match lv.checked_add(rv) {
                    Some(v) => Ok((v, SymExpr::Add(Box::new(ls), Box::new(rs)))),
                    None => Err(EvalError::Overflow),
                }
            },
            Expr::Sub(l, r) => {
                let lr = self.eval_checked(l);
                let (lv, ls) = match lr {
                    Ok(p) => p,
                    Err(e) => {
                        assert(constraints_view(self.path_constraints@) =~= pc0 + trace_of(expr@, env, vers));
                        return Err(e);
                    },
                };
                let rr = self.eval_checked(r);
                assert(constraints_view(self.path_constraints@) =~= pc0 + trace_of(expr@, env, vers));
                let (rv, rs) = match rr {
                    Ok(p) => p,
                    Err(e) => return Err(e),
                };
                match lv.checked_sub(rv) {
                    Some(v) => Ok((v, SymExpr::Sub(Box::new(ls), Box::new(rs)))),
                    None => Err(EvalError::Overflow),
                }
            },
            Expr::If(cond, branches) => {
                let cr = self.eval_bool_checked(cond);
                let (cv, cs) = match cr {
                    Ok(p) => p,
                    Err(e) => {
                        assert(constraints_view(self.path_constraints@) =~= pc0 + trace_of(expr@, env, vers));
                        return Err(e);
                    },
                };
                if cv {
                    let tr = self.eval_checked(&branches.then_);
                    assert(constraints_view(self.path_constraints@) =~= pc0 + trace_of(expr@, env, vers));
                    let (tv, ts) = match tr {
                        Ok(p) => p,
                        Err(e) => return Err(e),
                    };
                    Ok((
                        tv,
                        SymExpr::If(
                            Box::new(cs),
                            SymIfBranches::ThenTaken {
                                then_: Box::new(ts),
                                else_: Box::new(branches.else_.duplicate()),
                            },
                        ),
                    ))
                } else {
                    let fr = self.eval_checked(&branches.else_);
                    assert(constraints_view(self.path_constraints@) =~= pc0 + trace_of(expr@, env, vers));
                    let (fv, fs) = match fr {
                        Ok(p) => p,
                        Err(e) => return Err(e),
                    };
                    Ok((
                        fv,
                        SymExpr::If(
                            Box::new(cs),
                            SymIfBranches::ElseTaken {
                                then_: Box::new(branches.then_.duplicate()),
                                else_: Box::new(fs),
                            },
                        ),
                    ))
                }
            },
        }
    }

    /// Evaluates a branch condition with checked arithmetic, recording it.
    pub(crate) fn eval_bool_checked(&mut self, expr: &BoolExpr) -> (r: Result<(bool, SymBoolExpr), EvalError>)
        ensures
            final(self).env == old(self).env,
            final(self).versions == old(self).versions,
            final(self).let_constraints == old(self).let_constraints,
            final(self).passed_asserts == old(self).passed_asserts,
            constraints_view(final(self).path_constraints@) == constraints_view(old(self).path_constraints@)
                + branch_trace(expr@, old(self).env@, old(self).version_map()),
            matches_outcome(
                match r {
                    Ok((v, _)) => Ok(v),
                    Err(e) => Err(e),
                },
                expr@.eval(old(self).env@),
            ),
            r matches Ok((_, s)) ==> s@ == sym_bool_of(expr@, old(self).env@, old(self).version_map()),
        decreases expr, 1nat,
    {
        let ghost env = self.env@;
        let ghost vers = self.version_map();
        let ghost pc0 = constraints_view(self.path_constraints@);
        let ar = self.eval_assert_checked(expr);
        let (result, ssa) = match ar {
            Ok(p) => p,
            Err(e) => {
                assert(constraints_view(self.path_constraints@) =~= pc0 + branch_trace(expr@, env, vers));
                return Err(e);
            },
        };
        let ghost mid = self.path_constraints@;
        assert(constraints_view(mid) == pc0 + assert_trace(expr@, env, vers));
        assert(expr@.eval(env) == Eval::Val(result));
        if !matches!(expr, BoolExpr::Lit(_)) {
            let item = (ssa.duplicate(), result);
            self.path_constraints.push(item);
            assert(self.path_constraints@ == mid.push(item));
            assert(constraints_view(self.path_constraints@) =~= constraints_view(mid).push((ssa@, result)));
            assert(branch_trace(expr@, env, vers) == assert_trace(expr@, env, vers) + seq![(sym_bool_of(expr@, env, vers), result)]);
        } else {
            assert(branch_trace(expr@, env, vers) =~= assert_trace(expr@, env, vers));
        }
        assert(constraints_view(self.path_constraints@) =~= pc0 + branch_trace(expr@, env, vers));
        Ok((result, ssa))
    }

    /// Evaluates the operands of a condition with checked arithmetic,
    /// without recording the condition itself.
    pub(crate) fn eval_assert_checked(&mut self, expr: &BoolExpr) -> (r: Result<(bool, SymBoolExpr), EvalError>)
        ensures
            final(self).env == old(self).env,
            final(self).versions == old(self).versions,
            final(self).let_constraints == old(self).let_constraints,
            final(self).passed_asserts == old(self).passed_asserts,
            constraints_view(final(self).path_constraints@) == constraints_view(old(self).path_constraints@)
                + assert_trace(expr@, old(self).env@, old(self).version_map()),
            matches_outcome(
                match r {
                    Ok((v, _)) => Ok(v),
                    Err(e) => Err(e),
                },
                expr@.eval(old(self).env@),
            ),
            r matches Ok((_, s)) ==> s@ == sym_bool_of(expr@, old(self).env@, old(self).version_map()),
        decreases expr, 0nat,
    {
        let ghost env = self.env@;
        let ghost vers = self.version_map();
        let ghost pc0 = constraints_view(self.path_constraints@);
        match expr {
            BoolExpr::Lit(b) => {
                assert(constraints_view(self.path_constraints@) =~= pc0 + assert_trace(expr@, env, vers));
                Ok((*b, SymBoolExpr::Lit(*b)))
            },
            BoolExpr::Le(l, r) | BoolExpr::Ge(l, r) | BoolExpr::Eq(l, r) => {
                let lr = self.eval_checked(l);
                let (lv, ls) = match lr {
                    Ok(p) => p,
                    Err(e) => {
                        assert(constraints_view(self.path_constraints@) =~= pc0 + assert_trace(expr@, env, vers));
                        return Err(e);
                    },
                };
                let rr = self.eval_checked(r);
                assert(constraints_view(self.path_constraints@) =~= pc0 + assert_trace(expr@, env, vers));
                let (rv, rs) = match rr {
                    Ok(p) => p,
                    Err(e) => return Err(e),
                };
                match expr {
                    BoolExpr::Le(_, _) => Ok((lv <= rv, SymBoolExpr::Le(Box::new(ls), Box::new(rs)))),
                    BoolExpr::Ge(_, _) => Ok((lv >= rv, SymBoolExpr::Ge(Box::new(ls), Box::new(rs)))),
                    _ => Ok((lv == rv, SymBoolExpr::Eq(Box::new(ls), Box::new(rs)))),
                }
            },
        }
    }
}

} // verus!

verus! {

/// Taking one step leaves room for one fewer definition.
pub proof fn lemma_step_headroom(st: StateModel, s: StmtModel, n: nat)
    requires
        version_headroom(st.versions, n),
        1 <= n <= usize::MAX,
    ensures
        version_headroom(step(st, s).0.versions, (n - 1) as nat),
{
}

/// Running a non-empty sequence is taking its first step, then running the rest.
proof fn lemma_run_unfold(st: StateModel, stmts: Seq<StmtModel>, i: int)
    requires
        0 <= i < stmts.len(),
    ensures
        run(st, stmts.skip(i)) == ({
            let (st1, r) = step(st, stmts[i]);
            if r is Done { run(st1, stmts.skip(i + 1)) } else { (st1, r) }
        }),
{
    assert(stmts.skip(i)[0] == stmts[i]);
    assert(stmts.skip(i).drop_first() =~= stmts.skip(i + 1));
}

impl ConcolicState {
    /// Evaluates an integer expression, returning its value and its SSA
    /// form, and records the conditions of the branches taken.
    ///
    /// Of a conditional, only the branch that runs is put in SSA form; the
    /// other is kept as parsed.
    pub fn eval(&mut self, expr: &Expr) -> (r: Result<(i64, SymExpr), OracleFailure>)
        requires
            !(expr@.eval(old(self).env@) is Overflow),
        ensures
            final(self).env == old(self).env,
            final(self).versions == old(self).versions,
            final(self).let_constraints == old(self).let_constraints,
            final(self).passed_asserts == old(self).passed_asserts,
            final(self)@.path_constraints == old(self)@.path_constraints
                + trace_of(expr@, old(self).env@, old(self).version_map()),
            match r {
                Ok((v, s)) => expr@.eval(old(self).env@) == Eval::Val(v)
                    && s@ == sym_of(expr@, old(self).env@, old(self).version_map()),
                Err(f) => expr@.eval(old(self).env@) matches Eval::Undefined(x)
                    && f@ == OracleFailureModel::UndefinedVariable(x),
            },
    {
        match self.eval_checked(expr) {
            Ok(p) => Ok(p),
            Err(EvalError::Failure(f)) => Err(f),
            Err(EvalError::Overflow) => {
                assert(false);
                Err(OracleFailure::UndefinedVariable { name: String::new() })
            },
        }
    }

    /// Evaluates a branch condition, returning its value and its SSA form;
    /// records the conditions met in its operands and then the condition
    /// itself (unless it is a literal).
    pub fn eval_bool(&mut self, expr: &BoolExpr) -> (r: Result<(bool, SymBoolExpr), OracleFailure>)
        requires
            !(expr@.eval(old(self).env@) is Overflow),
        ensures
            final(self).env == old(self).env,
            final(self).versions == old(self).versions,
            final(self).let_constraints == old(self).let_constraints,
            final(self).passed_asserts == old(self).passed_asserts,
            final(self)@.path_constraints == old(self)@.path_constraints
                + branch_trace(expr@, old(self).env@, old(self).version_map()),
            match r {
                Ok((v, s)) => expr@.eval(old(self).env@) == Eval::Val(v)
                    && s@ == sym_bool_of(expr@, old(self).env@, old(self).version_map()),
                Err(f) => expr@.eval(old(self).env@) matches Eval::Undefined(x)
                    && f@ == OracleFailureModel::UndefinedVariable(x),
            },
    {
        match self.eval_bool_checked(expr) {
            Ok(p) => Ok(p),
            Err(EvalError::Failure(f)) => Err(f),
            Err(EvalError::Overflow) => {
                assert(false);
                Err(OracleFailure::UndefinedVariable { name: String::new() })
            },
        }
    }

    /// Evaluates an assertion (property) without recording it as a path
    /// constraint; conditions met in its operands are still recorded.
    pub fn eval_assert(&mut self, expr: &BoolExpr) -> (r: Result<(bool, SymBoolExpr), OracleFailure>)
        requires
            !(expr@.eval(old(self).env@) is Overflow),
        ensures
            final(self).env == old(self).env,
            final(self).versions == old(self).versions,
            final(self).let_constraints == old(self).let_constraints,
            final(self).passed_asserts == old(self).passed_asserts,
            final(self)@.path_constraints == old(self)@.path_constraints
                + assert_trace(expr@, old(self).env@, old(self).version_map()),
            match r {
                Ok((v, s)) => expr@.eval(old(self).env@) == Eval::Val(v)
                    && s@ == sym_bool_of(expr@, old(self).env@, old(self).version_map()),
                Err(f) => expr@.eval(old(self).env@) matches Eval::Undefined(x)
                    && f@ == OracleFailureModel::UndefinedVariable(x),
            },
    {
        match self.eval_assert_checked(expr) {
            Ok(p) => Ok(p),
            Err(EvalError::Failure(f)) => Err(f),
            Err(EvalError::Overflow) => {
                assert(false);
                Err(OracleFailure::UndefinedVariable { name: String::new() })
            },
        }
    }

    /// Executes one statement with checked arithmetic.
    pub(crate) fn exec_stmt_checked(&mut self, stmt: &Stmt) -> (r: Result<(), EvalError>)
        requires
            version_headroom(old(self).version_map(), 1),
        ensures
            final(self)@ == step(old(self)@, stmt@).0,
            matches_run(r, step(old(self)@, stmt@).1),
    {
        let ghost st = self@;
        match stmt {
            Stmt::Assert { expr } => {
                let ar = self.eval_assert_checked(expr);
                let (result, ssa) = match ar {
                    Ok(p) => p,
                    Err(e) => {
                        assert(self@ =~= step(st, stmt@).0);
                        return Err(e);
                    },
                };
                if result {
                    let ghost before = self.passed_asserts@;
                    self.passed_asserts.push(ssa);
                    assert(bools_view(self.passed_asserts@) =~= bools_view(before).push(ssa@));
                    assert(self@ =~= step(st, stmt@).0);
                    Ok(())
                } else {
                    assert(self@ =~= step(st, stmt@).0);
                    Err(EvalError::Failure(OracleFailure::AssertionFailed { expr: expr.duplicate() }))
                }
            },
            Stmt::Let { name, expr } => {
                let er = self.eval_checked(expr);
                let (value, ssa_expr) = match er {
                    Ok(p) => p,
                    Err(e) => {
                        assert(self@ =~= step(st, stmt@).0);
                        return Err(e);
                    },
                };
                self.env.insert(name.clone(), value);
                let ssa_var = self.next_ssa_var(name);
                let ghost before = self.let_constraints@;
                self.let_constraints.push((ssa_var, ssa_expr));
                assert(lets_view(self.let_constraints@) =~= lets_view(before).push((ssa_var@, ssa_expr@)));
                assert(self@ =~= step(st, stmt@).0);
                Ok(())
            },
        }
    }

    /// Executes one statement: an assertion records its SSA form when it
    /// passes and fails with `AssertionFailed` otherwise; a let binding
    /// updates the environment and records `name@n == expr` for the next
    /// version `n` of `name`.
    pub fn exec_stmt(&mut self, stmt: &Stmt) -> (r: Result<(), OracleFailure>)
        requires
            version_headroom(old(self).version_map(), 1),
            !(step(old(self)@, stmt@).1 is Overflow),
        ensures
            final(self)@ == step(old(self)@, stmt@).0,
            match r {
                Ok(()) => step(old(self)@, stmt@).1 is Done,
                Err(f) => step(old(self)@, stmt@).1 == RunResult::Failed(f@),
            },
    {
        match self.exec_stmt_checked(stmt) {
            Ok(()) => Ok(()),
            Err(EvalError::Failure(f)) => Err(f),
            Err(EvalError::Overflow) => {
                assert(false);
                Ok(())
            },
        }
    }

    /// Executes statements in order with checked arithmetic.
    pub(crate) fn exec_stmts_checked(&mut self, stmts: &Stmts) -> (r: Result<(), EvalError>)
        requires
            version_headroom(old(self).version_map(), stmts@.len()),
        ensures
            final(self)@ == run(old(self)@, stmts@).0,
            matches_run(r, run(old(self)@, stmts@).1),
    {
        let ghost all = stmts@;
        let ghost st0 = self@;
        let mut i: usize = 0;
        assert(all.skip(0) =~= all);
        while i < stmts.0.len()
            invariant
                i <= stmts.0@.len(),
                all == stmts@,
                st0 == old(self)@,
                all.len() == stmts.0@.len(),
                run(st0, all) == run(self@, all.skip(i as int)),
                version_headroom(self.version_map(), (all.len() - i) as nat),
            decreases stmts.0.len() - i,
        {
            proof {
                lemma_run_unfold(self@, all, i as int);
                lemma_step_headroom(self@, all[i as int], (all.len() - i) as nat);
            }
            let ghost before = self@;
            assert(stmts.0@[i as int]@ == all[i as int]);
            let r = self.exec_stmt_checked(&stmts.0[i]);
            match r {
                Ok(()) => {},
                Err(e) => {
                    assert(run(st0, all) == step(before, all[i as int]));
                    return Err(e);
                },
            }
            i = i + 1;
        }
        assert(all.skip(i as int) =~= Seq::<StmtModel>::empty());
        assert(run(self@, all.skip(i as int)) == (self@, RunResult::Done));
        Ok(())
    }

    /// Executes statements in order, stopping at the first oracle failure.
    pub fn exec_stmts(&mut self, stmts: &Stmts) -> (r: Result<(), OracleFailure>)
        requires
            version_headroom(old(self).version_map(), stmts@.len()),
            !(run(old(self)@, stmts@).1 is Overflow),
        ensures
            final(self)@ == run(old(self)@, stmts@).0,
            match r {
                Ok(()) => run(old(self)@, stmts@).1 is Done,
                Err(f) => run(old(self)@, stmts@).1 == RunResult::Failed(f@),
            },
    {
        match self.exec_stmts_checked(stmts) {
            Ok(()) => Ok(()),
            Err(EvalError::Failure(f)) => Err(f),
            Err(EvalError::Overflow) => {
                assert(false);
                Ok(())
            },
        }
    }
}

/// Executes statements from `env` with checked arithmetic; `None` when an
/// arithmetic overflow stops the run.
pub fn exec_checked(stmts: &Stmts, env: Env) -> (r: Option<ExecutionTrace>)
    ensures
        match r {
            Some(t) => !(run(initial(env@), stmts@).1 is Overflow)
                && trace_records(t, run(initial(env@), stmts@).0, run(initial(env@), stmts@).1),
            None => run(initial(env@), stmts@).1 is Overflow,
        },
{
    let mut state = ConcolicState::new(env);
    let result = state.exec_stmts_checked(stmts);
    let result = match result {
        Ok(()) => Ok(()),
        Err(EvalError::Failure(f)) => Err(f),
        Err(EvalError::Overflow) => {
            return None;
        },
    };
    Some(ExecutionTrace {
        env: state.env,
        path_constraints: state.path_constraints,
        let_constraints: state.let_constraints,
        passed_asserts: state.passed_asserts,
        result,
    })
}

/// Executes statements from `env` and returns the execution trace.
pub fn exec(stmts: &Stmts, env: Env) -> (t: ExecutionTrace)
    requires
        !(run(initial(env@), stmts@).1 is Overflow),
    ensures
        trace_records(t, run(initial(env@), stmts@).0, run(initial(env@), stmts@).1),
{
    match exec_checked(stmts, env) {
        Some(t) => t,
        None => {
            assert(false);
            ExecutionTrace {
                env: NameMap::new(),
                path_constraints: Vec::new(),
                let_constraints: Vec::new(),
                passed_asserts: Vec::new(),
                result: Ok(()),
            }
        },
    }
}

} // verus!
