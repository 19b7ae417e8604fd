//! Expressions, statements and their mathematical models.
use vstd::prelude::*;
use crate::env::Env;
use crate::text::strings_view;

verus! {

/// Stage of parsed expressions.
#[derive(Debug, Clone, Copy, PartialEq, Eq)]
pub struct Ast;

/// Stage of expressions whose variables are in SSA form.
#[derive(Debug, Clone, Copy, PartialEq, Eq)]
pub struct Symbolic;

/// The types that make up the expressions of a stage.
pub trait Stage {
    /// Variable references.
    type Var;
    /// The branches of a conditional.
    type IfBranches;
    /// Integer expressions.
    type Expr;
    /// Boolean expressions.
    type BoolExpr;
}

impl Stage for Ast {
    type Var = String;
    type IfBranches = AstIfBranches;
    type Expr = Expr;
    type BoolExpr = BoolExpr;
}

impl Stage for Symbolic {
    type Var = SsaVar;
    type IfBranches = SymIfBranches;
    type Expr = SymExpr;
    type BoolExpr = SymBoolExpr;
}

/// Branches of a parsed conditional.
#[derive(Debug, Clone, PartialEq)]
pub struct AstIfBranches {
    pub then_: Box<Expr>,
    pub else_: Box<Expr>,
}

/// Branches of a conditional in SSA form: the branch that ran is in SSA
/// form, the other is kept as parsed.
#[derive(Debug, Clone, PartialEq)]
pub enum SymIfBranches {
    /// The then branch ran.
    ThenTaken { then_: Box<SymExpr>, else_: Box<Expr> },
    /// The else branch ran.
    ElseTaken { then_: Box<Expr>, else_: Box<SymExpr> },
}

/// SSA version of a variable.
#[derive(Debug, Clone, Copy, PartialEq, Eq, Hash, Structural)]
pub enum SsaVersion {
    /// An input variable (bound in the initial environment).
    Input,
    /// The n-th definition by a `let` statement (n >= 1).
    Defined(usize),
}

/// A variable in SSA form: `(name, version)`.
#[derive(Debug, Clone, PartialEq, Eq, Hash)]
pub struct SsaVar {
    pub name: String,
    pub version: SsaVersion,
}

/// Integer expressions.
#[derive(Debug, PartialEq)]
pub enum Expr {
    /// Integer literal
    Lit(i64),
    /// Variable reference
    Var(String),
    /// Addition
    Add(Box<Expr>, Box<Expr>),
    /// Subtraction
    Sub(Box<Expr>, Box<Expr>),
    /// Conditional expression
    If(Box<BoolExpr>, AstIfBranches),
}

/// Boolean expressions.
#[derive(Debug, PartialEq)]
pub enum BoolExpr {
    /// Boolean literal
    Lit(bool),
    /// Less than or equal (<=)
    Le(Box<Expr>, Box<Expr>),
    /// Greater than or equal (>=)
    Ge(Box<Expr>, Box<Expr>),
    /// Equal (==)
    Eq(Box<Expr>, Box<Expr>),
}

/// Integer expressions in SSA form.
#[derive(Debug, PartialEq)]
pub enum SymExpr {
    Lit(i64),
    Var(SsaVar),
    Add(Box<SymExpr>, Box<SymExpr>),
    Sub(Box<SymExpr>, Box<SymExpr>),
    If(Box<SymBoolExpr>, SymIfBranches),
}

/// Boolean expressions in SSA form.
#[derive(Debug, PartialEq)]
pub enum SymBoolExpr {
    Lit(bool),
    Le(Box<SymExpr>, Box<SymExpr>),
    Ge(Box<SymExpr>, Box<SymExpr>),
    Eq(Box<SymExpr>, Box<SymExpr>),
}

/// A single statement.
#[derive(Debug, Clone, PartialEq)]
pub enum Stmt {
    /// Assertion: `assert(expr)`
    Assert { expr: BoolExpr },
    /// Variable binding: `let name = expr`.
    ///
    /// The binding introduces a constraint `name == expr` for the solver,
    /// without expanding `name` in subsequent expressions.
    Let { name: String, expr: Expr },
}

/// A sequence of statements.
#[derive(Debug, Clone, PartialEq)]
pub struct Stmts(pub Vec<Stmt>);

// ---------------------------------------------------------------------------
// Models
// ---------------------------------------------------------------------------

/// Mathematical model of an SSA variable.
pub struct SsaVarModel {
    pub name: Seq<char>,
    pub version: SsaVersion,
}

/// Mathematical model of an integer expression.
pub enum ExprModel {
    Lit(i64),
    Var(Seq<char>),
    Add(Box<ExprModel>, Box<ExprModel>),
    Sub(Box<ExprModel>, Box<ExprModel>),
    If(Box<BoolExprModel>, Box<ExprModel>, Box<ExprModel>),
}

/// Mathematical model of a boolean expression.
pub enum BoolExprModel {
    Lit(bool),
    Le(Box<ExprModel>, Box<ExprModel>),
    Ge(Box<ExprModel>, Box<ExprModel>),
    Eq(Box<ExprModel>, Box<ExprModel>),
}

/// Mathematical model of the branches of an SSA conditional.
pub enum SymBranchesModel {
    ThenTaken(Box<SymExprModel>, ExprModel),
    ElseTaken(ExprModel, Box<SymExprModel>),
}

/// Mathematical model of an SSA integer expression.
pub enum SymExprModel {
    Lit(i64),
    Var(SsaVarModel),
    Add(Box<SymExprModel>, Box<SymExprModel>),
    Sub(Box<SymExprModel>, Box<SymExprModel>),
    If(Box<SymBoolExprModel>, SymBranchesModel),
}

/// Mathematical model of an SSA boolean expression.
pub enum SymBoolExprModel {
    Lit(bool),
    Le(Box<SymExprModel>, Box<SymExprModel>),
    Ge(Box<SymExprModel>, Box<SymExprModel>),
    Eq(Box<SymExprModel>, Box<SymExprModel>),
}

/// Mathematical model of a statement.
pub enum StmtModel {
    Assert(BoolExprModel),
    Let(Seq<char>, ExprModel),
}

impl View for SsaVar {
    type V = SsaVarModel;

    open spec fn view(&self) -> SsaVarModel {
        SsaVarModel { name: self.name@, version: self.version }
    }
}

impl Expr {
    /// The model of this expression.
    pub open spec fn model(self) -> ExprModel
        decreases self,
    {
        match self {
            Expr::Lit(n) => ExprModel::Lit(n),
            Expr::Var(x) => ExprModel::Var(x@),
            Expr::Add(l, r) => ExprModel::Add(Box::new(l.model()), Box::new(r.model())),
            Expr::Sub(l, r) => ExprModel::Sub(Box::new(l.model()), Box::new(r.model())),
            Expr::If(c, b) => ExprModel::If(
                Box::new(c.model()),
                Box::new(b.then_.model()),
                Box::new(b.else_.model()),
            ),
        }
    }
}

impl BoolExpr {
    /// The model of this expression.
    pub open spec fn model(self) -> BoolExprModel
        decreases self,
    {
        match self {
            BoolExpr::Lit(b) => BoolExprModel::Lit(b),
            BoolExpr::Le(l, r) => BoolExprModel::Le(Box::new(l.model()), Box::new(r.model())),
            BoolExpr::Ge(l, r) => BoolExprModel::Ge(Box::new(l.model()), Box::new(r.model())),
            BoolExpr::Eq(l, r) => BoolExprModel::Eq(Box::new(l.model()), Box::new(r.model())),
        }
    }
}

impl SymExpr {
    /// The model of this expression.
    pub open spec fn model(self) -> SymExprModel
        decreases self,
    {
        match self {
            SymExpr::Lit(n) => SymExprModel::Lit(n),
            SymExpr::Var(v) => SymExprModel::Var(v@),
            SymExpr::Add(l, r) => SymExprModel::Add(Box::new(l.model()), Box::new(r.model())),
            SymExpr::Sub(l, r) => SymExprModel::Sub(Box::new(l.model()), Box::new(r.model())),
            SymExpr::If(c, b) => SymExprModel::If(
                Box::new(c.model()),
                match b {
                    SymIfBranches::ThenTaken { then_, else_ } => SymBranchesModel::ThenTaken(
                        Box::new(then_.model()),
                        else_.model(),
                    ),
                    SymIfBranches::ElseTaken { then_, else_ } => SymBranchesModel::ElseTaken(
                        then_.model(),
                        Box::new(else_.model()),
                    ),
                },
            ),
        }
    }
}

impl SymBoolExpr {
    /// The model of this expression.
    pub open spec fn model(self) -> SymBoolExprModel
        decreases self,
    {
        match self {
            SymBoolExpr::Lit(b) => SymBoolExprModel::Lit(b),
            SymBoolExpr::Le(l, r) => SymBoolExprModel::Le(Box::new(l.model()), Box::new(r.model())),
            SymBoolExpr::Ge(l, r) => SymBoolExprModel::Ge(Box::new(l.model()), Box::new(r.model())),
            SymBoolExpr::Eq(l, r) => SymBoolExprModel::Eq(Box::new(l.model()), Box::new(r.model())),
        }
    }
}

impl View for Expr {
    type V = ExprModel;

    open spec fn view(&self) -> ExprModel {
        self.model()
    }
}

impl View for BoolExpr {
    type V = BoolExprModel;

    open spec fn view(&self) -> BoolExprModel {
        self.model()
    }
}

impl View for SymExpr {
    type V = SymExprModel;

    open spec fn view(&self) -> SymExprModel {
        self.model()
    }
}

impl View for SymBoolExpr {
    type V = SymBoolExprModel;

    open spec fn view(&self) -> SymBoolExprModel {
        self.model()
    }
}

impl View for Stmt {
    type V = StmtModel;

    open spec fn view(&self) -> StmtModel {
        match self {
            Stmt::Assert { expr } => StmtModel::Assert(expr@),
            Stmt::Let { name, expr } => StmtModel::Let(name@, expr@),
        }
    }
}

impl From<Stmt> for Stmts {
    /// The single statement `stmt`.
    fn from(stmt: Stmt) -> (r: Stmts)
        ensures
            r@ == seq![stmt@],
    {
        let mut v: Vec<Stmt> = Vec::new();
        v.push(stmt);
        let r = Stmts(v);
        assert(r@ =~= seq![stmt@]);
        r
    }
}

impl vstd::std_specs::convert::FromSpecImpl<Stmt> for Stmts {
    /// The conversion is specified by the `ensures` of `from` alone.
    open spec fn obeys_from_spec() -> bool {
        false
    }

    open spec fn from_spec(v: Stmt) -> Stmts {
        arbitrary()
    }
}

impl View for Stmts {
    type V = Seq<StmtModel>;

    open spec fn view(&self) -> Seq<StmtModel> {
        self.0@.map_values(|s: Stmt| s@)
    }
}

// ---------------------------------------------------------------------------
// Semantics
// ---------------------------------------------------------------------------

/// Whether `v` is representable as an `i64`.
pub open spec fn in_i64(v: int) -> bool {
    i64::MIN <= v <= i64::MAX
}

/// Outcome of evaluating with 64-bit arithmetic: a value, the first
/// undefined variable met, or an arithmetic overflow.
pub enum Eval<T> {
    Val(T),
    Undefined(Seq<char>),
    Overflow,
}

/// The outcome of a binary integer operation on two evaluated operands,
/// evaluated left to right.
pub open spec fn combine(a: Eval<i64>, b: Eval<i64>, v: int) -> Eval<i64> {
    match a {
        Eval::Val(_) => match b {
            Eval::Val(_) => if in_i64(v) { Eval::Val(v as i64) } else { Eval::Overflow },
            Eval::Undefined(x) => Eval::Undefined(x),
            Eval::Overflow => Eval::Overflow,
        },
        Eval::Undefined(x) => Eval::Undefined(x),
        Eval::Overflow => Eval::Overflow,
    }
}

/// The outcome of a comparison on two evaluated operands, evaluated left to
/// right.
pub open spec fn compare(a: Eval<i64>, b: Eval<i64>, v: bool) -> Eval<bool> {
    match a {
        Eval::Val(_) => match b {
            Eval::Val(_) => Eval::Val(v),
            Eval::Undefined(x) => Eval::Undefined(x),
            Eval::Overflow => Eval::Overflow,
        },
        Eval::Undefined(x) => Eval::Undefined(x),
        Eval::Overflow => Eval::Overflow,
    }
}

/// The integer carried by an outcome (meaningful for `Val`).
pub open spec fn val_of(e: Eval<i64>) -> int {
    match e {
        Eval::Val(v) => v as int,
        _ => 0,
    }
}

impl ExprModel {
    /// Left-to-right evaluation with 64-bit arithmetic.
    pub open spec fn eval(self, env: Map<Seq<char>, i64>) -> Eval<i64>
        decreases self,
    {
        match self {
            ExprModel::Lit(n) => Eval::Val(n),
            ExprModel::Var(x) => if env.contains_key(x) {
                Eval::Val(env[x])
            } else {
                Eval::Undefined(x)
            },
            ExprModel::Add(l, r) => combine(
                l.eval(env),
                r.eval(env),
                val_of(l.eval(env)) + val_of(r.eval(env)),
            ),
            ExprModel::Sub(l, r) => combine(
                l.eval(env),
                r.eval(env),
                val_of(l.eval(env)) - val_of(r.eval(env)),
            ),
            ExprModel::If(c, t, f) => match c.eval(env) {
                Eval::Val(true) => t.eval(env),
                Eval::Val(false) => f.eval(env),
                Eval::Undefined(x) => Eval::Undefined(x),
                Eval::Overflow => Eval::Overflow,
            },
        }
    }

    /// Evaluation over the mathematical integers; `None` when a variable
    /// that is reached is unbound.
    pub open spec fn value(self, env: Map<Seq<char>, i64>) -> Option<int>
        decreases self,
    {
        match self {
            ExprModel::Lit(n) => Some(n as int),
            ExprModel::Var(x) => if env.contains_key(x) {
                Some(env[x] as int)
            } else {
                None
            },
            ExprModel::Add(l, r) => match (l.value(env), r.value(env)) {
                (Some(a), Some(b)) => Some(a + b),
                _ => None,
            },
            ExprModel::Sub(l, r) => match (l.value(env), r.value(env)) {
                (Some(a), Some(b)) => Some(a - b),
                _ => None,
            },
            ExprModel::If(c, t, f) => match c.value(env) {
                Some(true) => t.value(env),
                Some(false) => f.value(env),
                None => None,
            },
        }
    }

    /// The variable names met in a left-to-right traversal (with repeats).
    pub open spec fn names(self) -> Seq<Seq<char>>
        decreases self,
    {
        match self {
            ExprModel::Lit(_) => seq![],
            ExprModel::Var(x) => seq![x],
            ExprModel::Add(l, r) => l.names() + r.names(),
            ExprModel::Sub(l, r) => l.names() + r.names(),
            ExprModel::If(c, t, f) => c.names() + t.names() + f.names(),
        }
    }
}

impl BoolExprModel {
    /// Left-to-right evaluation with 64-bit arithmetic.
    pub open spec fn eval(self, env: Map<Seq<char>, i64>) -> Eval<bool>
        decreases self,
    {
        match self {
            BoolExprModel::Lit(b) => Eval::Val(b),
            BoolExprModel::Le(l, r) => compare(
                l.eval(env),
                r.eval(env),
                val_of(l.eval(env)) <= val_of(r.eval(env)),
            ),
            BoolExprModel::Ge(l, r) => compare(
                l.eval(env),
                r.eval(env),
                val_of(l.eval(env)) >= val_of(r.eval(env)),
            ),
            BoolExprModel::Eq(l, r) => compare(
                l.eval(env),
                r.eval(env),
                val_of(l.eval(env)) == val_of(r.eval(env)),
            ),
        }
    }

    /// Evaluation over the mathematical integers.
    pub open spec fn value(self, env: Map<Seq<char>, i64>) -> Option<bool>
        decreases self,
    {
        match self {
            BoolExprModel::Lit(b) => Some(b),
            BoolExprModel::Le(l, r) => match (l.value(env), r.value(env)) {
                (Some(a), Some(b)) => Some(a <= b),
                _ => None,
            },
            BoolExprModel::Ge(l, r) => match (l.value(env), r.value(env)) {
                (Some(a), Some(b)) => Some(a >= b),
                _ => None,
            },
            BoolExprModel::Eq(l, r) => match (l.value(env), r.value(env)) {
                (Some(a), Some(b)) => Some(a == b),
                _ => None,
            },
        }
    }

    /// The variable names met in a left-to-right traversal (with repeats).
    pub open spec fn names(self) -> Seq<Seq<char>>
        decreases self,
    {
        match self {
            BoolExprModel::Lit(_) => seq![],
            BoolExprModel::Le(l, r) => l.names() + r.names(),
            BoolExprModel::Ge(l, r) => l.names() + r.names(),
            BoolExprModel::Eq(l, r) => l.names() + r.names(),
        }
    }

    /// Whether this is a literal.
    pub open spec fn is_lit(self) -> bool {
        self is Lit
    }
}

impl SymExprModel {
    /// Left-to-right evaluation with 64-bit arithmetic, reading each
    /// variable by its base name; of a conditional, the branch selected by
    /// the condition is evaluated, whichever form it is kept in.
    pub open spec fn eval(self, env: Map<Seq<char>, i64>) -> Eval<i64>
        decreases self,
    {
        match self {
            SymExprModel::Lit(n) => Eval::Val(n),
            SymExprModel::Var(v) => if env.contains_key(v.name) {
                Eval::Val(env[v.name])
            } else {
                Eval::Undefined(v.name)
            },
            SymExprModel::Add(l, r) => combine(
                l.eval(env),
                r.eval(env),
                val_of(l.eval(env)) + val_of(r.eval(env)),
            ),
            SymExprModel::Sub(l, r) => combine(
                l.eval(env),
                r.eval(env),
                val_of(l.eval(env)) - val_of(r.eval(env)),
            ),
            SymExprModel::If(c, b) => match b {
                SymBranchesModel::ThenTaken(t, f) => match c.eval(env) {
                    Eval::Val(true) => t.eval(env),
                    Eval::Val(false) => f.eval(env),
                    Eval::Undefined(x) => Eval::Undefined(x),
                    Eval::Overflow => Eval::Overflow,
                },
                SymBranchesModel::ElseTaken(t, f) => match c.eval(env) {
                    Eval::Val(true) => t.eval(env),
                    Eval::Val(false) => f.eval(env),
                    Eval::Undefined(x) => Eval::Undefined(x),
                    Eval::Overflow => Eval::Overflow,
                },
            },
        }
    }

    /// Evaluation over the mathematical integers, reading each variable by
    /// its base name.
    pub open spec fn value(self, env: Map<Seq<char>, i64>) -> Option<int>
        decreases self,
    {
        match self {
            SymExprModel::Lit(n) => Some(n as int),
            SymExprModel::Var(v) => if env.contains_key(v.name) {
                Some(env[v.name] as int)
            } else {
                None
            },
            SymExprModel::Add(l, r) => match (l.value(env), r.value(env)) {
                (Some(a), Some(b)) => Some(a + b),
                _ => None,
            },
            SymExprModel::Sub(l, r) => match (l.value(env), r.value(env)) {
                (Some(a), Some(b)) => Some(a - b),
                _ => None,
            },
            SymExprModel::If(c, b) => match b {
                SymBranchesModel::ThenTaken(t, f) => match c.value(env) {
                    Some(true) => t.value(env),
                    Some(false) => f.value(env),
                    None => None,
                },
                SymBranchesModel::ElseTaken(t, f) => match c.value(env) {
                    Some(true) => t.value(env),
                    Some(false) => f.value(env),
                    None => None,
                },
            },
        }
    }

    /// The base names of the variables met in a left-to-right traversal
    /// (with repeats).
    pub open spec fn names(self) -> Seq<Seq<char>>
        decreases self,
    {
        match self {
            SymExprModel::Lit(_) => seq![],
            SymExprModel::Var(v) => seq![v.name],
            SymExprModel::Add(l, r) => l.names() + r.names(),
            SymExprModel::Sub(l, r) => l.names() + r.names(),
            SymExprModel::If(c, b) => match b {
                SymBranchesModel::ThenTaken(t, f) => c.names() + t.names() + f.names(),
                SymBranchesModel::ElseTaken(t, f) => c.names() + t.names() + f.names(),
            },
        }
    }

    /// Whether the expression contains a conditional.
    pub open spec fn has_ite(self) -> bool
        decreases self,
    {
        match self {
            SymExprModel::Lit(_) | SymExprModel::Var(_) => false,
            SymExprModel::Add(l, r) => l.has_ite() || r.has_ite(),
            SymExprModel::Sub(l, r) => l.has_ite() || r.has_ite(),
            SymExprModel::If(_, _) => true,
        }
    }
}

impl SymBoolExprModel {
    /// Left-to-right evaluation with 64-bit arithmetic.
    pub open spec fn eval(self, env: Map<Seq<char>, i64>) -> Eval<bool>
        decreases self,
    {
        match self {
            SymBoolExprModel::Lit(b) => Eval::Val(b),
            SymBoolExprModel::Le(l, r) => compare(
                l.eval(env),
                r.eval(env),
                val_of(l.eval(env)) <= val_of(r.eval(env)),
            ),
            SymBoolExprModel::Ge(l, r) => compare(
                l.eval(env),
                r.eval(env),
                val_of(l.eval(env)) >= val_of(r.eval(env)),
            ),
            SymBoolExprModel::Eq(l, r) => compare(
                l.eval(env),
                r.eval(env),
                val_of(l.eval(env)) == val_of(r.eval(env)),
            ),
        }
    }

    /// Evaluation over the mathematical integers.
    pub open spec fn value(self, env: Map<Seq<char>, i64>) -> Option<bool>
        decreases self,
    {
        match self {
            SymBoolExprModel::Lit(b) => Some(b),
            SymBoolExprModel::Le(l, r) => match (l.value(env), r.value(env)) {
                (Some(a), Some(b)) => Some(a <= b),
                _ => None,
            },
            SymBoolExprModel::Ge(l, r) => match (l.value(env), r.value(env)) {
                (Some(a), Some(b)) => Some(a >= b),
                _ => None,
            },
            SymBoolExprModel::Eq(l, r) => match (l.value(env), r.value(env)) {
                (Some(a), Some(b)) => Some(a == b),
                _ => None,
            },
        }
    }

    /// The base names of the variables met in a left-to-right traversal.
    pub open spec fn names(self) -> Seq<Seq<char>>
        decreases self,
    {
        match self {
            SymBoolExprModel::Lit(_) => seq![],
            SymBoolExprModel::Le(l, r) => l.names() + r.names(),
            SymBoolExprModel::Ge(l, r) => l.names() + r.names(),
            SymBoolExprModel::Eq(l, r) => l.names() + r.names(),
        }
    }

    /// Whether either side contains a conditional.
    pub open spec fn has_ite(self) -> bool {
        match self {
            SymBoolExprModel::Lit(_) => false,
            SymBoolExprModel::Le(l, r) => l.has_ite() || r.has_ite(),
            SymBoolExprModel::Ge(l, r) => l.has_ite() || r.has_ite(),
            SymBoolExprModel::Eq(l, r) => l.has_ite() || r.has_ite(),
        }
    }
}

/// A 64-bit evaluation that succeeds agrees with the evaluation over the
/// mathematical integers.
pub proof fn lemma_eval_value(e: ExprModel, env: Map<Seq<char>, i64>)
    ensures
        e.eval(env) is Val ==> e.value(env) == Some(val_of(e.eval(env))),
    decreases e,
{
    match e {
        ExprModel::Add(l, r) | ExprModel::Sub(l, r) => {
            lemma_eval_value(*l, env);
            lemma_eval_value(*r, env);
        },
        ExprModel::If(c, t, f) => {
            lemma_bool_eval_value(*c, env);
            lemma_eval_value(*t, env);
            lemma_eval_value(*f, env);
        },
        _ => {},
    }
}

/// A 64-bit evaluation of a condition that succeeds agrees with the
/// evaluation over the mathematical integers.
pub proof fn lemma_bool_eval_value(c: BoolExprModel, env: Map<Seq<char>, i64>)
    ensures
        c.eval(env) is Val ==> c.value(env) == Some(c.eval(env)->Val_0),
    decreases c,
{
    match c {
        BoolExprModel::Le(l, r) | BoolExprModel::Ge(l, r) | BoolExprModel::Eq(l, r) => {
            lemma_eval_value(*l, env);
            lemma_eval_value(*r, env);
        },
        _ => {},
    }
}

/// A 64-bit evaluation of an SSA expression that succeeds agrees with the
/// evaluation over the mathematical integers.
pub proof fn lemma_sym_eval_value(e: SymExprModel, env: Map<Seq<char>, i64>)
    ensures
        e.eval(env) is Val ==> e.value(env) == Some(val_of(e.eval(env))),
    decreases e,
{
    match e {
        SymExprModel::Add(l, r) | SymExprModel::Sub(l, r) => {
            lemma_sym_eval_value(*l, env);
            lemma_sym_eval_value(*r, env);
        },
        SymExprModel::If(c, b) => {
            lemma_sym_bool_eval_value(*c, env);
            match b {
                SymBranchesModel::ThenTaken(t, f) => {
                    lemma_sym_eval_value(*t, env);
                    lemma_eval_value(f, env);
                },
                SymBranchesModel::ElseTaken(t, f) => {
                    lemma_eval_value(t, env);
                    lemma_sym_eval_value(*f, env);
                },
            }
        },
        _ => {},
    }
}

/// A 64-bit evaluation of an SSA condition that succeeds agrees with the
/// evaluation over the mathematical integers.
pub proof fn lemma_sym_bool_eval_value(c: SymBoolExprModel, env: Map<Seq<char>, i64>)
    ensures
        c.eval(env) is Val ==> c.value(env) == Some(c.eval(env)->Val_0),
    decreases c,
{
    match c {
        SymBoolExprModel::Le(l, r) | SymBoolExprModel::Ge(l, r) | SymBoolExprModel::Eq(l, r) => {
            lemma_sym_eval_value(*l, env);
            lemma_sym_eval_value(*r, env);
        },
        _ => {},
    }
}

/// The names in `names`, appended in order to `acc` when not already there.
pub open spec fn add_new(acc: Seq<Seq<char>>, names: Seq<Seq<char>>) -> Seq<Seq<char>>
    decreases names.len(),
{
    if names.len() == 0 {
        acc
    } else {
        add_new(
            if acc.contains(names[0]) { acc } else { acc.push(names[0]) },
            names.drop_first(),
        )
    }
}

/// The names after `add_new` are those of `acc` and those of `names`.
pub proof fn lemma_add_new_set(acc: Seq<Seq<char>>, names: Seq<Seq<char>>)
    ensures
        add_new(acc, names).to_set() == acc.to_set().union(names.to_set()),
    decreases names.len(),
{
    if names.len() > 0 {
        let acc2 = if acc.contains(names[0]) { acc } else { acc.push(names[0]) };
        lemma_add_new_set(acc2, names.drop_first());
        assert(acc2.to_set() =~= acc.to_set().insert(names[0])) by {
            if !acc.contains(names[0]) {
                assert forall|x: Seq<char>| acc2.to_set().contains(x) <==> acc.to_set().insert(names[0]).contains(x) by {
                    if acc2.to_set().contains(x) && x != names[0] {
                        let i = choose|i: int| 0 <= i < acc2.len() && acc2[i] == x;
                        assert(acc[i] == x);
                    }
                    if acc.to_set().contains(x) {
                        let i = choose|i: int| 0 <= i < acc.len() && acc[i] == x;
                        assert(acc2[i] == x);
                    }
                    if x == names[0] {
                        assert(acc2[acc.len() as int] == x);
                    }
                }
            }
        }
        assert(names.to_set() =~= names.drop_first().to_set().insert(names[0])) by {
            assert forall|x: Seq<char>| names.to_set().contains(x) <==> names.drop_first().to_set().insert(names[0]).contains(x) by {
                if names.to_set().contains(x) && x != names[0] {
                    let i = choose|i: int| 0 <= i < names.len() && names[i] == x;
                    assert(names.drop_first()[i - 1] == x);
                }
                if names.drop_first().to_set().contains(x) {
                    let i = choose|i: int| 0 <= i < names.drop_first().len() && names.drop_first()[i] == x;
                    assert(names[i + 1] == x);
                }
                if x == names[0] {
                    assert(names[0] == x);
                }
            }
        }
        assert(add_new(acc, names).to_set() =~= acc.to_set().union(names.to_set()));
    } else {
        assert(names.to_set() =~= Set::<Seq<char>>::empty());
        assert(acc.to_set().union(names.to_set()) =~= acc.to_set());
    }
}

/// `add_new` over a concatenation is `add_new` twice.
pub proof fn lemma_add_new_append(acc: Seq<Seq<char>>, a: Seq<Seq<char>>, b: Seq<Seq<char>>)
    ensures
        add_new(acc, a + b) == add_new(add_new(acc, a), b),
    decreases a.len(),
{
    if a.len() == 0 {
        assert(a + b == b);
    } else {
        assert((a + b).drop_first() == a.drop_first() + b);
        assert((a + b)[0] == a[0]);
        let acc2 = if acc.contains(a[0]) { acc } else { acc.push(a[0]) };
        lemma_add_new_append(acc2, a.drop_first(), b);
    }
}

/// Whether `name` occurs in `vars`.
pub fn contains_name(vars: &Vec<String>, name: &String) -> (r: bool)
    ensures
        r == strings_view(vars@).contains(name@),
{
    let mut i: usize = 0;
    while i < vars.len()
        invariant
            i <= vars@.len(),
            forall|j: int| 0 <= j < i ==> vars@[j]@ != name@,
        decreases vars.len() - i,
    {
        if vars[i] == *name {
            assert(strings_view(vars@)[i as int] == name@);
            return true;
        }
        i = i + 1;
    }
    proof {
        if strings_view(vars@).contains(name@) {
            let j = choose|j: int| 0 <= j < strings_view(vars@).len() && strings_view(vars@)[j] == name@;
            assert(vars@[j]@ == name@);
        }
    }
    false
}

/// Appends `name` to `vars` unless it is already there.
pub fn add_name(vars: &mut Vec<String>, name: &String)
    ensures
        strings_view(final(vars)@) == add_new(strings_view(old(vars)@), seq![name@]),
{
    let ghost acc = strings_view(vars@);
    proof {
        let one = seq![name@];
        assert(one.drop_first() =~= Seq::<Seq<char>>::empty());
        assert(one[0] == name@);
        let acc2 = if acc.contains(name@) { acc } else { acc.push(name@) };
        assert(add_new(acc2, one.drop_first()) == acc2);
        assert(add_new(acc, one) == acc2);
    }
    if !contains_name(vars, name) {
        vars.push(name.clone());
        assert(strings_view(vars@) =~= acc.push(name@));
    }
}

// ---------------------------------------------------------------------------
// Copies
// ---------------------------------------------------------------------------

impl Clone for Expr {
    /// A copy, equal to the original.
    fn clone(&self) -> (r: Expr)
        ensures
            r@ == self@,
    {
        self.duplicate()
    }
}

impl Clone for BoolExpr {
    /// A copy, equal to the original.
    fn clone(&self) -> (r: BoolExpr)
        ensures
            r@ == self@,
    {
        self.duplicate()
    }
}

impl Clone for SymExpr {
    /// A copy, equal to the original.
    fn clone(&self) -> (r: SymExpr)
        ensures
            r@ == self@,
    {
        self.duplicate()
    }
}

impl Clone for SymBoolExpr {
    /// A copy, equal to the original.
    fn clone(&self) -> (r: SymBoolExpr)
        ensures
            r@ == self@,
    {
        self.duplicate()
    }
}

impl SsaVar {
    /// A copy of this variable.
    pub fn duplicate(&self) -> (r: SsaVar)
        ensures
            r@ == self@,
    {
        SsaVar { name: self.name.clone(), version: self.version }
    }
}

impl Expr {
    /// A copy of this expression.
    pub fn duplicate(&self) -> (r: Expr)
        ensures
            r@ == self@,
        decreases self,
    {
        match self {
            Expr::Lit(n) => Expr::Lit(*n),
            Expr::Var(x) => Expr::Var(x.clone()),
            Expr::Add(l, r) => Expr::Add(Box::new(l.duplicate()), Box::new(r.duplicate())),
            Expr::Sub(l, r) => Expr::Sub(Box::new(l.duplicate()), Box::new(r.duplicate())),
            Expr::If(c, b) => Expr::If(
                Box::new(c.duplicate()),
                AstIfBranches {
                    then_: Box::new(b.then_.duplicate()),
                    else_: Box::new(b.else_.duplicate()),
                },
            ),
        }
    }
}

impl BoolExpr {
    /// A copy of this expression.
    pub fn duplicate(&self) -> (r: BoolExpr)
        ensures
            r@ == self@,
        decreases self,
    {
        match self {
            BoolExpr::Lit(b) => BoolExpr::Lit(*b),
            BoolExpr::Le(l, r) => BoolExpr::Le(Box::new(l.duplicate()), Box::new(r.duplicate())),
            BoolExpr::Ge(l, r) => BoolExpr::Ge(Box::new(l.duplicate()), Box::new(r.duplicate())),
            BoolExpr::Eq(l, r) => BoolExpr::Eq(Box::new(l.duplicate()), Box::new(r.duplicate())),
        }
    }
}

impl SymExpr {
    /// A copy of this expression.
    pub fn duplicate(&self) -> (r: SymExpr)
        ensures
            r@ == self@,
        decreases self,
    {
        match self {
            SymExpr::Lit(n) => SymExpr::Lit(*n),
            SymExpr::Var(v) => SymExpr::Var(v.duplicate()),
            SymExpr::Add(l, r) => SymExpr::Add(Box::new(l.duplicate()), Box::new(r.duplicate())),
            SymExpr::Sub(l, r) => SymExpr::Sub(Box::new(l.duplicate()), Box::new(r.duplicate())),
            SymExpr::If(c, b) => SymExpr::If(
                Box::new(c.duplicate()),
                match b {
                    SymIfBranches::ThenTaken { then_, else_ } => SymIfBranches::ThenTaken {
                        then_: Box::new(then_.duplicate()),
                        else_: Box::new(else_.duplicate()),
                    },
                    SymIfBranches::ElseTaken { then_, else_ } => SymIfBranches::ElseTaken {
                        then_: Box::new(then_.duplicate()),
                        else_: Box::new(else_.duplicate()),
                    },
                },
            ),
        }
    }
}

impl SymBoolExpr {
    /// A copy of this expression.
    pub fn duplicate(&self) -> (r: SymBoolExpr)
        ensures
            r@ == self@,
        decreases self,
    {
        match self {
            SymBoolExpr::Lit(b) => SymBoolExpr::Lit(*b),
            SymBoolExpr::Le(l, r) => SymBoolExpr::Le(Box::new(l.duplicate()), Box::new(r.duplicate())),
            SymBoolExpr::Ge(l, r) => SymBoolExpr::Ge(Box::new(l.duplicate()), Box::new(r.duplicate())),
            SymBoolExpr::Eq(l, r) => SymBoolExpr::Eq(Box::new(l.duplicate()), Box::new(r.duplicate())),
        }
    }
}

} // verus!

verus! {

// ---------------------------------------------------------------------------
// Constructors
// ---------------------------------------------------------------------------

/// Whether `c` is an ASCII letter.
pub open spec fn is_ascii_alpha(c: char) -> bool {
    ('a' <= c && c <= 'z') || ('A' <= c && c <= 'Z')
}

/// The text of an SSA version: `0` for an input, else the definition
/// number.
pub open spec fn version_text(v: SsaVersion) -> Seq<char> {
    match v {
        SsaVersion::Input => seq!['0'],
        SsaVersion::Defined(n) => crate::text::dec(n as nat),
    }
}

/// The text of an SSA variable: `name@version`.
pub open spec fn ssa_text(v: SsaVarModel) -> Seq<char> {
    v.name + seq!['@'] + version_text(v.version)
}

impl SsaVar {
    /// The variable as written: `name@version`.
    pub fn to_string(&self) -> (r: String)
        ensures
            r@ == ssa_text(self@),
    {
        let mut s = self.name.clone();
        crate::text::push_char(&mut s, '@');
        match self.version {
            SsaVersion::Input => crate::text::push_char(&mut s, '0'),
            SsaVersion::Defined(n) => crate::text::push_usize(&mut s, n),
        }
        assert(s@ =~= ssa_text(self@));
        s
    }
}

impl SsaVersion {
    /// The `n`-th definition (`n` must be non-zero).
    pub fn defined(n: usize) -> (r: SsaVersion)
        requires
            n != 0,
        ensures
            r == SsaVersion::Defined(n),
    {
        SsaVersion::Defined(n)
    }
}

impl SsaVar {
    /// An input variable (version 0).
    pub fn input(name: &str) -> (r: SsaVar)
        ensures
            r@ == (SsaVarModel { name: name@, version: SsaVersion::Input }),
    {
        SsaVar { name: crate::text::owned(name), version: SsaVersion::Input }
    }

    /// The `n`-th definition of `name` (`n >= 1`).
    pub fn defined(name: &str, n: usize) -> (r: SsaVar)
        requires
            n != 0,
        ensures
            r@ == (SsaVarModel { name: name@, version: SsaVersion::Defined(n) }),
    {
        SsaVar { name: crate::text::owned(name), version: SsaVersion::defined(n) }
    }
}

impl Stmt {
    /// An assertion statement.
    pub fn assert_(expr: BoolExpr) -> (r: Stmt)
        ensures
            r@ == StmtModel::Assert(expr@),
    {
        Stmt::Assert { expr }
    }

    /// A let binding statement.
    pub fn let_(name: &str, expr: Expr) -> (r: Stmt)
        ensures
            r@ == StmtModel::Let(name@, expr@),
    {
        Stmt::Let { name: crate::text::owned(name), expr }
    }
}

impl Expr {
    /// An integer literal.
    pub fn lit(n: i64) -> (r: Expr)
        ensures
            r@ == ExprModel::Lit(n),
    {
        Expr::Lit(n)
    }

    /// A variable reference; the name must start with an ASCII letter.
    pub fn var(name: &str) -> (r: Expr)
        requires
            name@.len() > 0,
            is_ascii_alpha(name@[0]),
        ensures
            r@ == ExprModel::Var(name@),
    {
        Expr::Var(crate::text::owned(name))
    }

    /// An if-then-else expression.
    pub fn if_(cond: BoolExpr, then_: Expr, else_: Expr) -> (r: Expr)
        ensures
            r@ == ExprModel::If(Box::new(cond@), Box::new(then_@), Box::new(else_@)),
    {
        Expr::If(Box::new(cond), AstIfBranches { then_: Box::new(then_), else_: Box::new(else_) })
    }

    /// The sum `self + rhs`.
    pub fn plus(self, rhs: Expr) -> (r: Expr)
        ensures
            r@ == ExprModel::Add(Box::new(self@), Box::new(rhs@)),
    {
        Expr::Add(Box::new(self), Box::new(rhs))
    }

    /// The difference `self - rhs`.
    pub fn minus(self, rhs: Expr) -> (r: Expr)
        ensures
            r@ == ExprModel::Sub(Box::new(self@), Box::new(rhs@)),
    {
        Expr::Sub(Box::new(self), Box::new(rhs))
    }

    /// The comparison `self <= rhs`.
    pub fn le(self, rhs: Expr) -> (r: BoolExpr)
        ensures
            r@ == BoolExprModel::Le(Box::new(self@), Box::new(rhs@)),
    {
        BoolExpr::Le(Box::new(self), Box::new(rhs))
    }

    /// The comparison `self >= rhs`.
    pub fn ge(self, rhs: Expr) -> (r: BoolExpr)
        ensures
            r@ == BoolExprModel::Ge(Box::new(self@), Box::new(rhs@)),
    {
        BoolExpr::Ge(Box::new(self), Box::new(rhs))
    }

    /// The comparison `self == rhs`.
    pub fn eq_(self, rhs: Expr) -> (r: BoolExpr)
        ensures
            r@ == BoolExprModel::Eq(Box::new(self@), Box::new(rhs@)),
    {
        BoolExpr::Eq(Box::new(self), Box::new(rhs))
    }

    /// Evaluates the expression in `env`; every variable reached must be
    /// bound and no intermediate result may leave the `i64` range.
    pub fn eval(&self, env: &Env) -> (r: i64)
        requires
            self@.eval(env@) is Val,
        ensures
            self@.eval(env@) == Eval::Val(r),
        decreases self,
    {
        match self {
            Expr::Lit(n) => *n,
            Expr::Var(name) => {
                match env.lookup(name) {
                    Some(v) => *v,
                    None => {
                        assert(false);
                        0
                    },
                }
            },
            Expr::Add(l, r) => l.eval(env) + r.eval(env),
            Expr::Sub(l, r) => l.eval(env) - r.eval(env),
            Expr::If(cond, branches) => {
                if cond.eval(env) {
                    branches.then_.eval(env)
                } else {
                    branches.else_.eval(env)
                }
            },
        }
    }

    /// Evaluates the expression in `env`; `None` when a variable reached is
    /// unbound or an intermediate result leaves the `i64` range.
    pub(crate) fn try_eval(&self, env: &Env) -> (r: Option<i64>)
        ensures
            match r {
                Some(v) => self@.eval(env@) == Eval::Val(v),
                None => !(self@.eval(env@) is Val),
            },
        decreases self,
    {
        match self {
            Expr::Lit(n) => Some(*n),
            Expr::Var(name) => match env.lookup(name) {
                Some(v) => Some(*v),
                None => None,
            },
            Expr::Add(l, r) => match l.try_eval(env) {
                Some(a) => match r.try_eval(env) {
                    Some(b) => a.checked_add(b),
                    None => None,
                },
                None => None,
            },
            Expr::Sub(l, r) => match l.try_eval(env) {
                Some(a) => match r.try_eval(env) {
                    Some(b) => a.checked_sub(b),
                    None => None,
                },
                None => None,
            },
            Expr::If(cond, branches) => match cond.try_eval(env) {
                Some(true) => branches.then_.try_eval(env),
                Some(false) => branches.else_.try_eval(env),
                None => None,
            },
        }
    }

    /// Appends to `vars` each variable name of the expression that is not
    /// already there, in left-to-right order.
    pub fn collect_variables(&self, vars: &mut Vec<String>)
        ensures
            strings_view(final(vars)@) == add_new(strings_view(old(vars)@), self@.names()),
        decreases self,
    {
        let ghost acc = strings_view(vars@);
        match self {
            Expr::Lit(_) => {
                assert(add_new(acc, self@.names()) == acc);
            },
            Expr::Var(name) => {
                add_name(vars, name);
            },
            Expr::Add(l, r) | Expr::Sub(l, r) => {
                proof {
                    lemma_add_new_append(acc, l@.names(), r@.names());
                }
                l.collect_variables(vars);
                r.collect_variables(vars);
            },
            Expr::If(cond, branches) => {
                proof {
                    lemma_add_new_append(acc, cond@.names() + branches.then_@.names(), branches.else_@.names());
                    lemma_add_new_append(acc, cond@.names(), branches.then_@.names());
                }
                cond.collect_variables(vars);
                branches.then_.collect_variables(vars);
                branches.else_.collect_variables(vars);
            },
        }
    }
}

impl BoolExpr {
    /// A boolean literal.
    pub fn lit(b: bool) -> (r: BoolExpr)
        ensures
            r@ == BoolExprModel::Lit(b),
    {
        BoolExpr::Lit(b)
    }

    /// Evaluates the expression in `env`; every variable reached must be
    /// bound and no intermediate result may leave the `i64` range.
    pub fn eval(&self, env: &Env) -> (r: bool)
        requires
            self@.eval(env@) is Val,
        ensures
            self@.eval(env@) == Eval::Val(r),
        decreases self,
    {
        match self {
            BoolExpr::Lit(b) => *b,
            BoolExpr::Le(l, r) => l.eval(env) <= r.eval(env),
            BoolExpr::Ge(l, r) => l.eval(env) >= r.eval(env),
            BoolExpr::Eq(l, r) => l.eval(env) == r.eval(env),
        }
    }

    /// Evaluates the expression in `env`; `None` when a variable reached is
    /// unbound or an intermediate result leaves the `i64` range.
    pub(crate) fn try_eval(&self, env: &Env) -> (r: Option<bool>)
        ensures
            match r {
                Some(v) => self@.eval(env@) == Eval::Val(v),
                None => !(self@.eval(env@) is Val),
            },
        decreases self,
    {
        let (l, r) = match self {
            BoolExpr::Lit(b) => {
                return Some(*b);
            },
            BoolExpr::Le(l, r) | BoolExpr::Ge(l, r) | BoolExpr::Eq(l, r) => (l, r),
        };
        let a = match l.try_eval(env) {
            Some(a) => a,
            None => {
                return None;
            },
        };
        let b = match r.try_eval(env) {
            Some(b) => b,
            None => {
                return None;
            },
        };
        match self {
            BoolExpr::Le(_, _) => Some(a <= b),
            BoolExpr::Ge(_, _) => Some(a >= b),
            _ => Some(a == b),
        }
    }

    /// Appends to `vars` each variable name of the expression that is not
    /// already there, in left-to-right order.
    pub fn collect_variables(&self, vars: &mut Vec<String>)
        ensures
            strings_view(final(vars)@) == add_new(strings_view(old(vars)@), self@.names()),
        decreases self,
    {
        let ghost acc = strings_view(vars@);
        match self {
            BoolExpr::Lit(_) => {
                assert(add_new(acc, self@.names()) == acc);
            },
            BoolExpr::Le(l, r) | BoolExpr::Ge(l, r) | BoolExpr::Eq(l, r) => {
                proof {
                    lemma_add_new_append(acc, l@.names(), r@.names());
                }
                l.collect_variables(vars);
                r.collect_variables(vars);
            },
        }
    }
}

impl SymExpr {
    /// Appends to `vars` each base variable name of the expression that is
    /// not already there, in left-to-right order (both branches of a
    /// conditional are visited).
    pub fn collect_variables(&self, vars: &mut Vec<String>)
        ensures
            strings_view(final(vars)@) == add_new(strings_view(old(vars)@), self@.names()),
        decreases self,
    {
        let ghost acc = strings_view(vars@);
        match self {
            SymExpr::Lit(_) => {
                assert(add_new(acc, self@.names()) == acc);
            },
            SymExpr::Var(v) => {
                add_name(vars, &v.name);
            },
            SymExpr::Add(l, r) | SymExpr::Sub(l, r) => {
                proof {
                    lemma_add_new_append(acc, l@.names(), r@.names());
                }
                l.collect_variables(vars);
                r.collect_variables(vars);
            },
            SymExpr::If(cond, branches) => {
                match branches {
                    SymIfBranches::ThenTaken { then_, else_ } => {
                        proof {
                            lemma_add_new_append(acc, cond@.names() + then_@.names(), else_@.names());
                            lemma_add_new_append(acc, cond@.names(), then_@.names());
                        }
                        cond.collect_variables(vars);
                        then_.collect_variables(vars);
                        else_.collect_variables(vars);
                    },
                    SymIfBranches::ElseTaken { then_, else_ } => {
                        proof {
                            lemma_add_new_append(acc, cond@.names() + then_@.names(), else_@.names());
                            lemma_add_new_append(acc, cond@.names(), then_@.names());
                        }
                        cond.collect_variables(vars);
                        then_.collect_variables(vars);
                        else_.collect_variables(vars);
                    },
                }
            },
        }
    }
}

impl SymBoolExpr {
    /// Appends to `vars` each base variable name of the expression that is
    /// not already there, in left-to-right order.
    pub fn collect_variables(&self, vars: &mut Vec<String>)
        ensures
            strings_view(final(vars)@) == add_new(strings_view(old(vars)@), self@.names()),
        decreases self,
    {
        let ghost acc = strings_view(vars@);
        match self {
            SymBoolExpr::Lit(_) => {
                assert(add_new(acc, self@.names()) == acc);
            },
            SymBoolExpr::Le(l, r) | SymBoolExpr::Ge(l, r) | SymBoolExpr::Eq(l, r) => {
                proof {
                    lemma_add_new_append(acc, l@.names(), r@.names());
                }
                l.collect_variables(vars);
                r.collect_variables(vars);
            },
        }
    }
}

} // verus!
