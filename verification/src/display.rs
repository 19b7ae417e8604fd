//! Textual rendering of expressions, statements, states and explorers.
use vstd::prelude::*;
use crate::env::Env;
use crate::node::{
    BoolExpr, BoolExprModel, Expr, ExprModel, SsaVar, SsaVarModel, Stmt, StmtModel, Stmts, SymBoolExpr,
    SymBoolExprModel, SymBranchesModel, SymExpr, SymExprModel, SymIfBranches, ssa_text,
};
use crate::state::{ConcolicState, StateModel, constraints_view, lets_view};
use crate::text::{insert_sorted, int_dec, lemma_push_to_set, lemma_sorted_names, push_char, push_i64, push_str, sorted_names, strictly_sorted, strings_view};

verus! {

/// `true` or `false`.
pub open spec fn bool_word(b: bool) -> Seq<char> {
    if b { seq!['t', 'r', 'u', 'e'] } else { seq!['f', 'a', 'l', 's', 'e'] }
}

/// `" + "`, `" - "`, `" <= "`, `" >= "`, `" == "` and `", "`.
pub open spec fn plus_text() -> Seq<char> { seq![' ', '+', ' '] }
pub open spec fn minus_text() -> Seq<char> { seq![' ', '-', ' '] }
pub open spec fn le_text() -> Seq<char> { seq![' ', '<', '=', ' '] }
pub open spec fn ge_text() -> Seq<char> { seq![' ', '>', '=', ' '] }
pub open spec fn eq_text() -> Seq<char> { seq![' ', '=', '=', ' '] }
pub open spec fn comma_text() -> Seq<char> { seq![',', ' '] }

/// `"ite("`.
pub open spec fn ite_text() -> Seq<char> { seq!['i', 't', 'e', '('] }

/// A parsed expression as text: infix operators, and `ite(c, t, e)` for a
/// conditional.
pub open spec fn expr_text(e: ExprModel) -> Seq<char>
    decreases e,
{
    match e {
        ExprModel::Lit(n) => int_dec(n as int),
        ExprModel::Var(x) => x,
        ExprModel::Add(l, r) => expr_text(*l) + plus_text() + expr_text(*r),
        ExprModel::Sub(l, r) => expr_text(*l) + minus_text() + expr_text(*r),
        ExprModel::If(c, t, f) => ite_text() + bool_text(*c) + comma_text() + expr_text(*t) + comma_text()
            + expr_text(*f) + seq![')'],
    }
}

/// A parsed condition as text.
pub open spec fn bool_text(c: BoolExprModel) -> Seq<char>
    decreases c,
{
    match c {
        BoolExprModel::Lit(b) => bool_word(b),
        BoolExprModel::Le(l, r) => expr_text(*l) + le_text() + expr_text(*r),
        BoolExprModel::Ge(l, r) => expr_text(*l) + ge_text() + expr_text(*r),
        BoolExprModel::Eq(l, r) => expr_text(*l) + eq_text() + expr_text(*r),
    }
}

/// An SSA expression as text; variables are written `name@version`, and
/// the branch kept as parsed is written as parsed.
pub open spec fn sym_text(e: SymExprModel) -> Seq<char>
    decreases e,
{
    match e {
        SymExprModel::Lit(n) => int_dec(n as int),
        SymExprModel::Var(v) => ssa_text(v),
        SymExprModel::Add(l, r) => sym_text(*l) + plus_text() + sym_text(*r),
        SymExprModel::Sub(l, r) => sym_text(*l) + minus_text() + sym_text(*r),
        SymExprModel::If(c, b) => ite_text() + sym_bool_text(*c) + comma_text() + branches_text(b) + seq![')'],
    }
}

/// The branches of an SSA conditional as text, then branch first.
pub open spec fn branches_text(b: SymBranchesModel) -> Seq<char>
    decreases b,
{
    match b {
        SymBranchesModel::ThenTaken(t, f) => sym_text(*t) + comma_text() + expr_text(f),
        SymBranchesModel::ElseTaken(t, f) => expr_text(t) + comma_text() + sym_text(*f),
    }
}

/// An SSA condition as text.
pub open spec fn sym_bool_text(c: SymBoolExprModel) -> Seq<char>
    decreases c,
{
    match c {
        SymBoolExprModel::Lit(b) => bool_word(b),
        SymBoolExprModel::Le(l, r) => sym_text(*l) + le_text() + sym_text(*r),
        SymBoolExprModel::Ge(l, r) => sym_text(*l) + ge_text() + sym_text(*r),
        SymBoolExprModel::Eq(l, r) => sym_text(*l) + eq_text() + sym_text(*r),
    }
}

/// A statement as text: `assert(c)` or `let name = e`.
pub open spec fn stmt_text(s: StmtModel) -> Seq<char> {
    match s {
        StmtModel::Assert(c) => seq!['a', 's', 's', 'e', 'r', 't', '('] + bool_text(c) + seq![')'],
        StmtModel::Let(x, e) => seq!['l', 'e', 't', ' '] + x + seq![' ', '=', ' '] + expr_text(e),
    }
}

/// Statements as text, separated by `"; "`.
pub open spec fn stmts_text(s: Seq<StmtModel>) -> Seq<char>
    decreases s.len(),
{
    if s.len() == 0 {
        seq![]
    } else if s.len() == 1 {
        stmt_text(s[0])
    } else {
        stmts_text(s.drop_last()) + seq![';', ' '] + stmt_text(s.last())
    }
}

fn write_expr(e: &Expr, s: &mut String)
    ensures
        final(s)@ == old(s)@ + expr_text(e@),
    decreases e,
{
    match e {
        Expr::Lit(n) => push_i64(s, *n),
        Expr::Var(x) => push_str(s, x.as_str()),
        Expr::Add(l, r) => {
            write_expr(l, s);
            proof { reveal_strlit(" + "); }
            push_str(s, " + ");
            write_expr(r, s);
        },
        Expr::Sub(l, r) => {
            write_expr(l, s);
            proof { reveal_strlit(" - "); }
            push_str(s, " - ");
            write_expr(r, s);
        },
        Expr::If(c, b) => {
            proof {
                reveal_strlit("ite(");
                reveal_strlit(", ");
            }
            push_str(s, "ite(");
            write_bool_expr(c, s);
            push_str(s, ", ");
            write_expr(&b.then_, s);
            push_str(s, ", ");
            write_expr(&b.else_, s);
            push_char(s, ')');
        },
    }
    assert(s@ =~= old(s)@ + expr_text(e@));
}

fn write_bool_expr(c: &BoolExpr, s: &mut String)
    ensures
        final(s)@ == old(s)@ + bool_text(c@),
    decreases c,
{
    proof {
        reveal_strlit("true");
        reveal_strlit("false");
        reveal_strlit(" <= ");
        reveal_strlit(" >= ");
        reveal_strlit(" == ");
    }
    match c {
        BoolExpr::Lit(b) => push_str(s, if *b { "true" } else { "false" }),
        BoolExpr::Le(l, r) => {
            write_expr(l, s);
            push_str(s, " <= ");
            write_expr(r, s);
        },
        BoolExpr::Ge(l, r) => {
            write_expr(l, s);
            push_str(s, " >= ");
            write_expr(r, s);
        },
        BoolExpr::Eq(l, r) => {
            write_expr(l, s);
            push_str(s, " == ");
            write_expr(r, s);
        },
    }
    assert(s@ =~= old(s)@ + bool_text(c@));
}

fn write_sym_expr(e: &SymExpr, s: &mut String)
    ensures
        final(s)@ == old(s)@ + sym_text(e@),
    decreases e, 1nat,
{
    match e {
        SymExpr::Lit(n) => push_i64(s, *n),
        SymExpr::Var(v) => {
            let t = v.to_string();
            push_str(s, t.as_str());
        },
        SymExpr::Add(l, r) => {
            write_sym_expr(l, s);
            proof { reveal_strlit(" + "); }
            push_str(s, " + ");
            write_sym_expr(r, s);
            assert(s@ =~= old(s)@ + sym_text(e@));
        },
        SymExpr::Sub(l, r) => {
            write_sym_expr(l, s);
            proof { reveal_strlit(" - "); }
            push_str(s, " - ");
            write_sym_expr(r, s);
            assert(s@ =~= old(s)@ + sym_text(e@));
        },
        SymExpr::If(c, b) => {
            proof {
                reveal_strlit("ite(");
                reveal_strlit(", ");
            }
            push_str(s, "ite(");
            write_sym_bool_expr(c, s);
            push_str(s, ", ");
            write_sym_branches(b, e, s);
            push_char(s, ')');
            assert(s@ =~= old(s)@ + sym_text(e@));
        },
    }
}

fn write_sym_branches(b: &SymIfBranches, e: &SymExpr, s: &mut String)
    requires
        e matches SymExpr::If(_, b0) && b0 == b,
    ensures
        e@ matches SymExprModel::If(_, bm) && final(s)@ == old(s)@ + branches_text(bm),
    decreases e, 0nat,
{
    proof {
        reveal_strlit(", ");
    }
    match b {
        SymIfBranches::ThenTaken { then_, else_ } => {
            write_sym_expr(then_, s);
            push_str(s, ", ");
            write_expr(else_, s);
        },
        SymIfBranches::ElseTaken { then_, else_ } => {
            write_expr(then_, s);
            push_str(s, ", ");
            write_sym_expr(else_, s);
        },
    }
    assert(e@ matches SymExprModel::If(_, bm) && s@ =~= old(s)@ + branches_text(bm));
}

fn write_sym_bool_expr(c: &SymBoolExpr, s: &mut String)
    ensures
        final(s)@ == old(s)@ + sym_bool_text(c@),
    decreases c, 1nat,
{
    proof {
        reveal_strlit("true");
        reveal_strlit("false");
        reveal_strlit(" <= ");
        reveal_strlit(" >= ");
        reveal_strlit(" == ");
    }
    match c {
        SymBoolExpr::Lit(b) => push_str(s, if *b { "true" } else { "false" }),
        SymBoolExpr::Le(l, r) => {
            write_sym_expr(l, s);
            push_str(s, " <= ");
            write_sym_expr(r, s);
        },
        SymBoolExpr::Ge(l, r) => {
            write_sym_expr(l, s);
            push_str(s, " >= ");
            write_sym_expr(r, s);
        },
        SymBoolExpr::Eq(l, r) => {
            write_sym_expr(l, s);
            push_str(s, " == ");
            write_sym_expr(r, s);
        },
    }
    assert(s@ =~= old(s)@ + sym_bool_text(c@));
}

impl Expr {
    /// The expression as text.
    pub fn to_string(&self) -> (r: String)
        ensures
            r@ == expr_text(self@),
    {
        let mut s = String::new();
        write_expr(self, &mut s);
        assert(s@ =~= expr_text(self@));
        s
    }
}

impl BoolExpr {
    /// The condition as text.
    pub fn to_string(&self) -> (r: String)
        ensures
            r@ == bool_text(self@),
    {
        let mut s = String::new();
        write_bool_expr(self, &mut s);
        assert(s@ =~= bool_text(self@));
        s
    }
}

impl SymExpr {
    /// The expression as text.
    pub fn to_string(&self) -> (r: String)
        ensures
            r@ == sym_text(self@),
    {
        let mut s = String::new();
        write_sym_expr(self, &mut s);
        assert(s@ =~= sym_text(self@));
        s
    }
}

impl SymBoolExpr {
    /// The condition as text.
    pub fn to_string(&self) -> (r: String)
        ensures
            r@ == sym_bool_text(self@),
    {
        let mut s = String::new();
        write_sym_bool_expr(self, &mut s);
        assert(s@ =~= sym_bool_text(self@));
        s
    }
}

fn write_stmt(st: &Stmt, s: &mut String)
    ensures
        final(s)@ == old(s)@ + stmt_text(st@),
{
    proof {
        reveal_strlit("assert(");
        reveal_strlit("let ");
        reveal_strlit(" = ");
    }
    match st {
        Stmt::Assert { expr } => {
            push_str(s, "assert(");
            write_bool_expr(expr, s);
            push_char(s, ')');
        },
        Stmt::Let { name, expr } => {
            push_str(s, "let ");
            push_str(s, name.as_str());
            push_str(s, " = ");
            write_expr(expr, s);
        },
    }
    assert(s@ =~= old(s)@ + stmt_text(st@));
}

impl Stmt {
    /// The statement as text.
    pub fn to_string(&self) -> (r: String)
        ensures
            r@ == stmt_text(self@),
    {
        let mut s = String::new();
        write_stmt(self, &mut s);
        assert(s@ =~= stmt_text(self@));
        s
    }
}

impl Stmts {
    /// The statements as text, separated by `"; "`.
    pub fn to_string(&self) -> (r: String)
        ensures
            r@ == stmts_text(self@),
    {
        let mut s = String::new();
        let mut i: usize = 0;
        while i < self.0.len()
            invariant
                i <= self.0@.len(),
                s@ == stmts_text(self@.take(i as int)),
                self@.len() == self.0@.len(),
                forall|k: int| 0 <= k < self@.len() ==> #[trigger] self@[k] == self.0@[k]@,
            decreases self.0.len() - i,
        {
            let ghost t = self@.take(i + 1);
            assert(t.drop_last() =~= self@.take(i as int));
            assert(t.last() == self.0@[i as int]@);
            proof {
                reveal_strlit("; ");
            }
            if i > 0 {
                push_str(&mut s, "; ");
            }
            write_stmt(&self.0[i], &mut s);
            proof {
                if i == 0 {
                    assert(t.len() == 1 && t[0] == self.0@[0]@);
                    assert(s@ =~= stmts_text(t));
                } else {
                    assert(s@ =~= stmts_text(t));
                }
            }
            i = i + 1;
        }
        assert(self@.take(i as int) =~= self@);
        s
    }
}

// ---------------------------------------------------------------------------
// Environments and states
// ---------------------------------------------------------------------------

/// `name = value` entries for `names`, separated by `", "`.
pub open spec fn entries_text(names: Seq<Seq<char>>, env: Map<Seq<char>, i64>) -> Seq<char>
    decreases names.len(),
{
    if names.len() == 0 {
        seq![]
    } else if names.len() == 1 {
        names[0] + seq![' ', '=', ' '] + int_dec(env[names[0]] as int)
    } else {
        entries_text(names.drop_last(), env) + comma_text() + names.last() + seq![' ', '=', ' ']
            + int_dec(env[names.last()] as int)
    }
}

/// The entries of an environment as text, sorted by name: `x = 1, y = 2`.
pub open spec fn env_text(env: Map<Seq<char>, i64>) -> Seq<char> {
    entries_text(sorted_names(env.dom()), env)
}

/// Appends the entries of `env`, sorted by name.
pub(crate) fn write_env(env: &Env, s: &mut String)
    ensures
        final(s)@ == old(s)@ + env_text(env@),
{
    let names = env.names();
    let mut sorted: Vec<String> = Vec::new();
    let mut i: usize = 0;
    while i < names.len()
        invariant
            i <= names@.len(),
            strictly_sorted(strings_view(sorted@)),
            strings_view(sorted@).to_set() == strings_view(names@).take(i as int).to_set(),
        decreases names.len() - i,
    {
        let ghost before = strings_view(names@).take(i as int);
        insert_sorted(&mut sorted, names[i].clone());
        proof {
            assert(strings_view(names@).take(i + 1) =~= before.push(names@[i as int]@));
            lemma_push_to_set(before, names@[i as int]@);
        }
        i = i + 1;
    }
    proof {
        assert(strings_view(names@).take(i as int) =~= strings_view(names@));
        lemma_sorted_names(strings_view(sorted@));
    }
    let ghost order = strings_view(sorted@);
    let ghost start = s@;
    let mut j: usize = 0;
    while j < sorted.len()
        invariant
            j <= sorted@.len(),
            order == strings_view(sorted@),
            order.to_set() == env@.dom(),
            s@ == start + entries_text(order.take(j as int), env@),
        decreases sorted.len() - j,
    {
        proof {
            reveal_strlit(", ");
            reveal_strlit(" = ");
            assert(order.to_set().contains(order[j as int]));
        }
        let value = match env.lookup(&sorted[j]) {
            Some(v) => *v,
            None => {
                assert(false);
                0
            },
        };
        if j > 0 {
            push_str(s, ", ");
        }
        push_str(s, sorted[j].as_str());
        push_str(s, " = ");
        push_i64(s, value);
        proof {
            let t = order.take(j + 1);
            assert(t.drop_last() =~= order.take(j as int));
            assert(t.last() == sorted@[j as int]@);
            assert(s@ =~= start + entries_text(t, env@));
        }
        j = j + 1;
    }
    assert(order.take(j as int) =~= order);
}


/// Whether every variable that the annotated rendering of `e` looks up is
/// bound in `env` (the branches of a conditional are not annotated).
pub open spec fn annotatable(e: SymExprModel, env: Map<Seq<char>, i64>) -> bool
    decreases e,
{
    match e {
        SymExprModel::Var(v) => env.contains_key(v.name),
        SymExprModel::Add(l, r) => annotatable(*l, env) && annotatable(*r, env),
        SymExprModel::Sub(l, r) => annotatable(*l, env) && annotatable(*r, env),
        _ => true,
    }
}

/// Whether both sides of a condition can be annotated.
pub open spec fn bool_annotatable(c: SymBoolExprModel, env: Map<Seq<char>, i64>) -> bool {
    match c {
        SymBoolExprModel::Lit(_) => true,
        SymBoolExprModel::Le(l, r) => annotatable(*l, env) && annotatable(*r, env),
        SymBoolExprModel::Ge(l, r) => annotatable(*l, env) && annotatable(*r, env),
        SymBoolExprModel::Eq(l, r) => annotatable(*l, env) && annotatable(*r, env),
    }
}

/// An SSA expression with the current value of each variable:
/// `x@0 [=4] + 1`; a conditional is written without values.
pub open spec fn annotated_text(e: SymExprModel, env: Map<Seq<char>, i64>) -> Seq<char>
    decreases e,
{
    match e {
        SymExprModel::Lit(n) => int_dec(n as int),
        SymExprModel::Var(v) => ssa_text(v) + seq![' ', '[', '='] + int_dec(env[v.name] as int) + seq![']'],
        SymExprModel::Add(l, r) => annotated_text(*l, env) + plus_text() + annotated_text(*r, env),
        SymExprModel::Sub(l, r) => annotated_text(*l, env) + minus_text() + annotated_text(*r, env),
        SymExprModel::If(_, _) => sym_text(e),
    }
}

/// An SSA condition with the current values of its variables.
pub open spec fn annotated_bool_text(c: SymBoolExprModel, env: Map<Seq<char>, i64>) -> Seq<char> {
    match c {
        SymBoolExprModel::Lit(b) => bool_word(b),
        SymBoolExprModel::Le(l, r) => annotated_text(*l, env) + le_text() + annotated_text(*r, env),
        SymBoolExprModel::Ge(l, r) => annotated_text(*l, env) + ge_text() + annotated_text(*r, env),
        SymBoolExprModel::Eq(l, r) => annotated_text(*l, env) + eq_text() + annotated_text(*r, env),
    }
}

/// An SSA expression as text with each variable outside conditionals
/// written by `var`; conditionals are written as `sym_text` writes them.
pub open spec fn sym_text_with(e: SymExprModel, var: spec_fn(SsaVarModel) -> Seq<char>) -> Seq<char>
    decreases e,
{
    match e {
        SymExprModel::Lit(n) => int_dec(n as int),
        SymExprModel::Var(v) => var(v),
        SymExprModel::Add(l, r) => sym_text_with(*l, var) + plus_text() + sym_text_with(*r, var),
        SymExprModel::Sub(l, r) => sym_text_with(*l, var) + minus_text() + sym_text_with(*r, var),
        SymExprModel::If(_, _) => sym_text(e),
    }
}

/// The text of a variable followed by its value: `x@0 [=4]`.
pub open spec fn annotated_var(v: SsaVarModel, env: Map<Seq<char>, i64>) -> Seq<char> {
    ssa_text(v) + seq![' ', '[', '='] + int_dec(env[v.name] as int) + seq![']']
}

/// The annotated text of an expression is its plain SSA text with each
/// variable outside conditionals followed by its value: the two differ in
/// nothing else, so the operators and literals shown are the expression's.
pub proof fn lemma_annotated_is_plain_with_values(e: SymExprModel, env: Map<Seq<char>, i64>)
    ensures
        sym_text(e) == sym_text_with(e, |v: SsaVarModel| ssa_text(v)),
        annotated_text(e, env) == sym_text_with(e, |v: SsaVarModel| annotated_var(v, env)),
    decreases e,
{
    match e {
        SymExprModel::Add(l, r) | SymExprModel::Sub(l, r) => {
            lemma_annotated_is_plain_with_values(*l, env);
            lemma_annotated_is_plain_with_values(*r, env);
        },
        _ => {},
    }
}

/// An SSA condition as text with each variable outside conditionals
/// written by `var`.
pub open spec fn sym_bool_text_with(c: SymBoolExprModel, var: spec_fn(SsaVarModel) -> Seq<char>) -> Seq<char> {
    match c {
        SymBoolExprModel::Lit(b) => bool_word(b),
        SymBoolExprModel::Le(l, r) => sym_text_with(*l, var) + le_text() + sym_text_with(*r, var),
        SymBoolExprModel::Ge(l, r) => sym_text_with(*l, var) + ge_text() + sym_text_with(*r, var),
        SymBoolExprModel::Eq(l, r) => sym_text_with(*l, var) + eq_text() + sym_text_with(*r, var),
    }
}

/// The annotated text of a condition (as a path constraint is shown) is
/// its plain SSA text with each variable outside conditionals followed by
/// its value.
pub proof fn lemma_annotated_bool_is_plain_with_values(c: SymBoolExprModel, env: Map<Seq<char>, i64>)
    ensures
        sym_bool_text(c) == sym_bool_text_with(c, |v: SsaVarModel| ssa_text(v)),
        annotated_bool_text(c, env) == sym_bool_text_with(c, |v: SsaVarModel| annotated_var(v, env)),
{
    match c {
        SymBoolExprModel::Le(l, r) | SymBoolExprModel::Ge(l, r) | SymBoolExprModel::Eq(l, r) => {
            lemma_annotated_is_plain_with_values(*l, env);
            lemma_annotated_is_plain_with_values(*r, env);
        },
        _ => {},
    }
}

/// One line per let constraint: `  name@version = expr`.
pub open spec fn lets_text(ls: Seq<(SsaVarModel, SymExprModel)>) -> Seq<char>
    decreases ls.len(),
{
    if ls.len() == 0 {
        seq![]
    } else {
        lets_text(ls.drop_last()) + seq![' ', ' '] + ssa_text(ls.last().0) + seq![' ', '=', ' ']
            + sym_text(ls.last().1) + seq!['\n']
    }
}

/// One line per path constraint: `  condition : direction`, the condition
/// annotated with values.
pub open spec fn constraints_text(cs: Seq<(SymBoolExprModel, bool)>, env: Map<Seq<char>, i64>) -> Seq<char>
    decreases cs.len(),
{
    if cs.len() == 0 {
        seq![]
    } else {
        constraints_text(cs.drop_last(), env) + seq![' ', ' '] + annotated_bool_text(cs.last().0, env)
            + seq![' ', ':', ' '] + bool_word(cs.last().1) + seq!['\n']
    }
}

/// A state as text: its environment, its let constraints (when there are
/// any) and its path constraints.
pub open spec fn state_text(st: StateModel) -> Seq<char> {
    seq!['E', 'n', 'v', ':', ' '] + env_text(st.env) + seq!['\n'] + (if st.let_constraints.len() > 0 {
        "Let constraints:\n"@ + lets_text(st.let_constraints)
    } else {
        seq![]
    }) + "Path constraints:\n"@ + constraints_text(st.path_constraints, st.env)
}

fn write_annotated(e: &SymExpr, env: &Env, s: &mut String)
    requires
        annotatable(e@, env@),
    ensures
        final(s)@ == old(s)@ + annotated_text(e@, env@),
    decreases e,
{
    match e {
        SymExpr::Lit(n) => push_i64(s, *n),
        SymExpr::Var(v) => {
            proof {
                reveal_strlit(" [=");
            }
            let value = match env.lookup(&v.name) {
                Some(x) => *x,
                None => {
                    assert(false);
                    0
                },
            };
            let t = v.to_string();
            push_str(s, t.as_str());
            push_str(s, " [=");
            push_i64(s, value);
            push_char(s, ']');
            assert(s@ =~= old(s)@ + annotated_text(e@, env@));
        },
        SymExpr::Add(l, r) => {
            write_annotated(l, env, s);
            proof { reveal_strlit(" + "); }
            push_str(s, " + ");
            write_annotated(r, env, s);
            assert(s@ =~= old(s)@ + annotated_text(e@, env@));
        },
        SymExpr::Sub(l, r) => {
            write_annotated(l, env, s);
            proof { reveal_strlit(" - "); }
            push_str(s, " - ");
            write_annotated(r, env, s);
            assert(s@ =~= old(s)@ + annotated_text(e@, env@));
        },
        SymExpr::If(_, _) => write_sym_expr(e, s),
    }
}

fn write_annotated_bool(c: &SymBoolExpr, env: &Env, s: &mut String)
    requires
        bool_annotatable(c@, env@),
    ensures
        final(s)@ == old(s)@ + annotated_bool_text(c@, env@),
{
    proof {
        reveal_strlit("true");
        reveal_strlit("false");
        reveal_strlit(" <= ");
        reveal_strlit(" >= ");
        reveal_strlit(" == ");
    }
    match c {
        SymBoolExpr::Lit(b) => push_str(s, if *b { "true" } else { "false" }),
        SymBoolExpr::Le(l, r) => {
            write_annotated(l, env, s);
            push_str(s, " <= ");
            write_annotated(r, env, s);
        },
        SymBoolExpr::Ge(l, r) => {
            write_annotated(l, env, s);
            push_str(s, " >= ");
            write_annotated(r, env, s);
        },
        SymBoolExpr::Eq(l, r) => {
            write_annotated(l, env, s);
            push_str(s, " == ");
            write_annotated(r, env, s);
        },
    }
    assert(s@ =~= old(s)@ + annotated_bool_text(c@, env@));
}

impl ConcolicState {
    /// The state as text: `Env: ...`, then the let constraints (when there
    /// are any), then the path constraints with the current values of their
    /// variables. Every variable a path constraint shows a value for must be
    /// bound.
    pub fn to_string(&self) -> (r: String)
        requires
            forall|i: int| 0 <= i < self.path_constraints@.len()
                ==> bool_annotatable(#[trigger] self.path_constraints@[i].0@, self.env@),
        ensures
            r@ == state_text(self@),
    {
        proof {
            reveal_strlit("Env: ");
            reveal_strlit("Let constraints:\n");
            reveal_strlit("Path constraints:\n");
        }
        let mut s = String::new();
        push_str(&mut s, "Env: ");
        write_env(&self.env, &mut s);
        push_char(&mut s, '\n');
        if self.let_constraints.len() > 0 {
            push_str(&mut s, "Let constraints:\n");
            let ghost start = s@;
            let ghost ls = lets_view(self.let_constraints@);
            let mut i: usize = 0;
            while i < self.let_constraints.len()
                invariant
                    i <= self.let_constraints@.len(),
                    ls == lets_view(self.let_constraints@),
                    s@ == start + lets_text(ls.take(i as int)),
                decreases self.let_constraints.len() - i,
            {
                proof {
                    reveal_strlit("  ");
                    reveal_strlit(" = ");
                }
                push_str(&mut s, "  ");
                let t = self.let_constraints[i].0.to_string();
                push_str(&mut s, t.as_str());
                push_str(&mut s, " = ");
                write_sym_expr(&self.let_constraints[i].1, &mut s);
                push_char(&mut s, '\n');
                proof {
                    let tk = ls.take(i + 1);
                    assert(tk.drop_last() =~= ls.take(i as int));
                    assert(tk.last() == ls[i as int]);
                    assert(s@ =~= start + lets_text(tk));
                }
                i = i + 1;
            }
            assert(ls.take(i as int) =~= ls);
        }
        push_str(&mut s, "Path constraints:\n");
        let ghost start = s@;
        let ghost cs = constraints_view(self.path_constraints@);
        let mut j: usize = 0;
        while j < self.path_constraints.len()
            invariant
                j <= self.path_constraints@.len(),
                cs == constraints_view(self.path_constraints@),
                forall|i: int| 0 <= i < self.path_constraints@.len()
                    ==> bool_annotatable(#[trigger] self.path_constraints@[i].0@, self.env@),
                s@ == start + constraints_text(cs.take(j as int), self.env@),
            decreases self.path_constraints.len() - j,
        {
            proof {
                reveal_strlit("  ");
                reveal_strlit(" : ");
                reveal_strlit("true");
                reveal_strlit("false");
            }
            push_str(&mut s, "  ");
            write_annotated_bool(&self.path_constraints[j].0, &self.env, &mut s);
            push_str(&mut s, " : ");
            push_str(&mut s, if self.path_constraints[j].1 { "true" } else { "false" });
            push_char(&mut s, '\n');
            proof {
                let tk = cs.take(j + 1);
                assert(tk.drop_last() =~= cs.take(j as int));
                assert(tk.last() == cs[j as int]);
                assert(s@ =~= start + constraints_text(tk, self.env@));
            }
            j = j + 1;
        }
        assert(cs.take(j as int) =~= cs);
        assert(s@ =~= state_text(self@));
        s
    }
}

} // verus!
