//! Parser for the expression language.
//!
//! Grammar:
//! ```text
//! expr       := if_expr | arith_expr
//! if_expr    := "if" bool_expr "then" expr "else" expr
//! arith_expr := term (('+' | '-') term)*
//! term       := number | '(' expr ')' | var
//!
//! bool_expr  := "true" | "false" | expr cmp_op expr
//! cmp_op     := "<=" | ">=" | "=="
//!
//! stmts      := stmt (';' stmt)*
//! stmt       := "assert" '(' bool_expr ')' | "let" var '=' expr
//!
//! var        := [a-z][a-z0-9_]*        (not a keyword)
//! number     := '-'? [0-9]+
//! ```
//! Whitespace may surround every token. Alternatives are tried in order and
//! a repetition stops at the first item that does not parse. A number whose
//! digits exceed `i64::MAX` is not accepted by the parse functions.
use vstd::prelude::*;
use crate::node::{BoolExpr, BoolExprModel, Expr, ExprModel, Stmt, StmtModel, Stmts};
use crate::text::chars_of;

verus! {

/// Error returned when the input is not in the language.
#[derive(Debug, Clone, Copy, PartialEq, Eq, Structural)]
pub struct ParseError;

/// Outcome of parsing at a position: a value and the number of characters
/// consumed (trailing whitespace included), no parse, or a number literal
/// too large for `i64`.
pub enum Parsed<T> {
    Value(T, nat),
    Fail,
    Overflow,
}

/// Whitespace, as `char::is_whitespace` defines it (Unicode `White_Space`).
pub open spec fn is_ws(c: char) -> bool {
    ('\u{9}' <= c && c <= '\u{d}') || c == ' ' || c == '\u{85}' || c == '\u{a0}' || c == '\u{1680}'
        || ('\u{2000}' <= c && c <= '\u{200a}') || c == '\u{2028}' || c == '\u{2029}' || c == '\u{202f}'
        || c == '\u{205f}' || c == '\u{3000}'
}

/// An ASCII digit.
pub open spec fn is_digit(c: char) -> bool {
    '0' <= c && c <= '9'
}

/// A lowercase ASCII letter.
pub open spec fn is_lower(c: char) -> bool {
    'a' <= c && c <= 'z'
}

/// A character that may follow the first one of a variable.
pub open spec fn is_var_char(c: char) -> bool {
    is_lower(c) || is_digit(c) || c == '_'
}

/// A character of an identifier: an ASCII letter or digit, or `_`.
pub open spec fn is_ident_char(c: char) -> bool {
    is_var_char(c) || ('A' <= c && c <= 'Z')
}

/// The measure of the remaining input from `p`.
pub open spec fn rest(s: Seq<char>, p: int) -> nat {
    if p <= s.len() { (s.len() - p) as nat } else { 0 }
}

/// The number of whitespace characters from `p` on.
pub open spec fn ws_len(s: Seq<char>, p: int) -> nat
    decreases rest(s, p),
{
    if 0 <= p < s.len() && is_ws(s[p]) { 1 + ws_len(s, p + 1) } else { 0 }
}

/// The number of digits from `p` on.
pub open spec fn digits_len(s: Seq<char>, p: int) -> nat
    decreases rest(s, p),
{
    if 0 <= p < s.len() && is_digit(s[p]) { 1 + digits_len(s, p + 1) } else { 0 }
}

/// The number of variable characters from `p` on.
pub open spec fn var_tail_len(s: Seq<char>, p: int) -> nat
    decreases rest(s, p),
{
    if 0 <= p < s.len() && is_var_char(s[p]) { 1 + var_tail_len(s, p + 1) } else { 0 }
}

/// The value of the `n` digits from `p` on.
pub open spec fn digits_value(s: Seq<char>, p: int, n: nat) -> int
    decreases n,
{
    if n == 0 { 0 } else { digits_value(s, p, (n - 1) as nat) * 10 + (s[p + n - 1] as int - '0' as int) }
}

/// Whether keyword `kw` stands at `p`, not followed by an identifier
/// character.
pub open spec fn keyword_at(s: Seq<char>, p: int, kw: Seq<char>) -> bool {
    &&& 0 <= p
    &&& p + kw.len() <= s.len()
    &&& s.subrange(p, p + kw.len()) == kw
    &&& !(p + kw.len() < s.len() && is_ident_char(s[p + kw.len()]))
}

/// The reserved words.
pub open spec fn is_keyword(w: Seq<char>) -> bool {
    w == seq!['i', 'f'] || w == seq!['t', 'h', 'e', 'n'] || w == seq!['e', 'l', 's', 'e']
        || w == seq!['t', 'r', 'u', 'e'] || w == seq!['f', 'a', 'l', 's', 'e']
}

/// Whether character `c` stands at `p`.
pub open spec fn char_at(s: Seq<char>, p: int, c: char) -> bool {
    0 <= p < s.len() && s[p] == c
}

/// A number literal at `p`.
pub open spec fn number(s: Seq<char>, p: int) -> Parsed<i64> {
    let neg = char_at(s, p, '-');
    let d = if neg { p + 1 } else { p };
    let n = digits_len(s, d);
    let v = digits_value(s, d, n);
    if n == 0 {
        Parsed::Fail
    } else if v > i64::MAX {
        Parsed::Overflow
    } else {
        Parsed::Value((if neg { -v } else { v }) as i64, (d - p + n + ws_len(s, d + n)) as nat)
    }
}

/// A variable at `p`.
pub open spec fn var(s: Seq<char>, p: int) -> Parsed<Seq<char>> {
    if 0 <= p < s.len() && is_lower(s[p]) {
        let n = 1 + var_tail_len(s, p + 1);
        let name = s.subrange(p, p + n);
        if is_keyword(name) { Parsed::Fail } else { Parsed::Value(name, n + ws_len(s, p + n)) }
    } else {
        Parsed::Fail
    }
}

/// The comparison operator at `p`: 0 for `<=`, 1 for `>=`, 2 for `==`.
pub open spec fn relation_at(s: Seq<char>, p: int) -> Option<nat> {
    if 0 <= p && p + 1 < s.len() && s[p + 1] == '=' {
        if s[p] == '<' { Some(0) } else if s[p] == '>' { Some(1) } else if s[p] == '=' { Some(2) } else { None }
    } else {
        None
    }
}

/// The comparison of `l` and `r` by operator `op`.
pub open spec fn comparison(op: nat, l: ExprModel, r: ExprModel) -> BoolExprModel {
    if op == 0 {
        BoolExprModel::Le(Box::new(l), Box::new(r))
    } else if op == 1 {
        BoolExprModel::Ge(Box::new(l), Box::new(r))
    } else {
        BoolExprModel::Eq(Box::new(l), Box::new(r))
    }
}

/// `term` at `p`: a number, a parenthesized expression or a variable.
pub open spec fn term(s: Seq<char>, p: int) -> Parsed<ExprModel>
    decreases rest(s, p), 1nat,
{
    match number(s, p) {
        Parsed::Value(n, c) => Parsed::Value(ExprModel::Lit(n), c),
        Parsed::Overflow => Parsed::Overflow,
        Parsed::Fail => if char_at(s, p, '(') {
            let q = p + 1 + ws_len(s, p + 1);
            match expr(s, q) {
                Parsed::Value(e, c) => if char_at(s, q + c, ')') {
                    Parsed::Value(e, (q + c + 1 + ws_len(s, q + c + 1) - p) as nat)
                } else {
                    Parsed::Fail
                },
                Parsed::Fail => Parsed::Fail,
                Parsed::Overflow => Parsed::Overflow,
            }
        } else {
            match var(s, p) {
                Parsed::Value(x, c) => Parsed::Value(ExprModel::Var(x), c),
                _ => Parsed::Fail,
            }
        },
    }
}

/// The `(('+' | '-') term)*` part of `arith_expr` at `q`, folded onto `acc`.
pub open spec fn arith_rest(s: Seq<char>, acc: ExprModel, q: int) -> Parsed<ExprModel>
    decreases rest(s, q), 2nat,
{
    if char_at(s, q, '+') || char_at(s, q, '-') {
        let q1 = q + 1 + ws_len(s, q + 1);
        match term(s, q1) {
            Parsed::Value(t, c) => {
                let acc2 = if s[q] == '+' {
                    ExprModel::Add(Box::new(acc), Box::new(t))
                } else {
                    ExprModel::Sub(Box::new(acc), Box::new(t))
                };
                match arith_rest(s, acc2, q1 + c) {
                    Parsed::Value(e, c2) => Parsed::Value(e, (q1 + c + c2 - q) as nat),
                    Parsed::Fail => Parsed::Fail,
                    Parsed::Overflow => Parsed::Overflow,
                }
            },
            Parsed::Fail => Parsed::Value(acc, 0),
            Parsed::Overflow => Parsed::Overflow,
        }
    } else {
        Parsed::Value(acc, 0)
    }
}

/// `arith_expr` at `p`.
pub open spec fn arith(s: Seq<char>, p: int) -> Parsed<ExprModel>
    decreases rest(s, p), 3nat,
{
    match term(s, p) {
        Parsed::Value(t, c) => match arith_rest(s, t, p + c) {
            Parsed::Value(e, c2) => Parsed::Value(e, c + c2),
            Parsed::Fail => Parsed::Fail,
            Parsed::Overflow => Parsed::Overflow,
        },
        Parsed::Fail => Parsed::Fail,
        Parsed::Overflow => Parsed::Overflow,
    }
}

/// The operators and terms of the chain `op1 t1 op2 t2 ...` that follows
/// `q`, as far as each `+` or `-` is followed by a term; `true` stands for
/// `+`.
pub open spec fn signed_terms(s: Seq<char>, q: int) -> Seq<(bool, ExprModel)>
    decreases rest(s, q),
{
    if char_at(s, q, '+') || char_at(s, q, '-') {
        let q1 = q + 1 + ws_len(s, q + 1);
        match term(s, q1) {
            Parsed::Value(t, c) => seq![(s[q] == '+', t)] + signed_terms(s, q1 + c),
            _ => seq![],
        }
    } else {
        seq![]
    }
}

/// The value of `v op1 t1 op2 t2 ...` computed from left to right, over the
/// mathematical integers; `None` when a term has no value.
pub open spec fn left_to_right(v: Option<int>, ts: Seq<(bool, ExprModel)>, env: Map<Seq<char>, i64>) -> Option<int>
    decreases ts.len(),
{
    if ts.len() == 0 {
        v
    } else {
        match (v, ts[0].1.value(env)) {
            (Some(a), Some(b)) => left_to_right(Some(if ts[0].0 { a + b } else { a - b }), ts.drop_first(), env),
            _ => None,
        }
    }
}

/// Once a value is missing it stays missing.
proof fn lemma_left_to_right_none(ts: Seq<(bool, ExprModel)>, env: Map<Seq<char>, i64>)
    ensures
        left_to_right(None, ts, env) is None,
{
}

/// `+` and `-` associate to the left: the expression parsed for the rest
/// of a chain after `acc` has, in every environment, the value of `acc`
/// followed by the chain's terms computed from left to right.
pub proof fn lemma_arith_rest_left_to_right(s: Seq<char>, acc: ExprModel, q: int, env: Map<Seq<char>, i64>)
    requires
        arith_rest(s, acc, q) is Value,
    ensures
        arith_rest(s, acc, q)->Value_0.value(env) == left_to_right(acc.value(env), signed_terms(s, q), env),
    decreases rest(s, q),
{
    if char_at(s, q, '+') || char_at(s, q, '-') {
        let q1 = q + 1 + ws_len(s, q + 1);
        match term(s, q1) {
            Parsed::Value(t, c) => {
                let acc2 = if s[q] == '+' {
                    ExprModel::Add(Box::new(acc), Box::new(t))
                } else {
                    ExprModel::Sub(Box::new(acc), Box::new(t))
                };
                lemma_arith_rest_left_to_right(s, acc2, q1 + c, env);
                let ts = signed_terms(s, q);
                let tail = signed_terms(s, q1 + c);
                assert(ts == seq![(s[q] == '+', t)] + tail);
                assert(ts[0] == (s[q] == '+', t));
                assert(ts.drop_first() =~= tail);
                lemma_left_to_right_none(tail, env);
            },
            _ => {},
        }
    }
}

/// A chain `t0 op1 t1 ... opn tn` of `+` and `-` parses to an expression
/// whose value, in every environment, is that of its terms computed from
/// left to right: `a - b - c` means `(a - b) - c`.
pub proof fn lemma_arith_left_to_right(s: Seq<char>, p: int, env: Map<Seq<char>, i64>)
    requires
        arith(s, p) is Value,
    ensures
        term(s, p) is Value,
        arith(s, p)->Value_0.value(env) == left_to_right(
            term(s, p)->Value_0.value(env),
            signed_terms(s, p + term(s, p)->Value_1),
            env,
        ),
{
    let t = term(s, p)->Value_0;
    let c = term(s, p)->Value_1;
    lemma_arith_rest_left_to_right(s, t, p + c, env);
}

/// `expr` at `p`. After the keyword `if`, nothing but an `if_expr` can
/// parse.
pub open spec fn expr(s: Seq<char>, p: int) -> Parsed<ExprModel>
    decreases rest(s, p), 4nat,
{
    if keyword_at(s, p, seq!['i', 'f']) {
        let q = p + 2 + ws_len(s, p + 2);
        match bool_expr(s, q) {
            Parsed::Value(c, n1) => {
                let q2 = q + n1;
                if keyword_at(s, q2, seq!['t', 'h', 'e', 'n']) {
                    let q3 = q2 + 4 + ws_len(s, q2 + 4);
                    match expr(s, q3) {
                        Parsed::Value(t, n2) => {
                            let q4 = q3 + n2;
                            if keyword_at(s, q4, seq!['e', 'l', 's', 'e']) {
                                let q5 = q4 + 4 + ws_len(s, q4 + 4);
                                match expr(s, q5) {
                                    Parsed::Value(f, n3) => Parsed::Value(
                                        ExprModel::If(Box::new(c), Box::new(t), Box::new(f)),
                                        (q5 + n3 - p) as nat,
                                    ),
                                    Parsed::Fail => Parsed::Fail,
                                    Parsed::Overflow => Parsed::Overflow,
                                }
                            } else {
                                Parsed::Fail
                            }
                        },
                        Parsed::Fail => Parsed::Fail,
                        Parsed::Overflow => Parsed::Overflow,
                    }
                } else {
                    Parsed::Fail
                }
            },
            Parsed::Fail => Parsed::Fail,
            Parsed::Overflow => Parsed::Overflow,
        }
    } else {
        arith(s, p)
    }
}

/// `bool_expr` at `p`.
pub open spec fn bool_expr(s: Seq<char>, p: int) -> Parsed<BoolExprModel>
    decreases rest(s, p), 5nat,
{
    if keyword_at(s, p, seq!['t', 'r', 'u', 'e']) {
        Parsed::Value(BoolExprModel::Lit(true), 4 + ws_len(s, p + 4))
    } else if keyword_at(s, p, seq!['f', 'a', 'l', 's', 'e']) {
        Parsed::Value(BoolExprModel::Lit(false), 5 + ws_len(s, p + 5))
    } else {
        match expr(s, p) {
            Parsed::Value(l, n1) => {
                let q = p + n1;
                match relation_at(s, q) {
                    Some(op) => {
                        let q2 = q + 2 + ws_len(s, q + 2);
                        match expr(s, q2) {
                            Parsed::Value(r, n2) => Parsed::Value(comparison(op, l, r), (q2 + n2 - p) as nat),
                            Parsed::Fail => Parsed::Fail,
                            Parsed::Overflow => Parsed::Overflow,
                        }
                    },
                    None => Parsed::Fail,
                }
            },
            Parsed::Fail => Parsed::Fail,
            Parsed::Overflow => Parsed::Overflow,
        }
    }
}

/// `stmt` at `p`.
pub open spec fn stmt(s: Seq<char>, p: int) -> Parsed<StmtModel> {
    if keyword_at(s, p, seq!['a', 's', 's', 'e', 'r', 't']) {
        let q = p + 6 + ws_len(s, p + 6);
        if char_at(s, q, '(') {
            let q1 = q + 1 + ws_len(s, q + 1);
            match bool_expr(s, q1) {
                Parsed::Value(c, n) => if char_at(s, q1 + n, ')') {
                    Parsed::Value(StmtModel::Assert(c), (q1 + n + 1 + ws_len(s, q1 + n + 1) - p) as nat)
                } else {
                    Parsed::Fail
                },
                Parsed::Fail => Parsed::Fail,
                Parsed::Overflow => Parsed::Overflow,
            }
        } else {
            Parsed::Fail
        }
    } else if keyword_at(s, p, seq!['l', 'e', 't']) {
        let q = p + 3 + ws_len(s, p + 3);
        match var(s, q) {
            Parsed::Value(x, n) => if char_at(s, q + n, '=') {
                let q1 = q + n + 1 + ws_len(s, q + n + 1);
                match expr(s, q1) {
                    Parsed::Value(e, n2) => Parsed::Value(StmtModel::Let(x, e), (q1 + n2 - p) as nat),
                    Parsed::Fail => Parsed::Fail,
                    Parsed::Overflow => Parsed::Overflow,
                }
            } else {
                Parsed::Fail
            },
            _ => Parsed::Fail,
        }
    } else {
        Parsed::Fail
    }
}

/// The `(';' stmt)*` part of `stmts` at `q`, appended to `acc`.
pub open spec fn stmts_rest(s: Seq<char>, acc: Seq<StmtModel>, q: int) -> Parsed<Seq<StmtModel>>
    decreases rest(s, q),
{
    if char_at(s, q, ';') {
        let q1 = q + 1 + ws_len(s, q + 1);
        match stmt(s, q1) {
            Parsed::Value(st, n) => match stmts_rest(s, acc.push(st), q1 + n) {
                Parsed::Value(v, n2) => Parsed::Value(v, (q1 + n + n2 - q) as nat),
                Parsed::Fail => Parsed::Fail,
                Parsed::Overflow => Parsed::Overflow,
            },
            Parsed::Fail => Parsed::Value(acc, 0),
            Parsed::Overflow => Parsed::Overflow,
        }
    } else {
        Parsed::Value(acc, 0)
    }
}

/// The parse `r`, made at the first non-blank position, when it covers the
/// whole input.
pub open spec fn whole<T>(s: Seq<char>, r: Parsed<T>) -> Parsed<T> {
    match r {
        Parsed::Value(v, n) => if ws_len(s, 0) + n == s.len() { Parsed::Value(v, s.len()) } else { Parsed::Fail },
        Parsed::Fail => Parsed::Fail,
        Parsed::Overflow => Parsed::Overflow,
    }
}

/// The parse of a whole input as an expression.
pub open spec fn expr_parse(s: Seq<char>) -> Parsed<ExprModel> {
    whole(s, expr(s, ws_len(s, 0) as int))
}

/// The parse of a whole input as a boolean expression.
pub open spec fn bool_expr_parse(s: Seq<char>) -> Parsed<BoolExprModel> {
    whole(s, bool_expr(s, ws_len(s, 0) as int))
}

/// The parse of a whole input as statements.
pub open spec fn stmts_parse(s: Seq<char>) -> Parsed<Seq<StmtModel>> {
    let p = ws_len(s, 0) as int;
    whole(
        s,
        match stmt(s, p) {
            Parsed::Value(st, n) => match stmts_rest(s, seq![st], p + n) {
                Parsed::Value(v, n2) => Parsed::Value(v, n + n2),
                Parsed::Fail => Parsed::Fail,
                Parsed::Overflow => Parsed::Overflow,
            },
            Parsed::Fail => Parsed::Fail,
            Parsed::Overflow => Parsed::Overflow,
        },
    )
}

// ---------------------------------------------------------------------------
// Executable parser
// ---------------------------------------------------------------------------

/// Why a parse function did not return a value.
enum PErr {
    Fail,
    Overflow,
}

/// Whether an executable parse result agrees with the outcome `o` of the
/// specification, for a parse started at `p` in an input of length `len`.
spec fn agrees<U: View>(r: Result<(U, usize), PErr>, p: usize, len: nat, o: Parsed<U::V>) -> bool {
    match r {
        Ok((u, q)) => p <= q <= len && o == Parsed::Value(u@, (q - p) as nat),
        Err(PErr::Fail) => o is Fail,
        Err(PErr::Overflow) => o is Overflow,
    }
}

fn is_ws_char(c: char) -> (r: bool)
    ensures
        r == is_ws(c),
{
    ('\u{9}' <= c && c <= '\u{d}') || c == ' ' || c == '\u{85}' || c == '\u{a0}' || c == '\u{1680}'
        || ('\u{2000}' <= c && c <= '\u{200a}') || c == '\u{2028}' || c == '\u{2029}' || c == '\u{202f}'
        || c == '\u{205f}' || c == '\u{3000}'
}

fn is_var_char_exec(c: char) -> (r: bool)
    ensures
        r == is_var_char(c),
{
    ('a' <= c && c <= 'z') || ('0' <= c && c <= '9') || c == '_'
}

/// The position after the whitespace at `p`.
fn skip_ws(s: &Vec<char>, p: usize) -> (r: usize)
    requires
        p <= s@.len(),
    ensures
        r == p + ws_len(s@, p as int),
        r <= s@.len(),
{
    let mut q = p;
    while q < s.len() && is_ws_char(s[q])
        invariant
            p <= q <= s@.len(),
            ws_len(s@, p as int) == (q - p) + ws_len(s@, q as int),
        decreases s@.len() - q,
    {
        q = q + 1;
    }
    q
}

/// The position after the digits at `p`.
fn digits_end(s: &Vec<char>, p: usize) -> (r: usize)
    requires
        p <= s@.len(),
    ensures
        r == p + digits_len(s@, p as int),
        r <= s@.len(),
        forall|i: int| p <= i < r ==> is_digit(#[trigger] s@[i]),
{
    let mut q = p;
    while q < s.len() && '0' <= s[q] && s[q] <= '9'
        invariant
            p <= q <= s@.len(),
            digits_len(s@, p as int) == (q - p) + digits_len(s@, q as int),
            forall|i: int| p <= i < q ==> is_digit(#[trigger] s@[i]),
        decreases s@.len() - q,
    {
        q = q + 1;
    }
    q
}

/// The position after the variable characters at `p`.
fn var_end(s: &Vec<char>, p: usize) -> (r: usize)
    requires
        p <= s@.len(),
    ensures
        r == p + var_tail_len(s@, p as int),
        r <= s@.len(),
{
    let mut q = p;
    while q < s.len() && is_var_char_exec(s[q])
        invariant
            p <= q <= s@.len(),
            var_tail_len(s@, p as int) == (q - p) + var_tail_len(s@, q as int),
        decreases s@.len() - q,
    {
        q = q + 1;
    }
    q
}

/// Whether the characters from `from` to `to` spell `w`.
fn span_is(s: &Vec<char>, from: usize, to: usize, w: &str) -> (r: bool)
    requires
        from <= to <= s@.len(),
    ensures
        r == (s@.subrange(from as int, to as int) == w@),
{
    let wc = chars_of(w);
    if to - from != wc.len() {
        return false;
    }
    let mut i: usize = 0;
    while i < wc.len()
        invariant
            to - from == wc@.len(),
            from <= to <= s@.len(),
            wc@ == w@,
            i <= wc@.len(),
            forall|k: int| 0 <= k < i ==> s@[from + k] == wc@[k],
        decreases wc.len() - i,
    {
        if s[from + i] != wc[i] {
            assert(s@.subrange(from as int, to as int)[i as int] != w@[i as int]);
            return false;
        }
        i = i + 1;
    }
    assert(s@.subrange(from as int, to as int) =~= w@);
    true
}

/// Whether keyword `kw` stands at `p`.
fn keyword_here(s: &Vec<char>, p: usize, kw: &str) -> (r: bool)
    requires
        p <= s@.len(),
    ensures
        r == keyword_at(s@, p as int, kw@),
{
    let n = kw.unicode_len();
    if n > s.len() - p {
        return false;
    }
    if !span_is(s, p, p + n, kw) {
        return false;
    }
    let e = p + n;
    if e < s.len() {
        let c = s[e];
        if is_var_char_exec(c) || ('A' <= c && c <= 'Z') {
            return false;
        }
    }
    true
}

/// Whether the characters from `from` to `to` form a keyword.
fn is_keyword_span(s: &Vec<char>, from: usize, to: usize) -> (r: bool)
    requires
        from <= to <= s@.len(),
    ensures
        r == is_keyword(s@.subrange(from as int, to as int)),
{
    proof {
        reveal_strlit("if");
        reveal_strlit("then");
        reveal_strlit("else");
        reveal_strlit("true");
        reveal_strlit("false");
        assert("if"@ =~= seq!['i', 'f']);
        assert("then"@ =~= seq!['t', 'h', 'e', 'n']);
        assert("else"@ =~= seq!['e', 'l', 's', 'e']);
        assert("true"@ =~= seq!['t', 'r', 'u', 'e']);
        assert("false"@ =~= seq!['f', 'a', 'l', 's', 'e']);
    }
    span_is(s, from, to, "if") || span_is(s, from, to, "then") || span_is(s, from, to, "else")
        || span_is(s, from, to, "true") || span_is(s, from, to, "false")
}

fn digit_value(c: char) -> (r: i64)
    requires
        is_digit(c),
    ensures
        r == c as int - '0' as int,
{
    if c == '0' { 0 }
    else if c == '1' { 1 }
    else if c == '2' { 2 }
    else if c == '3' { 3 }
    else if c == '4' { 4 }
    else if c == '5' { 5 }
    else if c == '6' { 6 }
    else if c == '7' { 7 }
    else if c == '8' { 8 }
    else { 9 }
}

proof fn lemma_digits_value_grows(s: Seq<char>, p: int, k: nat, n: nat)
    requires
        k <= n,
        forall|i: int| p <= i < p + n ==> is_digit(#[trigger] s[i]),
    ensures
        0 <= digits_value(s, p, k) <= digits_value(s, p, n),
    decreases n,
{
    if k < n {
        lemma_digits_value_grows(s, p, k, (n - 1) as nat);
        assert(is_digit(s[p + n - 1]));
    } else if n > 0 {
        lemma_digits_value_grows(s, p, (n - 1) as nat, (n - 1) as nat);
        assert(is_digit(s[p + n - 1]));
    }
}

/// A number literal at `p`.
fn parse_number(s: &Vec<char>, p: usize) -> (r: Result<(i64, usize), PErr>)
    requires
        p <= s@.len(),
    ensures
        match r {
            Ok((n, q)) => p <= q <= s@.len() && number(s@, p as int) == Parsed::Value(n, (q - p) as nat),
            Err(PErr::Fail) => number(s@, p as int) is Fail,
            Err(PErr::Overflow) => number(s@, p as int) is Overflow,
        },
{
    let neg = p < s.len() && s[p] == '-';
    let d = if neg { p + 1 } else { p };
    let e = digits_end(s, d);
    if e == d {
        return Err(PErr::Fail);
    }
    let ghost n = (e - d) as nat;
    let mut v: i64 = 0;
    let mut k: usize = d;
    while k < e
        invariant
            d <= k <= e <= s@.len(),
            n == e - d,
            e == d + digits_len(s@, d as int),
            neg == char_at(s@, p as int, '-'),
            d == if neg { p + 1 } else { p as int },
            forall|i: int| d <= i < e ==> is_digit(#[trigger] s@[i]),
            0 <= v,
            v == digits_value(s@, d as int, (k - d) as nat),
        decreases e - k,
    {
        let digit = digit_value(s[k]);
        proof {
            assert(digits_value(s@, d as int, (k + 1 - d) as nat)
                == digits_value(s@, d as int, (k - d) as nat) * 10 + digit);
        }
        let next = match v.checked_mul(10) {
            Some(v10) => v10.checked_add(digit),
            None => None,
        };
        match next {
            Some(v2) => {
                v = v2;
            },
            None => {
                proof {
                    lemma_digits_value_grows(s@, d as int, (k + 1 - d) as nat, n);
                }
                return Err(PErr::Overflow);
            },
        }
        k = k + 1;
    }
    let q = skip_ws(s, e);
    Ok((if neg { -v } else { v }, q))
}

/// A variable at `p`.
fn parse_var(s: &Vec<char>, p: usize) -> (r: Result<(String, usize), PErr>)
    requires
        p <= s@.len(),
    ensures
        agrees(r, p, s@.len(), var(s@, p as int)),
        !(r matches Err(PErr::Overflow)),
{
    if p < s.len() && 'a' <= s[p] && s[p] <= 'z' {
        let e = var_end(s, p + 1);
        if is_keyword_span(s, p, e) {
            return Err(PErr::Fail);
        }
        let name = crate::text::string_of(s, p, e);
        let q = skip_ws(s, e);
        Ok((name, q))
    } else {
        Err(PErr::Fail)
    }
}

/// `term` at `p`.
fn parse_term(s: &Vec<char>, p: usize) -> (r: Result<(Expr, usize), PErr>)
    requires
        p <= s@.len(),
    ensures
        agrees(r, p, s@.len(), term(s@, p as int)),
    decreases rest(s@, p as int), 1nat,
{
    match parse_number(s, p) {
        Ok((n, q)) => {
            return Ok((Expr::Lit(n), q));
        },
        Err(PErr::Overflow) => {
            return Err(PErr::Overflow);
        },
        Err(PErr::Fail) => {},
    }
    if p < s.len() && s[p] == '(' {
        let q = skip_ws(s, p + 1);
        match parse_expr_at(s, q) {
            Ok((e, q2)) => {
                if q2 < s.len() && s[q2] == ')' {
                    let q3 = skip_ws(s, q2 + 1);
                    Ok((e, q3))
                } else {
                    Err(PErr::Fail)
                }
            },
            Err(err) => Err(err),
        }
    } else {
        match parse_var(s, p) {
            Ok((x, q)) => Ok((Expr::Var(x), q)),
            Err(_) => Err(PErr::Fail),
        }
    }
}

/// The `(('+' | '-') term)*` part of `arith_expr` at `q`, folded onto
/// `acc`.
fn parse_arith_rest(s: &Vec<char>, acc: Expr, q: usize) -> (r: Result<(Expr, usize), PErr>)
    requires
        q <= s@.len(),
    ensures
        agrees(r, q, s@.len(), arith_rest(s@, acc@, q as int)),
    decreases rest(s@, q as int), 2nat,
{
    if q < s.len() && (s[q] == '+' || s[q] == '-') {
        let plus = s[q] == '+';
        let q1 = skip_ws(s, q + 1);
        match parse_term(s, q1) {
            Ok((t, q2)) => {
                let acc2 = if plus {
                    Expr::Add(Box::new(acc), Box::new(t))
                } else {
                    Expr::Sub(Box::new(acc), Box::new(t))
                };
                parse_arith_rest(s, acc2, q2)
            },
            Err(PErr::Fail) => Ok((acc, q)),
            Err(PErr::Overflow) => Err(PErr::Overflow),
        }
    } else {
        Ok((acc, q))
    }
}

/// `arith_expr` at `p`.
fn parse_arith(s: &Vec<char>, p: usize) -> (r: Result<(Expr, usize), PErr>)
    requires
        p <= s@.len(),
    ensures
        agrees(r, p, s@.len(), arith(s@, p as int)),
    decreases rest(s@, p as int), 3nat,
{
    match parse_term(s, p) {
        Ok((t, q)) => parse_arith_rest(s, t, q),
        Err(err) => Err(err),
    }
}

/// `expr` at `p`.
fn parse_expr_at(s: &Vec<char>, p: usize) -> (r: Result<(Expr, usize), PErr>)
    requires
        p <= s@.len(),
    ensures
        agrees(r, p, s@.len(), expr(s@, p as int)),
    decreases rest(s@, p as int), 4nat,
{
    proof {
        reveal_strlit("if");
        reveal_strlit("then");
        reveal_strlit("else");
        assert("if"@ =~= seq!['i', 'f']);
        assert("then"@ =~= seq!['t', 'h', 'e', 'n']);
        assert("else"@ =~= seq!['e', 'l', 's', 'e']);
    }
    let len = s.len();
    if !keyword_here(s, p, "if") {
        return parse_arith(s, p);
    }
    let q = skip_ws(s, p + 2);
    let (c, q2) = match parse_bool_expr_at(s, q) {
        Ok(v) => v,
        Err(err) => {
            return Err(err);
        },
    };
    if !keyword_here(s, q2, "then") {
        return Err(PErr::Fail);
    }
    let q3 = skip_ws(s, q2 + 4);
    let (t, q4) = match parse_expr_at(s, q3) {
        Ok(v) => v,
        Err(err) => {
            return Err(err);
        },
    };
    if !keyword_here(s, q4, "else") {
        return Err(PErr::Fail);
    }
    let q5 = skip_ws(s, q4 + 4);
    let (f, q6) = match parse_expr_at(s, q5) {
        Ok(v) => v,
        Err(err) => {
            return Err(err);
        },
    };
    Ok((Expr::if_(c, t, f), q6))
}

/// `bool_expr` at `p`.
fn parse_bool_expr_at(s: &Vec<char>, p: usize) -> (r: Result<(BoolExpr, usize), PErr>)
    requires
        p <= s@.len(),
    ensures
        agrees(r, p, s@.len(), bool_expr(s@, p as int)),
    decreases rest(s@, p as int), 5nat,
{
    proof {
        reveal_strlit("true");
        reveal_strlit("false");
        assert("true"@ =~= seq!['t', 'r', 'u', 'e']);
        assert("false"@ =~= seq!['f', 'a', 'l', 's', 'e']);
    }
    let len = s.len();
    if keyword_here(s, p, "true") {
        return Ok((BoolExpr::Lit(true), skip_ws(s, p + 4)));
    }
    if keyword_here(s, p, "false") {
        return Ok((BoolExpr::Lit(false), skip_ws(s, p + 5)));
    }
    let (l, q) = match parse_expr_at(s, p) {
        Ok(v) => v,
        Err(err) => {
            return Err(err);
        },
    };
    if !(q < s.len() && q + 1 < s.len() && s[q + 1] == '=' && (s[q] == '<' || s[q] == '>' || s[q] == '=')) {
        return Err(PErr::Fail);
    }
    let op = s[q];
    let q2 = skip_ws(s, q + 2);
    let (r, q3) = match parse_expr_at(s, q2) {
        Ok(v) => v,
        Err(err) => {
            return Err(err);
        },
    };
    let c = if op == '<' {
        BoolExpr::Le(Box::new(l), Box::new(r))
    } else if op == '>' {
        BoolExpr::Ge(Box::new(l), Box::new(r))
    } else {
        BoolExpr::Eq(Box::new(l), Box::new(r))
    };
    Ok((c, q3))
}

/// `stmt` at `p`.
fn parse_stmt(s: &Vec<char>, p: usize) -> (r: Result<(Stmt, usize), PErr>)
    requires
        p <= s@.len(),
    ensures
        agrees(r, p, s@.len(), stmt(s@, p as int)),
{
    proof {
        reveal_strlit("assert");
        reveal_strlit("let");
        assert("assert"@ =~= seq!['a', 's', 's', 'e', 'r', 't']);
        assert("let"@ =~= seq!['l', 'e', 't']);
    }
    let len = s.len();
    if keyword_here(s, p, "assert") {
        let q = skip_ws(s, p + 6);
        if !(q < s.len() && s[q] == '(') {
            return Err(PErr::Fail);
        }
        let q1 = skip_ws(s, q + 1);
        let (c, q2) = match parse_bool_expr_at(s, q1) {
            Ok(v) => v,
            Err(err) => {
                return Err(err);
            },
        };
        if !(q2 < s.len() && s[q2] == ')') {
            return Err(PErr::Fail);
        }
        let q3 = skip_ws(s, q2 + 1);
        Ok((Stmt::Assert { expr: c }, q3))
    } else if keyword_here(s, p, "let") {
        let q = skip_ws(s, p + 3);
        let (x, q1) = match parse_var(s, q) {
            Ok(v) => v,
            Err(_) => {
                return Err(PErr::Fail);
            },
        };
        if !(q1 < s.len() && s[q1] == '=') {
            return Err(PErr::Fail);
        }
        let q2 = skip_ws(s, q1 + 1);
        let (e, q3) = match parse_expr_at(s, q2) {
            Ok(v) => v,
            Err(err) => {
                return Err(err);
            },
        };
        Ok((Stmt::Let { name: x, expr: e }, q3))
    } else {
        Err(PErr::Fail)
    }
}

/// Appends to `acc` the statements of `(';' stmt)*` at `q`; returns the
/// position after them.
fn parse_stmts_rest(s: &Vec<char>, acc: &mut Vec<Stmt>, q: usize) -> (r: Result<usize, PErr>)
    requires
        q <= s@.len(),
    ensures
        match r {
            Ok(q2) => q <= q2 <= s@.len() && stmts_rest(s@, old(acc)@.map_values(|t: Stmt| t@), q as int)
                == Parsed::Value(final(acc)@.map_values(|t: Stmt| t@), (q2 - q) as nat),
            Err(PErr::Fail) => stmts_rest(s@, old(acc)@.map_values(|t: Stmt| t@), q as int) is Fail,
            Err(PErr::Overflow) => stmts_rest(s@, old(acc)@.map_values(|t: Stmt| t@), q as int) is Overflow,
        },
    decreases rest(s@, q as int),
{
    if q < s.len() && s[q] == ';' {
        let q1 = skip_ws(s, q + 1);
        match parse_stmt(s, q1) {
            Ok((st, q2)) => {
                let ghost before = acc@.map_values(|t: Stmt| t@);
                let ghost m = st@;
                acc.push(st);
                assert(acc@.map_values(|t: Stmt| t@) =~= before.push(m));
                parse_stmts_rest(s, acc, q2)
            },
            Err(PErr::Fail) => Ok(q),
            Err(PErr::Overflow) => Err(PErr::Overflow),
        }
    } else {
        Ok(q)
    }
}

/// Parses an expression.
///
/// Fails when the input is not an expression of the grammar; a number
/// literal whose digits exceed `i64::MAX` is not accepted.
pub fn parse_expr(input: &str) -> (r: Result<Expr, ParseError>)
    requires
        !(expr_parse(input@) is Overflow),
    ensures
        match r {
            Ok(e) => expr_parse(input@) == Parsed::Value(e@, input@.len()),
            Err(_) => expr_parse(input@) is Fail,
        },
{
    let s = chars_of(input);
    let p = skip_ws(&s, 0);
    match parse_expr_at(&s, p) {
        Ok((e, q)) => if q == s.len() {
            Ok(e)
        } else {
            Err(ParseError)
        },
        Err(_) => Err(ParseError),
    }
}

/// Parses a boolean expression.
///
/// Fails when the input is not a boolean expression of the grammar; a
/// number literal whose digits exceed `i64::MAX` is not accepted.
pub fn parse_bool_expr(input: &str) -> (r: Result<BoolExpr, ParseError>)
    requires
        !(bool_expr_parse(input@) is Overflow),
    ensures
        match r {
            Ok(c) => bool_expr_parse(input@) == Parsed::Value(c@, input@.len()),
            Err(_) => bool_expr_parse(input@) is Fail,
        },
{
    let s = chars_of(input);
    let p = skip_ws(&s, 0);
    match parse_bool_expr_at(&s, p) {
        Ok((c, q)) => if q == s.len() {
            Ok(c)
        } else {
            Err(ParseError)
        },
        Err(_) => Err(ParseError),
    }
}

/// Parses statements separated by `;`.
///
/// Fails when the input is not a sequence of statements of the grammar; a
/// number literal whose digits exceed `i64::MAX` is not accepted.
pub fn parse_stmts(input: &str) -> (r: Result<Stmts, ParseError>)
    requires
        !(stmts_parse(input@) is Overflow),
    ensures
        match r {
            Ok(st) => stmts_parse(input@) == Parsed::Value(st@, input@.len()),
            Err(_) => stmts_parse(input@) is Fail,
        },
{
    let s = chars_of(input);
    let p = skip_ws(&s, 0);
    let (first, q) = match parse_stmt(&s, p) {
        Ok(v) => v,
        Err(_) => {
            return Err(ParseError);
        },
    };
    let mut all: Vec<Stmt> = Vec::new();
    let ghost m = first@;
    all.push(first);
    assert(all@.map_values(|t: Stmt| t@) =~= seq![m]);
    match parse_stmts_rest(&s, &mut all, q) {
        Ok(q2) => if q2 == s.len() {
            Ok(Stmts(all))
        } else {
            Err(ParseError)
        },
        Err(_) => Err(ParseError),
    }
}

} // verus!
