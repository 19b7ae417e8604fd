use concolic_pbt::{
    exec, extract_bounds, negate_at, parse_bool_expr, parse_stmts, BoolExpr, Bound, Env, ExecutionTrace,
    Expr, Solver, SolverError, SsaVar, SymBoolExpr, SymExpr, SymIfBranches,
};
use rand::rngs::StdRng;
use rand::SeedableRng;

/// The SSA form of a parsed expression with every variable an input.
fn to_sym(e: &Expr) -> SymExpr {
    match e {
        Expr::Lit(n) => SymExpr::Lit(*n),
        Expr::Var(x) => SymExpr::Var(SsaVar::input(x)),
        Expr::Add(l, r) => SymExpr::Add(Box::new(to_sym(l)), Box::new(to_sym(r))),
        Expr::Sub(l, r) => SymExpr::Sub(Box::new(to_sym(l)), Box::new(to_sym(r))),
        Expr::If(c, b) => SymExpr::If(
            Box::new(to_sym_bool(c)),
            SymIfBranches::ThenTaken { then_: Box::new(to_sym(&b.then_)), else_: Box::new(b.else_.duplicate()) },
        ),
    }
}

fn to_sym_bool(c: &BoolExpr) -> SymBoolExpr {
    match c {
        BoolExpr::Lit(b) => SymBoolExpr::Lit(*b),
        BoolExpr::Le(l, r) => SymBoolExpr::Le(Box::new(to_sym(l)), Box::new(to_sym(r))),
        BoolExpr::Ge(l, r) => SymBoolExpr::Ge(Box::new(to_sym(l)), Box::new(to_sym(r))),
        BoolExpr::Eq(l, r) => SymBoolExpr::Eq(Box::new(to_sym(l)), Box::new(to_sym(r))),
    }
}

fn parse_symbolic_bool(s: &str) -> SymBoolExpr {
    to_sym_bool(&parse_bool_expr(s).unwrap())
}

/// A trace whose path constraints are `pcs`, with no let definitions.
fn trace_with(pcs: Vec<(SymBoolExpr, bool)>) -> ExecutionTrace {
    ExecutionTrace {
        env: Env::new(),
        path_constraints: pcs,
        let_constraints: vec![],
        passed_asserts: vec![],
        result: Ok(()),
    }
}

fn value(env: &Env, name: &str) -> i64 {
    *env.get(name).unwrap()
}

#[test]
fn bound_basic() {
    let mut bound = Bound::new();
    bound.add_lower(3);
    bound.add_upper(10);
    assert_eq!(bound.lower, Some(3));
    assert_eq!(bound.upper, Some(10));
    assert!(bound.is_satisfiable());
}

#[test]
fn bound_unsatisfiable() {
    let mut bound = Bound::new();
    bound.add_lower(10);
    bound.add_upper(3);
    assert!(!bound.is_satisfiable());
}

#[test]
fn extract_simple_le() {
    let constraints = vec![(parse_symbolic_bool("x <= 5"), true)];
    let (bounds, remaining) = extract_bounds(&constraints).unwrap();
    assert!(remaining.is_empty());
    assert_eq!(bounds.get("x").unwrap().upper, Some(5));
    assert_eq!(bounds.get("x").unwrap().lower, None);
}

#[test]
fn extract_le_negated() {
    let constraints = vec![(parse_symbolic_bool("x <= 5"), false)];
    let (bounds, remaining) = extract_bounds(&constraints).unwrap();
    assert!(remaining.is_empty());
    assert_eq!(bounds.get("x").unwrap().lower, Some(6));
    assert_eq!(bounds.get("x").unwrap().upper, None);
}

#[test]
fn extract_with_offset() {
    let constraints = vec![(parse_symbolic_bool("x + 1 <= 5"), true)];
    let (bounds, remaining) = extract_bounds(&constraints).unwrap();
    assert!(remaining.is_empty());
    assert_eq!(bounds.get("x").unwrap().upper, Some(4));
}

#[test]
fn extract_eq() {
    let constraints = vec![(parse_symbolic_bool("x == 5"), true)];
    let (bounds, remaining) = extract_bounds(&constraints).unwrap();
    assert!(remaining.is_empty());
    assert_eq!(bounds.get("x").unwrap().lower, Some(5));
    assert_eq!(bounds.get("x").unwrap().upper, Some(5));
}

#[test]
fn extract_neq() {
    let constraints = vec![(parse_symbolic_bool("x == 5"), false)];
    let (bounds, remaining) = extract_bounds(&constraints).unwrap();
    assert!(remaining.is_empty());
    assert_eq!(bounds.get("x").unwrap().excluded, vec![5]);
}

#[test]
fn extract_two_var_goes_to_remaining() {
    let constraints = vec![(parse_symbolic_bool("x <= y"), true)];
    let (bounds, remaining) = extract_bounds(&constraints).unwrap();
    assert!(bounds.is_empty());
    assert_eq!(remaining.len(), 1);
}

#[test]
fn ite_goes_to_remaining() {
    let constraints = vec![(parse_symbolic_bool("(if x <= 5 then x else 0) <= 3"), true)];
    let (bounds, remaining) = extract_bounds(&constraints).unwrap();
    assert!(bounds.is_empty());
    assert_eq!(remaining.len(), 1);
}

#[test]
fn solver_simple() {
    // x <= 5 (true): the alternative of branch 0 of a run that took x > 5.
    let trace = trace_with(vec![(parse_symbolic_bool("x <= 5"), false)]);
    let mut solver = Solver::new(StdRng::from_os_rng(), 100);
    let env = solver.find_alternative(&trace, 0).unwrap();
    assert!(value(&env, "x") <= 5);
}

#[test]
fn solver_two_var_constraint() {
    // x <= 10 (true), x <= y (true)
    let trace = trace_with(vec![
        (parse_symbolic_bool("x <= 10"), true),
        (parse_symbolic_bool("x <= y"), false),
    ]);
    let mut solver = Solver::new(StdRng::from_os_rng(), 1000);
    let env = solver.find_alternative(&trace, 1).unwrap();
    assert!(value(&env, "x") <= 10);
    assert!(value(&env, "x") <= value(&env, "y"));
}

#[test]
fn negate_at_test() {
    let constraints = vec![
        (parse_symbolic_bool("x <= 5"), true),
        (parse_symbolic_bool("x <= 10"), true),
        (parse_symbolic_bool("x <= 15"), false),
    ];
    let negated = negate_at(&constraints, 1);
    assert_eq!(negated.len(), 2);
    assert!(negated[0].1);
    assert!(!negated[1].1);
}

#[test]
fn find_alternative_test() {
    let stmts = parse_stmts("let y = if x <= 5 then x + 1 else 0").unwrap();
    let trace = exec(&stmts, Env::from_pairs(vec![("x".to_string(), 3)]));
    assert_eq!(trace.path_constraints.len(), 1);
    assert!(trace.path_constraints[0].1);
    let mut solver = Solver::new(StdRng::from_os_rng(), 100);
    let alt_env = solver.find_alternative(&trace, 0).unwrap();
    assert!(value(&alt_env, "x") > 5);
}

#[test]
fn solver_with_ite() {
    // (if x <= 5 then x else 10) <= 7 : true requires x <= 5.
    let trace = trace_with(vec![(parse_symbolic_bool("(if x <= 5 then x else 10) <= 7"), false)]);
    let mut solver = Solver::new(StdRng::from_os_rng(), 1000);
    for _ in 0..10 {
        let env = solver.find_alternative(&trace, 0).unwrap();
        assert!(value(&env, "x") <= 5, "x = {} should be <= 5", value(&env, "x"));
    }
}

#[test]
fn extract_unsatisfiable_bounds() {
    let constraints = vec![
        (parse_symbolic_bool("x >= 10"), true),
        (parse_symbolic_bool("x <= 5"), true),
    ];
    assert_eq!(extract_bounds(&constraints).err(), Some(SolverError::Unsatisfiable));
    let trace = trace_with(vec![
        (parse_symbolic_bool("x >= 10"), true),
        (parse_symbolic_bool("x <= 5"), false),
    ]);
    let mut solver = Solver::new(StdRng::seed_from_u64(7), 100);
    assert_eq!(solver.find_alternative(&trace, 1).err(), Some(SolverError::Unsatisfiable));
}

#[test]
fn solver_gives_up_without_attempts() {
    let trace = trace_with(vec![(parse_symbolic_bool("x <= 5"), false)]);
    let mut solver = Solver::new(StdRng::seed_from_u64(7), 0);
    assert_eq!(solver.find_alternative(&trace, 0).err(), Some(SolverError::MaxAttemptsExceeded));
}

#[test]
fn solver_answers_meet_extracted_bounds() {
    // x - 3 >= 4 gives x >= 7; x + 2 == 12 (false) excludes 10; the
    // sampling range without an upper bound ends at 1000.
    let trace = trace_with(vec![
        (parse_symbolic_bool("x - 3 >= 4"), true),
        (parse_symbolic_bool("2 + x == 12"), true),
    ]);
    let mut solver = Solver::new(StdRng::seed_from_u64(3), 100);
    for _ in 0..20 {
        let env = solver.find_alternative(&trace, 1).unwrap();
        let x = value(&env, "x");
        assert!((7..=1000).contains(&x) && x != 10, "x = {}", x);
    }
}

#[test]
fn substitution_expands_let_definitions() {
    // With y = x + 1, the alternative of y <= 10 (true) needs x + 1 > 10.
    let stmts = parse_stmts("let y = x + 1; let z = if y <= 10 then 0 else 1").unwrap();
    let trace = exec(&stmts, Env::from_pairs(vec![("x".to_string(), 3)]));
    assert_eq!(trace.path_constraints.len(), 1);
    let mut solver = Solver::new(StdRng::seed_from_u64(11), 100);
    let env = solver.find_alternative(&trace, 0).unwrap();
    assert!(value(&env, "x") > 9);
    assert!(env.get("y").is_none());
}
