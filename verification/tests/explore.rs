use concolic_pbt::{
    parse_bool_expr, parse_stmts, Env, ExploreResult, Explorer, OracleFailure, Solver, Stmt, Stmts,
};
use rand::rngs::StdRng;
use rand::SeedableRng;

fn assert_stmts(expr: &str) -> Stmts {
    Stmts(vec![Stmt::assert_(parse_bool_expr(expr).unwrap())])
}

fn env_of(pairs: &[(&str, i64)]) -> Env {
    Env::from_pairs(pairs.iter().map(|(k, v)| (k.to_string(), *v)).collect())
}

fn explorer() -> Explorer {
    let rng = StdRng::seed_from_u64(42);
    let solver = Solver::new(rng, 100);
    Explorer::new(solver, 100)
}

#[test]
fn find_simple_counterexample() {
    let stmts = assert_stmts("x <= 10");
    let mut explorer = explorer();
    let result = explorer.find_counterexample(&stmts, env_of(&[("x", 5)]));
    assert!(matches!(result, ExploreResult::Counterexample { .. }));
    assert_eq!(explorer.to_string(), "Reached:\n  Path: \n  Env: x = 5\n");
}

#[test]
fn verify_always_true() {
    let stmts = assert_stmts("x <= x");
    let mut explorer = explorer();
    let result = explorer.find_counterexample(&stmts, env_of(&[("x", 5)]));
    assert!(matches!(result, ExploreResult::Verified));
    assert_eq!(explorer.to_string(), "Reached:\n  Path: \n  Env: x = 5\n");
}

#[test]
fn explore_branching_property() {
    let stmts = assert_stmts("(if x <= 5 then x + 1 else x - 1) <= 10");
    let mut explorer = explorer();
    let result = explorer.find_counterexample(&stmts, env_of(&[("x", 3)]));
    assert!(matches!(result, ExploreResult::Counterexample { .. }));
    assert_eq!(explorer.to_string(), "Reached:\n  Path: T\n  Env: x = 3\n");
}

#[test]
fn unreached_path() {
    let stmts = assert_stmts("(if x <= 5 then (if x >= 10 then 0 else 1) else 1) >= 1");
    let mut explorer = explorer();
    let result = explorer.find_counterexample(&stmts, env_of(&[("x", 3)]));
    assert!(matches!(result, ExploreResult::Verified));
    assert_eq!(
        explorer.to_string(),
        "Reached:\n  Path: TF\n  Env: x = 3\n  Path: F\n  Env: x = 149\n\nUnreached:\n  Path: TT\n"
    );
}

#[test]
fn path_length_changes_on_alternative() {
    let stmts = assert_stmts("(if x <= 5 then 1 else (if x >= 10 then 2 else 3)) >= 1");
    let mut explorer = explorer();
    let result = explorer.find_counterexample(&stmts, env_of(&[("x", 3)]));
    assert!(matches!(result, ExploreResult::Verified));
    assert_eq!(
        explorer.to_string(),
        "Reached:\n  Path: T\n  Env: x = 3\n  Path: FT\n  Env: x = 149\n  Path: FF\n  Env: x = 8\n"
    );
}

#[test]
fn counterexample_includes_assertion_failure() {
    let stmts = assert_stmts("x <= 10");
    let mut explorer = explorer();
    let result = explorer.find_counterexample(&stmts, env_of(&[("x", 5)]));
    match result {
        ExploreResult::Counterexample { env, failure } => {
            assert!(*env.get("x").unwrap() > 10);
            assert!(matches!(failure, OracleFailure::AssertionFailed { .. }));
        }
        _ => panic!("Expected Counterexample"),
    }
}

#[test]
fn explore_with_let() {
    let stmts = parse_stmts("let y = x + 1; assert(y <= 10)").unwrap();
    let mut explorer = explorer();
    let result = explorer.find_counterexample(&stmts, env_of(&[("x", 5)]));
    match result {
        ExploreResult::Counterexample { env, .. } => {
            let x = *env.get("x").unwrap();
            assert!(x > 9, "x = {} should be > 9", x);
        }
        _ => panic!("Expected Counterexample, got {:?}", result),
    }
}

#[test]
fn explore_with_let_and_if() {
    let stmts = parse_stmts("let y = if x >= 1 then x else x + 1; assert(y <= 5)").unwrap();
    let mut explorer = explorer();
    let result = explorer.find_counterexample(&stmts, env_of(&[("x", 3)]));
    match result {
        ExploreResult::Counterexample { env, .. } => {
            let x = *env.get("x").unwrap();
            assert!(x > 5, "x = {} should be > 5", x);
        }
        _ => panic!("Expected Counterexample, got {:?}", result),
    }
}

#[test]
fn explore_with_shadowing_let() {
    let stmts = parse_stmts("let y = x + 1; let y = y + 1; assert(y <= 10)").unwrap();
    let mut explorer = explorer();
    let result = explorer.find_counterexample(&stmts, env_of(&[("x", 5)]));
    match result {
        ExploreResult::Counterexample { env, .. } => {
            let x = *env.get("x").unwrap();
            assert!(x > 8, "x = {} should be > 8", x);
        }
        _ => panic!("Expected Counterexample, got {:?}", result),
    }
}

#[test]
fn initial_failure_is_reported_with_its_input() {
    let stmts = assert_stmts("x <= 10");
    let mut explorer = explorer();
    let result = explorer.find_counterexample(&stmts, env_of(&[("x", 15)]));
    match result {
        ExploreResult::Counterexample { env, failure } => {
            assert_eq!(*env.get("x").unwrap(), 15);
            assert!(matches!(failure, OracleFailure::AssertionFailed { .. }));
        }
        _ => panic!("Expected Counterexample"),
    }
    assert_eq!(explorer.iterations(), 1);
    assert_eq!(explorer.paths_visited(), 0);
}

#[test]
fn iteration_limit_stops_exploration() {
    let stmts = assert_stmts("(if x <= 5 then 1 else (if x >= 10 then 2 else 3)) >= 1");
    let mut explorer = Explorer::new(Solver::new(StdRng::seed_from_u64(42), 100), 1);
    let result = explorer.find_counterexample(&stmts, env_of(&[("x", 3)]));
    assert!(matches!(result, ExploreResult::MaxIterationsReached));
    assert_eq!(explorer.iterations(), 1);
    assert_eq!(explorer.paths_visited(), 1);
    let again = explorer.find_counterexample(&stmts, env_of(&[("x", 3)]));
    assert!(matches!(again, ExploreResult::MaxIterationsReached));
    assert_eq!(explorer.iterations(), 1);
}

#[test]
fn undefined_variable_is_a_counterexample() {
    let stmts = assert_stmts("y <= 10");
    let mut explorer = explorer();
    let result = explorer.find_counterexample(&stmts, env_of(&[("x", 1)]));
    match result {
        ExploreResult::Counterexample { failure, .. } => {
            assert!(matches!(failure, OracleFailure::UndefinedVariable { name } if name == "y"));
        }
        _ => panic!("Expected Counterexample"),
    }
}
