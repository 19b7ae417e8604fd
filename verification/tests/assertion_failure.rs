use concolic_pbt::{
    exec, parse_bool_expr, ConcolicState, Env, ExploreResult, Explorer, Solver, Stmt, Stmts,
};
use rand::rngs::StdRng;
use rand::SeedableRng;

fn env_of(pairs: &[(&str, i64)]) -> Env {
    Env::from_pairs(pairs.iter().map(|(k, v)| (k.to_string(), *v)).collect())
}

#[test]
fn find_assertion_failure_simple() {
    // Property: x <= 10; look for x > 10 on the path of a passing run.
    let property = parse_bool_expr("x <= 10").unwrap();
    let stmts = Stmts(vec![Stmt::assert_(property)]);
    let trace = exec(&stmts, env_of(&[("x", 5)]));
    let rng = StdRng::seed_from_u64(42);
    let mut solver = Solver::new(rng, 100);
    let result = solver.find_counterexample(&trace, &trace.passed_asserts[0]);
    println!("result: {:?}", result);
    assert!(result.is_ok(), "Should find x > 10");
    let env = result.unwrap();
    let x = *env.get("x").unwrap();
    assert!(x > 10, "x should be > 10, got {}", x);
}

#[test]
fn explore_finds_counterexample() {
    let property = parse_bool_expr("x <= 10").unwrap();
    let stmts = Stmts(vec![Stmt::assert_(property)]);
    let rng = StdRng::seed_from_u64(42);
    let solver = Solver::new(rng, 100);
    let mut explorer = Explorer::new(solver, 100);
    let result = explorer.find_counterexample(&stmts, env_of(&[("x", 5)]));
    println!("explore result: {:?}", result);
    match &result {
        ExploreResult::Counterexample { env, failure } => {
            println!("Found counterexample: {:?}", env);
            println!("Failures: {:?}", failure);
            assert!(*env.get("x").unwrap() > 10);
        }
        ExploreResult::Verified => {
            panic!("Should have found counterexample, got Verified");
        }
        ExploreResult::MaxIterationsReached => {
            panic!("Should have found counterexample, got MaxIterationsReached");
        }
    }
}

#[test]
fn eval_bool_pure_does_not_record() {
    let property = parse_bool_expr("x <= 10").unwrap();
    let mut state = ConcolicState::new(env_of(&[("x", 5)]));
    let result = state.eval_assert(&property).unwrap().0;
    println!("eval_assert result: {}", result);
    println!("path_constraints: {:?}", state.path_constraints);
    assert!(result);
    assert!(
        state.path_constraints.is_empty(),
        "eval_assert should not record path constraints"
    );
}
