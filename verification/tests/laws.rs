use concolic_pbt::tensor::{ShapeEnv, TensorExpr};
use concolic_pbt::{
    exec, parse_bool_expr, parse_stmts, Bound, ConcolicState, Env, ExploreResult, Explorer, OracleFailure,
    Solver, Stmt, Stmts,
};
use rand::rngs::StdRng;
use rand::SeedableRng;

fn env_of(pairs: &[(&str, i64)]) -> Env {
    Env::from_pairs(pairs.iter().map(|(k, v)| (k.to_string(), *v)).collect())
}

#[test]
fn counterexample_fails_when_run_again() {
    let stmts = parse_stmts("let y = x - 3; assert(y >= 0); assert(y <= 20)").unwrap();
    let mut explorer = Explorer::new(Solver::new(StdRng::seed_from_u64(5), 100), 50);
    let result = explorer.find_counterexample(&stmts, env_of(&[("x", 10)]));
    match result {
        ExploreResult::Counterexample { env, failure } => {
            let trace = exec(&stmts, env);
            match (trace.result, failure) {
                (Err(OracleFailure::AssertionFailed { expr: a }), OracleFailure::AssertionFailed { expr: b }) => {
                    assert_eq!(a, b)
                }
                other => panic!("unexpected outcome {:?}", other),
            }
        }
        other => panic!("Expected Counterexample, got {:?}", other),
    }
}

#[test]
fn visited_paths_are_reached_by_their_inputs() {
    let stmts = Stmts(vec![Stmt::assert_(
        parse_bool_expr("(if x <= 5 then 1 else (if x >= 10 then 2 else 3)) >= 1").unwrap(),
    )]);
    let mut explorer = Explorer::new(Solver::new(StdRng::seed_from_u64(42), 100), 100);
    let result = explorer.find_counterexample(&stmts, env_of(&[("x", 3)]));
    assert!(matches!(result, ExploreResult::Verified));
    assert_eq!(explorer.paths_visited(), 3);
    // The second path, FT, was reached with x = 149: running from it gives
    // x <= 5 false, x >= 10 true.
    let trace = exec(&stmts, env_of(&[("x", 149)]));
    let dirs: Vec<bool> = trace.path_constraints.iter().map(|p| p.1).collect();
    assert_eq!(dirs, vec![false, true]);
}

#[test]
fn recorded_constraints_hold_for_the_run_input() {
    let stmts = parse_stmts("let y = if x >= 1 then x else x + 1; let z = if y <= 4 then y else 0").unwrap();
    let mut state = ConcolicState::new(env_of(&[("x", 3)]));
    state.exec_stmts(&stmts).unwrap();
    assert_eq!(
        state.to_string(),
        "Env: x = 3, y = 3, z = 3\nLet constraints:\n  y@1 = ite(x@0 >= 1, x@0, x + 1)\n  z@1 = ite(y@1 <= 4, y@1, 0)\nPath constraints:\n  x@0 [=3] >= 1 : true\n  y@1 [=3] <= 4 : true\n"
    );
}

#[test]
fn bound_keeps_the_stronger_limits() {
    let mut bound = Bound::new();
    bound.add_lower(3);
    bound.add_lower(1);
    bound.add_upper(9);
    bound.add_upper(12);
    bound.add_excluded(4);
    bound.add_excluded(4);
    assert_eq!(bound.lower, Some(3));
    assert_eq!(bound.upper, Some(9));
    assert_eq!(bound.excluded, vec![4]);
    let mut rng = StdRng::seed_from_u64(1);
    for _ in 0..50 {
        let v = bound.sample(&mut rng).unwrap();
        assert!((3..=9).contains(&v) && v != 4);
    }
    let mut empty = Bound::new();
    empty.add_lower(2);
    empty.add_upper(2);
    empty.add_excluded(2);
    assert_eq!(empty.sample(&mut rng), None);
}

#[test]
fn broadcast_commutes_on_shapes() {
    let env = ShapeEnv::from_pairs(vec![("a".to_string(), vec![5, 1, 3]), ("b".to_string(), vec![4, 1])]);
    let ab = TensorExpr::broadcast(TensorExpr::var("a"), TensorExpr::var("b")).eval(&env);
    let ba = TensorExpr::broadcast(TensorExpr::var("b"), TensorExpr::var("a")).eval(&env);
    assert_eq!(ab, vec![5, 4, 3]);
    assert_eq!(ab, ba);
    let aa = TensorExpr::broadcast(TensorExpr::var("a"), TensorExpr::var("a")).eval(&env);
    assert_eq!(aa, vec![5, 1, 3]);
}

#[test]
fn readme_branching_property() {
    // (if x <= 5 then x + 1 else x - 1) <= 10 fails for x > 11.
    let property = parse_bool_expr("(if x <= 5 then x + 1 else x - 1) <= 10").unwrap();
    let stmts = Stmts(vec![Stmt::assert_(property)]);
    let mut explorer = Explorer::new(Solver::new(StdRng::seed_from_u64(42), 100), 1000);
    match explorer.find_counterexample(&stmts, env_of(&[("x", 3)])) {
        ExploreResult::Counterexample { env, failure } => {
            assert!(*env.get("x").unwrap() > 11);
            assert!(matches!(failure, OracleFailure::AssertionFailed { .. }));
        }
        other => panic!("Expected Counterexample, got {:?}", other),
    }
}

#[test]
fn env_text_is_sorted_by_name() {
    let state = ConcolicState::new(env_of(&[("zeta", 1), ("alpha", -2), ("mid", 30)]));
    assert_eq!(state.to_string(), "Env: alpha = -2, mid = 30, zeta = 1\nPath constraints:\n");
}

#[test]
fn no_path_is_run_twice_in_one_exploration() {
    let stmts = parse_stmts(
        "let y = if x <= 0 then 0 - x else x; \
         let z = if y >= 50 then y - 50 else (if y <= 10 then y + 10 else y); \
         assert((if z >= 40 then 1 else (if z <= 15 then 2 else 3)) >= 1)",
    )
    .unwrap();
    let mut explorer = Explorer::new(Solver::new(StdRng::seed_from_u64(7), 200), 100);
    let result = explorer.find_counterexample(&stmts, env_of(&[("x", 3)]));
    assert!(matches!(result, ExploreResult::Verified));
    let text = explorer.to_string();
    let reached = text.split("\n\nUnreached:").next().unwrap();
    let paths: Vec<&str> = reached.lines().filter(|l| l.trim_start().starts_with("Path:")).collect();
    assert_eq!(paths.len(), explorer.paths_visited());
    assert!(paths.len() > 2);
    for a in 0..paths.len() {
        for b in (a + 1)..paths.len() {
            assert_ne!(paths[a], paths[b]);
        }
    }
}

#[test]
fn input_for_other_direction_follows_the_run_up_to_that_branch() {
    let stmts = parse_stmts(
        "let y = if x <= 0 then 0 - x else x; \
         let z = if y >= 50 then y - 50 else y; \
         assert((if z <= 15 then 1 else 2) >= 1)",
    )
    .unwrap();
    let trace = exec(&stmts, env_of(&[("x", 3)]));
    assert!(trace.result.is_ok());
    let path: Vec<bool> = trace.path_constraints.iter().map(|(_, b)| *b).collect();
    assert_eq!(path, vec![false, false, true]);
    let mut solver = Solver::new(StdRng::seed_from_u64(11), 500);
    for i in 0..path.len() {
        let env = solver.find_alternative(&trace, i).expect("an input for the other direction");
        let other = exec(&stmts, env);
        assert!(other.result.is_ok());
        let taken: Vec<bool> = other.path_constraints.iter().map(|(_, b)| *b).collect();
        assert!(taken.len() > i);
        assert_eq!(taken[..i], path[..i]);
        assert_eq!(taken[i], !path[i]);
    }
}

#[test]
fn verified_exploration_covers_every_alternative() {
    let stmts = parse_stmts(
        "let y = if x <= 0 then 0 - x else x; \
         assert((if y >= 40 then 1 else (if y <= 15 then 2 else 3)) >= 1)",
    )
    .unwrap();
    let mut explorer = Explorer::new(Solver::new(StdRng::seed_from_u64(3), 200), 100);
    let result = explorer.find_counterexample(&stmts, env_of(&[("x", 3)]));
    assert!(matches!(result, ExploreResult::Verified));
    let text = explorer.to_string();
    let mut parts = text.split("\n\nUnreached:");
    let reached: Vec<String> = parts
        .next()
        .unwrap()
        .lines()
        .filter_map(|l| l.trim_start().strip_prefix("Path:").map(|p| p.trim().to_string()))
        .collect();
    let unreached: Vec<String> = parts
        .next()
        .unwrap_or("")
        .lines()
        .filter_map(|l| l.trim_start().strip_prefix("Path:").map(|p| p.trim().to_string()))
        .collect();
    assert!(reached.len() > 1);
    for p in &reached {
        for j in 0..p.len() {
            let mut w: String = p[..j].to_string();
            w.push(if &p[j..j + 1] == "T" { 'F' } else { 'T' });
            let covered = reached.iter().any(|q| q.starts_with(&w)) || unreached.contains(&w);
            assert!(covered, "alternative {} of {} not covered", w, p);
        }
    }
}

#[test]
fn bounds_only_problems_are_always_solved() {
    let stmts = parse_stmts("let y = if x <= 5 then x + 1 else 0; assert(x <= 10)").unwrap();
    let trace = exec(&stmts, env_of(&[("x", 7)]));
    assert!(trace.result.is_ok());
    for seed in 0..40 {
        let mut solver = Solver::new(StdRng::seed_from_u64(seed), 100);
        let env = solver.find_alternative(&trace, 0).expect("the flipped bound admits draws");
        assert!(*env.get("x").unwrap() <= 5);
        let env = solver
            .find_counterexample(&trace, &trace.passed_asserts[0])
            .expect("the negated assertion admits draws");
        assert!(*env.get("x").unwrap() > 10);
    }
}

#[test]
fn failing_first_run_counts_one_iteration_and_records_nothing() {
    let stmts = Stmts(vec![Stmt::assert_(parse_bool_expr("x <= 10").unwrap())]);
    let mut explorer = Explorer::new(Solver::new(StdRng::seed_from_u64(42), 100), 100);
    let result = explorer.find_counterexample(&stmts, env_of(&[("x", 15)]));
    assert!(matches!(result, ExploreResult::Counterexample { .. }));
    assert_eq!(explorer.iterations(), 1);
    assert_eq!(explorer.paths_visited(), 0);
    assert_eq!(explorer.paths_unreached(), 0);
}

#[test]
fn bound_far_from_zero_is_sampled_within_it() {
    let mut rng = StdRng::seed_from_u64(1);
    let mut b = Bound::new();
    b.add_lower(2000);
    for _ in 0..20 {
        let v = b.sample(&mut rng).expect("2000 and above are admitted");
        assert!(v >= 2000);
    }
    let mut b = Bound::new();
    b.add_upper(-5000);
    let v = b.sample(&mut rng).expect("-5000 and below are admitted");
    assert!(v <= -5000);
    let mut b = Bound::new();
    b.add_lower(0);
    for x in 0..=1000 {
        b.add_excluded(x);
    }
    let v = b.sample(&mut rng).expect("values above 1000 are admitted");
    assert!(v > 1000);
    let mut b = Bound::new();
    b.add_lower(3);
    b.add_upper(3);
    b.add_excluded(3);
    assert_eq!(b.sample(&mut rng), None);
}

#[test]
fn restored_trait_impls_behave_as_the_originals() {
    let stmt = Stmt::assert_(parse_bool_expr("x <= 10").unwrap());
    let stmts = Stmts::from(stmt.clone());
    assert_eq!(stmts, Stmts(vec![stmt]));
    assert_eq!(Bound::default(), Bound::new());
    let a = env_of(&[("x", 1), ("y", 2)]);
    let b = env_of(&[("y", 2), ("x", 1)]);
    assert!(a == b);
    assert!(a != env_of(&[("x", 1)]));
    let r = ExploreResult::Counterexample { env: a.clone(), failure: OracleFailure::UndefinedVariable { name: "z".to_string() } };
    assert_eq!(r.clone(), r);
    assert_ne!(r, ExploreResult::Verified);
}

#[test]
fn one_iteration_is_counted_per_run() {
    let stmts = parse_stmts("assert((if x <= 5 then 1 else (if x >= 10 then 2 else 3)) >= 1)").unwrap();
    let mut explorer = Explorer::new(Solver::new(StdRng::seed_from_u64(42), 100), 100);
    let result = explorer.find_counterexample(&stmts, env_of(&[("x", 3)]));
    assert!(matches!(result, ExploreResult::Verified));
    assert!(explorer.paths_visited() <= explorer.iterations());
    assert!(explorer.iterations() <= explorer.paths_visited() + explorer.paths_unreached());
}
