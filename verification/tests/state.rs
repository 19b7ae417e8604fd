use concolic_pbt::{parse_bool_expr, parse_expr, parse_stmts, ConcolicState, Env, OracleFailure};

fn env_of(pairs: &[(&str, i64)]) -> Env {
    Env::from_pairs(pairs.iter().map(|(k, v)| (k.to_string(), *v)).collect())
}

#[test]
fn state_eval_simple() {
    let expr = parse_expr("x + 1").unwrap();
    let mut state = ConcolicState::new(env_of(&[("x", 5)]));
    let (val, _sym) = state.eval(&expr).unwrap();
    assert_eq!(val, 6);
    assert_eq!(state.to_string(), "Env: x = 5\nPath constraints:\n");
}

#[test]
fn state_eval_if_then_branch() {
    let expr = parse_expr("if x <= 10 then x + 1 else 0").unwrap();
    let mut state = ConcolicState::new(env_of(&[("x", 5)]));
    let (val, _sym) = state.eval(&expr).unwrap();
    assert_eq!(val, 6);
    assert_eq!(
        state.to_string(),
        "Env: x = 5\nPath constraints:\n  x@0 [=5] <= 10 : true\n"
    );
}

#[test]
fn state_eval_if_else_branch() {
    let expr = parse_expr("if x <= 10 then x + 1 else 0").unwrap();
    let mut state = ConcolicState::new(env_of(&[("x", 15)]));
    let (val, _sym) = state.eval(&expr).unwrap();
    assert_eq!(val, 0);
    assert_eq!(
        state.to_string(),
        "Env: x = 15\nPath constraints:\n  x@0 [=15] <= 10 : false\n"
    );
}

#[test]
fn state_eval_bool_with_nested_if() {
    let cond = parse_bool_expr("(if x <= 5 then x else 10) <= 7").unwrap();
    let mut state = ConcolicState::new(env_of(&[("x", 3)]));
    let (val, _sym) = state.eval_bool(&cond).unwrap();
    assert!(val);
    assert_eq!(
        state.to_string(),
        "Env: x = 3\nPath constraints:\n  x@0 [=3] <= 5 : true\n  ite(x@0 <= 5, x@0, 10) <= 7 : true\n"
    );
}

#[test]
fn state_eval_bool_with_nested_if_else() {
    let cond = parse_bool_expr("(if x <= 5 then x else 10) <= 7").unwrap();
    let mut state = ConcolicState::new(env_of(&[("x", 8)]));
    let (val, _sym) = state.eval_bool(&cond).unwrap();
    assert!(!val);
    assert_eq!(
        state.to_string(),
        "Env: x = 8\nPath constraints:\n  x@0 [=8] <= 5 : false\n  ite(x@0 <= 5, x, 10) <= 7 : false\n"
    );
}

#[test]
fn nested_if_in_condition() {
    let expr = parse_expr("if (if x <= 5 then x + 5 else x - 5) <= 3 then 1 else 0").unwrap();
    let mut state = ConcolicState::new(env_of(&[("x", 2)]));
    let (val, _sym) = state.eval(&expr).unwrap();
    assert_eq!(val, 0);
    assert_eq!(
        state.to_string(),
        "Env: x = 2\nPath constraints:\n  x@0 [=2] <= 5 : true\n  ite(x@0 <= 5, x@0 + 5, x - 5) <= 3 : false\n"
    );
}

#[test]
fn deeply_nested_if() {
    let expr = parse_expr(
        "if (if x <= 5 then (if y <= 0 then x + 5 else x + 6) else x - 5) <= 3 then 1 else 0",
    )
    .unwrap();
    let mut state = ConcolicState::new(env_of(&[("x", 2), ("y", -1)]));
    let (val, _sym) = state.eval(&expr).unwrap();
    assert_eq!(val, 0);
    assert_eq!(
        state.to_string(),
        "Env: x = 2, y = -1\nPath constraints:\n  x@0 [=2] <= 5 : true\n  y@0 [=-1] <= 0 : true\n  ite(x@0 <= 5, ite(y@0 <= 0, x@0 + 5, x + 6), x - 5) <= 3 : false\n"
    );
}

#[test]
fn display_state() {
    let expr = parse_expr("if x + 1 <= 5 then (if y <= x + 2 then y else 0) else -1").unwrap();
    let mut state = ConcolicState::new(env_of(&[("x", 3), ("y", 4)]));
    let _ = state.eval(&expr).unwrap();
    assert_eq!(
        state.to_string(),
        "Env: x = 3, y = 4\nPath constraints:\n  x@0 [=3] + 1 <= 5 : true\n  y@0 [=4] <= x@0 [=3] + 2 : true\n"
    );
}

#[test]
fn eval_assert_does_not_record() {
    let property = parse_bool_expr("x <= 10").unwrap();
    let mut state = ConcolicState::new(env_of(&[("x", 5)]));
    let (result, _sym) = state.eval_assert(&property).unwrap();
    assert!(result);
    assert!(
        state.path_constraints.is_empty(),
        "eval_assert should not record path constraints"
    );
}

#[test]
fn exec_assert_pass() {
    let stmts = parse_stmts("assert(x <= 10)").unwrap();
    let mut state = ConcolicState::new(env_of(&[("x", 5)]));
    assert!(state.exec_stmts(&stmts).is_ok());
}

#[test]
fn exec_assert_fail() {
    let stmts = parse_stmts("assert(x <= 10)").unwrap();
    let mut state = ConcolicState::new(env_of(&[("x", 15)]));
    assert!(matches!(
        state.exec_stmts(&stmts),
        Err(OracleFailure::AssertionFailed { .. })
    ));
}

#[test]
fn exec_seq() {
    let stmts = parse_stmts("assert(x >= 0); assert(x <= 10)").unwrap();
    let mut state = ConcolicState::new(env_of(&[("x", 5)]));
    assert!(state.exec_stmts(&stmts).is_ok());
}

#[test]
fn exec_seq_early_fail() {
    let stmts = parse_stmts("assert(x <= 0); assert(x >= 10)").unwrap();
    let mut state = ConcolicState::new(env_of(&[("x", 5)]));
    assert!(matches!(
        state.exec_stmts(&stmts),
        Err(OracleFailure::AssertionFailed { .. })
    ));
}

#[test]
fn exec_let_simple() {
    let stmts = parse_stmts("let y = x + 1").unwrap();
    let mut state = ConcolicState::new(env_of(&[("x", 5)]));
    state.exec_stmts(&stmts).unwrap();
    assert_eq!(
        state.to_string(),
        "Env: x = 5, y = 6\nLet constraints:\n  y@1 = x@0 + 1\nPath constraints:\n"
    );
}

#[test]
fn exec_let_with_if() {
    let stmts = parse_stmts("let y = if x >= 1 then x else x + 1").unwrap();
    let mut state = ConcolicState::new(env_of(&[("x", 5)]));
    state.exec_stmts(&stmts).unwrap();
    assert_eq!(
        state.to_string(),
        "Env: x = 5, y = 5\nLet constraints:\n  y@1 = ite(x@0 >= 1, x@0, x + 1)\nPath constraints:\n  x@0 [=5] >= 1 : true\n"
    );
}

#[test]
fn exec_let_then_assert() {
    let stmts = parse_stmts("let y = x + 1; assert(y <= 10)").unwrap();
    let mut state = ConcolicState::new(env_of(&[("x", 5)]));
    state.exec_stmts(&stmts).unwrap();
    assert_eq!(
        state.to_string(),
        "Env: x = 5, y = 6\nLet constraints:\n  y@1 = x@0 + 1\nPath constraints:\n"
    );
}

#[test]
fn exec_let_then_assert_fail() {
    let stmts = parse_stmts("let y = x + 1; assert(y <= 10)").unwrap();
    let mut state = ConcolicState::new(env_of(&[("x", 15)]));
    assert!(matches!(
        state.exec_stmts(&stmts),
        Err(OracleFailure::AssertionFailed { .. })
    ));
}

#[test]
fn undefined_variable_error() {
    let expr = parse_expr("x + y").unwrap();
    let mut state = ConcolicState::new(env_of(&[("x", 5)]));
    let result = state.eval(&expr);
    assert!(matches!(
        result,
        Err(OracleFailure::UndefinedVariable { name }) if name == "y"
    ));
}

#[test]
fn undefined_variable_in_assert() {
    let stmts = parse_stmts("assert(y <= 10)").unwrap();
    let mut state = ConcolicState::new(env_of(&[("x", 5)]));
    let result = state.exec_stmts(&stmts);
    assert!(matches!(
        result,
        Err(OracleFailure::UndefinedVariable { name }) if name == "y"
    ));
}

#[test]
fn undefined_variable_in_let() {
    let stmts = parse_stmts("let y = z + 1").unwrap();
    let mut state = ConcolicState::new(env_of(&[("x", 5)]));
    let result = state.exec_stmts(&stmts);
    assert!(matches!(
        result,
        Err(OracleFailure::UndefinedVariable { name }) if name == "z"
    ));
}

#[test]
fn shadowing_let() {
    let stmts = parse_stmts("let y = x + 1; let y = y + 1").unwrap();
    let mut state = ConcolicState::new(env_of(&[("x", 5)]));
    state.exec_stmts(&stmts).unwrap();
    assert_eq!(
        state.to_string(),
        "Env: x = 5, y = 7\nLet constraints:\n  y@1 = x@0 + 1\n  y@2 = y@1 + 1\nPath constraints:\n"
    );
}

#[test]
fn shadowing_input_variable() {
    let stmts = parse_stmts("let x = x + 1; let x = x + 1").unwrap();
    let mut state = ConcolicState::new(env_of(&[("x", 5)]));
    state.exec_stmts(&stmts).unwrap();
    assert_eq!(
        state.to_string(),
        "Env: x = 7\nLet constraints:\n  x@1 = x@0 + 1\n  x@2 = x@1 + 1\nPath constraints:\n"
    );
}
