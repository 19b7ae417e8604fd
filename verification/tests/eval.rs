use concolic_pbt::{ConcolicState, Env, Expr};

fn env_of(pairs: &[(&str, i64)]) -> Env {
    Env::from_pairs(pairs.iter().map(|(k, v)| (k.to_string(), *v)).collect())
}

#[test]
fn eval_eval_simple() {
    let expr = Expr::var("x").plus(Expr::lit(1));
    let mut state = ConcolicState::new(env_of(&[("x", 5)]));
    assert_eq!(state.eval(&expr).unwrap().0, 6);
    assert!(state.path_constraints.is_empty());
}

#[test]
fn eval_eval_if_then_branch() {
    // if x <= 10 then x + 1 else 0
    let expr = Expr::if_(
        Expr::var("x").le(Expr::lit(10)),
        Expr::var("x").plus(Expr::lit(1)),
        Expr::lit(0),
    );
    let mut state = ConcolicState::new(env_of(&[("x", 5)]));
    let result = state.eval(&expr).unwrap().0;
    assert_eq!(result, 6);
    assert_eq!(state.path_constraints.len(), 1);
    assert_eq!(state.path_constraints[0].1, true);
}

#[test]
fn eval_eval_if_else_branch() {
    let expr = Expr::if_(
        Expr::var("x").le(Expr::lit(10)),
        Expr::var("x").plus(Expr::lit(1)),
        Expr::lit(0),
    );
    let mut state = ConcolicState::new(env_of(&[("x", 15)]));
    let result = state.eval(&expr).unwrap().0;
    assert_eq!(result, 0);
    assert_eq!(state.path_constraints.len(), 1);
    assert_eq!(state.path_constraints[0].1, false);
}

#[test]
fn eval_eval_bool_with_nested_if() {
    // (if x <= 5 then x else 10) <= 7, evaluated as a property: only the
    // inner branch is recorded.
    let inner = Expr::if_(Expr::var("x").le(Expr::lit(5)), Expr::var("x"), Expr::lit(10));
    let cond = inner.le(Expr::lit(7));
    let mut state = ConcolicState::new(env_of(&[("x", 3)]));
    let result = state.eval_assert(&cond).unwrap().0;
    assert!(result);
    assert_eq!(state.path_constraints.len(), 1);
    assert_eq!(state.path_constraints[0].1, true);
}

#[test]
fn eval_eval_bool_with_nested_if_else() {
    let inner = Expr::if_(Expr::var("x").le(Expr::lit(5)), Expr::var("x"), Expr::lit(10));
    let cond = inner.le(Expr::lit(7));
    let mut state = ConcolicState::new(env_of(&[("x", 8)]));
    let result = state.eval_assert(&cond).unwrap().0;
    assert!(!result);
    assert_eq!(state.path_constraints.len(), 1);
    assert_eq!(state.path_constraints[0].1, false);
}
