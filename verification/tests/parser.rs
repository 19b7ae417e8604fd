use concolic_pbt::{parse_bool_expr, parse_expr, parse_stmts, BoolExpr, Expr, Stmt};

fn x() -> Expr {
    Expr::var("x")
}

#[test]
fn parse_number() {
    assert_eq!(parse_expr("42").unwrap(), Expr::Lit(42));
    assert_eq!(parse_expr("-5").unwrap(), Expr::Lit(-5));
    assert_eq!(parse_expr(" 123 ").unwrap(), Expr::Lit(123));
}

#[test]
fn parse_var() {
    assert_eq!(parse_expr("x").unwrap(), Expr::Var("x".to_string()));
    assert_eq!(parse_expr("foo").unwrap(), Expr::Var("foo".to_string()));
    assert_eq!(parse_expr("var123").unwrap(), Expr::Var("var123".to_string()));
}

#[test]
fn parse_arithmetic() {
    assert_eq!(
        parse_expr("x + 1").unwrap(),
        Expr::Add(Box::new(x()), Box::new(Expr::Lit(1)))
    );
    assert_eq!(
        parse_expr("x - 1").unwrap(),
        Expr::Sub(Box::new(x()), Box::new(Expr::Lit(1)))
    );
    assert_eq!(
        parse_expr("x + 1 - 2").unwrap(),
        Expr::Sub(
            Box::new(Expr::Add(Box::new(x()), Box::new(Expr::Lit(1)))),
            Box::new(Expr::Lit(2))
        )
    );
}

#[test]
fn parse_parens() {
    assert_eq!(parse_expr("(42)").unwrap(), Expr::Lit(42));
    assert_eq!(
        parse_expr("(x + 1)").unwrap(),
        Expr::Add(Box::new(Expr::Var("x".to_string())), Box::new(Expr::Lit(1)))
    );
}

#[test]
fn parse_bool_literals() {
    assert_eq!(parse_bool_expr("true").unwrap(), BoolExpr::Lit(true));
    assert_eq!(parse_bool_expr("false").unwrap(), BoolExpr::Lit(false));
}

#[test]
fn parse_comparisons() {
    assert_eq!(
        parse_bool_expr("x <= 5").unwrap(),
        BoolExpr::Le(Box::new(x()), Box::new(Expr::Lit(5)))
    );
    assert_eq!(
        parse_bool_expr("x >= 10").unwrap(),
        BoolExpr::Ge(Box::new(x()), Box::new(Expr::Lit(10)))
    );
    assert_eq!(
        parse_bool_expr("x == 0").unwrap(),
        BoolExpr::Eq(Box::new(x()), Box::new(Expr::Lit(0)))
    );
}

#[test]
fn parse_if_expr() {
    let result = parse_expr("if x <= 5 then 1 else 0").unwrap();
    assert_eq!(
        result,
        Expr::if_(
            BoolExpr::Le(Box::new(Expr::Var("x".to_string())), Box::new(Expr::Lit(5))),
            Expr::Lit(1),
            Expr::Lit(0)
        )
    );
}

#[test]
fn parse_nested_if() {
    let result = parse_expr("if x <= 5 then if x >= 0 then x else 0 else 10").unwrap();
    assert_eq!(
        result,
        Expr::if_(
            BoolExpr::Le(Box::new(Expr::Var("x".to_string())), Box::new(Expr::Lit(5))),
            Expr::if_(
                BoolExpr::Ge(Box::new(Expr::Var("x".to_string())), Box::new(Expr::Lit(0))),
                Expr::Var("x".to_string()),
                Expr::Lit(0)
            ),
            Expr::Lit(10)
        )
    );
}

#[test]
fn parse_complex_expr() {
    let result = parse_expr("if x + 1 <= 10 then x - 1 else 0").unwrap();
    assert_eq!(
        result,
        Expr::if_(
            BoolExpr::Le(
                Box::new(Expr::Add(Box::new(Expr::Var("x".to_string())), Box::new(Expr::Lit(1)))),
                Box::new(Expr::Lit(10))
            ),
            Expr::Sub(Box::new(Expr::Var("x".to_string())), Box::new(Expr::Lit(1))),
            Expr::Lit(0)
        )
    );
}

#[test]
fn parse_rejects_malformed_input() {
    assert!(parse_expr("").is_err());
    assert!(parse_expr("x +").is_err());
    assert!(parse_expr("(x").is_err());
    assert!(parse_expr("if x <= 1 then 2").is_err());
    assert!(parse_expr("if").is_err());
    assert!(parse_expr("007x").is_err());
    assert!(parse_expr("X").is_err());
    assert!(parse_bool_expr("x").is_err());
    assert!(parse_bool_expr("x < 1").is_err());
    assert!(parse_stmts("assert(x <= 1);").is_err());
    assert!(parse_stmts("let = 1").is_err());
}

#[test]
fn parse_whitespace_and_keywords() {
    assert_eq!(parse_expr("\t x\n+\u{a0}1 ").unwrap(), Expr::Add(Box::new(x()), Box::new(Expr::Lit(1))));
    assert_eq!(parse_expr("iffy").unwrap(), Expr::Var("iffy".to_string()));
    assert_eq!(parse_expr("x - -1").unwrap(), Expr::Sub(Box::new(x()), Box::new(Expr::Lit(-1))));
    assert_eq!(parse_expr("007").unwrap(), Expr::Lit(7));
    assert_eq!(
        parse_bool_expr("if x <= 1 then 2 else 3 == 3").unwrap(),
        BoolExpr::Eq(
            Box::new(Expr::if_(
                BoolExpr::Le(Box::new(x()), Box::new(Expr::Lit(1))),
                Expr::Lit(2),
                Expr::Lit(3)
            )),
            Box::new(Expr::Lit(3))
        )
    );
}

#[test]
fn parse_statements() {
    let stmts = parse_stmts(" let y = x + 1 ;assert( y <= 10 ) ").unwrap();
    assert_eq!(stmts.0.len(), 2);
    assert_eq!(
        stmts.0[0],
        Stmt::Let { name: "y".to_string(), expr: Expr::Add(Box::new(x()), Box::new(Expr::Lit(1))) }
    );
    assert_eq!(
        stmts.0[1],
        Stmt::Assert { expr: BoolExpr::Le(Box::new(Expr::var("y")), Box::new(Expr::Lit(10))) }
    );
}
