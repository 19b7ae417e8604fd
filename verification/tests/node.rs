use concolic_pbt::{parse_bool_expr, parse_expr, parse_stmts};

#[test]
fn display_expr() {
    assert_eq!(parse_expr("42").unwrap().to_string(), "42");
    assert_eq!(parse_expr("x").unwrap().to_string(), "x");
    assert_eq!(parse_expr("x + 1").unwrap().to_string(), "x + 1");
    assert_eq!(parse_expr("x - 1").unwrap().to_string(), "x - 1");
}

#[test]
fn display_bool_expr() {
    assert_eq!(parse_bool_expr("x <= 5").unwrap().to_string(), "x <= 5");
    assert_eq!(parse_bool_expr("x >= 5").unwrap().to_string(), "x >= 5");
    assert_eq!(parse_bool_expr("x == 5").unwrap().to_string(), "x == 5");
}

#[test]
fn display_if_expr() {
    assert_eq!(
        parse_expr("if x <= 5 then x else 10").unwrap().to_string(),
        "ite(x <= 5, x, 10)"
    );
    assert_eq!(
        parse_bool_expr("(if x <= 5 then x else 10) <= 7").unwrap().to_string(),
        "ite(x <= 5, x, 10) <= 7"
    );
}

#[test]
fn display_stmts() {
    assert_eq!(parse_stmts("assert(x <= 10)").unwrap().to_string(), "assert(x <= 10)");
    assert_eq!(
        parse_stmts("assert(x >= 0); assert(x <= 10)").unwrap().to_string(),
        "assert(x >= 0); assert(x <= 10)"
    );
}

#[test]
fn display_let_stmt() {
    assert_eq!(parse_stmts("let y = x + 1").unwrap().to_string(), "let y = x + 1");
    assert_eq!(
        parse_stmts("let y = if x >= 1 then x else x + 1").unwrap().to_string(),
        "let y = ite(x >= 1, x, x + 1)"
    );
    assert_eq!(
        parse_stmts("let y = x + 1; assert(y <= 10)").unwrap().to_string(),
        "let y = x + 1; assert(y <= 10)"
    );
}
