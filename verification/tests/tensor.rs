use concolic_pbt::tensor::{ShapeEnv, ShapeExpr, TensorExpr};

fn shape_env(pairs: &[(&str, &[usize])]) -> ShapeEnv {
    ShapeEnv::from_pairs(pairs.iter().map(|(k, v)| (k.to_string(), v.to_vec())).collect())
}

#[test]
fn eval_shape_var() {
    let env = shape_env(&[("x", &[3, 4])]);
    let expr = ShapeExpr::shape(TensorExpr::var("x"), 0);
    assert_eq!(expr.eval(&env), 3);
}

#[test]
fn eval_shape_dim1() {
    let env = shape_env(&[("x", &[3, 4])]);
    let expr = ShapeExpr::shape(TensorExpr::var("x"), 1);
    assert_eq!(expr.eval(&env), 4);
}

#[test]
fn eval_matmul_shape() {
    let env = shape_env(&[("a", &[2, 3]), ("b", &[3, 4])]);
    let matmul = TensorExpr::matmul(TensorExpr::var("a"), TensorExpr::var("b"));
    assert_eq!(matmul.eval(&env), vec![2, 4]);
}

#[test]
fn eval_broadcast_shape() {
    let env = shape_env(&[("a", &[3, 1]), ("b", &[1, 4])]);
    let bc = TensorExpr::broadcast(TensorExpr::var("a"), TensorExpr::var("b"));
    assert_eq!(bc.eval(&env), vec![3, 4]);
}

#[test]
fn eval_broadcast_different_dims() {
    let env = shape_env(&[("a", &[3, 4]), ("b", &[4])]);
    let bc = TensorExpr::broadcast(TensorExpr::var("a"), TensorExpr::var("b"));
    assert_eq!(bc.eval(&env), vec![3, 4]);
}

#[test]
fn eval_broadcast_scalar() {
    let env = shape_env(&[("a", &[3, 4]), ("b", &[1])]);
    let bc = TensorExpr::broadcast(TensorExpr::var("a"), TensorExpr::var("b"));
    assert_eq!(bc.eval(&env), vec![3, 4]);
}

#[test]
fn eval_matmul_batched() {
    let env = shape_env(&[("a", &[2, 3, 4]), ("b", &[2, 4, 5])]);
    let matmul = TensorExpr::matmul(TensorExpr::var("a"), TensorExpr::var("b"));
    assert_eq!(matmul.eval(&env), vec![2, 3, 5]);
}

#[test]
fn eval_matmul_broadcast_batch() {
    let env = shape_env(&[("a", &[1, 3, 4]), ("b", &[2, 4, 5])]);
    let matmul = TensorExpr::matmul(TensorExpr::var("a"), TensorExpr::var("b"));
    assert_eq!(matmul.eval(&env), vec![2, 3, 5]);
}

#[test]
fn eval_shape_expr_arithmetic() {
    let env = shape_env(&[("x", &[3, 4])]);
    let dim0 = ShapeExpr::shape(TensorExpr::var("x"), 0);
    let dim1 = ShapeExpr::shape(TensorExpr::var("x"), 1);
    let sum = dim0.plus(dim1);
    assert_eq!(sum.eval(&env), 7);
}

#[test]
fn eval_shape_bool_expr() {
    let env = shape_env(&[("x", &[3, 4])]);
    let dim0 = ShapeExpr::shape(TensorExpr::var("x"), 0);
    let cond = dim0.ge(ShapeExpr::lit(3));
    assert!(cond.eval(&env));
}

#[test]
fn eval_shape_if() {
    let env = shape_env(&[("x", &[3, 4])]);
    let dim0 = ShapeExpr::shape(TensorExpr::var("x"), 0);
    let cond = dim0.ge(ShapeExpr::lit(5));
    let expr = ShapeExpr::if_(cond, ShapeExpr::lit(10), ShapeExpr::lit(20));
    assert_eq!(expr.eval(&env), 20);
}

#[test]
fn display_tensor_expr() {
    let x = TensorExpr::var("x");
    let y = TensorExpr::var("y");
    assert_eq!(x.to_string(), "x");
    assert_eq!(TensorExpr::matmul(x.duplicate(), y.duplicate()).to_string(), "matmul(x, y)");
    assert_eq!(TensorExpr::broadcast(x, y).to_string(), "broadcast(x, y)");
}

#[test]
fn display_shape_expr() {
    let x = TensorExpr::var("x");
    let shape0 = ShapeExpr::shape(x, 0);
    assert_eq!(shape0.to_string(), "shape(x, 0)");
    assert_eq!(ShapeExpr::lit(42).to_string(), "42");
}

#[test]
fn display_shape_bool_expr() {
    let x = TensorExpr::var("x");
    let shape0 = ShapeExpr::shape(x, 0);
    let cond = shape0.ge(ShapeExpr::lit(3));
    assert_eq!(cond.to_string(), "shape(x, 0) >= 3");
}

#[test]
fn eval_shape_subtraction_and_nesting() {
    let env = shape_env(&[("a", &[5, 1, 3]), ("b", &[4, 3]), ("c", &[3, 2])]);
    let bc = TensorExpr::broadcast(TensorExpr::var("a"), TensorExpr::var("b"));
    assert_eq!(bc.eval(&env), vec![5, 4, 3]);
    let mm = TensorExpr::matmul(bc, TensorExpr::var("c"));
    assert_eq!(mm.eval(&env), vec![5, 4, 2]);
    let d = ShapeExpr::shape(mm, 1).minus(ShapeExpr::lit(1));
    assert_eq!(d.eval(&env), 3);
    let text = ShapeExpr::if_(
        ShapeExpr::lit(1).le(ShapeExpr::lit(2)),
        ShapeExpr::lit(3).plus(ShapeExpr::lit(4)),
        ShapeExpr::lit(0),
    );
    assert_eq!(text.to_string(), "ite(1 <= 2, 3 + 4, 0)");
}
