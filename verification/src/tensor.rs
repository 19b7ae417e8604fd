//! Tensor shape expressions: shapes of tensor expressions, and integer and
//! boolean expressions over them.
use vstd::prelude::*;
use crate::env::NameMap;
use crate::node::is_ascii_alpha;
use crate::text::{dec, push_char, push_str, push_usize};

verus! {

/// A shape: the size of each dimension.
pub type Shape = Vec<usize>;

/// Shapes of the tensor variables, by name.
pub type ShapeEnv = NameMap<Shape>;

/// Tensor expressions; each evaluates to a shape.
#[derive(Debug, PartialEq)]
pub enum TensorExpr {
    /// A tensor variable.
    Var(String),
    /// An element-wise operation with broadcasting.
    Broadcast(Box<TensorExpr>, Box<TensorExpr>),
    /// A matrix multiplication.
    MatMul(Box<TensorExpr>, Box<TensorExpr>),
}

/// Shape expressions; each evaluates to a `usize`.
#[derive(Debug, PartialEq)]
pub enum ShapeExpr {
    /// An integer literal.
    Lit(usize),
    /// `shape(tensor, dim)`: dimension `dim` of a tensor.
    Shape(Box<TensorExpr>, usize),
    /// Addition.
    Add(Box<ShapeExpr>, Box<ShapeExpr>),
    /// Subtraction.
    Sub(Box<ShapeExpr>, Box<ShapeExpr>),
    /// A conditional.
    If(Box<ShapeBoolExpr>, Box<ShapeExpr>, Box<ShapeExpr>),
}

/// Shape constraints.
#[derive(Debug, PartialEq)]
pub enum ShapeBoolExpr {
    /// A boolean literal.
    Lit(bool),
    /// `<=`
    Le(Box<ShapeExpr>, Box<ShapeExpr>),
    /// `>=`
    Ge(Box<ShapeExpr>, Box<ShapeExpr>),
    /// `==`
    Eq(Box<ShapeExpr>, Box<ShapeExpr>),
}

/// Mathematical model of a tensor expression.
pub enum TensorModel {
    Var(Seq<char>),
    Broadcast(Box<TensorModel>, Box<TensorModel>),
    MatMul(Box<TensorModel>, Box<TensorModel>),
}

/// Mathematical model of a shape expression.
pub enum ShapeExprModel {
    Lit(usize),
    Shape(TensorModel, usize),
    Add(Box<ShapeExprModel>, Box<ShapeExprModel>),
    Sub(Box<ShapeExprModel>, Box<ShapeExprModel>),
    If(Box<ShapeBoolExprModel>, Box<ShapeExprModel>, Box<ShapeExprModel>),
}

/// Mathematical model of a shape constraint.
pub enum ShapeBoolExprModel {
    Lit(bool),
    Le(Box<ShapeExprModel>, Box<ShapeExprModel>),
    Ge(Box<ShapeExprModel>, Box<ShapeExprModel>),
    Eq(Box<ShapeExprModel>, Box<ShapeExprModel>),
}

impl Clone for TensorExpr {
    /// A copy, equal to the original.
    fn clone(&self) -> (r: TensorExpr)
        ensures
            r@ == self@,
    {
        self.duplicate()
    }
}

impl TensorExpr {
    /// The model of this expression.
    pub open spec fn model(self) -> TensorModel
        decreases self,
    {
        match self {
            TensorExpr::Var(x) => TensorModel::Var(x@),
            TensorExpr::Broadcast(a, b) => TensorModel::Broadcast(Box::new(a.model()), Box::new(b.model())),
            TensorExpr::MatMul(a, b) => TensorModel::MatMul(Box::new(a.model()), Box::new(b.model())),
        }
    }
}

impl ShapeExpr {
    /// The model of this expression.
    pub open spec fn model(self) -> ShapeExprModel
        decreases self,
    {
        match self {
            ShapeExpr::Lit(n) => ShapeExprModel::Lit(n),
            ShapeExpr::Shape(t, d) => ShapeExprModel::Shape(t.model(), d),
            ShapeExpr::Add(a, b) => ShapeExprModel::Add(Box::new(a.model()), Box::new(b.model())),
            ShapeExpr::Sub(a, b) => ShapeExprModel::Sub(Box::new(a.model()), Box::new(b.model())),
            ShapeExpr::If(c, t, f) => ShapeExprModel::If(
                Box::new(c.model()),
                Box::new(t.model()),
                Box::new(f.model()),
            ),
        }
    }
}

impl ShapeBoolExpr {
    /// The model of this constraint.
    pub open spec fn model(self) -> ShapeBoolExprModel
        decreases self,
    {
        match self {
            ShapeBoolExpr::Lit(b) => ShapeBoolExprModel::Lit(b),
            ShapeBoolExpr::Le(a, b) => ShapeBoolExprModel::Le(Box::new(a.model()), Box::new(b.model())),
            ShapeBoolExpr::Ge(a, b) => ShapeBoolExprModel::Ge(Box::new(a.model()), Box::new(b.model())),
            ShapeBoolExpr::Eq(a, b) => ShapeBoolExprModel::Eq(Box::new(a.model()), Box::new(b.model())),
        }
    }
}

impl View for TensorExpr {
    type V = TensorModel;

    open spec fn view(&self) -> TensorModel {
        self.model()
    }
}

impl View for ShapeExpr {
    type V = ShapeExprModel;

    open spec fn view(&self) -> ShapeExprModel {
        self.model()
    }
}

impl View for ShapeBoolExpr {
    type V = ShapeBoolExprModel;

    open spec fn view(&self) -> ShapeBoolExprModel {
        self.model()
    }
}

/// The shapes of an environment, as sequences.
pub open spec fn shapes_view(env: Map<Seq<char>, Shape>) -> Map<Seq<char>, Seq<usize>> {
    env.map_values(|s: Shape| s@)
}

// ---------------------------------------------------------------------------
// Shape rules
// ---------------------------------------------------------------------------

/// The larger of two lengths.
pub open spec fn max_len(a: nat, b: nat) -> nat {
    if a >= b { a } else { b }
}

/// Dimension `i` counted from the end of `s`; 1 beyond its start.
pub open spec fn dim_from_end(s: Seq<usize>, i: int) -> usize {
    if i < s.len() { s[s.len() - 1 - i] } else { 1 }
}

/// The broadcast of two dimensions: equal ones stay, and a 1 takes the
/// other's size; `None` when they are incompatible.
pub open spec fn broadcast_dim(x: usize, y: usize) -> Option<usize> {
    if x == y { Some(x) } else if x == 1 { Some(y) } else if y == 1 { Some(x) } else { None }
}

/// Whether two shapes can be broadcast together: aligned from their last
/// dimensions, every pair of dimensions is compatible.
pub open spec fn broadcastable(a: Seq<usize>, b: Seq<usize>) -> bool {
    forall|i: int| 0 <= i < max_len(a.len(), b.len()) ==> (#[trigger] broadcast_dim(dim_from_end(a, i), dim_from_end(b, i))) is Some
}

/// NumPy-style broadcasting of two shapes, compared from their trailing
/// dimensions; `None` when they are incompatible.
pub open spec fn broadcast_shape(a: Seq<usize>, b: Seq<usize>) -> Option<Seq<usize>> {
    let n = max_len(a.len(), b.len());
    if broadcastable(a, b) {
        Some(Seq::new(n, |j: int| broadcast_dim(dim_from_end(a, n - 1 - j), dim_from_end(b, n - 1 - j))->Some_0))
    } else {
        None
    }
}

/// The shape of a matrix product: `(.., m, k) @ (.., k, n)` is
/// `(.., m, n)`, the leading (batch) dimensions broadcast; `None` when a
/// shape has fewer than two dimensions, the inner dimensions differ, or the
/// batch dimensions are incompatible.
pub open spec fn matmul_shape(a: Seq<usize>, b: Seq<usize>) -> Option<Seq<usize>> {
    if a.len() < 2 || b.len() < 2 || a[a.len() - 1] != b[b.len() - 2] {
        None
    } else if a.len() == 2 && b.len() == 2 {
        Some(seq![a[0], b[1]])
    } else {
        match broadcast_shape(a.take(a.len() - 2), b.take(b.len() - 2)) {
            Some(batch) => Some(batch.push(a[a.len() - 2]).push(b[b.len() - 1])),
            None => None,
        }
    }
}

impl TensorModel {
    /// The shape of the expression; `None` when a variable is unbound or a
    /// shape rule fails.
    pub open spec fn shape(self, env: Map<Seq<char>, Seq<usize>>) -> Option<Seq<usize>>
        decreases self,
    {
        match self {
            TensorModel::Var(x) => if env.contains_key(x) { Some(env[x]) } else { None },
            TensorModel::Broadcast(a, b) => match (a.shape(env), b.shape(env)) {
                (Some(sa), Some(sb)) => broadcast_shape(sa, sb),
                _ => None,
            },
            TensorModel::MatMul(a, b) => match (a.shape(env), b.shape(env)) {
                (Some(sa), Some(sb)) => matmul_shape(sa, sb),
                _ => None,
            },
        }
    }
}

impl ShapeExprModel {
    /// The value of the expression in `usize` arithmetic; `None` when a
    /// shape cannot be computed, a dimension is out of bounds, or an
    /// addition overflows or a subtraction goes below zero.
    pub open spec fn eval(self, env: Map<Seq<char>, Seq<usize>>) -> Option<usize>
        decreases self,
    {
        match self {
            ShapeExprModel::Lit(n) => Some(n),
            ShapeExprModel::Shape(t, d) => match t.shape(env) {
                Some(s) => if d < s.len() { Some(s[d as int]) } else { None },
                None => None,
            },
            ShapeExprModel::Add(a, b) => match (a.eval(env), b.eval(env)) {
                (Some(x), Some(y)) => if x + y <= usize::MAX { Some((x + y) as usize) } else { None },
                _ => None,
            },
            ShapeExprModel::Sub(a, b) => match (a.eval(env), b.eval(env)) {
                (Some(x), Some(y)) => if x >= y { Some((x - y) as usize) } else { None },
                _ => None,
            },
            ShapeExprModel::If(c, t, f) => match c.eval(env) {
                Some(true) => t.eval(env),
                Some(false) => f.eval(env),
                None => None,
            },
        }
    }
}

impl ShapeBoolExprModel {
    /// The truth value of the constraint; `None` when a side cannot be
    /// evaluated.
    pub open spec fn eval(self, env: Map<Seq<char>, Seq<usize>>) -> Option<bool>
        decreases self,
    {
        match self {
            ShapeBoolExprModel::Lit(b) => Some(b),
            ShapeBoolExprModel::Le(a, b) => match (a.eval(env), b.eval(env)) {
                (Some(x), Some(y)) => Some(x <= y),
                _ => None,
            },
            ShapeBoolExprModel::Ge(a, b) => match (a.eval(env), b.eval(env)) {
                (Some(x), Some(y)) => Some(x >= y),
                _ => None,
            },
            ShapeBoolExprModel::Eq(a, b) => match (a.eval(env), b.eval(env)) {
                (Some(x), Some(y)) => Some(x == y),
                _ => None,
            },
        }
    }
}

// ---------------------------------------------------------------------------
// Laws of broadcasting
// ---------------------------------------------------------------------------

/// Broadcasting does not depend on the order of its operands.
pub proof fn lemma_broadcast_commutes(a: Seq<usize>, b: Seq<usize>)
    ensures
        broadcast_shape(a, b) == broadcast_shape(b, a),
{
    assert(broadcastable(a, b) == broadcastable(b, a)) by {
        assert forall|i: int| 0 <= i < max_len(a.len(), b.len()) implies
            (#[trigger] broadcast_dim(dim_from_end(a, i), dim_from_end(b, i))) == broadcast_dim(dim_from_end(b, i), dim_from_end(a, i)) by {}
        if broadcastable(a, b) {
            assert forall|i: int| 0 <= i < max_len(b.len(), a.len()) implies (#[trigger] broadcast_dim(dim_from_end(b, i), dim_from_end(a, i))) is Some by {
                assert(broadcast_dim(dim_from_end(a, i), dim_from_end(b, i)) is Some);
            }
        }
        if broadcastable(b, a) {
            assert forall|i: int| 0 <= i < max_len(a.len(), b.len()) implies (#[trigger] broadcast_dim(dim_from_end(a, i), dim_from_end(b, i))) is Some by {
                assert(broadcast_dim(dim_from_end(b, i), dim_from_end(a, i)) is Some);
            }
        }
    }
    if broadcastable(a, b) {
        assert(broadcast_shape(a, b)->Some_0 =~= broadcast_shape(b, a)->Some_0);
    }
}

/// A shape broadcast with itself is unchanged.
pub proof fn lemma_broadcast_self(a: Seq<usize>)
    ensures
        broadcast_shape(a, a) == Some(a),
{
    assert forall|i: int| 0 <= i < max_len(a.len(), a.len()) implies (#[trigger] broadcast_dim(dim_from_end(a, i), dim_from_end(a, i))) is Some by {}
    assert(broadcast_shape(a, a)->Some_0 =~= a);
}

/// The shape of a matrix product of operands with at least two dimensions
/// and matching inner dimensions is the broadcast of their batch
/// dimensions followed by `m` and `n`, whichever operand has only two
/// dimensions: it has as many dimensions as the larger operand, and exists
/// exactly when the batch dimensions broadcast.
pub proof fn lemma_matmul_batches(a: Seq<usize>, b: Seq<usize>)
    requires
        a.len() >= 2,
        b.len() >= 2,
        a[a.len() - 1] == b[b.len() - 2],
    ensures
        matmul_shape(a, b) is Some <==> broadcast_shape(a.take(a.len() - 2), b.take(b.len() - 2)) is Some,
        matmul_shape(a, b) matches Some(r) ==> {
            &&& r.len() == max_len(a.len(), b.len())
            &&& r.take(r.len() - 2) == broadcast_shape(a.take(a.len() - 2), b.take(b.len() - 2))->Some_0
            &&& r[r.len() - 2] == a[a.len() - 2]
            &&& r[r.len() - 1] == b[b.len() - 1]
        },
{
    let pa = a.take(a.len() - 2);
    let pb = b.take(b.len() - 2);
    if a.len() == 2 && b.len() == 2 {
        let e: Seq<usize> = seq![];
        assert(pa =~= e && pb =~= e);
        lemma_broadcast_scalar(e);
        let r = seq![a[0], b[1]];
        assert(r.take(0) =~= e);
    } else {
        if let Some(batch) = broadcast_shape(pa, pb) {
            let r = batch.push(a[a.len() - 2]).push(b[b.len() - 1]);
            assert(r.take(r.len() - 2) =~= batch);
        }
    }
}

/// A shape broadcast with the shape of no dimensions (a scalar) is
/// unchanged.
pub proof fn lemma_broadcast_scalar(a: Seq<usize>)
    ensures
        broadcast_shape(a, seq![]) == Some(a),
{
    let e: Seq<usize> = seq![];
    assert forall|i: int| 0 <= i < max_len(a.len(), e.len()) implies (#[trigger] broadcast_dim(dim_from_end(a, i), dim_from_end(e, i))) is Some by {}
    assert(broadcast_shape(a, e)->Some_0 =~= a);
}

// ---------------------------------------------------------------------------
// Construction
// ---------------------------------------------------------------------------

impl TensorExpr {
    /// A tensor variable; the name must start with an ASCII letter.
    pub fn var(name: &str) -> (r: TensorExpr)
        requires
            name@.len() > 0,
            is_ascii_alpha(name@[0]),
        ensures
            r@ == TensorModel::Var(name@),
    {
        TensorExpr::Var(crate::text::owned(name))
    }

    /// The matrix product of `a` and `b`.
    pub fn matmul(a: TensorExpr, b: TensorExpr) -> (r: TensorExpr)
        ensures
            r@ == TensorModel::MatMul(Box::new(a@), Box::new(b@)),
    {
        TensorExpr::MatMul(Box::new(a), Box::new(b))
    }

    /// The broadcast of `a` and `b`.
    pub fn broadcast(a: TensorExpr, b: TensorExpr) -> (r: TensorExpr)
        ensures
            r@ == TensorModel::Broadcast(Box::new(a@), Box::new(b@)),
    {
        TensorExpr::Broadcast(Box::new(a), Box::new(b))
    }

    /// A copy of this expression.
    pub fn duplicate(&self) -> (r: TensorExpr)
        ensures
            r@ == self@,
        decreases self,
    {
        match self {
            TensorExpr::Var(x) => TensorExpr::Var(x.clone()),
            TensorExpr::Broadcast(a, b) => TensorExpr::Broadcast(Box::new(a.duplicate()), Box::new(b.duplicate())),
            TensorExpr::MatMul(a, b) => TensorExpr::MatMul(Box::new(a.duplicate()), Box::new(b.duplicate())),
        }
    }
}

impl ShapeExpr {
    /// A copy of this expression.
    pub fn duplicate(&self) -> (r: ShapeExpr)
        ensures
            r@ == self@,
        decreases self,
    {
        match self {
            ShapeExpr::Lit(n) => ShapeExpr::Lit(*n),
            ShapeExpr::Shape(t, d) => ShapeExpr::Shape(Box::new(t.duplicate()), *d),
            ShapeExpr::Add(a, b) => ShapeExpr::Add(Box::new(a.duplicate()), Box::new(b.duplicate())),
            ShapeExpr::Sub(a, b) => ShapeExpr::Sub(Box::new(a.duplicate()), Box::new(b.duplicate())),
            ShapeExpr::If(c, t, f) => ShapeExpr::If(Box::new(c.duplicate()), Box::new(t.duplicate()), Box::new(f.duplicate())),
        }
    }
}

impl ShapeBoolExpr {
    /// A copy of this expression.
    pub fn duplicate(&self) -> (r: ShapeBoolExpr)
        ensures
            r@ == self@,
        decreases self,
    {
        match self {
            ShapeBoolExpr::Lit(b) => ShapeBoolExpr::Lit(*b),
            ShapeBoolExpr::Le(a, b) => ShapeBoolExpr::Le(Box::new(a.duplicate()), Box::new(b.duplicate())),
            ShapeBoolExpr::Ge(a, b) => ShapeBoolExpr::Ge(Box::new(a.duplicate()), Box::new(b.duplicate())),
            ShapeBoolExpr::Eq(a, b) => ShapeBoolExpr::Eq(Box::new(a.duplicate()), Box::new(b.duplicate())),
        }
    }
}

impl Clone for ShapeExpr {
    /// A copy, equal to the original.
    fn clone(&self) -> (r: ShapeExpr)
        ensures
            r@ == self@,
    {
        self.duplicate()
    }
}

impl Clone for ShapeBoolExpr {
    /// A copy, equal to the original.
    fn clone(&self) -> (r: ShapeBoolExpr)
        ensures
            r@ == self@,
    {
        self.duplicate()
    }
}

impl ShapeExpr {
    /// An integer literal.
    pub fn lit(n: usize) -> (r: ShapeExpr)
        ensures
            r@ == ShapeExprModel::Lit(n),
    {
        ShapeExpr::Lit(n)
    }

    /// `shape(tensor, dim)`.
    pub fn shape(tensor: TensorExpr, dim: usize) -> (r: ShapeExpr)
        ensures
            r@ == ShapeExprModel::Shape(tensor@, dim),
    {
        ShapeExpr::Shape(Box::new(tensor), dim)
    }

    /// A conditional.
    pub fn if_(cond: ShapeBoolExpr, then_: ShapeExpr, else_: ShapeExpr) -> (r: ShapeExpr)
        ensures
            r@ == ShapeExprModel::If(Box::new(cond@), Box::new(then_@), Box::new(else_@)),
    {
        ShapeExpr::If(Box::new(cond), Box::new(then_), Box::new(else_))
    }

    /// The sum `self + rhs`.
    pub fn plus(self, rhs: ShapeExpr) -> (r: ShapeExpr)
        ensures
            r@ == ShapeExprModel::Add(Box::new(self@), Box::new(rhs@)),
    {
        ShapeExpr::Add(Box::new(self), Box::new(rhs))
    }

    /// The difference `self - rhs`.
    pub fn minus(self, rhs: ShapeExpr) -> (r: ShapeExpr)
        ensures
            r@ == ShapeExprModel::Sub(Box::new(self@), Box::new(rhs@)),
    {
        ShapeExpr::Sub(Box::new(self), Box::new(rhs))
    }

    /// The constraint `self <= rhs`.
    pub fn le(self, rhs: ShapeExpr) -> (r: ShapeBoolExpr)
        ensures
            r@ == ShapeBoolExprModel::Le(Box::new(self@), Box::new(rhs@)),
    {
        ShapeBoolExpr::Le(Box::new(self), Box::new(rhs))
    }

    /// The constraint `self >= rhs`.
    pub fn ge(self, rhs: ShapeExpr) -> (r: ShapeBoolExpr)
        ensures
            r@ == ShapeBoolExprModel::Ge(Box::new(self@), Box::new(rhs@)),
    {
        ShapeBoolExpr::Ge(Box::new(self), Box::new(rhs))
    }

    /// The constraint `self == rhs`.
    pub fn eq_(self, rhs: ShapeExpr) -> (r: ShapeBoolExpr)
        ensures
            r@ == ShapeBoolExprModel::Eq(Box::new(self@), Box::new(rhs@)),
    {
        ShapeBoolExpr::Eq(Box::new(self), Box::new(rhs))
    }
}

impl ShapeBoolExpr {
    /// A boolean literal.
    pub fn lit(b: bool) -> (r: ShapeBoolExpr)
        ensures
            r@ == ShapeBoolExprModel::Lit(b),
    {
        ShapeBoolExpr::Lit(b)
    }
}

// ---------------------------------------------------------------------------
// Evaluation
// ---------------------------------------------------------------------------

/// NumPy-style broadcast of two compatible shapes.
fn broadcast_shapes(a: &Shape, b: &Shape) -> (r: Shape)
    requires
        broadcastable(a@, b@),
    ensures
        broadcast_shape(a@, b@) == Some(r@),
{
    let n: usize = if a.len() >= b.len() { a.len() } else { b.len() };
    let ghost target = broadcast_shape(a@, b@)->Some_0;
    let mut rev: Vec<usize> = Vec::new();
    let mut i: usize = 0;
    while i < n
        invariant
            i <= n,
            n == max_len(a@.len(), b@.len()),
            broadcastable(a@, b@),
            target == broadcast_shape(a@, b@)->Some_0,
            rev@.len() == i,
            forall|k: int| 0 <= k < i ==> #[trigger] rev@[k] == target[n - 1 - k],
        decreases n - i,
    {
        let dim_a: usize = if i < a.len() { a[a.len() - 1 - i] } else { 1 };
        let dim_b: usize = if i < b.len() { b[b.len() - 1 - i] } else { 1 };
        assert(dim_a == dim_from_end(a@, i as int) && dim_b == dim_from_end(b@, i as int));
        assert(broadcast_dim(dim_a, dim_b) is Some);
        let out = if dim_a == dim_b {
            dim_a
        } else if dim_a == 1 {
            dim_b
        } else {
            dim_a
        };
        rev.push(out);
        i = i + 1;
    }
    let mut result: Vec<usize> = Vec::new();
    let mut j: usize = 0;
    while j < n
        invariant
            j <= n,
            rev@.len() == n,
            target.len() == n,
            forall|k: int| 0 <= k < n ==> #[trigger] rev@[k] == target[n - 1 - k],
            result@ == target.take(j as int),
        decreases n - j,
    {
        result.push(rev[n - 1 - j]);
        assert(result@ =~= target.take(j + 1));
        j = j + 1;
    }
    assert(target.take(n as int) =~= target);
    result
}

/// The leading `n` dimensions of a shape.
fn leading(s: &Shape, n: usize) -> (r: Shape)
    requires
        n <= s@.len(),
    ensures
        r@ == s@.take(n as int),
{
    let mut out: Vec<usize> = Vec::new();
    let mut i: usize = 0;
    while i < n
        invariant
            i <= n <= s@.len(),
            out@ == s@.take(i as int),
        decreases n - i,
    {
        out.push(s[i]);
        assert(out@ =~= s@.take(i + 1));
        i = i + 1;
    }
    out
}

/// The shape of the matrix product of two shapes.
fn matmul_shapes(a: &Shape, b: &Shape) -> (r: Shape)
    requires
        matmul_shape(a@, b@) is Some,
    ensures
        matmul_shape(a@, b@) == Some(r@),
{
    let m = a[a.len() - 2];
    let n = b[b.len() - 1];
    if a.len() == 2 && b.len() == 2 {
        let mut r: Vec<usize> = Vec::new();
        r.push(m);
        r.push(n);
        assert(r@ =~= seq![a@[0], b@[1]]);
        r
    } else {
        let a_batch = leading(a, a.len() - 2);
        let b_batch = leading(b, b.len() - 2);
        let mut r = broadcast_shapes(&a_batch, &b_batch);
        r.push(m);
        r.push(n);
        r
    }
}

impl TensorExpr {
    /// The shape of the expression; every variable must be bound and every
    /// shape rule met.
    pub fn eval(&self, env: &ShapeEnv) -> (r: Shape)
        requires
            self@.shape(shapes_view(env@)) is Some,
        ensures
            self@.shape(shapes_view(env@)) == Some(r@),
        decreases self,
    {
        match self {
            TensorExpr::Var(name) => match env.lookup(name) {
                Some(s) => {
                    let mut out: Vec<usize> = Vec::new();
                    let mut i: usize = 0;
                    while i < s.len()
                        invariant
                            i <= s@.len(),
                            out@ == s@.take(i as int),
                        decreases s.len() - i,
                    {
                        out.push(s[i]);
                        assert(out@ =~= s@.take(i + 1));
                        i = i + 1;
                    }
                    assert(s@.take(i as int) =~= s@);
                    out
                },
                None => {
                    assert(false);
                    Vec::new()
                },
            },
            TensorExpr::Broadcast(a, b) => {
                let sa = a.eval(env);
                let sb = b.eval(env);
                broadcast_shapes(&sa, &sb)
            },
            TensorExpr::MatMul(a, b) => {
                let sa = a.eval(env);
                let sb = b.eval(env);
                matmul_shapes(&sa, &sb)
            },
        }
    }
}

impl ShapeExpr {
    /// The value of the expression; every shape must be computable, every
    /// dimension in bounds, and no addition may overflow nor subtraction go
    /// below zero.
    pub fn eval(&self, env: &ShapeEnv) -> (r: usize)
        requires
            self@.eval(shapes_view(env@)) is Some,
        ensures
            self@.eval(shapes_view(env@)) == Some(r),
        decreases self,
    {
        match self {
            ShapeExpr::Lit(n) => *n,
            ShapeExpr::Shape(tensor, dim) => {
                let shape = tensor.eval(env);
                shape[*dim]
            },
            ShapeExpr::Add(a, b) => a.eval(env) + b.eval(env),
            ShapeExpr::Sub(a, b) => a.eval(env) - b.eval(env),
            ShapeExpr::If(cond, then_, else_) => {
                if cond.eval(env) {
                    then_.eval(env)
                } else {
                    else_.eval(env)
                }
            },
        }
    }
}

impl ShapeBoolExpr {
    /// The truth value of the constraint; both sides must be evaluable.
    pub fn eval(&self, env: &ShapeEnv) -> (r: bool)
        requires
            self@.eval(shapes_view(env@)) is Some,
        ensures
            self@.eval(shapes_view(env@)) == Some(r),
        decreases self,
    {
        match self {
            ShapeBoolExpr::Lit(b) => *b,
            ShapeBoolExpr::Le(l, r) => l.eval(env) <= r.eval(env),
            ShapeBoolExpr::Ge(l, r) => l.eval(env) >= r.eval(env),
            ShapeBoolExpr::Eq(l, r) => l.eval(env) == r.eval(env),
        }
    }
}

// ---------------------------------------------------------------------------
// Rendering
// ---------------------------------------------------------------------------

/// `", "`.
pub open spec fn sep_text() -> Seq<char> {
    seq![',', ' ']
}

/// A tensor expression as text: `x`, `broadcast(a, b)`, `matmul(a, b)`.
pub open spec fn tensor_text(t: TensorModel) -> Seq<char>
    decreases t,
{
    match t {
        TensorModel::Var(x) => x,
        TensorModel::Broadcast(a, b) => "broadcast("@ + tensor_text(*a) + sep_text() + tensor_text(*b) + seq![')'],
        TensorModel::MatMul(a, b) => "matmul("@ + tensor_text(*a) + sep_text() + tensor_text(*b) + seq![')'],
    }
}

/// A shape expression as text.
pub open spec fn shape_text(e: ShapeExprModel) -> Seq<char>
    decreases e,
{
    match e {
        ShapeExprModel::Lit(n) => dec(n as nat),
        ShapeExprModel::Shape(t, d) => "shape("@ + tensor_text(t) + sep_text() + dec(d as nat) + seq![')'],
        ShapeExprModel::Add(a, b) => shape_text(*a) + seq![' ', '+', ' '] + shape_text(*b),
        ShapeExprModel::Sub(a, b) => shape_text(*a) + seq![' ', '-', ' '] + shape_text(*b),
        ShapeExprModel::If(c, t, f) => "ite("@ + shape_bool_text(*c) + sep_text() + shape_text(*t) + sep_text()
            + shape_text(*f) + seq![')'],
    }
}

/// A shape constraint as text.
pub open spec fn shape_bool_text(c: ShapeBoolExprModel) -> Seq<char>
    decreases c,
{
    match c {
        ShapeBoolExprModel::Lit(b) => if b { "true"@ } else { "false"@ },
        ShapeBoolExprModel::Le(a, b) => shape_text(*a) + " <= "@ + shape_text(*b),
        ShapeBoolExprModel::Ge(a, b) => shape_text(*a) + " >= "@ + shape_text(*b),
        ShapeBoolExprModel::Eq(a, b) => shape_text(*a) + " == "@ + shape_text(*b),
    }
}

fn write_tensor(t: &TensorExpr, s: &mut String)
    ensures
        final(s)@ == old(s)@ + tensor_text(t@),
    decreases t,
{
    match t {
        TensorExpr::Var(x) => push_str(s, x.as_str()),
        TensorExpr::Broadcast(a, b) => {
            proof { reveal_strlit(", "); }
            push_str(s, "broadcast(");
            write_tensor(a, s);
            push_str(s, ", ");
            write_tensor(b, s);
            push_char(s, ')');
            assert(s@ =~= old(s)@ + tensor_text(t@));
        },
        TensorExpr::MatMul(a, b) => {
            proof { reveal_strlit(", "); }
            push_str(s, "matmul(");
            write_tensor(a, s);
            push_str(s, ", ");
            write_tensor(b, s);
            push_char(s, ')');
            assert(s@ =~= old(s)@ + tensor_text(t@));
        },
    }
}

fn write_shape(e: &ShapeExpr, s: &mut String)
    ensures
        final(s)@ == old(s)@ + shape_text(e@),
    decreases e,
{
    match e {
        ShapeExpr::Lit(n) => push_usize(s, *n),
        ShapeExpr::Shape(t, d) => {
            proof { reveal_strlit(", "); }
            push_str(s, "shape(");
            write_tensor(t, s);
            push_str(s, ", ");
            push_usize(s, *d);
            push_char(s, ')');
            assert(s@ =~= old(s)@ + shape_text(e@));
        },
        ShapeExpr::Add(a, b) => {
            write_shape(a, s);
            proof { reveal_strlit(" + "); }
            push_str(s, " + ");
            write_shape(b, s);
            assert(s@ =~= old(s)@ + shape_text(e@));
        },
        ShapeExpr::Sub(a, b) => {
            write_shape(a, s);
            proof { reveal_strlit(" - "); }
            push_str(s, " - ");
            write_shape(b, s);
            assert(s@ =~= old(s)@ + shape_text(e@));
        },
        ShapeExpr::If(c, t, f) => {
            proof { reveal_strlit(", "); }
            push_str(s, "ite(");
            write_shape_bool(c, s);
            push_str(s, ", ");
            write_shape(t, s);
            push_str(s, ", ");
            write_shape(f, s);
            push_char(s, ')');
            assert(s@ =~= old(s)@ + shape_text(e@));
        },
    }
}

fn write_shape_bool(c: &ShapeBoolExpr, s: &mut String)
    ensures
        final(s)@ == old(s)@ + shape_bool_text(c@),
    decreases c,
{
    match c {
        ShapeBoolExpr::Lit(b) => push_str(s, if *b { "true" } else { "false" }),
        ShapeBoolExpr::Le(a, b) => {
            write_shape(a, s);
            push_str(s, " <= ");
            write_shape(b, s);
            assert(s@ =~= old(s)@ + shape_bool_text(c@));
        },
        ShapeBoolExpr::Ge(a, b) => {
            write_shape(a, s);
            push_str(s, " >= ");
            write_shape(b, s);
            assert(s@ =~= old(s)@ + shape_bool_text(c@));
        },
        ShapeBoolExpr::Eq(a, b) => {
            write_shape(a, s);
            push_str(s, " == ");
            write_shape(b, s);
            assert(s@ =~= old(s)@ + shape_bool_text(c@));
        },
    }
}

impl TensorExpr {
    /// The expression as text.
    pub fn to_string(&self) -> (r: String)
        ensures
            r@ == tensor_text(self@),
    {
        let mut s = String::new();
        write_tensor(self, &mut s);
        assert(s@ =~= tensor_text(self@));
        s
    }
}

impl ShapeExpr {
    /// The expression as text.
    pub fn to_string(&self) -> (r: String)
        ensures
            r@ == shape_text(self@),
    {
        let mut s = String::new();
        write_shape(self, &mut s);
        assert(s@ =~= shape_text(self@));
        s
    }
}

impl ShapeBoolExpr {
    /// The constraint as text.
    pub fn to_string(&self) -> (r: String)
        ensures
            r@ == shape_bool_text(self@),
    {
        let mut s = String::new();
        write_shape_bool(self, &mut s);
        assert(s@ =~= shape_bool_text(self@));
        s
    }
}

} // verus!
