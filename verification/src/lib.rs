//! Concolic execution of a small expression language, for property-based testing.
pub mod display;
pub mod env;
pub mod expansion;
pub mod explore;
pub mod node;
pub mod parser;
pub mod paths;
pub mod plain;
pub mod rng;
pub mod solver;
pub mod state;
pub mod tensor;
pub mod text;

pub use env::{Env, NameMap};
pub use explore::{ExploreResult, Explorer};
pub use node::{Ast, BoolExpr, Expr, SsaVar, SsaVersion, Stage, Stmt, Stmts, SymBoolExpr, SymExpr, SymIfBranches, Symbolic};
pub use parser::{ParseError, parse_bool_expr, parse_expr, parse_stmts};
pub use solver::{Bound, Bounds, Solver, SolverError, extract_bounds, negate_at};
pub use state::{ConcolicState, ExecutionTrace, OracleFailure, exec, exec_checked};
