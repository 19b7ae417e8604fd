//! Depth-first exploration of execution paths in search of a failing input.
use vstd::prelude::*;
use crate::display::{env_text, write_env};
use crate::env::Env;
use crate::text::{push_char, push_str};
use crate::node::{SsaVarModel, Stmt, StmtModel, Stmts, SymBoolExprModel, SymExprModel};
use crate::paths::lemma_alternative_followed;
use crate::plain::{lemma_bound_names_plain, plain_stmts};
use crate::solver::{Solver, SolverError, is_solution, solve_outcome, lemma_solution_satisfies, negated, nonlit_hold, subst_constraints};
use crate::state::{ExecutionTrace, OracleFailure, OracleFailureModel, RunResult, StateModel, bools_view, constraints_view, exec_checked, initial, lets_view, run, step};

verus! {

/// Result of an exploration.
#[derive(Debug, Clone, PartialEq)]
pub enum ExploreResult {
    /// An input for which the statements fail.
    Counterexample {
        /// The input that caused the failure.
        env: Env,
        /// The failure: that of the run, or of the assertion the input was
        /// found to violate.
        failure: OracleFailure,
    },
    /// Every path that was reached satisfies the property.
    Verified,
    /// The iteration limit was reached before exploration ended.
    MaxIterationsReached,
}

/// A path, as the directions taken at its branches.
pub type Path = Vec<bool>;

/// The directions recorded in path constraints.
pub open spec fn directions(cs: Seq<(SymBoolExprModel, bool)>) -> Seq<bool> {
    cs.map_values(|p: (SymBoolExprModel, bool)| p.1)
}

/// The state and outcome of running `stmts` from `env`.
#[verifier::opaque]
pub open spec fn run_from(stmts: Seq<StmtModel>, env: Map<Seq<char>, i64>) -> (StateModel, RunResult) {
    run(initial(env), stmts)
}

/// Runs the statements from `env`; `None` when an arithmetic overflow
/// stops the run.
fn run_checked(stmts: &Stmts, env: Env) -> (r: Option<ExecutionTrace>)
    ensures
        match r {
            Some(t) => {
                &&& !(run_from(stmts@, env@).1 is Overflow)
                &&& (t.result is Ok <==> run_from(stmts@, env@).1 is Done)
                &&& (t.result matches Err(f) ==> run_from(stmts@, env@).1 == RunResult::Failed(f@))
                &&& constraints_view(t.path_constraints@) == run_from(stmts@, env@).0.path_constraints
                &&& lets_view(t.let_constraints@) == run_from(stmts@, env@).0.let_constraints
                &&& bools_view(t.passed_asserts@) == run_from(stmts@, env@).0.passed_asserts
            },
            None => run_from(stmts@, env@).1 is Overflow,
        },
{
    proof {
        reveal(run_from);
    }
    exec_checked(stmts, env)
}

/// Whether the statements, run from `env`, complete along `path`.
pub open spec fn reaches(stmts: Seq<StmtModel>, env: Map<Seq<char>, i64>, path: Seq<bool>) -> bool {
    &&& run_from(stmts, env).1 is Done
    &&& directions(run_from(stmts, env).0.path_constraints) == path
}

/// `path` up to branch `i`, then the other direction at branch `i`.
pub open spec fn flipped_at(path: Seq<bool>, i: int) -> Seq<bool> {
    path.take(i).push(!path[i])
}

/// Whether asking the solver for an input that keeps the constraints `pcs`
/// and makes `assertion` false, with the definitions `lets` substituted, can
/// be answered without an input on which the statements fail: by an error,
/// or by an input on which they complete or overflow.
pub open spec fn query_cleared(
    stmts: Seq<StmtModel>,
    pcs: Seq<(SymBoolExprModel, bool)>,
    lets: Seq<(SsaVarModel, SymExprModel)>,
    assertion: SymBoolExprModel,
    attempts: nat,
) -> bool {
    exists|r: Result<Env, SolverError>| #[trigger] solve_outcome(
        subst_constraints(pcs.push((assertion, false)), lets),
        lets,
        attempts,
        r,
    ) && match r {
        Ok(e) => !(run_from(stmts, e@).1 is Failed),
        Err(_) => true,
    }
}

/// Whether every assertion that passed on the run from `env` is
/// `query_cleared` for that run's constraints.
pub open spec fn run_cleared(stmts: Seq<StmtModel>, env: Map<Seq<char>, i64>, attempts: nat) -> bool {
    let st = run_from(stmts, env).0;
    forall|a: int| 0 <= a < st.passed_asserts.len()
        ==> query_cleared(stmts, st.path_constraints, st.let_constraints, #[trigger] st.passed_asserts[a], attempts)
}

/// Whether asking the solver for an input that takes the other direction
/// at branch `i` of the run from `env` can be answered without an input on
/// which the statements can be run: by an error, or by an input on which
/// they overflow.
pub open spec fn alternative_cleared(stmts: Seq<StmtModel>, env: Map<Seq<char>, i64>, i: int, attempts: nat) -> bool {
    let st = run_from(stmts, env).0;
    exists|r: Result<Env, SolverError>| #[trigger] solve_outcome(
        subst_constraints(negated(st.path_constraints, i), st.let_constraints),
        st.let_constraints,
        attempts,
        r,
    ) && match r {
        Ok(e) => run_from(stmts, e@).1 is Overflow,
        Err(_) => true,
    }
}

/// Whether `e` is an input the solver may give when asked to keep the
/// constraints of the run from `v` and make its `a`-th passed assertion
/// false.
pub open spec fn assertion_answer(stmts: Seq<StmtModel>, v: Map<Seq<char>, i64>, a: int, attempts: nat, e: Map<Seq<char>, i64>) -> bool {
    let st = run_from(stmts, v).0;
    answers_assertion(st.path_constraints, st.let_constraints, st.passed_asserts[a], attempts, e)
}

/// Whether `e` is an input the solver may give when asked to keep `pcs`
/// and make `assertion` false, with `lets` substituted.
pub open spec fn answers_assertion(
    pcs: Seq<(SymBoolExprModel, bool)>,
    lets: Seq<(SsaVarModel, SymExprModel)>,
    assertion: SymBoolExprModel,
    attempts: nat,
    e: Map<Seq<char>, i64>,
) -> bool {
    exists|r: Result<Env, SolverError>| #[trigger] solve_outcome(
        subst_constraints(pcs.push((assertion, false)), lets),
        lets,
        attempts,
        r,
    ) && (r is Ok && r->Ok_0@ == e)
}

/// Whether `e` is an input the solver may give when asked for the other
/// direction at branch `i` of the run from `v`.
pub open spec fn alternative_answer(stmts: Seq<StmtModel>, v: Map<Seq<char>, i64>, i: int, attempts: nat, e: Map<Seq<char>, i64>) -> bool {
    let st = run_from(stmts, v).0;
    exists|r: Result<Env, SolverError>| #[trigger] solve_outcome(
        subst_constraints(negated(st.path_constraints, i), st.let_constraints),
        st.let_constraints,
        attempts,
        r,
    ) && (r is Ok && r->Ok_0@ == e)
}

/// Whether `q` takes the directions of `p` before branch `j` and the other
/// direction at branch `j`.
pub open spec fn differs_at(q: Seq<bool>, p: Seq<bool>, j: int) -> bool {
    &&& 0 <= j < q.len()
    &&& j < p.len()
    &&& q.take(j) == p.take(j)
    &&& q[j] != p[j]
}

/// Whether `q` leaves `p` at one of its branches from `lo` on.
pub open spec fn leaves_from(q: Seq<bool>, p: Seq<bool>, lo: int) -> bool {
    exists|j: int| lo <= j && #[trigger] differs_at(q, p, j)
}

/// Depth-first explorer that looks for inputs violating the assertions.
pub struct Explorer {
    /// Solver used to find inputs for other paths.
    solver: Solver,
    /// Paths run with concrete inputs, with those inputs.
    visited: Vec<(Path, Env)>,
    /// Paths for which the solver found no input.
    unreached: Vec<Path>,
    /// Maximum number of paths to run.
    max_iterations: usize,
    /// Number of runs so far.
    iterations: usize,
}

impl Explorer {
    /// Number of runs so far.
    pub closed spec fn iteration_count(self) -> nat {
        self.iterations as nat
    }

    /// Maximum number of runs.
    pub closed spec fn limit(self) -> nat {
        self.max_iterations as nat
    }

    /// The paths run, with their inputs, in order.
    pub closed spec fn visited_paths(self) -> Seq<(Seq<bool>, Map<Seq<char>, i64>)> {
        self.visited@.map_values(|p: (Path, Env)| (p.0@, p.1@))
    }

    /// The paths for which no input was found, in order.
    pub closed spec fn unreached_paths(self) -> Seq<Seq<bool>> {
        self.unreached@.map_values(|p: Path| p@)
    }

    /// The number of sampling attempts of the explorer's solver.
    pub closed spec fn solver_attempts(self) -> nat {
        self.solver.attempts()
    }

    /// Whether, for every path visited at index `from` or later, every
    /// assertion that passed on it was submitted to the solver and answered
    /// without an input on which the statements fail.
    pub open spec fn searched(self, from: int, stmts: Seq<StmtModel>) -> bool {
        forall|k: int| from <= k < self.visited_paths().len()
            ==> run_cleared(stmts, (#[trigger] self.visited_paths()[k]).1, self.solver_attempts())
    }

    /// Whether the record of an exploration grew from `old` by entries for
    /// `stmts`: what was recorded stays, and every newly visited path is
    /// reached by its input.
    pub open spec fn extends(self, old: Explorer, stmts: Seq<StmtModel>) -> bool {
        &&& self.limit() == old.limit()
        &&& self.solver_attempts() == old.solver_attempts()
        &&& old.iteration_count() <= self.iteration_count()
        &&& self.visited_paths().len() - old.visited_paths().len() <= self.iteration_count() - old.iteration_count()
        &&& (old.iteration_count() <= old.limit() ==> self.iteration_count() <= self.limit())
        &&& old.visited_paths().len() <= self.visited_paths().len()
        &&& forall|k: int| 0 <= k < old.visited_paths().len()
            ==> #[trigger] self.visited_paths()[k] == old.visited_paths()[k]
        &&& old.unreached_paths().len() <= self.unreached_paths().len()
        &&& forall|k: int| 0 <= k < old.unreached_paths().len()
            ==> #[trigger] self.unreached_paths()[k] == old.unreached_paths()[k]
        &&& forall|k: int| old.visited_paths().len() <= k < self.visited_paths().len()
            ==> reaches(stmts, (#[trigger] self.visited_paths()[k]).1, self.visited_paths()[k].0)
        &&& forall|k: int| old.unreached_paths().len() <= k < self.unreached_paths().len()
            ==> self.flips_visited(#[trigger] self.unreached_paths()[k], old.visited_paths().len() as int, stmts)
    }

    /// Whether `p` is a path visited at index `from` or later, with the
    /// direction at one of its branches flipped, for which the solver was
    /// asked for an input and gave none that could be run.
    pub open spec fn flips_visited(self, p: Seq<bool>, from: int, stmts: Seq<StmtModel>) -> bool {
        exists|j: int, i: int|
            from <= j < self.visited_paths().len() && 0 <= i < self.visited_paths()[j].0.len()
                && p == #[trigger] flipped_at(self.visited_paths()[j].0, i)
                && alternative_cleared(stmts, self.visited_paths()[j].1, i, self.solver_attempts())
    }

    /// Whether `e` is an input the solver may give for one of the passed
    /// assertions or one of the branches of the path visited at index `j`.
    pub open spec fn found_for(self, j: int, stmts: Seq<StmtModel>, e: Map<Seq<char>, i64>) -> bool {
        let v = self.visited_paths()[j];
        ||| exists|a: int| 0 <= a < run_from(stmts, v.1).0.passed_asserts.len()
            && #[trigger] assertion_answer(stmts, v.1, a, self.solver_attempts(), e)
        ||| exists|i: int| 0 <= i < v.0.len() && #[trigger] alternative_answer(stmts, v.1, i, self.solver_attempts(), e)
    }

    /// Whether `e` is an input the solver may give for a path visited at
    /// index `from` or later.
    pub open spec fn found_input(self, from: int, stmts: Seq<StmtModel>, e: Map<Seq<char>, i64>) -> bool {
        exists|j: int| from <= j < self.visited_paths().len() && #[trigger] self.found_for(j, stmts, e)
    }

    /// Whether `p` is a path visited at index `from` or later with the
    /// direction flipped at one of its branches from `lo` on.
    pub open spec fn flips_from(self, p: Seq<bool>, from: int, lo: int) -> bool {
        exists|j: int, i: int|
            from <= j < self.visited_paths().len() && lo <= i < self.visited_paths()[j].0.len()
                && p == #[trigger] flipped_at(self.visited_paths()[j].0, i)
    }

    /// Whether the paths visited at index `from` or later are pairwise
    /// different.
    pub open spec fn paths_distinct(self, from: int) -> bool {
        forall|a: int, b: int| #![trigger self.visited_paths()[a], self.visited_paths()[b]]
            from <= a < b < self.visited_paths().len() ==> self.visited_paths()[a].0 != self.visited_paths()[b].0
    }

    /// Whether the paths visited at index `from` or later have at least `m`
    /// branches and take the directions of `root` at the first `m`.
    pub open spec fn share_prefix(self, from: int, root: Seq<bool>, m: int) -> bool {
        forall|k: int| from <= k < self.visited_paths().len() ==> {
            &&& m <= (#[trigger] self.visited_paths()[k]).0.len()
            &&& self.visited_paths()[k].0.take(m) == root.take(m)
        }
    }

    /// Whether each path visited after index `from` leaves `root` at one of
    /// its branches from `lo` on.
    pub open spec fn leaves_root(self, from: int, root: Seq<bool>, lo: int) -> bool {
        forall|k: int| from < k < self.visited_paths().len() ==> leaves_from(#[trigger] self.visited_paths()[k].0, root, lo)
    }

    /// Whether `w` is a prefix of a path visited at index `n0` or later, or
    /// is a path recorded as unreached at index `u0` or later.
    pub open spec fn covered(self, n0: int, u0: int, w: Seq<bool>) -> bool {
        ||| exists|q: int| n0 <= q < self.visited_paths().len()
            && w.len() <= (#[trigger] self.visited_paths()[q]).0.len()
            && self.visited_paths()[q].0.take(w.len() as int) == w
        ||| exists|u: int| u0 <= u < self.unreached_paths().len() && #[trigger] self.unreached_paths()[u] == w
    }

    /// Whether the other direction of every branch of `p` from `m` on is
    /// covered.
    pub open spec fn alternatives_covered(self, n0: int, u0: int, p: Seq<bool>, m: int) -> bool {
        forall|j: int| m <= j < p.len() ==> self.covered(n0, u0, #[trigger] flipped_at(p, j))
    }

    /// Whether every path visited at index `n0` or later has the other
    /// direction of each of its branches from `m` on visited or recorded
    /// as unreached.
    pub open spec fn explored_all(self, n0: int, u0: int, m: int) -> bool {
        forall|k: int| n0 <= k < self.visited_paths().len()
            ==> self.alternatives_covered(n0, u0, (#[trigger] self.visited_paths()[k]).0, m)
    }

    /// Whether the other direction of every branch of `p` from `m` on is
    /// covered, or comes before branch `i` and is that of `root`.
    spec fn covered_or_pending(self, n0: int, u0: int, p: Seq<bool>, m: int, root: Seq<bool>, i: int) -> bool {
        forall|j: int| m <= j < p.len() ==> self.covered(n0, u0, #[trigger] flipped_at(p, j))
            || (j < i && flipped_at(p, j) == flipped_at(root, j))
    }

    /// Whether every path visited at index `n0` or later is
    /// `covered_or_pending`.
    spec fn explored_upto(self, n0: int, u0: int, root: Seq<bool>, m: int, i: int) -> bool {
        forall|k: int| n0 <= k < self.visited_paths().len()
            ==> self.covered_or_pending(n0, u0, (#[trigger] self.visited_paths()[k]).0, m, root, i)
    }

    /// An explorer that runs at most `max_iterations` paths.
    pub fn new(solver: Solver, max_iterations: usize) -> (r: Explorer)
        ensures
            r.solver_attempts() == solver.attempts(),
            r.iteration_count() == 0,
            r.limit() == max_iterations,
            r.visited_paths().len() == 0,
            r.unreached_paths().len() == 0,
    {
        Explorer { solver, visited: Vec::new(), unreached: Vec::new(), max_iterations, iterations: 0 }
    }

    /// Looks for an input on which the statements fail, starting from
    /// `initial_env` and exploring other paths depth first.
    ///
    /// A counterexample is checked by running the statements on it: they
    /// fail on it. When that run stops on an assertion, the failure returned
    /// is that one; when it stops on an undefined variable for an input
    /// found to violate an assertion that passed, the failure of that
    /// assertion is returned.
    ///
    /// When no variable name of the statements contains `@`, no path is run
    /// twice in one exploration: each input the solver finds for the other
    /// direction of a branch takes the run's directions before that branch
    /// and the other one at it. On `Verified`, the other direction of every
    /// branch of every path run was then either run (as the start of a path)
    /// or recorded as unreached.
    ///
    /// On `Verified`, every assertion that passed on a path run was also
    /// submitted to the solver with that path's constraints, and answered
    /// by an error or by an input on which the statements do not fail.
    pub fn find_counterexample(&mut self, stmts: &Stmts, initial_env: Env) -> (r: ExploreResult)
        requires
            !(run_from(stmts@, initial_env@).1 is Overflow),
        ensures
            final(self).extends(*old(self), stmts@),
            match r {
                ExploreResult::Counterexample { env, failure } => run_from(stmts@, env@).1 is Failed
                    && (run_from(stmts@, env@).1 == RunResult::Failed(failure@) || asserted_failure(stmts@, failure@))
                    && (run_from(stmts@, env@).1 matches RunResult::Failed(OracleFailureModel::AssertionFailed(_))
                        ==> run_from(stmts@, env@).1 == RunResult::Failed(failure@))
                    && (env@ == initial_env@ || final(self).found_input(old(self).visited_paths().len() as int, stmts@, env@)),
                ExploreResult::MaxIterationsReached => final(self).iteration_count() >= final(self).limit(),
                ExploreResult::Verified => final(self).searched(old(self).visited_paths().len() as int, stmts@)
                    && (plain_stmts(stmts@) ==> final(self).explored_all(
                        old(self).visited_paths().len() as int,
                        old(self).unreached_paths().len() as int,
                        0,
                    )),
            },
            old(self).iteration_count() >= old(self).limit() ==> r is MaxIterationsReached
                && final(self).iteration_count() == old(self).iteration_count()
                && final(self).visited_paths() == old(self).visited_paths()
                && final(self).unreached_paths() == old(self).unreached_paths(),
            old(self).iteration_count() < old(self).limit() ==> match run_from(stmts@, initial_env@).1 {
                RunResult::Failed(f) => r matches ExploreResult::Counterexample { env, failure }
                    && env@ == initial_env@ && failure@ == f
                    && final(self).iteration_count() == old(self).iteration_count() + 1
                    && final(self).visited_paths() == old(self).visited_paths()
                    && final(self).unreached_paths() == old(self).unreached_paths(),
                _ => final(self).visited_paths()[old(self).visited_paths().len() as int]
                    == (directions(run_from(stmts@, initial_env@).0.path_constraints), initial_env@),
            },
            plain_stmts(stmts@) ==> final(self).paths_distinct(old(self).visited_paths().len() as int),
            final(self).iteration_count() - old(self).iteration_count()
                <= (final(self).visited_paths().len() - old(self).visited_paths().len())
                + (final(self).unreached_paths().len() - old(self).unreached_paths().len())
                + (if r is Counterexample { 1int } else { 0int }),
            old(self).iteration_count() <= old(self).limit() && r is MaxIterationsReached
                ==> final(self).iteration_count() == final(self).limit(),
            old(self).iteration_count() < old(self).limit() && run_from(stmts@, initial_env@).1 is Done
                && run_from(stmts@, initial_env@).0.path_constraints.len() == 0
                && run_from(stmts@, initial_env@).0.passed_asserts.len() == 0 ==> r is Verified,
    {
        match self.explore_dfs(stmts, initial_env, 0) {
            Some(r) => r,
            None => {
                assert(false);
                ExploreResult::Verified
            },
        }
    }

    /// Runs the statements from `env`, then explores the alternatives of the
    /// branches from `min_index` on, last branch first. `None` when the run
    /// overflows, so that the input cannot be used.
    fn explore_dfs(&mut self, stmts: &Stmts, env: Env, min_index: usize) -> (r: Option<ExploreResult>)
        ensures
            final(self).extends(*old(self), stmts@),
            match r {
                Some(ExploreResult::Counterexample { env, failure }) => run_from(stmts@, env@).1 is Failed
                    && (run_from(stmts@, env@).1 == RunResult::Failed(failure@) || asserted_failure(stmts@, failure@))
                    && (run_from(stmts@, env@).1 matches RunResult::Failed(OracleFailureModel::AssertionFailed(_))
                        ==> run_from(stmts@, env@).1 == RunResult::Failed(failure@)),
                Some(ExploreResult::MaxIterationsReached) => final(self).iteration_count() >= final(self).limit(),
                Some(ExploreResult::Verified) => true,
                None => run_from(stmts@, env@).1 is Overflow,
            },
            old(self).iteration_count() >= old(self).limit() ==> r == Some(ExploreResult::MaxIterationsReached)
                && final(self).iteration_count() == old(self).iteration_count()
                && final(self).visited_paths() == old(self).visited_paths()
                && final(self).unreached_paths() == old(self).unreached_paths(),
            old(self).iteration_count() < old(self).limit() ==> match run_from(stmts@, env@).1 {
                RunResult::Failed(f) => r matches Some(ExploreResult::Counterexample { env: e, failure })
                    && e@ == env@ && failure@ == f
                    && final(self).iteration_count() == old(self).iteration_count() + 1
                    && final(self).visited_paths() == old(self).visited_paths()
                    && final(self).unreached_paths() == old(self).unreached_paths(),
                RunResult::Done => final(self).visited_paths()[old(self).visited_paths().len() as int]
                    == (directions(run_from(stmts@, env@).0.path_constraints), env@),
                RunResult::Overflow => r is None,
            },
            r == Some(ExploreResult::Verified) ==> final(self).searched(old(self).visited_paths().len() as int, stmts@),
            forall|k: int| old(self).unreached_paths().len() <= k < final(self).unreached_paths().len()
                ==> final(self).flips_from(#[trigger] final(self).unreached_paths()[k], old(self).visited_paths().len() as int, min_index as int),
            r matches Some(ExploreResult::Counterexample { env: e, .. })
                ==> e@ == env@ || final(self).found_input(old(self).visited_paths().len() as int, stmts@, e@),
            final(self).iteration_count() - old(self).iteration_count()
                <= (final(self).visited_paths().len() - old(self).visited_paths().len())
                + (final(self).unreached_paths().len() - old(self).unreached_paths().len())
                + (if r is None || r matches Some(ExploreResult::Counterexample { .. }) { 1int } else { 0int }),
            old(self).iteration_count() < old(self).limit() && run_from(stmts@, env@).1 is Done
                && run_from(stmts@, env@).0.path_constraints.len() == 0
                && run_from(stmts@, env@).0.passed_asserts.len() == 0 ==> r == Some(ExploreResult::Verified),
            old(self).visited_paths().len() < final(self).visited_paths().len()
                ==> run_from(stmts@, env@).1 is Done && old(self).iteration_count() < old(self).limit(),
            plain_stmts(stmts@) && old(self).visited_paths().len() < final(self).visited_paths().len()
                && min_index <= final(self).visited_paths()[old(self).visited_paths().len() as int].0.len()
                ==> final(self).share_prefix(
                    old(self).visited_paths().len() as int,
                    final(self).visited_paths()[old(self).visited_paths().len() as int].0,
                    min_index as int,
                ),
            plain_stmts(stmts@) ==> final(self).paths_distinct(old(self).visited_paths().len() as int),
            r == Some(ExploreResult::Verified) ==> old(self).visited_paths().len() < final(self).visited_paths().len(),
            plain_stmts(stmts@) && r == Some(ExploreResult::Verified) ==> final(self).explored_all(
                old(self).visited_paths().len() as int,
                old(self).unreached_paths().len() as int,
                min_index as int,
            ),
        decreases old(self).limit() - old(self).iteration_count(),
    {
        if self.iterations >= self.max_iterations {
            return Some(ExploreResult::MaxIterationsReached);
        }
        self.iterations = self.iterations + 1;
        let ghost env0 = env@;
        let trace = match run_checked(stmts, env.duplicate()) {
            Some(t) => t,
            None => {
                return None;
            },
        };
        let path = directions_of(&trace.path_constraints);
        match &trace.result {
            Err(failure) => {
                return Some(ExploreResult::Counterexample { env, failure: failure.duplicate() });
            },
            Ok(()) => {},
        }
        let ghost v0 = self.visited_paths();
        let ghost n0_start = v0.len() as int;
        self.visited.push((copy_path(&path), env.duplicate()));
        assert(self.visited_paths() =~= v0.push((path@, env0)));
        // Look for an input on this path that violates one of its
        // assertions.
        proof {
            reveal(run_from);
            lemma_passed_count(initial(env0), stmts@);
        }
        match violate_assertions(&mut self.solver, stmts, &trace) {
            Some((candidate, failure)) => {
                proof {
                    let st = run_from(stmts@, env0).0;
                    let a = choose|a: int| 0 <= a < trace.passed_asserts@.len()
                        && answers_assertion(
                            constraints_view(trace.path_constraints@),
                            lets_view(trace.let_constraints@),
                            (#[trigger] trace.passed_asserts@[a])@,
                            old(self).solver_attempts(),
                            candidate@,
                        );
                    assert(trace.passed_asserts@[a]@ == st.passed_asserts[a]);
                    assert(self.visited_paths()[n0_start].1 == env0);
                    assert(assertion_answer(stmts@, env0, a, self.solver_attempts(), candidate@));
                    assert(self.found_for(n0_start, stmts@, candidate@));
                }
                return Some(ExploreResult::Counterexample { env: candidate, failure });
            },
            None => {},
        }
        proof {
            let st = run_from(stmts@, env0).0;
            assert forall|a: int| 0 <= a < st.passed_asserts.len() implies query_cleared(
                stmts@, st.path_constraints, st.let_constraints, #[trigger] st.passed_asserts[a], self.solver_attempts()) by {
                assert(trace.passed_asserts@[a]@ == st.passed_asserts[a]);
            }
            assert(run_cleared(stmts@, env0, self.solver_attempts()));
            assert forall|k: int| n0_start <= k < self.visited_paths().len()
                implies run_cleared(stmts@, (#[trigger] self.visited_paths()[k]).1, self.solver_attempts()) by {
                assert(k == n0_start);
            }
        }
        // Explore the alternatives of the branches, last branch first.
        let ghost n0 = old(self).visited_paths().len() as int;
        let ghost u0 = old(self).unreached_paths().len() as int;
        let _ = stmts.0.len();
        assert(self.explored_upto(n0, u0, path@, min_index as int, path@.len() as int)) by {
            assert forall|k: int| n0 <= k < self.visited_paths().len()
                implies self.covered_or_pending(n0, u0, (#[trigger] self.visited_paths()[k]).0, min_index as int, path@, path@.len() as int) by {
                assert(k == n0);
            }
        }
        let mut i: usize = trace.path_constraints.len();
        while i > min_index
            invariant
                i <= trace.path_constraints@.len(),
                path@ == directions(constraints_view(trace.path_constraints@)),
                n0 == old(self).visited_paths().len(),
                u0 == old(self).unreached_paths().len(),
                stmts@.len() <= usize::MAX,
                self.searched(n0, stmts@),
                forall|k: int| u0 <= k < self.unreached_paths().len()
                    ==> self.flips_from(#[trigger] self.unreached_paths()[k], n0, min_index as int),
                self.iteration_count() - old(self).iteration_count()
                    <= (self.visited_paths().len() - old(self).visited_paths().len())
                    + (self.unreached_paths().len() - old(self).unreached_paths().len()),
                constraints_view(trace.path_constraints@) == run_from(stmts@, env0).0.path_constraints,
                lets_view(trace.let_constraints@) == run_from(stmts@, env0).0.let_constraints,
                plain_stmts(stmts@) ==> {
                    &&& (min_index <= path@.len() ==> self.share_prefix(n0, path@, min_index as int))
                    &&& self.paths_distinct(n0)
                    &&& self.leaves_root(n0, path@, i as int)
                    &&& self.explored_upto(n0, u0, path@, min_index as int, i as int)
                },
                old(self).iteration_count() < old(self).limit(),
                run_from(stmts@, env0).1 is Done,
                path@ == directions(run_from(stmts@, env0).0.path_constraints),
                self.extends(*old(self), stmts@),
                self.iteration_count() > old(self).iteration_count(),
                self.visited_paths().len() > old(self).visited_paths().len(),
                env@ == env0,
                self.visited_paths()[old(self).visited_paths().len() as int] == (path@, env0),
            decreases i,
        {
            i = i - 1;
            let ghost pre = *self;
            let answer = self.solver.find_alternative(&trace, i);
            let ghost given = answer;
            let alternative = match answer {
                Ok(new_env) => {
                    let ghost before = *self;
                    let ghost ce = new_env@;
                    proof {
                        if plain_stmts(stmts@) {
                            lemma_solver_answer_holds(stmts@, env0, i as int, ce);
                        }
                    }
                    let result = self.explore_dfs(stmts, new_env, i + 1);
                    proof {
                        lemma_extends_trans(*self, before, *old(self), stmts@);
                        assert(self.visited_paths()[n0] == before.visited_paths()[n0]);
                        assert forall|k: int| u0 <= k < self.unreached_paths().len()
                            implies self.flips_from(#[trigger] self.unreached_paths()[k], n0, min_index as int) by {
                            if k < before.unreached_paths().len() {
                                assert(self.unreached_paths()[k] == before.unreached_paths()[k]);
                                let (j, t) = choose|j: int, t: int|
                                    n0 <= j < before.visited_paths().len() && min_index <= t < before.visited_paths()[j].0.len()
                                        && before.unreached_paths()[k] == #[trigger] flipped_at(before.visited_paths()[j].0, t);
                                assert(self.visited_paths()[j] == before.visited_paths()[j]);
                                assert(self.unreached_paths()[k] == flipped_at(self.visited_paths()[j].0, t));
                            } else {
                                assert(self.flips_from(self.unreached_paths()[k], before.visited_paths().len() as int, i + 1));
                                let (j, t) = choose|j: int, t: int|
                                    before.visited_paths().len() <= j < self.visited_paths().len() && i + 1 <= t < self.visited_paths()[j].0.len()
                                        && self.unreached_paths()[k] == #[trigger] flipped_at(self.visited_paths()[j].0, t);
                                assert(self.unreached_paths()[k] == flipped_at(self.visited_paths()[j].0, t));
                            }
                        }
                        if plain_stmts(stmts@) {
                            let nb = before.visited_paths().len() as int;
                            if nb < self.visited_paths().len() {
                                lemma_child_leaves(stmts@, env0, ce, i as int);
                            }
                            lemma_after_child(before, *self, n0, path@, i as int, min_index as int);
                        }
                    }
                    let ghost res = result;
                    match result {
                        Some(ExploreResult::Verified) => {
                            proof {
                                let nb = before.visited_paths().len() as int;
                                assert forall|k: int| n0 <= k < self.visited_paths().len()
                                    implies run_cleared(stmts@, (#[trigger] self.visited_paths()[k]).1, self.solver_attempts()) by {
                                    if k < nb {
                                        assert(self.visited_paths()[k] == before.visited_paths()[k]);
                                    }
                                }
                                if plain_stmts(stmts@) {
                                    assert(keeps_records(before, *self));
                                    lemma_cover_child(before, *self, n0, u0, path@, min_index as int, i as int);
                                }
                            }
                            true
                        },
                        Some(r) => {
                            proof {
                                if let Some(ExploreResult::Counterexample { env: e, .. }) = res {
                                    if e@ == ce {
                                        let st = run_from(stmts@, env0).0;
                                        assert(solve_outcome(
                                            subst_constraints(negated(st.path_constraints, i as int), st.let_constraints),
                                            st.let_constraints,
                                            self.solver_attempts(),
                                            given,
                                        ));
                                        assert(alternative_answer(stmts@, env0, i as int, self.solver_attempts(), e@));
                                        assert(self.visited_paths()[n0].1 == env0);
                                        assert(self.found_for(n0, stmts@, e@));
                                    } else {
                                        let j = choose|j: int| before.visited_paths().len() <= j < self.visited_paths().len()
                                            && #[trigger] self.found_for(j, stmts@, e@);
                                        assert(self.found_for(j, stmts@, e@));
                                    }
                                }
                            }
                            return Some(r);
                        },
                        None => {
                            assert(self.visited_paths().len() == pre.visited_paths().len());
                            assert(keeps_records(pre, *self));
                            assert(self.visited_paths() =~= pre.visited_paths());
                            false
                        },
                    }
                },
                Err(_) => {
                    proof {
                        if plain_stmts(stmts@) {
                            lemma_leaves_lower(*self, n0, path@, i as int);
                        }
                    }
                    assert(keeps_records(pre, *self));
                    false
                },
            };
            if !alternative {
                assert(path@.len() == trace.path_constraints@.len());
                let ghost ur = self.unreached_paths();
                let ghost before = *self;
                let alt = flip_at(&path, i);
                self.unreached.push(alt);
                assert(self.unreached_paths() =~= ur.push(flipped_at(path@, i as int)));
                proof {
                    assert(self.visited_paths() == before.visited_paths());
                    assert(self.visited_paths()[n0].0 == path@);
                    assert(alternative_cleared(stmts@, env0, i as int, self.solver_attempts())) by {
                        let st = run_from(stmts@, env0).0;
                        assert(solve_outcome(
                            subst_constraints(negated(st.path_constraints, i as int), st.let_constraints),
                            st.let_constraints,
                            self.solver_attempts(),
                            given,
                        ));
                    }
                    assert(self.flips_visited(flipped_at(path@, i as int), n0, stmts@));
                    assert forall|k: int| u0 <= k < self.unreached_paths().len()
                        implies self.flips_from(#[trigger] self.unreached_paths()[k], n0, min_index as int) by {
                        if k < ur.len() {
                            assert(self.unreached_paths()[k] == ur[k]);
                            assert(before.flips_from(ur[k], n0, min_index as int));
                            let (j, t) = choose|j: int, t: int|
                                n0 <= j < before.visited_paths().len() && min_index <= t < before.visited_paths()[j].0.len()
                                    && ur[k] == #[trigger] flipped_at(before.visited_paths()[j].0, t);
                            assert(self.unreached_paths()[k] == flipped_at(self.visited_paths()[j].0, t));
                        } else {
                            assert(self.unreached_paths()[k] == flipped_at(self.visited_paths()[n0].0, i as int));
                        }
                    }
                    assert forall|k: int| old(self).unreached_paths().len() <= k < self.unreached_paths().len()
                        implies self.flips_visited(#[trigger] self.unreached_paths()[k], n0, stmts@) by {
                        if k < ur.len() {
                            assert(self.unreached_paths()[k] == ur[k]);
                            assert(before.flips_visited(ur[k], n0, stmts@));
                            let (j, i) = choose|j: int, i: int|
                                n0 <= j < before.visited_paths().len() && 0 <= i < before.visited_paths()[j].0.len()
                                    && ur[k] == #[trigger] flipped_at(before.visited_paths()[j].0, i)
                                    && alternative_cleared(stmts@, before.visited_paths()[j].1, i, before.solver_attempts());
                            assert(self.unreached_paths()[k] == flipped_at(self.visited_paths()[j].0, i));
                        }
                    }
                    if plain_stmts(stmts@) {
                        assert(keeps_records(pre, *self));
                        assert(self.unreached_paths()[ur.len() as int] == flipped_at(path@, i as int));
                        lemma_cover_unreached(pre, *self, n0, u0, path@, min_index as int, i as int);
                    }
                }
            }
        }
        proof {
            if plain_stmts(stmts@) {
                lemma_explored_all(*self, n0, u0, path@, min_index as int, i as int);
            }
        }
        Some(ExploreResult::Verified)
    }

    /// Number of paths run so far.
    pub fn iterations(&self) -> (r: usize)
        ensures
            r == self.iteration_count(),
    {
        self.iterations
    }

    /// Number of paths run with concrete inputs.
    pub fn paths_visited(&self) -> (r: usize)
        ensures
            r == self.visited_paths().len(),
    {
        self.visited.len()
    }

    /// Number of paths for which no input was found.
    pub fn paths_unreached(&self) -> (r: usize)
        ensures
            r == self.unreached_paths().len(),
    {
        self.unreached.len()
    }
}

/// The number of `assert` statements among `stmts`.
pub open spec fn assert_count(stmts: Seq<StmtModel>) -> nat
    decreases stmts.len(),
{
    if stmts.len() == 0 {
        0
    } else {
        (if stmts[0] is Assert { 1nat } else { 0nat }) + assert_count(stmts.drop_first())
    }
}

/// Whether `f` is the failure of one of the `assert` statements of `stmts`.
pub open spec fn asserted_failure(stmts: Seq<StmtModel>, f: OracleFailureModel) -> bool {
    &&& f is AssertionFailed
    &&& exists|j: int| 0 <= j < stmts.len() && #[trigger] stmts[j] == StmtModel::Assert(f->AssertionFailed_0)
}

/// A run that completes passes one assertion per `assert` statement.
proof fn lemma_passed_count(st: StateModel, stmts: Seq<StmtModel>)
    requires
        run(st, stmts).1 is Done,
    ensures
        run(st, stmts).0.passed_asserts.len() == st.passed_asserts.len() + assert_count(stmts),
    decreases stmts.len(),
{
    if stmts.len() > 0 {
        lemma_passed_count(step(st, stmts[0]).0, stmts.drop_first());
    }
}

/// Looks, with the solver, for an input that follows the path of a
/// completed run and violates one of the assertions that passed on it.
///
/// The `assert` statements are taken in order, each with the form it passed
/// in, and submitted with one call of `Solver::find_counterexample`; an
/// input on which the statements fail is reported with the failure of that
/// assertion. When nothing is found, every assertion was submitted and
/// answered without an input on which the statements fail.
fn violate_assertions(solver: &mut Solver, stmts: &Stmts, trace: &ExecutionTrace) -> (r: Option<(Env, OracleFailure)>)
    requires
        trace.passed_asserts@.len() == assert_count(stmts@),
    ensures
        r matches Some((env, failure)) ==> run_from(stmts@, env@).1 is Failed && asserted_failure(stmts@, failure@),
        r matches Some((env, failure)) ==> (run_from(stmts@, env@).1 matches RunResult::Failed(OracleFailureModel::AssertionFailed(_))
            ==> run_from(stmts@, env@).1 == RunResult::Failed(failure@)),
        r is Some ==> trace.passed_asserts@.len() > 0,
        r matches Some((env, failure)) ==> exists|a: int| 0 <= a < trace.passed_asserts@.len()
            && answers_assertion(
                constraints_view(trace.path_constraints@),
                lets_view(trace.let_constraints@),
                (#[trigger] trace.passed_asserts@[a])@,
                old(solver).attempts(),
                env@,
            ),
        r is None ==> forall|a: int| 0 <= a < trace.passed_asserts@.len() ==> query_cleared(
            stmts@,
            constraints_view(trace.path_constraints@),
            lets_view(trace.let_constraints@),
            (#[trigger] trace.passed_asserts@[a])@,
            old(solver).attempts(),
        ),
        final(solver).attempts() == old(solver).attempts(),
{
    let mut k: usize = 0;
    let mut j: usize = 0;
    let passed: usize = trace.passed_asserts.len();
    assert(stmts@.skip(0) =~= stmts@);
    while j < stmts.0.len()
        invariant
            j <= stmts@.len(),
            passed == trace.passed_asserts@.len(),
            k + assert_count(stmts@.skip(j as int)) == assert_count(stmts@),
            trace.passed_asserts@.len() == assert_count(stmts@),
            solver.attempts() == old(solver).attempts(),
            forall|a: int| 0 <= a < k ==> query_cleared(
                stmts@,
                constraints_view(trace.path_constraints@),
                lets_view(trace.let_constraints@),
                (#[trigger] trace.passed_asserts@[a])@,
                old(solver).attempts(),
            ),
        decreases stmts@.len() - j,
    {
        assert(stmts@.skip(j as int).drop_first() =~= stmts@.skip(j + 1));
        assert(stmts@.skip(j as int)[0] == stmts@[j as int]);
        match &stmts.0[j] {
            Stmt::Assert { expr } => {
                assert(assert_count(stmts@.skip(j as int)) == 1 + assert_count(stmts@.skip(j + 1)));
                assert(k < passed);
                let answer = solver.find_counterexample(trace, &trace.passed_asserts[k]);
                let ghost given = answer;
                match failing_candidate(stmts, answer) {
                    Some((candidate, stopped)) => {
                        proof {
                            let pcs = constraints_view(trace.path_constraints@);
                            let lets = lets_view(trace.let_constraints@);
                            let c = trace.passed_asserts@[k as int]@;
                            assert(solve_outcome(subst_constraints(pcs.push((c, false)), lets), lets, old(solver).attempts(), given));
                            assert(answers_assertion(pcs, lets, c, old(solver).attempts(), candidate@));
                        }
                        // The failure the run stops on when it is an assertion's;
                        // otherwise that of the assertion the input was found
                        // to violate.
                        let failure = match stopped {
                            OracleFailure::AssertionFailed { expr: failed } => {
                                proof {
                                    reveal(run_from);
                                    lemma_failed_assertion_is_stated(initial(candidate@), stmts@);
                                }
                                OracleFailure::AssertionFailed { expr: failed }
                            },
                            OracleFailure::UndefinedVariable { .. } => {
                                let f = OracleFailure::AssertionFailed { expr: expr.duplicate() };
                                assert(stmts@[j as int] == StmtModel::Assert(f@->AssertionFailed_0));
                                f
                            },
                        };
                        return Some((candidate, failure));
                    },
                    None => {},
                }
                proof {
                    let pcs = constraints_view(trace.path_constraints@);
                    let lets = lets_view(trace.let_constraints@);
                    let c = trace.passed_asserts@[k as int]@;
                    assert(solve_outcome(subst_constraints(pcs.push((c, false)), lets), lets, old(solver).attempts(), given));
                    assert(query_cleared(stmts@, pcs, lets, c, old(solver).attempts()));
                }
                k = k + 1;
            },
            Stmt::Let { .. } => {},
        }
        j = j + 1;
    }
    assert(stmts@.skip(j as int).len() == 0);
    None
}

/// The input of an answer of the solver on which the statements fail,
/// with the failure they stop on; nothing when the solver found no input,
/// or the statements complete or overflow on it.
fn failing_candidate(stmts: &Stmts, answer: Result<Env, SolverError>) -> (r: Option<(Env, OracleFailure)>)
    ensures
        match answer {
            Ok(candidate) => match r {
                Some((env, f)) => env@ == candidate@ && run_from(stmts@, candidate@).1 is Failed
                    && run_from(stmts@, candidate@).1 == RunResult::Failed(f@),
                None => !(run_from(stmts@, candidate@).1 is Failed),
            },
            Err(_) => r is None,
        },
{
    match answer {
        Ok(candidate) => match run_checked(stmts, candidate.duplicate()) {
            Some(t) => match t.result {
                Err(f) => Some((candidate, f)),
                Ok(()) => None,
            },
            None => None,
        },
        Err(_) => None,
    }
}

/// A run that stops on an assertion failure stops on one of the `assert`
/// statements.
proof fn lemma_failed_assertion_is_stated(st: StateModel, stmts: Seq<StmtModel>)
    ensures
        run(st, stmts).1 matches RunResult::Failed(OracleFailureModel::AssertionFailed(c))
            ==> exists|j: int| 0 <= j < stmts.len() && #[trigger] stmts[j] == StmtModel::Assert(c),
    decreases stmts.len(),
{
    if stmts.len() > 0 {
        let (st1, r) = step(st, stmts[0]);
        if r is Done {
            lemma_failed_assertion_is_stated(st1, stmts.drop_first());
            if let RunResult::Failed(OracleFailureModel::AssertionFailed(c)) = run(st, stmts).1 {
                let j = choose|j: int| 0 <= j < stmts.drop_first().len() && #[trigger] stmts.drop_first()[j] == StmtModel::Assert(c);
                assert(stmts[j + 1] == StmtModel::Assert(c));
            }
        } else {
            if let RunResult::Failed(OracleFailureModel::AssertionFailed(c)) = run(st, stmts).1 {
                assert(stmts[0] == StmtModel::Assert(c));
            }
        }
    }
}

proof fn lemma_extends_trans(c: Explorer, b: Explorer, a: Explorer, stmts: Seq<StmtModel>)
    requires
        c.extends(b, stmts),
        b.extends(a, stmts),
    ensures
        c.extends(a, stmts),
{
    let vb = b.visited_paths();
    let vc = c.visited_paths();
    assert forall|k: int| a.visited_paths().len() <= k < vc.len() implies reaches(stmts, (#[trigger] vc[k]).1, vc[k].0) by {
        if k < vb.len() {
            assert(vc[k] == vb[k]);
        }
    }
    let n0 = a.visited_paths().len() as int;
    assert forall|k: int| a.unreached_paths().len() <= k < c.unreached_paths().len()
        implies c.flips_visited(#[trigger] c.unreached_paths()[k], n0, stmts) by {
        if k < b.unreached_paths().len() {
            assert(c.unreached_paths()[k] == b.unreached_paths()[k]);
            assert(b.flips_visited(b.unreached_paths()[k], n0, stmts));
            let (j, i) = choose|j: int, i: int|
                n0 <= j < vb.len() && 0 <= i < vb[j].0.len()
                    && b.unreached_paths()[k] == #[trigger] flipped_at(vb[j].0, i)
                    && alternative_cleared(stmts, vb[j].1, i, b.solver_attempts());
            assert(vc[j] == vb[j]);
            assert(c.unreached_paths()[k] == flipped_at(vc[j].0, i));
        } else {
            assert(c.flips_visited(c.unreached_paths()[k], vb.len() as int, stmts));
            let (j, i) = choose|j: int, i: int|
                vb.len() <= j < vc.len() && 0 <= i < vc[j].0.len()
                    && c.unreached_paths()[k] == #[trigger] flipped_at(vc[j].0, i)
                    && alternative_cleared(stmts, vc[j].1, i, c.solver_attempts());
            assert(c.unreached_paths()[k] == flipped_at(vc[j].0, i));
        }
    }
}

/// Whether `after` keeps the visited and unreached paths of `before` at
/// their indices.
spec fn keeps_records(before: Explorer, after: Explorer) -> bool {
    &&& before.visited_paths().len() <= after.visited_paths().len()
    &&& forall|k: int| 0 <= k < before.visited_paths().len()
        ==> #[trigger] after.visited_paths()[k] == before.visited_paths()[k]
    &&& before.unreached_paths().len() <= after.unreached_paths().len()
    &&& forall|k: int| 0 <= k < before.unreached_paths().len()
        ==> #[trigger] after.unreached_paths()[k] == before.unreached_paths()[k]
}

/// What is covered stays covered as records grow, and is covered from
/// any earlier indices.
proof fn lemma_covered_mono(before: Explorer, after: Explorer, n1: int, u1: int, n0: int, u0: int, w: Seq<bool>)
    requires
        before.covered(n1, u1, w),
        keeps_records(before, after),
        0 <= n0 <= n1,
        0 <= u0 <= u1,
    ensures
        after.covered(n0, u0, w),
{
    if exists|q: int| n1 <= q < before.visited_paths().len()
        && w.len() <= (#[trigger] before.visited_paths()[q]).0.len()
        && before.visited_paths()[q].0.take(w.len() as int) == w {
        let q = choose|q: int| n1 <= q < before.visited_paths().len()
            && w.len() <= (#[trigger] before.visited_paths()[q]).0.len()
            && before.visited_paths()[q].0.take(w.len() as int) == w;
        assert(after.visited_paths()[q] == before.visited_paths()[q]);
    } else {
        let u = choose|u: int| u1 <= u < before.unreached_paths().len() && #[trigger] before.unreached_paths()[u] == w;
        assert(after.unreached_paths()[u] == before.unreached_paths()[u]);
    }
}

/// When the alternative at branch `i` is recorded as unreached and nothing
/// was visited meanwhile, the pending alternatives at branch `i` are
/// covered.
proof fn lemma_cover_unreached(before: Explorer, after: Explorer, n0: int, u0: int, root: Seq<bool>, m: int, i: int)
    requires
        keeps_records(before, after),
        after.visited_paths().len() == before.visited_paths().len(),
        0 <= n0,
        0 <= u0 <= before.unreached_paths().len(),
        0 <= i,
        before.explored_upto(n0, u0, root, m, i + 1),
        exists|u: int| u0 <= u < after.unreached_paths().len() && #[trigger] after.unreached_paths()[u] == flipped_at(root, i),
    ensures
        after.explored_upto(n0, u0, root, m, i),
{
    assert(after.covered(n0, u0, flipped_at(root, i)));
    assert forall|k: int| n0 <= k < after.visited_paths().len()
        implies after.covered_or_pending(n0, u0, (#[trigger] after.visited_paths()[k]).0, m, root, i) by {
        let p = after.visited_paths()[k].0;
        assert(after.visited_paths()[k] == before.visited_paths()[k]);
        assert(before.covered_or_pending(n0, u0, p, m, root, i + 1));
        assert forall|j: int| m <= j < p.len() implies after.covered(n0, u0, #[trigger] flipped_at(p, j))
            || (j < i && flipped_at(p, j) == flipped_at(root, j)) by {
            if before.covered(n0, u0, flipped_at(p, j)) {
                lemma_covered_mono(before, after, n0, u0, n0, u0, flipped_at(p, j));
            }
        }
    }
}

/// After the subtree of the alternative at branch `i` was explored to the
/// end, the pending alternatives at branch `i` are covered, and so are
/// those of the subtree from its root on.
proof fn lemma_cover_child(before: Explorer, after: Explorer, n0: int, u0: int, root: Seq<bool>, m: int, i: int)
    requires
        keeps_records(before, after),
        0 <= n0 < before.visited_paths().len() < after.visited_paths().len(),
        0 <= u0 <= before.unreached_paths().len(),
        before.visited_paths()[n0].0 == root,
        0 <= m <= i < root.len(),
        before.explored_upto(n0, u0, root, m, i + 1),
        ({
            let nb = before.visited_paths().len() as int;
            let c = after.visited_paths()[nb].0;
            &&& differs_at(c, root, i)
            &&& after.share_prefix(nb, c, i + 1)
            &&& after.explored_all(nb, before.unreached_paths().len() as int, i + 1)
        }),
    ensures
        after.explored_upto(n0, u0, root, m, i),
{
    let nb = before.visited_paths().len() as int;
    let ub = before.unreached_paths().len() as int;
    let va = after.visited_paths();
    let c = va[nb].0;
    let w = flipped_at(root, i);
    assert(c.take(i + 1) =~= w) by {
        assert(c.take(i) == root.take(i));
        assert forall|t: int| 0 <= t < i implies c.take(i + 1)[t] == w[t] by {
            assert(c.take(i)[t] == root.take(i)[t]);
        }
    }
    assert(after.covered(n0, u0, w)) by {
        assert(w.len() <= va[nb].0.len() && va[nb].0.take(w.len() as int) == w);
    }
    assert forall|k: int| n0 <= k < va.len()
        implies after.covered_or_pending(n0, u0, (#[trigger] va[k]).0, m, root, i) by {
        let p = va[k].0;
        if k < nb {
            assert(va[k] == before.visited_paths()[k]);
            assert(before.covered_or_pending(n0, u0, p, m, root, i + 1));
            assert forall|j: int| m <= j < p.len() implies after.covered(n0, u0, #[trigger] flipped_at(p, j))
                || (j < i && flipped_at(p, j) == flipped_at(root, j)) by {
                if before.covered(n0, u0, flipped_at(p, j)) {
                    lemma_covered_mono(before, after, n0, u0, n0, u0, flipped_at(p, j));
                }
            }
        } else {
            assert(i + 1 <= p.len() && p.take(i + 1) == c.take(i + 1));
            assert(after.alternatives_covered(nb, ub, p, i + 1));
            assert forall|j: int| m <= j < p.len() implies after.covered(n0, u0, #[trigger] flipped_at(p, j))
                || (j < i && flipped_at(p, j) == flipped_at(root, j)) by {
                if j > i {
                    assert(after.covered(nb, ub, flipped_at(p, j)));
                    lemma_covered_mono(after, after, nb, ub, n0, u0, flipped_at(p, j));
                } else if j == i {
                    assert(flipped_at(p, i) =~= root.take(i + 1)) by {
                        assert(p.take(i + 1)[i] == c.take(i + 1)[i]);
                        assert forall|t: int| 0 <= t < i implies flipped_at(p, i)[t] == root.take(i + 1)[t] by {
                            assert(p.take(i + 1)[t] == c.take(i + 1)[t]);
                            assert(c.take(i)[t] == root.take(i)[t]);
                        }
                    }
                    assert(root.take(i + 1).len() <= va[n0].0.len() && va[n0].0.take(i + 1) == root.take(i + 1)) by {
                        assert(va[n0] == before.visited_paths()[n0]);
                    }
                    assert(after.covered(n0, u0, flipped_at(p, j)));
                } else {
                    assert(flipped_at(p, j) =~= flipped_at(root, j)) by {
                        assert(p.take(i + 1)[j] == c.take(i + 1)[j]);
                        assert(c.take(i)[j] == root.take(i)[j]);
                        assert forall|t: int| 0 <= t < j implies p[t] == root[t] by {
                            assert(p.take(i + 1)[t] == c.take(i + 1)[t]);
                            assert(c.take(i)[t] == root.take(i)[t]);
                        }
                    }
                }
            }
        }
    }
}

/// Once every pending alternative lies before the lowest branch explored,
/// everything is covered.
proof fn lemma_explored_all(e: Explorer, n0: int, u0: int, root: Seq<bool>, m: int, i: int)
    requires
        e.explored_upto(n0, u0, root, m, i),
        i <= m,
    ensures
        e.explored_all(n0, u0, m),
{
    assert forall|k: int| n0 <= k < e.visited_paths().len()
        implies e.alternatives_covered(n0, u0, (#[trigger] e.visited_paths()[k]).0, m) by {
        assert(e.covered_or_pending(n0, u0, e.visited_paths()[k].0, m, root, i));
    }
}

/// Leaving the root from branch `lo + 1` on is leaving it from `lo` on.
proof fn lemma_leaves_lower(e: Explorer, n0: int, root: Seq<bool>, lo: int)
    requires
        e.leaves_root(n0, root, lo + 1),
    ensures
        e.leaves_root(n0, root, lo),
{
    assert forall|k: int| n0 < k < e.visited_paths().len() implies leaves_from(#[trigger] e.visited_paths()[k].0, root, lo) by {
        let j = choose|j: int| lo + 1 <= j && #[trigger] differs_at(e.visited_paths()[k].0, root, j);
        assert(lo <= j && differs_at(e.visited_paths()[k].0, root, j));
    }
}

/// For statements that read only names without `@`, an answer of the
/// solver for the alternative at branch `i` of a completed run satisfies
/// the constraints it was asked for.
proof fn lemma_solver_answer_holds(stmts: Seq<StmtModel>, env0: Map<Seq<char>, i64>, i: int, ce: Map<Seq<char>, i64>)
    requires
        plain_stmts(stmts),
        0 <= i < run_from(stmts, env0).0.path_constraints.len(),
        is_solution(
            subst_constraints(negated(run_from(stmts, env0).0.path_constraints, i), run_from(stmts, env0).0.let_constraints),
            run_from(stmts, env0).0.let_constraints,
            ce,
        ),
    ensures
        nonlit_hold(
            subst_constraints(negated(run_from(stmts, env0).0.path_constraints, i), run_from(stmts, env0).0.let_constraints),
            ce,
        ),
{
    reveal(run_from);
    lemma_bound_names_plain(env0, stmts, i);
    lemma_solution_satisfies(
        subst_constraints(negated(run_from(stmts, env0).0.path_constraints, i), run_from(stmts, env0).0.let_constraints),
        run_from(stmts, env0).0.let_constraints,
        ce,
    );
}

/// A completed run from an input that satisfies the constraints asked for
/// the alternative at branch `i` leaves the parent's path at branch `i`.
proof fn lemma_child_leaves(stmts: Seq<StmtModel>, env0: Map<Seq<char>, i64>, ce: Map<Seq<char>, i64>, i: int)
    requires
        stmts.len() <= usize::MAX,
        run_from(stmts, env0).1 is Done,
        run_from(stmts, ce).1 is Done,
        0 <= i < run_from(stmts, env0).0.path_constraints.len(),
        nonlit_hold(
            subst_constraints(negated(run_from(stmts, env0).0.path_constraints, i), run_from(stmts, env0).0.let_constraints),
            ce,
        ),
    ensures
        differs_at(
            directions(run_from(stmts, ce).0.path_constraints),
            directions(run_from(stmts, env0).0.path_constraints),
            i,
        ),
{
    reveal(run_from);
    lemma_alternative_followed(env0, ce, stmts, i);
    let p = run_from(stmts, env0).0.path_constraints;
    let c = run_from(stmts, ce).0.path_constraints;
    assert(directions(c).take(i) =~= directions(p).take(i)) by {
        assert forall|k: int| 0 <= k < i implies directions(c).take(i)[k] == directions(p).take(i)[k] by {
            assert(c[k].1 == p[k].1);
        }
    }
}

/// After the subtree of the alternative at branch `i` has been explored,
/// the paths visited since the root still share its first `m` directions,
/// stay pairwise different, and each leaves the root at a branch from `i`
/// on.
proof fn lemma_after_child(before: Explorer, after: Explorer, n0: int, root: Seq<bool>, i: int, m: int)
    requires
        0 <= n0 < before.visited_paths().len() <= after.visited_paths().len(),
        forall|k: int| 0 <= k < before.visited_paths().len()
            ==> #[trigger] after.visited_paths()[k] == before.visited_paths()[k],
        before.visited_paths()[n0].0 == root,
        0 <= m <= i < root.len(),
        before.share_prefix(n0, root, m),
        before.paths_distinct(n0),
        before.leaves_root(n0, root, i + 1),
        before.visited_paths().len() < after.visited_paths().len() ==> {
            let c = after.visited_paths()[before.visited_paths().len() as int].0;
            &&& differs_at(c, root, i)
            &&& after.share_prefix(before.visited_paths().len() as int, c, i + 1)
        },
        after.paths_distinct(before.visited_paths().len() as int),
    ensures
        after.share_prefix(n0, root, m),
        after.paths_distinct(n0),
        after.leaves_root(n0, root, i),
{
    let vb = before.visited_paths();
    let va = after.visited_paths();
    let nb = vb.len() as int;
    // Every path of the new subtree leaves the root at branch `i`.
    assert forall|k: int| nb <= k < va.len() implies #[trigger] differs_at(va[k].0, root, i) by {
        let c = va[nb].0;
        let q = va[k].0;
        assert(q.take(i + 1) == c.take(i + 1));
        assert(q.take(i) =~= q.take(i + 1).take(i));
        assert(c.take(i) =~= c.take(i + 1).take(i));
        assert(q[i] == q.take(i + 1)[i]);
        assert(c[i] == c.take(i + 1)[i]);
    }
    assert forall|k: int| n0 <= k < va.len() implies {
        &&& m <= (#[trigger] va[k]).0.len()
        &&& va[k].0.take(m) == root.take(m)
    } by {
        if k < nb {
            assert(va[k] == vb[k]);
        } else {
            assert(differs_at(va[k].0, root, i));
            assert(va[k].0.take(m) =~= va[k].0.take(i).take(m));
            assert(root.take(m) =~= root.take(i).take(m));
        }
    }
    assert forall|k: int| n0 < k < va.len() implies leaves_from(#[trigger] va[k].0, root, i) by {
        if k < nb {
            assert(va[k] == vb[k]);
            assert(vb[k] == before.visited_paths()[k]);
            let j = choose|j: int| i + 1 <= j && #[trigger] differs_at(vb[k].0, root, j);
            assert(i <= j && differs_at(va[k].0, root, j));
        } else {
            assert(i <= i && differs_at(va[k].0, root, i));
        }
    }
    assert(after.leaves_root(n0, root, i));
    assert forall|a: int, b: int| #![trigger va[a], va[b]] n0 <= a < b < va.len() implies va[a].0 != va[b].0 by {
        if b < nb {
            assert(va[a] == vb[a] && va[b] == vb[b]);
        } else if a >= nb {
        } else {
            let q = va[b].0;
            assert(differs_at(q, root, i));
            assert(va[a] == vb[a]);
            if a == n0 {
                assert(q[i] != root[i]);
            } else {
                let j = choose|j: int| i + 1 <= j && #[trigger] differs_at(vb[a].0, root, j);
                let pa = vb[a].0;
                assert(pa[i] == pa.take(j)[i]);
                assert(root[i] == root.take(j)[i]);
                assert(pa[i] == root[i]);
                assert(pa[i] != q[i]);
            }
        }
    }
}

/// The directions taken at the branches of a run.
fn directions_of(cs: &Vec<(crate::node::SymBoolExpr, bool)>) -> (r: Path)
    ensures
        r@ == directions(constraints_view(cs@)),
{
    let ghost d = directions(constraints_view(cs@));
    let mut out: Path = Vec::new();
    let mut i: usize = 0;
    while i < cs.len()
        invariant
            i <= cs@.len(),
            d == directions(constraints_view(cs@)),
            out@ == d.take(i as int),
        decreases cs.len() - i,
    {
        out.push(cs[i].1);
        assert(out@ =~= d.take(i + 1));
        i = i + 1;
    }
    assert(d.take(i as int) =~= d);
    out
}

/// `path` up to branch `i`, then the other direction at branch `i`.
fn flip_at(path: &Path, i: usize) -> (r: Path)
    requires
        i < path@.len(),
    ensures
        r@ == flipped_at(path@, i as int),
{
    let mut out: Path = Vec::new();
    let mut k: usize = 0;
    while k < i
        invariant
            k <= i < path@.len(),
            out@ == path@.take(k as int),
        decreases i - k,
    {
        out.push(path[k]);
        assert(out@ =~= path@.take(k + 1));
        k = k + 1;
    }
    out.push(!path[i]);
    out
}

/// A copy of a path.
fn copy_path(path: &Path) -> (r: Path)
    ensures
        r@ == path@,
{
    let mut out: Path = Vec::new();
    let mut k: usize = 0;
    while k < path.len()
        invariant
            k <= path@.len(),
            out@ == path@.take(k as int),
        decreases path.len() - k,
    {
        out.push(path[k]);
        assert(out@ =~= path@.take(k + 1));
        k = k + 1;
    }
    assert(path@.take(k as int) =~= path@);
    out
}

// ---------------------------------------------------------------------------
// Rendering
// ---------------------------------------------------------------------------

/// A path as a word of `T` and `F`.
pub open spec fn path_word(p: Seq<bool>) -> Seq<char> {
    p.map_values(|b: bool| if b { 'T' } else { 'F' })
}

/// Two lines per visited path: `  Path: ...` and `  Env: ...`.
pub open spec fn reached_text(v: Seq<(Seq<bool>, Map<Seq<char>, i64>)>) -> Seq<char>
    decreases v.len(),
{
    if v.len() == 0 {
        seq![]
    } else {
        reached_text(v.drop_last()) + "  Path: "@ + path_word(v.last().0) + seq!['\n'] + "  Env: "@
            + env_text(v.last().1) + seq!['\n']
    }
}

/// One line per unreached path: `  Path: ...`.
pub open spec fn unreached_text(u: Seq<Seq<bool>>) -> Seq<char>
    decreases u.len(),
{
    if u.len() == 0 {
        seq![]
    } else {
        unreached_text(u.drop_last()) + "  Path: "@ + path_word(u.last()) + seq!['\n']
    }
}

/// The record of an exploration as text: the reached paths with their
/// inputs, then the unreached paths when there are any.
pub open spec fn explorer_text(v: Seq<(Seq<bool>, Map<Seq<char>, i64>)>, u: Seq<Seq<bool>>) -> Seq<char> {
    "Reached:\n"@ + reached_text(v) + if u.len() > 0 {
        seq!['\n'] + "Unreached:\n"@ + unreached_text(u)
    } else {
        seq![]
    }
}

/// Appends a path as a word of `T` and `F`.
fn write_path(p: &Path, s: &mut String)
    ensures
        final(s)@ == old(s)@ + path_word(p@),
{
    let ghost start = s@;
    let mut i: usize = 0;
    while i < p.len()
        invariant
            i <= p@.len(),
            s@ == start + path_word(p@.take(i as int)),
        decreases p.len() - i,
    {
        push_char(s, if p[i] { 'T' } else { 'F' });
        assert(s@ =~= start + path_word(p@.take(i + 1)));
        i = i + 1;
    }
    assert(p@.take(i as int) =~= p@);
}

impl Explorer {
    /// The record of the exploration as text.
    pub fn to_string(&self) -> (r: String)
        ensures
            r@ == explorer_text(self.visited_paths(), self.unreached_paths()),
    {
        proof {
            reveal_strlit("Reached:\n");
            reveal_strlit("Unreached:\n");
        }
        let mut s = String::new();
        push_str(&mut s, "Reached:\n");
        let ghost start = s@;
        let ghost v = self.visited_paths();
        let mut i: usize = 0;
        while i < self.visited.len()
            invariant
                i <= self.visited@.len(),
                v == self.visited_paths(),
                s@ == start + reached_text(v.take(i as int)),
            decreases self.visited.len() - i,
        {
            proof {
                reveal_strlit("  Path: ");
                reveal_strlit("  Env: ");
            }
            push_str(&mut s, "  Path: ");
            write_path(&self.visited[i].0, &mut s);
            push_char(&mut s, '\n');
            push_str(&mut s, "  Env: ");
            write_env(&self.visited[i].1, &mut s);
            push_char(&mut s, '\n');
            proof {
                let t = v.take(i + 1);
                assert(t.drop_last() =~= v.take(i as int));
                assert(t.last() == v[i as int]);
                assert(s@ =~= start + reached_text(t));
            }
            i = i + 1;
        }
        assert(v.take(i as int) =~= v);
        if self.unreached.len() > 0 {
            push_char(&mut s, '\n');
            push_str(&mut s, "Unreached:\n");
            let ghost start2 = s@;
            let ghost u = self.unreached_paths();
            let mut j: usize = 0;
            while j < self.unreached.len()
                invariant
                    j <= self.unreached@.len(),
                    u == self.unreached_paths(),
                    s@ == start2 + unreached_text(u.take(j as int)),
                decreases self.unreached.len() - j,
            {
                proof {
                    reveal_strlit("  Path: ");
                }
                push_str(&mut s, "  Path: ");
                write_path(&self.unreached[j], &mut s);
                push_char(&mut s, '\n');
                proof {
                    let t = u.take(j + 1);
                    assert(t.drop_last() =~= u.take(j as int));
                    assert(t.last() == u[j as int]);
                    assert(s@ =~= start2 + unreached_text(t));
                }
                j = j + 1;
            }
            assert(u.take(j as int) =~= u);
        }
        assert(s@ =~= explorer_text(self.visited_paths(), self.unreached_paths()));
        s
    }
}

} // verus!
