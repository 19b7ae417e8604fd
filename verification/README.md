# concolic_pbt

Concolic execution of a small expression language, for property-based
testing, verified with Verus.

A program is a list of statements (`let x = e`, `assert(c)`) over integer
expressions with `+`, `-` and `if c then e1 else e2`. Running it records,
for every branch taken, the branch condition in SSA form together with the
direction taken. A solver extracts simple bounds from such constraints and
samples inputs that follow another path; an explorer runs these inputs
depth first until an assertion fails.

Layout of `src/`:

- `node.rs`: expressions and statements, their models and semantics.
- `parser.rs`: the grammar as spec functions, and a parser proved to follow it.
- `state.rs`: concolic evaluation; `run` specifies a whole execution.
- `expansion.rs`: the recorded constraints, expanded over the let
  definitions, hold for the run's input.
- `solver.rs`: bound extraction (proved exact), substitution, rejection
  sampling; the answers satisfy the constraints, and an answer is owed
  when only satisfiable bounds with drawable values remain.
- `paths.rs`: two runs of the same statements meet the same conditions up
  to the first branch where they part; an input found for the other
  direction of a branch follows the run up to that branch and leaves it
  there.
- `plain.rs`: variable names without `@` are never taken for let-defined
  variables by the solver.
- `explore.rs`: depth-first exploration; a reported counterexample makes the
  statements fail and is the initial input or an input the solver gave; on
  `Verified` every assertion that passed on a path was submitted to the
  solver without yielding a failing input; every unreached path is one the
  solver gave no runnable input for; one iteration is counted per run. When no
  variable name contains `@`, no path is run twice in one exploration, and
  a `Verified` exploration has run or recorded every alternative branch.
- `display.rs`: textual renderings, each specified exactly.
- `tensor.rs`: tensor shape expressions with broadcasting and matrix
  products.
- `env.rs`, `text.rs`, `rng.rs`: maps keyed by name, strings and digits,
  and the random draws of `rand`.
