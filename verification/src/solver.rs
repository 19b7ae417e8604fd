//! Constraint solving by bound extraction and rejection sampling.
use vstd::prelude::*;
use rand::rngs::StdRng;
use crate::rng::{random_in_range, random_index};

verus! {

/// Error during constraint solving.
#[derive(Debug, Clone, Copy, PartialEq, Eq, Structural)]
pub enum SolverError {
    /// The bounds are contradictory (e.g. `x >= 10` and `x <= 5`).
    Unsatisfiable,
    /// No satisfying assignment was found within the allowed attempts.
    MaxAttemptsExceeded,
}

/// Bounds on a single variable.
#[derive(Debug, Clone, PartialEq)]
pub struct Bound {
    /// Inclusive lower bound: `x >= lower`.
    pub lower: Option<i64>,
    /// Inclusive upper bound: `x <= upper`.
    pub upper: Option<i64>,
    /// Values that are excluded: `x != value`.
    pub excluded: Vec<i64>,
}

/// Mathematical model of a bound.
pub struct BoundModel {
    pub lower: Option<i64>,
    pub upper: Option<i64>,
    pub excluded: Seq<i64>,
}

impl View for Bound {
    type V = BoundModel;

    open spec fn view(&self) -> BoundModel {
        BoundModel { lower: self.lower, upper: self.upper, excluded: self.excluded@ }
    }
}

/// The bound with no constraint.
pub open spec fn empty_bound() -> BoundModel {
    BoundModel { lower: None, upper: None, excluded: seq![] }
}

impl BoundModel {
    /// Whether the value `x` meets the bound.
    pub open spec fn admits(self, x: int) -> bool {
        &&& (self.lower matches Some(l) ==> l <= x)
        &&& (self.upper matches Some(u) ==> x <= u)
        &&& !self.excluded.contains(x as i64)
    }

    /// Whether the lower and upper bounds are compatible.
    pub open spec fn satisfiable(self) -> bool {
        match (self.lower, self.upper) {
            (Some(l), Some(u)) => l <= u,
            _ => true,
        }
    }

    /// The lowest value drawn: the lower bound; where it is absent, -1000,
    /// moved down so that the range holds more values than are excluded
    /// (at most to the least `i64`).
    pub open spec fn sample_low(self) -> i64 {
        let n = self.excluded.len() as int;
        match self.lower {
            Some(l) => l,
            None => match self.upper {
                Some(u) => if u - n < i64::MIN {
                    i64::MIN
                } else if u - n < -1000 {
                    (u - n) as i64
                } else {
                    -1000i64
                },
                None => if -1000 + n > i64::MAX { i64::MIN } else { -1000i64 },
            },
        }
    }

    /// The highest value drawn: the upper bound; where it is absent, 1000,
    /// moved up so that the range holds more values than are excluded (at
    /// most to the greatest `i64`).
    pub open spec fn sample_high(self) -> i64 {
        let n = self.excluded.len() as int;
        match self.upper {
            Some(u) => u,
            None => match self.lower {
                Some(l) => if l + n > i64::MAX {
                    i64::MAX
                } else if l + n > 1000 {
                    (l + n) as i64
                } else {
                    1000i64
                },
                None => if -1000 + n > i64::MAX {
                    i64::MAX
                } else if -1000 + n > 1000 {
                    (-1000 + n) as i64
                } else {
                    1000i64
                },
            },
        }
    }
}

/// `s` without its occurrences of `x`.
pub open spec fn without(s: Seq<i64>, x: i64) -> Seq<i64>
    decreases s.len(),
{
    if s.len() == 0 {
        s
    } else if s.last() == x {
        without(s.drop_last(), x)
    } else {
        without(s.drop_last(), x).push(s.last())
    }
}

proof fn lemma_without(s: Seq<i64>, x: i64)
    ensures
        without(s, x).len() <= s.len(),
        s.contains(x) ==> without(s, x).len() < s.len(),
        forall|y: i64| #[trigger] without(s, x).contains(y) <==> s.contains(y) && y != x,
    decreases s.len(),
{
    if s.len() > 0 {
        let d = s.drop_last();
        lemma_without(d, x);
        assert forall|y: i64| s.contains(y) <==> d.contains(y) || y == s.last() by {
            if s.contains(y) {
                let k = choose|k: int| 0 <= k < s.len() && s[k] == y;
                if k < s.len() - 1 {
                    assert(d[k] == y);
                }
            }
            if d.contains(y) {
                let k = choose|k: int| 0 <= k < d.len() && d[k] == y;
                assert(s[k] == y);
            }
            if y == s.last() {
                assert(s[s.len() - 1] == y);
            }
        }
        if s.last() != x {
            let w = without(d, x);
            assert forall|y: i64| #[trigger] w.push(s.last()).contains(y) <==> w.contains(y) || y == s.last() by {
                if w.push(s.last()).contains(y) {
                    let k = choose|k: int| 0 <= k < w.len() + 1 && w.push(s.last())[k] == y;
                    if k < w.len() {
                        assert(w[k] == y);
                    }
                }
                if w.contains(y) {
                    let k = choose|k: int| 0 <= k < w.len() && w[k] == y;
                    assert(w.push(s.last())[k] == y);
                }
                if y == s.last() {
                    assert(w.push(s.last())[w.len() as int] == y);
                }
            }
        }
    }
}

/// A range of more values than `ex` holds has a value that `ex` lacks.
proof fn lemma_range_not_covered(lo: i64, hi: i64, ex: Seq<i64>)
    requires
        lo <= hi,
        hi - lo + 1 > ex.len(),
    ensures
        exists|v: i64| lo <= v <= hi && !ex.contains(v),
    decreases hi - lo,
{
    if !ex.contains(hi) {
        assert(lo <= hi <= hi && !ex.contains(hi));
    } else {
        lemma_without(ex, hi);
        let ex2 = without(ex, hi);
        if lo == hi {
            assert(ex.len() >= 1);
            assert(false);
        } else {
            lemma_range_not_covered(lo, (hi - 1) as i64, ex2);
            let v = choose|v: i64| lo <= v <= hi - 1 && !ex2.contains(v);
            assert(lo <= v <= hi && !ex.contains(v));
        }
    }
}

/// When every value of the drawing range is excluded, the bound admits no
/// value at all.
proof fn lemma_range_complete(b: BoundModel)
    requires
        forall|v: i64| b.sample_low() <= v <= b.sample_high() ==> #[trigger] b.excluded.contains(v),
    ensures
        forall|v: i64| !b.admits(v as int),
{
    let lo = b.sample_low();
    let hi = b.sample_high();
    let n = b.excluded.len() as int;
    if lo <= hi && hi - lo + 1 > n {
        lemma_range_not_covered(lo, hi, b.excluded);
        let v = choose|v: i64| lo <= v <= hi && !b.excluded.contains(v);
        assert(b.excluded.contains(v));
    }
    assert forall|v: i64| !b.admits(v as int) by {
        if b.admits(v as int) {
            assert(lo <= v <= hi);
            assert(b.excluded.contains(v));
        }
    }
}

/// Whether `v` occurs in `s`.
fn contains_i64(s: &Vec<i64>, v: i64) -> (r: bool)
    ensures
        r == s@.contains(v),
{
    let mut i: usize = 0;
    while i < s.len()
        invariant
            i <= s@.len(),
            forall|j: int| 0 <= j < i ==> s@[j] != v,
        decreases s.len() - i,
    {
        if s[i] == v {
            return true;
        }
        i = i + 1;
    }
    false
}

impl Default for Bound {
    /// The bound with no constraint.
    fn default() -> (r: Bound)
        ensures
            r@ == empty_bound(),
    {
        Bound::new()
    }
}

impl Bound {
    /// The bound with no constraint.
    pub fn new() -> (r: Bound)
        ensures
            r@ == empty_bound(),
    {
        Bound { lower: None, upper: None, excluded: Vec::new() }
    }

    /// A copy of this bound.
    pub fn duplicate(&self) -> (r: Bound)
        ensures
            r@ == self@,
    {
        let mut excluded: Vec<i64> = Vec::new();
        let mut i: usize = 0;
        while i < self.excluded.len()
            invariant
                i <= self.excluded@.len(),
                excluded@ == self.excluded@.take(i as int),
            decreases self.excluded.len() - i,
        {
            excluded.push(self.excluded[i]);
            assert(self.excluded@.take(i + 1) == self.excluded@.take(i as int).push(self.excluded@[i as int]));
            i = i + 1;
        }
        assert(self.excluded@.take(i as int) == self.excluded@);
        Bound { lower: self.lower, upper: self.upper, excluded }
    }

    /// Adds the lower bound `x >= value`; the stronger lower bound is kept.
    pub fn add_lower(&mut self, value: i64)
        ensures
            final(self).lower == Some(match old(self).lower {
                Some(l) => if l >= value { l } else { value },
                None => value,
            }),
            final(self).upper == old(self).upper,
            final(self).excluded == old(self).excluded,
    {
        self.lower = Some(match self.lower {
            Some(l) => if l >= value { l } else { value },
            None => value,
        });
    }

    /// Adds the upper bound `x <= value`; the stronger upper bound is kept.
    pub fn add_upper(&mut self, value: i64)
        ensures
            final(self).upper == Some(match old(self).upper {
                Some(u) => if u <= value { u } else { value },
                None => value,
            }),
            final(self).lower == old(self).lower,
            final(self).excluded == old(self).excluded,
    {
        self.upper = Some(match self.upper {
            Some(u) => if u <= value { u } else { value },
            None => value,
        });
    }

    /// Excludes the value: `x != value`; each value is listed once.
    pub fn add_excluded(&mut self, value: i64)
        ensures
            final(self).excluded@ == if old(self).excluded@.contains(value) {
                old(self).excluded@
            } else {
                old(self).excluded@.push(value)
            },
            final(self).lower == old(self).lower,
            final(self).upper == old(self).upper,
    {
        if !contains_i64(&self.excluded, value) {
            self.excluded.push(value);
        }
    }

    /// Whether the lower and upper bounds are compatible.
    pub fn is_satisfiable(&self) -> (r: bool)
        ensures
            r == self@.satisfiable(),
    {
        match (self.lower, self.upper) {
            (Some(l), Some(u)) => l <= u,
            _ => true,
        }
    }

    /// Draws a value within the bound that is not excluded.
    ///
    /// Values are drawn from the range of `sample_low` to `sample_high`:
    /// the bounds, or -1000 and 1000 where a bound is absent, widened when
    /// more values are excluded than the range would hold. After 100
    /// excluded draws, one of the admitted values of the range is chosen at
    /// random. `None` exactly when the bound admits no value at all.
    pub fn sample(&self, rng: &mut StdRng) -> (r: Option<i64>)
        ensures
            match r {
                Some(v) => self@.sample_low() <= v <= self@.sample_high() && !self@.excluded.contains(v)
                    && self@.admits(v as int),
                None => (forall|v: i64| self@.sample_low() <= v <= self@.sample_high()
                    ==> #[trigger] self@.excluded.contains(v))
                    && forall|v: i64| !self@.admits(v as int),
            },
    {
        let n: i128 = self.excluded.len() as i128;
        let lower: i64 = match self.lower {
            Some(l) => l,
            None => match self.upper {
                Some(u) => {
                    let w: i128 = (u as i128) - n;
                    if w < (i64::MIN as i128) {
                        i64::MIN
                    } else if w < -1000 {
                        w as i64
                    } else {
                        -1000i64
                    }
                },
                None => if -1000 + n > (i64::MAX as i128) { i64::MIN } else { -1000i64 },
            },
        };
        let upper: i64 = match self.upper {
            Some(u) => u,
            None => match self.lower {
                Some(l) => {
                    let w: i128 = (l as i128) + n;
                    if w > (i64::MAX as i128) {
                        i64::MAX
                    } else if w > 1000 {
                        w as i64
                    } else {
                        1000i64
                    }
                },
                None => {
                    let w: i128 = -1000 + n;
                    if w > (i64::MAX as i128) {
                        i64::MAX
                    } else if w > 1000 {
                        w as i64
                    } else {
                        1000i64
                    }
                },
            },
        };
        assert(lower == self@.sample_low() && upper == self@.sample_high());
        if lower > upper {
            proof {
                lemma_range_complete(self@);
            }
            return None;
        }
        let mut attempt: usize = 0;
        while attempt < 100
            invariant
                lower <= upper,
                lower == self@.sample_low(),
                upper == self@.sample_high(),
            decreases 100 - attempt,
        {
            let value = random_in_range(rng, lower, upper);
            if !contains_i64(&self.excluded, value) {
                return Some(value);
            }
            attempt = attempt + 1;
        }
        // Fall back to listing the admitted values.
        let mut valid: Vec<i64> = Vec::new();
        let mut v: i64 = lower;
        loop
            invariant_except_break
                lower <= v <= upper,
                forall|w: i64| lower <= w < v && !self@.excluded.contains(w)
                    ==> #[trigger] valid@.contains(w),
            invariant
                lower == self@.sample_low(),
                upper == self@.sample_high(),
                forall|k: int| 0 <= k < valid@.len() ==>
                    lower <= valid@[k] <= upper && !self@.excluded.contains(#[trigger] valid@[k]),
            ensures
                forall|w: i64| lower <= w <= upper && !self@.excluded.contains(w)
                    ==> #[trigger] valid@.contains(w),
            decreases upper - v,
        {
            if !contains_i64(&self.excluded, v) {
                let ghost before = valid@;
                valid.push(v);
                assert(valid@[valid@.len() - 1] == v);
                assert forall|w: i64| before.contains(w) implies #[trigger] valid@.contains(w) by {
                    let k = choose|k: int| 0 <= k < before.len() && before[k] == w;
                    assert(valid@[k] == w);
                }
            }
            if v == upper {
                break;
            }
            v = v + 1;
        }
        if valid.len() == 0 {
            assert forall|w: i64| lower <= w <= upper implies #[trigger] self@.excluded.contains(w) by {
                if !self@.excluded.contains(w) {
                    assert(valid@.contains(w));
                }
            }
            proof {
                lemma_range_complete(self@);
            }
            None
        } else {
            let k = random_index(rng, valid.len());
            Some(valid[k])
        }
    }
}

} // verus!

verus! {

use crate::env::NameMap;
use crate::node::{SymBoolExpr, SymBoolExprModel, SymExpr, SymExprModel, in_i64};
use crate::state::{all_hold, constraints_view};

/// Bounds of all variables.
pub type Bounds = NameMap<Bound>;

/// Path constraints: `(condition, direction taken)` pairs.
pub type Constraints = Vec<(SymBoolExpr, bool)>;

/// The models of the bounds of a map.
pub open spec fn bounds_view(m: Map<Seq<char>, Bound>) -> Map<Seq<char>, BoundModel> {
    m.map_values(|b: Bound| b@)
}

/// How a simple constraint restricts its variable.
#[derive(Debug, Clone, Copy, PartialEq, Eq, Structural)]
pub enum BoundUpdate {
    /// `x >= v`
    Lower(i64),
    /// `x <= v`
    Upper(i64),
    /// `x == v`
    Exact(i64),
    /// `x != v`
    Exclude(i64),
}

impl BoundUpdate {
    /// Whether the value `a` meets the restriction.
    pub open spec fn holds(self, a: int) -> bool {
        match self {
            BoundUpdate::Lower(v) => a >= v,
            BoundUpdate::Upper(v) => a <= v,
            BoundUpdate::Exact(v) => a == v,
            BoundUpdate::Exclude(v) => a != v,
        }
    }
}

/// The bound after adding a restriction.
pub open spec fn apply_update(b: BoundModel, u: BoundUpdate) -> BoundModel {
    match u {
        BoundUpdate::Lower(v) => BoundModel {
            lower: Some(match b.lower { Some(l) => if l >= v { l } else { v }, None => v }),
            ..b
        },
        BoundUpdate::Upper(v) => BoundModel {
            upper: Some(match b.upper { Some(h) => if h <= v { h } else { v }, None => v }),
            ..b
        },
        BoundUpdate::Exact(v) => BoundModel {
            lower: Some(match b.lower { Some(l) => if l >= v { l } else { v }, None => v }),
            upper: Some(match b.upper { Some(h) => if h <= v { h } else { v }, None => v }),
            ..b
        },
        BoundUpdate::Exclude(v) => BoundModel {
            excluded: if b.excluded.contains(v) { b.excluded } else { b.excluded.push(v) },
            ..b
        },
    }
}

/// `e` as `name + offset`, when it is a variable, a variable plus a
/// literal (either order) or a variable minus a literal.
pub open spec fn linear_form(e: SymExprModel) -> Option<(Seq<char>, i64)> {
    match e {
        SymExprModel::Var(v) => Some((v.name, 0i64)),
        SymExprModel::Add(l, r) => match (*l, *r) {
            (SymExprModel::Var(v), SymExprModel::Lit(n)) => Some((v.name, n)),
            (SymExprModel::Lit(n), SymExprModel::Var(v)) => Some((v.name, n)),
            _ => None,
        },
        SymExprModel::Sub(l, r) => match (*l, *r) {
            (SymExprModel::Var(v), SymExprModel::Lit(n)) => if n == i64::MIN {
                None
            } else {
                Some((v.name, (-n) as i64))
            },
            _ => None,
        },
        _ => None,
    }
}

/// A restriction of `x` by the value `v`, when `v` is an `i64`.
pub open spec fn update_for(x: Seq<char>, v: int, make: spec_fn(i64) -> BoundUpdate) -> Option<(Seq<char>, BoundUpdate)> {
    if in_i64(v) { Some((x, make(v as i64))) } else { None }
}

/// The restriction that a constraint puts on one variable, when the
/// constraint compares `name + offset` with a literal and has no
/// conditional.
pub open spec fn classify(c: SymBoolExprModel, taken: bool) -> Option<(Seq<char>, BoundUpdate)> {
    if c.has_ite() {
        None
    } else {
        match c {
            SymBoolExprModel::Lit(_) => None,
            SymBoolExprModel::Le(l, r) => match (linear_form(*l), linear_form(*r), *l, *r) {
                (Some((x, o)), None, _, SymExprModel::Lit(n)) => if taken {
                    update_for(x, n - o, |v: i64| BoundUpdate::Upper(v))
                } else {
                    update_for(x, n - o + 1, |v: i64| BoundUpdate::Lower(v))
                },
                (None, Some((x, o)), SymExprModel::Lit(n), _) => if taken {
                    update_for(x, n - o, |v: i64| BoundUpdate::Lower(v))
                } else {
                    update_for(x, n - o - 1, |v: i64| BoundUpdate::Upper(v))
                },
                _ => None,
            },
            SymBoolExprModel::Ge(l, r) => match (linear_form(*l), linear_form(*r), *l, *r) {
                (Some((x, o)), None, _, SymExprModel::Lit(n)) => if taken {
                    update_for(x, n - o, |v: i64| BoundUpdate::Lower(v))
                } else {
                    update_for(x, n - o - 1, |v: i64| BoundUpdate::Upper(v))
                },
                (None, Some((x, o)), SymExprModel::Lit(n), _) => if taken {
                    update_for(x, n - o, |v: i64| BoundUpdate::Upper(v))
                } else {
                    update_for(x, n - o + 1, |v: i64| BoundUpdate::Lower(v))
                },
                _ => None,
            },
            SymBoolExprModel::Eq(l, r) => match (linear_form(*l), linear_form(*r), *l, *r) {
                (Some((x, o)), None, _, SymExprModel::Lit(n)) => if taken {
                    update_for(x, n - o, |v: i64| BoundUpdate::Exact(v))
                } else {
                    update_for(x, n - o, |v: i64| BoundUpdate::Exclude(v))
                },
                (None, Some((x, o)), SymExprModel::Lit(n), _) => if taken {
                    update_for(x, n - o, |v: i64| BoundUpdate::Exact(v))
                } else {
                    update_for(x, n - o, |v: i64| BoundUpdate::Exclude(v))
                },
                _ => None,
            },
        }
    }
}

/// The bounds extracted from constraints, applied in order.
pub open spec fn bounds_of(cs: Seq<(SymBoolExprModel, bool)>) -> Map<Seq<char>, BoundModel>
    decreases cs.len(),
{
    if cs.len() == 0 {
        Map::empty()
    } else {
        let m = bounds_of(cs.drop_last());
        match classify(cs.last().0, cs.last().1) {
            Some((x, u)) => m.insert(
                x,
                apply_update(if m.contains_key(x) { m[x] } else { empty_bound() }, u),
            ),
            None => m,
        }
    }
}

/// The constraints that yield no bound and are not literals, in order.
pub open spec fn remaining_of(cs: Seq<(SymBoolExprModel, bool)>) -> Seq<(SymBoolExprModel, bool)>
    decreases cs.len(),
{
    if cs.len() == 0 {
        seq![]
    } else {
        let rest = remaining_of(cs.drop_last());
        if !(cs.last().0 is Lit) && classify(cs.last().0, cs.last().1) is None {
            rest.push(cs.last())
        } else {
            rest
        }
    }
}

/// Whether every bound of `m` is met by `env`.
pub open spec fn admits_all(m: Map<Seq<char>, BoundModel>, env: Map<Seq<char>, i64>) -> bool {
    forall|x: Seq<char>| #[trigger] m.contains_key(x) ==> env.contains_key(x) && m[x].admits(env[x] as int)
}

/// Whether every non-literal constraint holds in `env` in its recorded
/// direction.
pub open spec fn nonlit_hold(cs: Seq<(SymBoolExprModel, bool)>, env: Map<Seq<char>, i64>) -> bool {
    forall|i: int| 0 <= i < cs.len() && !(cs[i].0 is Lit) ==> (#[trigger] cs[i]).0.value(env) == Some(cs[i].1)
}

// ---------------------------------------------------------------------------
// Laws of bound extraction
// ---------------------------------------------------------------------------

/// `linear_form` is faithful: the expression's value is its variable's value
/// plus the offset.
proof fn lemma_linear_form(e: SymExprModel, env: Map<Seq<char>, i64>)
    requires
        linear_form(e) is Some,
    ensures
        ({
            let (x, o) = linear_form(e)->Some_0;
            e.value(env) == if env.contains_key(x) { Some(env[x] + o) } else { None }
        }),
{
    match e {
        SymExprModel::Add(l, r) => {
            match (*l, *r) {
                (SymExprModel::Var(v), SymExprModel::Lit(n)) => {
                    assert(linear_form(e) == Some((v.name, n)));
                    assert(r.value(env) == Some(n as int));
                    assert(l.value(env) == if env.contains_key(v.name) { Some(env[v.name] as int) } else { None });
                    assert(e.value(env) == if env.contains_key(v.name) { Some(env[v.name] + n) } else { None });
                },
                (SymExprModel::Lit(n), SymExprModel::Var(v)) => {
                    assert(linear_form(e) == Some((v.name, n)));
                    assert(l.value(env) == Some(n as int));
                    assert(r.value(env) == if env.contains_key(v.name) { Some(env[v.name] as int) } else { None });
                    assert(e.value(env) == if env.contains_key(v.name) { Some(env[v.name] + n) } else { None });
                },
                _ => {
                    assert(false);
                },
            }
        },
        SymExprModel::Sub(l, r) => {
            match (*l, *r) {
                (SymExprModel::Var(v), SymExprModel::Lit(n)) => {
                    assert(n != i64::MIN);
                    assert(linear_form(e) == Some((v.name, (-n) as i64)));
                    assert(-n == ((-n) as i64) as int);
                    assert(r.value(env) == Some(n as int));
                    assert(l.value(env) == if env.contains_key(v.name) { Some(env[v.name] as int) } else { None });
                },
                _ => {
                    assert(false);
                },
            }
        },
        _ => {},
    }
}

/// Whether `side` is `x`, `x + k`, `k + x` or `x - k` for the variable
/// `v`.
pub open spec fn offset_of_var(side: SymExprModel, v: SsaVarModel, k: i64) -> bool {
    ||| side == SymExprModel::Var(v)
    ||| side == SymExprModel::Add(Box::new(SymExprModel::Var(v)), Box::new(SymExprModel::Lit(k)))
    ||| side == SymExprModel::Add(Box::new(SymExprModel::Lit(k)), Box::new(SymExprModel::Var(v)))
    ||| side == SymExprModel::Sub(Box::new(SymExprModel::Var(v)), Box::new(SymExprModel::Lit(k)))
}

/// Whether `c` compares `side` with the literal `n`, on either side, by
/// `<=`, `>=` or `==`.
pub open spec fn compares_with_literal(c: SymBoolExprModel, side: SymExprModel, n: i64) -> bool {
    let lit = SymExprModel::Lit(n);
    ||| c == SymBoolExprModel::Le(Box::new(side), Box::new(lit))
    ||| c == SymBoolExprModel::Le(Box::new(lit), Box::new(side))
    ||| c == SymBoolExprModel::Ge(Box::new(side), Box::new(lit))
    ||| c == SymBoolExprModel::Ge(Box::new(lit), Box::new(side))
    ||| c == SymBoolExprModel::Eq(Box::new(side), Box::new(lit))
    ||| c == SymBoolExprModel::Eq(Box::new(lit), Box::new(side))
}

/// Extraction is complete for simple constraints: a constraint that
/// compares a literal with `x`, `x + k`, `k + x` or `x - k`, on either side
/// and in either direction, becomes a bound on `x` and is not left among
/// the remaining constraints (for literals small enough that the bound
/// fits in `i64`).
pub proof fn lemma_simple_constraint_bounded(c: SymBoolExprModel, taken: bool, side: SymExprModel, v: SsaVarModel, k: i64, n: i64)
    requires
        offset_of_var(side, v, k),
        compares_with_literal(c, side, n),
        -0x2000_0000_0000_0000 <= k <= 0x2000_0000_0000_0000,
        -0x2000_0000_0000_0000 <= n <= 0x2000_0000_0000_0000,
    ensures
        classify(c, taken) matches Some((x, _)) && x == v.name,
        bounds_of(seq![(c, taken)]).contains_key(v.name),
        remaining_of(seq![(c, taken)]).len() == 0,
{
    let cs = seq![(c, taken)];
    assert(cs.drop_last() =~= Seq::<(SymBoolExprModel, bool)>::empty());
    assert(cs.last() == (c, taken));
    let lit = SymExprModel::Lit(n);
    assert(cs.drop_last() =~= Seq::<(SymBoolExprModel, bool)>::empty());
    assert(remaining_of(cs.drop_last()) =~= Seq::<(SymBoolExprModel, bool)>::empty());
    assert(k != i64::MIN);
    let nk: i64 = (-k) as i64;
    assert(nk == -k) by (bit_vector)
        requires
            nk == (-k) as i64,
            -0x2000_0000_0000_0000 <= k <= 0x2000_0000_0000_0000,
    ;
    let o: i64 = if side == SymExprModel::Var(v) { 0i64 } else if side is Sub { nk } else { k };
    assert(!side.has_ite()) by {
        if side != SymExprModel::Var(v) {
            assert(!SymExprModel::Var(v).has_ite());
            assert(!SymExprModel::Lit(k).has_ite());
        }
    }
    assert(!lit.has_ite());
    assert(!c.has_ite());
    assert(linear_form(lit) is None);
    assert(linear_form(side) == Some((v.name, o)));
    assert(in_i64(n - o) && in_i64(n - o + 1) && in_i64(n - o - 1));
}

/// A constraint that yields a bound holds exactly when its variable is
/// bound and meets the restriction.
pub proof fn lemma_classify_exact(c: SymBoolExprModel, taken: bool, env: Map<Seq<char>, i64>)
    requires
        classify(c, taken) is Some,
    ensures
        ({
            let (x, u) = classify(c, taken)->Some_0;
            c.value(env) == Some(taken) <==> env.contains_key(x) && u.holds(env[x] as int)
        }),
{
    match c {
        SymBoolExprModel::Le(l, r) | SymBoolExprModel::Ge(l, r) | SymBoolExprModel::Eq(l, r) => {
            if linear_form(*l) is Some {
                lemma_linear_form(*l, env);
            }
            if linear_form(*r) is Some {
                lemma_linear_form(*r, env);
            }
        },
        _ => {},
    }
}

proof fn lemma_apply_update(b: BoundModel, u: BoundUpdate, a: i64)
    ensures
        apply_update(b, u).admits(a as int) <==> b.admits(a as int) && u.holds(a as int),
{
    match u {
        BoundUpdate::Exclude(v) => {
            if !b.excluded.contains(v) {
                let e2 = b.excluded.push(v);
                if e2.contains(a) && !b.excluded.contains(a) {
                    let k = choose|k: int| 0 <= k < e2.len() && e2[k] == a;
                    if k < b.excluded.len() {
                        assert(b.excluded[k] == a);
                    }
                }
                if a == v {
                    assert(e2[e2.len() - 1] == a);
                }
                if b.excluded.contains(a) {
                    let k = choose|k: int| 0 <= k < b.excluded.len() && b.excluded[k] == a;
                    assert(e2[k] == a);
                }
            }
        },
        _ => {},
    }
}

/// Bound extraction is exact: the non-literal constraints hold exactly when
/// the extracted bounds are met and the remaining constraints hold.
pub proof fn lemma_extract_bounds_exact(cs: Seq<(SymBoolExprModel, bool)>, env: Map<Seq<char>, i64>)
    ensures
        nonlit_hold(cs, env) <==> admits_all(bounds_of(cs), env) && all_hold(remaining_of(cs), env),
    decreases cs.len(),
{
    if cs.len() > 0 {
        let dl = cs.drop_last();
        let (c, t) = cs.last();
        lemma_extract_bounds_exact(dl, env);
        let m = bounds_of(dl);
        // nonlit_hold splits into the prefix and the last constraint.
        assert(nonlit_hold(cs, env) <==> nonlit_hold(dl, env) && (!(c is Lit) ==> c.value(env) == Some(t))) by {
            if nonlit_hold(cs, env) {
                assert forall|i: int| 0 <= i < dl.len() && !(dl[i].0 is Lit) implies (#[trigger] dl[i]).0.value(env) == Some(dl[i].1) by {
                    assert(dl[i] == cs[i]);
                }
                assert(cs[cs.len() - 1] == cs.last());
            }
            if nonlit_hold(dl, env) && (!(c is Lit) ==> c.value(env) == Some(t)) {
                assert forall|i: int| 0 <= i < cs.len() && !(cs[i].0 is Lit) implies (#[trigger] cs[i]).0.value(env) == Some(cs[i].1) by {
                    if i < dl.len() {
                        assert(dl[i] == cs[i]);
                    }
                }
            }
        }
        // The remaining constraints split likewise.
        let rest = remaining_of(dl);
        assert(all_hold(remaining_of(cs), env) <==> all_hold(rest, env)
            && ((!(c is Lit) && classify(c, t) is None) ==> c.value(env) == Some(t))) by {
            if !(c is Lit) && classify(c, t) is None {
                let r2 = rest.push((c, t));
                assert(remaining_of(cs) == r2);
                if all_hold(r2, env) {
                    assert forall|i: int| 0 <= i < rest.len() implies (#[trigger] rest[i]).0.value(env) == Some(rest[i].1) by {
                        assert(r2[i] == rest[i]);
                    }
                    assert(r2[rest.len() as int] == (c, t));
                }
                if all_hold(rest, env) && c.value(env) == Some(t) {
                    assert forall|i: int| 0 <= i < r2.len() implies (#[trigger] r2[i]).0.value(env) == Some(r2[i].1) by {
                        if i < rest.len() {
                            assert(r2[i] == rest[i]);
                        }
                    }
                }
            }
        }
        // The bounds split likewise.
        match classify(c, t) {
            Some((x, u)) => {
                lemma_classify_exact(c, t, env);
                let old_b = if m.contains_key(x) { m[x] } else { empty_bound() };
                let m2 = m.insert(x, apply_update(old_b, u));
                assert(bounds_of(cs) == m2);
                if env.contains_key(x) {
                    lemma_apply_update(old_b, u, env[x]);
                }
                assert(admits_all(m2, env) <==> admits_all(m, env) && env.contains_key(x) && u.holds(env[x] as int)) by {
                    if admits_all(m2, env) {
                        assert(m2.contains_key(x));
                        assert forall|y: Seq<char>| #[trigger] m.contains_key(y) implies env.contains_key(y) && m[y].admits(env[y] as int) by {
                            assert(m2.contains_key(y));
                            if y == x {
                                assert(m2[y] == apply_update(m[y], u));
                            }
                        }
                    }
                    if admits_all(m, env) && env.contains_key(x) && u.holds(env[x] as int) {
                        assert forall|y: Seq<char>| #[trigger] m2.contains_key(y) implies env.contains_key(y) && m2[y].admits(env[y] as int) by {
                            if y != x {
                                assert(m.contains_key(y));
                            }
                        }
                    }
                }
            },
            None => {},
        }
    }
}


} // verus!

verus! {

use crate::node::SymExpr as SE;

/// Whether every bound of `m` has compatible lower and upper bounds.
pub open spec fn all_satisfiable(m: Map<Seq<char>, BoundModel>) -> bool {
    forall|x: Seq<char>| #[trigger] m.contains_key(x) ==> m[x].satisfiable()
}

/// Whether the expression contains a conditional.
fn contains_ite(e: &SymExpr) -> (r: bool)
    ensures
        r == e@.has_ite(),
    decreases e,
{
    match e {
        SE::Lit(_) | SE::Var(_) => false,
        SE::Add(l, r) | SE::Sub(l, r) => contains_ite(l) || contains_ite(r),
        SE::If(_, _) => true,
    }
}

/// Whether either side of the comparison contains a conditional.
fn bool_contains_ite(e: &SymBoolExpr) -> (r: bool)
    ensures
        r == e@.has_ite(),
{
    match e {
        SymBoolExpr::Lit(_) => false,
        SymBoolExpr::Le(l, r) | SymBoolExpr::Ge(l, r) | SymBoolExpr::Eq(l, r) => {
            contains_ite(l) || contains_ite(r)
        },
    }
}

/// The expression as `(name, offset)`, meaning `name + offset`, when it is
/// a variable, a variable plus a literal (either order) or a variable minus
/// a literal.
fn as_single_var(e: &SymExpr) -> (r: Option<(String, i64)>)
    ensures
        match r {
            Some((x, o)) => linear_form(e@) == Some((x@, o)),
            None => linear_form(e@) is None,
        },
{
    match e {
        SE::Var(v) => Some((v.name.clone(), 0)),
        SE::Add(l, r) => {
            assert(e@ == SymExprModel::Add(Box::new((**l)@), Box::new((**r)@)));
            match (&**l, &**r) {
                (SE::Var(v), SE::Lit(n)) => Some((v.name.clone(), *n)),
                (SE::Lit(n), SE::Var(v)) => Some((v.name.clone(), *n)),
                _ => None,
            }
        },
        SE::Sub(l, r) => {
            assert(e@ == SymExprModel::Sub(Box::new((**l)@), Box::new((**r)@)));
            match (&**l, &**r) {
                (SE::Var(v), SE::Lit(n)) => if *n == i64::MIN {
                    None
                } else {
                    Some((v.name.clone(), -*n))
                },
                _ => None,
            }
        },
        _ => None,
    }
}

/// The literal, when the expression is one.
fn lit_of(e: &SymExpr) -> (r: Option<i64>)
    ensures
        match r {
            Some(n) => e@ == SymExprModel::Lit(n),
            None => !(e@ is Lit),
        },
{
    match e {
        SE::Lit(n) => Some(*n),
        _ => None,
    }
}

/// `(name, offset, literal, variable_on_left)` when one side of a
/// comparison is `name + offset` and the other a literal.
fn compare_form(l: &SymExpr, r: &SymExpr) -> (res: Option<(String, i64, i64, bool)>)
    ensures
        match res {
            Some((x, o, n, left)) => if left {
                linear_form(l@) == Some((x@, o)) && r@ == SymExprModel::Lit(n)
            } else {
                !(linear_form(l@) is Some && r@ is Lit) && l@ == SymExprModel::Lit(n)
                    && linear_form(r@) == Some((x@, o))
            },
            None => !(linear_form(l@) is Some && r@ is Lit) && !(l@ is Lit && linear_form(r@) is Some),
        },
{
    match (as_single_var(l), lit_of(r)) {
        (Some((x, o)), Some(n)) => Some((x, o, n, true)),
        (lf, _) => match (lit_of(l), as_single_var(r)) {
            (Some(n), Some((x, o))) => {
                assert(lf is None);
                Some((x, o, n, false))
            },
            _ => None,
        },
    }
}

/// `x >= v` (or `x <= v` when `upper`), when `v` is an `i64`.
fn side_update(x: String, v: i128, upper: bool) -> (r: Option<(String, BoundUpdate)>)
    ensures
        r == if !in_i64(v as int) {
            None
        } else if upper {
            Some((x, BoundUpdate::Upper(v as i64)))
        } else {
            Some((x, BoundUpdate::Lower(v as i64)))
        },
{
    if v < i64::MIN as i128 || v > i64::MAX as i128 {
        None
    } else if upper {
        Some((x, BoundUpdate::Upper(v as i64)))
    } else {
        Some((x, BoundUpdate::Lower(v as i64)))
    }
}

/// `x == v` (or `x != v` when not `exact`), when `v` is an `i64`.
fn point_update(x: String, v: i128, exact: bool) -> (r: Option<(String, BoundUpdate)>)
    ensures
        r == if !in_i64(v as int) {
            None
        } else if exact {
            Some((x, BoundUpdate::Exact(v as i64)))
        } else {
            Some((x, BoundUpdate::Exclude(v as i64)))
        },
{
    if v < i64::MIN as i128 || v > i64::MAX as i128 {
        None
    } else if exact {
        Some((x, BoundUpdate::Exact(v as i64)))
    } else {
        Some((x, BoundUpdate::Exclude(v as i64)))
    }
}

/// The restriction that a constraint puts on its variable, if it has one.
fn classify_constraint(c: &SymBoolExpr, taken: bool) -> (r: Option<(String, BoundUpdate)>)
    ensures
        match r {
            Some((x, u)) => classify(c@, taken) == Some((x@, u)),
            None => classify(c@, taken) is None,
        },
{
    if bool_contains_ite(c) {
        return None;
    }
    match c {
        SymBoolExpr::Lit(_) => None,
        SymBoolExpr::Le(l, r) => match compare_form(l, r) {
            Some((x, o, n, left)) => {
                let d = n as i128 - o as i128;
                if left {
                    if taken { side_update(x, d, true) } else { side_update(x, d + 1, false) }
                } else {
                    if taken { side_update(x, d, false) } else { side_update(x, d - 1, true) }
                }
            },
            None => None,
        },
        SymBoolExpr::Ge(l, r) => match compare_form(l, r) {
            Some((x, o, n, left)) => {
                let d = n as i128 - o as i128;
                if left {
                    if taken { side_update(x, d, false) } else { side_update(x, d - 1, true) }
                } else {
                    if taken { side_update(x, d, true) } else { side_update(x, d + 1, false) }
                }
            },
            None => None,
        },
        SymBoolExpr::Eq(l, r) => match compare_form(l, r) {
            Some((x, o, n, _)) => {
                let d = n as i128 - o as i128;
                point_update(x, d, taken)
            },
            None => None,
        },
    }
}

/// Adds a restriction to a bound.
fn apply_bound_update(b: &mut Bound, u: BoundUpdate)
    ensures
        final(b)@ == apply_update(old(b)@, u),
{
    match u {
        BoundUpdate::Lower(v) => b.add_lower(v),
        BoundUpdate::Upper(v) => b.add_upper(v),
        BoundUpdate::Exact(v) => {
            b.add_lower(v);
            b.add_upper(v);
        },
        BoundUpdate::Exclude(v) => b.add_excluded(v),
    }
}

/// Extracts the bounds on single variables from constraints.
///
/// A constraint that compares `x`, `x + n`, `n + x` or `x - n` with a
/// literal restricts `x`; literal constraints are dropped; every other
/// constraint (one with a conditional, two variables, or a bound outside
/// the `i64` range) is kept, in order, among the remaining constraints.
/// Fails with `Unsatisfiable` exactly when some variable ends up with a
/// lower bound above its upper bound.
pub fn extract_bounds(constraints: &[(SymBoolExpr, bool)]) -> (r: Result<(Bounds, Constraints), SolverError>)
    ensures
        ({
            let cs = constraints_view(constraints@);
            &&& (r is Ok <==> all_satisfiable(bounds_of(cs)))
            &&& match r {
                Ok((b, rem)) => bounds_view(b@) == bounds_of(cs) && constraints_view(rem@) == remaining_of(cs),
                Err(e) => e == SolverError::Unsatisfiable,
            }
        }),
{
    let ghost cs = constraints_view(constraints@);
    let mut bounds: Bounds = NameMap::new();
    let mut remaining: Constraints = Vec::new();
    let mut i: usize = 0;
    proof {
        assert(cs.take(0) =~= Seq::<(SymBoolExprModel, bool)>::empty());
        assert(bounds_view(bounds@) =~= bounds_of(cs.take(0)));
    }
    while i < constraints.len()
        invariant
            i <= constraints@.len(),
            cs == constraints_view(constraints@),
            bounds_view(bounds@) == bounds_of(cs.take(i as int)),
            constraints_view(remaining@) == remaining_of(cs.take(i as int)),
        decreases constraints.len() - i,
    {
        let (expr, taken) = &constraints[i];
        let ghost pre = cs.take(i as int);
        let ghost cur = cs.take(i + 1);
        proof {
            assert(cur.drop_last() =~= pre);
            assert(cur.last() == (expr@, *taken));
        }
        match classify_constraint(expr, *taken) {
            Some((x, u)) => {
                let mut b = match bounds.lookup(&x) {
                    Some(b0) => b0.duplicate(),
                    None => Bound::new(),
                };
                let ghost m = bounds_view(bounds@);
                proof {
                    assert(m.contains_key(x@) == bounds@.contains_key(x@));
                }
                apply_bound_update(&mut b, u);
                let ghost before = bounds@;
                bounds.insert(x, b);
                proof {
                    assert(bounds_view(bounds@) =~= bounds_view(before).insert(x@, b@));
                    assert(bounds_view(bounds@) =~= bounds_of(cur));
                }
            },
            None => {
                let ghost rem0 = remaining@;
                match expr {
                    SymBoolExpr::Lit(_) => {},
                    _ => {
                        remaining.push((expr.duplicate(), *taken));
                        assert(constraints_view(remaining@) =~= constraints_view(rem0).push((expr@, *taken)));
                    },
                }
                assert(constraints_view(remaining@) =~= remaining_of(cur));
            },
        }
        i = i + 1;
    }
    proof {
        assert(cs.take(i as int) =~= cs);
    }
    // Check that every bound is satisfiable.
    let names = bounds.names();
    let ghost m = bounds_view(bounds@);
    let mut j: usize = 0;
    while j < names.len()
        invariant
            j <= names@.len(),
            m == bounds_view(bounds@),
            m == bounds_of(cs),
            cs == constraints_view(constraints@),
            names@.map_values(|s: String| s@) == bounds.key_seq(),
            bounds.key_seq().to_set() == bounds@.dom(),
            forall|k: int| 0 <= k < j ==> (#[trigger] m[names@[k]@]).satisfiable(),
        decreases names.len() - j,
    {
        match bounds.lookup(&names[j]) {
            Some(b) => {
                proof {
                    assert(m.contains_key(names@[j as int]@));
                    assert(m[names@[j as int]@] == b@);
                }
                if !b.is_satisfiable() {
                    return Err(SolverError::Unsatisfiable);
                }
            },
            None => {
                proof {
                    assert(names@.map_values(|s: String| s@)[j as int] == names@[j as int]@);
                    assert(bounds.key_seq().to_set().contains(names@[j as int]@));
                }
            },
        }
        j = j + 1;
    }
    proof {
        assert forall|x: Seq<char>| #[trigger] m.contains_key(x) implies m[x].satisfiable() by {
            assert(bounds.key_seq().to_set().contains(x));
            let k = choose|k: int| 0 <= k < bounds.key_seq().len() && bounds.key_seq()[k] == x;
            assert(names@.map_values(|s: String| s@)[k] == x);
        }
    }
    Ok((bounds, remaining))
}

} // verus!

verus! {

use crate::node::{Eval, SsaVar, SsaVarModel, SymBranchesModel, SymIfBranches, ssa_text};
use crate::state::lets_view;

// ---------------------------------------------------------------------------
// Substitution of let definitions
// ---------------------------------------------------------------------------

/// Let definitions: each SSA variable with its defining expression.
pub type Subst = Vec<(SsaVar, SymExpr)>;

/// The index of the last definition of `v` in `s`.
pub open spec fn last_def(s: Seq<(SsaVarModel, SymExprModel)>, v: SsaVarModel) -> Option<int>
    decreases s.len(),
{
    if s.len() == 0 {
        None
    } else if s.last().0 == v {
        Some(s.len() - 1)
    } else {
        last_def(s.drop_last(), v)
    }
}

/// The last definition found is a definition of `v`, and none comes after
/// it.
pub proof fn lemma_last_def(s: Seq<(SsaVarModel, SymExprModel)>, v: SsaVarModel)
    ensures
        match last_def(s, v) {
            Some(j) => 0 <= j < s.len() && s[j].0 == v
                && forall|k: int| j < k < s.len() ==> (#[trigger] s[k]).0 != v,
            None => forall|k: int| 0 <= k < s.len() ==> (#[trigger] s[k]).0 != v,
        },
    decreases s.len(),
{
    if s.len() > 0 && s.last().0 != v {
        lemma_last_def(s.drop_last(), v);
        assert forall|k: int| 0 <= k < s.len() - 1 implies s.drop_last()[k] == #[trigger] s[k] by {}
    }
}

/// `e` with each let-defined variable replaced by its definition, itself
/// expanded with the definitions made before it. The branch of a
/// conditional that is kept as parsed is left as it is.
pub open spec fn subst_expr(e: SymExprModel, s: Seq<(SsaVarModel, SymExprModel)>) -> SymExprModel
    decreases s.len(), e,
{
    match e {
        SymExprModel::Lit(n) => SymExprModel::Lit(n),
        SymExprModel::Var(v) => match last_def(s, v) {
            Some(j) => if 0 <= j < s.len() {
                subst_expr(s[j].1, s.take(j))
            } else {
                SymExprModel::Var(v)
            },
            None => SymExprModel::Var(v),
        },
        SymExprModel::Add(l, r) => SymExprModel::Add(Box::new(subst_expr(*l, s)), Box::new(subst_expr(*r, s))),
        SymExprModel::Sub(l, r) => SymExprModel::Sub(Box::new(subst_expr(*l, s)), Box::new(subst_expr(*r, s))),
        SymExprModel::If(c, b) => SymExprModel::If(
            Box::new(subst_bool(*c, s)),
            match b {
                SymBranchesModel::ThenTaken(t, f) => SymBranchesModel::ThenTaken(Box::new(subst_expr(*t, s)), f),
                SymBranchesModel::ElseTaken(t, f) => SymBranchesModel::ElseTaken(t, Box::new(subst_expr(*f, s))),
            },
        ),
    }
}

/// A condition with each let-defined variable replaced by its definition.
pub open spec fn subst_bool(c: SymBoolExprModel, s: Seq<(SsaVarModel, SymExprModel)>) -> SymBoolExprModel
    decreases s.len(), c,
{
    match c {
        SymBoolExprModel::Lit(b) => SymBoolExprModel::Lit(b),
        SymBoolExprModel::Le(l, r) => SymBoolExprModel::Le(Box::new(subst_expr(*l, s)), Box::new(subst_expr(*r, s))),
        SymBoolExprModel::Ge(l, r) => SymBoolExprModel::Ge(Box::new(subst_expr(*l, s)), Box::new(subst_expr(*r, s))),
        SymBoolExprModel::Eq(l, r) => SymBoolExprModel::Eq(Box::new(subst_expr(*l, s)), Box::new(subst_expr(*r, s))),
    }
}

/// Constraints with the let definitions substituted.
pub open spec fn subst_constraints(
    cs: Seq<(SymBoolExprModel, bool)>,
    s: Seq<(SsaVarModel, SymExprModel)>,
) -> Seq<(SymBoolExprModel, bool)> {
    cs.map_values(|p: (SymBoolExprModel, bool)| (subst_bool(p.0, s), p.1))
}

/// The constraints before index `i`, then constraint `i` with its direction
/// flipped (when there is one).
pub open spec fn negated(cs: Seq<(SymBoolExprModel, bool)>, i: int) -> Seq<(SymBoolExprModel, bool)> {
    if i < cs.len() {
        cs.take(i).push((cs[i].0, !cs[i].1))
    } else {
        cs.take(i)
    }
}

/// Whether two SSA variables are the same.
fn ssa_eq(a: &SsaVar, b: &SsaVar) -> (r: bool)
    ensures
        r == (a@ == b@),
{
    a.name == b.name && a.version == b.version
}

/// The index of the last definition of `v` among the first `n`.
fn find_def(subst: &Subst, n: usize, v: &SsaVar) -> (r: Option<usize>)
    requires
        n <= subst@.len(),
    ensures
        match r {
            Some(j) => last_def(lets_view(subst@).take(n as int), v@) == Some(j as int),
            None => last_def(lets_view(subst@).take(n as int), v@) is None,
        },
{
    let ghost lv = lets_view(subst@);
    let mut k: usize = n;
    while k > 0
        invariant
            k <= n <= subst@.len(),
            lv == lets_view(subst@),
            last_def(lv.take(n as int), v@) == last_def(lv.take(k as int), v@),
        decreases k,
    {
        assert(lv.take(k as int).drop_last() =~= lv.take(k - 1));
        assert(lv.take(k as int).last() == lv[k - 1]);
        if ssa_eq(&subst[k - 1].0, v) {
            return Some(k - 1);
        }
        k = k - 1;
    }
    None
}

/// `e` with the first `n` let definitions substituted.
fn substitute_expr(e: &SymExpr, subst: &Subst, n: usize) -> (r: SymExpr)
    requires
        n <= subst@.len(),
    ensures
        r@ == subst_expr(e@, lets_view(subst@).take(n as int)),
    decreases n, e,
{
    let ghost lv = lets_view(subst@);
    match e {
        SE::Lit(k) => SE::Lit(*k),
        SE::Var(v) => match find_def(subst, n, v) {
            Some(j) => {
                proof {
                    lemma_last_def(lv.take(n as int), v@);
                    assert(lv.take(n as int).take(j as int) =~= lv.take(j as int));
                    assert(lv.take(n as int)[j as int] == lv[j as int]);
                }
                substitute_expr(&subst[j].1, subst, j)
            },
            None => SE::Var(v.duplicate()),
        },
        SE::Add(l, r) => SE::Add(Box::new(substitute_expr(l, subst, n)), Box::new(substitute_expr(r, subst, n))),
        SE::Sub(l, r) => SE::Sub(Box::new(substitute_expr(l, subst, n)), Box::new(substitute_expr(r, subst, n))),
        SE::If(c, b) => {
            let c2 = substitute_bool_expr(c, subst, n);
            let b2 = match b {
                SymIfBranches::ThenTaken { then_, else_ } => SymIfBranches::ThenTaken {
                    then_: Box::new(substitute_expr(then_, subst, n)),
                    else_: Box::new(else_.duplicate()),
                },
                SymIfBranches::ElseTaken { then_, else_ } => SymIfBranches::ElseTaken {
                    then_: Box::new(then_.duplicate()),
                    else_: Box::new(substitute_expr(else_, subst, n)),
                },
            };
            SE::If(Box::new(c2), b2)
        },
    }
}

/// A condition with the first `n` let definitions substituted.
fn substitute_bool_expr(c: &SymBoolExpr, subst: &Subst, n: usize) -> (r: SymBoolExpr)
    requires
        n <= subst@.len(),
    ensures
        r@ == subst_bool(c@, lets_view(subst@).take(n as int)),
    decreases n, c,
{
    match c {
        SymBoolExpr::Lit(b) => SymBoolExpr::Lit(*b),
        SymBoolExpr::Le(l, r) => SymBoolExpr::Le(Box::new(substitute_expr(l, subst, n)), Box::new(substitute_expr(r, subst, n))),
        SymBoolExpr::Ge(l, r) => SymBoolExpr::Ge(Box::new(substitute_expr(l, subst, n)), Box::new(substitute_expr(r, subst, n))),
        SymBoolExpr::Eq(l, r) => SymBoolExpr::Eq(Box::new(substitute_expr(l, subst, n)), Box::new(substitute_expr(r, subst, n))),
    }
}

/// The constraints with all let definitions substituted.
fn apply_substitution(constraints: &[(SymBoolExpr, bool)], subst: &Subst) -> (r: Vec<(SymBoolExpr, bool)>)
    ensures
        constraints_view(r@) == subst_constraints(constraints_view(constraints@), lets_view(subst@)),
{
    let ghost lv = lets_view(subst@);
    let ghost cs = constraints_view(constraints@);
    proof {
        assert(lv.take(subst@.len() as int) =~= lv);
    }
    let mut out: Vec<(SymBoolExpr, bool)> = Vec::new();
    let mut i: usize = 0;
    while i < constraints.len()
        invariant
            i <= constraints@.len(),
            lv == lets_view(subst@),
            lv.take(subst@.len() as int) == lv,
            cs == constraints_view(constraints@),
            constraints_view(out@) == subst_constraints(cs, lv).take(i as int),
        decreases constraints.len() - i,
    {
        let (c, t) = &constraints[i];
        let c2 = substitute_bool_expr(c, subst, subst.len());
        let ghost before = out@;
        out.push((c2, *t));
        assert(constraints_view(out@) =~= subst_constraints(cs, lv).take(i + 1)) by {
            assert(constraints_view(out@) =~= constraints_view(before).push((c2@, *t)));
        }
        i = i + 1;
    }
    assert(subst_constraints(cs, lv).take(i as int) =~= subst_constraints(cs, lv));
    out
}

/// The constraints for exploring the alternative of branch `i`: the
/// constraints before `i` unchanged, then constraint `i` with its direction
/// flipped. Constraints after `i` are dropped, since the other branch may
/// meet different conditions or none at all.
pub fn negate_at(constraints: &[(SymBoolExpr, bool)], i: usize) -> (r: Vec<(SymBoolExpr, bool)>)
    requires
        i <= constraints@.len(),
    ensures
        constraints_view(r@) == negated(constraints_view(constraints@), i as int),
{
    let ghost cs = constraints_view(constraints@);
    let mut out: Vec<(SymBoolExpr, bool)> = Vec::new();
    let mut k: usize = 0;
    while k < i
        invariant
            k <= i <= constraints@.len(),
            cs == constraints_view(constraints@),
            constraints_view(out@) == cs.take(k as int),
        decreases i - k,
    {
        let (c, t) = &constraints[k];
        let ghost before = out@;
        out.push((c.duplicate(), *t));
        assert(constraints_view(out@) =~= cs.take(k + 1)) by {
            assert(constraints_view(out@) =~= constraints_view(before).push((c@, *t)));
        }
        k = k + 1;
    }
    if i < constraints.len() {
        let (c, t) = &constraints[i];
        let ghost before = out@;
        out.push((c.duplicate(), !*t));
        assert(constraints_view(out@) =~= constraints_view(before).push((c@, !*t)));
    }
    out
}

} // verus!

verus! {

use crate::env::Env;
use crate::node::{SsaVersion, add_new, lemma_add_new_set, lemma_sym_bool_eval_value};
use crate::state::ExecutionTrace;
use crate::text::{insert_sorted, lemma_push_to_set, strictly_sorted, strings_view};

// ---------------------------------------------------------------------------
// What the solver answers
// ---------------------------------------------------------------------------

/// The let-defined variables as written, `name@version`.
pub open spec fn let_texts(lets: Seq<(SsaVarModel, SymExprModel)>) -> Set<Seq<char>> {
    Set::new(|t: Seq<char>| exists|i: int| 0 <= i < lets.len() && ssa_text(lets[i].0) == t)
}

/// The base names that occur in constraints.
pub open spec fn constraint_names(cs: Seq<(SymBoolExprModel, bool)>) -> Set<Seq<char>> {
    Set::new(|x: Seq<char>| exists|i: int| 0 <= i < cs.len() && (#[trigger] cs[i]).0.names().contains(x))
}

/// The names the solver draws values for: the bound names and the names of
/// the remaining constraints, except the let-defined variables as written.
pub open spec fn sampled_names(
    cs: Seq<(SymBoolExprModel, bool)>,
    lets: Seq<(SsaVarModel, SymExprModel)>,
) -> Set<Seq<char>> {
    bounds_of(cs).dom().union(constraint_names(remaining_of(cs))).difference(let_texts(lets))
}

/// The bound of `x` in `m`, or no bound.
pub open spec fn bound_of(m: Map<Seq<char>, BoundModel>, x: Seq<char>) -> BoundModel {
    if m.contains_key(x) { m[x] } else { empty_bound() }
}

/// Whether `v` can be drawn for the bound `b`: it lies in the range values
/// are drawn from and is not excluded.
pub open spec fn drawable(b: BoundModel, v: i64) -> bool {
    b.sample_low() <= v <= b.sample_high() && !b.excluded.contains(v)
}

/// Whether every name of `names` has a value that can be drawn for its
/// bound in `m`.
pub open spec fn all_drawable(m: Map<Seq<char>, BoundModel>, names: Set<Seq<char>>) -> bool {
    forall|x: Seq<char>| names.contains(x) ==> exists|v: i64| #[trigger] drawable(bound_of(m, x), v)
}

/// Whether every constraint of `s` evaluates, with 64-bit arithmetic, to
/// its recorded direction.
pub open spec fn all_eval_hold(s: Seq<(SymBoolExprModel, bool)>, env: Map<Seq<char>, i64>) -> bool {
    forall|i: int| 0 <= i < s.len() ==> (#[trigger] s[i]).0.eval(env) == Eval::Val(s[i].1)
}

/// Whether `env` is an answer the solver can give for `cs`: it binds
/// exactly the sampled names, each to a value drawable from its bound, and
/// every remaining constraint holds in it.
pub open spec fn is_solution(
    cs: Seq<(SymBoolExprModel, bool)>,
    lets: Seq<(SsaVarModel, SymExprModel)>,
    env: Map<Seq<char>, i64>,
) -> bool {
    &&& env.dom() == sampled_names(cs, lets)
    &&& forall|x: Seq<char>| #[trigger] env.contains_key(x) ==> drawable(bound_of(bounds_of(cs), x), env[x])
    &&& all_eval_hold(remaining_of(cs), env)
}

/// The outcomes that solving `cs` with `attempts` attempts may have.
///
/// `Unsatisfiable` exactly when an extracted bound is contradictory;
/// otherwise a solution, or `MaxAttemptsExceeded`. No attempt is made when
/// `attempts` is 0; when nothing is to be sampled, the one candidate is the
/// empty environment, and it is the answer exactly when it satisfies the
/// remaining constraints. When no constraint remains beside the bounds and
/// every sampled name has a value that can be drawn, every draw succeeds and
/// a solution is owed.
pub open spec fn solve_outcome(
    cs: Seq<(SymBoolExprModel, bool)>,
    lets: Seq<(SsaVarModel, SymExprModel)>,
    attempts: nat,
    r: Result<Env, SolverError>,
) -> bool {
    &&& match r {
        Ok(env) => all_satisfiable(bounds_of(cs)) && is_solution(cs, lets, env@),
        Err(SolverError::Unsatisfiable) => !all_satisfiable(bounds_of(cs)),
        Err(SolverError::MaxAttemptsExceeded) => all_satisfiable(bounds_of(cs)) && !(attempts > 0
            && sampled_names(cs, lets).is_empty() && all_eval_hold(remaining_of(cs), Map::empty())),
    }
    &&& (attempts == 0 ==> r is Err)
    &&& (attempts > 0 && all_satisfiable(bounds_of(cs)) && remaining_of(cs).len() == 0
        && all_drawable(bounds_of(cs), sampled_names(cs, lets)) ==> r is Ok)
}

// ---------------------------------------------------------------------------
// Evaluation of constraints
// ---------------------------------------------------------------------------

/// Evaluates an SSA expression in `env`, reading variables by base name;
/// `None` when a variable reached is unbound or a result leaves `i64`.
fn eval_symbolic(e: &SymExpr, env: &Env) -> (r: Option<i64>)
    ensures
        match r {
            Some(v) => e@.eval(env@) == Eval::Val(v),
            None => !(e@.eval(env@) is Val),
        },
    decreases e,
{
    match e {
        SE::Lit(n) => Some(*n),
        SE::Var(v) => match env.lookup(&v.name) {
            Some(x) => Some(*x),
            None => None,
        },
        SE::Add(l, r) => match eval_symbolic(l, env) {
            Some(a) => match eval_symbolic(r, env) {
                Some(b) => a.checked_add(b),
                None => None,
            },
            None => None,
        },
        SE::Sub(l, r) => match eval_symbolic(l, env) {
            Some(a) => match eval_symbolic(r, env) {
                Some(b) => a.checked_sub(b),
                None => None,
            },
            None => None,
        },
        SE::If(c, b) => match eval_symbolic_bool(c, env) {
            Some(cv) => match b {
                SymIfBranches::ThenTaken { then_, else_ } => if cv {
                    eval_symbolic(then_, env)
                } else {
                    else_.try_eval(env)
                },
                SymIfBranches::ElseTaken { then_, else_ } => if cv {
                    then_.try_eval(env)
                } else {
                    eval_symbolic(else_, env)
                },
            },
            None => None,
        },
    }
}

/// Evaluates an SSA condition in `env`.
fn eval_symbolic_bool(c: &SymBoolExpr, env: &Env) -> (r: Option<bool>)
    ensures
        match r {
            Some(v) => c@.eval(env@) == Eval::Val(v),
            None => !(c@.eval(env@) is Val),
        },
    decreases c,
{
    let (l, r) = match c {
        SymBoolExpr::Lit(b) => {
            return Some(*b);
        },
        SymBoolExpr::Le(l, r) | SymBoolExpr::Ge(l, r) | SymBoolExpr::Eq(l, r) => (l, r),
    };
    let a = match eval_symbolic(l, env) {
        Some(a) => a,
        None => {
            return None;
        },
    };
    let b = match eval_symbolic(r, env) {
        Some(b) => b,
        None => {
            return None;
        },
    };
    match c {
        SymBoolExpr::Le(_, _) => Some(a <= b),
        SymBoolExpr::Ge(_, _) => Some(a >= b),
        _ => Some(a == b),
    }
}

/// Whether every constraint evaluates in `env` to its recorded direction.
fn check_remaining(remaining: &[(SymBoolExpr, bool)], env: &Env) -> (r: bool)
    ensures
        r == all_eval_hold(constraints_view(remaining@), env@),
{
    let ghost cs = constraints_view(remaining@);
    let mut i: usize = 0;
    while i < remaining.len()
        invariant
            i <= remaining@.len(),
            cs == constraints_view(remaining@),
            forall|k: int| 0 <= k < i ==> (#[trigger] cs[k]).0.eval(env@) == Eval::Val(cs[k].1),
        decreases remaining.len() - i,
    {
        let (c, expected) = &remaining[i];
        assert(cs[i as int] == (c@, *expected));
        match eval_symbolic_bool(c, env) {
            Some(v) => {
                if v != *expected {
                    return false;
                }
            },
            None => {
                return false;
            },
        }
        i = i + 1;
    }
    true
}

/// Whether `name` is a let-defined variable as written (`name@version`).
fn is_let_text(subst: &Subst, name: &String) -> (r: bool)
    ensures
        r == let_texts(lets_view(subst@)).contains(name@),
{
    let ghost lv = lets_view(subst@);
    let mut i: usize = 0;
    while i < subst.len()
        invariant
            i <= subst@.len(),
            lv == lets_view(subst@),
            forall|k: int| 0 <= k < i ==> ssa_text(#[trigger] lv[k].0) != name@,
        decreases subst.len() - i,
    {
        let t = subst[i].0.to_string();
        assert(lv[i as int].0 == subst@[i as int].0@);
        if t == *name {
            return true;
        }
        i = i + 1;
    }
    false
}

// ---------------------------------------------------------------------------
// The solver
// ---------------------------------------------------------------------------


/// The names to sample, in ascending order without repeats: those bound in
/// `bounds` and those of the remaining constraints, except the let-defined
/// variables as written.
fn sample_variables(bounds: &Bounds, remaining: &Vec<(SymBoolExpr, bool)>, subst: &Subst) -> (r: Vec<String>)
    ensures
        strictly_sorted(strings_view(r@)),
        strings_view(r@).to_set() == bounds@.dom().union(constraint_names(constraints_view(remaining@)))
            .difference(let_texts(lets_view(subst@))),
{
    let ghost rc = constraints_view(remaining@);
    let mut vars = bounds.names();
    let mut i: usize = 0;
    while i < remaining.len()
        invariant
            i <= remaining@.len(),
            rc == constraints_view(remaining@),
            strings_view(vars@).to_set() == bounds@.dom().union(constraint_names(rc.take(i as int))),
        decreases remaining.len() - i,
    {
        let ghost acc = strings_view(vars@);
        remaining[i].0.collect_variables(&mut vars);
        proof {
            let ns = rc[i as int].0.names();
            assert(rc[i as int].0 == remaining@[i as int].0@);
            lemma_add_new_set(acc, ns);
            assert(constraint_names(rc.take(i + 1)) =~= constraint_names(rc.take(i as int)).union(ns.to_set())) by {
                assert forall|x: Seq<char>| constraint_names(rc.take(i + 1)).contains(x)
                    <==> constraint_names(rc.take(i as int)).union(ns.to_set()).contains(x) by {
                    if constraint_names(rc.take(i + 1)).contains(x) {
                        let k = choose|k: int| 0 <= k < rc.take(i + 1).len() && (#[trigger] rc.take(i + 1)[k]).0.names().contains(x);
                        if k < i {
                            assert(rc.take(i as int)[k] == rc.take(i + 1)[k]);
                        }
                    }
                    if constraint_names(rc.take(i as int)).contains(x) {
                        let k = choose|k: int| 0 <= k < rc.take(i as int).len() && (#[trigger] rc.take(i as int)[k]).0.names().contains(x);
                        assert(rc.take(i as int)[k] == rc.take(i + 1)[k]);
                    }
                    if ns.to_set().contains(x) {
                        assert(rc.take(i + 1)[i as int] == rc[i as int]);
                    }
                }
            }
        }
        i = i + 1;
    }
    proof {
        assert(rc.take(i as int) =~= rc);
    }
    let ghost all = strings_view(vars@);
    let ghost keys = let_texts(lets_view(subst@));
    let mut out: Vec<String> = Vec::new();
    let mut j: usize = 0;
    while j < vars.len()
        invariant
            j <= vars@.len(),
            all == strings_view(vars@),
            keys == let_texts(lets_view(subst@)),
            strictly_sorted(strings_view(out@)),
            strings_view(out@).to_set() == all.take(j as int).to_set().difference(keys),
        decreases vars.len() - j,
    {
        assert(all.take(j + 1) =~= all.take(j as int).push(vars@[j as int]@));
        if !is_let_text(subst, &vars[j]) {
            insert_sorted(&mut out, vars[j].clone());
        }
        proof {
            let t0 = all.take(j as int);
            let t1 = all.take(j + 1);
            lemma_push_to_set(t0, vars@[j as int]@);
            assert(t1 == t0.push(vars@[j as int]@));
            assert(strings_view(out@).to_set() =~= t1.to_set().difference(keys));
        }
        j = j + 1;
    }
    proof {
        assert(all.take(j as int) =~= all);
    }
    out
}

/// Solver for path constraints, by bound extraction and rejection sampling.
pub struct Solver {
    rng: StdRng,
    max_attempts: usize,
}

impl Solver {
    /// The number of sampling attempts the solver makes for one problem.
    pub closed spec fn attempts(self) -> nat {
        self.max_attempts as nat
    }

    /// A solver that draws from `rng` and makes `max_attempts` attempts per
    /// problem.
    pub fn new(rng: StdRng, max_attempts: usize) -> (r: Solver)
        ensures
            r.attempts() == max_attempts,
    {
        Solver { rng, max_attempts }
    }

    /// Draws environments for `variables` until one satisfies the remaining
    /// constraints, making at most the solver's number of attempts.
    ///
    /// Each variable is drawn from its bound; an attempt in which some bound
    /// admits no value is abandoned.
    fn sample(&mut self, bounds: &Bounds, remaining: &[(SymBoolExpr, bool)], variables: &Vec<String>) -> (r: Result<Env, SolverError>)
        ensures
            final(self).attempts() == old(self).attempts(),
            match r {
                Ok(env) => env@.dom() == strings_view(variables@).to_set()
                    && (forall|x: Seq<char>| #[trigger] env@.contains_key(x)
                        ==> drawable(bound_of(bounds_view(bounds@), x), env@[x]))
                    && all_eval_hold(constraints_view(remaining@), env@),
                Err(e) => e == SolverError::MaxAttemptsExceeded,
            },
            old(self).attempts() == 0 ==> r is Err,
            (old(self).attempts() > 0 && variables@.len() == 0) ==> (r is Ok
                <==> all_eval_hold(constraints_view(remaining@), Map::empty())),
            (old(self).attempts() > 0 && remaining@.len() == 0
                && all_drawable(bounds_view(bounds@), strings_view(variables@).to_set())) ==> r is Ok,
    {
        let ghost m = bounds_view(bounds@);
        let ghost names = strings_view(variables@);
        let ghost owed = old(self).attempts() > 0 && remaining@.len() == 0 && all_drawable(m, names.to_set());
        let mut attempt: usize = 0;
        while attempt < self.max_attempts
            invariant
                self.attempts() == old(self).attempts(),
                attempt <= self.max_attempts,
                m == bounds_view(bounds@),
                names == strings_view(variables@),
                (attempt > 0 && variables@.len() == 0) ==> !all_eval_hold(constraints_view(remaining@), Map::empty()),
                owed == (old(self).attempts() > 0 && remaining@.len() == 0 && all_drawable(m, names.to_set())),
                owed ==> attempt == 0,
            decreases self.max_attempts - attempt,
        {
            let mut env: Env = NameMap::new();
            let mut complete = true;
            let mut i: usize = 0;
            while i < variables.len()
                invariant_except_break
                    i <= variables@.len(),
                    complete,
                    env@.dom() == names.take(i as int).to_set(),
                invariant
                    m == bounds_view(bounds@),
                    names == strings_view(variables@),
                    self.attempts() == old(self).attempts(),
                    forall|x: Seq<char>| #[trigger] env@.contains_key(x) ==> drawable(bound_of(m, x), env@[x]),
                    owed ==> all_drawable(m, names.to_set()),
                ensures
                    complete ==> i == variables@.len() && env@.dom() == names.take(i as int).to_set(),
                    variables@.len() == 0 ==> complete,
                    owed ==> complete,
                decreases variables.len() - i,
            {
                let name = &variables[i];
                let drawn = match bounds.lookup(name) {
                    Some(b) => {
                        proof {
                            assert(m.contains_key(name@));
                            assert(m[name@] == b@);
                        }
                        b.sample(&mut self.rng)
                    },
                    None => Bound::new().sample(&mut self.rng),
                };
                match drawn {
                    Some(v) => {
                        env.insert(name.clone(), v);
                        proof {
                            let t0 = names.take(i as int);
                            let t1 = names.take(i + 1);
                            assert(t1 =~= t0.push(name@));
                            lemma_push_to_set(t0, name@);
                            assert(env@.dom() =~= t1.to_set());
                        }
                    },
                    None => {
                        proof {
                            if owed {
                                assert(names[i as int] == name@);
                                assert(names.to_set().contains(name@));
                                let v = choose|v: i64| #[trigger] drawable(bound_of(m, name@), v);
                                assert(drawable(bound_of(m, name@), v));
                            }
                        }
                        complete = false;
                        break;
                    },
                }
                i = i + 1;
            }
            proof {
                if complete {
                    assert(names.take(i as int) =~= names);
                }
            }
            if complete && check_remaining(remaining, &env) {
                proof {
                    if variables@.len() == 0 {
                        assert(env@ =~= Map::<Seq<char>, i64>::empty());
                    }
                }
                return Ok(env);
            }
            proof {
                if variables@.len() == 0 {
                    assert(complete);
                    assert(env@ =~= Map::<Seq<char>, i64>::empty());
                }
            }
            attempt = attempt + 1;
        }
        Err(SolverError::MaxAttemptsExceeded)
    }
}

impl Solver {
    /// Solves constraints whose let definitions are already substituted;
    /// `subst` names the let-defined variables, which are not sampled.
    fn solve(&mut self, constraints: &[(SymBoolExpr, bool)], subst: &Subst) -> (r: Result<Env, SolverError>)
        ensures
            final(self).attempts() == old(self).attempts(),
            solve_outcome(constraints_view(constraints@), lets_view(subst@), old(self).attempts(), r),
    {
        let ghost cs = constraints_view(constraints@);
        let ghost lets = lets_view(subst@);
        let (bounds, remaining) = match extract_bounds(constraints) {
            Ok(p) => p,
            Err(e) => {
                return Err(e);
            },
        };
        let variables = sample_variables(&bounds, &remaining, subst);
        proof {
            assert(bounds_view(bounds@).dom() =~= bounds@.dom());
            assert(strings_view(variables@).to_set() == sampled_names(cs, lets));
            if variables@.len() > 0 {
                assert(strings_view(variables@).to_set().contains(strings_view(variables@)[0]));
            }
        }
        self.sample(&bounds, remaining.as_slice(), &variables)
    }

    /// Looks for an input that takes the other direction at branch `index`
    /// of a run, with the same directions at the branches before it.
    pub fn find_alternative(&mut self, trace: &ExecutionTrace, index: usize) -> (r: Result<Env, SolverError>)
        requires
            index <= trace.path_constraints@.len(),
        ensures
            final(self).attempts() == old(self).attempts(),
            solve_outcome(
                subst_constraints(
                    negated(constraints_view(trace.path_constraints@), index as int),
                    lets_view(trace.let_constraints@),
                ),
                lets_view(trace.let_constraints@),
                old(self).attempts(),
                r,
            ),
    {
        let constraints = negate_at(trace.path_constraints.as_slice(), index);
        let expanded = apply_substitution(constraints.as_slice(), &trace.let_constraints);
        self.solve(expanded.as_slice(), &trace.let_constraints)
    }

    /// Looks for an input that follows the same path as a run and makes the
    /// assertion `ssa_assertion` (in the SSA form of that run) false.
    pub fn find_counterexample(&mut self, trace: &ExecutionTrace, ssa_assertion: &SymBoolExpr) -> (r: Result<Env, SolverError>)
        ensures
            final(self).attempts() == old(self).attempts(),
            solve_outcome(
                subst_constraints(
                    constraints_view(trace.path_constraints@).push((ssa_assertion@, false)),
                    lets_view(trace.let_constraints@),
                ),
                lets_view(trace.let_constraints@),
                old(self).attempts(),
                r,
            ),
    {
        let mut constraints = copy_constraints(trace.path_constraints.as_slice());
        let ghost before = constraints@;
        constraints.push((ssa_assertion.duplicate(), false));
        assert(constraints_view(constraints@) =~= constraints_view(before).push((ssa_assertion@, false)));
        let expanded = apply_substitution(constraints.as_slice(), &trace.let_constraints);
        self.solve(expanded.as_slice(), &trace.let_constraints)
    }
}

/// A copy of a list of constraints.
fn copy_constraints(constraints: &[(SymBoolExpr, bool)]) -> (r: Vec<(SymBoolExpr, bool)>)
    ensures
        constraints_view(r@) == constraints_view(constraints@),
{
    let ghost cs = constraints_view(constraints@);
    let mut out: Vec<(SymBoolExpr, bool)> = Vec::new();
    let mut k: usize = 0;
    while k < constraints.len()
        invariant
            k <= constraints@.len(),
            cs == constraints_view(constraints@),
            constraints_view(out@) == cs.take(k as int),
        decreases constraints.len() - k,
    {
        let (c, t) = &constraints[k];
        let ghost before = out@;
        out.push((c.duplicate(), *t));
        assert(constraints_view(out@) =~= cs.take(k + 1)) by {
            assert(constraints_view(out@) =~= constraints_view(before).push((c@, *t)));
        }
        k = k + 1;
    }
    assert(cs.take(k as int) =~= cs);
    out
}

// ---------------------------------------------------------------------------
// Laws of the solver
// ---------------------------------------------------------------------------

/// An answer of the solver satisfies every constraint that is not a
/// literal, provided no bound variable is written like a let-defined one.
pub proof fn lemma_solution_satisfies(
    cs: Seq<(SymBoolExprModel, bool)>,
    lets: Seq<(SsaVarModel, SymExprModel)>,
    env: Map<Seq<char>, i64>,
)
    requires
        is_solution(cs, lets, env),
        forall|x: Seq<char>| #[trigger] bounds_of(cs).contains_key(x) ==> !let_texts(lets).contains(x),
    ensures
        nonlit_hold(cs, env),
{
    let m = bounds_of(cs);
    let rem = remaining_of(cs);
    lemma_extract_bounds_exact(cs, env);
    assert forall|x: Seq<char>| #[trigger] m.contains_key(x) implies env.contains_key(x) && m[x].admits(env[x] as int) by {
        assert(sampled_names(cs, lets).contains(x));
        assert(drawable(bound_of(m, x), env[x]));
    }
    assert forall|i: int| 0 <= i < rem.len() implies (#[trigger] rem[i]).0.value(env) == Some(rem[i].1) by {
        lemma_sym_bool_eval_value(rem[i].0, env);
    }
}

/// When extraction finds a contradictory bound, no environment satisfies
/// the constraints that are not literals.
pub proof fn lemma_unsatisfiable_bound(cs: Seq<(SymBoolExprModel, bool)>, env: Map<Seq<char>, i64>)
    requires
        !all_satisfiable(bounds_of(cs)),
    ensures
        !nonlit_hold(cs, env),
{
    lemma_extract_bounds_exact(cs, env);
    let x = choose|x: Seq<char>| bounds_of(cs).contains_key(x) && !bounds_of(cs)[x].satisfiable();
    if nonlit_hold(cs, env) {
        assert(bounds_of(cs)[x].admits(env[x] as int));
    }
}

} // verus!
