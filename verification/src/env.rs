//! Maps keyed by variable name: environments, bounds and shape environments.
use vstd::prelude::*;
use crate::text::owned;

verus! {

/// The map denoted by a list of `(name, value)` entries; a later entry for a
/// name overrides an earlier one.
pub open spec fn map_of<V>(s: Seq<(String, V)>) -> Map<Seq<char>, V>
    decreases s.len(),
{
    if s.len() == 0 {
        Map::empty()
    } else {
        map_of(s.drop_last()).insert(s.last().0@, s.last().1)
    }
}

/// The names of a list of entries, in order.
pub open spec fn keys_of<V>(s: Seq<(String, V)>) -> Seq<Seq<char>> {
    s.map_values(|e: (String, V)| e.0@)
}

/// No name occurs twice in the entries.
pub open spec fn distinct_keys<V>(s: Seq<(String, V)>) -> bool {
    forall|i: int, j: int| 0 <= i < j < s.len() ==> s[i].0@ != s[j].0@
}

proof fn lemma_map_of_contains<V>(s: Seq<(String, V)>, k: Seq<char>)
    ensures
        map_of(s).contains_key(k) <==> exists|i: int| 0 <= i < s.len() && s[i].0@ == k,
    decreases s.len(),
{
    if s.len() > 0 {
        lemma_map_of_contains(s.drop_last(), k);
        if map_of(s).contains_key(k) && k != s.last().0@ {
            let i = choose|i: int| 0 <= i < s.drop_last().len() && s.drop_last()[i].0@ == k;
            assert(s[i].0@ == k);
        }
        if exists|i: int| 0 <= i < s.len() && s[i].0@ == k {
            let i = choose|i: int| 0 <= i < s.len() && s[i].0@ == k;
            if i < s.len() - 1 {
                assert(s.drop_last()[i].0@ == k);
            }
        }
    }
}

proof fn lemma_map_of_value<V>(s: Seq<(String, V)>, i: int)
    requires
        distinct_keys(s),
        0 <= i < s.len(),
    ensures
        map_of(s).contains_key(s[i].0@),
        map_of(s)[s[i].0@] == s[i].1,
    decreases s.len(),
{
    if i < s.len() - 1 {
        assert(distinct_keys(s.drop_last()));
        assert(s.drop_last()[i] == s[i]);
        lemma_map_of_value(s.drop_last(), i);
    }
}

proof fn lemma_map_of_update<V>(s: Seq<(String, V)>, i: int, e: (String, V))
    requires
        distinct_keys(s),
        0 <= i < s.len(),
        e.0@ == s[i].0@,
    ensures
        distinct_keys(s.update(i, e)),
        map_of(s.update(i, e)) == map_of(s).insert(e.0@, e.1),
{
    let t = s.update(i, e);
    assert(distinct_keys(t));
    assert forall|k: Seq<char>| #[trigger] map_of(t).contains_key(k) == map_of(s).insert(e.0@, e.1).contains_key(k) by {
        lemma_map_of_contains(t, k);
        lemma_map_of_contains(s, k);
        if exists|j: int| 0 <= j < s.len() && s[j].0@ == k {
            let j = choose|j: int| 0 <= j < s.len() && s[j].0@ == k;
            assert(t[j].0@ == k);
        }
        if exists|j: int| 0 <= j < t.len() && t[j].0@ == k {
            let j = choose|j: int| 0 <= j < t.len() && t[j].0@ == k;
            assert(s[j].0@ == k);
        }
    }
    assert forall|k: Seq<char>| map_of(t).contains_key(k) implies #[trigger] map_of(t)[k] == map_of(s).insert(e.0@, e.1)[k] by {
        lemma_map_of_contains(t, k);
        let j = choose|j: int| 0 <= j < t.len() && t[j].0@ == k;
        lemma_map_of_value(t, j);
        if j != i {
            lemma_map_of_value(s, j);
        }
    }
    assert(map_of(t) =~= map_of(s).insert(e.0@, e.1));
}

proof fn lemma_keys<V>(s: Seq<(String, V)>)
    requires
        distinct_keys(s),
    ensures
        keys_of(s).no_duplicates(),
        keys_of(s).to_set() == map_of(s).dom(),
        map_of(s).dom().finite(),
        map_of(s).dom().len() == s.len(),
{
    assert forall|k: Seq<char>| keys_of(s).to_set().contains(k) == map_of(s).dom().contains(k) by {
        lemma_map_of_contains(s, k);
        if keys_of(s).contains(k) {
            let i = choose|i: int| 0 <= i < keys_of(s).len() && keys_of(s)[i] == k;
            assert(s[i].0@ == k);
        }
        if exists|i: int| 0 <= i < s.len() && s[i].0@ == k {
            let i = choose|i: int| 0 <= i < s.len() && s[i].0@ == k;
            assert(keys_of(s)[i] == k);
        }
    }
    assert(keys_of(s).to_set() =~= map_of(s).dom());
    keys_of(s).unique_seq_to_set();
}

/// A finite map from variable names to values of type `V`.
#[derive(Debug)]
pub struct NameMap<V> {
    entries: Vec<(String, V)>,
}

/// Environment mapping variable names to concrete values.
pub type Env = NameMap<i64>;

impl<V> View for NameMap<V> {
    type V = Map<Seq<char>, V>;

    closed spec fn view(&self) -> Map<Seq<char>, V> {
        map_of(self.entries@)
    }
}

impl<V> NameMap<V> {
    #[verifier::type_invariant]
    closed spec fn inv(self) -> bool {
        distinct_keys(self.entries@)
    }

    /// The names of the map in storage order.
    pub closed spec fn key_seq(self) -> Seq<Seq<char>> {
        keys_of(self.entries@)
    }

    /// An empty map.
    pub fn new() -> (r: Self)
        ensures
            r@ == Map::<Seq<char>, V>::empty(),
    {
        NameMap { entries: Vec::new() }
    }

    fn index_of(&self, name: &String) -> (r: Option<usize>)
        ensures
            match r {
                Some(i) => i < self.entries@.len() && self.entries@[i as int].0@ == name@,
                None => forall|i: int| 0 <= i < self.entries@.len() ==> self.entries@[i].0@ != name@,
            },
    {
        let mut i: usize = 0;
        while i < self.entries.len()
            invariant
                i <= self.entries@.len(),
                forall|j: int| 0 <= j < i ==> self.entries@[j].0@ != name@,
            decreases self.entries.len() - i,
        {
            if self.entries[i].0 == *name {
                return Some(i);
            }
            i = i + 1;
        }
        None
    }

    /// The value bound to `name`, if any.
    pub fn lookup(&self, name: &String) -> (r: Option<&V>)
        ensures
            match r {
                Some(v) => self@.contains_key(name@) && *v == self@[name@],
                None => !self@.contains_key(name@),
            },
    {
        proof {
            use_type_invariant(self);
            lemma_map_of_contains(self.entries@, name@);
        }
        match self.index_of(name) {
            Some(i) => {
                proof {
                    lemma_map_of_value(self.entries@, i as int);
                }
                Some(&self.entries[i].1)
            },
            None => None,
        }
    }

    /// The value bound to `name`, if any.
    pub fn get(&self, name: &str) -> (r: Option<&V>)
        ensures
            match r {
                Some(v) => self@.contains_key(name@) && *v == self@[name@],
                None => !self@.contains_key(name@),
            },
    {
        let key = owned(name);
        self.lookup(&key)
    }

    /// Whether `name` is bound.
    pub fn contains_key(&self, name: &str) -> (r: bool)
        ensures
            r == self@.contains_key(name@),
    {
        self.get(name).is_some()
    }

    /// Binds `name` to `value`, replacing any earlier binding.
    pub fn insert(&mut self, name: String, value: V)
        ensures
            final(self)@ == old(self)@.insert(name@, value),
            forall|k: Seq<char>| old(self).key_seq().contains(k) ==> final(self).key_seq().contains(k),
    {
        proof {
            use_type_invariant(&*self);
        }
        let pos = self.index_of(&name);
        let mut entries = Vec::new();
        std::mem::swap(&mut entries, &mut self.entries);
        let ghost old_entries = entries@;
        match pos {
            Some(i) => {
                proof {
                    lemma_map_of_update(old_entries, i as int, (name, value));
                }
                entries.set(i, (name, value));
                assert forall|k: Seq<char>| keys_of(old_entries).contains(k) implies keys_of(entries@).contains(k) by {
                    let j = choose|j: int| 0 <= j < keys_of(old_entries).len() && keys_of(old_entries)[j] == k;
                    assert(keys_of(entries@)[j] == k);
                }
            },
            None => {
                entries.push((name, value));
                assert(entries@.drop_last() == old_entries);
                assert forall|k: Seq<char>| keys_of(old_entries).contains(k) implies keys_of(entries@).contains(k) by {
                    let j = choose|j: int| 0 <= j < keys_of(old_entries).len() && keys_of(old_entries)[j] == k;
                    assert(keys_of(entries@)[j] == k);
                }
            },
        }
        self.entries = entries;
    }

    /// Number of bound names.
    pub fn len(&self) -> (r: usize)
        ensures
            r == self@.dom().len(),
    {
        proof {
            use_type_invariant(self);
            lemma_keys(self.entries@);
        }
        self.entries.len()
    }

    /// Whether no name is bound.
    pub fn is_empty(&self) -> (r: bool)
        ensures
            r == (self@.dom().len() == 0),
    {
        self.len() == 0
    }

    /// The bound names, each once, in storage order.
    pub fn names(&self) -> (r: Vec<String>)
        ensures
            r@.map_values(|s: String| s@) == self.key_seq(),
            self.key_seq().no_duplicates(),
            self.key_seq().to_set() == self@.dom(),
    {
        proof {
            use_type_invariant(self);
            lemma_keys(self.entries@);
        }
        let mut out: Vec<String> = Vec::new();
        let mut i: usize = 0;
        while i < self.entries.len()
            invariant
                i <= self.entries@.len(),
                out@.map_values(|s: String| s@) == keys_of(self.entries@).take(i as int),
            decreases self.entries.len() - i,
        {
            out.push(self.entries[i].0.clone());
            assert(keys_of(self.entries@).take(i + 1) == keys_of(self.entries@).take(i as int).push(self.entries@[i as int].0@));
            assert(out@.map_values(|s: String| s@) =~= keys_of(self.entries@).take(i + 1));
            i = i + 1;
        }
        assert(keys_of(self.entries@).take(i as int) == keys_of(self.entries@));
        out
    }
}

/// Builds an environment from `(name, value)` pairs; a later pair for a name
/// overrides an earlier one.
pub open spec fn pairs_map<V>(pairs: Seq<(String, V)>) -> Map<Seq<char>, V> {
    map_of(pairs)
}

impl<V> NameMap<V> {
    /// Builds a map from `(name, value)` pairs; a later pair for a name
    /// overrides an earlier one.
    pub fn from_pairs(pairs: Vec<(String, V)>) -> (r: Self)
        ensures
            r@ == pairs_map(pairs@),
    {
        let mut m = NameMap::new();
        let mut pairs = pairs;
        let ghost all = pairs@;
        let mut rest: Vec<(String, V)> = Vec::new();
        // Reverse so that pairs can be taken from the front in order.
        while pairs.len() > 0
            invariant
                rest@ + pairs@.reverse() == all.reverse(),
            decreases pairs.len(),
        {
            let p = pairs.pop().unwrap();
            rest.push(p);
            assert(rest@ + pairs@.reverse() =~= all.reverse());
        }
        assert(rest@ =~= all.reverse());
        while rest.len() > 0
            invariant
                m@ == map_of(all.take(all.len() - rest@.len())),
                rest@ == all.reverse().take(rest@.len() as int),
                rest@.len() <= all.len(),
            decreases rest.len(),
        {
            let ghost n = all.len() - rest@.len();
            let p = rest.pop().unwrap();
            assert(p == all[n]);
            assert(all.take(n + 1).drop_last() == all.take(n));
            m.insert(p.0, p.1);
            assert(rest@ =~= all.reverse().take(rest@.len() as int));
        }
        assert(all.take(all.len() as int) == all);
        m
    }
}

impl PartialEq for NameMap<i64> {
    /// Whether the two maps bind the same names to the same values, in
    /// whatever order they were inserted.
    fn eq(&self, other: &Self) -> (r: bool) {
        proof {
            use_type_invariant(self);
            use_type_invariant(other);
            lemma_keys(self.entries@);
            lemma_keys(other.entries@);
        }
        if self.entries.len() != other.entries.len() {
            return false;
        }
        let mut i: usize = 0;
        while i < self.entries.len()
            invariant
                i <= self.entries@.len(),
                distinct_keys(self.entries@),
                forall|j: int| 0 <= j < i ==> other@.contains_key(#[trigger] self.entries@[j].0@)
                    && other@[self.entries@[j].0@] == self.entries@[j].1,
            decreases self.entries.len() - i,
        {
            let name = &self.entries[i].0;
            let value = self.entries[i].1;
            proof {
                lemma_map_of_value(self.entries@, i as int);
            }
            match other.lookup(name) {
                Some(v) => {
                    if *v != value {
                        return false;
                    }
                },
                None => {
                    return false;
                },
            }
            i = i + 1;
        }
        proof {
            let a = self@;
            let b = other@;
            assert forall|k: Seq<char>| a.contains_key(k) implies b.contains_key(k) && b[k] == a[k] by {
                lemma_map_of_contains(self.entries@, k);
                let j = choose|j: int| 0 <= j < self.entries@.len() && self.entries@[j].0@ == k;
                lemma_map_of_value(self.entries@, j);
            }
            assert forall|k: Seq<char>| b.contains_key(k) implies a.contains_key(k) by {
                if !a.contains_key(k) {
                    vstd::set_lib::lemma_len_subset(a.dom(), b.dom().remove(k));
                    assert(false);
                }
            }
            assert(a =~= b);
        }
        true
    }
}

impl vstd::std_specs::cmp::PartialEqSpecImpl for NameMap<i64> {
    open spec fn obeys_eq_spec() -> bool {
        true
    }

    open spec fn eq_spec(&self, other: &Self) -> bool {
        self@ == other@
    }
}

impl<V: Copy> Clone for NameMap<V> {
    /// A copy, with the same entries in the same order.
    fn clone(&self) -> (r: Self)
        ensures
            r@ == self@,
    {
        self.duplicate()
    }
}

impl<V: Copy> NameMap<V> {
    /// A copy of this map, with the names in the same order.
    pub fn duplicate(&self) -> (r: Self)
        ensures
            r@ == self@,
            r.key_seq() == self.key_seq(),
    {
        proof {
            use_type_invariant(self);
        }
        let mut entries: Vec<(String, V)> = Vec::new();
        let mut i: usize = 0;
        while i < self.entries.len()
            invariant
                i <= self.entries@.len(),
                distinct_keys(self.entries@),
                entries@.len() == i,
                forall|k: int| 0 <= k < i ==> (#[trigger] entries@[k]).0@ == self.entries@[k].0@
                    && entries@[k].1 == self.entries@[k].1,
            decreases self.entries.len() - i,
        {
            let name = self.entries[i].0.clone();
            let value = self.entries[i].1;
            entries.push((name, value));
            i = i + 1;
        }
        proof {
            assert(keys_of(entries@) =~= keys_of(self.entries@));
            lemma_map_of_same_keys(entries@, self.entries@);
        }
        NameMap { entries }
    }
}

proof fn lemma_map_of_same_keys<V>(a: Seq<(String, V)>, b: Seq<(String, V)>)
    requires
        a.len() == b.len(),
        forall|k: int| 0 <= k < a.len() ==> (#[trigger] a[k]).0@ == b[k].0@ && a[k].1 == b[k].1,
    ensures
        map_of(a) == map_of(b),
    decreases a.len(),
{
    if a.len() > 0 {
        lemma_map_of_same_keys(a.drop_last(), b.drop_last());
        assert(a.last().0@ == b.last().0@);
    }
}

} // verus!
