//! A table from names to values, kept in insertion order with no name twice.
//! It stands for the `HashMap<String, _>` of the statistics: the results that
//! the library computes from it never depend on the order of its entries.
use vstd::prelude::*;

verus! {

/// Entries `(name, value)`; no name occurs twice.
#[derive(Debug)]
pub struct KeyedTable<V> {
    entries: Vec<(String, V)>,
}

/// The names of a sequence of entries.
pub open spec fn names_of<V>(s: Seq<(Seq<char>, V)>) -> Seq<Seq<char>> {
    s.map_values(|e: (Seq<char>, V)| e.0)
}

/// A position of the entry named `k`.
pub open spec fn position_of<V>(s: Seq<(Seq<char>, V)>, k: Seq<char>) -> int {
    choose|i: int| 0 <= i < s.len() && s[i].0 == k
}

/// Entry `i` is the first one named `k`.
pub open spec fn first_named<V>(s: Seq<(Seq<char>, V)>, k: Seq<char>, i: int) -> bool {
    &&& 0 <= i < s.len()
    &&& s[i].0 == k
    &&& forall|j: int| 0 <= j < i ==> (#[trigger] s[j]).0 != k
}

/// The map that a sequence of entries with distinct names stands for.
pub open spec fn map_of<V>(s: Seq<(Seq<char>, V)>) -> Map<Seq<char>, V> {
    Map::new(
        |k: Seq<char>| exists|i: int| 0 <= i < s.len() && s[i].0 == k,
        |k: Seq<char>| s[position_of(s, k)].1,
    )
}

/// Lookup in a map, with a default for missing names.
pub open spec fn get_or<V>(m: Map<Seq<char>, V>, k: Seq<char>, d: V) -> V {
    if m.contains_key(k) {
        m[k]
    } else {
        d
    }
}

/// A map lookup in a sequence of entries with distinct names finds the entry
/// with that name.
pub proof fn lemma_map_of_index<V>(s: Seq<(Seq<char>, V)>, i: int)
    requires
        names_of(s).no_duplicates(),
        0 <= i < s.len(),
    ensures
        map_of(s).contains_key(s[i].0),
        map_of(s)[s[i].0] == s[i].1,
{
    let k = s[i].0;
    assert(exists|j: int| 0 <= j < s.len() && s[j].0 == k);
    let j = position_of(s, k);
    assert(names_of(s)[i] == s[i].0);
    assert(names_of(s)[j] == s[j].0);
    assert(i == j);
    assert(map_of(s)[k] == s[j].1);
}

/// The names in the map are those of the entries.
pub proof fn lemma_map_of_dom<V>(s: Seq<(Seq<char>, V)>, k: Seq<char>)
    ensures
        map_of(s).contains_key(k) <==> names_of(s).contains(k),
{
    if map_of(s).contains_key(k) {
        let j = choose|j: int| 0 <= j < s.len() && s[j].0 == k;
        assert(names_of(s)[j] == k);
    }
    if names_of(s).contains(k) {
        let j = choose|j: int| 0 <= j < names_of(s).len() && names_of(s)[j] == k;
        assert(s[j].0 == k);
    }
}

/// Appending an entry with a new name inserts it into the map.
pub proof fn lemma_map_of_push<V>(s: Seq<(Seq<char>, V)>, k: Seq<char>, v: V)
    requires
        names_of(s).no_duplicates(),
        !names_of(s).contains(k),
    ensures
        names_of(s.push((k, v))).no_duplicates(),
        map_of(s.push((k, v))) == map_of(s).insert(k, v),
{
    let t = s.push((k, v));
    assert(names_of(t) =~= names_of(s).push(k));
    assert forall|a: int, b: int| 0 <= a < b < names_of(t).len() implies names_of(t)[a]
        != names_of(t)[b] by {
        if b == s.len() {
            assert(names_of(s)[a] == names_of(t)[a]);
        }
    }
    assert forall|x: Seq<char>| #[trigger] map_of(t).contains_key(x) <==> map_of(s).insert(
        k,
        v,
    ).contains_key(x) by {
        lemma_map_of_dom(t, x);
        lemma_map_of_dom(s, x);
        if names_of(t).contains(x) && x != k {
            let j = choose|j: int| 0 <= j < names_of(t).len() && names_of(t)[j] == x;
            assert(names_of(s)[j] == x);
        }
        if names_of(s).contains(x) {
            let j = choose|j: int| 0 <= j < names_of(s).len() && names_of(s)[j] == x;
            assert(names_of(t)[j] == x);
        }
        if x == k {
            assert(names_of(t)[s.len() as int] == x);
        }
    }
    assert forall|x: Seq<char>| #[trigger] map_of(t).contains_key(x) implies map_of(t)[x] == map_of(
        s,
    ).insert(k, v)[x] by {
        lemma_map_of_dom(t, x);
        let j = choose|j: int| 0 <= j < names_of(t).len() && names_of(t)[j] == x;
        lemma_map_of_index(t, j);
        if j < s.len() {
            lemma_map_of_index(s, j);
            assert(names_of(s)[j] == x);
        }
    }
    assert(map_of(t) =~= map_of(s).insert(k, v));
}

/// Replacing the value of entry `i` updates the map at its name.
pub proof fn lemma_map_of_update<V>(s: Seq<(Seq<char>, V)>, i: int, v: V)
    requires
        names_of(s).no_duplicates(),
        0 <= i < s.len(),
    ensures
        names_of(s.update(i, (s[i].0, v))) == names_of(s),
        map_of(s.update(i, (s[i].0, v))) == map_of(s).insert(s[i].0, v),
{
    let t = s.update(i, (s[i].0, v));
    assert(names_of(t) =~= names_of(s));
    let k = s[i].0;
    assert forall|x: Seq<char>| #[trigger] map_of(t).contains_key(x) <==> map_of(s).insert(
        k,
        v,
    ).contains_key(x) by {
        lemma_map_of_dom(t, x);
        lemma_map_of_dom(s, x);
        lemma_map_of_index(s, i);
    }
    assert forall|x: Seq<char>| #[trigger] map_of(t).contains_key(x) implies map_of(t)[x] == map_of(
        s,
    ).insert(k, v)[x] by {
        lemma_map_of_dom(t, x);
        let j = choose|j: int| 0 <= j < names_of(t).len() && names_of(t)[j] == x;
        lemma_map_of_index(t, j);
        if j != i {
            lemma_map_of_index(s, j);
            assert(names_of(s)[j] != names_of(s)[i]);
        } else {
            assert(t[i].1 == v);
        }
    }
    assert(map_of(t) =~= map_of(s).insert(k, v));
}

impl<V> View for KeyedTable<V> {
    type V = Map<Seq<char>, V>;

    /// The table as a map from names to values.
    open spec fn view(&self) -> Map<Seq<char>, V> {
        map_of(self.entries())
    }
}

impl<V> KeyedTable<V> {
    /// The entries, names taken by their characters.
    pub closed spec fn entries(&self) -> Seq<(Seq<char>, V)> {
        self.entries@.map_values(|e: (String, V)| (e.0@, e.1))
    }

    /// The names, in order.
    pub open spec fn names(&self) -> Seq<Seq<char>> {
        names_of(self.entries())
    }

    /// No name occurs twice: the invariant of every table.
    #[verifier::type_invariant]
    pub open spec fn wf(&self) -> bool {
        self.names().no_duplicates()
    }

    /// An empty table.
    pub fn new() -> (t: Self)
        ensures
            t.entries() == Seq::<(Seq<char>, V)>::empty(),
            t@ == Map::<Seq<char>, V>::empty(),
    {
        let t = KeyedTable { entries: Vec::new() };
        assert(t.entries() =~= Seq::<(Seq<char>, V)>::empty());
        assert(t@ =~= Map::<Seq<char>, V>::empty());
        t
    }

    /// The number of entries.
    pub fn len(&self) -> (n: usize)
        ensures
            n == self.entries().len(),
    {
        self.entries.len()
    }

    /// The name of entry `i`.
    pub fn name_at(&self, i: usize) -> (k: &String)
        requires
            i < self.entries().len(),
        ensures
            k@ == self.entries()[i as int].0,
    {
        &self.entries[i].0
    }

    /// The value of entry `i`.
    pub fn value_at(&self, i: usize) -> (v: &V)
        requires
            i < self.entries().len(),
        ensures
            *v == self.entries()[i as int].1,
    {
        &self.entries[i].1
    }

    /// The position of the entry named `key`, if there is one.
    pub fn position(&self, key: &String) -> (r: Option<usize>)
        ensures
            match r {
                Some(i) => first_named(self.entries(), key@, i as int),
                None => !self.names().contains(key@),
            },
    {
        let mut i: usize = 0;
        while i < self.entries.len()
            invariant
                i <= self.entries@.len(),
                forall|j: int| 0 <= j < i ==> self.entries()[j].0 != key@,
            decreases self.entries@.len() - i,
        {
            if self.entries[i].0 == *key {
                return Some(i);
            }
            i = i + 1;
        }
        proof {
            if self.names().contains(key@) {
                let j = choose|j: int| 0 <= j < self.names().len() && self.names()[j] == key@;
                assert(self.entries()[j].0 == key@);
            }
        }
        None
    }

    /// The value named `key`, as `HashMap::get`.
    pub fn get(&self, key: &String) -> (r: Option<&V>)
        ensures
            match r {
                Some(v) => self@.contains_key(key@) && *v == self@[key@],
                None => !self@.contains_key(key@),
            },
    {
        proof {
            use_type_invariant(self);
            lemma_map_of_dom(self.entries(), key@);
        }
        match self.position(key) {
            Some(i) => {
                proof {
                    lemma_map_of_index(self.entries(), i as int);
                }
                Some(&self.entries[i].1)
            },
            None => None,
        }
    }

    /// Sets the value named `key`, as `HashMap::insert`: an existing entry keeps
    /// its place, a new name is appended.
    pub fn insert(&mut self, key: String, value: V)
        ensures
            final(self)@ == old(self)@.insert(key@, value),
            final(self).names() == if old(self).names().contains(key@) {
                old(self).names()
            } else {
                old(self).names().push(key@)
            },
    {
        proof {
            use_type_invariant(&*self);
        }
        let position = self.position(&key);
        let ghost before = self.entries();
        let mut entries: Vec<(String, V)> = Vec::new();
        std::mem::swap(&mut entries, &mut self.entries);
        assert(entries@.map_values(|e: (String, V)| (e.0@, e.1)) == before);
        match position {
            Some(i) => {
                proof {
                    lemma_map_of_update(before, i as int, value);
                }
                assert(names_of(before)[i as int] == key@);
                entries.set(i, (key, value));
                assert(entries@.map_values(|e: (String, V)| (e.0@, e.1)) =~= before.update(
                    i as int,
                    (before[i as int].0, value),
                ));
            },
            None => {
                proof {
                    lemma_map_of_push(before, key@, value);
                }
                let ghost k = key@;
                entries.push((key, value));
                assert(entries@.map_values(|e: (String, V)| (e.0@, e.1)) =~= before.push((k, value)));
                assert(names_of(before.push((k, value))) =~= names_of(before).push(k));
            },
        }
        self.entries = entries;
    }
}

impl<V: Copy> KeyedTable<V> {
    /// A copy of the table, entry by entry.
    pub fn copy_table(&self) -> (copy: Self)
        ensures
            copy.entries() == self.entries(),
            copy@ == self@,
    {
        let mut entries: Vec<(String, V)> = Vec::new();
        let mut i: usize = 0;
        while i < self.entries.len()
            invariant
                i <= self.entries@.len(),
                entries@.map_values(|e: (String, V)| (e.0@, e.1)) == self.entries().take(i as int),
            decreases self.entries@.len() - i,
        {
            let ghost prev = entries@;
            let name = self.entries[i].0.clone();
            let value = self.entries[i].1;
            entries.push((name, value));
            proof {
                assert(entries@.map_values(|e: (String, V)| (e.0@, e.1)) =~= prev.map_values(
                    |e: (String, V)| (e.0@, e.1),
                ).push((name@, value)));
                assert(self.entries()[i as int] == (name@, value));
                assert(entries@.map_values(|e: (String, V)| (e.0@, e.1)) =~= self.entries().take(
                    i + 1,
                ));
            }
            i = i + 1;
        }
        proof {
            use_type_invariant(self);
            assert(self.entries().take(i as int) =~= self.entries());
        }
        KeyedTable { entries }
    }
}

} // verus!
