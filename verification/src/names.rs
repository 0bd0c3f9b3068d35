//! Maps keyed by name, such as the nodes that a parse gives each data source and scale.
use vstd::prelude::*;

verus! {

/// The map that a list of named entries stands for: a later entry for a name replaces an
/// earlier one.
pub open spec fn entries_map<V>(entries: Seq<(Seq<char>, V)>) -> Map<Seq<char>, V>
    decreases entries.len(),
{
    if entries.len() == 0 {
        Map::empty()
    } else {
        entries_map(entries.drop_last()).insert(entries.last().0, entries.last().1)
    }
}

/// A list of named entries with its names taken as character sequences.
pub open spec fn entries_view<V>(entries: Seq<(String, V)>) -> Seq<(Seq<char>, V)> {
    entries.map_values(|e: (String, V)| (e.0@, e.1))
}

proof fn lemma_entries_map_contains<V>(entries: Seq<(Seq<char>, V)>, k: Seq<char>)
    ensures
        entries_map(entries).contains_key(k) <==> exists|i: int|
            0 <= i < entries.len() && entries[i].0 == k,
    decreases entries.len(),
{
    if entries.len() > 0 {
        lemma_entries_map_contains(entries.drop_last(), k);
        if entries_map(entries).contains_key(k) && entries.last().0 != k {
            let i = choose|i: int| 0 <= i < entries.len() - 1 && entries.drop_last()[i].0 == k;
            assert(entries[i].0 == k);
        }
        if exists|i: int| 0 <= i < entries.len() && entries[i].0 == k {
            let i = choose|i: int| 0 <= i < entries.len() && entries[i].0 == k;
            if i < entries.len() - 1 {
                assert(entries.drop_last()[i].0 == k);
            }
        }
    }
}

proof fn lemma_entries_map_value<V>(entries: Seq<(Seq<char>, V)>, i: int)
    requires
        0 <= i < entries.len(),
        forall|a: int, b: int| 0 <= a < b < entries.len() ==> entries[a].0 != entries[b].0,
    ensures
        entries_map(entries).contains_key(entries[i].0),
        entries_map(entries)[entries[i].0] == entries[i].1,
    decreases entries.len(),
{
    if i < entries.len() - 1 {
        lemma_entries_map_value(entries.drop_last(), i);
    }
}

proof fn lemma_entries_map_update<V>(entries: Seq<(Seq<char>, V)>, i: int, value: V)
    requires
        0 <= i < entries.len(),
        forall|a: int, b: int| 0 <= a < b < entries.len() ==> entries[a].0 != entries[b].0,
    ensures
        entries_map(entries.update(i, (entries[i].0, value))) == entries_map(entries).insert(
            entries[i].0,
            value,
        ),
    decreases entries.len(),
{
    let k = entries[i].0;
    let updated = entries.update(i, (k, value));
    if i == entries.len() - 1 {
        assert(updated.drop_last() =~= entries.drop_last());
        lemma_entries_map_contains(entries.drop_last(), k);
        assert(entries_map(updated) =~= entries_map(entries).insert(k, value));
    } else {
        assert(updated.drop_last() =~= entries.drop_last().update(i, (k, value)));
        lemma_entries_map_update(entries.drop_last(), i, value);
        assert(entries_map(updated) =~= entries_map(entries).insert(k, value));
    }
}

/// A map from names to values, each name once.
#[derive(Debug, PartialEq)]
pub struct NameMap<V> {
    entries: Vec<(String, V)>,
}

impl<V> View for NameMap<V> {
    type V = Map<Seq<char>, V>;

    closed spec fn view(&self) -> Map<Seq<char>, V> {
        entries_map(entries_view(self.entries@))
    }
}

impl<V> NameMap<V> {
    /// The names of the entries are distinct.
    #[verifier::type_invariant]
    spec fn names_distinct(self) -> bool {
        forall|a: int, b: int|
            0 <= a < b < self.entries@.len() ==> self.entries@[a].0@ != self.entries@[b].0@
    }

    /// An empty map.
    pub fn new() -> (m: NameMap<V>)
        ensures
            m@ == Map::<Seq<char>, V>::empty(),
    {
        let m = NameMap { entries: Vec::new() };
        assert(entries_view(m.entries@) =~= Seq::empty());
        m
    }

    /// The position of the entry named `name`.
    fn position(&self, name: &str) -> (r: Option<usize>)
        ensures
            match r {
                Some(i) => i < self.entries@.len() && self.entries@[i as int].0@ == name@,
                None => forall|i: int| 0 <= i < self.entries@.len() ==> self.entries@[i].0@ != name@,
            },
    {
        let owned = name.to_owned();
        let mut i: usize = 0;
        while i < self.entries.len()
            invariant
                i <= self.entries@.len(),
                owned@ == name@,
                forall|j: int| 0 <= j < i ==> self.entries@[j].0@ != name@,
            decreases self.entries@.len() - i,
        {
            if self.entries[i].0 == owned {
                return Some(i);
            }
            i = i + 1;
        }
        None
    }

    /// Map `name` to `value`, replacing the value that it had before.
    pub fn insert(&mut self, name: &str, value: V)
        ensures
            final(self)@ == old(self)@.insert(name@, value),
    {
        proof {
            use_type_invariant(&*self);
        }
        let ghost before = entries_view(self.entries@);
        let position = self.position(name);
        let mut taken = NameMap::new();
        std::mem::swap(self, &mut taken);
        let mut entries = taken.entries;
        match position {
            Some(i) => {
                proof {
                    lemma_entries_map_update(before, i as int, value);
                }
                entries.set(i, (name.to_owned(), value));
                proof {
                    assert(entries_view(entries@) =~= before.update(i as int, (name@, value)));
                }
            },
            None => {
                entries.push((name.to_owned(), value));
                proof {
                    assert(entries_view(entries@) =~= before.push((name@, value)));
                    assert(entries_view(entries@).drop_last() =~= before);
                }
            },
        }
        *self = NameMap { entries };
    }

    /// The value that `name` maps to.
    pub fn get(&self, name: &str) -> (r: Option<&V>)
        ensures
            match r {
                Some(value) => self@.contains_key(name@) && *value == self@[name@],
                None => !self@.contains_key(name@),
            },
    {
        proof {
            use_type_invariant(self);
            lemma_entries_map_contains(entries_view(self.entries@), name@);
        }
        match self.position(name) {
            Some(i) => {
                proof {
                    lemma_entries_map_value(entries_view(self.entries@), i as int);
                }
                Some(&self.entries[i].1)
            },
            None => {
                proof {
                    assert forall|i: int| 0 <= i < self.entries@.len() implies entries_view(
                        self.entries@,
                    )[i].0 != name@ by {}
                }
                None
            },
        }
    }

    /// The number of names.
    pub fn len(&self) -> (n: usize)
        ensures
            n == self@.dom().len(),
    {
        proof {
            use_type_invariant(self);
            lemma_entries_map_len(entries_view(self.entries@));
        }
        self.entries.len()
    }
}

proof fn lemma_entries_map_len<V>(entries: Seq<(Seq<char>, V)>)
    requires
        forall|a: int, b: int| 0 <= a < b < entries.len() ==> entries[a].0 != entries[b].0,
    ensures
        entries_map(entries).dom().finite(),
        entries_map(entries).dom().len() == entries.len(),
    decreases entries.len(),
{
    if entries.len() > 0 {
        lemma_entries_map_len(entries.drop_last());
        lemma_entries_map_contains(entries.drop_last(), entries.last().0);
    }
}

} // verus!
