//! Data items and data values: the records that flow through the graph.
use vstd::prelude::*;
use vstd::std_specs::cmp::PartialEqSpecImpl;

use crate::text::{lemma_text_before_total, lemma_text_before_transitive, text_before, text_is_before};

verus! {

/// A 32-bit IEEE-754 number, held by its bit pattern. The library only moves numbers
/// around and tells them apart; arithmetic on them is done by its callers.
#[derive(Clone, Copy, Debug, PartialEq, Eq, Structural, Hash)]
pub struct Number {
    pub bits: u32,
}

impl Number {
    /// A number from its bit pattern.
    pub fn from_bits(bits: u32) -> (n: Number)
        ensures
            n.bits == bits,
    {
        Number { bits }
    }
}

/// A single item of data: a boolean, a number or a text.
#[derive(Clone, Debug)]
pub enum DataItem {
    Bool(bool),
    Number(Number),
    Text(String),
}

impl DataItem {
    /// Two items are the same when they are of the same kind and hold the same value
    /// (texts are compared by their characters).
    pub open spec fn same(self, other: DataItem) -> bool {
        match (self, other) {
            (DataItem::Bool(a), DataItem::Bool(b)) => a == b,
            (DataItem::Number(a), DataItem::Number(b)) => a == b,
            (DataItem::Text(a), DataItem::Text(b)) => a@ == b@,
            _ => false,
        }
    }

    /// An item holding a number given by its bit pattern.
    pub fn number(bits: u32) -> (item: DataItem)
        ensures
            item == DataItem::Number(Number { bits }),
    {
        DataItem::Number(Number { bits })
    }

    /// An item holding a text.
    pub fn text(value: &str) -> (item: DataItem)
        ensures
            item is Text,
            item->Text_0@ == value@,
    {
        DataItem::Text(value.to_owned())
    }

    /// A copy of the item.
    pub fn copy(&self) -> (item: DataItem)
        ensures
            item == *self,
    {
        match self {
            DataItem::Bool(b) => DataItem::Bool(*b),
            DataItem::Number(n) => DataItem::Number(*n),
            DataItem::Text(s) => DataItem::Text(s.clone()),
        }
    }

    /// The number held by the item, if it holds one.
    pub fn get_number(&self) -> (n: Option<Number>)
        ensures
            n == (match *self {
                DataItem::Number(m) => Some(m),
                _ => None::<Number>,
            }),
    {
        match self {
            DataItem::Number(n) => Some(*n),
            _ => None,
        }
    }

    /// The boolean held by the item, if it holds one.
    pub fn get_bool(&self) -> (b: Option<bool>)
        ensures
            b == (match *self {
                DataItem::Bool(c) => Some(c),
                _ => None::<bool>,
            }),
    {
        match self {
            DataItem::Bool(b) => Some(*b),
            _ => None,
        }
    }

    /// The text held by the item, if it holds one.
    pub fn get_text(&self) -> (t: Option<&String>)
        ensures
            t == (match *self {
                DataItem::Text(s) => Some(&s),
                _ => None::<&String>,
            }),
    {
        match self {
            DataItem::Text(s) => Some(s),
            _ => None,
        }
    }
}

impl PartialEq for DataItem {
    fn eq(&self, other: &Self) -> (r: bool) {
        match self {
            DataItem::Bool(a) => match other {
                DataItem::Bool(b) => *a == *b,
                _ => false,
            },
            DataItem::Number(a) => match other {
                DataItem::Number(b) => a.bits == b.bits,
                _ => false,
            },
            DataItem::Text(a) => match other {
                DataItem::Text(b) => *a == *b,
                _ => false,
            },
        }
    }
}

impl PartialEqSpecImpl for DataItem {
    open spec fn obeys_eq_spec() -> bool {
        true
    }

    open spec fn eq_spec(&self, other: &DataItem) -> bool {
        self.same(*other)
    }
}

/// The map that a list of key/item pairs stands for: a later pair for a key replaces
/// an earlier one.
pub open spec fn pairs_map(pairs: Seq<(Seq<char>, DataItem)>) -> Map<Seq<char>, DataItem>
    decreases pairs.len(),
{
    if pairs.len() == 0 {
        Map::empty()
    } else {
        pairs_map(pairs.drop_last()).insert(pairs.last().0, pairs.last().1)
    }
}

/// A list of pairs with its keys taken as character sequences.
pub open spec fn pairs_view(pairs: Seq<(String, DataItem)>) -> Seq<(Seq<char>, DataItem)> {
    pairs.map_values(|p: (String, DataItem)| (p.0@, p.1))
}

/// A record of named data items, such as `{ "x": 2.0, "y": 5.0 }`.
#[derive(Debug)]
pub struct DataValue {
    pub(crate) instance: Vec<(String, DataItem)>,
}

impl View for DataValue {
    type V = Map<Seq<char>, DataItem>;

    closed spec fn view(&self) -> Map<Seq<char>, DataItem> {
        pairs_map(pairs_view(self.instance@))
    }
}

/// Two maps of data items with the same keys, whose items are the same.
pub open spec fn same_items(a: Map<Seq<char>, DataItem>, b: Map<Seq<char>, DataItem>) -> bool {
    &&& a.dom() == b.dom()
    &&& forall|k: Seq<char>| #[trigger] a.contains_key(k) ==> a[k].same(b[k])
}

proof fn lemma_pairs_map_contains(pairs: Seq<(Seq<char>, DataItem)>, k: Seq<char>)
    ensures
        pairs_map(pairs).contains_key(k) <==> exists|i: int| 0 <= i < pairs.len() && pairs[i].0 == k,
    decreases pairs.len(),
{
    if pairs.len() > 0 {
        lemma_pairs_map_contains(pairs.drop_last(), k);
        if pairs_map(pairs).contains_key(k) && pairs.last().0 != k {
            let i = choose|i: int| 0 <= i < pairs.len() - 1 && pairs.drop_last()[i].0 == k;
            assert(pairs[i].0 == k);
        }
        if exists|i: int| 0 <= i < pairs.len() && pairs[i].0 == k {
            let i = choose|i: int| 0 <= i < pairs.len() && pairs[i].0 == k;
            if i < pairs.len() - 1 {
                assert(pairs.drop_last()[i].0 == k);
            }
        }
    }
}

proof fn lemma_pairs_map_unique_value(pairs: Seq<(Seq<char>, DataItem)>, i: int)
    requires
        0 <= i < pairs.len(),
        forall|a: int, b: int| 0 <= a < b < pairs.len() ==> pairs[a].0 != pairs[b].0,
    ensures
        pairs_map(pairs).contains_key(pairs[i].0),
        pairs_map(pairs)[pairs[i].0] == pairs[i].1,
    decreases pairs.len(),
{
    if i < pairs.len() - 1 {
        lemma_pairs_map_unique_value(pairs.drop_last(), i);
    }
}

proof fn lemma_pairs_map_update(pairs: Seq<(Seq<char>, DataItem)>, i: int, item: DataItem)
    requires
        0 <= i < pairs.len(),
        forall|a: int, b: int| 0 <= a < b < pairs.len() ==> pairs[a].0 != pairs[b].0,
    ensures
        pairs_map(pairs.update(i, (pairs[i].0, item))) == pairs_map(pairs).insert(pairs[i].0, item),
    decreases pairs.len(),
{
    let k = pairs[i].0;
    let updated = pairs.update(i, (k, item));
    if i == pairs.len() - 1 {
        assert(updated.drop_last() =~= pairs.drop_last());
        lemma_pairs_map_contains(pairs.drop_last(), k);
        assert(pairs_map(updated) =~= pairs_map(pairs).insert(k, item));
    } else {
        assert(updated.drop_last() =~= pairs.drop_last().update(i, (k, item)));
        lemma_pairs_map_update(pairs.drop_last(), i, item);
        assert(pairs_map(updated) =~= pairs_map(pairs).insert(k, item));
    }
}

proof fn lemma_pairs_map_len(pairs: Seq<(Seq<char>, DataItem)>)
    requires
        forall|a: int, b: int| 0 <= a < b < pairs.len() ==> pairs[a].0 != pairs[b].0,
    ensures
        pairs_map(pairs).dom().finite(),
        pairs_map(pairs).dom().len() == pairs.len(),
    decreases pairs.len(),
{
    if pairs.len() > 0 {
        lemma_pairs_map_len(pairs.drop_last());
        lemma_pairs_map_contains(pairs.drop_last(), pairs.last().0);
    }
}

impl DataValue {
    /// The keys of the record are distinct.
    #[verifier::type_invariant]
    spec fn keys_distinct(self) -> bool {
        forall|a: int, b: int|
            0 <= a < b < self.instance@.len() ==> self.instance@[a].0@ != self.instance@[b].0@
    }

    /// The record's pairs, in the order in which their keys were first inserted.
    pub closed spec fn entries(self) -> Seq<(Seq<char>, DataItem)> {
        pairs_view(self.instance@)
    }

    proof fn lemma_entries(self)
        requires
            self.keys_distinct(),
        ensures
            self@ == pairs_map(self.entries()),
            forall|a: int, b: int|
                0 <= a < b < self.entries().len() ==> self.entries()[a].0 != self.entries()[b].0,
            self@.dom().finite(),
            self@.dom().len() == self.entries().len(),
            forall|i: int|
                0 <= i < self.entries().len() ==> #[trigger] self@.contains_key(self.entries()[i].0)
                    && self@[self.entries()[i].0] == self.entries()[i].1,
    {
        let e = self.entries();
        lemma_pairs_map_len(e);
        assert forall|i: int| 0 <= i < e.len() implies #[trigger] self@.contains_key(e[i].0)
            && self@[e[i].0] == e[i].1 by {
            lemma_pairs_map_unique_value(e, i);
        }
    }

    /// An empty record.
    pub fn new() -> (v: DataValue)
        ensures
            v@ == Map::<Seq<char>, DataItem>::empty(),
    {
        let v = DataValue { instance: Vec::new() };
        assert(pairs_view(v.instance@) =~= Seq::empty());
        v
    }

    /// The position of `key` among the record's pairs.
    fn position(&self, key: &String) -> (r: Option<usize>)
        ensures
            match r {
                Some(i) => i < self.instance@.len() && self.instance@[i as int].0@ == key@,
                None => forall|i: int|
                    0 <= i < self.instance@.len() ==> self.instance@[i].0@ != key@,
            },
    {
        let mut i: usize = 0;
        while i < self.instance.len()
            invariant
                i <= self.instance@.len(),
                forall|j: int| 0 <= j < i ==> self.instance@[j].0@ != key@,
            decreases self.instance@.len() - i,
        {
            if self.instance[i].0 == *key {
                return Some(i);
            }
            i = i + 1;
        }
        None
    }

    /// Set `key` to `value`, replacing the item that it held before.
    pub fn insert(&mut self, key: &str, value: DataItem)
        ensures
            final(self)@ == old(self)@.insert(key@, value),
    {
        proof {
            use_type_invariant(&*self);
        }
        let owned = key.to_owned();
        let ghost before = pairs_view(self.instance@);
        let position = self.position(&owned);
        let mut taken = DataValue::new();
        std::mem::swap(self, &mut taken);
        let mut instance = taken.instance;
        match position {
            Some(i) => {
                proof {
                    lemma_pairs_map_update(before, i as int, value);
                }
                instance.set(i, (owned, value));
                proof {
                    assert(pairs_view(instance@) =~= before.update(i as int, (key@, value)));
                }
            },
            None => {
                instance.push((owned, value));
                proof {
                    assert(pairs_view(instance@) =~= before.push((key@, value)));
                    assert(pairs_view(instance@).drop_last() =~= before);
                }
            },
        }
        *self = DataValue { instance };
    }

    /// A record holding the given pairs; a later pair for a key replaces an earlier one.
    pub fn from_pairs(pairs: Vec<(&str, DataItem)>) -> (v: DataValue)
        ensures
            v@ == pairs_map(pairs@.map_values(|p: (&str, DataItem)| (p.0@, p.1))),
    {
        let ghost spec_pairs = pairs@.map_values(|p: (&str, DataItem)| (p.0@, p.1));
        let mut vars = DataValue::new();
        let mut i: usize = 0;
        while i < pairs.len()
            invariant
                i <= pairs@.len(),
                spec_pairs == pairs@.map_values(|p: (&str, DataItem)| (p.0@, p.1)),
                vars@ == pairs_map(spec_pairs.take(i as int)),
            decreases pairs@.len() - i,
        {
            let (key, item) = (pairs[i].0, pairs[i].1.copy());
            vars.insert(key, item);
            proof {
                assert(spec_pairs.take(i + 1).drop_last() =~= spec_pairs.take(i as int));
            }
            i = i + 1;
        }
        proof {
            assert(spec_pairs.take(pairs@.len() as int) =~= spec_pairs);
        }
        vars
    }

    /// A record holding the pairs of `instance`; a later pair for a key replaces an
    /// earlier one.
    pub fn with_instance(instance: Vec<(String, DataItem)>) -> (v: DataValue)
        ensures
            v@ == pairs_map(pairs_view(instance@)),
    {
        let ghost spec_pairs = pairs_view(instance@);
        let mut vars = DataValue::new();
        let mut i: usize = 0;
        while i < instance.len()
            invariant
                i <= instance@.len(),
                spec_pairs == pairs_view(instance@),
                vars@ == pairs_map(spec_pairs.take(i as int)),
            decreases instance@.len() - i,
        {
            vars.insert(instance[i].0.as_str(), instance[i].1.copy());
            proof {
                assert(spec_pairs.take(i + 1).drop_last() =~= spec_pairs.take(i as int));
            }
            i = i + 1;
        }
        proof {
            assert(spec_pairs.take(instance@.len() as int) =~= spec_pairs);
        }
        vars
    }

    /// A copy of the record's pairs.
    fn instance_copy(&self) -> (r: Vec<(String, DataItem)>)
        ensures
            r@ == self.instance@,
    {
        let mut r: Vec<(String, DataItem)> = Vec::new();
        let mut i: usize = 0;
        while i < self.instance.len()
            invariant
                i <= self.instance@.len(),
                r@ == self.instance@.take(i as int),
            decreases self.instance@.len() - i,
        {
            r.push((self.instance[i].0.clone(), self.instance[i].1.copy()));
            proof {
                assert(r@ =~= self.instance@.take(i + 1));
            }
            i = i + 1;
        }
        proof {
            assert(self.instance@.take(i as int) =~= self.instance@);
        }
        r
    }

    /// The record's pairs, each key once.
    pub fn pairs(&self) -> (r: Vec<(String, DataItem)>)
        ensures
            pairs_view(r@) == self.entries(),
            self@ == pairs_map(self.entries()),
            forall|a: int, b: int|
                0 <= a < b < self.entries().len() ==> self.entries()[a].0 != self.entries()[b].0,
    {
        proof {
            use_type_invariant(self);
        }
        self.instance_copy()
    }

    /// The record's pairs in the order of their keys, each key once: the order in which a
    /// record is written out.
    pub fn sorted_pairs(&self) -> (r: Vec<(String, DataItem)>)
        ensures
            r@.len() == self@.dom().len(),
            forall|i: int|
                0 <= i < r@.len() ==> self@.contains_key((#[trigger] r@[i]).0@) && self@[r@[i].0@] == r@[i].1,
            forall|i: int, j: int|
                0 <= i < j < r@.len() ==> text_before((#[trigger] r@[i]).0@, (#[trigger] r@[j]).0@),
    {
        let pairs = self.pairs();
        let ghost pv = pairs_view(pairs@);
        proof {
            lemma_pairs_map_len(pv);
        }
        let mut r: Vec<(String, DataItem)> = Vec::new();
        let ghost mut idx: Seq<int> = Seq::empty();
        let mut i: usize = 0;
        while i < pairs.len()
            invariant
                i <= pairs@.len(),
                pv == pairs_view(pairs@),
                forall|a: int, b: int| 0 <= a < b < pv.len() ==> pv[a].0 != pv[b].0,
                r@.len() == i,
                idx.len() == i,
                forall|x: int|
                    0 <= x < r@.len() ==> 0 <= #[trigger] idx[x] < i && pv[idx[x]] == (r@[x].0@, r@[x].1),
                forall|a: int, b: int|
                    0 <= a < b < r@.len() ==> text_before((#[trigger] r@[a]).0@, (#[trigger] r@[b]).0@),
            decreases pairs@.len() - i,
        {
            let ghost key = pv[i as int].0;
            assert(pairs@[i as int].0@ == key);
            let mut p: usize = 0;
            while p < r.len() && !text_is_before(pairs[i].0.as_str(), r[p].0.as_str())
                invariant
                    i < pairs@.len(),
                    pv == pairs_view(pairs@),
                    pairs@[i as int].0@ == key,
                    forall|a: int, b: int| 0 <= a < b < pv.len() ==> pv[a].0 != pv[b].0,
                    r@.len() == i,
                    idx.len() == i,
                    forall|x: int|
                        0 <= x < r@.len() ==> 0 <= #[trigger] idx[x] < i && pv[idx[x]] == (r@[x].0@, r@[x].1),
                    p <= r@.len(),
                    forall|q: int| 0 <= q < p ==> text_before((#[trigger] r@[q]).0@, key),
                decreases r@.len() - p,
            {
                proof {
                    assert(pv[idx[p as int]] == (r@[p as int].0@, r@[p as int].1));
                    assert(0 <= idx[p as int] < i);
                    assert(pv[idx[p as int]].0 != pv[i as int].0);
                    assert(r@[p as int].0@ != key);
                    lemma_text_before_total(key, r@[p as int].0@);
                }
                p = p + 1;
            }
            let ghost before = r@;
            let entry = (pairs[i].0.clone(), pairs[i].1.copy());
            assert(entry.0@ == key);
            r.insert(p, entry);
            proof {
                idx = idx.insert(p as int, i as int);
                assert(r@ == before.insert(p as int, entry));
                assert forall|x: int| 0 <= x < r@.len() implies 0 <= #[trigger] idx[x] < i + 1 && pv[idx[x]]
                    == (r@[x].0@, r@[x].1) by {
                    if x < p {
                        assert(r@[x] == before[x]);
                    } else if x > p {
                        assert(r@[x] == before[x - 1]);
                    } else {
                        assert(pv[i as int] == (pairs@[i as int].0@, pairs@[i as int].1));
                    }
                }
                assert forall|a: int, b: int| 0 <= a < b < r@.len() implies text_before(
                    (#[trigger] r@[a]).0@,
                    (#[trigger] r@[b]).0@,
                ) by {
                    if p < before.len() {
                        assert(text_before(key, before[p as int].0@));
                    }
                    if b < p {
                        assert(r@[a] == before[a] && r@[b] == before[b]);
                    } else if b == p {
                        assert(r@[a] == before[a]);
                    } else if a > p {
                        assert(r@[a] == before[a - 1] && r@[b] == before[b - 1]);
                    } else if a == p {
                        assert(r@[b] == before[b - 1]);
                        if b - 1 > p {
                            lemma_text_before_transitive(key, before[p as int].0@, before[b - 1].0@);
                        }
                    } else {
                        assert(r@[a] == before[a] && r@[b] == before[b - 1]);
                        if b - 1 > p {
                            lemma_text_before_transitive(before[a].0@, key, before[p as int].0@);
                            lemma_text_before_transitive(before[a].0@, before[p as int].0@, before[b - 1].0@);
                        } else {
                            lemma_text_before_transitive(before[a].0@, key, before[p as int].0@);
                        }
                    }
                }
            }
            i = i + 1;
        }
        proof {
            assert forall|x: int| 0 <= x < r@.len() implies self@.contains_key((#[trigger] r@[x]).0@)
                && self@[r@[x].0@] == r@[x].1 by {
                lemma_pairs_map_unique_value(pv, idx[x]);
            }
        }
        r
    }

    /// The item held under `key`.
    pub fn get(&self, key: &str) -> (r: Option<&DataItem>)
        ensures
            match r {
                Some(item) => self@.contains_key(key@) && *item == self@[key@],
                None => !self@.contains_key(key@),
            },
    {
        proof {
            use_type_invariant(self);
            self.lemma_entries();
            lemma_pairs_map_contains(self.entries(), key@);
        }
        let owned = key.to_owned();
        match self.position(&owned) {
            Some(i) => {
                proof {
                    assert(self.entries()[i as int].0 == key@);
                }
                Some(&self.instance[i].1)
            },
            None => {
                proof {
                    assert forall|i: int| 0 <= i < self.entries().len() implies self.entries()[i].0
                        != key@ by {
                        assert(self.entries()[i].0 == self.instance@[i].0@);
                    }
                }
                None
            },
        }
    }

    /// The number held under `key`, if the item there is a number.
    pub fn get_number(&self, key: &str) -> (r: Option<Number>)
        ensures
            r == (if self@.contains_key(key@) {
                match self@[key@] {
                    DataItem::Number(n) => Some(n),
                    _ => None::<Number>,
                }
            } else {
                None::<Number>
            }),
    {
        match self.get(key) {
            Some(item) => item.get_number(),
            None => None,
        }
    }

    /// A copy of the record.
    pub fn copy(&self) -> (v: DataValue)
        ensures
            v@ == self@,
            v.entries() == self.entries(),
    {
        proof {
            use_type_invariant(self);
        }
        DataValue { instance: self.instance_copy() }
    }

    /// Insert every item of `other`, replacing the items held under the same keys.
    pub fn extend_with(&mut self, other: &DataValue)
        ensures
            final(self)@ == old(self)@.union_prefer_right(other@),
    {
        let pairs = other.pairs();
        let ghost entries = other.entries();
        let ghost start = self@;
        let mut i: usize = 0;
        while i < pairs.len()
            invariant
                i <= pairs@.len(),
                pairs_view(pairs@) == entries,
                self@ == start.union_prefer_right(pairs_map(entries.take(i as int))),
            decreases pairs@.len() - i,
        {
            self.insert(pairs[i].0.as_str(), pairs[i].1.copy());
            proof {
                assert(entries[i as int] == (pairs@[i as int].0@, pairs@[i as int].1));
                assert(entries.take(i + 1).drop_last() =~= entries.take(i as int));
                assert(self@ =~= start.union_prefer_right(pairs_map(entries.take(i + 1))));
            }
            i = i + 1;
        }
        proof {
            assert(entries.take(i as int) =~= entries);
        }
    }

    /// Drop all the items of the record.
    pub fn clear(&mut self)
        ensures
            final(self)@ == Map::<Seq<char>, DataItem>::empty(),
    {
        *self = DataValue::new();
    }
}

/// Two lists of records of the same length whose records hold the same items.
pub open spec fn same_values(a: Seq<DataValue>, b: Seq<DataValue>) -> bool {
    &&& a.len() == b.len()
    &&& forall|i: int| 0 <= i < a.len() ==> (#[trigger] a[i])@ == b[i]@
}

/// A copy of a list of records.
pub fn copy_values(values: &Vec<DataValue>) -> (r: Vec<DataValue>)
    ensures
        same_values(r@, values@),
{
    let mut r: Vec<DataValue> = Vec::new();
    let mut i: usize = 0;
    while i < values.len()
        invariant
            i <= values@.len(),
            r@.len() == i,
            forall|j: int| 0 <= j < i ==> (#[trigger] r@[j])@ == values@[j]@,
        decreases values@.len() - i,
    {
        r.push(values[i].copy());
        i = i + 1;
    }
    r
}

/// A copy of a list of items.
pub fn copy_items(items: &Vec<DataItem>) -> (r: Vec<DataItem>)
    ensures
        r@ == items@,
{
    let mut r: Vec<DataItem> = Vec::new();
    let mut i: usize = 0;
    while i < items.len()
        invariant
            i <= items@.len(),
            r@ == items@.take(i as int),
        decreases items@.len() - i,
    {
        r.push(items[i].copy());
        assert(r@ =~= items@.take(i + 1));
        i = i + 1;
    }
    assert(items@.take(i as int) =~= items@);
    r
}

impl Default for DataValue {
    fn default() -> (v: DataValue)
        ensures
            v@ == Map::<Seq<char>, DataItem>::empty(),
    {
        DataValue::new()
    }
}

impl PartialEq for DataValue {
    fn eq(&self, other: &Self) -> (r: bool) {
        proof {
            use_type_invariant(self);
            use_type_invariant(other);
            self.lemma_entries();
            other.lemma_entries();
        }
        if self.instance.len() != other.instance.len() {
            proof {
                if same_items(self@, other@) {
                    assert(self@.dom() == other@.dom());
                }
            }
            return false;
        }
        let mut i: usize = 0;
        while i < self.instance.len()
            invariant
                i <= self.instance@.len(),
                self.instance@.len() == other.instance@.len(),
                self@ == pairs_map(self.entries()),
                self@.dom().len() == self.entries().len(),
                other@.dom().len() == other.entries().len(),
                self@.dom().finite(),
                other@.dom().finite(),
                forall|j: int|
                    0 <= j < self.entries().len() ==> #[trigger] self@.contains_key(
                        self.entries()[j].0,
                    ) && self@[self.entries()[j].0] == self.entries()[j].1,
                forall|j: int|
                    0 <= j < i ==> other@.contains_key(self.entries()[j].0) && self.entries()[j].1.same(
                        other@[#[trigger] self.entries()[j].0],
                    ),
            decreases self.instance@.len() - i,
        {
            let key = self.instance[i].0.as_str();
            proof {
                assert(self.entries()[i as int].0 == key@);
            }
            match other.get(key) {
                Some(item) => {
                    if !(self.instance[i].1 == *item) {
                        proof {
                            assert(self@.contains_key(key@));
                        }
                        return false;
                    }
                },
                None => {
                    proof {
                        assert(self@.contains_key(key@));
                    }
                    return false;
                },
            }
            i = i + 1;
        }
        proof {
            lemma_pairs_map_contains(self.entries(), Seq::empty());
            assert forall|k: Seq<char>| #[trigger] self@.contains_key(k) implies other@.contains_key(k)
                && self@[k].same(other@[k]) by {
                lemma_pairs_map_contains(self.entries(), k);
                let j = choose|j: int| 0 <= j < self.entries().len() && self.entries()[j].0 == k;
                assert(self.entries()[j].0 == k);
            }
            assert(self@.dom().subset_of(other@.dom()));
            vstd::set_lib::lemma_subset_equality(self@.dom(), other@.dom());
            assert(self@.dom() == other@.dom());
        }
        true
    }
}

impl PartialEqSpecImpl for DataValue {
    open spec fn obeys_eq_spec() -> bool {
        true
    }

    open spec fn eq_spec(&self, other: &DataValue) -> bool {
        same_items(self@, other@)
    }
}

} // verus!
