//! Transform pipes of a data source: maps, filters and groupings of its records.
use vstd::prelude::*;

use crate::data::{DataItem, DataValue};

verus! {

/// A transform step applied to the records of a data source.
#[derive(Debug, PartialEq)]
pub enum Pipe {
    Filter(FilterPipe),
    Mapping(MapPipe),
    Group(GroupPipe),
}

impl Pipe {
    /// A copy of the pipe.
    pub fn copy(&self) -> (p: Pipe)
        ensures
            p == *self,
    {
        match self {
            Pipe::Filter(filter) => Pipe::Filter(filter.copy()),
            Pipe::Mapping(map) => Pipe::Mapping(map.copy()),
            Pipe::Group(group) => Pipe::Group(group.copy()),
        }
    }
}

/// Keeps the records for which a predicate expression holds, such as `a > 2`.
#[derive(Debug, PartialEq)]
pub struct FilterPipe {
    pub predicate: FilterPredicate,
}

/// The text of a predicate expression.
#[derive(Debug, PartialEq)]
pub struct FilterPredicate {
    pub source: String,
}

impl FilterPipe {
    /// A filter by the predicate expression `predicate`.
    pub fn new(predicate: &str) -> (p: FilterPipe)
        ensures
            p.predicate.source@ == predicate@,
    {
        FilterPipe { predicate: FilterPredicate { source: predicate.to_owned() } }
    }

    /// A copy of the pipe.
    pub fn copy(&self) -> (p: FilterPipe)
        ensures
            p == *self,
    {
        FilterPipe { predicate: FilterPredicate { source: self.predicate.source.clone() } }
    }
}

/// Computes an expression, such as `a + 2`, for each record and stores its value in the
/// `output` field.
#[derive(Debug, PartialEq)]
pub struct MapPipe {
    pub predicate: MapPredicate,
    pub output: String,
}

/// The text of a value expression.
#[derive(Debug, PartialEq)]
pub struct MapPredicate {
    pub source: String,
}

impl MapPipe {
    /// A map by the expression `predicate` into the field `output`.
    pub fn new(predicate: &str, output: &str) -> (p: MapPipe)
        ensures
            p.predicate.source@ == predicate@,
            p.output@ == output@,
    {
        MapPipe { predicate: MapPredicate { source: predicate.to_owned() }, output: output.to_owned() }
    }

    /// A copy of the pipe.
    pub fn copy(&self) -> (p: MapPipe)
        ensures
            p == *self,
    {
        MapPipe {
            predicate: MapPredicate { source: self.predicate.source.clone() },
            output: self.output.clone(),
        }
    }

    /// Store `value`, the expression's value for the record `item`, in the output field.
    pub fn apply(&self, item: &mut DataValue, value: DataItem)
        ensures
            final(item)@ == old(item)@.insert(self.output@, value),
    {
        item.insert(self.output.as_str(), value);
    }
}

/// Groups the records by the value of the field `by`, computing `op` for each group into
/// the field `output`.
#[derive(Debug, PartialEq)]
pub struct GroupPipe {
    pub by: String,
    pub op: GroupOperator,
    pub output: String,
}

impl GroupPipe {
    /// A grouping by the field `by`.
    pub fn new(by: &str, op: GroupOperator, output: &str) -> (p: GroupPipe)
        ensures
            p.by@ == by@,
            p.op == op,
            p.output@ == output@,
    {
        GroupPipe { by: by.to_owned(), op, output: output.to_owned() }
    }

    /// A copy of the pipe.
    pub fn copy(&self) -> (p: GroupPipe)
        ensures
            p == *self,
    {
        GroupPipe { by: self.by.clone(), op: self.op, output: self.output.clone() }
    }
}

/// The computation made for each group.
#[derive(Debug, PartialEq, Eq, Structural, Clone, Copy)]
pub enum GroupOperator {
    /// The number of records in the group.
    Count,
}

impl GroupOperator {
    /// The operator named `string`: `count` is the only one.
    pub fn from_string(string: &str) -> (op: Option<GroupOperator>)
        ensures
            op == (if string@ == "count"@ {
                Some(GroupOperator::Count)
            } else {
                None::<GroupOperator>
            }),
    {
        if string.to_owned() == "count".to_owned() {
            Some(GroupOperator::Count)
        } else {
            None
        }
    }
}


/// A field of a pipe's description.
#[derive(Debug, PartialEq, Eq, Structural, Clone, Copy)]
pub enum PipeField {
    /// The expression of the pipe, `fn`.
    Expression,
    /// The output field of a map, `output`.
    Output,
}

/// Why a pipe's description is refused.
#[derive(Debug, PartialEq, Eq, Structural, Clone, Copy)]
pub enum PipeFieldError {
    /// The field is given twice.
    Duplicate(PipeField),
    /// The field is not given.
    Missing(PipeField),
}

/// The named values of a description, with their names as character sequences.
pub open spec fn entries_view(entries: Seq<(String, Option<String>)>) -> Seq<(Seq<char>, Option<Seq<char>>)> {
    entries.map_values(
        |e: (String, Option<String>)|
            (
                e.0@,
                match e.1 {
                    Some(v) => Some(v@),
                    None => None,
                },
            ),
    )
}

/// The expression and output that a map pipe's description gives, read entry by entry: an
/// `fn` or `output` entry sets the field, and is refused when the field already holds a
/// value; other entries are passed over.
pub open spec fn map_fields(entries: Seq<(Seq<char>, Option<Seq<char>>)>) -> Result<(Option<Seq<char>>, Option<Seq<char>>), PipeFieldError>
    decreases entries.len(),
{
    if entries.len() == 0 {
        Ok((None, None))
    } else {
        match map_fields(entries.drop_last()) {
            Err(e) => Err(e),
            Ok((expression, output)) => {
                let (key, value) = entries.last();
                if key == "fn"@ {
                    if expression is Some {
                        Err(PipeFieldError::Duplicate(PipeField::Expression))
                    } else {
                        Ok((value, output))
                    }
                } else if key == "output"@ {
                    if output is Some {
                        Err(PipeFieldError::Duplicate(PipeField::Output))
                    } else {
                        Ok((expression, value))
                    }
                } else {
                    Ok((expression, output))
                }
            },
        }
    }
}

/// The expression that a filter pipe's description gives, read entry by entry: every entry
/// sets it, and an `fn` entry is refused when it already holds one.
pub open spec fn filter_field(entries: Seq<(Seq<char>, Seq<char>)>) -> Result<Option<Seq<char>>, PipeFieldError>
    decreases entries.len(),
{
    if entries.len() == 0 {
        Ok(None)
    } else {
        match filter_field(entries.drop_last()) {
            Err(e) => Err(e),
            Ok(expression) => {
                let (key, value) = entries.last();
                if key == "fn"@ && expression is Some {
                    Err(PipeFieldError::Duplicate(PipeField::Expression))
                } else {
                    Ok(Some(value))
                }
            },
        }
    }
}

/// Whether `text` reads `expected`.
fn text_is(text: &String, expected: &str) -> (r: bool)
    ensures
        r == (text@ == expected@),
{
    *text == expected.to_owned()
}

impl MapPipe {
    /// The map pipe that a description of named values gives: its `fn` and `output` entries;
    /// an entry given twice, or one missing, refuses it.
    pub fn from_entries(entries: &Vec<(String, Option<String>)>) -> (r: Result<MapPipe, PipeFieldError>)
        ensures
            match map_fields(entries_view(entries@)) {
                Err(e) => r == Err::<MapPipe, PipeFieldError>(e),
                Ok((None, _)) => r == Err::<MapPipe, PipeFieldError>(
                    PipeFieldError::Missing(PipeField::Expression),
                ),
                Ok((Some(_), None)) => r == Err::<MapPipe, PipeFieldError>(
                    PipeFieldError::Missing(PipeField::Output),
                ),
                Ok((Some(expression), Some(output))) => r matches Ok(pipe)
                    && pipe.predicate.source@ == expression && pipe.output@ == output,
            },
    {
        let ghost all = entries_view(entries@);
        let mut expression: Option<String> = None;
        let mut output: Option<String> = None;
        let mut i: usize = 0;
        while i < entries.len()
            invariant
                i <= entries@.len(),
                all == entries_view(entries@),
                map_fields(all.take(i as int)) == Ok::<(Option<Seq<char>>, Option<Seq<char>>), PipeFieldError>(
                    (
                        match expression {
                            Some(e) => Some(e@),
                            None => None,
                        },
                        match output {
                            Some(o) => Some(o@),
                            None => None,
                        },
                    ),
                ),
            decreases entries@.len() - i,
        {
            proof {
                assert(all.take(i + 1).drop_last() =~= all.take(i as int));
                assert(all.take(i + 1).last() == all[i as int]);
            }
            let (key, value) = (&entries[i].0, &entries[i].1);
            if text_is(key, "fn") {
                if expression.is_some() {
                    proof {
                        lemma_map_fields_error(all, i as int + 1);
                    }
                    return Err(PipeFieldError::Duplicate(PipeField::Expression));
                }
                expression = copy_text(value);
            } else if text_is(key, "output") {
                if output.is_some() {
                    proof {
                        lemma_map_fields_error(all, i as int + 1);
                    }
                    return Err(PipeFieldError::Duplicate(PipeField::Output));
                }
                output = copy_text(value);
            }
            i = i + 1;
        }
        assert(all.take(i as int) =~= all);
        match (expression, output) {
            (None, _) => Err(PipeFieldError::Missing(PipeField::Expression)),
            (Some(_), None) => Err(PipeFieldError::Missing(PipeField::Output)),
            (Some(e), Some(o)) => Ok(MapPipe::new(e.as_str(), o.as_str())),
        }
    }
}

/// The names of the entries are distinct.
pub open spec fn distinct_names(entries: Seq<(Seq<char>, Option<Seq<char>>)>) -> bool {
    forall|i: int, j: int| 0 <= i < j < entries.len() ==> (#[trigger] entries[i]).0 != (#[trigger] entries[j]).0
}

/// The value of the last entry named `name`; none when no entry has that name.
pub open spec fn value_of(entries: Seq<(Seq<char>, Option<Seq<char>>)>, name: Seq<char>) -> Option<Seq<char>>
    decreases entries.len(),
{
    if entries.len() == 0 {
        None
    } else if entries.last().0 == name {
        entries.last().1
    } else {
        value_of(entries.drop_last(), name)
    }
}

proof fn lemma_value_of_absent(entries: Seq<(Seq<char>, Option<Seq<char>>)>, name: Seq<char>)
    requires
        forall|i: int| 0 <= i < entries.len() ==> (#[trigger] entries[i]).0 != name,
    ensures
        value_of(entries, name) is None,
    decreases entries.len(),
{
    if entries.len() > 0 {
        let init = entries.drop_last();
        assert forall|i: int| 0 <= i < init.len() implies (#[trigger] init[i]).0 != name by {
            assert(init[i] == entries[i]);
        }
        assert(entries.last() == entries[entries.len() - 1]);
        lemma_value_of_absent(init, name);
    }
}

proof fn lemma_value_of_present(entries: Seq<(Seq<char>, Option<Seq<char>>)>, k: int)
    requires
        distinct_names(entries),
        0 <= k < entries.len(),
    ensures
        value_of(entries, entries[k].0) == entries[k].1,
    decreases entries.len(),
{
    let init = entries.drop_last();
    if k < entries.len() - 1 {
        assert(entries[k] == init[k]);
        assert(entries.last() == entries[entries.len() - 1]);
        assert(entries[k].0 != entries[entries.len() - 1].0);
        assert forall|i: int, j: int| 0 <= i < j < init.len() implies (#[trigger] init[i]).0 != (
        #[trigger] init[j]).0 by {
            assert(init[i] == entries[i]);
            assert(init[j] == entries[j]);
        }
        lemma_value_of_present(init, k);
    }
}

/// With distinct names, a map pipe's description is never refused for a field given twice,
/// and gives the values of its `fn` and `output` entries.
proof fn lemma_map_fields_distinct(entries: Seq<(Seq<char>, Option<Seq<char>>)>)
    requires
        distinct_names(entries),
    ensures
        map_fields(entries) == Ok::<(Option<Seq<char>>, Option<Seq<char>>), PipeFieldError>(
            (value_of(entries, "fn"@), value_of(entries, "output"@)),
        ),
    decreases entries.len(),
{
    if entries.len() > 0 {
        let init = entries.drop_last();
        assert forall|i: int, j: int| 0 <= i < j < init.len() implies (#[trigger] init[i]).0 != (
        #[trigger] init[j]).0 by {
            assert(init[i] == entries[i]);
            assert(init[j] == entries[j]);
        }
        lemma_map_fields_distinct(init);
        let key = entries.last().0;
        assert(entries.last() == entries[entries.len() - 1]);
        assert forall|i: int| 0 <= i < init.len() implies (#[trigger] init[i]).0 != key by {
            assert(init[i] == entries[i]);
        }
        lemma_value_of_absent(init, key);
        reveal_strlit("fn");
        reveal_strlit("output");
        assert("fn"@.len() == 2);
        assert("output"@.len() == 6);
        assert("fn"@ != "output"@);
    }
}

/// The map pipe that a description gives does not depend on the order of its entries when
/// their names are distinct: two descriptions with the same entries, each with distinct
/// names, give the same fields (or the same refusal).
pub proof fn lemma_map_fields_any_order(
    a: Seq<(Seq<char>, Option<Seq<char>>)>,
    b: Seq<(Seq<char>, Option<Seq<char>>)>,
)
    requires
        distinct_names(a),
        distinct_names(b),
        a.to_set() == b.to_set(),
    ensures
        map_fields(a) == map_fields(b),
{
    lemma_map_fields_distinct(a);
    lemma_map_fields_distinct(b);
    assert forall|name: Seq<char>| value_of(a, name) == value_of(b, name) by {
        if exists|i: int| 0 <= i < a.len() && a[i].0 == name {
            let i = choose|i: int| 0 <= i < a.len() && a[i].0 == name;
            assert(a.to_set().contains(a[i]));
            assert(b.to_set().contains(a[i]));
            let j = choose|j: int| 0 <= j < b.len() && b[j] == a[i];
            lemma_value_of_present(a, i);
            lemma_value_of_present(b, j);
        } else {
            lemma_value_of_absent(a, name);
            if exists|j: int| 0 <= j < b.len() && b[j].0 == name {
                let j = choose|j: int| 0 <= j < b.len() && b[j].0 == name;
                assert(b.to_set().contains(b[j]));
                assert(a.to_set().contains(b[j]));
                let i = choose|i: int| 0 <= i < a.len() && a[i] == b[j];
                assert(a[i].0 == name);
            }
            lemma_value_of_absent(b, name);
        }
    }
}

/// A refusal in the first `k` entries of a map pipe's description is a refusal of all of
/// them.
proof fn lemma_map_fields_error(entries: Seq<(Seq<char>, Option<Seq<char>>)>, k: int)
    requires
        0 <= k <= entries.len(),
        map_fields(entries.take(k)) is Err,
    ensures
        map_fields(entries) == map_fields(entries.take(k)),
    decreases entries.len() - k,
{
    if k < entries.len() {
        assert(entries.take(k + 1).drop_last() =~= entries.take(k));
        lemma_map_fields_error(entries, k + 1);
    } else {
        assert(entries.take(k) =~= entries);
    }
}

/// A refusal in the first `k` entries of a filter pipe's description is a refusal of all of
/// them.
proof fn lemma_filter_field_error(entries: Seq<(Seq<char>, Seq<char>)>, k: int)
    requires
        0 <= k <= entries.len(),
        filter_field(entries.take(k)) is Err,
    ensures
        filter_field(entries) == filter_field(entries.take(k)),
    decreases entries.len() - k,
{
    if k < entries.len() {
        assert(entries.take(k + 1).drop_last() =~= entries.take(k));
        lemma_filter_field_error(entries, k + 1);
    } else {
        assert(entries.take(k) =~= entries);
    }
}

/// A copy of an optional text.
fn copy_text(text: &Option<String>) -> (r: Option<String>)
    ensures
        match r {
            Some(t) => text matches Some(s) && t@ == s@,
            None => text is None,
        },
{
    match text {
        Some(t) => Some(t.clone()),
        None => None,
    }
}

/// The named values of a filter pipe's description, with their names and values as
/// character sequences.
pub open spec fn text_entries_view(entries: Seq<(String, String)>) -> Seq<(Seq<char>, Seq<char>)> {
    entries.map_values(|e: (String, String)| (e.0@, e.1@))
}

impl FilterPipe {
    /// The filter pipe that a description of named values gives: the value of its last
    /// entry; a second `fn` entry, or no entry at all, refuses it.
    pub fn from_entries(entries: &Vec<(String, String)>) -> (r: Result<FilterPipe, PipeFieldError>)
        ensures
            match filter_field(text_entries_view(entries@)) {
                Err(e) => r == Err::<FilterPipe, PipeFieldError>(e),
                Ok(None) => r == Err::<FilterPipe, PipeFieldError>(
                    PipeFieldError::Missing(PipeField::Expression),
                ),
                Ok(Some(expression)) => r matches Ok(pipe) && pipe.predicate.source@ == expression,
            },
    {
        let ghost all = text_entries_view(entries@);
        let mut expression: Option<String> = None;
        let mut i: usize = 0;
        while i < entries.len()
            invariant
                i <= entries@.len(),
                all == text_entries_view(entries@),
                filter_field(all.take(i as int)) == Ok::<Option<Seq<char>>, PipeFieldError>(
                    match expression {
                        Some(e) => Some(e@),
                        None => None,
                    },
                ),
            decreases entries@.len() - i,
        {
            proof {
                assert(all.take(i + 1).drop_last() =~= all.take(i as int));
                assert(all.take(i + 1).last() == all[i as int]);
            }
            if text_is(&entries[i].0, "fn") && expression.is_some() {
                proof {
                    lemma_filter_field_error(all, i as int + 1);
                }
                return Err(PipeFieldError::Duplicate(PipeField::Expression));
            }
            expression = Some(entries[i].1.clone());
            i = i + 1;
        }
        assert(all.take(i as int) =~= all);
        match expression {
            None => Err(PipeFieldError::Missing(PipeField::Expression)),
            Some(e) => Ok(FilterPipe::new(e.as_str())),
        }
    }
}
} // verus!
