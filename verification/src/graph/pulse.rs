//! Pulses: the state that a node of the graph holds after an evaluation, and that it
//! passes on to its targets.
use vstd::prelude::*;

use crate::data::{copy_items, copy_values, same_values, DataItem, DataValue, Number};
use crate::scene::{copy_items as copy_scene_items, lemma_same_items_reflexive, same_items, SceneItem};

verus! {

/// The state of a node for an evaluation.
#[derive(Debug, PartialEq)]
pub enum Pulse {
    /// A single state.
    Single(SinglePulse),
    /// Several single states collected together, as a node with more than one source
    /// receives them.
    Multi(MultiPulse),
}

/// A single state: a constant record, a list of records, a list of shapes or a
/// resolved domain.
#[derive(Debug, PartialEq)]
pub enum SinglePulse {
    Constant(DataValue),
    Data(Vec<DataValue>),
    Shapes(Vec<SceneItem>),
    Domain(ResolvedDomain),
}

/// A number of single pulses collected together.
#[derive(Debug, PartialEq)]
pub struct MultiPulse {
    pub pulses: Vec<SinglePulse>,
}

/// A domain resolved from data: an interval, or a list of discrete values.
#[derive(Debug, PartialEq)]
pub enum ResolvedDomain {
    Interval(Number, Number),
    Discrete { values: Vec<DataItem>, outer_padding: bool },
}

/// Two domains of the same interval, or of the same discrete items.
pub open spec fn same_domain(a: ResolvedDomain, b: ResolvedDomain) -> bool {
    match (a, b) {
        (ResolvedDomain::Interval(min_a, max_a), ResolvedDomain::Interval(min_b, max_b)) => min_a
            == min_b && max_a == max_b,
        (
            ResolvedDomain::Discrete { values: values_a, outer_padding: padding_a },
            ResolvedDomain::Discrete { values: values_b, outer_padding: padding_b },
        ) => values_a@ == values_b@ && padding_a == padding_b,
        _ => false,
    }
}

impl ResolvedDomain {
    /// A copy of the domain.
    pub fn copy(&self) -> (d: ResolvedDomain)
        ensures
            same_domain(d, *self),
    {
        match self {
            ResolvedDomain::Interval(min, max) => ResolvedDomain::Interval(*min, *max),
            ResolvedDomain::Discrete { values, outer_padding } => ResolvedDomain::Discrete {
                values: copy_items(values),
                outer_padding: *outer_padding,
            },
        }
    }
}

/// Two single pulses of the same kind holding the same things: records with the same
/// items, shapes that draw the same, or the same domain.
pub open spec fn same_single(a: SinglePulse, b: SinglePulse) -> bool {
    match (a, b) {
        (SinglePulse::Constant(x), SinglePulse::Constant(y)) => x@ == y@,
        (SinglePulse::Data(x), SinglePulse::Data(y)) => same_values(x@, y@),
        (SinglePulse::Shapes(x), SinglePulse::Shapes(y)) => same_items(x@, y@),
        (SinglePulse::Domain(x), SinglePulse::Domain(y)) => same_domain(x, y),
        _ => false,
    }
}

/// Two lists of single pulses of the same length, pulse by pulse the same.
pub open spec fn same_singles(a: Seq<SinglePulse>, b: Seq<SinglePulse>) -> bool {
    &&& a.len() == b.len()
    &&& forall|i: int| 0 <= i < a.len() ==> #[trigger] same_single(a[i], b[i])
}

/// Two pulses of the same kind holding the same single pulses.
pub open spec fn same_pulse(a: Pulse, b: Pulse) -> bool {
    match (a, b) {
        (Pulse::Single(x), Pulse::Single(y)) => same_single(x, y),
        (Pulse::Multi(x), Pulse::Multi(y)) => same_singles(x.pulses@, y.pulses@),
        _ => false,
    }
}

/// Every single pulse holds the same as itself.
pub proof fn lemma_same_single_reflexive(a: SinglePulse)
    ensures
        same_single(a, a),
{
    if let SinglePulse::Shapes(shapes) = a {
        lemma_same_items_reflexive(shapes@);
    }
}

/// Every list of single pulses is pulse by pulse the same as itself.
pub proof fn lemma_same_singles_reflexive(a: Seq<SinglePulse>)
    ensures
        same_singles(a, a),
{
    assert forall|i: int| 0 <= i < a.len() implies #[trigger] same_single(a[i], a[i]) by {
        lemma_same_single_reflexive(a[i]);
    }
}

/// The single pulses that a pulse holds: itself when it is single, its parts when it is
/// a multi pulse.
pub open spec fn singles_of(pulse: Pulse) -> Seq<SinglePulse> {
    match pulse {
        Pulse::Single(single) => seq![single],
        Pulse::Multi(multi) => multi.pulses@,
    }
}

/// The single pulses of a list of pulses, in order.
pub open spec fn flatten(pulses: Seq<Pulse>) -> Seq<SinglePulse>
    decreases pulses.len(),
{
    if pulses.len() == 0 {
        Seq::empty()
    } else {
        flatten(pulses.drop_last()) + singles_of(pulses.last())
    }
}

/// Flattening two lists of pulses, pulse by pulse the same, gives lists of single pulses
/// that are the same.
pub proof fn lemma_flatten_same(a: Seq<Pulse>, b: Seq<Pulse>)
    requires
        a.len() == b.len(),
        forall|i: int| 0 <= i < a.len() ==> #[trigger] same_pulse(a[i], b[i]),
    ensures
        same_singles(flatten(a), flatten(b)),
    decreases a.len(),
{
    if a.len() > 0 {
        lemma_flatten_same(a.drop_last(), b.drop_last());
        let fa = flatten(a.drop_last());
        let fb = flatten(b.drop_last());
        let la = singles_of(a.last());
        let lb = singles_of(b.last());
        assert(same_pulse(a[a.len() - 1], b[b.len() - 1]));
        assert(same_singles(la, lb));
        assert forall|i: int| 0 <= i < fa.len() + la.len() implies #[trigger] same_single(
            (fa + la)[i],
            (fb + lb)[i],
        ) by {
            if i < fa.len() {
                assert(same_single(fa[i], fb[i]));
            } else {
                assert(same_single(la[i - fa.len()], lb[i - fa.len()]));
            }
        }
    }
}

/// `pulse` is what merging pulses whose single pulses are `singles` gives: an empty data
/// pulse when there are none; otherwise a single pulse when there is one and a multi
/// pulse when there are more, holding the same single pulses, in order.
pub open spec fn merged(singles: Seq<SinglePulse>, pulse: Pulse) -> bool {
    if singles.len() == 0 {
        pulse matches Pulse::Single(SinglePulse::Data(values)) && values@.len() == 0
    } else {
        &&& (pulse is Single <==> singles.len() == 1)
        &&& same_singles(singles_of(pulse), singles)
    }
}

impl SinglePulse {
    /// A copy of the pulse.
    pub fn copy(&self) -> (p: SinglePulse)
        ensures
            same_single(p, *self),
    {
        match self {
            SinglePulse::Constant(value) => SinglePulse::Constant(value.copy()),
            SinglePulse::Data(values) => SinglePulse::Data(copy_values(values)),
            SinglePulse::Shapes(shapes) => SinglePulse::Shapes(copy_scene_items(shapes)),
            SinglePulse::Domain(domain) => SinglePulse::Domain(domain.copy()),
        }
    }
}

/// A copy of a list of single pulses.
pub fn copy_singles(pulses: &Vec<SinglePulse>) -> (r: Vec<SinglePulse>)
    ensures
        same_singles(r@, pulses@),
{
    let mut r: Vec<SinglePulse> = Vec::new();
    let mut i: usize = 0;
    while i < pulses.len()
        invariant
            i <= pulses@.len(),
            r@.len() == i,
            forall|j: int| 0 <= j < i ==> #[trigger] same_single(r@[j], pulses@[j]),
        decreases pulses@.len() - i,
    {
        r.push(pulses[i].copy());
        i = i + 1;
    }
    r
}

impl Pulse {
    /// A multi pulse of the given single pulses.
    pub fn multi(pulses: Vec<SinglePulse>) -> (p: Pulse)
        ensures
            p == Pulse::Multi(MultiPulse { pulses }),
    {
        Pulse::Multi(MultiPulse::new(pulses))
    }

    /// A single pulse of records.
    pub fn data(values: Vec<DataValue>) -> (p: Pulse)
        ensures
            p == Pulse::Single(SinglePulse::Data(values)),
    {
        Pulse::Single(SinglePulse::Data(values))
    }

    /// A single pulse of one constant record.
    pub fn constant(value: DataValue) -> (p: Pulse)
        ensures
            p == Pulse::Single(SinglePulse::Constant(value)),
    {
        Pulse::Single(SinglePulse::Constant(value))
    }

    /// A single pulse of shapes.
    pub fn shapes(values: Vec<SceneItem>) -> (p: Pulse)
        ensures
            p == Pulse::Single(SinglePulse::Shapes(values)),
    {
        Pulse::Single(SinglePulse::Shapes(values))
    }

    /// A single pulse of a resolved domain.
    pub fn domain(domain: ResolvedDomain) -> (p: Pulse)
        ensures
            p == Pulse::Single(SinglePulse::Domain(domain)),
    {
        Pulse::Single(SinglePulse::Domain(domain))
    }

    /// An empty single pulse, holding no records.
    pub fn init() -> (p: Pulse)
        ensures
            p matches Pulse::Single(SinglePulse::Data(values)) && values@.len() == 0,
    {
        Pulse::data(Vec::new())
    }

    /// A copy of the pulse.
    pub fn copy(&self) -> (p: Pulse)
        ensures
            same_pulse(p, *self),
    {
        match self {
            Pulse::Single(single) => Pulse::Single(single.copy()),
            Pulse::Multi(multi) => Pulse::Multi(MultiPulse { pulses: copy_singles(&multi.pulses) }),
        }
    }

    /// Merge pulses together: all their single pulses are collected, in order; none makes
    /// an empty data pulse, one makes a single pulse and more make a multi pulse.
    pub fn merge(pulses: Vec<Pulse>) -> (p: Pulse)
        ensures
            merged(flatten(pulses@), p),
            flatten(pulses@).len() > 0 ==> singles_of(p) == flatten(pulses@),
    {
        let ghost all = pulses@;
        let mut pulses = pulses;
        let mut singles: Vec<SinglePulse> = Vec::new();
        let ghost mut i: int = 0;
        while pulses.len() > 0
            invariant
                0 <= i <= all.len(),
                i + pulses@.len() == all.len(),
                pulses@ == all.skip(i as int),
                singles@ == flatten(all.take(i as int)),
            decreases pulses@.len(),
        {
            proof {
                assert(all.take(i + 1).drop_last() =~= all.take(i as int));
                assert(all.take(i + 1).last() == all[i as int]);
            }
            let pulse = pulses.remove(0);
            match pulse {
                Pulse::Single(single) => {
                    singles.push(single);
                },
                Pulse::Multi(multi) => {
                    let mut parts = multi.pulses;
                    singles.append(&mut parts);
                },
            }
            assert(singles@ =~= flatten(all.take(i + 1)));
            assert(pulses@ =~= all.skip(i + 1));
            proof {
                i = i + 1;
            }
        }
        assert(all.take(i) =~= all);
        proof {
            lemma_same_singles_reflexive(singles@);
        }
        if singles.len() == 0 {
            Pulse::data(Vec::new())
        } else if singles.len() == 1 {
            let ghost whole = singles@;
            let single = singles.pop().unwrap();
            assert(seq![single] =~= whole);
            Pulse::Single(single)
        } else {
            Pulse::multi(singles)
        }
    }
}

/// The number of records of a data pulse; other pulses hold none.
pub open spec fn data_len(pulse: SinglePulse) -> nat {
    match pulse {
        SinglePulse::Data(values) => values@.len(),
        _ => 0,
    }
}

/// The first position, from `i` on, of a data pulse holding at least one record; the
/// length of `pulses` when there is none.
pub open spec fn first_data_from(pulses: Seq<SinglePulse>, i: int) -> int
    decreases pulses.len() - i,
{
    if i >= pulses.len() || i < 0 {
        pulses.len() as int
    } else if data_len(pulses[i]) > 0 {
        i
    } else {
        first_data_from(pulses, i + 1)
    }
}

/// The items of the `j`-th record of the data pulse at `base`, joined with those of the
/// `j`-th record of every later data pulse before `upto` that has one (a later item for a
/// key replacing an earlier one).
pub open spec fn joined_record(pulses: Seq<SinglePulse>, base: int, j: int, upto: int) -> Map<
    Seq<char>,
    DataItem,
>
    decreases upto - base,
{
    if upto <= base + 1 {
        match pulses[base] {
            SinglePulse::Data(values) => values@[j]@,
            _ => Map::empty(),
        }
    } else {
        let before = joined_record(pulses, base, j, upto - 1);
        match pulses[upto - 1] {
            SinglePulse::Data(values) => if j < values@.len() {
                before.union_prefer_right(values@[j]@)
            } else {
                before
            },
            _ => before,
        }
    }
}

/// The items of all the constant pulses before `upto`, a later item for a key replacing
/// an earlier one.
pub open spec fn joined_constants(pulses: Seq<SinglePulse>, upto: int) -> Map<Seq<char>, DataItem>
    decreases upto,
{
    if upto <= 0 {
        Map::empty()
    } else {
        let before = joined_constants(pulses, upto - 1);
        match pulses[upto - 1] {
            SinglePulse::Constant(value) => before.union_prefer_right(value@),
            _ => before,
        }
    }
}

/// The records that aggregating `pulses` makes: one for each record of the first data
/// pulse that holds any; record `j` joins the `j`-th records of the data pulses from that
/// one on, then the items of every constant pulse.
pub open spec fn aggregated(pulses: Seq<SinglePulse>, values: Seq<DataValue>) -> bool {
    let base = first_data_from(pulses, 0);
    &&& values.len() == (if base < pulses.len() {
        data_len(pulses[base])
    } else {
        0
    })
    &&& forall|j: int|
        0 <= j < values.len() ==> (#[trigger] values[j])@ == joined_record(
            pulses,
            base,
            j,
            pulses.len() as int,
        ).union_prefer_right(joined_constants(pulses, pulses.len() as int))
}

proof fn lemma_first_data_bounds(pulses: Seq<SinglePulse>, i: int)
    requires
        0 <= i,
    ensures
        i <= first_data_from(pulses, i) || i > pulses.len(),
        first_data_from(pulses, i) <= pulses.len(),
        first_data_from(pulses, i) < pulses.len() ==> data_len(pulses[first_data_from(pulses, i)])
            > 0,
    decreases pulses.len() - i,
{
    if i < pulses.len() && data_len(pulses[i]) == 0 {
        lemma_first_data_bounds(pulses, i + 1);
    }
}

proof fn lemma_first_data_skip(pulses: Seq<SinglePulse>, i: int)
    requires
        0 <= i < pulses.len(),
        data_len(pulses[i]) == 0,
    ensures
        first_data_from(pulses, i) == first_data_from(pulses, i + 1),
{
}

impl MultiPulse {
    /// A multi pulse of the given single pulses.
    pub fn new(pulses: Vec<SinglePulse>) -> (m: MultiPulse)
        ensures
            m.pulses == pulses,
    {
        MultiPulse { pulses }
    }

    /// Aggregate the pulses into a single data pulse.
    pub fn aggregate(&self) -> (p: SinglePulse)
        ensures
            p matches SinglePulse::Data(values) && aggregated(self.pulses@, values@),
    {
        let ghost ps = self.pulses@;
        proof {
            lemma_first_data_bounds(ps, 0);
        }
        let mut records: Vec<DataValue> = Vec::new();
        let mut constants = DataValue::new();
        let mut i: usize = 0;
        while i < self.pulses.len()
            invariant
                i <= ps.len(),
                ps == self.pulses@,
                0 <= first_data_from(ps, 0) <= ps.len(),
                first_data_from(ps, 0) < ps.len() ==> data_len(ps[first_data_from(ps, 0)]) > 0,
                constants@ == joined_constants(ps, i as int),
                first_data_from(ps, 0) < i ==> {
                    let base = first_data_from(ps, 0);
                    &&& records@.len() == data_len(ps[base])
                    &&& forall|j: int|
                        0 <= j < records@.len() ==> (#[trigger] records@[j])@ == joined_record(
                            ps,
                            base,
                            j,
                            i as int,
                        )
                },
                first_data_from(ps, 0) >= i ==> records@.len() == 0 && first_data_from(ps, 0)
                    == first_data_from(ps, i as int),
            decreases ps.len() - i,
        {
            let ghost base = first_data_from(ps, 0);
            match &self.pulses[i] {
                SinglePulse::Data(values) => {
                    if records.len() == 0 {
                        if values.len() > 0 {
                            records = copy_values(values);
                            assert(first_data_from(ps, i as int) == i);
                            assert forall|j: int| 0 <= j < records@.len() implies (#[trigger] records@[j])@
                                == joined_record(ps, base, j, i + 1) by {}
                        } else {
                            proof {
                                lemma_first_data_skip(ps, i as int);
                            }
                        }
                    } else {
                        let ghost prev = records@;
                        let mut j: usize = 0;
                        while j < values.len()
                            invariant
                                j <= values@.len(),
                                ps == self.pulses@,
                                0 <= base < i,
                                ps[i as int] == SinglePulse::Data(*values),
                                records@.len() == prev.len(),
                                forall|k: int|
                                    0 <= k < records@.len() && k >= j ==> (#[trigger] records@[k])
                                        == prev[k],
                                forall|k: int|
                                    0 <= k < records@.len() && k < j ==> (#[trigger] records@[k])@
                                        == prev[k]@.union_prefer_right(values@[k]@),
                            decreases values@.len() - j,
                        {
                            if j < records.len() {
                                let mut record = records[j].copy();
                                record.extend_with(&values[j]);
                                records.set(j, record);
                            }
                            j = j + 1;
                        }
                        assert forall|k: int| 0 <= k < records@.len() implies (#[trigger] records@[k])@
                            == joined_record(ps, base, k, i + 1) by {
                            if k < values@.len() {
                            } else {
                                assert(records@[k] == prev[k]);
                            }
                        }
                    }
                },
                SinglePulse::Constant(value) => {
                    constants.extend_with(value);
                    proof {
                        if base >= i {
                            lemma_first_data_skip(ps, i as int);
                        }
                    }
                },
                _ => {
                    proof {
                        if base >= i {
                            lemma_first_data_skip(ps, i as int);
                        }
                    }
                },
            }
            i = i + 1;
        }
        let ghost base = first_data_from(ps, 0);
        let ghost prev = records@;
        let mut j: usize = 0;
        while j < records.len()
            invariant
                j <= records@.len(),
                records@.len() == prev.len(),
                ps == self.pulses@,
                forall|k: int|
                    0 <= k < records@.len() && k >= j ==> (#[trigger] records@[k]) == prev[k],
                forall|k: int|
                    0 <= k < records@.len() && k < j ==> (#[trigger] records@[k])@
                        == prev[k]@.union_prefer_right(constants@),
            decreases records@.len() - j,
        {
            let mut record = records[j].copy();
            record.extend_with(&constants);
            records.set(j, record);
            j = j + 1;
        }
        assert(first_data_from(ps, ps.len() as int) == ps.len());
        SinglePulse::Data(records)
    }
}


/// Merging a single pulse on its own gives that pulse back: a single pulse holding the
/// same.
pub proof fn lemma_merge_one_single(single: SinglePulse, pulse: Pulse)
    requires
        merged(flatten(seq![Pulse::Single(single)]), pulse),
    ensures
        pulse matches Pulse::Single(s) && same_single(s, single),
{
    let pulses = seq![Pulse::Single(single)];
    assert(pulses.drop_last() =~= Seq::<Pulse>::empty());
    assert(flatten(Seq::<Pulse>::empty()) == Seq::<SinglePulse>::empty());
    assert(pulses.last() == Pulse::Single(single));
    assert(flatten(pulses) =~= seq![single]);
    assert(same_single(singles_of(pulse)[0], single));
}

/// Merging no pulse gives an empty data pulse.
pub proof fn lemma_merge_none(pulse: Pulse)
    requires
        merged(flatten(Seq::<Pulse>::empty()), pulse),
    ensures
        pulse matches Pulse::Single(SinglePulse::Data(values)) && values@.len() == 0,
{
}

/// Aggregating a lone data pulse gives its records back, item for item.
pub proof fn lemma_aggregate_one_data(values: Vec<DataValue>, records: Seq<DataValue>)
    requires
        aggregated(seq![SinglePulse::Data(values)], records),
    ensures
        same_values(records, values@),
{
    let ps = seq![SinglePulse::Data(values)];
    if values@.len() > 0 {
        assert(first_data_from(ps, 0) == 0);
    } else {
        assert(first_data_from(ps, 0) == first_data_from(ps, 1));
    }
    assert(joined_constants(ps, 0) == Map::<Seq<char>, DataItem>::empty());
    assert forall|j: int| 0 <= j < records.len() implies (#[trigger] records[j])@ == values@[j]@ by {
        assert(joined_record(ps, 0, j, 1) == values@[j]@);
        assert(joined_record(ps, 0, j, 1).union_prefer_right(Map::<Seq<char>, DataItem>::empty())
            =~= values@[j]@);
    }
}
} // verus!
