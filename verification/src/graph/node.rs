//! Nodes of the graph and their operators.
use vstd::prelude::*;

use crate::data::{copy_items, copy_values, same_values, DataItem, DataValue, Number};
use crate::graph::pulse::{singles_of, MultiPulse, Pulse, ResolvedDomain, SinglePulse};
use crate::scale::Scale;
use crate::spec::axis::Axis;
use crate::spec::scale::{Domain, ONE_BITS};
use crate::spec::shape::{
    BarShape, LineShape, PieShape, HEIGHT_FIELD_NAME, WIDTH_FIELD_NAME, X_AXIS_FIELD_NAME,
    Y_AXIS_FIELD_NAME,
};
use crate::spec::transform::{FilterPipe, GroupOperator as GroupOperatorSpec, GroupPipe, MapPipe, Pipe};

verus! {

/// The field that holds the bandwidth that a band scale gives a record.
pub const SCALE_BAND_BANDWIDTH_FIELD_NAME: &'static str = "bandwidth";

/// The field that holds the value of a slice of a pie.
pub const PIE_VALUE_FIELD_NAME: &'static str = "value";

/// The field that holds the outer radius of a pie.
pub const PIE_OUTER_RADIUS_FIELD_NAME: &'static str = "outer_radius";

/// A node of the graph: an operator, and the pulse of its last evaluation.
#[derive(Debug, PartialEq)]
pub struct Node {
    pub operator: Operator,
    pub pulse: Pulse,
}

/// `node` holds `operator` and a pulse with no data, as a node does before its first
/// evaluation.
pub open spec fn is_initial(node: Node, operator: Operator) -> bool {
    &&& node.operator == operator
    &&& node.pulse matches Pulse::Single(SinglePulse::Data(values)) && values@.len() == 0
}

impl Node {
    /// A node of `operator` whose pulse holds no data.
    pub fn init(operator: Operator) -> (n: Node)
        ensures
            n.operator == operator,
            n.pulse matches Pulse::Single(SinglePulse::Data(values)) && values@.len() == 0,
    {
        Node { operator, pulse: Pulse::init() }
    }
}

/// The window of the canvas in which shapes are drawn.
#[derive(Debug, PartialEq, Eq, Structural, Clone, Copy)]
pub struct SceneWindow {
    pub width: usize,
    pub height: usize,
}

impl SceneWindow {
    /// A window of the given width and height.
    pub fn new(width: usize, height: usize) -> (w: SceneWindow)
        ensures
            w == (SceneWindow { width, height }),
    {
        SceneWindow { width, height }
    }
}

/// All the operators that a node can hold.
#[derive(Debug, PartialEq)]
pub enum Operator {
    Data(DataOperator),
    Constant(ConstantOperator),
    Mapping(MapOperator),
    Filter(FilterOperator),
    Group(GroupOperator),
    DomainInterval(DomainIntervalOperator),
    DomainDiscrete(DomainDiscreteOperator),
    Linear(LinearOperator),
    Log(LogOperator),
    Band(BandOperator),
    Identity(IdentityOperator),
    Line(LineOperator),
    Bar(BarOperator),
    Pie(PieOperator),
    Axis(AxisOperator),
}

impl Operator {
    /// An operator whose source is the records `data`.
    pub fn data(data: Vec<DataValue>) -> (o: Operator)
        ensures
            o == Operator::Data(DataOperator { data }),
    {
        Operator::Data(DataOperator { data })
    }

    /// An operator that yields the constant record `value`.
    pub fn constant(value: DataValue) -> (o: Operator)
        ensures
            o == Operator::Constant(ConstantOperator { value }),
    {
        Operator::Constant(ConstantOperator { value })
    }

    /// The operator of a transform pipe.
    pub fn transform(pipe: Pipe) -> (o: Operator)
        ensures
            o == transform_operator(pipe),
    {
        match pipe {
            Pipe::Mapping(map) => Operator::map(map),
            Pipe::Filter(filter) => Operator::filter(filter),
            Pipe::Group(group) => Operator::group(group),
        }
    }

    /// A map operator.
    pub fn map(pipe: MapPipe) -> (o: Operator)
        ensures
            o == Operator::Mapping(MapOperator { pipe }),
    {
        Operator::Mapping(MapOperator { pipe })
    }

    /// A filter operator.
    pub fn filter(pipe: FilterPipe) -> (o: Operator)
        ensures
            o == Operator::Filter(FilterOperator { pipe }),
    {
        Operator::Filter(FilterOperator { pipe })
    }

    /// A group operator.
    pub fn group(pipe: GroupPipe) -> (o: Operator)
        ensures
            o == Operator::Group(group_operator(pipe)),
    {
        Operator::Group(GroupOperator::new(pipe))
    }

    /// An operator that resolves an interval domain.
    pub fn domain_interval(domain: Domain) -> (o: Operator)
        ensures
            o == Operator::DomainInterval(DomainIntervalOperator { domain }),
    {
        Operator::DomainInterval(DomainIntervalOperator { domain })
    }

    /// An operator that resolves a discrete domain.
    pub fn domain_discrete(domain: Domain) -> (o: Operator)
        ensures
            o == Operator::DomainDiscrete(DomainDiscreteOperator { domain }),
    {
        Operator::DomainDiscrete(DomainDiscreteOperator { domain })
    }

    /// A linear scale operator over `range`, from `field` into `output`.
    pub fn linear(range: (Number, Number), field: &str, output: &str) -> (o: Operator)
        ensures
            o matches Operator::Linear(op) && op.range == range && op.field@ == field@
                && op.output@ == output@,
    {
        Operator::Linear(LinearOperator { range, field: field.to_owned(), output: output.to_owned() })
    }

    /// A logarithmic scale operator over `range`, from `field` into `output`.
    pub fn log(range: (Number, Number), field: &str, output: &str) -> (o: Operator)
        ensures
            o matches Operator::Log(op) && op.range == range && op.field@ == field@ && op.output@
                == output@,
    {
        Operator::Log(LogOperator { range, field: field.to_owned(), output: output.to_owned() })
    }

    /// A band scale operator over `range`, from `field` into `output`.
    pub fn band(range: (Number, Number), field: &str, output: &str) -> (o: Operator)
        ensures
            o matches Operator::Band(op) && op.range == range && op.field@ == field@ && op.output@
                == output@,
    {
        Operator::Band(BandOperator { range, field: field.to_owned(), output: output.to_owned() })
    }

    /// An operator that copies `field` into `output`.
    pub fn identity(field: &str, output: &str) -> (o: Operator)
        ensures
            o matches Operator::Identity(op) && op.field@ == field@ && op.output@ == output@,
    {
        Operator::Identity(IdentityOperator { field: field.to_owned(), output: output.to_owned() })
    }

    /// An operator that draws a line.
    pub fn line(shape: LineShape, window: SceneWindow) -> (o: Operator)
        ensures
            o == Operator::Line(LineOperator { shape, window }),
    {
        Operator::Line(LineOperator { shape, window })
    }

    /// An operator that draws bars.
    pub fn bar(shape: BarShape, window: SceneWindow) -> (o: Operator)
        ensures
            o == Operator::Bar(BarOperator { shape, window }),
    {
        Operator::Bar(BarOperator { shape, window })
    }

    /// An operator that draws a pie of the values of `field`.
    pub fn pie(shape: PieShape, field: &str, window: SceneWindow) -> (o: Operator)
        ensures
            o matches Operator::Pie(op) && op.shape == shape && op.field@ == field@ && op.window
                == window,
    {
        Operator::Pie(PieOperator { shape, field: field.to_owned(), window })
    }

    /// An operator that draws an axis.
    pub fn axis(axis: Axis, scale: Scale, window: SceneWindow) -> (o: Operator)
        ensures
            o == Operator::Axis(AxisOperator { axis, scale, window }),
    {
        Operator::Axis(AxisOperator { axis, scale, window })
    }
}

/// The operator that a transform pipe defines.
pub open spec fn transform_operator(pipe: Pipe) -> Operator {
    match pipe {
        Pipe::Mapping(map) => Operator::Mapping(MapOperator { pipe: map }),
        Pipe::Filter(filter) => Operator::Filter(FilterOperator { pipe: filter }),
        Pipe::Group(group) => Operator::Group(group_operator(group)),
    }
}

/// The records that a single pulse holds: those of a data pulse, none otherwise.
pub open spec fn single_records(single: SinglePulse) -> Seq<DataValue> {
    match single {
        SinglePulse::Data(values) => values@,
        _ => Seq::empty(),
    }
}

/// The records of a list of single pulses, in order.
pub open spec fn records_of_singles(singles: Seq<SinglePulse>) -> Seq<DataValue>
    decreases singles.len(),
{
    if singles.len() == 0 {
        Seq::empty()
    } else {
        records_of_singles(singles.drop_last()) + single_records(singles.last())
    }
}

/// The records that a pulse holds: those of each of its data pulses, in order.
pub open spec fn records_of(pulse: Pulse) -> Seq<DataValue> {
    records_of_singles(singles_of(pulse))
}

/// The records held by the data pulses of `pulse`, in order; the records on which the map,
/// filter and identity operators work.
pub fn pulse_records(pulse: &Pulse) -> (r: Vec<DataValue>)
    ensures
        same_values(r@, records_of(*pulse)),
{
    let ghost singles = singles_of(*pulse);
    let mut r: Vec<DataValue> = Vec::new();
    let mut i: usize = 0;
    let count = match pulse {
        Pulse::Single(_) => 1,
        Pulse::Multi(multi) => multi.pulses.len(),
    };
    while i < count
        invariant
            i <= count,
            count == singles.len(),
            singles == singles_of(*pulse),
            same_values(r@, records_of_singles(singles.take(i as int))),
        decreases count - i,
    {
        proof {
            assert(singles.take(i + 1).drop_last() =~= singles.take(i as int));
        }
        let single = match pulse {
            Pulse::Single(single) => single,
            Pulse::Multi(multi) => &multi.pulses[i],
        };
        assert(*single == singles[i as int]);
        match single {
            SinglePulse::Data(values) => {
                let ghost before = r@;
                let mut k: usize = 0;
                while k < values.len()
                    invariant
                        k <= values@.len(),
                        r@.len() == before.len() + k,
                        forall|j: int| 0 <= j < before.len() ==> (#[trigger] r@[j])@ == before[j]@,
                        forall|j: int| 0 <= j < k ==> (#[trigger] r@[before.len() + j])@ == values@[j]@,
                    decreases values@.len() - k,
                {
                    r.push(values[k].copy());
                    k = k + 1;
                }
                proof {
                    let expected = records_of_singles(singles.take(i + 1));
                    assert(expected =~= records_of_singles(singles.take(i as int)) + values@);
                    assert forall|j: int| 0 <= j < r@.len() implies (#[trigger] r@[j])@ == expected[j]@ by {
                        if j >= before.len() {
                            assert(r@[before.len() + (j - before.len())] == r@[j]);
                        }
                    }
                }
            },
            _ => {
                assert(records_of_singles(singles.take(i + 1)) =~= records_of_singles(
                    singles.take(i as int),
                ));
            },
        }
        i = i + 1;
    }
    assert(singles.take(i as int) =~= singles);
    r
}

/// Yields its records, whatever the incoming pulse.
#[derive(Debug, PartialEq)]
pub struct DataOperator {
    pub data: Vec<DataValue>,
}

impl DataOperator {
    /// A data operator of the records `data`.
    pub fn new(data: Vec<DataValue>) -> (o: DataOperator)
        ensures
            o.data == data,
    {
        DataOperator { data }
    }

    /// A data pulse of the operator's records.
    pub fn evaluate(&self, _pulse: Pulse) -> (p: Pulse)
        ensures
            p matches Pulse::Single(SinglePulse::Data(values)) && same_values(values@, self.data@),
    {
        Pulse::data(copy_values(&self.data))
    }
}

/// Yields a constant record, whatever the incoming pulse.
#[derive(Debug, PartialEq)]
pub struct ConstantOperator {
    pub value: DataValue,
}

impl ConstantOperator {
    /// A constant pulse of the operator's record.
    pub fn evaluate(&self, _pulse: Pulse) -> (p: Pulse)
        ensures
            p matches Pulse::Single(SinglePulse::Constant(value)) && value@ == self.value@,
    {
        Pulse::constant(self.value.copy())
    }
}

/// Maps the incoming records with a map pipe.
#[derive(Debug, PartialEq)]
pub struct MapOperator {
    pub pipe: MapPipe,
}

impl MapOperator {
    /// A map operator of `pipe`.
    pub fn new(pipe: MapPipe) -> (o: MapOperator)
        ensures
            o.pipe == pipe,
    {
        MapOperator { pipe }
    }

    /// The records with the pipe's output field set: `values[i]` is the value of the pipe's
    /// expression for `records[i]`.
    pub fn apply(&self, records: &Vec<DataValue>, values: &Vec<DataItem>) -> (r: Vec<DataValue>)
        requires
            values@.len() == records@.len(),
        ensures
            r@.len() == records@.len(),
            forall|i: int|
                0 <= i < records@.len() ==> (#[trigger] r@[i])@ == records@[i]@.insert(
                    self.pipe.output@,
                    values@[i],
                ),
    {
        let mut r: Vec<DataValue> = Vec::new();
        let mut i: usize = 0;
        while i < records.len()
            invariant
                i <= records@.len(),
                values@.len() == records@.len(),
                r@.len() == i,
                forall|j: int|
                    0 <= j < i ==> (#[trigger] r@[j])@ == records@[j]@.insert(
                        self.pipe.output@,
                        values@[j],
                    ),
            decreases records@.len() - i,
        {
            let mut record = records[i].copy();
            self.pipe.apply(&mut record, values[i].copy());
            r.push(record);
            i = i + 1;
        }
        r
    }
}

/// The records of `records` whose flag in `keep` is set, in order.
pub open spec fn kept(records: Seq<DataValue>, keep: Seq<bool>) -> Seq<DataValue>
    decreases records.len(),
{
    if records.len() == 0 {
        Seq::empty()
    } else {
        let before = kept(records.drop_last(), keep);
        if keep[records.len() - 1] {
            before.push(records.last())
        } else {
            before
        }
    }
}

/// The positions of the records that `kept` keeps.
proof fn kept_positions(records: Seq<DataValue>, keep: Seq<bool>) -> (idx: Seq<int>)
    requires
        keep.len() == records.len(),
    ensures
        idx.len() == kept(records, keep).len(),
        forall|j: int|
            0 <= j < idx.len() ==> 0 <= #[trigger] idx[j] < records.len() && keep[idx[j]]
                && kept(records, keep)[j] == records[idx[j]],
        forall|a: int, b: int| 0 <= a < b < idx.len() ==> #[trigger] idx[a] < #[trigger] idx[b],
        forall|i: int| 0 <= i < records.len() && #[trigger] keep[i] ==> exists|j: int| 0 <= j < idx.len() && idx[j] == i,
    decreases records.len(),
{
    if records.len() == 0 {
        Seq::empty()
    } else {
        let n = records.len() - 1;
        let init = records.drop_last();
        lemma_kept_flags(init, keep.drop_last(), keep);
        let before = kept_positions(init, keep.drop_last());
        assert forall|j: int| 0 <= j < before.len() implies keep[before[j]] && kept(init, keep)[j]
            == records[before[j]] by {
            assert(keep.drop_last()[before[j]] == keep[before[j]]);
            assert(init[before[j]] == records[before[j]]);
        }
        if keep[n] {
            let idx = before.push(n);
            assert forall|i: int| 0 <= i < records.len() && #[trigger] keep[i] implies exists|j: int|
                0 <= j < idx.len() && idx[j] == i by {
                if i < n {
                    assert(keep.drop_last()[i] == keep[i]);
                    let j = choose|j: int| 0 <= j < before.len() && before[j] == i;
                    assert(idx[j] == i);
                } else {
                    assert(idx[before.len() as int] == i);
                }
            }
            assert(records.last() == records[n]);
            idx
        } else {
            assert forall|i: int| 0 <= i < records.len() && #[trigger] keep[i] implies exists|j: int|
                0 <= j < before.len() && before[j] == i by {
                assert(i != n);
                assert(keep.drop_last()[i] == keep[i]);
            }
            before
        }
    }
}

/// `idx` lists the positions of the records that filtering `records` by `keep` keeps: each
/// kept record is the flagged record at its position, the positions rise, and every flagged
/// position is listed.
pub open spec fn keeps_flagged_at(records: Seq<DataValue>, keep: Seq<bool>, idx: Seq<int>) -> bool {
    &&& idx.len() == kept(records, keep).len()
    &&& forall|j: int|
        0 <= j < idx.len() ==> 0 <= #[trigger] idx[j] < records.len() && keep[idx[j]] && kept(records, keep)[j]
            == records[idx[j]]
    &&& forall|a: int, b: int| 0 <= a < b < idx.len() ==> #[trigger] idx[a] < #[trigger] idx[b]
    &&& forall|i: int| 0 <= i < records.len() && #[trigger] keep[i] ==> exists|j: int| 0 <= j < idx.len() && idx[j] == i
}

/// Filtering keeps exactly the flagged records, in order: each kept record is a flagged record,
/// the kept records come in the order of the records, and every flagged record is kept.
pub proof fn lemma_kept_flagged(records: Seq<DataValue>, keep: Seq<bool>)
    requires
        keep.len() == records.len(),
    ensures
        exists|idx: Seq<int>| #[trigger] keeps_flagged_at(records, keep, idx),
{
    let idx = kept_positions(records, keep);
    assert(keeps_flagged_at(records, keep, idx));
}

/// Filtering records given one after another is filtering each part and putting the kept
/// records one after another: the records of a multi pulse can be filtered pulse by pulse
/// or all at once.
pub proof fn lemma_kept_concat(a: Seq<DataValue>, keep_a: Seq<bool>, b: Seq<DataValue>, keep_b: Seq<bool>)
    requires
        keep_a.len() == a.len(),
        keep_b.len() == b.len(),
    ensures
        kept(a + b, keep_a + keep_b) == kept(a, keep_a) + kept(b, keep_b),
    decreases b.len(),
{
    if b.len() == 0 {
        assert(a + b =~= a);
        lemma_kept_flags(a, keep_a, keep_a + keep_b);
        assert(kept(a, keep_a) + kept(b, keep_b) =~= kept(a, keep_a));
    } else {
        let b0 = b.drop_last();
        let k0 = keep_b.drop_last();
        lemma_kept_concat(a, keep_a, b0, k0);
        assert((a + b).drop_last() =~= a + b0);
        assert((a + b).last() == b.last());
        assert((keep_a + keep_b)[(a + b).len() - 1] == keep_b[b.len() - 1]);
        lemma_kept_flags(a + b0, keep_a + k0, keep_a + keep_b);
        lemma_kept_flags(b0, k0, keep_b);
        if keep_b[b.len() - 1] {
            assert(kept(a, keep_a) + kept(b, keep_b) =~= (kept(a, keep_a) + kept(b0, k0)).push(b.last()));
        } else {
            assert(kept(a, keep_a) + kept(b, keep_b) =~= kept(a, keep_a) + kept(b0, k0));
        }
    }
}

/// Only the flags of the records count.
proof fn lemma_kept_flags(records: Seq<DataValue>, keep: Seq<bool>, other: Seq<bool>)
    requires
        forall|i: int| 0 <= i < records.len() ==> keep[i] == other[i],
    ensures
        kept(records, keep) == kept(records, other),
    decreases records.len(),
{
    if records.len() > 0 {
        lemma_kept_flags(records.drop_last(), keep, other);
    }
}

/// Filters the incoming records with a filter pipe.
#[derive(Debug, PartialEq)]
pub struct FilterOperator {
    pub pipe: FilterPipe,
}

impl FilterOperator {
    /// A filter operator of `pipe`.
    pub fn new(pipe: FilterPipe) -> (o: FilterOperator)
        ensures
            o.pipe == pipe,
    {
        FilterOperator { pipe }
    }

    /// The records whose flag is set: `keep[i]` tells whether the pipe's predicate holds
    /// for `records[i]`.
    pub fn apply(&self, records: &Vec<DataValue>, keep: &Vec<bool>) -> (r: Vec<DataValue>)
        requires
            keep@.len() == records@.len(),
        ensures
            same_values(r@, kept(records@, keep@)),
    {
        let mut r: Vec<DataValue> = Vec::new();
        let mut i: usize = 0;
        while i < records.len()
            invariant
                i <= records@.len(),
                keep@.len() == records@.len(),
                same_values(r@, kept(records@.take(i as int), keep@)),
            decreases records@.len() - i,
        {
            proof {
                assert(records@.take(i + 1).drop_last() =~= records@.take(i as int));
            }
            let ghost before = r@;
            if keep[i] {
                r.push(records[i].copy());
                proof {
                    let expected = kept(records@.take(i + 1), keep@);
                    assert(expected == kept(records@.take(i as int), keep@).push(records@[i as int]));
                    assert forall|j: int| 0 <= j < r@.len() implies (#[trigger] r@[j])@ == expected[j]@ by {
                        if j < before.len() {
                            assert(r@[j] == before[j]);
                        }
                    }
                }
            }
            i = i + 1;
        }
        assert(records@.take(i as int) =~= records@);
        r
    }
}

/// The group operator that a group pipe defines.
pub open spec fn group_operator(pipe: GroupPipe) -> GroupOperator {
    match pipe.op {
        GroupOperatorSpec::Count => GroupOperator::Count(CountOperator { by: pipe.by, output: pipe.output }),
    }
}

/// Groups the incoming records.
#[derive(Debug, PartialEq)]
pub enum GroupOperator {
    Count(CountOperator),
}

impl GroupOperator {
    /// The group operator of `pipe`.
    pub fn new(pipe: GroupPipe) -> (o: GroupOperator)
        ensures
            o == group_operator(pipe),
    {
        match pipe.op {
            GroupOperatorSpec::Count => GroupOperator::Count(CountOperator { by: pipe.by, output: pipe.output }),
        }
    }
}

/// The number of records whose item under `by` is the same as `item`.
pub open spec fn count_same(records: Seq<DataValue>, by: Seq<char>, item: DataItem) -> nat
    decreases records.len(),
{
    if records.len() == 0 {
        0
    } else {
        count_same(records.drop_last(), by, item) + if records.last()@.contains_key(by)
            && records.last()@[by].same(item) {
            1nat
        } else {
            0nat
        }
    }
}

/// `groups` groups `records` by their item under `by`: one group for each distinct item
/// (items that are the same make one group), with the number of records that hold it.
pub open spec fn grouped(records: Seq<DataValue>, by: Seq<char>, groups: Seq<(DataItem, usize)>) -> bool {
    &&& forall|a: int, b: int| 0 <= a < b < groups.len() ==> !groups[a].0.same(groups[b].0)
    &&& forall|a: int|
        0 <= a < groups.len() ==> (#[trigger] groups[a]).1 == count_same(records, by, groups[a].0)
            && exists|k: int|
            0 <= k < records.len() && records[k]@.contains_key(by) && records[k]@[by]
                == groups[a].0
    &&& forall|k: int|
        0 <= k < records.len() && (#[trigger] records[k])@.contains_key(by) ==> exists|a: int|
            0 <= a < groups.len() && groups[a].0.same(records[k]@[by])
}

/// The position of the first record whose item under `by` is the same as `item`; the
/// number of records when no record holds such an item.
pub open spec fn first_holding(records: Seq<DataValue>, by: Seq<char>, item: DataItem) -> nat
    decreases records.len(),
{
    if records.len() == 0 {
        0
    } else {
        let before = first_holding(records.drop_last(), by, item);
        if before < records.len() - 1 {
            before
        } else if records.last()@.contains_key(by) && records.last()@[by].same(item) {
            (records.len() - 1) as nat
        } else {
            records.len()
        }
    }
}

/// The groups come in the order in which their items first occur in `records`.
pub open spec fn in_first_order(records: Seq<DataValue>, by: Seq<char>, groups: Seq<(DataItem, usize)>) -> bool {
    forall|a: int, b: int|
        0 <= a < b < groups.len() ==> first_holding(records, by, #[trigger] groups[a].0) < first_holding(
            records,
            by,
            #[trigger] groups[b].0,
        )
}

proof fn lemma_first_holding_bound(records: Seq<DataValue>, by: Seq<char>, item: DataItem)
    ensures
        first_holding(records, by, item) <= records.len(),
    decreases records.len(),
{
    if records.len() > 0 {
        lemma_first_holding_bound(records.drop_last(), by, item);
    }
}

proof fn lemma_first_holding_push(records: Seq<DataValue>, record: DataValue, by: Seq<char>, item: DataItem)
    ensures
        first_holding(records.push(record), by, item) == if first_holding(records, by, item)
            < records.len() {
            first_holding(records, by, item)
        } else if record@.contains_key(by) && record@[by].same(item) {
            records.len()
        } else {
            records.len() + 1
        },
{
    assert(records.push(record).drop_last() =~= records);
    lemma_first_holding_bound(records, by, item);
}

proof fn lemma_first_holding_found(records: Seq<DataValue>, by: Seq<char>, item: DataItem, k: int)
    requires
        0 <= k < records.len(),
        records[k]@.contains_key(by),
        records[k]@[by].same(item),
    ensures
        first_holding(records, by, item) <= k,
    decreases records.len(),
{
    let init = records.drop_last();
    lemma_first_holding_bound(init, by, item);
    if k < records.len() - 1 {
        assert(init[k] == records[k]);
        lemma_first_holding_found(init, by, item, k);
    }
}

proof fn lemma_first_holding_absent(records: Seq<DataValue>, by: Seq<char>, item: DataItem)
    requires
        forall|k: int|
            0 <= k < records.len() && (#[trigger] records[k])@.contains_key(by) ==> !records[k]@[by].same(item),
    ensures
        first_holding(records, by, item) == records.len(),
    decreases records.len(),
{
    if records.len() > 0 {
        let init = records.drop_last();
        assert forall|k: int| 0 <= k < init.len() && (#[trigger] init[k])@.contains_key(by) implies !init[k]@[
            by
        ].same(item) by {
            assert(init[k] == records[k]);
        }
        lemma_first_holding_absent(init, by, item);
        assert(records[records.len() - 1] == records.last());
    }
}

/// Pushing a record leaves where the items of the groups first occur as it was.
proof fn lemma_first_holding_groups_kept(
    done: Seq<DataValue>,
    record: DataValue,
    by: Seq<char>,
    groups: Seq<(DataItem, usize)>,
    b: int,
)
    requires
        grouped(done, by, groups),
        0 <= b < groups.len(),
    ensures
        first_holding(done.push(record), by, groups[b].0) == first_holding(done, by, groups[b].0),
        first_holding(done, by, groups[b].0) < done.len(),
{
    lemma_same_equivalence();
    assert(groups[b] == groups[b]);
    let j = choose|j: int| 0 <= j < done.len() && done[j]@.contains_key(by) && done[j]@[by] == groups[b].0;
    lemma_first_holding_found(done, by, groups[b].0, j);
    lemma_first_holding_push(done, record, by, groups[b].0);
}

proof fn lemma_first_order_kept(
    done: Seq<DataValue>,
    record: DataValue,
    by: Seq<char>,
    groups: Seq<(DataItem, usize)>,
    after: Seq<(DataItem, usize)>,
)
    requires
        grouped(done, by, groups),
        in_first_order(done, by, groups),
        after.len() == groups.len(),
        forall|b: int| 0 <= b < groups.len() ==> (#[trigger] after[b]).0 == groups[b].0,
    ensures
        in_first_order(done.push(record), by, after),
{
    assert forall|a: int, b: int| 0 <= a < b < after.len() implies first_holding(
        done.push(record),
        by,
        #[trigger] after[a].0,
    ) < first_holding(done.push(record), by, #[trigger] after[b].0) by {
        lemma_first_holding_groups_kept(done, record, by, groups, a);
        lemma_first_holding_groups_kept(done, record, by, groups, b);
        assert(first_holding(done, by, groups[a].0) < first_holding(done, by, groups[b].0));
    }
}

proof fn lemma_first_order_new(
    done: Seq<DataValue>,
    record: DataValue,
    by: Seq<char>,
    groups: Seq<(DataItem, usize)>,
)
    requires
        grouped(done, by, groups),
        in_first_order(done, by, groups),
        record@.contains_key(by),
        forall|b: int| 0 <= b < groups.len() ==> !(#[trigger] groups[b]).0.same(record@[by]),
    ensures
        in_first_order(done.push(record), by, groups.push((record@[by], 1usize))),
{
    lemma_same_equivalence();
    let item = record@[by];
    let next = done.push(record);
    let after = groups.push((item, 1usize));
    assert forall|k: int| 0 <= k < done.len() && (#[trigger] done[k])@.contains_key(by) implies !done[k]@[
        by
    ].same(item) by {
        let c = choose|c: int| 0 <= c < groups.len() && groups[c].0.same(done[k]@[by]);
        assert(!groups[c].0.same(item));
    }
    lemma_first_holding_absent(done, by, item);
    lemma_first_holding_push(done, record, by, item);
    assert(first_holding(next, by, item) == done.len());
    assert forall|a: int, b: int| 0 <= a < b < after.len() implies first_holding(
        next,
        by,
        #[trigger] after[a].0,
    ) < first_holding(next, by, #[trigger] after[b].0) by {
        assert(after[a] == groups[a]);
        lemma_first_holding_groups_kept(done, record, by, groups, a);
        if b < groups.len() {
            assert(after[b] == groups[b]);
            lemma_first_holding_groups_kept(done, record, by, groups, b);
            assert(first_holding(done, by, groups[a].0) < first_holding(done, by, groups[b].0));
        }
    }
}

proof fn lemma_count_same_bound(records: Seq<DataValue>, by: Seq<char>, item: DataItem)
    ensures
        count_same(records, by, item) <= records.len(),
    decreases records.len(),
{
    if records.len() > 0 {
        lemma_count_same_bound(records.drop_last(), by, item);
    }
}

proof fn lemma_same_equivalence()
    ensures
        forall|a: DataItem| #[trigger] a.same(a),
        forall|a: DataItem, b: DataItem| #[trigger] a.same(b) ==> b.same(a),
        forall|a: DataItem, b: DataItem, c: DataItem|
            #[trigger] a.same(b) && #[trigger] b.same(c) ==> a.same(c),
{
}

/// The position of the group whose item is the same as `target`, if there is one.
fn find_group(groups: &Vec<(DataItem, usize)>, target: &DataItem) -> (r: Option<usize>)
    ensures
        match r {
            Some(a) => a < groups@.len() && groups@[a as int].0.same(*target),
            None => forall|b: int| 0 <= b < groups@.len() ==> !(#[trigger] groups@[b]).0.same(*target),
        },
{
    let mut a: usize = 0;
    while a < groups.len()
        invariant
            a <= groups@.len(),
            forall|b: int| 0 <= b < a ==> !(#[trigger] groups@[b]).0.same(*target),
        decreases groups@.len() - a,
    {
        if groups[a].0 == *target {
            return Some(a);
        }
        a = a + 1;
    }
    None
}

proof fn lemma_count_same_push(records: Seq<DataValue>, record: DataValue, by: Seq<char>, item: DataItem)
    ensures
        count_same(records.push(record), by, item) == count_same(records, by, item) + if record@.contains_key(
            by,
        ) && record@[by].same(item) {
            1nat
        } else {
            0nat
        },
{
    assert(records.push(record).drop_last() =~= records);
}

proof fn lemma_counted_group(
    done: Seq<DataValue>,
    record: DataValue,
    by: Seq<char>,
    groups: Seq<(DataItem, usize)>,
    a: int,
    b: int,
)
    requires
        grouped(done, by, groups),
        0 <= a < groups.len(),
        0 <= b < groups.len(),
        record@.contains_key(by),
        groups[a].0.same(record@[by]),
        groups[a].1 + 1 <= usize::MAX,
    ensures
        ({
            let after = groups.update(a, (groups[a].0, (groups[a].1 + 1) as usize));
            let next = done.push(record);
            &&& after[b].1 == count_same(next, by, after[b].0)
            &&& exists|j: int|
                0 <= j < next.len() && next[j]@.contains_key(by) && next[j]@[by] == after[b].0
        }),
{
    let next = done.push(record);
    let after = groups.update(a, (groups[a].0, (groups[a].1 + 1) as usize));
    assert(after[b].0 == groups[b].0);
    lemma_count_same_push(done, record, by, groups[b].0);
    assert(groups[b].1 == count_same(done, by, groups[b].0));
    let j = choose|j: int| 0 <= j < done.len() && done[j]@.contains_key(by) && done[j]@[by] == groups[b].0;
    assert(next[j] == done[j]);
    if b != a && groups[b].0.same(record@[by]) {
        if b < a {
            assert(!groups[b].0.same(groups[a].0));
        } else {
            assert(!groups[a].0.same(groups[b].0));
        }
    }
}

proof fn lemma_grouped_push_counted(
    done: Seq<DataValue>,
    record: DataValue,
    by: Seq<char>,
    groups: Seq<(DataItem, usize)>,
    a: int,
)
    requires
        grouped(done, by, groups),
        0 <= a < groups.len(),
        record@.contains_key(by),
        groups[a].0.same(record@[by]),
        groups[a].1 + 1 <= usize::MAX,
    ensures
        grouped(
            done.push(record),
            by,
            groups.update(a, (groups[a].0, (groups[a].1 + 1) as usize)),
        ),
{
    let next = done.push(record);
    let after = groups.update(a, (groups[a].0, (groups[a].1 + 1) as usize));
    assert forall|x: int, y: int| 0 <= x < y < after.len() implies !after[x].0.same(after[y].0) by {
        assert(after[x].0 == groups[x].0);
        assert(after[y].0 == groups[y].0);
    }
    assert forall|b: int| 0 <= b < after.len() implies (#[trigger] after[b]).1 == count_same(
        next,
        by,
        after[b].0,
    ) && exists|j: int| 0 <= j < next.len() && next[j]@.contains_key(by) && next[j]@[by] == after[b].0 by {
        lemma_counted_group(done, record, by, groups, a, b);
    }
    assert forall|j: int| 0 <= j < next.len() && (#[trigger] next[j])@.contains_key(by) implies exists|b: int|
        0 <= b < after.len() && after[b].0.same(next[j]@[by]) by {
        if j < done.len() {
            assert(next[j] == done[j]);
            let b = choose|b: int| 0 <= b < groups.len() && groups[b].0.same(done[j]@[by]);
            assert(after[b].0 == groups[b].0);
        } else {
            assert(after[a].0.same(next[j]@[by]));
        }
    }
}

proof fn lemma_grouped_push_new(
    done: Seq<DataValue>,
    record: DataValue,
    by: Seq<char>,
    groups: Seq<(DataItem, usize)>,
)
    requires
        grouped(done, by, groups),
        record@.contains_key(by),
        forall|b: int| 0 <= b < groups.len() ==> !(#[trigger] groups[b]).0.same(record@[by]),
    ensures
        grouped(done.push(record), by, groups.push((record@[by], 1usize))),
{
    lemma_same_equivalence();
    let next = done.push(record);
    let item = record@[by];
    let after = groups.push((item, 1usize));
    assert forall|b: int| 0 <= b < after.len() implies (#[trigger] after[b]).1 == count_same(
        next,
        by,
        after[b].0,
    ) && exists|j: int| 0 <= j < next.len() && next[j]@.contains_key(by) && next[j]@[by] == after[b].0 by {
        lemma_count_same_push(done, record, by, after[b].0);
        if b < groups.len() {
            assert(after[b] == groups[b]);
            let j = choose|j: int| 0 <= j < done.len() && done[j]@.contains_key(by) && done[j]@[by] == groups[b].0;
            assert(next[j] == done[j]);
            assert(!groups[b].0.same(item));
        } else {
            if count_same(done, by, item) > 0 {
                lemma_count_positive(done, by, item);
                let j = choose|j: int| 0 <= j < done.len() && done[j]@.contains_key(by) && done[j]@[by].same(item);
                let c = choose|c: int| 0 <= c < groups.len() && groups[c].0.same(done[j]@[by]);
                assert(groups[c].0.same(item));
            }
            assert(next[done.len() as int] == record);
        }
    }
    assert forall|j: int| 0 <= j < next.len() && (#[trigger] next[j])@.contains_key(by) implies exists|b: int|
        0 <= b < after.len() && after[b].0.same(next[j]@[by]) by {
        if j < done.len() {
            assert(next[j] == done[j]);
            let b = choose|b: int| 0 <= b < groups.len() && groups[b].0.same(done[j]@[by]);
            assert(after[b] == groups[b]);
        } else {
            assert(after[groups.len() as int].0.same(next[j]@[by]));
        }
    }
}

proof fn lemma_grouped_push_unkeyed(
    done: Seq<DataValue>,
    record: DataValue,
    by: Seq<char>,
    groups: Seq<(DataItem, usize)>,
)
    requires
        grouped(done, by, groups),
        !record@.contains_key(by),
    ensures
        grouped(done.push(record), by, groups),
{
    let next = done.push(record);
    assert forall|b: int| 0 <= b < groups.len() implies (#[trigger] groups[b]).1 == count_same(
        next,
        by,
        groups[b].0,
    ) && exists|j: int| 0 <= j < next.len() && next[j]@.contains_key(by) && next[j]@[by] == groups[b].0 by {
        lemma_count_same_push(done, record, by, groups[b].0);
        let j = choose|j: int| 0 <= j < done.len() && done[j]@.contains_key(by) && done[j]@[by] == groups[b].0;
        assert(next[j] == done[j]);
    }
    assert forall|j: int| 0 <= j < next.len() && (#[trigger] next[j])@.contains_key(by) implies exists|b: int|
        0 <= b < groups.len() && groups[b].0.same(next[j]@[by]) by {
        assert(next[j] == done[j]);
    }
}

/// Counts the incoming records by the item of a field.
#[derive(Debug, PartialEq)]
pub struct CountOperator {
    pub by: String,
    pub output: String,
}

impl CountOperator {
    /// The groups of `records` by their item under the operator's `by` field, in the order
    /// in which their items first occur.
    #[verifier::rlimit(80)]
    #[verifier::spinoff_prover]
    pub fn groups(&self, records: &Vec<DataValue>) -> (groups: Vec<(DataItem, usize)>)
        ensures
            grouped(records@, self.by@, groups@),
            in_first_order(records@, self.by@, groups@),
    {
        let mut groups: Vec<(DataItem, usize)> = Vec::new();
        let mut k: usize = 0;
        while k < records.len()
            invariant
                k <= records@.len(),
                grouped(records@.take(k as int), self.by@, groups@),
                in_first_order(records@.take(k as int), self.by@, groups@),
            decreases records@.len() - k,
        {
            let ghost done = records@.take(k as int);
            let ghost before = groups@;
            proof {
                assert(records@.take(k + 1) =~= done.push(records@[k as int]));
            }
            match records[k].get(self.by.as_str()) {
                Some(target) => match find_group(&groups, target) {
                    Some(a) => {
                        proof {
                            lemma_count_same_bound(done, self.by@, groups@[a as int].0);
                        }
                        let (item, count) = (groups[a].0.copy(), groups[a].1 + 1);
                        groups.set(a, (item, count));
                        proof {
                            lemma_grouped_push_counted(done, records@[k as int], self.by@, before, a as int);
                            lemma_first_order_kept(done, records@[k as int], self.by@, before, groups@);
                        }
                    },
                    None => {
                        groups.push((target.copy(), 1));
                        proof {
                            lemma_grouped_push_new(done, records@[k as int], self.by@, before);
                            lemma_first_order_new(done, records@[k as int], self.by@, before);
                        }
                    },
                },
                None => {
                    proof {
                        lemma_grouped_push_unkeyed(done, records@[k as int], self.by@, before);
                        lemma_first_order_kept(done, records@[k as int], self.by@, before, groups@);
                    }
                },
            }
            k = k + 1;
        }
        assert(records@.take(k as int) =~= records@);
        groups
    }

    /// The groups of each single pulse of `pulse`, in order: the operator counts the records
    /// of each data pulse apart (other pulses have none).
    pub fn counts(&self, pulse: &Pulse) -> (r: Vec<Vec<(DataItem, usize)>>)
        ensures
            r@.len() == singles_of(*pulse).len(),
            forall|i: int|
                0 <= i < r@.len() ==> grouped(
                    single_records(singles_of(*pulse)[i]),
                    self.by@,
                    (#[trigger] r@[i])@,
                ) && in_first_order(single_records(singles_of(*pulse)[i]), self.by@, r@[i]@),
    {
        match pulse {
            Pulse::Single(single) => {
                let groups = match single {
                    SinglePulse::Data(values) => self.groups(values),
                    _ => self.groups(&Vec::new()),
                };
                assert(singles_of(*pulse)[0] == *single);
                vec![groups]
            },
            Pulse::Multi(multi) => {
                let mut r: Vec<Vec<(DataItem, usize)>> = Vec::new();
                let mut i: usize = 0;
                while i < multi.pulses.len()
                    invariant
                        i <= multi.pulses@.len(),
                        r@.len() == i,
                        forall|j: int|
                            0 <= j < i ==> grouped(
                                single_records(multi.pulses@[j]),
                                self.by@,
                                (#[trigger] r@[j])@,
                            ) && in_first_order(single_records(multi.pulses@[j]), self.by@, r@[j]@),
                    decreases multi.pulses@.len() - i,
                {
                    let groups = match &multi.pulses[i] {
                        SinglePulse::Data(values) => self.groups(values),
                        _ => self.groups(&Vec::new()),
                    };
                    r.push(groups);
                    i = i + 1;
                }
                r
            },
        }
    }

    /// The record of a group: its item under `by`, and `count`, the number of its records
    /// as a number, under `output`.
    pub fn group_record(&self, item: DataItem, count: Number) -> (v: DataValue)
        ensures
            v@ == Map::<Seq<char>, DataItem>::empty().insert(self.by@, item).insert(
                self.output@,
                DataItem::Number(count),
            ),
    {
        let mut v = DataValue::new();
        v.insert(self.by.as_str(), item);
        v.insert(self.output.as_str(), DataItem::Number(count));
        v
    }
}

proof fn lemma_count_positive(records: Seq<DataValue>, by: Seq<char>, item: DataItem)
    requires
        count_same(records, by, item) > 0,
    ensures
        exists|j: int|
            0 <= j < records.len() && records[j]@.contains_key(by) && records[j]@[by].same(item),
    decreases records.len(),
{
    if records.len() > 0 {
        if count_same(records.drop_last(), by, item) > 0 {
            lemma_count_positive(records.drop_last(), by, item);
            let j = choose|j: int|
                0 <= j < records.len() - 1 && records.drop_last()[j]@.contains_key(by)
                    && records.drop_last()[j]@[by].same(item);
            assert(records[j] == records.drop_last()[j]);
        } else {
            assert(records[records.len() - 1] == records.last());
        }
    }
}

/// Resolves an interval domain: from its literal values, or from the smallest and greatest
/// number of a data field.
#[derive(Debug, PartialEq)]
pub struct DomainIntervalOperator {
    pub domain: Domain,
}

/// The items of a discrete domain: its literal numbers, or the items of its data field in
/// `records`, in order (records without the field give none).
pub open spec fn discrete_items(domain: Domain, records: Seq<DataValue>) -> Seq<DataItem>
    decreases records.len(),
{
    match domain {
        Domain::Literal(values) => values@.map_values(|n: Number| DataItem::Number(n)),
        Domain::DataField { data, field } => if records.len() == 0 {
            Seq::empty()
        } else {
            let before = discrete_items(domain, records.drop_last());
            if records.last()@.contains_key(field@) {
                before.push(records.last()@[field@])
            } else {
                before
            }
        },
    }
}

/// A literal discrete domain has one item per literal value, in order, whatever the
/// records.
pub proof fn lemma_literal_discrete_items(values: Vec<Number>, records: Seq<DataValue>)
    ensures
        discrete_items(Domain::Literal(values), records).len() == values@.len(),
        forall|i: int|
            0 <= i < values@.len() ==> #[trigger] discrete_items(Domain::Literal(values), records)[i]
                == DataItem::Number(values@[i]),
{
}

/// A discrete domain of a data field has one item per record that holds the field: each
/// item is the item of such a record, and every record that holds the field gives its item.
pub proof fn lemma_field_discrete_items(data: String, field: String, records: Seq<DataValue>)
    ensures
        discrete_items(Domain::DataField { data, field }, records).len() <= records.len(),
        forall|j: int|
            0 <= j < discrete_items(Domain::DataField { data, field }, records).len() ==> exists|k: int|
                0 <= k < records.len() && records[k]@.contains_key(field@) && records[k]@[field@]
                    == #[trigger] discrete_items(Domain::DataField { data, field }, records)[j],
        forall|k: int|
            0 <= k < records.len() && (#[trigger] records[k])@.contains_key(field@) ==> discrete_items(
                Domain::DataField { data, field },
                records,
            ).contains(records[k]@[field@]),
    decreases records.len(),
{
    let domain = Domain::DataField { data, field };
    if records.len() > 0 {
        let init = records.drop_last();
        lemma_field_discrete_items(data, field, init);
        let before = discrete_items(domain, init);
        let items = discrete_items(domain, records);
        let last = records.last();
        assert(last == records[records.len() - 1]);
        assert forall|j: int| 0 <= j < items.len() implies exists|k: int|
            0 <= k < records.len() && records[k]@.contains_key(field@) && records[k]@[field@]
                == #[trigger] items[j] by {
            if j < before.len() {
                assert(items[j] == before[j]);
                let k = choose|k: int|
                    0 <= k < init.len() && init[k]@.contains_key(field@) && init[k]@[field@] == before[j];
                assert(records[k] == init[k]);
            } else {
                assert(items[j] == last@[field@]);
            }
        }
        assert forall|k: int| 0 <= k < records.len() && (#[trigger] records[k])@.contains_key(field@) implies items.contains(
            records[k]@[field@],
        ) by {
            if k < init.len() {
                assert(records[k] == init[k]);
                assert(before.contains(init[k]@[field@]));
                let j = choose|j: int| 0 <= j < before.len() && before[j] == init[k]@[field@];
                assert(items[j] == before[j]);
            } else {
                assert(items[items.len() - 1] == last@[field@]);
            }
        }
    }
}

/// Resolves a discrete domain.
#[derive(Debug, PartialEq)]
pub struct DomainDiscreteOperator {
    pub domain: Domain,
}

impl DomainDiscreteOperator {
    /// The items of the domain for `records`.
    pub fn resolve_domain(&self, records: &Vec<DataValue>) -> (r: Vec<DataItem>)
        ensures
            r@ == discrete_items(self.domain, records@),
            self.domain matches Domain::Literal(values) ==> (r@.len() == values@.len() && forall|i: int|
                0 <= i < values@.len() ==> #[trigger] r@[i] == DataItem::Number(values@[i])),
    {
        match &self.domain {
            Domain::Literal(values) => {
                let mut r: Vec<DataItem> = Vec::new();
                let mut i: usize = 0;
                while i < values.len()
                    invariant
                        i <= values@.len(),
                        r@ == values@.take(i as int).map_values(|n: Number| DataItem::Number(n)),
                    decreases values@.len() - i,
                {
                    r.push(DataItem::Number(values[i]));
                    assert(r@ =~= values@.take(i + 1).map_values(|n: Number| DataItem::Number(n)));
                    i = i + 1;
                }
                assert(values@.take(i as int) =~= values@);
                r
            },
            Domain::DataField { data, field } => {
                let mut r: Vec<DataItem> = Vec::new();
                let mut i: usize = 0;
                while i < records.len()
                    invariant
                        i <= records@.len(),
                        self.domain == (Domain::DataField { data: *data, field: *field }),
                        r@ == discrete_items(self.domain, records@.take(i as int)),
                    decreases records@.len() - i,
                {
                    proof {
                        assert(records@.take(i + 1).drop_last() =~= records@.take(i as int));
                    }
                    match records[i].get(field.as_str()) {
                        Some(item) => r.push(item.copy()),
                        None => {},
                    }
                    i = i + 1;
                }
                assert(records@.take(i as int) =~= records@);
                r
            },
        }
    }

    /// A discrete domain pulse: a single pulse gives the items of its records, a multi
    /// pulse those of its aggregated records.
    pub fn evaluate(&self, pulse: Pulse) -> (p: Pulse)
        ensures
            p matches Pulse::Single(SinglePulse::Domain(ResolvedDomain::Discrete { values, outer_padding }))
                && !outer_padding && match pulse {
                Pulse::Single(single) => values@ == discrete_items(self.domain, single_records(single)),
                Pulse::Multi(multi) => exists|aggregated: Seq<DataValue>|
                    crate::graph::pulse::aggregated(multi.pulses@, aggregated) && values@ == discrete_items(
                        self.domain,
                        aggregated,
                    ),
            },
    {
        match pulse {
            Pulse::Single(single) => {
                let records = match single {
                    SinglePulse::Data(values) => values,
                    _ => Vec::new(),
                };
                let values = self.resolve_domain(&records);
                Pulse::domain(ResolvedDomain::Discrete { values, outer_padding: false })
            },
            Pulse::Multi(multi) => {
                let aggregated = multi.aggregate();
                let records = match aggregated {
                    SinglePulse::Data(values) => values,
                    _ => Vec::new(),
                };
                let values = self.resolve_domain(&records);
                Pulse::domain(ResolvedDomain::Discrete { values, outer_padding: false })
            },
        }
    }
}

/// Scales a field of the incoming records linearly from the resolved domain to a range.
#[derive(Debug, PartialEq)]
pub struct LinearOperator {
    pub range: (Number, Number),
    pub field: String,
    pub output: String,
}

/// Scales a field of the incoming records logarithmically from the resolved domain to a
/// range.
#[derive(Debug, PartialEq)]
pub struct LogOperator {
    pub range: (Number, Number),
    pub field: String,
    pub output: String,
}

/// Maps the items of a field of the incoming records from a discrete domain to a range.
#[derive(Debug, PartialEq)]
pub struct BandOperator {
    pub range: (Number, Number),
    pub field: String,
    pub output: String,
}

/// Copies a field of the incoming records into an output field.
#[derive(Debug, PartialEq)]
pub struct IdentityOperator {
    pub field: String,
    pub output: String,
}

/// The record `record` with the item under `field`, if there is one, copied under
/// `output`.
pub open spec fn identity_record(record: Map<Seq<char>, DataItem>, field: Seq<char>, output: Seq<char>) -> Map<
    Seq<char>,
    DataItem,
> {
    if record.contains_key(field) {
        record.insert(output, record[field])
    } else {
        record
    }
}

/// Copying a field puts the item under `field` under `output`, replacing what was there, and
/// leaves every other key as it was; a record without `field` stays as it is.
pub proof fn lemma_identity_copies_field(record: Map<Seq<char>, DataItem>, field: Seq<char>, output: Seq<char>)
    ensures
        record.contains_key(field) ==> identity_record(record, field, output).contains_key(output)
            && identity_record(record, field, output)[output] == record[field],
        forall|k: Seq<char>|
            k != output ==> (#[trigger] identity_record(record, field, output).contains_key(k)
                <==> record.contains_key(k)),
        forall|k: Seq<char>|
            k != output && record.contains_key(k) ==> #[trigger] identity_record(record, field, output)[k]
                == record[k],
        !record.contains_key(field) ==> identity_record(record, field, output) == record,
{
}

impl IdentityOperator {
    /// The records with the item under `field` copied under `output`.
    pub fn apply(&self, records: &Vec<DataValue>) -> (r: Vec<DataValue>)
        ensures
            r@.len() == records@.len(),
            forall|i: int|
                0 <= i < records@.len() ==> (#[trigger] r@[i])@ == identity_record(
                    records@[i]@,
                    self.field@,
                    self.output@,
                ),
            forall|i: int|
                0 <= i < records@.len() && records@[i]@.contains_key(self.field@) ==> (#[trigger] r@[i])@
                    == records@[i]@.insert(self.output@, records@[i]@[self.field@]),
            forall|i: int|
                0 <= i < records@.len() && !records@[i]@.contains_key(self.field@) ==> (#[trigger] r@[i])@
                    == records@[i]@,
    {
        let mut r: Vec<DataValue> = Vec::new();
        let mut i: usize = 0;
        while i < records.len()
            invariant
                i <= records@.len(),
                r@.len() == i,
                forall|j: int|
                    0 <= j < i ==> (#[trigger] r@[j])@ == identity_record(
                        records@[j]@,
                        self.field@,
                        self.output@,
                    ),
            decreases records@.len() - i,
        {
            let mut record = records[i].copy();
            match records[i].get(self.field.as_str()) {
                Some(item) => record.insert(self.output.as_str(), item.copy()),
                None => {},
            }
            r.push(record);
            i = i + 1;
        }
        r
    }

    /// A data pulse of the incoming records with the item under `field` copied under
    /// `output`.
    pub fn evaluate(&self, pulse: Pulse) -> (p: Pulse)
        ensures
            p matches Pulse::Single(SinglePulse::Data(values)) && values@.len() == records_of(
                pulse,
            ).len() && forall|i: int|
                0 <= i < values@.len() ==> (#[trigger] values@[i])@ == identity_record(
                    records_of(pulse)[i]@,
                    self.field@,
                    self.output@,
                ),
    {
        let records = pulse_records(&pulse);
        Pulse::data(self.apply(&records))
    }
}

/// Draws a line through the incoming records.
#[derive(Debug, PartialEq)]
pub struct LineOperator {
    pub shape: LineShape,
    pub window: SceneWindow,
}

/// Draws a bar for each incoming record.
#[derive(Debug, PartialEq)]
pub struct BarOperator {
    pub shape: BarShape,
    pub window: SceneWindow,
}

/// Draws a pie of the values of a field of the incoming records.
#[derive(Debug, PartialEq)]
pub struct PieOperator {
    pub shape: PieShape,
    pub field: String,
    pub window: SceneWindow,
}

/// The slices of a pie of `records` by `field`: for each record that holds a number under
/// `field`, in order, its position among the records (which picks its color), that number,
/// and the number that it holds under the outer-radius field, if any.
pub open spec fn pie_slices(records: Seq<DataValue>, field: Seq<char>) -> Seq<(usize, Number, Option<Number>)>
    decreases records.len(),
{
    if records.len() == 0 {
        Seq::empty()
    } else {
        let before = pie_slices(records.drop_last(), field);
        match number_under(records.last()@, field) {
            Some(n) => before.push(
                ((records.len() - 1) as usize, n, number_under(records.last()@, PIE_OUTER_RADIUS_FIELD_NAME@)),
            ),
            None => before,
        }
    }
}

/// The slices of a pie come one per record that holds a number under `field`, in the order
/// of the records: each is that record's position, its number, and its outer radius.
pub proof fn lemma_pie_slices_per_record(records: Seq<DataValue>, field: Seq<char>)
    requires
        records.len() <= usize::MAX,
    ensures
        forall|j: int|
            0 <= j < pie_slices(records, field).len() ==> {
                let (k, n, radius) = #[trigger] pie_slices(records, field)[j];
                &&& k < records.len()
                &&& number_under(records[k as int]@, field) == Some(n)
                &&& radius == number_under(records[k as int]@, PIE_OUTER_RADIUS_FIELD_NAME@)
            },
        forall|a: int, b: int|
            0 <= a < b < pie_slices(records, field).len() ==> (#[trigger] pie_slices(records, field)[a]).0
                < (#[trigger] pie_slices(records, field)[b]).0,
        forall|k: int|
            0 <= k < records.len() && (#[trigger] number_under(records[k]@, field)) is Some ==> exists|j: int|
                0 <= j < pie_slices(records, field).len() && pie_slices(records, field)[j].0 == k,
    decreases records.len(),
{
    if records.len() > 0 {
        let init = records.drop_last();
        let n = records.len() - 1;
        lemma_pie_slices_per_record(init, field);
        let before = pie_slices(init, field);
        let slices = pie_slices(records, field);
        assert(records.last() == records[n]);
        assert forall|j: int| 0 <= j < before.len() implies (#[trigger] before[j]).0 < n && init[before[j].0 as int]
            == records[before[j].0 as int] by {
        }
        assert forall|k: int| 0 <= k < records.len() && (#[trigger] number_under(records[k]@, field)) is Some implies exists|j: int|
            0 <= j < slices.len() && slices[j].0 == k by {
            if k < n {
                assert(init[k] == records[k]);
                assert(number_under(init[k]@, field) is Some);
                let j = choose|j: int| 0 <= j < before.len() && before[j].0 == k;
                assert(slices[j] == before[j]);
            } else {
                assert(k == n);
                assert(number_under(records.last()@, field) is Some);
                assert(slices == before.push(
                    (n as usize, number_under(records.last()@, field)->0, number_under(records.last()@, PIE_OUTER_RADIUS_FIELD_NAME@)),
                ));
                assert(slices[before.len() as int].0 == k);
            }
        }
        assert forall|j: int| 0 <= j < slices.len() implies {
            let (k, m, radius) = #[trigger] slices[j];
            &&& k < records.len()
            &&& number_under(records[k as int]@, field) == Some(m)
            &&& radius == number_under(records[k as int]@, PIE_OUTER_RADIUS_FIELD_NAME@)
        } by {
            if j < before.len() {
                assert(slices[j] == before[j]);
                assert(init[before[j].0 as int] == records[before[j].0 as int]);
            }
        }
        assert forall|a: int, b: int| 0 <= a < b < slices.len() implies (#[trigger] slices[a]).0
            < (#[trigger] slices[b]).0 by {
            assert(slices[a] == before[a]);
            if b < before.len() {
                assert(slices[b] == before[b]);
            }
        }
    }
}

impl PieOperator {
    /// The slices of the pie of `records`: a record without a number under the operator's
    /// field gives none.
    pub fn slices(&self, records: &Vec<DataValue>) -> (r: Vec<(usize, Number, Option<Number>)>)
        ensures
            r@ == pie_slices(records@, self.field@),
    {
        let mut r: Vec<(usize, Number, Option<Number>)> = Vec::new();
        let mut i: usize = 0;
        while i < records.len()
            invariant
                i <= records@.len(),
                r@ == pie_slices(records@.take(i as int), self.field@),
            decreases records@.len() - i,
        {
            proof {
                assert(records@.take(i + 1).drop_last() =~= records@.take(i as int));
                assert(records@.take(i + 1).last() == records@[i as int]);
            }
            match records[i].get_number(self.field.as_str()) {
                Some(n) => {
                    let radius = records[i].get_number(PIE_OUTER_RADIUS_FIELD_NAME);
                    r.push((i, n, radius));
                },
                None => {},
            }
            i = i + 1;
        }
        assert(records@.take(i as int) =~= records@);
        r
    }
}

/// Draws an axis for a scale over the resolved domain.
#[derive(Debug, PartialEq)]
pub struct AxisOperator {
    pub axis: Axis,
    pub scale: Scale,
    pub window: SceneWindow,
}


/// The number of records that hold an item under `by`.
pub open spec fn keyed_count(records: Seq<DataValue>, by: Seq<char>) -> nat
    decreases records.len(),
{
    if records.len() == 0 {
        0
    } else {
        keyed_count(records.drop_last(), by) + if records.last()@.contains_key(by) {
            1nat
        } else {
            0nat
        }
    }
}

/// The sum of the counts of `groups`.
pub open spec fn counts_total(groups: Seq<(DataItem, usize)>) -> nat
    decreases groups.len(),
{
    if groups.len() == 0 {
        0
    } else {
        counts_total(groups.drop_last()) + groups.last().1 as nat
    }
}

/// The sum, over `groups`, of the number of records whose item under `by` is the same as
/// the group's.
pub open spec fn same_total(records: Seq<DataValue>, by: Seq<char>, groups: Seq<(DataItem, usize)>) -> nat
    decreases groups.len(),
{
    if groups.len() == 0 {
        0
    } else {
        same_total(records, by, groups.drop_last()) + count_same(records, by, groups.last().0)
    }
}

/// The number of groups whose item is the same as `item`.
pub open spec fn match_count(groups: Seq<(DataItem, usize)>, item: DataItem) -> nat
    decreases groups.len(),
{
    if groups.len() == 0 {
        0
    } else {
        match_count(groups.drop_last(), item) + if groups.last().0.same(item) {
            1nat
        } else {
            0nat
        }
    }
}

proof fn lemma_counts_are_same_total(records: Seq<DataValue>, by: Seq<char>, groups: Seq<(DataItem, usize)>)
    requires
        forall|a: int|
            0 <= a < groups.len() ==> (#[trigger] groups[a]).1 == count_same(records, by, groups[a].0),
    ensures
        counts_total(groups) == same_total(records, by, groups),
    decreases groups.len(),
{
    if groups.len() > 0 {
        assert forall|a: int| 0 <= a < groups.drop_last().len() implies (
        #[trigger] groups.drop_last()[a]).1 == count_same(records, by, groups.drop_last()[a].0) by {
            assert(groups.drop_last()[a] == groups[a]);
        }
        lemma_counts_are_same_total(records, by, groups.drop_last());
        assert(groups.last() == groups[groups.len() - 1]);
    }
}

proof fn lemma_same_total_push(
    records: Seq<DataValue>,
    record: DataValue,
    by: Seq<char>,
    groups: Seq<(DataItem, usize)>,
)
    ensures
        same_total(records.push(record), by, groups) == same_total(records, by, groups) + if record@.contains_key(
            by,
        ) {
            match_count(groups, record@[by])
        } else {
            0nat
        },
    decreases groups.len(),
{
    if groups.len() > 0 {
        lemma_same_total_push(records, record, by, groups.drop_last());
        lemma_count_same_push(records, record, by, groups.last().0);
        if record@.contains_key(by) {
            assert(record@[by].same(groups.last().0) <==> groups.last().0.same(record@[by]));
        }
    }
}

proof fn lemma_match_count_zero(groups: Seq<(DataItem, usize)>, item: DataItem)
    requires
        forall|a: int| 0 <= a < groups.len() ==> !(#[trigger] groups[a]).0.same(item),
    ensures
        match_count(groups, item) == 0,
    decreases groups.len(),
{
    if groups.len() > 0 {
        assert forall|a: int| 0 <= a < groups.drop_last().len() implies !(
        #[trigger] groups.drop_last()[a]).0.same(item) by {
            assert(groups.drop_last()[a] == groups[a]);
        }
        lemma_match_count_zero(groups.drop_last(), item);
        assert(groups.last() == groups[groups.len() - 1]);
    }
}

proof fn lemma_match_count_one(groups: Seq<(DataItem, usize)>, item: DataItem, c: int)
    requires
        forall|a: int, b: int| 0 <= a < b < groups.len() ==> !groups[a].0.same(groups[b].0),
        0 <= c < groups.len(),
        groups[c].0.same(item),
    ensures
        match_count(groups, item) == 1,
    decreases groups.len(),
{
    let last = groups.len() - 1;
    let rest = groups.drop_last();
    assert(groups.last() == groups[last]);
    if c == last {
        assert forall|a: int| 0 <= a < rest.len() implies !(#[trigger] rest[a]).0.same(item) by {
            assert(rest[a] == groups[a]);
            assert(!groups[a].0.same(groups[last].0));
        }
        lemma_match_count_zero(rest, item);
    } else {
        assert forall|a: int, b: int| 0 <= a < b < rest.len() implies !rest[a].0.same(rest[b].0) by {
            assert(rest[a] == groups[a] && rest[b] == groups[b]);
        }
        assert(rest[c] == groups[c]);
        lemma_match_count_one(rest, item, c);
        assert(!groups[c].0.same(groups[last].0));
    }
}

proof fn lemma_same_total_keyed(records: Seq<DataValue>, by: Seq<char>, groups: Seq<(DataItem, usize)>)
    requires
        forall|a: int, b: int| 0 <= a < b < groups.len() ==> !groups[a].0.same(groups[b].0),
        forall|k: int|
            0 <= k < records.len() && (#[trigger] records[k])@.contains_key(by) ==> exists|a: int|
                0 <= a < groups.len() && groups[a].0.same(records[k]@[by]),
    ensures
        same_total(records, by, groups) == keyed_count(records, by),
    decreases records.len(),
{
    if records.len() == 0 {
        lemma_same_total_empty(records, by, groups);
    } else {
        let rest = records.drop_last();
        let record = records.last();
        assert forall|k: int| 0 <= k < rest.len() && (#[trigger] rest[k])@.contains_key(by) implies exists|a: int|
            0 <= a < groups.len() && groups[a].0.same(rest[k]@[by]) by {
            assert(rest[k] == records[k]);
        }
        lemma_same_total_keyed(rest, by, groups);
        assert(rest.push(record) =~= records);
        lemma_same_total_push(rest, record, by, groups);
        if record@.contains_key(by) {
            assert(records[records.len() - 1] == record);
            let c = choose|a: int| 0 <= a < groups.len() && groups[a].0.same(record@[by]);
            lemma_match_count_one(groups, record@[by], c);
        }
    }
}

proof fn lemma_same_total_empty(records: Seq<DataValue>, by: Seq<char>, groups: Seq<(DataItem, usize)>)
    requires
        records.len() == 0,
    ensures
        same_total(records, by, groups) == 0,
    decreases groups.len(),
{
    if groups.len() > 0 {
        lemma_same_total_empty(records, by, groups.drop_last());
    }
}

/// Counting groups each record that holds an item under `by` exactly once: the counts of
/// the groups add up to the number of such records.
pub proof fn lemma_counts_total(records: Seq<DataValue>, by: Seq<char>, groups: Seq<(DataItem, usize)>)
    requires
        grouped(records, by, groups),
    ensures
        counts_total(groups) == keyed_count(records, by),
{
    lemma_counts_are_same_total(records, by, groups);
    lemma_same_total_keyed(records, by, groups);
}

/// The last interval domain among `pulses`, if there is one.
pub open spec fn last_interval(pulses: Seq<SinglePulse>) -> Option<(Number, Number)>
    decreases pulses.len(),
{
    if pulses.len() == 0 {
        None
    } else {
        match pulses.last() {
            SinglePulse::Domain(ResolvedDomain::Interval(min, max)) => Some((min, max)),
            _ => last_interval(pulses.drop_last()),
        }
    }
}

/// The last discrete domain among `pulses`, if there is one: its items and whether it is
/// padded on the outside.
pub open spec fn last_discrete(pulses: Seq<SinglePulse>) -> Option<(Seq<DataItem>, bool)>
    decreases pulses.len(),
{
    if pulses.len() == 0 {
        None
    } else {
        match pulses.last() {
            SinglePulse::Domain(ResolvedDomain::Discrete { values, outer_padding }) => Some(
                (values@, outer_padding),
            ),
            _ => last_discrete(pulses.drop_last()),
        }
    }
}

/// `pulse` is an interval domain.
pub open spec fn is_interval(pulse: SinglePulse) -> bool {
    pulse matches SinglePulse::Domain(ResolvedDomain::Interval(_, _))
}

/// `pulse` is a discrete domain.
pub open spec fn is_discrete(pulse: SinglePulse) -> bool {
    pulse matches SinglePulse::Domain(ResolvedDomain::Discrete { .. })
}

/// A scale reads the interval domain that comes last among its pulses: there is none exactly
/// when no pulse is an interval domain, and otherwise it is that of a pulse after which no
/// pulse is an interval domain.
pub proof fn lemma_last_interval(pulses: Seq<SinglePulse>)
    ensures
        last_interval(pulses) is None <==> forall|k: int| 0 <= k < pulses.len() ==> !is_interval(#[trigger] pulses[k]),
        last_interval(pulses) matches Some((min, max)) ==> exists|k: int|
            0 <= k < pulses.len() && pulses[k] == SinglePulse::Domain(ResolvedDomain::Interval(min, max))
                && forall|j: int| k < j < pulses.len() ==> !is_interval(#[trigger] pulses[j]),
    decreases pulses.len(),
{
    if pulses.len() > 0 {
        let init = pulses.drop_last();
        let n = pulses.len() - 1;
        lemma_last_interval(init);
        assert(pulses.last() == pulses[n]);
        assert forall|k: int| 0 <= k < init.len() implies init[k] == pulses[k] by {}
        if !is_interval(pulses[n]) {
            if let Some((min, max)) = last_interval(pulses) {
                let k = choose|k: int|
                    0 <= k < init.len() && init[k] == SinglePulse::Domain(ResolvedDomain::Interval(min, max))
                        && forall|j: int| k < j < init.len() ==> !is_interval(#[trigger] init[j]);
                assert forall|j: int| k < j < pulses.len() implies !is_interval(#[trigger] pulses[j]) by {
                    if j < n {
                        assert(init[j] == pulses[j]);
                    }
                }
            }
            if last_interval(pulses) is None {
                assert forall|k: int| 0 <= k < pulses.len() implies !is_interval(#[trigger] pulses[k]) by {
                    if k < n {
                        assert(init[k] == pulses[k]);
                    }
                }
            }
        }
    }
}

/// A band scale reads the discrete domain that comes last among its pulses: there is none
/// exactly when no pulse is a discrete domain, and otherwise it is that of a pulse after which
/// no pulse is a discrete domain.
pub proof fn lemma_last_discrete(pulses: Seq<SinglePulse>)
    ensures
        last_discrete(pulses) is None <==> forall|k: int| 0 <= k < pulses.len() ==> !is_discrete(#[trigger] pulses[k]),
        last_discrete(pulses) matches Some((items, padding)) ==> exists|k: int|
            #![trigger pulses[k]]
            0 <= k < pulses.len() && (pulses[k] matches SinglePulse::Domain(
                ResolvedDomain::Discrete { values, outer_padding },
            ) && values@ == items && outer_padding == padding) && forall|j: int|
                k < j < pulses.len() ==> !is_discrete(#[trigger] pulses[j]),
    decreases pulses.len(),
{
    if pulses.len() > 0 {
        let init = pulses.drop_last();
        let n = pulses.len() - 1;
        lemma_last_discrete(init);
        assert(pulses.last() == pulses[n]);
        assert forall|k: int| 0 <= k < init.len() implies init[k] == pulses[k] by {}
        if !is_discrete(pulses[n]) {
            if let Some((items, padding)) = last_discrete(pulses) {
                let k = choose|k: int|
                    #![trigger init[k]]
                    0 <= k < init.len() && (init[k] matches SinglePulse::Domain(
                        ResolvedDomain::Discrete { values, outer_padding },
                    ) && values@ == items && outer_padding == padding) && forall|j: int|
                        k < j < init.len() ==> !is_discrete(#[trigger] init[j]);
                assert(init[k] == pulses[k]);
                assert forall|j: int| k < j < pulses.len() implies !is_discrete(#[trigger] pulses[j]) by {
                    if j < n {
                        assert(init[j] == pulses[j]);
                    }
                }
            }
            if last_discrete(pulses) is None {
                assert forall|k: int| 0 <= k < pulses.len() implies !is_discrete(#[trigger] pulses[k]) by {
                    if k < n {
                        assert(init[k] == pulses[k]);
                    }
                }
            }
        }
    }
}

/// What a scale operator reads from the pulses of its sources: the records of all their data
/// pulses, in order, the last interval domain, and the last discrete domain among them.
pub fn scale_inputs(multi: &MultiPulse) -> (r: (Vec<DataValue>, Option<(Number, Number)>, Option<(Vec<DataItem>, bool)>))
    ensures
        same_values(r.0@, records_of_singles(multi.pulses@)),
        r.1 == last_interval(multi.pulses@),
        match r.2 {
            Some((items, padding)) => last_discrete(multi.pulses@) == Some((items@, padding)),
            None => last_discrete(multi.pulses@) is None,
        },
{
    let ghost singles = multi.pulses@;
    let mut records: Vec<DataValue> = Vec::new();
    let mut interval: Option<(Number, Number)> = None;
    let mut discrete: Option<(Vec<DataItem>, bool)> = None;
    let mut i: usize = 0;
    while i < multi.pulses.len()
        invariant
            i <= singles.len(),
            singles == multi.pulses@,
            same_values(records@, records_of_singles(singles.take(i as int))),
            interval == last_interval(singles.take(i as int)),
            match discrete {
                Some((items, padding)) => last_discrete(singles.take(i as int)) == Some((items@, padding)),
                None => last_discrete(singles.take(i as int)) is None,
            },
        decreases singles.len() - i,
    {
        proof {
            assert(singles.take(i + 1).drop_last() =~= singles.take(i as int));
            assert(singles.take(i + 1).last() == singles[i as int]);
        }
        match &multi.pulses[i] {
            SinglePulse::Data(values) => {
                let ghost before = records@;
                let mut k: usize = 0;
                while k < values.len()
                    invariant
                        k <= values@.len(),
                        records@.len() == before.len() + k,
                        forall|j: int| 0 <= j < before.len() ==> (#[trigger] records@[j])@ == before[j]@,
                        forall|j: int| 0 <= j < k ==> (#[trigger] records@[before.len() + j])@ == values@[j]@,
                    decreases values@.len() - k,
                {
                    records.push(values[k].copy());
                    k = k + 1;
                }
                proof {
                    let expected = records_of_singles(singles.take(i + 1));
                    assert(expected =~= records_of_singles(singles.take(i as int)) + values@);
                    assert forall|j: int| 0 <= j < records@.len() implies (#[trigger] records@[j])@
                        == expected[j]@ by {
                        if j >= before.len() {
                            assert(records@[before.len() + (j - before.len())] == records@[j]);
                        }
                    }
                }
            },
            SinglePulse::Domain(ResolvedDomain::Interval(min, max)) => {
                interval = Some((*min, *max));
                assert(records_of_singles(singles.take(i + 1)) =~= records_of_singles(
                    singles.take(i as int),
                ));
            },
            SinglePulse::Domain(ResolvedDomain::Discrete { values, outer_padding }) => {
                discrete = Some((copy_items(values), *outer_padding));
                assert(records_of_singles(singles.take(i + 1)) =~= records_of_singles(
                    singles.take(i as int),
                ));
            },
            _ => {
                assert(records_of_singles(singles.take(i + 1)) =~= records_of_singles(
                    singles.take(i as int),
                ));
            },
        }
        i = i + 1;
    }
    assert(singles.take(i as int) =~= singles);
    (records, interval, discrete)
}

/// The number that each record holds under `field`, if it holds one there.
pub fn field_numbers(records: &Vec<DataValue>, field: &str) -> (r: Vec<Option<Number>>)
    ensures
        r@.len() == records@.len(),
        forall|i: int|
            0 <= i < records@.len() ==> #[trigger] r@[i] == number_under(records@[i]@, field@),
{
    let mut r: Vec<Option<Number>> = Vec::new();
    let mut i: usize = 0;
    while i < records.len()
        invariant
            i <= records@.len(),
            r@.len() == i,
            forall|j: int| 0 <= j < i ==> #[trigger] r@[j] == number_under(records@[j]@, field@),
        decreases records@.len() - i,
    {
        r.push(records[i].get_number(field));
        i = i + 1;
    }
    r
}

/// The number that `record` holds under `field`, if the item there is a number.
pub open spec fn number_under(record: Map<Seq<char>, DataItem>, field: Seq<char>) -> Option<Number> {
    if record.contains_key(field) {
        match record[field] {
            DataItem::Number(n) => Some(n),
            _ => None,
        }
    } else {
        None
    }
}

/// The records that a scale operator gives: a record that was scaled becomes the record
/// that holds only its scaled value, under `output`; the others stay as they were.
pub fn scaled_records(records: &Vec<DataValue>, scaled: &Vec<Option<Number>>, output: &str) -> (r: Vec<DataValue>)
    requires
        scaled@.len() == records@.len(),
    ensures
        r@.len() == records@.len(),
        forall|i: int|
            0 <= i < records@.len() ==> (#[trigger] r@[i])@ == match scaled@[i] {
                Some(x) => Map::<Seq<char>, DataItem>::empty().insert(output@, DataItem::Number(x)),
                None => records@[i]@,
            },
{
    let mut r: Vec<DataValue> = Vec::new();
    let mut i: usize = 0;
    while i < records.len()
        invariant
            i <= records@.len(),
            scaled@.len() == records@.len(),
            r@.len() == i,
            forall|j: int|
                0 <= j < i ==> (#[trigger] r@[j])@ == match scaled@[j] {
                    Some(x) => Map::<Seq<char>, DataItem>::empty().insert(output@, DataItem::Number(x)),
                    None => records@[j]@,
                },
        decreases records@.len() - i,
    {
        match scaled[i] {
            Some(x) => {
                let mut record = DataValue::new();
                record.insert(output, DataItem::Number(x));
                r.push(record);
            },
            None => r.push(records[i].copy()),
        }
        i = i + 1;
    }
    r
}

impl BandOperator {
    /// The position in `domain` of the item that each record holds under the operator's
    /// field: the first domain item that is the same; none when the record does not hold the
    /// field or no domain item is the same.
    pub fn positions(&self, records: &Vec<DataValue>, domain: &Vec<DataItem>) -> (r: Vec<Option<usize>>)
        ensures
            r@.len() == records@.len(),
            forall|i: int|
                0 <= i < records@.len() ==> #[trigger] is_band_position(
                    r@[i],
                    records@[i]@,
                    self.field@,
                    domain@,
                ),
    {
        let mut r: Vec<Option<usize>> = Vec::new();
        let mut i: usize = 0;
        while i < records.len()
            invariant
                i <= records@.len(),
                r@.len() == i,
                forall|j: int|
                    0 <= j < i ==> #[trigger] is_band_position(r@[j], records@[j]@, self.field@, domain@),
            decreases records@.len() - i,
        {
            let position = match records[i].get(self.field.as_str()) {
                Some(item) => first_same(domain, item),
                None => None,
            };
            r.push(position);
            i = i + 1;
        }
        r
    }
}

/// `position` is where the item of `record` under `field` first occurs in `domain`: the first
/// same item; none when the record does not hold the field or no item is the same.
pub open spec fn is_band_position(position: Option<usize>, record: Map<Seq<char>, DataItem>, field: Seq<char>, domain: Seq<DataItem>) -> bool {
    if record.contains_key(field) {
        match position {
            Some(k) => k < domain.len() && domain[k as int].same(record[field]) && forall|j: int|
                0 <= j < k ==> !(#[trigger] domain[j]).same(record[field]),
            None => forall|j: int| 0 <= j < domain.len() ==> !(#[trigger] domain[j]).same(record[field]),
        }
    } else {
        position is None
    }
}

/// What a band scale does with the pulses of its sources.
#[derive(Debug, PartialEq)]
pub enum BandPlan {
    /// No discrete domain came in: the operator cannot scale.
    NoDomain,
    /// The domain has no item: the records pass as they are.
    Unchanged(Vec<DataValue>),
    /// The records, where the item of each first occurs in the domain, and the number of
    /// items of the domain.
    Scale { records: Vec<DataValue>, positions: Vec<Option<usize>>, size: usize },
}

impl BandOperator {
    /// What the operator does with `multi`: it cannot scale without a discrete domain, lets
    /// the records pass when the domain is empty, and otherwise places each record's item in
    /// the last discrete domain.
    pub fn plan(&self, multi: &MultiPulse) -> (p: BandPlan)
        ensures
            match last_discrete(multi.pulses@) {
                None => p is NoDomain,
                Some((items, _)) => if items.len() == 0 {
                    p matches BandPlan::Unchanged(records) && same_values(
                        records@,
                        records_of_singles(multi.pulses@),
                    )
                } else {
                    p matches BandPlan::Scale { records, positions, size } && same_values(
                        records@,
                        records_of_singles(multi.pulses@),
                    ) && size == items.len() && positions@.len() == records@.len() && forall|i: int|
                        0 <= i < records@.len() ==> #[trigger] is_band_position(
                            positions@[i],
                            records@[i]@,
                            self.field@,
                            items,
                        )
                },
            },
    {
        let (records, _, discrete) = scale_inputs(multi);
        match discrete {
            None => BandPlan::NoDomain,
            Some((domain, _)) => {
                if domain.len() == 0 {
                    BandPlan::Unchanged(records)
                } else {
                    let positions = self.positions(&records, &domain);
                    let size = domain.len();
                    BandPlan::Scale { records, positions, size }
                }
            },
        }
    }
}

/// What a linear or logarithmic scale does with the pulses of its sources.
#[derive(Debug, PartialEq)]
pub enum ContinuousPlan {
    /// No record came in: the operator gives no record.
    NoRecords,
    /// Records came in but no interval domain: the operator cannot scale.
    NoDomain,
    /// The records, the number that each holds under the scaled field, and the domain.
    Scale { records: Vec<DataValue>, numbers: Vec<Option<Number>>, domain: (Number, Number) },
}

/// What a linear or logarithmic scale of `field` does with `multi`: with no record it gives
/// none; otherwise it scales the number of each record under `field` from the last interval
/// domain, which it cannot do without one.
pub fn continuous_plan(multi: &MultiPulse, field: &str) -> (p: ContinuousPlan)
    ensures
        records_of_singles(multi.pulses@).len() == 0 ==> p is NoRecords,
        records_of_singles(multi.pulses@).len() > 0 ==> match last_interval(multi.pulses@) {
            None => p is NoDomain,
            Some(interval) => p matches ContinuousPlan::Scale { records, numbers, domain } && same_values(
                records@,
                records_of_singles(multi.pulses@),
            ) && domain == interval && numbers@.len() == records@.len() && forall|i: int|
                0 <= i < records@.len() ==> #[trigger] numbers@[i] == number_under(records@[i]@, field@),
        },
{
    let (records, interval, _) = scale_inputs(multi);
    if records.len() == 0 {
        return ContinuousPlan::NoRecords;
    }
    match interval {
        None => ContinuousPlan::NoDomain,
        Some(domain) => {
            let numbers = field_numbers(&records, field);
            ContinuousPlan::Scale { records, numbers, domain }
        },
    }
}

/// The position of the first item of `items` that is the same as `item`.
fn first_same(items: &Vec<DataItem>, item: &DataItem) -> (r: Option<usize>)
    ensures
        match r {
            Some(k) => k < items@.len() && items@[k as int].same(*item) && forall|j: int|
                0 <= j < k ==> !(#[trigger] items@[j]).same(*item),
            None => forall|j: int| 0 <= j < items@.len() ==> !(#[trigger] items@[j]).same(*item),
        },
{
    let mut k: usize = 0;
    while k < items.len()
        invariant
            k <= items@.len(),
            forall|j: int| 0 <= j < k ==> !(#[trigger] items@[j]).same(*item),
        decreases items@.len() - k,
    {
        if items[k] == *item {
            return Some(k);
        }
        k = k + 1;
    }
    None
}

impl DomainIntervalOperator {
    /// The numbers that the interval is resolved from, for `records`: the first two literal
    /// values; or, for a data field, the numbers that the records hold under it, up to the
    /// first record that holds none; nothing when there are no records.
    pub fn interval_numbers(&self, records: &Vec<DataValue>) -> (r: Option<Vec<Number>>)
        requires
            self.domain matches Domain::Literal(values) ==> values@.len() >= 2,
        ensures
            match self.domain {
                Domain::Literal(values) => r matches Some(numbers) && numbers@ == seq![
                    values@[0],
                    values@[1],
                ],
                Domain::DataField { field, .. } => if records@.len() == 0 {
                    r is None
                } else {
                    r matches Some(numbers) && numbers@ == leading_numbers(records@, field@)
                },
            },
    {
        match &self.domain {
            Domain::Literal(values) => Some(vec![values[0], values[1]]),
            Domain::DataField { field, .. } => {
                if records.len() == 0 {
                    return None;
                }
                let mut numbers: Vec<Number> = Vec::new();
                let mut i: usize = 0;
                while i < records.len()
                    invariant_except_break
                        i <= records@.len(),
                        numbers@ == leading_numbers(records@.take(i as int), field@),
                        i == records@.len() ==> records@.take(i as int) == records@,
                        forall|j: int| 0 <= j < i ==> number_under(#[trigger] records@[j]@, field@) is Some,
                    ensures
                        numbers@ == leading_numbers(records@, field@),
                    decreases records@.len() - i,
                {
                    proof {
                        lemma_leading_numbers_take(records@, field@, i as int);
                    }
                    match records[i].get_number(field.as_str()) {
                        Some(n) => {
                            numbers.push(n);
                            proof {
                                if i + 1 == records@.len() {
                                    assert(records@.take(i + 1) =~= records@);
                                }
                            }
                        },
                        None => {
                            proof {
                                lemma_leading_numbers_stop(records@, field@, i as int);
                            }
                            break;
                        },
                    }
                    i = i + 1;
                }
                proof {
                    if i == records@.len() {
                        assert(records@.take(i as int) =~= records@);
                    }
                }
                Some(numbers)
            },
        }
    }
}

/// The numbers that the records hold under `field`, in order, up to the first record that
/// holds none.
pub open spec fn leading_numbers(records: Seq<DataValue>, field: Seq<char>) -> Seq<Number>
    decreases records.len(),
{
    if records.len() == 0 {
        Seq::empty()
    } else {
        match number_under(records[0]@, field) {
            Some(n) => seq![n] + leading_numbers(records.drop_first(), field),
            None => Seq::empty(),
        }
    }
}

/// The leading numbers are those of the first records, each the number that its record holds
/// under `field`, and they stop only at the end or at a record that holds no number there.
pub proof fn lemma_leading_numbers_prefix(records: Seq<DataValue>, field: Seq<char>)
    ensures
        leading_numbers(records, field).len() <= records.len(),
        forall|j: int|
            0 <= j < leading_numbers(records, field).len() ==> number_under(records[j]@, field) == Some(
                #[trigger] leading_numbers(records, field)[j],
            ),
        leading_numbers(records, field).len() < records.len() ==> number_under(
            records[leading_numbers(records, field).len() as int]@,
            field,
        ) is None,
    decreases records.len(),
{
    if records.len() > 0 {
        let rest = records.drop_first();
        lemma_leading_numbers_prefix(rest, field);
        let ln = leading_numbers(records, field);
        if number_under(records[0]@, field) is Some {
            let lr = leading_numbers(rest, field);
            assert forall|j: int| 0 <= j < ln.len() implies number_under(records[j]@, field) == Some(
                #[trigger] ln[j],
            ) by {
                if j > 0 {
                    assert(ln[j] == lr[j - 1]);
                    assert(records[j] == rest[j - 1]);
                }
            }
            if ln.len() < records.len() {
                assert(records[ln.len() as int] == rest[lr.len() as int]);
            }
        }
    }
}

proof fn lemma_leading_numbers_take(records: Seq<DataValue>, field: Seq<char>, i: int)
    requires
        0 <= i < records.len(),
        forall|j: int| 0 <= j < i ==> number_under(#[trigger] records[j]@, field) is Some,
    ensures
        number_under(records[i]@, field) matches Some(n) ==> leading_numbers(records.take(i + 1), field)
            == leading_numbers(records.take(i), field).push(n),
    decreases i,
{
    assert(leading_numbers(Seq::<DataValue>::empty(), field) == Seq::<Number>::empty());
    if number_under(records[i]@, field) is Some {
        let n = number_under(records[i]@, field)->0;
        if i == 0 {
            assert(records.take(1).drop_first() =~= Seq::<DataValue>::empty());
            assert(records.take(1)[0] == records[0]);
            assert(records.take(0) =~= Seq::<DataValue>::empty());
            assert(leading_numbers(records.take(1), field) =~= seq![n]);
        } else {
            let rest = records.drop_first();
            assert forall|j: int| 0 <= j < i - 1 implies number_under(#[trigger] rest[j]@, field) is Some by {
                assert(rest[j] == records[j + 1]);
            }
            assert(rest[i - 1] == records[i]);
            lemma_leading_numbers_take(rest, field, i - 1);
            assert(number_under(records[0]@, field) is Some);
            let m = number_under(records[0]@, field)->0;
            assert(records.take(i + 1).drop_first() =~= rest.take(i));
            assert(records.take(i).drop_first() =~= rest.take(i - 1));
            assert(records.take(i + 1)[0] == records[0]);
            assert(records.take(i)[0] == records[0]);
            assert(leading_numbers(records.take(i + 1), field) == seq![m] + leading_numbers(rest.take(i), field));
            assert(leading_numbers(records.take(i), field) == seq![m] + leading_numbers(rest.take(i - 1), field));
            assert(leading_numbers(rest.take(i), field) == leading_numbers(rest.take(i - 1), field).push(n));
            assert(seq![m] + leading_numbers(rest.take(i - 1), field).push(n) =~= (seq![m]
                + leading_numbers(rest.take(i - 1), field)).push(n));
        }
    }
}

proof fn lemma_leading_numbers_stop(records: Seq<DataValue>, field: Seq<char>, i: int)
    requires
        0 <= i < records.len(),
        forall|j: int| 0 <= j < i ==> number_under(#[trigger] records[j]@, field) is Some,
        number_under(records[i]@, field) is None,
    ensures
        leading_numbers(records, field) == leading_numbers(records.take(i), field),
    decreases i,
{
    if i > 0 {
        let rest = records.drop_first();
        assert forall|j: int| 0 <= j < i - 1 implies number_under(#[trigger] rest[j]@, field) is Some by {
            assert(rest[j] == records[j + 1]);
        }
        assert(rest[i - 1] == records[i]);
        lemma_leading_numbers_stop(rest, field, i - 1);
        assert(records.take(i).drop_first() =~= rest.take(i - 1));
        assert(records.take(i)[0] == records[0]);
        assert(number_under(records[0]@, field) is Some);
    } else {
        assert(records.take(0) =~= Seq::<DataValue>::empty());
    }
}

/// The numbers among `items`, in order.
pub open spec fn item_numbers(items: Seq<DataItem>) -> Seq<Number>
    decreases items.len(),
{
    if items.len() == 0 {
        Seq::empty()
    } else {
        let before = item_numbers(items.drop_last());
        match items.last() {
            DataItem::Number(n) => before.push(n),
            _ => before,
        }
    }
}

/// The numbers among the items of a discrete domain, in order: what its interval is
/// resolved from.
pub fn numbers_of_items(items: &Vec<DataItem>) -> (r: Vec<Number>)
    ensures
        r@ == item_numbers(items@),
{
    let mut r: Vec<Number> = Vec::new();
    let mut i: usize = 0;
    while i < items.len()
        invariant
            i <= items@.len(),
            r@ == item_numbers(items@.take(i as int)),
        decreases items@.len() - i,
    {
        proof {
            assert(items@.take(i + 1).drop_last() =~= items@.take(i as int));
        }
        match &items[i] {
            DataItem::Number(n) => r.push(*n),
            _ => {},
        }
        i = i + 1;
    }
    assert(items@.take(i as int) =~= items@);
    r
}

impl LineOperator {
    /// The stroke color of the line: the text of its stroke property, black when that is
    /// not set or not a text.
    pub fn stroke(&self) -> (s: String)
        ensures
            s@ == match self.shape.props.stroke {
                Some(DataItem::Text(t)) => t@,
                _ => "black"@,
            },
    {
        match &self.shape.props.stroke {
            Some(DataItem::Text(t)) => t.clone(),
            _ => "black".to_owned(),
        }
    }

    /// The stroke width of the line: the number of its stroke width property, 1 when that is
    /// not set or not a number.
    pub fn stroke_width(&self) -> (w: Number)
        ensures
            w == match self.shape.props.stroke_width {
                Some(DataItem::Number(n)) => n,
                _ => Number { bits: ONE_BITS },
            },
    {
        match &self.shape.props.stroke_width {
            Some(DataItem::Number(n)) => *n,
            _ => Number { bits: ONE_BITS },
        }
    }
}

/// The number that `record` holds under `field`, or 0 when it holds none there.
pub open spec fn number_or_zero(record: Map<Seq<char>, DataItem>, field: Seq<char>) -> Number {
    match number_under(record, field) {
        Some(n) => n,
        None => Number { bits: 0 },
    }
}

/// The coordinates that each record holds under `x` and `y`, 0 where it holds none: the
/// points of a line before its vertical flip.
pub fn record_coordinates(records: &Vec<DataValue>) -> (r: Vec<(Number, Number)>)
    ensures
        r@.len() == records@.len(),
        forall|i: int|
            0 <= i < records@.len() ==> #[trigger] r@[i] == (
                number_or_zero(records@[i]@, X_AXIS_FIELD_NAME@),
                number_or_zero(records@[i]@, Y_AXIS_FIELD_NAME@),
            ),
{
    let mut r: Vec<(Number, Number)> = Vec::new();
    let mut i: usize = 0;
    while i < records.len()
        invariant
            i <= records@.len(),
            r@.len() == i,
            forall|j: int|
                0 <= j < i ==> #[trigger] r@[j] == (
                    number_or_zero(records@[j]@, X_AXIS_FIELD_NAME@),
                    number_or_zero(records@[j]@, Y_AXIS_FIELD_NAME@),
                ),
        decreases records@.len() - i,
    {
        let x = match records[i].get_number(X_AXIS_FIELD_NAME) {
            Some(n) => n,
            None => Number { bits: 0 },
        };
        let y = match records[i].get_number(Y_AXIS_FIELD_NAME) {
            Some(n) => n,
            None => Number { bits: 0 },
        };
        r.push((x, y));
        i = i + 1;
    }
    r
}

/// The fields of a record that a bar is drawn from: its position (0 where missing), its
/// size, and the bandwidths that band scales gave its position.
#[derive(Debug, PartialEq, Eq, Structural, Clone, Copy)]
pub struct RectFields {
    pub x: Number,
    pub y: Number,
    pub width: Option<Number>,
    pub height: Option<Number>,
    pub x_bandwidth: Option<Number>,
    pub y_bandwidth: Option<Number>,
}

/// The field that holds the bandwidth of a band scale over the horizontal position.
pub const X_BANDWIDTH_FIELD_NAME: &'static str = "x_bandwidth";

/// The field that holds the bandwidth of a band scale over the vertical position.
pub const Y_BANDWIDTH_FIELD_NAME: &'static str = "y_bandwidth";

impl BarOperator {
    /// The fields of `record` that its bar is drawn from.
    pub fn read_fields(record: &DataValue) -> (f: RectFields)
        ensures
            f == (RectFields {
                x: number_or_zero(record@, X_AXIS_FIELD_NAME@),
                y: number_or_zero(record@, Y_AXIS_FIELD_NAME@),
                width: number_under(record@, WIDTH_FIELD_NAME@),
                height: number_under(record@, HEIGHT_FIELD_NAME@),
                x_bandwidth: number_under(record@, X_BANDWIDTH_FIELD_NAME@),
                y_bandwidth: number_under(record@, Y_BANDWIDTH_FIELD_NAME@),
            }),
    {
        let x = match record.get_number(X_AXIS_FIELD_NAME) {
            Some(n) => n,
            None => Number { bits: 0 },
        };
        let y = match record.get_number(Y_AXIS_FIELD_NAME) {
            Some(n) => n,
            None => Number { bits: 0 },
        };
        RectFields {
            x,
            y,
            width: record.get_number(WIDTH_FIELD_NAME),
            height: record.get_number(HEIGHT_FIELD_NAME),
            x_bandwidth: record.get_number(X_BANDWIDTH_FIELD_NAME),
            y_bandwidth: record.get_number(Y_BANDWIDTH_FIELD_NAME),
        }
    }
}

impl AxisOperator {
    /// The interval domain that an axis is drawn for: the domain of a single domain pulse,
    /// or the first interval domain among the pulses of a multi pulse.
    pub fn axis_domain(pulse: &Pulse) -> (r: Option<ResolvedDomain>)
        ensures
            match *pulse {
                Pulse::Single(SinglePulse::Domain(d)) => r matches Some(c) && crate::graph::pulse::same_domain(c, d),
                Pulse::Single(_) => r is None,
                Pulse::Multi(multi) => match first_interval(multi.pulses@) {
                    Some((min, max)) => r == Some(ResolvedDomain::Interval(min, max)),
                    None => r is None,
                },
            },
    {
        match pulse {
            Pulse::Single(SinglePulse::Domain(d)) => Some(d.copy()),
            Pulse::Single(_) => None,
            Pulse::Multi(multi) => {
                let mut i: usize = 0;
                assert(multi.pulses@.skip(0) =~= multi.pulses@);
                while i < multi.pulses.len()
                    invariant
                        i <= multi.pulses@.len(),
                        *pulse == Pulse::Multi(*multi),
                        first_interval(multi.pulses@) == first_interval(multi.pulses@.skip(i as int)),
                    decreases multi.pulses@.len() - i,
                {
                    proof {
                        assert(multi.pulses@.skip(i as int).drop_first() =~= multi.pulses@.skip(i + 1));
                        assert(multi.pulses@.skip(i as int)[0] == multi.pulses@[i as int]);
                    }
                    match &multi.pulses[i] {
                        SinglePulse::Domain(ResolvedDomain::Interval(min, max)) => {
                            return Some(ResolvedDomain::Interval(*min, *max));
                        },
                        _ => {},
                    }
                    i = i + 1;
                }
                None
            },
        }
    }
}

/// The first interval domain among `pulses`, if there is one.
pub open spec fn first_interval(pulses: Seq<SinglePulse>) -> Option<(Number, Number)>
    decreases pulses.len(),
{
    if pulses.len() == 0 {
        None
    } else {
        match pulses[0] {
            SinglePulse::Domain(ResolvedDomain::Interval(min, max)) => Some((min, max)),
            _ => first_interval(pulses.drop_first()),
        }
    }
}

/// An axis reads the interval domain that comes first among its pulses: there is none exactly
/// when no pulse is an interval domain, and otherwise it is that of a pulse before which no
/// pulse is an interval domain.
pub proof fn lemma_first_interval(pulses: Seq<SinglePulse>)
    ensures
        first_interval(pulses) is None <==> forall|k: int| 0 <= k < pulses.len() ==> !is_interval(#[trigger] pulses[k]),
        first_interval(pulses) matches Some((min, max)) ==> exists|k: int|
            0 <= k < pulses.len() && pulses[k] == SinglePulse::Domain(ResolvedDomain::Interval(min, max))
                && forall|j: int| 0 <= j < k ==> !is_interval(#[trigger] pulses[j]),
    decreases pulses.len(),
{
    if pulses.len() > 0 {
        let rest = pulses.drop_first();
        lemma_first_interval(rest);
        assert forall|k: int| 0 <= k < rest.len() implies rest[k] == pulses[k + 1] by {}
        if !is_interval(pulses[0]) {
            if let Some((min, max)) = first_interval(pulses) {
                let k = choose|k: int|
                    0 <= k < rest.len() && rest[k] == SinglePulse::Domain(ResolvedDomain::Interval(min, max))
                        && forall|j: int| 0 <= j < k ==> !is_interval(#[trigger] rest[j]);
                assert(pulses[k + 1] == rest[k]);
                assert forall|j: int| 0 <= j < k + 1 implies !is_interval(#[trigger] pulses[j]) by {
                    if j > 0 {
                        assert(rest[j - 1] == pulses[j]);
                    }
                }
            }
            if first_interval(pulses) is None {
                assert forall|k: int| 0 <= k < pulses.len() implies !is_interval(#[trigger] pulses[k]) by {
                    if k > 0 {
                        assert(rest[k - 1] == pulses[k]);
                    }
                }
            } else {
                if forall|k: int| 0 <= k < pulses.len() ==> !is_interval(#[trigger] pulses[k]) {
                    assert forall|k: int| 0 <= k < rest.len() implies !is_interval(#[trigger] rest[k]) by {
                        assert(rest[k] == pulses[k + 1]);
                    }
                }
            }
        }
    }
}
} // verus!
