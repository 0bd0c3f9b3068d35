//! Parsing a specification into a graph: each data source, scale, shape and axis becomes
//! nodes of the graph, connected to the nodes that they read from.
use vstd::prelude::*;

use crate::data::{DataItem, DataValue, Number};
use crate::graph::node::{
    is_initial, transform_operator, AxisOperator, BarOperator, LineOperator, Node, Operator,
    PieOperator, SceneWindow,
    PIE_OUTER_RADIUS_FIELD_NAME, PIE_VALUE_FIELD_NAME,
};
use crate::graph::sort::kahn_sorted;
use crate::graph::{Edge, Graph};
use crate::names::NameMap;
use crate::scale::{scale_of, Scale};
use crate::spec::axis::Axis;
use crate::spec::data::DataEntry;
use crate::spec::scale::{
    BandScale, Domain, LinearScale, LogScale, Range, Scale as ScaleSpec, ScaleKind as ScaleSpecKind,
};
use crate::spec::shape::{
    BarShape, BaseShapeProperties, DataSource, LineShape, PieShape, Shape, ShapeKind,
    HEIGHT_FIELD_NAME, WIDTH_FIELD_NAME, X_AXIS_FIELD_NAME, Y_AXIS_FIELD_NAME,
};
use crate::spec::{Dimensions, Specification, Visual};

verus! {

/// The nodes of a data source: the node of its records, and the node that yields them
/// after all its transform pipes.
#[derive(Debug, PartialEq, Eq, Structural, Clone, Copy)]
pub struct DataNode {
    pub source: usize,
    pub out: usize,
}

impl DataNode {
    /// The nodes `source` and `out` of a data source.
    pub fn new(source: usize, out: usize) -> (d: DataNode)
        ensures
            d == (DataNode { source, out }),
    {
        DataNode { source, out }
    }
}

/// The nodes that a parse gave each part of the specification.
#[derive(Debug, PartialEq)]
pub struct ParsedNodeCollection {
    /// The nodes of each data source, by name.
    pub data: NameMap<DataNode>,
    /// The node that resolves the domain of each scale, by the scale's name.
    pub domain: NameMap<usize>,
    /// The node of each scale, by name.
    pub scales: NameMap<usize>,
    /// The node of each axis, by the name of its scale.
    pub axis: NameMap<usize>,
    /// The nodes of the shapes, in order.
    pub shapes: Vec<usize>,
}

impl ParsedNodeCollection {
    /// A collection with no nodes.
    pub fn new() -> (c: ParsedNodeCollection)
        ensures
            c.data@ == Map::<Seq<char>, DataNode>::empty(),
            c.domain@ == Map::<Seq<char>, usize>::empty(),
            c.scales@ == Map::<Seq<char>, usize>::empty(),
            c.axis@ == Map::<Seq<char>, usize>::empty(),
            c.shapes@ == Seq::<usize>::empty(),
    {
        ParsedNodeCollection {
            data: NameMap::new(),
            domain: NameMap::new(),
            scales: NameMap::new(),
            axis: NameMap::new(),
            shapes: Vec::new(),
        }
    }
}

/// What parsing a specification gives: the graph, and the nodes of each of its parts.
#[derive(Debug, PartialEq)]
pub struct ParseResult {
    pub graph: Graph,
    pub collection: ParsedNodeCollection,
}

/// Every node that the collection names is a node of the graph.
pub open spec fn collection_in(collection: ParsedNodeCollection, n: nat) -> bool {
    &&& forall|k: Seq<char>|
        #[trigger] collection.data@.contains_key(k) ==> collection.data@[k].source < n
            && collection.data@[k].out < n
    &&& forall|k: Seq<char>| #[trigger] collection.domain@.contains_key(k) ==> collection.domain@[k] < n
    &&& forall|k: Seq<char>| #[trigger] collection.scales@.contains_key(k) ==> collection.scales@[k] < n
    &&& forall|k: Seq<char>| #[trigger] collection.axis@.contains_key(k) ==> collection.axis@[k] < n
    &&& forall|i: int| 0 <= i < collection.shapes@.len() ==> #[trigger] collection.shapes@[i] < n
}

/// A result with no nodes, as a parse starts from.
pub open spec fn is_empty_result(r: ParseResult) -> bool {
    &&& r.graph.wf()
    &&& r.graph.nodes@.len() == 0
    &&& r.graph.edges@.len() == 0
    &&& r.graph.order@.len() == 0
    &&& r.collection.data@ == Map::<Seq<char>, DataNode>::empty()
    &&& r.collection.domain@ == Map::<Seq<char>, usize>::empty()
    &&& r.collection.scales@ == Map::<Seq<char>, usize>::empty()
    &&& r.collection.axis@ == Map::<Seq<char>, usize>::empty()
    &&& r.collection.shapes@.len() == 0
}

impl ParseResult {
    /// The graph is well formed and the collection names nodes of it.
    pub open spec fn wf(self) -> bool {
        self.graph.wf() && collection_in(self.collection, self.graph.nodes@.len())
    }

    /// An empty graph and collection.
    pub fn new() -> (r: ParseResult)
        ensures
            r.wf(),
            is_empty_result(r),
    {
        ParseResult { graph: Graph::new(), collection: ParsedNodeCollection::new() }
    }
}

/// `node` has not been evaluated yet: its pulse holds no data.
pub open spec fn fresh(node: Node) -> bool {
    is_initial(node, node.operator)
}

/// `after` is `before` with `added` more nodes and the edges `edges` appended; the nodes
/// and edges of `before` stay as they were.
pub open spec fn grown(before: Graph, after: Graph, added: nat, edges: Seq<Edge>) -> bool {
    &&& after.wf()
    &&& after.nodes@.len() == before.nodes@.len() + added
    &&& after.nodes@.take(before.nodes@.len() as int) == before.nodes@
    &&& after.edges@ == before.edges@ + edges
}

/// The pair of bounds of a range.
pub open spec fn range_pair(range: Range) -> (Number, Number) {
    match range {
        Range::Literal(min, max) => (min, max),
    }
}

/// The domain of a specified scale.
pub open spec fn domain_of(scale: ScaleSpec) -> Domain {
    match scale.kind {
        ScaleSpecKind::Linear(linear) => linear.domain,
        ScaleSpecKind::Log(log) => log.domain,
        ScaleSpecKind::Band(band) => band.domain,
    }
}

/// `operator` is the operator of `scale`, from `field` into `output`: of the scale's
/// kind, over its range.
pub open spec fn is_scale_operator(operator: Operator, scale: ScaleSpec, field: Seq<char>, output: Seq<char>) -> bool {
    match scale.kind {
        ScaleSpecKind::Linear(linear) => operator matches Operator::Linear(op) && op.range
            == range_pair(linear.range) && op.field@ == field && op.output@ == output,
        ScaleSpecKind::Log(log) => operator matches Operator::Log(op) && op.range == range_pair(
            log.range,
        ) && op.field@ == field && op.output@ == output,
        ScaleSpecKind::Band(band) => operator matches Operator::Band(op) && op.range == range_pair(
            band.range,
        ) && op.field@ == field && op.output@ == output,
    }
}

/// `after` is `before` with the two nodes of a scale named `name` appended, fed by
/// `data_node`: the node resolving `domain`, then the scale node `id`, both fresh.
pub open spec fn scale_added(
    name: Seq<char>,
    domain: Domain,
    data_node: usize,
    before: ParseResult,
    after: ParseResult,
    id: usize,
) -> bool {
    let n = before.graph.nodes@.len();
    &&& grown(
        before.graph,
        after.graph,
        2,
        seq![
            Edge { from: data_node, to: n as usize },
            Edge { from: n as usize, to: (n + 1) as usize },
            Edge { from: data_node, to: (n + 1) as usize },
        ],
    )
    &&& after.graph.order == before.graph.order
    &&& fresh(after.graph.nodes@[n as int])
    &&& after.graph.nodes@[n as int].operator matches Operator::DomainInterval(op) && op.domain.same(
        domain,
    )
    &&& fresh(after.graph.nodes@[n + 1 as int])
    &&& after.collection.data == before.collection.data
    &&& after.collection.domain@ == before.collection.domain@.insert(name, n as usize)
    &&& after.collection.scales@ == before.collection.scales@.insert(name, (n + 1) as usize)
    &&& after.collection.axis == before.collection.axis
    &&& after.collection.shapes == before.collection.shapes
    &&& id == n + 1
}

/// `after` is `before` with one fresh node `id` of `operator` appended, fed by `source`,
/// the graph sorted anew, and the collection as it was.
pub open spec fn node_added(
    operator_ok: bool,
    source: usize,
    before: ParseResult,
    after: ParseResult,
    id: usize,
) -> bool {
    let n = before.graph.nodes@.len();
    &&& grown(before.graph, after.graph, 1, seq![Edge { from: source, to: n as usize }])
    &&& after.graph.topological_order(after.graph.order@)
    &&& after.graph.order@ == kahn_sorted(after.graph.edges@, after.graph.nodes@.len())
    &&& fresh(after.graph.nodes@[n as int])
    &&& operator_ok
    &&& after.collection == before.collection
    &&& id == n
}

/// `record` is the record that holds only `item`, under `output`.
pub open spec fn holds_only(record: DataValue, output: Seq<char>, item: DataItem) -> bool {
    record@ == Map::<Seq<char>, DataItem>::empty().insert(output, item)
}

/// `after` is `before` with a fresh constant node `id` appended, fed by `data_node`, whose
/// record holds only `item` under `output`.
pub open spec fn value_added(
    output: Seq<char>,
    item: DataItem,
    data_node: usize,
    before: ParseResult,
    after: ParseResult,
    id: usize,
) -> bool {
    node_added(
        after.graph.nodes@[before.graph.nodes@.len() as int].operator matches Operator::Constant(op)
            && holds_only(op.value, output, item),
        data_node,
        before,
        after,
        id,
    )
}

/// `after` is `before` with a fresh identity node `id` appended, fed by `data_node`, that
/// copies `field` into `output`.
pub open spec fn identity_added(
    field: Seq<char>,
    output: Seq<char>,
    data_node: usize,
    before: ParseResult,
    after: ParseResult,
    id: usize,
) -> bool {
    node_added(
        after.graph.nodes@[before.graph.nodes@.len() as int].operator matches Operator::Identity(op)
            && op.field@ == field && op.output@ == output,
        data_node,
        before,
        after,
        id,
    )
}

/// The node of `source` has been added to `before`, giving `after`: the nodes of the
/// scale that the source names, if the visitor knows it; an identity node of its field
/// when it names none; a constant node when it is a plain value. `id` is the node that
/// holds the source's value under `output`.
pub open spec fn source_added(
    visitor: Visitor,
    source: DataSource,
    output: Seq<char>,
    data_node: usize,
    before: ParseResult,
    after: ParseResult,
    id: usize,
) -> bool {
    match source {
        DataSource::FieldSource { field, scale } => match visitor.scale_named(scale) {
            Some(s) => {
                &&& scale_added(s.name@, domain_of(s), data_node, before, after, id)
                &&& is_scale_operator(after.graph.nodes@[id as int].operator, s, field@, output)
            },
            None => identity_added(field@, output, data_node, before, after, id),
        },
        DataSource::ValueSource(item) => value_added(output, item, data_node, before, after, id),
    }
}

/// Reads the parts of a specification and adds their nodes to a parse result.
pub struct Visitor {
    pub dimensions: Dimensions,
    pub scales: NameMap<ScaleSpec>,
}

/// The specified scales by name; a later scale of a name replaces an earlier one.
pub open spec fn named_scales(scales: Seq<ScaleSpec>) -> Map<Seq<char>, ScaleSpec>
    decreases scales.len(),
{
    if scales.len() == 0 {
        Map::empty()
    } else {
        named_scales(scales.drop_last()).insert(scales.last().name@, scales.last())
    }
}

/// `visitor` reads a specification of `dimensions` and `scales`: it knows each scale by
/// its name, as a copy of the last scale of that name.
pub open spec fn visitor_of(visitor: Visitor, dimensions: Dimensions, scales: Seq<ScaleSpec>) -> bool {
    &&& visitor.dimensions == dimensions
    &&& visitor.scales@.dom() == named_scales(scales).dom()
    &&& forall|k: Seq<char>|
        #[trigger] visitor.scales@.contains_key(k) ==> visitor.scales@[k].same(named_scales(scales)[k])
}

impl Visitor {
    /// The scale named `name`, if there is a name and the visitor knows a scale of it.
    pub open spec fn scale_named(self, name: Option<String>) -> Option<ScaleSpec> {
        match name {
            Some(n) => if self.scales@.contains_key(n@) {
                Some(self.scales@[n@])
            } else {
                None
            },
            None => None,
        }
    }

    /// The window in which the visitor's shapes are drawn.
    pub open spec fn window(self) -> SceneWindow {
        SceneWindow { width: self.dimensions.width, height: self.dimensions.height }
    }

    /// A visitor of a specification of `dimensions` and `scales`.
    pub fn new(dimensions: Dimensions, scales: &Vec<ScaleSpec>) -> (v: Visitor)
        ensures
            visitor_of(v, dimensions, scales@),
    {
        let mut named: NameMap<ScaleSpec> = NameMap::new();
        let mut i: usize = 0;
        while i < scales.len()
            invariant
                i <= scales@.len(),
                named@.dom() == named_scales(scales@.take(i as int)).dom(),
                forall|k: Seq<char>|
                    #[trigger] named@.contains_key(k) ==> named@[k].same(
                        named_scales(scales@.take(i as int))[k],
                    ),
            decreases scales@.len() - i,
        {
            proof {
                assert(scales@.take(i + 1).drop_last() =~= scales@.take(i as int));
            }
            let scale = scales[i].copy();
            named.insert(scales[i].name.as_str(), scale);
            proof {
                assert(named@.dom() =~= named_scales(scales@.take(i + 1)).dom());
            }
            i = i + 1;
        }
        proof {
            assert(scales@.take(i as int) =~= scales@);
        }
        Visitor { dimensions, scales: named }
    }

    /// Add the records of a data source and its transform pipes, each fed by the one
    /// before.
    pub fn visit_data(&self, data: DataEntry, result: &mut ParseResult)
        requires
            old(result).wf(),
            old(result).graph.edges@.len() + data.transform@.len() < usize::MAX,
        ensures
            final(result).wf(),
            data_added(data, *old(result), *final(result)),
    {
        let ghost before = *result;
        let ghost pipes = data.transform@;
        let DataEntry { name, values, transform } = data;
        let data_node = result.graph.add_node(Operator::data(values));
        let ghost first = *result;
        let mut acc = data_node;
        let mut transform = transform;
        let ghost mut k: int = 0;
        while transform.len() > 0
            invariant
                0 <= k <= pipes.len(),
                transform@ == pipes.skip(k),
                result.graph.wf(),
                acc == data_node + k,
                data_node == before.graph.nodes@.len(),
                result.graph.nodes@.len() == data_node + 1 + k,
                result.graph.nodes@.take(data_node + 1) == first.graph.nodes@,
                first.graph.nodes@.take(data_node as int) == before.graph.nodes@,
                forall|i: int|
                    0 <= i < k ==> is_initial(
                        #[trigger] result.graph.nodes@[data_node + 1 + i],
                        transform_operator(pipes[i]),
                    ),
                result.graph.edges@ == before.graph.edges@ + Seq::new(
                    k as nat,
                    |i: int| Edge { from: (data_node + i) as usize, to: (data_node + i + 1) as usize },
                ),
                before.graph.edges@.len() + pipes.len() < usize::MAX,
                k > 0 ==> result.graph.topological_order(result.graph.order@),
                k > 0 ==> result.graph.order@ == kahn_sorted(result.graph.edges@, result.graph.nodes@.len()),
                k == 0 ==> result.graph.order == before.graph.order,
                result.collection == before.collection,
            decreases transform@.len(),
        {
            let pipe = transform.remove(0);
            let ghost grown_from = *result;
            let sources = vec![acc];
            let ghost feeding = sources@;
            let id = result.graph.add(Operator::transform(pipe), sources);
            proof {
                assert(feeding.map_values(|s: usize| Edge { from: s, to: id }) =~= seq![
                    Edge { from: acc, to: id },
                ]);
                assert(result.graph.edges@ =~= before.graph.edges@ + Seq::new(
                    (k + 1) as nat,
                    |i: int| Edge { from: (data_node + i) as usize, to: (data_node + i + 1) as usize },
                ));
                assert(result.graph.nodes@.take(data_node + 1) =~= grown_from.graph.nodes@.take(
                    data_node + 1,
                ));
                assert forall|i: int| 0 <= i < k + 1 implies is_initial(
                    #[trigger] result.graph.nodes@[data_node + 1 + i],
                    transform_operator(pipes[i]),
                ) by {
                    if i < k {
                        assert(result.graph.nodes@[data_node + 1 + i] == grown_from.graph.nodes@[data_node
                            + 1 + i]);
                    }
                }
                assert(transform@ =~= pipes.skip(k + 1));
                k = k + 1;
            }
            acc = id;
        }
        result.collection.data.insert(name.as_str(), DataNode::new(data_node, acc));
        proof {
            assert(pipes.skip(k).len() == 0);
            assert(k == pipes.len());
            assert(result.graph.nodes@.take(data_node as int) =~= before.graph.nodes@) by {
                assert(result.graph.nodes@.take(data_node as int) =~= result.graph.nodes@.take(
                    data_node + 1,
                ).take(data_node as int));
            }
            assert(result.graph.nodes@[data_node as int] == first.graph.nodes@[data_node as int]) by {
                assert(result.graph.nodes@.take(data_node + 1)[data_node as int]
                    == result.graph.nodes@[data_node as int]);
            }
            assert(grown(
                before.graph,
                result.graph,
                (pipes.len() + 1) as nat,
                Seq::new(
                    pipes.len(),
                    |i: int| Edge { from: (data_node + i) as usize, to: (data_node + i + 1) as usize },
                ),
            ));
        }
    }

    /// Add the node of a plain value: a constant record holding `value` under `output`,
    /// fed by `data_node`.
    pub fn visit_value_source(&self, output: &str, value: &DataItem, data_node: usize, result: &mut ParseResult) -> (id: usize)
        requires
            old(result).wf(),
            data_node < old(result).graph.nodes@.len(),
            old(result).graph.edges@.len() + 1 < usize::MAX,
        ensures
            final(result).wf(),
            value_added(output@, *value, data_node, *old(result), *final(result), id),
    {
        let pairs = vec![(output, value.copy())];
        proof {
            assert(pairs@.map_values(|p: (&str, DataItem)| (p.0@, p.1)) =~= seq![(output@, *value)]);
            assert(seq![(output@, *value)].drop_last() =~= Seq::<(Seq<char>, DataItem)>::empty());
        }
        let record = DataValue::from_pairs(pairs);
        proof {
            assert(crate::data::pairs_map(seq![(output@, *value)]) == crate::data::pairs_map(
                Seq::<(Seq<char>, DataItem)>::empty(),
            ).insert(output@, *value));
            assert(record@ == Map::<Seq<char>, DataItem>::empty().insert(output@, *value));
        }
        let sources = vec![data_node];
        let ghost feeding = sources@;
        let id = result.graph.add(Operator::constant(record), sources);
        proof {
            assert(feeding.map_values(|s: usize| Edge { from: s, to: id }) =~= seq![
                Edge { from: data_node, to: id },
            ]);
        }
        id
    }

    /// Add the nodes of a scale named `name` over `domain`, fed by `data_node`: a node
    /// that resolves the domain, then the scale node of `operator`, fed by it and by
    /// `data_node`. Gives the scale node.
    fn visit_scale_nodes(
        &self,
        name: &str,
        domain: &Domain,
        operator: Operator,
        data_node: usize,
        result: &mut ParseResult,
    ) -> (id: usize)
        requires
            old(result).wf(),
            data_node < old(result).graph.nodes@.len(),
            old(result).graph.edges@.len() + 3 < usize::MAX,
        ensures
            final(result).wf(),
            scale_added(name@, *domain, data_node, *old(result), *final(result), id),
            final(result).graph.nodes@[id as int].operator == operator,
    {
        let ghost before = *result;
        let domain_node = result.graph.add_node(Operator::domain_interval(domain.copy()));
        result.graph.add_edge(data_node, domain_node);
        result.collection.domain.insert(name, domain_node);
        let ghost with_domain = result.graph.nodes@;
        let node = result.graph.add_node(operator);
        result.graph.add_edge(domain_node, node);
        result.graph.add_edge(data_node, node);
        result.collection.scales.insert(name, node);
        proof {
            let n = before.graph.nodes@.len();
            assert(result.graph.nodes@.take(n as int) =~= before.graph.nodes@) by {
                assert(result.graph.nodes@.take(n as int) =~= result.graph.nodes@.take(n + 1 as int).take(
                    n as int,
                ));
            }
            assert(result.graph.nodes@[n as int] == with_domain[n as int]) by {
                assert(result.graph.nodes@.take(n + 1 as int)[n as int] == result.graph.nodes@[n as int]);
            }
            assert(result.graph.edges@ =~= before.graph.edges@ + seq![
                Edge { from: data_node, to: n as usize },
                Edge { from: n as usize, to: (n + 1) as usize },
                Edge { from: data_node, to: (n + 1) as usize },
            ]);
        }
        node
    }

    /// Add the nodes of a linear scale named `name`.
    pub fn visit_linear(
        &self,
        linear: &LinearScale,
        name: &str,
        field: &str,
        output: &str,
        data_node: usize,
        result: &mut ParseResult,
    ) -> (id: usize)
        requires
            old(result).wf(),
            data_node < old(result).graph.nodes@.len(),
            old(result).graph.edges@.len() + 3 < usize::MAX,
        ensures
            final(result).wf(),
            scale_added(name@, linear.domain, data_node, *old(result), *final(result), id),
            final(result).graph.nodes@[id as int].operator matches Operator::Linear(op) && op.range
                == range_pair(linear.range) && op.field@ == field@ && op.output@ == output@,
    {
        let Range::Literal(min, max) = linear.range;
        let operator = Operator::linear((min, max), field, output);
        self.visit_scale_nodes(name, &linear.domain, operator, data_node, result)
    }

    /// Add the nodes of a logarithmic scale named `name`.
    pub fn visit_log(
        &self,
        log: &LogScale,
        name: &str,
        field: &str,
        output: &str,
        data_node: usize,
        result: &mut ParseResult,
    ) -> (id: usize)
        requires
            old(result).wf(),
            data_node < old(result).graph.nodes@.len(),
            old(result).graph.edges@.len() + 3 < usize::MAX,
        ensures
            final(result).wf(),
            scale_added(name@, log.domain, data_node, *old(result), *final(result), id),
            final(result).graph.nodes@[id as int].operator matches Operator::Log(op) && op.range
                == range_pair(log.range) && op.field@ == field@ && op.output@ == output@,
    {
        let Range::Literal(min, max) = log.range;
        let operator = Operator::log((min, max), field, output);
        self.visit_scale_nodes(name, &log.domain, operator, data_node, result)
    }

    /// Add the nodes of a band scale named `name`.
    pub fn visit_band(
        &self,
        band: &BandScale,
        name: &str,
        field: &str,
        output: &str,
        data_node: usize,
        result: &mut ParseResult,
    ) -> (id: usize)
        requires
            old(result).wf(),
            data_node < old(result).graph.nodes@.len(),
            old(result).graph.edges@.len() + 3 < usize::MAX,
        ensures
            final(result).wf(),
            scale_added(name@, band.domain, data_node, *old(result), *final(result), id),
            final(result).graph.nodes@[id as int].operator matches Operator::Band(op) && op.range
                == range_pair(band.range) && op.field@ == field@ && op.output@ == output@,
    {
        let Range::Literal(min, max) = band.range;
        let operator = Operator::band((min, max), field, output);
        self.visit_scale_nodes(name, &band.domain, operator, data_node, result)
    }

    /// Add the nodes of `scale`, scaling `field` of the records of `data_node` into
    /// `output`. Gives the scale node.
    pub fn visit_scale(
        &self,
        scale: &ScaleSpec,
        field: &str,
        output: &str,
        data_node: usize,
        result: &mut ParseResult,
    ) -> (id: usize)
        requires
            old(result).wf(),
            data_node < old(result).graph.nodes@.len(),
            old(result).graph.edges@.len() + 3 < usize::MAX,
        ensures
            final(result).wf(),
            scale_added(scale.name@, domain_of(*scale), data_node, *old(result), *final(result), id),
            is_scale_operator(final(result).graph.nodes@[id as int].operator, *scale, field@, output@),
    {
        match &scale.kind {
            ScaleSpecKind::Linear(linear) => self.visit_linear(
                linear,
                scale.name.as_str(),
                field,
                output,
                data_node,
                result,
            ),
            ScaleSpecKind::Log(log) => self.visit_log(
                log,
                scale.name.as_str(),
                field,
                output,
                data_node,
                result,
            ),
            ScaleSpecKind::Band(band) => self.visit_band(
                band,
                scale.name.as_str(),
                field,
                output,
                data_node,
                result,
            ),
        }
    }

    /// Add the node that holds the value of `source` under `output`, fed by `data_node`:
    /// the nodes of the scale that it names, if the visitor knows it; otherwise an identity
    /// node copying its field, or a constant node of its plain value. Gives that node.
    pub fn visit_data_source(
        &self,
        source: &DataSource,
        output: &str,
        data_node: usize,
        result: &mut ParseResult,
    ) -> (id: usize)
        requires
            old(result).wf(),
            data_node < old(result).graph.nodes@.len(),
            old(result).graph.edges@.len() + 3 < usize::MAX,
        ensures
            final(result).wf(),
            source_added(*self, *source, output@, data_node, *old(result), *final(result), id),
            old(result).graph.nodes@.len() <= id < final(result).graph.nodes@.len(),
            final(result).graph.edges@.len() <= old(result).graph.edges@.len() + 3,
    {
        match source {
            DataSource::FieldSource { field, scale } => {
                let found = match scale {
                    Some(name) => self.scales.get(name.as_str()),
                    None => None,
                };
                match found {
                    Some(s) => self.visit_scale(s, field.as_str(), output, data_node, result),
                    None => {
                        let operator = Operator::identity(field.as_str(), output);
                        let sources = vec![data_node];
                        let ghost feeding = sources@;
                        let id = result.graph.add(operator, sources);
                        proof {
                            assert(feeding.map_values(|s: usize| Edge { from: s, to: id }) =~= seq![
                                Edge { from: data_node, to: id },
                            ]);
                        }
                        id
                    },
                }
            },
            DataSource::ValueSource(value) => self.visit_value_source(output, value, data_node, result),
        }
    }

    /// Add the nodes of an optional property of a shape, fed by `data_node`, when it is
    /// set, and list the node that holds its value in `nodes`.
    fn visit_property(
        &self,
        source: &Option<DataSource>,
        output: &str,
        data_node: usize,
        result: &mut ParseResult,
        nodes: &mut Vec<usize>,
        Ghost(start): Ghost<ParseResult>,
        Ghost(done): Ghost<Seq<(DataSource, Seq<char>)>>,
    )
        requires
            old(result).wf(),
            data_node < old(result).graph.nodes@.len(),
            old(result).graph.edges@.len() + 3 < usize::MAX,
            sources_added(*self, done, data_node, start, *old(result), old(nodes)@),
            forall|i: int|
                0 <= i < old(nodes)@.len() ==> #[trigger] old(nodes)@[i] < old(result).graph.nodes@.len(),
        ensures
            final(result).wf(),
            sources_added(
                *self,
                done + option_source(*source, output@),
                data_node,
                start,
                *final(result),
                final(nodes)@,
            ),
            forall|i: int|
                0 <= i < final(nodes)@.len() ==> #[trigger] final(nodes)@[i] < final(result).graph.nodes@.len(),
            old(result).graph.nodes@.len() <= final(result).graph.nodes@.len(),
            final(result).graph.edges@.len() <= old(result).graph.edges@.len() + 3,
    {
        match source {
            Some(s) => {
                let ghost mid = *result;
                let id = self.visit_data_source(s, output, data_node, result);
                proof {
                    lemma_sources_added_push(*self, done, (*s, output@), data_node, start, mid, *result, nodes@, id);
                    assert(done + option_source(*source, output@) =~= done.push((*s, output@)));
                }
                nodes.push(id);
            },
            None => {
                proof {
                    assert(done + option_source(*source, output@) =~= done);
                }
            },
        }
    }

    /// Add the nodes of the set position and size properties of a shape, in the order `x`,
    /// `y`, `width`, `height`, each fed by `data_node`. Gives the nodes that hold their
    /// values.
    pub fn visit_shape_props(
        &self,
        base: &BaseShapeProperties,
        data_node: usize,
        result: &mut ParseResult,
    ) -> (nodes: Vec<usize>)
        requires
            old(result).wf(),
            data_node < old(result).graph.nodes@.len(),
            old(result).graph.edges@.len() + 12 < usize::MAX,
        ensures
            final(result).wf(),
            sources_added(*self, present_sources(*base), data_node, *old(result), *final(result), nodes@),
            forall|i: int| 0 <= i < nodes@.len() ==> #[trigger] nodes@[i] < final(result).graph.nodes@.len(),
            old(result).graph.nodes@.len() <= final(result).graph.nodes@.len(),
            final(result).graph.edges@.len() <= old(result).graph.edges@.len() + 12,
            nodes@.len() <= 4,
    {
        let ghost start = *result;
        let mut nodes: Vec<usize> = Vec::new();
        proof {
            lemma_sources_added_none(*self, data_node, start);
        }
        let ghost none = Seq::<(DataSource, Seq<char>)>::empty();
        let ghost with_x = none + option_source(base.x, X_AXIS_FIELD_NAME@);
        let ghost with_y = with_x + option_source(base.y, Y_AXIS_FIELD_NAME@);
        let ghost with_width = with_y + option_source(base.width, WIDTH_FIELD_NAME@);
        self.visit_property(&base.x, X_AXIS_FIELD_NAME, data_node, result, &mut nodes, Ghost(start), Ghost(none));
        self.visit_property(&base.y, Y_AXIS_FIELD_NAME, data_node, result, &mut nodes, Ghost(start), Ghost(with_x));
        self.visit_property(&base.width, WIDTH_FIELD_NAME, data_node, result, &mut nodes, Ghost(start), Ghost(with_y));
        self.visit_property(&base.height, HEIGHT_FIELD_NAME, data_node, result, &mut nodes, Ghost(start), Ghost(with_width));
        proof {
            assert(with_width + option_source(base.height, HEIGHT_FIELD_NAME@) =~= present_sources(*base));
            lemma_sources_added_len(*self, present_sources(*base), data_node, start, *result, nodes@);
        }
        nodes
    }

    /// Add a fresh shape node of `operator`, fed by each node of `nodes`, and list it among
    /// the shapes. Gives the shape node.
    fn add_shape_node(&self, operator: Operator, nodes: Vec<usize>, result: &mut ParseResult) -> (id: usize)
        requires
            old(result).wf(),
            forall|i: int| 0 <= i < nodes@.len() ==> #[trigger] nodes@[i] < old(result).graph.nodes@.len(),
            old(result).graph.edges@.len() + nodes@.len() < usize::MAX,
        ensures
            final(result).wf(),
            shape_node_added(operator, nodes@, *old(result), *final(result)),
            id == old(result).graph.nodes@.len(),
    {
        let ghost before = *result;
        let node = result.graph.add_node(operator);
        let ghost added = *result;
        result.collection.shapes.push(node);
        let mut i: usize = 0;
        while i < nodes.len()
            invariant
                i <= nodes@.len(),
                result.graph.wf(),
                node == before.graph.nodes@.len(),
                result.graph.nodes == added.graph.nodes,
                added.graph.nodes@.len() == before.graph.nodes@.len() + 1,
                added.graph.nodes@.take(node as int) == before.graph.nodes@,
                is_initial(added.graph.nodes@[node as int], operator),
                result.graph.order == before.graph.order,
                forall|j: int| 0 <= j < nodes@.len() ==> #[trigger] nodes@[j] < before.graph.nodes@.len(),
                before.graph.edges@.len() + nodes@.len() < usize::MAX,
                result.graph.edges@ == before.graph.edges@ + nodes@.take(i as int).map_values(
                    |s: usize| Edge { from: s, to: node },
                ),
                result.collection.data == before.collection.data,
                result.collection.domain == before.collection.domain,
                result.collection.scales == before.collection.scales,
                result.collection.axis == before.collection.axis,
                result.collection.shapes@ == before.collection.shapes@.push(node),
            decreases nodes@.len() - i,
        {
            result.graph.add_edge(nodes[i], node);
            proof {
                assert(result.graph.edges@ =~= before.graph.edges@ + nodes@.take(i + 1).map_values(
                    |s: usize| Edge { from: s, to: node },
                ));
            }
            i = i + 1;
        }
        proof {
            assert(nodes@.take(i as int) =~= nodes@);
        }
        node
    }

    /// Add the nodes of a line drawn from the records of `data_node`.
    pub fn visit_line_shape(&self, line: LineShape, data_node: usize, result: &mut ParseResult)
        requires
            old(result).wf(),
            data_node < old(result).graph.nodes@.len(),
            old(result).graph.edges@.len() + 16 < usize::MAX,
        ensures
            final(result).wf(),
            line_added(*self, line, data_node, *old(result), *final(result)),
            final(result).graph.edges@.len() <= old(result).graph.edges@.len() + 16,
    {
        let nodes = self.visit_shape_props(&line.props.base, data_node, result);
        let ghost mid = *result;
        let ghost ids = nodes@;
        let window = SceneWindow::new(self.dimensions.width, self.dimensions.height);
        self.add_shape_node(Operator::line(line, window), nodes, result);
        proof {
            assert(sources_added(*self, present_sources(line.props.base), data_node, *old(result), mid, ids)
                && shape_node_added(
                Operator::Line(LineOperator { shape: line, window: self.window() }),
                ids,
                mid,
                *result,
            ));
        }
    }

    /// Add the nodes of bars drawn from the records of `data_node`.
    pub fn visit_bar_shape(&self, bar: BarShape, data_node: usize, result: &mut ParseResult)
        requires
            old(result).wf(),
            data_node < old(result).graph.nodes@.len(),
            old(result).graph.edges@.len() + 16 < usize::MAX,
        ensures
            final(result).wf(),
            bar_added(*self, bar, data_node, *old(result), *final(result)),
            final(result).graph.edges@.len() <= old(result).graph.edges@.len() + 16,
    {
        let nodes = self.visit_shape_props(&bar.props.base, data_node, result);
        let ghost mid = *result;
        let ghost ids = nodes@;
        let window = SceneWindow::new(self.dimensions.width, self.dimensions.height);
        self.add_shape_node(Operator::bar(bar, window), nodes, result);
        proof {
            assert(sources_added(*self, present_sources(bar.props.base), data_node, *old(result), mid, ids)
                && shape_node_added(
                Operator::Bar(BarOperator { shape: bar, window: self.window() }),
                ids,
                mid,
                *result,
            ));
        }
    }

    /// Add the nodes of a pie drawn from the records of `data_node`: a constant node of its
    /// value when that is a plain value, the nodes of its outer radius if set, then the
    /// pie's node.
    pub fn visit_pie_shape(&self, pie: PieShape, data_node: usize, result: &mut ParseResult)
        requires
            old(result).wf(),
            data_node < old(result).graph.nodes@.len(),
            old(result).graph.edges@.len() + 16 < usize::MAX,
        ensures
            final(result).wf(),
            pie_added(*self, pie, data_node, *old(result), *final(result)),
            final(result).graph.edges@.len() <= old(result).graph.edges@.len() + 16,
            final(result).graph.nodes@.len() > 0,
            final(result).graph.nodes@.last().operator matches Operator::Pie(op) && op.shape == pie && match pie.props.value {
                DataSource::FieldSource { field, .. } => op.field@ == field@,
                DataSource::ValueSource(_) => op.field@ == PIE_VALUE_FIELD_NAME@,
            },
    {
        let ghost before = *result;
        let field = match &pie.props.value {
            DataSource::FieldSource { field, .. } => field.clone(),
            DataSource::ValueSource(_) => PIE_VALUE_FIELD_NAME.to_owned(),
        };
        let value_node = match &pie.props.value {
            DataSource::FieldSource { .. } => data_node,
            DataSource::ValueSource(value) => self.visit_value_source(
                field.as_str(),
                value,
                data_node,
                result,
            ),
        };
        let ghost mid = *result;
        let mut nodes: Vec<usize> = Vec::new();
        proof {
            lemma_sources_added_none(*self, value_node, mid);
        }
        self.visit_property(
            &pie.props.outer_radius,
            PIE_OUTER_RADIUS_FIELD_NAME,
            value_node,
            result,
            &mut nodes,
            Ghost(mid),
            Ghost(Seq::empty()),
        );
        let ghost radius = *result;
        let ghost ids = nodes@;
        proof {
            assert(Seq::<(DataSource, Seq<char>)>::empty() + option_source(
                pie.props.outer_radius,
                PIE_OUTER_RADIUS_FIELD_NAME@,
            ) =~= option_source(pie.props.outer_radius, PIE_OUTER_RADIUS_FIELD_NAME@));
        }
        let window = SceneWindow::new(self.dimensions.width, self.dimensions.height);
        let node = result.graph.add_node(Operator::pie(pie, field.as_str(), window));
        let ghost added = *result;
        result.collection.shapes.push(node);
        result.graph.add_edge(value_node, node);
        let mut i: usize = 0;
        while i < nodes.len()
            invariant
                i <= nodes@.len(),
                result.graph.wf(),
                nodes@ == ids,
                node == radius.graph.nodes@.len(),
                result.graph.nodes == added.graph.nodes,
                added.graph.nodes@.len() == radius.graph.nodes@.len() + 1,
                forall|j: int| 0 <= j < ids.len() ==> #[trigger] ids[j] < radius.graph.nodes@.len(),
                radius.graph.edges@.len() + 1 + ids.len() < usize::MAX,
                result.graph.edges@ == radius.graph.edges@ + seq![Edge { from: value_node, to: node }]
                    + ids.take(i as int).map_values(|s: usize| Edge { from: s, to: node }),
                result.graph.order == radius.graph.order,
                result.collection.data == radius.collection.data,
                result.collection.domain == radius.collection.domain,
                result.collection.scales == radius.collection.scales,
                result.collection.axis == radius.collection.axis,
                result.collection.shapes@ == radius.collection.shapes@.push(node),
                collection_in(radius.collection, radius.graph.nodes@.len()),
            decreases ids.len() - i,
        {
            result.graph.add_edge(nodes[i], node);
            proof {
                assert(result.graph.edges@ =~= radius.graph.edges@ + seq![
                    Edge { from: value_node, to: node },
                ] + ids.take(i + 1).map_values(|s: usize| Edge { from: s, to: node }));
            }
            i = i + 1;
        }
        proof {
            assert(ids.take(i as int) =~= ids);
            lemma_sources_added_len(
                *self,
                option_source(pie.props.outer_radius, PIE_OUTER_RADIUS_FIELD_NAME@),
                value_node,
                mid,
                radius,
                ids,
            );
            let n = radius.graph.nodes@.len();
            assert(result.graph.nodes@.take(n as int) =~= radius.graph.nodes@);
            assert(fresh(result.graph.nodes@[n as int]));
            assert(result.graph.edges@ =~= radius.graph.edges@ + (seq![
                Edge { from: value_node, to: n as usize },
            ] + ids.map_values(|i: usize| Edge { from: i, to: n as usize })));
            assert(result.graph.nodes@[n as int].operator matches Operator::Pie(op) && op.shape == pie
                && op.field@ == pie_field(pie) && op.window == self.window());
            assert(grown(
                radius.graph,
                result.graph,
                1,
                seq![Edge { from: value_node, to: n as usize }] + ids.map_values(
                    |i: usize| Edge { from: i, to: n as usize },
                ),
            ));
            assert(match pie.props.value {
                DataSource::FieldSource { .. } => mid == before && value_node == data_node,
                DataSource::ValueSource(item) => value_added(
                    PIE_VALUE_FIELD_NAME@,
                    item,
                    data_node,
                    before,
                    mid,
                    value_node,
                ),
            });
            assert(sources_added(
                *self,
                option_source(pie.props.outer_radius, PIE_OUTER_RADIUS_FIELD_NAME@),
                value_node,
                mid,
                radius,
                ids,
            ));
            assert(pie_added(*self, pie, data_node, before, *result));
            lemma_pie_reads_its_value_field(*self, pie, data_node, before, *result);
        }
    }

    /// Add the nodes of `shape`, drawn from the last node of its data source; nothing when
    /// there is no data source of its name, or for points.
    pub fn visit_shape(&self, shape: Shape, result: &mut ParseResult)
        requires
            old(result).wf(),
            old(result).graph.edges@.len() + 16 < usize::MAX,
        ensures
            final(result).wf(),
            shape_added(*self, shape, *old(result), *final(result)),
            final(result).graph.edges@.len() <= old(result).graph.edges@.len() + 16,
    {
        let Shape { from, kind } = shape;
        let data_node = match result.collection.data.get(from.as_str()) {
            Some(nodes) => nodes.out,
            None => {
                return;
            },
        };
        match kind {
            ShapeKind::Line(line) => self.visit_line_shape(line, data_node, result),
            ShapeKind::Bar(bar) => self.visit_bar_shape(bar, data_node, result),
            ShapeKind::Pie(pie) => self.visit_pie_shape(pie, data_node, result),
            ShapeKind::Point(_) => {},
        }
    }

    /// Add the node of `axis`, fed by the domain node of its scale; nothing unless the
    /// visitor knows the scale and its domain has a node.
    pub fn visit_axis(&self, axis: Axis, result: &mut ParseResult)
        requires
            old(result).wf(),
            old(result).graph.edges@.len() + 2 < usize::MAX,
        ensures
            final(result).wf(),
            axis_added(*self, axis, *old(result), *final(result)),
            final(result).graph.edges@.len() <= old(result).graph.edges@.len() + 1,
    {
        let scale = match self.scales.get(axis.scale.as_str()) {
            Some(scale) => scale,
            None => {
                return;
            },
        };
        let domain_node = match result.collection.domain.get(axis.scale.as_str()) {
            Some(node) => *node,
            None => {
                return;
            },
        };
        let scale_name = axis.scale.clone();
        let window = SceneWindow::new(self.dimensions.width, self.dimensions.height);
        let operator = Operator::axis(axis, Scale::from_spec(scale), window);
        let sources = vec![domain_node];
        let ghost feeding = sources@;
        let node = result.graph.add(operator, sources);
        proof {
            assert(feeding.map_values(|s: usize| Edge { from: s, to: node }) =~= seq![
                Edge { from: domain_node, to: node },
            ]);
        }
        result.collection.axis.insert(scale_name.as_str(), node);
    }

    /// Add the nodes of all the parts of `specification`: its data sources, then its
    /// shapes, then its axes, in order.
    pub fn walk_spec(&self, specification: Specification, result: &mut ParseResult)
        requires
            old(result).wf(),
            is_empty_result(*old(result)),
            visitor_of(*self, specification.dimensions, specification.scales@),
            edge_budget(specification) + 2 < usize::MAX,
        ensures
            final(result).wf(),
            exists|data: Seq<ParseResult>, shapes: Seq<ParseResult>, axes: Seq<ParseResult>|
                #![trigger entries_chain(specification.data@, data), shapes_chain(*self, specification.visual.shapes@, shapes), axes_chain(*self, specification.visual.axes@, axes)]
            {
                &&& data[0] == *old(result)
                &&& entries_chain(specification.data@, data)
                &&& shapes[0] == data.last()
                &&& shapes_chain(*self, specification.visual.shapes@, shapes)
                &&& axes[0] == shapes.last()
                &&& axes_chain(*self, specification.visual.axes@, axes)
                &&& axes.last() == *final(result)
            },
    {
        let ghost start = *result;
        let ghost entries = specification.data@;
        let ghost all_shapes = specification.visual.shapes@;
        let ghost all_axes = specification.visual.axes@;
        let ghost budget = edge_budget(specification);
        let Specification { dimensions: _, data, scales: _, visual } = specification;
        let mut data = data;
        let ghost mut data_states: Seq<ParseResult> = seq![start];
        let ghost mut k: int = 0;
        proof {
            lemma_transforms_len_take(entries, 0);
        }
        while data.len() > 0
            invariant
                0 <= k <= entries.len(),
                data@ == entries.skip(k),
                data_states.len() == k + 1,
                data_states[0] == start,
                data_states.last() == *result,
                entries_chain(entries.take(k), data_states),
                result.wf(),
                result.graph.edges@.len() <= transforms_len(entries.take(k)),
                transforms_len(entries) <= budget,
                budget + 2 < usize::MAX,
            decreases data@.len(),
        {
            let entry = data.remove(0);
            let ghost before = *result;
            proof {
                assert(entry == entries[k]);
                lemma_transforms_len_take(entries, k);
                lemma_transforms_len_take(entries, k + 1);
            }
            self.visit_data(entry, result);
            proof {
                let next = data_states.push(*result);
                assert forall|i: int| 0 <= i < k + 1 implies #[trigger] data_added(
                    entries.take(k + 1)[i],
                    next[i],
                    next[i + 1],
                ) by {
                    if i < k {
                        assert(entries.take(k + 1)[i] == entries.take(k)[i]);
                        assert(data_added(entries.take(k)[i], data_states[i], data_states[i + 1]));
                    }
                }
                assert(data@ =~= entries.skip(k + 1));
                data_states = next;
                k = k + 1;
            }
        }
        proof {
            assert(entries.take(k) =~= entries);
        }
        let Visual { shapes, axes } = visual;
        let mut shapes = shapes;
        let ghost mut shape_states: Seq<ParseResult> = seq![*result];
        let ghost mut j: int = 0;
        while shapes.len() > 0
            invariant
                0 <= j <= all_shapes.len(),
                shapes@ == all_shapes.skip(j),
                shape_states.len() == j + 1,
                shape_states[0] == data_states.last(),
                shape_states.last() == *result,
                shapes_chain(*self, all_shapes.take(j), shape_states),
                result.wf(),
                result.graph.edges@.len() <= transforms_len(entries) + 16 * j,
                budget == transforms_len(entries) + 16 * all_shapes.len() + 2 * all_axes.len(),
                budget + 2 < usize::MAX,
            decreases shapes@.len(),
        {
            let shape = shapes.remove(0);
            proof {
                assert(shape == all_shapes[j]);
            }
            self.visit_shape(shape, result);
            proof {
                let next = shape_states.push(*result);
                assert forall|i: int| 0 <= i < j + 1 implies #[trigger] shape_added(
                    *self,
                    all_shapes.take(j + 1)[i],
                    next[i],
                    next[i + 1],
                ) by {
                    if i < j {
                        assert(all_shapes.take(j + 1)[i] == all_shapes.take(j)[i]);
                        assert(shape_added(*self, all_shapes.take(j)[i], shape_states[i], shape_states[i + 1]));
                    }
                }
                assert(shapes@ =~= all_shapes.skip(j + 1));
                shape_states = next;
                j = j + 1;
            }
        }
        proof {
            assert(all_shapes.take(j) =~= all_shapes);
        }
        let mut axes = axes;
        let ghost mut axis_states: Seq<ParseResult> = seq![*result];
        let ghost mut m: int = 0;
        while axes.len() > 0
            invariant
                0 <= m <= all_axes.len(),
                axes@ == all_axes.skip(m),
                axis_states.len() == m + 1,
                axis_states[0] == shape_states.last(),
                axis_states.last() == *result,
                axes_chain(*self, all_axes.take(m), axis_states),
                result.wf(),
                result.graph.edges@.len() <= transforms_len(entries) + 16 * all_shapes.len() + m,
                budget == transforms_len(entries) + 16 * all_shapes.len() + 2 * all_axes.len(),
                budget + 2 < usize::MAX,
            decreases axes@.len(),
        {
            let axis = axes.remove(0);
            proof {
                assert(axis == all_axes[m]);
            }
            self.visit_axis(axis, result);
            proof {
                let next = axis_states.push(*result);
                assert forall|i: int| 0 <= i < m + 1 implies #[trigger] axis_added(
                    *self,
                    all_axes.take(m + 1)[i],
                    next[i],
                    next[i + 1],
                ) by {
                    if i < m {
                        assert(all_axes.take(m + 1)[i] == all_axes.take(m)[i]);
                        assert(axis_added(*self, all_axes.take(m)[i], axis_states[i], axis_states[i + 1]));
                    }
                }
                assert(axes@ =~= all_axes.skip(m + 1));
                axis_states = next;
                m = m + 1;
            }
        }
        proof {
            assert(all_axes.take(m) =~= all_axes);
            assert(entries_chain(entries, data_states));
            assert(shapes_chain(*self, all_shapes, shape_states));
            assert(axes_chain(*self, all_axes, axis_states));
        }
    }
}

/// `after` is `before` with the nodes of the data source `data` added: a fresh node of its
/// records, then one fresh node for each of its transform pipes, in order, each fed by the
/// one before; the collection gives the source's name its first and last node.
pub open spec fn data_added(data: DataEntry, before: ParseResult, after: ParseResult) -> bool {
    let n = before.graph.nodes@.len();
    let k = data.transform@.len();
    &&& grown(
        before.graph,
        after.graph,
        k + 1,
        Seq::new(k, |i: int| Edge { from: (n + i) as usize, to: (n + i + 1) as usize }),
    )
    &&& is_initial(after.graph.nodes@[n as int], Operator::Data(crate::graph::node::DataOperator { data: data.values }))
    &&& forall|i: int|
        0 <= i < k ==> is_initial(
            #[trigger] after.graph.nodes@[n + 1 + i],
            transform_operator(data.transform@[i]),
        )
    &&& (k > 0 ==> after.graph.topological_order(after.graph.order@))
    &&& (k > 0 ==> after.graph.order@ == kahn_sorted(after.graph.edges@, after.graph.nodes@.len()))
    &&& (k == 0 ==> after.graph.order == before.graph.order)
    &&& after.collection.data@ == before.collection.data@.insert(
        data.name@,
        DataNode { source: n as usize, out: (n + k) as usize },
    )
    &&& after.collection.domain == before.collection.domain
    &&& after.collection.scales == before.collection.scales
    &&& after.collection.axis == before.collection.axis
    &&& after.collection.shapes == before.collection.shapes
}


/// The source of an optional property, with the field that its value goes to: none when
/// the property is not set.
pub open spec fn option_source(source: Option<DataSource>, output: Seq<char>) -> Seq<(DataSource, Seq<char>)> {
    match source {
        Some(s) => seq![(s, output)],
        None => Seq::empty(),
    }
}

/// The sources of the set position and size properties of a shape, in the order `x`, `y`,
/// `width`, `height`, each with the field that its value goes to.
pub open spec fn present_sources(base: BaseShapeProperties) -> Seq<(DataSource, Seq<char>)> {
    option_source(base.x, X_AXIS_FIELD_NAME@) + option_source(base.y, Y_AXIS_FIELD_NAME@)
        + option_source(base.width, WIDTH_FIELD_NAME@) + option_source(
        base.height,
        HEIGHT_FIELD_NAME@,
    )
}

/// `states` are the results as the nodes of `sources` are added, one source after the
/// other, each fed by `data_node`: `ids[i]` is the node that holds the value of the
/// source `i`, added to `states[i]` to give `states[i + 1]`.
pub open spec fn sources_chain(
    visitor: Visitor,
    sources: Seq<(DataSource, Seq<char>)>,
    data_node: usize,
    states: Seq<ParseResult>,
    ids: Seq<usize>,
) -> bool {
    &&& states.len() == sources.len() + 1
    &&& ids.len() == sources.len()
    &&& forall|i: int|
        0 <= i < sources.len() ==> #[trigger] source_added(
            visitor,
            sources[i].0,
            sources[i].1,
            data_node,
            states[i],
            states[i + 1],
            ids[i],
        )
}

/// The nodes of `sources` have been added to `before`, one source after the other, each
/// fed by `data_node`, giving `after`; `ids` are the nodes that hold their values.
pub open spec fn sources_added(
    visitor: Visitor,
    sources: Seq<(DataSource, Seq<char>)>,
    data_node: usize,
    before: ParseResult,
    after: ParseResult,
    ids: Seq<usize>,
) -> bool {
    exists|states: Seq<ParseResult>|
        #[trigger] sources_chain(visitor, sources, data_node, states, ids) && states[0] == before
            && states.last() == after
}

/// `after` is `before` with a fresh shape node of `operator` appended, fed by each node of
/// `ids`, in order; the collection lists it among the shapes.
pub open spec fn shape_node_added(operator: Operator, ids: Seq<usize>, before: ParseResult, after: ParseResult) -> bool {
    let n = before.graph.nodes@.len();
    &&& grown(before.graph, after.graph, 1, ids.map_values(|i: usize| Edge { from: i, to: n as usize }))
    &&& is_initial(after.graph.nodes@[n as int], operator)
    &&& after.graph.order == before.graph.order
    &&& after.collection.data == before.collection.data
    &&& after.collection.domain == before.collection.domain
    &&& after.collection.scales == before.collection.scales
    &&& after.collection.axis == before.collection.axis
    &&& after.collection.shapes@ == before.collection.shapes@.push(n as usize)
}

/// `after` is `before` with the nodes of a line drawn from `data_node`: those of its set
/// properties, then the line's node fed by them.
pub open spec fn line_added(visitor: Visitor, line: LineShape, data_node: usize, before: ParseResult, after: ParseResult) -> bool {
    exists|mid: ParseResult, ids: Seq<usize>|
        sources_added(visitor, present_sources(line.props.base), data_node, before, mid, ids)
            && shape_node_added(
            Operator::Line(LineOperator { shape: line, window: visitor.window() }),
            ids,
            mid,
            after,
        )
}

/// `after` is `before` with the nodes of bars drawn from `data_node`: those of their set
/// properties, then the bars' node fed by them.
pub open spec fn bar_added(visitor: Visitor, bar: BarShape, data_node: usize, before: ParseResult, after: ParseResult) -> bool {
    exists|mid: ParseResult, ids: Seq<usize>|
        sources_added(visitor, present_sources(bar.props.base), data_node, before, mid, ids)
            && shape_node_added(
            Operator::Bar(BarOperator { shape: bar, window: visitor.window() }),
            ids,
            mid,
            after,
        )
}

/// The field that holds the values of a pie's slices: the field of its value source, or
/// the field of the constant node that holds its plain value.
pub open spec fn pie_field(pie: PieShape) -> Seq<char> {
    match pie.props.value {
        DataSource::FieldSource { field, .. } => field@,
        DataSource::ValueSource(_) => PIE_VALUE_FIELD_NAME@,
    }
}

/// `after` is `before` with the nodes of a pie drawn from `data_node`: a constant node of
/// its value when that is a plain value, the nodes of its outer radius if set, fed by the
/// node of the values, then the pie's node, fed by the node of the values and by those of
/// the outer radius.
pub open spec fn pie_added(visitor: Visitor, pie: PieShape, data_node: usize, before: ParseResult, after: ParseResult) -> bool {
    exists|mid: ParseResult, value_node: usize, radius: ParseResult, ids: Seq<usize>|
        #![trigger sources_added(
            visitor,
            option_source(pie.props.outer_radius, PIE_OUTER_RADIUS_FIELD_NAME@),
            value_node,
            mid,
            radius,
            ids,
        )]
    {
        let n = radius.graph.nodes@.len();
        &&& match pie.props.value {
            DataSource::FieldSource { .. } => mid == before && value_node == data_node,
            DataSource::ValueSource(item) => value_added(
                PIE_VALUE_FIELD_NAME@,
                item,
                data_node,
                before,
                mid,
                value_node,
            ),
        }
        &&& sources_added(
            visitor,
            option_source(pie.props.outer_radius, PIE_OUTER_RADIUS_FIELD_NAME@),
            value_node,
            mid,
            radius,
            ids,
        )
        &&& grown(
            radius.graph,
            after.graph,
            1,
            seq![Edge { from: value_node, to: n as usize }] + ids.map_values(
                |i: usize| Edge { from: i, to: n as usize },
            ),
        )
        &&& fresh(after.graph.nodes@[n as int])
        &&& after.graph.nodes@[n as int].operator matches Operator::Pie(op) && op.shape == pie
            && op.field@ == pie_field(pie) && op.window == visitor.window()
        &&& after.graph.order == radius.graph.order
        &&& after.collection.data == radius.collection.data
        &&& after.collection.domain == radius.collection.domain
        &&& after.collection.scales == radius.collection.scales
        &&& after.collection.axis == radius.collection.axis
        &&& after.collection.shapes@ == radius.collection.shapes@.push(n as usize)
    }
}

/// Adding a pie ends with the pie's node, which reads the slices' values from the field of
/// its value source, or, for a plain value, from the field of the constant node that holds
/// it.
pub proof fn lemma_pie_reads_its_value_field(
    visitor: Visitor,
    pie: PieShape,
    data_node: usize,
    before: ParseResult,
    after: ParseResult,
)
    requires
        pie_added(visitor, pie, data_node, before, after),
    ensures
        after.graph.nodes@.len() > 0,
        after.graph.nodes@.last().operator matches Operator::Pie(op) && op.shape == pie && match pie.props.value {
            DataSource::FieldSource { field, .. } => op.field@ == field@,
            DataSource::ValueSource(_) => op.field@ == PIE_VALUE_FIELD_NAME@,
        },
{
    let (mid, value_node, radius, ids) = choose|mid: ParseResult, value_node: usize, radius: ParseResult, ids: Seq<usize>|
        #![trigger sources_added(
            visitor,
            option_source(pie.props.outer_radius, PIE_OUTER_RADIUS_FIELD_NAME@),
            value_node,
            mid,
            radius,
            ids,
        )]
        {
            let n = radius.graph.nodes@.len();
            &&& match pie.props.value {
                DataSource::FieldSource { .. } => mid == before && value_node == data_node,
                DataSource::ValueSource(item) => value_added(
                    PIE_VALUE_FIELD_NAME@,
                    item,
                    data_node,
                    before,
                    mid,
                    value_node,
                ),
            }
            &&& sources_added(
                visitor,
                option_source(pie.props.outer_radius, PIE_OUTER_RADIUS_FIELD_NAME@),
                value_node,
                mid,
                radius,
                ids,
            )
            &&& grown(
                radius.graph,
                after.graph,
                1,
                seq![Edge { from: value_node, to: n as usize }] + ids.map_values(
                    |i: usize| Edge { from: i, to: n as usize },
                ),
            )
            &&& fresh(after.graph.nodes@[n as int])
            &&& after.graph.nodes@[n as int].operator matches Operator::Pie(op) && op.shape == pie
                && op.field@ == pie_field(pie) && op.window == visitor.window()
            &&& after.graph.order == radius.graph.order
            &&& after.collection.data == radius.collection.data
            &&& after.collection.domain == radius.collection.domain
            &&& after.collection.scales == radius.collection.scales
            &&& after.collection.axis == radius.collection.axis
            &&& after.collection.shapes@ == radius.collection.shapes@.push(n as usize)
        };
    assert(after.graph.nodes@.last() == after.graph.nodes@[radius.graph.nodes@.len() as int]);
}

/// `after` is `before` with the nodes of `shape` added, drawn from the last node of its
/// data source; nothing is added when there is no data source of its name, or for points.
pub open spec fn shape_added(visitor: Visitor, shape: Shape, before: ParseResult, after: ParseResult) -> bool {
    if before.collection.data@.contains_key(shape.from@) {
        let data_node = before.collection.data@[shape.from@].out;
        match shape.kind {
            ShapeKind::Line(line) => line_added(visitor, line, data_node, before, after),
            ShapeKind::Bar(bar) => bar_added(visitor, bar, data_node, before, after),
            ShapeKind::Pie(pie) => pie_added(visitor, pie, data_node, before, after),
            ShapeKind::Point(_) => after == before,
        }
    } else {
        after == before
    }
}

/// `after` is `before` with the node of `axis` added, fed by the domain node of its
/// scale; nothing is added unless the visitor knows the scale and its domain has a node.
pub open spec fn axis_added(visitor: Visitor, axis: Axis, before: ParseResult, after: ParseResult) -> bool {
    let name = axis.scale@;
    if visitor.scales@.contains_key(name) && before.collection.domain@.contains_key(name) {
        let n = before.graph.nodes@.len();
        let domain_node = before.collection.domain@[name];
        &&& grown(before.graph, after.graph, 1, seq![Edge { from: domain_node, to: n as usize }])
        &&& is_initial(
            after.graph.nodes@[n as int],
            Operator::Axis(
                AxisOperator { axis, scale: scale_of(visitor.scales@[name]), window: visitor.window() },
            ),
        )
        &&& after.graph.topological_order(after.graph.order@)
        &&& after.graph.order@ == kahn_sorted(after.graph.edges@, after.graph.nodes@.len())
        &&& after.collection.data == before.collection.data
        &&& after.collection.domain == before.collection.domain
        &&& after.collection.scales == before.collection.scales
        &&& after.collection.axis@ == before.collection.axis@.insert(name, n as usize)
        &&& after.collection.shapes == before.collection.shapes
    } else {
        after == before
    }
}

proof fn lemma_sources_added_push(
    visitor: Visitor,
    sources: Seq<(DataSource, Seq<char>)>,
    source: (DataSource, Seq<char>),
    data_node: usize,
    before: ParseResult,
    mid: ParseResult,
    after: ParseResult,
    ids: Seq<usize>,
    id: usize,
)
    requires
        sources_added(visitor, sources, data_node, before, mid, ids),
        source_added(visitor, source.0, source.1, data_node, mid, after, id),
    ensures
        sources_added(visitor, sources.push(source), data_node, before, after, ids.push(id)),
{
    let states = choose|states: Seq<ParseResult>|
        #[trigger] sources_chain(visitor, sources, data_node, states, ids) && states[0] == before
            && states.last() == mid;
    let pushed = sources.push(source);
    let more = states.push(after);
    assert forall|i: int| 0 <= i < pushed.len() implies #[trigger] source_added(
        visitor,
        pushed[i].0,
        pushed[i].1,
        data_node,
        more[i],
        more[i + 1],
        ids.push(id)[i],
    ) by {
        if i < sources.len() {
            assert(source_added(visitor, sources[i].0, sources[i].1, data_node, states[i], states[i + 1], ids[i]));
        }
    }
    assert(sources_chain(visitor, pushed, data_node, more, ids.push(id)));
}

proof fn lemma_sources_added_len(
    visitor: Visitor,
    sources: Seq<(DataSource, Seq<char>)>,
    data_node: usize,
    before: ParseResult,
    after: ParseResult,
    ids: Seq<usize>,
)
    requires
        sources_added(visitor, sources, data_node, before, after, ids),
    ensures
        ids.len() == sources.len(),
{
    let states = choose|states: Seq<ParseResult>|
        #[trigger] sources_chain(visitor, sources, data_node, states, ids) && states[0] == before
            && states.last() == after;
}

proof fn lemma_sources_added_none(visitor: Visitor, data_node: usize, result: ParseResult)
    ensures
        sources_added(visitor, Seq::empty(), data_node, result, result, Seq::empty()),
{
    assert(sources_chain(visitor, Seq::empty(), data_node, seq![result], Seq::empty()));
}


/// `states` are the results as the data sources `entries` are added, one after the other.
pub open spec fn entries_chain(entries: Seq<DataEntry>, states: Seq<ParseResult>) -> bool {
    &&& states.len() == entries.len() + 1
    &&& forall|i: int|
        0 <= i < entries.len() ==> #[trigger] data_added(entries[i], states[i], states[i + 1])
}

/// `states` are the results as `shapes` are added, one after the other.
pub open spec fn shapes_chain(visitor: Visitor, shapes: Seq<Shape>, states: Seq<ParseResult>) -> bool {
    &&& states.len() == shapes.len() + 1
    &&& forall|i: int|
        0 <= i < shapes.len() ==> #[trigger] shape_added(visitor, shapes[i], states[i], states[i + 1])
}

/// `states` are the results as `axes` are added, one after the other.
pub open spec fn axes_chain(visitor: Visitor, axes: Seq<Axis>, states: Seq<ParseResult>) -> bool {
    &&& states.len() == axes.len() + 1
    &&& forall|i: int|
        0 <= i < axes.len() ==> #[trigger] axis_added(visitor, axes[i], states[i], states[i + 1])
}

/// `result` is what parsing `specification` gives: starting from an empty result, the
/// nodes of its data sources are added, then those of its shapes, then those of its axes,
/// each in the order in which the specification lists them, by a visitor of its dimensions
/// and scales.
pub open spec fn parsed(specification: Specification, result: ParseResult) -> bool {
    exists|visitor: Visitor, data: Seq<ParseResult>, shapes: Seq<ParseResult>, axes: Seq<ParseResult>|
        #![trigger visitor_of(visitor, specification.dimensions, specification.scales@), entries_chain(specification.data@, data), shapes_chain(visitor, specification.visual.shapes@, shapes), axes_chain(visitor, specification.visual.axes@, axes)]
    {
        &&& visitor_of(visitor, specification.dimensions, specification.scales@)
        &&& is_empty_result(data[0])
        &&& entries_chain(specification.data@, data)
        &&& shapes[0] == data.last()
        &&& shapes_chain(visitor, specification.visual.shapes@, shapes)
        &&& axes[0] == shapes.last()
        &&& axes_chain(visitor, specification.visual.axes@, axes)
        &&& axes.last() == result
    }
}

/// The number of transform pipes of all the data sources.
pub open spec fn transforms_len(entries: Seq<DataEntry>) -> nat
    decreases entries.len(),
{
    if entries.len() == 0 {
        0
    } else {
        transforms_len(entries.drop_last()) + entries.last().transform@.len()
    }
}

/// An upper bound of the number of edges that parsing `specification` adds.
pub open spec fn edge_budget(specification: Specification) -> nat {
    transforms_len(specification.data@) + 16 * specification.visual.shapes@.len() + 2
        * specification.visual.axes@.len()
}

proof fn lemma_transforms_len_take(entries: Seq<DataEntry>, k: int)
    requires
        0 <= k <= entries.len(),
    ensures
        transforms_len(entries.take(k)) <= transforms_len(entries),
        k < entries.len() ==> transforms_len(entries.take(k + 1)) == transforms_len(entries.take(k))
            + entries[k].transform@.len(),
    decreases entries.len(),
{
    if k < entries.len() {
        assert(entries.take(k + 1).drop_last() =~= entries.take(k));
        if k + 1 < entries.len() {
            lemma_transforms_len_take(entries.drop_last(), k + 1);
            assert(entries.drop_last().take(k + 1) =~= entries.take(k + 1));
        } else {
            assert(entries.take(k + 1) =~= entries);
        }
    } else {
        assert(entries.take(k) =~= entries);
    }
}


/// Parses specifications into graphs.
pub struct Parser;

impl Parser {
    /// Parse `specification` into a new graph, with the nodes of each of its parts.
    pub fn parse(&self, specification: Specification) -> (result: ParseResult)
        requires
            edge_budget(specification) + 2 < usize::MAX,
        ensures
            result.wf(),
            parsed(specification, result),
    {
        let mut result = ParseResult::new();
        let ghost start = result;
        let visitor = Visitor::new(specification.dimensions, &specification.scales);
        let ghost spec = specification;
        visitor.walk_spec(specification, &mut result);
        proof {
            let (data, shapes, axes) = choose|
                data: Seq<ParseResult>,
                shapes: Seq<ParseResult>,
                axes: Seq<ParseResult>,
            |
                #![trigger entries_chain(spec.data@, data), shapes_chain(visitor, spec.visual.shapes@, shapes), axes_chain(visitor, spec.visual.axes@, axes)]
            {
                &&& data[0] == start
                &&& entries_chain(spec.data@, data)
                &&& shapes[0] == data.last()
                &&& shapes_chain(visitor, spec.visual.shapes@, shapes)
                &&& axes[0] == shapes.last()
                &&& axes_chain(visitor, spec.visual.axes@, axes)
                &&& axes.last() == result
            };
            assert(visitor_of(visitor, spec.dimensions, spec.scales@));
            assert(is_empty_result(data[0]));
        }
        result
    }
}

proof fn lemma_sources_keep_data(
    visitor: Visitor,
    sources: Seq<(DataSource, Seq<char>)>,
    data_node: usize,
    before: ParseResult,
    after: ParseResult,
    ids: Seq<usize>,
)
    requires
        sources_added(visitor, sources, data_node, before, after, ids),
    ensures
        after.collection.data == before.collection.data,
{
    let states = choose|states: Seq<ParseResult>|
        #[trigger] sources_chain(visitor, sources, data_node, states, ids) && states[0] == before
            && states.last() == after;
    lemma_sources_chain_keeps_data(visitor, sources, data_node, states, ids, sources.len() as int);
}

proof fn lemma_sources_chain_keeps_data(
    visitor: Visitor,
    sources: Seq<(DataSource, Seq<char>)>,
    data_node: usize,
    states: Seq<ParseResult>,
    ids: Seq<usize>,
    k: int,
)
    requires
        sources_chain(visitor, sources, data_node, states, ids),
        0 <= k <= sources.len(),
    ensures
        states[k].collection.data == states[0].collection.data,
    decreases k,
{
    if k > 0 {
        let j = k - 1;
        lemma_sources_chain_keeps_data(visitor, sources, data_node, states, ids, j);
        assert(source_added(visitor, sources[j].0, sources[j].1, data_node, states[j], states[j + 1], ids[j]));
    }
}

proof fn lemma_shape_keeps_data(visitor: Visitor, shape: Shape, before: ParseResult, after: ParseResult)
    requires
        shape_added(visitor, shape, before, after),
    ensures
        after.collection.data == before.collection.data,
{
    if before.collection.data@.contains_key(shape.from@) {
        let data_node = before.collection.data@[shape.from@].out;
        match shape.kind {
            ShapeKind::Line(line) => {
                let (mid, ids) = choose|mid: ParseResult, ids: Seq<usize>|
                    sources_added(visitor, present_sources(line.props.base), data_node, before, mid, ids)
                        && shape_node_added(
                        Operator::Line(LineOperator { shape: line, window: visitor.window() }),
                        ids,
                        mid,
                        after,
                    );
                lemma_sources_keep_data(visitor, present_sources(line.props.base), data_node, before, mid, ids);
            },
            ShapeKind::Bar(bar) => {
                let (mid, ids) = choose|mid: ParseResult, ids: Seq<usize>|
                    sources_added(visitor, present_sources(bar.props.base), data_node, before, mid, ids)
                        && shape_node_added(
                        Operator::Bar(BarOperator { shape: bar, window: visitor.window() }),
                        ids,
                        mid,
                        after,
                    );
                lemma_sources_keep_data(visitor, present_sources(bar.props.base), data_node, before, mid, ids);
            },
            ShapeKind::Pie(pie) => {
                let (mid, value_node, radius, ids) = choose|
                    mid: ParseResult,
                    value_node: usize,
                    radius: ParseResult,
                    ids: Seq<usize>,
                |
                    #![trigger sources_added(
                        visitor,
                        option_source(pie.props.outer_radius, PIE_OUTER_RADIUS_FIELD_NAME@),
                        value_node,
                        mid,
                        radius,
                        ids,
                    )]
                {
                    let n = radius.graph.nodes@.len();
                    &&& match pie.props.value {
                        DataSource::FieldSource { .. } => mid == before && value_node == data_node,
                        DataSource::ValueSource(item) => value_added(
                            PIE_VALUE_FIELD_NAME@,
                            item,
                            data_node,
                            before,
                            mid,
                            value_node,
                        ),
                    }
                    &&& sources_added(
                        visitor,
                        option_source(pie.props.outer_radius, PIE_OUTER_RADIUS_FIELD_NAME@),
                        value_node,
                        mid,
                        radius,
                        ids,
                    )
                    &&& grown(
                        radius.graph,
                        after.graph,
                        1,
                        seq![Edge { from: value_node, to: n as usize }] + ids.map_values(
                            |i: usize| Edge { from: i, to: n as usize },
                        ),
                    )
                    &&& fresh(after.graph.nodes@[n as int])
                    &&& after.graph.nodes@[n as int].operator matches Operator::Pie(op) && op.shape
                        == pie && op.field@ == pie_field(pie) && op.window == visitor.window()
                    &&& after.graph.order == radius.graph.order
                    &&& after.collection.data == radius.collection.data
                    &&& after.collection.domain == radius.collection.domain
                    &&& after.collection.scales == radius.collection.scales
                    &&& after.collection.axis == radius.collection.axis
                    &&& after.collection.shapes@ == radius.collection.shapes@.push(n as usize)
                };
                lemma_sources_keep_data(
                    visitor,
                    option_source(pie.props.outer_radius, PIE_OUTER_RADIUS_FIELD_NAME@),
                    value_node,
                    mid,
                    radius,
                    ids,
                );
            },
            ShapeKind::Point(_) => {},
        }
    }
}

/// Parsing a specification gives nodes to each of its data sources: the collection names
/// every one of them.
pub proof fn lemma_parse_names_data(specification: Specification, result: ParseResult, i: int)
    requires
        parsed(specification, result),
        0 <= i < specification.data@.len(),
    ensures
        result.collection.data@.contains_key(specification.data@[i].name@),
{
    let (visitor, data, shapes, axes) = choose|
        visitor: Visitor,
        data: Seq<ParseResult>,
        shapes: Seq<ParseResult>,
        axes: Seq<ParseResult>,
    |
        #![trigger visitor_of(visitor, specification.dimensions, specification.scales@), entries_chain(specification.data@, data), shapes_chain(visitor, specification.visual.shapes@, shapes), axes_chain(visitor, specification.visual.axes@, axes)]
    {
        &&& visitor_of(visitor, specification.dimensions, specification.scales@)
        &&& is_empty_result(data[0])
        &&& entries_chain(specification.data@, data)
        &&& shapes[0] == data.last()
        &&& shapes_chain(visitor, specification.visual.shapes@, shapes)
        &&& axes[0] == shapes.last()
        &&& axes_chain(visitor, specification.visual.axes@, axes)
        &&& axes.last() == result
    };
    let entries = specification.data@;
    let name = entries[i].name@;
    lemma_entries_chain_keeps_name(entries, data, i, entries.len() as int);
    lemma_shapes_chain_keeps_data(visitor, specification.visual.shapes@, shapes, specification.visual.shapes@.len() as int);
    lemma_axes_chain_keeps_data(visitor, specification.visual.axes@, axes, specification.visual.axes@.len() as int);
}

proof fn lemma_entries_chain_keeps_name(entries: Seq<DataEntry>, states: Seq<ParseResult>, i: int, k: int)
    requires
        entries_chain(entries, states),
        0 <= i < k <= entries.len(),
    ensures
        states[k].collection.data@.contains_key(entries[i].name@),
    decreases k,
{
    let j = k - 1;
    assert(data_added(entries[j], states[j], states[j + 1]));
    if k - 1 > i {
        lemma_entries_chain_keeps_name(entries, states, i, k - 1);
    }
}

proof fn lemma_shapes_chain_keeps_data(visitor: Visitor, shapes: Seq<Shape>, states: Seq<ParseResult>, k: int)
    requires
        shapes_chain(visitor, shapes, states),
        0 <= k <= shapes.len(),
    ensures
        states[k].collection.data == states[0].collection.data,
    decreases k,
{
    if k > 0 {
        let j = k - 1;
        lemma_shapes_chain_keeps_data(visitor, shapes, states, j);
        assert(shape_added(visitor, shapes[j], states[j], states[j + 1]));
        lemma_shape_keeps_data(visitor, shapes[j], states[j], states[j + 1]);
    }
}

proof fn lemma_axes_chain_keeps_data(visitor: Visitor, axes: Seq<Axis>, states: Seq<ParseResult>, k: int)
    requires
        axes_chain(visitor, axes, states),
        0 <= k <= axes.len(),
    ensures
        states[k].collection.data == states[0].collection.data,
    decreases k,
{
    if k > 0 {
        let j = k - 1;
        lemma_axes_chain_keeps_data(visitor, axes, states, j);
        assert(axis_added(visitor, axes[j], states[j], states[j + 1]));
    }
}

} // verus!
