//! The state of a view of a specification: its graph, the nodes of its data sources and the
//! dimensions of its canvas.
use vstd::prelude::*;

use crate::data::DataValue;
use crate::graph::node::{is_initial, DataOperator, Node, Operator};
use crate::graph::Graph;
use crate::names::NameMap;
use crate::parser::{edge_budget, parsed, DataNode, ParseResult, Parser};
use crate::scene::SceneDimensions;
use crate::spec::Specification;

verus! {

/// What a view keeps of its specification: the graph it was parsed into, the nodes of each
/// data source, and the dimensions of the canvas.
pub struct ViewState {
    pub graph: Graph,
    pub data_nodes: NameMap<DataNode>,
    pub dimensions: SceneDimensions,
}

impl ViewState {
    /// The graph is well formed and the data nodes are nodes of it.
    pub open spec fn wf(self) -> bool {
        &&& self.graph.wf()
        &&& forall|k: Seq<char>|
            #[trigger] self.data_nodes@.contains_key(k) ==> self.data_nodes@[k].source
                < self.graph.nodes@.len() && self.data_nodes@[k].out < self.graph.nodes@.len()
    }

    /// The state of a view of `specification`: the graph that parsing it gives, the nodes of
    /// its data sources, and its dimensions.
    pub fn build(specification: Specification) -> (v: ViewState)
        requires
            edge_budget(specification) + 2 < usize::MAX,
        ensures
            v.wf(),
            v.dimensions == (SceneDimensions {
                width: specification.dimensions.width,
                height: specification.dimensions.height,
            }),
            exists|result: ParseResult|
                #[trigger] parsed(specification, result) && v.graph == result.graph && v.data_nodes
                    == result.collection.data,
    {
        let dimensions = SceneDimensions {
            width: specification.dimensions.width,
            height: specification.dimensions.height,
        };
        let result = Parser.parse(specification);
        let ghost parse = result;
        let ParseResult { graph, collection } = result;
        let v = ViewState { graph, data_nodes: collection.data, dimensions };
        assert(parsed(specification, parse) && v.graph == parse.graph && v.data_nodes == parse.collection.data);
        v
    }

    /// Give the data source `name` the records `values`: its last node is replaced by a fresh
    /// node of these records, from which the graph is to be evaluated again. Gives that node;
    /// nothing changes, and nothing is given, when no data source has that name.
    pub fn set_data(&mut self, name: &str, values: Vec<DataValue>) -> (r: Option<usize>)
        requires
            old(self).wf(),
        ensures
            final(self).wf(),
            final(self).data_nodes == old(self).data_nodes,
            final(self).dimensions == old(self).dimensions,
            match r {
                Some(node) => {
                    &&& old(self).data_nodes@.contains_key(name@)
                    &&& node == old(self).data_nodes@[name@].out
                    &&& final(self).graph.nodes@ == old(self).graph.nodes@.update(
                        node as int,
                        final(self).graph.nodes@[node as int],
                    )
                    &&& is_initial(
                        final(self).graph.nodes@[node as int],
                        Operator::Data(DataOperator { data: values }),
                    )
                    &&& final(self).graph.edges == old(self).graph.edges
                    &&& final(self).graph.order == old(self).graph.order
                },
                None => !old(self).data_nodes@.contains_key(name@) && final(self).graph == old(
                    self,
                ).graph,
            },
    {
        let node = match self.data_nodes.get(name) {
            Some(nodes) => nodes.out,
            None => {
                return None;
            },
        };
        let _previous = self.graph.replace_node(node, Node::init(Operator::data(values)));
        proof {
            assert(self.graph.nodes@.len() == old(self).graph.nodes@.len());
            crate::graph::lemma_wf_fields(old(self).graph, self.graph);
        }
        Some(node)
    }
}

} // verus!
