use std::collections::{BTreeMap, BTreeSet, VecDeque};

use bruc_core::data::{DataItem, DataValue, Number};
use bruc_core::graph::node::{Node, Operator, SceneWindow};
use bruc_core::graph::pulse::{Pulse, SinglePulse};
use bruc_core::graph::{Edge, Graph};
use bruc_core::scale::Scale;
use bruc_core::spec::axis::{Axis, AxisOrientation};
use bruc_core::spec::scale::Domain;
use bruc_core::spec::shape::{DataSource, LinePropertiesBuilder, LineShape};
use bruc_core::spec::transform::{FilterPipe, MapPipe};

fn num(x: f32) -> Number {
    Number::from_bits(x.to_bits())
}

fn item(x: f32) -> DataItem {
    DataItem::number(x.to_bits())
}

fn set(values: &[usize]) -> BTreeSet<usize> {
    values.iter().copied().collect()
}

fn graph() -> Graph {
    let mut graph = Graph::new();
    let first_data = graph.add_node(Operator::data(vec![
        DataValue::from_pairs(vec![("a", item(5.0))]),
        DataValue::from_pairs(vec![("a", item(13.0))]),
    ]));
    let second_data = graph.add_node(Operator::data(vec![DataValue::from_pairs(vec![("a", item(2.0))])]));
    let map = graph.add(Operator::map(MapPipe::new("a + 2", "b")), vec![first_data, second_data]);
    let filter = graph.add(Operator::filter(FilterPipe::new("b > 4")), vec![map]);
    let x_domain = graph.add(
        Operator::domain_interval(Domain::Literal(vec![num(0.0), num(20.0)])),
        vec![filter],
    );
    let x_scale = graph.add(Operator::linear((num(0.0), num(20.0)), "a", "x"), vec![filter, x_domain]);
    let y_domain = graph.add(
        Operator::domain_interval(Domain::Literal(vec![num(0.0), num(20.0)])),
        vec![filter],
    );
    let y_scale = graph.add(Operator::linear((num(0.0), num(20.0)), "b", "y"), vec![filter, y_domain]);
    graph.add(
        Operator::line(
            LineShape::new(
                LinePropertiesBuilder::new()
                    .with_x(DataSource::field("a", Some("horizontal")))
                    .with_y(DataSource::field("b", Some("vertical")))
                    .build(),
            ),
            SceneWindow::new(20, 20),
        ),
        vec![x_scale, y_scale],
    );
    graph
}

#[test]
fn sorts_graph_in_topological_order() {
    let graph = graph();

    assert_eq!(graph.nodes.len(), 9);
    assert_eq!(
        graph.edges,
        vec![
            Edge::new(0, 2),
            Edge::new(1, 2),
            Edge::new(2, 3),
            Edge::new(3, 4),
            Edge::new(3, 5),
            Edge::new(4, 5),
            Edge::new(3, 6),
            Edge::new(3, 7),
            Edge::new(6, 7),
            Edge::new(5, 8),
            Edge::new(7, 8)
        ]
    );
    assert_eq!(graph.order, vec![0, 1, 2, 3, 4, 6, 5, 7, 8]);
    assert_eq!(graph.sort_order(), vec![0, 1, 2, 3, 4, 6, 5, 7, 8]);
    assert_eq!(
        graph.degrees,
        BTreeMap::from([(0, 0), (1, 0), (2, 2), (3, 1), (4, 1), (5, 2), (6, 1), (7, 2), (8, 2)])
    );
    assert_eq!(graph.get_nodes_in_degree(0), set(&[0, 1]));
    assert_eq!(graph.get_nodes_in_degree(2), set(&[2, 5, 7, 8]));
    assert_eq!(graph.get_nodes_in_degree(3), BTreeSet::new());
    assert_eq!(graph.targets_of(3), vec![4, 5, 6, 7]);
    assert_eq!(graph.targets_of(42), Vec::<usize>::new());
}

#[test]
fn orders_a_cycle_out() {
    let mut graph = Graph::new();
    let a = graph.add_node(Operator::data(vec![]));
    let b = graph.add_node(Operator::data(vec![]));
    let c = graph.add_node(Operator::data(vec![]));
    graph.add_edge(a, b);
    graph.add_edge(b, c);
    graph.add_edge(c, b);

    // the nodes of the cycle never reach degree 0
    assert_eq!(graph.sort_order(), vec![0]);
}

#[test]
fn counts_repeated_edges_in_degrees() {
    let mut graph = Graph::new();
    let a = graph.add_node(Operator::data(vec![]));
    let b = graph.add(Operator::data(vec![]), vec![a, a]);

    assert_eq!(graph.degrees, BTreeMap::from([(0, 0), (1, 2)]));
    assert_eq!(graph.nodes_in_degree, BTreeMap::from([(0, set(&[0])), (2, set(&[1]))]));
    assert_eq!(graph.sources.get(&b), Some(&set(&[0])));
    assert_eq!(graph.order, vec![0, 1]);
}

#[test]
fn gets_leave_nodes() {
    let mut graph = Graph::new();

    let data_operator = Operator::data(vec![]);
    let map_operator = Operator::map(MapPipe::new("a + 2", "b"));
    let scale_operator = Operator::linear((num(0.0), num(20.0)), "a", "x");
    let axis_operator = Operator::axis(
        Axis::new("x", AxisOrientation::Left),
        Scale::linear((num(0.0), num(2.0))),
        SceneWindow::new(500, 200),
    );

    // (data) -> (map) -> (scale)
    // (axis)
    let data = graph.add(data_operator, vec![]);
    let map = graph.add(map_operator, vec![data]);
    let _scale = graph.add(scale_operator, vec![map]);
    let _axis = graph.add(axis_operator, vec![]);

    let leave_nodes = graph.leaves();
    assert_eq!(
        leave_nodes,
        vec![
            &Node::init(Operator::linear((num(0.0), num(20.0)), "a", "x",)),
            &Node::init(Operator::axis(
                Axis::new("x", AxisOrientation::Left),
                Scale::linear((num(0.0), num(2.0))),
                SceneWindow::new(500, 200)
            ))
        ]
    );
    assert_eq!(graph.leaf_indices(), vec![2, 3]);
}

#[test]
fn steps_through_an_evaluation() {
    let graph = graph();

    let mut queue = graph.evaluation_roots();
    assert_eq!(queue, VecDeque::from([0, 1]));

    assert_eq!(graph.evaluation_step(&mut queue), Some(0));
    assert_eq!(queue, VecDeque::from([1, 2]));
    assert_eq!(graph.evaluation_step(&mut queue), Some(1));
    assert_eq!(queue, VecDeque::from([2, 2]));
    assert_eq!(graph.evaluation_step(&mut queue), Some(2));
    assert_eq!(queue, VecDeque::from([2, 3]));

    let mut empty = VecDeque::new();
    assert_eq!(graph.evaluation_step(&mut empty), None);
    assert!(empty.is_empty());
}

#[test]
fn merges_source_pulses() {
    let mut graph = graph();
    graph.set_pulse(0, Pulse::data(vec![DataValue::from_pairs(vec![("a", item(5.0))])]));
    graph.set_pulse(1, Pulse::data(vec![DataValue::from_pairs(vec![("a", item(2.0))])]));

    // a node with two sources receives both pulses, in order of their index
    assert_eq!(
        graph.get_pulse(2),
        Some(Pulse::multi(vec![
            SinglePulse::Data(vec![DataValue::from_pairs(vec![("a", item(5.0))])]),
            SinglePulse::Data(vec![DataValue::from_pairs(vec![("a", item(2.0))])]),
        ]))
    );
    // a root receives the merge of nothing: an empty data pulse
    assert_eq!(graph.get_pulse(0), Some(Pulse::data(vec![])));
    // a node with a single source receives its pulse as it is
    assert_eq!(graph.get_pulse(3), Some(Pulse::data(vec![])));
    assert_eq!(graph.get_pulse(99), None);
}

#[test]
fn replaces_a_node() {
    let mut graph = graph();
    let previous = graph.replace_node(2, Node::init(Operator::map(MapPipe::new("a + 3", "b"))));

    assert_eq!(previous, Some(Node::init(Operator::map(MapPipe::new("a + 2", "b")))));
    assert_eq!(graph.nodes[2], Node::init(Operator::map(MapPipe::new("a + 3", "b"))));
    assert_eq!(graph.edges.len(), 11);
    assert_eq!(graph.replace_node(42, Node::init(Operator::data(vec![]))), None);
}
