use bruc_core::data::{DataItem, DataValue};
use bruc_core::graph::node::{CountOperator, FilterOperator, Operator};
use bruc_core::graph::pulse::{MultiPulse, Pulse, SinglePulse};
use bruc_core::graph::Graph;
use bruc_core::parser::Parser;
use bruc_core::spec::data::DataEntry;
use bruc_core::spec::transform::{FilterPipe, MapPipe, Pipe};
use bruc_core::spec::{Dimensions, Specification, Visual};

fn item(x: f32) -> DataItem {
    DataItem::number(x.to_bits())
}

fn diamond() -> Graph {
    let mut graph = Graph::new();
    let a = graph.add(Operator::data(vec![]), vec![]);
    let b = graph.add(Operator::data(vec![]), vec![a]);
    let c = graph.add(Operator::data(vec![]), vec![a]);
    let d = graph.add(Operator::data(vec![]), vec![c, b]);
    let _e = graph.add(Operator::data(vec![]), vec![]);
    graph.add_edge(d, 1);
    graph
}

#[test]
fn targets_mirror_sources() {
    let graph = diamond();
    for u in 0..graph.nodes.len() {
        for v in 0..graph.nodes.len() {
            assert_eq!(graph.targets[&u].contains(&v), graph.sources[&v].contains(&u));
        }
    }
}

#[test]
fn topological_order_holds_roots_and_edges_go_forward() {
    let graph = diamond();
    // the last edge closes the cycle 1 -> 3 -> 1, so these two stay out of the order
    let order = graph.sort_order();
    assert_eq!(order, vec![0, 4, 2]);
    for (v, degree) in &graph.degrees {
        if *degree == 0 {
            assert!(order.contains(v));
        }
    }
    for edge in &graph.edges {
        if let Some(i) = order.iter().position(|n| *n == edge.to) {
            assert!(order[..i].contains(&edge.from));
        }
    }
}

#[test]
fn acyclic_graph_is_ordered_whole() {
    let mut graph = Graph::new();
    let a = graph.add(Operator::data(vec![]), vec![]);
    let b = graph.add(Operator::data(vec![]), vec![a]);
    let c = graph.add(Operator::data(vec![]), vec![a, b]);
    let _d = graph.add(Operator::data(vec![]), vec![c, b]);
    let order = graph.sort_order();
    for v in 0..graph.nodes.len() {
        assert!(order.contains(&v));
    }
    assert_eq!(order, vec![0, 1, 2, 3]);
}

#[test]
fn merging_one_single_pulse_gives_it_back() {
    let single = SinglePulse::Data(vec![DataValue::from_pairs(vec![("a", item(1.0))])]);
    assert_eq!(
        Pulse::merge(vec![Pulse::Single(single)]),
        Pulse::data(vec![DataValue::from_pairs(vec![("a", item(1.0))])])
    );
    assert_eq!(Pulse::merge(vec![]), Pulse::data(vec![]));
    assert_eq!(
        Pulse::merge(vec![
            Pulse::data(vec![]),
            Pulse::multi(vec![SinglePulse::Shapes(vec![]), SinglePulse::Data(vec![])]),
        ]),
        Pulse::multi(vec![SinglePulse::Data(vec![]), SinglePulse::Shapes(vec![]), SinglePulse::Data(vec![])])
    );
}

#[test]
fn aggregating_one_data_pulse_gives_its_records() {
    let values = vec![DataValue::from_pairs(vec![("a", item(1.0))]), DataValue::new()];
    let multi = MultiPulse::new(vec![SinglePulse::Data(values)]);
    assert_eq!(
        multi.aggregate(),
        SinglePulse::Data(vec![DataValue::from_pairs(vec![("a", item(1.0))]), DataValue::new()])
    );
}

#[test]
fn counts_add_up_to_the_keyed_records() {
    let operator = CountOperator { by: "k".to_string(), output: "count".to_string() };
    let records = vec![
        DataValue::from_pairs(vec![("k", item(1.0))]),
        DataValue::from_pairs(vec![("k", DataItem::text("a"))]),
        DataValue::from_pairs(vec![("j", item(1.0))]),
        DataValue::from_pairs(vec![("k", item(1.0))]),
        DataValue::from_pairs(vec![("k", DataItem::Bool(false))]),
        DataValue::from_pairs(vec![("k", DataItem::text("a"))]),
    ];
    let groups = operator.groups(&records);
    let total: usize = groups.iter().map(|(_, count)| count).sum();
    assert_eq!(total, 5);
    assert_eq!(groups.len(), 3);
}

#[test]
fn parsing_names_every_data_source() {
    let spec = Specification::new(
        Dimensions::default(),
        vec![
            DataEntry::new("first", vec![], vec![]),
            DataEntry::new("second", vec![], vec![Pipe::Mapping(MapPipe::new("a", "b"))]),
        ],
        vec![],
        Visual::new(vec![], vec![]),
    );
    let result = Parser.parse(spec);
    assert!(result.collection.data.get("first").is_some());
    assert_eq!(result.collection.data.get("second").map(|n| (n.source, n.out)), Some((1, 2)));
}

#[test]
fn map_pipe_description_reads_the_same_in_any_order() {
    let entry = |k: &str, v: &str| (k.to_string(), Some(v.to_string()));
    let first = vec![entry("fn", "a + 2.0"), entry("note", "x"), entry("output", "b")];
    let second = vec![entry("output", "b"), entry("fn", "a + 2.0"), entry("note", "x")];
    assert_eq!(MapPipe::from_entries(&first), MapPipe::from_entries(&second));
    assert_eq!(MapPipe::from_entries(&first), Ok(MapPipe::new("a + 2.0", "b")));
}

#[test]
fn filtering_parts_is_filtering_the_whole() {
    let operator = FilterOperator::new(FilterPipe::new("a > 1"));
    let a = vec![
        DataValue::from_pairs(vec![("a", item(1.0))]),
        DataValue::from_pairs(vec![("a", item(2.0))]),
    ];
    let b = vec![DataValue::from_pairs(vec![("a", item(3.0))])];
    let whole: Vec<DataValue> = a.iter().chain(b.iter()).map(|v| v.copy()).collect();

    let mut parts = operator.apply(&a, &vec![false, true]);
    parts.extend(operator.apply(&b, &vec![true]));
    assert_eq!(operator.apply(&whole, &vec![false, true, true]), parts);
}

#[test]
fn an_edge_raises_one_degree_and_joins_its_ends() {
    let mut graph = Graph::new();
    let a = graph.add(Operator::data(vec![]), vec![]);
    let b = graph.add(Operator::data(vec![]), vec![]);
    let c = graph.add(Operator::data(vec![]), vec![a]);
    graph.add_edge(b, c);
    assert_eq!(graph.degrees[&c], 2);
    assert_eq!(graph.degrees[&a], 0);
    assert!(graph.targets[&b].contains(&c));
    assert!(graph.sources[&c].contains(&b) && graph.sources[&c].contains(&a));
    assert!(!graph.nodes_in_degree.contains_key(&1));
    assert!(graph.nodes_in_degree[&2].contains(&c));
    assert_eq!(graph.order, vec![0, 1, 2]);
}
