use std::collections::{BTreeMap, BTreeSet};

use bruc_core::data::{DataItem, DataValue, Number};
use bruc_core::graph::node::{Node, Operator, SceneWindow};
use bruc_core::graph::Edge;
use bruc_core::parser::{DataNode, ParseResult, Parser};
use bruc_core::scale::Scale;
use bruc_core::spec::axis::{Axis, AxisOrientation};
use bruc_core::spec::data::DataEntry;
use bruc_core::spec::scale::{BandScale, Domain, LinearScale, Range, Scale as ScaleSpec, ScaleKind};
use bruc_core::spec::shape::{
    BarPropertiesBuilder, BarShape, DataSource, LinePropertiesBuilder, LineShape, PiePropertiesBuilder,
    PieShape, Shape,
};
use bruc_core::spec::transform::{FilterPipe, MapPipe, Pipe};
use bruc_core::spec::{Dimensions, Specification, Visual};

fn num(x: f32) -> Number {
    Number::from_bits(x.to_bits())
}

fn item(x: f32) -> DataItem {
    DataItem::number(x.to_bits())
}

fn literal(values: &[f32]) -> Domain {
    Domain::Literal(values.iter().map(|v| num(*v)).collect())
}

fn set(values: &[usize]) -> BTreeSet<usize> {
    values.iter().copied().collect()
}

fn primary_values() -> Vec<DataValue> {
    vec![
        DataValue::from_pairs(vec![("a", item(10.0))]),
        DataValue::from_pairs(vec![("a", item(5.0))]),
    ]
}

fn check_chart_graph(result: &ParseResult) {
    let graph = &result.graph;
    assert_eq!(
        graph.edges,
        vec![
            Edge::new(0, 1),
            Edge::new(1, 2),
            Edge::new(2, 3),
            Edge::new(3, 4),
            Edge::new(2, 4),
            Edge::new(2, 5),
            Edge::new(5, 6),
            Edge::new(2, 6),
            Edge::new(4, 7),
            Edge::new(6, 7),
            Edge::new(3, 8),
            Edge::new(5, 9)
        ]
    );
    assert_eq!(
        graph.targets,
        BTreeMap::from([
            (0, set(&[1])),
            (1, set(&[2])),
            (2, set(&[3, 4, 5, 6])),
            (3, set(&[4, 8])),
            (4, set(&[7])),
            (5, set(&[6, 9])),
            (6, set(&[7])),
            (7, BTreeSet::new()),
            (8, BTreeSet::new()),
            (9, BTreeSet::new())
        ])
    );
    assert_eq!(
        graph.sources,
        BTreeMap::from([
            (0, BTreeSet::new()),
            (1, set(&[0])),
            (2, set(&[1])),
            (3, set(&[2])),
            (4, set(&[2, 3])),
            (5, set(&[2])),
            (6, set(&[2, 5])),
            (7, set(&[4, 6])),
            (8, set(&[3])),
            (9, set(&[5]))
        ])
    );
    assert_eq!(
        graph.degrees,
        BTreeMap::from([
            (0, 0),
            (1, 1),
            (2, 1),
            (3, 1),
            (4, 2),
            (5, 1),
            (6, 2),
            (7, 2),
            (8, 1),
            (9, 1)
        ])
    );
    assert_eq!(
        graph.nodes_in_degree,
        BTreeMap::from([(0, set(&[0])), (1, set(&[1, 2, 3, 5, 8, 9])), (2, set(&[4, 6, 7]))])
    );
    assert_eq!(graph.order, vec![0, 1, 2, 3, 5, 4, 8, 6, 9, 7]);

    let collection = &result.collection;
    assert_eq!(collection.data.len(), 1);
    assert_eq!(collection.data.get("primary"), Some(&DataNode::new(0, 2)));
    assert_eq!(collection.domain.len(), 2);
    assert_eq!(collection.domain.get("vertical"), Some(&5));
    assert_eq!(collection.domain.get("horizontal"), Some(&3));
    assert_eq!(collection.scales.len(), 2);
    assert_eq!(collection.scales.get("vertical"), Some(&6));
    assert_eq!(collection.scales.get("horizontal"), Some(&4));
    assert_eq!(collection.axis.len(), 2);
    assert_eq!(collection.axis.get("vertical"), Some(&9));
    assert_eq!(collection.axis.get("horizontal"), Some(&8));
    assert_eq!(collection.shapes, vec![7]);
}

#[test]
fn parses_line_chart() {
    // given
    let spec = Specification::new(
        Dimensions::default(),
        vec![DataEntry::new(
            "primary",
            primary_values(),
            vec![Pipe::Mapping(MapPipe::new("a - 2", "b")), Pipe::Filter(FilterPipe::new("b > 2"))],
        )],
        vec![
            ScaleSpec::new(
                "horizontal",
                ScaleKind::Linear(LinearScale::new(literal(&[0.0, 100.0]), Range::Literal(num(0.0), num(20.0)))),
            ),
            ScaleSpec::new(
                "vertical",
                ScaleKind::Linear(LinearScale::new(literal(&[0.0, 100.0]), Range::Literal(num(0.0), num(10.0)))),
            ),
        ],
        Visual::new(
            vec![Shape::line(
                "primary",
                LineShape::new(
                    LinePropertiesBuilder::new()
                        .with_x(DataSource::field("a", Some("horizontal")))
                        .with_y(DataSource::field("b", Some("vertical")))
                        .build(),
                ),
            )],
            vec![Axis::new("horizontal", AxisOrientation::Bottom), Axis::new("vertical", AxisOrientation::Left)],
        ),
    );

    // when
    let result = Parser.parse(spec);

    // then
    assert_eq!(
        result.graph.nodes,
        vec![
            Node::init(Operator::data(primary_values())),
            Node::init(Operator::map(MapPipe::new("a - 2", "b"))),
            Node::init(Operator::filter(FilterPipe::new("b > 2"))),
            Node::init(Operator::domain_interval(literal(&[0.0, 100.0]))),
            Node::init(Operator::linear((num(0.0), num(20.0)), "a", "x")),
            Node::init(Operator::domain_interval(literal(&[0.0, 100.0]))),
            Node::init(Operator::linear((num(0.0), num(10.0)), "b", "y")),
            Node::init(Operator::line(
                LineShape::new(
                    LinePropertiesBuilder::new()
                        .with_x(DataSource::field("a", Some("horizontal")))
                        .with_y(DataSource::field("b", Some("vertical")))
                        .build()
                ),
                SceneWindow::new(500, 200),
            )),
            Node::init(Operator::axis(
                Axis::new("horizontal", AxisOrientation::Bottom),
                Scale::linear((num(0.0), num(20.0))),
                SceneWindow::new(500, 200)
            )),
            Node::init(Operator::axis(
                Axis::new("vertical", AxisOrientation::Left),
                Scale::linear((num(0.0), num(10.0))),
                SceneWindow::new(500, 200)
            ))
        ]
    );
    check_chart_graph(&result);
}

#[test]
fn parses_bar_chart() {
    // given
    let spec = Specification::new(
        Dimensions::default(),
        vec![DataEntry::new(
            "primary",
            primary_values(),
            vec![Pipe::Mapping(MapPipe::new("a - 2", "b")), Pipe::Filter(FilterPipe::new("b > 2"))],
        )],
        vec![
            ScaleSpec::new(
                "horizontal",
                ScaleKind::Band(BandScale {
                    domain: literal(&[0.0, 1.0, 2.0, 3.0, 4.0, 5.0]),
                    range: Range::Literal(num(0.0), num(20.0)),
                    padding: num(0.0),
                }),
            ),
            ScaleSpec::new(
                "vertical",
                ScaleKind::Linear(LinearScale::new(literal(&[0.0, 100.0]), Range::Literal(num(0.0), num(10.0)))),
            ),
        ],
        Visual::new(
            vec![Shape::bar(
                "primary",
                BarShape::new(
                    BarPropertiesBuilder::new()
                        .with_x(DataSource::field("a", Some("horizontal")))
                        .with_y(DataSource::field("b", Some("vertical")))
                        .build(),
                ),
            )],
            vec![Axis::new("horizontal", AxisOrientation::Bottom), Axis::new("vertical", AxisOrientation::Left)],
        ),
    );

    // when
    let result = Parser.parse(spec);

    // then
    assert_eq!(
        result.graph.nodes,
        vec![
            Node::init(Operator::data(primary_values())),
            Node::init(Operator::map(MapPipe::new("a - 2", "b"))),
            Node::init(Operator::filter(FilterPipe::new("b > 2"))),
            Node::init(Operator::domain_interval(literal(&[0.0, 1.0, 2.0, 3.0, 4.0, 5.0]))),
            Node::init(Operator::band((num(0.0), num(20.0)), "a", "x")),
            Node::init(Operator::domain_interval(literal(&[0.0, 100.0]))),
            Node::init(Operator::linear((num(0.0), num(10.0)), "b", "y")),
            Node::init(Operator::bar(
                BarShape::new(
                    BarPropertiesBuilder::new()
                        .with_x(DataSource::field("a", Some("horizontal")))
                        .with_y(DataSource::field("b", Some("vertical")))
                        .with_fill("black")
                        .build()
                ),
                SceneWindow::new(500, 200),
            )),
            Node::init(Operator::axis(
                Axis::new("horizontal", AxisOrientation::Bottom),
                Scale::band((num(0.0), num(20.0))),
                SceneWindow::new(500, 200)
            )),
            Node::init(Operator::axis(
                Axis::new("vertical", AxisOrientation::Left),
                Scale::linear((num(0.0), num(10.0))),
                SceneWindow::new(500, 200)
            ))
        ]
    );
    check_chart_graph(&result);
}

#[test]
fn parses_pie_chart() {
    // given
    let values = || {
        vec![
            DataValue::from_pairs(vec![("y", item(0.1))]),
            DataValue::from_pairs(vec![("y", item(0.3))]),
            DataValue::from_pairs(vec![("y", item(0.5))]),
            DataValue::from_pairs(vec![("y", item(0.1))]),
        ]
    };
    let spec = Specification::new(
        Dimensions::default(),
        vec![DataEntry::new("primary", values(), vec![Pipe::Mapping(MapPipe::new("y + 10", "value"))])],
        vec![],
        Visual::new(
            vec![Shape::pie(
                "primary",
                PieShape::new(PiePropertiesBuilder::new(DataSource::field("value", None)).build()),
            )],
            vec![],
        ),
    );

    // when
    let result = Parser.parse(spec);

    // then
    let graph = &result.graph;
    assert_eq!(
        graph.nodes,
        vec![
            Node::init(Operator::data(values())),
            Node::init(Operator::map(MapPipe::new("y + 10", "value"))),
            Node::init(Operator::pie(
                PieShape::new(PiePropertiesBuilder::new(DataSource::field("value", None)).build()),
                "value",
                SceneWindow::new(500, 200),
            ))
        ]
    );
    assert_eq!(graph.edges, vec![Edge::new(0, 1), Edge::new(1, 2)]);
    assert_eq!(graph.targets, BTreeMap::from([(0, set(&[1])), (1, set(&[2])), (2, set(&[]))]));
    assert_eq!(graph.sources, BTreeMap::from([(0, BTreeSet::new()), (1, set(&[0])), (2, set(&[1]))]));
    assert_eq!(graph.degrees, BTreeMap::from([(0, 0), (1, 1), (2, 1)]));
    assert_eq!(graph.nodes_in_degree, BTreeMap::from([(0, set(&[0])), (1, set(&[1, 2]))]));
    assert_eq!(graph.order, vec![0, 1]);

    let collection = &result.collection;
    assert_eq!(collection.data.len(), 1);
    assert_eq!(collection.data.get("primary"), Some(&DataNode::new(0, 1)));
    assert_eq!(collection.domain.len(), 0);
    assert_eq!(collection.scales.len(), 0);
    assert_eq!(collection.axis.len(), 0);
    assert_eq!(collection.shapes, vec![2]);
}
