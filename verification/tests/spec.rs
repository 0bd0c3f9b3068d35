use bruc_core::data::{DataItem, DataValue, Number};
use bruc_core::graph::node::{Node, Operator, SceneWindow};
use bruc_core::graph::pulse::{Pulse, SinglePulse};
use bruc_core::scene::{SceneDimensions, SceneItem, Scenegraph, SceneRoot};
use bruc_core::spec::axis::{Axis, AxisOrientation};
use bruc_core::spec::data::DataEntry;
use bruc_core::spec::scale::{Domain, LinearScale, Range, Scale, ScaleKind};
use bruc_core::spec::shape::{default_fill, DataSource, LinePropertiesBuilder, LineShape, PiePropertiesBuilder, Shape};
use bruc_core::spec::transform::{
    FilterPipe, GroupOperator, GroupPipe, MapPipe, Pipe, PipeField, PipeFieldError,
};
use bruc_core::spec::{Dimensions, Specification, Visual};
use bruc_core::view::ViewState;

fn num(x: f32) -> Number {
    Number::from_bits(x.to_bits())
}

fn item(x: f32) -> DataItem {
    DataItem::number(x.to_bits())
}

fn specification() -> Specification {
    Specification::new(
        Dimensions::new(40, 20),
        vec![DataEntry::new(
            "primary",
            vec![DataValue::from_pairs(vec![("a", item(5.0))]), DataValue::from_pairs(vec![("a", item(13.0))])],
            vec![Pipe::Mapping(MapPipe::new("a + 2", "b")), Pipe::Filter(FilterPipe::new("b > 2"))],
        )],
        vec![
            Scale::new(
                "horizontal",
                ScaleKind::Linear(LinearScale::new(Domain::Literal(vec![num(0.0), num(20.0)]), Range::Literal(num(0.0), num(40.0)))),
            ),
            Scale::new(
                "vertical",
                ScaleKind::Linear(LinearScale::new(Domain::Literal(vec![num(0.0), num(20.0)]), Range::Literal(num(0.0), num(20.0)))),
            ),
        ],
        Visual::new(
            vec![Shape::line(
                "primary",
                LineShape::new(
                    LinePropertiesBuilder::new()
                        .with_x(DataSource::field("a", Some("horizontal")))
                        .with_y(DataSource::field("b", Some("vertical")))
                        .build(),
                ),
            )],
            vec![Axis::new("horizontal", AxisOrientation::Bottom), Axis::new("vertical", AxisOrientation::Left)],
        ),
    )
}

#[test]
fn builds_specification() {
    // when
    let view = ViewState::build(specification());

    // then
    assert_eq!(view.dimensions, SceneDimensions { width: 40, height: 20 });
    assert_eq!(view.data_nodes.len(), 1);
    assert_eq!(view.data_nodes.get("primary").map(|nodes| nodes.out), Some(2));
}

#[test]
fn replaces_the_records_of_a_data_source() {
    let mut view = ViewState::build(specification());
    let values = vec![DataValue::from_pairs(vec![("a", item(10.0))])];

    assert_eq!(view.set_data("secondary", vec![]), None);
    assert_eq!(view.set_data("primary", values), Some(2));
    assert_eq!(view.graph.nodes[2], Node::init(Operator::data(vec![DataValue::from_pairs(vec![("a", item(10.0))])])));
}

#[test]
fn reads_pipe_descriptions() {
    let entries = |pairs: &[(&str, Option<&str>)]| -> Vec<(String, Option<String>)> {
        pairs.iter().map(|(k, v)| (k.to_string(), v.map(|v| v.to_string()))).collect()
    };

    assert_eq!(
        MapPipe::from_entries(&entries(&[("fn", Some("a + 2.0")), ("other", Some("x")), ("output", Some("b"))])),
        Ok(MapPipe::new("a + 2.0", "b"))
    );
    assert_eq!(
        MapPipe::from_entries(&entries(&[("fn", Some("a")), ("fn", Some("b"))])),
        Err(PipeFieldError::Duplicate(PipeField::Expression))
    );
    assert_eq!(
        MapPipe::from_entries(&entries(&[("output", Some("a")), ("output", Some("b")), ("fn", Some("c"))])),
        Err(PipeFieldError::Duplicate(PipeField::Output))
    );
    assert_eq!(
        MapPipe::from_entries(&entries(&[("output", Some("b"))])),
        Err(PipeFieldError::Missing(PipeField::Expression))
    );
    assert_eq!(
        MapPipe::from_entries(&entries(&[("fn", Some("a"))])),
        Err(PipeFieldError::Missing(PipeField::Output))
    );
    // an empty value leaves the field open for a later one
    assert_eq!(
        MapPipe::from_entries(&entries(&[("fn", None), ("fn", Some("a")), ("output", Some("b"))])),
        Ok(MapPipe::new("a", "b"))
    );

    let texts = |pairs: &[(&str, &str)]| -> Vec<(String, String)> {
        pairs.iter().map(|(k, v)| (k.to_string(), v.to_string())).collect()
    };
    assert_eq!(FilterPipe::from_entries(&texts(&[("fn", "a > 2.0")])), Ok(FilterPipe::new("a > 2.0")));
    assert_eq!(FilterPipe::from_entries(&texts(&[])), Err(PipeFieldError::Missing(PipeField::Expression)));
    assert_eq!(
        FilterPipe::from_entries(&texts(&[("fn", "a"), ("fn", "b")])),
        Err(PipeFieldError::Duplicate(PipeField::Expression))
    );
    // every entry gives the expression; the last one stays
    assert_eq!(FilterPipe::from_entries(&texts(&[("x", "a"), ("y", "b")])), Ok(FilterPipe::new("b")));
}

#[test]
fn names_group_operators() {
    assert_eq!(GroupOperator::from_string("count"), Some(GroupOperator::Count));
    assert_eq!(GroupOperator::from_string("sum"), None);
    let pipe = GroupPipe::new("a", GroupOperator::Count, "total");
    assert_eq!(pipe.by, "a");
    assert_eq!(pipe.output, "total");
}

#[test]
fn builds_default_specification_parts() {
    assert_eq!(Dimensions::default(), Dimensions::new(500, 200));
    assert_eq!(default_fill(), "black");
    assert_eq!(Domain::default_literal(), Domain::Literal(vec![num(0.0), num(1.0)]));
    assert_eq!(Range::default_literal(), Range::Literal(num(0.0), num(1.0)));

    let pie = PiePropertiesBuilder::new(DataSource::value(item(1.0))).with_inner_radius(num(2.0)).build();
    assert_eq!(pie.pad_angle, num(0.0));
    assert_eq!(pie.inner_radius, num(2.0));
    assert_eq!(pie.outer_radius, None);
}

#[test]
fn builds_scene_items_from_shape_pulses() {
    let line = || SceneItem::line(vec![(num(1.0), num(2.0))], "black".to_string(), num(1.0));
    let rect = || SceneItem::rect(num(1.0), num(1.0), num(0.0), num(0.0), "red".to_string());
    let node = |pulse: Pulse| Node { operator: Operator::data(vec![]), pulse };

    assert_eq!(SceneItem::build(&node(Pulse::shapes(vec![]))), None);
    assert_eq!(SceneItem::build(&node(Pulse::shapes(vec![line()]))), Some(line()));
    assert_eq!(SceneItem::build(&node(Pulse::shapes(vec![line(), rect()]))), Some(SceneItem::group(vec![line(), rect()])));
    assert_eq!(SceneItem::build(&node(Pulse::data(vec![]))), None);
    assert_eq!(SceneItem::build(&node(Pulse::multi(vec![SinglePulse::Shapes(vec![line()])]))), None);

    let scene = Scenegraph::new(SceneRoot::new(vec![line()], SceneDimensions { width: 40, height: 20 }));
    assert_eq!(scene.copy(), scene);
    let _window = SceneWindow::new(40, 20);
}

#[test]
fn deserialize_map() {
    let entries = vec![
        ("fn".to_string(), Some("a + 2.0".to_string())),
        ("output".to_string(), Some("b".to_string())),
    ];
    let map = MapPipe::from_entries(&entries).unwrap();

    assert_eq!(map.predicate.source, "a + 2.0");
    assert_eq!(map.output, "b");
}

#[test]
fn deserialize_filter() {
    let entries = vec![("fn".to_string(), "a > 2.0".to_string())];
    let filter = FilterPipe::from_entries(&entries).unwrap();

    assert_eq!(filter.predicate.source, "a > 2.0");
}
