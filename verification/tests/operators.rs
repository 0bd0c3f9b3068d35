use bruc_core::data::{DataItem, DataValue, Number};
use bruc_core::graph::node::{
    continuous_plan, BandPlan, ContinuousPlan, field_numbers, numbers_of_items, pulse_records, record_coordinates, scale_inputs, scaled_records,
    AxisOperator, BandOperator, BarOperator, ConstantOperator, CountOperator, DataOperator,
    DomainDiscreteOperator, DomainIntervalOperator, FilterOperator, GroupOperator, IdentityOperator,
    LineOperator, MapOperator, PieOperator, RectFields, SceneWindow,
};
use bruc_core::graph::pulse::{MultiPulse, Pulse, ResolvedDomain, SinglePulse};
use bruc_core::spec::scale::{Domain, ONE_BITS};
use bruc_core::spec::shape::{DataSource, LinePropertiesBuilder, LineShape, PiePropertiesBuilder, PieShape};
use bruc_core::spec::transform::{FilterPipe, GroupOperator as GroupOperatorSpec, GroupPipe, MapPipe};

fn num(x: f32) -> Number {
    Number::from_bits(x.to_bits())
}

fn item(x: f32) -> DataItem {
    DataItem::number(x.to_bits())
}

fn xy(x: f32, y: f32) -> DataValue {
    DataValue::from_pairs(vec![("x", item(x)), ("y", item(y))])
}

#[test]
fn yields_data_and_constants() {
    let data = DataOperator::new(vec![xy(1.0, 2.0)]);
    assert_eq!(data.evaluate(Pulse::data(vec![xy(5.0, 5.0)])), Pulse::data(vec![xy(1.0, 2.0)]));

    let constant = ConstantOperator { value: DataValue::from_pairs(vec![("c", item(3.0))]) };
    assert_eq!(
        constant.evaluate(Pulse::data(vec![])),
        Pulse::constant(DataValue::from_pairs(vec![("c", item(3.0))]))
    );
}

#[test]
fn maps_records_with_their_values() {
    let operator = MapOperator::new(MapPipe::new("x + 2 * y", "z"));
    let records = vec![xy(-2.0, 1.0), xy(5.0, 1.0)];

    let result = operator.apply(&records, &vec![item(0.0), item(7.0)]);

    assert_eq!(
        result,
        vec![
            DataValue::from_pairs(vec![("x", item(-2.0)), ("y", item(1.0)), ("z", item(0.0))]),
            DataValue::from_pairs(vec![("x", item(5.0)), ("y", item(1.0)), ("z", item(7.0))]),
        ]
    );
}

#[test]
fn filters_records_by_their_flags() {
    let operator = FilterOperator::new(FilterPipe::new("x > y"));
    let records = vec![xy(-2.0, 1.0), xy(5.0, 1.0), xy(10.0, 1.0)];

    assert_eq!(operator.apply(&records, &vec![false, true, true]), vec![xy(5.0, 1.0), xy(10.0, 1.0)]);
    assert_eq!(operator.apply(&records, &vec![false, false, false]), vec![]);
}

#[test]
fn reads_the_records_of_pulses() {
    let multi = Pulse::multi(vec![
        SinglePulse::Data(vec![xy(-2.0, 1.0), xy(5.0, 1.0)]),
        SinglePulse::Constant(DataValue::new()),
        SinglePulse::Data(vec![xy(10.0, 1.0)]),
    ]);
    assert_eq!(pulse_records(&multi), vec![xy(-2.0, 1.0), xy(5.0, 1.0), xy(10.0, 1.0)]);
    assert_eq!(pulse_records(&Pulse::shapes(vec![])), vec![]);
}

#[test]
fn counts_groups_single_pulse() {
    let operator = CountOperator { by: "a".to_string(), output: "count".to_string() };
    let records = vec![
        DataValue::from_pairs(vec![("a", item(1.0)), ("b", item(2.0))]),
        DataValue::from_pairs(vec![("a", item(1.0)), ("b", item(2.0))]),
        DataValue::from_pairs(vec![("b", item(2.0))]),
        DataValue::from_pairs(vec![("a", DataItem::text("t"))]),
    ];

    let groups = operator.groups(&records);
    assert_eq!(groups, vec![(item(1.0), 2), (DataItem::text("t"), 1)]);
    assert_eq!(
        operator.group_record(item(1.0), num(2.0)),
        DataValue::from_pairs(vec![("a", item(1.0)), ("count", item(2.0))])
    );

    let counts = operator.counts(&Pulse::multi(vec![
        SinglePulse::Data(records),
        SinglePulse::Shapes(vec![]),
    ]));
    assert_eq!(counts.len(), 2);
    assert_eq!(counts[1], vec![]);

    let group = GroupOperator::new(GroupPipe::new("a", GroupOperatorSpec::Count, "count"));
    assert_eq!(group, GroupOperator::Count(operator));
}

#[test]
fn copies_fields() {
    let operator = IdentityOperator { field: "a".to_string(), output: "x".to_string() };
    let records = vec![
        DataValue::from_pairs(vec![("a", item(1.0))]),
        DataValue::from_pairs(vec![("b", item(2.0))]),
    ];

    assert_eq!(
        operator.evaluate(Pulse::data(records)),
        Pulse::data(vec![
            DataValue::from_pairs(vec![("a", item(1.0)), ("x", item(1.0))]),
            DataValue::from_pairs(vec![("b", item(2.0))]),
        ])
    );
}

#[test]
fn resolves_discrete_domains() {
    let field = DomainDiscreteOperator {
        domain: Domain::DataField { data: "primary".to_string(), field: "a".to_string() },
    };
    let records = vec![
        DataValue::from_pairs(vec![("a", DataItem::text("x"))]),
        DataValue::from_pairs(vec![("b", item(1.0))]),
        DataValue::from_pairs(vec![("a", item(2.0))]),
    ];
    assert_eq!(field.resolve_domain(&records), vec![DataItem::text("x"), item(2.0)]);
    assert_eq!(
        field.evaluate(Pulse::data(records)),
        Pulse::domain(ResolvedDomain::Discrete { values: vec![DataItem::text("x"), item(2.0)], outer_padding: false })
    );

    let literal = DomainDiscreteOperator { domain: Domain::Literal(vec![num(1.0), num(2.0)]) };
    assert_eq!(literal.resolve_domain(&vec![]), vec![item(1.0), item(2.0)]);
}

#[test]
fn aggregates_before_resolving_a_discrete_domain() {
    let field = DomainDiscreteOperator {
        domain: Domain::DataField { data: "primary".to_string(), field: "a".to_string() },
    };
    let pulse = Pulse::multi(vec![
        SinglePulse::Data(vec![DataValue::from_pairs(vec![("b", item(1.0))])]),
        SinglePulse::Constant(DataValue::from_pairs(vec![("a", item(7.0))])),
    ]);
    assert_eq!(
        field.evaluate(pulse),
        Pulse::domain(ResolvedDomain::Discrete { values: vec![item(7.0)], outer_padding: false })
    );
}

#[test]
fn aggregates_multi_pulses() {
    let multi = MultiPulse::new(vec![
        SinglePulse::Data(vec![]),
        SinglePulse::Data(vec![xy(1.0, 2.0), xy(3.0, 4.0)]),
        SinglePulse::Constant(DataValue::from_pairs(vec![("c", item(9.0))])),
        SinglePulse::Data(vec![DataValue::from_pairs(vec![("z", item(5.0))])]),
    ]);

    assert_eq!(
        multi.aggregate(),
        SinglePulse::Data(vec![
            DataValue::from_pairs(vec![("x", item(1.0)), ("y", item(2.0)), ("z", item(5.0)), ("c", item(9.0))]),
            DataValue::from_pairs(vec![("x", item(3.0)), ("y", item(4.0)), ("c", item(9.0))]),
        ])
    );
}

#[test]
fn gathers_scale_inputs() {
    let multi = MultiPulse::new(vec![
        SinglePulse::Domain(ResolvedDomain::Interval(num(0.0), num(1.0))),
        SinglePulse::Data(vec![xy(1.0, 2.0)]),
        SinglePulse::Domain(ResolvedDomain::Interval(num(0.0), num(5.0))),
        SinglePulse::Domain(ResolvedDomain::Discrete { values: vec![item(1.0)], outer_padding: true }),
    ]);

    let (records, interval, discrete) = scale_inputs(&multi);
    assert_eq!(records, vec![xy(1.0, 2.0)]);
    assert_eq!(interval, Some((num(0.0), num(5.0))));
    assert_eq!(discrete, Some((vec![item(1.0)], true)));

    assert_eq!(field_numbers(&records, "x"), vec![Some(num(1.0))]);
    assert_eq!(field_numbers(&records, "w"), vec![None]);
}

#[test]
fn replaces_scaled_records() {
    let records = vec![xy(1.0, 2.0), xy(3.0, 4.0)];
    assert_eq!(
        scaled_records(&records, &vec![Some(num(10.0)), None], "out"),
        vec![DataValue::from_pairs(vec![("out", item(10.0))]), xy(3.0, 4.0)]
    );
}

#[test]
fn finds_band_positions() {
    let operator = BandOperator { range: (num(0.0), num(10.0)), field: "x".to_string(), output: "x".to_string() };
    let records = vec![xy(2.0, 0.0), xy(7.0, 0.0), DataValue::new()];
    let domain = vec![item(1.0), item(2.0), item(2.0)];

    assert_eq!(operator.positions(&records, &domain), vec![Some(1), None, None]);
}

#[test]
fn picks_interval_numbers() {
    let literal = DomainIntervalOperator { domain: Domain::Literal(vec![num(0.0), num(5.0), num(7.0)]) };
    assert_eq!(literal.interval_numbers(&vec![]), Some(vec![num(0.0), num(5.0)]));

    let field = DomainIntervalOperator {
        domain: Domain::DataField { data: "primary".to_string(), field: "x".to_string() },
    };
    assert_eq!(field.interval_numbers(&vec![]), None);
    assert_eq!(
        field.interval_numbers(&vec![xy(3.0, 0.0), xy(-1.0, 0.0), DataValue::new(), xy(9.0, 0.0)]),
        Some(vec![num(3.0), num(-1.0)])
    );

    assert_eq!(
        numbers_of_items(&vec![item(1.0), DataItem::text("a"), DataItem::Bool(true), item(4.0)]),
        vec![num(1.0), num(4.0)]
    );
}

#[test]
fn reads_line_and_bar_fields() {
    let plain = LineOperator { shape: LineShape::new(LinePropertiesBuilder::new().build()), window: SceneWindow::new(20, 20) };
    assert_eq!(plain.stroke(), "black");
    assert_eq!(plain.stroke_width(), Number::from_bits(ONE_BITS));
    assert_eq!(plain.stroke_width(), num(1.0));

    let styled = LineOperator {
        shape: LineShape::new(LinePropertiesBuilder::new().with_stroke("red").with_stroke_width(num(2.0)).build()),
        window: SceneWindow::new(20, 20),
    };
    assert_eq!(styled.stroke(), "red");
    assert_eq!(styled.stroke_width(), num(2.0));

    assert_eq!(
        record_coordinates(&vec![xy(1.0, 2.0), DataValue::from_pairs(vec![("y", item(4.0))])]),
        vec![(num(1.0), num(2.0)), (num(0.0), num(4.0))]
    );

    let record = DataValue::from_pairs(vec![("x", item(1.0)), ("height", item(3.0)), ("x_bandwidth", item(5.0))]);
    assert_eq!(
        BarOperator::read_fields(&record),
        RectFields {
            x: num(1.0),
            y: num(0.0),
            width: None,
            height: Some(num(3.0)),
            x_bandwidth: Some(num(5.0)),
            y_bandwidth: None,
        }
    );
}

#[test]
fn finds_the_domain_of_an_axis() {
    let multi = Pulse::multi(vec![
        SinglePulse::Data(vec![]),
        SinglePulse::Domain(ResolvedDomain::Interval(num(1.0), num(2.0))),
        SinglePulse::Domain(ResolvedDomain::Interval(num(3.0), num(4.0))),
    ]);
    assert_eq!(AxisOperator::axis_domain(&multi), Some(ResolvedDomain::Interval(num(1.0), num(2.0))));
    assert_eq!(AxisOperator::axis_domain(&Pulse::data(vec![])), None);
    assert_eq!(
        AxisOperator::axis_domain(&Pulse::domain(ResolvedDomain::Interval(num(0.0), num(9.0)))),
        Some(ResolvedDomain::Interval(num(0.0), num(9.0)))
    );
}

#[test]
fn band_handles_empty_domain() {
    let data = vec![
        DataValue::from_pairs(vec![("a", item(0.0)), ("b", item(5.0))]),
        DataValue::from_pairs(vec![("a", item(1.0)), ("b", item(2.0))]),
    ];
    let operator = BandOperator { range: (num(0.0), num(1.0)), field: "a".to_string(), output: "x".to_string() };

    let empty = MultiPulse::new(vec![
        SinglePulse::Data(data.iter().map(|v| v.copy()).collect()),
        SinglePulse::Domain(ResolvedDomain::Discrete { values: vec![], outer_padding: false }),
    ]);
    assert_eq!(operator.plan(&empty), BandPlan::Unchanged(data.iter().map(|v| v.copy()).collect()));

    let none = MultiPulse::new(vec![SinglePulse::Data(data.iter().map(|v| v.copy()).collect())]);
    assert_eq!(operator.plan(&none), BandPlan::NoDomain);

    let domain = MultiPulse::new(vec![
        SinglePulse::Data(data.iter().map(|v| v.copy()).collect()),
        SinglePulse::Domain(ResolvedDomain::Discrete { values: vec![item(1.0), item(0.0), item(7.0)], outer_padding: false }),
    ]);
    assert_eq!(
        operator.plan(&domain),
        BandPlan::Scale { records: data, positions: vec![Some(1), Some(0)], size: 3 }
    );
}

#[test]
fn plans_continuous_scales() {
    let interval = SinglePulse::Domain(ResolvedDomain::Interval(num(0.0), num(10.0)));
    let records = vec![xy(1.0, 2.0), DataValue::from_pairs(vec![("y", item(3.0))])];

    assert_eq!(continuous_plan(&MultiPulse::new(vec![interval.copy()]), "x"), ContinuousPlan::NoRecords);
    assert_eq!(
        continuous_plan(&MultiPulse::new(vec![SinglePulse::Data(vec![xy(1.0, 2.0)])]), "x"),
        ContinuousPlan::NoDomain
    );
    assert_eq!(
        continuous_plan(&MultiPulse::new(vec![SinglePulse::Data(records), interval]), "x"),
        ContinuousPlan::Scale {
            records: vec![xy(1.0, 2.0), DataValue::from_pairs(vec![("y", item(3.0))])],
            numbers: vec![Some(num(1.0)), None],
            domain: (num(0.0), num(10.0)),
        }
    );
}

#[test]
fn cuts_pie_slices() {
    let operator = PieOperator {
        shape: PieShape::new(PiePropertiesBuilder::new(DataSource::field("value", None)).build()),
        field: "value".to_string(),
        window: SceneWindow::new(100, 50),
    };
    let records = vec![
        DataValue::from_pairs(vec![("value", item(2.0))]),
        DataValue::from_pairs(vec![("other", item(1.0))]),
        DataValue::from_pairs(vec![("value", item(3.0)), ("outer_radius", item(7.0))]),
        DataValue::from_pairs(vec![("value", DataItem::text("x"))]),
    ];
    assert_eq!(
        operator.slices(&records),
        vec![(0, num(2.0), None), (2, num(3.0), Some(num(7.0)))]
    );
    assert_eq!(operator.slices(&vec![]), vec![]);
}
