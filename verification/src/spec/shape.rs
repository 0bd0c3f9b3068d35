//! Shapes of a specification: lines, bars, pies and points drawn from a data source.
use vstd::prelude::*;

use crate::data::{DataItem, Number};

verus! {

/// The field that holds the horizontal position of a shape.
pub const X_AXIS_FIELD_NAME: &'static str = "x";

/// The field that holds the vertical position of a shape.
pub const Y_AXIS_FIELD_NAME: &'static str = "y";

/// The field that holds the width of a shape.
pub const WIDTH_FIELD_NAME: &'static str = "width";

/// The field that holds the height of a shape.
pub const HEIGHT_FIELD_NAME: &'static str = "height";

/// A shape drawn from the data source named `from`.
#[derive(Debug, PartialEq)]
pub struct Shape {
    pub from: String,
    pub kind: ShapeKind,
}

impl Shape {
    /// A line drawn from `from`.
    pub fn line(from: &str, line: LineShape) -> (s: Shape)
        ensures
            s.from@ == from@,
            s.kind == ShapeKind::Line(line),
    {
        Shape { from: from.to_owned(), kind: ShapeKind::Line(line) }
    }

    /// Bars drawn from `from`.
    pub fn bar(from: &str, bar: BarShape) -> (s: Shape)
        ensures
            s.from@ == from@,
            s.kind == ShapeKind::Bar(bar),
    {
        Shape { from: from.to_owned(), kind: ShapeKind::Bar(bar) }
    }

    /// A pie drawn from `from`.
    pub fn pie(from: &str, pie: PieShape) -> (s: Shape)
        ensures
            s.from@ == from@,
            s.kind == ShapeKind::Pie(pie),
    {
        Shape { from: from.to_owned(), kind: ShapeKind::Pie(pie) }
    }

    /// Points drawn from `from`.
    pub fn point(from: &str, point: PointShape) -> (s: Shape)
        ensures
            s.from@ == from@,
            s.kind == ShapeKind::Point(point),
    {
        Shape { from: from.to_owned(), kind: ShapeKind::Point(point) }
    }
}

/// The kinds of shapes.
#[derive(Debug, PartialEq)]
pub enum ShapeKind {
    Line(LineShape),
    Bar(BarShape),
    Pie(PieShape),
    Point(PointShape),
}

/// Where a property of a shape comes from: a data field, possibly passed through a
/// named scale, or a plain value.
#[derive(Debug, PartialEq)]
pub enum DataSource {
    FieldSource { field: String, scale: Option<String> },
    ValueSource(DataItem),
}

/// A copy of an optional text.
pub fn copy_text(text: &Option<String>) -> (r: Option<String>)
    ensures
        r == *text,
{
    match text {
        Some(s) => Some(s.clone()),
        None => None,
    }
}

impl DataSource {
    /// The data field `field`, passed through the scale named `scale` if there is one.
    pub fn field(field: &str, scale: Option<&str>) -> (s: DataSource)
        ensures
            s matches DataSource::FieldSource { field: f, scale: sc } && f@ == field@ && match scale {
                Some(name) => sc matches Some(n) && n@ == name@,
                None => sc is None,
            },
    {
        let scale = match scale {
            Some(name) => Some(name.to_owned()),
            None => None,
        };
        DataSource::FieldSource { field: field.to_owned(), scale }
    }

    /// The plain value `item`.
    pub fn value(item: DataItem) -> (s: DataSource)
        ensures
            s == DataSource::ValueSource(item),
    {
        DataSource::ValueSource(item)
    }

    /// A copy of the source.
    pub fn copy(&self) -> (s: DataSource)
        ensures
            s == *self,
    {
        match self {
            DataSource::FieldSource { field, scale } => DataSource::FieldSource {
                field: field.clone(),
                scale: copy_text(scale),
            },
            DataSource::ValueSource(item) => DataSource::ValueSource(item.copy()),
        }
    }
}

/// The properties that every shape may have: its position and size.
#[derive(Debug, PartialEq)]
pub struct BaseShapeProperties {
    pub x: Option<DataSource>,
    pub y: Option<DataSource>,
    pub width: Option<DataSource>,
    pub height: Option<DataSource>,
}

impl BaseShapeProperties {
    /// Properties of the given position and size.
    pub fn new(
        x: Option<DataSource>,
        y: Option<DataSource>,
        width: Option<DataSource>,
        height: Option<DataSource>,
    ) -> (p: BaseShapeProperties)
        ensures
            p == (BaseShapeProperties { x, y, width, height }),
    {
        BaseShapeProperties { x, y, width, height }
    }
}

/// How the points of a line are joined.
#[derive(Debug, PartialEq, Eq, Structural, Clone, Copy)]
pub enum Interpolate {
    Linear,
}

impl Default for Interpolate {
    fn default() -> (i: Interpolate)
        ensures
            i == Interpolate::Linear,
    {
        Interpolate::Linear
    }
}

/// A line.
#[derive(Debug, PartialEq)]
pub struct LineShape {
    pub props: LineProperties,
}

impl LineShape {
    /// A line of the given properties.
    pub fn new(props: LineProperties) -> (s: LineShape)
        ensures
            s.props == props,
    {
        LineShape { props }
    }
}

/// The properties of a line.
#[derive(Debug, PartialEq)]
pub struct LineProperties {
    pub interpolate: Interpolate,
    pub stroke: Option<DataItem>,
    pub stroke_width: Option<DataItem>,
    pub base: BaseShapeProperties,
}

/// Builds the properties of a line.
pub struct LinePropertiesBuilder {
    pub x: Option<DataSource>,
    pub y: Option<DataSource>,
    pub interpolate: Interpolate,
    pub stroke: Option<DataItem>,
    pub stroke_width: Option<DataItem>,
}

impl LinePropertiesBuilder {
    /// A builder with no property set.
    pub fn new() -> (b: LinePropertiesBuilder)
        ensures
            b.x is None,
            b.y is None,
            b.interpolate == Interpolate::Linear,
            b.stroke is None,
            b.stroke_width is None,
    {
        LinePropertiesBuilder {
            x: None,
            y: None,
            interpolate: Interpolate::Linear,
            stroke: None,
            stroke_width: None,
        }
    }

    /// Set the horizontal position.
    pub fn with_x(self, x: DataSource) -> (b: LinePropertiesBuilder)
        ensures
            b == (LinePropertiesBuilder { x: Some(x), ..self }),
    {
        LinePropertiesBuilder { x: Some(x), ..self }
    }

    /// Set the vertical position.
    pub fn with_y(self, y: DataSource) -> (b: LinePropertiesBuilder)
        ensures
            b == (LinePropertiesBuilder { y: Some(y), ..self }),
    {
        LinePropertiesBuilder { y: Some(y), ..self }
    }

    /// Set the interpolation.
    pub fn with_interpolate(self, interpolate: Interpolate) -> (b: LinePropertiesBuilder)
        ensures
            b == (LinePropertiesBuilder { interpolate, ..self }),
    {
        LinePropertiesBuilder { interpolate, ..self }
    }

    /// Set the stroke color.
    pub fn with_stroke(self, stroke: &str) -> (b: LinePropertiesBuilder)
        ensures
            b.x == self.x,
            b.y == self.y,
            b.interpolate == self.interpolate,
            b.stroke_width == self.stroke_width,
            b.stroke matches Some(DataItem::Text(s)) && s@ == stroke@,
    {
        LinePropertiesBuilder { stroke: Some(DataItem::text(stroke)), ..self }
    }

    /// Set the stroke width.
    pub fn with_stroke_width(self, stroke_width: Number) -> (b: LinePropertiesBuilder)
        ensures
            b == (LinePropertiesBuilder { stroke_width: Some(DataItem::Number(stroke_width)), ..self }),
    {
        LinePropertiesBuilder { stroke_width: Some(DataItem::Number(stroke_width)), ..self }
    }

    /// The properties built.
    pub fn build(self) -> (p: LineProperties)
        ensures
            p == (LineProperties {
                interpolate: self.interpolate,
                stroke: self.stroke,
                stroke_width: self.stroke_width,
                base: BaseShapeProperties { x: self.x, y: self.y, width: None, height: None },
            }),
    {
        LineProperties {
            base: BaseShapeProperties::new(self.x, self.y, None, None),
            interpolate: self.interpolate,
            stroke: self.stroke,
            stroke_width: self.stroke_width,
        }
    }
}

/// Bars.
#[derive(Debug, PartialEq)]
pub struct BarShape {
    pub props: BarProperties,
}

impl BarShape {
    /// Bars of the given properties.
    pub fn new(props: BarProperties) -> (s: BarShape)
        ensures
            s.props == props,
    {
        BarShape { props }
    }
}

/// The properties of bars.
#[derive(Debug, PartialEq)]
pub struct BarProperties {
    pub fill: String,
    pub base: BaseShapeProperties,
}

/// The fill color of bars when none is given: black.
pub fn default_fill() -> (fill: String)
    ensures
        fill@ == "black"@,
{
    "black".to_owned()
}

/// Builds the properties of bars.
pub struct BarPropertiesBuilder {
    pub width: Option<DataSource>,
    pub height: Option<DataSource>,
    pub x: Option<DataSource>,
    pub y: Option<DataSource>,
    pub fill: String,
}

impl BarPropertiesBuilder {
    /// A builder with no position or size, filling in black.
    pub fn new() -> (b: BarPropertiesBuilder)
        ensures
            b.width is None,
            b.height is None,
            b.x is None,
            b.y is None,
            b.fill@ == "black"@,
    {
        BarPropertiesBuilder { width: None, height: None, x: None, y: None, fill: default_fill() }
    }

    /// Set the width.
    pub fn with_width(self, width: DataSource) -> (b: BarPropertiesBuilder)
        ensures
            b == (BarPropertiesBuilder { width: Some(width), ..self }),
    {
        BarPropertiesBuilder { width: Some(width), ..self }
    }

    /// Set the height.
    pub fn with_height(self, height: DataSource) -> (b: BarPropertiesBuilder)
        ensures
            b == (BarPropertiesBuilder { height: Some(height), ..self }),
    {
        BarPropertiesBuilder { height: Some(height), ..self }
    }

    /// Set the horizontal position.
    pub fn with_x(self, x: DataSource) -> (b: BarPropertiesBuilder)
        ensures
            b == (BarPropertiesBuilder { x: Some(x), ..self }),
    {
        BarPropertiesBuilder { x: Some(x), ..self }
    }

    /// Set the vertical position.
    pub fn with_y(self, y: DataSource) -> (b: BarPropertiesBuilder)
        ensures
            b == (BarPropertiesBuilder { y: Some(y), ..self }),
    {
        BarPropertiesBuilder { y: Some(y), ..self }
    }

    /// Set the fill color.
    pub fn with_fill(self, fill: &str) -> (b: BarPropertiesBuilder)
        ensures
            b.width == self.width,
            b.height == self.height,
            b.x == self.x,
            b.y == self.y,
            b.fill@ == fill@,
    {
        BarPropertiesBuilder { fill: fill.to_owned(), ..self }
    }

    /// The properties built.
    pub fn build(self) -> (p: BarProperties)
        ensures
            p == (BarProperties {
                fill: self.fill,
                base: BaseShapeProperties {
                    x: self.x,
                    y: self.y,
                    width: self.width,
                    height: self.height,
                },
            }),
    {
        BarProperties {
            base: BaseShapeProperties::new(self.x, self.y, self.width, self.height),
            fill: self.fill,
        }
    }
}

/// A pie.
#[derive(Debug, PartialEq)]
pub struct PieShape {
    pub props: PieProperties,
}

impl PieShape {
    /// A pie of the given properties.
    pub fn new(props: PieProperties) -> (s: PieShape)
        ensures
            s.props == props,
    {
        PieShape { props }
    }
}

/// The properties of a pie.
#[derive(Debug, PartialEq)]
pub struct PieProperties {
    pub value: DataSource,
    pub pad_angle: Number,
    pub inner_radius: Number,
    pub outer_radius: Option<DataSource>,
}

/// Builds the properties of a pie.
pub struct PiePropertiesBuilder {
    pub value: DataSource,
    pub pad_angle: Option<Number>,
    pub inner_radius: Option<Number>,
    pub outer_radius: Option<DataSource>,
}

impl PiePropertiesBuilder {
    /// A builder for a pie of the values of `value`.
    pub fn new(value: DataSource) -> (b: PiePropertiesBuilder)
        ensures
            b == (PiePropertiesBuilder {
                value,
                pad_angle: None,
                inner_radius: None,
                outer_radius: None,
            }),
    {
        PiePropertiesBuilder { value, pad_angle: None, inner_radius: None, outer_radius: None }
    }

    /// Set the angle between the slices.
    pub fn with_pad_angle(self, pad_angle: Number) -> (b: PiePropertiesBuilder)
        ensures
            b == (PiePropertiesBuilder { pad_angle: Some(pad_angle), ..self }),
    {
        PiePropertiesBuilder { pad_angle: Some(pad_angle), ..self }
    }

    /// Set the inner radius.
    pub fn with_inner_radius(self, inner_radius: Number) -> (b: PiePropertiesBuilder)
        ensures
            b == (PiePropertiesBuilder { inner_radius: Some(inner_radius), ..self }),
    {
        PiePropertiesBuilder { inner_radius: Some(inner_radius), ..self }
    }

    /// Set the outer radius.
    pub fn with_outer_radius(self, outer_radius: DataSource) -> (b: PiePropertiesBuilder)
        ensures
            b == (PiePropertiesBuilder { outer_radius: Some(outer_radius), ..self }),
    {
        PiePropertiesBuilder { outer_radius: Some(outer_radius), ..self }
    }

    /// The properties built; a missing angle or inner radius is 0.
    pub fn build(self) -> (p: PieProperties)
        ensures
            p == (PieProperties {
                value: self.value,
                pad_angle: match self.pad_angle {
                    Some(a) => a,
                    None => Number { bits: 0 },
                },
                inner_radius: match self.inner_radius {
                    Some(r) => r,
                    None => Number { bits: 0 },
                },
                outer_radius: self.outer_radius,
            }),
    {
        let pad_angle = match self.pad_angle {
            Some(a) => a,
            None => Number { bits: 0 },
        };
        let inner_radius = match self.inner_radius {
            Some(r) => r,
            None => Number { bits: 0 },
        };
        PieProperties { value: self.value, pad_angle, inner_radius, outer_radius: self.outer_radius }
    }
}

/// Points.
#[derive(Debug, PartialEq)]
pub struct PointShape {
    pub props: PointProperties,
}

impl PointShape {
    /// Points of the given properties.
    pub fn new(props: PointProperties) -> (s: PointShape)
        ensures
            s.props == props,
    {
        PointShape { props }
    }
}

/// The properties of points.
#[derive(Debug, PartialEq)]
pub struct PointProperties {
    pub color: Option<DataSource>,
    pub size: Option<DataSource>,
    pub x: Option<DataSource>,
    pub y: Option<DataSource>,
}

/// Builds the properties of points.
pub struct PointPropertiesBuilder {
    pub x: Option<DataSource>,
    pub y: Option<DataSource>,
    pub color: Option<DataSource>,
    pub size: Option<DataSource>,
}

impl PointPropertiesBuilder {
    /// A builder with no property set.
    pub fn new() -> (b: PointPropertiesBuilder)
        ensures
            b == (PointPropertiesBuilder { x: None, y: None, color: None, size: None }),
    {
        PointPropertiesBuilder { x: None, y: None, color: None, size: None }
    }

    /// Set the horizontal position.
    pub fn with_x(self, x: DataSource) -> (b: PointPropertiesBuilder)
        ensures
            b == (PointPropertiesBuilder { x: Some(x), ..self }),
    {
        PointPropertiesBuilder { x: Some(x), ..self }
    }

    /// Set the vertical position.
    pub fn with_y(self, y: DataSource) -> (b: PointPropertiesBuilder)
        ensures
            b == (PointPropertiesBuilder { y: Some(y), ..self }),
    {
        PointPropertiesBuilder { y: Some(y), ..self }
    }

    /// Set the color.
    pub fn with_color(self, color: DataSource) -> (b: PointPropertiesBuilder)
        ensures
            b == (PointPropertiesBuilder { color: Some(color), ..self }),
    {
        PointPropertiesBuilder { color: Some(color), ..self }
    }

    /// Set the size.
    pub fn with_size(self, size: DataSource) -> (b: PointPropertiesBuilder)
        ensures
            b == (PointPropertiesBuilder { size: Some(size), ..self }),
    {
        PointPropertiesBuilder { size: Some(size), ..self }
    }

    /// The properties built.
    pub fn build(self) -> (p: PointProperties)
        ensures
            p == (PointProperties { x: self.x, y: self.y, color: self.color, size: self.size }),
    {
        PointProperties { x: self.x, y: self.y, color: self.color, size: self.size }
    }
}

} // verus!
