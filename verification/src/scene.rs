//! The scene: the visual items that a graph evaluation yields, ready to be rendered.
use vstd::prelude::*;

use crate::data::Number;
use crate::graph::node::Node;
use crate::graph::pulse::{Pulse, SinglePulse};
use crate::spec::axis::AxisOrientation;

verus! {

/// The dimensions of the canvas.
#[derive(Debug, PartialEq, Eq, Structural, Clone, Copy)]
pub struct SceneDimensions {
    pub width: usize,
    pub height: usize,
}

/// A scene with its root.
#[derive(Debug, PartialEq)]
pub struct Scenegraph {
    pub root: SceneRoot,
}

impl Scenegraph {
    /// A scene with the given root.
    pub fn new(root: SceneRoot) -> (s: Scenegraph)
        ensures
            s.root == root,
    {
        Scenegraph { root }
    }

    /// A copy of the scene.
    pub fn copy(&self) -> (s: Scenegraph)
        ensures
            same_items(s.root.items@, self.root.items@),
            s.root.dimensions == self.root.dimensions,
    {
        Scenegraph { root: self.root.copy() }
    }
}

/// The root of a scene: its items and the canvas dimensions.
#[derive(Debug, PartialEq)]
pub struct SceneRoot {
    pub items: Vec<SceneItem>,
    pub dimensions: SceneDimensions,
}

impl SceneRoot {
    /// A root holding `items` on a canvas of `dimensions`.
    pub fn new(items: Vec<SceneItem>, dimensions: SceneDimensions) -> (r: SceneRoot)
        ensures
            r.items == items,
            r.dimensions == dimensions,
    {
        SceneRoot { items, dimensions }
    }

    /// A copy of the root.
    pub fn copy(&self) -> (r: SceneRoot)
        ensures
            same_items(r.items@, self.items@),
            r.dimensions == self.dimensions,
    {
        let items = copy_items(&self.items);
        proof {
            lemma_same_item_list(items@, self.items@, items@.len() as int);
            lemma_same_item_list(self.items@, items@, items@.len() as int);
        }
        SceneRoot { items, dimensions: self.dimensions }
    }
}

/// A visual item of the scene.
#[derive(Debug, PartialEq)]
pub enum SceneItem {
    Group(Box<SceneGroup>),
    Line(Box<SceneLine>),
    Rect(Box<SceneRect>),
    Axis(Box<SceneAxis>),
    Arc(Box<SceneArc>),
}

/// Two scene items that draw the same thing: of the same kind, with the same attributes,
/// lists being compared item by item.
pub open spec fn same_item(a: SceneItem, b: SceneItem) -> bool
    decreases a, 0int,
{
    match a {
        SceneItem::Group(ga) => match b {
            SceneItem::Group(gb) => {
                proof {
                    assert(decreases_to!(a => ga.items));
                }
                same_item_list(ga.items@, gb.items@, ga.items@.len() as int)
            },
            _ => false,
        },
        SceneItem::Line(la) => match b {
            SceneItem::Line(lb) => la.stroke == lb.stroke && la.stroke_width == lb.stroke_width
                && la.points@ == lb.points@,
            _ => false,
        },
        SceneItem::Rect(ra) => match b {
            SceneItem::Rect(rb) => *ra == *rb,
            _ => false,
        },
        SceneItem::Axis(xa) => match b {
            SceneItem::Axis(xb) => xa.rule == xb.rule && xa.ticks@ == xb.ticks@ && xa.orientation
                == xb.orientation,
            _ => false,
        },
        SceneItem::Arc(aa) => match b {
            SceneItem::Arc(ab) => *aa == *ab,
            _ => false,
        },
    }
}

/// The first `k` items of two lists are the same, and the lists are as long.
pub open spec fn same_item_list(a: Seq<SceneItem>, b: Seq<SceneItem>, k: int) -> bool
    decreases a, if k >= 0 { k + 1 } else { 0 },
{
    if k <= 0 || k > a.len() {
        a.len() == b.len() && k <= a.len()
    } else {
        same_item_list(a, b, k - 1) && same_item(a[k - 1], b[k - 1])
    }
}

/// Two lists of scene items, item by item the same.
pub open spec fn same_items(a: Seq<SceneItem>, b: Seq<SceneItem>) -> bool {
    same_item_list(a, b, a.len() as int)
}

proof fn lemma_same_item_list(a: Seq<SceneItem>, b: Seq<SceneItem>, k: int)
    requires
        0 <= k <= a.len(),
    ensures
        same_item_list(a, b, k) <==> (a.len() == b.len() && forall|i: int|
            0 <= i < k ==> #[trigger] same_item(a[i], b[i])),
    decreases k,
{
    if k > 0 {
        lemma_same_item_list(a, b, k - 1);
        if a.len() == b.len() && forall|i: int| 0 <= i < k ==> #[trigger] same_item(a[i], b[i]) {
            assert(same_item(a[k - 1], b[k - 1]));
        }
    }
}

/// Every scene item draws the same thing as itself.
pub proof fn lemma_same_item_reflexive(a: SceneItem)
    ensures
        same_item(a, a),
    decreases a,
{
    if let SceneItem::Group(group) = a {
        assert(decreases_to!(a => group.items));
        assert forall|i: int| 0 <= i < group.items@.len() implies #[trigger] same_item(
            group.items@[i],
            group.items@[i],
        ) by {
            assert(decreases_to!(group.items => group.items@[i]));
            lemma_same_item_reflexive(group.items@[i]);
        }
        lemma_same_item_list(group.items@, group.items@, group.items@.len() as int);
    }
}

/// Every list of scene items is item by item the same as itself.
pub proof fn lemma_same_items_reflexive(a: Seq<SceneItem>)
    ensures
        same_items(a, a),
{
    assert forall|i: int| 0 <= i < a.len() implies #[trigger] same_item(a[i], a[i]) by {
        lemma_same_item_reflexive(a[i]);
    }
    lemma_same_item_list(a, a, a.len() as int);
}

/// A copy of a list of scene items.
pub fn copy_items(items: &Vec<SceneItem>) -> (r: Vec<SceneItem>)
    ensures
        same_items(r@, items@),
    decreases items,
{
    let mut r: Vec<SceneItem> = Vec::new();
    let mut i: usize = 0;
    while i < items.len()
        invariant
            i <= items@.len(),
            r@.len() == i,
            forall|j: int| 0 <= j < i ==> #[trigger] same_item(r@[j], items@[j]),
        decreases items@.len() - i,
    {
        assert(decreases_to!(items => items@[i as int]));
        r.push(items[i].copy());
        i = i + 1;
    }
    proof {
        lemma_same_item_list(r@, items@, r@.len() as int);
    }
    r
}

impl SceneItem {
    /// A group of items.
    pub fn group(items: Vec<SceneItem>) -> (item: SceneItem)
        ensures
            item == SceneItem::Group(Box::new(SceneGroup { items })),
    {
        SceneItem::Group(Box::new(SceneGroup::with_items(items)))
    }

    /// A line through `points`.
    pub fn line(points: Vec<(Number, Number)>, stroke: String, stroke_width: Number) -> (item:
        SceneItem)
        ensures
            item == SceneItem::Line(Box::new(SceneLine { stroke, stroke_width, points })),
    {
        SceneItem::Line(Box::new(SceneLine::new(points, stroke, stroke_width)))
    }

    /// A rectangle.
    pub fn rect(width: Number, height: Number, x: Number, y: Number, fill: String) -> (item:
        SceneItem)
        ensures
            item == SceneItem::Rect(Box::new(SceneRect { width, height, x, y, fill })),
    {
        SceneItem::Rect(Box::new(SceneRect { width, height, x, y, fill }))
    }

    /// An axis with its rule and ticks.
    pub fn axis(rule: SceneAxisRule, ticks: Vec<SceneAxisTick>, orientation: AxisOrientation) -> (item:
        SceneItem)
        ensures
            item == SceneItem::Axis(Box::new(SceneAxis { rule, ticks, orientation })),
    {
        SceneItem::Axis(Box::new(SceneAxis::new(rule, ticks, orientation)))
    }

    /// A circular sector between two angles (in degrees).
    pub fn arc(start_angle: Number, end_angle: Number, radius: Number, fill: String) -> (item:
        SceneItem)
        ensures
            item == SceneItem::Arc(Box::new(SceneArc { start_angle, end_angle, radius, fill })),
    {
        SceneItem::Arc(Box::new(SceneArc { start_angle, end_angle, radius, fill }))
    }

    /// A copy of the item.
    pub fn copy(&self) -> (item: SceneItem)
        ensures
            same_item(item, *self),
        decreases self,
    {
        match self {
            SceneItem::Group(group) => {
                assert(decreases_to!(self => group.items));
                SceneItem::Group(Box::new(SceneGroup { items: copy_items(&group.items) }))
            },
            SceneItem::Line(line) => SceneItem::Line(Box::new(line.copy())),
            SceneItem::Rect(rect) => SceneItem::Rect(
                Box::new(
                    SceneRect {
                        width: rect.width,
                        height: rect.height,
                        x: rect.x,
                        y: rect.y,
                        fill: rect.fill.clone(),
                    },
                ),
            ),
            SceneItem::Axis(axis) => SceneItem::Axis(Box::new(axis.copy())),
            SceneItem::Arc(arc) => SceneItem::Arc(
                Box::new(
                    SceneArc {
                        start_angle: arc.start_angle,
                        end_angle: arc.end_angle,
                        radius: arc.radius,
                        fill: arc.fill.clone(),
                    },
                ),
            ),
        }
    }

    /// The scene item that a node's pulse makes: none unless the pulse is a single pulse
    /// of shapes; the shape itself when there is exactly one, a group of all of them when
    /// there are more.
    pub fn build(node: &Node) -> (item: Option<SceneItem>)
        ensures
            match build_spec(node.pulse) {
                None => item is None,
                Some(expected) => item matches Some(i) && same_item(i, expected),
            },
            node.pulse matches Pulse::Single(SinglePulse::Shapes(shapes)) ==> (shapes@.len() > 1 ==> (item matches Some(
                SceneItem::Group(g),
            ) && g.items@.len() == shapes@.len() && forall|i: int|
                0 <= i < shapes@.len() ==> #[trigger] same_item(g.items@[i], shapes@[i]))),
            node.pulse matches Pulse::Single(SinglePulse::Shapes(shapes)) ==> (shapes@.len() == 1 ==> (item matches Some(
                one,
            ) && same_item(one, shapes@[0]))),
            node.pulse matches Pulse::Single(SinglePulse::Shapes(shapes)) ==> (shapes@.len() == 0 ==> item is None),
            !(node.pulse matches Pulse::Single(SinglePulse::Shapes(_))) ==> item is None,
    {
        match &node.pulse {
            Pulse::Single(single) => match single {
                SinglePulse::Shapes(shapes) => {
                    if shapes.len() > 1 {
                        let items = copy_items(shapes);
                        proof {
                            lemma_same_item_list(items@, shapes@, items@.len() as int);
                        }
                        let group = SceneItem::group(items);
                        proof {
                            lemma_same_item_list(items@, shapes@, items@.len() as int);
                            assert(same_item(group, SceneItem::Group(Box::new(SceneGroup { items: *shapes }))));
                        }
                        Some(group)
                    } else if shapes.len() == 1 {
                        Some(shapes[0].copy())
                    } else {
                        None
                    }
                },
                _ => None,
            },
            Pulse::Multi(_) => None,
        }
    }
}

/// The scene item that a pulse makes, as `SceneItem::build` does.
pub open spec fn build_spec(pulse: Pulse) -> Option<SceneItem> {
    match pulse {
        Pulse::Single(SinglePulse::Shapes(shapes)) => {
            if shapes.len() > 1 {
                Some(SceneItem::Group(Box::new(SceneGroup { items: shapes })))
            } else if shapes.len() == 1 {
                Some(shapes@[0])
            } else {
                None
            }
        },
        _ => None,
    }
}

/// A pulse of shapes makes a scene item that keeps every shape: none for no shape, the shape
/// itself for one, and a group of all of them, in order, for more.
pub proof fn lemma_build_keeps_every_shape(shapes: Vec<SceneItem>)
    ensures
        shapes@.len() == 0 ==> build_spec(Pulse::Single(SinglePulse::Shapes(shapes))) is None,
        shapes@.len() == 1 ==> build_spec(Pulse::Single(SinglePulse::Shapes(shapes))) == Some(shapes@[0]),
        shapes@.len() > 1 ==> (build_spec(Pulse::Single(SinglePulse::Shapes(shapes))) matches Some(
            SceneItem::Group(g),
        ) && g.items@ == shapes@),
{
}

/// Only a single pulse of shapes makes a scene item.
pub proof fn lemma_build_needs_shapes(pulse: Pulse)
    requires
        !(pulse matches Pulse::Single(SinglePulse::Shapes(_))),
    ensures
        build_spec(pulse) is None,
{
}

/// A group of scene items.
#[derive(Debug, PartialEq)]
pub struct SceneGroup {
    pub items: Vec<SceneItem>,
}

impl SceneGroup {
    /// An empty group.
    pub fn new() -> (g: SceneGroup)
        ensures
            g.items@ == Seq::<SceneItem>::empty(),
    {
        SceneGroup { items: Vec::new() }
    }

    /// A group of the given items.
    pub fn with_items(items: Vec<SceneItem>) -> (g: SceneGroup)
        ensures
            g.items == items,
    {
        SceneGroup { items }
    }
}

/// A line through a list of points.
#[derive(Debug, PartialEq)]
pub struct SceneLine {
    pub stroke: String,
    pub stroke_width: Number,
    pub points: Vec<(Number, Number)>,
}

impl SceneLine {
    /// A line through `points`.
    pub fn new(points: Vec<(Number, Number)>, stroke: String, stroke_width: Number) -> (l:
        SceneLine)
        ensures
            l == (SceneLine { stroke, stroke_width, points }),
    {
        SceneLine { points, stroke, stroke_width }
    }

    /// A copy of the line.
    pub fn copy(&self) -> (l: SceneLine)
        ensures
            l.stroke == self.stroke,
            l.stroke_width == self.stroke_width,
            l.points@ == self.points@,
    {
        let mut points: Vec<(Number, Number)> = Vec::new();
        let mut i: usize = 0;
        while i < self.points.len()
            invariant
                i <= self.points@.len(),
                points@ == self.points@.take(i as int),
            decreases self.points@.len() - i,
        {
            points.push(self.points[i]);
            assert(points@ =~= self.points@.take(i + 1));
            i = i + 1;
        }
        assert(self.points@.take(i as int) =~= self.points@);
        SceneLine { stroke: self.stroke.clone(), stroke_width: self.stroke_width, points }
    }
}

/// A rectangle.
#[derive(Debug, PartialEq)]
pub struct SceneRect {
    pub width: Number,
    pub height: Number,
    pub x: Number,
    pub y: Number,
    pub fill: String,
}

/// A circular sector.
#[derive(Debug, PartialEq)]
pub struct SceneArc {
    pub start_angle: Number,
    pub end_angle: Number,
    pub radius: Number,
    pub fill: String,
}

/// An axis: a rule with ticks.
#[derive(Debug, PartialEq)]
pub struct SceneAxis {
    pub rule: SceneAxisRule,
    pub ticks: Vec<SceneAxisTick>,
    pub orientation: AxisOrientation,
}

impl SceneAxis {
    /// An axis with its rule and ticks.
    pub fn new(rule: SceneAxisRule, ticks: Vec<SceneAxisTick>, orientation: AxisOrientation) -> (a:
        SceneAxis)
        ensures
            a == (SceneAxis { rule, ticks, orientation }),
    {
        SceneAxis { rule, ticks, orientation }
    }

    /// A copy of the axis.
    pub fn copy(&self) -> (a: SceneAxis)
        ensures
            a.rule == self.rule,
            a.ticks@ == self.ticks@,
            a.orientation == self.orientation,
    {
        let mut ticks: Vec<SceneAxisTick> = Vec::new();
        let mut i: usize = 0;
        while i < self.ticks.len()
            invariant
                i <= self.ticks@.len(),
                ticks@ == self.ticks@.take(i as int),
            decreases self.ticks@.len() - i,
        {
            let tick = SceneAxisTick {
                position: self.ticks[i].position,
                label: self.ticks[i].label.clone(),
            };
            ticks.push(tick);
            assert(ticks@ =~= self.ticks@.take(i + 1));
            i = i + 1;
        }
        assert(self.ticks@.take(i as int) =~= self.ticks@);
        SceneAxis {
            rule: SceneAxisRule { from: self.rule.from, to: self.rule.to },
            ticks,
            orientation: self.orientation,
        }
    }
}

/// The rule of an axis, from one point to another.
#[derive(Debug, PartialEq)]
pub struct SceneAxisRule {
    pub from: (Number, Number),
    pub to: (Number, Number),
}

/// A tick of an axis, with its label.
#[derive(Debug, PartialEq)]
pub struct SceneAxisTick {
    pub position: (Number, Number),
    pub label: String,
}

} // verus!
