//! The specification of a visualization: its data, scales, shapes and axes.
use vstd::prelude::*;

use crate::spec::axis::Axis;
use crate::spec::data::DataEntry;
use crate::spec::scale::Scale;
use crate::spec::shape::Shape;

pub mod axis;
pub mod data;
pub mod scale;
pub mod shape;
pub mod transform;

verus! {

/// A visualization: the canvas dimensions, the data sources, the scales and the visual
/// elements.
#[derive(Debug, PartialEq)]
pub struct Specification {
    pub dimensions: Dimensions,
    pub data: Vec<DataEntry>,
    pub scales: Vec<Scale>,
    pub visual: Visual,
}

impl Specification {
    /// A specification of its parts.
    pub fn new(dimensions: Dimensions, data: Vec<DataEntry>, scales: Vec<Scale>, visual: Visual) -> (s:
        Specification)
        ensures
            s == (Specification { dimensions, data, scales, visual }),
    {
        Specification { dimensions, data, scales, visual }
    }
}

/// The dimensions of the canvas.
#[derive(Debug, PartialEq, Eq, Structural, Clone, Copy)]
pub struct Dimensions {
    pub width: usize,
    pub height: usize,
}

impl Dimensions {
    /// Dimensions of the given width and height.
    pub fn new(width: usize, height: usize) -> (d: Dimensions)
        ensures
            d == (Dimensions { width, height }),
    {
        Dimensions { width, height }
    }
}

impl Default for Dimensions {
    /// A canvas of 500 by 200.
    fn default() -> (d: Dimensions)
        ensures
            d == (Dimensions { width: 500, height: 200 }),
    {
        Dimensions { width: 500, height: 200 }
    }
}

/// The visual elements of a specification: shapes and axes.
#[derive(Debug, PartialEq)]
pub struct Visual {
    pub shapes: Vec<Shape>,
    pub axes: Vec<Axis>,
}

impl Visual {
    /// The visual elements of the given shapes and axes.
    pub fn new(shapes: Vec<Shape>, axes: Vec<Axis>) -> (v: Visual)
        ensures
            v == (Visual { shapes, axes }),
    {
        Visual { shapes, axes }
    }
}

} // verus!
