//! Axes of a specification.
use vstd::prelude::*;

verus! {

/// An axis drawn for a scale, on one side of the canvas.
#[derive(Debug, PartialEq)]
pub struct Axis {
    pub scale: String,
    pub orientation: AxisOrientation,
}

impl Axis {
    /// An axis for the scale named `scale`.
    pub fn new(scale: &str, orientation: AxisOrientation) -> (a: Axis)
        ensures
            a.scale@ == scale@,
            a.orientation == orientation,
    {
        Axis { scale: scale.to_owned(), orientation }
    }

    /// A copy of the axis.
    pub fn copy(&self) -> (a: Axis)
        ensures
            a == *self,
    {
        Axis { scale: self.scale.clone(), orientation: self.orientation }
    }
}

/// The side of the canvas on which an axis stands.
#[derive(Debug, PartialEq, Eq, Structural, Clone, Copy)]
pub enum AxisOrientation {
    Top,
    Bottom,
    Left,
    Right,
}

} // verus!
