//! Scales as axes use them: a kind and the range of the canvas that it covers.
use vstd::prelude::*;

use crate::data::Number;
use crate::spec::scale::{Range, Scale as ScaleSpec, ScaleKind as ScaleKindSpec};

verus! {

/// A scale of a kind over a range.
#[derive(PartialEq, Debug, Clone, Copy)]
pub struct Scale {
    pub kind: ScaleKind,
}

/// The kinds of scales, each with its range.
#[derive(PartialEq, Debug, Clone, Copy)]
pub enum ScaleKind {
    Linear(ScaleLinear),
    Log(ScaleLog),
    Band(ScaleBand),
}

/// A linear scale over a range.
#[derive(PartialEq, Debug, Clone, Copy)]
pub struct ScaleLinear {
    pub range: (Number, Number),
}

/// A logarithmic scale over a range.
#[derive(PartialEq, Debug, Clone, Copy)]
pub struct ScaleLog {
    pub range: (Number, Number),
}

/// A band scale over a range.
#[derive(PartialEq, Debug, Clone, Copy)]
pub struct ScaleBand {
    pub range: (Number, Number),
}

/// The range of a specified scale.
pub open spec fn spec_range(scale: ScaleSpec) -> (Number, Number) {
    match scale.kind {
        ScaleKindSpec::Linear(linear) => match linear.range {
            Range::Literal(min, max) => (min, max),
        },
        ScaleKindSpec::Log(log) => match log.range {
            Range::Literal(min, max) => (min, max),
        },
        ScaleKindSpec::Band(band) => match band.range {
            Range::Literal(min, max) => (min, max),
        },
    }
}

/// The scale that a specified scale defines: of the same kind, over its range.
pub open spec fn scale_of(scale: ScaleSpec) -> Scale {
    match scale.kind {
        ScaleKindSpec::Linear(_) => Scale {
            kind: ScaleKind::Linear(ScaleLinear { range: spec_range(scale) }),
        },
        ScaleKindSpec::Log(_) => Scale { kind: ScaleKind::Log(ScaleLog { range: spec_range(scale) }) },
        ScaleKindSpec::Band(_) => Scale {
            kind: ScaleKind::Band(ScaleBand { range: spec_range(scale) }),
        },
    }
}

impl Scale {
    /// The scale of a specified scale: of the same kind, over its range.
    pub fn from_spec(scale: &ScaleSpec) -> (s: Scale)
        ensures
            s == scale_of(*scale),
            s.range_spec() == spec_range(*scale),
    {
        match &scale.kind {
            ScaleKindSpec::Linear(linear) => {
                let Range::Literal(min, max) = linear.range;
                Scale::linear((min, max))
            },
            ScaleKindSpec::Band(band) => {
                let Range::Literal(min, max) = band.range;
                Scale::band((min, max))
            },
            ScaleKindSpec::Log(log) => {
                let Range::Literal(min, max) = log.range;
                Scale::log((min, max))
            },
        }
    }

    /// A linear scale over `range`.
    pub fn linear(range: (Number, Number)) -> (s: Scale)
        ensures
            s == (Scale { kind: ScaleKind::Linear(ScaleLinear { range }) }),
    {
        Scale { kind: ScaleKind::Linear(ScaleLinear { range }) }
    }

    /// A band scale over `range`.
    pub fn band(range: (Number, Number)) -> (s: Scale)
        ensures
            s == (Scale { kind: ScaleKind::Band(ScaleBand { range }) }),
    {
        Scale { kind: ScaleKind::Band(ScaleBand { range }) }
    }

    /// A logarithmic scale over `range`.
    pub fn log(range: (Number, Number)) -> (s: Scale)
        ensures
            s == (Scale { kind: ScaleKind::Log(ScaleLog { range }) }),
    {
        Scale { kind: ScaleKind::Log(ScaleLog { range }) }
    }

    /// The range of the scale.
    pub open spec fn range_spec(self) -> (Number, Number) {
        match self.kind {
            ScaleKind::Linear(linear) => linear.range,
            ScaleKind::Log(log) => log.range,
            ScaleKind::Band(band) => band.range,
        }
    }

    /// The range of the scale.
    pub fn range(&self) -> (r: (Number, Number))
        ensures
            r == self.range_spec(),
    {
        match &self.kind {
            ScaleKind::Linear(linear) => linear.range,
            ScaleKind::Log(log) => log.range,
            ScaleKind::Band(band) => band.range,
        }
    }
}

} // verus!
