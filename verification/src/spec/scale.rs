//! Scales of a specification: how data values map to positions on the canvas.
use vstd::prelude::*;

use crate::data::Number;

verus! {

/// The bit pattern of the number 1.
pub const ONE_BITS: u32 = 0x3f80_0000u32;

/// A named scale.
#[derive(Debug, PartialEq)]
pub struct Scale {
    pub name: String,
    pub kind: ScaleKind,
}

impl Scale {
    /// A scale named `name`.
    pub fn new(name: &str, kind: ScaleKind) -> (s: Scale)
        ensures
            s.name@ == name@,
            s.kind == kind,
    {
        Scale { name: name.to_owned(), kind }
    }

    /// Two scales of the same name and kind, over the same domain and range.
    pub open spec fn same(self, other: Scale) -> bool {
        &&& self.name@ == other.name@
        &&& match (self.kind, other.kind) {
            (ScaleKind::Linear(a), ScaleKind::Linear(b)) => a.domain.same(b.domain) && a.range
                == b.range,
            (ScaleKind::Log(a), ScaleKind::Log(b)) => a.domain.same(b.domain) && a.range == b.range,
            (ScaleKind::Band(a), ScaleKind::Band(b)) => a.domain.same(b.domain) && a.range == b.range
                && a.padding == b.padding,
            _ => false,
        }
    }

    /// A copy of the scale.
    pub fn copy(&self) -> (s: Scale)
        ensures
            s.same(*self),
    {
        let kind = match &self.kind {
            ScaleKind::Linear(linear) => ScaleKind::Linear(
                LinearScale { domain: linear.domain.copy(), range: linear.range },
            ),
            ScaleKind::Log(log) => ScaleKind::Log(
                LogScale { domain: log.domain.copy(), range: log.range },
            ),
            ScaleKind::Band(band) => ScaleKind::Band(
                BandScale { domain: band.domain.copy(), range: band.range, padding: band.padding },
            ),
        };
        Scale { name: self.name.clone(), kind }
    }
}

/// The kinds of scales.
#[derive(Debug, PartialEq)]
pub enum ScaleKind {
    Linear(LinearScale),
    Log(LogScale),
    Band(BandScale),
}

/// A linear scale from a domain to a range.
#[derive(Debug, PartialEq)]
pub struct LinearScale {
    pub domain: Domain,
    pub range: Range,
}

impl LinearScale {
    /// A linear scale from `domain` to `range`.
    pub fn new(domain: Domain, range: Range) -> (s: LinearScale)
        ensures
            s == (LinearScale { domain, range }),
    {
        LinearScale { domain, range }
    }
}

/// A logarithmic scale from a domain to a range.
#[derive(Debug, PartialEq)]
pub struct LogScale {
    pub domain: Domain,
    pub range: Range,
}

impl LogScale {
    /// A logarithmic scale from `domain` to `range`.
    pub fn new(domain: Domain, range: Range) -> (s: LogScale)
        ensures
            s == (LogScale { domain, range }),
    {
        LogScale { domain, range }
    }
}

/// A band scale from a discrete domain to a range.
#[derive(Debug, PartialEq)]
pub struct BandScale {
    pub domain: Domain,
    pub range: Range,
    pub padding: Number,
}

/// The domain of a scale: literal values, or the values of a data field.
#[derive(Debug, PartialEq)]
pub enum Domain {
    Literal(Vec<Number>),
    DataField { data: String, field: String },
}

impl Domain {
    /// The domain from 0 to 1.
    pub fn default_literal() -> (d: Domain)
        ensures
            d matches Domain::Literal(values) && values@ == seq![
                Number { bits: 0 },
                Number { bits: ONE_BITS },
            ],
    {
        Domain::Literal(vec![Number { bits: 0 }, Number { bits: ONE_BITS }])
    }

    /// Two domains of the same literal values, or of the same data field.
    pub open spec fn same(self, other: Domain) -> bool {
        match (self, other) {
            (Domain::Literal(a), Domain::Literal(b)) => a@ == b@,
            (
                Domain::DataField { data: data_a, field: field_a },
                Domain::DataField { data: data_b, field: field_b },
            ) => data_a@ == data_b@ && field_a@ == field_b@,
            _ => false,
        }
    }

    /// A copy of the domain.
    pub fn copy(&self) -> (d: Domain)
        ensures
            d.same(*self),
    {
        match self {
            Domain::Literal(values) => {
                let mut copy: Vec<Number> = Vec::new();
                let mut i: usize = 0;
                while i < values.len()
                    invariant
                        i <= values@.len(),
                        copy@ == values@.take(i as int),
                    decreases values@.len() - i,
                {
                    copy.push(values[i]);
                    assert(copy@ =~= values@.take(i + 1));
                    i = i + 1;
                }
                assert(values@.take(i as int) =~= values@);
                Domain::Literal(copy)
            },
            Domain::DataField { data, field } => Domain::DataField {
                data: data.clone(),
                field: field.clone(),
            },
        }
    }
}

/// The range of a scale.
#[derive(Debug, PartialEq, Eq, Structural, Clone, Copy)]
pub enum Range {
    Literal(Number, Number),
}

impl Range {
    /// The range from 0 to 1.
    pub fn default_literal() -> (r: Range)
        ensures
            r == Range::Literal(Number { bits: 0 }, Number { bits: ONE_BITS }),
    {
        Range::Literal(Number { bits: 0 }, Number { bits: ONE_BITS })
    }
}

} // verus!
