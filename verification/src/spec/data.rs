//! Data sources of a specification.
use vstd::prelude::*;

use crate::data::DataValue;
use crate::spec::transform::Pipe;

verus! {

/// A named list of records, with the transform pipes applied to them.
#[derive(Debug, PartialEq)]
pub struct DataEntry {
    pub name: String,
    pub values: Vec<DataValue>,
    pub transform: Vec<Pipe>,
}

impl DataEntry {
    /// A data entry named `name`.
    pub fn new(name: &str, values: Vec<DataValue>, transform: Vec<Pipe>) -> (e: DataEntry)
        ensures
            e.name@ == name@,
            e.values == values,
            e.transform == transform,
    {
        DataEntry { name: name.to_owned(), values, transform }
    }
}

} // verus!
