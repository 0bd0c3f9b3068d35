//! A visualization library: a specification of data, scales and shapes is parsed into a
//! graph of operators, whose evaluation yields the items of a scene.
use vstd::prelude::*;

pub mod color;
pub mod data;
pub mod graph;
pub mod names;
pub mod parser;
pub mod scale;
pub mod scene;
pub mod spec;
pub mod text;
pub mod view;
