//! A road-network graph read from a line-oriented text format, with two
//! cost models for its arcs and the search for its largest connected
//! component; and a frequency table of place names.
use vstd::prelude::*;

pub mod cities;
pub mod components;
pub mod graph;
pub mod reader;
pub mod text;

verus! {

} // verus!
