//! Radial visualisation of a build's dependency graph: the parsing of the
//! dependency listing, the shape of the draw plan and the bookkeeping of
//! build events.

pub mod active;
pub mod census;
pub mod dependency_tree;
pub mod drawing;
pub mod identity;
pub mod lineage;
pub mod name_set;
pub mod parse_cargo_tree_output;
pub mod sorting;
pub mod text;
pub mod tracker;
