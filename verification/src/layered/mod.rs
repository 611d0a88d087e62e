//! The layered (Sugiyama) layout kernel: the layout graph, the acyclic phase
//! and the nesting graph for compound nodes.

pub mod acyclic;
pub mod edge_set;
pub mod graph;
pub mod hierarchy;
pub mod nesting;
pub mod nesting_lemmas;
pub mod nesting_spec;
pub mod reach;
pub mod trace;
