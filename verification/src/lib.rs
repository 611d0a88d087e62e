//! Verified core of a Mermaid-style diagram layout library.

pub mod sequence;
pub mod text;
pub mod layered;
pub mod grid;
pub mod contracts;
pub mod commands;
pub mod document;
pub mod json;
