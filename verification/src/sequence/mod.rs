//! Sequence diagrams: statements, the compiled model and the compiler.

pub mod compiler;
pub mod errors;
pub mod instance;
pub mod model;
