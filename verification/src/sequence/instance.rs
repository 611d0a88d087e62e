//! Sequence diagram instance.

use vstd::prelude::*;

verus! {

/// Handle for the sequence diagram type; it carries no state.
#[derive(Debug, Default, Clone, Copy, PartialEq, Eq, Structural)]
pub struct SequenceInstance;

impl SequenceInstance {
    /// Create a new sequence diagram instance.
    pub fn new() -> (r: Self)
        ensures
            r == SequenceInstance,
    {
        SequenceInstance
    }
}

} // verus!
