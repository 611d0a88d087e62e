//! Engine-side solve contracts.

use vstd::prelude::*;

verus! {

/// How the engine should handle subgraph directions that are not explicitly set.
#[derive(Debug, Clone, Copy, PartialEq, Eq, Structural)]
pub enum SubgraphDirectionPolicy {
    /// Alternate subgraph direction axes (TD and LR). Matches Mermaid flowchart behavior.
    AlternateAxes,
    /// Preserve declared directions; no automatic alternation.
    Preserve,
}

impl Default for SubgraphDirectionPolicy {
    fn default() -> (r: Self)
        ensures
            r == SubgraphDirectionPolicy::AlternateAxes,
    {
        SubgraphDirectionPolicy::AlternateAxes
    }
}

/// Float-geometry contract requested from the engine.
#[derive(Debug, Clone, Copy, PartialEq, Eq, Structural)]
pub enum GraphGeometryContract {
    /// Plain float geometry for downstream routing/export.
    Canonical,
    /// Float geometry tuned for direct visual emission.
    Visual,
}

} // verus!
