use mmdflux::commands::{Arrow, CommandApplyError, EdgeSelector, Stroke};
use mmdflux::contracts::{GraphGeometryContract, SubgraphDirectionPolicy};
use mmdflux::layered::graph::AcyclicPolicy;

#[test]
fn subgraph_direction_policy_defaults_to_alternating_axes() {
    assert_eq!(SubgraphDirectionPolicy::default(), SubgraphDirectionPolicy::AlternateAxes);
    assert_ne!(GraphGeometryContract::Canonical, GraphGeometryContract::Visual);
}

#[test]
fn acyclic_policy_default_is_semantic_compound_feedback() {
    assert_eq!(AcyclicPolicy::default_policy(), AcyclicPolicy::SemanticCompoundFeedback);
}

#[test]
fn edge_selectors_compare_by_value() {
    let semantic = EdgeSelector::Semantic {
        source: "A".to_string(),
        target: "B".to_string(),
        label: None,
        stroke: Some(Stroke::Dashed),
        arrow_start: Some(Arrow::NoHead),
        arrow_end: Some(Arrow::Normal),
        minlen: Some(2),
    };
    let error = CommandApplyError::EdgeSelectorAmbiguous {
        selector: Box::new(semantic.clone()),
        matches: vec!["e0".to_string(), "e1".to_string()],
    };
    assert_eq!(error.clone(), error);
    assert_ne!(semantic, EdgeSelector::Id("e0".to_string()));
}
