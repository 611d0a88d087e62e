use mmdflux::commands::{
    commit_relayout, plan_command, resolve_edge_index, resolve_new_edge_id, semantic_selector_matches, Arrow, Command,
    CommandApplyError, CommandStep, EdgeSelector, ModelEvent, ModelEventKind, Stroke, Subject,
};
use mmdflux::document::{DocEdge, DocModel, DocNode, DocSubgraph};
use mmdflux::json::{extension_payload, store_node_style, JsonObject};
use serde_json::Value;

fn node(id: &str, parent: Option<&str>) -> DocNode {
    DocNode {
        id: id.to_string(),
        label: id.to_string(),
        shape: "rectangle".to_string(),
        parent: parent.map(|p| p.to_string()),
    }
}

fn edge(id: &str, source: &str, target: &str, label: Option<&str>) -> DocEdge {
    DocEdge {
        id: id.to_string(),
        source: source.to_string(),
        target: target.to_string(),
        from_subgraph: None,
        to_subgraph: None,
        label: label.map(|l| l.to_string()),
        stroke: Stroke::Solid,
        arrow_start: Arrow::NoHead,
        arrow_end: Arrow::Normal,
        minlen: 1,
    }
}

fn subgraph(id: &str, children: &[&str]) -> DocSubgraph {
    DocSubgraph {
        id: id.to_string(),
        title: id.to_string(),
        children: children.iter().map(|c| c.to_string()).collect(),
        parent: None,
        direction: None,
        invisible: false,
        concurrent_regions: Vec::new(),
    }
}

/// A -> B twice (parallel, labelled "x" and "y"), B -> C; A and B in S.
fn sample() -> DocModel {
    DocModel {
        nodes: vec![node("A", Some("S")), node("B", Some("S")), node("C", None)],
        edges: vec![edge("e0", "A", "B", Some("x")), edge("e1", "A", "B", Some("y")), edge("e2", "B", "C", None)],
        subgraphs: vec![subgraph("S", &["A", "B"]), subgraph("T", &[])],
        geometry_level: "layout".to_string(),
        direction: "TD".to_string(),
        engine: None,
        profiles: Vec::new(),
    }
}

fn semantic(source: &str, target: &str, label: Option<&str>) -> EdgeSelector {
    EdgeSelector::Semantic {
        source: source.to_string(),
        target: target.to_string(),
        label: label.map(|l| l.to_string()),
        stroke: None,
        arrow_start: None,
        arrow_end: None,
        minlen: None,
    }
}

fn relayout_candidate(step: CommandStep) -> (DocModel, ModelEvent) {
    match step {
        CommandStep::Relayout { candidate, event } => (candidate, event),
        other => panic!("expected a relayout step, got {:?}", other),
    }
}

#[test]
fn new_edge_id_defaults_to_next_dense_id() {
    let doc = sample();
    assert_eq!(resolve_new_edge_id(&doc, None), Ok("e3".to_string()));
    assert_eq!(resolve_new_edge_id(&doc, Some(&"e3".to_string())), Ok("e3".to_string()));
}

#[test]
fn new_edge_id_collision_is_checked_before_density() {
    let doc = sample();
    assert_eq!(
        resolve_new_edge_id(&doc, Some(&"e1".to_string())),
        Err(CommandApplyError::AddEdgeIdCollision { id: "e1".to_string() })
    );
    assert_eq!(
        resolve_new_edge_id(&doc, Some(&"custom".to_string())),
        Err(CommandApplyError::AddEdgeIdUnsupported { id: "custom".to_string(), expected: "e3".to_string() })
    );
}

#[test]
fn id_selector_picks_the_edge_with_that_id() {
    let doc = sample();
    assert_eq!(resolve_edge_index(&doc, &EdgeSelector::Id("e2".to_string())), Ok(2));
    let missing = EdgeSelector::Id("e9".to_string());
    assert_eq!(
        resolve_edge_index(&doc, &missing),
        Err(CommandApplyError::EdgeSelectorNoMatch { selector: Box::new(missing.clone()) })
    );
}

#[test]
fn semantic_selector_reports_ambiguity_with_ids_in_order() {
    let doc = sample();
    let sel = semantic("A", "B", None);
    assert_eq!(
        resolve_edge_index(&doc, &sel),
        Err(CommandApplyError::EdgeSelectorAmbiguous {
            selector: Box::new(sel.clone()),
            matches: vec!["e0".to_string(), "e1".to_string()],
        })
    );
    assert_eq!(resolve_edge_index(&doc, &semantic("A", "B", Some("y"))), Ok(1));
    let none = semantic("C", "A", None);
    assert_eq!(
        resolve_edge_index(&doc, &none),
        Err(CommandApplyError::EdgeSelectorNoMatch { selector: Box::new(none.clone()) })
    );
}

#[test]
fn semantic_match_checks_named_attributes_only() {
    let e = edge("e0", "A", "B", Some("x"));
    assert!(semantic_selector_matches(&e, &semantic("A", "B", None)));
    assert!(!semantic_selector_matches(&e, &semantic("A", "B", Some("z"))));
    assert!(!semantic_selector_matches(&e, &EdgeSelector::Id("e0".to_string())));
    let styled = EdgeSelector::Semantic {
        source: "A".to_string(),
        target: "B".to_string(),
        label: None,
        stroke: Some(Stroke::Dotted),
        arrow_start: None,
        arrow_end: None,
        minlen: None,
    };
    assert!(!semantic_selector_matches(&e, &styled));
}

#[test]
fn add_edge_appends_with_dense_id() {
    let doc = sample();
    let cmd = Command::AddEdge {
        id: None,
        source: "C".to_string(),
        target: "A".to_string(),
        from_subgraph: None,
        to_subgraph: None,
        label: None,
        stroke: Stroke::Dashed,
        arrow_start: Arrow::NoHead,
        arrow_end: Arrow::Normal,
        minlen: 2,
    };
    let (candidate, event) = relayout_candidate(plan_command(&cmd, &doc).unwrap());
    assert_eq!(candidate.edges.len(), 4);
    assert_eq!(candidate.edges[3].id, "e3");
    assert_eq!(candidate.edges[3].stroke, Stroke::Dashed);
    assert_eq!(event, ModelEvent { kind: ModelEventKind::EdgeAdded, subject: Subject::Edge("e3".to_string()) });
}

#[test]
fn add_edge_with_unknown_endpoint_fails() {
    let doc = sample();
    let cmd = Command::AddEdge {
        id: None,
        source: "Z".to_string(),
        target: "A".to_string(),
        from_subgraph: None,
        to_subgraph: None,
        label: None,
        stroke: Stroke::Solid,
        arrow_start: Arrow::NoHead,
        arrow_end: Arrow::Normal,
        minlen: 1,
    };
    assert_eq!(plan_command(&cmd, &doc).unwrap_err(), CommandApplyError::NodeNotFound { id: "Z".to_string() });
}

#[test]
fn remove_node_drops_its_edges_and_memberships() {
    let doc = sample();
    let (candidate, event) =
        relayout_candidate(plan_command(&Command::RemoveNode { id: "B".to_string() }, &doc).unwrap());
    assert_eq!(candidate.nodes.iter().map(|n| n.id.as_str()).collect::<Vec<_>>(), vec!["A", "C"]);
    assert!(candidate.edges.is_empty());
    assert_eq!(candidate.subgraphs[0].children, vec!["A".to_string()]);
    assert_eq!(event, ModelEvent { kind: ModelEventKind::NodeRemoved, subject: Subject::Node("B".to_string()) });
}

#[test]
fn add_node_rejects_existing_id_and_unknown_parent() {
    let doc = sample();
    let dup = Command::AddNode { id: "A".to_string(), label: "A".to_string(), shape: "rectangle".to_string(), parent: None };
    assert_eq!(
        plan_command(&dup, &doc).unwrap_err(),
        CommandApplyError::SubjectAlreadyExists { id: "A".to_string() }
    );
    let orphan = Command::AddNode {
        id: "D".to_string(),
        label: "D".to_string(),
        shape: "rectangle".to_string(),
        parent: Some("Q".to_string()),
    };
    assert_eq!(plan_command(&orphan, &doc).unwrap_err(), CommandApplyError::SubgraphNotFound { id: "Q".to_string() });
}

#[test]
fn add_subgraph_adopts_children_and_regions() {
    let doc = sample();
    let cmd = Command::AddSubgraph {
        id: "U".to_string(),
        title: None,
        parent: None,
        direction: Some("LR".to_string()),
        children: vec!["C".to_string()],
        concurrent_regions: vec!["T".to_string()],
        invisible: false,
    };
    let (candidate, _) = relayout_candidate(plan_command(&cmd, &doc).unwrap());
    let u = candidate.subgraphs.iter().find(|s| s.id == "U").unwrap();
    assert_eq!(u.title, "U");
    assert_eq!(u.children, vec!["C".to_string()]);
    assert_eq!(candidate.nodes[2].parent, Some("U".to_string()));
    assert_eq!(candidate.subgraphs[1].parent, Some("U".to_string()));
}

#[test]
fn change_subgraph_title_commits_without_relayout() {
    let doc = sample();
    let step = plan_command(&Command::ChangeSubgraphTitle { subgraph: "S".to_string(), title: None }, &doc).unwrap();
    match step {
        CommandStep::Commit { doc: next, event } => {
            assert_eq!(next.subgraphs[0].title, "S");
            assert_eq!(
                event,
                ModelEvent { kind: ModelEventKind::SubgraphTitleChanged, subject: Subject::Subgraph("S".to_string()) }
            );
        },
        other => panic!("expected a commit, got {:?}", other),
    }
}

#[test]
fn membership_change_moves_children() {
    let doc = sample();
    let cmd = Command::ChangeSubgraphMembership {
        subgraph: "S".to_string(),
        added_children: vec!["C".to_string()],
        removed_children: vec!["A".to_string()],
        added_concurrent_regions: vec!["T".to_string()],
        removed_concurrent_regions: Vec::new(),
    };
    let (candidate, _) = relayout_candidate(plan_command(&cmd, &doc).unwrap());
    assert_eq!(candidate.nodes[0].parent, None);
    assert_eq!(candidate.subgraphs[0].children, vec!["B".to_string(), "C".to_string()]);
    assert_eq!(candidate.subgraphs[0].concurrent_regions, vec!["T".to_string()]);
    assert_eq!(candidate.subgraphs[1].parent, Some("S".to_string()));
}

#[test]
fn remove_subgraph_orphans_its_nodes() {
    let doc = sample();
    let (candidate, _) =
        relayout_candidate(plan_command(&Command::RemoveSubgraph { id: "S".to_string() }, &doc).unwrap());
    assert_eq!(candidate.subgraphs.len(), 1);
    assert!(candidate.nodes.iter().all(|n| n.parent.is_none()));
}

#[test]
fn change_edge_style_sets_only_given_fields() {
    let doc = sample();
    let cmd = Command::ChangeEdgeStyle {
        edge: EdgeSelector::Id("e2".to_string()),
        stroke: Some(Stroke::Dotted),
        arrow_start: None,
        arrow_end: None,
        minlen: Some(3),
    };
    let (candidate, event) = relayout_candidate(plan_command(&cmd, &doc).unwrap());
    assert_eq!(candidate.edges[2].stroke, Stroke::Dotted);
    assert_eq!(candidate.edges[2].arrow_end, Arrow::Normal);
    assert_eq!(candidate.edges[2].minlen, 3);
    assert_eq!(event, ModelEvent { kind: ModelEventKind::EdgeStyleChanged, subject: Subject::Edge("e2".to_string()) });
}

#[test]
fn extension_commands_store_values() {
    let doc = sample();
    let cmd = Command::SetExtension { namespace: "ns".to_string(), value: serde_json::Value::Bool(true) };
    match plan_command(&cmd, &doc).unwrap() {
        CommandStep::StoreExtension { namespace, payload, event } => {
            assert_eq!(namespace, "ns");
            assert_eq!(payload.get("value"), Some(&serde_json::Value::Bool(true)));
            assert_eq!(payload.len(), 1);
            assert_eq!(event.kind, ModelEventKind::ExtensionChanged);
        },
        other => panic!("expected an extension step, got {:?}", other),
    }
    let style = Command::SetNodeStyleExtension { node: "Q".to_string(), value: serde_json::Value::Null };
    assert_eq!(plan_command(&style, &doc).unwrap_err(), CommandApplyError::NodeNotFound { id: "Q".to_string() });
}

#[test]
fn failed_relayout_leaves_document_unchanged() {
    let mut doc = sample();
    let before = doc.clone();
    let event = ModelEvent { kind: ModelEventKind::DirectionChanged, subject: Subject::Document };
    let failure = CommandApplyError::RelayoutFailed { stage: "solve-render".to_string(), message: "boom".to_string() };
    assert_eq!(commit_relayout(&mut doc, Err(failure.clone()), event.clone()), Err(failure));
    assert_eq!(doc, before);
    let mut next = sample();
    next.direction = "LR".to_string();
    assert_eq!(commit_relayout(&mut doc, Ok(next.clone()), event.clone()), Ok(vec![event]));
    assert_eq!(doc, next);
}

#[test]
fn extension_payload_keeps_objects_and_wraps_other_values() {
    let mut object = JsonObject::new();
    object.insert("color".to_string(), Value::String("red".to_string()));
    assert_eq!(extension_payload(Value::Object(object.clone())), object);
    let wrapped = extension_payload(Value::Bool(false));
    assert_eq!(wrapped.len(), 1);
    assert_eq!(wrapped.get("value"), Some(&Value::Bool(false)));
}

#[test]
fn node_style_merges_into_existing_nodes_object() {
    let mut ext = JsonObject::new();
    let mut nodes = JsonObject::new();
    nodes.insert("A".to_string(), Value::Bool(true));
    ext.insert("nodes".to_string(), Value::Object(nodes));
    ext.insert("other".to_string(), Value::Null);
    store_node_style(&mut ext, &"B".to_string(), Value::Bool(false));
    let stored = ext.get("nodes").and_then(|v| v.as_object()).unwrap();
    assert_eq!(stored.get("A"), Some(&Value::Bool(true)));
    assert_eq!(stored.get("B"), Some(&Value::Bool(false)));
    assert_eq!(ext.get("other"), Some(&Value::Null));
}

#[test]
fn node_style_replaces_a_non_object_nodes_entry() {
    let mut ext = JsonObject::new();
    ext.insert("nodes".to_string(), Value::Bool(true));
    store_node_style(&mut ext, &"B".to_string(), Value::Null);
    let stored = ext.get("nodes").and_then(|v| v.as_object()).unwrap();
    assert_eq!(stored.len(), 1);
    assert_eq!(stored.get("B"), Some(&Value::Null));
}

#[test]
fn node_style_plan_carries_the_value() {
    let doc = sample();
    let cmd = Command::SetNodeStyleExtension { node: "A".to_string(), value: Value::Bool(true) };
    match plan_command(&cmd, &doc).unwrap() {
        CommandStep::StoreNodeStyle { node, value, event } => {
            assert_eq!(node, "A");
            assert_eq!(value, Value::Bool(true));
            assert_eq!(event, ModelEvent { kind: ModelEventKind::NodeStyleChanged, subject: Subject::Node("A".to_string()) });
        },
        other => panic!("expected a node style step, got {:?}", other),
    }
}
