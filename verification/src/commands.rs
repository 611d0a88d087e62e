//! Commands on an MMDS document: their vocabulary, how each is checked
//! against the document, and what it changes.
//!
//! A command is planned against the document's semantic model. Planning
//! either fails with a `CommandApplyError` and changes nothing, or yields a
//! step: a document to commit as it is, a candidate document to relayout and
//! then commit, or an extension value to store. Edge commands select edges by
//! id or semantically; a semantic selector that matches several edges is an
//! error that lists the matches. New edges get the next dense id `e{count}`.

use vstd::prelude::*;

use crate::document::{
    lemma_release_children_keeps_names, lemma_same_names_same_positions, lemma_with_node_parents,
    lemma_with_subgraph_parents_keeps, names,
    lemma_first_where_at, lemma_first_where_none, adopt_regions, adopt_subgraph_regions, copy_opt, copy_strings, edge_pos, find_edge, find_node, find_subgraph,
    edge_named, first_where, lemma_first_where, node_absent, node_named, node_pos, release_children, release_node_children,
    release_regions, release_subgraph_regions, remove_node, remove_subgraph, set_node_parents,
    set_subgraph_parents, subgraph_absent, subgraph_pos, sync_subgraph_children_from_node_parents,
    synced, with_edges, with_node_parents, with_nodes, with_subgraph_parents, with_subgraphs, without_node,
    without_subgraph, DocEdge, DocModel, DocNode, DocSubgraph, DocView, SubgraphView,
};
use crate::json::{extension_payload, json_clone, json_object_entries, object_in, JsonObject};
use crate::text::{decimal, usize_to_decimal};

verus! {

/// Line style of an edge.
#[derive(Debug, Clone, Copy, PartialEq, Eq, Structural)]
pub enum Stroke {
    Solid,
    Dotted,
    Dashed,
    Invisible,
}

/// Arrowhead at one end of an edge.
#[derive(Debug, Clone, Copy, PartialEq, Eq, Structural)]
pub enum Arrow {
    NoHead,
    Normal,
    Circle,
    Diamond,
}

/// Selector used by commands that operate on an existing edge.
///
/// `Id` selects by stable edge id; `Semantic` selects by source, target and
/// optional edge attributes, and is ambiguous when parallel edges match.
#[derive(Debug, Clone, PartialEq, Eq)]
pub enum EdgeSelector {
    Id(String),
    Semantic {
        source: String,
        target: String,
        label: Option<String>,
        stroke: Option<Stroke>,
        arrow_start: Option<Arrow>,
        arrow_end: Option<Arrow>,
        minlen: Option<i32>,
    },
}

/// Structured failures produced while applying a command.
///
/// Planning a command that fails leaves the document as it was.
#[derive(Debug, Clone, PartialEq, Eq)]
pub enum CommandApplyError {
    NodeNotFound { id: String },
    SubgraphNotFound { id: String },
    SubjectAlreadyExists { id: String },
    EdgeSelectorNoMatch { selector: Box<EdgeSelector> },
    EdgeSelectorAmbiguous { selector: Box<EdgeSelector>, matches: Vec<String> },
    AddEdgeIdCollision { id: String },
    AddEdgeIdUnsupported { id: String, expected: String },
    RelayoutFailed { stage: String, message: String },
}



/// A failure with its strings taken as text.
pub enum ErrView {
    NodeNotFound(Seq<char>),
    SubgraphNotFound(Seq<char>),
    SubjectAlreadyExists(Seq<char>),
    EdgeSelectorNoMatch(EdgeSelector),
    EdgeSelectorAmbiguous(EdgeSelector, Seq<Seq<char>>),
    AddEdgeIdCollision(Seq<char>),
    AddEdgeIdUnsupported(Seq<char>, Seq<char>),
    RelayoutFailed(Seq<char>, Seq<char>),
}

impl View for CommandApplyError {
    type V = ErrView;

    open spec fn view(&self) -> ErrView {
        match self {
            CommandApplyError::NodeNotFound { id } => ErrView::NodeNotFound(id@),
            CommandApplyError::SubgraphNotFound { id } => ErrView::SubgraphNotFound(id@),
            CommandApplyError::SubjectAlreadyExists { id } => ErrView::SubjectAlreadyExists(id@),
            CommandApplyError::EdgeSelectorNoMatch { selector } => ErrView::EdgeSelectorNoMatch(**selector),
            CommandApplyError::EdgeSelectorAmbiguous { selector, matches } => ErrView::EdgeSelectorAmbiguous(
                **selector,
                matches@.map_values(|m: String| m@),
            ),
            CommandApplyError::AddEdgeIdCollision { id } => ErrView::AddEdgeIdCollision(id@),
            CommandApplyError::AddEdgeIdUnsupported { id, expected } => ErrView::AddEdgeIdUnsupported(
                id@,
                expected@,
            ),
            CommandApplyError::RelayoutFailed { stage, message } => ErrView::RelayoutFailed(stage@, message@),
        }
    }
}

/// A copy of `s`.
pub fn copy_selector(s: &EdgeSelector) -> (r: EdgeSelector)
    ensures
        r == *s,
{
    match s {
        EdgeSelector::Id(id) => EdgeSelector::Id(id.clone()),
        EdgeSelector::Semantic { source, target, label, stroke, arrow_start, arrow_end, minlen } => {
            EdgeSelector::Semantic {
                source: source.clone(),
                target: target.clone(),
                label: copy_opt(label),
                stroke: *stroke,
                arrow_start: *arrow_start,
                arrow_end: *arrow_end,
                minlen: *minlen,
            }
        },
    }
}

/// `edge` satisfies the semantic selector `sel`: same endpoints, and every
/// attribute the selector names has the selector's value. An id selector
/// matches no edge here.
pub open spec fn spec_semantic_match(edge: DocEdge, sel: EdgeSelector) -> bool {
    match sel {
        EdgeSelector::Id(_) => false,
        EdgeSelector::Semantic { source, target, label, stroke, arrow_start, arrow_end, minlen } => {
            &&& edge.source@ == source@
            &&& edge.target@ == target@
            &&& (label matches Some(l) ==> (edge.label matches Some(el) && el@ == l@))
            &&& (stroke matches Some(x) ==> edge.stroke == x)
            &&& (arrow_start matches Some(x) ==> edge.arrow_start == x)
            &&& (arrow_end matches Some(x) ==> edge.arrow_end == x)
            &&& (minlen matches Some(x) ==> edge.minlen == x)
        },
    }
}

/// Whether `edge` satisfies the semantic selector `selector`.
pub fn semantic_selector_matches(edge: &DocEdge, selector: &EdgeSelector) -> (r: bool)
    ensures
        r == spec_semantic_match(*edge, *selector),
{
    match selector {
        EdgeSelector::Id(_) => false,
        EdgeSelector::Semantic { source, target, label, stroke, arrow_start, arrow_end, minlen } => {
            let label_ok = match label {
                Some(expected) => match &edge.label {
                    Some(actual) => *actual == *expected,
                    None => false,
                },
                None => true,
            };
            let stroke_ok = match stroke {
                Some(expected) => edge.stroke == *expected,
                None => true,
            };
            let start_ok = match arrow_start {
                Some(expected) => edge.arrow_start == *expected,
                None => true,
            };
            let end_ok = match arrow_end {
                Some(expected) => edge.arrow_end == *expected,
                None => true,
            };
            let minlen_ok = match minlen {
                Some(expected) => edge.minlen == *expected,
                None => true,
            };
            edge.source == *source && edge.target == *target && label_ok && stroke_ok && start_ok && end_ok
                && minlen_ok
        },
    }
}

/// Positions among the first `k` edges that satisfy `sel`, increasing.
pub open spec fn matches_upto(edges: Seq<DocEdge>, sel: EdgeSelector, k: nat) -> Seq<int>
    decreases k,
{
    if k == 0 {
        Seq::empty()
    } else if spec_semantic_match(edges[k - 1], sel) {
        matches_upto(edges, sel, (k - 1) as nat).push(k - 1)
    } else {
        matches_upto(edges, sel, (k - 1) as nat)
    }
}

/// Which edge `sel` selects in `d`: by id, the first edge with that id; by
/// semantics, the only matching edge, an ambiguity listing the ids of all
/// matches in order, or no match.
pub open spec fn spec_resolve_edge(d: DocView, sel: EdgeSelector) -> Result<int, ErrView> {
    match sel {
        EdgeSelector::Id(id) => match edge_pos(d, id@) {
            Some(i) => Ok(i),
            None => Err(ErrView::EdgeSelectorNoMatch(sel)),
        },
        EdgeSelector::Semantic { .. } => {
            let ms = matches_upto(d.edges, sel, d.edges.len());
            if ms.len() == 0 {
                Err(ErrView::EdgeSelectorNoMatch(sel))
            } else if ms.len() == 1 {
                Ok(ms[0])
            } else {
                Err(ErrView::EdgeSelectorAmbiguous(sel, ms.map_values(|i: int| d.edges[i].id@)))
            }
        },
    }
}

/// Resolve `selector` to the position of the edge it selects.
pub fn resolve_edge_index(doc: &DocModel, selector: &EdgeSelector) -> (r: Result<usize, CommandApplyError>)
    ensures
        match r {
            Ok(i) => i < doc.edges.len() && spec_resolve_edge(doc@, *selector) == Ok::<int, ErrView>(i as int),
            Err(e) => spec_resolve_edge(doc@, *selector) == Err::<int, ErrView>(e@),
        },
{
    match selector {
        EdgeSelector::Id(id) => match find_edge(doc, id) {
            Some(i) => Ok(i),
            None => Err(CommandApplyError::EdgeSelectorNoMatch { selector: Box::new(copy_selector(selector)) }),
        },
        EdgeSelector::Semantic { .. } => {
            let mut matches: Vec<usize> = Vec::new();
            let mut i: usize = 0;
            while i < doc.edges.len()
                invariant
                    i <= doc.edges.len(),
                    matches@.len() == matches_upto(doc@.edges, *selector, i as nat).len(),
                    forall|j: int|
                        0 <= j < matches@.len() ==> #[trigger] matches@[j] as int == matches_upto(
                            doc@.edges,
                            *selector,
                            i as nat,
                        )[j],
                    forall|j: int| 0 <= j < matches@.len() ==> #[trigger] matches@[j] < i,
                decreases doc.edges.len() - i,
            {
                if semantic_selector_matches(&doc.edges[i], selector) {
                    matches.push(i);
                }
                i = i + 1;
            }
            let ghost ms = matches_upto(doc@.edges, *selector, doc@.edges.len());
            if matches.len() == 0 {
                Err(CommandApplyError::EdgeSelectorNoMatch { selector: Box::new(copy_selector(selector)) })
            } else if matches.len() == 1 {
                Ok(matches[0])
            } else {
                let mut ids: Vec<String> = Vec::new();
                let mut k: usize = 0;
                while k < matches.len()
                    invariant
                        k <= matches@.len(),
                        matches@.len() == ms.len(),
                        forall|j: int| 0 <= j < matches@.len() ==> #[trigger] matches@[j] as int == ms[j],
                        forall|j: int| 0 <= j < matches@.len() ==> #[trigger] matches@[j] < doc.edges.len(),
                        ids@.len() == k,
                        forall|j: int| 0 <= j < k ==> (#[trigger] ids@[j])@ == doc@.edges[ms[j]].id@,
                    decreases matches@.len() - k,
                {
                    ids.push(doc.edges[matches[k]].id.clone());
                    k = k + 1;
                }
                let err = CommandApplyError::EdgeSelectorAmbiguous {
                    selector: Box::new(copy_selector(selector)),
                    matches: ids,
                };
                proof {
                    assert(ids@.map_values(|m: String| m@) =~= ms.map_values(|i: int| doc@.edges[i].id@));
                }
                Err(err)
            }
        },
    }
}

/// The text of the next dense edge id of `d`: `e` followed by the edge count.
pub open spec fn next_edge_id(d: DocView) -> Seq<char> {
    "e"@ + decimal(d.edges.len())
}

/// Whether the id `requested` may name a new edge of `d`: none requested
/// means the next dense id; an id already in use collides (checked first);
/// any id other than the next dense one is unsupported.
pub open spec fn spec_new_edge_id(d: DocView, requested: Option<String>) -> Result<Seq<char>, ErrView> {
    match requested {
        None => Ok(next_edge_id(d)),
        Some(id) => if edge_pos(d, id@) is Some {
            Err(ErrView::AddEdgeIdCollision(id@))
        } else if id@ == next_edge_id(d) {
            Ok(next_edge_id(d))
        } else {
            Err(ErrView::AddEdgeIdUnsupported(id@, next_edge_id(d)))
        },
    }
}

/// The string `o` refers to, if any.
pub open spec fn owned(o: Option<&String>) -> Option<String> {
    match o {
        Some(s) => Some(*s),
        None => None,
    }
}

/// The id for a new edge of `doc`, or why `requested` cannot be it.
pub fn resolve_new_edge_id(doc: &DocModel, requested: Option<&String>) -> (r: Result<String, CommandApplyError>)
    ensures
        match r {
            Ok(id) => spec_new_edge_id(doc@, owned(requested)) == Ok::<Seq<char>, ErrView>(id@),
            Err(e) => spec_new_edge_id(doc@, owned(requested)) == Err::<Seq<char>, ErrView>(e@),
        },
{
    proof {
        reveal_strlit("e");
    }
    let expected = String::from_str("e").concat(usize_to_decimal(doc.edges.len()).as_str());
    match requested {
        None => Ok(expected),
        Some(id) => {
            if find_edge(doc, id).is_some() {
                Err(CommandApplyError::AddEdgeIdCollision { id: id.clone() })
            } else if *id == expected {
                Ok(expected)
            } else {
                Err(CommandApplyError::AddEdgeIdUnsupported { id: id.clone(), expected })
            }
        },
    }
}

/// Position of the first node named `id`, or `NodeNotFound`.
pub fn node_index(doc: &DocModel, id: &String) -> (r: Result<usize, CommandApplyError>)
    ensures
        match node_pos(doc@, id@) {
            Some(i) => r == Ok::<usize, CommandApplyError>(i as usize) && i < doc.nodes.len(),
            None => r == Err::<usize, CommandApplyError>(CommandApplyError::NodeNotFound { id: *id }),
        },
        r matches Ok(i) ==> i < doc.nodes.len() && node_pos(doc@, id@) == Some(i as int),
{
    match find_node(doc, id) {
        Some(i) => Ok(i),
        None => Err(CommandApplyError::NodeNotFound { id: id.clone() }),
    }
}

/// Position of the first subgraph named `id`, or `SubgraphNotFound`.
pub fn subgraph_index(doc: &DocModel, id: &String) -> (r: Result<usize, CommandApplyError>)
    ensures
        match subgraph_pos(doc@, id@) {
            Some(i) => r == Ok::<usize, CommandApplyError>(i as usize) && i < doc.subgraphs.len(),
            None => r == Err::<usize, CommandApplyError>(CommandApplyError::SubgraphNotFound { id: *id }),
        },
        r matches Ok(i) ==> i < doc.subgraphs.len() && subgraph_pos(doc@, id@) == Some(i as int),
{
    match find_subgraph(doc, id) {
        Some(i) => Ok(i),
        None => Err(CommandApplyError::SubgraphNotFound { id: id.clone() }),
    }
}

/// Command vocabulary for document edits. Node shapes, layout directions and
/// geometry levels are given as their MMDS tokens.
#[derive(Debug)]
pub enum Command {
    SetGeometryLevel { level: String },
    SetDirection { direction: String },
    SetEngine { engine: Option<String> },
    AddNode { id: String, label: String, shape: String, parent: Option<String> },
    RemoveNode { id: String },
    ChangeNodeLabel { node: String, label: String },
    ChangeNodeShape { node: String, shape: String },
    SetNodeParent { node: String, parent: Option<String> },
    SetNodeStyleExtension { node: String, value: serde_json::Value },
    SetProfiles { profiles: Vec<String> },
    SetExtension { namespace: String, value: serde_json::Value },
    AddEdge {
        id: Option<String>,
        source: String,
        target: String,
        from_subgraph: Option<String>,
        to_subgraph: Option<String>,
        label: Option<String>,
        stroke: Stroke,
        arrow_start: Arrow,
        arrow_end: Arrow,
        minlen: i32,
    },
    RemoveEdge { edge: EdgeSelector },
    ReconnectEdge { edge: EdgeSelector, source: String, target: String },
    SetEdgeEndpointIntent { edge: EdgeSelector, from_subgraph: Option<String>, to_subgraph: Option<String> },
    ChangeEdgeLabel { edge: EdgeSelector, label: Option<String> },
    ChangeEdgeStyle {
        edge: EdgeSelector,
        stroke: Option<Stroke>,
        arrow_start: Option<Arrow>,
        arrow_end: Option<Arrow>,
        minlen: Option<i32>,
    },
    AddSubgraph {
        id: String,
        title: Option<String>,
        parent: Option<String>,
        direction: Option<String>,
        children: Vec<String>,
        concurrent_regions: Vec<String>,
        invisible: bool,
    },
    RemoveSubgraph { id: String },
    ChangeSubgraphTitle { subgraph: String, title: Option<String> },
    SetSubgraphDirection { subgraph: String, direction: Option<String> },
    SetSubgraphParent { subgraph: String, parent: Option<String> },
    ChangeSubgraphMembership {
        subgraph: String,
        added_children: Vec<String>,
        removed_children: Vec<String>,
        added_concurrent_regions: Vec<String>,
        removed_concurrent_regions: Vec<String>,
    },
    SetSubgraphVisibility { subgraph: String, invisible: bool },
}

/// What an accepted command changed in the model.
#[derive(Debug, Clone, Copy, PartialEq, Eq, Structural)]
pub enum ModelEventKind {
    GeometryLevelChanged,
    DirectionChanged,
    EngineChanged,
    NodeAdded,
    NodeRemoved,
    EdgeAdded,
    EdgeRemoved,
    SubgraphAdded,
    SubgraphRemoved,
    NodeLabelChanged,
    NodeShapeChanged,
    NodeParentChanged,
    NodeStyleChanged,
    EdgeReconnected,
    EdgeEndpointIntentChanged,
    EdgeLabelChanged,
    EdgeStyleChanged,
    SubgraphTitleChanged,
    SubgraphDirectionChanged,
    SubgraphParentChanged,
    SubgraphMembershipChanged,
    SubgraphVisibilityChanged,
    ProfileChanged,
    ExtensionChanged,
}

/// What a model event is about.
#[derive(Debug, Clone, PartialEq, Eq)]
pub enum Subject {
    Document,
    Node(String),
    Edge(String),
    Subgraph(String),
}

/// One accepted model mutation.
#[derive(Debug, Clone, PartialEq, Eq)]
pub struct ModelEvent {
    pub kind: ModelEventKind,
    pub subject: Subject,
}

/// What to do with a document once a command is accepted.
#[derive(Debug)]
pub enum CommandStep {
    /// Replace the document with `doc`; no relayout.
    Commit { doc: DocModel, event: ModelEvent },
    /// Relayout `candidate`; commit the result, or keep the document as it
    /// was when relayout fails.
    Relayout { candidate: DocModel, event: ModelEvent },
    /// Store `payload` as extension `namespace`: the command's value when it
    /// is an object, otherwise an object holding it under the key `"value"`.
    StoreExtension { namespace: String, payload: JsonObject, event: ModelEvent },
    /// Store `value` as the style of node `node` in the node-style extension
    /// (see `store_node_style`).
    StoreNodeStyle { node: String, value: serde_json::Value, event: ModelEvent },
}

/// Mathematical form of a step.
pub enum StepView {
    Commit(DocView, ModelEvent),
    Relayout(DocView, ModelEvent),
    StoreExtension(Seq<char>, Map<Seq<char>, serde_json::Value>, ModelEvent),
    StoreNodeStyle(Seq<char>, serde_json::Value, ModelEvent),
}

impl View for CommandStep {
    type V = StepView;

    open spec fn view(&self) -> StepView {
        match self {
            CommandStep::Commit { doc, event } => StepView::Commit(doc@, *event),
            CommandStep::Relayout { candidate, event } => StepView::Relayout(candidate@, *event),
            CommandStep::StoreExtension { namespace, payload, event } => StepView::StoreExtension(
                namespace@,
                json_object_entries(*payload),
                *event,
            ),
            CommandStep::StoreNodeStyle { node, value, event } => StepView::StoreNodeStyle(node@, *value, *event),
        }
    }
}

/// An event about the whole document.
pub open spec fn doc_event_of(kind: ModelEventKind) -> ModelEvent {
    ModelEvent { kind, subject: Subject::Document }
}

/// An event about node `id`.
pub open spec fn node_event_of(kind: ModelEventKind, id: String) -> ModelEvent {
    ModelEvent { kind, subject: Subject::Node(id) }
}

/// An event about edge `id`.
pub open spec fn edge_event_of(kind: ModelEventKind, id: String) -> ModelEvent {
    ModelEvent { kind, subject: Subject::Edge(id) }
}

/// An event about subgraph `id`.
pub open spec fn subgraph_event_of(kind: ModelEventKind, id: String) -> ModelEvent {
    ModelEvent { kind, subject: Subject::Subgraph(id) }
}

/// The subgraph `AddSubgraph` creates, before its children and regions are
/// attached.
pub open spec fn new_subgraph(
    id: String,
    title: Option<String>,
    parent: Option<String>,
    direction: Option<String>,
    regions: Seq<String>,
    invisible: bool,
) -> SubgraphView {
    SubgraphView {
        id,
        title: match title {
            Some(t) => t,
            None => id,
        },
        children: Seq::empty(),
        parent,
        direction,
        invisible,
        concurrent_regions: regions,
    }
}

/// `d` with subgraph `id` added: children rebuilt, the subgraph appended,
/// `children` and `regions` reparented to it, children rebuilt again.
pub open spec fn with_added_subgraph(
    d: DocView,
    id: String,
    title: Option<String>,
    parent: Option<String>,
    direction: Option<String>,
    children: Seq<String>,
    regions: Seq<String>,
    invisible: bool,
) -> DocView {
    let d1 = synced(d);
    let d2 = with_subgraphs(d1, d1.subgraphs.push(new_subgraph(id, title, parent, direction, regions, invisible)));
    let d3 = with_nodes(d2, with_node_parents(d2.nodes, children, Some(id), children.len()));
    let d4 = with_subgraphs(d3, with_subgraph_parents(d3.subgraphs, regions, Some(id), regions.len()));
    synced(d4)
}

/// `d` with the membership of the subgraph at `t`, named `sub`, changed:
/// children rebuilt; removed children released and added ones adopted;
/// removed regions dropped and released, added ones recorded and adopted;
/// children rebuilt again.
pub open spec fn with_membership(
    d: DocView,
    sub: String,
    t: int,
    added: Seq<String>,
    removed: Seq<String>,
    added_regions: Seq<String>,
    removed_regions: Seq<String>,
) -> DocView {
    let d1 = synced(d);
    let d2 = with_nodes(d1, release_children(d1.nodes, removed, sub@, removed.len()));
    let d3 = with_nodes(d2, with_node_parents(d2.nodes, added, Some(sub), added.len()));
    let d4 = with_subgraphs(d3, release_regions(d3.subgraphs, removed_regions, sub@, t, removed_regions.len()));
    let d5 = with_subgraphs(d4, adopt_regions(d4.subgraphs, added_regions, sub, t, added_regions.len()));
    synced(d5)
}

/// `SubgraphNotFound` for `o` when it names no subgraph of `d`.
pub open spec fn missing_subgraph(d: DocView, o: Option<String>) -> Option<ErrView> {
    match o {
        Some(p) => if subgraph_pos(d, p@) is None {
            Some(ErrView::SubgraphNotFound(p@))
        } else {
            None
        },
        None => None,
    }
}

/// `NodeNotFound` for the first of `ids` that names no node of `d`.
pub open spec fn missing_node_in(d: DocView, ids: Seq<String>) -> Option<ErrView> {
    match first_where(ids, node_absent(d)) {
        Some(k) => Some(ErrView::NodeNotFound(ids[k]@)),
        None => None,
    }
}

/// `SubgraphNotFound` for the first of `ids` that names no subgraph of `d`.
pub open spec fn missing_subgraph_in(d: DocView, ids: Seq<String>) -> Option<ErrView> {
    match first_where(ids, subgraph_absent(d)) {
        Some(k) => Some(ErrView::SubgraphNotFound(ids[k]@)),
        None => None,
    }
}

/// `NodeNotFound` for `id` when it names no node of `d`.
pub open spec fn missing_node(d: DocView, id: String) -> Option<ErrView> {
    if node_pos(d, id@) is None {
        Some(ErrView::NodeNotFound(id@))
    } else {
        None
    }
}

/// The entries an extension stores for `value`: the object's entries when
/// `value` is an object, otherwise `value` under the key `"value"`.
pub open spec fn extension_entries(value: serde_json::Value) -> Map<Seq<char>, serde_json::Value> {
    match object_in(value) {
        Some(m) => json_object_entries(m),
        None => map!["value"@ => value],
    }
}

/// What applying `cmd` to `d` does, with `fresh` the id a new edge gets.
///
/// Every check runs against `d` in the order given; the first that fails is
/// the error. Layout-affecting commands yield a relayout candidate; profile
/// and subgraph-title edits commit directly; extension edits store the
/// command's value.
pub open spec fn spec_plan_command(cmd: Command, d: DocView, fresh: String) -> Result<StepView, ErrView> {
    match cmd {
        Command::SetGeometryLevel { level } => Ok(
            StepView::Relayout(DocView { geometry_level: level, ..d }, doc_event_of(ModelEventKind::GeometryLevelChanged)),
        ),
        Command::SetDirection { direction } => Ok(
            StepView::Relayout(DocView { direction: direction, ..d }, doc_event_of(ModelEventKind::DirectionChanged)),
        ),
        Command::SetEngine { engine } => Ok(
            StepView::Relayout(DocView { engine: engine, ..d }, doc_event_of(ModelEventKind::EngineChanged)),
        ),
        Command::AddNode { id, label, shape, parent } => if node_pos(d, id@) is Some {
            Err(ErrView::SubjectAlreadyExists(id@))
        } else if missing_subgraph(d, parent) is Some {
            Err(missing_subgraph(d, parent)->Some_0)
        } else {
            Ok(
                StepView::Relayout(
                    with_nodes(d, d.nodes.push(DocNode { id, label, shape, parent })),
                    node_event_of(ModelEventKind::NodeAdded, id),
                ),
            )
        },
        Command::RemoveNode { id } => match node_pos(d, id@) {
            None => Err(ErrView::NodeNotFound(id@)),
            Some(_) => Ok(StepView::Relayout(without_node(d, id@), node_event_of(ModelEventKind::NodeRemoved, id))),
        },
        Command::ChangeNodeLabel { node, label } => match node_pos(d, node@) {
            None => Err(ErrView::NodeNotFound(node@)),
            Some(i) => Ok(
                StepView::Relayout(
                    with_nodes(d, d.nodes.update(i, DocNode { label: label, ..d.nodes[i] })),
                    node_event_of(ModelEventKind::NodeLabelChanged, node),
                ),
            ),
        },
        Command::ChangeNodeShape { node, shape } => match node_pos(d, node@) {
            None => Err(ErrView::NodeNotFound(node@)),
            Some(i) => Ok(
                StepView::Relayout(
                    with_nodes(d, d.nodes.update(i, DocNode { shape: shape, ..d.nodes[i] })),
                    node_event_of(ModelEventKind::NodeShapeChanged, node),
                ),
            ),
        },
        Command::SetNodeParent { node, parent } => match node_pos(d, node@) {
            None => Err(ErrView::NodeNotFound(node@)),
            Some(i) => if missing_subgraph(d, parent) is Some {
                Err(missing_subgraph(d, parent)->Some_0)
            } else {
                Ok(
                    StepView::Relayout(
                        with_nodes(d, d.nodes.update(i, DocNode { parent: parent, ..d.nodes[i] })),
                        node_event_of(ModelEventKind::NodeParentChanged, node),
                    ),
                )
            },
        },
        Command::SetNodeStyleExtension { node, value } => if node_pos(d, node@) is None {
            Err(ErrView::NodeNotFound(node@))
        } else {
            Ok(StepView::StoreNodeStyle(node@, value, node_event_of(ModelEventKind::NodeStyleChanged, node)))
        },
        Command::SetProfiles { profiles } => Ok(
            StepView::Commit(DocView { profiles: profiles@, ..d }, doc_event_of(ModelEventKind::ProfileChanged)),
        ),
        Command::SetExtension { namespace, value } => Ok(
            StepView::StoreExtension(
                namespace@,
                extension_entries(value),
                doc_event_of(ModelEventKind::ExtensionChanged),
            ),
        ),
        Command::AddEdge {
            id,
            source,
            target,
            from_subgraph,
            to_subgraph,
            label,
            stroke,
            arrow_start,
            arrow_end,
            minlen,
        } => match spec_new_edge_id(d, id) {
            Err(e) => Err(e),
            Ok(_) => if missing_node(d, source) is Some {
                Err(missing_node(d, source)->Some_0)
            } else if missing_node(d, target) is Some {
                Err(missing_node(d, target)->Some_0)
            } else if missing_subgraph(d, from_subgraph) is Some {
                Err(missing_subgraph(d, from_subgraph)->Some_0)
            } else if missing_subgraph(d, to_subgraph) is Some {
                Err(missing_subgraph(d, to_subgraph)->Some_0)
            } else {
                Ok(
                    StepView::Relayout(
                        with_edges(
                            d,
                            d.edges.push(
                                DocEdge {
                                    id: fresh,
                                    source,
                                    target,
                                    from_subgraph,
                                    to_subgraph,
                                    label,
                                    stroke,
                                    arrow_start,
                                    arrow_end,
                                    minlen,
                                },
                            ),
                        ),
                        edge_event_of(ModelEventKind::EdgeAdded, fresh),
                    ),
                )
            },
        },
        Command::RemoveEdge { edge } => match spec_resolve_edge(d, edge) {
            Err(e) => Err(e),
            Ok(i) => Ok(
                StepView::Relayout(
                    with_edges(d, d.edges.remove(i)),
                    edge_event_of(ModelEventKind::EdgeRemoved, d.edges[i].id),
                ),
            ),
        },
        Command::ReconnectEdge { edge, source, target } => match spec_resolve_edge(d, edge) {
            Err(e) => Err(e),
            Ok(i) => if missing_node(d, source) is Some {
                Err(missing_node(d, source)->Some_0)
            } else if missing_node(d, target) is Some {
                Err(missing_node(d, target)->Some_0)
            } else {
                Ok(
                    StepView::Relayout(
                        with_edges(d, d.edges.update(i, DocEdge { source: source, target: target, ..d.edges[i] })),
                        edge_event_of(ModelEventKind::EdgeReconnected, d.edges[i].id),
                    ),
                )
            },
        },
        Command::SetEdgeEndpointIntent { edge, from_subgraph, to_subgraph } => match spec_resolve_edge(d, edge) {
            Err(e) => Err(e),
            Ok(i) => if missing_subgraph(d, from_subgraph) is Some {
                Err(missing_subgraph(d, from_subgraph)->Some_0)
            } else if missing_subgraph(d, to_subgraph) is Some {
                Err(missing_subgraph(d, to_subgraph)->Some_0)
            } else {
                Ok(
                    StepView::Relayout(
                        with_edges(
                            d,
                            d.edges.update(i, DocEdge { from_subgraph: from_subgraph, to_subgraph: to_subgraph, ..d.edges[i] }),
                        ),
                        edge_event_of(ModelEventKind::EdgeEndpointIntentChanged, d.edges[i].id),
                    ),
                )
            },
        },
        Command::ChangeEdgeLabel { edge, label } => match spec_resolve_edge(d, edge) {
            Err(e) => Err(e),
            Ok(i) => Ok(
                StepView::Relayout(
                    with_edges(d, d.edges.update(i, DocEdge { label: label, ..d.edges[i] })),
                    edge_event_of(ModelEventKind::EdgeLabelChanged, d.edges[i].id),
                ),
            ),
        },
        Command::ChangeEdgeStyle { edge, stroke, arrow_start, arrow_end, minlen } => match spec_resolve_edge(d, edge) {
            Err(e) => Err(e),
            Ok(i) => {
                let old = d.edges[i];
                let styled = DocEdge {
                    stroke: match stroke {
                        Some(x) => x,
                        None => old.stroke,
                    },
                    arrow_start: match arrow_start {
                        Some(x) => x,
                        None => old.arrow_start,
                    },
                    arrow_end: match arrow_end {
                        Some(x) => x,
                        None => old.arrow_end,
                    },
                    minlen: match minlen {
                        Some(x) => x,
                        None => old.minlen,
                    },
                    ..old
                };
                Ok(
                    StepView::Relayout(
                        with_edges(d, d.edges.update(i, styled)),
                        edge_event_of(ModelEventKind::EdgeStyleChanged, old.id),
                    ),
                )
            },
        },
        Command::AddSubgraph { id, title, parent, direction, children, concurrent_regions, invisible } => if subgraph_pos(
            d,
            id@,
        ) is Some {
            Err(ErrView::SubjectAlreadyExists(id@))
        } else if missing_subgraph(d, parent) is Some {
            Err(missing_subgraph(d, parent)->Some_0)
        } else if missing_node_in(d, children@) is Some {
            Err(missing_node_in(d, children@)->Some_0)
        } else if missing_subgraph_in(d, concurrent_regions@) is Some {
            Err(missing_subgraph_in(d, concurrent_regions@)->Some_0)
        } else {
            Ok(
                StepView::Relayout(
                    with_added_subgraph(d, id, title, parent, direction, children@, concurrent_regions@, invisible),
                    subgraph_event_of(ModelEventKind::SubgraphAdded, id),
                ),
            )
        },
        Command::RemoveSubgraph { id } => match subgraph_pos(d, id@) {
            None => Err(ErrView::SubgraphNotFound(id@)),
            Some(_) => Ok(
                StepView::Relayout(
                    synced(without_subgraph(d, id@)),
                    subgraph_event_of(ModelEventKind::SubgraphRemoved, id),
                ),
            ),
        },
        Command::ChangeSubgraphTitle { subgraph, title } => match subgraph_pos(d, subgraph@) {
            None => Err(ErrView::SubgraphNotFound(subgraph@)),
            Some(i) => Ok(
                StepView::Commit(
                    with_subgraphs(
                        d,
                        d.subgraphs.update(
                            i,
                            SubgraphView {
                                title: match title {
                                    Some(t) => t,
                                    None => d.subgraphs[i].id,
                                },
                                ..d.subgraphs[i]
                            },
                        ),
                    ),
                    subgraph_event_of(ModelEventKind::SubgraphTitleChanged, subgraph),
                ),
            ),
        },
        Command::SetSubgraphDirection { subgraph, direction } => match subgraph_pos(d, subgraph@) {
            None => Err(ErrView::SubgraphNotFound(subgraph@)),
            Some(i) => Ok(
                StepView::Relayout(
                    with_subgraphs(d, d.subgraphs.update(i, SubgraphView { direction: direction, ..d.subgraphs[i] })),
                    subgraph_event_of(ModelEventKind::SubgraphDirectionChanged, subgraph),
                ),
            ),
        },
        Command::SetSubgraphParent { subgraph, parent } => match subgraph_pos(d, subgraph@) {
            None => Err(ErrView::SubgraphNotFound(subgraph@)),
            Some(i) => if missing_subgraph(d, parent) is Some {
                Err(missing_subgraph(d, parent)->Some_0)
            } else {
                Ok(
                    StepView::Relayout(
                        with_subgraphs(d, d.subgraphs.update(i, SubgraphView { parent: parent, ..d.subgraphs[i] })),
                        subgraph_event_of(ModelEventKind::SubgraphParentChanged, subgraph),
                    ),
                )
            },
        },
        Command::ChangeSubgraphMembership {
            subgraph,
            added_children,
            removed_children,
            added_concurrent_regions,
            removed_concurrent_regions,
        } => match subgraph_pos(d, subgraph@) {
            None => Err(ErrView::SubgraphNotFound(subgraph@)),
            Some(t) => if missing_node_in(d, added_children@) is Some {
                Err(missing_node_in(d, added_children@)->Some_0)
            } else if missing_node_in(d, removed_children@) is Some {
                Err(missing_node_in(d, removed_children@)->Some_0)
            } else if missing_subgraph_in(d, added_concurrent_regions@) is Some {
                Err(missing_subgraph_in(d, added_concurrent_regions@)->Some_0)
            } else if missing_subgraph_in(d, removed_concurrent_regions@) is Some {
                Err(missing_subgraph_in(d, removed_concurrent_regions@)->Some_0)
            } else {
                Ok(
                    StepView::Relayout(
                        with_membership(
                            d,
                            subgraph,
                            t,
                            added_children@,
                            removed_children@,
                            added_concurrent_regions@,
                            removed_concurrent_regions@,
                        ),
                        subgraph_event_of(ModelEventKind::SubgraphMembershipChanged, subgraph),
                    ),
                )
            },
        },
        Command::SetSubgraphVisibility { subgraph, invisible } => match subgraph_pos(d, subgraph@) {
            None => Err(ErrView::SubgraphNotFound(subgraph@)),
            Some(i) => Ok(
                StepView::Relayout(
                    with_subgraphs(d, d.subgraphs.update(i, SubgraphView { invisible: invisible, ..d.subgraphs[i] })),
                    subgraph_event_of(ModelEventKind::SubgraphVisibilityChanged, subgraph),
                ),
            ),
        },
    }
}

/// An event about the whole document.
fn document_event(kind: ModelEventKind) -> (r: ModelEvent)
    ensures
        r == doc_event_of(kind),
{
    ModelEvent { kind, subject: Subject::Document }
}

/// An event about node `id`.
fn node_event(kind: ModelEventKind, id: String) -> (r: ModelEvent)
    ensures
        r == node_event_of(kind, id),
{
    ModelEvent { kind, subject: Subject::Node(id) }
}

/// An event about edge `id`.
fn edge_event(kind: ModelEventKind, id: String) -> (r: ModelEvent)
    ensures
        r == edge_event_of(kind, id),
{
    ModelEvent { kind, subject: Subject::Edge(id) }
}

/// An event about subgraph `id`.
fn subgraph_event(kind: ModelEventKind, id: String) -> (r: ModelEvent)
    ensures
        r == subgraph_event_of(kind, id),
{
    ModelEvent { kind, subject: Subject::Subgraph(id) }
}

/// `NodeNotFound` for `id` unless it names a node.
fn check_node(doc: &DocModel, id: &String) -> (r: Result<(), CommandApplyError>)
    ensures
        match missing_node(doc@, *id) {
            Some(e) => r is Err && r->Err_0@ == e,
            None => r is Ok,
        },
{
    match find_node(doc, id) {
        Some(_) => Ok(()),
        None => Err(CommandApplyError::NodeNotFound { id: id.clone() }),
    }
}

/// `SubgraphNotFound` for `o` when it names no subgraph.
fn check_opt_subgraph(doc: &DocModel, o: &Option<String>) -> (r: Result<(), CommandApplyError>)
    ensures
        match missing_subgraph(doc@, *o) {
            Some(e) => r is Err && r->Err_0@ == e,
            None => r is Ok,
        },
{
    match o {
        Some(p) => match find_subgraph(doc, p) {
            Some(_) => Ok(()),
            None => Err(CommandApplyError::SubgraphNotFound { id: p.clone() }),
        },
        None => Ok(()),
    }
}

/// `NodeNotFound` for the first of `ids` that names no node.
fn check_nodes(doc: &DocModel, ids: &Vec<String>) -> (r: Result<(), CommandApplyError>)
    ensures
        match missing_node_in(doc@, ids@) {
            Some(e) => r is Err && r->Err_0@ == e,
            None => r is Ok,
        },
{
    let mut k: usize = 0;
    while k < ids.len()
        invariant
            k <= ids.len(),
            forall|j: int| 0 <= j < k ==> !node_absent(doc@)(#[trigger] ids@[j]),
        decreases ids.len() - k,
    {
        if find_node(doc, &ids[k]).is_none() {
            proof {
                lemma_first_where_at(ids@, node_absent(doc@), k as int);
            }
            return Err(CommandApplyError::NodeNotFound { id: ids[k].clone() });
        }
        k = k + 1;
    }
    proof {
        lemma_first_where_none(ids@, node_absent(doc@));
    }
    Ok(())
}

/// `SubgraphNotFound` for the first of `ids` that names no subgraph.
fn check_subgraphs(doc: &DocModel, ids: &Vec<String>) -> (r: Result<(), CommandApplyError>)
    ensures
        match missing_subgraph_in(doc@, ids@) {
            Some(e) => r is Err && r->Err_0@ == e,
            None => r is Ok,
        },
{
    let mut k: usize = 0;
    while k < ids.len()
        invariant
            k <= ids.len(),
            forall|j: int| 0 <= j < k ==> !subgraph_absent(doc@)(#[trigger] ids@[j]),
        decreases ids.len() - k,
    {
        if find_subgraph(doc, &ids[k]).is_none() {
            proof {
                lemma_first_where_at(ids@, subgraph_absent(doc@), k as int);
            }
            return Err(CommandApplyError::SubgraphNotFound { id: ids[k].clone() });
        }
        k = k + 1;
    }
    proof {
        lemma_first_where_none(ids@, subgraph_absent(doc@));
    }
    Ok(())
}

/// The event a step reports.
pub open spec fn step_event(step: CommandStep) -> ModelEvent {
    match step {
        CommandStep::Commit { event, .. } => event,
        CommandStep::Relayout { event, .. } => event,
        CommandStep::StoreExtension { event, .. } => event,
        CommandStep::StoreNodeStyle { event, .. } => event,
    }
}

/// `r` is what planning `command` against `d` gives: on success the step
/// `spec_plan_command` describes, the new edge's id being the one the step's
/// event names; on failure its error, whatever id a new edge would get.
pub open spec fn planned(command: Command, d: DocView, r: Result<CommandStep, CommandApplyError>) -> bool {
    match r {
        Ok(step) => spec_plan_command(command, d, step_event(step).subject->Edge_0) == Ok::<StepView, ErrView>(step@),
        Err(e) => forall|fresh: String| #[trigger] spec_plan_command(command, d, fresh) == Err::<StepView, ErrView>(e@),
    }
}

/// Plan a command that edits document-level fields.
fn plan_document_command(command: &Command, doc: &DocModel) -> (r: Result<CommandStep, CommandApplyError>)
    requires
        command is SetGeometryLevel || command is SetDirection || command is SetEngine || command is SetProfiles
            || command is SetExtension,
    ensures
        planned(*command, doc@, r),
{
    let mut candidate = doc.duplicate();
    match command {
        Command::SetGeometryLevel { level } => {
            candidate.geometry_level = level.clone();
            Ok(CommandStep::Relayout { candidate, event: document_event(ModelEventKind::GeometryLevelChanged) })
        },
        Command::SetDirection { direction } => {
            candidate.direction = direction.clone();
            Ok(CommandStep::Relayout { candidate, event: document_event(ModelEventKind::DirectionChanged) })
        },
        Command::SetEngine { engine } => {
            candidate.engine = copy_opt(engine);
            Ok(CommandStep::Relayout { candidate, event: document_event(ModelEventKind::EngineChanged) })
        },
        Command::SetProfiles { profiles } => {
            candidate.profiles = copy_strings(profiles);
            Ok(CommandStep::Commit { doc: candidate, event: document_event(ModelEventKind::ProfileChanged) })
        },
        Command::SetExtension { namespace, value } => {
            let payload = extension_payload(json_clone(value));
            Ok(
                CommandStep::StoreExtension {
                    namespace: namespace.clone(),
                    payload,
                    event: document_event(ModelEventKind::ExtensionChanged),
                },
            )
        },
        _ => {
            proof {
                assert(false);
            }
            Err(CommandApplyError::RelayoutFailed { stage: String::new(), message: String::new() })
        },
    }
}

/// Plan a command on nodes.
fn plan_node_command(command: &Command, doc: &DocModel) -> (r: Result<CommandStep, CommandApplyError>)
    requires
        command is AddNode || command is RemoveNode || command is ChangeNodeLabel || command is ChangeNodeShape
            || command is SetNodeParent || command is SetNodeStyleExtension,
    ensures
        planned(*command, doc@, r),
{
    match command {
        Command::AddNode { id, label, shape, parent } => {
            if find_node(doc, id).is_some() {
                return Err(CommandApplyError::SubjectAlreadyExists { id: id.clone() });
            }
            match check_opt_subgraph(doc, parent) {
                Err(e) => {
                    return Err(e);
                },
                Ok(()) => {},
            }
            let mut candidate = doc.duplicate();
            candidate.nodes.push(
                DocNode { id: id.clone(), label: label.clone(), shape: shape.clone(), parent: copy_opt(parent) },
            );
            Ok(CommandStep::Relayout { candidate, event: node_event(ModelEventKind::NodeAdded, id.clone()) })
        },
        Command::RemoveNode { id } => match node_index(doc, id) {
            Err(e) => Err(e),
            Ok(_) => {
                let mut candidate = doc.duplicate();
                remove_node(&mut candidate, id);
                Ok(CommandStep::Relayout { candidate, event: node_event(ModelEventKind::NodeRemoved, id.clone()) })
            },
        },
        Command::ChangeNodeLabel { node, label } => match node_index(doc, node) {
            Err(e) => Err(e),
            Ok(i) => {
                let mut candidate = doc.duplicate();
                let mut n = candidate.nodes[i].duplicate();
                n.label = label.clone();
                candidate.nodes.set(i, n);
                Ok(
                    CommandStep::Relayout {
                        candidate,
                        event: node_event(ModelEventKind::NodeLabelChanged, node.clone()),
                    },
                )
            },
        },
        Command::ChangeNodeShape { node, shape } => match node_index(doc, node) {
            Err(e) => Err(e),
            Ok(i) => {
                let mut candidate = doc.duplicate();
                let mut n = candidate.nodes[i].duplicate();
                n.shape = shape.clone();
                candidate.nodes.set(i, n);
                Ok(
                    CommandStep::Relayout {
                        candidate,
                        event: node_event(ModelEventKind::NodeShapeChanged, node.clone()),
                    },
                )
            },
        },
        Command::SetNodeParent { node, parent } => match node_index(doc, node) {
            Err(e) => Err(e),
            Ok(i) => {
                match check_opt_subgraph(doc, parent) {
                    Err(e) => {
                        return Err(e);
                    },
                    Ok(()) => {},
                }
                let mut candidate = doc.duplicate();
                let mut n = candidate.nodes[i].duplicate();
                n.parent = copy_opt(parent);
                candidate.nodes.set(i, n);
                Ok(
                    CommandStep::Relayout {
                        candidate,
                        event: node_event(ModelEventKind::NodeParentChanged, node.clone()),
                    },
                )
            },
        },
        Command::SetNodeStyleExtension { node, value } => {
            if find_node(doc, node).is_none() {
                return Err(CommandApplyError::NodeNotFound { id: node.clone() });
            }
            Ok(
                CommandStep::StoreNodeStyle {
                    node: node.clone(),
                    value: json_clone(value),
                    event: node_event(ModelEventKind::NodeStyleChanged, node.clone()),
                },
            )
        },
        _ => {
            proof {
                assert(false);
            }
            Err(CommandApplyError::RelayoutFailed { stage: String::new(), message: String::new() })
        },
    }
}

/// Plan a command on edges.
fn plan_edge_command(command: &Command, doc: &DocModel) -> (r: Result<CommandStep, CommandApplyError>)
    requires
        command is AddEdge || command is RemoveEdge || command is ReconnectEdge || command is SetEdgeEndpointIntent
            || command is ChangeEdgeLabel || command is ChangeEdgeStyle,
    ensures
        planned(*command, doc@, r),
        command is AddEdge && r is Ok ==> step_event(r->Ok_0).subject->Edge_0@ == next_edge_id(doc@),
{
    match command {
        Command::AddEdge {
            id,
            source,
            target,
            from_subgraph,
            to_subgraph,
            label,
            stroke,
            arrow_start,
            arrow_end,
            minlen,
        } => {
            let requested: Option<&String> = match id {
                Some(x) => Some(x),
                None => None,
            };
            proof {
                assert(owned(requested) == *id);
            }
            let new_id = match resolve_new_edge_id(doc, requested) {
                Err(e) => {
                    return Err(e);
                },
                Ok(s) => s,
            };
            match check_node(doc, source) {
                Err(e) => {
                    return Err(e);
                },
                Ok(()) => {},
            }
            match check_node(doc, target) {
                Err(e) => {
                    return Err(e);
                },
                Ok(()) => {},
            }
            match check_opt_subgraph(doc, from_subgraph) {
                Err(e) => {
                    return Err(e);
                },
                Ok(()) => {},
            }
            match check_opt_subgraph(doc, to_subgraph) {
                Err(e) => {
                    return Err(e);
                },
                Ok(()) => {},
            }
            let mut candidate = doc.duplicate();
            candidate.edges.push(
                DocEdge {
                    id: new_id.clone(),
                    source: source.clone(),
                    target: target.clone(),
                    from_subgraph: copy_opt(from_subgraph),
                    to_subgraph: copy_opt(to_subgraph),
                    label: copy_opt(label),
                    stroke: *stroke,
                    arrow_start: *arrow_start,
                    arrow_end: *arrow_end,
                    minlen: *minlen,
                },
            );
            Ok(CommandStep::Relayout { candidate, event: edge_event(ModelEventKind::EdgeAdded, new_id) })
        },
        Command::RemoveEdge { edge } => match resolve_edge_index(doc, edge) {
            Err(e) => Err(e),
            Ok(i) => {
                let edge_id = doc.edges[i].id.clone();
                let mut candidate = doc.duplicate();
                candidate.edges.remove(i);
                Ok(CommandStep::Relayout { candidate, event: edge_event(ModelEventKind::EdgeRemoved, edge_id) })
            },
        },
        Command::ReconnectEdge { edge, source, target } => match resolve_edge_index(doc, edge) {
            Err(e) => Err(e),
            Ok(i) => {
                match check_node(doc, source) {
                    Err(e) => {
                        return Err(e);
                    },
                    Ok(()) => {},
                }
                match check_node(doc, target) {
                    Err(e) => {
                        return Err(e);
                    },
                    Ok(()) => {},
                }
                let edge_id = doc.edges[i].id.clone();
                let mut candidate = doc.duplicate();
                let mut e = doc.edges[i].duplicate();
                e.source = source.clone();
                e.target = target.clone();
                candidate.edges.set(i, e);
                Ok(CommandStep::Relayout { candidate, event: edge_event(ModelEventKind::EdgeReconnected, edge_id) })
            },
        },
        Command::SetEdgeEndpointIntent { edge, from_subgraph, to_subgraph } => match resolve_edge_index(doc, edge) {
            Err(e) => Err(e),
            Ok(i) => {
                match check_opt_subgraph(doc, from_subgraph) {
                    Err(e) => {
                        return Err(e);
                    },
                    Ok(()) => {},
                }
                match check_opt_subgraph(doc, to_subgraph) {
                    Err(e) => {
                        return Err(e);
                    },
                    Ok(()) => {},
                }
                let edge_id = doc.edges[i].id.clone();
                let mut candidate = doc.duplicate();
                let mut e = doc.edges[i].duplicate();
                e.from_subgraph = copy_opt(from_subgraph);
                e.to_subgraph = copy_opt(to_subgraph);
                candidate.edges.set(i, e);
                Ok(
                    CommandStep::Relayout {
                        candidate,
                        event: edge_event(ModelEventKind::EdgeEndpointIntentChanged, edge_id),
                    },
                )
            },
        },
        Command::ChangeEdgeLabel { edge, label } => match resolve_edge_index(doc, edge) {
            Err(e) => Err(e),
            Ok(i) => {
                let edge_id = doc.edges[i].id.clone();
                let mut candidate = doc.duplicate();
                let mut e = doc.edges[i].duplicate();
                e.label = copy_opt(label);
                candidate.edges.set(i, e);
                Ok(CommandStep::Relayout { candidate, event: edge_event(ModelEventKind::EdgeLabelChanged, edge_id) })
            },
        },
        Command::ChangeEdgeStyle { edge, stroke, arrow_start, arrow_end, minlen } => match resolve_edge_index(doc, edge) {
            Err(e) => Err(e),
            Ok(i) => {
                let edge_id = doc.edges[i].id.clone();
                let mut candidate = doc.duplicate();
                let mut e = doc.edges[i].duplicate();
                match stroke {
                    Some(x) => {
                        e.stroke = *x;
                    },
                    None => {},
                }
                match arrow_start {
                    Some(x) => {
                        e.arrow_start = *x;
                    },
                    None => {},
                }
                match arrow_end {
                    Some(x) => {
                        e.arrow_end = *x;
                    },
                    None => {},
                }
                match minlen {
                    Some(x) => {
                        e.minlen = *x;
                    },
                    None => {},
                }
                candidate.edges.set(i, e);
                Ok(CommandStep::Relayout { candidate, event: edge_event(ModelEventKind::EdgeStyleChanged, edge_id) })
            },
        },
        _ => {
            proof {
                assert(false);
            }
            Err(CommandApplyError::RelayoutFailed { stage: String::new(), message: String::new() })
        },
    }
}

/// Plan a command on subgraphs.
fn plan_subgraph_command(command: &Command, doc: &DocModel) -> (r: Result<CommandStep, CommandApplyError>)
    requires
        command is AddSubgraph || command is RemoveSubgraph || command is ChangeSubgraphTitle
            || command is SetSubgraphDirection || command is SetSubgraphParent || command is ChangeSubgraphMembership
            || command is SetSubgraphVisibility,
    ensures
        planned(*command, doc@, r),
{
    match command {
        Command::AddSubgraph { id, title, parent, direction, children, concurrent_regions, invisible } => {
            if find_subgraph(doc, id).is_some() {
                return Err(CommandApplyError::SubjectAlreadyExists { id: id.clone() });
            }
            match check_opt_subgraph(doc, parent) {
                Err(e) => {
                    return Err(e);
                },
                Ok(()) => {},
            }
            match check_nodes(doc, children) {
                Err(e) => {
                    return Err(e);
                },
                Ok(()) => {},
            }
            match check_subgraphs(doc, concurrent_regions) {
                Err(e) => {
                    return Err(e);
                },
                Ok(()) => {},
            }
            let mut candidate = doc.duplicate();
            sync_subgraph_children_from_node_parents(&mut candidate);
            let ghost synced_subs = candidate@.subgraphs;
            let added = DocSubgraph {
                id: id.clone(),
                title: match title {
                    Some(t) => t.clone(),
                    None => id.clone(),
                },
                children: Vec::new(),
                parent: copy_opt(parent),
                direction: copy_opt(direction),
                invisible: *invisible,
                concurrent_regions: copy_strings(concurrent_regions),
            };
            candidate.subgraphs.push(added);
            proof {
                assert(candidate@.subgraphs =~= synced_subs.push(
                    new_subgraph(*id, *title, *parent, *direction, concurrent_regions@, *invisible),
                ));
            }
            let owner = Some(id.clone());
            set_node_parents(&mut candidate, children, &owner);
            set_subgraph_parents(&mut candidate, concurrent_regions, &owner);
            sync_subgraph_children_from_node_parents(&mut candidate);
            Ok(CommandStep::Relayout { candidate, event: subgraph_event(ModelEventKind::SubgraphAdded, id.clone()) })
        },
        Command::RemoveSubgraph { id } => match subgraph_index(doc, id) {
            Err(e) => Err(e),
            Ok(_) => {
                let mut candidate = doc.duplicate();
                remove_subgraph(&mut candidate, id);
                sync_subgraph_children_from_node_parents(&mut candidate);
                Ok(
                    CommandStep::Relayout {
                        candidate,
                        event: subgraph_event(ModelEventKind::SubgraphRemoved, id.clone()),
                    },
                )
            },
        },
        Command::ChangeSubgraphTitle { subgraph, title } => match subgraph_index(doc, subgraph) {
            Err(e) => Err(e),
            Ok(i) => {
                let mut candidate = doc.duplicate();
                let mut g = doc.subgraphs[i].duplicate();
                g.title = match title {
                    Some(t) => t.clone(),
                    None => g.id.clone(),
                };
                let ghost before = candidate@.subgraphs;
                candidate.subgraphs.set(i, g);
                proof {
                    assert(candidate@.subgraphs =~= before.update(i as int, g@));
                }
                Ok(
                    CommandStep::Commit {
                        doc: candidate,
                        event: subgraph_event(ModelEventKind::SubgraphTitleChanged, subgraph.clone()),
                    },
                )
            },
        },
        Command::SetSubgraphDirection { subgraph, direction } => match subgraph_index(doc, subgraph) {
            Err(e) => Err(e),
            Ok(i) => {
                let mut candidate = doc.duplicate();
                let mut g = doc.subgraphs[i].duplicate();
                g.direction = copy_opt(direction);
                let ghost before = candidate@.subgraphs;
                candidate.subgraphs.set(i, g);
                proof {
                    assert(candidate@.subgraphs =~= before.update(i as int, g@));
                }
                Ok(
                    CommandStep::Relayout {
                        candidate,
                        event: subgraph_event(ModelEventKind::SubgraphDirectionChanged, subgraph.clone()),
                    },
                )
            },
        },
        Command::SetSubgraphParent { subgraph, parent } => match subgraph_index(doc, subgraph) {
            Err(e) => Err(e),
            Ok(i) => {
                match check_opt_subgraph(doc, parent) {
                    Err(e) => {
                        return Err(e);
                    },
                    Ok(()) => {},
                }
                let mut candidate = doc.duplicate();
                let mut g = doc.subgraphs[i].duplicate();
                g.parent = copy_opt(parent);
                let ghost before = candidate@.subgraphs;
                candidate.subgraphs.set(i, g);
                proof {
                    assert(candidate@.subgraphs =~= before.update(i as int, g@));
                }
                Ok(
                    CommandStep::Relayout {
                        candidate,
                        event: subgraph_event(ModelEventKind::SubgraphParentChanged, subgraph.clone()),
                    },
                )
            },
        },
        Command::ChangeSubgraphMembership {
            subgraph,
            added_children,
            removed_children,
            added_concurrent_regions,
            removed_concurrent_regions,
        } => match subgraph_index(doc, subgraph) {
            Err(e) => Err(e),
            Ok(t) => {
                match check_nodes(doc, added_children) {
                    Err(e) => {
                        return Err(e);
                    },
                    Ok(()) => {},
                }
                match check_nodes(doc, removed_children) {
                    Err(e) => {
                        return Err(e);
                    },
                    Ok(()) => {},
                }
                match check_subgraphs(doc, added_concurrent_regions) {
                    Err(e) => {
                        return Err(e);
                    },
                    Ok(()) => {},
                }
                match check_subgraphs(doc, removed_concurrent_regions) {
                    Err(e) => {
                        return Err(e);
                    },
                    Ok(()) => {},
                }
                let mut candidate = doc.duplicate();
                sync_subgraph_children_from_node_parents(&mut candidate);
                proof {
                    assert(candidate.subgraphs@.len() == candidate@.subgraphs.len());
                }
                release_node_children(&mut candidate, removed_children, subgraph);
                let owner = Some(subgraph.clone());
                set_node_parents(&mut candidate, added_children, &owner);
                proof {
                    assert(candidate.subgraphs@.len() == candidate@.subgraphs.len());
                }
                release_subgraph_regions(&mut candidate, removed_concurrent_regions, subgraph, t);
                adopt_subgraph_regions(&mut candidate, added_concurrent_regions, subgraph, t);
                sync_subgraph_children_from_node_parents(&mut candidate);
                Ok(
                    CommandStep::Relayout {
                        candidate,
                        event: subgraph_event(ModelEventKind::SubgraphMembershipChanged, subgraph.clone()),
                    },
                )
            },
        },
        Command::SetSubgraphVisibility { subgraph, invisible } => match subgraph_index(doc, subgraph) {
            Err(e) => Err(e),
            Ok(i) => {
                let mut candidate = doc.duplicate();
                let mut g = doc.subgraphs[i].duplicate();
                g.invisible = *invisible;
                let ghost before = candidate@.subgraphs;
                candidate.subgraphs.set(i, g);
                proof {
                    assert(candidate@.subgraphs =~= before.update(i as int, g@));
                }
                Ok(
                    CommandStep::Relayout {
                        candidate,
                        event: subgraph_event(ModelEventKind::SubgraphVisibilityChanged, subgraph.clone()),
                    },
                )
            },
        },
        _ => {
            proof {
                assert(false);
            }
            Err(CommandApplyError::RelayoutFailed { stage: String::new(), message: String::new() })
        },
    }
}

/// Check `command` against `doc` and work out its effect.
///
/// On success the step is the one `spec_plan_command` describes, where a new
/// edge gets the id its event names, and that id is the next dense edge id.
/// On failure nothing is to change; the error is the first failed check.
pub fn plan_command(command: &Command, doc: &DocModel) -> (r: Result<CommandStep, CommandApplyError>)
    ensures
        planned(*command, doc@, r),
        command is AddEdge && r is Ok ==> step_event(r->Ok_0).subject->Edge_0@ == next_edge_id(doc@),
{
    match command {
        Command::SetGeometryLevel { .. }
        | Command::SetDirection { .. }
        | Command::SetEngine { .. }
        | Command::SetProfiles { .. }
        | Command::SetExtension { .. } => plan_document_command(command, doc),
        Command::AddNode { .. }
        | Command::RemoveNode { .. }
        | Command::ChangeNodeLabel { .. }
        | Command::ChangeNodeShape { .. }
        | Command::SetNodeParent { .. }
        | Command::SetNodeStyleExtension { .. } => plan_node_command(command, doc),
        Command::AddEdge { .. }
        | Command::RemoveEdge { .. }
        | Command::ReconnectEdge { .. }
        | Command::SetEdgeEndpointIntent { .. }
        | Command::ChangeEdgeLabel { .. }
        | Command::ChangeEdgeStyle { .. } => plan_edge_command(command, doc),
        _ => plan_subgraph_command(command, doc),
    }
}

/// Replace `doc` with `next`, reporting `event`.
pub fn commit_document(doc: &mut DocModel, next: DocModel, event: ModelEvent) -> (r: Vec<ModelEvent>)
    ensures
        final(doc)@ == next@,
        r@ == seq![event],
{
    *doc = next;
    vec![event]
}

/// Finish a relayout step: on success the relaid document replaces `doc` and
/// `event` is reported; on failure `doc` stays exactly as it was and the
/// failure is returned.
pub fn commit_relayout(
    doc: &mut DocModel,
    relaid: Result<DocModel, CommandApplyError>,
    event: ModelEvent,
) -> (r: Result<Vec<ModelEvent>, CommandApplyError>)
    ensures
        match relaid {
            Ok(next) => final(doc)@ == next@ && r is Ok && r->Ok_0@ == seq![event],
            Err(e) => *final(doc) == *old(doc) && r == Err::<Vec<ModelEvent>, CommandApplyError>(e),
        },
{
    match relaid {
        Ok(next) => Ok(commit_document(doc, next, event)),
        Err(e) => Err(e),
    }
}

/// The failure of relayout stage `stage`, with the underlying message.
pub fn relayout_failed(stage: &str, message: String) -> (r: CommandApplyError)
    ensures
        r == (CommandApplyError::RelayoutFailed { stage: r->stage, message }),
        r->stage@ == stage@,
{
    CommandApplyError::RelayoutFailed { stage: String::from_str(stage), message }
}

/// Reconnecting an edge moves exactly that edge: the selected edge now runs
/// from the command's source to its target, keeps its id and every other
/// attribute, and no other edge, node or subgraph changes.
pub proof fn law_reconnect_moves_only_the_selected_edge(
    d: DocView,
    edge: EdgeSelector,
    source: String,
    target: String,
    fresh: String,
)
    ensures
        spec_plan_command(Command::ReconnectEdge { edge, source, target }, d, fresh) matches Ok(
            StepView::Relayout(c, ev),
        ) ==> exists|i: int|
            #![trigger d.edges[i]]
            spec_resolve_edge(d, edge) == Ok::<int, ErrView>(i) && 0 <= i < d.edges.len() && c.edges.len()
                == d.edges.len() && c.edges[i].source == source && c.edges[i].target == target && c.edges[i].id
                == d.edges[i].id && c.edges[i].from_subgraph == d.edges[i].from_subgraph && c.edges[i].to_subgraph
                == d.edges[i].to_subgraph && c.edges[i].label == d.edges[i].label && c.edges[i].stroke
                == d.edges[i].stroke && c.edges[i].arrow_start == d.edges[i].arrow_start && c.edges[i].arrow_end
                == d.edges[i].arrow_end && c.edges[i].minlen == d.edges[i].minlen && (forall|j: int|
                0 <= j < d.edges.len() && j != i ==> #[trigger] c.edges[j] == d.edges[j]) && c.nodes == d.nodes
                && c.subgraphs == d.subgraphs && ev.kind == ModelEventKind::EdgeReconnected && ev.subject
                == Subject::Edge(d.edges[i].id),
{
    match spec_resolve_edge(d, edge) {
        Ok(i) => {
            lemma_resolve_in_range(d, edge);
        },
        Err(_) => {},
    }
}

/// A resolved edge position lies within the edges.
proof fn lemma_resolve_in_range(d: DocView, sel: EdgeSelector)
    ensures
        spec_resolve_edge(d, sel) matches Ok(i) ==> 0 <= i < d.edges.len(),
{
    match sel {
        EdgeSelector::Id(id) => {
            lemma_first_where(d.edges, edge_named(id@));
        },
        EdgeSelector::Semantic { .. } => {
            lemma_matches_below(d.edges, sel, d.edges.len());
        },
    }
}

/// The positions `matches_upto` lists are, in increasing order, exactly the
/// positions below `k` whose edge satisfies the selector.
proof fn lemma_matches_below(edges: Seq<DocEdge>, sel: EdgeSelector, k: nat)
    requires
        k <= edges.len(),
    ensures
        forall|a: int| 0 <= a < matches_upto(edges, sel, k).len() ==> 0 <= #[trigger] matches_upto(edges, sel, k)[a] < k,
        forall|a: int| 0 <= a < matches_upto(edges, sel, k).len() ==> spec_semantic_match(
            edges[#[trigger] matches_upto(edges, sel, k)[a]],
            sel,
        ),
        forall|a: int, b: int|
            0 <= a < b < matches_upto(edges, sel, k).len() ==> #[trigger] matches_upto(edges, sel, k)[a]
                < #[trigger] matches_upto(edges, sel, k)[b],
        forall|j: int|
            0 <= j < k && spec_semantic_match(#[trigger] edges[j], sel) ==> matches_upto(edges, sel, k).contains(j),
    decreases k,
{
    if k > 0 {
        lemma_matches_below(edges, sel, (k - 1) as nat);
        let prev = matches_upto(edges, sel, (k - 1) as nat);
        if spec_semantic_match(edges[k - 1], sel) {
            let cur = prev.push(k - 1);
            assert(matches_upto(edges, sel, k) == cur);
            assert forall|j: int| 0 <= j < k && spec_semantic_match(#[trigger] edges[j], sel) implies cur.contains(j) by {
                if j < k - 1 {
                    let a = choose|a: int| 0 <= a < prev.len() && prev[a] == j;
                    assert(cur[a] == j);
                } else {
                    assert(cur[prev.len() as int] == j);
                }
            }
        }
    }
}

/// A semantic selector matches an edge exactly when the edge has the
/// selector's endpoints and agrees with every attribute the selector names.
pub proof fn law_semantic_match_checks_every_named_attribute(edge: DocEdge, sel: EdgeSelector)
    ensures
        sel matches EdgeSelector::Semantic { source, target, label, stroke, arrow_start, arrow_end, minlen }
            ==> (spec_semantic_match(edge, sel) <==> {
            &&& edge.source@ == source@
            &&& edge.target@ == target@
            &&& label matches Some(l) ==> (edge.label matches Some(el) && el@ == l@)
            &&& stroke matches Some(x) ==> edge.stroke == x
            &&& arrow_start matches Some(x) ==> edge.arrow_start == x
            &&& arrow_end matches Some(x) ==> edge.arrow_end == x
            &&& minlen matches Some(x) ==> edge.minlen == x
        }),
        sel is Id ==> !spec_semantic_match(edge, sel),
{
}

/// A semantic selector resolves to a single edge only when that edge agrees
/// with every attribute the selector names and no other edge does; when it
/// finds none, no edge agrees.
pub proof fn law_semantic_selection_is_the_unique_agreeing_edge(d: DocView, sel: EdgeSelector)
    ensures
        sel is Semantic ==> (spec_resolve_edge(d, sel) matches Ok(i) ==> 0 <= i < d.edges.len() && spec_semantic_match(
            d.edges[i],
            sel,
        ) && forall|j: int| 0 <= j < d.edges.len() && j != i ==> !spec_semantic_match(#[trigger] d.edges[j], sel)),
        sel is Semantic ==> (spec_resolve_edge(d, sel) matches Err(ErrView::EdgeSelectorNoMatch(_)) ==> forall|j: int|
            0 <= j < d.edges.len() ==> !spec_semantic_match(#[trigger] d.edges[j], sel)),
{
    if sel is Semantic {
        lemma_matches_below(d.edges, sel, d.edges.len());
        let ms = matches_upto(d.edges, sel, d.edges.len());
        if ms.len() == 1 {
            assert forall|j: int| 0 <= j < d.edges.len() && j != ms[0] implies !spec_semantic_match(#[trigger] d.edges[j], sel) by {
                if spec_semantic_match(d.edges[j], sel) {
                    assert(ms.contains(j));
                }
            }
        }
        if ms.len() == 0 {
            assert forall|j: int| 0 <= j < d.edges.len() implies !spec_semantic_match(#[trigger] d.edges[j], sel) by {
                if spec_semantic_match(d.edges[j], sel) {
                    assert(ms.contains(j));
                }
            }
        }
    }
}

/// Relabelling an edge changes only that edge's label.
pub proof fn law_edge_label_change_touches_only_the_label(d: DocView, edge: EdgeSelector, label: Option<String>, fresh: String)
    ensures
        spec_plan_command(Command::ChangeEdgeLabel { edge, label }, d, fresh) matches Ok(StepView::Relayout(c, ev))
            ==> exists|i: int|
            #![trigger d.edges[i]]
            spec_resolve_edge(d, edge) == Ok::<int, ErrView>(i) && 0 <= i < d.edges.len() && c.edges.len()
                == d.edges.len() && c.edges[i] == (DocEdge { label: label, ..d.edges[i] }) && (forall|j: int|
                0 <= j < d.edges.len() && j != i ==> #[trigger] c.edges[j] == d.edges[j]) && c.nodes == d.nodes
                && c.subgraphs == d.subgraphs && ev == edge_event_of(ModelEventKind::EdgeLabelChanged, d.edges[i].id),
{
    lemma_resolve_in_range(d, edge);
}

/// Changing an edge's endpoint intent sets exactly its two subgraph ends.
pub proof fn law_endpoint_intent_touches_only_the_subgraph_ends(
    d: DocView,
    edge: EdgeSelector,
    from_subgraph: Option<String>,
    to_subgraph: Option<String>,
    fresh: String,
)
    ensures
        spec_plan_command(Command::SetEdgeEndpointIntent { edge, from_subgraph, to_subgraph }, d, fresh) matches Ok(
            StepView::Relayout(c, ev),
        ) ==> exists|i: int|
            #![trigger d.edges[i]]
            spec_resolve_edge(d, edge) == Ok::<int, ErrView>(i) && 0 <= i < d.edges.len() && c.edges.len()
                == d.edges.len() && c.edges[i] == (DocEdge {
                from_subgraph: from_subgraph,
                to_subgraph: to_subgraph,
                ..d.edges[i]
            }) && (forall|j: int| 0 <= j < d.edges.len() && j != i ==> #[trigger] c.edges[j] == d.edges[j])
                && c.nodes == d.nodes && c.subgraphs == d.subgraphs && ev == edge_event_of(
                ModelEventKind::EdgeEndpointIntentChanged,
                d.edges[i].id,
            ),
{
    lemma_resolve_in_range(d, edge);
}

/// Restyling an edge sets each style attribute the command names and keeps
/// the others.
pub proof fn law_edge_style_sets_named_attributes(
    d: DocView,
    edge: EdgeSelector,
    stroke: Option<Stroke>,
    arrow_start: Option<Arrow>,
    arrow_end: Option<Arrow>,
    minlen: Option<i32>,
    fresh: String,
)
    ensures
        spec_plan_command(Command::ChangeEdgeStyle { edge, stroke, arrow_start, arrow_end, minlen }, d, fresh) matches Ok(
            StepView::Relayout(c, ev),
        ) ==> exists|i: int|
            #![trigger d.edges[i]]
            spec_resolve_edge(d, edge) == Ok::<int, ErrView>(i) && 0 <= i < d.edges.len() && c.edges.len()
                == d.edges.len() && c.edges[i].id == d.edges[i].id && c.edges[i].source == d.edges[i].source
                && c.edges[i].target == d.edges[i].target && c.edges[i].label == d.edges[i].label
                && c.edges[i].from_subgraph == d.edges[i].from_subgraph && c.edges[i].to_subgraph
                == d.edges[i].to_subgraph && (stroke matches Some(x) ==> c.edges[i].stroke == x) && (stroke is None
                ==> c.edges[i].stroke == d.edges[i].stroke) && (arrow_start matches Some(x) ==> c.edges[i].arrow_start
                == x) && (arrow_start is None ==> c.edges[i].arrow_start == d.edges[i].arrow_start) && (
            arrow_end matches Some(x) ==> c.edges[i].arrow_end == x) && (arrow_end is None ==> c.edges[i].arrow_end
                == d.edges[i].arrow_end) && (minlen matches Some(x) ==> c.edges[i].minlen == x) && (minlen is None
                ==> c.edges[i].minlen == d.edges[i].minlen) && (forall|j: int|
                0 <= j < d.edges.len() && j != i ==> #[trigger] c.edges[j] == d.edges[j]) && c.nodes == d.nodes
                && c.subgraphs == d.subgraphs && ev == edge_event_of(ModelEventKind::EdgeStyleChanged, d.edges[i].id),
{
    lemma_resolve_in_range(d, edge);
}

/// Removing an edge drops exactly the selected edge and keeps the others in
/// order.
pub proof fn law_remove_edge_drops_only_the_selected_edge(d: DocView, edge: EdgeSelector, fresh: String)
    ensures
        spec_plan_command(Command::RemoveEdge { edge }, d, fresh) matches Ok(StepView::Relayout(c, ev)) ==> exists|
            i: int,
        |
            #![trigger d.edges[i]]
            spec_resolve_edge(d, edge) == Ok::<int, ErrView>(i) && 0 <= i < d.edges.len() && c.edges.len() + 1
                == d.edges.len() && (forall|j: int| 0 <= j < i ==> #[trigger] c.edges[j] == d.edges[j]) && (forall|
                j: int,
            |
                i <= j < c.edges.len() ==> #[trigger] c.edges[j] == d.edges[j + 1]) && c.nodes == d.nodes
                && c.subgraphs == d.subgraphs && ev == edge_event_of(ModelEventKind::EdgeRemoved, d.edges[i].id),
{
    lemma_resolve_in_range(d, edge);
}

/// Adding an edge appends one edge between the named nodes with the given
/// attributes and leaves the rest; its id has the next dense id's text, and
/// an explicit id that is already in use or is not the next dense one is
/// refused.
pub proof fn law_add_edge_appends_one_edge(
    d: DocView,
    id: Option<String>,
    source: String,
    target: String,
    from_subgraph: Option<String>,
    to_subgraph: Option<String>,
    label: Option<String>,
    stroke: Stroke,
    arrow_start: Arrow,
    arrow_end: Arrow,
    minlen: i32,
    fresh: String,
)
    ensures
        ({
            let cmd = Command::AddEdge {
                id,
                source,
                target,
                from_subgraph,
                to_subgraph,
                label,
                stroke,
                arrow_start,
                arrow_end,
                minlen,
            };
            &&& spec_plan_command(cmd, d, fresh) matches Ok(StepView::Relayout(c, ev)) ==> {
                &&& c.edges.len() == d.edges.len() + 1
                &&& forall|j: int| 0 <= j < d.edges.len() ==> #[trigger] c.edges[j] == d.edges[j]
                &&& c.edges[d.edges.len() as int] == (DocEdge {
                    id: fresh,
                    source,
                    target,
                    from_subgraph,
                    to_subgraph,
                    label,
                    stroke,
                    arrow_start,
                    arrow_end,
                    minlen,
                })
                &&& node_pos(d, source@) is Some && node_pos(d, target@) is Some
                &&& c.nodes == d.nodes && c.subgraphs == d.subgraphs
                &&& ev == edge_event_of(ModelEventKind::EdgeAdded, fresh)
            }
            &&& match id {
                Some(x) => (edge_pos(d, x@) is Some ==> spec_plan_command(cmd, d, fresh) == Err::<StepView, ErrView>(
                    ErrView::AddEdgeIdCollision(x@),
                )) && (edge_pos(d, x@) is None && x@ != next_edge_id(d) ==> spec_plan_command(cmd, d, fresh) == Err::<
                    StepView,
                    ErrView,
                >(ErrView::AddEdgeIdUnsupported(x@, next_edge_id(d)))),
                None => true,
            }
        }),
{
}

/// Changing a node's label, shape or parent changes only that field of the
/// first node with the given id.
pub proof fn law_node_edits_touch_only_one_field(d: DocView, node: String, text: String, parent: Option<String>, fresh: String)
    ensures
        spec_plan_command(Command::ChangeNodeLabel { node, label: text }, d, fresh) matches Ok(StepView::Relayout(c, _))
            ==> exists|i: int|
            #![trigger d.nodes[i]]
            0 <= i < d.nodes.len() && d.nodes[i].id@ == node@ && c.nodes == d.nodes.update(i, DocNode { label: text, ..d.nodes[i] })
                && c.edges == d.edges && c.subgraphs == d.subgraphs,
        spec_plan_command(Command::ChangeNodeShape { node, shape: text }, d, fresh) matches Ok(StepView::Relayout(c, _))
            ==> exists|i: int|
            #![trigger d.nodes[i]]
            0 <= i < d.nodes.len() && d.nodes[i].id@ == node@ && c.nodes == d.nodes.update(i, DocNode { shape: text, ..d.nodes[i] })
                && c.edges == d.edges && c.subgraphs == d.subgraphs,
        spec_plan_command(Command::SetNodeParent { node, parent }, d, fresh) matches Ok(StepView::Relayout(c, _))
            ==> exists|i: int|
            #![trigger d.nodes[i]]
            0 <= i < d.nodes.len() && d.nodes[i].id@ == node@ && c.nodes == d.nodes.update(i, DocNode { parent: parent, ..d.nodes[i] })
                && c.edges == d.edges && c.subgraphs == d.subgraphs,
{
    lemma_first_where(d.nodes, node_named(node@));
}

/// Changing a subgraph's membership reparents nodes and nothing else about
/// them: the first node named by each added child gets the subgraph as its
/// parent; the first node named by a removed child that is not also added no
/// longer has the subgraph as its parent; nodes no command id names keep
/// their parent; every node keeps its id, label and shape, and edges stay.
pub proof fn law_membership_reparents_children(
    d: DocView,
    subgraph: String,
    added_children: Vec<String>,
    removed_children: Vec<String>,
    added_concurrent_regions: Vec<String>,
    removed_concurrent_regions: Vec<String>,
    fresh: String,
)
    ensures
        spec_plan_command(
            Command::ChangeSubgraphMembership {
                subgraph,
                added_children,
                removed_children,
                added_concurrent_regions,
                removed_concurrent_regions,
            },
            d,
            fresh,
        ) matches Ok(StepView::Relayout(c, ev)) ==> {
            &&& c.edges == d.edges
            &&& c.nodes.len() == d.nodes.len()
            &&& forall|b: int|
                0 <= b < d.nodes.len() ==> (#[trigger] c.nodes[b]).id == d.nodes[b].id && c.nodes[b].label
                    == d.nodes[b].label && c.nodes[b].shape == d.nodes[b].shape
            &&& forall|a: int|
                #![trigger added_children@[a]]
                0 <= a < added_children@.len() ==> exists|i: int|
                    0 <= i < c.nodes.len() && (#[trigger] c.nodes[i]).id@ == added_children@[a]@ && c.nodes[i].parent
                        == Some(subgraph)
            &&& forall|r: int|
                #![trigger removed_children@[r]]
                0 <= r < removed_children@.len() && (forall|a: int|
                    0 <= a < added_children@.len() ==> (#[trigger] added_children@[a])@ != removed_children@[r]@)
                    ==> exists|i: int|
                    0 <= i < c.nodes.len() && (#[trigger] c.nodes[i]).id@ == removed_children@[r]@ && !names(
                        c.nodes[i].parent,
                        subgraph@,
                    )
            &&& forall|b: int|
                0 <= b < d.nodes.len() && (forall|a: int|
                    0 <= a < added_children@.len() ==> (#[trigger] added_children@[a])@ != d.nodes[b].id@) && (forall|
                    r: int,
                |
                    0 <= r < removed_children@.len() ==> (#[trigger] removed_children@[r])@ != d.nodes[b].id@)
                    ==> (#[trigger] c.nodes[b]).parent == d.nodes[b].parent
            &&& ev == subgraph_event_of(ModelEventKind::SubgraphMembershipChanged, subgraph)
        },
{
    let added = added_children@;
    let removed = removed_children@;
    let cmd = Command::ChangeSubgraphMembership {
        subgraph,
        added_children,
        removed_children,
        added_concurrent_regions,
        removed_concurrent_regions,
    };
    if spec_plan_command(cmd, d, fresh) is Ok {
        let rel = release_children(d.nodes, removed, subgraph@, removed.len());
        let fin = with_node_parents(rel, added, Some(subgraph), added.len());
        lemma_release_children_keeps_names(d.nodes, removed, subgraph@, removed.len());
        lemma_with_node_parents(rel, added, Some(subgraph), added.len());
        let t = subgraph_pos(d, subgraph@)->Some_0;
        let c = with_membership(
            d,
            subgraph,
            t,
            added,
            removed,
            added_concurrent_regions@,
            removed_concurrent_regions@,
        );
        assert(c.nodes == fin);
        assert(c.edges == d.edges);
        // Every added child names an existing node.
        lemma_first_where(added, node_absent(d));
        assert forall|a: int| #![trigger added[a]] 0 <= a < added.len() implies exists|i: int|
            0 <= i < c.nodes.len() && (#[trigger] c.nodes[i]).id@ == added[a]@ && c.nodes[i].parent == Some(subgraph) by {
            assert(!node_absent(d)(added[a]));
            lemma_first_where(d.nodes, node_named(added[a]@));
            lemma_same_names_same_positions(rel, d.nodes, added[a]@);
            let i = first_where(d.nodes, node_named(added[a]@))->Some_0;
            assert(fin[i].parent == Some(subgraph));
            assert(fin[i].id == d.nodes[i].id);
        }
        lemma_first_where(removed, node_absent(d));
        assert forall|r: int|
            #![trigger removed[r]]
            0 <= r < removed.len() && (forall|a: int| 0 <= a < added.len() ==> (#[trigger] added[a])@ != removed[r]@)
                implies exists|i: int|
            0 <= i < c.nodes.len() && (#[trigger] c.nodes[i]).id@ == removed[r]@ && !names(c.nodes[i].parent, subgraph@) by {
            assert(!node_absent(d)(removed[r]));
            lemma_first_where(d.nodes, node_named(removed[r]@));
            let i = first_where(d.nodes, node_named(removed[r]@))->Some_0;
            assert(!names(rel[i].parent, subgraph@));
            assert forall|a: int| 0 <= a < added.len() implies #[trigger] first_where(rel, node_named(added[a]@)) != Some(i) by {
                lemma_same_names_same_positions(rel, d.nodes, added[a]@);
                lemma_first_where(d.nodes, node_named(added[a]@));
                assert(added[a]@ != removed[r]@);
            }
            assert(fin[i].parent == rel[i].parent);
            assert(fin[i].id == d.nodes[i].id);
        }
        assert forall|b: int|
            0 <= b < d.nodes.len() && (forall|a: int| 0 <= a < added.len() ==> (#[trigger] added[a])@ != d.nodes[b].id@)
                && (forall|r: int| 0 <= r < removed.len() ==> (#[trigger] removed[r])@ != d.nodes[b].id@) implies (
        #[trigger] c.nodes[b]).parent == d.nodes[b].parent by {
            assert forall|r: int| 0 <= r < removed.len() implies #[trigger] first_where(d.nodes, node_named(removed[r]@)) != Some(b) by {
                lemma_first_where(d.nodes, node_named(removed[r]@));
                assert(removed[r]@ != d.nodes[b].id@);
            }
            assert(rel[b].parent == d.nodes[b].parent);
            assert forall|a: int| 0 <= a < added.len() implies #[trigger] first_where(rel, node_named(added[a]@)) != Some(b) by {
                lemma_same_names_same_positions(rel, d.nodes, added[a]@);
                lemma_first_where(d.nodes, node_named(added[a]@));
                assert(added[a]@ != d.nodes[b].id@);
            }
        }
    }
}

/// Adding a subgraph appends it after the existing ones with its id, its
/// title (the id when none is given), direction, visibility and concurrent
/// regions; the first node named by each child gets it as parent, nodes no
/// child id names keep their parent, and edges stay.
pub proof fn law_add_subgraph_appends_and_adopts_children(
    d: DocView,
    id: String,
    title: Option<String>,
    parent: Option<String>,
    direction: Option<String>,
    children: Vec<String>,
    concurrent_regions: Vec<String>,
    invisible: bool,
    fresh: String,
)
    ensures
        spec_plan_command(
            Command::AddSubgraph { id, title, parent, direction, children, concurrent_regions, invisible },
            d,
            fresh,
        ) matches Ok(StepView::Relayout(c, ev)) ==> {
            let n = d.subgraphs.len() as int;
            &&& c.edges == d.edges
            &&& c.subgraphs.len() == n + 1
            &&& c.subgraphs[n].id == id
            &&& c.subgraphs[n].title == (match title {
                Some(t) => t,
                None => id,
            })
            &&& c.subgraphs[n].direction == direction
            &&& c.subgraphs[n].invisible == invisible
            &&& c.subgraphs[n].concurrent_regions == concurrent_regions@
            &&& forall|j: int| 0 <= j < n ==> (#[trigger] c.subgraphs[j]).id == d.subgraphs[j].id
            &&& c.nodes.len() == d.nodes.len()
            &&& forall|a: int|
                #![trigger children@[a]]
                0 <= a < children@.len() ==> exists|i: int|
                    0 <= i < c.nodes.len() && (#[trigger] c.nodes[i]).id@ == children@[a]@ && c.nodes[i].parent == Some(id)
            &&& forall|b: int|
                0 <= b < d.nodes.len() && (forall|a: int|
                    0 <= a < children@.len() ==> (#[trigger] children@[a])@ != d.nodes[b].id@) ==> (
                #[trigger] c.nodes[b]).parent == d.nodes[b].parent && c.nodes[b].id == d.nodes[b].id
            &&& ev == subgraph_event_of(ModelEventKind::SubgraphAdded, id)
        },
{
    let ch = children@;
    let cmd = Command::AddSubgraph { id, title, parent, direction, children, concurrent_regions, invisible };
    if spec_plan_command(cmd, d, fresh) is Ok {
        let d1 = synced(d);
        let d2 = with_subgraphs(d1, d1.subgraphs.push(new_subgraph(id, title, parent, direction, concurrent_regions@, invisible)));
        let nodes = with_node_parents(d.nodes, ch, Some(id), ch.len());
        lemma_with_node_parents(d.nodes, ch, Some(id), ch.len());
        lemma_with_subgraph_parents_keeps(d2.subgraphs, concurrent_regions@, Some(id), concurrent_regions@.len());
        let d4subs = with_subgraph_parents(d2.subgraphs, concurrent_regions@, Some(id), concurrent_regions@.len());
        let c = with_added_subgraph(d, id, title, parent, direction, ch, concurrent_regions@, invisible);
        assert(c.nodes == nodes);
        let n = d.subgraphs.len() as int;
        assert(c.subgraphs[n].id == d4subs[n].id);
        assert forall|j: int| 0 <= j < n implies (#[trigger] c.subgraphs[j]).id == d.subgraphs[j].id by {
            assert(c.subgraphs[j].id == d4subs[j].id);
            assert(d2.subgraphs[j] == d1.subgraphs[j]);
        }
        lemma_first_where(ch, node_absent(d));
        assert forall|a: int| #![trigger ch[a]] 0 <= a < ch.len() implies exists|i: int|
            0 <= i < c.nodes.len() && (#[trigger] c.nodes[i]).id@ == ch[a]@ && c.nodes[i].parent == Some(id) by {
            assert(!node_absent(d)(ch[a]));
            lemma_first_where(d.nodes, node_named(ch[a]@));
            let i = first_where(d.nodes, node_named(ch[a]@))->Some_0;
            assert(nodes[i].parent == Some(id));
            assert(nodes[i].id == d.nodes[i].id);
        }
        assert forall|b: int|
            0 <= b < d.nodes.len() && (forall|a: int| 0 <= a < ch.len() ==> (#[trigger] ch[a])@ != d.nodes[b].id@) implies (
        #[trigger] c.nodes[b]).parent == d.nodes[b].parent && c.nodes[b].id == d.nodes[b].id by {
            assert forall|a: int| 0 <= a < ch.len() implies #[trigger] first_where(d.nodes, node_named(ch[a]@)) != Some(b) by {
                lemma_first_where(d.nodes, node_named(ch[a]@));
                assert(ch[a]@ != d.nodes[b].id@);
            }
        }
    }
}

/// A semantic selector that matches several edges is ambiguous, and the
/// error lists the ids of exactly the matching edges, in edge order; an id
/// selector is never ambiguous.
pub proof fn law_ambiguity_lists_every_match_in_order(d: DocView, sel: EdgeSelector)
    ensures
        spec_resolve_edge(d, sel) matches Err(ErrView::EdgeSelectorAmbiguous(s, ids)) ==> s == sel && sel is Semantic
            && exists|ms: Seq<int>|
            {
                &&& ms.len() >= 2
                &&& ids == ms.map_values(|i: int| d.edges[i].id@)
                &&& forall|a: int| 0 <= a < ms.len() ==> 0 <= #[trigger] ms[a] < d.edges.len() && spec_semantic_match(d.edges[ms[a]], sel)
                &&& forall|a: int, b: int| 0 <= a < b < ms.len() ==> #[trigger] ms[a] < #[trigger] ms[b]
                &&& forall|j: int| 0 <= j < d.edges.len() && spec_semantic_match(#[trigger] d.edges[j], sel) ==> ms.contains(j)
            },
{
    if sel is Semantic {
        lemma_matches_below(d.edges, sel, d.edges.len());
    }
}

} // verus!
