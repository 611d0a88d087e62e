//! The semantic part of an MMDS document: nodes, edges and subgraphs with the
//! fields that commands read and write. Geometry is left to relayout.

use vstd::prelude::*;

use crate::commands::{Arrow, Stroke};

verus! {

/// A node of the document. `shape` is the MMDS shape token.
#[derive(Debug, Clone, PartialEq, Eq)]
pub struct DocNode {
    pub id: String,
    pub label: String,
    pub shape: String,
    pub parent: Option<String>,
}

/// An edge of the document.
#[derive(Debug, Clone, PartialEq, Eq)]
pub struct DocEdge {
    pub id: String,
    pub source: String,
    pub target: String,
    pub from_subgraph: Option<String>,
    pub to_subgraph: Option<String>,
    pub label: Option<String>,
    pub stroke: Stroke,
    pub arrow_start: Arrow,
    pub arrow_end: Arrow,
    pub minlen: i32,
}

/// A subgraph of the document. `direction` is the MMDS direction token.
#[derive(Debug, Clone, PartialEq, Eq)]
pub struct DocSubgraph {
    pub id: String,
    pub title: String,
    pub children: Vec<String>,
    pub parent: Option<String>,
    pub direction: Option<String>,
    pub invisible: bool,
    pub concurrent_regions: Vec<String>,
}

/// The semantic model of a document. `geometry_level` and `direction` are
/// MMDS tokens; `engine` is the document-owned engine selection.
#[derive(Debug, Clone, PartialEq, Eq)]
pub struct DocModel {
    pub nodes: Vec<DocNode>,
    pub edges: Vec<DocEdge>,
    pub subgraphs: Vec<DocSubgraph>,
    pub geometry_level: String,
    pub direction: String,
    pub engine: Option<String>,
    pub profiles: Vec<String>,
}

/// Mathematical form of a subgraph.
pub struct SubgraphView {
    pub id: String,
    pub title: String,
    pub children: Seq<String>,
    pub parent: Option<String>,
    pub direction: Option<String>,
    pub invisible: bool,
    pub concurrent_regions: Seq<String>,
}

impl View for DocSubgraph {
    type V = SubgraphView;

    open spec fn view(&self) -> SubgraphView {
        SubgraphView {
            id: self.id,
            title: self.title,
            children: self.children@,
            parent: self.parent,
            direction: self.direction,
            invisible: self.invisible,
            concurrent_regions: self.concurrent_regions@,
        }
    }
}

/// Mathematical form of a document.
pub struct DocView {
    pub nodes: Seq<DocNode>,
    pub edges: Seq<DocEdge>,
    pub subgraphs: Seq<SubgraphView>,
    pub geometry_level: String,
    pub direction: String,
    pub engine: Option<String>,
    pub profiles: Seq<String>,
}

/// The views of a sequence of subgraphs.
pub open spec fn subgraph_views(s: Seq<DocSubgraph>) -> Seq<SubgraphView> {
    s.map_values(|g: DocSubgraph| g@)
}

impl View for DocModel {
    type V = DocView;

    open spec fn view(&self) -> DocView {
        DocView {
            nodes: self.nodes@,
            edges: self.edges@,
            subgraphs: subgraph_views(self.subgraphs@),
            geometry_level: self.geometry_level,
            direction: self.direction,
            engine: self.engine,
            profiles: self.profiles@,
        }
    }
}

/// The first position of `s` whose element satisfies `p`.
pub open spec fn first_where<T>(s: Seq<T>, p: spec_fn(T) -> bool) -> Option<int>
    decreases s.len(),
{
    if s.len() == 0 {
        None
    } else {
        match first_where(s.drop_last(), p) {
            Some(i) => Some(i),
            None => if p(s.last()) {
                Some(s.len() - 1)
            } else {
                None
            },
        }
    }
}

/// `first_where` is the least satisfying position, or none exists.
pub proof fn lemma_first_where<T>(s: Seq<T>, p: spec_fn(T) -> bool)
    ensures
        match first_where(s, p) {
            Some(i) => 0 <= i < s.len() && p(s[i]) && forall|j: int| 0 <= j < i ==> !p(#[trigger] s[j]),
            None => forall|j: int| 0 <= j < s.len() ==> !p(#[trigger] s[j]),
        },
    decreases s.len(),
{
    if s.len() > 0 {
        lemma_first_where(s.drop_last(), p);
        assert forall|j: int| 0 <= j < s.len() - 1 implies s.drop_last()[j] == s[j] by {}
    }
}

/// A position that satisfies `p` with none before it is the first one.
pub proof fn lemma_first_where_at<T>(s: Seq<T>, p: spec_fn(T) -> bool, i: int)
    requires
        0 <= i < s.len(),
        p(s[i]),
        forall|j: int| 0 <= j < i ==> !p(#[trigger] s[j]),
    ensures
        first_where(s, p) == Some(i),
{
    lemma_first_where(s, p);
}

/// When nothing satisfies `p` there is no first position.
pub proof fn lemma_first_where_none<T>(s: Seq<T>, p: spec_fn(T) -> bool)
    requires
        forall|j: int| 0 <= j < s.len() ==> !p(#[trigger] s[j]),
    ensures
        first_where(s, p) is None,
{
    lemma_first_where(s, p);
}

/// The elements of the first `k` of `s` that satisfy `p`, in order.
pub open spec fn keep_upto<T>(s: Seq<T>, p: spec_fn(T) -> bool, k: nat) -> Seq<T>
    decreases k,
{
    if k == 0 {
        Seq::empty()
    } else if p(s[k - 1]) {
        keep_upto(s, p, (k - 1) as nat).push(s[k - 1])
    } else {
        keep_upto(s, p, (k - 1) as nat)
    }
}

/// The elements of `s` that satisfy `p`, in order.
pub open spec fn keep<T>(s: Seq<T>, p: spec_fn(T) -> bool) -> Seq<T> {
    keep_upto(s, p, s.len())
}

/// A node whose id is `id`.
pub open spec fn node_named(id: Seq<char>) -> spec_fn(DocNode) -> bool {
    |n: DocNode| n.id@ == id
}

/// A subgraph whose id is `id`.
pub open spec fn subgraph_named(id: Seq<char>) -> spec_fn(SubgraphView) -> bool {
    |s: SubgraphView| s.id@ == id
}

/// An edge whose id is `id`.
pub open spec fn edge_named(id: Seq<char>) -> spec_fn(DocEdge) -> bool {
    |e: DocEdge| e.id@ == id
}

/// A string other than `id`.
pub open spec fn other_than(id: Seq<char>) -> spec_fn(String) -> bool {
    |s: String| s@ != id
}

/// `parent` names `id`.
pub open spec fn names(parent: Option<String>, id: Seq<char>) -> bool {
    parent matches Some(p) && p@ == id
}

/// Position of the first node named `id`.
pub open spec fn node_pos(doc: DocView, id: Seq<char>) -> Option<int> {
    first_where(doc.nodes, node_named(id))
}

/// Position of the first subgraph named `id`.
pub open spec fn subgraph_pos(doc: DocView, id: Seq<char>) -> Option<int> {
    first_where(doc.subgraphs, subgraph_named(id))
}

/// Position of the first edge named `id`.
pub open spec fn edge_pos(doc: DocView, id: Seq<char>) -> Option<int> {
    first_where(doc.edges, edge_named(id))
}

/// A copy of `s`.
pub fn copy_strings(s: &Vec<String>) -> (r: Vec<String>)
    ensures
        r@ == s@,
{
    let mut out: Vec<String> = Vec::new();
    let mut i: usize = 0;
    while i < s.len()
        invariant
            i <= s.len(),
            out@ == s@.take(i as int),
        decreases s.len() - i,
    {
        out.push(s[i].clone());
        i = i + 1;
        proof {
            assert(out@ =~= s@.take(i as int));
        }
    }
    proof {
        assert(out@ =~= s@);
    }
    out
}

/// A copy of `o`.
pub fn copy_opt(o: &Option<String>) -> (r: Option<String>)
    ensures
        r == *o,
{
    match o {
        Some(s) => Some(s.clone()),
        None => None,
    }
}

impl DocNode {
    /// A copy of this node.
    pub fn duplicate(&self) -> (r: Self)
        ensures
            r == *self,
    {
        DocNode {
            id: self.id.clone(),
            label: self.label.clone(),
            shape: self.shape.clone(),
            parent: copy_opt(&self.parent),
        }
    }
}

impl DocEdge {
    /// A copy of this edge.
    pub fn duplicate(&self) -> (r: Self)
        ensures
            r == *self,
    {
        DocEdge {
            id: self.id.clone(),
            source: self.source.clone(),
            target: self.target.clone(),
            from_subgraph: copy_opt(&self.from_subgraph),
            to_subgraph: copy_opt(&self.to_subgraph),
            label: copy_opt(&self.label),
            stroke: self.stroke,
            arrow_start: self.arrow_start,
            arrow_end: self.arrow_end,
            minlen: self.minlen,
        }
    }
}

impl DocSubgraph {
    /// A copy of this subgraph.
    pub fn duplicate(&self) -> (r: Self)
        ensures
            r@ == self@,
    {
        DocSubgraph {
            id: self.id.clone(),
            title: self.title.clone(),
            children: copy_strings(&self.children),
            parent: copy_opt(&self.parent),
            direction: copy_opt(&self.direction),
            invisible: self.invisible,
            concurrent_regions: copy_strings(&self.concurrent_regions),
        }
    }
}

/// A copy of `v`.
pub fn copy_nodes(v: &Vec<DocNode>) -> (r: Vec<DocNode>)
    ensures
        r@ == v@,
{
    let mut out: Vec<DocNode> = Vec::new();
    let mut i: usize = 0;
    while i < v.len()
        invariant
            i <= v.len(),
            out@ == v@.take(i as int),
        decreases v.len() - i,
    {
        out.push(v[i].duplicate());
        i = i + 1;
        proof {
            assert(out@ =~= v@.take(i as int));
        }
    }
    proof {
        assert(out@ =~= v@);
    }
    out
}

/// A copy of `v`.
pub fn copy_edges(v: &Vec<DocEdge>) -> (r: Vec<DocEdge>)
    ensures
        r@ == v@,
{
    let mut out: Vec<DocEdge> = Vec::new();
    let mut i: usize = 0;
    while i < v.len()
        invariant
            i <= v.len(),
            out@ == v@.take(i as int),
        decreases v.len() - i,
    {
        out.push(v[i].duplicate());
        i = i + 1;
        proof {
            assert(out@ =~= v@.take(i as int));
        }
    }
    proof {
        assert(out@ =~= v@);
    }
    out
}

/// A copy of `v`.
pub fn copy_subgraphs(v: &Vec<DocSubgraph>) -> (r: Vec<DocSubgraph>)
    ensures
        subgraph_views(r@) == subgraph_views(v@),
{
    let mut out: Vec<DocSubgraph> = Vec::new();
    let mut i: usize = 0;
    while i < v.len()
        invariant
            i <= v.len(),
            out@.len() == i,
            forall|j: int| 0 <= j < i ==> (#[trigger] out@[j])@ == v@[j]@,
        decreases v.len() - i,
    {
        out.push(v[i].duplicate());
        i = i + 1;
    }
    proof {
        assert(subgraph_views(out@) =~= subgraph_views(v@));
    }
    out
}

impl DocModel {
    /// A copy of this document.
    pub fn duplicate(&self) -> (r: Self)
        ensures
            r@ == self@,
    {
        DocModel {
            nodes: copy_nodes(&self.nodes),
            edges: copy_edges(&self.edges),
            subgraphs: copy_subgraphs(&self.subgraphs),
            geometry_level: self.geometry_level.clone(),
            direction: self.direction.clone(),
            engine: copy_opt(&self.engine),
            profiles: copy_strings(&self.profiles),
        }
    }
}

/// Position of the first node named `id`, if any.
pub fn find_node(doc: &DocModel, id: &String) -> (r: Option<usize>)
    ensures
        match r {
            Some(i) => i < doc.nodes.len() && node_pos(doc@, id@) == Some(i as int),
            None => node_pos(doc@, id@) is None,
        },
{
    let mut i: usize = 0;
    while i < doc.nodes.len()
        invariant
            i <= doc.nodes.len(),
            forall|j: int| 0 <= j < i ==> !node_named(id@)(#[trigger] doc.nodes@[j]),
        decreases doc.nodes.len() - i,
    {
        if doc.nodes[i].id == *id {
            proof {
                lemma_first_where_at(doc.nodes@, node_named(id@), i as int);
            }
            return Some(i);
        }
        i = i + 1;
    }
    proof {
        lemma_first_where_none(doc.nodes@, node_named(id@));
    }
    None
}

/// Position of the first subgraph named `id`, if any.
pub fn find_subgraph(doc: &DocModel, id: &String) -> (r: Option<usize>)
    ensures
        match r {
            Some(i) => i < doc.subgraphs.len() && subgraph_pos(doc@, id@) == Some(i as int),
            None => subgraph_pos(doc@, id@) is None,
        },
{
    let mut i: usize = 0;
    while i < doc.subgraphs.len()
        invariant
            i <= doc.subgraphs.len(),
            forall|j: int| 0 <= j < i ==> !subgraph_named(id@)(#[trigger] doc@.subgraphs[j]),
        decreases doc.subgraphs.len() - i,
    {
        if doc.subgraphs[i].id == *id {
            proof {
                lemma_first_where_at(doc@.subgraphs, subgraph_named(id@), i as int);
            }
            return Some(i);
        }
        i = i + 1;
    }
    proof {
        lemma_first_where_none(doc@.subgraphs, subgraph_named(id@));
    }
    None
}

/// Position of the first edge named `id`, if any.
pub fn find_edge(doc: &DocModel, id: &String) -> (r: Option<usize>)
    ensures
        match r {
            Some(i) => i < doc.edges.len() && edge_pos(doc@, id@) == Some(i as int),
            None => edge_pos(doc@, id@) is None,
        },
{
    let mut i: usize = 0;
    while i < doc.edges.len()
        invariant
            i <= doc.edges.len(),
            forall|j: int| 0 <= j < i ==> !edge_named(id@)(#[trigger] doc.edges@[j]),
        decreases doc.edges.len() - i,
    {
        if doc.edges[i].id == *id {
            proof {
                lemma_first_where_at(doc.edges@, edge_named(id@), i as int);
            }
            return Some(i);
        }
        i = i + 1;
    }
    proof {
        lemma_first_where_none(doc.edges@, edge_named(id@));
    }
    None
}


/// Two sequences on which `p` agrees element by element have the same first
/// satisfying position.
pub proof fn lemma_first_where_agree<T, U>(s: Seq<T>, t: Seq<U>, p: spec_fn(T) -> bool, q: spec_fn(U) -> bool)
    requires
        s.len() == t.len(),
        forall|j: int| 0 <= j < s.len() ==> p(#[trigger] s[j]) == q(t[j]),
    ensures
        first_where(s, p) == first_where(t, q),
{
    lemma_first_where(s, p);
    lemma_first_where(t, q);
    match first_where(s, p) {
        Some(i) => {
            assert(q(t[i]));
            assert forall|j: int| 0 <= j < i implies !q(#[trigger] t[j]) by {
                assert(!p(s[j]));
            }
            lemma_first_where_at(t, q, i);
        },
        None => {
            assert forall|j: int| 0 <= j < t.len() implies !q(#[trigger] t[j]) by {
                assert(!p(s[j]));
            }
            lemma_first_where_none(t, q);
        },
    }
}

/// A node whose id is not `id`.
pub open spec fn node_not_named(id: Seq<char>) -> spec_fn(DocNode) -> bool {
    |n: DocNode| n.id@ != id
}

/// A subgraph whose id is not `id`.
pub open spec fn subgraph_not_named(id: Seq<char>) -> spec_fn(SubgraphView) -> bool {
    |s: SubgraphView| s.id@ != id
}

/// An edge with neither end at node `id`.
pub open spec fn edge_avoids(id: Seq<char>) -> spec_fn(DocEdge) -> bool {
    |e: DocEdge| e.source@ != id && e.target@ != id
}

/// `s` without `id` among its children and concurrent regions.
pub open spec fn without_member(s: SubgraphView, id: Seq<char>) -> SubgraphView {
    SubgraphView {
        children: keep(s.children, other_than(id)),
        concurrent_regions: keep(s.concurrent_regions, other_than(id)),
        ..s
    }
}

/// `d` without node `id`: the node, the edges at it, and its entries in
/// subgraph children and concurrent regions are gone.
pub open spec fn without_node(d: DocView, id: Seq<char>) -> DocView {
    DocView {
        nodes: keep(d.nodes, node_not_named(id)),
        edges: keep(d.edges, edge_avoids(id)),
        subgraphs: d.subgraphs.map_values(|s: SubgraphView| without_member(s, id)),
        ..d
    }
}

/// `s` with children `c`.
pub open spec fn with_children(s: SubgraphView, c: Seq<String>) -> SubgraphView {
    SubgraphView { children: c, ..s }
}

/// `d` with nodes `n`.
pub open spec fn with_nodes(d: DocView, n: Seq<DocNode>) -> DocView {
    DocView { nodes: n, ..d }
}

/// `d` with edges `e`.
pub open spec fn with_edges(d: DocView, e: Seq<DocEdge>) -> DocView {
    DocView { edges: e, ..d }
}

/// An id that names no node of `d`.
pub open spec fn node_absent(d: DocView) -> spec_fn(String) -> bool {
    |x: String| node_pos(d, x@) is None
}

/// An id that names no subgraph of `d`.
pub open spec fn subgraph_absent(d: DocView) -> spec_fn(String) -> bool {
    |x: String| subgraph_pos(d, x@) is None
}

/// `d` with subgraphs `g`.
pub open spec fn with_subgraphs(d: DocView, g: Seq<SubgraphView>) -> DocView {
    DocView { subgraphs: g, ..d }
}

/// Ids of the first `k` nodes whose parent names the subgraph at `j`, when
/// `j` is the first subgraph with that name.
pub open spec fn members_upto(nodes: Seq<DocNode>, subs: Seq<SubgraphView>, j: int, k: nat) -> Seq<String>
    decreases k,
{
    if k == 0 {
        Seq::empty()
    } else {
        let prev = members_upto(nodes, subs, j, (k - 1) as nat);
        let n = nodes[k - 1];
        match n.parent {
            Some(p) => if first_where(subs, subgraph_named(p@)) == Some(j) {
                prev.push(n.id)
            } else {
                prev
            },
            None => prev,
        }
    }
}

/// `d` with every subgraph's children rebuilt from the nodes' parents, in
/// node order.
pub open spec fn synced(d: DocView) -> DocView {
    DocView {
        subgraphs: Seq::new(
            d.subgraphs.len(),
            |j: int| with_children(d.subgraphs[j], members_upto(d.nodes, d.subgraphs, j, d.nodes.len())),
        ),
        ..d
    }
}

/// `nodes` with the parent of the first node named `id` set to `parent`.
pub open spec fn with_node_parent(nodes: Seq<DocNode>, id: Seq<char>, parent: Option<String>) -> Seq<DocNode> {
    match first_where(nodes, node_named(id)) {
        Some(i) => nodes.update(i, DocNode { parent: parent, ..nodes[i] }),
        None => nodes,
    }
}

/// `with_node_parent` for the first `k` ids, in order.
pub open spec fn with_node_parents(nodes: Seq<DocNode>, ids: Seq<String>, parent: Option<String>, k: nat) -> Seq<
    DocNode,
>
    decreases k,
{
    if k == 0 {
        nodes
    } else {
        with_node_parent(with_node_parents(nodes, ids, parent, (k - 1) as nat), ids[k - 1]@, parent)
    }
}

/// `subs` with the parent of the first subgraph named `id` set to `parent`.
pub open spec fn with_subgraph_parent(subs: Seq<SubgraphView>, id: Seq<char>, parent: Option<String>) -> Seq<
    SubgraphView,
> {
    match first_where(subs, subgraph_named(id)) {
        Some(i) => subs.update(i, SubgraphView { parent: parent, ..subs[i] }),
        None => subs,
    }
}

/// `with_subgraph_parent` for the first `k` ids, in order.
pub open spec fn with_subgraph_parents(
    subs: Seq<SubgraphView>,
    ids: Seq<String>,
    parent: Option<String>,
    k: nat,
) -> Seq<SubgraphView>
    decreases k,
{
    if k == 0 {
        subs
    } else {
        with_subgraph_parent(with_subgraph_parents(subs, ids, parent, (k - 1) as nat), ids[k - 1]@, parent)
    }
}

/// Remove every string equal to `id` from `v`.
pub fn retain_other_strings(v: &Vec<String>, id: &String) -> (r: Vec<String>)
    ensures
        r@ == keep(v@, other_than(id@)),
{
    let mut out: Vec<String> = Vec::new();
    let mut i: usize = 0;
    while i < v.len()
        invariant
            i <= v.len(),
            out@ == keep_upto(v@, other_than(id@), i as nat),
        decreases v.len() - i,
    {
        if v[i] != *id {
            out.push(v[i].clone());
        }
        i = i + 1;
    }
    out
}

/// Remove node `id`, the edges at it, and its subgraph memberships.
pub fn remove_node(doc: &mut DocModel, id: &String)
    ensures
        final(doc)@ == without_node(old(doc)@, id@),
{
    let ghost d0 = doc@;
    let mut nodes: Vec<DocNode> = Vec::new();
    let mut i: usize = 0;
    while i < doc.nodes.len()
        invariant
            doc@ == d0,
            i <= doc.nodes.len(),
            nodes@ == keep_upto(d0.nodes, node_not_named(id@), i as nat),
        decreases doc.nodes.len() - i,
    {
        if doc.nodes[i].id != *id {
            nodes.push(doc.nodes[i].duplicate());
        }
        i = i + 1;
    }
    let mut edges: Vec<DocEdge> = Vec::new();
    let mut i: usize = 0;
    while i < doc.edges.len()
        invariant
            doc@ == d0,
            i <= doc.edges.len(),
            edges@ == keep_upto(d0.edges, edge_avoids(id@), i as nat),
        decreases doc.edges.len() - i,
    {
        if doc.edges[i].source != *id && doc.edges[i].target != *id {
            edges.push(doc.edges[i].duplicate());
        }
        i = i + 1;
    }
    let mut subgraphs: Vec<DocSubgraph> = Vec::new();
    let mut i: usize = 0;
    while i < doc.subgraphs.len()
        invariant
            doc@ == d0,
            i <= doc.subgraphs.len(),
            subgraphs@.len() == i,
            forall|j: int| 0 <= j < i ==> (#[trigger] subgraphs@[j])@ == without_member(d0.subgraphs[j], id@),
        decreases doc.subgraphs.len() - i,
    {
        let g = &doc.subgraphs[i];
        proof {
            assert(d0.subgraphs[i as int] == g@);
        }
        let kept = DocSubgraph {
            id: g.id.clone(),
            title: g.title.clone(),
            children: retain_other_strings(&g.children, id),
            parent: copy_opt(&g.parent),
            direction: copy_opt(&g.direction),
            invisible: g.invisible,
            concurrent_regions: retain_other_strings(&g.concurrent_regions, id),
        };
        subgraphs.push(kept);
        i = i + 1;
    }
    doc.nodes = nodes;
    doc.edges = edges;
    doc.subgraphs = subgraphs;
    proof {
        assert(doc@.subgraphs =~= d0.subgraphs.map_values(|s: SubgraphView| without_member(s, id@)));
    }
}

/// Rebuild every subgraph's children from the nodes' parents.
pub fn sync_subgraph_children_from_node_parents(doc: &mut DocModel)
    ensures
        final(doc)@ == synced(old(doc)@),
{
    let ghost d0 = doc@;
    let count = doc.subgraphs.len();
    let mut j: usize = 0;
    while j < count
        invariant
            count == d0.subgraphs.len(),
            doc.subgraphs@.len() == count,
            j <= count,
            doc@.nodes == d0.nodes,
            doc@.edges == d0.edges,
            doc@.geometry_level == d0.geometry_level,
            doc@.direction == d0.direction,
            doc@.engine == d0.engine,
            doc@.profiles == d0.profiles,
            forall|t: int|
                0 <= t < j ==> (#[trigger] doc@.subgraphs[t]) == with_children(d0.subgraphs[t], Seq::empty()),
            forall|t: int| j <= t < count ==> (#[trigger] doc@.subgraphs[t]) == d0.subgraphs[t],
        decreases count - j,
    {
        let mut g = doc.subgraphs[j].duplicate();
        g.children = Vec::new();
        let ghost before = doc@.subgraphs;
        proof {
            assert(before[j as int] == d0.subgraphs[j as int]);
            assert(doc.subgraphs@[j as int]@ == before[j as int]);
            assert(g@ =~= with_children(d0.subgraphs[j as int], Seq::empty()));
        }
        doc.subgraphs.set(j, g);
        proof {
            assert(doc@.subgraphs =~= before.update(j as int, with_children(d0.subgraphs[j as int], Seq::empty())));
        }
        j = j + 1;
    }
    let n = doc.nodes.len();
    let mut k: usize = 0;
    while k < n
        invariant
            count == d0.subgraphs.len(),
            doc.subgraphs@.len() == count,
            n == d0.nodes.len(),
            k <= n,
            doc@.nodes == d0.nodes,
            doc@.edges == d0.edges,
            doc@.geometry_level == d0.geometry_level,
            doc@.direction == d0.direction,
            doc@.engine == d0.engine,
            doc@.profiles == d0.profiles,
            forall|t: int|
                0 <= t < count ==> (#[trigger] doc@.subgraphs[t]) == with_children(d0.subgraphs[t], members_upto(d0.nodes, d0.subgraphs, t, k as nat)),
        decreases n - k,
    {
        proof {
            assert forall|t: int| 0 <= t < count implies (#[trigger] doc@.subgraphs[t]).id == d0.subgraphs[t].id by {}
        }
        match &doc.nodes[k].parent {
            Some(p) => {
                let p = p.clone();
                proof {
                    assert forall|t: int| 0 <= t < count implies subgraph_named(p@)(#[trigger] doc@.subgraphs[t])
                        == subgraph_named(p@)(d0.subgraphs[t]) by {}
                    lemma_first_where_agree(doc@.subgraphs, d0.subgraphs, subgraph_named(p@), subgraph_named(p@));
                }
                match find_subgraph(doc, &p) {
                    Some(j) => {
                        let mut g = doc.subgraphs[j].duplicate();
                        g.children.push(doc.nodes[k].id.clone());
                        let ghost before = doc@.subgraphs;
                        doc.subgraphs.set(j, g);
                        proof {
                            assert(doc@.subgraphs =~= before.update(j as int, g@));
                            assert forall|t: int| 0 <= t < count implies (#[trigger] doc@.subgraphs[t]) == with_children(d0.subgraphs[t], members_upto(d0.nodes, d0.subgraphs, t, (k + 1) as nat)) by {
                                if t != j {
                                    assert(doc@.subgraphs[t] == before[t]);
                                } else {
                                    assert(doc@.subgraphs[t].children =~= members_upto(d0.nodes, d0.subgraphs, t, (k + 1) as nat));
                                }
                            }
                        }
                    },
                    None => {},
                }
            },
            None => {},
        }
        k = k + 1;
    }
    proof {
        assert(doc@.subgraphs =~= synced(d0).subgraphs);
    }
}

/// Set the parent of the first node named by each of `ids`, in order.
pub fn set_node_parents(doc: &mut DocModel, ids: &Vec<String>, parent: &Option<String>)
    ensures
        final(doc)@ == with_nodes(old(doc)@, with_node_parents(old(doc)@.nodes, ids@, *parent, ids@.len())),
{
    let ghost d0 = doc@;
    let mut k: usize = 0;
    while k < ids.len()
        invariant
            k <= ids.len(),
            doc@ == with_nodes(d0, with_node_parents(d0.nodes, ids@, *parent, k as nat)),
        decreases ids.len() - k,
    {
        match find_node(doc, &ids[k]) {
            Some(i) => {
                let mut node = doc.nodes[i].duplicate();
                node.parent = copy_opt(parent);
                doc.nodes.set(i, node);
            },
            None => {},
        }
        k = k + 1;
    }
}

/// Set the parent of the first subgraph named by each of `ids`, in order.
pub fn set_subgraph_parents(doc: &mut DocModel, ids: &Vec<String>, parent: &Option<String>)
    ensures
        final(doc)@ == with_subgraphs(old(doc)@, with_subgraph_parents(old(doc)@.subgraphs, ids@, *parent, ids@.len())),
{
    let ghost d0 = doc@;
    let mut k: usize = 0;
    while k < ids.len()
        invariant
            k <= ids.len(),
            doc@ == with_subgraphs(d0, with_subgraph_parents(d0.subgraphs, ids@, *parent, k as nat)),
        decreases ids.len() - k,
    {
        match find_subgraph(doc, &ids[k]) {
            Some(i) => {
                let mut g = doc.subgraphs[i].duplicate();
                g.parent = copy_opt(parent);
                let ghost before = doc@.subgraphs;
                doc.subgraphs.set(i, g);
                proof {
                    assert(doc@.subgraphs =~= with_subgraph_parent(before, ids@[k as int]@, *parent));
                }
            },
            None => {},
        }
        k = k + 1;
    }
}

/// `s` detached from subgraph `id`: no longer its parent or one of its
/// concurrent regions.
pub open spec fn detach_from(s: SubgraphView, id: Seq<char>) -> SubgraphView {
    SubgraphView {
        parent: if names(s.parent, id) {
            None
        } else {
            s.parent
        },
        concurrent_regions: keep(s.concurrent_regions, other_than(id)),
        ..s
    }
}

/// `n` with its parent cleared when it is subgraph `id`.
pub open spec fn orphan_node(n: DocNode, id: Seq<char>) -> DocNode {
    if names(n.parent, id) {
        DocNode { parent: None, ..n }
    } else {
        n
    }
}

/// `d` without subgraph `id`: the subgraph is gone and nothing names it as a
/// parent or a concurrent region any more.
pub open spec fn without_subgraph(d: DocView, id: Seq<char>) -> DocView {
    DocView {
        nodes: d.nodes.map_values(|n: DocNode| orphan_node(n, id)),
        subgraphs: keep(d.subgraphs, subgraph_not_named(id)).map_values(|s: SubgraphView| detach_from(s, id)),
        ..d
    }
}

/// `id` occurs in `s`.
pub open spec fn contains_str(s: Seq<String>, id: Seq<char>) -> bool {
    exists|j: int| 0 <= j < s.len() && (#[trigger] s[j])@ == id
}

/// Whether `id` occurs in `v`.
pub fn contains_string(v: &Vec<String>, id: &String) -> (r: bool)
    ensures
        r == contains_str(v@, id@),
{
    let mut i: usize = 0;
    while i < v.len()
        invariant
            i <= v.len(),
            forall|j: int| 0 <= j < i ==> (#[trigger] v@[j])@ != id@,
        decreases v.len() - i,
    {
        if v[i] == *id {
            return true;
        }
        i = i + 1;
    }
    false
}

/// Remove subgraph `id` and every reference to it as a parent or a
/// concurrent region.
pub fn remove_subgraph(doc: &mut DocModel, id: &String)
    ensures
        final(doc)@ == without_subgraph(old(doc)@, id@),
{
    let ghost d0 = doc@;
    let mut nodes: Vec<DocNode> = Vec::new();
    let mut i: usize = 0;
    while i < doc.nodes.len()
        invariant
            doc@ == d0,
            i <= doc.nodes.len(),
            nodes@.len() == i,
            forall|j: int| 0 <= j < i ==> #[trigger] nodes@[j] == orphan_node(d0.nodes[j], id@),
        decreases doc.nodes.len() - i,
    {
        let mut n = doc.nodes[i].duplicate();
        let clear = match &n.parent {
            Some(p) => *p == *id,
            None => false,
        };
        if clear {
            n.parent = None;
        }
        nodes.push(n);
        i = i + 1;
    }
    let mut subgraphs: Vec<DocSubgraph> = Vec::new();
    let mut i: usize = 0;
    while i < doc.subgraphs.len()
        invariant
            doc@ == d0,
            i <= doc.subgraphs.len(),
            subgraph_views(subgraphs@) == keep_upto(d0.subgraphs, subgraph_not_named(id@), i as nat).map_values(
                |s: SubgraphView| detach_from(s, id@),
            ),
        decreases doc.subgraphs.len() - i,
    {
        let g = &doc.subgraphs[i];
        proof {
            assert(d0.subgraphs[i as int] == g@);
        }
        if g.id != *id {
            let clear = match &g.parent {
                Some(p) => *p == *id,
                None => false,
            };
            let kept = DocSubgraph {
                id: g.id.clone(),
                title: g.title.clone(),
                children: copy_strings(&g.children),
                parent: if clear {
                    None
                } else {
                    copy_opt(&g.parent)
                },
                direction: copy_opt(&g.direction),
                invisible: g.invisible,
                concurrent_regions: retain_other_strings(&g.concurrent_regions, id),
            };
            let ghost before = subgraphs@;
            subgraphs.push(kept);
            proof {
                assert(subgraph_views(subgraphs@) =~= subgraph_views(before).push(kept@));
                assert(kept@ == detach_from(g@, id@));
                assert(keep_upto(d0.subgraphs, subgraph_not_named(id@), (i + 1) as nat).map_values(
                    |s: SubgraphView| detach_from(s, id@),
                ) =~= keep_upto(d0.subgraphs, subgraph_not_named(id@), i as nat).map_values(
                    |s: SubgraphView| detach_from(s, id@),
                ).push(detach_from(g@, id@)));
            }
        }
        i = i + 1;
    }
    doc.nodes = nodes;
    doc.subgraphs = subgraphs;
    proof {
        assert(doc@.nodes =~= d0.nodes.map_values(|n: DocNode| orphan_node(n, id@)));
    }
}

/// `nodes` where, for the first `k` ids, the first node so named loses its
/// parent when that parent is subgraph `sub`.
pub open spec fn release_children(nodes: Seq<DocNode>, ids: Seq<String>, sub: Seq<char>, k: nat) -> Seq<DocNode>
    decreases k,
{
    if k == 0 {
        nodes
    } else {
        let prev = release_children(nodes, ids, sub, (k - 1) as nat);
        match first_where(prev, node_named(ids[k - 1]@)) {
            Some(i) => if names(prev[i].parent, sub) {
                prev.update(i, DocNode { parent: None, ..prev[i] })
            } else {
                prev
            },
            None => prev,
        }
    }
}

/// Clear the parent `sub` of the first node named by each of `ids`, in order.
pub fn release_node_children(doc: &mut DocModel, ids: &Vec<String>, sub: &String)
    ensures
        final(doc)@ == with_nodes(old(doc)@, release_children(old(doc)@.nodes, ids@, sub@, ids@.len())),
{
    let ghost d0 = doc@;
    let mut k: usize = 0;
    while k < ids.len()
        invariant
            k <= ids.len(),
            doc@ == with_nodes(d0, release_children(d0.nodes, ids@, sub@, k as nat)),
        decreases ids.len() - k,
    {
        match find_node(doc, &ids[k]) {
            Some(i) => {
                let clear = match &doc.nodes[i].parent {
                    Some(p) => *p == *sub,
                    None => false,
                };
                if clear {
                    let mut node = doc.nodes[i].duplicate();
                    node.parent = None;
                    doc.nodes.set(i, node);
                }
            },
            None => {},
        }
        k = k + 1;
    }
}

/// `s` with regions `r`.
pub open spec fn with_regions(s: SubgraphView, r: Seq<String>) -> SubgraphView {
    SubgraphView { concurrent_regions: r, ..s }
}

/// One step of `release_regions`: drop `region` from the regions of the
/// subgraph at `t`, then clear the parent `sub` of the first subgraph named
/// `region`.
pub open spec fn release_region(subs: Seq<SubgraphView>, region: Seq<char>, sub: Seq<char>, t: int) -> Seq<
    SubgraphView,
> {
    let s1 = subs.update(t, with_regions(subs[t], keep(subs[t].concurrent_regions, other_than(region))));
    match first_where(s1, subgraph_named(region)) {
        Some(i) => if names(s1[i].parent, sub) {
            s1.update(i, SubgraphView { parent: None, ..s1[i] })
        } else {
            s1
        },
        None => s1,
    }
}

/// `release_region` for the first `k` regions, in order.
pub open spec fn release_regions(subs: Seq<SubgraphView>, ids: Seq<String>, sub: Seq<char>, t: int, k: nat) -> Seq<
    SubgraphView,
>
    decreases k,
{
    if k == 0 {
        subs
    } else {
        release_region(release_regions(subs, ids, sub, t, (k - 1) as nat), ids[k - 1]@, sub, t)
    }
}

/// One step of `adopt_regions`: add `region` to the regions of the subgraph
/// at `t` unless it is there, then make `sub` the parent of the first
/// subgraph named `region`.
pub open spec fn adopt_region(subs: Seq<SubgraphView>, region: String, sub: String, t: int) -> Seq<SubgraphView> {
    let s1 = if contains_str(subs[t].concurrent_regions, region@) {
        subs
    } else {
        subs.update(t, with_regions(subs[t], subs[t].concurrent_regions.push(region)))
    };
    with_subgraph_parent(s1, region@, Some(sub))
}

/// `adopt_region` for the first `k` regions, in order.
pub open spec fn adopt_regions(subs: Seq<SubgraphView>, ids: Seq<String>, sub: String, t: int, k: nat) -> Seq<
    SubgraphView,
>
    decreases k,
{
    if k == 0 {
        subs
    } else {
        adopt_region(adopt_regions(subs, ids, sub, t, (k - 1) as nat), ids[k - 1], sub, t)
    }
}

/// Each of `ids`, in order, stops being a concurrent region of the subgraph
/// at `t` and stops having `sub` as its parent.
pub fn release_subgraph_regions(doc: &mut DocModel, ids: &Vec<String>, sub: &String, t: usize)
    requires
        t < old(doc).subgraphs.len(),
    ensures
        final(doc)@ == with_subgraphs(old(doc)@, release_regions(old(doc)@.subgraphs, ids@, sub@, t as int, ids@.len())),
        final(doc).subgraphs.len() == old(doc).subgraphs.len(),
{
    let ghost d0 = doc@;
    let mut k: usize = 0;
    while k < ids.len()
        invariant
            k <= ids.len(),
            t < doc.subgraphs.len(),
            doc.subgraphs.len() == d0.subgraphs.len(),
            doc@ == with_subgraphs(d0, release_regions(d0.subgraphs, ids@, sub@, t as int, k as nat)),
        decreases ids.len() - k,
    {
        let ghost s0 = doc@.subgraphs;
        let mut g = doc.subgraphs[t].duplicate();
        g.concurrent_regions = retain_other_strings(&g.concurrent_regions, &ids[k]);
        doc.subgraphs.set(t, g);
        proof {
            assert(doc@.subgraphs =~= s0.update(
                t as int,
                with_regions(s0[t as int], keep(s0[t as int].concurrent_regions, other_than(ids@[k as int]@))),
            ));
        }
        let ghost s1 = doc@.subgraphs;
        match find_subgraph(doc, &ids[k]) {
            Some(i) => {
                let clear = match &doc.subgraphs[i].parent {
                    Some(p) => *p == *sub,
                    None => false,
                };
                if clear {
                    let mut h = doc.subgraphs[i].duplicate();
                    h.parent = None;
                    doc.subgraphs.set(i, h);
                    proof {
                        assert(doc@.subgraphs =~= s1.update(i as int, SubgraphView { parent: None, ..s1[i as int] }));
                    }
                }
            },
            None => {},
        }
        k = k + 1;
    }
}

/// Each of `ids`, in order, becomes a concurrent region of the subgraph at
/// `t` (once) and gets `sub` as its parent.
pub fn adopt_subgraph_regions(doc: &mut DocModel, ids: &Vec<String>, sub: &String, t: usize)
    requires
        t < old(doc).subgraphs.len(),
    ensures
        final(doc)@ == with_subgraphs(old(doc)@, adopt_regions(old(doc)@.subgraphs, ids@, *sub, t as int, ids@.len())),
        final(doc).subgraphs.len() == old(doc).subgraphs.len(),
{
    let ghost d0 = doc@;
    let mut k: usize = 0;
    while k < ids.len()
        invariant
            k <= ids.len(),
            t < doc.subgraphs.len(),
            doc.subgraphs.len() == d0.subgraphs.len(),
            doc@ == with_subgraphs(d0, adopt_regions(d0.subgraphs, ids@, *sub, t as int, k as nat)),
        decreases ids.len() - k,
    {
        let ghost s0 = doc@.subgraphs;
        if !contains_string(&doc.subgraphs[t].concurrent_regions, &ids[k]) {
            let mut g = doc.subgraphs[t].duplicate();
            g.concurrent_regions.push(ids[k].clone());
            doc.subgraphs.set(t, g);
            proof {
                assert(doc@.subgraphs =~= s0.update(
                    t as int,
                    with_regions(s0[t as int], s0[t as int].concurrent_regions.push(ids@[k as int])),
                ));
            }
        }
        let ghost s1 = doc@.subgraphs;
        match find_subgraph(doc, &ids[k]) {
            Some(i) => {
                let mut h = doc.subgraphs[i].duplicate();
                h.parent = Some(sub.clone());
                doc.subgraphs.set(i, h);
                proof {
                    assert(doc@.subgraphs =~= with_subgraph_parent(s1, ids@[k as int]@, Some(*sub)));
                }
            },
            None => {},
        }
        k = k + 1;
    }
}

/// What `keep_upto` keeps: elements of the first `k` that satisfy `p`, each
/// kept one taken from `s`, and every satisfying element kept.
pub proof fn lemma_keep_upto<T>(s: Seq<T>, p: spec_fn(T) -> bool, k: nat)
    requires
        k <= s.len(),
    ensures
        forall|a: int| 0 <= a < keep_upto(s, p, k).len() ==> p(#[trigger] keep_upto(s, p, k)[a]),
        forall|a: int|
            #![trigger keep_upto(s, p, k)[a]]
            0 <= a < keep_upto(s, p, k).len() ==> exists|b: int| 0 <= b < k && #[trigger] s[b] == keep_upto(s, p, k)[a],
        forall|b: int| 0 <= b < k && p(#[trigger] s[b]) ==> keep_upto(s, p, k).contains(s[b]),
    decreases k,
{
    if k > 0 {
        lemma_keep_upto(s, p, (k - 1) as nat);
        let prev = keep_upto(s, p, (k - 1) as nat);
        if p(s[k - 1]) {
            let cur = prev.push(s[k - 1]);
            assert forall|a: int| #![trigger cur[a]] 0 <= a < cur.len() implies exists|b: int| 0 <= b < k && #[trigger] s[b] == cur[a] by {
                if a < prev.len() {
                    let b = choose|b: int| 0 <= b < k - 1 && #[trigger] s[b] == prev[a];
                    assert(s[b] == cur[a]);
                } else {
                    assert(s[k - 1] == cur[a]);
                }
            }
            assert forall|b: int| 0 <= b < k && p(#[trigger] s[b]) implies cur.contains(s[b]) by {
                if b < k - 1 {
                    let a = choose|a: int| 0 <= a < prev.len() && prev[a] == s[b];
                    assert(cur[a] == s[b]);
                } else {
                    assert(cur[prev.len() as int] == s[b]);
                }
            }
        }
    }
}

/// Node `n`'s parent names a subgraph whose first occurrence is at `j`.
pub open spec fn parented_at(n: DocNode, subs: Seq<SubgraphView>, j: int) -> bool {
    match n.parent {
        Some(p) => first_where(subs, subgraph_named(p@)) == Some(j),
        None => false,
    }
}

/// The children `members_upto` lists are the ids of the first `k` nodes
/// whose parent names the subgraph at `j`, when `j` is the first subgraph with
/// that name.
proof fn lemma_members_upto(nodes: Seq<DocNode>, subs: Seq<SubgraphView>, j: int, k: nat)
    requires
        k <= nodes.len(),
    ensures
        forall|x: String|
            #[trigger] members_upto(nodes, subs, j, k).contains(x) <==> exists|b: int|
                0 <= b < k && (#[trigger] nodes[b]).id == x && parented_at(nodes[b], subs, j),
    decreases k,
{
    if k > 0 {
        lemma_members_upto(nodes, subs, j, (k - 1) as nat);
        let prev = members_upto(nodes, subs, j, (k - 1) as nat);
        let cur = members_upto(nodes, subs, j, k);
        let last = nodes[k - 1];
        let qualifies = parented_at(last, subs, j);
        assert(qualifies ==> cur == prev.push(last.id));
        assert(!qualifies ==> cur == prev);
        assert forall|x: String| #[trigger] cur.contains(x) <==> exists|b: int|
            0 <= b < k && (#[trigger] nodes[b]).id == x && parented_at(nodes[b], subs, j) by {
            if cur.contains(x) {
                if prev.contains(x) {
                    let b = choose|b: int| 0 <= b < k - 1 && (#[trigger] nodes[b]).id == x && parented_at(nodes[b], subs, j);
                    assert(0 <= b < k);
                } else {
                    let a = choose|a: int| 0 <= a < cur.len() && cur[a] == x;
                    if a < prev.len() {
                        assert(cur[a] == prev[a]);
                        assert(prev.contains(x));
                    }
                    assert(qualifies);
                    assert(a == prev.len());
                    assert(nodes[k - 1].id == x);
                }
            }
            if exists|b: int| 0 <= b < k && (#[trigger] nodes[b]).id == x && parented_at(nodes[b], subs, j) {
                let b = choose|b: int| 0 <= b < k && (#[trigger] nodes[b]).id == x && parented_at(nodes[b], subs, j);
                if b == k - 1 {
                    assert(cur[cur.len() - 1] == x);
                } else {
                    assert(0 <= b < k - 1 && nodes[b].id == x && parented_at(nodes[b], subs, j));
                    assert(prev.contains(x));
                    let a = choose|a: int| 0 <= a < prev.len() && prev[a] == x;
                    if qualifies {
                        assert(cur[a] == x);
                    }
                }
            }
        }
    }
}

/// Rebuilding children keeps every subgraph's other fields, and makes the
/// children of each subgraph exactly the nodes whose parent names it (for the
/// first subgraph of each name), each listed as its node id.
pub proof fn law_synced_children_are_the_nodes_parented_there(d: DocView)
    ensures
        synced(d).nodes == d.nodes,
        synced(d).edges == d.edges,
        synced(d).subgraphs.len() == d.subgraphs.len(),
        forall|j: int|
            0 <= j < d.subgraphs.len() ==> (#[trigger] synced(d).subgraphs[j]).id == d.subgraphs[j].id
                && synced(d).subgraphs[j].title == d.subgraphs[j].title && synced(d).subgraphs[j].parent
                == d.subgraphs[j].parent && synced(d).subgraphs[j].direction == d.subgraphs[j].direction
                && synced(d).subgraphs[j].invisible == d.subgraphs[j].invisible
                && synced(d).subgraphs[j].concurrent_regions == d.subgraphs[j].concurrent_regions,
        forall|j: int, x: String|
            0 <= j < d.subgraphs.len() ==> (#[trigger] synced(d).subgraphs[j].children.contains(x) <==> exists|b: int|
                0 <= b < d.nodes.len() && (#[trigger] d.nodes[b]).id == x && names(d.nodes[b].parent, d.subgraphs[j].id@)
                    && first_where(d.subgraphs, subgraph_named(d.subgraphs[j].id@)) == Some(j)),
{
    assert forall|j: int, x: String|
        0 <= j < d.subgraphs.len() implies (#[trigger] synced(d).subgraphs[j].children.contains(x) <==> exists|b: int|
            0 <= b < d.nodes.len() && (#[trigger] d.nodes[b]).id == x && names(d.nodes[b].parent, d.subgraphs[j].id@)
                && first_where(d.subgraphs, subgraph_named(d.subgraphs[j].id@)) == Some(j)) by {
        lemma_members_upto(d.nodes, d.subgraphs, j, d.nodes.len());
        lemma_first_where(d.subgraphs, subgraph_named(d.subgraphs[j].id@));
        if synced(d).subgraphs[j].children.contains(x) {
            let b = choose|b: int|
                0 <= b < d.nodes.len() && (#[trigger] d.nodes[b]).id == x && parented_at(d.nodes[b], d.subgraphs, j);
            let p = d.nodes[b].parent->Some_0;
            lemma_first_where(d.subgraphs, subgraph_named(p@));
            assert(subgraph_named(p@)(d.subgraphs[j]));
        }
        if exists|b: int|
            0 <= b < d.nodes.len() && (#[trigger] d.nodes[b]).id == x && names(d.nodes[b].parent, d.subgraphs[j].id@)
                && first_where(d.subgraphs, subgraph_named(d.subgraphs[j].id@)) == Some(j) {
            let b = choose|b: int|
                0 <= b < d.nodes.len() && (#[trigger] d.nodes[b]).id == x && names(d.nodes[b].parent, d.subgraphs[j].id@)
                    && first_where(d.subgraphs, subgraph_named(d.subgraphs[j].id@)) == Some(j);
            let p = d.nodes[b].parent->Some_0;
            assert(subgraph_named(p@) == subgraph_named(d.subgraphs[j].id@));
        }
    }
}

/// Removing a subgraph leaves no subgraph of that name and nothing that names
/// it as a parent or a concurrent region; nodes it parented lose their parent
/// and every other node, every edge and every other subgraph is kept.
pub proof fn law_remove_subgraph_forgets_it_everywhere(d: DocView, id: Seq<char>)
    ensures
        ({
            let r = without_subgraph(d, id);
            &&& r.edges == d.edges
            &&& r.nodes.len() == d.nodes.len()
            &&& forall|b: int|
                0 <= b < d.nodes.len() ==> (#[trigger] r.nodes[b]).id == d.nodes[b].id && r.nodes[b].label
                    == d.nodes[b].label && r.nodes[b].shape == d.nodes[b].shape && r.nodes[b].parent == (if names(
                    d.nodes[b].parent,
                    id,
                ) {
                    None
                } else {
                    d.nodes[b].parent
                })
            &&& forall|j: int|
                0 <= j < r.subgraphs.len() ==> (#[trigger] r.subgraphs[j]).id@ != id && !names(r.subgraphs[j].parent, id)
                    && forall|a: int| 0 <= a < r.subgraphs[j].concurrent_regions.len() ==> (
                    #[trigger] r.subgraphs[j].concurrent_regions[a])@ != id
            &&& forall|j: int|
                0 <= j < d.subgraphs.len() && (#[trigger] d.subgraphs[j]).id@ != id ==> exists|a: int|
                    0 <= a < r.subgraphs.len() && #[trigger] r.subgraphs[a].id == d.subgraphs[j].id
                        && r.subgraphs[a].title == d.subgraphs[j].title
        }),
{
    let kept = keep(d.subgraphs, subgraph_not_named(id));
    lemma_keep_upto(d.subgraphs, subgraph_not_named(id), d.subgraphs.len());
    let r = without_subgraph(d, id);
    assert forall|j: int| 0 <= j < r.subgraphs.len() implies (#[trigger] r.subgraphs[j]).id@ != id && !names(
        r.subgraphs[j].parent,
        id,
    ) && forall|a: int| 0 <= a < r.subgraphs[j].concurrent_regions.len() ==> (
    #[trigger] r.subgraphs[j].concurrent_regions[a])@ != id by {
        assert(subgraph_not_named(id)(kept[j]));
        let regions = kept[j].concurrent_regions;
        lemma_keep_upto(regions, other_than(id), regions.len());
        assert forall|a: int| 0 <= a < r.subgraphs[j].concurrent_regions.len() implies (
        #[trigger] r.subgraphs[j].concurrent_regions[a])@ != id by {
            assert(other_than(id)(keep(regions, other_than(id))[a]));
        }
    }
    assert forall|j: int| 0 <= j < d.subgraphs.len() && (#[trigger] d.subgraphs[j]).id@ != id implies exists|a: int|
        0 <= a < r.subgraphs.len() && #[trigger] r.subgraphs[a].id == d.subgraphs[j].id && r.subgraphs[a].title
            == d.subgraphs[j].title by {
        assert(subgraph_not_named(id)(d.subgraphs[j]));
        assert(kept.contains(d.subgraphs[j]));
        let a = choose|a: int| 0 <= a < kept.len() && kept[a] == d.subgraphs[j];
        assert(r.subgraphs[a].id == d.subgraphs[j].id);
    }
}

/// `a` and `b` have the same nodes but for their parents.
pub open spec fn same_nodes_but_parents(a: Seq<DocNode>, b: Seq<DocNode>) -> bool {
    &&& a.len() == b.len()
    &&& forall|i: int|
        0 <= i < a.len() ==> (#[trigger] a[i]).id == b[i].id && a[i].label == b[i].label && a[i].shape == b[i].shape
}

/// Nodes that differ only in parents are found by name at the same positions.
pub proof fn lemma_same_names_same_positions(a: Seq<DocNode>, b: Seq<DocNode>, id: Seq<char>)
    requires
        same_nodes_but_parents(a, b),
    ensures
        first_where(a, node_named(id)) == first_where(b, node_named(id)),
{
    assert forall|j: int| 0 <= j < a.len() implies node_named(id)(#[trigger] a[j]) == node_named(id)(b[j]) by {
        assert(a[j].id == b[j].id);
    }
    lemma_first_where_agree(a, b, node_named(id), node_named(id));
}

/// Setting parents by id keeps every node's id, label and shape; the first
/// node named by any of the first `k` ids gets `parent`; every other node
/// keeps its parent.
pub proof fn lemma_with_node_parents(nodes: Seq<DocNode>, ids: Seq<String>, parent: Option<String>, k: nat)
    requires
        k <= ids.len(),
    ensures
        same_nodes_but_parents(with_node_parents(nodes, ids, parent, k), nodes),
        forall|a: int|
            0 <= a < k ==> ((#[trigger] first_where(nodes, node_named(ids[a]@))) matches Some(i)
                ==> with_node_parents(nodes, ids, parent, k)[i].parent == parent),
        forall|b: int|
            0 <= b < nodes.len() && (forall|a: int| 0 <= a < k ==> #[trigger] first_where(nodes, node_named(ids[a]@)) != Some(b))
                ==> (#[trigger] with_node_parents(nodes, ids, parent, k)[b]).parent == nodes[b].parent,
    decreases k,
{
    if k > 0 {
        lemma_with_node_parents(nodes, ids, parent, (k - 1) as nat);
        let prev = with_node_parents(nodes, ids, parent, (k - 1) as nat);
        let cur = with_node_parents(nodes, ids, parent, k);
        let x = ids[k - 1]@;
        lemma_same_names_same_positions(prev, nodes, x);
        lemma_first_where(nodes, node_named(x));
        assert(same_nodes_but_parents(cur, nodes));
        assert forall|a: int|
            0 <= a < k implies ((#[trigger] first_where(nodes, node_named(ids[a]@))) matches Some(i) ==> cur[i].parent == parent) by {
            if a < k - 1 {
                match first_where(nodes, node_named(ids[a]@)) {
                    Some(i) => {
                        lemma_first_where(nodes, node_named(ids[a]@));
                        assert(prev[i].parent == parent);
                    },
                    None => {},
                }
            }
        }
        assert forall|b: int|
            0 <= b < nodes.len() && (forall|a: int| 0 <= a < k ==> #[trigger] first_where(nodes, node_named(ids[a]@)) != Some(b))
                implies (#[trigger] cur[b]).parent == nodes[b].parent by {
            assert(first_where(nodes, node_named(ids[k - 1]@)) != Some(b));
            assert forall|a: int| 0 <= a < k - 1 implies #[trigger] first_where(nodes, node_named(ids[a]@)) != Some(b) by {
                assert(first_where(nodes, node_named(ids[a]@)) != Some(b));
            }
        }
    }
}

/// Releasing children keeps every node's id, label and shape; the first node
/// named by any of the first `k` ids no longer has `sub` as its parent; every
/// other node keeps its parent.
pub proof fn lemma_release_children_keeps_names(nodes: Seq<DocNode>, ids: Seq<String>, sub: Seq<char>, k: nat)
    requires
        k <= ids.len(),
    ensures
        same_nodes_but_parents(release_children(nodes, ids, sub, k), nodes),
        forall|r: int|
            0 <= r < k ==> ((#[trigger] first_where(nodes, node_named(ids[r]@))) matches Some(i)
                ==> !names(release_children(nodes, ids, sub, k)[i].parent, sub)),
        forall|b: int|
            0 <= b < nodes.len() && (forall|r: int| 0 <= r < k ==> #[trigger] first_where(nodes, node_named(ids[r]@)) != Some(b))
                ==> (#[trigger] release_children(nodes, ids, sub, k)[b]).parent == nodes[b].parent,
    decreases k,
{
    if k > 0 {
        lemma_release_children_keeps_names(nodes, ids, sub, (k - 1) as nat);
        let prev = release_children(nodes, ids, sub, (k - 1) as nat);
        let cur = release_children(nodes, ids, sub, k);
        lemma_first_where(prev, node_named(ids[k - 1]@));
        lemma_same_names_same_positions(prev, nodes, ids[k - 1]@);
        assert(same_nodes_but_parents(cur, nodes));
        assert forall|r: int|
            0 <= r < k implies ((#[trigger] first_where(nodes, node_named(ids[r]@))) matches Some(i)
                ==> !names(cur[i].parent, sub)) by {
            if r < k - 1 {
                match first_where(nodes, node_named(ids[r]@)) {
                    Some(i) => {
                        lemma_first_where(nodes, node_named(ids[r]@));
                        assert(!names(prev[i].parent, sub));
                    },
                    None => {},
                }
            }
        }
        assert forall|b: int|
            0 <= b < nodes.len() && (forall|r: int| 0 <= r < k ==> #[trigger] first_where(nodes, node_named(ids[r]@)) != Some(b))
                implies (#[trigger] cur[b]).parent == nodes[b].parent by {
            assert(first_where(nodes, node_named(ids[k - 1]@)) != Some(b));
            assert forall|r: int| 0 <= r < k - 1 implies #[trigger] first_where(nodes, node_named(ids[r]@)) != Some(b) by {
                assert(first_where(nodes, node_named(ids[r]@)) != Some(b));
            }
        }
    }
}

/// Setting subgraph parents by id keeps every subgraph's other fields.
pub proof fn lemma_with_subgraph_parents_keeps(subs: Seq<SubgraphView>, ids: Seq<String>, parent: Option<String>, k: nat)
    requires
        k <= ids.len(),
    ensures
        with_subgraph_parents(subs, ids, parent, k).len() == subs.len(),
        forall|j: int|
            0 <= j < subs.len() ==> (#[trigger] with_subgraph_parents(subs, ids, parent, k)[j]).id == subs[j].id
                && with_subgraph_parents(subs, ids, parent, k)[j].title == subs[j].title
                && with_subgraph_parents(subs, ids, parent, k)[j].direction == subs[j].direction
                && with_subgraph_parents(subs, ids, parent, k)[j].invisible == subs[j].invisible
                && with_subgraph_parents(subs, ids, parent, k)[j].concurrent_regions == subs[j].concurrent_regions,
    decreases k,
{
    if k > 0 {
        lemma_with_subgraph_parents_keeps(subs, ids, parent, (k - 1) as nat);
        let prev = with_subgraph_parents(subs, ids, parent, (k - 1) as nat);
        lemma_first_where(prev, subgraph_named(ids[k - 1]@));
    }
}

} // verus!
