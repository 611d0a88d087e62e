//! Grid-space bounds of nodes and subgraphs.

use vstd::prelude::*;

verus! {

/// A node's rectangle on the text grid.
#[derive(Debug, Clone, Copy, PartialEq, Eq, Structural)]
pub struct NodeBounds {
    pub x: usize,
    pub y: usize,
    pub width: usize,
    pub height: usize,
}

/// A subgraph's frame on the text grid.
#[derive(Debug, Clone)]
pub struct SubgraphBounds {
    pub x: usize,
    pub y: usize,
    pub width: usize,
    pub height: usize,
    pub title: String,
    pub depth: usize,
    pub invisible: bool,
    /// Ids of the subgraphs laid out side by side inside this one.
    pub concurrent_regions: Vec<String>,
}

/// Node and subgraph bounds keyed by id; each id occurs at most once.
#[derive(Debug, Clone)]
pub struct GridLayout {
    node_bounds: Vec<(String, NodeBounds)>,
    subgraph_bounds: Vec<(String, SubgraphBounds)>,
}

/// No key occurs twice.
pub open spec fn keys_distinct<T>(entries: Seq<(String, T)>) -> bool {
    forall|i: int, j: int| 0 <= i < j < entries.len() ==> (#[trigger] entries[i]).0@ != (#[trigger] entries[j]).0@
}

/// Position of the entry with key `k`, if any.
pub open spec fn key_index<T>(entries: Seq<(String, T)>, k: Seq<char>) -> Option<int> {
    if exists|i: int| 0 <= i < entries.len() && (#[trigger] entries[i]).0@ == k {
        Some(choose|i: int| 0 <= i < entries.len() && (#[trigger] entries[i]).0@ == k)
    } else {
        None
    }
}

/// `entries` with the value under `k` set to `v` (appended when `k` is new).
pub open spec fn upsert<T>(entries: Seq<(String, T)>, k: String, v: T) -> Seq<(String, T)> {
    match key_index(entries, k@) {
        Some(i) => entries.update(i, (k, v)),
        None => entries.push((k, v)),
    }
}

/// Position of `k` among the keys of `entries`, scanning from the front.
fn find_key<T>(entries: &Vec<(String, T)>, k: &String) -> (r: Option<usize>)
    requires
        keys_distinct(entries@),
    ensures
        match r {
            Some(i) => key_index(entries@, k@) == Some(i as int),
            None => key_index(entries@, k@) is None,
        },
{
    let mut i: usize = 0;
    while i < entries.len()
        invariant
            i <= entries.len(),
            keys_distinct(entries@),
            forall|j: int| 0 <= j < i ==> (#[trigger] entries@[j]).0@ != k@,
        decreases entries.len() - i,
    {
        if entries[i].0 == *k {
            proof {
                let c = choose|c: int| 0 <= c < entries.len() && (#[trigger] entries@[c]).0@ == k@;
                if c != i {
                    if c < i {
                        assert(entries@[c].0@ != k@);
                    } else {
                        assert(entries@[i as int].0@ != entries@[c].0@);
                    }
                }
            }
            return Some(i);
        }
        i = i + 1;
    }
    None
}

/// Set the value under `k`, keeping keys distinct.
fn upsert_entry<T>(entries: &mut Vec<(String, T)>, k: String, v: T)
    requires
        keys_distinct(old(entries)@),
    ensures
        keys_distinct(final(entries)@),
        final(entries)@ == upsert(old(entries)@, k, v),
{
    match find_key(entries, &k) {
        Some(i) => {
            entries.set(i, (k, v));
            proof {
                assert forall|a: int, b: int| 0 <= a < b < entries.len() implies (#[trigger] entries@[a]).0@
                    != (#[trigger] entries@[b]).0@ by {
                    if a != i && b != i {
                        assert(old(entries)@[a].0@ != old(entries)@[b].0@);
                    } else if a == i {
                        assert(old(entries)@[a].0@ != old(entries)@[b].0@);
                    } else {
                        assert(old(entries)@[a].0@ != old(entries)@[b].0@);
                    }
                }
            }
        },
        None => {
            entries.push((k, v));
        },
    }
}

impl GridLayout {
    pub closed spec fn wf(&self) -> bool {
        keys_distinct(self.node_bounds@) && keys_distinct(self.subgraph_bounds@)
    }

    /// Node bounds entries, in insertion order.
    pub closed spec fn nodes(&self) -> Seq<(String, NodeBounds)> {
        self.node_bounds@
    }

    /// Subgraph bounds entries, in insertion order.
    pub closed spec fn subgraphs(&self) -> Seq<(String, SubgraphBounds)> {
        self.subgraph_bounds@
    }

    /// An empty layout.
    pub fn new() -> (r: Self)
        ensures
            r.wf(),
            r.nodes() == Seq::<(String, NodeBounds)>::empty(),
            r.subgraphs() == Seq::<(String, SubgraphBounds)>::empty(),
    {
        GridLayout { node_bounds: Vec::new(), subgraph_bounds: Vec::new() }
    }

    /// Set the bounds of node `id`.
    pub fn insert_node_bounds(&mut self, id: String, bounds: NodeBounds)
        requires
            old(self).wf(),
        ensures
            final(self).wf(),
            final(self).nodes() == upsert(old(self).nodes(), id, bounds),
            final(self).subgraphs() == old(self).subgraphs(),
    {
        upsert_entry(&mut self.node_bounds, id, bounds);
    }

    /// Set the bounds of subgraph `id`.
    pub fn insert_subgraph_bounds(&mut self, id: String, bounds: SubgraphBounds)
        requires
            old(self).wf(),
        ensures
            final(self).wf(),
            final(self).subgraphs() == upsert(old(self).subgraphs(), id, bounds),
            final(self).nodes() == old(self).nodes(),
    {
        upsert_entry(&mut self.subgraph_bounds, id, bounds);
    }

    /// The node bounds entries.
    pub fn node_entries(&self) -> (r: &Vec<(String, NodeBounds)>)
        ensures
            r@ == self.nodes(),
    {
        &self.node_bounds
    }

    /// The subgraph bounds entries.
    pub fn subgraph_entries(&self) -> (r: &Vec<(String, SubgraphBounds)>)
        requires
            self.wf(),
        ensures
            r@ == self.subgraphs(),
            keys_distinct(r@),
    {
        &self.subgraph_bounds
    }

    /// Bounds of subgraph `id`, if present.
    pub fn subgraph(&self, id: &String) -> (r: Option<&SubgraphBounds>)
        requires
            self.wf(),
        ensures
            match key_index(self.subgraphs(), id@) {
                Some(i) => r == Some(&self.subgraphs()[i].1),
                None => r is None,
            },
    {
        match find_key(&self.subgraph_bounds, id) {
            Some(i) => Some(&self.subgraph_bounds[i].1),
            None => None,
        }
    }
}

} // verus!
