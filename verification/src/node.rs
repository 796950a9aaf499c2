//! The vertices of the trie, held in an arena, and what makes an arena a trie.

use crate::key::{entry_bytes, entry_score, has_prefix, is_entry};
use crate::marker::{ExploreMarker, Scored};
use std::collections::BTreeMap;
use vstd::prelude::*;

verus! {

/// A vertex: the entries whose key ends here, the edges to the vertices one byte
/// further, and a bound on every score at or below it.
pub struct Node {
    pub items: Vec<Scored>,
    pub children: BTreeMap<u8, usize>,
    pub max_score: i32,
    /// The bytes that lead from the root to this vertex.
    pub path: Ghost<Seq<u8>>,
    /// The position of the vertex one byte back.
    pub parent: Ghost<int>,
    /// An entry at or below this vertex whose score is the bound.
    pub witness: Ghost<(int, int)>,
}

/// A vertex as plain values.
pub struct NodeView {
    pub items: Seq<Scored>,
    pub children: Map<u8, usize>,
    pub max_score: i32,
    pub path: Seq<u8>,
    pub parent: int,
    pub witness: (int, int),
}

impl View for Node {
    type V = NodeView;

    open spec fn view(&self) -> NodeView {
        NodeView {
            items: self.items@,
            children: self.children@,
            max_score: self.max_score,
            path: self.path@,
            parent: self.parent@,
            witness: self.witness@,
        }
    }
}

/// The arena as plain values.
pub open spec fn views(nodes: Seq<Node>) -> Seq<NodeView> {
    Seq::new(nodes.len(), |i: int| nodes[i]@)
}

/// The marker that stands for entry `e`.
pub open spec fn item_marker(table: Seq<Seq<(Seq<u8>, i32)>>, e: (int, int)) -> Scored {
    Scored {
        marker: ExploreMarker::Item { item: e.0 as usize, key: e.1 as usize },
        score: entry_score(table, e),
    }
}

/// The marker that stands for the unopened vertex `n`.
pub open spec fn node_marker(ns: Seq<NodeView>, n: int) -> Scored {
    Scored { marker: ExploreMarker::Node { node: n as usize }, score: ns[n].max_score }
}

/// Every edge leads to a later vertex that is one byte further and points back.
pub open spec fn edges_wf(ns: Seq<NodeView>) -> bool {
    forall|n: int, b: u8|
        0 <= n < ns.len() && #[trigger] ns[n].children.contains_key(b) ==> {
            &&& n < ns[n].children[b] < ns.len()
            &&& ns[ns[n].children[b] as int].parent == n
            &&& ns[ns[n].children[b] as int].path == ns[n].path.push(b)
        }
}

/// What holds of the vertex `c` and the one it points back to.
pub open spec fn parent_wf(ns: Seq<NodeView>, c: int) -> bool {
    &&& 0 <= ns[c].parent < c
    &&& ns[c].path.len() > 0
    &&& ns[ns[c].parent].children.contains_key(ns[c].path.last())
    &&& ns[ns[c].parent].children[ns[c].path.last()] == c
    &&& ns[c].max_score <= ns[ns[c].parent].max_score
}

/// The vertices form a trie: the root stands for the empty path, every other
/// vertex hangs under an earlier one by the last byte of its path, no two
/// vertices stand for the same path, and no bound exceeds the one above it.
pub open spec fn shaped(ns: Seq<NodeView>) -> bool {
    &&& ns.len() <= usize::MAX
    &&& ns.len() > 0 ==> ns[0].path == Seq::<u8>::empty()
    &&& edges_wf(ns)
    &&& forall|c: int| 0 < c < ns.len() ==> #[trigger] parent_wf(ns, c)
    &&& forall|n: int, m: int|
        0 <= n < ns.len() && 0 <= m < ns.len() && n != m ==> (#[trigger] ns[n]).path != (
        #[trigger] ns[m]).path
}

/// What holds of slot `j` of vertex `n`: it holds an entry that is recorded
/// there, and its score is within the vertex's bound.
pub open spec fn slot_wf(
    ns: Seq<NodeView>,
    loc: Map<(int, int), (int, int)>,
    n: int,
    j: int,
) -> bool {
    match ns[n].items[j].marker {
        ExploreMarker::Item { item, key } => {
            &&& loc.contains_key((item as int, key as int))
            &&& loc[(item as int, key as int)] == (n, j)
            &&& ns[n].items[j].score <= ns[n].max_score
        },
        ExploreMarker::Node { .. } => false,
    }
}

/// What holds of a recorded entry: it sits in the recorded slot of the vertex
/// that stands for its key.
pub open spec fn entry_wf(
    table: Seq<Seq<(Seq<u8>, i32)>>,
    ns: Seq<NodeView>,
    loc: Map<(int, int), (int, int)>,
    e: (int, int),
) -> bool {
    &&& is_entry(table, e)
    &&& 0 <= loc[e].0 < ns.len()
    &&& 0 <= loc[e].1 < ns[loc[e].0].items.len()
    &&& ns[loc[e].0].items[loc[e].1] == item_marker(table, e)
    &&& ns[loc[e].0].path == entry_bytes(table, e)
}

/// The recorded entries and the slots of the trie correspond one to one.
pub open spec fn placed(
    table: Seq<Seq<(Seq<u8>, i32)>>,
    ns: Seq<NodeView>,
    loc: Map<(int, int), (int, int)>,
) -> bool {
    &&& forall|e: (int, int)| #[trigger] loc.contains_key(e) ==> entry_wf(table, ns, loc, e)
    &&& forall|n: int, j: int|
        0 <= n < ns.len() && 0 <= j < ns[n].items.len() ==> #[trigger] slot_wf(ns, loc, n, j)
}

/// What holds of the bound of vertex `n`: it is the score of a known entry whose
/// key begins with the path of `n`.
pub open spec fn anchor_wf(
    table: Seq<Seq<(Seq<u8>, i32)>>,
    ns: Seq<NodeView>,
    known: Set<(int, int)>,
    n: int,
) -> bool {
    &&& known.contains(ns[n].witness)
    &&& is_entry(table, ns[n].witness)
    &&& has_prefix(entry_bytes(table, ns[n].witness), ns[n].path)
    &&& entry_score(table, ns[n].witness) == ns[n].max_score
}

/// Every bound is attained: no vertex is there without a key that passes
/// through it, and no bound is higher than the best score under it.
pub open spec fn anchored(
    table: Seq<Seq<(Seq<u8>, i32)>>,
    ns: Seq<NodeView>,
    known: Set<(int, int)>,
) -> bool {
    forall|n: int| 0 <= n < ns.len() ==> #[trigger] anchor_wf(table, ns, known, n)
}

impl Node {
    /// A vertex without entries or edges.
    pub fn new(
        max_score: i32,
        Ghost(path): Ghost<Seq<u8>>,
        Ghost(parent): Ghost<int>,
        Ghost(witness): Ghost<(int, int)>,
    ) -> (node: Self)
        ensures
            node@ == (NodeView {
                items: Seq::empty(),
                children: Map::empty(),
                max_score,
                path,
                parent,
                witness,
            }),
    {
        Node {
            items: Vec::new(),
            children: BTreeMap::new(),
            max_score,
            path: Ghost(path),
            parent: Ghost(parent),
            witness: Ghost(witness),
        }
    }
}

/// `ns` with the bound of vertex `n` raised to `score`, where it was lower, on
/// account of the entry `w`.
pub open spec fn raised(ns: Seq<NodeView>, n: int, score: i32, w: (int, int)) -> Seq<NodeView> {
    if score > ns[n].max_score {
        ns.update(n, NodeView { max_score: score, witness: w, ..ns[n] })
    } else {
        ns
    }
}

/// `ns` with a new last vertex, hung under `n` by the byte `b` on account of the
/// entry `w`.
pub open spec fn grown(ns: Seq<NodeView>, n: int, b: u8, bound: i32, w: (int, int)) -> Seq<
    NodeView,
> {
    ns.update(n, NodeView { children: ns[n].children.insert(b, ns.len() as usize), ..ns[n] }).push(
        NodeView {
            items: Seq::empty(),
            children: Map::empty(),
            max_score: bound,
            path: ns[n].path.push(b),
            parent: n,
            witness: w,
        },
    )
}

/// `ns` with the marker `m` in a new last slot of vertex `n`.
pub open spec fn filled(ns: Seq<NodeView>, n: int, m: Scored) -> Seq<NodeView> {
    ns.update(n, NodeView { items: ns[n].items.push(m), ..ns[n] })
}

/// Raises the bound of vertex `n` to `score` where it is lower.
pub fn raise(nodes: &mut Vec<Node>, n: usize, score: i32, Ghost(w): Ghost<(int, int)>)
    requires
        n < old(nodes).len(),
    ensures
        views(final(nodes)@) == raised(views(old(nodes)@), n as int, score, w),
{
    if score > nodes[n].max_score {
        nodes[n].max_score = score;
        nodes[n].witness = Ghost(w);
    }
    assert(views(nodes@) =~= raised(views(old(nodes)@), n as int, score, w));
}

/// The vertex that the byte `b` leads to from vertex `n`, if there is one.
pub fn child(nodes: &Vec<Node>, n: usize, b: u8) -> (r: Option<usize>)
    requires
        n < nodes.len(),
    ensures
        match r {
            Some(c) => views(nodes@)[n as int].children.contains_key(b) && views(
                nodes@,
            )[n as int].children[b] == c,
            None => !views(nodes@)[n as int].children.contains_key(b),
        },
{
    match nodes[n].children.get(&b) {
        Some(c) => Some(*c),
        None => None,
    }
}

/// Hangs a new vertex under `n` by the byte `b` and returns its position.
pub fn grow(nodes: &mut Vec<Node>, n: usize, b: u8, score: i32, Ghost(w): Ghost<(int, int)>) -> (c:
    usize)
    requires
        n < old(nodes).len(),
    ensures
        c == old(nodes).len(),
        c < usize::MAX,
        views(final(nodes)@) == grown(views(old(nodes)@), n as int, b, score, w),
{
    let c: usize = nodes.len();
    let ghost path = nodes[n as int].path@.push(b);
    nodes.push(Node::new(score, Ghost(path), Ghost(n as int), Ghost(w)));
    assert(nodes.len() == c + 1);
    nodes[n].children.insert(b, c);
    assert(views(nodes@) =~= grown(views(old(nodes)@), n as int, b, score, w));
    c
}

/// Puts the marker `m` in a new last slot of vertex `n`.
pub fn place(nodes: &mut Vec<Node>, n: usize, m: Scored)
    requires
        n < old(nodes).len(),
    ensures
        views(final(nodes)@) == filled(views(old(nodes)@), n as int, m),
{
    nodes[n].items.push(m);
    assert(views(nodes@) =~= filled(views(old(nodes)@), n as int, m));
}

} // verus!
