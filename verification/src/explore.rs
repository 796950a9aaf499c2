//! The state of a best-first exploration, and why each step keeps it sound.
//!
//! An exploration starts at one vertex. Its queue holds a marker for every
//! unopened vertex whose parent has been opened, and for every entry of an
//! opened vertex that has not been handed out yet.

use crate::key::{has_prefix, is_entry, is_first, matching, outranks, table_fits};
use crate::marker::{precedes, ExploreMarker, Scored};
use crate::node::{entry_wf, item_marker, node_marker, parent_wf, placed, shaped, slot_wf, NodeView};
use vstd::prelude::*;

verus! {

/// Vertex `n` is `start` or lies below it.
pub open spec fn under(ns: Seq<NodeView>, start: int, n: int) -> bool
    decreases n,
{
    n == start || (0 <= ns[n].parent < n && under(ns, start, ns[n].parent))
}

/// Vertex `n` is unopened, lies at or below `start`, and nothing unopened lies
/// between the two.
pub open spec fn frontier(ns: Seq<NodeView>, start: int, unopened: Set<int>, n: int) -> bool {
    &&& unopened.contains(n)
    &&& under(ns, start, n)
    &&& (n == start || !unopened.contains(ns[n].parent))
}

/// What holds of a marker in the queue.
pub open spec fn marker_ok(
    table: Seq<Seq<(Seq<u8>, i32)>>,
    ns: Seq<NodeView>,
    loc: Map<(int, int), (int, int)>,
    start: int,
    unopened: Set<int>,
    pending: Set<(int, int)>,
    m: Scored,
) -> bool {
    match m.marker {
        ExploreMarker::Node { node } => {
            &&& node < ns.len()
            &&& m == node_marker(ns, node as int)
            &&& frontier(ns, start, unopened, node as int)
        },
        ExploreMarker::Item { item, key } => {
            &&& pending.contains((item as int, key as int))
            &&& m == item_marker(table, (item as int, key as int))
            &&& !unopened.contains(loc[(item as int, key as int)].0)
        },
    }
}

/// The exploration from `start` is sound: `unopened` are the unopened vertices,
/// `pending` the entries at or below `start` that were not handed out, and `q`
/// the markers in the queue.
pub open spec fn explored(
    table: Seq<Seq<(Seq<u8>, i32)>>,
    ns: Seq<NodeView>,
    loc: Map<(int, int), (int, int)>,
    start: int,
    unopened: Set<int>,
    pending: Set<(int, int)>,
    q: Set<Scored>,
) -> bool {
    &&& forall|n: int| #[trigger] unopened.contains(n) ==> 0 <= n < ns.len()
    &&& forall|m: Scored| #[trigger]
        q.contains(m) ==> marker_ok(table, ns, loc, start, unopened, pending, m)
    &&& forall|n: int|
        0 <= n < ns.len() && #[trigger] frontier(ns, start, unopened, n) ==> q.contains(
            node_marker(ns, n),
        )
    &&& forall|e: (int, int)| #[trigger]
        pending.contains(e) ==> {
            &&& loc.contains_key(e)
            &&& under(ns, start, loc[e].0)
            &&& (!unopened.contains(loc[e].0) ==> q.contains(item_marker(table, e)))
        }
    &&& forall|e: (int, int)|
        #[trigger] loc.contains_key(e) && under(ns, start, loc[e].0) && unopened.contains(loc[e].0)
            ==> pending.contains(e)
    &&& forall|n: int|
        0 <= n < ns.len() && n != start && under(ns, start, n) && !(#[trigger] unopened.contains(n))
            ==> !unopened.contains(ns[n].parent)
}

/// The trie holds every key of the table.
pub open spec fn complete(table: Seq<Seq<(Seq<u8>, i32)>>, loc: Map<(int, int), (int, int)>) -> bool {
    forall|e: (int, int)| is_entry(table, e) ==> #[trigger] loc.contains_key(e)
}

/// A vertex below `start` comes after it in the arena.
pub proof fn lemma_under_later(ns: Seq<NodeView>, start: int, n: int)
    requires
        under(ns, start, n),
    ensures
        start <= n,
    decreases n,
{
    if n != start {
        lemma_under_later(ns, start, ns[n].parent);
    }
}

/// No bound below `start` is higher than the bound of `start`.
pub proof fn lemma_bound_chain(ns: Seq<NodeView>, start: int, n: int)
    requires
        shaped(ns),
        0 <= n < ns.len(),
        under(ns, start, n),
    ensures
        ns[n].max_score <= ns[start].max_score,
    decreases n,
{
    if n != start {
        assert(parent_wf(ns, n));
        lemma_bound_chain(ns, start, ns[n].parent);
    }
}

/// A vertex lies at or below `start` exactly if its path begins with the path of
/// `start`.
pub proof fn lemma_under_prefix(ns: Seq<NodeView>, start: int, n: int)
    requires
        shaped(ns),
        0 <= start < ns.len(),
        0 <= n < ns.len(),
    ensures
        under(ns, start, n) <==> has_prefix(ns[n].path, ns[start].path),
    decreases n,
{
    if n == start {
    } else if n == 0 {
        if has_prefix(ns[n].path, ns[start].path) {
            assert(ns[start].path =~= ns[n].path);
        }
    } else {
        assert(parent_wf(ns, n));
        let p = ns[n].parent;
        let x = ns[n].path.last();
        assert(ns[p].children.contains_key(x));
        assert(ns[n].path == ns[p].path.push(x));
        lemma_under_prefix(ns, start, p);
        if has_prefix(ns[n].path, ns[start].path) {
            if ns[start].path.len() == ns[n].path.len() {
                assert(ns[start].path =~= ns[n].path);
            } else {
                assert(has_prefix(ns[p].path, ns[start].path));
            }
        }
        if under(ns, start, n) {
            assert(has_prefix(ns[p].path, ns[start].path));
            assert(has_prefix(ns[n].path, ns[start].path));
        }
    }
}

/// Above every unopened vertex at or below `start` there is one on the frontier,
/// and its bound is no lower.
pub proof fn lemma_frontier(ns: Seq<NodeView>, start: int, unopened: Set<int>, n: int) -> (a: int)
    requires
        shaped(ns),
        0 <= n < ns.len(),
        under(ns, start, n),
        unopened.contains(n),
    ensures
        0 <= a < ns.len(),
        frontier(ns, start, unopened, a),
        ns[n].max_score <= ns[a].max_score,
    decreases n,
{
    if n == start || !unopened.contains(ns[n].parent) {
        n
    } else {
        assert(parent_wf(ns, n));
        lemma_frontier(ns, start, unopened, ns[n].parent)
    }
}

/// `x` stands for an entry that is held at vertex `n`.
pub open spec fn stored_at(
    table: Seq<Seq<(Seq<u8>, i32)>>,
    loc: Map<(int, int), (int, int)>,
    n: int,
    x: Scored,
) -> bool {
    match x.marker {
        ExploreMarker::Item { item, key } => {
            &&& loc.contains_key((item as int, key as int))
            &&& loc[(item as int, key as int)].0 == n
            &&& x == item_marker(table, (item as int, key as int))
        },
        ExploreMarker::Node { .. } => false,
    }
}

/// `x` stands for a vertex that hangs directly under vertex `n`.
pub open spec fn hangs_under(ns: Seq<NodeView>, n: int, x: Scored) -> bool {
    match x.marker {
        ExploreMarker::Node { node } => {
            &&& 0 < node < ns.len()
            &&& ns[node as int].parent == n
            &&& x == node_marker(ns, node as int)
        },
        ExploreMarker::Item { .. } => false,
    }
}

/// The queue after vertex `n` was taken out and opened: what it held besides,
/// the entries held at `n`, and the vertices under `n`.
pub open spec fn opened(
    table: Seq<Seq<(Seq<u8>, i32)>>,
    ns: Seq<NodeView>,
    loc: Map<(int, int), (int, int)>,
    q: Set<Scored>,
    n: int,
) -> Set<Scored> {
    Set::new(
        |x: Scored|
            (q.contains(x) && x != node_marker(ns, n)) || stored_at(table, loc, n, x)
                || hangs_under(ns, n, x),
    )
}

/// At the start only the marker of `start` is queued, every vertex is unopened,
/// and the pending entries are those whose key begins with the path of `start`.
pub proof fn lemma_seeded(
    table: Seq<Seq<(Seq<u8>, i32)>>,
    ns: Seq<NodeView>,
    loc: Map<(int, int), (int, int)>,
    start: int,
)
    requires
        shaped(ns),
        placed(table, ns, loc),
        complete(table, loc),
        0 <= start < ns.len(),
    ensures
        explored(
            table,
            ns,
            loc,
            start,
            Set::new(|n: int| 0 <= n < ns.len()),
            matching(table, ns[start].path),
            Set::empty().insert(node_marker(ns, start)),
        ),
{
    let unopened = Set::new(|n: int| 0 <= n < ns.len());
    let pending = matching(table, ns[start].path);
    let q = Set::<Scored>::empty().insert(node_marker(ns, start));
    assert forall|n: int| 0 <= n < ns.len() && #[trigger] frontier(
        ns,
        start,
        unopened,
        n,
    ) implies q.contains(node_marker(ns, n)) by {
        if n != start {
            assert(unopened.contains(ns[n].parent));
        }
    }
    assert forall|e: (int, int)| #[trigger] pending.contains(e) implies {
        &&& loc.contains_key(e)
        &&& under(ns, start, loc[e].0)
        &&& (!unopened.contains(loc[e].0) ==> q.contains(item_marker(table, e)))
    } by {
        assert(loc.contains_key(e));
        assert(entry_wf(table, ns, loc, e));
        lemma_under_prefix(ns, start, loc[e].0);
    }
    assert forall|e: (int, int)|
        #[trigger] loc.contains_key(e) && under(ns, start, loc[e].0) && unopened.contains(
            loc[e].0,
        ) implies pending.contains(e) by {
        assert(entry_wf(table, ns, loc, e));
        lemma_under_prefix(ns, start, loc[e].0);
    }
}

/// Once the queue is empty nothing is pending.
pub proof fn lemma_exhausted(
    table: Seq<Seq<(Seq<u8>, i32)>>,
    ns: Seq<NodeView>,
    loc: Map<(int, int), (int, int)>,
    start: int,
    unopened: Set<int>,
    pending: Set<(int, int)>,
)
    requires
        shaped(ns),
        explored(table, ns, loc, start, unopened, pending, Set::empty()),
    ensures
        pending == Set::<(int, int)>::empty(),
{
    assert forall|e: (int, int)| !pending.contains(e) by {
        if pending.contains(e) {
            if unopened.contains(loc[e].0) {
                let a = lemma_frontier(ns, start, unopened, loc[e].0);
                assert(Set::<Scored>::empty().contains(node_marker(ns, a)));
            }
        }
    }
    assert(pending =~= Set::<(int, int)>::empty());
}

/// When the first marker of the queue stands for an entry, that entry comes
/// before all other pending ones, and taking it out keeps the exploration sound.
pub proof fn lemma_emitted(
    table: Seq<Seq<(Seq<u8>, i32)>>,
    ns: Seq<NodeView>,
    loc: Map<(int, int), (int, int)>,
    start: int,
    unopened: Set<int>,
    pending: Set<(int, int)>,
    q: Set<Scored>,
    m: Scored,
    e: (int, int),
)
    requires
        shaped(ns),
        placed(table, ns, loc),
        table_fits(table),
        explored(table, ns, loc, start, unopened, pending, q),
        q.contains(m),
        m.marker == (ExploreMarker::Item { item: e.0 as usize, key: e.1 as usize }),
        0 <= e.0 <= usize::MAX,
        0 <= e.1 <= usize::MAX,
        forall|y: Scored| #[trigger] q.remove(m).contains(y) ==> precedes(m, y),
    ensures
        is_first(table, pending, e),
        explored(table, ns, loc, start, unopened, pending.remove(e), q.remove(m)),
{
    let q2 = q.remove(m);
    let pending2 = pending.remove(e);
    assert(marker_ok(table, ns, loc, start, unopened, pending, m));
    assert(entry_wf(table, ns, loc, e));
    assert forall|o: (int, int)| #[trigger] pending.contains(o) && o != e implies outranks(
        table,
        e,
        o,
    ) by {
        assert(entry_wf(table, ns, loc, o));
        if unopened.contains(loc[o].0) {
            let a = lemma_frontier(ns, start, unopened, loc[o].0);
            assert(q2.contains(node_marker(ns, a)));
            assert(slot_wf(ns, loc, loc[o].0, loc[o].1));
        } else {
            assert(q2.contains(item_marker(table, o)));
        }
    }
    assert forall|x: Scored| #[trigger] q2.contains(x) implies marker_ok(
        table,
        ns,
        loc,
        start,
        unopened,
        pending2,
        x,
    ) by {
        assert(marker_ok(table, ns, loc, start, unopened, pending, x));
    }
    assert forall|n: int| 0 <= n < ns.len() && #[trigger] frontier(
        ns,
        start,
        unopened,
        n,
    ) implies q2.contains(node_marker(ns, n)) by {}
    assert forall|o: (int, int)| #[trigger] pending2.contains(o) implies {
        &&& loc.contains_key(o)
        &&& under(ns, start, loc[o].0)
        &&& (!unopened.contains(loc[o].0) ==> q2.contains(item_marker(table, o)))
    } by {
        assert(pending.contains(o));
        assert(entry_wf(table, ns, loc, o));
    }
}

/// Opening the vertex whose marker was queued keeps the exploration sound.
pub proof fn lemma_opened(
    table: Seq<Seq<(Seq<u8>, i32)>>,
    ns: Seq<NodeView>,
    loc: Map<(int, int), (int, int)>,
    start: int,
    unopened: Set<int>,
    pending: Set<(int, int)>,
    q: Set<Scored>,
    n: int,
)
    requires
        shaped(ns),
        placed(table, ns, loc),
        table_fits(table),
        explored(table, ns, loc, start, unopened, pending, q),
        0 <= n < ns.len(),
        q.contains(node_marker(ns, n)),
    ensures
        explored(table, ns, loc, start, unopened.remove(n), pending, opened(table, ns, loc, q, n)),
{
    let q2 = opened(table, ns, loc, q, n);
    let fewer = unopened.remove(n);
    let m = node_marker(ns, n);
    assert(marker_ok(table, ns, loc, start, unopened, pending, m));
    assert(frontier(ns, start, unopened, n));
    assert forall|x: Scored| #[trigger] q2.contains(x) implies marker_ok(
        table,
        ns,
        loc,
        start,
        fewer,
        pending,
        x,
    ) by {
        if q.contains(x) && x != m {
            assert(marker_ok(table, ns, loc, start, unopened, pending, x));
        } else if stored_at(table, loc, n, x) {
        } else {
            assert(hangs_under(ns, n, x));
            let c = x.marker->node as int;
            assert(parent_wf(ns, c));
            lemma_under_later(ns, start, n);
            assert(under(ns, start, c));
        }
    }
    assert forall|k: int| 0 <= k < ns.len() && #[trigger] frontier(
        ns,
        start,
        fewer,
        k,
    ) implies q2.contains(node_marker(ns, k)) by {
        if k == start || !unopened.contains(ns[k].parent) {
            assert(frontier(ns, start, unopened, k));
            assert(q.contains(node_marker(ns, k)));
        } else {
            assert(ns[k].parent == n);
            assert(hangs_under(ns, n, node_marker(ns, k)));
        }
    }
    assert forall|e: (int, int)| #[trigger] pending.contains(e) implies {
        &&& loc.contains_key(e)
        &&& under(ns, start, loc[e].0)
        &&& (!fewer.contains(loc[e].0) ==> q2.contains(item_marker(table, e)))
    } by {
        assert(entry_wf(table, ns, loc, e));
        if !fewer.contains(loc[e].0) {
            if unopened.contains(loc[e].0) {
                assert(stored_at(table, loc, n, item_marker(table, e)));
            } else {
                assert(q.contains(item_marker(table, e)));
            }
        }
    }
}

} // verus!
