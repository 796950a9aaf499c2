//! Why the arena stays a trie under the three changes that insertion makes.

use crate::key::{entry_bytes, entry_score, has_prefix, is_entry, table_fits};
use crate::marker::Scored;
use crate::node::{
    anchor_wf, anchored, entry_wf, filled, grown, item_marker, parent_wf, placed, raised, shaped,
    slot_wf, NodeView,
};
use vstd::prelude::*;

verus! {

/// Raising a bound, without passing the bound above it, keeps the trie.
pub proof fn lemma_raised(
    table: Seq<Seq<(Seq<u8>, i32)>>,
    ns: Seq<NodeView>,
    loc: Map<(int, int), (int, int)>,
    n: int,
    score: i32,
    w: (int, int),
)
    requires
        shaped(ns),
        placed(table, ns, loc),
        0 <= n < ns.len(),
        n > 0 ==> score <= ns[ns[n].parent].max_score,
    ensures
        shaped(raised(ns, n, score, w)),
        placed(table, raised(ns, n, score, w), loc),
{
    let after = raised(ns, n, score, w);
    assert forall|m: int, b: u8| 0 <= m < after.len() && #[trigger] after[m].children.contains_key(
        b,
    ) implies {
        &&& m < after[m].children[b] < after.len()
        &&& after[after[m].children[b] as int].parent == m
        &&& after[after[m].children[b] as int].path == after[m].path.push(b)
    } by {
        assert(ns[m].children.contains_key(b));
    }
    assert forall|c: int| 0 < c < after.len() implies #[trigger] parent_wf(after, c) by {
        assert(parent_wf(ns, c));
    }
    assert forall|a: int, b: int| 0 <= a < after.len() && 0 <= b < after.len() && a != b implies (
    #[trigger] after[a]).path != (#[trigger] after[b]).path by {
        assert(ns[a].path != ns[b].path);
    }
    assert forall|e: (int, int)| #[trigger] loc.contains_key(e) implies entry_wf(
        table,
        after,
        loc,
        e,
    ) by {
        assert(entry_wf(table, ns, loc, e));
    }
    assert forall|m: int, j: int| 0 <= m < after.len() && 0 <= j < after[m].items.len() implies
        #[trigger] slot_wf(after, loc, m, j) by {
        assert(slot_wf(ns, loc, m, j));
    }
}

/// A bound that is raised to the score of a known entry whose key passes through
/// the vertex is attained again.
pub proof fn lemma_raised_anchored(
    table: Seq<Seq<(Seq<u8>, i32)>>,
    ns: Seq<NodeView>,
    known: Set<(int, int)>,
    n: int,
    w: (int, int),
)
    requires
        anchored(table, ns, known),
        0 <= n < ns.len(),
        known.contains(w),
        is_entry(table, w),
        has_prefix(entry_bytes(table, w), ns[n].path),
    ensures
        anchored(table, raised(ns, n, entry_score(table, w), w), known),
{
    let after = raised(ns, n, entry_score(table, w), w);
    assert forall|m: int| 0 <= m < after.len() implies #[trigger] anchor_wf(
        table,
        after,
        known,
        m,
    ) by {
        assert(anchor_wf(table, ns, known, m));
    }
}

/// A vertex that is made for a known entry, on the way along its key, has its
/// bound attained by that entry.
pub proof fn lemma_grown_anchored(
    table: Seq<Seq<(Seq<u8>, i32)>>,
    ns: Seq<NodeView>,
    known: Set<(int, int)>,
    n: int,
    b: u8,
    w: (int, int),
)
    requires
        anchored(table, ns, known),
        0 <= n < ns.len(),
        known.contains(w),
        is_entry(table, w),
        has_prefix(entry_bytes(table, w), ns[n].path.push(b)),
    ensures
        anchored(table, grown(ns, n, b, entry_score(table, w), w), known),
{
    let after = grown(ns, n, b, entry_score(table, w), w);
    assert forall|m: int| 0 <= m < after.len() implies #[trigger] anchor_wf(
        table,
        after,
        known,
        m,
    ) by {
        if m < ns.len() {
            assert(anchor_wf(table, ns, known, m));
        }
    }
}

/// A new entry in a slot changes no bound.
pub proof fn lemma_filled_anchored(
    table: Seq<Seq<(Seq<u8>, i32)>>,
    ns: Seq<NodeView>,
    known: Set<(int, int)>,
    n: int,
    m: Scored,
)
    requires
        anchored(table, ns, known),
        0 <= n < ns.len(),
    ensures
        anchored(table, filled(ns, n, m), known),
{
    let after = filled(ns, n, m);
    assert forall|k: int| 0 <= k < after.len() implies #[trigger] anchor_wf(
        table,
        after,
        known,
        k,
    ) by {
        assert(anchor_wf(table, ns, known, k));
    }
}

/// A new vertex under a free byte of `n`, bounded by `n`'s bound, keeps the trie.
pub proof fn lemma_grown(
    table: Seq<Seq<(Seq<u8>, i32)>>,
    ns: Seq<NodeView>,
    loc: Map<(int, int), (int, int)>,
    n: int,
    b: u8,
    bound: i32,
    w: (int, int),
)
    requires
        shaped(ns),
        placed(table, ns, loc),
        0 <= n < ns.len() < usize::MAX,
        !ns[n].children.contains_key(b),
        bound <= ns[n].max_score,
    ensures
        shaped(grown(ns, n, b, bound, w)),
        placed(table, grown(ns, n, b, bound, w), loc),
{
    let after = grown(ns, n, b, bound, w);
    let c = ns.len() as int;
    assert forall|m: int, x: u8| 0 <= m < after.len() && #[trigger] after[m].children.contains_key(
        x,
    ) implies {
        &&& m < after[m].children[x] < after.len()
        &&& after[after[m].children[x] as int].parent == m
        &&& after[after[m].children[x] as int].path == after[m].path.push(x)
    } by {
        if m == n && x == b {
        } else {
            assert(ns[m].children.contains_key(x));
        }
    }
    assert forall|k: int| 0 < k < after.len() implies #[trigger] parent_wf(after, k) by {
        if k < c {
            assert(parent_wf(ns, k));
        } else {
            assert(after[k].path.last() == b);
        }
    }
    assert forall|x: int, y: int| 0 <= x < after.len() && 0 <= y < after.len() && x != y implies (
    #[trigger] after[x]).path != (#[trigger] after[y]).path by {
        if x < c && y < c {
            assert(ns[x].path != ns[y].path);
        } else {
            let m = if x < c { x } else { y };
            lemma_free_path(ns, n, b, m);
        }
    }
    assert forall|e: (int, int)| #[trigger] loc.contains_key(e) implies entry_wf(
        table,
        after,
        loc,
        e,
    ) by {
        assert(entry_wf(table, ns, loc, e));
    }
    assert forall|m: int, j: int| 0 <= m < after.len() && 0 <= j < after[m].items.len() implies
        #[trigger] slot_wf(after, loc, m, j) by {
        assert(slot_wf(ns, loc, m, j));
    }
}

/// No vertex stands for the path that a free byte of `n` would lead to.
pub proof fn lemma_free_path(ns: Seq<NodeView>, n: int, b: u8, m: int)
    requires
        shaped(ns),
        0 <= n < ns.len(),
        0 <= m < ns.len(),
        !ns[n].children.contains_key(b),
    ensures
        ns[m].path != ns[n].path.push(b),
{
    if ns[m].path == ns[n].path.push(b) {
        if m == 0 {
            assert(ns[n].path.push(b).len() > 0);
        } else {
            assert(parent_wf(ns, m));
            let p = ns[m].parent;
            assert(ns[m].path.last() == b);
            assert(ns[p].children.contains_key(b));
            assert(ns[m].path == ns[p].path.push(b));
            assert(ns[p].path.push(b).drop_last() =~= ns[p].path);
            assert(ns[n].path.push(b).drop_last() =~= ns[n].path);
            if p != n {
                assert(ns[p].path != ns[n].path);
            }
        }
    }
}

/// A new entry in a new last slot of the vertex that stands for its key keeps the
/// trie, once it is recorded there.
pub proof fn lemma_filled(
    table: Seq<Seq<(Seq<u8>, i32)>>,
    ns: Seq<NodeView>,
    loc: Map<(int, int), (int, int)>,
    n: int,
    e: (int, int),
)
    requires
        shaped(ns),
        placed(table, ns, loc),
        table_fits(table),
        is_entry(table, e),
        !loc.contains_key(e),
        0 <= n < ns.len(),
        ns[n].path == entry_bytes(table, e),
        entry_score(table, e) <= ns[n].max_score,
    ensures
        shaped(filled(ns, n, item_marker(table, e))),
        placed(
            table,
            filled(ns, n, item_marker(table, e)),
            loc.insert(e, (n, ns[n].items.len() as int)),
        ),
{
    let after = filled(ns, n, item_marker(table, e));
    let slot = ns[n].items.len() as int;
    let loc2 = loc.insert(e, (n, slot));
    assert forall|m: int, b: u8| 0 <= m < after.len() && #[trigger] after[m].children.contains_key(
        b,
    ) implies {
        &&& m < after[m].children[b] < after.len()
        &&& after[after[m].children[b] as int].parent == m
        &&& after[after[m].children[b] as int].path == after[m].path.push(b)
    } by {
        assert(ns[m].children.contains_key(b));
    }
    assert forall|c: int| 0 < c < after.len() implies #[trigger] parent_wf(after, c) by {
        assert(parent_wf(ns, c));
    }
    assert forall|a: int, b: int| 0 <= a < after.len() && 0 <= b < after.len() && a != b implies (
    #[trigger] after[a]).path != (#[trigger] after[b]).path by {
        assert(ns[a].path != ns[b].path);
    }
    assert forall|x: (int, int)| #[trigger] loc2.contains_key(x) implies entry_wf(
        table,
        after,
        loc2,
        x,
    ) by {
        if x != e {
            assert(loc.contains_key(x));
            assert(entry_wf(table, ns, loc, x));
        }
    }
    assert forall|m: int, j: int| 0 <= m < after.len() && 0 <= j < after[m].items.len() implies
        #[trigger] slot_wf(after, loc2, m, j) by {
        if m == n && j == slot {
            assert(table[e.0].len() <= usize::MAX);
        } else {
            assert(slot_wf(ns, loc, m, j));
        }
    }
}

/// The vertex that stands for the first `d` bytes of the path of vertex `n`.
pub proof fn lemma_ancestor(ns: Seq<NodeView>, n: int, d: int) -> (a: int)
    requires
        shaped(ns),
        0 <= n < ns.len(),
        0 <= d <= ns[n].path.len(),
    ensures
        0 <= a <= n,
        ns[a].path == ns[n].path.take(d),
    decreases n,
{
    if ns[n].path.len() == d {
        assert(ns[n].path.take(d) =~= ns[n].path);
        n
    } else {
        assert(n > 0);
        assert(parent_wf(ns, n));
        let p = ns[n].parent;
        assert(ns[p].children.contains_key(ns[n].path.last()));
        assert(ns[n].path == ns[p].path.push(ns[n].path.last()));
        let a = lemma_ancestor(ns, p, d);
        assert(ns[p].path.take(d) =~= ns[n].path.take(d));
        a
    }
}

/// Where the byte after the path of `cur` is free, no recorded key goes on from
/// that path with that byte.
pub proof fn lemma_free_byte(
    table: Seq<Seq<(Seq<u8>, i32)>>,
    ns: Seq<NodeView>,
    loc: Map<(int, int), (int, int)>,
    cur: int,
    b: u8,
    e: (int, int),
)
    requires
        shaped(ns),
        placed(table, ns, loc),
        0 <= cur < ns.len(),
        !ns[cur].children.contains_key(b),
        loc.contains_key(e),
    ensures
        !has_prefix(entry_bytes(table, e), ns[cur].path.push(b)),
{
    let bytes = entry_bytes(table, e);
    let longer = ns[cur].path.push(b);
    if has_prefix(bytes, longer) {
        assert(entry_wf(table, ns, loc, e));
        let a = lemma_ancestor(ns, loc[e].0, longer.len() as int);
        assert(ns[a].path =~= longer);
        lemma_free_path(ns, cur, b, a);
    }
}

} // verus!
