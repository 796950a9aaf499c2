//! The lazy ranked enumeration: a cursor over the matches of one query.
//!
//! The cursor explores the matched part of the trie best first. Its queue holds
//! markers for entries, with their exact score, and for unopened vertices, with
//! the bound cached there. The first marker of the queue is taken out: an entry
//! is handed to the caller, a vertex is opened, which queues its entries and the
//! vertices under it.
//!
//! The order is strict for every single entry, and it is fixed where scores are
//! equal: a vertex is opened before an entry of the same priority is handed out,
//! so that of two entries with the same score the one of the item inserted
//! earlier comes first, and of two keys of one item the earlier key.

use crate::explore::{
    explored, hangs_under, lemma_emitted, lemma_exhausted, lemma_opened, lemma_seeded,
    lemma_under_later, marker_ok, opened, stored_at,
};
use crate::heap::MarkerHeap;
use crate::key::{is_entry, is_first, is_ranking, matching, outranks};
use crate::marker::{ExploreMarker, Scored};
use crate::node::{
    entry_wf, node_marker, parent_wf, placed, shaped, slot_wf, views, Node, NodeView,
};
use crate::tree::CompletionTree;
use std::collections::BTreeMap;
use vstd::prelude::*;
use vstd::std_specs::iter::IteratorSpec;

verus! {

/// `x` stands for an entry that is held at vertex `n` in a slot before `j`.
pub(crate) open spec fn stored_before(
    table: Seq<Seq<(Seq<u8>, i32)>>,
    loc: Map<(int, int), (int, int)>,
    n: int,
    j: int,
    x: Scored,
) -> bool {
    match x.marker {
        ExploreMarker::Item { item, key } => {
            &&& stored_at(table, loc, n, x)
            &&& loc[(item as int, key as int)].1 < j
        },
        ExploreMarker::Node { .. } => false,
    }
}

/// Queues a marker for every entry that is held at vertex `n`.
fn push_items(
    queue: &mut MarkerHeap,
    nodes: &Vec<Node>,
    n: usize,
    Ghost(table): Ghost<Seq<Seq<(Seq<u8>, i32)>>>,
    Ghost(loc): Ghost<Map<(int, int), (int, int)>>,
)
    requires
        old(queue).wf(),
        n < nodes.len(),
        placed(table, views(nodes@), loc),
        forall|x: Scored| #[trigger]
            stored_at(table, loc, n as int, x) ==> !old(queue).contents().contains(x),
    ensures
        final(queue).wf(),
        forall|x: Scored| #[trigger]
            final(queue).contents().contains(x) <==> old(queue).contents().contains(x)
                || stored_at(table, loc, n as int, x),
{
    let ghost ns = views(nodes@);
    let ghost q0 = queue.contents();
    let count: usize = nodes[n].items.len();
    let mut j: usize = 0;
    while j < count
        invariant
            j <= count,
            n < nodes.len(),
            count == nodes[n as int].items@.len(),
            ns == views(nodes@),
            placed(table, ns, loc),
            queue.wf(),
            forall|x: Scored| #[trigger] stored_at(table, loc, n as int, x) ==> !q0.contains(x),
            forall|x: Scored| #[trigger]
                queue.contents().contains(x) <==> q0.contains(x) || stored_before(
                    table,
                    loc,
                    n as int,
                    j as int,
                    x,
                ),
        decreases count - j,
    {
        let x: Scored = nodes[n].items[j];
        proof {
            assert(x == ns[n as int].items[j as int]);
            assert(slot_wf(ns, loc, n as int, j as int));
            let e = (x.marker->item as int, x.marker->key as int);
            assert(entry_wf(table, ns, loc, e));
            assert(stored_at(table, loc, n as int, x));
            assert(!stored_before(table, loc, n as int, j as int, x));
            assert(!q0.contains(x));
            assert(!queue.contents().contains(x));
        }
        let ghost q1 = queue.contents();
        queue.push(x);
        proof {
            assert forall|y: Scored| #[trigger]
                queue.contents().contains(y) <==> q0.contains(y) || stored_before(
                    table,
                    loc,
                    n as int,
                    j + 1,
                    y,
                ) by {
                if stored_before(table, loc, n as int, j + 1, y) && !stored_before(
                    table,
                    loc,
                    n as int,
                    j as int,
                    y,
                ) {
                    let o = (y.marker->item as int, y.marker->key as int);
                    assert(entry_wf(table, ns, loc, o));
                    assert(y == x);
                }
                assert(q1.insert(x).contains(y) <==> q1.contains(y) || y == x);
            }
        }
        j += 1;
    }
    proof {
        assert forall|x: Scored| #[trigger]
            queue.contents().contains(x) <==> q0.contains(x) || stored_at(
                table,
                loc,
                n as int,
                x,
            ) by {
            if stored_at(table, loc, n as int, x) {
                let o = (x.marker->item as int, x.marker->key as int);
                assert(entry_wf(table, ns, loc, o));
                assert(stored_before(table, loc, n as int, count as int, x));
            }
        }
    }
}

/// `x` stands for one of the first `upto` vertices of the listing `kids`.
pub(crate) open spec fn listed(ns: Seq<NodeView>, kids: Seq<(u8, usize)>, upto: int, x: Scored) -> bool {
    exists|i: int|
        0 <= i < upto && i < kids.len() && x == node_marker(ns, (#[trigger] kids[i]).1 as int)
}

/// Queues a marker for every vertex that hangs directly under vertex `n`.
fn push_children(queue: &mut MarkerHeap, nodes: &Vec<Node>, n: usize)
    requires
        old(queue).wf(),
        n < nodes.len(),
        shaped(views(nodes@)),
        forall|x: Scored| #[trigger]
            hangs_under(views(nodes@), n as int, x) ==> !old(queue).contents().contains(x),
    ensures
        final(queue).wf(),
        forall|x: Scored| #[trigger]
            final(queue).contents().contains(x) <==> old(queue).contents().contains(x)
                || hangs_under(views(nodes@), n as int, x),
{
    broadcast use vstd::std_specs::btree::group_btree_axioms;

    let ghost ns = views(nodes@);
    let ghost q0 = queue.contents();
    let below: &BTreeMap<u8, usize> = &nodes[n].children;
    let ghost edges = below@;
    let ghost kids = below.iter().remaining().unref();
    let ghost mut done: int = 0;
    for kv in it: below.iter()
        invariant
            ns == views(nodes@),
            shaped(ns),
            n < nodes.len(),
            edges == ns[n as int].children,
            below == nodes[n as int].children,
            it.seq() == below.iter().remaining(),
            it.seq().no_duplicates(),
            kids == it.seq().unref(),
            done == it.index(),
            0 <= done <= kids.len(),
            forall|i: int|
                0 <= i < kids.len() ==> edges.contains_key((#[trigger] kids[i]).0)
                    && edges[kids[i].0] == kids[i].1,
            queue.wf(),
            forall|x: Scored| #[trigger] hangs_under(ns, n as int, x) ==> !q0.contains(x),
            forall|x: Scored| #[trigger]
                queue.contents().contains(x) <==> q0.contains(x) || listed(ns, kids, done, x),
    {
        let c: usize = *kv.1;
        proof {
            assert(kids[done] == (*kv.0, c));
            assert(edges.contains_key(kids[done].0));
        }
        let x = Scored { marker: ExploreMarker::Node { node: c }, score: nodes[c].max_score };
        proof {
            assert(x == node_marker(ns, c as int));
            assert(hangs_under(ns, n as int, x));
            assert(!q0.contains(x));
            if listed(ns, kids, done, x) {
                let i = choose|i: int|
                    0 <= i < done && i < kids.len() && x == node_marker(
                        ns,
                        (#[trigger] kids[i]).1 as int,
                    );
                assert(edges.contains_key(kids[i].0));
                assert(ns[c as int].path == ns[n as int].path.push(kids[i].0));
                assert(ns[c as int].path == ns[n as int].path.push(kids[done].0));
                assert(ns[n as int].path.push(kids[i].0).last() == kids[i].0);
                assert(ns[n as int].path.push(kids[done].0).last() == kids[done].0);
                assert(it.seq()[i] == it.seq()[done]);
            }
            assert(!queue.contents().contains(x));
        }
        let ghost q1 = queue.contents();
        queue.push(x);
        proof {
            assert forall|y: Scored| #[trigger]
                queue.contents().contains(y) <==> q0.contains(y) || listed(
                    ns,
                    kids,
                    done + 1,
                    y,
                ) by {
                assert(q1.insert(x).contains(y) <==> q1.contains(y) || y == x);
                if listed(ns, kids, done + 1, y) {
                    let i = choose|i: int|
                        0 <= i < done + 1 && i < kids.len() && y == node_marker(
                            ns,
                            (#[trigger] kids[i]).1 as int,
                        );
                    if i < done {
                        assert(listed(ns, kids, done, y));
                    }
                }
                if listed(ns, kids, done, y) {
                    let i = choose|i: int|
                        0 <= i < done && i < kids.len() && y == node_marker(
                            ns,
                            (#[trigger] kids[i]).1 as int,
                        );
                    assert(listed(ns, kids, done + 1, y));
                }
                if y == x {
                    assert(y == node_marker(ns, kids[done].1 as int));
                    assert(listed(ns, kids, done + 1, y));
                }
            }
            done = done + 1;
        }
    }
    proof {
        assert(done == kids.len());
        assert forall|x: Scored| #[trigger]
            queue.contents().contains(x) <==> q0.contains(x) || hangs_under(
                ns,
                n as int,
                x,
            ) by {
            if listed(ns, kids, done, x) {
                let i = choose|i: int|
                    0 <= i < done && i < kids.len() && x == node_marker(
                        ns,
                        (#[trigger] kids[i]).1 as int,
                    );
                assert(edges.contains_key(kids[i].0));
            }
            if hangs_under(ns, n as int, x) {
                let c = x.marker->node;
                assert(parent_wf(ns, c as int));
                let b = ns[c as int].path.last();
                assert(edges.contains_key(b));
                let v = below.iter().remaining();
                assert(v.contains((&b, &edges[b])));
                let i = choose|i: int| 0 <= i < v.len() && v[i] == (&b, &edges[b]);
                assert(kids[i].1 == c);
                assert(listed(ns, kids, done, x));
            }
        }
    }
}

/// `out` holds, in the order of `ids`, the items that the entries `ids` belong to.
pub open spec fn handed<T>(items: Seq<T>, ids: Seq<(int, int)>, out: Seq<&T>) -> bool {
    &&& out.len() == ids.len()
    &&& forall|i: int|
        0 <= i < ids.len() ==> 0 <= (#[trigger] ids[i]).0 < items.len() && *out[i]
            == items[ids[i].0]
}

/// A cursor over the matches of one query, best first.
///
/// It holds the entries that are still to come (`pending`) and remembers those
/// it has handed out (`produced`). It cannot be rewound: a new query gives a new
/// cursor.
pub struct CompletionIter<'a, T> {
    tree: &'a CompletionTree<T>,
    queue: MarkerHeap,
    start: Ghost<int>,
    unopened: Ghost<Set<int>>,
    pending: Ghost<Set<(int, int)>>,
    produced: Ghost<Seq<(int, int)>>,
}

impl<'a, T> CompletionIter<'a, T> {
    /// The items of the index that is searched, in insertion order.
    pub closed spec fn items(&self) -> Seq<T> {
        self.tree@
    }

    /// The keys of those items.
    pub closed spec fn table(&self) -> Seq<Seq<(Seq<u8>, i32)>> {
        self.tree.table()
    }

    /// The matching entries that have not been handed out.
    pub closed spec fn pending(&self) -> Set<(int, int)> {
        self.pending@
    }

    /// The entries handed out so far, in that order.
    pub closed spec fn produced(&self) -> Seq<(int, int)> {
        self.produced@
    }

    pub closed spec fn wf(&self) -> bool {
        &&& self.tree.wf()
        &&& self.queue.wf()
        &&& self.unopened@.finite()
        &&& self.pending@.finite()
        &&& explored(
            self.tree.table@,
            views(self.tree.nodes@),
            self.tree.loc@,
            self.start@,
            self.unopened@,
            self.pending@,
            self.queue.contents(),
        )
    }

    /// The cursor of a query that nothing matches.
    pub(crate) fn empty(tree: &'a CompletionTree<T>) -> (it: Self)
        requires
            tree.wf(),
        ensures
            it.wf(),
            it.items() == tree@,
            it.table() == tree.table(),
            it.pending() == Set::<(int, int)>::empty(),
            it.produced() == Seq::<(int, int)>::empty(),
    {
        CompletionIter {
            tree,
            queue: MarkerHeap::new(),
            start: Ghost(0),
            unopened: Ghost(Set::empty()),
            pending: Ghost(Set::empty()),
            produced: Ghost(Seq::empty()),
        }
    }

    /// The cursor over the entries at and below vertex `node`.
    pub(crate) fn from(tree: &'a CompletionTree<T>, node: usize) -> (it: Self)
        requires
            tree.wf(),
            node < tree.nodes@.len(),
        ensures
            it.wf(),
            it.items() == tree@,
            it.table() == tree.table(),
            it.pending() == matching(tree.table(), views(tree.nodes@)[node as int].path),
            it.produced() == Seq::<(int, int)>::empty(),
    {
        let mut queue = MarkerHeap::new();
        queue.push(Scored { marker: ExploreMarker::Node { node }, score: tree.nodes[node].max_score });
        let ghost ns = views(tree.nodes@);
        let ghost unopened = Set::new(|n: int| 0 <= n < ns.len());
        let ghost pending = matching(tree.table@, ns[node as int].path);
        proof {
            tree.unfold();
            lemma_seeded(tree.table@, ns, tree.loc@, node as int);
            vstd::set_lib::lemma_int_range(0, ns.len() as int);
            assert(unopened =~= vstd::set_lib::set_int_range(0, ns.len() as int));
            assert(pending.subset_of(tree.loc@.dom()));
            vstd::set_lib::lemma_len_subset(pending, tree.loc@.dom());
        }
        CompletionIter {
            tree,
            queue,
            start: Ghost(node as int),
            unopened: Ghost(unopened),
            pending: Ghost(pending),
            produced: Ghost(Seq::empty()),
        }
    }

    /// Hands out the next match: the pending entry that comes before all others.
    ///
    /// Vertices are opened only as far as needed to know that entry: a vertex is
    /// opened when its bound is at least the score of every queued entry.
    pub fn next(&mut self) -> (r: Option<&'a T>)
        requires
            old(self).wf(),
        ensures
            final(self).wf(),
            final(self).items() == old(self).items(),
            final(self).table() == old(self).table(),
            match r {
                None => {
                    &&& old(self).pending() == Set::<(int, int)>::empty()
                    &&& final(self).pending() == old(self).pending()
                    &&& final(self).produced() == old(self).produced()
                },
                Some(x) => {
                    let e = final(self).produced().last();
                    &&& final(self).produced() == old(self).produced().push(e)
                    &&& is_first(old(self).table(), old(self).pending(), e)
                    &&& final(self).pending() == old(self).pending().remove(e)
                    &&& is_entry(old(self).table(), e)
                    &&& e.0 < old(self).items().len()
                    &&& *x == old(self).items()[e.0]
                },
            },
    {
        let tree: &'a CompletionTree<T> = self.tree;
        let ghost table = tree.table@;
        let ghost ns = views(tree.nodes@);
        let ghost loc = tree.loc@;
        proof {
            tree.unfold();
        }
        loop
            invariant
                self.wf(),
                self.tree == tree,
                old(self).tree == tree,
                tree.wf(),
                table == tree.table@,
                ns == views(tree.nodes@),
                loc == tree.loc@,
                self.pending@ == old(self).pending@,
                self.produced@ == old(self).produced@,
            decreases self.unopened@.len(),
        {
            proof {
                tree.unfold();
            }
            let ghost q = self.queue.contents();
            match self.queue.pop() {
                None => {
                    proof {
                        lemma_exhausted(table, ns, loc, self.start@, self.unopened@, self.pending@);
                    }
                    return None;
                },
                Some(cur) => {
                    proof {
                        assert(marker_ok(
                            table,
                            ns,
                            loc,
                            self.start@,
                            self.unopened@,
                            self.pending@,
                            cur,
                        ));
                    }
                    match cur.marker {
                        ExploreMarker::Item { item, key } => {
                            let ghost e = (item as int, key as int);
                            proof {
                                assert(entry_wf(table, ns, loc, e));
                                lemma_emitted(
                                    table,
                                    ns,
                                    loc,
                                    self.start@,
                                    self.unopened@,
                                    self.pending@,
                                    q,
                                    cur,
                                    e,
                                );
                                self.pending@ = self.pending@.remove(e);
                                self.produced@ = self.produced@.push(e);
                            }
                            return Some(&tree.items[item]);
                        },
                        ExploreMarker::Node { node } => {
                            proof {
                                let unopened = self.unopened@;
                                let q1 = q.remove(cur);
                                assert forall|x: Scored| #[trigger]
                                    stored_at(table, loc, node as int, x) implies !q1.contains(
                                    x,
                                ) by {
                                    if q1.contains(x) {
                                        assert(marker_ok(
                                            table,
                                            ns,
                                            loc,
                                            self.start@,
                                            unopened,
                                            self.pending@,
                                            x,
                                        ));
                                    }
                                }
                                assert forall|x: Scored| #[trigger]
                                    hangs_under(ns, node as int, x) implies !q1.contains(x) by {
                                    if q1.contains(x) {
                                        assert(marker_ok(
                                            table,
                                            ns,
                                            loc,
                                            self.start@,
                                            unopened,
                                            self.pending@,
                                            x,
                                        ));
                                        lemma_under_later(ns, self.start@, node as int);
                                        assert(parent_wf(ns, x.marker->node as int));
                                    }
                                }
                            }
                            push_items(&mut self.queue, &tree.nodes, node, Ghost(table), Ghost(loc));
                            push_children(&mut self.queue, &tree.nodes, node);
                            proof {
                                lemma_opened(
                                    table,
                                    ns,
                                    loc,
                                    self.start@,
                                    self.unopened@,
                                    self.pending@,
                                    q,
                                    node as int,
                                );
                                assert(self.queue.contents() =~= opened(
                                    table,
                                    ns,
                                    loc,
                                    q,
                                    node as int,
                                ));
                                self.unopened@ = self.unopened@.remove(node as int);
                            }
                        },
                    }
                },
            }
        }
    }

    /// Hands out all matches that are still to come, in ranking order.
    pub fn collect(&mut self) -> (out: Vec<&'a T>)
        requires
            old(self).wf(),
        ensures
            final(self).wf(),
            final(self).items() == old(self).items(),
            final(self).table() == old(self).table(),
            final(self).pending() == Set::<(int, int)>::empty(),
            old(self).produced().len() <= final(self).produced().len(),
            final(self).produced().take(old(self).produced().len() as int) == old(self).produced(),
            is_ranking(
                old(self).table(),
                old(self).pending(),
                final(self).produced().skip(old(self).produced().len() as int),
            ),
            handed(
                old(self).items(),
                final(self).produced().skip(old(self).produced().len() as int),
                out@,
            ),
    {
        let ghost table = self.table();
        let ghost items = self.items();
        let ghost first = self.pending@;
        let ghost history = self.produced@;
        let ghost skipped = history.len() as int;
        let ghost mut ids: Seq<(int, int)> = Seq::empty();
        let mut out: Vec<&'a T> = Vec::new();
        proof {
            assert(self.produced@ =~= history + ids);
        }
        loop
            invariant
                self.wf(),
                self.items() == items,
                self.table() == table,
                items == old(self).items(),
                table == old(self).table(),
                first == old(self).pending(),
                history == old(self).produced(),
                skipped == history.len(),
                self.produced@ == history + ids,
                handed(items, ids, out@),
                forall|e: (int, int)| first.contains(e) <==> ids.contains(e) || self.pending@.contains(e),
                forall|i: int, j: int| 0 <= i < j < ids.len() ==> outranks(table, ids[i], ids[j]),
                forall|i: int, e: (int, int)|
                    0 <= i < ids.len() && self.pending@.contains(e) ==> outranks(table, ids[i], e),
            decreases self.pending@.len(),
        {
            let ghost waiting = self.pending@;
            match self.next() {
                None => {
                    proof {
                        assert((history + ids).take(skipped) =~= history);
                        assert((history + ids).skip(skipped) =~= ids);
                    }
                    return out;
                },
                Some(x) => {
                    let ghost held = out@;
                    out.push(x);
                    proof {
                        let e = self.produced@.last();
                        let longer = ids.push(e);
                        assert(self.produced@ =~= history + longer);
                        assert forall|i: int| 0 <= i < longer.len() implies 0 <= (
                        #[trigger] longer[i]).0 < items.len() && *out@[i] == items[longer[i].0] by {
                            if i < ids.len() {
                                assert(longer[i] == ids[i]);
                                assert(out@[i] == held[i]);
                            }
                        }
                        assert forall|o: (int, int)|
                            first.contains(o) <==> longer.contains(o) || self.pending@.contains(
                                o,
                            ) by {
                            if ids.contains(o) {
                                let i = choose|i: int| 0 <= i < ids.len() && ids[i] == o;
                                assert(longer[i] == o);
                            }
                            if longer.contains(o) {
                                let i = choose|i: int| 0 <= i < longer.len() && longer[i] == o;
                                if i < ids.len() {
                                    assert(ids[i] == o);
                                }
                            }
                            if o == e {
                                assert(longer[ids.len() as int] == e);
                                assert(waiting.contains(e));
                            }
                        }
                        assert forall|i: int, j: int| 0 <= i < j < longer.len() implies outranks(
                            table,
                            longer[i],
                            longer[j],
                        ) by {
                            assert(waiting.contains(e));
                        }
                        assert forall|i: int, o: (int, int)|
                            0 <= i < longer.len() && self.pending@.contains(o) implies outranks(
                            table,
                            longer[i],
                            o,
                        ) by {
                            assert(waiting.contains(o));
                        }
                        ids = longer;
                    }
                },
            }
        }
    }
}

} // verus!
