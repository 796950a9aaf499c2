//! The index: insertion and prefix descent.

use crate::cursor::CompletionIter;
use crate::explore::{complete, lemma_bound_chain, lemma_under_prefix};
use crate::key::{
    entry_bytes, entry_score, has_prefix, is_entry, key_views, matching, table_fits, Completable,
    Key,
};
use crate::marker::{ExploreMarker, Scored};
use crate::node::{
    anchor_wf, anchored, child, entry_wf, grow, place, placed, raise, shaped, slot_wf, views, Node,
};
use crate::shape::{
    lemma_ancestor, lemma_filled, lemma_filled_anchored, lemma_free_byte, lemma_grown,
    lemma_grown_anchored, lemma_raised, lemma_raised_anchored,
};
use vstd::prelude::*;

verus! {

/// A prefix-completion index over items of type `T`.
///
/// The items are kept once each, in insertion order; the trie refers to them by
/// position.
pub struct CompletionTree<T> {
    pub(crate) items: Vec<T>,
    pub(crate) nodes: Vec<Node>,
    /// For each item the keys it was indexed under.
    pub(crate) table: Ghost<Seq<Seq<(Seq<u8>, i32)>>>,
    /// For each indexed entry the vertex and slot that hold it.
    pub(crate) loc: Ghost<Map<(int, int), (int, int)>>,
}

impl<T> View for CompletionTree<T> {
    type V = Seq<T>;

    /// The inserted items, in insertion order.
    closed spec fn view(&self) -> Seq<T> {
        self.items@
    }
}

impl<T> Default for CompletionTree<T> {
    /// The empty index.
    fn default() -> (tree: Self)
        ensures
            tree.wf(),
            tree@ == Seq::<T>::empty(),
            tree.table() == Seq::<Seq<(Seq<u8>, i32)>>::empty(),
    {
        CompletionTree::new()
    }
}

impl<T> CompletionTree<T> {
    /// For each inserted item, in insertion order, the keys it was indexed under.
    pub closed spec fn table(&self) -> Seq<Seq<(Seq<u8>, i32)>> {
        self.table@
    }

    /// The trie is sound for the entries indexed so far.
    pub(crate) closed spec fn inv(&self) -> bool {
        &&& self.table@.len() == self.items@.len()
        &&& table_fits(self.table@)
        &&& shaped(views(self.nodes@))
        &&& placed(self.table@, views(self.nodes@), self.loc@)
        &&& anchored(self.table@, views(self.nodes@), self.loc@.dom())
        &&& self.loc@.dom().finite()
    }

    /// The index is well formed: the trie is sound and every key of every item is
    /// indexed. `new` and `default` establish this, insertion keeps it.
    pub closed spec fn wf(&self) -> bool {
        &&& self.inv()
        &&& forall|e: (int, int)| is_entry(self.table@, e) ==> #[trigger] self.loc@.contains_key(e)
    }

    /// The table has one row for each item.
    pub proof fn law_one_row_per_item(&self)
        requires
            self.wf(),
        ensures
            self.table().len() == self@.len(),
            table_fits(self.table()),
    {
    }

    /// Some vertex of the trie stands for the byte path `path`.
    pub closed spec fn has_vertex(&self, path: Seq<u8>) -> bool {
        exists|n: int| 0 <= n < self.nodes@.len() && #[trigger] views(self.nodes@)[n].path == path
    }

    /// The score bound that is cached at the vertex for `path`, where there is one.
    pub closed spec fn bound(&self, path: Seq<u8>) -> i32 {
        let n = choose|n: int|
            0 <= n < self.nodes@.len() && #[trigger] views(self.nodes@)[n].path == path;
        views(self.nodes@)[n].max_score
    }

    /// A vertex stands for a byte path exactly if some indexed key begins with
    /// that path. In particular the trie has a root exactly if a key is indexed.
    pub proof fn law_vertex_iff_key(&self, path: Seq<u8>)
        requires
            self.wf(),
        ensures
            self.has_vertex(path) <==> exists|e: (int, int)|
                matching(self.table(), path).contains(e),
    {
        let ns = views(self.nodes@);
        if self.has_vertex(path) {
            let n = choose|n: int| 0 <= n < self.nodes@.len() && #[trigger] ns[n].path == path;
            assert(anchor_wf(self.table@, ns, self.loc@.dom(), n));
            assert(matching(self.table(), path).contains(ns[n].witness));
        }
        if exists|e: (int, int)| matching(self.table(), path).contains(e) {
            let e = choose|e: (int, int)| matching(self.table(), path).contains(e);
            assert(self.loc@.contains_key(e));
            assert(entry_wf(self.table@, ns, self.loc@, e));
            let a = lemma_ancestor(ns, self.loc@[e].0, path.len() as int);
            assert(ns[a].path =~= path);
        }
    }

    /// The bound cached at a vertex is the best score among the keys that begin
    /// with its path: none of them has a higher score, and one of them has it.
    pub proof fn law_bound_is_best_score(&self, path: Seq<u8>)
        requires
            self.wf(),
            self.has_vertex(path),
        ensures
            forall|e: (int, int)| #[trigger]
                matching(self.table(), path).contains(e) ==> entry_score(self.table(), e)
                    <= self.bound(path),
            exists|e: (int, int)| #[trigger]
                matching(self.table(), path).contains(e) && entry_score(self.table(), e)
                    == self.bound(path),
    {
        let ns = views(self.nodes@);
        let n = choose|n: int| 0 <= n < self.nodes@.len() && #[trigger] ns[n].path == path;
        assert forall|e: (int, int)| #[trigger]
            matching(self.table(), path).contains(e) implies entry_score(self.table(), e)
            <= self.bound(path) by {
            assert(self.loc@.contains_key(e));
            assert(entry_wf(self.table@, ns, self.loc@, e));
            let at = self.loc@[e].0;
            lemma_under_prefix(ns, n, at);
            lemma_bound_chain(ns, n, at);
            assert(slot_wf(ns, self.loc@, at, self.loc@[e].1));
        }
        assert(anchor_wf(self.table@, ns, self.loc@.dom(), n));
        let w = ns[n].witness;
        assert(matching(self.table(), path).contains(w) && entry_score(self.table(), w)
            == self.bound(path));
    }

    /// Insertion takes no vertex away and lowers no bound.
    pub proof fn law_bounds_never_fall(&self, later: &Self, keys: Seq<(Seq<u8>, i32)>, path: Seq<u8>)
        requires
            self.wf(),
            later.wf(),
            later.table() == self.table().push(keys),
            self.has_vertex(path),
        ensures
            later.has_vertex(path),
            self.bound(path) <= later.bound(path),
    {
        self.law_bound_is_best_score(path);
        let e = choose|e: (int, int)| #[trigger]
            matching(self.table(), path).contains(e) && entry_score(self.table(), e) == self.bound(
                path,
            );
        assert(later.table()[e.0] == self.table()[e.0]);
        assert(matching(later.table(), path).contains(e));
        later.law_vertex_iff_key(path);
        later.law_bound_is_best_score(path);
    }

    /// What `wf` holds.
    pub(crate) proof fn unfold(&self)
        requires
            self.wf(),
        ensures
            self@ == self.items@,
            self.table() == self.table@,
            self.table@.len() == self.items@.len(),
            table_fits(self.table@),
            shaped(views(self.nodes@)),
            placed(self.table@, views(self.nodes@), self.loc@),
            anchored(self.table@, views(self.nodes@), self.loc@.dom()),
            self.loc@.dom().finite(),
            complete(self.table@, self.loc@),
            self.inv(),
    {
    }

    /// The empty index.
    pub fn new() -> (tree: Self)
        ensures
            tree.wf(),
            tree@ == Seq::<T>::empty(),
            tree.table() == Seq::<Seq<(Seq<u8>, i32)>>::empty(),
    {
        let tree = CompletionTree {
            items: Vec::new(),
            nodes: Vec::new(),
            table: Ghost(Seq::empty()),
            loc: Ghost(Map::empty()),
        };
        assert(views(tree.nodes@).len() == 0);
        tree
    }

    /// Indexes one key of an item that the index already holds: walks the key's
    /// bytes from the root, makes the vertices that are missing, raises the
    /// bounds on the way, and leaves the entry at the end of the walk.
    fn put_key(&mut self, key: &Key, item: usize, ordinal: usize)
        requires
            old(self).inv(),
            is_entry(old(self).table@, (item as int, ordinal as int)),
            old(self).table@[item as int][ordinal as int] == key@,
            !old(self).loc@.contains_key((item as int, ordinal as int)),
        ensures
            final(self).inv(),
            final(self).items@ == old(self).items@,
            final(self).table@ == old(self).table@,
            final(self).loc@.dom() == old(self).loc@.dom().insert((item as int, ordinal as int)),
    {
        let score: i32 = key.score;
        let ghost e = (item as int, ordinal as int);
        let ghost table = self.table@;
        let ghost known = self.loc@.dom().insert(e);
        proof {
            assert(score == entry_score(table, e));
            assert(key.bytes@ == entry_bytes(table, e));
            let ns = views(self.nodes@);
            assert forall|n: int| 0 <= n < ns.len() implies #[trigger] anchor_wf(
                table,
                ns,
                known,
                n,
            ) by {
                assert(anchor_wf(table, ns, self.loc@.dom(), n));
            }
        }
        if self.nodes.len() == 0 {
            self.nodes.push(Node::new(score, Ghost(Seq::empty()), Ghost(0), Ghost(e)));
            proof {
                let ns = views(self.nodes@);
                assert(ns.len() == 1);
                assert(ns[0].items.len() == 0);
                assert(anchor_wf(table, ns, known, 0));
                assert forall|x: (int, int)| !self.loc@.contains_key(x) by {
                    if self.loc@.contains_key(x) {
                        assert(entry_wf(table, views(old(self).nodes@), self.loc@, x));
                    }
                }
            }
        }
        let mut cur: usize = 0;
        let mut i: usize = 0;
        while i < key.bytes.len()
            invariant
                i <= key.bytes.len(),
                cur < self.nodes.len(),
                shaped(views(self.nodes@)),
                placed(table, views(self.nodes@), self.loc@),
                anchored(table, views(self.nodes@), known),
                known == old(self).loc@.dom().insert(e),
                is_entry(table, e),
                score == entry_score(table, e),
                key.bytes@ == entry_bytes(table, e),
                self.items@ == old(self).items@,
                self.table@ == table,
                self.loc@ == old(self).loc@,
                views(self.nodes@)[cur as int].path == key.bytes@.take(i as int),
                cur > 0 ==> score <= views(self.nodes@)[views(
                    self.nodes@,
                )[cur as int].parent].max_score,
            decreases key.bytes.len() - i,
        {
            let b: u8 = key.bytes[i];
            proof {
                let ns = views(self.nodes@);
                lemma_raised(table, ns, self.loc@, cur as int, score, e);
                lemma_raised_anchored(table, ns, known, cur as int, e);
            }
            raise(&mut self.nodes, cur, score, Ghost(e));
            let ghost ns = views(self.nodes@);
            let next: usize = match child(&self.nodes, cur, b) {
                Some(c) => c,
                None => {
                    let c = grow(&mut self.nodes, cur, b, score, Ghost(e));
                    proof {
                        assert(key.bytes@.take(i as int).push(b) =~= key.bytes@.take(i + 1));
                        lemma_grown(table, ns, self.loc@, cur as int, b, score, e);
                        lemma_grown_anchored(table, ns, known, cur as int, b, e);
                    }
                    c
                },
            };
            proof {
                assert(key.bytes@.take(i as int).push(b) =~= key.bytes@.take(i + 1));
            }
            cur = next;
            i += 1;
        }
        proof {
            let ns = views(self.nodes@);
            assert(key.bytes@.take(i as int) =~= key.bytes@);
            lemma_raised(table, ns, self.loc@, cur as int, score, e);
            lemma_raised_anchored(table, ns, known, cur as int, e);
        }
        raise(&mut self.nodes, cur, score, Ghost(e));
        let ghost slot = self.nodes[cur as int].items@.len() as int;
        let marker = Scored { marker: ExploreMarker::Item { item, key: ordinal }, score };
        proof {
            lemma_filled(table, views(self.nodes@), self.loc@, cur as int, e);
            lemma_filled_anchored(table, views(self.nodes@), known, cur as int, marker);
        }
        place(&mut self.nodes, cur, marker);
        proof {
            self.loc@ = self.loc@.insert(e, (cur as int, slot));
            assert(self.loc@.dom() =~= known);
        }
    }

    /// Inserts `item` under the keys `keys`, each key once, in their order.
    ///
    /// An item that is inserted again, or that has the same key twice, is indexed
    /// again: every key of every insertion is an entry of its own.
    pub fn put_keys(&mut self, item: T, keys: Vec<Key>)
        requires
            old(self).wf(),
        ensures
            final(self).wf(),
            final(self)@ == old(self)@.push(item),
            final(self).table() == old(self).table().push(key_views(keys@)),
    {
        let idx: usize = self.items.len();
        let ghost before = self.table@;
        let ghost after = before.push(key_views(keys@));
        self.items.push(item);
        proof {
            self.table@ = after;
            let ns = views(self.nodes@);
            assert forall|e: (int, int)| #[trigger] self.loc@.contains_key(e) implies entry_wf(
                after,
                ns,
                self.loc@,
                e,
            ) by {
                assert(entry_wf(before, ns, self.loc@, e));
                assert(after[e.0] == before[e.0]);
            }
            assert forall|n: int| 0 <= n < ns.len() implies #[trigger] anchor_wf(
                after,
                ns,
                self.loc@.dom(),
                n,
            ) by {
                assert(anchor_wf(before, ns, self.loc@.dom(), n));
                assert(after[ns[n].witness.0] == before[ns[n].witness.0]);
            }
            assert forall|i: int| 0 <= i < after.len() implies (#[trigger] after[i]).len()
                <= usize::MAX by {
                if i < before.len() {
                    assert(after[i] == before[i]);
                } else {
                    assert(after[i].len() == keys@.len());
                    assert(keys@.len() == keys.len());
                }
            }
            assert(self.items@.len() == self.items.len());
        }
        let mut k: usize = 0;
        while k < keys.len()
            invariant
                k <= keys.len(),
                idx == old(self).items@.len(),
                self.inv(),
                self.items@ == old(self).items@.push(item),
                self.table@ == after,
                after == before.push(key_views(keys@)),
                before.len() == idx,
                forall|e: (int, int)|
                    self.loc@.contains_key(e) <==> is_entry(after, e) && (e.0 < idx || e.1 < k),
            decreases keys.len() - k,
        {
            self.put_key(&keys[k], idx, k);
            k += 1;
        }
    }

    /// Inserts `item` under each of the keys that it reports.
    pub fn put(&mut self, item: T)
        where T: Completable
        requires
            old(self).wf(),
        ensures
            final(self).wf(),
            final(self)@ == old(self)@.push(item),
            exists|keys: Vec<Key>|
                call_ensures(T::keys, (&item,), keys) && final(self).table() == old(
                    self,
                ).table().push(#[trigger] key_views(keys@)),
    {
        let keys = item.keys();
        let ghost reported = keys;
        self.put_keys(item, keys);
        proof {
            assert(call_ensures(T::keys, (&item,), reported));
            assert(self.table() == old(self).table().push(key_views(reported@)));
        }
    }

    /// The matches of `prefix`: a cursor over every entry whose key begins with
    /// `prefix`, byte for byte, none handed out yet.
    pub fn search<'a>(&'a self, prefix: &[u8]) -> (it: CompletionIter<'a, T>)
        requires
            self.wf(),
        ensures
            it.wf(),
            it.items() == self@,
            it.table() == self.table(),
            it.pending() == matching(self.table(), prefix@),
            it.produced() == Seq::<(int, int)>::empty(),
    {
        match self.descendent(prefix) {
            None => {
                proof {
                    assert forall|e: (int, int)| !matching(self.table@, prefix@).contains(e) by {
                        if is_entry(self.table@, e) {
                            assert(self.loc@.contains_key(e));
                        }
                    }
                    assert(matching(self.table@, prefix@) =~= Set::<(int, int)>::empty());
                }
                CompletionIter::empty(self)
            },
            Some(node) => CompletionIter::from(self, node),
        }
    }

    /// The vertex that stands for the path `prefix`, if any key goes that way.
    pub(crate) fn descendent(&self, prefix: &[u8]) -> (r: Option<usize>)
        requires
            self.inv(),
        ensures
            match r {
                Some(n) => n < self.nodes@.len() && views(self.nodes@)[n as int].path == prefix@,
                None => forall|e: (int, int)| #[trigger]
                    self.loc@.contains_key(e) ==> !has_prefix(
                        entry_bytes(self.table@, e),
                        prefix@,
                    ),
            },
    {
        if self.nodes.len() == 0 {
            proof {
                assert forall|e: (int, int)| !self.loc@.contains_key(e) by {
                    if self.loc@.contains_key(e) {
                        assert(entry_wf(self.table@, views(self.nodes@), self.loc@, e));
                    }
                }
            }
            return None;
        }
        let mut cur: usize = 0;
        let mut i: usize = 0;
        while i < prefix.len()
            invariant
                self.inv(),
                i <= prefix.len(),
                cur < self.nodes.len(),
                views(self.nodes@)[cur as int].path == prefix@.take(i as int),
            decreases prefix.len() - i,
        {
            let b: u8 = prefix[i];
            match child(&self.nodes, cur, b) {
                Some(c) => {
                    proof {
                        assert(prefix@.take(i as int).push(b) =~= prefix@.take(i + 1));
                    }
                    cur = c;
                },
                None => {
                    proof {
                        let ns = views(self.nodes@);
                        assert forall|e: (int, int)| #[trigger]
                            self.loc@.contains_key(e) implies !has_prefix(
                            entry_bytes(self.table@, e),
                            prefix@,
                        ) by {
                            lemma_free_byte(self.table@, ns, self.loc@, cur as int, b, e);
                            assert(prefix@.take(i as int).push(b) =~= prefix@.take(i + 1));
                        }
                    }
                    return None;
                },
            }
            i += 1;
        }
        proof {
            assert(prefix@.take(i as int) =~= prefix@);
        }
        Some(cur)
    }
}

} // verus!
