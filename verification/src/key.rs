//! Keys, the capability by which an item says under which keys it is indexed,
//! and the vocabulary in which the index is specified.
//!
//! An index is described by its *table*: for each inserted item, in insertion
//! order, the list of keys it was indexed under. An *entry* `(i, k)` is key
//! number `k` of item number `i`.

use std::hash::Hash;
use vstd::prelude::*;

verus! {

/// A byte string under which an item is found, with the relevance of that match.
pub struct Key {
    pub bytes: Vec<u8>,
    pub score: i32,
}

impl View for Key {
    type V = (Seq<u8>, i32);

    open spec fn view(&self) -> (Seq<u8>, i32) {
        (self.bytes@, self.score)
    }
}

/// The keys of a list, each as a pair of plain values.
pub open spec fn key_views(ks: Seq<Key>) -> Seq<(Seq<u8>, i32)> {
    Seq::new(ks.len(), |i: int| ks[i]@)
}

/// What an item must offer to be indexed: its ordered list of keys.
pub trait Completable: Eq + Clone + Hash {
    fn keys(&self) -> Vec<Key>;
}

/// `bytes` begins with `prefix`, byte for byte.
pub open spec fn has_prefix(bytes: Seq<u8>, prefix: Seq<u8>) -> bool {
    &&& prefix.len() <= bytes.len()
    &&& forall|i: int| 0 <= i < prefix.len() ==> bytes[i] == prefix[i]
}

/// Every count in the table fits the machine.
pub open spec fn table_fits(table: Seq<Seq<(Seq<u8>, i32)>>) -> bool {
    &&& table.len() <= usize::MAX
    &&& forall|i: int| 0 <= i < table.len() ==> (#[trigger] table[i]).len() <= usize::MAX
}

/// `e` names a key of an item of the table.
pub open spec fn is_entry(table: Seq<Seq<(Seq<u8>, i32)>>, e: (int, int)) -> bool {
    0 <= e.0 < table.len() && 0 <= e.1 < table[e.0].len()
}

pub open spec fn entry_bytes(table: Seq<Seq<(Seq<u8>, i32)>>, e: (int, int)) -> Seq<u8> {
    table[e.0][e.1].0
}

pub open spec fn entry_score(table: Seq<Seq<(Seq<u8>, i32)>>, e: (int, int)) -> i32 {
    table[e.0][e.1].1
}

/// The entries whose key begins with `prefix`.
pub open spec fn matching(table: Seq<Seq<(Seq<u8>, i32)>>, prefix: Seq<u8>) -> Set<(int, int)> {
    Set::new(|e: (int, int)| is_entry(table, e) && has_prefix(entry_bytes(table, e), prefix))
}

/// The ranking: `a` comes before `b` when its score is higher; among equal scores
/// the item inserted earlier comes first, and among the keys of one item the
/// earlier key.
pub open spec fn outranks(table: Seq<Seq<(Seq<u8>, i32)>>, a: (int, int), b: (int, int)) -> bool {
    ||| entry_score(table, a) > entry_score(table, b)
    ||| (entry_score(table, a) == entry_score(table, b) && (a.0 < b.0 || (a.0 == b.0 && a.1
        < b.1)))
}

/// `e` is the entry of `pending` that comes before all its others.
pub open spec fn is_first(
    table: Seq<Seq<(Seq<u8>, i32)>>,
    pending: Set<(int, int)>,
    e: (int, int),
) -> bool {
    &&& pending.contains(e)
    &&& forall|o: (int, int)| #[trigger] pending.contains(o) && o != e ==> outranks(table, e, o)
}

/// `ids` lists the entries of `pending`, each once, in ranking order.
pub open spec fn is_ranking(
    table: Seq<Seq<(Seq<u8>, i32)>>,
    pending: Set<(int, int)>,
    ids: Seq<(int, int)>,
) -> bool {
    &&& forall|e: (int, int)| ids.contains(e) <==> pending.contains(e)
    &&& forall|i: int, j: int| 0 <= i < j < ids.len() ==> outranks(table, ids[i], ids[j])
}

} // verus!
