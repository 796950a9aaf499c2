//! What follows from the contracts of insertion and search, stated over the
//! table of keys.

use crate::key::{
    entry_bytes, entry_score, has_prefix, is_entry, is_first, is_ranking, matching, outranks,
};
use vstd::prelude::*;

verus! {

/// The empty prefix matches every indexed key: a search for it is a search of
/// the whole index.
pub proof fn law_empty_prefix_matches_all(table: Seq<Seq<(Seq<u8>, i32)>>)
    ensures
        forall|e: (int, int)|
            matching(table, Seq::<u8>::empty()).contains(e) <==> is_entry(table, e),
{
}

/// The full result of a search for the empty prefix holds every key of every
/// inserted item exactly once: an item with several keys is in it once for each,
/// and nothing else is.
pub proof fn law_search_all_lists_each_entry_once(
    table: Seq<Seq<(Seq<u8>, i32)>>,
    ids: Seq<(int, int)>,
)
    requires
        is_ranking(table, matching(table, Seq::<u8>::empty()), ids),
    ensures
        ids.no_duplicates(),
        forall|e: (int, int)|
            ids.to_multiset().count(e) == if is_entry(table, e) {
                1nat
            } else {
                0nat
            },
{
    law_ranking_has_no_duplicates(table, matching(table, Seq::<u8>::empty()), ids);
    ids.lemma_multiset_has_no_duplicates();
    assert forall|e: (int, int)|
        ids.to_multiset().count(e) == if is_entry(table, e) {
            1nat
        } else {
            0nat
        } by {
        vstd::seq_lib::to_multiset_contains(ids, e);
        if is_entry(table, e) {
            assert(matching(table, Seq::<u8>::empty()).contains(e));
            assert(ids.contains(e));
            assert(ids.to_multiset().contains(e));
        } else {
            assert(!ids.contains(e));
        }
    }
}

/// No entry is handed out twice by one search.
pub proof fn law_ranking_has_no_duplicates(
    table: Seq<Seq<(Seq<u8>, i32)>>,
    pending: Set<(int, int)>,
    ids: Seq<(int, int)>,
)
    requires
        is_ranking(table, pending, ids),
    ensures
        ids.no_duplicates(),
{
    assert forall|i: int, j: int| 0 <= i < ids.len() && 0 <= j < ids.len() && i != j implies ids[i]
        != ids[j] by {
        if i < j {
            assert(outranks(table, ids[i], ids[j]));
        } else {
            assert(outranks(table, ids[j], ids[i]));
        }
    }
}

/// The ranking of a set of entries is unique: two full results of the same search
/// are the same sequence.
pub proof fn law_ranking_is_unique(
    table: Seq<Seq<(Seq<u8>, i32)>>,
    pending: Set<(int, int)>,
    a: Seq<(int, int)>,
    b: Seq<(int, int)>,
)
    requires
        is_ranking(table, pending, a),
        is_ranking(table, pending, b),
    ensures
        a == b,
    decreases a.len(),
{
    law_ranking_has_no_duplicates(table, pending, a);
    law_ranking_has_no_duplicates(table, pending, b);
    if a.len() == 0 {
        if b.len() > 0 {
            assert(b.contains(b[0]));
            assert(pending.contains(b[0]));
            assert(a.contains(b[0]));
        }
        assert(a =~= b);
    } else if b.len() == 0 {
        assert(a.contains(a[0]));
        assert(pending.contains(a[0]));
        assert(b.contains(a[0]));
    } else {
        assert(a.contains(a[0]));
        assert(b.contains(b[0]));
        assert(pending.contains(a[0]) && pending.contains(b[0]));
        assert(b.contains(a[0]) && a.contains(b[0]));
        let i = choose|i: int| 0 <= i < b.len() && b[i] == a[0];
        let j = choose|j: int| 0 <= j < a.len() && a[j] == b[0];
        if i > 0 && j > 0 {
            assert(outranks(table, b[0], b[i]));
            assert(outranks(table, a[0], a[j]));
        }
        if i > 0 && j == 0 {
            assert(outranks(table, b[0], b[i]));
        }
        if i == 0 && j > 0 {
            assert(outranks(table, a[0], a[j]));
        }
        assert(a[0] == b[0]);
        let rest = pending.remove(a[0]);
        let a2 = a.skip(1);
        let b2 = b.skip(1);
        assert forall|e: (int, int)| a2.contains(e) <==> rest.contains(e) by {
            if a2.contains(e) {
                let k = choose|k: int| 0 <= k < a2.len() && a2[k] == e;
                assert(a[k + 1] == e);
                assert(a.contains(e));
            }
            if rest.contains(e) {
                assert(a.contains(e));
                let k = choose|k: int| 0 <= k < a.len() && a[k] == e;
                assert(a2[k - 1] == e);
            }
        }
        assert forall|e: (int, int)| b2.contains(e) <==> rest.contains(e) by {
            if b2.contains(e) {
                let k = choose|k: int| 0 <= k < b2.len() && b2[k] == e;
                assert(b[k + 1] == e);
                assert(b.contains(e));
            }
            if rest.contains(e) {
                assert(b.contains(e));
                let k = choose|k: int| 0 <= k < b.len() && b[k] == e;
                assert(b2[k - 1] == e);
            }
        }
        assert forall|x: int, y: int| 0 <= x < y < a2.len() implies outranks(
            table,
            a2[x],
            a2[y],
        ) by {
            assert(outranks(table, a[x + 1], a[y + 1]));
        }
        assert forall|x: int, y: int| 0 <= x < y < b2.len() implies outranks(
            table,
            b2[x],
            b2[y],
        ) by {
            assert(outranks(table, b[x + 1], b[y + 1]));
        }
        law_ranking_is_unique(table, rest, a2, b2);
        assert(a =~= seq![a[0]] + a2);
        assert(b =~= seq![b[0]] + b2);
    }
}

/// Scores never rise along a result: an entry that is handed out earlier has a
/// score at least as high as any that is handed out later.
pub proof fn law_ranking_scores_never_rise(
    table: Seq<Seq<(Seq<u8>, i32)>>,
    pending: Set<(int, int)>,
    ids: Seq<(int, int)>,
)
    requires
        is_ranking(table, pending, ids),
    ensures
        forall|i: int, j: int|
            0 <= i < j < ids.len() ==> entry_score(table, ids[i]) >= entry_score(table, ids[j]),
{
    assert forall|i: int, j: int| 0 <= i < j < ids.len() implies entry_score(table, ids[i])
        >= entry_score(table, ids[j]) by {
        assert(outranks(table, ids[i], ids[j]));
    }
}

/// Two matches that a cursor hands out one after the other: the score of the
/// second is no higher than the score of the first.
pub proof fn law_consecutive_scores_never_rise(
    table: Seq<Seq<(Seq<u8>, i32)>>,
    pending: Set<(int, int)>,
    earlier: (int, int),
    later: (int, int),
)
    requires
        is_first(table, pending, earlier),
        is_first(table, pending.remove(earlier), later),
    ensures
        entry_score(table, earlier) >= entry_score(table, later),
{
    assert(pending.contains(later));
    assert(outranks(table, earlier, later));
}

/// A search hands out only items that have a key beginning with the prefix: each
/// match names such a key.
pub proof fn law_matches_have_the_prefix(
    table: Seq<Seq<(Seq<u8>, i32)>>,
    prefix: Seq<u8>,
    ids: Seq<(int, int)>,
)
    requires
        is_ranking(table, matching(table, prefix), ids),
    ensures
        forall|i: int|
            0 <= i < ids.len() ==> {
                &&& 0 <= (#[trigger] ids[i]).0 < table.len()
                &&& 0 <= ids[i].1 < table[ids[i].0].len()
                &&& has_prefix(table[ids[i].0][ids[i].1].0, prefix)
            },
{
    assert forall|i: int| 0 <= i < ids.len() implies {
        &&& 0 <= (#[trigger] ids[i]).0 < table.len()
        &&& 0 <= ids[i].1 < table[ids[i].0].len()
        &&& has_prefix(table[ids[i].0][ids[i].1].0, prefix)
    } by {
        assert(ids.contains(ids[i]));
        assert(matching(table, prefix).contains(ids[i]));
    }
}

/// A prefix that no indexed key begins with matches nothing, and the result of a
/// search for it is empty.
pub proof fn law_absent_prefix_matches_nothing(
    table: Seq<Seq<(Seq<u8>, i32)>>,
    prefix: Seq<u8>,
    ids: Seq<(int, int)>,
)
    requires
        forall|e: (int, int)|
            is_entry(table, e) ==> !has_prefix(#[trigger] entry_bytes(table, e), prefix),
        is_ranking(table, matching(table, prefix), ids),
    ensures
        matching(table, prefix) == Set::<(int, int)>::empty(),
        ids.len() == 0,
{
    assert forall|e: (int, int)| !matching(table, prefix).contains(e) by {
        if is_entry(table, e) {
            assert(!has_prefix(entry_bytes(table, e), prefix));
        }
    }
    assert(matching(table, prefix) =~= Set::<(int, int)>::empty());
    if ids.len() > 0 {
        assert(ids.contains(ids[0]));
    }
}

/// Nothing is ever taken out of the index: what matched before an insertion
/// matches after it, under the same name and with the same key and score.
pub proof fn law_insertion_keeps_matches(
    table: Seq<Seq<(Seq<u8>, i32)>>,
    keys: Seq<(Seq<u8>, i32)>,
    prefix: Seq<u8>,
    e: (int, int),
)
    requires
        matching(table, prefix).contains(e),
    ensures
        matching(table.push(keys), prefix).contains(e),
        entry_bytes(table.push(keys), e) == entry_bytes(table, e),
        entry_score(table.push(keys), e) == entry_score(table, e),
{
    assert(table.push(keys)[e.0] == table[e.0]);
}

/// Insertion is not idempotent: an item that is inserted twice is matched twice
/// under each of its keys, once for each insertion.
pub proof fn law_reinsertion_duplicates(
    table: Seq<Seq<(Seq<u8>, i32)>>,
    keys: Seq<(Seq<u8>, i32)>,
    prefix: Seq<u8>,
    k: int,
)
    requires
        0 <= k < keys.len(),
        has_prefix(keys[k].0, prefix),
    ensures
        matching(table.push(keys).push(keys), prefix).contains((table.len() as int, k)),
        matching(table.push(keys).push(keys), prefix).contains((table.len() as int + 1, k)),
        !matching(table, prefix).contains((table.len() as int, k)),
        !matching(table, prefix).contains((table.len() as int + 1, k)),
{
    let twice = table.push(keys).push(keys);
    assert(twice[table.len() as int] == keys);
    assert(twice[table.len() as int + 1] == keys);
}

} // verus!
