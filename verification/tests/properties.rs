use completion_tree::heap::MarkerHeap;
use completion_tree::marker::{ExploreMarker, Scored};
use completion_tree::{Completable, CompletionTree, Key};

#[derive(Clone, Debug, PartialEq, Eq, Hash)]
struct Word {
    id: usize,
    keys: Vec<(Vec<u8>, i32)>,
}

impl Completable for Word {
    fn keys(&self) -> Vec<Key> {
        self.keys
            .iter()
            .map(|(bytes, score)| Key {
                bytes: bytes.clone(),
                score: *score,
            })
            .collect()
    }
}

fn word(id: usize, keys: &[(&[u8], i32)]) -> Word {
    Word {
        id,
        keys: keys.iter().map(|(b, s)| (b.to_vec(), *s)).collect(),
    }
}

fn ids(tree: &CompletionTree<Word>, prefix: &[u8]) -> Vec<usize> {
    tree.search(prefix).collect().into_iter().map(|w| w.id).collect()
}

/// What a search has to return: the matching keys of all words, the higher score
/// first, and among equal scores in the order of insertion and then of the keys.
fn expected(words: &[Word], prefix: &[u8]) -> Vec<(usize, i32)> {
    let mut found: Vec<(usize, i32)> = Vec::new();
    for w in words {
        for (bytes, score) in &w.keys {
            if bytes.starts_with(prefix) {
                found.push((w.id, *score));
            }
        }
    }
    found.sort_by(|a, b| b.1.cmp(&a.1));
    found
}

fn next_random(state: &mut u64) -> u64 {
    *state = state
        .wrapping_mul(6364136223846793005)
        .wrapping_add(1442695040888963407);
    *state >> 33
}

fn random_words(count: usize, seed: u64) -> Vec<Word> {
    let mut state = seed;
    let mut words = Vec::new();
    for id in 0..count {
        let n_keys = (next_random(&mut state) % 4) as usize;
        let mut keys = Vec::new();
        for _ in 0..n_keys {
            let len = (next_random(&mut state) % 5) as usize;
            let mut bytes = Vec::new();
            for _ in 0..len {
                bytes.push(b'a' + (next_random(&mut state) % 3) as u8);
            }
            let score = (next_random(&mut state) % 7) as i32 - 3;
            keys.push((bytes, score));
        }
        words.push(Word { id, keys });
    }
    words
}

fn index(words: &[Word]) -> CompletionTree<Word> {
    let mut tree = CompletionTree::new();
    for w in words {
        tree.put(w.clone());
    }
    tree
}

#[test]
fn empty_index_matches_nothing() {
    let tree: CompletionTree<Word> = CompletionTree::new();
    assert_eq!(tree.search(b"").collect().len(), 0);
    assert_eq!(tree.search(b"a").collect().len(), 0);
    let mut cursor = tree.search(b"");
    assert!(cursor.next().is_none());
    assert!(cursor.next().is_none());
}

#[test]
fn default_is_the_empty_index() {
    let tree: CompletionTree<Word> = CompletionTree::default();
    assert_eq!(tree.search(b"").collect().len(), 0);
}

#[test]
fn search_of_empty_prefix_returns_every_key_once() {
    let words = vec![
        word(0, &[(b"alpha", 3), (b"beta", 3)]),
        word(1, &[]),
        word(2, &[(b"alpha", 5)]),
        word(3, &[(b"", 0), (b"gamma", -1), (b"g", 9)]),
    ];
    let tree = index(&words);
    let mut found = ids(&tree, b"");
    assert_eq!(found, [3, 2, 0, 0, 3, 3]);
    found.sort();
    assert_eq!(found, [0, 0, 2, 3, 3, 3]);
}

#[test]
fn results_come_in_order_of_score() {
    let words = random_words(200, 7);
    let tree = index(&words);
    let mut cursor = tree.search(b"");
    let mut last: Option<i32> = None;
    let mut count = 0;
    let wanted = expected(&words, b"");
    while let Some(w) = cursor.next() {
        let score = wanted[count].1;
        assert_eq!(w.id, wanted[count].0);
        if let Some(previous) = last {
            assert!(previous >= score);
        }
        last = Some(score);
        count += 1;
    }
    assert_eq!(count, wanted.len());
}

#[test]
fn search_agrees_with_filter_and_stable_sort() {
    let words = random_words(300, 42);
    let tree = index(&words);
    let prefixes: [&[u8]; 9] = [b"", b"a", b"b", b"c", b"ab", b"ca", b"abc", b"aaaa", b"d"];
    for prefix in prefixes {
        let wanted: Vec<usize> = expected(&words, prefix).into_iter().map(|p| p.0).collect();
        assert_eq!(ids(&tree, prefix), wanted);
    }
}

#[test]
fn results_have_a_key_with_the_prefix() {
    let words = random_words(150, 3);
    let tree = index(&words);
    let prefix: &[u8] = b"ab";
    let found = tree.search(prefix).collect();
    assert!(!found.is_empty());
    for w in found {
        assert!(w.keys.iter().any(|(bytes, _)| bytes.starts_with(prefix)));
    }
}

#[test]
fn absent_prefix_returns_nothing() {
    let tree = index(&[word(0, &[(b"alice", 1)]), word(1, &[(b"alex", 4)])]);
    assert_eq!(ids(&tree, b"z"), Vec::<usize>::new());
    assert_eq!(ids(&tree, b"alicex"), Vec::<usize>::new());
    assert_eq!(ids(&tree, b"alb"), Vec::<usize>::new());
    assert_eq!(ids(&tree, b"A"), Vec::<usize>::new());
}

#[test]
fn inserting_again_duplicates_the_match() {
    let w = word(5, &[(b"twice", 2)]);
    let mut tree = CompletionTree::new();
    tree.put(w.clone());
    assert_eq!(ids(&tree, b"tw"), [5]);
    tree.put(w.clone());
    assert_eq!(ids(&tree, b"tw"), [5, 5]);
    tree.put(w);
    assert_eq!(ids(&tree, b""), [5, 5, 5]);
}

#[test]
fn a_key_given_twice_is_indexed_twice() {
    let tree = index(&[word(1, &[(b"same", 0), (b"same", 0)])]);
    assert_eq!(ids(&tree, b"same"), [1, 1]);
}

#[test]
fn equal_scores_come_in_insertion_order() {
    let tree = index(&[
        word(0, &[(b"deep/er/path", 1)]),
        word(1, &[(b"d", 1)]),
        word(2, &[(b"", 1)]),
        word(3, &[(b"deep", 1), (b"dx", 1)]),
        word(4, &[(b"zz", 2)]),
    ]);
    assert_eq!(ids(&tree, b""), [4, 0, 1, 2, 3, 3]);
    assert_eq!(ids(&tree, b"d"), [0, 1, 3, 3]);
    assert_eq!(ids(&tree, b"deep"), [0, 3]);
}

#[test]
fn empty_key_ends_at_the_root() {
    let tree = index(&[word(0, &[(b"", 7)]), word(1, &[(b"x", 3)])]);
    assert_eq!(ids(&tree, b""), [0, 1]);
    assert_eq!(ids(&tree, b"x"), [1]);
}

#[test]
fn item_without_keys_is_never_matched() {
    let tree = index(&[word(0, &[]), word(1, &[(b"k", 0)])]);
    assert_eq!(ids(&tree, b""), [1]);
}

#[test]
fn extreme_scores_are_ranked() {
    let tree = index(&[
        word(0, &[(b"m", i32::MIN)]),
        word(1, &[(b"m", i32::MAX)]),
        word(2, &[(b"m", 0)]),
        word(3, &[(b"mm", i32::MAX)]),
        word(4, &[(b"mmm", i32::MIN)]),
    ]);
    assert_eq!(ids(&tree, b"m"), [1, 3, 2, 0, 4]);
}

#[test]
fn every_byte_value_is_a_key_byte() {
    let tree = index(&[
        word(0, &[(&[0u8, 255, 0], 1)]),
        word(1, &[(&[0u8, 255], 2)]),
        word(2, &[(&[255u8], 3)]),
        word(3, &[(&[0u8, 254, 0], 4)]),
    ]);
    assert_eq!(ids(&tree, &[0u8]), [3, 1, 0]);
    assert_eq!(ids(&tree, &[0u8, 255]), [1, 0]);
    assert_eq!(ids(&tree, &[255u8]), [2]);
    assert_eq!(ids(&tree, &[254u8]), Vec::<usize>::new());
}

#[test]
fn long_key_is_indexed_whole() {
    let long: Vec<u8> = (0..5000).map(|i| (i % 251) as u8).collect();
    let mut tree = CompletionTree::new();
    tree.put(Word { id: 9, keys: vec![(long.clone(), 1)] });
    assert_eq!(ids(&tree, &long), [9]);
    assert_eq!(ids(&tree, &long[..4999]), [9]);
    let mut longer = long.clone();
    longer.push(0);
    assert_eq!(ids(&tree, &longer), Vec::<usize>::new());
}

#[test]
fn put_keys_indexes_under_the_given_keys() {
    let mut tree: CompletionTree<&'static str> = CompletionTree::new();
    tree.put_keys("first", vec![Key { bytes: b"one".to_vec(), score: 1 }]);
    tree.put_keys(
        "second",
        vec![
            Key { bytes: b"two".to_vec(), score: 2 },
            Key { bytes: b"on".to_vec(), score: 5 },
        ],
    );
    tree.put_keys("third", Vec::new());
    assert_eq!(tree.search(b"on").collect(), [&"second", &"first"]);
    assert_eq!(tree.search(b"t").collect(), [&"second"]);
    assert_eq!(tree.search(b"").collect(), [&"second", &"second", &"first"]);
}

#[test]
fn cursor_hands_out_one_match_at_a_time() {
    let tree = index(&[
        word(0, &[(b"ca", 1)]),
        word(1, &[(b"cb", 3)]),
        word(2, &[(b"cc", 2)]),
    ]);
    let mut cursor = tree.search(b"c");
    assert_eq!(cursor.next().map(|w| w.id), Some(1));
    assert_eq!(cursor.next().map(|w| w.id), Some(2));
    let rest: Vec<usize> = cursor.collect().into_iter().map(|w| w.id).collect();
    assert_eq!(rest, [0]);
    assert!(cursor.next().is_none());
    assert_eq!(cursor.collect().len(), 0);
}

#[test]
fn cursors_are_independent() {
    let tree = index(&[word(0, &[(b"p", 1)]), word(1, &[(b"pq", 2)])]);
    let mut first = tree.search(b"p");
    let mut second = tree.search(b"p");
    assert_eq!(first.next().map(|w| w.id), Some(1));
    assert_eq!(second.next().map(|w| w.id), Some(1));
    assert_eq!(first.next().map(|w| w.id), Some(0));
    assert_eq!(ids(&tree, b"p"), [1, 0]);
    assert_eq!(second.next().map(|w| w.id), Some(0));
}

#[test]
fn matches_survive_later_insertions() {
    let mut tree = CompletionTree::new();
    tree.put(word(0, &[(b"keep", 1)]));
    assert_eq!(ids(&tree, b"ke"), [0]);
    tree.put(word(1, &[(b"kept", 5)]));
    tree.put(word(2, &[(b"other", 9)]));
    assert_eq!(ids(&tree, b"ke"), [1, 0]);
    assert_eq!(ids(&tree, b"keep"), [0]);
}

#[test]
fn key_view_fields_are_plain() {
    let key = Key { bytes: vec![1, 2, 3], score: -4 };
    assert_eq!(key.bytes, [1, 2, 3]);
    assert_eq!(key.score, -4);
}

fn node(n: usize, score: i32) -> Scored {
    Scored { marker: ExploreMarker::Node { node: n }, score }
}

fn item(i: usize, k: usize, score: i32) -> Scored {
    Scored { marker: ExploreMarker::Item { item: i, key: k }, score }
}

#[test]
fn queue_hands_out_higher_priority_first() {
    let mut heap = MarkerHeap::new();
    for (n, score) in [3, -1, 7, 0, 7, 2, i32::MIN, i32::MAX].into_iter().enumerate() {
        heap.push(node(n, score));
    }
    let mut scores = Vec::new();
    while let Some(m) = heap.pop() {
        scores.push(m.score);
    }
    assert_eq!(scores, [i32::MAX, 7, 7, 3, 2, 0, -1, i32::MIN]);
    assert!(heap.pop().is_none());
}

#[test]
fn queue_breaks_ties_by_kind_then_position() {
    let mut heap = MarkerHeap::new();
    heap.push(item(2, 0, 1));
    heap.push(item(1, 1, 1));
    heap.push(node(9, 1));
    heap.push(item(1, 0, 1));
    heap.push(node(4, 1));
    heap.push(item(0, 0, 0));
    heap.push(node(0, 2));
    let mut order = Vec::new();
    while let Some(m) = heap.pop() {
        order.push(m);
    }
    assert!(order
        == vec![
            node(0, 2),
            node(4, 1),
            node(9, 1),
            item(1, 0, 1),
            item(1, 1, 1),
            item(2, 0, 1),
            item(0, 0, 0),
        ]);
}

#[test]
fn marker_order_is_decided_by_before() {
    assert!(node(5, 1).before(&item(0, 0, 1)));
    assert!(!item(0, 0, 1).before(&node(5, 1)));
    assert!(item(0, 0, 2).before(&node(5, 1)));
    assert!(item(0, 1, 1).before(&item(1, 0, 1)));
    assert!(item(1, 0, 1).before(&item(1, 1, 1)));
    assert!(!item(1, 1, 1).before(&item(1, 1, 1)));
    assert!(node(1, 0).before(&node(2, 0)));
}
