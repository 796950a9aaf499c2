use completion_tree::{Completable, CompletionTree, Key};
use itertools::Itertools;

#[derive(Clone, Debug, PartialEq, Eq, Hash)]
struct Entry(&'static str, i32);

impl Completable for Entry {
    fn keys(&self) -> Vec<Key> {
        let mut buf = Vec::new();
        let mut s = self.0;
        loop {
            buf.push(Key {
                bytes: s.as_bytes().to_vec(),
                score: self.1,
            });
            match s.find(' ') {
                Some(idx) => s = &s[idx + 1..],
                None => return buf,
            }
        }
    }
}

fn make_tree(entries: &[(&'static str, i32)]) -> CompletionTree<Entry> {
    let mut tree = CompletionTree::default();
    for (key, score) in entries {
        tree.put(Entry(key, *score));
    }
    tree
}

fn names(tree: &CompletionTree<Entry>, prefix: &[u8]) -> Vec<&'static str> {
    tree.search(prefix).collect().into_iter().map(|r| r.0).collect::<Vec<_>>()
}

#[test]
fn smoke_test() {
    let tree = make_tree(&[("alice", 1), ("alex", 4), ("adam", -3)]);
    assert_eq!(names(&tree, b""), ["alex", "alice", "adam"]);
}

#[test]
fn empty_results() {
    let tree = make_tree(&[("alice", 1), ("alex", 4), ("adam", -3)]);
    assert_eq!(tree.search(b"z").collect().len(), 0);
}

#[test]
fn exploration_prioritizes_shallower_items() {
    let tree = make_tree(&[("a", 1), ("aa", 0), ("aaa", 1)]);
    assert_eq!(names(&tree, b""), ["a", "aaa", "aa"]);
}

#[test]
fn subsequences_are_not_matched() {
    let tree = make_tree(&[("jeffrey smith", 1)]);
    assert_eq!(tree.search(b"jeff smith").collect().len(), 0);
}

#[test]
fn multikey_items_example() {
    let tree = make_tree(&[("hello world", 1), ("goodbye world", 0)]);
    assert_eq!(names(&tree, b"h"), ["hello world"]);
    assert_eq!(names(&tree, b"g"), ["goodbye world"]);
    assert_eq!(names(&tree, b"world"), ["hello world", "goodbye world"]);
    assert_eq!(
        names(&tree, b""),
        // Both "hello"s come before both "goodbyes"
        [
            "hello world",
            "hello world",
            "goodbye world",
            "goodbye world"
        ]
    );

    assert_eq!(
        tree.search(b"")
            .collect()
            .into_iter()
            .unique()
            .map(|r| r.0)
            .collect::<Vec<_>>(),
        ["hello world", "goodbye world"]
    );
}
