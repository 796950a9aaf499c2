//! A binary max-heap of markers: the exploration queue.
//!
//! The first marker under `precedes` sits at the root. No marker is held twice,
//! so the contents are a set.

use crate::marker::{precedes, Scored};
use vstd::prelude::*;

verus! {

/// The position above `i` in the implicit binary tree.
pub open spec fn parent_of(i: int) -> int {
    (i - 1) / 2
}

/// No marker precedes the one above it.
pub open spec fn ordered(s: Seq<Scored>) -> bool {
    forall|j: int| 0 < j < s.len() ==> !precedes(#[trigger] s[j], s[parent_of(j)])
}

/// `ordered`, but for the marker at `k`, which may precede the one above it.
pub open spec fn ordered_above(s: Seq<Scored>, k: int) -> bool {
    &&& forall|j: int| 0 < j < s.len() && j != k ==> !precedes(#[trigger] s[j], s[parent_of(j)])
    &&& forall|j: int|
        0 < j < s.len() && parent_of(j) == k && k > 0 ==> !precedes(
            #[trigger] s[j],
            s[parent_of(k)],
        )
}

/// `ordered`, but for the marker at `k`, which the markers below it may precede.
pub open spec fn ordered_below(s: Seq<Scored>, k: int) -> bool {
    &&& forall|j: int|
        0 < j < s.len() && parent_of(j) != k ==> !precedes(#[trigger] s[j], s[parent_of(j)])
    &&& forall|j: int|
        0 < j < s.len() && parent_of(j) == k && k > 0 ==> !precedes(
            #[trigger] s[j],
            s[parent_of(k)],
        )
}

/// `s` with the markers at `i` and `j` exchanged.
pub open spec fn exchanged(s: Seq<Scored>, i: int, j: int) -> Seq<Scored> {
    s.update(i, s[j]).update(j, s[i])
}

pub proof fn lemma_exchanged(s: Seq<Scored>, i: int, j: int)
    requires
        0 <= i < s.len(),
        0 <= j < s.len(),
    ensures
        exchanged(s, i, j).to_set() == s.to_set(),
        s.no_duplicates() ==> exchanged(s, i, j).no_duplicates(),
{
    let t = exchanged(s, i, j);
    assert forall|x: Scored| t.to_set().contains(x) == s.to_set().contains(x) by {
        if t.contains(x) {
            let k = choose|k: int| 0 <= k < t.len() && t[k] == x;
            let k2 = if k == i { j } else if k == j { i } else { k };
            assert(s[k2] == x);
        }
        if s.contains(x) {
            let k = choose|k: int| 0 <= k < s.len() && s[k] == x;
            let k2 = if k == i { j } else if k == j { i } else { k };
            assert(t[k2] == x);
        }
    }
    assert(t.to_set() =~= s.to_set());
    if s.no_duplicates() {
        assert forall|a: int, b: int| 0 <= a < t.len() && 0 <= b < t.len() && a != b implies t[a]
            != t[b] by {
            let a2 = if a == i { j } else if a == j { i } else { a };
            let b2 = if b == i { j } else if b == j { i } else { b };
            assert(s[a2] != s[b2]);
        }
    }
}

/// In an ordered heap nothing precedes the root.
pub proof fn lemma_root_first(s: Seq<Scored>, j: int)
    requires
        ordered(s),
        0 <= j < s.len(),
    ensures
        !precedes(s[j], s[0]),
    decreases j,
{
    if j > 0 {
        lemma_root_first(s, parent_of(j));
    }
}

fn exchange(v: &mut Vec<Scored>, i: usize, j: usize)
    requires
        i < old(v).len(),
        j < old(v).len(),
    ensures
        final(v)@ == exchanged(old(v)@, i as int, j as int),
{
    let a = v[i];
    let b = v[j];
    v[i] = b;
    v[j] = a;
}

/// The exploration queue.
pub struct MarkerHeap {
    data: Vec<Scored>,
}

impl MarkerHeap {
    /// The markers in the queue.
    pub closed spec fn contents(&self) -> Set<Scored> {
        self.data@.to_set()
    }

    pub closed spec fn wf(&self) -> bool {
        &&& self.data@.no_duplicates()
        &&& ordered(self.data@)
    }

    pub fn new() -> (h: Self)
        ensures
            h.wf(),
            h.contents() == Set::<Scored>::empty(),
    {
        let h = MarkerHeap { data: Vec::new() };
        assert(h.data@.to_set() =~= Set::<Scored>::empty());
        h
    }

    /// Adds a marker that the queue does not hold.
    pub fn push(&mut self, x: Scored)
        requires
            old(self).wf(),
            !old(self).contents().contains(x),
        ensures
            final(self).wf(),
            final(self).contents() == old(self).contents().insert(x),
    {
        let ghost before = self.data@;
        self.data.push(x);
        proof {
            let s = self.data@;
            assert forall|y: Scored| s.to_set().contains(y) == before.to_set().insert(x).contains(
                y,
            ) by {
                if s.contains(y) {
                    let k = choose|k: int| 0 <= k < s.len() && s[k] == y;
                    if k < before.len() {
                        assert(before[k] == y);
                    }
                }
                if before.contains(y) {
                    let k = choose|k: int| 0 <= k < before.len() && before[k] == y;
                    assert(s[k] == y);
                }
                if y == x {
                    assert(s[before.len() as int] == x);
                }
            }
            assert(s.to_set() =~= before.to_set().insert(x));
            assert forall|a: int, b: int| 0 <= a < s.len() && 0 <= b < s.len() && a != b implies s[a]
                != s[b] by {
                if a == before.len() {
                    assert(before[b] == s[b]);
                    assert(before.contains(s[b]));
                } else if b == before.len() {
                    assert(before[a] == s[a]);
                    assert(before.contains(s[a]));
                } else {
                    assert(before[a] == s[a] && before[b] == s[b]);
                }
            }
        }
        let mut i: usize = self.data.len() - 1;
        let mut settled = false;
        while i > 0 && !settled
            invariant
                i < self.data.len(),
                self.data@.no_duplicates(),
                self.data@.to_set() == old(self).data@.to_set().insert(x),
                ordered_above(self.data@, i as int),
                settled ==> ordered(self.data@),
            decreases i + if settled { 0int } else { 1int },
        {
            let p: usize = (i - 1) / 2;
            if self.data[i].before(&self.data[p]) {
                proof {
                    lemma_exchanged(self.data@, i as int, p as int);
                }
                exchange(&mut self.data, i, p);
                i = p;
            } else {
                settled = true;
            }
        }
    }

    /// Takes out the first marker under `precedes`.
    pub fn pop(&mut self) -> (r: Option<Scored>)
        requires
            old(self).wf(),
        ensures
            final(self).wf(),
            match r {
                None => old(self).contents() == Set::<Scored>::empty() && final(self).contents()
                    == old(self).contents(),
                Some(x) => {
                    &&& old(self).contents().contains(x)
                    &&& final(self).contents() == old(self).contents().remove(x)
                    &&& forall|y: Scored| #[trigger]
                        final(self).contents().contains(y) ==> precedes(x, y)
                },
            },
    {
        let n: usize = self.data.len();
        if n == 0 {
            assert(self.data@.to_set() =~= Set::<Scored>::empty());
            return None;
        }
        let ghost before = self.data@;
        let top = self.data[0];
        let last = self.data.pop().unwrap();
        if n > 1 {
            self.data[0] = last;
        }
        proof {
            let s = self.data@;
            assert forall|y: Scored| s.to_set().contains(y) == before.to_set().remove(top).contains(
                y,
            ) by {
                if s.contains(y) {
                    let k = choose|k: int| 0 <= k < s.len() && s[k] == y;
                    if k == 0 {
                        assert(before[n - 1] == y);
                    } else {
                        assert(before[k] == y);
                    }
                }
                if before.contains(y) && y != top {
                    let k = choose|k: int| 0 <= k < before.len() && before[k] == y;
                    if k == n - 1 {
                        assert(s[0] == y);
                    } else {
                        assert(s[k] == y);
                    }
                }
            }
            assert(s.to_set() =~= before.to_set().remove(top));
            assert(before.contains(top));
            assert forall|y: Scored| #[trigger] s.to_set().contains(y) implies precedes(top, y) by {
                let k = choose|k: int| 0 <= k < before.len() && before[k] == y;
                lemma_root_first(before, k);
            }
        }
        let len: usize = self.data.len();
        let mut i: usize = 0;
        let mut settled = false;
        while i < len / 2 && !settled
            invariant
                len == self.data.len(),
                len == 0 || i < len,
                self.data@.no_duplicates(),
                self.data@.to_set() == before.to_set().remove(top),
                ordered_below(self.data@, i as int),
                settled ==> ordered(self.data@),
            decreases len - i + if settled { 0int } else { 1int },
        {
            let l: usize = 2 * i + 1;
            let r: usize = l + 1;
            let mut c: usize = l;
            if r < len && self.data[r].before(&self.data[l]) {
                c = r;
            }
            if self.data[c].before(&self.data[i]) {
                proof {
                    lemma_exchanged(self.data@, i as int, c as int);
                }
                exchange(&mut self.data, i, c);
                i = c;
            } else {
                settled = true;
            }
        }
        Some(top)
    }
}

} // verus!
