//! The entries of the exploration queue and the order in which they leave it.

use vstd::prelude::*;

verus! {

/// What a queue entry stands for: one indexed key of one item, or a node whose
/// subtree has not been opened yet.
#[derive(Clone, Copy, PartialEq, Eq, Structural)]
pub enum ExploreMarker {
    /// Key number `key` of item number `item`.
    Item { item: usize, key: usize },
    /// The node at position `node` of the arena.
    Node { node: usize },
}

/// A marker with its priority: the exact score of an item's key, or the bound
/// cached at a node.
#[derive(Clone, Copy, PartialEq, Eq, Structural)]
pub struct Scored {
    pub marker: ExploreMarker,
    pub score: i32,
}

/// The order among markers of equal priority: nodes are opened before items are
/// handed out, nodes go by their position, items by insertion and then by key.
pub open spec fn marker_precedes(x: ExploreMarker, y: ExploreMarker) -> bool {
    match x {
        ExploreMarker::Node { node: n } => match y {
            ExploreMarker::Node { node: m } => n < m,
            ExploreMarker::Item { .. } => true,
        },
        ExploreMarker::Item { item: i, key: k } => match y {
            ExploreMarker::Node { .. } => false,
            ExploreMarker::Item { item: j, key: l } => i < j || (i == j && k < l),
        },
    }
}

/// `x` leaves the queue before `y`: the higher priority first, then by
/// `marker_precedes`. A strict total order.
pub open spec fn precedes(x: Scored, y: Scored) -> bool {
    x.score > y.score || (x.score == y.score && marker_precedes(x.marker, y.marker))
}

fn marker_before(x: &ExploreMarker, y: &ExploreMarker) -> (r: bool)
    ensures
        r == marker_precedes(*x, *y),
{
    match x {
        ExploreMarker::Node { node: n } => match y {
            ExploreMarker::Node { node: m } => *n < *m,
            ExploreMarker::Item { .. } => true,
        },
        ExploreMarker::Item { item: i, key: k } => match y {
            ExploreMarker::Node { .. } => false,
            ExploreMarker::Item { item: j, key: l } => *i < *j || (*i == *j && *k < *l),
        },
    }
}

impl Scored {
    /// Whether `self` leaves the queue before `other`.
    pub fn before(&self, other: &Scored) -> (r: bool)
        ensures
            r == precedes(*self, *other),
    {
        self.score > other.score || (self.score == other.score && marker_before(
            &self.marker,
            &other.marker,
        ))
    }
}

/// Of two different markers exactly one precedes the other.
pub proof fn law_precedes_is_total(x: Scored, y: Scored)
    ensures
        x == y || precedes(x, y) || precedes(y, x),
        !(precedes(x, y) && precedes(y, x)),
        !precedes(x, x),
{
}

/// The order passes on: what precedes a marker precedes all that this one
/// precedes.
pub proof fn law_precedes_is_transitive(x: Scored, y: Scored, z: Scored)
    requires
        precedes(x, y),
        precedes(y, z),
    ensures
        precedes(x, z),
{
}

} // verus!
