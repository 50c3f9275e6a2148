//! A node is one stop of a tour: an integer 2D point with an auxiliary tag.
//!
//! Two nodes count as the same stop exactly when their coordinates match;
//! the tag only carries identity and is never compared.

use vstd::prelude::*;

use crate::COORD_LIMIT;

verus! {

/// A 2D point with an auxiliary tag. Nodes are cheap value types: copied
/// freely and never mutated in place.
#[derive(Clone, Copy, PartialEq, Eq, Structural, Debug)]
pub struct Node {
    pub x: i32,
    pub y: i32,
    pub m: char,
}

impl Default for Node {
    /// The conventional "blank" node.
    fn default() -> (n: Node)
        ensures
            n.x == -1 && n.y == -1 && n.m == 'n',
    {
        Node { x: -1, y: -1, m: 'n' }
    }
}

/// The coordinate pair of a node: the identity that tour membership compares.
pub open spec fn node_pos(n: Node) -> (int, int) {
    (n.x as int, n.y as int)
}

/// Whether two nodes are the same stop (coordinates match, tag ignored).
pub open spec fn same_pos(a: Node, b: Node) -> bool {
    a.x == b.x && a.y == b.y
}

/// Whether a node's coordinates lie within the supported range.
pub open spec fn node_in_bounds(n: Node) -> bool {
    &&& -COORD_LIMIT <= n.x <= COORD_LIMIT
    &&& -COORD_LIMIT <= n.y <= COORD_LIMIT
}

} // verus!
