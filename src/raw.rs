use vstd::prelude::*;

use crate::edge::{is_leading, is_trailing, pivot, spec_pivot, ForestEdge};

verus! {

/// A position in a forest: a node, by its slot number, and one of its two
/// edges. Slot 0 is the forest's sentinel, whose leading edge is the root
/// position and whose trailing edge is the end position.
#[derive(Clone, Copy, Debug, PartialEq, Eq, Structural)]
pub struct RawCursor {
    pub node: usize,
    pub edge: ForestEdge,
}

/// The leading edge of node `k`.
pub open spec fn lead(k: usize) -> RawCursor {
    RawCursor { node: k, edge: ForestEdge::Leading }
}

/// The trailing edge of node `k`.
pub open spec fn trail(k: usize) -> RawCursor {
    RawCursor { node: k, edge: ForestEdge::Trailing }
}

/// The position before the first node of a forest.
pub open spec fn root_pos() -> RawCursor {
    lead(0)
}

/// The position after the last node of a forest.
pub open spec fn end_pos() -> RawCursor {
    trail(0)
}

impl RawCursor {
    pub fn new(node: usize, edge: ForestEdge) -> (r: RawCursor)
        ensures
            r.node == node,
            r.edge == edge,
    {
        RawCursor { node, edge }
    }

    /// Moves to the other edge of the same node.
    pub fn pivot(&mut self)
        ensures
            final(self).node == old(self).node,
            final(self).edge == spec_pivot(old(self).edge),
    {
        self.edge = pivot(self.edge);
    }

    pub fn leading_of(&self) -> (r: RawCursor)
        ensures
            r == lead(self.node),
    {
        RawCursor { node: self.node, edge: ForestEdge::Leading }
    }

    pub fn trailing_of(&self) -> (r: RawCursor)
        ensures
            r == trail(self.node),
    {
        RawCursor { node: self.node, edge: ForestEdge::Trailing }
    }

    pub fn is_leading(&self) -> (r: bool)
        ensures
            r == (self.edge == ForestEdge::Leading),
    {
        is_leading(self.edge)
    }

    pub fn is_trailing(&self) -> (r: bool)
        ensures
            r == (self.edge == ForestEdge::Trailing),
    {
        is_trailing(self.edge)
    }

    /// Whether both positions lie on the same node.
    pub fn equal_node(&self, y: &RawCursor) -> (r: bool)
        ensures
            r == (self.node == y.node),
    {
        self.node == y.node
    }

    /// Whether both positions are the same edge of the same node.
    pub fn equal(&self, y: &RawCursor) -> (r: bool)
        ensures
            r == (*self == *y),
    {
        self.node == y.node && self.edge == y.edge
    }
}

} // verus!
