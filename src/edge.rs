use vstd::prelude::*;

verus! {

/// The two positions of a node: `Leading` on the way into it, `Trailing` on
/// the way back out.
#[derive(Clone, Copy, Debug, PartialEq, Eq, Structural)]
pub enum ForestEdge {
    Trailing,
    Leading,
}

impl From<bool> for ForestEdge {
    fn from(b: bool) -> (r: ForestEdge)
        ensures
            r == (if b { ForestEdge::Leading } else { ForestEdge::Trailing }),
    {
        if b {
            ForestEdge::Leading
        } else {
            ForestEdge::Trailing
        }
    }
}

impl vstd::std_specs::convert::FromSpecImpl<bool> for ForestEdge {
    open spec fn obeys_from_spec() -> bool {
        true
    }

    open spec fn from_spec(b: bool) -> ForestEdge {
        if b {
            ForestEdge::Leading
        } else {
            ForestEdge::Trailing
        }
    }
}

/// The other edge of the same node.
pub open spec fn spec_pivot(e: ForestEdge) -> ForestEdge {
    match e {
        ForestEdge::Trailing => ForestEdge::Leading,
        ForestEdge::Leading => ForestEdge::Trailing,
    }
}

/// Swaps `Leading` and `Trailing`.
pub fn pivot(e: ForestEdge) -> (r: ForestEdge)
    ensures
        r == spec_pivot(e),
        r != e,
{
    match e {
        ForestEdge::Trailing => ForestEdge::Leading,
        ForestEdge::Leading => ForestEdge::Trailing,
    }
}

pub fn is_leading(e: ForestEdge) -> (r: bool)
    ensures
        r == (e == ForestEdge::Leading),
{
    e == ForestEdge::Leading
}

pub fn is_trailing(e: ForestEdge) -> (r: bool)
    ensures
        r == (e == ForestEdge::Trailing),
{
    e == ForestEdge::Trailing
}

} // verus!
