//! An ordered forest of multi-way trees, walked edge by edge.
//!
//! Every node has two positions, its leading edge (on the way into the node)
//! and its trailing edge (on the way back out). Walking the edges from
//! `begin` to `end` gives the pre-order of the nodes on leading edges and the
//! post-order on trailing edges, without recursion. Nodes live in slots of
//! an arena owned by their forest; the walk itself is kept as the sequence
//! of edge stops, so that inserting, erasing and splicing are edits of that
//! sequence, each proved to keep the forest well nested.
mod cursor;
mod edge;
mod forest;
mod laws;
mod raw;
mod seqs;

pub use cursor::{Cursor, CursorIterator, CursorMut, EdgeCursor};
pub use edge::{is_leading, is_trailing, pivot, spec_pivot, ForestEdge};
pub use forest::{Forest, ForestView};
pub use laws::{
    depth, law_begin_is_end_iff_empty, law_edges_once, law_erase_lifts_children, law_splice_order,
    law_trusted_size_counts, law_well_nested,
};
pub use raw::{end_pos, lead, root_pos, trail, RawCursor};
pub use seqs::{
    crossing, distinct, kept, lead_before, leading_count, leads_closed, nested, node_disjoint,
    outer, paired, pending_ok, put_block, shifted, trail_after, trail_within, without_pair,
};
