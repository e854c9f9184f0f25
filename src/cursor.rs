use vstd::prelude::*;

use crate::edge::ForestEdge;
use crate::forest::{Forest, ForestView};
use crate::raw::{end_pos, lead, root_pos, trail, RawCursor};
use crate::seqs::{lemma_index_of_distinct, lemma_put_block_index, shifted};

verus! {

/// A read-only position in a forest.
#[derive(Debug)]
pub struct Cursor<'a, T: 'a> {
    forest: &'a Forest<T>,
    cursor: RawCursor,
}

impl<'a, T> Cursor<'a, T> {
    /// The forest the cursor walks.
    pub closed spec fn forest(&self) -> ForestView<T> {
        self.forest@
    }

    /// Where the cursor stands.
    pub closed spec fn pos(&self) -> RawCursor {
        self.cursor
    }

    pub open spec fn wf(&self) -> bool {
        self.forest().wf() && self.forest().valid_pos(self.pos())
    }

    /// Moves to the leading edge of the same node.
    pub fn leading_of(&mut self)
        requires
            old(self).wf(),
        ensures
            final(self).wf(),
            final(self).forest() == old(self).forest(),
            final(self).pos() == lead(old(self).pos().node),
    {
        proof {
            if self.cursor.node != 0 {
                self.forest().lemma_node_edges(self.cursor);
            } else {
                assert(self.forest().ring()[0] == root_pos());
            }
        }
        self.cursor = self.cursor.leading_of();
    }

    /// Moves to the trailing edge of the same node.
    pub fn trailing_of(&mut self)
        requires
            old(self).wf(),
        ensures
            final(self).wf(),
            final(self).forest() == old(self).forest(),
            final(self).pos() == trail(old(self).pos().node),
    {
        proof {
            if self.cursor.node != 0 {
                self.forest().lemma_node_edges(self.cursor);
            } else {
                assert(self.forest().ring()[self.forest().ring().len() - 1] == end_pos());
            }
        }
        self.cursor = self.cursor.trailing_of();
    }

    /// One step forward; there is no step past end.
    pub fn move_next(&mut self)
        requires
            old(self).wf(),
            old(self).pos() != end_pos(),
        ensures
            final(self).wf(),
            final(self).forest() == old(self).forest(),
            final(self).pos() == old(self).forest().next_of(old(self).pos()),
    {
        self.cursor = self.forest.raw_next(self.cursor);
    }

    /// One step back; there is no step before root.
    pub fn move_prev(&mut self)
        requires
            old(self).wf(),
            old(self).pos() != root_pos(),
        ensures
            final(self).wf(),
            final(self).forest() == old(self).forest(),
            final(self).pos() == old(self).forest().prev_of(old(self).pos()),
    {
        self.cursor = self.forest.raw_prev(self.cursor);
    }

    pub fn edge(&self) -> (r: ForestEdge)
        ensures
            r == self.pos().edge,
    {
        self.cursor.edge
    }

    /// The payload under the cursor; none at root and end.
    pub fn current(&self) -> (r: Option<&'a T>)
        requires
            self.wf(),
        ensures
            self.pos().node == 0 ==> r is None,
            self.pos().node != 0 ==> r is Some && *r->Some_0 == self.forest().payload(self.pos()),
    {
        self.forest.get(self.cursor)
    }

    /// Walks forward until the cursor stands on an edge of kind `edge`, or
    /// on end.
    pub fn find_edge(&mut self, edge: ForestEdge)
        requires
            old(self).wf(),
        ensures
            final(self).wf(),
            final(self).forest() == old(self).forest(),
            seek_forward(old(self).forest(), old(self).pos(), final(self).pos(), edge),
    {
        let ghost r = self.forest().ring();
        let ghost n = r.len();
        let ghost i0 = self.forest().pos_index(self.pos());
        proof {
            self.forest().lemma_ring_distinct();
            let x = choose|x: int| 0 <= x < r.len() && r[x] == self.cursor;
            lemma_index_of_distinct(r, x);
            assert(r[n - 1] == end_pos());
        }
        let end = self.forest.raw_end();
        let ghost mut i = i0;
        while self.cursor.edge != edge && !self.cursor.equal(&end)
            invariant
                self.wf(),
                self.forest() == old(self).forest(),
                r == self.forest().ring(),
                n == r.len(),
                end == end_pos(),
                r[n - 1] == end_pos(),
                forall|a: int, b: int| 0 <= a < b < n ==> r[a] != r[b],
                0 <= i0 <= i < n,
                r[i] == self.pos(),
                i0 == old(self).forest().pos_index(old(self).pos()),
                forall|k: int| i0 <= k < i ==> (#[trigger] r[k]).edge != edge,
            decreases n - i,
        {
            proof {
                lemma_index_of_distinct(r, i);
            }
            self.move_next();
            proof {
                i = i + 1;
            }
        }
        proof {
            lemma_index_of_distinct(r, i);
        }
    }

    /// Walks backward until the cursor stands on an edge of kind `edge`, or
    /// on root.
    pub fn find_edge_reverse(&mut self, edge: ForestEdge)
        requires
            old(self).wf(),
        ensures
            final(self).wf(),
            final(self).forest() == old(self).forest(),
            seek_backward(old(self).forest(), old(self).pos(), final(self).pos(), edge),
    {
        let ghost r = self.forest().ring();
        let ghost n = r.len();
        let ghost i0 = self.forest().pos_index(self.pos());
        proof {
            self.forest().lemma_ring_distinct();
            let x = choose|x: int| 0 <= x < r.len() && r[x] == self.cursor;
            lemma_index_of_distinct(r, x);
            assert(r[0] == root_pos());
        }
        let root = self.forest.raw_root();
        let ghost mut i = i0;
        while self.cursor.edge != edge && !self.cursor.equal(&root)
            invariant
                self.wf(),
                self.forest() == old(self).forest(),
                r == self.forest().ring(),
                n == r.len(),
                root == root_pos(),
                r[0] == root_pos(),
                forall|a: int, b: int| 0 <= a < b < n ==> r[a] != r[b],
                0 <= i <= i0 < n,
                r[i] == self.pos(),
                i0 == old(self).forest().pos_index(old(self).pos()),
                forall|k: int| i < k <= i0 ==> (#[trigger] r[k]).edge != edge,
            decreases i,
        {
            proof {
                lemma_index_of_distinct(r, i);
            }
            self.move_prev();
            proof {
                i = i - 1;
            }
        }
        proof {
            lemma_index_of_distinct(r, i);
        }
    }
}

/// Walking forward from `from` for an edge of kind `e` stops at `to`: the
/// first such edge, or end if none comes first.
pub open spec fn seek_forward<T>(v: ForestView<T>, from: RawCursor, to: RawCursor, e: ForestEdge) -> bool {
    let r = v.ring();
    let i = v.pos_index(from);
    let j = v.pos_index(to);
    &&& i <= j
    &&& to.edge == e || to == end_pos()
    &&& forall|k: int| i <= k < j ==> (#[trigger] r[k]).edge != e
}

/// Walking backward from `from` for an edge of kind `e` stops at `to`: the
/// first such edge, or root if none comes first.
pub open spec fn seek_backward<T>(v: ForestView<T>, from: RawCursor, to: RawCursor, e: ForestEdge) -> bool {
    let r = v.ring();
    let i = v.pos_index(from);
    let j = v.pos_index(to);
    &&& j <= i
    &&& to.edge == e || to == root_pos()
    &&& forall|k: int| j < k <= i ==> (#[trigger] r[k]).edge != e
}

impl<'a, T> PartialEq for Cursor<'a, T> {
    fn eq(&self, other: &Self) -> (r: bool) {
        self.cursor.equal(&other.cursor)
    }
}

impl<'a, T> vstd::std_specs::cmp::PartialEqSpecImpl for Cursor<'a, T> {
    open spec fn obeys_eq_spec() -> bool {
        true
    }

    open spec fn eq_spec(&self, other: &Self) -> bool {
        self.pos() == other.pos()
    }
}

impl<'a, T> Eq for Cursor<'a, T> {
}

/// A position in a forest that may change the forest: insert, splice in,
/// remove. It holds the forest exclusively while it lives.
#[derive(Debug)]
pub struct CursorMut<'a, T: 'a> {
    /// The forest, borrowed for the cursor's lifetime; what it holds when
    /// the cursor ends is what the forest holds afterwards.
    pub forest: &'a mut Forest<T>,
    /// Where the cursor stands.
    pub cursor: RawCursor,
}

impl<'a, T> CursorMut<'a, T> {
    /// The forest the cursor walks, as it is now.
    pub closed spec fn forest(&self) -> ForestView<T> {
        (*self.forest)@
    }

    /// Where the cursor stands.
    pub closed spec fn pos(&self) -> RawCursor {
        self.cursor
    }

    pub open spec fn wf(&self) -> bool {
        self.forest().wf() && self.forest().valid_pos(self.pos())
    }

    /// The number of nodes of the forest.
    pub fn size(&mut self) -> (r: usize)
        requires
            old(self).wf(),
        ensures
            final(self).wf(),
            r == old(self).forest().count(),
            final(self).pos() == old(self).pos(),
            final(self).forest().stops == old(self).forest().stops,
            final(self).forest().data == old(self).forest().data,
            *final(final(self).forest) == *final(old(self).forest),
    {
        self.forest.size()
    }

    /// Whether the forest has no node.
    pub fn empty(&self) -> (r: bool)
        requires
            self.wf(),
        ensures
            r == (self.forest().stops.len() == 0),
    {
        self.forest.empty()
    }

    /// Moves to the leading edge of the same node.
    pub fn leading_of(&mut self)
        requires
            old(self).wf(),
        ensures
            final(self).wf(),
            final(self).forest() == old(self).forest(),
            final(self).pos() == lead(old(self).pos().node),
            *final(final(self).forest) == *final(old(self).forest),
    {
        proof {
            if self.cursor.node != 0 {
                self.forest().lemma_node_edges(self.cursor);
            } else {
                assert(self.forest().ring()[0] == root_pos());
            }
        }
        self.cursor = self.cursor.leading_of();
    }

    /// Moves to the trailing edge of the same node.
    pub fn trailing_of(&mut self)
        requires
            old(self).wf(),
        ensures
            final(self).wf(),
            final(self).forest() == old(self).forest(),
            final(self).pos() == trail(old(self).pos().node),
            *final(final(self).forest) == *final(old(self).forest),
    {
        proof {
            if self.cursor.node != 0 {
                self.forest().lemma_node_edges(self.cursor);
            } else {
                assert(self.forest().ring()[self.forest().ring().len() - 1] == end_pos());
            }
        }
        self.cursor = self.cursor.trailing_of();
    }

    /// One step forward; there is no step past end.
    pub fn move_next(&mut self)
        requires
            old(self).wf(),
            old(self).pos() != end_pos(),
        ensures
            final(self).wf(),
            final(self).forest() == old(self).forest(),
            final(self).pos() == old(self).forest().next_of(old(self).pos()),
            *final(final(self).forest) == *final(old(self).forest),
    {
        self.cursor = self.forest.raw_next(self.cursor);
    }

    /// One step back; there is no step before root.
    pub fn move_prev(&mut self)
        requires
            old(self).wf(),
            old(self).pos() != root_pos(),
        ensures
            final(self).wf(),
            final(self).forest() == old(self).forest(),
            final(self).pos() == old(self).forest().prev_of(old(self).pos()),
            *final(final(self).forest) == *final(old(self).forest),
    {
        self.cursor = self.forest.raw_prev(self.cursor);
    }

    pub fn edge(&self) -> (r: ForestEdge)
        ensures
            r == self.pos().edge,
    {
        self.cursor.edge
    }

    /// The payload under the cursor, to change in place; none at root and
    /// end.
    pub fn current(&mut self) -> (r: Option<&mut T>)
        requires
            old(self).wf(),
        ensures
            final(self).pos() == old(self).pos(),
            old(self).pos().node == 0 ==> r is None && final(self).forest() == old(self).forest(),
            old(self).pos().node != 0 ==> r is Some && *r->Some_0 == old(self).forest().payload(
                old(self).pos(),
            ) && final(self).forest() == (ForestView {
                data: old(self).forest().data.update(old(self).pos().node as int, Some(*final(r->Some_0))),
                ..old(self).forest()
            }),
            *final(final(self).forest) == *final(old(self).forest),
    {
        self.forest.get_mut(self.cursor)
    }

    /// Puts a leaf holding `item` just before the cursor, which stays where
    /// it is.
    pub fn insert(&mut self, item: T)
        requires
            old(self).wf(),
            old(self).pos() != root_pos(),
            old(self).forest().data.len() < usize::MAX,
            old(self).forest().stops.len() + 4 <= usize::MAX,
        ensures
            final(self).wf(),
            final(self).forest() == old(self).forest().with_leaf(old(self).pos(), item),
            final(self).pos() == old(self).pos(),
            *final(final(self).forest) == *final(old(self).forest),
    {
        proof {
            self.forest().lemma_ring_distinct();
            let n = self.forest().data.len() as usize;
            self.forest().lemma_valid_after_put(self.cursor, seq![lead(n), trail(n)]);
        }
        self.forest.insert_at(self.cursor, item);
    }

    /// Puts a leaf holding `item` just before the cursor and moves the
    /// cursor to the leaf's leading edge.
    pub fn insert_and_move(&mut self, item: T)
        requires
            old(self).wf(),
            old(self).pos() != root_pos(),
            old(self).forest().data.len() < usize::MAX,
            old(self).forest().stops.len() + 4 <= usize::MAX,
        ensures
            final(self).wf(),
            final(self).forest() == old(self).forest().with_leaf(old(self).pos(), item),
            final(self).pos() == lead(old(self).forest().data.len() as usize),
            *final(final(self).forest) == *final(old(self).forest),
    {
        let ghost p = self.forest().pos_index(self.cursor) - 1;
        let ghost n = self.forest().data.len() as usize;
        let ghost s = self.forest().stops;
        proof {
            self.forest().lemma_ring_distinct();
            self.forest().lemma_valid_index(self.cursor);
            lemma_put_block_index(s, seq![lead(n), trail(n)], p);
        }
        self.cursor = self.forest.insert_at(self.cursor, item);
        proof {
            let r = self.forest().ring();
            assert(self.forest().stops[p] == lead(n));
            assert(r[p + 1] == lead(n));
        }
    }

    /// Moves every node of `x` in, in order, just before the cursor, which
    /// stays where it is.
    pub fn splice(&mut self, x: Forest<T>)
        requires
            old(self).wf(),
            x.wf(),
            old(self).pos() != root_pos(),
            old(self).forest().data.len() + x@.data.len() <= usize::MAX,
            old(self).forest().stops.len() + x@.stops.len() + 2 <= usize::MAX,
        ensures
            final(self).wf(),
            final(self).forest() == old(self).forest().with_forest(old(self).pos(), x@),
            final(self).pos() == old(self).pos(),
            *final(final(self).forest) == *final(old(self).forest),
    {
        proof {
            self.forest().lemma_ring_distinct();
            self.forest().lemma_valid_after_put(
                self.cursor,
                shifted(x@.stops, self.forest().data.len() as int),
            );
        }
        self.forest.splice_at(self.cursor, x);
    }

    /// Moves every node of `x` in, in order, just before the cursor, and
    /// moves the cursor to the first of them (it stays if `x` is empty).
    pub fn splice_and_move(&mut self, x: Forest<T>)
        requires
            old(self).wf(),
            x.wf(),
            old(self).pos() != root_pos(),
            old(self).forest().data.len() + x@.data.len() <= usize::MAX,
            old(self).forest().stops.len() + x@.stops.len() + 2 <= usize::MAX,
        ensures
            final(self).wf(),
            final(self).forest() == old(self).forest().with_forest(old(self).pos(), x@),
            final(self).pos() == final(self).forest().ring()[old(self).forest().pos_index(old(self).pos())],
            *final(final(self).forest) == *final(old(self).forest),
    {
        let ghost i = self.forest().pos_index(self.cursor);
        proof {
            self.forest().lemma_ring_distinct();
            self.forest().lemma_valid_index(self.cursor);
        }
        self.cursor = self.forest.splice_at(self.cursor, x);
        proof {
            let r = self.forest().ring();
            assert(0 <= i < r.len());
            assert(r[i] == self.cursor);
        }
    }

    /// Takes the node under the cursor out; its children take its place.
    /// The cursor moves to what now follows on its edge.
    pub fn remove(&mut self)
        requires
            old(self).wf(),
            old(self).pos().node != 0,
        ensures
            final(self).wf(),
            final(self).forest() == old(self).forest().without_node(old(self).pos()),
            final(self).pos() == final(self).forest().ring()[
                if old(self).pos().edge == ForestEdge::Leading {
                    old(self).forest().lead_index(old(self).pos().node) + 1
                } else {
                    old(self).forest().trail_index(old(self).pos().node)
                }
            ],
            *final(final(self).forest) == *final(old(self).forest),
    {
        self.cursor = self.forest.erase_at(self.cursor);
        proof {
            let r = self.forest().ring();
            let k = if old(self).pos().edge == ForestEdge::Leading {
                old(self).forest().lead_index(old(self).pos().node) + 1
            } else {
                old(self).forest().trail_index(old(self).pos().node)
            };
            assert(0 <= k < r.len());
            assert(r[k] == self.cursor);
        }
    }
}

impl<T> Forest<T> {
    /// A cursor at root, the position before the first node.
    pub fn root(&self) -> (r: Cursor<'_, T>)
        requires
            self.wf(),
        ensures
            r.wf(),
            r.forest() == self@,
            r.pos() == root_pos(),
    {
        proof {
            assert(self@.ring()[0] == root_pos());
        }
        Cursor { forest: self, cursor: self.raw_root() }
    }

    /// A mutable cursor at root.
    pub fn root_mut(&mut self) -> (r: CursorMut<'_, T>)
        requires
            old(self).wf(),
        ensures
            r.wf(),
            r.forest() == old(self)@,
            r.pos() == root_pos(),
            final(self)@ == (*final(r.forest))@,
    {
        proof {
            assert(self@.ring()[0] == root_pos());
        }
        let cursor = self.raw_root();
        CursorMut { forest: self, cursor }
    }

    /// A cursor at the first node's leading edge, or at end.
    pub fn begin(&self) -> (r: Cursor<'_, T>)
        requires
            self.wf(),
        ensures
            r.wf(),
            r.forest() == self@,
            r.pos() == self@.next_of(root_pos()),
    {
        Cursor { forest: self, cursor: self.raw_begin() }
    }

    /// A mutable cursor at the first node's leading edge, or at end.
    pub fn begin_mut(&mut self) -> (r: CursorMut<'_, T>)
        requires
            old(self).wf(),
        ensures
            r.wf(),
            r.forest() == old(self)@,
            r.pos() == old(self)@.next_of(root_pos()),
            final(self)@ == (*final(r.forest))@,
    {
        let mut c = self.root_mut();
        c.move_next();
        c
    }

    /// A cursor at end, the position after the last node.
    pub fn end(&self) -> (r: Cursor<'_, T>)
        requires
            self.wf(),
        ensures
            r.wf(),
            r.forest() == self@,
            r.pos() == end_pos(),
    {
        proof {
            assert(self@.ring()[self@.ring().len() - 1] == end_pos());
        }
        Cursor { forest: self, cursor: self.raw_end() }
    }

    /// A mutable cursor at end.
    pub fn end_mut(&mut self) -> (r: CursorMut<'_, T>)
        requires
            old(self).wf(),
        ensures
            r.wf(),
            r.forest() == old(self)@,
            r.pos() == end_pos(),
            final(self)@ == (*final(r.forest))@,
    {
        proof {
            assert(self@.ring()[self@.ring().len() - 1] == end_pos());
        }
        let cursor = self.raw_end();
        CursorMut { forest: self, cursor }
    }
}

/// A cursor that stops on one kind of edge only: on leading edges it walks
/// the nodes in pre-order, on trailing edges in post-order.
pub struct EdgeCursor<'a, T: 'a> {
    edge: ForestEdge,
    cursor: Cursor<'a, T>,
}

impl<'a, T> EdgeCursor<'a, T> {
    /// The kind of edge it stops on.
    pub closed spec fn edge(&self) -> ForestEdge {
        self.edge
    }

    /// The cursor it moves.
    pub closed spec fn cursor(&self) -> Cursor<'a, T> {
        self.cursor
    }

    pub open spec fn wf(&self) -> bool {
        self.cursor().wf()
    }

    pub fn new(edge: ForestEdge, cursor: Cursor<'a, T>) -> (r: EdgeCursor<'a, T>)
        ensures
            r.edge() == edge,
            r.cursor() == cursor,
    {
        EdgeCursor { edge, cursor }
    }

    /// A walk that hands out the payload at each stop.
    pub fn into_iter(self) -> (r: CursorIterator<'a, T>)
        ensures
            r.cursor() == self,
    {
        CursorIterator { cursor: self }
    }

    /// Steps forward, then on to the next edge of its kind, or to end.
    pub fn move_next(&mut self)
        requires
            old(self).wf(),
            old(self).cursor().pos() != end_pos(),
        ensures
            final(self).wf(),
            final(self).edge() == old(self).edge(),
            final(self).cursor().forest() == old(self).cursor().forest(),
            seek_forward(
                old(self).cursor().forest(),
                old(self).cursor().forest().next_of(old(self).cursor().pos()),
                final(self).cursor().pos(),
                old(self).edge(),
            ),
    {
        self.cursor.move_next();
        self.cursor.find_edge(self.edge);
    }

    /// Steps back, then on back to the previous edge of its kind, or to root.
    pub fn move_prev(&mut self)
        requires
            old(self).wf(),
            old(self).cursor().pos() != root_pos(),
        ensures
            final(self).wf(),
            final(self).edge() == old(self).edge(),
            final(self).cursor().forest() == old(self).cursor().forest(),
            seek_backward(
                old(self).cursor().forest(),
                old(self).cursor().forest().prev_of(old(self).cursor().pos()),
                final(self).cursor().pos(),
                old(self).edge(),
            ),
    {
        self.cursor.move_prev();
        self.cursor.find_edge_reverse(self.edge);
    }

    /// Whether it stands on end.
    pub fn at_end(&self) -> (r: bool)
        ensures
            r == (self.cursor().pos() == end_pos()),
    {
        self.cursor.cursor.equal(&RawCursor { node: 0, edge: ForestEdge::Trailing })
    }

    /// The payload where it stands; none at root and end.
    pub fn current(&self) -> (r: Option<&'a T>)
        requires
            self.wf(),
        ensures
            r == self.cursor().current_spec(),
    {
        self.cursor.current()
    }
}

impl<'a, T> Cursor<'a, T> {
    /// The payload under the cursor, as `current` returns it.
    pub open spec fn current_spec(&self) -> Option<&'a T> {
        if self.pos().node == 0 {
            None
        } else {
            Some(&self.forest().payload(self.pos()))
        }
    }
}

/// Hands out the payload at each stop of an edge cursor, then steps.
pub struct CursorIterator<'a, T: 'a> {
    cursor: EdgeCursor<'a, T>,
}

impl<'a, T> CursorIterator<'a, T> {
    pub closed spec fn cursor(&self) -> EdgeCursor<'a, T> {
        self.cursor
    }

    /// The payload where the walk stands (none at root and end); unless it
    /// stands on end, the walk then steps on to the next edge of its kind,
    /// or to end.
    pub fn next(&mut self) -> (r: Option<&'a T>)
        requires
            old(self).cursor().wf(),
        ensures
            final(self).cursor().wf(),
            r == old(self).cursor().cursor().current_spec(),
            final(self).cursor().edge() == old(self).cursor().edge(),
            final(self).cursor().cursor().forest() == old(self).cursor().cursor().forest(),
            old(self).cursor().cursor().pos() == end_pos() ==> final(self).cursor().cursor().pos()
                == end_pos(),
            old(self).cursor().cursor().pos() != end_pos() ==> seek_forward(
                old(self).cursor().cursor().forest(),
                old(self).cursor().cursor().forest().next_of(old(self).cursor().cursor().pos()),
                final(self).cursor().cursor().pos(),
                old(self).cursor().edge(),
            ),
    {
        let item = self.cursor.current();
        if !self.cursor.at_end() {
            self.cursor.move_next();
        }
        item
    }
}

} // verus!
