use vstd::prelude::*;

use crate::edge::ForestEdge;
use crate::raw::{end_pos, lead, root_pos, trail, RawCursor};
use crate::seqs::{
    crossing, distinct, kept, lead_before, leading_count, leads_closed, lemma_index_of_distinct,
    lemma_insert_block, lemma_leading_count_bound, lemma_paired_count, lemma_paired_whole,
    lemma_pending_close, lemma_pending_facts, lemma_pending_outer, lemma_pending_push,
    lemma_put_block_index, lemma_remove_node, lemma_shifted, nested, node_disjoint, outer,
    paired, pending_ok, put_block, shifted, trail_after, trail_within, without_pair,
};

verus! {

/// What a forest holds: the edge stops from `begin` up to (not including)
/// `end`, in walking order; the payload slots, indexed by node (slot 0 is the
/// sentinel's and stays empty, an erased node's slot is emptied); and the
/// cached size, where 0 may stand for "unknown".
pub struct ForestView<T> {
    pub stops: Seq<RawCursor>,
    pub data: Seq<Option<T>>,
    pub size: nat,
}

impl<T> ForestView<T> {
    /// All positions in walking order: root, the stops, end.
    pub open spec fn ring(self) -> Seq<RawCursor> {
        seq![root_pos()] + self.stops + seq![end_pos()]
    }

    pub open spec fn valid_pos(self, c: RawCursor) -> bool {
        self.ring().contains(c)
    }

    /// Where `c` stands in `ring()`.
    pub open spec fn pos_index(self, c: RawCursor) -> int {
        self.ring().index_of(c)
    }

    /// The position one step after `c` (which is not end).
    pub open spec fn next_of(self, c: RawCursor) -> RawCursor {
        self.ring()[self.pos_index(c) + 1]
    }

    /// The position one step before `c` (which is not root).
    pub open spec fn prev_of(self, c: RawCursor) -> RawCursor {
        self.ring()[self.pos_index(c) - 1]
    }

    /// The payload at the node of `c`.
    pub open spec fn payload(self, c: RawCursor) -> T {
        self.data[c.node as int]->Some_0
    }

    /// The walk from `begin` to `end` as payloads with the edge of each stop.
    pub open spec fn events(self) -> Seq<(T, ForestEdge)> {
        self.stops.map_values(|c: RawCursor| (self.payload(c), c.edge))
    }

    /// The number of nodes.
    pub open spec fn count(self) -> nat {
        leading_count(self.stops)
    }

    /// The linked structure is consistent: each stop names a live node, no
    /// stop appears twice, and each node's leading edge comes before its
    /// trailing edge.
    pub open spec fn links_wf(self) -> bool {
        &&& self.data.len() >= 1
        &&& self.stops.len() + 2 <= usize::MAX
        &&& self.data[0] is None
        &&& forall|i: int|
            0 <= i < self.stops.len() ==> 1 <= #[trigger] self.stops[i].node < self.data.len()
                && self.data[self.stops[i].node as int] is Some
        &&& distinct(self.stops)
        &&& nested(self.stops)
        &&& paired(self.stops)
    }

    /// The cached size is either unknown (0) or right.
    pub open spec fn size_wf(self) -> bool {
        self.size == 0 || self.size == self.count()
    }

    pub open spec fn wf(self) -> bool {
        self.links_wf() && self.size_wf()
    }

    /// Whether the cached size can be trusted.
    pub open spec fn size_known(self) -> bool {
        self.size != 0 || self.stops.len() == 0
    }

    /// This forest after a leaf holding `item` is put just before `c`.
    pub open spec fn with_leaf(self, c: RawCursor, item: T) -> ForestView<T> {
        let n = self.data.len() as usize;
        ForestView {
            stops: put_block(self.stops, seq![lead(n), trail(n)], self.pos_index(c) - 1),
            data: self.data.push(Some(item)),
            size: if self.size_known() {
                self.size + 1
            } else {
                0
            },
        }
    }

    /// This forest after the node of `c` is taken out, its children moved
    /// up in its place.
    pub open spec fn without_node(self, c: RawCursor) -> ForestView<T> {
        ForestView {
            stops: without_pair(self.stops, self.lead_index(c.node), self.trail_index(c.node)),
            data: self.data.update(c.node as int, None),
            size: if self.size_known() {
                (self.size - 1) as nat
            } else {
                0
            },
        }
    }

    /// This forest after every node of `w` is moved in just before `c`.
    pub open spec fn with_forest(self, c: RawCursor, w: ForestView<T>) -> ForestView<T> {
        ForestView {
            stops: put_block(self.stops, shifted(w.stops, self.data.len() as int), self.pos_index(c) - 1),
            data: self.data + w.data,
            size: if self.size_known() && w.size_known() {
                self.size + w.count()
            } else {
                0
            },
        }
    }

    /// Where the stops of node `k` stand in `stops`.
    pub open spec fn lead_index(self, k: usize) -> int {
        self.pos_index(lead(k)) - 1
    }

    pub open spec fn trail_index(self, k: usize) -> int {
        self.pos_index(trail(k)) - 1
    }
}

/// A forest: the sentinel, the nodes it owns, and their walking order.
#[derive(Debug)]
pub struct Forest<T> {
    size: usize,
    data: Vec<Option<T>>,
    stops: Vec<RawCursor>,
}

impl<T> View for Forest<T> {
    type V = ForestView<T>;

    closed spec fn view(&self) -> ForestView<T> {
        ForestView { stops: self.stops@, data: self.data@, size: self.size as nat }
    }
}

impl<T> Forest<T> {
    pub open spec fn wf(&self) -> bool {
        self@.wf()
    }

    /// An empty forest: the sentinel alone.
    pub fn new() -> (r: Forest<T>)
        ensures
            r.wf(),
            r@.stops.len() == 0,
            r@.data == seq![None::<T>],
            r@.size == 0,
    {
        let mut data: Vec<Option<T>> = Vec::new();
        data.push(None);
        let r = Forest { size: 0, data, stops: Vec::new() };
        proof {
            assert(r@.data =~= seq![None::<T>]);
            assert(r@.stops.len() == 0);
        }
        r
    }

    /// Where `c` stands in the ring: 0 for root, `len + 1` for end.
    fn find(&self, c: RawCursor) -> (i: usize)
        requires
            self@.links_wf(),
            self@.valid_pos(c),
        ensures
            i == self@.pos_index(c),
            i < self@.ring().len(),
            self@.ring()[i as int] == c,
    {
        proof {
            self@.lemma_ring_distinct();
        }
        let ghost r = self@.ring();
        if c.node == 0 {
            if c.edge == ForestEdge::Leading {
                proof { lemma_index_of_distinct(r, 0); }
                return 0;
            } else {
                proof { lemma_index_of_distinct(r, r.len() - 1); }
                return self.stops.len() + 1;
            }
        }
        let mut k: usize = 0;
        while k < self.stops.len()
            invariant
                0 <= k <= self.stops@.len(),
                r == self@.ring(),
                c.node != 0,
                r.contains(c),
                forall|a: int, b: int| 0 <= a < b < r.len() ==> r[a] != r[b],
                forall|m: int| 0 <= m < k ==> self.stops@[m] != c,
            decreases self.stops@.len() - k,
        {
            if self.stops[k] == c {
                proof { lemma_index_of_distinct(r, k + 1); }
                return k + 1;
            }
            k += 1;
        }
        proof {
            let m = choose|m: int| 0 <= m < r.len() && r[m] == c;
            assert(r[m] == self.stops@[m - 1]);
        }
        0
    }

    /// The position one step after `c`; there is none after end.
    pub fn raw_next(&self, c: RawCursor) -> (r: RawCursor)
        requires
            self@.links_wf(),
            self@.valid_pos(c),
            c != end_pos(),
        ensures
            r == self@.next_of(c),
            self@.valid_pos(r),
            self@.pos_index(c) + 1 < self@.ring().len(),
    {
        let i = self.find(c);
        proof { assert(self@.ring()[self@.ring().len() - 1] == end_pos()); }
        if i < self.stops.len() {
            proof { assert(self@.ring()[i + 1] == self.stops@[i as int]); }
            self.stops[i]
        } else {
            proof { assert(self@.ring()[i + 1] == end_pos()); }
            RawCursor { node: 0, edge: ForestEdge::Trailing }
        }
    }

    /// The position one step before `c`; there is none before root.
    pub fn raw_prev(&self, c: RawCursor) -> (r: RawCursor)
        requires
            self@.links_wf(),
            self@.valid_pos(c),
            c != root_pos(),
        ensures
            r == self@.prev_of(c),
            self@.valid_pos(r),
            self@.pos_index(c) >= 1,
    {
        let i = self.find(c);
        proof { assert(self@.ring()[0] == root_pos()); }
        if i == 1 {
            proof { assert(self@.ring()[0] == root_pos()); }
            RawCursor { node: 0, edge: ForestEdge::Leading }
        } else {
            proof { assert(self@.ring()[i - 1] == self.stops@[i - 2]); }
            self.stops[i - 2]
        }
    }

    /// Whether the node at `c` has children: its leading edge is not followed
    /// by its own trailing edge.
    pub fn has_children(&self, c: RawCursor) -> (r: bool)
        requires
            self@.links_wf(),
            self@.valid_pos(c),
            c.node != 0,
        ensures
            r == (self@.next_of(lead(c.node)) != trail(c.node)),
    {
        proof {
            self@.lemma_node_edges(c);
        }
        let next = self.raw_next(c.leading_of());
        !next.equal(&c.trailing_of())
    }

    /// Adds a leaf holding `item` just before `c` and returns its leading
    /// edge. A trusted cached size grows by one.
    #[verifier::rlimit(50)]
    pub fn insert_at(&mut self, c: RawCursor, item: T) -> (r: RawCursor)
        requires
            old(self).wf(),
            old(self)@.valid_pos(c),
            c != root_pos(),
            old(self)@.data.len() < usize::MAX,
            old(self)@.stops.len() + 4 <= usize::MAX,
        ensures
            final(self).wf(),
            final(self)@ == old(self)@.with_leaf(c, item),
            r == lead(old(self)@.data.len() as usize),
            final(self)@.data == old(self)@.data.push(Some(item)),
            final(self)@.stops == put_block(
                old(self)@.stops,
                seq![r, trail(r.node)],
                old(self)@.pos_index(c) - 1,
            ),
            final(self)@.size == if old(self)@.size_known() {
                old(self)@.size + 1
            } else {
                0
            },
    {
        let i = self.find(c);
        proof {
            self@.lemma_ring_distinct();
            lemma_index_of_distinct(self@.ring(), 0);
            lemma_leading_count_bound(self@.stops);
        }
        let ghost old_v = self@;
        let n = self.data.len();
        if self.size != 0 || self.stops.len() == 0 {
            self.size = self.size + 1;
        }
        self.data.push(Some(item));
        let l = RawCursor { node: n, edge: ForestEdge::Leading };
        let t = RawCursor { node: n, edge: ForestEdge::Trailing };
        self.stops.insert(i - 1, t);
        self.stops.insert(i - 1, l);
        proof {
            let blk = seq![l, t];
            assert(blk[1] == trail(blk[0].node));
            assert(trail_after(blk, 0));
            assert(blk[0] == lead(blk[1].node));
            assert(lead_before(blk, 1));
            assert(nested(blk));
            assert(node_disjoint(old_v.stops, blk));
            lemma_insert_block(old_v.stops, blk, i - 1);
            assert(self@.stops =~= put_block(old_v.stops, blk, i - 1));
            assert(blk.drop_last() =~= seq![l]);
            assert(seq![l].drop_last() =~= Seq::<RawCursor>::empty());
            assert(leading_count(Seq::<RawCursor>::empty()) == 0);
            assert(leading_count(seq![l]) == 1);
            assert(leading_count(blk) == 1);
            assert(self@.data[0] is None);
            assert(self@.links_wf());
            let s = self@.stops;
            assert forall|x: int| 0 <= x < s.len() implies 1 <= #[trigger] s[x].node < self@.data.len()
                && self@.data[s[x].node as int] is Some by {
                if x < i - 1 {
                    assert(s[x] == old_v.stops[x]);
                } else if x >= i + 1 {
                    assert(s[x] == old_v.stops[x - 2]);
                }
            }
        }
        l
    }

    /// Takes the node at `c` out and drops its payload; its children, if
    /// any, take its place in the same order. Returns the position that now
    /// follows on `c`'s edge: the one after the node's leading edge, or the
    /// one after its trailing edge. A trusted cached size shrinks by one.
    pub fn erase_at(&mut self, c: RawCursor) -> (r: RawCursor)
        requires
            old(self).wf(),
            old(self)@.valid_pos(c),
            c.node != 0,
        ensures
            final(self).wf(),
            final(self)@ == old(self)@.without_node(c),
            0 <= old(self)@.lead_index(c.node) < old(self)@.trail_index(c.node)
                < old(self)@.stops.len(),
            final(self)@.stops == without_pair(
                old(self)@.stops,
                old(self)@.lead_index(c.node),
                old(self)@.trail_index(c.node),
            ),
            final(self)@.data == old(self)@.data.update(c.node as int, None),
            r == final(self)@.ring()[
                if c.edge == ForestEdge::Leading {
                    old(self)@.lead_index(c.node) + 1
                } else {
                    old(self)@.trail_index(c.node)
                }
            ],
            final(self)@.size == if old(self)@.size_known() {
                old(self)@.size - 1
            } else {
                0
            },
    {
        proof {
            self@.lemma_node_edges(c);
        }
        let ghost old_v = self@;
        let a = self.find(c.leading_of()) - 1;
        let b = self.find(c.trailing_of()) - 1;
        proof {
            lemma_remove_node(old_v.stops, a as int, b as int);
        }
        if self.size != 0 {
            self.size = self.size - 1;
        }
        self.stops.remove(b);
        self.stops.remove(a);
        self.data[c.node] = None;
        let ghost s = self@.stops;
        proof {
            assert(s =~= without_pair(old_v.stops, a as int, b as int));
            assert forall|x: int| 0 <= x < s.len() implies 1 <= #[trigger] s[x].node < self@.data.len()
                && self@.data[s[x].node as int] is Some by {
                let y = if x < a { x } else if x < b - 1 { x + 1 } else { x + 2 };
                assert(s[x] == old_v.stops[y]);
                assert(old_v.stops[y] != old_v.stops[a as int]);
                assert(old_v.stops[y] != old_v.stops[b as int]);
            }
        }
        if c.edge == ForestEdge::Leading {
            if a < self.stops.len() {
                proof { assert(self@.ring()[a + 1] == s[a as int]); }
                self.stops[a]
            } else {
                proof { assert(self@.ring()[a + 1] == end_pos()); }
                RawCursor { node: 0, edge: ForestEdge::Trailing }
            }
        } else {
            if b - 1 < self.stops.len() {
                proof { assert(self@.ring()[b as int] == s[b - 1]); }
                self.stops[b - 1]
            } else {
                proof { assert(self@.ring()[b as int] == end_pos()); }
                RawCursor { node: 0, edge: ForestEdge::Trailing }
            }
        }
    }

    /// Moves every node of `other` in, keeping their order, just before `c`.
    /// Returns the first moved position, or `c` when `other` is empty.
    /// Both sizes known: the sum is kept; else the cached size is dropped.
    pub fn splice_at(&mut self, c: RawCursor, other: Forest<T>) -> (r: RawCursor)
        requires
            old(self).wf(),
            other.wf(),
            old(self)@.valid_pos(c),
            c != root_pos(),
            old(self)@.data.len() + other@.data.len() <= usize::MAX,
            old(self)@.stops.len() + other@.stops.len() + 2 <= usize::MAX,
        ensures
            final(self).wf(),
            final(self)@ == old(self)@.with_forest(c, other@),
            final(self)@.data == old(self)@.data + other@.data,
            final(self)@.stops == put_block(
                old(self)@.stops,
                shifted(other@.stops, old(self)@.data.len() as int),
                old(self)@.pos_index(c) - 1,
            ),
            r == final(self)@.ring()[old(self)@.pos_index(c)],
            final(self)@.size == if old(self)@.size_known() && other@.size_known() {
                old(self)@.size + other@.count()
            } else {
                0
            },
    {
        let i = self.find(c);
        proof {
            self@.lemma_ring_distinct();
            lemma_index_of_distinct(self@.ring(), 0);
            lemma_leading_count_bound(self@.stops);
            lemma_leading_count_bound(other@.stops);
        }
        let ghost old_v = self@;
        let off = self.data.len();
        let Forest { size: osize, data: mut odata, stops: ostops } = other;
        let ghost os = ostops@;
        let mut blk: Vec<RawCursor> = Vec::new();
        let mut k: usize = 0;
        while k < ostops.len()
            invariant
                0 <= k <= os.len(),
                ostops@ == os,
                os == other@.stops,
                other@.links_wf(),
                off == old_v.data.len(),
                off + other@.data.len() <= usize::MAX,
                blk@ =~= shifted(os.subrange(0, k as int), off as int),
            decreases os.len() - k,
        {
            let s = ostops[k];
            assert(s.node < other@.data.len());
            blk.push(RawCursor { node: s.node + off, edge: s.edge });
            k += 1;
            proof {
                assert(os.subrange(0, k as int).drop_last() =~= os.subrange(0, k - 1));
            }
        }
        if (self.size != 0 || self.stops.len() == 0) && (osize != 0 || ostops.len() == 0) {
            self.size = self.size + osize;
        } else {
            self.size = 0;
        }
        self.data.append(&mut odata);
        let mut tail = self.stops.split_off(i - 1);
        self.stops.append(&mut blk);
        self.stops.append(&mut tail);
        let ghost sb = shifted(os, off as int);
        proof {
            assert(os.subrange(0, os.len() as int) =~= os);
            assert forall|x: int| 0 <= x < os.len() implies #[trigger] os[x].node + off <= usize::MAX by {
                assert(os[x].node < other@.data.len());
            }
            lemma_shifted(os, off as int);
            assert forall|x: int| 0 <= x < sb.len() implies (#[trigger] sb[x]).node == os[x].node + off by {
                assert(os[x].node < other@.data.len());
            }
            assert forall|a: int, b: int| 0 <= a < old_v.stops.len() && 0 <= b < sb.len() implies
                #[trigger] old_v.stops[a].node != #[trigger] sb[b].node by {
                assert(old_v.stops[a].node < off);
                assert(sb[b].node == os[b].node + off);
            }
            lemma_insert_block(old_v.stops, sb, i - 1);
            assert(self@.stops =~= put_block(old_v.stops, sb, i - 1));
            let s = self@.stops;
            let m = sb.len() as int;
            assert forall|x: int| 0 <= x < s.len() implies 1 <= #[trigger] s[x].node < self@.data.len()
                && self@.data[s[x].node as int] is Some by {
                if x < i - 1 {
                    assert(s[x] == old_v.stops[x]);
                    assert(self@.data[s[x].node as int] == old_v.data[s[x].node as int]);
                } else if x >= i - 1 + m {
                    assert(s[x] == old_v.stops[x - m]);
                    assert(self@.data[s[x].node as int] == old_v.data[s[x].node as int]);
                } else {
                    assert(s[x] == sb[x - (i - 1)]);
                    let y = x - (i - 1);
                    assert(os[y].node < other@.data.len());
                    assert(self@.data[s[x].node as int] == other@.data[os[y].node as int]);
                }
            }
            assert(self@.data[0] == old_v.data[0]);
        }
        if i - 1 < self.stops.len() {
            proof { assert(self@.ring()[i as int] == self@.stops[i - 1]); }
            self.stops[i - 1]
        } else {
            proof { assert(self@.ring()[i as int] == end_pos()); }
            RawCursor { node: 0, edge: ForestEdge::Trailing }
        }
    }

    /// Erases every node of `[first, last)`, children before their parents,
    /// and returns `last`. Each node of the range must have both of its
    /// edges in it.
    /// Erases the nodes that begin in `[first, last)`, children before their
    /// parents, and returns `last`. A trailing edge in the range whose node
    /// began before the range is stepped past and stays. Each node that
    /// begins in the range must end in it.
    #[verifier::rlimit(100)]
    pub fn erase_range(&mut self, first: RawCursor, last: RawCursor) -> (r: RawCursor)
        requires
            old(self).wf(),
            old(self)@.valid_pos(first),
            old(self)@.valid_pos(last),
            first != root_pos(),
            old(self)@.pos_index(first) <= old(self)@.pos_index(last),
            leads_closed(
                old(self)@.stops,
                old(self)@.pos_index(first) - 1,
                old(self)@.pos_index(last) - 1,
            ),
        ensures
            final(self).wf(),
            r == last,
            final(self)@.size == if old(self)@.size_known() {
                final(self)@.count()
            } else {
                0
            },
            final(self)@.stops == old(self)@.stops.subrange(0, old(self)@.pos_index(first) - 1)
                + kept(old(self)@.stops.subrange(old(self)@.pos_index(first) - 1, old(self)@.pos_index(last) - 1))
                + old(self)@.stops.subrange(old(self)@.pos_index(last) - 1, old(self)@.stops.len() as int),
            final(self)@.data.len() == old(self)@.data.len(),
            forall|k: int|
                0 <= k < final(self)@.data.len() && (#[trigger] final(self)@.data[k]) is Some
                    ==> final(self)@.data[k] == old(self)@.data[k],
            forall|x: int|
                old(self)@.pos_index(first) - 1 <= x < old(self)@.pos_index(last) - 1
                    && old(self)@.stops[x].edge == ForestEdge::Leading
                    ==> final(self)@.data[#[trigger] old(self)@.stops[x].node as int] is None,
    {
        let ghost old_v = self@;
        proof {
            old_v.lemma_ring_distinct();
            old_v.lemma_valid_index(first);
            old_v.lemma_valid_index(last);
            old_v.lemma_pos_index(0);
            if self@.stops.len() == 0 {
                assert(leading_count(self@.stops) == 0);
            }
        }
        let ghost a = old_v.pos_index(first) - 1;
        let ghost b = old_v.pos_index(last) - 1;
        let ghost seg = old_v.stops.subrange(a, b);
        let ghost pre = old_v.stops.subrange(0, a);
        let ghost suf = old_v.stops.subrange(b, old_v.stops.len() as int);
        let ghost mut q: int = 0;
        let ghost mut kk: Seq<RawCursor> = Seq::empty();
        let ghost mut pp: Seq<RawCursor> = Seq::empty();
        proof {
            assert(old_v.stops =~= pre + kk + pp + seg.subrange(0, seg.len() as int) + suf);
            assert(seg.subrange(0, 0).filter(|c: RawCursor| outer(seg, c)) =~= kk) by {
                reveal(Seq::filter);
            }
            assert(pending_ok(seg, 0, pp)) by {
                reveal(pending_ok);
            }
        }
        let mut depth: usize = 0;
        let mut position = first;
        while !position.equal(&last)
            invariant
                self.wf(),
                old_v.wf(),
                self@.size == if old_v.size_known() {
                    self@.count()
                } else {
                    0
                },
                0 <= a <= b <= old_v.stops.len(),
                seg == old_v.stops.subrange(a, b),
                pre == old_v.stops.subrange(0, a),
                suf == old_v.stops.subrange(b, old_v.stops.len() as int),
                leads_closed(old_v.stops, a, b),
                0 <= q <= seg.len(),
                self@.stops == pre + kk + pp + seg.subrange(q, seg.len() as int) + suf,
                kk == seg.subrange(0, q).filter(|c: RawCursor| outer(seg, c)),
                depth == pp.len(),
                pending_ok(seg, q, pp),
                forall|m: int| 0 <= m < q && seg[m].edge == ForestEdge::Leading && seg.subrange(0, q).contains(
                    trail(seg[m].node)) ==> self@.data[#[trigger] seg[m].node as int] is None,
                self@.data.len() == old_v.data.len(),
                forall|k: int|
                    0 <= k < self@.data.len() && (#[trigger] self@.data[k]) is Some
                        ==> self@.data[k] == old_v.data[k],
                position == self@.ring()[a + kk.len() + pp.len() + 1],
                last == self@.ring()[self@.stops.len() - suf.len() + 1],
            decreases seg.len() - q,
        {
            let ghost cur = self@;
            let ghost p = a + kk.len() + pp.len();
            proof {
                cur.lemma_ring_distinct();
                cur.lemma_pos_index(p + 1);
                assert(q < seg.len()) by {
                    if q == seg.len() {
                        assert(p == cur.stops.len() - suf.len());
                    }
                }
                assert(cur.stops[p] == seg[q]);
                assert(cur.ring()[p + 1] == cur.stops[p]);
                assert(seg[q] == old_v.stops[a + q]);
                assert(seg.subrange(0, q + 1).drop_last() =~= seg.subrange(0, q));
                reveal(Seq::filter);
            }
            let ghost t = seg[q];
            if position.edge == ForestEdge::Leading {
                depth += 1;
                position = self.raw_next(position);
                proof {
                    assert(trail_within(old_v.stops, a + q, b));
                    let z = choose|z: int| a + q < z < b && #[trigger] old_v.stops[z] == trail(t.node);
                    assert(!seg.subrange(0, q + 1).contains(trail(t.node))) by {
                        if seg.subrange(0, q + 1).contains(trail(t.node)) {
                            let w = choose|w: int| 0 <= w < q + 1 && #[trigger] seg.subrange(0, q + 1)[w] == trail(t.node);
                            assert(old_v.stops[a + w] == old_v.stops[z]);
                        }
                    }
                    lemma_pending_push(seg, q, pp);
                    assert forall|m: int| 0 <= m < q + 1 && seg[m].edge == ForestEdge::Leading && seg.subrange(0, q + 1).contains(
                        trail(seg[m].node)) implies self@.data[#[trigger] seg[m].node as int] is None by {
                        let v = choose|v: int| 0 <= v < q + 1 && #[trigger] seg.subrange(0, q + 1)[v] == trail(seg[m].node);
                        assert(v != q);
                        assert(m != q);
                        assert(seg.subrange(0, q)[v] == trail(seg[m].node));
                    }
                    pp = pp.push(t);
                    q = q + 1;
                    assert(self@.stops =~= pre + kk + pp + seg.subrange(q, seg.len() as int) + suf);
                    cur.lemma_pos_index(p + 2);
                }
            } else {
                let ghost li: int = 0;
                let ghost idx: int = 0;
                proof {
                    assert(lead_before(old_v.stops, a + q));
                    let z = choose|z: int| 0 <= z < a + q && #[trigger] old_v.stops[z] == lead(t.node);
                    if z < a && pp.len() > 0 {
                        let u = pp[0];
                        lemma_pending_facts(seg, q, pp, 0, 0);
                        let mu = choose|w: int| 0 <= w < q && #[trigger] seg.subrange(0, q)[w] == u;
                        assert(old_v.stops[a + mu] == u);
                        assert(trail_within(old_v.stops, a + mu, b));
                        let zu = choose|zz: int| a + mu < zz < b && #[trigger] old_v.stops[zz] == trail(u.node);
                        if zu < a + q {
                            assert(seg.subrange(0, q)[zu - a] == trail(u.node));
                        }
                        if zu == a + q {
                            assert(old_v.stops[z] == old_v.stops[a + mu]);
                        }
                        assert(crossing(old_v.stops, z, a + mu, a + q, zu));
                    }
                    if z >= a {
                        assert(seg[z - a] == lead(t.node));
                        assert(seg.contains(lead(t.node)));
                        assert(!seg.subrange(0, q).contains(trail(seg[z - a].node))) by {
                            if seg.subrange(0, q).contains(trail(t.node)) {
                                let w = choose|w: int| 0 <= w < q && #[trigger] seg.subrange(0, q)[w] == trail(t.node);
                                assert(old_v.stops[a + w] == old_v.stops[a + q]);
                            }
                        }
                        lemma_pending_facts(seg, q, pp, 0, z - a);
                        idx = choose|w: int| 0 <= w < pp.len() && #[trigger] pp[w] == lead(t.node);
                        li = a + kk.len() + idx;
                        assert(cur.stops[li] == lead(t.node));
                        cur.lemma_node_edges(position);
                        cur.lemma_pos_index(li + 1);
                        assert(cur.ring()[li + 1] == cur.stops[li]);
                        assert(cur.lead_index(t.node) == li);
                        assert(cur.trail_index(t.node) == p);
                        lemma_remove_node(cur.stops, li, p);
                        lemma_paired_count(cur.stops);
                        assert forall|x: int, y: int| 0 <= x < y < pp.len() implies #[trigger] pp[x] != #[trigger] pp[y] by {
                            assert(cur.stops[a + kk.len() + x] == pp[x]);
                            assert(cur.stops[a + kk.len() + y] == pp[y]);
                        }
                        assert(!outer(seg, t));
                    } else {
                        assert(!seg.contains(lead(t.node))) by {
                            if seg.contains(lead(t.node)) {
                                let w = choose|w: int| 0 <= w < seg.len() && #[trigger] seg[w] == lead(t.node);
                                assert(old_v.stops[a + w] == old_v.stops[z]);
                            }
                        }
                        assert(outer(seg, t));
                    }
                }
                if depth > 0 {
                    position = self.erase_at(position);
                    proof {
                        lemma_pending_close(seg, q, pp, idx);
                        let np = pp.remove(idx);
                        let s2 = self@.stops;
                        assert(s2 =~= pre + kk + np + seg.subrange(q + 1, seg.len() as int) + suf);
                        assert forall|m: int| 0 <= m < q + 1 && seg[m].edge == ForestEdge::Leading && seg.subrange(0, q + 1).contains(
                            trail(seg[m].node)) implies self@.data[#[trigger] seg[m].node as int] is None by {
                            let v = choose|v: int| 0 <= v < q + 1 && #[trigger] seg.subrange(0, q + 1)[v] == trail(seg[m].node);
                            if v < q {
                                assert(seg.subrange(0, q)[v] == trail(seg[m].node));
                                assert(cur.data[seg[m].node as int] is None);
                            } else {
                                assert(seg[m].node == t.node);
                            }
                        }
                        pp = np;
                        q = q + 1;
                        self@.lemma_ring_distinct();
                        assert(s2.len() == cur.stops.len() - 2);
                        let e1 = s2.len() - suf.len();
                        if suf.len() > 0 {
                            assert(s2[e1] == suf[0]);
                            assert(cur.stops[e1 + 2] == suf[0]);
                            assert(self@.ring()[e1 + 1] == s2[e1]);
                            assert(cur.ring()[e1 + 3] == cur.stops[e1 + 2]);
                        } else {
                            assert(self@.ring()[e1 + 1] == end_pos());
                            assert(cur.ring()[e1 + 3] == end_pos());
                        }
                    }
                } else {
                    position = self.raw_next(position);
                    proof {
                        lemma_pending_outer(seg, q, pp);
                        assert forall|m: int| 0 <= m < q + 1 && seg[m].edge == ForestEdge::Leading && seg.subrange(0, q + 1).contains(
                            trail(seg[m].node)) implies self@.data[#[trigger] seg[m].node as int] is None by {
                            let v = choose|v: int| 0 <= v < q + 1 && #[trigger] seg.subrange(0, q + 1)[v] == trail(seg[m].node);
                            if v < q {
                                assert(seg.subrange(0, q)[v] == trail(seg[m].node));
                            } else {
                                assert(seg[m] == lead(t.node));
                            }
                        }
                        kk = kk.push(t);
                        q = q + 1;
                        assert(self@.stops =~= pre + kk + pp + seg.subrange(q, seg.len() as int) + suf);
                        cur.lemma_pos_index(p + 2);
                    }
                }
                depth = if depth > 0 { depth - 1 } else { 0 };
            }
        }
        proof {
            let s = self@.stops;
            self@.lemma_ring_distinct();
            self@.lemma_pos_index(a + kk.len() + pp.len() + 1);
            self@.lemma_pos_index(s.len() - suf.len() + 1);
            assert(q == seg.len());
            if pp.len() > 0 {
                let u = pp[0];
                lemma_pending_facts(seg, q, pp, 0, 0);
                let mu = choose|w: int| 0 <= w < q && #[trigger] seg.subrange(0, q)[w] == u;
                assert(old_v.stops[a + mu] == u);
                assert(trail_within(old_v.stops, a + mu, b));
                let zu = choose|zz: int| a + mu < zz < b && #[trigger] old_v.stops[zz] == trail(u.node);
                assert(seg.subrange(0, q)[zu - a] == trail(u.node));
            }
            assert(seg.subrange(0, q) =~= seg);
            assert(s =~= pre + kept(seg) + suf);
            assert forall|x: int| a <= x < b && old_v.stops[x].edge == ForestEdge::Leading implies
                self@.data[#[trigger] old_v.stops[x].node as int] is None by {
                assert(seg[x - a] == old_v.stops[x]);
                assert(trail_within(old_v.stops, x, b));
                let zz = choose|zz: int| x < zz < b && #[trigger] old_v.stops[zz] == trail(old_v.stops[x].node);
                assert(seg.subrange(0, q)[zz - a] == trail(seg[x - a].node));
            }
        }
        last
    }

    /// Whether the cached size can be trusted: it is not 0, or the forest is
    /// empty.
    pub fn size_valid(&self) -> (r: bool)
        ensures
            r == self@.size_known(),
    {
        self.size != 0 || self.stops.len() == 0
    }

    /// Whether the forest has no node: `begin` is `end`.
    pub fn empty(&self) -> (r: bool)
        requires
            self.wf(),
        ensures
            r == (self@.stops.len() == 0),
            r == (self@.next_of(root_pos()) == end_pos()),
    {
        proof {
            self@.lemma_ring_distinct();
            lemma_index_of_distinct(self@.ring(), 0);
            assert(self@.ring()[0] == root_pos());
            if self@.stops.len() > 0 {
                assert(self@.ring()[1] == self@.stops[0]);
                assert(self@.stops[0].node >= 1);
            }
        }
        let b = self.raw_next(self.raw_root());
        b.equal(&self.raw_end())
    }

    /// The number of nodes, counted again when the cache is not trusted.
    pub fn size(&mut self) -> (r: usize)
        requires
            old(self).wf(),
        ensures
            final(self).wf(),
            r == old(self)@.count(),
            final(self)@.stops == old(self)@.stops,
            final(self)@.data == old(self)@.data,
            final(self)@.size == r,
    {
        if !self.size_valid() {
            self.size = self.count_nodes();
        }
        proof {
            if self@.stops.len() == 0 {
                assert(leading_count(self@.stops) == 0);
            }
        }
        self.size
    }

    /// Counts the leading edges from `begin` to `end`.
    fn count_nodes(&self) -> (r: usize)
        requires
            self.wf(),
        ensures
            r == self@.count(),
    {
        let mut n: usize = 0;
        let mut k: usize = 0;
        while k < self.stops.len()
            invariant
                self.wf(),
                0 <= k <= self@.stops.len(),
                n == leading_count(self@.stops.subrange(0, k as int)),
            decreases self@.stops.len() - k,
        {
            proof {
                lemma_leading_count_bound(self@.stops.subrange(0, k as int));
                assert(self@.stops.subrange(0, k + 1).drop_last() =~= self@.stops.subrange(0, k as int));
            }
            if self.stops[k].edge == ForestEdge::Leading {
                n += 1;
            }
            k += 1;
        }
        proof {
            assert(self@.stops.subrange(0, k as int) =~= self@.stops);
        }
        n
    }

    /// Erases every node, children before their parents; the forest is then
    /// as new.
    pub fn clear(&mut self)
        requires
            old(self).wf(),
        ensures
            final(self).wf(),
            final(self)@.stops.len() == 0,
            final(self)@.data == seq![None::<T>],
            final(self)@.size == 0,
    {
        proof {
            self@.lemma_ring_distinct();
            lemma_index_of_distinct(self@.ring(), 0);
            lemma_index_of_distinct(self@.ring(), self@.ring().len() - 1);
            lemma_paired_whole(self@.stops);
            assert(self@.ring()[0] == root_pos());
            if self@.stops.len() > 0 {
                assert(self@.ring()[1] == self@.stops[0]);
                assert(self@.stops[0].node >= 1);
            }
        }
        let begin = self.raw_begin();
        let end = self.raw_end();
        proof {
            if self@.stops.len() > 0 {
                lemma_index_of_distinct(self@.ring(), 1);
            }
        }
        self.erase_range(begin, end);
        self.data.truncate(1);
        self.size = 0;
        proof {
            assert(self@.stops =~= Seq::<RawCursor>::empty()) by {
                assert(old(self)@.stops.subrange(0, 0) =~= Seq::<RawCursor>::empty());
                assert(old(self)@.stops.subrange(old(self)@.stops.len() as int, old(self)@.stops.len() as int)
                    =~= Seq::<RawCursor>::empty());
                assert(old(self)@.stops.subrange(0, old(self)@.stops.len() as int) =~= old(self)@.stops);
            }
            assert(self@.data =~= seq![None::<T>]);
        }
    }

    /// The sentinel's leading edge: the position before the first node.
    pub fn raw_root(&self) -> (r: RawCursor)
        ensures
            r == root_pos(),
    {
        RawCursor { node: self.tail(), edge: ForestEdge::Leading }
    }

    /// The first position after root: the first node's leading edge, or end.
    pub fn raw_begin(&self) -> (r: RawCursor)
        requires
            self@.links_wf(),
        ensures
            r == self@.next_of(root_pos()),
            self@.valid_pos(r),
    {
        proof {
            assert(self@.ring()[0] == root_pos());
        }
        let mut c = self.raw_root();
        c = self.raw_next(c);
        c
    }

    /// The sentinel's trailing edge: the position after the last node.
    pub fn raw_end(&self) -> (r: RawCursor)
        ensures
            r == end_pos(),
    {
        RawCursor::new(self.tail(), ForestEdge::Trailing)
    }

    /// The sentinel's slot.
    fn tail(&self) -> (r: usize)
        ensures
            r == 0,
    {
        0
    }

    /// The payload at `c`, to change in place; none at the sentinel.
    pub fn get_mut(&mut self, c: RawCursor) -> (r: Option<&mut T>)
        requires
            old(self).wf(),
            old(self)@.valid_pos(c),
        ensures
            c.node == 0 ==> r is None && final(self)@ == old(self)@,
            c.node != 0 ==> r is Some && *r->Some_0 == old(self)@.payload(c) && final(self)@ == (
            ForestView { data: old(self)@.data.update(c.node as int, Some(*final(r->Some_0))), ..old(self)@ }),
    {
        if c.node == 0 {
            None
        } else {
            proof {
                self@.lemma_node_edges(c);
                let i = self@.pos_index(c);
                assert(self@.ring()[i] == self@.stops[i - 1]);
            }
            self.data[c.node].as_mut()
        }
    }

    /// The payload at `c`; none at the sentinel.
    pub fn get(&self, c: RawCursor) -> (r: Option<&T>)
        requires
            self.wf(),
            self@.valid_pos(c),
        ensures
            c.node == 0 ==> r is None,
            c.node != 0 ==> r is Some && *r->Some_0 == self@.payload(c),
    {
        if c.node == 0 {
            None
        } else {
            proof {
                self@.lemma_node_edges(c);
                let i = self@.pos_index(c);
                assert(self@.ring()[i] == self@.stops[i - 1]);
            }
            self.data[c.node].as_ref()
        }
    }
}

impl<T> ForestView<T> {
    /// A position other than root stays where it was when a block is put
    /// just before it.
    pub proof fn lemma_valid_after_put(self, c: RawCursor, blk: Seq<RawCursor>)
        requires
            self.valid_pos(c),
            c != root_pos(),
            forall|a: int, b: int| 0 <= a < b < self.ring().len() ==> self.ring()[a] != self.ring()[b],
        ensures
            ({
                let s = put_block(self.stops, blk, self.pos_index(c) - 1);
                (seq![root_pos()] + s + seq![end_pos()]).contains(c)
            }),
    {
        let r = self.ring();
        let x = choose|x: int| 0 <= x < r.len() && r[x] == c;
        lemma_index_of_distinct(r, x);
        assert(r[0] == root_pos());
        assert(x >= 1);
        let p = x - 1;
        let s = put_block(self.stops, blk, p);
        lemma_put_block_index(self.stops, blk, p);
        let r2 = seq![root_pos()] + s + seq![end_pos()];
        if x == r.len() - 1 {
            assert(r[x] == end_pos());
            assert(r2[r2.len() - 1] == end_pos());
        } else {
            assert(r[x] == self.stops[p]);
            assert(s[p + blk.len()] == self.stops[p]);
            assert(r2[p + blk.len() + 1] == s[p + blk.len()]);
        }
    }
    /// The ring of a consistent forest holds no position twice.
    pub proof fn lemma_ring_distinct(self)
        requires
            self.links_wf(),
        ensures
            forall|a: int, b: int|
                0 <= a < b < self.ring().len() ==> self.ring()[a] != self.ring()[b],
    {
        let r = self.ring();
        assert forall|a: int, b: int| 0 <= a < b < r.len() implies r[a] != r[b] by {
            if a > 0 && b < r.len() - 1 {
                assert(r[a] == self.stops[a - 1]);
                assert(r[b] == self.stops[b - 1]);
            } else if a == 0 {
                if b < r.len() - 1 {
                    assert(r[b] == self.stops[b - 1]);
                    assert(self.stops[b - 1].node >= 1);
                }
            } else {
                assert(r[a] == self.stops[a - 1]);
                assert(self.stops[a - 1].node >= 1);
            }
        }
    }

    /// Both edges of the node of a stop are in the ring, leading first.
    pub proof fn lemma_node_edges(self, c: RawCursor)
        requires
            self.links_wf(),
            self.valid_pos(c),
            c.node != 0,
        ensures
            self.valid_pos(lead(c.node)),
            self.valid_pos(trail(c.node)),
            0 <= self.lead_index(c.node) < self.trail_index(c.node) < self.stops.len(),
            self.stops[self.lead_index(c.node)] == lead(c.node),
            self.stops[self.trail_index(c.node)] == trail(c.node),
            self.ring()[self.pos_index(c)] == c,
    {
        let r = self.ring();
        let s = self.stops;
        self.lemma_ring_distinct();
        let x = choose|x: int| 0 <= x < r.len() && r[x] == c;
        assert(x != 0 && x != r.len() - 1);
        assert(r[x] == s[x - 1]);
        lemma_index_of_distinct(r, x);
        let (a, b) = if c.edge == ForestEdge::Leading {
            assert(trail_after(s, x - 1));
            let j = choose|j: int| x - 1 < j < s.len() && #[trigger] s[j] == trail(c.node);
            (x - 1, j)
        } else {
            assert(lead_before(s, x - 1));
            let j = choose|j: int| 0 <= j < x - 1 && #[trigger] s[j] == lead(c.node);
            (j, x - 1)
        };
        assert(r[a + 1] == s[a]);
        assert(r[b + 1] == s[b]);
        lemma_index_of_distinct(r, a + 1);
        lemma_index_of_distinct(r, b + 1);
    }

    /// Where a valid position stands in the ring.
    pub proof fn lemma_valid_index(self, c: RawCursor)
        requires
            self.links_wf(),
            self.valid_pos(c),
        ensures
            0 <= self.pos_index(c) < self.ring().len(),
            self.ring()[self.pos_index(c)] == c,
    {
        self.lemma_ring_distinct();
        let x = choose|x: int| 0 <= x < self.ring().len() && self.ring()[x] == c;
        lemma_index_of_distinct(self.ring(), x);
    }

    /// Each position of the ring is found at its own index.
    pub proof fn lemma_pos_index(self, i: int)
        requires
            self.links_wf(),
            0 <= i < self.ring().len(),
        ensures
            self.pos_index(self.ring()[i]) == i,
            self.valid_pos(self.ring()[i]),
    {
        self.lemma_ring_distinct();
        lemma_index_of_distinct(self.ring(), i);
    }

}

} // verus!
