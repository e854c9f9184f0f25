use vstd::prelude::*;

use crate::edge::ForestEdge;
use crate::forest::ForestView;
use crate::raw::{end_pos, lead, root_pos, trail, RawCursor};
use crate::seqs::{
    crossing, lead_before, lemma_index_of_distinct, leading_count, lemma_leading_count_remove, lemma_put_block_index,
    lemma_remove_node, put_block, shifted, trail_after, without_pair,
};

verus! {

/// The nesting depth at index `x` of a walk: the number of nodes whose
/// leading edge comes before `x` and whose trailing edge does not.
pub open spec fn depth(s: Seq<RawCursor>, x: int) -> int {
    2 * leading_count(s.subrange(0, x)) - x
}

/// Each node of a consistent forest is met exactly twice on the walk from
/// `begin` to `end`: first on its leading edge, later on its trailing edge.
pub proof fn law_edges_once<T>(v: ForestView<T>, x: int) -> (ij: (int, int))
    requires
        v.wf(),
        0 <= x < v.stops.len(),
    ensures
        0 <= ij.0 < ij.1 < v.stops.len(),
        v.stops[ij.0] == lead(v.stops[x].node),
        v.stops[ij.1] == trail(v.stops[x].node),
        forall|z: int|
            0 <= z < v.stops.len() && v.stops[z].node == v.stops[x].node ==> z == ij.0 || z == ij.1,
{
    let s = v.stops;
    let k = s[x].node;
    let (i, j) = if s[x].edge == ForestEdge::Leading {
        assert(trail_after(s, x));
        let j = choose|j: int| x < j < s.len() && #[trigger] s[j] == trail(k);
        (x, j)
    } else {
        assert(lead_before(s, x));
        let i = choose|i: int| 0 <= i < x && #[trigger] s[i] == lead(k);
        (i, x)
    };
    assert forall|z: int| 0 <= z < s.len() && s[z].node == k implies z == i || z == j by {
        if z != i && z != j {
            if s[z].edge == ForestEdge::Leading {
                assert(s[z] == s[i]);
            } else {
                assert(s[z] == s[j]);
            }
            assert(false) by {
                if z < i {
                    assert(s[z] != s[i]);
                } else if i < z && z < j {
                    assert(s[i] != s[z]);
                    assert(s[z] != s[j]);
                } else {
                    assert(s[j] != s[z]);
                }
            }
        }
    }
    (i, j)
}

/// Well-formed nesting: when a node's leading edge lies between the two
/// edges of another node (it is a descendant), its trailing edge lies
/// between them too, so the walk enters a node before any of its
/// descendants and leaves it after all of them.
pub proof fn law_well_nested<T>(v: ForestView<T>, i: int, j: int, x: int, y: int)
    requires
        v.wf(),
        0 <= i < x < j < v.stops.len(),
        v.stops[i] == lead(v.stops[i].node),
        v.stops[j] == trail(v.stops[i].node),
        0 <= y < v.stops.len(),
        y != x,
        v.stops[y].node == v.stops[x].node,
    ensures
        i < y < j,
{
    let s = v.stops;
    let (a, b) = law_edges_once(v, i);
    assert(a == i && b == j) by {
        assert(s[a].node == s[i].node);
        assert(s[b].node == s[i].node);
    }
    if s[x].node == s[i].node {
        assert(x == a || x == b);
    }
    if y == i || y == j {
        assert(s[y].node == s[i].node);
        assert(x == a || x == b);
    }
    if y < i {
        assert(crossing(s, y, i, x, j));
    } else if y > j {
        assert(crossing(s, i, x, j, y));
    }
}

/// Erasing a node keeps every other stop in its order; a stop that lay
/// inside the erased node (one of its descendants) is one level less deep,
/// every other stop keeps its depth. Erasing a leaf leaves its former
/// neighbours next to each other.
pub proof fn law_erase_lifts_children<T>(v: ForestView<T>, c: RawCursor, x: int)
    requires
        v.wf(),
        v.valid_pos(c),
        c.node != 0,
        0 <= x < v.without_node(c).stops.len(),
    ensures
        ({
            let s = v.stops;
            let t = v.without_node(c).stops;
            let i = v.lead_index(c.node);
            let j = v.trail_index(c.node);
            let y = if x < i {
                x
            } else if x < j - 1 {
                x + 1
            } else {
                x + 2
            };
            &&& 0 <= i < j < s.len()
            &&& t == without_pair(s, i, j)
            &&& t[x] == s[y]
            &&& depth(t, x) == depth(s, y) - if i < y < j {
                1int
            } else {
                0int
            }
            &&& (j == i + 1 && 0 < i ==> t[i - 1] == s[i - 1])
            &&& (j == i + 1 && i < t.len() ==> t[i] == s[i + 2])
        }),
{
    let s = v.stops;
    let t = v.without_node(c).stops;
    let i = v.lead_index(c.node);
    let j = v.trail_index(c.node);
    let y = if x < i {
        x
    } else if x < j - 1 {
        x + 1
    } else {
        x + 2
    };
    v.lemma_node_edges(c);
    lemma_remove_node(s, i, j);
    if x < i {
        assert(t.subrange(0, x) =~= s.subrange(0, y));
    } else if x < j - 1 {
        let u = s.subrange(0, y);
        assert(t.subrange(0, x) =~= u.remove(i));
        lemma_leading_count_remove(u, i);
    } else {
        let u = s.subrange(0, y);
        assert(t.subrange(0, x) =~= u.remove(j).remove(i));
        lemma_leading_count_remove(u, j);
        lemma_leading_count_remove(u.remove(j), i);
    }
}

/// Splicing forest `w` in just before `c` gives the walk of this forest up
/// to `c`, then all of `w`'s walk in its order, then the rest from `c` on.
pub proof fn law_splice_order<T>(v: ForestView<T>, c: RawCursor, w: ForestView<T>)
    requires
        v.wf(),
        w.wf(),
        v.valid_pos(c),
        c != root_pos(),
        v.data.len() + w.data.len() <= usize::MAX,
    ensures
        v.with_forest(c, w).events() == v.events().subrange(0, v.pos_index(c) - 1) + w.events()
            + v.events().subrange(v.pos_index(c) - 1, v.stops.len() as int),
{
    let r = v.ring();
    v.lemma_ring_distinct();
    let x = choose|x: int| 0 <= x < r.len() && r[x] == c;
    lemma_index_of_distinct(r, x);
    assert(r[0] == root_pos());
    let p = x - 1;
    let off = v.data.len() as int;
    let sb = shifted(w.stops, off);
    let u = v.with_forest(c, w);
    lemma_put_block_index(v.stops, sb, p);
    let lhs = u.events();
    let rhs = v.events().subrange(0, p) + w.events() + v.events().subrange(p, v.stops.len() as int);
    let m = w.stops.len() as int;
    assert(lhs.len() == rhs.len());
    assert forall|k: int| 0 <= k < lhs.len() implies lhs[k] == rhs[k] by {
        if k < p {
            assert(u.stops[k] == v.stops[k]);
            assert(v.stops[k].node < off);
            assert(u.data[v.stops[k].node as int] == v.data[v.stops[k].node as int]);
        } else if k < p + m {
            let q = w.stops[k - p];
            assert(q.node < w.data.len());
            assert(u.stops[k] == sb[k - p]);
            assert(sb[k - p].node == q.node + off);
            assert(u.data[q.node + off] == w.data[q.node as int]);
        } else {
            assert(u.stops[k] == v.stops[k - m]);
            assert(v.stops[k - m].node < off);
            assert(u.data[v.stops[k - m].node as int] == v.data[v.stops[k - m].node as int]);
        }
    }
    assert(lhs =~= rhs);
}

/// `begin` is `end` exactly when the forest has no node.
pub proof fn law_begin_is_end_iff_empty<T>(v: ForestView<T>)
    requires
        v.wf(),
    ensures
        (v.next_of(root_pos()) == end_pos()) == (v.stops.len() == 0),
{
    let r = v.ring();
    v.lemma_ring_distinct();
    assert(r[0] == root_pos());
    lemma_index_of_distinct(r, 0);
    if v.stops.len() > 0 {
        assert(r[1] == v.stops[0]);
        assert(v.stops[0].node >= 1);
    }
}

/// A cached size that can be trusted is the number of leading edges from
/// `begin` to `end`.
pub proof fn law_trusted_size_counts<T>(v: ForestView<T>)
    requires
        v.wf(),
        v.size_known(),
    ensures
        v.size == leading_count(v.stops),
{
    if v.stops.len() == 0 {
        assert(leading_count(v.stops) == 0);
    }
}

} // verus!
