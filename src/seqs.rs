use vstd::prelude::*;

use crate::edge::ForestEdge;
use crate::raw::{lead, trail, RawCursor};

verus! {

/// No position appears twice in `s`.
pub open spec fn distinct(s: Seq<RawCursor>) -> bool {
    forall|a: int, b: int| 0 <= a < b < s.len() ==> #[trigger] s[a] != #[trigger] s[b]
}

/// The trailing edge of the node of `s[i]` comes after index `i`.
pub open spec fn trail_after(s: Seq<RawCursor>, i: int) -> bool {
    exists|j: int| i < j < s.len() && s[j] == trail(s[i].node)
}

/// The leading edge of the node of `s[i]` comes before index `i`.
pub open spec fn lead_before(s: Seq<RawCursor>, i: int) -> bool {
    exists|j: int| 0 <= j < i && s[j] == lead(s[i].node)
}

/// Each leading edge in `s` has its node's trailing edge after it, and each
/// trailing edge has its node's leading edge before it.
pub open spec fn paired(s: Seq<RawCursor>) -> bool {
    &&& forall|i: int|
        0 <= i < s.len() && s[i].edge == ForestEdge::Leading ==> #[trigger] trail_after(s, i)
    &&& forall|i: int|
        0 <= i < s.len() && s[i].edge == ForestEdge::Trailing ==> #[trigger] lead_before(s, i)
}

/// The nodes of the stops at `i < j < k < l` interleave: one node's edges
/// at `i` and `k`, another's at `j` and `l`.
pub open spec fn crossing(s: Seq<RawCursor>, i: int, j: int, k: int, l: int) -> bool {
    s[i].node == s[k].node && s[j].node == s[l].node
}

/// No two nodes interleave: the edges of a node lie either both inside or
/// both outside the span of any other node.
pub open spec fn nested(s: Seq<RawCursor>) -> bool {
    forall|i: int, j: int, k: int, l: int|
        0 <= i < j < k < l < s.len() ==> !#[trigger] crossing(s, i, j, k, l)
}

/// The number of leading edges in `s`, that is the number of nodes.
pub open spec fn leading_count(s: Seq<RawCursor>) -> nat
    decreases s.len(),
{
    if s.len() == 0 {
        0
    } else {
        leading_count(s.drop_last()) + if s.last().edge == ForestEdge::Leading {
            1nat
        } else {
            0nat
        }
    }
}

/// No node has a stop both in `s` and in `t`.
pub open spec fn node_disjoint(s: Seq<RawCursor>, t: Seq<RawCursor>) -> bool {
    forall|a: int, b: int| 0 <= a < s.len() && 0 <= b < t.len() ==> #[trigger] s[a].node != #[trigger] t[b].node
}

pub proof fn lemma_leading_count_append(a: Seq<RawCursor>, b: Seq<RawCursor>)
    ensures
        leading_count(a + b) == leading_count(a) + leading_count(b),
    decreases b.len(),
{
    if b.len() == 0 {
        assert(a + b =~= a);
    } else {
        lemma_leading_count_append(a, b.drop_last());
        assert((a + b).drop_last() =~= a + b.drop_last());
    }
}

/// A leading count never exceeds the length.
pub proof fn lemma_leading_count_bound(a: Seq<RawCursor>)
    ensures
        leading_count(a) <= a.len(),
    decreases a.len(),
{
    if a.len() > 0 {
        lemma_leading_count_bound(a.drop_last());
    }
}

/// `blk` put into `s` before index `p`.
pub open spec fn put_block(s: Seq<RawCursor>, blk: Seq<RawCursor>, p: int) -> Seq<RawCursor> {
    s.subrange(0, p) + blk + s.subrange(p, s.len() as int)
}

pub proof fn lemma_put_block_index(s: Seq<RawCursor>, blk: Seq<RawCursor>, p: int)
    requires
        0 <= p <= s.len(),
    ensures
        put_block(s, blk, p).len() == s.len() + blk.len(),
        forall|k: int| 0 <= k < p ==> put_block(s, blk, p)[k] == s[k],
        forall|k: int| p <= k < p + blk.len() ==> put_block(s, blk, p)[k] == blk[k - p],
        forall|k: int|
            p + blk.len() <= k < s.len() + blk.len() ==> put_block(s, blk, p)[k] == s[k - blk.len()],
{
}

proof fn lemma_put_block_paired(s: Seq<RawCursor>, blk: Seq<RawCursor>, p: int)
    requires
        0 <= p <= s.len(),
        paired(s),
        paired(blk),
    ensures
        paired(put_block(s, blk, p)),
{
    let m = blk.len() as int;
    let t = put_block(s, blk, p);
    lemma_put_block_index(s, blk, p);
    assert forall|i: int|
        0 <= i < t.len() && t[i].edge == ForestEdge::Leading implies #[trigger] trail_after(t, i) by {
        if i < p {
            assert(s[i] == t[i]);
            assert(trail_after(s, i));
            let j = choose|j: int| i < j < s.len() && #[trigger] s[j] == trail(s[i].node);
            if j < p {
                assert(t[j] == s[j]);
            } else {
                assert(t[j + m] == s[j]);
            }
        } else if i < p + m {
            assert(blk[i - p] == t[i]);
            assert(trail_after(blk, i - p));
            let j = choose|j: int| i - p < j < blk.len() && #[trigger] blk[j] == trail(blk[i - p].node);
            assert(t[j + p] == blk[j]);
        } else {
            assert(s[i - m] == t[i]);
            assert(trail_after(s, i - m));
            let j = choose|j: int| i - m < j < s.len() && #[trigger] s[j] == trail(s[i - m].node);
            assert(t[j + m] == s[j]);
        }
    }
    assert forall|i: int|
        0 <= i < t.len() && t[i].edge == ForestEdge::Trailing implies #[trigger] lead_before(t, i) by {
        if i < p {
            assert(s[i] == t[i]);
            assert(lead_before(s, i));
            let j = choose|j: int| 0 <= j < i && #[trigger] s[j] == lead(s[i].node);
            assert(t[j] == s[j]);
        } else if i < p + m {
            assert(blk[i - p] == t[i]);
            assert(lead_before(blk, i - p));
            let j = choose|j: int| 0 <= j < i - p && #[trigger] blk[j] == lead(blk[i - p].node);
            assert(t[j + p] == blk[j]);
        } else {
            assert(s[i - m] == t[i]);
            assert(lead_before(s, i - m));
            let j = choose|j: int| 0 <= j < i - m && #[trigger] s[j] == lead(s[i - m].node);
            if j < p {
                assert(t[j] == s[j]);
            } else {
                assert(t[j + m] == s[j]);
            }
        }
    }
}

proof fn lemma_put_block_nested(s: Seq<RawCursor>, blk: Seq<RawCursor>, p: int)
    requires
        0 <= p <= s.len(),
        nested(s),
        nested(blk),
        node_disjoint(s, blk),
    ensures
        nested(put_block(s, blk, p)),
{
    let m = blk.len() as int;
    let t = put_block(s, blk, p);
    lemma_put_block_index(s, blk, p);
    assert forall|i: int, j: int, k: int, l: int| 0 <= i < j < k < l < t.len() implies !#[trigger] crossing(
        t,
        i,
        j,
        k,
        l,
    ) by {
        let inb = |x: int| p <= x < p + m;
        let src = |x: int| if x < p { x } else { x - m };
        if inb(i) && inb(j) && inb(k) && inb(l) {
            assert(!crossing(blk, i - p, j - p, k - p, l - p));
        } else if !inb(i) && !inb(j) && !inb(k) && !inb(l) {
            assert(!crossing(s, src(i), src(j), src(k), src(l)));
        } else if crossing(t, i, j, k, l) {
            if inb(i) != inb(k) {
                let (x, y) = if inb(i) { (k, i) } else { (i, k) };
                assert(s[src(x)].node != blk[y - p].node);
            } else if inb(j) != inb(l) {
                let (x, y) = if inb(j) { (l, j) } else { (j, l) };
                assert(s[src(x)].node != blk[y - p].node);
            }
        }
    }
}

proof fn lemma_put_block_distinct(s: Seq<RawCursor>, blk: Seq<RawCursor>, p: int)
    requires
        0 <= p <= s.len(),
        distinct(s),
        distinct(blk),
        node_disjoint(s, blk),
    ensures
        distinct(put_block(s, blk, p)),
{
    let m = blk.len() as int;
    let t = put_block(s, blk, p);
    lemma_put_block_index(s, blk, p);
    assert forall|a: int, b: int| 0 <= a < b < t.len() implies #[trigger] t[a] != #[trigger] t[b] by {
        if a < p {
            if b < p {
                assert(s[a] != s[b]);
            } else if b < p + m {
                assert(s[a].node != blk[b - p].node);
            } else {
                assert(s[a] != s[b - m]);
            }
        } else if a < p + m {
            if b < p + m {
                assert(blk[a - p] != blk[b - p]);
            } else {
                assert(s[b - m].node != blk[a - p].node);
            }
        } else {
            assert(s[a - m] != s[b - m]);
        }
    }
}

/// Putting a consistent block of new nodes into a consistent sequence keeps
/// it consistent.
pub proof fn lemma_insert_block(s: Seq<RawCursor>, blk: Seq<RawCursor>, p: int)
    requires
        0 <= p <= s.len(),
        paired(s),
        paired(blk),
        distinct(s),
        distinct(blk),
        nested(s),
        nested(blk),
        node_disjoint(s, blk),
    ensures
        paired(put_block(s, blk, p)),
        distinct(put_block(s, blk, p)),
        nested(put_block(s, blk, p)),
        leading_count(put_block(s, blk, p)) == leading_count(s) + leading_count(blk),
{
    lemma_put_block_nested(s, blk, p);
    lemma_put_block_paired(s, blk, p);
    lemma_put_block_distinct(s, blk, p);
    lemma_leading_count_append(s.subrange(0, p), blk);
    lemma_leading_count_append(s.subrange(0, p) + blk, s.subrange(p, s.len() as int));
    lemma_leading_count_append(s.subrange(0, p), s.subrange(p, s.len() as int));
    assert(s.subrange(0, p) + s.subrange(p, s.len() as int) =~= s);
}

/// `s` without the stops at `i` and `j`, `i < j`.
pub open spec fn without_pair(s: Seq<RawCursor>, i: int, j: int) -> Seq<RawCursor> {
    s.remove(j).remove(i)
}

pub proof fn lemma_leading_count_remove(s: Seq<RawCursor>, i: int)
    requires
        0 <= i < s.len(),
    ensures
        leading_count(s) == leading_count(s.remove(i)) + if s[i].edge == ForestEdge::Leading {
            1nat
        } else {
            0nat
        },
{
    let a = s.subrange(0, i);
    let b = s.subrange(i + 1, s.len() as int);
    assert(s =~= a + seq![s[i]] + b);
    assert(s.remove(i) =~= a + b);
    lemma_leading_count_append(a + seq![s[i]], b);
    lemma_leading_count_append(a, seq![s[i]]);
    lemma_leading_count_append(a, b);
    assert(seq![s[i]].drop_last() =~= Seq::<RawCursor>::empty());
    assert(leading_count(Seq::<RawCursor>::empty()) == 0);
    assert(leading_count(seq![s[i]]) == leading_count(seq![s[i]].drop_last()) + if s[i].edge
        == ForestEdge::Leading {
        1nat
    } else {
        0nat
    });
}

/// Where each stop of `without_pair(s, i, j)` came from; none of them is
/// of the removed node.
proof fn lemma_without_pair_index(s: Seq<RawCursor>, i: int, j: int)
    requires
        0 <= i < j < s.len(),
        s[i] == lead(s[i].node),
        s[j] == trail(s[i].node),
        distinct(s),
    ensures
        without_pair(s, i, j).len() == s.len() - 2,
        forall|x: int|
            0 <= x < without_pair(s, i, j).len() ==> without_pair(s, i, j)[x] == s[
                if x < i { x } else if x < j - 1 { x + 1 } else { x + 2 }
            ] && #[trigger] without_pair(s, i, j)[x].node != s[i].node,
{
    let k = s[i].node;
    let t = without_pair(s, i, j);
    assert(t.len() == s.len() - 2);
    assert forall|x: int| 0 <= x < t.len() implies t[x] == s[
        if x < i { x } else if x < j - 1 { x + 1 } else { x + 2 }
    ] && #[trigger] t[x].node != k by {
        if x < i {
            assert(t[x] == s[x]);
            assert(s[x] != s[i] && s[x] != s[j]);
        } else if x < j - 1 {
            assert(t[x] == s[x + 1]);
            assert(s[x + 1] != s[i] && s[x + 1] != s[j]);
        } else {
            assert(t[x] == s[x + 2]);
            assert(s[x + 2] != s[i] && s[x + 2] != s[j]);
        }
    }
}

/// Taking both stops of one node out of a consistent sequence keeps it
/// consistent, with one node fewer.
pub proof fn lemma_remove_node(s: Seq<RawCursor>, i: int, j: int)
    requires
        0 <= i < j < s.len(),
        s[i] == lead(s[i].node),
        s[j] == trail(s[i].node),
        paired(s),
        distinct(s),
        nested(s),
    ensures
        paired(without_pair(s, i, j)),
        distinct(without_pair(s, i, j)),
        nested(without_pair(s, i, j)),
        leading_count(without_pair(s, i, j)) + 1 == leading_count(s),
        without_pair(s, i, j).len() + 2 == s.len(),
        forall|x: int| 0 <= x < i ==> #[trigger] without_pair(s, i, j)[x] == s[x],
        forall|x: int| i <= x < j - 1 ==> #[trigger] without_pair(s, i, j)[x] == s[x + 1],
        forall|x: int| j - 1 <= x < s.len() - 2 ==> #[trigger] without_pair(s, i, j)[x] == s[x + 2],
{
    let k = s[i].node;
    let t = without_pair(s, i, j);
    assert(t.len() == s.len() - 2);
    lemma_without_pair_index(s, i, j);
    assert forall|x: int|
        0 <= x < t.len() && t[x].edge == ForestEdge::Leading implies #[trigger] trail_after(t, x) by {
        let y = if x < i { x } else if x < j - 1 { x + 1 } else { x + 2 };
        assert(t[x].node != k);
        assert(trail_after(s, y));
        let z = choose|z: int| y < z < s.len() && #[trigger] s[z] == trail(s[y].node);
        assert(z != i && z != j);
        let w = if z < i { z } else if z < j { z - 1 } else { z - 2 };
        assert(t[w] == s[z]);
    }
    assert forall|x: int|
        0 <= x < t.len() && t[x].edge == ForestEdge::Trailing implies #[trigger] lead_before(t, x) by {
        let y = if x < i { x } else if x < j - 1 { x + 1 } else { x + 2 };
        assert(t[x].node != k);
        assert(lead_before(s, y));
        let z = choose|z: int| 0 <= z < y && #[trigger] s[z] == lead(s[y].node);
        assert(z != i && z != j);
        let w = if z < i { z } else if z < j { z - 1 } else { z - 2 };
        assert(t[w] == s[z]);
    }
    assert forall|a: int, b: int| 0 <= a < b < t.len() implies #[trigger] t[a] != #[trigger] t[b] by {
        let ya = if a < i { a } else if a < j - 1 { a + 1 } else { a + 2 };
        let yb = if b < i { b } else if b < j - 1 { b + 1 } else { b + 2 };
        assert(s[ya] != s[yb]);
    }
    assert forall|a: int, b: int, c: int, d: int| 0 <= a < b < c < d < t.len() implies !#[trigger] crossing(
        t,
        a,
        b,
        c,
        d,
    ) by {
        let src = |x: int| if x < i { x } else if x < j - 1 { x + 1 } else { x + 2 };
        assert(!crossing(s, src(a), src(b), src(c), src(d)));
    }
    lemma_leading_count_remove(s, j);
    lemma_leading_count_remove(s.remove(j), i);
}

/// `s` with every node number moved up by `off`.
pub open spec fn shifted(s: Seq<RawCursor>, off: int) -> Seq<RawCursor> {
    s.map_values(|c: RawCursor| RawCursor { node: (c.node + off) as usize, edge: c.edge })
}

/// Renumbering the nodes keeps a sequence consistent and its node count.
pub proof fn lemma_shifted(s: Seq<RawCursor>, off: int)
    requires
        paired(s),
        distinct(s),
        nested(s),
        off >= 0,
        forall|i: int| 0 <= i < s.len() ==> #[trigger] s[i].node + off <= usize::MAX,
    ensures
        paired(shifted(s, off)),
        distinct(shifted(s, off)),
        nested(shifted(s, off)),
        leading_count(shifted(s, off)) == leading_count(s),
    decreases s.len(),
{
    let t = shifted(s, off);
    assert forall|i: int| 0 <= i < s.len() implies (#[trigger] t[i]).node == s[i].node + off
        && t[i].edge == s[i].edge by {
        assert(s[i].node + off <= usize::MAX);
    }
    assert forall|x: int|
        0 <= x < t.len() && t[x].edge == ForestEdge::Leading implies #[trigger] trail_after(t, x) by {
        assert(t[x].node == s[x].node + off);
        assert(trail_after(s, x));
        let z = choose|z: int| x < z < s.len() && #[trigger] s[z] == trail(s[x].node);
        assert(t[z].node == s[z].node + off);
    }
    assert forall|x: int|
        0 <= x < t.len() && t[x].edge == ForestEdge::Trailing implies #[trigger] lead_before(t, x) by {
        assert(t[x].node == s[x].node + off);
        assert(lead_before(s, x));
        let z = choose|z: int| 0 <= z < x && #[trigger] s[z] == lead(s[x].node);
        assert(t[z].node == s[z].node + off);
    }
    assert forall|a: int, b: int| 0 <= a < b < t.len() implies #[trigger] t[a] != #[trigger] t[b] by {
        assert(s[a] != s[b]);
        assert(t[a].node == s[a].node + off);
        assert(t[b].node == s[b].node + off);
    }
    assert forall|a: int, b: int, c: int, d: int| 0 <= a < b < c < d < t.len() implies !#[trigger] crossing(
        t,
        a,
        b,
        c,
        d,
    ) by {
        assert(!crossing(s, a, b, c, d));
    }
    if s.len() > 0 {
        let d = s.drop_last();
        assert forall|i: int| 0 <= i < d.len() implies #[trigger] d[i].node + off <= usize::MAX by {
            assert(d[i] == s[i]);
        }
        lemma_count_shifted(s, off);
    }
}

proof fn lemma_count_shifted(s: Seq<RawCursor>, off: int)
    ensures
        leading_count(shifted(s, off)) == leading_count(s),
    decreases s.len(),
{
    if s.len() > 0 {
        lemma_count_shifted(s.drop_last(), off);
        assert(shifted(s, off).drop_last() =~= shifted(s.drop_last(), off));
    }
}

/// The trailing edge of the node of `s[x]` stands in `(x, hi)`.
pub open spec fn trail_within(s: Seq<RawCursor>, x: int, hi: int) -> bool {
    exists|j: int| x < j < hi && s[j] == trail(s[x].node)
}

/// In a sequence without repeats, the index of a value is where it stands.
pub proof fn lemma_index_of_distinct(s: Seq<RawCursor>, i: int)
    requires
        0 <= i < s.len(),
        forall|a: int, b: int| 0 <= a < b < s.len() ==> s[a] != s[b],
    ensures
        s.index_of(s[i]) == i,
{
    assert(s.contains(s[i]));
    let k = s.index_of(s[i]);
    assert(0 <= k < s.len() && s[k] == s[i]);
}

/// A consistent sequence with a stop in it has a node.
pub proof fn lemma_paired_count(s: Seq<RawCursor>)
    requires
        paired(s),
        s.len() > 0,
    ensures
        leading_count(s) >= 1,
{
    if s[0].edge == ForestEdge::Trailing {
        assert(lead_before(s, 0));
    }
    let a = s.subrange(0, 1);
    let b = s.subrange(1, s.len() as int);
    assert(s =~= a + b);
    lemma_leading_count_append(a, b);
    assert(a.drop_last() =~= Seq::<RawCursor>::empty());
    assert(leading_count(Seq::<RawCursor>::empty()) == 0);
}

/// Every leading edge in `s[lo..hi]` has its trailing edge there too.
pub open spec fn leads_closed(s: Seq<RawCursor>, lo: int, hi: int) -> bool {
    forall|x: int| lo <= x < hi && s[x].edge == ForestEdge::Leading ==> #[trigger] trail_within(s, x, hi)
}

/// `c` is the trailing edge of a node that begins before `seg`.
pub open spec fn outer(seg: Seq<RawCursor>, c: RawCursor) -> bool {
    c.edge == ForestEdge::Trailing && !seg.contains(lead(c.node))
}

/// The stops of `seg` that stay when `seg` is erased: the trailing edges of
/// nodes that began before it.
pub open spec fn kept(seg: Seq<RawCursor>) -> Seq<RawCursor> {
    seg.filter(|c: RawCursor| outer(seg, c))
}

/// While walking `seg` up to `q`, `pp` holds exactly the leading edges seen
/// whose trailing edges are still ahead.
#[verifier::opaque]
pub open spec fn pending_ok(seg: Seq<RawCursor>, q: int, pp: Seq<RawCursor>) -> bool {
    &&& forall|y: int|
        0 <= y < pp.len() ==> (#[trigger] pp[y]).edge == ForestEdge::Leading && seg.subrange(0, q).contains(pp[y])
            && !seg.subrange(0, q).contains(trail(pp[y].node))
    &&& forall|m: int|
        0 <= m < q && seg[m].edge == ForestEdge::Leading && !seg.subrange(0, q).contains(trail(seg[m].node))
            ==> pp.contains(#[trigger] seg[m])
}

/// A leading edge whose trailing edge is ahead joins the pending ones.
pub proof fn lemma_pending_push(seg: Seq<RawCursor>, q: int, pp: Seq<RawCursor>)
    requires
        0 <= q < seg.len(),
        pending_ok(seg, q, pp),
        seg[q].edge == ForestEdge::Leading,
        !seg.subrange(0, q + 1).contains(trail(seg[q].node)),
    ensures
        pending_ok(seg, q + 1, pp.push(seg[q])),
{
    reveal(pending_ok);
    let t = seg[q];
    let np = pp.push(t);
    assert forall|m: int| 0 <= m < q + 1 && seg[m].edge == ForestEdge::Leading && !seg.subrange(0, q + 1).contains(
        trail(seg[m].node)) implies np.contains(#[trigger] seg[m]) by {
        if m < q {
            if seg.subrange(0, q).contains(trail(seg[m].node)) {
                let w = choose|w: int| 0 <= w < q && #[trigger] seg.subrange(0, q)[w] == trail(seg[m].node);
                assert(seg.subrange(0, q + 1)[w] == trail(seg[m].node));
            }
            let w = choose|w: int| 0 <= w < pp.len() && #[trigger] pp[w] == seg[m];
            assert(np[w] == seg[m]);
        } else {
            assert(np[pp.len() as int] == seg[m]);
        }
    }
    assert forall|y: int| 0 <= y < np.len() implies (#[trigger] np[y]).edge == ForestEdge::Leading
        && seg.subrange(0, q + 1).contains(np[y]) && !seg.subrange(0, q + 1).contains(trail(np[y].node)) by {
        if y < pp.len() {
            assert(np[y] == pp[y]);
            let w = choose|w: int| 0 <= w < q && #[trigger] seg.subrange(0, q)[w] == pp[y];
            assert(seg.subrange(0, q + 1)[w] == pp[y]);
            if seg.subrange(0, q + 1).contains(trail(pp[y].node)) {
                let v = choose|v: int| 0 <= v < q + 1 && #[trigger] seg.subrange(0, q + 1)[v] == trail(pp[y].node);
                if v < q {
                    assert(seg.subrange(0, q)[v] == trail(pp[y].node));
                } else {
                    assert(seg[q] == t);
                }
            }
        } else {
            assert(seg.subrange(0, q + 1)[q] == t);
        }
    }
}

/// The trailing edge of a pending node closes it: it leaves the pending ones.
pub proof fn lemma_pending_close(seg: Seq<RawCursor>, q: int, pp: Seq<RawCursor>, idx: int)
    requires
        0 <= q < seg.len(),
        pending_ok(seg, q, pp),
        distinct(pp),
        0 <= idx < pp.len(),
        pp[idx] == lead(seg[q].node),
        seg[q].edge == ForestEdge::Trailing,
    ensures
        pending_ok(seg, q + 1, pp.remove(idx)),
{
    reveal(pending_ok);
    let t = seg[q];
    let np = pp.remove(idx);
    assert forall|y: int| 0 <= y < np.len() implies (#[trigger] np[y]).edge == ForestEdge::Leading
        && seg.subrange(0, q + 1).contains(np[y]) && !seg.subrange(0, q + 1).contains(trail(np[y].node)) by {
        let oy = if y < idx { y } else { y + 1 };
        assert(np[y] == pp[oy]);
        if oy < idx {
            assert(pp[oy] != pp[idx]);
        } else {
            assert(pp[idx] != pp[oy]);
        }
        let w = choose|w: int| 0 <= w < q && #[trigger] seg.subrange(0, q)[w] == pp[oy];
        assert(seg.subrange(0, q + 1)[w] == pp[oy]);
        if seg.subrange(0, q + 1).contains(trail(np[y].node)) {
            let v = choose|v: int| 0 <= v < q + 1 && #[trigger] seg.subrange(0, q + 1)[v] == trail(np[y].node);
            if v < q {
                assert(seg.subrange(0, q)[v] == trail(np[y].node));
            } else {
                assert(t == trail(np[y].node));
            }
        }
    }
    assert forall|m: int| 0 <= m < q + 1 && seg[m].edge == ForestEdge::Leading && !seg.subrange(0, q + 1).contains(
        trail(seg[m].node)) implies np.contains(#[trigger] seg[m]) by {
        if seg.subrange(0, q).contains(trail(seg[m].node)) {
            let w = choose|w: int| 0 <= w < q && #[trigger] seg.subrange(0, q)[w] == trail(seg[m].node);
            assert(seg.subrange(0, q + 1)[w] == trail(seg[m].node));
        }
        assert(seg.subrange(0, q + 1)[q] == t);
        assert(seg[m] != lead(t.node));
        let w = choose|w: int| 0 <= w < pp.len() && #[trigger] pp[w] == seg[m];
        assert(w != idx);
        let nw = if w < idx { w } else { w - 1 };
        assert(np[nw] == seg[m]);
    }
}

/// The trailing edge of a node that began before `seg` leaves the pending
/// ones as they are.
pub proof fn lemma_pending_outer(seg: Seq<RawCursor>, q: int, pp: Seq<RawCursor>)
    requires
        0 <= q < seg.len(),
        pending_ok(seg, q, pp),
        outer(seg, seg[q]),
    ensures
        pending_ok(seg, q + 1, pp),
{
    reveal(pending_ok);
    assert forall|m: int| 0 <= m < q + 1 && seg[m].edge == ForestEdge::Leading && !seg.subrange(0, q + 1).contains(
        trail(seg[m].node)) implies pp.contains(#[trigger] seg[m]) by {
        assert(m < q);
        if seg.subrange(0, q).contains(trail(seg[m].node)) {
            let w = choose|w: int| 0 <= w < q && #[trigger] seg.subrange(0, q)[w] == trail(seg[m].node);
            assert(seg.subrange(0, q + 1)[w] == trail(seg[m].node));
        }
    }
    assert forall|y: int| 0 <= y < pp.len() implies (#[trigger] pp[y]).edge == ForestEdge::Leading
        && seg.subrange(0, q + 1).contains(pp[y]) && !seg.subrange(0, q + 1).contains(trail(pp[y].node)) by {
        let w = choose|w: int| 0 <= w < q && #[trigger] seg.subrange(0, q)[w] == pp[y];
        assert(seg.subrange(0, q + 1)[w] == pp[y]);
        if seg.subrange(0, q + 1).contains(trail(pp[y].node)) {
            let v = choose|v: int| 0 <= v < q + 1 && #[trigger] seg.subrange(0, q + 1)[v] == trail(pp[y].node);
            if v < q {
                assert(seg.subrange(0, q)[v] == trail(pp[y].node));
            } else {
                assert(seg[q] == trail(pp[y].node));
                assert(seg[w] == pp[y]);
            }
        }
    }
}

/// Facts the walk reads off the pending ones.
pub proof fn lemma_pending_facts(seg: Seq<RawCursor>, q: int, pp: Seq<RawCursor>, y: int, m: int)
    requires
        pending_ok(seg, q, pp),
    ensures
        0 <= y < pp.len() ==> pp[y].edge == ForestEdge::Leading && seg.subrange(0, q).contains(pp[y])
            && !seg.subrange(0, q).contains(trail(pp[y].node)),
        0 <= m < q && seg[m].edge == ForestEdge::Leading && !seg.subrange(0, q).contains(trail(seg[m].node))
            ==> pp.contains(seg[m]),
{
    reveal(pending_ok);
}

/// In a whole consistent sequence every leading edge has its trailing edge
/// after it, and no stop is kept when all of it is erased.
pub proof fn lemma_paired_whole(s: Seq<RawCursor>)
    requires
        paired(s),
    ensures
        leads_closed(s, 0, s.len() as int),
        kept(s) == Seq::<RawCursor>::empty(),
{
    assert forall|x: int| 0 <= x < s.len() && s[x].edge == ForestEdge::Leading implies
        #[trigger] trail_within(s, x, s.len() as int) by {
        assert(trail_after(s, x));
    }
    assert forall|x: int| 0 <= x < s.len() implies !outer(s, #[trigger] s[x]) by {
        if s[x].edge == ForestEdge::Trailing {
            assert(lead_before(s, x));
            let j = choose|j: int| 0 <= j < x && #[trigger] s[j] == lead(s[x].node);
            assert(s.contains(s[j]));
        }
    }
    lemma_filter_none(s, s);
}

proof fn lemma_filter_none(t: Seq<RawCursor>, s: Seq<RawCursor>)
    requires
        forall|x: int| 0 <= x < t.len() ==> !outer(s, #[trigger] t[x]),
    ensures
        t.filter(|c: RawCursor| outer(s, c)) == Seq::<RawCursor>::empty(),
    decreases t.len(),
{
    reveal(Seq::filter);
    if t.len() > 0 {
        let d = t.drop_last();
        assert forall|x: int| 0 <= x < d.len() implies !outer(s, #[trigger] d[x]) by {
            assert(d[x] == t[x]);
        }
        lemma_filter_none(d, s);
        assert(!outer(s, t[t.len() - 1]));
    } else {
        assert(t =~= Seq::<RawCursor>::empty());
    }
}

} // verus!
