//! Counting edges: a merge leaves a lattice with no more edges than it had.

use vstd::prelude::*;
use vstd::set_lib::{lemma_len_subset, lemma_len_union, lemma_map_size_bound};
use crate::edge::{EdgeView, sorted, lemma_sorted_distinct};
use crate::lattice::edge_count;
use crate::merge::{merged_backward, mergeable, oriented};
use crate::node::NodeView;

verus! {

/// The sum of the numbers.
pub open spec fn total(s: Seq<nat>) -> nat
    decreases s.len(),
{
    if s.len() == 0 {
        0
    } else {
        total(s.drop_last()) + s.last()
    }
}

pub proof fn lemma_total_update(s: Seq<nat>, i: int, v: nat)
    requires
        0 <= i < s.len(),
    ensures
        total(s.update(i, v)) == total(s) - s[i] + v,
    decreases s.len(),
{
    let u = s.update(i, v);
    if i == s.len() - 1 {
        assert(u.drop_last() =~= s.drop_last());
    } else {
        assert(u.drop_last() =~= s.drop_last().update(i, v));
        lemma_total_update(s.drop_last(), i, v);
    }
}

pub proof fn lemma_total_le(s: Seq<nat>, t: Seq<nat>)
    requires
        s.len() == t.len(),
        forall|i: int| 0 <= i < s.len() ==> s[i] <= t[i],
    ensures
        total(s) <= total(t),
    decreases s.len(),
{
    if s.len() > 0 {
        lemma_total_le(s.drop_last(), t.drop_last());
    }
}

/// The number of outgoing edges of every node; of incoming edges, where
/// `forward` is not set.
pub open spec fn side_lens(g: Seq<NodeView>, forward: bool) -> Seq<nat> {
    Seq::new(
        g.len(),
        |i: int|
            if forward {
                g[i].forwards.len()
            } else {
                g[i].backwards.len()
            },
    )
}

/// The number of edges is the sum of the numbers of outgoing edges.
pub proof fn lemma_edge_count_total(g: Seq<NodeView>)
    ensures
        edge_count(g) == total(side_lens(g, true)),
    decreases g.len(),
{
    if g.len() > 0 {
        lemma_edge_count_total(g.drop_last());
        assert(side_lens(g, true).drop_last() =~= side_lens(g.drop_last(), true));
    }
}

/// An edge set whose edges are all in another is no larger.
pub proof fn lemma_subset_len(a: Seq<EdgeView>, b: Seq<EdgeView>)
    requires
        sorted(a),
        sorted(b),
        forall|e: EdgeView| a.contains(e) ==> b.contains(e),
    ensures
        a.len() <= b.len(),
{
    lemma_sorted_unique_len(a);
    lemma_sorted_unique_len(b);
    vstd::seq_lib::seq_to_set_is_finite(b);
    assert(a.to_set().subset_of(b.to_set())) by {
        assert forall|e: EdgeView| a.to_set().contains(e) implies b.to_set().contains(e) by {
            assert(a.contains(e));
            assert(b.contains(e));
        }
    }
    lemma_len_subset(a.to_set(), b.to_set());
}

/// An edge set has as many edges as the set of its edges.
pub proof fn lemma_sorted_unique_len(a: Seq<EdgeView>)
    requires
        sorted(a),
    ensures
        a.len() == a.to_set().len(),
        a.to_set().finite(),
{
    assert(a.no_duplicates()) by {
        assert forall|i: int, j: int| 0 <= i < a.len() && 0 <= j < a.len() && i != j implies a[i]
            != a[j] by {
            if a[i] == a[j] {
                lemma_sorted_distinct(a, i, j);
            }
        }
    }
    a.unique_seq_to_set();
    vstd::seq_lib::seq_to_set_is_finite(a);
}

/// An edge set whose edges are all in one of two others is no larger than
/// the two together.
pub proof fn lemma_union_len(a: Seq<EdgeView>, b: Seq<EdgeView>, c: Seq<EdgeView>)
    requires
        sorted(a),
        sorted(b),
        sorted(c),
        forall|e: EdgeView| a.contains(e) ==> b.contains(e) || c.contains(e),
    ensures
        a.len() <= b.len() + c.len(),
{
    lemma_sorted_unique_len(a);
    lemma_sorted_unique_len(b);
    lemma_sorted_unique_len(c);
    let u = b.to_set().union(c.to_set());
    lemma_len_union(b.to_set(), c.to_set());
    assert(a.to_set().subset_of(u)) by {
        assert forall|e: EdgeView| a.to_set().contains(e) implies u.contains(e) by {
            assert(a.contains(e));
            if b.contains(e) {
                assert(b.to_set().contains(e));
            } else {
                assert(c.to_set().contains(e));
            }
        }
    }
    vstd::set_lib::lemma_set_union_finite_iff(b.to_set(), c.to_set());
    lemma_len_subset(a.to_set(), u);
}

/// An edge set whose edges are all edges of another with a node replaced is
/// no larger.
pub proof fn lemma_renamed_len(a: Seq<EdgeView>, b: Seq<EdgeView>, to: int, from: int)
    requires
        sorted(a),
        sorted(b),
        forall|e: EdgeView|
            a.contains(e) ==> (b.contains(e) && e.1 != from) || (e.1 == to && b.contains(
                (e.0, from),
            )),
    ensures
        a.len() <= b.len(),
{
    lemma_sorted_unique_len(a);
    lemma_sorted_unique_len(b);
    let f = |e: EdgeView|
        if e.1 == from {
            (e.0, to)
        } else {
            e
        };
    let image = b.to_set().map(f);
    lemma_map_size_bound(b.to_set(), image, f);
    assert(a.to_set().subset_of(image)) by {
        assert forall|e: EdgeView| a.to_set().contains(e) implies image.contains(e) by {
            assert(a.contains(e));
            if b.contains(e) && e.1 != from {
                assert(b.to_set().contains(e));
                assert(f(e) == e);
            } else {
                assert(b.to_set().contains((e.0, from)));
                assert(f((e.0, from)) == e);
            }
        }
    }
    lemma_len_subset(a.to_set(), image);
}

/// Where one node has given its edges to another and no other node has got
/// more, the graph has no more edges.
pub proof fn lemma_side_total(lg: Seq<nat>, lh: Seq<nat>, a: int, b: int)
    requires
        lh.len() == lg.len(),
        0 <= a < lg.len(),
        0 <= b < lg.len(),
        a != b,
        lh[b] == 0,
        lh[a] <= lg[a] + lg[b],
        forall|x: int| 0 <= x < lg.len() && x != a && x != b ==> lh[x] <= lg[x],
    ensures
        total(lh) <= total(lg),
{
    let m1 = lg.update(a, lg[a] + lg[b]);
    let m2 = m1.update(b, 0);
    lemma_total_update(lg, a, lg[a] + lg[b]);
    lemma_total_update(m1, b, 0);
    lemma_total_le(lh, m2);
}

/// A merge by incoming edges leaves no more outgoing and no more incoming
/// edges than there were.
pub proof fn lemma_merged_counts(g: Seq<NodeView>, h: Seq<NodeView>, a: int, b: int)
    requires
        mergeable(g, a, b),
        merged_backward(g, h, a, b),
    ensures
        total(side_lens(h, true)) <= total(side_lens(g, true)),
        total(side_lens(h, false)) <= total(side_lens(g, false)),
{
    let fg = side_lens(g, true);
    let fh = side_lens(h, true);
    let bg = side_lens(g, false);
    let bh = side_lens(h, false);
    assert(sorted(g[a].forwards) && sorted(g[a].backwards));
    assert(sorted(g[b].forwards) && sorted(g[b].backwards));
    assert(sorted(h[a].forwards) && sorted(h[a].backwards));
    lemma_union_len(h[a].forwards, g[a].forwards, g[b].forwards);
    assert forall|x: int| 0 <= x < g.len() && x != a && x != b implies fh[x] <= fg[x] && bh[x]
        <= bg[x] by {
        assert(sorted(g[x].forwards) && sorted(g[x].backwards));
        assert(sorted(h[x].forwards) && sorted(h[x].backwards));
        assert forall|e: EdgeView| h[x].forwards.contains(e) implies g[x].forwards.contains(e) by {}
        lemma_subset_len(h[x].forwards, g[x].forwards);
        assert forall|e: EdgeView| h[x].backwards.contains(e) implies (g[x].backwards.contains(e)
            && e.1 != b) || (e.1 == a && g[x].backwards.contains((e.0, b))) by {}
        lemma_renamed_len(h[x].backwards, g[x].backwards, a, b);
    }
    lemma_side_total(fg, fh, a, b);
    lemma_side_total(bg, bh, a, b);
}

/// A merge by incoming edges leaves no more edges than there were.
pub proof fn lemma_merged_backward_count(g: Seq<NodeView>, h: Seq<NodeView>, a: int, b: int)
    requires
        mergeable(g, a, b),
        merged_backward(g, h, a, b),
    ensures
        edge_count(h) <= edge_count(g),
{
    lemma_merged_counts(g, h, a, b);
    lemma_edge_count_total(g);
    lemma_edge_count_total(h);
}

/// A merge by outgoing edges leaves no more edges than there were.
pub proof fn lemma_merged_forward_count(g: Seq<NodeView>, h: Seq<NodeView>, a: int, b: int)
    requires
        mergeable(oriented(g, false), a, b),
        merged_backward(oriented(g, false), oriented(h, false), a, b),
    ensures
        edge_count(h) <= edge_count(g),
{
    let og = oriented(g, false);
    let oh = oriented(h, false);
    lemma_merged_counts(og, oh, a, b);
    lemma_edge_count_total(g);
    lemma_edge_count_total(h);
    assert(side_lens(og, false) =~= side_lens(g, true));
    assert(side_lens(oh, false) =~= side_lens(h, true));
}

} // verus!
