//! Why the search finds every occurrence: walks from the source, what the
//! scan has matched at the end of a walk, and how the entries of the search
//! queue stand for walks.

use vstd::prelude::*;
use crate::edge::EdgeView;
use crate::lattice::{valid_nodes, node_linked, backward_edge_ok};
use crate::lattice_kmp::{
    is_border, longest_border, is_match, step_ok, item_ok, tail, next_candidate,
};
use crate::node::NodeView;
use crate::trunk::no_token;

verus! {

/// Entry `t` of a walk is an edge out of the node before it.
pub open spec fn link_ok(g: Seq<NodeView>, w: Seq<EdgeView>, t: int) -> bool {
    &&& 0 <= w[t - 1].1 < g.len()
    &&& 0 <= w[t].1 < g.len()
    &&& g[w[t - 1].1].forwards.contains(w[t])
}

/// A walk from the source: a start mark at node 0, then edges that follow
/// one another.
pub open spec fn walk_ok(g: Seq<NodeView>, w: Seq<EdgeView>) -> bool {
    &&& w.len() >= 1
    &&& w[0] == (no_token(), 0int)
    &&& forall|t: int| 1 <= t < w.len() ==> #[trigger] link_ok(g, w, t)
}

/// The `t`-th of the last `k` entries of `w`.
pub open spec fn nth_back(w: Seq<EdgeView>, k: int, t: int) -> EdgeView {
    w[w.len() - k + t]
}

/// The last `k` edges of the walk spell the first `k` tokens of `p`.
pub open spec fn ends_with(p: Seq<Seq<char>>, w: Seq<EdgeView>, k: int) -> bool {
    &&& 0 <= k < w.len()
    &&& k <= p.len()
    &&& forall|t: int| 0 <= t < k ==> (#[trigger] nth_back(w, k, t)).0 == p[t]
}

/// What the scan has matched at the end of the walk: `j` is the largest
/// number below the length of `p` such that the walk ends with the first `j`
/// tokens of `p`.
pub open spec fn kmp_state(p: Seq<Seq<char>>, w: Seq<EdgeView>, j: int) -> bool {
    &&& ends_with(p, w, j)
    &&& j < p.len()
    &&& forall|k: int| j < k < p.len() ==> !#[trigger] ends_with(p, w, k)
}

/// The candidate of a queue entry has one entry more than is matched; or
/// nothing is matched and it holds a start mark and an edge that does not
/// begin `p`.
pub open spec fn shape(p: Seq<Seq<char>>, j: int, cand: Seq<EdgeView>) -> bool {
    cand.len() == j + 1 || (j == 0 && cand.len() == 2 && p.len() >= 1 && cand[1].0 != p[0])
}

/// A queue entry as a plain value: the node, the number of tokens matched,
/// and the candidate.
pub type ItemView = (int, int, Seq<EdgeView>);

/// The queue entry stands for the walk: the walk ends at its node, it holds
/// what the scan has matched at the end of the walk, and its candidate ends
/// with the walk's last matched edges behind the node where they begin.
pub open spec fn represents(p: Seq<Seq<char>>, w: Seq<EdgeView>, item: ItemView) -> bool {
    let (node, j, cand) = item;
    &&& w.last().1 == node
    &&& kmp_state(p, w, j)
    &&& cand.len() >= j + 1
    &&& cand[cand.len() - j - 1].1 == w[w.len() - j - 1].1
    &&& forall|t: int| 0 <= t < j ==> #[trigger] nth_back(cand, j, t) == nth_back(w, j, t)
}

/// Some entry of the list stands for the walk.
pub open spec fn covered(p: Seq<Seq<char>>, w: Seq<EdgeView>, seen: Seq<ItemView>) -> bool {
    exists|i: int| 0 <= i < seen.len() && represents(p, w, #[trigger] seen[i])
}

/// The occurrence at the end of a walk that ends with all `m` tokens of `p`.
pub open spec fn match_path(w: Seq<EdgeView>, m: int) -> Seq<EdgeView> {
    seq![(no_token(), w[w.len() - m - 1].1)] + w.subrange(w.len() - m, w.len() as int)
}

/// One of the paths is `path`.
pub open spec fn found(results: Seq<Seq<EdgeView>>, path: Seq<EdgeView>) -> bool {
    exists|r: int| 0 <= r < results.len() && #[trigger] results[r] == path
}

/// Two queue entries in order with the same candidate have matched the same
/// number of tokens.
pub proof fn lemma_same_candidate(
    g: Seq<NodeView>,
    p: Seq<Seq<char>>,
    a: ItemView,
    b: ItemView,
)
    requires
        item_ok(g, p, a.0, a.1, a.2),
        item_ok(g, p, b.0, b.1, b.2),
        shape(p, a.1, a.2),
        shape(p, b.1, b.2),
        a.2 == b.2,
    ensures
        a.1 == b.1,
        a.0 == b.0,
{
    let c = a.2;
    if a.1 != b.1 {
        if a.1 == 0 && c.len() == 2 && b.1 == 1 {
            let s = tail(c, 1);
            assert(s =~= c);
            assert(step_ok(g, p, s, 1));
        }
        if b.1 == 0 && c.len() == 2 && a.1 == 1 {
            let s = tail(c, 1);
            assert(s =~= c);
            assert(step_ok(g, p, s, 1));
        }
    }
}

/// A walk that ends with `j` tokens of `p` ends with every border of them.
pub proof fn lemma_ends_with_border(p: Seq<Seq<char>>, w: Seq<EdgeView>, j: int, k: int)
    requires
        ends_with(p, w, j),
        j >= 1,
        is_border(p, j - 1, k),
    ensures
        ends_with(p, w, k),
{
    assert forall|t: int| 0 <= t < k implies (#[trigger] nth_back(w, k, t)).0 == p[t] by {
        assert(nth_back(w, k, t) == nth_back(w, j, j - k + t));
        assert(p[t] == p[(j - 1) + 1 - k + t]);
    }
}

/// Of two ends of a walk that spell the beginning of `p`, the shorter is a
/// border of the longer.
pub proof fn lemma_ends_border(p: Seq<Seq<char>>, w: Seq<EdgeView>, j: int, k: int)
    requires
        ends_with(p, w, j),
        ends_with(p, w, k),
        0 <= k < j,
    ensures
        is_border(p, j - 1, k),
{
    assert forall|t: int| 0 <= t < k implies p[t] == #[trigger] p[(j - 1) + 1 - k + t] by {
        assert(nth_back(w, k, t) == nth_back(w, j, j - k + t));
    }
}

/// What was matched before an edge and the edge's token decide what is
/// matched behind it.
pub open spec fn advance_ok(p: Seq<Seq<char>>, j: int, tok: Seq<char>, j1: int) -> bool {
    &&& 0 <= j1 <= j + 1
    &&& j1 >= 1 ==> tok == p[j1 - 1] && (j1 - 1 == j || is_border(p, j - 1, j1 - 1))
    &&& forall|k: int|
        #![trigger p[k - 1]]
        j1 < k <= j + 1 && (k - 1 == j || is_border(p, j - 1, k - 1)) ==> tok != p[k - 1]
}

/// Behind an edge, the walk ends with `j1` tokens of `p` and with no more.
pub proof fn lemma_advance(
    p: Seq<Seq<char>>,
    w: Seq<EdgeView>,
    j: int,
    e: EdgeView,
    j1: int,
)
    requires
        kmp_state(p, w, j),
        advance_ok(p, j, e.0, j1),
    ensures
        ends_with(p, w.push(e), j1),
        forall|k: int| j1 < k <= p.len() ==> !#[trigger] ends_with(p, w.push(e), k),
{
    let w1 = w.push(e);
    if j1 >= 1 {
        if j1 - 1 != j {
            lemma_ends_with_border(p, w, j, j1 - 1);
        }
        assert forall|t: int| 0 <= t < j1 implies (#[trigger] nth_back(w1, j1, t)).0 == p[t] by {
            if t < j1 - 1 {
                assert(nth_back(w1, j1, t) == nth_back(w, j1 - 1, t));
            }
        }
    }
    assert forall|k: int| j1 < k <= p.len() implies !#[trigger] ends_with(p, w1, k) by {
        if ends_with(p, w1, k) {
            assert(nth_back(w1, k, k - 1) == e);
            assert(e.0 == p[k - 1]);
            assert forall|t: int| 0 <= t < k - 1 implies (#[trigger] nth_back(w, k - 1, t)).0
                == p[t] by {
                assert(nth_back(w, k - 1, t) == nth_back(w1, k, t));
            }
            assert(ends_with(p, w, k - 1));
            if k - 1 > j {
                assert(!ends_with(p, w, k - 1));
            } else if k - 1 < j {
                lemma_ends_border(p, w, j, k - 1);
            }
        }
    }
}

/// After an occurrence, the walk ends with the longest border of `p` and
/// with nothing longer that is shorter than `p`.
pub proof fn lemma_slide_state(p: Seq<Seq<char>>, w: Seq<EdgeView>, j: int)
    requires
        p.len() >= 1,
        ends_with(p, w, p.len() as int),
        longest_border(p, p.len() - 1, j),
    ensures
        kmp_state(p, w, j),
{
    let m = p.len() as int;
    lemma_ends_with_border(p, w, m, j);
    assert forall|k: int| j < k < m implies !#[trigger] ends_with(p, w, k) by {
        if ends_with(p, w, k) {
            lemma_ends_border(p, w, m, k);
        }
    }
}

/// Every node of a lattice is reached by a walk from the source.
pub proof fn lemma_reach(g: Seq<NodeView>, i: int) -> (w: Seq<EdgeView>)
    requires
        valid_nodes(g),
        0 <= i < g.len(),
    ensures
        walk_ok(g, w),
        w.last().1 == i,
    decreases i,
{
    if i == 0 {
        seq![(no_token(), 0int)]
    } else {
        assert(node_linked(g, i));
        let e = g[i].backwards[0];
        assert(backward_edge_ok(g, i, g[i].backwards[0]));
        let w0 = lemma_reach(g, e.1);
        let w = w0.push((e.0, i));
        assert forall|t: int| 1 <= t < w.len() implies #[trigger] link_ok(g, w, t) by {
            if t < w0.len() {
                assert(link_ok(g, w0, t));
            }
        }
        w
    }
}

/// A walk to the start of an occurrence, followed by the occurrence, is a walk
/// that ends with `p`, and the occurrence is the one at its end.
pub proof fn lemma_walk_to_match(
    g: Seq<NodeView>,
    p: Seq<Seq<char>>,
    w0: Seq<EdgeView>,
    path: Seq<EdgeView>,
)
    requires
        walk_ok(g, w0),
        is_match(g, p, path),
        w0.last().1 == path[0].1,
    ensures
        walk_ok(g, w0 + path.drop_first()),
        ends_with(p, w0 + path.drop_first(), p.len() as int),
        match_path(w0 + path.drop_first(), p.len() as int) == path,
{
    let m = p.len() as int;
    let w = w0 + path.drop_first();
    assert forall|t: int| 1 <= t < w.len() implies #[trigger] link_ok(g, w, t) by {
        if t < w0.len() {
            assert(link_ok(g, w0, t));
        } else {
            let u = t - w0.len() + 1;
            assert(w[t] == path[u]);
            assert(step_ok(g, p, path, u));
            if u >= 2 {
                assert(w[t - 1] == path[u - 1]);
            } else {
                assert(w[t - 1] == w0.last());
            }
        }
    }
    assert forall|t: int| 0 <= t < m implies (#[trigger] nth_back(w, m, t)).0 == p[t] by {
        assert(nth_back(w, m, t) == path[t + 1]);
        assert(step_ok(g, p, path, t + 1));
    }
    assert(match_path(w, m) =~= path);
}

/// What following an edge from a queue entry leads to: the walk goes on, the
/// entry made for the edge's end stands for the longer walk, and the
/// occurrence that the edge completes, if it completes one, is the candidate
/// made behind the edge.
pub proof fn lemma_child(
    g: Seq<NodeView>,
    p: Seq<Seq<char>>,
    w: Seq<EdgeView>,
    x: ItemView,
    e: EdgeView,
    j1: int,
    j2: int,
    c2: Seq<EdgeView>,
)
    requires
        p.len() >= 1,
        walk_ok(g, w),
        represents(p, w, x),
        item_ok(g, p, x.0, x.1, x.2),
        0 <= x.0 < g.len(),
        g[x.0].forwards.contains(e),
        0 <= e.1 < g.len(),
        advance_ok(p, x.1, e.0, j1),
        j1 == p.len() ==> longest_border(p, p.len() - 1, j2) && c2 == tail(
            next_candidate(x.2, j1, e),
            j2,
        ),
        j1 != p.len() ==> j2 == j1 && c2 == next_candidate(x.2, j1, e),
    ensures
        walk_ok(g, w.push(e)),
        represents(p, w.push(e), (e.1, j2, c2)),
        shape(p, j2, c2),
        ends_with(p, w.push(e), p.len() as int) <==> j1 == p.len(),
        j1 == p.len() ==> match_path(w.push(e), p.len() as int) == next_candidate(x.2, j1, e),
{
    let m = p.len() as int;
    let j = x.1;
    let cand = x.2;
    let len = cand.len() as int;
    let big = w.len() as int;
    let w1 = w.push(e);
    let c1 = next_candidate(cand, j1, e);
    assert forall|t: int| 1 <= t < w1.len() implies #[trigger] link_ok(g, w1, t) by {
        if t < big {
            assert(link_ok(g, w, t));
        }
    }
    lemma_advance(p, w, j, e, j1);
    if j1 >= 1 {
        let k = len - (j1 - 1);
        assert(c1.len() == j1 + 1);
        assert forall|t: int| 0 <= t < j1 implies #[trigger] nth_back(c1, j1, t) == nth_back(
            w1,
            j1,
            t,
        ) by {
            if t < j1 - 1 {
                assert(nth_back(c1, j1, t) == cand[k + t]);
                assert(cand[k + t] == nth_back(cand, j, j - j1 + 1 + t));
                assert(nth_back(w, j, j - j1 + 1 + t) == nth_back(w1, j1, t));
            }
        }
        assert(c1[0].1 == cand[k - 1].1);
        if j1 - 1 < j {
            assert(cand[k - 1] == nth_back(cand, j, j - j1));
            assert(nth_back(w, j, j - j1) == w1[big - j1]);
        }
        assert(c1[c1.len() - j1 - 1].1 == w1[w1.len() - j1 - 1].1);
        if j1 == m {
            assert(match_path(w1, m) =~= c1) by {
                let mp = match_path(w1, m);
                assert(mp.len() == c1.len());
                assert forall|t: int| 0 <= t < mp.len() implies mp[t] == c1[t] by {
                    if t >= 1 {
                        assert(mp[t] == nth_back(w1, m, t - 1));
                        assert(c1[t] == nth_back(c1, m, t - 1));
                    }
                }
            }
            lemma_slide_state(p, w1, j2);
            assert(c2.len() == j2 + 1);
            assert forall|t: int| 0 <= t < j2 implies #[trigger] nth_back(c2, j2, t) == nth_back(
                w1,
                j2,
                t,
            ) by {
                assert(nth_back(c2, j2, t) == nth_back(c1, m, m - j2 + t));
                assert(nth_back(w1, m, m - j2 + t) == nth_back(w1, j2, t));
            }
            assert(c2[0] == nth_back(c1, m, m - j2 - 1));
            assert(nth_back(w1, m, m - j2 - 1) == w1[w1.len() - j2 - 1]);
        } else {
            assert(!ends_with(p, w1, m));
        }
    } else {
        assert(c1.len() == 2);
        assert(c1[1] == e);
        if ends_with(p, w1, m) {
            assert(!ends_with(p, w1, m));
        }
        if e.0 == p[0] {
            assert forall|t: int| 0 <= t < 1 implies (#[trigger] nth_back(w1, 1, t)).0 == p[t] by {
                assert(nth_back(w1, 1, 0) == e);
            }
            assert(ends_with(p, w1, 1));
            assert(!ends_with(p, w1, 1));
        }
    }
}

/// Some entry of the list has the candidate `c`.
pub open spec fn has_candidate(seen: Seq<ItemView>, c: Seq<EdgeView>) -> bool {
    exists|i: int| 0 <= i < seen.len() && (#[trigger] seen[i]).2 == c
}

/// The entries that were queued so far are in order, and every candidate
/// that was noted is the candidate of one of them.
pub open spec fn seen_ok(
    g: Seq<NodeView>,
    p: Seq<Seq<char>>,
    seen: Seq<ItemView>,
    added: Seq<Seq<EdgeView>>,
) -> bool {
    &&& forall|i: int|
        0 <= i < seen.len() ==> item_ok(g, p, (#[trigger] seen[i]).0, seen[i].1, seen[i].2)
            && shape(p, seen[i].1, seen[i].2) && 0 <= seen[i].0 < g.len()
    &&& forall|k: int| 0 <= k < added.len() ==> has_candidate(seen, #[trigger] added[k])
}

/// The edge `e` out of the node of entry `x` is dealt with: for every walk
/// that `x` stands for, an entry stands for the walk that goes on over `e`,
/// and the occurrence that `e` completes is among the results.
pub open spec fn edge_covered(
    g: Seq<NodeView>,
    p: Seq<Seq<char>>,
    x: ItemView,
    e: EdgeView,
    seen: Seq<ItemView>,
    results: Seq<Seq<EdgeView>>,
) -> bool {
    forall|w: Seq<EdgeView>|
        #[trigger] represents(p, w, x) && walk_ok(g, w) ==> covered(p, w.push(e), seen) && (
        ends_with(p, w.push(e), p.len() as int) ==> found(
            results,
            match_path(w.push(e), p.len() as int),
        ))
}

/// Every edge out of the node of entry `x` is dealt with.
pub open spec fn item_done(
    g: Seq<NodeView>,
    p: Seq<Seq<char>>,
    x: ItemView,
    seen: Seq<ItemView>,
    results: Seq<Seq<EdgeView>>,
) -> bool {
    forall|e: EdgeView|
        g[x.0].forwards.contains(e) ==> #[trigger] edge_covered(g, p, x, e, seen, results)
}

/// `a` is the beginning of `b`.
pub open spec fn grows<A>(a: Seq<A>, b: Seq<A>) -> bool {
    a.len() <= b.len() && forall|i: int| 0 <= i < a.len() ==> a[i] == b[i]
}

/// What is dealt with stays dealt with as entries and results are added.
pub proof fn lemma_edge_covered_grows(
    g: Seq<NodeView>,
    p: Seq<Seq<char>>,
    x: ItemView,
    e: EdgeView,
    seen: Seq<ItemView>,
    results: Seq<Seq<EdgeView>>,
    seen1: Seq<ItemView>,
    results1: Seq<Seq<EdgeView>>,
)
    requires
        edge_covered(g, p, x, e, seen, results),
        grows(seen, seen1),
        grows(results, results1),
    ensures
        edge_covered(g, p, x, e, seen1, results1),
{
    let m = p.len() as int;
    assert forall|w: Seq<EdgeView>| #[trigger] represents(p, w, x) && walk_ok(g, w) implies covered(
        p,
        w.push(e),
        seen1,
    ) && (ends_with(p, w.push(e), m) ==> found(results1, match_path(w.push(e), m))) by {
        let w1 = w.push(e);
        let i = choose|i: int| 0 <= i < seen.len() && represents(p, w1, #[trigger] seen[i]);
        assert(seen1[i] == seen[i]);
        if ends_with(p, w1, m) {
            let r = choose|r: int| 0 <= r < results.len() && #[trigger] results[r] == match_path(w1, m);
            assert(results1[r] == results[r]);
        }
    }
}

pub proof fn lemma_item_done_grows(
    g: Seq<NodeView>,
    p: Seq<Seq<char>>,
    x: ItemView,
    seen: Seq<ItemView>,
    results: Seq<Seq<EdgeView>>,
    seen1: Seq<ItemView>,
    results1: Seq<Seq<EdgeView>>,
)
    requires
        item_done(g, p, x, seen, results),
        grows(seen, seen1),
        grows(results, results1),
    ensures
        item_done(g, p, x, seen1, results1),
{
    assert forall|e: EdgeView| g[x.0].forwards.contains(e) implies #[trigger] edge_covered(
        g,
        p,
        x,
        e,
        seen1,
        results1,
    ) by {
        lemma_edge_covered_grows(g, p, x, e, seen, results, seen1, results1);
    }
}

/// Every walk of at most `d` edges has an entry that stands for it and that
/// was queued after no more steps than the walk has edges.
pub open spec fn walks_covered(
    g: Seq<NodeView>,
    p: Seq<Seq<char>>,
    seen: Seq<ItemView>,
    lev: Seq<int>,
    d: int,
) -> bool {
    forall|w: Seq<EdgeView>|
        #[trigger] walk_ok(g, w) && w.len() - 1 <= d ==> exists|i: int|
            0 <= i < seen.len() && represents(p, w, #[trigger] seen[i]) && lev[i] <= w.len() - 1
}

/// Every occurrence at the end of a walk of at most `d` edges is among the
/// results.
pub open spec fn matches_found(
    g: Seq<NodeView>,
    p: Seq<Seq<char>>,
    results: Seq<Seq<EdgeView>>,
    d: int,
) -> bool {
    forall|w: Seq<EdgeView>|
        #[trigger] walk_ok(g, w) && w.len() - 1 <= d && ends_with(p, w, p.len() as int) ==> found(
            results,
            match_path(w, p.len() as int),
        )
}

/// Every entry that was queued after at most `d` steps is dealt with.
pub open spec fn done_upto(
    g: Seq<NodeView>,
    p: Seq<Seq<char>>,
    seen: Seq<ItemView>,
    lev: Seq<int>,
    results: Seq<Seq<EdgeView>>,
    d: int,
) -> bool {
    forall|i: int|
        0 <= i < seen.len() && lev[i] <= d ==> item_done(g, p, #[trigger] seen[i], seen, results)
}

/// Once the entries of `d` steps are dealt with, the walks of `d + 1` edges
/// are covered.
pub proof fn lemma_next_level(
    g: Seq<NodeView>,
    p: Seq<Seq<char>>,
    seen: Seq<ItemView>,
    lev: Seq<int>,
    results: Seq<Seq<EdgeView>>,
    d: int,
)
    requires
        lev.len() == seen.len(),
        0 <= d,
        walks_covered(g, p, seen, lev, d),
        matches_found(g, p, results, d),
        done_upto(g, p, seen, lev, results, d),
        forall|i: int| 0 <= i < seen.len() ==> #[trigger] lev[i] <= d + 1,
    ensures
        walks_covered(g, p, seen, lev, d + 1),
        matches_found(g, p, results, d + 1),
{
    let m = p.len() as int;
    assert forall|w: Seq<EdgeView>| #[trigger] walk_ok(g, w) && w.len() - 1 <= d + 1 implies (
    exists|i: int| 0 <= i < seen.len() && represents(p, w, #[trigger] seen[i]) && lev[i] <= w.len() - 1)
        && (ends_with(p, w, m) ==> found(results, match_path(w, m))) by {
        if w.len() - 1 == d + 1 {
            let w0 = w.drop_last();
            let e = w.last();
            assert(w0.push(e) =~= w);
            assert forall|t: int| 1 <= t < w0.len() implies #[trigger] link_ok(g, w0, t) by {
                assert(link_ok(g, w, t));
                assert(w0[t] == w[t]);
                assert(w0[t - 1] == w[t - 1]);
            }
            assert(w0[0] == w[0]);
            assert(walk_ok(g, w0));
            let i = choose|i: int|
                0 <= i < seen.len() && represents(p, w0, #[trigger] seen[i]) && lev[i] <= w0.len() - 1;
            assert(item_done(g, p, seen[i], seen, results));
            assert(link_ok(g, w, w.len() - 1));
            assert(w0.last().1 == seen[i].0);
            assert(edge_covered(g, p, seen[i], e, seen, results));
            assert(represents(p, w0, seen[i]) && walk_ok(g, w0));
            let i1 = choose|i1: int| 0 <= i1 < seen.len() && represents(p, w, #[trigger] seen[i1]);
            assert(lev[i1] <= w.len() - 1);
        } else {
            assert(walk_ok(g, w) && w.len() - 1 <= d);
        }
    }
}

/// Once every entry is dealt with, every occurrence is among the results.
pub proof fn lemma_all_found(
    g: Seq<NodeView>,
    p: Seq<Seq<char>>,
    seen: Seq<ItemView>,
    lev: Seq<int>,
    results: Seq<Seq<EdgeView>>,
    d: int,
    n: int,
)
    requires
        lev.len() == seen.len(),
        0 <= d,
        walks_covered(g, p, seen, lev, d),
        matches_found(g, p, results, d),
        forall|i: int| 0 <= i < seen.len() ==> #[trigger] lev[i] <= d,
        done_upto(g, p, seen, lev, results, d),
        d <= n,
    ensures
        walks_covered(g, p, seen, lev, n),
        matches_found(g, p, results, n),
    decreases n - d,
{
    if d < n {
        assert forall|i: int| 0 <= i < seen.len() && lev[i] <= d + 1 implies item_done(
            g,
            p,
            #[trigger] seen[i],
            seen,
            results,
        ) by {
            assert(lev[i] <= d);
        }
        lemma_next_level(g, p, seen, lev, results, d);
        lemma_all_found(g, p, seen, lev, results, d + 1, n);
    }
}

/// Once every walk is covered, every occurrence is among the results.
pub proof fn lemma_complete(
    g: Seq<NodeView>,
    p: Seq<Seq<char>>,
    seen: Seq<ItemView>,
    lev: Seq<int>,
    results: Seq<Seq<EdgeView>>,
    d: int,
    path: Seq<EdgeView>,
)
    requires
        valid_nodes(g),
        lev.len() == seen.len(),
        0 <= d,
        walks_covered(g, p, seen, lev, d),
        matches_found(g, p, results, d),
        forall|i: int| 0 <= i < seen.len() ==> #[trigger] lev[i] <= d,
        done_upto(g, p, seen, lev, results, d),
        is_match(g, p, path),
    ensures
        found(results, path),
{
    let w0 = lemma_reach(g, path[0].1);
    let w = w0 + path.drop_first();
    lemma_walk_to_match(g, p, w0, path);
    let n = if w.len() - 1 > d {
        w.len() - 1
    } else {
        d
    };
    lemma_all_found(g, p, seen, lev, results, d, n);
    assert(walk_ok(g, w) && w.len() - 1 <= n);
}

} // verus!
