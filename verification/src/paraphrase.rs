//! Routes through a lattice, and what it means that the paraphrases of a
//! phrase are attached: some two nodes are joined by a route for every phrase
//! of the group.

use vstd::prelude::*;
use crate::edge::{EdgeView, lemma_insert_sorted};
use crate::expand::{
    splice, with_forward, branch_node, branch_first, preds, step_back, walks_back, max_nat,
};
use crate::automaton::{StateView, next_state};
use crate::edge::sorted;
use crate::parattice::{scanned, seen_next};
use crate::trie::{run, is_suffix, from_end};
use crate::lattice::main_ok;
use crate::merge::{
    mergeable, merged_backward, merged_forward, oriented, flip, lemma_edge_down,
};
use crate::node::{NodeView, nodes_sorted};
use crate::sound::{
    sound, node_sound, up_ok, down_ok, start_ok, splice_topo, lemma_splice_sound,
    lemma_step_back_origin, lemma_walks_sound,
};

verus! {

/// Node `u` of the graph has the outgoing edge `e`.
pub open spec fn edge_at(g: Seq<NodeView>, u: int, e: EdgeView) -> bool {
    0 <= u < g.len() && 0 <= e.1 < g.len() && g[u].forwards.contains(e)
}

/// Place `t` of a route: an edge with token `q[t]` from one node to the next.
pub open spec fn hop(g: Seq<NodeView>, nodes: Seq<int>, q: Seq<Seq<char>>, t: int) -> bool {
    edge_at(g, nodes[t], (q[t], nodes[t + 1]))
}

/// The nodes are joined, one to the next, by edges that spell `q`.
pub open spec fn route_ok(g: Seq<NodeView>, nodes: Seq<int>, q: Seq<Seq<char>>) -> bool {
    &&& nodes.len() == q.len() + 1
    &&& forall|t: int| 0 <= t < q.len() ==> #[trigger] hop(g, nodes, q, t)
}

/// A route from node `from` to node `to` spells `q`.
pub open spec fn connects(g: Seq<NodeView>, from: int, to: int, q: Seq<Seq<char>>) -> bool {
    exists|nodes: Seq<int>| #[trigger] route_ok(g, nodes, q) && nodes[0] == from && nodes.last() == to
}

/// Every phrase of the group is spelled by a route from `from` to `to`.
pub open spec fn group_joined(
    g: Seq<NodeView>,
    group: Seq<Seq<Seq<char>>>,
    from: int,
    to: int,
) -> bool {
    forall|j: int| 0 <= j < group.len() ==> connects(g, from, to, #[trigger] group[j])
}

/// The group is attached: some two nodes are joined by a route for every
/// phrase of the group.
pub open spec fn group_attached(g: Seq<NodeView>, group: Seq<Seq<Seq<char>>>) -> bool {
    exists|from: int, to: int| #[trigger] group_joined(g, group, from, to)
}

/// Under the map `ren` of nodes, every edge of `g` is an edge of `h`.
pub open spec fn carried(g: Seq<NodeView>, h: Seq<NodeView>, ren: Seq<int>) -> bool {
    &&& ren.len() == g.len()
    &&& forall|u: int, e: EdgeView|
        0 <= u < g.len() && #[trigger] g[u].forwards.contains(e) && 0 <= e.1 < g.len() ==> edge_at(
            h,
            ren[u],
            (e.0, ren[e.1]),
        )
}

/// The map of nodes that leaves every node where it is.
pub open spec fn same_nodes(n: nat) -> Seq<int> {
    Seq::new(n, |i: int| i)
}

/// One map of nodes after another.
pub open spec fn composed(first: Seq<int>, second: Seq<int>) -> Seq<int> {
    Seq::new(first.len(), |i: int| second[first[i]])
}

pub proof fn lemma_carried_composed(
    g: Seq<NodeView>,
    h: Seq<NodeView>,
    k: Seq<NodeView>,
    first: Seq<int>,
    second: Seq<int>,
)
    requires
        carried(g, h, first),
        carried(h, k, second),
    ensures
        carried(g, k, composed(first, second)),
{
    let both = composed(first, second);
    assert forall|u: int, e: EdgeView|
        0 <= u < g.len() && #[trigger] g[u].forwards.contains(e) && 0 <= e.1
            < g.len() implies edge_at(k, both[u], (e.0, both[e.1])) by {
        assert(edge_at(h, first[u], (e.0, first[e.1])));
        assert(h[first[u]].forwards.contains((e.0, first[e.1])));
    }
}

/// A route is carried along with the edges.
pub proof fn lemma_carried_route(
    g: Seq<NodeView>,
    h: Seq<NodeView>,
    ren: Seq<int>,
    from: int,
    to: int,
    q: Seq<Seq<char>>,
)
    requires
        carried(g, h, ren),
        connects(g, from, to, q),
        0 <= from < g.len(),
        0 <= to < g.len(),
    ensures
        connects(h, ren[from], ren[to], q),
{
    let nodes = choose|nodes: Seq<int>| #[trigger]
        route_ok(g, nodes, q) && nodes[0] == from && nodes.last() == to;
    let moved = Seq::new(nodes.len(), |t: int| ren[nodes[t]]);
    assert forall|t: int| 0 <= t < q.len() implies #[trigger] hop(h, moved, q, t) by {
        assert(hop(g, nodes, q, t));
    }
    assert(route_ok(h, moved, q));
}

/// Where all phrases of a group are joined between two nodes, they are
/// joined between the nodes that these are carried to.
pub proof fn lemma_carried_group(
    g: Seq<NodeView>,
    h: Seq<NodeView>,
    ren: Seq<int>,
    group: Seq<Seq<Seq<char>>>,
)
    requires
        carried(g, h, ren),
        group_attached(g, group),
        forall|j: int| 0 <= j < group.len() ==> (#[trigger] group[j]).len() > 0,
    ensures
        group_attached(h, group),
{
    if group.len() == 0 {
        assert(group_joined(h, group, 0, 0));
        return ;
    }
    let (from, to) = choose|from: int, to: int| #[trigger] group_joined(g, group, from, to);
    assert(connects(g, from, to, group[0]));
    let nodes = choose|nodes: Seq<int>| #[trigger]
        route_ok(g, nodes, group[0]) && nodes[0] == from && nodes.last() == to;
    assert(hop(g, nodes, group[0], 0));
    assert(hop(g, nodes, group[0], group[0].len() - 1));
    assert forall|j: int| 0 <= j < group.len() implies connects(
        h,
        ren[from],
        ren[to],
        #[trigger] group[j],
    ) by {
        lemma_carried_route(g, h, ren, from, to, group[j]);
    }
    assert(group_joined(h, group, ren[from], ren[to]));
}

/// The graph `h` has the nodes and edges of `g`, and maybe more.
pub open spec fn edges_kept(g: Seq<NodeView>, h: Seq<NodeView>) -> bool {
    &&& g.len() <= h.len()
    &&& forall|u: int, e: EdgeView|
        0 <= u < g.len() && #[trigger] g[u].forwards.contains(e) ==> h[u].forwards.contains(e)
}

/// A branch spliced in is a route from its start to its end, and the graph
/// keeps its edges.
pub proof fn lemma_splice_route(
    g: Seq<NodeView>,
    q: Seq<Seq<char>>,
    start: int,
    end: int,
    depth: nat,
)
    requires
        nodes_sorted(g),
        q.len() >= 1,
        0 <= start < g.len(),
        0 <= end < g.len(),
    ensures
        connects(splice(g, q, start, end, depth), start, end, q),
        edges_kept(g, splice(g, q, start, end, depth)),
{
    let n = g.len() as int;
    let m = q.len() as int;
    let s = splice(g, q, start, end, depth);
    let e0 = (q[0], branch_first(g, q, end));
    assert(nodes_sorted(g) ==> crate::edge::sorted(g[start].forwards) && crate::edge::sorted(
        g[end].backwards,
    ));
    lemma_insert_sorted(g[start].forwards, e0);
    assert(s[start].forwards == with_forward(g[start], e0).forwards);
    let nodes = Seq::new(
        (m + 1) as nat,
        |t: int|
            if t == 0 {
                start
            } else if t == m {
                end
            } else {
                n + t - 1
            },
    );
    assert forall|t: int| 0 <= t < m implies #[trigger] hop(s, nodes, q, t) by {
        if t == 0 {
            assert(s[start].forwards.contains(e0));
        } else {
            assert(s[n + t - 1] == branch_node(q, t - 1, n, start, end, depth));
            assert(s[n + t - 1].forwards[0] == (q[t], nodes[t + 1]));
        }
    }
    assert(route_ok(s, nodes, q));
    assert forall|u: int, e: EdgeView|
        0 <= u < g.len() && #[trigger] g[u].forwards.contains(e) implies s[u].forwards.contains(
        e,
    ) by {
        if u == start {
        } else {
            assert(s[u].forwards == g[u].forwards);
        }
    }
}

/// A walk back that spells the end of a phrase is a route to the node where
/// the walk began.
pub proof fn lemma_walk_route(
    g: Seq<NodeView>,
    eos: int,
    topo: Seq<int>,
    words: Seq<Seq<char>>,
    p: Seq<Seq<char>>,
    pos: int,
    max_depth: nat,
    k: int,
    idx: int,
)
    requires
        sound(g, eos, topo, words),
        0 <= pos < g.len(),
        0 <= k <= p.len(),
        0 <= idx < walks_back(g, p, pos, max_depth, k).len(),
    ensures
        connects(g, walks_back(g, p, pos, max_depth, k)[idx].0, pos, p.subrange(k, p.len() as int)),
    decreases p.len() - k,
{
    let rest = p.subrange(k, p.len() as int);
    if k < p.len() {
        let items = walks_back(g, p, pos, max_depth, k + 1);
        let (q, r) = lemma_step_back_origin(g, items, p[k], max_depth, idx);
        lemma_walk_route(g, eos, topo, words, p, pos, max_depth, k + 1, q);
        lemma_walks_sound(g, eos, topo, words, p, pos, max_depth, k + 1, q);
        let node = items[q].0;
        let e = g[node].backwards[r];
        assert(node_sound(g, eos, topo, node));
        assert(down_ok(g, node, g[node].backwards[r]));
        let shorter = p.subrange(k + 1, p.len() as int);
        let tail = choose|tail: Seq<int>| #[trigger]
            route_ok(g, tail, shorter) && tail[0] == node && tail.last() == pos;
        let nodes = seq![e.1] + tail;
        assert forall|t: int| 0 <= t < rest.len() implies #[trigger] hop(g, nodes, rest, t) by {
            if t >= 1 {
                assert(hop(g, tail, shorter, t - 1));
                assert(nodes[t] == tail[t - 1]);
                assert(nodes[t + 1] == tail[t]);
                assert(rest[t] == shorter[t - 1]);
            } else {
                assert(nodes[1] == tail[0]);
            }
        }
        assert(route_ok(g, nodes, rest));
    } else {
        let nodes = seq![pos];
        assert(route_ok(g, nodes, rest));
    }
}

/// The walks one edge back over the incoming edge `r` are among the walks
/// back from the item.
pub proof fn lemma_preds_has(
    g: Seq<NodeView>,
    item: (int, nat),
    tok: Seq<char>,
    max_depth: nat,
    upto: int,
    r: int,
)
    requires
        0 <= r < upto <= g[item.0].backwards.len(),
        g[item.0].backwards[r].0 == tok,
        g[g[item.0].backwards[r].1].depth < max_depth,
    ensures
        preds(g, item, tok, max_depth, upto).contains(
            (g[item.0].backwards[r].1, max_nat(item.1, g[g[item.0].backwards[r].1].depth)),
        ),
    decreases upto,
{
    let e = g[item.0].backwards[upto - 1];
    let rest = preds(g, item, tok, max_depth, upto - 1);
    let all = preds(g, item, tok, max_depth, upto);
    let want = (g[item.0].backwards[r].1, max_nat(item.1, g[g[item.0].backwards[r].1].depth));
    if r == upto - 1 {
        assert(all[rest.len() as int] == want);
    } else {
        lemma_preds_has(g, item, tok, max_depth, upto - 1, r);
        let i = choose|i: int| 0 <= i < rest.len() && rest[i] == want;
        assert(all[i] == want);
    }
}

/// The walks one edge back from an item of the list are among the walks of
/// the step back.
pub proof fn lemma_step_back_has(
    g: Seq<NodeView>,
    items: Seq<(int, nat)>,
    tok: Seq<char>,
    max_depth: nat,
    q: int,
    r: int,
)
    requires
        0 <= q < items.len(),
        0 <= r < g[items[q].0].backwards.len(),
        g[items[q].0].backwards[r].0 == tok,
        g[g[items[q].0].backwards[r].1].depth < max_depth,
    ensures
        step_back(g, items, tok, max_depth).contains(
            (
                g[items[q].0].backwards[r].1,
                max_nat(items[q].1, g[g[items[q].0].backwards[r].1].depth),
            ),
        ),
    decreases items.len(),
{
    let front = step_back(g, items.drop_last(), tok, max_depth);
    let last = items.last();
    let back = preds(g, last, tok, max_depth, g[last.0].backwards.len() as int);
    let all = step_back(g, items, tok, max_depth);
    let want = (
        g[items[q].0].backwards[r].1,
        max_nat(items[q].1, g[g[items[q].0].backwards[r].1].depth),
    );
    if q == items.len() - 1 {
        lemma_preds_has(g, last, tok, max_depth, g[last.0].backwards.len() as int, r);
        let i = choose|i: int| 0 <= i < back.len() && back[i] == want;
        assert(all[front.len() + i] == want);
    } else {
        assert(items.drop_last()[q] == items[q]);
        lemma_step_back_has(g, items.drop_last(), tok, max_depth, q, r);
        let i = choose|i: int| 0 <= i < front.len() && front[i] == want;
        assert(all[i] == want);
    }
}

/// The nodes of the trunk have depth 0.
pub open spec fn trunk_flat(g: Seq<NodeView>, eos: int) -> bool {
    forall|i: int| 0 <= i <= eos && i < g.len() ==> (#[trigger] g[i]).depth == 0
}

/// The phrase `p` stands in the sentence and ends before word `end`.
pub open spec fn occurs(words: Seq<Seq<char>>, p: Seq<Seq<char>>, end: int) -> bool {
    0 <= end <= words.len() && is_suffix(p, words.take(end))
}

/// The walk back along the trunk is among the walks back from the node where
/// a phrase of the sentence ends.
pub proof fn lemma_trunk_walk(
    g: Seq<NodeView>,
    eos: int,
    topo: Seq<int>,
    words: Seq<Seq<char>>,
    p: Seq<Seq<char>>,
    end: int,
    max_depth: nat,
    k: int,
)
    requires
        sound(g, eos, topo, words),
        trunk_flat(g, eos),
        occurs(words, p, end),
        max_depth >= 1,
        0 <= k <= p.len(),
    ensures
        walks_back(g, p, end, max_depth, k).contains((end - (p.len() - k), 0nat)),
    decreases p.len() - k,
{
    let all = walks_back(g, p, end, max_depth, k);
    if k >= p.len() {
        assert(g[end].depth == 0);
        assert(all[0] == (end, 0nat));
    } else {
        let items = walks_back(g, p, end, max_depth, k + 1);
        lemma_trunk_walk(g, eos, topo, words, p, end, max_depth, k + 1);
        let x = end - (p.len() - k - 1);
        let q = choose|q: int| 0 <= q < items.len() && items[q] == (x, 0nat);
        assert(g[x - 1].forward_main == Some((words[x - 1], x)));
        assert(node_sound(g, eos, topo, x - 1));
        assert(main_ok(g[x - 1].forward_main, g[x - 1].forwards));
        let f = choose|f: int|
            0 <= f < g[x - 1].forwards.len() && #[trigger] g[x - 1].forwards[f] == (
                words[x - 1],
                x,
            );
        assert(up_ok(g, topo, x - 1, g[x - 1].forwards[f]));
        let r = choose|r: int|
            0 <= r < g[x].backwards.len() && #[trigger] g[x].backwards[r] == (
                words[x - 1],
                x - 1,
            );
        assert(p[k] == from_end(words.take(end), p.len() as int, k));
        assert(g[x - 1].depth == 0);
        lemma_step_back_has(g, items, p[k], max_depth, q, r);
    }
}

/// The map of nodes under a merge: the merged node goes to the node it was
/// merged into.
pub open spec fn merge_map(n: nat, a: int, b: int) -> Seq<int> {
    same_nodes(n).update(b, a)
}

/// A merge by incoming edges carries every edge along.
pub proof fn lemma_merged_backward_carried(
    g: Seq<NodeView>,
    h: Seq<NodeView>,
    eos: int,
    topo: Seq<int>,
    words: Seq<Seq<char>>,
    a: int,
    b: int,
)
    requires
        sound(g, eos, topo, words),
        mergeable(g, a, b),
        merged_backward(g, h, a, b),
        g[a].backwards == g[b].backwards,
    ensures
        carried(g, h, merge_map(g.len(), a, b)),
{
    let ren = merge_map(g.len(), a, b);
    assert forall|u: int, e: EdgeView|
        0 <= u < g.len() && #[trigger] g[u].forwards.contains(e) && 0 <= e.1
            < g.len() implies edge_at(h, ren[u], (e.0, ren[e.1])) by {
        if u == a || u == b {
            assert(h[a].forwards.contains(e));
        } else if e.1 == b {
            assert(g[b].backwards.contains((e.0, u)));
            lemma_edge_down(g, eos, topo, words, a, (e.0, u));
            assert(h[u].forwards.contains((e.0, a)));
        } else {
            assert(h[u].forwards.contains(e));
        }
    }
}

/// A merge by outgoing edges carries every edge along.
pub proof fn lemma_merged_forward_carried(g: Seq<NodeView>, h: Seq<NodeView>, a: int, b: int)
    requires
        mergeable(oriented(g, false), a, b),
        merged_forward(g, h, a, b),
        g[a].forwards == g[b].forwards,
    ensures
        carried(g, h, merge_map(g.len(), a, b)),
{
    let ren = merge_map(g.len(), a, b);
    let og = oriented(g, false);
    assert(og[b] == flip(g[b]));
    assert forall|u: int, e: EdgeView|
        0 <= u < g.len() && #[trigger] g[u].forwards.contains(e) && 0 <= e.1
            < g.len() implies edge_at(h, ren[u], (e.0, ren[e.1])) by {
        if u == a || u == b {
            assert(g[a].forwards.contains(e));
            assert(og[b].backwards.contains(e));
        } else if e.1 == b {
            assert(h[u].forwards.contains((e.0, a)));
        } else {
            assert(h[u].forwards.contains(e));
        }
    }
}

/// The graph `g1` has grown out of `g0`: it has kept the edges, no edge set
/// has got smaller, and two nodes stand in the new order as they stood in
/// the old.
pub open spec fn graph_kept(
    g0: Seq<NodeView>,
    g1: Seq<NodeView>,
    topo0: Seq<int>,
    topo1: Seq<int>,
) -> bool {
    &&& edges_kept(g0, g1)
    &&& forall|u: int|
        0 <= u < g0.len() ==> (#[trigger] g1[u]).forwards.len() >= g0[u].forwards.len()
            && g1[u].backwards.len() >= g0[u].backwards.len() && g1[u].depth == g0[u].depth
    &&& forall|x: int, y: int|
        #![trigger topo0[x], topo0[y]]
        0 <= x < g0.len() && 0 <= y < g0.len() && topo0[x] < topo0[y] ==> topo1[x] < topo1[y]
}

pub proof fn lemma_graph_kept_chain(
    g0: Seq<NodeView>,
    g1: Seq<NodeView>,
    g2: Seq<NodeView>,
    topo0: Seq<int>,
    topo1: Seq<int>,
    topo2: Seq<int>,
)
    requires
        graph_kept(g0, g1, topo0, topo1),
        graph_kept(g1, g2, topo1, topo2),
    ensures
        graph_kept(g0, g2, topo0, topo2),
{
    assert forall|u: int, e: EdgeView|
        0 <= u < g0.len() && #[trigger] g0[u].forwards.contains(e) implies g2[u].forwards.contains(
        e,
    ) by {
        assert(g1[u].forwards.contains(e));
    }
    assert forall|u: int| 0 <= u < g0.len() implies (#[trigger] g2[u]).forwards.len()
        >= g0[u].forwards.len() && g2[u].backwards.len() >= g0[u].backwards.len() && g2[u].depth
        == g0[u].depth by {
        assert(g1[u].forwards.len() >= g0[u].forwards.len());
    }
    assert forall|x: int, y: int|
        #![trigger topo0[x], topo0[y]]
        0 <= x < g0.len() && 0 <= y < g0.len() && topo0[x] < topo0[y] implies topo2[x]
        < topo2[y] by {
        assert(topo1[x] < topo1[y]);
    }
}

/// A route stays a route where the graph keeps its edges.
pub proof fn lemma_kept_route(
    g: Seq<NodeView>,
    h: Seq<NodeView>,
    from: int,
    to: int,
    q: Seq<Seq<char>>,
)
    requires
        edges_kept(g, h),
        connects(g, from, to, q),
    ensures
        connects(h, from, to, q),
{
    let nodes = choose|nodes: Seq<int>| #[trigger]
        route_ok(g, nodes, q) && nodes[0] == from && nodes.last() == to;
    assert forall|t: int| 0 <= t < q.len() implies #[trigger] hop(h, nodes, q, t) by {
        assert(hop(g, nodes, q, t));
    }
    assert(route_ok(h, nodes, q));
}

/// An attached group stays attached where the graph keeps its edges.
pub proof fn lemma_kept_group(g: Seq<NodeView>, h: Seq<NodeView>, group: Seq<Seq<Seq<char>>>)
    requires
        edges_kept(g, h),
        group_attached(g, group),
    ensures
        group_attached(h, group),
{
    let (from, to) = choose|from: int, to: int| #[trigger] group_joined(g, group, from, to);
    assert forall|j: int| 0 <= j < group.len() implies connects(h, from, to, #[trigger] group[j]) by {
        lemma_kept_route(g, h, from, to, group[j]);
    }
    assert(group_joined(h, group, from, to));
}

/// The record `i1` begins with the record `i0`.
pub open spec fn triples_kept(i0: Seq<(usize, usize, usize)>, i1: Seq<(usize, usize, usize)>) -> bool {
    i0.len() <= i1.len() && forall|k: int| 0 <= k < i0.len() ==> #[trigger] i1[k] == i0[k]
}

/// The record holds a triple of group `gi`.
pub open spec fn group_seen(inserted: Seq<(usize, usize, usize)>, gi: int) -> bool {
    exists|k: int| 0 <= k < inserted.len() && (#[trigger] inserted[k]).0 == gi
}

pub proof fn lemma_group_seen_kept(
    i0: Seq<(usize, usize, usize)>,
    i1: Seq<(usize, usize, usize)>,
    gi: int,
)
    requires
        triples_kept(i0, i1),
        group_seen(i0, gi),
    ensures
        group_seen(i1, gi),
{
    let k = choose|k: int| 0 <= k < i0.len() && (#[trigger] i0[k]).0 == gi;
    assert(i1[k] == i0[k]);
}

/// Every group of which the record holds a triple is attached.
pub open spec fn attached_all(
    g: Seq<NodeView>,
    d: Seq<Seq<Seq<Seq<char>>>>,
    inserted: Seq<(usize, usize, usize)>,
) -> bool {
    forall|k: int|
        0 <= k < inserted.len() ==> group_attached(g, d[(#[trigger] inserted[k]).0 as int])
}

pub proof fn lemma_attached_kept(
    g: Seq<NodeView>,
    h: Seq<NodeView>,
    d: Seq<Seq<Seq<Seq<char>>>>,
    inserted: Seq<(usize, usize, usize)>,
)
    requires
        edges_kept(g, h),
        attached_all(g, d, inserted),
    ensures
        attached_all(h, d, inserted),
{
    assert forall|k: int| 0 <= k < inserted.len() implies group_attached(
        h,
        d[(#[trigger] inserted[k]).0 as int],
    ) by {
        lemma_kept_group(g, h, d[inserted[k].0 as int]);
    }
}

/// What was seen stays seen, what waited in the queue is still at its
/// place, and whatever is seen for the first time waits in the queue.
pub open spec fn grown(
    c0: Seq<Vec<usize>>,
    c1: Seq<Vec<usize>>,
    q0: Seq<(usize, usize)>,
    q1: Seq<(usize, usize)>,
) -> bool {
    &&& c0.len() <= c1.len()
    &&& forall|x: int, s: usize|
        0 <= x < c0.len() && c0[x]@.contains(s) ==> #[trigger] c1[x]@.contains(s)
    &&& q0.len() <= q1.len()
    &&& forall|i: int| 0 <= i < q0.len() ==> #[trigger] q1[i] == q0[i]
    &&& forall|x: int, s: usize|
        0 <= x < c1.len() && #[trigger] c1[x]@.contains(s) && !(x < c0.len() && c0[x]@.contains(s))
            ==> q1.contains((x as usize, s))
}

pub proof fn lemma_grown_chain(
    c0: Seq<Vec<usize>>,
    c1: Seq<Vec<usize>>,
    c2: Seq<Vec<usize>>,
    q0: Seq<(usize, usize)>,
    q1: Seq<(usize, usize)>,
    q2: Seq<(usize, usize)>,
)
    requires
        grown(c0, c1, q0, q1),
        grown(c1, c2, q1, q2),
    ensures
        grown(c0, c2, q0, q2),
{
    assert forall|x: int, s: usize| 0 <= x < c0.len() && c0[x]@.contains(s) implies #[trigger] c2[x]@.contains(
        s,
    ) by {
        assert(c1[x]@.contains(s));
    }
    assert forall|i: int| 0 <= i < q0.len() implies #[trigger] q2[i] == q0[i] by {
        assert(q1[i] == q0[i]);
    }
    assert forall|x: int, s: usize|
        0 <= x < c2.len() && #[trigger] c2[x]@.contains(s) && !(x < c0.len() && c0[x]@.contains(
            s,
        )) implies q2.contains((x as usize, s)) by {
        if x < c1.len() && c1[x]@.contains(s) {
            assert(q1.contains((x as usize, s)));
            let i = choose|i: int| 0 <= i < q1.len() && q1[i] == (x as usize, s);
            assert(q2[i] == q1[i]);
        }
    }
}

/// The number of tokens in the first `upto` phrases of the group.
pub open spec fn weight_upto(group: Seq<Seq<Seq<char>>>, upto: int) -> nat
    decreases upto,
{
    if upto <= 0 {
        0
    } else {
        weight_upto(group, upto - 1) + group[upto - 1].len()
    }
}

/// The number of tokens in the group.
pub open spec fn weight(group: Seq<Seq<Seq<char>>>) -> nat {
    weight_upto(group, group.len() as int)
}

pub proof fn lemma_weight_upto(group: Seq<Seq<Seq<char>>>, a: int, b: int)
    requires
        0 <= a <= b,
    ensures
        weight_upto(group, a) <= weight_upto(group, b),
    decreases b - a,
{
    if a < b {
        lemma_weight_upto(group, a, b - 1);
    }
}

/// The largest number of tokens in one of the first `upto` groups.
pub open spec fn heaviest_upto(d: Seq<Seq<Seq<Seq<char>>>>, upto: int) -> nat
    decreases upto,
{
    if upto <= 0 {
        0
    } else if weight(d[upto - 1]) >= heaviest_upto(d, upto - 1) {
        weight(d[upto - 1])
    } else {
        heaviest_upto(d, upto - 1)
    }
}

/// The largest number of tokens in a group of the dictionary.
pub open spec fn heaviest(d: Seq<Seq<Seq<Seq<char>>>>) -> nat {
    heaviest_upto(d, d.len() as int)
}

pub proof fn lemma_heaviest_upto(d: Seq<Seq<Seq<Seq<char>>>>, upto: int, gi: int)
    requires
        0 <= gi < upto,
    ensures
        weight(d[gi]) <= heaviest_upto(d, upto),
    decreases upto,
{
    if gi < upto - 1 {
        lemma_heaviest_upto(d, upto - 1, gi);
    }
}

/// A bound on the number of nodes that the lattice of a sentence of `n`
/// words can have before its nodes are merged: the chain, and for every
/// group and every two nodes of the chain as many nodes as the group has
/// tokens.
pub open spec fn room(d: Seq<Seq<Seq<Seq<char>>>>, n: int) -> int {
    (n + 1) + d.len() * (n + 1) * (n + 1) * heaviest(d)
}

/// While the record grows, the lattice stays inside the room.
pub proof fn lemma_room(count: int, most: int, per: int, n: int)
    requires
        1 <= count <= most,
        0 <= per,
        0 <= n,
    ensures
        (count - 1) * per + per == count * per,
        (n + 1) + count * per <= (n + 1) + most * per,
{
    assert((count - 1) * per + per == count * per) by (nonlinear_arith);
    assert(count * per <= most * per) by (nonlinear_arith)
        requires
            count <= most,
            0 <= per,
    ;
}

/// The state of the automaton after the first `i` words of the sentence.
pub open spec fn trunk_state(a: Seq<StateView>, words: Seq<Seq<char>>, i: int) -> int {
    run(a, words.take(i))
}

/// Node `i` of the trunk was seen in the state after the first `i` words.
pub open spec fn trunk_seen(
    a: Seq<StateView>,
    words: Seq<Seq<char>>,
    cache: Seq<Vec<usize>>,
    i: int,
) -> bool {
    0 <= i < cache.len() && exists|s: usize|
        s as int == trunk_state(a, words, i) && #[trigger] cache[i]@.contains(s)
}

/// The scan along the trunk is kept going: a trunk node seen in its state
/// is dealt with or waits in the queue, the source was seen, and behind a
/// trunk node that was dealt with the next was seen.
pub open spec fn trunk_watch(
    a: Seq<StateView>,
    words: Seq<Seq<char>>,
    cache: Seq<Vec<usize>>,
    queue: Seq<(usize, usize)>,
    done: Set<int>,
) -> bool {
    &&& forall|i: int, s: usize|
        0 <= i <= words.len() && i < cache.len() && s as int == trunk_state(a, words, i)
            && #[trigger] cache[i]@.contains(s) ==> done.contains(i) || queue.contains(
            (i as usize, s),
        )
    &&& forall|i: int|
        0 <= i < words.len() && #[trigger] done.contains(i) ==> trunk_seen(a, words, cache, i + 1)
    &&& trunk_seen(a, words, cache, 0)
}

/// When the queue has run empty, every node of the trunk was dealt with.
pub proof fn lemma_trunk_done(
    a: Seq<StateView>,
    words: Seq<Seq<char>>,
    cache: Seq<Vec<usize>>,
    done: Set<int>,
    i: int,
)
    requires
        trunk_watch(a, words, cache, Seq::empty(), done),
        0 <= i <= words.len(),
    ensures
        done.contains(i),
    decreases i,
{
    let empty = Seq::<(usize, usize)>::empty();
    if i > 0 {
        lemma_trunk_done(a, words, cache, done, i - 1);
    }
    assert(trunk_seen(a, words, cache, i));
    let s = choose|s: usize| s as int == trunk_state(a, words, i) && #[trigger] cache[i]@.contains(s);
    assert(!empty.contains((i as usize, s)));
}

/// One more pair of the queue is dealt with: its edges are followed, and
/// then more may be seen and queued.
pub proof fn lemma_watch_step(
    a: Seq<StateView>,
    g: Seq<NodeView>,
    words: Seq<Seq<char>>,
    c0: Seq<Vec<usize>>,
    c1: Seq<Vec<usize>>,
    c2: Seq<Vec<usize>>,
    q0: Seq<(usize, usize)>,
    q1: Seq<(usize, usize)>,
    q2: Seq<(usize, usize)>,
    done: Set<int>,
)
    requires
        q0.len() > 0,
        c0.len() == g.len(),
        g.len() <= usize::MAX,
        words.len() < g.len(),
        q0[0].0 < g.len(),
        trunk_watch(a, words, c0, q0, done),
        scanned(
            a,
            g,
            c0,
            c1,
            q0.subrange(1, q0.len() as int),
            q1,
            q0[0].0 as int,
            q0[0].1 as int,
            g[q0[0].0 as int].forwards.len() as int,
        ),
        grown(c1, c2, q1, q2),
        forall|i: int| 0 <= i < words.len() ==> (#[trigger] g[i]).forwards.contains((words[i], i + 1)),
    ensures
        trunk_watch(
            a,
            words,
            c2,
            q2,
            if q0[0].0 <= words.len() && q0[0].1 as int == trunk_state(a, words, q0[0].0 as int) {
                done.insert(q0[0].0 as int)
            } else {
                done
            },
        ),
{
    let x0 = q0[0].0 as int;
    let s0 = q0[0].1;
    let rest = q0.subrange(1, q0.len() as int);
    let mine = x0 <= words.len() && s0 as int == trunk_state(a, words, x0);
    let d1 = if mine {
        done.insert(x0)
    } else {
        done
    };
    assert forall|y: (usize, usize)| q0.contains(y) implies y == q0[0] || q2.contains(y) by {
        let i = choose|i: int| 0 <= i < q0.len() && q0[i] == y;
        if i > 0 {
            assert(rest[i - 1] == y);
            assert(q1[i - 1] == rest[i - 1]);
            assert(q2[i - 1] == q1[i - 1]);
        }
    }
    assert forall|i: int, s: usize|
        0 <= i <= words.len() && i < c2.len() && s as int == trunk_state(a, words, i)
            && #[trigger] c2[i]@.contains(s) implies d1.contains(i) || q2.contains(
        (i as usize, s),
    ) by {
        if i < c1.len() && c1[i]@.contains(s) {
            if c0[i]@.contains(s) {
                if q0.contains((i as usize, s)) {
                    if (i as usize, s) == q0[0] {
                        assert(i == x0);
                    }
                }
            } else {
                assert(q1.contains((i as usize, s)));
                let k = choose|k: int| 0 <= k < q1.len() && q1[k] == (i as usize, s);
                assert(q2[k] == q1[k]);
            }
        }
    }
    assert forall|i: int| 0 <= i < words.len() && #[trigger] d1.contains(i) implies trunk_seen(
        a,
        words,
        c2,
        i + 1,
    ) by {
        if done.contains(i) {
            assert(trunk_seen(a, words, c0, i + 1));
            let s = choose|s: usize|
                s as int == trunk_state(a, words, i + 1) && #[trigger] c0[i + 1]@.contains(s);
            assert(c1[i + 1]@.contains(s));
            assert(c2[i + 1]@.contains(s));
        } else {
            assert(i == x0);
            let e = (words[i], i + 1);
            let k = choose|k: int| 0 <= k < g[i].forwards.len() && g[i].forwards[k] == e;
            assert(seen_next(a, g, c1, x0, s0 as int, k));
            let s = choose|s: usize|
                s as int == next_state(a, s0 as int, e.0) && #[trigger] c1[e.1]@.contains(s);
            assert(words.take(i + 1).drop_last() =~= words.take(i));
            assert(words.take(i + 1).last() == words[i]);
            assert(c2[i + 1]@.contains(s));
        }
    }
    assert(trunk_seen(a, words, c2, 0)) by {
        let s = choose|s: usize|
            s as int == trunk_state(a, words, 0) && #[trigger] c0[0]@.contains(s);
        assert(c1[0]@.contains(s));
        assert(c2[0]@.contains(s));
    }
}

/// Every group of which a phrase stands in the sentence and ends before word
/// `end` has a triple in the record.
pub open spec fn handled(
    d: Seq<Seq<Seq<Seq<char>>>>,
    words: Seq<Seq<char>>,
    inserted: Seq<(usize, usize, usize)>,
    end: int,
) -> bool {
    forall|gi: int, j: int|
        0 <= gi < d.len() && 0 <= j < d[gi].len() && #[trigger] occurs(words, d[gi][j], end)
            ==> group_seen(inserted, gi)
}

/// A branch spliced into a lattice in order: the lattice stays in order and
/// keeps what it had, and the branch is a route from its start to its end.
pub proof fn lemma_splice_kept(
    g: Seq<NodeView>,
    eos: int,
    topo: Seq<int>,
    words: Seq<Seq<char>>,
    q: Seq<Seq<char>>,
    start: int,
    end: int,
    depth: nat,
)
    requires
        sound(g, eos, topo, words),
        trunk_flat(g, eos),
        q.len() >= 1,
        start_ok(g, topo, start, end),
        0 <= end < g.len(),
    ensures
        sound(splice(g, q, start, end, depth), eos, splice_topo(topo, q.len() - 1, end), words),
        trunk_flat(splice(g, q, start, end, depth), eos),
        graph_kept(
            g,
            splice(g, q, start, end, depth),
            topo,
            splice_topo(topo, q.len() - 1, end),
        ),
        connects(splice(g, q, start, end, depth), start, end, q),
{
    let s = splice(g, q, start, end, depth);
    lemma_splice_sound(g, eos, topo, words, q, start, end, depth);
    lemma_splice_route(g, q, start, end, depth);
    assert forall|u: int| 0 <= u < g.len() implies (#[trigger] s[u]).depth == g[u].depth by {}
}

/// New nodes with nothing seen at them leave what was seen and what waits
/// as it was.
pub proof fn lemma_caches_grown(c0: Seq<Vec<usize>>, c1: Seq<Vec<usize>>, q: Seq<(usize, usize)>)
    requires
        c0.len() <= c1.len(),
        forall|i: int| 0 <= i < c0.len() ==> (#[trigger] c1[i]) == c0[i],
        forall|i: int| c0.len() <= i < c1.len() ==> (#[trigger] c1[i])@.len() == 0,
    ensures
        grown(c0, c1, q, q),
{
    assert forall|x: int, s: usize| 0 <= x < c0.len() && c0[x]@.contains(s) implies #[trigger] c1[x]@.contains(
        s,
    ) by {
        assert(c1[x] == c0[x]);
    }
    assert forall|x: int, s: usize|
        0 <= x < c1.len() && #[trigger] c1[x]@.contains(s) && !(x < c0.len() && c0[x]@.contains(
            s,
        )) implies q.contains((x as usize, s)) by {
        if x < c0.len() {
            assert(c1[x] == c0[x]);
        } else {
            assert(c1[x]@.len() == 0);
        }
    }
}

/// A node seen in a state, and queued where that is new, leaves what was
/// seen and what waits as it was.
pub proof fn lemma_visit_grown(
    c0: Seq<Vec<usize>>,
    c1: Seq<Vec<usize>>,
    q0: Seq<(usize, usize)>,
    q1: Seq<(usize, usize)>,
    target: usize,
    state: usize,
)
    requires
        target < c0.len(),
        c1.len() == c0.len(),
        forall|x: int, s: usize|
            0 <= x < c0.len() ==> (#[trigger] c1[x]@.contains(s) <==> c0[x]@.contains(s) || (x
                == target && s == state)),
        q1 == (if c0[target as int]@.contains(state) {
            q0
        } else {
            q0.push((target, state))
        }),
    ensures
        grown(c0, c1, q0, q1),
{
    assert forall|x: int, s: usize|
        0 <= x < c1.len() && #[trigger] c1[x]@.contains(s) && !(x < c0.len() && c0[x]@.contains(
            s,
        )) implies q1.contains((x as usize, s)) by {
        assert(q1[q0.len() as int] == (target, state));
    }
}

/// Nothing has changed.
pub proof fn lemma_grown_same(c: Seq<Vec<usize>>, q: Seq<(usize, usize)>)
    ensures
        grown(c, c, q, q),
{
}

/// Where a phrase of a group stands in the sentence, the group is attached
/// to the lattice.
pub open spec fn paraphrased(
    g: Seq<NodeView>,
    d: Seq<Seq<Seq<Seq<char>>>>,
    words: Seq<Seq<char>>,
) -> bool {
    forall|gi: int, j: int, end: int|
        0 <= gi < d.len() && 0 <= j < d[gi].len() && #[trigger] occurs(words, d[gi][j], end)
            ==> group_attached(g, d[gi])
}

/// What is attached goes along with the edges.
pub proof fn lemma_carried_paraphrased(
    g: Seq<NodeView>,
    h: Seq<NodeView>,
    ren: Seq<int>,
    d: Seq<Seq<Seq<Seq<char>>>>,
    words: Seq<Seq<char>>,
)
    requires
        carried(g, h, ren),
        paraphrased(g, d, words),
        forall|gi: int, j: int|
            0 <= gi < d.len() && 0 <= j < d[gi].len() ==> (#[trigger] d[gi][j]).len() > 0,
    ensures
        paraphrased(h, d, words),
{
    assert forall|gi: int, j: int, end: int|
        0 <= gi < d.len() && 0 <= j < d[gi].len() && #[trigger] occurs(
            words,
            d[gi][j],
            end,
        ) implies group_attached(h, d[gi]) by {
        assert forall|k: int| 0 <= k < d[gi].len() implies (#[trigger] d[gi][k]).len() > 0 by {}
        lemma_carried_group(g, h, ren, d[gi]);
    }
}

/// Where the lattice has room, it has at most the nodes of the chain, as
/// many nodes for each of `count` groups as the heaviest group has tokens,
/// and `extra` nodes more; and every group of the record is attached.
pub open spec fn roomy(
    d: Seq<Seq<Seq<Seq<char>>>>,
    eos: int,
    g: Seq<NodeView>,
    inserted: Seq<(usize, usize, usize)>,
    count: int,
    extra: int,
) -> bool {
    room(d, eos) <= usize::MAX ==> g.len() <= (eos + 1) + count * heaviest(d) + extra
        && attached_all(g, d, inserted)
}

/// Where the lattice has room, the next phrase of the group fits in.
pub proof fn lemma_fits(
    d: Seq<Seq<Seq<Seq<char>>>>,
    eos: int,
    len: int,
    count: int,
    gi: int,
    pi: int,
)
    requires
        room(d, eos) <= usize::MAX,
        0 <= eos,
        0 <= gi < d.len(),
        0 <= pi < d[gi].len(),
        1 <= count <= d.len() * (eos + 1) * (eos + 1),
        len <= (eos + 1) + (count - 1) * heaviest(d) + weight_upto(d[gi], pi),
    ensures
        len + d[gi][pi].len() <= (eos + 1) + (count - 1) * heaviest(d) + weight_upto(d[gi], pi + 1),
        len + d[gi][pi].len() <= usize::MAX,
{
    lemma_weight_upto(d[gi], pi + 1, d[gi].len() as int);
    lemma_heaviest_upto(d, d.len() as int, gi);
    lemma_room(count, d.len() * (eos + 1) * (eos + 1), heaviest(d) as int, eos);
}

/// Once every phrase of the group is in, the lattice is inside the room of
/// one group more.
pub proof fn lemma_filled(
    d: Seq<Seq<Seq<Seq<char>>>>,
    eos: int,
    len: int,
    count: int,
    gi: int,
)
    requires
        0 <= eos,
        0 <= gi < d.len(),
        1 <= count,
        len <= (eos + 1) + (count - 1) * heaviest(d) + weight(d[gi]),
    ensures
        len <= (eos + 1) + count * heaviest(d),
{
    lemma_heaviest_upto(d, d.len() as int, gi);
    lemma_room(count, count, heaviest(d) as int, eos);
}

/// The walks start where they started, in a graph that has grown.
pub proof fn lemma_starts_kept(
    g0: Seq<NodeView>,
    g1: Seq<NodeView>,
    topo0: Seq<int>,
    topo1: Seq<int>,
    starts: Seq<(usize, usize)>,
    node: int,
    p: Seq<Seq<char>>,
)
    requires
        graph_kept(g0, g1, topo0, topo1),
        0 <= node < g0.len(),
        forall|k: int| 0 <= k < starts.len() ==> start_ok(g0, topo0, (#[trigger] starts[k]).0 as int, node),
        forall|k: int|
            0 <= k < starts.len() ==> connects(g0, (#[trigger] starts[k]).0 as int, node, p),
    ensures
        forall|k: int| 0 <= k < starts.len() ==> start_ok(g1, topo1, (#[trigger] starts[k]).0 as int, node),
        forall|k: int|
            0 <= k < starts.len() ==> connects(g1, (#[trigger] starts[k]).0 as int, node, p),
{
    assert forall|k: int| 0 <= k < starts.len() implies start_ok(
        g1,
        topo1,
        (#[trigger] starts[k]).0 as int,
        node,
    ) by {
        let s = starts[k].0 as int;
        assert(start_ok(g0, topo0, s, node));
        assert(topo0[s] < topo0[node]);
        assert(g1[s].forwards.len() >= g0[s].forwards.len());
        assert(g1[node].backwards.len() >= g0[node].backwards.len());
    }
    assert forall|k: int| 0 <= k < starts.len() implies connects(
        g1,
        (#[trigger] starts[k]).0 as int,
        node,
        p,
    ) by {
        lemma_kept_route(g0, g1, starts[k].0 as int, node, p);
    }
}

/// Nothing has changed.
pub proof fn lemma_graph_kept_same(g: Seq<NodeView>, topo: Seq<int>)
    ensures
        graph_kept(g, g, topo, topo),
{
}

} // verus!
