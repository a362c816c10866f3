//! What holds of a lattice from the first chain to the last merge, before
//! its nodes are numbered anew: its edges are held at both ends and lead up
//! in some order of the nodes, only the source has no incoming and only the
//! sink no outgoing edge, and the trunk spells the sentence.

use vstd::prelude::*;
use crate::chain::chain_nodes;
use crate::edge::{EdgeView, sorted, lemma_insert_sorted};
use crate::expand::{
    splice, with_forward, branch_node, branch_nodes, branch_first, branch_last, preds, step_back,
    walks_back,
};
use crate::lattice::main_ok;
use crate::node::{NodeView, nodes_sorted};

verus! {

/// Node `i` was merged into another: it lies outside the trunk and has no
/// edges left.
pub open spec fn dead(g: Seq<NodeView>, eos: int, i: int) -> bool {
    i > eos && g[i].forwards.len() == 0 && g[i].backwards.len() == 0
}

/// An outgoing edge of node `i` leads up in the order `topo` and is held at
/// its end.
pub open spec fn up_ok(g: Seq<NodeView>, topo: Seq<int>, i: int, e: EdgeView) -> bool {
    0 <= e.1 < g.len() && topo[i] < topo[e.1] && g[e.1].backwards.contains((e.0, i))
}

/// An incoming edge of node `i` is held at its start.
pub open spec fn down_ok(g: Seq<NodeView>, i: int, e: EdgeView) -> bool {
    0 <= e.1 < g.len() && g[e.1].forwards.contains((e.0, i))
}

/// Node `i` is in order.
pub open spec fn node_sound(g: Seq<NodeView>, eos: int, topo: Seq<int>, i: int) -> bool {
    &&& forall|k: int| 0 <= k < g[i].forwards.len() ==> up_ok(g, topo, i, #[trigger] g[i].forwards[k])
    &&& forall|k: int| 0 <= k < g[i].backwards.len() ==> down_ok(g, i, #[trigger] g[i].backwards[k])
    &&& (g[i].forwards.len() == 0 <==> (i == eos || dead(g, eos, i)))
    &&& (g[i].backwards.len() == 0 <==> (i == 0 || dead(g, eos, i)))
    &&& (!dead(g, eos, i) ==> main_ok(g[i].forward_main, g[i].forwards) && main_ok(
        g[i].backward_main,
        g[i].backwards,
    ))
}

/// The graph is a lattice of the sentence `words` but for the numbers of its
/// nodes: the nodes `0..=eos` are the trunk.
pub open spec fn sound(
    g: Seq<NodeView>,
    eos: int,
    topo: Seq<int>,
    words: Seq<Seq<char>>,
) -> bool {
    &&& 0 <= eos < g.len()
    &&& topo.len() == g.len()
    &&& forall|i: int| 0 <= i < topo.len() ==> 0 <= #[trigger] topo[i]
    &&& words.len() == eos
    &&& nodes_sorted(g)
    &&& forall|i: int| 0 <= i < g.len() ==> #[trigger] node_sound(g, eos, topo, i)
    &&& forall|i: int| 0 <= i < eos ==> (#[trigger] g[i]).forward_main == Some((words[i], i + 1))
}

/// A branch can start at node `s` and end at node `node`: `s` comes before
/// `node` in the order and has an outgoing edge.
pub open spec fn start_ok(g: Seq<NodeView>, topo: Seq<int>, s: int, node: int) -> bool {
    &&& 0 <= s < g.len()
    &&& topo[s] < topo[node]
    &&& g[s].forwards.len() > 0
    &&& g[node].backwards.len() > 0
}

/// The order of a chain: that of its node ids.
pub open spec fn chain_topo(words: Seq<Seq<char>>) -> Seq<int> {
    Seq::new(words.len() + 1, |i: int| i)
}

pub proof fn lemma_chain_sound(words: Seq<Seq<char>>)
    ensures
        sound(chain_nodes(words), words.len() as int, chain_topo(words), words),
{
    let g = chain_nodes(words);
    let eos = words.len() as int;
    let topo = chain_topo(words);
    assert forall|i: int| #![trigger g[i]] 0 <= i < g.len() implies sorted(g[i].forwards)
        && sorted(g[i].backwards) by {}
    assert forall|i: int| 0 <= i < g.len() implies #[trigger] node_sound(g, eos, topo, i) by {
        if i < eos {
            assert(g[i].forwards[0] == (words[i], i + 1));
            assert(g[i + 1].backwards[0] == (words[i], i));
        }
        if i > 0 {
            assert(g[i].backwards[0] == (words[i - 1], i - 1));
            assert(g[i - 1].forwards[0] == (words[i - 1], i));
        }
    }
}

/// The order after a branch of `count` inner nodes from `start` to `end` was
/// added: the nodes from `end` on in the order make room for the new nodes.
pub open spec fn splice_topo(topo: Seq<int>, count: int, end: int) -> Seq<int> {
    Seq::new(
        topo.len(),
        |i: int|
            if topo[i] >= topo[end] {
                topo[i] + count + 1
            } else {
                topo[i]
            },
    ) + Seq::new(count as nat, |j: int| topo[end] + j)
}

/// A branch spliced in between a node and a later node leaves the lattice in
/// order.
pub proof fn lemma_splice_sound(
    g: Seq<NodeView>,
    eos: int,
    topo: Seq<int>,
    words: Seq<Seq<char>>,
    q: Seq<Seq<char>>,
    start: int,
    end: int,
    depth: nat,
)
    requires
        sound(g, eos, topo, words),
        q.len() >= 1,
        0 <= start < g.len(),
        0 <= end < g.len(),
        topo[start] < topo[end],
        g[start].forwards.len() > 0,
        g[end].backwards.len() > 0,
    ensures
        sound(splice(g, q, start, end, depth), eos, splice_topo(topo, q.len() - 1, end), words),
        forall|x: int, y: int|
            #![trigger topo[x], topo[y]]
            0 <= x < g.len() && 0 <= y < g.len() && topo[x] < topo[y] ==> splice_topo(
                topo,
                q.len() - 1,
                end,
            )[x] < splice_topo(topo, q.len() - 1, end)[y],
        forall|x: int|
            0 <= x < g.len() ==> (#[trigger] splice(g, q, start, end, depth)[x]).forwards.len()
                >= g[x].forwards.len() && splice(g, q, start, end, depth)[x].backwards.len()
                >= g[x].backwards.len(),
{
    let n = g.len() as int;
    let m = q.len() as int;
    let s = splice(g, q, start, end, depth);
    let t = splice_topo(topo, m - 1, end);
    let first = branch_first(g, q, end);
    let last = branch_last(g, q, start);
    let e0 = (q[0], first);
    let e1 = (q[m - 1], last);
    let g1 = g.update(start, with_forward(g[start], e0));
    let g2 = g1 + branch_nodes(q, m - 1, n, start, end, depth);
    assert(s.len() == n + m - 1);
    assert(node_sound(g, eos, topo, start));
    assert(node_sound(g, eos, topo, end));
    assert(sorted(g[start].forwards) && sorted(g[start].backwards));
    assert(sorted(g[end].forwards) && sorted(g[end].backwards));
    lemma_insert_sorted(g[start].forwards, e0);
    lemma_insert_sorted(g2[end].backwards, e1);
    assert(start != end);
    assert(g2[end].backwards == g[end].backwards);
    assert forall|i: int| #![trigger s[i]] 0 <= i < s.len() implies sorted(s[i].forwards)
        && sorted(s[i].backwards) by {
        if i < n {
            assert(sorted(g[i].forwards) && sorted(g[i].backwards));
        } else {
            assert(s[i] == branch_node(q, i - n, n, start, end, depth));
        }
    }
    // what the nodes hold after the splice
    assert forall|i: int, x: EdgeView| 0 <= i < n implies (#[trigger] s[i].forwards.contains(x) <==> (
    g[i].forwards.contains(x) || (i == start && x == e0))) by {}
    assert forall|i: int, x: EdgeView| 0 <= i < n implies (#[trigger] s[i].backwards.contains(x) <==> (
    g[i].backwards.contains(x) || (i == end && x == e1))) by {}
    assert forall|i: int| 0 <= i < s.len() implies #[trigger] node_sound(s, eos, t, i) by {
        if i < n {
            assert(node_sound(g, eos, topo, i));
            assert forall|k: int| 0 <= k < s[i].forwards.len() implies up_ok(
                s,
                t,
                i,
                #[trigger] s[i].forwards[k],
            ) by {
                let x = s[i].forwards[k];
                assert(s[i].forwards.contains(x));
                if g[i].forwards.contains(x) {
                    let k0 = choose|k0: int| 0 <= k0 < g[i].forwards.len() && g[i].forwards[k0] == x;
                    assert(up_ok(g, topo, i, g[i].forwards[k0]));
                    assert(s[x.1].backwards.contains((x.0, i)));
                } else {
                    assert(x == e0 && i == start);
                    if m == 1 {
                        assert(s[end].backwards.contains(e1));
                    } else {
                        assert(s[n] == branch_node(q, 0, n, start, end, depth));
                        assert(s[n].backwards[0] == (q[0], start));
                    }
                }
            }
            assert forall|k: int| 0 <= k < s[i].backwards.len() implies down_ok(
                s,
                i,
                #[trigger] s[i].backwards[k],
            ) by {
                let x = s[i].backwards[k];
                assert(s[i].backwards.contains(x));
                if g[i].backwards.contains(x) {
                    let k0 = choose|k0: int|
                        0 <= k0 < g[i].backwards.len() && g[i].backwards[k0] == x;
                    assert(down_ok(g, i, g[i].backwards[k0]));
                    assert(s[x.1].forwards.contains((x.0, i)));
                } else {
                    assert(x == e1 && i == end);
                    if m == 1 {
                        assert(s[start].forwards.contains(e0));
                    } else {
                        assert(s[n + m - 2] == branch_node(q, m - 2, n, start, end, depth));
                        assert(s[n + m - 2].forwards[0] == (q[m - 1], end));
                    }
                }
            }
            if g[i].forwards.len() > 0 {
                assert(g[i].forwards.contains(g[i].forwards[0]));
                assert(s[i].forwards.contains(g[i].forwards[0]));
            }
            if g[i].backwards.len() > 0 {
                assert(g[i].backwards.contains(g[i].backwards[0]));
                assert(s[i].backwards.contains(g[i].backwards[0]));
            }
            if s[i].forwards.len() > 0 && g[i].forwards.len() == 0 {
                assert(s[i].forwards.contains(s[i].forwards[0]));
            }
            if s[i].backwards.len() > 0 && g[i].backwards.len() == 0 {
                assert(s[i].backwards.contains(s[i].backwards[0]));
            }
            if !dead(s, eos, i) {
                assert(!dead(g, eos, i));
                match g[i].forward_main {
                    Some(fm) => {
                        assert(s[i].forwards.contains(fm));
                    },
                    None => {},
                }
                match g[i].backward_main {
                    Some(bm) => {
                        assert(s[i].backwards.contains(bm));
                    },
                    None => {},
                }
            }
        } else {
            let j = i - n;
            assert(s[i] == branch_node(q, j, n, start, end, depth));
            let fw = s[i].forwards[0];
            let bw = s[i].backwards[0];
            assert(s[i].forwards.contains(fw));
            assert(s[i].backwards.contains(bw));
            if j + 2 == m {
                assert(s[end].backwards.contains(e1));
            } else {
                assert(s[i + 1] == branch_node(q, j + 1, n, start, end, depth));
                assert(s[i + 1].backwards[0] == (q[j + 1], i));
            }
            if j == 0 {
                assert(s[start].forwards.contains(e0));
            } else {
                assert(s[i - 1] == branch_node(q, j - 1, n, start, end, depth));
                assert(s[i - 1].forwards[0] == (q[j], i));
            }
        }
    }
    assert forall|i: int| 0 <= i < eos implies (#[trigger] s[i]).forward_main == Some(
        (words[i], i + 1),
    ) by {
        assert(g[i].forward_main == Some((words[i], i + 1)));
    }
    assert forall|x: int|
        0 <= x < g.len() implies (#[trigger] s[x]).forwards.len() >= g[x].forwards.len()
        && s[x].backwards.len() >= g[x].backwards.len() by {}
}

/// Every walk that goes one edge back from `item` has come over an incoming
/// edge of its node.
pub proof fn lemma_preds_origin(
    g: Seq<NodeView>,
    item: (int, nat),
    tok: Seq<char>,
    max_depth: nat,
    upto: int,
    idx: int,
) -> (r: int)
    requires
        0 <= upto <= g[item.0].backwards.len(),
        0 <= idx < preds(g, item, tok, max_depth, upto).len(),
    ensures
        0 <= r < upto,
        preds(g, item, tok, max_depth, upto)[idx].0 == g[item.0].backwards[r].1,
        g[item.0].backwards[r].0 == tok,
    decreases upto,
{
    let e = g[item.0].backwards[upto - 1];
    let rest = preds(g, item, tok, max_depth, upto - 1);
    if e.0 == tok && g[e.1].depth < max_depth && idx == rest.len() {
        upto - 1
    } else {
        lemma_preds_origin(g, item, tok, max_depth, upto - 1, idx)
    }
}

/// Every walk of a step back has come from one of the walks before the step,
/// over an incoming edge of its node.
pub proof fn lemma_step_back_origin(
    g: Seq<NodeView>,
    items: Seq<(int, nat)>,
    tok: Seq<char>,
    max_depth: nat,
    idx: int,
) -> (r: (int, int))
    requires
        0 <= idx < step_back(g, items, tok, max_depth).len(),
    ensures
        0 <= r.0 < items.len(),
        0 <= r.1 < g[items[r.0].0].backwards.len(),
        step_back(g, items, tok, max_depth)[idx].0 == g[items[r.0].0].backwards[r.1].1,
        g[items[r.0].0].backwards[r.1].0 == tok,
    decreases items.len(),
{
    let front = step_back(g, items.drop_last(), tok, max_depth);
    if idx < front.len() {
        let (q, r) = lemma_step_back_origin(g, items.drop_last(), tok, max_depth, idx);
        assert(items.drop_last()[q] == items[q]);
        (q, r)
    } else {
        let last = items.last();
        let r = lemma_preds_origin(
            g,
            last,
            tok,
            max_depth,
            g[last.0].backwards.len() as int,
            idx - front.len(),
        );
        (items.len() - 1, r)
    }
}

/// A walk back through a lattice in order starts at an earlier node, which
/// has an outgoing edge, and ends at a node with an incoming edge.
pub proof fn lemma_walks_sound(
    g: Seq<NodeView>,
    eos: int,
    topo: Seq<int>,
    words: Seq<Seq<char>>,
    p: Seq<Seq<char>>,
    pos: int,
    max_depth: nat,
    k: int,
    idx: int,
)
    requires
        sound(g, eos, topo, words),
        0 <= pos < g.len(),
        0 <= k <= p.len(),
        0 <= idx < walks_back(g, p, pos, max_depth, k).len(),
    ensures
        0 <= walks_back(g, p, pos, max_depth, k)[idx].0 < g.len(),
        topo[walks_back(g, p, pos, max_depth, k)[idx].0] + (p.len() - k) <= topo[pos],
        k < p.len() ==> g[walks_back(g, p, pos, max_depth, k)[idx].0].forwards.len() > 0
            && g[pos].backwards.len() > 0,
    decreases p.len() - k,
{
    if k < p.len() {
        let items = walks_back(g, p, pos, max_depth, k + 1);
        let (q, r) = lemma_step_back_origin(g, items, p[k], max_depth, idx);
        lemma_walks_sound(g, eos, topo, words, p, pos, max_depth, k + 1, q);
        let node = items[q].0;
        let e = g[node].backwards[r];
        assert(node_sound(g, eos, topo, node));
        assert(down_ok(g, node, g[node].backwards[r]));
        let s = e.1;
        assert(node_sound(g, eos, topo, s));
        let i = choose|i: int| 0 <= i < g[s].forwards.len() && g[s].forwards[i] == (e.0, node);
        assert(up_ok(g, topo, s, g[s].forwards[i]));
        if k + 1 == p.len() {
            assert(node == pos);
        }
    }
}

} // verus!
