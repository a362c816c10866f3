//! Sentences that derive from a sentence by putting paraphrases in the place
//! of phrases, and why every sentence that a lattice spells from its source
//! to its sink is one of them.

use vstd::prelude::*;
use crate::chain::{chain_nodes, chain_node};
use crate::edge::{EdgeView, sorted, lemma_insert_sorted};
use crate::expand::{splice, with_forward, branch_node, branch_first};
use crate::merge::{
    mergeable, merged_backward, merged_forward, oriented, lemma_edge_up, lemma_edge_down,
};
use crate::node::NodeView;
use crate::paraphrase::{edge_at, hop, route_ok, connects, carried};
use crate::sound::{
    sound, node_sound, up_ok, start_ok, splice_topo, lemma_splice_sound,
};

verus! {

/// The sentence `y` is the sentence `x` with phrase `k` of group `gi` in the
/// place of phrase `j` of that group, between `pre` and `post`.
pub open spec fn replaced(
    d: Seq<Seq<Seq<Seq<char>>>>,
    gi: int,
    j: int,
    k: int,
    pre: Seq<Seq<char>>,
    post: Seq<Seq<char>>,
    x: Seq<Seq<char>>,
    y: Seq<Seq<char>>,
) -> bool {
    &&& 0 <= gi < d.len()
    &&& 0 <= j < d[gi].len()
    &&& 0 <= k < d[gi].len()
    &&& x == pre + d[gi][j] + post
    &&& y == pre + d[gi][k] + post
}

/// The sentence `y` is the sentence `x` with one phrase replaced by a
/// phrase of its group.
pub open spec fn rewrites(
    d: Seq<Seq<Seq<Seq<char>>>>,
    x: Seq<Seq<char>>,
    y: Seq<Seq<char>>,
) -> bool {
    exists|gi: int, j: int, k: int, pre: Seq<Seq<char>>, post: Seq<Seq<char>>| #[trigger]
        replaced(d, gi, j, k, pre, post, x, y)
}

/// The sentences lead from `x` to `y`, each but the first being the one
/// before it with one phrase replaced.
pub open spec fn derivation(
    d: Seq<Seq<Seq<Seq<char>>>>,
    steps: Seq<Seq<Seq<char>>>,
    x: Seq<Seq<char>>,
    y: Seq<Seq<char>>,
) -> bool {
    &&& steps.len() >= 1
    &&& steps[0] == x
    &&& steps.last() == y
    &&& forall|i: int| 0 <= i < steps.len() - 1 ==> rewrites(d, #[trigger] steps[i], steps[i + 1])
}

/// The sentence `y` comes of the sentence `x` by replacing phrases by
/// phrases of their groups, any number of times.
pub open spec fn derives(d: Seq<Seq<Seq<Seq<char>>>>, x: Seq<Seq<char>>, y: Seq<Seq<char>>) -> bool {
    exists|steps: Seq<Seq<Seq<char>>>| #[trigger] derivation(d, steps, x, y)
}

/// A sentence comes of itself.
pub proof fn lemma_derives_self(d: Seq<Seq<Seq<Seq<char>>>>, x: Seq<Seq<char>>)
    ensures
        derives(d, x, x),
{
    assert(derivation(d, seq![x], x, x));
}

/// One more replacement.
pub proof fn lemma_derives_step(
    d: Seq<Seq<Seq<Seq<char>>>>,
    x: Seq<Seq<char>>,
    z: Seq<Seq<char>>,
    y: Seq<Seq<char>>,
)
    requires
        derives(d, x, z),
        rewrites(d, z, y),
    ensures
        derives(d, x, y),
{
    let steps = choose|steps: Seq<Seq<Seq<char>>>| #[trigger] derivation(d, steps, x, z);
    let longer = steps.push(y);
    assert forall|i: int| 0 <= i < longer.len() - 1 implies rewrites(
        d,
        #[trigger] longer[i],
        longer[i + 1],
    ) by {
        if i < steps.len() - 1 {
            assert(rewrites(d, steps[i], steps[i + 1]));
        }
    }
    assert(derivation(d, longer, x, y));
}

/// The route leads from the source to the sink.
pub open spec fn full_route(
    g: Seq<NodeView>,
    eos: int,
    nodes: Seq<int>,
    q: Seq<Seq<char>>,
) -> bool {
    route_ok(g, nodes, q) && nodes[0] == 0 && nodes.last() == eos
}

/// The lattice spells the sentence `q` from its source to its sink.
pub open spec fn spelled(g: Seq<NodeView>, eos: int, q: Seq<Seq<char>>) -> bool {
    exists|nodes: Seq<int>| #[trigger] full_route(g, eos, nodes, q)
}

/// Every sentence that the lattice spells from its source to its sink comes
/// of the sentence `words` by replacing phrases by phrases of their groups.
pub open spec fn faithful(
    g: Seq<NodeView>,
    eos: int,
    d: Seq<Seq<Seq<Seq<char>>>>,
    words: Seq<Seq<char>>,
) -> bool {
    forall|q: Seq<Seq<char>>| #[trigger] spelled(g, eos, q) ==> derives(d, words, q)
}

/// Every sentence that `h` spells from its source to the sink `to`, `g`
/// spells from its source to the sink `from`.
pub open spec fn no_more(g: Seq<NodeView>, from: int, h: Seq<NodeView>, to: int) -> bool {
    forall|q: Seq<Seq<char>>| #[trigger] spelled(h, to, q) ==> spelled(g, from, q)
}

pub proof fn lemma_no_more_faithful(
    g: Seq<NodeView>,
    from: int,
    h: Seq<NodeView>,
    to: int,
    d: Seq<Seq<Seq<Seq<char>>>>,
    words: Seq<Seq<char>>,
)
    requires
        faithful(g, from, d, words),
        no_more(g, from, h, to),
    ensures
        faithful(h, to, d, words),
{
    assert forall|q: Seq<Seq<char>>| #[trigger] spelled(h, to, q) implies derives(d, words, q) by {
        assert(spelled(g, from, q));
    }
}

pub proof fn lemma_no_more_chain(
    g: Seq<NodeView>,
    a: int,
    h: Seq<NodeView>,
    b: int,
    k: Seq<NodeView>,
    c: int,
)
    requires
        no_more(g, a, h, b),
        no_more(h, b, k, c),
    ensures
        no_more(g, a, k, c),
{
    assert forall|q: Seq<Seq<char>>| #[trigger] spelled(k, c, q) implies spelled(g, a, q) by {
        assert(spelled(h, b, q));
    }
}

/// Along a route through a lattice in order, the nodes come later and later
/// in the order.
pub proof fn lemma_route_up(
    g: Seq<NodeView>,
    eos: int,
    topo: Seq<int>,
    words: Seq<Seq<char>>,
    nodes: Seq<int>,
    q: Seq<Seq<char>>,
    i: int,
    j: int,
)
    requires
        sound(g, eos, topo, words),
        route_ok(g, nodes, q),
        0 <= i <= j <= q.len(),
    ensures
        topo[nodes[i]] + (j - i) <= topo[nodes[j]],
    decreases j - i,
{
    if i < j {
        lemma_route_up(g, eos, topo, words, nodes, q, i, j - 1);
        assert(hop(g, nodes, q, j - 1));
        let u = nodes[j - 1];
        let e = (q[j - 1], nodes[j]);
        assert(node_sound(g, eos, topo, u));
        let r = choose|r: int| 0 <= r < g[u].forwards.len() && #[trigger] g[u].forwards[r] == e;
        assert(up_ok(g, topo, u, g[u].forwards[r]));
    }
}

/// Two routes, of which the second begins where the first ends, make one
/// route.
pub proof fn lemma_route_join(
    g: Seq<NodeView>,
    n1: Seq<int>,
    q1: Seq<Seq<char>>,
    n2: Seq<int>,
    q2: Seq<Seq<char>>,
)
    requires
        route_ok(g, n1, q1),
        route_ok(g, n2, q2),
        n1.last() == n2[0],
    ensures
        route_ok(g, n1 + n2.drop_first(), q1 + q2),
        (n1 + n2.drop_first())[0] == n1[0],
        (n1 + n2.drop_first()).last() == n2.last(),
{
    let nodes = n1 + n2.drop_first();
    let q = q1 + q2;
    assert forall|t: int| 0 <= t < q.len() implies #[trigger] hop(g, nodes, q, t) by {
        if t < q1.len() {
            assert(hop(g, n1, q1, t));
            if t + 1 == q1.len() {
                assert(nodes[t + 1] == n1.last());
            }
        } else {
            let u = t - q1.len();
            assert(hop(g, n2, q2, u));
            assert(q[t] == q2[u]);
            assert(nodes[t + 1] == n2[u + 1]);
            if u == 0 {
                assert(nodes[t] == n1.last());
            } else {
                assert(nodes[t] == n2[u]);
            }
        }
    }
}

/// A part of a route is a route.
pub proof fn lemma_route_part(
    g: Seq<NodeView>,
    nodes: Seq<int>,
    q: Seq<Seq<char>>,
    i: int,
    j: int,
)
    requires
        route_ok(g, nodes, q),
        0 <= i <= j <= q.len(),
    ensures
        route_ok(g, nodes.subrange(i, j + 1), q.subrange(i, j)),
{
    let part = nodes.subrange(i, j + 1);
    let qs = q.subrange(i, j);
    assert forall|t: int| 0 <= t < qs.len() implies #[trigger] hop(g, part, qs, t) by {
        assert(hop(g, nodes, q, i + t));
    }
}

/// The chain of a sentence spells the sentence alone.
pub proof fn lemma_chain_faithful(d: Seq<Seq<Seq<Seq<char>>>>, words: Seq<Seq<char>>)
    ensures
        faithful(chain_nodes(words), words.len() as int, d, words),
{
    let g = chain_nodes(words);
    let eos = words.len() as int;
    assert forall|q: Seq<Seq<char>>| #[trigger] spelled(g, eos, q) implies derives(d, words, q) by {
        let nodes = choose|nodes: Seq<int>| #[trigger] full_route(g, eos, nodes, q);
        lemma_chain_route(words, nodes, q, q.len() as int);
        assert(q =~= words);
        lemma_derives_self(d, words);
    }
}

/// A route through a chain from its first node goes from each node to the
/// next.
proof fn lemma_chain_route(words: Seq<Seq<char>>, nodes: Seq<int>, q: Seq<Seq<char>>, t: int)
    requires
        route_ok(chain_nodes(words), nodes, q),
        nodes[0] == 0,
        0 <= t <= q.len(),
    ensures
        nodes[t] == t,
        t <= words.len(),
        forall|i: int| 0 <= i < t ==> q[i] == words[i],
    decreases t,
{
    let g = chain_nodes(words);
    if t > 0 {
        lemma_chain_route(words, nodes, q, t - 1);
        assert(hop(g, nodes, q, t - 1));
        assert(g[t - 1] == chain_node(words, t - 1));
        let e = (q[t - 1], nodes[t]);
        assert(g[t - 1].forwards.contains(e));
        let r = choose|r: int|
            0 <= r < g[t - 1].forwards.len() && #[trigger] g[t - 1].forwards[r] == e;
        assert(r == 0);
    }
}

/// The first hop of the route, among its first `upto`, that is no edge of
/// `g`; `upto` where there is none.
proof fn lemma_first_new(g: Seq<NodeView>, nodes: Seq<int>, q: Seq<Seq<char>>, upto: int) -> (t: int)
    requires
        0 <= upto <= q.len(),
    ensures
        0 <= t <= upto,
        forall|i: int| 0 <= i < t ==> #[trigger] hop(g, nodes, q, i),
        t < upto ==> !hop(g, nodes, q, t),
    decreases upto,
{
    if upto == 0 {
        0
    } else {
        let t = lemma_first_new(g, nodes, q, upto - 1);
        if t < upto - 1 {
            t
        } else if hop(g, nodes, q, upto - 1) {
            upto
        } else {
            upto - 1
        }
    }
}

/// A hop from a node of `g` that is an edge of the spliced graph and no
/// edge of `g` is the first edge of the branch.
proof fn lemma_new_hop(
    g: Seq<NodeView>,
    eos: int,
    topo: Seq<int>,
    words: Seq<Seq<char>>,
    q: Seq<Seq<char>>,
    start: int,
    end: int,
    depth: nat,
    u: int,
    e: EdgeView,
)
    requires
        sound(g, eos, topo, words),
        q.len() >= 1,
        0 <= start < g.len(),
        0 <= end < g.len(),
        0 <= u < g.len(),
        edge_at(splice(g, q, start, end, depth), u, e),
        !edge_at(g, u, e),
    ensures
        u == start,
        e == (q[0], branch_first(g, q, end)),
{
    let s = splice(g, q, start, end, depth);
    let e0 = (q[0], branch_first(g, q, end));
    assert(sorted(g[start].forwards) && sorted(g[start].backwards));
    lemma_insert_sorted(g[start].forwards, e0);
    let g1 = g.update(start, with_forward(g[start], e0));
    assert(s[u].forwards == g1[u].forwards);
    if g[u].forwards.contains(e) {
        assert(node_sound(g, eos, topo, u));
        let r = choose|r: int| 0 <= r < g[u].forwards.len() && #[trigger] g[u].forwards[r] == e;
        assert(up_ok(g, topo, u, g[u].forwards[r]));
    }
}

/// A route that takes the first edge of a branch goes on along the branch
/// to its end.
proof fn lemma_branch_forced(
    g: Seq<NodeView>,
    eos: int,
    q: Seq<Seq<char>>,
    start: int,
    end: int,
    depth: nat,
    nodes: Seq<int>,
    r: Seq<Seq<char>>,
    t: int,
    i: int,
)
    requires
        0 <= eos < g.len(),
        q.len() >= 1,
        0 <= start < g.len(),
        0 <= end < g.len(),
        route_ok(splice(g, q, start, end, depth), nodes, r),
        nodes.last() == eos,
        0 <= t < r.len(),
        r[t] == q[0],
        nodes[t + 1] == branch_first(g, q, end),
        0 <= i < q.len(),
    ensures
        t + i < r.len(),
        r[t + i] == q[i],
        nodes[t + i + 1] == (if i + 1 == q.len() {
            end
        } else {
            g.len() + i
        }),
    decreases i,
{
    let s = splice(g, q, start, end, depth);
    let n = g.len() as int;
    if i > 0 {
        lemma_branch_forced(g, eos, q, start, end, depth, nodes, r, t, i - 1);
        let x = nodes[t + i];
        assert(x == n + i - 1);
        assert(t + i < r.len()) by {
            if t + i >= r.len() {
                assert(nodes[t + i] == nodes.last());
            }
        }
        assert(hop(s, nodes, r, t + i));
        assert(s[x] == branch_node(q, i - 1, n, start, end, depth));
        let e = (r[t + i], nodes[t + i + 1]);
        let k = choose|k: int| 0 <= k < s[x].forwards.len() && #[trigger] s[x].forwards[k] == e;
        assert(k == 0);
    }
}

/// A branch that spells a phrase, spliced in where a phrase of the same
/// group is spelled, leaves the lattice faithful to the sentence.
pub proof fn lemma_splice_faithful(
    g: Seq<NodeView>,
    eos: int,
    topo: Seq<int>,
    words: Seq<Seq<char>>,
    d: Seq<Seq<Seq<Seq<char>>>>,
    gi: int,
    j: int,
    k: int,
    start: int,
    end: int,
    depth: nat,
)
    requires
        sound(g, eos, topo, words),
        faithful(g, eos, d, words),
        start_ok(g, topo, start, end),
        0 <= end < g.len(),
        0 <= gi < d.len(),
        0 <= j < d[gi].len(),
        0 <= k < d[gi].len(),
        d[gi][k].len() >= 1,
        connects(g, start, end, d[gi][j]),
    ensures
        faithful(splice(g, d[gi][k], start, end, depth), eos, d, words),
{
    let q = d[gi][k];
    let p = d[gi][j];
    let s = splice(g, q, start, end, depth);
    let n = g.len() as int;
    let m = q.len() as int;
    let topo2 = splice_topo(topo, m - 1, end);
    lemma_splice_sound(g, eos, topo, words, q, start, end, depth);
    assert forall|r: Seq<Seq<char>>| #[trigger] spelled(s, eos, r) implies derives(d, words, r) by {
        let nodes = choose|nodes: Seq<int>| #[trigger] full_route(s, eos, nodes, r);
        let len = r.len() as int;
        let t = lemma_first_new(g, nodes, r, len);
        if t == len {
            assert(route_ok(g, nodes, r));
            assert(full_route(g, eos, nodes, r));
            assert(spelled(g, eos, r));
        } else {
            // the route leaves the old graph at the start of the branch
            if t > 0 {
                assert(hop(g, nodes, r, t - 1));
            }
            assert(hop(s, nodes, r, t));
            lemma_new_hop(
                g,
                eos,
                topo,
                words,
                q,
                start,
                end,
                depth,
                nodes[t],
                (r[t], nodes[t + 1]),
            );
            // and follows the branch to its end
            lemma_branch_forced(g, eos, q, start, end, depth, nodes, r, t, m - 1);
            assert forall|i: int| 0 <= i < m implies r[t + i] == q[i] by {
                lemma_branch_forced(g, eos, q, start, end, depth, nodes, r, t, i);
            }
            assert(nodes[t + m] == end);
            // from there it stays in the old graph
            let nodes2 = nodes.subrange(t + m, len + 1);
            let r2 = r.subrange(t + m, len);
            lemma_route_part(s, nodes, r, t + m, len);
            let t2 = lemma_first_new(g, nodes2, r2, r2.len() as int);
            if t2 < r2.len() {
                if t2 > 0 {
                    assert(hop(g, nodes2, r2, t2 - 1));
                }
                assert(hop(s, nodes2, r2, t2));
                lemma_new_hop(
                    g,
                    eos,
                    topo,
                    words,
                    q,
                    start,
                    end,
                    depth,
                    nodes2[t2],
                    (r2[t2], nodes2[t2 + 1]),
                );
                assert(nodes2[t2] == nodes[t + m + t2]);
                lemma_route_up(s, eos, topo2, words, nodes, r, t, t + m + t2);
                assert(false);
            }
            assert(route_ok(g, nodes2, r2));
            let nodes1 = nodes.subrange(0, t + 1);
            let r1 = r.subrange(0, t);
            assert forall|i: int| 0 <= i < r1.len() implies #[trigger] hop(g, nodes1, r1, i) by {
                assert(hop(g, nodes, r, i));
            }
            assert(route_ok(g, nodes1, r1));
            let pn = choose|pn: Seq<int>| #[trigger]
                route_ok(g, pn, p) && pn[0] == start && pn.last() == end;
            lemma_route_join(g, nodes1, r1, pn, p);
            let na = nodes1 + pn.drop_first();
            lemma_route_join(g, na, r1 + p, nodes2, r2);
            let nb = na + nodes2.drop_first();
            let old_sentence = r1 + p + r2;
            assert(nodes2.last() == nodes.last());
            assert(full_route(g, eos, nb, old_sentence));
            assert(spelled(g, eos, old_sentence));
            assert(r =~= r1 + q + r2);
            assert(replaced(d, gi, j, k, r1, r2, old_sentence, r));
            lemma_derives_step(d, words, old_sentence, r);
        }
    }
}

/// The node of the lattice before a merge by incoming edges that stands at
/// place `t` of a route through the lattice after it: the merged node,
/// where the route leaves the node merged into over an edge that was the
/// merged node's own.
pub open spec fn unmerged_backward(
    g: Seq<NodeView>,
    a: int,
    b: int,
    nodes: Seq<int>,
    q: Seq<Seq<char>>,
    t: int,
) -> int {
    if nodes[t] == a && t < q.len() && !g[a].forwards.contains((q[t], nodes[t + 1])) {
        b
    } else {
        nodes[t]
    }
}

/// A merge by incoming edges lets the lattice spell no sentence that it did
/// not spell.
pub proof fn lemma_merged_backward_no_more(
    g: Seq<NodeView>,
    h: Seq<NodeView>,
    eos: int,
    topo: Seq<int>,
    words: Seq<Seq<char>>,
    a: int,
    b: int,
)
    requires
        sound(g, eos, topo, words),
        mergeable(g, a, b),
        merged_backward(g, h, a, b),
        g[a].backwards == g[b].backwards,
        g[b].backwards.len() > 0,
        eos < b,
    ensures
        no_more(g, eos, h, eos),
{
    assert(node_sound(g, eos, topo, a));
    assert(node_sound(g, eos, topo, b));
    assert forall|q: Seq<Seq<char>>| #[trigger] spelled(h, eos, q) implies spelled(g, eos, q) by {
        let nodes = choose|nodes: Seq<int>| #[trigger] full_route(h, eos, nodes, q);
        let back = Seq::new(nodes.len(), |t: int| unmerged_backward(g, a, b, nodes, q, t));
        assert forall|t: int| 0 <= t < q.len() implies #[trigger] hop(g, back, q, t) by {
            assert(hop(h, nodes, q, t));
            let x = nodes[t];
            let y = nodes[t + 1];
            let e = (q[t], y);
            if x == b {
                assert(h[b].forwards.contains(e));
            } else if x == a {
                assert(h[a].forwards.contains(e));
                if g[a].forwards.contains(e) {
                    lemma_edge_up(g, eos, topo, words, a, e);
                } else {
                    assert(g[b].forwards.contains(e));
                    lemma_edge_up(g, eos, topo, words, b, e);
                }
                assert(y != a && y != b);
            } else {
                assert(h[x].forwards.contains(e));
                assert(g[x].forwards.contains(e) && y != b);
                lemma_edge_up(g, eos, topo, words, x, e);
                if y == a {
                    assert(g[b].backwards.contains((q[t], x)));
                    lemma_edge_down(g, eos, topo, words, b, (q[t], x));
                }
            }
        }
        assert(route_ok(g, back, q));
        assert(full_route(g, eos, back, q));
    }
}

/// The node of the lattice before a merge by outgoing edges that stands at
/// place `t` of a route through the lattice after it: the merged node,
/// where the route comes to the node merged into over an edge that was the
/// merged node's own.
pub open spec fn unmerged_forward(
    g: Seq<NodeView>,
    a: int,
    b: int,
    nodes: Seq<int>,
    q: Seq<Seq<char>>,
    t: int,
) -> int {
    if nodes[t] == a && t > 0 && !g[nodes[t - 1]].forwards.contains((q[t - 1], a)) {
        b
    } else {
        nodes[t]
    }
}

/// A merge by outgoing edges lets the lattice spell no sentence that it did
/// not spell.
pub proof fn lemma_merged_forward_no_more(
    g: Seq<NodeView>,
    h: Seq<NodeView>,
    eos: int,
    topo: Seq<int>,
    words: Seq<Seq<char>>,
    a: int,
    b: int,
)
    requires
        sound(g, eos, topo, words),
        mergeable(oriented(g, false), a, b),
        merged_forward(g, h, a, b),
        g[a].forwards == g[b].forwards,
        g[b].forwards.len() > 0,
        eos < b,
    ensures
        no_more(g, eos, h, eos),
{
    assert(node_sound(g, eos, topo, a));
    assert(node_sound(g, eos, topo, b));
    assert forall|q: Seq<Seq<char>>| #[trigger] spelled(h, eos, q) implies spelled(g, eos, q) by {
        let nodes = choose|nodes: Seq<int>| #[trigger] full_route(h, eos, nodes, q);
        let back = Seq::new(nodes.len(), |t: int| unmerged_forward(g, a, b, nodes, q, t));
        assert forall|t: int| 0 <= t < q.len() implies #[trigger] hop(g, back, q, t) by {
            assert(hop(h, nodes, q, t));
            let x = nodes[t];
            let y = nodes[t + 1];
            let e = (q[t], y);
            if x == b {
                assert(h[b].forwards.contains(e));
            } else if x == a {
                assert(g[a].forwards.contains(e));
                assert(g[b].forwards.contains(e));
                lemma_edge_up(g, eos, topo, words, a, e);
                lemma_edge_up(g, eos, topo, words, b, e);
                assert(y != a && y != b);
            } else {
                assert(h[x].forwards.contains(e));
                if g[x].forwards.contains(e) && y != b {
                    lemma_edge_up(g, eos, topo, words, x, e);
                } else {
                    assert(y == a && g[x].forwards.contains((q[t], b)));
                    lemma_edge_up(g, eos, topo, words, x, (q[t], b));
                }
            }
        }
        assert(route_ok(g, back, q));
        assert(full_route(g, eos, back, q));
    }
}

/// Where every edge is carried along, the source stays the source and the
/// sink goes to the sink, whatever the lattice spelled it spells.
pub proof fn lemma_carried_no_less(
    g: Seq<NodeView>,
    from: int,
    h: Seq<NodeView>,
    to: int,
    ren: Seq<int>,
)
    requires
        carried(g, h, ren),
        0 <= from < g.len(),
        0 < g.len(),
        ren[0] == 0,
        ren[from] == to,
    ensures
        no_more(h, to, g, from),
{
    assert forall|q: Seq<Seq<char>>| #[trigger] spelled(g, from, q) implies spelled(h, to, q) by {
        let nodes = choose|nodes: Seq<int>| #[trigger] full_route(g, from, nodes, q);
        let moved = Seq::new(nodes.len(), |t: int| ren[nodes[t]]);
        assert forall|t: int| 0 <= t < q.len() implies #[trigger] hop(h, moved, q, t) by {
            assert(hop(g, nodes, q, t));
        }
        assert(route_ok(h, moved, q));
        assert(full_route(h, to, moved, q));
    }
}

} // verus!
