//! What a merge of two nodes does to a lattice, and why it leaves the
//! lattice in order.

use vstd::prelude::*;
use crate::edge::{EdgeView, sorted, lemma_sorted_unique};
use crate::kahn::{count_false, lemma_count_update};
use crate::lattice::main_ok;
use crate::node::{NodeView, nodes_sorted};
use crate::sound::{sound, node_sound, up_ok, down_ok, dead};

verus! {

/// The edge with node `b` for its node replaced by node `a`.
pub open spec fn renamed(e: EdgeView, a: int, b: int) -> EdgeView {
    if e.1 == b {
        (e.0, a)
    } else {
        e
    }
}

/// A main edge with node `b` for its node replaced by node `a`.
pub open spec fn renamed_main(m: Option<EdgeView>, a: int, b: int) -> Option<EdgeView> {
    match m {
        Some(e) => Some(renamed(e, a, b)),
        None => None,
    }
}

/// The graph `h` is the graph `g` after node `b` was merged into node `a`,
/// which had the same incoming edges: the edges into `b` are gone, the edges
/// out of `b` are edges out of `a`, and `b` has no edges left.
pub open spec fn merged_backward(g: Seq<NodeView>, h: Seq<NodeView>, a: int, b: int) -> bool {
    &&& h.len() == g.len()
    &&& nodes_sorted(h)
    &&& h[b].forwards.len() == 0
    &&& h[b].backwards.len() == 0
    &&& h[a].backwards == g[a].backwards
    &&& h[a].forward_main == g[a].forward_main
    &&& h[a].backward_main == g[a].backward_main
    &&& forall|e: EdgeView| #[trigger]
        h[a].forwards.contains(e) <==> (g[a].forwards.contains(e) || g[b].forwards.contains(e))
    &&& forall|x: int|
        0 <= x < g.len() ==> (#[trigger] h[x]).depth == g[x].depth
    &&& forall|x: int|
        0 <= x < g.len() && x != a && x != b ==> mains_renamed(g[x], #[trigger] h[x], a, b)
    &&& forall|x: int, e: EdgeView|
        0 <= x < g.len() && x != a && x != b ==> (#[trigger] h[x].forwards.contains(e) <==> (
        g[x].forwards.contains(e) && e.1 != b))
    &&& forall|x: int, e: EdgeView|
        0 <= x < g.len() && x != a && x != b ==> (#[trigger] h[x].backwards.contains(e) <==> ((
        g[x].backwards.contains(e) && e.1 != b) || (e.1 == a && g[x].backwards.contains(
            (e.0, b),
        ))))
}

/// The graph `h` is the graph `g` after node `b` was merged into node `a`,
/// which had the same outgoing edges: the edges out of `b` are gone, the
/// edges into `b` are edges into `a`, and `b` has no edges left.
pub open spec fn merged_forward(g: Seq<NodeView>, h: Seq<NodeView>, a: int, b: int) -> bool {
    &&& h.len() == g.len()
    &&& nodes_sorted(h)
    &&& h[b].forwards.len() == 0
    &&& h[b].backwards.len() == 0
    &&& h[a].forwards == g[a].forwards
    &&& h[a].forward_main == g[a].forward_main
    &&& h[a].backward_main == g[a].backward_main
    &&& forall|e: EdgeView| #[trigger]
        h[a].backwards.contains(e) <==> (g[a].backwards.contains(e) || g[b].backwards.contains(e))
    &&& forall|x: int|
        0 <= x < g.len() ==> (#[trigger] h[x]).depth == g[x].depth
    &&& forall|x: int|
        0 <= x < g.len() && x != a && x != b ==> mains_renamed(g[x], #[trigger] h[x], a, b)
    &&& forall|x: int, e: EdgeView|
        0 <= x < g.len() && x != a && x != b ==> (#[trigger] h[x].backwards.contains(e) <==> (
        g[x].backwards.contains(e) && e.1 != b))
    &&& forall|x: int, e: EdgeView|
        0 <= x < g.len() && x != a && x != b ==> (#[trigger] h[x].forwards.contains(e) <==> ((
        g[x].forwards.contains(e) && e.1 != b) || (e.1 == a && g[x].forwards.contains(
            (e.0, b),
        ))))
}

/// The main edges of the node `n`, where they are edges of the node, are
/// those of the node `m` with node `b` replaced by node `a`.
pub open spec fn mains_renamed(m: NodeView, n: NodeView, a: int, b: int) -> bool {
    &&& main_ok(m.forward_main, m.forwards) ==> n.forward_main == renamed_main(
        m.forward_main,
        a,
        b,
    )
    &&& main_ok(m.backward_main, m.backwards) ==> n.backward_main == renamed_main(
        m.backward_main,
        a,
        b,
    )
}

/// The order after node `b` was merged into node `a` with the same incoming
/// edges: `a` takes the earlier place of the two.
pub open spec fn topo_backward(topo: Seq<int>, a: int, b: int) -> Seq<int> {
    topo.update(a, if topo[a] <= topo[b] {
        topo[a]
    } else {
        topo[b]
    })
}

/// The order after node `b` was merged into node `a` with the same outgoing
/// edges: `a` takes the later place of the two.
pub open spec fn topo_forward(topo: Seq<int>, a: int, b: int) -> Seq<int> {
    topo.update(a, if topo[a] >= topo[b] {
        topo[a]
    } else {
        topo[b]
    })
}

/// The trunk runs up in the order.
pub proof fn lemma_trunk_up(
    g: Seq<NodeView>,
    eos: int,
    topo: Seq<int>,
    words: Seq<Seq<char>>,
    i: int,
    j: int,
)
    requires
        sound(g, eos, topo, words),
        0 <= i <= j <= eos,
    ensures
        topo[i] <= topo[j],
        i < j ==> topo[i] < topo[j],
    decreases j - i,
{
    if i < j {
        lemma_trunk_up(g, eos, topo, words, i, j - 1);
        let e = (words[j - 1], j);
        assert(g[j - 1].forward_main == Some(e));
        assert(node_sound(g, eos, topo, j - 1));
        let k = choose|k: int| 0 <= k < g[j - 1].forwards.len() && #[trigger] g[j - 1].forwards[k] == e;
        assert(up_ok(g, topo, j - 1, g[j - 1].forwards[k]));
    }
}

/// An edge that a node holds as an outgoing edge leads up.
pub proof fn lemma_edge_up(
    g: Seq<NodeView>,
    eos: int,
    topo: Seq<int>,
    words: Seq<Seq<char>>,
    x: int,
    e: EdgeView,
)
    requires
        sound(g, eos, topo, words),
        0 <= x < g.len(),
        g[x].forwards.contains(e),
    ensures
        up_ok(g, topo, x, e),
{
    assert(node_sound(g, eos, topo, x));
    let k = choose|k: int| 0 <= k < g[x].forwards.len() && #[trigger] g[x].forwards[k] == e;
    assert(up_ok(g, topo, x, g[x].forwards[k]));
}

/// An edge that a node holds as an incoming edge comes from below.
pub proof fn lemma_edge_down(
    g: Seq<NodeView>,
    eos: int,
    topo: Seq<int>,
    words: Seq<Seq<char>>,
    x: int,
    e: EdgeView,
)
    requires
        sound(g, eos, topo, words),
        0 <= x < g.len(),
        g[x].backwards.contains(e),
    ensures
        down_ok(g, x, e),
        topo[e.1] < topo[x],
{
    assert(node_sound(g, eos, topo, x));
    let k = choose|k: int| 0 <= k < g[x].backwards.len() && #[trigger] g[x].backwards[k] == e;
    assert(down_ok(g, x, g[x].backwards[k]));
    lemma_edge_up(g, eos, topo, words, e.1, (e.0, x));
}

/// From every node that has an outgoing edge, a node is reached that has an
/// edge to the sink.
pub proof fn lemma_reaches_sink(
    g: Seq<NodeView>,
    eos: int,
    topo: Seq<int>,
    words: Seq<Seq<char>>,
    x: int,
    bound: int,
) -> (r: (int, Seq<char>))
    requires
        sound(g, eos, topo, words),
        0 <= x < g.len(),
        g[x].forwards.len() > 0,
        forall|i: int| 0 <= i < topo.len() ==> #[trigger] topo[i] <= bound,
    ensures
        0 <= r.0 < g.len(),
        topo[x] <= topo[r.0],
        g[eos].backwards.contains((r.1, r.0)),
    decreases bound - topo[x],
{
    let e = g[x].forwards[0];
    assert(g[x].forwards.contains(e));
    lemma_edge_up(g, eos, topo, words, x, e);
    let j = e.1;
    if j == eos {
        (x, e.0)
    } else {
        assert(node_sound(g, eos, topo, j));
        assert(g[j].backwards.contains((e.0, x)));
        assert(!dead(g, eos, j));
        lemma_reaches_sink(g, eos, topo, words, j, bound)
    }
}

/// The largest of the values.
pub open spec fn max_of(s: Seq<int>) -> int
    decreases s.len(),
{
    if s.len() == 0 {
        0
    } else if s.last() >= max_of(s.drop_last()) {
        s.last()
    } else {
        max_of(s.drop_last())
    }
}

pub proof fn lemma_max_of(s: Seq<int>, i: int)
    requires
        0 <= i < s.len(),
    ensures
        s[i] <= max_of(s),
    decreases s.len(),
{
    if i < s.len() - 1 {
        lemma_max_of(s.drop_last(), i);
    }
}

/// A node with the incoming edges of the sink is the sink.
pub proof fn lemma_not_sink(
    g: Seq<NodeView>,
    eos: int,
    topo: Seq<int>,
    words: Seq<Seq<char>>,
    b: int,
)
    requires
        sound(g, eos, topo, words),
        0 <= b < g.len(),
        b != eos,
        g[b].backwards.len() > 0,
    ensures
        g[b].backwards != g[eos].backwards,
{
    if g[b].backwards == g[eos].backwards {
        assert(node_sound(g, eos, topo, b));
        assert(!dead(g, eos, b));
        assert forall|i: int| 0 <= i < topo.len() implies #[trigger] topo[i] <= max_of(topo) by {
            lemma_max_of(topo, i);
        }
        let (p, t) = lemma_reaches_sink(g, eos, topo, words, b, max_of(topo));
        assert(g[b].backwards.contains((t, p)));
        lemma_edge_down(g, eos, topo, words, b, (t, p));
    }
}

/// Two nodes of the trunk have different incoming edges and different
/// outgoing edges.
pub proof fn lemma_trunk_keys(
    g: Seq<NodeView>,
    eos: int,
    topo: Seq<int>,
    words: Seq<Seq<char>>,
    a: int,
    b: int,
)
    requires
        sound(g, eos, topo, words),
        0 <= a < b <= eos,
    ensures
        g[b].backwards.len() > 0 ==> g[a].backwards != g[b].backwards,
        g[a].forwards.len() > 0 ==> g[a].forwards != g[b].forwards,
{
    let e = (words[b - 1], b);
    assert(g[b - 1].forward_main == Some(e));
    assert(node_sound(g, eos, topo, b - 1));
    lemma_edge_up(g, eos, topo, words, b - 1, e);
    lemma_trunk_up(g, eos, topo, words, a, b - 1);
    if g[a].backwards == g[b].backwards {
        assert(g[a].backwards.contains((words[b - 1], b - 1)));
        lemma_edge_down(g, eos, topo, words, a, (words[b - 1], b - 1));
    }
    let f = (words[a], a + 1);
    assert(g[a].forward_main == Some(f));
    assert(node_sound(g, eos, topo, a));
    lemma_trunk_up(g, eos, topo, words, a + 1, b);
    if g[a].forwards == g[b].forwards {
        assert(g[b].forwards.contains(f));
        lemma_edge_up(g, eos, topo, words, b, f);
    }
}

/// A merge of a node into a node with the same incoming edges leaves the
/// lattice in order.
pub proof fn lemma_merged_backward_sound(
    g: Seq<NodeView>,
    h: Seq<NodeView>,
    eos: int,
    topo: Seq<int>,
    words: Seq<Seq<char>>,
    a: int,
    b: int,
)
    requires
        sound(g, eos, topo, words),
        merged_backward(g, h, a, b),
        0 <= a < g.len(),
        eos < b < g.len(),
        a != b,
        g[a].backwards == g[b].backwards,
        g[b].backwards.len() > 0,
    ensures
        sound(h, eos, topo_backward(topo, a, b), words),
{
    let t2 = topo_backward(topo, a, b);
    assert(node_sound(g, eos, topo, a));
    assert(node_sound(g, eos, topo, b));
    lemma_not_sink(g, eos, topo, words, b);
    assert(a != eos);
    assert(g[a].forwards.len() > 0);
    assert(g[b].forwards.len() > 0);
    // no edge runs between the two nodes
    assert forall|t: Seq<char>| !g[a].backwards.contains((t, b)) && !g[a].backwards.contains(
        (t, a),
    ) && !g[a].forwards.contains((t, b)) && !g[b].forwards.contains((t, a)) by {
        if g[a].backwards.contains((t, b)) {
            lemma_edge_down(g, eos, topo, words, b, (t, b));
        }
        if g[a].backwards.contains((t, a)) {
            lemma_edge_down(g, eos, topo, words, a, (t, a));
        }
        if g[a].forwards.contains((t, b)) {
            lemma_edge_up(g, eos, topo, words, a, (t, b));
            lemma_edge_down(g, eos, topo, words, a, (t, a));
        }
        if g[b].forwards.contains((t, a)) {
            lemma_edge_up(g, eos, topo, words, b, (t, a));
            lemma_edge_down(g, eos, topo, words, b, (t, b));
        }
    }
    assert forall|x: int| 0 <= x < h.len() implies #[trigger] node_sound(h, eos, t2, x) by {
        assert(node_sound(g, eos, topo, x));
        assert(sorted(h[x].forwards) && sorted(h[x].backwards));
        if x == b {
        } else if x == a {
            assert forall|k: int| 0 <= k < h[x].forwards.len() implies up_ok(
                h,
                t2,
                x,
                #[trigger] h[x].forwards[k],
            ) by {
                let e = h[x].forwards[k];
                assert(h[a].forwards.contains(e));
                if g[a].forwards.contains(e) {
                    lemma_edge_up(g, eos, topo, words, a, e);
                    assert(h[e.1].backwards.contains((e.0, a)));
                } else {
                    lemma_edge_up(g, eos, topo, words, b, e);
                    assert(h[e.1].backwards.contains((e.0, a)));
                }
            }
            assert forall|k: int| 0 <= k < h[x].backwards.len() implies down_ok(
                h,
                x,
                #[trigger] h[x].backwards[k],
            ) by {
                let e = h[x].backwards[k];
                assert(g[a].backwards.contains(e));
                lemma_edge_down(g, eos, topo, words, a, e);
                assert(h[e.1].forwards.contains((e.0, a)));
            }
            let f0 = g[a].forwards[0];
            assert(g[a].forwards.contains(f0));
            assert(h[a].forwards.contains(f0));
            match g[a].forward_main {
                Some(m) => {
                    assert(h[a].forwards.contains(m));
                },
                None => {},
            }
        } else {
            assert forall|k: int| 0 <= k < h[x].forwards.len() implies up_ok(
                h,
                t2,
                x,
                #[trigger] h[x].forwards[k],
            ) by {
                let e = h[x].forwards[k];
                assert(h[x].forwards.contains(e));
                lemma_edge_up(g, eos, topo, words, x, e);
                if e.1 == a {
                    assert(g[b].backwards.contains((e.0, x)));
                    lemma_edge_down(g, eos, topo, words, b, (e.0, x));
                } else {
                    assert(h[e.1].backwards.contains((e.0, x)));
                }
            }
            assert forall|k: int| 0 <= k < h[x].backwards.len() implies down_ok(
                h,
                x,
                #[trigger] h[x].backwards[k],
            ) by {
                let e = h[x].backwards[k];
                assert(h[x].backwards.contains(e));
                if g[x].backwards.contains(e) && e.1 != b {
                    lemma_edge_down(g, eos, topo, words, x, e);
                    if e.1 == a {
                        assert(h[a].forwards.contains((e.0, x)));
                    } else {
                        assert(h[e.1].forwards.contains((e.0, x)));
                    }
                } else {
                    lemma_edge_down(g, eos, topo, words, x, (e.0, b));
                    assert(h[a].forwards.contains((e.0, x)));
                }
            }
            // the node keeps an outgoing and an incoming edge where it had one
            if g[x].forwards.len() > 0 {
                let f0 = g[x].forwards[0];
                assert(g[x].forwards.contains(f0));
                if f0.1 == b {
                    lemma_edge_up(g, eos, topo, words, x, f0);
                    assert(g[a].backwards.contains((f0.0, x)));
                    lemma_edge_down(g, eos, topo, words, a, (f0.0, x));
                    assert(h[x].forwards.contains((f0.0, a)));
                } else {
                    assert(h[x].forwards.contains(f0));
                }
            }
            if h[x].forwards.len() > 0 {
                assert(h[x].forwards.contains(h[x].forwards[0]));
            }
            if g[x].backwards.len() > 0 {
                let b0 = g[x].backwards[0];
                assert(g[x].backwards.contains(b0));
                if b0.1 == b {
                    assert(h[x].backwards.contains((b0.0, a)));
                } else {
                    assert(h[x].backwards.contains(b0));
                }
            }
            if h[x].backwards.len() > 0 {
                let b0 = h[x].backwards[0];
                assert(h[x].backwards.contains(b0));
            }
            if !dead(h, eos, x) {
                assert(!dead(g, eos, x));
                assert(mains_renamed(g[x], h[x], a, b));
                match g[x].forward_main {
                    Some(m) => {
                        if m.1 == b {
                            lemma_edge_up(g, eos, topo, words, x, m);
                            assert(g[a].backwards.contains((m.0, x)));
                            lemma_edge_down(g, eos, topo, words, a, (m.0, x));
                            assert(h[x].forwards.contains((m.0, a)));
                        } else {
                            assert(h[x].forwards.contains(m));
                        }
                    },
                    None => {},
                }
                match g[x].backward_main {
                    Some(m) => {
                        if m.1 == b {
                            assert(h[x].backwards.contains((m.0, a)));
                        } else {
                            assert(h[x].backwards.contains(m));
                        }
                    },
                    None => {},
                }
            }
        }
    }
    assert forall|i: int| 0 <= i < eos implies (#[trigger] h[i]).forward_main == Some(
        (words[i], i + 1),
    ) by {
        assert(g[i].forward_main == Some((words[i], i + 1)));
        assert(node_sound(g, eos, topo, i));
        if i != a {
            assert(mains_renamed(g[i], h[i], a, b));
        }
    }
}

/// From every node that has an incoming edge, going back, a node is reached
/// that has an edge from the source.
pub proof fn lemma_from_source(
    g: Seq<NodeView>,
    eos: int,
    topo: Seq<int>,
    words: Seq<Seq<char>>,
    x: int,
) -> (r: (int, Seq<char>))
    requires
        sound(g, eos, topo, words),
        0 <= x < g.len(),
        g[x].backwards.len() > 0,
    ensures
        0 <= r.0 < g.len(),
        topo[r.0] <= topo[x],
        g[0].forwards.contains((r.1, r.0)),
    decreases topo[x],
{
    let e = g[x].backwards[0];
    assert(g[x].backwards.contains(e));
    lemma_edge_down(g, eos, topo, words, x, e);
    let j = e.1;
    if j == 0 {
        (x, e.0)
    } else {
        assert(node_sound(g, eos, topo, j));
        assert(!dead(g, eos, j));
        lemma_from_source(g, eos, topo, words, j)
    }
}

/// A node with the outgoing edges of the source is the source.
pub proof fn lemma_not_source(
    g: Seq<NodeView>,
    eos: int,
    topo: Seq<int>,
    words: Seq<Seq<char>>,
    b: int,
)
    requires
        sound(g, eos, topo, words),
        0 < b < g.len(),
        g[b].forwards.len() > 0,
    ensures
        g[b].forwards != g[0].forwards,
{
    if g[b].forwards == g[0].forwards {
        assert(node_sound(g, eos, topo, b));
        assert(!dead(g, eos, b));
        let (p, t) = lemma_from_source(g, eos, topo, words, b);
        assert(g[b].forwards.contains((t, p)));
        lemma_edge_up(g, eos, topo, words, b, (t, p));
    }
}

/// A merge of a node into a node with the same outgoing edges leaves the
/// lattice in order.
pub proof fn lemma_merged_forward_sound(
    g: Seq<NodeView>,
    h: Seq<NodeView>,
    eos: int,
    topo: Seq<int>,
    words: Seq<Seq<char>>,
    a: int,
    b: int,
)
    requires
        sound(g, eos, topo, words),
        merged_forward(g, h, a, b),
        0 <= a < g.len(),
        eos < b < g.len(),
        a != b,
        g[a].forwards == g[b].forwards,
        g[b].forwards.len() > 0,
    ensures
        sound(h, eos, topo_forward(topo, a, b), words),
{
    let t2 = topo_forward(topo, a, b);
    assert(node_sound(g, eos, topo, a));
    assert(node_sound(g, eos, topo, b));
    lemma_not_source(g, eos, topo, words, b);
    assert(a != 0);
    assert(g[a].backwards.len() > 0);
    assert(g[b].backwards.len() > 0);
    // no edge runs between the two nodes
    assert forall|t: Seq<char>| !g[a].forwards.contains((t, b)) && !g[a].forwards.contains(
        (t, a),
    ) && !g[a].backwards.contains((t, b)) && !g[b].backwards.contains((t, a)) by {
        if g[a].forwards.contains((t, b)) {
            lemma_edge_up(g, eos, topo, words, b, (t, b));
        }
        if g[a].forwards.contains((t, a)) {
            lemma_edge_up(g, eos, topo, words, a, (t, a));
        }
        if g[a].backwards.contains((t, b)) {
            lemma_edge_down(g, eos, topo, words, a, (t, b));
            lemma_edge_up(g, eos, topo, words, a, (t, a));
        }
        if g[b].backwards.contains((t, a)) {
            lemma_edge_down(g, eos, topo, words, b, (t, a));
            lemma_edge_up(g, eos, topo, words, b, (t, b));
        }
    }
    assert forall|x: int| 0 <= x < h.len() implies #[trigger] node_sound(h, eos, t2, x) by {
        assert(node_sound(g, eos, topo, x));
        assert(sorted(h[x].forwards) && sorted(h[x].backwards));
        if x == b {
        } else if x == a {
            assert forall|k: int| 0 <= k < h[x].forwards.len() implies up_ok(
                h,
                t2,
                x,
                #[trigger] h[x].forwards[k],
            ) by {
                let e = h[x].forwards[k];
                assert(g[a].forwards.contains(e));
                assert(g[b].forwards.contains(e));
                lemma_edge_up(g, eos, topo, words, a, e);
                lemma_edge_up(g, eos, topo, words, b, e);
                assert(h[e.1].backwards.contains((e.0, a)));
            }
            assert forall|k: int| 0 <= k < h[x].backwards.len() implies down_ok(
                h,
                x,
                #[trigger] h[x].backwards[k],
            ) by {
                let e = h[x].backwards[k];
                assert(h[a].backwards.contains(e));
                if g[a].backwards.contains(e) {
                    lemma_edge_down(g, eos, topo, words, a, e);
                    assert(h[e.1].forwards.contains((e.0, a)));
                } else {
                    lemma_edge_down(g, eos, topo, words, b, e);
                    assert(h[e.1].forwards.contains((e.0, a)));
                }
            }
            let b0 = g[a].backwards[0];
            assert(g[a].backwards.contains(b0));
            assert(h[a].backwards.contains(b0));
            match g[a].backward_main {
                Some(m) => {
                    assert(h[a].backwards.contains(m));
                },
                None => {},
            }
        } else {
            assert forall|k: int| 0 <= k < h[x].forwards.len() implies up_ok(
                h,
                t2,
                x,
                #[trigger] h[x].forwards[k],
            ) by {
                let e = h[x].forwards[k];
                assert(h[x].forwards.contains(e));
                if g[x].forwards.contains(e) && e.1 != b {
                    lemma_edge_up(g, eos, topo, words, x, e);
                    if e.1 == a {
                        assert(h[a].backwards.contains((e.0, x)));
                    } else {
                        assert(h[e.1].backwards.contains((e.0, x)));
                    }
                } else {
                    lemma_edge_up(g, eos, topo, words, x, (e.0, b));
                    assert(h[a].backwards.contains((e.0, x)));
                }
            }
            assert forall|k: int| 0 <= k < h[x].backwards.len() implies down_ok(
                h,
                x,
                #[trigger] h[x].backwards[k],
            ) by {
                let e = h[x].backwards[k];
                assert(h[x].backwards.contains(e));
                lemma_edge_down(g, eos, topo, words, x, e);
                if e.1 == a {
                } else {
                    assert(h[e.1].forwards.contains((e.0, x)));
                }
            }
            // the node keeps an outgoing and an incoming edge where it had one
            if g[x].backwards.len() > 0 {
                let b0 = g[x].backwards[0];
                assert(g[x].backwards.contains(b0));
                if b0.1 == b {
                    lemma_edge_down(g, eos, topo, words, x, b0);
                    assert(g[a].forwards.contains((b0.0, x)));
                    lemma_edge_up(g, eos, topo, words, a, (b0.0, x));
                    assert(h[x].backwards.contains((b0.0, a)));
                } else {
                    assert(h[x].backwards.contains(b0));
                }
            }
            if h[x].backwards.len() > 0 {
                assert(h[x].backwards.contains(h[x].backwards[0]));
            }
            if g[x].forwards.len() > 0 {
                let f0 = g[x].forwards[0];
                assert(g[x].forwards.contains(f0));
                if f0.1 == b {
                    assert(h[x].forwards.contains((f0.0, a)));
                } else {
                    assert(h[x].forwards.contains(f0));
                }
            }
            if h[x].forwards.len() > 0 {
                let f0 = h[x].forwards[0];
                assert(h[x].forwards.contains(f0));
            }
            if !dead(h, eos, x) {
                assert(!dead(g, eos, x));
                assert(mains_renamed(g[x], h[x], a, b));
                match g[x].backward_main {
                    Some(m) => {
                        if m.1 == b {
                            lemma_edge_down(g, eos, topo, words, x, m);
                            assert(g[a].forwards.contains((m.0, x)));
                            lemma_edge_up(g, eos, topo, words, a, (m.0, x));
                            assert(h[x].backwards.contains((m.0, a)));
                        } else {
                            assert(h[x].backwards.contains(m));
                        }
                    },
                    None => {},
                }
                match g[x].forward_main {
                    Some(m) => {
                        if m.1 == b {
                            assert(h[x].forwards.contains((m.0, a)));
                        } else {
                            assert(h[x].forwards.contains(m));
                        }
                    },
                    None => {},
                }
            }
        }
    }
    assert forall|i: int| 0 <= i < eos implies (#[trigger] h[i]).forward_main == Some(
        (words[i], i + 1),
    ) by {
        assert(g[i].forward_main == Some((words[i], i + 1)));
        assert(node_sound(g, eos, topo, i));
        if i != a {
            assert(mains_renamed(g[i], h[i], a, b));
        }
    }
}

/// The node with its two sides exchanged.
pub open spec fn flip(n: NodeView) -> NodeView {
    NodeView {
        forwards: n.backwards,
        backwards: n.forwards,
        forward_main: n.backward_main,
        backward_main: n.forward_main,
        depth: n.depth,
    }
}

/// The graph as a merge by incoming edges sees it: as it is where `backward`
/// is set, with the two sides of every node exchanged where it is not.
pub open spec fn oriented(g: Seq<NodeView>, backward: bool) -> Seq<NodeView> {
    if backward {
        g
    } else {
        Seq::new(g.len(), |i: int| flip(g[i]))
    }
}

/// The main edge `m` of node `x` once the edges `done` of node `b` have been
/// handed over to node `a`.
pub open spec fn main_after(m: Option<EdgeView>, x: int, a: int, b: int, done: Seq<EdgeView>) -> Option<
    EdgeView,
> {
    match m {
        Some(e) => if e.1 == b && done.contains((e.0, x)) {
            Some((e.0, a))
        } else {
            m
        },
        None => None,
    }
}

/// Node `x`, which was `m`, is `n` once the incoming edges `done` of node `b`
/// have been taken from the nodes they come from.
pub open spec fn node_unlinked(m: NodeView, n: NodeView, x: int, a: int, b: int, done: Seq<EdgeView>) -> bool {
    &&& n.depth == m.depth
    &&& n.backwards == m.backwards
    &&& n.backward_main == m.backward_main
    &&& n.forward_main == main_after(m.forward_main, x, a, b, done)
    &&& forall|e: EdgeView| #[trigger]
        n.forwards.contains(e) <==> m.forwards.contains(e) && !(e.1 == b && done.contains((e.0, x)))
}

/// The graph `g` is `c` once the incoming edges `done` of node `b` have been
/// taken from the nodes they come from.
pub open spec fn unlinked(g: Seq<NodeView>, c: Seq<NodeView>, a: int, b: int, done: Seq<EdgeView>) -> bool {
    &&& c.len() == g.len()
    &&& forall|x: int| 0 <= x < g.len() ==> #[trigger] node_unlinked(g[x], c[x], x, a, b, done)
}

/// Node `x`, which was `m`, is `n` once the outgoing edges `done` of node `b`
/// have become edges of node `a`.
pub open spec fn node_relinked(m: NodeView, n: NodeView, x: int, a: int, b: int, done: Seq<EdgeView>) -> bool {
    &&& n.depth == m.depth
    &&& n.forward_main == m.forward_main
    &&& n.backward_main == main_after(m.backward_main, x, a, b, done)
    &&& forall|e: EdgeView| #[trigger]
        n.backwards.contains(e) <==> (m.backwards.contains(e) && !(e.1 == b && done.contains(
            (e.0, x),
        ))) || (e.1 == a && done.contains((e.0, x)))
    &&& forall|e: EdgeView| #[trigger]
        n.forwards.contains(e) <==> m.forwards.contains(e) || (x == a && done.contains(e))
}

/// The graph `g` is `c` once the outgoing edges `done` of node `b` have
/// become edges of node `a`.
pub open spec fn relinked(g: Seq<NodeView>, c: Seq<NodeView>, a: int, b: int, done: Seq<EdgeView>) -> bool {
    &&& c.len() == g.len()
    &&& forall|x: int| 0 <= x < g.len() ==> #[trigger] node_relinked(g[x], c[x], x, a, b, done)
}

/// One more edge of the list is among those done.
pub proof fn lemma_take_contains(es: Seq<EdgeView>, k: int, y: EdgeView)
    requires
        0 <= k < es.len(),
    ensures
        es.take(k + 1).contains(y) <==> es.take(k).contains(y) || es[k] == y,
{
    let s = es.take(k);
    let t = es.take(k + 1);
    if s.contains(y) {
        let i = choose|i: int| 0 <= i < s.len() && s[i] == y;
        assert(t[i] == y);
    }
    if es[k] == y {
        assert(t[k] == y);
    }
    if t.contains(y) {
        let i = choose|i: int| 0 <= i < t.len() && t[i] == y;
        if i < k {
            assert(s[i] == y);
        }
    }
}

/// What one step of unlinking does: the edge `(t, b)` leaves the outgoing
/// edges of node `p`.
pub open spec fn unlink_step(c: NodeView, d: NodeView, t: Seq<char>, a: int, b: int) -> bool {
    &&& d.depth == c.depth
    &&& d.backwards == c.backwards
    &&& d.backward_main == c.backward_main
    &&& d.forward_main == (if c.forward_main == Some((t, b)) {
        Some((t, a))
    } else {
        c.forward_main
    })
    &&& forall|e: EdgeView| #[trigger] d.forwards.contains(e) <==> c.forwards.contains(e) && e != (t, b)
}

pub proof fn lemma_unlink_step(
    g: Seq<NodeView>,
    c: Seq<NodeView>,
    d: Seq<NodeView>,
    a: int,
    b: int,
    es: Seq<EdgeView>,
    k: int,
)
    requires
        0 <= k < es.len(),
        a != b,
        unlinked(g, c, a, b, es.take(k)),
        0 <= es[k].1 < g.len(),
        d.len() == g.len(),
        forall|x: int| 0 <= x < g.len() && x != es[k].1 ==> d[x] == c[x],
        unlink_step(c[es[k].1], d[es[k].1], es[k].0, a, b),
    ensures
        unlinked(g, d, a, b, es.take(k + 1)),
{
    let p = es[k].1;
    let t = es[k].0;
    let s0 = es.take(k);
    let s1 = es.take(k + 1);
    assert forall|x: int| 0 <= x < g.len() implies #[trigger] node_unlinked(
        g[x],
        d[x],
        x,
        a,
        b,
        s1,
    ) by {
        assert(node_unlinked(g[x], c[x], x, a, b, s0));
        assert forall|e: EdgeView| #[trigger]
            d[x].forwards.contains(e) <==> g[x].forwards.contains(e) && !(e.1 == b && s1.contains(
                (e.0, x),
            )) by {
            lemma_take_contains(es, k, (e.0, x));
            assert(c[x].forwards.contains(e) <==> g[x].forwards.contains(e) && !(e.1 == b
                && s0.contains((e.0, x))));
            if x == p {
                assert(d[x].forwards.contains(e) <==> c[x].forwards.contains(e) && e != (t, b));
            }
        }
        match g[x].forward_main {
            Some(m) => {
                lemma_take_contains(es, k, (m.0, x));
            },
            None => {},
        }
    }
}

/// What one step of relinking does to the node at the end of the edge: the
/// edge from node `b` becomes an edge from node `a`.
pub open spec fn relink_step(c: NodeView, d: NodeView, t: Seq<char>, a: int, b: int) -> bool {
    &&& d.depth == c.depth
    &&& d.forwards == c.forwards
    &&& d.forward_main == c.forward_main
    &&& d.backward_main == (if c.backward_main == Some((t, b)) {
        Some((t, a))
    } else {
        c.backward_main
    })
    &&& forall|e: EdgeView| #[trigger]
        d.backwards.contains(e) <==> (c.backwards.contains(e) && e != (t, b)) || e == (t, a)
}

/// What one step of relinking does to node `a`: it gains the edge.
pub open spec fn gain_step(c: NodeView, d: NodeView, e0: EdgeView) -> bool {
    &&& d.depth == c.depth
    &&& d.backwards == c.backwards
    &&& d.forward_main == c.forward_main
    &&& d.backward_main == c.backward_main
    &&& forall|e: EdgeView| #[trigger] d.forwards.contains(e) <==> c.forwards.contains(e) || e == e0
}

pub proof fn lemma_relink_step(
    g: Seq<NodeView>,
    c: Seq<NodeView>,
    d: Seq<NodeView>,
    f: Seq<NodeView>,
    a: int,
    b: int,
    es: Seq<EdgeView>,
    k: int,
)
    requires
        0 <= k < es.len(),
        a != b,
        0 <= a < g.len(),
        relinked(g, c, a, b, es.take(k)),
        0 <= es[k].1 < g.len(),
        d.len() == g.len(),
        f.len() == g.len(),
        forall|x: int| 0 <= x < g.len() && x != es[k].1 ==> d[x] == c[x],
        relink_step(c[es[k].1], d[es[k].1], es[k].0, a, b),
        forall|x: int| 0 <= x < g.len() && x != a ==> f[x] == d[x],
        gain_step(d[a], f[a], es[k]),
    ensures
        relinked(g, f, a, b, es.take(k + 1)),
{
    let s = es[k].1;
    let t = es[k].0;
    let s0 = es.take(k);
    let s1 = es.take(k + 1);
    assert forall|x: int| 0 <= x < g.len() implies #[trigger] node_relinked(
        g[x],
        f[x],
        x,
        a,
        b,
        s1,
    ) by {
        assert(node_relinked(g[x], c[x], x, a, b, s0));
        assert forall|e: EdgeView| #[trigger]
            f[x].backwards.contains(e) <==> (g[x].backwards.contains(e) && !(e.1 == b
                && s1.contains((e.0, x)))) || (e.1 == a && s1.contains((e.0, x))) by {
            lemma_take_contains(es, k, (e.0, x));
            assert(c[x].backwards.contains(e) <==> (g[x].backwards.contains(e) && !(e.1 == b
                && s0.contains((e.0, x)))) || (e.1 == a && s0.contains((e.0, x))));
            if x == s {
                assert(d[x].backwards.contains(e) <==> (c[x].backwards.contains(e) && e != (t, b))
                    || e == (t, a));
            }
            assert(f[x].backwards == d[x].backwards);
        }
        assert forall|e: EdgeView| #[trigger]
            f[x].forwards.contains(e) <==> g[x].forwards.contains(e) || (x == a && s1.contains(
                e,
            )) by {
            lemma_take_contains(es, k, e);
            assert(c[x].forwards.contains(e) <==> g[x].forwards.contains(e) || (x == a
                && s0.contains(e)));
            assert(d[x].forwards == c[x].forwards);
            if x == a {
                assert(f[x].forwards.contains(e) <==> d[x].forwards.contains(e) || e == es[k]);
            }
        }
        match g[x].backward_main {
            Some(m) => {
                lemma_take_contains(es, k, (m.0, x));
            },
            None => {},
        }
    }
}

/// Node `b` can be merged into node `a`: no edge runs between the two or
/// from `b` to itself, and every edge at `b` is held at its other end.
pub open spec fn mergeable(g: Seq<NodeView>, a: int, b: int) -> bool {
    &&& 0 <= a < g.len()
    &&& 0 <= b < g.len()
    &&& a != b
    &&& nodes_sorted(g)
    &&& forall|e: EdgeView| #[trigger] g[b].backwards.contains(e) ==> e.1 != a && e.1 != b
    &&& forall|e: EdgeView| #[trigger]
        g[b].forwards.contains(e) ==> e.1 != a && e.1 != b && 0 <= e.1 < g.len()
            && g[e.1].backwards.contains((e.0, b))
    &&& forall|x: int, e: EdgeView|
        0 <= x < g.len() && #[trigger] g[x].forwards.contains(e) && e.1 == b
            ==> g[b].backwards.contains((e.0, x))
    &&& forall|x: int, e: EdgeView|
        0 <= x < g.len() && #[trigger] g[x].backwards.contains(e) && e.1 == b
            ==> g[b].forwards.contains((e.0, x))
}

/// The graph `h` is the graph `g` with an edge set of node `b` emptied: its
/// incoming edges where `backward` is set, its outgoing edges where not.
pub open spec fn emptied(g: Seq<NodeView>, h: Seq<NodeView>, b: int, backward: bool) -> bool {
    &&& h.len() == g.len()
    &&& forall|x: int| 0 <= x < g.len() && x != b ==> #[trigger] h[x] == g[x]
    &&& h[b].depth == g[b].depth
    &&& h[b].forward_main == g[b].forward_main
    &&& h[b].backward_main == g[b].backward_main
    &&& if backward {
        h[b].backwards.len() == 0 && h[b].forwards == g[b].forwards
    } else {
        h[b].forwards.len() == 0 && h[b].backwards == g[b].backwards
    }
}

/// Emptying the incoming edges of a node, unlinking them, emptying its
/// outgoing edges and relinking those merges the node into the other.
pub proof fn lemma_merged(
    g: Seq<NodeView>,
    g1: Seq<NodeView>,
    g2: Seq<NodeView>,
    g3: Seq<NodeView>,
    h: Seq<NodeView>,
    a: int,
    b: int,
)
    requires
        mergeable(g, a, b),
        emptied(g, g1, b, true),
        unlinked(g1, g2, a, b, g[b].backwards),
        emptied(g2, g3, b, false),
        relinked(g3, h, a, b, g2[b].forwards),
        nodes_sorted(h),
    ensures
        merged_backward(g, h, a, b),
{
    let es1 = g[b].backwards;
    let es2 = g2[b].forwards;
    assert(node_unlinked(g1[b], g2[b], b, a, b, es1));
    assert(node_relinked(g3[b], h[b], b, a, b, es2));
    assert(node_unlinked(g1[a], g2[a], a, a, b, es1));
    assert(node_relinked(g3[a], h[a], a, a, b, es2));
    assert(g1[a] == g[a]);
    assert(g3[a] == g2[a]);
    assert forall|e: EdgeView| es2.contains(e) <==> g[b].forwards.contains(e) by {
        assert(g2[b].forwards.contains(e) <==> g1[b].forwards.contains(e) && !(e.1 == b
            && es1.contains((e.0, b))));
    }
    if h[b].forwards.len() > 0 {
        assert(h[b].forwards.contains(h[b].forwards[0]));
    }
    if h[b].backwards.len() > 0 {
        let e = h[b].backwards[0];
        assert(h[b].backwards.contains(e));
        if g3[b].backwards.contains(e) {
        }
        assert(es2.contains((e.0, b)));
    }
    assert forall|e: EdgeView| h[a].backwards.contains(e) <==> g[a].backwards.contains(e) by {
        if es2.contains((e.0, a)) {
            assert(g[b].forwards.contains((e.0, a)));
        }
    }
    assert(sorted(h[a].forwards) && sorted(h[a].backwards));
    assert(sorted(g[a].forwards) && sorted(g[a].backwards));
    lemma_sorted_unique(h[a].backwards, g[a].backwards);
    match g[a].forward_main {
        Some(m) => {
            if es1.contains((m.0, a)) {
            }
        },
        None => {},
    }
    match g[a].backward_main {
        Some(m) => {
            if es2.contains((m.0, a)) {
                assert(g[b].forwards.contains((m.0, a)));
            }
        },
        None => {},
    }
    assert forall|e: EdgeView| #[trigger]
        h[a].forwards.contains(e) <==> (g[a].forwards.contains(e) || g[b].forwards.contains(
            e,
        )) by {
        assert(g2[a].forwards.contains(e) <==> g1[a].forwards.contains(e) && !(e.1 == b
            && es1.contains((e.0, a))));
        if es1.contains((e.0, a)) {
        }
    }
    assert forall|x: int| 0 <= x < g.len() implies (#[trigger] h[x]).depth == g[x].depth by {
        assert(node_unlinked(g1[x], g2[x], x, a, b, es1));
        assert(node_relinked(g3[x], h[x], x, a, b, es2));
        if x != b {
            assert(g1[x] == g[x]);
            assert(g3[x] == g2[x]);
        }
    }
    assert forall|x: int| 0 <= x < g.len() && x != a && x != b implies mains_renamed(
        g[x],
        #[trigger] h[x],
        a,
        b,
    ) by {
        assert(node_unlinked(g1[x], g2[x], x, a, b, es1));
        assert(node_relinked(g3[x], h[x], x, a, b, es2));
        assert(g1[x] == g[x]);
        assert(g3[x] == g2[x]);
        if main_ok(g[x].forward_main, g[x].forwards) {
            match g[x].forward_main {
                Some(m) => {
                    assert(g[x].forwards.contains(m));
                },
                None => {},
            }
        }
        if main_ok(g[x].backward_main, g[x].backwards) {
            match g[x].backward_main {
                Some(m) => {
                    assert(g[x].backwards.contains(m));
                    if m.1 == b {
                        assert(g[b].forwards.contains((m.0, x)));
                        assert(es2.contains((m.0, x)));
                    }
                },
                None => {},
            }
        }
    }
    assert forall|x: int, e: EdgeView| 0 <= x < g.len() && x != a && x != b implies (
    #[trigger] h[x].forwards.contains(e) <==> (g[x].forwards.contains(e) && e.1 != b)) by {
        assert(node_unlinked(g1[x], g2[x], x, a, b, es1));
        assert(node_relinked(g3[x], h[x], x, a, b, es2));
        assert(g1[x] == g[x]);
        assert(g3[x] == g2[x]);
        assert(g2[x].forwards.contains(e) <==> g1[x].forwards.contains(e) && !(e.1 == b
            && es1.contains((e.0, x))));
        if g[x].forwards.contains(e) && e.1 == b {
            assert(es1.contains((e.0, x)));
        }
    }
    assert forall|x: int, e: EdgeView| 0 <= x < g.len() && x != a && x != b implies (
    #[trigger] h[x].backwards.contains(e) <==> ((g[x].backwards.contains(e) && e.1 != b) || (e.1
        == a && g[x].backwards.contains((e.0, b))))) by {
        assert(node_unlinked(g1[x], g2[x], x, a, b, es1));
        assert(node_relinked(g3[x], h[x], x, a, b, es2));
        assert(g1[x] == g[x]);
        assert(g3[x] == g2[x]);
        if g[x].backwards.contains(e) && e.1 == b {
            assert(g[b].forwards.contains((e.0, x)));
            assert(es2.contains((e.0, x)));
        }
        if es2.contains((e.0, x)) {
            assert(g[b].forwards.contains((e.0, x)));
            assert(g[x].backwards.contains((e.0, b)));
        }
        if g[x].backwards.contains((e.0, b)) {
            assert(g[b].forwards.contains((e.0, x)));
            assert(es2.contains((e.0, x)));
        }
    }
}

/// A graph oriented the other way: what is merged there by incoming edges is
/// merged here by outgoing edges.
pub proof fn lemma_flip_merged(g: Seq<NodeView>, h: Seq<NodeView>, a: int, b: int)
    requires
        0 <= a < g.len(),
        0 <= b < g.len(),
        merged_backward(oriented(g, false), oriented(h, false), a, b),
    ensures
        merged_forward(g, h, a, b),
{
    let fg = oriented(g, false);
    let fh = oriented(h, false);
    assert(h.len() == g.len());
    assert forall|i: int| #![trigger h[i]] 0 <= i < h.len() implies sorted(h[i].forwards)
        && sorted(h[i].backwards) by {
        assert(sorted(fh[i].forwards) && sorted(fh[i].backwards));
    }
    assert(fh[b] == flip(h[b]));
    assert(fh[a] == flip(h[a]));
    assert(fg[a] == flip(g[a]));
    assert(fg[b] == flip(g[b]));
    assert forall|e: EdgeView| #[trigger]
        h[a].backwards.contains(e) <==> (g[a].backwards.contains(e) || g[b].backwards.contains(
            e,
        )) by {
        assert(fh[a].forwards.contains(e) <==> (fg[a].forwards.contains(e)
            || fg[b].forwards.contains(e)));
    }
    assert forall|x: int| 0 <= x < g.len() implies (#[trigger] h[x]).depth == g[x].depth by {
        assert(fh[x].depth == fg[x].depth);
    }
    assert forall|x: int| 0 <= x < g.len() && x != a && x != b implies mains_renamed(
        g[x],
        #[trigger] h[x],
        a,
        b,
    ) by {
        assert(mains_renamed(fg[x], fh[x], a, b));
    }
    assert forall|x: int, e: EdgeView| 0 <= x < g.len() && x != a && x != b implies (
    #[trigger] h[x].backwards.contains(e) <==> (g[x].backwards.contains(e) && e.1 != b)) by {
        assert(fh[x].forwards.contains(e) <==> (fg[x].forwards.contains(e) && e.1 != b));
    }
    assert forall|x: int, e: EdgeView| 0 <= x < g.len() && x != a && x != b implies (
    #[trigger] h[x].forwards.contains(e) <==> ((g[x].forwards.contains(e) && e.1 != b) || (e.1
        == a && g[x].forwards.contains((e.0, b))))) by {
        assert(fh[x].backwards.contains(e) <==> ((fg[x].backwards.contains(e) && e.1 != b) || (e.1
            == a && fg[x].backwards.contains((e.0, b)))));
    }
}

/// In a lattice in order, a node outside the trunk can be merged into a node
/// with the same incoming edges.
pub proof fn lemma_mergeable_backward(
    g: Seq<NodeView>,
    eos: int,
    topo: Seq<int>,
    words: Seq<Seq<char>>,
    a: int,
    b: int,
)
    requires
        sound(g, eos, topo, words),
        0 <= a < g.len(),
        0 <= b < g.len(),
        a != b,
        g[a].backwards == g[b].backwards,
    ensures
        mergeable(g, a, b),
{
    assert forall|e: EdgeView| #[trigger] g[b].backwards.contains(e) implies e.1 != a && e.1
        != b by {
        lemma_edge_down(g, eos, topo, words, b, e);
        lemma_edge_down(g, eos, topo, words, a, e);
    }
    assert forall|e: EdgeView| #[trigger] g[b].forwards.contains(e) implies e.1 != a && e.1 != b
        && 0 <= e.1 < g.len() && g[e.1].backwards.contains((e.0, b)) by {
        lemma_edge_up(g, eos, topo, words, b, e);
        if e.1 == a {
            assert(g[b].backwards.contains((e.0, b)));
            lemma_edge_down(g, eos, topo, words, b, (e.0, b));
        }
    }
    assert forall|x: int, e: EdgeView|
        0 <= x < g.len() && #[trigger] g[x].forwards.contains(e) && e.1
            == b implies g[b].backwards.contains((e.0, x)) by {
        lemma_edge_up(g, eos, topo, words, x, e);
    }
    assert forall|x: int, e: EdgeView|
        0 <= x < g.len() && #[trigger] g[x].backwards.contains(e) && e.1
            == b implies g[b].forwards.contains((e.0, x)) by {
        lemma_edge_down(g, eos, topo, words, x, e);
    }
}

/// In a lattice in order, a node outside the trunk can be merged into a node
/// with the same outgoing edges.
pub proof fn lemma_mergeable_forward(
    g: Seq<NodeView>,
    eos: int,
    topo: Seq<int>,
    words: Seq<Seq<char>>,
    a: int,
    b: int,
)
    requires
        sound(g, eos, topo, words),
        0 <= a < g.len(),
        0 <= b < g.len(),
        a != b,
        g[a].forwards == g[b].forwards,
    ensures
        mergeable(oriented(g, false), a, b),
{
    let fg = oriented(g, false);
    assert forall|i: int| #![trigger fg[i]] 0 <= i < fg.len() implies sorted(fg[i].forwards)
        && sorted(fg[i].backwards) by {
        assert(sorted(g[i].forwards) && sorted(g[i].backwards));
    }
    assert forall|e: EdgeView| #[trigger] fg[b].backwards.contains(e) implies e.1 != a && e.1
        != b by {
        lemma_edge_up(g, eos, topo, words, b, e);
        lemma_edge_up(g, eos, topo, words, a, e);
    }
    assert forall|e: EdgeView| #[trigger] fg[b].forwards.contains(e) implies e.1 != a && e.1 != b
        && 0 <= e.1 < fg.len() && fg[e.1].backwards.contains((e.0, b)) by {
        lemma_edge_down(g, eos, topo, words, b, e);
        if e.1 == a {
            assert(g[b].forwards.contains((e.0, b)));
            lemma_edge_up(g, eos, topo, words, b, (e.0, b));
        }
    }
    assert forall|x: int, e: EdgeView|
        0 <= x < fg.len() && #[trigger] fg[x].forwards.contains(e) && e.1
            == b implies fg[b].backwards.contains((e.0, x)) by {
        lemma_edge_down(g, eos, topo, words, x, e);
    }
    assert forall|x: int, e: EdgeView|
        0 <= x < fg.len() && #[trigger] fg[x].backwards.contains(e) && e.1
            == b implies fg[b].forwards.contains((e.0, x)) by {
        lemma_edge_up(g, eos, topo, words, x, e);
    }
}

/// The candidates from place `from` on still have incoming edges, and each
/// that was marked has those of the candidate before it.
pub open spec fn pending(g: Seq<NodeView>, cands: Seq<usize>, marks: Seq<bool>, from: int) -> bool {
    &&& forall|j: int|
        from <= j < cands.len() ==> (#[trigger] g[cands[j] as int]).backwards.len() > 0
    &&& forall|j: int|
        from < j < cands.len() && #[trigger] marks[j] ==> g[cands[j] as int].backwards
            == g[cands[j - 1] as int].backwards
}

/// A marked candidate has a larger id than the candidate before it.
pub open spec fn runs_up(cands: Seq<usize>, marks: Seq<bool>) -> bool {
    forall|j: int| 1 <= j < cands.len() && #[trigger] marks[j] ==> cands[j - 1] < cands[j]
}

/// After the candidate at place `j` was merged into an earlier candidate
/// with the same incoming edges, the candidates behind it are as they were
/// to one another, and the next one, where it is marked, has the incoming
/// edges of the node merged into.
pub proof fn lemma_pending_after(
    g: Seq<NodeView>,
    h: Seq<NodeView>,
    a: int,
    b: int,
    cands: Seq<usize>,
    marks: Seq<bool>,
    j: int,
)
    requires
        mergeable(g, a, b),
        merged_backward(g, h, a, b),
        g[a].backwards == g[b].backwards,
        g[b].backwards.len() > 0,
        0 <= j < cands.len(),
        marks.len() == cands.len(),
        cands[j] == b,
        forall|i: int| j < i < cands.len() ==> cands[i] != a && cands[i] != b,
        forall|i: int| 0 <= i < cands.len() ==> cands[i] < g.len(),
        pending(g, cands, marks, j),
    ensures
        pending(h, cands, marks, j + 1),
        h[a].backwards.len() > 0,
        j + 1 < cands.len() && marks[j + 1] ==> h[cands[j + 1] as int].backwards == h[a].backwards,
{
    assert forall|i: int| j + 1 <= i < cands.len() implies (#[trigger] h[cands[i] as int]).backwards.len()
        > 0 by {
        let x = cands[i] as int;
        assert(g[x].backwards.len() > 0);
        let e = g[x].backwards[0];
        assert(g[x].backwards.contains(e));
        if e.1 == b {
            assert(h[x].backwards.contains((e.0, a)));
        } else {
            assert(h[x].backwards.contains(e));
        }
    }
    assert forall|i: int| j + 1 < i < cands.len() && #[trigger] marks[i] implies h[cands[i] as int].backwards
        == h[cands[i - 1] as int].backwards by {
        let x = cands[i] as int;
        let y = cands[i - 1] as int;
        assert(g[x].backwards == g[y].backwards);
        assert forall|e: EdgeView| h[x].backwards.contains(e) <==> h[y].backwards.contains(e) by {
        }
        assert(sorted(h[x].forwards) && sorted(h[x].backwards));
        assert(sorted(h[y].forwards) && sorted(h[y].backwards));
        lemma_sorted_unique(h[x].backwards, h[y].backwards);
    }
    if j + 1 < cands.len() && marks[j + 1] {
        let x = cands[j + 1] as int;
        assert(g[x].backwards == g[b].backwards);
        assert forall|e: EdgeView| h[x].backwards.contains(e) <==> h[a].backwards.contains(e) by {
            if g[b].backwards.contains(e) {
            }
            if g[b].backwards.contains((e.0, b)) {
            }
        }
        assert(sorted(h[x].forwards) && sorted(h[x].backwards));
        assert(sorted(h[a].forwards) && sorted(h[a].backwards));
        lemma_sorted_unique(h[x].backwards, h[a].backwards);
    }
}

/// A graph oriented either way has edge sets where the graph has.
pub proof fn lemma_oriented_sorted(g: Seq<NodeView>, backward: bool)
    requires
        nodes_sorted(g),
    ensures
        nodes_sorted(oriented(g, backward)),
{
    let og = oriented(g, backward);
    assert forall|i: int| #![trigger og[i]] 0 <= i < og.len() implies sorted(og[i].forwards)
        && sorted(og[i].backwards) by {
        assert(sorted(g[i].forwards) && sorted(g[i].backwards));
    }
}

/// For each node, whether it was merged away.
pub open spec fn dead_marks(g: Seq<NodeView>, eos: int) -> Seq<bool> {
    Seq::new(g.len(), |x: int| dead(g, eos, x))
}

/// The number of nodes that were not merged away.
pub open spec fn alive(g: Seq<NodeView>, eos: int) -> nat {
    count_false(dead_marks(g, eos))
}

/// A merge leaves one node less.
pub proof fn lemma_merged_alive(
    g: Seq<NodeView>,
    h: Seq<NodeView>,
    eos: int,
    topo: Seq<int>,
    order: Seq<int>,
    words: Seq<Seq<char>>,
    a: int,
    b: int,
    backward: bool,
)
    requires
        sound(g, eos, topo, words),
        sound(h, eos, order, words),
        merged_backward(oriented(g, backward), oriented(h, backward), a, b),
        0 <= a < g.len(),
        eos < b < g.len(),
        a != b,
        oriented(g, backward)[b].backwards.len() > 0,
        oriented(g, backward)[a].backwards.len() > 0,
    ensures
        alive(h, eos) + 1 == alive(g, eos),
{
    let og = oriented(g, backward);
    let oh = oriented(h, backward);
    let dg = dead_marks(g, eos);
    let dh = dead_marks(h, eos);
    assert(og[b] == if backward { g[b] } else { flip(g[b]) });
    assert(og[a] == if backward { g[a] } else { flip(g[a]) });
    assert(oh[b] == if backward { h[b] } else { flip(h[b]) });
    assert(oh[a] == if backward { h[a] } else { flip(h[a]) });
    assert(!dg[b]);
    assert forall|x: int| 0 <= x < g.len() implies dh[x] == dg.update(b, true)[x] by {
        assert(og[x] == if backward { g[x] } else { flip(g[x]) });
        assert(oh[x] == if backward { h[x] } else { flip(h[x]) });
        assert(node_sound(g, eos, topo, x));
        assert(node_sound(h, eos, order, x));
        if x == b {
        } else if x == a {
        } else {
            if dead(g, eos, x) {
                if oh[x].forwards.len() > 0 {
                    assert(oh[x].forwards.contains(oh[x].forwards[0]));
                }
                if oh[x].backwards.len() > 0 {
                    assert(oh[x].backwards.contains(oh[x].backwards[0]));
                }
            }
            if dead(h, eos, x) {
                if og[x].backwards.len() > 0 {
                    let e = og[x].backwards[0];
                    assert(og[x].backwards.contains(e));
                    if e.1 == b {
                        assert(oh[x].backwards.contains((e.0, a)));
                    } else {
                        assert(oh[x].backwards.contains(e));
                    }
                }
            }
        }
    }
    assert(dh =~= dg.update(b, true));
    lemma_count_update(dg, b);
}

/// The graph is a lattice of the sentence `words` in order, under some order
/// of its nodes.
pub open spec fn in_order(g: Seq<NodeView>, eos: int, words: Seq<Seq<char>>) -> bool {
    exists|topo: Seq<int>| sound(g, eos, topo, words)
}

/// A graph is in order for one sink and one sentence only.
pub proof fn lemma_one_sentence(
    g: Seq<NodeView>,
    eos: int,
    topo: Seq<int>,
    words: Seq<Seq<char>>,
    eos2: int,
    topo2: Seq<int>,
    words2: Seq<Seq<char>>,
)
    requires
        sound(g, eos, topo, words),
        sound(g, eos2, topo2, words2),
    ensures
        eos2 == eos,
        words2 == words,
{
    if eos < eos2 {
        assert(node_sound(g, eos, topo, eos));
        assert(node_sound(g, eos2, topo2, eos));
        assert(g[eos].forward_main == Some((words2[eos], eos + 1)));
    }
    if eos2 < eos {
        assert(node_sound(g, eos, topo, eos2));
        assert(node_sound(g, eos2, topo2, eos2));
        assert(g[eos2].forward_main == Some((words[eos2], eos2 + 1)));
    }
    assert forall|i: int| 0 <= i < eos implies words[i] == words2[i] by {
        assert(g[i].forward_main == Some((words[i], i + 1)));
        assert(g[i].forward_main == Some((words2[i], i + 1)));
    }
    assert(words =~= words2);
}

} // verus!
