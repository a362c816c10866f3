//! Renumbering: the nodes of a graph are numbered anew from the source on, a
//! node getting its number once every edge into it has been followed.

use vstd::prelude::*;
use std::collections::VecDeque;
use crate::edge::{
    EdgeView, edge_view, edges_view, option_edge_view, sorted, insert_sorted, edges_insert,
    lemma_insert_sorted,
};
use crate::chain::{spells, trunk_word};
use crate::idset::{sum, lemma_sum_update};
use crate::kahn::{
    Kahn, kahn_ok, kahn_init, kahn_pop, kahn_step, kahn_finish, kahn_next, kahn_run, kahn_end,
    in_seq, numbered_ok, source_before,
    lemma_kahn_init, lemma_kahn_pop, lemma_kahn_step, lemma_kahn_finish, lemma_kahn_all,
    lemma_kahn_dead,
};
use crate::lattice::{
    valid_nodes, node_linked, forward_edge_ok, backward_edge_ok, trunk_at,
};
use crate::derive::{no_more, spelled, full_route, lemma_carried_no_less};
use crate::paraphrase::{carried, edge_at, route_ok, hop};
use crate::sound::{sound, node_sound, up_ok, down_ok};
use crate::node::{LatticeNode, NodeView, nodes_view};

verus! {

/// The edge `e` with its node id replaced by its new number.
pub open spec fn renumber_edge(e: EdgeView, map: Seq<int>) -> EdgeView {
    (e.0, map[e.1])
}

/// The first `upto` edges of `s`, renumbered, as an edge set.
pub open spec fn renumber_edges(s: Seq<EdgeView>, map: Seq<int>, upto: int) -> Seq<EdgeView>
    decreases upto,
{
    if upto <= 0 {
        Seq::empty()
    } else {
        insert_sorted(renumber_edges(s, map, upto - 1), renumber_edge(s[upto - 1], map))
    }
}

/// A renumbered main edge.
pub open spec fn renumber_main(m: Option<EdgeView>, map: Seq<int>) -> Option<EdgeView> {
    match m {
        Some(e) => Some(renumber_edge(e, map)),
        None => None,
    }
}

/// The node `n` with every node id replaced by its new number, at depth 0.
pub open spec fn renumber_node(n: NodeView, map: Seq<int>) -> NodeView {
    NodeView {
        forwards: renumber_edges(n.forwards, map, n.forwards.len() as int),
        backwards: renumber_edges(n.backwards, map, n.backwards.len() as int),
        forward_main: renumber_main(n.forward_main, map),
        backward_main: renumber_main(n.backward_main, map),
        depth: 0,
    }
}

pub proof fn lemma_renumber_edges_sorted(s: Seq<EdgeView>, map: Seq<int>, upto: int)
    ensures
        sorted(renumber_edges(s, map, upto)),
    decreases upto,
{
    if upto > 0 {
        lemma_renumber_edges_sorted(s, map, upto - 1);
        lemma_insert_sorted(renumber_edges(s, map, upto - 1), renumber_edge(s[upto - 1], map));
    }
}

/// A list of ids as plain values.
pub open spec fn ids_view(v: Seq<usize>) -> Seq<int> {
    Seq::new(v.len(), |i: int| v[i] as int)
}

/// Renumbers a vector of edges.
fn renumber<'a>(edges: &Vec<(&'a str, usize)>, node_id_map: &Vec<usize>) -> (r: Vec<(&'a str, usize)>)
    requires
        forall|k: int| 0 <= k < edges.len() ==> (#[trigger] edges[k]).1 < node_id_map.len(),
    ensures
        edges_view(r@) == renumber_edges(
            edges_view(edges@),
            ids_view(node_id_map@),
            edges.len() as int,
        ),
        sorted(edges_view(r@)),
{
    let ghost s = edges_view(edges@);
    let ghost map = ids_view(node_id_map@);
    let mut out: Vec<(&'a str, usize)> = Vec::new();
    let mut k: usize = 0;
    assert(edges_view(out@) =~= renumber_edges(s, map, 0));
    while k < edges.len()
        invariant
            s == edges_view(edges@),
            map == ids_view(node_id_map@),
            k <= edges.len(),
            forall|k: int| 0 <= k < edges.len() ==> (#[trigger] edges[k]).1 < node_id_map.len(),
            edges_view(out@) == renumber_edges(s, map, k as int),
            sorted(edges_view(out@)),
        decreases edges.len() - k,
    {
        let (t, next) = edges[k];
        assert(s[k as int] == (t@, next as int));
        edges_insert(&mut out, (t, node_id_map[next]));
        k += 1;
    }
    out
}

/// Renumbers a main edge.
fn renumber_main_edge<'a>(m: Option<(&'a str, usize)>, node_id_map: &Vec<usize>) -> (r: Option<
    (&'a str, usize),
>)
    ensures
        m matches Some(e) && e.1 < node_id_map.len() ==> option_edge_view(r) == renumber_main(
            option_edge_view(m),
            ids_view(node_id_map@),
        ),
        m.is_none() ==> r.is_none(),
{
    match m {
        Some((t, i)) => {
            if i < node_id_map.len() {
                Some((t, node_id_map[i]))
            } else {
                Some((t, i))
            }
        },
        None => None,
    }
}

/// What a renumbered edge set holds: the renumbered edges of the set.
pub proof fn lemma_renumber_contains(s: Seq<EdgeView>, map: Seq<int>, upto: int, y: EdgeView)
    requires
        0 <= upto <= s.len(),
    ensures
        renumber_edges(s, map, upto).contains(y) <==> exists|r: int|
            0 <= r < upto && y == renumber_edge(#[trigger] s[r], map),
        renumber_edges(s, map, upto).len() > 0 <==> upto > 0,
    decreases upto,
{
    if upto > 0 {
        lemma_renumber_contains(s, map, upto - 1, y);
        lemma_renumber_edges_sorted(s, map, upto - 1);
        let prev = renumber_edges(s, map, upto - 1);
        let e = renumber_edge(s[upto - 1], map);
        lemma_insert_sorted(prev, e);
        let cur = renumber_edges(s, map, upto);
        assert(cur.contains(e));
        if cur.contains(y) {
            if prev.contains(y) {
                let r = choose|r: int| 0 <= r < upto - 1 && y == renumber_edge(#[trigger] s[r], map);
                assert(0 <= r < upto && y == renumber_edge(s[r], map));
            } else {
                assert(y == renumber_edge(s[upto - 1], map));
            }
        }
        if exists|r: int| 0 <= r < upto && y == renumber_edge(#[trigger] s[r], map) {
            let r = choose|r: int| 0 <= r < upto && y == renumber_edge(#[trigger] s[r], map);
            if r < upto - 1 {
                assert(prev.contains(y));
            }
        }
    } else {
        assert(renumber_edges(s, map, upto) =~= Seq::empty());
    }
}

/// Where a node has its number, its place in the order of the numbers is its
/// number.
proof fn lemma_place(g: Seq<NodeView>, s: Kahn, x: int) -> (k: int)
    requires
        kahn_ok(g, s),
        in_seq(s.order, x),
    ensures
        0 <= k < s.order.len(),
        s.order[k] == x,
        s.map[x] == k,
        0 <= x < g.len(),
{
    let k = choose|k: int| 0 <= k < s.order.len() && #[trigger] s.order[k] == x;
    assert(numbered_ok(g, s, k));
    k
}

/// The renumbered graph: for every new number, the node that got it, with
/// the node ids in its edges replaced by their new numbers.
pub open spec fn renumbered(g: Seq<NodeView>, order: Seq<int>, map: Seq<int>) -> Seq<NodeView> {
    Seq::new(order.len(), |k: int| renumber_node(g[order[k]], map))
}

/// The source has the number 0, and the sink the last.
proof fn lemma_ends(
    g: Seq<NodeView>,
    eos: int,
    topo: Seq<int>,
    words: Seq<Seq<char>>,
    s: Kahn,
)
    requires
        sound(g, eos, topo, words),
        kahn_ok(g, s),
        s.cur == -1,
        s.queue.len() == 0,
    ensures
        s.order.len() >= 1,
        s.order[0] == 0,
        s.order[s.order.len() - 1] == eos,
        s.map[0] == 0,
        s.map[eos] == s.order.len() - 1,
{
    lemma_kahn_all(g, eos, topo, words, s, 0);
    let k0 = lemma_place(g, s, 0);
    // the first node has no incoming edge
    let first = s.order[0];
    assert(numbered_ok(g, s, 0));
    lemma_kahn_dead(g, eos, topo, words, s, 0);
    assert(node_sound(g, eos, topo, first));
    if g[first].backwards.len() > 0 {
        assert(source_before(g, s, 0, 0));
    }
    assert(first == 0);
    // the last node has no outgoing edge
    let last_k = s.order.len() - 1;
    let last = s.order[last_k];
    assert(numbered_ok(g, s, last_k));
    lemma_kahn_dead(g, eos, topo, words, s, last_k);
    assert(node_sound(g, eos, topo, last));
    if g[last].forwards.len() > 0 {
        let e = g[last].forwards[0];
        assert(up_ok(g, topo, last, g[last].forwards[0]));
        let j = e.1;
        assert(node_sound(g, eos, topo, j));
        assert(g[j].backwards.contains((e.0, last)));
        let r = choose|r: int| 0 <= r < g[j].backwards.len() && g[j].backwards[r] == (e.0, last);
        lemma_kahn_all(g, eos, topo, words, s, j);
        let kj = lemma_place(g, s, j);
        assert(numbered_ok(g, s, kj));
        assert(source_before(g, s, kj, r));
        let i = choose|i: int| 0 <= i < kj && i < s.order.len() && #[trigger] s.order[i] == last;
        assert(numbered_ok(g, s, i));
    }
    assert(last == eos);
}

/// The renumbered graph of a lattice in order is a lattice, and its trunk
/// spells the sentence.
pub proof fn lemma_renumbered_valid(
    g: Seq<NodeView>,
    eos: int,
    topo: Seq<int>,
    words: Seq<Seq<char>>,
    s: Kahn,
)
    requires
        sound(g, eos, topo, words),
        kahn_ok(g, s),
        s.cur == -1,
        s.queue.len() == 0,
    ensures
        valid_nodes(renumbered(g, s.order, s.map)),
        spells(renumbered(g, s.order, s.map), words),
{
    let h = renumbered(g, s.order, s.map);
    let map = s.map;
    let n = h.len() as int;
    lemma_ends(g, eos, topo, words, s);
    assert forall|k: int| #![trigger h[k]] 0 <= k < n implies sorted(h[k].forwards) && sorted(
        h[k].backwards,
    ) by {
        let x = s.order[k];
        lemma_renumber_edges_sorted(g[x].forwards, map, g[x].forwards.len() as int);
        lemma_renumber_edges_sorted(g[x].backwards, map, g[x].backwards.len() as int);
    }
    assert forall|k: int| 0 <= k < n implies #[trigger] node_linked(h, k) by {
        let x = s.order[k];
        assert(numbered_ok(g, s, k));
        lemma_kahn_dead(g, eos, topo, words, s, k);
        assert(node_sound(g, eos, topo, x));
        let fw = g[x].forwards;
        let bw = g[x].backwards;
        assert forall|q: int| 0 <= q < h[k].forwards.len() implies forward_edge_ok(
            h,
            k,
            #[trigger] h[k].forwards[q],
        ) by {
            let y = h[k].forwards[q];
            assert(h[k].forwards.contains(y));
            lemma_renumber_contains(fw, map, fw.len() as int, y);
            let r = choose|r: int| 0 <= r < fw.len() && y == renumber_edge(#[trigger] fw[r], map);
            let e = fw[r];
            assert(up_ok(g, topo, x, g[x].forwards[r]));
            let j = e.1;
            assert(node_sound(g, eos, topo, j));
            let r2 = choose|r2: int| 0 <= r2 < g[j].backwards.len() && g[j].backwards[r2] == (e.0, x);
            lemma_kahn_all(g, eos, topo, words, s, j);
            let kj = lemma_place(g, s, j);
            assert(numbered_ok(g, s, kj));
            assert(source_before(g, s, kj, r2));
            let i = choose|i: int| 0 <= i < kj && i < s.order.len() && #[trigger] s.order[i] == x;
            assert(numbered_ok(g, s, i));
            assert(i == k);
            lemma_renumber_contains(g[j].backwards, map, g[j].backwards.len() as int, (e.0, k));
            assert((e.0, k) == renumber_edge(g[j].backwards[r2], map));
        }
        assert forall|q: int| 0 <= q < h[k].backwards.len() implies backward_edge_ok(
            h,
            k,
            #[trigger] h[k].backwards[q],
        ) by {
            let y = h[k].backwards[q];
            assert(h[k].backwards.contains(y));
            lemma_renumber_contains(bw, map, bw.len() as int, y);
            let r = choose|r: int| 0 <= r < bw.len() && y == renumber_edge(#[trigger] bw[r], map);
            let e = bw[r];
            assert(down_ok(g, x, g[x].backwards[r]));
            assert(source_before(g, s, k, r));
            let i = choose|i: int| 0 <= i < k && i < s.order.len() && #[trigger] s.order[i] == e.1;
            assert(numbered_ok(g, s, i));
            let src = e.1;
            let r2 = choose|r2: int|
                0 <= r2 < g[src].forwards.len() && g[src].forwards[r2] == (e.0, x);
            lemma_renumber_contains(g[src].forwards, map, g[src].forwards.len() as int, (e.0, k));
            assert((e.0, k) == renumber_edge(g[src].forwards[r2], map));
        }
        lemma_renumber_contains(fw, map, fw.len() as int, (Seq::empty(), 0));
        lemma_renumber_contains(bw, map, bw.len() as int, (Seq::empty(), 0));
        if k < n - 1 {
            assert(numbered_ok(g, s, n - 1));
            assert(x != eos);
        }
        if k > 0 {
            assert(numbered_ok(g, s, 0));
            assert(x != 0);
        }
        match g[x].forward_main {
            Some(e) => {
                let r = choose|r: int| 0 <= r < fw.len() && fw[r] == e;
                lemma_renumber_contains(fw, map, fw.len() as int, renumber_edge(e, map));
            },
            None => {},
        }
        match g[x].backward_main {
            Some(e) => {
                let r = choose|r: int| 0 <= r < bw.len() && bw[r] == e;
                lemma_renumber_contains(bw, map, bw.len() as int, renumber_edge(e, map));
            },
            None => {},
        }
    }
    assert forall|p: nat| p <= eos implies trunk_at(h, p) == Some(map[p as int]) by {
        lemma_trunk_renumbered(g, eos, topo, words, s, p);
    }
    assert(trunk_at(h, eos as nat) == Some(map[eos]));
    assert forall|p: nat| p < words.len() implies #[trigger] trunk_word(h, p) == Some(
        words[p as int],
    ) by {
        lemma_trunk_renumbered(g, eos, topo, words, s, p);
        lemma_kahn_all(g, eos, topo, words, s, p as int);
        let k = lemma_place(g, s, p as int);
    }
}

/// The trunk of the renumbered graph runs through the renumbered nodes of
/// the trunk.
proof fn lemma_trunk_renumbered(
    g: Seq<NodeView>,
    eos: int,
    topo: Seq<int>,
    words: Seq<Seq<char>>,
    s: Kahn,
    p: nat,
)
    requires
        sound(g, eos, topo, words),
        kahn_ok(g, s),
        s.cur == -1,
        s.queue.len() == 0,
        p <= eos,
    ensures
        trunk_at(renumbered(g, s.order, s.map), p) == Some(s.map[p as int]),
        0 <= s.map[p as int] < s.order.len(),
        s.order[s.map[p as int]] == p,
    decreases p,
{
    let h = renumbered(g, s.order, s.map);
    lemma_ends(g, eos, topo, words, s);
    lemma_kahn_all(g, eos, topo, words, s, p as int);
    let k = lemma_place(g, s, p as int);
    if p > 0 {
        lemma_trunk_renumbered(g, eos, topo, words, s, (p - 1) as nat);
        let prev = s.map[p - 1];
        assert(h[prev] == renumber_node(g[s.order[prev]], s.map));
        assert(g[p - 1].forward_main == Some((words[p - 1], p as int)));
    }
}

/// The state of the renumbering as the vectors hold it.
pub open spec fn kahn_held(
    s: Kahn,
    remaining: Seq<usize>,
    queue: Seq<usize>,
    order: Seq<usize>,
    map: Seq<usize>,
) -> bool {
    &&& ids_view(remaining) == s.remaining
    &&& ids_view(queue) == s.queue
    &&& ids_view(order) == s.order
    &&& ids_view(map) == s.map
}

/// The renumbering carries every edge along: an edge of the lattice is an
/// edge between the new numbers of its ends.
pub proof fn lemma_renumbered_carried(
    g: Seq<NodeView>,
    eos: int,
    topo: Seq<int>,
    words: Seq<Seq<char>>,
    s: Kahn,
)
    requires
        sound(g, eos, topo, words),
        kahn_ok(g, s),
        s.cur == -1,
        s.queue.len() == 0,
        s.map.len() == g.len(),
    ensures
        carried(g, renumbered(g, s.order, s.map), s.map),
{
    let h = renumbered(g, s.order, s.map);
    assert forall|u: int, e: EdgeView|
        0 <= u < g.len() && #[trigger] g[u].forwards.contains(e) && 0 <= e.1
            < g.len() implies edge_at(h, s.map[u], (e.0, s.map[e.1])) by {
        let r = choose|r: int| 0 <= r < g[u].forwards.len() && g[u].forwards[r] == e;
        assert(node_sound(g, eos, topo, u));
        assert(up_ok(g, topo, u, g[u].forwards[r]));
        assert(node_sound(g, eos, topo, e.1));
        lemma_kahn_all(g, eos, topo, words, s, u);
        lemma_kahn_all(g, eos, topo, words, s, e.1);
        let ku = lemma_place(g, s, u);
        let kv = lemma_place(g, s, e.1);
        lemma_renumber_contains(
            g[u].forwards,
            s.map,
            g[u].forwards.len() as int,
            renumber_edge(e, s.map),
        );
        assert(renumber_edge(g[u].forwards[r], s.map) == (e.0, s.map[e.1]));
    }
}

/// The renumbered lattice spells no sentence that the lattice did not
/// spell.
pub proof fn lemma_renumbered_no_more(
    g: Seq<NodeView>,
    eos: int,
    topo: Seq<int>,
    words: Seq<Seq<char>>,
    s: Kahn,
)
    requires
        sound(g, eos, topo, words),
        kahn_ok(g, s),
        s.cur == -1,
        s.queue.len() == 0,
    ensures
        no_more(g, eos, renumbered(g, s.order, s.map), s.order.len() - 1),
{
    let h = renumbered(g, s.order, s.map);
    let last = s.order.len() - 1;
    lemma_ends(g, eos, topo, words, s);
    assert forall|q: Seq<Seq<char>>| #[trigger] spelled(h, last, q) implies spelled(g, eos, q) by {
        let nodes = choose|nodes: Seq<int>| #[trigger] full_route(h, last, nodes, q);
        let back = Seq::new(nodes.len(), |t: int| s.order[nodes[t]]);
        assert forall|t: int| 0 <= t < q.len() implies #[trigger] hop(g, back, q, t) by {
            assert(hop(h, nodes, q, t));
            let k = nodes[t];
            let x = s.order[k];
            assert(numbered_ok(g, s, k));
            let y = (q[t], nodes[t + 1]);
            assert(h[k].forwards.contains(y));
            lemma_renumber_contains(g[x].forwards, s.map, g[x].forwards.len() as int, y);
            let r = choose|r: int|
                0 <= r < g[x].forwards.len() && y == renumber_edge(#[trigger] g[x].forwards[r], s.map);
            let e = g[x].forwards[r];
            assert(node_sound(g, eos, topo, x));
            assert(up_ok(g, topo, x, g[x].forwards[r]));
            assert(node_sound(g, eos, topo, e.1));
            lemma_kahn_all(g, eos, topo, words, s, e.1);
            let kj = lemma_place(g, s, e.1);
            assert(g[x].forwards.contains(e));
        }
        assert(route_ok(g, back, q));
        assert(full_route(g, eos, back, q));
    }
}

/// Renumbers the nodes of a lattice from the source on. A node gets its
/// number when the last edge into it has been followed from a numbered node;
/// the nodes that were merged away are never reached and are left out. The
/// outcome is a lattice with the same trunk.
pub fn index_left_to_right<'a>(
    lattice: &Vec<LatticeNode<'a>>,
    Ghost(eos): Ghost<int>,
    Ghost(topo): Ghost<Seq<int>>,
    Ghost(words): Ghost<Seq<Seq<char>>>,
) -> (r: (Vec<LatticeNode<'a>>, Ghost<Kahn>))
    requires
        sound(nodes_view(lattice@), eos, topo, words),
    ensures
        kahn_ok(nodes_view(lattice@), r.1@),
        r.1@.cur == -1,
        r.1@.queue.len() == 0,
        nodes_view(r.0@) == renumbered(nodes_view(lattice@), r.1@.order, r.1@.map),
        valid_nodes(nodes_view(r.0@)),
        spells(nodes_view(r.0@), words),
        carried(nodes_view(lattice@), nodes_view(r.0@), r.1@.map),
        no_more(nodes_view(lattice@), eos, nodes_view(r.0@), r.0.len() - 1),
        no_more(nodes_view(r.0@), r.0.len() - 1, nodes_view(lattice@), eos),
        kahn_end(nodes_view(lattice@), r.1@),
{
    let ghost g = nodes_view(lattice@);
    let n = lattice.len();
    let mut node_id_map: Vec<usize> = Vec::new();
    let mut remaining: Vec<usize> = Vec::new();
    let mut i: usize = 0;
    while i < n
        invariant
            g == nodes_view(lattice@),
            n == lattice.len(),
            i <= n,
            node_id_map.len() == i,
            remaining.len() == i,
            forall|j: int| 0 <= j < i ==> #[trigger] node_id_map[j] == 0,
            forall|j: int| 0 <= j < i ==> #[trigger] remaining[j] == g[j].backwards.len(),
        decreases n - i,
    {
        node_id_map.push(0);
        assert(g[i as int] == lattice@[i as int]@);
        remaining.push(lattice[i].backwards.len());
        i += 1;
    }
    let mut node_id_map_rev: Vec<usize> = Vec::new();
    let mut queue: VecDeque<usize> = VecDeque::new();
    queue.push_back(0);
    let ghost mut s = kahn_init(g);
    let ghost mut steps: nat = 0;
    proof {
        lemma_kahn_init(g, eos, topo, words);
        assert(ids_view(remaining@) =~= s.remaining);
        assert(ids_view(queue@) =~= s.queue);
        assert(ids_view(node_id_map_rev@) =~= s.order);
        assert(ids_view(node_id_map@) =~= s.map);
    }
    while queue.len() > 0
        invariant
            g == nodes_view(lattice@),
            sound(g, eos, topo, words),
            n == lattice.len(),
            node_id_map.len() == n,
            remaining.len() == n,
            kahn_ok(g, s),
            s.cur == -1,
            s == kahn_run(g, kahn_init(g), steps),
            kahn_held(s, remaining@, queue@, node_id_map_rev@, node_id_map@),
        decreases 2 * sum(remaining@) + queue@.len(),
    {
        let ghost m0 = 2 * sum(remaining@) + queue@.len();
        proof {
            assert(crate::kahn::waiting_ok(g, s, 0));
            assert(s.queue[0] == queue@[0]);
            lemma_kahn_pop(g, s);
        }
        let node_id = queue.pop_front().unwrap();
        node_id_map[node_id] = node_id_map_rev.len();
        node_id_map_rev.push(node_id);
        proof {
            let s1 = kahn_pop(s);
            assert(ids_view(queue@) =~= s1.queue);
            assert(ids_view(node_id_map_rev@) =~= s1.order);
            assert(ids_view(node_id_map@) =~= s1.map);
            assert(s1 == kahn_next(g, s));
            s = s1;
            steps = steps + 1;
        }
        assert(g[node_id as int] == lattice@[node_id as int]@);
        let mut e: usize = 0;
        while e < lattice[node_id].forwards.len()
            invariant
                g == nodes_view(lattice@),
                sound(g, eos, topo, words),
                n == lattice.len(),
                node_id < n,
                node_id_map.len() == n,
                remaining.len() == n,
                e <= lattice[node_id as int].forwards.len(),
                kahn_ok(g, s),
                s.cur == node_id,
                s.e == e,
                s == kahn_run(g, kahn_init(g), steps),
                kahn_held(s, remaining@, queue@, node_id_map_rev@, node_id_map@),
                2 * sum(remaining@) + queue@.len() < m0,
            decreases lattice[node_id as int].forwards.len() - e,
        {
            let edge_target = lattice[node_id].forwards[e].1;
            assert(g[node_id as int] == lattice@[node_id as int]@);
            assert(g[node_id as int].forwards[e as int].1 == edge_target);
            proof {
                lemma_kahn_step(g, eos, topo, words, s);
                assert(s.remaining[edge_target as int] == remaining[edge_target as int]);
                lemma_sum_update(
                    remaining@,
                    edge_target as int,
                    (remaining[edge_target as int] - 1) as usize,
                );
            }
            remaining[edge_target] = remaining[edge_target] - 1;
            if remaining[edge_target] == 0 {
                queue.push_back(edge_target);
            }
            proof {
                let s1 = kahn_step(g, s);
                assert(ids_view(remaining@) =~= s1.remaining);
                assert(ids_view(queue@) =~= s1.queue);
                assert(s1 == kahn_next(g, s));
                s = s1;
                steps = steps + 1;
            }
            e += 1;
        }
        proof {
            lemma_kahn_finish(g, eos, topo, words, s);
            assert(kahn_finish(s) == kahn_next(g, s));
            s = kahn_finish(s);
            steps = steps + 1;
        }
    }
    let ghost map = ids_view(node_id_map@);
    let ghost order = ids_view(node_id_map_rev@);
    let mut new_lattice: Vec<LatticeNode<'a>> = Vec::new();
    let mut k: usize = 0;
    while k < node_id_map_rev.len()
        invariant
            g == nodes_view(lattice@),
            sound(g, eos, topo, words),
            kahn_ok(g, s),
            n == lattice.len(),
            node_id_map.len() == n,
            map == ids_view(node_id_map@),
            order == ids_view(node_id_map_rev@),
            map == s.map,
            order == s.order,
            k <= node_id_map_rev.len(),
            new_lattice.len() == k,
            forall|j: int|
                #![trigger nodes_view(new_lattice@)[j]]
                0 <= j < k ==> nodes_view(new_lattice@)[j] == renumber_node(g[order[j]], map),
        decreases node_id_map_rev.len() - k,
    {
        let node_id = node_id_map_rev[k];
        proof {
            assert(numbered_ok(g, s, k as int));
            assert(order[k as int] == node_id);
            lemma_kahn_dead(g, eos, topo, words, s, k as int);
            assert(node_sound(g, eos, topo, node_id as int));
        }
        let node = &lattice[node_id];
        assert(g[node_id as int] == lattice@[node_id as int]@);
        proof {
            assert forall|j: int| 0 <= j < node.forwards.len() implies (#[trigger] node.forwards[j]).1
                < n by {
                assert(g[node_id as int].forwards[j] == edge_view(node.forwards[j]));
                assert(up_ok(g, topo, node_id as int, g[node_id as int].forwards[j]));
            }
            assert forall|j: int| 0 <= j < node.backwards.len() implies (
            #[trigger] node.backwards[j]).1 < n by {
                assert(g[node_id as int].backwards[j] == edge_view(node.backwards[j]));
                assert(down_ok(g, node_id as int, g[node_id as int].backwards[j]));
            }
            match g[node_id as int].forward_main {
                Some(x) => {
                    let q = choose|q: int|
                        0 <= q < g[node_id as int].forwards.len() && g[node_id as int].forwards[q] == x;
                    assert(up_ok(g, topo, node_id as int, g[node_id as int].forwards[q]));
                },
                None => {},
            }
            match g[node_id as int].backward_main {
                Some(x) => {
                    let q = choose|q: int|
                        0 <= q < g[node_id as int].backwards.len() && g[node_id as int].backwards[q]
                            == x;
                    assert(down_ok(g, node_id as int, g[node_id as int].backwards[q]));
                },
                None => {},
            }
        }
        let new_forwards = renumber(&node.forwards, &node_id_map);
        let new_backwards = renumber(&node.backwards, &node_id_map);
        let forward_main = renumber_main_edge(node.forward_main, &node_id_map);
        let backward_main = renumber_main_edge(node.backward_main, &node_id_map);
        let new_node = LatticeNode {
            forwards: new_forwards,
            backwards: new_backwards,
            forward_main,
            backward_main,
            depth: 0,
        };
        let ghost before = nodes_view(new_lattice@);
        let ghost nv = new_node@;
        new_lattice.push(new_node);
        proof {
            assert(nodes_view(new_lattice@) =~= before.push(nv));
        }
        k += 1;
    }
    proof {
        assert(nodes_view(new_lattice@) =~= renumbered(g, s.order, s.map));
        lemma_renumbered_valid(g, eos, topo, words, s);
        lemma_renumbered_carried(g, eos, topo, words, s);
        lemma_renumbered_no_more(g, eos, topo, words, s);
        lemma_ends(g, eos, topo, words, s);
        lemma_carried_no_less(g, eos, nodes_view(new_lattice@), new_lattice.len() - 1, s.map);
    }
    (new_lattice, Ghost(s))
}

} // verus!
