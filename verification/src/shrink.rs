//! Shrinking: nodes with the same incoming edges, or with the same outgoing
//! edges, are merged into one, until no such nodes are left.

use vstd::prelude::*;
use crate::edge::{
    EdgeView, edge_view, edges_view, edge_order, edge_lt, sorted, compare_edges, option_edge_eq,
    edges_insert, edges_remove, lemma_edge_lt_irreflexive, lemma_edge_lt_asymmetric,
    lemma_edge_lt_transitive, lemma_edge_order_total,
};
use crate::count::{lemma_merged_backward_count, lemma_merged_forward_count};
use crate::idset::{increasing, ids_insert, ids_put};
use crate::lattice::edge_count;
use crate::node::{
    LatticeNode, NodeView, nodes_view, nodes_sorted, nodes_in_range, mains_in_range, main_in_range,
};
use crate::merge::{
    oriented, unlinked, node_unlinked, unlink_step, lemma_unlink_step, relinked, node_relinked,
    relink_step, gain_step, lemma_relink_step, mergeable, merged_backward, merged_forward, emptied,
    lemma_merged, lemma_flip_merged, lemma_oriented_sorted, pending, runs_up, lemma_pending_after,
    lemma_trunk_keys, lemma_mergeable_backward, lemma_mergeable_forward,
    lemma_merged_backward_sound, lemma_merged_forward_sound, topo_backward, topo_forward, alive,
    lemma_merged_alive, in_order, lemma_one_sentence,
};
use crate::paraphrase::{
    carried, same_nodes, composed, merge_map, lemma_carried_composed,
    lemma_merged_backward_carried, lemma_merged_forward_carried,
};
use crate::derive::{
    no_more, lemma_no_more_chain, lemma_merged_backward_no_more, lemma_merged_forward_no_more,
    lemma_carried_no_less,
};
use crate::rounds::{
    empty_key, unlink_node, unlink_graph, relink_node, gain_node, relink_graph, merge_graph,
    insert_at, candidates, marks_of, first_of, phase_graph, touch_ends, touch_put, phase_touched,
    half_graph, half_touched, Rounds, all_nodes, round_step, rounds_run, rounds_start, shrunk_to,
};
use crate::sound::sound;
use crate::token::Order;

verus! {

/// How edge set `a` stands to edge set `b` from place `i` on, where they agree
/// before `i`: the first pair of edges that differ decides, and a set that
/// ends first is the smaller.
pub open spec fn edge_set_order_from(a: Seq<EdgeView>, b: Seq<EdgeView>, i: int) -> Order
    decreases a.len() - i,
{
    if i >= a.len() {
        if i >= b.len() {
            Order::Equal
        } else {
            Order::Less
        }
    } else if i >= b.len() {
        Order::Greater
    } else {
        match edge_order(a[i], b[i]) {
            Order::Equal => edge_set_order_from(a, b, i + 1),
            o => o,
        }
    }
}

/// The order of edge sets.
pub open spec fn edge_set_order(a: Seq<EdgeView>, b: Seq<EdgeView>) -> Order {
    edge_set_order_from(a, b, 0)
}

/// Two edge sets compare equal exactly when they are the same.
pub proof fn lemma_edge_set_order_equal(a: Seq<EdgeView>, b: Seq<EdgeView>, i: int)
    requires
        0 <= i <= a.len(),
        i <= b.len(),
        forall|k: int| 0 <= k < i ==> a[k] == b[k],
    ensures
        (edge_set_order_from(a, b, i) == Order::Equal) <==> a == b,
    decreases a.len() - i,
{
    if i >= a.len() {
        if i >= b.len() {
            assert(a =~= b);
        }
    } else if i < b.len() {
        if a[i] == b[i] {
            lemma_edge_set_order_equal(a, b, i + 1);
        }
    }
}

/// Compares two edge sets.
pub fn compare_edge_sets(a: &Vec<(&str, usize)>, b: &Vec<(&str, usize)>) -> (r: Order)
    ensures
        r == edge_set_order(edges_view(a@), edges_view(b@)),
        (r == Order::Equal) <==> edges_view(a@) == edges_view(b@),
        r == Order::Less ==> set_lt(edges_view(a@), edges_view(b@)),
        r == Order::Greater ==> set_lt(edges_view(b@), edges_view(a@)),
{
    let ghost s = edges_view(a@);
    let ghost t = edges_view(b@);
    proof {
        lemma_edge_set_order_equal(s, t, 0);
        lemma_set_order(s, t, 0);
    }
    let mut i: usize = 0;
    while i < a.len() && i < b.len()
        invariant
            s == edges_view(a@),
            t == edges_view(b@),
            i <= a.len(),
            i <= b.len(),
            edge_set_order_from(s, t, i as int) == edge_set_order(s, t),
            edge_set_order(s, t) == Order::Less ==> set_lt(s, t),
            edge_set_order(s, t) == Order::Greater ==> set_lt(t, s),
        decreases a.len() - i,
    {
        assert(s[i as int] == edge_view(a@[i as int]));
        assert(t[i as int] == edge_view(b@[i as int]));
        match compare_edges(a[i], b[i]) {
            Order::Equal => {},
            Order::Less => {
                return Order::Less;
            },
            Order::Greater => {
                return Order::Greater;
            },
        }
        i += 1;
    }
    if i < b.len() {
        Order::Less
    } else if i < a.len() {
        Order::Greater
    } else {
        Order::Equal
    }
}

/// The edge sets agree on their first `k` edges and `a` is smaller at place
/// `k`: it ends there and `b` goes on, or it holds the smaller edge.
pub open spec fn set_lt_at(a: Seq<EdgeView>, b: Seq<EdgeView>, k: int) -> bool {
    &&& 0 <= k <= a.len()
    &&& k < b.len()
    &&& forall|i: int| 0 <= i < k ==> a[i] == b[i]
    &&& (k < a.len() ==> edge_lt(a[k], b[k]))
}

/// The edge set `a` comes before the edge set `b`.
pub open spec fn set_lt(a: Seq<EdgeView>, b: Seq<EdgeView>) -> bool {
    exists|k: int| #[trigger] set_lt_at(a, b, k)
}

/// The edge set `a` comes before the edge set `b` or is `b`.
pub open spec fn set_le(a: Seq<EdgeView>, b: Seq<EdgeView>) -> bool {
    a == b || set_lt(a, b)
}

/// What the order of two edge sets says of them.
pub proof fn lemma_set_order(a: Seq<EdgeView>, b: Seq<EdgeView>, i: int)
    requires
        0 <= i <= a.len(),
        i <= b.len(),
        forall|k: int| 0 <= k < i ==> a[k] == b[k],
    ensures
        edge_set_order_from(a, b, i) == Order::Less ==> set_lt(a, b),
        edge_set_order_from(a, b, i) == Order::Greater ==> set_lt(b, a),
        edge_set_order_from(a, b, i) == Order::Equal ==> a == b,
    decreases a.len() - i,
{
    if i >= a.len() {
        if i >= b.len() {
            assert(a =~= b);
        } else {
            assert(set_lt_at(a, b, i));
        }
    } else if i >= b.len() {
        assert(set_lt_at(b, a, i));
    } else if a[i] == b[i] {
        lemma_set_order(a, b, i + 1);
    } else if edge_lt(a[i], b[i]) {
        assert(set_lt_at(a, b, i));
    } else {
        lemma_edge_order_total(a[i], b[i]);
        assert(set_lt_at(b, a, i));
    }
}

pub proof fn lemma_set_lt_asymmetric(a: Seq<EdgeView>, b: Seq<EdgeView>)
    requires
        set_lt(a, b),
    ensures
        !set_lt(b, a),
        a != b,
{
    let k = choose|k: int| #[trigger] set_lt_at(a, b, k);
    if set_lt(b, a) {
        let m = choose|m: int| #[trigger] set_lt_at(b, a, m);
        if k < m {
            assert(b[k] == a[k]);
            lemma_edge_lt_irreflexive(a[k]);
        } else if m < k {
            assert(a[m] == b[m]);
            lemma_edge_lt_irreflexive(a[m]);
        } else if k < a.len() {
            lemma_edge_lt_asymmetric(a[k], b[k]);
        }
    }
    if a == b {
        if k < a.len() {
            lemma_edge_lt_irreflexive(a[k]);
        }
    }
}

pub proof fn lemma_set_lt_transitive(a: Seq<EdgeView>, b: Seq<EdgeView>, c: Seq<EdgeView>)
    requires
        set_lt(a, b),
        set_lt(b, c),
    ensures
        set_lt(a, c),
{
    let k = choose|k: int| #[trigger] set_lt_at(a, b, k);
    let m = choose|m: int| #[trigger] set_lt_at(b, c, m);
    let n = if k <= m {
        k
    } else {
        m
    };
    assert forall|i: int| 0 <= i < n implies a[i] == c[i] by {
        assert(a[i] == b[i]);
        assert(b[i] == c[i]);
    }
    if k < m {
        assert(b[k] == c[k]);
    } else if k == m && k < a.len() {
        lemma_edge_lt_transitive(a[k], b[k], c[k]);
    }
    assert(set_lt_at(a, c, n));
}

pub proof fn lemma_set_le_transitive(a: Seq<EdgeView>, b: Seq<EdgeView>, c: Seq<EdgeView>)
    requires
        set_le(a, b),
        set_le(b, c),
    ensures
        set_le(a, c),
{
    if a != b && b != c {
        lemma_set_lt_transitive(a, b, c);
    }
}

/// The candidates come in the order of their edge sets.
pub open spec fn keys_sorted(g: Seq<NodeView>, cands: Seq<usize>, backward: bool) -> bool {
    forall|p: int, q: int|
        0 <= p < q < cands.len() ==> set_le(
            key_of(g[(#[trigger] cands[p]) as int], backward),
            key_of(g[(#[trigger] cands[q]) as int], backward),
        )
}

/// Of candidates in the order of their edge sets, two with the same edge set
/// have only candidates with that edge set between them.
pub proof fn lemma_keys_between(
    g: Seq<NodeView>,
    cands: Seq<usize>,
    backward: bool,
    p: int,
    q: int,
)
    requires
        keys_sorted(g, cands, backward),
        0 <= p < q < cands.len(),
        key_of(g[cands[p] as int], backward) == key_of(g[cands[q] as int], backward),
    ensures
        key_of(g[cands[p + 1] as int], backward) == key_of(g[cands[p] as int], backward),
{
    let a = key_of(g[cands[p] as int], backward);
    let b = key_of(g[cands[p + 1] as int], backward);
    assert(set_le(a, b));
    if p + 1 < q {
        assert(set_le(b, key_of(g[cands[q] as int], backward)));
    }
    if a != b {
        lemma_set_lt_asymmetric(a, b);
    }
}

/// Empties an edge set and returns what it held.
fn take_edges<'a>(v: &mut Vec<(&'a str, usize)>) -> (r: Vec<(&'a str, usize)>)
    ensures
        r@ == old(v)@,
        final(v)@.len() == 0,
{
    let mut out: Vec<(&'a str, usize)> = Vec::new();
    core::mem::swap(v, &mut out);
    out
}

/// Every id of the list names a node.
pub open spec fn ids_in_range(ids: Seq<usize>, len: int) -> bool {
    forall|k: int| 0 <= k < ids.len() ==> ids[k] < len
}

/// The graph keeps its shape: as many nodes, edge sets, edges inside.
pub open spec fn tidy(g: Seq<NodeView>) -> bool {
    nodes_sorted(g) && nodes_in_range(g) && mains_in_range(g)
}

/// The edge set by which a node is grouped: its incoming edges, or its
/// outgoing ones where `backward` is not set.
pub open spec fn key_of(n: NodeView, backward: bool) -> Seq<EdgeView> {
    if backward {
        n.backwards
    } else {
        n.forwards
    }
}

/// Of two neighbours in the list with the same edge set, the first has the
/// smaller id.
pub open spec fn ties_up(g: Seq<NodeView>, cands: Seq<usize>, backward: bool) -> bool {
    forall|q: int|
        1 <= q < cands.len() && key_of(g[(#[trigger] cands[q]) as int], backward) == key_of(
            g[cands[q - 1] as int],
            backward,
        ) ==> cands[q - 1] < cands[q]
}

/// No id occurs twice in the list.
pub open spec fn distinct(ids: Seq<usize>) -> bool {
    forall|a: int, b: int| 0 <= a < b < ids.len() ==> ids[a] != ids[b]
}

/// What holds of the candidates found among the first `d` nodes of `dirty`:
/// each is one of these nodes and has edges on the side asked for, none
/// occurs twice, and of two neighbours with the same edge set the first has
/// the smaller id.
pub open spec fn candidates_ok(
    g: Seq<NodeView>,
    dirty: Seq<usize>,
    d: int,
    cands: Seq<usize>,
    backward: bool,
) -> bool {
    &&& cands.len() <= d
    &&& ids_in_range(cands, g.len() as int)
    &&& distinct(cands)
    &&& forall|k: int| 0 <= k < cands.len() ==> among(dirty, d, #[trigger] cands[k])
    &&& forall|k: int|
        0 <= k < cands.len() ==> key_of(g[(#[trigger] cands[k]) as int], backward).len() > 0
    &&& ties_up(g, cands, backward)
}

/// The candidates found among the first `d` nodes of `dirty` come in the
/// order of their edge sets, and every one of these nodes that has edges on
/// the side asked for is a candidate.
pub open spec fn candidates_full(
    g: Seq<NodeView>,
    dirty: Seq<usize>,
    d: int,
    cands: Seq<usize>,
    backward: bool,
) -> bool {
    &&& keys_sorted(g, cands, backward)
    &&& forall|x: int|
        0 <= x < d && key_of(g[(#[trigger] dirty[x]) as int], backward).len() > 0
            ==> cands.contains(dirty[x])
}

/// The id is one of the first `d` of the list.
pub open spec fn among(dirty: Seq<usize>, d: int, id: usize) -> bool {
    exists|x: int| 0 <= x < d && #[trigger] dirty[x] == id
}

/// The candidates stay in order where the next node of `dirty` is put behind
/// the last candidate whose edge set is not greater than its own.
proof fn lemma_candidate_inserted(
    g: Seq<NodeView>,
    dirty: Seq<usize>,
    d: int,
    c0: Seq<usize>,
    pos: int,
    backward: bool,
)
    requires
        0 <= d < dirty.len(),
        increasing(dirty),
        dirty[d] < g.len(),
        candidates_ok(g, dirty, d, c0, backward),
        0 <= pos <= c0.len(),
        key_of(g[dirty[d] as int], backward).len() > 0,
        forall|q: int|
            pos <= q < c0.len() ==> set_lt(
                key_of(g[dirty[d] as int], backward),
                key_of(g[(#[trigger] c0[q]) as int], backward),
            ),
    ensures
        candidates_ok(g, dirty, d + 1, c0.insert(pos, dirty[d]), backward),
{
    let c1 = c0.insert(pos, dirty[d]);
    let key = key_of(g[dirty[d] as int], backward);
    assert forall|q: int| pos <= q < c0.len() implies key_of(g[(#[trigger] c0[q]) as int], backward)
        != key by {
        lemma_set_lt_asymmetric(key, key_of(g[c0[q] as int], backward));
    }
    assert forall|k: int| 0 <= k < c0.len() implies c0[k] < dirty[d] by {
        assert(among(dirty, d, c0[k]));
        let x = choose|x: int| 0 <= x < d && #[trigger] dirty[x] == c0[k];
        assert(dirty[x] < dirty[d]);
    }
    assert forall|k: int| 0 <= k < c1.len() implies among(dirty, d + 1, #[trigger] c1[k])
        && c1[k] < g.len() && key_of(g[c1[k] as int], backward).len() > 0 by {
        if k < pos {
            assert(c1[k] == c0[k]);
            assert(among(dirty, d, c0[k]));
            let x = choose|x: int| 0 <= x < d && #[trigger] dirty[x] == c0[k];
            assert(0 <= x < d + 1 && dirty[x] == c1[k]);
        } else if k == pos {
            assert(0 <= d < d + 1 && dirty[d] == c1[k]);
        } else {
            assert(c1[k] == c0[k - 1]);
            assert(among(dirty, d, c0[k - 1]));
            let x = choose|x: int| 0 <= x < d && #[trigger] dirty[x] == c0[k - 1];
            assert(0 <= x < d + 1 && dirty[x] == c1[k]);
        }
    }
    assert forall|q: int|
        1 <= q < c1.len() && key_of(g[(#[trigger] c1[q]) as int], backward) == key_of(
            g[c1[q - 1] as int],
            backward,
        ) implies c1[q - 1] < c1[q] by {
        if q < pos {
            assert(c1[q] == c0[q] && c1[q - 1] == c0[q - 1]);
        } else if q == pos {
            assert(c1[q - 1] == c0[q - 1]);
        } else if q == pos + 1 {
            assert(c1[q] == c0[pos]);
        } else {
            assert(c1[q] == c0[q - 1] && c1[q - 1] == c0[q - 2]);
        }
    }
    assert forall|a: int, b: int| 0 <= a < b < c1.len() implies c1[a] != c1[b] by {
        let a0 = if a < pos { a } else { a - 1 };
        let b0 = if b < pos { b } else { b - 1 };
        if a != pos {
            assert(c1[a] == c0[a0]);
        }
        if b != pos {
            assert(c1[b] == c0[b0]);
        }
    }
}

/// The candidates stay in the order of their edge sets where the next node
/// of `dirty` is put behind the last candidate whose edge set is not
/// greater than its own.
proof fn lemma_candidate_sorted(
    g: Seq<NodeView>,
    dirty: Seq<usize>,
    d: int,
    c0: Seq<usize>,
    pos: int,
    backward: bool,
)
    requires
        0 <= d < dirty.len(),
        candidates_full(g, dirty, d, c0, backward),
        0 <= pos <= c0.len(),
        forall|q: int|
            pos <= q < c0.len() ==> set_lt(
                key_of(g[dirty[d] as int], backward),
                key_of(g[(#[trigger] c0[q]) as int], backward),
            ),
        pos > 0 ==> set_le(
            key_of(g[c0[pos - 1] as int], backward),
            key_of(g[dirty[d] as int], backward),
        ),
    ensures
        candidates_full(g, dirty, d + 1, c0.insert(pos, dirty[d]), backward),
{
    let c1 = c0.insert(pos, dirty[d]);
    let key = key_of(g[dirty[d] as int], backward);
    assert forall|p: int, q: int| 0 <= p < q < c1.len() implies set_le(
        key_of(g[(#[trigger] c1[p]) as int], backward),
        key_of(g[(#[trigger] c1[q]) as int], backward),
    ) by {
        let p0 = if p < pos { p } else { p - 1 };
        let q0 = if q < pos { q } else { q - 1 };
        if p != pos {
            assert(c1[p] == c0[p0]);
        }
        if q != pos {
            assert(c1[q] == c0[q0]);
        }
        if q == pos {
            if p0 < pos - 1 {
                assert(set_le(
                    key_of(g[c0[p0] as int], backward),
                    key_of(g[c0[pos - 1] as int], backward),
                ));
            }
            lemma_set_le_transitive(
                key_of(g[c0[p0] as int], backward),
                key_of(g[c0[pos - 1] as int], backward),
                key,
            );
        } else if p == pos {
            assert(set_lt(key, key_of(g[c0[q0] as int], backward)));
        } else {
            assert(set_le(
                key_of(g[c0[p0] as int], backward),
                key_of(g[c0[q0] as int], backward),
            ));
        }
    }
    assert forall|x: int|
        0 <= x < d + 1 && key_of(g[(#[trigger] dirty[x]) as int], backward).len()
            > 0 implies c1.contains(dirty[x]) by {
        if x < d {
            assert(c0.contains(dirty[x]));
            let i = choose|i: int| 0 <= i < c0.len() && c0[i] == dirty[x];
            if i < pos {
                assert(c1[i] == dirty[x]);
            } else {
                assert(c1[i + 1] == dirty[x]);
            }
        } else {
            assert(c1[pos] == dirty[x]);
        }
    }
}

/// The candidates stay in order where the next node of `dirty` is passed
/// over.
proof fn lemma_candidate_skipped(
    g: Seq<NodeView>,
    dirty: Seq<usize>,
    d: int,
    c0: Seq<usize>,
    backward: bool,
)
    requires
        candidates_ok(g, dirty, d, c0, backward),
        candidates_full(g, dirty, d, c0, backward),
        0 <= d < dirty.len(),
        key_of(g[dirty[d] as int], backward).len() == 0,
    ensures
        candidates_ok(g, dirty, d + 1, c0, backward),
        candidates_full(g, dirty, d + 1, c0, backward),
{
    assert forall|k: int| 0 <= k < c0.len() implies among(dirty, d + 1, #[trigger] c0[k]) by {
        assert(among(dirty, d, c0[k]));
        let x = choose|x: int| 0 <= x < d && #[trigger] dirty[x] == c0[k];
        assert(0 <= x < d + 1 && dirty[x] == c0[k]);
    }
}

/// The place of node `i` among the candidates: behind the last candidate
/// whose edge set is not greater than its own.
fn candidate_place(lattice: &Vec<LatticeNode>, cands: &Vec<usize>, i: usize, backward: bool) -> (pos:
    usize)
    requires
        ids_in_range(cands@, lattice.len() as int),
        i < lattice.len(),
    ensures
        pos <= cands.len(),
        forall|q: int|
            pos <= q < cands.len() ==> set_lt(
                key_of(nodes_view(lattice@)[i as int], backward),
                key_of(nodes_view(lattice@)[(#[trigger] cands[q]) as int], backward),
            ),
        pos > 0 ==> set_le(
            key_of(nodes_view(lattice@)[cands[pos - 1] as int], backward),
            key_of(nodes_view(lattice@)[i as int], backward),
        ),
        pos == insert_at(
            nodes_view(lattice@),
            cands@,
            key_of(nodes_view(lattice@)[i as int], backward),
            backward,
            cands.len() as int,
        ),
{
    let ghost g = nodes_view(lattice@);
    assert(g[i as int] == lattice@[i as int]@);
    let key = if backward {
        &lattice[i].backwards
    } else {
        &lattice[i].forwards
    };
    let mut pos: usize = cands.len();
    while pos > 0
        invariant
            g == nodes_view(lattice@),
            pos <= cands.len(),
            ids_in_range(cands@, lattice.len() as int),
            i < lattice.len(),
            edges_view(key@) == key_of(g[i as int], backward),
            forall|q: int|
                pos <= q < cands.len() ==> set_lt(
                    key_of(g[i as int], backward),
                    key_of(g[(#[trigger] cands[q]) as int], backward),
                ),
            insert_at(g, cands@, key_of(g[i as int], backward), backward, pos as int)
                == insert_at(g, cands@, key_of(g[i as int], backward), backward, cands.len() as int),
        ensures
            pos > 0 ==> set_le(
                key_of(g[cands[pos - 1] as int], backward),
                key_of(g[i as int], backward),
            ),
            pos == insert_at(g, cands@, key_of(g[i as int], backward), backward, cands.len() as int),
        decreases pos,
    {
        assert(g[cands[pos - 1] as int] == lattice@[cands[pos - 1] as int]@);
        let other = if backward {
            &lattice[cands[pos - 1]].backwards
        } else {
            &lattice[cands[pos - 1]].forwards
        };
        match compare_edge_sets(other, key) {
            Order::Greater => {
                pos -= 1;
            },
            _ => {
                break ;
            },
        }
    }
    pos
}

/// The nodes of `dirty` that have incoming edges (outgoing ones, where
/// `backward` is not set), ordered by that edge set and, among nodes with the
/// same set, as they come in `dirty`.
#[verifier::rlimit(60)]
fn sorted_candidates(lattice: &Vec<LatticeNode>, dirty: &Vec<usize>, backward: bool) -> (cands: Vec<
    usize,
>)
    requires
        ids_in_range(dirty@, lattice.len() as int),
        increasing(dirty@),
    ensures
        ids_in_range(cands@, lattice.len() as int),
        cands.len() <= dirty.len(),
        distinct(cands@),
        forall|k: int|
            0 <= k < cands.len() ==> key_of(
                nodes_view(lattice@)[(#[trigger] cands[k]) as int],
                backward,
            ).len() > 0,
        ties_up(nodes_view(lattice@), cands@, backward),
        keys_sorted(nodes_view(lattice@), cands@, backward),
        forall|x: int|
            0 <= x < dirty.len() && key_of(
                nodes_view(lattice@)[(#[trigger] dirty[x]) as int],
                backward,
            ).len() > 0 ==> cands@.contains(dirty[x]),
        cands@ == candidates(nodes_view(lattice@), dirty@, backward, dirty.len() as int),
{
    let ghost g = nodes_view(lattice@);
    let mut cands: Vec<usize> = Vec::new();
    let mut d: usize = 0;
    assert(cands@ =~= candidates(g, dirty@, backward, 0));
    while d < dirty.len()
        invariant
            g == nodes_view(lattice@),
            d <= dirty.len(),
            ids_in_range(dirty@, lattice.len() as int),
            increasing(dirty@),
            candidates_ok(g, dirty@, d as int, cands@, backward),
            candidates_full(g, dirty@, d as int, cands@, backward),
            cands@ == candidates(g, dirty@, backward, d as int),
        decreases dirty.len() - d,
    {
        let i = dirty[d];
        assert(g[i as int] == lattice@[i as int]@);
        let has_edges = if backward {
            lattice[i].backwards.len() > 0
        } else {
            lattice[i].forwards.len() > 0
        };
        if has_edges {
            let pos = candidate_place(lattice, &cands, i, backward);
            let ghost c0 = cands@;
            cands.insert(pos, i);
            proof {
                lemma_candidate_inserted(g, dirty@, d as int, c0, pos as int, backward);
                lemma_candidate_sorted(g, dirty@, d as int, c0, pos as int, backward);
            }
        } else {
            proof {
                lemma_candidate_skipped(g, dirty@, d as int, cands@, backward);
            }
        }
        d += 1;
    }
    cands
}

/// For each candidate but the first, whether it has the same edge set as the
/// candidate before it.
fn group_marks(lattice: &Vec<LatticeNode>, cands: &Vec<usize>, backward: bool) -> (marks: Vec<bool>)
    requires
        ids_in_range(cands@, lattice.len() as int),
    ensures
        marks.len() == cands.len(),
        forall|k: int|
            1 <= k < cands.len() ==> (#[trigger] marks[k] <==> key_of(
                nodes_view(lattice@)[cands[k] as int],
                backward,
            ) == key_of(nodes_view(lattice@)[cands[k - 1] as int], backward)),
        cands.len() > 0 ==> !marks[0],
        ties_up(nodes_view(lattice@), cands@, backward) ==> runs_up(cands@, marks@),
        marks@ == marks_of(nodes_view(lattice@), cands@, backward),
{
    let ghost g = nodes_view(lattice@);
    let mut marks: Vec<bool> = Vec::new();
    let mut k: usize = 0;
    while k < cands.len()
        invariant
            g == nodes_view(lattice@),
            k <= cands.len(),
            marks.len() == k,
            ids_in_range(cands@, lattice.len() as int),
            forall|j: int|
                1 <= j < k ==> (#[trigger] marks[j] <==> key_of(g[cands[j] as int], backward)
                    == key_of(g[cands[j - 1] as int], backward)),
            k > 0 ==> !marks[0],
        decreases cands.len() - k,
    {
        if k == 0 {
            marks.push(false);
        } else {
            let x = cands[k];
            let y = cands[k - 1];
            assert(g[x as int] == lattice@[x as int]@);
            assert(g[y as int] == lattice@[y as int]@);
            let same = if backward {
                match compare_edge_sets(&lattice[x].backwards, &lattice[y].backwards) {
                    Order::Equal => true,
                    _ => false,
                }
            } else {
                match compare_edge_sets(&lattice[x].forwards, &lattice[y].forwards) {
                    Order::Equal => true,
                    _ => false,
                }
            };
            marks.push(same);
        }
        k += 1;
    }
    marks
}

/// Takes the edge to node `b` from the node at the other end of each of
/// `edges`, which are edges that `b` held: its incoming edges where
/// `backward` is set, its outgoing edges where not. A main edge to `b` at
/// such a node leads to node `a` from now on.
fn unlink<'a>(
    lattice: &mut Vec<LatticeNode<'a>>,
    a: usize,
    b: usize,
    edges: &Vec<(&'a str, usize)>,
    backward: bool,
)
    requires
        tidy(nodes_view(old(lattice)@)),
        a < old(lattice).len(),
        b < old(lattice).len(),
        a != b,
        forall|j: int| 0 <= j < edges.len() ==> (#[trigger] edges[j]).1 < old(lattice).len(),
    ensures
        tidy(nodes_view(final(lattice)@)),
        final(lattice).len() == old(lattice).len(),
        unlinked(
            oriented(nodes_view(old(lattice)@), backward),
            oriented(nodes_view(final(lattice)@), backward),
            a as int,
            b as int,
            edges_view(edges@),
        ),
        nodes_view(final(lattice)@) == unlink_graph(
            nodes_view(old(lattice)@),
            a as int,
            b as int,
            edges_view(edges@),
            backward,
            edges.len() as int,
        ),
{
    let ghost g_in = nodes_view(lattice@);
    let ghost len = lattice.len();
    let ghost og = oriented(nodes_view(lattice@), backward);
    let ghost es = edges_view(edges@);
    proof {
        assert forall|x: int| 0 <= x < og.len() implies #[trigger] node_unlinked(
            og[x],
            og[x],
            x,
            a as int,
            b as int,
            es.take(0),
        ) by {}
    }
    let mut k: usize = 0;
    while k < edges.len()
        invariant
            lattice.len() == len,
            og.len() == len,
            a < len,
            b < len,
            a != b,
            k <= edges.len(),
            es == edges_view(edges@),
            tidy(nodes_view(lattice@)),
            forall|j: int| 0 <= j < edges.len() ==> (#[trigger] edges[j]).1 < len,
            unlinked(
                og,
                oriented(nodes_view(lattice@), backward),
                a as int,
                b as int,
                es.take(k as int),
            ),
            nodes_view(lattice@) == unlink_graph(g_in, a as int, b as int, es, backward, k as int),
        decreases edges.len() - k,
    {
        let (edge_str, other) = edges[k];
        let ghost c = nodes_view(lattice@);
        assert(c[other as int] == lattice@[other as int]@);
        if backward {
            edges_remove(&mut lattice[other].forwards, (edge_str, b));
            if option_edge_eq(lattice[other].forward_main, Some((edge_str, b))) {
                lattice[other].forward_main = Some((edge_str, a));
            }
        } else {
            edges_remove(&mut lattice[other].backwards, (edge_str, b));
            if option_edge_eq(lattice[other].backward_main, Some((edge_str, b))) {
                lattice[other].backward_main = Some((edge_str, a));
            }
        }
        proof {
            let d = nodes_view(lattice@);
            assert(d[other as int] == lattice@[other as int]@);
            assert(es[k as int] == edge_view(edges[k as int]));
            assert(d =~= c.update(
                other as int,
                unlink_node(c[other as int], edge_str@, a as int, b as int, backward),
            )) by {
                assert forall|x: int| 0 <= x < c.len() && x != other implies d[x] == c[x] by {
                    assert(d[x] == lattice@[x]@);
                }
            }
            lemma_tidy_after_change(c, d, other as int);
            assert(es[k as int] == edge_view(edges[k as int]));
            let oc = oriented(c, backward);
            let od = oriented(d, backward);
            assert forall|x: int| 0 <= x < og.len() && x != es[k as int].1 implies od[x]
                == oc[x] by {
                assert(d[x] == c[x]);
            }
            assert(unlink_step(oc[other as int], od[other as int], edge_str@, a as int, b as int));
            lemma_unlink_step(og, oc, od, a as int, b as int, es, k as int);
        }
        k += 1;
    }
    proof {
        assert(es.take(k as int) =~= es);
    }
}

/// Hands each of `edges`, which node `b` held, over to node `a`: the node at
/// its other end holds it as an edge of `a`, and `a` holds it too. The edges
/// are outgoing edges of `b` where `backward` is set, incoming ones where
/// not. A main edge to `b` at such a node leads to `a` from now on.
fn relink<'a>(
    lattice: &mut Vec<LatticeNode<'a>>,
    a: usize,
    b: usize,
    edges: &Vec<(&'a str, usize)>,
    backward: bool,
)
    requires
        tidy(nodes_view(old(lattice)@)),
        a < old(lattice).len(),
        b < old(lattice).len(),
        a != b,
        forall|j: int| 0 <= j < edges.len() ==> (#[trigger] edges[j]).1 < old(lattice).len(),
    ensures
        tidy(nodes_view(final(lattice)@)),
        final(lattice).len() == old(lattice).len(),
        relinked(
            oriented(nodes_view(old(lattice)@), backward),
            oriented(nodes_view(final(lattice)@), backward),
            a as int,
            b as int,
            edges_view(edges@),
        ),
        nodes_view(final(lattice)@) == relink_graph(
            nodes_view(old(lattice)@),
            a as int,
            b as int,
            edges_view(edges@),
            backward,
            edges.len() as int,
        ),
{
    let ghost g_in = nodes_view(lattice@);
    let ghost len = lattice.len();
    let ghost og = oriented(nodes_view(lattice@), backward);
    let ghost es = edges_view(edges@);
    proof {
        assert forall|x: int| 0 <= x < og.len() implies #[trigger] node_relinked(
            og[x],
            og[x],
            x,
            a as int,
            b as int,
            es.take(0),
        ) by {}
    }
    let mut k: usize = 0;
    while k < edges.len()
        invariant
            lattice.len() == len,
            og.len() == len,
            a < len,
            b < len,
            a != b,
            k <= edges.len(),
            es == edges_view(edges@),
            tidy(nodes_view(lattice@)),
            forall|j: int| 0 <= j < edges.len() ==> (#[trigger] edges[j]).1 < len,
            relinked(
                og,
                oriented(nodes_view(lattice@), backward),
                a as int,
                b as int,
                es.take(k as int),
            ),
            nodes_view(lattice@) == relink_graph(g_in, a as int, b as int, es, backward, k as int),
        decreases edges.len() - k,
    {
        let (edge_str, other) = edges[k];
        let ghost c = nodes_view(lattice@);
        assert(c[other as int] == lattice@[other as int]@);
        if backward {
            edges_remove(&mut lattice[other].backwards, (edge_str, b));
            edges_insert(&mut lattice[other].backwards, (edge_str, a));
            if option_edge_eq(lattice[other].backward_main, Some((edge_str, b))) {
                lattice[other].backward_main = Some((edge_str, a));
            }
        } else {
            edges_remove(&mut lattice[other].forwards, (edge_str, b));
            edges_insert(&mut lattice[other].forwards, (edge_str, a));
            if option_edge_eq(lattice[other].forward_main, Some((edge_str, b))) {
                lattice[other].forward_main = Some((edge_str, a));
            }
        }
        let ghost d = nodes_view(lattice@);
        proof {
            assert(d[other as int] == lattice@[other as int]@);
            lemma_tidy_after_change(c, d, other as int);
            assert(d[a as int] == lattice@[a as int]@);
            assert(es[k as int] == edge_view(edges[k as int]));
            assert(d =~= c.update(
                other as int,
                relink_node(c[other as int], edge_str@, a as int, b as int, backward),
            )) by {
                assert forall|x: int| 0 <= x < c.len() && x != other implies d[x] == c[x] by {
                    assert(d[x] == lattice@[x]@);
                }
            }
        }
        if backward {
            edges_insert(&mut lattice[a].forwards, (edge_str, other));
        } else {
            edges_insert(&mut lattice[a].backwards, (edge_str, other));
        }
        proof {
            let f = nodes_view(lattice@);
            assert(f[a as int] == lattice@[a as int]@);
            assert(f =~= d.update(a as int, gain_node(d[a as int], es[k as int], backward))) by {
                assert forall|x: int| 0 <= x < d.len() && x != a implies f[x] == d[x] by {
                    assert(f[x] == lattice@[x]@);
                }
            }
            lemma_tidy_after_change(d, f, a as int);
            assert(es[k as int] == edge_view(edges[k as int]));
            let oc = oriented(c, backward);
            let od = oriented(d, backward);
            let of = oriented(f, backward);
            assert forall|x: int| 0 <= x < og.len() && x != es[k as int].1 implies od[x]
                == oc[x] by {
                assert(d[x] == c[x]);
            }
            assert forall|x: int| 0 <= x < og.len() && x != a implies of[x] == od[x] by {
                assert(f[x] == d[x]);
            }
            assert(relink_step(oc[other as int], od[other as int], edge_str@, a as int, b as int));
            assert(gain_step(od[a as int], of[a as int], es[k as int]));
            lemma_relink_step(og, oc, od, of, a as int, b as int, es, k as int);
        }
        k += 1;
    }
    proof {
        assert(es.take(k as int) =~= es);
    }
}

/// The edges of the list end inside a graph of `len` nodes.
proof fn lemma_taken_in_range(s: Seq<EdgeView>, edges: Seq<(&str, usize)>, len: int)
    requires
        edges_view(edges) == s,
        forall|k: int| 0 <= k < s.len() ==> 0 <= (#[trigger] s[k]).1 < len,
    ensures
        forall|j: int| 0 <= j < edges.len() ==> (#[trigger] edges[j]).1 < len,
{
    assert forall|j: int| 0 <= j < edges.len() implies (#[trigger] edges[j]).1 < len by {
        assert(s[j] == edge_view(edges[j]));
    }
}

/// Merges node `b` into node `a`, which has the same incoming edges: every
/// edge into `b` is dropped, and every edge out of `b` becomes an edge out of
/// `a`.
fn merge_backward<'a>(lattice: &mut Vec<LatticeNode<'a>>, a: usize, b: usize)
    requires
        tidy(nodes_view(old(lattice)@)),
        a < old(lattice).len(),
        b < old(lattice).len(),
        a != b,
    ensures
        tidy(nodes_view(final(lattice)@)),
        final(lattice).len() == old(lattice).len(),
        mergeable(nodes_view(old(lattice)@), a as int, b as int) ==> merged_backward(
            nodes_view(old(lattice)@),
            nodes_view(final(lattice)@),
            a as int,
            b as int,
        ),
        nodes_view(final(lattice)@) == merge_graph(
            nodes_view(old(lattice)@),
            a as int,
            b as int,
            true,
        ),
{
    let ghost g = nodes_view(lattice@);
    let backward_tmp = take_edges(&mut lattice[b].backwards);
    let ghost g1 = nodes_view(lattice@);
    proof {
        assert(g1[b as int] == lattice@[b as int]@);
        assert(g[b as int] == old(lattice)@[b as int]@);
        lemma_tidy_after_take(g, g1, b as int);
        lemma_taken_in_range(g[b as int].backwards, backward_tmp@, g.len() as int);
        assert(g1[b as int].backwards =~= Seq::empty());
        assert(g1 =~= empty_key(g, b as int, true)) by {
            assert forall|x: int| 0 <= x < g.len() && x != b implies g1[x] == g[x] by {
                assert(g1[x] == lattice@[x]@);
            }
        }
    }
    unlink(lattice, a, b, &backward_tmp, true);
    let ghost g2 = nodes_view(lattice@);
    assert(g2[b as int] == lattice@[b as int]@);
    let forward_tmp = take_edges(&mut lattice[b].forwards);
    let ghost g3 = nodes_view(lattice@);
    proof {
        assert(g3[b as int] == lattice@[b as int]@);
        lemma_tidy_after_take(g2, g3, b as int);
        lemma_taken_in_range(g2[b as int].forwards, forward_tmp@, g.len() as int);
        assert(g3[b as int].forwards =~= Seq::empty());
        assert(g3 =~= empty_key(g2, b as int, false)) by {
            assert forall|x: int| 0 <= x < g.len() && x != b implies g3[x] == g2[x] by {
                assert(g3[x] == lattice@[x]@);
            }
        }
    }
    relink(lattice, a, b, &forward_tmp, true);
    proof {
        let h = nodes_view(lattice@);
        if mergeable(g, a as int, b as int) {
            assert(emptied(g, g1, b as int, true));
            assert(emptied(g2, g3, b as int, false));
            lemma_merged(g, g1, g2, g3, h, a as int, b as int);
        }
    }
}

/// Merges node `b` into node `a`, which has the same outgoing edges: every
/// edge out of `b` is dropped, and every edge into `b` becomes an edge into
/// `a`.
fn merge_forward<'a>(lattice: &mut Vec<LatticeNode<'a>>, a: usize, b: usize)
    requires
        tidy(nodes_view(old(lattice)@)),
        a < old(lattice).len(),
        b < old(lattice).len(),
        a != b,
    ensures
        tidy(nodes_view(final(lattice)@)),
        final(lattice).len() == old(lattice).len(),
        mergeable(oriented(nodes_view(old(lattice)@), false), a as int, b as int) ==> merged_forward(
            nodes_view(old(lattice)@),
            nodes_view(final(lattice)@),
            a as int,
            b as int,
        ) && merged_backward(
            oriented(nodes_view(old(lattice)@), false),
            oriented(nodes_view(final(lattice)@), false),
            a as int,
            b as int,
        ),
        nodes_view(final(lattice)@) == merge_graph(
            nodes_view(old(lattice)@),
            a as int,
            b as int,
            false,
        ),
{
    let ghost g = nodes_view(lattice@);
    let forward_tmp = take_edges(&mut lattice[b].forwards);
    let ghost g1 = nodes_view(lattice@);
    proof {
        assert(g1[b as int] == lattice@[b as int]@);
        assert(g[b as int] == old(lattice)@[b as int]@);
        lemma_tidy_after_take(g, g1, b as int);
        lemma_taken_in_range(g[b as int].forwards, forward_tmp@, g.len() as int);
        assert(g1[b as int].forwards =~= Seq::empty());
        assert(g1 =~= empty_key(g, b as int, false)) by {
            assert forall|x: int| 0 <= x < g.len() && x != b implies g1[x] == g[x] by {
                assert(g1[x] == lattice@[x]@);
            }
        }
    }
    unlink(lattice, a, b, &forward_tmp, false);
    let ghost g2 = nodes_view(lattice@);
    assert(g2[b as int] == lattice@[b as int]@);
    let backward_tmp = take_edges(&mut lattice[b].backwards);
    let ghost g3 = nodes_view(lattice@);
    proof {
        assert(g3[b as int] == lattice@[b as int]@);
        lemma_tidy_after_take(g2, g3, b as int);
        lemma_taken_in_range(g2[b as int].backwards, backward_tmp@, g.len() as int);
        assert(g3[b as int].backwards =~= Seq::empty());
        assert(g3 =~= empty_key(g2, b as int, true)) by {
            assert forall|x: int| 0 <= x < g.len() && x != b implies g3[x] == g2[x] by {
                assert(g3[x] == lattice@[x]@);
            }
        }
    }
    relink(lattice, a, b, &backward_tmp, false);
    proof {
        let h = nodes_view(lattice@);
        if mergeable(oriented(g, false), a as int, b as int) {
            assert(emptied(oriented(g, false), oriented(g1, false), b as int, true));
            assert(emptied(oriented(g2, false), oriented(g3, false), b as int, false));
            lemma_oriented_sorted(h, false);
            lemma_merged(
                oriented(g, false),
                oriented(g1, false),
                oriented(g2, false),
                oriented(g3, false),
                oriented(h, false),
                a as int,
                b as int,
            );
            lemma_flip_merged(g, h, a as int, b as int);
        }
    }
}

/// A graph stays tidy where one node's edge sets are emptied.
proof fn lemma_tidy_after_take(g: Seq<NodeView>, h: Seq<NodeView>, i: int)
    requires
        tidy(g),
        h.len() == g.len(),
        0 <= i < g.len(),
        forall|j: int| 0 <= j < g.len() && j != i ==> h[j] == g[j],
        h[i].forwards.len() == 0 || h[i].forwards == g[i].forwards,
        h[i].backwards.len() == 0 || h[i].backwards == g[i].backwards,
        h[i].forward_main == g[i].forward_main,
        h[i].backward_main == g[i].backward_main,
    ensures
        tidy(h),
        forall|k: int| 0 <= k < g[i].forwards.len() ==> 0 <= (#[trigger] g[i].forwards[k]).1 < g.len(),
        forall|k: int|
            0 <= k < g[i].backwards.len() ==> 0 <= (#[trigger] g[i].backwards[k]).1 < g.len(),
{
    assert forall|j: int| #![trigger h[j]] 0 <= j < h.len() implies main_in_range(
        h[j].forward_main,
        h.len() as int,
    ) && main_in_range(h[j].backward_main, h.len() as int) by {
        assert(main_in_range(g[j].forward_main, g.len() as int) && main_in_range(
            g[j].backward_main,
            g.len() as int,
        ));
    }
    assert forall|j: int| #![trigger h[j]] 0 <= j < h.len() implies sorted(h[j].forwards)
        && sorted(h[j].backwards) by {
        assert(sorted(g[j].forwards) && sorted(g[j].backwards));
    }
    assert forall|j: int, k: int|
        #![trigger h[j].forwards[k]]
        #![trigger h[j].backwards[k]]
        0 <= j < h.len() implies (0 <= k < h[j].forwards.len() ==> 0 <= h[j].forwards[k].1
        < h.len()) && (0 <= k < h[j].backwards.len() ==> 0 <= h[j].backwards[k].1 < h.len()) by {
        if 0 <= k < h[j].forwards.len() {
            assert(0 <= g[j].forwards[k].1 < g.len());
        }
        if 0 <= k < h[j].backwards.len() {
            assert(0 <= g[j].backwards[k].1 < g.len());
        }
    }
}

/// A graph stays tidy where one node's edge sets change into edge sets whose
/// edges end inside the graph.
proof fn lemma_tidy_after_change(g: Seq<NodeView>, h: Seq<NodeView>, i: int)
    requires
        tidy(g),
        h.len() == g.len(),
        0 <= i < g.len(),
        forall|j: int| 0 <= j < g.len() && j != i ==> h[j] == g[j],
        sorted(h[i].forwards),
        sorted(h[i].backwards),
        forall|x: EdgeView|
            h[i].forwards.contains(x) ==> g[i].forwards.contains(x) || 0 <= x.1 < g.len(),
        forall|x: EdgeView|
            h[i].backwards.contains(x) ==> g[i].backwards.contains(x) || 0 <= x.1 < g.len(),
        h[i].forward_main == g[i].forward_main || main_in_range(
            h[i].forward_main,
            g.len() as int,
        ),
        h[i].backward_main == g[i].backward_main || main_in_range(
            h[i].backward_main,
            g.len() as int,
        ),
    ensures
        tidy(h),
{
    assert forall|j: int| #![trigger h[j]] 0 <= j < h.len() implies main_in_range(
        h[j].forward_main,
        h.len() as int,
    ) && main_in_range(h[j].backward_main, h.len() as int) by {
        assert(main_in_range(g[j].forward_main, g.len() as int) && main_in_range(
            g[j].backward_main,
            g.len() as int,
        ));
    }
    assert forall|j: int| #![trigger h[j]] 0 <= j < h.len() implies sorted(h[j].forwards)
        && sorted(h[j].backwards) by {
        assert(sorted(g[j].forwards) && sorted(g[j].backwards));
    }
    assert forall|j: int, k: int|
        #![trigger h[j].forwards[k]]
        #![trigger h[j].backwards[k]]
        0 <= j < h.len() implies (0 <= k < h[j].forwards.len() ==> 0 <= h[j].forwards[k].1
        < h.len()) && (0 <= k < h[j].backwards.len() ==> 0 <= h[j].backwards[k].1 < h.len()) by {
        if 0 <= k < h[j].forwards.len() {
            let x = h[j].forwards[k];
            if j == i {
                assert(h[i].forwards.contains(x));
                if g[i].forwards.contains(x) {
                    let k0 = choose|k0: int| 0 <= k0 < g[i].forwards.len() && g[i].forwards[k0] == x;
                    assert(0 <= g[i].forwards[k0].1 < g.len());
                }
            } else {
                assert(0 <= g[j].forwards[k].1 < g.len());
            }
        }
        if 0 <= k < h[j].backwards.len() {
            let x = h[j].backwards[k];
            if j == i {
                assert(h[i].backwards.contains(x));
                if g[i].backwards.contains(x) {
                    let k0 = choose|k0: int|
                        0 <= k0 < g[i].backwards.len() && g[i].backwards[k0] == x;
                    assert(0 <= g[i].backwards[k0].1 < g.len());
                }
            } else {
                assert(0 <= g[j].backwards[k].1 < g.len());
            }
        }
    }
}

/// The ids `0..n` in order.
fn all_ids(n: usize) -> (ids: Vec<usize>)
    ensures
        ids.len() == n,
        increasing(ids@),
        ids_in_range(ids@, n as int),
        forall|k: int| 0 <= k < n ==> ids[k] == k,
{
    let mut ids: Vec<usize> = Vec::new();
    let mut i: usize = 0;
    while i < n
        invariant
            i <= n,
            ids.len() == i,
            forall|k: int| 0 <= k < i ==> ids[k] == k,
        decreases n - i,
    {
        ids.push(i);
        i += 1;
    }
    ids
}

/// Adds node `a` and the nodes at the other end of the given edges to the
/// set of touched nodes.
fn mark_touched(touched: &mut Vec<usize>, a: usize, edges: &Vec<(&str, usize)>, Ghost(len): Ghost<int>)
    requires
        increasing(old(touched)@),
        ids_in_range(old(touched)@, len),
        a < len,
        forall|k: int| 0 <= k < edges.len() ==> (#[trigger] edges[k]).1 < len,
    ensures
        increasing(final(touched)@),
        ids_in_range(final(touched)@, len),
        forall|y: usize| #[trigger]
            final(touched)@.contains(y) <==> old(touched)@.contains(y) || y == a || ends_at(
                edges@,
                edges.len() as int,
                y,
            ),
        final(touched)@ == touch_put(old(touched)@, a, edges_view(edges@)),
{
    let ghost t0 = touched@;
    ids_insert(touched, a);
    proof {
        lemma_ids_in_range(touched@, len);
    }
    let mut k: usize = 0;
    while k < edges.len()
        invariant
            k <= edges.len(),
            increasing(touched@),
            ids_in_range(touched@, len),
            forall|k: int| 0 <= k < edges.len() ==> (#[trigger] edges[k]).1 < len,
            forall|y: usize| #[trigger]
                touched@.contains(y) <==> t0.contains(y) || y == a || ends_at(
                    edges@,
                    k as int,
                    y,
                ),
            touched@ == touch_ends(ids_put(t0, a), edges_view(edges@), k as int),
        decreases edges.len() - k,
    {
        let ghost t1 = touched@;
        assert(edges_view(edges@)[k as int].1 as usize == edges[k as int].1);
        ids_insert(touched, edges[k].1);
        proof {
            lemma_ids_in_range(touched@, len);
            assert forall|y: usize| #[trigger]
                touched@.contains(y) <==> t0.contains(y) || y == a || ends_at(
                    edges@,
                    k as int + 1,
                    y,
                ) by {
                assert(t1.contains(y) <==> t0.contains(y) || y == a || ends_at(
                    edges@,
                    k as int,
                    y,
                ));
                if ends_at(edges@, k as int, y) {
                    let j = choose|j: int| 0 <= j < k && (#[trigger] edges@[j]).1 == y;
                    assert(0 <= j < k + 1 && edges@[j].1 == y);
                }
                if edges@[k as int].1 == y {
                    assert(0 <= k < k + 1 && edges@[k as int].1 == y);
                }
            }
        }
        k += 1;
    }
}

/// One of the first `upto` edges has node `y` at its other end.
pub open spec fn ends_at(edges: Seq<(&str, usize)>, upto: int, y: usize) -> bool {
    exists|k: int| 0 <= k < upto && (#[trigger] edges[k]).1 == y
}

/// A list whose every member is below `len` is in range.
proof fn lemma_ids_in_range(ids: Seq<usize>, len: int)
    requires
        forall|y: usize| ids.contains(y) ==> y < len,
    ensures
        ids_in_range(ids, len),
{
    assert forall|k: int| 0 <= k < ids.len() implies ids[k] < len by {
        assert(ids.contains(ids[k]));
    }
}

/// The edges of a tidy graph's node end inside the graph.
proof fn lemma_tidy_edges(g: Seq<NodeView>, i: int)
    requires
        tidy(g),
        0 <= i < g.len(),
    ensures
        forall|k: int| 0 <= k < g[i].forwards.len() ==> 0 <= (#[trigger] g[i].forwards[k]).1 < g.len(),
        forall|k: int|
            0 <= k < g[i].backwards.len() ==> 0 <= (#[trigger] g[i].backwards[k]).1 < g.len(),
{
}

/// Nodes `i` and `j` have the same edge set on the side asked for, and it is
/// not empty.
pub open spec fn same_key(g: Seq<NodeView>, i: int, j: int, backward: bool) -> bool {
    key_of(g[i], backward).len() > 0 && key_of(g[i], backward) == key_of(g[j], backward)
}

/// No two nodes of the graph can be merged: no two have the same incoming
/// edges, and no two have the same outgoing edges.
pub open spec fn settled(g: Seq<NodeView>) -> bool {
    forall|i: int, j: int, backward: bool|
        0 <= i < g.len() && 0 <= j < g.len() && i != j ==> !#[trigger] same_key(g, i, j, backward)
}

/// The graph `h` is the graph `g` with nodes merged until none can be
/// merged: it has as many nodes, of which the merged ones have no edges
/// left, no two of its nodes have the same incoming or the same outgoing
/// edges, every edge of `g` is carried to an edge of `h`, it has no more
/// edges, and it spells what `g` spells to the node `eos`.
pub open spec fn merged_down(g: Seq<NodeView>, h: Seq<NodeView>, eos: int) -> bool {
    &&& shrunk_to(g, h)
    &&& h.len() == g.len()
    &&& settled(h)
    &&& edge_count(h) <= edge_count(g)
    &&& exists|ren: Seq<int>| #[trigger] carried(g, h, ren)
    &&& no_more(g, eos, h, eos)
    &&& no_more(h, eos, g, eos)
}

/// Merges nodes that cannot be told apart, round by round, until no two
/// nodes have the same incoming or the same outgoing edges. A round groups
/// the touched nodes by their incoming edges and merges every group into its
/// first node, then does the same by outgoing edges; the nodes that a merge
/// has touched make up the next round, and once a round has touched none, a
/// round over all nodes follows. A merged node keeps its place in the vector
/// and has no edges left. The lattice stays a lattice of its sentence and
/// spells what it spelled.
pub fn shrink_lattice<'a>(lattice: &mut Vec<LatticeNode<'a>>)
    requires
        tidy(nodes_view(old(lattice)@)),
        exists|eos: int, topo: Seq<int>, words: Seq<Seq<char>>|
            sound(nodes_view(old(lattice)@), eos, topo, words),
    ensures
        tidy(nodes_view(final(lattice)@)),
        final(lattice).len() == old(lattice).len(),
        shrunk_to(nodes_view(old(lattice)@), nodes_view(final(lattice)@)),
        settled(nodes_view(final(lattice)@)),
        edge_count(nodes_view(final(lattice)@)) <= edge_count(nodes_view(old(lattice)@)),
        settled(nodes_view(old(lattice)@)) ==> nodes_view(final(lattice)@) == nodes_view(
            old(lattice)@,
        ),
        forall|eos: int, words: Seq<Seq<char>>| #[trigger]
            in_order(nodes_view(old(lattice)@), eos, words) ==> in_order(
                nodes_view(final(lattice)@),
                eos,
                words,
            ),
        !settled(nodes_view(old(lattice)@)) ==> nodes_view(final(lattice)@) != nodes_view(
            old(lattice)@,
        ),
        exists|ren: Seq<int>| #[trigger]
            carried(nodes_view(old(lattice)@), nodes_view(final(lattice)@), ren),
        forall|eos: int, words: Seq<Seq<char>>| #[trigger]
            in_order(nodes_view(old(lattice)@), eos, words) ==> no_more(
                nodes_view(old(lattice)@),
                eos,
                nodes_view(final(lattice)@),
                eos,
            ) && no_more(nodes_view(final(lattice)@), eos, nodes_view(old(lattice)@), eos),
{
    let ghost g0 = nodes_view(lattice@);
    let ghost mut ren = same_nodes(g0.len());
    let ghost (eos, topo, words) = choose|eos: int, topo: Seq<int>, words: Seq<Seq<char>>|
        sound(g0, eos, topo, words);
    let ghost mut order = topo;
    let n = lattice.len();
    let mut updated_node_bw = all_ids(n);
    let mut updated_node_fw = all_ids(n);
    let mut full = true;
    let mut done = false;
    let ghost mut steps: nat = 0;
    proof {
        assert(updated_node_bw@ =~= all_nodes(g0.len()));
        assert(updated_node_fw@ =~= all_nodes(g0.len()));
    }
    while !done
        invariant
            (Rounds {
                g: nodes_view(lattice@),
                by_incoming: updated_node_bw@,
                by_outgoing: updated_node_fw@,
                full,
                done,
            }) == rounds_run(rounds_start(g0), steps),
            full ==> updated_node_bw.len() == n && updated_node_fw.len() == n,
            full ==> forall|k: int| 0 <= k < n ==> updated_node_bw[k] == k,
            full ==> forall|k: int| 0 <= k < n ==> updated_node_fw[k] == k,
            done ==> settled(nodes_view(lattice@)),
            edge_count(nodes_view(lattice@)) <= edge_count(g0),
            !settled(g0) && done ==> alive(nodes_view(lattice@), eos) < alive(g0, eos),
            alive(nodes_view(lattice@), eos) <= alive(g0, eos),
            alive(nodes_view(lattice@), eos) == alive(g0, eos) ==> nodes_view(lattice@) == g0,
            lattice.len() == n,
            n == old(lattice).len(),
            g0 == nodes_view(old(lattice)@),
            settled(g0) ==> nodes_view(lattice@) == g0,
            sound(nodes_view(lattice@), eos, order, words),
            carried(g0, nodes_view(lattice@), ren),
            no_more(g0, eos, nodes_view(lattice@), eos),
            no_more(nodes_view(lattice@), eos, g0, eos),
            tidy(nodes_view(lattice@)),
            increasing(updated_node_bw@),
            increasing(updated_node_fw@),
            ids_in_range(updated_node_bw@, n as int),
            ids_in_range(updated_node_fw@, n as int),
        decreases
                alive(nodes_view(lattice@), eos),
                (if done {
                    0int
                } else if full {
                    1int
                } else {
                    2int
                }),
    {
        let ghost g1 = nodes_view(lattice@);
        let ghost before = Rounds {
            g: g1,
            by_incoming: updated_node_bw@,
            by_outgoing: updated_node_fw@,
            full,
            done,
        };
        let (touched_bw, Ghost(next)) = merge_groups(
            lattice,
            &updated_node_bw,
            true,
            Ghost(eos),
            Ghost(order),
            Ghost(words),
        );
        proof {
            order = next.0;
            lemma_carried_composed(g0, g1, nodes_view(lattice@), ren, next.1);
            ren = composed(ren, next.1);
            lemma_no_more_chain(g0, eos, g1, eos, nodes_view(lattice@), eos);
            lemma_no_more_chain(nodes_view(lattice@), eos, g1, eos, g0, eos);
        }
        let ghost g2 = nodes_view(lattice@);
        let (touched_fw, Ghost(next)) = merge_groups(
            lattice,
            &updated_node_fw,
            false,
            Ghost(eos),
            Ghost(order),
            Ghost(words),
        );
        proof {
            order = next.0;
            lemma_carried_composed(g0, g2, nodes_view(lattice@), ren, next.1);
            ren = composed(ren, next.1);
            lemma_no_more_chain(g0, eos, g2, eos, nodes_view(lattice@), eos);
            lemma_no_more_chain(nodes_view(lattice@), eos, g2, eos, g0, eos);
        }
        if touched_bw.len() == 0 && touched_fw.len() == 0 {
            if full {
                proof {
                    if !settled(g1) {
                        lemma_unsettled(g1, updated_node_bw@, updated_node_fw@);
                    }
                }
                done = true;
            } else {
                updated_node_bw = all_ids(n);
                updated_node_fw = all_ids(n);
                full = true;
                proof {
                    assert(updated_node_bw@ =~= all_nodes(g1.len()));
                    assert(updated_node_fw@ =~= all_nodes(g1.len()));
                }
            }
        } else {
            updated_node_bw = touched_bw;
            updated_node_fw = touched_fw;
            full = false;
        }
        proof {
            assert((Rounds {
                g: nodes_view(lattice@),
                by_incoming: updated_node_bw@,
                by_outgoing: updated_node_fw@,
                full,
                done,
            }) == round_step(before));
            steps = steps + 1;
        }
    }
    proof {
        let h = nodes_view(lattice@);
        assert forall|eos2: int, words2: Seq<Seq<char>>| #[trigger]
            in_order(g0, eos2, words2) implies in_order(h, eos2, words2) by {
            let topo2 = choose|topo2: Seq<int>| sound(g0, eos2, topo2, words2);
            lemma_one_sentence(g0, eos, topo, words, eos2, topo2, words2);
            assert(sound(h, eos, order, words));
        }
        assert forall|eos2: int, words2: Seq<Seq<char>>| #[trigger]
            in_order(g0, eos2, words2) implies no_more(g0, eos2, h, eos2) && no_more(
            h,
            eos2,
            g0,
            eos2,
        ) by {
            let topo2 = choose|topo2: Seq<int>| sound(g0, eos2, topo2, words2);
            lemma_one_sentence(g0, eos, topo, words, eos2, topo2, words2);
        }
    }
}

/// In a graph that is not settled, two of all nodes have the same incoming
/// edges or the same outgoing edges.
proof fn lemma_unsettled(g: Seq<NodeView>, all_bw: Seq<usize>, all_fw: Seq<usize>)
    requires
        !settled(g),
        all_bw.len() == g.len(),
        all_fw.len() == g.len(),
        forall|k: int| 0 <= k < g.len() ==> all_bw[k] == k,
        forall|k: int| 0 <= k < g.len() ==> all_fw[k] == k,
    ensures
        pair_in(g, all_bw, true) || pair_in(g, all_fw, false),
{
    let (i, j, backward) = choose|i: int, j: int, backward: bool|
        0 <= i < g.len() && 0 <= j < g.len() && i != j && #[trigger] same_key(g, i, j, backward);
    let x = if i < j { i } else { j };
    let y = if i < j { j } else { i };
    if backward {
        assert(same_key(g, all_bw[x] as int, all_bw[y] as int, true));
    } else {
        assert(same_key(g, all_fw[x] as int, all_fw[y] as int, false));
    }
}

/// Two nodes of the list have the same edge set on the side asked for, and
/// it is not empty.
pub open spec fn pair_in(g: Seq<NodeView>, dirty: Seq<usize>, backward: bool) -> bool {
    exists|x: int, y: int|
        0 <= x < y < dirty.len() && #[trigger] same_key(
            g,
            dirty[x] as int,
            dirty[y] as int,
            backward,
        )
}

/// Where two nodes of the list have the same edge set, a candidate is
/// marked.
proof fn lemma_pair_marked(
    g: Seq<NodeView>,
    dirty: Seq<usize>,
    cands: Seq<usize>,
    marks: Seq<bool>,
    backward: bool,
) -> (j: int)
    requires
        pair_in(g, dirty, backward),
        increasing(dirty),
        ids_in_range(dirty, g.len() as int),
        keys_sorted(g, cands, backward),
        marks.len() == cands.len(),
        forall|x: int|
            0 <= x < dirty.len() && key_of(g[(#[trigger] dirty[x]) as int], backward).len() > 0
                ==> cands.contains(dirty[x]),
        forall|k: int|
            1 <= k < cands.len() ==> (#[trigger] marks[k] <==> key_of(g[cands[k] as int], backward)
                == key_of(g[cands[k - 1] as int], backward)),
    ensures
        1 <= j < cands.len(),
        marks[j],
{
    let (x, y) = choose|x: int, y: int|
        0 <= x < y < dirty.len() && #[trigger] same_key(
            g,
            dirty[x] as int,
            dirty[y] as int,
            backward,
        );
    assert(cands.contains(dirty[x]));
    assert(cands.contains(dirty[y]));
    let p = choose|p: int| 0 <= p < cands.len() && cands[p] == dirty[x];
    let q = choose|q: int| 0 <= q < cands.len() && cands[q] == dirty[y];
    assert(dirty[x] < dirty[y]);
    if p < q {
        lemma_keys_between(g, cands, backward, p, q);
        p + 1
    } else {
        lemma_keys_between(g, cands, backward, q, p);
        q + 1
    }
}

/// One half of a round: groups the nodes of `dirty` by their incoming edges
/// (their outgoing edges, where `backward` is not set) and merges every group
/// into its first node. Returns the nodes that the merges have touched.
fn merge_groups<'a>(
    lattice: &mut Vec<LatticeNode<'a>>,
    dirty: &Vec<usize>,
    backward: bool,
    Ghost(eos): Ghost<int>,
    Ghost(topo): Ghost<Seq<int>>,
    Ghost(words): Ghost<Seq<Seq<char>>>,
) -> (r: (Vec<usize>, Ghost<(Seq<int>, Seq<int>)>))
    requires
        tidy(nodes_view(old(lattice)@)),
        sound(nodes_view(old(lattice)@), eos, topo, words),
        increasing(dirty@),
        ids_in_range(dirty@, old(lattice).len() as int),
    ensures
        tidy(nodes_view(final(lattice)@)),
        sound(nodes_view(final(lattice)@), eos, r.1@.0, words),
        carried(nodes_view(old(lattice)@), nodes_view(final(lattice)@), r.1@.1),
        no_more(nodes_view(old(lattice)@), eos, nodes_view(final(lattice)@), eos),
        no_more(nodes_view(final(lattice)@), eos, nodes_view(old(lattice)@), eos),
        final(lattice).len() == old(lattice).len(),
        increasing(r.0@),
        ids_in_range(r.0@, old(lattice).len() as int),
        alive(nodes_view(final(lattice)@), eos) <= alive(nodes_view(old(lattice)@), eos),
        alive(nodes_view(final(lattice)@), eos) == alive(nodes_view(old(lattice)@), eos)
            ==> r.0.len() == 0 && nodes_view(final(lattice)@) == nodes_view(old(lattice)@),
        pair_in(nodes_view(old(lattice)@), dirty@, backward) ==> alive(
            nodes_view(final(lattice)@),
            eos,
        ) < alive(nodes_view(old(lattice)@), eos),
        settled(nodes_view(old(lattice)@)) ==> nodes_view(final(lattice)@) == nodes_view(
            old(lattice)@,
        ),
        r.0.len() == 0 ==> nodes_view(final(lattice)@) == nodes_view(old(lattice)@),
        edge_count(nodes_view(final(lattice)@)) <= edge_count(nodes_view(old(lattice)@)),
        nodes_view(final(lattice)@) == half_graph(nodes_view(old(lattice)@), dirty@, backward),
        r.0@ == half_touched(nodes_view(old(lattice)@), dirty@, backward),
{
    let ghost g0 = nodes_view(lattice@);
    let ghost mut order = topo;
    let ghost mut ren = same_nodes(g0.len());
    let n = lattice.len();
    let cands = sorted_candidates(lattice, dirty, backward);
    let marks = group_marks(lattice, &cands, backward);
    let mut touched: Vec<usize> = Vec::new();
    let mut k: usize = 0;
    let ghost paired = pair_in(g0, dirty@, backward);
    let ghost marked = if paired {
        lemma_pair_marked(g0, dirty@, cands@, marks@, backward)
    } else {
        0
    };
    proof {
        let og = oriented(g0, backward);
        assert forall|j: int| 0 <= j < cands.len() implies (#[trigger] og[cands[j] as int]).backwards
            == key_of(g0[cands[j] as int], backward) by {}
        assert(pending(og, cands@, marks@, 0)) by {
            assert forall|j: int| 0 < j < cands.len() && #[trigger] marks[j] implies og[cands[j] as int].backwards
                == og[cands[j - 1] as int].backwards by {
                assert(og[cands[j] as int].backwards == key_of(g0[cands[j] as int], backward));
                assert(og[cands[j - 1] as int].backwards == key_of(
                    g0[cands[j - 1] as int],
                    backward,
                ));
            }
        }
    }
    while k < cands.len()
        invariant
            lattice.len() == n,
            n == old(lattice).len(),
            g0 == nodes_view(old(lattice)@),
            settled(g0) ==> nodes_view(lattice@) == g0,
            tidy(nodes_view(lattice@)),
            marks.len() == cands.len(),
            ids_in_range(cands@, n as int),
            distinct(cands@),
            runs_up(cands@, marks@),
            forall|k: int|
                0 <= k < cands.len() ==> key_of(g0[(#[trigger] cands[k]) as int], backward).len() > 0,
            forall|k: int|
                1 <= k < cands.len() ==> (#[trigger] marks[k] <==> key_of(
                    g0[cands[k] as int],
                    backward,
                ) == key_of(g0[cands[k - 1] as int], backward)),
            increasing(touched@),
            ids_in_range(touched@, n as int),
            alive(nodes_view(lattice@), eos) <= alive(g0, eos),
            alive(nodes_view(lattice@), eos) == alive(g0, eos) ==> touched.len() == 0
                && nodes_view(lattice@) == g0,
            k < cands.len() ==> !marks[k as int],
            k <= cands.len(),
            cands@ == candidates(g0, dirty@, backward, dirty.len() as int),
            marks@ == marks_of(g0, cands@, backward),
            nodes_view(lattice@) == phase_graph(g0, cands@, marks@, backward, k as int),
            touched@ == phase_touched(g0, cands@, marks@, backward, k as int),
            touched.len() == 0 ==> nodes_view(lattice@) == g0,
            edge_count(nodes_view(lattice@)) <= edge_count(g0),
            paired ==> 1 <= marked < cands.len() && marks[marked],
            paired && marked < k ==> alive(nodes_view(lattice@), eos) < alive(g0, eos),
            sound(nodes_view(lattice@), eos, order, words),
            carried(g0, nodes_view(lattice@), ren),
            no_more(g0, eos, nodes_view(lattice@), eos),
            no_more(nodes_view(lattice@), eos, g0, eos),
            pending(oriented(nodes_view(lattice@), backward), cands@, marks@, k as int),
        decreases cands.len() - k,
    {
        let first = cands[k];
        let mut j: usize = k + 1;
        let mut merged = false;
        proof {
            assert(first_of(marks@, k as int) == k);
            assert(phase_graph(g0, cands@, marks@, backward, k as int + 1) == phase_graph(
                g0,
                cands@,
                marks@,
                backward,
                k as int,
            ));
        }
        proof {
            if j < cands.len() && marks[j as int] {
                assert(cands[j as int - 1] < cands[j as int]);
            }
        }
        while j < cands.len() && marks[j]
            invariant
                k < j <= cands.len(),
                first == cands[k as int],
                lattice.len() == n,
                n == old(lattice).len(),
                g0 == nodes_view(old(lattice)@),
                settled(g0) ==> nodes_view(lattice@) == g0,
                tidy(nodes_view(lattice@)),
                marks.len() == cands.len(),
                ids_in_range(cands@, n as int),
                distinct(cands@),
                runs_up(cands@, marks@),
                forall|k: int|
                    0 <= k < cands.len() ==> key_of(g0[(#[trigger] cands[k]) as int], backward).len()
                        > 0,
                forall|k: int|
                    1 <= k < cands.len() ==> (#[trigger] marks[k] <==> key_of(
                        g0[cands[k] as int],
                        backward,
                    ) == key_of(g0[cands[k - 1] as int], backward)),
                first < n,
                increasing(touched@),
                ids_in_range(touched@, n as int),
                alive(nodes_view(lattice@), eos) <= alive(g0, eos),
                merged ==> alive(nodes_view(lattice@), eos) < alive(g0, eos),
                alive(nodes_view(lattice@), eos) == alive(g0, eos) ==> touched.len() == 0
                    && nodes_view(lattice@) == g0,
                !marks[k as int],
                cands@ == candidates(g0, dirty@, backward, dirty.len() as int),
                marks@ == marks_of(g0, cands@, backward),
                nodes_view(lattice@) == phase_graph(g0, cands@, marks@, backward, j as int),
                touched@ == phase_touched(g0, cands@, marks@, backward, j as int - 1),
                forall|idx: int| k <= idx < j ==> #[trigger] first_of(marks@, idx) == k,
                merged <==> j > k + 1,
                touched.len() == 0 && !merged ==> nodes_view(lattice@) == g0,
                edge_count(nodes_view(lattice@)) <= edge_count(g0),
                paired ==> 1 <= marked < cands.len() && marks[marked],
                paired && marked < j ==> alive(nodes_view(lattice@), eos) < alive(g0, eos),
                sound(nodes_view(lattice@), eos, order, words),
                carried(g0, nodes_view(lattice@), ren),
                no_more(g0, eos, nodes_view(lattice@), eos),
                no_more(nodes_view(lattice@), eos, g0, eos),
                pending(oriented(nodes_view(lattice@), backward), cands@, marks@, j as int),
                oriented(nodes_view(lattice@), backward)[first as int].backwards.len() > 0,
                j < cands.len() && marks[j as int] ==> first < cands[j as int] && oriented(
                    nodes_view(lattice@),
                    backward,
                )[cands[j as int] as int].backwards == oriented(
                    nodes_view(lattice@),
                    backward,
                )[first as int].backwards,
            decreases cands.len() - j,
        {
            let other = cands[j];
            proof {
                assert(key_of(g0[cands[j as int - 1] as int], backward).len() > 0);
                assert(same_key(g0, cands[j as int - 1] as int, cands[j as int] as int, backward));
                assert(cands[j as int - 1] != cands[j as int]);
                assert(!settled(g0));
                assert(cands[k as int] != cands[j as int]);
            }
            let ghost g = nodes_view(lattice@);
            if backward {
                merge_backward(lattice, first, other);
            } else {
                merge_forward(lattice, first, other);
            }
            proof {
                assert(first_of(marks@, j as int - 1) == k);
                assert(first_of(marks@, j as int) == k);
                assert(nodes_view(lattice@) == phase_graph(
                    g0,
                    cands@,
                    marks@,
                    backward,
                    j as int + 1,
                ));
                assert(phase_touched(g0, cands@, marks@, backward, j as int) == phase_touched(
                    g0,
                    cands@,
                    marks@,
                    backward,
                    j as int - 1,
                ));
            }
            proof {
                let h = nodes_view(lattice@);
                let a = first as int;
                let b = other as int;
                let og = oriented(g, backward);
                let oh = oriented(h, backward);
                assert(og[b].backwards.len() > 0);
                if b <= eos {
                    lemma_trunk_keys(g, eos, order, words, a, b);
                }
                let next = if backward {
                    topo_backward(order, a, b)
                } else {
                    topo_forward(order, a, b)
                };
                if backward {
                    lemma_mergeable_backward(g, eos, order, words, a, b);
                    lemma_merged_backward_sound(g, h, eos, order, words, a, b);
                    lemma_merged_backward_carried(g, h, eos, order, words, a, b);
                    lemma_merged_backward_no_more(g, h, eos, order, words, a, b);
                    lemma_merged_backward_count(g, h, a, b);
                } else {
                    lemma_mergeable_forward(g, eos, order, words, a, b);
                    lemma_merged_forward_sound(g, h, eos, order, words, a, b);
                    lemma_merged_forward_carried(g, h, a, b);
                    lemma_merged_forward_no_more(g, h, eos, order, words, a, b);
                    lemma_merged_forward_count(g, h, a, b);
                }
                lemma_no_more_chain(g0, eos, g, eos, h, eos);
                lemma_carried_no_less(g, eos, h, eos, merge_map(g.len(), a, b));
                lemma_no_more_chain(h, eos, g, eos, g0, eos);
                lemma_carried_composed(g0, g, h, ren, merge_map(g.len(), a, b));
                ren = composed(ren, merge_map(g.len(), a, b));
                lemma_pending_after(og, oh, a, b, cands@, marks@, j as int);
                lemma_merged_alive(g, h, eos, order, next, words, a, b, backward);
                order = next;
                if j + 1 < cands.len() && marks[j as int + 1] {
                    assert(cands[j as int] < cands[j as int + 1]);
                }
            }
            merged = true;
            j += 1;
        }
        if merged {
            proof {
                let g = nodes_view(lattice@);
                lemma_tidy_edges(g, first as int);
                assert(g[first as int] == lattice@[first as int]@);
                lemma_taken_in_range(
                    g[first as int].forwards,
                    lattice[first as int].forwards@,
                    n as int,
                );
                lemma_taken_in_range(
                    g[first as int].backwards,
                    lattice[first as int].backwards@,
                    n as int,
                );
            }
            if backward {
                mark_touched(&mut touched, first, &lattice[first].forwards, Ghost(n as int));
            } else {
                mark_touched(&mut touched, first, &lattice[first].backwards, Ghost(n as int));
            }
            assert(touched@.contains(first));
        }
        proof {
            let g = nodes_view(lattice@);
            assert(g[first as int] == lattice@[first as int]@);
            assert(first_of(marks@, j as int - 1) == k);
            assert(touched@ == phase_touched(g0, cands@, marks@, backward, j as int));
        }
        k = j;
    }
    (touched, Ghost((order, ren)))
}

} // verus!
