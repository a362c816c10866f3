//! Merging, step by step: what a merge makes of a graph, which nodes a round
//! merges and touches, and the graph that is left when a round over all
//! nodes has merged none.

use vstd::prelude::*;
use crate::edge::{EdgeView, insert_sorted, remove_sorted};
use crate::idset::ids_put;
use crate::node::NodeView;
use crate::shrink::{key_of, edge_set_order};
use crate::token::Order;

verus! {

/// The main edge `m`, which leads to node `a` where it was the edge with
/// token `t` to node `b`.
pub open spec fn moved_main(m: Option<EdgeView>, t: Seq<char>, a: int, b: int) -> Option<EdgeView> {
    if m == Some((t, b)) {
        Some((t, a))
    } else {
        m
    }
}

/// The graph with the incoming edges of node `b` taken away; its outgoing
/// edges, where `backward` is not set.
pub open spec fn empty_key(g: Seq<NodeView>, b: int, backward: bool) -> Seq<NodeView> {
    g.update(
        b,
        if backward {
            NodeView { backwards: Seq::empty(), ..g[b] }
        } else {
            NodeView { forwards: Seq::empty(), ..g[b] }
        },
    )
}

/// The node without its edge with token `t` to node `b`, on the side
/// opposite to the one merged by.
pub open spec fn unlink_node(n: NodeView, t: Seq<char>, a: int, b: int, backward: bool) -> NodeView {
    if backward {
        NodeView {
            forwards: remove_sorted(n.forwards, (t, b)),
            forward_main: moved_main(n.forward_main, t, a, b),
            ..n
        }
    } else {
        NodeView {
            backwards: remove_sorted(n.backwards, (t, b)),
            backward_main: moved_main(n.backward_main, t, a, b),
            ..n
        }
    }
}

/// The graph after the first `upto` of the edges `es`, which node `b` held,
/// were taken from the nodes at their other ends.
pub open spec fn unlink_graph(
    g: Seq<NodeView>,
    a: int,
    b: int,
    es: Seq<EdgeView>,
    backward: bool,
    upto: int,
) -> Seq<NodeView>
    decreases upto,
{
    if upto <= 0 {
        g
    } else {
        let before = unlink_graph(g, a, b, es, backward, upto - 1);
        let e = es[upto - 1];
        before.update(e.1, unlink_node(before[e.1], e.0, a, b, backward))
    }
}

/// The node with its edge with token `t` to node `b` turned into an edge to
/// node `a`, on the side merged by.
pub open spec fn relink_node(n: NodeView, t: Seq<char>, a: int, b: int, backward: bool) -> NodeView {
    if backward {
        NodeView {
            backwards: insert_sorted(remove_sorted(n.backwards, (t, b)), (t, a)),
            backward_main: moved_main(n.backward_main, t, a, b),
            ..n
        }
    } else {
        NodeView {
            forwards: insert_sorted(remove_sorted(n.forwards, (t, b)), (t, a)),
            forward_main: moved_main(n.forward_main, t, a, b),
            ..n
        }
    }
}

/// The node with one more edge on the side opposite to the one merged by.
pub open spec fn gain_node(n: NodeView, e: EdgeView, backward: bool) -> NodeView {
    if backward {
        NodeView { forwards: insert_sorted(n.forwards, e), ..n }
    } else {
        NodeView { backwards: insert_sorted(n.backwards, e), ..n }
    }
}

/// The graph after the first `upto` of the edges `es`, which node `b` held,
/// were handed over to node `a`.
pub open spec fn relink_graph(
    g: Seq<NodeView>,
    a: int,
    b: int,
    es: Seq<EdgeView>,
    backward: bool,
    upto: int,
) -> Seq<NodeView>
    decreases upto,
{
    if upto <= 0 {
        g
    } else {
        let before = relink_graph(g, a, b, es, backward, upto - 1);
        let e = es[upto - 1];
        let turned = before.update(e.1, relink_node(before[e.1], e.0, a, b, backward));
        turned.update(a, gain_node(turned[a], e, backward))
    }
}

/// The graph after node `b` was merged into node `a`: by incoming edges
/// where `backward` is set, by outgoing edges where not.
pub open spec fn merge_graph(g: Seq<NodeView>, a: int, b: int, backward: bool) -> Seq<NodeView> {
    let taken = key_of(g[b], backward);
    let g1 = empty_key(g, b, backward);
    let g2 = unlink_graph(g1, a, b, taken, backward, taken.len() as int);
    let others = key_of(g2[b], !backward);
    let g3 = empty_key(g2, b, !backward);
    relink_graph(g3, a, b, others, backward, others.len() as int)
}

/// The place before which a node with the edge set `key` goes among the
/// first `pos` candidates: behind the last whose edge set is not greater.
pub open spec fn insert_at(
    g: Seq<NodeView>,
    cands: Seq<usize>,
    key: Seq<EdgeView>,
    backward: bool,
    pos: int,
) -> int
    decreases pos,
{
    if pos > 0 && edge_set_order(key_of(g[cands[pos - 1] as int], backward), key)
        == Order::Greater {
        insert_at(g, cands, key, backward, pos - 1)
    } else {
        pos
    }
}

/// The candidates among the first `upto` nodes of `dirty`: those with edges
/// on the side asked for, in the order of their edge sets and, among nodes
/// with the same edge set, as they come in `dirty`.
pub open spec fn candidates(
    g: Seq<NodeView>,
    dirty: Seq<usize>,
    backward: bool,
    upto: int,
) -> Seq<usize>
    decreases upto,
{
    if upto <= 0 {
        Seq::empty()
    } else {
        let before = candidates(g, dirty, backward, upto - 1);
        let i = dirty[upto - 1];
        let key = key_of(g[i as int], backward);
        if key.len() > 0 {
            before.insert(insert_at(g, before, key, backward, before.len() as int), i)
        } else {
            before
        }
    }
}

/// For each candidate, whether it has the edge set of the candidate before
/// it.
pub open spec fn marks_of(g: Seq<NodeView>, cands: Seq<usize>, backward: bool) -> Seq<bool> {
    Seq::new(
        cands.len(),
        |k: int|
            k >= 1 && key_of(g[cands[k] as int], backward) == key_of(
                g[cands[k - 1] as int],
                backward,
            ),
    )
}

/// The first candidate of the group that candidate `idx` belongs to.
pub open spec fn first_of(marks: Seq<bool>, idx: int) -> int
    decreases idx,
{
    if idx <= 0 || !marks[idx] {
        idx
    } else {
        first_of(marks, idx - 1)
    }
}

/// The graph after the first `upto` candidates were dealt with: each that
/// is marked is merged into the first of its group.
pub open spec fn phase_graph(
    g: Seq<NodeView>,
    cands: Seq<usize>,
    marks: Seq<bool>,
    backward: bool,
    upto: int,
) -> Seq<NodeView>
    decreases upto,
{
    if upto <= 0 {
        g
    } else {
        let before = phase_graph(g, cands, marks, backward, upto - 1);
        if marks[upto - 1] {
            merge_graph(
                before,
                cands[first_of(marks, upto - 1)] as int,
                cands[upto - 1] as int,
                backward,
            )
        } else {
            before
        }
    }
}

/// The id set with the nodes at the other ends of the first `upto` edges.
pub open spec fn touch_ends(touched: Seq<usize>, edges: Seq<EdgeView>, upto: int) -> Seq<usize>
    decreases upto,
{
    if upto <= 0 {
        touched
    } else {
        ids_put(touch_ends(touched, edges, upto - 1), edges[upto - 1].1 as usize)
    }
}

/// The id set with node `a` and the nodes at the other ends of the edges.
pub open spec fn touch_put(touched: Seq<usize>, a: usize, edges: Seq<EdgeView>) -> Seq<usize> {
    touch_ends(ids_put(touched, a), edges, edges.len() as int)
}

/// The nodes touched after the first `upto` candidates were dealt with:
/// behind the last candidate of a group of which nodes were merged, the
/// first node of the group and the nodes at the other ends of its edges on
/// the side opposite to the one merged by.
pub open spec fn phase_touched(
    g: Seq<NodeView>,
    cands: Seq<usize>,
    marks: Seq<bool>,
    backward: bool,
    upto: int,
) -> Seq<usize>
    decreases upto,
{
    if upto <= 0 {
        Seq::empty()
    } else {
        let before = phase_touched(g, cands, marks, backward, upto - 1);
        if marks[upto - 1] && (upto >= marks.len() || !marks[upto]) {
            let first = cands[first_of(marks, upto - 1)];
            touch_put(
                before,
                first,
                key_of(phase_graph(g, cands, marks, backward, upto)[first as int], !backward),
            )
        } else {
            before
        }
    }
}

/// The graph after half a round over the nodes of `dirty`.
pub open spec fn half_graph(g: Seq<NodeView>, dirty: Seq<usize>, backward: bool) -> Seq<NodeView> {
    let cands = candidates(g, dirty, backward, dirty.len() as int);
    phase_graph(g, cands, marks_of(g, cands, backward), backward, cands.len() as int)
}

/// The nodes touched in half a round over the nodes of `dirty`.
pub open spec fn half_touched(g: Seq<NodeView>, dirty: Seq<usize>, backward: bool) -> Seq<usize> {
    let cands = candidates(g, dirty, backward, dirty.len() as int);
    phase_touched(g, cands, marks_of(g, cands, backward), backward, cands.len() as int)
}

/// The state of the merging between two rounds: the graph, the nodes to go
/// over by incoming and by outgoing edges, whether these are all nodes, and
/// whether the merging has come to its end.
pub struct Rounds {
    pub g: Seq<NodeView>,
    pub by_incoming: Seq<usize>,
    pub by_outgoing: Seq<usize>,
    pub full: bool,
    pub done: bool,
}

/// The ids of all `n` nodes.
pub open spec fn all_nodes(n: nat) -> Seq<usize> {
    Seq::new(n, |i: int| i as usize)
}

/// One round: the nodes are merged by incoming edges, then by outgoing
/// edges. The touched nodes make up the next round; where none was touched,
/// a round over all nodes follows, and where that has touched none, the
/// merging is at its end.
pub open spec fn round_step(st: Rounds) -> Rounds {
    if st.done {
        st
    } else {
        let g1 = half_graph(st.g, st.by_incoming, true);
        let t1 = half_touched(st.g, st.by_incoming, true);
        let g2 = half_graph(g1, st.by_outgoing, false);
        let t2 = half_touched(g1, st.by_outgoing, false);
        if t1.len() == 0 && t2.len() == 0 {
            if st.full {
                Rounds { g: g2, done: true, ..st }
            } else {
                Rounds {
                    g: g2,
                    by_incoming: all_nodes(st.g.len()),
                    by_outgoing: all_nodes(st.g.len()),
                    full: true,
                    done: false,
                }
            }
        } else {
            Rounds { g: g2, by_incoming: t1, by_outgoing: t2, full: false, done: false }
        }
    }
}

/// The merging after `steps` rounds.
pub open spec fn rounds_run(st: Rounds, steps: nat) -> Rounds
    decreases steps,
{
    if steps == 0 {
        st
    } else {
        round_step(rounds_run(st, (steps - 1) as nat))
    }
}

/// The merging before the first round, which goes over all nodes.
pub open spec fn rounds_start(g: Seq<NodeView>) -> Rounds {
    Rounds {
        g,
        by_incoming: all_nodes(g.len()),
        by_outgoing: all_nodes(g.len()),
        full: true,
        done: false,
    }
}

/// The graph `h` is what the merging makes of the graph `g`.
pub open spec fn shrunk_to(g: Seq<NodeView>, h: Seq<NodeView>) -> bool {
    exists|steps: nat|
        (#[trigger] rounds_run(rounds_start(g), steps)).done && rounds_run(
            rounds_start(g),
            steps,
        ).g == h
}

/// Once the merging is at its end, further rounds change nothing.
pub proof fn lemma_rounds_stay(st: Rounds, a: nat, b: nat)
    requires
        a <= b,
        rounds_run(st, a).done,
    ensures
        rounds_run(st, b) == rounds_run(st, a),
    decreases b - a,
{
    if a < b {
        lemma_rounds_stay(st, a, (b - 1) as nat);
    }
}

/// The merging makes one graph of a graph.
pub proof fn lemma_shrunk_to_one(g: Seq<NodeView>, h: Seq<NodeView>, k: Seq<NodeView>)
    requires
        shrunk_to(g, h),
        shrunk_to(g, k),
    ensures
        h == k,
{
    let st = rounds_start(g);
    let a = choose|a: nat| (#[trigger] rounds_run(st, a)).done && rounds_run(st, a).g == h;
    let b = choose|b: nat| (#[trigger] rounds_run(st, b)).done && rounds_run(st, b).g == k;
    if a <= b {
        lemma_rounds_stay(st, a, b);
    } else {
        lemma_rounds_stay(st, b, a);
    }
}

} // verus!
