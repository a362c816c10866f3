//! The steps by which a lattice grows: walking to the trunk, matching a phrase
//! backwards, and splicing a branch in.

use vstd::prelude::*;
use crate::edge::{EdgeView, sorted, insert_sorted, lemma_insert_sorted};
use crate::node::{
    LatticeNode, NodeView, nodes_view, nodes_sorted, nodes_in_range, mains_in_range, main_in_range,
};
use crate::token::{token_eq, tokens_view};

verus! {

/// Node `i` of a branch has both main edges: the incoming one from a node made
/// earlier, the outgoing one to a node of lower rank.
pub open spec fn branch_node_ok(g: Seq<NodeView>, rank: Seq<nat>, i: int) -> bool {
    &&& g[i].backward_main matches Some(e) && 0 <= e.1 < i
    &&& g[i].forward_main matches Some(e) && 0 <= e.1 < g.len() && rank[e.1] < rank[i]
}

/// What holds of a lattice while it grows. The nodes `0..=eos` are the trunk;
/// every later node belongs to a branch. `rank` bounds the number of main
/// edges from a node forward to the trunk.
pub open spec fn growing(g: Seq<NodeView>, eos: int, rank: Seq<nat>) -> bool {
    &&& 0 <= eos < g.len()
    &&& rank.len() == g.len()
    &&& nodes_sorted(g)
    &&& nodes_in_range(g)
    &&& mains_in_range(g)
    &&& forall|i: int| eos < i < g.len() ==> #[trigger] branch_node_ok(g, rank, i)
}

/// The trunk node from which the branch of node `i` starts: the first trunk
/// node on the walk from `i` along incoming main edges.
pub open spec fn trunk_start(g: Seq<NodeView>, i: int, eos: int) -> int
    decreases i,
{
    if i <= eos || i >= g.len() {
        i
    } else {
        match g[i].backward_main {
            Some(e) => if 0 <= e.1 < i {
                trunk_start(g, e.1, eos)
            } else {
                i
            },
            None => i,
        }
    }
}

/// The trunk node at which the branch of node `i` ends: the first trunk node
/// on the walk from `i` along outgoing main edges.
pub open spec fn trunk_end(g: Seq<NodeView>, rank: Seq<nat>, i: int, eos: int) -> int
    decreases rank[i],
{
    if i <= eos || i >= g.len() {
        i
    } else {
        match g[i].forward_main {
            Some(e) => if 0 <= e.1 < g.len() && rank[e.1] < rank[i] {
                trunk_end(g, rank, e.1, eos)
            } else {
                i
            },
            None => i,
        }
    }
}

/// Walks from `begin` along incoming main edges to the trunk.
pub fn main_branch_bw(g: &Vec<LatticeNode>, begin: usize, eos: usize, Ghost(rank): Ghost<Seq<nat>>) -> (b:
    usize)
    requires
        growing(nodes_view(g@), eos as int, rank),
        begin < g.len(),
    ensures
        b <= eos,
        b as int == trunk_start(nodes_view(g@), begin as int, eos as int),
{
    let ghost v = nodes_view(g@);
    let mut b = begin;
    while b > eos
        invariant
            v == nodes_view(g@),
            growing(v, eos as int, rank),
            b < g.len(),
            trunk_start(v, b as int, eos as int) == trunk_start(v, begin as int, eos as int),
        decreases b,
    {
        assert(branch_node_ok(v, rank, b as int));
        assert(v[b as int] == g@[b as int]@);
        match g[b].backward_main {
            Some(e) => {
                b = e.1;
            },
            None => {
                assert(false);
            },
        }
    }
    b
}

/// Walks from `end` along outgoing main edges to the trunk.
pub fn main_branch_fw(g: &Vec<LatticeNode>, end: usize, eos: usize, Ghost(rank): Ghost<Seq<nat>>) -> (e:
    usize)
    requires
        growing(nodes_view(g@), eos as int, rank),
        end < g.len(),
    ensures
        e <= eos,
        e as int == trunk_end(nodes_view(g@), rank, end as int, eos as int),
{
    let ghost v = nodes_view(g@);
    let mut e = end;
    while e > eos
        invariant
            v == nodes_view(g@),
            growing(v, eos as int, rank),
            e < g.len(),
            trunk_end(v, rank, e as int, eos as int) == trunk_end(
                v,
                rank,
                end as int,
                eos as int,
            ),
        decreases rank[e as int],
    {
        assert(branch_node_ok(v, rank, e as int));
        assert(v[e as int] == g@[e as int]@);
        match g[e].forward_main {
            Some(x) => {
                e = x.1;
            },
            None => {
                assert(false);
            },
        }
    }
    e
}

/// The larger of two depths.
pub open spec fn max_nat(a: nat, b: nat) -> nat {
    if a >= b {
        a
    } else {
        b
    }
}

/// The walks that go one edge back from `item` over an edge with token `tok`,
/// among the first `upto` incoming edges of its node, to nodes of depth below
/// `max_depth`: each with the node it reaches and the largest depth met.
pub open spec fn preds(
    g: Seq<NodeView>,
    item: (int, nat),
    tok: Seq<char>,
    max_depth: nat,
    upto: int,
) -> Seq<(int, nat)>
    decreases upto,
{
    if upto <= 0 {
        Seq::empty()
    } else {
        let e = g[item.0].backwards[upto - 1];
        let rest = preds(g, item, tok, max_depth, upto - 1);
        if e.0 == tok && g[e.1].depth < max_depth {
            rest.push((e.1, max_nat(item.1, g[e.1].depth)))
        } else {
            rest
        }
    }
}

/// One step back from every walk of `items`, in their order.
pub open spec fn step_back(
    g: Seq<NodeView>,
    items: Seq<(int, nat)>,
    tok: Seq<char>,
    max_depth: nat,
) -> Seq<(int, nat)>
    decreases items.len(),
{
    if items.len() == 0 {
        Seq::empty()
    } else {
        step_back(g, items.drop_last(), tok, max_depth) + preds(
            g,
            items.last(),
            tok,
            max_depth,
            g[items.last().0].backwards.len() as int,
        )
    }
}

/// The walks that go back from `pos` and spell `phrase[k..]` in reverse
/// through nodes of depth below `max_depth`.
pub open spec fn walks_back(
    g: Seq<NodeView>,
    phrase: Seq<Seq<char>>,
    pos: int,
    max_depth: nat,
    k: int,
) -> Seq<(int, nat)>
    decreases phrase.len() - k,
{
    if k >= phrase.len() {
        if g[pos].depth < max_depth {
            seq![(pos, g[pos].depth)]
        } else {
            Seq::empty()
        }
    } else {
        step_back(g, walks_back(g, phrase, pos, max_depth, k + 1), phrase[k], max_depth)
    }
}

/// The walks as plain values.
pub open spec fn walks_view(v: Seq<(usize, usize)>) -> Seq<(int, nat)> {
    Seq::new(v.len(), |i: int| (v[i].0 as int, v[i].1 as nat))
}

/// Every walk of `v` ends at a node of the graph and has met depths below
/// `max_depth` only.
pub open spec fn walks_ok(v: Seq<(usize, usize)>, len: int, max_depth: int) -> bool {
    forall|i: int| 0 <= i < v.len() ==> (#[trigger] v[i]).0 < len && v[i].1 < max_depth
}

/// Finds every walk that leads back from `pos` and spells `phrase` in
/// reverse, through nodes of depth below `max_depth`. Each comes with the node
/// where it starts and the largest depth on it.
pub fn backward_match(
    phrase: &Vec<&str>,
    lattice: &Vec<LatticeNode>,
    pos: usize,
    max_depth: usize,
) -> (result: Vec<(usize, usize)>)
    requires
        nodes_in_range(nodes_view(lattice@)),
        pos < lattice.len(),
    ensures
        walks_view(result@) == walks_back(
            nodes_view(lattice@),
            tokens_view(phrase@),
            pos as int,
            max_depth as nat,
            0,
        ),
        walks_ok(result@, lattice.len() as int, max_depth as int),
{
    let ghost g = nodes_view(lattice@);
    let ghost q = tokens_view(phrase@);
    let mut level: Vec<(usize, usize)> = Vec::new();
    assert(g[pos as int] == lattice@[pos as int]@);
    if lattice[pos].depth < max_depth {
        level.push((pos, lattice[pos].depth));
    }
    assert(walks_view(level@) =~= walks_back(g, q, pos as int, max_depth as nat, q.len() as int));
    let mut k: usize = phrase.len();
    while k > 0
        invariant
            g == nodes_view(lattice@),
            q == tokens_view(phrase@),
            nodes_in_range(g),
            k <= phrase.len(),
            walks_ok(level@, lattice.len() as int, max_depth as int),
            walks_view(level@) == walks_back(g, q, pos as int, max_depth as nat, k as int),
        decreases k,
    {
        let tok = phrase[k - 1];
        assert(q[k - 1] == tok@);
        let mut next: Vec<(usize, usize)> = Vec::new();
        let mut idx: usize = 0;
        let ghost items = walks_view(level@);
        assert(items.take(0) =~= Seq::empty());
        assert(walks_view(next@) =~= Seq::empty());
        while idx < level.len()
            invariant
                g == nodes_view(lattice@),
                nodes_in_range(g),
                items == walks_view(level@),
                idx <= level.len(),
                walks_ok(level@, lattice.len() as int, max_depth as int),
                walks_ok(next@, lattice.len() as int, max_depth as int),
                walks_view(next@) == step_back(g, items.take(idx as int), tok@, max_depth as nat),
            decreases level.len() - idx,
        {
            let (node_id, depth) = level[idx];
            let ghost item = (node_id as int, depth as nat);
            assert(items[idx as int] == item);
            let ghost before = walks_view(next@);
            assert(g[node_id as int] == lattice@[node_id as int]@);
            let mut e: usize = 0;
            while e < lattice[node_id].backwards.len()
                invariant
                    g == nodes_view(lattice@),
                    nodes_in_range(g),
                    node_id < lattice.len(),
                    depth < max_depth,
                    item == (node_id as int, depth as nat),
                    e <= lattice[node_id as int].backwards.len(),
                    walks_ok(next@, lattice.len() as int, max_depth as int),
                    walks_view(next@) == before + preds(g, item, tok@, max_depth as nat, e as int),
                decreases lattice[node_id as int].backwards.len() - e,
            {
                let (edge_str, edge_target) = lattice[node_id].backwards[e];
                assert(g[node_id as int].backwards[e as int] == (edge_str@, edge_target as int));
                assert(g[edge_target as int] == lattice@[edge_target as int]@);
                let ghost prev = walks_view(next@);
                if token_eq(edge_str, tok) && lattice[edge_target].depth < max_depth {
                    let d = lattice[edge_target].depth;
                    let nd = if depth >= d {
                        depth
                    } else {
                        d
                    };
                    next.push((edge_target, nd));
                    assert(walks_view(next@) =~= prev.push((edge_target as int, nd as nat)));
                }
                assert(walks_view(next@) =~= before + preds(
                    g,
                    item,
                    tok@,
                    max_depth as nat,
                    e as int + 1,
                ));
                e += 1;
            }
            proof {
                let t1 = items.take(idx as int + 1);
                assert(t1.drop_last() =~= items.take(idx as int));
                assert(t1.last() == item);
                assert(g[node_id as int].backwards.len() == lattice[node_id as int].backwards.len());
            }
            idx += 1;
        }
        assert(items.take(level.len() as int) =~= items);
        level = next;
        k -= 1;
    }
    level
}

/// Node `n` with one more outgoing edge, which becomes its main edge where it
/// had none.
pub open spec fn with_forward(n: NodeView, e: EdgeView) -> NodeView {
    NodeView {
        forwards: insert_sorted(n.forwards, e),
        forward_main: if n.forward_main.is_none() {
            Some(e)
        } else {
            n.forward_main
        },
        ..n
    }
}

/// Node `n` with one more incoming edge.
pub open spec fn with_backward(n: NodeView, e: EdgeView) -> NodeView {
    NodeView { backwards: insert_sorted(n.backwards, e), ..n }
}

/// The `i`-th inner node of a branch that spells `q` from `start` to `end`,
/// where the inner nodes get the ids from `first` on.
pub open spec fn branch_node(
    q: Seq<Seq<char>>,
    i: int,
    first: int,
    start: int,
    end: int,
    depth: nat,
) -> NodeView {
    let fw = (q[i + 1], if i + 2 == q.len() {
        end
    } else {
        first + i + 1
    });
    let bw = (q[i], if i == 0 {
        start
    } else {
        first + i - 1
    });
    NodeView {
        forwards: seq![fw],
        backwards: seq![bw],
        forward_main: Some(fw),
        backward_main: Some(bw),
        depth,
    }
}

/// The first `count` inner nodes of the branch.
pub open spec fn branch_nodes(
    q: Seq<Seq<char>>,
    count: int,
    first: int,
    start: int,
    end: int,
    depth: nat,
) -> Seq<NodeView> {
    Seq::new(count as nat, |i: int| branch_node(q, i, first, start, end, depth))
}

/// The id of the first node after `start` on the branch.
pub open spec fn branch_first(g: Seq<NodeView>, q: Seq<Seq<char>>, end: int) -> int {
    if q.len() == 1 {
        end
    } else {
        g.len() as int
    }
}

/// The id of the last node before `end` on the branch.
pub open spec fn branch_last(g: Seq<NodeView>, q: Seq<Seq<char>>, start: int) -> int {
    if q.len() == 1 {
        start
    } else {
        g.len() + q.len() - 2
    }
}

/// The graph `g` with a branch that spells `q` from `start` to `end`: `start`
/// gets the branch's first edge, `end` its last, and `q.len() - 1` new nodes
/// lie between them.
pub open spec fn splice(
    g: Seq<NodeView>,
    q: Seq<Seq<char>>,
    start: int,
    end: int,
    depth: nat,
) -> Seq<NodeView> {
    let g1 = g.update(start, with_forward(g[start], (q[0], branch_first(g, q, end))));
    let g2 = g1 + branch_nodes(q, q.len() - 1, g.len() as int, start, end, depth);
    g2.update(end, with_backward(g2[end], (q[q.len() - 1], branch_last(g, q, start))))
}

/// The ranks after a branch of `count` inner nodes towards `end` was added.
pub open spec fn splice_rank(rank: Seq<nat>, count: int, end: int) -> Seq<nat> {
    rank + Seq::new(count as nat, |i: int| (rank[end] + count - i) as nat)
}

/// A branch spliced into a growing lattice leaves it a growing lattice.
pub proof fn lemma_splice_growing(
    g: Seq<NodeView>,
    eos: int,
    rank: Seq<nat>,
    q: Seq<Seq<char>>,
    start: int,
    end: int,
    depth: nat,
)
    requires
        growing(g, eos, rank),
        q.len() >= 1,
        0 <= start < g.len(),
        0 <= end < g.len(),
    ensures
        growing(splice(g, q, start, end, depth), eos, splice_rank(rank, q.len() - 1, end)),
{
    let n = g.len() as int;
    let m = q.len() as int;
    let s = splice(g, q, start, end, depth);
    let r = splice_rank(rank, m - 1, end);
    let e0 = (q[0], branch_first(g, q, end));
    let e1 = (q[m - 1], branch_last(g, q, start));
    let g1 = g.update(start, with_forward(g[start], e0));
    let g2 = g1 + branch_nodes(q, m - 1, n, start, end, depth);
    assert(s.len() == n + m - 1);
    lemma_insert_sorted(g[start].forwards, e0);
    lemma_insert_sorted(g2[end].backwards, e1);
    assert forall|i: int| #![trigger s[i]] 0 <= i < s.len() implies sorted(s[i].forwards)
        && sorted(s[i].backwards) by {
        if i < n {
            assert(sorted(g[i].forwards) && sorted(g[i].backwards));
        }
    }
    assert forall|i: int, k: int|
        #![trigger s[i].forwards[k]]
        #![trigger s[i].backwards[k]]
        0 <= i < s.len() implies (0 <= k < s[i].forwards.len() ==> 0 <= s[i].forwards[k].1
        < s.len()) && (0 <= k < s[i].backwards.len() ==> 0 <= s[i].backwards[k].1 < s.len()) by {
        if i < n {
            if 0 <= k < s[i].forwards.len() {
                let x = s[i].forwards[k];
                assert(s[i].forwards.contains(x));
                if i == start {
                    assert(g[i].forwards.contains(x) || x == e0);
                }
                if g[i].forwards.contains(x) {
                    let k0 = choose|k0: int| 0 <= k0 < g[i].forwards.len() && g[i].forwards[k0] == x;
                    assert(0 <= g[i].forwards[k0].1 < n);
                }
            }
            if 0 <= k < s[i].backwards.len() {
                let x = s[i].backwards[k];
                assert(s[i].backwards.contains(x));
                if i == end {
                    assert(g2[i].backwards.contains(x) || x == e1);
                }
                assert(g2[i].backwards == g[i].backwards);
                if g[i].backwards.contains(x) {
                    let k0 = choose|k0: int|
                        0 <= k0 < g[i].backwards.len() && g[i].backwards[k0] == x;
                    assert(0 <= g[i].backwards[k0].1 < n);
                }
            }
        }
    }
    assert forall|i: int| #![trigger s[i]] 0 <= i < s.len() implies main_in_range(
        s[i].forward_main,
        s.len() as int,
    ) && main_in_range(s[i].backward_main, s.len() as int) by {
        if i < n {
            assert(main_in_range(g[i].forward_main, n) && main_in_range(g[i].backward_main, n));
        } else {
            assert(s[i] == branch_node(q, i - n, n, start, end, depth));
        }
    }
    assert forall|i: int| eos < i < s.len() implies #[trigger] branch_node_ok(s, r, i) by {
        if i < n {
            assert(branch_node_ok(g, rank, i));
            assert(s[i].backward_main == g[i].backward_main);
            assert(s[i].forward_main == g[i].forward_main);
        } else {
            assert(s[i] == branch_node(q, i - n, n, start, end, depth));
        }
    }
}

/// Splices a branch that spells `phrase` from `start_node_id` to `end_node_id`
/// into the lattice, with new nodes of the given depth, and returns the first
/// node after `start_node_id` on it.
pub fn insert_branch<'a>(
    lattice: &mut Vec<LatticeNode<'a>>,
    state_id_cache: &mut Vec<Vec<usize>>,
    phrase: &Vec<&'a str>,
    start_node_id: usize,
    end_node_id: usize,
    depth: usize,
    Ghost(eos): Ghost<int>,
    Ghost(rank): Ghost<Seq<nat>>,
) -> (first: usize)
    requires
        growing(nodes_view(old(lattice)@), eos, rank),
        old(state_id_cache).len() == old(lattice).len(),
        phrase.len() >= 1,
        start_node_id < old(lattice).len(),
        end_node_id < old(lattice).len(),
        old(lattice).len() + phrase.len() <= usize::MAX,
    ensures
        nodes_view(final(lattice)@) == splice(
            nodes_view(old(lattice)@),
            tokens_view(phrase@),
            start_node_id as int,
            end_node_id as int,
            depth as nat,
        ),
        growing(
            nodes_view(final(lattice)@),
            eos,
            splice_rank(rank, phrase.len() - 1, end_node_id as int),
        ),
        first as int == branch_first(
            nodes_view(old(lattice)@),
            tokens_view(phrase@),
            end_node_id as int,
        ),
        first < final(lattice).len(),
        final(lattice).len() == old(lattice).len() + phrase.len() - 1,
        final(state_id_cache).len() == final(lattice).len(),
        forall|i: int|
            0 <= i < old(lattice).len() ==> (#[trigger] final(state_id_cache)[i]) == old(state_id_cache)[i],
        forall|i: int|
            old(lattice).len() <= i < final(lattice).len() ==> (#[trigger] final(state_id_cache)[i])@.len() == 0,
{
    let ghost g = nodes_view(lattice@);
    let ghost q = tokens_view(phrase@);
    let new_node_id = lattice.len();
    let m = phrase.len();
    let first = if m == 1 {
        end_node_id
    } else {
        new_node_id
    };
    let last = if m == 1 {
        start_node_id
    } else {
        new_node_id + m - 2
    };
    assert(g[start_node_id as int] == lattice@[start_node_id as int]@);
    assert(sorted(g[start_node_id as int].forwards) && sorted(g[start_node_id as int].backwards));
    lattice[start_node_id].insert_forward(phrase[0], first);
    if lattice[start_node_id].forward_main.is_none() {
        lattice[start_node_id].forward_main = Some((phrase[0], first));
    }
    let ghost e0 = (q[0], first as int);
    let ghost g1 = g.update(start_node_id as int, with_forward(g[start_node_id as int], e0));
    assert(nodes_view(lattice@) =~= g1);
    let mut i: usize = 0;
    while i + 1 < m
        invariant
            m == phrase.len(),
            q == tokens_view(phrase@),
            new_node_id == g.len(),
            g1.len() == g.len(),
            new_node_id + m <= usize::MAX,
            i + 1 <= m,
            lattice.len() == new_node_id + i,
            state_id_cache.len() == old(state_id_cache).len() + i,
            nodes_view(lattice@) == g1 + branch_nodes(
                q,
                i as int,
                new_node_id as int,
                start_node_id as int,
                end_node_id as int,
                depth as nat,
            ),
            forall|k: int|
                0 <= k < old(state_id_cache).len() ==> (#[trigger] state_id_cache[k]) == old(state_id_cache)[k],
            forall|k: int|
                old(state_id_cache).len() <= k < state_id_cache.len() ==> (
                #[trigger] state_id_cache[k])@.len() == 0,
        decreases m - i,
    {
        let fw_target = if i + 2 == m {
            end_node_id
        } else {
            new_node_id + i + 1
        };
        let bw_source = if i == 0 {
            start_node_id
        } else {
            new_node_id + i - 1
        };
        let ghost before = nodes_view(lattice@);
        let node = LatticeNode::new(
            Some((phrase[i + 1], fw_target)),
            Some((phrase[i], bw_source)),
            depth,
        );
        assert(node@ == branch_node(
            q,
            i as int,
            new_node_id as int,
            start_node_id as int,
            end_node_id as int,
            depth as nat,
        ));
        let ghost nv = node@;
        lattice.push(node);
        state_id_cache.push(Vec::new());
        assert(nodes_view(lattice@) =~= before.push(nv));
        assert(before.push(nv) =~= g1 + branch_nodes(
            q,
            i as int + 1,
            new_node_id as int,
            start_node_id as int,
            end_node_id as int,
            depth as nat,
        ));
        i += 1;
    }
    let ghost g2 = nodes_view(lattice@);
    assert(g2[end_node_id as int] == lattice@[end_node_id as int]@);
    proof {
        lemma_insert_sorted(g[start_node_id as int].forwards, e0);
        assert(sorted(g[end_node_id as int].forwards) && sorted(g[end_node_id as int].backwards));
    }
    lattice[end_node_id].insert_backward(phrase[m - 1], last);
    proof {
        let e1 = (q[m - 1], last as int);
        assert(nodes_view(lattice@) =~= g2.update(
            end_node_id as int,
            with_backward(g2[end_node_id as int], e1),
        ));
        lemma_splice_growing(
            g,
            eos,
            rank,
            q,
            start_node_id as int,
            end_node_id as int,
            depth as nat,
        );
    }
    first
}

} // verus!
