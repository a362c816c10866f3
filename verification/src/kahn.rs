//! Why the renumbering reaches every node and numbers it after the nodes
//! that its incoming edges come from.

use vstd::prelude::*;
use crate::edge::{sorted, lemma_sorted_distinct};
use crate::node::NodeView;
use crate::sound::{sound, node_sound, up_ok, down_ok, dead};

verus! {

/// The state of the renumbering.
pub struct Kahn {
    /// For every node and every incoming edge of it, whether the edge was
    /// followed.
    pub marks: Seq<Seq<bool>>,
    /// For every node, whether all its outgoing edges were followed.
    pub done: Seq<bool>,
    /// For every node, how many of its incoming edges were not followed yet.
    pub remaining: Seq<int>,
    /// The nodes that have their new number, in its order.
    pub order: Seq<int>,
    /// The nodes that wait for their new number.
    pub queue: Seq<int>,
    /// For every node, its new number.
    pub map: Seq<int>,
    /// The node whose outgoing edges are being followed, or -1.
    pub cur: int,
    /// The number of its outgoing edges that were followed.
    pub e: int,
}

/// The number of entries that are not set.
pub open spec fn count_false(m: Seq<bool>) -> nat
    decreases m.len(),
{
    if m.len() == 0 {
        0
    } else {
        count_false(m.drop_last()) + if m.last() {
            0nat
        } else {
            1nat
        }
    }
}

pub proof fn lemma_count_update(m: Seq<bool>, k: int)
    requires
        0 <= k < m.len(),
        !m[k],
    ensures
        count_false(m.update(k, true)) == count_false(m) - 1,
        count_false(m) >= 1,
    decreases m.len(),
{
    let u = m.update(k, true);
    if k == m.len() - 1 {
        assert(u.drop_last() =~= m.drop_last());
    } else {
        assert(u.drop_last() =~= m.drop_last().update(k, true));
        lemma_count_update(m.drop_last(), k);
    }
}

pub proof fn lemma_count_zero(m: Seq<bool>, k: int)
    requires
        count_false(m) == 0,
        0 <= k < m.len(),
    ensures
        m[k],
    decreases m.len(),
{
    if k < m.len() - 1 {
        lemma_count_zero(m.drop_last(), k);
    }
}

pub proof fn lemma_count_all(m: Seq<bool>)
    ensures
        (forall|k: int| 0 <= k < m.len() ==> !m[k]) ==> count_false(m) == m.len(),
        (forall|k: int| 0 <= k < m.len() ==> m[k]) ==> count_false(m) == 0,
    decreases m.len(),
{
    if m.len() > 0 {
        lemma_count_all(m.drop_last());
        let d = m.drop_last();
        if forall|k: int| 0 <= k < m.len() ==> !m[k] {
            assert forall|k: int| 0 <= k < d.len() implies !d[k] by {
                assert(d[k] == m[k]);
            }
        }
        if forall|k: int| 0 <= k < m.len() ==> m[k] {
            assert forall|k: int| 0 <= k < d.len() implies d[k] by {
                assert(d[k] == m[k]);
            }
        }
    }
}

/// `x` is one of the entries.
pub open spec fn in_seq(s: Seq<int>, x: int) -> bool {
    exists|k: int| 0 <= k < s.len() && #[trigger] s[k] == x
}

/// `x` is one of the first `k` entries.
pub open spec fn before(s: Seq<int>, x: int, k: int) -> bool {
    exists|i: int| 0 <= i < k && i < s.len() && #[trigger] s[i] == x
}

/// The incoming edge `k` of node `j` was followed from its start.
pub open spec fn consumed(g: Seq<NodeView>, s: Kahn, j: int, k: int) -> bool {
    let e = g[j].backwards[k];
    (0 <= e.1 < s.done.len() && s.done[e.1]) || (e.1 == s.cur && exists|r: int|
        0 <= r < s.e && #[trigger] g[s.cur].forwards[r] == (e.0, j))
}

/// The mark of the incoming edge `k` of node `j` says whether the edge was
/// followed.
pub open spec fn mark_ok(g: Seq<NodeView>, s: Kahn, j: int, k: int) -> bool {
    s.marks[j][k] <==> consumed(g, s, j, k)
}

/// What is kept of node `j` is in order: its marks, the number of its
/// incoming edges that were not followed, and whether it has its number or
/// waits for it.
pub open spec fn node_ok(g: Seq<NodeView>, s: Kahn, j: int) -> bool {
    &&& s.marks[j].len() == g[j].backwards.len()
    &&& s.remaining[j] == count_false(s.marks[j])
    &&& forall|k: int| 0 <= k < g[j].backwards.len() ==> #[trigger] mark_ok(g, s, j, k)
    &&& (in_seq(s.order, j) <==> (s.done[j] || j == s.cur))
    &&& ((in_seq(s.order, j) || in_seq(s.queue, j)) <==> (j == 0 || (g[j].backwards.len() > 0
        && s.remaining[j] == 0)))
}

/// The start of the incoming edge `r` of the node with the new number `k`
/// has a smaller new number.
pub open spec fn source_before(g: Seq<NodeView>, s: Kahn, k: int, r: int) -> bool {
    before(s.order, g[s.order[k]].backwards[r].1, k)
}

/// The node with the new number `k` is a node, is told its number, and has
/// its number after the nodes that its incoming edges come from.
pub open spec fn numbered_ok(g: Seq<NodeView>, s: Kahn, k: int) -> bool {
    &&& 0 <= s.order[k] < g.len()
    &&& s.map[s.order[k]] == k
    &&& forall|r: int|
        0 <= r < g[s.order[k]].backwards.len() ==> #[trigger] source_before(g, s, k, r)
}

/// The start of the incoming edge `r` of the `k`-th waiting node has its new
/// number.
pub open spec fn source_numbered(g: Seq<NodeView>, s: Kahn, k: int, r: int) -> bool {
    in_seq(s.order, g[s.queue[k]].backwards[r].1)
}

/// The `k`-th waiting node is a node that waits once and has no number, and
/// the nodes that its incoming edges come from have theirs.
pub open spec fn waiting_ok(g: Seq<NodeView>, s: Kahn, k: int) -> bool {
    &&& 0 <= s.queue[k] < g.len()
    &&& !in_seq(s.order, s.queue[k])
    &&& forall|k2: int| 0 <= k2 < s.queue.len() && k2 != k ==> s.queue[k2] != s.queue[k]
    &&& forall|r: int|
        0 <= r < g[s.queue[k]].backwards.len() ==> #[trigger] source_numbered(g, s, k, r)
}

/// What holds of the renumbering between two steps.
pub open spec fn kahn_ok(g: Seq<NodeView>, s: Kahn) -> bool {
    &&& s.marks.len() == g.len()
    &&& s.done.len() == g.len()
    &&& s.remaining.len() == g.len()
    &&& s.map.len() == g.len()
    &&& ((s.cur == -1 && s.e == 0) || (0 <= s.cur < g.len() && 0 <= s.e
        <= g[s.cur].forwards.len() && !s.done[s.cur]))
    &&& forall|j: int| 0 <= j < g.len() ==> #[trigger] node_ok(g, s, j)
    &&& forall|k: int| 0 <= k < s.order.len() ==> #[trigger] numbered_ok(g, s, k)
    &&& forall|k: int| 0 <= k < s.queue.len() ==> #[trigger] waiting_ok(g, s, k)
}

/// The state before the first step: nothing is followed, and the source
/// waits.
pub open spec fn kahn_init(g: Seq<NodeView>) -> Kahn {
    Kahn {
        marks: Seq::new(g.len(), |j: int| Seq::new(g[j].backwards.len(), |k: int| false)),
        done: Seq::new(g.len(), |j: int| false),
        remaining: Seq::new(g.len(), |j: int| g[j].backwards.len() as int),
        order: Seq::empty(),
        queue: seq![0int],
        map: Seq::new(g.len(), |j: int| 0int),
        cur: -1,
        e: 0,
    }
}

pub proof fn lemma_kahn_init(g: Seq<NodeView>, eos: int, topo: Seq<int>, words: Seq<Seq<char>>)
    requires
        sound(g, eos, topo, words),
    ensures
        kahn_ok(g, kahn_init(g)),
{
    let s = kahn_init(g);
    assert(node_sound(g, eos, topo, 0));
    assert forall|j: int| 0 <= j < g.len() implies #[trigger] node_ok(g, s, j) by {
        lemma_count_all(s.marks[j]);
        assert(node_sound(g, eos, topo, j));
        assert forall|k: int| 0 <= k < g[j].backwards.len() implies #[trigger] mark_ok(g, s, j, k) by {
            assert(down_ok(g, j, g[j].backwards[k]));
        }
        if j == 0 {
            assert(s.queue[0] == 0);
        }
        if in_seq(s.queue, j) {
            let k = choose|k: int| 0 <= k < s.queue.len() && #[trigger] s.queue[k] == j;
        }
    }
    assert(waiting_ok(g, s, 0));
}

/// The state after the first of the waiting nodes got its number.
pub open spec fn kahn_pop(s: Kahn) -> Kahn {
    Kahn {
        order: s.order.push(s.queue[0]),
        queue: s.queue.drop_first(),
        map: s.map.update(s.queue[0], s.order.len() as int),
        cur: s.queue[0],
        e: 0,
        ..s
    }
}

/// What a list with one more entry holds.
proof fn lemma_in_push(a: Seq<int>, x: int, y: int)
    ensures
        in_seq(a.push(x), y) <==> (in_seq(a, y) || y == x),
{
    let b = a.push(x);
    if in_seq(b, y) {
        let k = choose|k: int| 0 <= k < b.len() && #[trigger] b[k] == y;
        if k < a.len() {
            assert(a[k] == y);
        }
    }
    if in_seq(a, y) {
        let k = choose|k: int| 0 <= k < a.len() && #[trigger] a[k] == y;
        assert(b[k] == y);
    }
    if y == x {
        assert(b[a.len() as int] == y);
    }
}

/// What a list without its first entry holds.
proof fn lemma_in_drop(a: Seq<int>, y: int)
    requires
        a.len() > 0,
    ensures
        in_seq(a, y) <==> (in_seq(a.drop_first(), y) || y == a[0]),
{
    let b = a.drop_first();
    if in_seq(a, y) {
        let k = choose|k: int| 0 <= k < a.len() && #[trigger] a[k] == y;
        if k > 0 {
            assert(b[k - 1] == y);
        }
    }
    if in_seq(b, y) {
        let k = choose|k: int| 0 <= k < b.len() && #[trigger] b[k] == y;
        assert(a[k + 1] == y);
    }
    if y == a[0] {
        assert(a[0] == y);
    }
}

pub proof fn lemma_kahn_pop(g: Seq<NodeView>, s: Kahn)
    requires
        kahn_ok(g, s),
        s.cur == -1,
        s.queue.len() > 0,
    ensures
        kahn_ok(g, kahn_pop(s)),
{
    let t = kahn_pop(s);
    let x = s.queue[0];
    assert(waiting_ok(g, s, 0));
    assert(node_ok(g, s, x));
    assert forall|j: int| 0 <= j < g.len() implies #[trigger] node_ok(g, t, j) by {
        assert(node_ok(g, s, j));
        lemma_in_push(s.order, x, j);
        lemma_in_drop(s.queue, j);
        assert forall|k: int| 0 <= k < g[j].backwards.len() implies #[trigger] mark_ok(g, t, j, k) by {
            assert(mark_ok(g, s, j, k));
        }
        if in_seq(t.queue, j) && j == x {
            let k = choose|k: int| 0 <= k < t.queue.len() && #[trigger] t.queue[k] == j;
            assert(s.queue[k + 1] == j);
        }
    }
    assert forall|k: int| 0 <= k < t.order.len() implies #[trigger] numbered_ok(g, t, k) by {
        if k < s.order.len() {
            assert(numbered_ok(g, s, k));
            assert(t.order[k] == s.order[k]);
            assert(in_seq(s.order, s.order[k]));
            assert forall|r: int| 0 <= r < g[t.order[k]].backwards.len() implies #[trigger] source_before(
                g,
                t,
                k,
                r,
            ) by {
                assert(source_before(g, s, k, r));
                let src = g[s.order[k]].backwards[r].1;
                let i = choose|i: int| 0 <= i < k && i < s.order.len() && #[trigger] s.order[i] == src;
                assert(t.order[i] == src);
            }
        } else {
            assert forall|r: int| 0 <= r < g[t.order[k]].backwards.len() implies #[trigger] source_before(
                g,
                t,
                k,
                r,
            ) by {
                assert(source_numbered(g, s, 0, r));
                let src = g[x].backwards[r].1;
                let i = choose|i: int| 0 <= i < s.order.len() && #[trigger] s.order[i] == src;
                assert(t.order[i] == src);
            }
        }
    }
    assert forall|k: int| 0 <= k < t.queue.len() implies #[trigger] waiting_ok(g, t, k) by {
        assert(waiting_ok(g, s, k + 1));
        assert(t.queue[k] == s.queue[k + 1]);
        lemma_in_push(s.order, x, t.queue[k]);
        assert forall|k2: int| 0 <= k2 < t.queue.len() && k2 != k implies t.queue[k2]
            != t.queue[k] by {
            assert(t.queue[k2] == s.queue[k2 + 1]);
        }
        assert forall|r: int| 0 <= r < g[t.queue[k]].backwards.len() implies #[trigger] source_numbered(
            g,
            t,
            k,
            r,
        ) by {
            assert(source_numbered(g, s, k + 1, r));
            lemma_in_push(s.order, x, g[s.queue[k + 1]].backwards[r].1);
        }
    }
}

/// The state after all outgoing edges of the current node were followed.
pub open spec fn kahn_finish(s: Kahn) -> Kahn {
    Kahn { done: s.done.update(s.cur, true), cur: -1, e: 0, ..s }
}

pub proof fn lemma_kahn_finish(
    g: Seq<NodeView>,
    eos: int,
    topo: Seq<int>,
    words: Seq<Seq<char>>,
    s: Kahn,
)
    requires
        sound(g, eos, topo, words),
        kahn_ok(g, s),
        0 <= s.cur,
        s.e == g[s.cur].forwards.len(),
    ensures
        kahn_ok(g, kahn_finish(s)),
{
    let t = kahn_finish(s);
    assert forall|j: int| 0 <= j < g.len() implies #[trigger] node_ok(g, t, j) by {
        assert(node_ok(g, s, j));
        assert forall|k: int| 0 <= k < g[j].backwards.len() implies #[trigger] mark_ok(g, t, j, k) by {
            assert(mark_ok(g, s, j, k));
            let e = g[j].backwards[k];
            assert(node_sound(g, eos, topo, j));
            assert(down_ok(g, j, g[j].backwards[k]));
            if e.1 == s.cur {
                let r = choose|r: int|
                    0 <= r < g[e.1].forwards.len() && g[e.1].forwards[r] == (e.0, j);
                assert(g[s.cur].forwards[r] == (e.0, j));
            }
        }
    }
    assert forall|k: int| 0 <= k < t.order.len() implies #[trigger] numbered_ok(g, t, k) by {
        assert(numbered_ok(g, s, k));
        assert forall|r: int| 0 <= r < g[t.order[k]].backwards.len() implies #[trigger] source_before(
            g,
            t,
            k,
            r,
        ) by {
            assert(source_before(g, s, k, r));
        }
    }
    assert forall|k: int| 0 <= k < t.queue.len() implies #[trigger] waiting_ok(g, t, k) by {
        assert(waiting_ok(g, s, k));
        assert forall|r: int| 0 <= r < g[t.queue[k]].backwards.len() implies #[trigger] source_numbered(
            g,
            t,
            k,
            r,
        ) by {
            assert(source_numbered(g, s, k, r));
        }
    }
}

/// The place of the incoming edge of node `j` that is the outgoing edge `r`
/// of node `i`.
pub open spec fn twin(g: Seq<NodeView>, i: int, r: int) -> int {
    let e = g[i].forwards[r];
    choose|k: int| 0 <= k < g[e.1].backwards.len() && g[e.1].backwards[k] == (e.0, i)
}

/// The state after the next outgoing edge of the current node was followed.
pub open spec fn kahn_step(g: Seq<NodeView>, s: Kahn) -> Kahn {
    let j = g[s.cur].forwards[s.e].1;
    let k = twin(g, s.cur, s.e);
    Kahn {
        marks: s.marks.update(j, s.marks[j].update(k, true)),
        remaining: s.remaining.update(j, s.remaining[j] - 1),
        queue: if s.remaining[j] == 1 {
            s.queue.push(j)
        } else {
            s.queue
        },
        e: s.e + 1,
        ..s
    }
}

pub proof fn lemma_kahn_step(
    g: Seq<NodeView>,
    eos: int,
    topo: Seq<int>,
    words: Seq<Seq<char>>,
    s: Kahn,
)
    requires
        sound(g, eos, topo, words),
        kahn_ok(g, s),
        0 <= s.cur,
        s.e < g[s.cur].forwards.len(),
    ensures
        kahn_ok(g, kahn_step(g, s)),
        s.remaining[g[s.cur].forwards[s.e].1] >= 1,
        0 <= g[s.cur].forwards[s.e].1 < g.len(),
{
    let t = kahn_step(g, s);
    let cur = s.cur;
    let edge = g[cur].forwards[s.e];
    let j = edge.1;
    assert(node_sound(g, eos, topo, cur));
    assert(up_ok(g, topo, cur, g[cur].forwards[s.e]));
    let k = twin(g, cur, s.e);
    assert(0 <= k < g[j].backwards.len() && g[j].backwards[k] == (edge.0, cur));
    assert(sorted(g[cur].forwards) && sorted(g[cur].backwards));
    assert(sorted(g[j].forwards) && sorted(g[j].backwards));
    assert(node_ok(g, s, j));
    assert(node_ok(g, s, cur));
    assert(mark_ok(g, s, j, k));
    // the edge was not followed before
    assert(!consumed(g, s, j, k)) by {
        if exists|r: int| 0 <= r < s.e && #[trigger] g[cur].forwards[r] == (edge.0, j) {
            let r = choose|r: int| 0 <= r < s.e && #[trigger] g[cur].forwards[r] == (edge.0, j);
            lemma_sorted_distinct(g[cur].forwards, r, s.e);
        }
    }
    lemma_count_update(s.marks[j], k);
    assert(node_sound(g, eos, topo, j));
    assert(j != 0);
    assert(!in_seq(s.order, j) && !in_seq(s.queue, j));
    assert forall|j1: int| 0 <= j1 < g.len() implies #[trigger] node_ok(g, t, j1) by {
        assert(node_ok(g, s, j1));
        if s.remaining[j] == 1 {
            lemma_in_push(s.queue, j, j1);
        }
        assert forall|k1: int| 0 <= k1 < g[j1].backwards.len() implies #[trigger] mark_ok(
            g,
            t,
            j1,
            k1,
        ) by {
            assert(mark_ok(g, s, j1, k1));
            let e1 = g[j1].backwards[k1];
            if j1 == j && k1 == k {
                assert(g[cur].forwards[s.e] == (e1.0, j1));
            } else {
                if consumed(g, t, j1, k1) && !consumed(g, s, j1, k1) {
                    let r = choose|r: int|
                        0 <= r < t.e && #[trigger] g[cur].forwards[r] == (e1.0, j1);
                    assert(r == s.e);
                    assert(j1 == j);
                    lemma_sorted_distinct(g[j].backwards, k1, k);
                }
                if consumed(g, s, j1, k1) && !(0 <= e1.1 < s.done.len() && s.done[e1.1]) {
                    let r = choose|r: int|
                        0 <= r < s.e && #[trigger] g[cur].forwards[r] == (e1.0, j1);
                    assert(0 <= r < t.e && g[cur].forwards[r] == (e1.0, j1));
                }
            }
        }
    }
    assert forall|q: int| 0 <= q < t.order.len() implies #[trigger] numbered_ok(g, t, q) by {
        assert(numbered_ok(g, s, q));
        assert forall|r: int| 0 <= r < g[t.order[q]].backwards.len() implies #[trigger] source_before(
            g,
            t,
            q,
            r,
        ) by {
            assert(source_before(g, s, q, r));
        }
    }
    assert forall|q: int| 0 <= q < t.queue.len() implies #[trigger] waiting_ok(g, t, q) by {
        if q < s.queue.len() {
            assert(waiting_ok(g, s, q));
            assert(t.queue[q] == s.queue[q]);
            assert forall|k2: int| 0 <= k2 < t.queue.len() && k2 != q implies t.queue[k2]
                != t.queue[q] by {
                if k2 < s.queue.len() {
                    assert(t.queue[k2] == s.queue[k2]);
                } else {
                    assert(in_seq(s.queue, s.queue[q]));
                }
            }
            assert forall|r: int| 0 <= r < g[t.queue[q]].backwards.len() implies #[trigger] source_numbered(
                g,
                t,
                q,
                r,
            ) by {
                assert(source_numbered(g, s, q, r));
            }
        } else {
            assert(t.queue[q] == j);
            assert forall|k2: int| 0 <= k2 < t.queue.len() && k2 != q implies t.queue[k2]
                != t.queue[q] by {
                assert(t.queue[k2] == s.queue[k2]);
                assert(in_seq(s.queue, s.queue[k2]));
            }
            assert forall|r: int| 0 <= r < g[j].backwards.len() implies #[trigger] source_numbered(
                g,
                t,
                q,
                r,
            ) by {
                // all incoming edges of the node are followed now
                assert(node_ok(g, t, j));
                lemma_count_zero(t.marks[j], r);
                assert(mark_ok(g, t, j, r));
                let src = g[j].backwards[r].1;
                assert(down_ok(g, j, g[j].backwards[r]));
                assert(node_ok(g, s, src));
            }
        }
    }
}

/// Once no node waits, every node that was not merged away has its number.
pub proof fn lemma_kahn_all(
    g: Seq<NodeView>,
    eos: int,
    topo: Seq<int>,
    words: Seq<Seq<char>>,
    s: Kahn,
    x: int,
)
    requires
        sound(g, eos, topo, words),
        kahn_ok(g, s),
        s.cur == -1,
        s.queue.len() == 0,
        0 <= x < g.len(),
        !dead(g, eos, x),
    ensures
        in_seq(s.order, x),
    decreases topo[x],
{
    assert(node_sound(g, eos, topo, x));
    assert(node_ok(g, s, x));
    if in_seq(s.queue, x) {
        let k = choose|k: int| 0 <= k < s.queue.len() && #[trigger] s.queue[k] == x;
    }
    if x != 0 {
        assert forall|k: int| 0 <= k < s.marks[x].len() implies s.marks[x][k] by {
            let e = g[x].backwards[k];
            assert(down_ok(g, x, g[x].backwards[k]));
            let i = e.1;
            assert(node_sound(g, eos, topo, i));
            let r = choose|r: int| 0 <= r < g[i].forwards.len() && g[i].forwards[r] == (e.0, x);
            assert(up_ok(g, topo, i, g[i].forwards[r]));
            lemma_kahn_all(g, eos, topo, words, s, i);
            assert(node_ok(g, s, i));
            assert(mark_ok(g, s, x, k));
        }
        lemma_count_all(s.marks[x]);
    }
}

/// A node that was merged away gets no number.
pub proof fn lemma_kahn_dead(
    g: Seq<NodeView>,
    eos: int,
    topo: Seq<int>,
    words: Seq<Seq<char>>,
    s: Kahn,
    k: int,
)
    requires
        sound(g, eos, topo, words),
        kahn_ok(g, s),
        0 <= k < s.order.len(),
    ensures
        !dead(g, eos, s.order[k]),
{
    assert(numbered_ok(g, s, k));
    let x = s.order[k];
    assert(node_ok(g, s, x));
    assert(in_seq(s.order, x));
}

/// The state after the next step of the renumbering: the first waiting node
/// gets its number, or the next outgoing edge of the current node is
/// followed, or the current node is done; once no node waits, the state
/// stays as it is.
pub open spec fn kahn_next(g: Seq<NodeView>, s: Kahn) -> Kahn {
    if s.cur == -1 {
        if s.queue.len() > 0 {
            kahn_pop(s)
        } else {
            s
        }
    } else if s.e < g[s.cur].forwards.len() {
        kahn_step(g, s)
    } else {
        kahn_finish(s)
    }
}

/// The state after `steps` steps from the state `s`.
pub open spec fn kahn_run(g: Seq<NodeView>, s: Kahn, steps: nat) -> Kahn
    decreases steps,
{
    if steps == 0 {
        s
    } else {
        kahn_next(g, kahn_run(g, s, (steps - 1) as nat))
    }
}

/// The renumbering has come to its end in the state `s`: `s` is reached from
/// the first state, and no node waits.
pub open spec fn kahn_end(g: Seq<NodeView>, s: Kahn) -> bool {
    &&& s.cur == -1
    &&& s.queue.len() == 0
    &&& exists|steps: nat| #[trigger] kahn_run(g, kahn_init(g), steps) == s
}

/// Once no node waits, further steps change nothing.
pub proof fn lemma_kahn_run_stays(g: Seq<NodeView>, s: Kahn, a: nat, b: nat)
    requires
        a <= b,
        kahn_run(g, s, a).cur == -1,
        kahn_run(g, s, a).queue.len() == 0,
    ensures
        kahn_run(g, s, b) == kahn_run(g, s, a),
    decreases b - a,
{
    if a < b {
        lemma_kahn_run_stays(g, s, a, (b - 1) as nat);
    }
}

/// The renumbering has one end.
pub proof fn lemma_kahn_end_unique(g: Seq<NodeView>, s: Kahn, t: Kahn)
    requires
        kahn_end(g, s),
        kahn_end(g, t),
    ensures
        s == t,
{
    let a = choose|a: nat| #[trigger] kahn_run(g, kahn_init(g), a) == s;
    let b = choose|b: nat| #[trigger] kahn_run(g, kahn_init(g), b) == t;
    if a <= b {
        lemma_kahn_run_stays(g, kahn_init(g), a, b);
    } else {
        lemma_kahn_run_stays(g, kahn_init(g), b, a);
    }
}

} // verus!
