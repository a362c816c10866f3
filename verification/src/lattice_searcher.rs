//! Search for several phrases at once: the lattice is scanned breadth first
//! with the automaton of the phrases, and wherever a phrase ends, the paths
//! that spell it are read off backwards.

use vstd::prelude::*;
use std::collections::VecDeque;
use crate::automaton::{
    PMANode, StateView, states_view, automaton_ok, state_ok, next_state, new_state, add_phrase,
    build_fallbacks, lemma_root_building,
};
use crate::trie::{
    building, automaton_full, phrases_ok, run, lemma_run_reports, is_suffix, from_end,
};
use crate::edge::{EdgeView, edge_view, edges_view};
use crate::idset::{total_len, lemma_total_len_bound};
use crate::kmp_walks::{found, walk_ok, link_ok, nth_back, lemma_reach, lemma_walk_to_match};
use crate::lattice::{
    Lattice, valid_nodes, node_linked, backward_edge_ok, forward_edge_ok, lemma_valid_in_range,
};
use crate::lattice_kmp::{is_match, step_ok, copy_path, paths_view};
use crate::node::NodeView;
use crate::parattice::{
    caches_ok, queue_ok, empty_caches, scan_edges, group_view, scanned, seen_next,
};
use crate::token::{token_eq, tokens_view};
use crate::trunk::no_token;

verus! {

/// Entry `t` of a path that spells `p[k..]` is an edge out of the node before
/// it and carries the token of `p` at its place.
pub open spec fn hop_ok(
    g: Seq<NodeView>,
    p: Seq<Seq<char>>,
    k: int,
    path: Seq<EdgeView>,
    t: int,
) -> bool {
    &&& path[t].0 == p[k + t - 1]
    &&& 0 <= path[t - 1].1 < g.len()
    &&& 0 <= path[t].1 < g.len()
    &&& g[path[t - 1].1].forwards.contains(path[t])
}

/// `path` spells the tokens `p[k..]`: a start mark with the node where it
/// begins, then one edge for each of these tokens.
pub open spec fn spells_suffix(
    g: Seq<NodeView>,
    p: Seq<Seq<char>>,
    k: int,
    path: Seq<EdgeView>,
) -> bool {
    &&& 0 <= k <= p.len()
    &&& path.len() == p.len() - k + 1
    &&& path[0].0 == no_token()
    &&& 0 <= path[0].1 < g.len()
    &&& forall|t: int| 1 <= t < path.len() ==> #[trigger] hop_ok(g, p, k, path, t)
}

/// Every path of the list spells `p[k..]`.
pub open spec fn all_spell_suffix<'b>(
    g: Seq<NodeView>,
    p: Seq<Seq<char>>,
    k: int,
    paths: Seq<Vec<(&'b str, usize)>>,
) -> bool {
    forall|i: int| 0 <= i < paths.len() ==> spells_suffix(g, p, k, edges_view(#[trigger] paths[i]@))
}

/// `path` is an occurrence of one of the phrases.
pub open spec fn matches_some(
    g: Seq<NodeView>,
    patterns: Seq<Seq<Seq<char>>>,
    path: Seq<EdgeView>,
) -> bool {
    exists|i: int| 0 <= i < patterns.len() && is_match(g, #[trigger] patterns[i], path)
}

/// A path that spells all of `p` is an occurrence of `p`.
proof fn lemma_suffix_is_match(g: Seq<NodeView>, p: Seq<Seq<char>>, path: Seq<EdgeView>)
    requires
        spells_suffix(g, p, 0, path),
    ensures
        is_match(g, p, path),
{
    assert forall|t: int| 1 <= t < path.len() implies #[trigger] step_ok(g, p, path, t) by {
        assert(hop_ok(g, p, 0, path, t));
    }
}

/// A path that spells `p[k..]` from a node, with an edge into that node that
/// carries `p[k - 1]` put in front, spells `p[k - 1..]`.
proof fn lemma_prepend(
    g: Seq<NodeView>,
    p: Seq<Seq<char>>,
    k: int,
    path: Seq<EdgeView>,
    src: int,
    longer: Seq<EdgeView>,
)
    requires
        spells_suffix(g, p, k, path),
        k >= 1,
        0 <= src < g.len(),
        g[src].forwards.contains((p[k - 1], path[0].1)),
        longer == seq![(no_token(), src), (p[k - 1], path[0].1)] + path.drop_first(),
    ensures
        spells_suffix(g, p, k - 1, longer),
{
    assert forall|t: int| 1 <= t < longer.len() implies #[trigger] hop_ok(g, p, k - 1, longer, t) by {
        if t >= 2 {
            assert(longer[t] == path[t - 1]);
            assert(hop_ok(g, p, k, path, t - 1));
            if t >= 3 {
                assert(longer[t - 1] == path[t - 2]);
            }
        }
    }
}

/// A set of phrases prepared for searching.
pub struct LatticeSearcher<'a> {
    pub(crate) pma: Vec<PMANode<'a>>,
    pub(crate) patterns: Vec<Vec<&'a str>>,
}

/// The path with an edge put in front: a start mark at `src`, the edge from
/// `src` to the node where `path` began, and the edges of `path`.
fn prepend<'b>(path: &Vec<(&'b str, usize)>, edge_str: &'b str, src: usize) -> (r: Vec<(&'b str, usize)>)
    requires
        path.len() >= 1,
    ensures
        edges_view(r@) == seq![(no_token(), src as int), (edge_str@, path[0].1 as int)]
            + edges_view(path@).drop_first(),
{
    let ghost pv = edges_view(path@);
    let mut out: Vec<(&'b str, usize)> = Vec::new();
    proof {
        reveal_strlit("");
        assert(""@ =~= no_token());
    }
    out.push(("", src));
    out.push((edge_str, path[0].1));
    let ghost head = seq![(no_token(), src as int), (edge_str@, path[0].1 as int)];
    assert(edges_view(out@) =~= head + pv.subrange(1, 1));
    let mut t: usize = 1;
    while t < path.len()
        invariant
            pv == edges_view(path@),
            1 <= t <= path.len(),
            edges_view(out@) == head + pv.subrange(1, t as int),
        decreases path.len() - t,
    {
        let ghost before = edges_view(out@);
        out.push(path[t]);
        proof {
            assert(pv[t as int] == edge_view(path@[t as int]));
            assert(edges_view(out@) =~= before.push(pv[t as int]));
            assert(before.push(pv[t as int]) =~= head + pv.subrange(1, t as int + 1));
        }
        t += 1;
    }
    assert(pv.subrange(1, path.len() as int) =~= pv.drop_first());
    out
}

/// The path `lv` with the incoming edge `b` of its first node put in front.
pub open spec fn put_before(lv: Seq<EdgeView>, b: EdgeView) -> Seq<EdgeView> {
    seq![(no_token(), b.1), (b.0, lv[0].1)] + lv.drop_first()
}

/// Where the incoming edge `e` of the node at which `lv` begins carries
/// `tok`, the path `lv` with that edge in front is one of `next`.
pub open spec fn extended(
    g: Seq<NodeView>,
    tok: Seq<char>,
    lv: Seq<EdgeView>,
    e: int,
    next: Seq<Seq<EdgeView>>,
) -> bool {
    let b = g[lv[0].1].backwards[e];
    b.0 == tok ==> found(next, put_before(lv, b))
}

/// Every path of `level` has been extended by every incoming edge that
/// carries `tok`.
pub open spec fn all_extended(
    g: Seq<NodeView>,
    tok: Seq<char>,
    level: Seq<Seq<EdgeView>>,
    upto: int,
    next: Seq<Seq<EdgeView>>,
) -> bool {
    forall|i: int, e: int|
        0 <= i < upto && 0 <= e < g[level[i][0].1].backwards.len() ==> #[trigger] extended(
            g,
            tok,
            level[i],
            e,
            next,
        )
}

/// Every path that spells `p[k..]` and ends at node `pos` is one of `level`.
pub open spec fn level_complete(
    g: Seq<NodeView>,
    p: Seq<Seq<char>>,
    k: int,
    pos: int,
    level: Seq<Seq<EdgeView>>,
) -> bool {
    forall|path: Seq<EdgeView>| #[trigger]
        spells_suffix(g, p, k, path) && path.last().1 == pos ==> found(level, path)
}

/// A list of paths with one more holds what it held, and the new one.
proof fn lemma_found_push(list: Seq<Seq<EdgeView>>, new: Seq<EdgeView>, x: Seq<EdgeView>)
    ensures
        found(list, x) ==> found(list.push(new), x),
        found(list.push(new), new),
{
    let longer = list.push(new);
    if found(list, x) {
        let r = choose|r: int| 0 <= r < list.len() && #[trigger] list[r] == x;
        assert(longer[r] == x);
    }
    assert(longer[list.len() as int] == new);
}

/// Where the paths of a level are all the paths that spell `p[k..]` to
/// `pos`, the paths made of them by putting an edge with `p[k - 1]` in front
/// are all the paths that spell `p[k - 1..]` to `pos`.
proof fn lemma_level_step(
    g: Seq<NodeView>,
    p: Seq<Seq<char>>,
    k: int,
    pos: int,
    level: Seq<Seq<EdgeView>>,
    next: Seq<Seq<EdgeView>>,
)
    requires
        valid_nodes(g),
        1 <= k <= p.len(),
        level_complete(g, p, k, pos, level),
        all_extended(g, p[k - 1], level, level.len() as int, next),
    ensures
        level_complete(g, p, k - 1, pos, next),
{
    assert forall|q: Seq<EdgeView>| #[trigger]
        spells_suffix(g, p, k - 1, q) && q.last().1 == pos implies found(next, q) by {
        let shorter = seq![(no_token(), q[1].1)] + q.subrange(2, q.len() as int);
        assert(hop_ok(g, p, k - 1, q, 1));
        assert forall|t: int| 1 <= t < shorter.len() implies #[trigger] hop_ok(
            g,
            p,
            k,
            shorter,
            t,
        ) by {
            assert(hop_ok(g, p, k - 1, q, t + 1));
            assert(shorter[t] == q[t + 1]);
            if t >= 2 {
                assert(shorter[t - 1] == q[t]);
            }
        }
        assert(spells_suffix(g, p, k, shorter));
        if shorter.len() >= 2 {
            assert(shorter.last() == q.last());
        }
        assert(found(level, shorter));
        let i = choose|i: int| 0 <= i < level.len() && #[trigger] level[i] == shorter;
        assert(node_linked(g, q[0].1));
        let f = choose|f: int|
            0 <= f < g[q[0].1].forwards.len() && #[trigger] g[q[0].1].forwards[f] == q[1];
        assert(forward_edge_ok(g, q[0].1, g[q[0].1].forwards[f]));
        let b = (q[1].0, q[0].1);
        let e = choose|e: int|
            0 <= e < g[q[1].1].backwards.len() && #[trigger] g[q[1].1].backwards[e] == b;
        assert(extended(g, p[k - 1], level[i], e, next));
        assert(put_before(shorter, b) =~= q);
    }
}

/// Finds every path that ends at `pos` and spells `phrase`.
fn backward_match<'b>(phrase: &Vec<&str>, lattice: &Lattice<'b>, pos: usize) -> (result: Vec<
    Vec<(&'b str, usize)>,
>)
    requires
        lattice.wf(),
        pos < lattice@.len(),
    ensures
        forall|i: int|
            0 <= i < result.len() ==> is_match(
                lattice@,
                tokens_view(phrase@),
                edges_view(#[trigger] result[i]@),
            ),
        forall|path: Seq<EdgeView>| #[trigger]
            is_match(lattice@, tokens_view(phrase@), path) && path.last().1 == pos ==> found(
                paths_view(result@),
                path,
            ),
{
    let ghost g = lattice@;
    let ghost p = tokens_view(phrase@);
    proof {
        lattice.lemma_valid();
        reveal_strlit("");
        assert(""@ =~= no_token());
    }
    let mut level: Vec<Vec<(&'b str, usize)>> = Vec::new();
    let mut init_path: Vec<(&'b str, usize)> = Vec::new();
    init_path.push(("", pos));
    level.push(init_path);
    let mut k: usize = phrase.len();
    proof {
        assert forall|path: Seq<EdgeView>| #[trigger]
            spells_suffix(g, p, k as int, path) && path.last().1 == pos implies found(
            paths_view(level@),
            path,
        ) by {
            assert(paths_view(level@)[0] =~= path);
        }
    }
    while k > 0
        invariant
            g == lattice@,
            p == tokens_view(phrase@),
            lattice.wf(),
            valid_nodes(g),
            k <= phrase.len(),
            all_spell_suffix(g, p, k as int, level@),
            level_complete(g, p, k as int, pos as int, paths_view(level@)),
        decreases k,
    {
        let tok = phrase[k - 1];
        assert(p[k - 1] == tok@);
        let mut next: Vec<Vec<(&'b str, usize)>> = Vec::new();
        let mut idx: usize = 0;
        let ghost lv = paths_view(level@);
        while idx < level.len()
            invariant
                g == lattice@,
                p == tokens_view(phrase@),
                lattice.wf(),
                valid_nodes(g),
                1 <= k <= phrase.len(),
                p[k - 1] == tok@,
                idx <= level.len(),
                lv == paths_view(level@),
                all_spell_suffix(g, p, k as int, level@),
                all_spell_suffix(g, p, k as int - 1, next@),
                all_extended(g, tok@, lv, idx as int, paths_view(next@)),
            decreases level.len() - idx,
        {
            let path = &level[idx];
            let ghost pv = edges_view(path@);
            assert(spells_suffix(g, p, k as int, pv));
            assert(pv[0] == edge_view(path@[0]));
            assert(lv[idx as int] == pv);
            let node_id = path[0].1;
            let node = lattice.node(node_id);
            let mut e: usize = 0;
            while e < node.backwards.len()
                invariant
                    g == lattice@,
                    valid_nodes(g),
                    1 <= k <= p.len(),
                    p[k - 1] == tok@,
                    pv == edges_view(path@),
                    spells_suffix(g, p, k as int, pv),
                    node_id == path[0].1,
                    node_id < g.len(),
                    node@ == g[node_id as int],
                    e <= node.backwards.len(),
                    idx < level.len(),
                    lv == paths_view(level@),
                    lv[idx as int] == pv,
                    all_spell_suffix(g, p, k as int - 1, next@),
                    all_extended(g, tok@, lv, idx as int, paths_view(next@)),
                    forall|f: int| 0 <= f < e ==> #[trigger] extended(g, tok@, pv, f, paths_view(next@)),
                decreases node.backwards.len() - e,
            {
                let (edge_str, edge_target) = node.backwards[e];
                assert(g[node_id as int].backwards[e as int] == (edge_str@, edge_target as int));
                if token_eq(edge_str, tok) {
                    proof {
                        assert(node_linked(g, node_id as int));
                        assert(backward_edge_ok(
                            g,
                            node_id as int,
                            g[node_id as int].backwards[e as int],
                        ));
                    }
                    let new_path = prepend(path, edge_str, edge_target);
                    proof {
                        lemma_prepend(
                            g,
                            p,
                            k as int,
                            pv,
                            edge_target as int,
                            edges_view(new_path@),
                        );
                    }
                    let ghost n0 = next@;
                    next.push(new_path);
                    proof {
                        assert forall|i: int| 0 <= i < next.len() implies spells_suffix(
                            g,
                            p,
                            k as int - 1,
                            edges_view(#[trigger] next[i]@),
                        ) by {
                            if i < n0.len() {
                                assert(next[i] == n0[i]);
                            }
                        }
                        let nv0 = paths_view(n0);
                        let nv = paths_view(next@);
                        let added = edges_view(new_path@);
                        assert(nv =~= nv0.push(added));
                        assert forall|i: int, f: int|
                            0 <= i < idx && 0 <= f < g[lv[i][0].1].backwards.len() implies #[trigger] extended(
                            g,
                            tok@,
                            lv[i],
                            f,
                            nv,
                        ) by {
                            assert(extended(g, tok@, lv[i], f, nv0));
                            let b = g[lv[i][0].1].backwards[f];
                            lemma_found_push(nv0, added, put_before(lv[i], b));
                        }
                        assert forall|f: int| 0 <= f < e + 1 implies #[trigger] extended(
                            g,
                            tok@,
                            pv,
                            f,
                            nv,
                        ) by {
                            let b = g[pv[0].1].backwards[f];
                            if f < e {
                                assert(extended(g, tok@, pv, f, nv0));
                            }
                            lemma_found_push(nv0, added, put_before(pv, b));
                        }
                    }
                }
                e += 1;
            }
            idx += 1;
        }
        proof {
            lemma_level_step(g, p, k as int, pos as int, lv, paths_view(next@));
        }
        level = next;
        k -= 1;
    }
    proof {
        assert forall|i: int| 0 <= i < level.len() implies is_match(
            g,
            p,
            edges_view(#[trigger] level[i]@),
        ) by {
            lemma_suffix_is_match(g, p, edges_view(level[i]@));
        }
        assert forall|path: Seq<EdgeView>| #[trigger]
            is_match(g, p, path) && path.last().1 == pos implies found(
            paths_view(level@),
            path,
        ) by {
            assert forall|t: int| 1 <= t < path.len() implies #[trigger] hop_ok(
                g,
                p,
                0,
                path,
                t,
            ) by {
                assert(step_ok(g, p, path, t));
            }
            assert(spells_suffix(g, p, 0, path));
        }
    }
    level
}

/// The list `r1` begins with the list `r0`.
pub open spec fn extends(r0: Seq<Seq<EdgeView>>, r1: Seq<Seq<EdgeView>>) -> bool {
    r0.len() <= r1.len() && forall|i: int| 0 <= i < r0.len() ==> #[trigger] r1[i] == r0[i]
}

/// A longer list holds what the shorter held.
proof fn lemma_found_extends(r0: Seq<Seq<EdgeView>>, r1: Seq<Seq<EdgeView>>, x: Seq<EdgeView>)
    requires
        extends(r0, r1),
        found(r0, x),
    ensures
        found(r1, x),
{
    let r = choose|r: int| 0 <= r < r0.len() && #[trigger] r0[r] == x;
    assert(r1[r] == x);
}

/// Every occurrence of `p` that ends at node `x` is one of `results`.
pub open spec fn phrase_reported(
    g: Seq<NodeView>,
    p: Seq<Seq<char>>,
    x: int,
    results: Seq<Seq<EdgeView>>,
) -> bool {
    forall|path: Seq<EdgeView>| #[trigger]
        is_match(g, p, path) && path.last().1 == x ==> found(results, path)
}

/// Every occurrence that ends at node `x` of a phrase that state `s` reports
/// is one of `results`.
pub open spec fn pair_reported(
    a: Seq<StateView>,
    g: Seq<NodeView>,
    patterns: Seq<Seq<Seq<char>>>,
    results: Seq<Seq<EdgeView>>,
    x: int,
    s: int,
) -> bool {
    forall|k: int|
        0 <= k < a[s].matched.len() ==> phrase_reported(
            g,
            patterns[#[trigger] a[s].matched[k]],
            x,
            results,
        )
}

/// Every edge out of node `x` was followed from state `s`.
pub open spec fn pair_scanned(
    a: Seq<StateView>,
    g: Seq<NodeView>,
    cache: Seq<Vec<usize>>,
    x: int,
    s: int,
) -> bool {
    forall|k: int| 0 <= k < g[x].forwards.len() ==> #[trigger] seen_next(a, g, cache, x, s, k)
}

/// Whatever was seen is dealt with or waits in the queue, and so does the
/// source in the root state.
pub open spec fn pairs_kept(
    cache: Seq<Vec<usize>>,
    queue: Seq<(usize, usize)>,
    done: Set<(int, int)>,
) -> bool {
    &&& done.contains((0int, 0int)) || queue.contains((0usize, 0usize))
    &&& forall|x: int, s: usize|
        0 <= x < cache.len() && #[trigger] cache[x]@.contains(s) ==> done.contains((x, s as int))
            || queue.contains((x as usize, s))
}

/// Node `x` in state `s` is dealt with: its edges were followed and the
/// occurrences that end there are among the results.
pub open spec fn pair_done(
    a: Seq<StateView>,
    g: Seq<NodeView>,
    patterns: Seq<Seq<Seq<char>>>,
    cache: Seq<Vec<usize>>,
    results: Seq<Seq<EdgeView>>,
    x: int,
    s: int,
) -> bool {
    &&& 0 <= x < g.len()
    &&& 0 <= s < a.len()
    &&& pair_scanned(a, g, cache, x, s)
    &&& pair_reported(a, g, patterns, results, x, s)
}

/// Every pair of `done` is dealt with.
pub open spec fn all_done(
    a: Seq<StateView>,
    g: Seq<NodeView>,
    patterns: Seq<Seq<Seq<char>>>,
    cache: Seq<Vec<usize>>,
    results: Seq<Seq<EdgeView>>,
    done: Set<(int, int)>,
) -> bool {
    forall|x: int, s: int| #[trigger]
        done.contains((x, s)) ==> pair_done(a, g, patterns, cache, results, x, s)
}

/// One more pair is dealt with.
proof fn lemma_search_step(
    a: Seq<StateView>,
    g: Seq<NodeView>,
    patterns: Seq<Seq<Seq<char>>>,
    c0: Seq<Vec<usize>>,
    c1: Seq<Vec<usize>>,
    q0: Seq<(usize, usize)>,
    q1: Seq<(usize, usize)>,
    r0: Seq<Seq<EdgeView>>,
    r1: Seq<Seq<EdgeView>>,
    done: Set<(int, int)>,
)
    requires
        q0.len() > 0,
        c0.len() == g.len(),
        g.len() <= usize::MAX,
        q0[0].0 < g.len(),
        q0[0].1 < a.len(),
        pairs_kept(c0, q0, done),
        all_done(a, g, patterns, c0, r0, done),
        scanned(
            a,
            g,
            c0,
            c1,
            q0.subrange(1, q0.len() as int),
            q1,
            q0[0].0 as int,
            q0[0].1 as int,
            g[q0[0].0 as int].forwards.len() as int,
        ),
        extends(r0, r1),
        pair_reported(a, g, patterns, r1, q0[0].0 as int, q0[0].1 as int),
    ensures
        pairs_kept(c1, q1, done.insert((q0[0].0 as int, q0[0].1 as int))),
        all_done(a, g, patterns, c1, r1, done.insert((q0[0].0 as int, q0[0].1 as int))),
{
    let x0 = q0[0].0 as int;
    let s0 = q0[0].1 as int;
    let rest = q0.subrange(1, q0.len() as int);
    let d1 = done.insert((x0, s0));
    assert forall|y: (usize, usize)| q0.contains(y) implies y == q0[0] || q1.contains(y) by {
        let i = choose|i: int| 0 <= i < q0.len() && q0[i] == y;
        if i > 0 {
            assert(rest[i - 1] == y);
            assert(q1[i - 1] == rest[i - 1]);
        }
    }
    assert(d1.contains((0int, 0int)) || q1.contains((0usize, 0usize))) by {
        if q0.contains((0usize, 0usize)) {
        }
    }
    assert forall|x: int, s: usize| 0 <= x < c1.len() && #[trigger] c1[x]@.contains(s) implies d1.contains(
        (x, s as int),
    ) || q1.contains((x as usize, s)) by {
        if c0[x]@.contains(s) {
            if q0.contains((x as usize, s)) {
                if (x as usize, s) == q0[0] {
                    assert((x, s as int) == (x0, s0));
                }
            }
        }
    }
    assert forall|x: int, s: int| #[trigger] d1.contains((x, s)) implies pair_done(
        a,
        g,
        patterns,
        c1,
        r1,
        x,
        s,
    ) by {
        if (x, s) == (x0, s0) {
        } else {
            assert(done.contains((x, s)));
            assert(pair_done(a, g, patterns, c0, r0, x, s));
            assert forall|k: int| 0 <= k < g[x].forwards.len() implies #[trigger] seen_next(
                a,
                g,
                c1,
                x,
                s,
                k,
            ) by {
                assert(seen_next(a, g, c0, x, s, k));
                let e = g[x].forwards[k];
                let t = choose|t: usize|
                    t as int == next_state(a, s, e.0) && #[trigger] c0[e.1]@.contains(t);
                assert(c1[e.1]@.contains(t));
            }
            assert forall|k: int| 0 <= k < a[s].matched.len() implies phrase_reported(
                g,
                patterns[#[trigger] a[s].matched[k]],
                x,
                r1,
            ) by {
                let p = patterns[a[s].matched[k]];
                assert(phrase_reported(g, p, x, r0));
                assert forall|path: Seq<EdgeView>| #[trigger]
                    is_match(g, p, path) && path.last().1 == x implies found(r1, path) by {
                    lemma_found_extends(r0, r1, path);
                }
            }
        }
    }
}

/// The tokens of a walk.
pub open spec fn words_of(w: Seq<EdgeView>) -> Seq<Seq<char>> {
    Seq::new((w.len() - 1) as nat, |t: int| w[t + 1].0)
}

/// When the queue has run empty, the end of every walk from the source was
/// dealt with in the state that the automaton is in after the walk's tokens.
proof fn lemma_walk_done(
    a: Seq<StateView>,
    g: Seq<NodeView>,
    patterns: Seq<Seq<Seq<char>>>,
    cache: Seq<Vec<usize>>,
    results: Seq<Seq<EdgeView>>,
    done: Set<(int, int)>,
    w: Seq<EdgeView>,
)
    requires
        cache.len() == g.len(),
        pairs_kept(cache, Seq::empty(), done),
        all_done(a, g, patterns, cache, results, done),
        walk_ok(g, w),
    ensures
        done.contains((w.last().1, run(a, words_of(w)))),
    decreases w.len(),
{
    let empty = Seq::<(usize, usize)>::empty();
    assert(!empty.contains((0usize, 0usize)));
    if w.len() == 1 {
        assert(words_of(w) =~= Seq::empty());
    } else {
        let w0 = w.drop_last();
        assert forall|t: int| 1 <= t < w0.len() implies #[trigger] link_ok(g, w0, t) by {
            assert(link_ok(g, w, t));
        }
        lemma_walk_done(a, g, patterns, cache, results, done, w0);
        let x = w0.last().1;
        let s = run(a, words_of(w0));
        assert(pair_done(a, g, patterns, cache, results, x, s));
        let e = w.last();
        assert(link_ok(g, w, w.len() - 1));
        let k = choose|k: int| 0 <= k < g[x].forwards.len() && #[trigger] g[x].forwards[k] == e;
        assert(seen_next(a, g, cache, x, s, k));
        let t = choose|t: usize|
            t as int == next_state(a, s, e.0) && #[trigger] cache[e.1]@.contains(t);
        assert(!empty.contains((e.1 as usize, t)));
        assert(words_of(w).drop_last() =~= words_of(w0));
        assert(words_of(w).last() == e.0);
    }
}

/// When the queue has run empty, every occurrence of a phrase is among the
/// results.
proof fn lemma_search_complete(
    a: Seq<StateView>,
    g: Seq<NodeView>,
    patterns: Seq<Seq<Seq<char>>>,
    cache: Seq<Vec<usize>>,
    results: Seq<Seq<EdgeView>>,
    done: Set<(int, int)>,
    path: Seq<EdgeView>,
)
    requires
        valid_nodes(g),
        automaton_full(a, patterns),
        phrases_ok(patterns),
        cache.len() == g.len(),
        pairs_kept(cache, Seq::empty(), done),
        all_done(a, g, patterns, cache, results, done),
        matches_some(g, patterns, path),
    ensures
        found(results, path),
{
    let i = choose|i: int| 0 <= i < patterns.len() && is_match(g, #[trigger] patterns[i], path);
    let p = patterns[i];
    let m = p.len() as int;
    let w0 = lemma_reach(g, path[0].1);
    lemma_walk_to_match(g, p, w0, path);
    let w = w0 + path.drop_first();
    lemma_walk_done(a, g, patterns, cache, results, done, w);
    let words = words_of(w);
    let s = run(a, words);
    assert(is_suffix(p, words)) by {
        assert forall|t: int| 0 <= t < p.len() implies p[t] == #[trigger] from_end(words, m, t) by {
            assert(nth_back(w, m, t).0 == p[t]);
        }
    }
    lemma_run_reports(a, patterns, words, i);
    assert(w.last() == path.last());
    assert(pair_done(a, g, patterns, cache, results, w.last().1, s));
    let k = choose|k: int| 0 <= k < a[s].matched.len() && a[s].matched[k] == i;
    assert(phrase_reported(g, patterns[a[s].matched[k]], w.last().1, results));
}

impl<'a> LatticeSearcher<'a> {
    /// The phrases that are searched for.
    pub closed spec fn patterns(&self) -> Seq<Seq<Seq<char>>> {
        group_view(self.patterns@)
    }

    /// The automaton fits the phrases: where no phrase is empty, it is
    /// their automaton.
    pub closed spec fn wf(&self) -> bool {
        &&& automaton_ok(states_view(self.pma@), self.patterns@.len() as int)
        &&& phrases_ok(group_view(self.patterns@)) ==> automaton_full(
            states_view(self.pma@),
            group_view(self.patterns@),
        )
    }

    /// Prepares a set of phrases for searching.
    pub fn new(patterns: Vec<Vec<&'a str>>) -> (searcher: LatticeSearcher<'a>)
        ensures
            searcher.wf(),
            searcher.patterns() == group_view(patterns@),
    {
        let ghost n = patterns.len() as int;
        let ghost list = group_view(patterns@);
        let mut pma: Vec<PMANode<'a>> = Vec::new();
        pma.push(new_state(Ghost(Seq::empty())));
        let mut i: usize = 0;
        proof {
            lemma_root_building(states_view(pma@));
            assert(list.take(0) =~= Seq::empty());
        }
        while i < patterns.len()
            invariant
                n == patterns.len(),
                list == group_view(patterns@),
                i <= patterns.len(),
                building(states_view(pma@), list.take(i as int)),
            decreases patterns.len() - i,
        {
            add_phrase(&mut pma, &patterns[i], i, Ghost(list.take(i as int)));
            proof {
                assert(list.take(i as int).push(tokens_view(patterns[i as int]@)) =~= list.take(
                    i as int + 1,
                ));
            }
            i += 1;
        }
        proof {
            assert(list.take(n) =~= list);
        }
        build_fallbacks(&mut pma, Ghost(list));
        LatticeSearcher { pma, patterns }
    }

    /// Adds to `result` the occurrences that end at `node` of the phrases
    /// that `state` reports.
    fn report_matches<'b>(
        &self,
        lattice: &Lattice<'b>,
        node: usize,
        state: usize,
        result: &mut Vec<Vec<(&'b str, usize)>>,
    )
        requires
            self.wf(),
            lattice.wf(),
            node < lattice@.len(),
            state < self.pma.len(),
            forall|k: int|
                0 <= k < old(result).len() ==> matches_some(
                    lattice@,
                    self.patterns(),
                    edges_view(#[trigger] old(result)[k]@),
                ),
        ensures
            forall|k: int|
                0 <= k < final(result).len() ==> matches_some(
                    lattice@,
                    self.patterns(),
                    edges_view(#[trigger] final(result)[k]@),
                ),
            extends(paths_view(old(result)@), paths_view(final(result)@)),
            pair_reported(
                states_view(self.pma@),
                lattice@,
                self.patterns(),
                paths_view(final(result)@),
                node as int,
                state as int,
            ),
    {
        let ghost g = lattice@;
        let ghost a = states_view(self.pma@);
        let ghost n_patterns = self.patterns.len() as int;
        let ghost r0 = paths_view(result@);
        let mut mi: usize = 0;
        assert(a[state as int] == self.pma@[state as int]@);
        while mi < self.pma[state].matched.len()
            invariant
                self.wf(),
                lattice.wf(),
                g == lattice@,
                n_patterns == self.patterns.len(),
                a == states_view(self.pma@),
                state < self.pma.len(),
                a[state as int] == self.pma@[state as int]@,
                node < g.len(),
                mi <= self.pma[state as int].matched.len(),
                extends(r0, paths_view(result@)),
                forall|k: int|
                    0 <= k < result.len() ==> matches_some(
                        g,
                        self.patterns(),
                        edges_view(#[trigger] result[k]@),
                    ),
                forall|k: int|
                    0 <= k < mi ==> phrase_reported(
                        g,
                        self.patterns()[#[trigger] a[state as int].matched[k]],
                        node as int,
                        paths_view(result@),
                    ),
            decreases self.pma[state as int].matched.len() - mi,
        {
            let phrase_id = self.pma[state].matched[mi];
            proof {
                assert(state_ok(a, state as int, n_patterns));
                assert(a[state as int].matched[mi as int] == phrase_id);
            }
            let phrase = &self.patterns[phrase_id];
            let found_paths = backward_match(phrase, lattice, node);
            let ghost r1 = paths_view(result@);
            let ghost p = tokens_view(phrase@);
            assert(self.patterns()[phrase_id as int] == p);
            let mut fi: usize = 0;
            while fi < found_paths.len()
                invariant
                    g == lattice@,
                    phrase_id < self.patterns.len(),
                    self.patterns()[phrase_id as int] == p,
                    fi <= found_paths.len(),
                    extends(r1, paths_view(result@)),
                    forall|i: int|
                        0 <= i < found_paths.len() ==> is_match(
                            g,
                            p,
                            edges_view(#[trigger] found_paths[i]@),
                        ),
                    forall|k: int|
                        0 <= k < result.len() ==> matches_some(
                            g,
                            self.patterns(),
                            edges_view(#[trigger] result[k]@),
                        ),
                    forall|f: int|
                        0 <= f < fi ==> found(
                            paths_view(result@),
                            #[trigger] paths_view(found_paths@)[f],
                        ),
                decreases found_paths.len() - fi,
            {
                let path = copy_path(&found_paths[fi]);
                let ghost before = result@;
                result.push(path);
                proof {
                    let rv0 = paths_view(before);
                    let rv = paths_view(result@);
                    let added = edges_view(path@);
                    assert(rv =~= rv0.push(added));
                    assert(paths_view(found_paths@)[fi as int] == added);
                    assert forall|k: int| 0 <= k < result.len() implies matches_some(
                        g,
                        self.patterns(),
                        edges_view(#[trigger] result[k]@),
                    ) by {
                        if k < before.len() {
                            assert(result[k] == before[k]);
                        } else {
                            assert(is_match(
                                g,
                                self.patterns()[phrase_id as int],
                                edges_view(result[k]@),
                            ));
                        }
                    }
                    assert forall|f: int| 0 <= f < fi + 1 implies found(
                        rv,
                        #[trigger] paths_view(found_paths@)[f],
                    ) by {
                        lemma_found_push(rv0, added, paths_view(found_paths@)[f]);
                    }
                }
                fi += 1;
            }
            proof {
                let rv = paths_view(result@);
                let fv = paths_view(found_paths@);
                assert forall|path: Seq<EdgeView>| #[trigger]
                    is_match(g, p, path) && path.last().1 == node implies found(rv, path) by {
                    assert(found(fv, path));
                    let f = choose|f: int| 0 <= f < fv.len() && #[trigger] fv[f] == path;
                    assert(found(rv, fv[f]));
                }
                assert forall|k: int| 0 <= k < mi implies phrase_reported(
                    g,
                    self.patterns()[#[trigger] a[state as int].matched[k]],
                    node as int,
                    rv,
                ) by {
                    let q = self.patterns()[a[state as int].matched[k]];
                    assert(phrase_reported(g, q, node as int, r1));
                    assert forall|path: Seq<EdgeView>| #[trigger]
                        is_match(g, q, path) && path.last().1 == node implies found(rv, path) by {
                        lemma_found_extends(r1, rv, path);
                    }
                }
            }
            mi += 1;
        }
    }

    /// Finds the occurrences of the phrases in a lattice. Each is given as a
    /// path: a start mark with the node where it begins, then the edges that
    /// spell one of the phrases. Where no phrase is empty, every occurrence
    /// is found.
    pub fn search<'b>(&self, lattice: &Lattice<'b>) -> (result: Vec<Vec<(&'b str, usize)>>)
        requires
            self.wf(),
            lattice.wf(),
        ensures
            forall|k: int|
                0 <= k < result.len() ==> matches_some(
                    lattice@,
                    self.patterns(),
                    edges_view(#[trigger] result[k]@),
                ),
            phrases_ok(self.patterns()) ==> forall|path: Seq<EdgeView>| #[trigger]
                matches_some(lattice@, self.patterns(), path) ==> found(
                    paths_view(result@),
                    path,
                ),
    {
        let ghost g = lattice@;
        let ghost states = self.pma.len() as int;
        let ghost n_patterns = self.patterns.len() as int;
        let ghost a = states_view(self.pma@);
        proof {
            lattice.lemma_valid();
            lemma_valid_in_range(g);
        }
        let nodes = lattice.nodes();
        let n = nodes.len();
        let mut state_id_cache = empty_caches(n);
        let mut queue: VecDeque<(usize, usize)> = VecDeque::new();
        queue.push_back((0, 0));
        let mut result: Vec<Vec<(&'b str, usize)>> = Vec::new();
        let ghost mut done: Set<(int, int)> = Set::empty();
        proof {
            lemma_total_len_bound(state_id_cache@, states);
            assert(queue@[0] == (0usize, 0usize));
        }
        while queue.len() > 0
            invariant
                self.wf(),
                lattice.wf(),
                g == lattice@,
                valid_nodes(g),
                crate::node::nodes_in_range(g),
                crate::node::nodes_view(nodes@) == g,
                n == nodes.len(),
                states == self.pma.len(),
                n_patterns == self.patterns.len(),
                a == states_view(self.pma@),
                state_id_cache.len() == n,
                caches_ok(state_id_cache@, states),
                queue_ok(queue@, n as int, states),
                total_len(state_id_cache@) <= n * states,
                pairs_kept(state_id_cache@, queue@, done),
                all_done(a, g, self.patterns(), state_id_cache@, paths_view(result@), done),
                forall|k: int|
                    0 <= k < result.len() ==> matches_some(
                        g,
                        self.patterns(),
                        edges_view(#[trigger] result[k]@),
                    ),
            decreases 2 * (n * states - total_len(state_id_cache@)) + queue@.len(),
        {
            let ghost q0 = queue@;
            let ghost c0 = state_id_cache@;
            let ghost r0 = paths_view(result@);
            let (lattice_node_id, pma_state_id) = queue.pop_front().unwrap();
            assert(queue@ =~= q0.subrange(1, q0.len() as int));
            scan_edges(
                &self.pma,
                Ghost(n_patterns),
                nodes,
                &mut state_id_cache,
                &mut queue,
                lattice_node_id,
                pma_state_id,
            );
            proof {
                lemma_total_len_bound(state_id_cache@, states);
            }
            self.report_matches(lattice, lattice_node_id, pma_state_id, &mut result);
            proof {
                lemma_search_step(
                    a,
                    g,
                    self.patterns(),
                    c0,
                    state_id_cache@,
                    q0,
                    queue@,
                    r0,
                    paths_view(result@),
                    done,
                );
                done = done.insert((lattice_node_id as int, pma_state_id as int));
            }
        }
        proof {
            if phrases_ok(self.patterns()) {
                assert(queue@ =~= Seq::empty());
                assert forall|path: Seq<EdgeView>| #[trigger]
                    matches_some(g, self.patterns(), path) implies found(
                    paths_view(result@),
                    path,
                ) by {
                    lemma_search_complete(
                        a,
                        g,
                        self.patterns(),
                        state_id_cache@,
                        paths_view(result@),
                        done,
                        path,
                    );
                }
            }
        }
        result
    }
}

} // verus!
