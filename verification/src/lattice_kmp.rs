//! Search for a phrase in a lattice: every path that spells the phrase is
//! found by scanning the lattice breadth first with the phrase's table of
//! borders.

use vstd::prelude::*;
use crate::edge::{EdgeView, edge_view, edges_view, edge_eq};
use crate::lattice::{Lattice, valid_nodes, node_linked, forward_edge_ok};
use crate::node::NodeView;
use crate::token::{token_eq, tokens_view};
use crate::kmp_walks::{
    ItemView, advance_ok, shape, seen_ok, has_candidate, edge_covered, item_done, grows, found,
    represents, covered, walk_ok, ends_with, match_path, walks_covered, matches_found, done_upto,
    lemma_child, lemma_same_candidate, lemma_edge_covered_grows, lemma_item_done_grows,
    lemma_next_level, lemma_complete,
};
use crate::trunk::no_token;

verus! {

/// The first `k` tokens of `p` are also the last `k` of its first `i + 1`
/// tokens, and `k` is not all of them: `k` is a border of `p[0..=i]`.
pub open spec fn is_border(p: Seq<Seq<char>>, i: int, k: int) -> bool {
    &&& 0 <= k <= i
    &&& forall|t: int| 0 <= t < k ==> p[t] == #[trigger] p[i + 1 - k + t]
}

/// `k` is the longest border of `p[0..=i]`.
pub open spec fn longest_border(p: Seq<Seq<char>>, i: int, k: int) -> bool {
    &&& is_border(p, i, k)
    &&& forall|m: int| k < m <= i ==> !is_border(p, i, m)
}

/// A border that is followed by the next token grows by one.
proof fn lemma_border_extend(p: Seq<Seq<char>>, i: int, j: int)
    requires
        1 <= i < p.len(),
        is_border(p, i - 1, j),
        p[j] == p[i],
    ensures
        is_border(p, i, j + 1),
{
    assert forall|t: int| 0 <= t < j + 1 implies p[t] == #[trigger] p[i + 1 - (j + 1) + t] by {
        if t < j {
            assert(p[t] == p[(i - 1) + 1 - j + t]);
        }
    }
}

/// A border without its last token is a border of what came before.
proof fn lemma_border_shrink(p: Seq<Seq<char>>, i: int, m: int)
    requires
        1 <= i < p.len(),
        1 <= m,
        is_border(p, i, m),
    ensures
        is_border(p, i - 1, m - 1),
        p[m - 1] == p[i],
{
    assert(p[m - 1] == p[i + 1 - m + (m - 1)]);
    assert forall|t: int| 0 <= t < m - 1 implies p[t] == #[trigger] p[(i - 1) + 1 - (m - 1) + t] by {
        assert(p[t] == p[i + 1 - m + t]);
    }
}

/// Within a border, the shorter borders are the borders of the border.
pub proof fn lemma_border_of_border(p: Seq<Seq<char>>, i: int, j: int, m: int)
    requires
        0 <= i < p.len(),
        1 <= j,
        is_border(p, i, j),
        0 <= m < j,
    ensures
        is_border(p, i, m) <==> is_border(p, j - 1, m),
{
    if is_border(p, i, m) {
        assert forall|t: int| 0 <= t < m implies p[t] == #[trigger] p[(j - 1) + 1 - m + t] by {
            assert(p[t] == p[i + 1 - m + t]);
            assert(p[j - m + t] == p[i + 1 - j + (j - m + t)]);
        }
    }
    if is_border(p, j - 1, m) {
        assert forall|t: int| 0 <= t < m implies p[t] == #[trigger] p[i + 1 - m + t] by {
            assert(p[t] == p[(j - 1) + 1 - m + t]);
            assert(p[j - m + t] == p[i + 1 - j + (j - m + t)]);
        }
    }
}

/// A phrase prepared for searching.
pub struct LatticeKMP<'a> {
    pub(crate) pattern: Vec<&'a str>,
    pub(crate) cpattern: Vec<usize>,
}

impl<'a> LatticeKMP<'a> {
    /// The phrase that is searched for.
    pub closed spec fn pattern(&self) -> Seq<Seq<char>> {
        tokens_view(self.pattern@)
    }

    /// The table of borders: for every place of the phrase, the length of the
    /// longest border of the phrase up to that place.
    pub closed spec fn borders(&self) -> Seq<int> {
        Seq::new(self.cpattern@.len(), |i: int| self.cpattern@[i] as int)
    }

    /// The table fits the phrase.
    pub open spec fn wf(&self) -> bool {
        &&& self.borders().len() == (if self.pattern().len() == 0 {
            1
        } else {
            self.pattern().len() as int
        })
        &&& self.borders()[0] == 0
        &&& forall|i: int|
            0 <= i < self.pattern().len() ==> longest_border(
                self.pattern(),
                i,
                #[trigger] self.borders()[i],
            )
    }

    /// The number of tokens of the phrase.
    pub fn len(&self) -> (n: usize)
        ensures
            n == self.pattern().len(),
    {
        self.pattern.len()
    }

    /// Prepares a phrase for searching.
    pub fn new(pattern: Vec<&'a str>) -> (kmp: LatticeKMP<'a>)
        ensures
            kmp.wf(),
            kmp.pattern() == tokens_view(pattern@),
    {
        let ghost p = tokens_view(pattern@);
        let mut cpattern: Vec<usize> = Vec::new();
        cpattern.push(0);
        let mut i: usize = 1;
        while i < pattern.len()
            invariant
                p == tokens_view(pattern@),
                1 <= i,
                i <= pattern.len() || (pattern.len() == 0 && i == 1),
                cpattern.len() == i,
                cpattern[0] == 0,
                forall|k: int| 0 <= k < i && k < p.len() ==> longest_border(p, k, #[trigger] cpattern[k] as int),
            decreases pattern.len() - i,
        {
            let mut j: usize = cpattern[i - 1];
            assert(longest_border(p, i - 1, cpattern[i - 1] as int));
            while j > 0 && !token_eq(pattern[j], pattern[i])
                invariant
                    p == tokens_view(pattern@),
                    1 <= i < pattern.len(),
                    cpattern.len() == i,
                    forall|k: int| 0 <= k < i ==> longest_border(p, k, #[trigger] cpattern[k] as int),
                    is_border(p, i - 1, j as int),
                    forall|m: int| j < m <= i - 1 && is_border(p, i - 1, m) ==> p[m] != p[i as int],
                decreases j,
            {
                let ghost j0 = j as int;
                assert(p[j0] == pattern@[j0]@);
                assert(p[i as int] == pattern@[i as int]@);
                assert(longest_border(p, j0 - 1, cpattern[j0 - 1] as int));
                j = cpattern[j - 1];
                proof {
                    lemma_border_of_border(p, i - 1, j0, j as int);
                    assert forall|m: int| j < m <= i - 1 && is_border(p, i - 1, m) implies p[m]
                        != p[i as int] by {
                        if m < j0 {
                            lemma_border_of_border(p, i - 1, j0, m);
                        }
                    }
                }
            }
            assert(p[j as int] == pattern@[j as int]@);
            assert(p[i as int] == pattern@[i as int]@);
            let next = if token_eq(pattern[j], pattern[i]) {
                proof {
                    lemma_border_extend(p, i as int, j as int);
                }
                j + 1
            } else {
                j
            };
            proof {
                assert forall|m: int| next < m <= i implies !is_border(p, i as int, m) by {
                    if is_border(p, i as int, m) {
                        lemma_border_shrink(p, i as int, m);
                    }
                }
                if next == j {
                    assert(is_border(p, i as int, 0));
                }
            }
            cpattern.push(next);
            i += 1;
        }
        let kmp = LatticeKMP { pattern, cpattern };
        proof {
            assert(kmp.pattern().len() == p.len());
            assert(kmp.borders().len() == kmp.cpattern@.len());
            assert(kmp.borders()[0] == 0);
            assert forall|i: int| 0 <= i < kmp.pattern().len() implies longest_border(
                kmp.pattern(),
                i,
                #[trigger] kmp.borders()[i],
            ) by {
                assert(longest_border(p, i, cpattern[i] as int));
            }
        }
        kmp
    }
}

/// Entry `t` of a walk is an edge out of the node before it and carries the
/// token of `p` at its place.
pub open spec fn step_ok(g: Seq<NodeView>, p: Seq<Seq<char>>, s: Seq<EdgeView>, t: int) -> bool {
    &&& s[t].0 == p[t - 1]
    &&& 0 <= s[t - 1].1 < g.len()
    &&& 0 <= s[t].1 < g.len()
    &&& g[s[t - 1].1].forwards.contains(s[t])
}

/// A start node and the edges of a walk from it that spell the first tokens
/// of `p`: `s[0]` names the start node, and every later entry is an edge out
/// of the node before it with the token of `p` at its place.
pub open spec fn spells_prefix(g: Seq<NodeView>, p: Seq<Seq<char>>, s: Seq<EdgeView>) -> bool {
    &&& 1 <= s.len() <= p.len() + 1
    &&& 0 <= s[0].1 < g.len()
    &&& forall|t: int| 1 <= t < s.len() ==> #[trigger] step_ok(g, p, s, t)
}

/// `path` is an occurrence of `p` in the lattice: a start mark with the node
/// where it begins, then one edge for every token of `p`, each out of the
/// node before it.
pub open spec fn is_match(g: Seq<NodeView>, p: Seq<Seq<char>>, path: Seq<EdgeView>) -> bool {
    &&& path.len() == p.len() + 1
    &&& path[0].0 == no_token()
    &&& spells_prefix(g, p, path)
}

/// The last `j + 1` entries of a candidate.
pub open spec fn tail(cand: Seq<EdgeView>, j: int) -> Seq<EdgeView> {
    cand.subrange(cand.len() - j - 1, cand.len() as int)
}

/// An entry of the search queue is in order: the scan stands at `node` with
/// the first `j` tokens of `p` matched, and the candidate ends with the walk
/// that matches them.
pub open spec fn item_ok(
    g: Seq<NodeView>,
    p: Seq<Seq<char>>,
    node: int,
    j: int,
    cand: Seq<EdgeView>,
) -> bool {
    &&& 0 <= j < p.len()
    &&& cand.len() >= j + 1
    &&& spells_prefix(g, p, tail(cand, j))
    &&& cand.last().1 == node
}

/// The candidate for the next node: a start mark at the node where the last
/// `j - 1` edges of `cand` begin, these edges, and the edge `e`.
pub open spec fn next_candidate(cand: Seq<EdgeView>, j: int, e: EdgeView) -> Seq<EdgeView> {
    let k = if j >= 1 {
        cand.len() - (j - 1)
    } else {
        cand.len() as int
    };
    seq![(no_token(), cand[k - 1].1)] + cand.subrange(k, cand.len() as int) + seq![e]
}

/// Every node named by a matched walk is a node of the lattice.
proof fn lemma_prefix_in_range(g: Seq<NodeView>, p: Seq<Seq<char>>, s: Seq<EdgeView>, t: int)
    requires
        spells_prefix(g, p, s),
        0 <= t < s.len(),
    ensures
        0 <= s[t].1 < g.len(),
{
    if t >= 1 {
        assert(step_ok(g, p, s, t));
    }
}

/// Following an edge with the next token of `p` extends a matched walk, also
/// where only a border of what was matched is kept.
proof fn lemma_next_candidate(
    g: Seq<NodeView>,
    p: Seq<Seq<char>>,
    node: int,
    j: int,
    cand: Seq<EdgeView>,
    j1: int,
    e: EdgeView,
)
    requires
        item_ok(g, p, node, j, cand),
        0 <= node < g.len(),
        g[node].forwards.contains(e),
        0 <= e.1 < g.len(),
        1 <= j1 <= j + 1,
        e.0 == p[j1 - 1],
        j1 - 1 == j || is_border(p, j - 1, j1 - 1),
    ensures
        next_candidate(cand, j1, e).len() == j1 + 1,
        next_candidate(cand, j1, e)[0].0 == no_token(),
        next_candidate(cand, j1, e).last() == e,
        spells_prefix(g, p, next_candidate(cand, j1, e)),
{
    let c = next_candidate(cand, j1, e);
    let s = tail(cand, j);
    let len = cand.len() as int;
    let k = len - (j1 - 1);
    let off = j - j1 + 1;
    assert(c.len() == j1 + 1);
    assert(s[j] == cand[len - 1]);
    assert(cand[k - 1] == s[off]);
    lemma_prefix_in_range(g, p, s, off);
    assert(c[0].1 == s[off].1);
    assert forall|t: int| 1 <= t < c.len() implies #[trigger] step_ok(g, p, c, t) by {
        if t < j1 {
            assert(c[t] == cand[k + t - 1]);
            assert(cand[k + t - 1] == s[off + t]);
            assert(step_ok(g, p, s, off + t));
            if off != 0 {
                assert(p[t - 1] == p[(j - 1) + 1 - (j1 - 1) + (t - 1)]);
            }
            if t >= 2 {
                assert(c[t - 1] == cand[k + t - 2]);
                assert(cand[k + t - 2] == s[off + t - 1]);
            }
        } else {
            assert(c[t] == e);
            if t >= 2 {
                assert(c[t - 1] == cand[len - 1]);
            }
        }
    }
}

/// Following an edge that does not go on with `p` starts afresh at the
/// edge's end.
proof fn lemma_next_candidate_none(
    g: Seq<NodeView>,
    p: Seq<Seq<char>>,
    node: int,
    j: int,
    cand: Seq<EdgeView>,
    e: EdgeView,
)
    requires
        item_ok(g, p, node, j, cand),
        0 <= e.1 < g.len(),
    ensures
        item_ok(g, p, e.1, 0, next_candidate(cand, 0, e)),
{
    let c = next_candidate(cand, 0, e);
    assert(c.len() == 2);
    assert(tail(c, 0) =~= seq![e]);
}

/// After an occurrence, the walk that matches the longest border of `p`
/// is kept.
proof fn lemma_slide(g: Seq<NodeView>, p: Seq<Seq<char>>, c: Seq<EdgeView>, j: int)
    requires
        is_match(g, p, c),
        p.len() >= 1,
        is_border(p, p.len() - 1, j),
    ensures
        item_ok(g, p, c.last().1, j, tail(c, j)),
{
    let s = tail(c, j);
    let n = p.len() as int;
    assert(tail(s, j) =~= s);
    lemma_prefix_in_range(g, p, c, n - j);
    assert(s[0] == c[n - j]);
    assert forall|t: int| 1 <= t < s.len() implies #[trigger] step_ok(g, p, s, t) by {
        assert(s[t] == c[n - j + t]);
        assert(s[t - 1] == c[n - j + t - 1]);
        assert(step_ok(g, p, c, n - j + t));
        assert(p[t - 1] == p[(n - 1) + 1 - j + (t - 1)]);
    }
}

/// Whether two paths are the same.
fn path_eq(a: &Vec<(&str, usize)>, b: &Vec<(&str, usize)>) -> (r: bool)
    ensures
        r == (edges_view(a@) == edges_view(b@)),
{
    if a.len() != b.len() {
        assert(edges_view(a@).len() != edges_view(b@).len());
        return false;
    }
    let mut i: usize = 0;
    while i < a.len()
        invariant
            a.len() == b.len(),
            i <= a.len(),
            forall|k: int| 0 <= k < i ==> edges_view(a@)[k] == edges_view(b@)[k],
        decreases a.len() - i,
    {
        if !edge_eq(a[i], b[i]) {
            assert(edges_view(a@)[i as int] != edges_view(b@)[i as int]);
            return false;
        }
        i += 1;
    }
    assert(edges_view(a@) =~= edges_view(b@));
    true
}

/// Whether a list of paths holds the path `x`.
fn paths_contain(v: &Vec<Vec<(&str, usize)>>, x: &Vec<(&str, usize)>) -> (r: bool)
    ensures
        r == exists|k: int| 0 <= k < v.len() && edges_view(#[trigger] v[k]@) == edges_view(x@),
{
    let mut i: usize = 0;
    while i < v.len()
        invariant
            i <= v.len(),
            forall|k: int| 0 <= k < i ==> edges_view(#[trigger] v[k]@) != edges_view(x@),
        decreases v.len() - i,
    {
        if path_eq(&v[i], x) {
            return true;
        }
        i += 1;
    }
    false
}

/// Copies a path.
pub fn copy_path<'b>(v: &Vec<(&'b str, usize)>) -> (r: Vec<(&'b str, usize)>)
    ensures
        r@ == v@,
{
    let mut out: Vec<(&'b str, usize)> = Vec::new();
    let mut i: usize = 0;
    while i < v.len()
        invariant
            i <= v.len(),
            out@ == v@.take(i as int),
        decreases v.len() - i,
    {
        out.push(v[i]);
        assert(v@.take(i as int + 1) =~= v@.take(i as int).push(v@[i as int]));
        i += 1;
    }
    assert(v@.take(v.len() as int) =~= v@);
    out
}

/// The last `keep` entries of a path.
fn path_tail<'b>(v: &Vec<(&'b str, usize)>, keep: usize) -> (r: Vec<(&'b str, usize)>)
    requires
        keep <= v.len(),
    ensures
        r@ == v@.subrange(v.len() - keep, v.len() as int),
{
    let mut out: Vec<(&'b str, usize)> = Vec::new();
    let start = v.len() - keep;
    let mut i: usize = start;
    while i < v.len()
        invariant
            start <= i <= v.len(),
            out@ == v@.subrange(start as int, i as int),
        decreases v.len() - i,
    {
        out.push(v[i]);
        assert(v@.subrange(start as int, i as int + 1) =~= v@.subrange(start as int, i as int).push(
            v@[i as int],
        ));
        i += 1;
    }
    out
}

/// Makes the candidate for the next node.
fn make_candidate<'b>(candidate: &Vec<(&'b str, usize)>, j: usize, edge: (&'b str, usize)) -> (r: Vec<
    (&'b str, usize),
>)
    requires
        1 <= candidate.len(),
        j <= candidate.len(),
    ensures
        edges_view(r@) == next_candidate(edges_view(candidate@), j as int, edge_view(edge)),
{
    let ghost cv = edges_view(candidate@);
    let keep = if j >= 1 {
        j - 1
    } else {
        0
    };
    let k = candidate.len() - keep;
    let mut new_candidate: Vec<(&'b str, usize)> = Vec::new();
    proof {
        reveal_strlit("");
        assert(""@ =~= no_token());
        assert(cv[k - 1] == edge_view(candidate@[k - 1]));
    }
    new_candidate.push(("", candidate[k - 1].1));
    assert(edges_view(new_candidate@) =~= seq![(no_token(), cv[k - 1].1)] + cv.subrange(
        k as int,
        k as int,
    ));
    let mut t: usize = k;
    while t < candidate.len()
        invariant
            cv == edges_view(candidate@),
            1 <= k <= t <= candidate.len(),
            edges_view(new_candidate@) == seq![(no_token(), cv[k - 1].1)] + cv.subrange(
                k as int,
                t as int,
            ),
        decreases candidate.len() - t,
    {
        let ghost before = edges_view(new_candidate@);
        new_candidate.push(candidate[t]);
        proof {
            assert(cv[t as int] == edge_view(candidate@[t as int]));
            assert(edges_view(new_candidate@) =~= before.push(cv[t as int]));
            assert(before.push(cv[t as int]) =~= seq![(no_token(), cv[k - 1].1)] + cv.subrange(
                k as int,
                t as int + 1,
            ));
        }
        t += 1;
    }
    let ghost before = edges_view(new_candidate@);
    new_candidate.push(edge);
    proof {
        assert(edges_view(new_candidate@) =~= before.push(edge_view(edge)));
        assert(before.push(edge_view(edge)) =~= next_candidate(cv, j as int, edge_view(edge)));
    }
    new_candidate
}

/// Every entry of a level is in order and stands at a node that is at least
/// `d` edges away from the source.
pub open spec fn level_ok<'b>(
    g: Seq<NodeView>,
    p: Seq<Seq<char>>,
    level: Seq<(usize, usize, Vec<(&'b str, usize)>)>,
    d: int,
) -> bool {
    forall|k: int|
        0 <= k < level.len() ==> d <= (#[trigger] level[k]).0 < g.len() && item_ok(
            g,
            p,
            level[k].0 as int,
            level[k].1 as int,
            edges_view(level[k].2@),
        )
}

/// Every path of the list is an occurrence of `p`.
pub open spec fn all_matches<'b>(
    g: Seq<NodeView>,
    p: Seq<Seq<char>>,
    results: Seq<Vec<(&'b str, usize)>>,
) -> bool {
    forall|k: int| 0 <= k < results.len() ==> is_match(g, p, edges_view(#[trigger] results[k]@))
}

/// No path occurs twice in the list.
pub open spec fn no_repeats(paths: Seq<Seq<EdgeView>>) -> bool {
    forall|a: int, b: int| 0 <= a < b < paths.len() ==> paths[a] != paths[b]
}

/// A list of paths as plain values.
pub open spec fn paths_view<'b>(v: Seq<Vec<(&'b str, usize)>>) -> Seq<Seq<EdgeView>> {
    Seq::new(v.len(), |i: int| edges_view(v[i]@))
}

/// A queue entry as a plain value.
pub open spec fn item_view<'b>(x: (usize, usize, Vec<(&'b str, usize)>)) -> ItemView {
    (x.0 as int, x.1 as int, edges_view(x.2@))
}

/// `i` is one of the ids.
pub open spec fn in_ids(ids: Seq<int>, i: int) -> bool {
    exists|k: int| 0 <= k < ids.len() && #[trigger] ids[k] == i
}

/// The entries of a level are the entries that were queued after `d` steps:
/// `ids` says which entry of `seen` each is.
pub open spec fn level_link<'b>(
    level: Seq<(usize, usize, Vec<(&'b str, usize)>)>,
    ids: Seq<int>,
    seen: Seq<ItemView>,
    lev: Seq<int>,
    d: int,
) -> bool {
    &&& ids.len() == level.len()
    &&& forall|k: int|
        0 <= k < ids.len() ==> 0 <= #[trigger] ids[k] < seen.len() && seen[ids[k]] == item_view(
            level[k],
        ) && lev[ids[k]] == d
    &&& forall|i: int| 0 <= i < seen.len() && #[trigger] lev[i] == d ==> in_ids(ids, i)
}

/// The candidate made behind an edge has the shape of a candidate.
proof fn lemma_shape(p: Seq<Seq<char>>, j0: int, cand: Seq<EdgeView>, e: EdgeView, j1: int)
    requires
        p.len() >= 1,
        0 <= j0,
        cand.len() >= j0 + 1,
        advance_ok(p, j0, e.0, j1),
    ensures
        j1 < p.len() ==> shape(p, j1, next_candidate(cand, j1, e)),
{
    if j1 == 0 {
        let c = next_candidate(cand, 0, e);
        assert(c.len() == 2);
        assert(c[1] == e);
        if j0 >= 1 {
            assert(is_border(p, j0 - 1, 0));
        }
        assert(e.0 != p[1 - 1]);
    }
}

/// What holds of the queue entries stays true as entries and results are
/// added.
proof fn lemma_grows(
    g: Seq<NodeView>,
    p: Seq<Seq<char>>,
    seen: Seq<ItemView>,
    lev: Seq<int>,
    results: Seq<Seq<EdgeView>>,
    seen1: Seq<ItemView>,
    lev1: Seq<int>,
    results1: Seq<Seq<EdgeView>>,
    d: int,
)
    requires
        lev.len() == seen.len(),
        lev1.len() == seen1.len(),
        grows(seen, seen1),
        grows(lev, lev1),
        grows(results, results1),
        forall|i: int| seen.len() <= i < seen1.len() ==> #[trigger] lev1[i] == d + 1,
        walks_covered(g, p, seen, lev, d),
        matches_found(g, p, results, d),
        done_upto(g, p, seen, lev, results, d - 1),
    ensures
        walks_covered(g, p, seen1, lev1, d),
        matches_found(g, p, results1, d),
        done_upto(g, p, seen1, lev1, results1, d - 1),
{
    let m = p.len() as int;
    assert forall|w: Seq<EdgeView>| #[trigger] walk_ok(g, w) && w.len() - 1 <= d implies exists|
        i: int,
    | 0 <= i < seen1.len() && represents(p, w, #[trigger] seen1[i]) && lev1[i] <= w.len() - 1 by {
        let i = choose|i: int|
            0 <= i < seen.len() && represents(p, w, #[trigger] seen[i]) && lev[i] <= w.len() - 1;
        assert(seen1[i] == seen[i] && lev1[i] == lev[i]);
    }
    assert forall|w: Seq<EdgeView>|
        #[trigger] walk_ok(g, w) && w.len() - 1 <= d && ends_with(p, w, m) implies found(
        results1,
        match_path(w, m),
    ) by {
        let r = choose|r: int| 0 <= r < results.len() && #[trigger] results[r] == match_path(w, m);
        assert(results1[r] == results[r]);
    }
    assert forall|i: int| 0 <= i < seen1.len() && lev1[i] <= d - 1 implies item_done(
        g,
        p,
        #[trigger] seen1[i],
        seen1,
        results1,
    ) by {
        if i < seen.len() {
            assert(seen1[i] == seen[i] && lev1[i] == lev[i]);
            lemma_item_done_grows(g, p, seen[i], seen, results, seen1, results1);
        }
    }
}

impl<'a> LatticeKMP<'a> {
    /// The number of tokens of `p` that are matched after `tok`, where `j0`
    /// were matched before it.
    fn advance(&self, j0: usize, tok: &str) -> (j: usize)
        requires
            self.wf(),
            j0 < self.pattern().len(),
        ensures
            advance_ok(self.pattern(), j0 as int, tok@, j as int),
    {
        let ghost p = self.pattern();
        let mut j: usize = j0;
        while j > 0 && !token_eq(tok, self.pattern[j])
            invariant
                p == self.pattern(),
                self.wf(),
                j <= j0 < p.len(),
                p.len() == self.pattern.len(),
                j == j0 || is_border(p, j0 - 1, j as int),
                forall|k: int|
                    #![trigger p[k - 1]]
                    j + 1 < k <= j0 + 1 && (k - 1 == j0 || is_border(p, j0 - 1, k - 1)) ==> tok@
                        != p[k - 1],
            decreases j,
        {
            let ghost j_old = j as int;
            assert(p[j_old] == self.pattern@[j_old]@);
            assert(longest_border(p, j_old - 1, self.borders()[j_old - 1]));
            j = self.cpattern[j - 1];
            proof {
                assert(self.borders()[j_old - 1] == j);
                if j_old != j0 {
                    lemma_border_of_border(p, j0 - 1, j_old, j as int);
                }
                assert forall|k: int|
                    #![trigger p[k - 1]]
                    j + 1 < k <= j0 + 1 && (k - 1 == j0 || is_border(p, j0 - 1, k - 1)) implies tok@
                    != p[k - 1] by {
                    if k - 1 < j_old {
                        if j_old != j0 {
                            lemma_border_of_border(p, j0 - 1, j_old, k - 1);
                        }
                        assert(is_border(p, j_old - 1, k - 1));
                    }
                }
            }
        }
        assert(p[j as int] == self.pattern@[j as int]@);
        if token_eq(tok, self.pattern[j]) {
            j += 1;
        }
        j
    }

    /// Follows one edge out of the node of a queue entry: records the
    /// occurrence that the edge completes, unless it is recorded, and queues
    /// the entry for the
    /// edge's end unless its candidate was queued before. Says whether it
    /// queued the entry.
    fn follow<'b>(
        &self,
        Ghost(g): Ghost<Seq<NodeView>>,
        Ghost(d): Ghost<int>,
        Ghost(seen): Ghost<Seq<ItemView>>,
        node_id: usize,
        j0: usize,
        candidate: &Vec<(&'b str, usize)>,
        edge: (&'b str, usize),
        results: &mut Vec<Vec<(&'b str, usize)>>,
        added_candidates: &mut Vec<Vec<(&'b str, usize)>>,
        next_level: &mut Vec<(usize, usize, Vec<(&'b str, usize)>)>,
    ) -> (pushed: bool)
        requires
            self.wf(),
            valid_nodes(g),
            d <= node_id < g.len(),
            item_ok(g, self.pattern(), node_id as int, j0 as int, edges_view(candidate@)),
            g[node_id as int].forwards.contains(edge_view(edge)),
            all_matches(g, self.pattern(), old(results)@),
            no_repeats(paths_view(old(results)@)),
            level_ok(g, self.pattern(), old(next_level)@, d + 1),
            seen_ok(g, self.pattern(), seen, paths_view(old(added_candidates)@)),
        ensures
            all_matches(g, self.pattern(), final(results)@),
            no_repeats(paths_view(final(results)@)),
            level_ok(g, self.pattern(), final(next_level)@, d + 1),
            grows(paths_view(old(results)@), paths_view(final(results)@)),
            pushed ==> final(next_level)@.len() == old(next_level)@.len() + 1 && grows(
                old(next_level)@,
                final(next_level)@,
            ),
            !pushed ==> final(next_level)@ == old(next_level)@,
            ({
                let seen1 = if pushed {
                    seen.push(item_view(final(next_level)@.last()))
                } else {
                    seen
                };
                &&& seen_ok(g, self.pattern(), seen1, paths_view(final(added_candidates)@))
                &&& edge_covered(
                    g,
                    self.pattern(),
                    (node_id as int, j0 as int, edges_view(candidate@)),
                    edge_view(edge),
                    seen1,
                    paths_view(final(results)@),
                )
            }),
    {
        let ghost p = self.pattern();
        let ghost cv = edges_view(candidate@);
        let ghost ev = edge_view(edge);
        let ghost x: ItemView = (node_id as int, j0 as int, cv);
        let ghost r0 = results@;
        let ghost a0 = added_candidates@;
        let ghost l0 = next_level@;
        proof {
            assert(node_linked(g, node_id as int));
            let ke = choose|ke: int|
                0 <= ke < g[node_id as int].forwards.len() && g[node_id as int].forwards[ke] == ev;
            assert(forward_edge_ok(g, node_id as int, g[node_id as int].forwards[ke]));
        }
        let m = self.pattern.len();
        let j1 = self.advance(j0, edge.0);
        let mut j = j1;
        let mut new_candidate = make_candidate(candidate, j, edge);
        let ghost c1 = edges_view(new_candidate@);
        proof {
            if j >= 1 {
                lemma_next_candidate(g, p, node_id as int, j0 as int, cv, j as int, ev);
            } else {
                lemma_next_candidate_none(g, p, node_id as int, j0 as int, cv, ev);
            }
            lemma_shape(p, j0 as int, cv, ev, j1 as int);
        }
        if j == m {
            if !paths_contain(results, &new_candidate) {
                results.push(copy_path(&new_candidate));
                proof {
                    assert forall|k: int| 0 <= k < results.len() implies is_match(
                        g,
                        p,
                        edges_view(#[trigger] results[k]@),
                    ) by {
                        if k < r0.len() {
                            assert(results[k] == r0[k]);
                        }
                    }
                    let rv = paths_view(results@);
                    assert forall|a: int, b: int| 0 <= a < b < rv.len() implies rv[a] != rv[b] by {
                        assert(rv[a] == paths_view(r0)[a]);
                        if b < r0.len() {
                            assert(rv[b] == paths_view(r0)[b]);
                        } else {
                            assert(rv[b] == c1);
                            assert(edges_view(r0[a]@) != c1);
                        }
                    }
                    assert(rv[r0.len() as int] == c1);
                }
            } else {
                proof {
                    let k = choose|k: int|
                        0 <= k < r0.len() && edges_view(#[trigger] r0[k]@) == c1;
                    assert(paths_view(r0)[k] == c1);
                }
            }
            proof {
                assert(found(paths_view(results@), c1));
                assert(longest_border(p, m - 1, self.borders()[m - 1]));
            }
            j = self.cpattern[j - 1];
            proof {
                assert(self.borders()[m - 1] == j);
                lemma_slide(g, p, edges_view(new_candidate@), j as int);
            }
            new_candidate = path_tail(&new_candidate, j + 1);
            proof {
                assert(edges_view(new_candidate@) =~= tail(c1, j as int));
            }
        } else {
            proof {
                let c = edges_view(new_candidate@);
                if j >= 1 {
                    assert(tail(c, j as int) =~= c);
                }
            }
        }
        let ghost c2 = edges_view(new_candidate@);
        let ghost child: ItemView = (edge.1 as int, j as int, c2);
        assert(j1 == m ==> found(paths_view(results@), c1));
        assert(item_ok(g, p, edge.1 as int, j as int, c2));
        assert(shape(p, j as int, c2));
        assert(grows(paths_view(r0), paths_view(results@))) by {
            assert forall|i: int| 0 <= i < paths_view(r0).len() implies paths_view(r0)[i]
                == paths_view(results@)[i] by {
                assert(results@[i] == r0[i]);
            }
        }
        let dup = paths_contain(added_candidates, &new_candidate);
        let pushed = !dup;
        if pushed {
            added_candidates.push(copy_path(&new_candidate));
            next_level.push((edge.1, j, new_candidate));
            proof {
                assert forall|k: int| 0 <= k < next_level.len() implies d + 1 <= (
                #[trigger] next_level[k]).0 < g.len() && item_ok(
                    g,
                    p,
                    next_level[k].0 as int,
                    next_level[k].1 as int,
                    edges_view(next_level[k].2@),
                ) by {
                    if k < l0.len() {
                        assert(next_level[k] == l0[k]);
                    }
                }
            }
        }
        proof {
            let seen1 = if pushed {
                seen.push(child)
            } else {
                seen
            };
            let added1 = paths_view(added_candidates@);
            let results1 = paths_view(results@);
            assert(pushed ==> item_view(next_level@.last()) == child);
            assert forall|k: int| 0 <= k < added1.len() implies has_candidate(
                seen1,
                #[trigger] added1[k],
            ) by {
                if k < a0.len() {
                    assert(added1[k] == paths_view(a0)[k]);
                    assert(has_candidate(seen, paths_view(a0)[k]));
                    let i = choose|i: int| 0 <= i < seen.len() && (#[trigger] seen[i]).2 == added1[k];
                    assert(seen1[i] == seen[i]);
                } else {
                    assert(seen1[seen.len() as int].2 == added1[k]);
                }
            }
            assert forall|i: int| 0 <= i < seen1.len() implies item_ok(
                g,
                p,
                (#[trigger] seen1[i]).0,
                seen1[i].1,
                seen1[i].2,
            ) && shape(p, seen1[i].1, seen1[i].2) && 0 <= seen1[i].0 < g.len() by {
                if i < seen.len() {
                    assert(seen1[i] == seen[i]);
                }
            }
            // an entry with the candidate of the child, where the child was not queued
            let twin = if pushed {
                seen.len() as int
            } else {
                let k = choose|k: int|
                    0 <= k < a0.len() && edges_view(#[trigger] a0[k]@) == c2;
                assert(paths_view(a0)[k] == c2);
                assert(has_candidate(seen, paths_view(a0)[k]));
                choose|i: int| 0 <= i < seen.len() && (#[trigger] seen[i]).2 == c2
            };
            assert(0 <= twin < seen1.len() && seen1[twin].2 == c2);
            lemma_same_candidate(g, p, seen1[twin], child);
            assert(seen1[twin] == child);
            assert forall|w: Seq<EdgeView>| #[trigger] represents(p, w, x) && walk_ok(
                g,
                w,
            ) implies covered(p, w.push(ev), seen1) && (ends_with(p, w.push(ev), m as int)
                ==> found(results1, match_path(w.push(ev), m as int))) by {
                lemma_child(g, p, w, x, ev, j1 as int, j as int, c2);
                assert(represents(p, w.push(ev), seen1[twin]));
                if ends_with(p, w.push(ev), m as int) {
                    assert(j1 == m);
                    assert(found(results1, c1));
                }
            }
        }
        pushed
    }

    /// Finds the occurrences of the phrase in a lattice. Each is given as a
    /// path: a start mark with the node where it begins, then the edges that
    /// spell the phrase. Every path of the result is an occurrence, every
    /// occurrence is in the result, and none is there twice. The phrase must
    /// not be empty.
    pub fn search<'b>(&self, lattice: &Lattice<'b>) -> (results: Vec<Vec<(&'b str, usize)>>)
        requires
            self.wf(),
            self.pattern().len() > 0,
            lattice.wf(),
        ensures
            all_matches(lattice@, self.pattern(), results@),
            forall|path: Seq<EdgeView>|
                #[trigger] is_match(lattice@, self.pattern(), path) ==> found(
                    paths_view(results@),
                    path,
                ),
            no_repeats(paths_view(results@)),
    {
        let ghost g = lattice@;
        let ghost p = self.pattern();
        proof {
            lattice.lemma_valid();
        }
        let n = lattice.size();
        let mut added_candidates: Vec<Vec<(&'b str, usize)>> = Vec::new();
        let mut results: Vec<Vec<(&'b str, usize)>> = Vec::new();
        let mut level: Vec<(usize, usize, Vec<(&'b str, usize)>)> = Vec::new();
        let mut first: Vec<(&'b str, usize)> = Vec::new();
        first.push(("", 0));
        proof {
            reveal_strlit("");
            assert(""@ =~= no_token());
            let c = edges_view(first@);
            assert(tail(c, 0) =~= c);
        }
        let ghost c0 = edges_view(first@);
        level.push((0, 0, first));
        let ghost mut seen: Seq<ItemView> = seq![(0int, 0int, c0)];
        let ghost mut lev: Seq<int> = seq![0int];
        let ghost mut ids: Seq<int> = seq![0int];
        let mut d: usize = 0;
        proof {
            assert(item_view(level@[0]) == seen[0]);
            assert(c0 =~= seq![(no_token(), 0int)]);
            assert forall|w: Seq<EdgeView>| #[trigger] walk_ok(g, w) && w.len() - 1 <= 0 implies exists|
                i: int,
            | 0 <= i < seen.len() && represents(p, w, #[trigger] seen[i]) && lev[i] <= w.len() - 1 by {
                assert(w =~= seq![(no_token(), 0int)]);
                assert(ends_with(p, w, 0));
                assert(represents(p, w, seen[0]));
            }
            assert(in_ids(ids, 0)) by {
                assert(ids[0] == 0);
            }
        }
        while level.len() > 0
            invariant
                g == lattice@,
                p == self.pattern(),
                self.wf(),
                lattice.wf(),
                valid_nodes(g),
                p.len() > 0,
                n == g.len(),
                level_ok(g, p, level@, d as int),
                all_matches(g, p, results@),
                no_repeats(paths_view(results@)),
                seen_ok(g, p, seen, paths_view(added_candidates@)),
                lev.len() == seen.len(),
                forall|i: int| 0 <= i < seen.len() ==> #[trigger] lev[i] <= d,
                level_link(level@, ids, seen, lev, d as int),
                done_upto(g, p, seen, lev, paths_view(results@), d - 1),
                walks_covered(g, p, seen, lev, d as int),
                matches_found(g, p, paths_view(results@), d as int),
            decreases n - d,
        {
            proof {
                assert(d <= level[0].0 < g.len());
            }
            let mut next_level: Vec<(usize, usize, Vec<(&'b str, usize)>)> = Vec::new();
            let ghost mut next_ids: Seq<int> = Seq::empty();
            let mut idx: usize = 0;
            while idx < level.len()
                invariant
                    g == lattice@,
                    p == self.pattern(),
                    self.wf(),
                    lattice.wf(),
                    valid_nodes(g),
                    p.len() > 0,
                    n == g.len(),
                    d < n,
                    idx <= level.len(),
                    level_ok(g, p, level@, d as int),
                    level_ok(g, p, next_level@, d as int + 1),
                    all_matches(g, p, results@),
                    no_repeats(paths_view(results@)),
                    seen_ok(g, p, seen, paths_view(added_candidates@)),
                    lev.len() == seen.len(),
                    forall|i: int| 0 <= i < seen.len() ==> #[trigger] lev[i] <= d + 1,
                    level_link(level@, ids, seen, lev, d as int),
                    level_link(next_level@, next_ids, seen, lev, d as int + 1),
                    done_upto(g, p, seen, lev, paths_view(results@), d - 1),
                    walks_covered(g, p, seen, lev, d as int),
                    matches_found(g, p, paths_view(results@), d as int),
                    forall|k: int|
                        0 <= k < idx ==> item_done(
                            g,
                            p,
                            seen[#[trigger] ids[k]],
                            seen,
                            paths_view(results@),
                        ),
                decreases level.len() - idx,
            {
                let node_id = level[idx].0;
                let j0 = level[idx].1;
                let candidate = &level[idx].2;
                let ghost x: ItemView = item_view(level@[idx as int]);
                assert(item_ok(g, p, node_id as int, j0 as int, edges_view(candidate@)));
                assert(seen[ids[idx as int]] == x);
                let node = lattice.node(node_id);
                let count = if node.forward_main.is_some() {
                    node.forwards.len()
                } else {
                    proof {
                        assert(node_linked(g, node_id as int));
                    }
                    0
                };
                assert(count == g[node_id as int].forwards.len());
                let mut e: usize = 0;
                while e < count
                    invariant
                        g == lattice@,
                        p == self.pattern(),
                        self.wf(),
                        valid_nodes(g),
                        p.len() > 0,
                        idx < level.len(),
                        d <= node_id < g.len(),
                        node@ == g[node_id as int],
                        count == g[node_id as int].forwards.len(),
                        candidate == &level[idx as int].2,
                        x == item_view(level@[idx as int]),
                        x == (node_id as int, j0 as int, edges_view(candidate@)),
                        item_ok(g, p, node_id as int, j0 as int, edges_view(candidate@)),
                        e <= count,
                        level_ok(g, p, next_level@, d as int + 1),
                        all_matches(g, p, results@),
                        no_repeats(paths_view(results@)),
                        seen_ok(g, p, seen, paths_view(added_candidates@)),
                        lev.len() == seen.len(),
                        forall|i: int| 0 <= i < seen.len() ==> #[trigger] lev[i] <= d + 1,
                        level_link(level@, ids, seen, lev, d as int),
                        level_link(next_level@, next_ids, seen, lev, d as int + 1),
                        done_upto(g, p, seen, lev, paths_view(results@), d - 1),
                        walks_covered(g, p, seen, lev, d as int),
                        matches_found(g, p, paths_view(results@), d as int),
                        forall|k: int|
                            0 <= k < idx ==> item_done(
                                g,
                                p,
                                seen[#[trigger] ids[k]],
                                seen,
                                paths_view(results@),
                            ),
                        forall|k: int|
                            0 <= k < e ==> edge_covered(
                                g,
                                p,
                                x,
                                #[trigger] g[node_id as int].forwards[k],
                                seen,
                                paths_view(results@),
                            ),
                    decreases count - e,
                {
                    let edge = node.forwards[e];
                    let ghost ev = edge_view(edge);
                    proof {
                        assert(g[node_id as int].forwards[e as int] == ev);
                    }
                    let ghost seen0 = seen;
                    let ghost next_ids0 = next_ids;
                    let ghost lev0 = lev;
                    let ghost results0 = paths_view(results@);
                    let ghost next0 = next_level@;
                    let pushed = self.follow(
                        Ghost(g),
                        Ghost(d as int),
                        Ghost(seen),
                        node_id,
                        j0,
                        candidate,
                        edge,
                        &mut results,
                        &mut added_candidates,
                        &mut next_level,
                    );
                    proof {
                        if pushed {
                            seen = seen0.push(item_view(next_level@.last()));
                            lev = lev0.push(d as int + 1);
                            next_ids = next_ids.push(seen0.len() as int);
                        }
                        let results1 = paths_view(results@);
                        assert(grows(seen0, seen));
                        assert(grows(lev0, lev));
                        lemma_grows(g, p, seen0, lev0, results0, seen, lev, results1, d as int);
                        assert forall|k: int| 0 <= k < idx implies item_done(
                            g,
                            p,
                            seen[#[trigger] ids[k]],
                            seen,
                            results1,
                        ) by {
                            assert(seen[ids[k]] == seen0[ids[k]]);
                            lemma_item_done_grows(g, p, seen0[ids[k]], seen0, results0, seen, results1);
                        }
                        assert forall|k: int| 0 <= k < e + 1 implies edge_covered(
                            g,
                            p,
                            x,
                            #[trigger] g[node_id as int].forwards[k],
                            seen,
                            results1,
                        ) by {
                            if k < e {
                                lemma_edge_covered_grows(
                                    g,
                                    p,
                                    x,
                                    g[node_id as int].forwards[k],
                                    seen0,
                                    results0,
                                    seen,
                                    results1,
                                );
                            }
                        }
                        // the links of both levels
                        assert forall|k: int| 0 <= k < ids.len() implies 0 <= #[trigger] ids[k]
                            < seen.len() && seen[ids[k]] == item_view(level@[k]) && lev[ids[k]]
                            == d by {
                            assert(seen[ids[k]] == seen0[ids[k]]);
                            assert(lev[ids[k]] == lev0[ids[k]]);
                        }
                        assert forall|i: int| 0 <= i < seen.len() && #[trigger] lev[i]
                            == d implies in_ids(ids, i) by {
                            assert(lev0[i] == lev[i]);
                        }
                        assert forall|k: int| 0 <= k < next_ids.len() implies 0
                            <= #[trigger] next_ids[k] < seen.len() && seen[next_ids[k]]
                            == item_view(next_level@[k]) && lev[next_ids[k]] == d + 1 by {
                            if k < next0.len() {
                                assert(next_level@[k] == next0[k]);
                                assert(seen[next_ids[k]] == seen0[next_ids[k]]);
                                assert(lev[next_ids[k]] == lev0[next_ids[k]]);
                            }
                        }
                        assert forall|i: int| 0 <= i < seen.len() && #[trigger] lev[i] == d
                            + 1 implies in_ids(next_ids, i) by {
                            if i < seen0.len() {
                                assert(lev0[i] == lev[i]);
                                assert(in_ids(next_ids0, i));
                                let k = choose|k: int|
                                    0 <= k < next_ids0.len() && #[trigger] next_ids0[k] == i;
                                assert(next_ids[k] == i);
                            } else {
                                assert(next_ids[next_ids.len() - 1] == i);
                            }
                        }
                        assert forall|i: int| 0 <= i < seen.len() implies #[trigger] lev[i] <= d
                            + 1 by {
                            if i < seen0.len() {
                                assert(lev[i] == lev0[i]);
                            }
                        }
                    }
                    e += 1;
                }
                proof {
                    assert forall|edge: EdgeView|
                        g[x.0].forwards.contains(edge) implies #[trigger] edge_covered(
                        g,
                        p,
                        x,
                        edge,
                        seen,
                        paths_view(results@),
                    ) by {
                        let k = choose|k: int|
                            0 <= k < g[x.0].forwards.len() && g[x.0].forwards[k] == edge;
                        assert(edge_covered(
                            g,
                            p,
                            x,
                            g[node_id as int].forwards[k],
                            seen,
                            paths_view(results@),
                        ));
                    }
                    assert(seen[ids[idx as int]] == x);
                }
                idx += 1;
            }
            proof {
                let results1 = paths_view(results@);
                assert forall|i: int| 0 <= i < seen.len() && lev[i] <= d implies item_done(
                    g,
                    p,
                    #[trigger] seen[i],
                    seen,
                    results1,
                ) by {
                    if lev[i] == d {
                        assert(in_ids(ids, i));
                        let k = choose|k: int| 0 <= k < ids.len() && #[trigger] ids[k] == i;
                        assert(item_done(g, p, seen[ids[k]], seen, results1));
                    }
                }
                lemma_next_level(g, p, seen, lev, results1, d as int);
                ids = next_ids;
            }
            level = next_level;
            d += 1;
        }
        proof {
            let results1 = paths_view(results@);
            assert forall|i: int| 0 <= i < seen.len() && lev[i] <= d implies item_done(
                g,
                p,
                #[trigger] seen[i],
                seen,
                results1,
            ) by {
                if lev[i] == d {
                    assert(in_ids(ids, i));
                }
            }
            assert forall|path: Seq<EdgeView>| #[trigger] is_match(g, p, path) implies found(
                paths_view(results@),
                path,
            ) by {
                lemma_complete(g, p, seen, lev, paths_view(results@), d as int, path);
            }
        }
        results
    }
}

} // verus!
