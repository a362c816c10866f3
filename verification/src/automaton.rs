//! The phrase automaton: a trie of the dictionary's phrases with fallback
//! links, which reports at each state the phrases that end there.

use vstd::prelude::*;
use crate::edge::{EdgeView, edges_view};
use crate::token::{token_eq, tokens_view};
use crate::trie::{
    building, trie_ok, has_label, in_trie, has_parent, owns_ok, reports_ok, fail_ok, upto_ok,
    rest_ok, phrases_ok, phrases_in_trie, longest_proper, below_state, is_suffix, proper_suffix,
    same_trie, in_list, level_state, automaton_full, lemma_child_label, lemma_parent,
    lemma_suffix_self, lemma_fallback_step, lemma_fallback_found, lemma_fallback_none,
    lemma_reports, lemma_same_trie, lemma_link_state, lemma_one_parent, lemma_first_level,
    lemma_no_deeper, lemma_lookup_unique, from_end,
};

verus! {

/// A state of the automaton.
pub struct PMANode<'a> {
    /// The transitions, one per token, in the order in which they were added.
    pub edges: Vec<(&'a str, usize)>,
    /// The state to fall back to.
    pub fail: usize,
    /// The ids of the phrases that end at this state.
    pub matched: Vec<usize>,
    /// The tokens on the state's path from the root.
    pub label: Ghost<Seq<Seq<char>>>,
}

/// A state as a plain value.
pub struct StateView {
    pub edges: Seq<EdgeView>,
    pub fail: int,
    pub matched: Seq<int>,
    pub label: Seq<Seq<char>>,
    pub depth: nat,
}

impl<'a> View for PMANode<'a> {
    type V = StateView;

    open spec fn view(&self) -> StateView {
        StateView {
            edges: edges_view(self.edges@),
            fail: self.fail as int,
            matched: Seq::new(self.matched@.len(), |i: int| self.matched@[i] as int),
            label: self.label@,
            depth: self.label@.len(),
        }
    }
}

pub open spec fn states_view<'a>(v: Seq<PMANode<'a>>) -> Seq<StateView> {
    Seq::new(v.len(), |i: int| v[i]@)
}

/// The target of the first transition for `tok` at or after place `i`.
pub open spec fn lookup_from(s: Seq<EdgeView>, tok: Seq<char>, i: int) -> Option<int>
    decreases s.len() - i,
{
    if i < 0 || i >= s.len() {
        None
    } else if s[i].0 == tok {
        Some(s[i].1)
    } else {
        lookup_from(s, tok, i + 1)
    }
}

/// The target of the transition for `tok`, if there is one.
pub open spec fn lookup(s: Seq<EdgeView>, tok: Seq<char>) -> Option<int> {
    lookup_from(s, tok, 0)
}

/// State `x` is sound: its links stay inside the automaton, its transitions
/// lead one step down to states made later, its fallback is nearer the root,
/// and the phrases it reports exist.
pub open spec fn state_ok(a: Seq<StateView>, x: int, phrases: int) -> bool {
    &&& 0 <= a[x].fail < a.len()
    &&& a[x].depth <= x
    &&& (x != 0 ==> a[a[x].fail].depth < a[x].depth)
    &&& forall|k: int|
        0 <= k < a[x].edges.len() ==> {
            let t = (#[trigger] a[x].edges[k]).1;
            x < t < a.len() && a[t].depth == a[x].depth + 1
        }
    &&& forall|k: int| 0 <= k < a[x].matched.len() ==> 0 <= #[trigger] a[x].matched[k] < phrases
}

/// The automaton is sound: it has a root, and every state is sound.
pub open spec fn automaton_ok(a: Seq<StateView>, phrases: int) -> bool {
    &&& a.len() >= 1
    &&& a[0].depth == 0
    &&& a[0].fail == 0
    &&& forall|x: int| 0 <= x < a.len() ==> #[trigger] state_ok(a, x, phrases)
}

/// The state reached from `state` on `tok`: the target of the transition for
/// `tok` at the first state on the fallback chain that has one, or the root.
pub open spec fn next_state(a: Seq<StateView>, state: int, tok: Seq<char>) -> int
    decreases a[state].depth,
{
    match lookup(a[state].edges, tok) {
        Some(t) => t,
        None => {
            if state != 0 && 0 <= a[state].fail < a.len() && a[a[state].fail].depth
                < a[state].depth {
                next_state(a, a[state].fail, tok)
            } else {
                0
            }
        },
    }
}

pub proof fn lemma_lookup_in_range(s: Seq<EdgeView>, tok: Seq<char>, i: int)
    requires
        0 <= i,
    ensures
        match lookup_from(s, tok, i) {
            Some(t) => exists|k: int| i <= k < s.len() && #[trigger] s[k] == (tok, t),
            None => forall|k: int| i <= k < s.len() ==> (#[trigger] s[k]).0 != tok,
        },
    decreases s.len() - i,
{
    if i < s.len() {
        if s[i].0 == tok {
            assert(s[i] == (tok, s[i].1));
        } else {
            lemma_lookup_in_range(s, tok, i + 1);
        }
    }
}

/// The next state is a state of the automaton.
pub proof fn lemma_next_state_in_range(a: Seq<StateView>, phrases: int, state: int, tok: Seq<char>)
    requires
        automaton_ok(a, phrases),
        0 <= state < a.len(),
    ensures
        0 <= next_state(a, state, tok) < a.len(),
    decreases a[state].depth,
{
    assert(state_ok(a, state, phrases));
    lemma_lookup_in_range(a[state].edges, tok, 0);
    match lookup(a[state].edges, tok) {
        Some(t) => {},
        None => {
            if state != 0 {
                lemma_next_state_in_range(a, phrases, a[state].fail, tok);
            }
        },
    }
}

/// Looks up the transition for `tok`.
pub fn edges_get(v: &Vec<(&str, usize)>, tok: &str) -> (r: Option<usize>)
    ensures
        match r {
            Some(t) => lookup(edges_view(v@), tok@) == Some(t as int),
            None => lookup(edges_view(v@), tok@).is_none(),
        },
{
    let ghost s = edges_view(v@);
    let mut i: usize = 0;
    while i < v.len()
        invariant
            i <= v.len(),
            s == edges_view(v@),
            lookup_from(s, tok@, i as int) == lookup(s, tok@),
        decreases v.len() - i,
    {
        let e = v[i];
        assert(s[i as int] == (e.0@, e.1 as int));
        if token_eq(e.0, tok) {
            return Some(e.1);
        }
        i += 1;
    }
    None
}

/// The state reached from `state_id` on `edge_str`.
pub fn next_pma_state_id(
    pma: &Vec<PMANode>,
    Ghost(phrases): Ghost<int>,
    state_id: usize,
    edge_str: &str,
) -> (r: usize)
    requires
        automaton_ok(states_view(pma@), phrases),
        state_id < pma.len(),
    ensures
        r as int == next_state(states_view(pma@), state_id as int, edge_str@),
        r < pma.len(),
{
    let ghost a = states_view(pma@);
    proof {
        lemma_next_state_in_range(a, phrases, state_id as int, edge_str@);
    }
    let mut next_state_id = state_id;
    loop
        invariant
            a == states_view(pma@),
            automaton_ok(a, phrases),
            next_state_id < pma.len(),
            0 <= next_state(a, state_id as int, edge_str@) < a.len(),
            next_state(a, next_state_id as int, edge_str@) == next_state(
                a,
                state_id as int,
                edge_str@,
            ),
        decreases a[next_state_id as int].depth,
    {
        assert(state_ok(a, next_state_id as int, phrases));
        assert(a[next_state_id as int] == pma@[next_state_id as int]@);
        if let Some(x) = edges_get(&pma[next_state_id].edges, edge_str) {
            return x;
        }
        if next_state_id == 0 {
            return 0;
        }
        next_state_id = pma[next_state_id].fail;
    }
}

/// A fresh state with the given label.
pub fn new_state<'a>(Ghost(label): Ghost<Seq<Seq<char>>>) -> (s: PMANode<'a>)
    ensures
        s@ == (StateView {
            edges: Seq::empty(),
            fail: 0,
            matched: Seq::empty(),
            label,
            depth: label.len(),
        }),
{
    let s = PMANode { edges: Vec::new(), fail: 0, matched: Vec::new(), label: Ghost(label) };
    assert(s@.edges =~= Seq::empty());
    assert(s@.matched =~= Seq::empty());
    s
}

/// The root alone is the automaton of no phrases.
pub proof fn lemma_root_building(a: Seq<StateView>)
    requires
        a.len() == 1,
        a[0] == (StateView {
            edges: Seq::empty(),
            fail: 0,
            matched: Seq::empty(),
            label: Seq::empty(),
            depth: 0,
        }),
    ensures
        building(a, Seq::empty()),
{
    assert(state_ok(a, 0, 0));
}

/// A state that stands for `label` and has no transitions yet.
pub open spec fn fresh_state(label: Seq<Seq<char>>) -> StateView {
    StateView { edges: Seq::empty(), fail: 0, matched: Seq::empty(), label, depth: label.len() }
}

/// One step along the trie from state `x` over `tok`: to the state that the
/// transition for `tok` leads to, or to a new state, which the transition
/// then leads to.
pub open spec fn trie_step(a: Seq<StateView>, x: int, tok: Seq<char>) -> (Seq<StateView>, int) {
    match lookup(a[x].edges, tok) {
        Some(t) => (a, t),
        None => (
            a.update(
                x,
                StateView { edges: a[x].edges.push((tok, a.len() as int)), ..a[x] },
            ).push(fresh_state(a[x].label.push(tok))),
            a.len() as int,
        ),
    }
}

/// The walk along the trie from the root over the first `k` tokens of `p`.
pub open spec fn trie_walk(a: Seq<StateView>, p: Seq<Seq<char>>, k: int) -> (Seq<StateView>, int)
    decreases k,
{
    if k <= 0 {
        (a, 0)
    } else {
        let before = trie_walk(a, p, k - 1);
        trie_step(before.0, before.1, p[k - 1])
    }
}

/// The trie with the phrase `p` entered under the id `id`.
pub open spec fn phrase_put(a: Seq<StateView>, p: Seq<Seq<char>>, id: int) -> Seq<StateView> {
    let walked = trie_walk(a, p, p.len() as int);
    walked.0.update(
        walked.1,
        StateView { matched: walked.0[walked.1].matched.push(id), ..walked.0[walked.1] },
    )
}

/// The trie of the first `k` phrases, each entered under its place as id.
pub open spec fn trie_of(phrases: Seq<Seq<Seq<char>>>, k: int) -> Seq<StateView>
    decreases k,
{
    if k <= 0 {
        seq![fresh_state(Seq::empty())]
    } else {
        phrase_put(trie_of(phrases, k - 1), phrases[k - 1], k - 1)
    }
}

/// The trie of the first `k` phrases depends on these phrases alone.
pub proof fn lemma_trie_of_prefix(p: Seq<Seq<Seq<char>>>, q: Seq<Seq<Seq<char>>>, k: int)
    requires
        0 <= k <= p.len(),
        k <= q.len(),
        forall|i: int| 0 <= i < k ==> p[i] == q[i],
    ensures
        trie_of(p, k) == trie_of(q, k),
    decreases k,
{
    if k > 0 {
        lemma_trie_of_prefix(p, q, k - 1);
    }
}

/// Walks the trie along `phrase`, adding the states that are missing, and
/// returns the state at the end, which stands for the phrase.
pub fn trie_insert<'a>(
    pma: &mut Vec<PMANode<'a>>,
    phrase: &Vec<&'a str>,
    Ghost(phrases): Ghost<Seq<Seq<Seq<char>>>>,
) -> (node_id: usize)
    requires
        building(states_view(old(pma)@), phrases),
    ensures
        building(states_view(final(pma)@), phrases),
        has_label(states_view(final(pma)@), node_id as int, tokens_view(phrase@)),
        (states_view(final(pma)@), node_id as int) == trie_walk(
            states_view(old(pma)@),
            tokens_view(phrase@),
            phrase.len() as int,
        ),
{
    let ghost p = tokens_view(phrase@);
    let ghost n = phrases.len() as int;
    let ghost a_in = states_view(pma@);
    let mut node_id: usize = 0;
    let mut k: usize = 0;
    assert(states_view(pma@)[0].label =~= p.take(0));
    while k < phrase.len()
        invariant
            p == tokens_view(phrase@),
            n == phrases.len(),
            k <= phrase.len(),
            building(states_view(pma@), phrases),
            node_id < pma.len(),
            states_view(pma@)[node_id as int].label == p.take(k as int),
            (states_view(pma@), node_id as int) == trie_walk(a_in, p, k as int),
        decreases phrase.len() - k,
    {
        let word = phrase[k];
        let ghost a = states_view(pma@);
        assert(p[k as int] == word@);
        assert(p.take(k as int).push(word@) =~= p.take(k as int + 1));
        assert(state_ok(a, node_id as int, n));
        assert(a[node_id as int] == pma@[node_id as int]@);
        match edges_get(&pma[node_id].edges, word) {
            Some(next) => {
                proof {
                    lemma_child_label(a, node_id as int, word@);
                }
                node_id = next;
            },
            None => {
                let next = pma.len();
                let ghost label = pma[node_id as int].label@;
                pma[node_id].edges.push((word, next));
                pma.push(new_state(Ghost(label.push(word@))));
                proof {
                    let b = states_view(pma@);
                    assert(b[node_id as int].edges =~= a[node_id as int].edges.push(
                        (word@, next as int),
                    ));
                    lemma_grow(a, b, phrases, node_id as int, word@);
                    assert(b =~= trie_step(a, node_id as int, word@).0) by {
                        assert forall|x: int| 0 <= x < a.len() && x != node_id implies b[x]
                            == a[x] by {
                            assert(b[x] == pma@[x]@);
                        }
                    }
                }
                node_id = next;
            },
        }
        k += 1;
    }
    assert(p.take(phrase.len() as int) =~= p);
    node_id
}

/// The automaton stays one that is being built where a state gets a
/// transition for a token that it had none for, to a new state.
proof fn lemma_grow(
    a: Seq<StateView>,
    b: Seq<StateView>,
    phrases: Seq<Seq<Seq<char>>>,
    x: int,
    t: Seq<char>,
)
    requires
        building(a, phrases),
        0 <= x < a.len(),
        lookup(a[x].edges, t).is_none(),
        b.len() == a.len() + 1,
        forall|y: int| 0 <= y < a.len() && y != x ==> b[y] == a[y],
        b[x] == (StateView { edges: a[x].edges.push((t, a.len() as int)), ..a[x] }),
        b[a.len() as int] == (StateView {
            edges: Seq::empty(),
            fail: 0,
            matched: Seq::empty(),
            label: a[x].label.push(t),
            depth: a[x].label.push(t).len(),
        }),
    ensures
        building(b, phrases),
{
    let n = phrases.len() as int;
    let next = a.len() as int;
    let s = a[x].label;
    lemma_lookup_in_range(a[x].edges, t, 0);
    // no state stood for the new state's sequence
    assert forall|y: int| 0 <= y < a.len() implies (#[trigger] a[y]).label != s.push(t) by {
        if a[y].label == s.push(t) {
            assert(has_label(a, y, s.push(t)));
            let x1 = lemma_parent(a, y, s, t);
            assert(a[x1].label == a[x].label);
        }
    }
    assert(state_ok(a, x, n));
    assert(a[x].depth == a[x].label.len());
    assert(a[0].depth == 0);
    assert(b[0].depth == 0);
    assert forall|y: int| 0 <= y < b.len() implies #[trigger] state_ok(b, y, n) by {
        if y < a.len() {
            assert(state_ok(a, y, n));
            assert(b[y].depth == a[y].depth);
            assert(b[b[y].fail].depth == a[a[y].fail].depth);
            assert forall|k: int| 0 <= k < b[y].edges.len() implies {
                let c = (#[trigger] b[y].edges[k]).1;
                y < c < b.len() && b[c].depth == b[y].depth + 1
            } by {
                if k < a[y].edges.len() {
                    assert(b[y].edges[k] == a[y].edges[k]);
                    let c = a[y].edges[k].1;
                    assert(b[c].depth == a[c].depth);
                }
            }
        }
    }
    assert forall|y: int| 0 <= y < b.len() implies (#[trigger] b[y]).depth == b[y].label.len() by {
        if y < a.len() {
            assert(a[y].depth == a[y].label.len());
        }
    }
    assert forall|y: int, z: int|
        #![trigger b[y], b[z]]
        0 <= y < b.len() && 0 <= z < b.len() && b[y].label == b[z].label implies y == z by {
        if y < a.len() && z < a.len() {
            assert(a[y].label == a[z].label);
        } else if y < a.len() {
            assert(a[y].label != s.push(t));
        } else if z < a.len() {
            assert(a[z].label != s.push(t));
        }
    }
    assert forall|y: int, k: int|
        #![trigger b[y].edges[k]]
        0 <= y < b.len() && 0 <= k < b[y].edges.len() implies y < b[y].edges[k].1 < b.len()
        && b[b[y].edges[k].1].label == b[y].label.push(b[y].edges[k].0) by {
        if k < a[y].edges.len() {
            assert(b[y].edges[k] == a[y].edges[k]);
            let c = a[y].edges[k].1;
            assert(y < c < a.len() && a[c].label == a[y].label.push(a[y].edges[k].0));
            assert(b[c].label == a[c].label);
        }
    }
    assert forall|y: int, k1: int, k2: int|
        #![trigger b[y].edges[k1], b[y].edges[k2]]
        0 <= y < b.len() && 0 <= k1 < b[y].edges.len() && 0 <= k2 < b[y].edges.len() && k1
            != k2 implies b[y].edges[k1].0 != b[y].edges[k2].0 by {
        if k1 < a[y].edges.len() && k2 < a[y].edges.len() {
            assert(b[y].edges[k1] == a[y].edges[k1]);
            assert(b[y].edges[k2] == a[y].edges[k2]);
        } else if k1 < a[y].edges.len() {
            assert(b[y].edges[k1] == a[y].edges[k1]);
            assert(a[x].edges[k1].0 != t);
        } else if k2 < a[y].edges.len() {
            assert(b[y].edges[k2] == a[y].edges[k2]);
            assert(a[x].edges[k2].0 != t);
        }
    }
    assert forall|y: int| 0 < y < b.len() implies #[trigger] has_parent(b, y) by {
        if y < a.len() {
            assert(has_parent(a, y));
            let (x1, k) = choose|x1: int, k: int|
                #![trigger a[x1].edges[k]]
                0 <= x1 < a.len() && 0 <= k < a[x1].edges.len() && a[x1].edges[k].1 == y;
            assert(b[x1].edges[k] == a[x1].edges[k]);
        } else {
            assert(b[x].edges[a[x].edges.len() as int].1 == y);
        }
    }
    assert forall|id: int| 0 <= id < phrases.len() implies in_trie(b, #[trigger] phrases[id]) by {
        let y = choose|y: int| #[trigger] has_label(a, y, phrases[id]);
        assert(has_label(b, y, phrases[id]));
    }
    assert forall|y: int| 0 <= y < b.len() implies (#[trigger] b[y]).fail == 0 && owns_ok(
        b,
        phrases,
        y,
    ) by {
        if y < a.len() {
            assert(a[y].fail == 0 && owns_ok(a, phrases, y));
            assert(b[y].matched == a[y].matched);
            assert(b[y].label == a[y].label);
        } else {
            assert forall|id: int|
                #![trigger b[y].matched.contains(id)]
                b[y].matched.contains(id) <==> 0 <= id < phrases.len() && phrases[id]
                    == b[y].label by {
                if 0 <= id < phrases.len() && phrases[id] == b[y].label {
                    let z = choose|z: int| #[trigger] has_label(a, z, phrases[id]);
                    assert(a[z].label != s.push(t));
                }
            }
        }
    }
}

/// Enters a phrase: its state, added with the states on the way where they
/// are missing, reports the phrase's id.
pub fn add_phrase<'a>(
    pma: &mut Vec<PMANode<'a>>,
    phrase: &Vec<&'a str>,
    id: usize,
    Ghost(phrases): Ghost<Seq<Seq<Seq<char>>>>,
)
    requires
        building(states_view(old(pma)@), phrases),
        id == phrases.len(),
    ensures
        building(states_view(final(pma)@), phrases.push(tokens_view(phrase@))),
        states_view(final(pma)@) == phrase_put(
            states_view(old(pma)@),
            tokens_view(phrase@),
            id as int,
        ),
{
    let ghost p = tokens_view(phrase@);
    let ghost n = phrases.len() as int;
    let ghost phrases1 = phrases.push(p);
    let node_id = trie_insert(pma, phrase, Ghost(phrases));
    let ghost a = states_view(pma@);
    pma[node_id].matched.push(id);
    proof {
        let b = states_view(pma@);
        assert(b[node_id as int].matched =~= a[node_id as int].matched.push(id as int));
        assert(b =~= a.update(
            node_id as int,
            StateView { matched: a[node_id as int].matched.push(id as int), ..a[node_id as int] },
        )) by {
            assert forall|x: int| 0 <= x < a.len() && x != node_id implies b[x] == a[x] by {
                assert(b[x] == pma@[x]@);
            }
        }
        assert forall|y: int| 0 <= y < b.len() implies #[trigger] state_ok(b, y, n + 1) by {
            assert(state_ok(a, y, n));
            assert(b[y].edges == a[y].edges);
            if y != node_id {
                assert(b[y] == a[y]);
            }
            assert forall|k: int| 0 <= k < b[y].edges.len() implies {
                let c = (#[trigger] b[y].edges[k]).1;
                y < c < b.len() && b[c].depth == b[y].depth + 1
            } by {
                let c = a[y].edges[k].1;
                assert(b[c].depth == a[c].depth);
            }
        }
        assert(b[0].fail == a[0].fail);
        assert forall|y: int| 0 <= y < b.len() implies (#[trigger] b[y]).depth
            == b[y].label.len() by {
            assert(a[y].depth == a[y].label.len());
        }
        assert forall|y: int, z: int|
            #![trigger b[y], b[z]]
            0 <= y < b.len() && 0 <= z < b.len() && b[y].label == b[z].label implies y == z by {
            assert(a[y].label == a[z].label);
        }
        assert forall|y: int, k: int|
            #![trigger b[y].edges[k]]
            0 <= y < b.len() && 0 <= k < b[y].edges.len() implies y < b[y].edges[k].1 < b.len()
            && b[b[y].edges[k].1].label == b[y].label.push(b[y].edges[k].0) by {
            assert(b[y].edges[k] == a[y].edges[k]);
            let c = a[y].edges[k].1;
            assert(y < c < a.len() && a[c].label == a[y].label.push(a[y].edges[k].0));
            assert(b[c].label == a[c].label);
        }
        assert forall|y: int, k1: int, k2: int|
            #![trigger b[y].edges[k1], b[y].edges[k2]]
            0 <= y < b.len() && 0 <= k1 < b[y].edges.len() && 0 <= k2 < b[y].edges.len() && k1
                != k2 implies b[y].edges[k1].0 != b[y].edges[k2].0 by {
            assert(b[y].edges[k1] == a[y].edges[k1]);
            assert(b[y].edges[k2] == a[y].edges[k2]);
        }
        assert forall|y: int| 0 < y < b.len() implies #[trigger] has_parent(b, y) by {
            assert(has_parent(a, y));
            let (x1, k) = choose|x1: int, k: int|
                #![trigger a[x1].edges[k]]
                0 <= x1 < a.len() && 0 <= k < a[x1].edges.len() && a[x1].edges[k].1 == y;
            assert(b[x1].edges[k] == a[x1].edges[k]);
        }
        assert forall|i: int| 0 <= i < phrases1.len() implies in_trie(b, #[trigger] phrases1[i]) by {
            if i < n {
                assert(phrases1[i] == phrases[i]);
                let y = choose|y: int| #[trigger] has_label(a, y, phrases[i]);
                assert(has_label(b, y, phrases1[i]));
            } else {
                assert(has_label(b, node_id as int, phrases1[i]));
            }
        }
        assert forall|y: int| 0 <= y < b.len() implies (#[trigger] b[y]).fail == 0 && owns_ok(
            b,
            phrases1,
            y,
        ) by {
            assert(a[y].fail == 0 && owns_ok(a, phrases, y));
            assert(b[y].label == a[y].label);
            assert forall|i: int|
                #![trigger b[y].matched.contains(i)]
                b[y].matched.contains(i) <==> 0 <= i < phrases1.len() && phrases1[i]
                    == b[y].label by {
                if i < n && i >= 0 {
                    assert(phrases1[i] == phrases[i]);
                }
                if y == node_id {
                    let m0 = a[y].matched;
                    let m1 = b[y].matched;
                    if m1.contains(i) {
                        let q = choose|q: int| 0 <= q < m1.len() && m1[q] == i;
                        if q < m0.len() {
                            assert(m0[q] == i);
                            assert(m0.contains(i));
                        }
                    }
                    if m0.contains(i) {
                        let q = choose|q: int| 0 <= q < m0.len() && m0[q] == i;
                        assert(m1[q] == i);
                    }
                    if i == n {
                        assert(m1[m0.len() as int] == i);
                    }
                } else {
                    assert(b[y].matched == a[y].matched);
                    if i == n {
                        assert(a[node_id as int].label == p);
                    }
                }
            }
        }
    }
}

/// The fallback of the child that `node_id` has for token `c`: the target of
/// the transition for `c` at the first state after `node_id` on its fallback
/// chain that has one, or the root.
fn fallback_of(
    pma: &Vec<PMANode>,
    Ghost(phrases): Ghost<Seq<Seq<Seq<char>>>>,
    node_id: usize,
    c: &str,
) -> (r: usize)
    requires
        automaton_ok(states_view(pma@), phrases.len() as int),
        trie_ok(states_view(pma@)),
        node_id < pma.len(),
        phrases_ok(phrases) ==> upto_ok(
            states_view(pma@),
            phrases,
            states_view(pma@)[node_id as int].depth as int,
        ),
    ensures
        r < pma.len(),
        states_view(pma@)[r as int].depth <= states_view(pma@)[node_id as int].depth,
        phrases_ok(phrases) ==> longest_proper(
            states_view(pma@),
            r as int,
            states_view(pma@)[node_id as int].label.push(c@),
        ),
{
    let ghost a = states_view(pma@);
    let ghost n = phrases.len() as int;
    let ghost big = a[node_id as int].label;
    let ghost sem = phrases_ok(phrases);
    let mut node_id_fail = node_id;
    let mut found: Option<usize> = None;
    proof {
        lemma_suffix_self(big);
    }
    while node_id_fail != 0 && found.is_none()
        invariant
            a == states_view(pma@),
            n == phrases.len(),
            big == a[node_id as int].label,
            sem == phrases_ok(phrases),
            automaton_ok(a, n),
            trie_ok(a),
            node_id < pma.len(),
            node_id_fail < pma.len(),
            a[node_id_fail as int].depth <= a[node_id as int].depth,
            sem ==> upto_ok(a, phrases, a[node_id as int].depth as int),
            found matches Some(r) ==> r < pma.len() && a[r as int].depth <= a[node_id as int].depth
                && (sem ==> longest_proper(a, r as int, big.push(c@))),
            sem && found.is_none() ==> is_suffix(a[node_id_fail as int].label, big) && below_state(
                a,
                big,
                c@,
                node_id_fail as int,
            ),
        decreases a[node_id_fail as int].depth + (if found.is_none() { 1int } else { 0int }),
    {
        let ghost z = node_id_fail as int;
        assert(state_ok(a, z, n));
        assert(a[z] == pma@[z]@);
        proof {
            if sem {
                lemma_fallback_step(a, big, c@, z);
            }
        }
        node_id_fail = pma[node_id_fail].fail;
        assert(state_ok(a, node_id_fail as int, n));
        assert(a[node_id_fail as int] == pma@[node_id_fail as int]@);
        if let Some(edge_target) = edges_get(&pma[node_id_fail].edges, c) {
            proof {
                lemma_lookup_in_range(a[node_id_fail as int].edges, c@, 0);
                if sem {
                    lemma_fallback_found(a, big, c@, node_id_fail as int);
                }
            }
            found = Some(edge_target);
        }
    }
    match found {
        Some(r) => r,
        None => {
            proof {
                if sem {
                    lemma_fallback_none(a, big, c@);
                }
            }
            0
        },
    }
}

/// Gives state `node_id` its fallback and the phrases that the fallback
/// reports.
fn link_fallback<'a>(
    pma: &mut Vec<PMANode<'a>>,
    Ghost(phrases): Ghost<Seq<Seq<Seq<char>>>>,
    node_id: usize,
    node_id_fail: usize,
)
    requires
        automaton_ok(states_view(old(pma)@), phrases.len() as int),
        trie_ok(states_view(old(pma)@)),
        phrases_in_trie(states_view(old(pma)@), phrases),
        0 < node_id < old(pma).len(),
        node_id_fail < old(pma).len(),
        states_view(old(pma)@)[node_id_fail as int].depth < states_view(
            old(pma)@,
        )[node_id as int].depth,
        phrases_ok(phrases) ==> longest_proper(
            states_view(old(pma)@),
            node_id_fail as int,
            states_view(old(pma)@)[node_id as int].label,
        ) && owns_ok(states_view(old(pma)@), phrases, node_id as int) && reports_ok(
            states_view(old(pma)@),
            phrases,
            node_id_fail as int,
        ),
    ensures
        automaton_ok(states_view(final(pma)@), phrases.len() as int),
        trie_ok(states_view(final(pma)@)),
        phrases_in_trie(states_view(final(pma)@), phrases),
        same_trie(states_view(old(pma)@), states_view(final(pma)@)),
        forall|x: int|
            0 <= x < old(pma).len() && x != node_id ==> states_view(final(pma)@)[x]
                == #[trigger] states_view(old(pma)@)[x],
        phrases_ok(phrases) ==> fail_ok(states_view(final(pma)@), node_id as int) && reports_ok(
            states_view(final(pma)@),
            phrases,
            node_id as int,
        ),
        states_view(final(pma)@)[node_id as int].fail == node_id_fail,
        states_view(final(pma)@)[node_id as int].matched == states_view(
            old(pma)@,
        )[node_id as int].matched + states_view(old(pma)@)[node_id_fail as int].matched,
{
    let ghost a = states_view(pma@);
    let ghost n = phrases.len() as int;
    let ghost own = a[node_id as int].matched;
    assert(state_ok(a, node_id_fail as int, n));
    assert(state_ok(a, node_id as int, n));
    let mut i: usize = 0;
    pma[node_id].fail = node_id_fail;
    assert(a[node_id_fail as int] == old(pma)@[node_id_fail as int]@);
    assert(a[node_id as int] == old(pma)@[node_id as int]@);
    assert forall|k: int| 0 <= k < pma[node_id as int].matched.len() implies 0
        <= #[trigger] pma[node_id as int].matched[k] < n by {
        assert(a[node_id as int].matched[k] == old(pma)[node_id as int].matched[k]);
    }
    assert(states_view(pma@)[node_id as int].matched =~= own + a[node_id_fail as int].matched.take(
        0,
    ));
    while i < pma[node_id_fail].matched.len()
        invariant
            pma.len() == old(pma).len(),
            a == states_view(old(pma)@),
            n == phrases.len(),
            own == a[node_id as int].matched,
            0 < node_id < pma.len(),
            node_id_fail < pma.len(),
            node_id_fail != node_id,
            i <= pma[node_id_fail as int].matched.len(),
            pma[node_id_fail as int] == old(pma)[node_id_fail as int],
            state_ok(a, node_id_fail as int, n),
            state_ok(a, node_id as int, n),
            pma[node_id as int].fail == node_id_fail,
            pma[node_id as int].edges == old(pma)[node_id as int].edges,
            pma[node_id as int].label == old(pma)[node_id as int].label,
            forall|x: int| 0 <= x < old(pma).len() && x != node_id ==> pma[x] == old(pma)[x],
            forall|k: int|
                0 <= k < pma[node_id as int].matched.len() ==> 0 <= #[trigger] pma[node_id as int].matched[k]
                    < n,
            states_view(pma@)[node_id as int].matched == own + a[node_id_fail as int].matched.take(
                i as int,
            ),
        decreases pma[node_id_fail as int].matched.len() - i,
    {
        let id = pma[node_id_fail].matched[i];
        assert(a[node_id_fail as int].matched[i as int] == id);
        let ghost before = states_view(pma@)[node_id as int].matched;
        pma[node_id].matched.push(id);
        proof {
            let m = a[node_id_fail as int].matched;
            assert(states_view(pma@)[node_id as int].matched =~= before.push(id as int));
            assert(m.take(i as int + 1) =~= m.take(i as int).push(id as int));
            assert(before.push(id as int) =~= own + m.take(i as int + 1));
        }
        i += 1;
    }
    proof {
        let b = states_view(pma@);
        let m = a[node_id_fail as int].matched;
        assert(m.take(m.len() as int) =~= m);
        assert forall|x: int| 0 <= x < a.len() implies (#[trigger] b[x]).label == a[x].label
            && b[x].edges == a[x].edges && b[x].depth == a[x].depth by {
            if x != node_id {
                assert(pma@[x] == old(pma)@[x]);
            }
        }
        assert forall|x: int| 0 <= x < old(pma).len() && x != node_id implies b[x]
            == #[trigger] a[x] by {
            assert(pma@[x] == old(pma)@[x]);
        }
        assert forall|x: int| 0 <= x < b.len() implies #[trigger] state_ok(b, x, n) by {
            assert(state_ok(a, x, n));
            assert(b[x].edges == a[x].edges);
            assert(b[x].depth == a[x].depth);
            assert(b[b[x].fail].depth == a[b[x].fail].depth);
            assert forall|k: int| 0 <= k < b[x].edges.len() implies {
                let t = (#[trigger] b[x].edges[k]).1;
                x < t < b.len() && b[t].depth == b[x].depth + 1
            } by {
                let t = a[x].edges[k].1;
                assert(b[t].depth == a[t].depth);
            }
        }
        assert(b[0] == a[0]);
        lemma_same_trie(a, b, phrases);
        if phrases_ok(phrases) {
            let c = node_id as int;
            let f = node_id_fail as int;
            assert(b[f] == a[f]);
            lemma_reports(a, phrases, c, f, own, b[c].matched);
            assert(b[c].label == a[c].label);
            assert forall|y: int|
                0 <= y < b.len() && proper_suffix((#[trigger] b[y]).label, b[c].label) implies b[y].label.len()
                <= b[f].label.len() by {
                assert(proper_suffix(a[y].label, a[c].label));
            }
        }
    }
}

/// The children of the root, in the order of its transitions.
fn first_level(pma: &Vec<PMANode>, Ghost(n): Ghost<int>) -> (level: Vec<usize>)
    requires
        automaton_ok(states_view(pma@), n),
        trie_ok(states_view(pma@)),
    ensures
        level_ok(states_view(pma@), level@, 1),
{
    let ghost a = states_view(pma@);
    let mut level: Vec<usize> = Vec::new();
    let mut e: usize = 0;
    assert(state_ok(a, 0, n));
    assert(a[0] == pma@[0]@);
    while e < pma[0].edges.len()
        invariant
            a == states_view(pma@),
            automaton_ok(a, n),
            trie_ok(a),
            e <= pma[0].edges.len(),
            level.len() == e,
            forall|k: int| 0 <= k < e ==> #[trigger] level[k] == a[0].edges[k].1,
        decreases pma[0].edges.len() - e,
    {
        let t = pma[0].edges[e].1;
        assert(a[0].edges[e as int].1 == t);
        level.push(t);
        e += 1;
    }
    proof {
        assert forall|k: int| 0 <= k < level.len() implies 0 < #[trigger] level[k] < a.len()
            && a[level[k] as int].depth == 1 by {
            assert(a[0].edges[k].1 == level[k]);
            assert(a[0].depth == 0);
        }
        assert forall|k1: int, k2: int| 0 <= k1 < k2 < level.len() implies level[k1] != level[k2] by {
            if level[k1] == level[k2] {
                lemma_one_parent(a, 0, k1, 0, k2);
            }
        }
        assert forall|x: int| 0 <= x < a.len() && (#[trigger] a[x]).depth == 1 implies in_list(
            level@,
            x,
        ) by {
            assert(a[x].depth == a[x].label.len());
            assert(x != 0);
            assert(has_parent(a, x));
            let (y, k) = choose|y: int, k: int|
                #![trigger a[y].edges[k]]
                0 <= y < a.len() && 0 <= k < a[y].edges.len() && a[y].edges[k].1 == x;
            assert(a[x].label == a[y].label.push(a[y].edges[k].0));
            assert(a[y].label.len() == 0);
            assert(a[y].label =~= a[0].label);
            assert(level[k] == x);
        }
    }
    level
}

/// The list holds the states of depth `d`, each once.
pub open spec fn level_ok(a: Seq<StateView>, level: Seq<usize>, d: int) -> bool {
    &&& forall|k: int| 0 <= k < level.len() ==> 0 < #[trigger] level[k] < a.len() && a[level[k] as int].depth == d
    &&& forall|k1: int, k2: int| 0 <= k1 < k2 < level.len() ==> level[k1] != level[k2]
    &&& forall|x: int| 0 <= x < a.len() && (#[trigger] a[x]).depth == d ==> in_list(level, x)
}

/// Every child of the first `idx` states of the level, and every of the
/// first `e` children of the next, is listed, and these are all that are
/// listed.
pub open spec fn children_listed(
    a: Seq<StateView>,
    level: Seq<usize>,
    next: Seq<usize>,
    origin: Seq<(int, int)>,
    idx: int,
    e: int,
) -> bool {
    &&& origin.len() == next.len()
    &&& forall|q1: int, q2: int|
        0 <= q1 < q2 < origin.len() ==> #[trigger] origin[q1] != #[trigger] origin[q2]
    &&& forall|q: int|
        0 <= q < next.len() ==> {
            let (k, i) = #[trigger] origin[q];
            &&& 0 <= k < level.len()
            &&& 0 <= i < a[level[k] as int].edges.len()
            &&& a[level[k] as int].edges[i].1 == next[q]
            &&& (k < idx || (k == idx && i < e))
        }
    &&& forall|k: int, i: int|
        #![trigger a[level[k] as int].edges[i]]
        0 <= k < level.len() && 0 <= i < a[level[k] as int].edges.len() && (k < idx || (k == idx
            && i < e)) ==> in_list(next, a[level[k] as int].edges[i].1)
}

/// State `x` has got the phrases that its fallback reports behind its own,
/// or has its own alone where it was not dealt with: the states at the root
/// and next to it are not, of the others those up to depth `d` are, and of
/// those one deeper the listed ones.
pub open spec fn tally_at(
    t: Seq<StateView>,
    b: Seq<StateView>,
    next: Seq<usize>,
    d: int,
    x: int,
) -> bool {
    if b[x].depth >= 2 && (b[x].depth <= d || (b[x].depth == d + 1 && in_list(next, x))) {
        &&& 0 <= b[x].fail < b.len()
        &&& b[b[x].fail].depth < b[x].depth
        &&& b[x].matched == t[x].matched + b[b[x].fail].matched
    } else {
        b[x].matched == t[x].matched && b[x].fail == t[x].fail
    }
}

/// Every state has got what it reports, as far as the work has come.
pub open spec fn tally(t: Seq<StateView>, b: Seq<StateView>, next: Seq<usize>, d: int) -> bool {
    &&& same_trie(t, b)
    &&& forall|x: int| 0 <= x < b.len() ==> #[trigger] tally_at(t, b, next, d, x)
}

/// One more state is dealt with.
proof fn lemma_tally_link(
    t: Seq<StateView>,
    a: Seq<StateView>,
    b: Seq<StateView>,
    next0: Seq<usize>,
    next1: Seq<usize>,
    d: int,
    c: int,
    f: int,
    n: int,
)
    requires
        tally(t, a, next0, d),
        automaton_ok(a, n),
        same_trie(a, b),
        d >= 1,
        0 <= c < a.len(),
        0 <= f < a.len(),
        a[c].depth == d + 1,
        a[f].depth <= d,
        !in_list(next0, c),
        next1 == next0.push(c as usize),
        c <= usize::MAX,
        forall|x: int| 0 <= x < a.len() && x != c ==> b[x] == #[trigger] a[x],
        b[c].fail == f,
        b[c].matched == a[c].matched + a[f].matched,
    ensures
        tally(t, b, next1, d),
{
    assert forall|x: int| 0 <= x < b.len() implies #[trigger] tally_at(t, b, next1, d, x) by {
        assert(tally_at(t, a, next0, d, x));
        assert(state_ok(a, x, n));
        if x == c {
            assert(next1[next0.len() as int] == c);
            assert(b[f] == a[f]);
        } else {
            if in_list(next1, x) {
                let q = choose|q: int| 0 <= q < next1.len() && #[trigger] next1[q] == x;
                assert(next0[q] == x);
            }
            if in_list(next0, x) {
                let q = choose|q: int| 0 <= q < next0.len() && #[trigger] next0[q] == x;
                assert(next1[q] == x);
            }
            if a[x].depth >= 2 && (a[x].depth <= d || (a[x].depth == d + 1 && in_list(next0, x))) {
                assert(b[a[x].fail] == a[a[x].fail]);
            }
        }
    }
    assert forall|x: int| 0 <= x < t.len() implies (#[trigger] b[x]).label == t[x].label
        && b[x].edges == t[x].edges && b[x].depth == t[x].depth by {
        assert(a[x].label == t[x].label);
    }
}

/// The work goes on to the next depth.
proof fn lemma_tally_next(t: Seq<StateView>, b: Seq<StateView>, next: Seq<usize>, d: int)
    requires
        tally(t, b, next, d),
        forall|x: int| 0 <= x < b.len() && (#[trigger] b[x]).depth == d + 1 ==> in_list(next, x),
    ensures
        tally(t, b, Seq::empty(), d + 1),
{
    let none = Seq::<usize>::empty();
    assert forall|x: int| 0 <= x < b.len() implies #[trigger] tally_at(t, b, none, d + 1, x) by {
        assert(tally_at(t, b, next, d, x));
        assert(!in_list(none, x));
    }
}

/// The automaton `b` is the trie `t` with its fallbacks: the states are
/// those of the trie, and every state deeper than next to the root reports
/// its own phrases and behind them what its fallback reports.
pub open spec fn tallied(t: Seq<StateView>, b: Seq<StateView>) -> bool {
    &&& same_trie(t, b)
    &&& forall|x: int|
        0 <= x < b.len() ==> if (#[trigger] b[x]).depth >= 2 {
            &&& 0 <= b[x].fail < b.len()
            &&& b[b[x].fail].depth < b[x].depth
            &&& b[x].matched == t[x].matched + b[b[x].fail].matched
        } else {
            b[x].matched == t[x].matched && b[x].fail == t[x].fail
        }
}

/// A trie has one automaton: two automata of the phrases that are the trie
/// with its fallbacks are the same.
pub proof fn lemma_automaton_one(
    t: Seq<StateView>,
    phrases: Seq<Seq<Seq<char>>>,
    a: Seq<StateView>,
    b: Seq<StateView>,
)
    requires
        tallied(t, a),
        tallied(t, b),
        automaton_full(a, phrases),
        automaton_full(b, phrases),
    ensures
        a == b,
{
    assert forall|x: int| 0 <= x < a.len() implies a[x].fail == b[x].fail by {
        lemma_fail_one(t, a, b, x);
    }
    assert forall|x: int| 0 <= x < a.len() implies a[x] == b[x] by {
        lemma_matched_one(t, a, b, x);
    }
    assert(a =~= b);
}

/// The fallback of a state is the same in both automata.
proof fn lemma_fail_one(t: Seq<StateView>, a: Seq<StateView>, b: Seq<StateView>, x: int)
    requires
        same_trie(t, a),
        same_trie(t, b),
        trie_ok(a),
        a[0].fail == 0,
        b[0].fail == 0,
        0 <= x < a.len(),
        fail_ok(a, x),
        fail_ok(b, x),
    ensures
        a[x].fail == b[x].fail,
{
    if x != 0 {
        let fa = a[x].fail;
        let fb = b[x].fail;
        let big = a[x].label;
        assert(b[x].label == big);
        assert(b[fa].label == a[fa].label);
        assert(b[fb].label == a[fb].label);
        assert(a[fa].label.len() == a[fb].label.len());
        assert(a[fa].label =~= a[fb].label) by {
            assert forall|i: int| 0 <= i < a[fa].label.len() implies a[fa].label[i]
                == a[fb].label[i] by {
                assert(a[fa].label[i] == from_end(big, a[fa].label.len() as int, i));
                assert(a[fb].label[i] == from_end(big, a[fb].label.len() as int, i));
            }
        }
    }
}

/// A state reports the same in both automata.
proof fn lemma_matched_one(t: Seq<StateView>, a: Seq<StateView>, b: Seq<StateView>, x: int)
    requires
        tallied(t, a),
        tallied(t, b),
        0 <= x < a.len(),
        forall|y: int| 0 <= y < a.len() ==> a[y].fail == b[y].fail,
    ensures
        a[x] == b[x],
    decreases a[x].depth,
{
    assert(a[x].label == t[x].label && b[x].label == t[x].label);
    if a[x].depth >= 2 {
        lemma_matched_one(t, a, b, a[x].fail);
    }
}

/// Computes the fallback of every state, level by level from the root, and
/// hands each state the phrases that its fallback reports. Where no phrase
/// is empty, the outcome is the automaton of the phrases.
pub fn build_fallbacks<'a>(pma: &mut Vec<PMANode<'a>>, Ghost(phrases): Ghost<Seq<Seq<Seq<char>>>>)
    requires
        building(states_view(old(pma)@), phrases),
    ensures
        automaton_ok(states_view(final(pma)@), phrases.len() as int),
        phrases_ok(phrases) ==> automaton_full(states_view(final(pma)@), phrases),
        tallied(states_view(old(pma)@), states_view(final(pma)@)),
{
    let ghost n = phrases.len() as int;
    let ghost sem = phrases_ok(phrases);
    let ghost t = states_view(pma@);
    let mut level = first_level(pma, Ghost(n));
    let ghost mut d: int = 1;
    proof {
        assert forall|x: int| 0 <= x < t.len() implies #[trigger] tally_at(
            t,
            t,
            Seq::<usize>::empty(),
            1,
            x,
        ) by {
            assert(!in_list(Seq::<usize>::empty(), x));
        }
    }
    proof {
        if sem {
            lemma_first_level(states_view(pma@), phrases);
        }
    }
    while level.len() > 0
        invariant
            n == phrases.len(),
            sem == phrases_ok(phrases),
            automaton_ok(states_view(pma@), n),
            trie_ok(states_view(pma@)),
            phrases_in_trie(states_view(pma@), phrases),
            d >= 1,
            level_ok(states_view(pma@), level@, d),
            t == states_view(old(pma)@),
            tally(t, states_view(pma@), Seq::empty(), d),
            sem ==> upto_ok(states_view(pma@), phrases, d) && rest_ok(
                states_view(pma@),
                phrases,
                d,
            ),
        decreases pma.len() - d,
    {
        proof {
            assert(state_ok(states_view(pma@), level[0] as int, n));
        }
        let mut next_level: Vec<usize> = Vec::new();
        let ghost mut origin: Seq<(int, int)> = Seq::empty();
        let mut idx: usize = 0;
        let ghost len0 = pma.len();
        proof {
            let a = states_view(pma@);
            if sem {
                assert(level_state(a, phrases, d, next_level@)) by {
                    assert forall|c: int| 0 <= c < a.len() && (#[trigger] a[c]).depth == d
                        + 1 implies if in_list(next_level@, c) {
                        fail_ok(a, c) && reports_ok(a, phrases, c)
                    } else {
                        a[c].fail == 0 && owns_ok(a, phrases, c)
                    } by {
                        assert(a[c].depth > d);
                    }
                }
            }
        }
        while idx < level.len()
            invariant
                n == phrases.len(),
                sem == phrases_ok(phrases),
                pma.len() == len0,
                automaton_ok(states_view(pma@), n),
                trie_ok(states_view(pma@)),
                phrases_in_trie(states_view(pma@), phrases),
                d >= 1,
                idx <= level.len(),
                level_ok(states_view(pma@), level@, d),
                forall|k: int|
                    0 <= k < next_level.len() ==> 0 < #[trigger] next_level[k] < pma.len()
                        && states_view(pma@)[next_level[k] as int].depth == d + 1,
                children_listed(states_view(pma@), level@, next_level@, origin, idx as int, 0),
                tally(t, states_view(pma@), next_level@, d),
                sem ==> level_state(states_view(pma@), phrases, d, next_level@),
            decreases level.len() - idx,
        {
            let node_id = level[idx];
            let mut e: usize = 0;
            while e < pma[node_id].edges.len()
                invariant
                    n == phrases.len(),
                    sem == phrases_ok(phrases),
                    pma.len() == len0,
                    automaton_ok(states_view(pma@), n),
                    trie_ok(states_view(pma@)),
                    phrases_in_trie(states_view(pma@), phrases),
                    d >= 1,
                    idx < level.len(),
                    node_id == level[idx as int],
                    0 < node_id < pma.len(),
                    e <= pma[node_id as int].edges.len(),
                    states_view(pma@)[node_id as int].depth == d,
                    level_ok(states_view(pma@), level@, d),
                    forall|k: int|
                        0 <= k < next_level.len() ==> 0 < #[trigger] next_level[k] < pma.len()
                            && states_view(pma@)[next_level[k] as int].depth == d + 1,
                    children_listed(
                        states_view(pma@),
                        level@,
                        next_level@,
                        origin,
                        idx as int,
                        e as int,
                    ),
                    tally(t, states_view(pma@), next_level@, d),
                    sem ==> level_state(states_view(pma@), phrases, d, next_level@),
                decreases pma[node_id as int].edges.len() - e,
            {
                let ghost a = states_view(pma@);
                let ghost next0 = next_level@;
                let ghost origin0 = origin;
                let (c, node_id_next) = pma[node_id].edges[e];
                assert(state_ok(a, node_id as int, n));
                assert(a[node_id as int] == pma@[node_id as int]@);
                assert(a[node_id as int].edges[e as int] == (c@, node_id_next as int));
                proof {
                    // the child was not listed before
                    if in_list(next0, node_id_next as int) {
                        let q = choose|q: int| 0 <= q < next0.len() && #[trigger] next0[q] == node_id_next;
                        let (k, i) = origin0[q];
                        lemma_one_parent(a, level[k] as int, i, node_id as int, e as int);
                        assert(level[k] == level[idx as int]);
                    }
                    assert(a[node_id_next as int].label == a[node_id as int].label.push(c@));
                    assert(a[node_id_next as int].depth == a[node_id_next as int].label.len());
                    assert(a[node_id as int].depth == a[node_id as int].label.len());
                    lemma_lookup_unique(a[node_id as int].edges, e as int, 0);
                }
                next_level.push(node_id_next);
                let node_id_fail = fallback_of(pma, Ghost(phrases), node_id, c);
                proof {
                    if sem {
                        assert(a[node_id_next as int].depth == d + 1);
                        assert(a[node_id_fail as int].depth <= d);
                        assert(reports_ok(a, phrases, node_id_fail as int));
                    }
                }
                link_fallback(pma, Ghost(phrases), node_id_next, node_id_fail);
                proof {
                    let b = states_view(pma@);
                    origin = origin0.push((idx as int, e as int));
                    if sem {
                        lemma_link_state(a, b, phrases, d, next0, next_level@, node_id_next);
                    }
                    assert(a[node_id_next as int].depth == d + 1);
                    lemma_tally_link(
                        t,
                        a,
                        b,
                        next0,
                        next_level@,
                        d,
                        node_id_next as int,
                        node_id_fail as int,
                        n,
                    );
                    assert forall|k: int| 0 <= k < level.len() implies 0 < #[trigger] level[k]
                        < b.len() && b[level[k] as int].depth == d by {
                        assert(b[level[k] as int].depth == a[level[k] as int].depth);
                    }
                    assert forall|x: int| 0 <= x < b.len() && (#[trigger] b[x]).depth
                        == d implies in_list(level@, x) by {
                        assert(a[x].depth == d);
                    }
                    assert forall|k: int| 0 <= k < next_level.len() implies 0
                        < #[trigger] next_level[k] < b.len() && b[next_level[k] as int].depth == d
                        + 1 by {
                        if k < next0.len() {
                            assert(next_level[k] == next0[k]);
                        }
                        assert(b[next_level[k] as int].depth == a[next_level[k] as int].depth);
                    }
                    assert(b[node_id as int].depth == a[node_id as int].depth);
                    assert forall|q1: int, q2: int| 0 <= q1 < q2 < origin.len() implies #[trigger] origin[q1]
                        != #[trigger] origin[q2] by {
                        assert(origin[q1] == origin0[q1]);
                        if q2 < origin0.len() {
                            assert(origin[q2] == origin0[q2]);
                        } else {
                            let (k, i) = origin0[q1];
                            assert(k < idx || (k == idx && i < e));
                        }
                    }
                    assert forall|q: int| 0 <= q < next_level.len() implies {
                        let (k, i) = #[trigger] origin[q];
                        &&& 0 <= k < level.len()
                        &&& 0 <= i < b[level[k] as int].edges.len()
                        &&& b[level[k] as int].edges[i].1 == next_level[q]
                        &&& (k < idx || (k == idx && i < e + 1))
                    } by {
                        if q < next0.len() {
                            assert(origin[q] == origin0[q]);
                            assert(next_level[q] == next0[q]);
                            let (k, i) = origin0[q];
                            assert(b[level[k] as int].edges == a[level[k] as int].edges);
                        } else {
                            assert(b[node_id as int].edges == a[node_id as int].edges);
                        }
                    }
                    assert forall|k: int, i: int|
                        #![trigger b[level[k] as int].edges[i]]
                        0 <= k < level.len() && 0 <= i < b[level[k] as int].edges.len() && (k < idx
                            || (k == idx && i < e + 1)) implies in_list(
                        next_level@,
                        b[level[k] as int].edges[i].1,
                    ) by {
                        assert(b[level[k] as int].edges == a[level[k] as int].edges);
                        if k == idx && i == e {
                            assert(next_level[next0.len() as int] == node_id_next);
                        } else {
                            assert(in_list(next0, a[level[k] as int].edges[i].1));
                            let q = choose|q: int|
                                0 <= q < next0.len() && #[trigger] next0[q] == a[level[k] as int].edges[i].1;
                            assert(next_level[q] == next0[q]);
                        }
                    }
                }
                e += 1;
            }
            proof {
                let a = states_view(pma@);
                assert forall|k: int, i: int|
                    #![trigger a[level[k] as int].edges[i]]
                    0 <= k < level.len() && 0 <= i < a[level[k] as int].edges.len() && (k < idx + 1
                        || (k == idx + 1 && i < 0)) implies in_list(
                    next_level@,
                    a[level[k] as int].edges[i].1,
                ) by {
                    assert(k < idx || (k == idx && i < e));
                }
            }
            idx += 1;
        }
        proof {
            let a = states_view(pma@);
            // every state of the next depth is listed
            assert forall|x: int| 0 <= x < a.len() && (#[trigger] a[x]).depth == d + 1 implies in_list(
                next_level@,
                x,
            ) by {
                assert(x != 0);
                assert(has_parent(a, x));
                let (y, k) = choose|y: int, k: int|
                    #![trigger a[y].edges[k]]
                    0 <= y < a.len() && 0 <= k < a[y].edges.len() && a[y].edges[k].1 == x;
                assert(a[x].label == a[y].label.push(a[y].edges[k].0));
                assert(a[x].depth == a[x].label.len());
                assert(a[y].depth == a[y].label.len());
                assert(a[y].depth == d);
                assert(in_list(level@, y));
                let q = choose|q: int| 0 <= q < level.len() && #[trigger] level[q] == y;
                assert(in_list(next_level@, a[level[q] as int].edges[k].1));
            }
            assert forall|k1: int, k2: int| 0 <= k1 < k2 < next_level.len() implies next_level[k1]
                != next_level[k2] by {
                if next_level[k1] == next_level[k2] {
                    let (x1, i1) = origin[k1];
                    let (x2, i2) = origin[k2];
                    lemma_one_parent(a, level[x1] as int, i1, level[x2] as int, i2);
                    assert(level[x1] == level[x2]);
                    assert(x1 == x2);
                    assert(origin[k1] == origin[k2]);
                }
            }
            if sem {
                assert forall|x: int| 0 <= x < a.len() && (#[trigger] a[x]).depth <= d
                    + 1 implies fail_ok(a, x) && reports_ok(a, phrases, x) by {
                    if a[x].depth == d + 1 {
                        assert(in_list(next_level@, x));
                    }
                }
            }
            lemma_tally_next(t, a, next_level@, d);
            d = d + 1;
        }
        level = next_level;
    }
    proof {
        let a = states_view(pma@);
        assert forall|x: int| 0 <= x < a.len() implies if (#[trigger] a[x]).depth >= 2 {
            &&& 0 <= a[x].fail < a.len()
            &&& a[a[x].fail].depth < a[x].depth
            &&& a[x].matched == t[x].matched + a[a[x].fail].matched
        } else {
            a[x].matched == t[x].matched && a[x].fail == t[x].fail
        } by {
            assert(tally_at(t, a, Seq::<usize>::empty(), d, x));
            if a[x].depth > d {
                assert forall|y: int| 0 <= y < a.len() implies (#[trigger] a[y]).depth != d by {
                    if a[y].depth == d {
                        assert(in_list(level@, y));
                    }
                }
                lemma_no_deeper(a, d, x);
            }
        }
        if sem {
            assert forall|x: int| 0 <= x < a.len() implies #[trigger] fail_ok(a, x) by {
                if a[x].depth >= d {
                    assert forall|y: int| 0 <= y < a.len() implies (#[trigger] a[y]).depth != d by {
                        if a[y].depth == d {
                            assert(in_list(level@, y));
                        }
                    }
                    lemma_no_deeper(a, d, x);
                }
            }
            assert forall|x: int| 0 <= x < a.len() implies #[trigger] reports_ok(a, phrases, x) by {
                if a[x].depth >= d {
                    assert forall|y: int| 0 <= y < a.len() implies (#[trigger] a[y]).depth != d by {
                        if a[y].depth == d {
                            assert(in_list(level@, y));
                        }
                    }
                    lemma_no_deeper(a, d, x);
                }
            }
        }
    }
}

} // verus!
