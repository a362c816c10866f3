//! What the phrase automaton stands for: every state is a beginning of some
//! phrase, its fallback is the longest proper end of it that is a state too,
//! and it reports the phrases that it ends with.

use vstd::prelude::*;
use crate::automaton::{
    StateView, automaton_ok, state_ok, lookup, lookup_from, next_state, lemma_lookup_in_range,
};
use crate::edge::EdgeView;

verus! {

/// The `i`-th of the last `k` tokens of `w`.
pub open spec fn from_end(w: Seq<Seq<char>>, k: int, i: int) -> Seq<char> {
    w[w.len() - k + i]
}

/// `w` ends with `s`.
pub open spec fn is_suffix(s: Seq<Seq<char>>, w: Seq<Seq<char>>) -> bool {
    &&& s.len() <= w.len()
    &&& forall|i: int| 0 <= i < s.len() ==> s[i] == #[trigger] from_end(w, s.len() as int, i)
}

/// `w` ends with `s` and is longer.
pub open spec fn proper_suffix(s: Seq<Seq<char>>, w: Seq<Seq<char>>) -> bool {
    is_suffix(s, w) && s.len() < w.len()
}

pub proof fn lemma_suffix_self(w: Seq<Seq<char>>)
    ensures
        is_suffix(w, w),
        is_suffix(Seq::empty(), w),
{
}

pub proof fn lemma_suffix_transitive(a: Seq<Seq<char>>, b: Seq<Seq<char>>, c: Seq<Seq<char>>)
    requires
        is_suffix(a, b),
        is_suffix(b, c),
    ensures
        is_suffix(a, c),
{
    assert forall|i: int| 0 <= i < a.len() implies a[i] == #[trigger] from_end(
        c,
        a.len() as int,
        i,
    ) by {
        assert(a[i] == from_end(b, a.len() as int, i));
        assert(b[b.len() - a.len() + i] == from_end(c, b.len() as int, b.len() - a.len() + i));
    }
}

/// Of two ends of a sequence, the shorter is an end of the longer.
pub proof fn lemma_suffix_comparable(a: Seq<Seq<char>>, b: Seq<Seq<char>>, w: Seq<Seq<char>>)
    requires
        is_suffix(a, w),
        is_suffix(b, w),
        a.len() <= b.len(),
    ensures
        is_suffix(a, b),
{
    assert forall|i: int| 0 <= i < a.len() implies a[i] == #[trigger] from_end(
        b,
        a.len() as int,
        i,
    ) by {
        assert(a[i] == from_end(w, a.len() as int, i));
        assert(b[b.len() - a.len() + i] == from_end(w, b.len() as int, b.len() - a.len() + i));
    }
}

/// Two ends of a sequence of the same length are the same.
pub proof fn lemma_suffix_equal(a: Seq<Seq<char>>, b: Seq<Seq<char>>, w: Seq<Seq<char>>)
    requires
        is_suffix(a, w),
        is_suffix(b, w),
        a.len() == b.len(),
    ensures
        a == b,
{
    assert forall|i: int| 0 <= i < a.len() implies a[i] == b[i] by {
        assert(a[i] == from_end(w, a.len() as int, i));
        assert(b[i] == from_end(w, b.len() as int, i));
    }
    assert(a =~= b);
}

pub proof fn lemma_suffix_push(s: Seq<Seq<char>>, w: Seq<Seq<char>>, t: Seq<char>)
    requires
        is_suffix(s, w),
    ensures
        is_suffix(s.push(t), w.push(t)),
{
    let s1 = s.push(t);
    let w1 = w.push(t);
    assert forall|i: int| 0 <= i < s1.len() implies s1[i] == #[trigger] from_end(
        w1,
        s1.len() as int,
        i,
    ) by {
        if i < s.len() {
            assert(s[i] == from_end(w, s.len() as int, i));
        }
    }
}

pub proof fn lemma_suffix_pop(s: Seq<Seq<char>>, w: Seq<Seq<char>>, t: Seq<char>)
    requires
        is_suffix(s, w.push(t)),
        s.len() > 0,
    ensures
        s.last() == t,
        is_suffix(s.drop_last(), w),
        s == s.drop_last().push(t),
{
    let w1 = w.push(t);
    let s0 = s.drop_last();
    assert(s[s.len() - 1] == from_end(w1, s.len() as int, s.len() - 1));
    assert forall|i: int| 0 <= i < s0.len() implies s0[i] == #[trigger] from_end(
        w,
        s0.len() as int,
        i,
    ) by {
        assert(s[i] == from_end(w1, s.len() as int, i));
    }
    assert(s =~= s0.push(t));
}

/// A sequence with a token behind it stays apart from any other such
/// sequence.
pub proof fn lemma_push_injective(a: Seq<Seq<char>>, s: Seq<char>, b: Seq<Seq<char>>, t: Seq<char>)
    requires
        a.push(s) == b.push(t),
    ensures
        a == b,
        s == t,
{
    assert(a.push(s).drop_last() =~= a);
    assert(b.push(t).drop_last() =~= b);
    assert(a.push(s).last() == s);
    assert(b.push(t).last() == t);
}

/// State `y` is the target of a transition.
pub open spec fn has_parent(a: Seq<StateView>, y: int) -> bool {
    exists|x: int, k: int|
        #![trigger a[x].edges[k]]
        0 <= x < a.len() && 0 <= k < a[x].edges.len() && a[x].edges[k].1 == y
}

/// The states form a trie: the root stands for the empty sequence, no two
/// states stand for the same, a transition leads to the state for the
/// sequence with the transition's token behind it, a state has one
/// transition per token at most, and every state but the root is the target
/// of a transition.
pub open spec fn trie_ok(a: Seq<StateView>) -> bool {
    &&& a.len() >= 1
    &&& a[0].label.len() == 0
    &&& forall|x: int| 0 <= x < a.len() ==> (#[trigger] a[x]).depth == a[x].label.len()
    &&& forall|x: int, y: int|
        #![trigger a[x], a[y]]
        0 <= x < a.len() && 0 <= y < a.len() && a[x].label == a[y].label ==> x == y
    &&& forall|x: int, k: int|
        #![trigger a[x].edges[k]]
        0 <= x < a.len() && 0 <= k < a[x].edges.len() ==> x < a[x].edges[k].1 < a.len()
            && a[a[x].edges[k].1].label == a[x].label.push(a[x].edges[k].0)
    &&& forall|x: int, k1: int, k2: int|
        #![trigger a[x].edges[k1], a[x].edges[k2]]
        0 <= x < a.len() && 0 <= k1 < a[x].edges.len() && 0 <= k2 < a[x].edges.len() && k1
            != k2 ==> a[x].edges[k1].0 != a[x].edges[k2].0
    &&& forall|y: int| 0 < y < a.len() ==> #[trigger] has_parent(a, y)
}

/// State `x` stands for the sequence `s`.
pub open spec fn has_label(a: Seq<StateView>, x: int, s: Seq<Seq<char>>) -> bool {
    0 <= x < a.len() && a[x].label == s
}

/// Some state stands for the sequence `s`.
pub open spec fn in_trie(a: Seq<StateView>, s: Seq<Seq<char>>) -> bool {
    exists|x: int| #[trigger] has_label(a, x, s)
}

/// Where the tokens of a list of transitions are all different, the
/// transition for a token is found wherever it stands.
pub proof fn lemma_lookup_unique(s: Seq<EdgeView>, k: int, i: int)
    requires
        0 <= i <= k < s.len(),
        forall|k1: int, k2: int|
            #![trigger s[k1], s[k2]]
            0 <= k1 < s.len() && 0 <= k2 < s.len() && k1 != k2 ==> s[k1].0 != s[k2].0,
    ensures
        lookup_from(s, s[k].0, i) == Some(s[k].1),
    decreases k - i,
{
    if i < k {
        assert(s[i].0 != s[k].0);
        lemma_lookup_unique(s, k, i + 1);
    }
}

/// The transition for `t` from the state for `s` leads to the state for `s`
/// with `t` behind it.
pub proof fn lemma_child_label(a: Seq<StateView>, x: int, t: Seq<char>)
    requires
        trie_ok(a),
        0 <= x < a.len(),
        lookup(a[x].edges, t).is_some(),
    ensures
        has_label(a, lookup(a[x].edges, t).unwrap(), a[x].label.push(t)),
        x < lookup(a[x].edges, t).unwrap(),
{
    lemma_lookup_in_range(a[x].edges, t, 0);
    let c = lookup(a[x].edges, t).unwrap();
    let k = choose|k: int| 0 <= k < a[x].edges.len() && #[trigger] a[x].edges[k] == (t, c);
    assert(a[x].edges[k].1 == c);
}

/// The state for a sequence with a token behind it is reached from the state
/// for the sequence by the transition for the token.
pub proof fn lemma_parent(a: Seq<StateView>, y: int, s: Seq<Seq<char>>, t: Seq<char>) -> (x: int)
    requires
        trie_ok(a),
        has_label(a, y, s.push(t)),
    ensures
        has_label(a, x, s),
        lookup(a[x].edges, t) == Some(y),
{
    assert(y != 0);
    assert(has_parent(a, y));
    let (x, k) = choose|x: int, k: int|
        #![trigger a[x].edges[k]]
        0 <= x < a.len() && 0 <= k < a[x].edges.len() && a[x].edges[k].1 == y;
    lemma_push_injective(a[x].label, a[x].edges[k].0, s, t);
    lemma_lookup_unique(a[x].edges, k, 0);
    x
}

/// State `f` stands for the longest proper end of `label` that a state stands
/// for.
pub open spec fn longest_proper(a: Seq<StateView>, f: int, label: Seq<Seq<char>>) -> bool {
    &&& 0 <= f < a.len()
    &&& proper_suffix(a[f].label, label)
    &&& forall|y: int|
        0 <= y < a.len() && proper_suffix((#[trigger] a[y]).label, label) ==> a[y].label.len()
            <= a[f].label.len()
}

/// The fallback of state `x` stands for the longest proper end of what `x`
/// stands for that a state stands for.
pub open spec fn fail_ok(a: Seq<StateView>, x: int) -> bool {
    x != 0 ==> longest_proper(a, a[x].fail, a[x].label)
}

/// State `y` stands for a proper end of `big` and has a transition for `t`.
pub open spec fn candidate(a: Seq<StateView>, y: int, big: Seq<Seq<char>>, t: Seq<char>) -> bool {
    0 <= y < a.len() && proper_suffix(a[y].label, big) && lookup(a[y].edges, t).is_some()
}

/// Every state that stands for a proper end of `big` and has a transition
/// for `t` stands for less than state `z`.
pub open spec fn below_state(a: Seq<StateView>, big: Seq<Seq<char>>, t: Seq<char>, z: int) -> bool {
    forall|y: int| #[trigger] candidate(a, y, big, t) ==> a[y].label.len() < a[z].label.len()
}

/// One step along the fallbacks: the fallback of `z` stands for an end of
/// `big`, and no state with a transition for `t` stands for a longer proper
/// end.
pub proof fn lemma_fallback_step(a: Seq<StateView>, big: Seq<Seq<char>>, t: Seq<char>, z: int)
    requires
        trie_ok(a),
        0 < z < a.len(),
        fail_ok(a, z),
        is_suffix(a[z].label, big),
        below_state(a, big, t, z),
    ensures
        proper_suffix(a[a[z].fail].label, big),
        forall|y: int| #[trigger] candidate(a, y, big, t) ==> a[y].label.len() <= a[a[z].fail].label.len(),
        lookup(a[a[z].fail].edges, t).is_none() ==> below_state(a, big, t, a[z].fail),
{
    let f = a[z].fail;
    lemma_suffix_transitive(a[f].label, a[z].label, big);
    assert forall|y: int| #[trigger] candidate(a, y, big, t) implies a[y].label.len()
        <= a[f].label.len() by {
        lemma_suffix_comparable(a[y].label, a[z].label, big);
        assert(proper_suffix(a[y].label, a[z].label));
    }
    if lookup(a[f].edges, t).is_none() {
        assert forall|y: int| #[trigger] candidate(a, y, big, t) implies a[y].label.len()
            < a[f].label.len() by {
            if a[y].label.len() == a[f].label.len() {
                lemma_suffix_equal(a[y].label, a[f].label, big);
                assert(a[y].label == a[f].label);
            }
        }
    }
}

/// Where the search along the fallbacks finds a transition, its target
/// stands for the longest proper end of `big` with `t` behind it.
pub proof fn lemma_fallback_found(
    a: Seq<StateView>,
    big: Seq<Seq<char>>,
    t: Seq<char>,
    z: int,
)
    requires
        trie_ok(a),
        0 <= z < a.len(),
        proper_suffix(a[z].label, big),
        lookup(a[z].edges, t).is_some(),
        forall|y: int| #[trigger] candidate(a, y, big, t) ==> a[y].label.len() <= a[z].label.len(),
    ensures
        longest_proper(a, lookup(a[z].edges, t).unwrap(), big.push(t)),
{
    let r = lookup(a[z].edges, t).unwrap();
    lemma_child_label(a, z, t);
    lemma_suffix_push(a[z].label, big, t);
    assert forall|y: int|
        0 <= y < a.len() && proper_suffix((#[trigger] a[y]).label, big.push(t)) implies a[y].label.len()
        <= a[r].label.len() by {
        if a[y].label.len() > 0 {
            lemma_suffix_pop(a[y].label, big, t);
            let x = lemma_parent(a, y, a[y].label.drop_last(), t);
            assert(candidate(a, x, big, t));
        }
    }
}

/// Where the search along the fallbacks finds no transition, the root stands
/// for the longest proper end of `big` with `t` behind it.
pub proof fn lemma_fallback_none(a: Seq<StateView>, big: Seq<Seq<char>>, t: Seq<char>)
    requires
        trie_ok(a),
        below_state(a, big, t, 0),
    ensures
        longest_proper(a, 0, big.push(t)),
{
    assert forall|y: int|
        0 <= y < a.len() && proper_suffix((#[trigger] a[y]).label, big.push(t)) implies a[y].label.len()
        <= a[0].label.len() by {
        if a[y].label.len() > 0 {
            lemma_suffix_pop(a[y].label, big, t);
            let x = lemma_parent(a, y, a[y].label.drop_last(), t);
            assert(candidate(a, x, big, t));
        }
    }
}

/// The states up to depth `d` have their fallbacks and report what they end
/// with.
pub open spec fn upto_ok(a: Seq<StateView>, phrases: Seq<Seq<Seq<char>>>, d: int) -> bool {
    forall|x: int|
        0 <= x < a.len() && (#[trigger] a[x]).depth <= d ==> fail_ok(a, x) && reports_ok(
            a,
            phrases,
            x,
        )
}

/// The states below depth `d` still fall back to the root and report what
/// they stand for.
pub open spec fn rest_ok(a: Seq<StateView>, phrases: Seq<Seq<Seq<char>>>, d: int) -> bool {
    forall|x: int|
        0 <= x < a.len() && (#[trigger] a[x]).depth > d ==> a[x].fail == 0 && owns_ok(
            a,
            phrases,
            x,
        )
}

/// A state with a fallback for the longest proper end, which reports what it
/// stands for and what its fallback reports, reports what it ends with.
pub proof fn lemma_reports(
    a: Seq<StateView>,
    phrases: Seq<Seq<Seq<char>>>,
    c: int,
    f: int,
    own: Seq<int>,
    all: Seq<int>,
)
    requires
        trie_ok(a),
        phrases_in_trie(a, phrases),
        0 <= c < a.len(),
        longest_proper(a, f, a[c].label),
        forall|id: int|
            #![trigger own.contains(id)]
            own.contains(id) <==> 0 <= id < phrases.len() && phrases[id] == a[c].label,
        reports_ok(a, phrases, f),
        all == own + a[f].matched,
    ensures
        forall|id: int|
            #![trigger all.contains(id)]
            all.contains(id) <==> 0 <= id < phrases.len() && is_suffix(phrases[id], a[c].label),
{
    let label = a[c].label;
    assert forall|id: int|
        #![trigger all.contains(id)]
        all.contains(id) <==> 0 <= id < phrases.len() && is_suffix(phrases[id], label) by {
        if all.contains(id) {
            let q = choose|q: int| 0 <= q < all.len() && all[q] == id;
            if q < own.len() {
                assert(own[q] == id);
                assert(own.contains(id));
                lemma_suffix_self(label);
            } else {
                assert(a[f].matched[q - own.len()] == id);
                assert(a[f].matched.contains(id));
                lemma_suffix_transitive(phrases[id], a[f].label, label);
            }
        }
        if 0 <= id < phrases.len() && is_suffix(phrases[id], label) {
            if phrases[id].len() == label.len() {
                lemma_suffix_self(label);
                lemma_suffix_equal(phrases[id], label, label);
                assert(own.contains(id));
                let q = choose|q: int| 0 <= q < own.len() && own[q] == id;
                assert(all[q] == id);
            } else {
                let y = choose|y: int| #[trigger] has_label(a, y, phrases[id]);
                assert(proper_suffix(a[y].label, label));
                lemma_suffix_comparable(phrases[id], a[f].label, label);
                assert(a[f].matched.contains(id));
                let q = choose|q: int| 0 <= q < a[f].matched.len() && a[f].matched[q] == id;
                assert(all[own.len() + q] == id);
            }
        }
    }
}

/// Where no state has depth `d`, no state is deeper.
pub proof fn lemma_no_deeper(a: Seq<StateView>, d: int, y: int)
    requires
        trie_ok(a),
        0 <= d,
        forall|x: int| 0 <= x < a.len() ==> (#[trigger] a[x]).depth != d,
        0 <= y < a.len(),
    ensures
        a[y].depth < d,
    decreases a[y].depth,
{
    if a[y].depth > d {
        assert(y != 0);
        assert(has_parent(a, y));
        let (x, k) = choose|x: int, k: int|
            #![trigger a[x].edges[k]]
            0 <= x < a.len() && 0 <= k < a[x].edges.len() && a[x].edges[k].1 == y;
        assert(a[y].label == a[x].label.push(a[x].edges[k].0));
        assert(a[x].depth == a[x].label.len());
        assert(a[y].depth == a[y].label.len());
        lemma_no_deeper(a, d, x);
    }
}

/// State `x` reports the phrases that are what it stands for.
pub open spec fn owns_ok(a: Seq<StateView>, phrases: Seq<Seq<Seq<char>>>, x: int) -> bool {
    forall|id: int|
        #![trigger a[x].matched.contains(id)]
        a[x].matched.contains(id) <==> 0 <= id < phrases.len() && phrases[id] == a[x].label
}

/// State `x` reports the phrases that what it stands for ends with.
pub open spec fn reports_ok(a: Seq<StateView>, phrases: Seq<Seq<Seq<char>>>, x: int) -> bool {
    forall|id: int|
        #![trigger a[x].matched.contains(id)]
        a[x].matched.contains(id) <==> 0 <= id < phrases.len() && is_suffix(
            phrases[id],
            a[x].label,
        )
}

/// Every phrase has its state.
pub open spec fn phrases_in_trie(a: Seq<StateView>, phrases: Seq<Seq<Seq<char>>>) -> bool {
    forall|id: int| 0 <= id < phrases.len() ==> in_trie(a, #[trigger] phrases[id])
}

/// No phrase is empty.
pub open spec fn phrases_ok(phrases: Seq<Seq<Seq<char>>>) -> bool {
    forall|id: int| 0 <= id < phrases.len() ==> (#[trigger] phrases[id]).len() > 0
}

/// The automaton while the phrases are entered: a trie in which every state
/// falls back to the root and reports the phrases that are what it stands
/// for.
pub open spec fn building(a: Seq<StateView>, phrases: Seq<Seq<Seq<char>>>) -> bool {
    &&& automaton_ok(a, phrases.len() as int)
    &&& trie_ok(a)
    &&& phrases_in_trie(a, phrases)
    &&& forall|x: int| 0 <= x < a.len() ==> (#[trigger] a[x]).fail == 0 && owns_ok(a, phrases, x)
}

/// The finished automaton of the phrases.
pub open spec fn automaton_full(a: Seq<StateView>, phrases: Seq<Seq<Seq<char>>>) -> bool {
    &&& automaton_ok(a, phrases.len() as int)
    &&& trie_ok(a)
    &&& phrases_in_trie(a, phrases)
    &&& forall|x: int| 0 <= x < a.len() ==> #[trigger] fail_ok(a, x)
    &&& forall|x: int| 0 <= x < a.len() ==> #[trigger] reports_ok(a, phrases, x)
}

/// `x` is one of the ids of the list.
pub open spec fn in_list(list: Seq<usize>, x: int) -> bool {
    exists|k: int| 0 <= k < list.len() && #[trigger] list[k] == x
}

/// Two automata have the same states but for what they fall back to and
/// report.
pub open spec fn same_trie(a: Seq<StateView>, b: Seq<StateView>) -> bool {
    &&& a.len() == b.len()
    &&& forall|x: int|
        0 <= x < a.len() ==> (#[trigger] b[x]).label == a[x].label && b[x].edges == a[x].edges
            && b[x].depth == a[x].depth
}

pub proof fn lemma_same_trie(a: Seq<StateView>, b: Seq<StateView>, phrases: Seq<Seq<Seq<char>>>)
    requires
        same_trie(a, b),
        trie_ok(a),
        phrases_in_trie(a, phrases),
    ensures
        trie_ok(b),
        phrases_in_trie(b, phrases),
{
    assert forall|x: int, y: int|
        #![trigger b[x], b[y]]
        0 <= x < b.len() && 0 <= y < b.len() && b[x].label == b[y].label implies x == y by {
        assert(a[x].label == a[y].label);
    }
    assert forall|x: int, k: int|
        #![trigger b[x].edges[k]]
        0 <= x < b.len() && 0 <= k < b[x].edges.len() implies x < b[x].edges[k].1 < b.len()
        && b[b[x].edges[k].1].label == b[x].label.push(b[x].edges[k].0) by {
        assert(b[x].edges[k] == a[x].edges[k]);
        let c = a[x].edges[k].1;
        assert(x < c < a.len() && a[c].label == a[x].label.push(a[x].edges[k].0));
        assert(b[c].label == a[c].label);
    }
    assert forall|x: int, k1: int, k2: int|
        #![trigger b[x].edges[k1], b[x].edges[k2]]
        0 <= x < b.len() && 0 <= k1 < b[x].edges.len() && 0 <= k2 < b[x].edges.len() && k1
            != k2 implies b[x].edges[k1].0 != b[x].edges[k2].0 by {
        assert(b[x].edges[k1] == a[x].edges[k1]);
        assert(b[x].edges[k2] == a[x].edges[k2]);
    }
    assert forall|y: int| 0 < y < b.len() implies #[trigger] has_parent(b, y) by {
        assert(has_parent(a, y));
        let (x1, k) = choose|x1: int, k: int|
            #![trigger a[x1].edges[k]]
            0 <= x1 < a.len() && 0 <= k < a[x1].edges.len() && a[x1].edges[k].1 == y;
        assert(b[x1].edges[k] == a[x1].edges[k]);
    }
    assert forall|x: int| 0 <= x < b.len() implies (#[trigger] b[x]).depth == b[x].label.len() by {
        assert(a[x].depth == a[x].label.len());
    }
    assert(b[0].label == a[0].label);
    assert forall|id: int| 0 <= id < phrases.len() implies in_trie(b, #[trigger] phrases[id]) by {
        let y = choose|y: int| #[trigger] has_label(a, y, phrases[id]);
        assert(has_label(b, y, phrases[id]));
    }
}

/// What holds of a state stays true where it keeps what it falls back to and
/// reports and the trie stays the same.
pub proof fn lemma_same_state(
    a: Seq<StateView>,
    b: Seq<StateView>,
    phrases: Seq<Seq<Seq<char>>>,
    x: int,
)
    requires
        same_trie(a, b),
        0 <= x < a.len(),
        b[x].fail == a[x].fail,
        b[x].matched == a[x].matched,
    ensures
        fail_ok(a, x) ==> fail_ok(b, x),
        reports_ok(a, phrases, x) ==> reports_ok(b, phrases, x),
        owns_ok(a, phrases, x) ==> owns_ok(b, phrases, x),
{
    if fail_ok(a, x) && x != 0 {
        let f = a[x].fail;
        assert(b[f].label == a[f].label);
        assert forall|y: int|
            0 <= y < b.len() && proper_suffix((#[trigger] b[y]).label, b[x].label) implies b[y].label.len()
            <= b[f].label.len() by {
            assert(proper_suffix(a[y].label, a[x].label));
        }
    }
}

/// The state of the work on the fallbacks while the states of depth `d` are
/// gone through: the states up to that depth are done, of the states one
/// deeper those that are listed, and no others.
pub open spec fn level_state(
    a: Seq<StateView>,
    phrases: Seq<Seq<Seq<char>>>,
    d: int,
    next: Seq<usize>,
) -> bool {
    &&& upto_ok(a, phrases, d)
    &&& rest_ok(a, phrases, d + 1)
    &&& forall|c: int|
        0 <= c < a.len() && (#[trigger] a[c]).depth == d + 1 ==> if in_list(next, c) {
            fail_ok(a, c) && reports_ok(a, phrases, c)
        } else {
            a[c].fail == 0 && owns_ok(a, phrases, c)
        }
}

/// The state of the work after one more state of the next depth is done.
pub proof fn lemma_link_state(
    a: Seq<StateView>,
    b: Seq<StateView>,
    phrases: Seq<Seq<Seq<char>>>,
    d: int,
    next0: Seq<usize>,
    next1: Seq<usize>,
    c: usize,
)
    requires
        level_state(a, phrases, d, next0),
        same_trie(a, b),
        0 <= c < a.len(),
        a[c as int].depth == d + 1,
        forall|x: int| 0 <= x < a.len() && x != c ==> b[x] == a[x],
        next1 == next0.push(c),
        fail_ok(b, c as int),
        reports_ok(b, phrases, c as int),
    ensures
        level_state(b, phrases, d, next1),
{
    assert forall|x: int| 0 <= x < b.len() && (#[trigger] b[x]).depth <= d implies fail_ok(b, x)
        && reports_ok(b, phrases, x) by {
        assert(a[x].depth <= d);
        lemma_same_state(a, b, phrases, x);
    }
    assert forall|x: int| 0 <= x < b.len() && (#[trigger] b[x]).depth > d + 1 implies b[x].fail == 0
        && owns_ok(b, phrases, x) by {
        assert(a[x].depth > d + 1);
        lemma_same_state(a, b, phrases, x);
    }
    assert forall|x: int| 0 <= x < b.len() && (#[trigger] b[x]).depth == d + 1 implies if in_list(
        next1,
        x,
    ) {
        fail_ok(b, x) && reports_ok(b, phrases, x)
    } else {
        b[x].fail == 0 && owns_ok(b, phrases, x)
    } by {
        assert(a[x].depth == d + 1);
        if x != c {
            lemma_same_state(a, b, phrases, x);
            if in_list(next1, x) {
                let k = choose|k: int| 0 <= k < next1.len() && #[trigger] next1[k] == x;
                assert(next0[k] == x);
                assert(in_list(next0, x));
            }
            if in_list(next0, x) {
                let k = choose|k: int| 0 <= k < next0.len() && #[trigger] next0[k] == x;
                assert(next1[k] == x);
            }
        } else {
            assert(next1[next0.len() as int] == c);
        }
    }
}

/// Two transitions to the same state are the same transition.
pub proof fn lemma_one_parent(a: Seq<StateView>, x1: int, k1: int, x2: int, k2: int)
    requires
        trie_ok(a),
        0 <= x1 < a.len(),
        0 <= k1 < a[x1].edges.len(),
        0 <= x2 < a.len(),
        0 <= k2 < a[x2].edges.len(),
        a[x1].edges[k1].1 == a[x2].edges[k2].1,
    ensures
        x1 == x2,
        k1 == k2,
{
    let c = a[x1].edges[k1].1;
    assert(a[c].label == a[x1].label.push(a[x1].edges[k1].0));
    assert(a[c].label == a[x2].label.push(a[x2].edges[k2].0));
    lemma_push_injective(a[x1].label, a[x1].edges[k1].0, a[x2].label, a[x2].edges[k2].0);
    assert(a[x1].label == a[x2].label);
}

/// At the start of the work on the fallbacks, the root and its children are
/// done.
pub proof fn lemma_first_level(a: Seq<StateView>, phrases: Seq<Seq<Seq<char>>>)
    requires
        building(a, phrases),
        phrases_ok(phrases),
    ensures
        upto_ok(a, phrases, 1),
        rest_ok(a, phrases, 1),
{
    assert forall|x: int| 0 <= x < a.len() && (#[trigger] a[x]).depth <= 1 implies fail_ok(a, x)
        && reports_ok(a, phrases, x) by {
        assert(a[x].depth == a[x].label.len());
        assert(a[x].fail == 0 && owns_ok(a, phrases, x));
        let label = a[x].label;
        assert forall|id: int|
            #![trigger a[x].matched.contains(id)]
            a[x].matched.contains(id) <==> 0 <= id < phrases.len() && is_suffix(
                phrases[id],
                label,
            ) by {
            if 0 <= id < phrases.len() && is_suffix(phrases[id], label) {
                assert(phrases[id].len() > 0);
                lemma_suffix_self(label);
                lemma_suffix_equal(phrases[id], label, label);
            }
            if a[x].matched.contains(id) {
                lemma_suffix_self(label);
            }
        }
        if x != 0 {
            assert(a[0].label.len() == 0);
            assert(label.len() == 1) by {
                if label.len() == 0 {
                    assert(a[x].label =~= a[0].label);
                }
            }
            assert(is_suffix(a[0].label, label));
        }
    }
    assert forall|x: int| 0 <= x < a.len() && (#[trigger] a[x]).depth > 1 implies a[x].fail == 0
        && owns_ok(a, phrases, x) by {}
}

/// State `x` stands for the longest end of `w` that a state stands for.
pub open spec fn longest_end(a: Seq<StateView>, x: int, w: Seq<Seq<char>>) -> bool {
    &&& 0 <= x < a.len()
    &&& is_suffix(a[x].label, w)
    &&& forall|y: int|
        0 <= y < a.len() && is_suffix((#[trigger] a[y]).label, w) ==> a[y].label.len()
            <= a[x].label.len()
}

/// State `y` stands for an end of `w` and has a transition for `t`.
pub open spec fn can_go_on(a: Seq<StateView>, y: int, w: Seq<Seq<char>>, t: Seq<char>) -> bool {
    0 <= y < a.len() && is_suffix(a[y].label, w) && lookup(a[y].edges, t).is_some()
}

/// From a state on the fallback chain of the longest end of `w`, with no
/// longer end of `w` that has a transition for `t`, the next state on `t`
/// stands for the longest end of `w` with `t` behind it.
pub proof fn lemma_next_state_chain(
    a: Seq<StateView>,
    phrases: Seq<Seq<Seq<char>>>,
    z: int,
    w: Seq<Seq<char>>,
    t: Seq<char>,
)
    requires
        automaton_full(a, phrases),
        0 <= z < a.len(),
        is_suffix(a[z].label, w),
        forall|y: int| #[trigger] can_go_on(a, y, w, t) ==> a[y].label.len() <= a[z].label.len(),
    ensures
        longest_end(a, next_state(a, z, t), w.push(t)),
    decreases a[z].depth,
{
    let n = phrases.len() as int;
    assert(state_ok(a, z, n));
    match lookup(a[z].edges, t) {
        Some(c) => {
            lemma_child_label(a, z, t);
            lemma_suffix_push(a[z].label, w, t);
            assert forall|y: int|
                0 <= y < a.len() && is_suffix((#[trigger] a[y]).label, w.push(t)) implies a[y].label.len()
                <= a[c].label.len() by {
                if a[y].label.len() > 0 {
                    lemma_suffix_pop(a[y].label, w, t);
                    let x = lemma_parent(a, y, a[y].label.drop_last(), t);
                    assert(can_go_on(a, x, w, t));
                }
            }
        },
        None => {
            if z == 0 {
                assert forall|y: int|
                    0 <= y < a.len() && is_suffix((#[trigger] a[y]).label, w.push(t)) implies a[y].label.len()
                    <= a[0].label.len() by {
                    if a[y].label.len() > 0 {
                        lemma_suffix_pop(a[y].label, w, t);
                        let x = lemma_parent(a, y, a[y].label.drop_last(), t);
                        assert(can_go_on(a, x, w, t));
                        assert(a[x].label =~= a[0].label);
                    }
                }
                lemma_suffix_self(w.push(t));
            } else {
                assert(fail_ok(a, z));
                let f = a[z].fail;
                lemma_suffix_transitive(a[f].label, a[z].label, w);
                assert forall|y: int| #[trigger] can_go_on(a, y, w, t) implies a[y].label.len()
                    <= a[f].label.len() by {
                    lemma_suffix_comparable(a[y].label, a[z].label, w);
                    if a[y].label.len() == a[z].label.len() {
                        lemma_suffix_equal(a[y].label, a[z].label, w);
                        assert(a[y].label == a[z].label);
                    }
                    assert(proper_suffix(a[y].label, a[z].label));
                }
                lemma_next_state_chain(a, phrases, f, w, t);
            }
        },
    }
}

/// The state of the automaton after the tokens `w`, read from the root.
pub open spec fn run(a: Seq<StateView>, w: Seq<Seq<char>>) -> int
    decreases w.len(),
{
    if w.len() == 0 {
        0
    } else {
        next_state(a, run(a, w.drop_last()), w.last())
    }
}

/// After the tokens `w`, the automaton is in the state that stands for the
/// longest end of `w` that is the beginning of a phrase.
pub proof fn lemma_run(a: Seq<StateView>, phrases: Seq<Seq<Seq<char>>>, w: Seq<Seq<char>>)
    requires
        automaton_full(a, phrases),
    ensures
        longest_end(a, run(a, w), w),
    decreases w.len(),
{
    if w.len() == 0 {
        assert(a[0].label.len() == 0);
        assert forall|y: int|
            0 <= y < a.len() && is_suffix((#[trigger] a[y]).label, w) implies a[y].label.len()
            <= a[0].label.len() by {}
    } else {
        let w0 = w.drop_last();
        let t = w.last();
        lemma_run(a, phrases, w0);
        let x = run(a, w0);
        assert forall|y: int| #[trigger] can_go_on(a, y, w0, t) implies a[y].label.len()
            <= a[x].label.len() by {}
        lemma_next_state_chain(a, phrases, x, w0, t);
        assert(w0.push(t) =~= w);
    }
}

/// After the tokens `w`, the automaton reports the phrases that `w` ends
/// with, and no others.
pub proof fn lemma_run_reports(
    a: Seq<StateView>,
    phrases: Seq<Seq<Seq<char>>>,
    w: Seq<Seq<char>>,
    id: int,
)
    requires
        automaton_full(a, phrases),
    ensures
        0 <= run(a, w) < a.len(),
        a[run(a, w)].matched.contains(id) <==> 0 <= id < phrases.len() && is_suffix(phrases[id], w),
{
    lemma_run(a, phrases, w);
    let x = run(a, w);
    assert(reports_ok(a, phrases, x));
    if a[x].matched.contains(id) {
        lemma_suffix_transitive(phrases[id], a[x].label, w);
    }
    if 0 <= id < phrases.len() && is_suffix(phrases[id], w) {
        let y = choose|y: int| #[trigger] has_label(a, y, phrases[id]);
        assert(is_suffix(a[y].label, w));
        lemma_suffix_comparable(phrases[id], a[x].label, w);
    }
}

} // verus!
