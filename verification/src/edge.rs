//! Edges and ordered edge sets.
//!
//! An edge is a token together with the id of the node at its other end. The
//! edges of a node are kept in a vector that is strictly increasing in the
//! order of `(token, node id)`, so that the vector stands for a set and is
//! walked in that order.

use vstd::prelude::*;
use crate::token::{Order, token_lt, compare_tokens, token_eq, lemma_token_lt_irreflexive, lemma_token_lt_asymmetric, lemma_token_lt_transitive, lemma_token_order_total};

verus! {

/// An edge as a plain value: its token's characters and its node id.
pub type EdgeView = (Seq<char>, int);

pub open spec fn edge_view<'a>(e: (&'a str, usize)) -> EdgeView {
    (e.0@, e.1 as int)
}

pub open spec fn edges_view<'a>(v: Seq<(&'a str, usize)>) -> Seq<EdgeView> {
    Seq::new(v.len(), |i: int| edge_view(v[i]))
}

pub open spec fn option_edge_view<'a>(e: Option<(&'a str, usize)>) -> Option<EdgeView> {
    match e {
        Some(x) => Some(edge_view(x)),
        None => None,
    }
}

/// The order of edges: by token, then by node id.
pub open spec fn edge_lt(a: EdgeView, b: EdgeView) -> bool {
    token_lt(a.0, b.0) || (a.0 == b.0 && a.1 < b.1)
}

pub open spec fn edge_order(a: EdgeView, b: EdgeView) -> Order {
    if a == b {
        Order::Equal
    } else if edge_lt(a, b) {
        Order::Less
    } else {
        Order::Greater
    }
}

/// A sequence of edges is an edge set when it is strictly increasing.
pub open spec fn sorted(s: Seq<EdgeView>) -> bool {
    forall|i: int, j: int| 0 <= i < j < s.len() ==> edge_lt(#[trigger] s[i], #[trigger] s[j])
}

/// The edge set `s` with `e` added.
pub open spec fn insert_sorted(s: Seq<EdgeView>, e: EdgeView) -> Seq<EdgeView>
    decreases s.len(),
{
    if s.len() == 0 {
        seq![e]
    } else if s[0] == e {
        s
    } else if edge_lt(e, s[0]) {
        seq![e] + s
    } else {
        seq![s[0]] + insert_sorted(s.drop_first(), e)
    }
}

/// The edge set `s` without `e`.
pub open spec fn remove_sorted(s: Seq<EdgeView>, e: EdgeView) -> Seq<EdgeView>
    decreases s.len(),
{
    if s.len() == 0 {
        s
    } else if s[0] == e {
        s.drop_first()
    } else {
        seq![s[0]] + remove_sorted(s.drop_first(), e)
    }
}

pub proof fn lemma_edge_lt_irreflexive(a: EdgeView)
    ensures
        !edge_lt(a, a),
{
    lemma_token_lt_irreflexive(a.0);
}

pub proof fn lemma_edge_lt_asymmetric(a: EdgeView, b: EdgeView)
    requires
        edge_lt(a, b),
    ensures
        !edge_lt(b, a),
        a != b,
{
    if token_lt(a.0, b.0) {
        lemma_token_lt_asymmetric(a.0, b.0);
    }
    if token_lt(b.0, a.0) {
        lemma_token_lt_asymmetric(b.0, a.0);
    }
}

pub proof fn lemma_edge_lt_transitive(a: EdgeView, b: EdgeView, c: EdgeView)
    requires
        edge_lt(a, b),
        edge_lt(b, c),
    ensures
        edge_lt(a, c),
{
    if token_lt(a.0, b.0) && token_lt(b.0, c.0) {
        lemma_token_lt_transitive(a.0, b.0, c.0);
    }
}

pub proof fn lemma_edge_order_total(a: EdgeView, b: EdgeView)
    ensures
        a == b || edge_lt(a, b) || edge_lt(b, a),
{
    lemma_token_order_total(a.0, b.0);
}

/// No edge occurs twice in an edge set.
pub proof fn lemma_sorted_distinct(s: Seq<EdgeView>, i: int, j: int)
    requires
        sorted(s),
        0 <= i < s.len(),
        0 <= j < s.len(),
        s[i] == s[j],
    ensures
        i == j,
{
    if i < j {
        lemma_edge_lt_irreflexive(s[i]);
    } else if j < i {
        lemma_edge_lt_irreflexive(s[i]);
    }
}

pub proof fn lemma_sorted_drop_first(s: Seq<EdgeView>)
    requires
        sorted(s),
        s.len() > 0,
    ensures
        sorted(s.drop_first()),
{
    let t = s.drop_first();
    assert forall|i: int, j: int| 0 <= i < j < t.len() implies edge_lt(
        #[trigger] t[i],
        #[trigger] t[j],
    ) by {
        assert(t[i] == s[i + 1]);
        assert(t[j] == s[j + 1]);
    }
}

/// Adding `e` to an edge set puts it at the place `k` before which every edge
/// is smaller and at which the edge, if there is one, is larger.
pub proof fn lemma_insert_sorted_at(s: Seq<EdgeView>, e: EdgeView, k: int)
    requires
        sorted(s),
        0 <= k <= s.len(),
        forall|i: int| 0 <= i < k ==> edge_lt(#[trigger] s[i], e),
        k < s.len() ==> edge_lt(e, s[k]),
    ensures
        insert_sorted(s, e) == s.insert(k, e),
    decreases k,
{
    if s.len() == 0 {
        assert(seq![e] =~= s.insert(k, e));
    } else if k == 0 {
        lemma_edge_lt_asymmetric(e, s[0]);
        assert(seq![e] + s =~= s.insert(0, e));
    } else {
        lemma_edge_lt_asymmetric(s[0], e);
        let t = s.drop_first();
        lemma_sorted_drop_first(s);
        assert forall|i: int| 0 <= i < k - 1 implies edge_lt(#[trigger] t[i], e) by {
            assert(t[i] == s[i + 1]);
        }
        lemma_insert_sorted_at(t, e, k - 1);
        assert(seq![s[0]] + t.insert(k - 1, e) =~= s.insert(k, e));
    }
}

/// Adding an edge that the set holds leaves the set as it is.
pub proof fn lemma_insert_sorted_present(s: Seq<EdgeView>, e: EdgeView, k: int)
    requires
        sorted(s),
        0 <= k < s.len(),
        s[k] == e,
    ensures
        insert_sorted(s, e) == s,
    decreases k,
{
    if k > 0 {
        lemma_edge_lt_asymmetric(s[0], e);
        let t = s.drop_first();
        lemma_sorted_drop_first(s);
        lemma_insert_sorted_present(t, e, k - 1);
        assert(seq![s[0]] + t =~= s);
    }
}

/// Removing the edge at place `k` of an edge set.
pub proof fn lemma_remove_sorted_at(s: Seq<EdgeView>, e: EdgeView, k: int)
    requires
        sorted(s),
        0 <= k < s.len(),
        s[k] == e,
    ensures
        remove_sorted(s, e) == s.remove(k),
    decreases k,
{
    if k == 0 {
        assert(s.drop_first() =~= s.remove(0));
    } else {
        lemma_edge_lt_asymmetric(s[0], e);
        let t = s.drop_first();
        lemma_sorted_drop_first(s);
        lemma_remove_sorted_at(t, e, k - 1);
        assert(seq![s[0]] + t.remove(k - 1) =~= s.remove(k));
    }
}

/// Removing an edge that the set does not hold leaves the set as it is.
pub proof fn lemma_remove_sorted_absent(s: Seq<EdgeView>, e: EdgeView)
    requires
        !s.contains(e),
    ensures
        remove_sorted(s, e) == s,
    decreases s.len(),
{
    if s.len() > 0 {
        assert(s[0] != e);
        let t = s.drop_first();
        assert forall|i: int| 0 <= i < t.len() implies t[i] != e by {
            assert(t[i] == s[i + 1]);
        }
        lemma_remove_sorted_absent(t, e);
        assert(seq![s[0]] + t =~= s);
    }
}

/// What adding an edge does to an edge set: the result is an edge set, and it
/// holds what the set held and the new edge.
pub proof fn lemma_insert_sorted(s: Seq<EdgeView>, e: EdgeView)
    requires
        sorted(s),
    ensures
        sorted(insert_sorted(s, e)),
        forall|x: EdgeView| #[trigger]
            insert_sorted(s, e).contains(x) <==> (s.contains(x) || x == e),
        s.len() <= insert_sorted(s, e).len() <= s.len() + 1,
        insert_sorted(s, e).len() == s.len() <==> s.contains(e),
{
    let k = lower_bound(s, e);
    lemma_lower_bound(s, e);
    if k < s.len() && s[k] == e {
        lemma_insert_sorted_present(s, e, k);
    } else {
        if k < s.len() {
            lemma_edge_order_total(e, s[k]);
        }
        lemma_insert_sorted_at(s, e, k);
        let r = s.insert(k, e);
        assert forall|i: int, j: int| 0 <= i < j < r.len() implies edge_lt(
            #[trigger] r[i],
            #[trigger] r[j],
        ) by {
            if j == k {
                assert(r[i] == s[i]);
            } else if i == k {
                assert(r[j] == s[j - 1]);
                if j - 1 > k {
                    lemma_edge_lt_transitive(e, s[k], s[j - 1]);
                }
            } else {
                let i0 = if i < k { i } else { i - 1 };
                let j0 = if j < k { j } else { j - 1 };
                assert(r[i] == s[i0]);
                assert(r[j] == s[j0]);
            }
        }
        assert forall|x: EdgeView| #[trigger] r.contains(x) <==> (s.contains(x) || x == e) by {
            if r.contains(x) {
                let i = choose|i: int| 0 <= i < r.len() && r[i] == x;
                if i < k {
                    assert(s[i] == x);
                } else if i > k {
                    assert(s[i - 1] == x);
                }
            }
            if s.contains(x) {
                let i = choose|i: int| 0 <= i < s.len() && s[i] == x;
                if i < k {
                    assert(r[i] == x);
                } else {
                    assert(r[i + 1] == x);
                }
            }
            if x == e {
                assert(r[k] == x);
            }
        }
        if s.contains(e) {
            let i = choose|i: int| 0 <= i < s.len() && s[i] == e;
            if i < k {
                lemma_edge_lt_irreflexive(e);
            } else if i > k {
                lemma_edge_lt_asymmetric(e, s[k]);
                lemma_edge_lt_irreflexive(e);
            }
        }
    }
}

/// What removing an edge does to an edge set.
pub proof fn lemma_remove_sorted(s: Seq<EdgeView>, e: EdgeView)
    requires
        sorted(s),
    ensures
        sorted(remove_sorted(s, e)),
        forall|x: EdgeView| #[trigger]
            remove_sorted(s, e).contains(x) <==> (s.contains(x) && x != e),
        remove_sorted(s, e).len() <= s.len(),
{
    if s.contains(e) {
        let k = choose|k: int| 0 <= k < s.len() && s[k] == e;
        lemma_remove_sorted_at(s, e, k);
        let r = s.remove(k);
        assert forall|i: int, j: int| 0 <= i < j < r.len() implies edge_lt(
            #[trigger] r[i],
            #[trigger] r[j],
        ) by {
            let i0 = if i < k { i } else { i + 1 };
            let j0 = if j < k { j } else { j + 1 };
            assert(r[i] == s[i0]);
            assert(r[j] == s[j0]);
        }
        assert forall|x: EdgeView| #[trigger] r.contains(x) <==> (s.contains(x) && x != e) by {
            if r.contains(x) {
                let i = choose|i: int| 0 <= i < r.len() && r[i] == x;
                let i0 = if i < k { i } else { i + 1 };
                assert(s[i0] == x);
                if x == e {
                    lemma_sorted_distinct(s, i0, k);
                }
            }
            if s.contains(x) && x != e {
                let i = choose|i: int| 0 <= i < s.len() && s[i] == x;
                if i < k {
                    assert(r[i] == x);
                } else {
                    assert(r[i - 1] == x);
                }
            }
        }
    } else {
        lemma_remove_sorted_absent(s, e);
    }
}

/// The number of edges of `s` that are smaller than `e`.
pub open spec fn lower_bound(s: Seq<EdgeView>, e: EdgeView) -> int
    decreases s.len(),
{
    if s.len() == 0 {
        0
    } else if edge_lt(s.last(), e) {
        s.len() as int
    } else {
        lower_bound(s.drop_last(), e)
    }
}

pub proof fn lemma_lower_bound(s: Seq<EdgeView>, e: EdgeView)
    requires
        sorted(s),
    ensures
        0 <= lower_bound(s, e) <= s.len(),
        forall|i: int| 0 <= i < lower_bound(s, e) ==> edge_lt(#[trigger] s[i], e),
        lower_bound(s, e) < s.len() ==> !edge_lt(s[lower_bound(s, e)], e),
    decreases s.len(),
{
    if s.len() == 0 {
    } else if edge_lt(s.last(), e) {
        assert forall|i: int| 0 <= i < s.len() implies edge_lt(#[trigger] s[i], e) by {
            if i < s.len() - 1 {
                lemma_edge_lt_transitive(s[i], s.last(), e);
            }
        }
    } else {
        let t = s.drop_last();
        assert forall|i: int, j: int| 0 <= i < j < t.len() implies edge_lt(
            #[trigger] t[i],
            #[trigger] t[j],
        ) by {
            assert(t[i] == s[i]);
            assert(t[j] == s[j]);
        }
        lemma_lower_bound(t, e);
        let k = lower_bound(t, e);
        assert forall|i: int| 0 <= i < k implies edge_lt(#[trigger] s[i], e) by {
            assert(t[i] == s[i]);
        }
        if k < t.len() {
            assert(t[k] == s[k]);
        }
    }
}

/// Two edge sets that hold the same edges are the same sequence.
pub proof fn lemma_sorted_unique(a: Seq<EdgeView>, b: Seq<EdgeView>)
    requires
        sorted(a),
        sorted(b),
        forall|x: EdgeView| a.contains(x) <==> b.contains(x),
    ensures
        a == b,
    decreases a.len(),
{
    if a.len() == 0 {
        if b.len() > 0 {
            assert(b.contains(b[0]));
        }
        assert(a =~= b);
    } else {
        assert(a.contains(a[0]));
        assert(b.contains(a[0]));
        assert(b.contains(b[0]));
        assert(a.contains(b[0]));
        let i = choose|i: int| 0 <= i < b.len() && b[i] == a[0];
        let j = choose|j: int| 0 <= j < a.len() && a[j] == b[0];
        if i > 0 {
            // b[0] < b[i] == a[0] <= a[j] == b[0]
            if j > 0 {
                lemma_edge_lt_transitive(b[0], a[0], a[j]);
            }
            lemma_edge_lt_irreflexive(b[0]);
        }
        assert(a[0] == b[0]);
        let a1 = a.drop_first();
        let b1 = b.drop_first();
        lemma_sorted_drop_first(a);
        lemma_sorted_drop_first(b);
        assert forall|x: EdgeView| a1.contains(x) <==> b1.contains(x) by {
            if a1.contains(x) {
                let k = choose|k: int| 0 <= k < a1.len() && a1[k] == x;
                assert(a[k + 1] == x);
                assert(a.contains(x));
                lemma_edge_lt_asymmetric(a[0], x);
                let m = choose|m: int| 0 <= m < b.len() && b[m] == x;
                assert(b1[m - 1] == x);
            }
            if b1.contains(x) {
                let k = choose|k: int| 0 <= k < b1.len() && b1[k] == x;
                assert(b[k + 1] == x);
                assert(b.contains(x));
                lemma_edge_lt_asymmetric(b[0], x);
                let m = choose|m: int| 0 <= m < a.len() && a[m] == x;
                assert(a1[m - 1] == x);
            }
        }
        lemma_sorted_unique(a1, b1);
        assert(a =~= seq![a[0]] + a1);
        assert(b =~= seq![b[0]] + b1);
    }
}

/// Compares two edges by token, then by node id.
pub fn compare_edges(a: (&str, usize), b: (&str, usize)) -> (r: Order)
    ensures
        r == edge_order(edge_view(a), edge_view(b)),
{
    match compare_tokens(a.0, b.0) {
        Order::Less => Order::Less,
        Order::Greater => Order::Greater,
        Order::Equal => {
            if a.1 < b.1 {
                Order::Less
            } else if a.1 > b.1 {
                Order::Greater
            } else {
                Order::Equal
            }
        },
    }
}

/// Whether two edges are the same.
pub fn edge_eq(a: (&str, usize), b: (&str, usize)) -> (r: bool)
    ensures
        r == (edge_view(a) == edge_view(b)),
{
    a.1 == b.1 && token_eq(a.0, b.0)
}

/// Whether two optional edges are the same.
pub fn option_edge_eq(a: Option<(&str, usize)>, b: Option<(&str, usize)>) -> (r: bool)
    ensures
        r == (option_edge_view(a) == option_edge_view(b)),
{
    match (a, b) {
        (Some(x), Some(y)) => edge_eq(x, y),
        (None, None) => true,
        _ => false,
    }
}

/// Finds the place of `e` in an edge set: the number of edges smaller than
/// `e`, and whether the edge at that place is `e`.
pub fn edges_find(v: &Vec<(&str, usize)>, e: (&str, usize)) -> (r: (usize, bool))
    requires
        sorted(edges_view(v@)),
    ensures
        r.0 as int == lower_bound(edges_view(v@), edge_view(e)),
        r.0 <= v.len(),
        forall|i: int| 0 <= i < r.0 ==> edge_lt(#[trigger] edges_view(v@)[i], edge_view(e)),
        r.1 <==> edges_view(v@).contains(edge_view(e)),
        r.1 ==> r.0 < v.len() && edges_view(v@)[r.0 as int] == edge_view(e),
        !r.1 && r.0 < v.len() ==> edge_lt(edge_view(e), edges_view(v@)[r.0 as int]),
{
    let ghost s = edges_view(v@);
    let ghost ev = edge_view(e);
    proof {
        lemma_lower_bound(s, ev);
    }
    let mut i: usize = 0;
    let mut found = false;
    while i < v.len()
        invariant_except_break
            !found,
        invariant
            i <= v.len(),
            s == edges_view(v@),
            ev == edge_view(e),
            sorted(s),
            forall|j: int| 0 <= j < i ==> edge_lt(#[trigger] s[j], ev),
        ensures
            i <= v.len(),
            forall|j: int| 0 <= j < i ==> edge_lt(#[trigger] s[j], ev),
            found ==> i < v.len() && s[i as int] == ev,
            !found && i < v.len() ==> edge_lt(ev, s[i as int]),
        decreases v.len() - i,
    {
        let x = v[i];
        assert(s[i as int] == edge_view(x));
        match compare_edges(x, e) {
            Order::Less => {
                i += 1;
            },
            Order::Equal => {
                found = true;
                break ;
            },
            Order::Greater => {
                proof {
                    lemma_edge_order_total(s[i as int], ev);
                }
                break ;
            },
        }
    }
    proof {
        let k = lower_bound(s, ev);
        // every edge before `i` is smaller, the edge at `i` is not: `i` is the bound
        if k < i {
            assert(edge_lt(s[k], ev));
        } else if i < k {
            assert(edge_lt(s[i as int], ev));
            if found {
                lemma_edge_lt_irreflexive(ev);
            } else {
                lemma_edge_lt_asymmetric(ev, s[i as int]);
            }
        }
        if !found && s.contains(ev) {
            let j = choose|j: int| 0 <= j < s.len() && s[j] == ev;
            lemma_edge_lt_irreflexive(ev);
            if j > i {
                lemma_edge_lt_transitive(ev, s[i as int], s[j]);
            } else if j == i {
            }
        }
    }
    (i, found)
}

/// Whether an edge set holds `e`.
pub fn edges_contains(v: &Vec<(&str, usize)>, e: (&str, usize)) -> (r: bool)
    requires
        sorted(edges_view(v@)),
    ensures
        r <==> edges_view(v@).contains(edge_view(e)),
{
    let (_, found) = edges_find(v, e);
    found
}

/// Adds `e` to an edge set. Returns whether the set did not hold it yet.
pub fn edges_insert<'a>(v: &mut Vec<(&'a str, usize)>, e: (&'a str, usize)) -> (added: bool)
    requires
        sorted(edges_view(old(v)@)),
    ensures
        edges_view(final(v)@) == insert_sorted(edges_view(old(v)@), edge_view(e)),
        sorted(edges_view(final(v)@)),
        forall|x: EdgeView| #[trigger]
            edges_view(final(v)@).contains(x) <==> (edges_view(old(v)@).contains(x) || x
                == edge_view(e)),
        added <==> !edges_view(old(v)@).contains(edge_view(e)),
        final(v).len() == old(v).len() + (if added { 1int } else { 0int }),
{
    let ghost s = edges_view(v@);
    let (k, found) = edges_find(v, e);
    proof {
        lemma_insert_sorted(s, edge_view(e));
    }
    if found {
        proof {
            lemma_insert_sorted_present(s, edge_view(e), k as int);
        }
        false
    } else {
        v.insert(k, e);
        proof {
            lemma_insert_sorted_at(s, edge_view(e), k as int);
            assert(edges_view(v@) =~= s.insert(k as int, edge_view(e)));
        }
        true
    }
}

/// Takes `e` out of an edge set. Returns whether the set held it.
pub fn edges_remove<'a>(v: &mut Vec<(&'a str, usize)>, e: (&'a str, usize)) -> (removed: bool)
    requires
        sorted(edges_view(old(v)@)),
    ensures
        edges_view(final(v)@) == remove_sorted(edges_view(old(v)@), edge_view(e)),
        sorted(edges_view(final(v)@)),
        forall|x: EdgeView| #[trigger]
            edges_view(final(v)@).contains(x) <==> (edges_view(old(v)@).contains(x) && x
                != edge_view(e)),
        removed <==> edges_view(old(v)@).contains(edge_view(e)),
        final(v).len() == old(v).len() - (if removed { 1int } else { 0int }),
{
    let ghost s = edges_view(v@);
    let (k, found) = edges_find(v, e);
    proof {
        lemma_remove_sorted(s, edge_view(e));
    }
    if found {
        v.remove(k);
        proof {
            lemma_remove_sorted_at(s, edge_view(e), k as int);
            assert(edges_view(v@) =~= s.remove(k as int));
        }
        true
    } else {
        proof {
            lemma_remove_sorted_absent(s, edge_view(e));
        }
        false
    }
}

} // verus!
