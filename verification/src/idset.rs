//! Sets of ids, kept as strictly increasing vectors.

use vstd::prelude::*;

verus! {

/// A sequence of ids is an id set when it is strictly increasing.
pub open spec fn increasing(s: Seq<usize>) -> bool {
    forall|i: int, j: int| 0 <= i < j < s.len() ==> s[i] < s[j]
}

/// Every id of `s` is below `bound`.
pub open spec fn below(s: Seq<usize>, bound: int) -> bool {
    forall|i: int| 0 <= i < s.len() ==> s[i] < bound
}

/// An id set below a bound holds at most that many ids.
pub proof fn lemma_increasing_len(s: Seq<usize>, bound: int)
    requires
        increasing(s),
        below(s, bound),
        0 <= bound,
    ensures
        s.len() <= bound,
    decreases s.len(),
{
    if s.len() > 0 {
        let t = s.drop_last();
        assert forall|i: int, j: int| 0 <= i < j < t.len() implies t[i] < t[j] by {
            assert(t[i] == s[i]);
            assert(t[j] == s[j]);
        }
        assert forall|i: int| 0 <= i < t.len() implies t[i] < s.last() as int by {
            assert(t[i] == s[i]);
        }
        lemma_increasing_len(t, s.last() as int);
    }
}

/// The number of ids in all the sets of a table.
pub open spec fn total_len(t: Seq<Vec<usize>>) -> nat
    decreases t.len(),
{
    if t.len() == 0 {
        0
    } else {
        total_len(t.drop_last()) + t.last()@.len()
    }
}

pub proof fn lemma_total_len_update(t: Seq<Vec<usize>>, i: int, v: Vec<usize>)
    requires
        0 <= i < t.len(),
    ensures
        total_len(t.update(i, v)) == total_len(t) - t[i]@.len() + v@.len(),
    decreases t.len(),
{
    let u = t.update(i, v);
    if i == t.len() - 1 {
        assert(u.drop_last() =~= t.drop_last());
    } else {
        assert(u.drop_last() =~= t.drop_last().update(i, v));
        lemma_total_len_update(t.drop_last(), i, v);
    }
}

/// A table of `t.len()` sets below `bound` holds at most `t.len() * bound` ids.
pub proof fn lemma_total_len_bound(t: Seq<Vec<usize>>, bound: int)
    requires
        0 <= bound,
        forall|i: int| 0 <= i < t.len() ==> increasing((#[trigger] t[i])@) && below(t[i]@, bound),
    ensures
        total_len(t) <= t.len() * bound,
    decreases t.len(),
{
    if t.len() > 0 {
        let u = t.drop_last();
        assert forall|i: int| 0 <= i < u.len() implies increasing((#[trigger] u[i])@) && below(
            u[i]@,
            bound,
        ) by {
            assert(u[i] == t[i]);
        }
        lemma_total_len_bound(u, bound);
        lemma_increasing_len(t.last()@, bound);
        assert(t.len() * bound == u.len() * bound + bound) by (nonlinear_arith)
            requires
                t.len() == u.len() + 1,
        ;
    } else {
        assert(t.len() * bound == 0) by (nonlinear_arith)
            requires
                t.len() == 0,
        ;
    }
}

/// Finds the place of `x` in an id set: the number of ids below `x`, and
/// whether the id at that place is `x`.
pub fn ids_find(v: &Vec<usize>, x: usize) -> (r: (usize, bool))
    requires
        increasing(v@),
    ensures
        r.0 <= v.len(),
        forall|i: int| 0 <= i < r.0 ==> v@[i] < x,
        r.1 <==> v@.contains(x),
        r.1 ==> r.0 < v.len() && v@[r.0 as int] == x,
        !r.1 && r.0 < v.len() ==> x < v@[r.0 as int],
{
    let mut i: usize = 0;
    while i < v.len() && v[i] < x
        invariant
            i <= v.len(),
            forall|j: int| 0 <= j < i ==> v@[j] < x,
        decreases v.len() - i,
    {
        i += 1;
    }
    let found = i < v.len() && v[i] == x;
    proof {
        if !found && v@.contains(x) {
            let j = choose|j: int| 0 <= j < v@.len() && v@[j] == x;
            if j > i {
                assert(v@[i as int] < v@[j]);
            }
        }
    }
    (i, found)
}

/// The id set `s` with `x` added.
pub open spec fn ids_put(s: Seq<usize>, x: usize) -> Seq<usize>
    decreases s.len(),
{
    if s.len() == 0 {
        seq![x]
    } else if x < s[0] {
        seq![x] + s
    } else if x == s[0] {
        s
    } else {
        seq![s[0]] + ids_put(s.drop_first(), x)
    }
}

/// Adding an id that is there changes nothing.
pub proof fn lemma_ids_put_there(s: Seq<usize>, x: usize)
    requires
        increasing(s),
        s.contains(x),
    ensures
        ids_put(s, x) == s,
    decreases s.len(),
{
    let k = choose|k: int| 0 <= k < s.len() && s[k] == x;
    if k > 0 {
        assert(s[0] < s[k]);
        let t = s.drop_first();
        assert(t[k - 1] == x);
        assert forall|i: int, j: int| 0 <= i < j < t.len() implies t[i] < t[j] by {
            assert(s[i + 1] < s[j + 1]);
        }
        lemma_ids_put_there(t, x);
        assert(seq![s[0]] + t =~= s);
    }
}

/// A new id goes behind the ids below it.
pub proof fn lemma_ids_put_at(s: Seq<usize>, x: usize, k: int)
    requires
        increasing(s),
        0 <= k <= s.len(),
        forall|i: int| 0 <= i < k ==> s[i] < x,
        k < s.len() ==> x < s[k],
    ensures
        ids_put(s, x) == s.insert(k, x),
    decreases s.len(),
{
    if s.len() == 0 {
        assert(seq![x] =~= s.insert(0, x));
    } else if k == 0 {
        assert(seq![x] + s =~= s.insert(0, x));
    } else {
        let t = s.drop_first();
        assert(s[0] < x);
        assert forall|i: int, j: int| 0 <= i < j < t.len() implies t[i] < t[j] by {
            assert(s[i + 1] < s[j + 1]);
        }
        assert forall|i: int| 0 <= i < k - 1 implies t[i] < x by {
            assert(s[i + 1] < x);
        }
        lemma_ids_put_at(t, x, k - 1);
        assert(seq![s[0]] + t.insert(k - 1, x) =~= s.insert(k, x));
    }
}

/// Adds `x` to an id set. Returns whether the set did not hold it yet.
pub fn ids_insert(v: &mut Vec<usize>, x: usize) -> (added: bool)
    requires
        increasing(old(v)@),
    ensures
        increasing(final(v)@),
        forall|y: usize| #[trigger] final(v)@.contains(y) <==> (old(v)@.contains(y) || y == x),
        added <==> !old(v)@.contains(x),
        final(v).len() == old(v).len() + (if added { 1int } else { 0int }),
        !added ==> final(v)@ == old(v)@,
        final(v)@ == ids_put(old(v)@, x),
{
    let (k, found) = ids_find(v, x);
    if found {
        proof {
            lemma_ids_put_there(v@, x);
        }
        false
    } else {
        let ghost s = v@;
        v.insert(k, x);
        proof {
            let r = v@;
            assert(r == s.insert(k as int, x));
            lemma_ids_put_at(s, x, k as int);
            assert forall|i: int, j: int| 0 <= i < j < r.len() implies r[i] < r[j] by {
                let i0 = if i < k { i } else { i - 1 };
                let j0 = if j < k { j } else { j - 1 };
                if i != k {
                    assert(r[i] == s[i0]);
                }
                if j != k {
                    assert(r[j] == s[j0]);
                }
                if i == k && j - 1 > k {
                    assert(s[k as int] < s[j - 1]);
                }
            }
            assert forall|y: usize| #[trigger] r.contains(y) <==> (s.contains(y) || y == x) by {
                if r.contains(y) {
                    let i = choose|i: int| 0 <= i < r.len() && r[i] == y;
                    if i < k {
                        assert(s[i] == y);
                    } else if i > k {
                        assert(s[i - 1] == y);
                    }
                }
                if s.contains(y) {
                    let i = choose|i: int| 0 <= i < s.len() && s[i] == y;
                    if i < k {
                        assert(r[i] == y);
                    } else {
                        assert(r[i + 1] == y);
                    }
                }
                if y == x {
                    assert(r[k as int] == y);
                }
            }
        }
        true
    }
}

/// The sum of a list of counts.
pub open spec fn sum(s: Seq<usize>) -> nat
    decreases s.len(),
{
    if s.len() == 0 {
        0
    } else {
        sum(s.drop_last()) + s.last() as nat
    }
}

pub proof fn lemma_sum_update(s: Seq<usize>, i: int, v: usize)
    requires
        0 <= i < s.len(),
    ensures
        sum(s.update(i, v)) == sum(s) - s[i] + v,
    decreases s.len(),
{
    let u = s.update(i, v);
    if i == s.len() - 1 {
        assert(u.drop_last() =~= s.drop_last());
    } else {
        assert(u.drop_last() =~= s.drop_last().update(i, v));
        lemma_sum_update(s.drop_last(), i, v);
    }
}

} // verus!
