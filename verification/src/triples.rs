//! The record of the branches that were added: triples of a group and the
//! two trunk nodes between which its paraphrases were spliced in.

use vstd::prelude::*;
use vstd::arithmetic::div_mod::lemma_fundamental_div_mod_converse;
use vstd::set_lib::{set_int_range, lemma_int_range, lemma_len_subset};

verus! {

/// Every triple of the record names a group and two trunk nodes, and no
/// triple occurs twice.
pub open spec fn triples_ok(t: Seq<(usize, usize, usize)>, groups: int, eos: int) -> bool {
    &&& forall|k: int|
        0 <= k < t.len() ==> (#[trigger] t[k]).0 < groups && t[k].1 <= eos && t[k].2 <= eos
    &&& forall|i: int, j: int| 0 <= i < j < t.len() ==> t[i] != t[j]
}

/// The number of a triple among all triples.
pub open spec fn triple_key(t: (usize, usize, usize), eos: int) -> int {
    (t.0 * (eos + 1) + t.1) * (eos + 1) + t.2
}

proof fn lemma_key_range(a: int, b: int, c: int, groups: int, eos: int)
    requires
        0 <= a < groups,
        0 <= b <= eos,
        0 <= c <= eos,
    ensures
        0 <= (a * (eos + 1) + b) * (eos + 1) + c < groups * (eos + 1) * (eos + 1),
{
    let d = eos + 1;
    assert(0 <= a * d + b < groups * d) by (nonlinear_arith)
        requires
            0 <= a < groups,
            0 <= b < d,
    ;
    let x = a * d + b;
    let m = groups * d;
    assert(0 <= x * d + c < m * d) by (nonlinear_arith)
        requires
            0 <= x < m,
            0 <= c < d,
    ;
}

proof fn lemma_key_injective(t: (usize, usize, usize), u: (usize, usize, usize), eos: int)
    requires
        0 <= eos,
        t.1 <= eos,
        t.2 <= eos,
        u.1 <= eos,
        u.2 <= eos,
        triple_key(t, eos) == triple_key(u, eos),
    ensures
        t == u,
{
    let d = eos + 1;
    let k = triple_key(t, eos);
    lemma_fundamental_div_mod_converse(k, d, t.0 * d + t.1, t.2 as int);
    lemma_fundamental_div_mod_converse(k, d, u.0 * d + u.1, u.2 as int);
    let x = t.0 * d + t.1;
    lemma_fundamental_div_mod_converse(x, d, t.0 as int, t.1 as int);
    lemma_fundamental_div_mod_converse(x, d, u.0 as int, u.1 as int);
}

/// The record holds no more triples than there are.
pub proof fn lemma_triples_bound(t: Seq<(usize, usize, usize)>, groups: int, eos: int)
    requires
        triples_ok(t, groups, eos),
        0 <= groups,
        0 <= eos,
    ensures
        t.len() <= groups * (eos + 1) * (eos + 1),
{
    let bound = groups * (eos + 1) * (eos + 1);
    let keys = Seq::new(t.len(), |i: int| triple_key(t[i], eos));
    assert forall|i: int, j: int| 0 <= i < keys.len() && 0 <= j < keys.len() && i != j implies keys[i]
        != keys[j] by {
        if keys[i] == keys[j] {
            lemma_key_injective(t[i], t[j], eos);
            if i < j {
                assert(t[i] != t[j]);
            } else {
                assert(t[j] != t[i]);
            }
        }
    }
    keys.unique_seq_to_set();
    assert(0 <= bound) by (nonlinear_arith)
        requires
            0 <= groups,
            0 <= eos,
            bound == groups * (eos + 1) * (eos + 1),
    ;
    lemma_int_range(0, bound);
    assert forall|x: int| keys.to_set().contains(x) implies set_int_range(0, bound).contains(x) by {
        let i = choose|i: int| 0 <= i < keys.len() && keys[i] == x;
        lemma_key_range(t[i].0 as int, t[i].1 as int, t[i].2 as int, groups, eos);
    }
    lemma_len_subset(keys.to_set(), set_int_range(0, bound));
}

/// Whether the record holds the triple `x`.
pub fn triples_contains(v: &Vec<(usize, usize, usize)>, x: (usize, usize, usize)) -> (r: bool)
    ensures
        r <==> v@.contains(x),
{
    let mut i: usize = 0;
    while i < v.len()
        invariant
            i <= v.len(),
            forall|j: int| 0 <= j < i ==> v@[j] != x,
        decreases v.len() - i,
    {
        let t = v[i];
        if t.0 == x.0 && t.1 == x.1 && t.2 == x.2 {
            return true;
        }
        i += 1;
    }
    false
}

} // verus!
