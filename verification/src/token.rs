//! Word tokens and their order.
//!
//! A token is an opaque string. Two tokens are the same when they hold the same
//! characters, and tokens are ordered by the bytes of their UTF-8 encoding.

use vstd::prelude::*;
use vstd::string::*;
use vstd::utf8::*;

verus! {

/// Three-way result of comparing two keys.
#[derive(Clone, Copy, Debug, PartialEq, Eq, Structural)]
pub enum Order {
    Less,
    Equal,
    Greater,
}

/// A sequence of tokens as a plain value: the characters of each.
pub open spec fn tokens_view<'a>(s: Seq<&'a str>) -> Seq<Seq<char>> {
    Seq::new(s.len(), |i: int| s[i]@)
}

/// `a` and `b` agree on their first `k` bytes and `a` is smaller at position `k`:
/// either `a` ends there and `b` goes on, or `a` holds the smaller byte.
pub open spec fn bytes_lt_at(a: Seq<u8>, b: Seq<u8>, k: int) -> bool {
    &&& 0 <= k <= a.len()
    &&& k < b.len()
    &&& forall|i: int| 0 <= i < k ==> a[i] == b[i]
    &&& (k < a.len() ==> a[k] < b[k])
}

/// Lexicographic order on byte strings.
pub open spec fn bytes_lt(a: Seq<u8>, b: Seq<u8>) -> bool {
    exists|k: int| #[trigger] bytes_lt_at(a, b, k)
}

/// How `a` stands to `b` in the lexicographic order.
pub open spec fn bytes_order(a: Seq<u8>, b: Seq<u8>) -> Order {
    if a == b {
        Order::Equal
    } else if bytes_lt(a, b) {
        Order::Less
    } else {
        Order::Greater
    }
}

/// The order of tokens: that of their UTF-8 bytes.
pub open spec fn token_lt(a: Seq<char>, b: Seq<char>) -> bool {
    bytes_lt(encode_utf8(a), encode_utf8(b))
}

/// How token `a` stands to token `b`.
pub open spec fn token_order(a: Seq<char>, b: Seq<char>) -> Order {
    if a == b {
        Order::Equal
    } else if token_lt(a, b) {
        Order::Less
    } else {
        Order::Greater
    }
}

pub proof fn lemma_bytes_lt_irreflexive(a: Seq<u8>)
    ensures
        !bytes_lt(a, a),
{
    if bytes_lt(a, a) {
        let k = choose|k: int| #[trigger] bytes_lt_at(a, a, k);
        assert(a[k] < a[k]);
    }
}

pub proof fn lemma_bytes_lt_asymmetric(a: Seq<u8>, b: Seq<u8>)
    requires
        bytes_lt(a, b),
    ensures
        !bytes_lt(b, a),
        a != b,
{
    let k = choose|k: int| #[trigger] bytes_lt_at(a, b, k);
    if bytes_lt(b, a) {
        let m = choose|m: int| #[trigger] bytes_lt_at(b, a, m);
        if k < m {
            assert(b[k] == a[k]);
        } else if m < k {
            assert(a[m] == b[m]);
        }
    }
    lemma_bytes_lt_irreflexive(a);
}

pub proof fn lemma_bytes_lt_transitive(a: Seq<u8>, b: Seq<u8>, c: Seq<u8>)
    requires
        bytes_lt(a, b),
        bytes_lt(b, c),
    ensures
        bytes_lt(a, c),
{
    let k = choose|k: int| #[trigger] bytes_lt_at(a, b, k);
    let m = choose|m: int| #[trigger] bytes_lt_at(b, c, m);
    let n = if k <= m { k } else { m };
    assert forall|i: int| 0 <= i < n implies a[i] == c[i] by {
        assert(a[i] == b[i]);
        assert(b[i] == c[i]);
    }
    if k < m {
        assert(b[k] == c[k]);
    }
    assert(bytes_lt_at(a, c, n));
}

/// Where two byte strings agree on their first `k` bytes and both end there,
/// they are the same string.
proof fn lemma_bytes_equal(a: Seq<u8>, b: Seq<u8>)
    requires
        a.len() == b.len(),
        forall|i: int| 0 <= i < a.len() ==> a[i] == b[i],
    ensures
        a == b,
{
    assert(a =~= b);
}

/// Any two byte strings are equal or ordered one way.
pub proof fn lemma_bytes_order_total(a: Seq<u8>, b: Seq<u8>)
    ensures
        a == b || bytes_lt(a, b) || bytes_lt(b, a),
    decreases a.len() + b.len(),
{
    lemma_first_difference(a, b, 0);
}

proof fn lemma_first_difference(a: Seq<u8>, b: Seq<u8>, k: int)
    requires
        0 <= k <= a.len(),
        k <= b.len(),
        forall|i: int| 0 <= i < k ==> a[i] == b[i],
    ensures
        a == b || bytes_lt(a, b) || bytes_lt(b, a),
    decreases a.len() - k,
{
    if k == a.len() {
        if k == b.len() {
            lemma_bytes_equal(a, b);
        } else {
            assert(bytes_lt_at(a, b, k));
        }
    } else if k == b.len() {
        assert(bytes_lt_at(b, a, k));
    } else if a[k] < b[k] {
        assert(bytes_lt_at(a, b, k));
    } else if b[k] < a[k] {
        assert(bytes_lt_at(b, a, k));
    } else {
        lemma_first_difference(a, b, k + 1);
    }
}

/// Two tokens with the same UTF-8 bytes are the same token.
pub proof fn lemma_token_bytes_injective(a: Seq<char>, b: Seq<char>)
    requires
        encode_utf8(a) == encode_utf8(b),
    ensures
        a == b,
{
    encode_utf8_decode_utf8(a);
    encode_utf8_decode_utf8(b);
}

pub proof fn lemma_token_lt_irreflexive(a: Seq<char>)
    ensures
        !token_lt(a, a),
{
    lemma_bytes_lt_irreflexive(encode_utf8(a));
}

pub proof fn lemma_token_lt_asymmetric(a: Seq<char>, b: Seq<char>)
    requires
        token_lt(a, b),
    ensures
        !token_lt(b, a),
        a != b,
{
    lemma_bytes_lt_asymmetric(encode_utf8(a), encode_utf8(b));
}

pub proof fn lemma_token_lt_transitive(a: Seq<char>, b: Seq<char>, c: Seq<char>)
    requires
        token_lt(a, b),
        token_lt(b, c),
    ensures
        token_lt(a, c),
{
    lemma_bytes_lt_transitive(encode_utf8(a), encode_utf8(b), encode_utf8(c));
}

pub proof fn lemma_token_order_total(a: Seq<char>, b: Seq<char>)
    ensures
        a == b || token_lt(a, b) || token_lt(b, a),
{
    lemma_bytes_order_total(encode_utf8(a), encode_utf8(b));
    if encode_utf8(a) == encode_utf8(b) {
        lemma_token_bytes_injective(a, b);
    }
}

/// Compares two byte strings lexicographically.
pub fn compare_bytes(a: &[u8], b: &[u8]) -> (r: Order)
    ensures
        r == bytes_order(a@, b@),
{
    let mut i: usize = 0;
    while i < a.len() && i < b.len()
        invariant
            i <= a.len(),
            i <= b.len(),
            forall|j: int| 0 <= j < i ==> a@[j] == b@[j],
        decreases a.len() - i,
    {
        if a[i] < b[i] {
            proof {
                assert(bytes_lt_at(a@, b@, i as int));
                lemma_bytes_lt_asymmetric(a@, b@);
            }
            return Order::Less;
        }
        if a[i] > b[i] {
            proof {
                assert(bytes_lt_at(b@, a@, i as int));
                lemma_bytes_lt_asymmetric(b@, a@);
            }
            return Order::Greater;
        }
        i += 1;
    }
    if i < b.len() {
        proof {
            assert(bytes_lt_at(a@, b@, i as int));
            lemma_bytes_lt_asymmetric(a@, b@);
        }
        Order::Less
    } else if i < a.len() {
        proof {
            assert(bytes_lt_at(b@, a@, i as int));
            lemma_bytes_lt_asymmetric(b@, a@);
        }
        Order::Greater
    } else {
        proof {
            lemma_bytes_equal(a@, b@);
        }
        Order::Equal
    }
}

/// Compares two tokens by their bytes.
pub fn compare_tokens(a: &str, b: &str) -> (r: Order)
    ensures
        r == token_order(a@, b@),
{
    let r = compare_bytes(a.as_bytes(), b.as_bytes());
    proof {
        if encode_utf8(a@) == encode_utf8(b@) {
            lemma_token_bytes_injective(a@, b@);
        }
    }
    r
}

/// Whether two tokens are the same.
pub fn token_eq(a: &str, b: &str) -> (r: bool)
    ensures
        r == (a@ == b@),
{
    match compare_tokens(a, b) {
        Order::Equal => true,
        _ => false,
    }
}

} // verus!
