//! The flat encoding of a lattice: little-endian integers of eight bytes,
//! and tokens as their UTF-8 bytes behind their length.

use vstd::prelude::*;
use vstd::slice::slice_subrange;
use vstd::string::*;
use vstd::utf8::*;
use crate::edge::{
    EdgeView, edge_view, edges_view, option_edge_view, insert_sorted, sorted, edge_eq,
    edges_insert, lemma_insert_sorted, lemma_sorted_unique, lemma_sorted_distinct,
};
use crate::error::Error;
use crate::lattice::{Lattice, valid_nodes, node_linked, main_ok};
use crate::node::{LatticeNode, NodeView, nodes_view};
use vstd::bytes::{
    spec_u64_to_le_bytes, spec_u64_from_le_bytes, spec_u64_to_le_bytes_open,
    spec_u64_to_le_bytes_to_open, lemma_auto_spec_u64_to_from_le_bytes,
};

verus! {

/// The eight bytes of a number, lowest first.
pub open spec fn le64(x: int) -> Seq<u8> {
    spec_u64_to_le_bytes(x as u64)
}

/// The number that eight bytes stand for.
pub open spec fn from_le64(s: Seq<u8>) -> int {
    spec_u64_from_le_bytes(s) as int
}

/// Reading back what was written gives the number, and writing what was read
/// gives the bytes.
pub proof fn lemma_le64(x: int, s: Seq<u8>)
    ensures
        le64(x).len() == 8,
        0 <= x <= u64::MAX ==> from_le64(le64(x)) == x,
        s.len() == 8 ==> le64(from_le64(s)) == s,
        0 <= from_le64(s) <= u64::MAX,
{
    lemma_auto_spec_u64_to_from_le_bytes();
    if s.len() == 8 {
        assert(spec_u64_to_le_bytes(spec_u64_from_le_bytes(s)) == s);
    }
}

/// Writes a number as eight bytes, lowest first.
pub fn usize_to_vec(x: usize) -> (r: Vec<u8>)
    ensures
        r@ == le64(x as int),
        r.len() == 8,
{
    let y = x as u64;
    let b0 = #[verifier::truncate] (y as u8);
    let b1 = #[verifier::truncate] ((y >> 8) as u8);
    let b2 = #[verifier::truncate] ((y >> 16) as u8);
    let b3 = #[verifier::truncate] ((y >> 24) as u8);
    let b4 = #[verifier::truncate] ((y >> 32) as u8);
    let b5 = #[verifier::truncate] ((y >> 40) as u8);
    let b6 = #[verifier::truncate] ((y >> 48) as u8);
    let b7 = #[verifier::truncate] ((y >> 56) as u8);
    let mut r: Vec<u8> = Vec::new();
    r.push(b0);
    r.push(b1);
    r.push(b2);
    r.push(b3);
    r.push(b4);
    r.push(b5);
    r.push(b6);
    r.push(b7);
    proof {
        spec_u64_to_le_bytes_to_open(y);
        assert(b0 == (y & 0xff) as u8) by (bit_vector)
            requires
                b0 == y as u8,
        ;
        assert(b1 == ((y >> 8) & 0xff) as u8) by (bit_vector)
            requires
                b1 == (y >> 8) as u8,
        ;
        assert(b2 == ((y >> 16) & 0xff) as u8) by (bit_vector)
            requires
                b2 == (y >> 16) as u8,
        ;
        assert(b3 == ((y >> 24) & 0xff) as u8) by (bit_vector)
            requires
                b3 == (y >> 24) as u8,
        ;
        assert(b4 == ((y >> 32) & 0xff) as u8) by (bit_vector)
            requires
                b4 == (y >> 32) as u8,
        ;
        assert(b5 == ((y >> 40) & 0xff) as u8) by (bit_vector)
            requires
                b5 == (y >> 40) as u8,
        ;
        assert(b6 == ((y >> 48) & 0xff) as u8) by (bit_vector)
            requires
                b6 == (y >> 48) as u8,
        ;
        assert(b7 == ((y >> 56) & 0xff) as u8) by (bit_vector)
            requires
                b7 == (y >> 56) as u8,
        ;
        assert(r@ =~= spec_u64_to_le_bytes_open(y));
    }
    r
}

/// Reads a number from the first eight bytes, lowest first. Gives nothing
/// where the number is larger than an index can be.
pub fn vec_to_usize(x: &[u8]) -> (r: Option<usize>)
    requires
        x.len() >= 8,
    ensures
        match r {
            Some(v) => v as int == from_le64(x@.subrange(0, 8)),
            None => from_le64(x@.subrange(0, 8)) > usize::MAX,
        },
{
    let s0 = x[0] as u64;
    let s1 = x[1] as u64;
    let s2 = x[2] as u64;
    let s3 = x[3] as u64;
    let s4 = x[4] as u64;
    let s5 = x[5] as u64;
    let s6 = x[6] as u64;
    let s7 = x[7] as u64;
    let y: u64 = s0 | s1 << 8 | s2 << 16 | s3 << 24 | s4 << 32 | s5 << 40 | s6 << 48 | s7 << 56;
    proof {
        spec_u64_to_le_bytes_to_open(y);
        assert(s0 == (y & 0xff) && s1 == ((y >> 8) & 0xff) && s2 == ((y >> 16) & 0xff) && s3 == ((y
            >> 24) & 0xff) && s4 == ((y >> 32) & 0xff) && s5 == ((y >> 40) & 0xff) && s6 == ((y
            >> 48) & 0xff) && s7 == ((y >> 56) & 0xff)) by (bit_vector)
            requires
                y == s0 | s1 << 8 | s2 << 16 | s3 << 24 | s4 << 32 | s5 << 40 | s6 << 48 | s7 << 56,
                s0 < 256,
                s1 < 256,
                s2 < 256,
                s3 < 256,
                s4 < 256,
                s5 < 256,
                s6 < 256,
                s7 < 256,
        ;
        assert(spec_u64_to_le_bytes_open(y) =~= x@.subrange(0, 8));
        lemma_auto_spec_u64_to_from_le_bytes();
        assert(spec_u64_from_le_bytes(spec_u64_to_le_bytes(y)) == y);
    }
    if y > usize::MAX as u64 {
        None
    } else {
        Some(y as usize)
    }
}

/// The encoding of an edge: the length of its token in bytes, the token's
/// bytes, and its node id.
pub open spec fn enc_edge(e: EdgeView) -> Seq<u8> {
    le64(encode_utf8(e.0).len() as int) + encode_utf8(e.0) + le64(e.1)
}

/// The encoding of a list of edges, one after the other.
pub open spec fn enc_list(l: Seq<EdgeView>) -> Seq<u8>
    decreases l.len(),
{
    if l.len() == 0 {
        Seq::empty()
    } else {
        enc_list(l.drop_last()) + enc_edge(l.last())
    }
}

/// The first `upto` edges of `s` without the edge `m`.
pub open spec fn others(s: Seq<EdgeView>, m: EdgeView, upto: int) -> Seq<EdgeView>
    decreases upto,
{
    if upto <= 0 {
        Seq::empty()
    } else if s[upto - 1] == m {
        others(s, m, upto - 1)
    } else {
        others(s, m, upto - 1).push(s[upto - 1])
    }
}

/// The order in which the edges of one side of a node are written: the main
/// edge first, then the others in the order of the edge set. Nothing is
/// written where there is no main edge.
pub open spec fn side_list(s: Seq<EdgeView>, main: Option<EdgeView>) -> Seq<EdgeView> {
    match main {
        Some(m) => seq![m] + others(s, m, s.len() as int),
        None => Seq::empty(),
    }
}

/// The encoding of a node: the numbers of its outgoing and of its incoming
/// edges, then the outgoing and the incoming edges.
pub open spec fn enc_node(n: NodeView) -> Seq<u8> {
    le64(n.forwards.len() as int) + le64(n.backwards.len() as int) + enc_list(
        side_list(n.forwards, n.forward_main),
    ) + enc_list(side_list(n.backwards, n.backward_main))
}

/// The encoding of the first `upto` nodes.
pub open spec fn enc_nodes(g: Seq<NodeView>, upto: int) -> Seq<u8>
    decreases upto,
{
    if upto <= 0 {
        Seq::empty()
    } else {
        enc_nodes(g, upto - 1) + enc_node(g[upto - 1])
    }
}

/// The encoding of a lattice: the number of its nodes, then the nodes.
pub open spec fn serialize(g: Seq<NodeView>) -> Seq<u8> {
    le64(g.len() as int) + enc_nodes(g, g.len() as int)
}

/// The number at `pos`, where eight bytes are left there and the number is
/// one that an index can hold.
pub open spec fn read_number(s: Seq<u8>, pos: int) -> Option<int> {
    if 0 <= pos && pos + 8 <= s.len() && from_le64(s.subrange(pos, pos + 8)) <= usize::MAX {
        Some(from_le64(s.subrange(pos, pos + 8)))
    } else {
        None
    }
}

/// The edge at `pos` and the place behind it, where the bytes there are an
/// edge with a token in UTF-8.
pub open spec fn parse_edge(s: Seq<u8>, pos: int) -> Option<(EdgeView, int)> {
    match read_number(s, pos) {
        Some(len) => {
            if pos + 16 + len <= s.len() && valid_utf8(s.subrange(pos + 8, pos + 8 + len)) {
                match read_number(s, pos + 8 + len) {
                    Some(t) => Some(
                        ((decode_utf8(s.subrange(pos + 8, pos + 8 + len)), t), pos + 16 + len),
                    ),
                    None => None,
                }
            } else {
                None
            }
        },
        None => None,
    }
}

/// The `count` edges from `pos` on and the place behind them.
pub open spec fn parse_list(s: Seq<u8>, pos: int, count: int) -> Option<(Seq<EdgeView>, int)>
    decreases count,
{
    if count <= 0 {
        Some((Seq::empty(), pos))
    } else {
        match parse_list(s, pos, count - 1) {
            Some((l, p)) => match parse_edge(s, p) {
                Some((e, q)) => Some((l.push(e), q)),
                None => None,
            },
            None => None,
        }
    }
}

/// The edge set of the first `upto` edges of a list.
pub open spec fn set_of(l: Seq<EdgeView>, upto: int) -> Seq<EdgeView>
    decreases upto,
{
    if upto <= 0 {
        Seq::empty()
    } else {
        insert_sorted(set_of(l, upto - 1), l[upto - 1])
    }
}

/// The main edge of a list of edges as read: the first.
pub open spec fn main_of(l: Seq<EdgeView>) -> Option<EdgeView> {
    if l.len() > 0 {
        Some(l[0])
    } else {
        None
    }
}

/// The node at `pos` and the place behind it.
pub open spec fn parse_node(s: Seq<u8>, pos: int) -> Option<(NodeView, int)> {
    match (read_number(s, pos), read_number(s, pos + 8)) {
        (Some(nf), Some(nb)) => match parse_list(s, pos + 16, nf) {
            Some((fl, p)) => match parse_list(s, p, nb) {
                Some((bl, q)) => Some(
                    (
                        NodeView {
                            forwards: set_of(fl, fl.len() as int),
                            backwards: set_of(bl, bl.len() as int),
                            forward_main: main_of(fl),
                            backward_main: main_of(bl),
                            depth: 0,
                        },
                        q,
                    ),
                ),
                None => None,
            },
            None => None,
        },
        _ => None,
    }
}

/// The `count` nodes from `pos` on and the place behind them.
pub open spec fn parse_nodes(s: Seq<u8>, pos: int, count: int) -> Option<(Seq<NodeView>, int)>
    decreases count,
{
    if count <= 0 {
        Some((Seq::empty(), pos))
    } else {
        match parse_nodes(s, pos, count - 1) {
            Some((g, p)) => match parse_node(s, p) {
                Some((n, q)) => Some((g.push(n), q)),
                None => None,
            },
            None => None,
        }
    }
}

/// The lattice that the bytes encode: the nodes as many as the leading
/// number says, where the bytes end behind them and the nodes form a lattice.
pub open spec fn parse(s: Seq<u8>) -> Option<Seq<NodeView>> {
    match read_number(s, 0) {
        Some(n) => match parse_nodes(s, 8, n) {
            Some((g, end)) => if end == s.len() && valid_nodes(g) {
                Some(g)
            } else {
                None
            },
            None => None,
        },
        None => None,
    }
}

/// Where the first edges cannot be read, more of them cannot be read either.
pub proof fn lemma_parse_list_fails(s: Seq<u8>, pos: int, k: int, count: int)
    requires
        0 <= k <= count,
        parse_list(s, pos, k).is_none(),
    ensures
        parse_list(s, pos, count).is_none(),
    decreases count,
{
    if k < count {
        lemma_parse_list_fails(s, pos, k, count - 1);
    }
}

/// Where the first nodes cannot be read, more of them cannot be read either.
pub proof fn lemma_parse_nodes_fails(s: Seq<u8>, pos: int, k: int, count: int)
    requires
        0 <= k <= count,
        parse_nodes(s, pos, k).is_none(),
    ensures
        parse_nodes(s, pos, count).is_none(),
    decreases count,
{
    if k < count {
        lemma_parse_nodes_fails(s, pos, k, count - 1);
    }
}

/// Appends bytes to a buffer.
fn append_bytes(out: &mut Vec<u8>, bytes: &[u8])
    ensures
        final(out)@ == old(out)@ + bytes@,
{
    let ghost o = out@;
    let mut i: usize = 0;
    while i < bytes.len()
        invariant
            i <= bytes.len(),
            out@ == o + bytes@.take(i as int),
        decreases bytes.len() - i,
    {
        out.push(bytes[i]);
        assert(bytes@.take(i as int + 1) =~= bytes@.take(i as int).push(bytes@[i as int]));
        assert(out@ =~= o + bytes@.take(i as int + 1));
        i += 1;
    }
    assert(bytes@.take(bytes.len() as int) =~= bytes@);
}

/// Appends a number to a buffer.
fn append_number(out: &mut Vec<u8>, x: usize)
    ensures
        final(out)@ == old(out)@ + le64(x as int),
{
    let bytes = usize_to_vec(x);
    append_bytes(out, bytes.as_slice());
}

/// Appends an edge to a buffer.
fn append_edge(out: &mut Vec<u8>, e: (&str, usize))
    ensures
        final(out)@ == old(out)@ + enc_edge(edge_view(e)),
        encode_utf8(e.0@).len() <= usize::MAX,
{
    let ghost o = out@;
    let bytes = e.0.as_bytes();
    append_number(out, bytes.len());
    append_bytes(out, bytes);
    append_number(out, e.1);
    assert(out@ =~= o + enc_edge(edge_view(e)));
}

/// Appends the edges of one side of a node to a buffer.
fn append_side(out: &mut Vec<u8>, edges: &Vec<(&str, usize)>, main: Option<(&str, usize)>)
    ensures
        final(out)@ == old(out)@ + enc_list(side_list(edges_view(edges@), option_edge_view(main))),
        main.is_some() ==> forall|k: int|
            0 <= k < edges.len() ==> encode_utf8((#[trigger] edges_view(edges@)[k]).0).len()
                <= usize::MAX,
{
    let ghost o = out@;
    let ghost s = edges_view(edges@);
    if let Some(x) = main {
        let ghost m = edge_view(x);
        append_edge(out, x);
        proof {
            assert(enc_list(seq![m]) =~= enc_edge(m)) by {
                assert(seq![m].drop_last() =~= Seq::<EdgeView>::empty());
                assert(enc_list(Seq::<EdgeView>::empty()) =~= Seq::<u8>::empty());
            }
            assert(seq![m] + others(s, m, 0) =~= seq![m]);
        }
        let mut k: usize = 0;
        while k < edges.len()
            invariant
                k <= edges.len(),
                s == edges_view(edges@),
                m == edge_view(x),
                out@ == o + enc_list(seq![m] + others(s, m, k as int)),
                encode_utf8(m.0).len() <= usize::MAX,
                forall|j: int| 0 <= j < k ==> encode_utf8((#[trigger] s[j]).0).len() <= usize::MAX,
            decreases edges.len() - k,
        {
            let edge = edges[k];
            assert(s[k as int] == edge_view(edge));
            let ghost before = seq![m] + others(s, m, k as int);
            if !edge_eq(edge, x) {
                append_edge(out, edge);
                proof {
                    let after = seq![m] + others(s, m, k as int + 1);
                    assert(after =~= before.push(s[k as int]));
                    assert(after.drop_last() =~= before);
                    assert(out@ =~= o + enc_list(after));
                }
            }
            k += 1;
        }
    } else {
        assert(out@ =~= o + enc_list(Seq::<EdgeView>::empty()));
    }
}

impl<'a> Lattice<'a> {
    /// The flat encoding of the lattice.
    pub fn to_bytes(&self) -> (result: Vec<u8>)
        requires
            self.wf(),
        ensures
            result@ == serialize(self@),
            encodable(self@),
            parse(result@) == Some(self@),
    {
        let ghost g = self@;
        proof {
            self.lemma_valid();
        }
        let mut result: Vec<u8> = Vec::new();
        let n = self.size();
        append_number(&mut result, n);
        let mut i: usize = 0;
        assert(result@ =~= le64(n as int) + enc_nodes(g, 0));
        while i < n
            invariant
                g == self@,
                valid_nodes(g),
                n == g.len(),
                i <= n,
                result@ == le64(n as int) + enc_nodes(g, i as int),
                forall|j: int|
                    0 <= j < i ==> list_fits((#[trigger] g[j]).forwards) && list_fits(
                        g[j].backwards,
                    ),
            decreases n - i,
        {
            let node = self.node(i);
            let ghost before = result@;
            append_number(&mut result, node.forwards.len());
            append_number(&mut result, node.backwards.len());
            append_side(&mut result, &node.forwards, node.forward_main);
            append_side(&mut result, &node.backwards, node.backward_main);
            proof {
                assert(result@ =~= before + enc_node(g[i as int]));
                assert(result@ =~= le64(n as int) + enc_nodes(g, i as int + 1));
                assert(node_linked(g, i as int));
                let fw = g[i as int].forwards;
                let bw = g[i as int].backwards;
                assert forall|k: int| 0 <= k < fw.len() implies edge_fits(#[trigger] fw[k]) by {
                    assert(fw[k] == edge_view(node.forwards@[k]));
                }
                assert forall|k: int| 0 <= k < bw.len() implies edge_fits(#[trigger] bw[k]) by {
                    assert(bw[k] == edge_view(node.backwards@[k]));
                }
            }
            i += 1;
        }
        proof {
            lemma_round_trip(g);
        }
        result
    }
}

/// `core::str::from_utf8`: the bytes as a string, where they are valid UTF-8.
/// The contract claims that the call succeeds exactly on valid UTF-8, and
/// that the string it gives consists of the bytes it was given.
#[verifier::external_body]
fn str_from_utf8<'a>(bytes: &'a [u8]) -> (r: Option<&'a str>)
    ensures
        r.is_some() <==> valid_utf8(bytes@),
        r matches Some(s) ==> encode_utf8(s@) == bytes@,
{
    core::str::from_utf8(bytes).ok()
}

/// Reads the number at `pos`.
fn read_usize(data: &[u8], pos: usize) -> (r: Option<usize>)
    ensures
        match r {
            Some(v) => read_number(data@, pos as int) == Some(v as int),
            None => read_number(data@, pos as int).is_none(),
        },
{
    if pos > data.len() || data.len() - pos < 8 {
        return None;
    }
    let bytes = slice_subrange(data, pos, pos + 8);
    assert(bytes@.subrange(0, 8) =~= bytes@);
    vec_to_usize(bytes)
}

/// Reads the edge at `pos`. Gives the edge and the place behind it.
fn read_edge<'a>(data: &'a [u8], pos: usize) -> (r: Option<((&'a str, usize), usize)>)
    ensures
        match r {
            Some((e, next)) => parse_edge(data@, pos as int) == Some((edge_view(e), next as int)),
            None => parse_edge(data@, pos as int).is_none(),
        },
{
    let len = match read_usize(data, pos) {
        Some(len) => len,
        None => {
            return None;
        },
    };
    if data.len() - pos < 16 || len > data.len() - pos - 16 {
        return None;
    }
    let bytes = slice_subrange(data, pos + 8, pos + 8 + len);
    let token = match str_from_utf8(bytes) {
        Some(token) => token,
        None => {
            return None;
        },
    };
    let target = match read_usize(data, pos + 8 + len) {
        Some(target) => target,
        None => {
            return None;
        },
    };
    proof {
        encode_utf8_decode_utf8(token@);
    }
    Some(((token, target), pos + 16 + len))
}

/// Reads `count` edges from `pos` on. Gives their edge set, the first of
/// them as the main edge, and the place behind them.
fn read_side<'a>(data: &'a [u8], pos: usize, count: usize) -> (r: Option<
    (Vec<(&'a str, usize)>, Option<(&'a str, usize)>, usize),
>)
    ensures
        match r {
            Some((set, main, next)) => {
                let parsed = parse_list(data@, pos as int, count as int);
                &&& parsed.is_some()
                &&& parsed.unwrap().1 == next
                &&& edges_view(set@) == set_of(parsed.unwrap().0, parsed.unwrap().0.len() as int)
                &&& option_edge_view(main) == main_of(parsed.unwrap().0)
            },
            None => parse_list(data@, pos as int, count as int).is_none(),
        },
{
    let ghost s = data@;
    let mut set: Vec<(&'a str, usize)> = Vec::new();
    let mut main: Option<(&'a str, usize)> = None;
    let mut cur = pos;
    let mut k: usize = 0;
    let ghost mut list: Seq<EdgeView> = Seq::empty();
    assert(edges_view(set@) =~= set_of(list, 0));
    while k < count
        invariant
            s == data@,
            k <= count,
            list.len() == k,
            parse_list(s, pos as int, k as int) == Some((list, cur as int)),
            edges_view(set@) == set_of(list, k as int),
            sorted(edges_view(set@)),
            option_edge_view(main) == main_of(list),
        decreases count - k,
    {
        match read_edge(data, cur) {
            Some((e, next)) => {
                proof {
                    let old_list = list;
                    list = list.push(edge_view(e));
                    lemma_set_of_prefix(list, k as int);
                    assert(list.drop_last() =~= old_list);
                    lemma_set_of_same(old_list, list, k as int);
                    lemma_insert_sorted(set_of(old_list, k as int), edge_view(e));
                }
                if k == 0 {
                    main = Some(e);
                }
                edges_insert(&mut set, e);
                cur = next;
            },
            None => {
                proof {
                    lemma_parse_list_fails(s, pos as int, k as int + 1, count as int);
                }
                return None;
            },
        }
        k += 1;
    }
    Some((set, main, cur))
}

/// The edge set of a list's first edges depends on these edges only.
proof fn lemma_set_of_same(a: Seq<EdgeView>, b: Seq<EdgeView>, upto: int)
    requires
        0 <= upto <= a.len(),
        upto <= b.len(),
        forall|i: int| 0 <= i < upto ==> a[i] == b[i],
    ensures
        set_of(a, upto) == set_of(b, upto),
    decreases upto,
{
    if upto > 0 {
        lemma_set_of_same(a, b, upto - 1);
    }
}

/// The edge set of a list is an edge set.
proof fn lemma_set_of_prefix(l: Seq<EdgeView>, upto: int)
    ensures
        sorted(set_of(l, upto)),
    decreases upto,
{
    if upto > 0 {
        lemma_set_of_prefix(l, upto - 1);
        lemma_insert_sorted(set_of(l, upto - 1), l[upto - 1]);
    }
}

/// Reads the node at `pos`. Gives the node and the place behind it.
fn read_node<'a>(data: &'a [u8], pos: usize) -> (r: Option<(LatticeNode<'a>, usize)>)
    ensures
        match r {
            Some((node, next)) => parse_node(data@, pos as int) == Some((node@, next as int)),
            None => parse_node(data@, pos as int).is_none(),
        },
{
    let num_forwards = match read_usize(data, pos) {
        Some(v) => v,
        None => {
            return None;
        },
    };
    if data.len() - pos < 16 {
        return None;
    }
    let num_backwards = match read_usize(data, pos + 8) {
        Some(v) => v,
        None => {
            return None;
        },
    };
    let (forwards, forward_main, mid) = match read_side(data, pos + 16, num_forwards) {
        Some(x) => x,
        None => {
            return None;
        },
    };
    let (backwards, backward_main, next) = match read_side(data, mid, num_backwards) {
        Some(x) => x,
        None => {
            return None;
        },
    };
    Some((LatticeNode { forwards, backwards, forward_main, backward_main, depth: 0 }, next))
}

impl<'a> Lattice<'a> {
    /// Reads a lattice from its flat encoding. Bytes that are cut short or go
    /// on behind the last node, a token that is not UTF-8, and nodes that do
    /// not form a lattice (an edge to a node that is not there among them) are
    /// refused.
    pub fn new_from_bytes(data: &'a [u8]) -> (r: Result<Lattice<'a>, Error>)
        ensures
            match r {
                Ok(l) => l.wf() && valid_nodes(l@) && parse(data@) == Some(l@),
                Err(e) => parse(data@).is_none() && e == Error::MalformedLattice,
            },
    {
        let ghost s = data@;
        let n = match read_usize(data, 0) {
            Some(n) => n,
            None => {
                return Err(Error::MalformedLattice);
            },
        };
        let mut lattice: Vec<LatticeNode<'a>> = Vec::new();
        let mut offset: usize = 8;
        let mut k: usize = 0;
        assert(nodes_view(lattice@) =~= Seq::empty());
        while k < n
            invariant
                s == data@,
                k <= n,
                read_number(s, 0) == Some(n as int),
                parse_nodes(s, 8, k as int) == Some((nodes_view(lattice@), offset as int)),
            decreases n - k,
        {
            match read_node(data, offset) {
                Some((node, next)) => {
                    let ghost before = nodes_view(lattice@);
                    let ghost nv = node@;
                    lattice.push(node);
                    assert(nodes_view(lattice@) =~= before.push(nv));
                    offset = next;
                },
                None => {
                    proof {
                        lemma_parse_nodes_fails(s, 8, k as int + 1, n as int);
                    }
                    return Err(Error::MalformedLattice);
                },
            }
            k += 1;
        }
        if offset != data.len() {
            return Err(Error::MalformedLattice);
        }
        match Lattice::from_nodes(lattice) {
            Some(l) => Ok(l),
            None => Err(Error::MalformedLattice),
        }
    }
}

/// An edge can be written where its token's length and its node id are
/// numbers that an index can hold.
pub open spec fn edge_fits(e: EdgeView) -> bool {
    encode_utf8(e.0).len() <= usize::MAX && 0 <= e.1 <= usize::MAX
}

/// A list of edges can be written where its length and its edges fit.
pub open spec fn list_fits(l: Seq<EdgeView>) -> bool {
    &&& l.len() <= usize::MAX
    &&& forall|k: int| 0 <= k < l.len() ==> edge_fits(#[trigger] l[k])
}

/// A graph can be written where the number of its nodes and their edge sets
/// fit.
pub open spec fn encodable(g: Seq<NodeView>) -> bool {
    &&& g.len() <= usize::MAX
    &&& forall|i: int|
        0 <= i < g.len() ==> list_fits((#[trigger] g[i]).forwards) && list_fits(g[i].backwards)
}

/// Where a stretch of `s` is `a` followed by `b`, its front is `a` and its back
/// is `b`.
proof fn lemma_window(s: Seq<u8>, pos: int, a: Seq<u8>, b: Seq<u8>)
    requires
        0 <= pos,
        pos + a.len() + b.len() <= s.len(),
        s.subrange(pos, pos + a.len() + b.len()) == a + b,
    ensures
        s.subrange(pos, pos + a.len()) == a,
        s.subrange(pos + a.len(), pos + a.len() + b.len()) == b,
{
    let w = s.subrange(pos, pos + a.len() + b.len());
    assert forall|i: int| 0 <= i < a.len() implies s[pos + i] == a[i] by {
        assert(w[i] == s[pos + i]);
        assert((a + b)[i] == a[i]);
    }
    assert forall|i: int| 0 <= i < b.len() implies s[pos + a.len() + i] == b[i] by {
        assert(w[a.len() + i] == s[pos + a.len() + i]);
        assert((a + b)[a.len() + i] == b[i]);
    }
    assert(s.subrange(pos, pos + a.len()) =~= a);
    assert(s.subrange(pos + a.len(), pos + a.len() + b.len()) =~= b);
}

/// A number that was written at `pos` is read there.
proof fn lemma_read_number_at(s: Seq<u8>, pos: int, x: int)
    requires
        0 <= pos,
        pos + 8 <= s.len(),
        s.subrange(pos, pos + 8) == le64(x),
        0 <= x <= usize::MAX,
    ensures
        read_number(s, pos) == Some(x),
{
    lemma_le64(x, s.subrange(pos, pos + 8));
}

pub proof fn lemma_enc_edge_len(e: EdgeView)
    ensures
        enc_edge(e).len() == 16 + encode_utf8(e.0).len(),
{
    lemma_le64(0, Seq::empty());
    lemma_le64(encode_utf8(e.0).len() as int, Seq::empty());
    lemma_le64(e.1, Seq::empty());
}

/// An edge that was written at `pos` is read there.
proof fn lemma_parse_edge_at(s: Seq<u8>, pos: int, e: EdgeView)
    requires
        0 <= pos,
        pos + enc_edge(e).len() <= s.len(),
        s.subrange(pos, pos + enc_edge(e).len()) == enc_edge(e),
        edge_fits(e),
    ensures
        parse_edge(s, pos) == Some((e, pos + enc_edge(e).len())),
{
    let bytes = encode_utf8(e.0);
    let len = bytes.len() as int;
    lemma_enc_edge_len(e);
    lemma_le64(len, Seq::empty());
    lemma_le64(e.1, Seq::empty());
    let a = le64(len);
    let b = bytes + le64(e.1);
    assert(enc_edge(e) =~= a + b);
    lemma_window(s, pos, a, b);
    lemma_window(s, pos + 8, bytes, le64(e.1));
    lemma_read_number_at(s, pos, len);
    lemma_read_number_at(s, pos + 8 + len, e.1);
    encode_utf8_valid_utf8(e.0);
    encode_utf8_decode_utf8(e.0);
}

/// A list of edges that was written at `pos` is read there.
proof fn lemma_parse_list_at(s: Seq<u8>, pos: int, l: Seq<EdgeView>)
    requires
        0 <= pos,
        pos + enc_list(l).len() <= s.len(),
        s.subrange(pos, pos + enc_list(l).len()) == enc_list(l),
        list_fits(l),
    ensures
        parse_list(s, pos, l.len() as int) == Some((l, pos + enc_list(l).len())),
    decreases l.len(),
{
    if l.len() > 0 {
        let front = l.drop_last();
        let e = l.last();
        assert(edge_fits(l[l.len() - 1]));
        assert forall|k: int| 0 <= k < front.len() implies edge_fits(#[trigger] front[k]) by {
            assert(front[k] == l[k]);
        }
        lemma_window(s, pos, enc_list(front), enc_edge(e));
        lemma_parse_list_at(s, pos, front);
        lemma_parse_edge_at(s, pos + enc_list(front).len(), e);
        assert(front.push(e) =~= l);
    }
}

/// What the first `upto` edges of an edge set without `m` are.
proof fn lemma_others(s: Seq<EdgeView>, m: EdgeView, upto: int)
    requires
        sorted(s),
        0 <= upto <= s.len(),
    ensures
        forall|x: EdgeView| #[trigger]
            others(s, m, upto).contains(x) <==> (x != m && exists|i: int|
                0 <= i < upto && s[i] == x),
        others(s, m, upto).len() == upto - (if exists|i: int| 0 <= i < upto && s[i] == m {
            1int
        } else {
            0int
        }),
    decreases upto,
{
    if upto > 0 {
        lemma_others(s, m, upto - 1);
        let prev = others(s, m, upto - 1);
        let cur = others(s, m, upto);
        let last = s[upto - 1];
        if last == m {
            assert forall|i: int| 0 <= i < upto - 1 implies s[i] != m by {
                if s[i] == m {
                    lemma_sorted_distinct(s, i, upto - 1);
                }
            }
        }
        assert forall|x: EdgeView| #[trigger]
            cur.contains(x) <==> (x != m && exists|i: int| 0 <= i < upto && s[i] == x) by {
            if cur.contains(x) {
                if last != m {
                    let k = choose|k: int| 0 <= k < cur.len() && cur[k] == x;
                    if k < prev.len() {
                        assert(prev[k] == x);
                        assert(prev.contains(x));
                        let i = choose|i: int| 0 <= i < upto - 1 && s[i] == x;
                        assert(0 <= i < upto && s[i] == x);
                    } else {
                        assert(s[upto - 1] == x);
                    }
                } else {
                    let i = choose|i: int| 0 <= i < upto - 1 && s[i] == x;
                    assert(0 <= i < upto && s[i] == x);
                }
            }
            if x != m && exists|i: int| 0 <= i < upto && s[i] == x {
                let i = choose|i: int| 0 <= i < upto && s[i] == x;
                if i < upto - 1 {
                    assert(prev.contains(x));
                    let k = choose|k: int| 0 <= k < prev.len() && prev[k] == x;
                    if last != m {
                        assert(cur[k] == x);
                    }
                } else {
                    assert(cur[cur.len() - 1] == x);
                }
            }
        }
        if exists|i: int| 0 <= i < upto - 1 && s[i] == m {
            let i = choose|i: int| 0 <= i < upto - 1 && s[i] == m;
            assert(0 <= i < upto && s[i] == m);
        }
        if last == m {
            assert(0 <= upto - 1 < upto && s[upto - 1] == m);
        }
        if exists|i: int| 0 <= i < upto && s[i] == m {
            let i = choose|i: int| 0 <= i < upto && s[i] == m;
            if i < upto - 1 {
                assert(0 <= i < upto - 1 && s[i] == m);
            }
        }
    }
}

/// What the edge set of a list holds.
proof fn lemma_set_of(l: Seq<EdgeView>, upto: int)
    requires
        0 <= upto <= l.len(),
    ensures
        sorted(set_of(l, upto)),
        forall|x: EdgeView| #[trigger]
            set_of(l, upto).contains(x) <==> exists|i: int| 0 <= i < upto && l[i] == x,
    decreases upto,
{
    if upto > 0 {
        lemma_set_of(l, upto - 1);
        let prev = set_of(l, upto - 1);
        lemma_insert_sorted(prev, l[upto - 1]);
        let cur = set_of(l, upto);
        assert forall|x: EdgeView| #[trigger]
            cur.contains(x) <==> exists|i: int| 0 <= i < upto && l[i] == x by {
            if cur.contains(x) {
                if prev.contains(x) {
                    let i = choose|i: int| 0 <= i < upto - 1 && l[i] == x;
                    assert(0 <= i < upto && l[i] == x);
                } else {
                    assert(0 <= upto - 1 < upto && l[upto - 1] == x);
                }
            }
            if exists|i: int| 0 <= i < upto && l[i] == x {
                let i = choose|i: int| 0 <= i < upto && l[i] == x;
                if i < upto - 1 {
                    assert(prev.contains(x));
                }
            }
        }
    }
}

/// The edges of one side of a node, as they are written, give the side back
/// when they are read: as many edges, the same edge set, the same main edge.
proof fn lemma_side_list(s: Seq<EdgeView>, main: Option<EdgeView>)
    requires
        sorted(s),
        main_ok(main, s),
        list_fits(s),
    ensures
        side_list(s, main).len() == s.len(),
        set_of(side_list(s, main), s.len() as int) == s,
        main_of(side_list(s, main)) == main,
        list_fits(side_list(s, main)),
{
    let l = side_list(s, main);
    match main {
        Some(m) => {
            let o = others(s, m, s.len() as int);
            lemma_others(s, m, s.len() as int);
            let im = choose|i: int| 0 <= i < s.len() && s[i] == m;
            assert(0 <= im < s.len() && s[im] == m);
            assert(l.len() == s.len());
            lemma_set_of(l, l.len() as int);
            let r = set_of(l, l.len() as int);
            assert forall|x: EdgeView| r.contains(x) <==> s.contains(x) by {
                if r.contains(x) {
                    let i = choose|i: int| 0 <= i < l.len() && l[i] == x;
                    if i == 0 {
                        assert(s[im] == x);
                    } else {
                        assert(o[i - 1] == x);
                        assert(o.contains(x));
                    }
                }
                if s.contains(x) {
                    if x == m {
                        assert(l[0] == x);
                    } else {
                        let i = choose|i: int| 0 <= i < s.len() && s[i] == x;
                        assert(o.contains(x));
                        let k = choose|k: int| 0 <= k < o.len() && o[k] == x;
                        assert(l[k + 1] == x);
                    }
                }
            }
            lemma_sorted_unique(r, s);
            assert forall|k: int| 0 <= k < l.len() implies edge_fits(#[trigger] l[k]) by {
                if k == 0 {
                    assert(edge_fits(s[im]));
                } else {
                    assert(o[k - 1] == l[k]);
                    assert(o.contains(l[k]));
                    let i = choose|i: int| 0 <= i < s.len() && s[i] == l[k];
                    assert(edge_fits(s[i]));
                }
            }
        },
        None => {
            assert(s =~= Seq::empty());
        },
    }
}

/// A node of a lattice that was written at `pos` is read there.
proof fn lemma_parse_node_at(s: Seq<u8>, pos: int, n: NodeView)
    requires
        0 <= pos,
        pos + enc_node(n).len() <= s.len(),
        s.subrange(pos, pos + enc_node(n).len()) == enc_node(n),
        sorted(n.forwards),
        sorted(n.backwards),
        main_ok(n.forward_main, n.forwards),
        main_ok(n.backward_main, n.backwards),
        list_fits(n.forwards),
        list_fits(n.backwards),
        n.depth == 0,
    ensures
        parse_node(s, pos) == Some((n, pos + enc_node(n).len())),
{
    let fl = side_list(n.forwards, n.forward_main);
    let bl = side_list(n.backwards, n.backward_main);
    lemma_side_list(n.forwards, n.forward_main);
    lemma_side_list(n.backwards, n.backward_main);
    let a = le64(n.forwards.len() as int);
    let b = le64(n.backwards.len() as int);
    let c = enc_list(fl);
    let d = enc_list(bl);
    lemma_le64(n.forwards.len() as int, Seq::empty());
    lemma_le64(n.backwards.len() as int, Seq::empty());
    assert(enc_node(n) =~= a + (b + (c + d)));
    lemma_window(s, pos, a, b + (c + d));
    lemma_window(s, pos + 8, b, c + d);
    lemma_window(s, pos + 16, c, d);
    lemma_read_number_at(s, pos, n.forwards.len() as int);
    lemma_read_number_at(s, pos + 8, n.backwards.len() as int);
    lemma_parse_list_at(s, pos + 16, fl);
    lemma_parse_list_at(s, pos + 16 + c.len(), bl);
}

/// The first `upto` nodes of a lattice that were written at `pos` are read
/// there.
proof fn lemma_parse_nodes_at(s: Seq<u8>, pos: int, g: Seq<NodeView>, upto: int)
    requires
        valid_nodes(g),
        encodable(g),
        0 <= upto <= g.len(),
        0 <= pos,
        pos + enc_nodes(g, upto).len() <= s.len(),
        s.subrange(pos, pos + enc_nodes(g, upto).len()) == enc_nodes(g, upto),
    ensures
        parse_nodes(s, pos, upto) == Some((g.take(upto), pos + enc_nodes(g, upto).len())),
    decreases upto,
{
    if upto > 0 {
        let n = g[upto - 1];
        lemma_window(s, pos, enc_nodes(g, upto - 1), enc_node(n));
        lemma_parse_nodes_at(s, pos, g, upto - 1);
        assert(node_linked(g, upto - 1));
        lemma_parse_node_at(s, pos + enc_nodes(g, upto - 1).len(), n);
        assert(g.take(upto - 1).push(n) =~= g.take(upto));
    } else {
        assert(g.take(0) =~= Seq::empty());
    }
}

/// Reading what was written gives the lattice back: for every lattice that
/// can be written, the bytes of its encoding are read as the same nodes.
pub proof fn lemma_round_trip(g: Seq<NodeView>)
    requires
        valid_nodes(g),
        encodable(g),
    ensures
        parse(serialize(g)) == Some(g),
{
    let s = serialize(g);
    let body = enc_nodes(g, g.len() as int);
    lemma_le64(g.len() as int, Seq::empty());
    assert(s.subrange(0, 0int + le64(g.len() as int).len() + body.len()) =~= le64(
        g.len() as int,
    ) + body);
    lemma_window(s, 0, le64(g.len() as int), body);
    lemma_read_number_at(s, 0, g.len() as int);
    lemma_parse_nodes_at(s, 8, g, g.len() as int);
    assert(g.take(g.len() as int) =~= g);
}

} // verus!
