//! From any node back and forth to the trunk: the span of a path on the
//! trunk, the trunk span of every node, and the records for a search index.

use vstd::prelude::*;
use std::collections::VecDeque;
use crate::edge::{EdgeView, edge_view, edges_view};
use crate::error::Error;
use crate::lattice::{
    Lattice, valid_nodes, node_linked, on_trunk, position, trunk_at, lemma_forward_main_target,
    lemma_backward_main_source, lemma_position_unique, lemma_trunk_increasing,
    lemma_trunk_in_range,
};
use crate::node::NodeView;

verus! {

/// The empty token, which marks the start of a path.
pub open spec fn no_token() -> Seq<char> {
    Seq::empty()
}

/// The walk from the trunk to node `i` along incoming main edges: a start
/// mark at the trunk node where it begins, then its edges, each with the node
/// it leads to.
pub open spec fn back_walk(g: Seq<NodeView>, i: int) -> Seq<EdgeView>
    decreases i,
{
    if on_trunk(g, i) || !(0 <= i < g.len()) {
        seq![(no_token(), i)]
    } else {
        match g[i].backward_main {
            Some(e) => if 0 <= e.1 < i {
                back_walk(g, e.1).push((e.0, i))
            } else {
                seq![(no_token(), i)]
            },
            None => seq![(no_token(), i)],
        }
    }
}

/// The walk from node `i` to the trunk along outgoing main edges: its edges,
/// each with the node it leads to.
pub open spec fn forward_walk(g: Seq<NodeView>, i: int) -> Seq<EdgeView>
    decreases g.len() - i,
{
    if on_trunk(g, i) || !(0 <= i < g.len()) {
        Seq::empty()
    } else {
        match g[i].forward_main {
            Some(e) => if i < e.1 < g.len() {
                seq![e] + forward_walk(g, e.1)
            } else {
                Seq::empty()
            },
            None => Seq::empty(),
        }
    }
}

/// A path can be projected when it is not empty and names nodes of the
/// lattice only.
pub open spec fn path_ok(g: Seq<NodeView>, path: Seq<EdgeView>) -> bool {
    &&& path.len() > 0
    &&& forall|k: int| 0 <= k < path.len() ==> 0 <= (#[trigger] path[k]).1 < g.len()
}

/// The path, extended at its front back to the trunk and at its back forward
/// to the trunk.
pub open spec fn trunk_span(g: Seq<NodeView>, path: Seq<EdgeView>) -> Seq<EdgeView> {
    back_walk(g, path[0].1) + path.drop_first() + forward_walk(g, path.last().1)
}

/// The trunk node at which the walk back from node `i` arrives.
pub open spec fn left_trunk(g: Seq<NodeView>, i: int) -> int
    decreases i,
{
    if on_trunk(g, i) || !(0 <= i < g.len()) {
        i
    } else {
        match g[i].backward_main {
            Some(e) => if 0 <= e.1 < i {
                left_trunk(g, e.1)
            } else {
                i
            },
            None => i,
        }
    }
}

/// The trunk node at which the walk forward from node `i` arrives.
pub open spec fn right_trunk(g: Seq<NodeView>, i: int) -> int
    decreases g.len() - i,
{
    if on_trunk(g, i) || !(0 <= i < g.len()) {
        i
    } else {
        match g[i].forward_main {
            Some(e) => if i < e.1 < g.len() {
                right_trunk(g, e.1)
            } else {
                i
            },
            None => i,
        }
    }
}

/// The walk back from a node of a lattice arrives at a trunk node that is no
/// later than the node.
pub proof fn lemma_left_trunk(g: Seq<NodeView>, i: int)
    requires
        valid_nodes(g),
        0 <= i < g.len(),
    ensures
        on_trunk(g, left_trunk(g, i)),
        0 <= left_trunk(g, i) <= i,
        back_walk(g, i).len() >= 1,
        back_walk(g, i)[0] == (no_token(), left_trunk(g, i)),
    decreases i,
{
    if !on_trunk(g, i) {
        lemma_position_unique(g, 0, 0);
        assert(i > 0);
        assert(node_linked(g, i));
        lemma_backward_main_source(g, i);
        lemma_left_trunk(g, g[i].backward_main.unwrap().1);
    }
}

/// The walk forward from a node of a lattice arrives at a trunk node that is
/// no earlier than the node.
pub proof fn lemma_right_trunk(g: Seq<NodeView>, i: int)
    requires
        valid_nodes(g),
        on_trunk(g, g.len() - 1),
        0 <= i < g.len(),
    ensures
        on_trunk(g, right_trunk(g, i)),
        i <= right_trunk(g, i) < g.len(),
        forward_walk(g, i).len() > 0 ==> forward_walk(g, i).last().1 == right_trunk(g, i),
        forward_walk(g, i).len() == 0 ==> right_trunk(g, i) == i,
    decreases g.len() - i,
{
    if !on_trunk(g, i) {
        assert(i < g.len() - 1);
        assert(node_linked(g, i));
        lemma_forward_main_target(g, i);
        let e = g[i].forward_main.unwrap();
        lemma_right_trunk(g, e.1);
        let rest = forward_walk(g, e.1);
        assert(forward_walk(g, i) == seq![e] + rest);
        if rest.len() > 0 {
            assert((seq![e] + rest).last() == rest.last());
        } else {
            assert((seq![e] + rest).last() == e);
        }
    }
}

/// Of two trunk nodes, the earlier one has the earlier place.
pub proof fn lemma_position_monotone(g: Seq<NodeView>, i: int, j: int)
    requires
        valid_nodes(g),
        on_trunk(g, i),
        on_trunk(g, j),
        i <= j,
    ensures
        position(g, i) <= position(g, j),
{
    let p = position(g, i);
    let q = position(g, j);
    if q < p {
        lemma_trunk_increasing(g, q, p);
    }
}

impl<'a> Lattice<'a> {
    /// Whether node `i` lies on the trunk.
    fn is_trunk(&self, i: usize) -> (r: bool)
        requires
            self.wf(),
            i < self@.len(),
        ensures
            r == on_trunk(self@, i as int),
    {
        self.trunk_position(i).is_some()
    }

    /// Extends a path to the trunk at both ends. The path is a start mark with
    /// the node where it begins, then edges with the nodes they lead to. At
    /// the front it is extended back along incoming main edges until a trunk
    /// node is reached, at the back forward along outgoing main edges. A path
    /// that is empty or names a node that the lattice does not have is
    /// refused.
    pub fn get_trunk_span(&self, path: Vec<(&'a str, usize)>) -> (r: Result<
        Vec<(&'a str, usize)>,
        Error,
    >)
        requires
            self.wf(),
        ensures
            r.is_ok() <==> path_ok(self@, edges_view(path@)),
            r matches Ok(p) ==> edges_view(p@) == trunk_span(self@, edges_view(path@)),
            r matches Err(e) ==> e == Error::InvalidPath,
    {
        let ghost g = self@;
        let ghost pv = edges_view(path@);
        proof {
            self.lemma_valid();
        }
        if path.len() == 0 {
            return Err(Error::InvalidPath);
        }
        let n = self.size();
        let mut k: usize = 0;
        while k < path.len()
            invariant
                g == self@,
                n == g.len(),
                pv == edges_view(path@),
                k <= path.len(),
                forall|j: int| 0 <= j < k ==> 0 <= (#[trigger] pv[j]).1 < n,
            decreases path.len() - k,
        {
            assert(pv[k as int] == edge_view(path@[k as int]));
            if path[k].1 >= n {
                assert(!(0 <= pv[k as int].1 < g.len()));
                return Err(Error::InvalidPath);
            }
            k += 1;
        }
        let mut new_path: VecDeque<(&'a str, usize)> = VecDeque::new();
        let mut k: usize = 1;
        while k < path.len()
            invariant
                pv == edges_view(path@),
                1 <= k <= path.len(),
                edges_view(new_path@) == pv.subrange(1, k as int),
            decreases path.len() - k,
        {
            let ghost old_view = edges_view(new_path@);
            new_path.push_back(path[k]);
            assert(pv[k as int] == edge_view(path@[k as int]));
            assert(edges_view(new_path@) =~= old_view.push(pv[k as int]));
            assert(old_view.push(pv[k as int]) =~= pv.subrange(1, k as int + 1));
            k += 1;
        }
        assert(pv.subrange(1, path.len() as int) =~= pv.drop_first());
        assert(pv[0] == edge_view(path@[0]));
        let first = path[0].1;
        let last = path[path.len() - 1].1;
        assert(pv.last() == edge_view(path@[path.len() - 1]));
        let ghost rest = pv.drop_first();
        let mut node_id = first;
        let ghost mut done: Seq<EdgeView> = Seq::empty();
        proof {
            lemma_left_trunk(g, first as int);
            let bw = back_walk(g, first as int);
            assert(bw =~= seq![bw[0]] + (bw.drop_first() + done));
            assert(edges_view(new_path@) =~= done + rest);
        }
        while !self.is_trunk(node_id)
            invariant
                g == self@,
                self.wf(),
                valid_nodes(g),
                on_trunk(g, 0),
                node_id < g.len(),
                edges_view(new_path@) == done + rest,
                back_walk(g, node_id as int).len() >= 1,
                back_walk(g, first as int) == seq![back_walk(g, node_id as int)[0]] + (back_walk(
                    g,
                    node_id as int,
                ).drop_first() + done),
            decreases node_id,
        {
            proof {
                assert(node_id > 0);
                assert(node_linked(g, node_id as int));
                lemma_backward_main_source(g, node_id as int);
            }
            match self.node(node_id).backward_main {
                Some(next_edge) => {
                    let ghost e = (next_edge.0@, node_id as int);
                    let ghost old_view = edges_view(new_path@);
                    new_path.push_front((next_edge.0, node_id));
                    proof {
                        assert(edges_view(new_path@) =~= seq![e] + old_view);
                        done = seq![e] + done;
                        lemma_left_trunk(g, next_edge.1 as int);
                        let bw = back_walk(g, next_edge.1 as int);
                        assert(back_walk(g, node_id as int) == bw.push(e));
                        assert(bw.push(e).drop_first() =~= bw.drop_first().push(e));
                        assert(bw.drop_first().push(e) + (done.drop_first()) =~= bw.drop_first()
                            + done);
                        assert(back_walk(g, first as int) =~= seq![bw[0]] + (bw.drop_first()
                            + done));
                        assert(edges_view(new_path@) =~= done + rest);
                    }
                    node_id = next_edge.1;
                },
                None => {
                    assert(false);
                },
            }
        }
        proof {
            reveal_strlit("");
            assert(""@ =~= no_token());
        }
        let ghost old_view = edges_view(new_path@);
        new_path.push_front(("", node_id));
        proof {
            assert(edges_view(new_path@) =~= seq![(no_token(), node_id as int)] + old_view);
            assert(back_walk(g, node_id as int) =~= seq![(no_token(), node_id as int)]);
            assert(edges_view(new_path@) =~= back_walk(g, first as int) + rest);
        }
        let ghost front = back_walk(g, first as int) + rest;
        let mut node_id = last;
        let ghost mut added: Seq<EdgeView> = Seq::empty();
        while !self.is_trunk(node_id)
            invariant
                g == self@,
                self.wf(),
                valid_nodes(g),
                on_trunk(g, g.len() - 1),
                node_id < g.len(),
                edges_view(new_path@) == front + added,
                forward_walk(g, last as int) == added + forward_walk(g, node_id as int),
            decreases g.len() - node_id,
        {
            proof {
                assert(node_id < g.len() - 1);
                assert(node_linked(g, node_id as int));
                lemma_forward_main_target(g, node_id as int);
            }
            match self.node(node_id).forward_main {
                Some(edge_fw) => {
                    let ghost e = edge_view(edge_fw);
                    let ghost old_view = edges_view(new_path@);
                    new_path.push_back(edge_fw);
                    proof {
                        assert(edges_view(new_path@) =~= old_view.push(e));
                        assert(forward_walk(g, node_id as int) == seq![e] + forward_walk(
                            g,
                            edge_fw.1 as int,
                        ));
                        added = added.push(e);
                    }
                    node_id = edge_fw.1;
                },
                None => {
                    assert(false);
                },
            }
        }
        proof {
            assert(forward_walk(g, node_id as int) =~= Seq::empty());
        }
        let mut out: Vec<(&'a str, usize)> = Vec::new();
        let mut k: usize = 0;
        while k < new_path.len()
            invariant
                k <= new_path.len(),
                out@ == new_path@.take(k as int),
            decreases new_path.len() - k,
        {
            out.push(new_path[k]);
            assert(new_path@.take(k as int + 1) =~= new_path@.take(k as int).push(
                new_path@[k as int],
            ));
            k += 1;
        }
        assert(new_path@.take(new_path.len() as int) =~= new_path@);
        Ok(out)
    }
}

/// The span of node `i` on the trunk: the places of the trunk nodes at which
/// the walks back and forward from `i` arrive.
pub open spec fn node_span(g: Seq<NodeView>, i: int) -> (nat, nat) {
    (position(g, left_trunk(g, i)), position(g, right_trunk(g, i)))
}

/// A list of spans as plain values.
pub open spec fn spans_view(v: Seq<(usize, usize)>) -> Seq<(nat, nat)> {
    Seq::new(v.len(), |i: int| (v[i].0 as nat, v[i].1 as nat))
}

/// The spans of all nodes of the graph.
pub open spec fn node_spans(g: Seq<NodeView>) -> Seq<(nat, nat)> {
    Seq::new(g.len(), |i: int| node_span(g, i))
}

/// A record for a search index: the token of an edge, the span on the trunk
/// that the edge covers, whether the record opens a new position (1) or
/// shares that of the record before it (0), and how many node ids the edge
/// spans.
#[derive(Debug, PartialEq, Eq)]
pub struct SearchIndexNode<'a> {
    pub text: &'a str,
    pub offset: (usize, usize),
    pub increment: usize,
    pub length: usize,
}

/// A record as a plain value.
pub struct RecordView {
    pub text: Seq<char>,
    pub offset: (nat, nat),
    pub increment: int,
    pub length: int,
}

impl<'a> View for SearchIndexNode<'a> {
    type V = RecordView;

    open spec fn view(&self) -> RecordView {
        RecordView {
            text: self.text@,
            offset: (self.offset.0 as nat, self.offset.1 as nat),
            increment: self.increment as int,
            length: self.length as int,
        }
    }
}

/// A list of records as plain values.
pub open spec fn records_view<'a>(v: Seq<SearchIndexNode<'a>>) -> Seq<RecordView> {
    Seq::new(v.len(), |i: int| v[i]@)
}

/// The record of the `k`-th outgoing edge of node `i`: from where the walk
/// back from `i` arrives to where the walk forward from the edge's end
/// arrives.
pub open spec fn edge_record(g: Seq<NodeView>, i: int, k: int) -> RecordView {
    let e = g[i].forwards[k];
    RecordView {
        text: e.0,
        offset: (node_span(g, i).0, node_span(g, e.1).1),
        increment: if k == 0 {
            1
        } else {
            0
        },
        length: e.1 - i,
    }
}

/// The records of the first `upto` outgoing edges of node `i`.
pub open spec fn node_records(g: Seq<NodeView>, i: int, upto: int) -> Seq<RecordView> {
    Seq::new(upto as nat, |k: int| edge_record(g, i, k))
}

/// The records of all edges out of the first `upto` nodes, node by node.
pub open spec fn index_records(g: Seq<NodeView>, upto: int) -> Seq<RecordView>
    decreases upto,
{
    if upto <= 0 {
        Seq::empty()
    } else {
        index_records(g, upto - 1) + node_records(
            g,
            upto - 1,
            g[upto - 1].forwards.len() as int,
        )
    }
}

impl<'a> Lattice<'a> {
    /// The span of every node on the trunk: for node `i`, the places of the
    /// trunk nodes at which the walks from `i` back along incoming main edges
    /// and forward along outgoing main edges arrive.
    pub fn get_trunk_spans(&self) -> (r: Vec<(usize, usize)>)
        requires
            self.wf(),
        ensures
            spans_view(r@) == node_spans(self@),
    {
        let ghost g = self@;
        proof {
            self.lemma_valid();
        }
        let n = self.size();
        let mut left_trunks: Vec<usize> = Vec::new();
        let mut i: usize = 0;
        while i < n
            invariant
                g == self@,
                self.wf(),
                valid_nodes(g),
                n == g.len(),
                i <= n,
                left_trunks.len() == i,
                forall|j: int| 0 <= j < i ==> (#[trigger] left_trunks[j]) == left_trunk(g, j),
            decreases n - i,
        {
            if self.is_trunk(i) {
                left_trunks.push(i);
            } else {
                proof {
                    lemma_position_unique(g, 0, 0);
                    assert(node_linked(g, i as int));
                    lemma_backward_main_source(g, i as int);
                }
                match self.node(i).backward_main {
                    Some(e) => {
                        let t = left_trunks[e.1];
                        left_trunks.push(t);
                    },
                    None => {
                        assert(false);
                    },
                }
            }
            i += 1;
        }
        let mut right_trunks: Vec<usize> = Vec::new();
        let mut i: usize = 0;
        while i < n
            invariant
                i <= n,
                right_trunks.len() == i,
            decreases n - i,
        {
            right_trunks.push(0);
            i += 1;
        }
        let mut i: usize = n;
        while i > 0
            invariant
                g == self@,
                self.wf(),
                valid_nodes(g),
                on_trunk(g, g.len() - 1),
                n == g.len(),
                i <= n,
                right_trunks.len() == n,
                forall|j: int| i <= j < n ==> (#[trigger] right_trunks[j]) == right_trunk(g, j),
            decreases i,
        {
            i -= 1;
            if self.is_trunk(i) {
                right_trunks[i] = i;
            } else {
                proof {
                    assert(node_linked(g, i as int));
                    lemma_forward_main_target(g, i as int);
                }
                match self.node(i).forward_main {
                    Some(e) => {
                        let t = right_trunks[e.1];
                        right_trunks[i] = t;
                    },
                    None => {
                        assert(false);
                    },
                }
            }
        }
        let mut result: Vec<(usize, usize)> = Vec::new();
        let mut i: usize = 0;
        while i < n
            invariant
                g == self@,
                self.wf(),
                valid_nodes(g),
                on_trunk(g, g.len() - 1),
                n == g.len(),
                i <= n,
                left_trunks.len() == n,
                right_trunks.len() == n,
                result.len() == i,
                forall|j: int| 0 <= j < n ==> (#[trigger] left_trunks[j]) == left_trunk(g, j),
                forall|j: int| 0 <= j < n ==> (#[trigger] right_trunks[j]) == right_trunk(g, j),
                forall|j: int|
                    0 <= j < i ==> (#[trigger] result[j]).0 == node_span(g, j).0 && result[j].1
                        == node_span(g, j).1,
            decreases n - i,
        {
            proof {
                lemma_left_trunk(g, i as int);
                lemma_right_trunk(g, i as int);
            }
            let l = self.trunk_position(left_trunks[i]);
            let r = self.trunk_position(right_trunks[i]);
            match (l, r) {
                (Some(a), Some(b)) => {
                    result.push((a, b));
                },
                _ => {
                    assert(false);
                },
            }
            i += 1;
        }
        assert(spans_view(result@) =~= node_spans(g));
        result
    }

    /// The records for a search index: one for every edge, node by node in
    /// the order of their ids and, for each node, edge by edge in the order of
    /// its edge set.
    pub fn dump_for_search_index(&self) -> (r: Vec<SearchIndexNode<'a>>)
        requires
            self.wf(),
        ensures
            records_view(r@) == index_records(self@, self@.len() - 1),
    {
        let ghost g = self@;
        proof {
            self.lemma_valid();
        }
        let trunk_spans = self.get_trunk_spans();
        let n = self.size();
        assert(trunk_spans.len() == n) by {
            assert(spans_view(trunk_spans@).len() == node_spans(g).len());
        }
        let mut result: Vec<SearchIndexNode<'a>> = Vec::new();
        let mut i: usize = 0;
        assert(records_view(result@) =~= index_records(g, 0));
        while i < n - 1
            invariant
                g == self@,
                self.wf(),
                valid_nodes(g),
                n == g.len(),
                i <= n - 1,
                trunk_spans.len() == n,
                spans_view(trunk_spans@) == node_spans(g),
                records_view(result@) == index_records(g, i as int),
            decreases n - 1 - i,
        {
            let node = self.node(i);
            let ghost before = records_view(result@);
            let mut j: usize = 0;
            assert(node_records(g, i as int, 0) =~= Seq::empty());
            while j < node.forwards.len()
                invariant
                    g == self@,
                    valid_nodes(g),
                    n == g.len(),
                    i < n - 1,
                    node@ == g[i as int],
                    j <= node.forwards.len(),
                    trunk_spans.len() == n,
                    spans_view(trunk_spans@) == node_spans(g),
                    records_view(result@) == before + node_records(g, i as int, j as int),
                decreases node.forwards.len() - j,
            {
                let edge = node.forwards[j];
                proof {
                    assert(node_linked(g, i as int));
                    assert(g[i as int].forwards[j as int] == edge_view(edge));
                    assert(crate::lattice::forward_edge_ok(
                        g,
                        i as int,
                        g[i as int].forwards[j as int],
                    ));
                    assert(spans_view(trunk_spans@)[i as int] == node_span(g, i as int));
                    assert(spans_view(trunk_spans@)[edge.1 as int] == node_span(g, edge.1 as int));
                }
                let record = SearchIndexNode {
                    text: edge.0,
                    offset: (trunk_spans[i].0, trunk_spans[edge.1].1),
                    increment: if j == 0 {
                        1
                    } else {
                        0
                    },
                    length: edge.1 - i,
                };
                let ghost rv = record@;
                let ghost prev = records_view(result@);
                result.push(record);
                proof {
                    assert(rv == edge_record(g, i as int, j as int));
                    assert(records_view(result@) =~= prev.push(rv));
                    assert(node_records(g, i as int, j as int + 1) =~= node_records(
                        g,
                        i as int,
                        j as int,
                    ).push(rv));
                }
                j += 1;
            }
            i += 1;
        }
        result
    }
}

/// The trunk of a lattice ends at the last node.
pub proof fn lemma_last_on_trunk(g: Seq<NodeView>)
    requires
        valid_nodes(g),
    ensures
        on_trunk(g, g.len() - 1),
        on_trunk(g, 0),
{
    lemma_position_unique(g, 0, 0);
    lemma_trunk_reaches_last(g, 0);
}

proof fn lemma_trunk_reaches_last(g: Seq<NodeView>, p: nat)
    requires
        valid_nodes(g),
        trunk_at(g, p).is_some(),
    ensures
        on_trunk(g, g.len() - 1),
    decreases g.len() - trunk_at(g, p).unwrap(),
{
    lemma_trunk_in_range(g, p);
    let i = trunk_at(g, p).unwrap();
    assert(node_linked(g, i));
    if g[i].forward_main.is_some() {
        lemma_forward_main_target(g, i);
        assert(trunk_at(g, p + 1) == Some(g[i].forward_main.unwrap().1));
        lemma_trunk_reaches_last(g, p + 1);
    } else {
        assert(i == g.len() - 1);
        lemma_position_unique(g, i, p);
    }
}

/// The span of a path begins at a trunk node and ends at a trunk node.
pub proof fn lemma_trunk_span_ends(g: Seq<NodeView>, path: Seq<EdgeView>)
    requires
        valid_nodes(g),
        path_ok(g, path),
    ensures
        on_trunk(g, trunk_span(g, path)[0].1),
        on_trunk(g, trunk_span(g, path).last().1),
        trunk_span(g, path)[0].0 == no_token(),
{
    lemma_last_on_trunk(g);
    let first = path[0].1;
    let last = path.last().1;
    lemma_left_trunk(g, first);
    lemma_right_trunk(g, last);
    let bw = back_walk(g, first);
    let fw = forward_walk(g, last);
    let rest = path.drop_first();
    let span = trunk_span(g, path);
    assert(span[0] == bw[0]);
    if fw.len() > 0 {
        assert(span.last() == fw.last());
    } else if rest.len() > 0 {
        assert(span.last() == rest.last());
        assert(rest.last() == path.last());
    } else {
        assert(span.last() == bw.last());
        lemma_back_walk_last(g, first);
    }
}

/// The walk back to a node ends at that node.
proof fn lemma_back_walk_last(g: Seq<NodeView>, i: int)
    requires
        valid_nodes(g),
        0 <= i < g.len(),
    ensures
        back_walk(g, i).last().1 == i,
{
    if !on_trunk(g, i) {
        lemma_position_unique(g, 0, 0);
        assert(node_linked(g, i));
        lemma_backward_main_source(g, i);
    }
}

/// The span of a node on the trunk is in order: it begins no later than it
/// ends. The span of a trunk node begins and ends at the node's own place.
pub proof fn lemma_node_span(g: Seq<NodeView>, i: int)
    requires
        valid_nodes(g),
        0 <= i < g.len(),
    ensures
        node_span(g, i).0 <= node_span(g, i).1,
        on_trunk(g, i) ==> node_span(g, i) == (position(g, i), position(g, i)),
{
    lemma_last_on_trunk(g);
    lemma_left_trunk(g, i);
    lemma_right_trunk(g, i);
    lemma_position_monotone(g, left_trunk(g, i), right_trunk(g, i));
}

} // verus!
