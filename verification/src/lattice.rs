//! The word lattice: a directed acyclic graph of word edges from one source
//! to one sink, with a main path (the trunk) that spells the sentence.

use vstd::prelude::*;
use crate::edge::{
    EdgeView, edge_view, edges_view, option_edge_view, sorted, edge_lt, compare_edges,
    edges_contains, lemma_edge_lt_transitive,
};
use crate::node::{LatticeNode, NodeView, nodes_view, nodes_sorted, nodes_in_range};
use crate::token::Order;

verus! {

/// An outgoing edge of node `i` leads to a later node, which has it as an
/// incoming edge.
pub open spec fn forward_edge_ok(g: Seq<NodeView>, i: int, e: EdgeView) -> bool {
    i < e.1 < g.len() && g[e.1].backwards.contains((e.0, i))
}

/// An incoming edge of node `i` comes from an earlier node, which has it as an
/// outgoing edge.
pub open spec fn backward_edge_ok(g: Seq<NodeView>, i: int, e: EdgeView) -> bool {
    0 <= e.1 < i && g[e.1].forwards.contains((e.0, i))
}

/// A main edge is one of the edges; there is none only where there are no
/// edges.
pub open spec fn main_ok(m: Option<EdgeView>, s: Seq<EdgeView>) -> bool {
    match m {
        Some(e) => s.contains(e),
        None => s.len() == 0,
    }
}

/// Node `i` is linked as a lattice asks: every edge runs from an earlier to a
/// later node and is held at both ends, only the first node has no incoming
/// and only the last no outgoing edge, and the main edges are edges.
pub open spec fn node_linked(g: Seq<NodeView>, i: int) -> bool {
    &&& forall|k: int|
        0 <= k < g[i].forwards.len() ==> forward_edge_ok(g, i, #[trigger] g[i].forwards[k])
    &&& forall|k: int|
        0 <= k < g[i].backwards.len() ==> backward_edge_ok(g, i, #[trigger] g[i].backwards[k])
    &&& (i < g.len() - 1 ==> g[i].forwards.len() > 0)
    &&& (i > 0 ==> g[i].backwards.len() > 0)
    &&& main_ok(g[i].forward_main, g[i].forwards)
    &&& main_ok(g[i].backward_main, g[i].backwards)
}

/// Every node of the graph has depth 0.
pub open spec fn nodes_flat(g: Seq<NodeView>) -> bool {
    forall|i: int| 0 <= i < g.len() ==> (#[trigger] g[i]).depth == 0
}

/// The graph is a lattice.
pub open spec fn valid_nodes(g: Seq<NodeView>) -> bool {
    &&& g.len() >= 1
    &&& nodes_sorted(g)
    &&& nodes_flat(g)
    &&& forall|i: int| 0 <= i < g.len() ==> #[trigger] node_linked(g, i)
}

/// The node at place `p` of the trunk: the node reached from node 0 over `p`
/// outgoing main edges.
pub open spec fn trunk_at(g: Seq<NodeView>, p: nat) -> Option<int>
    decreases p,
{
    if p == 0 {
        Some(0)
    } else {
        match trunk_at(g, (p - 1) as nat) {
            Some(i) => if 0 <= i < g.len() {
                match g[i].forward_main {
                    Some(e) => Some(e.1),
                    None => None,
                }
            } else {
                None
            },
            None => None,
        }
    }
}

/// Node `i` lies on the trunk.
pub open spec fn on_trunk(g: Seq<NodeView>, i: int) -> bool {
    exists|p: nat| trunk_at(g, p) == Some(i)
}

/// The place of node `i` on the trunk.
pub open spec fn position(g: Seq<NodeView>, i: int) -> nat {
    choose|p: nat| trunk_at(g, p) == Some(i)
}

/// The number of edges of the graph.
pub open spec fn edge_count(g: Seq<NodeView>) -> nat
    decreases g.len(),
{
    if g.len() == 0 {
        0
    } else {
        edge_count(g.drop_last()) + g.last().forwards.len()
    }
}

/// The main edge of a node leads to a later node.
pub proof fn lemma_forward_main_target(g: Seq<NodeView>, i: int)
    requires
        valid_nodes(g),
        0 <= i < g.len(),
        g[i].forward_main.is_some(),
    ensures
        i < g[i].forward_main.unwrap().1 < g.len(),
{
    assert(node_linked(g, i));
    let e = g[i].forward_main.unwrap();
    let k = choose|k: int| 0 <= k < g[i].forwards.len() && g[i].forwards[k] == e;
    assert(forward_edge_ok(g, i, g[i].forwards[k]));
}

/// The incoming main edge of a node comes from an earlier node.
pub proof fn lemma_backward_main_source(g: Seq<NodeView>, i: int)
    requires
        valid_nodes(g),
        0 <= i < g.len(),
        g[i].backward_main.is_some(),
    ensures
        0 <= g[i].backward_main.unwrap().1 < i,
{
    assert(node_linked(g, i));
    let e = g[i].backward_main.unwrap();
    let k = choose|k: int| 0 <= k < g[i].backwards.len() && g[i].backwards[k] == e;
    assert(backward_edge_ok(g, i, g[i].backwards[k]));
}

/// Every edge of a lattice ends at a node of the lattice.
pub proof fn lemma_valid_in_range(g: Seq<NodeView>)
    requires
        valid_nodes(g),
    ensures
        nodes_in_range(g),
{
    assert forall|i: int, k: int|
        #![trigger g[i].forwards[k]]
        #![trigger g[i].backwards[k]]
        0 <= i < g.len() implies (0 <= k < g[i].forwards.len() ==> 0 <= g[i].forwards[k].1
        < g.len()) && (0 <= k < g[i].backwards.len() ==> 0 <= g[i].backwards[k].1 < g.len()) by {
        assert(node_linked(g, i));
        if 0 <= k < g[i].forwards.len() {
            assert(forward_edge_ok(g, i, g[i].forwards[k]));
        }
        if 0 <= k < g[i].backwards.len() {
            assert(backward_edge_ok(g, i, g[i].backwards[k]));
        }
    }
}

/// The trunk runs through ever later nodes: the node at place `q` lies after
/// the node at any earlier place.
pub proof fn lemma_trunk_increasing(g: Seq<NodeView>, p: nat, q: nat)
    requires
        valid_nodes(g),
        p < q,
        trunk_at(g, q).is_some(),
    ensures
        trunk_at(g, p).is_some(),
        0 <= trunk_at(g, p).unwrap() < trunk_at(g, q).unwrap() < g.len(),
    decreases q,
{
    let prev = trunk_at(g, (q - 1) as nat);
    let i = prev.unwrap();
    lemma_forward_main_target(g, i);
    if p < q - 1 {
        lemma_trunk_increasing(g, p, (q - 1) as nat);
    } else {
        lemma_trunk_in_range(g, p);
    }
}

/// A node on the trunk is a node of the lattice, no earlier than its place.
pub proof fn lemma_trunk_in_range(g: Seq<NodeView>, p: nat)
    requires
        valid_nodes(g),
        trunk_at(g, p).is_some(),
    ensures
        p <= trunk_at(g, p).unwrap() < g.len(),
    decreases p,
{
    if p > 0 {
        let i = trunk_at(g, (p - 1) as nat).unwrap();
        lemma_trunk_in_range(g, (p - 1) as nat);
        lemma_forward_main_target(g, i);
    }
}

/// A node has one place on the trunk at most.
pub proof fn lemma_position_unique(g: Seq<NodeView>, i: int, p: nat)
    requires
        valid_nodes(g),
        trunk_at(g, p) == Some(i),
    ensures
        on_trunk(g, i),
        position(g, i) == p,
{
    let q = position(g, i);
    if p < q {
        lemma_trunk_increasing(g, p, q);
    } else if q < p {
        lemma_trunk_increasing(g, q, p);
    }
}

/// Whether an edge vector is an edge set.
pub fn check_sorted(v: &Vec<(&str, usize)>) -> (ok: bool)
    ensures
        ok == sorted(edges_view(v@)),
{
    let ghost s = edges_view(v@);
    let mut k: usize = 1;
    while k < v.len()
        invariant
            1 <= k,
            s == edges_view(v@),
            forall|i: int, j: int| 0 <= i < j < k && j < s.len() ==> edge_lt(s[i], s[j]),
        decreases v.len() - k,
    {
        assert(s[k - 1] == edge_view(v@[k - 1]));
        assert(s[k as int] == edge_view(v@[k as int]));
        match compare_edges(v[k - 1], v[k]) {
            Order::Less => {
                proof {
                    assert forall|i: int, j: int| 0 <= i < j < k + 1 && j < s.len() implies edge_lt(
                        s[i],
                        s[j],
                    ) by {
                        if j == k && i < k - 1 {
                            lemma_edge_lt_transitive(s[i], s[k - 1], s[k as int]);
                        }
                    }
                }
            },
            _ => {
                return false;
            },
        }
        k += 1;
    }
    true
}

/// Whether every outgoing edge of node `i` is in order.
fn check_forward_edges(nodes: &Vec<LatticeNode>, i: usize) -> (ok: bool)
    requires
        nodes_sorted(nodes_view(nodes@)),
        i < nodes.len(),
    ensures
        ok == (forall|k: int|
            0 <= k < nodes_view(nodes@)[i as int].forwards.len() ==> forward_edge_ok(
                nodes_view(nodes@),
                i as int,
                #[trigger] nodes_view(nodes@)[i as int].forwards[k],
            )),
{
    let ghost g = nodes_view(nodes@);
    assert(g[i as int] == nodes@[i as int]@);
    let mut k: usize = 0;
    while k < nodes[i].forwards.len()
        invariant
            g == nodes_view(nodes@),
            nodes_sorted(g),
            i < nodes.len(),
            k <= nodes[i as int].forwards.len(),
            g[i as int].forwards.len() == nodes[i as int].forwards.len(),
            forall|j: int| 0 <= j < k ==> forward_edge_ok(g, i as int, #[trigger] g[i as int].forwards[j]),
        decreases nodes[i as int].forwards.len() - k,
    {
        let e = nodes[i].forwards[k];
        assert(g[i as int].forwards[k as int] == edge_view(e));
        if !(i < e.1 && e.1 < nodes.len()) {
            assert(!forward_edge_ok(g, i as int, g[i as int].forwards[k as int]));
            return false;
        }
        assert(g[e.1 as int] == nodes@[e.1 as int]@);
        assert(sorted(g[e.1 as int].forwards) && sorted(g[e.1 as int].backwards));
        if !edges_contains(&nodes[e.1].backwards, (e.0, i)) {
            assert(!forward_edge_ok(g, i as int, g[i as int].forwards[k as int]));
            return false;
        }
        k += 1;
    }
    true
}

/// Whether every incoming edge of node `i` is in order.
fn check_backward_edges(nodes: &Vec<LatticeNode>, i: usize) -> (ok: bool)
    requires
        nodes_sorted(nodes_view(nodes@)),
        i < nodes.len(),
    ensures
        ok == (forall|k: int|
            0 <= k < nodes_view(nodes@)[i as int].backwards.len() ==> backward_edge_ok(
                nodes_view(nodes@),
                i as int,
                #[trigger] nodes_view(nodes@)[i as int].backwards[k],
            )),
{
    let ghost g = nodes_view(nodes@);
    assert(g[i as int] == nodes@[i as int]@);
    let mut k: usize = 0;
    while k < nodes[i].backwards.len()
        invariant
            g == nodes_view(nodes@),
            nodes_sorted(g),
            i < nodes.len(),
            k <= nodes[i as int].backwards.len(),
            g[i as int].backwards.len() == nodes[i as int].backwards.len(),
            forall|j: int|
                0 <= j < k ==> backward_edge_ok(g, i as int, #[trigger] g[i as int].backwards[j]),
        decreases nodes[i as int].backwards.len() - k,
    {
        let e = nodes[i].backwards[k];
        assert(g[i as int].backwards[k as int] == edge_view(e));
        if !(e.1 < i) {
            assert(!backward_edge_ok(g, i as int, g[i as int].backwards[k as int]));
            return false;
        }
        assert(g[e.1 as int] == nodes@[e.1 as int]@);
        assert(sorted(g[e.1 as int].forwards) && sorted(g[e.1 as int].backwards));
        if !edges_contains(&nodes[e.1].forwards, (e.0, i)) {
            assert(!backward_edge_ok(g, i as int, g[i as int].backwards[k as int]));
            return false;
        }
        k += 1;
    }
    true
}

/// Whether a main edge fits its edge set.
fn check_main(m: Option<(&str, usize)>, v: &Vec<(&str, usize)>) -> (ok: bool)
    requires
        sorted(edges_view(v@)),
    ensures
        ok == main_ok(option_edge_view(m), edges_view(v@)),
{
    match m {
        Some(e) => edges_contains(v, e),
        None => v.len() == 0,
    }
}

/// Whether node `i` is linked as a lattice asks.
fn check_node(nodes: &Vec<LatticeNode>, i: usize) -> (ok: bool)
    requires
        nodes_sorted(nodes_view(nodes@)),
        i < nodes.len(),
    ensures
        ok == node_linked(nodes_view(nodes@), i as int),
{
    let ghost g = nodes_view(nodes@);
    assert(g[i as int] == nodes@[i as int]@);
    assert(sorted(g[i as int].forwards) && sorted(g[i as int].backwards));
    let node = &nodes[i];
    if i < nodes.len() - 1 && node.forwards.len() == 0 {
        return false;
    }
    if i > 0 && node.backwards.len() == 0 {
        return false;
    }
    check_main(node.forward_main, &node.forwards) && check_main(
        node.backward_main,
        &node.backwards,
    ) && check_forward_edges(nodes, i) && check_backward_edges(nodes, i)
}

/// Whether the graph is a lattice.
pub fn check_nodes(nodes: &Vec<LatticeNode>) -> (ok: bool)
    ensures
        ok == valid_nodes(nodes_view(nodes@)),
{
    let ghost g = nodes_view(nodes@);
    if nodes.len() == 0 {
        return false;
    }
    let mut i: usize = 0;
    while i < nodes.len()
        invariant
            g == nodes_view(nodes@),
            i <= nodes.len(),
            forall|j: int|
                #![trigger g[j]]
                0 <= j < i ==> sorted(g[j].forwards) && sorted(g[j].backwards) && g[j].depth == 0,
        decreases nodes.len() - i,
    {
        assert(g[i as int] == nodes@[i as int]@);
        if !check_sorted(&nodes[i].forwards) {
            assert(!sorted(g[i as int].forwards));
            return false;
        }
        if !check_sorted(&nodes[i].backwards) {
            assert(!sorted(g[i as int].backwards));
            return false;
        }
        if nodes[i].depth != 0 {
            assert(g[i as int].depth != 0);
            return false;
        }
        i += 1;
    }
    let mut i: usize = 0;
    while i < nodes.len()
        invariant
            g == nodes_view(nodes@),
            nodes_sorted(g),
            nodes_flat(g),
            i <= nodes.len(),
            forall|j: int| 0 <= j < i ==> #[trigger] node_linked(g, j),
        decreases nodes.len() - i,
    {
        if !check_node(nodes, i) {
            return false;
        }
        i += 1;
    }
    true
}

/// A trunk table entry says where node `i` lies on the trunk, or that it does
/// not lie on it.
pub open spec fn trunk_entry_ok(g: Seq<NodeView>, entry: Option<usize>, i: int) -> bool {
    match entry {
        Some(p) => trunk_at(g, p as nat) == Some(i),
        None => !on_trunk(g, i),
    }
}

/// The trunk table of the graph.
pub open spec fn trunk_ok(g: Seq<NodeView>, trunk: Seq<Option<usize>>) -> bool {
    &&& trunk.len() == g.len()
    &&& forall|i: int| 0 <= i < g.len() ==> trunk_entry_ok(g, #[trigger] trunk[i], i)
    &&& trunk[g.len() - 1].is_some()
}

/// Makes the table of trunk places: follows the outgoing main edges from node
/// 0 and numbers the nodes on the way.
fn build_trunk(nodes: &Vec<LatticeNode>) -> (trunk: Vec<Option<usize>>)
    requires
        valid_nodes(nodes_view(nodes@)),
    ensures
        trunk_ok(nodes_view(nodes@), trunk@),
{
    let ghost g = nodes_view(nodes@);
    let mut trunk: Vec<Option<usize>> = Vec::new();
    let mut i: usize = 0;
    while i < nodes.len()
        invariant
            i <= nodes.len(),
            trunk.len() == i,
            forall|j: int| 0 <= j < i ==> (#[trigger] trunk[j]).is_none(),
        decreases nodes.len() - i,
    {
        trunk.push(None);
        i += 1;
    }
    trunk[0] = Some(0);
    let mut node_id: usize = 0;
    let mut orig_node_id: usize = 0;
    proof {
        lemma_position_unique(g, 0, 0);
    }
    loop
        invariant
            g == nodes_view(nodes@),
            valid_nodes(g),
            trunk.len() == nodes.len(),
            node_id < nodes.len(),
            orig_node_id <= node_id,
            trunk_at(g, orig_node_id as nat) == Some(node_id as int),
            forall|j: int| 0 <= j <= node_id ==> trunk_entry_ok(g, #[trigger] trunk[j], j),
            forall|j: int| node_id < j < trunk.len() ==> (#[trigger] trunk[j]).is_none(),
            trunk[node_id as int].is_some(),
        ensures
            g == nodes_view(nodes@),
            trunk.len() == nodes.len(),
            node_id < nodes.len(),
            forall|j: int| 0 <= j <= node_id ==> trunk_entry_ok(g, #[trigger] trunk[j], j),
            trunk[node_id as int].is_some(),
            g[node_id as int].forward_main.is_none(),
        decreases nodes.len() - node_id,
    {
        assert(g[node_id as int] == nodes@[node_id as int]@);
        match nodes[node_id].forward_main {
            None => {
                break ;
            },
            Some(x) => {
                proof {
                    lemma_forward_main_target(g, node_id as int);
                    let p = orig_node_id as nat;
                    assert(trunk_at(g, p + 1) == Some(x.1 as int));
                    assert forall|j: int| node_id < j < x.1 implies !on_trunk(g, j) by {
                        if on_trunk(g, j) {
                            let q = choose|q: nat| trunk_at(g, q) == Some(j);
                            if q <= p {
                                if q < p {
                                    lemma_trunk_increasing(g, q, p);
                                }
                            } else if q > p + 1 {
                                lemma_trunk_increasing(g, p + 1, q);
                            }
                        }
                    }
                }
                node_id = x.1;
                orig_node_id += 1;
                trunk[node_id] = Some(orig_node_id);
            },
        }
    }
    proof {
        assert(node_linked(g, node_id as int));
    }
    trunk
}

/// The number of edges as far as a count can hold it.
pub open spec fn capacity_of(g: Seq<NodeView>) -> int {
    if edge_count(g) <= usize::MAX {
        edge_count(g) as int
    } else {
        usize::MAX as int
    }
}

/// Counts the edges of the graph, up to the largest count.
fn count_edges(nodes: &Vec<LatticeNode>) -> (r: usize)
    ensures
        r == capacity_of(nodes_view(nodes@)),
{
    let ghost g = nodes_view(nodes@);
    let mut sum: usize = 0;
    let mut i: usize = 0;
    assert(g.take(0) =~= Seq::empty());
    while i < nodes.len()
        invariant
            g == nodes_view(nodes@),
            i <= nodes.len(),
            sum == edge_count(g.take(i as int)),
        decreases nodes.len() - i,
    {
        proof {
            assert(g.take(i as int + 1).drop_last() =~= g.take(i as int));
            assert(g[i as int] == nodes@[i as int]@);
            lemma_edge_count_prefix(g, i as int + 1);
        }
        match sum.checked_add(nodes[i].forwards.len()) {
            Some(s) => {
                sum = s;
            },
            None => {
                return usize::MAX;
            },
        }
        i += 1;
    }
    assert(g.take(nodes.len() as int) =~= g);
    sum
}

/// A part of the graph has no more edges than the whole.
pub proof fn lemma_edge_count_prefix(g: Seq<NodeView>, k: int)
    requires
        0 <= k <= g.len(),
    ensures
        edge_count(g.take(k)) <= edge_count(g),
    decreases g.len() - k,
{
    if k < g.len() {
        assert(g.take(k + 1).drop_last() =~= g.take(k));
        lemma_edge_count_prefix(g, k + 1);
    } else {
        assert(g.take(k) =~= g);
    }
}

/// A word lattice.
#[derive(Debug, PartialEq, Eq)]
pub struct Lattice<'a> {
    pub(crate) lattice: Vec<LatticeNode<'a>>,
    pub(crate) trunk: Vec<Option<usize>>,
    pub(crate) capacity: usize,
}

impl<'a> View for Lattice<'a> {
    type V = Seq<NodeView>;

    /// The nodes of the lattice, by id.
    closed spec fn view(&self) -> Seq<NodeView> {
        nodes_view(self.lattice@)
    }
}

impl<'a> Lattice<'a> {
    /// The lattice is sound: its graph is a lattice, and its trunk table and
    /// its edge count are those of the graph.
    pub closed spec fn wf(&self) -> bool {
        &&& valid_nodes(self@)
        &&& trunk_ok(self@, self.trunk@)
        &&& self.capacity == capacity_of(self@)
    }

    /// A sound lattice has a graph that is a lattice.
    pub proof fn lemma_valid(&self)
        requires
            self.wf(),
        ensures
            valid_nodes(self@),
            on_trunk(self@, 0),
            on_trunk(self@, self@.len() - 1),
    {
        let g = self@;
        lemma_position_unique(g, 0, 0);
        let p = self.trunk@[g.len() - 1].unwrap();
        assert(trunk_entry_ok(g, self.trunk@[g.len() - 1], g.len() - 1));
        lemma_position_unique(g, g.len() - 1, p as nat);
    }

    /// Makes a lattice of the nodes, where they form one.
    pub fn from_nodes(nodes: Vec<LatticeNode<'a>>) -> (r: Option<Lattice<'a>>)
        ensures
            r.is_some() <==> valid_nodes(nodes_view(nodes@)),
            r matches Some(l) ==> l.wf() && l@ == nodes_view(nodes@),
    {
        if !check_nodes(&nodes) {
            return None;
        }
        Some(Lattice::from_valid(nodes))
    }

    /// Makes a lattice of nodes that form one.
    pub fn from_valid(nodes: Vec<LatticeNode<'a>>) -> (l: Lattice<'a>)
        requires
            valid_nodes(nodes_view(nodes@)),
        ensures
            l.wf(),
            l@ == nodes_view(nodes@),
    {
        let trunk = build_trunk(&nodes);
        let capacity = count_edges(&nodes);
        Lattice { lattice: nodes, trunk, capacity }
    }

    /// The number of nodes.
    pub fn size(&self) -> (n: usize)
        ensures
            n == self@.len(),
    {
        self.lattice.len()
    }

    /// The number of edges, or the largest count where they are more.
    pub fn capacity(&self) -> (n: usize)
        requires
            self.wf(),
        ensures
            n == capacity_of(self@),
    {
        self.capacity
    }

    /// The nodes, by id.
    pub fn nodes(&self) -> (v: &Vec<LatticeNode<'a>>)
        ensures
            nodes_view(v@) == self@,
    {
        &self.lattice
    }

    /// The node with id `i`.
    pub fn node(&self, i: usize) -> (n: &LatticeNode<'a>)
        requires
            i < self@.len(),
        ensures
            n@ == self@[i as int],
    {
        &self.lattice[i]
    }

    /// The place of node `i` on the trunk, if it lies on the trunk.
    pub fn trunk_position(&self, i: usize) -> (r: Option<usize>)
        requires
            self.wf(),
            i < self@.len(),
        ensures
            r.is_some() <==> on_trunk(self@, i as int),
            r matches Some(p) ==> p == position(self@, i as int),
    {
        let r = self.trunk[i];
        proof {
            assert(trunk_entry_ok(self@, self.trunk@[i as int], i as int));
            if let Some(p) = r {
                lemma_position_unique(self@, i as int, p as nat);
            }
        }
        r
    }
}

} // verus!
