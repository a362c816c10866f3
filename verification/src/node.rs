//! Lattice nodes and the graphs they form.

use vstd::prelude::*;
use crate::edge::{EdgeView, edges_view, option_edge_view, sorted, insert_sorted, edges_insert};

verus! {

/// A node as a plain value.
pub struct NodeView {
    /// The outgoing edges, as an edge set.
    pub forwards: Seq<EdgeView>,
    /// The incoming edges, as an edge set.
    pub backwards: Seq<EdgeView>,
    /// The outgoing edge that continues the main path.
    pub forward_main: Option<EdgeView>,
    /// The incoming edge of the main path.
    pub backward_main: Option<EdgeView>,
    /// The number of substitutions by which the node came to be.
    pub depth: nat,
}

/// A vertex of a word lattice.
#[derive(Debug, PartialEq, Eq)]
pub struct LatticeNode<'a> {
    pub forwards: Vec<(&'a str, usize)>,
    pub backwards: Vec<(&'a str, usize)>,
    pub forward_main: Option<(&'a str, usize)>,
    pub backward_main: Option<(&'a str, usize)>,
    pub depth: usize,
}

impl<'a> View for LatticeNode<'a> {
    type V = NodeView;

    open spec fn view(&self) -> NodeView {
        NodeView {
            forwards: edges_view(self.forwards@),
            backwards: edges_view(self.backwards@),
            forward_main: option_edge_view(self.forward_main),
            backward_main: option_edge_view(self.backward_main),
            depth: self.depth as nat,
        }
    }
}

/// The edge set that holds `e` alone, or nothing.
pub open spec fn singleton_or_empty(e: Option<EdgeView>) -> Seq<EdgeView> {
    match e {
        Some(x) => seq![x],
        None => Seq::empty(),
    }
}

impl<'a> LatticeNode<'a> {
    /// Both edge vectors are edge sets.
    pub open spec fn wf(&self) -> bool {
        sorted(self@.forwards) && sorted(self@.backwards)
    }

    /// A node whose only edges are its main edges.
    pub fn new(
        forward_main: Option<(&'a str, usize)>,
        backward_main: Option<(&'a str, usize)>,
        depth: usize,
    ) -> (node: LatticeNode<'a>)
        ensures
            node.wf(),
            node@ == (NodeView {
                forwards: singleton_or_empty(option_edge_view(forward_main)),
                backwards: singleton_or_empty(option_edge_view(backward_main)),
                forward_main: option_edge_view(forward_main),
                backward_main: option_edge_view(backward_main),
                depth: depth as nat,
            }),
    {
        let mut forwards: Vec<(&'a str, usize)> = Vec::new();
        let mut backwards: Vec<(&'a str, usize)> = Vec::new();
        if let Some(x) = forward_main {
            forwards.push(x);
        }
        if let Some(x) = backward_main {
            backwards.push(x);
        }
        let node = LatticeNode { forwards, backwards, forward_main, backward_main, depth };
        assert(node@.forwards =~= singleton_or_empty(option_edge_view(forward_main)));
        assert(node@.backwards =~= singleton_or_empty(option_edge_view(backward_main)));
        node
    }

    /// Adds an outgoing edge. Adding an edge that is there changes nothing.
    pub fn insert_forward(&mut self, edge_str: &'a str, edge_target: usize)
        requires
            old(self).wf(),
        ensures
            final(self).wf(),
            final(self)@ == (NodeView {
                forwards: insert_sorted(old(self)@.forwards, (edge_str@, edge_target as int)),
                ..old(self)@
            }),
            forall|x: EdgeView| #[trigger]
                final(self)@.forwards.contains(x) <==> (old(self)@.forwards.contains(x) || x == (
                    edge_str@,
                    edge_target as int,
                )),
    {
        edges_insert(&mut self.forwards, (edge_str, edge_target));
    }

    /// Adds an incoming edge. Adding an edge that is there changes nothing.
    pub fn insert_backward(&mut self, edge_str: &'a str, edge_target: usize)
        requires
            old(self).wf(),
        ensures
            final(self).wf(),
            final(self)@ == (NodeView {
                backwards: insert_sorted(old(self)@.backwards, (edge_str@, edge_target as int)),
                ..old(self)@
            }),
            forall|x: EdgeView| #[trigger]
                final(self)@.backwards.contains(x) <==> (old(self)@.backwards.contains(x) || x == (
                    edge_str@,
                    edge_target as int,
                )),
    {
        edges_insert(&mut self.backwards, (edge_str, edge_target));
    }
}

/// A vector of nodes as plain values.
pub open spec fn nodes_view<'a>(v: Seq<LatticeNode<'a>>) -> Seq<NodeView> {
    Seq::new(v.len(), |i: int| v[i]@)
}

/// Every edge vector of the graph is an edge set.
pub open spec fn nodes_sorted(g: Seq<NodeView>) -> bool {
    forall|i: int|
        #![trigger g[i]]
        0 <= i < g.len() ==> sorted(g[i].forwards) && sorted(g[i].backwards)
}

/// Every edge of the graph ends at a node of the graph.
pub open spec fn nodes_in_range(g: Seq<NodeView>) -> bool {
    forall|i: int, k: int|
        #![trigger g[i].forwards[k]]
        #![trigger g[i].backwards[k]]
        0 <= i < g.len() ==> (0 <= k < g[i].forwards.len() ==> 0 <= g[i].forwards[k].1 < g.len())
            && (0 <= k < g[i].backwards.len() ==> 0 <= g[i].backwards[k].1 < g.len())
}

/// A main edge, where there is one, ends at a node of the graph.
pub open spec fn main_in_range(m: Option<EdgeView>, len: int) -> bool {
    m matches Some(e) ==> 0 <= e.1 < len
}

/// Every main edge of the graph ends at a node of the graph.
pub open spec fn mains_in_range(g: Seq<NodeView>) -> bool {
    forall|i: int|
        #![trigger g[i]]
        0 <= i < g.len() ==> main_in_range(g[i].forward_main, g.len() as int) && main_in_range(
            g[i].backward_main,
            g.len() as int,
        )
}

} // verus!
