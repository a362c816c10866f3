//! The lattice of a sentence before any paraphrase is added: a chain of
//! nodes, one edge per word.

use vstd::prelude::*;
use crate::edge::sorted;
use crate::expand::growing;
use crate::lattice::{valid_nodes, node_linked, edge_count, trunk_at};
use crate::node::{
    LatticeNode, NodeView, nodes_view, singleton_or_empty, nodes_in_range, mains_in_range,
};
use crate::token::tokens_view;

verus! {

/// Node `i` of the chain that spells `words`.
pub open spec fn chain_node(words: Seq<Seq<char>>, i: int) -> NodeView {
    let fw = if i < words.len() {
        Some((words[i], i + 1))
    } else {
        None
    };
    let bw = if i > 0 {
        Some((words[i - 1], i - 1))
    } else {
        None
    };
    NodeView {
        forwards: singleton_or_empty(fw),
        backwards: singleton_or_empty(bw),
        forward_main: fw,
        backward_main: bw,
        depth: 0,
    }
}

/// The chain that spells `words`: nodes `0..=words.len()`, with the edge for
/// word `i` from node `i` to node `i + 1`.
pub open spec fn chain_nodes(words: Seq<Seq<char>>) -> Seq<NodeView> {
    Seq::new(words.len() + 1, |i: int| chain_node(words, i))
}

/// The trunk of the graph spells `words`: it has as many edges as there are
/// words, and its edges carry the words in order.
pub open spec fn spells(g: Seq<NodeView>, words: Seq<Seq<char>>) -> bool {
    &&& trunk_at(g, words.len()) == Some(g.len() - 1)
    &&& forall|p: nat| p < words.len() ==> #[trigger] trunk_word(g, p) == Some(words[p as int])
}

/// The token of the trunk's edge at place `p`.
pub open spec fn trunk_word(g: Seq<NodeView>, p: nat) -> Option<Seq<char>> {
    match trunk_at(g, p) {
        Some(i) => if 0 <= i < g.len() {
            match g[i].forward_main {
                Some(e) => Some(e.0),
                None => None,
            }
        } else {
            None
        },
        None => None,
    }
}

/// The ranks of a chain: all zero.
pub open spec fn chain_rank(words: Seq<Seq<char>>) -> Seq<nat> {
    Seq::new(words.len() + 1, |i: int| 0nat)
}

pub proof fn lemma_chain_growing(words: Seq<Seq<char>>)
    ensures
        growing(chain_nodes(words), words.len() as int, chain_rank(words)),
{
    let g = chain_nodes(words);
    assert forall|i: int| #![trigger g[i]] 0 <= i < g.len() implies sorted(g[i].forwards)
        && sorted(g[i].backwards) by {}
    assert(nodes_in_range(g));
    assert(mains_in_range(g));
}

proof fn lemma_chain_edge_count(words: Seq<Seq<char>>, k: int)
    requires
        0 <= k <= words.len() + 1,
    ensures
        edge_count(chain_nodes(words).take(k)) == (if k <= words.len() {
            k
        } else {
            words.len() as int
        }),
    decreases k,
{
    let g = chain_nodes(words);
    if k > 0 {
        assert(g.take(k).drop_last() =~= g.take(k - 1));
        lemma_chain_edge_count(words, k - 1);
        assert(g.take(k).last() == chain_node(words, k - 1));
    }
}

proof fn lemma_chain_trunk(words: Seq<Seq<char>>, p: nat)
    requires
        p <= words.len(),
    ensures
        trunk_at(chain_nodes(words), p) == Some(p as int),
    decreases p,
{
    if p > 0 {
        lemma_chain_trunk(words, (p - 1) as nat);
    }
}

/// The chain is a lattice, and its trunk spells the words.
pub proof fn lemma_chain_valid(words: Seq<Seq<char>>)
    ensures
        valid_nodes(chain_nodes(words)),
        edge_count(chain_nodes(words)) == words.len(),
        spells(chain_nodes(words), words),
{
    let g = chain_nodes(words);
    assert forall|i: int| #![trigger g[i]] 0 <= i < g.len() implies sorted(g[i].forwards)
        && sorted(g[i].backwards) by {}
    assert forall|i: int| 0 <= i < g.len() implies #[trigger] node_linked(g, i) by {
        if i < words.len() {
            let e = (words[i], i + 1);
            assert(g[i].forwards[0] == e);
            assert(g[i + 1].backwards[0] == (words[i], i));
        }
        if i > 0 {
            let e = (words[i - 1], i - 1);
            assert(g[i].backwards[0] == e);
            assert(g[i - 1].forwards[0] == (words[i - 1], i));
        }
    }
    lemma_chain_edge_count(words, words.len() as int + 1);
    assert(g.take(words.len() as int + 1) =~= g);
    lemma_chain_trunk(words, words.len());
    assert forall|p: nat| p < words.len() implies #[trigger] trunk_word(g, p) == Some(
        words[p as int],
    ) by {
        lemma_chain_trunk(words, p);
    }
}

/// Makes the chain that spells `words`.
pub fn make_chain<'a>(words: &[&'a str]) -> (lattice: Vec<LatticeNode<'a>>)
    requires
        words.len() < usize::MAX,
    ensures
        nodes_view(lattice@) == chain_nodes(tokens_view(words@)),
        lattice.len() == words.len() + 1,
{
    let ghost w = tokens_view(words@);
    let mut lattice: Vec<LatticeNode<'a>> = Vec::new();
    let mut node_id: usize = 0;
    while node_id <= words.len()
        invariant
            w == tokens_view(words@),
            words.len() < usize::MAX,
            node_id <= words.len() + 1,
            lattice.len() == node_id,
            forall|i: int| 0 <= i < node_id ==> (#[trigger] lattice[i])@ == chain_node(w, i),
        decreases words.len() + 1 - node_id,
    {
        let fw = if node_id < words.len() {
            Some((words[node_id], node_id + 1))
        } else {
            None
        };
        let bw = if node_id > 0 {
            Some((words[node_id - 1], node_id - 1))
        } else {
            None
        };
        lattice.push(LatticeNode::new(fw, bw, 0));
        node_id += 1;
    }
    assert(nodes_view(lattice@) =~= chain_nodes(w));
    lattice
}

} // verus!
