//! Paraphrase lattices: from a dictionary of phrase groups and a sentence to
//! the graph of the sentence's paraphrases, with search, projection onto the
//! sentence and a flat encoding.

use vstd::prelude::*;

pub mod automaton;
pub mod chain;
pub mod codec;
pub mod count;
pub mod derive;
pub mod dot;
pub mod edge;
pub mod error;
pub mod expand;
pub mod grow;
pub mod idset;
pub mod lattice;
pub mod kahn;
pub mod kmp_walks;
pub mod lattice_kmp;
pub mod lattice_searcher;
pub mod merge;
pub mod node;
pub mod paraphrase;
pub mod parattice;
pub mod reindex;
pub mod rounds;
pub mod shrink;
pub mod sound;
pub mod token;
pub mod trie;
pub mod triples;
pub mod trunk;

pub use crate::error::Error;
pub use crate::lattice::Lattice;
pub use crate::lattice_kmp::LatticeKMP;
pub use crate::lattice_searcher::LatticeSearcher;
pub use crate::node::LatticeNode;
pub use crate::parattice::PaRattice;
pub use crate::trunk::SearchIndexNode;

verus! {

} // verus!
