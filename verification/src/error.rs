//! The ways in which a call can fail.

use vstd::prelude::*;

verus! {

/// Why a call was refused.
#[derive(Clone, Copy, Debug, PartialEq, Eq, Structural)]
pub enum Error {
    /// The dictionary holds an empty group or an empty phrase.
    MalformedDictionary,
    /// The bytes are not the encoding of a lattice.
    MalformedLattice,
    /// The path is empty or names a node that the lattice does not have.
    InvalidPath,
}

} // verus!
