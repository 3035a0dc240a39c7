//! The failures that the hasher and the trees report.

use vstd::prelude::*;

verus! {

/// Possible error states for the hashing and the tree operations.
#[derive(Debug, Clone)]
pub enum Error {
    /// The allowed number of leaves cannot be greater than the arity of the tree.
    FullBuffer,
    /// Attempt to reference an index element that is out of bounds.
    IndexOutOfBounds,
    /// The requested leaf is not present in the tree.
    LeafNotFound,
    /// A failure of the encoding or storage layer, with its description.
    Other(String),
}

impl Error {
    /// The human readable description of the error.
    pub fn message(&self) -> (text: String)
        ensures
            text@ == self.message_spec(),
    {
        match self {
            Error::FullBuffer => {
                "The size of the buffer cannot be greater than the arity of the merkle tree.".to_owned()
            },
            Error::IndexOutOfBounds => "The referenced index is out of bounds.".to_owned(),
            Error::LeafNotFound => "The requested leaf is not present in the tree.".to_owned(),
            Error::Other(text) => text.clone(),
        }
    }

    /// The description of each error kind.
    pub open spec fn message_spec(&self) -> Seq<char> {
        match self {
            Error::FullBuffer =>
                "The size of the buffer cannot be greater than the arity of the merkle tree."@,
            Error::IndexOutOfBounds => "The referenced index is out of bounds."@,
            Error::LeafNotFound => "The requested leaf is not present in the tree."@,
            Error::Other(text) => text@,
        }
    }
}

} // verus!
