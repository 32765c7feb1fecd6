//! Strongly typed handles for the nodes and edges of a relation.

use vstd::prelude::*;
use vstd::std_specs::convert::FromSpecImpl;
use crate::vec_family::IndexType;

verus! {

/// Handle of a node of a relation.
#[derive(Copy, Clone, Debug, PartialOrd, Ord, PartialEq, Eq, Hash)]
pub struct NodeIndex {
    pub index: usize,
}

/// Handle of an edge slot of a relation.
#[derive(Copy, Clone, Debug, PartialOrd, Ord, PartialEq, Eq, Hash)]
pub struct EdgeIndex {
    pub index: usize,
}

impl From<usize> for NodeIndex {
    fn from(index: usize) -> (r: Self) {
        NodeIndex { index }
    }
}

impl FromSpecImpl<usize> for NodeIndex {
    open spec fn obeys_from_spec() -> bool {
        true
    }

    open spec fn from_spec(index: usize) -> Self {
        NodeIndex { index }
    }
}

impl IndexType for NodeIndex {
    open spec fn index(self) -> int {
        self.index as int
    }

    fn to_usize(self) -> (n: usize) {
        self.index
    }

    proof fn lemma_from_usize(n: usize) {
    }
}

impl From<usize> for EdgeIndex {
    fn from(index: usize) -> (r: Self) {
        EdgeIndex { index }
    }
}

impl FromSpecImpl<usize> for EdgeIndex {
    open spec fn obeys_from_spec() -> bool {
        true
    }

    open spec fn from_spec(index: usize) -> Self {
        EdgeIndex { index }
    }
}

impl IndexType for EdgeIndex {
    open spec fn index(self) -> int {
        self.index as int
    }

    fn to_usize(self) -> (n: usize) {
        self.index
    }

    proof fn lemma_from_usize(n: usize) {
    }
}

} // verus!
