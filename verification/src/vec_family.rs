//! The vectors a relation is stored in, indexed by typed handles.

use vstd::prelude::*;
use vstd::std_specs::convert::FromSpec;
use crate::indices::{EdgeIndex, NodeIndex};
use crate::relation::{EdgeData, NodeData};

verus! {

/// The choice of handle types and of the vectors that hold a relation's nodes
/// and edge slots.
pub trait VecFamily: core::fmt::Debug + Default + Sized {
    type Node: IndexType;

    type Edge: IndexType;

    type NodeVec: IndexVec<Self::Node, NodeData<Self::Edge>>;

    type EdgeVec: IndexVec<Self::Edge, EdgeData<Self::Node, Self::Edge>>;
}

/// A handle that stands for a position in a dense vector.
pub trait IndexType: Copy + core::fmt::Debug + Ord + Eq + core::hash::Hash + From<usize> {
    /// The position this handle stands for.
    spec fn index(self) -> int;

    fn to_usize(self) -> (n: usize)
        ensures
            n == self.index(),
    ;

    /// Converting a position to a handle gives the handle of that position.
    proof fn lemma_from_usize(n: usize)
        ensures
            <Self as FromSpec<usize>>::obeys_from_spec(),
            <Self as FromSpec<usize>>::from_spec(n).index() == n,
    ;
}

/// A dense vector of `T` indexed by handles of type `I`.
pub trait IndexVec<I, T>: Default + core::fmt::Debug where I: IndexType, T: core::fmt::Debug {
    /// The elements, in the order of their positions.
    spec fn items(&self) -> Seq<T>;

    fn with_default_elements(num_elts: usize) -> (v: Self) where T: Default
        ensures
            v.items().len() == num_elts,
            forall|i: int|
                0 <= i < num_elts ==> call_ensures(T::default, (), #[trigger] v.items()[i]),
    ;

    fn empty() -> (v: Self)
        ensures
            v.items() == Seq::<T>::empty(),
    ;

    fn get(&self, index: I) -> (r: &T)
        requires
            0 <= index.index() < self.items().len(),
        ensures
            *r == self.items()[index.index()],
    ;

    fn get_mut(&mut self, index: I) -> (r: &mut T)
        requires
            0 <= index.index() < old(self).items().len(),
        ensures
            *r == old(self).items()[index.index()],
            final(self).items() == old(self).items().update(index.index(), *final(r)),
    ;

    fn set(&mut self, index: I, value: T)
        requires
            0 <= index.index() < old(self).items().len(),
        ensures
            final(self).items() == old(self).items().update(index.index(), value),
    ;

    fn push(&mut self, value: T) -> (index: I)
        ensures
            index.index() == old(self).items().len(),
            final(self).items() == old(self).items().push(value),
    ;

    fn len(&self) -> (n: usize)
        ensures
            n == self.items().len(),
    ;
}

impl<I, T> IndexVec<I, T> for Vec<T> where I: IndexType, T: core::fmt::Debug {
    open spec fn items(&self) -> Seq<T> {
        self@
    }

    fn with_default_elements(num_elts: usize) -> (v: Self) where T: Default {
        let mut v: Vec<T> = Vec::new();
        let mut i: usize = 0;
        while i < num_elts
            invariant
                i <= num_elts,
                v@.len() == i,
                forall|j: int| 0 <= j < i ==> call_ensures(T::default, (), #[trigger] v@[j]),
            decreases num_elts - i,
        {
            v.push(T::default());
            i = i + 1;
        }
        v
    }

    fn empty() -> (v: Self) {
        Vec::new()
    }

    fn get(&self, index: I) -> (r: &T) {
        &self[index.to_usize()]
    }

    fn get_mut(&mut self, index: I) -> (r: &mut T) {
        &mut self[index.to_usize()]
    }

    fn set(&mut self, index: I, value: T) {
        self[index.to_usize()] = value;
    }

    fn push(&mut self, value: T) -> (index: I) {
        let len = self.len();
        self.push(value);
        proof {
            I::lemma_from_usize(len);
        }
        I::from(len)
    }

    fn len(&self) -> (n: usize) {
        self.len()
    }
}

/// The family that keeps nodes and edge slots in standard vectors.
#[derive(Copy, Clone, Debug, Default, PartialOrd, Ord, PartialEq, Eq, Hash)]
pub struct StdVec {}

impl VecFamily for StdVec {
    type Node = NodeIndex;

    type Edge = EdgeIndex;

    type NodeVec = Vec<NodeData<EdgeIndex>>;

    type EdgeVec = Vec<EdgeData<NodeIndex, EdgeIndex>>;
}

} // verus!
