//! What the dataflow asks of a subset relation over regions.

use vstd::prelude::*;
use crate::facts::{region_positions, Region};
use crate::reach::reachable;
use crate::relation::model::contract_all;

verus! {

/// The pairs of `other` whose first region is one of `live`.
pub open spec fn restricted(other: Set<(int, int)>, live: Seq<int>) -> Set<(int, int)> {
    Set::new(|p: (int, int)| other.contains(p) && live.contains(p.0))
}

/// Every entry of `regions` is a region of a relation over `num_regions` regions.
pub open spec fn regions_within(regions: Seq<Region>, num_regions: int) -> bool {
    forall|k: int| 0 <= k < regions.len() ==> (#[trigger] regions[k]).index < num_regions
}

/// A set of pairs `r1 ⊆ r2` over a fixed number of regions.
pub trait SubsetRelation: Clone + Sized {
    /// The invariant of the relation.
    spec fn wf(&self) -> bool;

    /// The number of regions, fixed when the relation was made.
    spec fn num_regions(&self) -> int;

    /// The pairs that the relation holds.
    spec fn pairs(&self) -> Set<(int, int)>;

    /// A clone of a well-formed relation is well formed and holds the same pairs.
    proof fn lemma_cloned(&self, copy: &Self)
        requires
            self.wf(),
            cloned(*self, *copy),
        ensures
            copy.wf(),
            copy.num_regions() == self.num_regions(),
            copy.pairs() == self.pairs(),
    ;

    /// The pairs of a well-formed relation are pairs of its regions.
    proof fn lemma_pairs_within(&self, a: int, b: int)
        requires
            self.wf(),
            self.pairs().contains((a, b)),
        ensures
            0 <= a < self.num_regions(),
            0 <= b < self.num_regions(),
    ;

    /// The relation over `num_regions` regions that holds no pair.
    fn empty(num_regions: usize) -> (relation: Self)
        ensures
            relation.wf(),
            relation.num_regions() == num_regions,
            relation.pairs() == Set::<(int, int)>::empty(),
    ;

    /// Contracts the regions of `dead_regions` out of the relation, one after
    /// the other. `live_regions` is a hint that an implementation may ignore.
    fn kill_region(&mut self, live_regions: &[Region], dead_regions: &[Region])
        requires
            old(self).wf(),
            regions_within(dead_regions@, old(self).num_regions()),
        ensures
            final(self).wf(),
            final(self).num_regions() == old(self).num_regions(),
            final(self).pairs() == contract_all(old(self).pairs(), region_positions(dead_regions@)),
    ;

    /// Adds the pair `r1 ⊆ r2`, and says whether it was new.
    fn insert_one(&mut self, r1: Region, r2: Region) -> (added: bool)
        requires
            old(self).wf(),
            r1.index < old(self).num_regions(),
            r2.index < old(self).num_regions(),
        ensures
            final(self).wf(),
            final(self).num_regions() == old(self).num_regions(),
            final(self).pairs() == old(self).pairs().insert((r1.index as int, r2.index as int)),
            added == !old(self).pairs().contains((r1.index as int, r2.index as int)),
    ;

    /// Adds every pair of `other` whose first region is one of
    /// `live_regions`, and says whether any of them was new.
    fn insert_all(&mut self, other: &Self, live_regions: &[Region]) -> (changed: bool)
        requires
            old(self).wf(),
            other.wf(),
            other.num_regions() == old(self).num_regions(),
            regions_within(live_regions@, old(self).num_regions()),
        ensures
            final(self).wf(),
            final(self).num_regions() == old(self).num_regions(),
            final(self).pairs() == old(self).pairs().union(
                restricted(other.pairs(), region_positions(live_regions@)),
            ),
            changed == (final(self).pairs() != old(self).pairs()),
    ;

    /// The regions reachable from `r1` along the pairs of the relation, `r1`
    /// itself first, each once.
    fn reachable_from(&self, r1: Region) -> (regions: Vec<Region>)
        requires
            self.wf(),
            r1.index < self.num_regions(),
        ensures
            region_positions(regions@).no_duplicates(),
            forall|x: int|
                region_positions(regions@).contains(x) <==> reachable(self.pairs(), r1.index as int, x),
            regions@.len() > 0,
            regions@[0] == r1,
    ;

    /// Calls `op` on every region reachable from `r1`, `r1` itself first, once each.
    fn for_each_reachable<Op: FnMut(Region)>(&self, r1: Region, op: Op)
        requires
            self.wf(),
            r1.index < self.num_regions(),
            forall|r: Region| call_requires(op, (r,)),
        ensures
            forall|r: Region|
                reachable(self.pairs(), r1.index as int, r.index as int) ==> call_ensures(
                    op,
                    (r,),
                    (),
                ),
    ;
}

} // verus!
