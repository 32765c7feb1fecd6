//! The subset relation that keeps its pairs as the edges of a graph over the regions.

use vstd::prelude::*;
use crate::facts::{region_positions, Region};
use crate::indices::NodeIndex;
use crate::reach::{depth_first, positions, reachable};
use crate::relation::model::{contract_all, RelationView};
use crate::relation::Relation;
use crate::subset::{regions_within, restricted, SubsetRelation};
use crate::vec_family::{IndexType, StdVec};

verus! {

/// A subset relation stored in a [`Relation`]: a node for each region, an edge
/// for each pair.
pub struct EdgeSubsetRelation {
    data: Relation<StdVec>,
}

impl Clone for EdgeSubsetRelation {
    /// An independent relation whose graph is in the same state.
    fn clone(&self) -> (copy: Self)
        ensures
            self.wf() ==> copy.wf() && copy.graph() == self.graph(),
    {
        Self { data: self.data.clone() }
    }
}

impl EdgeSubsetRelation {
    /// The state of the graph that the pairs are kept in: a node for each
    /// region, an edge for each pair.
    pub closed spec fn graph(&self) -> RelationView {
        self.data@
    }

    /// The regions are the nodes of the graph and the pairs are its edges;
    /// the graph of a well-formed relation is well formed.
    pub proof fn lemma_graph(&self)
        ensures
            self.num_regions() == self.graph().num_nodes,
            self.pairs() == self.graph().pairs(),
            self.wf() ==> self.graph().wf(),
    {
        if self.wf() {
            self.data.lemma_view_wf();
        }
    }

    /// The graph that the pairs are kept in.
    pub fn relation(&self) -> (graph: &Relation<StdVec>)
        requires
            self.wf(),
        ensures
            graph.wf(),
            graph@ == self.graph(),
    {
        &self.data
    }
}

impl SubsetRelation for EdgeSubsetRelation {
    closed spec fn wf(&self) -> bool {
        self.data.wf()
    }

    closed spec fn num_regions(&self) -> int {
        self.data@.num_nodes
    }

    closed spec fn pairs(&self) -> Set<(int, int)> {
        self.data@.pairs()
    }

    proof fn lemma_cloned(&self, copy: &Self) {
    }

    proof fn lemma_pairs_within(&self, a: int, b: int) {
        self.data.lemma_view_wf();
        let e = choose|e: int| self.data@.edge_at(e, a, b);
        assert(self.data@.slots[e] is Used);
    }

    fn empty(num_regions: usize) -> (relation: Self)
        ensures
            relation.graph() == RelationView::empty(num_regions as int),
    {
        let relation = Self { data: Relation::new(num_regions) };
        assert(relation.data@.pairs() =~= Set::<(int, int)>::empty()) by {
            assert forall|p: (int, int)| !relation.data@.pairs().contains(p) by {
                if relation.data@.contains(p.0, p.1) {
                    let e = choose|e: int| relation.data@.edge_at(e, p.0, p.1);
                }
            }
        }
        relation
    }

    fn kill_region(&mut self, live_regions: &[Region], dead_regions: &[Region])
        ensures
            final(self).graph() == old(self).graph().remove_all(region_positions(dead_regions@)),
    {
        let ghost dead = region_positions(dead_regions@);
        let mut i: usize = 0;
        while i < dead_regions.len()
            invariant
                self.data.wf(),
                i <= dead_regions@.len(),
                dead == region_positions(dead_regions@),
                self.data@.num_nodes == old(self).data@.num_nodes,
                regions_within(dead_regions@, self.data@.num_nodes),
                self.data@.pairs() == contract_all(old(self).data@.pairs(), dead.take(i as int)),
                self.data@ == old(self).data@.remove_all(dead.take(i as int)),
            decreases dead_regions@.len() - i,
        {
            let r = dead_regions[i];
            self.data.remove_edges(NodeIndex::from(r.index));
            proof {
                assert(dead.take(i + 1).drop_last() =~= dead.take(i as int));
                assert(dead.take(i + 1).last() == r.index);
            }
            i = i + 1;
        }
        assert(dead.take(i as int) =~= dead);
    }

    fn insert_one(&mut self, r1: Region, r2: Region) -> (added: bool)
        ensures
            final(self).graph() == old(self).graph().add_edge(r1.index as int, r2.index as int),
    {
        let added = self.data.add_edge(NodeIndex::from(r1.index), NodeIndex::from(r2.index));
        assert(old(self).data@.contains(r1.index as int, r2.index as int) <==> old(
            self,
        ).data@.pairs().contains((r1.index as int, r2.index as int)));
        added
    }

    fn insert_all(&mut self, other: &Self, live_regions: &[Region]) -> (changed: bool)
        ensures
            final(self).graph() == old(self).graph().add_from(
                other.graph(),
                region_positions(live_regions@),
                live_regions@.len(),
            ),
    {
        let ghost before = self.data@.pairs();
        let ghost live = region_positions(live_regions@);
        let mut changed = false;
        let mut i: usize = 0;
        proof {
            other.data.lemma_view_wf();
            assert(before.union(restricted(other.data@.pairs(), live.take(0))) =~= before);
        }
        while i < live_regions.len()
            invariant
                self.data.wf(),
                other.data.wf(),
                other.data@.wf(),
                i <= live_regions@.len(),
                live == region_positions(live_regions@),
                before == old(self).data@.pairs(),
                self.data@.num_nodes == old(self).data@.num_nodes,
                other.data@.num_nodes == self.data@.num_nodes,
                regions_within(live_regions@, self.data@.num_nodes),
                self.data@.pairs() == before.union(
                    restricted(other.data@.pairs(), live.take(i as int)),
                ),
                self.data@ == old(self).data@.add_from(other.data@, live, i as nat),
                changed == (self.data@.pairs() != before),
            decreases live_regions@.len() - i,
        {
            let r = live_regions[i];
            let node = NodeIndex::from(r.index);
            let ghost a = r.index as int;
            let ghost start = self.data@.pairs();
            let ghost outer = self.data@;
            let successors = other.data.successors(node);
            proof {
                other.data@.lemma_successors(a);
            }
            let mut j: usize = 0;
            while j < successors.len()
                invariant
                    self.data.wf(),
                    other.data@.wf(),
                    other.data@.is_node(a),
                    a == node.index(),
                    j <= successors@.len(),
                    self.data@.num_nodes == old(self).data@.num_nodes,
                    other.data@.num_nodes == self.data@.num_nodes,
                    successors@.len() == other.data@.successors(a).len(),
                    forall|k: int|
                        0 <= k < successors@.len() ==> (#[trigger] successors@[k]).index()
                            == other.data@.successors(a)[k],
                    forall|k: int|
                        0 <= k < other.data@.successors(a).len() ==> other.data@.is_node(
                            #[trigger] other.data@.successors(a)[k],
                        ) && other.data@.contains(a, other.data@.successors(a)[k]),
                    before.subset_of(start),
                    start.subset_of(self.data@.pairs()),
                    self.data@ == outer.add_targets(a, other.data@.successors(a), j as nat),
                    forall|p: (int, int)| #[trigger]
                        self.data@.pairs().contains(p) ==> start.contains(p) || (p.0 == a
                            && other.data@.contains(a, p.1)),
                    forall|k: int|
                        0 <= k < j ==> self.data@.pairs().contains(
                            (a, #[trigger] other.data@.successors(a)[k]),
                        ),
                    changed == (self.data@.pairs() != before),
                decreases successors@.len() - j,
            {
                let ghost now = self.data@.pairs();
                let target = successors[j];
                assert(other.data@.successors(a)[j as int] == target.index());
                let added = self.data.add_edge(node, target);
                proof {
                    assert(self.data@.pairs().contains((a, target.index())));
                    if added {
                        assert(!now.contains((a, target.index())));
                        assert(!before.contains((a, target.index())));
                    } else {
                        assert(self.data@.pairs() =~= now);
                    }
                }
                changed = changed || added;
                j = j + 1;
            }
            proof {
                let done = live.take(i as int);
                let next = live.take(i + 1);
                let goal = before.union(restricted(other.data@.pairs(), next));
                assert forall|p: (int, int)| self.data@.pairs().contains(p) <==> goal.contains(
                    p,
                ) by {
                    assert(next[i as int] == a);
                    if done.contains(p.0) {
                        let k = choose|k: int| 0 <= k < done.len() && done[k] == p.0;
                        assert(next[k] == p.0);
                    }
                    if next.contains(p.0) && p.0 != a {
                        let k = choose|k: int| 0 <= k < next.len() && next[k] == p.0;
                        assert(done[k] == p.0);
                    }
                    if other.data@.pairs().contains(p) && p.0 == a {
                        assert(other.data@.contains(a, p.1));
                        let k = choose|k: int|
                            0 <= k < other.data@.successors(a).len() && other.data@.successors(
                                a,
                            )[k] == p.1;
                        assert(self.data@.pairs().contains((a, other.data@.successors(a)[k])));
                    }
                }
                assert(self.data@.pairs() =~= goal);
            }
            i = i + 1;
        }
        assert(live.take(i as int) =~= live);
        changed
    }

    fn reachable_from(&self, r1: Region) -> (regions: Vec<Region>) {
        let found = depth_first(&self.data, NodeIndex::from(r1.index));
        let mut regions: Vec<Region> = Vec::new();
        let mut i: usize = 0;
        while i < found.len()
            invariant
                i <= found@.len(),
                regions@.len() == i,
                forall|k: int| 0 <= k < i ==> (#[trigger] regions@[k]).index == found@[k].index(),
            decreases found@.len() - i,
        {
            regions.push(Region { index: found[i].to_usize() });
            i = i + 1;
        }
        assert(region_positions(regions@) =~= positions(found@));
        regions
    }

    fn for_each_reachable<Op: FnMut(Region)>(&self, r1: Region, op: Op) {
        let ghost given = op;
        let mut op = op;
        let regions = self.reachable_from(r1);
        let mut i: usize = 0;
        while i < regions.len()
            invariant
                i <= regions@.len(),
                op == given,
                forall|r: Region| call_requires(op, (r,)),
                forall|k: int| 0 <= k < i ==> call_ensures(given, (#[trigger] regions@[k],), ()),
            decreases regions@.len() - i,
        {
            op(regions[i]);
            i = i + 1;
        }
        proof {
            assert forall|r: Region|
                reachable(self.pairs(), r1.index as int, r.index as int) implies call_ensures(
                given,
                (r,),
                (),
            ) by {
                let met = region_positions(regions@);
                assert(met.contains(r.index as int));
                let k = choose|k: int| 0 <= k < met.len() && met[k] == r.index as int;
                assert(regions@[k] == r);
            }
        }
    }
}

} // verus!
