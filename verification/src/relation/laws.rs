//! What holds of every well-formed relation, and of its operations in a row.

use vstd::prelude::*;
use crate::relation::model::{contract, contract_all, RelationView, Slot};

verus! {

impl RelationView {
    /// Slot `e` is an entry of the outgoing or of the incoming list of some node.
    pub open spec fn in_node_list(self, e: int) -> bool {
        ||| exists|n: int| self.is_node(n) && #[trigger] self.outgoing[n].contains(e)
        ||| exists|n: int| self.is_node(n) && #[trigger] self.incoming[n].contains(e)
    }

    /// Slot `e` is an entry of the free list.
    pub open spec fn in_free_list(self, e: int) -> bool {
        self.free.contains(e)
    }

    /// Every entry of the outgoing list of a node is a used slot whose source
    /// is that node, and the entry stands in that list once.
    pub proof fn law_outgoing_entries(self, s: int, i: int)
        requires
            self.wf(),
            self.is_node(s),
            0 <= i < self.outgoing[s].len(),
        ensures
            self.is_slot(self.outgoing[s][i]),
            self.slots[self.outgoing[s][i]] is Used,
            self.slots[self.outgoing[s][i]]->source == s,
            forall|j: int|
                0 <= j < self.outgoing[s].len() && self.outgoing[s][j] == self.outgoing[s][i] ==> j
                    == i,
    {
    }

    /// Every entry of the incoming list of a node is a used slot whose target
    /// is that node, and the entry stands in that list once.
    pub proof fn law_incoming_entries(self, t: int, i: int)
        requires
            self.wf(),
            self.is_node(t),
            0 <= i < self.incoming[t].len(),
        ensures
            self.is_slot(self.incoming[t][i]),
            self.slots[self.incoming[t][i]] is Used,
            self.slots[self.incoming[t][i]]->target == t,
            forall|j: int|
                0 <= j < self.incoming[t].len() && self.incoming[t][j] == self.incoming[t][i] ==> j
                    == i,
    {
    }

    /// Two slots that hold an edge with the same endpoints are one slot.
    pub proof fn law_one_edge_per_pair(self, e1: int, e2: int, s: int, t: int)
        requires
            self.wf(),
            self.edge_at(e1, s, t),
            self.edge_at(e2, s, t),
        ensures
            e1 == e2,
    {
    }

    /// The slots in the lists of the nodes and the slots in the free list are
    /// disjoint, and together they are all the slots.
    pub proof fn law_lists_partition_slots(self, e: int)
        requires
            self.wf(),
        ensures
            !(self.in_node_list(e) && self.in_free_list(e)),
            (self.in_node_list(e) || self.in_free_list(e)) <==> self.is_slot(e),
            self.in_node_list(e) <==> self.is_slot(e) && self.slots[e] is Used,
            self.in_free_list(e) <==> self.is_slot(e) && self.slots[e] is Free,
    {
        if exists|n: int| self.is_node(n) && #[trigger] self.outgoing[n].contains(e) {
            let n = choose|n: int| self.is_node(n) && #[trigger] self.outgoing[n].contains(e);
            let i = choose|i: int| 0 <= i < self.outgoing[n].len() && self.outgoing[n][i] == e;
            assert(self.is_slot(self.outgoing[n][i]));
        }
        if exists|n: int| self.is_node(n) && #[trigger] self.incoming[n].contains(e) {
            let n = choose|n: int| self.is_node(n) && #[trigger] self.incoming[n].contains(e);
            let i = choose|i: int| 0 <= i < self.incoming[n].len() && self.incoming[n][i] == e;
            assert(self.is_slot(self.incoming[n][i]));
        }
        if self.in_free_list(e) {
            let i = choose|i: int| 0 <= i < self.free.len() && self.free[i] == e;
            assert(self.is_slot(self.free[i]));
        }
        if self.is_slot(e) {
            match self.slots[e] {
                Slot::Used { source, target } => {
                    assert(self.is_node(source) && self.outgoing[source].contains(e));
                },
                Slot::Free => {},
            }
        }
    }

    /// Adding an edge a second time changes nothing: after `add_edge(s, t)`
    /// the edge is there, so the state that a second `add_edge(s, t)` leaves
    /// is the state it started in.
    pub proof fn law_add_edge_twice(self, s: int, t: int)
        requires
            self.wf(),
            self.is_node(s),
            self.is_node(t),
        ensures
            self.add_edge(s, t).wf(),
            self.add_edge(s, t).contains(s, t),
            self.add_edge(s, t).add_edge(s, t) == self.add_edge(s, t),
    {
        if !self.contains(s, t) {
            self.lemma_link(s, t);
        }
    }

    /// Removing the edges of a node a second time changes nothing: the
    /// state that `remove_edges(d)` leaves is well formed, no edge touches
    /// `d` in it, and a second `remove_edges(d)` leaves that same state.
    pub proof fn law_remove_edges_twice(self, d: int)
        requires
            self.wf(),
            self.is_node(d),
        ensures
            self.remove_edges(d).wf(),
            self.remove_edges(d).is_isolated(d),
            self.remove_edges(d).remove_edges(d) == self.remove_edges(d),
    {
        self.lemma_remove_edges(d);
        self.lemma_remove_edges_again(d);
    }

    /// After the edges of `d` were removed, every pair from a predecessor of
    /// `d` to a successor of `d` is there, the pairs that did not touch `d`
    /// are still there, and no pair touches `d`.
    pub proof fn law_contraction(self, d: int, a: int, b: int)
        requires
            self.wf(),
            self.is_node(d),
        ensures
            a != d && b != d && self.contains(a, d) && self.contains(d, b)
                ==> self.remove_edges(d).contains(a, b),
            a != d && b != d && self.contains(a, b) ==> self.remove_edges(d).contains(a, b),
            !self.remove_edges(d).contains(a, d),
            !self.remove_edges(d).contains(d, b),
            self.remove_edges(d).pairs() == contract(self.pairs(), d),
    {
        let post = self.remove_edges(d);
        self.lemma_remove_edges(d);
        assert(self.contains(a, d) <==> self.pairs().contains((a, d)));
        assert(self.contains(d, b) <==> self.pairs().contains((d, b)));
        assert(self.contains(a, b) <==> self.pairs().contains((a, b)));
        assert(post.contains(a, b) <==> post.pairs().contains((a, b)));
        assert(post.contains(a, d) <==> post.pairs().contains((a, d)));
        assert(post.contains(d, b) <==> post.pairs().contains((d, b)));
    }

    /// The slots vacated by `remove_edges(d)` are free or taken again: every
    /// slot of the state before is a slot of the state after, and a slot that
    /// held an edge that touched `d` is free or holds an edge that does not.
    pub proof fn law_vacated_slots(self, d: int, e: int)
        requires
            self.wf(),
            self.is_node(d),
            self.is_slot(e),
        ensures
            self.remove_edges(d).is_slot(e),
            self.remove_edges(d).slots[e] is Free || (self.remove_edges(d).slots[e]->source != d
                && self.remove_edges(d).slots[e]->target != d),
    {
        let post = self.remove_edges(d);
        self.lemma_remove_edges(d);
        if post.slots[e] is Used {
            assert(post.edge_at(e, post.slots[e]->source, post.slots[e]->target));
            assert(post.contains(post.slots[e]->source, post.slots[e]->target));
            assert(post.pairs().contains((post.slots[e]->source, post.slots[e]->target)));
        }
    }

    /// Removing the edges of one node after the other keeps the state well
    /// formed, over the same nodes, with no slot given up, and leaves the
    /// pairs held before with those nodes contracted out.
    pub proof fn law_remove_all(self, dead: Seq<int>)
        requires
            self.wf(),
            forall|k: int| 0 <= k < dead.len() ==> self.is_node(#[trigger] dead[k]),
        ensures
            self.remove_all(dead).wf(),
            self.remove_all(dead).num_nodes == self.num_nodes,
            self.remove_all(dead).slots.len() >= self.slots.len(),
            self.remove_all(dead).pairs() == contract_all(self.pairs(), dead),
            forall|k: int| 0 <= k < dead.len() ==> self.remove_all(dead).is_isolated(#[trigger] dead[k]),
        decreases dead.len(),
    {
        if dead.len() > 0 {
            let rest = dead.drop_last();
            let d = dead.last();
            assert(self.is_node(dead[dead.len() - 1]));
            assert forall|k: int| 0 <= k < rest.len() implies self.is_node(#[trigger] rest[k]) by {
                assert(rest[k] == dead[k]);
            }
            self.law_remove_all(rest);
            let before = self.remove_all(rest);
            let after = self.remove_all(dead);
            before.lemma_remove_edges(d);
            assert forall|k: int| 0 <= k < dead.len() implies after.is_isolated(
                #[trigger] dead[k],
            ) by {
                let x = dead[k];
                if k < rest.len() {
                    assert(rest[k] == x);
                    assert(before.is_isolated(x));
                    before.lemma_isolated(x);
                    assert forall|a: int, b: int| #[trigger] after.contains(a, b) implies a != x
                        && b != x by {
                        assert(after.pairs().contains((a, b)));
                        if !before.pairs().contains((a, b)) {
                            assert(before.contains(a, d) && before.contains(d, b));
                        } else {
                            assert(before.contains(a, b));
                        }
                    }
                    after.lemma_no_edge_isolated(x);
                }
            }
        }
    }
}

} // verus!
