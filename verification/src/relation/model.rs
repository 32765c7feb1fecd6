//! The mathematical model of a relation: its edge slots and the lists that
//! thread them.

use vstd::prelude::*;

verus! {

/// What an edge slot holds.
pub enum Slot {
    /// An edge from `source` to `target`.
    Used { source: int, target: int },
    /// Nothing: the slot waits in the free list.
    Free,
}

/// The state of a relation.
///
/// `outgoing[n]` lists the slots of the edges that leave node `n`, the one
/// added last in front; `incoming[n]` does the same for the edges that enter
/// `n`; `free` lists the free slots, the one freed last in front.
pub struct RelationView {
    pub num_nodes: int,
    pub slots: Seq<Slot>,
    pub outgoing: Seq<Seq<int>>,
    pub incoming: Seq<Seq<int>>,
    pub free: Seq<int>,
}

impl RelationView {
    /// The relation over `num_nodes` nodes that holds no edge and no slot.
    pub open spec fn empty(num_nodes: int) -> RelationView {
        RelationView {
            num_nodes,
            slots: Seq::empty(),
            outgoing: Seq::new(num_nodes as nat, |n: int| Seq::<int>::empty()),
            incoming: Seq::new(num_nodes as nat, |n: int| Seq::<int>::empty()),
            free: Seq::empty(),
        }
    }

    pub open spec fn is_node(self, n: int) -> bool {
        0 <= n < self.num_nodes
    }

    pub open spec fn is_slot(self, e: int) -> bool {
        0 <= e < self.slots.len()
    }

    /// Slot `e` holds the edge from `s` to `t`.
    pub open spec fn edge_at(self, e: int, s: int, t: int) -> bool {
        self.is_slot(e) && self.slots[e] == (Slot::Used { source: s, target: t })
    }

    /// There is an edge from `s` to `t`.
    pub open spec fn contains(self, s: int, t: int) -> bool {
        exists|e: int| self.edge_at(e, s, t)
    }

    /// The relation as a set of pairs.
    pub open spec fn pairs(self) -> Set<(int, int)> {
        Set::new(|p: (int, int)| self.contains(p.0, p.1))
    }

    /// The targets of the edges that leave `s`, in the order of its list.
    pub open spec fn successors(self, s: int) -> Seq<int> {
        Seq::new(self.outgoing[s].len(), |i: int| self.slots[self.outgoing[s][i]]->target)
    }

    /// The sources of the edges that enter `t`, in the order of its list.
    pub open spec fn predecessors(self, t: int) -> Seq<int> {
        Seq::new(self.incoming[t].len(), |i: int| self.slots[self.incoming[t][i]]->source)
    }

    /// Every entry of a node's outgoing list is a used slot whose source is that node.
    pub open spec fn outgoing_lists_sound(self) -> bool {
        forall|s: int, i: int|
            self.is_node(s) && 0 <= i < self.outgoing[s].len() ==> {
                let e = #[trigger] self.outgoing[s][i];
                &&& self.is_slot(e)
                &&& self.slots[e] is Used
                &&& self.slots[e]->source == s
            }
    }

    /// Every entry of a node's incoming list is a used slot whose target is that node.
    pub open spec fn incoming_lists_sound(self) -> bool {
        forall|t: int, i: int|
            self.is_node(t) && 0 <= i < self.incoming[t].len() ==> {
                let e = #[trigger] self.incoming[t][i];
                &&& self.is_slot(e)
                &&& self.slots[e] is Used
                &&& self.slots[e]->target == t
            }
    }

    /// Every entry of the free list is a free slot.
    pub open spec fn free_list_sound(self) -> bool {
        forall|i: int|
            0 <= i < self.free.len() ==> {
                let e = #[trigger] self.free[i];
                &&& self.is_slot(e)
                &&& self.slots[e] is Free
            }
    }

    /// No list holds a slot twice.
    pub open spec fn lists_distinct(self) -> bool {
        &&& self.free.no_duplicates()
        &&& forall|n: int| self.is_node(n) ==> (#[trigger] self.outgoing[n]).no_duplicates()
        &&& forall|n: int| self.is_node(n) ==> (#[trigger] self.incoming[n]).no_duplicates()
    }

    /// Every slot is in the lists it belongs to: a used one in the outgoing
    /// list of its source and the incoming list of its target, which are
    /// nodes; a free one in the free list.
    pub open spec fn slots_listed(self) -> bool {
        forall|e: int|
            self.is_slot(e) ==> match #[trigger] self.slots[e] {
                Slot::Used { source, target } => {
                    &&& self.is_node(source)
                    &&& self.is_node(target)
                    &&& self.outgoing[source].contains(e)
                    &&& self.incoming[target].contains(e)
                },
                Slot::Free => self.free.contains(e),
            }
    }

    /// No two slots hold an edge with the same endpoints.
    pub open spec fn pairs_distinct(self) -> bool {
        forall|e1: int, e2: int|
            self.is_slot(e1) && self.is_slot(e2) && self.slots[e1] is Used
                && #[trigger] self.slots[e1] == #[trigger] self.slots[e2] ==> e1 == e2
    }

    /// The invariant of a relation.
    pub open spec fn wf(self) -> bool {
        &&& 0 <= self.num_nodes
        &&& self.outgoing.len() == self.num_nodes
        &&& self.incoming.len() == self.num_nodes
        &&& self.outgoing_lists_sound()
        &&& self.incoming_lists_sound()
        &&& self.free_list_sound()
        &&& self.lists_distinct()
        &&& self.slots_listed()
        &&& self.pairs_distinct()
    }

    /// The slot that the next new edge takes: the head of the free list, or a
    /// new slot at the end where no slot is free.
    pub open spec fn next_slot(self) -> int {
        if self.free.len() > 0 {
            self.free[0]
        } else {
            self.slots.len() as int
        }
    }

    /// The state after an edge from `s` to `t` took the next slot and went to
    /// the front of the two lists it belongs to.
    pub open spec fn link(self, s: int, t: int) -> RelationView {
        let e = self.next_slot();
        let used = Slot::Used { source: s, target: t };
        let outgoing = self.outgoing.update(s, seq![e] + self.outgoing[s]);
        RelationView {
            num_nodes: self.num_nodes,
            slots: if self.free.len() > 0 {
                self.slots.update(e, used)
            } else {
                self.slots.push(used)
            },
            outgoing,
            incoming: self.incoming.update(t, seq![e] + self.incoming[t]),
            free: if self.free.len() > 0 {
                self.free.drop_first()
            } else {
                self.free
            },
        }
    }

    /// The state after `add_edge(s, t)`: unchanged where the edge is there
    /// already, else with the edge linked in.
    pub open spec fn add_edge(self, s: int, t: int) -> RelationView {
        if self.contains(s, t) {
            self
        } else {
            self.link(s, t)
        }
    }

    /// The state after the edge in slot `e` left its two lists and the slot
    /// went to the front of the free list.
    pub open spec fn unlink(self, e: int) -> RelationView {
        let s = self.slots[e]->source;
        let t = self.slots[e]->target;
        let outgoing = self.outgoing.update(s, self.outgoing[s].remove(self.outgoing[s].index_of(e)));
        RelationView {
            num_nodes: self.num_nodes,
            slots: self.slots.update(e, Slot::Free),
            outgoing,
            incoming: self.incoming.update(t, self.incoming[t].remove(self.incoming[t].index_of(e))),
            free: seq![e] + self.free,
        }
    }
}

/// The entries among the first `count` of `nodes` that are not `d`, in their order.
pub open spec fn others(nodes: Seq<int>, d: int, count: int) -> Seq<int>
    decreases count,
{
    if count <= 0 {
        Seq::empty()
    } else if nodes[count - 1] != d {
        others(nodes, d, count - 1).push(nodes[count - 1])
    } else {
        others(nodes, d, count - 1)
    }
}

impl RelationView {
    /// The state after the first `count` edges of the outgoing list of `d`
    /// were unlinked, each time the one at the head of the list.
    pub open spec fn drop_outgoing(self, d: int, count: nat) -> RelationView
        decreases count,
    {
        if count == 0 {
            self
        } else {
            let before = self.drop_outgoing(d, (count - 1) as nat);
            before.unlink(before.outgoing[d][0])
        }
    }

    /// The state after the first `count` edges of the incoming list of `d`
    /// were unlinked, each time the one at the head of the list.
    pub open spec fn drop_incoming(self, d: int, count: nat) -> RelationView
        decreases count,
    {
        if count == 0 {
            self
        } else {
            let before = self.drop_incoming(d, (count - 1) as nat);
            before.unlink(before.incoming[d][0])
        }
    }

    /// The state after `add_edge` from `p` to each of the last `count`
    /// entries of `targets`, the last entry first.
    pub open spec fn join_one(self, p: int, targets: Seq<int>, count: nat) -> RelationView
        decreases count,
    {
        if count == 0 {
            self
        } else {
            self.join_one(p, targets, (count - 1) as nat).add_edge(p, targets[targets.len() - count])
        }
    }

    /// The state after `add_edge` from each of the last `count` entries of
    /// `sources`, the last entry first, to each entry of `targets`, the last
    /// entry first.
    pub open spec fn join(self, sources: Seq<int>, targets: Seq<int>, count: nat) -> RelationView
        decreases count,
    {
        if count == 0 {
            self
        } else {
            self.join(sources, targets, (count - 1) as nat).join_one(
                sources[sources.len() - count],
                targets,
                targets.len(),
            )
        }
    }

    /// The state after `remove_edges(d)`: the edges that leave `d` are
    /// unlinked from the head of its outgoing list on, then the edges that
    /// enter `d` from the head of its incoming list on; then each
    /// predecessor of `d`, the one whose edge was oldest first, is joined to
    /// each successor of `d` other than `d`, the one whose edge was oldest
    /// first.
    pub open spec fn remove_edges(self, d: int) -> RelationView {
        let left = self.drop_outgoing(d, self.outgoing[d].len());
        let cleared = left.drop_incoming(d, left.incoming[d].len());
        cleared.join(
            left.predecessors(d),
            others(self.successors(d), d, self.successors(d).len() as int),
            left.predecessors(d).len(),
        )
    }

    /// The state after `remove_edges` for each node of `dead`, the first entry first.
    pub open spec fn remove_all(self, dead: Seq<int>) -> RelationView
        decreases dead.len(),
    {
        if dead.len() == 0 {
            self
        } else {
            self.remove_all(dead.drop_last()).remove_edges(dead.last())
        }
    }

    /// The state after `add_edge` from `a` to each of the first `count`
    /// entries of `targets`, the first entry first.
    pub open spec fn add_targets(self, a: int, targets: Seq<int>, count: nat) -> RelationView
        decreases count,
    {
        if count == 0 {
            self
        } else {
            self.add_targets(a, targets, (count - 1) as nat).add_edge(a, targets[count - 1])
        }
    }

    /// The state after the edges of `other` that leave one of the first
    /// `count` entries of `sources` were added: source by source, and for a
    /// source in the order of its successors in `other`.
    pub open spec fn add_from(self, other: RelationView, sources: Seq<int>, count: nat) -> RelationView
        decreases count,
    {
        if count == 0 {
            self
        } else {
            self.add_from(other, sources, (count - 1) as nat).add_targets(
                sources[count - 1],
                other.successors(sources[count - 1]),
                other.successors(sources[count - 1]).len(),
            )
        }
    }

    /// No edge leaves or enters node `d`.
    pub open spec fn is_isolated(self, d: int) -> bool {
        self.outgoing[d].len() == 0 && self.incoming[d].len() == 0
    }

    /// What holds of the state `post` that `remove_edges(d)` leaves behind
    /// when it starts in this one: it is well formed, over the same nodes,
    /// with no slot given up, it holds the contraction of the pairs held
    /// before, and it is the very same state where no edge touched `d`.
    pub open spec fn removed(self, d: int, post: RelationView) -> bool {
        &&& post.wf()
        &&& post.num_nodes == self.num_nodes
        &&& post.slots.len() >= self.slots.len()
        &&& post.pairs() == contract(self.pairs(), d)
        &&& post.is_isolated(d)
        &&& self.is_isolated(d) ==> post == self
    }
}

/// The pairs that are left when node `d` is contracted out of `pairs`: those
/// that do not touch `d`, and one from each predecessor of `d` to each
/// successor of `d`.
pub open spec fn contract(pairs: Set<(int, int)>, d: int) -> Set<(int, int)> {
    Set::new(
        |p: (int, int)|
            p.0 != d && p.1 != d && (pairs.contains(p) || (pairs.contains((p.0, d))
                && pairs.contains((d, p.1)))),
    )
}

/// The number of pairs of `pairs` that start at `n`.
pub open spec fn out_degree_of(pairs: Set<(int, int)>, n: int) -> nat {
    Set::new(|b: int| pairs.contains((n, b))).len()
}

/// The number of pairs of `pairs` that end at `n`.
pub open spec fn in_degree_of(pairs: Set<(int, int)>, n: int) -> nat {
    Set::new(|a: int| pairs.contains((a, n))).len()
}

/// The pairs that are left when the nodes of `dead` are contracted out of
/// `pairs` one after the other, the first entry first.
pub open spec fn contract_all(pairs: Set<(int, int)>, dead: Seq<int>) -> Set<(int, int)>
    decreases dead.len(),
{
    if dead.len() == 0 {
        pairs
    } else {
        contract(contract_all(pairs, dead.drop_last()), dead.last())
    }
}

} // verus!
