//! Removing a node from a relation by contracting every path through it.

use vstd::prelude::*;
use crate::reach::positions;
use crate::relation::lemmas::lemma_others;
use crate::relation::model::others;
use crate::relation::Relation;
use crate::vec_family::{IndexType, VecFamily};

verus! {

impl<F: VecFamily> Relation<F> {
    /// Frees the edges that leave `node`, each time the one at the head of
    /// its outgoing list. Returns the targets other than `node`, in the
    /// order of that list.
    fn free_outgoing(&mut self, node: F::Node) -> (targets: Vec<F::Node>)
        requires
            old(self).wf(),
            old(self)@.is_node(node.index()),
        ensures
            final(self).wf(),
            final(self)@ == old(self)@.drop_outgoing(
                node.index(),
                old(self)@.outgoing[node.index()].len(),
            ),
            positions(targets@) == others(
                old(self)@.successors(node.index()),
                node.index(),
                old(self)@.successors(node.index()).len() as int,
            ),
    {
        let ghost pre = self@;
        let ghost d = node.index();
        let ghost list = pre.outgoing[d];
        let ghost count: nat = 0;
        let mut targets: Vec<F::Node> = Vec::new();
        proof {
            self.lemma_view_wf();
            assert(positions(targets@) =~= others(pre.successors(d), d, 0));
        }
        loop
            invariant
                self.wf(),
                pre.wf(),
                pre.is_node(d),
                d == node.index(),
                list == pre.outgoing[d],
                count <= list.len(),
                self@ == pre.drop_outgoing(d, count),
                positions(targets@) == others(pre.successors(d), d, count as int),
            ensures
                count == list.len(),
            decreases list.len() - count,
        {
            let ghost cur = self@;
            let ghost before = targets@;
            proof {
                pre.lemma_drop_outgoing(d, count);
            }
            let edge = match self.outgoing_head(node) {
                Some(edge) => edge,
                None => {
                    break ;
                },
            };
            let ghost e = edge.index();
            assert(e == cur.outgoing[d][0] && e == list[count as int]);
            assert(cur.is_slot(cur.outgoing[d][0]));
            let target = self.endpoints(edge).1;
            let ghost t = target.index();
            assert(pre.successors(d)[count as int] == t);
            if target.to_usize() != node.to_usize() {
                targets.push(target);
                assert(positions(targets@) =~= positions(before).push(t));
            }
            self.free_edge(edge);
            proof {
                count = count + 1;
            }
        }
        assert(pre.successors(d).len() == list.len());
        targets
    }

    /// Frees the edges that enter `node`, which no edge leaves, each time
    /// the one at the head of its incoming list. Returns the sources, in
    /// the order of that list.
    fn free_incoming(&mut self, node: F::Node) -> (sources: Vec<F::Node>)
        requires
            old(self).wf(),
            old(self)@.is_node(node.index()),
            old(self)@.outgoing[node.index()].len() == 0,
        ensures
            final(self).wf(),
            final(self)@ == old(self)@.drop_incoming(
                node.index(),
                old(self)@.incoming[node.index()].len(),
            ),
            positions(sources@) == old(self)@.predecessors(node.index()),
    {
        let ghost pre = self@;
        let ghost d = node.index();
        let ghost list = pre.incoming[d];
        let ghost count: nat = 0;
        let mut sources: Vec<F::Node> = Vec::new();
        proof {
            self.lemma_view_wf();
            assert(positions(sources@) =~= pre.predecessors(d).take(0));
        }
        loop
            invariant
                self.wf(),
                pre.wf(),
                pre.is_node(d),
                pre.outgoing[d].len() == 0,
                d == node.index(),
                list == pre.incoming[d],
                count <= list.len(),
                self@ == pre.drop_incoming(d, count),
                positions(sources@) == pre.predecessors(d).take(count as int),
            ensures
                count == list.len(),
            decreases list.len() - count,
        {
            let ghost cur = self@;
            let ghost before = sources@;
            proof {
                pre.lemma_drop_incoming(d, count);
            }
            let edge = match self.incoming_head(node) {
                Some(edge) => edge,
                None => {
                    break ;
                },
            };
            let ghost e = edge.index();
            assert(e == cur.incoming[d][0] && e == list[count as int]);
            assert(cur.is_slot(cur.incoming[d][0]));
            let source = self.endpoints(edge).0;
            let ghost a = source.index();
            assert(pre.predecessors(d)[count as int] == a);
            sources.push(source);
            assert(positions(sources@) =~= positions(before).push(a));
            assert(pre.predecessors(d).take(count as int + 1) =~= pre.predecessors(d).take(
                count as int,
            ).push(a));
            self.free_edge(edge);
            proof {
                count = count + 1;
            }
        }
        assert(pre.predecessors(d).take(list.len() as int) =~= pre.predecessors(d));
        sources
    }

    /// Adds an edge from each of `sources` to each of `targets` that is not
    /// there yet: the sources from the last to the first, and for a source
    /// the targets from the last to the first.
    fn connect(&mut self, sources: &Vec<F::Node>, targets: &Vec<F::Node>)
        requires
            old(self).wf(),
            forall|k: int|
                0 <= k < sources@.len() ==> old(self)@.is_node((#[trigger] sources@[k]).index()),
            forall|k: int|
                0 <= k < targets@.len() ==> old(self)@.is_node((#[trigger] targets@[k]).index()),
        ensures
            final(self).wf(),
            final(self)@ == old(self)@.join(
                positions(sources@),
                positions(targets@),
                sources@.len(),
            ),
    {
        let ghost pre = self@;
        let ghost from = positions(sources@);
        let ghost to = positions(targets@);
        let mut i = sources.len();
        while i > 0
            invariant
                self.wf(),
                self@.num_nodes == pre.num_nodes,
                from == positions(sources@),
                to == positions(targets@),
                0 <= i <= sources@.len(),
                forall|k: int|
                    0 <= k < sources@.len() ==> pre.is_node((#[trigger] sources@[k]).index()),
                forall|k: int|
                    0 <= k < targets@.len() ==> pre.is_node((#[trigger] targets@[k]).index()),
                self@ == pre.join(from, to, (sources@.len() - i) as nat),
            decreases i,
        {
            i = i - 1;
            let ghost outer = self@;
            let mut j = targets.len();
            while j > 0
                invariant
                    self.wf(),
                    self@.num_nodes == pre.num_nodes,
                    from == positions(sources@),
                    to == positions(targets@),
                    0 <= i < sources@.len(),
                    0 <= j <= targets@.len(),
                    forall|k: int|
                        0 <= k < sources@.len() ==> pre.is_node((#[trigger] sources@[k]).index()),
                    forall|k: int|
                        0 <= k < targets@.len() ==> pre.is_node((#[trigger] targets@[k]).index()),
                    self@ == outer.join_one(from[i as int], to, (targets@.len() - j) as nat),
                decreases j,
            {
                j = j - 1;
                let source = sources[i];
                let target = targets[j];
                assert(from[i as int] == source.index() && to[j as int] == target.index());
                self.add_edge(source, target);
            }
        }
    }

    /// Removes `node` from the graph by contracting every path through it:
    /// frees every edge that leaves `node` and then every edge that enters
    /// it, each list from its head on, and adds an edge from each of its
    /// predecessors to each of its successors that is not there yet, those
    /// whose edges were oldest first. A loop at `node` is freed with the rest.
    pub fn remove_edges(&mut self, node: F::Node)
        requires
            old(self).wf(),
            old(self)@.is_node(node.index()),
        ensures
            final(self).wf(),
            final(self)@ == old(self)@.remove_edges(node.index()),
            old(self)@.removed(node.index(), final(self)@),
    {
        let ghost pre = self@;
        let ghost d = node.index();
        proof {
            self.lemma_view_wf();
            pre.lemma_drop_outgoing(d, pre.outgoing[d].len());
        }
        let targets = self.free_outgoing(node);
        let ghost left = self@;
        proof {
            left.lemma_drop_incoming(d, left.incoming[d].len());
        }
        let sources = self.free_incoming(node);
        proof {
            left.lemma_predecessors(d);
            pre.lemma_successors(d);
            lemma_others(pre.successors(d), d, pre.successors(d).len() as int);
            assert forall|k: int| 0 <= k < targets@.len() implies self@.is_node(
                (#[trigger] targets@[k]).index(),
            ) by {
                let t = positions(targets@)[k];
                assert(positions(targets@).contains(t));
                let i = choose|i: int|
                    0 <= i < pre.successors(d).len() && #[trigger] pre.successors(d)[i] == t;
                assert(pre.is_node(pre.successors(d)[i]));
            }
            assert forall|k: int| 0 <= k < sources@.len() implies self@.is_node(
                (#[trigger] sources@[k]).index(),
            ) by {
                assert(positions(sources@)[k] == left.predecessors(d)[k]);
            }
        }
        self.connect(&sources, &targets);
        proof {
            pre.lemma_remove_edges(d);
        }
    }
}

} // verus!
