//! A directed graph over a fixed set of nodes, with its edges in a slab of
//! reusable slots. Removing a node contracts every path through it.

pub mod contraction;
pub mod laws;
pub mod lemmas;
pub mod model;
pub mod text;

use vstd::prelude::*;
use crate::vec_family::{IndexType, IndexVec, VecFamily};
use crate::relation::model::{RelationView, Slot};
use crate::relation::text::{format_free_line, format_used_line};

verus! {

/// The heads of the two lists of edges at a node.
#[derive(Debug)]
pub struct NodeData<E: IndexType> {
    pub first_outgoing: Option<E>,
    pub first_incoming: Option<E>,
}

/// An edge slot. A used slot is a link in the outgoing list of its source and
/// in the incoming list of its target; a free slot is a link in the free list.
#[derive(Debug)]
pub enum EdgeData<N: IndexType, E: IndexType> {
    Used { source: N, target: N, next_outgoing: Option<E>, next_incoming: Option<E> },
    Free { next_free: Option<E> },
}

impl<E: IndexType> Default for NodeData<E> {
    fn default() -> (r: Self)
        ensures
            r.first_outgoing is None,
            r.first_incoming is None,
    {
        NodeData { first_outgoing: None, first_incoming: None }
    }
}

/// A set of pairs of nodes, stored as a graph.
pub struct Relation<F: VecFamily> {
    nodes: F::NodeVec,
    edges: F::EdgeVec,
    first_free: Option<F::Edge>,
    model: Ghost<RelationView>,
}

/// `link` points at entry `i` of `list`, or at nothing where the list ends before `i`.
pub open spec fn links_to<E: IndexType>(link: Option<E>, list: Seq<int>, i: int) -> bool {
    if 0 <= i < list.len() {
        link is Some && link->0.index() == list[i]
    } else {
        link is None
    }
}

impl<N: IndexType, E: IndexType> EdgeData<N, E> {
    /// The slot holds what the model says of it.
    pub open spec fn agrees(self, slot: Slot) -> bool {
        match self {
            EdgeData::Used { source, target, .. } => slot == (Slot::Used {
                source: source.index(),
                target: target.index(),
            }),
            EdgeData::Free { .. } => slot is Free,
        }
    }
}

impl<F: VecFamily> Relation<F> {
    /// The state of the relation.
    pub closed spec fn view(&self) -> RelationView {
        self.model@
    }

    spec fn slots_agree(&self) -> bool {
        forall|e: int|
            0 <= e < self.model@.slots.len() ==> (#[trigger] self.edges.items()[e]).agrees(
                self.model@.slots[e],
            )
    }

    spec fn heads_linked(&self) -> bool {
        &&& links_to(self.first_free, self.model@.free, 0)
        &&& forall|n: int|
            0 <= n < self.model@.num_nodes ==> {
                &&& links_to(
                    (#[trigger] self.nodes.items()[n]).first_outgoing,
                    self.model@.outgoing[n],
                    0,
                )
                &&& links_to(self.nodes.items()[n].first_incoming, self.model@.incoming[n], 0)
            }
    }

    spec fn outgoing_linked(&self) -> bool {
        forall|n: int, i: int|
            0 <= n < self.model@.num_nodes && 0 <= i < self.model@.outgoing[n].len() ==> links_to(
                self.edges.items()[#[trigger] self.model@.outgoing[n][i]]->next_outgoing,
                self.model@.outgoing[n],
                i + 1,
            )
    }

    spec fn incoming_linked(&self) -> bool {
        forall|n: int, i: int|
            0 <= n < self.model@.num_nodes && 0 <= i < self.model@.incoming[n].len() ==> links_to(
                self.edges.items()[#[trigger] self.model@.incoming[n][i]]->next_incoming,
                self.model@.incoming[n],
                i + 1,
            )
    }

    spec fn free_linked(&self) -> bool {
        forall|i: int|
            0 <= i < self.model@.free.len() ==> links_to(
                self.edges.items()[#[trigger] self.model@.free[i]]->next_free,
                self.model@.free,
                i + 1,
            )
    }

    /// The invariant: the state is well formed, and the vectors hold it.
    pub closed spec fn wf(&self) -> bool {
        &&& self.model@.wf()
        &&& self.nodes.items().len() == self.model@.num_nodes
        &&& self.edges.items().len() == self.model@.slots.len()
        &&& self.slots_agree()
        &&& self.heads_linked()
        &&& self.outgoing_linked()
        &&& self.incoming_linked()
        &&& self.free_linked()
    }

    /// A well-formed relation has a well-formed state.
    pub proof fn lemma_view_wf(&self)
        requires
            self.wf(),
        ensures
            self@.wf(),
    {
    }

    /// Makes a relation over `num_nodes` nodes with no edge and no slot.
    pub fn new(num_nodes: usize) -> (r: Self)
        ensures
            r.wf(),
            r@ == RelationView::empty(num_nodes as int),
    {
        let r = Relation {
            nodes: F::NodeVec::with_default_elements(num_nodes),
            edges: F::EdgeVec::empty(),
            first_free: None,
            model: Ghost(RelationView::empty(num_nodes as int)),
        };
        r
    }

    /// The number of nodes, fixed when the relation was made.
    pub fn num_nodes(&self) -> (n: usize)
        requires
            self.wf(),
        ensures
            n == self@.num_nodes,
    {
        self.nodes.len()
    }
    /// Walks the outgoing list of `source` for an edge to `target`.
    fn has_edge(&self, source: F::Node, target: F::Node) -> (found: bool)
        requires
            self.wf(),
            self@.is_node(source.index()),
        ensures
            found == self@.contains(source.index(), target.index()),
    {
        let ghost list = self@.outgoing[source.index()];
        let ghost mut i: int = 0;
        let mut cur = self.nodes.get(source).first_outgoing;
        loop
            invariant
                self.wf(),
                self@.is_node(source.index()),
                list == self@.outgoing[source.index()],
                0 <= i <= list.len(),
                links_to(cur, list, i),
                forall|j: int| 0 <= j < i ==> self@.slots[#[trigger] list[j]]->target != target.index(),
            decreases list.len() - i,
        {
            match cur {
                None => {
                    proof {
                        if self@.contains(source.index(), target.index()) {
                            let x = choose|x: int| self@.edge_at(x, source.index(), target.index());
                            assert(self@.slots[x] is Used);
                            assert(list.contains(x));
                            let j = choose|j: int| 0 <= j < list.len() && list[j] == x;
                            assert(self@.slots[list[j]]->target != target.index());
                        }
                    }
                    return false;
                },
                Some(e) => {
                    assert(self@.is_slot(list[i]));
                    match self.edges.get(e) {
                        EdgeData::Used { target: found_target, next_outgoing, .. } => {
                            if found_target.to_usize() == target.to_usize() {
                                assert(self@.edge_at(list[i], source.index(), target.index()));
                                return true;
                            }
                            cur = *next_outgoing;
                            proof {
                                i = i + 1;
                            }
                        },
                        EdgeData::Free { .. } => {
                            assert(false);
                            return false;
                        },
                    }
                },
            }
        }
    }

    /// Adds the edge from `source` to `target`, unless it is there already.
    /// Returns whether the edge was added.
    ///
    /// A new edge takes the slot at the head of the free list, or a new slot
    /// where none is free, and goes to the front of the outgoing list of
    /// `source` and of the incoming list of `target`.
    pub fn add_edge(&mut self, source: F::Node, target: F::Node) -> (added: bool)
        requires
            old(self).wf(),
            old(self)@.is_node(source.index()),
            old(self)@.is_node(target.index()),
        ensures
            final(self).wf(),
            added == !old(self)@.contains(source.index(), target.index()),
            final(self)@ == old(self)@.add_edge(source.index(), target.index()),
            final(self)@.pairs() == old(self)@.pairs().insert((source.index(), target.index())),
    {
        let ghost pre = self@;
        let ghost s = source.index();
        let ghost t = target.index();
        if self.has_edge(source, target) {
            assert(pre.pairs() =~= pre.pairs().insert((s, t)));
            return false;
        }
        let next_outgoing = self.nodes.get(source).first_outgoing;
        let next_incoming = self.nodes.get(target).first_incoming;
        let data = EdgeData::Used { source, target, next_outgoing, next_incoming };
        let edge = match self.first_free {
            Some(edge) => {
                assert(pre.is_slot(pre.free[0]));
                let next_free = match self.edges.get(edge) {
                    EdgeData::Free { next_free } => *next_free,
                    EdgeData::Used { .. } => {
                        assert(false);
                        None
                    },
                };
                self.first_free = next_free;
                self.edges.set(edge, data);
                edge
            },
            None => self.edges.push(data),
        };
        self.nodes.get_mut(source).first_outgoing = Some(edge);
        self.nodes.get_mut(target).first_incoming = Some(edge);
        proof {
            self.model@ = pre.link(s, t);
            pre.lemma_link(s, t);
            let post = self.model@;
            let e = pre.next_slot();
            crate::relation::lemmas::lemma_cons(e, pre.outgoing[s]);
            crate::relation::lemmas::lemma_cons(e, pre.incoming[t]);
            assert(self.wf());
            assert(post.pairs() =~= pre.pairs().insert((s, t)));
        }
        true
    }
    /// The targets of the edges that leave `source`, the one added last first.
    pub fn successors(&self, source: F::Node) -> (targets: Vec<F::Node>)
        requires
            self.wf(),
            self@.is_node(source.index()),
        ensures
            targets@.len() == self@.successors(source.index()).len(),
            forall|i: int|
                0 <= i < targets@.len() ==> (#[trigger] targets@[i]).index() == self@.successors(
                    source.index(),
                )[i],
    {
        let ghost list = self@.outgoing[source.index()];
        let mut targets: Vec<F::Node> = Vec::new();
        let mut cur = self.nodes.get(source).first_outgoing;
        loop
            invariant
                self.wf(),
                self@.is_node(source.index()),
                list == self@.outgoing[source.index()],
                targets@.len() <= list.len(),
                links_to(cur, list, targets@.len() as int),
                forall|i: int|
                    0 <= i < targets@.len() ==> (#[trigger] targets@[i]).index()
                        == self@.slots[list[i]]->target,
            decreases list.len() - targets@.len(),
        {
            match cur {
                None => {
                    return targets;
                },
                Some(e) => {
                    assert(self@.is_slot(list[targets@.len() as int]));
                    match self.edges.get(e) {
                        EdgeData::Used { target, next_outgoing, .. } => {
                            targets.push(*target);
                            cur = *next_outgoing;
                        },
                        EdgeData::Free { .. } => {
                            assert(false);
                            return targets;
                        },
                    }
                },
            }
        }
    }

    /// The edge that comes before `edge` in the outgoing list of its source,
    /// or nothing where `edge` is the head of that list.
    fn outgoing_predecessor(&self, source: F::Node, edge: F::Edge) -> (prev: Option<F::Edge>)
        requires
            self.wf(),
            self@.is_slot(edge.index()),
            self@.slots[edge.index()] is Used,
            self@.slots[edge.index()]->source == source.index(),
        ensures
            links_to(
                prev,
                self@.outgoing[source.index()],
                self@.outgoing[source.index()].index_of(edge.index()) - 1,
            ),
    {
        let ghost list = self@.outgoing[source.index()];
        let ghost k = list.index_of(edge.index());
        assert(list.contains(edge.index()));
        let head = self.nodes.get(source).first_outgoing;
        let mut prev = match head {
            Some(head) => head,
            None => {
                assert(false);
                return None;
            },
        };
        if prev.to_usize() == edge.to_usize() {
            assert(k == 0);
            return None;
        }
        let ghost mut i: int = 0;
        loop
            invariant
                self.wf(),
                self@.is_node(source.index()),
                list == self@.outgoing[source.index()],
                0 <= k < list.len(),
                list[k] == edge.index(),
                0 <= i < k,
                prev.index() == list[i],
            decreases k - i,
        {
            assert(self@.is_slot(list[i]));
            let next = match self.edges.get(prev) {
                EdgeData::Used { next_outgoing: Some(next), .. } => *next,
                _ => {
                    assert(false);
                    return None;
                },
            };
            if next.to_usize() == edge.to_usize() {
                assert(list[i + 1] == list[k]);
                return Some(prev);
            }
            prev = next;
            proof {
                i = i + 1;
            }
        }
    }

    /// The edge that comes before `edge` in the incoming list of its target,
    /// or nothing where `edge` is the head of that list.
    fn incoming_predecessor(&self, target: F::Node, edge: F::Edge) -> (prev: Option<F::Edge>)
        requires
            self.wf(),
            self@.is_slot(edge.index()),
            self@.slots[edge.index()] is Used,
            self@.slots[edge.index()]->target == target.index(),
        ensures
            links_to(
                prev,
                self@.incoming[target.index()],
                self@.incoming[target.index()].index_of(edge.index()) - 1,
            ),
    {
        let ghost list = self@.incoming[target.index()];
        let ghost k = list.index_of(edge.index());
        assert(list.contains(edge.index()));
        let head = self.nodes.get(target).first_incoming;
        let mut prev = match head {
            Some(head) => head,
            None => {
                assert(false);
                return None;
            },
        };
        if prev.to_usize() == edge.to_usize() {
            assert(k == 0);
            return None;
        }
        let ghost mut i: int = 0;
        loop
            invariant
                self.wf(),
                self@.is_node(target.index()),
                list == self@.incoming[target.index()],
                0 <= k < list.len(),
                list[k] == edge.index(),
                0 <= i < k,
                prev.index() == list[i],
            decreases k - i,
        {
            assert(self@.is_slot(list[i]));
            let next = match self.edges.get(prev) {
                EdgeData::Used { next_incoming: Some(next), .. } => *next,
                _ => {
                    assert(false);
                    return None;
                },
            };
            if next.to_usize() == edge.to_usize() {
                assert(list[i + 1] == list[k]);
                return Some(prev);
            }
            prev = next;
            proof {
                i = i + 1;
            }
        }
    }
    /// Takes the edge in slot `edge` out of the two lists it is in and puts
    /// the slot at the front of the free list.
    fn free_edge(&mut self, edge: F::Edge)
        requires
            old(self).wf(),
            old(self)@.is_slot(edge.index()),
            old(self)@.slots[edge.index()] is Used,
        ensures
            final(self).wf(),
            final(self)@ == old(self)@.unlink(edge.index()),
    {
        let ghost pre = self@;
        let ghost e = edge.index();
        let ghost s = pre.slots[e]->source;
        let ghost t = pre.slots[e]->target;
        let (source, target, next_outgoing, next_incoming) = match self.edges.get(edge) {
            EdgeData::Used { source, target, next_outgoing, next_incoming } => (
                *source,
                *target,
                *next_outgoing,
                *next_incoming,
            ),
            EdgeData::Free { .. } => {
                assert(false);
                return ;
            },
        };
        assert(pre.outgoing[s].contains(e) && pre.incoming[t].contains(e));
        let ghost ko = pre.outgoing[s].index_of(e);
        let ghost ki = pre.incoming[t].index_of(e);
        proof {
            crate::relation::lemmas::lemma_remove(pre.outgoing[s], ko);
            crate::relation::lemmas::lemma_remove(pre.incoming[t], ki);
            crate::relation::lemmas::lemma_cons(e, pre.free);
        }
        let before_outgoing = self.outgoing_predecessor(source, edge);
        let before_incoming = self.incoming_predecessor(target, edge);
        match before_outgoing {
            None => {
                self.nodes.get_mut(source).first_outgoing = next_outgoing;
            },
            Some(before) => {
                assert(pre.is_slot(pre.outgoing[s][ko - 1]));
                match self.edges.get_mut(before) {
                    EdgeData::Used { next_outgoing: link, .. } => {
                        *link = next_outgoing;
                    },
                    EdgeData::Free { .. } => {
                        assert(false);
                    },
                }
            },
        }
        match before_incoming {
            None => {
                self.nodes.get_mut(target).first_incoming = next_incoming;
            },
            Some(before) => {
                assert(pre.is_slot(pre.incoming[t][ki - 1]));
                match self.edges.get_mut(before) {
                    EdgeData::Used { next_incoming: link, .. } => {
                        *link = next_incoming;
                    },
                    EdgeData::Free { .. } => {
                        assert(false);
                    },
                }
            },
        }
        self.edges.set(edge, EdgeData::Free { next_free: self.first_free });
        self.first_free = Some(edge);
        proof {
            self.model@ = pre.unlink(e);
            Self::lemma_free_edge(old(self), self, e, before_outgoing, before_incoming);
        }
    }

    /// What an edge slot other than the freed one holds after `free_edge`:
    /// the slot before the freed one in a list now points past it.
    spec fn rewired(
        data: EdgeData<F::Node, F::Edge>,
        x: int,
        freed: EdgeData<F::Node, F::Edge>,
        before_outgoing: Option<F::Edge>,
        before_incoming: Option<F::Edge>,
    ) -> EdgeData<F::Node, F::Edge> {
        match data {
            EdgeData::Used { source, target, next_outgoing, next_incoming } => EdgeData::Used {
                source,
                target,
                next_outgoing: if before_outgoing is Some && before_outgoing->0.index() == x {
                    freed->next_outgoing
                } else {
                    next_outgoing
                },
                next_incoming: if before_incoming is Some && before_incoming->0.index() == x {
                    freed->next_incoming
                } else {
                    next_incoming
                },
            },
            EdgeData::Free { next_free } => data,
        }
    }

    /// The vectors that `free_edge` leaves hold the state with the slot unlinked.
    proof fn lemma_free_edge(
        pre: &Self,
        post: &Self,
        e: int,
        before_outgoing: Option<F::Edge>,
        before_incoming: Option<F::Edge>,
    )
        requires
            pre.wf(),
            pre@.is_slot(e),
            pre@.slots[e] is Used,
            links_to(
                before_outgoing,
                pre@.outgoing[pre@.slots[e]->source],
                pre@.outgoing[pre@.slots[e]->source].index_of(e) - 1,
            ),
            links_to(
                before_incoming,
                pre@.incoming[pre@.slots[e]->target],
                pre@.incoming[pre@.slots[e]->target].index_of(e) - 1,
            ),
            post@ == pre@.unlink(e),
            post.first_free is Some,
            post.first_free->0.index() == e,
            post.nodes.items().len() == pre.nodes.items().len(),
            forall|n: int|
                0 <= n < pre@.num_nodes ==> {
                    &&& (#[trigger] post.nodes.items()[n]).first_outgoing == (if n
                        == pre@.slots[e]->source && before_outgoing is None {
                        pre.edges.items()[e]->next_outgoing
                    } else {
                        pre.nodes.items()[n].first_outgoing
                    })
                    &&& post.nodes.items()[n].first_incoming == (if n == pre@.slots[e]->target
                        && before_incoming is None {
                        pre.edges.items()[e]->next_incoming
                    } else {
                        pre.nodes.items()[n].first_incoming
                    })
                },
            post.edges.items().len() == pre.edges.items().len(),
            post.edges.items()[e] == (EdgeData::<F::Node, F::Edge>::Free {
                next_free: pre.first_free,
            }),
            forall|x: int|
                0 <= x < pre.edges.items().len() && x != e ==> #[trigger] post.edges.items()[x]
                    == Self::rewired(
                    pre.edges.items()[x],
                    x,
                    pre.edges.items()[e],
                    before_outgoing,
                    before_incoming,
                ),
        ensures
            post.wf(),
    {
        let v = pre@;
        let w = post@;
        let s = v.slots[e]->source;
        let t = v.slots[e]->target;
        v.lemma_unlink(e);
        assert(v.outgoing[s].contains(e) && v.incoming[t].contains(e));
        let ko = v.outgoing[s].index_of(e);
        let ki = v.incoming[t].index_of(e);
        crate::relation::lemmas::lemma_remove(v.outgoing[s], ko);
        crate::relation::lemmas::lemma_remove(v.incoming[t], ki);
        crate::relation::lemmas::lemma_cons(e, v.free);
        assert(pre.edges.items()[e].agrees(v.slots[e]));
        assert(post.slots_agree()) by {
            assert forall|x: int| 0 <= x < w.slots.len() implies (#[trigger] post.edges.items()[x]).agrees(
                w.slots[x],
            ) by {
                if x != e {
                    assert(pre.edges.items()[x].agrees(v.slots[x]));
                }
            }
        }
        // The slot before the freed one in a list is a used slot of that list.
        assert(before_outgoing is Some ==> v.outgoing[s][ko - 1] == before_outgoing->0.index());
        assert(before_incoming is Some ==> v.incoming[t][ki - 1] == before_incoming->0.index());
        assert(post.heads_linked()) by {
            assert forall|n: int| 0 <= n < w.num_nodes implies {
                &&& links_to((#[trigger] post.nodes.items()[n]).first_outgoing, w.outgoing[n], 0)
                &&& links_to(post.nodes.items()[n].first_incoming, w.incoming[n], 0)
            } by {
                assert(links_to(pre.nodes.items()[n].first_outgoing, v.outgoing[n], 0));
                assert(links_to(pre.nodes.items()[n].first_incoming, v.incoming[n], 0));
                if n == s {
                    assert(links_to(
                        pre.edges.items()[v.outgoing[s][ko]]->next_outgoing,
                        v.outgoing[s],
                        ko + 1,
                    ));
                }
                if n == t {
                    assert(links_to(
                        pre.edges.items()[v.incoming[t][ki]]->next_incoming,
                        v.incoming[t],
                        ki + 1,
                    ));
                }
            }
        }
        assert(post.outgoing_linked()) by {
            assert forall|n: int, i: int|
                0 <= n < w.num_nodes && 0 <= i < w.outgoing[n].len() implies links_to(
                post.edges.items()[#[trigger] w.outgoing[n][i]]->next_outgoing,
                w.outgoing[n],
                i + 1,
            ) by {
                let j = if n == s && i >= ko {
                    i + 1
                } else {
                    i
                };
                let x = v.outgoing[n][j];
                assert(w.outgoing[n][i] == x);
                assert(v.is_slot(x) && v.slots[x] is Used && v.slots[x]->source == n);
                assert(pre.edges.items()[x].agrees(v.slots[x]));
                assert(links_to(pre.edges.items()[x]->next_outgoing, v.outgoing[n], j + 1));
                assert(x != e) by {
                    if x == e {
                        assert(v.outgoing[s][j] == v.outgoing[s][ko]);
                    }
                }
                if before_outgoing is Some && before_outgoing->0.index() == x {
                    assert(n == s);
                    assert(v.outgoing[s][j] == v.outgoing[s][ko - 1]);
                    assert(j == ko - 1);
                    assert(links_to(
                        pre.edges.items()[v.outgoing[s][ko]]->next_outgoing,
                        v.outgoing[s],
                        ko + 1,
                    ));
                } else {
                    if n == s && j + 1 == ko {
                        assert(ko - 1 >= 0);
                    }
                }
            }
        }
        assert(post.incoming_linked()) by {
            assert forall|n: int, i: int|
                0 <= n < w.num_nodes && 0 <= i < w.incoming[n].len() implies links_to(
                post.edges.items()[#[trigger] w.incoming[n][i]]->next_incoming,
                w.incoming[n],
                i + 1,
            ) by {
                let j = if n == t && i >= ki {
                    i + 1
                } else {
                    i
                };
                let x = v.incoming[n][j];
                assert(w.incoming[n][i] == x);
                assert(v.is_slot(x) && v.slots[x] is Used && v.slots[x]->target == n);
                assert(pre.edges.items()[x].agrees(v.slots[x]));
                assert(links_to(pre.edges.items()[x]->next_incoming, v.incoming[n], j + 1));
                assert(x != e) by {
                    if x == e {
                        assert(v.incoming[t][j] == v.incoming[t][ki]);
                    }
                }
                if before_incoming is Some && before_incoming->0.index() == x {
                    assert(n == t);
                    assert(v.incoming[t][j] == v.incoming[t][ki - 1]);
                    assert(j == ki - 1);
                    assert(links_to(
                        pre.edges.items()[v.incoming[t][ki]]->next_incoming,
                        v.incoming[t],
                        ki + 1,
                    ));
                } else {
                    if n == t && j + 1 == ki {
                        assert(ki - 1 >= 0);
                    }
                }
            }
        }
        assert(post.free_linked()) by {
            assert forall|i: int| 0 <= i < w.free.len() implies links_to(
                post.edges.items()[#[trigger] w.free[i]]->next_free,
                w.free,
                i + 1,
            ) by {
                if i > 0 {
                    let x = v.free[i - 1];
                    assert(w.free[i] == x);
                    assert(v.is_slot(x) && v.slots[x] is Free);
                    assert(pre.edges.items()[x].agrees(v.slots[x]));
                    assert(links_to(pre.edges.items()[x]->next_free, v.free, i));
                } else {
                    assert(links_to(pre.first_free, v.free, 0));
                }
            }
        }
    }
    /// The edge at the head of the outgoing list of `node`, if the list has one.
    fn outgoing_head(&self, node: F::Node) -> (head: Option<F::Edge>)
        requires
            self.wf(),
            self@.is_node(node.index()),
        ensures
            links_to(head, self@.outgoing[node.index()], 0),
    {
        self.nodes.get(node).first_outgoing
    }

    /// The edge at the head of the incoming list of `node`, if the list has one.
    fn incoming_head(&self, node: F::Node) -> (head: Option<F::Edge>)
        requires
            self.wf(),
            self@.is_node(node.index()),
        ensures
            links_to(head, self@.incoming[node.index()], 0),
    {
        self.nodes.get(node).first_incoming
    }

    /// The source and the target of the edge in a used slot.
    fn endpoints(&self, edge: F::Edge) -> (ends: (F::Node, F::Node))
        requires
            self.wf(),
            self@.is_slot(edge.index()),
            self@.slots[edge.index()] is Used,
        ensures
            ends.0.index() == self@.slots[edge.index()]->source,
            ends.1.index() == self@.slots[edge.index()]->target,
    {
        match self.edges.get(edge) {
            EdgeData::Used { source, target, .. } => (*source, *target),
            EdgeData::Free { .. } => {
                assert(false);
                (F::Node::from(0), F::Node::from(0))
            },
        }
    }
}

impl<F: VecFamily> Relation<F> {
    /// The lines of the dump: one for each used slot, node by node and within
    /// a node in the order of its outgoing list, then one for each free slot
    /// in the order of the free list.
    pub fn dump_and_assert(&self) -> (lines: Vec<String>)
        requires
            self.wf(),
        ensures
            lines@.len() == self@.dump().len(),
            forall|i: int| 0 <= i < lines@.len() ==> (#[trigger] lines@[i])@ == self@.dump()[i],
    {
        let mut lines: Vec<String> = Vec::new();
        let num_nodes = self.nodes.len();
        let mut n: usize = 0;
        while n < num_nodes
            invariant
                self.wf(),
                num_nodes == self@.num_nodes,
                n <= num_nodes,
                lines@.len() == self@.used_lines(n as int).len(),
                forall|i: int|
                    0 <= i < lines@.len() ==> (#[trigger] lines@[i])@ == self@.used_lines(n as int)[i],
            decreases num_nodes - n,
        {
            let ghost list = self@.outgoing[n as int];
            let ghost done = lines@;
            proof {
                F::Node::lemma_from_usize(n);
            }
            let node = F::Node::from(n);
            let mut cur = self.nodes.get(node).first_outgoing;
            let ghost mut k: int = 0;
            loop
                invariant
                    self.wf(),
                    self@.is_node(n as int),
                    list == self@.outgoing[n as int],
                    0 <= k <= list.len(),
                    links_to(cur, list, k),
                    lines@.len() == done.len() + k,
                    forall|i: int| 0 <= i < done.len() ==> #[trigger] lines@[i] == done[i],
                    forall|i: int|
                        done.len() <= i < lines@.len() ==> (#[trigger] lines@[i])@
                            == self@.node_lines(n as int)[i - done.len()],
                ensures
                    k == list.len(),
                decreases list.len() - k,
            {
                let edge = match cur {
                    Some(edge) => edge,
                    None => {
                        break ;
                    },
                };
                assert(self@.is_slot(list[k]));
                match self.edges.get(edge) {
                    EdgeData::Used { target, next_outgoing, .. } => {
                        lines.push(format_used_line(n, edge.to_usize(), target.to_usize()));
                        cur = *next_outgoing;
                    },
                    EdgeData::Free { .. } => {
                        assert(false);
                    },
                }
                proof {
                    k = k + 1;
                }
            }
            assert(self@.used_lines(n + 1) == self@.used_lines(n as int) + self@.node_lines(
                n as int,
            ));
            n = n + 1;
        }
        let ghost used = lines@;
        let ghost list = self@.free;
        let mut cur = self.first_free;
        let ghost mut k: int = 0;
        loop
            invariant
                self.wf(),
                list == self@.free,
                0 <= k <= list.len(),
                links_to(cur, list, k),
                used.len() == self@.used_lines(self@.num_nodes).len(),
                lines@.len() == used.len() + k,
                forall|i: int|
                    0 <= i < used.len() ==> (#[trigger] lines@[i])@ == self@.used_lines(
                        self@.num_nodes,
                    )[i],
                forall|i: int|
                    used.len() <= i < lines@.len() ==> (#[trigger] lines@[i])@
                        == self@.free_lines()[i - used.len()],
            ensures
                k == list.len(),
            decreases list.len() - k,
        {
            let edge = match cur {
                Some(edge) => edge,
                None => {
                    break ;
                },
            };
            assert(self@.is_slot(list[k]));
            match self.edges.get(edge) {
                EdgeData::Free { next_free } => {
                    lines.push(format_free_line(edge.to_usize()));
                    cur = *next_free;
                },
                EdgeData::Used { .. } => {
                    assert(false);
                },
            }
            proof {
                k = k + 1;
            }
        }
        lines
    }
}

/// Whether the dump of `relation` is `expected_lines`, line for line.
pub fn test<F: VecFamily>(relation: &Relation<F>, expected_lines: &[&str]) -> (same: bool)
    requires
        relation.wf(),
    ensures
        same <==> (expected_lines@.len() == relation@.dump().len() && forall|i: int|
            0 <= i < expected_lines@.len() ==> (#[trigger] expected_lines@[i])@
                == relation@.dump()[i]),
{
    let actual_lines = relation.dump_and_assert();
    if expected_lines.len() != actual_lines.len() {
        return false;
    }
    let mut i: usize = 0;
    while i < actual_lines.len()
        invariant
            i <= actual_lines@.len(),
            expected_lines@.len() == actual_lines@.len(),
            actual_lines@.len() == relation@.dump().len(),
            forall|j: int|
                0 <= j < actual_lines@.len() ==> (#[trigger] actual_lines@[j])@
                    == relation@.dump()[j],
            forall|j: int| 0 <= j < i ==> (#[trigger] expected_lines@[j])@ == relation@.dump()[j],
        decreases actual_lines@.len() - i,
    {
        let expected_line = expected_lines[i].to_owned();
        if expected_line != actual_lines[i] {
            assert(expected_lines@[i as int]@ != relation@.dump()[i as int]);
            return false;
        }
        i = i + 1;
    }
    true
}

impl<F: VecFamily> Clone for Relation<F> {
    /// An independent relation in the same state.
    fn clone(&self) -> (r: Self)
        ensures
            self.wf() ==> r.wf() && r@ == self@,
    {
        let num_nodes = self.nodes.len();
        let mut nodes = F::NodeVec::empty();
        let mut n: usize = 0;
        while n < num_nodes
            invariant
                num_nodes == self.nodes.items().len(),
                n <= num_nodes,
                nodes.items() == self.nodes.items().take(n as int),
            decreases num_nodes - n,
        {
            proof {
                F::Node::lemma_from_usize(n);
            }
            let data = self.nodes.get(F::Node::from(n));
            nodes.push(
                NodeData { first_outgoing: data.first_outgoing, first_incoming: data.first_incoming },
            );
            assert(nodes.items() =~= self.nodes.items().take(n + 1));
            n = n + 1;
        }
        let num_edges = self.edges.len();
        let mut edges = F::EdgeVec::empty();
        let mut e: usize = 0;
        while e < num_edges
            invariant
                num_edges == self.edges.items().len(),
                e <= num_edges,
                edges.items() == self.edges.items().take(e as int),
            decreases num_edges - e,
        {
            proof {
                F::Edge::lemma_from_usize(e);
            }
            let data = match self.edges.get(F::Edge::from(e)) {
                EdgeData::Used { source, target, next_outgoing, next_incoming } => EdgeData::Used {
                    source: *source,
                    target: *target,
                    next_outgoing: *next_outgoing,
                    next_incoming: *next_incoming,
                },
                EdgeData::Free { next_free } => EdgeData::Free { next_free: *next_free },
            };
            edges.push(data);
            assert(edges.items() =~= self.edges.items().take(e + 1));
            e = e + 1;
        }
        assert(nodes.items() =~= self.nodes.items());
        assert(edges.items() =~= self.edges.items());
        Relation { nodes, edges, first_free: self.first_free, model: Ghost(self.model@) }
    }
}

impl<F: VecFamily> Relation<F> {
    /// The number of edges that leave `node`.
    pub fn out_degree(&self, node: F::Node) -> (degree: usize)
        requires
            self.wf(),
            self@.is_node(node.index()),
        ensures
            degree == self@.outgoing[node.index()].len(),
    {
        let ghost list = self@.outgoing[node.index()];
        let mut degree: usize = 0;
        let num_edges = self.edges.len();
        let mut cur = self.nodes.get(node).first_outgoing;
        proof {
            assert forall|k: int| 0 <= k < list.len() implies 0 <= #[trigger] list[k]
                < self@.slots.len() by {
                assert(self@.is_slot(list[k]));
            }
            crate::reach::lemma_distinct_bounded(list, self@.slots.len() as int);
        }
        loop
            invariant
                self.wf(),
                self@.is_node(node.index()),
                list == self@.outgoing[node.index()],
                list.len() <= self.edges.items().len() <= usize::MAX,
                degree <= list.len(),
                links_to(cur, list, degree as int),
            ensures
                degree == list.len(),
            decreases list.len() - degree,
        {
            let edge = match cur {
                Some(edge) => edge,
                None => {
                    break ;
                },
            };
            assert(self@.is_slot(list[degree as int]));
            match self.edges.get(edge) {
                EdgeData::Used { next_outgoing, .. } => {
                    cur = *next_outgoing;
                },
                EdgeData::Free { .. } => {
                    assert(false);
                },
            }
            degree = degree + 1;
        }
        degree
    }

    /// The number of edges that enter `node`.
    pub fn in_degree(&self, node: F::Node) -> (degree: usize)
        requires
            self.wf(),
            self@.is_node(node.index()),
        ensures
            degree == self@.incoming[node.index()].len(),
    {
        let ghost list = self@.incoming[node.index()];
        let mut degree: usize = 0;
        let num_edges = self.edges.len();
        let mut cur = self.nodes.get(node).first_incoming;
        proof {
            assert forall|k: int| 0 <= k < list.len() implies 0 <= #[trigger] list[k]
                < self@.slots.len() by {
                assert(self@.is_slot(list[k]));
            }
            crate::reach::lemma_distinct_bounded(list, self@.slots.len() as int);
        }
        loop
            invariant
                self.wf(),
                self@.is_node(node.index()),
                list == self@.incoming[node.index()],
                list.len() <= self.edges.items().len() <= usize::MAX,
                degree <= list.len(),
                links_to(cur, list, degree as int),
            ensures
                degree == list.len(),
            decreases list.len() - degree,
        {
            let edge = match cur {
                Some(edge) => edge,
                None => {
                    break ;
                },
            };
            assert(self@.is_slot(list[degree as int]));
            match self.edges.get(edge) {
                EdgeData::Used { next_incoming, .. } => {
                    cur = *next_incoming;
                },
                EdgeData::Free { .. } => {
                    assert(false);
                },
            }
            degree = degree + 1;
        }
        degree
    }
}

} // verus!
