//! Proofs that linking and unlinking an edge keep a relation's state well formed.

use vstd::prelude::*;
use crate::relation::model::{contract, in_degree_of, others, out_degree_of, RelationView, Slot};

verus! {

/// What a list holds after an entry went to its front.
pub proof fn lemma_cons<A>(e: A, l: Seq<A>)
    ensures
        (seq![e] + l).len() == l.len() + 1,
        (seq![e] + l)[0] == e,
        forall|i: int| 0 <= i < l.len() ==> (seq![e] + l)[i + 1] == l[i],
        forall|i: int| 1 <= i <= l.len() ==> #[trigger] (seq![e] + l)[i] == l[i - 1],
        forall|x: A| #[trigger] (seq![e] + l).contains(x) <==> (x == e || l.contains(x)),
        l.no_duplicates() && !l.contains(e) ==> (seq![e] + l).no_duplicates(),
{
    let c = seq![e] + l;
    assert forall|x: A| #[trigger] c.contains(x) <==> (x == e || l.contains(x)) by {
        if c.contains(x) {
            let i = choose|i: int| 0 <= i < c.len() && c[i] == x;
            if i > 0 {
                assert(l[i - 1] == x);
            }
        }
        if x == e {
            assert(c[0] == x);
        }
        if l.contains(x) {
            let i = choose|i: int| 0 <= i < l.len() && l[i] == x;
            assert(c[i + 1] == x);
        }
    }
    if l.no_duplicates() && !l.contains(e) {
        assert forall|i: int, j: int| 0 <= i < c.len() && 0 <= j < c.len() && i != j implies c[i]
            != c[j] by {
            if i > 0 && j > 0 {
                assert(l[i - 1] != l[j - 1]);
            } else if i > 0 {
                assert(l.contains(l[i - 1]));
            } else {
                assert(l.contains(l[j - 1]));
            }
        }
    }
}

/// What a list without duplicates holds after entry `k` left it.
pub proof fn lemma_remove<A>(l: Seq<A>, k: int)
    requires
        l.no_duplicates(),
        0 <= k < l.len(),
    ensures
        l.index_of(l[k]) == k,
        l.remove(k).len() == l.len() - 1,
        l.remove(k).no_duplicates(),
        forall|i: int| 0 <= i < k ==> #[trigger] l.remove(k)[i] == l[i],
        forall|i: int| k <= i < l.len() - 1 ==> #[trigger] l.remove(k)[i] == l[i + 1],
        forall|x: A| #[trigger] l.remove(k).contains(x) <==> (x != l[k] && l.contains(x)),
{
    let r = l.remove(k);
    assert(0 <= l.index_of(l[k]) < l.len() && l[l.index_of(l[k])] == l[k]);
    assert forall|x: A| #[trigger] r.contains(x) <==> (x != l[k] && l.contains(x)) by {
        if r.contains(x) {
            let i = choose|i: int| 0 <= i < r.len() && r[i] == x;
            if i < k {
                assert(l[i] == x);
            } else {
                assert(l[i + 1] == x);
            }
        }
        if x != l[k] && l.contains(x) {
            let i = choose|i: int| 0 <= i < l.len() && l[i] == x;
            if i < k {
                assert(r[i] == x);
            } else {
                assert(r[i - 1] == x);
            }
        }
    }
}

/// The entries kept are the entries other than `d`.
pub proof fn lemma_others(nodes: Seq<int>, d: int, count: int)
    requires
        0 <= count <= nodes.len(),
    ensures
        forall|x: int| #[trigger]
            others(nodes, d, count).contains(x) <==> (x != d && exists|i: int|
                0 <= i < count && #[trigger] nodes[i] == x),
    decreases count,
{
    if count > 0 {
        lemma_others(nodes, d, count - 1);
        let before = others(nodes, d, count - 1);
        let now = others(nodes, d, count);
        assert forall|x: int| #[trigger] now.contains(x) <==> (x != d && exists|i: int|
            0 <= i < count && #[trigger] nodes[i] == x) by {
            if now.contains(x) {
                let k = choose|k: int| 0 <= k < now.len() && now[k] == x;
                if nodes[count - 1] != d && k == before.len() {
                    assert(nodes[count - 1] == x);
                } else {
                    assert(before[k] == x);
                    assert(before.contains(x));
                    let i = choose|i: int| 0 <= i < count - 1 && #[trigger] nodes[i] == x;
                    assert(0 <= i < count);
                }
            }
            if x != d && exists|i: int| 0 <= i < count && #[trigger] nodes[i] == x {
                let i = choose|i: int| 0 <= i < count && #[trigger] nodes[i] == x;
                if i == count - 1 {
                    assert(now[before.len() as int] == x);
                } else {
                    assert(0 <= i < count - 1);
                    assert(before.contains(x));
                    let k = choose|k: int| 0 <= k < before.len() && before[k] == x;
                    assert(now[k] == x);
                }
            }
        }
    }
}

impl RelationView {
    /// Linking in an edge that is not there yet keeps the state well formed
    /// and adds exactly that edge.
    pub proof fn lemma_link(self, s: int, t: int)
        requires
            self.wf(),
            self.is_node(s),
            self.is_node(t),
            !self.contains(s, t),
        ensures
            self.link(s, t).wf(),
            self.link(s, t).edge_at(self.next_slot(), s, t),
            forall|a: int, b: int|
                #![trigger self.link(s, t).contains(a, b)]
                #![trigger self.contains(a, b)]
                self.link(s, t).contains(a, b) <==> (self.contains(a, b) || (a == s && b == t)),
    {
        let w = self.link(s, t);
        let e = self.next_slot();
        lemma_cons(e, self.outgoing[s]);
        lemma_cons(e, self.incoming[t]);
        // The slot taken is free or new, so no list of a node holds it.
        assert forall|n: int| self.is_node(n) implies !(#[trigger] self.outgoing[n]).contains(e)
            && !self.incoming[n].contains(e) by {
            if self.outgoing[n].contains(e) {
                let i = choose|i: int| 0 <= i < self.outgoing[n].len() && self.outgoing[n][i] == e;
                assert(self.slots[self.outgoing[n][i]] is Used);
            }
            if self.incoming[n].contains(e) {
                let i = choose|i: int| 0 <= i < self.incoming[n].len() && self.incoming[n][i] == e;
                assert(self.slots[self.incoming[n][i]] is Used);
            }
        }
        assert(self.free.len() > 0 ==> self.slots[self.free[0]] is Free);
        assert(w.is_slot(e));
        assert forall|x: int| #[trigger] self.is_slot(x) && x != e implies w.slots[x]
            == self.slots[x] by {}
        assert(w.outgoing_lists_sound()) by {
            assert forall|n: int, i: int|
                w.is_node(n) && 0 <= i < w.outgoing[n].len() implies {
                    let x = #[trigger] w.outgoing[n][i];
                    &&& w.is_slot(x)
                    &&& w.slots[x] is Used
                    &&& w.slots[x]->source == n
                } by {
                if n == s && i > 0 {
                    assert(w.outgoing[n][i] == self.outgoing[n][i - 1]);
                    assert(self.outgoing[n].contains(self.outgoing[n][i - 1]));
                } else if n != s {
                    assert(w.outgoing[n][i] == self.outgoing[n][i]);
                    assert(self.outgoing[n].contains(self.outgoing[n][i]));
                }
            }
        }
        assert(w.incoming_lists_sound()) by {
            assert forall|n: int, i: int|
                w.is_node(n) && 0 <= i < w.incoming[n].len() implies {
                    let x = #[trigger] w.incoming[n][i];
                    &&& w.is_slot(x)
                    &&& w.slots[x] is Used
                    &&& w.slots[x]->target == n
                } by {
                if n == t && i > 0 {
                    assert(w.incoming[n][i] == self.incoming[n][i - 1]);
                    assert(self.incoming[n].contains(self.incoming[n][i - 1]));
                } else if n != t {
                    assert(w.incoming[n][i] == self.incoming[n][i]);
                    assert(self.incoming[n].contains(self.incoming[n][i]));
                }
            }
        }
        assert(w.free_list_sound()) by {
            assert forall|i: int| 0 <= i < w.free.len() implies {
                let x = #[trigger] w.free[i];
                &&& w.is_slot(x)
                &&& w.slots[x] is Free
            } by {
                if self.free.len() > 0 {
                    assert(w.free[i] == self.free[i + 1]);
                } else {
                    assert(w.free[i] == self.free[i]);
                }
            }
        }
        assert(w.lists_distinct()) by {
            if self.free.len() > 0 {
                assert forall|i: int, j: int|
                    0 <= i < w.free.len() && 0 <= j < w.free.len() && i != j implies w.free[i]
                    != w.free[j] by {
                    assert(w.free[i] == self.free[i + 1]);
                    assert(w.free[j] == self.free[j + 1]);
                }
            }
            assert forall|n: int| w.is_node(n) implies (#[trigger] w.outgoing[n]).no_duplicates() by {
                assert(self.outgoing[n].no_duplicates());
            }
            assert forall|n: int| w.is_node(n) implies (#[trigger] w.incoming[n]).no_duplicates() by {
                assert(self.incoming[n].no_duplicates());
            }
        }
        assert(w.slots_listed()) by {
            assert forall|x: int| w.is_slot(x) implies match #[trigger] w.slots[x] {
                Slot::Used { source, target } => {
                    &&& w.is_node(source)
                    &&& w.is_node(target)
                    &&& w.outgoing[source].contains(x)
                    &&& w.incoming[target].contains(x)
                },
                Slot::Free => w.free.contains(x),
            } by {
                if x != e {
                    assert(self.is_slot(x));
                    match self.slots[x] {
                        Slot::Used { source, target } => {
                            assert(self.outgoing[source].contains(x));
                            assert(self.incoming[target].contains(x));
                        },
                        Slot::Free => {
                            assert(self.free.contains(x));
                            let i = choose|i: int| 0 <= i < self.free.len() && self.free[i] == x;
                            assert(i > 0);
                            assert(w.free[i - 1] == x);
                        },
                    }
                }
            }
        }
        assert(w.pairs_distinct()) by {
            assert forall|e1: int, e2: int|
                w.is_slot(e1) && w.is_slot(e2) && w.slots[e1] is Used && #[trigger] w.slots[e1]
                    == #[trigger] w.slots[e2] implies e1 == e2 by {
                if e1 != e2 {
                    if e1 == e {
                        assert(self.edge_at(e2, s, t));
                    } else if e2 == e {
                        assert(self.edge_at(e1, s, t));
                    } else {
                        assert(self.slots[e1] == self.slots[e2]);
                    }
                }
            }
        }
        assert forall|a: int, b: int|
            w.contains(a, b) <==> (self.contains(a, b) || (a == s && b == t)) by {
            if w.contains(a, b) {
                let x = choose|x: int| w.edge_at(x, a, b);
                if x != e {
                    assert(self.edge_at(x, a, b));
                }
            }
            if self.contains(a, b) {
                let x = choose|x: int| self.edge_at(x, a, b);
                assert(x != e);
                assert(w.edge_at(x, a, b));
            }
            if a == s && b == t {
                assert(w.edge_at(e, a, b));
            }
        }
    }
    /// Unlinking a used slot keeps the state well formed and takes away
    /// exactly the edge that the slot held.
    pub proof fn lemma_unlink(self, e: int)
        requires
            self.wf(),
            self.is_slot(e),
            self.slots[e] is Used,
        ensures
            self.unlink(e).wf(),
            self.unlink(e).outgoing[self.slots[e]->source].len() == self.outgoing[self.slots[e]->source].len() - 1,
            self.unlink(e).incoming[self.slots[e]->target].len() == self.incoming[self.slots[e]->target].len() - 1,
            forall|a: int, b: int|
                #![trigger self.unlink(e).contains(a, b)]
                #![trigger self.contains(a, b)]
                self.unlink(e).contains(a, b) <==> (self.contains(a, b) && !(a
                    == self.slots[e]->source && b == self.slots[e]->target)),
    {
        let w = self.unlink(e);
        let s = self.slots[e]->source;
        let t = self.slots[e]->target;
        assert(self.outgoing[s].contains(e) && self.incoming[t].contains(e));
        let ko = self.outgoing[s].index_of(e);
        let ki = self.incoming[t].index_of(e);
        assert(self.outgoing[s].no_duplicates() && self.incoming[t].no_duplicates());
        lemma_remove(self.outgoing[s], ko);
        lemma_remove(self.incoming[t], ki);
        lemma_cons(e, self.free);
        assert(!self.free.contains(e)) by {
            if self.free.contains(e) {
                let i = choose|i: int| 0 <= i < self.free.len() && self.free[i] == e;
                assert(self.slots[self.free[i]] is Free);
            }
        }
        assert(w.outgoing_lists_sound()) by {
            assert forall|n: int, i: int|
                w.is_node(n) && 0 <= i < w.outgoing[n].len() implies {
                    let x = #[trigger] w.outgoing[n][i];
                    &&& w.is_slot(x)
                    &&& w.slots[x] is Used
                    &&& w.slots[x]->source == n
                } by {
                let x = w.outgoing[n][i];
                if n == s {
                    assert(w.outgoing[n].contains(x));
                    assert(self.outgoing[n].contains(x) && x != e);
                    let j = choose|j: int| 0 <= j < self.outgoing[n].len() && self.outgoing[n][j] == x;
                    assert(self.is_slot(self.outgoing[n][j]));
                } else {
                    assert(x == self.outgoing[n][i]);
                    if x == e {
                        assert(self.slots[self.outgoing[n][i]]->source == n);
                    }
                }
            }
        }
        assert(w.incoming_lists_sound()) by {
            assert forall|n: int, i: int|
                w.is_node(n) && 0 <= i < w.incoming[n].len() implies {
                    let x = #[trigger] w.incoming[n][i];
                    &&& w.is_slot(x)
                    &&& w.slots[x] is Used
                    &&& w.slots[x]->target == n
                } by {
                let x = w.incoming[n][i];
                if n == t {
                    assert(w.incoming[n].contains(x));
                    assert(self.incoming[n].contains(x) && x != e);
                    let j = choose|j: int| 0 <= j < self.incoming[n].len() && self.incoming[n][j] == x;
                    assert(self.is_slot(self.incoming[n][j]));
                } else {
                    assert(x == self.incoming[n][i]);
                    if x == e {
                        assert(self.slots[self.incoming[n][i]]->target == n);
                    }
                }
            }
        }
        assert(w.free_list_sound()) by {
            assert forall|i: int| 0 <= i < w.free.len() implies {
                let x = #[trigger] w.free[i];
                &&& w.is_slot(x)
                &&& w.slots[x] is Free
            } by {
                if i > 0 {
                    assert(w.free[i] == self.free[i - 1]);
                }
            }
        }
        assert(w.lists_distinct()) by {
            assert forall|n: int| w.is_node(n) implies (#[trigger] w.outgoing[n]).no_duplicates() by {
                assert(self.outgoing[n].no_duplicates());
            }
            assert forall|n: int| w.is_node(n) implies (#[trigger] w.incoming[n]).no_duplicates() by {
                assert(self.incoming[n].no_duplicates());
            }
        }
        assert(w.slots_listed()) by {
            assert forall|x: int| w.is_slot(x) implies match #[trigger] w.slots[x] {
                Slot::Used { source, target } => {
                    &&& w.is_node(source)
                    &&& w.is_node(target)
                    &&& w.outgoing[source].contains(x)
                    &&& w.incoming[target].contains(x)
                },
                Slot::Free => w.free.contains(x),
            } by {
                if x != e {
                    match self.slots[x] {
                        Slot::Used { source, target } => {
                            assert(self.outgoing[source].contains(x));
                            assert(self.incoming[target].contains(x));
                        },
                        Slot::Free => {
                            assert(self.free.contains(x));
                        },
                    }
                }
            }
        }
        assert(w.pairs_distinct()) by {
            assert forall|e1: int, e2: int|
                w.is_slot(e1) && w.is_slot(e2) && w.slots[e1] is Used && #[trigger] w.slots[e1]
                    == #[trigger] w.slots[e2] implies e1 == e2 by {
                assert(self.slots[e1] == self.slots[e2]);
            }
        }
        assert forall|a: int, b: int|
            w.contains(a, b) <==> (self.contains(a, b) && !(a == s && b == t)) by {
            if w.contains(a, b) {
                let x = choose|x: int| w.edge_at(x, a, b);
                assert(self.edge_at(x, a, b));
                if a == s && b == t {
                    assert(self.slots[x] == self.slots[e]);
                }
            }
            if self.contains(a, b) && !(a == s && b == t) {
                let x = choose|x: int| self.edge_at(x, a, b);
                assert(w.edge_at(x, a, b));
            }
        }
    }
    /// A node whose two lists are empty is in no pair.
    pub proof fn lemma_isolated(self, d: int)
        requires
            self.wf(),
            self.is_node(d),
        ensures
            self.outgoing[d].len() == 0 ==> forall|b: int| !#[trigger] self.contains(d, b),
            self.incoming[d].len() == 0 ==> forall|a: int| !#[trigger] self.contains(a, d),
    {
        if self.outgoing[d].len() == 0 {
            assert forall|b: int| !self.contains(d, b) by {
                if self.contains(d, b) {
                    let x = choose|x: int| self.edge_at(x, d, b);
                    assert(self.slots[x] is Used);
                    assert(self.outgoing[d].contains(x));
                }
            }
        }
        if self.incoming[d].len() == 0 {
            assert forall|a: int| !self.contains(a, d) by {
                if self.contains(a, d) {
                    let x = choose|x: int| self.edge_at(x, a, d);
                    assert(self.slots[x] is Used);
                    assert(self.incoming[d].contains(x));
                }
            }
        }
    }

    /// A node that is in no pair has two empty lists.
    pub proof fn lemma_no_edge_isolated(self, d: int)
        requires
            self.wf(),
            self.is_node(d),
            forall|a: int, b: int| #[trigger] self.contains(a, b) ==> a != d && b != d,
        ensures
            self.is_isolated(d),
    {
        if self.outgoing[d].len() > 0 {
            let x = self.outgoing[d][0];
            assert(self.edge_at(x, d, self.slots[x]->target));
            assert(self.contains(d, self.slots[x]->target));
        }
        if self.incoming[d].len() > 0 {
            let x = self.incoming[d][0];
            assert(self.edge_at(x, self.slots[x]->source, d));
            assert(self.contains(self.slots[x]->source, d));
        }
    }
    /// The successors of a node are the nodes it is paired with.
    pub proof fn lemma_successors(self, s: int)
        requires
            self.wf(),
            self.is_node(s),
        ensures
            forall|k: int|
                0 <= k < self.successors(s).len() ==> self.is_node(#[trigger] self.successors(s)[k])
                    && self.contains(s, self.successors(s)[k]),
            forall|t: int| #[trigger] self.contains(s, t) ==> self.successors(s).contains(t),
    {
        assert forall|k: int| 0 <= k < self.successors(s).len() implies self.is_node(
            #[trigger] self.successors(s)[k],
        ) && self.contains(s, self.successors(s)[k]) by {
            let e = self.outgoing[s][k];
            assert(self.is_slot(e));
            assert(self.edge_at(e, s, self.slots[e]->target));
        }
        assert forall|t: int| #[trigger] self.contains(s, t) implies self.successors(s).contains(
            t,
        ) by {
            let e = choose|e: int| self.edge_at(e, s, t);
            assert(self.slots[e] is Used);
            assert(self.outgoing[s].contains(e));
            let k = choose|k: int| 0 <= k < self.outgoing[s].len() && self.outgoing[s][k] == e;
            assert(self.successors(s)[k] == t);
        }
    }
    /// The predecessors of a node are the nodes paired with it.
    pub proof fn lemma_predecessors(self, t: int)
        requires
            self.wf(),
            self.is_node(t),
        ensures
            forall|k: int|
                0 <= k < self.predecessors(t).len() ==> self.is_node(
                    #[trigger] self.predecessors(t)[k],
                ) && self.contains(self.predecessors(t)[k], t),
            forall|s: int| #[trigger] self.contains(s, t) ==> self.predecessors(t).contains(s),
    {
        assert forall|k: int| 0 <= k < self.predecessors(t).len() implies self.is_node(
            #[trigger] self.predecessors(t)[k],
        ) && self.contains(self.predecessors(t)[k], t) by {
            let e = self.incoming[t][k];
            assert(self.is_slot(e));
            assert(self.edge_at(e, self.slots[e]->source, t));
        }
        assert forall|s: int| #[trigger] self.contains(s, t) implies self.predecessors(t).contains(
            s,
        ) by {
            let e = choose|e: int| self.edge_at(e, s, t);
            assert(self.slots[e] is Used);
            assert(self.incoming[t].contains(e));
            let k = choose|k: int| 0 <= k < self.incoming[t].len() && self.incoming[t][k] == e;
            assert(self.predecessors(t)[k] == s);
        }
    }

    /// A node has as many outgoing edges as there are pairs that start at
    /// it, and as many incoming edges as there are pairs that end at it.
    pub proof fn lemma_degrees(self, n: int)
        requires
            self.wf(),
            self.is_node(n),
        ensures
            self.outgoing[n].len() == out_degree_of(self.pairs(), n),
            self.incoming[n].len() == in_degree_of(self.pairs(), n),
    {
        broadcast use vstd::seq_lib::seq_to_set_is_finite;

        let targets = self.successors(n);
        let sources = self.predecessors(n);
        self.lemma_successors(n);
        self.lemma_predecessors(n);
        assert forall|i: int, j: int|
            0 <= i < targets.len() && 0 <= j < targets.len() && i != j implies targets[i]
            != targets[j] by {
            let ei = self.outgoing[n][i];
            let ej = self.outgoing[n][j];
            assert(self.is_slot(ei) && self.is_slot(ej));
            if targets[i] == targets[j] {
                assert(self.slots[ei] == self.slots[ej]);
            }
        }
        assert forall|i: int, j: int|
            0 <= i < sources.len() && 0 <= j < sources.len() && i != j implies sources[i]
            != sources[j] by {
            let ei = self.incoming[n][i];
            let ej = self.incoming[n][j];
            assert(self.is_slot(ei) && self.is_slot(ej));
            if sources[i] == sources[j] {
                assert(self.slots[ei] == self.slots[ej]);
            }
        }
        targets.unique_seq_to_set();
        sources.unique_seq_to_set();
        assert(targets.to_set() =~= Set::new(|b: int| self.pairs().contains((n, b)))) by {
            assert forall|b: int| targets.to_set().contains(b) <==> self.pairs().contains(
                (n, b),
            ) by {
                if targets.contains(b) {
                    let k = choose|k: int| 0 <= k < targets.len() && targets[k] == b;
                    assert(self.contains(n, targets[k]));
                }
                if self.pairs().contains((n, b)) {
                    assert(self.contains(n, b));
                }
            }
        }
        assert(sources.to_set() =~= Set::new(|a: int| self.pairs().contains((a, n)))) by {
            assert forall|a: int| sources.to_set().contains(a) <==> self.pairs().contains(
                (a, n),
            ) by {
                if sources.contains(a) {
                    let k = choose|k: int| 0 <= k < sources.len() && sources[k] == a;
                    assert(self.contains(sources[k], n));
                }
                if self.pairs().contains((a, n)) {
                    assert(self.contains(a, n));
                }
            }
        }
    }
    /// Adding an edge keeps the state well formed, gives up no slot, and
    /// adds exactly that pair.
    pub proof fn lemma_add_edge(self, s: int, t: int)
        requires
            self.wf(),
            self.is_node(s),
            self.is_node(t),
        ensures
            self.add_edge(s, t).wf(),
            self.add_edge(s, t).num_nodes == self.num_nodes,
            self.add_edge(s, t).slots.len() >= self.slots.len(),
            forall|a: int, b: int|
                #![trigger self.add_edge(s, t).contains(a, b)]
                #![trigger self.contains(a, b)]
                self.add_edge(s, t).contains(a, b) <==> (self.contains(a, b) || (a == s && b == t)),
    {
        if !self.contains(s, t) {
            self.lemma_link(s, t);
        }
    }

    /// What unlinking the first `count` edges that leave `d` does: the
    /// state stays well formed, the list of `d` loses its first `count`
    /// entries, the slots of the rest stay as they are, and the pairs that
    /// start elsewhere stay.
    pub proof fn lemma_drop_outgoing(self, d: int, count: nat)
        requires
            self.wf(),
            self.is_node(d),
            count <= self.outgoing[d].len(),
        ensures
            self.drop_outgoing(d, count).wf(),
            self.drop_outgoing(d, count).num_nodes == self.num_nodes,
            self.drop_outgoing(d, count).slots.len() == self.slots.len(),
            self.drop_outgoing(d, count).outgoing[d] == self.outgoing[d].skip(count as int),
            forall|i: int|
                count <= i < self.outgoing[d].len() ==> self.drop_outgoing(d, count).slots[
                    #[trigger] self.outgoing[d][i]
                ] == self.slots[self.outgoing[d][i]],
            forall|a: int, b: int|
                a != d ==> (#[trigger] self.drop_outgoing(d, count).contains(a, b)
                    <==> self.contains(a, b)),
        decreases count,
    {
        let list = self.outgoing[d];
        if count == 0 {
            assert(list.skip(0) =~= list);
        } else {
            let k = (count - 1) as nat;
            self.lemma_drop_outgoing(d, k);
            let prev = self.drop_outgoing(d, k);
            let now = self.drop_outgoing(d, count);
            let e = prev.outgoing[d][0];
            assert(e == list[k as int]);
            assert(prev.is_slot(prev.outgoing[d][0]));
            prev.lemma_unlink(e);
            lemma_remove(prev.outgoing[d], 0);
            assert(now.outgoing[d] =~= list.skip(count as int));
            assert forall|i: int| count <= i < list.len() implies now.slots[#[trigger] list[i]]
                == self.slots[list[i]] by {
                assert(prev.outgoing[d][i - k] == list[i]);
                assert(prev.outgoing[d][i - k] != prev.outgoing[d][0]);
            }
            assert forall|a: int, b: int| a != d implies (#[trigger] now.contains(a, b)
                <==> self.contains(a, b)) by {
                assert(prev.contains(a, b) <==> self.contains(a, b));
            }
        }
    }

    /// What unlinking the first `count` edges that enter `d` does, where no
    /// edge leaves `d`: the state stays well formed, the incoming list of
    /// `d` loses its first `count` entries, the slots of the rest stay as
    /// they are, no edge leaves `d`, and the pairs that end elsewhere stay.
    pub proof fn lemma_drop_incoming(self, d: int, count: nat)
        requires
            self.wf(),
            self.is_node(d),
            self.outgoing[d].len() == 0,
            count <= self.incoming[d].len(),
        ensures
            self.drop_incoming(d, count).wf(),
            self.drop_incoming(d, count).num_nodes == self.num_nodes,
            self.drop_incoming(d, count).slots.len() == self.slots.len(),
            self.drop_incoming(d, count).incoming[d] == self.incoming[d].skip(count as int),
            self.drop_incoming(d, count).outgoing[d].len() == 0,
            forall|i: int|
                count <= i < self.incoming[d].len() ==> self.drop_incoming(d, count).slots[
                    #[trigger] self.incoming[d][i]
                ] == self.slots[self.incoming[d][i]],
            forall|a: int, b: int|
                b != d ==> (#[trigger] self.drop_incoming(d, count).contains(a, b)
                    <==> self.contains(a, b)),
        decreases count,
    {
        let list = self.incoming[d];
        if count == 0 {
            assert(list.skip(0) =~= list);
        } else {
            let k = (count - 1) as nat;
            self.lemma_drop_incoming(d, k);
            let prev = self.drop_incoming(d, k);
            let now = self.drop_incoming(d, count);
            let e = prev.incoming[d][0];
            assert(e == list[k as int]);
            assert(prev.is_slot(prev.incoming[d][0]));
            assert(prev.slots[e]->source != d) by {
                if prev.slots[e]->source == d {
                    assert(prev.outgoing[d].contains(e));
                }
            }
            prev.lemma_unlink(e);
            lemma_remove(prev.incoming[d], 0);
            assert(now.incoming[d] =~= list.skip(count as int));
            assert(now.outgoing[d] == prev.outgoing[d]);
            assert forall|i: int| count <= i < list.len() implies now.slots[#[trigger] list[i]]
                == self.slots[list[i]] by {
                assert(prev.incoming[d][i - k] == list[i]);
                assert(prev.incoming[d][i - k] != prev.incoming[d][0]);
            }
            assert forall|a: int, b: int| b != d implies (#[trigger] now.contains(a, b)
                <==> self.contains(a, b)) by {
                assert(prev.contains(a, b) <==> self.contains(a, b));
            }
        }
    }

    /// What joining `p` to the last `count` entries of `targets` does: the
    /// state stays well formed, no slot is given up, and exactly the pairs
    /// from `p` to those entries are added.
    pub proof fn lemma_join_one(self, p: int, targets: Seq<int>, count: nat)
        requires
            self.wf(),
            self.is_node(p),
            forall|l: int| 0 <= l < targets.len() ==> self.is_node(#[trigger] targets[l]),
            count <= targets.len(),
        ensures
            self.join_one(p, targets, count).wf(),
            self.join_one(p, targets, count).num_nodes == self.num_nodes,
            self.join_one(p, targets, count).slots.len() >= self.slots.len(),
            forall|a: int, b: int| #[trigger]
                self.join_one(p, targets, count).contains(a, b) <==> (self.contains(a, b) || (a == p
                    && exists|l: int|
                    targets.len() - count <= l < targets.len() && #[trigger] targets[l] == b)),
        decreases count,
    {
        if count > 0 {
            let k = (count - 1) as nat;
            self.lemma_join_one(p, targets, k);
            let prev = self.join_one(p, targets, k);
            let now = self.join_one(p, targets, count);
            let t = targets[targets.len() - count];
            prev.lemma_add_edge(p, t);
            assert forall|a: int, b: int| #[trigger] now.contains(a, b) <==> (self.contains(a, b)
                || (a == p && exists|l: int|
                targets.len() - count <= l < targets.len() && #[trigger] targets[l] == b)) by {
                assert(now.contains(a, b) <==> (prev.contains(a, b) || (a == p && b == t)));
                assert(prev.contains(a, b) <==> (self.contains(a, b) || (a == p && exists|l: int|
                    targets.len() - k <= l < targets.len() && #[trigger] targets[l] == b)));
                if a == p && exists|l: int|
                    targets.len() - k <= l < targets.len() && #[trigger] targets[l] == b {
                    let l = choose|l: int|
                        targets.len() - k <= l < targets.len() && #[trigger] targets[l] == b;
                    assert(targets.len() - count <= l < targets.len());
                }
                if a == p && exists|l: int|
                    targets.len() - count <= l < targets.len() && #[trigger] targets[l] == b {
                    let l = choose|l: int|
                        targets.len() - count <= l < targets.len() && #[trigger] targets[l] == b;
                    if l != targets.len() - count {
                        assert(targets.len() - k <= l < targets.len());
                    }
                }
            }
        }
    }

    /// What joining the last `count` entries of `sources` to the entries of
    /// `targets` does: the state stays well formed, no slot is given up,
    /// and exactly the pairs from those sources to the targets are added.
    pub proof fn lemma_join(self, sources: Seq<int>, targets: Seq<int>, count: nat)
        requires
            self.wf(),
            forall|k: int| 0 <= k < sources.len() ==> self.is_node(#[trigger] sources[k]),
            forall|l: int| 0 <= l < targets.len() ==> self.is_node(#[trigger] targets[l]),
            count <= sources.len(),
        ensures
            self.join(sources, targets, count).wf(),
            self.join(sources, targets, count).num_nodes == self.num_nodes,
            self.join(sources, targets, count).slots.len() >= self.slots.len(),
            forall|a: int, b: int| #[trigger]
                self.join(sources, targets, count).contains(a, b) <==> (self.contains(a, b) || (
                targets.contains(b) && exists|k: int|
                    sources.len() - count <= k < sources.len() && #[trigger] sources[k] == a)),
        decreases count,
    {
        if count > 0 {
            let c = (count - 1) as nat;
            self.lemma_join(sources, targets, c);
            let prev = self.join(sources, targets, c);
            let now = self.join(sources, targets, count);
            let p = sources[sources.len() - count];
            prev.lemma_join_one(p, targets, targets.len());
            assert forall|a: int, b: int| #[trigger] now.contains(a, b) <==> (self.contains(a, b)
                || (targets.contains(b) && exists|k: int|
                sources.len() - count <= k < sources.len() && #[trigger] sources[k] == a)) by {
                assert(now.contains(a, b) <==> (prev.contains(a, b) || (a == p && exists|l: int|
                    targets.len() - targets.len() <= l < targets.len() && #[trigger] targets[l]
                        == b)));
                assert(prev.contains(a, b) <==> (self.contains(a, b) || (targets.contains(b)
                    && exists|k: int|
                    sources.len() - c <= k < sources.len() && #[trigger] sources[k] == a)));
                if exists|l: int| 0 <= l < targets.len() && #[trigger] targets[l] == b {
                    let l = choose|l: int| 0 <= l < targets.len() && #[trigger] targets[l] == b;
                    assert(targets.contains(b));
                }
                if targets.contains(b) {
                    let l = choose|l: int| 0 <= l < targets.len() && targets[l] == b;
                    assert(0 <= l < targets.len() && targets[l] == b);
                }
                if exists|k: int|
                    sources.len() - c <= k < sources.len() && #[trigger] sources[k] == a {
                    let k = choose|k: int|
                        sources.len() - c <= k < sources.len() && #[trigger] sources[k] == a;
                    assert(sources.len() - count <= k < sources.len());
                }
                if exists|k: int|
                    sources.len() - count <= k < sources.len() && #[trigger] sources[k] == a {
                    let k = choose|k: int|
                        sources.len() - count <= k < sources.len() && #[trigger] sources[k] == a;
                    if k != sources.len() - count {
                        assert(sources.len() - c <= k < sources.len());
                    }
                }
            }
        }
    }

    /// The state that `remove_edges(d)` leaves is well formed, over the same
    /// nodes, with no slot given up; it holds the contraction of the pairs
    /// held before; no edge touches `d` in it; and it is the state before
    /// where no edge touched `d`.
    pub proof fn lemma_remove_edges(self, d: int)
        requires
            self.wf(),
            self.is_node(d),
        ensures
            self.removed(d, self.remove_edges(d)),
    {
        let left = self.drop_outgoing(d, self.outgoing[d].len());
        let cleared = left.drop_incoming(d, left.incoming[d].len());
        let sources = left.predecessors(d);
        let targets = others(self.successors(d), d, self.successors(d).len() as int);
        let post = self.remove_edges(d);
        self.lemma_drop_outgoing(d, self.outgoing[d].len());
        assert(left.outgoing[d].len() == 0);
        left.lemma_drop_incoming(d, left.incoming[d].len());
        assert(cleared.incoming[d].len() == 0);
        left.lemma_isolated(d);
        cleared.lemma_isolated(d);
        left.lemma_predecessors(d);
        self.lemma_successors(d);
        lemma_others(self.successors(d), d, self.successors(d).len() as int);
        assert forall|l: int| 0 <= l < targets.len() implies cleared.is_node(
            #[trigger] targets[l],
        ) by {
            assert(targets.contains(targets[l]));
            let i = choose|i: int|
                0 <= i < self.successors(d).len() && #[trigger] self.successors(d)[i]
                    == targets[l];
            assert(self.is_node(self.successors(d)[i]));
        }
        cleared.lemma_join(sources, targets, sources.len());
        assert forall|a: int, b: int| #[trigger] post.contains(a, b) <==> (a != d && b != d && (
        self.contains(a, b) || (self.contains(a, d) && self.contains(d, b)))) by {
            assert(post.contains(a, b) <==> (cleared.contains(a, b) || (targets.contains(b)
                && exists|k: int|
                sources.len() - sources.len() <= k < sources.len() && #[trigger] sources[k]
                    == a)));
            if exists|k: int| 0 <= k < sources.len() && #[trigger] sources[k] == a {
                let k = choose|k: int| 0 <= k < sources.len() && #[trigger] sources[k] == a;
                assert(left.contains(sources[k], d));
                assert(a != d);
                assert(self.contains(a, d));
            }
            if targets.contains(b) {
                let i = choose|i: int|
                    0 <= i < self.successors(d).len() && #[trigger] self.successors(d)[i] == b;
                assert(self.contains(d, self.successors(d)[i]));
            }
            if a != d && b != d {
                assert(cleared.contains(a, b) <==> left.contains(a, b));
                assert(left.contains(a, b) <==> self.contains(a, b));
                if self.contains(a, d) && self.contains(d, b) {
                    assert(left.contains(a, d));
                    assert(sources.contains(a));
                    let k = choose|k: int| 0 <= k < sources.len() && sources[k] == a;
                    assert(0 <= k < sources.len() && sources[k] == a);
                    assert(self.successors(d).contains(b));
                    let i = choose|i: int|
                        0 <= i < self.successors(d).len() && self.successors(d)[i] == b;
                    assert(0 <= i < self.successors(d).len() && self.successors(d)[i] == b);
                    assert(targets.contains(b));
                }
            } else {
                assert(!cleared.contains(a, b)) by {
                    if b != d {
                        assert(cleared.contains(a, b) <==> left.contains(a, b));
                    }
                }
            }
        }
        post.lemma_no_edge_isolated(d);
        assert(post.pairs() =~= contract(self.pairs(), d));
        if self.is_isolated(d) {
            assert(left == self);
            assert(cleared == self);
            assert(sources.len() == 0);
        }
    }

    /// Removing the edges of a node a second time changes nothing.
    pub proof fn lemma_remove_edges_again(self, d: int)
        requires
            self.wf(),
            self.is_node(d),
        ensures
            self.remove_edges(d).remove_edges(d) == self.remove_edges(d),
    {
        self.lemma_remove_edges(d);
        self.remove_edges(d).lemma_remove_edges(d);
    }
}

} // verus!
