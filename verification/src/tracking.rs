//! Accounting of the in-degrees and out-degrees of the nodes of relations.

use vstd::prelude::*;
use crate::relation::Relation;
use crate::vec_family::{IndexType, VecFamily};

verus! {

/// How many entries of `degrees` are `d`.
pub open spec fn tally(degrees: Seq<int>, d: int) -> int
    decreases degrees.len(),
{
    if degrees.len() == 0 {
        0
    } else {
        tally(degrees.drop_last(), d) + if degrees.last() == d {
            1int
        } else {
            0int
        }
    }
}

/// The largest entry of `degrees`, or 0 where there is none.
pub open spec fn largest(degrees: Seq<int>) -> int
    decreases degrees.len(),
{
    if degrees.len() == 0 {
        0
    } else if degrees.last() > largest(degrees.drop_last()) {
        degrees.last()
    } else {
        largest(degrees.drop_last())
    }
}

/// A count as a counter holds it: it stops at the largest number a counter can hold.
pub open spec fn capped(count: int) -> int {
    if count > usize::MAX {
        usize::MAX as int
    } else {
        count
    }
}

/// The in-degrees of the nodes seen, in the order in which they were seen.
pub open spec fn in_degrees(seen: Seq<(int, int)>) -> Seq<int> {
    Seq::new(seen.len(), |i: int| seen[i].0)
}

/// The out-degrees of the nodes seen, in the order in which they were seen.
pub open spec fn out_degrees(seen: Seq<(int, int)>) -> Seq<int> {
    Seq::new(seen.len(), |i: int| seen[i].1)
}

/// Some node seen has at least two edges that enter it and at least two that leave it.
pub open spec fn some_multidegree(seen: Seq<(int, int)>) -> bool {
    exists|i: int| 0 <= i < seen.len() && (#[trigger] seen[i]).0 >= 2 && seen[i].1 >= 2
}

/// The counters hold, for each degree, the capped number of entries of
/// `degrees` with that degree, and there is a counter for every degree that occurs.
pub open spec fn counts_of(counts: Seq<usize>, degrees: Seq<int>) -> bool {
    &&& forall|d: int| 0 <= d < counts.len() ==> #[trigger] counts[d] == capped(tally(degrees, d))
    &&& forall|i: int| 0 <= i < degrees.len() ==> 0 <= #[trigger] degrees[i] < counts.len()
}

/// Histograms of the in-degrees and out-degrees of the nodes that were handed in.
pub struct RegionDegrees {
    in_counts: Vec<usize>,
    out_counts: Vec<usize>,
    max_in: usize,
    max_out: usize,
    multidegree: bool,
    seen: Ghost<Seq<(int, int)>>,
}

proof fn lemma_tally_push(degrees: Seq<int>, degree: int, d: int)
    ensures
        tally(degrees.push(degree), d) == tally(degrees, d) + if degree == d {
            1int
        } else {
            0int
        },
        largest(degrees.push(degree)) == if degree > largest(degrees) {
            degree
        } else {
            largest(degrees)
        },
        tally(degrees, d) >= 0,
    decreases degrees.len(),
{
    assert(degrees.push(degree).drop_last() =~= degrees);
    if degrees.len() > 0 {
        lemma_tally_push(degrees.drop_last(), degrees.last(), d);
        assert(degrees.drop_last().push(degrees.last()) =~= degrees);
    }
}

/// Counts one more node of degree `degree`.
fn count(counts: &mut Vec<usize>, degree: usize, Ghost(degrees): Ghost<Seq<int>>)
    requires
        counts_of(old(counts)@, degrees),
    ensures
        counts_of(final(counts)@, degrees.push(degree as int)),
{
    while counts.len() <= degree
        invariant
            counts_of(counts@, degrees),
        decreases degree + 1 - counts@.len(),
    {
        let ghost before = counts@;
        proof {
            lemma_absent(degrees, before.len() as int);
        }
        counts.push(0);
        assert forall|d: int| 0 <= d < counts@.len() implies #[trigger] counts@[d] == capped(
            tally(degrees, d),
        ) by {
            if d < before.len() {
                assert(counts@[d] == before[d]);
            }
        }
    }
    let ghost before = counts@;
    let held = counts[degree];
    if held < usize::MAX {
        counts.set(degree, held + 1);
    }
    proof {
        let next = degrees.push(degree as int);
        assert forall|d: int| 0 <= d < counts@.len() implies #[trigger] counts@[d] == capped(
            tally(next, d),
        ) by {
            lemma_tally_push(degrees, degree as int, d);
            assert(before[d] == capped(tally(degrees, d)));
        }
        assert forall|i: int| 0 <= i < next.len() implies 0 <= #[trigger] next[i]
            < counts@.len() by {
            if i < degrees.len() {
                assert(next[i] == degrees[i]);
            }
        }
    }
}

/// A degree that no entry has is tallied zero times.
proof fn lemma_absent(degrees: Seq<int>, d: int)
    requires
        forall|i: int| 0 <= i < degrees.len() ==> #[trigger] degrees[i] != d,
    ensures
        tally(degrees, d) == 0,
    decreases degrees.len(),
{
    if degrees.len() > 0 {
        assert(degrees.last() == degrees[degrees.len() - 1]);
        assert forall|i: int| 0 <= i < degrees.drop_last().len() implies #[trigger] degrees.drop_last()[i]
            != d by {
            assert(degrees.drop_last()[i] == degrees[i]);
        }
        lemma_absent(degrees.drop_last(), d);
    }
}

impl RegionDegrees {
    /// The degrees `(in, out)` of the nodes handed in so far, in their order.
    pub closed spec fn seen(&self) -> Seq<(int, int)> {
        self.seen@
    }

    /// The invariant: the counters and the maxima hold what was seen.
    pub closed spec fn wf(&self) -> bool {
        &&& counts_of(self.in_counts@, in_degrees(self.seen@))
        &&& counts_of(self.out_counts@, out_degrees(self.seen@))
        &&& self.max_in == largest(in_degrees(self.seen@))
        &&& self.max_out == largest(out_degrees(self.seen@))
        &&& self.multidegree == some_multidegree(self.seen@)
    }

    /// Histograms of no node.
    pub fn new() -> (degrees: Self)
        ensures
            degrees.wf(),
            degrees.seen() == Seq::<(int, int)>::empty(),
    {
        let degrees = RegionDegrees {
            in_counts: Vec::new(),
            out_counts: Vec::new(),
            max_in: 0,
            max_out: 0,
            multidegree: false,
            seen: Ghost(Seq::empty()),
        };
        assert(in_degrees(degrees.seen@) =~= Seq::empty());
        assert(out_degrees(degrees.seen@) =~= Seq::empty());
        degrees
    }

    /// Takes one node with its two degrees into the histograms.
    pub fn update_node(&mut self, in_degree: usize, out_degree: usize)
        requires
            old(self).wf(),
        ensures
            final(self).wf(),
            final(self).seen() == old(self).seen().push((in_degree as int, out_degree as int)),
    {
        let ghost before = self.seen@;
        let ghost next = before.push((in_degree as int, out_degree as int));
        proof {
            assert(in_degrees(next) =~= in_degrees(before).push(in_degree as int));
            assert(out_degrees(next) =~= out_degrees(before).push(out_degree as int));
            lemma_tally_push(in_degrees(before), in_degree as int, 0);
            lemma_tally_push(out_degrees(before), out_degree as int, 0);
        }
        count(&mut self.in_counts, in_degree, Ghost(in_degrees(before)));
        count(&mut self.out_counts, out_degree, Ghost(out_degrees(before)));
        if in_degree > self.max_in {
            self.max_in = in_degree;
        }
        if out_degree > self.max_out {
            self.max_out = out_degree;
        }
        if in_degree >= 2 && out_degree >= 2 {
            self.multidegree = true;
        }
        proof {
            self.seen@ = next;
            if some_multidegree(before) {
                let i = choose|i: int|
                    0 <= i < before.len() && (#[trigger] before[i]).0 >= 2 && before[i].1 >= 2;
                assert(next[i] == before[i]);
            }
            if in_degree >= 2 && out_degree >= 2 {
                assert(next[before.len() as int].0 >= 2);
            }
            if some_multidegree(next) {
                let i = choose|i: int|
                    0 <= i < next.len() && (#[trigger] next[i]).0 >= 2 && next[i].1 >= 2;
                if i < before.len() {
                    assert(before[i] == next[i]);
                }
            }
        }
    }

    /// Takes every node of `relation` into the histograms, in the order of the nodes.
    pub fn update_degrees<F: VecFamily>(&mut self, relation: &Relation<F>)
        requires
            old(self).wf(),
            relation.wf(),
        ensures
            final(self).wf(),
            final(self).seen() == old(self).seen() + node_degrees(relation, relation@.num_nodes),
    {
        let num_nodes = relation.num_nodes();
        let mut n: usize = 0;
        assert(self.seen() + node_degrees(relation, 0) =~= self.seen());
        while n < num_nodes
            invariant
                n <= num_nodes,
                num_nodes == relation@.num_nodes,
                relation.wf(),
                self.wf(),
                self.seen() == old(self).seen() + node_degrees(relation, n as int),
            decreases num_nodes - n,
        {
            proof {
                F::Node::lemma_from_usize(n);
            }
            let node = F::Node::from(n);
            let in_degree = relation.in_degree(node);
            let out_degree = relation.out_degree(node);
            self.update_node(in_degree, out_degree);
            assert(self.seen() =~= old(self).seen() + node_degrees(relation, n + 1));
            n = n + 1;
        }
    }

    /// The largest in-degree seen, or 0 where no node was seen.
    pub fn max_in_degree(&self) -> (degree: usize)
        requires
            self.wf(),
        ensures
            degree == largest(in_degrees(self.seen())),
    {
        self.max_in
    }

    /// The largest out-degree seen, or 0 where no node was seen.
    pub fn max_out_degree(&self) -> (degree: usize)
        requires
            self.wf(),
        ensures
            degree == largest(out_degrees(self.seen())),
    {
        self.max_out
    }

    /// Whether some node seen has both an in-degree and an out-degree of at least two.
    pub fn has_multidegree(&self) -> (found: bool)
        requires
            self.wf(),
        ensures
            found == some_multidegree(self.seen()),
    {
        self.multidegree
    }

    /// The two histograms, of the in-degrees and of the out-degrees: entry
    /// `d` counts the nodes seen with degree `d`.
    pub fn histogram(&self) -> (histograms: (Vec<usize>, Vec<usize>))
        requires
            self.wf(),
        ensures
            counts_of(histograms.0@, in_degrees(self.seen())),
            counts_of(histograms.1@, out_degrees(self.seen())),
    {
        (self.in_counts.clone(), self.out_counts.clone())
    }
}

/// The degrees `(in, out)` of the first `count` nodes of `relation`.
pub open spec fn node_degrees<F: VecFamily>(relation: &Relation<F>, count: int) -> Seq<(int, int)> {
    Seq::new(
        count as nat,
        |n: int| (relation@.incoming[n].len() as int, relation@.outgoing[n].len() as int),
    )
}

} // verus!
