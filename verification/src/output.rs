//! The result of the analysis, and the function that computes it.

use vstd::prelude::*;
use fxhash::FxHashMap;
use crate::dataflow::model::{live_loans_row, restricts, subset_at};
use crate::dataflow::{
    closure_rows, live_loans, propagate, related, relations_wf, restricting, restricts_rows,
};
use crate::edge_relation::EdgeSubsetRelation;
use crate::facts::{loan_positions, region_positions, AllFacts, FactError, Loan, Point, Region, TableSizes};
use crate::fx::{live_map_get, live_map_insert, live_map_new};
use crate::liveness::{indices_where, killed_loans, live_at, loans_where, Liveness};
use crate::reach::reachable;
use crate::relation::model::{in_degree_of, out_degree_of};
use crate::subset::SubsetRelation;
use crate::tracking::{node_degrees, RegionDegrees};

verus! {

/// The loans live at each point, and, where asked for, tables for debugging.
pub struct Output {
    borrow_live_at: FxHashMap<usize, Vec<Loan>>,
    duration: Elapsed,
    dump_enabled: bool,
    restricts: Vec<Vec<(Region, Loan)>>,
    region_live_at: Vec<Vec<Region>>,
    subset: Vec<Vec<(Region, Region)>>,
    region_degrees: RegionDegrees,
}

/// A span of time: whole seconds, and the nanoseconds beyond them.
#[derive(Copy, Clone, Debug, PartialEq, Eq)]
pub struct Elapsed {
    pub secs: u64,
    pub nanos: u32,
}

/// No time at all.
pub open spec fn no_time() -> Elapsed {
    Elapsed { secs: 0, nanos: 0 }
}

/// The degrees `(in, out)` of the regions in the subset relation at point `p`.
pub open spec fn degrees_at(facts: &AllFacts, sizes: TableSizes, p: int) -> Seq<(int, int)> {
    Seq::new(
        sizes.regions as nat,
        |n: int|
            (
                in_degree_of(subset_at(facts, sizes, p), n) as int,
                out_degree_of(subset_at(facts, sizes, p), n) as int,
            ),
    )
}

/// The degrees `(in, out)` of the regions in the subset relations at the
/// first `count` points, point by point.
pub open spec fn degrees_upto(facts: &AllFacts, sizes: TableSizes, count: int) -> Seq<(int, int)>
    decreases count,
{
    if count <= 0 {
        Seq::empty()
    } else {
        degrees_upto(facts, sizes, count - 1) + degrees_at(facts, sizes, count - 1)
    }
}

/// The analyses that can be asked for.
#[derive(Copy, Clone, Debug, PartialEq, Eq)]
pub enum Algorithm {
    Naive,
    BespokeEdge,
    BespokeMatrix,
}

/// Why there is no output.
#[derive(Copy, Clone, Debug, PartialEq, Eq)]
pub enum ComputeError {
    /// A row of the facts holds a handle that is out of range.
    Facts(FactError),
    /// The analysis asked for is not part of this library.
    Unavailable(Algorithm),
}

/// The loans live at point `p`, in rising order.
pub open spec fn loans_live_at(facts: &AllFacts, sizes: TableSizes, p: int) -> Seq<int> {
    indices_where(live_loans_row(facts, sizes, p), true, sizes.loans as int)
}

impl Output {
    /// The map from the positions of points to the loans live there. A point
    /// with no live loan is not in the map.
    pub closed spec fn live_map(&self) -> Map<usize, Vec<Loan>> {
        self.borrow_live_at@
    }

    /// Whether the tables for debugging were asked for.
    pub closed spec fn dumps(&self) -> bool {
        self.dump_enabled
    }

    /// The time that was noted as the time the analysis took.
    pub closed spec fn time(&self) -> Elapsed {
        self.duration
    }

    /// The histograms of the degrees of the regions.
    pub closed spec fn degrees(&self) -> RegionDegrees {
        self.region_degrees
    }

    /// For each point, the rows `(region, loan)` of the regions that restrict a loan there.
    pub closed spec fn restricts_table(&self) -> Seq<Vec<(Region, Loan)>> {
        self.restricts@
    }

    /// For each point, the regions live there.
    pub closed spec fn live_table(&self) -> Seq<Vec<Region>> {
        self.region_live_at@
    }

    /// For each point, the pairs of a region and another region that it reaches there.
    pub closed spec fn subset_table(&self) -> Seq<Vec<(Region, Region)>> {
        self.subset@
    }

    /// The output holds the loans live at each point under the facts, and,
    /// where the tables for debugging were asked for, for each point the
    /// regions that restrict a loan there, the regions live there and the
    /// pairs of regions of which the first reaches the second there, no row
    /// twice, and the degrees of the regions in the subset relation of each
    /// point. No time is noted yet.
    pub open spec fn holds(&self, facts: &AllFacts, sizes: TableSizes, dump_enabled: bool) -> bool {
        &&& self.dumps() == dump_enabled
        &&& self.time() == no_time()
        &&& self.degrees().wf()
        &&& forall|p: usize|
            self.live_map().contains_key(p) <==> p < sizes.points && loans_live_at(
                facts,
                sizes,
                p as int,
            ).len() > 0
        &&& forall|p: usize| #[trigger]
            self.live_map().contains_key(p) ==> loan_positions(self.live_map()[p]@)
                == loans_live_at(facts, sizes, p as int)
        &&& !dump_enabled ==> {
            &&& self.restricts_table().len() == 0
            &&& self.live_table().len() == 0
            &&& self.subset_table().len() == 0
            &&& self.degrees().seen().len() == 0
        }
        &&& dump_enabled ==> {
            &&& self.degrees().seen() == degrees_upto(facts, sizes, sizes.points as int)
            &&& self.restricts_table().len() == sizes.points
            &&& self.live_table().len() == sizes.points
            &&& self.subset_table().len() == sizes.points
            &&& forall|p: int|
                0 <= p < sizes.points ==> (#[trigger] self.restricts_table()[p])@.no_duplicates()
            &&& forall|p: int|
                0 <= p < sizes.points ==> (#[trigger] self.subset_table()[p])@.no_duplicates()
            &&& forall|p: int, x: int, l: int|
                0 <= p < sizes.points ==> (#[trigger] restricting(self.restricts_table()[p]@, x, l)
                    <==> restricts(facts, sizes, p, x, l))
            &&& forall|p: int|
                0 <= p < sizes.points ==> region_positions((#[trigger] self.live_table()[p])@)
                    == live_at(facts, sizes, p)
            &&& forall|p: int, a: int, b: int|
                0 <= p < sizes.points ==> (#[trigger] related(self.subset_table()[p]@, a, b) <==> 0
                    <= a < sizes.regions && a != b && reachable(subset_at(facts, sizes, p), a, b))
        }
    }

    /// An output with no live loan and empty tables.
    pub fn new(dump_enabled: bool) -> (output: Self)
        ensures
            output.dumps() == dump_enabled,
            output.time() == no_time(),
            output.live_map() == Map::<usize, Vec<Loan>>::empty(),
            output.restricts_table().len() == 0,
            output.live_table().len() == 0,
            output.subset_table().len() == 0,
            output.degrees().wf(),
            output.degrees().seen() == Seq::<(int, int)>::empty(),
    {
        let borrow_live_at = live_map_new();
        assert(borrow_live_at@ =~= Map::<usize, Vec<Loan>>::empty());
        Output {
            duration: Elapsed { secs: 0, nanos: 0 },
            borrow_live_at,
            restricts: Vec::new(),
            region_live_at: Vec::new(),
            subset: Vec::new(),
            region_degrees: RegionDegrees::new(),
            dump_enabled,
        }
    }

    /// Whether the tables for debugging were asked for.
    pub fn dump_enabled(&self) -> (flag: bool)
        ensures
            flag == self.dumps(),
    {
        self.dump_enabled
    }

    /// The histograms of the degrees of the regions.
    pub fn region_degrees(&self) -> (degrees: &RegionDegrees)
        ensures
            *degrees == self.degrees(),
    {
        &self.region_degrees
    }

    /// The time that was noted as the time the analysis took.
    pub fn duration(&self) -> (duration: Elapsed)
        ensures
            duration == self.time(),
    {
        self.duration
    }

    /// Notes the time the analysis took.
    pub fn set_duration(&mut self, duration: Elapsed)
        ensures
            final(self).time() == duration,
            final(self).live_map() == old(self).live_map(),
            final(self).dumps() == old(self).dumps(),
            final(self).restricts_table() == old(self).restricts_table(),
            final(self).live_table() == old(self).live_table(),
            final(self).subset_table() == old(self).subset_table(),
            final(self).degrees() == old(self).degrees(),
    {
        self.duration = duration;
    }

    /// The loans live at `location`: none where the map holds nothing there.
    pub fn borrows_in_scope_at(&self, location: Point) -> (loans: &[Loan])
        ensures
            loans@ == if self.live_map().contains_key(location.index) {
                self.live_map()[location.index]@
            } else {
                Seq::<Loan>::empty()
            },
    {
        match live_map_get(&self.borrow_live_at, location.index) {
            Some(found) => found.as_slice(),
            None => {
                let none: &[Loan] = &[];
                none
            },
        }
    }

    /// The rows `(region, loan)` of the regions that restrict a loan at
    /// `location`: none for a location that is no point.
    pub fn restricts_at(&self, location: Point) -> (rows: &[(Region, Loan)])
        requires
            self.dumps(),
        ensures
            rows@ == if location.index < self.restricts_table().len() {
                self.restricts_table()[location.index as int]@
            } else {
                Seq::<(Region, Loan)>::empty()
            },
    {
        if location.index < self.restricts.len() {
            self.restricts[location.index].as_slice()
        } else {
            let none: &[(Region, Loan)] = &[];
            none
        }
    }

    /// The regions live at `location`: none for a location that is no point.
    pub fn regions_live_at(&self, location: Point) -> (regions: &[Region])
        requires
            self.dumps(),
        ensures
            regions@ == if location.index < self.live_table().len() {
                self.live_table()[location.index as int]@
            } else {
                Seq::<Region>::empty()
            },
    {
        if location.index < self.region_live_at.len() {
            self.region_live_at[location.index].as_slice()
        } else {
            let none: &[Region] = &[];
            none
        }
    }

    /// For each point, the pairs of a region and another region that it reaches there.
    pub fn subset(&self) -> (table: &Vec<Vec<(Region, Region)>>)
        requires
            self.dumps(),
        ensures
            table@ == self.subset_table(),
    {
        &self.subset
    }

    /// The pairs of a region and another region that it reaches at
    /// `location`: none for a location that is no point.
    pub fn subsets_at(&self, location: Point) -> (pairs: &[(Region, Region)])
        requires
            self.dumps(),
        ensures
            pairs@ == if location.index < self.subset_table().len() {
                self.subset_table()[location.index as int]@
            } else {
                Seq::<(Region, Region)>::empty()
            },
    {
        if location.index < self.subset.len() {
            self.subset[location.index].as_slice()
        } else {
            let none: &[(Region, Region)] = &[];
            none
        }
    }
}

/// Runs the analysis with the subset relations kept as graphs.
///
/// The facts are checked first. Where every handle is in range, the output
/// holds the loans live at each point; else the error names the first row
/// with a handle out of range.
pub fn edge(sizes: TableSizes, dump_enabled: bool, facts: &AllFacts) -> (result: Result<
    Output,
    FactError,
>)
    ensures
        result is Ok <==> facts.within(sizes),
        result matches Ok(output) ==> output.holds(facts, sizes, dump_enabled),
        result matches Err(error) ==> facts.first_fault(sizes, error),
{
    match facts.validate(sizes) {
        Err(error) => {
            return Err(error);
        },
        Ok(_) => {},
    }
    let liveness = Liveness::compute(facts, sizes);
    let killed_flags = killed_loans(facts, sizes);
    let relations: Vec<EdgeSubsetRelation> = propagate(facts, sizes, &liveness);
    let flags = live_loans(facts, sizes, &liveness, &killed_flags, &relations);
    let mut output = Output::new(dump_enabled);
    let mut p: usize = 0;
    while p < sizes.points
        invariant
            p <= sizes.points,
            flags@.len() == sizes.points,
            forall|q: int|
                0 <= q < sizes.points ==> (#[trigger] flags@[q])@ == live_loans_row(
                    facts,
                    sizes,
                    q,
                ),
            output.dump_enabled == dump_enabled,
            output.duration == no_time(),
            output.region_degrees.wf(),
            output.region_degrees.seen().len() == 0,
            output.restricts@.len() == 0,
            output.region_live_at@.len() == 0,
            output.subset@.len() == 0,
            forall|q: usize|
                output.borrow_live_at@.contains_key(q) <==> q < p && loans_live_at(
                    facts,
                    sizes,
                    q as int,
                ).len() > 0,
            forall|q: usize| #[trigger]
                output.borrow_live_at@.contains_key(q) ==> loan_positions(
                    output.borrow_live_at@[q]@,
                ) == loans_live_at(facts, sizes, q as int),
        decreases sizes.points - p,
    {
        assert(flags@[p as int]@ == live_loans_row(facts, sizes, p as int));
        let loans = loans_where(&flags[p]);
        assert(loan_positions(loans@).len() == loans@.len());
        if loans.len() > 0 {
            live_map_insert(&mut output.borrow_live_at, p, loans);
        }
        p = p + 1;
    }
    if dump_enabled {
        output.restricts = restricts_rows(facts, sizes, &killed_flags, &relations);
        let mut subset: Vec<Vec<(Region, Region)>> = Vec::new();
        let mut q: usize = 0;
        while q < sizes.points
            invariant
                q <= sizes.points,
                relations_wf(relations@, sizes),
                forall|i: int|
                    0 <= i < sizes.points ==> (#[trigger] relations@[i]).pairs() == subset_at(
                        facts,
                        sizes,
                        i,
                    ),
                output.dump_enabled == dump_enabled,
                output.duration == no_time(),
                output.region_live_at@.len() == 0,
                output.restricts@.len() == sizes.points,
                forall|i: int|
                    0 <= i < sizes.points ==> (#[trigger] output.restricts@[i])@.no_duplicates(),
                forall|i: int| 0 <= i < q ==> (#[trigger] subset@[i])@.no_duplicates(),
                forall|i: int, x: int, l: int|
                    0 <= i < sizes.points ==> (#[trigger] restricting(output.restricts@[i]@, x, l)
                        <==> restricts(facts, sizes, i, x, l)),
                output.region_degrees.wf(),
                output.region_degrees.seen() == degrees_upto(facts, sizes, q as int),
                forall|i: usize|
                    output.borrow_live_at@.contains_key(i) <==> i < sizes.points && loans_live_at(
                        facts,
                        sizes,
                        i as int,
                    ).len() > 0,
                forall|i: usize| #[trigger]
                    output.borrow_live_at@.contains_key(i) ==> loan_positions(
                        output.borrow_live_at@[i]@,
                    ) == loans_live_at(facts, sizes, i as int),
                subset@.len() == q,
                forall|i: int, a: int, b: int|
                    0 <= i < q ==> (#[trigger] related(subset@[i]@, a, b) <==> 0 <= a
                        < sizes.regions && a != b && reachable(subset_at(facts, sizes, i), a, b)),
            decreases sizes.points - q,
        {
            let relation = &relations[q];
            subset.push(closure_rows(relation, sizes.regions));
            let graph = relation.relation();
            output.region_degrees.update_degrees(graph);
            proof {
                relation.lemma_graph();
                graph.lemma_view_wf();
                assert(node_degrees(graph, graph@.num_nodes) =~= degrees_at(
                    facts,
                    sizes,
                    q as int,
                )) by {
                    assert forall|n: int| 0 <= n < sizes.regions implies node_degrees(
                        graph,
                        graph@.num_nodes,
                    )[n] == degrees_at(facts, sizes, q as int)[n] by {
                        graph@.lemma_degrees(n);
                    }
                }
            }
            q = q + 1;
        }
        let Liveness { flags: _, live_regions, dead_regions: _ } = liveness;
        output.region_live_at = live_regions;
        output.subset = subset;
    }
    Ok(output)
}

impl Output {
    /// Runs the analysis asked for. Only `BespokeEdge` is part of this
    /// library: for it the result is that of [`edge`]; for the others the
    /// error says that the analysis is not available.
    pub fn compute(
        sizes: TableSizes,
        all_facts: &AllFacts,
        algorithm: Algorithm,
        dump_enabled: bool,
    ) -> (result: Result<Output, ComputeError>)
        ensures
            result is Ok <==> algorithm is BespokeEdge && all_facts.within(sizes),
            result matches Ok(output) ==> output.holds(all_facts, sizes, dump_enabled),
            !(algorithm is BespokeEdge) ==> result == Err::<Output, ComputeError>(
                ComputeError::Unavailable(algorithm),
            ),
            algorithm is BespokeEdge ==> (result matches Err(error) ==> (error is Facts
                && all_facts.first_fault(sizes, error->Facts_0))),
    {
        match algorithm {
            Algorithm::BespokeEdge => match edge(sizes, dump_enabled, all_facts) {
                Ok(output) => Ok(output),
                Err(fault) => Err(ComputeError::Facts(fault)),
            },
            Algorithm::Naive => Err(ComputeError::Unavailable(Algorithm::Naive)),
            Algorithm::BespokeMatrix => Err(ComputeError::Unavailable(Algorithm::BespokeMatrix)),
        }
    }
}

/// The same facts give the same loans: two outputs that hold the loans live
/// under the same facts have the same points in their maps and the same loans
/// at each of them, whether or not the tables for debugging were asked for.
pub proof fn law_same_facts_same_loans(
    first: Output,
    second: Output,
    facts: &AllFacts,
    sizes: TableSizes,
    first_dumps: bool,
    second_dumps: bool,
)
    requires
        first.holds(facts, sizes, first_dumps),
        second.holds(facts, sizes, second_dumps),
    ensures
        first.live_map().dom() == second.live_map().dom(),
        forall|p: usize| #[trigger]
            first.live_map().contains_key(p) ==> first.live_map()[p]@ == second.live_map()[p]@,
{
    assert(first.live_map().dom() =~= second.live_map().dom());
    assert forall|p: usize| #[trigger] first.live_map().contains_key(p) implies first.live_map()[p]@
        == second.live_map()[p]@ by {
        assert(second.live_map().contains_key(p));
        let a = first.live_map()[p]@;
        let b = second.live_map()[p]@;
        assert(loan_positions(a) == loan_positions(b));
        assert(a.len() == loan_positions(a).len());
        assert(b.len() == loan_positions(b).len());
        assert forall|i: int| 0 <= i < a.len() implies a[i] == b[i] by {
            assert(loan_positions(a)[i] == a[i].index);
            assert(loan_positions(b)[i] == b[i].index);
        }
        assert(a =~= b);
    }
}

} // verus!
