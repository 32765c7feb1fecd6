//! The dataflow: a fixpoint of subset relations over the control-flow graph,
//! and the loans live at each point that follow from it.

pub mod model;

use vstd::prelude::*;
use crate::dataflow::model::{
    below, borrow_reaches, closed, edge_held, handed_on, swept, lemma_growth, lemma_least, lemma_seed_sound,
    lemma_step_sound, lemma_total_bound, lemma_total_update, live_loans_row, loan_flow,
    outlives_held, reaches_live, restricts, restricts_upto, borrow_restricts, sound,
    square, subset_at, total, transfer,
};
use crate::facts::{region_positions, AllFacts, Loan, Region, Table, TableSizes};
use crate::indices::NodeIndex;
use crate::liveness::{blank, killed, killed_row, live, live_row, mark, Liveness};
use crate::reach::{depth_first, positions, reachable};
use crate::relation::Relation;
use crate::subset::SubsetRelation;
use crate::vec_family::{IndexType, StdVec};

verus! {

/// The pairs that each of the relations holds.
pub open spec fn family_of<SR: SubsetRelation>(relations: Seq<SR>) -> Seq<Set<(int, int)>> {
    Seq::new(relations.len(), |p: int| relations[p].pairs())
}

/// There is a well-formed relation over the regions for each point.
pub open spec fn relations_wf<SR: SubsetRelation>(relations: Seq<SR>, sizes: TableSizes) -> bool {
    &&& relations.len() == sizes.points
    &&& forall|p: int|
        0 <= p < relations.len() ==> (#[trigger] relations[p]).wf() && relations[p].num_regions()
            == sizes.regions
}

/// The family holds every outlives fact at its point.
pub open spec fn seeded(facts: &AllFacts, family: Seq<Set<(int, int)>>) -> bool {
    forall|k: int| 0 <= k < facts.outlives@.len() ==> #[trigger] outlives_held(facts, family, k)
}

/// The pairs of well-formed relations are pairs of regions, so each relation
/// holds at most `regions * regions` of them.
proof fn lemma_family_within<SR: SubsetRelation>(relations: Seq<SR>, sizes: TableSizes)
    requires
        relations_wf(relations, sizes),
    ensures
        forall|p: int|
            0 <= p < relations.len() ==> (#[trigger] family_of(relations)[p]).subset_of(
                square(sizes.regions as int),
            ),
        forall|p: int|
            0 <= p < relations.len() ==> (#[trigger] family_of(relations)[p]).finite()
                && family_of(relations)[p].len() <= sizes.regions * sizes.regions,
        total(family_of(relations)) <= sizes.points * (sizes.regions * sizes.regions),
{
    let family = family_of(relations);
    let n = sizes.regions as int;
    assert forall|p: int| 0 <= p < relations.len() implies (#[trigger] family[p]).subset_of(
        square(n),
    ) && family[p].finite() && family[p].len() <= n * n by {
        assert forall|pair: (int, int)| family[p].contains(pair) implies square(n).contains(
            pair,
        ) by {
            relations[p].lemma_pairs_within(pair.0, pair.1);
        }
        lemma_growth(family[p], family[p], n);
    }
    lemma_total_bound(family, n * n);
}

/// Hands on along control-flow edge `k`: clones the relation at the source,
/// kills in the clone the regions not live at the target, and adds to the
/// relation at the target the pairs that are left. Says whether that
/// relation grew.
pub fn step<SR: SubsetRelation>(
    relations: &mut Vec<SR>,
    facts: &AllFacts,
    sizes: TableSizes,
    liveness: &Liveness,
    k: usize,
) -> (grew: bool)
    requires
        relations_wf(old(relations)@, sizes),
        facts.within(sizes),
        liveness.matches(facts, sizes),
        k < facts.cfg_edge@.len(),
    ensures
        relations_wf(final(relations)@, sizes),
        family_of(final(relations)@) == handed_on(
            facts,
            sizes,
            family_of(old(relations)@),
            k as int,
        ),
        grew == (family_of(final(relations)@) != family_of(old(relations)@)),
{
    let edge = facts.cfg_edge[k];
    let source = edge.0.index;
    let target = edge.1.index;
    proof {
        assert(facts.table_within(sizes, Table::CfgEdge));
        assert(facts.row_within(sizes, Table::CfgEdge, k as int));
        liveness.lemma_regions_within(facts, sizes, target as int);
    }
    let ghost before = relations@;
    let mut carried = relations[source].clone();
    proof {
        before[source as int].lemma_cloned(&carried);
    }
    carried.kill_region(
        liveness.live_regions[target].as_slice(),
        liveness.dead_regions[target].as_slice(),
    );
    let held = &mut relations[target];
    let grew = held.insert_all(&carried, liveness.live_regions[target].as_slice());
    proof {
        let goal = family_of(before).update(
            target as int,
            family_of(before)[target as int].union(
                transfer(facts, sizes, family_of(before)[source as int], target as int),
            ),
        );
        assert(family_of(relations@) =~= goal);
        if grew {
            assert(family_of(relations@)[target as int] != family_of(before)[target as int]);
        } else {
            assert(family_of(relations@) =~= family_of(before));
        }
    }
    grew
}

/// One pass over the control-flow edges, handing on along each in turn. Says
/// whether any relation grew.
pub fn sweep<SR: SubsetRelation>(
    relations: &mut Vec<SR>,
    facts: &AllFacts,
    sizes: TableSizes,
    liveness: &Liveness,
) -> (changed: bool)
    requires
        relations_wf(old(relations)@, sizes),
        facts.within(sizes),
        liveness.matches(facts, sizes),
        sound(facts, sizes, family_of(old(relations)@)),
        seeded(facts, family_of(old(relations)@)),
    ensures
        relations_wf(final(relations)@, sizes),
        sound(facts, sizes, family_of(final(relations)@)),
        seeded(facts, family_of(final(relations)@)),
        family_of(final(relations)@) == swept(
            facts,
            sizes,
            family_of(old(relations)@),
            facts.cfg_edge@.len() as int,
        ),
        changed == (family_of(final(relations)@) != family_of(old(relations)@)),
        below(family_of(old(relations)@), family_of(final(relations)@)),
        changed ==> total(family_of(final(relations)@)) > total(family_of(old(relations)@)),
        !changed ==> closed(facts, sizes, family_of(final(relations)@)),
{
    let ghost start = family_of(relations@);
    let mut changed = false;
    let mut k: usize = 0;
    while k < facts.cfg_edge.len()
        invariant
            k <= facts.cfg_edge@.len(),
            facts.within(sizes),
            liveness.matches(facts, sizes),
            relations_wf(relations@, sizes),
            start.len() == sizes.points,
            sound(facts, sizes, family_of(relations@)),
            seeded(facts, family_of(relations@)),
            family_of(relations@) == swept(facts, sizes, start, k as int),
            below(start, family_of(relations@)),
            total(family_of(relations@)) >= total(start),
            changed ==> total(family_of(relations@)) > total(start),
            !changed ==> family_of(relations@) == start,
            !changed ==> forall|i: int|
                0 <= i < k ==> #[trigger] edge_held(facts, sizes, family_of(relations@), i),
        decreases facts.cfg_edge@.len() - k,
    {
        let ghost before = family_of(relations@);
        let grew = step(relations, facts, sizes, liveness, k);
        proof {
            let after = family_of(relations@);
            let p = facts.cfg_edge@[k as int].1.index as int;
            assert(facts.table_within(sizes, Table::CfgEdge));
            assert(facts.row_within(sizes, Table::CfgEdge, k as int));
            lemma_step_sound(facts, sizes, before, k as int);
            lemma_family_within(relations@, sizes);
            lemma_total_update(before, p, after[p]);
            assert(before.update(p, after[p]) =~= after);
            assert(before[p].subset_of(after[p]));
            lemma_growth(before[p], after[p], sizes.regions as int);
            assert forall|i: int| 0 <= i < facts.outlives@.len() implies #[trigger] outlives_held(
                facts,
                after,
                i,
            ) by {
                assert(outlives_held(facts, before, i));
                assert(facts.table_within(sizes, Table::Outlives));
                assert(facts.row_within(sizes, Table::Outlives, i));
                let q = facts.outlives@[i].2.index as int;
                assert(before[q].subset_of(after[q]));
            }
            assert forall|q: int| 0 <= q < start.len() implies (#[trigger] start[q]).subset_of(
                after[q],
            ) by {
                assert(start[q].subset_of(before[q]));
                assert(before[q].subset_of(after[q]));
            }
            if grew {
                assert(before[p] != after[p]) by {
                    if before[p] == after[p] {
                        assert(before =~= after);
                    }
                }
            } else {
                assert(edge_held(facts, sizes, after, k as int));
            }
        }
        changed = changed || grew;
        k = k + 1;
    }
    changed
}

/// The subset relation at each point: starts from relations that hold the
/// outlives facts of their point and hands on along the control-flow edges,
/// pass after pass, until no relation grows.
pub fn propagate<SR: SubsetRelation>(
    facts: &AllFacts,
    sizes: TableSizes,
    liveness: &Liveness,
) -> (relations: Vec<SR>)
    requires
        facts.within(sizes),
        liveness.matches(facts, sizes),
    ensures
        relations_wf(relations@, sizes),
        forall|p: int|
            0 <= p < sizes.points ==> (#[trigger] relations@[p]).pairs() == subset_at(
                facts,
                sizes,
                p,
            ),
{
    let mut relations: Vec<SR> = Vec::new();
    let mut p: usize = 0;
    while p < sizes.points
        invariant
            p <= sizes.points,
            relations@.len() == p,
            forall|q: int|
                0 <= q < p ==> (#[trigger] relations@[q]).wf() && relations@[q].num_regions()
                    == sizes.regions && relations@[q].pairs() == Set::<(int, int)>::empty(),
        decreases sizes.points - p,
    {
        relations.push(SR::empty(sizes.regions));
        p = p + 1;
    }
    proof {
        assert forall|other: Seq<Set<(int, int)>>| #[trigger]
            closed(facts, sizes, other) implies below(family_of(relations@), other) by {}
        assert(facts.table_within(sizes, Table::Outlives));
    }
    let mut k: usize = 0;
    while k < facts.outlives.len()
        invariant
            k <= facts.outlives@.len(),
            facts.table_within(sizes, Table::Outlives),
            relations_wf(relations@, sizes),
            sound(facts, sizes, family_of(relations@)),
            forall|i: int| 0 <= i < k ==> #[trigger] outlives_held(facts, family_of(relations@), i),
        decreases facts.outlives@.len() - k,
    {
        let fact = facts.outlives[k];
        let ghost before = family_of(relations@);
        proof {
            assert(facts.row_within(sizes, Table::Outlives, k as int));
            lemma_seed_sound(facts, sizes, before, k as int);
        }
        let held = &mut relations[fact.2.index];
        held.insert_one(fact.0, fact.1);
        proof {
            let after = family_of(relations@);
            let q = fact.2.index as int;
            assert(after =~= before.update(
                q,
                before[q].insert((fact.0.index as int, fact.1.index as int)),
            ));
            assert forall|i: int| 0 <= i < k + 1 implies #[trigger] outlives_held(
                facts,
                after,
                i,
            ) by {
                assert(facts.row_within(sizes, Table::Outlives, i));
                if i < k {
                    assert(outlives_held(facts, before, i));
                    let t = facts.outlives@[i].2.index as int;
                    assert(before[t].subset_of(after[t]));
                }
            }
        }
        k = k + 1;
    }
    loop
        invariant
            facts.within(sizes),
            liveness.matches(facts, sizes),
            relations_wf(relations@, sizes),
            sound(facts, sizes, family_of(relations@)),
            seeded(facts, family_of(relations@)),
        ensures
            relations_wf(relations@, sizes),
            sound(facts, sizes, family_of(relations@)),
            closed(facts, sizes, family_of(relations@)),
        decreases sizes.points * (sizes.regions * sizes.regions) - total(family_of(relations@)),
    {
        let changed = sweep(&mut relations, facts, sizes, liveness);
        proof {
            lemma_family_within(relations@, sizes);
        }
        if !changed {
            break ;
        }
    }
    proof {
        assert forall|p: int| 0 <= p < sizes.points implies (#[trigger] relations@[p]).pairs()
            == subset_at(facts, sizes, p) by {
            lemma_least(facts, sizes, family_of(relations@), p);
        }
    }
    relations
}

/// The control-flow graph that loan `loan` flows along: the points as nodes,
/// and the control-flow edges that leave a point at which the loan is not killed.
pub fn loan_graph(
    facts: &AllFacts,
    sizes: TableSizes,
    killed_flags: &Vec<Vec<bool>>,
    loan: Loan,
) -> (graph: Relation<StdVec>)
    requires
        facts.within(sizes),
        loan.index < sizes.loans,
        killed_flags@.len() == sizes.points,
        forall|p: int|
            0 <= p < sizes.points ==> (#[trigger] killed_flags@[p])@ == killed_row(facts, sizes, p),
    ensures
        graph.wf(),
        graph@.num_nodes == sizes.points,
        graph@.pairs() == loan_flow(facts, loan.index as int),
{
    let ghost l = loan.index as int;
    let mut graph: Relation<StdVec> = Relation::new(sizes.points);
    let mut i: usize = 0;
    proof {
        assert(facts.table_within(sizes, Table::CfgEdge));
        assert forall|a: int, b: int| !graph@.pairs().contains((a, b)) by {
            if graph@.contains(a, b) {
                let e = choose|e: int| graph@.edge_at(e, a, b);
            }
        }
    }
    while i < facts.cfg_edge.len()
        invariant
            i <= facts.cfg_edge@.len(),
            facts.table_within(sizes, Table::CfgEdge),
            l == loan.index,
            loan.index < sizes.loans,
            killed_flags@.len() == sizes.points,
            forall|p: int|
                0 <= p < sizes.points ==> (#[trigger] killed_flags@[p])@ == killed_row(
                    facts,
                    sizes,
                    p,
                ),
            graph.wf(),
            graph@.num_nodes == sizes.points,
            forall|a: int, b: int| #[trigger]
                graph@.pairs().contains((a, b)) <==> (!killed(facts, l, a) && exists|k: int|
                    0 <= k < i && (#[trigger] facts.cfg_edge@[k]).0.index == a
                        && facts.cfg_edge@[k].1.index == b),
        decreases facts.cfg_edge@.len() - i,
    {
        let edge = facts.cfg_edge[i];
        let ghost before = graph@.pairs();
        assert(facts.row_within(sizes, Table::CfgEdge, i as int));
        assert(killed_flags@[edge.0.index as int]@[l] == killed(facts, l, edge.0.index as int)) by {
            assert(killed_flags@[edge.0.index as int]@ == killed_row(
                facts,
                sizes,
                edge.0.index as int,
            ));
        }
        if !killed_flags[edge.0.index][loan.index] {
            graph.add_edge(NodeIndex::from(edge.0.index), NodeIndex::from(edge.1.index));
        }
        proof {
            assert forall|a: int, b: int| #[trigger]
                graph@.pairs().contains((a, b)) <==> (!killed(facts, l, a) && exists|k: int|
                    0 <= k < i + 1 && (#[trigger] facts.cfg_edge@[k]).0.index == a
                        && facts.cfg_edge@[k].1.index == b) by {
                if a == edge.0.index && b == edge.1.index {
                    assert(facts.cfg_edge@[i as int].0.index == a);
                } else {
                    assert(graph@.pairs().contains((a, b)) <==> before.contains((a, b)));
                }
            }
        }
        i = i + 1;
    }
    proof {
        assert(graph@.pairs() =~= loan_flow(facts, l));
    }
    graph
}

/// Whether `region` reaches, along the pairs of `relation`, a region that
/// `live_flags` marks as live.
pub fn reaches_live_region<SR: SubsetRelation>(
    relation: &SR,
    live_flags: &Vec<bool>,
    region: Region,
) -> (found: bool)
    requires
        relation.wf(),
        region.index < relation.num_regions(),
    ensures
        found <==> exists|x: int| #[trigger]
            reachable(relation.pairs(), region.index as int, x) && 0 <= x < live_flags@.len()
                && live_flags@[x],
{
    let regions = relation.reachable_from(region);
    let ghost reached = region_positions(regions@);
    let mut i: usize = 0;
    while i < regions.len()
        invariant
            i <= regions@.len(),
            reached == region_positions(regions@),
            forall|x: int|
                reached.contains(x) <==> reachable(relation.pairs(), region.index as int, x),
            forall|k: int|
                0 <= k < i ==> !((#[trigger] reached[k]) < live_flags@.len()
                    && live_flags@[reached[k]]),
        decreases regions@.len() - i,
    {
        let x = regions[i].index;
        assert(reached[i as int] == x);
        if x < live_flags.len() && live_flags[x] {
            assert(reached.contains(x as int));
            return true;
        }
        i = i + 1;
    }
    proof {
        if exists|x: int| #[trigger]
            reachable(relation.pairs(), region.index as int, x) && 0 <= x < live_flags@.len()
                && live_flags@[x] {
            let x = choose|x: int| #[trigger]
                reachable(relation.pairs(), region.index as int, x) && 0 <= x < live_flags@.len()
                    && live_flags@[x];
            assert(reached.contains(x));
            let k = choose|k: int| 0 <= k < reached.len() && reached[k] == x;
            assert(!(reached[k] < live_flags@.len() && live_flags@[reached[k]]));
        }
    }
    false
}

/// Whether `region` reaches, along the subset relation at `point`, a region
/// live at `point`.
pub fn region_reaches_live<SR: SubsetRelation>(
    facts: &AllFacts,
    sizes: TableSizes,
    liveness: &Liveness,
    relations: &Vec<SR>,
    point: usize,
    region: Region,
) -> (found: bool)
    requires
        liveness.matches(facts, sizes),
        relations_wf(relations@, sizes),
        point < sizes.points,
        region.index < sizes.regions,
        relations@[point as int].pairs() == subset_at(facts, sizes, point as int),
    ensures
        found == reaches_live(facts, sizes, point as int, region.index as int),
{
    assert(liveness.flags@[point as int]@ == live_row(facts, sizes, point as int));
    let found = reaches_live_region(&relations[point], &liveness.flags[point], region);
    proof {
        let pairs = subset_at(facts, sizes, point as int);
        let r = region.index as int;
        let row = liveness.flags@[point as int]@;
        if found {
            let x = choose|x: int| #[trigger]
                reachable(pairs, r, x) && 0 <= x < row.len() && row[x];
            assert(reachable(pairs, r, x) && 0 <= x < sizes.regions && live(
                facts,
                point as int,
                x,
            ));
        }
        if reaches_live(facts, sizes, point as int, r) {
            let x = choose|x: int| #[trigger]
                reachable(pairs, r, x) && 0 <= x < sizes.regions && live(facts, point as int, x);
            assert(reachable(pairs, r, x) && 0 <= x < row.len() && row[x]);
        }
    }
    found
}

/// Some of the first `count` borrow facts makes loan `l` live at point `p`.
pub open spec fn made_live(facts: &AllFacts, sizes: TableSizes, count: int, p: int, l: int) -> bool {
    exists|i: int|
        0 <= i < count && (#[trigger] facts.borrow_region@[i]).1.index == l && borrow_reaches(
            facts,
            sizes,
            i,
            p,
        )
}

proof fn lemma_made_live_next(facts: &AllFacts, sizes: TableSizes, count: int, p: int, l: int)
    requires
        0 <= count < facts.borrow_region@.len(),
    ensures
        made_live(facts, sizes, count + 1, p, l) <==> (made_live(facts, sizes, count, p, l) || (
        facts.borrow_region@[count].1.index == l && borrow_reaches(facts, sizes, count, p))),
{
    if made_live(facts, sizes, count + 1, p, l) {
        let i = choose|i: int|
            0 <= i < count + 1 && (#[trigger] facts.borrow_region@[i]).1.index == l
                && borrow_reaches(facts, sizes, i, p);
        if i < count {
            assert(made_live(facts, sizes, count, p, l));
        }
    }
    if made_live(facts, sizes, count, p, l) {
        let i = choose|i: int|
            0 <= i < count && (#[trigger] facts.borrow_region@[i]).1.index == l && borrow_reaches(
                facts,
                sizes,
                i,
                p,
            );
        assert(0 <= i < count + 1);
    }
    if facts.borrow_region@[count].1.index == l && borrow_reaches(facts, sizes, count, p) {
        assert(0 <= count < count + 1);
    }
}

/// `p` is one of the first `count` entries of `met`.
pub open spec fn among(met: Seq<int>, count: int, p: int) -> bool {
    exists|i: int| 0 <= i < count && #[trigger] met[i] == p
}

/// Marks the loan of borrow fact `k` as live at each point at which that
/// fact makes it live.
fn note_borrow<SR: SubsetRelation>(
    flags: &mut Vec<Vec<bool>>,
    facts: &AllFacts,
    sizes: TableSizes,
    liveness: &Liveness,
    killed_flags: &Vec<Vec<bool>>,
    relations: &Vec<SR>,
    k: usize,
)
    requires
        facts.within(sizes),
        liveness.matches(facts, sizes),
        killed_flags@.len() == sizes.points,
        forall|p: int|
            0 <= p < sizes.points ==> (#[trigger] killed_flags@[p])@ == killed_row(facts, sizes, p),
        relations_wf(relations@, sizes),
        forall|p: int|
            0 <= p < sizes.points ==> (#[trigger] relations@[p]).pairs() == subset_at(
                facts,
                sizes,
                p,
            ),
        k < facts.borrow_region@.len(),
        old(flags)@.len() == sizes.points,
        forall|p: int| 0 <= p < sizes.points ==> (#[trigger] old(flags)@[p])@.len() == sizes.loans,
    ensures
        final(flags)@.len() == sizes.points,
        forall|p: int| 0 <= p < sizes.points ==> (#[trigger] final(flags)@[p])@.len() == sizes.loans,
        forall|p: int, l: int|
            0 <= p < sizes.points && 0 <= l < sizes.loans ==> (#[trigger] final(flags)@[p]@[l] <==> (
            old(flags)@[p]@[l] || (l == facts.borrow_region@[k as int].1.index && borrow_reaches(
                facts,
                sizes,
                k as int,
                p,
            )))),
{
    let fact = facts.borrow_region[k];
    proof {
        assert(facts.table_within(sizes, Table::BorrowRegion));
        assert(facts.row_within(sizes, Table::BorrowRegion, k as int));
    }
    let ghost l0 = fact.1.index as int;
    let ghost r0 = fact.0.index as int;
    let ghost flow = loan_flow(facts, l0);
    let graph = loan_graph(facts, sizes, killed_flags, fact.1);
    let points = depth_first(&graph, NodeIndex::from(fact.2.index));
    let ghost met = positions(points@);
    let ghost start = flags@;
    let mut j: usize = 0;
    while j < points.len()
        invariant
            j <= points@.len(),
            fact.0.index < sizes.regions,
            fact.1.index < sizes.loans,
            l0 == fact.1.index,
            r0 == fact.0.index,
            liveness.matches(facts, sizes),
            relations_wf(relations@, sizes),
            forall|p: int|
                0 <= p < sizes.points ==> (#[trigger] relations@[p]).pairs() == subset_at(
                    facts,
                    sizes,
                    p,
                ),
            met == positions(points@),
            forall|i: int|
                0 <= i < points@.len() ==> 0 <= (#[trigger] points@[i]).index() < sizes.points,
            flags@.len() == sizes.points,
            forall|p: int| 0 <= p < sizes.points ==> (#[trigger] flags@[p])@.len() == sizes.loans,
            forall|p: int, l: int|
                0 <= p < sizes.points && 0 <= l < sizes.loans ==> (#[trigger] flags@[p]@[l] <==> (
                start[p]@[l] || (l == l0 && reaches_live(facts, sizes, p, r0) && among(
                    met,
                    j as int,
                    p,
                )))),
        decreases points@.len() - j,
    {
        let point = points[j].to_usize();
        let ghost before = flags@;
        assert(met[j as int] == point);
        let found = region_reaches_live(facts, sizes, liveness, relations, point, fact.0);
        if found {
            mark(flags, point, fact.1.index);
        }
        proof {
            assert forall|p: int, l: int|
                0 <= p < sizes.points && 0 <= l < sizes.loans implies (#[trigger] flags@[p]@[l]
                <==> (start[p]@[l] || (l == l0 && reaches_live(facts, sizes, p, r0) && among(
                met,
                j + 1,
                p,
            )))) by {
                assert(before[p]@[l] <==> (start[p]@[l] || (l == l0 && reaches_live(
                    facts,
                    sizes,
                    p,
                    r0,
                ) && among(met, j as int, p))));
                if p == point {
                    assert(met[j as int] == p);
                    assert(among(met, j + 1, p));
                } else {
                    assert(flags@[p] == before[p]);
                    if among(met, j + 1, p) {
                        let i = choose|i: int| 0 <= i < j + 1 && #[trigger] met[i] == p;
                        assert(0 <= i < j);
                    }
                }
                if among(met, j as int, p) {
                    let i = choose|i: int| 0 <= i < j && #[trigger] met[i] == p;
                    assert(0 <= i < j + 1);
                }
                if p == point && l != l0 {
                    assert(flags@[p]@[l] == before[p]@[l]);
                }
            }
        }
        j = j + 1;
    }
    proof {
        assert forall|p: int, l: int|
            0 <= p < sizes.points && 0 <= l < sizes.loans implies (#[trigger] flags@[p]@[l] <==> (
        start[p]@[l] || (l == facts.borrow_region@[k as int].1.index && borrow_reaches(
            facts,
            sizes,
            k as int,
            p,
        )))) by {
            assert(met.contains(p) <==> reachable(flow, fact.2.index as int, p));
            if among(met, j as int, p) {
                let i = choose|i: int| 0 <= i < j && #[trigger] met[i] == p;
                assert(met.contains(p));
            }
            if met.contains(p) {
                let i = choose|i: int| 0 <= i < met.len() && met[i] == p;
                assert(among(met, j as int, p));
            }
        }
    }
}

/// For each point, for each loan, whether the loan is live at the point.
pub fn live_loans<SR: SubsetRelation>(
    facts: &AllFacts,
    sizes: TableSizes,
    liveness: &Liveness,
    killed_flags: &Vec<Vec<bool>>,
    relations: &Vec<SR>,
) -> (flags: Vec<Vec<bool>>)
    requires
        facts.within(sizes),
        liveness.matches(facts, sizes),
        killed_flags@.len() == sizes.points,
        forall|p: int|
            0 <= p < sizes.points ==> (#[trigger] killed_flags@[p])@ == killed_row(facts, sizes, p),
        relations_wf(relations@, sizes),
        forall|p: int|
            0 <= p < sizes.points ==> (#[trigger] relations@[p]).pairs() == subset_at(
                facts,
                sizes,
                p,
            ),
    ensures
        flags@.len() == sizes.points,
        forall|p: int|
            0 <= p < sizes.points ==> (#[trigger] flags@[p])@ == live_loans_row(facts, sizes, p),
{
    let mut flags = blank(sizes.points, sizes.loans);
    let mut k: usize = 0;
    proof {
        assert forall|p: int, l: int|
            0 <= p < sizes.points && 0 <= l < sizes.loans implies (#[trigger] flags@[p]@[l])
            == made_live(facts, sizes, 0, p, l) by {}
    }
    while k < facts.borrow_region.len()
        invariant
            k <= facts.borrow_region@.len(),
            facts.within(sizes),
            liveness.matches(facts, sizes),
            killed_flags@.len() == sizes.points,
            forall|p: int|
                0 <= p < sizes.points ==> (#[trigger] killed_flags@[p])@ == killed_row(
                    facts,
                    sizes,
                    p,
                ),
            relations_wf(relations@, sizes),
            forall|p: int|
                0 <= p < sizes.points ==> (#[trigger] relations@[p]).pairs() == subset_at(
                    facts,
                    sizes,
                    p,
                ),
            flags@.len() == sizes.points,
            forall|p: int| 0 <= p < sizes.points ==> (#[trigger] flags@[p])@.len() == sizes.loans,
            forall|p: int, l: int|
                0 <= p < sizes.points && 0 <= l < sizes.loans ==> (#[trigger] flags@[p]@[l])
                    == made_live(facts, sizes, k as int, p, l),
        decreases facts.borrow_region@.len() - k,
    {
        let ghost before = flags@;
        note_borrow(&mut flags, facts, sizes, liveness, killed_flags, relations, k);
        proof {
            assert forall|p: int, l: int|
                0 <= p < sizes.points && 0 <= l < sizes.loans implies (#[trigger] flags@[p]@[l])
                == made_live(facts, sizes, k + 1, p, l) by {
                lemma_made_live_next(facts, sizes, k as int, p, l);
                assert(before[p]@[l] == made_live(facts, sizes, k as int, p, l));
            }
        }
        k = k + 1;
    }
    proof {
        assert forall|p: int| 0 <= p < sizes.points implies (#[trigger] flags@[p])@
            == live_loans_row(facts, sizes, p) by {
            assert forall|l: int| 0 <= l < sizes.loans implies flags@[p]@[l] == live_loans_row(
                facts,
                sizes,
                p,
            )[l] by {
                assert(flags@[p]@[l] == made_live(
                    facts,
                    sizes,
                    facts.borrow_region@.len() as int,
                    p,
                    l,
                ));
            }
            assert(flags@[p]@ =~= live_loans_row(facts, sizes, p));
        }
    }
    flags
}

/// Some row pairs the region at position `a` with the region at position `b`.
pub open spec fn related(rows: Seq<(Region, Region)>, a: int, b: int) -> bool {
    exists|i: int| 0 <= i < rows.len() && (#[trigger] rows[i]).0.index == a && rows[i].1.index == b
}

/// The pairs of a region and another region that it reaches along the pairs
/// of `relation`, region by region.
pub fn closure_rows<SR: SubsetRelation>(relation: &SR, num_regions: usize) -> (rows: Vec<
    (Region, Region),
>)
    requires
        relation.wf(),
        relation.num_regions() == num_regions,
    ensures
        rows@.no_duplicates(),
        forall|a: int, b: int| #[trigger]
            related(rows@, a, b) <==> 0 <= a < num_regions && a != b && reachable(
                relation.pairs(),
                a,
                b,
            ),
{
    let mut rows: Vec<(Region, Region)> = Vec::new();
    let mut r: usize = 0;
    while r < num_regions
        invariant
            r <= num_regions,
            relation.wf(),
            relation.num_regions() == num_regions,
            rows@.no_duplicates(),
            forall|k: int| 0 <= k < rows@.len() ==> (#[trigger] rows@[k]).0.index < r,
            forall|a: int, b: int| #[trigger]
                related(rows@, a, b) <==> 0 <= a < r && a != b && reachable(relation.pairs(), a, b),
        decreases num_regions - r,
    {
        let region = Region { index: r };
        let reached = relation.reachable_from(region);
        let ghost met = region_positions(reached@);
        let ghost start = rows@;
        let mut i: usize = 1;
        while i < reached.len()
            invariant
                1 <= i <= reached@.len(),
                region.index == r,
                met == region_positions(reached@),
                met.no_duplicates(),
                met[0] == r,
                rows@.no_duplicates(),
                rows@.len() == start.len() + i - 1,
                forall|k: int| 0 <= k < start.len() ==> (#[trigger] rows@[k]).0.index < r,
                forall|k: int|
                    start.len() <= k < rows@.len() ==> #[trigger] rows@[k] == (
                        region,
                        reached@[k - start.len() + 1],
                    ),
                forall|a: int, b: int| #[trigger]
                    related(rows@, a, b) <==> related(start, a, b) || (a == r && exists|k: int|
                        1 <= k < i && #[trigger] met[k] == b),
            decreases reached@.len() - i,
        {
            let ghost before = rows@;
            rows.push((region, reached[i]));
            proof {
                assert(met[i as int] == reached@[i as int].index);
                assert forall|x: int, y: int|
                    0 <= x < rows@.len() && 0 <= y < rows@.len() && x != y implies rows@[x]
                    != rows@[y] by {
                    if x < before.len() && y < before.len() {
                        assert(before[x] != before[y]);
                    } else {
                        let low = if x < y {
                            x
                        } else {
                            y
                        };
                        if low >= start.len() {
                            assert(met[low - start.len() + 1] != met[i as int]);
                        } else {
                            assert(before[low].0.index < r);
                        }
                    }
                }
                assert forall|a: int, b: int| #[trigger]
                    related(rows@, a, b) <==> related(start, a, b) || (a == r && exists|k: int|
                        1 <= k < i + 1 && #[trigger] met[k] == b) by {
                    if related(rows@, a, b) {
                        let j = choose|j: int|
                            0 <= j < rows@.len() && (#[trigger] rows@[j]).0.index == a
                                && rows@[j].1.index == b;
                        if j < before.len() {
                            assert(before[j] == rows@[j]);
                            assert(related(before, a, b));
                            if !related(start, a, b) {
                                let k = choose|k: int| 1 <= k < i && #[trigger] met[k] == b;
                                assert(1 <= k < i + 1);
                            }
                        } else {
                            assert(met[i as int] == b);
                        }
                    }
                    if related(before, a, b) {
                        let j = choose|j: int|
                            0 <= j < before.len() && (#[trigger] before[j]).0.index == a
                                && before[j].1.index == b;
                        assert(rows@[j] == before[j]);
                    }
                    if a == r && exists|k: int| 1 <= k < i + 1 && #[trigger] met[k] == b {
                        let k = choose|k: int| 1 <= k < i + 1 && #[trigger] met[k] == b;
                        if k == i {
                            assert(rows@[before.len() as int].0.index == a);
                        } else {
                            assert(related(before, a, b));
                        }
                    }
                }
            }
            i = i + 1;
        }
        proof {
            assert forall|a: int, b: int| #[trigger]
                related(rows@, a, b) <==> 0 <= a < r + 1 && a != b && reachable(
                    relation.pairs(),
                    a,
                    b,
                ) by {
                assert(related(start, a, b) <==> 0 <= a < r && a != b && reachable(
                    relation.pairs(),
                    a,
                    b,
                ));
                if a == r {
                    assert(met.contains(b) <==> reachable(relation.pairs(), r as int, b));
                    if exists|k: int| 1 <= k < i && #[trigger] met[k] == b {
                        let k = choose|k: int| 1 <= k < i && #[trigger] met[k] == b;
                        assert(met.contains(b));
                        assert(met[k] != met[0]);
                    }
                    if met.contains(b) && b != r {
                        let k = choose|k: int| 0 <= k < met.len() && met[k] == b;
                        assert(1 <= k < i && met[k] == b);
                    }
                }
            }
        }
        r = r + 1;
    }
    rows
}

/// Some row says that the region at position `x` restricts the loan at position `l`.
pub open spec fn restricting(rows: Seq<(Region, Loan)>, x: int, l: int) -> bool {
    exists|i: int| 0 <= i < rows.len() && (#[trigger] rows[i]).0.index == x && rows[i].1.index == l
}

/// Whether some row says that `region` restricts `loan`.
fn has_row(rows: &Vec<(Region, Loan)>, region: Region, loan: Loan) -> (found: bool)
    ensures
        found == restricting(rows@, region.index as int, loan.index as int),
        !found ==> !rows@.contains((region, loan)),
{
    let mut i: usize = 0;
    while i < rows.len()
        invariant
            i <= rows@.len(),
            forall|k: int|
                0 <= k < i ==> !((#[trigger] rows@[k]).0.index == region.index && rows@[k].1.index
                    == loan.index),
        decreases rows@.len() - i,
    {
        if rows[i].0.index == region.index && rows[i].1.index == loan.index {
            return true;
        }
        i = i + 1;
    }
    false
}

/// Adds to the rows of `point` a row for each of `regions` with `loan`,
/// unless the row is there already.
fn note_restricts(
    rows: &mut Vec<Vec<(Region, Loan)>>,
    point: usize,
    regions: &Vec<Region>,
    loan: Loan,
)
    requires
        point < old(rows)@.len(),
        old(rows)@[point as int]@.no_duplicates(),
    ensures
        final(rows)@.len() == old(rows)@.len(),
        final(rows)@[point as int]@.no_duplicates(),
        forall|p: int| 0 <= p < old(rows)@.len() && p != point ==> final(rows)@[p] == old(rows)@[p],
        forall|x: int, l: int| #[trigger]
            restricting(final(rows)@[point as int]@, x, l) <==> restricting(
                old(rows)@[point as int]@,
                x,
                l,
            ) || (l == loan.index && region_positions(regions@).contains(x)),
{
    let ghost met = region_positions(regions@);
    let ghost start = rows@[point as int]@;
    let mut i: usize = 0;
    while i < regions.len()
        invariant
            i <= regions@.len(),
            point < rows@.len(),
            rows@.len() == old(rows)@.len(),
            met == region_positions(regions@),
            start == old(rows)@[point as int]@,
            rows@[point as int]@.no_duplicates(),
            forall|p: int| 0 <= p < rows@.len() && p != point ==> rows@[p] == old(rows)@[p],
            forall|x: int, l: int| #[trigger]
                restricting(rows@[point as int]@, x, l) <==> restricting(start, x, l) || (l
                    == loan.index && among(met, i as int, x)),
        decreases regions@.len() - i,
    {
        let ghost before = rows@[point as int]@;
        let region = regions[i];
        if !has_row(&rows[point], region, loan) {
            let row = &mut rows[point];
            row.push((region, loan));
            assert(rows@[point as int]@.no_duplicates()) by {
                let now = rows@[point as int]@;
                assert forall|x: int, y: int|
                    0 <= x < now.len() && 0 <= y < now.len() && x != y implies now[x]
                    != now[y] by {
                    if x < before.len() && y < before.len() {
                        assert(before[x] != before[y]);
                    } else if x < before.len() {
                        assert(before.contains(before[x]));
                    } else {
                        assert(before.contains(before[y]));
                    }
                }
            }
        }
        proof {
            let now = rows@[point as int]@;
            assert(met[i as int] == region.index);
            assert(now == before || now == before.push((region, loan)));
            assert forall|x: int, l: int| #[trigger]
                restricting(now, x, l) <==> restricting(start, x, l) || (l == loan.index && among(
                    met,
                    i + 1,
                    x,
                )) by {
                assert(restricting(before, x, l) <==> restricting(start, x, l) || (l == loan.index
                    && among(met, i as int, x)));
                if restricting(now, x, l) {
                    let j = choose|j: int|
                        0 <= j < now.len() && (#[trigger] now[j]).0.index == x && now[j].1.index
                            == l;
                    if j < before.len() {
                        assert(before[j] == now[j]);
                        assert(restricting(before, x, l));
                    } else {
                        assert(met[i as int] == x);
                        assert(among(met, i + 1, x));
                    }
                }
                if x == region.index && l == loan.index {
                    assert(among(met, i + 1, x));
                    if now == before {
                        assert(restricting(before, x, l));
                    } else {
                        assert(now[before.len() as int].0.index == x);
                    }
                }
                if restricting(before, x, l) {
                    let j = choose|j: int|
                        0 <= j < before.len() && (#[trigger] before[j]).0.index == x
                            && before[j].1.index == l;
                    assert(now[j] == before[j]);
                }
                if among(met, i as int, x) {
                    let j = choose|j: int| 0 <= j < i && #[trigger] met[j] == x;
                    assert(0 <= j < i + 1);
                }
                if l == loan.index && among(met, i + 1, x) {
                    let j = choose|j: int| 0 <= j < i + 1 && #[trigger] met[j] == x;
                    if j == i {
                        assert(x == region.index);
                    } else {
                        assert(0 <= j < i);
                        assert(among(met, i as int, x));
                    }
                }
            }
        }
        i = i + 1;
    }
    proof {
        assert forall|x: int| among(met, i as int, x) <==> met.contains(x) by {
            if among(met, i as int, x) {
                let j = choose|j: int| 0 <= j < i && #[trigger] met[j] == x;
                assert(met.contains(x));
            }
            if met.contains(x) {
                let j = choose|j: int| 0 <= j < met.len() && met[j] == x;
                assert(0 <= j < i && met[j] == x);
            }
        }
    }
}

/// Adds, for each point that the loan of borrow fact `k` flows to, a row for
/// each region that the region of the fact reaches there.
fn note_borrow_restricts<SR: SubsetRelation>(
    rows: &mut Vec<Vec<(Region, Loan)>>,
    facts: &AllFacts,
    sizes: TableSizes,
    killed_flags: &Vec<Vec<bool>>,
    relations: &Vec<SR>,
    k: usize,
)
    requires
        facts.within(sizes),
        killed_flags@.len() == sizes.points,
        forall|p: int|
            0 <= p < sizes.points ==> (#[trigger] killed_flags@[p])@ == killed_row(facts, sizes, p),
        relations_wf(relations@, sizes),
        forall|p: int|
            0 <= p < sizes.points ==> (#[trigger] relations@[p]).pairs() == subset_at(
                facts,
                sizes,
                p,
            ),
        k < facts.borrow_region@.len(),
        old(rows)@.len() == sizes.points,
        forall|p: int| 0 <= p < sizes.points ==> (#[trigger] old(rows)@[p])@.no_duplicates(),
    ensures
        final(rows)@.len() == sizes.points,
        forall|p: int| 0 <= p < sizes.points ==> (#[trigger] final(rows)@[p])@.no_duplicates(),
        forall|p: int, x: int, l: int|
            0 <= p < sizes.points ==> (#[trigger] restricting(final(rows)@[p]@, x, l) <==> (
            restricting(old(rows)@[p]@, x, l) || (l == facts.borrow_region@[k as int].1.index
                && borrow_restricts(facts, sizes, k as int, p, x)))),
{
    let fact = facts.borrow_region[k];
    proof {
        assert(facts.table_within(sizes, Table::BorrowRegion));
        assert(facts.row_within(sizes, Table::BorrowRegion, k as int));
    }
    let ghost l0 = fact.1.index as int;
    let ghost r0 = fact.0.index as int;
    let ghost flow = loan_flow(facts, l0);
    let graph = loan_graph(facts, sizes, killed_flags, fact.1);
    let points = depth_first(&graph, NodeIndex::from(fact.2.index));
    let ghost met = positions(points@);
    let ghost start = rows@;
    let mut j: usize = 0;
    while j < points.len()
        invariant
            j <= points@.len(),
            fact.0.index < sizes.regions,
            l0 == fact.1.index,
            r0 == fact.0.index,
            relations_wf(relations@, sizes),
            forall|p: int|
                0 <= p < sizes.points ==> (#[trigger] relations@[p]).pairs() == subset_at(
                    facts,
                    sizes,
                    p,
                ),
            met == positions(points@),
            met.no_duplicates(),
            forall|i: int|
                0 <= i < points@.len() ==> 0 <= (#[trigger] points@[i]).index() < sizes.points,
            rows@.len() == sizes.points,
            start.len() == sizes.points,
            forall|p: int| 0 <= p < sizes.points ==> (#[trigger] rows@[p])@.no_duplicates(),
            forall|p: int|
                0 <= p < sizes.points && !among(met, j as int, p) ==> #[trigger] rows@[p]
                    == start[p],
            forall|p: int, x: int, l: int|
                0 <= p < sizes.points && among(met, j as int, p) ==> (#[trigger] restricting(
                    rows@[p]@,
                    x,
                    l,
                ) <==> (restricting(start[p]@, x, l) || (l == l0 && reachable(
                    subset_at(facts, sizes, p),
                    r0,
                    x,
                )))),
        decreases points@.len() - j,
    {
        let point = points[j].to_usize();
        let ghost before = rows@;
        proof {
            assert(met[j as int] == point);
            if among(met, j as int, point as int) {
                let i = choose|i: int| 0 <= i < j && #[trigger] met[i] == point as int;
                assert(met[i] == met[j as int]);
            }
        }
        let regions = relations[point].reachable_from(fact.0);
        note_restricts(rows, point, &regions, fact.1);
        proof {
            assert forall|p: int| 0 <= p < sizes.points implies (#[trigger] rows@[p])@.no_duplicates() by {
                if p != point {
                    assert(rows@[p] == before[p]);
                }
            }
            assert forall|p: int| 0 <= p < sizes.points && !among(met, j + 1, p) implies
                #[trigger] rows@[p] == start[p] by {
                if among(met, j as int, p) {
                    let i = choose|i: int| 0 <= i < j && #[trigger] met[i] == p;
                    assert(0 <= i < j + 1);
                }
                if p == point {
                    assert(met[j as int] == p);
                    assert(among(met, j + 1, p));
                }
            }
            assert forall|p: int, x: int, l: int|
                0 <= p < sizes.points && among(met, j + 1, p) implies (#[trigger] restricting(
                rows@[p]@,
                x,
                l,
            ) <==> (restricting(start[p]@, x, l) || (l == l0 && reachable(
                subset_at(facts, sizes, p),
                r0,
                x,
            )))) by {
                if p == point {
                    assert(before[p] == start[p]);
                    assert(restricting(rows@[point as int]@, x, l) <==> restricting(
                        before[point as int]@,
                        x,
                        l,
                    ) || (l == fact.1.index && region_positions(regions@).contains(x)));
                    assert(region_positions(regions@).contains(x) <==> reachable(
                        relations@[p].pairs(),
                        r0,
                        x,
                    ));
                } else {
                    let i = choose|i: int| 0 <= i < j + 1 && #[trigger] met[i] == p;
                    assert(0 <= i < j);
                    assert(among(met, j as int, p));
                    assert(rows@[p] == before[p]);
                    assert(restricting(before[p]@, x, l) <==> (restricting(start[p]@, x, l) || (l
                        == l0 && reachable(subset_at(facts, sizes, p), r0, x))));
                }
            }
        }
        j = j + 1;
    }
    proof {
        assert forall|p: int, x: int, l: int| 0 <= p < sizes.points implies (
        #[trigger] restricting(rows@[p]@, x, l) <==> (restricting(start[p]@, x, l) || (l
            == facts.borrow_region@[k as int].1.index && borrow_restricts(
            facts,
            sizes,
            k as int,
            p,
            x,
        )))) by {
            assert(met.contains(p) <==> reachable(flow, fact.2.index as int, p));
            if among(met, j as int, p) {
                let i = choose|i: int| 0 <= i < j && #[trigger] met[i] == p;
                assert(met.contains(p));
            } else {
                assert(rows@[p] == start[p]);
            }
            if met.contains(p) {
                let i = choose|i: int| 0 <= i < met.len() && met[i] == p;
                assert(0 <= i < j && met[i] == p);
                assert(among(met, j as int, p));
            }
        }
    }
}

/// For each point, the rows `(region, loan)` of the regions that restrict a loan there.
pub fn restricts_rows<SR: SubsetRelation>(
    facts: &AllFacts,
    sizes: TableSizes,
    killed_flags: &Vec<Vec<bool>>,
    relations: &Vec<SR>,
) -> (rows: Vec<Vec<(Region, Loan)>>)
    requires
        facts.within(sizes),
        killed_flags@.len() == sizes.points,
        forall|p: int|
            0 <= p < sizes.points ==> (#[trigger] killed_flags@[p])@ == killed_row(facts, sizes, p),
        relations_wf(relations@, sizes),
        forall|p: int|
            0 <= p < sizes.points ==> (#[trigger] relations@[p]).pairs() == subset_at(
                facts,
                sizes,
                p,
            ),
    ensures
        rows@.len() == sizes.points,
        forall|p: int| 0 <= p < sizes.points ==> (#[trigger] rows@[p])@.no_duplicates(),
        forall|p: int, x: int, l: int|
            0 <= p < sizes.points ==> (#[trigger] restricting(rows@[p]@, x, l) <==> restricts(
                facts,
                sizes,
                p,
                x,
                l,
            )),
{
    let mut rows: Vec<Vec<(Region, Loan)>> = Vec::new();
    let mut p: usize = 0;
    while p < sizes.points
        invariant
            p <= sizes.points,
            rows@.len() == p,
            forall|q: int| 0 <= q < p ==> (#[trigger] rows@[q])@.len() == 0,
        decreases sizes.points - p,
    {
        rows.push(Vec::new());
        p = p + 1;
    }
    let mut k: usize = 0;
    while k < facts.borrow_region.len()
        invariant
            k <= facts.borrow_region@.len(),
            facts.within(sizes),
            killed_flags@.len() == sizes.points,
            forall|p: int|
                0 <= p < sizes.points ==> (#[trigger] killed_flags@[p])@ == killed_row(
                    facts,
                    sizes,
                    p,
                ),
            relations_wf(relations@, sizes),
            forall|p: int|
                0 <= p < sizes.points ==> (#[trigger] relations@[p]).pairs() == subset_at(
                    facts,
                    sizes,
                    p,
                ),
            rows@.len() == sizes.points,
            forall|p: int| 0 <= p < sizes.points ==> (#[trigger] rows@[p])@.no_duplicates(),
            forall|p: int, x: int, l: int|
                0 <= p < sizes.points ==> (#[trigger] restricting(rows@[p]@, x, l)
                    <==> restricts_upto(facts, sizes, k as int, p, x, l)),
        decreases facts.borrow_region@.len() - k,
    {
        let ghost before = rows@;
        note_borrow_restricts(&mut rows, facts, sizes, killed_flags, relations, k);
        proof {
            assert forall|p: int, x: int, l: int| 0 <= p < sizes.points implies (
            #[trigger] restricting(rows@[p]@, x, l) <==> restricts_upto(
                facts,
                sizes,
                k + 1,
                p,
                x,
                l,
            )) by {
                assert(restricting(before[p]@, x, l) <==> restricts_upto(
                    facts,
                    sizes,
                    k as int,
                    p,
                    x,
                    l,
                ));
                if restricts_upto(facts, sizes, k + 1, p, x, l) {
                    let i = choose|i: int|
                        0 <= i < k + 1 && (#[trigger] facts.borrow_region@[i]).1.index == l
                            && borrow_restricts(facts, sizes, i, p, x);
                    if i < k {
                        assert(restricts_upto(facts, sizes, k as int, p, x, l));
                    }
                }
                if restricts_upto(facts, sizes, k as int, p, x, l) {
                    let i = choose|i: int|
                        0 <= i < k && (#[trigger] facts.borrow_region@[i]).1.index == l
                            && borrow_restricts(facts, sizes, i, p, x);
                    assert(0 <= i < k + 1);
                }
                if l == facts.borrow_region@[k as int].1.index && borrow_restricts(
                    facts,
                    sizes,
                    k as int,
                    p,
                    x,
                ) {
                    assert(0 <= k < k + 1);
                }
            }
        }
        k = k + 1;
    }
    rows
}

} // verus!
