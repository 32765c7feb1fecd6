use borrow_check::dataflow::{closure_rows, live_loans, loan_graph, propagate, step, sweep};
use borrow_check::edge_relation::EdgeSubsetRelation;
use borrow_check::facts::{AllFacts, FactError, Loan, Point, Region, Table, TableSizes};
use borrow_check::indices::NodeIndex;
use borrow_check::liveness::{killed_loans, region_liveness, regions_where, Liveness};
use borrow_check::output::{edge, Algorithm, ComputeError, Elapsed, Output};
use borrow_check::reach::depth_first;
use borrow_check::subset::SubsetRelation;

fn r(i: usize) -> Region {
    Region::from(i)
}

fn p(i: usize) -> Point {
    Point::from(i)
}

fn l(i: usize) -> Loan {
    Loan::from(i)
}

fn no_facts() -> AllFacts {
    AllFacts {
        borrow_region: vec![],
        universal_region: vec![],
        cfg_edge: vec![],
        killed: vec![],
        outlives: vec![],
        region_live_at: vec![],
    }
}

// Three points in a row. Loan 0 is made at point 0 and killed at point 1;
// loan 1 is made at point 1.
fn straight_line() -> (TableSizes, AllFacts) {
    let sizes = TableSizes { regions: 3, points: 3, loans: 2 };
    let facts = AllFacts {
        borrow_region: vec![(r(0), l(0), p(0)), (r(2), l(1), p(1))],
        universal_region: vec![],
        cfg_edge: vec![(p(0), p(1)), (p(1), p(2))],
        killed: vec![(l(0), p(1))],
        outlives: vec![(r(0), r(1), p(0)), (r(1), r(2), p(1))],
        region_live_at: vec![(r(0), p(0)), (r(0), p(1)), (r(2), p(1)), (r(2), p(2))],
    };
    (sizes, facts)
}

// Region 0 outlives region 1, which outlives region 2, at point 0; region 1
// is dead at point 1, the others live on.
fn through_a_dead_region() -> (TableSizes, AllFacts) {
    let sizes = TableSizes { regions: 3, points: 2, loans: 1 };
    let facts = AllFacts {
        borrow_region: vec![(r(0), l(0), p(0))],
        universal_region: vec![],
        cfg_edge: vec![(p(0), p(1))],
        killed: vec![],
        outlives: vec![(r(0), r(1), p(0)), (r(1), r(2), p(0))],
        region_live_at: vec![(r(2), p(0)), (r(0), p(1)), (r(2), p(1))],
    };
    (sizes, facts)
}

fn loans_at(output: &Output, point: usize) -> Vec<usize> {
    output.borrows_in_scope_at(p(point)).iter().map(|loan| loan.index).collect()
}

fn pairs_at(output: &Output, point: usize) -> Vec<(usize, usize)> {
    output.subsets_at(p(point)).iter().map(|(a, b)| (a.index, b.index)).collect()
}

fn restricts_at(output: &Output, point: usize) -> Vec<(usize, usize)> {
    let mut rows: Vec<(usize, usize)> =
        output.restricts_at(p(point)).iter().map(|(x, loan)| (x.index, loan.index)).collect();
    rows.sort();
    rows
}

fn fault(result: Result<Output, FactError>) -> FactError {
    match result {
        Ok(_) => panic!("the facts were taken"),
        Err(error) => error,
    }
}

#[test]
fn loans_are_live_along_the_flow_until_killed() {
    let (sizes, facts) = straight_line();
    let output = match Output::compute(sizes, &facts, Algorithm::BespokeEdge, false) {
        Ok(output) => output,
        Err(error) => panic!("{:?}", error),
    };

    assert_eq!(loans_at(&output, 0), vec![0]);
    assert_eq!(loans_at(&output, 1), vec![0, 1]);
    assert_eq!(loans_at(&output, 2), vec![1]);
    assert_eq!(loans_at(&output, 3), Vec::<usize>::new());
}

#[test]
fn a_loan_is_live_where_its_region_reaches_a_live_region() {
    let (sizes, facts) = through_a_dead_region();
    let output = edge(sizes, false, &facts).ok().unwrap();

    // At point 0 only region 2 is live, which region 0 reaches through region 1.
    assert_eq!(loans_at(&output, 0), vec![0]);
    assert_eq!(loans_at(&output, 1), vec![0]);
}

#[test]
fn a_loan_is_not_live_where_no_region_it_reaches_is() {
    let (sizes, mut facts) = through_a_dead_region();
    facts.region_live_at = vec![(r(1), p(1))];
    let output = edge(sizes, false, &facts).ok().unwrap();

    assert_eq!(loans_at(&output, 0), Vec::<usize>::new());
    assert_eq!(loans_at(&output, 1), Vec::<usize>::new());

    // A universal region is live everywhere.
    facts.universal_region = vec![r(0)];
    let output = edge(sizes, false, &facts).ok().unwrap();
    assert_eq!(loans_at(&output, 0), vec![0]);
    assert_eq!(loans_at(&output, 1), vec![0]);
}

#[test]
fn a_dead_region_is_contracted_out_along_an_edge() {
    let (sizes, facts) = through_a_dead_region();
    let output = edge(sizes, true, &facts).ok().unwrap();

    assert_eq!(pairs_at(&output, 0), vec![(0, 1), (0, 2), (1, 2)]);
    assert_eq!(pairs_at(&output, 1), vec![(0, 2)]);
    assert_eq!(pairs_at(&output, 2), vec![]);
    assert_eq!(output.subset().len(), 2);

    let live0: Vec<usize> = output.regions_live_at(p(0)).iter().map(|x| x.index).collect();
    let live1: Vec<usize> = output.regions_live_at(p(1)).iter().map(|x| x.index).collect();
    assert_eq!(live0, vec![2]);
    assert_eq!(live1, vec![0, 2]);
    assert!(output.regions_live_at(p(2)).is_empty());

    assert_eq!(restricts_at(&output, 0), vec![(0, 0), (1, 0), (2, 0)]);
    assert_eq!(restricts_at(&output, 1), vec![(0, 0), (2, 0)]);
    assert!(output.restricts_at(p(7)).is_empty());
}

#[test]
fn degrees_are_tracked_when_dumps_are_asked_for() {
    let (sizes, facts) = through_a_dead_region();
    let output = edge(sizes, true, &facts).ok().unwrap();
    let degrees = output.region_degrees();

    // Point 0 holds 0 --> 1 --> 2, point 1 holds 0 --> 2.
    assert_eq!(degrees.max_in_degree(), 1);
    assert_eq!(degrees.max_out_degree(), 1);
    assert!(!degrees.has_multidegree());
    let (histogram_in, histogram_out) = degrees.histogram();
    assert_eq!(histogram_in, vec![3, 3]);
    assert_eq!(histogram_out, vec![3, 3]);

    let quiet = edge(sizes, false, &facts).ok().unwrap();
    assert_eq!(quiet.region_degrees().max_in_degree(), 0);
    assert_eq!(quiet.region_degrees().histogram(), (vec![], vec![]));
}

#[test]
fn the_same_facts_give_the_same_loans() {
    let (sizes, facts) = straight_line();
    let first = edge(sizes, true, &facts).ok().unwrap();
    let second = edge(sizes, true, &facts).ok().unwrap();
    for point in 0..sizes.points {
        assert_eq!(loans_at(&first, point), loans_at(&second, point));
        assert_eq!(pairs_at(&first, point), pairs_at(&second, point));
    }
}

#[test]
fn a_loop_in_the_flow_reaches_a_fixpoint() {
    // 0 --> 1 --> 2 --> 1: what point 2 adds comes back to point 1.
    let sizes = TableSizes { regions: 3, points: 3, loans: 1 };
    let facts = AllFacts {
        borrow_region: vec![(r(0), l(0), p(0))],
        universal_region: vec![r(0), r(1), r(2)],
        cfg_edge: vec![(p(2), p(1)), (p(1), p(2)), (p(0), p(1))],
        killed: vec![],
        outlives: vec![(r(0), r(1), p(0)), (r(1), r(2), p(2))],
        region_live_at: vec![],
    };
    let output = edge(sizes, true, &facts).ok().unwrap();

    assert_eq!(pairs_at(&output, 0), vec![(0, 1)]);
    assert_eq!(pairs_at(&output, 1), vec![(0, 1), (0, 2), (1, 2)]);
    assert_eq!(pairs_at(&output, 2), vec![(0, 1), (0, 2), (1, 2)]);
    for point in 0..3 {
        assert_eq!(loans_at(&output, point), vec![0]);
    }
}

#[test]
fn only_the_edge_analysis_is_available() {
    let (sizes, facts) = straight_line();
    for algorithm in [Algorithm::Naive, Algorithm::BespokeMatrix] {
        match Output::compute(sizes, &facts, algorithm, false) {
            Ok(_) => panic!("there is an output"),
            Err(error) => assert_eq!(error, ComputeError::Unavailable(algorithm)),
        }
    }
    let mut broken = no_facts();
    broken.killed = vec![(l(9), p(0))];
    match Output::compute(sizes, &broken, Algorithm::BespokeEdge, false) {
        Ok(_) => panic!("there is an output"),
        Err(error) => {
            assert_eq!(error, ComputeError::Facts(FactError { table: Table::Killed, row: 0 }))
        }
    }
    match Output::compute(sizes, &broken, Algorithm::Naive, false) {
        Ok(_) => panic!("there is an output"),
        Err(error) => assert_eq!(error, ComputeError::Unavailable(Algorithm::Naive)),
    }
}

#[test]
fn no_facts_give_no_loans() {
    let sizes = TableSizes { regions: 0, points: 0, loans: 0 };
    let output = edge(sizes, true, &no_facts()).ok().unwrap();
    assert_eq!(loans_at(&output, 0), Vec::<usize>::new());
    assert!(output.subset().is_empty());

    let sizes = TableSizes { regions: 2, points: 2, loans: 2 };
    let output = edge(sizes, false, &no_facts()).ok().unwrap();
    assert_eq!(loans_at(&output, 0), Vec::<usize>::new());
    assert_eq!(loans_at(&output, 1), Vec::<usize>::new());
}

#[test]
fn validate_names_the_first_row_out_of_range() {
    let sizes = TableSizes { regions: 2, points: 3, loans: 1 };
    assert_eq!(no_facts().validate(sizes), Ok(()));
    let (fine_sizes, fine) = straight_line();
    assert_eq!(fine.validate(fine_sizes), Ok(()));

    let mut facts = no_facts();
    facts.region_live_at = vec![(r(1), p(2)), (r(1), p(3)), (r(2), p(0))];
    assert_eq!(
        facts.validate(sizes),
        Err(FactError { table: Table::RegionLiveAt, row: 1 })
    );
    facts.outlives = vec![(r(0), r(1), p(0)), (r(0), r(2), p(0))];
    assert_eq!(facts.validate(sizes), Err(FactError { table: Table::Outlives, row: 1 }));
    facts.outlives = vec![(r(0), r(1), p(3))];
    assert_eq!(facts.validate(sizes), Err(FactError { table: Table::Outlives, row: 0 }));
    facts.killed = vec![(l(0), p(2)), (l(1), p(0))];
    assert_eq!(facts.validate(sizes), Err(FactError { table: Table::Killed, row: 1 }));
    facts.cfg_edge = vec![(p(0), p(1)), (p(1), p(2)), (p(2), p(3))];
    assert_eq!(facts.validate(sizes), Err(FactError { table: Table::CfgEdge, row: 2 }));
    facts.cfg_edge = vec![(p(3), p(0))];
    assert_eq!(facts.validate(sizes), Err(FactError { table: Table::CfgEdge, row: 0 }));
    facts.universal_region = vec![r(2)];
    assert_eq!(
        facts.validate(sizes),
        Err(FactError { table: Table::UniversalRegion, row: 0 })
    );
    facts.borrow_region = vec![(r(1), l(0), p(2)), (r(1), l(1), p(2))];
    assert_eq!(
        facts.validate(sizes),
        Err(FactError { table: Table::BorrowRegion, row: 1 })
    );
    facts.borrow_region = vec![(r(2), l(0), p(0))];
    assert_eq!(
        facts.validate(sizes),
        Err(FactError { table: Table::BorrowRegion, row: 0 })
    );
    facts.borrow_region = vec![(r(0), l(0), p(3))];
    assert_eq!(fault(edge(sizes, false, &facts)), FactError { table: Table::BorrowRegion, row: 0 });
}

#[test]
fn tables_have_names() {
    assert_eq!(Table::BorrowRegion.name(), "borrow_region");
    assert_eq!(Table::UniversalRegion.name(), "universal_region");
    assert_eq!(Table::CfgEdge.name(), "cfg_edge");
    assert_eq!(Table::Killed.name(), "killed");
    assert_eq!(Table::Outlives.name(), "outlives");
    assert_eq!(Table::RegionLiveAt.name(), "region_live_at");
}

#[test]
fn liveness_lists_live_and_dead_regions() {
    let (sizes, mut facts) = straight_line();
    facts.universal_region = vec![r(1)];
    let flags = region_liveness(&facts, sizes);
    assert_eq!(
        flags,
        vec![vec![true, true, false], vec![true, true, true], vec![false, true, true]]
    );
    let liveness = Liveness::compute(&facts, sizes);
    assert_eq!(liveness.flags, flags);
    assert_eq!(liveness.live_regions, vec![vec![r(0), r(1)], vec![r(0), r(1), r(2)], vec![r(1), r(2)]]);
    assert_eq!(liveness.dead_regions, vec![vec![r(2)], vec![], vec![r(0)]]);
    assert_eq!(regions_where(&vec![true, false, true, false], false), vec![r(1), r(3)]);
    assert_eq!(regions_where(&vec![], true), vec![]);

    assert_eq!(
        killed_loans(&facts, sizes),
        vec![vec![false, false], vec![true, false], vec![false, false]]
    );
}

#[test]
fn a_loan_flows_along_the_edges_that_leave_no_kill() {
    let (sizes, facts) = straight_line();
    let killed = killed_loans(&facts, sizes);

    let flow0 = loan_graph(&facts, sizes, &killed, l(0));
    assert_eq!(flow0.dump_and_assert(), vec!["N(0) --E(0)--> N(1)".to_string()]);
    let flow1 = loan_graph(&facts, sizes, &killed, l(1));
    assert_eq!(
        flow1.dump_and_assert(),
        vec!["N(0) --E(0)--> N(1)".to_string(), "N(1) --E(1)--> N(2)".to_string()]
    );
    assert_eq!(
        depth_first(&flow1, NodeIndex::from(0)),
        vec![NodeIndex::from(0), NodeIndex::from(1), NodeIndex::from(2)]
    );
    assert_eq!(depth_first(&flow0, NodeIndex::from(2)), vec![NodeIndex::from(2)]);
}

#[test]
fn the_fixpoint_is_reached_pass_by_pass() {
    let (sizes, facts) = through_a_dead_region();
    let liveness = Liveness::compute(&facts, sizes);
    let mut relations: Vec<EdgeSubsetRelation> =
        vec![EdgeSubsetRelation::empty(3), EdgeSubsetRelation::empty(3)];
    relations[0].insert_one(r(0), r(1));
    relations[0].insert_one(r(1), r(2));

    assert!(step(&mut relations, &facts, sizes, &liveness, 0));
    assert!(!step(&mut relations, &facts, sizes, &liveness, 0));
    assert!(!sweep(&mut relations, &facts, sizes, &liveness));
    assert_eq!(closure_rows(&relations[1], 3), vec![(r(0), r(2))]);

    let fixed: Vec<EdgeSubsetRelation> = propagate(&facts, sizes, &liveness);
    assert_eq!(closure_rows(&fixed[0], 3), vec![(r(0), r(1)), (r(0), r(2)), (r(1), r(2))]);
    assert_eq!(closure_rows(&fixed[1], 3), vec![(r(0), r(2))]);

    let killed = killed_loans(&facts, sizes);
    assert_eq!(
        live_loans(&facts, sizes, &liveness, &killed, &fixed),
        vec![vec![true], vec![true]]
    );
}

#[test]
fn the_duration_is_what_was_noted() {
    let mut output = Output::new(false);
    assert_eq!(output.duration(), Elapsed { secs: 0, nanos: 0 });
    output.set_duration(Elapsed { secs: 1, nanos: 500_000_000 });
    assert_eq!(output.duration(), Elapsed { secs: 1, nanos: 500_000_000 });
    assert!(output.borrows_in_scope_at(p(0)).is_empty());

    let (sizes, facts) = straight_line();
    let computed = edge(sizes, false, &facts).ok().unwrap();
    assert_eq!(computed.duration(), Elapsed { secs: 0, nanos: 0 });
}

#[test]
fn the_output_says_whether_dumps_were_asked_for() {
    let (sizes, facts) = straight_line();
    assert!(edge(sizes, true, &facts).ok().unwrap().dump_enabled());
    assert!(!edge(sizes, false, &facts).ok().unwrap().dump_enabled());
    assert!(Output::new(true).dump_enabled());
    assert!(!Output::new(false).dump_enabled());
}

#[test]
fn no_row_of_a_table_occurs_twice() {
    // Two borrow facts of one loan, with regions that reach the same regions.
    let sizes = TableSizes { regions: 3, points: 2, loans: 1 };
    let facts = AllFacts {
        borrow_region: vec![(r(0), l(0), p(0)), (r(1), l(0), p(0)), (r(0), l(0), p(0))],
        universal_region: vec![r(2)],
        cfg_edge: vec![(p(0), p(1)), (p(0), p(1))],
        killed: vec![],
        outlives: vec![(r(0), r(1), p(0)), (r(1), r(2), p(0)), (r(0), r(1), p(0))],
        region_live_at: vec![(r(0), p(1))],
    };
    let output = edge(sizes, true, &facts).ok().unwrap();

    assert_eq!(restricts_at(&output, 0), vec![(0, 0), (1, 0), (2, 0)]);
    assert_eq!(output.restricts_at(p(0)).len(), 3);
    assert_eq!(restricts_at(&output, 1), vec![(0, 0), (1, 0), (2, 0)]);
    assert_eq!(output.restricts_at(p(1)).len(), 3);
    assert_eq!(pairs_at(&output, 0), vec![(0, 1), (0, 2), (1, 2)]);
    assert_eq!(pairs_at(&output, 1), vec![(0, 2)]);
    assert_eq!(loans_at(&output, 0), vec![0]);
    assert_eq!(loans_at(&output, 1), vec![0]);
}
