use borrow_check::indices::NodeIndex;
use borrow_check::relation::Relation;
use borrow_check::vec_family::StdVec;

type StdVecRelation = Relation<StdVec>;

#[test]
fn add() {
    let n0: NodeIndex = NodeIndex::from(0);
    let n1: NodeIndex = NodeIndex::from(1);
    let n2: NodeIndex = NodeIndex::from(2);
    let mut r = StdVecRelation::new(3);

    r.add_edge(n0, n1);
    r.add_edge(n1, n2);

    assert!(borrow_check::relation::test(&r, &["N(0) --E(0)--> N(1)", "N(1) --E(1)--> N(2)"]));
}

#[test]
fn add_remove_1() {
    let n0: NodeIndex = NodeIndex::from(0);
    let n1: NodeIndex = NodeIndex::from(1);
    let n2: NodeIndex = NodeIndex::from(2);
    let mut r = StdVecRelation::new(3);

    r.add_edge(n0, n1);
    r.add_edge(n1, n2);
    r.remove_edges(n1);

    assert!(borrow_check::relation::test(&r, &["N(0) --E(0)--> N(2)", "free edge E(1)"]));
}

#[test]
fn add_remove_0() {
    let n0: NodeIndex = NodeIndex::from(0);
    let n1: NodeIndex = NodeIndex::from(1);
    let n2: NodeIndex = NodeIndex::from(2);
    let mut r = StdVecRelation::new(3);

    r.add_edge(n0, n1);
    r.add_edge(n1, n2);
    r.remove_edges(n0);

    assert!(borrow_check::relation::test(&r, &["N(1) --E(1)--> N(2)", "free edge E(0)"]));
}

#[test]
fn add_remove_2() {
    let n0: NodeIndex = NodeIndex::from(0);
    let n1: NodeIndex = NodeIndex::from(1);
    let n2: NodeIndex = NodeIndex::from(2);
    let mut r = StdVecRelation::new(3);

    r.add_edge(n0, n1);
    r.add_edge(n1, n2);
    r.remove_edges(n2);

    assert!(borrow_check::relation::test(&r, &["N(0) --E(0)--> N(1)", "free edge E(1)"]));
}

#[test]
fn add_cycle() {
    let n0: NodeIndex = NodeIndex::from(0);
    let n1: NodeIndex = NodeIndex::from(1);
    let n2: NodeIndex = NodeIndex::from(2);
    let mut r = StdVecRelation::new(3);

    r.add_edge(n0, n1);
    r.add_edge(n1, n2);
    r.add_edge(n2, n0);

    assert!(borrow_check::relation::test(
        &r,
        &["N(0) --E(0)--> N(1)", "N(1) --E(1)--> N(2)", "N(2) --E(2)--> N(0)"]
    ));
}

#[test]
fn add_remove_cycle() {
    let n0: NodeIndex = NodeIndex::from(0);
    let n1: NodeIndex = NodeIndex::from(1);
    let n2: NodeIndex = NodeIndex::from(2);
    let mut r = StdVecRelation::new(3);

    r.add_edge(n0, n1);
    r.add_edge(n1, n2);
    r.add_edge(n2, n0);
    r.remove_edges(n1);

    assert!(borrow_check::relation::test(
        &r,
        &["N(0) --E(0)--> N(2)", "N(2) --E(2)--> N(0)", "free edge E(1)"]
    ));
}

#[test]
fn add_remove_cycle_out() {
    let n0: NodeIndex = NodeIndex::from(0);
    let n1: NodeIndex = NodeIndex::from(1);
    let n2: NodeIndex = NodeIndex::from(2);
    let mut r = StdVecRelation::new(3);

    r.add_edge(n0, n1);
    r.add_edge(n1, n2);
    r.add_edge(n2, n0);
    println!("{:#?}", r.dump_and_assert());
    r.remove_edges(n1);
    println!("{:#?}", r.dump_and_assert());
    r.remove_edges(n0);
    println!("{:#?}", r.dump_and_assert());
}

// Graph From:
// 0 --> 1
// 1 --> 2
// 1 --> 3
//
// Graph To:
// 0 --> 2
// 0 --> 3
#[test]
fn remove_one_incoming_two_outgoing() {
    let n0: NodeIndex = NodeIndex::from(0);
    let n1: NodeIndex = NodeIndex::from(1);
    let n2: NodeIndex = NodeIndex::from(2);
    let n3: NodeIndex = NodeIndex::from(3);
    let mut r = StdVecRelation::new(4);

    r.add_edge(n0, n1);
    r.add_edge(n1, n2);
    r.add_edge(n1, n3);

    println!("{:#?}", r.dump_and_assert());

    r.remove_edges(n1);
}

// Graph From:
// 0 --> 1
// 1 --> 2
// 3 --> 2
//
// Graph To:
// 0 --> 2
// 3 --> 2
//
#[test]
fn add_remove_complex_1() {
    let n0: NodeIndex = NodeIndex::from(0);
    let n1: NodeIndex = NodeIndex::from(1);
    let n2: NodeIndex = NodeIndex::from(2);
    let n3: NodeIndex = NodeIndex::from(3);

    let mut r = StdVecRelation::new(4);

    r.add_edge(n0, n1);
    r.add_edge(n1, n2);
    r.add_edge(n3, n2);

    r.remove_edges(n1);

    assert!(borrow_check::relation::test(
        &r,
        &["N(0) --E(0)--> N(2)", "N(3) --E(2)--> N(2)", "free edge E(1)"]
    ));
}

fn nodes(count: usize) -> Vec<NodeIndex> {
    (0..count).map(NodeIndex::from).collect()
}

// Graph from: 0 --> 2, 1 --> 2, 4 --> 2, 2 --> 3.
// Graph to:   0 --> 3, 1 --> 3, 4 --> 3.
#[test]
fn contract_three_incoming_one_outgoing() {
    let n = nodes(5);
    let mut r = StdVecRelation::new(5);

    r.add_edge(n[0], n[2]);
    r.add_edge(n[1], n[2]);
    r.add_edge(n[4], n[2]);
    r.add_edge(n[2], n[3]);
    r.remove_edges(n[2]);

    assert!(borrow_check::relation::test(
        &r,
        &[
            "N(0) --E(0)--> N(3)",
            "N(1) --E(1)--> N(3)",
            "N(4) --E(2)--> N(3)",
            "free edge E(3)",
        ]
    ));
}

// Graph from: 0 --> 1, 1 --> 2, 1 --> 3.
// Graph to:   0 --> 2, 0 --> 3.
#[test]
fn contract_one_incoming_two_outgoing() {
    let n = nodes(4);
    let mut r = StdVecRelation::new(4);

    r.add_edge(n[0], n[1]);
    r.add_edge(n[1], n[2]);
    r.add_edge(n[1], n[3]);
    r.remove_edges(n[1]);

    assert!(borrow_check::relation::test(
        &r,
        &["N(0) --E(1)--> N(3)", "N(0) --E(0)--> N(2)", "free edge E(2)"]
    ));
}

// Contracting two nodes of a cycle of three leaves a loop at the third.
#[test]
fn contract_two_of_cycle() {
    let n = nodes(3);
    let mut r = StdVecRelation::new(3);

    r.add_edge(n[0], n[1]);
    r.add_edge(n[1], n[2]);
    r.add_edge(n[2], n[0]);
    r.remove_edges(n[1]);
    r.remove_edges(n[0]);

    assert!(borrow_check::relation::test(
        &r,
        &["N(2) --E(2)--> N(2)", "free edge E(0)", "free edge E(1)"]
    ));
}

#[test]
fn contract_node_with_loop() {
    let n = nodes(3);
    let mut r = StdVecRelation::new(3);

    r.add_edge(n[0], n[1]);
    r.add_edge(n[1], n[1]);
    r.add_edge(n[1], n[2]);
    r.remove_edges(n[1]);

    assert!(borrow_check::relation::test(
        &r,
        &["N(0) --E(0)--> N(2)", "free edge E(1)", "free edge E(2)"]
    ));
    assert_eq!(r.successors(n[0]), vec![n[2]]);
    assert_eq!(r.successors(n[1]), vec![]);
}

#[test]
fn contraction_keeps_pairs_single() {
    let n = nodes(3);
    let mut r = StdVecRelation::new(3);

    // 0 --> 2 is there already when the contraction of 1 asks for it.
    assert!(r.add_edge(n[0], n[2]));
    assert!(r.add_edge(n[0], n[1]));
    assert!(r.add_edge(n[1], n[2]));
    r.remove_edges(n[1]);

    assert!(borrow_check::relation::test(
        &r,
        &["N(0) --E(0)--> N(2)", "free edge E(1)", "free edge E(2)"]
    ));
}

#[test]
fn empty_relation_dumps_nothing() {
    let r = StdVecRelation::new(3);
    assert_eq!(r.num_nodes(), 3);
    assert!(r.dump_and_assert().is_empty());
    assert!(borrow_check::relation::test(&r, &[]));
    let none = StdVecRelation::new(0);
    assert_eq!(none.num_nodes(), 0);
    assert!(none.dump_and_assert().is_empty());
}

#[test]
fn test_tells_a_wrong_dump() {
    let n = nodes(2);
    let mut r = StdVecRelation::new(2);
    r.add_edge(n[0], n[1]);

    assert!(borrow_check::relation::test(&r, &["N(0) --E(0)--> N(1)"]));
    assert!(!borrow_check::relation::test(&r, &["N(0) --E(0)--> N(0)"]));
    assert!(!borrow_check::relation::test(&r, &[]));
    assert!(!borrow_check::relation::test(
        &r,
        &["N(0) --E(0)--> N(1)", "free edge E(1)"]
    ));
}

#[test]
fn add_edge_twice_is_refused() {
    let n = nodes(3);
    let mut r = StdVecRelation::new(3);

    assert!(r.add_edge(n[0], n[1]));
    let before = r.dump_and_assert();
    assert!(!r.add_edge(n[0], n[1]));
    assert_eq!(r.dump_and_assert(), before);
    assert_eq!(before, vec!["N(0) --E(0)--> N(1)".to_string()]);
}

#[test]
fn remove_edges_twice_changes_nothing() {
    let n = nodes(3);
    let mut r = StdVecRelation::new(3);

    r.add_edge(n[0], n[1]);
    r.add_edge(n[1], n[2]);
    r.remove_edges(n[1]);
    let once = r.dump_and_assert();
    r.remove_edges(n[1]);
    assert_eq!(r.dump_and_assert(), once);
    assert_eq!(
        once,
        vec!["N(0) --E(0)--> N(2)".to_string(), "free edge E(1)".to_string()]
    );
}

#[test]
fn successors_come_newest_first() {
    let n = nodes(4);
    let mut r = StdVecRelation::new(4);

    r.add_edge(n[0], n[1]);
    r.add_edge(n[0], n[2]);
    r.add_edge(n[0], n[3]);

    assert_eq!(r.successors(n[0]), vec![n[3], n[2], n[1]]);
    assert_eq!(r.successors(n[1]), vec![]);
    assert!(borrow_check::relation::test(
        &r,
        &[
            "N(0) --E(2)--> N(3)",
            "N(0) --E(1)--> N(2)",
            "N(0) --E(0)--> N(1)",
        ]
    ));
}

#[test]
fn freed_slots_are_taken_newest_first() {
    let n = nodes(4);
    let mut r = StdVecRelation::new(4);

    r.add_edge(n[0], n[1]);
    r.add_edge(n[0], n[2]);
    r.remove_edges(n[0]);
    assert_eq!(
        r.dump_and_assert(),
        vec!["free edge E(0)".to_string(), "free edge E(1)".to_string()]
    );

    assert!(r.add_edge(n[2], n[3]));
    assert_eq!(
        r.dump_and_assert(),
        vec!["N(2) --E(0)--> N(3)".to_string(), "free edge E(1)".to_string()]
    );
    assert!(r.add_edge(n[3], n[2]));
    assert!(r.add_edge(n[3], n[0]));
    assert_eq!(
        r.dump_and_assert(),
        vec![
            "N(2) --E(0)--> N(3)".to_string(),
            "N(3) --E(2)--> N(0)".to_string(),
            "N(3) --E(1)--> N(2)".to_string(),
        ]
    );
}

#[test]
fn dump_writes_numbers_in_decimal() {
    let n = nodes(120);
    let mut r = StdVecRelation::new(120);

    for i in 0..11 {
        r.add_edge(n[i], n[i + 1]);
    }
    r.add_edge(n[100], n[119]);
    r.add_edge(n[119], n[7]);
    r.remove_edges(n[119]);
    let lines = r.dump_and_assert();

    assert_eq!(lines.len(), 13);
    assert_eq!(lines[0], "N(0) --E(0)--> N(1)");
    assert_eq!(lines[10], "N(10) --E(10)--> N(11)");
    assert_eq!(lines[11], "N(100) --E(11)--> N(7)");
    assert_eq!(lines[12], "free edge E(12)");
}

#[test]
fn clone_is_independent() {
    let n = nodes(3);
    let mut r = StdVecRelation::new(3);
    r.add_edge(n[0], n[1]);
    r.add_edge(n[1], n[2]);

    let mut copy = r.clone();
    assert_eq!(copy.dump_and_assert(), r.dump_and_assert());
    copy.remove_edges(n[1]);

    assert!(borrow_check::relation::test(
        &r,
        &["N(0) --E(0)--> N(1)", "N(1) --E(1)--> N(2)"]
    ));
    assert!(borrow_check::relation::test(
        &copy,
        &["N(0) --E(0)--> N(2)", "free edge E(1)"]
    ));
}

#[test]
fn degrees_count_the_edges_at_a_node() {
    let n = nodes(4);
    let mut r = StdVecRelation::new(4);
    r.add_edge(n[0], n[2]);
    r.add_edge(n[1], n[2]);
    r.add_edge(n[2], n[3]);
    r.add_edge(n[2], n[2]);

    assert_eq!(r.in_degree(n[2]), 3);
    assert_eq!(r.out_degree(n[2]), 2);
    assert_eq!(r.in_degree(n[0]), 0);
    assert_eq!(r.out_degree(n[0]), 1);
    assert_eq!(r.in_degree(n[3]), 1);
    assert_eq!(r.out_degree(n[3]), 0);
}

#[test]
fn every_slot_is_used_or_free() {
    let n = nodes(5);
    let mut r = StdVecRelation::new(5);
    for i in 0..5 {
        for j in 0..5 {
            r.add_edge(n[i], n[j]);
        }
    }
    assert_eq!(r.dump_and_assert().len(), 25);
    r.remove_edges(n[2]);
    let lines = r.dump_and_assert();
    let used = lines.iter().filter(|l| l.starts_with("N(")).count();
    let free = lines.iter().filter(|l| l.starts_with("free edge")).count();
    assert_eq!(used, 16);
    assert_eq!(free, 9);
    assert_eq!(used + free, lines.len());
    assert!(lines.iter().all(|l| !l.contains("N(2)")));
    let mut seen: Vec<&String> = lines.iter().collect();
    seen.sort();
    seen.dedup();
    assert_eq!(seen.len(), lines.len());
}
