use borrow_check::edge_relation::EdgeSubsetRelation;
use borrow_check::facts::Region;
use borrow_check::subset::SubsetRelation;

fn regions(indices: &[usize]) -> Vec<Region> {
    indices.iter().map(|&i| Region::from(i)).collect()
}

fn reached(relation: &EdgeSubsetRelation, from: usize) -> Vec<usize> {
    relation
        .reachable_from(Region::from(from))
        .iter()
        .map(|r| r.index)
        .collect()
}

fn sorted(mut v: Vec<usize>) -> Vec<usize> {
    v.sort();
    v
}

#[test]
fn insert_one_says_whether_the_pair_is_new() {
    let mut s = EdgeSubsetRelation::empty(3);
    assert!(s.insert_one(Region::from(0), Region::from(1)));
    assert!(!s.insert_one(Region::from(0), Region::from(1)));
    assert!(s.insert_one(Region::from(1), Region::from(0)));
    assert_eq!(
        s.relation().dump_and_assert(),
        vec!["N(0) --E(0)--> N(1)".to_string(), "N(1) --E(1)--> N(0)".to_string()]
    );
}

#[test]
fn reachable_from_starts_with_the_region_itself() {
    let mut s = EdgeSubsetRelation::empty(5);
    assert_eq!(reached(&s, 3), vec![3]);
    s.insert_one(Region::from(0), Region::from(1));
    s.insert_one(Region::from(1), Region::from(2));
    s.insert_one(Region::from(2), Region::from(0));
    s.insert_one(Region::from(3), Region::from(0));

    assert_eq!(reached(&s, 0), vec![0, 1, 2]);
    assert_eq!(reached(&s, 3), vec![3, 0, 1, 2]);
    assert_eq!(reached(&s, 4), vec![4]);
}

#[test]
fn reachable_from_takes_the_oldest_successor_first() {
    let mut s = EdgeSubsetRelation::empty(4);
    s.insert_one(Region::from(0), Region::from(1));
    s.insert_one(Region::from(0), Region::from(2));
    s.insert_one(Region::from(1), Region::from(3));
    s.insert_one(Region::from(2), Region::from(3));

    assert_eq!(reached(&s, 0), vec![0, 1, 3, 2]);
}

#[test]
fn for_each_reachable_calls_once_for_each_region() {
    let mut s = EdgeSubsetRelation::empty(4);
    s.insert_one(Region::from(0), Region::from(1));
    s.insert_one(Region::from(1), Region::from(0));
    s.insert_one(Region::from(1), Region::from(2));

    let mut seen = Vec::new();
    s.for_each_reachable(Region::from(0), |r| seen.push(r.index));
    assert_eq!(seen, vec![0, 1, 2]);

    let mut alone = Vec::new();
    s.for_each_reachable(Region::from(3), |r| alone.push(r.index));
    assert_eq!(alone, vec![3]);
}

#[test]
fn kill_region_joins_predecessors_to_successors() {
    // a --> d and d --> b before; a --> b after, and no pair with d.
    let mut s = EdgeSubsetRelation::empty(3);
    s.insert_one(Region::from(0), Region::from(1));
    s.insert_one(Region::from(1), Region::from(2));
    s.kill_region(&[], &regions(&[1]));

    assert_eq!(
        s.relation().dump_and_assert(),
        vec!["N(0) --E(0)--> N(2)".to_string(), "free edge E(1)".to_string()]
    );
    assert!(!s.insert_one(Region::from(0), Region::from(2)));
    assert_eq!(reached(&s, 1), vec![1]);
}

#[test]
fn kill_region_leaves_reachability_between_the_others() {
    let build = || {
        let mut s = EdgeSubsetRelation::empty(6);
        s.insert_one(Region::from(0), Region::from(1));
        s.insert_one(Region::from(1), Region::from(2));
        s.insert_one(Region::from(2), Region::from(3));
        s.insert_one(Region::from(3), Region::from(1));
        s.insert_one(Region::from(4), Region::from(2));
        s.insert_one(Region::from(2), Region::from(5));
        s
    };
    for dead in 0..6 {
        let before = build();
        let mut after = build();
        after.kill_region(&[], &regions(&[dead]));
        for from in 0..6 {
            if from == dead {
                assert_eq!(reached(&after, from), vec![from]);
                continue;
            }
            let mut expected = reached(&before, from);
            expected.retain(|&x| x != dead);
            assert_eq!(sorted(reached(&after, from)), sorted(expected));
        }
    }
}

#[test]
fn kill_region_takes_the_regions_in_their_order() {
    let mut s = EdgeSubsetRelation::empty(4);
    s.insert_one(Region::from(0), Region::from(1));
    s.insert_one(Region::from(1), Region::from(2));
    s.insert_one(Region::from(2), Region::from(3));
    s.kill_region(&regions(&[0, 3]), &regions(&[1, 2]));

    assert_eq!(reached(&s, 0), vec![0, 3]);
    assert_eq!(
        s.relation().dump_and_assert(),
        vec![
            "N(0) --E(0)--> N(3)".to_string(),
            "free edge E(2)".to_string(),
            "free edge E(1)".to_string(),
        ]
    );

    let mut none = EdgeSubsetRelation::empty(2);
    none.insert_one(Region::from(0), Region::from(1));
    none.kill_region(&[], &[]);
    assert_eq!(reached(&none, 0), vec![0, 1]);
}

#[test]
fn insert_all_copies_the_pairs_of_live_regions() {
    let mut other = EdgeSubsetRelation::empty(4);
    other.insert_one(Region::from(0), Region::from(1));
    other.insert_one(Region::from(0), Region::from(2));
    other.insert_one(Region::from(1), Region::from(3));
    other.insert_one(Region::from(3), Region::from(0));

    let mut s = EdgeSubsetRelation::empty(4);
    assert!(s.insert_all(&other, &regions(&[0, 3])));
    assert_eq!(sorted(reached(&s, 0)), vec![0, 1, 2]);
    assert_eq!(sorted(reached(&s, 3)), vec![0, 1, 2, 3]);
    assert_eq!(reached(&s, 1), vec![1]);

    // Nothing new the second time, and nothing at all for no region.
    assert!(!s.insert_all(&other, &regions(&[0, 3])));
    assert!(!s.insert_all(&other, &[]));
    assert!(s.insert_all(&other, &regions(&[1])));
    assert_eq!(sorted(reached(&s, 1)), vec![0, 1, 2, 3]);
}

#[test]
fn clone_of_a_subset_relation_is_independent() {
    let mut s = EdgeSubsetRelation::empty(3);
    s.insert_one(Region::from(0), Region::from(1));
    let mut copy = s.clone();
    copy.insert_one(Region::from(1), Region::from(2));

    assert_eq!(reached(&s, 0), vec![0, 1]);
    assert_eq!(reached(&copy, 0), vec![0, 1, 2]);
}

#[test]
fn a_slot_freed_by_a_kill_is_taken_again() {
    let mut s = EdgeSubsetRelation::empty(3);
    s.insert_one(Region::from(0), Region::from(1));
    s.insert_one(Region::from(1), Region::from(2));
    s.kill_region(&[], &regions(&[2]));
    assert_eq!(
        s.relation().dump_and_assert(),
        vec!["N(0) --E(0)--> N(1)".to_string(), "free edge E(1)".to_string()]
    );

    assert!(s.insert_one(Region::from(2), Region::from(0)));
    assert_eq!(
        s.relation().dump_and_assert(),
        vec!["N(0) --E(0)--> N(1)".to_string(), "N(2) --E(1)--> N(0)".to_string()]
    );
}

#[test]
fn a_kill_keeps_a_pair_that_is_there_single() {
    let mut s = EdgeSubsetRelation::empty(3);
    s.insert_one(Region::from(0), Region::from(1));
    s.insert_one(Region::from(1), Region::from(2));
    s.insert_one(Region::from(0), Region::from(2));
    s.kill_region(&[], &regions(&[1]));

    assert_eq!(
        s.relation().dump_and_assert(),
        vec![
            "N(0) --E(2)--> N(2)".to_string(),
            "free edge E(0)".to_string(),
            "free edge E(1)".to_string(),
        ]
    );
    assert_eq!(reached(&s, 0), vec![0, 2]);
}

#[test]
fn a_second_insert_or_kill_leaves_the_graph_as_it_is() {
    let mut s = EdgeSubsetRelation::empty(4);
    s.insert_one(Region::from(0), Region::from(1));
    s.insert_one(Region::from(0), Region::from(2));
    s.insert_one(Region::from(2), Region::from(3));
    let before = s.relation().dump_and_assert();
    assert!(!s.insert_one(Region::from(0), Region::from(2)));
    assert_eq!(s.relation().dump_and_assert(), before);

    s.kill_region(&[], &regions(&[2]));
    let once = s.relation().dump_and_assert();
    assert_eq!(
        once,
        vec![
            "N(0) --E(1)--> N(3)".to_string(),
            "N(0) --E(0)--> N(1)".to_string(),
            "free edge E(2)".to_string(),
        ]
    );
    s.kill_region(&[], &regions(&[2]));
    assert_eq!(s.relation().dump_and_assert(), once);

    let copy = s.clone();
    assert_eq!(copy.relation().dump_and_assert(), once);
    assert!(EdgeSubsetRelation::empty(2).relation().dump_and_assert().is_empty());
}
