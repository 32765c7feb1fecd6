use borrow_check::indices::NodeIndex;
use borrow_check::relation::Relation;
use borrow_check::tracking::RegionDegrees;
use borrow_check::vec_family::StdVec;

#[test]
fn no_node_seen() {
    let degrees = RegionDegrees::new();
    assert_eq!(degrees.max_in_degree(), 0);
    assert_eq!(degrees.max_out_degree(), 0);
    assert!(!degrees.has_multidegree());
    assert_eq!(degrees.histogram(), (vec![], vec![]));
}

#[test]
fn nodes_are_counted_by_degree() {
    let mut degrees = RegionDegrees::new();
    degrees.update_node(0, 3);
    degrees.update_node(2, 1);
    degrees.update_node(2, 0);

    assert_eq!(degrees.max_in_degree(), 2);
    assert_eq!(degrees.max_out_degree(), 3);
    assert!(!degrees.has_multidegree());
    assert_eq!(degrees.histogram(), (vec![1, 0, 2], vec![1, 1, 0, 1]));

    degrees.update_node(2, 2);
    assert!(degrees.has_multidegree());
    assert_eq!(degrees.histogram(), (vec![1, 0, 3], vec![1, 1, 1, 1]));
}

#[test]
fn the_nodes_of_a_relation_are_taken_in() {
    let n: Vec<NodeIndex> = (0..4).map(NodeIndex::from).collect();
    let mut relation: Relation<StdVec> = Relation::new(4);
    relation.add_edge(n[0], n[2]);
    relation.add_edge(n[1], n[2]);
    relation.add_edge(n[2], n[3]);
    relation.add_edge(n[2], n[0]);

    let mut degrees = RegionDegrees::new();
    degrees.update_degrees(&relation);
    // (in, out): node 0 (1, 1), node 1 (0, 1), node 2 (2, 2), node 3 (1, 0).
    assert_eq!(degrees.max_in_degree(), 2);
    assert_eq!(degrees.max_out_degree(), 2);
    assert!(degrees.has_multidegree());
    assert_eq!(degrees.histogram(), (vec![1, 2, 1], vec![1, 2, 1]));

    degrees.update_degrees(&Relation::<StdVec>::new(2));
    assert_eq!(degrees.histogram(), (vec![3, 2, 1], vec![3, 2, 1]));
}
