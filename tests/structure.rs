use loopybayesnet::{
    deterministic_support, lambda_plan, pi_plan, support, Cache, Contraction, Delivery, Graph,
    Operand, ShapeError,
};

fn chain() -> Graph {
    let mut g = Graph::new();
    assert_eq!(g.add_node(&[], &[2]), Ok(0));
    assert_eq!(g.add_node(&[0], &[2, 2]), Ok(1));
    g
}

fn three_nodes() -> Graph {
    let mut g = Graph::new();
    assert_eq!(g.add_node(&[], &[3]), Ok(0));
    assert_eq!(g.add_node(&[0], &[2, 3]), Ok(1));
    assert_eq!(g.add_node(&[0, 1], &[4, 3, 2]), Ok(2));
    g
}

fn step(operand: Operand, axis: usize) -> Contraction {
    Contraction { operand, axis }
}

#[test]
fn empty_network_has_no_nodes() {
    assert_eq!(Graph::new().node_count(), 0);
}

#[test]
fn nodes_are_numbered_in_creation_order() {
    let g = three_nodes();
    assert_eq!(g.node_count(), 3);
    assert_eq!(g.cardinality(0), 3);
    assert_eq!(g.cardinality(1), 2);
    assert_eq!(g.cardinality(2), 4);
    assert_eq!(g.parents_of(2), &vec![0, 1]);
    assert_eq!(g.children_of(0), &vec![1, 2]);
    assert_eq!(g.children_of(1), &vec![2]);
    assert!(g.children_of(2).is_empty());
    assert_eq!(g.shape_of(2), &vec![4, 3, 2]);
}

#[test]
fn rank_must_match_parent_count() {
    let mut g = chain();
    assert_eq!(
        g.add_node(&[0], &[2]),
        Err(ShapeError::RankMismatch { rank: 1, n_parents: 1 })
    );
    assert_eq!(
        g.add_node(&[], &[]),
        Err(ShapeError::RankMismatch { rank: 0, n_parents: 0 })
    );
    assert_eq!(g.node_count(), 2);
}

#[test]
fn unknown_parent_is_refused() {
    let mut g = chain();
    assert_eq!(
        g.add_node(&[0, 7], &[2, 2, 2]),
        Err(ShapeError::UnknownParent { position: 1, parent: 7 })
    );
    assert_eq!(g.node_count(), 2);
    assert_eq!(g.children_of(0), &vec![1]);
}

#[test]
fn axis_must_match_parent_cardinality() {
    let mut g = three_nodes();
    assert_eq!(
        g.add_node(&[0, 1], &[2, 3, 5]),
        Err(ShapeError::AxisMismatch { axis: 2, got: 5, parent: 1, expected: 2 })
    );
    assert_eq!(
        g.add_node(&[1], &[2, 3]),
        Err(ShapeError::AxisMismatch { axis: 1, got: 3, parent: 1, expected: 2 })
    );
    assert_eq!(g.node_count(), 3);
    assert_eq!(g.children_of(1), &vec![2]);
}

#[test]
fn repeated_parent_is_registered_each_time() {
    let mut g = chain();
    assert_eq!(g.add_node(&[0, 0], &[1, 2, 2]), Ok(2));
    assert_eq!(g.children_of(0), &vec![1, 2, 2]);
}

#[test]
fn evidence_is_replaced_and_last_pair_wins() {
    let mut g = three_nodes();
    g.set_evidence(&[(1, 0), (2, 3), (1, 1)]);
    assert_eq!(g.observed(0), None);
    assert_eq!(g.observed(1), Some(1));
    assert_eq!(g.observed(2), Some(3));
    g.set_evidence(&[(0, 2)]);
    assert_eq!(g.observed(0), Some(2));
    assert_eq!(g.observed(1), None);
    assert_eq!(g.observed(2), None);
    g.set_evidence(&[]);
    assert_eq!(g.observed(0), None);
}

#[test]
fn evidence_support_follows_observation() {
    let mut g = three_nodes();
    g.set_evidence(&[(0, 1), (1, 9)]);
    assert_eq!(g.evidence_support(0), vec![false, true, false]);
    assert_eq!(g.evidence_support(1), vec![false, false]);
    assert_eq!(g.evidence_support(2), vec![true, true, true, true]);
}

#[test]
fn deterministic_support_in_and_out_of_range() {
    assert_eq!(deterministic_support(3, 1), vec![false, true, false]);
    assert_eq!(deterministic_support(3, 3), vec![false, false, false]);
    assert_eq!(deterministic_support(2, 100), vec![false, false]);
    assert!(deterministic_support(0, 0).is_empty());
}

#[test]
fn unobserved_support_is_uniform() {
    assert_eq!(support(3, None), vec![true, true, true]);
    assert_eq!(support(2, Some(0)), vec![true, false]);
}

#[test]
fn slots_name_first_positions() {
    let mut g = chain();
    assert_eq!(g.add_node(&[1, 0, 1], &[2, 2, 2, 2]), Ok(2));
    assert_eq!(g.parent_slot(2, 1), Some(0));
    assert_eq!(g.parent_slot(2, 0), Some(1));
    assert_eq!(g.parent_slot(1, 2), None);
    assert_eq!(g.child_slot(0, 2), Some(1));
    assert_eq!(g.children_of(1), &vec![2, 2]);
    assert_eq!(g.child_slot(1, 2), Some(0));
    assert_eq!(g.child_slot(2, 0), None);
}

#[test]
fn other_children_skip_the_recipient() {
    let mut g = three_nodes();
    assert_eq!(g.add_node(&[0], &[2, 3]), Ok(3));
    assert_eq!(g.other_children(0, 2), vec![0, 2]);
    assert_eq!(g.other_children(0, 1), vec![1, 2]);
    assert_eq!(g.other_children(1, 2), Vec::<usize>::new());
    assert_eq!(g.other_children(2, 0), Vec::<usize>::new());
}

#[test]
fn pi_messages_reach_each_child() {
    let g = three_nodes();
    assert_eq!(
        g.pi_deliveries(0),
        vec![Delivery { from: 0, to: 1, slot: 0 }, Delivery { from: 0, to: 2, slot: 0 }]
    );
    assert_eq!(g.pi_deliveries(1), vec![Delivery { from: 1, to: 2, slot: 1 }]);
    assert!(g.pi_deliveries(2).is_empty());
}

#[test]
fn lambda_messages_reach_each_parent() {
    let g = three_nodes();
    assert!(g.lambda_deliveries(0).is_empty());
    assert_eq!(g.lambda_deliveries(1), vec![Delivery { from: 1, to: 0, slot: 0 }]);
    assert_eq!(
        g.lambda_deliveries(2),
        vec![Delivery { from: 2, to: 0, slot: 1 }, Delivery { from: 2, to: 1, slot: 0 }]
    );
}

#[test]
fn pi_plan_contracts_parents_from_the_last() {
    assert!(pi_plan(0).is_empty());
    assert_eq!(
        pi_plan(3),
        vec![
            step(Operand::ParentMessage(2), 3),
            step(Operand::ParentMessage(1), 2),
            step(Operand::ParentMessage(0), 1),
        ]
    );
}

#[test]
fn lambda_plan_keeps_the_target_axis() {
    assert_eq!(lambda_plan(1, 0), vec![step(Operand::OwnLambda, 0)]);
    assert_eq!(
        lambda_plan(2, 0),
        vec![step(Operand::ParentMessage(1), 2), step(Operand::OwnLambda, 0)]
    );
    assert_eq!(
        lambda_plan(3, 1),
        vec![
            step(Operand::ParentMessage(2), 3),
            step(Operand::ParentMessage(0), 1),
            step(Operand::OwnLambda, 0),
        ]
    );
    assert_eq!(
        lambda_plan(3, 2),
        vec![
            step(Operand::ParentMessage(1), 2),
            step(Operand::ParentMessage(0), 1),
            step(Operand::OwnLambda, 0),
        ]
    );
}

#[test]
fn cache_holds_until_invalidated() {
    let mut c: Cache<Vec<u32>> = Cache::stale();
    assert!(c.is_stale());
    assert_eq!(c.get(), None);
    c.store(vec![1, 2]);
    assert!(!c.is_stale());
    assert_eq!(c.get(), Some(&vec![1, 2]));
    c.invalidate();
    assert!(c.is_stale());
}
