use loopybayesnet::{Delivery, Network, ShapeError};

/// Node 0 (3 values) and node 1 (2 values, child of 0); node 2 (4 values)
/// with parents 0 and 1. Messages are labelled by (from, to).
fn three_nodes() -> Network<(usize, usize)> {
    let mut net = Network::new();
    assert_eq!(net.add_node(&[], &[3], vec![], vec![]), Ok(0));
    assert_eq!(net.add_node(&[0], &[2, 3], vec![(0, 1)], vec![(1, 0)]), Ok(1));
    assert_eq!(
        net.add_node(&[0, 1], &[4, 3, 2], vec![(0, 2), (1, 2)], vec![(2, 0), (2, 1)]),
        Ok(2)
    );
    net
}

#[test]
fn messages_sit_at_their_readers() {
    let net = three_nodes();
    assert_eq!(net.pi_messages_of(2), &vec![(0, 2), (1, 2)]);
    assert_eq!(net.lambda_messages_of(0), &vec![(1, 0), (2, 0)]);
    assert_eq!(net.lambda_messages_of(1), &vec![(2, 1)]);
    assert_eq!(net.pi_message(1, 0), &(0, 1));
    assert_eq!(net.lambda_message(0, 1), &(2, 0));
    assert!(net.pi_messages_of(0).is_empty());
}

#[test]
fn refused_node_leaves_messages_alone() {
    let mut net = three_nodes();
    assert_eq!(
        net.add_node(&[1], &[2, 3], vec![(1, 3)], vec![(3, 1)]),
        Err(ShapeError::AxisMismatch { axis: 1, got: 3, parent: 1, expected: 2 })
    );
    assert_eq!(net.graph().node_count(), 3);
    assert_eq!(net.lambda_messages_of(1), &vec![(2, 1)]);
}

#[test]
fn commit_writes_every_staged_message() {
    let mut net = three_nodes();
    let mut pi: Vec<(Delivery, (usize, usize))> = Vec::new();
    let mut lambda: Vec<(Delivery, (usize, usize))> = Vec::new();
    for id in 0..3 {
        for d in net.graph().pi_deliveries(id) {
            pi.push((d, (10 + d.from, d.to)));
        }
        for d in net.graph().lambda_deliveries(id) {
            lambda.push((d, (10 + d.from, d.to)));
        }
    }
    net.commit(pi, lambda);
    assert_eq!(net.pi_messages_of(1), &vec![(10, 1)]);
    assert_eq!(net.pi_messages_of(2), &vec![(10, 2), (11, 2)]);
    assert_eq!(net.lambda_messages_of(0), &vec![(11, 0), (12, 0)]);
    assert_eq!(net.lambda_messages_of(1), &vec![(12, 1)]);
}

#[test]
fn commit_keeps_the_last_message_for_a_slot() {
    let mut net = three_nodes();
    let d = Delivery { from: 0, to: 2, slot: 0 };
    net.commit(vec![(d, (7, 7)), (d, (8, 8))], vec![]);
    assert_eq!(net.pi_messages_of(2), &vec![(8, 8), (1, 2)]);
    assert_eq!(net.lambda_messages_of(0), &vec![(1, 0), (2, 0)]);
}

#[test]
fn memo_slots_are_cleared_by_commit() {
    let mut net = three_nodes();
    assert_eq!(net.cached_lambda(1), None);
    net.store_lambda(1, (5, 5));
    net.store_pi(2, (6, 6));
    assert_eq!(net.cached_lambda(1), Some(&(5, 5)));
    assert_eq!(net.cached_pi(2), Some(&(6, 6)));
    assert_eq!(net.cached_pi(1), None);
    net.commit(vec![], vec![]);
    assert_eq!(net.cached_lambda(1), None);
    assert_eq!(net.cached_pi(2), None);
}

#[test]
fn setting_a_message_clears_memo_slots() {
    let mut net = three_nodes();
    net.store_pi(0, (1, 1));
    net.set_pi_message(2, 1, (9, 9));
    net.set_lambda_message(0, 0, (8, 8));
    assert_eq!(net.pi_messages_of(2), &vec![(0, 2), (9, 9)]);
    assert_eq!(net.lambda_messages_of(0), &vec![(8, 8), (2, 0)]);
    assert_eq!(net.cached_pi(0), None);
}

#[test]
fn network_evidence_is_replaced() {
    let mut net = three_nodes();
    net.store_lambda(0, (3, 3));
    net.set_evidence(&[(2, 1), (2, 2)]);
    assert_eq!(net.graph().observed(2), Some(2));
    assert_eq!(net.graph().observed(0), None);
    assert_eq!(net.cached_lambda(0), None);
    assert_eq!(net.graph().evidence_support(2), vec![false, false, true, false]);
}

#[test]
fn commit_order_of_distinct_slots_is_irrelevant() {
    let a = Delivery { from: 0, to: 2, slot: 0 };
    let b = Delivery { from: 1, to: 2, slot: 1 };
    let c = Delivery { from: 2, to: 0, slot: 1 };
    let mut first = three_nodes();
    first.commit(vec![(a, (40, 2)), (b, (41, 2))], vec![(c, (42, 0))]);
    let mut second = three_nodes();
    second.commit(vec![(b, (41, 2)), (a, (40, 2))], vec![(c, (42, 0))]);
    assert_eq!(first.pi_messages_of(2), second.pi_messages_of(2));
    assert_eq!(first.pi_messages_of(2), &vec![(40, 2), (41, 2)]);
    assert_eq!(first.lambda_messages_of(0), &vec![(1, 0), (42, 0)]);
    assert_eq!(second.lambda_messages_of(0), &vec![(1, 0), (42, 0)]);
}
