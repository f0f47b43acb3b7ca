use discv5::NodeId;
use discv5::PeerRecord;
use discv5::kbucket::{InsertResult, KBucketsTable, MAX_NODES_PER_BUCKET, NodeStatus};
use discv5::query_pool::{QueryEvent, QueryPool};
use discv5::rpc::RequestBody;

fn peer(raw: u64) -> PeerRecord {
    PeerRecord { node_id: NodeId { raw }, ip: 0x7f000001, port: 9000, seq: 1 }
}

#[test]
fn test_query_with_empty_seeds_finishes_at_deadline_with_empty_result() {
    let mut pool = QueryPool::new();
    let seeds: Vec<PeerRecord> = Vec::new();
    let qid = pool.add_query(NodeId { raw: 5 }, &seeds, 3, 100);

    // before the deadline nothing happens: no error, no result
    assert!(pool.poll(50).is_none());
    assert!(pool.poll(99).is_none());

    // at the deadline it finishes with an empty set
    match pool.poll(100) {
        Some(QueryEvent::Finished { query_id, closest }) => {
            assert_eq!(query_id, qid);
            assert!(closest.is_empty());
        }
        other => panic!("expected the query to finish, got {:?}", other_name(&other)),
    }
    assert_eq!(pool.len(), 0);
}

fn other_name(e: &Option<QueryEvent>) -> &'static str {
    match e {
        None => "no event",
        Some(QueryEvent::Finished { .. }) => "finished",
        Some(QueryEvent::PendingRequest { .. }) => "pending request",
    }
}

#[test]
fn test_query_finishes_when_all_seeds_respond_before_deadline() {
    let mut pool = QueryPool::new();
    let seeds = vec![peer(20), peer(21)];
    let target = NodeId { raw: 5 };
    let qid = pool.add_query(target, &seeds, 2, 1000);

    // both seeds get asked
    let mut asked = Vec::new();
    for _ in 0..2 {
        match pool.poll(10) {
            Some(QueryEvent::PendingRequest { query_id, peer, body }) => {
                assert_eq!(query_id, qid);
                assert_eq!(body, RequestBody::FindNode { target });
                asked.push(peer.node_id.raw);
            }
            other => panic!("expected a pending request, got {:?}", other_name(&other)),
        }
    }
    asked.sort();
    assert_eq!(asked, vec![20, 21]);

    // all seeds respond with no closer peers: the query finishes well
    // before the full deadline
    let none: Vec<PeerRecord> = Vec::new();
    pool.on_success(qid, NodeId { raw: 20 }, &none);
    pool.on_success(qid, NodeId { raw: 21 }, &none);
    match pool.poll(20) {
        Some(QueryEvent::Finished { query_id, closest }) => {
            assert_eq!(query_id, qid);
            let mut got: Vec<u64> = closest.iter().map(|r| r.node_id.raw).collect();
            got.sort();
            assert_eq!(got, vec![20, 21]);
        }
        other => panic!("expected the query to finish, got {:?}", other_name(&other)),
    }
}

#[test]
fn test_discovered_peers_join_the_candidate_set() {
    let mut pool = QueryPool::new();
    let seeds = vec![peer(20)];
    let target = NodeId { raw: 5 };
    let qid = pool.add_query(target, &seeds, 2, 1000);

    match pool.poll(10) {
        Some(QueryEvent::PendingRequest { peer: p, .. }) => assert_eq!(p.node_id.raw, 20),
        other => panic!("expected a pending request, got {:?}", other_name(&other)),
    }
    // the seed reports a closer peer; it is asked next
    let discovered = vec![peer(4)];
    pool.on_success(qid, NodeId { raw: 20 }, &discovered);
    match pool.poll(11) {
        Some(QueryEvent::PendingRequest { peer: p, .. }) => assert_eq!(p.node_id.raw, 4),
        other => panic!("expected a pending request, got {:?}", other_name(&other)),
    }
}

#[test]
fn test_failed_peer_gets_one_retry() {
    let mut pool = QueryPool::new();
    let seeds = vec![peer(20)];
    let target = NodeId { raw: 5 };
    let qid = pool.add_query(target, &seeds, 1, 1000);

    assert!(matches!(pool.poll(10), Some(QueryEvent::PendingRequest { .. })));
    pool.on_failure(qid, NodeId { raw: 20 });
    // one retry is allowed
    assert!(matches!(pool.poll(11), Some(QueryEvent::PendingRequest { .. })));
    pool.on_failure(qid, NodeId { raw: 20 });
    // the second failure excludes the peer; nothing is left to do but the
    // candidate set is nonempty, so the query finishes with no results
    match pool.poll(12) {
        Some(QueryEvent::Finished { closest, .. }) => assert!(closest.is_empty()),
        other => panic!("expected the query to finish, got {:?}", other_name(&other)),
    }
}

#[test]
fn test_bucket_overflow_full_and_pending() {
    // with the local identifier at 0, identifiers 32..=63 share one bucket
    let mut table = KBucketsTable::new(NodeId { raw: 0 });
    for raw in 32..(32 + MAX_NODES_PER_BUCKET as u64) {
        assert!(matches!(
            table.insert(peer(raw), NodeStatus::Connected, 0),
            InsertResult::Inserted
        ));
    }
    // the bucket is full of connected peers: rejected
    assert!(matches!(
        table.insert(peer(60), NodeStatus::Connected, 0),
        InsertResult::Full
    ));
    // once an entry is disconnected, a newcomer waits in the pending slot
    table.update_status(NodeId { raw: 33 }, NodeStatus::Disconnected, 1);
    assert!(matches!(
        table.insert(peer(60), NodeStatus::Connected, 1),
        InsertResult::Pending
    ));
    // an identifier already pending is not taken twice
    assert!(matches!(
        table.insert(peer(60), NodeStatus::Connected, 2),
        InsertResult::NodeExists
    ));
    // our own identifier is never held
    assert!(matches!(
        table.insert(peer(0), NodeStatus::Connected, 2),
        InsertResult::SelfKey
    ));
}

#[test]
fn test_nodes_by_distance_is_sorted() {
    let mut table = KBucketsTable::new(NodeId { raw: 0 });
    for raw in [40u64, 3, 17, 9] {
        assert!(matches!(
            table.insert(peer(raw), NodeStatus::Connected, 0),
            InsertResult::Inserted
        ));
    }
    let target = NodeId { raw: 16 };
    let sorted = table.nodes_by_distance(target);
    let ids: Vec<u64> = sorted.iter().map(|e| e.record.node_id.raw).collect();
    // XOR distances from 16: 17 -> 1, 3 -> 19, 9 -> 25, 40 -> 56
    assert_eq!(ids, vec![17, 3, 9, 40]);
}

#[test]
fn test_stale_entries_listed_for_liveness() {
    let mut table = KBucketsTable::new(NodeId { raw: 0 });
    assert!(matches!(table.insert(peer(3), NodeStatus::Connected, 0), InsertResult::Inserted));
    assert!(matches!(table.insert(peer(9), NodeStatus::Connected, 90), InsertResult::Inserted));
    // at time 100 with interval 50, only the peer last seen at 0 is stale
    let stale = table.stale_entries(100, 50);
    assert_eq!(stale.len(), 1);
    assert_eq!(stale[0].node_id.raw, 3);
}
