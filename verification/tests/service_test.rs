use discv5::NodeId;
use discv5::PeerRecord;
use discv5::kbucket::{Entry, InsertResult, NodeStatus};
use discv5::query_pool::QueryId;
use discv5::rpc::{RequestBody, Response, ResponseBody};
use discv5::service::{ActiveRequest, Service};

const LOCALHOST: u32 = 0x7f000001; // 127.0.0.1

fn peer(raw: u64, port: u16) -> PeerRecord {
    PeerRecord { node_id: NodeId { raw }, ip: LOCALHOST, port, seq: 1 }
}

#[test]
fn test_updating_connection_on_ping() {
    let local = peer(10, 10001);
    let mut service = Service::new(local.node_id, 1);

    // Set up service with one disconnected node
    let peer2 = peer(77, 10002);
    match service.kbuckets.insert(peer2, NodeStatus::Disconnected, 0) {
        InsertResult::Inserted => {}
        InsertResult::Full => panic!("Can't be full"),
        other => panic!("unexpected insert outcome: {:?}", other),
    }

    // Add a fake request
    let response = Response {
        id: 1,
        body: ResponseBody::Ping { enr_seq: 2, ip: LOCALHOST, port: 10002 },
    };

    service
        .active_requests
        .insert(
            1,
            ActiveRequest {
                contact: peer2,
                request_body: RequestBody::Ping { enr_seq: 2 },
                query_id: Some(QueryId(1)),
                callback: None,
                deadline: u64::MAX,
            },
        )
        .unwrap();

    // Handle the ping and expect the disconnected Node to become connected
    let out = service.handle_rpc_response(&response, 5);
    assert!(out.matched.is_some());
    assert_eq!(service.kbuckets.len(), 1);
    let node = service.kbuckets.get(0);
    assert_eq!(node.record.node_id, peer2.node_id);
    assert_eq!(node.status, NodeStatus::Connected);
}

#[test]
fn test_unmatched_response_changes_nothing() {
    let local = peer(10, 10001);
    let mut service = Service::new(local.node_id, 1);
    let peer2 = peer(77, 10002);
    assert!(matches!(
        service.kbuckets.insert(peer2, NodeStatus::Disconnected, 0),
        InsertResult::Inserted
    ));

    let response = Response {
        id: 9,
        body: ResponseBody::Ping { enr_seq: 2, ip: LOCALHOST, port: 10002 },
    };
    let out = service.handle_rpc_response(&response, 5);
    assert!(out.matched.is_none());
    assert!(out.refresh.is_none());
    assert!(out.callback.is_none());
    // the routing table was not mutated
    assert_eq!(service.kbuckets.len(), 1);
    assert_eq!(service.kbuckets.get(0).status, NodeStatus::Disconnected);
}

#[test]
fn test_request_round_trip() {
    let local = peer(10, 10001);
    let mut service = Service::new(local.node_id, 1);
    let peer2 = peer(77, 10002);

    let id = service
        .send_request(peer2, RequestBody::Ping { enr_seq: 1 }, None, Some(42), 100, 50)
        .unwrap();

    // the response carrying the same identifier resolves exactly that request
    let response = Response {
        id,
        body: ResponseBody::Ping { enr_seq: 1, ip: LOCALHOST, port: 10002 },
    };
    let out = service.handle_rpc_response(&response, 110);
    let req = out.matched.expect("the dispatched request must match");
    assert_eq!(req.contact, peer2);
    assert_eq!(req.request_body, RequestBody::Ping { enr_seq: 1 });
    assert_eq!(out.callback, Some(42));

    // and only once: a second response with the same identifier is late
    let out2 = service.handle_rpc_response(&response, 120);
    assert!(out2.matched.is_none());
}

#[test]
fn test_self_request_refused() {
    let local = peer(10, 10001);
    let mut service = Service::new(local.node_id, 1);
    let me = peer(10, 10001);
    let r = service.send_request(me, RequestBody::Ping { enr_seq: 1 }, None, None, 0, 10);
    assert_eq!(r, Err(discv5::error::RequestError::SelfRequest));
}

#[test]
fn test_expired_request_swept_and_unmatchable() {
    let local = peer(10, 10001);
    let mut service = Service::new(local.node_id, 1);
    let peer2 = peer(77, 10002);

    // a request with a zero-duration deadline expires at once
    let id = service
        .send_request(peer2, RequestBody::Ping { enr_seq: 1 }, None, None, 100, 0)
        .unwrap();

    let expired = service.sweep_expired(100);
    assert_eq!(expired.len(), 1);
    assert_eq!(expired[0].0, id);
    assert_eq!(expired[0].1.contact, peer2);

    // a late response can no longer match it
    let response = Response {
        id,
        body: ResponseBody::Ping { enr_seq: 1, ip: LOCALHOST, port: 10002 },
    };
    let out = service.handle_rpc_response(&response, 101);
    assert!(out.matched.is_none());
}

#[test]
fn test_ping_failure_demotes_peer() {
    let local = peer(10, 10001);
    let mut service = Service::new(local.node_id, 1);
    let peer2 = peer(77, 10002);
    assert!(matches!(
        service.kbuckets.insert(peer2, NodeStatus::Connected, 0),
        InsertResult::Inserted
    ));
    let _id = service
        .send_request(peer2, RequestBody::Ping { enr_seq: 1 }, None, None, 10, 5)
        .unwrap();
    let expired = service.sweep_expired(20);
    assert_eq!(expired.len(), 1);
    assert_eq!(service.kbuckets.get(0).status, NodeStatus::Disconnected);
}

#[test]
fn test_refresh_scheduled_on_newer_seq() {
    let local = peer(10, 10001);
    let mut service = Service::new(local.node_id, 1);
    let peer2 = peer(77, 10002); // seq 1
    let id = service
        .send_request(peer2, RequestBody::Ping { enr_seq: 1 }, None, None, 0, 100)
        .unwrap();
    let response = Response {
        id,
        body: ResponseBody::Ping { enr_seq: 5, ip: LOCALHOST, port: 10002 },
    };
    let out = service.handle_rpc_response(&response, 1);
    assert_eq!(out.refresh, Some(peer2.node_id));
}

#[test]
fn test_handle_ping_request() {
    let local = peer(10, 10001);
    let service = Service::new(local.node_id, 7);
    let from = peer(77, 10002);
    let request = discv5::rpc::Request { id: 3, body: RequestBody::Ping { enr_seq: 1 } };
    let resp = service.handle_rpc_request(&request, from);
    assert_eq!(resp.id, 3);
    assert_eq!(resp.body, ResponseBody::Ping { enr_seq: 7, ip: LOCALHOST, port: 10002 });
}

#[test]
fn test_handle_find_node_request_returns_closest_sorted() {
    let local = peer(10, 10001);
    let mut service = Service::new(local.node_id, 1);
    for raw in [32u64, 33, 34, 35] {
        assert!(matches!(
            service.kbuckets.insert(peer(raw, 9000), NodeStatus::Connected, 0),
            InsertResult::Inserted
        ));
    }
    let target = NodeId { raw: 33 };
    let request = discv5::rpc::Request { id: 8, body: RequestBody::FindNode { target } };
    let resp = service.handle_rpc_request(&request, peer(77, 10002));
    match resp.body {
        ResponseBody::Nodes { total, nodes } => {
            assert_eq!(total, 1);
            assert_eq!(nodes.len(), 4);
            // sorted by XOR distance from 33: 33 (0), 32 (1), 35 (2), 34 (3)
            let ids: Vec<u64> = nodes.iter().map(|r| r.node_id.raw).collect();
            assert_eq!(ids, vec![33, 32, 35, 34]);
        }
        other => panic!("expected a Nodes response, got {:?}", other),
    }
}

#[test]
fn test_insert_same_key_twice_keeps_one_entry() {
    let local = peer(10, 10001);
    let mut service = Service::new(local.node_id, 1);
    let peer2 = peer(77, 10002);
    assert!(matches!(
        service.kbuckets.insert(peer2, NodeStatus::Disconnected, 0),
        InsertResult::Inserted
    ));
    assert!(matches!(
        service.kbuckets.insert(peer2, NodeStatus::Disconnected, 0),
        InsertResult::NodeExists
    ));
    assert_eq!(service.kbuckets.len(), 1);
    assert!(matches!(
        service.kbuckets.entry(peer2.node_id),
        Entry::Present(NodeStatus::Disconnected)
    ));
}
