//! The decoded, decrypted RPC bodies the service loop exchanges with the
//! session layer. Wire encoding and decryption happen outside the core.

use vstd::prelude::*;
use crate::NodeId;
use crate::PeerRecord;

verus! {

/// The body of an outbound request.
#[derive(Clone, Copy, PartialEq, Eq, Structural, Debug)]
pub enum RequestBody {
    /// A liveness check carrying our record's sequence number.
    Ping { enr_seq: u64 },
    /// Ask a peer for the peers it knows closest to `target`.
    FindNode { target: NodeId },
}

/// The body of an inbound response.
#[derive(Clone, PartialEq, Debug)]
pub enum ResponseBody {
    /// A liveness confirmation: the peer's record sequence number and the
    /// address it observed us at.
    Ping { enr_seq: u64, ip: u32, port: u16 },
    /// Peers the responder knows close to the requested target.
    Nodes { total: u64, nodes: Vec<PeerRecord> },
}

/// One inbound response, matched to an in-flight request purely by `id`.
#[derive(Clone, PartialEq, Debug)]
pub struct Response {
    pub id: u64,
    pub body: ResponseBody,
}

/// One inbound request from a peer that queried us.
#[derive(Clone, Copy, PartialEq, Eq, Structural, Debug)]
pub struct Request {
    pub id: u64,
    pub body: RequestBody,
}

} // verus!
