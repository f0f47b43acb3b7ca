//! Core of a Kademlia-style peer-discovery service: a distance-ordered
//! routing table, an in-flight request tracker, iterative lookup queries,
//! and admission filtering plus framing decode for inbound datagrams.

use vstd::prelude::*;

pub mod error;
pub mod expected;
pub mod filter;
pub mod kbucket;
pub mod packet;
pub mod query_pool;
pub mod recv;
pub mod rpc;
pub mod service;

verus! {

/// A fixed-width identifier derived from a peer's public identity.
/// Peers are ordered by the XOR distance between identifiers.
#[derive(Clone, Copy, PartialEq, Eq, Structural, Debug)]
pub struct NodeId {
    pub raw: u64,
}

/// XOR distance between two identifiers.
pub open spec fn distance(a: NodeId, b: NodeId) -> u64 {
    a.raw ^ b.raw
}

/// Computes the XOR distance between two identifiers.
pub fn xor_distance(a: NodeId, b: NodeId) -> (d: u64)
    ensures
        d == distance(a, b),
{
    a.raw ^ b.raw
}

/// For a fixed reference point, distinct identifiers lie at distinct
/// distances: equal distance is impossible for well-formed identifiers.
pub proof fn lemma_distance_injective(t: NodeId, a: NodeId, b: NodeId)
    requires
        distance(t, a) == distance(t, b),
    ensures
        a.raw == b.raw,
{
    let x = t.raw;
    let y = a.raw;
    let z = b.raw;
    assert((x ^ y) == (x ^ z) ==> y == z) by (bit_vector);
}

/// A validated description of a peer: its identifier, reachable address,
/// and the freshness sequence number of its signed record. Records are
/// replaced wholesale, never mutated in place.
#[derive(Clone, Copy, PartialEq, Eq, Structural, Debug)]
pub struct PeerRecord {
    pub node_id: NodeId,
    pub ip: u32,
    pub port: u16,
    pub seq: u64,
}

/// The transport-level source of a datagram, as the admission filter and
/// the expected-response table key it.
#[derive(Clone, Copy, PartialEq, Eq, Structural, Debug)]
pub struct SourceAddress {
    pub ip: u32,
    pub port: u16,
}

impl PeerRecord {
    /// The transport address this record points at.
    pub open spec fn spec_address(&self) -> SourceAddress {
        SourceAddress { ip: self.ip, port: self.port }
    }

    /// Returns the transport address this record points at.
    pub fn address(&self) -> (a: SourceAddress)
        ensures
            a == self.spec_address(),
    {
        SourceAddress { ip: self.ip, port: self.port }
    }
}

} // verus!
