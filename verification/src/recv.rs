//! The compute half of the receive pipeline: one datagram goes through the
//! admission filter, the framing decoder, and the packet-kind filter. The
//! task that owns the socket feeds raw bytes in and forwards whatever comes
//! out to the session layer; a dropped datagram produces nothing at all.

use vstd::prelude::*;
use crate::SourceAddress;
use crate::expected::ExpectedResponseTable;
use crate::filter::Filter;
use crate::packet::MAGIC_LENGTH;
use crate::packet::Packet;
use crate::packet::spec_has_magic;
use crate::packet::spec_well_sized;

verus! {

/// A filtered, decoded datagram, paired with where it came from, ready for
/// the session layer.
pub struct InboundPacket {
    /// The originating transport address.
    pub src: SourceAddress,
    /// The decoded packet.
    pub packet: Packet,
}

/// The receive pipeline's own state: the packet filter and the magic value
/// that marks raw handshake-initiation packets.
pub struct RecvState {
    filter: Filter,
    magic: Vec<u8>,
}

impl RecvState {
    pub closed spec fn wf(&self) -> bool {
        self.filter.wf() && self.magic@.len() == MAGIC_LENGTH
    }

    /// The filter state, for contracts over single datagrams.
    pub closed spec fn spec_filter(&self) -> Filter {
        self.filter
    }

    /// The handshake magic the decoder matches against.
    pub closed spec fn spec_magic(&self) -> Seq<u8> {
        self.magic@
    }

    /// Builds the pipeline state around a filter and the magic value.
    pub fn new(filter: Filter, magic: Vec<u8>) -> (s: RecvState)
        requires
            filter.wf(),
            magic@.len() == MAGIC_LENGTH,
        ensures
            s.wf(),
            s.spec_filter() == filter,
            s.spec_magic() == magic@,
    {
        RecvState { filter, magic }
    }

    /// Handles one inbound datagram: a source we are awaiting a response
    /// from bypasses both filter passes; anyone else must pass the rate
    /// rule, then the datagram must decode, then the decoded kind must pass.
    /// Whatever fails, the datagram is dropped silently.
    pub fn handle_inbound(
        &mut self,
        expected: &ExpectedResponseTable,
        src: SourceAddress,
        data: &Vec<u8>,
        now: u64,
    ) -> (r: Option<InboundPacket>)
        requires
            old(self).wf(),
            expected.wf(),
        ensures
            final(self).wf(),
            final(self).spec_magic() == old(self).spec_magic(),
            // a solicited source is always admitted: only decoding decides
            expected.count_of(src) >= 1 ==> (r is Some <==> spec_well_sized(data@))
                && *final(self) == *old(self),
            // an unsolicited source over its rate, or blacklisted, is denied
            expected.count_of(src) == 0 && !(!old(self).spec_filter().spec_blacklisted(src)
                && old(self).spec_filter().spec_rate_admits(src, now)) ==> r is None,
            // whatever is forwarded decoded from this very datagram
            r matches Some(p) ==> p.src == src && spec_well_sized(data@)
                && (spec_has_magic(data@, old(self).spec_magic())
                    ==> (p.packet matches Packet::WhoAreYou { token }
                        && token@ == data@.subrange(MAGIC_LENGTH as int, data@.len() as int)))
                && (!spec_has_magic(data@, old(self).spec_magic())
                    ==> (p.packet matches Packet::Message { tag, payload }
                        && tag@ == data@.subrange(0, MAGIC_LENGTH as int)
                        && payload@ == data@.subrange(MAGIC_LENGTH as int, data@.len() as int))),
    {
        // Permit all expected responses: we solicited this traffic.
        let permitted = expected.is_expected(src);

        // First pass: blacklist and per-source rate limits, before any
        // decode cost is spent.
        if !permitted {
            let admitted = self.filter.initial_pass(src, now);
            if !admitted {
                return None;
            }
        }

        // Decode the fixed framing; malformed input is dropped silently.
        let packet = match Packet::decode(data, &self.magic) {
            Ok(p) => p,
            Err(_) => {
                return None;
            },
        };

        // Second pass: filtering on the decoded packet kind.
        if !permitted {
            let admitted = self.filter.final_pass(src, &packet, now);
            if !admitted {
                return None;
            }
        }

        Some(InboundPacket { src, packet })
    }
}

} // verus!
