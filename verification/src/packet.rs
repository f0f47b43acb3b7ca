//! Transport-level packet framing. The decoder never assumes a valid
//! envelope: truncated, oversized or arbitrary byte content is rejected,
//! silently, so the node cannot be used as an amplification vector.

use vstd::prelude::*;

verus! {

/// Largest datagram the transport accepts.
pub const MAX_PACKET_SIZE: usize = 1280;

/// Width of the magic value that marks a raw handshake-initiation packet.
pub const MAGIC_LENGTH: usize = 32;

/// Width of the tag that opens every ordinary message packet.
pub const TAG_LENGTH: usize = 32;

/// A decoded transport packet.
#[derive(Clone, PartialEq, Debug)]
pub enum Packet {
    /// A raw handshake-initiation packet: the magic value followed by an
    /// opaque token for the session layer.
    WhoAreYou { token: Vec<u8> },
    /// An ordinary message packet: a fixed-width tag followed by the
    /// encrypted payload.
    Message { tag: Vec<u8>, payload: Vec<u8> },
}

/// Why a datagram failed to decode. Decode failures are dropped without a
/// reply and never surfaced to the peer.
#[derive(Clone, Copy, PartialEq, Eq, Structural, Debug)]
pub enum PacketError {
    /// Shorter than the fixed framing header plus one payload byte.
    TooSmall,
    /// Longer than the largest datagram the transport accepts.
    TooLarge,
}

/// Whether `data` carries the handshake magic as its prefix.
pub open spec fn spec_has_magic(data: Seq<u8>, magic: Seq<u8>) -> bool {
    data.len() >= MAGIC_LENGTH && data.subrange(0, MAGIC_LENGTH as int) == magic
}

/// A datagram that fits the framing: room for the fixed header plus at
/// least one body byte, and no more than the transport maximum.
pub open spec fn spec_well_sized(data: Seq<u8>) -> bool {
    TAG_LENGTH < data.len() <= MAX_PACKET_SIZE
}

impl Packet {
    /// Decodes the fixed framing of one datagram. Fails, and only fails, on
    /// a datagram over `MAX_PACKET_SIZE` or one too short to carry a header
    /// and a nonempty body.
    pub fn decode(data: &Vec<u8>, magic: &Vec<u8>) -> (r: Result<Packet, PacketError>)
        requires
            magic@.len() == MAGIC_LENGTH,
        ensures
            r is Ok <==> spec_well_sized(data@),
            data@.len() > MAX_PACKET_SIZE ==> r == Err::<Packet, PacketError>(PacketError::TooLarge),
            data@.len() <= TAG_LENGTH && data@.len() <= MAX_PACKET_SIZE
                ==> r == Err::<Packet, PacketError>(PacketError::TooSmall),
            r is Ok && spec_has_magic(data@, magic@) ==> (r matches Ok(Packet::WhoAreYou { token })
                && token@ == data@.subrange(MAGIC_LENGTH as int, data@.len() as int)),
            r is Ok && !spec_has_magic(data@, magic@) ==> (r matches Ok(Packet::Message { tag, payload })
                && tag@ == data@.subrange(0, TAG_LENGTH as int)
                && payload@ == data@.subrange(TAG_LENGTH as int, data@.len() as int)),
    {
        if data.len() > MAX_PACKET_SIZE {
            return Err(PacketError::TooLarge);
        }
        if data.len() <= TAG_LENGTH {
            return Err(PacketError::TooSmall);
        }
        let mut is_whoareyou = true;
        let mut i: usize = 0;
        while is_whoareyou && i < MAGIC_LENGTH
            invariant
                i <= MAGIC_LENGTH,
                magic@.len() == MAGIC_LENGTH,
                data@.len() > TAG_LENGTH,
                is_whoareyou ==> forall|k: int| 0 <= k < i ==> data@[k] == magic@[k],
                !is_whoareyou ==> exists|k: int|
                    0 <= k < MAGIC_LENGTH && data@[k] != magic@[k],
            decreases MAGIC_LENGTH - i,
        {
            if data[i] != magic[i] {
                is_whoareyou = false;
            }
            i += 1;
        }
        proof {
            if is_whoareyou {
                assert(data@.subrange(0, MAGIC_LENGTH as int) =~= magic@);
            } else {
                let k = choose|k: int| 0 <= k < MAGIC_LENGTH && data@[k] != magic@[k];
                if data@.subrange(0, MAGIC_LENGTH as int) == magic@ {
                    assert(data@.subrange(0, MAGIC_LENGTH as int)[k] == data@[k]);
                    assert(false);
                }
            }
        }
        let body = copy_range(data, TAG_LENGTH, data.len());
        if is_whoareyou {
            Ok(Packet::WhoAreYou { token: body })
        } else {
            let tag = copy_range(data, 0, TAG_LENGTH);
            Ok(Packet::Message { tag, payload: body })
        }
    }
}

/// Copies `data[from..to]` into a fresh vector.
fn copy_range(data: &Vec<u8>, from: usize, to: usize) -> (r: Vec<u8>)
    requires
        from <= to <= data@.len(),
    ensures
        r@ == data@.subrange(from as int, to as int),
{
    let mut r: Vec<u8> = Vec::new();
    let mut i: usize = from;
    while i < to
        invariant
            from <= i <= to <= data@.len(),
            r@ == data@.subrange(from as int, i as int),
        decreases to - i,
    {
        r.push(data[i]);
        proof {
            assert(r@ =~= data@.subrange(from as int, i + 1));
        }
        i += 1;
    }
    proof {
        assert(r@ =~= data@.subrange(from as int, to as int));
    }
    r
}

} // verus!
