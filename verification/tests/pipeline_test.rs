use discv5::SourceAddress;
use discv5::expected::ExpectedResponseTable;
use discv5::filter::{Filter, FilterConfig};
use discv5::packet::{MAGIC_LENGTH, MAX_PACKET_SIZE, Packet, PacketError};
use discv5::recv::RecvState;

fn src(port: u16) -> SourceAddress {
    SourceAddress { ip: 0x7f000001, port }
}

fn config(rate_limit: usize) -> FilterConfig {
    FilterConfig { blacklist: Vec::new(), rate_limit, window: 100, whoareyou_limit: 2 }
}

fn magic() -> Vec<u8> {
    vec![0xabu8; MAGIC_LENGTH]
}

fn message_datagram(payload_byte: u8) -> Vec<u8> {
    let mut data = vec![0x01u8; MAGIC_LENGTH]; // tag, differs from the magic
    data.push(payload_byte);
    data
}

#[test]
fn test_initial_pass_denies_over_rate_within_window() {
    let mut filter = Filter::new(&config(3));
    let s = src(4000);
    assert!(filter.initial_pass(s, 10));
    assert!(filter.initial_pass(s, 11));
    assert!(filter.initial_pass(s, 12));
    // the threshold is crossed within the window: denied
    assert!(!filter.initial_pass(s, 13));
    // another source is unaffected
    assert!(filter.initial_pass(src(4001), 13));
    // a fresh window admits again
    assert!(filter.initial_pass(s, 150));
}

#[test]
fn test_blacklisted_source_denied() {
    let cfg = FilterConfig {
        blacklist: vec![src(6666)],
        rate_limit: 10,
        window: 100,
        whoareyou_limit: 2,
    };
    let mut filter = Filter::new(&cfg);
    assert!(!filter.initial_pass(src(6666), 0));
    assert!(filter.initial_pass(src(6667), 0));
}

#[test]
fn test_expected_source_bypasses_rate_limit() {
    let mut recv = RecvState::new(Filter::new(&config(1)), magic());
    let mut expected = ExpectedResponseTable::new();
    let s = src(4000);
    let data = message_datagram(0x55);

    // unsolicited: the first datagram passes, the second is over the rate
    assert!(recv.handle_inbound(&expected, s, &data, 10).is_some());
    assert!(recv.handle_inbound(&expected, s, &data, 11).is_none());

    // once we await a response from the source, it is always admitted
    expected.increment(s);
    assert!(recv.handle_inbound(&expected, s, &data, 12).is_some());
    assert!(recv.handle_inbound(&expected, s, &data, 13).is_some());
}

#[test]
fn test_malformed_datagram_dropped_silently() {
    let mut recv = RecvState::new(Filter::new(&config(10)), magic());
    let expected = ExpectedResponseTable::new();
    let s = src(4000);
    // too short to carry the framing header plus one byte
    let short = vec![0u8; MAGIC_LENGTH];
    assert!(recv.handle_inbound(&expected, s, &short, 0).is_none());
    // oversized
    let big = vec![0u8; MAX_PACKET_SIZE + 1];
    assert!(recv.handle_inbound(&expected, s, &big, 1).is_none());
}

#[test]
fn test_decode_whoareyou() {
    let m = magic();
    let mut data = m.clone();
    data.extend_from_slice(&[1, 2, 3]);
    match Packet::decode(&data, &m) {
        Ok(Packet::WhoAreYou { token }) => assert_eq!(token, vec![1, 2, 3]),
        other => panic!("expected a handshake packet, got {:?}", other),
    }
}

#[test]
fn test_decode_message() {
    let m = magic();
    let data = message_datagram(0x77);
    match Packet::decode(&data, &m) {
        Ok(Packet::Message { tag, payload }) => {
            assert_eq!(tag, vec![0x01u8; MAGIC_LENGTH]);
            assert_eq!(payload, vec![0x77]);
        }
        other => panic!("expected a message packet, got {:?}", other),
    }
}

#[test]
fn test_decode_size_bounds() {
    let m = magic();
    assert_eq!(Packet::decode(&vec![0u8; 32], &m), Err(PacketError::TooSmall));
    assert_eq!(Packet::decode(&Vec::new(), &m), Err(PacketError::TooSmall));
    assert_eq!(
        Packet::decode(&vec![0u8; MAX_PACKET_SIZE + 1], &m),
        Err(PacketError::TooLarge)
    );
    // exactly at the maximum is accepted
    assert!(Packet::decode(&vec![0u8; MAX_PACKET_SIZE], &m).is_ok());
}

#[test]
fn test_whoareyou_rate_limited_in_final_pass() {
    let mut recv = RecvState::new(Filter::new(&config(100)), magic());
    let expected = ExpectedResponseTable::new();
    let s = src(4000);
    let mut whoareyou = magic();
    whoareyou.push(9);
    // whoareyou_limit is 2: the third unsolicited handshake packet in the
    // window is dropped
    assert!(recv.handle_inbound(&expected, s, &whoareyou, 10).is_some());
    assert!(recv.handle_inbound(&expected, s, &whoareyou, 11).is_some());
    assert!(recv.handle_inbound(&expected, s, &whoareyou, 12).is_none());
    // ordinary messages from the same source still pass
    assert!(recv.handle_inbound(&expected, s, &message_datagram(1), 13).is_some());
}

#[test]
fn test_expected_response_counts() {
    let mut t = ExpectedResponseTable::new();
    let s = src(4000);
    assert!(!t.is_expected(s));
    t.increment(s);
    t.increment(s);
    assert!(t.is_expected(s));
    t.decrement(s);
    assert!(t.is_expected(s));
    t.decrement(s);
    assert!(!t.is_expected(s));
    // decrementing an absent source is harmless
    t.decrement(s);
    assert!(!t.is_expected(s));
}
