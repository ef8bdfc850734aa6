use node_messages::addr::PeerAddr;
use node_messages::block_request::BlockRequest;
use node_messages::ping::Ping;
use node_messages::wire::DecodeError;

#[test]
fn block_request_exact_bytes_and_round_trip() {
    let m = BlockRequest { start_height: 1, end_height: 0x0102_0304 };
    let mut out = Vec::new();
    m.serialize(&mut out);
    assert_eq!(out, vec![1, 0, 0, 0, 4, 3, 2, 1]);
    assert_eq!(BlockRequest::deserialize(&out).unwrap(), m);
    assert_eq!(m.name(), "BlockRequest");
}

#[test]
fn block_request_prefixes_are_truncated() {
    let m = BlockRequest { start_height: 10, end_height: 20 };
    let mut out = Vec::new();
    m.serialize(&mut out);
    for cut in 0..out.len() {
        assert_eq!(BlockRequest::deserialize(&out[..cut]).unwrap_err(), DecodeError::Truncated);
    }
}

#[test]
fn ping_round_trip_and_prefixes() {
    let m = Ping { version: 9, block_locators: PeerAddr::V4 { ip: 7, port: 8 } };
    let mut out = Vec::new();
    m.serialize(&mut out);
    assert_eq!(out.len(), 4 + 7);
    assert_eq!(out[0], 9);
    assert_eq!(Ping::<PeerAddr>::deserialize(&out).unwrap(), m);
    assert_eq!(m.name(), "Ping");
    for cut in 0..out.len() {
        assert!(Ping::<PeerAddr>::deserialize(&out[..cut]).is_err());
    }
}
