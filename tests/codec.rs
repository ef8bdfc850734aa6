use node_messages::addr::PeerAddr;
use node_messages::payload::LazyPayload;
use node_messages::peer_response::PeerResponse;
use node_messages::primary_ping::PrimaryPing;
use node_messages::wire::{DecodeError, Encodable};

type Ping = PrimaryPing<PeerAddr, PeerAddr>;

fn v4(n: u32) -> PeerAddr {
    PeerAddr::V4 { ip: n, port: (n % 60000) as u16 + 1 }
}

fn v6(n: u128) -> PeerAddr {
    PeerAddr::V6 { ip: n, port: 4130 }
}

fn encode_peers(m: &PeerResponse) -> Vec<u8> {
    let mut out = Vec::new();
    m.serialize(&mut out);
    out
}

fn encode_ping(m: &Ping) -> Vec<u8> {
    let mut out = Vec::new();
    m.write_le(&mut out).unwrap();
    out
}

#[test]
fn peer_addr_exact_bytes() {
    let mut out = Vec::new();
    PeerAddr::V4 { ip: 0x0102_0304, port: 0x1234 }.write_le(&mut out);
    assert_eq!(out, vec![0, 4, 3, 2, 1, 0x34, 0x12]);
    let mut out6 = Vec::new();
    PeerAddr::V6 { ip: 1, port: 2 }.write_le(&mut out6);
    assert_eq!(out6.len(), 19);
    assert_eq!(out6[0], 1);
    assert_eq!(out6[1], 1);
    assert_eq!(out6[17], 2);
    assert_eq!(out6[18], 0);
}

#[test]
fn peer_addr_unknown_tag_is_invalid() {
    let bytes = vec![2u8, 0, 0, 0, 0, 0, 0];
    assert_eq!(PeerAddr::read_le(&bytes, 0).unwrap_err(), DecodeError::InvalidField);
}

#[test]
fn peer_response_round_trip() {
    let m = PeerResponse { peers: vec![v4(1), v6(2), v4(3)] };
    let bytes = encode_peers(&m);
    assert_eq!(bytes.len(), 1 + 7 + 19 + 7);
    assert_eq!(bytes[0], 3);
    assert_eq!(PeerResponse::deserialize(&bytes).unwrap(), m);
}

#[test]
fn peer_response_empty() {
    let m = PeerResponse { peers: vec![] };
    let bytes = encode_peers(&m);
    assert_eq!(bytes, vec![0u8]);
    assert_eq!(PeerResponse::deserialize(&bytes).unwrap(), m);
    assert_eq!(PeerResponse::deserialize(&[]).unwrap_err(), DecodeError::Truncated);
}

#[test]
fn peer_response_caps_at_255() {
    let peers: Vec<PeerAddr> = (0..300u32).map(v4).collect();
    let m = PeerResponse { peers: peers.clone() };
    let bytes = encode_peers(&m);
    assert_eq!(bytes[0], 255);
    let decoded = PeerResponse::deserialize(&bytes).unwrap();
    assert_eq!(decoded.peers.len(), 255);
    assert_eq!(decoded.peers[..], peers[..255]);
}

#[test]
fn peer_response_every_prefix_fails() {
    let m = PeerResponse { peers: vec![v4(9), v6(10)] };
    let bytes = encode_peers(&m);
    for cut in 0..bytes.len() {
        assert!(PeerResponse::deserialize(&bytes[..cut]).is_err());
    }
}

#[test]
fn message_names() {
    let m = PeerResponse { peers: vec![] };
    assert_eq!(m.name(), "PeerResponse");
    let p = Ping::new(1, v4(1), LazyPayload::from_object(v4(2)), vec![]);
    assert_eq!(p.name(), "PrimaryPing");
}

#[test]
fn primary_ping_scenario_version_seven() {
    let cert = v6(0xdead_beef);
    let p = Ping::from_objects(7, v4(5), cert, vec![]);
    let bytes = encode_ping(&p);
    let decoded = Ping::read_le(&bytes).unwrap();
    assert_eq!(decoded.version, 7);
    assert_eq!(decoded.block_locators, v4(5));
    assert!(decoded.batch_certificates.is_empty());
    assert!(matches!(decoded.primary_certificate, LazyPayload::Buffer(_)));
    assert_eq!(decoded.primary_certificate.deserialize_blocking().unwrap(), cert);
}

#[test]
fn primary_ping_round_trip_with_batch() {
    let p = Ping::from_objects(3, v6(1), v4(2), vec![v4(3), v6(4)]);
    let bytes = encode_ping(&p);
    let decoded = Ping::read_le(&bytes).unwrap();
    assert_eq!(decoded.version, 3);
    assert_eq!(decoded.batch_certificates.len(), 2);
    assert_eq!(decoded.batch_certificates[0].deserialize_blocking().unwrap(), v4(3));
    assert_eq!(decoded.batch_certificates[1].deserialize_blocking().unwrap(), v6(4));
    assert_eq!(encode_ping(&decoded), bytes);
}

#[test]
fn primary_ping_every_prefix_fails() {
    let p = Ping::from_objects(3, v6(1), v4(2), vec![v4(3)]);
    let bytes = encode_ping(&p);
    for cut in 0..bytes.len() {
        assert!(Ping::read_le(&bytes[..cut]).is_err());
    }
}

#[test]
fn primary_ping_huge_count_is_truncated() {
    let mut bytes = Vec::new();
    bytes.extend_from_slice(&7u32.to_le_bytes());
    v4(1).write_le(&mut bytes);
    bytes.extend_from_slice(&0u32.to_le_bytes());
    bytes.extend_from_slice(&[0xFF, 0xFF]);
    assert_eq!(Ping::read_le(&bytes).unwrap_err(), DecodeError::Truncated);
}

#[test]
fn primary_ping_too_many_certificates() {
    let mut batch: Vec<LazyPayload<PeerAddr>> = (0..65535).map(|_| LazyPayload::Buffer(vec![])).collect();
    batch.push(LazyPayload::Buffer(vec![1, 2, 3]));
    let p = Ping::new(1, v4(1), LazyPayload::Buffer(vec![]), batch);
    let mut out = Vec::new();
    assert!(p.write_le(&mut out).is_ok());
    let head = 4 + 7 + 4;
    assert_eq!(out[head..head + 2], [0xFF, 0xFF]);
    assert_eq!(out.len(), head + 2 + 65535 * 4);
    assert!(out[head + 2..].iter().all(|b| *b == 0));
    let decoded = Ping::read_le(&out).unwrap();
    assert_eq!(decoded.batch_certificates.len(), 65535);
}

#[test]
fn decode_errors_name_the_failing_field() {
    assert_eq!(Ping::read_le(&[7, 0]).unwrap_err(), DecodeError::Truncated);
    let mut bad_tag = Vec::new();
    bad_tag.extend_from_slice(&7u32.to_le_bytes());
    bad_tag.push(9);
    assert_eq!(Ping::read_le(&bad_tag).unwrap_err(), DecodeError::InvalidField);
    assert_eq!(PeerResponse::deserialize(&[1, 5, 0, 0]).unwrap_err(), DecodeError::InvalidField);
    assert_eq!(PeerResponse::deserialize(&[1, 0, 0, 0]).unwrap_err(), DecodeError::Truncated);
    assert_eq!(PeerResponse::deserialize(&[2]).unwrap_err(), DecodeError::Truncated);
}

#[test]
fn raw_payload_passes_through() {
    let original = vec![3u8, 0, 0, 0, 0xAA, 0xBB, 0xCC, 0x99];
    let (payload, end) = LazyPayload::<PeerAddr>::read_le(&original, 0).unwrap();
    assert_eq!(end, 7);
    assert_eq!(payload, LazyPayload::Buffer(vec![0xAA, 0xBB, 0xCC]));
    let mut out = Vec::new();
    payload.write_le(&mut out).unwrap();
    assert_eq!(out[..], original[..7]);
    assert_eq!(payload.deserialize_blocking().unwrap_err(), DecodeError::InnerDecodeFailed);
}

#[test]
fn payload_length_past_end_is_truncated() {
    let bytes = vec![10u8, 0, 0, 0, 1, 2];
    assert_eq!(LazyPayload::<PeerAddr>::read_le(&bytes, 0).unwrap_err(), DecodeError::Truncated);
}

#[test]
fn materialize_equivalence() {
    let t = v6(77);
    let obj = LazyPayload::from_object(t);
    assert_eq!(obj.deserialize_blocking().unwrap(), t);
    let mut bytes = Vec::new();
    obj.write_le(&mut bytes).unwrap();
    assert_eq!(bytes.len(), 4 + 19);
    assert_eq!(bytes[0], 19);
    let (raw, _) = LazyPayload::<PeerAddr>::read_le(&bytes, 0).unwrap();
    assert_eq!(raw.deserialize_blocking().unwrap(), t);
}

#[test]
fn decoding_arbitrary_bytes_never_panics() {
    let mut seed: u32 = 12345;
    for len in 0..200usize {
        let mut bytes = Vec::with_capacity(len);
        for _ in 0..len {
            seed = seed.wrapping_mul(1103515245).wrapping_add(12345);
            bytes.push((seed >> 16) as u8);
        }
        let _ = PeerResponse::deserialize(&bytes);
        let _ = Ping::read_le(&bytes);
    }
}
