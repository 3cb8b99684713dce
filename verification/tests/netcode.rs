use oni_net::netcode::{read_encrypted_packet, Packet, MAX_PAYLOAD_BYTES, VERSION_INFO, REQUEST_BYTES};
use oni_net::protection::{NoProtection, ReplayProtection};

const PROTOCOL: u64 = 0x1122334455667788;

fn key() -> [u8; 32] {
    let mut k = [0u8; 32];
    for (i, b) in k.iter_mut().enumerate() {
        *b = i as u8 * 3 + 1;
    }
    k
}

fn roundtrip(p: Packet) -> Option<Packet> {
    let mut buf = [0u8; 1300];
    let n = p.write(&mut buf[..], &key(), PROTOCOL).unwrap();
    read_encrypted_packet(&buf[..n], &mut NoProtection, &key(), PROTOCOL)
}

#[test]
fn netcode_keep_alive_roundtrip() {
    let p = Packet::KeepAlive { sequence: 1000, client_index: 7, max_clients: 64 };
    match roundtrip(p) {
        Some(Packet::KeepAlive { sequence, client_index, max_clients }) => {
            assert_eq!(sequence, 1000);
            assert_eq!(client_index, 7);
            assert_eq!(max_clients, 64);
        }
        _ => panic!("keep-alive did not come back"),
    }
}

#[test]
fn netcode_challenge_roundtrip() {
    let mut data = [0u8; 300];
    for (i, b) in data.iter_mut().enumerate() {
        *b = (i % 251) as u8;
    }
    let p = Packet::Challenge { sequence: 0x0102_0304_0506, token_sequence: 99, token_data: data };
    match roundtrip(p) {
        Some(Packet::Challenge { sequence, token_sequence, token_data }) => {
            assert_eq!(sequence, 0x0102_0304_0506);
            assert_eq!(token_sequence, 99);
            assert_eq!(&token_data[..], &data[..]);
        }
        _ => panic!("challenge did not come back"),
    }
}

#[test]
fn netcode_payload_roundtrip() {
    let mut data = [0u8; MAX_PAYLOAD_BYTES];
    for i in 0..10 {
        data[i] = i as u8 + 100;
    }
    let p = Packet::Payload { sequence: 5, len: 10, data };
    match roundtrip(p) {
        Some(Packet::Payload { sequence, len, data: got }) => {
            assert_eq!(sequence, 5);
            assert_eq!(len, 10);
            assert_eq!(&got[..10], &data[..10]);
        }
        _ => panic!("payload did not come back"),
    }
}

#[test]
fn netcode_disconnect_roundtrip() {
    let p = Packet::Disconnect { sequence: 300 };
    match roundtrip(p) {
        Some(Packet::Disconnect { sequence }) => assert_eq!(sequence, 300),
        _ => panic!("disconnect did not come back"),
    }
}

#[test]
fn netcode_denied_sequence_zero() {
    // an 18-byte packet: prefix, one sequence byte and the tag
    let p = Packet::Denied { sequence: 0 };
    let mut buf = [0u8; 100];
    let n = p.write(&mut buf[..], &key(), PROTOCOL).unwrap();
    assert_eq!(n, 18);
    match roundtrip(Packet::Denied { sequence: 0 }) {
        Some(Packet::Denied { sequence }) => assert_eq!(sequence, 0),
        _ => panic!("denied did not come back"),
    }
    match roundtrip(Packet::Disconnect { sequence: 7 }) {
        Some(Packet::Disconnect { sequence }) => assert_eq!(sequence, 7),
        _ => panic!("disconnect did not come back"),
    }
}

#[test]
fn netcode_wrong_key_or_protocol() {
    let p = Packet::KeepAlive { sequence: 1, client_index: 0, max_clients: 1 };
    let mut buf = [0u8; 100];
    let n = p.write(&mut buf[..], &key(), PROTOCOL).unwrap();
    let other = [9u8; 32];
    assert!(read_encrypted_packet(&buf[..n], &mut NoProtection, &other, PROTOCOL).is_none());
    assert!(read_encrypted_packet(&buf[..n], &mut NoProtection, &key(), PROTOCOL + 1).is_none());
    let mut bad = buf;
    bad[n - 1] ^= 1;
    assert!(read_encrypted_packet(&bad[..n], &mut NoProtection, &key(), PROTOCOL).is_none());
}

#[test]
fn netcode_prefix_and_length() {
    let p = Packet::KeepAlive { sequence: 0x1234, client_index: 1, max_clients: 2 };
    let mut buf = [0u8; 100];
    let n = p.write(&mut buf[..], &key(), PROTOCOL).unwrap();
    // prefix, two sequence bytes, eight bytes of data, sixteen of tag
    assert_eq!(n, 1 + 2 + 8 + 16);
    assert_eq!(buf[0], 4 | (2 << 4));
    assert_eq!(buf[1], 0x34);
    assert_eq!(buf[2], 0x12);
}

#[test]
fn netcode_replay_refused() {
    let p = Packet::KeepAlive { sequence: 40, client_index: 1, max_clients: 2 };
    let mut buf = [0u8; 100];
    let n = p.write(&mut buf[..], &key(), PROTOCOL).unwrap();
    let mut rp = ReplayProtection::new();
    assert!(read_encrypted_packet(&buf[..n], &mut rp, &key(), PROTOCOL).is_some());
    assert!(read_encrypted_packet(&buf[..n], &mut rp, &key(), PROTOCOL).is_none());
}

#[test]
fn netcode_request_layout() {
    let private = [7u8; 1024];
    let p = Packet::Request {
        sequence: 3,
        version_info: VERSION_INFO,
        protocol_id: PROTOCOL,
        expire_timestamp: 1000,
        private_data: private,
    };
    let mut buf = [0u8; 1200];
    let n = p.write(&mut buf[..], &key(), PROTOCOL).unwrap();
    assert_eq!(n, REQUEST_BYTES);
    assert_eq!(buf[0], 0);
    assert_eq!(&buf[1..14], &VERSION_INFO[..]);
    assert_eq!(&buf[14..22], &PROTOCOL.to_le_bytes()[..]);
    assert_eq!(&buf[22..30], &1000u64.to_le_bytes()[..]);
    assert_eq!(&buf[30..38], &3u64.to_le_bytes()[..]);
    assert_eq!(&buf[38..1062], &private[..]);
}

#[test]
fn netcode_write_too_small() {
    let p = Packet::KeepAlive { sequence: 1, client_index: 0, max_clients: 1 };
    let mut buf = [5u8; 10];
    assert!(p.write(&mut buf[..], &key(), PROTOCOL).is_err());
    assert_eq!(buf, [5u8; 10]);
}
