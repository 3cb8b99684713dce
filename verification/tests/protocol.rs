use oni_net::protocol::{
    write_header, extract_header, sequence_bytes_required, new_challenge_packet, ChallengePacket, RequestPacket,
    EmptyPacket, keep_alive_packet, disconnect_packet, denied_packet, send_payload, read_packet, Packet, HMAC, MTU,
    MAX_PAYLOAD, OVERHEAD, CHALLENGE_PACKET_LEN, KEEP_ALIVE, PAYLOAD,
};
use oni_net::bytes::IoError;
use oni_net::token::{ChallengeToken, PublicToken, CHALLENGE_LEN, DATA, USER};
use oni_net::utils::{keygen, crypto_random, time_secs};

const SEQUENCE_TABLE: [(u64, u32); 24] = [
    (0x______________00, 1),
    (0x______________11, 1),
    (0x______________FF, 1),

    (0x____________0100, 2),
    (0x____________1122, 2),
    (0x____________FFFF, 2),

    (0x__________010000, 3),
    (0x__________112233, 3),
    (0x__________FFFFFF, 3),

    (0x________01000000, 4),
    (0x________11223344, 4),
    (0x________FFFFFFFF, 4),

    (0x______0100000000, 5),
    (0x______1122334455, 5),
    (0x______FFFFFFFFFF, 5),

    (0x____010000000000, 6),
    (0x____112233445566, 6),
    (0x____FFFFFFFFFFFF, 6),

    (0x__01000000000000, 7),
    (0x__11223344556677, 7),
    (0x__FFFFFFFFFFFFFF, 7),

    (0x0100000000000000, 8),
    (0x1122334455667788, 8),
    (0xFFFFFFFFFFFFFFFF, 8),
];

#[test]
fn lib_test_sequence() {
    for (seq, bytes) in &SEQUENCE_TABLE {
        assert_eq!(sequence_bytes_required(*seq), *bytes);
    }
}

#[test]
fn protocol_test_sequence() {
    for (seq, bytes) in &SEQUENCE_TABLE {
        assert_eq!(sequence_bytes_required(*seq), *bytes);
    }
}

#[test]
fn header_rw() {
    for i in 0..=3 {
        let h = write_header(i, 1234);
        assert_eq!(extract_header(&h).unwrap(), (i, 1234));
    }
}

fn decode_payload_cases() {
    let mut buffer = [0u8; 2 + HMAC];

    // full 8 bit sequence and bad size
    assert_eq!(Packet::decode(&mut buffer), Packet::Invalid(vec![0u8; 2 + HMAC]));

    // full 8 bit sequence and ok size
    assert_eq!(Packet::decode(&mut [0u8; 9 + HMAC]), Packet::Payload {
        seq: 0,
        buf: vec![],
        tag: [0u8; HMAC],
    });

    // zero sequence
    buffer[0] = 0b00000010;
    assert_eq!(Packet::decode(&mut buffer), Packet::Payload {
        seq: 0,
        buf: vec![],
        tag: [0u8; HMAC],
    });

    // one sequence
    buffer[0] = 0b00000110;
    assert_eq!(Packet::decode(&mut buffer), Packet::Payload {
        seq: 1,
        buf: vec![],
        tag: [0u8; HMAC],
    });

    buffer[0] = 0b11111110;
    assert_eq!(Packet::decode(&mut buffer), Packet::Payload {
        seq: 0x3F,
        buf: vec![],
        tag: [0u8; HMAC],
    });

    // maximum 14 bit sequence
    buffer[0] = 0b11111110;
    buffer[1] = 0b11111111;
    assert_eq!(Packet::decode(&mut buffer), Packet::Payload {
        seq: 0x3fff,
        buf: vec![],
        tag: [0u8; HMAC],
    });

    // 21 bit sequence and bad size
    buffer[0] = 0b00000100;
    buffer[1] = 0b00000000;
    assert_eq!(Packet::decode(&mut buffer), Packet::Invalid(vec![
        4, 0,
        0, 0, 0, 0,
        0, 0, 0, 0,
        0, 0, 0, 0,
        0, 0, 0, 0,
    ]));
}

#[test]
fn lib_decode_payload_packet() {
    decode_payload_cases();
}

#[test]
fn protocol_decode_payload_packet() {
    decode_payload_cases();
}

#[test]
fn challenge_packet() {
    let protocol = 0x11223344_55667788;
    let seq = 123;
    let key = keygen();

    let mut challenge = [0u8; 8 + CHALLENGE_LEN];
    crypto_random(&mut challenge);

    let mut p = new_challenge_packet(protocol, seq, &key, &challenge);
    let v = ChallengePacket::client_read(protocol, &mut p, &key).unwrap();

    assert_eq!(&challenge[..], &v[..]);
}

#[test]
fn request_packet() {
    assert_eq!(std::mem::size_of::<RequestPacket>(), MTU);

    let protocol = 0x11223344_55667788;
    let client_id = 0x55667788_11223344;

    let expire = 0x12345678;
    let timeout = 0x87654321;

    let private_key = keygen();

    let mut data = [0u8; DATA];
    let mut user = [0u8; USER];
    crypto_random(&mut data);
    crypto_random(&mut user);

    let tok = PublicToken::generate(data, user, expire, timeout, client_id, protocol, &private_key).unwrap();

    let req = RequestPacket::new(protocol, tok.expire_timestamp(), tok.nonce(), *tok.token());
    let mut req = RequestPacket::write(req);

    let timestamp = time_secs().unwrap();
    let (expire, private) = RequestPacket::open(&mut req[..], protocol, timestamp, &private_key).unwrap();
    assert_eq!(expire, tok.expire_timestamp());
    assert_eq!(&private.data()[..], &tok.data()[..]);
}

#[test]
fn header_layout() {
    assert_eq!(write_header(3, 1), [0xC0, 0, 0, 1]);
    assert_eq!(write_header(1, 0x4000_0001), [0x40, 0, 0, 1]);
    assert_eq!(extract_header(&[0x80, 0x01, 0x02, 0x03]), Ok((2, 0x0001_0203)));
    assert_eq!(extract_header(&[0, 0, 0]), Err(()));
    assert_eq!(extract_header(&[0, 0, 0, 0, 0]), Err(()));
}

#[test]
fn empty_packets_open() {
    let protocol = 0x1122_3344_5566_7788;
    let key = keygen();
    let other = keygen();
    for p in [keep_alive_packet(protocol, 7, &key), disconnect_packet(protocol, 8, &key), denied_packet(protocol, 9, &key)] {
        assert_eq!(p.len(), OVERHEAD);
        assert_eq!(EmptyPacket::read(protocol, &p, &key), Ok(()));
        assert_eq!(EmptyPacket::read(protocol, &p, &other), Err(()));
        assert_eq!(EmptyPacket::read(protocol + 1, &p, &key), Err(()));
        assert_eq!(EmptyPacket::read(protocol, &p[..OVERHEAD - 1], &key), Err(()));
    }
    let p = keep_alive_packet(protocol, 7, &key);
    assert_eq!(extract_header(&p[..4]), Ok((KEEP_ALIVE, 7)));
}

#[test]
fn payload_packet_read() {
    let protocol = 42;
    let key = keygen();
    let payload = [5u8; 100];
    let packet = send_payload(protocol, 77, &key, &payload);
    assert_eq!(packet.len(), 100 + OVERHEAD);
    assert_eq!(extract_header(&packet[..4]), Ok((PAYLOAD, 77)));
    assert_ne!(&packet[4..104], &payload[..]);

    let plain = read_packet(protocol, &key, &packet, |_| false).unwrap();
    assert_eq!(&plain[..], &payload[..]);
    assert_eq!(read_packet(protocol, &key, &packet, |s| s == 77), Err(()));
    assert_eq!(read_packet(protocol, &keygen(), &packet, |_| false), Err(()));
    assert_eq!(read_packet(protocol, &key, &packet[..19], |_| false), Err(()));

    let big = vec![1u8; 2000];
    let packet = send_payload(protocol, 78, &key, &big);
    assert_eq!(packet.len(), MAX_PAYLOAD + OVERHEAD);
    let plain = read_packet(protocol, &key, &packet, |_| false).unwrap();
    assert_eq!(&plain[..], &big[..MAX_PAYLOAD]);
}

#[test]
fn challenge_packet_tampered() {
    let protocol = 1;
    let key = keygen();
    let challenge = [9u8; 8 + CHALLENGE_LEN];
    let mut p = new_challenge_packet(protocol, 5, &key, &challenge);
    assert_eq!(p.len(), CHALLENGE_PACKET_LEN);
    p[10] ^= 1;
    let before = p;
    assert_eq!(ChallengePacket::client_read(protocol, &mut p, &key), Err(()));
    assert_eq!(&p[..], &before[..]);
}

#[test]
fn challenge_packet_token() {
    let protocol = 3;
    let recv_key = keygen();
    let challenge_key = keygen();
    let mut user = [0u8; USER];
    crypto_random(&mut user);
    let token = ChallengeToken::new(0xABCD, user);
    let written = ChallengePacket::write(1000, &challenge_key, token);
    let mut p = new_challenge_packet(protocol, 6, &recv_key, &written);
    let opened = ChallengePacket::open_token(protocol, &mut p, &recv_key, &challenge_key).unwrap();
    assert_eq!(opened.client_id(), 0xABCD);
    assert_eq!(&opened.user()[..], &user[..]);
}

#[test]
fn compact_payload_roundtrip() {
    let protocol = 0x55;
    let key = keygen();
    let msg = [3u8; 40];
    let mut m = msg;
    let mut buf = [0u8; 100];
    let n = Packet::encode_payload(protocol, &mut buf, 1000, &key, &mut m).unwrap();
    assert_eq!(n, 2 + 40 + HMAC);
    match Packet::decode(&buf[..n]) {
        Packet::Payload { seq, mut buf, tag } => {
            assert_eq!(seq, 1000);
            Packet::open(protocol, &mut buf, seq, 0, &tag, &key).unwrap();
            assert_eq!(&buf[..], &msg[..]);
        }
        other => panic!("wrong packet: {:?}", other),
    }
}

#[test]
fn compact_short_buffer() {
    let key = keygen();
    let mut m = [1u8; 10];
    let mut buf = [0xEEu8; 5];
    assert_eq!(Packet::encode_handshake(1, &mut buf, 0x1234, &key, &mut m), Err(IoError::WriteZero));
    // two sequence bytes: one in the length bits
    assert_eq!(buf[0], 0b0010_0001 | (1 << 1));
    assert_eq!(&buf[1..3], &[0x34, 0x12]);
    let mut tiny = [0u8; 1];
    let mut m2 = [1u8; 10];
    assert_eq!(Packet::encode_close_custom(1, &mut tiny, 0x1234, &key, &mut m2), Err(IoError::WriteZero));
    assert_eq!(m2, [1u8; 10]);
    let mut buf = [0u8; 64];
    assert_eq!(Packet::encode_close(1, &mut buf, 5, &key), Ok(2 + HMAC));
    assert_eq!(buf[0], 0b0011_0001);
}

#[test]
fn compact_handshake_roundtrip() {
    let key = [0u8; 32];
    let mut buf = [0u8; 64];
    assert_eq!(Packet::encode_handshake(1, &mut buf[..], 0, &key, &mut []), Ok(18));
    assert_eq!(buf[0], 0x21);
    assert_eq!(buf[1], 0x00);
    match Packet::decode(&buf[..18]) {
        Packet::Handshake { seq: 0, .. } => {}
        other => panic!("wrong packet: {:?}", other),
    }
    let mut m = [7u8; 5];
    let n = Packet::encode_close_custom(1, &mut buf[..], 0x0102_0304_0506, &key, &mut m).unwrap();
    assert_eq!(n, 1 + 6 + 5 + HMAC);
    assert_eq!(buf[0], 0x31 | (5 << 1));
    match Packet::decode(&buf[..n]) {
        Packet::Close { seq, buf: body, tag } => {
            assert_eq!(seq, 0x0102_0304_0506);
            let mut body = body;
            Packet::open(1, &mut body, seq, buf[0], &tag, &key).unwrap();
            assert_eq!(body, vec![7u8; 5]);
        }
        other => panic!("wrong packet: {:?}", other),
    }
}

#[test]
fn compact_payload_sequence_zero() {
    let key = [0u8; 32];
    let mut buf = [0u8; 64];
    assert_eq!(Packet::encode_payload(1, &mut buf[..], 0, &key, &mut []), Ok(18));
    assert_eq!(buf[0], 0b10);
    assert_eq!(buf[1], 0);
    match Packet::decode(&buf[..18]) {
        Packet::Payload { seq: 0, .. } => {}
        other => panic!("wrong packet: {:?}", other),
    }
}

#[test]
fn compact_payload_long_sequences() {
    let key = [0u8; 32];
    for &(seq, bytes) in &[(0x3FFFu64, 2usize), (0x4000, 3), (0x1F_FFFF, 3), (0x20_0000, 4),
        (0xFF_FFFF_FFFF_FFFF, 8), (0x100_0000_0000_0000, 9), (u64::MAX, 9)] {
        let mut buf = [0u8; 64];
        let n = Packet::encode_payload(1, &mut buf[..], seq, &key, &mut [3u8; 4]).unwrap();
        assert_eq!(n, bytes + 4 + HMAC);
        match Packet::decode(&buf[..n]) {
            Packet::Payload { seq: s, buf: body, .. } => {
                assert_eq!(s, seq);
                assert_eq!(body.len(), 4);
            }
            other => panic!("wrong packet: {:?}", other),
        }
    }
}

#[test]
fn compact_reserved_prefixes_invalid() {
    let b = [0x03u8; 30];
    assert_eq!(Packet::decode(&b), Packet::Invalid(b.to_vec()));
    let mut c = [0u8; 30];
    c[0] = 0x1F;
    assert_eq!(Packet::decode(&c), Packet::Invalid(c.to_vec()));
}

#[test]
fn header_kind_codes() {
    let key = [1u8; 32];
    let d = denied_packet(7, 9, &key);
    assert_eq!(d, disconnect_packet(7, 9, &key));
    assert_eq!(d[0] >> 6, 0b10);
    assert!(EmptyPacket::read(7, &d, &key).is_ok());
    let ch = [4u8; 308];
    let mut p = new_challenge_packet(7, 9, &key, &ch);
    assert_eq!(p[0] >> 6, 0b01);
    assert_eq!(extract_header(&p[..4]).unwrap().1, 9);
    assert_eq!(ChallengePacket::client_read(7, &mut p[..], &key), Ok(ch));
}

#[test]
fn compact_decode_kinds() {
    let mut b = [0u8; 30];
    b[0] = 0b0000_0001;
    assert_eq!(Packet::decode(&b), Packet::Request { buf: vec![0u8; 29] });
    b[0] = 0b0100_0001;
    assert_eq!(Packet::decode(&b), Packet::Invalid(b.to_vec()));
    b[0] = 0b0010_0011;
    b[1] = 0x34;
    b[2] = 0x12;
    match Packet::decode(&b) {
        Packet::Handshake { seq, buf, .. } => {
            assert_eq!(seq, 0x1234);
            assert_eq!(buf.len(), 30 - 3 - HMAC);
        }
        other => panic!("wrong packet: {:?}", other),
    }
    b[0] = 0b0011_0001;
    match Packet::decode(&b) {
        Packet::Close { seq, .. } => assert_eq!(seq, 0x34),
        other => panic!("wrong packet: {:?}", other),
    }
}
