use oni_net::addr::Addr;
use oni_net::xx::{reading_encrypted_packet, Matcher, Packet, Request, Token};

#[test]
fn xx_parse_classifies() {
    let data = [3u8, 1, 2];
    match Packet::parse(&data[..]) {
        Packet::Response(r) => assert_eq!(r.0, vec![3u8, 1, 2]),
        _ => panic!("not a response"),
    }
    match Packet::parse(&[9u8][..]) {
        Packet::Invalid(v) => assert_eq!(v, vec![9u8]),
        _ => panic!("not invalid"),
    }
    match Packet::parse(&[0u8, 5][..]) {
        Packet::Request(r) => assert_eq!(r.0, vec![0u8, 5]),
        _ => panic!("not a request"),
    }
}

#[test]
fn xx_request_fields() {
    let mut v = vec![0u8; 1062];
    v[1..14].copy_from_slice(b"NETCODE 1.01\0");
    v[14..22].copy_from_slice(&0xABCDu64.to_le_bytes());
    v[22..30].copy_from_slice(&77u64.to_le_bytes());
    v[30..38].copy_from_slice(&5u64.to_le_bytes());
    for i in 38..1062 {
        v[i] = (i % 200) as u8;
    }
    let r: Request = Request::from(v.clone());
    assert!(r.check_size());
    assert_eq!(r.version_info(), b"NETCODE 1.01\0".to_vec());
    assert_eq!(r.protocol_id(), 0xABCD);
    assert_eq!(r.expire_timestamp(), 77);
    assert_eq!(r.sequence(), 5);
    assert_eq!(r.token(), v[38..1062].to_vec());
    assert_eq!(r.associated(), v[1..30].to_vec());
    let short = Request::from(vec![0u8; 10]);
    assert!(!short.check_size());
}

#[test]
fn xx_header_checks() {
    let mut p = [0u8; 30];
    // keep-alive with one sequence byte
    p[0] = 4 | (1 << 4);
    assert!(reading_encrypted_packet(true, &p[..]));
    assert!(reading_encrypted_packet(false, &p[..]));
    // too short
    assert!(!reading_encrypted_packet(true, &p[..17]));
    // challenge on a server, request on a client
    p[0] = 2 | (1 << 4);
    assert!(!reading_encrypted_packet(true, &p[..]));
    assert!(reading_encrypted_packet(false, &p[..]));
    p[0] = 0 | (1 << 4);
    assert!(!reading_encrypted_packet(false, &p[..]));
    // no sequence bytes, too many sequence bytes, unknown type
    p[0] = 4;
    assert!(!reading_encrypted_packet(true, &p[..]));
    p[0] = 4 | (9 << 4);
    assert!(!reading_encrypted_packet(true, &p[..]));
    p[0] = 7 | (1 << 4);
    assert!(!reading_encrypted_packet(true, &p[..]));
    // eight sequence bytes want 25 bytes at least
    p[0] = 4 | (8 << 4);
    assert!(!reading_encrypted_packet(true, &p[..24]));
    assert!(reading_encrypted_packet(true, &p[..25]));
}

#[test]
fn xx_token_write_read() {
    let mut m = Matcher { ips: vec![Addr::V4 { ip: 0x7F00_0001, port: 40000 }] };
    let mut t = m.generate_token();
    assert_eq!(t.client_id, 1);
    assert_eq!(t.timeout_seconds, 0xFFFF_FFFF);
    t.client_to_server_key = [1u8; 32];
    t.server_to_client_key = [2u8; 32];
    t.user_data = [3u8; 256];
    let mut w = Vec::new();
    t.write_to(&mut w);
    // id, timeout, then the addresses (count, kind, ip, port), keys, user data
    assert_eq!(&w[0..8], &1u64.to_le_bytes()[..]);
    assert_eq!(&w[8..12], &0xFFFF_FFFFu32.to_le_bytes()[..]);
    assert_eq!(w[12], 1);
    assert_eq!(w.len(), 12 + 4 + 7 + 32 + 32 + 256);
    assert_eq!(&w[w.len() - 256..], &[3u8; 256][..]);

    // read_from wants the keys first, then the addresses
    let mut r = Vec::new();
    r.extend_from_slice(&9u64.to_le_bytes());
    r.extend_from_slice(&30u32.to_le_bytes());
    r.extend_from_slice(&[4u8; 32]);
    r.extend_from_slice(&[5u8; 32]);
    r.extend_from_slice(&w[12..12 + 4 + 7]);
    r.extend_from_slice(&[6u8; 256]);
    let (back, n) = Token::read_from(&r[..]).unwrap();
    assert_eq!(n, r.len());
    assert_eq!(back.client_id, 9);
    assert_eq!(back.timeout_seconds, 30);
    assert_eq!(back.client_to_server_key, [4u8; 32]);
    assert_eq!(back.server_to_client_key, [5u8; 32]);
    assert_eq!(back.ips, vec![Addr::V4 { ip: 0x7F00_0001, port: 40000 }]);
    assert_eq!(&back.user_data[..], &[6u8; 256][..]);
    assert!(Token::read_from(&r[..r.len() - 1]).is_err());
    assert!(Token::read_from(&r[..10]).is_err());
}
