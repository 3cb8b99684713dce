use oni_net::bytes::IoError;
use oni_net::endpoint::{Config, Endpoint};
use oni_net::reliable_io::Error;
use oni_net::seq::Sequence;

#[test]
fn endpoint_send_regular() {
    let mut e = Endpoint::new(&Config::default());
    assert_eq!(e.next_packet_sequence(), Sequence(0));
    let out = e.send_packet(&[9, 8, 7]).unwrap();
    // prefix (all four ack bytes sent, one-byte ack distance), sequence 0,
    // ack distance 1, four zero ack bytes, then the packet
    assert_eq!(out, vec![vec![62, 0, 0, 1, 0, 0, 0, 0, 9, 8, 7]]);
    assert_eq!(e.next_packet_sequence(), Sequence(1));
    assert_eq!(e.acks(), &[] as &[u16]);
}

#[test]
fn endpoint_send_errors() {
    let mut e = Endpoint::new(&Config::default());
    let big = vec![0u8; 16 * 1024 + 1];
    assert_eq!(e.send_packet(&big), Err(Error::PacketTooLargeToSend));
    assert_eq!(e.next_packet_sequence(), Sequence(0));
    // header and packet do not fit one datagram
    let p = vec![1u8; 1020];
    assert_eq!(e.send_packet(&p), Err(Error::Io(IoError::WriteZero)));
    assert_eq!(e.next_packet_sequence(), Sequence(1));
}

#[test]
fn endpoint_send_fragment() {
    let mut config = Config::default();
    config.fragment_above = 100;
    let mut e = Endpoint::new(&config);
    let p = vec![5u8; 1024];
    let out = e.send_packet(&p).unwrap();
    assert_eq!(out.len(), 1);
    assert_eq!(&out[0][..5], &[1, 0, 0, 0, 0]);
    assert_eq!(&out[0][5..13], &[62, 0, 0, 1, 0, 0, 0, 0]);
    assert_eq!(&out[0][13..], &p[..]);
    e.clear_acks();
    assert!(e.acks().is_empty());
}

fn accept_into(seen: &std::cell::RefCell<Vec<(u16, Vec<u8>)>>, ok: bool) -> impl Fn(Sequence, &[u8]) -> bool + '_ {
    move |s: Sequence, p: &[u8]| {
        seen.borrow_mut().push((s.0, p.to_vec()));
        ok
    }
}

#[test]
fn endpoint_recv_regular_and_ack() {
    let mut a = Endpoint::new(&Config::default());
    let mut b = Endpoint::new(&Config::default());
    let out = a.send_packet(&[1, 2, 3]).unwrap();
    let seen = std::cell::RefCell::new(Vec::new());
    assert_eq!(b.recv_packet(&out[0], accept_into(&seen, true)), Ok(()));
    assert_eq!(seen.borrow().clone(), vec![(0u16, vec![1u8, 2, 3])]);
    // b's reply acknowledges sequence 0, and a marks it once
    let reply = b.send_packet(&[4]).unwrap();
    assert_eq!(reply, vec![vec![62, 0, 0, 0, 1, 0, 0, 0, 4]]);
    let seen_a = std::cell::RefCell::new(Vec::new());
    assert_eq!(a.recv_packet(&reply[0], accept_into(&seen_a, true)), Ok(()));
    assert_eq!(a.acks(), &[0u16]);
    assert_eq!(seen_a.borrow().clone(), vec![(0u16, vec![4u8])]);
    assert_eq!(a.recv_packet(&reply[0], accept_into(&seen_a, true)), Ok(()));
    assert_eq!(a.acks(), &[0u16]);
    a.clear_acks();
    assert!(a.acks().is_empty());
}

#[test]
fn endpoint_recv_rejected_is_not_recorded() {
    let mut a = Endpoint::new(&Config::default());
    let mut b = Endpoint::new(&Config::default());
    let out = a.send_packet(&[7]).unwrap();
    let seen = std::cell::RefCell::new(Vec::new());
    assert_eq!(b.recv_packet(&out[0], accept_into(&seen, false)), Ok(()));
    assert_eq!(seen.borrow().len(), 1);
    // nothing was received: the reply acknowledges 65535 with no bits set
    let reply = b.send_packet(&[]).unwrap();
    assert_eq!(reply, vec![vec![62, 0, 0, 1, 0, 0, 0, 0]]);
}

#[test]
fn endpoint_recv_errors() {
    let mut b = Endpoint::new(&Config::default());
    let seen = std::cell::RefCell::new(Vec::new());
    let big = vec![0u8; 16 * 1024 + 1];
    assert_eq!(b.recv_packet(&big, accept_into(&seen, true)), Err(Error::PacketTooLargeToRecv));
    assert_eq!(b.recv_packet(&[0, 1], accept_into(&seen, true)), Err(Error::Io(IoError::UnexpectedEof)));
    assert_eq!(b.recv_packet(&[1, 0, 0], accept_into(&seen, true)), Err(Error::FragmentHeaderInvalid));
    // sixteen fragments is the limit: a last id of 16 means seventeen
    assert_eq!(b.recv_packet(&[1, 0, 0, 0, 16, 9], accept_into(&seen, true)), Err(Error::FragmentHeaderInvalid));
    // an id past the last
    assert_eq!(b.recv_packet(&[1, 0, 0, 3, 2, 9], accept_into(&seen, true)), Err(Error::FragmentHeaderInvalid));
    assert!(seen.borrow().is_empty());
}

#[test]
fn endpoint_recv_stale() {
    let mut a = Endpoint::new(&Config::default());
    let mut b = Endpoint::new(&Config::default());
    let mut all = Vec::new();
    for _ in 0..300 {
        all.push(a.send_packet(&[0]).unwrap().remove(0));
    }
    let seen = std::cell::RefCell::new(Vec::new());
    assert_eq!(b.recv_packet(&all[299], accept_into(&seen, true)), Ok(()));
    assert_eq!(b.recv_packet(&all[0], accept_into(&seen, true)), Err(Error::PacketStale));
    assert_eq!(b.recv_packet(&all[100], accept_into(&seen, true)), Ok(()));
    assert_eq!(seen.borrow().len(), 2);
}

#[test]
fn endpoint_recv_sent_fragment() {
    let mut config = Config::default();
    config.fragment_above = 100;
    let mut a = Endpoint::new(&config);
    let mut b = Endpoint::new(&config);
    let p: Vec<u8> = (0..1024u32).map(|i| (i % 251) as u8).collect();
    let out = a.send_packet(&p).unwrap();
    let seen = std::cell::RefCell::new(Vec::new());
    assert_eq!(b.recv_packet(&out[0], accept_into(&seen, true)), Ok(()));
    assert_eq!(seen.borrow().clone(), vec![(0u16, p)]);
}

fn fragment(seq: u16, id: u8, last: u8, data: &[u8]) -> Vec<u8> {
    let mut v = vec![1, seq as u8, (seq >> 8) as u8, id, last];
    v.extend_from_slice(data);
    v
}

#[test]
fn endpoint_recv_fragments_any_order() {
    let mut b = Endpoint::new(&Config::default());
    let header = oni_net::reliable_io::Regular::new(5, 4, 0).to_bytes();
    let mut first = header.clone();
    first.extend_from_slice(&[10, 11]);
    let f0 = fragment(5, 0, 2, &first);
    let f1 = fragment(5, 1, 2, &[12, 13]);
    let f2 = fragment(5, 2, 2, &[14]);
    let seen = std::cell::RefCell::new(Vec::new());
    assert_eq!(b.recv_packet(&f2, accept_into(&seen, true)), Ok(()));
    assert_eq!(b.recv_packet(&f2, accept_into(&seen, true)), Err(Error::FragmentAlreadyReceived));
    // a fragment that counts a different number of fragments
    assert_eq!(b.recv_packet(&fragment(5, 0, 3, &first), accept_into(&seen, true)), Err(Error::FragmentInvalid));
    assert_eq!(b.recv_packet(&f0, accept_into(&seen, true)), Ok(()));
    assert!(seen.borrow().is_empty());
    assert_eq!(b.recv_packet(&f1, accept_into(&seen, true)), Ok(()));
    assert_eq!(seen.borrow().clone(), vec![(5u16, vec![10u8, 11, 12, 13, 14])]);
}

#[test]
fn endpoint_recv_fragments_bad_joined_header() {
    let mut b = Endpoint::new(&Config::default());
    let seen = std::cell::RefCell::new(Vec::new());
    // the joined pieces start with a prefix that is no regular header
    assert_eq!(b.recv_packet(&fragment(9, 0, 0, &[0x40, 1, 2]), accept_into(&seen, true)), Err(Error::FragmentInvalid));
    assert_eq!(b.recv_packet(&fragment(9, 0, 0, &[]), accept_into(&seen, true)), Err(Error::FragmentInvalid));
    assert!(seen.borrow().is_empty());
}

#[test]
fn endpoint_send_many_fragments_and_reassemble() {
    let mut config = Config::default();
    config.fragment_above = 100;
    let mut a = Endpoint::new(&config);
    let mut b = Endpoint::new(&config);
    let p: Vec<u8> = (0..2500u32).map(|i| (i % 253) as u8).collect();
    let out = a.send_packet(&p).unwrap();
    assert_eq!(out.len(), 3);
    assert_eq!(&out[0][..5], &[1, 0, 0, 0, 2]);
    assert_eq!(&out[1][..5], &[1, 0, 0, 1, 2]);
    assert_eq!(&out[2][..5], &[1, 0, 0, 2, 2]);
    assert_eq!(out[0].len(), 5 + 8 + 1024);
    assert_eq!(&out[1][5..], &p[1024..2048]);
    assert_eq!(&out[2][5..], &p[2048..]);
    let seen = std::cell::RefCell::new(Vec::new());
    for i in [2usize, 0, 2, 1] {
        let _ = b.recv_packet(&out[i], accept_into(&seen, true));
    }
    assert_eq!(seen.borrow().clone(), vec![(0u16, p)]);
}
