use oni_net::addr::{Addr, read_ips, write_ips, MAX_SERVERS_PER_CONNECT};
use oni_net::bytes::IoError;
use oni_net::chan::{Sequenced, Error as ChanError};
use oni_net::encryption_manager::Mapping;
use oni_net::incoming::Incoming;
use oni_net::seq::Sequence;
use oni_net::server_list::{ServerList, SERVER_LIST_LEN};
use oni_net::token::{PrivateToken, DATA, USER};
use oni_net::utils::keygen;

const TEST_TIMEOUT_SECONDS: u32 = 15;

#[test]
fn err_invalid_header() {
    let mut ss = Sequenced::default();
    let mut packet = [0x00, 0xFF, 3, 4];
    let e = ss.recv(&mut packet[..]);
    assert_eq!(e, Err(ChanError::Stale { seq: 0xFF00.into() }));
}

#[test]
fn sequenced_send_recv() {
    let mut a = Sequenced::new();
    let mut b = Sequenced::new();
    let (s0, p0) = a.send(b"abc").unwrap();
    assert_eq!(s0, Sequence(0));
    assert_eq!(p0, vec![0, 0, b'a', b'b', b'c']);
    let (s1, mut p1) = a.send(b"de").unwrap();
    assert_eq!(s1, Sequence(1));
    assert_eq!(a.next_sequence(), Sequence(2));
    assert_eq!(b.recv(&mut p1), Ok((Sequence(1), b"de".to_vec())));
    assert_eq!(a.send(&[0u8; 1025]), Err(ChanError::TooLarge));
    assert_eq!(b.recv(&mut [0u8; 1027]), Err(ChanError::TooLarge));
    assert_eq!(b.recv(&mut [0u8; 1]), Err(ChanError::TooSmall));
}

#[test]
fn ips_roundtrip() {
    let ips = vec![
        Addr::V4 { ip: 0x7f00_0001, port: 40000 },
        Addr::V4 { ip: 0xc0a8_0102, port: 1 },
    ];
    let mut out = Vec::new();
    write_ips(&mut out, &ips);
    assert_eq!(out.len(), 4 + 2 * 7);
    assert_eq!(&out[..4], &[2, 0, 0, 0]);
    assert_eq!(&out[4..11], &[1, 127, 0, 0, 1, 0x40, 0x9c]);
    let (back, n) = read_ips(&out).unwrap();
    assert_eq!(back, ips);
    assert_eq!(n, out.len());
}

#[test]
fn ips_errors() {
    assert_eq!(read_ips(&[1, 0, 0]), Err(IoError::UnexpectedEof));
    assert_eq!(read_ips(&[0, 0, 0, 0]), Err(IoError::InvalidInput));
    assert_eq!(read_ips(&[33, 0, 0, 0]), Err(IoError::InvalidInput));
    assert_eq!(read_ips(&[1, 0, 0, 0, 3]), Err(IoError::InvalidInput));
    assert_eq!(read_ips(&[1, 0, 0, 0, 0]), Err(IoError::InvalidInput));
    assert_eq!(read_ips(&[1, 0, 0, 0, 1, 1, 2]), Err(IoError::UnexpectedEof));
    let r: &[u8] = &[1, 0, 0, 0, 1, 127, 0, 0, 1, 0x40, 0x9C];
    assert_eq!(read_ips(r).unwrap().0, vec![Addr::V4 { ip: 0x7f00_0001, port: 40000 }]);
    let mut v6 = vec![1, 0, 0, 0, 2];
    v6.extend_from_slice(&[0x01, 0x20, 0, 0, 0, 0, 0, 0, 0, 0, 0, 0, 0, 0, 0x01, 0x00]);
    v6.extend_from_slice(&[0x50, 0xc3]);
    let (ips, n) = read_ips(&v6).unwrap();
    assert_eq!(n, v6.len());
    // segments are read little-endian
    assert_eq!(ips, vec![Addr::V6 { ip: 0x2001_0000_0000_0000_0000_0000_0000_0001, port: 50000 }]);
    let _ = MAX_SERVERS_PER_CONNECT;
}

#[test]
fn server_list_limits() {
    let mut list = ServerList::new();
    for i in 0..SERVER_LIST_LEN {
        assert_eq!(list.push(Addr::V4 { ip: i as u32, port: 1 }), Ok(()));
    }
    let extra = Addr::V4 { ip: 999, port: 1 };
    assert_eq!(list.push(extra), Err(extra));
    assert!(list.contains(&Addr::V4 { ip: 3, port: 1 }));
    assert!(!list.contains(&extra));
    assert_eq!(list.as_slice().len(), SERVER_LIST_LEN);
    assert!(ServerList::frame(&[0u8; DATA + 1]).is_none());
    let d = ServerList::frame(&[7u8; 3]).unwrap();
    assert_eq!(&d[..4], &[7, 7, 7, 0]);
}

#[test]
fn sealion_mapping() {
    let mut manager = Mapping::new(0);
    let entries: Vec<(Addr, [u8; 32], [u8; 32])> = (0..5u32)
        .map(|id| (Addr::V4 { ip: 0x7f00_0001 + id, port: 20000 + id as u16 }, keygen(), keygen()))
        .collect();
    let (first, last) = (entries[0].0, entries[4].0);

    for (addr, send, recv) in &entries {
        assert!(manager.find(*addr).is_none());
        assert!(manager.insert(*addr, *send, *recv, TEST_TIMEOUT_SECONDS));
        let e = manager.find(*addr).unwrap();
        assert_eq!(e.send_key(), send);
        assert_eq!(e.recv_key(), recv);
    }
    assert!(!manager.remove(Addr::V4 { ip: 0x7f00_0001, port: 50000 }));
    assert!(manager.remove(first));
    assert!(manager.remove(last));
    for (addr, send, _) in &entries {
        let e = manager.find(*addr);
        if *addr == first || *addr == last {
            assert!(e.is_none());
        } else {
            assert_eq!(e.unwrap().send_key(), send);
        }
    }
    assert!(manager.insert(first, entries[0].1, entries[0].2, TEST_TIMEOUT_SECONDS));
    assert!(!manager.insert(first, entries[0].1, entries[0].2, TEST_TIMEOUT_SECONDS));
    assert!(manager.insert(last, entries[4].1, entries[4].2, TEST_TIMEOUT_SECONDS));
    for (addr, _, recv) in &entries {
        assert_eq!(manager.recv_key(*addr), Some(*recv));
    }

    // mappings time out
    manager.add_time(2 * TEST_TIMEOUT_SECONDS as u64 * 1000);
    for (addr, _, _) in &entries {
        assert!(manager.find(*addr).is_none());
        assert!(!manager.contains(*addr));
    }

    // a mapping used in time stays
    assert!(manager.insert(first, entries[0].1, entries[0].2, TEST_TIMEOUT_SECONDS));
    manager.add_time(TEST_TIMEOUT_SECONDS as u64 * 1000);
    assert!(manager.find(first).is_some());
    manager.add_time(TEST_TIMEOUT_SECONDS as u64 * 1000);
    assert!(manager.find(first).is_some());
    let k = manager.find(first).unwrap();
    assert!(!k.expired(manager_time(&k)));
    assert!(k.expired(manager_time(&k) + k.timeout() + 1));

    manager.reset(0);
    for (addr, _, _) in &entries {
        assert!(manager.find(*addr).is_none());
    }
}

fn manager_time(k: &oni_net::encryption_manager::Keys) -> u64 {
    k.last_access
}

#[test]
fn incoming_token_history() {
    let mut inc = Incoming::new(7, keygen()).unwrap();
    let a = Addr::V4 { ip: 1, port: 2 };
    let b = Addr::V4 { ip: 3, port: 4 };
    let tag = [5u8; 16];
    let far = u64::MAX;
    assert!(inc.add_token_history(tag, a, far));
    assert!(inc.add_token_history(tag, a, far));
    assert!(!inc.add_token_history(tag, b, far));
    assert!(inc.add_token_history([6u8; 16], b, 10));
    // an update drops what expired
    inc.update_at(20);
    assert!(inc.add_token_history([6u8; 16], a, 30));
    assert!(!inc.add_token_history(tag, b, far));

    let token = PrivateToken::generate(42, 9, [0u8; DATA], [0u8; USER]);
    inc.insert(a, 100, &token);
    let kp = inc.remove(&a).unwrap();
    assert_eq!(kp.timeout_secs(), 9);
    assert_eq!(kp.timeout(), 9);
    assert_eq!(kp.send_key(), token.server_key());
    assert_eq!(kp.recv_key(), token.client_key());
    assert!(inc.remove(&a).is_none());
}

#[test]
fn sequenced_drops_older() {
    let mut c = Sequenced::default();
    let (s, p) = c.recv(&mut [5, 0, 7]).unwrap();
    assert_eq!((s, p), (Sequence(5), vec![7u8]));
    assert_eq!(c.recv(&mut [3, 0, 9]), Err(ChanError::Stale { seq: Sequence(3) }));
    assert!(c.recv(&mut [6, 0, 1]).is_ok());
    assert_eq!(c.recv(&mut [5, 0, 1]), Err(ChanError::Stale { seq: Sequence(5) }));
}

#[test]
fn sealion_manager() {
    let mut manager = Mapping::new(0);

    // generate some test sealion mappings
    struct Map {
        addr: Addr,
        send_key: [u8; 32],
        recv_key: [u8; 32],
    }

    let mapping: Vec<_> = (0..5u32)
        .map(|id| Map {
            addr: Addr::V4 { ip: 0x7f00_0000 + id + 1, port: 20000 + id as u16 },
            send_key: keygen(),
            recv_key: keygen(),
        })
        .collect();

    let first = mapping.first().unwrap();
    let last = mapping.last().unwrap();

    // add the sealion mappings to the manager and make sure they can be looked up by addr
    for map in &mapping {
        assert!(manager.find(map.addr).is_none());
        assert!(manager.insert(map.addr, map.send_key, map.recv_key, TEST_TIMEOUT_SECONDS));
        let e = manager.find(map.addr).unwrap();
        assert_eq!(e.send_key(), &map.send_key);
        assert_eq!(e.recv_key(), &map.recv_key);
    }

    // removing an sealion mapping that doesn't exist should return 0
    assert!(!manager.remove(Addr::V4 { ip: 0x7f00_0001, port: 50000 }));

    // remove the first and last sealion mappings
    assert!(manager.remove(first.addr));
    assert!(manager.remove(last.addr));

    // make sure the sealion mappings that were removed can no longer be looked up by addr
    for map in &mapping {
        let e = manager.find(map.addr);
        if map.addr == first.addr || map.addr == last.addr {
            assert!(e.is_none());
        } else {
            let e = e.unwrap();
            assert_eq!(e.send_key(), &map.send_key);
            assert_eq!(e.recv_key(), &map.recv_key);
        }
    }

    // add the sealion mappings back in
    assert!(manager.insert(first.addr, first.send_key, first.recv_key, TEST_TIMEOUT_SECONDS));
    assert!(manager.insert(last.addr, last.send_key, last.recv_key, TEST_TIMEOUT_SECONDS));

    // all sealion mappings should be able to be looked up by addr again
    for map in &mapping {
        let e = manager.find(map.addr).unwrap();
        assert_eq!(e.send_key(), &map.send_key);
        assert_eq!(e.recv_key(), &map.recv_key);
    }

    // check that sealion mappings time out properly
    manager.add_time(2 * TEST_TIMEOUT_SECONDS as u64 * 1000);

    for map in &mapping {
        assert!(manager.find(map.addr).is_none());
    }

    // add the same sealion mappings after timeout
    for map in &mapping {
        assert!(manager.find(map.addr).is_none());
        assert!(manager.insert(map.addr, map.send_key, map.recv_key, TEST_TIMEOUT_SECONDS));
        let e = manager.find(map.addr).unwrap();
        assert_eq!(e.send_key(), &map.send_key);
        assert_eq!(e.recv_key(), &map.recv_key);
    }

    // reset the sealion mapping and verify that all sealion mappings have been removed
    manager.reset(0);

    for map in &mapping {
        assert!(manager.find(map.addr).is_none());
    }

    // test the expire time for sealion mapping works as expected
    assert!(manager.insert(first.addr, first.send_key, first.recv_key, TEST_TIMEOUT_SECONDS));
}
