use oni_net::packet_queue::{Entry, PacketQueuePool, DEFAULT_PACKET_QUEUE_SIZE};
use oni_net::netcode::MAX_PAYLOAD_BYTES;

#[test]
fn queue() {
    let mut pool = PacketQueuePool::new();
    let mut queue = pool.spawn();

    // attempting to pop a packet off an empty queue should return NULL
    assert!(queue.pop().is_none());

    // add some packets to the queue and make sure they pop off in the correct order
    {
        let packets: Vec<_> = (0..100).map(|i| vec![0u8; (i+1) * 2]).collect();

        for (i, packet) in packets.iter().enumerate() {
            assert!(queue.push(i as u64, &packet[..]));
        }

        assert_eq!(queue.len(), 100);

        for (i, p) in packets.iter().enumerate() {
            let (sequence, packet) = queue.pop().unwrap();
            assert_eq!(sequence, i as u64);
            assert_eq!(packet, &p[..]);
        }
    }

    // after all entries are popped off,
    // the queue is empty, so calls to pop should return None
    assert!(queue.is_empty());
    assert!(queue.pop().is_none());

    // test that the packet queue can be filled to max capacity
    let packets: Vec<_> = (0..DEFAULT_PACKET_QUEUE_SIZE).map(|i| vec![0u8; i]).collect();
    for (i, p) in packets.iter().enumerate() {
        assert!(queue.push(i as u64, &p[..]), "len: {}", queue.len());
    }

    assert!(queue.is_full());

    // when the queue is full, attempting to push a packet should fail
    assert!(!queue.push(0, &vec![0u8; 100]));

    // make sure all packets pop off in the correct order
    for (i, p) in packets.iter().enumerate() {
        let (sequence, packet) = queue.pop().unwrap();
        assert_eq!(sequence, i as u64);
        assert_eq!(packet, &p[..]);
    }

    assert!(queue.pop().is_none());

    // add some packets again
    for (i, p) in packets.iter().enumerate() {
        assert!(queue.push(i as u64, &p[..]), "len: {}", queue.len());
    }

    // clear the queue and make sure that all packets are freed
    queue.clear();
    assert!(queue.is_empty());
    assert!(queue.pop().is_none());
}

#[test]
fn queue_truncates_and_recycles() {
    let mut pool = PacketQueuePool::new();
    let mut q = pool.spawn();
    let big = vec![7u8; MAX_PAYLOAD_BYTES + 50];
    assert!(q.push_truncated(9, &big[..]));
    let (s, d) = q.pop().unwrap();
    assert_eq!(s, 9);
    assert_eq!(d.len(), MAX_PAYLOAD_BYTES);
    assert!(q.push(1, &[1, 2, 3]));
    pool.store(q);
    let mut again = pool.spawn();
    assert_eq!(again.pop(), Some((1, vec![1u8, 2, 3])));
}

#[test]
fn queue_len_when_wrapped() {
    let mut pool = PacketQueuePool::new();
    let mut q = pool.spawn();
    for i in 0..DEFAULT_PACKET_QUEUE_SIZE {
        assert!(q.push(i as u64, &[]));
    }
    assert_eq!(q.len(), DEFAULT_PACKET_QUEUE_SIZE);
    q.pop().unwrap();
    assert!(q.push(0, &[]));
    // the packets now wrap around the end of the ring
    assert!(q.is_full());
    assert_eq!(q.len(), 0);
}

#[test]
fn entry_store_load() {
    let mut e = Entry::new();
    assert_eq!(e.load_data(), (0, vec![]));
    e.store_data(4, &[1, 2]);
    assert_eq!(e.load_data(), (4, vec![1u8, 2]));
}
