use oni_net::seq::{Sequence, SequenceBuffer};

#[test]
fn sequence() {
    fn sequence_greater_than(a: u16, b: u16) -> bool {
        const HALF: u16 = u16::max_value() / 2;
        a > b && a - b <= HALF ||
        a < b && b - a  > HALF
    }

    let a = Sequence(0);
    let b = Sequence(0xFFFF);

    assert_eq!(a.prev(), b);
    assert_eq!(b.next(), a);

    let tests = &[
        (1, 0, 0xFFFF),
        (2, 1, 0),
        (3, 2, 1),

        (0xFFFF, 0xFFFF - 1, 0xFFFF - 2),
        (0x0000, 0xFFFF - 0, 0xFFFF - 1),
    ];

    for (a, b, c) in tests.into_iter().cloned() {
        assert!(sequence_greater_than(a, b));
        assert!(sequence_greater_than(b, c));
        assert!(sequence_greater_than(a, c));

        let a = Sequence(a);
        let b = Sequence(b);
        let c = Sequence(c);

        assert!(a > b, "{:?} {:?}", a, b);
        assert!(b > c, "{:?} {:?}", b, c);
        assert!(a > c, "{:?} {:?}", a, c);
        assert!(b < a, "{:?} {:?}", b, a);
        assert!(c < b, "{:?} {:?}", c, b);
        assert!(c < a, "{:?} {:?}", c, a);

        assert!(a >= b, "{:?} {:?}", a, b);
        assert!(b >= c, "{:?} {:?}", b, c);
        assert!(a >= c, "{:?} {:?}", a, c);
        assert!(b <= a, "{:?} {:?}", b, a);
        assert!(c <= b, "{:?} {:?}", c, b);
        assert!(c <= a, "{:?} {:?}", c, a);
    }
}

#[test]
fn sequence_buffer() {
    const TEST_SEQUENCE_BUFFER_SIZE: u16 = 256;
    #[derive(Clone, PartialEq, Debug)]
    struct Data {
        seq: u16,
    }

    let mut buf: SequenceBuffer<Data> = SequenceBuffer::new(TEST_SEQUENCE_BUFFER_SIZE as usize);
    assert_eq!(buf.seq(), 0.into());
    assert_eq!(buf.capacity(), TEST_SEQUENCE_BUFFER_SIZE as usize);

    for seq in 0..TEST_SEQUENCE_BUFFER_SIZE {
        assert!(buf.find(seq.into()).is_none());
        assert!(buf.find_mut(seq.into()).is_none());
        assert!(buf.test_insert(seq.into()));
        assert!(buf.available(seq.into()));
        assert!(!buf.exists_entry(seq.into()));
    }

    for seq in 0..TEST_SEQUENCE_BUFFER_SIZE * 4 + 1 {
        assert!(buf.test_insert(seq.into()));
        assert!(!buf.exists_entry(seq.into()));

        assert!(buf.insert(seq.into(), Data { seq }));
        assert_eq!(buf.seq().0, seq + 1);

        assert!(!buf.available(seq.into()));
        assert!(buf.exists_entry(seq.into()));
    }

    for seq in 0..TEST_SEQUENCE_BUFFER_SIZE + 1 {
        assert!(!buf.test_insert(seq.into()));
        assert!(!buf.insert(seq.into(), Data { seq }));
        assert!(!buf.available(seq.into()));
        assert!(!buf.exists_entry(seq.into()));
    }

    let mut seq = TEST_SEQUENCE_BUFFER_SIZE * 4;
    for _ in 0..TEST_SEQUENCE_BUFFER_SIZE {
        let mut data = Data { seq };
        assert_eq!(buf.find(seq.into()), Some(&data));
        assert_eq!(buf.find_mut(seq.into()), Some(&mut data));
        assert!(buf.test_insert(seq.into()));
        assert!(!buf.available(seq.into()));
        assert!(buf.exists_entry(seq.into()));
        seq -= 1;
    }

    let mut seq = TEST_SEQUENCE_BUFFER_SIZE * 4;
    for _ in 0..TEST_SEQUENCE_BUFFER_SIZE {
        let mut data = Data { seq };
        assert_eq!(buf.find(seq.into()), Some(&data));
        assert_eq!(buf.find_mut(seq.into()), Some(&mut data));
        seq -= 1;
    }

    let mut seq = TEST_SEQUENCE_BUFFER_SIZE * 4;
    for _ in 0..TEST_SEQUENCE_BUFFER_SIZE {
        let data = Data { seq };
        assert_eq!(buf.remove(seq.into()), Some((seq.into(), data)));
        seq -= 1;
    }

    buf.reset();
    assert_eq!(buf.seq(), Sequence::from(0));
    assert_eq!(buf.capacity(), TEST_SEQUENCE_BUFFER_SIZE as usize);
    for i in 0..TEST_SEQUENCE_BUFFER_SIZE {
        assert!(buf.find(i.into()).is_none());
        assert!(buf.find_mut(i.into()).is_none());
    }
}

#[test]
fn generate_ack_bits() {
    const TEST_SEQUENCE_BUFFER_SIZE: u16 = 256;
    #[derive(Clone, PartialEq, Debug)]
    struct Data;

    let mut buf: SequenceBuffer<Data> = SequenceBuffer::new(TEST_SEQUENCE_BUFFER_SIZE as usize);

    let (ack, ack_bits) = buf.generate_ack_bits();
    assert!(ack == 0xFFFF);
    assert!(ack_bits == 0);

    for seq in 0..TEST_SEQUENCE_BUFFER_SIZE + 1 {
        assert!(buf.insert(seq.into(), Data));
    }

    let (ack, ack_bits) = buf.generate_ack_bits();
    assert!(ack == TEST_SEQUENCE_BUFFER_SIZE);
    assert!(ack_bits == 0xFFFFFFFF);

    buf.reset();

    for &seq in [1u16, 5, 9, 11].iter() {
        assert!(buf.insert(seq.into(), Data));
    }

    let (ack, ack_bits) = buf.generate_ack_bits();
    assert!(ack == 11);
    assert!(ack_bits == 1 | (1<<(11-9)) | (1<<(11-5)) | (1<<(11-1)));
}

#[test]
fn sequence_wraps_both_ways() {
    assert_eq!(Sequence(0xFFFF).next(), Sequence(0));
    assert_eq!(Sequence(0).prev(), Sequence(0xFFFF));
    assert_eq!(Sequence(1234).next().prev(), Sequence(1234));
}

#[test]
fn sequence_half_distance_is_ordered() {
    // ahead by at most half the space counts as greater, and the order is
    // antisymmetric
    let a = Sequence(0);
    let b = Sequence(32767);
    assert!(b > a);
    assert!(a < b);
    let c = Sequence(32768);
    assert!(a > c);
    assert!(c < a);
}

#[test]
fn sequence_buffer_slots_and_removal() {
    let mut buf: SequenceBuffer<u32> = SequenceBuffer::new(4);
    assert!(buf.insert(Sequence(2), 20));
    assert_eq!(buf.get(2), Some(&(Sequence(2), 20)));
    assert_eq!(buf.at(2), Some(&20));
    assert_eq!(buf.at(3), None);
    assert_eq!(buf.get(9), None);
    if let Some(v) = buf.at_mut(2) {
        *v = 21;
    }
    assert_eq!(buf.find(Sequence(2)), Some(&21));
    if let Some(e) = buf.get_mut(2) {
        e.1 = 22;
    }
    assert_eq!(buf.find(Sequence(2)), Some(&22));
    // a newer sequence empties the slots it skips over
    assert!(buf.insert(Sequence(4), 40));
    assert_eq!(buf.seq(), Sequence(5));
    assert!(buf.exists_entry(Sequence(2)));
    assert!(buf.insert(Sequence(6), 60));
    assert!(!buf.exists_entry(Sequence(2)));
    buf.remove_entries(Sequence(0), Sequence(3));
    assert!(buf.find(Sequence(4)).is_none());
    assert!(buf.find(Sequence(6)).is_none());
}

#[test]
fn sequence_buffer_create_if() {
    let mut b: SequenceBuffer<u32> = SequenceBuffer::new(4);
    b.create_if(Sequence(5), || 7);
    assert_eq!(b.get(1), Some(&(Sequence(5), 7)));
    // the slot is taken: nothing is made, whatever the sequence
    b.create_if(Sequence(1), || 9);
    assert_eq!(b.get(1), Some(&(Sequence(5), 7)));
    b.create_if(Sequence(5), || 8);
    assert_eq!(b.find(Sequence(5)), Some(&7));
}

#[test]
fn sequence_buffer_remove_entries_with() {
    let mut b: SequenceBuffer<u32> = SequenceBuffer::new(8);
    for i in 0..5u16 {
        assert!(b.insert(Sequence(i), 10 + i as u32));
    }
    let taken = std::cell::RefCell::new(Vec::new());
    b.remove_entries_with(Sequence(1), Sequence(3), |e: (Sequence, u32)| taken.borrow_mut().push(e));
    assert_eq!(taken.borrow().clone(), vec![(Sequence(1), 11), (Sequence(2), 12), (Sequence(3), 13)]);
    assert_eq!(b.find(Sequence(0)), Some(&10));
    assert_eq!(b.find(Sequence(2)), None);
    assert_eq!(b.find(Sequence(4)), Some(&14));
}
