use oni_net::reliable::{Header, Reliable, Error};
use oni_net::seq::Sequence;

#[test]
fn read_write() {
    let tests = [
        (Header { seq: 10_000, ack: 100, ack_bits: 0 }, Header::MAX),
        (Header { seq: 100, ack: 10_000, ack_bits: 0 }, Header::MAX),
        (Header { seq: 10_000, ack: 100, ack_bits: 0xFEFEFFFE },
            Header::MIN + 1 + 3),
        (Header { seq: 100, ack: 10_000, ack_bits: 0xFEFEFFFE },
            Header::MIN + 1 + 3),
        (Header { seq: 200, ack: 100, ack_bits: 0xFFFFFFFF },
            Header::MIN),
        (Header { seq: 100, ack: 0xFFFF - 100, ack_bits: 0xFFFFFFFF },
            Header::MIN),
        (Header { seq: 200, ack: 100, ack_bits: 0xFeFe_FeFe }, Header::MIN + 4),
        (Header { seq: 200, ack: 100, ack_bits: 0xFeFe_FeFF }, Header::MIN + 3),
        (Header { seq: 200, ack: 100, ack_bits: 0xFeFe_FFFF }, Header::MIN + 2),
        (Header { seq: 200, ack: 100, ack_bits: 0xFeFF_FFFF }, Header::MIN + 1),
    ];

    let subs = [
        0, 100, 200, 300, 400,
        0xFFFF - 0, 0xFFFF - 100, 0xFFFF - 200, 0xFFFF - 300, 0xFFFF - 400,
        0xFFFF / 2,
        0xFFFF / 2 - 100, 0xFFFF / 2 - 200, 0xFFFF / 2 - 300, 0xFFFF / 2 - 400,
        0xFFFF / 2 + 100, 0xFFFF / 2 + 200, 0xFFFF / 2 + 300, 0xFFFF / 2 + 400,
    ];

    for (test, len) in &tests {
        for sub in subs.iter().cloned() {
            for i in 0..32 {
                let write = Header {
                    seq: test.seq.wrapping_add(sub),
                    ack: test.ack.wrapping_add(sub),
                    ack_bits: test.ack_bits.rotate_left(i),
                };

                let mut header = [0u8; Header::MAX];
                let w = write.write(&mut header[..]);
                assert_eq!(w, *len);

                let (read, r) = Header::read(&mut header[..w]).unwrap();
                assert_eq!(r, w);
                assert_eq!(read, write);
            }
        }
    }
}

#[test]
fn reliable() {
    let mut a = Reliable::default();
    let mut b = Reliable::default();

    let packet = [1, 2, 3, 4];

    let (s, p) = a.send(&packet).unwrap();
    assert_eq!(s, 0.into());
    let got = b.recv(&p).unwrap();
    assert_eq!(&got.payload[..], &packet);
    assert!(got.acked.is_empty());

    let (s, p) = a.send(&packet).unwrap();
    assert_eq!(s, 1.into());
    let got = b.recv(&p).unwrap();
    assert_eq!(&got.payload[..], &packet);
    for ack in got.acked {
        assert_eq!(ack, 0.into());
    }

    let (s, p) = b.send(&packet).unwrap();
    assert_eq!(s, 0.into());
    let got = a.recv(&p).unwrap();
    assert_eq!(&got.payload[..], &packet);
    for ack in got.acked {
        assert!(ack == 0.into() || ack == 1.into());
    }

    let (s, p) = b.send(&packet).unwrap();
    assert_eq!(s, 1.into());
    let got = a.recv(&p).unwrap();
    assert_eq!(&got.payload[..], &packet);
    for ack in got.acked {
        assert!(ack == 0.into() || ack == 1.into());
    }
}

#[test]
fn reliable_rejects_large_stale_and_invalid() {
    let mut a = Reliable::default();
    let mut b = Reliable::default();
    let big = vec![0u8; Reliable::MAX_SEND + 1];
    assert_eq!(a.send(&big).err(), Some(Error::PacketTooLarge));
    assert_eq!(b.recv(&vec![0u8; Reliable::MAX_RECV + 1]).err(), Some(Error::PacketTooLarge));
    assert_eq!(b.recv(&[0x70, 0, 0, 0]).err(), Some(Error::PacketHeaderInvalid));
    let mut first = None;
    for i in 0..300u32 {
        let (_, p) = a.send(&i.to_le_bytes()).unwrap();
        if i == 0 {
            first = Some(p.clone());
        }
        b.recv(&p).unwrap();
    }
    assert_eq!(b.recv(&first.unwrap()).err(), Some(Error::PacketStale { seq: Sequence(0) }));
}

#[test]
fn header_acks() {
    let h = Header { seq: 10, ack: 5, ack_bits: 0b1011 };
    let acks = h.ack_sequences();
    assert_eq!(acks, vec![Sequence(5), Sequence(4), Sequence(2)]);
    let mut buf = [0u8; Header::MAX];
    let n = h.write(&mut buf);
    // prefix, sequence, one-byte ack distance, and all four ack bytes
    // (none of them is 0xFF)
    assert_eq!(n, 1 + 2 + 1 + 4);
    assert_eq!(buf[0] & 0x80, 0x80);
    let h = Header { seq: 10, ack: 5, ack_bits: 0xFFFF_FF0B };
    let n = h.write(&mut buf);
    assert_eq!(n, 1 + 2 + 1 + 1);
}
