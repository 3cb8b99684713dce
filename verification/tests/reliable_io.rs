use oni_net::reliable_io::{Regular, Fragment, Header};
use oni_net::bytes::IoError;

#[test]
fn regular_header() {
    let tests = [
        (Regular { seq: 10_000, ack: 100, ack_bits: 0 }, Regular::MAX_BYTES),
        (Regular { seq: 100, ack: 10_000, ack_bits: 0 }, Regular::MAX_BYTES),
        (Regular { seq: 10_000, ack: 100, ack_bits: 0xFEFEFFFE }, 1 + 2 + 2 + 3),
        (Regular { seq: 100, ack: 10_000, ack_bits: 0xFEFEFFFE }, 1 + 2 + 2 + 3),
        (Regular { seq: 200, ack: 100, ack_bits: 0xFFFEFFFF }, 1 + 2 + 1 + 1),
        (Regular { seq: 200, ack: 100, ack_bits: 0xFeFe_FeFe }, 1 + 2 + 1 + 4),
        (Regular { seq: 200, ack: 100, ack_bits: 0xFeFe_FeFF }, 1 + 2 + 1 + 3),
        (Regular { seq: 200, ack: 100, ack_bits: 0xFeFe_FFFe }, 1 + 2 + 1 + 3),
        (Regular { seq: 200, ack: 100, ack_bits: 0xFeFF_FeFe }, 1 + 2 + 1 + 3),
        (Regular { seq: 200, ack: 100, ack_bits: 0xFFFe_FeFe }, 1 + 2 + 1 + 3),
        (Regular { seq: 200, ack: 100, ack_bits: 0xFeFe_FFFF }, 1 + 2 + 1 + 2),
        (Regular { seq: 200, ack: 100, ack_bits: 0xFFFF_FeFe }, 1 + 2 + 1 + 2),
        (Regular { seq: 200, ack: 100, ack_bits: 0xFFFe_FFFe }, 1 + 2 + 1 + 2),
        (Regular { seq: 200, ack: 100, ack_bits: 0xFeFF_FeFF }, 1 + 2 + 1 + 2),
        (Regular { seq: 200, ack: 100, ack_bits: 0xFeFF_FFFF }, 1 + 2 + 1 + 1),
        (Regular { seq: 200, ack: 100, ack_bits: 0xFFFe_FFFF }, 1 + 2 + 1 + 1),
        (Regular { seq: 200, ack: 100, ack_bits: 0xFFFF_FeFF }, 1 + 2 + 1 + 1),
        (Regular { seq: 200, ack: 100, ack_bits: 0xFFFF_FFFe }, 1 + 2 + 1 + 1),
        (Regular { seq: 200, ack: 100, ack_bits: 0xFFFFFFFF }, 1 + 2 + 1 + 0),
        (Regular { seq: 100, ack: 0xFFFF - 100, ack_bits: 0xFFFFFFFF }, 1 + 2 + 1 + 0),
    ];

    let subs = [0, 100, 200, 300, 0xFFFF, 0xFFFF - 100, 0xFFFF - 200, 0xFFFF - 300];
    for (test, len) in &tests {
        for sub in subs.iter().cloned() {
            for i in 0..32 {
                let write = Regular {
                    seq: test.seq.wrapping_sub(sub),
                    ack: test.ack.wrapping_sub(sub),
                    ack_bits: test.ack_bits.rotate_left(i),
                };

                let mut header = [0u8; Regular::MAX_BYTES];
                let w = write.write(&mut header[..]).unwrap();
                assert_eq!(w, *len);

                let (read, r) = Regular::read(&mut header[..w]).unwrap();
                assert_eq!(r, w);
                assert_eq!(read, write);
            }
        }
    }
}

#[test]
fn regular_write_short_buffer() {
    let h = Regular::new(10_000, 100, 0);
    let mut buf = [0xAAu8; 4];
    assert_eq!(h.write(&mut buf), Err(IoError::WriteZero));
    assert_eq!(Regular::read(&[0, 1]), Err(IoError::UnexpectedEof));
}

#[test]
fn fragment_header() {
    let f = Fragment::new(0x1234, 3, 7);
    let mut buf = [0u8; 8];
    assert_eq!(f.write(&mut buf), Ok(Fragment::BYTES));
    assert_eq!(&buf[..5], &[1, 0x34, 0x12, 3, 7]);
    assert_eq!(Fragment::read(&buf[..5]), Ok((f, 5)));
    match Header::read(&buf[..5]) {
        Ok((Header::Fragment(g), 5)) => assert_eq!(g, f),
        _ => panic!("expected a fragment header"),
    }
    assert!(f.validate(16, 1024, 1024));
    assert!(!f.validate(16, 1024, 100));
    assert!(Fragment::new(1, 6, 7).validate(16, 1024, 100));
    assert!(!Fragment::new(1, 6, 17).validate(16, 1024, 100));
}
