use oni_net::bytes::IoError;
use oni_net::qos::{AcksSize, Error};

#[test]
fn acks_size_bits() {
    assert_eq!(AcksSize { bytes: 0 }.bits(), 0);
    assert_eq!(AcksSize { bytes: 4 }.bits(), 32);
    assert_eq!(AcksSize { bytes: 16 }.bits(), 128);
}

#[test]
fn qos_error_from_io() {
    match Error::from(IoError::UnexpectedEof) {
        Error::Io(IoError::UnexpectedEof) => {}
        _ => panic!("wrong error"),
    }
}
