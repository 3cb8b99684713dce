use oni_net::encrypted::{Encrypted, Allowed, MAX_PACKET_BYTES, MAX_PAYLOAD_BYTES, MAX_CHANNEL_ID, CHALLENGE_BYTES};
use oni_net::protection::{NoProtection, ReplayProtection};
use oni_net::utils::{keygen, crypto_random};

const TEST_PROTOCOL: u64 = 0x1122334455667788;
const TEST_SEQ: u64 = 1000;

#[test]
fn connection_denied_packet() {
    let mut buffer = [0u8; MAX_PACKET_BYTES];
    let packet_key = keygen();

    let written = Encrypted::Denied.write(&mut buffer[..], &packet_key, TEST_PROTOCOL, TEST_SEQ).unwrap();
    assert!(written > 0);

    let output_packet = Encrypted::read(
        &mut buffer[..written],
        &mut NoProtection,
        &packet_key,
        TEST_PROTOCOL,
        Allowed::DENIED(),
    ).unwrap();

    match output_packet {
        Encrypted::Denied => (),
        _ => panic!("wrong packet"),
    }
}

#[test]
fn connection_challenge_packet() {
    let mut x_data = [0u8; CHALLENGE_BYTES];
    crypto_random(&mut x_data[..]);
    let input_packet = Encrypted::Challenge {
        challenge_sequence: 0,
        challenge_data: x_data,
    };

    let mut buffer = [0u8; MAX_PACKET_BYTES];
    let packet_key = keygen();

    let written = input_packet.write(&mut buffer[..], &packet_key, TEST_PROTOCOL, TEST_SEQ).unwrap();
    assert!(written > 0);

    let output_packet = Encrypted::read(
        &mut buffer[..written],
        &mut NoProtection,
        &packet_key,
        TEST_PROTOCOL,
        Allowed::CHALLENGE(),
    ).unwrap();

    match output_packet {
        Encrypted::Challenge { challenge_sequence, challenge_data } => {
            assert_eq!(challenge_sequence, 0);
            assert_eq!(&challenge_data[..], &x_data[..]);
        }
        _ => panic!("wrong packet"),
    }
}

#[test]
fn connection_response_packet() {
    let mut x_data = [0u8; CHALLENGE_BYTES];
    crypto_random(&mut x_data[..]);
    let input_packet = Encrypted::Response {
        challenge_sequence: 0,
        challenge_data: x_data,
    };

    let mut buffer = [0u8; MAX_PACKET_BYTES];
    let packet_key = keygen();

    let written = input_packet.write(&mut buffer[..], &packet_key, TEST_PROTOCOL, TEST_SEQ).unwrap();
    assert!(written > 0);

    let output_packet = Encrypted::read(
        &mut buffer[..written],
        &mut NoProtection,
        &packet_key,
        TEST_PROTOCOL,
        Allowed::RESPONSE(),
    ).unwrap();

    match output_packet {
        Encrypted::Response { challenge_sequence, challenge_data } => {
            assert_eq!(challenge_sequence, 0);
            assert_eq!(&challenge_data[..], &x_data[..]);
        }
        _ => panic!("wrong packet"),
    }
}

#[test]
fn connection_keep_alive_packet() {
    let mut x_data = [0u8; CHALLENGE_BYTES];
    crypto_random(&mut x_data[..]);
    let input_packet = Encrypted::KeepAlive {
        client_index: 10,
        max_clients: 16,
    };

    let mut buffer = [0u8; MAX_PACKET_BYTES];
    let packet_key = keygen();

    let written = input_packet.write(&mut buffer[..], &packet_key, TEST_PROTOCOL, TEST_SEQ).unwrap();
    assert!(written > 0);

    let output_packet = Encrypted::read(
        &mut buffer[..written],
        &mut NoProtection,
        &packet_key,
        TEST_PROTOCOL,
        Allowed::KEEP_ALIVE(),
    ).unwrap();

    match output_packet {
        Encrypted::KeepAlive { client_index, max_clients } => {
            assert_eq!(client_index, 10);
            assert_eq!(max_clients, 16);
        }
        _ => panic!("wrong packet"),
    }
}

#[test]
fn connection_payload_packet() {
    for chan in 0..=MAX_CHANNEL_ID {
        let mut input_data = [0u8; MAX_PAYLOAD_BYTES];
        crypto_random(&mut input_data[..]);

        let input_packet = Encrypted::Payload {
            sequence: TEST_SEQ,
            len: MAX_PAYLOAD_BYTES,
            data: input_data,
            channel: chan,
        };

        let mut buffer = [0u8; MAX_PACKET_BYTES];
        let packet_key = keygen();

        let written = input_packet.write(&mut buffer[..], &packet_key, TEST_PROTOCOL, TEST_SEQ).unwrap();

        assert!(written > 0);

        let output_packet = Encrypted::read(
            &mut buffer[..written],
            &mut NoProtection,
            &packet_key,
            TEST_PROTOCOL,
            Allowed::PAYLOAD(),
        ).unwrap();

        match output_packet {
            Encrypted::Payload { sequence, len, data, channel } => {
                assert_eq!(channel, chan);
                assert_eq!(sequence, TEST_SEQ);
                assert_eq!(len, MAX_PAYLOAD_BYTES);
                assert_eq!(&data[..], &input_data[..]);
            }
            _ => panic!("wrong packet"),
        }
    }
}

#[test]
fn connection_disconnect_packet() {
    let mut buffer = [0u8; MAX_PACKET_BYTES];
    let packet_key = keygen();

    let written = Encrypted::Disconnect.write(&mut buffer[..], &packet_key, TEST_PROTOCOL, TEST_SEQ).unwrap();
    assert!(written > 0);

    let output_packet = Encrypted::read(
        &mut buffer[..written],
        &mut NoProtection,
        &packet_key,
        TEST_PROTOCOL,
        Allowed::DISCONNECT(),
    ).unwrap();

    match output_packet {
        Encrypted::Disconnect => (),
        _ => panic!("wrong packet"),
    }
}

#[test]
fn encrypted_rejections() {
    let key = keygen();
    let mut buffer = [0u8; MAX_PACKET_BYTES];
    let written = Encrypted::Disconnect.write(&mut buffer[..], &key, TEST_PROTOCOL, TEST_SEQ).unwrap();
    // 1000 needs two sequence bytes: prefix, sequence, tag
    assert_eq!(written, 1 + 2 + 16);
    // a kind that is not allowed
    assert!(Encrypted::read(&buffer[..written], &mut NoProtection, &key, TEST_PROTOCOL, Allowed::PAYLOAD()).is_none());
    // another key
    let other = keygen();
    assert!(Encrypted::read(&buffer[..written], &mut NoProtection, &other, TEST_PROTOCOL, Allowed::DISCONNECT()).is_none());
    // another protocol
    assert!(Encrypted::read(&buffer[..written], &mut NoProtection, &key, 7, Allowed::DISCONNECT()).is_none());
    // a tampered byte
    buffer[3] ^= 1;
    assert!(Encrypted::read(&buffer[..written], &mut NoProtection, &key, TEST_PROTOCOL, Allowed::DISCONNECT()).is_none());
    // a buffer that is too small to write into
    let mut small = [0u8; 10];
    assert!(Encrypted::Denied.write(&mut small[..], &key, TEST_PROTOCOL, TEST_SEQ).is_err());
    assert_eq!(small, [0u8; 10]);
    // replays are caught
    let mut rp = ReplayProtection::new();
    let mut buffer = [0u8; MAX_PACKET_BYTES];
    let written = Encrypted::Disconnect.write(&mut buffer[..], &key, TEST_PROTOCOL, 5).unwrap();
    assert!(Encrypted::read(&buffer[..written], &mut rp, &key, TEST_PROTOCOL, Allowed::DISCONNECT()).is_some());
    assert!(Encrypted::read(&buffer[..written], &mut rp, &key, TEST_PROTOCOL, Allowed::DISCONNECT()).is_none());
}
