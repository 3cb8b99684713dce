use oni_net::challenge::{Challenge, UserData, USER_DATA_BYTES};
use oni_net::token::{ChallengeToken, PrivateToken, PublicToken, DATA, USER, PUBLIC_LEN};
use oni_net::utils::{keygen, crypto_random, generate_nonce};

#[test]
fn challenge_challenge_token() {
    // generate a challenge token
    let mut user_data = [0u8; USER_DATA_BYTES];
    crypto_random(&mut user_data[..]);
    let client_id = 1;
    let user_data: UserData = user_data.into();

    // write it to a buffer
    let mut buffer = Challenge::write(1, &user_data);

    // encrypt/decrypt the buffer
    let seq = 1000u64;
    let key = keygen();
    Challenge::encrypt(&mut buffer, seq, &key).unwrap();
    Challenge::decrypt(&mut buffer, seq, &key).unwrap();

    // read the challenge token back in
    let output_token = Challenge::read(&buffer);
    // make sure that everything matches the challenge token that was written
    assert_eq!(output_token.client_id, client_id);
    assert_eq!(output_token.user_data, user_data);
}

#[test]
fn challenge_token_challenge_token() {
    let client_id = 0x1122334455667788;
    let seq = 0x1122334455667799;
    let key = keygen();
    let mut user = [0u8; USER];
    crypto_random(&mut user[..]);
    let tok = &mut ChallengeToken::new(client_id, user);
    let mut sealed = ChallengeToken::seal(tok, seq, &key);
    let tok = ChallengeToken::open(&mut sealed, seq, &key).unwrap();

    assert_eq!(tok.client_id(), client_id);
    assert_eq!(&tok.user()[..], &user[..]);
    assert_eq!(tok._reserved, [0u8; 20]);
}

#[test]
fn private_token() {
    let k = keygen();
    let n = generate_nonce();
    let protocol = 0x12346789_12346789;
    let expire = 672345;

    let client_id = 0x1122334455667788;
    let timeout = 0x55667788;

    let mut data = [0u8; DATA];
    let mut user = [0u8; USER];
    crypto_random(&mut data[..]);
    crypto_random(&mut user[..]);

    let token = &mut PrivateToken::generate(client_id, timeout, data, user);
    let client_key = *token.client_key();
    let server_key = *token.server_key();

    let mut sealed = PrivateToken::seal(token, protocol, expire, &n, &k);
    let token = PrivateToken::open(&mut sealed, protocol, expire, &n, &k).unwrap();

    assert_eq!(token.client_id(), client_id);
    assert_eq!(token.timeout(), timeout);

    assert_eq!(token.client_key(), &client_key);
    assert_eq!(token.server_key(), &server_key);
    assert_eq!(&token.data()[..], &data[..]);
    assert_eq!(&token.user()[..], &user[..]);
    assert_eq!(&token._reserved[..], &[0u8; 36][..]);
}

#[test]
fn challenge_wrong_key_or_sequence() {
    let user_data: UserData = [7u8; USER_DATA_BYTES].into();
    let key = keygen();
    let mut buffer = Challenge::write_encrypted(5, &user_data, 10, &key).unwrap();
    let before = buffer;
    assert!(Challenge::decrypt(&mut buffer, 11, &key).is_err());
    assert_eq!(&buffer[..], &before[..]);
    assert!(Challenge::decrypt(&mut buffer, 10, &keygen()).is_err());
    Challenge::decrypt(&mut buffer, 10, &key).unwrap();
    let t = Challenge::read(&buffer);
    assert_eq!(t.client_id, 5);
    assert_eq!(t.user_data, user_data);
}

#[test]
fn private_token_tampered() {
    let k = keygen();
    let n = generate_nonce();
    let token = PrivateToken::generate(9, 30, [1u8; DATA], [2u8; USER]);
    let mut sealed = token.encrypt(1, 2, &n, &k).unwrap();
    assert!(PrivateToken::decrypt(&sealed, 1, 3, &n, &k).is_err());
    assert!(PrivateToken::decrypt(&sealed, 2, 2, &n, &k).is_err());
    sealed[0] ^= 0x80;
    assert!(PrivateToken::decrypt(&sealed, 1, 2, &n, &k).is_err());
}

#[test]
fn public_token_roundtrip() {
    let private_key = keygen();
    let tok = PublicToken::generate([3u8; DATA], [4u8; USER], 30, 15, 77, 0xAA, &private_key).unwrap();
    assert_eq!(tok.protocol_id(), 0xAA);
    assert_eq!(tok.timeout_seconds(), 15);
    assert_eq!(tok.expire_timestamp(), tok.create_timestamp() + 30);
    let bytes = tok.write();
    assert_eq!(bytes.len(), PUBLIC_LEN);
    let back = PublicToken::read(bytes).unwrap();
    assert_eq!(back.protocol_id(), 0xAA);
    let private = PrivateToken::decrypt(back.token(), 0xAA, back.expire_timestamp(), &back.nonce(), &private_key).unwrap();
    assert_eq!(private.client_id(), 77);
    assert_eq!(private.timeout(), 15);
    assert_eq!(private.client_key(), &back.client_key());
    assert_eq!(&private.user()[..], &[4u8; USER][..]);
    let mut bad = bytes;
    bad[0] = b'X';
    assert!(PublicToken::read(bad).is_err());
}
