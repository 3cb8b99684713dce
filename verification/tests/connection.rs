use oni_net::addr::{Addr, read_ips, write_ips};
use oni_net::client::{Client, State, ConnectingState, Error as ClientError};
use oni_net::server::{Server, Reply, ConnectionError};
use oni_net::server_list::ServerList;
use oni_net::token::{PublicToken, DATA, USER};
use oni_net::utils::{keygen, crypto_random};
use oni_net::protocol::{extract_header, KEEP_ALIVE, CHALLENGE_PACKET_LEN, OVERHEAD, MTU};

const PROTOCOL: u64 = 0x1122334455667788;

fn server_addr() -> Addr {
    Addr::V4 { ip: 0x7f00_0001, port: 40000 }
}

fn client_addr() -> Addr {
    Addr::V4 { ip: 0x7f00_0001, port: 50000 }
}

fn token_data(servers: &[Addr]) -> [u8; DATA] {
    let mut v = Vec::new();
    write_ips(&mut v, servers);
    ServerList::frame(&v).unwrap()
}

fn parse_list(d: &[u8; DATA]) -> Result<ServerList, ()> {
    let (ips, _) = read_ips(&d[..]).map_err(|_| ())?;
    let mut list = ServerList::new();
    for a in ips {
        list.push(a).map_err(|_| ())?;
    }
    Ok(list)
}

fn make_token(private_key: &[u8; 32], servers: &[Addr], expire: u32) -> PublicToken {
    let mut user = [0u8; USER];
    crypto_random(&mut user);
    PublicToken::generate(token_data(servers), user, expire, 10, 0xC1_1E47, PROTOCOL, private_key).unwrap()
}

#[test]
fn handshake_and_payloads() {
    let private_key = keygen();
    let token = make_token(&private_key, &[server_addr()], 30);
    let mut client = Client::new(PROTOCOL, &token, 5000);
    let mut server = Server::new(PROTOCOL, private_key, server_addr(), 5000).unwrap();
    assert!(server.begin_update(5000));

    assert_eq!(client.state(), State::Disconnected);
    client.connect();
    assert!(client.update(5000));
    let request = client.poll_send().expect("request due");
    assert_eq!(request.len(), MTU);

    // the server answers the request with a challenge
    let mut buf = request.clone();
    let challenge = match server.process_packet(&mut buf, client_addr(), parse_list) {
        Ok(Reply::Send(n)) => buf[..n].to_vec(),
        _ => panic!("request refused"),
    };
    assert_eq!(challenge.len(), CHALLENGE_PACKET_LEN);

    // the same request from the same address is answered again (the
    // client is pending); from another address the token counts as used
    let mut again = request.clone();
    match server.process_packet(&mut again, client_addr(), parse_list) {
        Ok(Reply::Send(_)) => (),
        _ => panic!("a repeated request from the same address is answered again"),
    }
    let mut other = request.clone();
    assert!(matches!(
        server.process_packet(&mut other, Addr::V4 { ip: 1, port: 1 }, parse_list),
        Err(ConnectionError::TokenAlreadyUsed)
    ));

    // the client answers the challenge with a response
    let mut c = challenge.clone();
    let response = client.process_packet(&mut c).expect("challenge accepted");
    assert_eq!(client.state(), State::Connecting(ConnectingState::SendingResponse));

    // the server accepts the response and connects the client
    let mut buf = response.clone();
    let keep_alive = match server.process_packet(&mut buf, client_addr(), parse_list) {
        Ok(Reply::Accepted { len, id, user: _ }) => {
            assert_eq!(id, 0xC1_1E47);
            buf[..len].to_vec()
        }
        _ => panic!("response refused"),
    };
    assert_eq!(keep_alive.len(), OVERHEAD);
    assert_eq!(extract_header(&keep_alive[..4]), Ok((KEEP_ALIVE, 0)));

    // the keep-alive connects the client
    let mut k = keep_alive.clone();
    assert!(client.process_packet(&mut k).is_none());
    assert_eq!(client.state(), State::Connected);

    // payloads both ways
    let mut p = client.send(b"hello");
    match server.process_packet(&mut p, client_addr(), parse_list) {
        Ok(Reply::Nothing) => (),
        _ => panic!("payload refused"),
    }
    assert_eq!(server.recv_client(client_addr()), Some(b"hello".to_vec()));
    assert_eq!(server.recv_client(client_addr()), None);

    let mut q = server.send_client(client_addr(), b"world").unwrap();
    assert!(client.process_packet(&mut q).is_none());
    assert_eq!(client.recv(), Some(b"world".to_vec()));
    assert_eq!(client.recv(), None);

    // a replayed payload is dropped
    let mut replay = server.send_client(client_addr(), b"again").unwrap();
    let copy = replay.clone();
    client.process_packet(&mut replay);
    let mut replay2 = copy;
    client.process_packet(&mut replay2);
    assert_eq!(client.recv(), Some(b"again".to_vec()));
    assert_eq!(client.recv(), None);

    // a response once connected is refused
    let mut buf = response.clone();
    assert!(server.process_packet(&mut buf, client_addr(), parse_list).is_err());

    // the client closes; the server drops it on the disconnect
    let closing = client.close();
    assert_eq!(closing.len(), 10);
    assert_eq!(client.state(), State::Disconnected);
    let mut d = closing[0].to_vec();
    match server.process_packet(&mut d, client_addr(), parse_list) {
        Ok(Reply::Nothing) => (),
        _ => panic!("disconnect refused"),
    }
    assert!(server.send_client(client_addr(), b"x").is_none());
}

#[test]
fn request_for_another_server_is_refused() {
    let private_key = keygen();
    let token = make_token(&private_key, &[Addr::V4 { ip: 0x0a00_0001, port: 1 }], 30);
    let mut client = Client::new(PROTOCOL, &token, 5000);
    let mut server = Server::new(PROTOCOL, private_key, server_addr(), 5000).unwrap();
    assert!(server.begin_update(5000));
    client.connect();
    assert!(client.update(5000));
    let mut request = client.poll_send().unwrap();
    assert!(matches!(
        server.process_packet(&mut request, client_addr(), parse_list),
        Err(ConnectionError::InvalidPacket)
    ));
}

#[test]
fn request_with_wrong_key_is_refused() {
    let token = make_token(&keygen(), &[server_addr()], 30);
    let mut client = Client::new(PROTOCOL, &token, 5000);
    let mut server = Server::new(PROTOCOL, keygen(), server_addr(), 5000).unwrap();
    assert!(server.begin_update(5000));
    client.connect();
    client.update(5000);
    let mut request = client.poll_send().unwrap();
    assert!(matches!(
        server.process_packet(&mut request, client_addr(), parse_list),
        Err(ConnectionError::InvalidPacket)
    ));
    let mut short = [0u8; 10];
    assert!(matches!(
        server.process_packet(&mut short, client_addr(), parse_list),
        Err(ConnectionError::InvalidPacket)
    ));
}

#[test]
fn error_token_expired() {
    let private_key = keygen();
    let token = make_token(&private_key, &[server_addr()], 0);
    let mut client = Client::new(PROTOCOL, &token, 1000);
    client.connect();
    assert!(!client.update(1000));
    assert_eq!(client.state(), State::Failed(ClientError::ConnectTokenExpired));
}

#[test]
fn client_times_out() {
    let private_key = keygen();
    let token = make_token(&private_key, &[server_addr()], 300);
    let mut client = Client::new(PROTOCOL, &token, 1000);
    client.connect();
    assert!(client.update(1000 + 10_000));
    assert!(!client.update(1000 + 10_001));
    assert_eq!(client.state(), State::Failed(ClientError::ConnectionRequestTimedOut));
    // nothing more happens once failed
    assert!(!client.update(1000 + 20_000));
    assert_eq!(client.state(), State::Failed(ClientError::ConnectionRequestTimedOut));
}

#[test]
fn server_times_out_clients() {
    let private_key = keygen();
    let token = make_token(&private_key, &[server_addr()], 30);
    let mut client = Client::new(PROTOCOL, &token, 5000);
    let mut server = Server::new(PROTOCOL, private_key, server_addr(), 5000).unwrap();
    assert!(server.begin_update(5000));
    client.connect();
    client.update(5000);
    let mut buf = client.poll_send().unwrap();
    let n = match server.process_packet(&mut buf, client_addr(), parse_list) {
        Ok(Reply::Send(n)) => n,
        _ => panic!(),
    };
    let mut ch = buf[..n].to_vec();
    let mut resp = client.process_packet(&mut ch).unwrap();
    assert!(matches!(server.process_packet(&mut resp, client_addr(), parse_list), Ok(Reply::Accepted { .. })));
    assert_eq!(server.check_timeouts(), Vec::<u64>::new());
    let ka = server.keep_alives();
    assert_eq!(ka.len(), 1);
    assert!(server.begin_update(5000 + 10_001));
    assert_eq!(server.check_timeouts(), vec![0xC1_1E47]);
    assert!(server.recv_client(client_addr()).is_none());
}

#[test]
fn server_close_client() {
    let private_key = keygen();
    let token = make_token(&private_key, &[server_addr()], 30);
    let mut client = Client::new(PROTOCOL, &token, 5000);
    let mut server = Server::new(PROTOCOL, private_key, server_addr(), 5000).unwrap();
    assert!(server.begin_update(5000));
    client.connect();
    client.update(5000);
    let mut buf = client.poll_send().unwrap();
    let n = match server.process_packet(&mut buf, client_addr(), parse_list) {
        Ok(Reply::Send(n)) => n,
        _ => panic!(),
    };
    let mut ch = buf[..n].to_vec();
    let mut resp = client.process_packet(&mut ch).unwrap();
    let ka = match server.process_packet(&mut resp, client_addr(), parse_list) {
        Ok(Reply::Accepted { len, .. }) => resp[..len].to_vec(),
        _ => panic!(),
    };
    let mut k = ka;
    client.process_packet(&mut k);
    assert_eq!(client.state(), State::Connected);
    let packets = server.close_client(client_addr());
    assert_eq!(packets.len(), 10);
    assert!(server.close_client(client_addr()).is_empty());
    let mut d = packets[0].clone();
    client.process_packet(&mut d);
    assert_eq!(client.state(), State::Disconnected);
    assert_eq!(server.check_timeouts(), vec![0xC1_1E47]);
}
