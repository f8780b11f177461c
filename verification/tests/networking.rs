use moose::error::Error;
use moose::networking::connection::{
    compute_path, Action, Connection, Event, RendezvousKey, SessionId,
};
use moose::networking::tcp_stream::{
    ConnectAction, ConnectEvent, Identity, SendData, TcpStreamNetworking, CHANNEL_CAPACITY,
};
use moose::networking::wire::{encode_frame, little_endian_to_u64, u64_to_little_endian};

fn session(text: &str) -> SessionId {
    SessionId { text: text.to_string() }
}

fn rendezvous(text: &str) -> RendezvousKey {
    RendezvousKey { text: text.to_string() }
}

fn identity(text: &str) -> Identity {
    Identity { text: text.to_string() }
}

#[test]
fn numbers_are_written_in_little_endian() {
    let mut buf = [0xffu8; 8];
    assert_eq!(u64_to_little_endian(0x0102_0304_0506_0708, &mut buf), Ok(()));
    assert_eq!(buf, [8, 7, 6, 5, 4, 3, 2, 1]);
    assert_eq!(little_endian_to_u64(&[8, 7, 6, 5, 4, 3, 2, 1]), 0x0102_0304_0506_0708);
}

#[test]
fn reading_undoes_writing() {
    for n in [0, 1, 255, 256, 65535, 1 << 40, u64::MAX - 1, u64::MAX] {
        let mut buf = [0u8; 8];
        u64_to_little_endian(n, &mut buf).unwrap();
        assert_eq!(buf, n.to_le_bytes());
        assert_eq!(little_endian_to_u64(&buf), n);
    }
}

#[test]
fn writing_undoes_reading() {
    for bytes in [[0u8; 8], [255; 8], [1, 0, 0, 0, 0, 0, 0, 128], [9, 8, 7, 6, 5, 4, 3, 2]] {
        let mut buf = [0u8; 8];
        u64_to_little_endian(little_endian_to_u64(&bytes), &mut buf).unwrap();
        assert_eq!(buf, bytes);
    }
}

#[test]
fn frames_begin_with_the_length() {
    assert_eq!(encode_frame(&vec![]), Ok(vec![0; 8]));
    assert_eq!(
        encode_frame(&vec![10, 20, 30]),
        Ok(vec![3, 0, 0, 0, 0, 0, 0, 0, 10, 20, 30])
    );
    let long = encode_frame(&vec![7; 300]).unwrap();
    assert_eq!(long[..8], [44, 1, 0, 0, 0, 0, 0, 0]);
    assert_eq!(long.len(), 308);
}

#[test]
fn paths_join_session_and_key() {
    assert_eq!(compute_path(&session("session_id"), &rendezvous("1234")), "session_id/1234");
    assert_eq!(compute_path(&session(""), &rendezvous("")), "/");
    assert_ne!(
        compute_path(&session("a"), &rendezvous("b/c")),
        compute_path(&session("b"), &rendezvous("b/c"))
    );
}

/// Runs a receiver on a stream of bytes whose payloads all decode, and collects the payloads.
fn receive_all(stream: &[u8]) -> (Vec<Vec<u8>>, Result<(), Error>) {
    let mut connection = Connection::AwaitingHeader;
    let mut rest = stream;
    let mut payloads = Vec::new();
    let mut wanted = 8;
    loop {
        let event: Event<Vec<u8>> = if rest.len() < wanted {
            Event::ReadFailed("failed to fill whole buffer".to_string())
        } else {
            let (bytes, tail) = rest.split_at(wanted);
            rest = tail;
            match connection {
                Connection::AwaitingHeader => {
                    let mut header = [0u8; 8];
                    header.copy_from_slice(bytes);
                    Event::Header(header)
                }
                _ => Event::Payload(bytes.to_vec()),
            }
        };
        match connection.step(event) {
            Action::ReadPayload { size } => wanted = size as usize,
            Action::Decode { raw_data } => {
                match connection.step(Event::Value(raw_data)) {
                    Action::Store { key, value } => {
                        assert_eq!(key, "session_id/1234");
                        payloads.push(value);
                    }
                    _ => panic!("a value is to be stored"),
                }
                wanted = 8;
            }
            Action::Store { .. } => unreachable!(),
            Action::Finish => return (payloads, Ok(())),
            Action::Fail(e) => return (payloads, Err(e)),
        }
    }
}

fn sent(payloads: &[Vec<u8>]) -> Vec<u8> {
    let mut stream = Vec::new();
    for payload in payloads {
        stream.extend(encode_frame(payload).unwrap());
    }
    stream
}

#[test]
fn what_is_sent_is_received() {
    let payloads = vec![vec![1, 2, 3], vec![], vec![0; 300], vec![255]];
    assert_eq!(receive_all(&sent(&payloads)), (payloads.clone(), Ok(())));
    assert_eq!(receive_all(&[]), (vec![], Ok(())));
}

#[test]
fn a_cut_stream_delivers_the_frames_before_the_cut() {
    let payloads = vec![vec![1, 2, 3], vec![4]];
    let whole = sent(&payloads);
    let next = encode_frame(&vec![5, 6]).unwrap();
    for cut in 0..next.len() {
        let mut stream = whole.clone();
        stream.extend(&next[..cut]);
        let (received, end) = receive_all(&stream);
        assert_eq!(received, payloads);
        if cut < 8 {
            assert_eq!(end, Ok(()));
        } else {
            assert_eq!(
                end,
                Err(Error::Networking("failed to fill whole buffer".to_string()))
            );
        }
    }
}

#[test]
fn an_undecodable_payload_ends_the_connection() {
    let mut connection = Connection::AwaitingHeader;
    let action = connection.step::<u8>(Event::Header([2, 0, 0, 0, 0, 0, 0, 0]));
    assert!(matches!(action, Action::ReadPayload { size: 2 }));
    assert!(matches!(connection, Connection::AwaitingPayload { size: 2 }));
    let action = connection.step::<u8>(Event::Payload(vec![8, 9]));
    match action {
        Action::Decode { raw_data } => assert_eq!(raw_data, vec![8, 9]),
        _ => panic!("the payload is to be decoded"),
    }
    assert!(matches!(connection, Connection::AwaitingValue));
    match connection.step::<u8>(Event::Undecodable("bad tag".to_string())) {
        Action::Fail(e) => assert_eq!(
            e,
            Error::Networking("failed to deserialize moose value: bad tag".to_string())
        ),
        _ => panic!("the connection is to fail"),
    }
    assert!(matches!(connection, Connection::Closed));
}

fn hosts(names: &[&str]) -> Vec<(String, String)> {
    names.iter().map(|n| (n.to_string(), format!("{}:1234", n))).collect()
}

#[test]
fn a_host_has_to_be_among_the_hosts() {
    match TcpStreamNetworking::new("dave", hosts(&["alice", "bob"])) {
        Err(e) => assert_eq!(e, Error::Networking("own host name not in hosts map".to_string())),
        Ok(_) => panic!("the name is not among the hosts"),
    }
    assert!(TcpStreamNetworking::new("dave", vec![]).is_err());
}

#[test]
fn peers_are_connected_in_the_order_of_their_names() {
    let (mut net, own_address) =
        TcpStreamNetworking::new("bob", hosts(&["carole", "bob", "b", "alice", "bo"])).unwrap();
    assert_eq!(own_address, "bob:1234");
    let mut order = Vec::new();
    let mut action = net.step(ConnectEvent::Started);
    while let ConnectAction::Connect { peer } = action {
        assert_eq!(net.peer(peer).1, format!("{}:1234", net.peer(peer).0));
        order.push(net.peer(peer).0.clone());
        action = net.step(ConnectEvent::Connected);
    }
    assert_eq!(action, ConnectAction::Done);
    assert_eq!(order, vec!["alice", "b", "bo", "carole"]);
}

#[test]
fn the_order_does_not_depend_on_how_hosts_are_listed() {
    for names in [["a", "B", "\u{e9}", "z"], ["z", "\u{e9}", "B", "a"], ["B", "z", "a", "\u{e9}"]] {
        let (net, _) = TcpStreamNetworking::new("a", hosts(&names)).unwrap();
        let order: Vec<&str> = (0..3).map(|i| net.peer(i).0.as_str()).collect();
        assert_eq!(order, vec!["B", "z", "\u{e9}"]);
    }
}

#[test]
fn peers_that_do_not_answer_are_tried_again() {
    let (mut net, _) = TcpStreamNetworking::new("alice", hosts(&["alice", "bob"])).unwrap();
    assert_eq!(net.step(ConnectEvent::Started), ConnectAction::Connect { peer: 0 });
    assert_eq!(net.step(ConnectEvent::Refused), ConnectAction::Wait { seconds: 1 });
    assert_eq!(net.send_channel(&identity("bob")), None);
    assert_eq!(net.step(ConnectEvent::Waited), ConnectAction::Connect { peer: 0 });
    assert_eq!(net.step(ConnectEvent::Connected), ConnectAction::Done);
    assert_eq!(net.send_channel(&identity("bob")), Some(0));
}

#[test]
fn a_lone_host_has_nobody_to_connect_to() {
    let (mut net, _) = TcpStreamNetworking::new("alice", hosts(&["alice"])).unwrap();
    assert_eq!(net.step(ConnectEvent::Started), ConnectAction::Done);
}

#[test]
fn values_go_through_the_channel_to_their_receiver() {
    let (mut net, _) =
        TcpStreamNetworking::new("bob", hosts(&["alice", "bob", "carole"])).unwrap();
    net.step(ConnectEvent::Started);
    net.step(ConnectEvent::Connected);
    net.step(ConnectEvent::Connected);
    assert_eq!(
        net.prepare_send(7u8, identity("carole"), rendezvous("k"), session("s")),
        Some((
            1,
            SendData {
                value: 7u8,
                receiver: identity("carole"),
                rendezvous_key: rendezvous("k"),
                session_id: session("s"),
            }
        ))
    );
    assert_eq!(net.send_channel(&identity("alice")), Some(0));
    assert_eq!(net.prepare_send(7u8, identity("bob"), rendezvous("k"), session("s")), None);
    assert_eq!(net.prepare_send(7u8, identity("dave"), rendezvous("k"), session("s")), None);
}

#[test]
fn channels_hold_a_hundred_values() {
    assert_eq!(CHANNEL_CAPACITY, 100);
}
