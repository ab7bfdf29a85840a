use laminar::channel::Received;
use laminar::socket::{submission, taken_event};
use laminar::wire::Frame;
use laminar::{
    ActiveConnections, Address, Config, Datagram, DeliveryGuarantee, ErrorKind, LinkConditioner,
    OrderingGuarantee, Packet, Socket, SocketEvent,
};
use laminar::active_connections::ConnectionLookup;

const SECOND: u64 = 1_000_000_000;

fn addr(port: u16) -> Address {
    Address::v4(127, 0, 0, 1, port)
}

fn from(port: u16, payload: Vec<u8>) -> Datagram {
    Datagram { addr: addr(port), payload }
}

/// The datagrams that `socket` transmits for `packet`, as they arrive at
/// the peer.
fn wire(socket: &mut Socket, packet: Packet, time: u64) -> Vec<Datagram> {
    let local = socket.local_addr();
    let transmission = socket.send_to(packet, time).unwrap();
    transmission
        .datagrams
        .into_iter()
        .map(|payload| Datagram { addr: local, payload })
        .collect()
}

#[test]
fn table_holds_one_connection_for_each_peer() {
    let mut table = ActiveConnections::new();
    let config = Config::default();
    assert_eq!(table.count(), 0);
    assert!(!table.contains(&addr(1)));
    table.get_or_insert_connection(addr(1), &config, 5);
    table.get_or_insert_connection(addr(1), &config, 6);
    table.get_or_insert_connection(addr(2), &config, 7);
    table.get_or_insert_connection(addr(1), &config, 8);
    assert_eq!(table.count(), 2);
    assert!(table.contains(&addr(1)));
    assert!(table.contains(&addr(2)));
    assert!(!table.contains(&addr(3)));
    // the connection is the one that was made first
    assert_eq!(table.get_or_insert_connection(addr(1), &config, 9).last_heard_at(), 5);
    table.remove_connection(&addr(1));
    assert_eq!(table.count(), 1);
    assert!(!table.contains(&addr(1)));
    table.remove_connection(&addr(1));
    assert_eq!(table.count(), 1);
}

#[test]
fn looking_a_peer_up_to_receive_never_inserts() {
    let mut table = ActiveConnections::new();
    let config = Config::default();
    match table.get_or_create_connection(addr(1), &config, 3) {
        ConnectionLookup::Anonymous(c) => {
            assert_eq!(c.remote_address(), addr(1));
            assert_eq!(c.last_heard_at(), 3);
        }
        ConnectionLookup::Existing(_) => panic!("the table is empty"),
    }
    assert_eq!(table.count(), 0);
    table.get_or_insert_connection(addr(1), &config, 4);
    match table.get_or_create_connection(addr(1), &config, 5) {
        ConnectionLookup::Existing(c) => assert_eq!(c.last_heard_at(), 4),
        ConnectionLookup::Anonymous(_) => panic!("the table holds the peer"),
    }
    assert_eq!(table.count(), 1);
}

#[test]
fn idle_is_strictly_older_than_the_timeout() {
    let mut table = ActiveConnections::new();
    let config = Config::default();
    table.get_or_insert_connection(addr(1), &config, 100);
    table.get_or_insert_connection(addr(2), &config, 200);
    assert!(table.idle_connections(50, 100).is_empty());
    assert!(table.idle_connections(50, 150).is_empty());
    assert_eq!(table.idle_connections(50, 151), vec![addr(1)]);
    assert_eq!(table.idle_connections(50, 250), vec![addr(1)]);
    let mut idle = table.idle_connections(50, 251);
    idle.sort_by_key(|a| a.port());
    assert_eq!(idle, vec![addr(1), addr(2)]);
    // with no timeout at all, a peer heard right now is not idle
    assert!(table.idle_connections(0, 100).is_empty());
    assert_eq!(table.idle_connections(0, 101), vec![addr(1)]);
    // time that runs backwards makes nobody idle
    assert!(table.idle_connections(0, 0).is_empty());
    assert!(table.idle_connections(u64::MAX, u64::MAX).is_empty());
}

#[test]
fn first_contact_gives_connect_and_then_the_packet() {
    let mut client = Socket::bind(addr(1)).unwrap();
    let mut server = Socket::bind(addr(2)).unwrap();
    let datagrams = wire(&mut client, Packet::reliable_unordered(addr(2), vec![1, 2]), 0);
    let mut events = Vec::new();
    assert!(server.recv_from(&datagrams[0], 0, &mut events).is_ok());
    assert_eq!(
        events,
        vec![
            SocketEvent::Connect(addr(1)),
            SocketEvent::Packet(Packet::reliable_unordered(addr(1), vec![1, 2])),
        ]
    );
    assert_eq!(server.connection_count(), 0);
    // once the server has sent to the peer, there is no connect event
    wire(&mut server, Packet::unreliable(addr(1), vec![]), 0);
    assert_eq!(server.connection_count(), 1);
    let datagrams = wire(&mut client, Packet::reliable_unordered(addr(2), vec![3]), 0);
    let mut events = Vec::new();
    assert!(server.recv_from(&datagrams[0], 0, &mut events).is_ok());
    assert_eq!(
        events,
        vec![SocketEvent::Packet(Packet::reliable_unordered(addr(1), vec![3]))]
    );
    assert_eq!(server.connection_count(), 1);
}

#[test]
fn empty_datagram_is_refused_without_a_connect_event() {
    let mut server = Socket::bind(addr(2)).unwrap();
    let mut events = Vec::new();
    assert_eq!(
        server.recv_from(&from(1, vec![]), 0, &mut events),
        Err(ErrorKind::ReceivedDataToShort)
    );
    assert!(events.is_empty());
}

#[test]
fn malformed_datagram_gives_its_connect_event_and_an_error() {
    let mut server = Socket::bind(addr(2)).unwrap();
    let mut events = Vec::new();
    assert_eq!(
        server.recv_from(&from(1, vec![1, 2, 3]), 0, &mut events),
        Err(ErrorKind::CouldNotReadHeader)
    );
    assert_eq!(events, vec![SocketEvent::Connect(addr(1))]);
    assert_eq!(server.connection_count(), 0);
}

#[test]
fn malformed_datagrams_do_not_stop_the_ones_after_them() {
    let mut client = Socket::bind(addr(1)).unwrap();
    let mut server = Socket::bind(addr(2)).unwrap();
    let good = wire(&mut client, Packet::unreliable(addr(2), vec![5]), 0);
    let mut seed: u64 = 99;
    let mut received = Vec::new();
    for len in 0..200usize {
        let mut bytes = Vec::new();
        for _ in 0..len {
            seed = seed.wrapping_mul(6364136223846793005).wrapping_add(1442695040888963407);
            bytes.push((seed >> 56) as u8);
        }
        received.push(from(3, bytes));
    }
    // datagrams that begin like real ones and end anywhere
    let real = wire(&mut client, Packet::reliable_ordered(addr(2), vec![1; 40], Some(1)), 0);
    let headers = 5 + 8 + 9;
    for cut in 0..headers {
        received.push(from(4, real[0].payload[..cut].to_vec()));
    }
    received.push(good[0].clone());
    let outcome = server.tick(received, Vec::new(), 0);
    let count = 200 + headers;
    assert_eq!(outcome.errors.len(), count);
    assert_eq!(outcome.errors[0], ErrorKind::ReceivedDataToShort);
    assert_eq!(outcome.errors[1], ErrorKind::CouldNotReadHeader);
    // every datagram but the empty ones gave a connect event; the last gave its packet
    assert_eq!(outcome.events.len(), count - 2 + 2);
    assert_eq!(
        outcome.events[outcome.events.len() - 1],
        SocketEvent::Packet(Packet::unreliable(addr(1), vec![5]))
    );
    assert_eq!(
        outcome.events[outcome.events.len() - 2],
        SocketEvent::Connect(addr(1))
    );
    assert!(outcome.transmissions.is_empty());
    assert_eq!(server.connection_count(), 0);
}

#[test]
fn sending_inserts_the_peer_once() {
    let mut socket = Socket::bind(addr(1)).unwrap();
    assert_eq!(socket.connection_count(), 0);
    socket.send_to(Packet::unreliable(addr(2), vec![1]), 0).unwrap();
    socket.send_to(Packet::unreliable(addr(2), vec![2]), 0).unwrap();
    assert_eq!(socket.connection_count(), 1);
    socket.send_to(Packet::unreliable(addr(3), vec![2]), 0).unwrap();
    assert_eq!(socket.connection_count(), 2);
    // a packet that fails still made its connection
    assert_eq!(
        socket.send_to(Packet::unreliable(addr(4), vec![0; 5000]), 0).err(),
        Some(ErrorKind::ExceededMaxPacketSize)
    );
    assert_eq!(socket.connection_count(), 3);
}

#[test]
fn lost_messages_go_out_before_the_new_one() {
    let mut client = Socket::bind(addr(1)).unwrap();
    let mut server = Socket::bind(addr(2)).unwrap();
    wire(&mut client, Packet::reliable_ordered(addr(2), b"first".to_vec(), None), 0);
    wire(&mut client, Packet::reliable_unordered(addr(2), b"second".to_vec()), 0);
    for i in 0..32u8 {
        wire(&mut client, Packet::reliable_unordered(addr(2), vec![i]), 0);
    }
    // the server answers that it has received the numbers 2 to 33
    wire(&mut server, Packet::unreliable(addr(1), vec![]), 0);
    let answer = Frame {
        delivery: DeliveryGuarantee::Reliable,
        ordering: OrderingGuarantee::Unordered,
        fragment: None,
        ack: Some(laminar::wire::AckHeader { seq: 0, ack_next: 34, ack_field: 0xffff_ffff }),
        arranging: None,
        payload: vec![],
    };
    let mut events = Vec::new();
    client.recv_from(&from(2, answer.encode()), 0, &mut events).unwrap();
    let datagrams = wire(&mut client, Packet::unreliable(addr(2), b"third".to_vec()), 0);
    assert_eq!(datagrams.len(), 3);
    let frames: Vec<Frame> =
        datagrams.iter().map(|d| Frame::decode(&d.payload).unwrap()).collect();
    assert_eq!(frames[0].payload, b"first".to_vec());
    assert_eq!(frames[0].delivery, DeliveryGuarantee::Reliable);
    assert_eq!(frames[0].ordering, OrderingGuarantee::Ordered(None));
    assert_eq!(frames[0].arranging, Some(1));
    assert_eq!(frames[1].payload, b"second".to_vec());
    assert_eq!(frames[1].delivery, DeliveryGuarantee::Reliable);
    assert_eq!(frames[1].arranging, None);
    assert_eq!(frames[2].payload, b"third".to_vec());
    assert_eq!(frames[2].delivery, DeliveryGuarantee::Unreliable);
    // sent again, they are not sent once more by the next packet
    let datagrams = wire(&mut client, Packet::unreliable(addr(2), b"fourth".to_vec()), 0);
    assert_eq!(datagrams.len(), 1);
}

#[test]
fn link_conditioner_decides_on_each_datagram() {
    let mut socket = Socket::bind(addr(1)).unwrap();
    let mut lc = LinkConditioner::new();
    lc.set_packet_loss(500);
    socket.set_link_conditioner(Some(lc));
    // four fragments; the draws from seed 0 are 807, 424, 937, 236
    let transmission = socket
        .send_to(Packet::reliable_unordered(addr(2), vec![1; 4000]), 0)
        .unwrap();
    assert_eq!(transmission.addr, addr(2));
    assert_eq!(transmission.datagrams.len(), 2);
    let first = Frame::decode(&transmission.datagrams[0]).unwrap();
    let second = Frame::decode(&transmission.datagrams[1]).unwrap();
    assert_eq!(first.fragment.unwrap().index, 0);
    assert_eq!(second.fragment.unwrap().index, 2);
    assert_eq!(transmission.wire_len(), 2 * 1024 + 2 * 9 + 8);
    // the next draw is 125
    let transmission = socket.send_to(Packet::unreliable(addr(2), vec![1]), 0).unwrap();
    assert!(transmission.datagrams.is_empty());
    assert_eq!(transmission.wire_len(), 0);
    socket.set_link_conditioner(None);
    let transmission = socket.send_to(Packet::unreliable(addr(2), vec![1]), 0).unwrap();
    assert_eq!(transmission.datagrams.len(), 1);
}

#[test]
fn tick_runs_its_phases_in_order() {
    let mut config = Config::default();
    config.idle_connection_timeout = 10;
    let mut client = Socket::bind_with_config(addr(1), config).unwrap();
    let mut server = Socket::bind_with_config(addr(2), config).unwrap();
    // the server holds connections to the peers 1 and 3, made at time 0
    wire(&mut server, Packet::unreliable(addr(1), vec![]), 0);
    wire(&mut server, Packet::unreliable(addr(3), vec![]), 0);
    let inbound = wire(&mut client, Packet::unreliable(addr(2), vec![8]), 0);
    // at time 11 both peers are idle, but peer 1 is heard in this tick
    let outcome = server.tick(
        inbound,
        vec![
            Packet::unreliable(addr(4), vec![1]),
            Packet::unreliable(addr(5), vec![0; 5000]),
            Packet::unreliable(addr(6), vec![2]),
        ],
        11,
    );
    assert_eq!(
        outcome.events,
        vec![
            SocketEvent::Packet(Packet::unreliable(addr(1), vec![8])),
            SocketEvent::Timeout(addr(3)),
        ]
    );
    assert_eq!(outcome.errors, vec![ErrorKind::ExceededMaxPacketSize]);
    assert_eq!(outcome.transmissions.len(), 2);
    assert_eq!(outcome.transmissions[0].addr, addr(4));
    assert_eq!(outcome.transmissions[1].addr, addr(6));
    // peers 1, 4, 5 and 6
    assert_eq!(server.connection_count(), 4);
}

/// One poll at the time 77, which must give no error and no timeout.
fn quiet_poll(socket: &mut Socket, inbox: &mut Vec<Datagram>, outbox: &mut Vec<Datagram>) {
    let local = socket.local_addr();
    let outcome = socket.manual_poll(std::mem::take(inbox), 77);
    assert!(outcome.errors.is_empty());
    assert!(outcome.undelivered.is_empty());
    for t in outcome.transmissions {
        for payload in t.datagrams {
            outbox.push(Datagram { addr: local, payload });
        }
    }
    while let Some(event) = socket.recv() {
        assert!(!matches!(event, SocketEvent::Timeout(_)));
    }
}

#[test]
fn nobody_times_out_while_time_stands_still() {
    let mut config = Config::default();
    config.idle_connection_timeout = 0;
    let mut client = Socket::bind_with_config(addr(1), config).unwrap();
    let mut server = Socket::bind_with_config(addr(2), config).unwrap();
    let mut to_server = Vec::new();
    let mut to_client = Vec::new();
    for round in 0..50u8 {
        client.send(Packet::reliable_ordered(addr(2), vec![round], None)).unwrap();
        server.send(Packet::reliable_sequenced(addr(1), vec![round], None)).unwrap();
        quiet_poll(&mut client, &mut to_client, &mut to_server);
        quiet_poll(&mut server, &mut to_server, &mut to_client);
    }
    assert_eq!(client.connection_count(), 1);
    assert_eq!(server.connection_count(), 1);
    // one tick later both are gone
    let outcome = server.tick(Vec::new(), Vec::new(), 78);
    assert_eq!(outcome.events, vec![SocketEvent::Timeout(addr(1))]);
    assert_eq!(server.connection_count(), 0);
}

#[test]
fn ordered_stream_arrives_in_order_whatever_the_network_does() {
    let mut client = Socket::bind(addr(1)).unwrap();
    let mut server = Socket::bind(addr(2)).unwrap();
    wire(&mut server, Packet::unreliable(addr(1), vec![]), 0);
    let mut datagrams = Vec::new();
    for i in 0..20u8 {
        datagrams.extend(wire(
            &mut client,
            Packet::reliable_ordered(addr(2), vec![i], Some(9)),
            0,
        ));
    }
    // backwards, and each twice
    let mut received = Vec::new();
    for d in datagrams.iter().rev() {
        received.push(d.clone());
        received.push(d.clone());
    }
    let outcome = server.tick(received, Vec::new(), 0);
    let expected: Vec<SocketEvent> = (0..20u8)
        .map(|i| SocketEvent::Packet(Packet::reliable_ordered(addr(1), vec![i], Some(9))))
        .collect();
    assert_eq!(outcome.events, expected);
}

#[test]
fn sequenced_stream_never_goes_back() {
    let mut client = Socket::bind(addr(1)).unwrap();
    let mut server = Socket::bind(addr(2)).unwrap();
    wire(&mut server, Packet::unreliable(addr(1), vec![]), 0);
    let mut datagrams = Vec::new();
    for i in 0..6u8 {
        datagrams.extend(wire(
            &mut client,
            Packet::unreliable_sequenced(addr(2), vec![i], None),
            0,
        ));
    }
    let order = [2usize, 0, 1, 2, 4, 3, 5, 5, 4];
    let received: Vec<Datagram> = order.iter().map(|&i| datagrams[i].clone()).collect();
    let outcome = server.tick(received, Vec::new(), 0);
    let got: Vec<u8> = outcome
        .events
        .iter()
        .map(|e| match e {
            SocketEvent::Packet(p) => p.payload()[0],
            _ => panic!("only packets are expected"),
        })
        .collect();
    assert_eq!(got, vec![2, 4, 5]);
}

#[test]
fn submitted_packet_reaches_the_peer_through_the_channels() {
    let mut client = Socket::bind(addr(1)).unwrap();
    let mut server = Socket::bind(addr(2)).unwrap();
    assert!(client.recv().is_none());
    client.send(Packet::unreliable(addr(2), vec![1])).unwrap();
    client.send(Packet::unreliable(addr(2), vec![2])).unwrap();
    let outcome = client.manual_poll(Vec::new(), 0);
    assert_eq!(outcome.transmissions.len(), 2);
    let mut received = Vec::new();
    for t in outcome.transmissions {
        assert_eq!(t.addr, addr(2));
        for payload in t.datagrams {
            received.push(Datagram { addr: addr(1), payload });
        }
    }
    // nothing is left to send
    assert!(client.manual_poll(Vec::new(), 0).transmissions.is_empty());
    let outcome = server.manual_poll(received, 0);
    assert!(outcome.transmissions.is_empty());
    assert!(outcome.undelivered.is_empty());
    assert_eq!(server.recv(), Some(SocketEvent::Connect(addr(1))));
    assert_eq!(
        server.recv(),
        Some(SocketEvent::Packet(Packet::unreliable(addr(1), vec![1])))
    );
    assert_eq!(server.recv(), Some(SocketEvent::Connect(addr(1))));
    assert_eq!(
        server.recv(),
        Some(SocketEvent::Packet(Packet::unreliable(addr(1), vec![2])))
    );
    assert_eq!(server.recv(), None);
}

#[test]
fn socket_knows_where_it_is_bound() {
    let socket = Socket::bind(addr(77)).unwrap();
    assert_eq!(socket.local_addr(), addr(77));
    assert_eq!(socket.config(), Config::default());
    let socket = Socket::bind_any().unwrap();
    assert_eq!(socket.local_addr(), addr(0));
    let mut config = Config::default();
    config.fragment_size = 10;
    let socket = Socket::bind_any_with_config(config).unwrap();
    assert_eq!(socket.config().fragment_size, 10);
}

#[test]
fn answers_of_the_channels_are_passed_on() {
    assert_eq!(submission(Ok(())), Ok(()));
    assert_eq!(
        submission(Err(Packet::unreliable(addr(1), vec![1, 2]))),
        Err(ErrorKind::SendError(SocketEvent::Packet(Packet::unreliable(
            addr(1),
            vec![1, 2]
        ))))
    );
    assert_eq!(
        taken_event(Received::Message(SocketEvent::Connect(addr(3)))),
        Some(SocketEvent::Connect(addr(3)))
    );
    assert_eq!(taken_event(Received::Empty), None);
    assert_eq!(taken_event(Received::Disconnected), None);
}
