use laminar::wire::{ACKED_PACKET_HEADER, FRAGMENT_HEADER_SIZE, STANDARD_HEADER_SIZE};
use laminar::{Address, Config, Datagram, LinkConditioner, Packet, Socket, SocketEvent};
use std::collections::HashSet;

const SECOND: u64 = 1_000_000_000;
const MILLISECOND: u64 = 1_000_000;

fn addr(port: u16) -> Address {
    Address::v4(127, 0, 0, 1, port)
}

/// One poll of `socket`: it takes in what waits in `inbox`, and what it
/// transmits waits in `outbox` afterwards.
fn poll(socket: &mut Socket, inbox: &mut Vec<Datagram>, outbox: &mut Vec<Datagram>, time: u64) {
    let received = std::mem::take(inbox);
    let from = socket.local_addr();
    let outcome = socket.manual_poll(received, time);
    for transmission in outcome.transmissions {
        for payload in transmission.datagrams {
            outbox.push(Datagram { addr: from, payload });
        }
    }
}

fn create_test_packet(id: u8, port: u16) -> Packet {
    let payload = vec![id];
    Packet::reliable_unordered(addr(port), payload)
}

fn create_ordered_packet(id: u8, port: u16) -> Packet {
    let payload = vec![id];
    Packet::reliable_ordered(addr(port), payload, None)
}

fn create_sequenced_packet(id: u8, port: u16) -> Packet {
    let payload = vec![id];
    Packet::reliable_sequenced(addr(port), payload, None)
}

#[test]
fn binding_to_any() {
    assert![Socket::bind_any().is_ok()];
    assert![Socket::bind_any_with_config(Config::default()).is_ok()];
}

#[test]
fn using_sender_and_receiver() {
    let server_addr = addr(12310);
    let client_addr = addr(12311);

    let mut server = Socket::bind(server_addr).unwrap();
    let mut client = Socket::bind(client_addr).unwrap();
    let mut to_server = Vec::new();
    let mut to_client = Vec::new();

    let time = SECOND;

    let sender = client.get_packet_sender();
    let receiver = server.get_event_receiver();

    sender
        .send(Packet::reliable_unordered(
            server_addr,
            b"Hello world!".iter().cloned().collect::<Vec<_>>(),
        ))
        .unwrap();

    poll(&mut client, &mut to_client, &mut to_server, time);
    poll(&mut server, &mut to_server, &mut to_client, time);

    assert_eq![Ok(SocketEvent::Connect(client_addr)), receiver.recv()];
    if let SocketEvent::Packet(packet) = receiver.recv().unwrap() {
        assert_eq![b"Hello world!", packet.payload()];
    } else {
        panic!["Did not receive a packet when it should"];
    }
}

#[test]
fn initial_packet_is_resent() {
    let mut server = Socket::bind(addr(12335)).unwrap();
    let mut client = Socket::bind(addr(12336)).unwrap();
    let mut to_server = Vec::new();
    let mut to_client = Vec::new();

    let time = SECOND;

    // Send a packet that the server ignores/drops
    client
        .send(Packet::reliable_unordered(
            addr(12335),
            b"Do not arrive".iter().cloned().collect::<Vec<_>>(),
        ))
        .unwrap();
    poll(&mut client, &mut to_client, &mut to_server, time);

    // Drop the inbound packet, this simulates a network error
    to_server.clear();

    // Send a packet that the server receives
    for id in 0..u8::max_value() {
        client.send(create_test_packet(id, 12335)).unwrap();

        server.send(create_test_packet(id, 12336)).unwrap();

        poll(&mut client, &mut to_client, &mut to_server, time);
        poll(&mut server, &mut to_server, &mut to_client, time);

        while let Some(SocketEvent::Packet(pkt)) = server.recv() {
            if pkt.payload() == b"Do not arrive" {
                return;
            }
        }
        while let Some(_) = client.recv() {}
    }

    panic!["Did not receive the ignored packet"];
}

#[test]
fn receiving_does_not_allow_denial_of_service() {
    let mut server = Socket::bind(addr(12337)).unwrap();
    let mut client = Socket::bind(addr(12338)).unwrap();
    let mut to_server = Vec::new();
    let mut to_client = Vec::new();

    // Send a bunch of packets to a server
    for _ in 0..3 {
        client
            .send(Packet::unreliable(
                addr(12337),
                vec![1, 2, 3, 4, 5, 6, 7, 8, 9],
            ))
            .unwrap();
    }

    let time = SECOND;

    poll(&mut client, &mut to_client, &mut to_server, time);
    poll(&mut server, &mut to_server, &mut to_client, time);

    for _ in 0..6 {
        assert![server.recv().is_some()];
    }
    assert![server.recv().is_none()];

    // The server shall not have any connection in its connection table even though it received
    // packets
    assert_eq![0, server.connection_count()];

    server.send(Packet::unreliable(addr(12338), vec![1])).unwrap();

    poll(&mut server, &mut to_server, &mut to_client, time);

    // The server only adds to its table after having sent explicitly
    assert_eq![1, server.connection_count()];
}

#[test]
fn initial_sequenced_is_resent() {
    let mut server = Socket::bind(addr(12329)).unwrap();
    let mut client = Socket::bind(addr(12330)).unwrap();
    let mut to_server = Vec::new();
    let mut to_client = Vec::new();

    let time = SECOND;

    // Send a packet that the server ignores/drops
    client
        .send(Packet::reliable_sequenced(
            addr(12329),
            b"Do not arrive".iter().cloned().collect::<Vec<_>>(),
            None,
        ))
        .unwrap();
    poll(&mut client, &mut to_client, &mut to_server, time);

    // Drop the inbound packet, this simulates a network error
    to_server.clear();

    // Send a packet that the server receives
    for id in 0..36 {
        client.send(create_sequenced_packet(id, 12329)).unwrap();

        server.send(create_sequenced_packet(id, 12330)).unwrap();

        poll(&mut client, &mut to_client, &mut to_server, time);
        poll(&mut server, &mut to_server, &mut to_client, time);

        while let Some(SocketEvent::Packet(pkt)) = server.recv() {
            if pkt.payload() == b"Do not arrive" {
                panic!["Sequenced packet arrived while it should not"];
            }
        }
        while let Some(_) = client.recv() {}
    }
}

#[test]
fn initial_ordered_is_resent() {
    let mut server = Socket::bind(addr(12333)).unwrap();
    let mut client = Socket::bind(addr(12334)).unwrap();
    let mut to_server = Vec::new();
    let mut to_client = Vec::new();

    let time = SECOND;

    // Send a packet that the server ignores/drops
    client
        .send(Packet::reliable_ordered(
            addr(12333),
            b"Do not arrive".iter().cloned().collect::<Vec<_>>(),
            None,
        ))
        .unwrap();
    poll(&mut client, &mut to_client, &mut to_server, time);

    // Drop the inbound packet, this simulates a network error
    to_server.clear();

    // Send a packet that the server receives
    for id in 0..36 {
        client.send(create_ordered_packet(id, 12333)).unwrap();

        server.send(create_ordered_packet(id, 12334)).unwrap();

        poll(&mut client, &mut to_client, &mut to_server, time);
        poll(&mut server, &mut to_server, &mut to_client, time);

        while let Some(SocketEvent::Packet(pkt)) = server.recv() {
            if pkt.payload() == b"Do not arrive" {
                return;
            }
        }
        while let Some(_) = client.recv() {}
    }

    panic!["Did not receive the ignored packet"];
}

#[test]
fn do_not_duplicate_sequenced_packets_when_received() {
    let server_addr = addr(12325);
    let client_addr = addr(12326);

    let mut server = Socket::bind(server_addr).unwrap();
    let mut client = Socket::bind(client_addr).unwrap();
    let mut to_server = Vec::new();
    let mut to_client = Vec::new();

    let time = SECOND;

    for id in 0..100 {
        client
            .send(Packet::reliable_sequenced(server_addr, vec![id], None))
            .unwrap();
        poll(&mut client, &mut to_client, &mut to_server, time);
    }

    poll(&mut server, &mut to_server, &mut to_client, time);

    let mut seen = HashSet::new();

    while let Some(message) = server.recv() {
        match message {
            SocketEvent::Connect(_) => {}
            SocketEvent::Packet(packet) => {
                let byte = packet.payload()[0];
                assert![!seen.contains(&byte)];
                seen.insert(byte);
            }
            SocketEvent::Timeout(_) => {
                panic!["This should not happen, as we've not advanced time"];
            }
        }
    }

    assert_eq![100, seen.len()];
}

#[test]
fn manual_polling_socket() {
    let mut server = Socket::bind(addr(12339)).unwrap();
    let mut client = Socket::bind(addr(12340)).unwrap();
    let mut to_server = Vec::new();
    let mut to_client = Vec::new();

    for _ in 0..3 {
        client
            .send(Packet::unreliable(
                addr(12339),
                vec![1, 2, 3, 4, 5, 6, 7, 8, 9],
            ))
            .unwrap();
    }

    let time = SECOND;

    poll(&mut client, &mut to_client, &mut to_server, time);
    poll(&mut server, &mut to_server, &mut to_client, time);

    assert!(server.recv().is_some());
    assert!(server.recv().is_some());
    assert!(server.recv().is_some());
}

#[test]
fn can_send_and_receive() {
    let mut server = Socket::bind(addr(12342)).unwrap();
    let mut client = Socket::bind(addr(12341)).unwrap();
    let mut to_server = Vec::new();
    let mut to_client = Vec::new();

    for _ in 0..3 {
        client
            .send(Packet::unreliable(
                addr(12342),
                vec![1, 2, 3, 4, 5, 6, 7, 8, 9],
            ))
            .unwrap();
    }

    let now = SECOND;
    poll(&mut client, &mut to_client, &mut to_server, now);
    poll(&mut server, &mut to_server, &mut to_client, now);

    assert!(server.recv().is_some());
    assert!(server.recv().is_some());
    assert!(server.recv().is_some());
}

#[test]
fn sending_large_unreliable_packet_should_fail() {
    let mut server = Socket::bind(addr(12370)).unwrap();

    assert_eq!(
        server
            .send_to(Packet::unreliable(addr(12360), vec![1; 5000]), SECOND)
            .is_err(),
        true
    );
}

#[test]
fn send_returns_right_size() {
    let mut server = Socket::bind(addr(12371)).unwrap();

    assert_eq!(
        server
            .send_to(Packet::unreliable(addr(12361), vec![1; 1024]), SECOND)
            .unwrap()
            .wire_len(),
        1024 + STANDARD_HEADER_SIZE as usize
    );
}

#[test]
fn fragmentation_send_returns_right_size() {
    let mut server = Socket::bind(addr(12372)).unwrap();

    let fragment_packet_size = STANDARD_HEADER_SIZE + FRAGMENT_HEADER_SIZE;

    // the first fragment of an sequence of fragments contains also the acknowledgment header.
    assert_eq!(
        server
            .send_to(
                Packet::reliable_unordered(addr(12362), vec![1; 4000]),
                SECOND,
            )
            .unwrap()
            .wire_len(),
        4000 + (fragment_packet_size * 4 + ACKED_PACKET_HEADER) as usize
    );
}

#[test]
fn connect_event_occurs() {
    let mut server = Socket::bind(addr(12345)).unwrap();
    let mut client = Socket::bind(addr(12344)).unwrap();
    let mut to_server = Vec::new();
    let mut to_client = Vec::new();

    client
        .send(Packet::unreliable(addr(12345), vec![0, 1, 2]))
        .unwrap();

    let now = SECOND;
    poll(&mut client, &mut to_client, &mut to_server, now);
    poll(&mut server, &mut to_server, &mut to_client, now);

    assert_eq!(server.recv().unwrap(), SocketEvent::Connect(addr(12344)));
}

#[test]
fn disconnect_event_occurs() {
    let mut config = Config::default();
    config.idle_connection_timeout = MILLISECOND;

    let mut server = Socket::bind_with_config(addr(12347), config).unwrap();
    let mut client = Socket::bind_with_config(addr(12346), config).unwrap();
    let mut to_server = Vec::new();
    let mut to_client = Vec::new();

    client
        .send(Packet::unreliable(addr(12347), vec![0, 1, 2]))
        .unwrap();

    let now = SECOND;
    poll(&mut client, &mut to_client, &mut to_server, now);
    poll(&mut server, &mut to_server, &mut to_client, now);

    assert_eq!(server.recv().unwrap(), SocketEvent::Connect(addr(12346)));
    assert_eq!(
        server.recv().unwrap(),
        SocketEvent::Packet(Packet::unreliable(addr(12346), vec![0, 1, 2]))
    );

    // Acknowledge the client
    server.send(Packet::unreliable(addr(12346), vec![])).unwrap();

    poll(&mut server, &mut to_server, &mut to_client, now);
    poll(&mut client, &mut to_client, &mut to_server, now);
    poll(&mut server, &mut to_server, &mut to_client, now + 5 * SECOND);

    assert_eq!(server.recv().unwrap(), SocketEvent::Timeout(addr(12346)));
}

const LOCAL_PORT: u16 = 13000;
const REMOTE_PORT: u16 = 14000;

#[test]
fn multiple_sends_should_start_sending_dropped() {
    // Start up a server and a client.
    let mut server = Socket::bind(addr(REMOTE_PORT)).unwrap();
    let mut client = Socket::bind(addr(LOCAL_PORT)).unwrap();
    let mut to_server = Vec::new();
    let mut to_client = Vec::new();

    let now = SECOND;

    // Send enough packets to ensure that we must have dropped packets.
    for i in 0..35 {
        client.send(create_test_packet(i, REMOTE_PORT)).unwrap();
    }

    let mut events = Vec::new();

    loop {
        poll(&mut client, &mut to_client, &mut to_server, now);
        poll(&mut server, &mut to_server, &mut to_client, now);
        if let Some(event) = server.recv() {
            events.push(event);
        } else {
            break;
        }
    }

    // Ensure that we get the correct number of events to the server.
    // 35 connect events plus the 35 messages
    assert_eq!(events.len(), 70);

    // Finally the server decides to send us a message back.
    server.send(create_test_packet(0, LOCAL_PORT)).unwrap();

    poll(&mut server, &mut to_server, &mut to_client, now);
    poll(&mut client, &mut to_client, &mut to_server, now);

    // Ensure that the client gets the server message before moving on.
    client.recv();

    events.clear();
    client.send(create_test_packet(35, REMOTE_PORT)).unwrap();

    poll(&mut client, &mut to_client, &mut to_server, now);
    poll(&mut server, &mut to_server, &mut to_client, now);

    loop {
        poll(&mut client, &mut to_client, &mut to_server, now);
        poll(&mut server, &mut to_server, &mut to_client, now);
        if let Some(event) = server.recv() {
            events.push(event);
        } else {
            break;
        }
    }

    let sent_events: Vec<u8> = events
        .iter()
        .flat_map(|e| match e {
            SocketEvent::Packet(p) => Some(p.payload()[0]),
            _ => None,
        })
        .collect();
    assert_eq!(sent_events, vec![35]);
}

#[test]
fn really_bad_network_keeps_chugging_along() {
    let server_addr = addr(12320);
    let client_addr = addr(12321);

    let mut server = Socket::bind(server_addr).unwrap();
    let mut client = Socket::bind(client_addr).unwrap();
    let mut to_server = Vec::new();
    let mut to_client = Vec::new();

    let time = SECOND;

    // We give both the server and the client a really bad bidirectional link
    let link_conditioner = {
        let mut lc = LinkConditioner::new();
        lc.set_packet_loss(900);
        Some(lc)
    };

    client.set_link_conditioner(link_conditioner.clone());
    server.set_link_conditioner(link_conditioner);

    let mut set = HashSet::new();

    // We chat 100 packets between the client and server, which will re-send any non-acked
    // packets
    let mut send_many_packets = |dummy: Option<u8>| {
        for id in 0..100 {
            client
                .send(Packet::reliable_unordered(
                    server_addr,
                    vec![dummy.unwrap_or(id)],
                ))
                .unwrap();

            server
                .send(Packet::reliable_unordered(client_addr, vec![255]))
                .unwrap();

            poll(&mut client, &mut to_client, &mut to_server, time);
            poll(&mut server, &mut to_server, &mut to_client, time);

            while let Some(_) = client.recv() {}
            while let Some(event) = server.recv() {
                match event {
                    SocketEvent::Packet(pkt) => {
                        set.insert(pkt.payload()[0]);
                    }
                    SocketEvent::Timeout(_) => {
                        panic!["Unable to time out, time has not advanced"]
                    }
                    SocketEvent::Connect(_) => {}
                }
            }
        }

        return set.len();
    };

    // The first chatting sequence sends packets 0..100 from the client to the server. After
    // this we just chat with a value of 255 so we don't accidentally overlap those chatting
    // packets with the packets we want to ack.
    send_many_packets(None);
    send_many_packets(Some(255));
    send_many_packets(Some(255));
    send_many_packets(Some(255));

    // 101 because we have 0..100 and 255 from the dummies
    assert_eq![101, send_many_packets(Some(255))];
}

#[test]
fn do_not_panic_on_arbitrary_packets() {
    let receiver = addr(12332);
    let sender = addr(12331);

    let mut server = Socket::bind(receiver).unwrap();
    let mut seed: u64 = 12332;
    for round in 0..300usize {
        let mut bytes = Vec::new();
        for _ in 0..(round % 97) {
            seed = seed.wrapping_mul(6364136223846793005).wrapping_add(1442695040888963407);
            bytes.push((seed >> 56) as u8);
        }
        // half of them begin like a datagram of this protocol
        if round % 2 == 0 && bytes.len() >= 5 {
            bytes[0] = 0x4c;
            bytes[1] = 0x32;
            bytes[2] %= 2;
            bytes[3] %= 2;
            bytes[4] %= 5;
        }
        let mut inbox = vec![Datagram { addr: sender, payload: bytes }];
        let mut outbox = Vec::new();
        poll(&mut server, &mut inbox, &mut outbox, SECOND);
        assert!(outbox.is_empty());
        while let Some(event) = server.recv() {
            assert!(!matches!(event, SocketEvent::Timeout(_)));
        }
    }
    assert_eq![0, server.connection_count()];
}
