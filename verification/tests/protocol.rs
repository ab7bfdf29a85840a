use laminar::acknowledgment::AcknowledgmentHandler;
use laminar::acknowledgment::WaitingPacket;
use laminar::arranging::{Arranged, IdentifierSource, OrderingStream, SequencingSystem};
use laminar::fragmentation::{split, Reassembler};
use laminar::wire::{
    AckHeader, FragmentHeader, Frame, ACKED_PACKET_HEADER, ARRANGING_HEADER_SIZE,
    FRAGMENT_HEADER_SIZE, PROTOCOL_VERSION, STANDARD_HEADER_SIZE,
};
use laminar::{
    Address, Config, Connection, DeliveryGuarantee, ErrorKind, LinkConditioner,
    OrderingGuarantee, Outgoing, Packet, SocketEvent,
};

fn addr(port: u16) -> Address {
    Address::v4(127, 0, 0, 1, port)
}

fn connection(port: u16) -> Connection {
    Connection::new(addr(port), &Config::default(), 0)
}

fn datagrams(out: Outgoing) -> Vec<Vec<u8>> {
    match out {
        Outgoing::Packet(d) => vec![d],
        Outgoing::Fragments(ds) => ds,
    }
}

fn payloads(events: &[SocketEvent]) -> Vec<Vec<u8>> {
    let mut out = Vec::new();
    for event in events {
        if let SocketEvent::Packet(p) = event {
            out.push(p.payload().to_vec());
        }
    }
    out
}

#[test]
fn address_is_made_of_its_octets() {
    assert_eq!(
        Address::v4(127, 0, 0, 1, 80),
        Address::V4 { ip: 0x7f00_0001, port: 80 }
    );
    assert_eq!(Address::loopback(9), Address::v4(127, 0, 0, 1, 9));
    assert_eq!(Address::v4(1, 2, 3, 4, 5).port(), 5);
    assert_ne!(Address::v4(1, 2, 3, 4, 5), Address::v4(1, 2, 3, 4, 6));
}

#[test]
fn default_configuration() {
    let config = Config::default();
    assert_eq!(config.idle_connection_timeout, 5_000_000_000);
    assert_eq!(config.receive_buffer_max_size, 1452);
    assert_eq!(config.fragment_size, 1024);
    assert_eq!(config.max_fragments, 16);
    assert_eq!(config.fragment_reassembly_buffer_size, 64);
}

#[test]
fn packet_constructors_set_the_guarantees() {
    let p = Packet::unreliable(addr(1), vec![1]);
    assert_eq!(p.delivery_guarantee(), DeliveryGuarantee::Unreliable);
    assert_eq!(p.order_guarantee(), OrderingGuarantee::Unordered);
    let p = Packet::unreliable_sequenced(addr(1), vec![1], Some(3));
    assert_eq!(p.delivery_guarantee(), DeliveryGuarantee::Unreliable);
    assert_eq!(p.order_guarantee(), OrderingGuarantee::Sequenced(Some(3)));
    let p = Packet::reliable_unordered(addr(1), vec![1]);
    assert_eq!(p.delivery_guarantee(), DeliveryGuarantee::Reliable);
    assert_eq!(p.order_guarantee(), OrderingGuarantee::Unordered);
    let p = Packet::reliable_sequenced(addr(1), vec![1], None);
    assert_eq!(p.order_guarantee(), OrderingGuarantee::Sequenced(None));
    let p = Packet::reliable_ordered(addr(2), vec![7, 8], Some(1));
    assert_eq!(p.delivery_guarantee(), DeliveryGuarantee::Reliable);
    assert_eq!(p.order_guarantee(), OrderingGuarantee::Ordered(Some(1)));
    assert_eq!(p.addr(), addr(2));
    assert_eq!(p.payload(), &[7, 8]);
    assert_eq!(OrderingGuarantee::Ordered(None).stream(), Some(255));
    assert_eq!(OrderingGuarantee::Sequenced(Some(4)).stream(), Some(4));
    assert_eq!(OrderingGuarantee::Unordered.stream(), None);
}

#[test]
fn frame_is_written_byte_for_byte() {
    let frame = Frame {
        delivery: DeliveryGuarantee::Reliable,
        ordering: OrderingGuarantee::Ordered(Some(7)),
        fragment: None,
        ack: Some(AckHeader { seq: 0x0102, ack_next: 0x0304, ack_field: 0x05060708 }),
        arranging: Some(0x1122334455667788),
        payload: vec![0xaa, 0xbb],
    };
    let bytes = frame.encode();
    assert_eq!(
        bytes,
        vec![
            0x4c, 0x32, 0, 1, 4, // standard
            1, 2, 3, 4, 5, 6, 7, 8, // acknowledgment
            7, 0x11, 0x22, 0x33, 0x44, 0x55, 0x66, 0x77, 0x88, // arranging
            0xaa, 0xbb,
        ]
    );
    assert_eq!(PROTOCOL_VERSION, 0x4c32);
    assert_eq!(
        bytes.len(),
        2 + STANDARD_HEADER_SIZE + ACKED_PACKET_HEADER + ARRANGING_HEADER_SIZE
    );
    assert_eq!(Frame::decode(&bytes), Ok(frame));
}

#[test]
fn fragment_frame_is_written_byte_for_byte() {
    let frame = Frame {
        delivery: DeliveryGuarantee::Reliable,
        ordering: OrderingGuarantee::Unordered,
        fragment: Some(FragmentHeader { seq: 0x0a0b, index: 2, total: 3 }),
        ack: None,
        arranging: None,
        payload: vec![9],
    };
    let bytes = frame.encode();
    assert_eq!(bytes, vec![0x4c, 0x32, 1, 1, 0, 0x0a, 0x0b, 2, 3, 9]);
    assert_eq!(bytes.len(), 1 + STANDARD_HEADER_SIZE + FRAGMENT_HEADER_SIZE);
    assert_eq!(Frame::decode(&bytes), Ok(frame));
}

#[test]
fn default_stream_is_written_as_255() {
    let frame = Frame {
        delivery: DeliveryGuarantee::Unreliable,
        ordering: OrderingGuarantee::Sequenced(None),
        fragment: None,
        ack: None,
        arranging: Some(1),
        payload: vec![],
    };
    let bytes = frame.encode();
    assert_eq!(bytes, vec![0x4c, 0x32, 0, 0, 1, 255, 0, 0, 0, 0, 0, 0, 0, 1]);
    assert_eq!(Frame::decode(&bytes), Ok(frame));
}

#[test]
fn datagrams_that_are_cut_short_are_refused() {
    assert_eq!(Frame::decode(&[]), Err(ErrorKind::CouldNotReadHeader));
    assert_eq!(Frame::decode(&[0x4c, 0x32, 0, 0]), Err(ErrorKind::CouldNotReadHeader));
    // a fragment without its fragment header
    assert_eq!(
        Frame::decode(&[0x4c, 0x32, 1, 1, 0, 0, 0]),
        Err(ErrorKind::CouldNotReadHeader)
    );
    // a reliable datagram without its acknowledgment header
    assert_eq!(
        Frame::decode(&[0x4c, 0x32, 0, 1, 0, 0, 0, 0, 0, 0, 0, 0]),
        Err(ErrorKind::CouldNotReadHeader)
    );
    // with all of it, and no payload
    assert!(Frame::decode(&[0x4c, 0x32, 0, 1, 0, 0, 0, 0, 0, 0, 0, 0, 0]).is_ok());
}

#[test]
fn datagrams_of_another_version_are_refused() {
    assert_eq!(
        Frame::decode(&[0x4c, 0x33, 0, 0, 0, 1]),
        Err(ErrorKind::ProtocolVersionMismatch)
    );
    assert_eq!(
        Frame::decode(&[0, 0, 0, 0, 0]),
        Err(ErrorKind::ProtocolVersionMismatch)
    );
}

#[test]
fn datagrams_with_values_that_nobody_writes_are_refused() {
    // packet type 2
    assert_eq!(Frame::decode(&[0x4c, 0x32, 2, 0, 0]), Err(ErrorKind::MalformedHeader));
    // delivery 2
    assert_eq!(Frame::decode(&[0x4c, 0x32, 0, 2, 0]), Err(ErrorKind::MalformedHeader));
    // ordering 5
    assert_eq!(Frame::decode(&[0x4c, 0x32, 0, 0, 5]), Err(ErrorKind::MalformedHeader));
    // unreliable and ordered
    assert_eq!(Frame::decode(&[0x4c, 0x32, 0, 0, 3]), Err(ErrorKind::MalformedHeader));
    // unreliable fragment
    assert_eq!(
        Frame::decode(&[0x4c, 0x32, 1, 0, 0, 0, 0, 0, 1]),
        Err(ErrorKind::MalformedHeader)
    );
    // fragment 3 of 3
    assert_eq!(
        Frame::decode(&[0x4c, 0x32, 1, 1, 0, 0, 0, 3, 3]),
        Err(ErrorKind::MalformedHeader)
    );
    // the default stream written as stream 4
    assert_eq!(
        Frame::decode(&[0x4c, 0x32, 0, 0, 1, 4, 0, 0, 0, 0, 0, 0, 0, 1]),
        Err(ErrorKind::MalformedHeader)
    );
}

#[test]
fn unreliable_packet_arrives_once_as_it_was_sent() {
    let mut sender = connection(2);
    let mut receiver = connection(1);
    let out = sender
        .process_outgoing(
            &[1, 2, 3],
            DeliveryGuarantee::Unreliable,
            OrderingGuarantee::Unordered,
            None,
            10,
        )
        .unwrap();
    let wire = datagrams(out);
    assert_eq!(wire.len(), 1);
    assert_eq!(wire[0].len(), 3 + STANDARD_HEADER_SIZE);
    let mut events = Vec::new();
    receiver.process_incoming(&wire[0], &mut events, 20).unwrap();
    assert_eq!(
        events,
        vec![SocketEvent::Packet(Packet::unreliable(addr(1), vec![1, 2, 3]))]
    );
    assert_eq!(receiver.last_heard_at(), 20);
    assert_eq!(sender.last_heard_at(), 0);
    assert_eq!(sender.last_sent_at(), 10);
    assert_eq!(sender.packets_in_flight(), 0);
}

#[test]
fn reliable_packet_waits_until_acknowledged() {
    let mut sender = connection(2);
    let mut receiver = connection(1);
    let out = sender
        .process_outgoing(
            b"hello",
            DeliveryGuarantee::Reliable,
            OrderingGuarantee::Unordered,
            None,
            0,
        )
        .unwrap();
    let wire = datagrams(out);
    assert_eq!(wire[0].len(), 5 + STANDARD_HEADER_SIZE + ACKED_PACKET_HEADER);
    assert_eq!(sender.packets_in_flight(), 1);
    let mut events = Vec::new();
    receiver.process_incoming(&wire[0], &mut events, 0).unwrap();
    assert_eq!(payloads(&events), vec![b"hello".to_vec()]);

    // an unreliable reply carries no acknowledgment
    let reply = datagrams(
        receiver
            .process_outgoing(
                &[],
                DeliveryGuarantee::Unreliable,
                OrderingGuarantee::Unordered,
                None,
                0,
            )
            .unwrap(),
    );
    sender.process_incoming(&reply[0], &mut events, 0).unwrap();
    assert_eq!(sender.packets_in_flight(), 1);

    // a reliable reply does
    let reply = datagrams(
        receiver
            .process_outgoing(
                &[],
                DeliveryGuarantee::Reliable,
                OrderingGuarantee::Unordered,
                None,
                0,
            )
            .unwrap(),
    );
    let frame = Frame::decode(&reply[0]).unwrap();
    assert_eq!(frame.ack, Some(AckHeader { seq: 0, ack_next: 1, ack_field: 1 }));
    sender.process_incoming(&reply[0], &mut events, 0).unwrap();
    assert_eq!(sender.packets_in_flight(), 0);
}

#[test]
fn a_message_counts_as_lost_once_the_peer_is_a_window_ahead() {
    let mut handler = AcknowledgmentHandler::new();
    for i in 0..40u8 {
        handler.process_outgoing(WaitingPacket {
            payload: vec![i],
            ordering_guarantee: OrderingGuarantee::Unordered,
            item_identifier: None,
        });
    }
    assert_eq!(handler.in_flight_len(), 40);
    // nothing was acknowledged yet: nothing is lost
    assert!(handler.dropped_packets().is_empty());
    // the peer has received 32 (the newest) and nothing else
    handler.process_acknowledgment(33, 1);
    assert_eq!(handler.in_flight_len(), 39);
    // 1 to 31 are inside the window of the header, 0 is just outside
    let lost = handler.dropped_packets();
    assert_eq!(lost.len(), 1);
    assert_eq!(lost[0].payload, vec![0]);
    assert_eq!(handler.in_flight_len(), 38);
    // gathering again gives nothing
    assert!(handler.dropped_packets().is_empty());
    // the peer has received 39: the header speaks of 8 to 39, so 1 to 7 are lost
    handler.process_acknowledgment(40, 1);
    let lost = handler.dropped_packets();
    let lost: Vec<u8> = lost.iter().map(|w| w.payload[0]).collect();
    assert_eq!(lost, vec![1, 2, 3, 4, 5, 6, 7]);
    // a header that acknowledges nothing changes nothing
    handler.process_acknowledgment(41, 0);
    assert!(handler.dropped_packets().is_empty());
    assert_eq!(handler.in_flight_len(), 30);
}

#[test]
fn acknowledgment_field_covers_the_numbers_before_the_newest() {
    let mut handler = AcknowledgmentHandler::new();
    assert_eq!(handler.header(), AckHeader { seq: 0, ack_next: 0, ack_field: 0 });
    handler.process_incoming(0);
    assert_eq!(handler.header(), AckHeader { seq: 0, ack_next: 1, ack_field: 1 });
    handler.process_incoming(2);
    assert_eq!(handler.header(), AckHeader { seq: 0, ack_next: 3, ack_field: 0b101 });
    handler.process_incoming(1);
    assert_eq!(handler.header(), AckHeader { seq: 0, ack_next: 3, ack_field: 0b111 });
    // far ahead: the field starts anew
    handler.process_incoming(100);
    assert_eq!(handler.header(), AckHeader { seq: 0, ack_next: 101, ack_field: 1 });
    // too old to be spoken of
    handler.process_incoming(3);
    assert_eq!(handler.header(), AckHeader { seq: 0, ack_next: 101, ack_field: 1 });
    // just inside the window
    handler.process_incoming(69);
    assert_eq!(
        handler.header(),
        AckHeader { seq: 0, ack_next: 101, ack_field: 0x8000_0001 }
    );
    // the numbers run round
    let mut handler = AcknowledgmentHandler::new();
    handler.process_incoming(65535);
    assert_eq!(handler.header(), AckHeader { seq: 0, ack_next: 0, ack_field: 1 });
    handler.process_incoming(0);
    assert_eq!(handler.header(), AckHeader { seq: 0, ack_next: 1, ack_field: 0b11 });
}

#[test]
fn acknowledged_messages_leave_the_others_waiting() {
    let mut handler = AcknowledgmentHandler::new();
    for i in 0..4u8 {
        handler.process_outgoing(WaitingPacket {
            payload: vec![i],
            ordering_guarantee: OrderingGuarantee::Unordered,
            item_identifier: None,
        });
    }
    // acknowledges 3 (bit 0) and 1 (bit 2)
    handler.process_acknowledgment(4, 0b101);
    assert_eq!(handler.in_flight_len(), 2);
    handler.process_acknowledgment(70, 1);
    let lost: Vec<u8> = handler.dropped_packets().iter().map(|w| w.payload[0]).collect();
    assert_eq!(lost, vec![0, 2]);
}

#[test]
fn streams_count_from_one() {
    let mut source = IdentifierSource::new();
    assert_eq!(source.take(0), Some(1));
    assert_eq!(source.take(0), Some(2));
    assert_eq!(source.take(255), Some(1));
    assert_eq!(source.take(0), Some(3));
}

#[test]
fn sequenced_stream_hands_on_only_what_is_newer() {
    let mut system = SequencingSystem::new();
    assert!(!system.arrange(0, 0));
    assert!(system.arrange(0, 1));
    assert!(!system.arrange(0, 1));
    assert!(system.arrange(0, 5));
    assert!(!system.arrange(0, 3));
    assert!(!system.arrange(0, 5));
    assert!(system.arrange(0, 6));
    // another stream is another count
    assert!(system.arrange(1, 1));
}

fn arranged(id: u64) -> Arranged {
    Arranged { id, ordering: OrderingGuarantee::Ordered(None), payload: vec![id as u8] }
}

fn ids(out: &[Arranged]) -> Vec<u64> {
    out.iter().map(|a| a.id).collect()
}

#[test]
fn ordered_stream_hands_on_in_order_without_gaps() {
    let mut stream = OrderingStream::new();
    let mut out = Vec::new();
    stream.arrange(arranged(3), &mut out);
    stream.arrange(arranged(2), &mut out);
    stream.arrange(arranged(5), &mut out);
    stream.arrange(arranged(3), &mut out);
    assert!(out.is_empty());
    stream.arrange(arranged(1), &mut out);
    assert_eq!(ids(&out), vec![1, 2, 3]);
    // what was handed on is not handed on again
    stream.arrange(arranged(2), &mut out);
    stream.arrange(arranged(1), &mut out);
    assert_eq!(ids(&out), vec![1, 2, 3]);
    stream.arrange(arranged(4), &mut out);
    assert_eq!(ids(&out), vec![1, 2, 3, 4, 5]);
    stream.arrange(arranged(0), &mut out);
    stream.arrange(arranged(u64::MAX), &mut out);
    assert_eq!(ids(&out), vec![1, 2, 3, 4, 5]);
    stream.arrange(arranged(6), &mut out);
    assert_eq!(ids(&out), vec![1, 2, 3, 4, 5, 6]);
}

#[test]
fn payload_is_split_into_pieces_of_the_fragment_size() {
    assert_eq!(
        split(&[1, 2, 3, 4, 5], 2, 3),
        Ok(vec![vec![1, 2], vec![3, 4], vec![5]])
    );
    assert_eq!(split(&[1, 2, 3, 4], 2, 2), Ok(vec![vec![1, 2], vec![3, 4]]));
    assert_eq!(split(&[1, 2, 3, 4, 5], 2, 2), Err(ErrorKind::ExceededMaxFragments));
    assert_eq!(split(&[1], 0, 2), Err(ErrorKind::ExceededMaxFragments));
    assert_eq!(split(&[], 4, 1), Ok(vec![vec![]]));
    assert_eq!(split(&[], 4, 0), Err(ErrorKind::ExceededMaxFragments));
}

#[test]
fn fragments_are_put_together_in_any_order() {
    let mut reassembler = Reassembler::new();
    let header = |index| FragmentHeader { seq: 9, index, total: 3 };
    let unordered = OrderingGuarantee::Unordered;
    assert!(reassembler.accept(4, header(2), unordered, None, vec![5]).unwrap().is_none());
    assert!(reassembler
        .accept(4, header(0), OrderingGuarantee::Ordered(None), Some(7), vec![1, 2])
        .unwrap()
        .is_none());
    // a fragment that has come before changes nothing
    assert!(reassembler.accept(4, header(2), unordered, None, vec![6]).unwrap().is_none());
    let message = reassembler.accept(4, header(1), unordered, None, vec![3, 4]).unwrap().unwrap();
    assert_eq!(message.payload, vec![1, 2, 3, 4, 5]);
    assert_eq!(message.ordering, OrderingGuarantee::Ordered(None));
    assert_eq!(message.arranging, Some(7));
    // the message is whole and gone: its fragments begin a new one
    assert!(reassembler.accept(4, header(1), unordered, None, vec![3, 4]).unwrap().is_none());
}

#[test]
fn fragments_that_disagree_are_refused() {
    let mut reassembler = Reassembler::new();
    let unordered = OrderingGuarantee::Unordered;
    reassembler
        .accept(4, FragmentHeader { seq: 1, index: 0, total: 2 }, unordered, None, vec![1])
        .unwrap();
    assert_eq!(
        reassembler
            .accept(4, FragmentHeader { seq: 1, index: 1, total: 3 }, unordered, None, vec![2])
            .err(),
        Some(ErrorKind::FragmentMismatch)
    );
    // a place that the message does not have
    assert_eq!(
        reassembler
            .accept(4, FragmentHeader { seq: 1, index: 2, total: 2 }, unordered, None, vec![2])
            .err(),
        Some(ErrorKind::MalformedHeader)
    );
    // the message is still there and can be finished
    let message = reassembler
        .accept(4, FragmentHeader { seq: 1, index: 1, total: 2 }, unordered, None, vec![2])
        .unwrap()
        .unwrap();
    assert_eq!(message.payload, vec![1, 2]);
}

#[test]
fn oldest_message_makes_room_when_the_buffer_is_full() {
    let mut reassembler = Reassembler::new();
    let unordered = OrderingGuarantee::Unordered;
    let first = |seq| FragmentHeader { seq, index: 0, total: 2 };
    let second = |seq| FragmentHeader { seq, index: 1, total: 2 };
    reassembler.accept(2, first(1), unordered, None, vec![1]).unwrap();
    reassembler.accept(2, first(2), unordered, None, vec![2]).unwrap();
    reassembler.accept(2, first(3), unordered, None, vec![3]).unwrap();
    // message 1 made room: its second fragment begins it anew
    assert!(reassembler.accept(2, second(1), unordered, None, vec![9]).unwrap().is_none());
    // which pushed message 2 out; message 3 is still there
    let message = reassembler.accept(2, second(3), unordered, None, vec![4]).unwrap().unwrap();
    assert_eq!(message.payload, vec![3, 4]);
    // with no room at all nothing is kept
    let mut reassembler = Reassembler::new();
    assert!(reassembler.accept(0, first(1), unordered, None, vec![1]).unwrap().is_none());
    assert!(reassembler.accept(0, second(1), unordered, None, vec![2]).unwrap().is_none());
}

#[test]
fn large_reliable_payload_arrives_whole() {
    let mut sender = connection(2);
    let mut receiver = connection(1);
    let payload: Vec<u8> = (0..4000u32).map(|i| (i % 251) as u8).collect();
    let out = sender
        .process_outgoing(
            &payload,
            DeliveryGuarantee::Reliable,
            OrderingGuarantee::Unordered,
            None,
            0,
        )
        .unwrap();
    let wire = datagrams(out);
    assert_eq!(wire.len(), 4);
    let total: usize = wire.iter().map(|d| d.len()).sum();
    assert_eq!(
        total,
        4000 + 4 * (STANDARD_HEADER_SIZE + FRAGMENT_HEADER_SIZE) + ACKED_PACKET_HEADER
    );
    assert_eq!(wire[0].len(), 1024 + 5 + 4 + 8);
    assert_eq!(wire[3].len(), 4000 - 3 * 1024 + 5 + 4);
    let mut events = Vec::new();
    // the fragments arrive backwards
    for datagram in wire.iter().rev() {
        assert!(events.is_empty());
        receiver.process_incoming(datagram, &mut events, 0).unwrap();
    }
    assert_eq!(
        events,
        vec![SocketEvent::Packet(Packet::reliable_unordered(addr(1), payload))]
    );
    // the whole message is acknowledged
    assert_eq!(
        Frame::decode(
            &datagrams(
                receiver
                    .process_outgoing(
                        &[],
                        DeliveryGuarantee::Reliable,
                        OrderingGuarantee::Unordered,
                        None,
                        0
                    )
                    .unwrap()
            )[0]
        )
        .unwrap()
        .ack,
        Some(AckHeader { seq: 0, ack_next: 1, ack_field: 1 })
    );
}

#[test]
fn large_ordered_payload_keeps_its_place() {
    let mut sender = connection(2);
    let mut receiver = connection(1);
    let large = vec![7u8; 3000];
    let first = datagrams(
        sender
            .process_outgoing(
                &[1],
                DeliveryGuarantee::Reliable,
                OrderingGuarantee::Ordered(Some(2)),
                None,
                0,
            )
            .unwrap(),
    );
    let second = datagrams(
        sender
            .process_outgoing(
                &large,
                DeliveryGuarantee::Reliable,
                OrderingGuarantee::Ordered(Some(2)),
                None,
                0,
            )
            .unwrap(),
    );
    assert_eq!(second.len(), 3);
    let total: usize = second.iter().map(|d| d.len()).sum();
    assert_eq!(total, 3000 + 3 * (5 + 4) + 8 + ARRANGING_HEADER_SIZE);
    let mut events = Vec::new();
    for datagram in &second {
        receiver.process_incoming(datagram, &mut events, 0).unwrap();
    }
    // the large message is whole, and waits for the one before it
    assert!(events.is_empty());
    receiver.process_incoming(&first[0], &mut events, 0).unwrap();
    assert_eq!(payloads(&events), vec![vec![1], large]);
}

#[test]
fn too_large_payloads_are_refused() {
    let mut c = connection(1);
    let unordered = OrderingGuarantee::Unordered;
    // 1452 bytes of buffer less 5 bytes of header
    assert!(c
        .process_outgoing(&vec![0; 1447], DeliveryGuarantee::Unreliable, unordered, None, 0)
        .is_ok());
    assert_eq!(
        c.process_outgoing(&vec![0; 1448], DeliveryGuarantee::Unreliable, unordered, None, 0),
        Err(ErrorKind::ExceededMaxPacketSize)
    );
    // less 9 more for the arranging header
    assert!(c
        .process_outgoing(
            &vec![0; 1438],
            DeliveryGuarantee::Unreliable,
            OrderingGuarantee::Sequenced(None),
            None,
            0
        )
        .is_ok());
    assert_eq!(
        c.process_outgoing(
            &vec![0; 1439],
            DeliveryGuarantee::Unreliable,
            OrderingGuarantee::Sequenced(None),
            None,
            0
        ),
        Err(ErrorKind::ExceededMaxPacketSize)
    );
    // 16 fragments of 1024 bytes
    assert!(c
        .process_outgoing(&vec![0; 16 * 1024], DeliveryGuarantee::Reliable, unordered, None, 0)
        .is_ok());
    assert_eq!(
        c.process_outgoing(
            &vec![0; 16 * 1024 + 1],
            DeliveryGuarantee::Reliable,
            unordered,
            None,
            0
        ),
        Err(ErrorKind::ExceededMaxFragments)
    );
    // what failed waits for nothing
    assert_eq!(c.packets_in_flight(), 1);
}

#[test]
fn unreliable_ordered_is_refused() {
    let mut c = connection(1);
    assert_eq!(
        c.process_outgoing(
            &[1],
            DeliveryGuarantee::Unreliable,
            OrderingGuarantee::Ordered(None),
            None,
            0
        ),
        Err(ErrorKind::UnsupportedGuarantee)
    );
}

#[test]
fn message_sent_again_keeps_its_number() {
    let mut sender = connection(2);
    let ordering = OrderingGuarantee::Sequenced(Some(3));
    let first = datagrams(
        sender
            .process_outgoing(b"a", DeliveryGuarantee::Reliable, ordering, None, 0)
            .unwrap(),
    );
    let second = datagrams(
        sender
            .process_outgoing(b"b", DeliveryGuarantee::Reliable, ordering, None, 0)
            .unwrap(),
    );
    assert_eq!(Frame::decode(&first[0]).unwrap().arranging, Some(1));
    assert_eq!(Frame::decode(&second[0]).unwrap().arranging, Some(2));
    // the peer says it has received number 40 and nothing before it
    let header = Frame {
        delivery: DeliveryGuarantee::Reliable,
        ordering: OrderingGuarantee::Unordered,
        fragment: None,
        ack: Some(AckHeader { seq: 0, ack_next: 41, ack_field: 1 }),
        arranging: None,
        payload: vec![],
    };
    let mut events = Vec::new();
    sender.process_incoming(&header.encode(), &mut events, 0).unwrap();
    let lost = sender.gather_dropped_packets();
    assert_eq!(lost.len(), 2);
    assert_eq!(lost[0].payload, b"a".to_vec());
    assert_eq!(lost[0].ordering_guarantee, ordering);
    assert_eq!(lost[0].item_identifier, Some(1));
    assert_eq!(lost[1].item_identifier, Some(2));
    assert!(sender.gather_dropped_packets().is_empty());
    assert_eq!(sender.packets_in_flight(), 0);
    let again = datagrams(
        sender
            .process_outgoing(
                &lost[0].payload,
                DeliveryGuarantee::Reliable,
                lost[0].ordering_guarantee,
                lost[0].item_identifier,
                0,
            )
            .unwrap(),
    );
    let frame = Frame::decode(&again[0]).unwrap();
    assert_eq!(frame.arranging, Some(1));
    assert_eq!(frame.ordering, ordering);
    assert_eq!(frame.delivery, DeliveryGuarantee::Reliable);
    assert_eq!(frame.payload, b"a".to_vec());
    // under a new sequence number
    assert_eq!(frame.ack.unwrap().seq, 2);
    assert_eq!(sender.packets_in_flight(), 1);
    // a new message of the stream goes on counting where it was
    let third = datagrams(
        sender
            .process_outgoing(b"c", DeliveryGuarantee::Reliable, ordering, None, 0)
            .unwrap(),
    );
    assert_eq!(Frame::decode(&third[0]).unwrap().arranging, Some(3));
}

#[test]
fn refused_datagram_changes_nothing() {
    let mut c = connection(1);
    let mut events = Vec::new();
    assert_eq!(
        c.process_incoming(&[1, 2, 3], &mut events, 50),
        Err(ErrorKind::CouldNotReadHeader)
    );
    assert_eq!(
        c.process_incoming(&[9, 9, 9, 9, 9, 9], &mut events, 50),
        Err(ErrorKind::ProtocolVersionMismatch)
    );
    assert!(events.is_empty());
    assert_eq!(c.last_heard_at(), 0);
}

#[test]
fn link_conditioner_decides_by_its_seed() {
    let mut lc = LinkConditioner::new();
    assert_eq!(lc, LinkConditioner { packet_loss: 0, seed: 0 });
    lc.set_packet_loss(500);
    // the draws from seed 0 are 807, 424, 937, 236, 125
    assert!(lc.should_send());
    assert_eq!(lc.seed, 1442695040888963407);
    assert!(!lc.should_send());
    assert_eq!(lc.seed, 1876011003808476466);
    assert!(lc.should_send());
    assert!(!lc.should_send());
    assert!(!lc.should_send());
    let mut lc = LinkConditioner::with_seed(42);
    lc.set_packet_loss(334);
    // the draws from seed 42 are 334, 26, 538
    assert!(lc.should_send());
    assert!(!lc.should_send());
    assert!(lc.should_send());
}

#[test]
fn link_conditioner_without_loss_lets_everything_pass() {
    let mut lc = LinkConditioner::with_seed(7);
    for _ in 0..1000 {
        assert!(lc.should_send());
    }
    lc.set_packet_loss(1000);
    for _ in 0..1000 {
        assert!(!lc.should_send());
    }
}
