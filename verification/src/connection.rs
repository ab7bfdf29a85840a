//! The state that a socket keeps for one peer, and what it does with the
//! messages that go to the peer and the datagrams that come from it.

use vstd::prelude::*;
use crate::acknowledgment::{
    acknowledges,
    every_waiting,
    lemma_acknowledged_keeps,
    lemma_every_waiting,
    lemma_gather_idempotent,
    lemma_sent_waits,
    waiting_views,
    AcknowledgmentHandler,
    AcknowledgmentView,
    WaitingPacket,
    WaitingPacketView,
};
use crate::address::Address;
use crate::arranging::{
    arranged_views,
    is_newer,
    ordered,
    repeated,
    sequenced,
    take_identifier,
    Arranged,
    ArrangedView,
    IdentifierSource,
    OrderingStreamView,
    OrderingSystem,
    SequencingSystem,
    FIRST_IDENTIFIER,
    STREAMS,
};
use crate::config::Config;
use crate::error::ErrorKind;
use crate::events::{event_views, SocketEvent, SocketEventView};
use crate::fragmentation::{
    accepted,
    all_wf,
    complete,
    entry_of,
    joined,
    lemma_accepted_wf,
    lemma_entry_of_found,
    pieces,
    with_room,
    byte_views,
    chunks,
    lemma_joined_chunks,
    split,
    Message,
    MessageView,
    Reassembler,
    ReassemblyView,
};
use crate::packet::{DeliveryGuarantee, OrderingGuarantee, Packet, PacketView, DEFAULT_STREAM};
use crate::wire::{
    decode,
    lemma_decode_encode,
    lemma_decode_well_formed,
    lemma_header_len,
    ACKED_PACKET_HEADER,
    FRAGMENT_HEADER_SIZE,
    AckHeader,
    FragmentHeader,
    Frame,
    FrameView,
    ARRANGING_HEADER_SIZE,
    STANDARD_HEADER_SIZE,
};

verus! {

/// What one message becomes on the wire.
#[derive(Clone, Debug, PartialEq, Eq)]
pub enum Outgoing {
    /// One datagram.
    Packet(Vec<u8>),
    /// The datagrams of a message that was split, in order.
    Fragments(Vec<Vec<u8>>),
}

pub enum OutgoingView {
    Packet(Seq<u8>),
    Fragments(Seq<Seq<u8>>),
}

impl View for Outgoing {
    type V = OutgoingView;

    open spec fn view(&self) -> OutgoingView {
        match *self {
            Outgoing::Packet(d) => OutgoingView::Packet(d@),
            Outgoing::Fragments(ds) => OutgoingView::Fragments(byte_views(ds@)),
        }
    }
}

impl OutgoingView {
    /// The datagrams, in the order they are to be transmitted.
    pub open spec fn datagrams(self) -> Seq<Seq<u8>> {
        match self {
            OutgoingView::Packet(d) => seq![d],
            OutgoingView::Fragments(ds) => ds,
        }
    }
}

/// The connection to one peer.
pub struct Connection {
    addr: Address,
    config: Config,
    last_heard: u64,
    last_sent: u64,
    acknowledgment: AcknowledgmentHandler,
    sequenced_out: IdentifierSource,
    ordered_out: IdentifierSource,
    sequencing: SequencingSystem,
    ordering: OrderingSystem,
    reassembler: Reassembler,
}

/// A connection as a mathematical value.
#[verifier::ext_equal]
pub struct ConnectionView {
    /// The peer.
    pub addr: Address,
    pub config: Config,
    /// When a datagram of the peer was last taken in; when the connection
    /// was made, if none was.
    pub last_heard: u64,
    /// When a message was last turned into datagrams for the peer.
    pub last_sent: u64,
    pub acknowledgment: AcknowledgmentView,
    /// The number of the next message of each sequenced stream to the peer.
    pub sequenced_out: Seq<u64>,
    /// The number of the next message of each ordered stream to the peer.
    pub ordered_out: Seq<u64>,
    /// The newest number handed on of each sequenced stream of the peer.
    pub sequencing: Seq<u64>,
    /// The ordered streams of the peer.
    pub ordering: Seq<OrderingStreamView>,
    /// The fragmented messages of the peer that are not whole yet.
    pub reassembling: Seq<ReassemblyView>,
}

/// The stream that a guarantee arranges its messages on.
pub open spec fn stream_of(ordering: OrderingGuarantee) -> u8 {
    match ordering.spec_stream() {
        Some(s) => s,
        None => DEFAULT_STREAM,
    }
}

/// The frame of fragment `i` of a message. Only the leading fragment says
/// how the message is acknowledged and arranged.
pub open spec fn fragment_frame(
    parts: Seq<Seq<u8>>,
    i: int,
    header: AckHeader,
    ordering: OrderingGuarantee,
    arranging: Option<u64>,
) -> FrameView {
    FrameView {
        delivery: DeliveryGuarantee::Reliable,
        ordering: if i == 0 {
            ordering
        } else {
            OrderingGuarantee::Unordered
        },
        fragment: Some(
            FragmentHeader { seq: header.seq, index: i as u8, total: parts.len() as u8 },
        ),
        ack: if i == 0 {
            Some(header)
        } else {
            None
        },
        arranging: if i == 0 {
            arranging
        } else {
            None
        },
        payload: parts[i],
    }
}

/// The datagrams of a message that is sent in the pieces `parts`.
pub open spec fn fragment_datagrams(
    parts: Seq<Seq<u8>>,
    header: AckHeader,
    ordering: OrderingGuarantee,
    arranging: Option<u64>,
) -> Seq<Seq<u8>> {
    Seq::new(parts.len(), |i: int| fragment_frame(parts, i, header, ordering, arranging).encode())
}

/// The packet that the message `payload` from `addr` is handed on as.
pub open spec fn received_packet(
    addr: Address,
    delivery: DeliveryGuarantee,
    ordering: OrderingGuarantee,
    payload: Seq<u8>,
) -> PacketView {
    PacketView { addr, payload, delivery, ordering }
}

/// The packets that the messages set free by an ordered stream are handed
/// on as.
pub open spec fn released_packets(addr: Address, out: Seq<ArrangedView>) -> Seq<PacketView> {
    out.map_values(
        |a: ArrangedView| received_packet(addr, DeliveryGuarantee::Reliable, a.ordering, a.payload),
    )
}

/// The events that tell of the packets, in order.
pub open spec fn packet_events(packets: Seq<PacketView>) -> Seq<SocketEventView> {
    packets.map_values(|p: PacketView| SocketEventView::Packet(p))
}

/// Whether a reliable message of this payload goes out whole or in no more
/// fragments than are allowed.
pub open spec fn fits_fragments(config: Config, payload: Seq<u8>) -> bool {
    payload.len() <= config.fragment_size || (config.fragment_size > 0 && chunks(
        payload,
        config.fragment_size as nat,
    ).len() <= config.max_fragments)
}

/// Whether a waiting message can be sent again: it is not too large, and it
/// has a number in its stream exactly if it is sequenced or ordered.
pub open spec fn sendable(config: Config) -> spec_fn(WaitingPacketView) -> bool {
    |w: WaitingPacketView|
        fits_fragments(config, w.payload) && (w.ordering_guarantee is Unordered
            <==> w.item_identifier is None)
}

impl ConnectionView {
    /// The connection as it is made.
    pub open spec fn initial(addr: Address, config: Config, time: u64) -> ConnectionView {
        ConnectionView {
            addr,
            config,
            last_heard: time,
            last_sent: time,
            acknowledgment: AcknowledgmentView::initial(),
            sequenced_out: repeated(FIRST_IDENTIFIER, STREAMS as nat),
            ordered_out: repeated(FIRST_IDENTIFIER, STREAMS as nat),
            sequencing: repeated(0u64, STREAMS as nat),
            ordering: repeated(OrderingStreamView::initial(), STREAMS as nat),
            reassembling: Seq::empty(),
        }
    }

    pub open spec fn wf(self) -> bool {
        &&& self.sequenced_out.len() == STREAMS
        &&& self.ordered_out.len() == STREAMS
        &&& self.sequencing.len() == STREAMS
        &&& self.ordering.len() == STREAMS
        &&& all_wf(self.reassembling)
        &&& every_waiting(self.acknowledgment, sendable(self.config))
    }

    /// The connection after the message got its number in its stream, with
    /// that number: the one it was first sent under, or else the next of its
    /// stream. An unordered message gets none.
    pub open spec fn identified(
        self,
        ordering: OrderingGuarantee,
        item_identifier: Option<u64>,
    ) -> Result<(ConnectionView, Option<u64>), ErrorKind> {
        match ordering {
            OrderingGuarantee::Unordered => Ok((self, None)),
            OrderingGuarantee::Sequenced(_) => match item_identifier {
                Some(id) => Ok((self, Some(id))),
                None => match take_identifier(self.sequenced_out, stream_of(ordering)) {
                    Some((next, id)) => Ok(
                        (ConnectionView { sequenced_out: next, ..self }, Some(id)),
                    ),
                    None => Err(ErrorKind::StreamExhausted),
                },
            },
            OrderingGuarantee::Ordered(_) => match item_identifier {
                Some(id) => Ok((self, Some(id))),
                None => match take_identifier(self.ordered_out, stream_of(ordering)) {
                    Some((next, id)) => Ok((ConnectionView { ordered_out: next, ..self }, Some(id))),
                    None => Err(ErrorKind::StreamExhausted),
                },
            },
        }
    }

    /// Whether an unreliable message with its headers fits the buffer that a
    /// datagram is received into.
    pub open spec fn fits_datagram(self, payload: Seq<u8>, ordering: OrderingGuarantee) -> bool {
        STANDARD_HEADER_SIZE + (if ordering is Unordered {
            0
        } else {
            ARRANGING_HEADER_SIZE as int
        }) + payload.len() <= self.config.receive_buffer_max_size
    }

    /// Whether a reliable message goes out whole or in no more fragments
    /// than are allowed.
    pub open spec fn fits_fragments(self, payload: Seq<u8>) -> bool {
        fits_fragments(self.config, payload)
    }

    /// What a message becomes on the wire, and the connection after it.
    ///
    /// An unreliable message goes out as one datagram, and fails if that
    /// would not fit. Unreliable ordered delivery does not exist. A
    /// reliable message goes out whole if it is no larger than a fragment,
    /// else split, and fails if that takes too many fragments; once out it
    /// waits for its acknowledgment. A sequenced or ordered message that has
    /// no number yet takes the next of its stream, and fails if there is
    /// none. A message that fails changes nothing.
    pub open spec fn process_outgoing(
        self,
        payload: Seq<u8>,
        delivery: DeliveryGuarantee,
        ordering: OrderingGuarantee,
        item_identifier: Option<u64>,
        time: u64,
    ) -> Result<(ConnectionView, OutgoingView), ErrorKind> {
        if delivery is Unreliable && ordering is Ordered {
            Err(ErrorKind::UnsupportedGuarantee)
        } else if delivery is Unreliable && !self.fits_datagram(payload, ordering) {
            Err(ErrorKind::ExceededMaxPacketSize)
        } else if delivery is Reliable && !self.fits_fragments(payload) {
            Err(ErrorKind::ExceededMaxFragments)
        } else {
            match self.identified(ordering, item_identifier) {
                Err(e) => Err(e),
                Ok((numbered, arranging)) => {
                    let sent = ConnectionView { last_sent: time, ..numbered };
                    if delivery is Unreliable {
                        Ok(
                            (
                                sent,
                                OutgoingView::Packet(
                                    FrameView {
                                        delivery,
                                        ordering,
                                        fragment: None,
                                        ack: None,
                                        arranging,
                                        payload,
                                    }.encode(),
                                ),
                            ),
                        )
                    } else {
                        let header = self.acknowledgment.header();
                        let waiting = WaitingPacketView {
                            payload,
                            ordering_guarantee: ordering,
                            item_identifier: arranging,
                        };
                        let after = ConnectionView {
                            acknowledgment: self.acknowledgment.sent(waiting),
                            ..sent
                        };
                        if payload.len() <= self.config.fragment_size {
                            Ok(
                                (
                                    after,
                                    OutgoingView::Packet(
                                        FrameView {
                                            delivery,
                                            ordering,
                                            fragment: None,
                                            ack: Some(header),
                                            arranging,
                                            payload,
                                        }.encode(),
                                    ),
                                ),
                            )
                        } else {
                            Ok(
                                (
                                    after,
                                    OutgoingView::Fragments(
                                        fragment_datagrams(
                                            chunks(payload, self.config.fragment_size as nat),
                                            header,
                                            ordering,
                                            arranging,
                                        ),
                                    ),
                                ),
                            )
                        }
                    }
                },
            }
        }
    }

    /// The connection after a whole message has come, and the packets that
    /// are handed on.
    ///
    /// An unordered message is handed on as it is. A sequenced one is handed
    /// on if it is newer than all before it on its stream, else dropped. An
    /// ordered one goes to its stream, which hands on what is due.
    pub open spec fn delivered(self, delivery: DeliveryGuarantee, message: MessageView) -> (
        ConnectionView,
        Seq<PacketView>,
    ) {
        let packet = received_packet(self.addr, delivery, message.ordering, message.payload);
        match message.arranging {
            None => (self, seq![packet]),
            Some(id) => match message.ordering {
                OrderingGuarantee::Unordered => (self, seq![packet]),
                OrderingGuarantee::Sequenced(_) => if is_newer(
                    self.sequencing[stream_of(message.ordering) as int],
                    id,
                ) {
                    (
                        ConnectionView {
                            sequencing: sequenced(
                                self.sequencing,
                                stream_of(message.ordering),
                                id,
                            ),
                            ..self
                        },
                        seq![packet],
                    )
                } else {
                    (self, Seq::empty())
                },
                OrderingGuarantee::Ordered(_) => {
                    let arranged = ordered(
                        self.ordering,
                        stream_of(message.ordering),
                        ArrangedView { id, ordering: message.ordering, payload: message.payload },
                    );
                    (
                        ConnectionView { ordering: arranged.0, ..self },
                        released_packets(self.addr, arranged.1),
                    )
                },
            },
        }
    }

    /// The connection after what the acknowledgment header of a frame says
    /// was taken in.
    pub open spec fn acknowledged(self, ack: Option<AckHeader>) -> ConnectionView {
        match ack {
            Some(h) => ConnectionView {
                acknowledgment: self.acknowledgment.acknowledged(h.ack_next, h.ack_field),
                ..self
            },
            None => self,
        }
    }

    /// The connection after the message with sequence number `seq` was
    /// received whole.
    pub open spec fn received(self, seq: u16) -> ConnectionView {
        ConnectionView { acknowledgment: self.acknowledgment.received(seq), ..self }
    }

    /// The connection after a frame of the peer was taken in at `time`, and
    /// the packets that are handed on.
    pub open spec fn applied(self, frame: FrameView, time: u64) -> Result<
        (ConnectionView, Seq<PacketView>),
        ErrorKind,
    > {
        let heard = ConnectionView { last_heard: time, ..self }.acknowledged(frame.ack);
        let message = MessageView {
            ordering: frame.ordering,
            arranging: frame.arranging,
            payload: frame.payload,
        };
        match frame.fragment {
            None => match frame.ack {
                Some(h) => Ok(heard.received(h.seq).delivered(frame.delivery, message)),
                None => Ok(heard.delivered(frame.delivery, message)),
            },
            Some(fragment) => match accepted(
                self.reassembling,
                self.config.fragment_reassembly_buffer_size as nat,
                fragment,
                frame.ordering,
                frame.arranging,
                frame.payload,
            ) {
                Err(e) => Err(e),
                Ok((entries, None)) => Ok(
                    (ConnectionView { reassembling: entries, ..heard }, Seq::empty()),
                ),
                Ok((entries, Some(whole))) => Ok(
                    ConnectionView { reassembling: entries, ..heard }.received(
                        fragment.seq,
                    ).delivered(frame.delivery, whole),
                ),
            },
        }
    }

    /// The connection after a datagram of the peer was taken in at `time`,
    /// and the packets that are handed on. A datagram that is refused
    /// changes nothing.
    pub open spec fn process_incoming(self, bytes: Seq<u8>, time: u64) -> Result<
        (ConnectionView, Seq<PacketView>),
        ErrorKind,
    > {
        match decode(bytes) {
            Err(e) => Err(e),
            Ok(frame) => self.applied(frame, time),
        }
    }

    /// The connection after the messages that count as lost were taken out
    /// to be sent again.
    pub open spec fn gathered(self) -> ConnectionView {
        ConnectionView { acknowledgment: self.acknowledgment.without_lost(), ..self }
    }
}

impl View for Connection {
    type V = ConnectionView;

    closed spec fn view(&self) -> ConnectionView {
        ConnectionView {
            addr: self.addr,
            config: self.config,
            last_heard: self.last_heard,
            last_sent: self.last_sent,
            acknowledgment: self.acknowledgment@,
            sequenced_out: self.sequenced_out@,
            ordered_out: self.ordered_out@,
            sequencing: self.sequencing@,
            ordering: self.ordering@,
            reassembling: self.reassembler@,
        }
    }
}

fn push_packet(
    sink: &mut Vec<SocketEvent>,
    addr: Address,
    delivery: DeliveryGuarantee,
    ordering: OrderingGuarantee,
    payload: Vec<u8>,
)
    ensures
        event_views(final(sink)@) == event_views(old(sink)@).push(
            SocketEventView::Packet(received_packet(addr, delivery, ordering, payload@)),
        ),
{
    let packet = Packet::new(addr, payload, delivery, ordering);
    sink.push(SocketEvent::Packet(packet));
    assert(event_views(sink@) =~= event_views(old(sink)@).push(
        SocketEventView::Packet(received_packet(addr, delivery, ordering, payload@)),
    ));
}

impl Connection {
    /// Whether the connection is in a state that its operations keep it in.
    pub open spec fn wf(&self) -> bool {
        self@.wf()
    }

    /// A connection to `addr`, made at `time`.
    pub fn new(addr: Address, config: &Config, time: u64) -> (r: Connection)
        ensures
            r.wf(),
            r@ == ConnectionView::initial(addr, *config, time),
    {
        Connection {
            addr,
            config: *config,
            last_heard: time,
            last_sent: time,
            acknowledgment: AcknowledgmentHandler::new(),
            sequenced_out: IdentifierSource::new(),
            ordered_out: IdentifierSource::new(),
            sequencing: SequencingSystem::new(),
            ordering: OrderingSystem::new(),
            reassembler: Reassembler::new(),
        }
    }

    /// The peer.
    pub fn remote_address(&self) -> (r: Address)
        ensures
            r == self@.addr,
    {
        self.addr
    }

    /// When a datagram of the peer was last taken in.
    pub fn last_heard_at(&self) -> (r: u64)
        ensures
            r == self@.last_heard,
    {
        self.last_heard
    }

    /// When a message was last turned into datagrams for the peer.
    pub fn last_sent_at(&self) -> (r: u64)
        ensures
            r == self@.last_sent,
    {
        self.last_sent
    }

    /// How many reliable messages wait for their acknowledgment.
    pub fn packets_in_flight(&self) -> (r: usize)
        ensures
            r == self@.acknowledgment.in_flight.len(),
    {
        self.acknowledgment.in_flight_len()
    }

    fn identify(&mut self, ordering: OrderingGuarantee, item_identifier: Option<u64>) -> (r: Result<
        Option<u64>,
        ErrorKind,
    >)
        requires
            old(self).wf(),
        ensures
            final(self).wf(),
            match old(self)@.identified(ordering, item_identifier) {
                Ok((st, arranging)) => r == Ok::<Option<u64>, ErrorKind>(arranging) && final(self)@
                    == st,
                Err(e) => r == Err::<Option<u64>, ErrorKind>(e) && final(self)@ == old(self)@,
            },
    {
        let stream = match ordering.stream() {
            Some(s) => s,
            None => DEFAULT_STREAM,
        };
        match ordering {
            OrderingGuarantee::Unordered => Ok(None),
            OrderingGuarantee::Sequenced(_) => match item_identifier {
                Some(id) => Ok(Some(id)),
                None => match self.sequenced_out.take(stream) {
                    Some(id) => Ok(Some(id)),
                    None => Err(ErrorKind::StreamExhausted),
                },
            },
            OrderingGuarantee::Ordered(_) => match item_identifier {
                Some(id) => Ok(Some(id)),
                None => match self.ordered_out.take(stream) {
                    Some(id) => Ok(Some(id)),
                    None => Err(ErrorKind::StreamExhausted),
                },
            },
        }
    }

    fn fits_datagram(&self, len: usize, ordering: OrderingGuarantee) -> (r: bool)
        ensures
            forall|payload: Seq<u8>|
                payload.len() == len ==> r == #[trigger] self@.fits_datagram(payload, ordering),
    {
        let headers: usize = match ordering {
            OrderingGuarantee::Unordered => STANDARD_HEADER_SIZE,
            _ => STANDARD_HEADER_SIZE + ARRANGING_HEADER_SIZE,
        };
        let room = self.config.receive_buffer_max_size;
        room >= headers && len <= room - headers
    }

    /// Turns a message for the peer into the datagrams that carry it.
    ///
    /// `item_identifier` is `None` for a message that is submitted and holds
    /// the number of the message in its stream when it is sent again.
    pub fn process_outgoing(
        &mut self,
        payload: &[u8],
        delivery: DeliveryGuarantee,
        ordering: OrderingGuarantee,
        item_identifier: Option<u64>,
        time: u64,
    ) -> (r: Result<Outgoing, ErrorKind>)
        requires
            old(self).wf(),
        ensures
            final(self).wf(),
            final(self)@.addr == old(self)@.addr,
            final(self)@.config == old(self)@.config,
            final(self)@.last_heard == old(self)@.last_heard,
            match old(self)@.process_outgoing(payload@, delivery, ordering, item_identifier, time) {
                Ok((st, out)) => r matches Ok(o) && o@ == out && final(self)@ == st,
                Err(e) => r == Err::<Outgoing, ErrorKind>(e) && final(self)@ == old(self)@,
            },
    {
        match delivery {
            DeliveryGuarantee::Unreliable => {
                if let OrderingGuarantee::Ordered(_) = ordering {
                    return Err(ErrorKind::UnsupportedGuarantee);
                }
                if !self.fits_datagram(payload.len(), ordering) {
                    return Err(ErrorKind::ExceededMaxPacketSize);
                }
                let arranging = match self.identify(ordering, item_identifier) {
                    Ok(a) => a,
                    Err(e) => {
                        return Err(e);
                    },
                };
                self.last_sent = time;
                let frame = Frame {
                    delivery,
                    ordering,
                    fragment: None,
                    ack: None,
                    arranging,
                    payload: vstd::slice::slice_to_vec(payload),
                };
                Ok(Outgoing::Packet(frame.encode()))
            },
            DeliveryGuarantee::Reliable => {
                let whole = payload.len() <= self.config.fragment_size as usize;
                let parts: Vec<Vec<u8>> = if whole {
                    Vec::new()
                } else {
                    match split(payload, self.config.fragment_size, self.config.max_fragments) {
                        Ok(parts) => parts,
                        Err(e) => {
                            return Err(e);
                        },
                    }
                };
                let arranging = match self.identify(ordering, item_identifier) {
                    Ok(a) => a,
                    Err(e) => {
                        return Err(e);
                    },
                };
                self.last_sent = time;
                let header = self.acknowledgment.header();
                proof {
                    lemma_every_waiting(self.acknowledgment@, sendable(self.config));
                }
                self.acknowledgment.process_outgoing(
                    WaitingPacket {
                        payload: vstd::slice::slice_to_vec(payload),
                        ordering_guarantee: ordering,
                        item_identifier: arranging,
                    },
                );
                if whole {
                    let frame = Frame {
                        delivery,
                        ordering,
                        fragment: None,
                        ack: Some(header),
                        arranging,
                        payload: vstd::slice::slice_to_vec(payload),
                    };
                    Ok(Outgoing::Packet(frame.encode()))
                } else {
                    Ok(Outgoing::Fragments(fragments(parts, header, ordering, arranging)))
                }
            },
        }
    }

    fn deliver(&mut self, delivery: DeliveryGuarantee, message: Message, sink: &mut Vec<SocketEvent>)
        requires
            old(self).wf(),
        ensures
            final(self).wf(),
            final(self)@ == old(self)@.delivered(delivery, message@).0,
            event_views(final(sink)@) == event_views(old(sink)@) + packet_events(
                old(self)@.delivered(delivery, message@).1,
            ),
    {
        let ghost packet = received_packet(self@.addr, delivery, message@.ordering, message@.payload);
        proof {
            assert(event_views(old(sink)@).push(SocketEventView::Packet(packet)) =~= event_views(
                old(sink)@,
            ) + packet_events(seq![packet]));
            assert(event_views(old(sink)@) =~= event_views(old(sink)@) + packet_events(
                Seq::<PacketView>::empty(),
            ));
        }
        let stream = match message.ordering.stream() {
            Some(s) => s,
            None => DEFAULT_STREAM,
        };
        let id = match message.arranging {
            None => {
                push_packet(sink, self.addr, delivery, message.ordering, message.payload);
                return ;
            },
            Some(id) => id,
        };
        match message.ordering {
            OrderingGuarantee::Unordered => {
                push_packet(sink, self.addr, delivery, message.ordering, message.payload);
            },
            OrderingGuarantee::Sequenced(_) => {
                if self.sequencing.arrange(stream, id) {
                    push_packet(sink, self.addr, delivery, message.ordering, message.payload);
                }
            },
            OrderingGuarantee::Ordered(_) => {
                let mut out: Vec<Arranged> = Vec::new();
                let ghost m = ArrangedView {
                    id,
                    ordering: message@.ordering,
                    payload: message@.payload,
                };
                self.ordering.arrange(
                    stream,
                    Arranged { id, ordering: message.ordering, payload: message.payload },
                    &mut out,
                );
                assert(arranged_views(out@) =~= ordered(old(self)@.ordering, stream, m).1);
                push_released(sink, self.addr, out);
            },
        }
    }

    /// Takes in a datagram of the peer at `time` and appends to `sink` an
    /// event for each packet that is handed on.
    pub fn process_incoming(&mut self, bytes: &[u8], sink: &mut Vec<SocketEvent>, time: u64) -> (r:
        Result<(), ErrorKind>)
        requires
            old(self).wf(),
        ensures
            final(self).wf(),
            final(self)@.addr == old(self)@.addr,
            final(self)@.config == old(self)@.config,
            final(self)@.last_heard == old(self)@.last_heard || final(self)@.last_heard == time,
            match old(self)@.process_incoming(bytes@, time) {
                Ok((st, packets)) => {
                    &&& r is Ok
                    &&& final(self)@ == st
                    &&& event_views(final(sink)@) == event_views(old(sink)@) + packet_events(
                        packets,
                    )
                },
                Err(e) => {
                    &&& r == Err::<(), ErrorKind>(e)
                    &&& final(self)@ == old(self)@
                    &&& final(sink)@ == old(sink)@
                },
            },
    {
        let frame = match Frame::decode(bytes) {
            Ok(frame) => frame,
            Err(e) => {
                return Err(e);
            },
        };
        let ghost empty_packets = Seq::<PacketView>::empty();
        proof {
            assert(event_views(old(sink)@) =~= event_views(old(sink)@) + packet_events(
                empty_packets,
            ));
        }
        let Frame { delivery, ordering, fragment, ack, arranging, payload } = frame;
        proof {
            lemma_every_waiting(self.acknowledgment@, sendable(self.config));
            if let Some(h) = ack {
                lemma_every_waiting(
                    self.acknowledgment@.acknowledged(h.ack_next, h.ack_field),
                    sendable(self.config),
                );
            }
        }
        match fragment {
            None => {
                self.last_heard = time;
                if let Some(h) = ack {
                    self.acknowledgment.process_acknowledgment(h.ack_next, h.ack_field);
                    self.acknowledgment.process_incoming(h.seq);
                }
                self.deliver(delivery, Message { ordering, arranging, payload }, sink);
                Ok(())
            },
            Some(header) => {
                let capacity = self.config.fragment_reassembly_buffer_size;
                let whole = match self.reassembler.accept(
                    capacity,
                    header,
                    ordering,
                    arranging,
                    payload,
                ) {
                    Ok(whole) => whole,
                    Err(e) => {
                        return Err(e);
                    },
                };
                self.last_heard = time;
                if let Some(h) = ack {
                    self.acknowledgment.process_acknowledgment(h.ack_next, h.ack_field);
                }
                if let Some(message) = whole {
                    self.acknowledgment.process_incoming(header.seq);
                    self.deliver(delivery, message, sink);
                }
                Ok(())
            },
        }
    }

    /// Takes the reliable messages that count as lost out of those that
    /// wait and returns them, to be sent again. Called again with nothing
    /// come in between, it returns none.
    pub fn gather_dropped_packets(&mut self) -> (r: Vec<WaitingPacket>)
        requires
            old(self).wf(),
        ensures
            final(self).wf(),
            waiting_views(r@) == old(self)@.acknowledgment.lost_packets(),
            final(self)@ == old(self)@.gathered(),
            final(self)@.addr == old(self)@.addr,
            final(self)@.config == old(self)@.config,
            final(self)@.last_heard == old(self)@.last_heard,
            forall|k: int| 0 <= k < r@.len() ==> sendable(old(self)@.config)(#[trigger] r@[k]@),
            final(self)@.acknowledgment.lost_packets() == Seq::<WaitingPacketView>::empty(),
            final(self)@.gathered() == final(self)@,
    {
        proof {
            lemma_every_waiting(self.acknowledgment@, sendable(self.config));
            lemma_gather_idempotent(self.acknowledgment@);
        }
        let dropped = self.acknowledgment.dropped_packets();
        assert forall|k: int| 0 <= k < dropped@.len() implies sendable(old(self)@.config)(
            #[trigger] dropped@[k]@,
        ) by {
            assert(waiting_views(dropped@)[k] == dropped@[k]@);
        }
        dropped
    }
}

fn push_released(sink: &mut Vec<SocketEvent>, addr: Address, out: Vec<Arranged>)
    ensures
        event_views(final(sink)@) == event_views(old(sink)@) + packet_events(
            released_packets(addr, arranged_views(out@)),
        ),
{
    let ghost whole = out@;
    proof {
        assert(whole.take(0) =~= Seq::<Arranged>::empty());
        assert(event_views(sink@) =~= event_views(old(sink)@) + packet_events(
            released_packets(addr, arranged_views(whole.take(0))),
        ));
    }
    for a in it: out.into_iter()
        invariant
            it.seq() == whole,
            event_views(sink@) == event_views(old(sink)@) + packet_events(
                released_packets(addr, arranged_views(whole.take(it.index() as int))),
            ),
    {
        let ghost before = sink@;
        let ghost i = it.index() as int;
        push_packet(sink, addr, DeliveryGuarantee::Reliable, a.ordering, a.payload);
        proof {
            assert(whole.take(i + 1) =~= whole.take(i).push(whole[i]));
            assert(packet_events(released_packets(addr, arranged_views(whole.take(i + 1))))
                =~= packet_events(released_packets(addr, arranged_views(whole.take(i)))).push(
                SocketEventView::Packet(
                    received_packet(addr, DeliveryGuarantee::Reliable, a@.ordering, a@.payload),
                ),
            ));
        }
    }
    proof {
        assert(whole.take(whole.len() as int) =~= whole);
    }
}

fn fragments(
    parts: Vec<Vec<u8>>,
    header: AckHeader,
    ordering: OrderingGuarantee,
    arranging: Option<u64>,
) -> (r: Vec<Vec<u8>>)
    requires
        parts@.len() <= u8::MAX,
    ensures
        byte_views(r@) == fragment_datagrams(byte_views(parts@), header, ordering, arranging),
{
    let total = parts.len() as u8;
    let ghost whole = parts@;
    let mut out: Vec<Vec<u8>> = Vec::new();
    for part in it: parts.into_iter()
        invariant
            it.seq() == whole,
            whole.len() == total,
            out@.len() == it.index(),
            forall|k: int|
                0 <= k < out@.len() ==> (#[trigger] out@[k])@ == fragment_frame(
                    byte_views(whole),
                    k,
                    header,
                    ordering,
                    arranging,
                ).encode(),
    {
        let index = out.len() as u8;
        let leads = index == 0;
        let frame = Frame {
            delivery: DeliveryGuarantee::Reliable,
            ordering: if leads {
                ordering
            } else {
                OrderingGuarantee::Unordered
            },
            fragment: Some(FragmentHeader { seq: header.seq, index, total }),
            ack: if leads {
                Some(header)
            } else {
                None
            },
            arranging: if leads {
                arranging
            } else {
                None
            },
            payload: part,
        };
        assert(frame@ == fragment_frame(
            byte_views(whole),
            index as int,
            header,
            ordering,
            arranging,
        ));
        out.push(frame.encode());
    }
    assert(byte_views(out@) =~= fragment_datagrams(byte_views(whole), header, ordering, arranging));
    out
}


/// Taking a datagram in leaves the peer and the configuration of a
/// connection as they are and sets the time it was last heard; the packets
/// that are handed on are packets of that peer.
pub proof fn lemma_incoming_frame(c: ConnectionView, bytes: Seq<u8>, time: u64)
    ensures
        c.process_incoming(bytes, time) matches Ok((st, packets)) ==> st.addr == c.addr && st.config
            == c.config && st.last_heard == time && forall|k: int|
            0 <= k < packets.len() ==> (#[trigger] packets[k]).addr == c.addr,
{
}

/// Sending a message leaves the peer, the configuration and the time a
/// connection was last heard as they are.
pub proof fn lemma_outgoing_frame(
    c: ConnectionView,
    payload: Seq<u8>,
    delivery: DeliveryGuarantee,
    ordering: OrderingGuarantee,
    item_identifier: Option<u64>,
    time: u64,
)
    ensures
        c.process_outgoing(payload, delivery, ordering, item_identifier, time) matches Ok(
            (st, out),
        ) ==> st.addr == c.addr && st.config == c.config && st.last_heard == c.last_heard,
{
}

/// The frame that carries a whole message.
pub open spec fn whole_frame(
    delivery: DeliveryGuarantee,
    ordering: OrderingGuarantee,
    ack: Option<AckHeader>,
    arranging: Option<u64>,
    payload: Seq<u8>,
) -> FrameView {
    FrameView { delivery, ordering, fragment: None, ack, arranging, payload }
}

/// A message that waits can always be sent again: sending it again does
/// not fail, and leaves it waiting with the ordering and the number it had.
/// The datagrams that carry it are reliable and name that ordering and that
/// number.
pub proof fn lemma_resend_succeeds(c: ConnectionView, w: WaitingPacketView, time: u64)
    requires
        c.wf(),
        sendable(c.config)(w),
    ensures
        c.process_outgoing(
            w.payload,
            DeliveryGuarantee::Reliable,
            w.ordering_guarantee,
            w.item_identifier,
            time,
        ) matches Ok((st, out)) && st.wf() && st.acknowledgment == c.acknowledgment.sent(w)
            && st.addr == c.addr && st.config == c.config && st.last_heard == c.last_heard && (
        w.payload.len() <= c.config.fragment_size ==> out == OutgoingView::Packet(
            whole_frame(
                DeliveryGuarantee::Reliable,
                w.ordering_guarantee,
                Some(c.acknowledgment.header()),
                w.item_identifier,
                w.payload,
            ).encode(),
        )) && (w.payload.len() > c.config.fragment_size ==> out == OutgoingView::Fragments(
            fragment_datagrams(
                chunks(w.payload, c.config.fragment_size as nat),
                c.acknowledgment.header(),
                w.ordering_guarantee,
                w.item_identifier,
            ),
        )),
{
    lemma_every_waiting(c.acknowledgment, sendable(c.config));
}

/// Sending keeps a connection in a state that its operations keep it in,
/// and whatever waited goes on waiting; a reliable message that is sent
/// waits from then on.
pub proof fn lemma_outgoing_keeps_waiting(
    c: ConnectionView,
    payload: Seq<u8>,
    delivery: DeliveryGuarantee,
    ordering: OrderingGuarantee,
    item_identifier: Option<u64>,
    time: u64,
)
    requires
        c.wf(),
    ensures
        c.process_outgoing(payload, delivery, ordering, item_identifier, time) matches Ok(
            (st, out),
        ) ==> {
            &&& st.wf()
            &&& forall|w: WaitingPacketView|
                c.acknowledgment.waits_for(w) ==> #[trigger] st.acknowledgment.waits_for(w)
            &&& delivery is Reliable ==> exists|id: Option<u64>|
                #[trigger] st.acknowledgment.waits_for(
                    WaitingPacketView { payload, ordering_guarantee: ordering, item_identifier: id },
                ) && (item_identifier is Some && !(ordering is Unordered) ==> id == item_identifier)
        },
{
    lemma_every_waiting(c.acknowledgment, sendable(c.config));
    if let Ok((st, out)) = c.process_outgoing(payload, delivery, ordering, item_identifier, time) {
        if delivery is Reliable {
            let id = c.identified(ordering, item_identifier)->Ok_0.1;
            let w = WaitingPacketView { payload, ordering_guarantee: ordering, item_identifier: id };
            lemma_sent_waits(c.acknowledgment, w);
            assert(st.acknowledgment.waits_for(w));
        }
    }
}

/// What is read is what was written: a message that goes out whole comes
/// in, at any connection, as the same message with the same guarantees and
/// the same number in its stream.
pub proof fn lemma_whole_message_round_trip(
    sender: ConnectionView,
    receiver: ConnectionView,
    payload: Seq<u8>,
    delivery: DeliveryGuarantee,
    ordering: OrderingGuarantee,
    item_identifier: Option<u64>,
    sent_at: u64,
    received_at: u64,
)
    requires
        sender.process_outgoing(payload, delivery, ordering, item_identifier, sent_at) is Ok,
        delivery is Unreliable || payload.len() <= sender.config.fragment_size,
    ensures
        ({
            let out = sender.process_outgoing(
                payload,
                delivery,
                ordering,
                item_identifier,
                sent_at,
            )->Ok_0.1;
            let arranging = sender.identified(ordering, item_identifier)->Ok_0.1;
            let ack = if delivery is Reliable {
                Some(sender.acknowledgment.header())
            } else {
                None
            };
            &&& out == OutgoingView::Packet(
                whole_frame(delivery, ordering, ack, arranging, payload).encode(),
            )
            &&& decode(out->Packet_0) == Ok::<FrameView, ErrorKind>(
                whole_frame(delivery, ordering, ack, arranging, payload),
            )
            &&& receiver.process_incoming(out->Packet_0, received_at) == receiver.applied(
                whole_frame(delivery, ordering, ack, arranging, payload),
                received_at,
            )
            &&& arranging is Some <==> !(ordering is Unordered)
        }),
{
    let arranging = sender.identified(ordering, item_identifier)->Ok_0.1;
    let ack = if delivery is Reliable {
        Some(sender.acknowledgment.header())
    } else {
        None
    };
    let frame = whole_frame(delivery, ordering, ack, arranging, payload);
    assert(frame.well_formed());
    lemma_decode_encode(frame);
}

/// An unreliable, unordered message that goes out and comes in at the
/// connection of the peer is handed on there exactly once, as it was sent.
pub proof fn lemma_unreliable_round_trip(
    sender: ConnectionView,
    receiver: ConnectionView,
    payload: Seq<u8>,
    sent_at: u64,
    received_at: u64,
)
    requires
        sender.fits_datagram(payload, OrderingGuarantee::Unordered),
    ensures
        sender.process_outgoing(
            payload,
            DeliveryGuarantee::Unreliable,
            OrderingGuarantee::Unordered,
            None,
            sent_at,
        ) matches Ok((_, OutgoingView::Packet(bytes))) && receiver.process_incoming(
            bytes,
            received_at,
        ) matches Ok((_, packets)) && packets == seq![
            received_packet(
                receiver.addr,
                DeliveryGuarantee::Unreliable,
                OrderingGuarantee::Unordered,
                payload,
            ),
        ],
{
    lemma_whole_message_round_trip(
        sender,
        receiver,
        payload,
        DeliveryGuarantee::Unreliable,
        OrderingGuarantee::Unordered,
        None,
        sent_at,
        received_at,
    );
}

/// Every attempt to send a reliable, unordered message that goes out whole,
/// the first and each later one, is handed on exactly once by the
/// connection of the peer that it reaches, as it was sent.
pub proof fn lemma_reliable_round_trip(
    sender: ConnectionView,
    receiver: ConnectionView,
    payload: Seq<u8>,
    item_identifier: Option<u64>,
    sent_at: u64,
    received_at: u64,
)
    requires
        payload.len() <= sender.config.fragment_size,
    ensures
        sender.process_outgoing(
            payload,
            DeliveryGuarantee::Reliable,
            OrderingGuarantee::Unordered,
            item_identifier,
            sent_at,
        ) matches Ok((_, OutgoingView::Packet(bytes))) && receiver.process_incoming(
            bytes,
            received_at,
        ) matches Ok((_, packets)) && packets == seq![
            received_packet(
                receiver.addr,
                DeliveryGuarantee::Reliable,
                OrderingGuarantee::Unordered,
                payload,
            ),
        ],
{
    lemma_whole_message_round_trip(
        sender,
        receiver,
        payload,
        DeliveryGuarantee::Reliable,
        OrderingGuarantee::Unordered,
        item_identifier,
        sent_at,
        received_at,
    );
}

/// Of a sequenced stream a connection hands on only what is newer than all
/// it handed on before: a message is handed on exactly if its number is
/// above the newest of its stream, which it then becomes, and a message
/// that is not handed on changes nothing.
pub proof fn lemma_sequenced_only_newer(
    c: ConnectionView,
    delivery: DeliveryGuarantee,
    stream: Option<u8>,
    id: u64,
    payload: Seq<u8>,
)
    requires
        c.wf(),
    ensures
        ({
            let ordering = OrderingGuarantee::Sequenced(stream);
            let s = stream_of(ordering) as int;
            let (after, packets) = c.delivered(
                delivery,
                MessageView { ordering, arranging: Some(id), payload },
            );
            &&& id > c.sequencing[s] ==> packets == seq![
                received_packet(c.addr, delivery, ordering, payload),
            ] && after.sequencing[s] == id
            &&& id <= c.sequencing[s] ==> packets.len() == 0 && after == c
            &&& after.wf()
        }),
{
}

/// Of an ordered stream a connection hands on every message once and in
/// the order of the numbers: the packets that one arrival sets free are the
/// messages with the numbers from the expected one on, none left out, and
/// the stream then expects the number after the last of them.
pub proof fn lemma_ordered_in_sequence(
    c: ConnectionView,
    stream: Option<u8>,
    id: u64,
    payload: Seq<u8>,
)
    requires
        c.wf(),
    ensures
        ({
            let ordering = OrderingGuarantee::Ordered(stream);
            let s = stream_of(ordering);
            let message = ArrangedView { id, ordering, payload };
            let (after, packets) = c.delivered(
                DeliveryGuarantee::Reliable,
                MessageView { ordering, arranging: Some(id), payload },
            );
            let out = ordered(c.ordering, s, message).1;
            &&& packets == released_packets(c.addr, out)
            &&& after.ordering[s as int].expected == c.ordering[s as int].expected + packets.len()
            &&& forall|k: int|
                0 <= k < out.len() ==> (#[trigger] out[k]).id == c.ordering[s as int].expected + k
            &&& id == c.ordering[s as int].expected && id < u64::MAX ==> packets.len() >= 1
                && packets[0] == received_packet(
                c.addr,
                DeliveryGuarantee::Reliable,
                ordering,
                payload,
            )
            &&& id != c.ordering[s as int].expected ==> packets.len() == 0
        }),
{
    let ordering = OrderingGuarantee::Ordered(stream);
    crate::arranging::lemma_ordered_in_order(
        c.ordering[stream_of(ordering) as int],
        ArrangedView { id, ordering, payload },
    );
}

/// Whether no stream of `after` stands behind where it stood in `before`:
/// neither the newest number of a sequenced stream nor the number that an
/// ordered stream expects.
pub open spec fn not_behind(before: ConnectionView, after: ConnectionView) -> bool {
    forall|s: int|
        0 <= s < STREAMS ==> (#[trigger] after.sequencing[s]) >= before.sequencing[s]
            && after.ordering[s].expected >= before.ordering[s].expected
}

/// Whatever comes in, the streams of a connection never go back: the
/// newest number of a sequenced stream and the number that an ordered
/// stream expects only go up.
pub proof fn lemma_streams_never_go_back(c: ConnectionView, bytes: Seq<u8>, time: u64)
    requires
        c.wf(),
    ensures
        c.process_incoming(bytes, time) matches Ok((st, packets)) ==> not_behind(c, st),
{
    if let Ok(frame) = decode(bytes) {
        if let Ok((st, packets)) = c.applied(frame, time) {
            assert forall|s: int| 0 <= s < STREAMS implies (#[trigger] st.sequencing[s])
                >= c.sequencing[s] && st.ordering[s].expected >= c.ordering[s].expected by {
                lemma_applied_never_goes_back(c, frame, time, s);
            }
        }
    }
}

proof fn lemma_applied_never_goes_back(c: ConnectionView, frame: FrameView, time: u64, s: int)
    requires
        c.wf(),
        0 <= s < STREAMS,
    ensures
        c.applied(frame, time) matches Ok((st, packets)) ==> st.sequencing[s] >= c.sequencing[s]
            && st.ordering[s].expected >= c.ordering[s].expected,
{
    let heard = ConnectionView { last_heard: time, ..c }.acknowledged(frame.ack);
    let message = MessageView {
        ordering: frame.ordering,
        arranging: frame.arranging,
        payload: frame.payload,
    };
    lemma_every_waiting(c.acknowledgment, sendable(c.config));
    match frame.fragment {
        None => {
            match frame.ack {
                Some(h) => {
                    lemma_every_waiting(heard.acknowledgment, sendable(c.config));
                    lemma_delivered_streams(heard.received(h.seq), frame.delivery, message, s);
                },
                None => {
                    lemma_delivered_streams(heard, frame.delivery, message, s);
                },
            }
        },
        Some(fragment) => {
            match accepted(
                c.reassembling,
                c.config.fragment_reassembly_buffer_size as nat,
                fragment,
                frame.ordering,
                frame.arranging,
                frame.payload,
            ) {
                Ok((entries, Some(whole))) => {
                    let base = ConnectionView { reassembling: entries, ..heard }.received(
                        fragment.seq,
                    );
                    assert(base.sequencing == c.sequencing && base.ordering == c.ordering);
                    lemma_delivered_streams(base, frame.delivery, whole, s);
                },
                _ => {},
            }
        },
    }
}

proof fn lemma_delivered_streams(
    c: ConnectionView,
    delivery: DeliveryGuarantee,
    message: MessageView,
    s: int,
)
    requires
        c.sequencing.len() == STREAMS,
        c.ordering.len() == STREAMS,
        0 <= s < STREAMS,
    ensures
        c.delivered(delivery, message).0.sequencing[s] >= c.sequencing[s],
        c.delivered(delivery, message).0.ordering[s].expected >= c.ordering[s].expected,
{
    if let Some(id) = message.arranging {
        if message.ordering is Ordered {
            crate::arranging::lemma_ordered_in_order(
                c.ordering[stream_of(message.ordering) as int],
                ArrangedView { id, ordering: message.ordering, payload: message.payload },
            );
        }
    }
}

/// How many bytes the datagrams hold together.
pub open spec fn total_len(datagrams: Seq<Seq<u8>>) -> nat
    decreases datagrams.len(),
{
    if datagrams.len() == 0 {
        0
    } else {
        total_len(datagrams.drop_last()) + datagrams.last().len()
    }
}

/// The size of a message on the wire that goes out whole: its payload, the
/// standard header, the acknowledgment header if it is reliable, and the
/// arranging header if it is sequenced or ordered.
pub proof fn lemma_whole_size(
    c: ConnectionView,
    payload: Seq<u8>,
    delivery: DeliveryGuarantee,
    ordering: OrderingGuarantee,
    item_identifier: Option<u64>,
    time: u64,
)
    requires
        c.process_outgoing(payload, delivery, ordering, item_identifier, time) is Ok,
        delivery is Unreliable || payload.len() <= c.config.fragment_size,
    ensures
        c.process_outgoing(payload, delivery, ordering, item_identifier, time) matches Ok(
            (_, OutgoingView::Packet(bytes)),
        ) && bytes.len() == payload.len() + STANDARD_HEADER_SIZE + (if delivery is Reliable {
            ACKED_PACKET_HEADER as int
        } else {
            0
        }) + (if ordering is Unordered {
            0
        } else {
            ARRANGING_HEADER_SIZE as int
        }),
{
    let arranging = c.identified(ordering, item_identifier)->Ok_0.1;
    let ack = if delivery is Reliable {
        Some(c.acknowledgment.header())
    } else {
        None
    };
    lemma_header_len(whole_frame(delivery, ordering, ack, arranging, payload));
}

/// The size of a message on the wire that goes out in fragments: its
/// payload, a standard and a fragment header for each fragment, one
/// acknowledgment header, and one arranging header if it is sequenced or
/// ordered.
pub proof fn lemma_fragmented_size(
    c: ConnectionView,
    payload: Seq<u8>,
    ordering: OrderingGuarantee,
    item_identifier: Option<u64>,
    time: u64,
)
    requires
        c.process_outgoing(payload, DeliveryGuarantee::Reliable, ordering, item_identifier, time)
            is Ok,
        payload.len() > c.config.fragment_size,
    ensures
        c.process_outgoing(
            payload,
            DeliveryGuarantee::Reliable,
            ordering,
            item_identifier,
            time,
        ) matches Ok((_, OutgoingView::Fragments(datagrams))) && datagrams.len() == chunks(
            payload,
            c.config.fragment_size as nat,
        ).len() && total_len(datagrams) == payload.len() + datagrams.len() * (STANDARD_HEADER_SIZE
            + FRAGMENT_HEADER_SIZE) + ACKED_PACKET_HEADER + (if ordering is Unordered {
            0
        } else {
            ARRANGING_HEADER_SIZE as int
        }),
{
    let arranging = c.identified(ordering, item_identifier)->Ok_0.1;
    let header = c.acknowledgment.header();
    let parts = chunks(payload, c.config.fragment_size as nat);
    lemma_joined_chunks(payload, c.config.fragment_size as nat);
    let datagrams = fragment_datagrams(parts, header, ordering, arranging);
    lemma_fragments_total(parts, header, ordering, arranging, parts.len() as int);
    assert(datagrams.take(parts.len() as int) =~= datagrams);
    assert(parts.take(parts.len() as int) =~= parts);
}

proof fn lemma_joined_push(parts: Seq<Seq<u8>>, upto: int)
    requires
        0 < upto <= parts.len(),
    ensures
        crate::fragmentation::joined(parts.take(upto)) == crate::fragmentation::joined(
            parts.take(upto - 1),
        ) + parts[upto - 1],
{
    assert(parts.take(upto).drop_last() =~= parts.take(upto - 1));
}

proof fn lemma_fragments_total(
    parts: Seq<Seq<u8>>,
    header: AckHeader,
    ordering: OrderingGuarantee,
    arranging: Option<u64>,
    upto: int,
)
    requires
        0 < upto <= parts.len(),
        arranging is Some <==> !(ordering is Unordered),
    ensures
        total_len(fragment_datagrams(parts, header, ordering, arranging).take(upto))
            == crate::fragmentation::joined(parts.take(upto)).len() + upto * (STANDARD_HEADER_SIZE
            + FRAGMENT_HEADER_SIZE) + ACKED_PACKET_HEADER + (if ordering is Unordered {
            0
        } else {
            ARRANGING_HEADER_SIZE as int
        }),
    decreases upto,
{
    let datagrams = fragment_datagrams(parts, header, ordering, arranging);
    assert(datagrams.take(upto).drop_last() =~= datagrams.take(upto - 1));
    lemma_joined_push(parts, upto);
    lemma_header_len(fragment_frame(parts, upto - 1, header, ordering, arranging));
    if upto == 1 {
        assert(datagrams.take(0) =~= Seq::<Seq<u8>>::empty());
        assert(parts.take(0) =~= Seq::<Seq<u8>>::empty());
        assert(total_len(datagrams.take(0)) == 0);
        assert(crate::fragmentation::joined(parts.take(0)).len() == 0);
    } else {
        lemma_fragments_total(parts, header, ordering, arranging, upto - 1);
    }
    assert(upto * (STANDARD_HEADER_SIZE + FRAGMENT_HEADER_SIZE) == (upto - 1) * (
    STANDARD_HEADER_SIZE + FRAGMENT_HEADER_SIZE) + (STANDARD_HEADER_SIZE + FRAGMENT_HEADER_SIZE))
        by (nonlinear_arith);
}

/// A datagram of the peer takes out of the waiting messages only what its
/// acknowledgment header acknowledges: a message whose sequence number the
/// datagram does not acknowledge goes on waiting.
pub proof fn lemma_incoming_keeps_waiting(c: ConnectionView, bytes: Seq<u8>, time: u64, i: int)
    requires
        0 <= i < c.acknowledgment.in_flight.len(),
        decode(bytes) matches Ok(frame) ==> (frame.ack matches Some(h) ==> !acknowledges(
            h.ack_next,
            h.ack_field,
            c.acknowledgment.in_flight[i].seq,
        )),
    ensures
        c.process_incoming(bytes, time) matches Ok((st, packets))
            ==> st.acknowledgment.waits_for(c.acknowledgment.in_flight[i].packet),
{
    if let Ok(frame) = decode(bytes) {
        if let Some(h) = frame.ack {
            lemma_acknowledged_keeps(c.acknowledgment, h.ack_next, h.ack_field, i);
        }
    }
}

/// Taking a datagram in keeps a connection in a state that its operations
/// keep it in.
pub proof fn lemma_incoming_wf(c: ConnectionView, bytes: Seq<u8>, time: u64)
    requires
        c.wf(),
    ensures
        c.process_incoming(bytes, time) matches Ok((st, packets)) ==> st.wf(),
{
    if let Ok(frame) = decode(bytes) {
        lemma_decode_well_formed(bytes);
        lemma_every_waiting(c.acknowledgment, sendable(c.config));
        let heard = ConnectionView { last_heard: time, ..c }.acknowledged(frame.ack);
        lemma_every_waiting(heard.acknowledgment, sendable(c.config));
        if let Some(fragment) = frame.fragment {
            lemma_accepted_wf(
                c.reassembling,
                c.config.fragment_reassembly_buffer_size as nat,
                fragment,
                frame.ordering,
                frame.arranging,
                frame.payload,
            );
        }
    }
}

/// What a run of datagrams of the peer does, taken in one after the other
/// at `time`: the connection after them and the packets that are handed on,
/// or the error of the first that is refused.
pub open spec fn taken_in(c: ConnectionView, datagrams: Seq<Seq<u8>>, time: u64) -> Result<
    (ConnectionView, Seq<PacketView>),
    ErrorKind,
>
    decreases datagrams.len(),
{
    if datagrams.len() == 0 {
        Ok((c, Seq::empty()))
    } else {
        match taken_in(c, datagrams.drop_last(), time) {
            Err(e) => Err(e),
            Ok((before, packets)) => match before.process_incoming(datagrams.last(), time) {
                Err(e) => Err(e),
                Ok((after, more)) => Ok((after, packets + more)),
            },
        }
    }
}

/// The fragments of a message of which the first `k` have come.
pub open spec fn first_parts(parts: Seq<Seq<u8>>, k: int) -> Seq<Option<Seq<u8>>> {
    Seq::new(
        parts.len(),
        |i: int|
            if i < k {
                Some(parts[i])
            } else {
                None
            },
    )
}

/// The connection of a receiver that has taken in the first `k` fragments
/// of a message and waits for the rest.
pub open spec fn holding(
    receiver: ConnectionView,
    parts: Seq<Seq<u8>>,
    header: AckHeader,
    ordering: OrderingGuarantee,
    arranging: Option<u64>,
    k: int,
    time: u64,
) -> ConnectionView {
    ConnectionView {
        last_heard: time,
        acknowledgment: receiver.acknowledgment.acknowledged(header.ack_next, header.ack_field),
        reassembling: with_room(
            receiver.reassembling,
            receiver.config.fragment_reassembly_buffer_size as nat,
        ).push(
            ReassemblyView {
                seq: header.seq,
                total: parts.len() as u8,
                ordering,
                arranging,
                parts: first_parts(parts, k),
            },
        ),
        ..receiver
    }
}

proof fn lemma_fragment_decodes(
    parts: Seq<Seq<u8>>,
    header: AckHeader,
    ordering: OrderingGuarantee,
    arranging: Option<u64>,
    i: int,
)
    requires
        0 <= i < parts.len() <= u8::MAX,
        arranging is Some <==> !(ordering is Unordered),
    ensures
        decode(fragment_datagrams(parts, header, ordering, arranging)[i]) == Ok::<
            FrameView,
            ErrorKind,
        >(fragment_frame(parts, i, header, ordering, arranging)),
{
    let frame = fragment_frame(parts, i, header, ordering, arranging);
    assert(frame.well_formed());
    lemma_decode_encode(frame);
}

proof fn lemma_fragment_held(
    receiver: ConnectionView,
    parts: Seq<Seq<u8>>,
    header: AckHeader,
    ordering: OrderingGuarantee,
    arranging: Option<u64>,
    k: int,
    time: u64,
)
    requires
        2 <= parts.len() <= u8::MAX,
        1 <= k < parts.len(),
        arranging is Some <==> !(ordering is Unordered),
        receiver.config.fragment_reassembly_buffer_size > 0,
        entry_of(receiver.reassembling, header.seq, 0) == receiver.reassembling.len(),
    ensures
        taken_in(
            receiver,
            fragment_datagrams(parts, header, ordering, arranging).take(k),
            time,
        ) == Ok::<(ConnectionView, Seq<PacketView>), ErrorKind>(
            (holding(receiver, parts, header, ordering, arranging, k, time), Seq::empty()),
        ),
    decreases k,
{
    let datagrams = fragment_datagrams(parts, header, ordering, arranging);
    let capacity = receiver.config.fragment_reassembly_buffer_size as nat;
    let roomy = with_room(receiver.reassembling, capacity);
    let fragment = FragmentHeader { seq: header.seq, index: (k - 1) as u8, total: parts.len() as u8 };
    assert(datagrams.take(k).drop_last() =~= datagrams.take(k - 1));
    assert(datagrams.take(k).last() == datagrams[k - 1]);
    lemma_fragment_decodes(parts, header, ordering, arranging, k - 1);
    let frame = fragment_frame(parts, k - 1, header, ordering, arranging);
    let after = holding(receiver, parts, header, ordering, arranging, k, time);
    if k == 1 {
        assert(datagrams.take(0) =~= Seq::<Seq<u8>>::empty());
        let fresh = ReassemblyView::fresh(fragment);
        let opened = roomy.push(fresh);
        let entry = fresh.filled(0, ordering, arranging, parts[0]);
        assert(entry.parts =~= first_parts(parts, 1));
        assert(entry.parts[1] is None);
        assert(!complete(entry.parts));
        assert(opened.update(opened.len() - 1, entry) =~= roomy.push(entry));
        assert(accepted(
            receiver.reassembling,
            capacity,
            fragment,
            ordering,
            arranging,
            parts[0],
        ) == Ok::<(Seq<ReassemblyView>, Option<MessageView>), ErrorKind>(
            (roomy.push(entry), None),
        ));
        assert(receiver.applied(frame, time) == Ok::<(ConnectionView, Seq<PacketView>), ErrorKind>(
            (after, Seq::empty()),
        ));
        assert(Seq::<PacketView>::empty() + Seq::<PacketView>::empty() =~= Seq::<
            PacketView,
        >::empty());
    } else {
        lemma_fragment_held(receiver, parts, header, ordering, arranging, k - 1, time);
        let before = holding(receiver, parts, header, ordering, arranging, k - 1, time);
        let held = before.reassembling;
        let old_entry = held[held.len() - 1];
        lemma_roomy_absent(receiver.reassembling, capacity, header.seq);
        lemma_entry_of_found(held, header.seq, held.len() - 1);
        assert(old_entry.parts[k - 1] is None);
        let entry = old_entry.filled((k - 1) as u8, frame.ordering, frame.arranging, parts[k - 1]);
        assert(entry.parts =~= first_parts(parts, k));
        assert(entry.parts[k] is None);
        assert(!complete(entry.parts));
        assert(held.update(held.len() - 1, entry) =~= roomy.push(entry));
        assert(accepted(
            held,
            capacity,
            fragment,
            frame.ordering,
            frame.arranging,
            parts[k - 1],
        ) == Ok::<(Seq<ReassemblyView>, Option<MessageView>), ErrorKind>(
            (roomy.push(entry), None),
        ));
        assert(before.applied(frame, time) == Ok::<(ConnectionView, Seq<PacketView>), ErrorKind>(
            (after, Seq::empty()),
        ));
        assert(Seq::<PacketView>::empty() + Seq::<PacketView>::empty() =~= Seq::<
            PacketView,
        >::empty());
    }
}

proof fn lemma_roomy_absent(entries: Seq<ReassemblyView>, capacity: nat, seq: u16)
    requires
        entry_of(entries, seq, 0) == entries.len(),
    ensures
        forall|i: int|
            0 <= i < with_room(entries, capacity).len() ==> (#[trigger] with_room(
                entries,
                capacity,
            )[i]).seq != seq,
{
    crate::fragmentation::lemma_entry_of_absent(entries, seq, 0);
}

/// A reliable message that goes out in fragments comes in whole: at a
/// connection with room for one more message, which has begun no message
/// under the same sequence number, the fragments but the last give no
/// packet, and the last gives what the message gives that was sent, with
/// its payload, its ordering and its number in its stream.
pub proof fn lemma_fragmented_round_trip(
    sender: ConnectionView,
    receiver: ConnectionView,
    payload: Seq<u8>,
    ordering: OrderingGuarantee,
    item_identifier: Option<u64>,
    sent_at: u64,
    received_at: u64,
)
    requires
        sender.process_outgoing(
            payload,
            DeliveryGuarantee::Reliable,
            ordering,
            item_identifier,
            sent_at,
        ) is Ok,
        payload.len() > sender.config.fragment_size,
        receiver.config.fragment_reassembly_buffer_size > 0,
        entry_of(receiver.reassembling, sender.acknowledgment.next_seq, 0)
            == receiver.reassembling.len(),
    ensures
        ({
            let out = sender.process_outgoing(
                payload,
                DeliveryGuarantee::Reliable,
                ordering,
                item_identifier,
                sent_at,
            )->Ok_0.1;
            let arranging = sender.identified(ordering, item_identifier)->Ok_0.1;
            let header = sender.acknowledgment.header();
            let whole = ConnectionView {
                last_heard: received_at,
                acknowledgment: receiver.acknowledgment.acknowledged(
                    header.ack_next,
                    header.ack_field,
                ).received(header.seq),
                reassembling: with_room(
                    receiver.reassembling,
                    receiver.config.fragment_reassembly_buffer_size as nat,
                ),
                ..receiver
            }.delivered(
                DeliveryGuarantee::Reliable,
                MessageView { ordering, arranging, payload },
            );
            &&& out matches OutgoingView::Fragments(datagrams)
            &&& datagrams.len() >= 2
            &&& taken_in(receiver, datagrams.drop_last(), received_at) matches Ok((held, none))
            &&& none.len() == 0
            &&& taken_in(receiver, datagrams, received_at) == Ok::<
                (ConnectionView, Seq<PacketView>),
                ErrorKind,
            >(whole)
            &&& ordering is Unordered ==> whole.1 == seq![
                received_packet(receiver.addr, DeliveryGuarantee::Reliable, ordering, payload),
            ]
        }),
{
    let arranging = sender.identified(ordering, item_identifier)->Ok_0.1;
    let header = sender.acknowledgment.header();
    let size = sender.config.fragment_size as nat;
    let parts = chunks(payload, size);
    lemma_joined_chunks(payload, size);
    let datagrams = fragment_datagrams(parts, header, ordering, arranging);
    let n = parts.len() as int;
    assert(n >= 2) by {
        assert(chunks(payload, size) == seq![payload.take(size as int)] + chunks(
            payload.skip(size as int),
            size,
        ));
        lemma_joined_chunks(payload.skip(size as int), size);
    }
    let capacity = receiver.config.fragment_reassembly_buffer_size as nat;
    let roomy = with_room(receiver.reassembling, capacity);
    lemma_fragment_held(receiver, parts, header, ordering, arranging, n - 1, received_at);
    assert(datagrams.drop_last() =~= datagrams.take(n - 1));
    let before = holding(receiver, parts, header, ordering, arranging, n - 1, received_at);
    lemma_fragment_decodes(parts, header, ordering, arranging, n - 1);
    let frame = fragment_frame(parts, n - 1, header, ordering, arranging);
    let fragment = FragmentHeader { seq: header.seq, index: (n - 1) as u8, total: n as u8 };
    let held = before.reassembling;
    let old_entry = held[held.len() - 1];
    lemma_roomy_absent(receiver.reassembling, capacity, header.seq);
    lemma_entry_of_found(held, header.seq, held.len() - 1);
    assert(old_entry.parts[n - 1] is None);
    let entry = old_entry.filled((n - 1) as u8, frame.ordering, frame.arranging, parts[n - 1]);
    assert(entry.parts =~= first_parts(parts, n));
    assert(complete(entry.parts));
    assert(pieces(entry.parts) =~= parts);
    assert(entry.message() == MessageView { ordering, arranging, payload });
    assert(held.remove(held.len() - 1) =~= roomy);
    assert(accepted(held, capacity, fragment, frame.ordering, frame.arranging, parts[n - 1])
        == Ok::<(Seq<ReassemblyView>, Option<MessageView>), ErrorKind>(
        (roomy, Some(MessageView { ordering, arranging, payload })),
    ));
    let base = ConnectionView {
        last_heard: received_at,
        acknowledgment: receiver.acknowledgment.acknowledged(header.ack_next, header.ack_field)
            .received(header.seq),
        reassembling: roomy,
        ..receiver
    };
    let whole = base.delivered(
        DeliveryGuarantee::Reliable,
        MessageView { ordering, arranging, payload },
    );
    assert(ConnectionView { reassembling: roomy, ..before }.received(header.seq) == base);
    assert(before.applied(frame, received_at) == Ok::<
        (ConnectionView, Seq<PacketView>),
        ErrorKind,
    >(whole));
    assert(Seq::<PacketView>::empty() + whole.1 =~= whole.1);
}

} // verus!
