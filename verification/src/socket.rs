//! The socket: the engine that turns received datagrams into events and
//! submitted packets into datagrams, and that evicts peers that fell silent.

use vstd::prelude::*;
use crate::acknowledgment::{
    lemma_every_waiting,
    lemma_lost_or_waiting,
    lemma_sent_waits,
    waiting_views,
    WaitingPacketView,
};
use crate::active_connections::{is_idle, ActiveConnections, ConnectionLookup};
use crate::address::Address;
use crate::channel;
use crate::config::Config;
use crate::connection::{
    lemma_incoming_frame,
    lemma_outgoing_frame,
    lemma_outgoing_keeps_waiting,
    lemma_resend_succeeds,
    lemma_whole_message_round_trip,
    packet_events,
    received_packet,
    sendable,
    total_len,
    whole_frame,
    Connection,
    ConnectionView,
    Outgoing,
};
use crate::error::ErrorKind;
use crate::events::{event_views, SocketEvent, SocketEventView};
use crate::fragmentation::byte_views;
use crate::link_conditioner::LinkConditioner;
use crate::packet::{DeliveryGuarantee, OrderingGuarantee, Packet, PacketView};
use crate::wire::{lemma_header_len, AckHeader};

verus! {

/// A datagram with the peer it came from or goes to.
#[derive(Clone, Debug, PartialEq, Eq)]
pub struct Datagram {
    pub addr: Address,
    pub payload: Vec<u8>,
}

pub struct DatagramView {
    pub addr: Address,
    pub payload: Seq<u8>,
}

impl View for Datagram {
    type V = DatagramView;

    open spec fn view(&self) -> DatagramView {
        DatagramView { addr: self.addr, payload: self.payload@ }
    }
}

pub open spec fn datagram_views(s: Seq<Datagram>) -> Seq<DatagramView> {
    s.map_values(|d: Datagram| d@)
}

pub open spec fn packet_views(s: Seq<Packet>) -> Seq<PacketView> {
    s.map_values(|p: Packet| p@)
}

/// The datagrams that one submitted packet gave rise to, in the order they
/// are to be transmitted to the peer. When the endpoint fails on one of
/// them, those after it are not transmitted.
#[derive(Clone, Debug, PartialEq, Eq)]
pub struct Transmission {
    pub addr: Address,
    pub datagrams: Vec<Vec<u8>>,
}

pub struct TransmissionView {
    pub addr: Address,
    pub datagrams: Seq<Seq<u8>>,
}

impl View for Transmission {
    type V = TransmissionView;

    open spec fn view(&self) -> TransmissionView {
        TransmissionView { addr: self.addr, datagrams: byte_views(self.datagrams@) }
    }
}

pub open spec fn transmission_views(s: Seq<Transmission>) -> Seq<TransmissionView> {
    s.map_values(|t: Transmission| t@)
}

impl Transmission {
    /// How many bytes the datagrams hold together; `usize::MAX` if that is
    /// more than a `usize` holds.
    pub fn wire_len(&self) -> (r: usize)
        ensures
            r == (if total_len(self@.datagrams) <= usize::MAX {
                total_len(self@.datagrams)
            } else {
                usize::MAX as nat
            }),
    {
        let mut total: usize = 0;
        let mut i: usize = 0;
        let ghost all = self@.datagrams;
        assert(all.take(0) =~= Seq::<Seq<u8>>::empty());
        while i < self.datagrams.len()
            invariant
                all == self@.datagrams,
                i <= self.datagrams@.len(),
                total == (if total_len(all.take(i as int)) <= usize::MAX {
                    total_len(all.take(i as int))
                } else {
                    usize::MAX as nat
                }),
            decreases self.datagrams@.len() - i,
        {
            proof {
                assert(all.take(i + 1).drop_last() =~= all.take(i as int));
                assert(all.take(i + 1).last() == self.datagrams@[i as int]@);
            }
            let len = self.datagrams[i].len();
            total = if len <= usize::MAX - total {
                total + len
            } else {
                usize::MAX
            };
            i += 1;
        }
        assert(all.take(all.len() as int) =~= all);
        total
    }
}

/// The connection that the table holds for the peer, or the one that is
/// made for the peer at `time` if it holds none.
pub open spec fn connection_for(
    table: Map<Address, ConnectionView>,
    config: Config,
    addr: Address,
    time: u64,
) -> ConnectionView {
    if table.contains_key(addr) {
        table[addr]
    } else {
        ConnectionView::initial(addr, config, time)
    }
}

/// What one received datagram does: the table after it, the events it
/// gives rise to, and the error if it is refused.
///
/// A datagram of no bytes is refused. A datagram from a peer that the
/// table does not hold gives a connect event first, and is then taken in by
/// a connection made for it alone: the table stays as it is. A datagram
/// from a peer that the table holds is taken in by the connection of that
/// peer. A datagram that the connection refuses changes nothing, but its
/// connect event stands.
pub open spec fn receive_one(
    table: Map<Address, ConnectionView>,
    config: Config,
    datagram: DatagramView,
    time: u64,
) -> (Map<Address, ConnectionView>, Seq<SocketEventView>, Option<ErrorKind>) {
    if datagram.payload.len() == 0 {
        (table, Seq::empty(), Some(ErrorKind::ReceivedDataToShort))
    } else {
        let connect = if table.contains_key(datagram.addr) {
            Seq::empty()
        } else {
            seq![SocketEventView::Connect(datagram.addr)]
        };
        match connection_for(table, config, datagram.addr, time).process_incoming(
            datagram.payload,
            time,
        ) {
            Ok((st, packets)) => (
                if table.contains_key(datagram.addr) {
                    table.insert(datagram.addr, st)
                } else {
                    table
                },
                connect + packet_events(packets),
                None,
            ),
            Err(e) => (table, connect, Some(e)),
        }
    }
}

/// What the received datagrams do, one after the other.
pub open spec fn receive_all(
    table: Map<Address, ConnectionView>,
    config: Config,
    datagrams: Seq<DatagramView>,
    time: u64,
) -> (Map<Address, ConnectionView>, Seq<SocketEventView>, Seq<ErrorKind>)
    decreases datagrams.len(),
{
    if datagrams.len() == 0 {
        (table, Seq::empty(), Seq::empty())
    } else {
        let before = receive_all(table, config, datagrams.drop_last(), time);
        let step = receive_one(before.0, config, datagrams.last(), time);
        (
            step.0,
            before.1 + step.1,
            match step.2 {
                Some(e) => before.2.push(e),
                None => before.2,
            },
        )
    }
}

/// Sending the lost messages again, oldest first: the connection after it,
/// the datagrams, and the error on which it stopped, if it did. Each goes
/// out reliable, with the ordering and the number it was first sent with.
pub open spec fn resent(connection: ConnectionView, lost: Seq<WaitingPacketView>, time: u64) -> (
    ConnectionView,
    Seq<Seq<u8>>,
    Option<ErrorKind>,
)
    decreases lost.len(),
{
    if lost.len() == 0 {
        (connection, Seq::empty(), None)
    } else {
        let before = resent(connection, lost.drop_last(), time);
        if before.2 is Some {
            before
        } else {
            match before.0.process_outgoing(
                lost.last().payload,
                DeliveryGuarantee::Reliable,
                lost.last().ordering_guarantee,
                lost.last().item_identifier,
                time,
            ) {
                Ok((st, out)) => (st, before.1 + out.datagrams(), None),
                Err(e) => (before.0, before.1, Some(e)),
            }
        }
    }
}

/// What passes the link conditioner, which decides on each datagram in
/// turn; everything passes where there is none.
pub open spec fn gated(conditioner: Option<LinkConditioner>, datagrams: Seq<Seq<u8>>) -> (
    Option<LinkConditioner>,
    Seq<Seq<u8>>,
)
    decreases datagrams.len(),
{
    if datagrams.len() == 0 {
        (conditioner, Seq::empty())
    } else {
        let before = gated(conditioner, datagrams.drop_last());
        match before.0 {
            None => (None, before.1.push(datagrams.last())),
            Some(c) => (
                Some(c.stepped()),
                if c.permits() {
                    before.1.push(datagrams.last())
                } else {
                    before.1
                },
            ),
        }
    }
}

/// What one submitted packet does: the table and the conditioner after it,
/// and the datagrams to transmit, or the error.
///
/// The peer gets a connection if the table holds none. The messages of
/// that connection that count as lost are sent again, then the packet is
/// sent; the datagrams of all of them, in that order, go past the link
/// conditioner. If one of the messages fails, nothing is transmitted; what
/// was done to the connection before stands.
pub open spec fn send_one(
    table: Map<Address, ConnectionView>,
    conditioner: Option<LinkConditioner>,
    config: Config,
    packet: PacketView,
    time: u64,
) -> (Map<Address, ConnectionView>, Option<LinkConditioner>, Result<Seq<Seq<u8>>, ErrorKind>) {
    let connection = connection_for(table, config, packet.addr, time);
    let again = resent(connection.gathered(), connection.acknowledgment.lost_packets(), time);
    match again.2 {
        Some(e) => (table.insert(packet.addr, again.0), conditioner, Err(e)),
        None => match again.0.process_outgoing(
            packet.payload,
            packet.delivery,
            packet.ordering,
            None,
            time,
        ) {
            Err(e) => (table.insert(packet.addr, again.0), conditioner, Err(e)),
            Ok((st, out)) => {
                let passed = gated(conditioner, again.1 + out.datagrams());
                (table.insert(packet.addr, st), passed.0, Ok(passed.1))
            },
        },
    }
}

/// What the submitted packets do, one after the other: the table and the
/// conditioner after them, what to transmit for each packet that did not
/// fail, and the errors of those that did.
pub open spec fn send_all(
    table: Map<Address, ConnectionView>,
    conditioner: Option<LinkConditioner>,
    config: Config,
    packets: Seq<PacketView>,
    time: u64,
) -> (
    Map<Address, ConnectionView>,
    Option<LinkConditioner>,
    Seq<TransmissionView>,
    Seq<ErrorKind>,
)
    decreases packets.len(),
{
    if packets.len() == 0 {
        (table, conditioner, Seq::empty(), Seq::empty())
    } else {
        let before = send_all(table, conditioner, config, packets.drop_last(), time);
        let step = send_one(before.0, before.1, config, packets.last(), time);
        match step.2 {
            Ok(datagrams) => (
                step.0,
                step.1,
                before.2.push(TransmissionView { addr: packets.last().addr, datagrams }),
                before.3,
            ),
            Err(e) => (step.0, step.1, before.2, before.3.push(e)),
        }
    }
}

/// Whether the table holds the peer and the peer is idle at `time`.
pub open spec fn idle_at(
    table: Map<Address, ConnectionView>,
    timeout: u64,
    time: u64,
    addr: Address,
) -> bool {
    table.contains_key(addr) && is_idle(table[addr].last_heard, timeout, time)
}

/// The table without the peers that are idle at `time`.
pub open spec fn evicted(table: Map<Address, ConnectionView>, timeout: u64, time: u64) -> Map<
    Address,
    ConnectionView,
> {
    Map::new(
        |a: Address| table.contains_key(a) && !is_idle(table[a].last_heard, timeout, time),
        |a: Address| table[a],
    )
}

/// The events that tell of the eviction of the peers, in order.
pub open spec fn timeouts(peers: Seq<Address>) -> Seq<SocketEventView> {
    peers.map_values(|a: Address| SocketEventView::Timeout(a))
}

/// Whether `peers` lists the peers of the table that are idle at `time`,
/// each once.
pub open spec fn lists_idle(
    peers: Seq<Address>,
    table: Map<Address, ConnectionView>,
    timeout: u64,
    time: u64,
) -> bool {
    &&& peers.no_duplicates()
    &&& forall|a: Address| peers.contains(a) <==> idle_at(table, timeout, time, a)
}

/// Whether every peer of the table was heard at `time` or later.
pub open spec fn heard_since(table: Map<Address, ConnectionView>, time: u64) -> bool {
    forall|a: Address| #[trigger] table.contains_key(a) ==> table[a].last_heard >= time
}

/// A socket, less its channels, as a mathematical value.
pub struct SocketView {
    pub local: Address,
    pub config: Config,
    pub connections: Map<Address, ConnectionView>,
    pub link_conditioner: Option<LinkConditioner>,
}

/// A reliable datagram socket.
pub struct Socket {
    local: Address,
    config: Config,
    connections: ActiveConnections,
    link_conditioner: Option<LinkConditioner>,
    event_sender: crossbeam_channel::Sender<SocketEvent>,
    packet_receiver: crossbeam_channel::Receiver<Packet>,
    receiver: crossbeam_channel::Receiver<SocketEvent>,
    sender: crossbeam_channel::Sender<Packet>,
}

impl View for Socket {
    type V = SocketView;

    closed spec fn view(&self) -> SocketView {
        SocketView {
            local: self.local,
            config: self.config,
            connections: self.connections@,
            link_conditioner: self.link_conditioner,
        }
    }
}

fn append_datagrams(wire: &mut Vec<Vec<u8>>, out: Outgoing)
    ensures
        byte_views(final(wire)@) == byte_views(old(wire)@) + out@.datagrams(),
{
    match out {
        Outgoing::Packet(d) => {
            wire.push(d);
            assert(byte_views(wire@) =~= byte_views(old(wire)@) + seq![d@]);
        },
        Outgoing::Fragments(mut ds) => {
            let ghost added = ds@;
            wire.append(&mut ds);
            assert(byte_views(wire@) =~= byte_views(old(wire)@) + byte_views(added));
        },
    }
}

/// Sends the lost messages of a connection again and then the packet.
fn compose(
    connection: &mut Connection,
    payload: &[u8],
    delivery: DeliveryGuarantee,
    ordering: OrderingGuarantee,
    time: u64,
) -> (r: Result<Vec<Vec<u8>>, ErrorKind>)
    requires
        old(connection).wf(),
    ensures
        final(connection).wf(),
        final(connection)@.addr == old(connection)@.addr,
        final(connection)@.config == old(connection)@.config,
        final(connection)@.last_heard == old(connection)@.last_heard,
        ({
            let c = old(connection)@;
            let again = resent(c.gathered(), c.acknowledgment.lost_packets(), time);
            match again.2 {
                Some(e) => r == Err::<Vec<Vec<u8>>, ErrorKind>(e) && final(connection)@ == again.0,
                None => match again.0.process_outgoing(payload@, delivery, ordering, None, time) {
                    Err(e) => r == Err::<Vec<Vec<u8>>, ErrorKind>(e) && final(connection)@
                        == again.0,
                    Ok((st, out)) => r matches Ok(wire) && byte_views(wire@) == again.1
                        + out.datagrams() && final(connection)@ == st,
                },
            }
        }),
{
    let dropped = connection.gather_dropped_packets();
    let ghost gathered = connection@;
    let ghost lost = waiting_views(dropped@);
    let mut wire: Vec<Vec<u8>> = Vec::new();
    let mut i: usize = 0;
    assert(lost.take(0) =~= Seq::<WaitingPacketView>::empty());
    assert(byte_views(wire@) =~= Seq::<Seq<u8>>::empty());
    while i < dropped.len()
        invariant
            i <= dropped@.len(),
            lost == waiting_views(dropped@),
            lost == old(connection)@.acknowledgment.lost_packets(),
            gathered == old(connection)@.gathered(),
            connection.wf(),
            connection@.addr == old(connection)@.addr,
            connection@.config == old(connection)@.config,
            connection@.last_heard == old(connection)@.last_heard,
            resent(gathered, lost.take(i as int), time) == (connection@, byte_views(wire@), None::<
                ErrorKind,
            >),
        decreases dropped@.len() - i,
    {
        let waiting = &dropped[i];
        proof {
            assert(lost.take(i + 1).drop_last() =~= lost.take(i as int));
            assert(lost.take(i + 1).last() == waiting@);
            assert(forall|k: int| i < k <= lost.len() ==> #[trigger] lost.take(k).drop_last()
                =~= lost.take(k - 1));
        }
        match connection.process_outgoing(
            waiting.payload.as_slice(),
            DeliveryGuarantee::Reliable,
            waiting.ordering_guarantee,
            waiting.item_identifier,
            time,
        ) {
            Ok(out) => {
                append_datagrams(&mut wire, out);
            },
            Err(e) => {
                proof {
                    let step = resent(gathered, lost.take(i + 1), time);
                    assert(step.2 == Some(e));
                    assert(step.0 == connection@);
                    lemma_resent_stops(gathered, lost, i as int + 1, time);
                }
                return Err(e);
            },
        }
        i += 1;
    }
    proof {
        assert(lost.take(lost.len() as int) =~= lost);
    }
    match connection.process_outgoing(payload, delivery, ordering, None, time) {
        Ok(out) => {
            append_datagrams(&mut wire, out);
            Ok(wire)
        },
        Err(e) => Err(e),
    }
}

/// Once sending again has stopped on an error, it stays stopped.
proof fn lemma_resent_stops(
    connection: ConnectionView,
    lost: Seq<WaitingPacketView>,
    upto: int,
    time: u64,
)
    requires
        0 <= upto <= lost.len(),
        resent(connection, lost.take(upto), time).2 is Some,
    ensures
        resent(connection, lost, time) == resent(connection, lost.take(upto), time),
    decreases lost.len() - upto,
{
    if upto < lost.len() {
        assert(lost.take(upto + 1).drop_last() =~= lost.take(upto));
        lemma_resent_stops(connection, lost, upto + 1, time);
    } else {
        assert(lost.take(upto) =~= lost);
    }
}

impl Socket {
    /// Whether the socket is in a state that its operations keep it in.
    pub closed spec fn wf(&self) -> bool {
        self.connections.wf()
    }

    /// Decides whether a datagram is transmitted: the link conditioner
    /// decides if there is one, else it is.
    fn should_send_packet(&mut self) -> (r: bool)
        ensures
            match old(self)@.link_conditioner {
                Some(c) => r == c.permits() && final(self)@ == (SocketView {
                    link_conditioner: Some(c.stepped()),
                    ..old(self)@
                }),
                None => r && final(self)@ == old(self)@,
            },
            final(self).wf() == old(self).wf(),
    {
        if let Some(link_conditioner) = &mut self.link_conditioner {
            link_conditioner.should_send()
        } else {
            true
        }
    }

    fn gate(&mut self, wire: Vec<Vec<u8>>) -> (r: Vec<Vec<u8>>)
        ensures
            final(self).wf() == old(self).wf(),
            final(self)@ == (SocketView {
                link_conditioner: gated(old(self)@.link_conditioner, byte_views(wire@)).0,
                ..old(self)@
            }),
            byte_views(r@) == gated(old(self)@.link_conditioner, byte_views(wire@)).1,
    {
        let ghost all = byte_views(wire@);
        let ghost whole = wire@;
        let mut out: Vec<Vec<u8>> = Vec::new();
        proof {
            assert(all.take(0) =~= Seq::<Seq<u8>>::empty());
            assert(byte_views(out@) =~= Seq::<Seq<u8>>::empty());
        }
        for datagram in it: wire.into_iter()
            invariant
                it.seq() == whole,
                all == byte_views(whole),
                self.wf() == old(self).wf(),
                self@ == (SocketView {
                    link_conditioner: gated(
                        old(self)@.link_conditioner,
                        all.take(it.index() as int),
                    ).0,
                    ..old(self)@
                }),
                byte_views(out@) == gated(
                    old(self)@.link_conditioner,
                    all.take(it.index() as int),
                ).1,
        {
            proof {
                let i = it.index() as int;
                assert(all.take(i + 1).drop_last() =~= all.take(i));
                assert(all.take(i + 1).last() == datagram@);
            }
            let ghost before = out@;
            if self.should_send_packet() {
                out.push(datagram);
                assert(byte_views(out@) =~= byte_views(before).push(datagram@));
            }
        }
        proof {
            assert(all.take(all.len() as int) =~= all);
        }
        out
    }

    /// Turns a packet into the datagrams to transmit to its peer: those of
    /// the lost messages of the peer, which are sent again, and then its
    /// own, as far as the link conditioner lets them pass.
    pub fn send_to(&mut self, packet: Packet, time: u64) -> (r: Result<Transmission, ErrorKind>)
        requires
            old(self).wf(),
        ensures
            final(self).wf(),
            ({
                let step = send_one(
                    old(self)@.connections,
                    old(self)@.link_conditioner,
                    old(self)@.config,
                    packet@,
                    time,
                );
                &&& final(self)@ == (SocketView {
                    connections: step.0,
                    link_conditioner: step.1,
                    ..old(self)@
                })
                &&& match step.2 {
                    Ok(datagrams) => r matches Ok(t) && t@ == (TransmissionView {
                        addr: packet@.addr,
                        datagrams,
                    }),
                    Err(e) => r == Err::<Transmission, ErrorKind>(e),
                }
            }),
            final(self)@.connections.contains_key(packet@.addr),
            heard_since(old(self)@.connections, time) ==> heard_since(
                final(self)@.connections,
                time,
            ),
    {
        let (addr, payload, delivery, ordering) = packet.into_parts();
        let ghost table = self.connections@;
        proof {
            self.connections.lemma_entries();
        }
        let connection = self.connections.get_or_insert_connection(addr, &self.config, time);
        let composed = compose(connection, payload.as_slice(), delivery, ordering, time);
        match composed {
            Ok(wire) => {
                let datagrams = self.gate(wire);
                Ok(Transmission { addr, datagrams })
            },
            Err(e) => Err(e),
        }
    }

    /// Takes in a datagram that was received at `time` and appends to
    /// `events` the events that it gives rise to.
    ///
    /// It never puts a peer into the table.
    pub fn recv_from(&mut self, datagram: &Datagram, time: u64, events: &mut Vec<SocketEvent>) -> (r:
        Result<(), ErrorKind>)
        requires
            old(self).wf(),
        ensures
            final(self).wf(),
            ({
                let step = receive_one(
                    old(self)@.connections,
                    old(self)@.config,
                    datagram@,
                    time,
                );
                &&& final(self)@ == (SocketView { connections: step.0, ..old(self)@ })
                &&& event_views(final(events)@) == event_views(old(events)@) + step.1
                &&& match step.2 {
                    Some(e) => r == Err::<(), ErrorKind>(e),
                    None => r is Ok,
                }
            }),
            final(self)@.connections.dom() == old(self)@.connections.dom(),
            heard_since(old(self)@.connections, time) ==> heard_since(
                final(self)@.connections,
                time,
            ),
    {
        proof {
            assert(event_views(events@) + Seq::<SocketEventView>::empty() =~= event_views(events@));
            self.connections.lemma_entries();
        }
        if datagram.payload.len() == 0 {
            return Err(ErrorKind::ReceivedDataToShort);
        }
        let ghost table = self.connections@;
        let ghost addr = datagram.addr;
        let known = self.connections.contains(&datagram.addr);
        if !known {
            events.push(SocketEvent::Connect(datagram.addr));
            assert(event_views(events@) =~= event_views(old(events)@) + seq![
                SocketEventView::Connect(addr),
            ]);
        }
        let ghost connected = events@;
        proof {
            lemma_incoming_frame(
                connection_for(table, self.config, addr, time),
                datagram.payload@,
                time,
            );
        }
        let result = match self.connections.get_or_create_connection(
            datagram.addr,
            &self.config,
            time,
        ) {
            ConnectionLookup::Existing(existing) => existing.process_incoming(
                datagram.payload.as_slice(),
                events,
                time,
            ),
            ConnectionLookup::Anonymous(mut anonymous) => anonymous.process_incoming(
                datagram.payload.as_slice(),
                events,
                time,
            ),
        };
        proof {
            let step = receive_one(table, self.config, datagram@, time);
            match connection_for(table, self.config, addr, time).process_incoming(
                datagram.payload@,
                time,
            ) {
                Ok((st, packets)) => {
                    assert(event_views(events@) =~= event_views(old(events)@) + step.1);
                    if known {
                        assert(table.insert(addr, st).dom() =~= table.dom());
                    }
                },
                Err(e) => {
                    if known {
                        assert(table.insert(addr, table[addr]) =~= table);
                    }
                },
            }
        }
        result
    }

    /// Takes the peers that are idle at `time` out of the table, appends a
    /// timeout event for each to `events`, and returns them.
    pub fn handle_idle_clients(&mut self, time: u64, events: &mut Vec<SocketEvent>) -> (r: Vec<
        Address,
    >)
        requires
            old(self).wf(),
        ensures
            final(self).wf(),
            lists_idle(r@, old(self)@.connections, old(self)@.config.idle_connection_timeout, time),
            final(self)@ == (SocketView {
                connections: evicted(
                    old(self)@.connections,
                    old(self)@.config.idle_connection_timeout,
                    time,
                ),
                ..old(self)@
            }),
            event_views(final(events)@) == event_views(old(events)@) + timeouts(r@),
            heard_since(old(self)@.connections, time) ==> r@.len() == 0 && final(self)@.connections == old(self)@.connections,
    {
        let timeout = self.config.idle_connection_timeout;
        let idle_addresses = self.connections.idle_connections(timeout, time);
        let ghost table = self.connections@;
        let ghost idle = idle_addresses@;
        let mut i: usize = 0;
        proof {
            assert(idle.take(0) =~= Seq::<Address>::empty());
            assert(event_views(events@) =~= event_views(old(events)@) + timeouts(idle.take(0)));
        }
        while i < idle_addresses.len()
            invariant
                i <= idle_addresses@.len(),
                idle == idle_addresses@,
                self.connections.wf(),
                self.local == old(self).local,
                self.config == old(self).config,
                self.link_conditioner == old(self).link_conditioner,
                timeout == old(self).config.idle_connection_timeout,
                lists_idle(idle, table, timeout, time),
                forall|a: Address| #[trigger]
                    self.connections@.contains_key(a) <==> table.contains_key(a) && !idle.take(
                        i as int,
                    ).contains(a),
                forall|a: Address| #[trigger]
                    self.connections@.contains_key(a) ==> self.connections@[a] == table[a],
                event_views(events@) == event_views(old(events)@) + timeouts(idle.take(i as int)),
            decreases idle_addresses@.len() - i,
        {
            let address = idle_addresses[i];
            let ghost before = self.connections@;
            let ghost events_before = events@;
            assert(forall|a: Address| #[trigger]
                before.contains_key(a) <==> table.contains_key(a) && !idle.take(
                    i as int,
                ).contains(a));
            self.connections.remove_connection(&address);
            events.push(SocketEvent::Timeout(address));
            proof {
                assert(idle.take(i + 1) =~= idle.take(i as int).push(address));
                assert(event_views(events@) =~= event_views(events_before).push(
                    SocketEventView::Timeout(address),
                ));
                assert(timeouts(idle.take(i + 1)) =~= timeouts(idle.take(i as int)).push(
                    SocketEventView::Timeout(address),
                ));
                let shorter = idle.take(i as int);
                let longer = idle.take(i + 1);
                assert(longer =~= shorter.push(address));
                assert forall|a: Address|
                    self.connections@.contains_key(a) <==> table.contains_key(a)
                        && !longer.contains(a) by {
                    if longer.contains(a) && a != address {
                        let k = choose|k: int| 0 <= k < longer.len() && longer[k] == a;
                        assert(shorter[k] == a);
                        assert(shorter.contains(a));
                    }
                    if shorter.contains(a) {
                        let k = choose|k: int| 0 <= k < shorter.len() && shorter[k] == a;
                        assert(longer[k] == a);
                        assert(longer.contains(a));
                    }
                    if a == address {
                        assert(longer[i as int] == a);
                        assert(longer.contains(a));
                    }
                    assert(longer.contains(a) <==> shorter.contains(a) || a == address);
                    assert(before.contains_key(a) <==> table.contains_key(a) && !shorter.contains(
                        a,
                    ));
                    assert(self.connections@.contains_key(a) <==> before.contains_key(a) && a
                        != address);
                    assert(idle.contains(address)) by {
                        assert(idle[i as int] == address);
                    }
                    assert(table.contains_key(address));
                }
            }
            i += 1;
        }
        proof {
            assert(idle.take(idle.len() as int) =~= idle);
            assert forall|a: Address|
                self.connections@.contains_key(a) <==> evicted(
                    table,
                    timeout,
                    time,
                ).contains_key(a) by {
                assert(idle.contains(a) <==> idle_at(table, timeout, time, a));
                assert(self.connections@.contains_key(a) <==> table.contains_key(a)
                    && !idle.contains(a));
            }
            assert(self.connections@ =~= evicted(table, timeout, time));
            if heard_since(table, time) {
                if idle.len() > 0 {
                    assert(idle.contains(idle[0]));
                    assert(table.contains_key(idle[0]));
                }
                assert(evicted(table, timeout, time) =~= table);
            }
        }
        idle_addresses
    }
}

/// What one tick of a socket gave.
pub struct TickOutcome {
    /// The events for the application, in the order they arose.
    pub events: Vec<SocketEvent>,
    /// What to transmit, one entry for each submitted packet that did not
    /// fail, in the order the packets were submitted.
    pub transmissions: Vec<Transmission>,
    /// The errors of the datagrams that were refused, then those of the
    /// packets that failed.
    pub errors: Vec<ErrorKind>,
}

/// What one poll of a socket gave.
pub struct PollOutcome {
    /// What to transmit, one entry for each submitted packet that did not
    /// fail, in the order the packets were submitted.
    pub transmissions: Vec<Transmission>,
    /// The errors of the datagrams that were refused, then those of the
    /// packets that failed.
    pub errors: Vec<ErrorKind>,
    /// The events that the closed event channel did not take.
    pub undelivered: Vec<SocketEvent>,
}

/// Whether a tick at `time` on the received datagrams and the submitted
/// packets leads a socket from `pre` to `post` with the given events,
/// transmissions and errors.
///
/// The tick has three phases, in this order: every received datagram is
/// taken in; every submitted packet is sent; the peers that are idle by
/// then are evicted, with a timeout event for each, in some order.
pub open spec fn ticked(
    pre: SocketView,
    received: Seq<DatagramView>,
    submitted: Seq<PacketView>,
    time: u64,
    post: SocketView,
    events: Seq<SocketEventView>,
    transmissions: Seq<TransmissionView>,
    errors: Seq<ErrorKind>,
) -> bool {
    let taken = receive_all(pre.connections, pre.config, received, time);
    let sent = send_all(taken.0, pre.link_conditioner, pre.config, submitted, time);
    &&& post == (SocketView {
        connections: evicted(sent.0, pre.config.idle_connection_timeout, time),
        link_conditioner: sent.1,
        ..pre
    })
    &&& exists|idle: Seq<Address>|
        #![trigger timeouts(idle)]
        lists_idle(idle, sent.0, pre.config.idle_connection_timeout, time) && events == taken.1
            + timeouts(idle)
    &&& transmissions == sent.2
    &&& errors == taken.2 + sent.3
}

/// Whether a poll at `time` on the received datagrams leads a socket from
/// `pre` to `post` with the given transmissions and errors: whether it is a
/// tick on those datagrams and on some run of submitted packets.
pub open spec fn polled(
    pre: SocketView,
    received: Seq<DatagramView>,
    time: u64,
    post: SocketView,
    transmissions: Seq<TransmissionView>,
    errors: Seq<ErrorKind>,
) -> bool {
    exists|submitted: Seq<PacketView>, events: Seq<SocketEventView>| #[trigger]
        ticked(pre, received, submitted, time, post, events, transmissions, errors)
}

/// What submitting a packet gives, for what the channel of submitted
/// packets answered: success if it took the packet, else an error that
/// holds the packet it handed back.
pub fn submission(answer: Result<(), Packet>) -> (r: Result<(), ErrorKind>)
    ensures
        r == (match answer {
            Ok(()) => Ok::<(), ErrorKind>(()),
            Err(refused) => Err::<(), ErrorKind>(
                ErrorKind::SendError(SocketEvent::Packet(refused)),
            ),
        }),
{
    match answer {
        Ok(()) => Ok(()),
        Err(refused) => Err(ErrorKind::SendError(SocketEvent::Packet(refused))),
    }
}

/// The event that taking from the event channel gives, for what the
/// channel answered: the event if it held one, and none if it was empty,
/// with or without a sender left.
pub fn taken_event(answer: channel::Received<SocketEvent>) -> (r: Option<SocketEvent>)
    ensures
        r == (match answer {
            channel::Received::Message(event) => Some(event),
            channel::Received::Empty => None::<SocketEvent>,
            channel::Received::Disconnected => None::<SocketEvent>,
        }),
{
    match answer {
        channel::Received::Message(event) => Some(event),
        channel::Received::Empty => None,
        channel::Received::Disconnected => None,
    }
}

impl Socket {
    fn bind_internal(local: Address, config: Config) -> (r: Socket)
        ensures
            r.wf(),
            r@ == (SocketView {
                local,
                config,
                connections: Map::empty(),
                link_conditioner: None,
            }),
    {
        let (event_sender, event_receiver) = channel::unbounded();
        let (packet_sender, packet_receiver) = channel::unbounded();
        Socket {
            local,
            config,
            connections: ActiveConnections::new(),
            link_conditioner: None,
            event_sender,
            packet_receiver,
            sender: packet_sender,
            receiver: event_receiver,
        }
    }

    /// A socket for the endpoint that is bound to `address`, with the
    /// default configuration. It holds no connection and has no link
    /// conditioner.
    pub fn bind(address: Address) -> (r: Result<Socket, ErrorKind>)
        ensures
            r matches Ok(s) && s.wf() && s@ == (SocketView {
                local: address,
                config: Config::spec_default(),
                connections: Map::empty(),
                link_conditioner: None,
            }),
    {
        Socket::bind_with_config(address, Config::default())
    }

    /// A socket for an endpoint on the loopback address, with the default
    /// configuration. Its port is 0, which leaves the choice to the system.
    pub fn bind_any() -> (r: Result<Socket, ErrorKind>)
        ensures
            r matches Ok(s) && s.wf() && s@ == (SocketView {
                local: Address::V4 { ip: Address::spec_ipv4(127, 0, 0, 1), port: 0 },
                config: Config::spec_default(),
                connections: Map::empty(),
                link_conditioner: None,
            }),
    {
        Socket::bind_any_with_config(Config::default())
    }

    /// A socket for an endpoint on the loopback address, with the given
    /// configuration. Its port is 0, which leaves the choice to the system.
    pub fn bind_any_with_config(config: Config) -> (r: Result<Socket, ErrorKind>)
        ensures
            r matches Ok(s) && s.wf() && s@ == (SocketView {
                local: Address::V4 { ip: Address::spec_ipv4(127, 0, 0, 1), port: 0 },
                config,
                connections: Map::empty(),
                link_conditioner: None,
            }),
    {
        Ok(Socket::bind_internal(Address::loopback(0), config))
    }

    /// A socket for the endpoint that is bound to `address`, with the given
    /// configuration.
    pub fn bind_with_config(address: Address, config: Config) -> (r: Result<Socket, ErrorKind>)
        ensures
            r matches Ok(s) && s.wf() && s@ == (SocketView {
                local: address,
                config,
                connections: Map::empty(),
                link_conditioner: None,
            }),
    {
        Ok(Socket::bind_internal(address, config))
    }

    /// The address that the endpoint of this socket is bound to.
    pub fn local_addr(&self) -> (r: Address)
        ensures
            r == self@.local,
    {
        self.local
    }

    /// The configuration of this socket.
    pub fn config(&self) -> (r: Config)
        ensures
            r == self@.config,
    {
        self.config
    }

    /// A handle through which packets are submitted from any thread.
    pub fn get_packet_sender(&mut self) -> (r: crossbeam_channel::Sender<Packet>)
        ensures
            final(self)@ == old(self)@,
            final(self).wf() == old(self).wf(),
    {
        channel::clone_sender(&self.sender)
    }

    /// A handle through which events are taken from any thread.
    pub fn get_event_receiver(&mut self) -> (r: crossbeam_channel::Receiver<SocketEvent>)
        ensures
            final(self)@ == old(self)@,
            final(self).wf() == old(self).wf(),
    {
        channel::clone_receiver(&self.receiver)
    }

    /// Submits a packet: the next poll sends it. It fails only if the
    /// channel of submitted packets is closed, and then hands the packet
    /// back in the error.
    pub fn send(&mut self, packet: Packet) -> (r: Result<(), ErrorKind>)
        ensures
            final(self)@ == old(self)@,
            final(self).wf() == old(self).wf(),
            r matches Err(e) ==> e == ErrorKind::SendError(SocketEvent::Packet(packet)),
    {
        submission(channel::send(&self.sender, packet))
    }

    /// Takes the next event, if one is there. It does not wait.
    pub fn recv(&mut self) -> (r: Option<SocketEvent>)
        ensures
            final(self)@ == old(self)@,
            final(self).wf() == old(self).wf(),
    {
        taken_event(channel::try_recv(&self.receiver))
    }

    /// Sets or removes the link conditioner.
    pub fn set_link_conditioner(&mut self, link_conditioner: Option<LinkConditioner>)
        ensures
            final(self)@ == (SocketView { link_conditioner, ..old(self)@ }),
            final(self).wf() == old(self).wf(),
    {
        self.link_conditioner = link_conditioner;
    }

    /// How many connections the socket holds.
    pub fn connection_count(&self) -> (r: usize)
        requires
            self.wf(),
        ensures
            r == self@.connections.dom().len(),
            self@.connections.dom().finite(),
    {
        self.connections.count()
    }

    /// One tick at `time`: takes in the received datagrams, sends the
    /// submitted packets, and evicts the idle peers.
    pub fn tick(&mut self, received: Vec<Datagram>, submitted: Vec<Packet>, time: u64) -> (r:
        TickOutcome)
        requires
            old(self).wf(),
        ensures
            final(self).wf(),
            ticked(
                old(self)@,
                datagram_views(received@),
                packet_views(submitted@),
                time,
                final(self)@,
                event_views(r.events@),
                transmission_views(r.transmissions@),
                r.errors@,
            ),
            heard_since(old(self)@.connections, time) ==> heard_since(
                final(self)@.connections,
                time,
            ) && event_views(r.events@) == receive_all(
                old(self)@.connections,
                old(self)@.config,
                datagram_views(received@),
                time,
            ).1,
    {
        let mut events: Vec<SocketEvent> = Vec::new();
        let mut errors: Vec<ErrorKind> = Vec::new();
        let ghost pre = self@;
        let ghost inbound = datagram_views(received@);
        let mut i: usize = 0;
        proof {
            assert(inbound.take(0) =~= Seq::<DatagramView>::empty());
            assert(event_views(events@) =~= Seq::<SocketEventView>::empty());
        }
        while i < received.len()
            invariant
                i <= received@.len(),
                inbound == datagram_views(received@),
                self.wf(),
                self@ == (SocketView { connections: self@.connections, ..pre }),
                receive_all(pre.connections, pre.config, inbound.take(i as int), time) == (
                    self@.connections,
                    event_views(events@),
                    errors@,
                ),
                heard_since(pre.connections, time) ==> heard_since(self@.connections, time),
            decreases received@.len() - i,
        {
            proof {
                assert(inbound.take(i + 1).drop_last() =~= inbound.take(i as int));
                assert(inbound.take(i + 1).last() == received@[i as int]@);
            }
            match self.recv_from(&received[i], time, &mut events) {
                Ok(()) => {},
                Err(e) => {
                    errors.push(e);
                },
            }
            i += 1;
        }
        let ghost taken = receive_all(pre.connections, pre.config, inbound, time);
        proof {
            assert(inbound.take(inbound.len() as int) =~= inbound);
        }
        let mut transmissions: Vec<Transmission> = Vec::new();
        let mut failures: Vec<ErrorKind> = Vec::new();
        let ghost outbound = packet_views(submitted@);
        let ghost whole = submitted@;
        proof {
            assert(outbound.take(0) =~= Seq::<PacketView>::empty());
            assert(transmission_views(transmissions@) =~= Seq::<TransmissionView>::empty());
        }
        for packet in it: submitted.into_iter()
            invariant
                it.seq() == whole,
                outbound == packet_views(whole),
                self.wf(),
                self@ == (SocketView {
                    connections: self@.connections,
                    link_conditioner: self@.link_conditioner,
                    ..pre
                }),
                send_all(
                    taken.0,
                    pre.link_conditioner,
                    pre.config,
                    outbound.take(it.index() as int),
                    time,
                ) == (
                    self@.connections,
                    self@.link_conditioner,
                    transmission_views(transmissions@),
                    failures@,
                ),
                heard_since(pre.connections, time) ==> heard_since(self@.connections, time),
        {
            let ghost before = transmissions@;
            proof {
                let k = it.index() as int;
                assert(outbound.take(k + 1).drop_last() =~= outbound.take(k));
                assert(outbound.take(k + 1).last() == packet@);
            }
            match self.send_to(packet, time) {
                Ok(transmission) => {
                    transmissions.push(transmission);
                    assert(transmission_views(transmissions@) =~= transmission_views(before).push(
                        transmission@,
                    ));
                },
                Err(e) => {
                    failures.push(e);
                },
            }
        }
        let ghost sent = send_all(taken.0, pre.link_conditioner, pre.config, outbound, time);
        proof {
            assert(outbound.take(outbound.len() as int) =~= outbound);
        }
        let ghost taken_errors = errors@;
        let ghost sent_errors = failures@;
        errors.append(&mut failures);
        let ghost events_before = events@;
        let idle = self.handle_idle_clients(time, &mut events);
        proof {
            assert(errors@ =~= taken_errors + sent_errors);
            assert(lists_idle(idle@, sent.0, pre.config.idle_connection_timeout, time)
                && event_views(events@) == taken.1 + timeouts(idle@));
            if heard_since(pre.connections, time) {
                assert(timeouts(idle@) =~= Seq::<SocketEventView>::empty());
                assert(event_views(events@) =~= taken.1);
            }
        }
        TickOutcome { events, transmissions, errors }
    }

    /// One poll at `time`: a tick on the received datagrams and on the
    /// packets that were submitted and are there to take. The events go to
    /// the event channel; what is to be transmitted is returned.
    pub fn manual_poll(&mut self, received: Vec<Datagram>, time: u64) -> (r: PollOutcome)
        requires
            old(self).wf(),
        ensures
            final(self).wf(),
            polled(
                old(self)@,
                datagram_views(received@),
                time,
                final(self)@,
                transmission_views(r.transmissions@),
                r.errors@,
            ),
            heard_since(old(self)@.connections, time) ==> heard_since(
                final(self)@.connections,
                time,
            ),
    {
        let pending = channel::len(&self.packet_receiver);
        let mut submitted: Vec<Packet> = Vec::new();
        let mut taken: usize = 0;
        while taken < pending
            invariant
                self.wf() == old(self).wf(),
                self@ == old(self)@,
            decreases pending - taken,
        {
            match channel::try_recv(&self.packet_receiver) {
                channel::Received::Message(packet) => {
                    submitted.push(packet);
                },
                channel::Received::Empty => {
                    break ;
                },
                channel::Received::Disconnected => {
                    break ;
                },
            }
            taken += 1;
        }
        let ghost packets = packet_views(submitted@);
        let outcome = self.tick(received, submitted, time);
        let TickOutcome { events, transmissions, errors } = outcome;
        let ghost emitted = event_views(events@);
        let ghost post = self@;
        let mut undelivered: Vec<SocketEvent> = Vec::new();
        for event in it: events.into_iter()
            invariant
                self.wf(),
                self@ == post,
        {
            match channel::send(&self.event_sender, event) {
                Ok(()) => {},
                Err(refused) => {
                    undelivered.push(refused);
                },
            }
        }
        assert(ticked(
            old(self)@,
            datagram_views(received@),
            packets,
            time,
            self@,
            emitted,
            transmission_views(transmissions@),
            errors@,
        ));
        PollOutcome { transmissions, errors, undelivered }
    }
}

/// Taking datagrams in never puts a peer into the table, nor takes one
/// out: the table holds the same peers afterwards, whoever the datagrams
/// came from.
pub proof fn lemma_receive_never_inserts(
    table: Map<Address, ConnectionView>,
    config: Config,
    datagrams: Seq<DatagramView>,
    time: u64,
)
    ensures
        receive_all(table, config, datagrams, time).0.dom() == table.dom(),
        forall|d: DatagramView| #[trigger] receive_one(table, config, d, time).0.dom() == table.dom(),
    decreases datagrams.len(),
{
    assert forall|d: DatagramView| #[trigger]
        receive_one(table, config, d, time).0.dom() == table.dom() by {
        assert(receive_one(table, config, d, time).0.dom() =~= table.dom());
    }
    if datagrams.len() > 0 {
        lemma_receive_never_inserts(table, config, datagrams.drop_last(), time);
        let before = receive_all(table, config, datagrams.drop_last(), time);
        assert(receive_one(before.0, config, datagrams.last(), time).0.dom() =~= before.0.dom());
    }
}

/// The first datagram of a peer that the table does not hold gives its
/// connect event before anything else: the connect event comes first, and
/// all that follows are packets of that peer. A datagram of a peer that the
/// table holds gives packets of that peer only.
pub proof fn lemma_connect_comes_first(
    table: Map<Address, ConnectionView>,
    config: Config,
    datagram: DatagramView,
    time: u64,
)
    requires
        datagram.payload.len() > 0,
        table.contains_key(datagram.addr) ==> table[datagram.addr].addr == datagram.addr,
    ensures
        ({
            let events = receive_one(table, config, datagram, time).1;
            let first = if table.contains_key(datagram.addr) {
                0int
            } else {
                1int
            };
            &&& !table.contains_key(datagram.addr) ==> events.len() >= 1 && events[0]
                == SocketEventView::Connect(datagram.addr)
            &&& forall|k: int|
                first <= k < events.len() ==> ((#[trigger] events[k]) matches SocketEventView::Packet(
                    p,
                ) && p.addr == datagram.addr)
        }),
{
    lemma_incoming_frame(
        connection_for(table, config, datagram.addr, time),
        datagram.payload,
        time,
    );
}

/// A datagram that is refused changes no connection, of its own peer or of
/// any other, and gives no packet.
pub proof fn lemma_refused_changes_nothing(
    table: Map<Address, ConnectionView>,
    config: Config,
    datagram: DatagramView,
    time: u64,
)
    requires
        receive_one(table, config, datagram, time).2 is Some,
    ensures
        receive_one(table, config, datagram, time).0 == table,
        forall|k: int|
            0 <= k < receive_one(table, config, datagram, time).1.len() ==> !(
            #[trigger] receive_one(table, config, datagram, time).1[k] is Packet),
{
}

/// Whatever came before, every datagram is taken in: taking in a run of
/// datagrams is taking in its first part and then, from where that led,
/// the rest. No datagram stops the ones after it.
pub proof fn lemma_receive_goes_on(
    table: Map<Address, ConnectionView>,
    config: Config,
    first: Seq<DatagramView>,
    rest: Seq<DatagramView>,
    time: u64,
)
    ensures
        ({
            let a = receive_all(table, config, first, time);
            let b = receive_all(a.0, config, rest, time);
            receive_all(table, config, first + rest, time) == (b.0, a.1 + b.1, a.2 + b.2)
        }),
    decreases rest.len(),
{
    let a = receive_all(table, config, first, time);
    if rest.len() == 0 {
        assert(first + rest =~= first);
        assert(a.1 + Seq::<SocketEventView>::empty() =~= a.1);
        assert(a.2 + Seq::<ErrorKind>::empty() =~= a.2);
    } else {
        lemma_receive_goes_on(table, config, first, rest.drop_last(), time);
        assert((first + rest).drop_last() =~= first + rest.drop_last());
        assert((first + rest).last() == rest.last());
        let b0 = receive_all(a.0, config, rest.drop_last(), time);
        let step = receive_one(b0.0, config, rest.last(), time);
        assert((a.1 + b0.1) + step.1 =~= a.1 + (b0.1 + step.1));
        if let Some(e) = step.2 {
            assert((a.2 + b0.2).push(e) =~= a.2 + b0.2.push(e));
        }
    }
}

/// Sending the lost messages of a connection again never fails, and leaves
/// waiting whatever waited and whatever was sent again.
pub proof fn lemma_resent_waits(
    connection: ConnectionView,
    lost: Seq<WaitingPacketView>,
    time: u64,
)
    requires
        connection.wf(),
        forall|k: int| 0 <= k < lost.len() ==> sendable(connection.config)(#[trigger] lost[k]),
    ensures
        ({
            let again = resent(connection, lost, time);
            &&& again.2 is None
            &&& again.0.wf()
            &&& again.0.addr == connection.addr
            &&& again.0.config == connection.config
            &&& again.0.last_heard == connection.last_heard
            &&& forall|w: WaitingPacketView|
                connection.acknowledgment.waits_for(w) || lost.contains(w)
                    ==> #[trigger] again.0.acknowledgment.waits_for(w)
        }),
    decreases lost.len(),
{
    if lost.len() > 0 {
        let front = lost.drop_last();
        assert forall|k: int| 0 <= k < front.len() implies sendable(connection.config)(
            #[trigger] front[k],
        ) by {
            assert(front[k] == lost[k]);
        }
        lemma_resent_waits(connection, front, time);
        let before = resent(connection, front, time);
        let w = lost.last();
        assert(sendable(connection.config)(lost[lost.len() - 1]));
        lemma_resend_succeeds(before.0, w, time);
        lemma_sent_waits(before.0.acknowledgment, w);
        let again = resent(connection, lost, time);
        assert forall|v: WaitingPacketView|
            connection.acknowledgment.waits_for(v) || lost.contains(v)
                implies #[trigger] again.0.acknowledgment.waits_for(v) by {
            if !connection.acknowledgment.waits_for(v) {
                let k = choose|k: int| 0 <= k < lost.len() && lost[k] == v;
                if k < front.len() {
                    assert(front[k] == v);
                    assert(front.contains(v));
                }
            }
        }
    }
}

/// A reliable message, once sent, goes on waiting through every later
/// send to its peer: when it counts as lost it is sent again, with the
/// ordering and the number it was first sent with, and waits again.
/// Sending to a peer never lets go of a message that waits for its
/// acknowledgment.
pub proof fn lemma_waiting_survives_send(
    table: Map<Address, ConnectionView>,
    conditioner: Option<LinkConditioner>,
    config: Config,
    packet: PacketView,
    time: u64,
    w: WaitingPacketView,
)
    requires
        table.contains_key(packet.addr) ==> table[packet.addr].wf(),
        connection_for(table, config, packet.addr, time).acknowledgment.waits_for(w),
    ensures
        ({
            let after = send_one(table, conditioner, config, packet, time).0;
            &&& after.contains_key(packet.addr)
            &&& after[packet.addr].wf()
            &&& after[packet.addr].acknowledgment.waits_for(w)
            &&& forall|a: Address|
                a != packet.addr ==> (#[trigger] after.contains_key(a) <==> table.contains_key(a))
                    && (table.contains_key(a) ==> after[a] == table[a])
        }),
{
    let connection = connection_for(table, config, packet.addr, time);
    assert(connection.wf()) by {
        if !table.contains_key(packet.addr) {
            assert(connection.reassembling =~= Seq::empty());
        }
    }
    lemma_every_waiting(connection.acknowledgment, sendable(connection.config));
    lemma_lost_or_waiting(connection.acknowledgment, w);
    let lost = connection.acknowledgment.lost_packets();
    lemma_resent_waits(connection.gathered(), lost, time);
    let again = resent(connection.gathered(), lost, time);
    lemma_outgoing_keeps_waiting(
        again.0,
        packet.payload,
        packet.delivery,
        packet.ordering,
        None,
        time,
    );
}

/// Sending messages again leaves the peer, the configuration and the time
/// a connection was last heard as they are.
proof fn lemma_resent_frame(connection: ConnectionView, lost: Seq<WaitingPacketView>, time: u64)
    ensures
        resent(connection, lost, time).0.addr == connection.addr,
        resent(connection, lost, time).0.last_heard == connection.last_heard,
    decreases lost.len(),
{
    if lost.len() > 0 {
        lemma_resent_frame(connection, lost.drop_last(), time);
        let before = resent(connection, lost.drop_last(), time);
        lemma_outgoing_frame(
            before.0,
            lost.last().payload,
            DeliveryGuarantee::Reliable,
            lost.last().ordering_guarantee,
            lost.last().item_identifier,
            time,
        );
    }
}

proof fn lemma_receive_heard(
    table: Map<Address, ConnectionView>,
    config: Config,
    datagrams: Seq<DatagramView>,
    time: u64,
)
    requires
        heard_since(table, time),
    ensures
        heard_since(receive_all(table, config, datagrams, time).0, time),
        forall|k: int|
            0 <= k < receive_all(table, config, datagrams, time).1.len() ==> !(
            #[trigger] receive_all(table, config, datagrams, time).1[k] is Timeout),
    decreases datagrams.len(),
{
    if datagrams.len() > 0 {
        lemma_receive_heard(table, config, datagrams.drop_last(), time);
        let before = receive_all(table, config, datagrams.drop_last(), time);
        let d = datagrams.last();
        lemma_incoming_frame(connection_for(before.0, config, d.addr, time), d.payload, time);
    }
}

proof fn lemma_send_heard(
    table: Map<Address, ConnectionView>,
    conditioner: Option<LinkConditioner>,
    config: Config,
    packets: Seq<PacketView>,
    time: u64,
)
    requires
        heard_since(table, time),
    ensures
        heard_since(send_all(table, conditioner, config, packets, time).0, time),
    decreases packets.len(),
{
    if packets.len() > 0 {
        lemma_send_heard(table, conditioner, config, packets.drop_last(), time);
        let before = send_all(table, conditioner, config, packets.drop_last(), time);
        let p = packets.last();
        let connection = connection_for(before.0, config, p.addr, time);
        let again = resent(connection.gathered(), connection.acknowledgment.lost_packets(), time);
        lemma_resent_frame(connection.gathered(), connection.acknowledgment.lost_packets(), time);
        lemma_outgoing_frame(again.0, p.payload, p.delivery, p.ordering, None, time);
    }
}

/// Where time does not advance, nobody times out: if every peer of the
/// table was heard at the time of the tick or later, the tick evicts no
/// peer and gives no timeout event, and afterwards every peer of the table
/// was again heard at that time or later.
pub proof fn lemma_no_timeout_without_time_advance(
    pre: SocketView,
    received: Seq<DatagramView>,
    submitted: Seq<PacketView>,
    time: u64,
    post: SocketView,
    events: Seq<SocketEventView>,
    transmissions: Seq<TransmissionView>,
    errors: Seq<ErrorKind>,
)
    requires
        ticked(pre, received, submitted, time, post, events, transmissions, errors),
        heard_since(pre.connections, time),
    ensures
        forall|k: int| 0 <= k < events.len() ==> !(#[trigger] events[k] is Timeout),
        heard_since(post.connections, time),
        post.connections == send_all(
            receive_all(pre.connections, pre.config, received, time).0,
            pre.link_conditioner,
            pre.config,
            submitted,
            time,
        ).0,
{
    let taken = receive_all(pre.connections, pre.config, received, time);
    lemma_receive_heard(pre.connections, pre.config, received, time);
    let sent = send_all(taken.0, pre.link_conditioner, pre.config, submitted, time);
    lemma_send_heard(taken.0, pre.link_conditioner, pre.config, submitted, time);
    let timeout = pre.config.idle_connection_timeout;
    assert(evicted(sent.0, timeout, time) =~= sent.0);
    let idle = choose|idle: Seq<Address>|
        #![trigger timeouts(idle)]
        lists_idle(idle, sent.0, timeout, time) && events == taken.1 + timeouts(idle);
    if idle.len() > 0 {
        assert(idle.contains(idle[0]));
        assert(idle_at(sent.0, timeout, time, idle[0]));
    }
    assert(timeouts(idle) =~= Seq::<SocketEventView>::empty());
    assert(events =~= taken.1);
}

/// A lost message that goes out whole is on the wire again when the lost
/// messages are sent again: among the datagrams is a reliable one with the
/// payload, the ordering and the number in its stream that the message was
/// first sent with.
pub proof fn lemma_lost_goes_out_again(
    connection: ConnectionView,
    lost: Seq<WaitingPacketView>,
    time: u64,
    k: int,
)
    requires
        connection.wf(),
        forall|j: int| 0 <= j < lost.len() ==> sendable(connection.config)(#[trigger] lost[j]),
        0 <= k < lost.len(),
        lost[k].payload.len() <= connection.config.fragment_size,
    ensures
        exists|h: AckHeader| #[trigger]
            resent(connection, lost, time).1.contains(
                whole_frame(
                    DeliveryGuarantee::Reliable,
                    lost[k].ordering_guarantee,
                    Some(h),
                    lost[k].item_identifier,
                    lost[k].payload,
                ).encode(),
            ),
    decreases lost.len(),
{
    let front = lost.drop_last();
    assert forall|j: int| 0 <= j < front.len() implies sendable(connection.config)(
        #[trigger] front[j],
    ) by {
        assert(front[j] == lost[j]);
    }
    lemma_resent_waits(connection, front, time);
    let before = resent(connection, front, time);
    let w = lost.last();
    assert(sendable(connection.config)(lost[lost.len() - 1]));
    lemma_resend_succeeds(before.0, w, time);
    let again = resent(connection, lost, time);
    let out = before.0.process_outgoing(
        w.payload,
        DeliveryGuarantee::Reliable,
        w.ordering_guarantee,
        w.item_identifier,
        time,
    )->Ok_0.1;
    assert(again.1 == before.1 + out.datagrams());
    if k == lost.len() - 1 {
        let h = before.0.acknowledgment.header();
        let d = whole_frame(
            DeliveryGuarantee::Reliable,
            w.ordering_guarantee,
            Some(h),
            w.item_identifier,
            w.payload,
        ).encode();
        assert(out.datagrams()[0] == d);
        assert(again.1[before.1.len() as int] == d);
        assert(again.1.contains(d));
    } else {
        assert(front[k] == lost[k]);
        lemma_lost_goes_out_again(connection, front, time, k);
        let h = choose|h: AckHeader| #[trigger]
            before.1.contains(
                whole_frame(
                    DeliveryGuarantee::Reliable,
                    lost[k].ordering_guarantee,
                    Some(h),
                    lost[k].item_identifier,
                    lost[k].payload,
                ).encode(),
            );
        let d = whole_frame(
            DeliveryGuarantee::Reliable,
            lost[k].ordering_guarantee,
            Some(h),
            lost[k].item_identifier,
            lost[k].payload,
        ).encode();
        let at = choose|at: int| 0 <= at < before.1.len() && before.1[at] == d;
        assert(again.1[at] == d);
        assert(again.1.contains(d));
    }
}

/// Where there is no link conditioner, every datagram passes.
pub proof fn lemma_gated_without_conditioner(datagrams: Seq<Seq<u8>>)
    ensures
        gated(None, datagrams) == (None::<LinkConditioner>, datagrams),
    decreases datagrams.len(),
{
    if datagrams.len() > 0 {
        lemma_gated_without_conditioner(datagrams.drop_last());
        assert(datagrams.drop_last().push(datagrams.last()) =~= datagrams);
    } else {
        assert(datagrams =~= Seq::<Seq<u8>>::empty());
    }
}

/// An unordered packet that is sent whole and is not dropped on the way is
/// handed on by the socket of the peer exactly once, as it was sent: its
/// datagram is the last that the sender transmits for it, and taking that
/// datagram in gives one packet event with the payload and the guarantees
/// of the packet, after the connect event if the receiver does not hold the
/// sender.
pub proof fn lemma_packet_reaches_peer(
    sender_table: Map<Address, ConnectionView>,
    sender_config: Config,
    receiver_table: Map<Address, ConnectionView>,
    receiver_config: Config,
    packet: PacketView,
    from: Address,
    sent_at: u64,
    received_at: u64,
)
    requires
        packet.ordering is Unordered,
        sender_table.contains_key(packet.addr) ==> sender_table[packet.addr].wf(),
        send_one(sender_table, None, sender_config, packet, sent_at).2 is Ok,
        packet.delivery is Unreliable || packet.payload.len() <= connection_for(
            sender_table,
            sender_config,
            packet.addr,
            sent_at,
        ).config.fragment_size,
        receiver_table.contains_key(from) ==> receiver_table[from].addr == from,
    ensures
        ({
            let datagrams = send_one(sender_table, None, sender_config, packet, sent_at).2->Ok_0;
            let step = receive_one(
                receiver_table,
                receiver_config,
                DatagramView { addr: from, payload: datagrams.last() },
                received_at,
            );
            let connect = if receiver_table.contains_key(from) {
                Seq::<SocketEventView>::empty()
            } else {
                seq![SocketEventView::Connect(from)]
            };
            &&& datagrams.len() >= 1
            &&& step.2 is None
            &&& step.1 == connect + seq![
                SocketEventView::Packet(
                    PacketView {
                        addr: from,
                        payload: packet.payload,
                        delivery: packet.delivery,
                        ordering: packet.ordering,
                    },
                ),
            ]
        }),
{
    let connection = connection_for(sender_table, sender_config, packet.addr, sent_at);
    assert(connection.wf()) by {
        if !sender_table.contains_key(packet.addr) {
            assert(connection.reassembling =~= Seq::empty());
        }
    }
    lemma_every_waiting(connection.acknowledgment, sendable(connection.config));
    let lost = connection.acknowledgment.lost_packets();
    lemma_resent_waits(connection.gathered(), lost, sent_at);
    let again = resent(connection.gathered(), lost, sent_at);
    let receiver = connection_for(receiver_table, receiver_config, from, received_at);
    lemma_whole_message_round_trip(
        again.0,
        receiver,
        packet.payload,
        packet.delivery,
        packet.ordering,
        None,
        sent_at,
        received_at,
    );
    let out = again.0.process_outgoing(
        packet.payload,
        packet.delivery,
        packet.ordering,
        None,
        sent_at,
    )->Ok_0.1;
    let bytes = out->Packet_0;
    lemma_gated_without_conditioner(again.1 + out.datagrams());
    let datagrams = again.1 + out.datagrams();
    assert(datagrams.last() == bytes);
    let ack = if packet.delivery is Reliable {
        Some(again.0.acknowledgment.header())
    } else {
        None
    };
    let frame = whole_frame(
        packet.delivery,
        packet.ordering,
        ack,
        None,
        packet.payload,
    );
    lemma_header_len(frame);
    assert(bytes.len() > 0);
    let delivered = received_packet(from, packet.delivery, packet.ordering, packet.payload);
    assert(receiver.process_incoming(bytes, received_at) matches Ok((_, packets)) && packets
        == seq![delivered]);
    assert(packet_events(seq![delivered]) =~= seq![SocketEventView::Packet(delivered)]);
}

} // verus!
