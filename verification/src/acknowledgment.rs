//! Which reliable messages were sent and not yet acknowledged, and which
//! messages of the peer were received.
//!
//! Sequence numbers are sixteen bits wide and run round: the number after
//! 65535 is 0. A number counts as ahead of another if it lies at most half
//! the range further on.

use vstd::prelude::*;
use crate::packet::OrderingGuarantee;
use crate::wire::AckHeader;

verus! {

/// How many sequence numbers one acknowledgment header speaks of.
pub const ACK_WINDOW: u16 = 32;

/// Half the range of sequence numbers.
pub const HALF_RANGE: u16 = 32768;

/// A reliable message that waits for its acknowledgment.
#[derive(Clone, Debug, PartialEq, Eq)]
pub struct WaitingPacket {
    pub payload: Vec<u8>,
    pub ordering_guarantee: OrderingGuarantee,
    /// The number of the message in its stream, given when it was first sent.
    pub item_identifier: Option<u64>,
}

/// A waiting packet as a mathematical value.
pub struct WaitingPacketView {
    pub payload: Seq<u8>,
    pub ordering_guarantee: OrderingGuarantee,
    pub item_identifier: Option<u64>,
}

impl View for WaitingPacket {
    type V = WaitingPacketView;

    open spec fn view(&self) -> WaitingPacketView {
        WaitingPacketView {
            payload: self.payload@,
            ordering_guarantee: self.ordering_guarantee,
            item_identifier: self.item_identifier,
        }
    }
}

/// The views of a run of waiting packets, in order.
pub open spec fn waiting_views(packets: Seq<WaitingPacket>) -> Seq<WaitingPacketView> {
    packets.map_values(|p: WaitingPacket| p@)
}

/// A waiting packet with the sequence number it was last sent under.
pub struct InFlight {
    pub seq: u16,
    pub packet: WaitingPacket,
}

pub struct InFlightView {
    pub seq: u16,
    pub packet: WaitingPacketView,
}

impl View for InFlight {
    type V = InFlightView;

    open spec fn view(&self) -> InFlightView {
        InFlightView { seq: self.seq, packet: self.packet@ }
    }
}

pub open spec fn in_flight_views(entries: Seq<InFlight>) -> Seq<InFlightView> {
    entries.map_values(|e: InFlight| e@)
}

/// Whether bit `i` of an acknowledgment field is set.
pub open spec fn bit(field: u32, i: u32) -> bool {
    (field >> i) & 1 == 1
}

/// Whether an acknowledgment header that holds `ack_next` and `field`
/// acknowledges the sequence number `seq`.
pub open spec fn acknowledges(ack_next: u16, field: u32, seq: u16) -> bool {
    let back = ack_next.wrapping_sub(1).wrapping_sub(seq);
    back < ACK_WINDOW && bit(field, back as u32)
}

/// Whether the message sent under `seq` counts as lost: the peer has
/// acknowledged numbers so far ahead of it that no header speaks of it any
/// more.
pub open spec fn lost(remote_ack: Option<u16>, seq: u16) -> bool {
    match remote_ack {
        Some(a) => ACK_WINDOW < a.wrapping_sub(seq) <= HALF_RANGE,
        None => false,
    }
}

pub open spec fn is_unacknowledged(ack_next: u16, field: u32) -> spec_fn(InFlightView) -> bool {
    |e: InFlightView| !acknowledges(ack_next, field, e.seq)
}

pub open spec fn is_lost(remote_ack: Option<u16>) -> spec_fn(InFlightView) -> bool {
    |e: InFlightView| lost(remote_ack, e.seq)
}

pub open spec fn is_not_lost(remote_ack: Option<u16>) -> spec_fn(InFlightView) -> bool {
    |e: InFlightView| !lost(remote_ack, e.seq)
}

pub open spec fn packets_of(entries: Seq<InFlightView>) -> Seq<WaitingPacketView> {
    entries.map_values(|e: InFlightView| e.packet)
}

/// The newest acknowledgment of the peer, after a header that holds
/// `ack_next` and `field` has come in. A header that acknowledges nothing
/// changes nothing.
pub open spec fn newest_ack(remote_ack: Option<u16>, ack_next: u16, field: u32) -> Option<u16> {
    if field == 0 {
        remote_ack
    } else {
        match remote_ack {
            Some(a) => if 0 < ack_next.wrapping_sub(a) <= HALF_RANGE {
                Some(ack_next)
            } else {
                remote_ack
            },
            None => Some(ack_next),
        }
    }
}

/// The record of what was received, after `seq` has come in: one more than
/// the newest number, and the field of the numbers before it.
pub open spec fn record(next: u16, field: u32, seq: u16) -> (u16, u32) {
    let d = seq.wrapping_sub(next);
    if d < HALF_RANGE {
        (
            seq.wrapping_add(1),
            if d + 1 >= 32 {
                1u32
            } else {
                (field << ((d + 1) as u32)) | 1u32
            },
        )
    } else {
        let back = next.wrapping_sub(1).wrapping_sub(seq);
        (
            next,
            if back < ACK_WINDOW {
                field | (1u32 << (back as u32))
            } else {
                field
            },
        )
    }
}

/// The acknowledgment state of one connection.
pub struct AcknowledgmentHandler {
    next_seq: u16,
    in_flight: Vec<InFlight>,
    remote_ack: Option<u16>,
    received_next: u16,
    received_field: u32,
}

/// The acknowledgment state as a mathematical value.
#[verifier::ext_equal]
pub struct AcknowledgmentView {
    /// The sequence number the next reliable message is sent under.
    pub next_seq: u16,
    /// The messages that wait for their acknowledgment, oldest first.
    pub in_flight: Seq<InFlightView>,
    /// The newest `ack_next` of a header of the peer that acknowledged
    /// something.
    pub remote_ack: Option<u16>,
    /// One more than the newest sequence number received.
    pub received_next: u16,
    /// Bit `i` is set if `received_next - 1 - i` was received.
    pub received_field: u32,
}

impl AcknowledgmentView {
    pub open spec fn initial() -> AcknowledgmentView {
        AcknowledgmentView {
            next_seq: 0,
            in_flight: Seq::empty(),
            remote_ack: None,
            received_next: 0,
            received_field: 0,
        }
    }

    /// The header that the next reliable message carries.
    pub open spec fn header(self) -> AckHeader {
        AckHeader {
            seq: self.next_seq,
            ack_next: self.received_next,
            ack_field: self.received_field,
        }
    }

    /// The state after a message was sent under the next sequence number.
    pub open spec fn sent(self, packet: WaitingPacketView) -> AcknowledgmentView {
        AcknowledgmentView {
            next_seq: self.next_seq.wrapping_add(1),
            in_flight: self.in_flight.push(InFlightView { seq: self.next_seq, packet }),
            ..self
        }
    }

    /// The state after a header of the peer came in: what it acknowledges
    /// waits no longer.
    pub open spec fn acknowledged(self, ack_next: u16, field: u32) -> AcknowledgmentView {
        AcknowledgmentView {
            in_flight: self.in_flight.filter(is_unacknowledged(ack_next, field)),
            remote_ack: newest_ack(self.remote_ack, ack_next, field),
            ..self
        }
    }

    /// The state after the message with number `seq` was received.
    pub open spec fn received(self, seq: u16) -> AcknowledgmentView {
        AcknowledgmentView {
            received_next: record(self.received_next, self.received_field, seq).0,
            received_field: record(self.received_next, self.received_field, seq).1,
            ..self
        }
    }

    /// The waiting messages that count as lost, oldest first.
    pub open spec fn lost_packets(self) -> Seq<WaitingPacketView> {
        packets_of(self.in_flight.filter(is_lost(self.remote_ack)))
    }

    /// The state after the lost messages were taken out.
    pub open spec fn without_lost(self) -> AcknowledgmentView {
        AcknowledgmentView {
            in_flight: self.in_flight.filter(is_not_lost(self.remote_ack)),
            ..self
        }
    }

    /// Whether a message waits for its acknowledgment.
    pub open spec fn waits_for(self, packet: WaitingPacketView) -> bool {
        exists|i: int| 0 <= i < self.in_flight.len() && (#[trigger] self.in_flight[i]).packet == packet
    }
}

impl View for AcknowledgmentHandler {
    type V = AcknowledgmentView;

    closed spec fn view(&self) -> AcknowledgmentView {
        AcknowledgmentView {
            next_seq: self.next_seq,
            in_flight: in_flight_views(self.in_flight@),
            remote_ack: self.remote_ack,
            received_next: self.received_next,
            received_field: self.received_field,
        }
    }
}

proof fn lemma_views_take_next(whole: Seq<InFlight>, i: int)
    requires
        0 <= i < whole.len(),
    ensures
        in_flight_views(whole.take(i + 1)) == in_flight_views(whole.take(i)).push(whole[i]@),
        in_flight_views(whole.take(0)) == Seq::<InFlightView>::empty(),
        in_flight_views(whole.take(whole.len() as int)) == in_flight_views(whole),
{
    assert(whole.take(i + 1) =~= whole.take(i).push(whole[i]));
    assert(in_flight_views(whole.take(i + 1)) =~= in_flight_views(whole.take(i)).push(whole[i]@));
    assert(in_flight_views(whole.take(0)) =~= Seq::<InFlightView>::empty());
    assert(whole.take(whole.len() as int) =~= whole);
}

impl AcknowledgmentHandler {
    pub fn new() -> (r: AcknowledgmentHandler)
        ensures
            r@ == AcknowledgmentView::initial(),
    {
        let r = AcknowledgmentHandler {
            next_seq: 0,
            in_flight: Vec::new(),
            remote_ack: None,
            received_next: 0,
            received_field: 0,
        };
        assert(r@.in_flight =~= Seq::<InFlightView>::empty());
        r
    }

    /// How many messages wait for their acknowledgment.
    pub fn in_flight_len(&self) -> (r: usize)
        ensures
            r == self@.in_flight.len(),
    {
        self.in_flight.len()
    }

    /// The header that the next reliable message carries.
    pub fn header(&self) -> (r: AckHeader)
        ensures
            r == self@.header(),
    {
        AckHeader {
            seq: self.next_seq,
            ack_next: self.received_next,
            ack_field: self.received_field,
        }
    }

    /// Notes that a message goes out under the next sequence number.
    pub fn process_outgoing(&mut self, packet: WaitingPacket)
        ensures
            final(self)@ == old(self)@.sent(packet@),
    {
        let seq = self.next_seq;
        self.in_flight.push(InFlight { seq, packet });
        self.next_seq = seq.wrapping_add(1);
        assert(self@.in_flight =~= old(self)@.in_flight.push(InFlightView { seq, packet: packet@ }));
    }

    /// Takes in what a header of the peer acknowledges.
    pub fn process_acknowledgment(&mut self, ack_next: u16, field: u32)
        ensures
            final(self)@ == old(self)@.acknowledged(ack_next, field),
    {
        let mut all: Vec<InFlight> = Vec::new();
        core::mem::swap(&mut self.in_flight, &mut all);
        let ghost whole = all@;
        proof {
            if whole.len() > 0 {
                lemma_views_take_next(whole, 0);
            } else {
                assert(in_flight_views(whole.take(0)) =~= Seq::<InFlightView>::empty());
            }
        }
        for entry in it: all.into_iter()
            invariant
                it.seq() == whole,
                self.next_seq == old(self).next_seq,
                self.remote_ack == old(self).remote_ack,
                self.received_next == old(self).received_next,
                self.received_field == old(self).received_field,
                in_flight_views(self.in_flight@) == in_flight_views(
                    whole.take(it.index() as int),
                ).filter(is_unacknowledged(ack_next, field)),
        {
            proof {
                let i = it.index() as int;
                lemma_views_take_next(whole, i);
                in_flight_views(whole.take(i)).lemma_filter_push(
                    whole[i]@,
                    is_unacknowledged(ack_next, field),
                );
            }
            let ghost before = self.in_flight@;
            if !covers(ack_next, field, entry.seq) {
                self.in_flight.push(entry);
                assert(in_flight_views(self.in_flight@) =~= in_flight_views(before).push(entry@));
            }
        }
        proof {
            assert(whole.take(whole.len() as int) =~= whole);
        }
        self.remote_ack = newer_ack(self.remote_ack, ack_next, field);
    }

    /// Notes that the message with number `seq` was received.
    pub fn process_incoming(&mut self, seq: u16)
        ensures
            final(self)@ == old(self)@.received(seq),
    {
        let d = seq.wrapping_sub(self.received_next);
        if d < HALF_RANGE {
            let shift: u32 = d as u32 + 1;
            self.received_field = if shift >= 32 {
                1
            } else {
                (self.received_field << shift) | 1
            };
            self.received_next = seq.wrapping_add(1);
        } else {
            let back = self.received_next.wrapping_sub(1).wrapping_sub(seq);
            if back < ACK_WINDOW {
                self.received_field = self.received_field | (1u32 << (back as u32));
            }
        }
    }

    /// Takes the messages that count as lost out of the waiting ones and
    /// returns them, oldest first.
    pub fn dropped_packets(&mut self) -> (r: Vec<WaitingPacket>)
        ensures
            waiting_views(r@) == old(self)@.lost_packets(),
            final(self)@ == old(self)@.without_lost(),
    {
        let mut all: Vec<InFlight> = Vec::new();
        core::mem::swap(&mut self.in_flight, &mut all);
        let mut out: Vec<WaitingPacket> = Vec::new();
        let ghost whole = all@;
        let ghost remote = self.remote_ack;
        proof {
            if whole.len() > 0 {
                lemma_views_take_next(whole, 0);
            } else {
                assert(in_flight_views(whole.take(0)) =~= Seq::<InFlightView>::empty());
            }
            assert(waiting_views(out@) =~= packets_of(
                Seq::<InFlightView>::empty().filter(is_lost(remote)),
            ));
        }
        for entry in it: all.into_iter()
            invariant
                it.seq() == whole,
                remote == old(self).remote_ack,
                self.next_seq == old(self).next_seq,
                self.remote_ack == old(self).remote_ack,
                self.received_next == old(self).received_next,
                self.received_field == old(self).received_field,
                in_flight_views(self.in_flight@) == in_flight_views(
                    whole.take(it.index() as int),
                ).filter(is_not_lost(remote)),
                waiting_views(out@) == packets_of(
                    in_flight_views(whole.take(it.index() as int)).filter(is_lost(remote)),
                ),
        {
            proof {
                let i = it.index() as int;
                lemma_views_take_next(whole, i);
                in_flight_views(whole.take(i)).lemma_filter_push(whole[i]@, is_not_lost(remote));
                in_flight_views(whole.take(i)).lemma_filter_push(whole[i]@, is_lost(remote));
            }
            let ghost before = self.in_flight@;
            let ghost out_before = out@;
            let ghost lost_before = in_flight_views(whole.take(it.index() as int)).filter(
                is_lost(remote),
            );
            if counts_as_lost(self.remote_ack, entry.seq) {
                out.push(entry.packet);
                assert(waiting_views(out@) =~= waiting_views(out_before).push(entry@.packet));
                assert(packets_of(lost_before.push(entry@)) =~= packets_of(lost_before).push(
                    entry@.packet,
                ));
            } else {
                self.in_flight.push(entry);
                assert(in_flight_views(self.in_flight@) =~= in_flight_views(before).push(entry@));
            }
        }
        proof {
            assert(whole.take(whole.len() as int) =~= whole);
        }
        out
    }
}

fn covers(ack_next: u16, field: u32, seq: u16) -> (r: bool)
    ensures
        r == acknowledges(ack_next, field, seq),
{
    let back = ack_next.wrapping_sub(1).wrapping_sub(seq);
    back < ACK_WINDOW && (field >> (back as u32)) & 1 == 1
}

fn counts_as_lost(remote_ack: Option<u16>, seq: u16) -> (r: bool)
    ensures
        r == lost(remote_ack, seq),
{
    match remote_ack {
        Some(a) => {
            let d = a.wrapping_sub(seq);
            ACK_WINDOW < d && d <= HALF_RANGE
        },
        None => false,
    }
}

fn newer_ack(remote_ack: Option<u16>, ack_next: u16, field: u32) -> (r: Option<u16>)
    ensures
        r == newest_ack(remote_ack, ack_next, field),
{
    if field == 0 {
        remote_ack
    } else {
        match remote_ack {
            Some(a) => {
                let d = ack_next.wrapping_sub(a);
                if 0 < d && d <= HALF_RANGE {
                    Some(ack_next)
                } else {
                    remote_ack
                }
            },
            None => Some(ack_next),
        }
    }
}

/// Whether every waiting message has the property `p`.
pub open spec fn every_waiting(a: AcknowledgmentView, p: spec_fn(WaitingPacketView) -> bool) -> bool {
    forall|i: int| 0 <= i < a.in_flight.len() ==> p(#[trigger] a.in_flight[i].packet)
}

proof fn lemma_filtered(s: Seq<InFlightView>, pred: spec_fn(InFlightView) -> bool)
    ensures
        forall|i: int|
            0 <= i < s.filter(pred).len() ==> pred(#[trigger] s.filter(pred)[i]) && s.contains(
                s.filter(pred)[i],
            ),
        forall|j: int| 0 <= j < s.len() && pred(s[j]) ==> s.filter(pred).contains(#[trigger] s[j]),
    decreases s.len(),
{
    reveal(Seq::filter);
    let out = s.filter(pred);
    if s.len() > 0 {
        let front = s.drop_last();
        lemma_filtered(front, pred);
        assert forall|i: int| 0 <= i < out.len() implies pred(#[trigger] out[i]) && s.contains(
            out[i],
        ) by {
            if i < front.filter(pred).len() {
                assert(out[i] == front.filter(pred)[i]);
                assert(front.contains(out[i]));
                let k = choose|k: int| 0 <= k < front.len() && front[k] == out[i];
                assert(s[k] == out[i]);
            } else {
                assert(out[i] == s.last());
                assert(s[s.len() - 1] == out[i]);
            }
        }
        assert forall|j: int| 0 <= j < s.len() && pred(s[j]) implies out.contains(
            #[trigger] s[j],
        ) by {
            if j < front.len() {
                assert(front[j] == s[j]);
                assert(front.filter(pred).contains(front[j]));
                let k = choose|k: int|
                    0 <= k < front.filter(pred).len() && front.filter(pred)[k] == front[j];
                assert(out[k] == s[j]);
            } else {
                assert(out[out.len() - 1] == s[j]);
            }
        }
    }
}

/// A message that is sent waits from then on, and so does every message
/// that waited before.
pub proof fn lemma_sent_waits(a: AcknowledgmentView, packet: WaitingPacketView)
    ensures
        a.sent(packet).waits_for(packet),
        forall|w: WaitingPacketView| a.waits_for(w) ==> #[trigger] a.sent(packet).waits_for(w),
{
    let after = a.sent(packet);
    assert(after.in_flight[a.in_flight.len() as int].packet == packet);
    assert forall|w: WaitingPacketView| a.waits_for(w) implies #[trigger] after.waits_for(w) by {
        let i = choose|i: int| 0 <= i < a.in_flight.len() && (#[trigger] a.in_flight[i]).packet == w;
        assert(after.in_flight[i].packet == w);
    }
}

/// A header of the peer takes out of the waiting messages only those whose
/// sequence numbers it acknowledges.
pub proof fn lemma_acknowledged_keeps(a: AcknowledgmentView, ack_next: u16, field: u32, i: int)
    requires
        0 <= i < a.in_flight.len(),
        !acknowledges(ack_next, field, a.in_flight[i].seq),
    ensures
        a.acknowledged(ack_next, field).waits_for(a.in_flight[i].packet),
{
    lemma_filtered(a.in_flight, is_unacknowledged(ack_next, field));
    let kept = a.in_flight.filter(is_unacknowledged(ack_next, field));
    assert(kept.contains(a.in_flight[i]));
    let k = choose|k: int| 0 <= k < kept.len() && kept[k] == a.in_flight[i];
    assert(a.acknowledged(ack_next, field).in_flight[k].packet == a.in_flight[i].packet);
}

/// Receiving a message of the peer leaves the waiting messages as they are.
pub proof fn lemma_received_keeps(a: AcknowledgmentView, seq: u16)
    ensures
        a.received(seq).in_flight == a.in_flight,
{
}

/// Gathering loses nothing: a message that waits either goes on waiting or
/// is among those given out as lost.
pub proof fn lemma_lost_or_waiting(a: AcknowledgmentView, w: WaitingPacketView)
    requires
        a.waits_for(w),
    ensures
        a.without_lost().waits_for(w) || a.lost_packets().contains(w),
{
    let i = choose|i: int| 0 <= i < a.in_flight.len() && (#[trigger] a.in_flight[i]).packet == w;
    lemma_filtered(a.in_flight, is_lost(a.remote_ack));
    lemma_filtered(a.in_flight, is_not_lost(a.remote_ack));
    if lost(a.remote_ack, a.in_flight[i].seq) {
        let out = a.in_flight.filter(is_lost(a.remote_ack));
        assert(out.contains(a.in_flight[i]));
        let k = choose|k: int| 0 <= k < out.len() && out[k] == a.in_flight[i];
        assert(packets_of(out)[k] == w);
    } else {
        let kept = a.in_flight.filter(is_not_lost(a.remote_ack));
        assert(kept.contains(a.in_flight[i]));
        let k = choose|k: int| 0 <= k < kept.len() && kept[k] == a.in_flight[i];
        assert(a.without_lost().in_flight[k].packet == w);
    }
}

/// Gathering twice with nothing come in between gives nothing the second
/// time.
pub proof fn lemma_gather_idempotent(a: AcknowledgmentView)
    ensures
        a.without_lost().lost_packets() == Seq::<WaitingPacketView>::empty(),
        a.without_lost().without_lost() == a.without_lost(),
{
    let kept = a.in_flight.filter(is_not_lost(a.remote_ack));
    lemma_filtered(a.in_flight, is_not_lost(a.remote_ack));
    lemma_none_pass(kept, is_lost(a.remote_ack));
    lemma_all_pass(kept, is_not_lost(a.remote_ack));
    assert(a.without_lost().lost_packets() =~= Seq::<WaitingPacketView>::empty());
}

proof fn lemma_none_pass(s: Seq<InFlightView>, pred: spec_fn(InFlightView) -> bool)
    requires
        forall|i: int| 0 <= i < s.len() ==> !pred(#[trigger] s[i]),
    ensures
        s.filter(pred) == Seq::<InFlightView>::empty(),
    decreases s.len(),
{
    reveal(Seq::filter);
    if s.len() > 0 {
        let front = s.drop_last();
        assert forall|i: int| 0 <= i < front.len() implies !pred(#[trigger] front[i]) by {
            assert(front[i] == s[i]);
        }
        lemma_none_pass(front, pred);
        assert(!pred(s[s.len() - 1]));
    }
    assert(s.filter(pred) =~= Seq::<InFlightView>::empty());
}

proof fn lemma_all_pass(s: Seq<InFlightView>, pred: spec_fn(InFlightView) -> bool)
    requires
        forall|i: int| 0 <= i < s.len() ==> pred(#[trigger] s[i]),
    ensures
        s.filter(pred) == s,
    decreases s.len(),
{
    reveal(Seq::filter);
    if s.len() > 0 {
        let front = s.drop_last();
        assert forall|i: int| 0 <= i < front.len() implies pred(#[trigger] front[i]) by {
            assert(front[i] == s[i]);
        }
        lemma_all_pass(front, pred);
        assert(pred(s[s.len() - 1]));
        assert(front.push(s.last()) =~= s);
    }
    assert(s.filter(pred) =~= s);
}

/// What holds of every waiting message goes on holding when a message with
/// that property is sent, when a header of the peer comes in, when a
/// message of the peer is received and when the lost messages are taken
/// out; and it holds of the lost messages.
pub proof fn lemma_every_waiting(a: AcknowledgmentView, p: spec_fn(WaitingPacketView) -> bool)
    requires
        every_waiting(a, p),
    ensures
        forall|w: WaitingPacketView| p(w) ==> every_waiting(#[trigger] a.sent(w), p),
        forall|ack_next: u16, field: u32|
            every_waiting(#[trigger] a.acknowledged(ack_next, field), p),
        forall|seq: u16| every_waiting(#[trigger] a.received(seq), p),
        every_waiting(a.without_lost(), p),
        forall|k: int| 0 <= k < a.lost_packets().len() ==> p(#[trigger] a.lost_packets()[k]),
{
    assert forall|ack_next: u16, field: u32|
        every_waiting(#[trigger] a.acknowledged(ack_next, field), p) by {
        lemma_filtered(a.in_flight, is_unacknowledged(ack_next, field));
        let kept = a.in_flight.filter(is_unacknowledged(ack_next, field));
        assert forall|i: int| 0 <= i < kept.len() implies p(#[trigger] kept[i].packet) by {
            assert(a.in_flight.contains(kept[i]));
            let j = choose|j: int| 0 <= j < a.in_flight.len() && a.in_flight[j] == kept[i];
            assert(p(a.in_flight[j].packet));
        }
    }
    lemma_filtered(a.in_flight, is_not_lost(a.remote_ack));
    lemma_filtered(a.in_flight, is_lost(a.remote_ack));
    let kept = a.in_flight.filter(is_not_lost(a.remote_ack));
    assert forall|i: int| 0 <= i < kept.len() implies p(#[trigger] kept[i].packet) by {
        assert(a.in_flight.contains(kept[i]));
        let j = choose|j: int| 0 <= j < a.in_flight.len() && a.in_flight[j] == kept[i];
        assert(p(a.in_flight[j].packet));
    }
    let out = a.in_flight.filter(is_lost(a.remote_ack));
    assert forall|k: int| 0 <= k < a.lost_packets().len() implies p(
        #[trigger] a.lost_packets()[k],
    ) by {
        assert(a.lost_packets()[k] == out[k].packet);
        assert(a.in_flight.contains(out[k]));
        let j = choose|j: int| 0 <= j < a.in_flight.len() && a.in_flight[j] == out[k];
        assert(p(a.in_flight[j].packet));
    }
}

/// A message that was received is acknowledged by the next header, as long
/// as it is among the newest that a header speaks of.
pub proof fn lemma_received_is_acknowledged(next: u16, field: u32, seq: u16)
    requires
        seq.wrapping_sub(next) < HALF_RANGE || next.wrapping_sub(1).wrapping_sub(seq) < ACK_WINDOW,
    ensures
        acknowledges(record(next, field, seq).0, record(next, field, seq).1, seq),
{
    let d = seq.wrapping_sub(next);
    if d < HALF_RANGE {
        let shift = (d + 1) as u32;
        if d + 1 < 32 {
            assert(((field << shift) | 1u32) >> 0u32 & 1 == 1) by (bit_vector);
        } else {
            assert((1u32 >> 0u32) & 1 == 1) by (bit_vector);
        }
    } else {
        let back = next.wrapping_sub(1).wrapping_sub(seq);
        let b = back as u32;
        assert((field | (1u32 << b)) >> b & 1 == 1) by (bit_vector)
            requires
                b < 32,
        ;
    }
}

} // verus!
