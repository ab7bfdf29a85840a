//! The layout of a datagram on the wire.
//!
//! A datagram is a standard header, then a fragment header if it carries a
//! fragment, then an acknowledgment header if it is reliable and leads its
//! message, then an arranging header if its message is sequenced or ordered,
//! then the payload. Integers are written most significant byte first.

use vstd::prelude::*;
use vstd::slice::{slice_subrange, slice_to_vec};
use crate::error::ErrorKind;
use crate::packet::{DeliveryGuarantee, OrderingGuarantee, DEFAULT_STREAM};

verus! {

/// The version of the layout; a datagram that names another is refused.
pub const PROTOCOL_VERSION: u16 = 0x4c32;

/// Bytes in the header that every datagram starts with.
pub const STANDARD_HEADER_SIZE: usize = 5;

/// Bytes in the header that carries acknowledgments.
pub const ACKED_PACKET_HEADER: usize = 8;

/// Bytes in the header that places a fragment in its message.
pub const FRAGMENT_HEADER_SIZE: usize = 4;

/// Bytes in the header that places a message in its stream.
pub const ARRANGING_HEADER_SIZE: usize = 9;

/// What a reliable datagram says about the messages of both directions.
#[derive(Clone, Copy, Debug, PartialEq, Eq)]
pub struct AckHeader {
    /// The sequence number of the message this datagram belongs to.
    pub seq: u16,
    /// One more than the newest sequence number received from the peer.
    pub ack_next: u16,
    /// Bit `i` is set if the sequence number `ack_next - 1 - i` was received.
    pub ack_field: u32,
}

/// Where a fragment stands in its message.
#[derive(Clone, Copy, Debug, PartialEq, Eq)]
pub struct FragmentHeader {
    /// The sequence number of the message.
    pub seq: u16,
    /// The place of this fragment, counted from zero.
    pub index: u8,
    /// How many fragments the message has.
    pub total: u8,
}

/// A datagram taken apart.
#[derive(Clone, Debug, PartialEq, Eq)]
pub struct Frame {
    pub delivery: DeliveryGuarantee,
    pub ordering: OrderingGuarantee,
    pub fragment: Option<FragmentHeader>,
    pub ack: Option<AckHeader>,
    /// The number of the message in its stream.
    pub arranging: Option<u64>,
    pub payload: Vec<u8>,
}

/// A frame as a mathematical value.
pub struct FrameView {
    pub delivery: DeliveryGuarantee,
    pub ordering: OrderingGuarantee,
    pub fragment: Option<FragmentHeader>,
    pub ack: Option<AckHeader>,
    pub arranging: Option<u64>,
    pub payload: Seq<u8>,
}

impl View for Frame {
    type V = FrameView;

    open spec fn view(&self) -> FrameView {
        FrameView {
            delivery: self.delivery,
            ordering: self.ordering,
            fragment: self.fragment,
            ack: self.ack,
            arranging: self.arranging,
            payload: self.payload@,
        }
    }
}

#[verifier::opaque]
pub open spec fn u16_from(hi: u8, lo: u8) -> u16 {
    (hi * 256 + lo) as u16
}

#[verifier::opaque]
pub open spec fn u16_bytes(x: u16) -> Seq<u8> {
    seq![(x / 256) as u8, (x % 256) as u8]
}

#[verifier::opaque]
pub open spec fn u32_from(b: Seq<u8>) -> u32 {
    (u16_from(b[0], b[1]) * 65536 + u16_from(b[2], b[3])) as u32
}

#[verifier::opaque]
pub open spec fn u32_bytes(x: u32) -> Seq<u8> {
    u16_bytes((x / 65536) as u16) + u16_bytes((x % 65536) as u16)
}

#[verifier::opaque]
pub open spec fn u64_from(b: Seq<u8>) -> u64 {
    (u32_from(b.subrange(0, 4)) * 4294967296 + u32_from(b.subrange(4, 8))) as u64
}

#[verifier::opaque]
pub open spec fn u64_bytes(x: u64) -> Seq<u8> {
    u32_bytes((x / 4294967296) as u32) + u32_bytes((x % 4294967296) as u32)
}

/// The byte that stands for an ordering guarantee in the standard header.
pub open spec fn ordering_byte(ordering: OrderingGuarantee) -> u8 {
    match ordering {
        OrderingGuarantee::Unordered => 0,
        OrderingGuarantee::Sequenced(None) => 1,
        OrderingGuarantee::Sequenced(Some(_)) => 2,
        OrderingGuarantee::Ordered(None) => 3,
        OrderingGuarantee::Ordered(Some(_)) => 4,
    }
}

/// The ordering guarantee that a byte of the standard header, with the
/// stream that the arranging header names, stands for.
pub open spec fn ordering_from(byte: u8, stream: u8) -> OrderingGuarantee {
    if byte == 1 {
        OrderingGuarantee::Sequenced(None)
    } else if byte == 2 {
        OrderingGuarantee::Sequenced(Some(stream))
    } else if byte == 3 {
        OrderingGuarantee::Ordered(None)
    } else if byte == 4 {
        OrderingGuarantee::Ordered(Some(stream))
    } else {
        OrderingGuarantee::Unordered
    }
}

pub open spec fn fragment_bytes(fragment: Option<FragmentHeader>) -> Seq<u8> {
    match fragment {
        Some(h) => u16_bytes(h.seq) + seq![h.index, h.total],
        None => Seq::empty(),
    }
}

pub open spec fn ack_bytes(ack: Option<AckHeader>) -> Seq<u8> {
    match ack {
        Some(h) => u16_bytes(h.seq) + u16_bytes(h.ack_next) + u32_bytes(h.ack_field),
        None => Seq::empty(),
    }
}

pub open spec fn arranging_bytes(ordering: OrderingGuarantee, arranging: Option<u64>) -> Seq<u8> {
    match arranging {
        Some(id) => seq![
            match ordering.spec_stream() {
                Some(s) => s,
                None => DEFAULT_STREAM,
            },
        ] + u64_bytes(id),
        None => Seq::empty(),
    }
}

impl FrameView {
    /// Whether this frame is the first or only datagram of its message.
    pub open spec fn leads(self) -> bool {
        match self.fragment {
            Some(h) => h.index == 0,
            None => true,
        }
    }

    /// Whether the headers that the frame holds are those that its kind asks
    /// for: the frames that a sender writes.
    pub open spec fn well_formed(self) -> bool {
        &&& self.delivery is Unreliable ==> self.fragment is None && !(self.ordering is Ordered)
        &&& self.fragment matches Some(h) ==> h.index < h.total && (h.index > 0
            ==> self.ordering is Unordered)
        &&& self.ack is Some <==> self.delivery is Reliable && self.leads()
        &&& self.arranging is Some <==> !(self.ordering is Unordered)
    }

    pub open spec fn standard_bytes(self) -> Seq<u8> {
        u16_bytes(PROTOCOL_VERSION) + seq![
            if self.fragment is Some { 1u8 } else { 0u8 },
            if self.delivery is Reliable { 1u8 } else { 0u8 },
            ordering_byte(self.ordering),
        ]
    }

    /// The bytes of the headers.
    pub open spec fn header_bytes(self) -> Seq<u8> {
        self.standard_bytes() + fragment_bytes(self.fragment) + ack_bytes(self.ack)
            + arranging_bytes(self.ordering, self.arranging)
    }

    /// The datagram that carries this frame.
    pub open spec fn encode(self) -> Seq<u8> {
        self.header_bytes() + self.payload
    }

    /// How many bytes of headers the frame has.
    pub open spec fn header_len(self) -> nat {
        (STANDARD_HEADER_SIZE + (if self.fragment is Some { FRAGMENT_HEADER_SIZE } else { 0 }) + (
        if self.ack is Some { ACKED_PACKET_HEADER } else { 0 }) + (if self.arranging is Some {
            ARRANGING_HEADER_SIZE
        } else {
            0
        })) as nat
    }
}

/// The frame that a datagram carries, or why it carries none.
pub open spec fn decode(b: Seq<u8>) -> Result<FrameView, ErrorKind> {
    if b.len() < 5 {
        Err(ErrorKind::CouldNotReadHeader)
    } else if u16_from(b[0], b[1]) != PROTOCOL_VERSION {
        Err(ErrorKind::ProtocolVersionMismatch)
    } else if b[2] > 1 || b[3] > 1 || b[4] > 4 {
        Err(ErrorKind::MalformedHeader)
    } else if b[3] == 0 && (b[2] == 1 || b[4] >= 3) {
        Err(ErrorKind::MalformedHeader)
    } else if b[2] == 1 {
        if b.len() < 9 {
            Err(ErrorKind::CouldNotReadHeader)
        } else if b[7] >= b[8] || (b[7] > 0 && b[4] != 0) {
            Err(ErrorKind::MalformedHeader)
        } else {
            decode_rest(
                b,
                9,
                Some(FragmentHeader { seq: u16_from(b[5], b[6]), index: b[7], total: b[8] }),
            )
        }
    } else {
        decode_rest(b, 5, None)
    }
}

/// The frame of a datagram whose standard and fragment headers are read and
/// end at `at`.
pub open spec fn decode_rest(b: Seq<u8>, at: int, fragment: Option<FragmentHeader>) -> Result<
    FrameView,
    ErrorKind,
> {
    let leads = match fragment {
        Some(h) => h.index == 0,
        None => true,
    };
    let acked = b[3] == 1 && leads;
    let arranged = b[4] != 0;
    let arranging_at = if acked {
        at + 8
    } else {
        at
    };
    let payload_at = if arranged {
        arranging_at + 9
    } else {
        arranging_at
    };
    if b.len() < payload_at {
        Err(ErrorKind::CouldNotReadHeader)
    } else if arranged && (b[4] == 1 || b[4] == 3) && b[arranging_at] != DEFAULT_STREAM {
        Err(ErrorKind::MalformedHeader)
    } else {
        Ok(
            FrameView {
                delivery: if b[3] == 1 {
                    DeliveryGuarantee::Reliable
                } else {
                    DeliveryGuarantee::Unreliable
                },
                ordering: ordering_from(b[4], if arranged { b[arranging_at] } else { 0 }),
                fragment,
                ack: if acked {
                    Some(
                        AckHeader {
                            seq: u16_from(b[at], b[at + 1]),
                            ack_next: u16_from(b[at + 2], b[at + 3]),
                            ack_field: u32_from(b.subrange(at + 4, at + 8)),
                        },
                    )
                } else {
                    None
                },
                arranging: if arranged {
                    Some(u64_from(b.subrange(arranging_at + 1, arranging_at + 9)))
                } else {
                    None
                },
                payload: b.subrange(payload_at, b.len() as int),
            },
        )
    }
}

pub proof fn lemma_u16_round_trip(x: u16)
    ensures
        u16_bytes(x).len() == 2,
        u16_from(u16_bytes(x)[0], u16_bytes(x)[1]) == x,
{
    reveal(u16_bytes);
    reveal(u16_from);
}

pub proof fn lemma_u32_round_trip(x: u32)
    ensures
        u32_bytes(x).len() == 4,
        u32_from(u32_bytes(x)) == x,
{
    reveal(u32_bytes);
    reveal(u32_from);
    lemma_u16_round_trip((x / 65536) as u16);
    lemma_u16_round_trip((x % 65536) as u16);
}

pub proof fn lemma_u64_round_trip(x: u64)
    ensures
        u64_bytes(x).len() == 8,
        u64_from(u64_bytes(x)) == x,
{
    reveal(u64_bytes);
    reveal(u64_from);
    let hi = (x / 4294967296) as u32;
    let lo = (x % 4294967296) as u32;
    lemma_u32_round_trip(hi);
    lemma_u32_round_trip(lo);
    assert(u64_bytes(x).subrange(0, 4) =~= u32_bytes(hi));
    assert(u64_bytes(x).subrange(4, 8) =~= u32_bytes(lo));
}

/// The headers of a frame take as many bytes as their sizes add up to.
pub proof fn lemma_header_len(f: FrameView)
    ensures
        f.standard_bytes().len() == 5,
        fragment_bytes(f.fragment).len() == (if f.fragment is Some { 4nat } else { 0nat }),
        ack_bytes(f.ack).len() == (if f.ack is Some { 8nat } else { 0nat }),
        arranging_bytes(f.ordering, f.arranging).len() == (if f.arranging is Some { 9nat } else { 0nat }),
        f.header_bytes().len() == f.header_len(),
        f.encode().len() == f.header_len() + f.payload.len(),
{
    lemma_u16_round_trip(PROTOCOL_VERSION);
    if let Some(h) = f.fragment {
        lemma_u16_round_trip(h.seq);
    }
    if let Some(h) = f.ack {
        lemma_u16_round_trip(h.seq);
        lemma_u16_round_trip(h.ack_next);
        lemma_u32_round_trip(h.ack_field);
    }
    if let Some(id) = f.arranging {
        lemma_u64_round_trip(id);
    }
}

proof fn lemma_read_standard(f: FrameView)
    ensures
        f.encode().len() >= 5,
        u16_from(f.encode()[0], f.encode()[1]) == PROTOCOL_VERSION,
        f.encode()[2] == (if f.fragment is Some { 1u8 } else { 0u8 }),
        f.encode()[3] == (if f.delivery is Reliable { 1u8 } else { 0u8 }),
        f.encode()[4] == ordering_byte(f.ordering),
{
    lemma_header_len(f);
    lemma_u16_round_trip(PROTOCOL_VERSION);
    let s = f.standard_bytes();
    let b = f.encode();
    assert(s.len() == 5);
    assert forall|i: int| 0 <= i < 5 implies b[i] == s[i] by {}
    assert(s[0] == u16_bytes(PROTOCOL_VERSION)[0]);
    assert(s[1] == u16_bytes(PROTOCOL_VERSION)[1]);
}

proof fn lemma_read_fragment(f: FrameView, h: FragmentHeader)
    requires
        f.fragment == Some(h),
    ensures
        f.encode().len() >= 9,
        u16_from(f.encode()[5], f.encode()[6]) == h.seq,
        f.encode()[7] == h.index,
        f.encode()[8] == h.total,
{
    lemma_header_len(f);
    lemma_u16_round_trip(h.seq);
    let fr = fragment_bytes(f.fragment);
    let b = f.encode();
    assert(fr.len() == 4);
    assert forall|i: int| 0 <= i < 4 implies b[5 + i] == fr[i] by {}
    assert(b[5] == fr[0] && b[6] == fr[1] && b[7] == fr[2] && b[8] == fr[3]);
    assert(fr[0] == u16_bytes(h.seq)[0] && fr[1] == u16_bytes(h.seq)[1]);
}

proof fn lemma_read_ack(f: FrameView, h: AckHeader, at: int)
    requires
        f.ack == Some(h),
        at == 5 + fragment_bytes(f.fragment).len(),
    ensures
        f.encode().len() >= at + 8,
        u16_from(f.encode()[at], f.encode()[at + 1]) == h.seq,
        u16_from(f.encode()[at + 2], f.encode()[at + 3]) == h.ack_next,
        u32_from(f.encode().subrange(at + 4, at + 8)) == h.ack_field,
{
    lemma_header_len(f);
    lemma_u16_round_trip(h.seq);
    lemma_u16_round_trip(h.ack_next);
    lemma_u32_round_trip(h.ack_field);
    let ak = ack_bytes(f.ack);
    let b = f.encode();
    assert(ak.len() == 8);
    assert forall|i: int| 0 <= i < 8 implies b[at + i] == ak[i] by {}
    assert(b[at] == ak[0] && b[at + 1] == ak[1] && b[at + 2] == ak[2] && b[at + 3] == ak[3]);
    assert(ak[0] == u16_bytes(h.seq)[0] && ak[1] == u16_bytes(h.seq)[1]);
    assert(ak[2] == u16_bytes(h.ack_next)[0] && ak[3] == u16_bytes(h.ack_next)[1]);
    assert(b.subrange(at + 4, at + 8) =~= u32_bytes(h.ack_field));
}

proof fn lemma_read_arranging(f: FrameView, id: u64, at: int)
    requires
        f.arranging == Some(id),
        at == 5 + fragment_bytes(f.fragment).len() + ack_bytes(f.ack).len(),
    ensures
        f.encode().len() >= at + 9,
        f.encode()[at] == (match f.ordering.spec_stream() {
            Some(s) => s,
            None => DEFAULT_STREAM,
        }),
        u64_from(f.encode().subrange(at + 1, at + 9)) == id,
{
    lemma_header_len(f);
    lemma_u64_round_trip(id);
    let ar = arranging_bytes(f.ordering, f.arranging);
    let b = f.encode();
    assert(ar.len() == 9);
    assert forall|i: int| 0 <= i < 9 implies b[at + i] == ar[i] by {}
    assert(b[at] == ar[0]);
    assert(b.subrange(at + 1, at + 9) =~= u64_bytes(id));
}

proof fn lemma_read_payload(f: FrameView)
    ensures
        f.encode().subrange(f.header_len() as int, f.encode().len() as int) == f.payload,
{
    lemma_header_len(f);
    assert(f.encode().subrange(f.header_len() as int, f.encode().len() as int) =~= f.payload);
}

/// Reading what was written gives the frame back: for every frame that a
/// sender writes, the datagram that carries it is taken apart into that
/// same frame.
pub proof fn lemma_decode_encode(f: FrameView)
    requires
        f.well_formed(),
    ensures
        decode(f.encode()) == Ok::<FrameView, ErrorKind>(f),
{
    let b = f.encode();
    lemma_header_len(f);
    lemma_read_standard(f);
    lemma_read_payload(f);
    let at: int = 5 + fragment_bytes(f.fragment).len() as int;
    if let Some(h) = f.fragment {
        lemma_read_fragment(f, h);
    }
    if let Some(h) = f.ack {
        lemma_read_ack(f, h, at);
    }
    let arranging_at = at + ack_bytes(f.ack).len() as int;
    if let Some(id) = f.arranging {
        lemma_read_arranging(f, id, arranging_at);
    }
    let d = decode_rest(b, at, f.fragment);
    assert(d is Ok);
    assert(d->Ok_0.ordering == f.ordering);
    assert(d->Ok_0.ack == f.ack);
    assert(d->Ok_0.arranging == f.arranging);
    assert(d == Ok::<FrameView, ErrorKind>(f));
}

/// Every frame that a datagram is taken apart into is a frame that a
/// sender writes.
pub proof fn lemma_decode_well_formed(b: Seq<u8>)
    ensures
        decode(b) matches Ok(f) ==> f.well_formed(),
{
}

fn push_u16(out: &mut Vec<u8>, x: u16)
    ensures
        final(out)@ == old(out)@ + u16_bytes(x),
{
    reveal(u16_bytes);
    out.push((x / 256) as u8);
    out.push((x % 256) as u8);
    assert(out@ =~= old(out)@ + u16_bytes(x));
}

fn push_u32(out: &mut Vec<u8>, x: u32)
    ensures
        final(out)@ == old(out)@ + u32_bytes(x),
{
    reveal(u32_bytes);
    push_u16(out, (x / 65536) as u16);
    push_u16(out, (x % 65536) as u16);
    assert(out@ =~= old(out)@ + u32_bytes(x));
}

fn push_u64(out: &mut Vec<u8>, x: u64)
    ensures
        final(out)@ == old(out)@ + u64_bytes(x),
{
    reveal(u64_bytes);
    push_u32(out, (x / 4294967296) as u32);
    push_u32(out, (x % 4294967296) as u32);
    assert(out@ =~= old(out)@ + u64_bytes(x));
}

fn read_u16(b: &[u8], at: usize) -> (r: u16)
    requires
        at + 2 <= b@.len(),
    ensures
        r == u16_from(b@[at as int], b@[at + 1]),
{
    reveal(u16_from);
    (b[at] as u16) * 256 + (b[at + 1] as u16)
}

fn read_u32(b: &[u8], at: usize) -> (r: u32)
    requires
        at + 4 <= b@.len() <= usize::MAX,
    ensures
        r == u32_from(b@.subrange(at as int, at + 4)),
{
    reveal(u32_from);
    let hi = read_u16(b, at);
    let lo = read_u16(b, at + 2);
    (hi as u32) * 65536 + (lo as u32)
}

fn read_u64(b: &[u8], at: usize) -> (r: u64)
    requires
        at + 8 <= b@.len() <= usize::MAX,
    ensures
        r == u64_from(b@.subrange(at as int, at + 8)),
{
    reveal(u64_from);
    let hi = read_u32(b, at);
    let lo = read_u32(b, at + 4);
    proof {
        let w = b@.subrange(at as int, at + 8);
        assert(w.subrange(0, 4) =~= b@.subrange(at as int, at + 4));
        assert(w.subrange(4, 8) =~= b@.subrange(at + 4, at + 8));
    }
    (hi as u64) * 4294967296 + (lo as u64)
}

fn ordering_to_byte(ordering: OrderingGuarantee) -> (r: u8)
    ensures
        r == ordering_byte(ordering),
{
    match ordering {
        OrderingGuarantee::Unordered => 0,
        OrderingGuarantee::Sequenced(None) => 1,
        OrderingGuarantee::Sequenced(Some(_)) => 2,
        OrderingGuarantee::Ordered(None) => 3,
        OrderingGuarantee::Ordered(Some(_)) => 4,
    }
}

fn ordering_of_byte(byte: u8, stream: u8) -> (r: OrderingGuarantee)
    ensures
        r == ordering_from(byte, stream),
{
    if byte == 1 {
        OrderingGuarantee::Sequenced(None)
    } else if byte == 2 {
        OrderingGuarantee::Sequenced(Some(stream))
    } else if byte == 3 {
        OrderingGuarantee::Ordered(None)
    } else if byte == 4 {
        OrderingGuarantee::Ordered(Some(stream))
    } else {
        OrderingGuarantee::Unordered
    }
}

impl Frame {
    /// Writes the datagram that carries this frame.
    pub fn encode(&self) -> (r: Vec<u8>)
        ensures
            r@ == self@.encode(),
    {
        let mut out: Vec<u8> = Vec::new();
        push_u16(&mut out, PROTOCOL_VERSION);
        out.push(if self.fragment.is_some() { 1 } else { 0 });
        out.push(
            match self.delivery {
                DeliveryGuarantee::Reliable => 1,
                DeliveryGuarantee::Unreliable => 0,
            },
        );
        out.push(ordering_to_byte(self.ordering));
        assert(out@ =~= self@.standard_bytes());
        if let Some(h) = self.fragment {
            push_u16(&mut out, h.seq);
            out.push(h.index);
            out.push(h.total);
        }
        assert(out@ =~= self@.standard_bytes() + fragment_bytes(self.fragment));
        if let Some(h) = self.ack {
            push_u16(&mut out, h.seq);
            push_u16(&mut out, h.ack_next);
            push_u32(&mut out, h.ack_field);
        }
        assert(out@ =~= self@.standard_bytes() + fragment_bytes(self.fragment) + ack_bytes(
            self.ack,
        ));
        if let Some(id) = self.arranging {
            let stream = match self.ordering.stream() {
                Some(s) => s,
                None => DEFAULT_STREAM,
            };
            out.push(stream);
            push_u64(&mut out, id);
        }
        assert(out@ =~= self@.header_bytes());
        out.extend_from_slice(self.payload.as_slice());
        out
    }

    /// Takes a datagram apart.
    ///
    /// A datagram that is cut short, names another version or holds a value
    /// that no sender writes is refused; every other one gives its frame.
    pub fn decode(b: &[u8]) -> (r: Result<Frame, ErrorKind>)
        ensures
            match decode(b@) {
                Ok(f) => r matches Ok(g) && g@ == f,
                Err(e) => r == Err::<Frame, ErrorKind>(e),
            },
    {
        if b.len() < 5 {
            return Err(ErrorKind::CouldNotReadHeader);
        }
        if read_u16(b, 0) != PROTOCOL_VERSION {
            return Err(ErrorKind::ProtocolVersionMismatch);
        }
        if b[2] > 1 || b[3] > 1 || b[4] > 4 {
            return Err(ErrorKind::MalformedHeader);
        }
        if b[3] == 0 && (b[2] == 1 || b[4] >= 3) {
            return Err(ErrorKind::MalformedHeader);
        }
        if b[2] == 1 {
            if b.len() < 9 {
                return Err(ErrorKind::CouldNotReadHeader);
            }
            if b[7] >= b[8] || (b[7] > 0 && b[4] != 0) {
                return Err(ErrorKind::MalformedHeader);
            }
            let header = FragmentHeader { seq: read_u16(b, 5), index: b[7], total: b[8] };
            Self::decode_rest(b, 9, Some(header))
        } else {
            Self::decode_rest(b, 5, None)
        }
    }

    fn decode_rest(b: &[u8], at: usize, fragment: Option<FragmentHeader>) -> (r: Result<
        Frame,
        ErrorKind,
    >)
        requires
            5 <= at <= 9,
            at <= b@.len(),
            b@[3] <= 1,
            b@[4] <= 4,
        ensures
            match decode_rest(b@, at as int, fragment) {
                Ok(f) => r matches Ok(g) && g@ == f,
                Err(e) => r == Err::<Frame, ErrorKind>(e),
            },
    {
        let leads = match fragment {
            Some(h) => h.index == 0,
            None => true,
        };
        let acked = b[3] == 1 && leads;
        let arranged = b[4] != 0;
        let arranging_at: usize = if acked { at + 8 } else { at };
        let payload_at: usize = if arranged { arranging_at + 9 } else { arranging_at };
        if b.len() < payload_at {
            return Err(ErrorKind::CouldNotReadHeader);
        }
        if arranged && (b[4] == 1 || b[4] == 3) && b[arranging_at] != DEFAULT_STREAM {
            return Err(ErrorKind::MalformedHeader);
        }
        let ack = if acked {
            Some(
                AckHeader {
                    seq: read_u16(b, at),
                    ack_next: read_u16(b, at + 2),
                    ack_field: read_u32(b, at + 4),
                },
            )
        } else {
            None
        };
        let arranging = if arranged { Some(read_u64(b, arranging_at + 1)) } else { None };
        let stream: u8 = if arranged { b[arranging_at] } else { 0 };
        Ok(
            Frame {
                delivery: if b[3] == 1 {
                    DeliveryGuarantee::Reliable
                } else {
                    DeliveryGuarantee::Unreliable
                },
                ordering: ordering_of_byte(b[4], stream),
                fragment,
                ack,
                arranging,
                payload: slice_to_vec(slice_subrange(b, payload_at, b.len())),
            },
        )
    }
}

} // verus!
