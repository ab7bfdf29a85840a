//! Streams: the numbers that a sender gives to the messages of a stream, and
//! what a receiver does with a numbered message.
//!
//! The messages of a stream are numbered 1, 2, 3 and so on. A sequenced
//! stream hands on a message only if its number is above every number it has
//! handed on. An ordered stream hands on the messages in the order of their
//! numbers and keeps a message that comes early until those before it have
//! come.

use vstd::prelude::*;
use crate::packet::OrderingGuarantee;

verus! {

/// How many streams a connection has in each direction and of each kind.
pub const STREAMS: usize = 256;

/// The number of the first message of a stream.
pub const FIRST_IDENTIFIER: u64 = 1;

/// The numbers that the next messages of each stream get.
pub struct IdentifierSource {
    next: Vec<u64>,
}

impl View for IdentifierSource {
    type V = Seq<u64>;

    closed spec fn view(&self) -> Seq<u64> {
        self.next@
    }
}

/// The numbers after one was taken for a message of `stream`, with that
/// number; `None` if the stream has none left.
pub open spec fn take_identifier(next: Seq<u64>, stream: u8) -> Option<(Seq<u64>, u64)> {
    if next[stream as int] < u64::MAX {
        Some((next.update(stream as int, (next[stream as int] + 1) as u64), next[stream as int]))
    } else {
        None
    }
}

/// `len` times the value `x`.
pub open spec fn repeated<T>(x: T, len: nat) -> Seq<T> {
    Seq::new(len, |i: int| x)
}

impl IdentifierSource {
    pub open spec fn wf(&self) -> bool {
        self@.len() == STREAMS
    }

    pub fn new() -> (r: IdentifierSource)
        ensures
            r.wf(),
            r@ == repeated(FIRST_IDENTIFIER, STREAMS as nat),
    {
        let mut next: Vec<u64> = Vec::new();
        while next.len() < STREAMS
            invariant
                next@.len() <= STREAMS,
                forall|i: int| 0 <= i < next@.len() ==> next@[i] == FIRST_IDENTIFIER,
            decreases STREAMS - next@.len(),
        {
            next.push(FIRST_IDENTIFIER);
        }
        assert(next@ =~= repeated(FIRST_IDENTIFIER, STREAMS as nat));
        IdentifierSource { next }
    }

    /// Takes the number for the next message of `stream`.
    pub fn take(&mut self, stream: u8) -> (r: Option<u64>)
        requires
            old(self).wf(),
        ensures
            final(self).wf(),
            match take_identifier(old(self)@, stream) {
                Some((next, id)) => r == Some(id) && final(self)@ == next,
                None => r is None && final(self)@ == old(self)@,
            },
    {
        let id = self.next[stream as usize];
        if id < u64::MAX {
            self.next.set(stream as usize, id + 1);
            Some(id)
        } else {
            None
        }
    }
}

/// The newest number that each sequenced stream has handed on; 0 where it
/// has handed on none.
pub struct SequencingSystem {
    tops: Vec<u64>,
}

impl View for SequencingSystem {
    type V = Seq<u64>;

    closed spec fn view(&self) -> Seq<u64> {
        self.tops@
    }
}

/// Whether a sequenced stream whose newest number is `top` hands on the
/// message with number `id`.
pub open spec fn is_newer(top: u64, id: u64) -> bool {
    id > top
}

/// The newest numbers after the message `id` of `stream` has come.
pub open spec fn sequenced(tops: Seq<u64>, stream: u8, id: u64) -> Seq<u64> {
    if is_newer(tops[stream as int], id) {
        tops.update(stream as int, id)
    } else {
        tops
    }
}

impl SequencingSystem {
    pub open spec fn wf(&self) -> bool {
        self@.len() == STREAMS
    }

    pub fn new() -> (r: SequencingSystem)
        ensures
            r.wf(),
            r@ == repeated(0u64, STREAMS as nat),
    {
        let mut tops: Vec<u64> = Vec::new();
        while tops.len() < STREAMS
            invariant
                tops@.len() <= STREAMS,
                forall|i: int| 0 <= i < tops@.len() ==> tops@[i] == 0,
            decreases STREAMS - tops@.len(),
        {
            tops.push(0);
        }
        assert(tops@ =~= repeated(0u64, STREAMS as nat));
        SequencingSystem { tops }
    }

    /// Takes in the message `id` of `stream` and says whether it is handed
    /// on: it is if it is newer than every message handed on before.
    pub fn arrange(&mut self, stream: u8, id: u64) -> (r: bool)
        requires
            old(self).wf(),
        ensures
            final(self).wf(),
            r == is_newer(old(self)@[stream as int], id),
            final(self)@ == sequenced(old(self)@, stream, id),
    {
        if id > self.tops[stream as usize] {
            self.tops.set(stream as usize, id);
            true
        } else {
            false
        }
    }
}

/// A message of an ordered stream.
pub struct Arranged {
    pub id: u64,
    pub ordering: OrderingGuarantee,
    pub payload: Vec<u8>,
}

pub struct ArrangedView {
    pub id: u64,
    pub ordering: OrderingGuarantee,
    pub payload: Seq<u8>,
}

impl View for Arranged {
    type V = ArrangedView;

    open spec fn view(&self) -> ArrangedView {
        ArrangedView { id: self.id, ordering: self.ordering, payload: self.payload@ }
    }
}

pub open spec fn arranged_views(s: Seq<Arranged>) -> Seq<ArrangedView> {
    s.map_values(|a: Arranged| a@)
}

/// The receiving end of one ordered stream.
pub struct OrderingStream {
    expected: u64,
    held: Vec<Arranged>,
}

#[verifier::ext_equal]
pub struct OrderingStreamView {
    /// The number of the message that is handed on next.
    pub expected: u64,
    /// The messages that came early, in the order they came.
    pub held: Seq<ArrangedView>,
}

impl View for OrderingStream {
    type V = OrderingStreamView;

    closed spec fn view(&self) -> OrderingStreamView {
        OrderingStreamView { expected: self.expected, held: arranged_views(self.held@) }
    }
}

/// The place of the first of `held` from `from` on that has the number `id`;
/// the length of `held` if none has.
pub open spec fn place_of(held: Seq<ArrangedView>, id: u64, from: int) -> int
    decreases held.len() - from,
{
    if from < 0 || from >= held.len() {
        held.len() as int
    } else if held[from].id == id {
        from
    } else {
        place_of(held, id, from + 1)
    }
}

/// What is left of `held`, the number expected next, and the messages
/// handed on, when the messages that wait are handed on from `expected` on
/// for as long as the next one is there.
pub open spec fn released(held: Seq<ArrangedView>, expected: u64) -> (
    Seq<ArrangedView>,
    u64,
    Seq<ArrangedView>,
)
    decreases held.len(),
{
    let at = place_of(held, expected, 0);
    if 0 <= at < held.len() && expected < u64::MAX {
        let rest = released(held.remove(at), (expected + 1) as u64);
        (rest.0, rest.1, seq![held[at]] + rest.2)
    } else {
        (held, expected, Seq::empty())
    }
}

impl OrderingStreamView {
    pub open spec fn initial() -> OrderingStreamView {
        OrderingStreamView { expected: FIRST_IDENTIFIER, held: Seq::empty() }
    }

    /// The stream after the message `m` has come, and the messages that are
    /// handed on, in order.
    ///
    /// The expected message is handed on together with those that waited
    /// for it. One that comes early is kept, once. One that was handed on
    /// before is dropped.
    pub open spec fn arrange(self, m: ArrangedView) -> (OrderingStreamView, Seq<ArrangedView>) {
        if m.id == self.expected && m.id < u64::MAX {
            let rest = released(self.held, (m.id + 1) as u64);
            (OrderingStreamView { expected: rest.1, held: rest.0 }, seq![m] + rest.2)
        } else if m.id > self.expected && place_of(self.held, m.id, 0) == self.held.len() {
            (OrderingStreamView { held: self.held.push(m), ..self }, Seq::empty())
        } else {
            (self, Seq::empty())
        }
    }
}

proof fn lemma_place_of(held: Seq<ArrangedView>, id: u64, from: int)
    requires
        0 <= from <= held.len(),
    ensures
        from <= place_of(held, id, from) <= held.len(),
        place_of(held, id, from) < held.len() ==> held[place_of(held, id, from)].id == id,
        forall|k: int| from <= k < place_of(held, id, from) ==> (#[trigger] held[k]).id != id,
    decreases held.len() - from,
{
    if from < held.len() && held[from].id != id {
        lemma_place_of(held, id, from + 1);
    }
}

proof fn lemma_arranged_views_remove(s: Seq<Arranged>, i: int)
    requires
        0 <= i < s.len(),
    ensures
        arranged_views(s.remove(i)) == arranged_views(s).remove(i),
{
    assert(arranged_views(s.remove(i)) =~= arranged_views(s).remove(i));
}

impl OrderingStream {
    pub fn new() -> (r: OrderingStream)
        ensures
            r@ == OrderingStreamView::initial(),
    {
        let r = OrderingStream { expected: FIRST_IDENTIFIER, held: Vec::new() };
        assert(r@.held =~= Seq::<ArrangedView>::empty());
        r
    }

    fn find(&self, id: u64) -> (r: usize)
        ensures
            r == place_of(self@.held, id, 0),
            r <= self@.held.len(),
    {
        let mut i: usize = 0;
        while i < self.held.len()
            invariant
                0 <= i <= self.held@.len(),
                place_of(self@.held, id, 0) == place_of(self@.held, id, i as int),
            decreases self.held@.len() - i,
        {
            if self.held[i].id == id {
                return i;
            }
            i += 1;
        }
        i
    }

    fn release(&mut self, out: &mut Vec<Arranged>)
        ensures
            final(self)@.held == released(old(self)@.held, old(self)@.expected).0,
            final(self)@.expected == released(old(self)@.held, old(self)@.expected).1,
            arranged_views(final(out)@) == arranged_views(old(out)@) + released(
                old(self)@.held,
                old(self)@.expected,
            ).2,
    {
        assert(arranged_views(out@) =~= arranged_views(old(out)@) + Seq::<ArrangedView>::empty());
        loop
            invariant
                released(old(self)@.held, old(self)@.expected).0 == released(
                    self@.held,
                    self@.expected,
                ).0,
                released(old(self)@.held, old(self)@.expected).1 == released(
                    self@.held,
                    self@.expected,
                ).1,
                arranged_views(old(out)@) + released(old(self)@.held, old(self)@.expected).2
                    == arranged_views(out@) + released(self@.held, self@.expected).2,
            ensures
                self@.held == released(old(self)@.held, old(self)@.expected).0,
                self@.expected == released(old(self)@.held, old(self)@.expected).1,
                arranged_views(out@) == arranged_views(old(out)@) + released(
                    old(self)@.held,
                    old(self)@.expected,
                ).2,
            decreases self.held@.len(),
        {
            let at = self.find(self.expected);
            if at >= self.held.len() || self.expected == u64::MAX {
                assert(arranged_views(out@) + Seq::<ArrangedView>::empty() =~= arranged_views(
                    out@,
                ));
                break ;
            }
            let ghost before = self.held@;
            let ghost out_before = out@;
            let ghost rest = released(self@.held.remove(at as int), (self@.expected + 1) as u64);
            let m = self.held.remove(at);
            proof {
                lemma_arranged_views_remove(before, at as int);
                assert(arranged_views(out_before.push(m)) =~= arranged_views(out_before).push(m@));
                assert(arranged_views(out_before).push(m@) + rest.2 =~= arranged_views(out_before)
                    + (seq![m@] + rest.2));
            }
            out.push(m);
            self.expected = self.expected + 1;
        }
    }

    /// Takes in the message `m` and appends to `out` the messages that are
    /// handed on.
    pub fn arrange(&mut self, m: Arranged, out: &mut Vec<Arranged>)
        ensures
            final(self)@ == old(self)@.arrange(m@).0,
            arranged_views(final(out)@) == arranged_views(old(out)@) + old(self)@.arrange(m@).1,
    {
        if m.id == self.expected && m.id < u64::MAX {
            let ghost out_before = out@;
            let ghost rest = released(self@.held, (m.id + 1) as u64);
            self.expected = m.id + 1;
            proof {
                assert(arranged_views(out_before.push(m)) =~= arranged_views(out_before).push(m@));
                assert(arranged_views(out_before).push(m@) + rest.2 =~= arranged_views(out_before)
                    + (seq![m@] + rest.2));
            }
            out.push(m);
            self.release(out);
        } else if m.id > self.expected && self.find(m.id) >= self.held.len() {
            let ghost before = self.held@;
            proof {
                assert(arranged_views(before.push(m)) =~= arranged_views(before).push(m@));
                assert(arranged_views(out@) + Seq::<ArrangedView>::empty() =~= arranged_views(
                    out@,
                ));
            }
            self.held.push(m);
        } else {
            assert(arranged_views(out@) + Seq::<ArrangedView>::empty() =~= arranged_views(out@));
        }
    }
}

/// The receiving ends of the ordered streams of a connection.
pub struct OrderingSystem {
    streams: Vec<OrderingStream>,
}

pub open spec fn stream_views(s: Seq<OrderingStream>) -> Seq<OrderingStreamView> {
    s.map_values(|x: OrderingStream| x@)
}

impl View for OrderingSystem {
    type V = Seq<OrderingStreamView>;

    closed spec fn view(&self) -> Seq<OrderingStreamView> {
        stream_views(self.streams@)
    }
}

/// The streams after the message `m` of `stream` has come, and the messages
/// that are handed on.
pub open spec fn ordered(streams: Seq<OrderingStreamView>, stream: u8, m: ArrangedView) -> (
    Seq<OrderingStreamView>,
    Seq<ArrangedView>,
) {
    (
        streams.update(stream as int, streams[stream as int].arrange(m).0),
        streams[stream as int].arrange(m).1,
    )
}

impl OrderingSystem {
    pub open spec fn wf(&self) -> bool {
        self@.len() == STREAMS
    }

    pub fn new() -> (r: OrderingSystem)
        ensures
            r.wf(),
            r@ == repeated(OrderingStreamView::initial(), STREAMS as nat),
    {
        let mut streams: Vec<OrderingStream> = Vec::new();
        while streams.len() < STREAMS
            invariant
                streams@.len() <= STREAMS,
                forall|i: int|
                    0 <= i < streams@.len() ==> (#[trigger] streams@[i])@
                        == OrderingStreamView::initial(),
            decreases STREAMS - streams@.len(),
        {
            streams.push(OrderingStream::new());
        }
        assert(stream_views(streams@) =~= repeated(OrderingStreamView::initial(), STREAMS as nat));
        OrderingSystem { streams }
    }

    /// Takes in the message `m` of `stream` and appends to `out` the
    /// messages that are handed on.
    pub fn arrange(&mut self, stream: u8, m: Arranged, out: &mut Vec<Arranged>)
        requires
            old(self).wf(),
        ensures
            final(self).wf(),
            final(self)@ == ordered(old(self)@, stream, m@).0,
            arranged_views(final(out)@) == arranged_views(old(out)@) + ordered(
                old(self)@,
                stream,
                m@,
            ).1,
    {
        let ghost before = self.streams@;
        let s = &mut self.streams[stream as usize];
        s.arrange(m, out);
        assert(stream_views(self.streams@) =~= stream_views(before).update(
            stream as int,
            before[stream as int]@.arrange(m@).0,
        ));
    }
}

/// An ordered stream hands on its messages in the order of their numbers,
/// each once and none left out: the messages that one arrival sets free
/// carry the numbers from the one expected on, counting up by one, and the
/// stream then expects the number after the last of them.
pub proof fn lemma_ordered_in_order(stream: OrderingStreamView, m: ArrangedView)
    ensures
        ({
            let (after, out) = stream.arrange(m);
            &&& after.expected == stream.expected + out.len()
            &&& forall|k: int| 0 <= k < out.len() ==> (#[trigger] out[k]).id == stream.expected + k
        }),
{
    if m.id == stream.expected && m.id < u64::MAX {
        lemma_released_in_order(stream.held, (m.id + 1) as u64);
    }
}

proof fn lemma_released_in_order(held: Seq<ArrangedView>, expected: u64)
    ensures
        released(held, expected).1 == expected + released(held, expected).2.len(),
        forall|k: int|
            0 <= k < released(held, expected).2.len() ==> (#[trigger] released(
                held,
                expected,
            ).2[k]).id == expected + k,
        released(held, expected).0.len() + released(held, expected).2.len() == held.len(),
    decreases held.len(),
{
    let at = place_of(held, expected, 0);
    lemma_place_of(held, expected, 0);
    if 0 <= at < held.len() && expected < u64::MAX {
        lemma_released_in_order(held.remove(at), (expected + 1) as u64);
    }
}

/// A sequenced stream hands on a message only if its number is above the
/// number of every message it handed on before, and that number is then the
/// newest: what it hands on goes strictly upwards, and nothing twice.
pub proof fn lemma_sequenced_upwards(tops: Seq<u64>, stream: u8, first: u64, second: u64)
    requires
        tops.len() == STREAMS,
        is_newer(tops[stream as int], first),
        is_newer(sequenced(tops, stream, first)[stream as int], second),
    ensures
        first < second,
        sequenced(sequenced(tops, stream, first), stream, second)[stream as int] == second,
        !is_newer(sequenced(tops, stream, first)[stream as int], first),
{
}

} // verus!
