//! Payloads that are too large for one datagram: how a sender splits them
//! and how a receiver puts them together again.

use vstd::prelude::*;
use vstd::slice::{slice_subrange, slice_to_vec};
use crate::error::ErrorKind;
use crate::packet::OrderingGuarantee;
use crate::wire::FragmentHeader;

verus! {

/// The pieces that a payload is split into when no piece may hold more than
/// `size` bytes: all but the last hold `size` bytes. There are none if
/// `size` is 0.
pub open spec fn chunks(payload: Seq<u8>, size: nat) -> Seq<Seq<u8>>
    decreases payload.len(),
{
    if size == 0 {
        Seq::empty()
    } else if payload.len() <= size {
        seq![payload]
    } else {
        seq![payload.take(size as int)] + chunks(payload.skip(size as int), size)
    }
}

/// The pieces put one after the other.
pub open spec fn joined(parts: Seq<Seq<u8>>) -> Seq<u8>
    decreases parts.len(),
{
    if parts.len() == 0 {
        Seq::empty()
    } else {
        joined(parts.drop_last()) + parts.last()
    }
}

pub open spec fn byte_views(parts: Seq<Vec<u8>>) -> Seq<Seq<u8>> {
    parts.map_values(|p: Vec<u8>| p@)
}

proof fn lemma_joined_front(first: Seq<u8>, rest: Seq<Seq<u8>>)
    ensures
        joined(seq![first] + rest) == first + joined(rest),
    decreases rest.len(),
{
    let all = seq![first] + rest;
    if rest.len() == 0 {
        assert(all.drop_last() =~= Seq::<Seq<u8>>::empty());
        assert(rest =~= Seq::<Seq<u8>>::empty());
        assert(joined(Seq::<Seq<u8>>::empty()) =~= Seq::<u8>::empty());
        assert(all.last() == first);
        assert(joined(all) =~= first + joined(rest));
    } else {
        assert(all.drop_last() =~= seq![first] + rest.drop_last());
        lemma_joined_front(first, rest.drop_last());
        assert(joined(all) =~= first + joined(rest));
    }
}

/// Splitting loses nothing: the pieces of a payload, put one after the
/// other, are the payload.
pub proof fn lemma_joined_chunks(payload: Seq<u8>, size: nat)
    requires
        size > 0,
    ensures
        joined(chunks(payload, size)) == payload,
        chunks(payload, size).len() >= 1,
        forall|i: int| 0 <= i < chunks(payload, size).len() ==> (#[trigger] chunks(payload, size)[i]).len() <= size,
    decreases payload.len(),
{
    if payload.len() <= size {
        assert(seq![payload].drop_last() =~= Seq::<Seq<u8>>::empty());
        assert(joined(Seq::<Seq<u8>>::empty()) =~= Seq::<u8>::empty());
        assert(seq![payload].last() == payload);
        assert(joined(seq![payload]) =~= payload);
    } else {
        lemma_joined_chunks(payload.skip(size as int), size);
        lemma_joined_front(payload.take(size as int), chunks(payload.skip(size as int), size));
        assert(payload.take(size as int) + payload.skip(size as int) =~= payload);
    }
}

/// Splits a payload into pieces of at most `size` bytes.
///
/// Fails if `size` is 0 or if there would be more than `max` pieces.
pub fn split(payload: &[u8], size: u16, max: u8) -> (r: Result<Vec<Vec<u8>>, ErrorKind>)
    ensures
        size > 0 && chunks(payload@, size as nat).len() <= max ==> (r matches Ok(parts)
            && byte_views(parts@) == chunks(payload@, size as nat)),
        !(size > 0 && chunks(payload@, size as nat).len() <= max) ==> r == Err::<
            Vec<Vec<u8>>,
            ErrorKind,
        >(ErrorKind::ExceededMaxFragments),
{
    if size == 0 {
        return Err(ErrorKind::ExceededMaxFragments);
    }
    let mut out: Vec<Vec<u8>> = Vec::new();
    let mut at: usize = 0;
    let len = payload.len();
    assert(payload@.skip(0) =~= payload@);
    assert(byte_views(out@) + chunks(payload@, size as nat) =~= chunks(payload@, size as nat));
    loop
        invariant
            size > 0,
            len == payload@.len(),
            at <= len,
            out@.len() <= max,
            chunks(payload@, size as nat) == byte_views(out@) + chunks(
                payload@.skip(at as int),
                size as nat,
            ),
        decreases len - at,
    {
        proof {
            lemma_joined_chunks(payload@.skip(at as int), size as nat);
        }
        if out.len() >= max as usize {
            return Err(ErrorKind::ExceededMaxFragments);
        }
        let ghost before = out@;
        if len - at <= size as usize {
            out.push(slice_to_vec(slice_subrange(payload, at, len)));
            proof {
                assert(payload@.subrange(at as int, len as int) =~= payload@.skip(at as int));
                assert(byte_views(out@) =~= byte_views(before) + seq![payload@.skip(at as int)]);
            }
            return Ok(out);
        }
        out.push(slice_to_vec(slice_subrange(payload, at, at + size as usize)));
        proof {
            let rest = payload@.skip(at as int);
            assert(payload@.subrange(at as int, at + size) =~= rest.take(size as int));
            assert(rest.skip(size as int) =~= payload@.skip(at + size));
            assert(byte_views(out@) =~= byte_views(before).push(rest.take(size as int)));
            assert(byte_views(before).push(rest.take(size as int)) + chunks(
                rest.skip(size as int),
                size as nat,
            ) =~= byte_views(before) + (seq![rest.take(size as int)] + chunks(
                rest.skip(size as int),
                size as nat,
            )));
        }
        at = at + size as usize;
    }
}

/// A message whose fragments have all come.
pub struct Message {
    pub ordering: OrderingGuarantee,
    /// The number of the message in its stream.
    pub arranging: Option<u64>,
    pub payload: Vec<u8>,
}

pub struct MessageView {
    pub ordering: OrderingGuarantee,
    pub arranging: Option<u64>,
    pub payload: Seq<u8>,
}

impl View for Message {
    type V = MessageView;

    open spec fn view(&self) -> MessageView {
        MessageView { ordering: self.ordering, arranging: self.arranging, payload: self.payload@ }
    }
}

/// A message of which some fragments have come.
pub struct Reassembly {
    seq: u16,
    total: u8,
    ordering: OrderingGuarantee,
    arranging: Option<u64>,
    parts: Vec<Option<Vec<u8>>>,
}

pub struct ReassemblyView {
    /// The sequence number of the message.
    pub seq: u16,
    /// How many fragments the message has.
    pub total: u8,
    /// What the leading fragment said of the message, once it has come.
    pub ordering: OrderingGuarantee,
    pub arranging: Option<u64>,
    /// The fragments by their place; `None` where one is missing.
    pub parts: Seq<Option<Seq<u8>>>,
}

pub open spec fn part_view(p: Option<Vec<u8>>) -> Option<Seq<u8>> {
    match p {
        Some(v) => Some(v@),
        None => None,
    }
}

pub open spec fn part_views(parts: Seq<Option<Vec<u8>>>) -> Seq<Option<Seq<u8>>> {
    parts.map_values(|p: Option<Vec<u8>>| part_view(p))
}

impl View for Reassembly {
    type V = ReassemblyView;

    closed spec fn view(&self) -> ReassemblyView {
        ReassemblyView {
            seq: self.seq,
            total: self.total,
            ordering: self.ordering,
            arranging: self.arranging,
            parts: part_views(self.parts@),
        }
    }
}

/// Whether no fragment is missing.
pub open spec fn complete(parts: Seq<Option<Seq<u8>>>) -> bool {
    forall|i: int| 0 <= i < parts.len() ==> (#[trigger] parts[i]) is Some
}

/// The fragments that have come, as pieces; a missing one counts as empty.
pub open spec fn pieces(parts: Seq<Option<Seq<u8>>>) -> Seq<Seq<u8>> {
    parts.map_values(
        |p: Option<Seq<u8>>|
            match p {
                Some(b) => b,
                None => Seq::empty(),
            },
    )
}

impl ReassemblyView {
    pub open spec fn wf(self) -> bool {
        self.parts.len() == self.total
    }

    /// The message of which nothing has come yet.
    pub open spec fn fresh(header: FragmentHeader) -> ReassemblyView {
        ReassemblyView {
            seq: header.seq,
            total: header.total,
            ordering: OrderingGuarantee::Unordered,
            arranging: None,
            parts: Seq::new(header.total as nat, |i: int| None),
        }
    }

    /// The message after the fragment at `index` has come.
    pub open spec fn filled(
        self,
        index: u8,
        ordering: OrderingGuarantee,
        arranging: Option<u64>,
        chunk: Seq<u8>,
    ) -> ReassemblyView {
        ReassemblyView {
            ordering: if index == 0 {
                ordering
            } else {
                self.ordering
            },
            arranging: if index == 0 {
                arranging
            } else {
                self.arranging
            },
            parts: self.parts.update(index as int, Some(chunk)),
            ..self
        }
    }

    pub open spec fn message(self) -> MessageView {
        MessageView {
            ordering: self.ordering,
            arranging: self.arranging,
            payload: joined(pieces(self.parts)),
        }
    }
}

pub open spec fn reassembly_views(s: Seq<Reassembly>) -> Seq<ReassemblyView> {
    s.map_values(|r: Reassembly| r@)
}

/// The place of the first entry from `from` on that belongs to the message
/// `seq`; the length of `entries` if none does.
pub open spec fn entry_of(entries: Seq<ReassemblyView>, seq: u16, from: int) -> int
    decreases entries.len() - from,
{
    if from < 0 || from >= entries.len() {
        entries.len() as int
    } else if entries[from].seq == seq {
        from
    } else {
        entry_of(entries, seq, from + 1)
    }
}

/// The entries with room made for one more: the oldest goes if there are
/// `capacity` of them.
pub open spec fn with_room(entries: Seq<ReassemblyView>, capacity: nat) -> Seq<ReassemblyView> {
    if entries.len() >= capacity && entries.len() > 0 {
        entries.drop_first()
    } else {
        entries
    }
}

/// The entries after a fragment has come, and the message if that was its
/// last missing fragment.
///
/// A fragment whose place is not among the fragments of its message is
/// refused. A fragment of a message that is not begun opens an entry, for
/// which the oldest entry makes room when `capacity` is reached; with no
/// capacity it is dropped. A fragment that names another number of
/// fragments than its message is refused. One that has come before changes
/// nothing.
pub open spec fn accepted(
    entries: Seq<ReassemblyView>,
    capacity: nat,
    header: FragmentHeader,
    ordering: OrderingGuarantee,
    arranging: Option<u64>,
    chunk: Seq<u8>,
) -> Result<(Seq<ReassemblyView>, Option<MessageView>), ErrorKind> {
    let found = entry_of(entries, header.seq, 0);
    if header.index >= header.total {
        Err(ErrorKind::MalformedHeader)
    } else if found < entries.len() && entries[found].total != header.total {
        Err(ErrorKind::FragmentMismatch)
    } else if found >= entries.len() && capacity == 0 {
        Ok((entries, None))
    } else {
        let opened = if found < entries.len() {
            entries
        } else {
            with_room(entries, capacity).push(ReassemblyView::fresh(header))
        };
        let at = if found < entries.len() {
            found
        } else {
            opened.len() - 1
        };
        if opened[at].parts[header.index as int] is Some {
            Ok((entries, None))
        } else {
            let entry = opened[at].filled(header.index, ordering, arranging, chunk);
            if complete(entry.parts) {
                Ok((opened.remove(at), Some(entry.message())))
            } else {
                Ok((opened.update(at, entry), None))
            }
        }
    }
}

/// The fragmented messages of a connection that are not whole yet, oldest
/// first.
pub struct Reassembler {
    entries: Vec<Reassembly>,
}

impl View for Reassembler {
    type V = Seq<ReassemblyView>;

    closed spec fn view(&self) -> Seq<ReassemblyView> {
        reassembly_views(self.entries@)
    }
}

pub open spec fn all_wf(entries: Seq<ReassemblyView>) -> bool {
    forall|i: int| 0 <= i < entries.len() ==> (#[trigger] entries[i]).wf()
}

proof fn lemma_entry_of(entries: Seq<ReassemblyView>, seq: u16, from: int)
    requires
        0 <= from <= entries.len(),
    ensures
        from <= entry_of(entries, seq, from) <= entries.len(),
    decreases entries.len() - from,
{
    if from < entries.len() && entries[from].seq != seq {
        lemma_entry_of(entries, seq, from + 1);
    }
}

impl Reassembly {
    fn fresh(header: FragmentHeader) -> (r: Reassembly)
        ensures
            r@ == ReassemblyView::fresh(header),
    {
        let mut parts: Vec<Option<Vec<u8>>> = Vec::new();
        while parts.len() < header.total as usize
            invariant
                parts@.len() <= header.total,
                forall|i: int| 0 <= i < parts@.len() ==> (#[trigger] parts@[i]) is None,
            decreases header.total - parts@.len(),
        {
            parts.push(None);
        }
        assert(part_views(parts@) =~= Seq::new(header.total as nat, |i: int| None::<Seq<u8>>));
        Reassembly {
            seq: header.seq,
            total: header.total,
            ordering: OrderingGuarantee::Unordered,
            arranging: None,
            parts,
        }
    }

    fn is_complete(&self) -> (r: bool)
        ensures
            r == complete(self@.parts),
    {
        let mut i: usize = 0;
        while i < self.parts.len()
            invariant
                i <= self.parts@.len(),
                forall|k: int| 0 <= k < i ==> (#[trigger] self@.parts[k]) is Some,
            decreases self.parts@.len() - i,
        {
            if self.parts[i].is_none() {
                assert(self@.parts[i as int] is None);
                return false;
            }
            assert(self@.parts[i as int] is Some);
            i += 1;
        }
        true
    }

    fn into_message(self) -> (r: Message)
        ensures
            r@ == self@.message(),
    {
        let mut payload: Vec<u8> = Vec::new();
        let ghost whole = self.parts@;
        let ordering = self.ordering;
        let arranging = self.arranging;
        assert(pieces(part_views(whole.take(0))) =~= Seq::<Seq<u8>>::empty());
        for part in it: self.parts.into_iter()
            invariant
                it.seq() == whole,
                payload@ == joined(pieces(part_views(whole.take(it.index() as int)))),
        {
            proof {
                let i = it.index() as int;
                let now = pieces(part_views(whole.take(i + 1)));
                assert(whole.take(i + 1).drop_last() =~= whole.take(i));
                assert(now.drop_last() =~= pieces(part_views(whole.take(i))));
            }
            if let Some(bytes) = part {
                payload.extend_from_slice(bytes.as_slice());
            } else {
                assert(payload@ + Seq::<u8>::empty() =~= payload@);
            }
        }
        assert(whole.take(whole.len() as int) =~= whole);
        Message { ordering, arranging, payload }
    }
}

impl Reassembler {
    pub open spec fn wf(&self) -> bool {
        all_wf(self@)
    }

    pub fn new() -> (r: Reassembler)
        ensures
            r.wf(),
            r@ == Seq::<ReassemblyView>::empty(),
    {
        let r = Reassembler { entries: Vec::new() };
        assert(r@ =~= Seq::<ReassemblyView>::empty());
        r
    }

    fn find(&self, seq: u16) -> (r: usize)
        ensures
            r == entry_of(self@, seq, 0),
            r <= self@.len(),
    {
        let mut i: usize = 0;
        while i < self.entries.len()
            invariant
                0 <= i <= self.entries@.len(),
                entry_of(self@, seq, 0) == entry_of(self@, seq, i as int),
            decreases self.entries@.len() - i,
        {
            if self.entries[i].seq == seq {
                return i;
            }
            i += 1;
        }
        i
    }

    /// Takes in a fragment and returns the message if that was its last
    /// missing fragment.
    pub fn accept(
        &mut self,
        capacity: u16,
        header: FragmentHeader,
        ordering: OrderingGuarantee,
        arranging: Option<u64>,
        chunk: Vec<u8>,
    ) -> (r: Result<Option<Message>, ErrorKind>)
        requires
            old(self).wf(),
        ensures
            final(self).wf(),
            match accepted(old(self)@, capacity as nat, header, ordering, arranging, chunk@) {
                Ok((entries, message)) => {
                    &&& final(self)@ == entries
                    &&& r matches Ok(m)
                    &&& match message {
                        Some(v) => m matches Some(w) && w@ == v,
                        None => m is None,
                    }
                },
                Err(e) => r == Err::<Option<Message>, ErrorKind>(e) && final(self)@ == old(self)@,
            },
    {
        if header.index >= header.total {
            return Err(ErrorKind::MalformedHeader);
        }
        let found = self.find(header.seq);
        let known = found < self.entries.len();
        if known && self.entries[found].total != header.total {
            return Err(ErrorKind::FragmentMismatch);
        }
        if !known && capacity == 0 {
            return Ok(None);
        }
        if known && self.entries[found].parts[header.index as usize].is_some() {
            assert(old(self)@[found as int].parts[header.index as int] is Some);
            return Ok(None);
        }
        let ghost before = self.entries@;
        let mut at = found;
        if !known {
            if self.entries.len() >= capacity as usize && self.entries.len() > 0 {
                self.entries.remove(0);
                assert(reassembly_views(self.entries@) =~= with_room(
                    reassembly_views(before),
                    capacity as nat,
                ));
            }
            let ghost roomy = self.entries@;
            self.entries.push(Reassembly::fresh(header));
            assert(reassembly_views(self.entries@) =~= reassembly_views(roomy).push(
                ReassemblyView::fresh(header),
            ));
            at = self.entries.len() - 1;
        }
        let ghost opened = self.entries@;
        assert(opened[at as int]@.parts[header.index as int] is None);
        let mut entry = self.entries.remove(at);
        assert(reassembly_views(self.entries@) =~= reassembly_views(opened).remove(at as int));
        let ghost parts_before = entry.parts@;
        entry.parts.set(header.index as usize, Some(chunk));
        if header.index == 0 {
            entry.ordering = ordering;
            entry.arranging = arranging;
        }
        assert(part_views(entry.parts@) =~= part_views(parts_before).update(
            header.index as int,
            Some(chunk@),
        ));
        assert(entry@ == opened[at as int]@.filled(header.index, ordering, arranging, chunk@));
        if entry.is_complete() {
            Ok(Some(entry.into_message()))
        } else {
            let ghost removed = self.entries@;
            self.entries.insert(at, entry);
            assert(reassembly_views(self.entries@) =~= reassembly_views(opened).update(
                at as int,
                entry@,
            ));
            Ok(None)
        }
    }
}

/// Taking a fragment in keeps every entry as long as its message has
/// fragments.
pub proof fn lemma_accepted_wf(
    entries: Seq<ReassemblyView>,
    capacity: nat,
    header: FragmentHeader,
    ordering: OrderingGuarantee,
    arranging: Option<u64>,
    chunk: Seq<u8>,
)
    requires
        all_wf(entries),
    ensures
        accepted(entries, capacity, header, ordering, arranging, chunk) matches Ok((after, _))
            ==> all_wf(after),
{
    lemma_entry_of(entries, header.seq, 0);
    let found = entry_of(entries, header.seq, 0);
    if let Ok((after, _)) = accepted(entries, capacity, header, ordering, arranging, chunk) {
        let roomy = with_room(entries, capacity);
        assert(all_wf(roomy)) by {
            assert forall|i: int| 0 <= i < roomy.len() implies (#[trigger] roomy[i]).wf() by {
                if entries.len() >= capacity && entries.len() > 0 {
                    assert(roomy[i] == entries[i + 1]);
                }
            }
        }
        let opened = if found < entries.len() {
            entries
        } else {
            roomy.push(ReassemblyView::fresh(header))
        };
        assert(all_wf(opened));
        assert forall|i: int| 0 <= i < after.len() implies (#[trigger] after[i]).wf() by {
            let at = if found < entries.len() {
                found
            } else {
                opened.len() - 1
            };
            if after.len() == opened.len() {
                if i != at {
                    assert(after[i] == opened[i] || after == entries);
                }
            } else if after.len() == opened.len() - 1 {
                if after != entries {
                    let j = if i < at {
                        i
                    } else {
                        i + 1
                    };
                    assert(after[i] == opened[j]);
                }
            }
        }
    }
}

/// Where the search finds nothing, no entry belongs to the message.
pub proof fn lemma_entry_of_absent(entries: Seq<ReassemblyView>, seq: u16, from: int)
    requires
        0 <= from <= entries.len(),
        entry_of(entries, seq, from) == entries.len(),
    ensures
        forall|i: int| from <= i < entries.len() ==> (#[trigger] entries[i]).seq != seq,
    decreases entries.len() - from,
{
    if from < entries.len() {
        lemma_entry_of(entries, seq, from + 1);
        lemma_entry_of_absent(entries, seq, from + 1);
    }
}

/// The search finds the first entry that belongs to the message.
pub proof fn lemma_entry_of_found(entries: Seq<ReassemblyView>, seq: u16, at: int)
    requires
        0 <= at < entries.len(),
        entries[at].seq == seq,
        forall|i: int| 0 <= i < at ==> (#[trigger] entries[i]).seq != seq,
    ensures
        entry_of(entries, seq, 0) == at,
{
    lemma_entry_of_from(entries, seq, at, 0);
}

proof fn lemma_entry_of_from(entries: Seq<ReassemblyView>, seq: u16, at: int, from: int)
    requires
        0 <= from <= at < entries.len(),
        entries[at].seq == seq,
        forall|i: int| 0 <= i < at ==> (#[trigger] entries[i]).seq != seq,
    ensures
        entry_of(entries, seq, from) == at,
    decreases at - from,
{
    if from < at {
        lemma_entry_of_from(entries, seq, at, from + 1);
    }
}

} // verus!
