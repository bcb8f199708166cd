//! Getting bytes ready for the wire.

use crate::record;
use vstd::prelude::*;

verus! {

/// What is to be done with the send buffer.
#[derive(Debug, Clone, Copy, PartialEq, Eq, Structural)]
pub struct Prepared {
    /// Whether what the buffer holds is to be submitted.
    pub buffered: bool,
    /// How many bytes of plaintext were taken.
    pub consumed: usize,
    /// Whether the connection is to be closed once all was sent.
    pub close_after: bool,
}

impl Prepared {
    /// Nothing to submit, nothing taken.
    pub open spec fn nothing() -> Prepared {
        Prepared { buffered: false, consumed: 0, close_after: false }
    }
}

/// Whether a send buffer went back to its pool.
#[derive(Debug, Clone, Copy, PartialEq, Eq, Structural)]
pub enum Availability {
    Unchanged,
    Released,
}

/// All parts from number `from` on, one after the other.
pub open spec fn parts_from(parts: Seq<&[u8]>, from: int) -> Seq<u8>
    decreases parts.len() - from,
{
    if from >= parts.len() {
        Seq::empty()
    } else {
        parts[from]@ + parts_from(parts, from + 1)
    }
}

proof fn joined_push(parts: Seq<&[u8]>, part: &[u8])
    ensures
        record::joined(parts.push(part)) == record::joined(parts) + part@,
{
    assert(parts.push(part).drop_last() =~= parts);
}

/// Both ways of putting parts together agree.
pub(crate) proof fn joined_is_parts(parts: Seq<&[u8]>, from: int)
    requires
        0 <= from <= parts.len(),
    ensures
        record::joined(parts) == record::joined(parts.take(from)) + parts_from(parts, from),
    decreases parts.len() - from,
{
    if from == parts.len() {
        assert(parts.take(from) =~= parts);
        assert(record::joined(parts) + Seq::<u8>::empty() =~= record::joined(parts));
    } else {
        joined_is_parts(parts, from + 1);
        assert(parts.take(from + 1) =~= parts.take(from).push(parts[from]));
        joined_push(parts.take(from), parts[from]);
        assert(record::joined(parts.take(from)) + (parts[from]@ + parts_from(parts, from + 1))
            =~= (record::joined(parts.take(from)) + parts[from]@) + parts_from(parts, from + 1));
    }
}

/// Parts by their bytes.
pub open spec fn views(parts: Seq<&[u8]>) -> Seq<Seq<u8>> {
    parts.map_values(|part: &[u8]| part@)
}

/// The parts from number `from` on that are not empty.
pub open spec fn filled_from(parts: Seq<&[u8]>, from: int) -> Seq<Seq<u8>>
    decreases parts.len() - from,
{
    if from >= parts.len() {
        Seq::empty()
    } else if parts[from]@.len() == 0 {
        filled_from(parts, from + 1)
    } else {
        seq![parts[from]@] + filled_from(parts, from + 1)
    }
}

/// The first `len` bytes of `pieces`, cut as the pieces are, and the pieces that are then
/// left.
pub open spec fn cut_off(pieces: Seq<Seq<u8>>, len: nat) -> (Seq<Seq<u8>>, Seq<Seq<u8>>)
    decreases pieces.len(),
{
    if len == 0 || pieces.len() == 0 {
        (Seq::empty(), pieces)
    } else {
        let first = pieces[0];
        let others = pieces.skip(1);
        if first.len() <= len {
            let (more, left) = cut_off(others, (len - first.len()) as nat);
            (seq![first] + more, left)
        } else {
            (seq![first.take(len as int)], seq![first.skip(len as int)] + others)
        }
    }
}

/// A reader of several parts as if they were one.
pub struct VectoredCursor<'b, 'a> {
    pub(crate) source: &'b [&'a [u8]],
    pub(crate) index: usize,
    pub(crate) current: &'a [u8],
    pub(crate) consumed: usize,
}

impl<'b, 'a> VectoredCursor<'b, 'a> {
    /// What is still to be read.
    pub closed spec fn rest(self) -> Seq<u8> {
        self.current@ + parts_from(self.source@, self.index as int)
    }

    /// What is still to be read, part by part.
    pub closed spec fn pieces(self) -> Seq<Seq<u8>> {
        (if self.current@.len() == 0 {
            Seq::empty()
        } else {
            seq![self.current@]
        }) + filled_from(self.source@, self.index as int)
    }

    /// How much was read.
    pub closed spec fn taken(self) -> nat {
        self.consumed as nat
    }

    pub fn new(source: &'b [&'a [u8]]) -> (cursor: Self)
        ensures
            cursor.rest() == record::joined(source@),
            cursor.pieces() == filled_from(source@, 0),
            cursor.taken() == 0,
    {
        let empty: &'a [u8] = &[];
        proof {
            joined_is_parts(source@, 0);
            assert(source@.take(0) =~= Seq::<&[u8]>::empty());
            assert(empty@ + parts_from(source@, 0) =~= parts_from(source@, 0));
            assert(Seq::<Seq<u8>>::empty() + filled_from(source@, 0) =~= filled_from(source@, 0));
            assert(record::joined(source@.take(0)) + parts_from(source@, 0) =~= parts_from(
                source@,
                0,
            ));
        }
        VectoredCursor { source, index: 0, current: empty, consumed: 0 }
    }

    pub fn consumed(&self) -> (count: usize)
        ensures
            count == self.taken(),
    {
        self.consumed
    }

    /// The next `len` bytes, or all that are left, in as few parts as they come: each is
    /// what is left of its part, cut to what is asked for, and none is empty.
    pub fn take(&mut self, len: usize) -> (parts: Vec<&'a [u8]>)
        requires
            old(self).taken() + old(self).rest().len() <= usize::MAX,
        ensures
            ({
                let count = if len <= old(self).rest().len() {
                    len as int
                } else {
                    old(self).rest().len() as int
                };
                &&& record::joined(parts@) == old(self).rest().take(count)
                &&& final(self).rest() == old(self).rest().skip(count)
                &&& final(self).taken() == old(self).taken() + count
            }),
            (views(parts@), final(self).pieces()) == cut_off(old(self).pieces(), len as nat),
            forall|i: int| 0 <= i < parts@.len() ==> (#[trigger] parts@[i])@.len() > 0,
    {
        let ghost all = self.rest();
        let ghost pieces = self.pieces();
        let ghost before = self.consumed as int;
        let mut parts: Vec<&'a [u8]> = Vec::new();
        let mut remaining: usize = len;
        proof {
            assert(all.skip(0) =~= all);
            assert(all.take(0) =~= Seq::<u8>::empty());
            let (more, left) = cut_off(pieces, len as nat);
            assert(views(parts@) + more =~= more);
        }
        while remaining > 0
            invariant
                before + all.len() <= usize::MAX,
                remaining <= len,
                len - remaining <= all.len(),
                self.consumed == before + (len - remaining),
                record::joined(parts@) == all.take(len - remaining),
                self.rest() == all.skip(len - remaining),
                ({
                    let (more, left) = cut_off(self.pieces(), remaining as nat);
                    cut_off(pieces, len as nat) == (views(parts@) + more, left)
                }),
                forall|i: int| 0 <= i < parts@.len() ==> (#[trigger] parts@[i])@.len() > 0,
            ensures
                remaining == 0 || len - remaining == all.len(),
                remaining == 0 || self.pieces().len() == 0,
            decreases remaining,
        {
            match self.next_part(remaining) {
                None => {
                    break;
                },
                Some(part) => {
                    let ghost done = len - remaining;
                    proof {
                        let now = self.pieces();
                        let (more, left) = cut_off(now, (remaining - part@.len()) as nat);
                        assert(views(parts@.push(part)) =~= views(parts@).push(part@));
                        assert(views(parts@) + (seq![part@] + more) =~= views(
                            parts@.push(part),
                        ) + more);
                        joined_push(parts@, part);
                        let count = part@.len() as int;
                        assert(all.skip(done).take(count) =~= part@);
                        assert(all.take(done) + part@ =~= all.take(done + count));
                        assert(all.skip(done).skip(count) =~= all.skip(done + count));
                    }
                    remaining = remaining - part.len();
                    parts.push(part);
                },
            }
        }
        assert(views(parts@) + Seq::<Seq<u8>>::empty() =~= views(parts@));
        parts
    }

    /// The next part that is not empty, cut to `max` bytes.
    fn next_part(&mut self, max: usize) -> (part: Option<&'a [u8]>)
        requires
            max > 0,
            old(self).consumed + old(self).rest().len() <= usize::MAX,
        ensures
            match part {
                Some(part) => 0 < part@.len() <= max && part@.len() <= old(self).rest().len()
                    && part@ == old(self).rest().take(part@.len() as int) && final(self).rest()
                    == old(self).rest().skip(part@.len() as int) && final(self).consumed
                    == old(self).consumed + part@.len(),
                None => old(self).rest().len() == 0 && final(self).rest() == old(self).rest()
                    && final(self).consumed == old(self).consumed,
            },
            match part {
                Some(part) => {
                    let first = old(self).pieces()[0];
                    let others = old(self).pieces().skip(1);
                    &&& old(self).pieces().len() > 0
                    &&& first.len() <= max ==> part@ == first && final(self).pieces() == others
                    &&& first.len() > max ==> part@ == first.take(max as int)
                        && final(self).pieces() == seq![first.skip(max as int)] + others
                },
                None => old(self).pieces().len() == 0 && final(self).pieces().len() == 0,
            },
    {
        while self.current.len() == 0
            invariant
                self.rest() == old(self).rest(),
                self.pieces() == old(self).pieces(),
                self.consumed == old(self).consumed,
            decreases self.source@.len() - self.index,
        {
            if self.index >= self.source.len() {
                return None;
            }
            proof {
                let first = self.source@[self.index as int]@;
                let after = parts_from(self.source@, self.index + 1);
                assert(self.current@ + (first + after) =~= first + after);
                let next = filled_from(self.source@, self.index + 1);
                assert(self.pieces() =~= filled_from(self.source@, self.index as int));
                assert(Seq::<Seq<u8>>::empty() + next =~= next);
            }
            self.current = self.source[self.index];
            self.index = self.index + 1;
        }
        let take: usize = if self.current.len() <= max {
            self.current.len()
        } else {
            max
        };
        let ghost whole = self.current@;
        let ghost after = parts_from(self.source@, self.index as int);
        let (part, rest) = self.current.split_at(take);
        proof {
            assert((whole + after).take(take as int) =~= part@);
            assert((whole + after).skip(take as int) =~= rest@ + after);
            let next = filled_from(self.source@, self.index as int);
            assert((seq![whole] + next).skip(1) =~= next);
            assert(whole.take(take as int) =~= part@);
            assert(whole.skip(take as int) =~= rest@);
            assert(take == whole.len() ==> part@ =~= whole);
            assert(Seq::<Seq<u8>>::empty() + next =~= next);
        }
        self.current = rest;
        self.consumed = self.consumed + take;
        Some(part)
    }
}

/// What holds the bytes that are to be sent.
pub trait SendBuffer {
    /// The bytes that are to be sent.
    spec fn bytes(&self) -> Seq<u8>;

    /// Whether there is a buffer at all.
    spec fn ready(&self) -> bool;

    /// That `after` is `before` without the first `count` bytes.
    spec fn dropped(before: Self, count: int, after: Self) -> bool where Self: Sized;

    /// That `after` is `before`, an empty buffer given back.
    spec fn released(before: Self, after: Self, availability: Availability) -> bool where
        Self: Sized,
    ;

    /// Whether there is nothing to be sent.
    fn is_empty(&self) -> (empty: bool)
        ensures
            empty == (self.bytes().len() == 0),
    ;

    fn has_buffer(&self) -> (ready: bool)
        ensures
            ready == self.ready(),
    ;

    /// Drops bytes that were sent, if there are so many.
    fn try_consume(&mut self, count: usize) -> (done: bool)
        where Self: Sized
        requires
            old(self).ready(),
        ensures
            done == (count <= old(self).bytes().len()),
            done ==> Self::dropped(*old(self), count as int, *final(self)) && final(self).bytes()
                == old(self).bytes().skip(count as int),
            !done ==> final(self).bytes() == old(self).bytes(),
            final(self).ready(),
    ;

    /// Gives an empty buffer back.
    fn release_if_empty(&mut self) -> (availability: Availability)
        where Self: Sized
        ensures
            Self::released(*old(self), *final(self), availability),
            final(self).bytes() == old(self).bytes(),
    ;

    /// Dropping sent bytes keeps the others, in their order.
    proof fn dropping_keeps_the_rest(before: Self, count: int, after: Self) where Self: Sized
        requires
            before.ready(),
            0 <= count <= before.bytes().len(),
            Self::dropped(before, count, after),
        ensures
            after.bytes() == before.bytes().skip(count),
            after.ready(),
    ;

    /// Giving a buffer back loses no bytes.
    proof fn releasing_keeps_bytes(before: Self, after: Self, availability: Availability) where
        Self: Sized,

        requires
            Self::released(before, after, availability),
        ensures
            after.bytes() == before.bytes(),
    ;
}

/// What encrypts.
pub trait SendProtocol: Sized {
    type Storage: SendBuffer;

    /// Whether a buffer is needed although nothing is to be written.
    spec fn wants(&self) -> bool;

    /// Whether a buffer has been handed to the wire.
    spec fn inflight(&self) -> bool;

    /// That a buffer was to be had, or was not.
    spec fn reserved(
        protocol: Self,
        before: Self::Storage,
        after: Self::Storage,
        ready: bool,
    ) -> bool;

    /// That control records were put into the buffer.
    spec fn drained(
        before: Self,
        buffer: Self::Storage,
        after: Self,
        left: Self::Storage,
    ) -> bool;

    /// That plaintext in one piece was put into the buffer.
    spec fn encrypted(
        before: Self,
        buffer: Self::Storage,
        plain: Seq<u8>,
        after: Self,
        left: Self::Storage,
        count: nat,
    ) -> bool;

    /// That plaintext in several parts, which make up `plain`, was put into the
    /// buffer.
    spec fn encrypted_parts(
        before: Self,
        buffer: Self::Storage,
        plain: Seq<u8>,
        after: Self,
        left: Self::Storage,
        count: nat,
    ) -> bool;

    /// That the connection is, or is not, to be closed once all was sent.
    spec fn closing(
        before: Self,
        buffer: Self::Storage,
        after: Self,
        left: Self::Storage,
        close: bool,
    ) -> bool;

    /// That `after` is `before`, and its buffer in flight or not.
    spec fn flown(before: Self, after: Self, inflight: bool) -> bool;

    fn try_buffer(&self, storage: &mut Self::Storage) -> (ready: bool)
        ensures
            Self::reserved(*self, *old(storage), *final(storage), ready),
            ready ==> final(storage).ready(),
            final(storage).bytes() == old(storage).bytes(),
    ;

    fn needs_buffer(&self) -> (needs: bool)
        ensures
            needs == self.wants(),
    ;

    fn encrypt(&mut self, storage: &mut Self::Storage, plain: &[u8]) -> (count: usize)
        requires
            old(storage).ready(),
        ensures
            Self::encrypted(
                *old(self),
                *old(storage),
                plain@,
                *final(self),
                *final(storage),
                count as nat,
            ),
            count <= plain@.len(),
            final(storage).ready(),
    ;

    fn encrypt_vectored(&mut self, storage: &mut Self::Storage, parts: &[&[u8]]) -> (count: usize)
        requires
            old(storage).ready(),
            record::joined(parts@).len() <= usize::MAX,
        ensures
            Self::encrypted_parts(
                *old(self),
                *old(storage),
                record::joined(parts@),
                *final(self),
                *final(storage),
                count as nat,
            ),
            count <= record::joined(parts@).len(),
            final(storage).ready(),
    ;

    fn propagate_close(&mut self, storage: &mut Self::Storage) -> (close: bool)
        requires
            old(storage).ready(),
        ensures
            Self::closing(*old(self), *old(storage), *final(self), *final(storage), close),
            final(storage).ready(),
    ;

    fn drain_to_egress(&mut self, storage: &mut Self::Storage)
        requires
            old(storage).ready(),
        ensures
            Self::drained(*old(self), *old(storage), *final(self), *final(storage)),
            final(storage).ready(),
    ;

    fn set_inflight(&mut self, inflight: bool)
        ensures
            Self::flown(*old(self), *final(self), inflight),
            final(self).inflight() == inflight,
    ;

    /// What is said to be in flight is.
    proof fn flight_is_known(before: Self, after: Self, inflight: bool)
        requires
            Self::flown(before, after, inflight),
        ensures
            after.inflight() == inflight,
    ;

    /// Looking for a buffer changes no bytes.
    proof fn reserving_keeps_bytes(
        protocol: Self,
        before: Self::Storage,
        after: Self::Storage,
        ready: bool,
    )
        requires
            Self::reserved(protocol, before, after, ready),
        ensures
            after.bytes() == before.bytes(),
            ready ==> after.ready(),
            before.ready() ==> ready,
    ;

    /// Control records are added behind the bytes that are there.
    proof fn draining_appends(
        before: Self,
        buffer: Self::Storage,
        after: Self,
        left: Self::Storage,
    )
        requires
            buffer.ready(),
            left.ready(),
            Self::drained(before, buffer, after, left),
        ensures
            buffer.bytes().is_prefix_of(left.bytes()),
            after.inflight() == before.inflight(),
    ;

    /// Records of plaintext are added behind the bytes that are there, and no more
    /// plaintext is taken than there is.
    proof fn encrypting_appends(
        before: Self,
        buffer: Self::Storage,
        plain: Seq<u8>,
        after: Self,
        left: Self::Storage,
        count: nat,
    )
        requires
            buffer.ready(),
            left.ready(),
            Self::encrypted(before, buffer, plain, after, left, count) || Self::encrypted_parts(
                before,
                buffer,
                plain,
                after,
                left,
                count,
            ),
        ensures
            buffer.bytes().is_prefix_of(left.bytes()),
            after.inflight() == before.inflight(),
            count <= plain.len(),
    ;

    /// The end of the connection is told behind the bytes that are there.
    proof fn closing_appends(
        before: Self,
        buffer: Self::Storage,
        after: Self,
        left: Self::Storage,
        close: bool,
    )
        requires
            buffer.ready(),
            left.ready(),
            Self::closing(before, buffer, after, left, close),
        ensures
            buffer.bytes().is_prefix_of(left.bytes()),
            after.inflight() == before.inflight(),
    ;
}

/// That the buffer was handed to the wire, an empty one given back.
pub open spec fn finished<P: SendProtocol>(
    before: P,
    buffer: P::Storage,
    consumed: usize,
    close: bool,
    after: P,
    left: P::Storage,
    prepared: Prepared,
) -> bool {
    exists|availability: Availability| #[trigger]
        P::Storage::released(buffer, left, availability) && P::flown(
            before,
            after,
            left.bytes().len() > 0,
        ) && prepared == (Prepared { buffered: true, consumed, close_after: close })
}

/// What there is to be written.
pub enum Outgoing {
    /// Nothing but what is owed.
    Nothing,
    /// One piece of plaintext.
    Piece(Seq<u8>),
    /// The plaintext that several parts make up.
    Parts(Seq<u8>),
}

impl Outgoing {
    pub open spec fn plain(self) -> Seq<u8> {
        match self {
            Outgoing::Nothing => Seq::empty(),
            Outgoing::Piece(plain) => plain,
            Outgoing::Parts(plain) => plain,
        }
    }
}

/// That owed control records went first, then as much of the plaintext as there was
/// room for, unless a control record is still owed; and that the buffer was then
/// handed to the wire.
pub open spec fn prepared_by<P: SendProtocol>(
    before: P,
    reserved: P::Storage,
    outgoing: Outgoing,
    mid: P,
    drained: P::Storage,
    full: P,
    filled: P::Storage,
    consumed: usize,
    close: bool,
    last: P,
    closed: P::Storage,
    after: P,
    left: P::Storage,
    prepared: Prepared,
) -> bool {
    &&& reserved.ready() && drained.ready() && filled.ready() && closed.ready()
    &&& P::drained(before, reserved, mid, drained)
    &&& match outgoing {
        Outgoing::Piece(plain) if !mid.wants() => P::encrypted(
            mid,
            drained,
            plain,
            full,
            filled,
            consumed as nat,
        ),
        Outgoing::Parts(plain) if !mid.wants() => P::encrypted_parts(
            mid,
            drained,
            plain,
            full,
            filled,
            consumed as nat,
        ),
        _ => full == mid && filled == drained && consumed == 0,
    }
    &&& P::closing(full, filled, last, closed, close)
    &&& finished(last, closed, consumed, close, after, left, prepared)
}

/// That plaintext, if any, was prepared for the wire.
pub open spec fn prepared_all<P: SendProtocol>(
    before: P,
    buffer: P::Storage,
    outgoing: Outgoing,
    after: P,
    left: P::Storage,
    prepared: Prepared,
) -> bool {
    if outgoing.plain().len() == 0 && buffer.bytes().len() == 0 && !before.wants() {
        after == before && left == buffer && prepared == Prepared::nothing()
    } else {
        exists|reserved: P::Storage, ready: bool| #[trigger]
            P::reserved(before, buffer, reserved, ready) && if !ready {
                after == before && left == reserved && prepared == Prepared::nothing()
            } else {
                exists|
                    mid: P,
                    drained: P::Storage,
                    full: P,
                    filled: P::Storage,
                    consumed: usize,
                    close: bool,
                    last: P,
                    closed: P::Storage,
                | #[trigger]
                    prepared_by(
                        before,
                        reserved,
                        outgoing,
                        mid,
                        drained,
                        full,
                        filled,
                        consumed,
                        close,
                        last,
                        closed,
                        after,
                        left,
                        prepared,
                    )
            }
    }
}

/// That sent bytes were dropped, and what was then owed was put into the room.
pub open spec fn continued_by<P: SendProtocol>(
    landed: P,
    dropped: P::Storage,
    mid: P,
    drained: P::Storage,
    close: bool,
    last: P,
    closed: P::Storage,
    after: P,
    left: P::Storage,
    prepared: Prepared,
    availability: Availability,
) -> bool {
    &&& dropped.ready() && drained.ready() && closed.ready()
    &&& P::drained(landed, dropped, mid, drained)
    &&& P::closing(mid, drained, last, closed, close)
    &&& P::Storage::released(closed, left, availability)
    &&& P::flown(last, after, left.bytes().len() > 0)
    &&& prepared == (Prepared { buffered: true, consumed: 0, close_after: close })
}

/// That `sent` bytes having left, the next ones were prepared. Bytes that never
/// were there cannot have been sent: then the connection is to be closed.
pub open spec fn continued<P: SendProtocol>(
    before: P,
    buffer: P::Storage,
    sent: nat,
    after: P,
    left: P::Storage,
    prepared: Prepared,
    availability: Availability,
) -> bool {
    exists|landed: P| #[trigger]
        P::flown(before, landed, false) && if !buffer.ready() {
            after == landed && left == buffer && prepared == Prepared::nothing() && availability
                == Availability::Unchanged
        } else if sent > buffer.bytes().len() {
            after == landed && left.bytes() == buffer.bytes() && prepared == (Prepared {
                buffered: false,
                consumed: 0,
                close_after: true,
            }) && availability == Availability::Unchanged
        } else {
            exists|
                dropped: P::Storage,
                mid: P,
                drained: P::Storage,
                close: bool,
                last: P,
                closed: P::Storage,
            | #[trigger]
                continued_by(
                    landed,
                    dropped,
                    mid,
                    drained,
                    close,
                    last,
                    closed,
                    after,
                    left,
                    prepared,
                    availability,
                ) && P::Storage::dropped(buffer, sent as int, dropped)
        }
}

/// Submits what a buffer holds, an empty one given back. A buffer is in flight
/// exactly while it holds something.
pub fn finish<P: SendProtocol>(
    protocol: &mut P,
    storage: &mut P::Storage,
    consumed: usize,
    close: bool,
) -> (prepared: Prepared)
    ensures
        finished(
            *old(protocol),
            *old(storage),
            consumed,
            close,
            *final(protocol),
            *final(storage),
            prepared,
        ),
        final(protocol).inflight() == (final(storage).bytes().len() > 0),
        final(storage).bytes() == old(storage).bytes(),
{
    let availability = storage.release_if_empty();
    let inflight = !storage.is_empty();
    protocol.set_inflight(inflight);
    assert(P::Storage::released(*old(storage), *storage, availability));
    Prepared { buffered: true, consumed, close_after: close }
}

/// Prepares plaintext for the wire, behind the control records that are owed.
pub fn prepare<P: SendProtocol>(
    protocol: &mut P,
    storage: &mut P::Storage,
    plain: &[u8],
) -> (prepared: Prepared)
    ensures
        prepared_all(
            *old(protocol),
            *old(storage),
            Outgoing::Piece(plain@),
            *final(protocol),
            *final(storage),
            prepared,
        ),
        prepared.consumed <= plain@.len(),
        prepared.buffered ==> final(protocol).inflight() == (final(storage).bytes().len() > 0),
{
    if plain.len() == 0 && storage.is_empty() && !protocol.needs_buffer() {
        return Prepared { buffered: false, consumed: 0, close_after: false };
    }
    let ready = protocol.try_buffer(storage);
    let ghost reserved = *storage;
    assert(P::reserved(*old(protocol), *old(storage), reserved, ready));
    if !ready {
        return Prepared { buffered: false, consumed: 0, close_after: false };
    }
    protocol.drain_to_egress(storage);
    let ghost mid = *protocol;
    let ghost drained = *storage;
    let consumed: usize = if protocol.needs_buffer() {
        0
    } else {
        protocol.encrypt(storage, plain)
    };
    let ghost full = *protocol;
    let ghost filled = *storage;
    let close = protocol.propagate_close(storage);
    let ghost last = *protocol;
    let ghost closed = *storage;
    let prepared = finish(protocol, storage, consumed, close);
    assert(prepared_by(
        *old(protocol),
        reserved,
        Outgoing::Piece(plain@),
        mid,
        drained,
        full,
        filled,
        consumed,
        close,
        last,
        closed,
        *protocol,
        *storage,
        prepared,
    ));
    prepared
}

/// Prepares plaintext in several parts for the wire.
pub fn prepare_vectored<P: SendProtocol>(
    protocol: &mut P,
    storage: &mut P::Storage,
    parts: &[&[u8]],
    total: usize,
) -> (prepared: Prepared)
    requires
        total == record::joined(parts@).len(),
    ensures
        prepared_all(
            *old(protocol),
            *old(storage),
            Outgoing::Parts(record::joined(parts@)),
            *final(protocol),
            *final(storage),
            prepared,
        ),
        prepared.consumed <= total,
        prepared.buffered ==> final(protocol).inflight() == (final(storage).bytes().len() > 0),
{
    if total == 0 && storage.is_empty() && !protocol.needs_buffer() {
        return Prepared { buffered: false, consumed: 0, close_after: false };
    }
    let ready = protocol.try_buffer(storage);
    let ghost reserved = *storage;
    assert(P::reserved(*old(protocol), *old(storage), reserved, ready));
    if !ready {
        return Prepared { buffered: false, consumed: 0, close_after: false };
    }
    protocol.drain_to_egress(storage);
    let ghost mid = *protocol;
    let ghost drained = *storage;
    let consumed: usize = if protocol.needs_buffer() {
        0
    } else {
        protocol.encrypt_vectored(storage, parts)
    };
    let ghost full = *protocol;
    let ghost filled = *storage;
    let close = protocol.propagate_close(storage);
    let ghost last = *protocol;
    let ghost closed = *storage;
    let prepared = finish(protocol, storage, consumed, close);
    assert(prepared_by(
        *old(protocol),
        reserved,
        Outgoing::Parts(record::joined(parts@)),
        mid,
        drained,
        full,
        filled,
        consumed,
        close,
        last,
        closed,
        *protocol,
        *storage,
        prepared,
    ));
    prepared
}

/// Submits what a buffer still holds, and the control records that are owed.
pub fn flush<P: SendProtocol>(protocol: &mut P, storage: &mut P::Storage) -> (prepared: Prepared)
    ensures
        prepared_all(
            *old(protocol),
            *old(storage),
            Outgoing::Nothing,
            *final(protocol),
            *final(storage),
            prepared,
        ),
        prepared.buffered ==> final(protocol).inflight() == (final(storage).bytes().len() > 0),
{
    if storage.is_empty() && !protocol.needs_buffer() {
        return Prepared { buffered: false, consumed: 0, close_after: false };
    }
    let ready = protocol.try_buffer(storage);
    let ghost reserved = *storage;
    assert(P::reserved(*old(protocol), *old(storage), reserved, ready));
    if !ready {
        return Prepared { buffered: false, consumed: 0, close_after: false };
    }
    protocol.drain_to_egress(storage);
    let ghost mid = *protocol;
    let ghost drained = *storage;
    let close = protocol.propagate_close(storage);
    let ghost last = *protocol;
    let ghost closed = *storage;
    let prepared = finish(protocol, storage, 0, close);
    assert(prepared_by(
        *old(protocol),
        reserved,
        Outgoing::Nothing,
        mid,
        drained,
        mid,
        drained,
        0,
        close,
        last,
        closed,
        *protocol,
        *storage,
        prepared,
    ));
    prepared
}

/// Goes on after `sent` bytes have left.
pub fn after_send<P: SendProtocol>(protocol: &mut P, storage: &mut P::Storage, sent: usize) -> (out:
    (Prepared, Availability))
    ensures
        continued(
            *old(protocol),
            *old(storage),
            sent as nat,
            *final(protocol),
            *final(storage),
            out.0,
            out.1,
        ),
        out.0.buffered ==> final(protocol).inflight() == (final(storage).bytes().len() > 0),
{
    protocol.set_inflight(false);
    let ghost landed = *protocol;
    assert(P::flown(*old(protocol), landed, false));
    if !storage.has_buffer() {
        return (
            Prepared { buffered: false, consumed: 0, close_after: false },
            Availability::Unchanged,
        );
    }
    if !storage.try_consume(sent) {
        return (
            Prepared { buffered: false, consumed: 0, close_after: true },
            Availability::Unchanged,
        );
    }
    let ghost dropped = *storage;
    protocol.drain_to_egress(storage);
    let ghost mid = *protocol;
    let ghost drained = *storage;
    let close = protocol.propagate_close(storage);
    let ghost last = *protocol;
    let ghost closed = *storage;
    let availability = storage.release_if_empty();
    let inflight = !storage.is_empty();
    protocol.set_inflight(inflight);
    let prepared = Prepared { buffered: true, consumed: 0, close_after: close };
    assert(continued_by(
        landed,
        dropped,
        mid,
        drained,
        close,
        last,
        closed,
        *protocol,
        *storage,
        prepared,
        availability,
    ));
    (prepared, availability)
}

/// Whatever is in flight was handed on for submission. After `sent` bytes have left, the
/// buffer is in flight just while it holds something, and then it is to be submitted;
/// only what cannot have been sent at all ends the connection instead. The bytes that have
/// not left stay in front of all that is added.
pub proof fn going_on_forgets_no_bytes<P: SendProtocol>(
    before: P,
    buffer: P::Storage,
    sent: nat,
    after: P,
    left: P::Storage,
    prepared: Prepared,
    availability: Availability,
)
    requires
        continued(before, buffer, sent, after, left, prepared, availability),
    ensures
        prepared.buffered <==> buffer.ready() && sent <= buffer.bytes().len(),
        after.inflight() <==> prepared.buffered && left.bytes().len() > 0,
        left.bytes().len() > 0 && buffer.ready() && sent <= buffer.bytes().len()
            ==> after.inflight(),
        buffer.ready() && sent <= buffer.bytes().len() ==> buffer.bytes().skip(
            sent as int,
        ).is_prefix_of(left.bytes()),
        buffer.ready() && sent > buffer.bytes().len() ==> prepared.close_after && left.bytes()
            == buffer.bytes(),
        !buffer.ready() ==> left == buffer && !prepared.close_after,
        prepared.consumed == 0,
{
    let landed = choose|landed: P| #[trigger]
        P::flown(before, landed, false) && if !buffer.ready() {
            after == landed && left == buffer && prepared == Prepared::nothing() && availability
                == Availability::Unchanged
        } else if sent > buffer.bytes().len() {
            after == landed && left.bytes() == buffer.bytes() && prepared == (Prepared {
                buffered: false,
                consumed: 0,
                close_after: true,
            }) && availability == Availability::Unchanged
        } else {
            exists|
                dropped: P::Storage,
                mid: P,
                drained: P::Storage,
                close: bool,
                last: P,
                closed: P::Storage,
            | #[trigger]
                continued_by(
                    landed,
                    dropped,
                    mid,
                    drained,
                    close,
                    last,
                    closed,
                    after,
                    left,
                    prepared,
                    availability,
                ) && P::Storage::dropped(buffer, sent as int, dropped)
        };
    P::flight_is_known(before, landed, false);
    if buffer.ready() && sent <= buffer.bytes().len() {
        let (dropped, mid, drained, close, last, closed) = choose|
            dropped: P::Storage,
            mid: P,
            drained: P::Storage,
            close: bool,
            last: P,
            closed: P::Storage,
        | #[trigger]
            continued_by(
                landed,
                dropped,
                mid,
                drained,
                close,
                last,
                closed,
                after,
                left,
                prepared,
                availability,
            ) && P::Storage::dropped(buffer, sent as int, dropped);
        P::flight_is_known(last, after, left.bytes().len() > 0);
        P::Storage::dropping_keeps_the_rest(buffer, sent as int, dropped);
        P::draining_appends(landed, dropped, mid, drained);
        P::closing_appends(mid, drained, last, closed, close);
        P::Storage::releasing_keeps_bytes(closed, left, availability);
    }
}

/// Preparing plaintext, or nothing, puts the buffer in flight just if it then holds
/// something, and hands it on for submission. What it held stays in front of all that is
/// added. Where it does neither, nothing has changed, and nothing was taken.
pub proof fn preparing_forgets_no_bytes<P: SendProtocol>(
    before: P,
    buffer: P::Storage,
    outgoing: Outgoing,
    after: P,
    left: P::Storage,
    prepared: Prepared,
)
    requires
        prepared_all(before, buffer, outgoing, after, left, prepared),
    ensures
        prepared.buffered ==> (after.inflight() <==> left.bytes().len() > 0),
        buffer.bytes().is_prefix_of(left.bytes()),
        prepared.consumed <= outgoing.plain().len(),
        !prepared.buffered ==> after == before && left.bytes() == buffer.bytes()
            && prepared.consumed == 0 && !prepared.close_after,
        buffer.ready() && (buffer.bytes().len() > 0 || before.wants() || outgoing.plain().len() > 0)
            ==> prepared.buffered,
{
    if !(outgoing.plain().len() == 0 && buffer.bytes().len() == 0 && !before.wants()) {
        let (reserved, ready) = choose|reserved: P::Storage, ready: bool| #[trigger]
            P::reserved(before, buffer, reserved, ready) && if !ready {
                after == before && left == reserved && prepared == Prepared::nothing()
            } else {
                exists|
                    mid: P,
                    drained: P::Storage,
                    full: P,
                    filled: P::Storage,
                    consumed: usize,
                    close: bool,
                    last: P,
                    closed: P::Storage,
                | #[trigger]
                    prepared_by(
                        before,
                        reserved,
                        outgoing,
                        mid,
                        drained,
                        full,
                        filled,
                        consumed,
                        close,
                        last,
                        closed,
                        after,
                        left,
                        prepared,
                    )
            };
        P::reserving_keeps_bytes(before, buffer, reserved, ready);
        if ready {
            let (mid, drained, full, filled, consumed, close, last, closed) = choose|
                mid: P,
                drained: P::Storage,
                full: P,
                filled: P::Storage,
                consumed: usize,
                close: bool,
                last: P,
                closed: P::Storage,
            | #[trigger]
                prepared_by(
                    before,
                    reserved,
                    outgoing,
                    mid,
                    drained,
                    full,
                    filled,
                    consumed,
                    close,
                    last,
                    closed,
                    after,
                    left,
                    prepared,
                );
            P::flight_is_known(last, after, left.bytes().len() > 0);
            P::draining_appends(before, reserved, mid, drained);
            if outgoing !is Nothing && !mid.wants() {
                P::encrypting_appends(
                    mid,
                    drained,
                    outgoing.plain(),
                    full,
                    filled,
                    consumed as nat,
                );
            }
            P::closing_appends(full, filled, last, closed, close);
            let availability = choose|availability: Availability| #[trigger]
                P::Storage::released(closed, left, availability) && P::flown(
                    last,
                    after,
                    left.bytes().len() > 0,
                ) && prepared == (Prepared { buffered: true, consumed, close_after: close });
            P::Storage::releasing_keeps_bytes(closed, left, availability);
        }
    }
}

} // verus!
