//! Reading records where they stand.

use crate::error::Error;
use crate::record;
use crate::staging::{HEADER_LEN, MAX_PLAINTEXT_BODY, MAX_TLS_RECORD};
use crate::state::api::Status;
use crate::state::events::RecordFailure;
use crate::state::plain::{self, PlainChunks, PlainLayout, CHUNK_APPLICATION, CHUNK_SKIP};
use crate::state::records::{self, Control, Link, RecordAction, RecordFrame};
use crate::state::sessions::Peer;
use crate::state::status::Read;
use crate::state::{self, traffic, State, StateView};
use shin::wire::record::ContentType;
use vstd::prelude::*;

verus! {

/// What became of wire bytes that were read where they stand.
pub struct WireRead<'a> {
    pub(crate) plain: PlainChunks<'a>,
    pub(crate) status: Read,
}

impl<'a> WireRead<'a> {
    pub closed spec fn outcome(self) -> Read {
        self.status
    }

    pub closed spec fn data(self) -> PlainChunks<'a> {
        self.plain
    }

    pub fn status(&self) -> (status: Read)
        ensures
            status == self.outcome(),
    {
        self.status
    }

    pub fn into_plain(self) -> (plain: PlainChunks<'a>)
        ensures
            plain == self.data(),
    {
        self.plain
    }

    pub fn fail(&mut self)
        ensures
            final(self).outcome() == Read::Failed,
            final(self).data() == old(self).data(),
    {
        self.status = Read::Failed;
    }
}

/// The course of a read: the connection before and after each record, the bytes
/// that were left where it stood, and what came of it.
pub struct Trace<S> {
    pub links: Seq<Link<S>>,
    pub lefts: Seq<Seq<u8>>,
    pub actions: Seq<Result<RecordAction, RecordFailure>>,
}

/// Where the record number `n` of `input` stands.
pub open spec fn record_at(input: Seq<u8>, n: nat) -> int
    decreases n,
{
    if n == 0 {
        0
    } else {
        let at = record_at(input, (n - 1) as nat);
        at + record::framed_len(input.skip(at))
    }
}

/// Whether reading goes on after a record.
pub open spec fn proceeds(action: Result<RecordAction, RecordFailure>) -> bool {
    match action {
        Ok(RecordAction::Application(_)) => true,
        Ok(RecordAction::Control(control)) => control == Control::Continue,
        Err(_) => false,
    }
}

/// A record that was opened where it stood, marked for what it holds. One that failed
/// has no mark.
pub open spec fn marked(left: Seq<u8>, action: Result<RecordAction, RecordFailure>) -> Seq<u8> {
    match action {
        Ok(RecordAction::Application(len)) => seq![
            CHUNK_APPLICATION,
            (len / 256) as u8,
            (len % 256) as u8,
        ] + left.skip(3),
        Ok(RecordAction::Control(_)) => seq![CHUNK_SKIP, 0u8, 0u8] + left.skip(3),
        Err(_) => left,
    }
}

impl<S: Peer> Trace<S> {
    /// That record number `i` was handled as the trace says.
    pub open spec fn handles(self, input: Seq<u8>, i: int) -> bool {
        let at = record_at(input, i as nat);
        let end = record_at(input, (i + 1) as nat);
        &&& !state::closed(self.links[i].core.phase)
        &&& 0 <= at
        &&& at + HEADER_LEN <= end <= input.len()
        &&& end <= at + MAX_TLS_RECORD
        &&& self.lefts[i].len() == end - at
        &&& records::handled(
            self.links[i],
            input.subrange(at, end),
            self.links[i + 1],
            self.lefts[i],
            self.actions[i],
        )
    }

    /// That this is the course of a read of `input` by `before`, one record after
    /// the other for as long as it goes on.
    pub open spec fn follows(self, before: Link<S>, input: Seq<u8>) -> bool {
        &&& self.links.len() == self.actions.len() + 1
        &&& self.lefts.len() == self.actions.len()
        &&& self.links[0] == before
        &&& forall|i: int| 0 <= i < self.actions.len() ==> #[trigger] self.handles(input, i)
        &&& forall|i: int| 0 <= i < self.actions.len() - 1 ==> proceeds(#[trigger] self.actions[i])
    }

    /// The application data of the first `n` records, record by record.
    pub open spec fn delivered(self, n: nat) -> Seq<Seq<u8>>
        decreases n,
    {
        if n == 0 {
            Seq::empty()
        } else {
            let before = self.delivered((n - 1) as nat);
            match self.actions[n - 1] {
                Ok(RecordAction::Application(len)) if len > 0 => before.push(
                    self.lefts[n - 1].subrange(HEADER_LEN as int, HEADER_LEN + len),
                ),
                _ => before,
            }
        }
    }

    /// All application data, record by record.
    pub open spec fn data(self) -> Seq<Seq<u8>> {
        self.delivered(self.actions.len())
    }

    /// That record number `i` was left in `output` as it was opened, and marked.
    pub open spec fn leaves_at(self, input: Seq<u8>, output: Seq<u8>, i: int) -> bool {
        output.subrange(record_at(input, i as nat), record_at(input, (i + 1) as nat)) == marked(
            self.lefts[i],
            self.actions[i],
        )
    }

    /// That a read with this course leaves `output` where `input` stood: each record that
    /// was handled is opened and marked, and what follows is as it was.
    pub open spec fn leaves(self, input: Seq<u8>, output: Seq<u8>) -> bool {
        let end = record_at(input, self.actions.len());
        &&& output.len() == input.len()
        &&& output.skip(end) == input.skip(end)
        &&& forall|i: int|
            0 <= i < self.actions.len() ==> #[trigger] self.leaves_at(input, output, i)
    }

    /// That a read with this course ends with `after` and `status`: at the first
    /// record that does not let it go on, at the end of the bytes, when the
    /// connection is closed, or at bytes that are no whole record. Those are kept
    /// for later.
    pub open spec fn ends(
        self,
        before: StateView<S>,
        input: Seq<u8>,
        after: StateView<S>,
        status: Read,
    ) -> bool {
        let n = self.actions.len();
        let at = record_at(input, n);
        let rest = input.skip(at);
        &&& after.link == self.links[n as int]
        &&& if n > 0 && !proceeds(self.actions[n - 1]) {
            after.received == before.received && status == match self.actions[n - 1] {
                Err(_) => Read::Failed,
                Ok(_) => Read::Stop,
            }
        } else if state::closed(self.links[n as int].core.phase) || at >= input.len() {
            after.received == before.received && status == if n == 0 && state::closed(
                before.link.core.phase,
            ) {
                Read::Stop
            } else {
                Read::Continue
            }
        } else {
            match RecordFrame::completed(rest) {
                Err(_) => after.received == before.received && status == Read::Failed,
                Ok(None) => exists|acquired: bool|
                    {
                        let (received, count) = #[trigger] before.received.append(rest, acquired);
                        after.received == received && status == if count == Some(rest.len()) {
                            Read::Stop
                        } else {
                            Read::Failed
                        }
                    },
                Ok(Some(_)) => false,
            }
        }
    }
}

/// That reading `input` where it stands, in this course, leaves `after`, the application
/// data `data`, `status`, and the bytes `opened`.
pub open spec fn read_by<S: Peer>(
    trace: Trace<S>,
    before: StateView<S>,
    input: Seq<u8>,
    after: StateView<S>,
    data: Seq<Seq<u8>>,
    status: Read,
    opened: Seq<u8>,
) -> bool {
    &&& trace.follows(before.link, input)
    &&& trace.ends(before, input, after, status)
    &&& trace.data() == data
    &&& trace.leaves(input, opened)
}

/// That reading `input` where it stands can leave `after`, the application data
/// `data`, `status`, and the bytes `opened`.
pub open spec fn read_through<S: Peer>(
    before: StateView<S>,
    input: Seq<u8>,
    after: StateView<S>,
    data: Seq<Seq<u8>>,
    status: Read,
    opened: Seq<u8>,
) -> bool {
    exists|trace: Trace<S>| #[trigger]
        read_by(trace, before, input, after, data, status, opened)
}

/// The pieces that a read delivers of its application data.
pub open spec fn delivered_in(data: Seq<Seq<u8>>, limit: Option<int>) -> Seq<Seq<u8>> {
    match limit {
        Some(limit) => plain::packed(data, limit),
        None => data,
    }
}

/// Records come one after the other.
proof fn records_in_order<S: Peer>(
    trace: Trace<S>,
    before: Link<S>,
    input: Seq<u8>,
    i: nat,
    j: nat,
)
    requires
        trace.follows(before, input),
        i <= j <= trace.actions.len(),
    ensures
        0 <= record_at(input, i) <= record_at(input, j) <= input.len(),
    decreases j,
{
    if j > 0 {
        assert(trace.handles(input, j - 1));
        if i < j {
            records_in_order(trace, before, input, i, (j - 1) as nat);
        } else {
            records_in_order(trace, before, input, (i - 1) as nat, (j - 1) as nat);
        }
    }
}

/// One more record behind those that were handled.
proof fn leaves_push<S: Peer>(
    trace: Trace<S>,
    longer: Trace<S>,
    before: Link<S>,
    input: Seq<u8>,
    prior: Seq<u8>,
    now: Seq<u8>,
)
    requires
        longer.follows(before, input),
        trace.actions.len() + 1 == longer.actions.len(),
        trace.lefts.len() == trace.actions.len(),
        trace.actions == longer.actions.drop_last(),
        trace.lefts == longer.lefts.drop_last(),
        trace.leaves(input, prior),
        now.len() == prior.len(),
        forall|i: int|
            0 <= i < now.len() && !(record_at(input, trace.actions.len()) <= i < record_at(
                input,
                longer.actions.len(),
            )) ==> #[trigger] now[i] == prior[i],
        longer.leaves_at(input, now, trace.actions.len() as int),
    ensures
        longer.leaves(input, now),
{
    let n = trace.actions.len();
    let at = record_at(input, n);
    let end = record_at(input, n + 1);
    records_in_order(longer, before, input, n, n + 1);
    assert forall|i: int| 0 <= i < longer.actions.len() implies #[trigger] longer.leaves_at(
        input,
        now,
        i,
    ) by {
        if i < n {
            assert(trace.leaves_at(input, prior, i));
            records_in_order(longer, before, input, i as nat, (i + 1) as nat);
            records_in_order(longer, before, input, (i + 1) as nat, n);
            let from = record_at(input, i as nat);
            let to = record_at(input, (i + 1) as nat);
            assert(now.subrange(from, to) =~= prior.subrange(from, to));
        }
    }
    assert forall|i: int| end <= i < now.len() implies now[i] == input[i] by {
        assert(prior.skip(at)[i - at] == input.skip(at)[i - at]);
    }
    assert(now.skip(end) =~= input.skip(end));
}

/// A record that is handled keeps its header.
proof fn handled_keeps_header<S: Peer>(
    before: Link<S>,
    record: Seq<u8>,
    after: Link<S>,
    left: Seq<u8>,
    result: Result<RecordAction, RecordFailure>,
)
    requires
        records::handled(before, record, after, left, result),
        record.len() >= HEADER_LEN,
        left.len() == record.len(),
    ensures
        left.take(HEADER_LEN as int) == record.take(HEADER_LEN as int),
        result matches Ok(RecordAction::Application(len)) ==> HEADER_LEN + len <= left.len() && len
            <= MAX_PLAINTEXT_BODY,
{
}

/// The courses of two reads that differ only behind the records handled so far.
proof fn trace_push<S: Peer>(
    trace: Trace<S>,
    before: Link<S>,
    input: Seq<u8>,
    link: Link<S>,
    left: Seq<u8>,
    action: Result<RecordAction, RecordFailure>,
) -> (longer: Trace<S>)
    requires
        trace.follows(before, input),
        trace.actions.len() > 0 ==> proceeds(trace.actions.last()),
        longer_handles(trace, input, link, left, action),
    ensures
        longer == (Trace {
            links: trace.links.push(link),
            lefts: trace.lefts.push(left),
            actions: trace.actions.push(action),
        }),
        longer.follows(before, input),
        longer.delivered(trace.actions.len()) == trace.data(),
{
    let longer = Trace {
        links: trace.links.push(link),
        lefts: trace.lefts.push(left),
        actions: trace.actions.push(action),
    };
    let n = trace.actions.len();
    assert forall|i: int| 0 <= i < longer.actions.len() implies #[trigger] longer.handles(
        input,
        i,
    ) by {
        if i < n {
            assert(trace.handles(input, i));
            assert(longer.links[i] == trace.links[i] && longer.links[i + 1] == trace.links[i + 1]);
        } else {
            assert(longer.links[i] == trace.links[i]);
        }
    }
    delivered_same(trace, longer, n);
    longer
}

/// That one more record can be put behind a course.
spec fn longer_handles<S: Peer>(
    trace: Trace<S>,
    input: Seq<u8>,
    link: Link<S>,
    left: Seq<u8>,
    action: Result<RecordAction, RecordFailure>,
) -> bool {
    let n = trace.actions.len();
    let at = record_at(input, n);
    let end = record_at(input, n + 1);
    &&& !state::closed(trace.links[n as int].core.phase)
    &&& 0 <= at
    &&& at + HEADER_LEN <= end <= input.len()
    &&& end <= at + MAX_TLS_RECORD
    &&& left.len() == end - at
    &&& records::handled(trace.links[n as int], input.subrange(at, end), link, left, action)
}

proof fn delivered_same<S: Peer>(a: Trace<S>, b: Trace<S>, n: nat)
    requires
        n <= a.actions.len(),
        n <= b.actions.len(),
        a.lefts.len() == a.actions.len(),
        b.lefts.len() == b.actions.len(),
        forall|i: int| 0 <= i < n ==> #[trigger] a.actions[i] == b.actions[i],
        forall|i: int| 0 <= i < n ==> #[trigger] a.lefts[i] == b.lefts[i],
    ensures
        a.delivered(n) == b.delivered(n),
    decreases n,
{
    if n > 0 {
        delivered_same(a, b, (n - 1) as nat);
        assert(a.actions[n - 1] == b.actions[n - 1]);
        assert(a.lefts[n - 1] == b.lefts[n - 1]);
    }
}

/// One more marked record behind a run of them.
proof fn framed_push(before: Seq<u8>, after: Seq<u8>, at: int, end: int)
    requires
        plain::framed(before, 0, at),
        0 <= at <= end <= after.len(),
        forall|i: int| 0 <= i < at ==> before[i] == after[i],
        plain::next(after, at) == end,
        after[at] == CHUNK_APPLICATION ==> plain::plain_len(after, at) <= plain::body_len(after, at),
    ensures
        plain::framed(after, 0, end),
        plain::chunks(after, 0, end) == if plain::filled(after, at) {
            plain::chunks(before, 0, at).push(plain::plain_at(after, at))
        } else {
            plain::chunks(before, 0, at)
        },
{
    plain::framed_local(before, after, 0, at);
    assert(plain::framed(after, end, end));
    assert(plain::framed(after, at, end));
    plain::framed_concat(after, 0, at, end);
    assert(plain::chunks(after, end, end) =~= Seq::<Seq<u8>>::empty());
    let front = plain::chunks(before, 0, at);
    if plain::filled(after, at) {
        let piece = plain::plain_at(after, at);
        assert(plain::chunks(after, at, end) =~= seq![piece]);
        assert(front + seq![piece] =~= front.push(piece));
    } else {
        assert(plain::chunks(after, at, end) =~= Seq::<Seq<u8>>::empty());
        assert(front + Seq::<Seq<u8>>::empty() =~= front);
    }
}

/// One more piece behind the others.
pub(crate) proof fn whole_push(pieces: Seq<Seq<u8>>, piece: Seq<u8>)
    ensures
        plain::whole(pieces.push(piece)) == plain::whole(pieces) + piece,
{
    assert(pieces.push(piece) =~= pieces + seq![piece]);
    plain::whole_concat(pieces, seq![piece]);
    plain::whole_one(piece);
}

/// Marks the record at `at` for what it holds: the plaintext follows the header.
fn mark(bytes: &mut [u8], at: usize, kind: u8, len: usize)
    requires
        at + HEADER_LEN <= old(bytes)@.len(),
        len <= MAX_PLAINTEXT_BODY,
    ensures
        final(bytes)@.len() == old(bytes)@.len(),
        final(bytes)@[at as int] == kind,
        plain::plain_len(final(bytes)@, at as int) == len,
        final(bytes)@[at + 1] == (len / 256) as u8,
        final(bytes)@[at + 2] == (len % 256) as u8,
        forall|i: int|
            0 <= i < old(bytes)@.len() && !(at <= i < at + 3) ==> #[trigger] final(bytes)@[i]
                == old(bytes)@[i],
{
    bytes[at] = kind;
    bytes[at + 1] = (len / 256) as u8;
    bytes[at + 2] = (len % 256) as u8;
}

/// A limit on how many pieces there may be, as a number.
pub open spec fn pieces_at_most(limit: Option<usize>) -> Option<int> {
    match limit {
        Some(limit) => Some(limit as int),
        None => None,
    }
}

impl<'d, S: Peer> State<'d, S> {
    /// Reads wire bytes where they stand: opens each record in place and marks
    /// where its application data is. The data is then in at most `limit` pieces,
    /// if there is a limit.
    pub fn read_in_place_with_limit<'a>(
        &mut self,
        bytes: &'a mut [u8],
        limit: Option<usize>,
    ) -> (read: WireRead<'a>)
        requires
            old(self)@.received.bytes().len() == 0,
            limit matches Some(limit) ==> limit > 0,
        ensures
            read.data().wf(),
            read.data().fresh(),
            read.data().source() == final(bytes)@,
            final(bytes)@.len() == old(bytes)@.len(),
            exists|data: Seq<Seq<u8>>, opened: Seq<u8>| #[trigger]
                read_through(old(self)@, old(bytes)@, final(self)@, data, read.outcome(), opened)
                    && read.data().rest() == delivered_in(data, pieces_at_most(limit))
                    && plain::repacked(opened, data, pieces_at_most(limit), final(bytes)@),
    {
        let ghost input = bytes@;
        let ghost before = self@;
        let ghost mut trace = Trace {
            links: seq![self@.link],
            lefts: Seq::empty(),
            actions: Seq::empty(),
        };
        let size: usize = bytes.len();
        let mut offset: usize = 0;
        let mut chunks: usize = 0;
        let mut plain_len: usize = 0;
        let mut status = if self.is_closed() {
            Read::Stop
        } else {
            Read::Continue
        };
        let mut done: bool = false;
        proof {
            assert(plain::framed(input, 0, 0));
            assert(plain::chunks(input, 0, 0) =~= Seq::<Seq<u8>>::empty());
            assert(plain::whole(Seq::<Seq<u8>>::empty()) =~= Seq::<u8>::empty());
        }
        while !done && offset < size && !self.is_closed()
            invariant
                size == bytes@.len() == input.len(),
                before == old(self)@,
                trace.follows(before.link, input),
                offset <= size,
                chunks <= offset,
                plain_len <= offset,
                forall|i: int| offset <= i < size && !done ==> #[trigger] bytes@[i] == input[i],
                plain::framed(bytes@, 0, offset as int),
                plain::chunks(bytes@, 0, offset as int) == trace.data(),
                chunks == trace.data().len(),
                plain_len == plain::whole(trace.data()).len(),
                trace.leaves(input, bytes@),
                !done ==> {
                    &&& record_at(input, trace.actions.len()) == offset
                    &&& trace.actions.len() > 0 ==> proceeds(trace.actions.last())
                    &&& self@.received == before.received
                    &&& self@.link == trace.links.last()
                    &&& status == if trace.actions.len() == 0 && state::closed(
                        before.link.core.phase,
                    ) {
                        Read::Stop
                    } else {
                        Read::Continue
                    }
                },
                done ==> trace.ends(before, input, self@, status),
            decreases
                if done {
                    0int
                } else {
                    size - offset + 1
                },
        {
            let rest = vstd::slice::slice_subrange(&*bytes, offset, size);
            assert(rest@ =~= input.skip(offset as int));
            let total: usize = match RecordFrame::complete(rest) {
                Ok(Some(frame)) => frame.len(),
                Ok(None) => {
                    let appended = self.buffers.append_recv(rest);
                    status = match appended {
                        Ok(count) => if count == size - offset {
                            Read::Stop
                        } else {
                            Read::Failed
                        },
                        Err(_) => Read::Failed,
                    };
                    proof {
                        let acquired = choose|acquired: bool|
                            {
                                let (after, expected) = #[trigger] before.received.append(
                                    rest@,
                                    acquired,
                                );
                                &&& self@.received == after
                                &&& match (appended, expected) {
                                    (Ok(count), Some(total)) => count == total,
                                    (Err(_), None) => true,
                                    _ => false,
                                }
                            };
                        assert(trace.ends(before, input, self@, status)) by {
                            assert(before.received.append(
                                input.skip(record_at(input, trace.actions.len())),
                                acquired,
                            ).0 == self@.received);
                        }
                    }
                    done = true;
                    continue ;
                },
                Err(_) => {
                    status = Read::Failed;
                    done = true;
                    continue ;
                },
            };
            let ghost n = trace.actions.len();
            let ghost prior = bytes@;
            let ghost at = offset as int;
            let ghost end = offset + total;
            assert(record_at(input, n + 1) == end);
            assert(prior.subrange(at, end) =~= input.subrange(at, end));
            let handled = self.record.handle(bytes, offset, offset + total);
            let ghost left = bytes@.subrange(at, end);
            let ghost old_data = trace.data();
            let ghost mut shorter = trace;
            proof {
                handled_keeps_header(
                    trace.links.last(),
                    input.subrange(at, end),
                    self@.link,
                    left,
                    handled,
                );
                let longer = trace_push(trace, before.link, input, self@.link, left, handled);
                assert(longer.actions.drop_last() =~= trace.actions);
                assert(longer.lefts.drop_last() =~= trace.lefts);
                shorter = trace;
                trace = longer;
                assert(left.take(HEADER_LEN as int)[3] == input.subrange(at, end).take(
                    HEADER_LEN as int,
                )[3]);
                assert(left.take(HEADER_LEN as int)[4] == input.subrange(at, end).take(
                    HEADER_LEN as int,
                )[4]);
                assert(bytes@[at + 3] == input[at + 3] && bytes@[at + 4] == input[at + 4]);
                assert(input.skip(at)[3] == input[at + 3] && input.skip(at)[4] == input[at + 4]);
            }
            match handled {
                Err(_) => {
                    proof {
                        plain::framed_local(prior, bytes@, 0, at);
                        assert(trace.data() == old_data);
                        assert(trace.leaves_at(input, bytes@, n as int));
                        leaves_push(shorter, trace, before.link, input, prior, bytes@);
                    }
                    status = Read::Failed;
                    done = true;
                },
                Ok(action) => {
                    let ghost opened = bytes@;
                    match action {
                        RecordAction::Application(len) => {
                            mark(bytes, offset, CHUNK_APPLICATION, len);
                            proof {
                                let piece = plain::plain_at(bytes@, at);
                                assert(piece =~= left.subrange(
                                    HEADER_LEN as int,
                                    HEADER_LEN + len,
                                ));
                                framed_push(prior, bytes@, at, end);
                                whole_push(old_data, piece);
                                assert(bytes@.subrange(at, end) =~= marked(left, handled));
                                leaves_push(shorter, trace, before.link, input, prior, bytes@);
                            }
                            if len != 0 {
                                chunks = chunks + 1;
                            }
                            plain_len = plain_len + len;
                            status = Read::Continue;
                        },
                        RecordAction::Control(control) => {
                            mark(bytes, offset, CHUNK_SKIP, 0);
                            proof {
                                framed_push(prior, bytes@, at, end);
                                assert(bytes@.subrange(at, end) =~= marked(left, handled));
                                leaves_push(shorter, trace, before.link, input, prior, bytes@);
                            }
                            status = control.status();
                        },
                    }
                    offset = offset + total;
                    if status != Read::Continue {
                        done = true;
                    }
                },
            }
        }
        proof {
            assert(trace.ends(before, input, self@, status));
            assert(read_by(trace, before, input, self@, trace.data(), status, bytes@));
            assert(read_through(before, input, self@, trace.data(), status, bytes@));
        }
        let layout = PlainLayout::segmented(offset, chunks, plain_len);
        assert(layout.pieces(bytes@) == trace.data());
        let layout = match limit {
            Some(limit) => layout.bounded(bytes, limit),
            None => layout,
        };
        WireRead { plain: PlainChunks::new(bytes, layout), status }
    }

    /// Reads wire bytes where they stand.
    pub fn read_in_place<'a>(&mut self, bytes: &'a mut [u8]) -> (read: WireRead<'a>)
        requires
            old(self)@.received.bytes().len() == 0,
        ensures
            read.data().wf(),
            read.data().fresh(),
            read.data().source() == final(bytes)@,
            final(bytes)@.len() == old(bytes)@.len(),
            read_through(
                old(self)@,
                old(bytes)@,
                final(self)@,
                read.data().rest(),
                read.outcome(),
                final(bytes)@,
            ),
    {
        self.read_in_place_with_limit(bytes, None)
    }

    /// Reads wire bytes where they stand, and leaves their application data in at
    /// most `limit` pieces.
    pub fn read_batch_in_place<'a>(&mut self, bytes: &'a mut [u8], limit: usize) -> (read: WireRead<
        'a,
    >)
        requires
            old(self)@.received.bytes().len() == 0,
            limit > 0,
        ensures
            read.data().wf(),
            read.data().fresh(),
            read.data().source() == final(bytes)@,
            read.data().rest().len() <= limit,
            final(bytes)@.len() == old(bytes)@.len(),
            exists|data: Seq<Seq<u8>>, opened: Seq<u8>| #[trigger]
                read_through(old(self)@, old(bytes)@, final(self)@, data, read.outcome(), opened)
                    && read.data().rest() == plain::packed(data, limit as int)
                    && plain::repacked(opened, data, Some(limit as int), final(bytes)@),
    {
        let read = self.read_in_place_with_limit(bytes, Some(limit));
        proof {
            let (data, opened) = choose|data: Seq<Seq<u8>>, opened: Seq<u8>| #[trigger]
                read_through(old(self)@, old(bytes)@, self@, data, read.outcome(), opened)
                    && read.data().rest() == plain::packed(data, limit as int);
            plain::packing_keeps_plaintext(data, limit as int);
        }
        read
    }

    /// Reads wire bytes where they stand, and sends what is then owed to the peer.
    pub fn read_tcp_in_place<'a>(&mut self, bytes: &'a mut [u8]) -> (read: WireRead<'a>)
        requires
            old(self)@.received.bytes().len() == 0,
        ensures
            read.data().wf(),
            read.data().fresh(),
            read.data().source() == final(bytes)@,
            final(bytes)@.len() == old(bytes)@.len(),
            exists|mid: StateView<S>, status: Read, drain: Result<(), Error>|
                {
                    &&& #[trigger] read_through(
                        old(self)@,
                        old(bytes)@,
                        mid,
                        read.data().rest(),
                        status,
                        final(bytes)@,
                    )
                    &&& #[trigger] state::drained_own(mid.link, final(self)@.link, drain)
                    &&& final(self)@.received == mid.received
                    &&& read.outcome() == if drain is Ok {
                        status
                    } else {
                        Read::Failed
                    }
                },
    {
        let mut read = self.read_in_place(bytes);
        let ghost mid = self@;
        let ghost status = read.outcome();
        let drain = self.drain_pending_control();
        if drain.is_err() {
            read.fail();
        }
        assert(state::drained_own(mid.link, self@.link, drain));
        read
    }
}

/// Opening one record of application data moves the reading key on, and nothing
/// else of the keys or the phase.
pub(crate) proof fn carried_record<S: Peer>(
    before: Link<S>,
    record: Seq<u8>,
    after: Link<S>,
    left: Seq<u8>,
    action: Result<RecordAction, RecordFailure>,
    body: Seq<u8>,
)
    requires
        traffic::reading_key(before.core.traffic, before.core.phase) is Some,
        ({
            let (key, _) = traffic::reading_key(before.core.traffic, before.core.phase)->0;
            key.opens(record, ContentType::ApplicationData, body)
        }),
        record.len() >= HEADER_LEN,
        record[0] == records::REC_AEAD,
        records::handled(before, record, after, left, action),
    ensures
        after.core.phase == before.core.phase,
        ({
            let (key, first) = traffic::reading_key(before.core.traffic, before.core.phase)->0;
            traffic::reading_key(after.core.traffic, after.core.phase) == Some((key.next(), first))
        }),
        action matches Ok(RecordAction::Application(len)) && len == body.len(),
        left.subrange(HEADER_LEN as int, HEADER_LEN + body.len()) == body,
{
}

/// What a read of a carried stream has come to after `i` records.
proof fn carried_so_far<S: Peer>(
    trace: Trace<S>,
    before: Link<S>,
    input: Seq<u8>,
    plain: Seq<u8>,
    end: record::OpenKey,
    i: nat,
)
    requires
        trace.follows(before, input),
        i <= trace.actions.len(),
        traffic::reading_key(before.core.traffic, before.core.phase) is Some,
        ({
            let (key, _) = traffic::reading_key(before.core.traffic, before.core.phase)->0;
            traffic::carries(key, input, plain, end)
        }),
    ensures
        trace.links[i as int].core.phase == before.core.phase,
        traffic::reading_key(
            trace.links[i as int].core.traffic,
            trace.links[i as int].core.phase,
        ) is Some,
        0 <= record_at(input, i) <= input.len(),
        plain::whole(trace.delivered(i)).is_prefix_of(plain),
        ({
            let (key, _) = traffic::reading_key(
                trace.links[i as int].core.traffic,
                trace.links[i as int].core.phase,
            )->0;
            traffic::carries(
                key,
                input.skip(record_at(input, i)),
                plain.skip(plain::whole(trace.delivered(i)).len() as int),
                end,
            )
        }),
        i > 0 ==> proceeds(trace.actions[i - 1]),
    decreases i,
{
    if i == 0 {
        assert(input.skip(0) =~= input);
        assert(plain::whole(Seq::<Seq<u8>>::empty()) =~= Seq::<u8>::empty());
        assert(plain.skip(0) =~= plain);
    } else {
        let p = (i - 1) as nat;
        carried_so_far(trace, before, input, plain, end, p);
        let link = trace.links[p as int];
        let (key, _) = traffic::reading_key(link.core.traffic, link.core.phase)->0;
        let at = record_at(input, p);
        let next = record_at(input, i);
        let stream = input.skip(at);
        let done = plain::whole(trace.delivered(p));
        let rest = plain.skip(done.len() as int);
        assert(trace.handles(input, p as int));
        assert(stream.len() > 0);
        let total = record::framed_len(stream) as int;
        let opened = key.open(stream.take(total))->Ok_0->0;
        let body = opened.1;
        assert(input.subrange(at, next) =~= stream.take(total));
        assert(stream.take(total)[0] == stream[0]);
        carried_record(
            link,
            input.subrange(at, next),
            trace.links[i as int],
            trace.lefts[p as int],
            trace.actions[p as int],
            body,
        );
        assert(stream.skip(total) =~= input.skip(next));
        if body.len() > 0 {
            whole_push(trace.delivered(p), body);
            assert(plain::whole(trace.delivered(i)) == done + body);
        } else {
            assert(done + body =~= done);
            assert(plain::whole(trace.delivered(i)) == done + body);
        }
        assert(done + body =~= plain.take((done.len() + body.len()) as int));
        assert(rest.skip(body.len() as int) =~= plain.skip((done + body).len() as int));
    }
}

/// A connection that is in step with the writer reads back exactly what was
/// written: from a run of records that carries `plain`, read where it stands, it
/// gets `plain`, all of it, and is then in step with the writer again.
pub proof fn reading_gives_back_what_was_written<S: Peer>(
    before: StateView<S>,
    input: Seq<u8>,
    after: StateView<S>,
    data: Seq<Seq<u8>>,
    status: Read,
    opened: Seq<u8>,
    plain: Seq<u8>,
    end: record::OpenKey,
)
    requires
        read_through(before, input, after, data, status, opened),
        !state::closed(before.link.core.phase),
        traffic::reading_key(before.link.core.traffic, before.link.core.phase) is Some,
        ({
            let (key, _) = traffic::reading_key(
                before.link.core.traffic,
                before.link.core.phase,
            )->0;
            traffic::carries(key, input, plain, end)
        }),
    ensures
        plain::whole(data) == plain,
        status == Read::Continue,
        after.received == before.received,
        after.link.core.phase == before.link.core.phase,
        ({
            let (_, first) = traffic::reading_key(
                before.link.core.traffic,
                before.link.core.phase,
            )->0;
            traffic::reading_key(after.link.core.traffic, after.link.core.phase) == Some(
                (end, first),
            )
        }),
{
    let trace = choose|trace: Trace<S>| #[trigger]
        read_by(trace, before, input, after, data, status, opened);
    let n = trace.actions.len();
    carried_so_far(trace, before.link, input, plain, end, n);
    carried_flag(trace, before.link, input, plain, end, n);
    let at = record_at(input, n);
    let rest = plain.skip(plain::whole(data).len() as int);
    if at < input.len() {
        let stream = input.skip(at);
        assert(RecordFrame::completed(stream) is Ok);
        assert(false);
    }
    assert(input.skip(at).len() == 0);
    assert(rest.len() == 0);
    assert(plain::whole(data) =~= plain);
}

/// A limit changes only how the application data is cut. Two reads of the same bytes by
/// the same connection that go the same course, which is to say that the handshake engine
/// answers them alike, deliver the same plaintext, the limited one in at most `limit`
/// pieces, and leave the connection alike. Where the pool is never without a buffer, they
/// end alike too.
pub proof fn limit_changes_only_the_cut<S: Peer>(
    trace: Trace<S>,
    before: StateView<S>,
    input: Seq<u8>,
    free: (StateView<S>, Seq<Seq<u8>>, Read, Seq<u8>),
    limited: (StateView<S>, Seq<Seq<u8>>, Read, Seq<u8>),
    limit: int,
)
    requires
        limit > 0,
        read_by(trace, before, input, free.0, free.1, free.2, free.3),
        read_by(trace, before, input, limited.0, limited.1, limited.2, limited.3),
    ensures
        delivered_in(limited.1, Some(limit)).len() <= limit,
        plain::whole(delivered_in(limited.1, Some(limit))) == plain::whole(
            delivered_in(free.1, None),
        ),
        limited.0.link == free.0.link,
        !before.received.lacks ==> limited.0 == free.0 && limited.2 == free.2,
{
    plain::packing_keeps_plaintext(limited.1, limit);
}

/// Of a run of records that carries application data, two reads by the same connection,
/// one with a limit and one without, deliver the same plaintext, the limited one in at
/// most `limit` pieces, and end alike.
pub proof fn limited_reads_agree<S: Peer>(
    before: StateView<S>,
    input: Seq<u8>,
    free: (StateView<S>, Seq<Seq<u8>>, Read, Seq<u8>),
    limited: (StateView<S>, Seq<Seq<u8>>, Read, Seq<u8>),
    limit: int,
    plain: Seq<u8>,
    end: record::OpenKey,
)
    requires
        limit > 0,
        read_through(before, input, free.0, free.1, free.2, free.3),
        read_through(before, input, limited.0, limited.1, limited.2, limited.3),
        !state::closed(before.link.core.phase),
        traffic::reading_key(before.link.core.traffic, before.link.core.phase) is Some,
        ({
            let (key, _) = traffic::reading_key(
                before.link.core.traffic,
                before.link.core.phase,
            )->0;
            traffic::carries(key, input, plain, end)
        }),
    ensures
        delivered_in(limited.1, Some(limit)).len() <= limit,
        plain::whole(delivered_in(limited.1, Some(limit))) == plain::whole(
            delivered_in(free.1, None),
        ),
        limited.2 == free.2,
{
    reading_gives_back_what_was_written(
        before,
        input,
        free.0,
        free.1,
        free.2,
        free.3,
        plain,
        end,
    );
    reading_gives_back_what_was_written(
        before,
        input,
        limited.0,
        limited.1,
        limited.2,
        limited.3,
        plain,
        end,
    );
    plain::packing_keeps_plaintext(limited.1, limit);
}

/// That two connections have the same keys, phase and bytes, whatever their engines.
pub open spec fn alike<S>(one: Link<S>, other: Link<S>) -> bool {
    one.core == other.core && one.close == other.close
}

impl<S: Peer> Trace<S> {
    /// That the records which both courses hand to the engine come to the same in both.
    pub open spec fn answered_as(self, other: Trace<S>, input: Seq<u8>) -> bool {
        forall|i: int|
            0 <= i < self.actions.len() && i < other.actions.len() && records::asks(
                self.links[i].core,
                input.subrange(record_at(input, i as nat), record_at(input, (i + 1) as nat)),
            ) ==> #[trigger] self.actions[i] == other.actions[i] && alike(
                self.links[i + 1],
                other.links[i + 1],
            )
    }
}

/// A record comes to the same by two connections that are alike, if what the engine is
/// handed does.
proof fn handled_alike<S: Peer>(
    one: Link<S>,
    other: Link<S>,
    record: Seq<u8>,
    after: Link<S>,
    left: Seq<u8>,
    result: Result<RecordAction, RecordFailure>,
    other_after: Link<S>,
    other_left: Seq<u8>,
    other_result: Result<RecordAction, RecordFailure>,
)
    requires
        alike(one, other),
        records::handled(one, record, after, left, result),
        records::handled(other, record, other_after, other_left, other_result),
        records::asks(one.core, record) ==> result == other_result && alike(after, other_after),
    ensures
        result == other_result,
        result is Ok ==> alike(after, other_after),
        result matches Ok(RecordAction::Application(len)) ==> left.subrange(
            HEADER_LEN as int,
            HEADER_LEN + len,
        ) == other_left.subrange(HEADER_LEN as int, HEADER_LEN + len),
{
}

/// Two courses of a read go alike as far as both go.
proof fn courses_alike<S: Peer>(
    one: Trace<S>,
    other: Trace<S>,
    before: Link<S>,
    input: Seq<u8>,
    n: nat,
)
    requires
        one.follows(before, input),
        other.follows(before, input),
        one.answered_as(other, input),
        n <= one.actions.len(),
        n <= other.actions.len(),
    ensures
        one.delivered(n) == other.delivered(n),
        n > 0 ==> one.actions[n - 1] == other.actions[n - 1],
        n == 0 || one.actions[n - 1] is Ok ==> alike(one.links[n as int], other.links[n as int]),
    decreases n,
{
    if n > 0 {
        let p = (n - 1) as nat;
        courses_alike(one, other, before, input, p);
        if p > 0 {
            assert(proceeds(one.actions[p - 1]));
        }
        assert(one.handles(input, p as int));
        assert(other.handles(input, p as int));
        assert(one.actions[p as int] == one.actions[n - 1]);
        handled_alike(
            one.links[p as int],
            other.links[p as int],
            input.subrange(record_at(input, p), record_at(input, n)),
            one.links[n as int],
            one.lefts[p as int],
            one.actions[p as int],
            other.links[n as int],
            other.lefts[p as int],
            other.actions[p as int],
        );
    }
}

/// A read does not end before another that goes alike.
proof fn course_is_whole<S: Peer>(
    one: Trace<S>,
    other: Trace<S>,
    before: StateView<S>,
    input: Seq<u8>,
    after: StateView<S>,
    status: Read,
)
    requires
        one.follows(before.link, input),
        other.follows(before.link, input),
        one.answered_as(other, input),
        one.ends(before, input, after, status),
    ensures
        other.actions.len() <= one.actions.len(),
{
    let n = one.actions.len();
    if n < other.actions.len() {
        courses_alike(one, other, before.link, input, n);
        assert(other.handles(input, n as int));
        if n > 0 {
            assert(proceeds(other.actions[n - 1]));
        }
        let at = record_at(input, n);
        assert(record_at(input, n + 1) == at + record::framed_len(input.skip(at)));
        assert(RecordFrame::completed(input.skip(at)) is Ok);
    }
}

/// A limit changes only how the application data is cut, for any two reads of the same
/// bytes by the same connection for which the handshake engine does the same with what it
/// is handed. They deliver the same plaintext, the limited one in at most `limit` pieces.
/// Where the pool is never without a buffer, they end alike too, and unless they fail they
/// leave the same keys, phase and bytes behind.
pub proof fn reads_differ_only_in_the_cut<S: Peer>(
    one: Trace<S>,
    other: Trace<S>,
    before: StateView<S>,
    input: Seq<u8>,
    free: (StateView<S>, Seq<Seq<u8>>, Read, Seq<u8>),
    limited: (StateView<S>, Seq<Seq<u8>>, Read, Seq<u8>),
    limit: int,
)
    requires
        limit > 0,
        read_by(one, before, input, free.0, free.1, free.2, free.3),
        read_by(other, before, input, limited.0, limited.1, limited.2, limited.3),
        one.answered_as(other, input),
    ensures
        delivered_in(limited.1, Some(limit)).len() <= limit,
        plain::whole(delivered_in(limited.1, Some(limit))) == plain::whole(
            delivered_in(free.1, None),
        ),
        !before.received.lacks ==> limited.2 == free.2,
        !before.received.lacks && free.2 != Read::Failed ==> alike(limited.0.link, free.0.link)
            && limited.0.received == free.0.received,
{
    course_is_whole(one, other, before, input, free.0, free.2);
    courses_alike(one, other, before.link, input, other.actions.len());
    assert(other.answered_as(one, input)) by {
        assert forall|i: int|
            0 <= i < other.actions.len() && i < one.actions.len() && records::asks(
                other.links[i].core,
                input.subrange(record_at(input, i as nat), record_at(input, (i + 1) as nat)),
            ) implies #[trigger] other.actions[i] == one.actions[i] && alike(
            other.links[i + 1],
            one.links[i + 1],
        ) by {
            courses_alike(one, other, before.link, input, i as nat);
            if i > 0 {
                assert(proceeds(one.actions[i - 1]));
            }
            assert(one.actions[i] == other.actions[i]);
        }
    }
    course_is_whole(other, one, before, input, limited.0, limited.2);
    plain::packing_keeps_plaintext(limited.1, limit);
}

/// Application data does not change which of the two opening keys is read with.
proof fn carried_flag<S: Peer>(
    trace: Trace<S>,
    before: Link<S>,
    input: Seq<u8>,
    plain: Seq<u8>,
    end: record::OpenKey,
    i: nat,
)
    requires
        trace.follows(before, input),
        i <= trace.actions.len(),
        traffic::reading_key(before.core.traffic, before.core.phase) is Some,
        ({
            let (key, _) = traffic::reading_key(before.core.traffic, before.core.phase)->0;
            traffic::carries(key, input, plain, end)
        }),
    ensures
        ({
            let (_, first) = traffic::reading_key(before.core.traffic, before.core.phase)->0;
            let (_, last) = traffic::reading_key(
                trace.links[i as int].core.traffic,
                trace.links[i as int].core.phase,
            )->0;
            first == last
        }),
    decreases i,
{
    if i > 0 {
        let p = (i - 1) as nat;
        carried_flag(trace, before, input, plain, end, p);
        carried_so_far(trace, before, input, plain, end, p);
        carried_so_far(trace, before, input, plain, end, i);
        let link = trace.links[p as int];
        let (key, _) = traffic::reading_key(link.core.traffic, link.core.phase)->0;
        let stream = input.skip(record_at(input, p));
        assert(trace.handles(input, p as int));
        let total = record::framed_len(stream) as int;
        let opened = key.open(stream.take(total))->Ok_0->0;
        assert(input.subrange(record_at(input, p), record_at(input, i)) =~= stream.take(total));
        assert(stream.take(total)[0] == stream[0]);
        carried_record(
            link,
            input.subrange(record_at(input, p), record_at(input, i)),
            trace.links[i as int],
            trace.lefts[p as int],
            trace.actions[p as int],
            opened.1,
        );
    }
}

} // verus!
