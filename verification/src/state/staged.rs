//! Reading by way of the receive buffer.

use crate::buffer;
use crate::error::Error;
use crate::staging::{HEADER_LEN, MAX_TLS_RECORD};
use crate::state::api::Status;
use crate::state::buffers::Received;
use crate::state::events::RecordFailure;
use crate::state::records::{self, Control, RecordAction, RecordFrame};
use crate::state::sessions::Peer;
use crate::record::{self, OpenKey};
use crate::state::status::{Phase, Read};
use crate::state::{self, direct, plain, traffic, State, StateView};
use o3::buffer::bytes::{Bytes, Pooled};
use shin::wire::record::Error as RecordError;
use vstd::prelude::*;

verus! {

/// What became of wire bytes: how many were taken, and the application data that
/// they completed, if any.
pub struct WireRead<'d> {
    pub(crate) consumed: usize,
    pub(crate) chunk: Option<Bytes<Pooled<'d>>>,
    pub(crate) status: Read,
}

impl<'d> WireRead<'d> {
    pub closed spec fn taken(self) -> nat {
        self.consumed as nat
    }

    pub closed spec fn outcome(self) -> Read {
        self.status
    }

    pub closed spec fn data(self) -> Option<Seq<u8>> {
        match self.chunk {
            Some(chunk) => Some(buffer::chunk_bytes(chunk)),
            None => None,
        }
    }

    pub fn consumed(&self) -> (count: usize)
        ensures
            count == self.taken(),
    {
        self.consumed
    }

    pub fn status(&self) -> (status: Read)
        ensures
            status == self.outcome(),
    {
        self.status
    }

    pub fn into_chunk(self) -> (chunk: Option<Bytes<Pooled<'d>>>)
        ensures
            match chunk {
                Some(chunk) => self.data() == Some(buffer::chunk_bytes(chunk)),
                None => self.data() is None,
            },
    {
        self.chunk
    }

    pub fn fail(&mut self)
        ensures
            final(self).outcome() == Read::Failed,
            final(self).taken() == old(self).taken(),
            final(self).data() == old(self).data(),
    {
        self.status = Read::Failed;
    }
}

/// That the record in the first `total` received bytes was handled where it stood.
pub open spec fn handled_staged<S: Peer>(
    before: StateView<S>,
    total: int,
    left: Seq<u8>,
    after: StateView<S>,
    action: Result<RecordAction, RecordFailure>,
) -> bool {
    let bytes = before.received.bytes();
    &&& left.len() == total
    &&& records::handled(before.link, bytes.take(total), after.link, left, action)
    &&& after.received == before.received.holding(left + bytes.skip(total))
}

/// The application data in a record that was opened where it stood.
pub open spec fn data_of(action: RecordAction, left: Seq<u8>) -> Option<Seq<u8>> {
    match action {
        RecordAction::Application(len) => if len == 0 {
            None
        } else {
            Some(left.subrange(HEADER_LEN as int, HEADER_LEN + len))
        },
        RecordAction::Control(_) => None,
    }
}

/// What an action calls for.
pub open spec fn control_of(action: RecordAction) -> Control {
    match action {
        RecordAction::Application(_) => Control::Continue,
        RecordAction::Control(control) => control,
    }
}

/// That one complete record, if there is one, was taken off the receive buffer and
/// handled. A record that fails stays.
pub open spec fn consumed_one<S: Peer>(
    before: StateView<S>,
    after: StateView<S>,
    data: Option<Seq<u8>>,
    result: Result<Control, Error>,
) -> bool {
    if state::closed(before.link.core.phase) {
        after == before && data is None && result == Ok::<Control, Error>(Control::Stop)
    } else {
        match RecordFrame::completed(before.received.bytes()) {
            Err(error) => after == before && data is None && result == Err::<Control, Error>(
                Error::Record(error),
            ),
            Ok(None) => after == before && data is None && result == Ok::<Control, Error>(
                Control::Stop,
            ),
            Ok(Some(total)) => exists|
                left: Seq<u8>,
                mid: StateView<S>,
                action: Result<RecordAction, RecordFailure>,
            | #[trigger]
                handled_staged(before, total as int, left, mid, action) && match action {
                    Err(failure) => after == mid && data is None && result == Err::<
                        Control,
                        Error,
                    >(failure.as_error()),
                    Ok(action) => after == (StateView {
                        link: mid.link,
                        received: mid.received.consume(total as int),
                    }) && data == data_of(action, left) && result == Ok::<Control, Error>(
                        control_of(action),
                    ),
                },
        }
    }
}

/// After received bytes were filled up to `goal`, as far as `bytes` go. Gives how
/// many of them were taken, or nothing where no buffer was to be had.
#[verifier::opaque]
pub open spec fn topped(received: Received, bytes: Seq<u8>, goal: nat, acquired: bool) -> (
    Received,
    Option<nat>,
) {
    let have = received.bytes().len();
    if have >= goal {
        (received, Some(0))
    } else {
        let need = (goal - have) as nat;
        let take = if need <= bytes.len() {
            need
        } else {
            bytes.len()
        };
        let (after, got) = received.append(bytes.take(take as int), acquired);
        (
            after,
            match got {
                Some(_) => Some(take),
                None => None,
            },
        )
    }
}

/// That the record in the receive buffer was handled and taken off. Application
/// data takes the whole buffer with it.
#[verifier::opaque]
pub open spec fn finished_wire<S: Peer>(
    before: StateView<S>,
    total: int,
    after: StateView<S>,
    data: Option<Seq<u8>>,
    result: Result<Control, Error>,
) -> bool {
    exists|left: Seq<u8>, mid: StateView<S>, action: Result<RecordAction, RecordFailure>| #[trigger]
        handled_staged(before, total, left, mid, action) && match action {
            Err(failure) => after == mid && data is None && result == Err::<Control, Error>(
                failure.as_error(),
            ),
            Ok(action) => after == (StateView {
                link: mid.link,
                received: match action {
                    RecordAction::Application(_) => Received {
                        recv: None,
                        ..before.received
                    },
                    RecordAction::Control(_) => mid.received.consume(total),
                },
            }) && data == data_of(action, left) && result == Ok::<Control, Error>(
                control_of(action),
            ),
        }
}

/// That wire bytes were read up to the end of one record: first its header, then
/// its body.
pub open spec fn read_one<S: Peer>(
    before: StateView<S>,
    bytes: Seq<u8>,
    header_acquired: bool,
    body_acquired: bool,
    after: StateView<S>,
    taken: nat,
    data: Option<Seq<u8>>,
    result: Result<Control, Error>,
) -> bool {
    let (headed, first) = topped(before.received, bytes, HEADER_LEN as nat, header_acquired);
    let at_header = StateView { link: before.link, received: headed };
    match first {
        None => after == at_header && data is None && result == Err::<Control, Error>(
            Error::ReceiveOverflow,
        ),
        Some(first) => match RecordFrame::parsed(headed.bytes()) {
            Err(error) => after == at_header && data is None && result == Err::<Control, Error>(
                Error::Record(error),
            ),
            Ok(None) => after == at_header && data is None && taken == first && result == Ok::<
                Control,
                Error,
            >(Control::Continue),
            Ok(Some(total)) => {
                let (filled, second) = topped(headed, bytes.skip(first as int), total, body_acquired);
                let at_body = StateView { link: before.link, received: filled };
                match second {
                    None => after == at_body && data is None && result == Err::<Control, Error>(
                        Error::ReceiveOverflow,
                    ),
                    Some(second) => if filled.bytes().len() < total {
                        after == at_body && data is None && taken == first + second && result
                            == Ok::<Control, Error>(Control::Continue)
                    } else {
                        (result is Ok ==> taken == first + second) && finished_wire(
                            at_body,
                            total as int,
                            after,
                            data,
                            result,
                        )
                    },
                }
            },
        },
    }
}

/// One moment of a read: the connection, the wire bytes not taken yet, the
/// application data so far.
pub struct Pass<S> {
    pub state: StateView<S>,
    pub rest: Seq<u8>,
    pub data: Seq<Seq<u8>>,
}

/// That bytes were taken in between two moments.
pub open spec fn takes<S: Peer>(a: Pass<S>, b: Pass<S>, count: nat) -> bool {
    &&& b.state.link == a.state.link
    &&& b.data == a.data
    &&& count <= a.rest.len()
    &&& b.rest == a.rest.skip(count as int)
    &&& exists|acquired: bool| #[trigger]
        a.state.received.append(a.rest, acquired) == (b.state.received, Some(count))
}

/// That one record was handled between two moments.
pub open spec fn consumes<S: Peer>(a: Pass<S>, b: Pass<S>, control: Control) -> bool {
    &&& b.rest == a.rest
    &&& exists|data: Option<Seq<u8>>| #[trigger]
        consumed_one(a.state, b.state, data, Ok(control)) && b.data == match data {
            Some(data) => a.data.push(data),
            None => a.data,
        }
}

/// That the moment number `i` leads to the next by handling one record, with more to
/// be handled.
pub open spec fn consumes_at<S: Peer>(path: Seq<Pass<S>>, i: int) -> bool {
    consumes(path[i], path[i + 1], Control::Continue)
}

/// That records were handled one after the other.
pub open spec fn consumed_many<S: Peer>(start: Pass<S>, path: Seq<Pass<S>>) -> bool {
    &&& path.len() > 0
    &&& path[0] == start
    &&& forall|i: int| 0 <= i < path.len() - 1 ==> #[trigger] consumes_at(path, i)
}

/// How handling records ends: there is nothing more to be handled, or one fails.
pub open spec fn consumed_last<S: Peer>(
    last: Pass<S>,
    after: Pass<S>,
    result: Result<(), Error>,
) -> bool {
    match result {
        Ok(()) => consumes(last, after, Control::Stop),
        Err(error) => consumed_one(last.state, after.state, None, Err(error)) && after.rest
            == last.rest && after.data == last.data,
    }
}

/// That all complete records were handled, up to the first that fails.
pub open spec fn consumed_all<S: Peer>(
    before: Pass<S>,
    after: Pass<S>,
    result: Result<(), Error>,
) -> bool {
    exists|path: Seq<Pass<S>>| #[trigger]
        consumed_many(before, path) && consumed_last(path.last(), after, result)
}

/// That in one round `count` bytes were taken in, and all records that were complete
/// then were handled.
pub open spec fn round<S: Peer>(
    before: Pass<S>,
    mid: Pass<S>,
    count: nat,
    after: Pass<S>,
    result: Result<(), Error>,
) -> bool {
    takes(before, mid, count) && consumed_all(mid, after, result)
}

/// That round number `i` took something in, and left something for the next.
pub open spec fn goes_round<S: Peer>(path: Seq<Pass<S>>, i: int) -> bool {
    exists|mid: Pass<S>, count: nat| #[trigger]
        round(path[i], mid, count, path[i + 1], Ok(())) && count > 0 && mid.rest.len() > 0
}

/// That the rounds of a read came one after the other.
pub open spec fn rounds<S: Peer>(start: Pass<S>, path: Seq<Pass<S>>) -> bool {
    &&& path.len() > 0
    &&& path[0] == start
    &&& forall|i: int| 0 <= i < path.len() - 1 ==> #[trigger] goes_round(path, i)
}

/// What the last round of a read comes to: all bytes were taken in, or a record
/// failed, or nothing more could be taken in, be it for want of a buffer or because the
/// buffer is full.
pub open spec fn last_round<S: Peer>(
    last: Pass<S>,
    after: Pass<S>,
    result: Result<(), Error>,
) -> bool {
    ||| result == Err::<(), Error>(Error::ReceiveOverflow) && exists|acquired: bool| #[trigger]
        last.state.received.append(last.rest, acquired) == (after.state.received, None::<nat>)
            && after.state.link == last.state.link && after.data == last.data
    ||| exists|mid: Pass<S>, count: nat, consumed: Result<(), Error>| #[trigger]
        round(last, mid, count, after, consumed) && match consumed {
            Err(error) => result == Err::<(), Error>(error),
            Ok(()) => if mid.rest.len() == 0 {
                result == Ok::<(), Error>(())
            } else {
                count == 0 && result == Err::<(), Error>(Error::Record(RecordError::BodyTooLarge))
            },
        }
}

/// That reading `bytes` can leave `after`, the application data `data`, and
/// `result`: as much is taken in as there is room for and all complete records are
/// handled, round by round.
pub open spec fn read_all<S: Peer>(
    before: StateView<S>,
    bytes: Seq<u8>,
    after: StateView<S>,
    data: Seq<Seq<u8>>,
    result: Result<(), Error>,
) -> bool {
    exists|path: Seq<Pass<S>>, end: Pass<S>|
        #![trigger rounds(Pass { state: before, rest: bytes, data: Seq::empty() }, path), last_round(path.last(), end, result)]
        rounds(Pass { state: before, rest: bytes, data: Seq::empty() }, path) && last_round(
            path.last(),
            end,
            result,
        ) && end.state == after && end.data == data
}

proof fn many_push<S: Peer>(start: Pass<S>, path: Seq<Pass<S>>, now: Pass<S>)
    requires
        consumed_many(start, path),
        consumes(path.last(), now, Control::Continue),
    ensures
        consumed_many(start, path.push(now)),
{
    let longer = path.push(now);
    assert forall|i: int| 0 <= i < longer.len() - 1 implies #[trigger] consumes_at(longer, i) by {
        if i < path.len() - 1 {
            assert(consumes_at(path, i));
            assert(longer[i] == path[i]);
            assert(longer[i + 1] == path[i + 1]);
        }
    }
}

proof fn rounds_push<S: Peer>(start: Pass<S>, path: Seq<Pass<S>>, mid: Pass<S>, count: nat, now: Pass<S>)
    requires
        rounds(start, path),
        round(path.last(), mid, count, now, Ok(())),
        count > 0,
        mid.rest.len() > 0,
    ensures
        rounds(start, path.push(now)),
{
    let longer = path.push(now);
    assert forall|i: int| 0 <= i < longer.len() - 1 implies #[trigger] goes_round(longer, i) by {
        if i < path.len() - 1 {
            assert(goes_round(path, i));
            assert(longer[i] == path[i]);
            assert(longer[i + 1] == path[i + 1]);
        } else {
            assert(round(longer[i], mid, count, longer[i + 1], Ok(())));
        }
    }
}

/// What was had before makes no difference to how records are handled.
proof fn consumed_after<S: Peer>(
    start: Pass<S>,
    path: Seq<Pass<S>>,
    after: Pass<S>,
    result: Result<(), Error>,
)
    requires
        consumed_many(start, path),
        start.data.len() == 0,
        consumed_last(path.last(), after, result),
    ensures
        forall|had: Seq<Seq<u8>>| #[trigger]
            consumed_all(
                Pass { data: had, ..start },
                Pass { data: had + after.data, ..after },
                result,
            ),
{
    assert forall|had: Seq<Seq<u8>>| #[trigger]
        consumed_all(
            Pass { data: had, ..start },
            Pass { data: had + after.data, ..after },
            result,
        ) by {
        let moved = Seq::new(
            path.len(),
            |i: int| Pass { data: had + path[i].data, ..path[i] },
        );
        let from = Pass { data: had, ..start };
        let to = Pass { data: had + after.data, ..after };
        assert(had + start.data =~= had);
        assert forall|i: int| 0 <= i < moved.len() - 1 implies #[trigger] consumes_at(
            moved,
            i,
        ) by {
            assert(consumes_at(path, i));
            moved_consumes(had, path[i], path[i + 1], Control::Continue);
        }
        assert(consumed_many(from, moved));
        match result {
            Ok(()) => {
                moved_consumes(had, path.last(), after, Control::Stop);
            },
            Err(_) => {},
        }
        assert(consumed_last(moved.last(), to, result));
    }
}

proof fn moved_consumes<S: Peer>(had: Seq<Seq<u8>>, a: Pass<S>, b: Pass<S>, control: Control)
    requires
        consumes(a, b, control),
    ensures
        consumes(
            Pass { data: had + a.data, ..a },
            Pass { data: had + b.data, ..b },
            control,
        ),
{
    let data = choose|data: Option<Seq<u8>>| #[trigger]
        consumed_one(a.state, b.state, data, Ok(control)) && b.data == match data {
            Some(data) => a.data.push(data),
            None => a.data,
        };
    if let Some(piece) = data {
        assert(had + a.data.push(piece) =~= (had + a.data).push(piece));
    }
}

/// That a read of wire bytes has come to this end.
pub open spec fn read_wire<S: Peer>(
    before: StateView<S>,
    bytes: Seq<u8>,
    after: StateView<S>,
    taken: nat,
    data: Option<Seq<u8>>,
    status: Read,
) -> bool {
    exists|header_acquired: bool, body_acquired: bool, result: Result<Control, Error>| #[trigger]
        read_one(before, bytes, header_acquired, body_acquired, after, taken, data, result)
            && match result {
            Ok(control) => status == control.as_status() && taken <= bytes.len(),
            Err(_) => status == Read::Failed && taken == bytes.len() && data is None,
        }
}

/// What one record on the wire came to: bytes taken, application data, control.
type Wired<'d> = (usize, Option<Bytes<Pooled<'d>>>, Control);

spec fn wire_taken(result: Result<Wired<'_>, Error>) -> nat {
    match result {
        Ok((taken, _, _)) => taken as nat,
        Err(_) => 0,
    }
}

spec fn wire_data(result: Result<Wired<'_>, Error>) -> Option<Seq<u8>> {
    match result {
        Ok((_, Some(chunk), _)) => Some(buffer::chunk_bytes(chunk)),
        _ => None,
    }
}

spec fn wire_control(result: Result<Wired<'_>, Error>) -> Result<Control, Error> {
    match result {
        Ok((_, _, control)) => Ok(control),
        Err(error) => Err(error),
    }
}

/// Several pieces of data by their bytes.
pub open spec fn pieces(data: Seq<Vec<u8>>) -> Seq<Seq<u8>> {
    data.map_values(|piece: Vec<u8>| piece@)
}

impl<'d, S: Peer> State<'d, S> {
    /// Handles the record in the first `total` received bytes, where it stands.
    fn handle_record(&mut self, total: usize) -> (action: Result<RecordAction, RecordFailure>)
        requires
            HEADER_LEN <= total <= old(self)@.received.bytes().len(),
        ensures
            exists|left: Seq<u8>| #[trigger]
                handled_staged(old(self)@, total as int, left, final(self)@, action)
                    && final(self)@.received.bytes().take(total as int) == left
                    && final(self)@.received.bytes().len() == old(self)@.received.bytes().len(),
    {
        let ghost before = self@.received.bytes();
        let action = match &mut self.buffers.recv {
            Some(recv) => {
                let bytes = recv.as_mut_slice();
                self.record.handle(bytes, 0, total)
            },
            None => Err(RecordFailure::BufferUnavailable),
        };
        proof {
            let after = self@.received.bytes();
            let left = after.subrange(0, total as int);
            assert(before.subrange(0, total as int) =~= before.take(total as int));
            assert(left =~= after.take(total as int));
            assert(after =~= left + before.skip(total as int));
            assert(handled_staged(old(self)@, total as int, left, self@, action));
        }
        action
    }

    /// Handles one complete record off the receive buffer. Application data is put
    /// into `received`.
    pub fn consume_one_record(&mut self, received: &mut Vec<Vec<u8>>) -> (result: Result<
        Control,
        Error,
    >)
        ensures
            exists|data: Option<Seq<u8>>| #[trigger]
                consumed_one(old(self)@, final(self)@, data, result) && pieces(final(received)@)
                    == match data {
                    Some(data) => pieces(old(received)@).push(data),
                    None => pieces(old(received)@),
                },
            result == Ok::<Control, Error>(Control::Continue) ==> final(self)@.received.bytes().len()
                < old(self)@.received.bytes().len(),
    {
        if self.is_closed() {
            assert(consumed_one(old(self)@, self@, None, Ok::<Control, Error>(Control::Stop)));
            return Ok(Control::Stop);
        }
        let total: usize = match RecordFrame::complete(self.buffers.recv()) {
            Ok(Some(frame)) => frame.len(),
            Ok(None) => {
                assert(consumed_one(old(self)@, self@, None, Ok::<Control, Error>(Control::Stop)));
                return Ok(Control::Stop);
            },
            Err(error) => {
                assert(consumed_one(
                    old(self)@,
                    self@,
                    None,
                    Err::<Control, Error>(Error::Record(error)),
                ));
                return Err(Error::Record(error));
            },
        };
        let handled = self.handle_record(total);
        let ghost mid = self@;
        let ghost left = mid.received.bytes().take(total as int);
        assert(handled_staged(old(self)@, total as int, left, mid, handled));
        let action = match handled {
            Ok(action) => action,
            Err(failure) => {
                let error = failure.into_error();
                assert(consumed_one(old(self)@, self@, None, Err::<Control, Error>(error)));
                return Err(error);
            },
        };
        let control = match action {
            RecordAction::Application(len) => {
                if len > 0 {
                    let bytes = self.buffers.recv();
                    let piece = vstd::slice::slice_subrange(bytes, HEADER_LEN, HEADER_LEN + len);
                    let mut copy: Vec<u8> = Vec::new();
                    copy.extend_from_slice(piece);
                    assert(copy@ =~= piece@);
                    assert(piece@ =~= left.subrange(HEADER_LEN as int, HEADER_LEN + len));
                    received.push(copy);
                    assert(pieces(received@) =~= pieces(old(received)@).push(copy@));
                }
                Control::Continue
            },
            RecordAction::Control(control) => control,
        };
        let consumed = self.buffers.try_consume_recv(total);
        assert(consumed);
        assert(consumed_one(
            old(self)@,
            self@,
            data_of(action, left),
            Ok::<Control, Error>(control),
        ));
        Ok(control)
    }

    /// Handles all complete records off the receive buffer.
    fn consume_records(&mut self, received: &mut Vec<Vec<u8>>, Ghost(rest): Ghost<Seq<u8>>) -> (out:
        (Result<(), Error>, Ghost<Seq<Seq<u8>>>))
        ensures
            forall|had: Seq<Seq<u8>>| #[trigger]
                consumed_all(
                    Pass { state: old(self)@, rest, data: had },
                    Pass { state: final(self)@, rest, data: had + out.1@ },
                    out.0,
                ),
            pieces(final(received)@) == pieces(old(received)@) + out.1@,
    {
        let ghost given = pieces(received@);
        let ghost start = Pass { state: self@, rest, data: Seq::empty() };
        let ghost mut path: Seq<Pass<S>> = seq![start];
        assert(given + Seq::<Seq<u8>>::empty() =~= given);
        loop
            invariant
                given == pieces(old(received)@),
                start == (Pass { state: old(self)@, rest, data: Seq::empty() }),
                consumed_many(start, path),
                path.last().state == self@,
                path.last().rest == rest,
                pieces(received@) == given + path.last().data,
            decreases self@.received.bytes().len(),
        {
            let ghost before = path.last();
            let consumed = self.consume_one_record(received);
            let ghost data = choose|data: Option<Seq<u8>>| #[trigger]
                consumed_one(before.state, self@, data, consumed) && pieces(received@)
                    == match data {
                    Some(data) => (given + before.data).push(data),
                    None => given + before.data,
                };
            let ghost now = Pass {
                state: self@,
                rest: before.rest,
                data: match data {
                    Some(data) => before.data.push(data),
                    None => before.data,
                },
            };
            assert(pieces(received@) =~= given + now.data);
            match consumed {
                Ok(control) => {
                    assert(consumes(before, now, control));
                    if control == Control::Stop {
                        proof {
                            assert(consumed_last(path.last(), now, Ok::<(), Error>(())));
                            consumed_after(start, path, now, Ok::<(), Error>(()));
                        }
                        return (Ok(()), Ghost(now.data));
                    }
                    proof {
                        many_push(start, path, now);
                        path = path.push(now);
                    }
                },
                Err(error) => {
                    proof {
                        assert(data is None);
                        assert(consumed_last(path.last(), now, Err::<(), Error>(error)));
                        consumed_after(start, path, now, Err::<(), Error>(error));
                    }
                    return (Err(error), Ghost(now.data));
                },
            }
        }
    }

    /// Reads wire bytes. The application data in them is put into `received`,
    /// record by record.
    pub fn read(&mut self, bytes: &[u8], received: &mut Vec<Vec<u8>>) -> (result: Result<(), Error>)
        ensures
            exists|data: Seq<Seq<u8>>| #[trigger]
                read_all(old(self)@, bytes@, final(self)@, data, result) && pieces(
                    final(received)@,
                ) == pieces(old(received)@) + data,
    {
        let ghost given = pieces(received@);
        let ghost start = Pass { state: self@, rest: bytes@, data: Seq::empty() };
        let ghost mut path: Seq<Pass<S>> = seq![start];
        let mut offset: usize = 0;
        proof {
            assert(bytes@.skip(0) =~= bytes@);
            assert(given + Seq::<Seq<u8>>::empty() =~= given);
        }
        loop
            invariant
                offset <= bytes@.len(),
                given == pieces(old(received)@),
                start == (Pass { state: old(self)@, rest: bytes@, data: Seq::empty() }),
                rounds(start, path),
                path.last().state == self@,
                path.last().rest == bytes@.skip(offset as int),
                pieces(received@) == given + path.last().data,
            decreases bytes@.len() - offset,
        {
            let rest = vstd::slice::slice_subrange(bytes, offset, bytes.len());
            assert(rest@ =~= bytes@.skip(offset as int));
            let ghost before = path.last();
            let take: usize = match self.buffers.append_recv(rest) {
                Ok(count) => count,
                Err(_) => {
                    let error = Error::ReceiveOverflow;
                    proof {
                        let acquired = choose|acquired: bool|
                            {
                                let (after, expected) = #[trigger] before.state.received.append(
                                    rest@,
                                    acquired,
                                );
                                self@.received == after && expected is None
                            };
                        let end = Pass { state: self@, ..before };
                        assert(before.state.received.append(before.rest, acquired) == (
                            end.state.received,
                            None::<nat>,
                        ));
                        assert(last_round(path.last(), end, Err::<(), Error>(error)));
                        assert(read_all(
                            old(self)@,
                            bytes@,
                            self@,
                            before.data,
                            Err::<(), Error>(error),
                        ));
                    }
                    return Err(error);
                },
            };
            let ghost mid = Pass {
                state: self@,
                rest: before.rest.skip(take as int),
                data: before.data,
            };
            proof {
                let acquired = choose|acquired: bool|
                    {
                        let (after, expected) = #[trigger] before.state.received.append(
                            rest@,
                            acquired,
                        );
                        self@.received == after && expected == Some(take as nat)
                    };
                assert(before.state.received.append(before.rest, acquired) == (
                    self@.received,
                    Some(take as nat),
                ));
                assert(takes(before, mid, take as nat));
                assert(bytes@.skip(offset as int).skip(take as int) =~= bytes@.skip(offset + take));
            }
            offset = offset + take;
            let (consumed, Ghost(data)) = self.consume_records(received, Ghost(mid.rest));
            let ghost end = Pass { state: self@, rest: mid.rest, data: before.data + data };
            proof {
                assert(pieces(received@) =~= given + end.data);
                assert(consumed_all(mid, end, consumed));
                assert(round(before, mid, take as nat, end, consumed));
            }
            match consumed {
                Ok(()) => {},
                Err(error) => {
                    proof {
                        assert(last_round(path.last(), end, Err::<(), Error>(error)));
                        assert(read_all(
                            old(self)@,
                            bytes@,
                            self@,
                            end.data,
                            Err::<(), Error>(error),
                        ));
                    }
                    return Err(error);
                },
            }
            if offset == bytes.len() {
                proof {
                    assert(last_round(path.last(), end, Ok::<(), Error>(())));
                    assert(read_all(old(self)@, bytes@, self@, end.data, Ok::<(), Error>(())));
                }
                return Ok(());
            }
            if take == 0 {
                let error = Error::Record(RecordError::BodyTooLarge);
                proof {
                    assert(last_round(path.last(), end, Err::<(), Error>(error)));
                    assert(read_all(old(self)@, bytes@, self@, end.data, Err::<(), Error>(error)));
                }
                return Err(error);
            }
            proof {
                rounds_push(start, path, mid, take as nat, end);
                path = path.push(end);
            }
        }
    }

    /// Fills the receive buffer up to `goal`, as far as `bytes` go.
    fn top_up(&mut self, bytes: &[u8], goal: usize) -> (taken: Option<usize>)
        ensures
            final(self)@.link == old(self)@.link,
            exists|acquired: bool|
                {
                    let (after, expected) = #[trigger] topped(
                        old(self)@.received,
                        bytes@,
                        goal as nat,
                        acquired,
                    );
                    &&& final(self)@.received == after
                    &&& match (taken, expected) {
                        (Some(count), Some(total)) => count == total && count <= bytes@.len(),
                        (None, None) => true,
                        _ => false,
                    }
                },
    {
        reveal(topped);
        let have: usize = self.buffers.recv().len();
        if have >= goal {
            assert(topped(old(self)@.received, bytes@, goal as nat, true).1 == Some(0nat));
            return Some(0);
        }
        let need: usize = goal - have;
        let take: usize = if need <= bytes.len() {
            need
        } else {
            bytes.len()
        };
        let part = vstd::slice::slice_subrange(bytes, 0, take);
        assert(part@ =~= bytes@.take(take as int));
        let appended = self.buffers.append_recv(part);
        proof {
            let acquired = choose|acquired: bool|
                {
                    let (after, expected) = #[trigger] old(self)@.received.append(part@, acquired);
                    &&& self@.received == after
                    &&& (appended is Ok) == (expected is Some)
                };
            assert(topped(old(self)@.received, bytes@, goal as nat, acquired).0 == self@.received);
        }
        match appended {
            Ok(_) => Some(take),
            Err(_) => None,
        }
    }

    /// Handles the record in the receive buffer and takes it off. Application data takes the
    /// whole buffer with it.
    fn finish_wire_record(&mut self, total: usize) -> (result: Result<
        (Option<Bytes<Pooled<'d>>>, Control),
        Error,
    >)
        requires
            HEADER_LEN <= total <= old(self)@.received.bytes().len(),
        ensures
            match result {
                Ok((chunk, control)) => finished_wire(
                    old(self)@,
                    total as int,
                    final(self)@,
                    match chunk {
                        Some(chunk) => Some(buffer::chunk_bytes(chunk)),
                        None => None,
                    },
                    Ok(control),
                ),
                Err(error) => finished_wire(
                    old(self)@,
                    total as int,
                    final(self)@,
                    None,
                    Err(error),
                ),
            },
    {
        reveal(finished_wire);
        let ghost filled = self@;
        let handled = self.handle_record(total);
        let ghost mid = self@;
        let ghost left = mid.received.bytes().take(total as int);
        assert(handled_staged(filled, total as int, left, mid, handled));
        match handled {
            Err(failure) => {
                let error = failure.into_error();
                assert(finished_wire(
                    filled,
                    total as int,
                    self@,
                    None,
                    Err::<Control, Error>(error),
                ));
                Err(error)
            },
            Ok(RecordAction::Application(len)) => {
                let chunk = self.buffers.take_recv_range(HEADER_LEN, HEADER_LEN + len);
                proof {
                    assert(mid.received.bytes().subrange(HEADER_LEN as int, HEADER_LEN + len)
                        =~= left.subrange(HEADER_LEN as int, HEADER_LEN + len));
                    assert(finished_wire(
                        filled,
                        total as int,
                        self@,
                        data_of(RecordAction::Application(len), left),
                        Ok::<Control, Error>(Control::Continue),
                    ));
                }
                match chunk {
                    None => Err(self.fatal_overflow()),
                    Some(chunk) => {
                        if len == 0 {
                            Ok((None, Control::Continue))
                        } else {
                            Ok((Some(chunk), Control::Continue))
                        }
                    },
                }
            },
            Ok(RecordAction::Control(control)) => {
                let consumed = self.buffers.try_consume_recv(total);
                assert(consumed);
                assert(finished_wire(
                    filled,
                    total as int,
                    self@,
                    None,
                    Ok::<Control, Error>(control),
                ));
                Ok((None, control))
            },
        }
    }

    /// Reads wire bytes up to the end of one record.
    #[verifier::rlimit(30)]
    fn read_one_wire_result(&mut self, bytes: &[u8]) -> (result: Result<
        Wired<'d>,
        Error,
    >)
        ensures
            exists|header_acquired: bool, body_acquired: bool| #[trigger]
                read_one(
                    old(self)@,
                    bytes@,
                    header_acquired,
                    body_acquired,
                    final(self)@,
                    wire_taken(result),
                    wire_data(result),
                    wire_control(result),
                ),
            result matches Ok((taken, _, _)) ==> taken <= bytes@.len(),
    {
        let ghost before = self@;
        let first: usize = match self.top_up(bytes, HEADER_LEN) {
            Some(count) => count,
            None => {
                let result = Err(Error::ReceiveOverflow);
                proof {
                    let header_acquired = choose|acquired: bool|
                        {
                            let (after, expected) = #[trigger] topped(
                                before.received,
                                bytes@,
                                HEADER_LEN as nat,
                                acquired,
                            );
                            self@.received == after && expected is None
                        };
                    assert(read_one(
                        before,
                        bytes@,
                        header_acquired,
                        true,
                        self@,
                        wire_taken(result),
                        wire_data(result),
                        wire_control(result),
                    ));
                }
                return result;
            },
        };
        let ghost headed = self@;
        let ghost header_acquired = choose|acquired: bool|
            {
                let (after, expected) = #[trigger] topped(
                    before.received,
                    bytes@,
                    HEADER_LEN as nat,
                    acquired,
                );
                headed.received == after && expected == Some(first as nat)
            };
        let total: usize = match RecordFrame::parse(self.buffers.recv()) {
            Ok(Some(frame)) => frame.len(),
            Ok(None) => {
                let result = Ok((first, None, Control::Continue));
                assert(read_one(
                    before,
                    bytes@,
                    header_acquired,
                    true,
                    self@,
                    wire_taken(result),
                    wire_data(result),
                    wire_control(result),
                ));
                return result;
            },
            Err(error) => {
                let result = Err(Error::Record(error));
                assert(read_one(
                    before,
                    bytes@,
                    header_acquired,
                    true,
                    self@,
                    wire_taken(result),
                    wire_data(result),
                    wire_control(result),
                ));
                return result;
            },
        };
        let rest = vstd::slice::slice_subrange(bytes, first, bytes.len());
        assert(rest@ =~= bytes@.skip(first as int));
        let second: usize = match self.top_up(rest, total) {
            Some(count) => count,
            None => {
                let result = Err(Error::ReceiveOverflow);
                proof {
                    let body_acquired = choose|acquired: bool|
                        {
                            let (after, expected) = #[trigger] topped(
                                headed.received,
                                rest@,
                                total as nat,
                                acquired,
                            );
                            self@.received == after && expected is None
                        };
                    assert(read_one(
                        before,
                        bytes@,
                        header_acquired,
                        body_acquired,
                        self@,
                        wire_taken(result),
                        wire_data(result),
                        wire_control(result),
                    ));
                }
                return result;
            },
        };
        let ghost filled = self@;
        let ghost body_acquired = choose|acquired: bool|
            {
                let (after, expected) = #[trigger] topped(
                    headed.received,
                    rest@,
                    total as nat,
                    acquired,
                );
                filled.received == after && expected == Some(second as nat)
            };
        if self.buffers.recv().len() < total {
            let result = Ok((first + second, None, Control::Continue));
            assert(read_one(
                before,
                bytes@,
                header_acquired,
                body_acquired,
                self@,
                wire_taken(result),
                wire_data(result),
                wire_control(result),
            ));
            return result;
        }
        let result = match self.finish_wire_record(total) {
            Ok((chunk, control)) => Ok((first + second, chunk, control)),
            Err(error) => Err(error),
        };
        assert(read_one(
            before,
            bytes@,
            header_acquired,
            body_acquired,
            self@,
            wire_taken(result),
            wire_data(result),
            wire_control(result),
        ));
        result
    }

    /// Reads wire bytes up to the end of one record. After a failure no more of
    /// them are of use, so all count as taken.
    pub fn read_one_wire(&mut self, bytes: &[u8]) -> (read: WireRead<'d>)
        ensures
            read_wire(
                old(self)@,
                bytes@,
                final(self)@,
                read.taken(),
                read.data(),
                read.outcome(),
            ),
            read.taken() <= bytes@.len(),
    {
        let result = self.read_one_wire_result(bytes);
        let ghost data = wire_data(result);
        let ghost taken = wire_taken(result);
        let ghost outcome = wire_control(result);
        proof {
            let (header_acquired, body_acquired) = choose|
                header_acquired: bool,
                body_acquired: bool,
            | #[trigger]
                read_one(
                    old(self)@,
                    bytes@,
                    header_acquired,
                    body_acquired,
                    self@,
                    taken,
                    data,
                    outcome,
                );
            if outcome is Err {
                assert(read_one(
                    old(self)@,
                    bytes@,
                    header_acquired,
                    body_acquired,
                    self@,
                    bytes@.len(),
                    data,
                    outcome,
                ));
            }
        }
        match result {
            Ok((consumed, chunk, control)) => WireRead {
                consumed,
                chunk,
                status: control.status(),
            },
            Err(_) => WireRead { consumed: bytes.len(), chunk: None, status: Read::Failed },
        }
    }

    /// Reads wire bytes, and sends what is then owed to the peer. The application
    /// data is put into `received`, record by record.
    pub fn read_tcp(&mut self, bytes: &[u8], received: &mut Vec<Vec<u8>>) -> (result: Result<
        (),
        Error,
    >)
        ensures
            exists|data: Seq<Seq<u8>>| #[trigger]
                read_and_drained(old(self)@, bytes@, final(self)@, data, result) && pieces(
                    final(received)@,
                ) == pieces(old(received)@) + data,
    {
        let read = self.read(bytes, received);
        let ghost mid = self@;
        let drained = self.drain_pending_control();
        let result = match read {
            Ok(()) => drained,
            Err(error) => Err(error),
        };
        proof {
            let data = choose|data: Seq<Seq<u8>>| #[trigger]
                read_all(old(self)@, bytes@, mid, data, read) && pieces(received@) == pieces(
                    old(received)@,
                ) + data;
            assert(read_then_drained(old(self)@, bytes@, mid, read, drained, self@, data, result));
            assert(read_and_drained(old(self)@, bytes@, self@, data, result));
        }
        result
    }

    /// Whether wire bytes, if there are any, could be read.
    pub fn try_read_tcp(&mut self, bytes: &[u8], received: &mut Vec<Vec<u8>>) -> (done: bool)
        ensures
            bytes@.len() == 0 ==> done && final(self)@ == old(self)@ && pieces(final(received)@)
                == pieces(old(received)@),
            bytes@.len() > 0 ==> exists|data: Seq<Seq<u8>>, result: Result<(), Error>| #[trigger]
                read_and_drained(old(self)@, bytes@, final(self)@, data, result) && pieces(
                    final(received)@,
                ) == pieces(old(received)@) + data && done == (result is Ok),
    {
        if bytes.len() == 0 {
            return true;
        }
        let result = self.read_tcp(bytes, received);
        match result {
            Ok(()) => true,
            Err(_) => false,
        }
    }

    /// Reads wire bytes up to the end of one record, and sends what is then owed
    /// to the peer.
    pub fn read_staged_wire(&mut self, bytes: &[u8]) -> (read: WireRead<'d>)
        ensures
            exists|mid: StateView<S>, status: Read, drain: Result<(), Error>|
                {
                    &&& #[trigger] read_wire(
                        old(self)@,
                        bytes@,
                        mid,
                        read.taken(),
                        read.data(),
                        status,
                    )
                    &&& #[trigger] state::drained_own(mid.link, final(self)@.link, drain)
                    &&& final(self)@.received == mid.received
                    &&& read.outcome() == if drain is Ok {
                        status
                    } else {
                        Read::Failed
                    }
                },
            read.taken() <= bytes@.len(),
    {
        let mut read = self.read_one_wire(bytes);
        let ghost mid = self@;
        let ghost status = read.outcome();
        let drain = self.drain_pending_control();
        if drain.is_err() {
            read.fail();
        }
        assert(read_wire(old(self)@, bytes@, mid, read.taken(), read.data(), status));
        assert(state::drained_own(mid.link, self@.link, drain));
        read
    }
}

/// That a read came to `mid`, and what was then owed was sent. The read's failure
/// counts before the other.
pub open spec fn read_then_drained<S: Peer>(
    before: StateView<S>,
    bytes: Seq<u8>,
    mid: StateView<S>,
    read: Result<(), Error>,
    drain: Result<(), Error>,
    after: StateView<S>,
    data: Seq<Seq<u8>>,
    result: Result<(), Error>,
) -> bool {
    &&& read_all(before, bytes, mid, data, read)
    &&& state::drained_own(mid.link, after.link, drain)
    &&& after.received == mid.received
    &&& result == match read {
        Ok(()) => drain,
        Err(error) => Err(error),
    }
}

/// That reading wire bytes can leave `after`, the application data `data`, and
/// `result`.
pub open spec fn read_and_drained<S: Peer>(
    before: StateView<S>,
    bytes: Seq<u8>,
    after: StateView<S>,
    data: Seq<Seq<u8>>,
    result: Result<(), Error>,
) -> bool {
    exists|mid: StateView<S>, read: Result<(), Error>, drain: Result<(), Error>| #[trigger]
        read_then_drained(before, bytes, mid, read, drain, after, data, result)
}

/// What a connection has read of a carried stream at one moment: `plain` is what
/// it has and what the bytes at hand still carry.
spec fn carrying<S: Peer>(
    pass: Pass<S>,
    later: Seq<u8>,
    phase: Phase,
    plain: Seq<u8>,
    end: OpenKey,
) -> bool {
    let core = pass.state.link.core;
    let had = plain::whole(pass.data);
    &&& core.phase == phase
    &&& had.is_prefix_of(plain)
    &&& match traffic::reading_key(core.traffic, core.phase) {
        Some((key, _)) => traffic::carries(
            key,
            pass.state.received.bytes() + (pass.rest + later),
            plain.skip(had.len() as int),
            end,
        ),
        None => false,
    }
}

proof fn carrying_take<S: Peer>(
    a: Pass<S>,
    b: Pass<S>,
    count: nat,
    later: Seq<u8>,
    phase: Phase,
    plain: Seq<u8>,
    end: OpenKey,
)
    requires
        carrying(a, later, phase, plain, end),
        takes(a, b, count),
    ensures
        carrying(b, later, phase, plain, end),
{
    let acquired = choose|acquired: bool| #[trigger]
        a.state.received.append(a.rest, acquired) == (b.state.received, Some(count));
    if a.rest.len() > 0 {
        let taken = a.rest.take(count as int);
        assert(b.state.received.bytes() =~= a.state.received.bytes() + taken);
    }
    assert(b.state.received.bytes() + (b.rest + later) =~= a.state.received.bytes() + (a.rest
        + later));
}

proof fn carrying_consume<S: Peer>(
    a: Pass<S>,
    b: Pass<S>,
    control: Control,
    later: Seq<u8>,
    phase: Phase,
    plain: Seq<u8>,
    end: OpenKey,
)
    requires
        carrying(a, later, phase, plain, end),
        !state::closed(phase),
        consumes(a, b, control),
    ensures
        carrying(b, later, phase, plain, end),
        control == Control::Stop ==> RecordFrame::completed(b.state.received.bytes()) == Ok::<
            Option<nat>,
            RecordError,
        >(None),
{
    let data = choose|data: Option<Seq<u8>>| #[trigger]
        consumed_one(a.state, b.state, data, Ok(control)) && b.data == match data {
            Some(data) => a.data.push(data),
            None => a.data,
        };
    let bytes = a.state.received.bytes();
    if let Ok(Some(total)) = RecordFrame::completed(bytes) {
        let total = total as int;
        let core = a.state.link.core;
        let (key, _) = traffic::reading_key(core.traffic, core.phase)->0;
        let stream = bytes + (a.rest + later);
        let had = plain::whole(a.data);
        let rest = plain.skip(had.len() as int);
        let (left, mid, action) = choose|
            left: Seq<u8>,
            mid: StateView<S>,
            action: Result<RecordAction, RecordFailure>,
        | #[trigger]
            handled_staged(a.state, total, left, mid, action) && match action {
                Err(failure) => b.state == mid && data is None && Ok::<Control, Error>(control)
                    == Err::<Control, Error>(failure.as_error()),
                Ok(action) => b.state == (StateView {
                    link: mid.link,
                    received: mid.received.consume(total),
                }) && data == data_of(action, left) && Ok::<Control, Error>(control) == Ok::<
                    Control,
                    Error,
                >(control_of(action)),
            };
        assert(stream.len() > 0);
        assert(record::framed_len(stream) == record::framed_len(bytes));
        assert(stream.take(total) =~= bytes.take(total));
        assert(bytes.take(total)[0] == stream[0]);
        let opened = key.open(stream.take(total))->Ok_0->0;
        let body = opened.1;
        direct::carried_record(
            a.state.link,
            bytes.take(total),
            mid.link,
            left,
            action,
            body,
        );
        assert((left + bytes.skip(total)).skip(total) =~= bytes.skip(total));
        assert(b.state.received.bytes() =~= bytes.skip(total));
        assert(b.state.received.bytes() + (b.rest + later) =~= stream.skip(total));
        if body.len() > 0 {
            direct::whole_push(a.data, body);
            assert(b.data == a.data.push(body));
        } else {
            assert(had + body =~= had);
        }
        assert(plain::whole(b.data) == had + body);
        assert(had + body =~= plain.take((had.len() + body.len()) as int));
        assert(rest.skip(body.len() as int) =~= plain.skip((had + body).len() as int));
    }
}

/// Whatever the cuts, a connection that is in step with the writer delivers every byte of
/// application data, once and in order. Where the received bytes, `bytes` and what is
/// still to come, `later`, are records that carry `plain`, a read of `bytes` that succeeds
/// gets a first part of `plain` and is in step with the writer again: the rest of `plain`
/// is in what is received then and in what is still to come.
pub proof fn staged_reading_stays_in_step<S: Peer>(
    before: StateView<S>,
    bytes: Seq<u8>,
    later: Seq<u8>,
    after: StateView<S>,
    data: Seq<Seq<u8>>,
    plain: Seq<u8>,
    end: OpenKey,
)
    requires
        read_all(before, bytes, after, data, Ok(())),
        !state::closed(before.link.core.phase),
        traffic::reading_key(before.link.core.traffic, before.link.core.phase) is Some,
        ({
            let (key, _) = traffic::reading_key(
                before.link.core.traffic,
                before.link.core.phase,
            )->0;
            traffic::carries(key, before.received.bytes() + (bytes + later), plain, end)
        }),
    ensures
        plain::whole(data).is_prefix_of(plain),
        after.link.core.phase == before.link.core.phase,
        traffic::reading_key(after.link.core.traffic, after.link.core.phase) is Some,
        ({
            let (key, _) = traffic::reading_key(
                after.link.core.traffic,
                after.link.core.phase,
            )->0;
            traffic::carries(
                key,
                after.received.bytes() + later,
                plain.skip(plain::whole(data).len() as int),
                end,
            )
        }),
        RecordFrame::completed(after.received.bytes()) == Ok::<Option<nat>, RecordError>(None),
{
    let phase = before.link.core.phase;
    let start = Pass { state: before, rest: bytes, data: Seq::empty() };
    let (path, last) = choose|path: Seq<Pass<S>>, last: Pass<S>|
        #![trigger rounds(start, path), last_round(path.last(), last, Ok(()))]
        rounds(start, path) && last_round(path.last(), last, Ok(())) && last.state == after
            && last.data == data;
    assert(plain::whole(Seq::<Seq<u8>>::empty()) =~= Seq::<u8>::empty());
    assert(plain.skip(0) =~= plain);
    carrying_rounds(start, path, later, phase, plain, end, path.len() - 1);
    let (mid, count, consumed) = choose|mid: Pass<S>, count: nat, consumed: Result<(), Error>|
        #[trigger] round(path.last(), mid, count, last, consumed) && match consumed {
            Err(error) => Ok::<(), Error>(()) == Err::<(), Error>(error),
            Ok(()) => mid.rest.len() == 0,
        };
    carrying_take(path.last(), mid, count, later, phase, plain, end);
    carrying_all(mid, last, later, phase, plain, end);
    assert(last.rest + later =~= later);
}

/// A connection that is in step with the writer reads back exactly what was
/// written: where the received bytes and `bytes` are a run of records that carries
/// `plain`, a read of `bytes` that succeeds gets `plain`, all of it, and is then
/// in step with the writer again.
pub proof fn staged_reading_gives_back_what_was_written<S: Peer>(
    before: StateView<S>,
    bytes: Seq<u8>,
    after: StateView<S>,
    data: Seq<Seq<u8>>,
    plain: Seq<u8>,
    end: OpenKey,
)
    requires
        read_all(before, bytes, after, data, Ok(())),
        !state::closed(before.link.core.phase),
        traffic::reading_key(before.link.core.traffic, before.link.core.phase) is Some,
        ({
            let (key, _) = traffic::reading_key(
                before.link.core.traffic,
                before.link.core.phase,
            )->0;
            traffic::carries(key, before.received.bytes() + bytes, plain, end)
        }),
    ensures
        plain::whole(data) == plain,
        after.received.bytes().len() == 0,
        after.link.core.phase == before.link.core.phase,
        traffic::reading_key(after.link.core.traffic, after.link.core.phase) is Some,
        ({
            let (key, _) = traffic::reading_key(
                after.link.core.traffic,
                after.link.core.phase,
            )->0;
            key == end
        }),
{
    let none = Seq::<u8>::empty();
    assert(before.received.bytes() + (bytes + none) =~= before.received.bytes() + bytes);
    staged_reading_stays_in_step(before, bytes, none, after, data, plain, end);
    let held = after.received.bytes();
    assert(held + none =~= held);
    assert(plain::whole(data) =~= plain);
}

proof fn carrying_many<S: Peer>(
    start: Pass<S>,
    path: Seq<Pass<S>>,
    later: Seq<u8>,
    phase: Phase,
    plain: Seq<u8>,
    end: OpenKey,
    i: int,
)
    requires
        consumed_many(start, path),
        0 <= i < path.len(),
        !state::closed(phase),
        carrying(start, later, phase, plain, end),
    ensures
        carrying(path[i], later, phase, plain, end),
        path[i].rest == start.rest,
    decreases i,
{
    if i > 0 {
        carrying_many(start, path, later, phase, plain, end, i - 1);
        assert(consumes_at(path, i - 1));
        carrying_consume(path[i - 1], path[i], Control::Continue, later, phase, plain, end);
    }
}

proof fn carrying_all<S: Peer>(
    before: Pass<S>,
    after: Pass<S>,
    later: Seq<u8>,
    phase: Phase,
    plain: Seq<u8>,
    end: OpenKey,
)
    requires
        consumed_all(before, after, Ok(())),
        !state::closed(phase),
        carrying(before, later, phase, plain, end),
    ensures
        carrying(after, later, phase, plain, end),
        after.rest == before.rest,
        RecordFrame::completed(after.state.received.bytes()) == Ok::<Option<nat>, RecordError>(
            None,
        ),
{
    let path = choose|path: Seq<Pass<S>>| #[trigger]
        consumed_many(before, path) && consumed_last(path.last(), after, Ok(()));
    carrying_many(before, path, later, phase, plain, end, path.len() - 1);
    carrying_consume(path.last(), after, Control::Stop, later, phase, plain, end);
}

proof fn carrying_rounds<S: Peer>(
    start: Pass<S>,
    path: Seq<Pass<S>>,
    later: Seq<u8>,
    phase: Phase,
    plain: Seq<u8>,
    end: OpenKey,
    i: int,
)
    requires
        rounds(start, path),
        0 <= i < path.len(),
        !state::closed(phase),
        carrying(start, later, phase, plain, end),
    ensures
        carrying(path[i], later, phase, plain, end),
    decreases i,
{
    if i > 0 {
        carrying_rounds(start, path, later, phase, plain, end, i - 1);
        assert(goes_round(path, i - 1));
        let (mid, count) = choose|mid: Pass<S>, count: nat| #[trigger]
            round(path[i - 1], mid, count, path[i - 1 + 1], Ok(())) && count > 0 && mid.rest.len()
                > 0;
        carrying_take(path[i - 1], mid, count, later, phase, plain, end);
        carrying_all(mid, path[i], later, phase, plain, end);
    }
}

/// That receive buffers hold a whole record, and that there always is one.
pub open spec fn ample(received: Received) -> bool {
    &&& !received.lacks
    &&& received.slot >= MAX_TLS_RECORD
    &&& received.recv matches Some(buffer) ==> buffer.capacity >= MAX_TLS_RECORD
}

/// That there is room for at least one more byte.
pub open spec fn open_to_more(received: Received) -> bool {
    received.recv matches Some(buffer) ==> buffer.bytes.len() < buffer.capacity
}

proof fn ample_take<S: Peer>(a: Pass<S>, b: Pass<S>, count: nat)
    requires
        takes(a, b, count),
        ample(a.state.received),
    ensures
        ample(b.state.received),
        open_to_more(a.state.received) && a.rest.len() > 0 ==> count > 0,
{
    let acquired = choose|acquired: bool| #[trigger]
        a.state.received.append(a.rest, acquired) == (b.state.received, Some(count));
}

proof fn ample_consume<S: Peer>(a: Pass<S>, b: Pass<S>, control: Control)
    requires
        consumes(a, b, control),
        ample(a.state.received),
    ensures
        ample(b.state.received),
{
    let data = choose|data: Option<Seq<u8>>| #[trigger]
        consumed_one(a.state, b.state, data, Ok(control)) && b.data == match data {
            Some(data) => a.data.push(data),
            None => a.data,
        };
}

proof fn ample_many<S: Peer>(start: Pass<S>, path: Seq<Pass<S>>, i: int)
    requires
        consumed_many(start, path),
        0 <= i < path.len(),
        ample(start.state.received),
    ensures
        ample(path[i].state.received),
    decreases i,
{
    if i > 0 {
        ample_many(start, path, i - 1);
        assert(consumes_at(path, i - 1));
        ample_consume(path[i - 1], path[i], Control::Continue);
    }
}

proof fn ample_all<S: Peer>(before: Pass<S>, after: Pass<S>)
    requires
        consumed_all(before, after, Ok(())),
        ample(before.state.received),
    ensures
        ample(after.state.received),
{
    let path = choose|path: Seq<Pass<S>>| #[trigger]
        consumed_many(before, path) && consumed_last(path.last(), after, Ok(()));
    ample_many(before, path, path.len() - 1);
    ample_consume(path.last(), after, Control::Stop);
}

/// No record of a carried stream fails.
proof fn carried_never_fails<S: Peer>(
    before: Pass<S>,
    after: Pass<S>,
    result: Result<(), Error>,
    later: Seq<u8>,
    phase: Phase,
    plain: Seq<u8>,
    end: OpenKey,
)
    requires
        consumed_all(before, after, result),
        !state::closed(phase),
        carrying(before, later, phase, plain, end),
    ensures
        result is Ok,
{
    let path = choose|path: Seq<Pass<S>>| #[trigger]
        consumed_many(before, path) && consumed_last(path.last(), after, result);
    carrying_many(before, path, later, phase, plain, end, path.len() - 1);
    if let Err(error) = result {
        let a = path.last();
        let bytes = a.state.received.bytes();
        let stream = bytes + (a.rest + later);
        let core = a.state.link.core;
        let (key, _) = traffic::reading_key(core.traffic, core.phase)->0;
        if bytes.len() >= HEADER_LEN {
            assert(stream[3] == bytes[3] && stream[4] == bytes[4]);
            assert(record::framed_len(stream) == record::framed_len(bytes));
        }
        assert(RecordFrame::completed(bytes) is Ok);
        let total = RecordFrame::completed(bytes)->Ok_0->0 as int;
        let (left, mid, action) = choose|
            left: Seq<u8>,
            mid: StateView<S>,
            action: Result<RecordAction, RecordFailure>,
        | #[trigger]
            handled_staged(a.state, total, left, mid, action) && match action {
                Err(failure) => after.state == mid && Err::<Control, Error>(error) == Err::<
                    Control,
                    Error,
                >(failure.as_error()),
                Ok(_) => false,
            };
        assert(stream.take(total) =~= bytes.take(total));
        assert(bytes.take(total)[0] == stream[0]);
        let opened = key.open(stream.take(total))->Ok_0->0;
        direct::carried_record(
            a.state.link,
            bytes.take(total),
            mid.link,
            left,
            action,
            opened.1,
        );
    }
}

proof fn ample_rounds<S: Peer>(
    start: Pass<S>,
    path: Seq<Pass<S>>,
    later: Seq<u8>,
    phase: Phase,
    plain: Seq<u8>,
    end: OpenKey,
    i: int,
)
    requires
        rounds(start, path),
        0 <= i < path.len(),
        !state::closed(phase),
        carrying(start, later, phase, plain, end),
        ample(start.state.received),
        open_to_more(start.state.received),
    ensures
        carrying(path[i], later, phase, plain, end),
        ample(path[i].state.received),
        open_to_more(path[i].state.received),
    decreases i,
{
    carrying_rounds(start, path, later, phase, plain, end, i);
    if i > 0 {
        ample_rounds(start, path, later, phase, plain, end, i - 1);
        assert(goes_round(path, i - 1));
        let (mid, count) = choose|mid: Pass<S>, count: nat| #[trigger]
            round(path[i - 1], mid, count, path[i - 1 + 1], Ok(())) && count > 0 && mid.rest.len()
                > 0;
        ample_take(path[i - 1], mid, count);
        carrying_take(path[i - 1], mid, count, later, phase, plain, end);
        ample_all(mid, path[i]);
        carrying_all(mid, path[i], later, phase, plain, end);
    }
}

/// A connection that is in step with the writer and has room for a record reads records
/// that carry application data without failing, wherever they are cut.
pub proof fn staged_reading_succeeds_at_any_cut<S: Peer>(
    before: StateView<S>,
    bytes: Seq<u8>,
    later: Seq<u8>,
    after: StateView<S>,
    data: Seq<Seq<u8>>,
    result: Result<(), Error>,
    plain: Seq<u8>,
    end: OpenKey,
)
    requires
        read_all(before, bytes, after, data, result),
        !state::closed(before.link.core.phase),
        traffic::reading_key(before.link.core.traffic, before.link.core.phase) is Some,
        ({
            let (key, _) = traffic::reading_key(
                before.link.core.traffic,
                before.link.core.phase,
            )->0;
            traffic::carries(key, before.received.bytes() + (bytes + later), plain, end)
        }),
        ample(before.received),
        open_to_more(before.received),
    ensures
        result is Ok,
{
    let phase = before.link.core.phase;
    let start = Pass { state: before, rest: bytes, data: Seq::empty() };
    let (path, last) = choose|path: Seq<Pass<S>>, last: Pass<S>|
        #![trigger rounds(start, path), last_round(path.last(), last, result)]
        rounds(start, path) && last_round(path.last(), last, result) && last.state == after
            && last.data == data;
    assert(plain::whole(Seq::<Seq<u8>>::empty()) =~= Seq::<u8>::empty());
    assert(plain.skip(0) =~= plain);
    ample_rounds(start, path, later, phase, plain, end, path.len() - 1);
    let from = path.last();
    if exists|mid: Pass<S>, count: nat, consumed: Result<(), Error>| #[trigger]
        round(from, mid, count, last, consumed) && match consumed {
            Err(error) => result == Err::<(), Error>(error),
            Ok(()) => if mid.rest.len() == 0 {
                result == Ok::<(), Error>(())
            } else {
                count == 0 && result == Err::<(), Error>(Error::Record(RecordError::BodyTooLarge))
            },
        } {
        let (mid, count, consumed) = choose|mid: Pass<S>, count: nat, consumed: Result<(), Error>|
            #[trigger] round(from, mid, count, last, consumed) && match consumed {
                Err(error) => result == Err::<(), Error>(error),
                Ok(()) => if mid.rest.len() == 0 {
                    result == Ok::<(), Error>(())
                } else {
                    count == 0 && result == Err::<(), Error>(
                        Error::Record(RecordError::BodyTooLarge),
                    )
                },
            };
        ample_take(from, mid, count);
        carrying_take(from, mid, count, later, phase, plain, end);
        carried_never_fails(mid, last, consumed, later, phase, plain, end);
    }
}

/// A connection that is in step with the writer and has room for a record reads a run of
/// records that carries application data without failing.
pub proof fn staged_reading_succeeds<S: Peer>(
    before: StateView<S>,
    bytes: Seq<u8>,
    after: StateView<S>,
    data: Seq<Seq<u8>>,
    result: Result<(), Error>,
    plain: Seq<u8>,
    end: OpenKey,
)
    requires
        read_all(before, bytes, after, data, result),
        !state::closed(before.link.core.phase),
        traffic::reading_key(before.link.core.traffic, before.link.core.phase) is Some,
        ({
            let (key, _) = traffic::reading_key(
                before.link.core.traffic,
                before.link.core.phase,
            )->0;
            traffic::carries(key, before.received.bytes() + bytes, plain, end)
        }),
        ample(before.received),
        open_to_more(before.received),
    ensures
        result is Ok,
{
    let none = Seq::<u8>::empty();
    assert(before.received.bytes() + (bytes + none) =~= before.received.bytes() + bytes);
    staged_reading_succeeds_at_any_cut(before, bytes, none, after, data, result, plain, end);
}

} // verus!
