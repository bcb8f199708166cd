//! How reading ends.

use crate::buffered::engines::Engine;
use crate::buffered::held::{self, Held, Round, Step, Whole};
use crate::buffered::wire::{self, Link};
use crate::error::Error;
use crate::record;
use crate::staging::{HEADER_LEN, MAX_CIPHERTEXT_BODY, MAX_TLS_RECORD};
use crate::state;
use crate::state::status::{PeerClose, Phase};
use crate::state::traffic;
use shin::wire::alert::{Alert, Description};
use shin::wire::record::{ContentType, Error as RecordError};
use vstd::prelude::*;

verus! {

/// The bytes that a read has before it.
pub open spec fn stream<E: Engine>(before: Whole<E>, bytes: Seq<u8>) -> Seq<u8> {
    before.held.recv.bytes + bytes
}

/// That an open connection with room for a record has a whole record of this kind before
/// it.
pub open spec fn faces<E: Engine>(before: Whole<E>, bytes: Seq<u8>, kind: u8) -> bool {
    let stream = stream(before, bytes);
    &&& !state::closed(before.held.phase)
    &&& before.held.recv.bytes.len() <= before.held.recv.capacity
    &&& MAX_TLS_RECORD <= before.held.recv.capacity
    &&& HEADER_LEN <= record::framed_len(stream) <= stream.len()
    &&& HEADER_LEN <= stream.len()
    &&& record::framed_len(stream) <= HEADER_LEN + MAX_CIPHERTEXT_BODY
    &&& stream[0] == kind
}

/// The first record that a read has before it.
pub open spec fn front<E: Engine>(before: Whole<E>, bytes: Seq<u8>) -> Seq<u8> {
    stream(before, bytes).take(record::framed_len(stream(before, bytes)) as int)
}

/// Where the first record of a read fails, the read does, and in the same way.
proof fn first_failure_ends<E: Engine>(
    before: Whole<E>,
    bytes: Seq<u8>,
    after: Whole<E>,
    result: Result<(), Error>,
) -> (step: Step<E>)
    requires
        held::read(before, bytes, after, result),
        forall|step: Step<E>| #[trigger]
            before.take_in(bytes).plausible(step) ==> before.take_in(bytes).one(step).result is Err,
    ensures
        before.take_in(bytes).plausible(step),
        before.take_in(bytes).one(step).after == after,
        result is Err,
        before.take_in(bytes).one(step).result == Err::<bool, Error>(result->Err_0),
{
    reveal(held::consumed_one);
    reveal(held::consumed_all);
    let path = choose|path: Seq<Round<E>>| #[trigger]
        held::rounds(before, bytes, path) && held::last_round(
            path.last().state,
            path.last().rest,
            after,
            result,
        );
    let start = before.take_in(bytes);
    assert forall|state: Whole<E>, end: Result<bool, Error>|
        held::consumed_all(start, state, end) implies end is Err && held::consumed_one(
        start,
        state,
        end,
    ) by {
        let steps = choose|steps: Seq<Whole<E>>| #[trigger]
            held::consumed_many(start, steps) && held::consumed_one(steps.last(), state, end);
        if steps.len() > 1 {
            assert(held::passes(steps, 0));
        }
    }
    if path.len() > 1 {
        assert(held::goes_round(path, 0));
    }
    choose|step: Step<E>| #[trigger]
        start.plausible(step) && start.one(step).after == after && start.one(step).result == Err::<
            bool,
            Error,
        >(result->Err_0)
}

/// What is taken in first shows the first record as the stream does.
proof fn front_is_taken_in<E: Engine>(before: Whole<E>, bytes: Seq<u8>, kind: u8)
    requires
        faces(before, bytes, kind),
    ensures
        ({
            let taken = before.take_in(bytes).held;
            let total = record::framed_len(stream(before, bytes)) as int;
            &&& taken.phase == before.held.phase
            &&& taken.recv.bytes.is_prefix_of(stream(before, bytes))
            &&& total <= taken.recv.bytes.len()
            &&& record::framed_len(taken.recv.bytes) == total
            &&& taken.recv.bytes[0] == kind
            &&& taken.recv.bytes.take(total) == front(before, bytes)
            &&& taken.recv.bytes.subrange(HEADER_LEN as int, total) == front(before, bytes).skip(
                HEADER_LEN as int,
            )
        }),
{
    let taken = before.take_in(bytes).held.recv.bytes;
    let all = stream(before, bytes);
    let total = record::framed_len(all) as int;
    let n = held::intake(before.held.recv, bytes);
    assert(taken =~= all.take(before.held.recv.bytes.len() + n));
    assert(taken.take(total) =~= front(before, bytes));
    assert(taken.subrange(HEADER_LEN as int, total) =~= front(before, bytes).skip(
        HEADER_LEN as int,
    ));
}

/// An alert that comes unprotected ends the connection, whatever it says: the read fails
/// with its description, the connection is closed, and the peer counts as failed. What is
/// no alert at all fails too. Nothing is delivered or sent on that account.
pub proof fn unprotected_alert_fails<E: Engine>(
    before: Whole<E>,
    bytes: Seq<u8>,
    alert: Alert,
    after: Whole<E>,
    result: Result<(), Error>,
)
    requires
        faces(before, bytes, 21),
        held::read(before, bytes, after, result),
    ensures
        after.held.phase == Phase::Closed,
        after.held.app == before.held.app,
        after.held.out == before.held.out,
        after.held.traffic == before.held.traffic,
        after.side == before.side,
        front(before, bytes).skip(HEADER_LEN as int) == record::alert_body(alert) ==> result
            == Err::<(), Error>(Error::PeerAlert(alert.description)) && after.held.close
            == PeerClose::Fatal(alert.description),
        record::parsed_alert(front(before, bytes).skip(HEADER_LEN as int)) is Err ==> result
            == Err::<(), Error>(Error::MalformedAlert) && after.held.close == PeerClose::Fatal(
            Description::DecodeError,
        ),
        result == Err::<(), Error>(Error::MalformedAlert) || result is Err && result->Err_0
            is PeerAlert,
{
    front_is_taken_in(before, bytes, 21);
    record::alerts_round_trip(alert);
    let step = first_failure_ends(before, bytes, after, result);
}

/// A protected alert other than close_notify ends the connection in the same way.
pub proof fn protected_alert_fails<E: Engine>(
    before: Whole<E>,
    bytes: Seq<u8>,
    alert: Alert,
    after: Whole<E>,
    result: Result<(), Error>,
)
    requires
        faces(before, bytes, 23),
        traffic::reading_key(before.held.traffic, before.held.phase) is Some,
        (traffic::reading_key(before.held.traffic, before.held.phase)->0).0.opens(
            front(before, bytes),
            ContentType::Alert,
            record::alert_body(alert),
        ),
        alert.description != Description::CloseNotify,
        held::read(before, bytes, after, result),
    ensures
        result == Err::<(), Error>(Error::PeerAlert(alert.description)),
        after.held.phase == Phase::Closed,
        after.held.close == PeerClose::Fatal(alert.description),
        after.held.app == before.held.app,
        after.held.out == before.held.out,
        after.side == before.side,
{
    front_is_taken_in(before, bytes, 23);
    record::alerts_round_trip(alert);
    let step = first_failure_ends(before, bytes, after, result);
}

/// A record that does not open ends the connection: the read fails with the reason, and
/// the connection is closed. Nothing is delivered.
pub proof fn unopened_record_fails<E: Engine>(
    before: Whole<E>,
    bytes: Seq<u8>,
    after: Whole<E>,
    result: Result<(), Error>,
)
    requires
        faces(before, bytes, 23),
        traffic::reading_key(before.held.traffic, before.held.phase) is Some,
        (traffic::reading_key(before.held.traffic, before.held.phase)->0).0.open(
            front(before, bytes),
        ) is Err,
        held::read(before, bytes, after, result),
    ensures
        result == Err::<(), Error>(
            Error::Record(
                (traffic::reading_key(before.held.traffic, before.held.phase)->0).0.open(
                    front(before, bytes),
                )->Err_0,
            ),
        ),
        after.held.phase == Phase::Closed,
        after.held.app == before.held.app,
        before.held.out.bytes.is_prefix_of(after.held.out.bytes),
        after.side == before.side,
{
    front_is_taken_in(before, bytes, 23);
    let step = first_failure_ends(before, bytes, after, result);
}

/// A record that nothing can be made of fails the read: one of an unknown kind, and a
/// protected one before there is a key for it.
pub proof fn unexpected_record_fails<E: Engine>(
    before: Whole<E>,
    bytes: Seq<u8>,
    kind: u8,
    after: Whole<E>,
    result: Result<(), Error>,
)
    requires
        faces(before, bytes, kind),
        kind < 20 || kind > 23 || kind == 23 && traffic::reading_key(
            before.held.traffic,
            before.held.phase,
        ) is None,
        held::read(before, bytes, after, result),
    ensures
        result == Err::<(), Error>(Error::UnexpectedRecord),
        after.held.app == before.held.app,
        after.held.out == before.held.out,
        after.held.traffic == before.held.traffic,
        after.side == before.side,
{
    front_is_taken_in(before, bytes, kind);
    let step = first_failure_ends(before, bytes, after, result);
}

/// That two connections differ at most in the bytes that they have received.
pub open spec fn same_but_received<E: Engine>(one: Whole<E>, other: Whole<E>) -> bool {
    other == one.with(Held { recv: other.held.recv, ..one.held })
}

/// A closed connection handles no record.
proof fn closed_handles_nothing<E: Engine>(
    before: Whole<E>,
    after: Whole<E>,
    result: Result<bool, Error>,
)
    requires
        state::closed(before.held.phase),
        held::consumed_all(before, after, result),
    ensures
        after == before,
        result == Ok::<bool, Error>(false),
{
    reveal(held::consumed_one);
    reveal(held::consumed_all);
    let steps = choose|steps: Seq<Whole<E>>| #[trigger]
        held::consumed_many(before, steps) && held::consumed_one(steps.last(), after, result);
    if steps.len() > 1 {
        assert(held::passes(steps, 0));
    }
}

/// From a closed round on, nothing but bytes comes in.
proof fn closed_rounds<E: Engine>(
    before: Whole<E>,
    bytes: Seq<u8>,
    path: Seq<Round<E>>,
    from: int,
    i: int,
)
    requires
        held::rounds(before, bytes, path),
        0 <= from <= i < path.len(),
        state::closed(path[from].state.held.phase),
    ensures
        same_but_received(path[from].state, path[i].state),
    decreases i,
{
    if i > from {
        closed_rounds(before, bytes, path, from, i - 1);
        assert(held::goes_round(path, i - 1));
        closed_handles_nothing(
            path[i - 1].state.take_in(path[i - 1].rest),
            path[i - 1 + 1].state,
            Ok(false),
        );
    }
}

proof fn closed_last_round<E: Engine>(
    mid: Whole<E>,
    left: Seq<u8>,
    after: Whole<E>,
    result: Result<(), Error>,
)
    requires
        state::closed(mid.held.phase),
        held::last_round(mid, left, after, result),
    ensures
        same_but_received(mid, after),
        result is Ok || result == Err::<(), Error>(Error::Record(RecordError::BodyTooLarge)),
{
    let start = mid.take_in(left);
    match result {
        Ok(()) => {
            closed_handles_nothing(start, after, Ok(false));
        },
        Err(error) => {
            if held::consumed_all(start, after, Err(error)) {
                closed_handles_nothing(start, after, Err(error));
            } else {
                closed_handles_nothing(start, after, Ok(false));
            }
        },
    }
}

/// A closed connection delivers nothing more, sends nothing on account of what comes in,
/// and asks its engine nothing.
pub proof fn closed_reads_nothing<E: Engine>(
    before: Whole<E>,
    bytes: Seq<u8>,
    after: Whole<E>,
    result: Result<(), Error>,
)
    requires
        state::closed(before.held.phase),
        held::read(before, bytes, after, result),
    ensures
        same_but_received(before, after),
        result is Ok || result == Err::<(), Error>(Error::Record(RecordError::BodyTooLarge)),
{
    let path = choose|path: Seq<Round<E>>| #[trigger]
        held::rounds(before, bytes, path) && held::last_round(
            path.last().state,
            path.last().rest,
            after,
            result,
        );
    closed_rounds(before, bytes, path, 0, path.len() - 1);
    closed_last_round(path.last().state, path.last().rest, after, result);
}

/// That a connection has taken a close_notify in.
pub open spec fn notified<E: Engine>(before: Whole<E>, after: Whole<E>) -> bool {
    &&& after.held.close == PeerClose::CloseNotify
    &&& after.held.phase == if before.held.traffic.application.seal is Some {
        Phase::PeerClosed
    } else {
        Phase::Closed
    }
    &&& after.held.app == before.held.app
    &&& after.held.out == before.held.out
    &&& after.held.traffic.application.seal == before.held.traffic.application.seal
    &&& after.side == before.side
}

/// No record behind a close_notify is handled.
proof fn close_notify_stops<E: Engine>(
    before: Whole<E>,
    bytes: Seq<u8>,
    alert: Alert,
    after: Whole<E>,
    result: Result<bool, Error>,
)
    requires
        faces(before, bytes, 23),
        traffic::reading_key(before.held.traffic, before.held.phase) is Some,
        (traffic::reading_key(before.held.traffic, before.held.phase)->0).0.opens(
            front(before, bytes),
            ContentType::Alert,
            record::alert_body(alert),
        ),
        alert.description == Description::CloseNotify,
        held::consumed_all(before.take_in(bytes), after, result),
    ensures
        notified(before, after),
        result == Ok::<bool, Error>(false),
{
    reveal(held::consumed_one);
    reveal(held::consumed_all);
    front_is_taken_in(before, bytes, 23);
    record::alerts_round_trip(alert);
    let start = before.take_in(bytes);
    let steps = choose|steps: Seq<Whole<E>>| #[trigger]
        held::consumed_many(start, steps) && held::consumed_one(steps.last(), after, result);
    assert(forall|step: Step<E>| #[trigger]
        start.plausible(step) ==> start.one(step).result == Ok::<bool, Error>(false));
    if steps.len() > 1 {
        assert(held::passes(steps, 0));
    }
}

/// A protected close_notify ends the peer's side in order: nothing behind it is read, what
/// came before it stays, and the connection can still be written to if it has a key for
/// that.
pub proof fn close_notify_ends_in_order<E: Engine>(
    before: Whole<E>,
    bytes: Seq<u8>,
    alert: Alert,
    after: Whole<E>,
    result: Result<(), Error>,
)
    requires
        faces(before, bytes, 23),
        traffic::reading_key(before.held.traffic, before.held.phase) is Some,
        (traffic::reading_key(before.held.traffic, before.held.phase)->0).0.opens(
            front(before, bytes),
            ContentType::Alert,
            record::alert_body(alert),
        ),
        alert.description == Description::CloseNotify,
        held::read(before, bytes, after, result),
    ensures
        notified(before, after),
        result is Ok || result == Err::<(), Error>(Error::Record(RecordError::BodyTooLarge)),
        bytes.len() <= before.held.recv.spare() ==> result is Ok,
{
    let path = choose|path: Seq<Round<E>>| #[trigger]
        held::rounds(before, bytes, path) && held::last_round(
            path.last().state,
            path.last().rest,
            after,
            result,
        );
    let start = before.take_in(bytes);
    if path.len() > 1 {
        assert(held::goes_round(path, 0));
        close_notify_stops(before, bytes, alert, path[1].state, Ok(false));
        closed_rounds(before, bytes, path, 1, path.len() - 1);
        closed_last_round(path.last().state, path.last().rest, after, result);
        if bytes.len() <= before.held.recv.spare() {
            assert(path[1].rest.len() == 0);
            if path.len() > 2 {
                assert(held::goes_round(path, 1));
            }
            if result is Err {
                closed_handles_nothing(
                    path.last().state.take_in(path.last().rest),
                    after,
                    Err(result->Err_0),
                );
            }
        }
    } else {
        match result {
            Ok(()) => {
                close_notify_stops(before, bytes, alert, after, Ok(false));
            },
            Err(error) => {
                if held::consumed_all(start, after, Err(error)) {
                    close_notify_stops(before, bytes, alert, after, Err(error));
                } else {
                    close_notify_stops(before, bytes, alert, after, Ok(false));
                }
            },
        }
    }
}

/// A change_cipher_spec record is passed over: it changes nothing, and what follows it is
/// handled next.
pub proof fn change_cipher_spec_is_passed_over<E: Engine>(
    before: Whole<E>,
    after: Whole<E>,
    result: Result<bool, Error>,
)
    requires
        faces(before, Seq::empty(), 20),
        held::consumed_one(before, after, result),
    ensures
        result == Ok::<bool, Error>(true),
        same_but_received(before, after),
        after.held.recv.bytes == before.held.recv.bytes.skip(
            record::framed_len(before.held.recv.bytes) as int,
        ),
{
    reveal(held::consumed_one);
    assert(before.held.recv.bytes + Seq::<u8>::empty() =~= before.held.recv.bytes);
}

/// A wire is to be closed when its connection is, or when reading fails; a wire that was to
/// be closed stays so. Otherwise it stays open.
pub proof fn failed_read_closes_the_wire<E: Engine>(
    before: Link<E>,
    input: Seq<u8>,
    after: Link<E>,
) -> (result: Result<(), Error>)
    requires
        before.tls is Some,
        input.len() > 0,
        wire::ingested(before, input, after),
    ensures
        after.tls is Some,
        held::read(before.tls->0, input, after.tls->0, result),
        after.close <==> before.close || result is Err || state::closed(
            (after.tls->0).held.phase,
        ),
        after.pending == before.pending,
        after.egress == before.egress,
{
    let tls = before.tls->0;
    let (now, done) = choose|now: Whole<E>, done: bool| #[trigger]
        wire::tried(tls, input, now, done) && after == (Link {
            tls: Some(now),
            close: before.close || !done || state::closed(now.held.phase),
            ..before
        });
    choose|result: Result<(), Error>| #[trigger]
        held::read(tls, input, now, result) && done == (result is Ok)
}

} // verus!
