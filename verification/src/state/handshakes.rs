//! What becomes of a handshake.

use crate::record;
use crate::staging::{HEADER_LEN, MAX_PLAINTEXT_BODY};
use crate::state::events::{self, Asked, Core, RecordFailure};
use crate::state::records::{self, Link, RecordAction};
use crate::state::sessions::{Call, Peer};
use crate::state::status::Phase;
use crate::state::traffic;
use shin::connection::{DriveError, Epoch};
use shin::wire::record::ContentType;
use vstd::prelude::*;

verus! {

/// That the end of the handshake is among what is asked.
pub open spec fn asks_for_the_end(steps: Seq<(Asked, bool)>) -> bool {
    exists|i: int| 0 <= i < steps.len() && (#[trigger] steps[i]).0 == Asked::Done
}

/// The handshake is done just when the engine says so: doing all that it asks leaves the
/// connection established if its end is among it, and in its phase otherwise.
pub proof fn done_when_the_engine_says_so(core: Core, steps: Seq<(Asked, bool)>)
    requires
        core.absorb_all(steps).1 is Ok,
    ensures
        core.absorb_all(steps).0.phase == if asks_for_the_end(steps) {
            Phase::Established
        } else {
            core.phase
        },
    decreases steps.len(),
{
    if steps.len() > 0 {
        let rest = steps.drop_last();
        done_when_the_engine_says_so(core, rest);
        if asks_for_the_end(rest) {
            let i = choose|i: int| 0 <= i < rest.len() && (#[trigger] rest[i]).0 == Asked::Done;
            assert(steps[i].0 == Asked::Done);
        }
        if asks_for_the_end(steps) && steps.last().0 != Asked::Done {
            let i = choose|i: int| 0 <= i < steps.len() && (#[trigger] steps[i]).0 == Asked::Done;
            assert(rest[i].0 == Asked::Done);
        }
        if steps.last().0 == Asked::Done {
            assert(steps[steps.len() - 1].0 == Asked::Done);
        }
    }
}

/// That the engine was called so, and that the connection came to what it answered: it is
/// established when the engine is done, closed with the engine's error when the protocol
/// fails, and goes on otherwise.
pub open spec fn heeded<S: Peer>(
    before: Link<S>,
    call: Call,
    steps: Seq<(Asked, bool)>,
    mid: Core,
    answer: Result<(), DriveError<RecordFailure>>,
    after: Link<S>,
    result: Result<(), RecordFailure>,
) -> bool {
    &&& S::answers(before.side, call, before.core, after.side, mid, answer)
    &&& before.core.absorb_all(steps) == (mid, events::sink_result(answer))
    &&& after.close == before.close
    &&& match answer {
        Ok(()) => result is Ok && after.core == mid && after.core.phase == if asks_for_the_end(
            steps,
        ) {
            Phase::Established
        } else {
            before.core.phase
        },
        Err(DriveError::Protocol(error)) => result == Err::<(), RecordFailure>(
            RecordFailure::Handshake(error),
        ) && after.core.phase == Phase::Closed,
        Err(DriveError::Sink(failure)) => result == Err::<(), RecordFailure>(failure),
    }
}

/// The connection does what the engine answers.
pub proof fn engine_is_heeded<S: Peer>(
    before: Link<S>,
    call: Call,
    after: Link<S>,
    result: Result<(), RecordFailure>,
)
    requires
        records::drove(before, call, after, result),
    ensures
        exists|
            steps: Seq<(Asked, bool)>,
            mid: Core,
            answer: Result<(), DriveError<RecordFailure>>,
        | #[trigger] heeded(before, call, steps, mid, answer, after, result),
{
    let (mid, answer, acquired) = choose|
        mid: Core,
        answer: Result<(), DriveError<RecordFailure>>,
        acquired: bool,
    | #[trigger]
        records::drove_by(before, call, mid, answer, acquired, after, result);
    let steps = choose|steps: Seq<(Asked, bool)>| #[trigger]
        before.core.absorb_all(steps) == (mid, events::sink_result(answer));
    if answer is Ok {
        done_when_the_engine_says_so(before.core, steps);
    }
    assert(heeded(before, call, steps, mid, answer, after, result));
}

/// An unprotected handshake record is handed to the engine, its body whole and nothing
/// else, and stays where it stands.
pub proof fn handshake_record_reaches_the_engine<S: Peer>(
    before: Link<S>,
    record: Seq<u8>,
    body: Seq<u8>,
    after: Link<S>,
    left: Seq<u8>,
    result: Result<RecordAction, RecordFailure>,
)
    requires
        HEADER_LEN <= record.len() <= HEADER_LEN + MAX_PLAINTEXT_BODY,
        record[0] == 22,
        record::plaintext_body(record) == Ok::<
            Option<Seq<u8>>,
            shin::wire::record::Error,
        >(Some(body)),
        records::handled(before, record, after, left, result),
    ensures
        left == record,
        exists|
            steps: Seq<(Asked, bool)>,
            mid: Core,
            answer: Result<(), DriveError<RecordFailure>>,
        | #[trigger]
            heeded(
                before,
                Call::Read { epoch: Epoch::Plaintext, data: body },
                steps,
                mid,
                answer,
                after,
                records::unit(result),
            ),
        !(result matches Ok(RecordAction::Application(_))),
{
    engine_is_heeded(
        before,
        Call::Read { epoch: Epoch::Plaintext, data: body },
        after,
        records::unit(result),
    );
}

/// A protected handshake record is handed to the engine, its plaintext whole and nothing
/// else, by a connection whose opening key has moved on by one record.
pub proof fn protected_record_reaches_the_engine<S: Peer>(
    before: Link<S>,
    record: Seq<u8>,
    body: Seq<u8>,
    after: Link<S>,
    left: Seq<u8>,
    result: Result<RecordAction, RecordFailure>,
) -> (opened: Link<S>)
    requires
        record.len() >= HEADER_LEN,
        record[0] == 23,
        traffic::reading_key(before.core.traffic, before.core.phase) is Some,
        (traffic::reading_key(before.core.traffic, before.core.phase)->0).0.opens(
            record,
            ContentType::Handshake,
            body,
        ),
        records::handled(before, record, after, left, result),
    ensures
        opened.side == before.side,
        opened.close == before.close,
        opened.core == before.core.with_traffic(opened.core.traffic),
        traffic::reading_key(opened.core.traffic, opened.core.phase) == Some(
            (
                (traffic::reading_key(before.core.traffic, before.core.phase)->0).0.next(),
                (traffic::reading_key(before.core.traffic, before.core.phase)->0).1,
            ),
        ),
        opened.core.traffic.application.seal == before.core.traffic.application.seal,
        opened.core.traffic.handshake.seal == before.core.traffic.handshake.seal,
        exists|
            steps: Seq<(Asked, bool)>,
            mid: Core,
            answer: Result<(), DriveError<RecordFailure>>,
        | #[trigger]
            heeded(
                opened,
                Call::Read { epoch: records::protected_epoch(before.core), data: body },
                steps,
                mid,
                answer,
                after,
                records::unit(result),
            ),
        !(result matches Ok(RecordAction::Application(_))),
{
    let (key, _) = traffic::reading_key(before.core.traffic, before.core.phase)->0;
    let opened = before.with_core(
        before.core.with_traffic(
            records::with_reading_key(before.core.traffic, before.core.phase, key.next()),
        ),
    );
    engine_is_heeded(
        opened,
        Call::Read { epoch: records::protected_epoch(before.core), data: body },
        after,
        records::unit(result),
    );
    opened
}

} // verus!
