//! How reading in place ends.

use crate::record;
use crate::staging::{HEADER_LEN, MAX_CIPHERTEXT_BODY};
use crate::state::direct::{self, Trace};
use crate::state::events::RecordFailure;
use crate::state::records::{self, Link, RecordAction};
use crate::state::sessions::Peer;
use crate::state::status::{PeerClose, Phase, Read};
use crate::state::{self, traffic, StateView};
use shin::wire::alert::{Alert, Description};
use shin::wire::record::ContentType;
use vstd::prelude::*;

verus! {

/// That a connection which is not closed has a whole record of this kind before it.
pub open spec fn faces<S: Peer>(before: StateView<S>, input: Seq<u8>, kind: u8) -> bool {
    &&& !state::closed(before.link.core.phase)
    &&& HEADER_LEN <= input.len()
    &&& record::framed_len(input) <= input.len()
    &&& record::framed_len(input) <= HEADER_LEN + MAX_CIPHERTEXT_BODY
    &&& input[0] == kind
}

/// The first record of `input`.
pub open spec fn front(input: Seq<u8>) -> Seq<u8> {
    input.take(record::framed_len(input) as int)
}

/// The first record is handled, and where it does not let reading go on, it is the only
/// one.
proof fn first_record<S: Peer>(
    before: StateView<S>,
    input: Seq<u8>,
    kind: u8,
    after: StateView<S>,
    data: Seq<Seq<u8>>,
    status: Read,
    opened: Seq<u8>,
) -> (handled: (Link<S>, Seq<u8>, Result<RecordAction, RecordFailure>))
    requires
        faces(before, input, kind),
        direct::read_through(before, input, after, data, status, opened),
    ensures
        records::handled(before.link, front(input), handled.0, handled.1, handled.2),
        front(input)[0] == kind,
        front(input).len() >= HEADER_LEN,
        !direct::proceeds(handled.2) ==> after.link == handled.0 && after.received
            == before.received && data.len() == 0 && status == match handled.2 {
            Err(_) => Read::Failed,
            Ok(_) => Read::Stop,
        },
{
    let trace = choose|trace: Trace<S>| #[trigger]
        direct::read_by(trace, before, input, after, data, status, opened);
    let n = trace.actions.len();
    assert(input.skip(0) =~= input);
    if n == 0 {
        assert(direct::record_at(input, 0) == 0);
    } else {
        assert(trace.handles(input, 0));
        assert(direct::record_at(input, 0) == 0);
        assert(direct::record_at(input, 1) == record::framed_len(input)) by {
            reveal_with_fuel(direct::record_at, 2);
        }
        assert(input.subrange(0, record::framed_len(input) as int) =~= front(input));
        if !direct::proceeds(trace.actions[0]) {
            assert(n == 1);
            assert(trace.delivered(1) =~= Seq::<Seq<u8>>::empty()) by {
                reveal_with_fuel(Trace::delivered, 2);
            }
        }
    }
    (trace.links[1], trace.lefts[0], trace.actions[0])
}

/// An alert that comes unprotected ends the connection, whatever it says: the read fails,
/// the connection is closed, and the peer counts as failed with the alert's description.
/// What is no alert at all fails too. Nothing is delivered or sent on that account.
pub proof fn unprotected_alert_closes<S: Peer>(
    before: StateView<S>,
    input: Seq<u8>,
    alert: Alert,
    after: StateView<S>,
    data: Seq<Seq<u8>>,
    status: Read,
    opened: Seq<u8>,
)
    requires
        faces(before, input, 21),
        direct::read_through(before, input, after, data, status, opened),
    ensures
        status == Read::Failed,
        data.len() == 0,
        after.link.core == before.link.core.with_phase(Phase::Closed),
        after.link.side == before.link.side,
        after.received == before.received,
        front(input).skip(HEADER_LEN as int) == record::alert_body(alert) ==> after.link.close
            == PeerClose::Fatal(alert.description),
        record::parsed_alert(front(input).skip(HEADER_LEN as int)) is Err ==> after.link.close
            == PeerClose::Fatal(Description::DecodeError),
{
    record::alerts_round_trip(alert);
    let handled = first_record(before, input, 21, after, data, status, opened);
}

/// A protected alert ends the peer's side. A close_notify does so in order, and the
/// connection can still be written to if it has a key for that; any other closes it and
/// fails the read. Nothing behind it is read.
pub proof fn protected_alert_closes<S: Peer>(
    before: StateView<S>,
    input: Seq<u8>,
    alert: Alert,
    after: StateView<S>,
    data: Seq<Seq<u8>>,
    status: Read,
    opened: Seq<u8>,
)
    requires
        faces(before, input, 23),
        traffic::reading_key(before.link.core.traffic, before.link.core.phase) is Some,
        (traffic::reading_key(before.link.core.traffic, before.link.core.phase)->0).0.opens(
            front(input),
            ContentType::Alert,
            record::alert_body(alert),
        ),
        direct::read_through(before, input, after, data, status, opened),
    ensures
        data.len() == 0,
        after.link.side == before.link.side,
        after.link.core.pending == before.link.core.pending,
        after.link.core.traffic.application.seal == before.link.core.traffic.application.seal,
        alert.description == Description::CloseNotify ==> status == Read::Stop && after.link.close
            == PeerClose::CloseNotify && after.link.core.phase == if before.link.core.traffic.application_ready() {
            Phase::PeerClosed
        } else {
            Phase::Closed
        },
        alert.description != Description::CloseNotify ==> status == Read::Failed
            && after.link.close == PeerClose::Fatal(alert.description) && after.link.core.phase
            == Phase::Closed,
{
    record::alerts_round_trip(alert);
    let handled = first_record(before, input, 23, after, data, status, opened);
}

/// A record that does not open closes the connection and fails the read.
pub proof fn unopened_record_closes<S: Peer>(
    before: StateView<S>,
    input: Seq<u8>,
    after: StateView<S>,
    data: Seq<Seq<u8>>,
    status: Read,
    opened: Seq<u8>,
)
    requires
        faces(before, input, 23),
        traffic::reading_key(before.link.core.traffic, before.link.core.phase) is Some,
        (traffic::reading_key(before.link.core.traffic, before.link.core.phase)->0).0.open(
            front(input),
        ) is Err,
        direct::read_through(before, input, after, data, status, opened),
    ensures
        status == Read::Failed,
        data.len() == 0,
        after.link.core.phase == Phase::Closed,
        after.link.side == before.link.side,
        before.link.core.phase != Phase::Handshaking ==> after.link.core.control.fatal_alert is Some,
{
    let handled = first_record(before, input, 23, after, data, status, opened);
}

/// A record that nothing can be made of fails the read: one of an unknown kind, and a
/// protected one before there is a key for it.
pub proof fn unexpected_record_stops<S: Peer>(
    before: StateView<S>,
    input: Seq<u8>,
    kind: u8,
    after: StateView<S>,
    data: Seq<Seq<u8>>,
    status: Read,
    opened: Seq<u8>,
)
    requires
        faces(before, input, kind),
        kind < 20 || kind > 23 || kind == 23 && traffic::reading_key(
            before.link.core.traffic,
            before.link.core.phase,
        ) is None,
        direct::read_through(before, input, after, data, status, opened),
    ensures
        status == Read::Failed,
        data.len() == 0,
        after == before,
{
    let handled = first_record(before, input, kind, after, data, status, opened);
}

/// A closed connection reads nothing: it delivers nothing, keeps nothing and changes
/// nothing.
pub proof fn closed_reads_nothing<S: Peer>(
    before: StateView<S>,
    input: Seq<u8>,
    after: StateView<S>,
    data: Seq<Seq<u8>>,
    status: Read,
    opened: Seq<u8>,
)
    requires
        state::closed(before.link.core.phase),
        direct::read_through(before, input, after, data, status, opened),
    ensures
        status == Read::Stop,
        data.len() == 0,
        after == before,
        opened == input,
{
    let trace = choose|trace: Trace<S>| #[trigger]
        direct::read_by(trace, before, input, after, data, status, opened);
    if trace.actions.len() > 0 {
        assert(trace.handles(input, 0));
    }
    assert(input.skip(0) =~= input);
    assert(opened.skip(0) =~= opened);
}

} // verus!
