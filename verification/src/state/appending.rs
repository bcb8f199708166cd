//! That outbound bytes are only ever added to.

use crate::buffer::Contents;
use crate::error::Error;
use crate::record;
use crate::state::events::{self, Asked, Core, RecordFailure};
use crate::state::records::{self, Link};
use crate::state::sessions::{Call, Peer};
use crate::state::status::Phase;
use crate::state;
use shin::connection::DriveError;
use shin::wire::alert::{Alert, Description};
use shin::wire::handshake::KeyUpdateRequest;
use shin::wire::record::ContentType;
use vstd::prelude::*;

verus! {

/// That a buffer is still there, with bytes added behind those that it held.
pub open spec fn grown(before: Option<Contents>, after: Option<Contents>) -> bool {
    match (before, after) {
        (Some(before), Some(after)) => before.bytes.is_prefix_of(after.bytes) && after.capacity
            == before.capacity,
        (None, _) => true,
        (Some(_), None) => false,
    }
}

proof fn sealing_appends(core: Core, content_type: ContentType, body: Seq<u8>)
    requires
        core.pending is Some,
    ensures
        grown(core.pending, core.seal(content_type, body).0.pending),
{
}

proof fn absorbing_appends(core: Core, asked: Asked, acquired: bool)
    requires
        core.pending is Some,
    ensures
        grown(core.pending, core.absorb(asked, acquired).0.pending),
{
}

proof fn driving_appends(core: Core, steps: Seq<(Asked, bool)>)
    requires
        core.pending is Some,
    ensures
        grown(core.pending, core.absorb_all(steps).0.pending),
    decreases steps.len(),
{
    if steps.len() > 0 {
        driving_appends(core, steps.drop_last());
        let mid = core.absorb_all(steps.drop_last()).0;
        absorbing_appends(mid, steps.last().0, steps.last().1);
    }
}

proof fn alerting_appends(core: Core, description: Description, acquired: bool)
    requires
        core.pending is Some,
    ensures
        grown(core.pending, core.write_fatal_alert(description).0.pending),
        grown(core.pending, core.stage_fatal_alert(description, acquired).pending),
{
}

/// Whatever the handshake engine has sent, it is added behind the outbound bytes.
pub proof fn engine_only_appends<S: Peer>(
    before: Link<S>,
    call: Call,
    after: Link<S>,
    result: Result<(), RecordFailure>,
)
    requires
        before.core.pending is Some,
        records::drove(before, call, after, result),
    ensures
        grown(before.core.pending, after.core.pending),
        after.close == before.close,
{
    let (mid, answer, acquired) = choose|
        mid: Core,
        answer: Result<(), DriveError<RecordFailure>>,
        acquired: bool,
    | #[trigger]
        records::drove_by(before, call, mid, answer, acquired, after, result);
    let steps = choose|steps: Seq<(Asked, bool)>| #[trigger]
        before.core.absorb_all(steps) == (mid, events::sink_result(answer));
    driving_appends(before.core, steps);
    match answer {
        Err(DriveError::Protocol(error)) => {
            alerting_appends(mid, record::failure_alert(error).description, acquired);
        },
        _ => {},
    }
}

/// Control records that are owed are added behind the outbound bytes.
pub proof fn draining_only_appends<S: Peer>(
    before: Link<S>,
    after: Link<S>,
    result: Result<(), Error>,
)
    requires
        before.core.pending is Some,
        state::drained(before, after, result),
    ensures
        grown(before.core.pending, after.core.pending),
{
    match before.core.control.fatal_alert {
        Some(description) => {
            alerting_appends(before.core, description, true);
        },
        None => {
            if before.core.phase != Phase::Closed && before.core.control.key_update_response
                && before.core.pending->0.spare() >= state::KEY_UPDATE_LEN {
                let (mid, sent) = choose|mid: Link<S>, sent: Result<(), RecordFailure>| #[trigger]
                    records::drove(before, Call::PendingKeyUpdate, mid, sent) && after
                        == records::answered(mid, sent) && result == state::reported(sent);
                engine_only_appends(before, Call::PendingKeyUpdate, mid, sent);
            }
        },
    }
}

/// The word that a key was replaced is added behind the outbound bytes, and only where the
/// key was used up.
pub proof fn refreshing_only_appends<S: Peer>(
    before: Link<S>,
    spare: int,
    after: Link<S>,
    result: Result<(), Error>,
)
    requires
        before.core.pending is Some,
        state::refreshed(before, spare, after, result),
    ensures
        grown(before.core.pending, after.core.pending),
        !before.core.traffic.needs_key_update() ==> after == before && result is Ok,
{
    if before.core.traffic.needs_key_update() && !state::closed(before.core.phase) && spare
        >= state::KEY_UPDATE_LEN {
        let call = Call::KeyUpdate { request: KeyUpdateRequest::NotRequested };
        let sent = choose|sent: Result<(), RecordFailure>| #[trigger]
            records::drove(before, call, after, sent) && result == state::reported(sent);
        engine_only_appends(before, call, after, sent);
    }
}

/// The record that tells the peer of the end is added behind the outbound bytes.
pub proof fn closing_only_appends(core: Core, alert: Alert)
    requires
        core.pending is Some,
    ensures
        grown(core.pending, core.close_with(alert).0.pending),
{
    sealing_appends(core, ContentType::Alert, record::alert_body(alert));
}

} // verus!
