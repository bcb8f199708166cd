//! What goes out on a connection with a buffer of its own.

use crate::error::Error;
use crate::record::{self, SealKey};
use crate::staging::TLS13_RECORD_OVERHEAD;
use crate::state::appending;
use crate::state::events::Core;
use crate::state::plain;
use crate::state::records::Link;
use crate::state::sessions::Peer;
use crate::state::status::Phase;
use crate::state::{self, traffic};
use shin::wire::alert::{Alert, Description, Level};
use shin::wire::record::ContentType;
use vstd::prelude::*;

verus! {

/// The bytes that are to be sent, and none where there is no buffer.
pub open spec fn bytes_out(core: Core) -> Seq<u8> {
    match core.pending {
        Some(out) => out.bytes,
        None => Seq::empty(),
    }
}

/// Application data goes out in records, each byte once and in order, behind what is to be
/// sent already. Where no control record is owed, the bytes to be sent grow by just the
/// records of the pieces that the data is cut into, and by the word that the key was
/// replaced where it was used up. What is left over has no room for its next record.
pub proof fn app_data_goes_out_in_order<S: Peer>(
    before: Link<S>,
    key: SealKey,
    offered: Seq<u8>,
    after: Link<S>,
    count: usize,
) -> (pieces: Seq<Seq<u8>>)
    requires
        !before.core.owes(),
        before.core.traffic.application.seal == Some(key),
        state::wrote_app(before, offered, after, Ok(count)),
    ensures
        before.core.phase == Phase::Established,
        count <= offered.len(),
        plain::whole(pieces) == offered.take(count as int),
        (bytes_out(before.core) + traffic::records_of(key, pieces)).is_prefix_of(
            bytes_out(after.core),
        ),
        traffic::key_after(key, pieces.len()).seq < crate::staging::AEAD_CONFIDENTIALITY_LIMIT
            ==> bytes_out(after.core) == bytes_out(before.core) + traffic::records_of(key, pieces)
            && after.core.traffic.application.seal == Some(traffic::key_after(key, pieces.len()))
            && after.core.phase == Phase::Established && (count < offered.len()
            ==> after.core.pending->0.spare() < traffic::fragment((offered.len() - count) as nat)
            + TLS13_RECORD_OVERHEAD),
{
    let (settled, drain, acquired) = choose|
        settled: Link<S>,
        drain: Result<(), Error>,
        acquired: bool,
    | #[trigger]
        state::wrote_by(before, offered, settled, drain, acquired, after, Ok(count));
    let ready = settled.with_core(settled.core.buffered(acquired));
    let (core, written) = ready.core.write(offered);
    let out = ready.core.pending->0;
    assert(out.bytes =~= bytes_out(before.core));
    let pieces = traffic::writing_seals_in_order(key, out, offered);
    let mid = ready.with_core(core);
    assert(state::refreshed_own(mid, after, Ok(())));
    appending::refreshing_only_appends(mid, state::room(mid.core), after, Ok(()));
    pieces
}

/// Application data is refused unless the connection is established, and then nothing goes
/// out.
pub proof fn app_data_needs_a_connection<S: Peer>(
    before: Link<S>,
    offered: Seq<u8>,
    after: Link<S>,
    result: Result<usize, Error>,
)
    requires
        !before.core.owes(),
        before.core.phase != Phase::Established,
        state::wrote_app(before, offered, after, result),
    ensures
        result is Err,
        bytes_out(after.core) == bytes_out(before.core),
        after.core.traffic == before.core.traffic,
        after.core.phase == before.core.phase,
{
    let (settled, drain, acquired) = choose|
        settled: Link<S>,
        drain: Result<(), Error>,
        acquired: bool,
    | #[trigger]
        state::wrote_by(before, offered, settled, drain, acquired, after, result);
}

/// Closing tells the peer by just one record behind what is to be sent, and closes the
/// connection; where it fails, the connection is as open as it was.
pub proof fn closing_tells_the_peer<S: Peer>(
    before: Link<S>,
    key: SealKey,
    alert: Alert,
    settled: Link<S>,
    drain: Result<(), Error>,
    acquired: bool,
    after: Link<S>,
    result: Result<(), Error>,
)
    requires
        !before.core.owes(),
        before.core.phase != Phase::Closed,
        before.core.traffic.application.seal == Some(key),
        state::closed_by(before, alert, settled, drain, acquired, after, result),
    ensures
        result is Ok ==> after.core.phase == Phase::Closed && key.record(
            ContentType::Alert,
            record::alert_body(alert),
        ) is Some && bytes_out(after.core) == bytes_out(before.core) + key.record(
            ContentType::Alert,
            record::alert_body(alert),
        )->0,
        result is Err ==> after.core.phase == before.core.phase && bytes_out(after.core)
            == bytes_out(before.core),
        after.side == before.side,
        after.close == before.close,
{
    let ready = before.core.buffered(acquired);
    if ready.pending is Some {
        assert(ready.pending->0.bytes =~= bytes_out(before.core));
    }
}

/// A connection that was closed tells the peer nothing more when it is closed again.
pub proof fn closing_again_tells_nothing<S: Peer>(
    before: Link<S>,
    alert: Alert,
    settled: Link<S>,
    drain: Result<(), Error>,
    acquired: bool,
    after: Link<S>,
    result: Result<(), Error>,
)
    requires
        before.core.phase == Phase::Closed,
        before.core.control.fatal_alert is None,
        state::closed_by(before, alert, settled, drain, acquired, after, result),
    ensures
        result is Ok,
        after == before,
{
}

/// The record of a fatal alert: sealed where there is a key for that, and in the clear
/// before.
pub open spec fn alert_record(key: Option<SealKey>, description: Description) -> Seq<u8> {
    let body = record::alert_body(Alert { level: Level::Fatal, description });
    match key {
        Some(key) => (key.record(ContentType::Alert, body))->0,
        None => record::plaintext_record(ContentType::Alert, body),
    }
}

/// A fatal alert that is owed goes out as soon as there is room for it, behind what is to
/// be sent, and is not owed then.
pub proof fn owed_alert_goes_out<S: Peer>(
    before: Link<S>,
    after: Link<S>,
    result: Result<(), Error>,
)
    requires
        before.core.pending is Some,
        before.core.control.fatal_alert is Some,
        before.core.pending->0.spare() >= state::FATAL_ALERT_LEN,
        state::drained(before, after, result),
    ensures
        appending::grown(before.core.pending, after.core.pending),
        result is Ok ==> after.core.control.fatal_alert is None && bytes_out(after.core)
            == bytes_out(before.core) + alert_record(
            before.core.traffic.application.seal,
            before.core.control.fatal_alert->0,
        ),
        result is Err ==> after.core.control.fatal_alert == before.core.control.fatal_alert,
        after.core.phase == before.core.phase,
        after.side == before.side,
{
    appending::draining_only_appends(before, after, result);
}

/// A key update that is owed is answered as soon as there is room for it, and is not owed
/// then. It never goes before a fatal alert, and never on a closed connection.
pub proof fn owed_key_update_goes_out<S: Peer>(
    before: Link<S>,
    after: Link<S>,
    result: Result<(), Error>,
)
    requires
        before.core.pending is Some,
        before.core.control.fatal_alert is None,
        state::drained(before, after, result),
    ensures
        appending::grown(before.core.pending, after.core.pending),
        before.core.phase != Phase::Closed && before.core.pending->0.spare()
            >= state::KEY_UPDATE_LEN && result is Ok ==> !after.core.control.key_update_response,
        before.core.phase == Phase::Closed || !before.core.control.key_update_response ==> after
            == before && result is Ok,
{
    appending::draining_only_appends(before, after, result);
}

} // verus!
