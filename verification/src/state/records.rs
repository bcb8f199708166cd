//! Handling of single records.

use crate::buffer::{self, Cursor, Pool};
use crate::record::{self, OpenKey};
use crate::staging::{HEADER_LEN, MAX_CIPHERTEXT_BODY, MAX_PLAINTEXT_BODY};
use crate::state::events::{Core, PendingControl, RecordEvents, RecordFailure};
use crate::state::sessions::{Call, ClientPeer, Peer};
use crate::state::status::{PeerClose, Phase, Read};
use crate::state::traffic::{self, KeysView, TrafficView};
use shin::connection::{DriveError, Epoch};
use shin::wire::alert::{Alert, Description, Error as AlertError};
use shin::wire::handshake::KeyUpdateRequest;
use shin::wire::record::{ContentType, Error as RecordError};
use vstd::prelude::*;

verus! {

/// Code of a change-cipher-spec record.
pub const REC_CCS: u8 = 20;

/// Code of an alert record.
pub const REC_ALERT: u8 = 21;

/// Code of a handshake record.
pub const REC_HS_PLAIN: u8 = 22;

/// Code of a protected record.
pub const REC_AEAD: u8 = 23;

/// What a record calls for.
#[derive(Clone, Copy, PartialEq, Eq, Structural)]
pub enum Control {
    Continue,
    Stop,
}

impl Control {
    pub open spec fn as_status(self) -> Read {
        match self {
            Control::Continue => Read::Continue,
            Control::Stop => Read::Stop,
        }
    }

    pub fn status(self) -> (status: Read)
        ensures
            status == self.as_status(),
    {
        match self {
            Control::Continue => Read::Continue,
            Control::Stop => Read::Stop,
        }
    }
}

/// What was in a record: so many bytes of application data, or something that the
/// record layer has dealt with.
#[derive(Clone, Copy, PartialEq, Eq, Structural)]
pub enum RecordAction {
    Application(usize),
    Control(Control),
}

/// The extent of a record.
#[derive(Clone, Copy, PartialEq, Eq, Structural)]
pub struct RecordFrame {
    pub total: usize,
}

impl RecordFrame {
    /// The frame that the header at the front of `input` announces.
    pub open spec fn parsed(input: Seq<u8>) -> Result<Option<nat>, RecordError> {
        if input.len() < HEADER_LEN {
            Ok(None)
        } else if record::be16(input[3], input[4]) > MAX_CIPHERTEXT_BODY {
            Err(RecordError::BodyTooLarge)
        } else {
            Ok(Some(record::framed_len(input)))
        }
    }

    /// The frame at the front of `input`, if all of it is there.
    pub open spec fn completed(input: Seq<u8>) -> Result<Option<nat>, RecordError> {
        match RecordFrame::parsed(input) {
            Ok(Some(total)) if input.len() < total => Ok(None),
            other => other,
        }
    }

    /// That an outcome is the expected one.
    pub open spec fn agrees(
        outcome: Result<Option<RecordFrame>, RecordError>,
        expected: Result<Option<nat>, RecordError>,
    ) -> bool {
        match (outcome, expected) {
            (Ok(Some(frame)), Ok(Some(total))) => frame.total == total,
            (Ok(None), Ok(None)) => true,
            (Err(error), Err(refusal)) => error == refusal,
            _ => false,
        }
    }

    pub fn parse(input: &[u8]) -> (frame: Result<Option<RecordFrame>, RecordError>)
        ensures
            RecordFrame::agrees(frame, RecordFrame::parsed(input@)),
    {
        if input.len() < HEADER_LEN {
            return Ok(None);
        }
        let body_len: usize = input[3] as usize * 256 + input[4] as usize;
        if body_len > MAX_CIPHERTEXT_BODY {
            return Err(RecordError::BodyTooLarge);
        }
        Ok(Some(RecordFrame { total: HEADER_LEN + body_len }))
    }

    pub fn complete(input: &[u8]) -> (frame: Result<Option<RecordFrame>, RecordError>)
        ensures
            RecordFrame::agrees(frame, RecordFrame::completed(input@)),
    {
        match RecordFrame::parse(input) {
            Ok(Some(frame)) => {
                if input.len() < frame.total {
                    Ok(None)
                } else {
                    Ok(Some(frame))
                }
            },
            other => other,
        }
    }

    pub fn len(self) -> (total: usize)
        ensures
            total == self.total,
    {
        self.total
    }
}

/// A connection without its receive buffer.
pub struct Records<'d, S> {
    pub side: S,
    pub events: RecordEvents<'d>,
    pub peer_close: PeerClose,
}

/// A connection without its receive buffer, by what it holds.
pub struct Link<S> {
    pub side: S,
    pub core: Core,
    pub close: PeerClose,
}

impl<S> View for Records<'_, S> {
    type V = Link<S>;

    open spec fn view(&self) -> Link<S> {
        Link { side: self.side, core: self.events@, close: self.peer_close }
    }
}

impl<S> Link<S> {
    pub open spec fn with_core(self, core: Core) -> Link<S> {
        Link { core, ..self }
    }
}

/// The keys with `key` in place of the opening key that reads in `phase`.
pub open spec fn with_reading_key(before: TrafficView, phase: Phase, key: OpenKey) -> TrafficView {
    match traffic::reading_key(before, phase) {
        Some((_, true)) => TrafficView {
            handshake: KeysView { open: Some(key), seal: before.handshake.seal },
            application: before.application,
        },
        Some((_, false)) => TrafficView {
            handshake: before.handshake,
            application: KeysView { open: Some(key), seal: before.application.seal },
        },
        None => before,
    }
}

/// Connection, peer side and result after an alert has come in.
///
/// Only a protected close_notify ends the connection in order. The connection
/// stays open for writing if it has keys for that.
pub open spec fn classified(
    core: Core,
    parsed: Result<Alert, AlertError>,
    encrypted: bool,
) -> (Core, PeerClose, Result<Control, RecordFailure>) {
    match parsed {
        Err(_) => (
            core.with_phase(Phase::Closed),
            PeerClose::Fatal(Description::DecodeError),
            Err(RecordFailure::MalformedAlert),
        ),
        Ok(alert) => if encrypted && alert.description == Description::CloseNotify {
            (
                core.with_phase(
                    if core.traffic.application_ready() {
                        Phase::PeerClosed
                    } else {
                        Phase::Closed
                    },
                ),
                PeerClose::CloseNotify,
                Ok(Control::Stop),
            )
        } else {
            (
                core.with_phase(Phase::Closed),
                PeerClose::Fatal(alert.description),
                Err(RecordFailure::PeerAlert(alert.description)),
            )
        },
    }
}

/// The alert that a record which cannot be opened is answered with.
pub open spec fn open_failure_alert(error: RecordError) -> Description {
    match error {
        RecordError::UnexpectedChangeCipherSpec => Description::UnexpectedMessage,
        _ => Description::BadRecordMac,
    }
}

/// The epoch of a protected handshake message.
pub open spec fn protected_epoch(core: Core) -> Epoch {
    if core.phase == Phase::Handshaking && core.traffic.handshake_ready() {
        Epoch::Handshake
    } else {
        Epoch::Application
    }
}

/// That calling the engine of `before` can leave `after` and `result`, by way of
/// the engine's `answer`, which it gave with `mid` left behind.
pub open spec fn drove_by<S: Peer>(
    before: Link<S>,
    call: Call,
    mid: Core,
    answer: Result<(), DriveError<RecordFailure>>,
    acquired: bool,
    after: Link<S>,
    result: Result<(), RecordFailure>,
) -> bool {
    &&& S::answers(before.side, call, before.core, after.side, mid, answer)
    &&& before.core.driven(mid, answer)
    &&& mid.settle(answer, acquired) == (after.core, result)
    &&& after.close == before.close
}

/// That calling the engine of `before` can leave `after` and `result`.
pub open spec fn drove<S: Peer>(
    before: Link<S>,
    call: Call,
    after: Link<S>,
    result: Result<(), RecordFailure>,
) -> bool {
    exists|mid: Core, answer: Result<(), DriveError<RecordFailure>>, acquired: bool| #[trigger]
        drove_by(before, call, mid, answer, acquired, after, result)
}

/// A result without its value.
pub open spec fn unit<T>(result: Result<T, RecordFailure>) -> Result<(), RecordFailure> {
    match result {
        Ok(_) => Ok(()),
        Err(failure) => Err(failure),
    }
}

/// That an unprotected handshake record leaves `after` and `result`.
pub open spec fn handshake_handled<S: Peer>(
    before: Link<S>,
    record: Seq<u8>,
    after: Link<S>,
    result: Result<Control, RecordFailure>,
) -> bool {
    if record.len() > HEADER_LEN + MAX_PLAINTEXT_BODY {
        after == before && result == Err::<Control, RecordFailure>(
            RecordFailure::Record(RecordError::BodyTooLarge),
        )
    } else {
        match record::plaintext_body(record) {
            Err(error) => after == before && result == Err::<Control, RecordFailure>(
                RecordFailure::Record(error),
            ),
            Ok(None) => after == before && result == Err::<Control, RecordFailure>(
                RecordFailure::UnexpectedRecord,
            ),
            Ok(Some(body)) => drove(
                before,
                Call::Read { epoch: Epoch::Plaintext, data: body },
                after,
                unit(result),
            ) && (result matches Ok(control) ==> control == Control::Continue),
        }
    }
}

/// That a protected record leaves `after`, the bytes `left` where it stood, and
/// `result`. Application data follows the header in `left`.
pub open spec fn aead_handled<S: Peer>(
    before: Link<S>,
    record: Seq<u8>,
    after: Link<S>,
    left: Seq<u8>,
    result: Result<RecordAction, RecordFailure>,
) -> bool {
    let core = before.core;
    match traffic::reading_key(core.traffic, core.phase) {
        None => after == before && left == record && result == Err::<RecordAction, RecordFailure>(
            RecordFailure::UnexpectedRecord,
        ),
        Some((key, _)) => match key.open(record) {
            Ok(None) => after == before && left == record && result == Err::<
                RecordAction,
                RecordFailure,
            >(RecordFailure::UnexpectedRecord),
            Ok(Some((content_type, body))) => {
                let opened = before.with_core(
                    core.with_traffic(with_reading_key(core.traffic, core.phase, key.next())),
                );
                &&& left.len() == record.len()
                &&& left.take(HEADER_LEN as int) == record.take(HEADER_LEN as int)
                &&& HEADER_LEN + body.len() <= left.len()
                &&& body.len() <= MAX_PLAINTEXT_BODY
                &&& left.subrange(HEADER_LEN as int, HEADER_LEN + body.len()) == body
                &&& match content_type {
                    ContentType::ApplicationData => after.core == opened.core && after.close
                        == before.close && S::noted(before.side, after.side) && (result matches Ok(
                        RecordAction::Application(len),
                    ) && len == body.len()),
                    ContentType::Handshake => drove(
                        opened,
                        Call::Read { epoch: protected_epoch(core), data: body },
                        after,
                        unit(result),
                    ) && (result matches Ok(action) ==> action == RecordAction::Control(
                        Control::Continue,
                    )),
                    ContentType::Alert => {
                        let (next, close, control) = classified(
                            opened.core,
                            record::parsed_alert(body),
                            true,
                        );
                        after == (Link { side: before.side, core: next, close }) && result
                            == controlled(control)
                    },
                    ContentType::ChangeCipherSpec => false,
                }
            },
            Err(error) => left.len() == record.len() && left.take(HEADER_LEN as int)
                == record.take(HEADER_LEN as int) && result == Err::<RecordAction, RecordFailure>(
                RecordFailure::Record(error),
            ) && refused(before, key, error, after),
        },
    }
}

/// That a record which could not be opened leaves `after`: the key refuses all
/// further records, the peer is told, and the connection is closed.
pub open spec fn refused<S>(
    before: Link<S>,
    key: OpenKey,
    error: RecordError,
    after: Link<S>,
) -> bool {
    exists|spent: OpenKey, acquired: bool|
        {
            &&& spent.secret == key.secret
            &&& spent.suite == key.suite
            &&& spent.poisoned
            &&& after.side == before.side
            &&& after.close == before.close
            &&& after.core == #[trigger] before.core.with_traffic(
                with_reading_key(before.core.traffic, before.core.phase, spent),
            ).stage_fatal_alert(open_failure_alert(error), acquired).with_phase(Phase::Closed)
        }
}

/// A control result as an action.
pub open spec fn controlled(result: Result<Control, RecordFailure>) -> Result<
    RecordAction,
    RecordFailure,
> {
    match result {
        Ok(control) => Ok(RecordAction::Control(control)),
        Err(failure) => Err(failure),
    }
}

/// A control result out of an action.
pub open spec fn uncontrolled(result: Result<RecordAction, RecordFailure>) -> Result<
    Control,
    RecordFailure,
> {
    match result {
        Ok(RecordAction::Control(control)) => Ok(control),
        Ok(RecordAction::Application(_)) => Ok(Control::Continue),
        Err(failure) => Err(failure),
    }
}

/// That handling `record` can leave `after`, the bytes `left` where the record
/// stood, and `result`.
pub open spec fn handled<S: Peer>(
    before: Link<S>,
    record: Seq<u8>,
    after: Link<S>,
    left: Seq<u8>,
    result: Result<RecordAction, RecordFailure>,
) -> bool {
    if record[0] == REC_AEAD {
        aead_handled(before, record, after, left, result)
    } else {
        &&& left == record
        &&& if record[0] == REC_CCS {
            after == before && result == Ok::<RecordAction, RecordFailure>(
                RecordAction::Control(Control::Continue),
            )
        } else if record[0] == REC_ALERT {
            let (next, close, control) = classified(
                before.core,
                record::parsed_alert(record.skip(HEADER_LEN as int)),
                false,
            );
            after == (Link { side: before.side, core: next, close }) && result == controlled(
                control,
            )
        } else if record[0] == REC_HS_PLAIN {
            !(result matches Ok(RecordAction::Application(_))) && handshake_handled(
                before,
                record,
                after,
                uncontrolled(result),
            )
        } else {
            after == before && result == Err::<RecordAction, RecordFailure>(
                RecordFailure::UnexpectedRecord,
            )
        }
    }
}

/// Whether handling `record` hands handshake bytes to the engine.
pub open spec fn asks(core: Core, record: Seq<u8>) -> bool {
    if record[0] == REC_AEAD {
        match traffic::reading_key(core.traffic, core.phase) {
            Some((key, _)) => key.open(record) matches Ok(Some((ContentType::Handshake, _))),
            None => false,
        }
    } else {
        record[0] == REC_HS_PLAIN && record.len() <= HEADER_LEN + MAX_PLAINTEXT_BODY && (
        record::plaintext_body(record) matches Ok(Some(_)))
    }
}

impl<'d, S: Peer> Records<'d, S> {
    /// A connection whose handshake has not begun.
    pub fn new(side: S, pending: Option<Cursor<'d>>, pool: &'d Pool) -> (records: Self)
        ensures
            records.side == side,
            records.peer_close == PeerClose::Open,
            records@.core.phase == Phase::Handshaking,
            records@.core.pending == crate::state::events::contents(pending),
            records@.core.slot == buffer::pool_capacity(*pool),
            records@.core.lacks == buffer::pool_lacks(*pool),
            records@.core.control == (PendingControl {
                fatal_alert: None,
                key_update_response: false,
            }),
            records@.core.traffic == (TrafficView {
                handshake: KeysView { open: None, seal: None },
                application: KeysView { open: None, seal: None },
            }),
    {
        Records { side, events: RecordEvents::new(pending, pool), peer_close: PeerClose::Open }
    }

    /// Handles the record at `start..end` of `bytes`.
    pub fn handle(&mut self, bytes: &mut [u8], start: usize, end: usize) -> (result: Result<
        RecordAction,
        RecordFailure,
    >)
        requires
            start + HEADER_LEN <= end <= old(bytes)@.len(),
        ensures
            final(bytes)@.len() == old(bytes)@.len(),
            forall|i: int|
                0 <= i < old(bytes)@.len() && !(start <= i < end) ==> #[trigger] final(bytes)@[i]
                    == old(bytes)@[i],
            handled(
                old(self)@,
                old(bytes)@.subrange(start as int, end as int),
                final(self)@,
                final(bytes)@.subrange(start as int, end as int),
                result,
            ),
    {
        let ghost record = bytes@.subrange(start as int, end as int);
        let code: u8 = bytes[start];
        if code == REC_CCS {
            Ok(RecordAction::Control(Control::Continue))
        } else if code == REC_ALERT {
            let body = vstd::slice::slice_subrange(&*bytes, start + HEADER_LEN, end);
            assert(body@ =~= record.skip(HEADER_LEN as int));
            let parsed = Alert::parse(body);
            match self.classify_alert(parsed, false) {
                Ok(control) => Ok(RecordAction::Control(control)),
                Err(failure) => Err(failure),
            }
        } else if code == REC_HS_PLAIN {
            let body = vstd::slice::slice_subrange(&*bytes, start, end);
            match self.handle_handshake(body) {
                Ok(control) => Ok(RecordAction::Control(control)),
                Err(failure) => Err(failure),
            }
        } else if code == REC_AEAD {
            self.handle_aead(bytes, start, end)
        } else {
            Err(RecordFailure::UnexpectedRecord)
        }
    }

    /// Handles an unprotected handshake record.
    pub fn handle_handshake(&mut self, record: &[u8]) -> (result: Result<Control, RecordFailure>)
        ensures
            handshake_handled(old(self)@, record@, final(self)@, result),
    {
        if record.len() > HEADER_LEN + MAX_PLAINTEXT_BODY {
            return Err(RecordFailure::Record(RecordError::BodyTooLarge));
        }
        let body = match record::parse_plaintext(record) {
            Ok(Some((body, _))) => body,
            Ok(None) => return Err(RecordFailure::UnexpectedRecord),
            Err(error) => return Err(RecordFailure::Record(error)),
        };
        match self.drive_handshake(Epoch::Plaintext, body) {
            Ok(()) => Ok(Control::Continue),
            Err(failure) => Err(failure),
        }
    }

    /// Handles a protected record: opens it where it stands and deals with what
    /// is inside, except for application data, which is left to the caller.
    pub fn handle_aead(&mut self, bytes: &mut [u8], start: usize, end: usize) -> (result: Result<
        RecordAction,
        RecordFailure,
    >)
        requires
            start + HEADER_LEN <= end <= old(bytes)@.len(),
        ensures
            final(bytes)@.len() == old(bytes)@.len(),
            forall|i: int|
                0 <= i < old(bytes)@.len() && !(start <= i < end) ==> #[trigger] final(bytes)@[i]
                    == old(bytes)@[i],
            aead_handled(
                old(self)@,
                old(bytes)@.subrange(start as int, end as int),
                final(self)@,
                final(bytes)@.subrange(start as int, end as int),
                result,
            ),
    {
        let ghost record = bytes@.subrange(start as int, end as int);
        let ghost before = self@;
        let epoch = if self.events.phase == Phase::Handshaking
            && self.events.traffic.handshake_ready() {
            Epoch::Handshake
        } else {
            Epoch::Application
        };
        let phase = self.events.phase;
        let opened = match self.events.traffic.opener(phase) {
            Ok(opener) => record::open_in_place(opener, bytes, start, end),
            Err(failure) => {
                return Err(RecordFailure::from_traffic(failure));
            },
        };
        let ghost left = bytes@.subrange(start as int, end as int);
        proof {
            assert(left.take(HEADER_LEN as int) =~= record.take(HEADER_LEN as int));
        }
        match opened {
            Ok(Some((content_type, len, _))) => {
                proof {
                    assert(left.subrange(HEADER_LEN as int, HEADER_LEN + len)
                        =~= bytes@.subrange(start + HEADER_LEN, start + HEADER_LEN + len));
                }
                match content_type {
                    ContentType::ApplicationData => {
                        self.side.note_application_data();
                        Ok(RecordAction::Application(len))
                    },
                    ContentType::Handshake => {
                        let body = vstd::slice::slice_subrange(
                            &*bytes,
                            start + HEADER_LEN,
                            start + HEADER_LEN + len,
                        );
                        match self.drive_handshake(epoch, body) {
                            Ok(()) => Ok(RecordAction::Control(Control::Continue)),
                            Err(failure) => Err(failure),
                        }
                    },
                    ContentType::Alert => {
                        let body = vstd::slice::slice_subrange(
                            &*bytes,
                            start + HEADER_LEN,
                            start + HEADER_LEN + len,
                        );
                        let parsed = Alert::parse(body);
                        match self.classify_alert(parsed, true) {
                            Ok(control) => Ok(RecordAction::Control(control)),
                            Err(failure) => Err(failure),
                        }
                    },
                    ContentType::ChangeCipherSpec => Err(
                        RecordFailure::Record(RecordError::UnexpectedChangeCipherSpec),
                    ),
                }
            },
            Ok(None) => {
                assert(left =~= record);
                Err(RecordFailure::UnexpectedRecord)
            },
            Err(error) => {
                let ghost mid = self@;
                self.record_open_failed(error);
                proof {
                    let (key, _) = traffic::reading_key(before.core.traffic, phase)->0;
                    let (spent, _) = traffic::reading_key(mid.core.traffic, phase)->0;
                    assert(mid.core == before.core.with_traffic(
                        with_reading_key(before.core.traffic, phase, spent),
                    ));
                    let acquired = choose|acquired: bool|
                        self@.core == #[trigger] mid.core.stage_fatal_alert(
                            open_failure_alert(error),
                            acquired,
                        ).with_phase(Phase::Closed);
                    assert(self@.core == before.core.with_traffic(
                        with_reading_key(before.core.traffic, before.core.phase, spent),
                    ).stage_fatal_alert(open_failure_alert(error), acquired).with_phase(
                        Phase::Closed,
                    ));
                    assert(refused(before, key, error, self@));
                }
                Err(RecordFailure::Record(error))
            },
        }
    }

    /// Deals with an alert.
    pub fn classify_alert(&mut self, parsed: Result<Alert, AlertError>, encrypted: bool) -> (result:
        Result<Control, RecordFailure>)
        ensures
            ({
                let (next, close, expected) = classified(old(self)@.core, parsed, encrypted);
                final(self)@ == (Link { side: old(self)@.side, core: next, close }) && result
                    == expected
            }),
    {
        let alert = match parsed {
            Ok(alert) => alert,
            Err(_) => {
                self.events.phase = Phase::Closed;
                self.peer_close = PeerClose::Fatal(Description::DecodeError);
                return Err(RecordFailure::MalformedAlert);
            },
        };
        let orderly = match alert.description {
            Description::CloseNotify => encrypted,
            _ => false,
        };
        if orderly {
            self.peer_close = PeerClose::CloseNotify;
            self.events.phase = if self.events.traffic.application_ready() {
                Phase::PeerClosed
            } else {
                Phase::Closed
            };
            Ok(Control::Stop)
        } else {
            self.events.phase = Phase::Closed;
            self.peer_close = PeerClose::Fatal(alert.description);
            Err(RecordFailure::PeerAlert(alert.description))
        }
    }

    /// Closes the connection over a record that could not be opened.
    fn record_open_failed(&mut self, error: RecordError)
        ensures
            final(self)@.side == old(self)@.side,
            final(self)@.close == old(self)@.close,
            exists|acquired: bool|
                final(self)@.core == #[trigger] old(self)@.core.stage_fatal_alert(
                    open_failure_alert(error),
                    acquired,
                ).with_phase(Phase::Closed),
    {
        let description = match error {
            RecordError::UnexpectedChangeCipherSpec => Description::UnexpectedMessage,
            _ => Description::BadRecordMac,
        };
        self.events.stage_fatal_alert(description);
        proof {
            let acquired = choose|acquired: bool| #[trigger]
                old(self).events@.stage_fatal_alert(description, acquired) == self.events@;
            assert(self.events@.with_phase(Phase::Closed)
                == old(self)@.core.stage_fatal_alert(
                open_failure_alert(error),
                acquired,
            ).with_phase(Phase::Closed));
        }
        self.events.phase = Phase::Closed;
    }

    /// Hands handshake bytes to the engine.
    pub fn drive_handshake(&mut self, epoch: Epoch, data: &[u8]) -> (result: Result<
        (),
        RecordFailure,
    >)
        ensures
            drove(old(self)@, Call::Read { epoch, data: data@ }, final(self)@, result),
    {
        let answer = self.side.read_into(epoch, data, &mut self.events);
        self.settle(Ghost(old(self)@), Ghost(Call::Read { epoch, data: data@ }), answer)
    }

    /// Sends a key update.
    pub fn send_key_update(&mut self, request: KeyUpdateRequest) -> (result: Result<
        (),
        RecordFailure,
    >)
        ensures
            drove(old(self)@, Call::KeyUpdate { request }, final(self)@, result),
    {
        let answer = self.side.send_key_update_into(request, &mut self.events);
        self.settle(Ghost(old(self)@), Ghost(Call::KeyUpdate { request }), answer)
    }

    /// Sends the key update that the peer has asked for.
    pub fn send_pending_key_update_response(&mut self) -> (result: Result<(), RecordFailure>)
        ensures
            exists|mid: Link<S>| #[trigger]
                drove(old(self)@, Call::PendingKeyUpdate, mid, result) && final(self)@
                    == answered(mid, result),
    {
        let answer = self.side.send_pending_key_update_response_into(&mut self.events);
        let result = self.settle(Ghost(old(self)@), Ghost(Call::PendingKeyUpdate), answer);
        let ghost mid = self@;
        if result.is_ok() {
            self.events.control.key_update_response = false;
        }
        assert(drove(old(self)@, Call::PendingKeyUpdate, mid, result) && self@ == answered(
            mid,
            result,
        ));
        result
    }

    /// Acts on an engine's answer.
    fn settle(
        &mut self,
        Ghost(before): Ghost<Link<S>>,
        Ghost(call): Ghost<Call>,
        answer: Result<(), DriveError<RecordFailure>>,
    ) -> (result: Result<(), RecordFailure>)
        requires
            S::answers(before.side, call, before.core, old(self)@.side, old(self)@.core, answer),
            before.core.driven(old(self)@.core, answer),
            old(self)@.close == before.close,
        ensures
            drove(before, call, final(self)@, result),
    {
        let ghost mid = self.events@;
        let result = self.events.settle(answer);
        proof {
            let acquired = choose|acquired: bool| #[trigger]
                mid.settle(answer, acquired) == (self.events@, result);
            assert(drove_by(before, call, mid, answer, acquired, self@, result));
        }
        result
    }
}

/// The connection after the key update that the peer asked for was sent.
pub open spec fn answered<S>(mid: Link<S>, result: Result<(), RecordFailure>) -> Link<S> {
    match result {
        Ok(()) => mid.with_core(
            Core {
                control: PendingControl {
                    fatal_alert: mid.core.control.fatal_alert,
                    key_update_response: false,
                },
                ..mid.core
            },
        ),
        Err(_) => mid,
    }
}

impl<'d, S: ClientPeer> Records<'d, S> {
    /// Begins a client's handshake. Control records are not owed yet: what the
    /// engine asks in that respect is dropped.
    pub fn start_client(&mut self) -> (result: Result<(), RecordFailure>)
        ensures
            exists|mid: Link<S>| #[trigger]
                drove(unowed(old(self)@), Call::Start, mid, result) && final(self)@
                    == mid.with_core(Core { control: old(self)@.core.control, ..mid.core }),
    {
        let fatal_alert = self.events.control.fatal_alert;
        let key_update_response = self.events.control.key_update_response;
        self.events.control = PendingControl { fatal_alert: None, key_update_response: false };
        let ghost before = self@;
        let answer = self.side.start_into(&mut self.events);
        let result = self.settle(Ghost(before), Ghost(Call::Start), answer);
        let ghost mid = self@;
        self.events.control = PendingControl { fatal_alert, key_update_response };
        assert(before == unowed(old(self)@));
        assert(drove(unowed(old(self)@), Call::Start, mid, result));
        assert(self@.core.control == old(self)@.core.control);
        result
    }
}

/// A connection that owes no control records.
pub open spec fn unowed<S>(link: Link<S>) -> Link<S> {
    link.with_core(
        Core {
            control: PendingControl { fatal_alert: None, key_update_response: false },
            ..link.core
        },
    )
}

} // verus!
