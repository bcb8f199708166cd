//! What the handshake engine asks of the record layer.

use crate::buffer::{self, Contents, Cursor, Pool};
use crate::error::Error;
use crate::record;
use crate::state::status::Phase;
use crate::state::traffic::{self, Traffic, TrafficFailure, TrafficView};
use shin::client::Ticket;
use shin::connection::{
    DriveError, Epoch, Error as HandshakeError, Event, EventContext, EventSink, KeyDirection,
};
use shin::crypto::material::TrafficSecret;
use shin::wire::alert::Description;
use shin::wire::record::{CipherSuite, ContentType, Error as RecordError, KeyError};
use vstd::prelude::*;

verus! {

#[verifier::external_type_specification]
#[verifier::external_body]
pub struct ExTrafficSecret(TrafficSecret);

#[verifier::external_type_specification]
#[verifier::external_body]
pub struct ExTicket<'a>(Ticket<'a>);

#[verifier::external_type_specification]
pub struct ExEvent<'a>(Event<'a>);

#[verifier::external_type_specification]
#[verifier::external_body]
pub struct ExEventContext(EventContext);

#[verifier::external_type_specification]
#[verifier::reject_recursive_types(E)]
pub struct ExDriveError<E>(DriveError<E>);

/// The bytes of a traffic secret.
pub uninterp spec fn secret_bytes(secret: TrafficSecret) -> Seq<u8>;

/// The suite that an event comes with.
pub uninterp spec fn context_suite(context: EventContext) -> Option<CipherSuite>;

/// Whether an event comes with a request for a key update in return.
pub uninterp spec fn context_requested(context: EventContext) -> bool;

/// `TrafficSecret::as_slice`: the bytes of the secret.
pub assume_specification[ TrafficSecret::as_slice ](secret: &TrafficSecret) -> (bytes: &[u8])
    ensures
        bytes@ == secret_bytes(*secret),
;

/// `EventContext::cipher_suite`: the suite that was negotiated, if any was yet.
pub assume_specification[ EventContext::cipher_suite ](context: EventContext) -> (suite: Option<
    CipherSuite,
>)
    ensures
        suite == context_suite(context),
;

/// `EventContext::key_update_response_requested`: whether the peer wants a key
/// update in return.
pub assume_specification[ EventContext::key_update_response_requested ](
    context: EventContext,
) -> (requested: bool)
    ensures
        requested == context_requested(context),
;

/// Why a record could not be handled.
pub enum RecordFailure {
    Handshake(HandshakeError),
    UnexpectedRecord,
    NotEstablished,
    Record(RecordError),
    RecordKey(KeyError),
    PeerAlert(Description),
    MalformedAlert,
    SendOverflow,
    BufferUnavailable,
    EarlyDataUnsupported,
}

impl RecordFailure {
    /// The failure as an error of the connection.
    pub open spec fn as_error(self) -> Error {
        match self {
            RecordFailure::Handshake(error) => Error::Handshake(error),
            RecordFailure::UnexpectedRecord => Error::UnexpectedRecord,
            RecordFailure::NotEstablished => Error::NotEstablished,
            RecordFailure::Record(error) => Error::Record(error),
            RecordFailure::RecordKey(error) => Error::RecordKey(error),
            RecordFailure::PeerAlert(description) => Error::PeerAlert(description),
            RecordFailure::MalformedAlert => Error::MalformedAlert,
            RecordFailure::SendOverflow => Error::SendOverflow,
            RecordFailure::BufferUnavailable => Error::BufferUnavailable,
            RecordFailure::EarlyDataUnsupported => Error::EarlyDataUnsupported,
        }
    }

    pub fn into_error(self) -> (error: Error)
        ensures
            error == self.as_error(),
    {
        match self {
            RecordFailure::Handshake(error) => Error::Handshake(error),
            RecordFailure::UnexpectedRecord => Error::UnexpectedRecord,
            RecordFailure::NotEstablished => Error::NotEstablished,
            RecordFailure::Record(error) => Error::Record(error),
            RecordFailure::RecordKey(error) => Error::RecordKey(error),
            RecordFailure::PeerAlert(description) => Error::PeerAlert(description),
            RecordFailure::MalformedAlert => Error::MalformedAlert,
            RecordFailure::SendOverflow => Error::SendOverflow,
            RecordFailure::BufferUnavailable => Error::BufferUnavailable,
            RecordFailure::EarlyDataUnsupported => Error::EarlyDataUnsupported,
        }
    }

    /// A failure of the keys as a failure of the record.
    pub open spec fn of_traffic(failure: TrafficFailure) -> RecordFailure {
        match failure {
            TrafficFailure::UnexpectedRecord => RecordFailure::UnexpectedRecord,
            TrafficFailure::NotEstablished => RecordFailure::NotEstablished,
            TrafficFailure::Record(error) => RecordFailure::Record(error),
            TrafficFailure::RecordKey(error) => RecordFailure::RecordKey(error),
            TrafficFailure::SendOverflow => RecordFailure::SendOverflow,
        }
    }

    pub fn from_traffic(failure: TrafficFailure) -> (result: RecordFailure)
        ensures
            result == RecordFailure::of_traffic(failure),
    {
        match failure {
            TrafficFailure::UnexpectedRecord => RecordFailure::UnexpectedRecord,
            TrafficFailure::NotEstablished => RecordFailure::NotEstablished,
            TrafficFailure::Record(error) => RecordFailure::Record(error),
            TrafficFailure::RecordKey(error) => RecordFailure::RecordKey(error),
            TrafficFailure::SendOverflow => RecordFailure::SendOverflow,
        }
    }
}

/// Control records that are still owed to the peer.
pub struct PendingControl {
    pub fatal_alert: Option<Description>,
    pub key_update_response: bool,
}

/// The side of a connection that the handshake engine drives: phase, outbound
/// buffer, owed control records, keys.
pub struct RecordEvents<'d> {
    pub phase: Phase,
    pub pending: Option<Cursor<'d>>,
    pub pool: &'d Pool,
    pub control: PendingControl,
    pub traffic: Traffic,
}

/// That side, by what it holds. `slot` is the capacity that a buffer would have, and
/// `lacks` whether the pool can be without a free one.
#[verifier::ext_equal]
pub struct Core {
    pub phase: Phase,
    pub pending: Option<Contents>,
    pub slot: nat,
    pub lacks: bool,
    pub control: PendingControl,
    pub traffic: TrafficView,
}

/// An optional buffer by its contents.
pub open spec fn contents(cursor: Option<Cursor<'_>>) -> Option<Contents> {
    match cursor {
        Some(cursor) => Some(cursor@),
        None => None,
    }
}

/// The bytes of an optional buffer: none where there is no buffer.
pub open spec fn bytes_of(pending: Option<Contents>) -> Seq<u8> {
    match pending {
        Some(out) => out.bytes,
        None => Seq::empty(),
    }
}

impl View for RecordEvents<'_> {
    type V = Core;

    open spec fn view(&self) -> Core {
        Core {
            phase: self.phase,
            pending: contents(self.pending),
            slot: buffer::pool_capacity(*self.pool),
            lacks: buffer::pool_lacks(*self.pool),
            control: self.control,
            traffic: self.traffic@,
        }
    }
}

/// What the handshake engine asks, with its context.
pub enum Asked {
    Send { epoch: Epoch, data: Seq<u8> },
    KeysReady { epoch: Epoch, read: Seq<u8>, write: Seq<u8>, suite: Option<CipherSuite> },
    KeyUpdate {
        direction: KeyDirection,
        secret: Seq<u8>,
        suite: Option<CipherSuite>,
        requested: bool,
    },
    Done,
    Other,
}

/// An event and its context, by what they hold.
pub open spec fn asked(event: Event<'_>, context: EventContext) -> Asked {
    match event {
        Event::Send { epoch, data } => Asked::Send { epoch, data: data@ },
        Event::KeysReady { epoch, read_secret, write_secret } => Asked::KeysReady {
            epoch,
            read: secret_bytes(*read_secret),
            write: secret_bytes(*write_secret),
            suite: context_suite(context),
        },
        Event::KeyUpdate { direction, secret } => Asked::KeyUpdate {
            direction,
            secret: secret_bytes(*secret),
            suite: context_suite(context),
            requested: context_requested(context),
        },
        Event::Done => Asked::Done,
        _ => Asked::Other,
    }
}

/// Buffer and result after an unprotected record was to be written.
pub open spec fn encoded(out: Contents, content_type: ContentType, body: Seq<u8>) -> (
    Contents,
    Result<(), RecordFailure>,
) {
    let (more, result) = record::plaintext_written(out, content_type, body);
    (
        more,
        match result {
            Ok(()) => Ok(()),
            Err(RecordError::BufferTooSmall) => Err(RecordFailure::SendOverflow),
            Err(error) => Err(RecordFailure::Record(error)),
        },
    )
}

impl Core {
    /// With an outbound buffer, if there was one or one could be `acquired`. A pool
    /// that is never without a free one always gives it.
    pub open spec fn buffered(self, acquired: bool) -> Core {
        if self.pending is None && (acquired || !self.lacks) {
            Core {
                pending: Some(Contents { bytes: Seq::empty(), capacity: self.slot }),
                ..self
            }
        } else {
            self
        }
    }

    /// With other contents in the outbound buffer.
    pub open spec fn with_pending(self, out: Contents) -> Core {
        Core { pending: Some(out), ..self }
    }

    /// With other keys.
    pub open spec fn with_traffic(self, traffic: TrafficView) -> Core {
        Core { traffic, ..self }
    }

    /// In another phase.
    pub open spec fn with_phase(self, phase: Phase) -> Core {
        Core { phase, ..self }
    }

    /// After a record of type `content_type` was to be sealed under the
    /// application key into the outbound buffer.
    pub open spec fn seal(self, content_type: ContentType, body: Seq<u8>) -> (
        Core,
        Result<(), TrafficFailure>,
    ) {
        let (key, out, result) = traffic::sealed(
            self.traffic.application.seal,
            TrafficFailure::NotEstablished,
            self.pending->0,
            content_type,
            body,
        );
        (self.with_traffic(self.traffic.with_seal(key)).with_pending(out), result)
    }

    /// After handshake bytes were to be sent in an epoch.
    pub open spec fn send(self, epoch: Epoch, data: Seq<u8>, acquired: bool) -> (
        Core,
        Result<(), RecordFailure>,
    ) {
        let ready = self.buffered(acquired);
        match ready.pending {
            None => (ready, Err(RecordFailure::BufferUnavailable)),
            Some(out) => match epoch {
                Epoch::Plaintext => {
                    let (more, result) = encoded(out, ContentType::Handshake, data);
                    (ready.with_pending(more), result)
                },
                Epoch::Handshake => {
                    let (key, more, result) = traffic::sealed(
                        ready.traffic.handshake.seal,
                        TrafficFailure::UnexpectedRecord,
                        out,
                        ContentType::Handshake,
                        data,
                    );
                    (
                        ready.with_traffic(ready.traffic.with_handshake_seal(key)).with_pending(
                            more,
                        ),
                        widened(result),
                    )
                },
                Epoch::Application => {
                    let (next, result) = ready.seal(ContentType::Handshake, data);
                    (next, widened(result))
                },
                Epoch::EarlyData => (ready, Err(RecordFailure::EarlyDataUnsupported)),
            },
        }
    }

    /// After one thing was asked of it.
    pub open spec fn absorb(self, asked: Asked, acquired: bool) -> (
        Core,
        Result<(), RecordFailure>,
    ) {
        match asked {
            Asked::Send { epoch, data } => self.send(epoch, data, acquired),
            Asked::KeysReady { epoch, read, write, suite } => match suite {
                None => (self, Err(RecordFailure::UnexpectedRecord)),
                Some(suite) => {
                    let (keys, result) = self.traffic.install(epoch, read, write, suite);
                    (self.with_traffic(keys), widened(result))
                },
            },
            Asked::KeyUpdate { direction, secret, suite, requested } => match suite {
                None => (self, Err(RecordFailure::UnexpectedRecord)),
                Some(suite) => {
                    let (keys, result) = self.traffic.update(direction, secret, suite);
                    match result {
                        Err(failure) => (
                            self.with_traffic(keys),
                            Err(RecordFailure::of_traffic(failure)),
                        ),
                        Ok(()) => (
                            Core {
                                traffic: keys,
                                control: PendingControl {
                                    fatal_alert: self.control.fatal_alert,
                                    key_update_response: self.control.key_update_response
                                        || requested,
                                },
                                ..self
                            },
                            Ok(()),
                        ),
                    }
                },
            },
            Asked::Done => (self.with_phase(Phase::Established), Ok(())),
            Asked::Other => (self, Ok(())),
        }
    }

    /// After all of `steps` were asked of it, in order, up to the first failure.
    /// A step says whether a buffer was to be had if one was missing.
    pub open spec fn absorb_all(self, steps: Seq<(Asked, bool)>) -> (
        Core,
        Result<(), RecordFailure>,
    )
        decreases steps.len(),
    {
        if steps.len() == 0 {
            (self, Ok(()))
        } else {
            let (mid, result) = self.absorb_all(steps.drop_last());
            match result {
                Ok(()) => mid.absorb(steps.last().0, steps.last().1),
                Err(failure) => (mid, Err(failure)),
            }
        }
    }

    /// That the handshake engine, having asked what it asked, can leave `after`
    /// and the answer `result`: it stops where something that it asked failed, and
    /// hands that failure back.
    pub open spec fn driven(
        self,
        after: Core,
        result: Result<(), DriveError<RecordFailure>>,
    ) -> bool {
        exists|steps: Seq<(Asked, bool)>| #[trigger]
            self.absorb_all(steps) == (after, sink_result(result))
    }

    /// After the engine has answered. A protocol failure is told to the peer and
    /// closes the connection.
    pub open spec fn settle(
        self,
        answer: Result<(), DriveError<RecordFailure>>,
        acquired: bool,
    ) -> (Core, Result<(), RecordFailure>) {
        match answer {
            Ok(()) => (self, Ok(())),
            Err(DriveError::Protocol(error)) => (
                self.stage_fatal_alert(
                    record::failure_alert(error).description,
                    acquired,
                ).with_phase(Phase::Closed),
                Err(RecordFailure::Handshake(error)),
            ),
            Err(DriveError::Sink(failure)) => (self, Err(failure)),
        }
    }

    /// After a fatal alert was to be told to the peer: during the handshake at
    /// once, if there is a buffer with room, later when control records are
    /// drained. The first alert that is owed stays.
    pub open spec fn stage_fatal_alert(self, description: Description, acquired: bool) -> Core {
        if self.phase != Phase::Handshaking {
            Core {
                control: PendingControl {
                    fatal_alert: match self.control.fatal_alert {
                        Some(first) => Some(first),
                        None => Some(description),
                    },
                    key_update_response: self.control.key_update_response,
                },
                ..self
            }
        } else {
            let ready = self.buffered(acquired);
            match ready.pending {
                None => ready,
                Some(_) => ready.write_fatal_alert(description).0,
            }
        }
    }

    /// After a fatal alert was to be put into the outbound buffer: sealed once
    /// there are application keys, in the clear before.
    pub open spec fn write_fatal_alert(self, description: Description) -> (
        Core,
        Result<(), RecordFailure>,
    ) {
        let body = fatal_body(description);
        if self.traffic.application_ready() {
            let (next, result) = self.seal(ContentType::Alert, body);
            (next, widened(result))
        } else {
            let (more, result) = encoded(self.pending->0, ContentType::Alert, body);
            (self.with_pending(more), result)
        }
    }
}

/// The bytes of a fatal alert.
pub open spec fn fatal_body(description: Description) -> Seq<u8> {
    record::alert_body(
        (shin::wire::alert::Alert { level: shin::wire::alert::Level::Fatal, description }),
    )
}

/// A result of the keys as a result of the record.
pub open spec fn widened(result: Result<(), TrafficFailure>) -> Result<(), RecordFailure> {
    match result {
        Ok(()) => Ok(()),
        Err(failure) => Err(RecordFailure::of_traffic(failure)),
    }
}

/// What an answer of the engine says of the sink that it was given.
pub open spec fn sink_result(answer: Result<(), DriveError<RecordFailure>>) -> Result<
    (),
    RecordFailure,
> {
    match answer {
        Err(DriveError::Sink(failure)) => Err(failure),
        _ => Ok(()),
    }
}

/// Puts an unprotected record into `output`.
pub(crate) fn encode_plaintext(
    output: &mut Cursor<'_>,
    content_type: ContentType,
    data: &[u8],
) -> (result: Result<(), RecordFailure>)
    ensures
        (final(output)@, result) == encoded(old(output)@, content_type, data@),
{
    match record::write_plaintext(content_type, data, output) {
        Ok(()) => Ok(()),
        Err(RecordError::BufferTooSmall) => Err(RecordFailure::SendOverflow),
        Err(error) => Err(RecordFailure::Record(error)),
    }
}

/// Sees to it that there is a buffer, if the pool has one. Says whether there is.
pub(crate) fn reserve<'d>(pending: &mut Option<Cursor<'d>>, pool: &'d Pool) -> (ready: bool)
    ensures
        ready == (*final(pending) is Some),
        *old(pending) is Some ==> *final(pending) == *old(pending),
        *old(pending) is None && ready ==> contents(*final(pending)) == Some(
            (Contents { bytes: Seq::empty(), capacity: buffer::pool_capacity(*pool) }),
        ),
        !ready ==> buffer::pool_lacks(*pool),
{
    if pending.is_none() {
        *pending = pool.try_acquire();
    }
    pending.is_some()
}

impl<'d> RecordEvents<'d> {
    /// A connection whose handshake has not begun.
    pub fn new(pending: Option<Cursor<'d>>, pool: &'d Pool) -> (events: Self)
        ensures
            events@ == (Core {
                phase: Phase::Handshaking,
                pending: contents(pending),
                slot: buffer::pool_capacity(*pool),
                lacks: buffer::pool_lacks(*pool),
                control: PendingControl { fatal_alert: None, key_update_response: false },
                traffic: events@.traffic,
            }),
            events@.traffic.handshake.open is None,
            events@.traffic.handshake.seal is None,
            events@.traffic.application.open is None,
            events@.traffic.application.seal is None,
    {
        RecordEvents {
            phase: Phase::Handshaking,
            pending,
            pool,
            control: PendingControl { fatal_alert: None, key_update_response: false },
            traffic: Traffic::new(),
        }
    }

    /// Sends handshake bytes in an epoch.
    pub fn absorb_send(&mut self, epoch: Epoch, data: &[u8]) -> (result: Result<(), RecordFailure>)
        ensures
            exists|acquired: bool| #[trigger]
                old(self)@.send(epoch, data@, acquired) == (final(self)@, result),
    {
        let ready = reserve(&mut self.pending, self.pool);
        let ghost before = self@;
        assert(before == old(self)@.buffered(ready));
        let result = match &mut self.pending {
            None => Err(RecordFailure::BufferUnavailable),
            Some(output) => match epoch {
                Epoch::Plaintext => encode_plaintext(output, ContentType::Handshake, data),
                Epoch::Handshake => match self.traffic.seal_handshake(output, data) {
                    Ok(()) => Ok(()),
                    Err(failure) => Err(RecordFailure::from_traffic(failure)),
                },
                Epoch::Application => match self.traffic.seal_application(
                    output,
                    ContentType::Handshake,
                    data,
                ) {
                    Ok(()) => Ok(()),
                    Err(failure) => Err(RecordFailure::from_traffic(failure)),
                },
                Epoch::EarlyData => Err(RecordFailure::EarlyDataUnsupported),
            },
        };
        assert(old(self)@.send(epoch, data@, ready) == (self@, result));
        result
    }

    /// Does what the handshake engine asks.
    pub fn absorb(&mut self, event: Event<'_>, context: EventContext) -> (result: Result<
        (),
        RecordFailure,
    >)
        ensures
            exists|acquired: bool| #[trigger]
                old(self)@.absorb(asked(event, context), acquired) == (final(self)@, result),
    {
        let ghost asked = asked(event, context);
        match event {
            Event::Send { epoch, data } => {
                let result = self.absorb_send(epoch, data);
                proof {
                    let acquired = choose|acquired: bool| #[trigger]
                        old(self)@.send(epoch, data@, acquired) == (self@, result);
                    assert(old(self)@.absorb(asked, acquired) == (self@, result));
                }
                result
            },
            Event::KeysReady { epoch, read_secret, write_secret } => {
                let suite = match context.cipher_suite() {
                    Some(suite) => suite,
                    None => {
                        assert(old(self)@.absorb(asked, true) == (
                            self@,
                            Err::<(), RecordFailure>(RecordFailure::UnexpectedRecord),
                        ));
                        return Err(RecordFailure::UnexpectedRecord);
                    },
                };
                let result = match self.traffic.install(
                    epoch,
                    read_secret.as_slice(),
                    write_secret.as_slice(),
                    suite,
                ) {
                    Ok(()) => Ok(()),
                    Err(failure) => Err(RecordFailure::from_traffic(failure)),
                };
                assert(old(self)@.absorb(asked, true) == (self@, result));
                result
            },
            Event::KeyUpdate { direction, secret } => {
                let suite = match context.cipher_suite() {
                    Some(suite) => suite,
                    None => {
                        assert(old(self)@.absorb(asked, true) == (
                            self@,
                            Err::<(), RecordFailure>(RecordFailure::UnexpectedRecord),
                        ));
                        return Err(RecordFailure::UnexpectedRecord);
                    },
                };
                let result = match self.traffic.update(direction, secret.as_slice(), suite) {
                    Ok(()) => {
                        let requested = context.key_update_response_requested();
                        self.control.key_update_response = self.control.key_update_response
                            || requested;
                        Ok(())
                    },
                    Err(failure) => Err(RecordFailure::from_traffic(failure)),
                };
                assert(old(self)@.absorb(asked, true) == (self@, result));
                result
            },
            Event::Done => {
                self.phase = Phase::Established;
                assert(old(self)@.absorb(asked, true) == (self@, Ok::<(), RecordFailure>(())));
                Ok(())
            },
            _ => {
                assert(old(self)@.absorb(asked, true) == (self@, Ok::<(), RecordFailure>(())));
                Ok(())
            },
        }
    }

    /// Tells the peer of a fatal alert, now or later.
    pub fn stage_fatal_alert(&mut self, description: Description)
        ensures
            exists|acquired: bool| #[trigger]
                old(self)@.stage_fatal_alert(description, acquired) == final(self)@,
    {
        if self.phase != Phase::Handshaking {
            if self.control.fatal_alert.is_none() {
                self.control.fatal_alert = Some(description);
            }
            assert(old(self)@.stage_fatal_alert(description, true) == self@);
            return ;
        }
        let ready = reserve(&mut self.pending, self.pool);
        assert(self@ == old(self)@.buffered(ready));
        if ready {
            let _ = self.write_fatal_alert(description);
        }
        assert(old(self)@.stage_fatal_alert(description, ready) == self@);
    }

    /// Puts a fatal alert into the outbound buffer.
    pub fn write_fatal_alert(&mut self, description: Description) -> (result: Result<
        (),
        RecordFailure,
    >)
        requires
            old(self)@.pending is Some,
        ensures
            (final(self)@, result) == old(self)@.write_fatal_alert(description),
    {
        let alert = shin::wire::alert::Alert::fatal(description);
        let body = alert.body();
        match &mut self.pending {
            Some(output) => {
                if self.traffic.application_ready() {
                    match self.traffic.seal_application(
                        output,
                        ContentType::Alert,
                        body.as_slice(),
                    ) {
                        Ok(()) => Ok(()),
                        Err(failure) => Err(RecordFailure::from_traffic(failure)),
                    }
                } else {
                    encode_plaintext(output, ContentType::Alert, body.as_slice())
                }
            },
            None => Err(RecordFailure::BufferUnavailable),
        }
    }

    /// Acts on the engine's answer.
    pub fn settle(&mut self, answer: Result<(), DriveError<RecordFailure>>) -> (result: Result<
        (),
        RecordFailure,
    >)
        ensures
            exists|acquired: bool| #[trigger]
                old(self)@.settle(answer, acquired) == (final(self)@, result),
    {
        match answer {
            Ok(()) => {
                assert(old(self)@.settle(answer, true) == (self@, Ok::<(), RecordFailure>(())));
                Ok(())
            },
            Err(DriveError::Protocol(error)) => {
                let description = error.alert().description;
                self.stage_fatal_alert(description);
                proof {
                    let acquired = choose|acquired: bool| #[trigger]
                        old(self)@.stage_fatal_alert(description, acquired) == self@;
                    assert(old(self)@.settle(answer, acquired).0 == self@.with_phase(
                        Phase::Closed,
                    ));
                }
                self.phase = Phase::Closed;
                Err(RecordFailure::Handshake(error))
            },
            Err(DriveError::Sink(failure)) => {
                assert(old(self)@.settle(answer, true) == (
                    self@,
                    Err::<(), RecordFailure>(failure),
                ));
                Err(failure)
            },
        }
    }
}

impl EventSink for RecordEvents<'_> {
    type Error = RecordFailure;

    fn event(&mut self, event: Event<'_>, context: EventContext) -> (result: Result<
        (),
        RecordFailure,
    >)
        ensures
            exists|acquired: bool| #[trigger]
                old(self)@.absorb(asked(event, context), acquired) == (final(self)@, result),
    {
        self.absorb(event, context)
    }
}

} // verus!
