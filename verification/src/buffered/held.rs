//! What a connection that keeps application data holds, and what becomes of it.

use crate::buffer::Contents;
use crate::buffered::engines::{Engine, Wish};
use crate::buffered::reassembly;
use crate::error::Error;
use crate::record;
use crate::record::{OpenKey, SealKey};
use crate::staging::{HEADER_LEN, MAX_CIPHERTEXT_BODY, MAX_PLAINTEXT_BODY, TLS13_RECORD_OVERHEAD};
use crate::state;
use crate::state::records;
use crate::state::status::{PeerClose, Phase};
use crate::state::traffic::{self, TrafficView};
use shin::connection::{Epoch, Error as HandshakeError};
use shin::wire::alert::{Alert, Description, Error as AlertError};
use shin::wire::record::{CipherSuite, ContentType, Error as RecordError};
use vstd::prelude::*;

verus! {

/// How much application data is kept at most.
pub const INCOMING_APP_CAP: usize = 1048576;

/// How many bytes of incomplete handshake messages are kept at most.
pub const HS_REASSEMBLY_CAP: usize = 262144;

/// What a key update takes in the outbound buffer.
pub const KEY_UPDATE_RECORD_MAX: usize = TLS13_RECORD_OVERHEAD + 5;

/// What a connection holds, but for its engine.
#[verifier::ext_equal]
pub struct Held {
    pub phase: Phase,
    pub traffic: TrafficView,
    /// Received bytes that wait for the rest of their record.
    pub recv: Contents,
    /// Bytes to be sent.
    pub out: Contents,
    /// Application data that was not asked for yet.
    pub app: Seq<u8>,
    /// Handshake bytes that wait for the rest of their message.
    pub hs: Seq<u8>,
    /// Whether the handshake keys were installed.
    pub keys_ready: bool,
    pub close: PeerClose,
}

/// A connection, by what it holds.
pub struct Whole<E> {
    pub side: E,
    pub held: Held,
}

/// What is not up to the connection while a record is handled: the engine as it is
/// left, what it answers if it is asked, and what a failed opening leaves of the
/// bytes and of the key.
pub struct Step<E> {
    pub side: E,
    pub answer: Result<Seq<Wish>, HandshakeError>,
    pub left: Seq<u8>,
    pub key: OpenKey,
}

/// Why a sealing key does not seal so many bytes into a buffer. That they are too
/// many comes first, and that the buffer is full comes before what the key has
/// against it.
pub open spec fn staging_refusal(len: nat, spare: int) -> Option<Error> {
    if len > MAX_PLAINTEXT_BODY {
        Some(Error::Record(RecordError::BodyTooLarge))
    } else if spare < len + TLS13_RECORD_OVERHEAD {
        Some(Error::SendOverflow)
    } else {
        None
    }
}

/// Key, buffer and result after one record was to be sealed into a staging buffer,
/// where no key at all is the error `missing`.
pub open spec fn staged(
    key: Option<SealKey>,
    missing: Error,
    out: Contents,
    content_type: ContentType,
    body: Seq<u8>,
) -> (Option<SealKey>, Contents, Result<(), Error>) {
    match key {
        None => (key, out, Err(missing)),
        Some(sealer) => match staging_refusal(body.len(), out.spare()) {
            Some(error) => (key, out, Err(error)),
            None => {
                let (next, more, result) = sealer.seal(out, content_type, body);
                (
                    Some(next),
                    more,
                    match result {
                        Ok(()) => Ok(()),
                        Err(error) => Err(Error::Record(error)),
                    },
                )
            },
        },
    }
}

/// The suite that keys are made for.
pub open spec fn suite_or_default(suite: Option<CipherSuite>) -> CipherSuite {
    match suite {
        Some(suite) => suite,
        None => CipherSuite::Aes128GcmSha256,
    }
}

impl Held {
    /// After a record was to be sealed under the application key.
    pub open spec fn seal_app(self, content_type: ContentType, body: Seq<u8>) -> (
        Held,
        Result<(), Error>,
    ) {
        let (key, out, result) = staged(
            self.traffic.application.seal,
            Error::NotEstablished,
            self.out,
            content_type,
            body,
        );
        (Held { traffic: self.traffic.with_seal(key), out, ..self }, result)
    }

    /// After handshake bytes were to be sealed under the handshake key.
    pub open spec fn seal_handshake(self, body: Seq<u8>) -> (Held, Result<(), Error>) {
        let (key, out, result) = staged(
            self.traffic.handshake.seal,
            Error::UnexpectedRecord,
            self.out,
            ContentType::Handshake,
            body,
        );
        (Held { traffic: self.traffic.with_handshake_seal(key), out, ..self }, result)
    }

    /// After an unprotected record was to be written.
    pub open spec fn encode(self, content_type: ContentType, body: Seq<u8>) -> (
        Held,
        Result<(), Error>,
    ) {
        let (out, result) = record::plaintext_written(self.out, content_type, body);
        (
            Held { out, ..self },
            match result {
                Ok(()) => Ok(()),
                Err(RecordError::BufferTooSmall) => Err(Error::SendOverflow),
                Err(error) => Err(Error::Record(error)),
            },
        )
    }

    /// After handshake bytes were to be sent.
    pub open spec fn send(self, epoch: Epoch, data: Seq<u8>) -> (Held, Result<(), Error>) {
        match epoch {
            Epoch::Plaintext => self.encode(ContentType::Handshake, data),
            Epoch::Handshake => self.seal_handshake(data),
            Epoch::Application => self.seal_app(ContentType::Handshake, data),
            Epoch::EarlyData => (self, Err(Error::EarlyDataUnsupported)),
        }
    }

    /// With other keys, where that went well.
    pub open spec fn keyed(
        self,
        keys: (TrafficView, Result<(), traffic::TrafficFailure>),
        ready: bool,
    ) -> (Held, Result<(), Error>) {
        match keys.1 {
            Ok(()) => (Held { traffic: keys.0, keys_ready: ready, ..self }, Ok(())),
            Err(failure) => (Held { traffic: keys.0, ..self }, Err(failure.as_error())),
        }
    }

    /// After what an engine wants done was done.
    pub open spec fn absorb(self, wish: Wish, suite: CipherSuite) -> (Held, Result<(), Error>) {
        match wish {
            Wish::Send { epoch, data } => self.send(epoch, data),
            Wish::KeysReady { epoch, read, write } => self.keyed(
                self.traffic.install(epoch, read, write, suite),
                self.keys_ready || epoch == Epoch::Handshake,
            ),
            Wish::KeyUpdate { direction, secret } => self.keyed(
                self.traffic.update(direction, secret, suite),
                self.keys_ready,
            ),
            Wish::Done => (Held { phase: Phase::Established, ..self }, Ok(())),
            Wish::Other => (self, Ok(())),
        }
    }

    /// After all that an engine wants done was done in order, up to the first that
    /// failed.
    pub open spec fn absorb_all(self, wishes: Seq<Wish>, suite: CipherSuite) -> (
        Held,
        Result<(), Error>,
    )
        decreases wishes.len(),
    {
        if wishes.len() == 0 {
            (self, Ok(()))
        } else {
            let (mid, result) = self.absorb_all(wishes.drop_last(), suite);
            match result {
                Ok(()) => mid.absorb(wishes.last(), suite),
                Err(error) => (mid, Err(error)),
            }
        }
    }

    /// After a fatal alert was put out, if there was room for it.
    pub open spec fn stage_fatal_alert(self, description: Description) -> Held {
        let body = record::alert_body(
            Alert { level: shin::wire::alert::Level::Fatal, description },
        );
        if self.traffic.application.seal is Some {
            self.seal_app(ContentType::Alert, body).0
        } else {
            self.encode(ContentType::Alert, body).0
        }
    }

    /// After a fatal alert ended the connection.
    pub open spec fn end_with(self, description: Description) -> Held {
        Held { phase: Phase::Closed, ..self.stage_fatal_alert(description) }
    }

    /// After an engine has answered.
    pub open spec fn answered(
        self,
        answer: Result<Seq<Wish>, HandshakeError>,
        suite: Option<CipherSuite>,
    ) -> (Held, Result<(), Error>) {
        match answer {
            Ok(wishes) => self.absorb_all(wishes, suite_or_default(suite)),
            Err(error) => (
                self.end_with(record::failure_alert(error).description),
                Err(Error::Handshake(error)),
            ),
        }
    }

    /// After an alert came in. A protected close_notify ends the peer's side;
    /// anything else ends the connection.
    pub open spec fn classify(self, parsed: Result<Alert, AlertError>, encrypted: bool) -> (
        Held,
        Result<bool, Error>,
    ) {
        match parsed {
            Err(_) => (
                Held {
                    phase: Phase::Closed,
                    close: PeerClose::Fatal(Description::DecodeError),
                    ..self
                },
                Err(Error::MalformedAlert),
            ),
            Ok(alert) => if encrypted && alert.description == Description::CloseNotify {
                (
                    Held {
                        phase: if self.traffic.application.seal is Some {
                            Phase::PeerClosed
                        } else {
                            Phase::Closed
                        },
                        close: PeerClose::CloseNotify,
                        ..self
                    },
                    Ok(false),
                )
            } else {
                (
                    Held {
                        phase: Phase::Closed,
                        close: PeerClose::Fatal(alert.description),
                        ..self
                    },
                    Err(Error::PeerAlert(alert.description)),
                )
            },
        }
    }

    /// Without the record at the front of the received bytes.
    pub open spec fn past(self, total: int) -> Held {
        Held { recv: self.recv.skip(total), ..self }
    }

    /// What more data than can be kept comes to.
    pub open spec fn overflow(self) -> (Held, Result<bool, Error>) {
        (self.end_with(Description::RecordOverflow), Err(Error::ReceiveOverflow))
    }
}

/// Once something could not be done, nothing more is.
pub proof fn failure_sticks(held: Held, wishes: Seq<Wish>, upto: int, suite: CipherSuite)
    requires
        0 <= upto <= wishes.len(),
        held.absorb_all(wishes.take(upto), suite).1 is Err,
    ensures
        held.absorb_all(wishes, suite) == held.absorb_all(wishes.take(upto), suite),
    decreases wishes.len(),
{
    if upto == wishes.len() {
        assert(wishes.take(upto) =~= wishes);
    } else {
        assert(wishes.drop_last().take(upto) =~= wishes.take(upto));
        failure_sticks(held, wishes.drop_last(), upto, suite);
    }
}

/// What an engine wants done touches nothing that was received.
pub proof fn absorbing_keeps_received(held: Held, wishes: Seq<Wish>, suite: CipherSuite)
    ensures
        held.absorb_all(wishes, suite).0.recv == held.recv,
        held.absorb_all(wishes, suite).0.app == held.app,
        held.absorb_all(wishes, suite).0.hs == held.hs,
        held.absorb_all(wishes, suite).0.close == held.close,
    decreases wishes.len(),
{
    if wishes.len() > 0 {
        absorbing_keeps_received(held, wishes.drop_last(), suite);
    }
}

/// A result that says to go on.
pub open spec fn going_on(result: Result<(), Error>) -> Result<bool, Error> {
    match result {
        Ok(()) => Ok(true),
        Err(error) => Err(error),
    }
}

/// What an engine is handed.
pub enum Asked {
    /// Handshake bytes.
    Read { epoch: Epoch, data: Seq<u8> },
    /// Word that application data has come.
    Note,
    Nothing,
}

/// What handling a record comes to: what is held then, what is said, and what the
/// engine was handed.
pub struct Handled<E> {
    pub after: Whole<E>,
    pub result: Result<bool, Error>,
    pub asked: Asked,
}

impl<E: Engine> Whole<E> {
    pub open spec fn with(self, held: Held) -> Whole<E> {
        Whole { side: self.side, held }
    }

    /// A record that the engine has no part in.
    pub open spec fn alone(self, held: Held, result: Result<bool, Error>) -> Handled<E> {
        Handled { after: self.with(held), result, asked: Asked::Nothing }
    }

    /// A record whose bytes the engine is handed.
    pub open spec fn feed(self, held: Held, epoch: Epoch, data: Seq<u8>, step: Step<E>) -> Handled<
        E,
    > {
        let (after, result) = held.answered(step.answer, step.side.suite());
        Handled {
            after: Whole { side: step.side, held: after },
            result: going_on(result),
            asked: Asked::Read { epoch, data },
        }
    }

    /// What handling an unprotected handshake record comes to.
    pub open spec fn plain(self, total: int, step: Step<E>) -> Handled<E> {
        if total > HEADER_LEN + MAX_PLAINTEXT_BODY {
            self.alone(self.held, Err(Error::Record(RecordError::BodyTooLarge)))
        } else {
            match record::plaintext_body(self.held.recv.bytes.take(total)) {
                Err(error) => self.alone(self.held, Err(Error::Record(error))),
                Ok(None) => self.alone(self.held, Err(Error::UnexpectedRecord)),
                Ok(Some(body)) => self.feed(self.held.past(total), Epoch::Plaintext, body, step),
            }
        }
    }

    /// What handling the plaintext of a protected record comes to.
    pub open spec fn opened(
        self,
        held: Held,
        content_type: ContentType,
        body: Seq<u8>,
        step: Step<E>,
    ) -> Handled<E> {
        match content_type {
            ContentType::ApplicationData => if held.app.len() + body.len() > INCOMING_APP_CAP {
                let (after, result) = held.overflow();
                self.alone(after, result)
            } else {
                Handled {
                    after: Whole {
                        side: step.side,
                        held: Held { app: held.app + body, ..held },
                    },
                    result: Ok(true),
                    asked: Asked::Note,
                }
            },
            ContentType::Handshake => {
                let epoch = if held.phase == Phase::Handshaking && held.keys_ready {
                    Epoch::Handshake
                } else {
                    Epoch::Application
                };
                let all = held.hs + body;
                let complete = reassembly::complete_prefix(all) as int;
                if all.len() > HS_REASSEMBLY_CAP {
                    let (after, result) = held.overflow();
                    self.alone(after, result)
                } else if complete == 0 {
                    self.alone(Held { hs: all, ..held }, Ok(true))
                } else {
                    self.feed(
                        Held { hs: all.skip(complete), ..held },
                        epoch,
                        all.take(complete),
                        step,
                    )
                }
            },
            ContentType::Alert => {
                let (after, result) = held.classify(record::parsed_alert(body), true);
                self.alone(after, result)
            },
            ContentType::ChangeCipherSpec => self.alone(held, Ok(true)),
        }
    }

    /// What handling a protected record comes to.
    pub open spec fn aead(self, total: int, step: Step<E>) -> Handled<E> {
        let held = self.held;
        match traffic::reading_key(held.traffic, held.phase) {
            None => self.alone(held, Err(Error::UnexpectedRecord)),
            Some((key, _)) => match key.open(held.recv.bytes.take(total)) {
                Ok(None) => self.alone(held, Err(Error::UnexpectedRecord)),
                Err(error) => {
                    let failed = Held {
                        traffic: records::with_reading_key(held.traffic, held.phase, step.key),
                        recv: Contents { bytes: step.left, capacity: held.recv.capacity },
                        ..held
                    };
                    self.alone(
                        failed.end_with(records::open_failure_alert(error)),
                        Err(Error::Record(error)),
                    )
                },
                Ok(Some((content_type, body))) => {
                    let open = Held {
                        traffic: records::with_reading_key(held.traffic, held.phase, key.next()),
                        ..held
                    };
                    self.opened(open.past(total), content_type, body, step)
                },
            },
        }
    }

    /// What handling the record at the front of the received bytes comes to.
    pub open spec fn one(self, step: Step<E>) -> Handled<E> {
        let held = self.held;
        let bytes = held.recv.bytes;
        let total = record::framed_len(bytes) as int;
        if state::closed(held.phase) || bytes.len() < HEADER_LEN {
            self.alone(held, Ok(false))
        } else if total > HEADER_LEN + MAX_CIPHERTEXT_BODY {
            self.alone(held, Err(Error::Record(RecordError::BodyTooLarge)))
        } else if bytes.len() < total {
            self.alone(held, Ok(false))
        } else if bytes[0] == 20 {
            self.alone(held.past(total), Ok(true))
        } else if bytes[0] == 21 {
            let (after, result) = held.past(total).classify(
                record::parsed_alert(bytes.subrange(HEADER_LEN as int, total)),
                false,
            );
            self.alone(after, result)
        } else if bytes[0] == 22 {
            self.plain(total, step)
        } else if bytes[0] == 23 {
            self.aead(total, step)
        } else {
            self.alone(held, Err(Error::UnexpectedRecord))
        }
    }

    /// That opening the record at the front can leave the received bytes and the
    /// opening key so, where it fails: nothing changes but the body of the record,
    /// and the key refuses all further records.
    pub open spec fn spoilt(self, left: Seq<u8>, spent: OpenKey) -> bool {
        let bytes = self.held.recv.bytes;
        &&& left.len() == bytes.len()
        &&& forall|i: int|
            0 <= i < bytes.len() && !(HEADER_LEN <= i < record::framed_len(bytes))
                ==> #[trigger] left[i] == bytes[i]
        &&& traffic::reading_key(self.held.traffic, self.held.phase) matches Some((key, _))
            ==> spent.secret == key.secret && spent.suite == key.suite && spent.poisoned
    }

    /// That the engine and the opening key behaved as the step says.
    pub open spec fn plausible(self, step: Step<E>) -> bool {
        &&& self.spoilt(step.left, step.key)
        &&& match self.one(step).asked {
            Asked::Read { epoch, data } => E::answers(
                self.side,
                epoch,
                data,
                step.side,
                step.answer,
            ),
            Asked::Note => E::noted(self.side, step.side),
            Asked::Nothing => true,
        }
    }
}

/// That one record was handled.
#[verifier::opaque]
pub open spec fn consumed_one<E: Engine>(
    before: Whole<E>,
    after: Whole<E>,
    result: Result<bool, Error>,
) -> bool {
    exists|step: Step<E>| #[trigger]
        before.plausible(step) && before.one(step).after == after && before.one(step).result
            == result
}

/// That the record between two states said to go on.
pub open spec fn passes<E: Engine>(path: Seq<Whole<E>>, i: int) -> bool {
    consumed_one(path[i], path[i + 1], Ok(true))
}

/// That records were handled one after the other, each of which said to go on.
pub open spec fn consumed_many<E: Engine>(before: Whole<E>, path: Seq<Whole<E>>) -> bool {
    &&& path.len() > 0
    &&& path[0] == before
    &&& forall|i: int| 0 <= i < path.len() - 1 ==> #[trigger] passes(path, i)
}

/// One more record.
pub proof fn one_more<E: Engine>(before: Whole<E>, path: Seq<Whole<E>>, after: Whole<E>)
    requires
        consumed_many(before, path),
        consumed_one(path.last(), after, Ok(true)),
    ensures
        consumed_many(before, path.push(after)),
{
    let longer = path.push(after);
    assert forall|i: int| 0 <= i < longer.len() - 1 implies #[trigger] passes(longer, i) by {
        if i < path.len() - 1 {
            assert(passes(path, i));
        }
    }
}

/// That all records were handled that there were, up to the first that said to
/// stop.
#[verifier::opaque]
pub open spec fn consumed_all<E: Engine>(
    before: Whole<E>,
    after: Whole<E>,
    result: Result<bool, Error>,
) -> bool {
    result != Ok::<bool, Error>(true) && exists|path: Seq<Whole<E>>| #[trigger]
        consumed_many(before, path) && consumed_one(path.last(), after, result)
}

/// How much of `rest` is taken in at once.
pub open spec fn intake(recv: Contents, rest: Seq<u8>) -> int {
    if rest.len() <= recv.spare() {
        rest.len() as int
    } else {
        recv.spare()
    }
}

impl<E: Engine> Whole<E> {
    /// With as much taken in as there is room for.
    pub open spec fn take_in(self, rest: Seq<u8>) -> Whole<E> {
        self.with(
            Held {
                recv: self.held.recv.extend(rest.take(intake(self.held.recv, rest))),
                ..self.held
            },
        )
    }
}

/// A connection in the course of a read, and the bytes that are still to be taken
/// in.
pub struct Round<E> {
    pub state: Whole<E>,
    pub rest: Seq<u8>,
}

/// That between two rounds as much was taken in as there was room for, and all
/// records that were complete then were handled.
pub open spec fn goes_round<E: Engine>(path: Seq<Round<E>>, i: int) -> bool {
    let taken = intake(path[i].state.held.recv, path[i].rest);
    &&& taken > 0
    &&& consumed_all(path[i].state.take_in(path[i].rest), path[i + 1].state, Ok(false))
    &&& path[i + 1].rest == path[i].rest.skip(taken)
}

/// That the rounds of a read came one after the other.
pub open spec fn rounds<E: Engine>(
    before: Whole<E>,
    bytes: Seq<u8>,
    path: Seq<Round<E>>,
) -> bool {
    &&& path.len() > 0
    &&& path[0].state == before
    &&& path[0].rest == bytes
    &&& forall|i: int| 0 <= i < path.len() - 1 ==> #[trigger] goes_round(path, i)
}

/// One more round.
pub proof fn another_round<E: Engine>(
    before: Whole<E>,
    bytes: Seq<u8>,
    path: Seq<Round<E>>,
    after: Whole<E>,
)
    requires
        rounds(before, bytes, path),
        consumed_all(path.last().state.take_in(path.last().rest), after, Ok(false)),
        intake(path.last().state.held.recv, path.last().rest) > 0,
    ensures
        rounds(
            before,
            bytes,
            path.push(
                Round {
                    state: after,
                    rest: path.last().rest.skip(
                        intake(path.last().state.held.recv, path.last().rest),
                    ),
                },
            ),
        ),
{
    let next = Round {
        state: after,
        rest: path.last().rest.skip(intake(path.last().state.held.recv, path.last().rest)),
    };
    let longer = path.push(next);
    assert forall|i: int| 0 <= i < longer.len() - 1 implies #[trigger] goes_round(longer, i) by {
        if i < path.len() - 1 {
            assert(goes_round(path, i));
        }
    }
}

/// What the last round of a read comes to: all bytes were taken in, or a record
/// failed, or nothing more could be taken in.
pub open spec fn last_round<E: Engine>(
    mid: Whole<E>,
    left: Seq<u8>,
    after: Whole<E>,
    result: Result<(), Error>,
) -> bool {
    let taken = intake(mid.held.recv, left);
    match result {
        Ok(()) => taken == left.len() && consumed_all(mid.take_in(left), after, Ok(false)),
        Err(error) => consumed_all(mid.take_in(left), after, Err(error)) || (taken == 0
            && left.len() > 0 && error == Error::Record(RecordError::BodyTooLarge) && consumed_all(
            mid.take_in(left),
            after,
            Ok(false),
        )),
    }
}

/// That wire bytes were read.
pub open spec fn read<E: Engine>(
    before: Whole<E>,
    bytes: Seq<u8>,
    after: Whole<E>,
    result: Result<(), Error>,
) -> bool {
    exists|path: Seq<Round<E>>| #[trigger]
        rounds(before, bytes, path) && last_round(
            path.last().state,
            path.last().rest,
            after,
            result,
        )
}

/// That the engine was called for a key update and answered so.
pub open spec fn updated_by<E: Engine>(
    before: Whole<E>,
    request_update: bool,
    answer: Result<Seq<Wish>, HandshakeError>,
    after: Whole<E>,
    result: Result<(), Error>,
) -> bool {
    &&& E::updates(before.side, request_update, after.side, answer)
    &&& match answer {
        Err(error) => after.held == before.held && result == Err::<(), Error>(
            Error::Handshake(error),
        ),
        Ok(wishes) => (after.held, result) == before.held.absorb_all(
            wishes,
            suite_or_default(after.side.suite()),
        ),
    }
}

/// That a key update was to be sent.
pub open spec fn updated<E: Engine>(
    before: Whole<E>,
    request_update: bool,
    after: Whole<E>,
    result: Result<(), Error>,
) -> bool {
    if before.held.phase != Phase::Established {
        after == before && result == Err::<(), Error>(Error::NotEstablished)
    } else {
        exists|answer: Result<Seq<Wish>, HandshakeError>| #[trigger]
            updated_by(before, request_update, answer, after, result)
    }
}

/// That a used-up key was replaced, if there was room for that.
pub open spec fn refreshed<E: Engine>(
    before: Whole<E>,
    after: Whole<E>,
    result: Result<(), Error>,
) -> bool {
    if before.held.traffic.needs_key_update() && !state::closed(before.held.phase)
        && before.held.out.spare() >= KEY_UPDATE_RECORD_MAX {
        updated(before, false, after, result)
    } else {
        after == before && result == Ok::<(), Error>(())
    }
}

impl Held {
    /// After application data was written, record by record, until there was no
    /// room for the next.
    pub open spec fn write(self, plain: Seq<u8>) -> (Held, Result<nat, Error>) {
        let (key, out, result) = traffic::written(self.traffic.application.seal, self.out, plain);
        (
            Held { traffic: self.traffic.with_seal(key), out, ..self },
            match result {
                Ok(count) => Ok(count),
                Err(failure) => Err(failure.as_error()),
            },
        )
    }

    /// After an alert that ends the connection was to be sent.
    pub open spec fn close_with(self, alert: Alert) -> (Held, Result<(), Error>) {
        if self.phase == Phase::Closed {
            (self, Ok(()))
        } else if self.traffic.application.seal is None {
            (self, Err(Error::NotEstablished))
        } else {
            let (after, result) = self.seal_app(ContentType::Alert, record::alert_body(alert));
            match result {
                Ok(()) => (Held { phase: Phase::Closed, ..after }, Ok(())),
                Err(error) => (after, Err(error)),
            }
        }
    }
}

/// A connection that was ended with an alert sends no other.
pub proof fn closing_again_changes_nothing(held: Held, first: Alert, second: Alert)
    requires
        held.close_with(first).1 is Ok,
    ensures
        held.close_with(first).0.close_with(second) == (held.close_with(first).0, Ok::<(), Error>(())),
{
}

/// That application data was written, and a used-up key replaced behind it.
pub open spec fn wrote<E: Engine>(
    before: Whole<E>,
    plain: Seq<u8>,
    after: Whole<E>,
    result: Result<usize, Error>,
) -> bool {
    if before.held.phase != Phase::Established {
        after == before && result == Err::<usize, Error>(Error::NotEstablished)
    } else {
        let (mid, written) = before.held.write(plain);
        match written {
            Err(error) => after == before.with(mid) && result == Err::<usize, Error>(error),
            Ok(count) => match result {
                Ok(total) => total == count && refreshed(before.with(mid), after, Ok(())),
                Err(error) => refreshed(before.with(mid), after, Err(error)),
            },
        }
    }
}

/// No more is written than was handed over.
pub proof fn writes_no_more<E: Engine>(
    before: Whole<E>,
    plain: Seq<u8>,
    after: Whole<E>,
    result: Result<usize, Error>,
)
    requires
        wrote(before, plain, after, result),
    ensures
        result matches Ok(count) ==> count <= plain.len(),
{
    if before.held.phase == Phase::Established {
        written_is_within(before.held.traffic.application.seal, before.held.out, plain);
    }
}

proof fn written_is_within(key: Option<SealKey>, out: Contents, plain: Seq<u8>)
    ensures
        traffic::written(key, out, plain).2 matches Ok(count) ==> count <= plain.len(),
    decreases plain.len(),
{
    let take = traffic::fragment(plain.len());
    if plain.len() > 0 && out.spare() >= take + TLS13_RECORD_OVERHEAD {
        let (key1, out1, _) = traffic::sealed(
            key,
            traffic::TrafficFailure::NotEstablished,
            out,
            ContentType::ApplicationData,
            plain.take(take as int),
        );
        written_is_within(key1, out1, plain.skip(take as int));
    }
}

} // verus!
