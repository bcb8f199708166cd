//! Connections that keep application data until it is asked for.

use crate::buffer::Contents;
use crate::buffered::engines::{ClientEngine, Engine, OwnedEvent, ServerEngine, Wish};
use crate::buffered::held::{
    Held, Round, Step, Whole, HS_REASSEMBLY_CAP, INCOMING_APP_CAP, KEY_UPDATE_RECORD_MAX,
};
use crate::buffered::pooled::Pooled;
use crate::clock::WallClock;
use crate::error::Error;
use crate::record;
use crate::record::OpenKey;
use crate::staging::{
    HEADER_LEN, MAX_CIPHERTEXT_BODY, MAX_PLAINTEXT_BODY, TLS13_RECORD_OVERHEAD, TLS_STAGING_CAP,
};
use crate::state;
use crate::state::records;
use crate::state::status::{PeerClose, Phase};
use crate::state::traffic::{self, KeysView, Traffic, TrafficFailure, TrafficView};
use shin::client::config::{Config as ClientConfig, Error as ConfigError, Identity};
use shin::connection::{Epoch, Error as HandshakeError};
use shin::server::config::Config as ServerConfig;
use shin::wire::alert::{Alert, Description, Error as AlertError, Level};
use shin::wire::record::{CipherSuite, ContentType, Error as RecordError, Sealer};
use vstd::prelude::*;

pub mod endings;
pub mod engines;
pub mod handshakes;
pub mod held;
pub mod ledger;
pub mod pooled;
pub mod readback;
pub mod reassembly;
pub mod sources;
pub mod wire;

verus! {

/// One TLS connection, with an engine of its own.
pub struct State<E: Engine> {
    pub side: E,
    pub phase: Phase,
    pub traffic: Traffic,
    pub recv_buf: Pooled,
    pub pending_send: Pooled,
    pub incoming_app: Vec<u8>,
    pub hs_reassembly: Vec<u8>,
    pub handshake_keys_ready: bool,
    pub peer_close: PeerClose,
}

impl<E: Engine> View for State<E> {
    type V = Whole<E>;

    open spec fn view(&self) -> Whole<E> {
        Whole {
            side: self.side,
            held: Held {
                phase: self.phase,
                traffic: self.traffic@,
                recv: self.recv_buf@,
                out: self.pending_send@,
                app: self.incoming_app@,
                hs: self.hs_reassembly@,
                keys_ready: self.handshake_keys_ready,
                close: self.peer_close,
            },
        }
    }
}

/// Seals one record into a staging buffer.
fn seal_into(pending: &mut Pooled, sealer: &mut Sealer, content_type: ContentType, data: &[u8]) -> (
    result: Result<(), Error>)
    requires
        old(pending).wf(),
    ensures
        final(pending).wf(),
        (Some(record::seal_key(*final(sealer))), final(pending)@, result) == held::staged(
            Some(record::seal_key(*old(sealer))),
            Error::NotEstablished,
            old(pending)@,
            content_type,
            data@,
        ),
        result is Ok ==> final(pending)@.bytes.len() >= old(pending)@.bytes.len()
            && record::seal_key(*old(sealer)).yields(
            content_type,
            data@,
            final(pending)@.bytes.skip(old(pending)@.bytes.len() as int),
        ),
{
    let size: usize = data.len();
    if size > MAX_PLAINTEXT_BODY {
        return Err(Error::Record(RecordError::BodyTooLarge));
    }
    if pending.spare_capacity() < size + TLS13_RECORD_OVERHEAD {
        return Err(Error::SendOverflow);
    }
    match record::seal_alone(sealer, content_type, data) {
        Ok(record) => {
            pending.push(record.as_slice());
            assert(pending@.bytes.skip(old(pending)@.bytes.len() as int) =~= record@);
            Ok(())
        },
        Err(error) => Err(Error::Record(error)),
    }
}

/// Writes one unprotected record into a staging buffer.
fn encode_plaintext(pending: &mut Pooled, content_type: ContentType, data: &[u8]) -> (result:
    Result<(), Error>)
    requires
        old(pending).wf(),
    ensures
        final(pending).wf(),
        ({
            let (out, written) = record::plaintext_written(old(pending)@, content_type, data@);
            &&& final(pending)@ == out
            &&& result == match written {
                Ok(()) => Ok::<(), Error>(()),
                Err(RecordError::BufferTooSmall) => Err(Error::SendOverflow),
                Err(error) => Err(Error::Record(error)),
            }
        }),
{
    let size: usize = data.len();
    match record::encode_plaintext(content_type, data) {
        Ok(record) => {
            if pending.spare_capacity() < HEADER_LEN + size {
                return Err(Error::SendOverflow);
            }
            assert(record@.len() == HEADER_LEN + size);
            pending.push(record.as_slice());
            Ok(())
        },
        Err(error) => Err(Error::Record(error)),
    }
}

/// A connection whose handshake has not begun.
pub open spec fn nothing_held() -> Held {
    Held {
        phase: Phase::Handshaking,
        traffic: TrafficView {
            handshake: KeysView { open: None, seal: None },
            application: KeysView { open: None, seal: None },
        },
        recv: Contents { bytes: Seq::empty(), capacity: TLS_STAGING_CAP as nat },
        out: Contents { bytes: Seq::empty(), capacity: TLS_STAGING_CAP as nat },
        app: Seq::empty(),
        hs: Seq::empty(),
        keys_ready: false,
        close: PeerClose::Open,
    }
}

impl<E: Engine> State<E> {
    /// That no buffer holds more than it may.
    pub open spec fn wf(self) -> bool {
        &&& self.recv_buf.wf()
        &&& self.pending_send.wf()
        &&& self.incoming_app@.len() <= INCOMING_APP_CAP
        &&& self.hs_reassembly@.len() <= HS_REASSEMBLY_CAP
    }

    /// A connection whose handshake has not begun.
    pub fn empty(side: E) -> (state: Self)
        ensures
            state.wf(),
            state@ == (Whole { side, held: nothing_held() }),
            !state.recv_buf.backed(),
            !state.pending_send.backed(),
    {
        State {
            side,
            phase: Phase::Handshaking,
            traffic: Traffic::new(),
            recv_buf: Pooled::new(),
            pending_send: Pooled::new(),
            incoming_app: Vec::new(),
            hs_reassembly: Vec::new(),
            handshake_keys_ready: false,
            peer_close: PeerClose::Open,
        }
    }

    /// Seals a record under the application key.
    pub fn seal_app(&mut self, content_type: ContentType, data: &[u8]) -> (result: Result<
        (),
        Error,
    >)
        requires
            old(self).wf(),
        ensures
            final(self).wf(),
            final(self)@.side == old(self)@.side,
            (final(self)@.held, result) == old(self)@.held.seal_app(content_type, data@),
            result is Ok ==> old(self)@.held.traffic.application.seal is Some
                && final(self)@.held.out.bytes.len() >= old(self)@.held.out.bytes.len() && (old(self)@.held.traffic.application.seal->0).yields(
                content_type,
                data@,
                final(self)@.held.out.bytes.skip(old(self)@.held.out.bytes.len() as int),
            ),
    {
        match &mut self.traffic.application.sealer {
            Some(sealer) => seal_into(&mut self.pending_send, sealer, content_type, data),
            None => Err(Error::NotEstablished),
        }
    }

    /// Seals handshake bytes under the handshake key.
    pub fn seal_handshake(&mut self, data: &[u8]) -> (result: Result<(), Error>)
        requires
            old(self).wf(),
        ensures
            final(self).wf(),
            final(self)@.side == old(self)@.side,
            (final(self)@.held, result) == old(self)@.held.seal_handshake(data@),
    {
        match &mut self.traffic.handshake.sealer {
            Some(sealer) => seal_into(
                &mut self.pending_send,
                sealer,
                ContentType::Handshake,
                data,
            ),
            None => Err(Error::UnexpectedRecord),
        }
    }

    /// The suite that keys are made for.
    fn cipher_suite(&self) -> (suite: CipherSuite)
        ensures
            suite == held::suite_or_default(self.side.suite()),
    {
        match self.side.negotiated_cipher_suite() {
            Some(suite) => suite,
            None => CipherSuite::Aes128GcmSha256,
        }
    }

    /// Does what an engine wants done.
    fn absorb_event(&mut self, event: &OwnedEvent) -> (result: Result<(), Error>)
        requires
            old(self).wf(),
        ensures
            final(self).wf(),
            final(self)@.side == old(self)@.side,
            (final(self)@.held, result) == old(self)@.held.absorb(
                event@,
                held::suite_or_default(old(self).side.suite()),
            ),
    {
        match event {
            OwnedEvent::Send { epoch, data } => match epoch {
                Epoch::Plaintext => encode_plaintext(
                    &mut self.pending_send,
                    ContentType::Handshake,
                    data.as_slice(),
                ),
                Epoch::Handshake => self.seal_handshake(data.as_slice()),
                Epoch::Application => self.seal_app(ContentType::Handshake, data.as_slice()),
                Epoch::EarlyData => Err(Error::EarlyDataUnsupported),
            },
            OwnedEvent::KeysReady { epoch, read, write } => {
                let suite = self.cipher_suite();
                match self.traffic.install(*epoch, read.as_slice(), write.as_slice(), suite) {
                    Ok(()) => {
                        match epoch {
                            Epoch::Handshake => {
                                self.handshake_keys_ready = true;
                            },
                            _ => {},
                        }
                        Ok(())
                    },
                    Err(failure) => Err(failure.into_error()),
                }
            },
            OwnedEvent::KeyUpdate { direction, secret } => {
                let suite = self.cipher_suite();
                match self.traffic.update(*direction, secret.as_slice(), suite) {
                    Ok(()) => Ok(()),
                    Err(failure) => Err(failure.into_error()),
                }
            },
            OwnedEvent::Done => {
                self.phase = Phase::Established;
                Ok(())
            },
            OwnedEvent::Other => Ok(()),
        }
    }

    /// Does all that an engine wants done, in order, up to the first that fails.
    pub fn absorb_events(&mut self, events: Vec<OwnedEvent>) -> (result: Result<(), Error>)
        requires
            old(self).wf(),
        ensures
            final(self).wf(),
            final(self)@.side == old(self)@.side,
            (final(self)@.held, result) == old(self)@.held.absorb_all(
                engines::wishes(events@),
                held::suite_or_default(old(self).side.suite()),
            ),
            final(self)@.held.recv == old(self)@.held.recv,
    {
        let ghost before = self@.held;
        let ghost all = engines::wishes(events@);
        let ghost suite = held::suite_or_default(self.side.suite());
        let mut done: usize = 0;
        proof {
            held::absorbing_keeps_received(before, all, suite);
            assert(all.take(0) =~= Seq::<Wish>::empty());
        }
        while done < events.len()
            invariant
                self.wf(),
                before == old(self)@.held,
                all == engines::wishes(events@),
                suite == held::suite_or_default(old(self).side.suite()),
                before.absorb_all(all, suite).0.recv == before.recv,
                done <= events@.len(),
                self@.side == old(self)@.side,
                (self@.held, Ok::<(), Error>(())) == before.absorb_all(
                    all.take(done as int),
                    suite,
                ),
            decreases events@.len() - done,
        {
            let ghost next = all.take(done + 1);
            assert(next.drop_last() =~= all.take(done as int));
            assert(next.last() == events@[done as int]@);
            match self.absorb_event(&events[done]) {
                Ok(()) => {},
                Err(error) => {
                    proof {
                        held::failure_sticks(before, all, done + 1, suite);
                    }
                    return Err(error);
                },
            }
            done = done + 1;
        }
        assert(all.take(done as int) =~= all);
        Ok(())
    }

    /// Puts a fatal alert out, if there is room for it.
    pub fn stage_fatal_alert(&mut self, description: Description)
        requires
            old(self).wf(),
        ensures
            final(self).wf(),
            final(self)@.side == old(self)@.side,
            final(self)@.held == old(self)@.held.stage_fatal_alert(description),
    {
        let alert = Alert::fatal(description);
        let body = alert.body();
        if self.traffic.application_ready() {
            let _ = self.seal_app(ContentType::Alert, &body);
        } else {
            let _ = encode_plaintext(&mut self.pending_send, ContentType::Alert, &body);
        }
    }

    /// Ends the connection with a fatal alert.
    fn end_with(&mut self, description: Description)
        requires
            old(self).wf(),
        ensures
            final(self).wf(),
            final(self)@.side == old(self)@.side,
            final(self)@.held == old(self)@.held.end_with(description),
    {
        self.stage_fatal_alert(description);
        self.phase = Phase::Closed;
    }

    /// What more data than can be kept comes to.
    fn fatal_overflow(&mut self) -> (result: Result<bool, Error>)
        requires
            old(self).wf(),
        ensures
            final(self).wf(),
            final(self)@.side == old(self)@.side,
            (final(self)@.held, result) == old(self)@.held.overflow(),
    {
        self.end_with(Description::RecordOverflow);
        Err(Error::ReceiveOverflow)
    }

    /// Hands handshake bytes to the engine, and does what it wants done.
    fn feed(&mut self, epoch: Epoch, data: &[u8]) -> (result: Result<(), Error>)
        requires
            old(self).wf(),
        ensures
            final(self).wf(),
            exists|answer: Result<Seq<Wish>, HandshakeError>| #[trigger]
                E::answers(old(self).side, epoch, data@, final(self).side, answer) && (
                    final(self)@.held,
                    result,
                ) == old(self)@.held.answered(answer, final(self).side.suite()),
            final(self)@.held.recv == old(self)@.held.recv,
    {
        let answer = self.side.read(epoch, data);
        let ghost given = engines::wished(answer);
        assert(E::answers(old(self).side, epoch, data@, self.side, given));
        match answer {
            Ok(events) => self.absorb_events(events),
            Err(error) => {
                self.end_with(error.alert().description);
                Err(Error::Handshake(error))
            },
        }
    }

    /// Takes an alert in.
    pub fn classify_alert(&mut self, parsed: Result<Alert, AlertError>, encrypted: bool) -> (result:
        Result<bool, Error>)
        requires
            old(self).wf(),
        ensures
            final(self).wf(),
            final(self)@.side == old(self)@.side,
            (final(self)@.held, result) == old(self)@.held.classify(parsed, encrypted),
    {
        let description = match parsed {
            Ok(alert) => alert.description,
            Err(_) => {
                self.phase = Phase::Closed;
                self.peer_close = PeerClose::Fatal(Description::DecodeError);
                return Err(Error::MalformedAlert);
            },
        };
        let ends = match description {
            Description::CloseNotify => encrypted,
            _ => false,
        };
        if ends {
            self.peer_close = PeerClose::CloseNotify;
            self.phase = if self.traffic.application_ready() {
                Phase::PeerClosed
            } else {
                Phase::Closed
            };
            Ok(false)
        } else {
            self.phase = Phase::Closed;
            self.peer_close = PeerClose::Fatal(description);
            Err(Error::PeerAlert(description))
        }
    }
}

/// A step in which the engine was not called and no opening failed.
pub open spec fn idle<E: Engine>(whole: Whole<E>) -> Step<E> {
    Step {
        side: whole.side,
        answer: Ok(Seq::empty()),
        left: whole.held.recv.bytes,
        key: match traffic::reading_key(whole.held.traffic, whole.held.phase) {
            Some((key, _)) => OpenKey { poisoned: true, ..key },
            None => OpenKey {
                secret: Seq::empty(),
                suite: CipherSuite::Aes128GcmSha256,
                seq: 0,
                poisoned: true,
            },
        },
    }
}

/// That a whole record stands at the front of the received bytes.
pub open spec fn at_record(held: Held, total: int, code: u8) -> bool {
    &&& !state::closed(held.phase)
    &&& HEADER_LEN <= total <= held.recv.bytes.len()
    &&& total == record::framed_len(held.recv.bytes)
    &&& total <= HEADER_LEN + MAX_CIPHERTEXT_BODY
    &&& held.recv.bytes[0] == code
}

/// That the plaintext of a protected record was taken in, which stands at the front
/// of the received bytes up to `end`.
pub open spec fn took_plaintext<E: Engine>(
    before: Whole<E>,
    content_type: ContentType,
    end: int,
    total: int,
    step: Step<E>,
    after: Whole<E>,
    result: Result<bool, Error>,
) -> bool {
    let body = before.held.recv.bytes.subrange(HEADER_LEN as int, end);
    let handled = before.opened(before.held.past(total), content_type, body, step);
    &&& handled.after == after
    &&& handled.result == result
    &&& match handled.asked {
        held::Asked::Read { epoch, data } => E::answers(
            before.side,
            epoch,
            data,
            step.side,
            step.answer,
        ),
        held::Asked::Note => E::noted(before.side, step.side),
        held::Asked::Nothing => true,
    }
}

pub(crate) fn copied(bytes: &[u8], start: usize, end: usize) -> (copy: Vec<u8>)
    requires
        start <= end <= bytes@.len(),
    ensures
        copy@ == bytes@.subrange(start as int, end as int),
{
    let mut copy: Vec<u8> = Vec::new();
    copy.extend_from_slice(vstd::slice::slice_subrange(bytes, start, end));
    assert(copy@ =~= bytes@.subrange(start as int, end as int));
    copy
}

impl<E: Engine> State<E> {
    /// Drops a change_cipher_spec record.
    fn handle_ccs(&mut self, total: usize) -> (result: Result<bool, Error>)
        requires
            old(self).wf(),
            at_record(old(self)@.held, total as int, 20),
        ensures
            final(self).wf(),
            held::consumed_one(old(self)@, final(self)@, result),
            result is Ok ==> final(self)@.held.recv.bytes.len() < old(self)@.held.recv.bytes.len(),
    {
        reveal(held::consumed_one);
        self.recv_buf.consume(total);
        let ghost step = idle(old(self)@);
        assert(old(self)@.plausible(step));
        assert(old(self)@.one(step).after == self@);
        Ok(true)
    }

    /// Takes an unprotected alert in.
    fn handle_alert(&mut self, total: usize) -> (result: Result<bool, Error>)
        requires
            old(self).wf(),
            at_record(old(self)@.held, total as int, 21),
        ensures
            final(self).wf(),
            held::consumed_one(old(self)@, final(self)@, result),
            result is Ok ==> final(self)@.held.recv.bytes.len() < old(self)@.held.recv.bytes.len(),
    {
        reveal(held::consumed_one);
        let parsed = Alert::parse(
            vstd::slice::slice_subrange(self.recv_buf.as_slice(), HEADER_LEN, total),
        );
        self.recv_buf.consume(total);
        let ghost mid = self@.held;
        let result = self.classify_alert(parsed, false);
        let ghost step = idle(old(self)@);
        assert(mid == old(self)@.held.past(total as int));
        assert(old(self)@.plausible(step));
        assert(old(self)@.one(step).after == self@);
        result
    }

    /// Takes an unprotected handshake record in.
    fn handle_handshake_plaintext(&mut self, total: usize) -> (result: Result<bool, Error>)
        requires
            old(self).wf(),
            at_record(old(self)@.held, total as int, 22),
        ensures
            final(self).wf(),
            held::consumed_one(old(self)@, final(self)@, result),
            result is Ok ==> final(self)@.held.recv.bytes.len() < old(self)@.held.recv.bytes.len(),
    {
        reveal(held::consumed_one);
        let ghost before = self@;
        let ghost quiet = idle(before);
        if total > HEADER_LEN + MAX_PLAINTEXT_BODY {
            assert(before.plausible(quiet));
            assert(before.one(quiet).after == self@);
            return Err(Error::Record(RecordError::BodyTooLarge));
        }
        let parsed = record::parse_plaintext(
            vstd::slice::slice_subrange(self.recv_buf.as_slice(), 0, total),
        );
        assert(before.held.recv.bytes.subrange(0, total as int) =~= before.held.recv.bytes.take(
            total as int,
        ));
        let (body, consumed): (Vec<u8>, usize) = match parsed {
            Ok(Some((body, consumed))) => {
                let size: usize = body.len();
                (copied(body, 0, size), consumed)
            },
            Ok(None) => {
                assert(before.plausible(quiet));
                assert(before.one(quiet).after == self@);
                return Err(Error::UnexpectedRecord);
            },
            Err(error) => {
                assert(before.plausible(quiet));
                assert(before.one(quiet).after == self@);
                return Err(Error::Record(error));
            },
        };
        let ghost expected = record::plaintext_body(before.held.recv.bytes.take(total as int));
        assert(expected == Ok::<Option<Seq<u8>>, RecordError>(Some(body@))) by {
            assert(body@ =~= expected->Ok_0->0);
        }
        assert(consumed == total);
        self.recv_buf.consume(consumed);
        let ghost mid = self@.held;
        let fed = self.feed(Epoch::Plaintext, body.as_slice());
        proof {
            let answer = choose|answer: Result<Seq<Wish>, HandshakeError>| #[trigger]
                E::answers(before.side, Epoch::Plaintext, body@, self.side, answer) && (
                    self@.held,
                    fed,
                ) == mid.answered(answer, self.side.suite());
            let step = Step { side: self.side, answer, ..quiet };
            assert(before.plausible(step));
            assert(before.one(step).after == self@);
        }
        match fed {
            Ok(()) => Ok(true),
            Err(error) => Err(error),
        }
    }

    /// Takes the plaintext of a protected record in, which stands at `start..end` of
    /// the received bytes.
    fn handle_opened(
        &mut self,
        content_type: ContentType,
        end: usize,
        total: usize,
    ) -> (result: Result<bool, Error>)
        requires
            old(self).wf(),
            HEADER_LEN <= end <= total <= old(self)@.held.recv.bytes.len(),
        ensures
            final(self).wf(),
            exists|step: Step<E>| #[trigger]
                took_plaintext(
                    old(self)@,
                    content_type,
                    end as int,
                    total as int,
                    step,
                    final(self)@,
                    result,
                ),
            result is Ok ==> final(self)@.held.recv.bytes.len() < old(self)@.held.recv.bytes.len(),
    {
        let ghost before = self@;
        let ghost quiet = idle(before);
        let ghost body = before.held.recv.bytes.subrange(HEADER_LEN as int, end as int);
        let inner: Vec<u8> = copied(self.recv_buf.as_slice(), HEADER_LEN, end);
        self.recv_buf.consume(total);
        let ghost mid = self@.held;
        assert(mid == before.held.past(total as int));
        match content_type {
            ContentType::ApplicationData => {
                if inner.len() > INCOMING_APP_CAP - self.incoming_app.len() {
                    let result = self.fatal_overflow();
                    assert(took_plaintext(before, content_type, end as int, total as int, quiet, self@, result));
                    return result;
                }
                self.incoming_app.extend_from_slice(inner.as_slice());
                assert(self.incoming_app@ =~= before.held.app + body);
                self.side.note_application_data();
                let ghost step = Step { side: self.side, ..quiet };
                assert(took_plaintext(before, content_type, end as int, total as int, step, self@, Ok(true)));
                Ok(true)
            },
            ContentType::Handshake => {
                let handshaking = match self.phase {
                    Phase::Handshaking => true,
                    _ => false,
                };
                let epoch = if handshaking && self.handshake_keys_ready {
                    Epoch::Handshake
                } else {
                    Epoch::Application
                };
                if inner.len() > HS_REASSEMBLY_CAP - self.hs_reassembly.len() {
                    let result = self.fatal_overflow();
                    assert(took_plaintext(before, content_type, end as int, total as int, quiet, self@, result));
                    return result;
                }
                self.hs_reassembly.extend_from_slice(inner.as_slice());
                let ghost all = before.held.hs + body;
                assert(self.hs_reassembly@ =~= all);
                let complete: usize = reassembly::complete_handshake_prefix(
                    self.hs_reassembly.as_slice(),
                );
                if complete == 0 {
                    assert(took_plaintext(
                        before,
                        content_type,
                        end as int,
                        total as int,
                        quiet,
                        self@,
                        Ok(true),
                    ));
                    return Ok(true);
                }
                let messages: Vec<u8> = copied(self.hs_reassembly.as_slice(), 0, complete);
                let rest: Vec<u8> = self.hs_reassembly.split_off(complete);
                self.hs_reassembly = rest;
                assert(messages@ =~= all.take(complete as int));
                assert(self.hs_reassembly@ =~= all.skip(complete as int));
                let ghost ready = self@.held;
                let fed = self.feed(epoch, messages.as_slice());
                proof {
                    let answer = choose|answer: Result<Seq<Wish>, HandshakeError>| #[trigger]
                        E::answers(before.side, epoch, messages@, self.side, answer) && (
                            self@.held,
                            fed,
                        ) == ready.answered(answer, self.side.suite());
                    let step = Step { side: self.side, answer, ..quiet };
                    assert(took_plaintext(
                        before,
                        content_type,
                        end as int,
                        total as int,
                        step,
                        self@,
                        held::going_on(fed),
                    ));
                }
                match fed {
                    Ok(()) => Ok(true),
                    Err(error) => Err(error),
                }
            },
            ContentType::Alert => {
                let parsed = Alert::parse(inner.as_slice());
                let result = self.classify_alert(parsed, true);
                assert(took_plaintext(before, content_type, end as int, total as int, quiet, self@, result));
                result
            },
            ContentType::ChangeCipherSpec => {
                assert(took_plaintext(before, content_type, end as int, total as int, quiet, self@, Ok(true)));
                Ok(true)
            },
        }
    }

    /// Takes a protected record in.
    fn handle_aead(&mut self, total: usize) -> (result: Result<bool, Error>)
        requires
            old(self).wf(),
            at_record(old(self)@.held, total as int, 23),
        ensures
            final(self).wf(),
            held::consumed_one(old(self)@, final(self)@, result),
            result is Ok ==> final(self)@.held.recv.bytes.len() < old(self)@.held.recv.bytes.len(),
    {
        reveal(held::consumed_one);
        let ghost before = self@;
        let ghost quiet = idle(before);
        let ghost bytes = before.held.recv.bytes;
        let phase = self.phase;
        let opener = match self.traffic.opener(phase) {
            Ok(opener) => opener,
            Err(failure) => {
                assert(before.plausible(quiet));
                assert(before.one(quiet).after == self@);
                return Err(failure.into_error());
            },
        };
        let ghost key = record::open_key(*opener);
        let opened = record::open_in_place(opener, self.recv_buf.as_mut_slice(), 0, total);
        assert(bytes.subrange(0, total as int) =~= bytes.take(total as int));
        let ghost left = self@.held.recv.bytes;
        match opened {
            Ok(Some((content_type, len, consumed))) => {
                let ghost mid = self@;
                let ghost body = left.subrange(HEADER_LEN as int, HEADER_LEN + len);
                assert(consumed == total);
                assert(left.skip(total as int) =~= bytes.skip(total as int));
                let result = self.handle_opened(content_type, HEADER_LEN + len, consumed);
                proof {
                    let taken = choose|step: Step<E>| #[trigger]
                        took_plaintext(
                            mid,
                            content_type,
                            HEADER_LEN + len,
                            total as int,
                            step,
                            self@,
                            result,
                        );
                    let step = Step { left: bytes, key: quiet.key, ..taken };
                    let open = Held {
                        traffic: records::with_reading_key(
                            before.held.traffic,
                            before.held.phase,
                            key.next(),
                        ),
                        ..before.held
                    };
                    assert(mid.held.past(total as int) =~= open.past(total as int));
                    assert(before.opened(open.past(total as int), content_type, body, step)
                        == mid.opened(mid.held.past(total as int), content_type, body, taken));
                    assert(before.one(step) == before.aead(total as int, step));
                    assert(before.plausible(step));
                }
                result
            },
            Ok(None) => {
                assert(before.plausible(quiet));
                assert(false);
                Err(Error::UnexpectedRecord)
            },
            Err(error) => {
                let description = match error {
                    RecordError::UnexpectedChangeCipherSpec => Description::UnexpectedMessage,
                    _ => Description::BadRecordMac,
                };
                let ghost mid = self@;
                self.end_with(description);
                proof {
                    let after = if phase != Phase::Handshaking
                        && mid.held.traffic.application.open is Some {
                        mid.held.traffic.application.open->0
                    } else {
                        mid.held.traffic.handshake.open->0
                    };
                    let step = Step { left, key: after, ..quiet };
                    assert(mid.held.traffic =~= records::with_reading_key(
                        before.held.traffic,
                        before.held.phase,
                        after,
                    ));
                    assert(before.plausible(step));
                    assert(before.one(step).after == self@);
                }
                Err(Error::Record(error))
            },
        }
    }

    pub fn is_handshaking(&self) -> (is: bool)
        ensures
            is == (self.phase == Phase::Handshaking),
    {
        match self.phase {
            Phase::Handshaking => true,
            _ => false,
        }
    }

    pub fn is_established(&self) -> (is: bool)
        ensures
            is == (self.phase == Phase::Established),
    {
        match self.phase {
            Phase::Established => true,
            _ => false,
        }
    }

    /// Whether nothing more is read.
    pub fn is_closed(&self) -> (is: bool)
        ensures
            is == state::closed(self.phase),
    {
        match self.phase {
            Phase::PeerClosed | Phase::Closed => true,
            _ => false,
        }
    }

    /// Takes the record at the front of the received bytes in. Says whether to go
    /// on.
    pub fn consume_one_record(&mut self) -> (result: Result<bool, Error>)
        requires
            old(self).wf(),
        ensures
            final(self).wf(),
            held::consumed_one(old(self)@, final(self)@, result),
            result == Ok::<bool, Error>(true) ==> final(self)@.held.recv.bytes.len()
                < old(self)@.held.recv.bytes.len(),
    {
        reveal(held::consumed_one);
        let ghost before = self@;
        let ghost quiet = idle(before);
        if self.is_closed() {
            assert(before.plausible(quiet));
            assert(before.one(quiet).after == self@);
            return Ok(false);
        }
        let view = self.recv_buf.as_slice();
        let size: usize = view.len();
        if size < HEADER_LEN {
            assert(before.plausible(quiet));
            assert(before.one(quiet).after == self@);
            return Ok(false);
        }
        let outer: u8 = view[0];
        let body_len: usize = view[3] as usize * 256 + view[4] as usize;
        if body_len > MAX_CIPHERTEXT_BODY {
            assert(before.plausible(quiet));
            assert(before.one(quiet).after == self@);
            return Err(Error::Record(RecordError::BodyTooLarge));
        }
        let total: usize = HEADER_LEN + body_len;
        if size < total {
            assert(before.plausible(quiet));
            assert(before.one(quiet).after == self@);
            return Ok(false);
        }
        if outer == 20 {
            self.handle_ccs(total)
        } else if outer == 21 {
            self.handle_alert(total)
        } else if outer == 22 {
            self.handle_handshake_plaintext(total)
        } else if outer == 23 {
            self.handle_aead(total)
        } else {
            assert(before.plausible(quiet));
            assert(before.one(quiet).after == self@);
            Err(Error::UnexpectedRecord)
        }
    }
}

impl<E: Engine> State<E> {
    /// Takes in all whole records that were received, up to the first that says to
    /// stop.
    fn consume_records(&mut self) -> (result: Result<(), Error>)
        requires
            old(self).wf(),
        ensures
            final(self).wf(),
            held::consumed_all(
                old(self)@,
                final(self)@,
                match result {
                    Ok(()) => Ok(false),
                    Err(error) => Err(error),
                },
            ),
    {
        let ghost before = self@;
        let ghost mut path: Seq<Whole<E>> = seq![self@];
        loop
            invariant
                self.wf(),
                before == old(self)@,
                held::consumed_many(before, path),
                path.last() == self@,
            decreases self@.held.recv.bytes.len(),
        {
            match self.consume_one_record() {
                Ok(true) => {
                    proof {
                        held::one_more(before, path, self@);
                        path = path.push(self@);
                    }
                },
                Ok(false) => {
                    proof {
                        reveal(held::consumed_all);
                        assert(held::consumed_many(before, path));
                    }
                    return Ok(());
                },
                Err(error) => {
                    proof {
                        reveal(held::consumed_all);
                        assert(held::consumed_many(before, path));
                    }
                    return Err(error);
                },
            }
        }
    }

    /// Reads wire bytes. The application data in them is kept.
    pub fn read_tcp(&mut self, bytes: &[u8]) -> (result: Result<(), Error>)
        requires
            old(self).wf(),
        ensures
            final(self).wf(),
            held::read(old(self)@, bytes@, final(self)@, result),
            result is Ok ==> final(self).recv_buf.tight(),
    {
        let ghost before = self@;
        let ghost mut path: Seq<Round<E>> = seq![Round { state: self@, rest: bytes@ }];
        let size: usize = bytes.len();
        let mut offset: usize = 0;
        assert(bytes@.skip(0) =~= bytes@);
        loop
            invariant
                self.wf(),
                before == old(self)@,
                size == bytes@.len(),
                offset <= size,
                held::rounds(before, bytes@, path),
                path.last().state == self@,
                path.last().rest == bytes@.skip(offset as int),
            decreases size - offset,
        {
            let ghost mid = self@;
            let ghost left = bytes@.skip(offset as int);
            let spare: usize = self.recv_buf.spare_capacity();
            let take: usize = if size - offset <= spare {
                size - offset
            } else {
                spare
            };
            assert(take == held::intake(mid.held.recv, left));
            let piece = vstd::slice::slice_subrange(bytes, offset, offset + take);
            assert(piece@ =~= left.take(take as int));
            self.recv_buf.push(piece);
            assert(self@ == mid.take_in(left));
            match self.consume_records() {
                Ok(()) => {},
                Err(error) => {
                    assert(held::rounds(before, bytes@, path) && held::last_round(mid, left, self@, Err(error)));
                    return Err(error);
                },
            }
            if take == size - offset {
                self.recv_buf.release_if_empty();
                assert(held::rounds(before, bytes@, path) && held::last_round(mid, left, self@, Ok(())));
                return Ok(());
            }
            if take == 0 {
                let error = Error::Record(RecordError::BodyTooLarge);
                assert(held::rounds(before, bytes@, path) && held::last_round(mid, left, self@, Err(error)));
                return Err(error);
            }
            proof {
                held::another_round(before, bytes@, path, self@);
                assert(left.skip(take as int) =~= bytes@.skip(offset + take));
                path = path.push(Round { state: self@, rest: left.skip(take as int) });
            }
            offset = offset + take;
        }
    }

    /// Reads wire bytes. Says whether that went well.
    pub fn try_read_tcp(&mut self, bytes: &[u8]) -> (done: bool)
        requires
            old(self).wf(),
        ensures
            final(self).wf(),
            bytes@.len() == 0 ==> done && final(self)@ == old(self)@,
            bytes@.len() > 0 ==> exists|result: Result<(), Error>| #[trigger]
                held::read(old(self)@, bytes@, final(self)@, result) && done == (result is Ok),
            bytes@.len() > 0 && done ==> final(self).recv_buf.tight(),
    {
        if bytes.len() == 0 {
            return true;
        }
        let result = self.read_tcp(bytes);
        result.is_ok()
    }

    /// The bytes that are to be sent.
    pub fn pending_send_slice(&self) -> (bytes: &[u8])
        ensures
            bytes@ == self@.held.out.bytes,
    {
        self.pending_send.as_slice()
    }

    /// Drops bytes that were sent, of which there have to be so many.
    pub fn consume_pending_send(&mut self, count: usize)
        requires
            old(self).wf(),
            count <= old(self)@.held.out.bytes.len(),
        ensures
            final(self).wf(),
            final(self)@ == old(self)@.with(
                Held { out: old(self)@.held.out.skip(count as int), ..old(self)@.held },
            ),
            final(self).pending_send.tight(),
    {
        self.pending_send.consume(count);
        self.pending_send.release_if_empty();
    }

    /// Takes out all bytes that are to be sent.
    pub fn pull_send(&mut self) -> (bytes: Vec<u8>)
        requires
            old(self).wf(),
        ensures
            final(self).wf(),
            bytes@ == old(self)@.held.out.bytes,
            final(self)@ == old(self)@.with(
                Held {
                    out: Contents { bytes: Seq::empty(), ..old(self)@.held.out },
                    ..old(self)@.held
                },
            ),
            !final(self).pending_send.backed(),
    {
        let size: usize = self.pending_send.as_slice().len();
        let bytes: Vec<u8> = copied(self.pending_send.as_slice(), 0, size);
        assert(bytes@ =~= self@.held.out.bytes);
        assert(self@.held.out.bytes.skip(size as int) =~= Seq::<u8>::empty());
        self.consume_pending_send(size);
        bytes
    }

    /// Writes application data, record by record, until there is no room for the
    /// next. Returns how much was written. What was written are records that the
    /// peer's key opens to just that data.
    pub fn write_app(&mut self, plaintext: &[u8]) -> (result: Result<usize, Error>)
        requires
            old(self).wf(),
        ensures
            final(self).wf(),
            held::wrote(old(self)@, plaintext@, final(self)@, result),
    {
        if !self.is_established() {
            return Err(Error::NotEstablished);
        }
        let ghost before = self@;
        let written = self.write_records(plaintext);
        match written {
            Err(error) => Err(error),
            Ok(consumed) => match self.maybe_auto_key_update() {
                Ok(()) => Ok(consumed),
                Err(error) => Err(error),
            },
        }
    }

    /// Writes application data, record by record, until there is no room for the
    /// next.
    fn write_records(&mut self, plaintext: &[u8]) -> (result: Result<usize, Error>)
        requires
            old(self).wf(),
        ensures
            final(self).wf(),
            final(self)@.side == old(self)@.side,
            final(self)@.held == old(self)@.held.write(plaintext@).0,
            match (result, old(self)@.held.write(plaintext@).1) {
                (Ok(count), Ok(total)) => count == total && count <= plaintext@.len(),
                (Err(error), Err(failure)) => error == failure,
                _ => false,
            },
            result is Ok ==> traffic::wrote(
                old(self)@.held.traffic.application.seal,
                old(self)@.held.out,
                final(self)@.held.traffic.application.seal,
                final(self)@.held.out,
                plaintext@.take(result->Ok_0 as int),
            ),
    {
        let ghost start = self@.held;
        let mut consumed: usize = 0;
        proof {
            assert(plaintext@.skip(0) =~= plaintext@);
            assert(plaintext@.take(0) =~= Seq::<u8>::empty());
            if start.traffic.application.seal is Some {
                let key = start.traffic.application.seal->0;
                assert(traffic::carries(
                    key.reader(),
                    Seq::<u8>::empty(),
                    Seq::<u8>::empty(),
                    key.reader(),
                ));
            }
            assert(start.out.bytes.skip(start.out.bytes.len() as int) =~= Seq::<u8>::empty());
        }
        while consumed < plaintext.len()
            invariant
                self.wf(),
                start == old(self)@.held,
                consumed <= plaintext@.len(),
                self@.side == old(self)@.side,
                self@.held == (Held {
                    traffic: start.traffic.with_seal(self@.held.traffic.application.seal),
                    out: self@.held.out,
                    ..start
                }),
                traffic::wrote(
                    start.traffic.application.seal,
                    start.out,
                    self@.held.traffic.application.seal,
                    self@.held.out,
                    plaintext@.take(consumed as int),
                ),
                ({
                    let (key, out, result) = traffic::written(
                        self@.held.traffic.application.seal,
                        self@.held.out,
                        plaintext@.skip(consumed as int),
                    );
                    traffic::written(start.traffic.application.seal, start.out, plaintext@) == (
                        key,
                        out,
                        match result {
                            Ok(count) => Ok::<nat, TrafficFailure>((consumed + count) as nat),
                            Err(failure) => Err(failure),
                        },
                    )
                }),
            ensures
                consumed == plaintext@.len() || self@.held.out.spare() < traffic::fragment(
                    (plaintext@.len() - consumed) as nat,
                ) + TLS13_RECORD_OVERHEAD,
            decreases plaintext@.len() - consumed,
        {
            let rest: usize = plaintext.len() - consumed;
            let take: usize = if rest <= MAX_PLAINTEXT_BODY {
                rest
            } else {
                MAX_PLAINTEXT_BODY
            };
            if self.pending_send.spare_capacity() < take + TLS13_RECORD_OVERHEAD {
                break;
            }
            let ghost out = self@.held.out;
            let ghost key = self@.held.traffic.application.seal;
            let chunk = vstd::slice::slice_subrange(plaintext, consumed, consumed + take);
            proof {
                assert(plaintext@.skip(consumed as int).take(take as int) =~= chunk@);
                assert(plaintext@.skip(consumed as int).skip(take as int) =~= plaintext@.skip(
                    consumed + take,
                ));
            }
            match self.seal_app(ContentType::ApplicationData, chunk) {
                Ok(()) => {
                    proof {
                        traffic::wrote_push(
                            start.traffic.application.seal,
                            start.out,
                            key->0,
                            out,
                            plaintext@.take(consumed as int),
                            self@.held.out,
                            chunk@,
                        );
                        assert(plaintext@.take(consumed as int) + chunk@ =~= plaintext@.take(
                            consumed + take,
                        ));
                    }
                },
                Err(error) => {
                    return Err(error);
                },
            }
            consumed = consumed + take;
        }
        assert(plaintext@.skip(consumed as int).len() == plaintext@.len() - consumed);
        Ok(consumed)
    }

    /// Replaces a used-up key, if there is room for that.
    fn maybe_auto_key_update(&mut self) -> (result: Result<(), Error>)
        requires
            old(self).wf(),
        ensures
            final(self).wf(),
            held::refreshed(old(self)@, final(self)@, result),
    {
        if self.traffic.needs_key_update() && !self.is_closed()
            && self.pending_send.spare_capacity() >= KEY_UPDATE_RECORD_MAX {
            self.send_key_update(false)
        } else {
            Ok(())
        }
    }

    /// Sends a key update.
    pub fn send_key_update(&mut self, request_update: bool) -> (result: Result<(), Error>)
        requires
            old(self).wf(),
        ensures
            final(self).wf(),
            held::updated(old(self)@, request_update, final(self)@, result),
    {
        if !self.is_established() {
            return Err(Error::NotEstablished);
        }
        let answer = self.side.send_key_update(request_update);
        let ghost given = engines::wished(answer);
        assert(E::updates(old(self).side, request_update, self.side, given));
        match answer {
            Ok(events) => {
                let result = self.absorb_events(events);
                assert(held::updated_by(old(self)@, request_update, given, self@, result));
                result
            },
            Err(error) => {
                assert(held::updated_by(
                    old(self)@,
                    request_update,
                    given,
                    self@,
                    Err(Error::Handshake(error)),
                ));
                Err(Error::Handshake(error))
            },
        }
    }

    /// Sends an alert that ends the connection.
    fn seal_closing_alert(&mut self, alert: Alert) -> (result: Result<(), Error>)
        requires
            old(self).wf(),
        ensures
            final(self).wf(),
            final(self)@.side == old(self)@.side,
            (final(self)@.held, result) == old(self)@.held.close_with(alert),
    {
        match self.phase {
            Phase::Closed => return Ok(()),
            _ => {},
        }
        if !self.traffic.application_ready() {
            return Err(Error::NotEstablished);
        }
        let body = alert.body();
        match self.seal_app(ContentType::Alert, &body) {
            Ok(()) => {
                self.phase = Phase::Closed;
                Ok(())
            },
            Err(error) => Err(error),
        }
    }

    /// Tells the peer that nothing more will be sent.
    pub fn send_close_notify(&mut self) -> (result: Result<(), Error>)
        requires
            old(self).wf(),
        ensures
            final(self).wf(),
            final(self)@.side == old(self)@.side,
            (final(self)@.held, result) == old(self)@.held.close_with(
                Alert { level: Level::Warning, description: Description::CloseNotify },
            ),
    {
        self.seal_closing_alert(Alert::close_notify())
    }

    /// Tells the peer why the connection ends.
    pub fn send_fatal_alert(&mut self, description: Description) -> (result: Result<(), Error>)
        requires
            old(self).wf(),
        ensures
            final(self).wf(),
            final(self)@.side == old(self)@.side,
            (final(self)@.held, result) == old(self)@.held.close_with(
                Alert { level: Level::Fatal, description },
            ),
    {
        self.seal_closing_alert(Alert::fatal(description))
    }

    /// Whether the connection can be closed in order.
    pub fn can_close_notify(&self) -> (can: bool)
        ensures
            can == ((self.phase == Phase::Established || self.phase == Phase::PeerClosed)
                && self@.held.traffic.application.seal is Some),
    {
        match self.phase {
            Phase::Established | Phase::PeerClosed => self.traffic.application_ready(),
            _ => false,
        }
    }

    /// How the peer has ended its side.
    pub fn peer_close(&self) -> (close: PeerClose)
        ensures
            close == self@.held.close,
    {
        self.peer_close
    }

    /// The peer has stopped sending. An error unless it has said so before.
    pub fn on_peer_eof(&mut self) -> (result: Result<(), Error>)
        requires
            old(self).wf(),
        ensures
            final(self).wf(),
            if old(self)@.held.close == PeerClose::Open {
                result == Err::<(), Error>(Error::Truncated) && final(self)@ == old(self)@.with(
                    Held {
                        phase: Phase::Closed,
                        close: PeerClose::Truncated,
                        ..old(self)@.held
                    },
                )
            } else {
                result == Ok::<(), Error>(()) && final(self)@ == old(self)@
            },
    {
        match self.peer_close {
            PeerClose::Open => {
                self.peer_close = PeerClose::Truncated;
                self.phase = Phase::Closed;
                Err(Error::Truncated)
            },
            _ => Ok(()),
        }
    }

    /// Takes out the application data that was kept.
    pub fn take_app(&mut self) -> (data: Vec<u8>)
        requires
            old(self).wf(),
        ensures
            final(self).wf(),
            data@ == old(self)@.held.app,
            final(self)@ == old(self)@.with(Held { app: Seq::empty(), ..old(self)@.held }),
    {
        let mut data: Vec<u8> = Vec::new();
        core::mem::swap(&mut data, &mut self.incoming_app);
        data
    }

    /// Takes out the application data that was kept, if there is any.
    pub fn pull_app(&mut self) -> (data: Option<Vec<u8>>)
        requires
            old(self).wf(),
        ensures
            final(self).wf(),
            match data {
                Some(data) => data@ == old(self)@.held.app && data@.len() > 0,
                None => old(self)@.held.app.len() == 0,
            },
            final(self)@ == old(self)@.with(Held { app: Seq::empty(), ..old(self)@.held }),
    {
        if self.incoming_app.len() == 0 {
            assert(self@.held.app =~= Seq::<u8>::empty());
            None
        } else {
            Some(self.take_app())
        }
    }

    pub fn phase(&self) -> (phase: Phase)
        ensures
            phase == self@.held.phase,
    {
        self.phase
    }

    /// The application protocol that was agreed on.
    pub fn selected_alpn(&self) -> (protocol: Option<&[u8]>)
        ensures
            match protocol {
                Some(protocol) => self.side.alpn() == Some(protocol@),
                None => self.side.alpn() is None,
            },
    {
        self.side.selected_alpn()
    }

    /// How many bytes at the front are whole handshake messages.
    pub fn complete_handshake_prefix(buf: &[u8]) -> (complete: usize)
        ensures
            complete == reassembly::complete_prefix(buf@),
            complete <= buf@.len(),
    {
        reassembly::complete_handshake_prefix(buf)
    }
}

/// That a client connection is what its engine wanted done at the start.
pub open spec fn began(
    answer: Result<Seq<Wish>, HandshakeError>,
    side: ClientEngine,
    result: Result<State<ClientEngine>, Error>,
) -> bool {
    match answer {
        Err(error) => result matches Err(other) && other == Error::Handshake(error),
        Ok(wishes) => {
            let (held, done) = nothing_held().absorb_all(
                wishes,
                held::suite_or_default(side.suite()),
            );
            match done {
                Ok(()) => result matches Ok(state) && state.wf() && state@ == (Whole {
                    side,
                    held,
                }),
                Err(error) => result matches Err(other) && other == error,
            }
        },
    }
}

/// What opening a client connection comes to, given what its engine came to: a
/// configuration that does not pass is an error.
pub open spec fn opened(
    made: Result<ClientEngine, ConfigError>,
    result: Result<State<ClientEngine>, Error>,
) -> bool {
    match made {
        Ok(client) => exists|answer: Result<Seq<Wish>, HandshakeError>, side: ClientEngine|
            #[trigger]
            engines::started(client, side, answer) && began(answer, side, result),
        Err(error) => result matches Err(other) && other == Error::InvalidConfig(error),
    }
}

/// What opening a server connection comes to, given what its engine came to.
pub open spec fn served(
    made: Result<ServerEngine, HandshakeError>,
    result: Result<State<ServerEngine>, Error>,
) -> bool {
    match made {
        Ok(side) => result matches Ok(state) && state.wf() && state@ == (Whole {
            side,
            held: nothing_held(),
        }),
        Err(error) => result matches Err(other) && other == Error::Handshake(error),
    }
}

impl State<ClientEngine> {
    /// A client connection by the system clock, whose handshake has begun.
    pub fn new_client(config: ClientConfig) -> (result: Result<Self, Error>)
        ensures
            exists|made: Result<ClientEngine, ConfigError>| #[trigger]
                engines::client_made(config, WallClock::System, made) && opened(made, result),
    {
        Self::new_client_with_clock(config, WallClock::System)
    }

    /// A client connection whose handshake has begun.
    pub fn new_client_with_clock(config: ClientConfig, clock: WallClock) -> (result: Result<
        Self,
        Error,
    >)
        ensures
            exists|made: Result<ClientEngine, ConfigError>| #[trigger]
                engines::client_made(config, clock, made) && opened(made, result),
    {
        let made = ClientEngine::new(config, clock);
        let ghost came = made;
        match made {
            Ok(client) => {
                let result = Self::new_client_with(client);
                assert(opened(came, result));
                result
            },
            Err(error) => Err(Error::InvalidConfig(error)),
        }
    }

    /// A client connection by the system clock that shows an identity of its own.
    pub fn new_client_mutual(config: ClientConfig, identity: Identity) -> (result: Result<
        Self,
        Error,
    >)
        ensures
            exists|made: Result<ClientEngine, ConfigError>| #[trigger]
                engines::mutual_client_made(config, identity, WallClock::System, made) && opened(made, result),
    {
        Self::new_client_mutual_with_clock(config, WallClock::System, identity)
    }

    /// A client connection that shows an identity of its own.
    pub fn new_client_mutual_with_clock(
        config: ClientConfig,
        clock: WallClock,
        identity: Identity,
    ) -> (result: Result<Self, Error>)
        ensures
            exists|made: Result<ClientEngine, ConfigError>| #[trigger]
                engines::mutual_client_made(config, identity, clock, made) && opened(made, result),
    {
        let made = ClientEngine::mutual(config, identity, clock);
        let ghost came = made;
        match made {
            Ok(client) => {
                let result = Self::new_client_with(client);
                assert(opened(came, result));
                result
            },
            Err(error) => Err(Error::InvalidConfig(error)),
        }
    }

    /// A client connection with an engine that was set up, whose handshake has begun.
    pub fn new_client_with(client: ClientEngine) -> (result: Result<Self, Error>)
        ensures
            exists|answer: Result<Seq<Wish>, HandshakeError>, side: ClientEngine| #[trigger]
                engines::started(client, side, answer) && began(answer, side, result),
    {
        let ghost before = client;
        let mut client = client;
        let started = client.start();
        let ghost answer = engines::wished(started);
        assert(engines::started(before, client, answer));
        Self::start_with(client, started)
    }

    /// The connection of a client that has answered so at the start.
    pub fn start_with(
        client: ClientEngine,
        started: Result<Vec<OwnedEvent>, HandshakeError>,
    ) -> (result: Result<Self, Error>)
        ensures
            began(engines::wished(started), client, result),
    {
        match started {
            Err(error) => Err(Error::Handshake(error)),
            Ok(events) => {
                let mut state = State::empty(client);
                match state.absorb_events(events) {
                    Ok(()) => Ok(state),
                    Err(error) => Err(error),
                }
            },
        }
    }
}

impl State<ServerEngine> {
    /// A server connection by the system clock.
    pub fn new_server(config: ServerConfig) -> (result: Result<Self, Error>)
        ensures
            exists|made: Result<ServerEngine, HandshakeError>| #[trigger]
                engines::server_made(config, WallClock::System, made) && served(made, result),
    {
        Self::new_server_with_clock(config, WallClock::System)
    }

    /// A server connection.
    pub fn new_server_with_clock(config: ServerConfig, clock: WallClock) -> (result: Result<
        Self,
        Error,
    >)
        ensures
            exists|made: Result<ServerEngine, HandshakeError>| #[trigger]
                engines::server_made(config, clock, made) && served(made, result),
    {
        let made = ServerEngine::new(config, clock);
        let ghost came = made;
        match made {
            Ok(server) => Ok(State::empty(server)),
            Err(error) => Err(Error::Handshake(error)),
        }
    }
}

} // verus!
