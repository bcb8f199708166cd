//! Connection state.
//!
//! A connection is a handshake engine, traffic keys, a buffer for what goes out
//! and one for what has come in. Contracts relate what it holds before an
//! operation to what it holds after; where the engine or a pool has a say, they
//! say what holds whatever it decides.

use crate::buffer::{self, Contents, Cursor, Pool};
use crate::error::Error;
use crate::record;
use shin::wire::alert::{Alert, Description, Level};
use shin::wire::handshake::KeyUpdateRequest;
use shin::wire::record::ContentType;
use vstd::prelude::*;

pub mod api;
pub mod appending;
pub mod buffers;
pub mod direct;
pub mod endings;
pub mod events;
pub mod handshakes;
pub mod keying;
pub mod outgoing;
pub mod plain;
pub mod records;
pub mod sessions;
pub mod staged;
pub mod status;
pub mod traffic;

use buffers::{Buffers, Received};
use events::{Core, PendingControl, RecordFailure};
use records::{Link, Records};
use sessions::{Call, ClientPeer, Peer};
use status::{PeerClose, Phase};
use traffic::{KeysView, TrafficView, FATAL_ALERT_LEN, KEY_UPDATE_LEN};

verus! {

/// One TLS connection.
pub struct State<'d, S: Peer> {
    pub record: Records<'d, S>,
    pub buffers: Buffers<'d>,
}

/// A connection, by what it holds.
pub struct StateView<S> {
    pub link: Link<S>,
    pub received: Received,
}

impl<S: Peer> View for State<'_, S> {
    type V = StateView<S>;

    open spec fn view(&self) -> StateView<S> {
        StateView { link: self.record@, received: self.buffers@ }
    }
}

/// Whether nothing more is read in a phase.
pub open spec fn closed(phase: Phase) -> bool {
    phase == Phase::PeerClosed || phase == Phase::Closed
}

/// A result with its failure as an error.
pub open spec fn reported(result: Result<(), RecordFailure>) -> Result<(), Error> {
    match result {
        Ok(()) => Ok(()),
        Err(failure) => Err(failure.as_error()),
    }
}

impl<S> StateView<S> {
    pub open spec fn with_link(self, link: Link<S>) -> StateView<S> {
        StateView { link, received: self.received }
    }
}

impl<S> Link<S> {
    /// With `out` in place of the outbound buffer.
    pub open spec fn lend(self, out: Option<Contents>) -> Link<S> {
        self.with_core(Core { pending: out, ..self.core })
    }
}

impl Core {
    /// Whether control records are owed that can still be sent.
    pub open spec fn owes(self) -> bool {
        self.control.fatal_alert is Some || (self.phase != Phase::Closed
            && self.control.key_update_response)
    }

    /// After application data was to be written into the outbound buffer.
    pub open spec fn write(self, plain: Seq<u8>) -> (Core, Result<nat, Error>) {
        if self.phase != Phase::Established {
            (self, Err(Error::NotEstablished))
        } else {
            let (key, out, result) = traffic::written(
                self.traffic.application.seal,
                self.pending->0,
                plain,
            );
            (
                self.with_traffic(self.traffic.with_seal(key)).with_pending(out),
                match result {
                    Ok(count) => Ok(count),
                    Err(failure) => Err(failure.as_error()),
                },
            )
        }
    }

    /// After one record of application data was to be put into the outbound
    /// buffer.
    pub open spec fn write_parts(self, len: nat, body: Seq<u8>) -> (Core, Result<nat, Error>) {
        let (key, out, result) = traffic::parts_written(
            self.phase,
            self.traffic.application.seal,
            self.pending->0,
            len,
            body,
        );
        (self.with_traffic(self.traffic.with_seal(key)).with_pending(out), result)
    }

    /// After the connection was to be closed with an alert in the outbound buffer.
    pub open spec fn close_with(self, alert: Alert) -> (Core, Result<(), Error>) {
        if self.phase == Phase::Closed {
            (self, Ok(()))
        } else if !self.traffic.application_ready() {
            (self, Err(Error::NotEstablished))
        } else {
            let (next, result) = self.seal(ContentType::Alert, record::alert_body(alert));
            match result {
                Ok(()) => (next.with_phase(Phase::Closed), Ok(())),
                Err(failure) => (next, Err(failure.as_error())),
            }
        }
    }
}

/// That the control record which is owed, if there is room for it in the outbound
/// buffer, has been sent. A fatal alert comes before a key update.
pub open spec fn drained<S: Peer>(
    before: Link<S>,
    after: Link<S>,
    result: Result<(), Error>,
) -> bool {
    let core = before.core;
    let spare = core.pending->0.spare();
    match core.control.fatal_alert {
        Some(description) => if spare < FATAL_ALERT_LEN {
            after == before && result == Ok::<(), Error>(())
        } else {
            let (next, sent) = core.write_fatal_alert(description);
            result == reported(sent) && after == before.with_core(
                match sent {
                    Ok(()) => Core {
                        control: PendingControl {
                            fatal_alert: None,
                            key_update_response: core.control.key_update_response,
                        },
                        ..next
                    },
                    Err(_) => next,
                },
            )
        },
        None => if core.phase != Phase::Closed && core.control.key_update_response && spare
            >= KEY_UPDATE_LEN {
            exists|mid: Link<S>, sent: Result<(), RecordFailure>| #[trigger]
                records::drove(before, Call::PendingKeyUpdate, mid, sent) && after
                    == records::answered(mid, sent) && result == reported(sent)
        } else {
            after == before && result == Ok::<(), Error>(())
        },
    }
}

/// That a connection which owes control records has been given the chance to send
/// one in its own outbound buffer.
pub open spec fn drained_own<S: Peer>(
    before: Link<S>,
    after: Link<S>,
    result: Result<(), Error>,
) -> bool {
    if !before.core.owes() {
        after == before && result == Ok::<(), Error>(())
    } else {
        exists|acquired: bool|
            {
                let ready = #[trigger] before.core.buffered(acquired);
                if ready.pending is None {
                    after == before.with_core(ready) && result == Ok::<(), Error>(())
                } else {
                    drained(before.with_core(ready), after, result)
                }
            }
    }
}

/// That a used-up key was replaced, if `spare` bytes are room enough to say so.
pub open spec fn refreshed<S: Peer>(
    before: Link<S>,
    spare: int,
    after: Link<S>,
    result: Result<(), Error>,
) -> bool {
    if before.core.traffic.needs_key_update() && !closed(before.core.phase) && spare
        >= KEY_UPDATE_LEN {
        exists|sent: Result<(), RecordFailure>| #[trigger]
            records::drove(
                before,
                Call::KeyUpdate { request: KeyUpdateRequest::NotRequested },
                after,
                sent,
            ) && result == reported(sent)
    } else {
        after == before && result == Ok::<(), Error>(())
    }
}

/// The room for outbound bytes: that in the buffer, or that in a fresh one.
pub open spec fn room(core: Core) -> int {
    match core.pending {
        Some(out) => out.spare(),
        None => core.slot as int,
    }
}

/// An established connection replaces a used-up key; any other cannot.
pub open spec fn refreshed_own<S: Peer>(
    before: Link<S>,
    after: Link<S>,
    result: Result<(), Error>,
) -> bool {
    if before.core.traffic.needs_key_update() && before.core.phase == Phase::Handshaking && room(
        before.core,
    ) >= KEY_UPDATE_LEN {
        after == before && result == Err::<(), Error>(Error::NotEstablished)
    } else {
        refreshed(before, room(before.core), after, result)
    }
}

/// That `write_app` has gone through these stages: owed control records, a buffer,
/// the data, a key update.
pub open spec fn wrote_by<S: Peer>(
    before: Link<S>,
    plain: Seq<u8>,
    settled: Link<S>,
    drain: Result<(), Error>,
    acquired: bool,
    after: Link<S>,
    result: Result<usize, Error>,
) -> bool {
    &&& drained_own(before, settled, drain)
    &&& match drain {
        Err(error) => after == settled && result == Err::<usize, Error>(error),
        Ok(()) => if settled.core.owes() {
            after == settled && result == Ok::<usize, Error>(0)
        } else {
            wrote_plain(settled.with_core(settled.core.buffered(acquired)), plain, after, result)
        },
    }
}

/// That application data was written and a used-up key replaced. What was written
/// is a run of records that carries the data.
pub open spec fn wrote_plain<S: Peer>(
    ready: Link<S>,
    plain: Seq<u8>,
    after: Link<S>,
    result: Result<usize, Error>,
) -> bool {
    if ready.core.pending is None {
        after == ready && result == Err::<usize, Error>(Error::BufferUnavailable)
    } else {
        let (core, written) = ready.core.write(plain);
        match written {
            Err(error) => after == ready.with_core(core) && result == Err::<usize, Error>(error),
            Ok(count) => {
                &&& count <= plain.len()
                &&& traffic::wrote(
                    ready.core.traffic.application.seal,
                    ready.core.pending->0,
                    core.traffic.application.seal,
                    core.pending->0,
                    plain.take(count as int),
                )
                &&& match result {
                    Ok(total) => total == count && refreshed_own(
                        ready.with_core(core),
                        after,
                        Ok(()),
                    ),
                    Err(error) => refreshed_own(ready.with_core(core), after, Err(error)),
                }
            },
        }
    }
}

/// That `write_app` can leave `after` and `result`.
pub open spec fn wrote_app<S: Peer>(
    before: Link<S>,
    plain: Seq<u8>,
    after: Link<S>,
    result: Result<usize, Error>,
) -> bool {
    exists|settled: Link<S>, drain: Result<(), Error>, acquired: bool| #[trigger]
        wrote_by(before, plain, settled, drain, acquired, after, result)
}

/// That `send_close_notify` can leave `after` and `result`: what is owed goes
/// first, the alert last.
pub open spec fn closed_by<S: Peer>(
    before: Link<S>,
    alert: Alert,
    settled: Link<S>,
    drain: Result<(), Error>,
    acquired: bool,
    after: Link<S>,
    result: Result<(), Error>,
) -> bool {
    &&& drained_own(before, settled, drain)
    &&& match drain {
        Err(error) => after == settled && result == Err::<(), Error>(error),
        Ok(()) => closed_with(settled, alert, acquired, after, result),
    }
}

/// That the connection was to be closed with an alert in its own outbound buffer.
pub open spec fn closed_with<S>(
    before: Link<S>,
    alert: Alert,
    acquired: bool,
    after: Link<S>,
    result: Result<(), Error>,
) -> bool {
    let ready = before.core.buffered(acquired);
    if before.core.phase == Phase::Closed || !before.core.traffic.application_ready() {
        after == before && result == before.core.close_with(alert).1
    } else if ready.pending is None {
        after == before.with_core(ready) && result == Err::<(), Error>(Error::BufferUnavailable)
    } else {
        let (next, sent) = ready.close_with(alert);
        after == before.with_core(next) && result == sent
    }
}

impl<'d, S: Peer> State<'d, S> {
    /// A connection whose handshake has not begun.
    pub fn empty(
        session: S,
        pending: Option<Cursor<'d>>,
        recv_pool: &'d Pool,
        send_pool: &'d Pool,
    ) -> (state: Self)
        ensures
            state@.link == fresh_link(session, events::contents(pending), *send_pool),
            state@.received == (Received {
                recv: None,
                slot: buffer::pool_capacity(*recv_pool),
                lacks: buffer::pool_lacks(*recv_pool),
            }),
    {
        State {
            record: Records::new(session, pending, send_pool),
            buffers: Buffers::pooled(recv_pool),
        }
    }

    /// Seals one record under the application key.
    pub fn seal_app(&mut self, content_type: ContentType, data: &[u8]) -> (result: Result<
        (),
        Error,
    >)
        ensures
            exists|acquired: bool|
                {
                    let ready = #[trigger] old(self)@.link.core.buffered(acquired);
                    let (next, sent) = ready.seal(content_type, data@);
                    if ready.pending is None {
                        result == Err::<(), Error>(Error::BufferUnavailable) && final(self)@
                            == old(self)@.with_link(old(self)@.link.with_core(ready))
                    } else {
                        result == match sent {
                            Ok(()) => Ok::<(), Error>(()),
                            Err(failure) => Err::<(), Error>(failure.as_error()),
                        } && final(self)@ == old(self)@.with_link(
                            old(self)@.link.with_core(next),
                        )
                    }
                },
    {
        let ready = events::reserve(&mut self.record.events.pending, self.record.events.pool);
        assert(self@.link.core == old(self)@.link.core.buffered(ready));
        match &mut self.record.events.pending {
            None => Err(Error::BufferUnavailable),
            Some(output) => match self.record.events.traffic.seal_application(
                output,
                content_type,
                data,
            ) {
                Ok(()) => Ok(()),
                Err(failure) => Err(failure.into_error()),
            },
        }
    }

    /// Sends the control record that is owed, if there is room for it.
    fn drain(&mut self) -> (result: Result<(), Error>)
        requires
            old(self)@.link.core.pending is Some,
        ensures
            drained(old(self)@.link, final(self)@.link, result),
            final(self)@.received == old(self)@.received,
    {
        let spare: usize = match &self.record.events.pending {
            Some(output) => output.spare_capacity(),
            None => 0,
        };
        match self.record.events.control.fatal_alert {
            Some(description) => {
                if !self.record.events.traffic.fatal_alert_fits(spare) {
                    return Ok(());
                }
                match self.record.events.write_fatal_alert(description) {
                    Ok(()) => {
                        self.record.events.control.fatal_alert = None;
                        Ok(())
                    },
                    Err(failure) => Err(failure.into_error()),
                }
            },
            None => {
                if self.record.events.phase != Phase::Closed
                    && self.record.events.control.key_update_response
                    && self.record.events.traffic.key_update_fits(spare) {
                    let sent = self.record.send_pending_key_update_response();
                    match sent {
                        Ok(()) => Ok(()),
                        Err(failure) => Err(failure.into_error()),
                    }
                } else {
                    Ok(())
                }
            },
        }
    }

    /// Whether control records are owed that can still be sent.
    pub fn has_pending_control(&self) -> (owes: bool)
        ensures
            owes == self@.link.core.owes(),
    {
        self.record.events.control.fatal_alert.is_some() || (self.record.events.phase
            != Phase::Closed && self.record.events.control.key_update_response)
    }

    /// Sends the control record that is owed, in the connection's own buffer.
    pub fn drain_pending_control(&mut self) -> (result: Result<(), Error>)
        ensures
            drained_own(old(self)@.link, final(self)@.link, result),
            final(self)@.received == old(self)@.received,
    {
        if !self.has_pending_control() {
            return Ok(());
        }
        let ready = events::reserve(&mut self.record.events.pending, self.record.events.pool);
        assert(self@.link == old(self)@.link.with_core(old(self)@.link.core.buffered(ready)));
        if !ready {
            return Ok(());
        }
        self.drain()
    }

    /// Exchanges the outbound buffer for another.
    pub fn swap_pending_buffer(&mut self, pending: &mut Option<Cursor<'d>>)
        ensures
            final(self)@ == old(self)@.with_link(
                old(self)@.link.lend(events::contents(*old(pending))),
            ),
            events::contents(*final(pending)) == old(self)@.link.core.pending,
    {
        core::mem::swap(&mut self.record.events.pending, pending);
    }

    /// Sends the control record that is owed, in a lent buffer.
    pub fn drain_pending_control_into(&mut self, output: &mut Option<Cursor<'d>>) -> (result:
        Result<(), Error>)
        requires
            *old(output) is Some,
        ensures
            exists|mid: Link<S>| #[trigger]
                drained(
                    old(self)@.link.lend(events::contents(*old(output))),
                    mid,
                    result,
                ) && final(self)@.link == mid.lend(old(self)@.link.core.pending)
                    && events::contents(*final(output)) == mid.core.pending,
            *final(output) is Some,
            final(self)@.received == old(self)@.received,
    {
        self.swap_pending_buffer(output);
        let ghost lent = self@.link;
        let result = self.drain();
        let ghost mid = self@.link;
        proof {
            drained_keeps_buffer(lent, mid, result);
        }
        self.swap_pending_buffer(output);
        assert(drained(lent, mid, result));
        result
    }

    /// Replaces a used-up key.
    fn refresh(&mut self, spare: usize) -> (result: Result<(), Error>)
        ensures
            refreshed(old(self)@.link, spare as int, final(self)@.link, result),
            final(self)@.received == old(self)@.received,
    {
        if self.record.events.traffic.needs_key_update() && !self.closed()
            && self.record.events.traffic.key_update_fits(spare) {
            let sent = self.record.send_key_update(KeyUpdateRequest::NotRequested);
            match sent {
                Ok(()) => Ok(()),
                Err(failure) => Err(failure.into_error()),
            }
        } else {
            Ok(())
        }
    }

    fn closed(&self) -> (is: bool)
        ensures
            is == closed(self@.link.core.phase),
    {
        match self.record.events.phase {
            Phase::PeerClosed | Phase::Closed => true,
            _ => false,
        }
    }

    /// Replaces a used-up key, by way of the connection's own buffer.
    pub fn maybe_auto_key_update(&mut self) -> (result: Result<(), Error>)
        ensures
            refreshed_own(old(self)@.link, final(self)@.link, result),
            final(self)@.received == old(self)@.received,
    {
        let spare: usize = match &self.record.events.pending {
            Some(output) => output.spare_capacity(),
            None => self.record.events.pool.capacity(),
        };
        if self.record.events.phase == Phase::Handshaking
            && self.record.events.traffic.needs_key_update()
            && self.record.events.traffic.key_update_fits(spare) {
            return Err(Error::NotEstablished);
        }
        self.refresh(spare)
    }

    /// Replaces a used-up key, by way of a lent buffer.
    pub fn maybe_auto_key_update_into(&mut self, output: &mut Option<Cursor<'d>>) -> (result:
        Result<(), Error>)
        requires
            *old(output) is Some,
        ensures
            refreshed_into(
                old(self)@.link,
                events::contents(*old(output)),
                final(self)@.link,
                events::contents(*final(output)),
                result,
            ),
            *final(output) is Some,
            final(self)@.received == old(self)@.received,
    {
        let spare: usize = match &*output {
            Some(output) => output.spare_capacity(),
            None => 0,
        };
        self.swap_pending_buffer(output);
        let ghost lent = self@.link;
        let result = self.refresh(spare);
        let ghost mid = self@.link;
        proof {
            refreshed_keeps_buffer(lent, spare as int, mid, result);
        }
        self.swap_pending_buffer(output);
        assert(spare == events::contents(*old(output))->0.spare());
        assert(lent == old(self)@.link.lend(events::contents(*old(output))));
        assert(refreshed(
            old(self)@.link.lend(events::contents(*old(output))),
            events::contents(*old(output))->0.spare(),
            mid,
            result,
        ));
        result
    }

    /// Writes application data into a lent buffer.
    pub fn write_app_into(&mut self, output: &mut Option<Cursor<'d>>, plaintext: &[u8]) -> (result:
        Result<usize, Error>)
        requires
            *old(output) is Some,
        ensures
            ({
                let lent = old(self)@.link.core.lend(events::contents(*old(output)));
                let (core, written) = lent.write(plaintext@);
                wrote_into(
                    old(self)@.link,
                    core,
                    written,
                    final(self)@.link,
                    events::contents(*final(output)),
                    result,
                ) && (written matches Ok(count) ==> count <= plaintext@.len() && traffic::wrote(
                    lent.traffic.application.seal,
                    lent.pending->0,
                    core.traffic.application.seal,
                    core.pending->0,
                    plaintext@.take(count as int),
                ))
            }),
            *final(output) is Some,
            final(self)@.received == old(self)@.received,
    {
        let written = match &mut *output {
            Some(cursor) => self.record.events.traffic.write_application(
                self.record.events.phase,
                cursor,
                plaintext,
            ),
            None => Ok(0),
        };
        match written {
            Ok(count) => match self.maybe_auto_key_update_into(output) {
                Ok(()) => Ok(count),
                Err(error) => Err(error),
            },
            Err(error) => Err(error),
        }
    }

    /// Writes one record of application data, out of several parts, into a lent
    /// buffer.
    pub fn write_app_parts_into(
        &mut self,
        output: &mut Option<Cursor<'d>>,
        plaintext_len: usize,
        parts: &[&[u8]],
    ) -> (result: Result<usize, Error>)
        requires
            *old(output) is Some,
        ensures
            ({
                let lent = old(self)@.link.core.lend(events::contents(*old(output)));
                let (core, written) = lent.write_parts(
                    plaintext_len as nat,
                    record::joined(parts@),
                );
                wrote_into(
                    old(self)@.link,
                    core,
                    written,
                    final(self)@.link,
                    events::contents(*final(output)),
                    result,
                ) && (plaintext_len > 0 && written == Ok::<nat, Error>(plaintext_len as nat)
                    ==> traffic::wrote(
                    lent.traffic.application.seal,
                    lent.pending->0,
                    core.traffic.application.seal,
                    core.pending->0,
                    record::joined(parts@),
                ))
            }),
            *final(output) is Some,
            final(self)@.received == old(self)@.received,
    {
        let written = match &mut *output {
            Some(cursor) => self.record.events.traffic.write_application_parts(
                self.record.events.phase,
                cursor,
                plaintext_len,
                parts,
            ),
            None => Ok(0),
        };
        match written {
            Ok(count) => match self.maybe_auto_key_update_into(output) {
                Ok(()) => Ok(count),
                Err(error) => Err(error),
            },
            Err(error) => Err(error),
        }
    }

    /// Closes the connection with an alert in its own buffer.
    pub fn seal_closing_alert(&mut self, alert: Alert) -> (result: Result<(), Error>)
        ensures
            exists|acquired: bool| #[trigger]
                closed_with(old(self)@.link, alert, acquired, final(self)@.link, result),
            final(self)@.received == old(self)@.received,
    {
        if self.record.events.phase == Phase::Closed {
            assert(closed_with(old(self)@.link, alert, true, self@.link, Ok::<(), Error>(())));
            return Ok(());
        }
        if !self.record.events.traffic.application_ready() {
            assert(closed_with(
                old(self)@.link,
                alert,
                true,
                self@.link,
                Err::<(), Error>(Error::NotEstablished),
            ));
            return Err(Error::NotEstablished);
        }
        let body = alert.body();
        let ready = events::reserve(&mut self.record.events.pending, self.record.events.pool);
        assert(self@.link.core == old(self)@.link.core.buffered(ready));
        let result = match &mut self.record.events.pending {
            None => Err(Error::BufferUnavailable),
            Some(output) => match self.record.events.traffic.seal_application(
                output,
                ContentType::Alert,
                body.as_slice(),
            ) {
                Ok(()) => Ok(()),
                Err(failure) => Err(failure.into_error()),
            },
        };
        if result.is_ok() {
            self.record.events.phase = Phase::Closed;
        }
        assert(closed_with(old(self)@.link, alert, ready, self@.link, result));
        result
    }

    /// Closes the connection with an alert in a lent buffer.
    pub fn seal_closing_alert_into(&mut self, output: &mut Option<Cursor<'d>>, alert: Alert) -> (
    result: Result<(), Error>)
        requires
            *old(output) is Some,
        ensures
            ({
                let (next, sent) = old(self)@.link.core.lend(
                    events::contents(*old(output)),
                ).close_with(alert);
                result == sent && events::contents(*final(output)) == next.pending && final(self)@
                    == old(self)@.with_link(
                    old(self)@.link.with_core(next.lend(old(self)@.link.core.pending)),
                )
            }),
            *final(output) is Some,
    {
        if self.record.events.phase == Phase::Closed {
            return Ok(());
        }
        if !self.record.events.traffic.application_ready() {
            return Err(Error::NotEstablished);
        }
        let body = alert.body();
        let result = match &mut *output {
            None => Err(Error::BufferUnavailable),
            Some(output) => match self.record.events.traffic.seal_application(
                output,
                ContentType::Alert,
                body.as_slice(),
            ) {
                Ok(()) => Ok(()),
                Err(failure) => Err(failure.into_error()),
            },
        };
        if result.is_ok() {
            self.record.events.phase = Phase::Closed;
        }
        result
    }

    /// Closes the connection over bytes that there is no room for.
    pub fn fatal_overflow(&mut self) -> (error: Error)
        ensures
            error == Error::ReceiveOverflow,
            exists|acquired: bool|
                final(self)@ == old(self)@.with_link(
                    old(self)@.link.with_core(
                        #[trigger] old(self)@.link.core.stage_fatal_alert(
                            Description::RecordOverflow,
                            acquired,
                        ).with_phase(Phase::Closed),
                    ),
                ),
    {
        self.record.events.stage_fatal_alert(Description::RecordOverflow);
        proof {
            let acquired = choose|acquired: bool| #[trigger]
                old(self).record.events@.stage_fatal_alert(Description::RecordOverflow, acquired)
                    == self.record.events@;
            assert(self@.link.core.with_phase(Phase::Closed)
                == old(self)@.link.core.stage_fatal_alert(
                Description::RecordOverflow,
                acquired,
            ).with_phase(Phase::Closed));
        }
        self.record.events.phase = Phase::Closed;
        Error::ReceiveOverflow
    }

    /// The bytes that are to be sent.
    pub fn pending_send_slice(&self) -> (bytes: &[u8])
        ensures
            bytes@ == events::bytes_of(self@.link.core.pending),
    {
        match &self.record.events.pending {
            Some(output) => output.as_slice(),
            None => &[],
        }
    }

    /// Drops bytes that were sent, and sends what is owed in the room that this
    /// makes.
    pub fn consume_pending_send(&mut self, count: usize) -> (result: Result<(), Error>)
        ensures
            count > events::bytes_of(old(self)@.link.core.pending).len() ==> result == Err::<
                (),
                Error,
            >(Error::InvalidBufferProgress) && final(self)@ == old(self)@,
            count <= events::bytes_of(old(self)@.link.core.pending).len() ==> drained_own(
                old(self)@.link.lend(sent_off(old(self)@.link.core.pending, count as int)),
                final(self)@.link,
                result,
            ),
            final(self)@.received == old(self)@.received,
    {
        let empty = match &mut self.record.events.pending {
            None => {
                if count != 0 {
                    return Err(Error::InvalidBufferProgress);
                }
                false
            },
            Some(output) => {
                if !output.try_consume(count) {
                    return Err(Error::InvalidBufferProgress);
                }
                output.len() == 0
            },
        };
        if empty {
            self.record.events.pending = None;
        }
        assert(self@.link == old(self)@.link.lend(
            sent_off(old(self)@.link.core.pending, count as int),
        ));
        self.drain_pending_control()
    }

    /// Writes application data. Returns how much of it was taken: nothing while
    /// control records are owed that there is no room for.
    pub fn write_app(&mut self, plaintext: &[u8]) -> (result: Result<usize, Error>)
        ensures
            wrote_app(old(self)@.link, plaintext@, final(self)@.link, result),
            final(self)@.received == old(self)@.received,
    {
        let drain = self.drain_pending_control();
        let ghost settled = self@.link;
        match drain {
            Err(error) => {
                assert(wrote_by(
                    old(self)@.link,
                    plaintext@,
                    settled,
                    drain,
                    true,
                    self@.link,
                    Err::<usize, Error>(error),
                ));
                return Err(error);
            },
            Ok(()) => {},
        }
        if self.has_pending_control() {
            assert(wrote_by(
                old(self)@.link,
                plaintext@,
                settled,
                drain,
                true,
                self@.link,
                Ok::<usize, Error>(0),
            ));
            return Ok(0);
        }
        let ready = events::reserve(&mut self.record.events.pending, self.record.events.pool);
        let ghost before = self@.link;
        assert(before == settled.with_core(settled.core.buffered(ready)));
        let written = match &mut self.record.events.pending {
            None => Err(Error::BufferUnavailable),
            Some(output) => self.record.events.traffic.write_application(
                self.record.events.phase,
                output,
                plaintext,
            ),
        };
        let ghost mid = self@.link;
        let result = match written {
            Ok(count) => {
                match self.maybe_auto_key_update() {
                    Ok(()) => Ok(count),
                    Err(error) => Err(error),
                }
            },
            Err(error) => Err(error),
        };
        assert(wrote_plain(before, plaintext@, self@.link, result));
        assert(wrote_by(old(self)@.link, plaintext@, settled, drain, ready, self@.link, result));
        result
    }

    /// Sends a key update.
    pub fn send_key_update(&mut self, request: KeyUpdateRequest) -> (result: Result<(), Error>)
        ensures
            old(self)@.link.core.phase != Phase::Established ==> result == Err::<(), Error>(
                Error::NotEstablished,
            ) && final(self)@ == old(self)@,
            old(self)@.link.core.phase == Phase::Established ==> exists|
                sent: Result<(), RecordFailure>,
            | #[trigger]
                records::drove(
                    old(self)@.link,
                    Call::KeyUpdate { request },
                    final(self)@.link,
                    sent,
                ) && result == reported(sent),
            final(self)@.received == old(self)@.received,
    {
        if self.record.events.phase != Phase::Established {
            return Err(Error::NotEstablished);
        }
        let sent = self.record.send_key_update(request);
        match sent {
            Ok(()) => Ok(()),
            Err(failure) => Err(failure.into_error()),
        }
    }

    /// Closes the connection in order.
    pub fn send_close_notify(&mut self) -> (result: Result<(), Error>)
        ensures
            exists|settled: Link<S>, drain: Result<(), Error>, acquired: bool| #[trigger]
                closed_by(
                    old(self)@.link,
                    (Alert { level: Level::Warning, description: Description::CloseNotify }),
                    settled,
                    drain,
                    acquired,
                    final(self)@.link,
                    result,
                ),
            final(self)@.received == old(self)@.received,
    {
        let drain = self.drain_pending_control();
        let ghost settled = self@.link;
        let alert = Alert::close_notify();
        let result = match drain {
            Err(error) => {
                assert(closed_by(
                    old(self)@.link,
                    alert,
                    settled,
                    drain,
                    true,
                    self@.link,
                    Err::<(), Error>(error),
                ));
                return Err(error);
            },
            Ok(()) => self.seal_closing_alert(alert),
        };
        proof {
            let acquired = choose|acquired: bool| #[trigger]
                closed_with(settled, alert, acquired, self@.link, result);
            assert(closed_by(
                old(self)@.link,
                alert,
                settled,
                drain,
                acquired,
                self@.link,
                result,
            ));
        }
        result
    }

    /// Closes the connection with a fatal alert.
    pub fn send_fatal_alert(&mut self, description: Description) -> (result: Result<(), Error>)
        ensures
            exists|acquired: bool| #[trigger]
                closed_with(
                    old(self)@.link,
                    (Alert { level: Level::Fatal, description }),
                    acquired,
                    final(self)@.link,
                    result,
                ),
            final(self)@.received == old(self)@.received,
    {
        self.seal_closing_alert(Alert::fatal(description))
    }
}

impl<'d, S: ClientPeer> State<'d, S> {
    /// A client connection whose handshake has begun.
    pub fn from_client(
        session: S,
        pending: Option<Cursor<'d>>,
        recv_pool: &'d Pool,
        send_pool: &'d Pool,
    ) -> (result: Result<Self, Error>)
        ensures
            exists|mid: Link<S>, sent: Result<(), RecordFailure>| #[trigger]
                records::drove(
                    fresh_link(session, events::contents(pending), *send_pool),
                    Call::Start,
                    mid,
                    sent,
                ) && match result {
                    Ok(state) => sent is Ok && state@.link == records::unowed(mid)
                        && state@.received == (Received {
                        recv: None,
                        slot: buffer::pool_capacity(*recv_pool),
                        lacks: buffer::pool_lacks(*recv_pool),
                    }),
                    Err(error) => sent matches Err(failure) && error == failure.as_error(),
                },
    {
        let mut state = State::empty(session, pending, recv_pool, send_pool);
        let ghost before = state@.link;
        let sent = state.record.start_client();
        proof {
            assert(before == records::unowed(before));
            assert(before == fresh_link(session, events::contents(pending), *send_pool));
            let mid = choose|mid: Link<S>| #[trigger]
                records::drove(records::unowed(before), Call::Start, mid, sent) && state@.link
                    == mid.with_core(Core { control: before.core.control, ..mid.core });
            assert(records::drove(
                fresh_link(session, events::contents(pending), *send_pool),
                Call::Start,
                mid,
                sent,
            ));
            assert(state@.link == records::unowed(mid));
        }
        match sent {
            Ok(()) => Ok(state),
            Err(failure) => Err(failure.into_error()),
        }
    }
}

/// A connection whose handshake has not begun.
pub open spec fn fresh_link<S>(session: S, pending: Option<Contents>, send_pool: Pool) -> Link<S> {
    Link {
        side: session,
        core: Core {
            phase: Phase::Handshaking,
            pending,
            slot: buffer::pool_capacity(send_pool),
            lacks: buffer::pool_lacks(send_pool),
            control: PendingControl { fatal_alert: None, key_update_response: false },
            traffic: TrafficView {
                handshake: KeysView { open: None, seal: None },
                application: KeysView { open: None, seal: None },
            },
        },
        close: PeerClose::Open,
    }
}

/// The outbound buffer after `count` bytes were sent: an empty one goes back.
pub open spec fn sent_off(pending: Option<Contents>, count: int) -> Option<Contents> {
    match pending {
        Some(out) => if count == out.bytes.len() {
            None
        } else {
            Some(out.skip(count))
        },
        None => None,
    }
}

impl Core {
    /// With `out` in place of the outbound buffer.
    pub open spec fn lend(self, out: Option<Contents>) -> Core {
        Core { pending: out, ..self }
    }
}

/// That a used-up key was replaced by way of a lent buffer.
pub open spec fn refreshed_into<S: Peer>(
    before: Link<S>,
    out: Option<Contents>,
    after: Link<S>,
    left: Option<Contents>,
    result: Result<(), Error>,
) -> bool {
    exists|mid: Link<S>| #[trigger]
        refreshed(before.lend(out), out->0.spare(), mid, result) && after == mid.lend(
            before.core.pending,
        ) && left == mid.core.pending
}

/// That data was written into a lent buffer, leaving `core` with it, and that a
/// used-up key was then replaced.
pub open spec fn wrote_into<S: Peer>(
    before: Link<S>,
    core: Core,
    written: Result<nat, Error>,
    after: Link<S>,
    left: Option<Contents>,
    result: Result<usize, Error>,
) -> bool {
    let mid = before.with_core(core.lend(before.core.pending));
    match written {
        Err(error) => result == Err::<usize, Error>(error) && after == mid && left == core.pending,
        Ok(count) => match result {
            Ok(total) => total == count && refreshed_into(mid, core.pending, after, left, Ok(())),
            Err(error) => refreshed_into(mid, core.pending, after, left, Err(error)),
        },
    }
}

/// What the engine asks never takes an outbound buffer away.
proof fn driving_keeps_buffer(core: Core, steps: Seq<(events::Asked, bool)>)
    requires
        core.pending is Some,
    ensures
        core.absorb_all(steps).0.pending is Some,
    decreases steps.len(),
{
    if steps.len() > 0 {
        driving_keeps_buffer(core, steps.drop_last());
    }
}

proof fn drove_keeps_buffer<S: Peer>(
    before: Link<S>,
    call: Call,
    after: Link<S>,
    result: Result<(), RecordFailure>,
)
    requires
        before.core.pending is Some,
        records::drove(before, call, after, result),
    ensures
        after.core.pending is Some,
{
    let (mid, answer, acquired) = choose|
        mid: Core,
        answer: Result<(), shin::connection::DriveError<RecordFailure>>,
        acquired: bool,
    | #[trigger]
        records::drove_by(before, call, mid, answer, acquired, after, result);
    let steps = choose|steps: Seq<(events::Asked, bool)>| #[trigger]
        before.core.absorb_all(steps) == (mid, events::sink_result(answer));
    driving_keeps_buffer(before.core, steps);
}

proof fn drained_keeps_buffer<S: Peer>(
    before: Link<S>,
    after: Link<S>,
    result: Result<(), Error>,
)
    requires
        before.core.pending is Some,
        drained(before, after, result),
    ensures
        after.core.pending is Some,
{
    if before.core.control.fatal_alert is None && before.core.phase != Phase::Closed
        && before.core.control.key_update_response && before.core.pending->0.spare()
        >= KEY_UPDATE_LEN {
        let (mid, sent) = choose|mid: Link<S>, sent: Result<(), RecordFailure>| #[trigger]
            records::drove(before, Call::PendingKeyUpdate, mid, sent) && after
                == records::answered(mid, sent) && result == reported(sent);
        drove_keeps_buffer(before, Call::PendingKeyUpdate, mid, sent);
    }
}

proof fn refreshed_keeps_buffer<S: Peer>(
    before: Link<S>,
    spare: int,
    after: Link<S>,
    result: Result<(), Error>,
)
    requires
        before.core.pending is Some,
        refreshed(before, spare, after, result),
    ensures
        after.core.pending is Some,
{
    if before.core.traffic.needs_key_update() && !closed(before.core.phase) && spare
        >= KEY_UPDATE_LEN {
        let call = Call::KeyUpdate { request: KeyUpdateRequest::NotRequested };
        let sent = choose|sent: Result<(), RecordFailure>| #[trigger]
            records::drove(before, call, after, sent) && result == reported(sent);
        drove_keeps_buffer(before, call, after, sent);
    }
}

} // verus!
