//! Connections on a wire.

use crate::buffer::{self, Contents, Cursor};
use crate::record;
use crate::state::api::Status;
use crate::state::events;
use crate::state::sessions::Peer;
use crate::state::{State, StateView};
use crate::transmissions::{Availability, SendBuffer, SendProtocol};
use vstd::prelude::*;

pub mod egress;
pub mod ledger;
pub mod endpoints;
pub mod plan;
pub mod receive;
pub mod roles;
pub mod runtime;

verus! {

/// A TLS connection, and how its end is to be told.
pub struct ConnectionState<'d, S: Peer> {
    pub tls: State<'d, S>,
    /// Whether the transport is to be closed.
    pub close: bool,
    /// Whether the peer was told.
    pub close_notify_sent: bool,
}

impl<'d, S: Peer> ConnectionState<'d, S> {
    pub fn new(tls: State<'d, S>) -> (state: Self)
        ensures
            state.tls == tls,
            !state.close,
            !state.close_notify_sent,
    {
        ConnectionState { tls, close: false, close_notify_sent: false }
    }
}

/// A TLS connection on a wire.
pub struct Connection<'d, S: Peer> {
    pub state: ConnectionState<'d, S>,
    /// Whether a send buffer has been handed to the wire.
    pub send_inflight: bool,
}

/// A connection on a wire, by what it holds.
pub struct Wired<S> {
    pub state: StateView<S>,
    pub close: bool,
    pub close_notify_sent: bool,
    pub inflight: bool,
}

impl<S: Peer> View for Connection<'_, S> {
    type V = Wired<S>;

    open spec fn view(&self) -> Wired<S> {
        Wired {
            state: self.state.tls@,
            close: self.state.close,
            close_notify_sent: self.state.close_notify_sent,
            inflight: self.send_inflight,
        }
    }
}

impl<'d, S: Peer> Connection<'d, S> {
    /// A connection that nothing was sent on.
    pub fn new(tls: State<'d, S>) -> (connection: Self)
        ensures
            connection@ == (Wired {
                state: tls@,
                close: false,
                close_notify_sent: false,
                inflight: false,
            }),
    {
        Connection { state: ConnectionState::new(tls), send_inflight: false }
    }

    /// The TLS connection alone, with what was to be sent back in its own buffer.
    pub fn into_state(self, send: SendState<'d>) -> (state: State<'d, S>)
        ensures
            state@ == self@.state.with_link(self@.state.link.lend(events::contents(send.buffer))),
    {
        let mut connection = self;
        let mut buffer = send.buffer;
        connection.state.tls.swap_pending_buffer(&mut buffer);
        connection.state.tls
    }

    /// The peer has stopped sending.
    pub fn recv_eof(&mut self)
        ensures
            final(self)@.state.standing() == old(self)@.state.standing().eof(),
            final(self)@.state.received == old(self)@.state.received,
            final(self)@.state.link.core == old(self)@.state.link.core.with_phase(
                final(self)@.state.link.core.phase,
            ),
            final(self)@.close,
            final(self)@.close_notify_sent == old(self)@.close_notify_sent,
            final(self)@.inflight == old(self)@.inflight,
    {
        let _ = self.state.tls.peer_eof();
        self.state.close = true;
    }

    /// The buffer never reached the wire.
    pub fn submit_failed(&mut self)
        ensures
            final(self)@ == (Wired { inflight: false, ..old(self)@ }),
    {
        self.send_inflight = false;
    }
}

/// The bytes that are to be sent on a connection.
pub struct SendState<'d> {
    pub buffer: Option<Cursor<'d>>,
}

impl<'d> SendState<'d> {
    /// Nothing to be sent.
    pub fn new() -> (send: Self)
        ensures
            send.buffer is None,
    {
        SendState { buffer: None }
    }

    /// Sees to it that there is a buffer. Says whether there is.
    pub fn reserve(&mut self, pool: &'d crate::buffer::Pool) -> (ready: bool)
        ensures
            ready == (final(self).buffer is Some),
            old(self).buffer is Some ==> final(self).buffer == old(self).buffer,
            old(self).buffer is None && ready ==> events::contents(final(self).buffer) == Some(
                (Contents { bytes: Seq::empty(), capacity: buffer::pool_capacity(*pool) }),
            ),
            !ready ==> buffer::pool_lacks(*pool),
    {
        events::reserve(&mut self.buffer, pool)
    }

    /// The bytes that are to be sent.
    pub fn as_slice(&self) -> (bytes: &[u8])
        ensures
            bytes@ == self.bytes(),
    {
        match &self.buffer {
            Some(cursor) => cursor.as_slice(),
            None => &[],
        }
    }

    /// Gives the buffer back for good.
    pub fn release(self) -> (availability: Availability)
        ensures
            availability == if self.buffer is Some {
                Availability::Released
            } else {
                Availability::Unchanged
            },
    {
        if self.buffer.is_some() {
            Availability::Released
        } else {
            Availability::Unchanged
        }
    }
}

impl SendBuffer for SendState<'_> {
    open spec fn bytes(&self) -> Seq<u8> {
        events::bytes_of(events::contents(self.buffer))
    }

    open spec fn ready(&self) -> bool {
        self.buffer is Some
    }

    open spec fn dropped(before: Self, count: int, after: Self) -> bool {
        events::contents(after.buffer) == match events::contents(before.buffer) {
            Some(out) => Some(out.skip(count)),
            None => None,
        }
    }

    open spec fn released(before: Self, after: Self, availability: Availability) -> bool {
        if before.buffer is Some && before.bytes().len() == 0 {
            after.buffer is None && availability == Availability::Released
        } else {
            after == before && availability == Availability::Unchanged
        }
    }

    fn is_empty(&self) -> bool {
        self.as_slice().len() == 0
    }

    fn has_buffer(&self) -> bool {
        self.buffer.is_some()
    }

    fn try_consume(&mut self, count: usize) -> bool {
        match &mut self.buffer {
            Some(cursor) => cursor.try_consume(count),
            None => false,
        }
    }

    fn release_if_empty(&mut self) -> Availability {
        let empty = match &self.buffer {
            Some(cursor) => cursor.len() == 0,
            None => false,
        };
        if empty {
            self.buffer = None;
            Availability::Released
        } else {
            Availability::Unchanged
        }
    }

    proof fn dropping_keeps_the_rest(before: Self, count: int, after: Self) {
    }

    proof fn releasing_keeps_bytes(before: Self, after: Self, availability: Availability) {
    }
}

impl<'d, S: Peer> SendProtocol for Connection<'d, S> {
    type Storage = SendState<'d>;

    open spec fn wants(&self) -> bool {
        !self.send_inflight && self@.state.link.core.owes()
    }

    open spec fn inflight(&self) -> bool {
        self.send_inflight
    }

    open spec fn reserved(
        protocol: Self,
        before: SendState<'d>,
        after: SendState<'d>,
        ready: bool,
    ) -> bool {
        &&& ready == (after.buffer is Some)
        &&& before.buffer is Some ==> after == before
        &&& before.buffer is None && ready ==> events::contents(after.buffer) == Some(
            (Contents { bytes: Seq::empty(), capacity: protocol@.state.link.core.slot }),
        )
        &&& !ready ==> buffer::pool_lacks(*protocol.state.tls.record.events.pool)
    }

    open spec fn drained(
        before: Self,
        buffer: SendState<'d>,
        after: Self,
        left: SendState<'d>,
    ) -> bool {
        egress::drained_into(
            before@,
            events::contents(buffer.buffer),
            after@,
            events::contents(left.buffer),
        )
    }

    open spec fn encrypted(
        before: Self,
        buffer: SendState<'d>,
        plain: Seq<u8>,
        after: Self,
        left: SendState<'d>,
        count: nat,
    ) -> bool {
        egress::encrypted(
            before@,
            events::contents(buffer.buffer),
            plain,
            after@,
            events::contents(left.buffer),
            count,
        )
    }

    open spec fn encrypted_parts(
        before: Self,
        buffer: SendState<'d>,
        plain: Seq<u8>,
        after: Self,
        left: SendState<'d>,
        count: nat,
    ) -> bool {
        Self::encrypted(before, buffer, plain, after, left, count)
    }

    open spec fn closing(
        before: Self,
        buffer: SendState<'d>,
        after: Self,
        left: SendState<'d>,
        close: bool,
    ) -> bool {
        after == before && left == buffer && close == before@.closes()
    }

    open spec fn flown(before: Self, after: Self, inflight: bool) -> bool {
        after@ == (Wired { inflight, ..before@ })
    }

    fn try_buffer(&self, storage: &mut SendState<'d>) -> bool {
        storage.reserve(self.state.tls.record.events.pool)
    }

    fn needs_buffer(&self) -> bool {
        !self.send_inflight && self.state.tls.has_pending_control()
    }

    fn encrypt(&mut self, storage: &mut SendState<'d>, plain: &[u8]) -> usize {
        self.encrypt_plain(storage, plain)
    }

    fn encrypt_vectored(&mut self, storage: &mut SendState<'d>, parts: &[&[u8]]) -> usize {
        self.encrypt_parts(storage, parts)
    }

    fn propagate_close(&mut self, storage: &mut SendState<'d>) -> bool {
        self.closes()
    }

    fn drain_to_egress(&mut self, storage: &mut SendState<'d>) {
        self.drain_control(storage)
    }

    fn set_inflight(&mut self, inflight: bool) {
        self.send_inflight = inflight;
    }

    proof fn flight_is_known(before: Self, after: Self, inflight: bool) {
    }

    proof fn reserving_keeps_bytes(
        protocol: Self,
        before: SendState<'d>,
        after: SendState<'d>,
        ready: bool,
    ) {
    }

    proof fn draining_appends(before: Self, buffer: SendState<'d>, after: Self, left: SendState<'d>) {
        ledger::draining_only_appends(
            before@,
            events::contents(buffer.buffer)->0,
            after@,
            events::contents(left.buffer),
        );
    }

    proof fn encrypting_appends(
        before: Self,
        buffer: SendState<'d>,
        plain: Seq<u8>,
        after: Self,
        left: SendState<'d>,
        count: nat,
    ) {
        ledger::encrypting_seals_in_order(
            before@,
            events::contents(buffer.buffer)->0,
            plain,
            after@,
            events::contents(left.buffer),
            count,
        );
    }

    proof fn closing_appends(
        before: Self,
        buffer: SendState<'d>,
        after: Self,
        left: SendState<'d>,
        close: bool,
    ) {
    }
}

} // verus!
