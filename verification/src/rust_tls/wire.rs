//! Connections of `rustls` on a wire.

use crate::buffer::{self, Contents, Cursor, Pool};
use crate::rust_tls::session::Session;
use crate::rust_tls::{self, ledger, RustTls, RustTlsEndpoint, RUSTLS_STAGING_CAP, TLS_MAX_CIPHERTEXT};
use crate::state::events;
use crate::transmissions::{self, Availability, Prepared, SendBuffer, SendProtocol};
use core::marker::PhantomData;
use o3::buffer::bytes::{Bytes, Pooled};
use o3::buffer::pool::LayoutError;
use rustls::{Connection as RustlsConnection, Error as RustlsError};
use vstd::prelude::*;

verus! {

/// The bytes that are to be sent on a connection. The buffer stays with the
/// connection.
pub struct RustSendState<'d> {
    pub buffer: Option<Cursor<'d>>,
}

impl RustSendState<'_> {
    pub fn as_slice(&self) -> (bytes: &[u8])
        ensures
            bytes@ == self.bytes(),
    {
        match &self.buffer {
            Some(cursor) => cursor.as_slice(),
            None => &[],
        }
    }
}

impl SendBuffer for RustSendState<'_> {
    open spec fn bytes(&self) -> Seq<u8> {
        events::bytes_of(events::contents(self.buffer))
    }

    open spec fn ready(&self) -> bool {
        self.buffer is Some
    }

    open spec fn dropped(before: Self, count: int, after: Self) -> bool {
        events::contents(after.buffer) == match events::contents(before.buffer) {
            Some(out) => Some(out.skip(count)),
            None => None,
        }
    }

    open spec fn released(before: Self, after: Self, availability: Availability) -> bool {
        after == before && availability == Availability::Unchanged
    }

    fn is_empty(&self) -> bool {
        self.as_slice().len() == 0
    }

    fn has_buffer(&self) -> bool {
        self.buffer.is_some()
    }

    fn try_consume(&mut self, count: usize) -> bool {
        match &mut self.buffer {
            Some(cursor) => cursor.try_consume(count),
            None => false,
        }
    }

    fn release_if_empty(&mut self) -> Availability {
        Availability::Unchanged
    }

    proof fn dropping_keeps_the_rest(before: Self, count: int, after: Self) {
    }

    proof fn releasing_keeps_bytes(before: Self, after: Self, availability: Availability) {
    }
}

/// A connection on a wire.
pub struct RustWire<'d, S: Session> {
    pub tls: RustTls<S>,
    pub buffers: PhantomData<&'d ()>,
}

/// What a send buffer holds.
pub open spec fn held(send: RustSendState<'_>) -> Contents {
    send.buffer->0@
}

impl<'d, S: Session> SendProtocol for RustWire<'d, S> {
    type Storage = RustSendState<'d>;

    open spec fn wants(&self) -> bool {
        self.tls.close || rust_tls::wants(self.tls)
    }

    open spec fn inflight(&self) -> bool {
        self.tls.send_inflight
    }

    open spec fn reserved(
        protocol: Self,
        before: RustSendState<'d>,
        after: RustSendState<'d>,
        ready: bool,
    ) -> bool {
        after == before && ready == (before.buffer is Some)
    }

    open spec fn drained(
        before: Self,
        buffer: RustSendState<'d>,
        after: Self,
        left: RustSendState<'d>,
    ) -> bool {
        rust_tls::drained(before.tls, held(buffer), after.tls, held(left))
    }

    open spec fn encrypted(
        before: Self,
        buffer: RustSendState<'d>,
        plain: Seq<u8>,
        after: Self,
        left: RustSendState<'d>,
        count: nat,
    ) -> bool {
        rust_tls::encrypted(before.tls, held(buffer), plain, after.tls, held(left), count)
    }

    open spec fn encrypted_parts(
        before: Self,
        buffer: RustSendState<'d>,
        plain: Seq<u8>,
        after: Self,
        left: RustSendState<'d>,
        count: nat,
    ) -> bool {
        rust_tls::encrypted_parts(
            before.tls,
            held(buffer),
            plain,
            after.tls,
            held(left),
            count,
        )
    }

    open spec fn closing(
        before: Self,
        buffer: RustSendState<'d>,
        after: Self,
        left: RustSendState<'d>,
        close: bool,
    ) -> bool {
        rust_tls::told(before.tls, held(buffer), after.tls, held(left), close)
    }

    open spec fn flown(before: Self, after: Self, inflight: bool) -> bool {
        after.tls == (RustTls { send_inflight: inflight, ..before.tls })
    }

    fn try_buffer(&self, storage: &mut RustSendState<'d>) -> bool {
        storage.buffer.is_some()
    }

    fn needs_buffer(&self) -> bool {
        self.tls.needs_buffer()
    }

    fn encrypt(&mut self, storage: &mut RustSendState<'d>, plain: &[u8]) -> usize {
        self.tls.encrypt(&mut storage.buffer, plain)
    }

    fn encrypt_vectored(&mut self, storage: &mut RustSendState<'d>, parts: &[&[u8]]) -> usize {
        self.tls.encrypt_vectored(&mut storage.buffer, parts)
    }

    fn propagate_close(&mut self, storage: &mut RustSendState<'d>) -> bool {
        self.tls.propagate_close(&mut storage.buffer)
    }

    fn drain_to_egress(&mut self, storage: &mut RustSendState<'d>) {
        self.tls.drain_to_egress(&mut storage.buffer)
    }

    fn set_inflight(&mut self, inflight: bool) {
        self.tls.send_inflight = inflight;
    }

    proof fn flight_is_known(before: Self, after: Self, inflight: bool) {
    }

    proof fn reserving_keeps_bytes(
        protocol: Self,
        before: RustSendState<'d>,
        after: RustSendState<'d>,
        ready: bool,
    ) {
    }

    proof fn draining_appends(before: Self, buffer: RustSendState<'d>, after: Self, left: RustSendState<'d>) {
        let conn = before.tls.conn->0;
        ledger::handed_nothing(conn);
        ledger::buffering_only_adds(
            conn,
            Seq::empty(),
            before.tls,
            held(buffer),
            after.tls,
            held(left),
        );
    }

    proof fn encrypting_appends(
        before: Self,
        buffer: RustSendState<'d>,
        plain: Seq<u8>,
        after: Self,
        left: RustSendState<'d>,
        count: nat,
    ) {
        let conn = before.tls.conn->0;
        ledger::handed_nothing(conn);
        if Self::encrypted(before, buffer, plain, after, left, count) {
            ledger::buffered_data_keeps_its_order(
                conn,
                Seq::empty(),
                before.tls,
                held(buffer),
                plain,
                after.tls,
                held(left),
                count,
            );
        } else {
            ledger::buffered_parts_keep_their_order(
                conn,
                Seq::empty(),
                before.tls,
                held(buffer),
                plain,
                after.tls,
                held(left),
                count,
            );
        }
    }

    proof fn closing_appends(
        before: Self,
        buffer: RustSendState<'d>,
        after: Self,
        left: RustSendState<'d>,
        close: bool,
    ) {
        let conn = before.tls.conn->0;
        ledger::handed_nothing(conn);
        ledger::telling_only_adds(
            conn,
            Seq::empty(),
            before.tls,
            held(buffer),
            after.tls,
            held(left),
            close,
        );
    }
}

/// The buffers of an endpoint: one to send from for each connection, and as many to
/// receive into.
pub struct RustTlsBuffers {
    pub send: Pool,
    pub recv: Pool,
}

/// Why the buffers of so many connections cannot be allocated, where that is so.
pub open spec fn rust_pools_refusal(connections: usize) -> Option<LayoutError> {
    match buffer::pool_refusal(connections as nat, RUSTLS_STAGING_CAP as nat) {
        Some(error) => Some(error),
        None => buffer::pool_refusal(connections as nat, TLS_MAX_CIPHERTEXT as nat),
    }
}

impl RustTlsBuffers {
    /// That a buffer holds a whole record.
    pub open spec fn wf(self) -> bool {
        &&& buffer::pool_capacity(self.send) == RUSTLS_STAGING_CAP
        &&& buffer::pool_capacity(self.recv) == TLS_MAX_CIPHERTEXT
    }

    /// Allocates the buffers of so many connections.
    pub fn try_new(connections: usize) -> (result: Result<Self, LayoutError>)
        ensures
            match result {
                Ok(buffers) => buffers.wf() && buffer::pool_slots(buffers.send) == connections
                    && buffer::pool_slots(buffers.recv) == connections && rust_pools_refusal(
                    connections,
                ) is None,
                Err(error) => rust_pools_refusal(connections) == Some(error),
            },
    {
        let send = match Pool::try_new(connections, RUSTLS_STAGING_CAP) {
            Ok(pool) => pool,
            Err(error) => return Err(error),
        };
        let recv = match Pool::try_new(connections, TLS_MAX_CIPHERTEXT) {
            Ok(pool) => pool,
            Err(error) => return Err(error),
        };
        Ok(RustTlsBuffers { send, recv })
    }
}

/// What an endpoint works with: send buffers, receive buffers, and what it connects
/// to.
pub struct RustTlsRuntime<'d> {
    pub send: &'d Pool,
    pub recv: &'d Pool,
    pub endpoint: RustTlsEndpoint,
}

impl<'d> RustTlsRuntime<'d> {
    /// A connection with a send buffer of its own, or nothing while there is no
    /// buffer for one.
    pub fn prepare_open(&self) -> (result: Result<
        Option<(RustWire<'d, RustlsConnection>, RustSendState<'d>)>,
        RustlsError,
    >)
        ensures
            match result {
                Ok(Some((wire, send))) => events::contents(send.buffer) == Some(
                    (Contents {
                        bytes: Seq::empty(),
                        capacity: buffer::pool_capacity(*self.send),
                    }),
                ) && wire.tls.max_plaintext.bytes() == self.endpoint.limit() && wire.tls == (
                RustTls {
                    conn: wire.tls.conn,
                    readable_plain: 0,
                    close: self.endpoint is Nowhere,
                    close_notify_sent: false,
                    send_inflight: false,
                    max_plaintext: wire.tls.max_plaintext,
                }) && self.endpoint.connects(Ok(wire.tls.conn)),
                Ok(None) => buffer::pool_lacks(*self.send),
                Err(error) => self.endpoint.connects(Err(error)),
            },
    {
        let buffer = match self.send.try_acquire() {
            Some(cursor) => cursor,
            None => return Ok(None),
        };
        match self.endpoint.prepare_open() {
            Ok(tls) => Ok(
                Some(
                    (
                        RustWire { tls, buffers: PhantomData },
                        RustSendState { buffer: Some(buffer) },
                    ),
                ),
            ),
            Err(error) => Err(error),
        }
    }
}

/// That received bytes were taken in: without a buffer for what comes of them the
/// transport is to be closed.
pub open spec fn processed<S: Session>(
    before: RustTls<S>,
    input: Seq<u8>,
    pool: Pool,
    after: RustTls<S>,
    data: Seq<u8>,
) -> bool {
    ||| buffer::pool_lacks(pool) && after == (RustTls { close: true, ..before }) && data.len() == 0
    ||| exists|left: Contents| #[trigger]
        rust_tls::ingested(
            before,
            input,
            Contents { bytes: Seq::empty(), capacity: buffer::pool_capacity(pool) },
            after,
            left,
        ) && data == left.bytes
}

/// A connection whose transport is to be closed.
pub open spec fn ending<S: Session>(tls: RustTls<S>) -> RustTls<S> {
    RustTls { close: true, ..tls }
}

impl<'d, S: Session> RustWire<'d, S> {
    /// Takes received bytes in, and hands out the application data that came of
    /// them.
    pub fn process_recv(&mut self, pool: &'d Pool, bytes: &[u8]) -> (data: Option<
        Bytes<Pooled<'d>>,
    >)
        ensures
            match data {
                Some(data) => buffer::chunk_bytes(data).len() > 0 && processed(
                    old(self).tls,
                    bytes@,
                    *pool,
                    final(self).tls,
                    buffer::chunk_bytes(data),
                ),
                None => processed(
                    old(self).tls,
                    bytes@,
                    *pool,
                    final(self).tls,
                    Seq::empty(),
                ),
            },
    {
        match pool.try_acquire() {
            None => {
                self.tls.close = true;
                None
            },
            Some(cursor) => {
                let mut out = cursor;
                self.tls.ingress_decrypt(bytes, &mut out);
                assert(rust_tls::ingested(
                    old(self).tls,
                    bytes@,
                    Contents { bytes: Seq::empty(), capacity: buffer::pool_capacity(*pool) },
                    self.tls,
                    out@,
                ));
                if out.len() == 0 {
                    assert(out@.bytes =~= Seq::<u8>::empty());
                    None
                } else {
                    Some(out.freeze())
                }
            },
        }
    }

    /// Ends the connection in order: tells the peer, and has the transport closed
    /// behind that.
    pub fn graceful_close(&mut self, send: &mut RustSendState<'d>) -> (prepared: Prepared)
        requires
            old(send).buffer is Some,
        ensures
            exists|mid: Self, drawn: RustSendState<'d>, close: bool|
                #![trigger rust_tls::told(
                    ending(old(self).tls),
                    held(*old(send)),
                    mid.tls,
                    held(drawn),
                    close,
                )]
                rust_tls::told(
                    ending(old(self).tls),
                    held(*old(send)),
                    mid.tls,
                    held(drawn),
                    close,
                ) && transmissions::finished(
                    mid,
                    drawn,
                    0,
                    close,
                    *final(self),
                    *final(send),
                    prepared,
                ),
    {
        self.tls.close = true;
        let close = self.tls.propagate_close(&mut send.buffer);
        let ghost mid = *self;
        let ghost drawn = *send;
        assert(rust_tls::told(
            ending(old(self).tls),
            held(*old(send)),
            mid.tls,
            held(drawn),
            close,
        ));
        transmissions::finish(self, send, 0, close)
    }
}

} // verus!
