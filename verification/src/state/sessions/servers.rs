//! Server engines out of a pool.

use crate::clock::Clock;
use crate::state::events::{Core, RecordEvents, RecordFailure};
use crate::state::sessions::{Call, Peer};
use o3::collections::slab;
use shin::connection::{DriveError, Epoch, Error as HandshakeError};
use shin::crypto::ticket::Keys as TicketKeys;
use shin::server::config::{Config as ServerConfig, NoClientAuth, NoGuard};
use shin::server::{workspace, PooledConnection};
use shin::wire::handshake::KeyUpdateRequest;
use vstd::prelude::*;

verus! {

#[verifier::external_type_specification]
#[verifier::external_body]
pub struct ExServerConfig(ServerConfig);

#[verifier::external_type_specification]
#[verifier::external_body]
pub struct ExTicketKeys(TicketKeys);

/// The engine of one server connection.
#[verifier::external_body]
pub struct Pooled<'d>(PooledConnection<'d, Clock, 0, NoClientAuth, NoGuard>);

/// A fixed set of server engines that share one authority.
#[verifier::external_body]
pub struct Sessions(workspace::Pool<Clock, NoClientAuth, 0, NoGuard>);

/// A validated server authority.
#[verifier::external_body]
pub struct PreparedShard(shin::server::PreparedShard<NoGuard, NoClientAuth>);

/// A server authority that engines can be made of.
#[verifier::external_body]
pub struct Shard(pub(crate) shin::server::Shard<NoGuard, NoClientAuth, 0>);

/// That `PooledConnection::read_into` of a server engine can go so.
pub uninterp spec fn server_session_reads(
    before: Pooled<'_>,
    epoch: Epoch,
    data: Seq<u8>,
    core: Core,
    after: Pooled<'_>,
    left: Core,
    answer: Result<(), DriveError<RecordFailure>>,
) -> bool;

/// That `Updates::send_into` of a server engine can go so.
pub uninterp spec fn server_session_updates(
    before: Pooled<'_>,
    request: KeyUpdateRequest,
    core: Core,
    after: Pooled<'_>,
    left: Core,
    answer: Result<(), DriveError<RecordFailure>>,
) -> bool;

/// That `Updates::send_pending_into` of a server engine can go so.
pub uninterp spec fn server_session_responds(
    before: Pooled<'_>,
    core: Core,
    after: Pooled<'_>,
    left: Core,
    answer: Result<(), DriveError<RecordFailure>>,
) -> bool;

/// That `Updates::note_application_data` of a server engine can go so.
pub uninterp spec fn server_session_notes(before: Pooled<'_>, after: Pooled<'_>) -> bool;

/// That `shin::server::PreparedShard::new` can come to this.
pub uninterp spec fn shard_checked(
    config: ServerConfig,
    result: Result<PreparedShard, HandshakeError>,
) -> bool;

/// That `shin::server::PreparedShard::bind_domain` can come to this.
pub uninterp spec fn shard_bound(prepared: PreparedShard, shard: Shard) -> bool;

/// That `Shard::tls_profile` and `Profile::into_pool` can come to this.
pub uninterp spec fn server_pool_made(
    shard: Shard,
    capacity: slab::Capacity,
    sessions: Sessions,
) -> bool;

/// That `workspace::Pool::connect` of server engines can come to this one, or to none.
pub uninterp spec fn server_connects(
    sessions: Sessions,
    clock: Clock,
    session: Option<Pooled<'_>>,
) -> bool;

/// The application protocol that a server engine has agreed on.
pub uninterp spec fn server_alpn(session: Pooled<'_>) -> Option<Seq<u8>>;

impl PreparedShard {
    /// `shin::server::PreparedShard::new`: checks a configuration. Which
    /// configurations pass is the engine's own matter.
    #[verifier::external_body]
    pub(crate) fn try_new(config: ServerConfig) -> (result: Result<PreparedShard, HandshakeError>)
        ensures
            shard_checked(config, result),
    {
        match shin::server::PreparedShard::new(config) {
            Ok(shard) => Ok(PreparedShard(shard)),
            Err(error) => Err(error),
        }
    }

    /// `shin::server::PreparedShard::bind_domain`: the same authority, ready for
    /// use.
    #[verifier::external_body]
    pub(crate) fn bind(self) -> (shard: Shard)
        ensures
            shard_bound(self, shard),
    {
        Shard(self.0.bind_domain::<0>())
    }
}

impl Shard {
    /// `shin::server::Shard::replace_ticket_keys`: the keys of session tickets from
    /// here on.
    #[verifier::external_body]
    pub(crate) fn set_ticket_keys(&self, keys: Option<TicketKeys>) {
        self.0.replace_ticket_keys(keys)
    }
}

impl Sessions {
    /// `Shard::tls_profile` and `Profile::into_pool`: as many engines as `capacity`
    /// allows, all with the authority of `shard`.
    #[verifier::external_body]
    pub(crate) fn new(shard: &Shard, capacity: slab::Capacity) -> (sessions: Sessions)
        ensures
            server_pool_made(*shard, capacity, sessions),
    {
        Sessions(shard.0.tls_profile().into_pool::<Clock>(capacity))
    }

    /// `workspace::Pool::matches_shard`: whether the engines have the authority of
    /// `shard` itself. Authorities are told apart by where they stand in memory, so
    /// nothing is stated of the answer.
    #[verifier::external_body]
    pub(crate) fn matches(&self, shard: &Shard) -> bool {
        self.0.matches_shard(&shard.0)
    }

    /// `workspace::Pool::connect`: a fresh engine, if one is free. Which are free
    /// is not tracked.
    #[verifier::external_body]
    pub(crate) fn connect(&self, clock: Clock) -> (session: Option<Pooled<'_>>)
        ensures
            server_connects(*self, clock, session),
    {
        match self.0.connect(clock) {
            Some(session) => Some(Pooled(session)),
            None => None,
        }
    }
}

impl Pooled<'_> {
    /// `Updates::send_pending_into`: sends the key update that the peer asked for,
    /// if it did. The engine hands each event to `events` and stops at the first
    /// that fails.
    #[verifier::external_body]
    fn respond(&mut self, events: &mut RecordEvents<'_>) -> (answer: Result<
        (),
        DriveError<RecordFailure>,
    >)
        ensures
            server_session_responds(
                *old(self),
                old(events)@,
                *final(self),
                final(events)@,
                answer,
            ),
            old(events)@.driven(final(events)@, answer),
    {
        self.0.key_updates().send_pending_into(events)
    }

    /// `Updates::send_into`: sends a key update. The engine hands each event to
    /// `events` and stops at the first that fails.
    #[verifier::external_body]
    fn update(&mut self, request: KeyUpdateRequest, events: &mut RecordEvents<'_>) -> (answer:
        Result<(), DriveError<RecordFailure>>)
        ensures
            server_session_updates(
                *old(self),
                request,
                old(events)@,
                *final(self),
                final(events)@,
                answer,
            ),
            old(events)@.driven(final(events)@, answer),
    {
        self.0.key_updates().send_into(request, events)
    }

    /// `PooledConnection::read_into`: takes handshake bytes in. The engine hands
    /// each event to `events` and stops at the first that fails.
    #[verifier::external_body]
    fn read(&mut self, epoch: Epoch, data: &[u8], events: &mut RecordEvents<'_>) -> (answer: Result<
        (),
        DriveError<RecordFailure>,
    >)
        ensures
            server_session_reads(
                *old(self),
                epoch,
                data@,
                old(events)@,
                *final(self),
                final(events)@,
                answer,
            ),
            old(events)@.driven(final(events)@, answer),
    {
        self.0.read_into(epoch, data, events)
    }

    /// `Updates::note_application_data`: application data has arrived.
    #[verifier::external_body]
    fn note(&mut self)
        ensures
            server_session_notes(*old(self), *final(self)),
    {
        self.0.key_updates().note_application_data()
    }

    /// `PooledConnection::selected_alpn`: the application protocol, once one is
    /// agreed on.
    #[verifier::external_body]
    fn protocol(&self) -> (protocol: Option<&[u8]>)
        ensures
            match protocol {
                Some(protocol) => server_alpn(*self) == Some(protocol@),
                None => server_alpn(*self) is None,
            },
    {
        self.0.selected_alpn()
    }
}

impl Peer for Pooled<'_> {
    open spec fn answers(
        before: Self,
        call: Call,
        core: Core,
        after: Self,
        left: Core,
        answer: Result<(), DriveError<RecordFailure>>,
    ) -> bool {
        &&& core.driven(left, answer)
        &&& match call {
            Call::Start => false,
            Call::Read { epoch, data } => server_session_reads(
                before,
                epoch,
                data,
                core,
                after,
                left,
                answer,
            ),
            Call::KeyUpdate { request } => server_session_updates(
                before,
                request,
                core,
                after,
                left,
                answer,
            ),
            Call::PendingKeyUpdate => server_session_responds(before, core, after, left, answer),
        }
    }

    open spec fn noted(before: Self, after: Self) -> bool {
        server_session_notes(before, after)
    }

    open spec fn alpn(self) -> Option<Seq<u8>> {
        server_alpn(self)
    }

    fn send_pending_key_update_response_into(&mut self, events: &mut RecordEvents<'_>) -> Result<
        (),
        DriveError<RecordFailure>,
    > {
        self.respond(events)
    }

    fn send_key_update_into(
        &mut self,
        request: KeyUpdateRequest,
        events: &mut RecordEvents<'_>,
    ) -> Result<(), DriveError<RecordFailure>> {
        self.update(request, events)
    }

    fn read_into(
        &mut self,
        epoch: Epoch,
        data: &[u8],
        events: &mut RecordEvents<'_>,
    ) -> Result<(), DriveError<RecordFailure>> {
        self.read(epoch, data, events)
    }

    fn note_application_data(&mut self) {
        self.note()
    }

    fn selected_alpn(&self) -> Option<&[u8]> {
        self.protocol()
    }
}

} // verus!
