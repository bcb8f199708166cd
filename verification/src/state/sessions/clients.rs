//! Client engines out of a pool.

use crate::clock::Clock;
use crate::state::events::{Core, RecordEvents, RecordFailure};
use crate::state::sessions::{Call, ClientPeer, Peer};
use o3::collections::slab;
use shin::client::config::{IdentityTemplate, Prepared as PreparedConfig};
use shin::client::{workspace, PooledConnection};
use shin::connection::{DriveError, Epoch};
use shin::wire::handshake::KeyUpdateRequest;
use vstd::prelude::*;

verus! {

#[verifier::external_type_specification]
#[verifier::external_body]
pub struct ExPreparedConfig(PreparedConfig);

#[verifier::external_type_specification]
#[verifier::external_body]
pub struct ExIdentityTemplate(IdentityTemplate);

#[verifier::external_type_specification]
#[verifier::external_body]
pub struct ExCapacity(slab::Capacity);

/// The engine of one client connection.
#[verifier::external_body]
pub struct Pooled<'d>(PooledConnection<'d, Clock>);

/// A fixed set of client engines that share one configuration.
#[verifier::external_body]
pub struct Sessions(workspace::Pool<Clock>);

/// That `PooledConnection::start_into` of a client engine can go so.
pub uninterp spec fn client_session_starts(
    before: Pooled<'_>,
    core: Core,
    after: Pooled<'_>,
    left: Core,
    answer: Result<(), DriveError<RecordFailure>>,
) -> bool;

/// That `PooledConnection::read_into` of a client engine can go so.
pub uninterp spec fn client_session_reads(
    before: Pooled<'_>,
    epoch: Epoch,
    data: Seq<u8>,
    core: Core,
    after: Pooled<'_>,
    left: Core,
    answer: Result<(), DriveError<RecordFailure>>,
) -> bool;

/// That `Updates::send_into` of a client engine can go so.
pub uninterp spec fn client_session_updates(
    before: Pooled<'_>,
    request: KeyUpdateRequest,
    core: Core,
    after: Pooled<'_>,
    left: Core,
    answer: Result<(), DriveError<RecordFailure>>,
) -> bool;

/// That `Updates::send_pending_into` of a client engine can go so.
pub uninterp spec fn client_session_responds(
    before: Pooled<'_>,
    core: Core,
    after: Pooled<'_>,
    left: Core,
    answer: Result<(), DriveError<RecordFailure>>,
) -> bool;

/// That `Updates::note_application_data` of a client engine can go so.
pub uninterp spec fn client_session_notes(before: Pooled<'_>, after: Pooled<'_>) -> bool;

/// That `Prepared::into_pool` can come to this.
pub uninterp spec fn client_pool_made(
    prepared: PreparedConfig,
    identity: Option<IdentityTemplate>,
    capacity: slab::Capacity,
    sessions: Sessions,
) -> bool;

/// That `workspace::Pool::connect` of client engines can come to this one, or to none.
pub uninterp spec fn client_connects(
    sessions: Sessions,
    clock: Clock,
    session: Option<Pooled<'_>>,
) -> bool;

/// The application protocol that a client engine has agreed on.
pub uninterp spec fn client_alpn(session: Pooled<'_>) -> Option<Seq<u8>>;

impl Sessions {
    /// `Prepared::into_pool`: as many engines as `capacity` allows, all with this
    /// configuration.
    #[verifier::external_body]
    pub(crate) fn new(
        prepared: PreparedConfig,
        identity: Option<IdentityTemplate>,
        capacity: slab::Capacity,
    ) -> (sessions: Sessions)
        ensures
            client_pool_made(prepared, identity, capacity, sessions),
    {
        Sessions(prepared.into_pool(identity, capacity))
    }

    /// `workspace::Pool::connect`: a fresh engine, if one is free. Which are free
    /// is not tracked.
    #[verifier::external_body]
    pub(crate) fn connect(&self, clock: Clock) -> (session: Option<Pooled<'_>>)
        ensures
            client_connects(*self, clock, session),
    {
        match self.0.connect(clock) {
            Some(session) => Some(Pooled(session)),
            None => None,
        }
    }
}

impl Pooled<'_> {
    /// `Updates::send_pending_into`: sends the key update that the peer asked for,
    /// if it did. The engine hands each event to `events` and stops at the first
    /// that fails.
    #[verifier::external_body]
    fn respond(&mut self, events: &mut RecordEvents<'_>) -> (answer: Result<
        (),
        DriveError<RecordFailure>,
    >)
        ensures
            client_session_responds(
                *old(self),
                old(events)@,
                *final(self),
                final(events)@,
                answer,
            ),
            old(events)@.driven(final(events)@, answer),
    {
        self.0.key_updates().send_pending_into(events)
    }

    /// `Updates::send_into`: sends a key update. The engine hands each event to
    /// `events` and stops at the first that fails.
    #[verifier::external_body]
    fn update(&mut self, request: KeyUpdateRequest, events: &mut RecordEvents<'_>) -> (answer:
        Result<(), DriveError<RecordFailure>>)
        ensures
            client_session_updates(
                *old(self),
                request,
                old(events)@,
                *final(self),
                final(events)@,
                answer,
            ),
            old(events)@.driven(final(events)@, answer),
    {
        self.0.key_updates().send_into(request, events)
    }

    /// `PooledConnection::read_into`: takes handshake bytes in. The engine hands
    /// each event to `events` and stops at the first that fails.
    #[verifier::external_body]
    fn read(&mut self, epoch: Epoch, data: &[u8], events: &mut RecordEvents<'_>) -> (answer: Result<
        (),
        DriveError<RecordFailure>,
    >)
        ensures
            client_session_reads(
                *old(self),
                epoch,
                data@,
                old(events)@,
                *final(self),
                final(events)@,
                answer,
            ),
            old(events)@.driven(final(events)@, answer),
    {
        self.0.read_into(epoch, data, events)
    }

    /// `PooledConnection::start_into`: begins the handshake. The engine hands each
    /// event to `events` and stops at the first that fails.
    #[verifier::external_body]
    fn start(&mut self, events: &mut RecordEvents<'_>) -> (answer: Result<
        (),
        DriveError<RecordFailure>,
    >)
        ensures
            client_session_starts(
                *old(self),
                old(events)@,
                *final(self),
                final(events)@,
                answer,
            ),
            old(events)@.driven(final(events)@, answer),
    {
        self.0.start_into(events)
    }

    /// `Updates::note_application_data`: application data has arrived.
    #[verifier::external_body]
    fn note(&mut self)
        ensures
            client_session_notes(*old(self), *final(self)),
    {
        self.0.key_updates().note_application_data()
    }

    /// `PooledConnection::selected_alpn`: the application protocol, once one is
    /// agreed on.
    #[verifier::external_body]
    fn protocol(&self) -> (protocol: Option<&[u8]>)
        ensures
            match protocol {
                Some(protocol) => client_alpn(*self) == Some(protocol@),
                None => client_alpn(*self) is None,
            },
    {
        self.0.selected_alpn()
    }
}

impl Peer for Pooled<'_> {
    open spec fn answers(
        before: Self,
        call: Call,
        core: Core,
        after: Self,
        left: Core,
        answer: Result<(), DriveError<RecordFailure>>,
    ) -> bool {
        &&& core.driven(left, answer)
        &&& match call {
            Call::Start => client_session_starts(before, core, after, left, answer),
            Call::Read { epoch, data } => client_session_reads(
                before,
                epoch,
                data,
                core,
                after,
                left,
                answer,
            ),
            Call::KeyUpdate { request } => client_session_updates(
                before,
                request,
                core,
                after,
                left,
                answer,
            ),
            Call::PendingKeyUpdate => client_session_responds(before, core, after, left, answer),
        }
    }

    open spec fn noted(before: Self, after: Self) -> bool {
        client_session_notes(before, after)
    }

    open spec fn alpn(self) -> Option<Seq<u8>> {
        client_alpn(self)
    }

    fn send_pending_key_update_response_into(&mut self, events: &mut RecordEvents<'_>) -> Result<
        (),
        DriveError<RecordFailure>,
    > {
        self.respond(events)
    }

    fn send_key_update_into(
        &mut self,
        request: KeyUpdateRequest,
        events: &mut RecordEvents<'_>,
    ) -> Result<(), DriveError<RecordFailure>> {
        self.update(request, events)
    }

    fn read_into(
        &mut self,
        epoch: Epoch,
        data: &[u8],
        events: &mut RecordEvents<'_>,
    ) -> Result<(), DriveError<RecordFailure>> {
        self.read(epoch, data, events)
    }

    fn note_application_data(&mut self) {
        self.note()
    }

    fn selected_alpn(&self) -> Option<&[u8]> {
        self.protocol()
    }
}

impl ClientPeer for Pooled<'_> {
    fn start_into(&mut self, events: &mut RecordEvents<'_>) -> Result<
        (),
        DriveError<RecordFailure>,
    > {
        self.start(events)
    }
}

} // verus!
