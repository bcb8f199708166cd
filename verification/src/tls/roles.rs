//! The two sides of a connection.

use crate::buffer::{self, Contents, Pool};
use crate::clock::Clock;
use crate::error::Error;
use crate::state::buffers::Received;
use crate::state::events::{self, RecordFailure};
use crate::state::records::{self, Link};
use crate::state::sessions::{clients, servers, Call, Peer};
use crate::state::{self, State, StateView};
use crate::tls::endpoints::{self, Configuration, SetupError};
use crate::tls::plan::{self, ClientPlan};
use o3::collections::slab::Capacity;
use shin::client::config::{Config as ClientConfig, Identity};
use shin::connection::Error as HandshakeError;
use shin::crypto::ticket::Keys as TicketKeys;
use shin::server::config::Config as ServerConfig;
use vstd::prelude::*;

verus! {

/// A side of a connection: what it is configured with, and what its sessions are
/// kept in.
pub trait Protocol: Sized {
    type Config;

    type Storage;

    /// That a storage has no sessions yet, as far as the side can tell.
    open spec fn unbound(storage: Self::Storage) -> bool {
        true
    }

    /// That a storage has room for so many sessions, as far as the side can tell.
    open spec fn holds(storage: Self::Storage, capacity: nat) -> bool {
        true
    }

    /// Room for so many sessions, which have to fit in 32 bits.
    fn storage(capacity: usize) -> (result: Result<Self::Storage, SetupError>)
        ensures
            match result {
                Ok(storage) => capacity <= u32::MAX && Self::unbound(storage) && Self::holds(
                    storage,
                    capacity as nat,
                ),
                Err(error) => capacity > u32::MAX && (error matches SetupError::Sessions(refused)
                    && endpoints::slots_refused(refused) == capacity),
            },
    ;
}

/// The side that speaks first.
pub struct Client;

/// The side that answers.
pub struct Server;

/// Client sessions, once an endpoint has brought its plan.
pub struct ClientStorage {
    pub capacity: Capacity,
    pub initialized: Option<ClientSessions>,
}

/// The sessions of a client plan, and the clock that they go by.
pub struct ClientSessions {
    pub pool: clients::Sessions,
    pub clock: Clock,
}

/// Server sessions, once an endpoint has brought its shard.
pub struct ServerStorage {
    pub capacity: Capacity,
    pub initialized: Option<servers::Sessions>,
}

impl Protocol for Client {
    type Config = ClientPlan;

    type Storage = ClientStorage;

    open spec fn unbound(storage: ClientStorage) -> bool {
        storage.initialized is None
    }

    open spec fn holds(storage: ClientStorage, capacity: nat) -> bool {
        endpoints::slab_slots(storage.capacity) == capacity
    }

    fn storage(capacity: usize) -> Result<ClientStorage, SetupError> {
        match endpoints::slab_capacity(capacity) {
            Ok(capacity) => Ok(ClientStorage { capacity, initialized: None }),
            Err(error) => Err(SetupError::Sessions(error)),
        }
    }
}

impl Protocol for Server {
    type Config = servers::PreparedShard;

    type Storage = ServerStorage;

    open spec fn unbound(storage: ServerStorage) -> bool {
        storage.initialized is None
    }

    open spec fn holds(storage: ServerStorage, capacity: nat) -> bool {
        endpoints::slab_slots(storage.capacity) == capacity
    }

    fn storage(capacity: usize) -> Result<ServerStorage, SetupError> {
        match endpoints::slab_capacity(capacity) {
            Ok(capacity) => Ok(ServerStorage { capacity, initialized: None }),
            Err(error) => Err(SetupError::Sessions(error)),
        }
    }
}

impl ClientStorage {
    /// Makes the sessions of a plan. A storage takes one plan only.
    pub fn bind(&mut self, plan: ClientPlan) -> (result: Result<(), SetupError>)
        ensures
            final(self).capacity == old(self).capacity,
            match old(self).initialized {
                Some(_) => *final(self) == *old(self) && result == Err::<(), SetupError>(
                    SetupError::AlreadyBound,
                ),
                None => (final(self).initialized matches Some(sessions) && sessions.clock
                    == plan.clock && clients::client_pool_made(
                    plan.prepared,
                    plan.identity,
                    old(self).capacity,
                    sessions.pool,
                )) && result is Ok,
            },
    {
        if self.initialized.is_some() {
            return Err(SetupError::AlreadyBound);
        }
        let pool = clients::Sessions::new(plan.prepared, plan.identity, self.capacity);
        self.initialized = Some(ClientSessions { pool, clock: plan.clock });
        Ok(())
    }
}

impl ServerStorage {
    /// Makes the sessions of a shard, unless they are there. A storage takes one
    /// shard only.
    pub fn bind(&mut self, shard: &servers::Shard) -> (result: Result<(), SetupError>)
        ensures
            final(self).capacity == old(self).capacity,
            final(self).initialized is Some,
            match old(self).initialized {
                Some(_) => *final(self) == *old(self) && (result is Ok || result == Err::<
                    (),
                    SetupError,
                >(SetupError::OtherShard)),
                None => result is Ok && servers::server_pool_made(
                    *shard,
                    old(self).capacity,
                    final(self).initialized->0,
                ),
            },
    {
        match &self.initialized {
            Some(sessions) => return Self::rebound(sessions.matches(shard)),
            None => {},
        }
        self.initialized = Some(servers::Sessions::new(shard, self.capacity));
        Ok(())
    }

    /// What binding again comes to, given whether it is the same shard.
    pub fn rebound(same: bool) -> (result: Result<(), SetupError>)
        ensures
            result == if same {
                Ok::<(), SetupError>(())
            } else {
                Err::<(), SetupError>(SetupError::OtherShard)
            },
    {
        if same {
            Ok(())
        } else {
            Err(SetupError::OtherShard)
        }
    }
}

/// A side that can open connections.
pub trait OpenRole<'d>: Sized {
    type Session: Peer;

    /// That opening a connection can come to this: to anything, unless the side says
    /// more.
    open spec fn opens(
        self,
        recv: Pool,
        send: Pool,
        result: Result<Option<State<'d, Self::Session>>, Error>,
    ) -> bool {
        true
    }

    /// Opens a connection, or gives nothing while there is no room for one.
    fn open(&self, recv: &'d Pool, send: &'d Pool) -> (result: Result<
        Option<State<'d, Self::Session>>,
        Error,
    >)
        ensures
            self.opens(*recv, *send, result),
    ;
}

/// A client that opens connections.
pub struct ClientRuntime<'d> {
    pub sessions: &'d ClientSessions,
}

/// A server that takes connections.
pub struct ServerRuntime<'d> {
    pub shard: servers::Shard,
    pub sessions: &'d servers::Sessions,
}

/// An empty buffer of a pool.
pub open spec fn empty_slot(pool: Pool) -> Option<Contents> {
    Some(Contents { bytes: Seq::empty(), capacity: buffer::pool_capacity(pool) })
}

/// A connection that has received nothing.
pub open spec fn nothing_received(pool: Pool) -> Received {
    Received {
        recv: None,
        slot: buffer::pool_capacity(pool),
        lacks: buffer::pool_lacks(pool),
    }
}

/// That a client connection began with this session, its first message in an
/// empty buffer.
pub open spec fn client_began<S: Peer>(
    session: S,
    recv: Pool,
    send: Pool,
    mid: Link<S>,
    sent: Result<(), RecordFailure>,
) -> bool {
    records::drove(state::fresh_link(session, empty_slot(send), send), Call::Start, mid, sent)
}

/// What a connection that began came to: one for which there was no room is not
/// opened, and any other failure is an error.
pub open spec fn begun<S: Peer>(
    recv: Pool,
    mid: Link<S>,
    sent: Result<(), RecordFailure>,
    result: Result<Option<State<'_, S>>, Error>,
) -> bool {
    match sent {
        Ok(()) => result matches Ok(Some(state)) && state@ == (StateView {
            link: records::unowed(mid),
            received: nothing_received(recv),
        }),
        Err(failure) => if failure.as_error() == Error::BufferUnavailable {
            result matches Ok(None)
        } else {
            result == Err::<Option<State<'_, S>>, Error>(failure.as_error())
        },
    }
}

/// A failed opening as the result of trying.
pub fn tried<'d, S: Peer>(opened: Result<State<'d, S>, Error>) -> (result: Result<
    Option<State<'d, S>>,
    Error,
>)
    ensures
        match opened {
            Ok(state) => result == Ok::<Option<State<'d, S>>, Error>(Some(state)),
            Err(Error::BufferUnavailable) => result == Ok::<Option<State<'d, S>>, Error>(None),
            Err(error) => result == Err::<Option<State<'d, S>>, Error>(error),
        },
{
    match opened {
        Ok(state) => Ok(Some(state)),
        Err(Error::BufferUnavailable) => Ok(None),
        Err(error) => Err(error),
    }
}

impl<'d> OpenRole<'d> for ClientRuntime<'d> {
    type Session = clients::Pooled<'d>;

    open spec fn opens(
        self,
        recv: Pool,
        send: Pool,
        result: Result<Option<State<'d, clients::Pooled<'d>>>, Error>,
    ) -> bool {
        ||| result matches Ok(None) && (buffer::pool_lacks(send) || clients::client_connects(
            self.sessions.pool,
            self.sessions.clock,
            None,
        ))
        ||| exists|
            session: clients::Pooled<'d>,
            mid: Link<clients::Pooled<'d>>,
            sent: Result<(), RecordFailure>,
        | #[trigger]
            client_began(session, recv, send, mid, sent) && begun(recv, mid, sent, result)
                && clients::client_connects(
                self.sessions.pool,
                self.sessions.clock,
                Some(session),
            )
    }

    fn open(&self, recv: &'d Pool, send: &'d Pool) -> Result<
        Option<State<'d, clients::Pooled<'d>>>,
        Error,
    > {
        let pending = match send.try_acquire() {
            Some(pending) => Some(pending),
            None => return Ok(None),
        };
        let session = match self.sessions.pool.connect(self.sessions.clock) {
            Some(session) => session,
            None => return Ok(None),
        };
        let ghost start = session;
        assert(events::contents(pending) == empty_slot(*send));
        let opened = State::from_client(session, pending, recv, send);
        let ghost (mid, sent) = choose|
            mid: Link<clients::Pooled<'d>>,
            sent: Result<(), RecordFailure>,
        | #[trigger]
            records::drove(
                state::fresh_link(start, empty_slot(*send), *send),
                Call::Start,
                mid,
                sent,
            ) && match opened {
                Ok(state) => sent is Ok && state@.link == records::unowed(mid) && state@.received
                    == nothing_received(*recv),
                Err(error) => sent matches Err(failure) && error == failure.as_error(),
            };
        let result = tried(opened);
        assert(client_began(start, *recv, *send, mid, sent));
        assert(begun(*recv, mid, sent, result));
        result
    }
}

impl<'d> OpenRole<'d> for ServerRuntime<'d> {
    type Session = servers::Pooled<'d>;

    open spec fn opens(
        self,
        recv: Pool,
        send: Pool,
        result: Result<Option<State<'d, servers::Pooled<'d>>>, Error>,
    ) -> bool {
        match result {
            Ok(None) => servers::server_connects(*self.sessions, Clock::System, None),
            Ok(Some(state)) => exists|session: servers::Pooled<'d>|
                state@ == (StateView {
                    link: #[trigger] state::fresh_link(session, None, send),
                    received: nothing_received(recv),
                }) && servers::server_connects(*self.sessions, Clock::System, Some(session)),
            Err(_) => false,
        }
    }

    fn open(&self, recv: &'d Pool, send: &'d Pool) -> Result<
        Option<State<'d, servers::Pooled<'d>>>,
        Error,
    > {
        tried(State::from_server_pool(Clock::System, recv, send, self.sessions))
    }
}

impl ServerRuntime<'_> {
    /// The keys of session tickets from here on.
    pub fn replace_ticket_keys(&self, keys: Option<TicketKeys>) {
        self.shard.set_ticket_keys(keys)
    }
}

impl<'d> State<'d, servers::Pooled<'d>> {
    /// A server connection that has received nothing yet.
    pub fn from_server_pool(
        clock: Clock,
        recv: &'d Pool,
        send: &'d Pool,
        sessions: &'d servers::Sessions,
    ) -> (result: Result<Self, Error>)
        ensures
            match result {
                Ok(state) => exists|session: servers::Pooled<'d>|
                    state@ == (StateView {
                        link: #[trigger] state::fresh_link(session, None, *send),
                        received: nothing_received(*recv),
                    }) && servers::server_connects(*sessions, clock, Some(session)),
                Err(error) => error == Error::BufferUnavailable && servers::server_connects(
                    *sessions,
                    clock,
                    None,
                ),
            },
    {
        match sessions.connect(clock) {
            Some(session) => {
                let ghost start = session;
                let state = State::empty(session, None, recv, send);
                assert(state@.link == state::fresh_link(start, None, *send));
                Ok(state)
            },
            None => Err(Error::BufferUnavailable),
        }
    }
}

/// That a configuration is what its plan came to, with buffers by default.
pub open spec fn configured(
    made: Result<ClientPlan, Error>,
    result: Result<Configuration<Client>, Error>,
) -> bool {
    match made {
        Ok(plan) => result matches Ok(configuration) && configuration.spec_role() == plan
            && configuration.spec_staged_records() is None && configuration.spec_ciphertext_slots()
            is None,
        Err(error) => result == Err::<Configuration<Client>, Error>(error),
    }
}

/// That a configuration is what its shard came to, with buffers by default.
pub open spec fn shard_configured(
    shard: Result<servers::PreparedShard, HandshakeError>,
    result: Result<Configuration<Server>, Error>,
) -> bool {
    match shard {
        Ok(shard) => result matches Ok(configuration) && configuration.spec_role() == shard
            && configuration.spec_staged_records() is None && configuration.spec_ciphertext_slots()
            is None,
        Err(error) => result == Err::<Configuration<Server>, Error>(Error::Handshake(error)),
    }
}

impl Configuration<Client> {
    /// The configuration of a client.
    pub fn client(config: ClientConfig) -> (result: Result<Self, Error>)
        ensures
            exists|made: Result<ClientPlan, Error>| #[trigger]
                plan::plain_plan(config, made) && configured(made, result),
    {
        let made = ClientPlan::new(config);
        let ghost came = made;
        assert(plan::plain_plan(config, came));
        match made {
            Ok(plan) => Ok(Configuration::from_role(plan)),
            Err(error) => Err(error),
        }
    }

    /// The configuration of a client that shows an identity of its own.
    pub fn client_mutual(config: ClientConfig, identity: Identity) -> (result: Result<Self, Error>)
        ensures
            exists|made: Result<ClientPlan, Error>| #[trigger]
                plan::mutual_plan(config, identity, made) && configured(made, result),
    {
        let made = ClientPlan::mutual(config, identity);
        let ghost came = made;
        assert(plan::mutual_plan(config, identity, came));
        match made {
            Ok(plan) => Ok(Configuration::from_role(plan)),
            Err(error) => Err(error),
        }
    }
}

impl Configuration<Server> {
    /// The configuration of a server that asks no client for an identity.
    pub fn server(config: ServerConfig) -> (result: Result<Self, Error>)
        ensures
            exists|shard: Result<servers::PreparedShard, HandshakeError>| #[trigger]
                servers::shard_checked(config, shard) && shard_configured(shard, result),
    {
        Self::sharded(servers::PreparedShard::try_new(config))
    }

    /// The configuration that a checked shard makes.
    pub fn sharded(shard: Result<servers::PreparedShard, HandshakeError>) -> (result: Result<
        Self,
        Error,
    >)
        ensures
            shard_configured(shard, result),
    {
        match shard {
            Ok(shard) => Ok(Configuration::from_role(shard)),
            Err(error) => Err(Error::Handshake(error)),
        }
    }
}

} // verus!
