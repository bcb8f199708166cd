//! Endpoints at work.

use crate::buffer::{self, Contents};
use crate::error::Error;
use crate::state::events;
use crate::state::sessions::{clients, servers, Peer};
use crate::state::{State, StateView};
use crate::tls::endpoints::{
    self, BufferLayout, BufferPools, BufferUsage, Configuration, SessionStorage, SetupError,
};
use crate::tls::receive::waiters::{Lines, Queue};
use crate::tls::roles::{Client, ClientRuntime, OpenRole, Server, ServerRuntime};
use crate::tls::{Connection, SendState, Wired};
use crate::transmissions::SendBuffer;
use vstd::prelude::*;

verus! {

/// An endpoint: its side, its buffers, and the connections that wait for some.
pub struct Runtime<'d, R: OpenRole<'d>> {
    /// A connection that was opened and could not be put to use.
    pub retry: Option<(Connection<'d, R::Session>, SendState<'d>)>,
    pub buffers: &'d BufferPools,
    pub waiters: Queue,
    pub role: R,
}

/// A buffer without what is empty.
pub open spec fn kept(pending: Option<Contents>) -> Option<Contents> {
    if events::bytes_of(pending).len() == 0 {
        None
    } else {
        pending
    }
}

/// That a connection is on the wire as it was opened, with its first bytes ready
/// to be sent.
pub open spec fn put_on_wire<S: Peer>(
    opened: StateView<S>,
    connection: Wired<S>,
    send: Option<Contents>,
) -> bool {
    &&& connection == (Wired {
        state: opened.with_link(opened.link.lend(None)),
        close: false,
        close_notify_sent: false,
        inflight: false,
    })
    &&& send == kept(opened.link.core.pending)
}

/// Puts an opened connection on the wire.
pub fn on_wire<'d, S: Peer>(tls: State<'d, S>) -> (pair: (Connection<'d, S>, SendState<'d>))
    ensures
        put_on_wire(tls@, pair.0@, events::contents(pair.1.buffer)),
{
    let mut tls = tls;
    let mut send = SendState::new();
    tls.swap_pending_buffer(&mut send.buffer);
    let _ = send.release_if_empty();
    (Connection::new(tls), send)
}

impl<'d, R: OpenRole<'d>> Runtime<'d, R> {
    /// That an opened connection, if there is one, was put on the wire.
    pub open spec fn takes(
        self,
        opened: Result<Option<State<'d, R::Session>>, Error>,
        result: Result<Option<(Connection<'d, R::Session>, SendState<'d>)>, Error>,
    ) -> bool {
        &&& self.role.opens(self.buffers.recv, self.buffers.send, opened)
        &&& match opened {
            Ok(Some(state)) => result matches Ok(Some(pair)) && put_on_wire(
                state@,
                pair.0@,
                events::contents(pair.1.buffer),
            ),
            Ok(None) => result matches Ok(None),
            Err(error) => result matches Err(other) && other == error,
        }
    }

    /// Opens a connection, or gives nothing while there is no room for one.
    pub fn try_take(&self) -> (result: Result<
        Option<(Connection<'d, R::Session>, SendState<'d>)>,
        Error,
    >)
        ensures
            exists|opened: Result<Option<State<'d, R::Session>>, Error>| #[trigger]
                self.takes(opened, result),
    {
        let opened = self.role.open(&self.buffers.recv, &self.buffers.send);
        let ghost came = opened;
        let result = match opened {
            Ok(Some(state)) => Ok(Some(on_wire(state))),
            Ok(None) => Ok(None),
            Err(error) => Err(error),
        };
        assert(self.takes(came, result));
        result
    }

    /// A connection to put to use: the one that could not be used before, or else a
    /// new one.
    pub fn prepare_open(&mut self) -> (result: Result<
        Option<(Connection<'d, R::Session>, SendState<'d>)>,
        Error,
    >)
        ensures
            final(self).retry is None,
            final(self).buffers == old(self).buffers,
            final(self).waiters == old(self).waiters,
            final(self).role == old(self).role,
            match old(self).retry {
                Some(pair) => result == Ok::<
                    Option<(Connection<'d, R::Session>, SendState<'d>)>,
                    Error,
                >(Some(pair)),
                None => exists|opened: Result<Option<State<'d, R::Session>>, Error>| #[trigger]
                    old(self).takes(opened, result),
            },
    {
        match self.retry.take() {
            Some(pair) => Ok(Some(pair)),
            None => self.try_take(),
        }
    }

    /// Keeps a connection that could not be put to use.
    pub fn rollback_open(&mut self, open: (Connection<'d, R::Session>, SendState<'d>))
        ensures
            *final(self) == (Runtime { retry: Some(open), ..*old(self) }),
    {
        self.retry = Some(open);
    }

    /// Opens a connection that is not on a wire.
    pub fn open_state(&self) -> (result: Result<Option<State<'d, R::Session>>, Error>)
        ensures
            exists|opened: Result<Option<State<'d, R::Session>>, Error>| #[trigger]
                self.role.opens(self.buffers.recv, self.buffers.send, opened) && match opened {
                    Ok(Some(state)) => result matches Ok(Some(back)) && back@ == state@.with_link(
                        state@.link.lend(kept(state@.link.core.pending)),
                    ),
                    Ok(None) => result matches Ok(None),
                    Err(error) => result matches Err(other) && other == error,
                },
    {
        match self.try_take() {
            Ok(Some((connection, send))) => Ok(Some(connection.into_state(send))),
            Ok(None) => Ok(None),
            Err(error) => Err(error),
        }
    }

    /// How many buffers are free at the moment.
    pub fn buffer_usage(&self) -> (usage: BufferUsage)
        ensures
            buffer::pool_frees(self.buffers.recv, usage.spec_recv() as nat),
            buffer::pool_frees(self.buffers.send, usage.spec_send() as nat),
            usage.spec_recv() <= buffer::pool_slots(self.buffers.recv),
            usage.spec_send() <= buffer::pool_slots(self.buffers.send),
    {
        self.buffers.usage()
    }
}

/// No connection waits for a buffer.
pub open spec fn nobody_waits(max_connections: usize) -> Lines {
    Lines { recv: Seq::empty(), handshake_egress: Seq::empty(), capacity: max_connections as nat }
}

/// Why an endpoint cannot have its buffers, where that is so: it has no layout, or not one
/// that can be bound.
pub open spec fn refused(
    layout: Result<BufferLayout, SetupError>,
    buffers: Option<BufferPools>,
) -> Option<SetupError> {
    match layout {
        Err(error) => Some(error),
        Ok(layout) => endpoints::binding_refusal(buffers, layout),
    }
}

impl<'d> Runtime<'d, ClientRuntime<'d>> {
    /// A client at work. Its plan makes the sessions of the storage.
    pub fn client(
        configuration: Configuration<Client>,
        storage: &'d mut SessionStorage<Client>,
        max_connections: usize,
    ) -> (result: Result<Self, SetupError>)
        requires
            old(storage).wf(),
            max_connections <= u32::MAX,
        ensures
            exists|layout: Result<BufferLayout, SetupError>| #[trigger]
                endpoints::laid_out(
                    configuration.spec_staged_records(),
                    configuration.spec_ciphertext_slots(),
                    max_connections,
                    layout,
                ) && match refused(layout, old(storage).buffers) {
                    Some(refusal) => *final(storage) == *old(storage)
                        && (result matches Err(error) && error == refusal),
                    None => {
                        &&& final(storage).wf()
                        &&& endpoints::bound_layout(final(storage).buffers) == Some(layout->Ok_0)
                        &&& old(storage).buffers is Some ==> final(storage).buffers
                            == old(storage).buffers
                        &&& final(storage).role.capacity == old(storage).role.capacity
                        &&& match old(storage).role.initialized {
                            Some(_) => final(storage).role == old(storage).role && (result matches Err(
                                error,
                            ) && error == SetupError::AlreadyBound),
                            None => {
                                &&& result matches Ok(runtime)
                                &&& runtime.retry is None
                                &&& runtime.waiters.wf()
                                &&& runtime.waiters@ == nobody_waits(max_connections)
                                &&& final(storage).buffers == Some(*runtime.buffers)
                                &&& final(storage).role.initialized == Some(
                                    *runtime.role.sessions,
                                )
                                &&& runtime.role.sessions.clock == configuration.spec_role().clock
                                &&& clients::client_pool_made(
                                    configuration.spec_role().prepared,
                                    configuration.spec_role().identity,
                                    old(storage).role.capacity,
                                    runtime.role.sessions.pool,
                                )
                            },
                        }
                    },
                },
    {
        let layout = match configuration.buffer_layout(max_connections) {
            Ok(layout) => layout,
            Err(error) => return Err(error),
        };
        match storage.bind_buffers(layout) {
            Ok(()) => {},
            Err(error) => return Err(error),
        }
        match storage.role.bind(configuration.into_role()) {
            Ok(()) => {},
            Err(error) => return Err(error),
        }
        let storage: &'d SessionStorage<Client> = storage;
        match (&storage.buffers, &storage.role.initialized) {
            (Some(buffers), Some(sessions)) => Ok(
                Runtime {
                    retry: None,
                    buffers,
                    waiters: Queue::with_capacity(max_connections),
                    role: ClientRuntime { sessions },
                },
            ),
            _ => Err(SetupError::AlreadyBound),
        }
    }
}

impl<'d> Runtime<'d, ServerRuntime<'d>> {
    /// A server at work. Its shard makes the sessions of the storage, unless they
    /// are there.
    pub fn server(
        configuration: Configuration<Server>,
        storage: &'d mut SessionStorage<Server>,
        max_connections: usize,
    ) -> (result: Result<Self, SetupError>)
        requires
            old(storage).wf(),
            max_connections <= u32::MAX,
        ensures
            exists|layout: Result<BufferLayout, SetupError>| #[trigger]
                endpoints::laid_out(
                    configuration.spec_staged_records(),
                    configuration.spec_ciphertext_slots(),
                    max_connections,
                    layout,
                ) && match refused(layout, old(storage).buffers) {
                    Some(refusal) => *final(storage) == *old(storage)
                        && (result matches Err(error) && error == refusal),
                    None => {
                        &&& final(storage).wf()
                        &&& endpoints::bound_layout(final(storage).buffers) == Some(layout->Ok_0)
                        &&& old(storage).buffers is Some ==> final(storage).buffers
                            == old(storage).buffers
                        &&& final(storage).role.capacity == old(storage).role.capacity
                        &&& old(storage).role.initialized is Some ==> final(storage).role
                            == old(storage).role
                        &&& match result {
                            Ok(runtime) => {
                                &&& runtime.retry is None
                                &&& runtime.waiters.wf()
                                &&& runtime.waiters@ == nobody_waits(max_connections)
                                &&& final(storage).buffers == Some(*runtime.buffers)
                                &&& final(storage).role.initialized == Some(
                                    *runtime.role.sessions,
                                )
                                &&& servers::shard_bound(
                                    configuration.spec_role(),
                                    runtime.role.shard,
                                )
                                &&& old(storage).role.initialized is None
                                    ==> servers::server_pool_made(
                                    runtime.role.shard,
                                    old(storage).role.capacity,
                                    *runtime.role.sessions,
                                )
                            },
                            Err(error) => old(storage).role.initialized is Some && error
                                == SetupError::OtherShard,
                        }
                    },
                },
    {
        let layout = match configuration.buffer_layout(max_connections) {
            Ok(layout) => layout,
            Err(error) => return Err(error),
        };
        match storage.bind_buffers(layout) {
            Ok(()) => {},
            Err(error) => return Err(error),
        }
        let shard = configuration.into_role().bind();
        match storage.role.bind(&shard) {
            Ok(()) => {},
            Err(error) => return Err(error),
        }
        let storage: &'d SessionStorage<Server> = storage;
        match (&storage.buffers, &storage.role.initialized) {
            (Some(buffers), Some(sessions)) => Ok(
                Runtime {
                    retry: None,
                    buffers,
                    waiters: Queue::with_capacity(max_connections),
                    role: ServerRuntime { shard, sessions },
                },
            ),
            _ => Err(SetupError::OtherShard),
        }
    }
}

} // verus!
