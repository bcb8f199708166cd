//! Handshake engines that answer with what is to be done.

use crate::clock::WallClock;
use crate::state::events;
use crate::state::sessions::servers::{self, PreparedShard, Shard};
use shin::client::config::{Config as ClientConfig, Error as ConfigError, Identity};
use shin::connection::{
    DriveError, Epoch, Error as HandshakeError, Event, EventContext, EventSink, KeyDirection,
};
use shin::server::config::{
    Config as ServerConfig, Connection as ServerConnection, NoClientAuth, NoGuard,
};
use shin::server::MultiplexedConnection;
use shin::transport::Mode;
use shin::wire::handshake::KeyUpdateRequest;
use shin::wire::record::CipherSuite;
use vstd::prelude::*;

verus! {

/// What an engine wants done.
pub enum OwnedEvent {
    Send { epoch: Epoch, data: Vec<u8> },
    KeysReady { epoch: Epoch, read: Vec<u8>, write: Vec<u8> },
    KeyUpdate { direction: KeyDirection, secret: Vec<u8> },
    Done,
    Other,
}

/// What an engine wants done, by what it holds.
pub enum Wish {
    Send { epoch: Epoch, data: Seq<u8> },
    KeysReady { epoch: Epoch, read: Seq<u8>, write: Seq<u8> },
    KeyUpdate { direction: KeyDirection, secret: Seq<u8> },
    Done,
    Other,
}

impl View for OwnedEvent {
    type V = Wish;

    open spec fn view(&self) -> Wish {
        match *self {
            OwnedEvent::Send { epoch, data } => Wish::Send { epoch, data: data@ },
            OwnedEvent::KeysReady { epoch, read, write } => Wish::KeysReady {
                epoch,
                read: read@,
                write: write@,
            },
            OwnedEvent::KeyUpdate { direction, secret } => Wish::KeyUpdate {
                direction,
                secret: secret@,
            },
            OwnedEvent::Done => Wish::Done,
            OwnedEvent::Other => Wish::Other,
        }
    }
}

/// An event by what it wants done.
pub open spec fn wish(event: Event<'_>) -> Wish {
    match event {
        Event::Send { epoch, data } => Wish::Send { epoch, data: data@ },
        Event::KeysReady { epoch, read_secret, write_secret } => Wish::KeysReady {
            epoch,
            read: events::secret_bytes(*read_secret),
            write: events::secret_bytes(*write_secret),
        },
        Event::KeyUpdate { direction, secret } => Wish::KeyUpdate {
            direction,
            secret: events::secret_bytes(*secret),
        },
        Event::Done => Wish::Done,
        _ => Wish::Other,
    }
}

/// Events by what they want done.
pub open spec fn wishes(events: Seq<OwnedEvent>) -> Seq<Wish> {
    events.map_values(|event: OwnedEvent| event@)
}

/// An answer by what it wants done.
pub open spec fn wished(answer: Result<Vec<OwnedEvent>, HandshakeError>) -> Result<
    Seq<Wish>,
    HandshakeError,
> {
    match answer {
        Ok(events) => Ok(wishes(events@)),
        Err(error) => Err(error),
    }
}

/// What a call of an engine comes to, by what is wanted done.
pub open spec fn came_to(
    result: Result<(), DriveError<HandshakeError>>,
    has: Seq<Wish>,
) -> Result<Seq<Wish>, HandshakeError> {
    match result {
        Ok(()) => Ok(has),
        Err(DriveError::Protocol(error)) => Err(error),
        Err(DriveError::Sink(error)) => Err(error),
    }
}

fn copied(bytes: &[u8]) -> (copy: Vec<u8>)
    ensures
        copy@ == bytes@,
{
    let mut copy: Vec<u8> = Vec::new();
    copy.extend_from_slice(bytes);
    assert(copy@ =~= bytes@);
    copy
}

impl OwnedEvent {
    /// A copy of an event.
    pub fn of(event: Event<'_>) -> (owned: Self)
        ensures
            owned@ == wish(event),
    {
        match event {
            Event::Send { epoch, data } => OwnedEvent::Send { epoch, data: copied(data) },
            Event::KeysReady { epoch, read_secret, write_secret } => OwnedEvent::KeysReady {
                epoch,
                read: copied(read_secret.as_slice()),
                write: copied(write_secret.as_slice()),
            },
            Event::KeyUpdate { direction, secret } => OwnedEvent::KeyUpdate {
                direction,
                secret: copied(secret.as_slice()),
            },
            Event::Done => OwnedEvent::Done,
            _ => OwnedEvent::Other,
        }
    }
}

/// The events of a call, in order.
pub struct Collected {
    pub events: Vec<OwnedEvent>,
}

impl Collected {
    fn new() -> (collected: Self)
        ensures
            wishes(collected.events@) == Seq::<Wish>::empty(),
    {
        let collected = Collected { events: Vec::new() };
        assert(wishes(collected.events@) =~= Seq::<Wish>::empty());
        collected
    }

    /// One more event.
    pub fn collect(&mut self, event: Event<'_>)
        ensures
            wishes(final(self).events@) == wishes(old(self).events@).push(wish(event)),
    {
        let ghost before = self.events@;
        self.events.push(OwnedEvent::of(event));
        assert(wishes(self.events@) =~= wishes(before).push(wish(event)));
    }
}

impl EventSink for Collected {
    type Error = HandshakeError;

    fn event(&mut self, event: Event<'_>, context: EventContext) -> (result: Result<
        (),
        HandshakeError,
    >)
        ensures
            result is Ok,
            wishes(final(self).events@) == wishes(old(self).events@).push(wish(event)),
    {
        self.collect(event);
        Ok(())
    }
}

/// What a call of an engine comes to.
pub fn outcome(
    result: Result<(), DriveError<HandshakeError>>,
    collected: Collected,
) -> (answer: Result<Vec<OwnedEvent>, HandshakeError>)
    ensures
        match result {
            Ok(()) => answer matches Ok(events) && events@ == collected.events@,
            Err(DriveError::Protocol(error)) => answer matches Err(other) && other == error,
            Err(DriveError::Sink(error)) => answer matches Err(other) && other == error,
        },
        wished(answer) == came_to(result, wishes(collected.events@)),
{
    match result {
        Ok(()) => Ok(collected.events),
        Err(DriveError::Protocol(error)) => Err(error),
        Err(DriveError::Sink(error)) => Err(error),
    }
}

/// The handshake engine of one connection. Its answers are its own.
pub trait Engine: Sized {
    /// The suite that was agreed on.
    spec fn suite(self) -> Option<CipherSuite>;

    /// The application protocol that was agreed on.
    spec fn alpn(self) -> Option<Seq<u8>>;

    /// That the engine `before`, handed these bytes, can be left as `after` with
    /// this answer.
    spec fn answers(
        before: Self,
        epoch: Epoch,
        data: Seq<u8>,
        after: Self,
        answer: Result<Seq<Wish>, HandshakeError>,
    ) -> bool;

    /// That the engine `before`, called for a key update, can be left as `after` with
    /// this answer.
    spec fn updates(
        before: Self,
        request_update: bool,
        after: Self,
        answer: Result<Seq<Wish>, HandshakeError>,
    ) -> bool;

    /// That `after` is `before` with application data noted.
    spec fn noted(before: Self, after: Self) -> bool;

    fn read(&mut self, epoch: Epoch, data: &[u8]) -> (answer: Result<
        Vec<OwnedEvent>,
        HandshakeError,
    >)
        ensures
            Self::answers(*old(self), epoch, data@, *final(self), wished(answer)),
    ;

    fn send_key_update(&mut self, request_update: bool) -> (answer: Result<
        Vec<OwnedEvent>,
        HandshakeError,
    >)
        ensures
            Self::updates(*old(self), request_update, *final(self), wished(answer)),
    ;

    fn note_application_data(&mut self)
        ensures
            Self::noted(*old(self), *final(self)),
    ;

    fn selected_alpn(&self) -> (protocol: Option<&[u8]>)
        ensures
            match protocol {
                Some(protocol) => self.alpn() == Some(protocol@),
                None => self.alpn() is None,
            },
    ;

    fn negotiated_cipher_suite(&self) -> (suite: Option<CipherSuite>)
        ensures
            suite == self.suite(),
    ;
}

/// A client engine that stands by itself.
#[verifier::external_body]
pub struct ClientEngine(Box<shin::client::Client<WallClock>>);

/// A server engine that stands by itself.
#[verifier::external_body]
pub struct ServerEngine(Box<MultiplexedConnection<WallClock, 0, NoGuard, NoClientAuth>>);

/// The application protocol that a client has agreed on.
pub uninterp spec fn client_alpn(engine: ClientEngine) -> Option<Seq<u8>>;

/// The suite that a client has agreed on.
pub uninterp spec fn client_suite(engine: ClientEngine) -> Option<CipherSuite>;

/// The application protocol that a server has agreed on.
pub uninterp spec fn server_alpn(engine: ServerEngine) -> Option<Seq<u8>>;

/// The suite that a server has agreed on.
pub uninterp spec fn server_suite(engine: ServerEngine) -> Option<CipherSuite>;

/// That `shin::client::Client::new` can come to this.
pub uninterp spec fn client_made(
    config: ClientConfig,
    clock: WallClock,
    result: Result<ClientEngine, ConfigError>,
) -> bool;

/// That `shin::client::Client::mutual` can come to this.
pub uninterp spec fn mutual_client_made(
    config: ClientConfig,
    identity: Identity,
    clock: WallClock,
    result: Result<ClientEngine, ConfigError>,
) -> bool;

/// That `Client::start_into` can go so: what was wanted done before it and after it.
pub uninterp spec fn client_starts(
    before: ClientEngine,
    had: Seq<Wish>,
    after: ClientEngine,
    has: Seq<Wish>,
    result: Result<(), DriveError<HandshakeError>>,
) -> bool;

/// That `Client::read_into` can go so: what was wanted done before it and after it.
pub uninterp spec fn client_reads(
    before: ClientEngine,
    epoch: Epoch,
    data: Seq<u8>,
    had: Seq<Wish>,
    after: ClientEngine,
    has: Seq<Wish>,
    result: Result<(), DriveError<HandshakeError>>,
) -> bool;

/// That `Updates::send_pending_into` of a client can go so.
pub uninterp spec fn client_responds(
    before: ClientEngine,
    had: Seq<Wish>,
    after: ClientEngine,
    has: Seq<Wish>,
    result: Result<(), DriveError<HandshakeError>>,
) -> bool;

/// That `Updates::send_into` of a client can go so.
pub uninterp spec fn client_updates(
    before: ClientEngine,
    request: KeyUpdateRequest,
    had: Seq<Wish>,
    after: ClientEngine,
    has: Seq<Wish>,
    result: Result<(), DriveError<HandshakeError>>,
) -> bool;

/// That `Updates::note_application_data` of a client can go so.
pub uninterp spec fn client_notes(
    before: ClientEngine,
    after: ClientEngine,
) -> bool;

/// That `shin::server::Shard::new_multiplexed` can come to this.
pub uninterp spec fn server_joins(
    shard: Shard,
    clock: WallClock,
    result: Result<ServerEngine, HandshakeError>,
) -> bool;

/// That making a server from a configuration can come to this: the configuration is
/// checked and bound, and a connection joins it.
pub open spec fn server_made(
    config: ServerConfig,
    clock: WallClock,
    result: Result<ServerEngine, HandshakeError>,
) -> bool {
    exists|checked: Result<PreparedShard, HandshakeError>| #[trigger]
        servers::shard_checked(config, checked) && match checked {
            Err(error) => result == Err::<ServerEngine, HandshakeError>(error),
            Ok(prepared) => exists|shard: Shard| #[trigger]
                servers::shard_bound(prepared, shard) && server_joins(shard, clock, result),
        }
}

/// That `MultiplexedConnection::read_into` can go so: what was wanted done before it and after it.
pub uninterp spec fn server_reads(
    before: ServerEngine,
    epoch: Epoch,
    data: Seq<u8>,
    had: Seq<Wish>,
    after: ServerEngine,
    has: Seq<Wish>,
    result: Result<(), DriveError<HandshakeError>>,
) -> bool;

/// That `Updates::send_pending_into` of a server can go so.
pub uninterp spec fn server_responds(
    before: ServerEngine,
    had: Seq<Wish>,
    after: ServerEngine,
    has: Seq<Wish>,
    result: Result<(), DriveError<HandshakeError>>,
) -> bool;

/// That `Updates::send_into` of a server can go so.
pub uninterp spec fn server_updates(
    before: ServerEngine,
    request: KeyUpdateRequest,
    had: Seq<Wish>,
    after: ServerEngine,
    has: Seq<Wish>,
    result: Result<(), DriveError<HandshakeError>>,
) -> bool;

/// That `Updates::note_application_data` of a server can go so.
pub uninterp spec fn server_notes(
    before: ServerEngine,
    after: ServerEngine,
) -> bool;

/// Whether a key update asks for one in return.
pub open spec fn request(request_update: bool) -> KeyUpdateRequest {
    if request_update {
        KeyUpdateRequest::Requested
    } else {
        KeyUpdateRequest::NotRequested
    }
}

fn requested(request_update: bool) -> (result: KeyUpdateRequest)
    ensures
        result == request(request_update),
{
    if request_update {
        KeyUpdateRequest::Requested
    } else {
        KeyUpdateRequest::NotRequested
    }
}

/// That the handshake of a client began with this answer.
pub open spec fn started(
    before: ClientEngine,
    after: ClientEngine,
    answer: Result<Seq<Wish>, HandshakeError>,
) -> bool {
    exists|has: Seq<Wish>, result: Result<(), DriveError<HandshakeError>>| #[trigger]
        client_starts(before, Seq::empty(), after, has, result) && answer == came_to(result, has)
}

impl ClientEngine {
    /// `shin::client::Client::new`: a client that has not begun. Which
    /// configurations pass is the engine's own matter.
    #[verifier::external_body]
    pub(crate) fn new(config: ClientConfig, clock: WallClock) -> (result: Result<
        ClientEngine,
        ConfigError,
    >)
        ensures
            client_made(config, clock, result),
    {
        match shin::client::Client::new(config, clock) {
            Ok(client) => Ok(ClientEngine(Box::new(client))),
            Err(error) => Err(error),
        }
    }

    /// `shin::client::Client::mutual`: a client with an identity of its own that has
    /// not begun. Which configurations pass is the engine's own matter.
    #[verifier::external_body]
    pub(crate) fn mutual(config: ClientConfig, identity: Identity, clock: WallClock) -> (result:
        Result<ClientEngine, ConfigError>)
        ensures
            mutual_client_made(config, identity, clock, result),
    {
        match shin::client::Client::mutual(config, identity, clock) {
            Ok(client) => Ok(ClientEngine(Box::new(client))),
            Err(error) => Err(error),
        }
    }

    /// `Client::start_into`: begins the handshake. The events are handed out in
    /// order; which there are is the engine's own matter.
    #[verifier::external_body]
    fn start_into(&mut self, events: &mut Collected) -> (result: Result<
        (),
        DriveError<HandshakeError>,
    >)
        ensures
            client_starts(
                *old(self),
                wishes(old(events).events@),
                *final(self),
                wishes(final(events).events@),
                result,
            ),
    {
        self.0.start_into(events)
    }

    /// `Client::read_into`: takes handshake bytes in.
    #[verifier::external_body]
    fn read_into(&mut self, epoch: Epoch, data: &[u8], events: &mut Collected) -> (result: Result<
        (),
        DriveError<HandshakeError>,
    >)
        ensures
            client_reads(
                *old(self),
                epoch,
                data@,
                wishes(old(events).events@),
                *final(self),
                wishes(final(events).events@),
                result,
            ),
    {
        self.0.read_into(epoch, data, events)
    }

    /// `Updates::send_pending_into`: answers a key update that asked for one.
    #[verifier::external_body]
    fn respond_into(&mut self, events: &mut Collected) -> (result: Result<
        (),
        DriveError<HandshakeError>,
    >)
        ensures
            client_responds(
                *old(self),
                wishes(old(events).events@),
                *final(self),
                wishes(final(events).events@),
                result,
            ),
    {
        self.0.key_updates().send_pending_into(events)
    }

    /// `Updates::send_into`: sends a key update.
    #[verifier::external_body]
    fn update_into(&mut self, request: KeyUpdateRequest, events: &mut Collected) -> (result: Result<
        (),
        DriveError<HandshakeError>,
    >)
        ensures
            client_updates(
                *old(self),
                request,
                wishes(old(events).events@),
                *final(self),
                wishes(final(events).events@),
                result,
            ),
    {
        self.0.key_updates().send_into(request, events)
    }

    /// `Updates::note_application_data`: application data has arrived.
    #[verifier::external_body]
    fn note(&mut self)
        ensures
            client_notes(*old(self), *final(self)),
    {
        self.0.key_updates().note_application_data()
    }

    /// `Client::selected_alpn`: the application protocol, once one is agreed on.
    #[verifier::external_body]
    fn protocol(&self) -> (protocol: Option<&[u8]>)
        ensures
            match protocol {
                Some(protocol) => client_alpn(*self) == Some(protocol@),
                None => client_alpn(*self) is None,
            },
    {
        self.0.selected_alpn()
    }

    /// `Client::negotiated_cipher_suite`: the suite, once one is agreed on.
    #[verifier::external_body]
    fn agreed_suite(&self) -> (suite: Option<CipherSuite>)
        ensures
            suite == client_suite(*self),
    {
        self.0.negotiated_cipher_suite()
    }

    /// Begins the handshake.
    pub fn start(&mut self) -> (answer: Result<Vec<OwnedEvent>, HandshakeError>)
        ensures
            started(*old(self), *final(self), wished(answer)),
    {
        let mut events = Collected::new();
        let result = self.start_into(&mut events);
        let ghost has = wishes(events.events@);
        assert(client_starts(*old(self), Seq::empty(), *self, has, result));
        outcome(result, events)
    }
}

impl ServerEngine {
    /// `shin::server::Shard::new_multiplexed`: a server that waits for a client. Which
    /// shards have room for one is the engine's own matter.
    #[verifier::external_body]
    fn join(shard: &Shard, clock: WallClock) -> (result: Result<ServerEngine, HandshakeError>)
        ensures
            server_joins(*shard, clock, result),
    {
        let connection = ServerConnection { transport_params: Vec::new() };
        match shard.0.new_multiplexed(connection, Mode::Tls, clock) {
            Ok(server) => Ok(ServerEngine(Box::new(server))),
            Err(error) => Err(error),
        }
    }

    /// A server that waits for a client.
    pub(crate) fn new(config: ServerConfig, clock: WallClock) -> (result: Result<
        ServerEngine,
        HandshakeError,
    >)
        ensures
            server_made(config, clock, result),
    {
        match PreparedShard::try_new(config) {
            Ok(prepared) => {
                let ghost start = prepared;
                let shard = prepared.bind();
                assert(servers::shard_bound(start, shard));
                Self::join(&shard, clock)
            },
            Err(error) => Err(error),
        }
    }

    /// `MultiplexedConnection::read_into`: takes handshake bytes in.
    #[verifier::external_body]
    fn read_into(&mut self, epoch: Epoch, data: &[u8], events: &mut Collected) -> (result: Result<
        (),
        DriveError<HandshakeError>,
    >)
        ensures
            server_reads(
                *old(self),
                epoch,
                data@,
                wishes(old(events).events@),
                *final(self),
                wishes(final(events).events@),
                result,
            ),
    {
        self.0.read_into(epoch, data, events)
    }

    /// `Updates::send_pending_into`: answers a key update that asked for one.
    #[verifier::external_body]
    fn respond_into(&mut self, events: &mut Collected) -> (result: Result<
        (),
        DriveError<HandshakeError>,
    >)
        ensures
            server_responds(
                *old(self),
                wishes(old(events).events@),
                *final(self),
                wishes(final(events).events@),
                result,
            ),
    {
        self.0.key_updates().send_pending_into(events)
    }

    /// `Updates::send_into`: sends a key update.
    #[verifier::external_body]
    fn update_into(&mut self, request: KeyUpdateRequest, events: &mut Collected) -> (result: Result<
        (),
        DriveError<HandshakeError>,
    >)
        ensures
            server_updates(
                *old(self),
                request,
                wishes(old(events).events@),
                *final(self),
                wishes(final(events).events@),
                result,
            ),
    {
        self.0.key_updates().send_into(request, events)
    }

    /// `Updates::note_application_data`: application data has arrived.
    #[verifier::external_body]
    fn note(&mut self)
        ensures
            server_notes(*old(self), *final(self)),
    {
        self.0.key_updates().note_application_data()
    }

    /// `MultiplexedConnection::selected_alpn`: the application protocol, once one is
    /// agreed on.
    #[verifier::external_body]
    fn protocol(&self) -> (protocol: Option<&[u8]>)
        ensures
            match protocol {
                Some(protocol) => server_alpn(*self) == Some(protocol@),
                None => server_alpn(*self) is None,
            },
    {
        self.0.selected_alpn()
    }

    /// `Server::negotiated_cipher_suite`: the suite, once one is agreed on.
    #[verifier::external_body]
    fn agreed_suite(&self) -> (suite: Option<CipherSuite>)
        ensures
            suite == server_suite(*self),
    {
        self.0.negotiated_cipher_suite()
    }
}

impl Engine for ClientEngine {
    open spec fn suite(self) -> Option<CipherSuite> {
        client_suite(self)
    }

    open spec fn alpn(self) -> Option<Seq<u8>> {
        client_alpn(self)
    }

    open spec fn answers(
        before: Self,
        epoch: Epoch,
        data: Seq<u8>,
        after: Self,
        answer: Result<Seq<Wish>, HandshakeError>,
    ) -> bool {
        exists|
            mid: ClientEngine,
            has: Seq<Wish>,
            result: Result<(), DriveError<HandshakeError>>,
        | #[trigger]
            client_reads(before, epoch, data, Seq::empty(), mid, has, result) && match result {
                Ok(()) => exists|more: Seq<Wish>, end: Result<(), DriveError<HandshakeError>>|
                    #[trigger]
                    client_responds(mid, has, after, more, end) && answer == came_to(end, more),
                Err(_) => after == mid && answer == came_to(result, has),
            }
    }

    open spec fn updates(
        before: Self,
        request_update: bool,
        after: Self,
        answer: Result<Seq<Wish>, HandshakeError>,
    ) -> bool {
        exists|has: Seq<Wish>, result: Result<(), DriveError<HandshakeError>>| #[trigger]
            client_updates(before, request(request_update), Seq::empty(), after, has, result)
                && answer == came_to(result, has)
    }

    open spec fn noted(before: Self, after: Self) -> bool {
        client_notes(before, after)
    }

    /// A key update that asks for one in return is answered at once.
    fn read(&mut self, epoch: Epoch, data: &[u8]) -> Result<Vec<OwnedEvent>, HandshakeError> {
        let mut events = Collected::new();
        let result = self.read_into(epoch, data, &mut events);
        let ghost mid = *self;
        let ghost has = wishes(events.events@);
        assert(client_reads(*old(self), epoch, data@, Seq::empty(), mid, has, result));
        match result {
            Ok(()) => {
                let end = self.respond_into(&mut events);
                assert(client_responds(mid, has, *self, wishes(events.events@), end));
                outcome(end, events)
            },
            Err(error) => outcome(Err(error), events),
        }
    }

    fn send_key_update(&mut self, request_update: bool) -> Result<Vec<OwnedEvent>, HandshakeError> {
        let mut events = Collected::new();
        let result = self.update_into(requested(request_update), &mut events);
        assert(client_updates(
            *old(self),
            request(request_update),
            Seq::empty(),
            *self,
            wishes(events.events@),
            result,
        ));
        outcome(result, events)
    }

    fn note_application_data(&mut self) {
        self.note()
    }

    fn selected_alpn(&self) -> Option<&[u8]> {
        self.protocol()
    }

    fn negotiated_cipher_suite(&self) -> Option<CipherSuite> {
        self.agreed_suite()
    }
}

impl Engine for ServerEngine {
    open spec fn suite(self) -> Option<CipherSuite> {
        server_suite(self)
    }

    open spec fn alpn(self) -> Option<Seq<u8>> {
        server_alpn(self)
    }

    open spec fn answers(
        before: Self,
        epoch: Epoch,
        data: Seq<u8>,
        after: Self,
        answer: Result<Seq<Wish>, HandshakeError>,
    ) -> bool {
        exists|
            mid: ServerEngine,
            has: Seq<Wish>,
            result: Result<(), DriveError<HandshakeError>>,
        | #[trigger]
            server_reads(before, epoch, data, Seq::empty(), mid, has, result) && match result {
                Ok(()) => exists|more: Seq<Wish>, end: Result<(), DriveError<HandshakeError>>|
                    #[trigger]
                    server_responds(mid, has, after, more, end) && answer == came_to(end, more),
                Err(_) => after == mid && answer == came_to(result, has),
            }
    }

    open spec fn updates(
        before: Self,
        request_update: bool,
        after: Self,
        answer: Result<Seq<Wish>, HandshakeError>,
    ) -> bool {
        exists|has: Seq<Wish>, result: Result<(), DriveError<HandshakeError>>| #[trigger]
            server_updates(before, request(request_update), Seq::empty(), after, has, result)
                && answer == came_to(result, has)
    }

    open spec fn noted(before: Self, after: Self) -> bool {
        server_notes(before, after)
    }

    /// A key update that asks for one in return is answered at once.
    fn read(&mut self, epoch: Epoch, data: &[u8]) -> Result<Vec<OwnedEvent>, HandshakeError> {
        let mut events = Collected::new();
        let result = self.read_into(epoch, data, &mut events);
        let ghost mid = *self;
        let ghost has = wishes(events.events@);
        assert(server_reads(*old(self), epoch, data@, Seq::empty(), mid, has, result));
        match result {
            Ok(()) => {
                let end = self.respond_into(&mut events);
                assert(server_responds(mid, has, *self, wishes(events.events@), end));
                outcome(end, events)
            },
            Err(error) => outcome(Err(error), events),
        }
    }

    fn send_key_update(&mut self, request_update: bool) -> Result<Vec<OwnedEvent>, HandshakeError> {
        let mut events = Collected::new();
        let result = self.update_into(requested(request_update), &mut events);
        assert(server_updates(
            *old(self),
            request(request_update),
            Seq::empty(),
            *self,
            wishes(events.events@),
            result,
        ));
        outcome(result, events)
    }

    fn note_application_data(&mut self) {
        self.note()
    }

    fn selected_alpn(&self) -> Option<&[u8]> {
        self.protocol()
    }

    fn negotiated_cipher_suite(&self) -> Option<CipherSuite> {
        self.agreed_suite()
    }
}

} // verus!
