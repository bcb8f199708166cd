//! Where the clients of a wire come from.

use crate::buffered::engines::{self, ClientEngine};
use crate::buffered::held::Whole;
use crate::buffered::wire::{Side, Tls};
use crate::buffered::{self, State};
use crate::clock::WallClock;
use crate::error::Error;
use shin::client::config::{Config as ClientConfig, Error as ConfigError, Identity};
use vstd::prelude::*;

verus! {

/// What one client connection is made from.
pub struct ClientSetup {
    pub config: ClientConfig,
    pub identity: Option<Identity>,
}

impl ClientSetup {
    /// A client without an identity of its own.
    pub fn new(config: ClientConfig) -> (setup: Self)
        ensures
            setup == (ClientSetup { config, identity: None }),
    {
        ClientSetup { config, identity: None }
    }

    /// A client that shows an identity of its own.
    pub fn mutual(config: ClientConfig, identity: Identity) -> (setup: Self)
        ensures
            setup == (ClientSetup { config, identity: Some(identity) }),
    {
        ClientSetup { config, identity: Some(identity) }
    }

    /// That a connection can be made so.
    pub open spec fn makes(self, result: Result<State<ClientEngine>, Error>) -> bool {
        exists|made: Result<ClientEngine, ConfigError>|
            (match self.identity {
                None => engines::client_made(self.config, WallClock::System, made),
                Some(identity) => engines::mutual_client_made(
                    self.config,
                    identity,
                    WallClock::System,
                    made,
                ),
            }) && #[trigger] buffered::opened(made, result)
    }

    /// The connection, whose handshake has begun.
    pub fn connect(self) -> (result: Result<State<ClientEngine>, Error>)
        ensures
            self.makes(result),
    {
        match self.identity {
            None => State::new_client(self.config),
            Some(identity) => State::new_client_mutual(self.config, identity),
        }
    }
}

/// Gives out what clients are made from, one after the other.
pub trait ClientSource: Sized {
    /// That the next client can be this one, or that there is none: anything, unless
    /// the source says more.
    open spec fn gives(before: Self, after: Self, setup: Option<ClientSetup>) -> bool {
        true
    }

    fn next(&mut self) -> (setup: Option<ClientSetup>)
        ensures
            Self::gives(*old(self), *final(self), setup),
    ;
}

/// No client at all.
pub struct NoClients;

impl ClientSource for NoClients {
    open spec fn gives(before: Self, after: Self, setup: Option<ClientSetup>) -> bool {
        setup is None
    }

    fn next(&mut self) -> Option<ClientSetup> {
        None
    }
}

/// One client.
pub struct OnceClient(pub Option<ClientSetup>);

impl ClientSource for OnceClient {
    open spec fn gives(before: Self, after: Self, setup: Option<ClientSetup>) -> bool {
        setup == before.0 && after.0 is None
    }

    fn next(&mut self) -> Option<ClientSetup> {
        self.0.take()
    }
}

/// A source of one client gives it once, and nothing from then on.
pub proof fn one_client_comes_once(
    before: OnceClient,
    mid: OnceClient,
    first: Option<ClientSetup>,
    after: OnceClient,
    second: Option<ClientSetup>,
)
    requires
        OnceClient::gives(before, mid, first),
        OnceClient::gives(mid, after, second),
    ensures
        first == before.0,
        second is None,
        after == mid,
{
}

/// That a wire was opened with the next client. One that cannot be made leaves a wire
/// that is to be closed.
pub open spec fn next_opened(setup: Option<ClientSetup>, wire: Option<Tls<Side>>) -> bool {
    match (setup, wire) {
        (None, None) => true,
        (Some(setup), Some(wire)) => exists|result: Result<State<ClientEngine>, Error>| #[trigger]
            setup.makes(result) && wire.wf() && wire@.close == (result is Err) && wire@.tls
                == match result {
                Ok(state) => Some(Whole { side: Side::Client(state@.side), held: state@.held }),
                Err(_) => None,
            } && wire@.pending.len() == 0 && wire@.ingress.len() == 0 && wire@.egress.bytes.len()
                == 0 && !wire@.inflight,
        _ => false,
    }
}

/// Opens a wire with the next client of a source, if there is one.
pub fn open_next<C: ClientSource>(source: &mut C) -> (wire: Option<Tls<Side>>)
    ensures
        exists|setup: Option<ClientSetup>| #[trigger]
            C::gives(*old(source), *final(source), setup) && next_opened(setup, wire),
{
    let setup = source.next();
    let ghost given = setup;
    assert(C::gives(*old(source), *source, given));
    match setup {
        None => None,
        Some(setup) => {
            let result = setup.connect();
            let ghost came = result;
            assert(given->0.makes(came));
            let tls = match result {
                Ok(state) => Some(State::of_client(state)),
                Err(_) => None,
            };
            Some(Tls::new(tls))
        },
    }
}

} // verus!
