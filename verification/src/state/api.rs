//! What can be asked of a connection.

use crate::error::Error;
use crate::state::sessions::Peer;
use crate::state::status::{PeerClose, Phase};
use crate::state::{self, State, StateView};
use vstd::prelude::*;

verus! {

/// Where a connection stands.
#[verifier::ext_equal]
pub struct Standing {
    pub phase: Phase,
    pub close: PeerClose,
    /// Received bytes that wait for the rest of their record.
    pub waiting: Seq<u8>,
    /// Whether application data can be sealed.
    pub seals: bool,
    /// The application protocol that was agreed on.
    pub alpn: Option<Seq<u8>>,
}

impl Standing {
    /// After the peer has stopped sending.
    pub open spec fn eof(self) -> Standing {
        if self.close == PeerClose::Open {
            Standing { phase: Phase::Closed, close: PeerClose::Truncated, ..self }
        } else {
            self
        }
    }

    /// Whether the connection can be closed in order.
    pub open spec fn can_close(self) -> bool {
        (self.phase == Phase::Established || self.phase == Phase::PeerClosed) && self.seals
    }
}

/// The end of the peer's bytes counts once: after it, it changes nothing more.
pub proof fn eof_counts_once(standing: Standing)
    ensures
        standing.eof().eof() == standing.eof(),
        standing.eof().close != PeerClose::Open,
        standing.close == PeerClose::CloseNotify ==> standing.eof() == standing,
{
}

/// What a connection tells of itself.
pub trait Status {
    spec fn standing(&self) -> Standing;

    /// Whether received bytes wait for the rest of their record.
    fn has_staged_recv(&self) -> (waits: bool)
        ensures
            waits == (self.standing().waiting.len() > 0),
    ;

    /// The received bytes that wait for the rest of their record.
    fn staged_recv(&self) -> (bytes: &[u8])
        ensures
            bytes@ == self.standing().waiting,
    ;

    /// Whether the connection can be closed in order.
    fn can_close_notify(&self) -> (can: bool)
        ensures
            can == self.standing().can_close(),
    ;

    /// How the peer has ended its side.
    fn peer_close(&self) -> (close: PeerClose)
        ensures
            close == self.standing().close,
    ;

    /// The peer has stopped sending. An error unless it has said so before.
    fn peer_eof(&mut self) -> (result: Result<(), Error>)
        ensures
            final(self).standing() == old(self).standing().eof(),
            result == if old(self).standing().close == PeerClose::Open {
                Err::<(), Error>(Error::Truncated)
            } else {
                Ok::<(), Error>(())
            },
    ;

    fn is_handshaking(&self) -> (is: bool)
        ensures
            is == (self.standing().phase == Phase::Handshaking),
    ;

    fn is_established(&self) -> (is: bool)
        ensures
            is == (self.standing().phase == Phase::Established),
    ;

    /// Whether nothing more is read.
    fn is_closed(&self) -> (is: bool)
        ensures
            is == state::closed(self.standing().phase),
    ;

    fn phase(&self) -> (phase: Phase)
        ensures
            phase == self.standing().phase,
    ;

    /// The application protocol that was agreed on.
    fn selected_alpn(&self) -> (protocol: Option<&[u8]>)
        ensures
            match protocol {
                Some(protocol) => self.standing().alpn == Some(protocol@),
                None => self.standing().alpn is None,
            },
    ;
}

impl<S: Peer> StateView<S> {
    /// Where the connection stands.
    pub open spec fn standing(self) -> Standing {
        Standing {
            phase: self.link.core.phase,
            close: self.link.close,
            waiting: self.received.bytes(),
            seals: self.link.core.traffic.application_ready(),
            alpn: self.link.side.alpn(),
        }
    }
}

impl<S: Peer> Status for State<'_, S> {
    open spec fn standing(&self) -> Standing {
        self@.standing()
    }

    fn has_staged_recv(&self) -> bool {
        self.buffers.recv().len() > 0
    }

    fn staged_recv(&self) -> &[u8] {
        self.buffers.recv()
    }

    fn can_close_notify(&self) -> bool {
        match self.record.events.phase {
            Phase::Established | Phase::PeerClosed => {
                self.record.events.traffic.application_ready()
            },
            _ => false,
        }
    }

    fn peer_close(&self) -> PeerClose {
        self.record.peer_close
    }

    fn peer_eof(&mut self) -> (result: Result<(), Error>)
        ensures
            final(self)@.received == old(self)@.received,
            final(self)@.link.side == old(self)@.link.side,
            final(self)@.link.core == old(self)@.link.core.with_phase(
                final(self)@.link.core.phase,
            ),
    {
        match self.record.peer_close {
            PeerClose::Open => {
                self.record.peer_close = PeerClose::Truncated;
                self.record.events.phase = Phase::Closed;
                Err(Error::Truncated)
            },
            _ => Ok(()),
        }
    }

    fn is_handshaking(&self) -> bool {
        match self.record.events.phase {
            Phase::Handshaking => true,
            _ => false,
        }
    }

    fn is_established(&self) -> bool {
        match self.record.events.phase {
            Phase::Established => true,
            _ => false,
        }
    }

    fn is_closed(&self) -> bool {
        match self.record.events.phase {
            Phase::PeerClosed | Phase::Closed => true,
            _ => false,
        }
    }

    fn phase(&self) -> Phase {
        self.record.events.phase
    }

    fn selected_alpn(&self) -> Option<&[u8]> {
        self.record.side.selected_alpn()
    }
}

} // verus!
