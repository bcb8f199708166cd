//! Where a connection stands.

use shin::wire::alert;
use vstd::prelude::*;

verus! {

/// What a read leaves to be done.
#[derive(Debug, Clone, Copy, PartialEq, Eq, Structural)]
pub enum Read {
    Continue,
    Stop,
    Failed,
}

/// The life of a connection.
#[derive(Debug, Clone, Copy, PartialEq, Eq, Structural)]
pub enum Phase {
    Handshaking,
    Established,
    PeerClosed,
    Closed,
}

/// How the peer has ended its side.
#[derive(Debug, Clone, Copy, PartialEq, Eq)]
pub enum PeerClose {
    Open,
    CloseNotify,
    Fatal(alert::Description),
    Truncated,
}

} // verus!
