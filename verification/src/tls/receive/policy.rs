//! Whether there are buffers to receive into.

use crate::buffer::{self, Contents};
use crate::state::api::Status;
use crate::state::buffers::Received;
use crate::state::events::{self, Core};
use crate::state::sessions::Peer;
use crate::state::status::Phase;
use crate::state::StateView;
use crate::tls::receive::waiters::{Lines, Queue, Resource, Waiter};
use crate::tls::{Connection, SendState, Wired};
use crate::transmissions::{Availability, SendBuffer};
use core::marker::PhantomData;
use vstd::prelude::*;

verus! {

/// What has to become free before bytes can be received. Where a receive buffer
/// was given back, the connection that waited for one is `woken`.
pub struct Blocked {
    pub resource: Resource,
    pub woken: Option<Waiter>,
}

/// A reservation during the handshake: the connection answers into the send
/// buffer.
pub struct Handshake;

/// A reservation after the handshake.
pub struct Established;

/// The buffers that receiving takes are there.
pub enum Transaction {
    Handshake(Handshake),
    Established(Established),
}

/// Who can go on after buffers were given back.
pub struct Woken {
    pub recv: Option<Waiter>,
    pub handshake_egress: Option<Waiter>,
}

/// How buffers are reserved for receiving.
pub struct Policy<S> {
    peer: PhantomData<S>,
}

/// A send buffer, if there was one or one could be `acquired`. A pool that is never
/// without a free one always gives it.
pub open spec fn send_buffered(
    send: Option<Contents>,
    core: Core,
    acquired: bool,
) -> Option<Contents> {
    if send is None && (acquired || !core.lacks) {
        Some(Contents { bytes: Seq::empty(), capacity: core.slot })
    } else {
        send
    }
}

/// A receive buffer without what is empty.
pub open spec fn emptied(received: Received) -> Received {
    if received.bytes().len() == 0 {
        Received { recv: None, ..received }
    } else {
        received
    }
}

/// Whether a receive buffer would be given back.
pub open spec fn gives_back(received: Received) -> bool {
    received.recv is Some && received.bytes().len() == 0
}

/// A line of waiters after a buffer was given back, or was not.
pub open spec fn woken_if(lines: Lines, resource: Resource, released: bool) -> (
    Lines,
    Option<Waiter>,
) {
    if released {
        lines.wake(resource)
    } else {
        (lines, None)
    }
}

impl<S> Wired<S> {
    pub open spec fn with_received(self, received: Received) -> Wired<S> {
        Wired { state: StateView { link: self.state.link, received }, ..self }
    }

    /// With `out` in place of the connection's own outbound buffer.
    pub open spec fn lend(self, out: Option<Contents>) -> Wired<S> {
        Wired { state: self.state.with_link(self.state.link.lend(out)), ..self }
    }
}

/// What reserving comes to, given whether a receive buffer and a send buffer could
/// be acquired where one was needed.
pub open spec fn reserves<S>(
    before: Wired<S>,
    send: Option<Contents>,
    lines: Lines,
    recv_acquired: bool,
    send_acquired: bool,
) -> (Wired<S>, Option<Contents>, Lines, Result<Transaction, Blocked>) {
    let handshaking = before.state.link.core.phase == Phase::Handshaking;
    let received = before.state.received.buffered(recv_acquired);
    let buffer = send_buffered(send, before.state.link.core, send_acquired);
    if handshaking && before.inflight {
        (
            before,
            send,
            lines,
            Err(Blocked { resource: Resource::HandshakeEgress, woken: None }),
        )
    } else if received.recv is None {
        (before, send, lines, Err(Blocked { resource: Resource::Recv, woken: None }))
    } else if !handshaking {
        (
            before.with_received(received),
            send,
            lines,
            Ok(Transaction::Established(Established)),
        )
    } else if buffer is None {
        let (rest, woken) = woken_if(lines, Resource::Recv, gives_back(received));
        (
            before.with_received(emptied(received)),
            send,
            rest,
            Err(Blocked { resource: Resource::HandshakeEgress, woken }),
        )
    } else {
        (
            before.with_received(received).lend(buffer),
            before.state.link.core.pending,
            lines,
            Ok(Transaction::Handshake(Handshake)),
        )
    }
}

/// What ending a reservation comes to.
pub open spec fn ends<S>(
    transaction: Transaction,
    before: Wired<S>,
    send: Option<Contents>,
    lines: Lines,
) -> (Wired<S>, Option<Contents>, Lines, Woken) {
    let received = before.state.received;
    let (rest, recv) = woken_if(lines, Resource::Recv, gives_back(received));
    match transaction {
        Transaction::Established(_) => (
            before.with_received(emptied(received)),
            send,
            rest,
            Woken { recv, handshake_egress: None },
        ),
        Transaction::Handshake(_) => {
            let buffer = before.state.link.core.pending;
            let empty = buffer is Some && events::bytes_of(buffer).len() == 0;
            let (last, handshake_egress) = woken_if(rest, Resource::HandshakeEgress, empty);
            (
                before.with_received(emptied(received)).lend(send),
                if empty {
                    None
                } else {
                    buffer
                },
                last,
                Woken { recv, handshake_egress },
            )
        },
    }
}

impl<S: Peer> Policy<S> {
    /// Reserves what receiving on a connection takes. During the handshake that
    /// includes a send buffer, which is lent to the connection to answer into.
    pub fn reserve<'d>(
        wire: &mut Connection<'d, S>,
        send: &mut SendState<'d>,
        waiters: &mut Queue,
    ) -> (result: Result<Transaction, Blocked>)
        requires
            old(waiters).wf(),
        ensures
            final(waiters).wf(),
            exists|recv_acquired: bool, send_acquired: bool|
                #![trigger reserves(
                    old(wire)@,
                    events::contents(old(send).buffer),
                    old(waiters)@,
                    recv_acquired,
                    send_acquired,
                )]
                (
                    final(wire)@,
                    events::contents(final(send).buffer),
                    final(waiters)@,
                    result,
                ) == reserves(
                    old(wire)@,
                    events::contents(old(send).buffer),
                    old(waiters)@,
                    recv_acquired,
                    send_acquired,
                ),
            match result {
                Ok(_) => true,
                Err(Blocked { resource: Resource::Recv, .. }) => buffer::pool_lacks(
                    *old(wire).state.tls.buffers.pool,
                ),
                Err(Blocked { resource: Resource::HandshakeEgress, .. }) => old(wire).send_inflight
                    || buffer::pool_lacks(*old(wire).state.tls.record.events.pool),
            },
    {
        let ghost before = wire@;
        let ghost out = events::contents(send.buffer);
        let ghost lines = waiters@;
        let handshaking = wire.state.tls.is_handshaking();
        if handshaking && wire.send_inflight {
            assert(reserves(before, out, lines, false, false).0 == before);
            return Err(Blocked { resource: Resource::HandshakeEgress, woken: None });
        }
        let ready = wire.state.tls.buffers.reserve_recv();
        let ghost received = before.state.received.buffered(ready);
        assert(wire@.state.received == received);
        if !ready {
            assert(wire@ == before);
            assert(reserves(before, out, lines, false, false).0 == before);
            return Err(Blocked { resource: Resource::Recv, woken: None });
        }
        if !handshaking {
            assert(reserves(before, out, lines, true, false).0 == wire@);
            return Ok(Transaction::Established(Established));
        }
        let lent = send.reserve(wire.state.tls.record.events.pool);
        if !lent {
            let released = wire.state.tls.buffers.release_recv_if_empty();
            let woken = if released {
                waiters.wake(Resource::Recv)
            } else {
                None
            };
            assert(reserves(before, out, lines, true, false).0 == wire@);
            return Err(Blocked { resource: Resource::HandshakeEgress, woken });
        }
        wire.state.tls.swap_pending_buffer(&mut send.buffer);
        assert(reserves(before, out, lines, true, true).0 == wire@);
        Ok(Transaction::Handshake(Handshake))
    }

    /// Ends a reservation: the buffers change back, and empty ones are given back.
    pub fn finish<'d>(
        transaction: Transaction,
        wire: &mut Connection<'d, S>,
        send: &mut SendState<'d>,
        waiters: &mut Queue,
    ) -> (woken: Woken)
        requires
            old(waiters).wf(),
        ensures
            final(waiters).wf(),
            (
                final(wire)@,
                events::contents(final(send).buffer),
                final(waiters)@,
                woken,
            ) == ends(
                transaction,
                old(wire)@,
                events::contents(old(send).buffer),
                old(waiters)@,
            ),
    {
        match transaction {
            Transaction::Handshake(_) => {
                wire.state.tls.swap_pending_buffer(&mut send.buffer);
                let recv_released = wire.state.tls.buffers.release_recv_if_empty();
                let send_released = send.release_if_empty();
                let recv = if recv_released {
                    waiters.wake(Resource::Recv)
                } else {
                    None
                };
                let handshake_egress = match send_released {
                    Availability::Released => waiters.wake(Resource::HandshakeEgress),
                    Availability::Unchanged => None,
                };
                Woken { recv, handshake_egress }
            },
            Transaction::Established(_) => {
                let released = wire.state.tls.buffers.release_recv_if_empty();
                let recv = if released {
                    waiters.wake(Resource::Recv)
                } else {
                    None
                };
                Woken { recv, handshake_egress: None }
            },
        }
    }

    /// A connection no longer waits.
    pub fn cancel(waiters: &mut Queue, target: Waiter)
        requires
            old(waiters).wf(),
        ensures
            final(waiters).wf(),
            final(waiters)@ == old(waiters)@.cancel(target),
    {
        let _ = waiters.cancel(target);
    }

    /// A receive buffer has become free.
    pub fn recv_released(waiters: &mut Queue) -> (woken: Option<Waiter>)
        requires
            old(waiters).wf(),
        ensures
            final(waiters).wf(),
            (final(waiters)@, woken) == old(waiters)@.wake(Resource::Recv),
    {
        waiters.wake(Resource::Recv)
    }

    /// A send buffer has become free.
    pub fn send_released(waiters: &mut Queue) -> (woken: Option<Waiter>)
        requires
            old(waiters).wf(),
        ensures
            final(waiters).wf(),
            (final(waiters)@, woken) == old(waiters)@.wake(Resource::HandshakeEgress),
    {
        waiters.wake(Resource::HandshakeEgress)
    }
}

/// A refused reservation changes nothing of a connection but for an empty receive
/// buffer, which is given back: the bytes that were there are there still.
pub proof fn refused_reservation_keeps_bytes<S>(
    before: Wired<S>,
    send: Option<Contents>,
    lines: Lines,
    recv_acquired: bool,
    send_acquired: bool,
)
    requires
        reserves(before, send, lines, recv_acquired, send_acquired).3 is Err,
    ensures
        ({
            let (after, left, _, _) = reserves(before, send, lines, recv_acquired, send_acquired);
            &&& after.state.link == before.state.link
            &&& after.state.received.bytes() == before.state.received.bytes()
            &&& left == send
            &&& after.close == before.close
            &&& after.close_notify_sent == before.close_notify_sent
            &&& after.inflight == before.inflight
        }),
{
}

/// A reservation that is ended at once leaves every byte where it was.
pub proof fn ending_undoes_reserving<S>(
    before: Wired<S>,
    send: Option<Contents>,
    lines: Lines,
    recv_acquired: bool,
    send_acquired: bool,
)
    requires
        reserves(before, send, lines, recv_acquired, send_acquired).3 is Ok,
    ensures
        ({
            let (mid, lent, waiting, outcome) = reserves(
                before,
                send,
                lines,
                recv_acquired,
                send_acquired,
            );
            let (after, left, _, _) = ends(outcome->Ok_0, mid, lent, waiting);
            &&& after.state.link == before.state.link
            &&& after.state.received.bytes() == before.state.received.bytes()
            &&& events::bytes_of(left) == events::bytes_of(send)
            &&& after.close == before.close
            &&& after.close_notify_sent == before.close_notify_sent
            &&& after.inflight == before.inflight
        }),
{
    let (mid, lent, waiting, outcome) = reserves(before, send, lines, recv_acquired, send_acquired);
    let (after, left, _, _) = ends(outcome->Ok_0, mid, lent, waiting);
    assert(after.state.received.bytes() =~= before.state.received.bytes());
    assert(events::bytes_of(left) =~= events::bytes_of(send));
}

} // verus!
