//! Connections that wait for a buffer.

use o3::collections::queue::slot::Fifo;
use vstd::prelude::*;

verus! {

#[verifier::external_type_specification]
#[verifier::external_body]
#[verifier::reject_recursive_types(T)]
pub struct ExFifo<T>(Fifo<T>);

/// The entries of a slot queue, first to last, each with its slot.
pub uninterp spec fn queued(queue: Fifo<u64>) -> Seq<(usize, u64)>;

/// How many slots a slot queue has.
pub uninterp spec fn slots(queue: Fifo<u64>) -> nat;

/// `Fifo::with_capacity`: an empty queue. More slots than fit in 32 bits make it
/// panic.
#[verifier::external_body]
fn with_slots(capacity: usize) -> (queue: Fifo<u64>)
    requires
        capacity <= u32::MAX,
    ensures
        queued(queue) == Seq::<(usize, u64)>::empty(),
        slots(queue) == capacity,
{
    Fifo::with_capacity(capacity)
}

/// `Fifo::vacant_entry`: whether there is such a slot and nothing in it.
#[verifier::external_body]
fn is_vacant(queue: &mut Fifo<u64>, index: usize) -> (vacant: bool)
    ensures
        vacant == (index < slots(*old(queue)) && !taken(queued(*old(queue)), index)),
        queued(*final(queue)) == queued(*old(queue)),
        slots(*final(queue)) == slots(*old(queue)),
{
    queue.vacant_entry(index).is_some()
}

/// `Fifo::push_back`: enters `value` behind all others if its slot is there and
/// vacant, and changes nothing otherwise.
#[verifier::external_body]
fn push_back(queue: &mut Fifo<u64>, index: usize, value: u64) -> (done: bool)
    ensures
        done == (index < slots(*old(queue)) && !taken(queued(*old(queue)), index)),
        queued(*final(queue)) == if done {
            queued(*old(queue)).push((index, value))
        } else {
            queued(*old(queue))
        },
        slots(*final(queue)) == slots(*old(queue)),
{
    queue.push_back(index, value).is_ok()
}

/// `Fifo::pop_front_key_value`: takes the first entry out, with its slot.
#[verifier::external_body]
fn pop_front(queue: &mut Fifo<u64>) -> (first: Option<(usize, u64)>)
    ensures
        match first {
            Some(first) => queued(*old(queue)).len() > 0 && first == queued(*old(queue))[0]
                && queued(*final(queue)) == queued(*old(queue)).skip(1),
            None => queued(*old(queue)).len() == 0 && queued(*final(queue)) == queued(*old(queue)),
        },
        slots(*final(queue)) == slots(*old(queue)),
{
    queue.pop_front_key_value()
}

/// `Fifo::remove_if`: takes the entry of a slot out if it is `value`. A slot has
/// one entry at most, and the others keep their order.
#[verifier::external_body]
fn remove_value(queue: &mut Fifo<u64>, index: usize, value: u64) -> (removed: bool)
    ensures
        removed == queued(*old(queue)).contains((index, value)),
        queued(*final(queue)) == queued(*old(queue)).filter(
            |entry: (usize, u64)| entry != (index, value),
        ),
        slots(*final(queue)) == slots(*old(queue)),
{
    queue.remove_if(index, |held| is_same(held, value)).is_some()
}

fn is_same(held: &u64, value: u64) -> (same: bool)
    ensures
        same == (*held == value),
{
    *held == value
}

/// Whether a slot has an entry.
pub open spec fn taken(entries: Seq<(usize, u64)>, index: usize) -> bool {
    exists|i: int| 0 <= i < entries.len() && #[trigger] entries[i].0 == index
}

/// What a connection can wait for.
#[derive(Clone, Copy, PartialEq, Eq, Structural)]
pub enum Resource {
    Recv,
    HandshakeEgress,
}

/// A connection that waits: the slot that it has, and which of the connections
/// that had the slot one after the other it is.
#[derive(Clone, Copy, PartialEq, Eq, Structural)]
pub struct Waiter {
    pub index: usize,
    pub id: u64,
}

/// Where a waiter was taken out of line.
#[derive(Clone, Copy, PartialEq, Eq, Structural)]
pub struct Cancelled {
    pub recv: bool,
    pub handshake_egress: bool,
}

/// The connections that wait for a receive buffer, and those that wait for a send
/// buffer to shake hands with, each in the order in which they came.
pub struct Queue {
    recv: Fifo<u64>,
    handshake_egress: Fifo<u64>,
}

/// Two lines of waiters, by who is in them.
#[verifier::ext_equal]
pub struct Lines {
    pub recv: Seq<(usize, u64)>,
    pub handshake_egress: Seq<(usize, u64)>,
    pub capacity: nat,
}

impl Lines {
    pub open spec fn of(self, resource: Resource) -> Seq<(usize, u64)> {
        match resource {
            Resource::Recv => self.recv,
            Resource::HandshakeEgress => self.handshake_egress,
        }
    }

    pub open spec fn with(self, resource: Resource, line: Seq<(usize, u64)>) -> Lines {
        match resource {
            Resource::Recv => Lines { recv: line, ..self },
            Resource::HandshakeEgress => Lines { handshake_egress: line, ..self },
        }
    }

    /// Whether there is such a slot and no waiter of it in the line.
    pub open spec fn vacant(self, resource: Resource, index: usize) -> bool {
        index < self.capacity && !taken(self.of(resource), index)
    }

    /// With a waiter at the end of a line.
    pub open spec fn enter(self, resource: Resource, waiter: Waiter) -> Lines {
        self.with(resource, self.of(resource).push((waiter.index, waiter.id)))
    }

    /// The waiter whose turn is next, and the lines without it.
    pub open spec fn wake(self, resource: Resource) -> (Lines, Option<Waiter>) {
        let line = self.of(resource);
        if line.len() == 0 {
            (self, None)
        } else {
            (
                self.with(resource, line.skip(1)),
                Some(Waiter { index: line[0].0, id: line[0].1 }),
            )
        }
    }

    /// Without a waiter, in either line.
    pub open spec fn cancel(self, waiter: Waiter) -> Lines {
        Lines {
            recv: without(self.recv, waiter),
            handshake_egress: without(self.handshake_egress, waiter),
            capacity: self.capacity,
        }
    }
}

/// A line without a waiter.
pub open spec fn without(line: Seq<(usize, u64)>, waiter: Waiter) -> Seq<(usize, u64)> {
    line.filter(|entry: (usize, u64)| entry != (waiter.index, waiter.id))
}

impl View for Queue {
    type V = Lines;

    closed spec fn view(&self) -> Lines {
        Lines {
            recv: queued(self.recv),
            handshake_egress: queued(self.handshake_egress),
            capacity: slots(self.recv),
        }
    }
}

impl Queue {
    /// That both lines have the same slots.
    pub closed spec fn wf(self) -> bool {
        slots(self.recv) == slots(self.handshake_egress)
    }

    /// Two empty lines.
    pub fn with_capacity(capacity: usize) -> (queue: Self)
        requires
            capacity <= u32::MAX,
        ensures
            queue.wf(),
            queue@ == (Lines {
                recv: Seq::empty(),
                handshake_egress: Seq::empty(),
                capacity: capacity as nat,
            }),
    {
        Queue { recv: with_slots(capacity), handshake_egress: with_slots(capacity) }
    }

    /// Whether a waiter of this slot could enter a line.
    pub fn is_vacant(&mut self, resource: Resource, index: usize) -> (vacant: bool)
        requires
            old(self).wf(),
        ensures
            final(self).wf(),
            final(self)@ == old(self)@,
            vacant == old(self)@.vacant(resource, index),
    {
        match resource {
            Resource::Recv => is_vacant(&mut self.recv, index),
            Resource::HandshakeEgress => is_vacant(&mut self.handshake_egress, index),
        }
    }

    /// Enters a waiter at the end of a line, unless its slot is in it already.
    pub fn register(&mut self, resource: Resource, waiter: Waiter) -> (done: bool)
        requires
            old(self).wf(),
        ensures
            final(self).wf(),
            done == old(self)@.vacant(resource, waiter.index),
            final(self)@ == if done {
                old(self)@.enter(resource, waiter)
            } else {
                old(self)@
            },
    {
        match resource {
            Resource::Recv => push_back(&mut self.recv, waiter.index, waiter.id),
            Resource::HandshakeEgress => push_back(
                &mut self.handshake_egress,
                waiter.index,
                waiter.id,
            ),
        }
    }

    /// Takes the first waiter out of a line.
    pub fn wake(&mut self, resource: Resource) -> (waiter: Option<Waiter>)
        requires
            old(self).wf(),
        ensures
            final(self).wf(),
            (final(self)@, waiter) == old(self)@.wake(resource),
    {
        let first = match resource {
            Resource::Recv => pop_front(&mut self.recv),
            Resource::HandshakeEgress => pop_front(&mut self.handshake_egress),
        };
        match first {
            Some((index, id)) => Some(Waiter { index, id }),
            None => None,
        }
    }

    /// Takes a waiter out of both lines.
    pub fn cancel(&mut self, target: Waiter) -> (cancelled: Cancelled)
        requires
            old(self).wf(),
        ensures
            final(self).wf(),
            final(self)@ == old(self)@.cancel(target),
            cancelled.recv == old(self)@.recv.contains((target.index, target.id)),
            cancelled.handshake_egress == old(self)@.handshake_egress.contains(
                (target.index, target.id),
            ),
    {
        let recv = remove_value(&mut self.recv, target.index, target.id);
        let handshake_egress = remove_value(&mut self.handshake_egress, target.index, target.id);
        Cancelled { recv, handshake_egress }
    }
}

/// A registration that is taken back leaves both lines as they were without the
/// waiter.
pub proof fn cancelling_undoes_registering(lines: Lines, resource: Resource, waiter: Waiter)
    ensures
        lines.enter(resource, waiter).cancel(waiter) == lines.cancel(waiter),
{
    let line = lines.of(resource);
    let keep = |entry: (usize, u64)| entry != (waiter.index, waiter.id);
    assert(line.push((waiter.index, waiter.id)).filter(keep) == line.filter(keep)) by {
        reveal(Seq::filter);
        assert(line.push((waiter.index, waiter.id)).drop_last() =~= line);
    }
    assert(lines.enter(resource, waiter).cancel(waiter) =~= lines.cancel(waiter));
}

/// Whoever was in line before is still in front after another has come, and is
/// woken first.
pub proof fn first_come_first_woken(lines: Lines, resource: Resource, waiter: Waiter)
    requires
        lines.of(resource).len() > 0,
    ensures
        lines.enter(resource, waiter).wake(resource).1 == lines.wake(resource).1,
        lines.enter(resource, waiter).wake(resource).0 == lines.wake(resource).0.enter(
            resource,
            waiter,
        ),
{
    let line = lines.of(resource);
    let entry = (waiter.index, waiter.id);
    assert(line.push(entry).skip(1) =~= line.skip(1).push(entry));
}

} // verus!
