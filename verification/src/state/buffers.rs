//! Bytes that have come in and wait for the rest of their record.

use crate::buffer::{self, Contents, Cursor, Pool};
use crate::state::events;
use o3::buffer::bytes::{Bytes, Pooled};
use vstd::prelude::*;

verus! {

/// No room for more received bytes.
pub struct ReceiveOverflow;

/// The receive buffer of a connection, leased only while it holds something.
pub struct Buffers<'d> {
    pub recv: Option<Cursor<'d>>,
    pub pool: &'d Pool,
}

/// The receive buffer, by what it holds. `slot` is the capacity that a buffer
/// would have, and `lacks` whether the pool can be without a free one.
#[verifier::ext_equal]
pub struct Received {
    pub recv: Option<Contents>,
    pub slot: nat,
    pub lacks: bool,
}

impl View for Buffers<'_> {
    type V = Received;

    open spec fn view(&self) -> Received {
        Received {
            recv: events::contents(self.recv),
            slot: buffer::pool_capacity(*self.pool),
            lacks: buffer::pool_lacks(*self.pool),
        }
    }
}

impl Received {
    /// The bytes that wait.
    pub open spec fn bytes(self) -> Seq<u8> {
        events::bytes_of(self.recv)
    }

    /// With a buffer, if there was one or one could be `acquired`. A pool that is
    /// never without a free one always gives it.
    pub open spec fn buffered(self, acquired: bool) -> Received {
        if self.recv is None && (acquired || !self.lacks) {
            Received {
                recv: Some(Contents { bytes: Seq::empty(), capacity: self.slot }),
                ..self
            }
        } else {
            self
        }
    }

    /// With other bytes in the same buffer.
    pub open spec fn holding(self, bytes: Seq<u8>) -> Received {
        Received {
            recv: match self.recv {
                Some(buffer) => Some(Contents { bytes, capacity: buffer.capacity }),
                None => None,
            },
            ..self
        }
    }

    /// After as much of `more` was taken in as there was room for. Gives how much
    /// that was, or nothing where no buffer was to be had.
    pub open spec fn append(self, more: Seq<u8>, acquired: bool) -> (Received, Option<nat>) {
        let ready = self.buffered(acquired);
        if more.len() == 0 {
            (self, Some(0))
        } else {
            match ready.recv {
                None => (ready, None),
                Some(buffer) => {
                    let take = if more.len() <= buffer.spare() {
                        more.len() as int
                    } else if buffer.spare() > 0 {
                        buffer.spare()
                    } else {
                        0
                    };
                    (
                        Received {
                            recv: Some(buffer.extend(more.take(take))),
                            ..self
                        },
                        Some(take as nat),
                    )
                },
            }
        }
    }

    /// After the first `count` bytes were dealt with. An empty buffer goes back.
    pub open spec fn consume(self, count: int) -> Received {
        match self.recv {
            None => self,
            Some(buffer) => Received {
                recv: if count == buffer.bytes.len() {
                    None
                } else {
                    Some(buffer.skip(count))
                },
                ..self
            },
        }
    }
}

impl<'d> Buffers<'d> {
    pub fn pooled(pool: &'d Pool) -> (buffers: Self)
        ensures
            buffers@ == (Received {
                recv: None,
                slot: buffer::pool_capacity(*pool),
                lacks: buffer::pool_lacks(*pool),
            }),
    {
        Buffers { recv: None, pool }
    }

    /// Takes in as much of `bytes` as there is room for.
    pub fn append_recv(&mut self, bytes: &[u8]) -> (taken: Result<usize, ReceiveOverflow>)
        ensures
            exists|acquired: bool|
                {
                    let (after, expected) = #[trigger] old(self)@.append(bytes@, acquired);
                    &&& final(self)@ == after
                    &&& match (taken, expected) {
                        (Ok(count), Some(total)) => count == total && count <= bytes@.len(),
                        (Err(_), None) => true,
                        _ => false,
                    }
                },
    {
        if bytes.len() == 0 {
            assert(old(self)@.append(bytes@, true) == (self@, Some(0nat)));
            return Ok(0);
        }
        let ready = events::reserve(&mut self.recv, self.pool);
        let ghost mid = self@;
        assert(mid == old(self)@.buffered(ready));
        match &mut self.recv {
            None => {
                assert(old(self)@.append(bytes@, ready).1 is None);
                Err(ReceiveOverflow)
            },
            Some(recv) => {
                let spare: usize = recv.spare_capacity();
                let take: usize = if bytes.len() <= spare {
                    bytes.len()
                } else {
                    spare
                };
                let chunk = vstd::slice::slice_subrange(bytes, 0, take);
                assert(chunk@ =~= bytes@.take(take as int));
                let done = recv.try_extend(chunk);
                assert(done);
                assert(old(self)@.append(bytes@, ready).1 == Some(take as nat));
                Ok(take)
            },
        }
    }

    /// The bytes that wait.
    pub fn recv(&self) -> (bytes: &[u8])
        ensures
            bytes@ == self@.bytes(),
    {
        match &self.recv {
            Some(recv) => recv.as_slice(),
            None => &[],
        }
    }

    /// Drops `count` bytes, if there are so many.
    pub fn try_consume_recv(&mut self, count: usize) -> (done: bool)
        ensures
            done <==> count <= old(self)@.bytes().len(),
            final(self)@ == if done {
                old(self)@.consume(count as int)
            } else {
                old(self)@
            },
    {
        let empty = match &mut self.recv {
            None => return count == 0,
            Some(recv) => {
                if !recv.try_consume(count) {
                    return false;
                }
                recv.len() == 0
            },
        };
        if empty {
            self.recv = None;
        }
        true
    }

    /// Gives the buffer up for the part `start..end` of what it holds.
    pub fn take_recv_range(&mut self, start: usize, end: usize) -> (chunk: Option<
        Bytes<Pooled<'d>>,
    >)
        ensures
            final(self)@ == (Received { recv: None, ..old(self)@ }),
            chunk is Some <==> old(self)@.recv is Some && start <= end
                <= old(self)@.bytes().len(),
            chunk is Some ==> buffer::chunk_bytes(chunk->0) == old(self)@.bytes().subrange(
                start as int,
                end as int,
            ),
    {
        match self.recv.take() {
            Some(recv) => buffer::chunk_range(recv.freeze(), start, end),
            None => None,
        }
    }

    /// Sees to it that there is a buffer. Says whether there is.
    pub fn reserve_recv(&mut self) -> (ready: bool)
        ensures
            final(self)@ == old(self)@.buffered(ready),
            ready == (final(self)@.recv is Some),
            !ready ==> buffer::pool_lacks(*old(self).pool),
    {
        events::reserve(&mut self.recv, self.pool)
    }

    /// Gives an empty buffer back. Says whether it did.
    pub fn release_recv_if_empty(&mut self) -> (released: bool)
        ensures
            released == (old(self)@.recv is Some && old(self)@.bytes().len() == 0),
            final(self)@ == if released {
                Received { recv: None, ..old(self)@ }
            } else {
                old(self)@
            },
    {
        let empty = match &self.recv {
            Some(recv) => recv.len() == 0,
            None => false,
        };
        if empty {
            self.recv = None;
        }
        empty
    }
}

} // verus!
