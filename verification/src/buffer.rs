//! Pooled byte buffers.
//!
//! The buffers themselves are those of `o3`. A buffer is seen here as the bytes
//! that it holds and the capacity that it was made with.

use o3::buffer::bytes::{Bytes, Pooled as PoolStorage};
use o3::buffer::pool::{BorrowedCursor, LayoutError};
use o3::buffer::PrefixConsumer;
use vstd::prelude::*;

verus! {

/// A byte cursor leased from a pool, readable from the front and written at the
/// back.
#[verifier::external_body]
pub struct Cursor<'d>(pub(crate) BorrowedCursor<'d>);

/// A fixed set of equally sized buffers.
#[verifier::external_body]
pub struct Pool(o3::buffer::Pool);

#[verifier::external_type_specification]
#[verifier::external_body]
#[verifier::reject_recursive_types(S)]
pub struct ExBytes<S>(Bytes<S>);

#[verifier::external_type_specification]
#[verifier::external_body]
pub struct ExPoolStorage<'pool>(PoolStorage<'pool>);

#[verifier::external_type_specification]
pub struct ExLayoutError(LayoutError);

/// A buffer by its contents: the readable bytes, and how many can be held at
/// once.
#[verifier::ext_equal]
pub struct Contents {
    pub bytes: Seq<u8>,
    pub capacity: nat,
}

impl Contents {
    /// How many more bytes fit.
    pub open spec fn spare(self) -> int {
        self.capacity - self.bytes.len()
    }

    /// The buffer after `more` was written to its back.
    pub open spec fn extend(self, more: Seq<u8>) -> Contents {
        Contents { bytes: self.bytes + more, capacity: self.capacity }
    }

    /// The buffer after `count` bytes were read off its front.
    pub open spec fn skip(self, count: int) -> Contents {
        Contents { bytes: self.bytes.skip(count), capacity: self.capacity }
    }
}

/// The readable bytes of a cursor.
pub uninterp spec fn cursor_bytes(cursor: Cursor<'_>) -> Seq<u8>;

/// The capacity of the slot that a cursor leases.
pub uninterp spec fn cursor_capacity(cursor: Cursor<'_>) -> nat;

/// The capacity of each slot of a pool.
pub uninterp spec fn pool_capacity(pool: Pool) -> nat;

/// How many slots a pool has.
pub uninterp spec fn pool_slots(pool: Pool) -> nat;

/// That a pool can be found without a free slot.
pub uninterp spec fn pool_lacks(pool: Pool) -> bool;

/// That so many slots of a pool can be found free.
pub uninterp spec fn pool_frees(pool: Pool, count: nat) -> bool;

/// That `o3::buffer::Pool::try_new` finds so many slots of such a capacity too large.
pub uninterp spec fn pool_oversized(slots: nat, capacity: nat) -> bool;

/// Whether slots of such a capacity, and what comes with each and with all of them, may
/// not fit into one allocation.
pub open spec fn pool_large(slots: nat, capacity: nat) -> bool {
    capacity > u32::MAX || slots * (capacity + 64) + 4096 > isize::MAX
}

/// Why no pool can be made of so many slots of such a capacity, where that is so.
pub open spec fn pool_refusal(slots: nat, capacity: nat) -> Option<LayoutError> {
    if slots > u32::MAX {
        Some(LayoutError::SlotOverflow)
    } else if capacity == 0 {
        Some(LayoutError::ZeroCapacity)
    } else if pool_oversized(slots, capacity) && pool_large(slots, capacity) {
        Some(LayoutError::CapacityOverflow)
    } else {
        None
    }
}

/// The bytes of a frozen chunk.
pub uninterp spec fn chunk_bytes(chunk: Bytes<PoolStorage<'_>>) -> Seq<u8>;

impl View for Cursor<'_> {
    type V = Contents;

    open spec fn view(&self) -> Contents {
        Contents { bytes: cursor_bytes(*self), capacity: cursor_capacity(*self) }
    }
}

impl<'d> Cursor<'d> {
    /// `o3::buffer::pool::Cursor::len`: how many bytes are readable.
    #[verifier::external_body]
    pub(crate) fn len(&self) -> (count: usize)
        ensures
            count == cursor_bytes(*self).len(),
    {
        self.0.len()
    }

    /// `o3::buffer::pool::Cursor::spare_capacity`: how many more bytes fit. The
    /// readable bytes never outgrow the capacity.
    #[verifier::external_body]
    pub(crate) fn spare_capacity(&self) -> (count: usize)
        ensures
            count == cursor_capacity(*self) - cursor_bytes(*self).len(),
    {
        self.0.spare_capacity()
    }

    /// `o3::buffer::pool::Cursor::as_slice`: the readable bytes.
    #[verifier::external_body]
    pub(crate) fn as_slice(&self) -> (bytes: &[u8])
        ensures
            bytes@ == cursor_bytes(*self),
    {
        self.0.as_slice()
    }

    /// `o3::buffer::pool::Cursor::as_mut_slice`: the readable bytes, to be
    /// changed in place. What is left in the slice is what the cursor then holds.
    #[verifier::external_body]
    pub(crate) fn as_mut_slice(&mut self) -> (bytes: &mut [u8])
        ensures
            bytes@ == cursor_bytes(*old(self)),
            cursor_bytes(*final(self)) == final(bytes)@,
            cursor_capacity(*final(self)) == cursor_capacity(*old(self)),
    {
        self.0.as_mut_slice()
    }

    /// `o3::buffer::pool::Cursor::try_extend`: appends all of `bytes` if they
    /// fit, and nothing otherwise.
    #[verifier::external_body]
    pub(crate) fn try_extend(&mut self, bytes: &[u8]) -> (done: bool)
        ensures
            done <==> bytes@.len() <= old(self)@.spare(),
            final(self)@ == if done { old(self)@.extend(bytes@) } else { old(self)@ },
    {
        self.0.try_extend(bytes).is_ok()
    }

    /// `o3::buffer::PrefixConsumer::try_consume_prefix` and the commit of the
    /// prefix that it validated: drops `count` bytes from the front if there are
    /// so many, and nothing otherwise.
    #[verifier::external_body]
    pub(crate) fn try_consume(&mut self, count: usize) -> (done: bool)
        ensures
            done <==> count <= old(self)@.bytes.len(),
            final(self)@ == if done { old(self)@.skip(count as int) } else { old(self)@ },
    {
        match self.0.try_consume_prefix(count) {
            Ok(prefix) => {
                prefix.commit();
                true
            },
            Err(_) => false,
        }
    }

    /// `o3::buffer::pool::BorrowedCursor::freeze`: the readable bytes as an
    /// immutable chunk.
    #[verifier::external_body]
    pub(crate) fn freeze(self) -> (chunk: Bytes<PoolStorage<'d>>)
        ensures
            chunk_bytes(chunk) == cursor_bytes(self),
    {
        self.0.freeze()
    }
}

impl Pool {
    /// `o3::buffer::Pool::try_new`: a pool of `slots` buffers of `capacity` bytes
    /// each. Slots and capacity have to fit in 32 bits, and the capacity has to be
    /// positive. Beyond that the pool is refused only where its allocation would
    /// be larger than the machine can address: the buffers, a few words for each slot and
    /// a few for the pool. Where exactly that begins is left open.
    #[verifier::external_body]
    pub(crate) fn try_new(slots: usize, capacity: usize) -> (pool: Result<Pool, LayoutError>)
        ensures
            match pool {
                Ok(pool) => pool_capacity(pool) == capacity && pool_slots(pool) == slots && slots
                    <= u32::MAX && 0 < capacity <= u32::MAX && !pool_oversized(
                    slots as nat,
                    capacity as nat,
                ),
                Err(LayoutError::SlotOverflow) => slots > u32::MAX,
                Err(LayoutError::ZeroCapacity) => slots <= u32::MAX && capacity == 0,
                Err(LayoutError::CapacityOverflow) => slots <= u32::MAX && capacity > 0
                    && pool_oversized(slots as nat, capacity as nat) && pool_large(
                    slots as nat,
                    capacity as nat,
                ),
            },
    {
        match o3::buffer::Pool::try_new(slots, capacity) {
            Ok(pool) => Ok(Pool(pool)),
            Err(error) => Err(error),
        }
    }

    /// `o3::buffer::Pool::try_acquire_borrowed_buffer`: an empty buffer, if a slot
    /// is free. Which slots are free is not tracked.
    #[verifier::external_body]
    pub(crate) fn try_acquire(&self) -> (cursor: Option<Cursor<'_>>)
        ensures
            match cursor {
                Some(cursor) => cursor@.bytes == Seq::<u8>::empty() && cursor@.capacity
                    == pool_capacity(*self),
                None => pool_lacks(*self),
            },
    {
        match self.0.try_acquire_borrowed_buffer() {
            Some(cursor) => Some(Cursor(cursor)),
            None => None,
        }
    }

    /// `o3::buffer::Pool::capacity`: the capacity of each slot.
    #[verifier::external_body]
    pub(crate) fn capacity(&self) -> (count: usize)
        ensures
            count == pool_capacity(*self),
    {
        self.0.capacity()
    }

    /// `o3::buffer::Pool::available`: how many slots are free at the moment. Which
    /// these are is not tracked, but there are never more than the pool has.
    #[verifier::external_body]
    pub(crate) fn available(&self) -> (count: usize)
        ensures
            pool_frees(*self, count as nat),
            count <= pool_slots(*self),
    {
        self.0.available()
    }
}

/// `o3::buffer::bytes::Bytes::get`: the part `start..end` of a chunk, if it lies
/// within the chunk.
#[verifier::external_body]
pub(crate) fn chunk_range(
    chunk: Bytes<PoolStorage<'_>>,
    start: usize,
    end: usize,
) -> (part: Option<Bytes<PoolStorage<'_>>>)
    ensures
        part is Some <==> start <= end <= chunk_bytes(chunk).len(),
        part is Some ==> chunk_bytes(part->0) == chunk_bytes(chunk).subrange(
            start as int,
            end as int,
        ),
{
    chunk.get(start..end)
}

/// `o3::buffer::bytes::Bytes::try_advance`: drops `count` bytes from the front of a
/// chunk if there are so many, and nothing otherwise.
#[verifier::external_body]
pub(crate) fn chunk_advance(chunk: &mut Bytes<PoolStorage<'_>>, count: usize) -> (done: bool)
    ensures
        done <==> count <= chunk_bytes(*old(chunk)).len(),
        chunk_bytes(*final(chunk)) == if done {
            chunk_bytes(*old(chunk)).skip(count as int)
        } else {
            chunk_bytes(*old(chunk))
        },
{
    chunk.try_advance(count)
}

/// `o3::buffer::bytes::Bytes::as_slice`: the bytes of a chunk.
#[verifier::external_body]
pub(crate) fn chunk_slice<'a>(chunk: &'a Bytes<PoolStorage<'_>>) -> (bytes: &'a [u8])
    ensures
        bytes@ == chunk_bytes(*chunk),
{
    chunk.as_slice()
}

} // verus!
