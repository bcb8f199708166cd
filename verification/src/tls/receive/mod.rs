//! What comes in on a connection.

use crate::buffer;
use crate::state::api::Status;
use crate::state::plain::{self, PlainChunks, PlainCursor, PlainLayout};
use crate::state::sessions::Peer;
use crate::state::status::{PeerClose, Read};
use crate::state::{self, direct, staged, StateView};
use crate::tls::ConnectionState;
use o3::buffer::bytes::{Bytes, Pooled};
use vstd::prelude::*;

pub mod delivery;
pub mod policy;
pub mod waiters;

verus! {

/// How application data is to be handed on: in so many pieces at most, or kept
/// where it is.
#[derive(Clone, Copy, PartialEq, Eq, Structural)]
pub enum Delivery {
    Batch(usize),
    Retained,
}

/// What wire bytes came to: a chunk that was completed in the receive buffer, and
/// the plaintext that stands in the bytes from `plain_offset` on.
pub struct IngressResult<'a, 'd> {
    pub staged: Option<Bytes<Pooled<'d>>>,
    pub plain: Option<PlainChunks<'a>>,
    pub plain_offset: usize,
}

/// A chunk by its bytes.
pub open spec fn chunk_data(chunk: Option<Bytes<Pooled<'_>>>) -> Option<Seq<u8>> {
    match chunk {
        Some(chunk) => Some(buffer::chunk_bytes(chunk)),
        None => None,
    }
}

impl IngressResult<'_, '_> {
    /// The plaintext that stands in the wire bytes, piece by piece.
    pub open spec fn pieces(self) -> Option<Seq<Seq<u8>>> {
        match self.plain {
            Some(plain) => Some(plain.rest()),
            None => None,
        }
    }

    /// That the bookkeeping is right.
    pub open spec fn wf(self) -> bool {
        self.plain matches Some(plain) ==> plain.wf() && plain.fresh()
    }
}

/// That a record which had begun earlier was completed first, if there was one.
/// What follows is read where it stands from `offset` on, unless there is no need.
pub open spec fn completed_first<S: Peer>(
    before: StateView<S>,
    input: Seq<u8>,
    mid: StateView<S>,
    data: Option<Seq<u8>>,
    offset: Option<nat>,
    failed: bool,
) -> bool {
    if before.received.bytes().len() == 0 {
        mid == before && data is None && offset == Some(0nat) && !failed
    } else {
        exists|taken: nat, status: Read| #[trigger]
            staged::read_wire(before, input, mid, taken, data, status) && failed == (status
                == Read::Failed) && offset == if status == Read::Continue && taken < input.len()
                && mid.received.bytes().len() == 0 {
                Some(taken)
            } else {
                None
            }
    }
}

/// How many pieces there is room for beside the completed chunk.
pub open spec fn piece_limit(delivery: Delivery, data: Option<Seq<u8>>) -> Option<int> {
    match delivery {
        Delivery::Retained => None,
        Delivery::Batch(capacity) => Some(
            capacity - if data is Some {
                1int
            } else {
                0int
            },
        ),
    }
}

/// That the wire bytes were then read where they stand, and left as `output`.
pub open spec fn read_rest<S: Peer>(
    mid: StateView<S>,
    rest: Seq<u8>,
    limit: Option<int>,
    after: StateView<S>,
    pieces: Option<Seq<Seq<u8>>>,
    failed: bool,
    output: Seq<u8>,
) -> bool {
    if limit == Some(0int) {
        after == mid && pieces is None && failed && output == rest
    } else {
        exists|found: Seq<Seq<u8>>, status: Read, opened: Seq<u8>| #[trigger]
            direct::read_through(mid, rest, after, found, status, opened) && failed == (status
                == Read::Failed) && pieces == Some(direct::delivered_in(found, limit))
                && plain::repacked(opened, found, limit, output)
    }
}

/// That wire bytes were read in these two stages.
pub open spec fn ingested_by<S: Peer>(
    before: StateView<S>,
    input: Seq<u8>,
    delivery: Delivery,
    mid: StateView<S>,
    offset: Option<nat>,
    first_failed: bool,
    rest_failed: bool,
    after: StateView<S>,
    data: Option<Seq<u8>>,
    pieces: Option<Seq<Seq<u8>>>,
    failed: bool,
    output: Seq<u8>,
) -> bool {
    &&& completed_first(before, input, mid, data, offset, first_failed)
    &&& match offset {
        None => after == mid && pieces is None && !rest_failed && output == input,
        Some(offset) => offset <= input.len() && output.take(offset as int) == input.take(
            offset as int,
        ) && read_rest(
            mid,
            input.skip(offset as int),
            piece_limit(delivery, data),
            after,
            pieces,
            rest_failed,
            output.skip(offset as int),
        ),
    }
    &&& failed == (first_failed || rest_failed)
}

/// Whether a connection ended otherwise than by a close_notify.
pub open spec fn broken<S>(state: StateView<S>) -> bool {
    state::closed(state.link.core.phase) && state.link.close != PeerClose::CloseNotify
}

impl<'d, S: Peer> ConnectionState<'d, S> {
    /// Reads wire bytes. A failure, and an end other than by a close_notify, have
    /// the transport closed.
    pub fn read<'a>(&mut self, bytes: &'a mut [u8], delivery: Delivery) -> (result: IngressResult<
        'a,
        'd,
    >)
        requires
            delivery matches Delivery::Batch(capacity) ==> capacity > 0,
        ensures
            result.wf(),
            exists|
                mid: StateView<S>,
                offset: Option<nat>,
                first_failed: bool,
                rest_failed: bool,
                failed: bool,
            | #[trigger]
                ingested_by(
                    old(self).tls@,
                    old(bytes)@,
                    delivery,
                    mid,
                    offset,
                    first_failed,
                    rest_failed,
                    final(self).tls@,
                    chunk_data(result.staged),
                    result.pieces(),
                    failed,
                    final(bytes)@,
                ) && final(self).close == (old(self).close || failed || broken(final(self).tls@))
                    && result.plain_offset == match offset {
                    Some(offset) => offset,
                    None => 0,
                },
            final(self).close_notify_sent == old(self).close_notify_sent,
            final(bytes)@.len() == old(bytes)@.len(),
            result.plain_offset <= old(bytes)@.len(),
            result.plain matches Some(plain) ==> plain.source() == final(bytes)@.skip(
                result.plain_offset as int,
            ),
    {
        let ghost input = bytes@;
        let ghost before = self.tls@;
        let size: usize = bytes.len();
        let mut staged: Option<Bytes<Pooled<'d>>> = None;
        let mut first_failed: bool = false;
        let offset: Option<usize> = if self.tls.has_staged_recv() {
            let read = self.tls.read_one_wire(&*bytes);
            let consumed: usize = read.consumed();
            let status = read.status();
            let ghost taken = read.taken();
            let ghost data = read.data();
            assert(staged::read_wire(before, input, self.tls@, taken, data, status));
            staged = read.into_chunk();
            match status {
                Read::Continue => {
                    if consumed < size && !self.tls.has_staged_recv() {
                        Some(consumed)
                    } else {
                        None
                    }
                },
                Read::Failed => {
                    first_failed = true;
                    None
                },
                Read::Stop => None,
            }
        } else {
            Some(0)
        };
        let ghost mid = self.tls@;
        let ghost spec_offset = match offset {
            Some(offset) => Some(offset as nat),
            None => None,
        };
        assert(completed_first(
            before,
            input,
            mid,
            chunk_data(staged),
            spec_offset,
            first_failed,
        ));
        let mut rest_failed: bool = false;
        let plain: Option<PlainChunks<'a>> = match offset {
            None => None,
            Some(offset) => {
                let limit: Option<usize> = match delivery {
                    Delivery::Retained => None,
                    Delivery::Batch(capacity) => if staged.is_some() {
                        Some(capacity - 1)
                    } else {
                        Some(capacity)
                    },
                };
                if limit == Some(0) {
                    rest_failed = true;
                    assert(read_rest(
                        mid,
                        input.skip(offset as int),
                        piece_limit(delivery, chunk_data(staged)),
                        self.tls@,
                        None,
                        true,
                        input.skip(offset as int),
                    ));
                    None
                } else {
                    let (_, rest) = bytes.split_at_mut(offset);
                    assert(rest@ =~= input.skip(offset as int));
                    let read = self.tls.read_in_place_with_limit(rest, limit);
                    if read.status() == Read::Failed {
                        rest_failed = true;
                    }
                    let plain = read.into_plain();
                    assert(read_rest(
                        mid,
                        input.skip(offset as int),
                        piece_limit(delivery, chunk_data(staged)),
                        self.tls@,
                        Some(plain.rest()),
                        rest_failed,
                        plain.source(),
                    ));
                    Some(plain)
                }
            },
        };
        let failed = first_failed || rest_failed;
        if failed {
            self.close = true;
        }
        let orderly = match self.tls.peer_close() {
            PeerClose::CloseNotify => true,
            _ => false,
        };
        if self.tls.is_closed() && !orderly {
            self.close = true;
        }
        let plain_offset: usize = match offset {
            Some(offset) => offset,
            None => 0,
        };
        let result = IngressResult { staged, plain, plain_offset };
        let ghost output = if result.plain is Some {
            input.subrange(0, plain_offset as int) + result.plain->0.source()
        } else {
            input
        };
        proof {
            let at = plain_offset as int;
            assert(output.take(at) =~= input.take(at));
            assert(result.plain matches Some(plain) ==> output.skip(at) =~= plain.source());
        }
        assert(ingested_by(
            before,
            input,
            delivery,
            mid,
            spec_offset,
            first_failed,
            rest_failed,
            self.tls@,
            chunk_data(result.staged),
            result.pieces(),
            failed,
            output,
        ));
        result
    }
}

/// One item of a batch.
pub enum RecvChunk<'a, 'd> {
    Owned(Bytes<Pooled<'d>>),
    Borrowed(&'a [u8]),
}

impl RecvChunk<'_, '_> {
    pub open spec fn data(self) -> Seq<u8> {
        match self {
            RecvChunk::Owned(chunk) => buffer::chunk_bytes(chunk),
            RecvChunk::Borrowed(piece) => piece@,
        }
    }
}

/// Application data, piece by piece.
pub struct Batch<'a, 'd> {
    pub owned: Option<Bytes<Pooled<'d>>>,
    pub plain: Option<PlainChunks<'a>>,
}

impl<'a, 'd> Batch<'a, 'd> {
    /// The pieces that are still to come: the completed chunk first.
    pub open spec fn rest(self) -> Seq<Seq<u8>> {
        (match self.owned {
            Some(chunk) => seq![buffer::chunk_bytes(chunk)],
            None => Seq::empty(),
        }) + (match self.plain {
            Some(plain) => plain.rest(),
            None => Seq::empty(),
        })
    }

    /// That the bookkeeping is right.
    pub open spec fn wf(self) -> bool {
        self.plain matches Some(plain) ==> plain.wf()
    }

    /// The next piece.
    pub fn next(&mut self) -> (piece: Option<RecvChunk<'a, 'd>>)
        requires
            old(self).wf(),
        ensures
            final(self).wf(),
            match piece {
                Some(piece) => old(self).rest().len() > 0 && piece.data() == old(self).rest()[0]
                    && final(self).rest() == old(self).rest().skip(1),
                None => old(self).rest().len() == 0 && final(self).rest() == old(self).rest(),
            },
    {
        let ghost before = self.rest();
        match self.owned.take() {
            Some(chunk) => {
                assert(before.skip(1) =~= self.rest());
                Some(RecvChunk::Owned(chunk))
            },
            None => {
                let ghost none = Seq::<Seq<u8>>::empty();
                match &mut self.plain {
                    Some(plain) => {
                        let ghost rest = plain.rest();
                        assert(before =~= none + rest);
                        assert(none + rest =~= rest);
                        let piece = plain.next();
                        let ghost left = plain.rest();
                        assert(none + left =~= left);
                        match piece {
                            Some(piece) => Some(RecvChunk::Borrowed(piece)),
                            None => None,
                        }
                    },
                    None => None,
                }
            },
        }
    }

    /// How many pieces are still to come.
    pub fn len(&self) -> (count: usize)
        requires
            self.wf(),
            self.rest().len() <= usize::MAX,
        ensures
            count == self.rest().len(),
    {
        let pieces: usize = match &self.plain {
            Some(plain) => plain.len(),
            None => 0,
        };
        if self.owned.is_some() {
            pieces + 1
        } else {
            pieces
        }
    }
}

impl<'a, 'd> IngressResult<'a, 'd> {
    /// The application data, piece by piece.
    pub fn into_batch(self) -> (batch: Batch<'a, 'd>)
        requires
            self.wf(),
        ensures
            batch.wf(),
            batch.owned == self.staged,
            batch.plain == self.plain,
    {
        Batch { owned: self.staged, plain: self.plain }
    }

    /// The application data, to be read where it stands once the wire bytes are
    /// free again.
    pub fn retain(self) -> (result: RetainedResult<'d>)
        requires
            self.wf(),
        ensures
            result.staged == self.staged,
            result.plain_offset == self.plain_offset,
            match self.plain {
                Some(plain) => result.layout matches Some(layout) && layout.describes(
                    plain.source(),
                ) && layout.pieces(plain.source()) == plain.rest(),
                None => result.layout is None,
            },
    {
        let layout = match self.plain {
            Some(plain) => Some(plain.into_layout()),
            None => None,
        };
        RetainedResult { staged: self.staged, layout, plain_offset: self.plain_offset }
    }
}

/// A completed chunk, and where application data stands in wire bytes.
pub struct RetainedResult<'d> {
    pub staged: Option<Bytes<Pooled<'d>>>,
    pub layout: Option<PlainLayout>,
    pub plain_offset: usize,
}

impl<'d> RetainedResult<'d> {
    /// That this result is about these wire bytes.
    pub open spec fn describes(self, bytes: Seq<u8>) -> bool {
        self.layout matches Some(layout) ==> self.plain_offset <= bytes.len() && layout.describes(
            bytes.skip(self.plain_offset as int),
        )
    }

    /// The application data.
    pub open spec fn data(self, bytes: Seq<u8>) -> Seq<u8> {
        (match self.staged {
            Some(chunk) => buffer::chunk_bytes(chunk),
            None => Seq::empty(),
        }) + (match self.layout {
            Some(layout) => plain::whole(layout.pieces(bytes.skip(self.plain_offset as int))),
            None => Seq::empty(),
        })
    }

    /// A reader of the application data, if there is any. It reads the completed chunk
    /// and the wire bytes from `plain_offset` on.
    pub fn into_cursor(self, bytes: &[u8]) -> (retained: Option<Retained<'d>>)
        requires
            self.describes(bytes@),
            self.data(bytes@).len() <= usize::MAX,
        ensures
            ({
                let plain = bytes@.skip(self.plain_offset as int);
                match retained {
                    Some(retained) => retained.reads(plain) && retained.rest(plain) == self.data(
                        bytes@,
                    ) && retained.rest(plain).len() > 0,
                    None => self.data(bytes@).len() == 0,
                }
            }),
    {
        let ghost plain = bytes@.skip(self.plain_offset as int);
        let provided: Option<PlainCursor> = match self.layout {
            Some(layout) => if layout.plain_len() != 0 {
                assert(layout.describes(plain));
                Some(layout.cursor())
            } else {
                assert(layout.describes(plain));
                None
            },
            None => None,
        };
        let staged_len: usize = match &self.staged {
            Some(chunk) => buffer::chunk_slice(chunk).len(),
            None => 0,
        };
        let provided_len: usize = match &provided {
            Some(cursor) => {
                assert(cursor.reads(plain));
                cursor.remaining()
            },
            None => 0,
        };
        let staged = if staged_len == 0 {
            None
        } else {
            self.staged
        };
        let remaining: usize = staged_len + provided_len;
        if remaining == 0 {
            return None;
        }
        let retained = Retained { staged, provided, remaining };
        assert(retained.rest(plain) =~= self.data(bytes@));
        Some(retained)
    }
}

/// Application data that can be read any number of bytes at a time: the completed
/// chunk first, then what stands in wire bytes.
pub struct Retained<'d> {
    pub(crate) staged: Option<Bytes<Pooled<'d>>>,
    pub(crate) provided: Option<PlainCursor>,
    pub(crate) remaining: usize,
}

impl<'d> Retained<'d> {
    pub closed spec fn staged_rest(self) -> Seq<u8> {
        match self.staged {
            Some(chunk) => buffer::chunk_bytes(chunk),
            None => Seq::empty(),
        }
    }

    closed spec fn provided_rest(self, bytes: Seq<u8>) -> Seq<u8> {
        match self.provided {
            Some(cursor) => cursor.rest(bytes),
            None => Seq::empty(),
        }
    }

    /// The data that is still to come, where `bytes` are the wire bytes.
    pub closed spec fn rest(self, bytes: Seq<u8>) -> Seq<u8> {
        self.staged_rest() + self.provided_rest(bytes)
    }

    /// The piece that is to be read next: all that is left of the completed chunk, or
    /// else of the first record that stands in the wire bytes.
    pub closed spec fn front(self, bytes: Seq<u8>) -> Seq<u8> {
        match self.staged {
            Some(chunk) => buffer::chunk_bytes(chunk),
            None => match self.provided {
                Some(cursor) => cursor.front(bytes),
                None => Seq::empty(),
            },
        }
    }

    /// Whether data still stands in the wire bytes.
    pub closed spec fn stands_in_wire(self) -> bool {
        self.provided is Some
    }

    /// That this reads `bytes`.
    pub closed spec fn reads(self, bytes: Seq<u8>) -> bool {
        &&& self.remaining == self.rest(bytes).len()
        &&& self.staged is Some ==> self.staged_rest().len() > 0
        &&& self.provided matches Some(cursor) ==> cursor.reads(bytes) && cursor.rest(bytes).len()
            > 0
    }

    /// Whether a chunk out of the receive buffer is still held.
    pub fn holds_staged(&self) -> (holds: bool)
        ensures
            forall|bytes: Seq<u8>| #[trigger]
                self.reads(bytes) ==> holds == (self.staged_rest().len() > 0),
    {
        self.staged.is_some()
    }

    pub fn remaining(&self) -> (count: usize)
        ensures
            forall|bytes: Seq<u8>| #[trigger]
                self.reads(bytes) ==> count == self.rest(bytes).len(),
    {
        self.remaining
    }

    /// What can be read in one piece: the front of what is still to come, and not
    /// empty unless all was read.
    pub fn chunk<'b>(&'b self, bytes: &'b [u8]) -> (piece: &'b [u8])
        requires
            self.reads(bytes@),
        ensures
            piece@ == self.front(bytes@),
            piece@.is_prefix_of(self.rest(bytes@)),
            piece@.len() == 0 <==> self.rest(bytes@).len() == 0,
    {
        match &self.staged {
            Some(chunk) => buffer::chunk_slice(chunk),
            None => match &self.provided {
                Some(cursor) => {
                    assert(self.rest(bytes@) =~= cursor.rest(bytes@));
                    cursor.chunk(bytes)
                },
                None => &[],
            },
        }
    }

    /// Reads up to `requested` bytes, at most what `chunk` shows. Returns how many.
    pub fn consume(&mut self, bytes: &[u8], requested: usize) -> (count: usize)
        requires
            old(self).reads(bytes@),
        ensures
            final(self).reads(bytes@),
            count == if requested <= old(self).front(bytes@).len() {
                requested as int
            } else {
                old(self).front(bytes@).len() as int
            },
            count <= old(self).rest(bytes@).len(),
            final(self).rest(bytes@) == old(self).rest(bytes@).skip(count as int),
            requested > 0 && old(self).rest(bytes@).len() > 0 ==> count > 0,
    {
        let ghost before = self.rest(bytes@);
        let ghost behind = self.provided_rest(bytes@);
        if self.staged.is_some() {
            let mut count: usize = 0;
            let mut empty: bool = false;
            match &mut self.staged {
                Some(chunk) => {
                    let ghost data = buffer::chunk_bytes(*chunk);
                    let held: usize = buffer::chunk_slice(chunk).len();
                    count = if requested <= held {
                        requested
                    } else {
                        held
                    };
                    let done = buffer::chunk_advance(chunk, count);
                    assert(done);
                    empty = count == held;
                    assert((data + behind).skip(count as int) =~= data.skip(count as int) + behind);
                },
                None => {},
            }
            if empty {
                self.staged = None;
            }
            self.remaining = self.remaining - count;
            assert(self.rest(bytes@) =~= before.skip(count as int));
            count
        } else {
            let mut count: usize = 0;
            let mut empty: bool = false;
            match &mut self.provided {
                Some(cursor) => {
                    let ghost data = cursor.rest(bytes@);
                    count = cursor.consume(bytes, requested);
                    empty = cursor.remaining() == 0;
                    assert(before =~= data);
                },
                None => {},
            }
            if empty {
                self.provided = None;
            }
            self.remaining = self.remaining - count;
            assert(self.rest(bytes@) =~= before.skip(count as int));
            count
        }
    }

    /// Where a range of bytes that is to outlive this reader stands: in the completed
    /// chunk while there is one, or else in the wire bytes. Nothing for a range that
    /// does not lie within them.
    pub fn keeps(&self, bytes: &[u8], start: usize, end: usize) -> (place: Option<Place>)
        requires
            self.reads(bytes@),
        ensures
            place == if self.staged_rest().len() > 0 {
                if start <= end <= self.staged_rest().len() {
                    Some(Place::Chunk)
                } else {
                    None
                }
            } else if self.stands_in_wire() && start <= end <= bytes@.len() {
                Some(Place::Wire)
            } else {
                None
            },
    {
        match &self.staged {
            Some(chunk) => {
                if start <= end && end <= buffer::chunk_slice(chunk).len() {
                    Some(Place::Chunk)
                } else {
                    None
                }
            },
            None => {
                if self.provided.is_some() && start <= end && end <= bytes.len() {
                    Some(Place::Wire)
                } else {
                    None
                }
            },
        }
    }

    /// The completed chunk, if it is still held.
    pub fn staged(&self) -> (chunk: Option<&Bytes<Pooled<'d>>>)
        ensures
            match chunk {
                Some(chunk) => buffer::chunk_bytes(*chunk) == self.staged_rest(),
                None => self.staged_rest().len() == 0,
            },
    {
        self.staged.as_ref()
    }
}

/// Where application data stands.
#[derive(Clone, Copy, PartialEq, Eq, Structural)]
pub enum Place {
    Chunk,
    Wire,
}

} // verus!
