//! Plaintext that stands where its records stood.
//!
//! Records are opened in place. The header of each is then reused: its first byte
//! tells application data from records to pass over, the next two give the length
//! of the plaintext that follows the header, the last two still that of the body.

use crate::record;
use crate::staging::HEADER_LEN;
use vstd::prelude::*;

verus! {

/// Mark of a record to pass over.
pub const CHUNK_SKIP: u8 = 0;

/// Mark of a record that holds application data.
pub const CHUNK_APPLICATION: u8 = 1;

/// The length of the body of the record at `at`.
pub open spec fn body_len(bytes: Seq<u8>, at: int) -> int {
    record::be16(bytes[at + 3], bytes[at + 4]) as int
}

/// The length of the plaintext of the record at `at`.
pub open spec fn plain_len(bytes: Seq<u8>, at: int) -> int {
    record::be16(bytes[at + 1], bytes[at + 2]) as int
}

/// Where the record behind the one at `at` stands.
pub open spec fn next(bytes: Seq<u8>, at: int) -> int {
    at + HEADER_LEN + body_len(bytes, at)
}

/// The plaintext of the record at `at`.
pub open spec fn plain_at(bytes: Seq<u8>, at: int) -> Seq<u8> {
    bytes.subrange(at + HEADER_LEN, at + HEADER_LEN + plain_len(bytes, at))
}

/// Whether the record at `at` holds any application data.
pub open spec fn filled(bytes: Seq<u8>, at: int) -> bool {
    bytes[at] == CHUNK_APPLICATION && plain_len(bytes, at) != 0
}

/// That `at..end` is a run of whole records.
pub open spec fn framed(bytes: Seq<u8>, at: int, end: int) -> bool
    decreases end - at,
{
    at == end || {
        &&& 0 <= at
        &&& next(bytes, at) <= end <= bytes.len()
        &&& bytes[at] == CHUNK_APPLICATION ==> plain_len(bytes, at) <= body_len(bytes, at)
        &&& framed(bytes, next(bytes, at), end)
    }
}

/// The application data in `at..end`, record by record.
pub open spec fn chunks(bytes: Seq<u8>, at: int, end: int) -> Seq<Seq<u8>>
    decreases end - at,
{
    if at >= end || next(bytes, at) > end {
        Seq::empty()
    } else if filled(bytes, at) {
        seq![plain_at(bytes, at)] + chunks(bytes, next(bytes, at), end)
    } else {
        chunks(bytes, next(bytes, at), end)
    }
}

/// All chunks one after the other.
pub open spec fn whole(chunks: Seq<Seq<u8>>) -> Seq<u8>
    decreases chunks.len(),
{
    if chunks.len() == 0 {
        Seq::empty()
    } else {
        chunks[0] + whole(chunks.skip(1))
    }
}

/// The application data in `at..end`.
pub open spec fn plain(bytes: Seq<u8>, at: int, end: int) -> Seq<u8> {
    whole(chunks(bytes, at, end))
}

pub(crate) proof fn whole_concat(a: Seq<Seq<u8>>, b: Seq<Seq<u8>>)
    ensures
        whole(a + b) == whole(a) + whole(b),
    decreases a.len(),
{
    if a.len() == 0 {
        assert(a + b =~= b);
        assert(whole(a) + whole(b) =~= whole(b));
    } else {
        assert((a + b).skip(1) =~= a.skip(1) + b);
        whole_concat(a.skip(1), b);
        assert(a[0] + (whole(a.skip(1)) + whole(b)) =~= (a[0] + whole(a.skip(1))) + whole(b));
    }
}

pub(crate) proof fn whole_one(chunk: Seq<u8>)
    ensures
        whole(seq![chunk]) == chunk,
{
    assert(seq![chunk].skip(1) =~= Seq::<Seq<u8>>::empty());
    assert(whole(Seq::<Seq<u8>>::empty()) =~= Seq::<u8>::empty());
    assert(chunk + Seq::<u8>::empty() =~= chunk);
}

/// The next record's share of the application data.
pub(crate) proof fn plain_step(bytes: Seq<u8>, at: int, end: int)
    requires
        framed(bytes, at, end),
        at < end,
    ensures
        plain(bytes, at, end) == (if filled(bytes, at) {
            plain_at(bytes, at)
        } else {
            Seq::empty()
        }) + plain(bytes, next(bytes, at), end),
{
    if filled(bytes, at) {
        whole_one(plain_at(bytes, at));
        whole_concat(seq![plain_at(bytes, at)], chunks(bytes, next(bytes, at), end));
    } else {
        assert(Seq::<u8>::empty() + plain(bytes, next(bytes, at), end) =~= plain(
            bytes,
            next(bytes, at),
            end,
        ));
    }
}

/// What a run of records holds depends on the run alone.
pub(crate) proof fn framed_local(a: Seq<u8>, b: Seq<u8>, at: int, end: int)
    requires
        framed(a, at, end),
        end <= b.len(),
        forall|i: int| at <= i < end ==> a[i] == b[i],
    ensures
        framed(b, at, end),
        chunks(b, at, end) == chunks(a, at, end),
    decreases end - at,
{
    if at < end {
        framed_bound(a, next(a, at), end);
        if filled(a, at) {
            assert(plain_at(a, at) =~= plain_at(b, at));
        }
        framed_local(a, b, next(a, at), end);
    }
}

pub(crate) proof fn framed_bound(bytes: Seq<u8>, at: int, end: int)
    requires
        framed(bytes, at, end),
    ensures
        at <= end,
    decreases end - at,
{
    if at < end {
        framed_bound(bytes, next(bytes, at), end);
    }
}

/// Two runs of records that meet are one run.
pub(crate) proof fn framed_concat(bytes: Seq<u8>, at: int, mid: int, end: int)
    requires
        framed(bytes, at, mid),
        framed(bytes, mid, end),
        end <= bytes.len(),
    ensures
        framed(bytes, at, end),
        chunks(bytes, at, end) == chunks(bytes, at, mid) + chunks(bytes, mid, end),
    decreases mid - at,
{
    if at == mid {
        assert(chunks(bytes, at, mid) =~= Seq::<Seq<u8>>::empty());
        assert(chunks(bytes, at, mid) + chunks(bytes, mid, end) =~= chunks(bytes, mid, end));
    } else {
        framed_bound(bytes, at, mid);
        framed_bound(bytes, next(bytes, at), mid);
        framed_bound(bytes, mid, end);
        framed_concat(bytes, next(bytes, at), mid, end);
        if filled(bytes, at) {
            assert(seq![plain_at(bytes, at)] + (chunks(bytes, next(bytes, at), mid) + chunks(
                bytes,
                mid,
                end,
            )) =~= (seq![plain_at(bytes, at)] + chunks(bytes, next(bytes, at), mid)) + chunks(
                bytes,
                mid,
                end,
            ));
        }
    }
}

/// Where plaintext stands in a buffer: in the run of records up to `scan_end`,
/// and, if `tail_end` is not 0, in one piece between the header at `scan_end` and
/// `tail_end`.
#[derive(Clone, Copy)]
pub struct PlainLayout {
    pub(crate) scan_end: usize,
    pub(crate) tail_end: usize,
    pub(crate) chunks: usize,
    pub(crate) plain_len: usize,
}

impl PlainLayout {
    /// The piece behind the run of records.
    pub closed spec fn tail(self, bytes: Seq<u8>) -> Seq<Seq<u8>> {
        if self.tail_end == 0 {
            Seq::empty()
        } else {
            seq![bytes.subrange(self.scan_end + HEADER_LEN, self.tail_end as int)]
        }
    }

    /// The plaintext from the record at `at` on, piece by piece.
    pub closed spec fn from(self, bytes: Seq<u8>, at: int) -> Seq<Seq<u8>> {
        if at > self.scan_end {
            Seq::empty()
        } else {
            chunks(bytes, at, self.scan_end as int) + self.tail(bytes)
        }
    }

    /// The plaintext, piece by piece.
    pub open spec fn pieces(self, bytes: Seq<u8>) -> Seq<Seq<u8>> {
        self.from(bytes, 0)
    }

    /// That this layout describes `bytes`.
    pub closed spec fn describes(self, bytes: Seq<u8>) -> bool {
        &&& framed(bytes, 0, self.scan_end as int)
        &&& self.scan_end <= bytes.len()
        &&& self.tail_end == 0 || self.scan_end + HEADER_LEN < self.tail_end <= bytes.len()
        &&& self.chunks == self.pieces(bytes).len()
        &&& self.plain_len == whole(self.pieces(bytes)).len()
    }

    /// The plaintext of a run of records.
    pub(crate) fn segmented(end: usize, chunks: usize, plain_len: usize) -> (layout: Self)
        ensures
            layout == (PlainLayout { scan_end: end, tail_end: 0, chunks, plain_len }),
            forall|bytes: Seq<u8>| #[trigger]
                layout.pieces(bytes) == self::chunks(bytes, 0, end as int) && (framed(
                    bytes,
                    0,
                    end as int,
                ) && end <= bytes.len() && chunks == self::chunks(bytes, 0, end as int).len()
                    && plain_len == plain(bytes, 0, end as int).len() ==> layout.describes(bytes)),
    {
        let layout = PlainLayout { scan_end: end, tail_end: 0, chunks, plain_len };
        proof {
            assert forall|bytes: Seq<u8>| #[trigger] layout.pieces(bytes) == self::chunks(
                bytes,
                0,
                end as int,
            ) by {
                assert(layout.pieces(bytes) =~= self::chunks(bytes, 0, end as int));
            }
        }
        layout
    }

    /// The same plaintext in at most `limit` pieces: where there are more, the
    /// last of them are moved together, right behind the header of the first of them.
    /// What stands before and behind them stays as it is.
    pub(crate) fn bounded(self, bytes: &mut [u8], limit: usize) -> (layout: Self)
        requires
            limit > 0,
            self.describes(old(bytes)@),
            self.tail_end == 0,
        ensures
            final(bytes)@.len() == old(bytes)@.len(),
            layout.describes(final(bytes)@),
            layout.pieces(final(bytes)@) == packed(self.pieces(old(bytes)@), limit as int),
            layout.plain_len == self.plain_len,
            self.chunks <= limit ==> layout == self && final(bytes)@ == old(bytes)@,
            self.chunks > limit ==> {
                let at = layout.scan_end as int;
                let tail = plain(old(bytes)@, at, self.scan_end as int);
                &&& layout.chunks == limit
                &&& at < self.scan_end
                &&& framed(old(bytes)@, at, self.scan_end as int)
                &&& layout.tail_end == at + HEADER_LEN + tail.len()
                &&& moved_together(old(bytes)@, at, limit - 1, tail, final(bytes)@)
            },
            repacked(
                old(bytes)@,
                self.pieces(old(bytes)@),
                Some(limit as int),
                final(bytes)@,
            ),
    {
        if self.chunks <= limit {
            return self;
        }
        let ghost before = bytes@;
        let ghost end = self.scan_end as int;
        let ghost all = chunks(before, 0, end);
        let tail_record = self.tail_record(bytes, limit - 1);
        let tail_end = self.compact_tail(bytes, tail_record);
        let layout = PlainLayout {
            scan_end: tail_record,
            tail_end,
            chunks: limit,
            plain_len: self.plain_len,
        };
        proof {
            let at = tail_record as int;
            let rest = chunks(before, at, end);
            framed_bound(before, at, end);
            framed_local(before, bytes@, 0, at);
            framed_concat(before, 0, at, end);
            assert(all =~= chunks(before, 0, at) + rest);
            assert(all + Seq::<Seq<u8>>::empty() =~= all);
            assert(rest =~= all.skip(limit - 1));
            assert(chunks(before, 0, at) =~= all.take(limit - 1));
            assert(layout.pieces(bytes@) =~= packed(self.pieces(before), limit as int));
            whole_concat(all.take(limit - 1), rest);
            whole_one(whole(rest));
            whole_concat(all.take(limit - 1), seq![whole(rest)]);
            let tail = plain(before, at, end);
            assert(bytes@ =~= before.take(at + HEADER_LEN) + bytes@.subrange(
                at + HEADER_LEN,
                tail_end as int,
            ) + before.skip(tail_end as int));
            assert(moved_together(before, at, limit - 1, tail, bytes@));
            assert(self.pieces(before) =~= all);
        }
        layout
    }

    /// Where the record stands whose data comes behind `prefix_chunks` pieces.
    pub(crate) fn tail_record(&self, bytes: &[u8], prefix_chunks: usize) -> (at: usize)
        requires
            self.describes(bytes@),
            self.tail_end == 0,
            prefix_chunks < self.chunks,
        ensures
            at < self.scan_end,
            framed(bytes@, 0, at as int),
            framed(bytes@, at as int, self.scan_end as int),
            filled(bytes@, at as int),
            chunks(bytes@, 0, at as int).len() == prefix_chunks,
    {
        let mut offset: usize = 0;
        let mut seen: usize = 0;
        proof {
            assert(self.pieces(bytes@) =~= chunks(bytes@, 0, self.scan_end as int));
        }
        loop
            invariant
                self.describes(bytes@),
                self.tail_end == 0,
                offset <= self.scan_end <= bytes@.len(),
                seen <= prefix_chunks < self.chunks,
                framed(bytes@, 0, offset as int),
                framed(bytes@, offset as int, self.scan_end as int),
                chunks(bytes@, 0, offset as int).len() == seen,
                chunks(bytes@, 0, self.scan_end as int).len() == self.chunks,
            decreases self.scan_end - offset,
        {
            proof {
                framed_concat(bytes@, 0, offset as int, self.scan_end as int);
                assert(offset < self.scan_end);
                framed_bound(bytes@, next(bytes@, offset as int), self.scan_end as int);
            }
            let body_len: usize = bytes[offset + 3] as usize * 256 + bytes[offset + 4] as usize;
            let mut found: bool = false;
            if bytes[offset] == CHUNK_APPLICATION {
                let plain_len: usize = bytes[offset + 1] as usize * 256 + bytes[offset
                    + 2] as usize;
                if plain_len != 0 {
                    if seen == prefix_chunks {
                        return offset;
                    }
                    found = true;
                }
            }
            proof {
                let at = offset as int;
                assert(framed(bytes@, next(bytes@, at), next(bytes@, at)));
                assert(framed(bytes@, at, next(bytes@, at)));
                framed_concat(bytes@, 0, at, next(bytes@, at));
                assert(chunks(bytes@, next(bytes@, at), next(bytes@, at)) =~= Seq::<
                    Seq<u8>,
                >::empty());
            }
            if found {
                seen = seen + 1;
            }
            offset = offset + HEADER_LEN + body_len;
        }
    }

    /// Moves the plaintext of the records from `tail_record` on together, right
    /// behind the header of the first. Returns where it then ends.
    pub(crate) fn compact_tail(&self, bytes: &mut [u8], tail_record: usize) -> (tail_end: usize)
        requires
            self.scan_end <= old(bytes)@.len(),
            tail_record < self.scan_end,
            framed(old(bytes)@, tail_record as int, self.scan_end as int),
            filled(old(bytes)@, tail_record as int),
        ensures
            final(bytes)@.len() == old(bytes)@.len(),
            tail_record + HEADER_LEN < tail_end <= self.scan_end,
            forall|i: int|
                0 <= i < old(bytes)@.len() && (i < tail_record + HEADER_LEN || i >= tail_end)
                    ==> #[trigger] final(bytes)@[i] == old(bytes)@[i],
            final(bytes)@.subrange(tail_record + HEADER_LEN, tail_end as int) == plain(
                old(bytes)@,
                tail_record as int,
                self.scan_end as int,
            ),
    {
        let ghost before = bytes@;
        let ghost end = self.scan_end as int;
        let mut read: usize = tail_record;
        proof {
            framed_bound(before, next(before, read as int), end);
        }
        let mut write: usize = tail_record + HEADER_LEN;
        while read < self.scan_end
            invariant
                before == old(bytes)@,
                end == self.scan_end,
                bytes@.len() == before.len(),
                tail_record < self.scan_end <= bytes@.len(),
                tail_record <= read <= self.scan_end,
                tail_record + HEADER_LEN <= write,
                filled(before, tail_record as int),
                read == tail_record ==> write == tail_record + HEADER_LEN,
                read > tail_record ==> tail_record + HEADER_LEN < write <= read,
                framed(before, read as int, end),
                forall|i: int|
                    0 <= i < tail_record + HEADER_LEN ==> #[trigger] bytes@[i] == before[i],
                forall|i: int| write <= i < bytes@.len() ==> #[trigger] bytes@[i] == before[i],
                bytes@.subrange(tail_record + HEADER_LEN, write as int) + plain(
                    before,
                    read as int,
                    end,
                ) == plain(before, tail_record as int, end),
            decreases self.scan_end - read,
        {
            let ghost mid = bytes@;
            proof {
                framed_bound(before, next(before, read as int), end);
                plain_step(before, read as int, end);
                assert(mid[read as int] == before[read as int]);
                assert(mid[read + 1] == before[read + 1] && mid[read + 2] == before[read + 2]);
                assert(mid[read + 3] == before[read + 3] && mid[read + 4] == before[read + 4]);
            }
            let application = bytes[read] == CHUNK_APPLICATION;
            let plain_len: usize = bytes[read + 1] as usize * 256 + bytes[read + 2] as usize;
            let body_len: usize = bytes[read + 3] as usize * 256 + bytes[read + 4] as usize;
            let source: usize = read + HEADER_LEN;
            let next_read: usize = source + body_len;
            if application && plain_len != 0 {
                move_down(bytes, source, write, plain_len);
                proof {
                    let start = tail_record + HEADER_LEN;
                    let piece = plain_at(before, read as int);
                    assert(mid.subrange(source as int, source + plain_len) =~= piece);
                    assert(bytes@.subrange(start, write + plain_len) =~= mid.subrange(
                        start,
                        write as int,
                    ) + piece);
                    let rest = plain(before, next(before, read as int), end);
                    assert((mid.subrange(start, write as int) + piece) + rest =~= mid.subrange(
                        start,
                        write as int,
                    ) + (piece + rest));
                }
                write = write + plain_len;
            } else {
                proof {
                    let rest = plain(before, next(before, read as int), end);
                    assert(Seq::<u8>::empty() + rest =~= rest);
                }
            }
            read = next_read;
        }
        proof {
            assert(chunks(before, end, end) =~= Seq::<Seq<u8>>::empty());
            assert(plain(before, end, end) =~= Seq::<u8>::empty());
            let moved = bytes@.subrange(tail_record + HEADER_LEN, write as int);
            assert(moved + Seq::<u8>::empty() =~= moved);
        }
        write
    }

    pub fn plain_len(self) -> (len: usize)
        ensures
            forall|bytes: Seq<u8>| #[trigger]
                self.describes(bytes) ==> len == whole(self.pieces(bytes)).len(),
    {
        self.plain_len
    }

    /// A reader of the plaintext.
    pub fn cursor(self) -> (cursor: PlainCursor)
        ensures
            forall|bytes: Seq<u8>| #[trigger]
                self.describes(bytes) ==> cursor.reads(bytes) && cursor.rest(bytes) == whole(
                    self.pieces(bytes),
                ) && cursor.pieces(bytes) == self.pieces(bytes),
    {
        let cursor = PlainCursor {
            layout: self,
            record_offset: 0,
            plain_offset: 0,
            remaining: self.plain_len,
        };
        proof {
            assert forall|bytes: Seq<u8>| #[trigger] self.describes(bytes) implies cursor.reads(
                bytes,
            ) && cursor.rest(bytes) == whole(self.pieces(bytes)) && cursor.pieces(bytes)
                == self.pieces(bytes) by {
                assert(whole(self.pieces(bytes)).skip(0) =~= whole(self.pieces(bytes)));
                if self.pieces(bytes).len() > 0 {
                    assert(self.pieces(bytes)[0].skip(0) =~= self.pieces(bytes)[0]);
                }
                assert(cursor.pieces(bytes) =~= self.pieces(bytes));
            }
        }
        cursor
    }
}

/// The first `limit - 1` pieces, and all others in one.
pub open spec fn packed(pieces: Seq<Seq<u8>>, limit: int) -> Seq<Seq<u8>> {
    if pieces.len() <= limit {
        pieces
    } else {
        pieces.take(limit - 1) + seq![whole(pieces.skip(limit - 1))]
    }
}

/// That `tail`, the plaintext from the record at `at` on, was moved together right behind
/// the header of that record, which comes behind `front` pieces. All else stays.
pub open spec fn moved_together(
    opened: Seq<u8>,
    at: int,
    front: int,
    tail: Seq<u8>,
    output: Seq<u8>,
) -> bool {
    &&& 0 <= at
    &&& at + HEADER_LEN + tail.len() <= opened.len()
    &&& framed(opened, 0, at)
    &&& filled(opened, at)
    &&& chunks(opened, 0, at).len() == front
    &&& output == opened.take(at + HEADER_LEN) + tail + opened.skip(at + HEADER_LEN + tail.len())
}

/// That bytes which hold `pieces` were left so that they hold at most `limit`, if there is a
/// limit: as they were, or with the last pieces moved together.
pub open spec fn repacked(
    opened: Seq<u8>,
    pieces: Seq<Seq<u8>>,
    limit: Option<int>,
    output: Seq<u8>,
) -> bool {
    match limit {
        Some(limit) if pieces.len() > limit => exists|at: int| #[trigger]
            moved_together(opened, at, limit - 1, whole(pieces.skip(limit - 1)), output),
        _ => output == opened,
    }
}

/// Packing keeps the plaintext, and leaves at most `limit` pieces.
pub proof fn packing_keeps_plaintext(pieces: Seq<Seq<u8>>, limit: int)
    requires
        limit > 0,
    ensures
        whole(packed(pieces, limit)) == whole(pieces),
        packed(pieces, limit).len() <= limit,
{
    if pieces.len() > limit {
        let front = pieces.take(limit - 1);
        let back = pieces.skip(limit - 1);
        assert(pieces =~= front + back);
        whole_concat(front, back);
        whole_one(whole(back));
        whole_concat(front, seq![whole(back)]);
    }
}

/// Moves `len` bytes from `source` down to `target`.
fn move_down(bytes: &mut [u8], source: usize, target: usize, len: usize)
    requires
        target <= source,
        source + len <= old(bytes)@.len(),
    ensures
        final(bytes)@.len() == old(bytes)@.len(),
        forall|i: int|
            0 <= i < old(bytes)@.len() ==> #[trigger] final(bytes)@[i] == if target <= i < target
                + len {
                old(bytes)@[i - target + source]
            } else {
                old(bytes)@[i]
            },
{
    let ghost before = bytes@;
    let size: usize = bytes.len();
    let mut done: usize = 0;
    while done < len
        invariant
            before == old(bytes)@,
            size == bytes@.len(),
            bytes@.len() == before.len(),
            done <= len,
            target <= source,
            source + len <= bytes@.len(),
            forall|i: int|
                0 <= i < bytes@.len() ==> #[trigger] bytes@[i] == if target <= i < target + done {
                    before[i - target + source]
                } else {
                    before[i]
                },
        decreases len - done,
    {
        let byte: u8 = bytes[source + done];
        bytes[target + done] = byte;
        done = done + 1;
    }
}

/// The plaintext of a layout, piece by piece.
pub struct PlainChunks<'a> {
    pub(crate) bytes: &'a [u8],
    pub(crate) offset: usize,
    pub(crate) layout: PlainLayout,
    pub(crate) remaining: usize,
}

impl<'a> PlainChunks<'a> {
    /// The pieces that are still to come.
    pub closed spec fn rest(self) -> Seq<Seq<u8>> {
        self.layout.from(self.bytes@, self.offset as int)
    }

    /// The bytes that the pieces stand in.
    pub closed spec fn source(self) -> Seq<u8> {
        self.bytes@
    }

    /// That the bookkeeping is right.
    pub closed spec fn wf(self) -> bool {
        &&& self.layout.describes(self.bytes@)
        &&& self.offset <= self.layout.scan_end ==> framed(
            self.bytes@,
            self.offset as int,
            self.layout.scan_end as int,
        )
        &&& self.offset > self.layout.scan_end ==> self.offset == self.layout.tail_end
        &&& self.remaining == self.rest().len()
    }

    /// Whether no piece has been taken yet.
    pub closed spec fn fresh(self) -> bool {
        self.offset == 0
    }

    pub(crate) fn new(bytes: &'a [u8], layout: PlainLayout) -> (plain: Self)
        requires
            layout.describes(bytes@),
        ensures
            plain.wf(),
            plain.fresh(),
            plain.source() == bytes@,
            plain.rest() == layout.pieces(bytes@),
    {
        PlainChunks { bytes, offset: 0, layout, remaining: layout.chunks }
    }

    /// The layout, for a reader that has taken nothing yet.
    pub fn into_layout(self) -> (layout: PlainLayout)
        requires
            self.wf(),
            self.fresh(),
        ensures
            layout.describes(self.source()),
            layout.pieces(self.source()) == self.rest(),
    {
        self.layout
    }

    /// The next piece.
    pub fn next(&mut self) -> (piece: Option<&'a [u8]>)
        requires
            old(self).wf(),
        ensures
            final(self).wf(),
            final(self).source() == old(self).source(),
            match piece {
                Some(piece) => old(self).rest().len() > 0 && piece@ == old(self).rest()[0]
                    && final(self).rest() == old(self).rest().skip(1),
                None => old(self).rest().len() == 0 && final(self).rest() == old(self).rest(),
            },
    {
        let ghost before = *self;
        let bytes = self.bytes;
        let scan_end: usize = self.layout.scan_end;
        while self.offset < scan_end
            invariant
                self.wf(),
                bytes == self.bytes,
                scan_end == self.layout.scan_end,
                self.bytes == before.bytes,
                self.layout == before.layout,
                self.remaining == before.remaining,
                self.rest() == before.rest(),
                before == *old(self),
            decreases scan_end - self.offset,
        {
            let offset: usize = self.offset;
            proof {
                framed_bound(bytes@, next(bytes@, offset as int), scan_end as int);
            }
            let body_len: usize = bytes[offset + 3] as usize * 256 + bytes[offset + 4] as usize;
            let plain_len: usize = bytes[offset + 1] as usize * 256 + bytes[offset + 2] as usize;
            let filled = bytes[offset] == CHUNK_APPLICATION && plain_len != 0;
            self.offset = offset + HEADER_LEN + body_len;
            if filled {
                self.remaining = self.remaining - 1;
                let piece = vstd::slice::slice_subrange(
                    bytes,
                    offset + HEADER_LEN,
                    offset + HEADER_LEN + plain_len,
                );
                proof {
                    assert(before.rest() =~= seq![piece@] + self.rest());
                    assert(before.rest().skip(1) =~= self.rest());
                }
                return Some(piece);
            }
        }
        if self.offset == scan_end && self.layout.tail_end != 0 {
            let start: usize = scan_end + HEADER_LEN;
            let piece = vstd::slice::slice_subrange(bytes, start, self.layout.tail_end);
            self.offset = self.layout.tail_end;
            self.remaining = self.remaining - 1;
            proof {
                assert(before.rest() =~= seq![piece@]);
                assert(before.rest().skip(1) =~= self.rest());
            }
            return Some(piece);
        }
        None
    }

    /// How many pieces are still to come.
    pub fn len(&self) -> (count: usize)
        requires
            self.wf(),
        ensures
            count == self.rest().len(),
    {
        self.remaining
    }
}

/// A reader of plaintext that takes any number of bytes at a time.
pub struct PlainCursor {
    pub(crate) layout: PlainLayout,
    pub(crate) record_offset: usize,
    pub(crate) plain_offset: usize,
    pub(crate) remaining: usize,
}

/// Pieces without the first `count` bytes of the first of them.
pub open spec fn cut(pieces: Seq<Seq<u8>>, count: int) -> Seq<Seq<u8>> {
    if pieces.len() == 0 {
        pieces
    } else if count == pieces[0].len() {
        pieces.skip(1)
    } else {
        pieces.update(0, pieces[0].skip(count))
    }
}

impl PlainCursor {
    /// The plaintext that is still to come.
    pub closed spec fn rest(self, bytes: Seq<u8>) -> Seq<u8> {
        whole(self.layout.from(bytes, self.record_offset as int)).skip(self.plain_offset as int)
    }

    /// The plaintext that is still to come, piece by piece.
    pub closed spec fn pieces(self, bytes: Seq<u8>) -> Seq<Seq<u8>> {
        let all = self.layout.from(bytes, self.record_offset as int);
        if all.len() == 0 {
            all
        } else {
            all.update(0, all[0].skip(self.plain_offset as int))
        }
    }

    /// The piece that is to be read next.
    pub open spec fn front(self, bytes: Seq<u8>) -> Seq<u8> {
        if self.pieces(bytes).len() == 0 {
            Seq::empty()
        } else {
            self.pieces(bytes)[0]
        }
    }

    /// That this cursor reads `bytes`.
    pub closed spec fn reads(self, bytes: Seq<u8>) -> bool {
        let at = self.record_offset as int;
        let end = self.layout.scan_end as int;
        &&& self.layout.describes(bytes)
        &&& at <= end ==> framed(bytes, at, end)
        &&& at > end ==> at == self.layout.tail_end && self.plain_offset == 0
        &&& self.plain_offset > 0 && at < end ==> filled(bytes, at) && self.plain_offset
            < plain_len(bytes, at)
        &&& self.plain_offset > 0 && at == end ==> self.layout.tail_end != 0
            && self.plain_offset < self.layout.tail_end - end - HEADER_LEN
        &&& self.remaining == self.rest(bytes).len()
    }

    pub fn remaining(&self) -> (count: usize)
        ensures
            forall|bytes: Seq<u8>| #[trigger]
                self.reads(bytes) ==> count == self.rest(bytes).len(),
    {
        self.remaining
    }

    /// The piece to read next: where its header stands, how much of it was read,
    /// how long it is, and how far it is to the next header.
    fn current(&self, bytes: &[u8]) -> (place: Option<(usize, usize, usize, usize)>)
        requires
            self.reads(bytes@),
        ensures
            match place {
                Some((at, read, len, total)) => {
                    let end = self.layout.scan_end as int;
                    &&& at <= end
                    &&& read < len
                    &&& at + HEADER_LEN + len <= bytes@.len()
                    &&& at + total <= bytes@.len()
                    &&& HEADER_LEN + len <= total
                    &&& framed(bytes@, at as int, end)
                    &&& at < end ==> filled(bytes@, at as int) && len == plain_len(
                        bytes@,
                        at as int,
                    ) && at + total == next(bytes@, at as int)
                    &&& at == end ==> self.layout.tail_end != 0 && at + total
                        == self.layout.tail_end && len == total - HEADER_LEN
                    &&& self.rest(bytes@) == whole(self.layout.from(bytes@, at as int)).skip(
                        read as int,
                    )
                    &&& whole(self.layout.from(bytes@, at as int)) == bytes@.subrange(
                        at + HEADER_LEN,
                        at + HEADER_LEN + len,
                    ) + whole(self.layout.from(bytes@, at + total))
                    &&& read == self.plain_offset
                    &&& self.layout.from(bytes@, self.record_offset as int) == self.layout.from(
                        bytes@,
                        at as int,
                    )
                    &&& self.layout.from(bytes@, at as int) == seq![
                        bytes@.subrange(at + HEADER_LEN, at + HEADER_LEN + len),
                    ] + self.layout.from(bytes@, at + total)
                },
                None => self.rest(bytes@).len() == 0 && self.pieces(bytes@).len() == 0,
            },
    {
        let scan_end: usize = self.layout.scan_end;
        let ghost end = scan_end as int;
        let mut offset: usize = self.record_offset;
        let mut read: usize = self.plain_offset;
        while offset < scan_end
            invariant
                self.reads(bytes@),
                scan_end == self.layout.scan_end,
                end == scan_end,
                scan_end <= bytes@.len(),
                offset <= end ==> framed(bytes@, offset as int, end),
                offset > end ==> offset == self.layout.tail_end,
                read > 0 ==> offset == self.record_offset,
                read == self.plain_offset,
                self.layout.from(bytes@, self.record_offset as int) == self.layout.from(
                    bytes@,
                    offset as int,
                ),
                self.rest(bytes@) == whole(self.layout.from(bytes@, offset as int)).skip(
                    read as int,
                ),
            decreases scan_end - offset,
        {
            proof {
                framed_bound(bytes@, next(bytes@, offset as int), end);
                self.layout.from_step(bytes@, offset as int);
            }
            let body_len: usize = bytes[offset + 3] as usize * 256 + bytes[offset + 4] as usize;
            let total: usize = HEADER_LEN + body_len;
            if bytes[offset] == CHUNK_APPLICATION {
                let plain_len: usize = bytes[offset + 1] as usize * 256 + bytes[offset
                    + 2] as usize;
                if read != plain_len {
                    return Some((offset, read, plain_len, total));
                }
            }
            proof {
                let after = whole(self.layout.from(bytes@, next(bytes@, offset as int)));
                assert(Seq::<u8>::empty() + after =~= after);
                assert(after.skip(0) =~= after);
            }
            offset = offset + total;
            read = 0;
        }
        if offset == scan_end && self.layout.tail_end != 0 {
            let plain_len: usize = self.layout.tail_end - scan_end - HEADER_LEN;
            proof {
                self.layout.from_tail(bytes@);
            }
            return Some((offset, read, plain_len, self.layout.tail_end - offset));
        }
        proof {
            self.layout.from_nothing(bytes@, offset as int);
        }
        None
    }

    /// What can be read in one piece: the front of what is still to come, and not
    /// empty unless all was read.
    pub fn chunk<'a>(&self, bytes: &'a [u8]) -> (piece: &'a [u8])
        requires
            self.reads(bytes@),
        ensures
            piece@ == self.front(bytes@),
            piece@.is_prefix_of(self.rest(bytes@)),
            piece@.len() == 0 <==> self.rest(bytes@).len() == 0,
    {
        match self.current(bytes) {
            Some((at, read, len, total)) => {
                let start: usize = at + HEADER_LEN + read;
                let piece = vstd::slice::slice_subrange(bytes, start, at + HEADER_LEN + len);
                proof {
                    let first = bytes@.subrange(at + HEADER_LEN, at + HEADER_LEN + len);
                    let after = whole(self.layout.from(bytes@, at + total));
                    assert((first + after).skip(read as int) =~= piece@ + after);
                    assert(self.pieces(bytes@)[0] =~= first.skip(read as int));
                    assert(piece@ =~= first.skip(read as int));
                }
                piece
            },
            None => vstd::slice::slice_subrange(bytes, 0, 0),
        }
    }

    /// Reads up to `requested` bytes, at most what `chunk` shows. Returns how many.
    pub fn consume(&mut self, bytes: &[u8], requested: usize) -> (count: usize)
        requires
            old(self).reads(bytes@),
        ensures
            final(self).reads(bytes@),
            count == if requested <= old(self).front(bytes@).len() {
                requested as int
            } else {
                old(self).front(bytes@).len() as int
            },
            final(self).pieces(bytes@) == cut(old(self).pieces(bytes@), count as int),
            count <= old(self).rest(bytes@).len(),
            final(self).rest(bytes@) == old(self).rest(bytes@).skip(count as int),
            requested > 0 && old(self).rest(bytes@).len() > 0 ==> count > 0,
    {
        let ghost before = *self;
        match self.current(bytes) {
            Some((at, read, len, total)) => {
                let left: usize = len - read;
                let count: usize = if requested <= left {
                    requested
                } else {
                    left
                };
                let ghost had = before.pieces(bytes@);
                let ghost first = bytes@.subrange(at + HEADER_LEN, at + HEADER_LEN + len);
                assert(had[0] =~= first.skip(read as int));
                if count == 0 {
                    assert(before.rest(bytes@).skip(0) =~= before.rest(bytes@));
                    assert(had[0].skip(0) =~= had[0]);
                    assert(had.update(0, had[0]) =~= had);
                    return 0;
                }
                let read_to: usize = read + count;
                proof {
                    let first = bytes@.subrange(at + HEADER_LEN, at + HEADER_LEN + len);
                    let after = whole(self.layout.from(bytes@, at + total));
                    let both = first + after;
                    assert(both.skip(read as int).skip(count as int) =~= both.skip(read + count));
                    assert(both.skip(len as int) =~= after);
                    assert(after.skip(0) =~= after);
                    if at < self.layout.scan_end {
                        framed_bound(
                            bytes@,
                            next(bytes@, at as int),
                            self.layout.scan_end as int,
                        );
                    }
                }
                if read_to == len {
                    self.record_offset = at + total;
                    self.plain_offset = 0;
                } else {
                    self.record_offset = at;
                    self.plain_offset = read_to;
                }
                self.remaining = self.remaining - count;
                proof {
                    let left = self.layout.from(bytes@, at + total);
                    if read_to == len {
                        if left.len() > 0 {
                            assert(left[0].skip(0) =~= left[0]);
                        }
                        assert(self.pieces(bytes@) =~= left);
                        assert(had.skip(1) =~= left);
                    } else {
                        assert(first.skip(read as int).skip(count as int) =~= first.skip(
                            read_to as int,
                        ));
                        assert(self.pieces(bytes@) =~= had.update(0, had[0].skip(count as int)));
                    }
                }
                count
            },
            None => {
                assert(before.rest(bytes@).skip(0) =~= before.rest(bytes@));
                0
            },
        }
    }
}

impl PlainLayout {
    proof fn from_step(self, bytes: Seq<u8>, at: int)
        requires
            self.describes(bytes),
            at < self.scan_end,
            framed(bytes, at, self.scan_end as int),
        ensures
            whole(self.from(bytes, at)) == (if filled(bytes, at) {
                plain_at(bytes, at)
            } else {
                Seq::empty()
            }) + whole(self.from(bytes, next(bytes, at))),
            self.from(bytes, at) == (if filled(bytes, at) {
                seq![plain_at(bytes, at)]
            } else {
                Seq::empty()
            }) + self.from(bytes, next(bytes, at)),
    {
        let end = self.scan_end as int;
        let tail = whole(self.tail(bytes));
        framed_bound(bytes, next(bytes, at), end);
        plain_step(bytes, at, end);
        whole_concat(chunks(bytes, at, end), self.tail(bytes));
        whole_concat(chunks(bytes, next(bytes, at), end), self.tail(bytes));
        let first = if filled(bytes, at) {
            plain_at(bytes, at)
        } else {
            Seq::empty()
        };
        let rest = plain(bytes, next(bytes, at), end);
        assert((first + rest) + tail =~= first + (rest + tail));
        assert(self.from(bytes, at) =~= (if filled(bytes, at) {
            seq![plain_at(bytes, at)]
        } else {
            Seq::empty()
        }) + self.from(bytes, next(bytes, at)));
    }

    proof fn from_tail(self, bytes: Seq<u8>)
        requires
            self.describes(bytes),
            self.tail_end != 0,
        ensures
            whole(self.from(bytes, self.scan_end as int)) == bytes.subrange(
                self.scan_end + HEADER_LEN,
                self.tail_end as int,
            ) + whole(self.from(bytes, self.tail_end as int)),
            self.from(bytes, self.scan_end as int) == seq![
                bytes.subrange(self.scan_end + HEADER_LEN, self.tail_end as int),
            ] + self.from(bytes, self.tail_end as int),
    {
        let end = self.scan_end as int;
        let piece = bytes.subrange(end + HEADER_LEN, self.tail_end as int);
        assert(chunks(bytes, end, end) =~= Seq::<Seq<u8>>::empty());
        assert(self.from(bytes, end) =~= seq![piece]);
        whole_one(piece);
        assert(piece + whole(self.from(bytes, self.tail_end as int)) =~= piece);
    }

    proof fn from_nothing(self, bytes: Seq<u8>, at: int)
        requires
            at >= self.scan_end,
            at == self.scan_end ==> self.tail_end == 0,
        ensures
            whole(self.from(bytes, at)) == Seq::<u8>::empty(),
            self.from(bytes, at).len() == 0,
    {
        let end = self.scan_end as int;
        assert(chunks(bytes, end, end) =~= Seq::<Seq<u8>>::empty());
        assert(self.from(bytes, at) =~= Seq::<Seq<u8>>::empty());
    }
}

} // verus!
