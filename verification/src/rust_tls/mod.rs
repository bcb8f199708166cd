//! Connections of `rustls`.

use crate::buffer::{Contents, Cursor};
use crate::record;
use crate::rust_tls::session::{Progress, Refusal, Session, Stall};
use crate::rust_tls::writer::CiphertextWriter;
use crate::transmissions::VectoredCursor;
use rustls::pki_types::ServerName;
use rustls::{
    ClientConfig as RustlsClientConfig, Connection as RustlsConnection, Error as RustlsError,
    ServerConfig as RustlsServerConfig,
};
use std::sync::Arc;
use vstd::prelude::*;

pub mod delivery;
pub mod ledger;
pub mod queued;
pub mod session;
pub mod wire;
pub mod writer;

verus! {

/// Width of a record header.
pub const TLS_HEADER_LEN: usize = 5;

/// Largest plaintext fragment of one record.
pub const TLS_MAX_PLAINTEXT: usize = 16384;

/// Largest body of a protected record.
pub const TLS_MAX_CIPHERTEXT: usize = TLS_MAX_PLAINTEXT + 256;

/// Capacity of an outbound staging buffer.
pub const RUSTLS_STAGING_CAP: usize = TLS_HEADER_LEN + TLS_MAX_CIPHERTEXT + 8192;

/// What protection adds to a fragment at most: header, explicit nonce, tag.
pub const MAX_RECORD_OVERHEAD: usize = TLS_HEADER_LEN + 8 + 16;

/// A staging buffer holds any single record and what protection adds to it.
pub proof fn rustls_staging_holds_one_record()
    ensures
        TLS_MAX_PLAINTEXT + MAX_RECORD_OVERHEAD <= RUSTLS_STAGING_CAP,
        TLS_HEADER_LEN + TLS_MAX_CIPHERTEXT <= RUSTLS_STAGING_CAP,
{
}

/// A connection, and how its end is to be told.
pub struct RustTls<S: Session> {
    pub conn: Option<S>,
    /// How much plaintext can be read.
    pub readable_plain: usize,
    /// Whether the transport is to be closed.
    pub close: bool,
    /// Whether the peer was told.
    pub close_notify_sent: bool,
    /// Whether a send buffer has been handed to the wire.
    pub send_inflight: bool,
    /// How much plaintext a record takes at most.
    pub max_plaintext: Limit,
}

/// A number of bytes that is not zero.
#[derive(Clone, Copy)]
pub struct Limit {
    bytes: usize,
}

impl Limit {
    #[verifier::type_invariant]
    spec fn positive(self) -> bool {
        self.bytes > 0
    }

    pub closed spec fn bytes(self) -> int {
        self.bytes as int
    }

    pub fn new(bytes: usize) -> (limit: Self)
        requires
            bytes > 0,
        ensures
            limit.bytes() == bytes,
    {
        Limit { bytes }
    }

    pub fn get(&self) -> (bytes: usize)
        ensures
            bytes == self.bytes(),
            bytes > 0,
    {
        proof {
            use_type_invariant(self);
        }
        self.bytes
    }
}

/// A connection while its plaintext is read: what of it is left, and what was read.
pub struct Reading<S> {
    pub conn: S,
    pub rest: nat,
    pub out: Contents,
}

impl<S: Session> Reading<S> {
    /// That one piece of plaintext was read.
    pub open spec fn took(
        self,
        mid: S,
        shown: Result<Seq<u8>, Stall>,
        after: Reading<S>,
    ) -> bool {
        &&& S::shows(self.conn, mid, shown)
        &&& shown is Ok
        &&& ({
            let chunk = shown->Ok_0;
            let n = if self.rest <= chunk.len() {
                self.rest as int
            } else {
                chunk.len() as int
            };
            &&& chunk.len() > 0
            &&& chunk.is_prefix_of(self.conn.plain())
            &&& S::drops(mid, n, after.conn)
            &&& after.conn.plain() == self.conn.plain().skip(n)
            &&& after.rest == self.rest - n
            &&& after.out == self.out.extend(chunk.take(n))
        })
    }
}

/// That between two moments one piece of plaintext was read.
pub open spec fn read_passes<S: Session>(path: Seq<Reading<S>>, i: int) -> bool {
    &&& path[i].rest > 0
    &&& exists|mid: S, shown: Result<Seq<u8>, Stall>| #[trigger]
        path[i].took(mid, shown, path[i + 1])
}

/// One more piece.
pub proof fn reading_on<S: Session>(
    start: Reading<S>,
    path: Seq<Reading<S>>,
    mid: S,
    shown: Result<Seq<u8>, Stall>,
    next: Reading<S>,
)
    requires
        reading(start, path),
        path.last().rest > 0,
        path.last().took(mid, shown, next),
    ensures
        reading(start, path.push(next)),
{
    let longer = path.push(next);
    assert forall|i: int| 0 <= i < longer.len() - 1 implies #[trigger] read_passes(longer, i) by {
        if i < path.len() - 1 {
            assert(read_passes(path, i));
            assert(longer[i] == path[i]);
            assert(longer[i + 1] == path[i + 1]);
        } else {
            assert(longer[i].took(mid, shown, longer[i + 1]));
        }
    }
}

/// That plaintext was read piece by piece.
pub open spec fn reading<S: Session>(start: Reading<S>, path: Seq<Reading<S>>) -> bool {
    &&& path.len() > 0
    &&& path[0] == start
    &&& forall|i: int| 0 <= i < path.len() - 1 ==> #[trigger] read_passes(path, i)
}

/// How reading ends: all was read, or the connection has nothing at the moment, or
/// it is to be closed.
pub open spec fn read_ends<S: Session>(last: Reading<S>, after: S, close: bool) -> bool {
    if last.rest == 0 {
        after == last.conn && !close
    } else {
        &&& after.plain() == last.conn.plain()
        &&& {
            ||| S::shows(last.conn, after, Ok(Seq::empty())) && close
            ||| S::shows(last.conn, after, Err(Stall::WouldBlock)) && !close
            ||| S::shows(last.conn, after, Err(Stall::Broken)) && close
        }
    }
}

/// That the plaintext that can be read was read into a buffer. What does not fit is
/// not begun, and ends the connection.
pub open spec fn read_out<S: Session>(
    before: RustTls<S>,
    out: Contents,
    after: RustTls<S>,
    left: Contents,
) -> bool {
    match before.conn {
        None => after == before && left == out,
        Some(conn) => if before.readable_plain == 0 {
            after == before && left == out
        } else if before.readable_plain > out.spare() {
            after == (RustTls { close: true, ..before }) && left == out
        } else {
            exists|path: Seq<Reading<S>>, close: bool|
                #![trigger reading(Reading { conn, rest: before.readable_plain as nat, out }, path),
                    read_ends(path.last(), after.conn->0, close)]
                reading(Reading { conn, rest: before.readable_plain as nat, out }, path)
                    && read_ends(path.last(), after.conn->0, close) && left == path.last().out
                    && after == (RustTls {
                    conn: after.conn,
                    readable_plain: path.last().rest as usize,
                    close: before.close || close,
                    ..before
                }) && after.conn is Some
        },
    }
}

/// A connection while its ciphertext is put into a buffer.
pub struct Giving<S> {
    pub conn: S,
    pub out: Contents,
}

/// That the connection gave ciphertext out.
pub open spec fn gave<S: Session>(
    before: Giving<S>,
    more: Seq<u8>,
    result: Result<usize, Stall>,
    after: Giving<S>,
) -> bool {
    &&& S::gives(before.conn, before.out.spare(), after.conn, more, result)
    &&& after.out == before.out.extend(more)
    &&& session::sent(before.conn.queue(), more, after.conn.queue())
    &&& after.conn.handshaking() == before.conn.handshaking()
    &&& match result {
        Ok(count) => count == more.len(),
        Err(_) => more.len() == 0,
    }
}

/// That between two moments the connection gave ciphertext out.
pub open spec fn give_passes<S: Session>(path: Seq<Giving<S>>, i: int) -> bool {
    &&& path[i].conn.queue().len() > 0
    &&& path[i].out.spare() != 0
    &&& exists|more: Seq<u8>, result: Result<usize, Stall>| #[trigger]
        gave(path[i], more, result, path[i + 1]) && result is Ok && more.len() > 0
}

/// That ciphertext was given out again and again.
pub open spec fn giving<S: Session>(start: Giving<S>, path: Seq<Giving<S>>) -> bool {
    &&& path.len() > 0
    &&& path[0] == start
    &&& forall|i: int| 0 <= i < path.len() - 1 ==> #[trigger] give_passes(path, i)
}

/// How giving out ends: there is nothing more or no more room, or the connection is
/// to be closed.
pub open spec fn give_ends<S: Session>(last: Giving<S>, after: Giving<S>, close: bool) -> bool {
    if last.conn.queue().len() == 0 || last.out.spare() == 0 {
        after == last && !close
    } else {
        exists|more: Seq<u8>, result: Result<usize, Stall>| #[trigger]
            gave(last, more, result, after) && match result {
                Ok(_) => more.len() == 0 && !close,
                Err(Stall::WouldBlock) => !close,
                Err(Stall::Broken) => close,
            }
    }
}

/// That what a connection wants sent was put into a send buffer, as far as there is
/// room. Nothing moves while a send is under way.
#[verifier::opaque]
pub open spec fn drained<S: Session>(
    before: RustTls<S>,
    out: Contents,
    after: RustTls<S>,
    left: Contents,
) -> bool {
    match before.conn {
        None => after == before && left == out,
        Some(conn) => if before.send_inflight {
            after == before && left == out
        } else {
            exists|path: Seq<Giving<S>>, end: Giving<S>, close: bool|
                #![trigger giving(Giving { conn, out }, path), give_ends(path.last(), end, close)]
                giving(Giving { conn, out }, path) && give_ends(path.last(), end, close) && left
                    == end.out && after == (RustTls {
                    conn: Some(end.conn),
                    close: before.close || close,
                    ..before
                })
        },
    }
}

proof fn reading_keeps<S: Session>(start: Reading<S>, path: Seq<Reading<S>>, i: int)
    requires
        reading(start, path),
        0 <= i < path.len(),
    ensures
        path[i].out.bytes + path[i].conn.plain() == start.out.bytes + start.conn.plain(),
    decreases i,
{
    if i > 0 {
        reading_keeps(start, path, i - 1);
        assert(read_passes(path, i - 1));
        let (mid, shown): (S, Result<Seq<u8>, Stall>) = choose|
            mid: S,
            shown: Result<Seq<u8>, Stall>,
        | #[trigger] path[i - 1].took(mid, shown, path[i - 1 + 1]);
        let chunk = shown->Ok_0;
        let n = if path[i - 1].rest <= chunk.len() {
            path[i - 1].rest as int
        } else {
            chunk.len() as int
        };
        assert(chunk.take(n) + path[i - 1].conn.plain().skip(n) =~= path[i - 1].conn.plain());
        assert(path[i].out.bytes + path[i].conn.plain() =~= path[i - 1].out.bytes + path[i
            - 1].conn.plain());
    }
}

/// Reading loses no plaintext and keeps its order: what was read, followed by what is
/// still to be read, stays the same.
pub proof fn reading_keeps_plaintext<S: Session>(
    before: RustTls<S>,
    out: Contents,
    after: RustTls<S>,
    left: Contents,
)
    requires
        read_out(before, out, after, left),
        before.conn is Some,
    ensures
        after.conn is Some,
        left.bytes + after.conn->0.plain() == out.bytes + before.conn->0.plain(),
{
    if 0 < before.readable_plain <= out.spare() {
        let conn = before.conn->0;
        let start = Reading { conn, rest: before.readable_plain as nat, out };
        let (path, close): (Seq<Reading<S>>, bool) = choose|path: Seq<Reading<S>>, close: bool|
            #![trigger reading(start, path), read_ends(path.last(), after.conn->0, close)]
            reading(start, path) && read_ends(path.last(), after.conn->0, close) && left
                == path.last().out;
        reading_keeps(start, path, path.len() - 1);
    }
}

proof fn giving_keeps<S: Session>(start: Giving<S>, path: Seq<Giving<S>>, i: int)
    requires
        giving(start, path),
        0 <= i < path.len(),
    ensures
        path[i].out.bytes + path[i].conn.queue() == start.out.bytes + start.conn.queue(),
    decreases i,
{
    if i > 0 {
        giving_keeps(start, path, i - 1);
        assert(give_passes(path, i - 1));
        let (more, result): (Seq<u8>, Result<usize, Stall>) = choose|
            more: Seq<u8>,
            result: Result<usize, Stall>,
        | #[trigger] gave(path[i - 1], more, result, path[i - 1 + 1]);
        gave_keeps(path[i - 1], more, result, path[i]);
    }
}

proof fn gave_keeps<S: Session>(
    before: Giving<S>,
    more: Seq<u8>,
    result: Result<usize, Stall>,
    after: Giving<S>,
)
    requires
        gave(before, more, result, after),
    ensures
        after.out.bytes + after.conn.queue() == before.out.bytes + before.conn.queue(),
{
    assert(more + before.conn.queue().skip(more.len() as int) =~= before.conn.queue());
    assert(after.out.bytes + after.conn.queue() =~= before.out.bytes + before.conn.queue());
}

/// Draining loses no ciphertext and keeps its order: what the send buffer holds,
/// followed by what the connection still wants sent, stays the same.
pub proof fn draining_keeps_ciphertext<S: Session>(
    before: RustTls<S>,
    out: Contents,
    after: RustTls<S>,
    left: Contents,
)
    requires
        drained(before, out, after, left),
        before.conn is Some,
    ensures
        after.conn is Some,
        left.bytes + after.conn->0.queue() == out.bytes + before.conn->0.queue(),
{
    reveal(drained);
    if !before.send_inflight {
        let start = Giving { conn: before.conn->0, out };
        let (path, end, close): (Seq<Giving<S>>, Giving<S>, bool) = choose|
            path: Seq<Giving<S>>,
            end: Giving<S>,
            close: bool,
        |
            #![trigger giving(start, path), give_ends(path.last(), end, close)]
            giving(start, path) && give_ends(path.last(), end, close) && left == end.out && after
                == (RustTls { conn: Some(end.conn), close: before.close || close, ..before });
        giving_keeps(start, path, path.len() - 1);
        if !(path.last().conn.queue().len() == 0 || path.last().out.spare() == 0) {
            let (more, result): (Seq<u8>, Result<usize, Stall>) = choose|
                more: Seq<u8>,
                result: Result<usize, Stall>,
            | #[trigger] gave(path.last(), more, result, end);
            gave_keeps(path.last(), more, result, end);
        }
    }
}

/// Whether the handshake is done.
pub open spec fn established<S: Session>(tls: RustTls<S>) -> bool {
    match tls.conn {
        Some(conn) => !conn.handshaking(),
        None => false,
    }
}

/// Whether a record with so much plaintext fits.
pub open spec fn has_room(out: Contents, len: int) -> bool {
    out.spare() >= len + MAX_RECORD_OVERHEAD
}

impl<S: Session> RustTls<S> {
    pub fn is_established(&self) -> (is: bool)
        ensures
            is == established(*self),
    {
        match &self.conn {
            Some(conn) => !conn.is_handshaking(),
            None => false,
        }
    }

    /// Reads the plaintext that can be read into a buffer.
    pub fn drain_reader(&mut self, out: &mut Cursor<'_>)
        ensures
            read_out(*old(self), old(out)@, *final(self), final(out)@),
            old(out)@.bytes.is_prefix_of(final(out)@.bytes),
            final(out)@.capacity == old(out)@.capacity,
            final(self).conn is Some == old(self).conn is Some,
    {
        let ghost before = *self;
        let ghost full = out@;
        let mut remaining: usize = self.readable_plain;
        if remaining == 0 {
            return;
        }
        match &mut self.conn {
            None => {},
            Some(conn) => {
                if remaining > out.spare_capacity() {
                    self.close = true;
                    return;
                }
                let ghost start = Reading { conn: *conn, rest: remaining as nat, out: out@ };
                let ghost mut path: Seq<Reading<S>> = seq![start];
                let mut close: bool = false;
                let mut stop: bool = false;
                while remaining > 0 && !stop
                    invariant
                        reading(start, path),
                        full.bytes.is_prefix_of(out@.bytes),
                        out@.capacity == full.capacity,
                        remaining == path.last().rest,
                        out@ == path.last().out,
                        !stop ==> *conn == path.last().conn && !close && remaining <= out@.spare(),
                        stop ==> remaining > 0 && read_ends(path.last(), *conn, close),
                    decreases
                            remaining,
                            if stop {
                                0int
                            } else {
                                1int
                            },
                {
                    let ghost last = path.last();
                    match conn.first_chunk() {
                        Ok(chunk) => {
                            let ghost mid = *conn;
                            if chunk.len() == 0 {
                                assert(chunk@ =~= Seq::<u8>::empty());
                                close = true;
                                stop = true;
                            } else {
                                let read: usize = if remaining <= chunk.len() {
                                    remaining
                                } else {
                                    chunk.len()
                                };
                                let piece = vstd::slice::slice_subrange(
                                    chunk.as_slice(),
                                    0,
                                    read,
                                );
                                assert(piece@ =~= chunk@.take(read as int));
                                let done = out.try_extend(piece);
                                assert(done);
                                conn.consume(read);
                                remaining = remaining - read;
                                proof {
                                    let next = Reading {
                                        conn: *conn,
                                        rest: remaining as nat,
                                        out: out@,
                                    };
                                    assert(last.took(mid, Ok(chunk@), next));
                                    reading_on(start, path, mid, Ok(chunk@), next);
                                    path = path.push(next);
                                }
                            }
                        },
                        Err(Stall::WouldBlock) => {
                            stop = true;
                        },
                        Err(Stall::Broken) => {
                            close = true;
                            stop = true;
                        },
                    }
                }
                self.readable_plain = remaining;
                self.close = self.close || close;
                proof {
                    assert(read_ends(path.last(), self.conn->0, close));
                    assert(reading(start, path));
                }
            },
        }
    }

    /// Puts what the connection wants sent into a send buffer, as far as there is
    /// room.
    pub fn drain_to_egress(&mut self, egress: &mut Option<Cursor<'_>>)
        requires
            *old(egress) is Some,
        ensures
            *final(egress) is Some,
            drained(*old(self), (*old(egress))->0@, *final(self), (*final(egress))->0@),
            final(self).conn is Some == old(self).conn is Some,
            final(self).max_plaintext == old(self).max_plaintext,
            final(self).send_inflight == old(self).send_inflight,
            old(self).close ==> final(self).close,
    {
        reveal(drained);
        let ghost before = *self;
        if self.send_inflight {
            return;
        }
        match &mut self.conn {
            None => {},
            Some(conn) => match egress.take() {
                None => {},
                Some(cursor) => {
                    let mut writer = CiphertextWriter::new(cursor);
                    let ghost start = Giving { conn: *conn, out: writer.out() };
                    let ghost mut path: Seq<Giving<S>> = seq![start];
                    let mut close: bool = false;
                    let mut stop: bool = false;
                    let ghost mut end = start;
                    while !stop && conn.wants_write() && writer.remaining() != 0
                        invariant
                            giving(start, path),
                            !stop ==> !close && path.last() == (Giving {
                                conn: *conn,
                                out: writer.out(),
                            }),
                            stop ==> give_ends(
                                path.last(),
                                Giving { conn: *conn, out: writer.out() },
                                close,
                            ),
                        decreases
                                writer.out().spare(),
                                if stop {
                                    0int
                                } else {
                                    1int
                                },
                    {
                        let ghost last = path.last();
                        let ghost held = writer.out();
                        let result = conn.write_tls(&mut writer);
                        let ghost more = writer.out().bytes.skip(held.bytes.len() as int);
                        let ghost now = Giving { conn: *conn, out: writer.out() };
                        assert(gave(last, more, result, now));
                        match result {
                            Ok(count) => {
                                if count == 0 {
                                    stop = true;
                                } else {
                                    proof {
                                        let longer = path.push(now);
                                        assert forall|i: int|
                                            0 <= i < longer.len()
                                                - 1 implies #[trigger] give_passes(longer, i) by {
                                            if i < path.len() - 1 {
                                                assert(give_passes(path, i));
                                                assert(longer[i] == path[i]);
                                                assert(longer[i + 1] == path[i + 1]);
                                            } else {
                                                assert(gave(longer[i], more, result, longer[i + 1]));
                                            }
                                        }
                                        path = longer;
                                    }
                                }
                            },
                            Err(Stall::WouldBlock) => {
                                stop = true;
                            },
                            Err(Stall::Broken) => {
                                close = true;
                                stop = true;
                            },
                        }
                    }
                    proof {
                        end = Giving { conn: *conn, out: writer.out() };
                        assert(give_ends(path.last(), end, close));
                        assert(giving(start, path));
                    }
                    *egress = Some(writer.into_inner());
                    self.close = self.close || close;
                },
            },
        }
    }
}

/// A connection while plaintext is written: what of it is left.
pub struct Writing<S: Session> {
    pub tls: RustTls<S>,
    pub out: Contents,
    pub rest: Seq<u8>,
}

impl<S: Session> Writing<S> {
    /// The plaintext that the next record takes.
    pub open spec fn next(self) -> Seq<u8> {
        self.rest.take(
            if self.rest.len() <= self.tls.max_plaintext.bytes() {
                self.rest.len() as int
            } else {
                self.tls.max_plaintext.bytes()
            },
        )
    }

    /// Whether there is something left and room for it.
    pub open spec fn goes_on(self) -> bool {
        self.rest.len() > 0 && has_room(self.out, self.next().len() as int)
    }

    /// That plaintext was taken in and what came of it put into the buffer.
    pub open spec fn wrote(self, mid: S, result: Result<usize, Stall>, after: Writing<S>) -> bool {
        &&& self.tls.conn is Some
        &&& S::seals(self.tls.conn->0, self.next(), mid, result)
        &&& result matches Ok(count) && count > 0 && count <= self.next().len() && after.rest
            == self.rest.skip(count as int) && drained(
            RustTls { conn: Some(mid), ..self.tls },
            self.out,
            after.tls,
            after.out,
        )
    }
}

/// That between two moments plaintext was written.
pub open spec fn write_passes<S: Session>(path: Seq<Writing<S>>, i: int) -> bool {
    &&& path[i].goes_on()
    &&& exists|mid: S, result: Result<usize, Stall>| #[trigger]
        path[i].wrote(mid, result, path[i + 1])
}

/// That plaintext was written piece by piece.
pub open spec fn writing<S: Session>(start: Writing<S>, path: Seq<Writing<S>>) -> bool {
    &&& path.len() > 0
    &&& path[0] == start
    &&& forall|i: int| 0 <= i < path.len() - 1 ==> #[trigger] write_passes(path, i)
}

/// One more piece.
pub proof fn writing_on<S: Session>(
    start: Writing<S>,
    path: Seq<Writing<S>>,
    mid: S,
    result: Result<usize, Stall>,
    next: Writing<S>,
)
    requires
        writing(start, path),
        path.last().goes_on(),
        path.last().wrote(mid, result, next),
    ensures
        writing(start, path.push(next)),
{
    let longer = path.push(next);
    assert forall|i: int| 0 <= i < longer.len() - 1 implies #[trigger] write_passes(longer, i) by {
        if i < path.len() - 1 {
            assert(write_passes(path, i));
            assert(longer[i] == path[i]);
            assert(longer[i + 1] == path[i + 1]);
        } else {
            assert(longer[i].wrote(mid, result, longer[i + 1]));
        }
    }
}

/// How writing ends: all was written, or there is no room for the next record, or
/// the connection takes nothing more.
pub open spec fn write_ends<S: Session>(last: Writing<S>, after: RustTls<S>) -> bool {
    if !last.goes_on() {
        after == last.tls
    } else {
        exists|mid: S, result: Result<usize, Stall>| #[trigger]
            S::seals(last.tls.conn->0, last.next(), mid, result) && match result {
                Ok(count) => count == 0 && after == (RustTls { conn: Some(mid), ..last.tls }),
                Err(_) => after == (RustTls { conn: Some(mid), close: true, ..last.tls }),
            }
    }
}

/// That plaintext was written as far as it could be.
#[verifier::opaque]
pub open spec fn written<S: Session>(
    before: RustTls<S>,
    out: Contents,
    plain: Seq<u8>,
    after: RustTls<S>,
    left: Contents,
    count: nat,
) -> bool {
    exists|path: Seq<Writing<S>>| #[trigger]
        writing(Writing { tls: before, out, rest: plain }, path) && left == path.last().out && count
            == plain.len() - path.last().rest.len() && write_ends(path.last(), after)
}

/// That plaintext was handed over: nothing is taken before the handshake is done.
pub open spec fn encrypted<S: Session>(
    before: RustTls<S>,
    out: Contents,
    plain: Seq<u8>,
    after: RustTls<S>,
    left: Contents,
    count: nat,
) -> bool {
    if before.conn is None {
        after == before && left == out && count == 0
    } else {
        exists|mid: RustTls<S>, drawn: Contents| #[trigger]
            drained(before, out, mid, drawn) && if !established(mid) || plain.len() == 0 {
                after == mid && left == drawn && count == 0
            } else {
                written(mid, drawn, plain, after, left, count)
            }
    }
}

impl<S: Session> RustTls<S> {
    /// Hands plaintext over. Returns how much was taken.
    pub fn encrypt(&mut self, egress: &mut Option<Cursor<'_>>, plain: &[u8]) -> (count: usize)
        requires
            *old(egress) is Some,
        ensures
            *final(egress) is Some,
            encrypted(
                *old(self),
                (*old(egress))->0@,
                plain@,
                *final(self),
                (*final(egress))->0@,
                count as nat,
            ),
            count <= plain@.len(),
            final(self).max_plaintext == old(self).max_plaintext,
    {
        if self.conn.is_none() {
            return 0;
        }
        self.drain_to_egress(egress);
        let ghost mid = *self;
        let ghost drawn = (*egress)->0@;
        assert(drained(*old(self), (*old(egress))->0@, mid, drawn));
        if !self.is_established() || plain.len() == 0 {
            return 0;
        }
        self.write_records(egress, plain)
    }

    /// Writes plaintext as far as it can be.
    fn write_records(&mut self, egress: &mut Option<Cursor<'_>>, plain: &[u8]) -> (count: usize)
        requires
            *old(egress) is Some,
            old(self).conn is Some,
        ensures
            *final(egress) is Some,
            written(
                *old(self),
                (*old(egress))->0@,
                plain@,
                *final(self),
                (*final(egress))->0@,
                count as nat,
            ),
            count <= plain@.len(),
            final(self).max_plaintext == old(self).max_plaintext,
    {
        let ghost start = Writing { tls: *self, out: (*egress)->0@, rest: plain@ };
        let ghost mut path: Seq<Writing<S>> = seq![start];
        let size: usize = plain.len();
        let mut consumed: usize = 0;
        let mut stop: bool = false;
        assert(plain@.skip(0) =~= plain@);
        while consumed < size && !stop
            invariant
                *egress is Some,
                size == plain@.len(),
                consumed <= size,
                self.conn is Some,
                self.max_plaintext == old(self).max_plaintext,
                writing(start, path),
                path.last().rest == plain@.skip(consumed as int),
                path.last().out == (*egress)->0@,
                !stop ==> path.last().tls == *self,
                stop ==> write_ends(path.last(), *self),
            decreases
                    size - consumed,
                    if stop {
                        0int
                    } else {
                        1int
                    },
        {
            let ghost last = path.last();
            let limit: usize = self.max_plaintext.get();
            let take: usize = if size - consumed <= limit {
                size - consumed
            } else {
                limit
            };
            let spare: usize = match egress {
                Some(cursor) => cursor.spare_capacity(),
                None => 0,
            };
            let piece = vstd::slice::slice_subrange(plain, consumed, consumed + take);
            assert(piece@ =~= last.next());
            if spare < MAX_RECORD_OVERHEAD || spare - MAX_RECORD_OVERHEAD < take {
                assert(!last.goes_on());
                stop = true;
            } else {
                assert(last.goes_on());
                let result = match &mut self.conn {
                    Some(conn) => conn.write_plain(piece),
                    None => Err(Stall::Broken),
                };
                let ghost mid = self.conn->0;
                assert(S::seals(last.tls.conn->0, last.next(), mid, result));
                match result {
                    Ok(count) => {
                        if count == 0 {
                            stop = true;
                            assert(write_ends(last, *self));
                        } else {
                            let ghost sealed = *self;
                            self.drain_to_egress(egress);
                            proof {
                                let next = Writing {
                                    tls: *self,
                                    out: (*egress)->0@,
                                    rest: last.rest.skip(count as int),
                                };
                                assert(sealed == (RustTls { conn: Some(mid), ..last.tls }));
                                assert(last.wrote(mid, result, next));
                                writing_on(start, path, mid, result, next);
                                path = path.push(next);
                                assert(last.rest.skip(count as int) =~= plain@.skip(
                                    consumed + count,
                                ));
                            }
                            consumed = consumed + count;
                        }
                    },
                    Err(_) => {
                        self.close = true;
                        stop = true;
                        assert(write_ends(last, *self));
                    },
                }
            }
        }
        proof {
            reveal(written);
            assert(writing(start, path));
            assert(write_ends(path.last(), *self));
        }
        consumed
    }

    /// Hands parts of plaintext to the connection: what is empty is left out, and a
    /// single part needs no gathering.
    fn write_parts(&mut self, parts: &[&[u8]]) -> (result: Result<usize, Stall>)
        requires
            old(self).conn is Some,
        ensures
            final(self).conn is Some,
            *final(self) == (RustTls { conn: final(self).conn, ..*old(self) }),
            record::joined(parts@).len() == 0 ==> result == Ok::<usize, Stall>(0) && *final(self)
                == *old(self),
            record::joined(parts@).len() > 0 ==> S::seals(
                old(self).conn->0,
                record::joined(parts@),
                final(self).conn->0,
                result,
            ),
            result matches Ok(count) ==> count <= record::joined(parts@).len(),
    {
        let filled: Vec<&[u8]> = without_empty(parts);
        match &mut self.conn {
            None => Err(Stall::Broken),
            Some(conn) => {
                if filled.len() == 0 {
                    assert(record::joined(filled@).len() == 0);
                    Ok(0)
                } else if filled.len() == 1 {
                    proof {
                        assert(filled@.drop_last() =~= Seq::<&[u8]>::empty());
                        assert(record::joined(filled@.drop_last()) =~= Seq::<u8>::empty());
                        assert(record::joined(filled@) =~= filled@[0]@);
                    }
                    conn.write_plain(filled[0])
                } else {
                    proof {
                        assert(filled@.last()@.len() > 0);
                    }
                    conn.write_parts(filled.as_slice())
                }
            },
        }
    }
}

/// The parts that are not empty.
fn without_empty<'a>(parts: &[&'a [u8]]) -> (filled: Vec<&'a [u8]>)
    ensures
        record::joined(filled@) == record::joined(parts@),
        forall|i: int| 0 <= i < filled@.len() ==> #[trigger] filled@[i]@.len() > 0,
{
    let mut filled: Vec<&'a [u8]> = Vec::new();
    let mut at: usize = 0;
    assert(parts@.take(0) =~= Seq::<&[u8]>::empty());
    while at < parts.len()
        invariant
            at <= parts@.len(),
            record::joined(filled@) == record::joined(parts@.take(at as int)),
            forall|i: int| 0 <= i < filled@.len() ==> #[trigger] filled@[i]@.len() > 0,
        decreases parts@.len() - at,
    {
        let part: &'a [u8] = parts[at];
        let ghost longer = parts@.take(at + 1);
        assert(longer.drop_last() =~= parts@.take(at as int));
        assert(longer.last() == part);
        if part.len() > 0 {
            let ghost had = filled@;
            filled.push(part);
            assert(filled@.drop_last() =~= had);
        } else {
            assert(record::joined(longer) =~= record::joined(parts@.take(at as int)));
        }
        at = at + 1;
    }
    assert(parts@.take(at as int) =~= parts@);
    filled
}

/// That between two moments a record's worth of parts was written whole.
pub open spec fn gather_passes<S: Session>(path: Seq<Writing<S>>, i: int) -> bool {
    &&& path[i].goes_on()
    &&& exists|mid: S, result: Result<usize, Stall>| #[trigger]
        path[i].wrote(mid, result, path[i + 1]) && result->Ok_0 == path[i].next().len()
}

/// That parts were written record by record.
pub open spec fn gathering<S: Session>(start: Writing<S>, path: Seq<Writing<S>>) -> bool {
    &&& path.len() > 0
    &&& path[0] == start
    &&& forall|i: int| 0 <= i < path.len() - 1 ==> #[trigger] gather_passes(path, i)
}

/// One more record.
pub proof fn gathering_on<S: Session>(
    start: Writing<S>,
    path: Seq<Writing<S>>,
    mid: S,
    result: Result<usize, Stall>,
    next: Writing<S>,
)
    requires
        gathering(start, path),
        path.last().goes_on(),
        path.last().wrote(mid, result, next),
        result->Ok_0 == path.last().next().len(),
    ensures
        gathering(start, path.push(next)),
{
    let longer = path.push(next);
    assert forall|i: int| 0 <= i < longer.len() - 1 implies #[trigger] gather_passes(longer, i) by {
        if i < path.len() - 1 {
            assert(gather_passes(path, i));
            assert(longer[i] == path[i]);
            assert(longer[i + 1] == path[i + 1]);
        } else {
            assert(longer[i].wrote(mid, result, longer[i + 1]));
        }
    }
}

/// How writing parts ends: all was written, or there is no room for the next
/// record, or a record was not taken whole, which ends the connection.
pub open spec fn gather_ends<S: Session>(last: Writing<S>, after: RustTls<S>) -> bool {
    if !last.goes_on() {
        after == last.tls
    } else {
        exists|mid: S, result: Result<usize, Stall>| #[trigger]
            S::seals(last.tls.conn->0, last.next(), mid, result) && after == (RustTls {
                conn: Some(mid),
                close: true,
                ..last.tls
            }) && (result matches Ok(count) ==> count != last.next().len())
    }
}

/// That parts were written as far as they could be.
#[verifier::opaque]
pub open spec fn gathered<S: Session>(
    before: RustTls<S>,
    out: Contents,
    plain: Seq<u8>,
    after: RustTls<S>,
    left: Contents,
    count: nat,
) -> bool {
    exists|path: Seq<Writing<S>>| #[trigger]
        gathering(Writing { tls: before, out, rest: plain }, path) && left == path.last().out
            && count == plain.len() - path.last().rest.len() && gather_ends(path.last(), after)
}

/// That parts of plaintext were handed over.
pub open spec fn encrypted_parts<S: Session>(
    before: RustTls<S>,
    out: Contents,
    plain: Seq<u8>,
    after: RustTls<S>,
    left: Contents,
    count: nat,
) -> bool {
    if before.conn is None || before.send_inflight {
        after == before && left == out && count == 0
    } else {
        exists|mid: RustTls<S>, drawn: Contents| #[trigger]
            drained(before, out, mid, drawn) && if !established(mid) {
                after == mid && left == drawn && count == 0
            } else {
                gathered(mid, drawn, plain, after, left, count)
            }
    }
}

impl<S: Session> RustTls<S> {
    /// Hands parts of plaintext over, gathered into records. Returns how much was
    /// taken.
    pub fn encrypt_vectored(&mut self, egress: &mut Option<Cursor<'_>>, parts: &[&[u8]]) -> (count:
        usize)
        requires
            *old(egress) is Some,
            record::joined(parts@).len() <= usize::MAX,
        ensures
            *final(egress) is Some,
            encrypted_parts(
                *old(self),
                (*old(egress))->0@,
                record::joined(parts@),
                *final(self),
                (*final(egress))->0@,
                count as nat,
            ),
            count <= record::joined(parts@).len(),
            final(self).max_plaintext == old(self).max_plaintext,
    {
        if self.conn.is_none() || self.send_inflight {
            return 0;
        }
        self.drain_to_egress(egress);
        let ghost mid = *self;
        let ghost drawn = (*egress)->0@;
        assert(drained(*old(self), (*old(egress))->0@, mid, drawn));
        if !self.is_established() {
            return 0;
        }
        self.gather_records(egress, parts)
    }

    /// Writes parts as far as they can be.
    fn gather_records(&mut self, egress: &mut Option<Cursor<'_>>, parts: &[&[u8]]) -> (count: usize)
        requires
            *old(egress) is Some,
            old(self).conn is Some,
            record::joined(parts@).len() <= usize::MAX,
        ensures
            *final(egress) is Some,
            gathered(
                *old(self),
                (*old(egress))->0@,
                record::joined(parts@),
                *final(self),
                (*final(egress))->0@,
                count as nat,
            ),
            count <= record::joined(parts@).len(),
            final(self).max_plaintext == old(self).max_plaintext,
    {
        let ghost plain = record::joined(parts@);
        let ghost start = Writing { tls: *self, out: (*egress)->0@, rest: plain };
        let ghost mut path: Seq<Writing<S>> = seq![start];
        let total: usize = crate::tls::egress::total_len(parts);
        let mut cursor = VectoredCursor::new(parts);
        let mut consumed: usize = 0;
        let mut stop: bool = false;
        assert(plain.skip(0) =~= plain);
        while consumed < total && !stop
            invariant
                *egress is Some,
                plain == record::joined(parts@),
                total == plain.len(),
                consumed <= total,
                self.conn is Some,
                self.max_plaintext == old(self).max_plaintext,
                gathering(start, path),
                path.last().rest == plain.skip(consumed as int),
                path.last().out == (*egress)->0@,
                !stop ==> path.last().tls == *self && cursor.rest() == plain.skip(consumed as int)
                    && cursor.taken() == consumed,
                stop ==> gather_ends(path.last(), *self),
            decreases
                    total - consumed,
                    if stop {
                        0int
                    } else {
                        1int
                    },
        {
            let ghost last = path.last();
            let limit: usize = self.max_plaintext.get();
            let take: usize = if total - consumed <= limit {
                total - consumed
            } else {
                limit
            };
            let spare: usize = match egress {
                Some(cursor) => cursor.spare_capacity(),
                None => 0,
            };
            assert(last.next().len() == take);
            if spare < MAX_RECORD_OVERHEAD || spare - MAX_RECORD_OVERHEAD < take {
                assert(!last.goes_on());
                stop = true;
            } else {
                assert(last.goes_on());
                let pieces: Vec<&[u8]> = cursor.take(take);
                assert(record::joined(pieces@) =~= last.next());
                let result = self.write_parts(pieces.as_slice());
                let ghost mid = self.conn->0;
                assert(S::seals(last.tls.conn->0, last.next(), mid, result));
                let whole = match result {
                    Ok(count) => count == take,
                    Err(_) => false,
                };
                if whole {
                    let ghost sealed = *self;
                    self.drain_to_egress(egress);
                    proof {
                        let next = Writing {
                            tls: *self,
                            out: (*egress)->0@,
                            rest: last.rest.skip(take as int),
                        };
                        assert(sealed == (RustTls { conn: Some(mid), ..last.tls }));
                        assert(last.wrote(mid, result, next));
                        gathering_on(start, path, mid, result, next);
                        path = path.push(next);
                        assert(last.rest.skip(take as int) =~= plain.skip(consumed + take));
                    }
                    consumed = consumed + take;
                } else {
                    self.close = true;
                    stop = true;
                    assert(gather_ends(last, *self));
                }
            }
        }
        proof {
            reveal(gathered);
            assert(gathering(start, path));
            assert(gather_ends(path.last(), *self));
        }
        consumed
    }
}

/// A connection while ciphertext is taken in: what of it is left, and the plaintext
/// that came of it.
pub struct Feeding<S: Session> {
    pub tls: RustTls<S>,
    pub rest: Seq<u8>,
    pub out: Contents,
}

impl<S: Session> Feeding<S> {
    pub open spec fn conn(self) -> S {
        self.tls.conn->0
    }

    /// With another state of the connection itself.
    pub open spec fn with(self, conn: S) -> RustTls<S> {
        RustTls { conn: Some(conn), ..self.tls }
    }

    /// That ciphertext was taken in and handled, and the plaintext that came of it
    /// read.
    pub open spec fn took(
        self,
        fed: S,
        taken: Result<usize, Refusal>,
        handled: S,
        progress: Result<Progress, Stall>,
        after: Feeding<S>,
    ) -> bool {
        &&& S::takes(self.conn(), self.rest, fed, taken)
        &&& fed.plain() == self.conn().plain()
        &&& fed.plain().is_prefix_of(handled.plain())
        &&& taken matches Ok(count) && count > 0 && count <= self.rest.len() && after.rest
            == self.rest.skip(count as int)
        &&& S::handles(fed, handled, progress)
        &&& progress matches Ok(progress) && read_out(
            RustTls {
                readable_plain: progress.plaintext,
                close: self.tls.close || progress.peer_has_closed,
                ..self.with(handled)
            },
            self.out,
            after.tls,
            after.out,
        )
    }

    /// That the connection took nothing before its plaintext was read, and that some
    /// was.
    pub open spec fn relieved(self, fed: S, after: Feeding<S>) -> bool {
        &&& S::takes(self.conn(), self.rest, fed, Err(Refusal::Full))
        &&& fed.plain() == self.conn().plain()
        &&& read_out(self.with(fed), self.out, after.tls, after.out)
        &&& !after.tls.close
        &&& after.out.bytes.len() > self.out.bytes.len()
        &&& after.rest == self.rest
    }
}

/// That ciphertext was taken in, or room was made for it.
pub open spec fn feed_step<S: Session>(before: Feeding<S>, after: Feeding<S>) -> bool {
    &&& before.rest.len() > 0
    &&& {
        ||| exists|
            fed: S,
            taken: Result<usize, Refusal>,
            handled: S,
            progress: Result<Progress, Stall>,
        | #[trigger] before.took(fed, taken, handled, progress, after)
        ||| exists|fed: S| #[trigger] before.relieved(fed, after)
    }
}

/// That this holds between two moments.
pub open spec fn feed_passes<S: Session>(path: Seq<Feeding<S>>, i: int) -> bool {
    feed_step(path[i], path[i + 1])
}

/// That ciphertext was taken in piece by piece.
pub open spec fn feeding<S: Session>(start: Feeding<S>, path: Seq<Feeding<S>>) -> bool {
    &&& path.len() > 0
    &&& path[0] == start
    &&& forall|i: int| 0 <= i < path.len() - 1 ==> #[trigger] feed_passes(path, i)
}

/// One more piece.
pub proof fn feeding_on<S: Session>(
    start: Feeding<S>,
    path: Seq<Feeding<S>>,
    next: Feeding<S>,
)
    requires
        feeding(start, path),
        feed_step(path.last(), next),
    ensures
        feeding(start, path.push(next)),
{
    let longer = path.push(next);
    assert forall|i: int| 0 <= i < longer.len() - 1 implies #[trigger] feed_passes(longer, i) by {
        if i < path.len() - 1 {
            assert(feed_passes(path, i));
        }
    }
}

/// How taking in ends: all was taken, or the connection takes nothing more, or it is
/// to be closed.
pub open spec fn feed_ends<S: Session>(
    last: Feeding<S>,
    after: RustTls<S>,
    left: Contents,
) -> bool {
    if last.rest.len() == 0 {
        after == last.tls && left == last.out
    } else {
        exists|fed: S, taken: Result<usize, Refusal>| #[trigger]
            S::takes(last.conn(), last.rest, fed, taken) && fed.plain() == last.conn().plain()
                && match taken {
                Ok(count) => if count == 0 {
                    after == last.with(fed) && left == last.out
                } else {
                    exists|handled: S, progress: Result<Progress, Stall>| #[trigger]
                        S::handles(fed, handled, progress) && fed.plain().is_prefix_of(
                            handled.plain(),
                        ) && progress is Err && left == last.out && after == (RustTls { close: true, ..last.with(handled) })
                },
                Err(Refusal::Full) => exists|mid: RustTls<S>| #[trigger]
                    read_out(last.with(fed), last.out, mid, left) && after == (RustTls {
                        close: true,
                        ..mid
                    }) && (mid.close || left.bytes.len() == last.out.bytes.len()),
                Err(Refusal::Broken) => left == last.out && after == (RustTls {
                    close: true,
                    ..last.with(fed)
                }),
            }
    }
}

/// That ciphertext was taken in, and the plaintext that came of it read.
pub open spec fn ingested<S: Session>(
    before: RustTls<S>,
    input: Seq<u8>,
    out: Contents,
    after: RustTls<S>,
    left: Contents,
) -> bool {
    if before.conn is None {
        after == (RustTls { close: true, ..before }) && left == out
    } else {
        exists|path: Seq<Feeding<S>>| #[trigger]
            feeding(Feeding { tls: before, rest: input, out }, path) && feed_ends(
                path.last(),
                after,
                left,
            )
    }
}

/// What one turn of taking in comes to.
enum Turn {
    On(usize),
    Done,
}

impl<S: Session> RustTls<S> {
    /// Takes some ciphertext in, and reads the plaintext that came of it.
    fn feed(&mut self, input: &[u8], out: &mut Cursor<'_>) -> (turn: Turn)
        requires
            old(self).conn is Some,
            input@.len() > 0,
        ensures
            final(self).conn is Some,
            old(out)@.bytes.is_prefix_of(final(out)@.bytes),
            final(out)@.capacity == old(out)@.capacity,
            ({
                let last = Feeding { tls: *old(self), rest: input@, out: old(out)@ };
                match turn {
                    Turn::On(count) => count <= input@.len() && (count > 0
                        || final(out)@.bytes.len() > old(out)@.bytes.len()) && feed_step(
                        last,
                        Feeding {
                            tls: *final(self),
                            rest: input@.skip(count as int),
                            out: final(out)@,
                        },
                    ),
                    Turn::Done => feed_ends(last, *final(self), final(out)@),
                }
            }),
    {
        let ghost last = Feeding { tls: *self, rest: input@, out: out@ };
        let taken = match &mut self.conn {
            Some(conn) => conn.read_tls(input),
            None => Err(Refusal::Broken),
        };
        let ghost fed = self.conn->0;
        assert(S::takes(last.conn(), last.rest, fed, taken));
        assert(*self == last.with(fed));
        match taken {
            Ok(count) => {
                if count == 0 {
                    return Turn::Done;
                }
                let progress = match &mut self.conn {
                    Some(conn) => conn.process_new_packets(),
                    None => Err(Stall::Broken),
                };
                let ghost handled = self.conn->0;
                assert(S::handles(fed, handled, progress));
                match progress {
                    Ok(state) => {
                        if state.peer_has_closed {
                            self.close = true;
                        }
                        self.readable_plain = state.plaintext;
                        self.drain_reader(out);
                        proof {
                            let next = Feeding {
                                tls: *self,
                                rest: input@.skip(count as int),
                                out: out@,
                            };
                            assert(last.took(fed, taken, handled, progress, next));
                        }
                        Turn::On(count)
                    },
                    Err(_) => {
                        self.close = true;
                        Turn::Done
                    },
                }
            },
            Err(Refusal::Full) => {
                let had: usize = out.len();
                self.drain_reader(out);
                let ghost mid = *self;
                assert(read_out(last.with(fed), last.out, mid, out@));
                if self.close {
                    assert(mid == (RustTls { close: true, ..mid }));
                    return Turn::Done;
                }
                if out.len() == had {
                    self.close = true;
                    return Turn::Done;
                }
                proof {
                    let next = Feeding { tls: *self, rest: input@.skip(0), out: out@ };
                    assert(input@.skip(0) =~= input@);
                    assert(last.relieved(fed, next));
                }
                Turn::On(0)
            },
            Err(Refusal::Broken) => {
                self.close = true;
                Turn::Done
            },
        }
    }

    /// Takes ciphertext in, and reads the plaintext that comes of it into a buffer.
    pub fn ingress_decrypt(&mut self, wire_in: &[u8], out: &mut Cursor<'_>)
        ensures
            ingested(*old(self), wire_in@, old(out)@, *final(self), final(out)@),
            old(out)@.bytes.is_prefix_of(final(out)@.bytes),
    {
        if self.conn.is_none() {
            self.close = true;
            return;
        }
        let ghost full = out@;
        let ghost start = Feeding { tls: *self, rest: wire_in@, out: out@ };
        let ghost mut path: Seq<Feeding<S>> = seq![start];
        let size: usize = wire_in.len();
        let mut offset: usize = 0;
        assert(wire_in@.skip(0) =~= wire_in@);
        while offset < size
            invariant
                size == wire_in@.len(),
                offset <= size,
                self.conn is Some,
                full == old(out)@,
                start == (Feeding { tls: *old(self), rest: wire_in@, out: full }),
                old(self).conn is Some,
                full.bytes.is_prefix_of(out@.bytes),
                out@.capacity == full.capacity,
                feeding(start, path),
                path.last() == (Feeding {
                    tls: *self,
                    rest: wire_in@.skip(offset as int),
                    out: out@,
                }),
            decreases size - offset, out@.spare(),
        {
            let rest = vstd::slice::slice_subrange(wire_in, offset, size);
            assert(rest@ =~= wire_in@.skip(offset as int));
            let spare: usize = out.spare_capacity();
            match self.feed(rest, out) {
                Turn::On(count) => {
                    let left: usize = out.spare_capacity();
                    proof {
                        assert(rest@.skip(count as int) =~= wire_in@.skip(offset + count));
                        let next = Feeding {
                            tls: *self,
                            rest: wire_in@.skip(offset + count),
                            out: out@,
                        };
                        feeding_on(start, path, next);
                        path = path.push(next);
                    }
                    offset = offset + count;
                },
                Turn::Done => {
                    assert(feeding(start, path));
                    return;
                },
            }
        }
        assert(feeding(start, path));
    }

    /// Tells the peer once that the connection ends, if it does.
    pub fn propagate_close(&mut self, egress: &mut Option<Cursor<'_>>) -> (close: bool)
        requires
            *old(egress) is Some,
        ensures
            *final(egress) is Some,
            told(
                *old(self),
                (*old(egress))->0@,
                *final(self),
                (*final(egress))->0@,
                close,
            ),
    {
        let ghost before = *self;
        if self.close {
            if !self.close_notify_sent && self.is_established() {
                match &mut self.conn {
                    Some(conn) => {
                        conn.send_close_notify();
                        self.close_notify_sent = true;
                    },
                    None => {},
                }
                assert(S::tells(before.conn->0, self.conn->0));
            }
            let ghost mid = *self;
            assert(notified(before, mid));
            self.drain_to_egress(egress);
            assert(drained(mid, (*old(egress))->0@, *self, (*egress)->0@));
        }
        self.close
    }

    /// The application protocol that was agreed on.
    pub fn alpn_protocol(&self) -> (protocol: Option<&[u8]>)
        ensures
            match (protocol, self.conn) {
                (Some(protocol), Some(conn)) => conn.alpn() == Some(protocol@),
                (None, Some(conn)) => conn.alpn() is None,
                (None, None) => true,
                _ => false,
            },
    {
        match &self.conn {
            Some(conn) => conn.alpn_protocol(),
            None => None,
        }
    }

    /// Whether there is something to be sent.
    pub fn holds_plain(&self, send: &[u8]) -> (holds: bool)
        ensures
            holds == (send@.len() > 0 || wants(*self)),
    {
        if send.len() > 0 {
            return true;
        }
        match &self.conn {
            Some(conn) => conn.wants_write(),
            None => false,
        }
    }

    /// Whether a send buffer is needed although nothing is to be written.
    pub fn needs_buffer(&self) -> (needs: bool)
        ensures
            needs == (self.close || wants(*self)),
    {
        self.close || self.holds_plain(&[])
    }

    /// The peer has stopped sending.
    pub fn recv_eof(&mut self)
        ensures
            *final(self) == (RustTls { close: true, ..*old(self) }),
    {
        self.close = true;
    }

    /// The buffer never reached the wire.
    pub fn submit_failed(&mut self)
        ensures
            *final(self) == (RustTls { send_inflight: false, ..*old(self) }),
    {
        self.send_inflight = false;
    }

    /// A connection that nothing was sent on. Without one the transport is to be
    /// closed.
    pub fn new(conn: Option<S>, max_plaintext: Limit) -> (tls: Self)
        ensures
            tls == (RustTls {
                conn,
                readable_plain: 0,
                close: conn is None,
                close_notify_sent: false,
                send_inflight: false,
                max_plaintext,
            }),
    {
        let close = conn.is_none();
        RustTls {
            conn,
            readable_plain: 0,
            close,
            close_notify_sent: false,
            send_inflight: false,
            max_plaintext,
        }
    }
}

/// Whether a connection has ciphertext to be sent.
pub open spec fn wants<S: Session>(tls: RustTls<S>) -> bool {
    match tls.conn {
        Some(conn) => conn.queue().len() > 0,
        None => false,
    }
}

/// That the peer was told, if it was not before and the handshake is done.
pub open spec fn notified<S: Session>(before: RustTls<S>, after: RustTls<S>) -> bool {
    if !before.close_notify_sent && established(before) {
        S::tells(before.conn->0, after.conn->0) && after.conn is Some && after == (RustTls {
            conn: after.conn,
            close_notify_sent: true,
            ..before
        })
    } else {
        after == before
    }
}

/// That the end of a connection was told to the peer and to the transport.
pub open spec fn told<S: Session>(
    before: RustTls<S>,
    out: Contents,
    after: RustTls<S>,
    left: Contents,
    close: bool,
) -> bool {
    if before.close {
        close && exists|mid: RustTls<S>| #[trigger]
            notified(before, mid) && drained(mid, out, after, left)
    } else {
        !close && after == before && left == out
    }
}

/// The peer is told of the end of a connection no more than once.
pub proof fn rustls_peer_is_told_once<S: Session>(
    before: RustTls<S>,
    mid: RustTls<S>,
    after: RustTls<S>,
)
    requires
        notified(before, mid),
        established(before),
        notified(mid, after),
    ensures
        after == mid,
        mid.close_notify_sent,
{
}

/// How much plaintext a record takes at most.
pub open spec fn plaintext_limit(max_fragment_size: Option<usize>) -> int {
    match max_fragment_size {
        Some(size) => if size >= TLS_HEADER_LEN {
            size - TLS_HEADER_LEN
        } else {
            0
        },
        None => TLS_MAX_PLAINTEXT as int,
    }
}

fn limit_of(max_fragment_size: Option<usize>) -> (limit: usize)
    ensures
        limit == plaintext_limit(max_fragment_size),
{
    match max_fragment_size {
        Some(size) => if size >= TLS_HEADER_LEN {
            size - TLS_HEADER_LEN
        } else {
            0
        },
        None => TLS_MAX_PLAINTEXT,
    }
}

/// What a wire connects to.
pub enum RustTlsEndpoint {
    Nowhere,
    Server(Arc<RustlsServerConfig>),
    Client { config: Arc<RustlsClientConfig>, server_name: ServerName<'static> },
}

impl RustTlsEndpoint {
    /// How much plaintext a record takes at most.
    pub open spec fn limit(self) -> int {
        match self {
            RustTlsEndpoint::Nowhere => TLS_MAX_PLAINTEXT as int,
            RustTlsEndpoint::Server(config) => plaintext_limit(session::server_fragment(*config)),
            RustTlsEndpoint::Client { config, .. } => plaintext_limit(
                session::client_fragment(*config),
            ),
        }
    }

    /// That connecting can come to this. An endpoint that connects to nothing makes
    /// no connection.
    pub open spec fn connects(self, result: Result<Option<RustlsConnection>, RustlsError>) -> bool {
        match self {
            RustTlsEndpoint::Nowhere => result == Ok::<Option<RustlsConnection>, RustlsError>(None),
            RustTlsEndpoint::Server(config) => match result {
                Ok(Some(conn)) => session::server_connected(*config, Ok(conn)),
                Ok(None) => false,
                Err(error) => session::server_connected(*config, Err(error)),
            },
            RustTlsEndpoint::Client { config, server_name } => match result {
                Ok(Some(conn)) => session::client_connected(*config, server_name, Ok(conn)),
                Ok(None) => false,
                Err(error) => session::client_connected(*config, server_name, Err(error)),
            },
        }
    }

    /// A connection of its own, if the endpoint makes one. Otherwise the transport
    /// is to be closed.
    pub fn prepare_open(&self) -> (result: Result<RustTls<RustlsConnection>, RustlsError>)
        ensures
            match result {
                Ok(tls) => tls.max_plaintext.bytes() == self.limit() && tls == (RustTls {
                    conn: tls.conn,
                    readable_plain: 0,
                    close: *self is Nowhere,
                    close_notify_sent: false,
                    send_inflight: false,
                    max_plaintext: tls.max_plaintext,
                }) && self.connects(Ok(tls.conn)),
                Err(error) => self.connects(Err(error)),
            },
    {
        match self {
            RustTlsEndpoint::Nowhere => Ok(RustTls::new(None, Limit::new(TLS_MAX_PLAINTEXT))),
            RustTlsEndpoint::Server(config) => match session::connect_server(config) {
                Ok(conn) => Ok(
                    RustTls::new(
                        Some(conn),
                        Limit::new(limit_of(session::server_max_fragment(config))),
                    ),
                ),
                Err(error) => Err(error),
            },
            RustTlsEndpoint::Client { config, server_name } => match session::connect_client(
                config,
                server_name,
            ) {
                Ok(conn) => Ok(
                    RustTls::new(
                        Some(conn),
                        Limit::new(limit_of(session::client_max_fragment(config))),
                    ),
                ),
                Err(error) => Err(error),
            },
        }
    }
}

impl Default for RustTlsEndpoint {
    fn default() -> (endpoint: RustTlsEndpoint)
        ensures
            endpoint is Nowhere,
    {
        RustTlsEndpoint::Nowhere
    }
}

} // verus!
