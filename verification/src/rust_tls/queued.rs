//! Connections of `rustls` that keep what could not be passed on at once.

use crate::buffer::Contents;
use crate::buffered::pooled::Pooled;
use crate::buffered::wire::{self, Submission, PENDING_APP_CAP};
use crate::rust_tls::session::{self, Progress, Refusal, Session, Stall};
use crate::rust_tls::RustTlsEndpoint;
use crate::staging::{MAX_PLAINTEXT_BODY, MAX_TLS_RECORD, TLS_STAGING_CAP};
use rustls::{Connection as RustlsConnection, Error as RustlsError};
use vstd::prelude::*;

verus! {

/// How much ciphertext waits for room in the egress at most.
pub const TAIL_CAP: usize = 1048576;

/// How much ciphertext waits for the connection to take it at most.
pub const PENDING_RECV_CAP: usize = 1048576;

/// A connection on a wire, and what could not be passed on yet.
pub struct QueuedTls<S: Session> {
    pub conn: Option<S>,
    /// Application data that waits for the handshake.
    pub pending_app: Vec<u8>,
    /// Ciphertext that the connection could not take yet.
    pub pending_recv: Vec<u8>,
    /// Whether the transport is to be closed.
    pub close: bool,
    /// Bytes that came in without a connection.
    pub ingress: Vec<u8>,
    pub egress: Pooled,
    /// Ciphertext behind the egress, which it did not fit in.
    pub tail: Vec<u8>,
    /// Whether a send of `egress` is under way, during which it may not move.
    pub send_inflight: bool,
}

/// A connection on a wire, by what it holds.
pub struct Line<S> {
    pub conn: Option<S>,
    pub pending_app: Seq<u8>,
    pub pending_recv: Seq<u8>,
    pub close: bool,
    pub ingress: Seq<u8>,
    pub egress: Contents,
    pub tail: Seq<u8>,
    pub inflight: bool,
}

impl<S: Session> View for QueuedTls<S> {
    type V = Line<S>;

    open spec fn view(&self) -> Line<S> {
        Line {
            conn: self.conn,
            pending_app: self.pending_app@,
            pending_recv: self.pending_recv@,
            close: self.close,
            ingress: self.ingress@,
            egress: self.egress@,
            tail: self.tail@,
            inflight: self.send_inflight,
        }
    }
}

/// How much of so many bytes there is room for.
pub open spec fn room_for(out: Contents, len: nat) -> int {
    if len <= out.spare() {
        len as int
    } else {
        out.spare()
    }
}

impl<S: Session> Line<S> {
    /// Whether the handshake is done.
    pub open spec fn established(self) -> bool {
        match self.conn {
            Some(conn) => !conn.handshaking(),
            None => false,
        }
    }

    /// Whether a whole record fits in the egress, with nothing waiting for room.
    pub open spec fn has_room(self) -> bool {
        self.tail.len() == 0 && self.egress.spare() >= MAX_TLS_RECORD
    }

    /// With ciphertext behind what waits for room. More than may wait ends the
    /// connection.
    pub open spec fn keep(self, bytes: Seq<u8>) -> Line<S> {
        if bytes.len() == 0 {
            self
        } else if self.tail.len() + bytes.len() > TAIL_CAP {
            Line { close: true, ..self }
        } else {
            Line { tail: self.tail + bytes, ..self }
        }
    }

    /// With ciphertext in the egress as far as it fits, and the rest waiting. What
    /// waits already comes first.
    pub open spec fn stage(self, bytes: Seq<u8>) -> Line<S> {
        if self.tail.len() > 0 {
            self.keep(bytes)
        } else {
            let n = room_for(self.egress, bytes.len());
            (Line { egress: self.egress.extend(bytes.take(n)), ..self }).keep(bytes.skip(n))
        }
    }

    /// With what waits moved to the egress as far as it fits.
    pub open spec fn flush(self) -> Line<S> {
        if self.inflight {
            self
        } else {
            let n = room_for(self.egress, self.tail.len());
            Line {
                egress: self.egress.extend(self.tail.take(n)),
                tail: self.tail.skip(n),
                ..self
            }
        }
    }

    /// With application data put aside, if not too much waits. Gives how much was
    /// taken.
    pub open spec fn put_aside(self, plain: Seq<u8>) -> (Line<S>, nat) {
        if self.pending_app.len() + plain.len() > PENDING_APP_CAP {
            (Line { close: true, ..self }, 0)
        } else {
            (Line { pending_app: self.pending_app + plain, ..self }, plain.len())
        }
    }

    /// With ciphertext put aside that the connection could not take, if not too much
    /// waits.
    pub open spec fn hold_back(self, bytes: Seq<u8>) -> Line<S> {
        if self.pending_recv.len() + bytes.len() > PENDING_RECV_CAP {
            Line { close: true, ..self }
        } else {
            Line { pending_recv: self.pending_recv + bytes, ..self }
        }
    }

    /// With the egress on its way, if there is something in it and no send is under
    /// way.
    pub open spec fn submit(self, busy: bool) -> (Line<S>, bool) {
        if busy || self.egress.bytes.len() == 0 {
            (self, false)
        } else {
            (Line { inflight: true, ..self }, true)
        }
    }

    /// All ciphertext on its way to the wire, in order.
    pub open spec fn outbound(self) -> Seq<u8> {
        self.egress.bytes + self.tail
    }
}

/// Ciphertext goes out in order: what is staged comes behind all that is on its way,
/// unless so much waits that the connection ends.
pub proof fn staging_keeps_order<S: Session>(line: Line<S>, bytes: Seq<u8>)
    requires
        line.egress.bytes.len() <= line.egress.capacity,
        !line.stage(bytes).close,
    ensures
        line.stage(bytes).outbound() == line.outbound() + bytes,
{
    let n = room_for(line.egress, bytes.len());
    assert(bytes.take(n) + bytes.skip(n) =~= bytes);
    assert(line.stage(bytes).outbound() =~= line.outbound() + bytes);
}

/// Moving what waits to the egress changes nothing of what goes out.
pub proof fn flushing_keeps_order<S: Session>(line: Line<S>)
    requires
        line.egress.bytes.len() <= line.egress.capacity,
    ensures
        line.flush().outbound() == line.outbound(),
{
    assert(line.flush().outbound() =~= line.outbound());
}

/// What waits never exceeds its limit.
pub proof fn tail_is_bounded<S: Session>(line: Line<S>, bytes: Seq<u8>)
    requires
        line.tail.len() <= TAIL_CAP,
        line.egress.bytes.len() <= line.egress.capacity,
    ensures
        line.stage(bytes).tail.len() <= TAIL_CAP,
        line.flush().tail.len() <= TAIL_CAP,
{
}

/// A connection while its ciphertext is put into a vector.
pub struct Pouring<S> {
    pub conn: S,
    pub out: Seq<u8>,
}

/// That the connection gave ciphertext out.
pub open spec fn poured<S: Session>(
    before: Pouring<S>,
    more: Seq<u8>,
    result: Result<usize, Stall>,
    after: Pouring<S>,
) -> bool {
    &&& S::gives(before.conn, usize::MAX as int, after.conn, more, result)
    &&& after.out == before.out + more
    &&& session::sent(before.conn.queue(), more, after.conn.queue())
    &&& after.conn.handshaking() == before.conn.handshaking()
    &&& after.conn.plain() == before.conn.plain()
    &&& match result {
        Ok(count) => count == more.len(),
        Err(_) => more.len() == 0,
    }
}

/// That between two moments the connection gave ciphertext out.
pub open spec fn pour_passes<S: Session>(path: Seq<Pouring<S>>, i: int) -> bool {
    &&& path[i].conn.queue().len() > 0
    &&& exists|more: Seq<u8>, result: Result<usize, Stall>| #[trigger]
        poured(path[i], more, result, path[i + 1]) && result is Ok && more.len() > 0
}

/// That ciphertext was given out again and again.
pub open spec fn pouring<S: Session>(start: Pouring<S>, path: Seq<Pouring<S>>) -> bool {
    &&& path.len() > 0
    &&& path[0] == start
    &&& forall|i: int| 0 <= i < path.len() - 1 ==> #[trigger] pour_passes(path, i)
}

/// How giving out ends: there is nothing more, or the connection is to be closed.
pub open spec fn pour_ends<S: Session>(last: Pouring<S>, after: Pouring<S>, close: bool) -> bool {
    if last.conn.queue().len() == 0 {
        after == last && !close
    } else {
        exists|more: Seq<u8>, result: Result<usize, Stall>| #[trigger]
            poured(last, more, result, after) && match result {
                Ok(_) => more.len() == 0 && !close,
                Err(_) => close,
            }
    }
}

/// That a connection gave out what it wants sent.
#[verifier::opaque]
pub open spec fn emptied<S: Session>(before: S, after: S, out: Seq<u8>, close: bool) -> bool {
    exists|path: Seq<Pouring<S>>|
        #![trigger pouring(Pouring { conn: before, out: Seq::empty() }, path)]
        pouring(Pouring { conn: before, out: Seq::empty() }, path) && pour_ends(
            path.last(),
            Pouring { conn: after, out },
            close,
        )
}

/// That what a connection wants sent was put behind what is on its way. Nothing moves
/// while a send is under way.
pub open spec fn drained<S: Session>(before: Line<S>, after: Line<S>) -> bool {
    if before.inflight {
        after == before
    } else {
        match before.conn {
            None => after == before.flush(),
            Some(conn) => exists|now: S, out: Seq<u8>, close: bool| #[trigger]
                emptied(conn, now, out, close) && after == (Line {
                    conn: Some(now),
                    close: before.close || close,
                    ..before.flush()
                }).stage(out),
        }
    }
}

proof fn pouring_keeps<S: Session>(start: Pouring<S>, path: Seq<Pouring<S>>, i: int)
    requires
        pouring(start, path),
        0 <= i < path.len(),
    ensures
        path[i].out + path[i].conn.queue() == start.out + start.conn.queue(),
        path[i].conn.handshaking() == start.conn.handshaking(),
    decreases i,
{
    if i > 0 {
        pouring_keeps(start, path, i - 1);
        assert(pour_passes(path, i - 1));
        let (more, result): (Seq<u8>, Result<usize, Stall>) = choose|
            more: Seq<u8>,
            result: Result<usize, Stall>,
        | #[trigger] poured(path[i - 1], more, result, path[i - 1 + 1]);
        poured_keeps(path[i - 1], more, result, path[i]);
    }
}

proof fn poured_keeps<S: Session>(
    before: Pouring<S>,
    more: Seq<u8>,
    result: Result<usize, Stall>,
    after: Pouring<S>,
)
    requires
        poured(before, more, result, after),
    ensures
        after.out + after.conn.queue() == before.out + before.conn.queue(),
{
    assert(more + before.conn.queue().skip(more.len() as int) =~= before.conn.queue());
    assert(after.out + after.conn.queue() =~= before.out + before.conn.queue());
}

proof fn emptying_keeps<S: Session>(before: S, after: S, out: Seq<u8>, close: bool)
    requires
        emptied(before, after, out, close),
    ensures
        out + after.queue() == before.queue(),
        after.handshaking() == before.handshaking(),
{
    reveal(emptied);
    let start = Pouring { conn: before, out: Seq::<u8>::empty() };
    let end = Pouring { conn: after, out };
    let path: Seq<Pouring<S>> = choose|path: Seq<Pouring<S>>|
        #![trigger pouring(start, path)]
        pouring(start, path) && pour_ends(path.last(), end, close);
    pouring_keeps(start, path, path.len() - 1);
    if path.last().conn.queue().len() > 0 {
        let (more, result): (Seq<u8>, Result<usize, Stall>) = choose|
            more: Seq<u8>,
            result: Result<usize, Stall>,
        | #[trigger] poured(path.last(), more, result, end);
        poured_keeps(path.last(), more, result, end);
    }
    assert(start.out + start.conn.queue() =~= before.queue());
}

/// Draining loses no ciphertext and keeps its order: what is on its way, followed by
/// what the connection still wants sent, stays the same, unless so much waits that the
/// connection ends.
pub proof fn queued_draining_keeps_ciphertext<S: Session>(before: Line<S>, after: Line<S>)
    requires
        drained(before, after),
        before.conn is Some,
        before.egress.bytes.len() <= before.egress.capacity,
        !after.close,
    ensures
        after.conn is Some,
        after.outbound() + after.conn->0.queue() == before.outbound() + before.conn->0.queue(),
{
    if !before.inflight {
        let conn = before.conn->0;
        let (now, out, close): (S, Seq<u8>, bool) = choose|now: S, out: Seq<u8>, close: bool|
            #[trigger]
            emptied(conn, now, out, close) && after == (Line {
                conn: Some(now),
                close: before.close || close,
                ..before.flush()
            }).stage(out);
        emptying_keeps(conn, now, out, close);
        flushing_keeps_order(before);
        let mid = Line { conn: Some(now), close: before.close || close, ..before.flush() };
        staging_keeps_order(mid, out);
        assert(mid.outbound() =~= before.outbound());
        assert(before.outbound() + out + now.queue() =~= before.outbound() + conn.queue());
    }
}

/// Draining changes neither how far the handshake is nor the application data that waits.
pub proof fn draining_keeps_handshake<S: Session>(before: Line<S>, after: Line<S>)
    requires
        drained(before, after),
    ensures
        after.established() == before.established(),
        after.pending_app == before.pending_app,
{
    if !before.inflight && before.conn is Some {
        let conn = before.conn->0;
        let (now, out, close): (S, Seq<u8>, bool) = choose|now: S, out: Seq<u8>, close: bool|
            #[trigger]
            emptied(conn, now, out, close) && after == (Line {
                conn: Some(now),
                close: before.close || close,
                ..before.flush()
            }).stage(out);
        emptying_keeps(conn, now, out, close);
    }
}

/// A line that nothing was sent on. Without a connection the transport is to be
/// closed.
pub open spec fn fresh<S: Session>(conn: Option<S>) -> Line<S> {
    Line {
        conn,
        pending_app: Seq::empty(),
        pending_recv: Seq::empty(),
        close: conn is None,
        ingress: Seq::empty(),
        egress: Contents { bytes: Seq::empty(), capacity: TLS_STAGING_CAP as nat },
        tail: Seq::empty(),
        inflight: false,
    }
}

impl<S: Session> QueuedTls<S> {
    /// That no more waits than may.
    pub open spec fn wf(self) -> bool {
        &&& self.egress.wf()
        &&& self.pending_app@.len() <= PENDING_APP_CAP
        &&& self.pending_recv@.len() <= PENDING_RECV_CAP
        &&& self.tail@.len() <= TAIL_CAP
    }

    /// A connection, with what it wants sent first on its way. Without one the
    /// transport is to be closed.
    pub fn new(conn: Option<S>) -> (tls: Self)
        ensures
            tls.wf(),
            drained(fresh(conn), tls@),
            tls.egress.tight(),
    {
        let close = conn.is_none();
        let mut tls = QueuedTls {
            conn,
            pending_app: Vec::new(),
            pending_recv: Vec::new(),
            close,
            ingress: Vec::new(),
            egress: Pooled::new(),
            tail: Vec::new(),
            send_inflight: false,
        };
        assert(tls@.pending_app =~= Seq::<u8>::empty());
        assert(tls@.pending_recv =~= Seq::<u8>::empty());
        assert(tls@.ingress =~= Seq::<u8>::empty());
        assert(tls@.tail =~= Seq::<u8>::empty());
        tls.drain_to_egress();
        tls
    }

    fn is_established(&self) -> (is: bool)
        ensures
            is == self@.established(),
    {
        match &self.conn {
            Some(conn) => !conn.is_handshaking(),
            None => false,
        }
    }

    fn egress_has_record_room(&self) -> (room: bool)
        requires
            self.wf(),
        ensures
            room == self@.has_room(),
    {
        self.tail.len() == 0 && self.egress.spare_capacity() >= MAX_TLS_RECORD
    }

    /// Puts ciphertext behind what waits for room.
    fn push_tail(&mut self, bytes: &[u8])
        requires
            old(self).wf(),
        ensures
            final(self).wf(),
            final(self)@ == old(self)@.keep(bytes@),
            final(self).egress == old(self).egress,
    {
        if bytes.len() == 0 {
            return;
        }
        if bytes.len() > TAIL_CAP - self.tail.len() {
            self.close = true;
            return;
        }
        self.tail.extend_from_slice(bytes);
        assert(self@.tail =~= old(self)@.tail + bytes@);
    }

    /// Puts ciphertext into the egress as far as it fits, and lets the rest wait.
    fn stage_ciphertext(&mut self, bytes: &[u8])
        requires
            old(self).wf(),
        ensures
            final(self).wf(),
            final(self)@ == old(self)@.stage(bytes@),
            old(self).egress.tight() ==> final(self).egress.tight(),
    {
        if self.tail.len() > 0 {
            self.push_tail(bytes);
            return;
        }
        let spare: usize = self.egress.spare_capacity();
        let n: usize = if bytes.len() <= spare {
            bytes.len()
        } else {
            spare
        };
        let head = vstd::slice::slice_subrange(bytes, 0, n);
        assert(head@ =~= bytes@.take(n as int));
        self.egress.push(head);
        let rest = vstd::slice::slice_subrange(bytes, n, bytes.len());
        assert(rest@ =~= bytes@.skip(n as int));
        self.push_tail(rest);
    }

    /// Moves what waits to the egress as far as it fits.
    fn flush_tail(&mut self)
        requires
            old(self).wf(),
        ensures
            final(self).wf(),
            final(self)@ == old(self)@.flush(),
            old(self).egress.tight() ==> final(self).egress.tight(),
    {
        if self.send_inflight {
            return;
        }
        let spare: usize = self.egress.spare_capacity();
        let n: usize = if self.tail.len() <= spare {
            self.tail.len()
        } else {
            spare
        };
        let ghost waiting = self.tail@;
        let head = vstd::slice::slice_subrange(self.tail.as_slice(), 0, n);
        assert(head@ =~= waiting.take(n as int));
        self.egress.push(head);
        let rest: Vec<u8> = self.tail.split_off(n);
        self.tail = rest;
        assert(self.tail@ =~= waiting.skip(n as int));
    }

    /// Puts what the connection wants sent behind what is on its way.
    pub fn drain_to_egress(&mut self)
        requires
            old(self).wf(),
        ensures
            final(self).wf(),
            drained(old(self)@, final(self)@),
            final(self).conn is Some == old(self).conn is Some,
            final(self)@.pending_app == old(self)@.pending_app,
            final(self)@.pending_recv == old(self)@.pending_recv,
            final(self)@.ingress == old(self)@.ingress,
            old(self)@.close ==> final(self)@.close,
            old(self).egress.tight() ==> final(self).egress.tight(),
    {
        if self.send_inflight {
            return;
        }
        let ghost before = self@;
        self.flush_tail();
        let mut scratch: Vec<u8> = Vec::new();
        let mut close: bool = false;
        match &mut self.conn {
            None => {
                return;
            },
            Some(conn) => {
                let ghost first = *conn;
                let ghost start = Pouring { conn: first, out: Seq::<u8>::empty() };
                let ghost mut path: Seq<Pouring<S>> = seq![start];
                let mut stop: bool = false;
                assert(scratch@ =~= Seq::<u8>::empty());
                while !stop && conn.wants_write()
                    invariant
                        pouring(start, path),
                        !stop ==> !close && path.last() == (Pouring { conn: *conn, out: scratch@ }),
                        stop ==> pour_ends(
                            path.last(),
                            Pouring { conn: *conn, out: scratch@ },
                            close,
                        ),
                    decreases
                            conn.queue().len(),
                            if stop {
                                0int
                            } else {
                                1int
                            },
                {
                    let ghost last = path.last();
                    let ghost had = scratch@;
                    let result = conn.write_all(&mut scratch);
                    let ghost more = scratch@.skip(had.len() as int);
                    let ghost now = Pouring { conn: *conn, out: scratch@ };
                    assert(poured(last, more, result, now));
                    match result {
                        Ok(count) => {
                            if count == 0 {
                                stop = true;
                            } else {
                                proof {
                                    let longer = path.push(now);
                                    assert forall|i: int|
                                        0 <= i < longer.len() - 1 implies #[trigger] pour_passes(
                                        longer,
                                        i,
                                    ) by {
                                        if i < path.len() - 1 {
                                            assert(pour_passes(path, i));
                                            assert(longer[i] == path[i]);
                                            assert(longer[i + 1] == path[i + 1]);
                                        } else {
                                            assert(poured(longer[i], more, result, longer[i + 1]));
                                        }
                                    }
                                    path = longer;
                                }
                            }
                        },
                        Err(_) => {
                            close = true;
                            stop = true;
                        },
                    }
                }
                proof {
                    reveal(emptied);
                    assert(pour_ends(path.last(), Pouring { conn: *conn, out: scratch@ }, close));
                    assert(pouring(start, path));
                    assert(emptied(first, *conn, scratch@, close));
                }
            },
        }
        self.close = self.close || close;
        self.stage_ciphertext(scratch.as_slice());
        assert(emptied(before.conn->0, self.conn->0, scratch@, close));
    }
}

/// A connection while application data is written: what of it is left.
pub struct Moment<S> {
    pub line: Line<S>,
    pub rest: Seq<u8>,
}

impl<S: Session> Moment<S> {
    /// The data that the next record takes.
    pub open spec fn next(self) -> Seq<u8> {
        self.rest.take(
            if self.rest.len() <= MAX_PLAINTEXT_BODY {
                self.rest.len() as int
            } else {
                MAX_PLAINTEXT_BODY as int
            },
        )
    }

    /// Whether there is something left and room for a record.
    pub open spec fn goes_on(self) -> bool {
        self.rest.len() > 0 && self.line.has_room()
    }

    /// That data was taken in, and what came of it put on its way.
    pub open spec fn wrote(self, mid: S, result: Result<usize, Stall>, after: Moment<S>) -> bool {
        &&& S::seals(self.line.conn->0, self.next(), mid, result)
        &&& mid.plain() == (self.line.conn->0).plain()
        &&& result matches Ok(count) && 0 < count <= self.next().len() && after.rest
            == self.rest.skip(count as int) && drained(
            Line { conn: Some(mid), ..self.line },
            after.line,
        )
    }
}

/// That between two moments data was written.
pub open spec fn write_passes<S: Session>(path: Seq<Moment<S>>, i: int) -> bool {
    &&& path[i].goes_on()
    &&& exists|mid: S, result: Result<usize, Stall>| #[trigger]
        path[i].wrote(mid, result, path[i + 1])
}

/// That data was written piece by piece.
pub open spec fn writing<S: Session>(start: Moment<S>, path: Seq<Moment<S>>) -> bool {
    &&& path.len() > 0
    &&& path[0] == start
    &&& forall|i: int| 0 <= i < path.len() - 1 ==> #[trigger] write_passes(path, i)
}

/// How writing ends: all was written, or there is no room for a record, or the
/// connection takes nothing more.
pub open spec fn write_ends<S: Session>(last: Moment<S>, after: Line<S>) -> bool {
    if !last.goes_on() {
        after == last.line
    } else {
        exists|mid: S, result: Result<usize, Stall>| #[trigger]
            S::seals(last.line.conn->0, last.next(), mid, result) && mid.plain() == (
            last.line.conn->0).plain() && match result {
                Ok(count) => count == 0 && after == (Line { conn: Some(mid), ..last.line }),
                Err(_) => after == (Line { conn: Some(mid), close: true, ..last.line }),
            }
    }
}

/// That data was written as far as it could be.
#[verifier::opaque]
pub open spec fn written<S: Session>(
    before: Line<S>,
    plain: Seq<u8>,
    after: Line<S>,
    count: nat,
) -> bool {
    exists|path: Seq<Moment<S>>|
        #![trigger writing(Moment { line: before, rest: plain }, path)]
        writing(Moment { line: before, rest: plain }, path) && count == plain.len()
            - path.last().rest.len() && write_ends(path.last(), after)
}

/// That data which waited was written as far as it could be, once the handshake is
/// done.
pub open spec fn app_flushed<S: Session>(before: Line<S>, after: Line<S>) -> bool {
    if !before.established() || before.pending_app.len() == 0 {
        after == before
    } else {
        exists|mid: Line<S>, count: nat| #[trigger]
            written(
                Line { pending_app: Seq::empty(), ..before },
                before.pending_app,
                mid,
                count,
            ) && after == (Line { pending_app: before.pending_app.skip(count as int), ..mid })
    }
}

/// That application data was handed over: it waits for the handshake, and behind what
/// waits already.
pub open spec fn encrypted<S: Session>(
    before: Line<S>,
    plain: Seq<u8>,
    after: Line<S>,
    count: nat,
) -> bool {
    if before.conn is None {
        (after, count) == before.put_aside(plain)
    } else {
        exists|mid: Line<S>, now: Line<S>| #[trigger]
            app_flushed(before, mid) && #[trigger] drained(mid, now) && if !now.established()
                || now.pending_app.len() > 0 {
                (after, count) == now.put_aside(plain)
            } else {
                written(now, plain, after, count)
            }
    }
}

/// Until the handshake is done, application data waits: all of it, in order, or, where
/// that would be too much, none of it, and the connection ends.
pub proof fn handshake_data_waits<S: Session>(
    before: Line<S>,
    plain: Seq<u8>,
    after: Line<S>,
    count: nat,
)
    requires
        encrypted(before, plain, after, count),
        !before.established(),
    ensures
        before.pending_app.len() + plain.len() <= PENDING_APP_CAP ==> count == plain.len()
            && after.pending_app == before.pending_app + plain,
        before.pending_app.len() + plain.len() > PENDING_APP_CAP ==> count == 0
            && after.pending_app == before.pending_app && after.close,
{
    if before.conn is Some {
        let (mid, now) = choose|mid: Line<S>, now: Line<S>| #[trigger]
            app_flushed(before, mid) && #[trigger] drained(mid, now) && if !now.established()
                || now.pending_app.len() > 0 {
                (after, count) == now.put_aside(plain)
            } else {
                written(now, plain, after, count)
            };
        draining_keeps_handshake(mid, now);
    }
}

impl<S: Session> QueuedTls<S> {
    /// Puts application data aside until it can be written.
    fn buffer_pending(&mut self, plain: &[u8]) -> (count: usize)
        requires
            old(self).wf(),
        ensures
            final(self).wf(),
            (final(self)@, count as nat) == old(self)@.put_aside(plain@),
            count <= plain@.len(),
    {
        if plain.len() > PENDING_APP_CAP - self.pending_app.len() {
            self.close = true;
            return 0;
        }
        self.pending_app.extend_from_slice(plain);
        assert(self@.pending_app =~= old(self)@.pending_app + plain@);
        plain.len()
    }

    /// Writes application data as far as it can be.
    fn write_records(&mut self, plain: &[u8]) -> (count: usize)
        requires
            old(self).wf(),
            old(self).conn is Some,
        ensures
            final(self).wf(),
            final(self).conn is Some,
            written(old(self)@, plain@, final(self)@, count as nat),
            count <= plain@.len(),
            final(self)@.pending_app == old(self)@.pending_app,
            final(self)@.pending_recv == old(self)@.pending_recv,
    {
        let ghost start = Moment { line: self@, rest: plain@ };
        let ghost mut path: Seq<Moment<S>> = seq![start];
        let size: usize = plain.len();
        let mut consumed: usize = 0;
        let mut stop: bool = false;
        assert(plain@.skip(0) =~= plain@);
        while !stop && consumed < size && self.egress_has_record_room()
            invariant
                self.wf(),
                size == plain@.len(),
                consumed <= size,
                self.conn is Some,
                self@.pending_app == old(self)@.pending_app,
                self@.pending_recv == old(self)@.pending_recv,
                writing(start, path),
                path.last().rest == plain@.skip(consumed as int),
                !stop ==> path.last().line == self@,
                stop ==> write_ends(path.last(), self@),
            decreases
                    size - consumed,
                    if stop {
                        0int
                    } else {
                        1int
                    },
        {
            let ghost last = path.last();
            let take: usize = if size - consumed <= MAX_PLAINTEXT_BODY {
                size - consumed
            } else {
                MAX_PLAINTEXT_BODY
            };
            let piece = vstd::slice::slice_subrange(plain, consumed, consumed + take);
            assert(piece@ =~= last.next());
            let result = match &mut self.conn {
                Some(conn) => conn.write_plain(piece),
                None => Err(Stall::Broken),
            };
            let ghost mid = self.conn->0;
            assert(S::seals(last.line.conn->0, last.next(), mid, result));
            match result {
                Ok(count) => {
                    if count == 0 {
                        stop = true;
                        assert(write_ends(last, self@));
                    } else {
                        assert(self@ == (Line { conn: Some(mid), ..last.line }));
                        self.drain_to_egress();
                        proof {
                            let next = Moment { line: self@, rest: last.rest.skip(count as int) };
                            assert(last.wrote(mid, result, next));
                            let longer = path.push(next);
                            assert forall|i: int|
                                0 <= i < longer.len() - 1 implies #[trigger] write_passes(
                                longer,
                                i,
                            ) by {
                                if i < path.len() - 1 {
                                    assert(write_passes(path, i));
                                    assert(longer[i] == path[i]);
                                    assert(longer[i + 1] == path[i + 1]);
                                } else {
                                    assert(longer[i].wrote(mid, result, longer[i + 1]));
                                }
                            }
                            path = longer;
                            assert(last.rest.skip(count as int) =~= plain@.skip(consumed + count));
                        }
                        consumed = consumed + count;
                    }
                },
                Err(_) => {
                    self.close = true;
                    stop = true;
                    assert(write_ends(last, self@));
                },
            }
        }
        proof {
            reveal(written);
            assert(writing(start, path));
            assert(write_ends(path.last(), self@));
        }
        consumed
    }

    /// Writes application data that waited, once the handshake is done.
    pub fn maybe_flush_pending_app(&mut self)
        requires
            old(self).wf(),
        ensures
            final(self).wf(),
            app_flushed(old(self)@, final(self)@),
            final(self).conn is Some == old(self).conn is Some,
            final(self)@.pending_recv == old(self)@.pending_recv,
    {
        if !self.is_established() || self.pending_app.len() == 0 {
            return;
        }
        let ghost before = self@;
        let mut waiting: Vec<u8> = Vec::new();
        assert(waiting@ =~= Seq::<u8>::empty());
        core::mem::swap(&mut waiting, &mut self.pending_app);
        assert(self@ == (Line { pending_app: Seq::empty(), ..before }));
        let count: usize = self.write_records(waiting.as_slice());
        let ghost mid = self@;
        assert(written(
            Line { pending_app: Seq::empty(), ..before },
            before.pending_app,
            mid,
            count as nat,
        ));
        let rest: Vec<u8> = waiting.split_off(count);
        assert(rest@ =~= before.pending_app.skip(count as int));
        self.pending_app = rest;
    }

    /// Hands application data over. Returns how much was taken.
    pub fn encrypt(&mut self, plain: &[u8]) -> (count: usize)
        requires
            old(self).wf(),
        ensures
            final(self).wf(),
            encrypted(old(self)@, plain@, final(self)@, count as nat),
            count <= plain@.len(),
            !old(self)@.established() ==> if old(self)@.pending_app.len() + plain@.len()
                <= PENDING_APP_CAP {
                count == plain@.len() && final(self)@.pending_app == old(self)@.pending_app + plain@
            } else {
                &&& count == 0
                &&& final(self)@.pending_app == old(self)@.pending_app
                &&& final(self)@.close
            },
    {
        if self.conn.is_none() {
            return self.buffer_pending(plain);
        }
        let ghost before = self@;
        self.maybe_flush_pending_app();
        let ghost mid = self@;
        self.drain_to_egress();
        assert(app_flushed(before, mid) && drained(mid, self@));
        let count: usize = if !self.is_established() || self.pending_app.len() > 0 {
            self.buffer_pending(plain)
        } else {
            self.write_records(plain)
        };
        proof {
            if !before.established() {
                handshake_data_waits(before, plain@, self@, count as nat);
            }
        }
        count
    }
}

/// A connection while its plaintext is read.
pub struct Sipping<S> {
    pub conn: S,
    pub out: Seq<u8>,
}

/// That a piece of plaintext was read.
pub open spec fn sipped<S: Session>(
    before: Sipping<S>,
    mid: S,
    chunk: Seq<u8>,
    after: Sipping<S>,
) -> bool {
    &&& S::shows(before.conn, mid, Ok(chunk))
    &&& chunk.len() > 0
    &&& chunk.is_prefix_of(before.conn.plain())
    &&& S::drops(mid, chunk.len() as int, after.conn)
    &&& after.conn.plain() == before.conn.plain().skip(chunk.len() as int)
    &&& after.out == before.out + chunk
}

/// That between two moments a piece of plaintext was read.
pub open spec fn sip_passes<S: Session>(path: Seq<Sipping<S>>, i: int) -> bool {
    exists|mid: S, chunk: Seq<u8>| #[trigger] sipped(path[i], mid, chunk, path[i + 1])
}

/// That plaintext was read piece by piece.
pub open spec fn sipping<S: Session>(start: Sipping<S>, path: Seq<Sipping<S>>) -> bool {
    &&& path.len() > 0
    &&& path[0] == start
    &&& forall|i: int| 0 <= i < path.len() - 1 ==> #[trigger] sip_passes(path, i)
}

/// How reading ends: there is nothing more at the moment, or the connection is to be
/// closed.
pub open spec fn sip_ends<S: Session>(last: S, after: S, close: bool) -> bool {
    &&& last.plain().len() == 0
    &&& after.plain() == last.plain()
    &&& {
        ||| S::shows(last, after, Ok(Seq::empty())) && close
        ||| S::shows(last, after, Err(Stall::WouldBlock)) && !close
        ||| S::shows(last, after, Err(Stall::Broken)) && close
    }
}

/// That the plaintext of a connection was read.
#[verifier::opaque]
pub open spec fn conn_read<S: Session>(
    before: S,
    out: Seq<u8>,
    after: S,
    left: Seq<u8>,
    close: bool,
) -> bool {
    exists|path: Seq<Sipping<S>>|
        #![trigger sipping(Sipping { conn: before, out }, path)]
        sipping(Sipping { conn: before, out }, path) && left == path.last().out && sip_ends(
            path.last().conn,
            after,
            close,
        )
}

proof fn sipping_keeps<S: Session>(start: Sipping<S>, path: Seq<Sipping<S>>, i: int)
    requires
        sipping(start, path),
        0 <= i < path.len(),
    ensures
        path[i].out + path[i].conn.plain() == start.out + start.conn.plain(),
    decreases i,
{
    if i > 0 {
        sipping_keeps(start, path, i - 1);
        assert(sip_passes(path, i - 1));
        let (mid, chunk): (S, Seq<u8>) = choose|mid: S, chunk: Seq<u8>| #[trigger]
            sipped(path[i - 1], mid, chunk, path[i - 1 + 1]);
        let all = path[i - 1].conn.plain();
        assert(chunk + all.skip(chunk.len() as int) =~= all);
        assert(path[i].out + path[i].conn.plain() =~= path[i - 1].out + all);
    }
}

/// Reading takes all plaintext there is, in order.
pub proof fn reading_takes_all_plaintext<S: Session>(
    before: S,
    out: Seq<u8>,
    after: S,
    left: Seq<u8>,
    close: bool,
)
    requires
        conn_read(before, out, after, left, close),
    ensures
        left == out + before.plain(),
        after.plain().len() == 0,
{
    reveal(conn_read);
    let start = Sipping { conn: before, out };
    let path: Seq<Sipping<S>> = choose|path: Seq<Sipping<S>>|
        #![trigger sipping(start, path)]
        sipping(start, path) && left == path.last().out && sip_ends(
            path.last().conn,
            after,
            close,
        );
    sipping_keeps(start, path, path.len() - 1);
    assert(left + path.last().conn.plain() =~= left);
}

/// That the plaintext of a line's connection was read.
pub open spec fn read_out<S: Session>(
    before: Line<S>,
    out: Seq<u8>,
    after: Line<S>,
    left: Seq<u8>,
) -> bool {
    match before.conn {
        None => after == before && left == out,
        Some(conn) => exists|now: S, close: bool| #[trigger]
            conn_read(conn, out, now, left, close) && after == (Line {
                conn: Some(now),
                close: before.close || close,
                ..before
            }),
    }
}

/// A connection while ciphertext is taken in: what of it is left, and the plaintext
/// that came of it.
pub struct Feeding<S> {
    pub line: Line<S>,
    pub rest: Seq<u8>,
    pub out: Seq<u8>,
}

impl<S: Session> Feeding<S> {
    pub open spec fn conn(self) -> S {
        self.line.conn->0
    }

    /// With another state of the connection itself.
    pub open spec fn with(self, conn: S) -> Line<S> {
        Line { conn: Some(conn), ..self.line }
    }

    /// That ciphertext was taken in and handled, and the plaintext that came of it
    /// read.
    pub open spec fn took(
        self,
        fed: S,
        taken: Result<usize, Refusal>,
        handled: S,
        progress: Result<Progress, Stall>,
        after: Feeding<S>,
    ) -> bool {
        &&& S::takes(self.conn(), self.rest, fed, taken)
        &&& fed.plain() == self.conn().plain()
        &&& fed.plain().is_prefix_of(handled.plain())
        &&& taken matches Ok(count) && 0 < count <= self.rest.len() && after.rest == self.rest.skip(
            count as int,
        )
        &&& S::handles(fed, handled, progress)
        &&& progress matches Ok(progress) && read_out(
            Line {
                close: self.line.close || progress.peer_has_closed,
                ..self.with(handled)
            },
            self.out,
            after.line,
            after.out,
        )
    }

    /// That the connection took nothing before its plaintext was read, and that some
    /// was.
    pub open spec fn relieved(self, fed: S, after: Feeding<S>) -> bool {
        &&& S::takes(self.conn(), self.rest, fed, Err(Refusal::Full))
        &&& fed.plain() == self.conn().plain()
        &&& read_out(self.with(fed), self.out, after.line, after.out)
        &&& !after.line.close
        &&& after.out.len() > self.out.len()
        &&& after.rest == self.rest
    }
}

/// That ciphertext was taken in, or room was made for it.
pub open spec fn feed_step<S: Session>(before: Feeding<S>, after: Feeding<S>) -> bool {
    &&& before.rest.len() > 0
    &&& {
        ||| exists|
            fed: S,
            taken: Result<usize, Refusal>,
            handled: S,
            progress: Result<Progress, Stall>,
        | #[trigger] before.took(fed, taken, handled, progress, after)
        ||| exists|fed: S| #[trigger] before.relieved(fed, after)
    }
}

/// That this holds between two moments.
pub open spec fn feed_passes<S: Session>(path: Seq<Feeding<S>>, i: int) -> bool {
    feed_step(path[i], path[i + 1])
}

/// That ciphertext was taken in piece by piece.
pub open spec fn feeding<S: Session>(start: Feeding<S>, path: Seq<Feeding<S>>) -> bool {
    &&& path.len() > 0
    &&& path[0] == start
    &&& forall|i: int| 0 <= i < path.len() - 1 ==> #[trigger] feed_passes(path, i)
}

/// How taking in ends: all was taken, or the connection takes nothing more, or what
/// is left waits, or the connection is to be closed.
pub open spec fn feed_ends<S: Session>(last: Feeding<S>, after: Line<S>, left: Seq<u8>) -> bool {
    if last.rest.len() == 0 {
        after == last.line && left == last.out
    } else {
        exists|fed: S, taken: Result<usize, Refusal>| #[trigger]
            S::takes(last.conn(), last.rest, fed, taken) && fed.plain() == last.conn().plain()
                && match taken {
                Ok(count) => if count == 0 {
                    after == last.with(fed) && left == last.out
                } else {
                    exists|handled: S, progress: Result<Progress, Stall>| #[trigger]
                        S::handles(fed, handled, progress) && fed.plain().is_prefix_of(
                            handled.plain(),
                        ) && progress is Err && left == last.out && after == (Line { close: true, ..last.with(handled) })
                },
                Err(Refusal::Full) => exists|mid: Line<S>| #[trigger]
                    read_out(last.with(fed), last.out, mid, left) && if mid.close {
                        after == mid
                    } else {
                        left.len() == last.out.len() && after == mid.hold_back(last.rest)
                    },
                Err(Refusal::Broken) => left == last.out && after == (Line {
                    close: true,
                    ..last.with(fed)
                }),
            }
    }
}

/// That ciphertext was taken in behind what waited, and the plaintext that came of it
/// read. Without a connection the bytes are kept as they are.
pub open spec fn ingested<S: Session>(
    before: Line<S>,
    input: Seq<u8>,
    after: Line<S>,
    out: Seq<u8>,
) -> bool {
    if before.conn is None {
        after == (Line { ingress: before.ingress + input, ..before }) && out.len() == 0
    } else {
        exists|path: Seq<Feeding<S>>|
            #![trigger feeding(
                Feeding {
                    line: Line { pending_recv: Seq::empty(), ..before },
                    rest: before.pending_recv + input,
                    out: Seq::empty(),
                },
                path,
            )]
            feeding(
                Feeding {
                    line: Line { pending_recv: Seq::empty(), ..before },
                    rest: before.pending_recv + input,
                    out: Seq::empty(),
                },
                path,
            ) && feed_ends(path.last(), after, out)
    }
}

proof fn feeding_keeps<S: Session>(start: Feeding<S>, path: Seq<Feeding<S>>, i: int)
    requires
        feeding(start, path),
        0 <= i < path.len(),
    ensures
        path[i].rest.is_suffix_of(start.rest),
        path[i].line.pending_recv == start.line.pending_recv,
    decreases i,
{
    if i > 0 {
        feeding_keeps(start, path, i - 1);
        assert(feed_passes(path, i - 1));
        assert(feed_step(path[i - 1], path[i - 1 + 1]));
        let rest = path[i - 1].rest;
        assert(forall|count: int|
            0 <= count <= rest.len() ==> (#[trigger] rest.skip(count)).is_suffix_of(start.rest));
    }
}

/// Ciphertext that the connection could not take waits in order: what waits is the end
/// of what waited before and what came in.
pub proof fn waiting_keeps_order<S: Session>(
    before: Line<S>,
    input: Seq<u8>,
    after: Line<S>,
    out: Seq<u8>,
)
    requires
        before.conn is Some,
        ingested(before, input, after, out),
    ensures
        after.pending_recv.is_suffix_of(before.pending_recv + input),
{
    let start = Feeding {
        line: Line { pending_recv: Seq::empty(), ..before },
        rest: before.pending_recv + input,
        out: Seq::empty(),
    };
    let path: Seq<Feeding<S>> = choose|path: Seq<Feeding<S>>|
        #![trigger feeding(start, path)]
        feeding(start, path) && feed_ends(path.last(), after, out);
    feeding_keeps(start, path, path.len() - 1);
    assert(Seq::<u8>::empty().is_suffix_of(start.rest));
    assert(Seq::<u8>::empty() + path.last().rest =~= path.last().rest);
}

/// A connection that takes no more until its plaintext is read does not end for that:
/// what it could not take waits, as long as not too much does.
pub proof fn backpressure_ends_nothing<S: Session>(line: Line<S>, bytes: Seq<u8>)
    requires
        line.pending_recv.len() + bytes.len() <= PENDING_RECV_CAP,
    ensures
        line.hold_back(bytes).close == line.close,
        line.hold_back(bytes).pending_recv == line.pending_recv + bytes,
{
}

/// What one turn of taking in comes to.
enum Turn {
    On(usize),
    Done,
}

impl<S: Session> QueuedTls<S> {
    /// Reads the plaintext there is.
    fn drain_reader(&mut self, out: &mut Vec<u8>)
        requires
            old(self).wf(),
        ensures
            final(self).wf(),
            read_out(old(self)@, old(out)@, final(self)@, final(out)@),
            final(self).conn is Some == old(self).conn is Some,
            old(self).conn is Some ==> final(out)@ == old(out)@ + old(self).conn->0.plain()
                && final(self).conn->0.plain().len() == 0,
    {
        let mut close: bool = false;
        match &mut self.conn {
            None => {
                return;
            },
            Some(conn) => {
                let ghost first = *conn;
                let ghost start = Sipping { conn: first, out: out@ };
                let ghost mut path: Seq<Sipping<S>> = seq![start];
                let mut stop: bool = false;
                while !stop
                    invariant
                        sipping(start, path),
                        out@ == path.last().out,
                        !stop ==> !close && path.last().conn == *conn,
                        stop ==> sip_ends(path.last().conn, *conn, close),
                    decreases
                            conn.plain().len(),
                            if stop {
                                0int
                            } else {
                                1int
                            },
                {
                    let ghost last = path.last();
                    match conn.first_chunk() {
                        Ok(chunk) => {
                            let ghost mid = *conn;
                            if chunk.len() == 0 {
                                assert(chunk@ =~= Seq::<u8>::empty());
                                close = true;
                                stop = true;
                            } else {
                                out.extend_from_slice(chunk.as_slice());
                                conn.consume(chunk.len());
                                proof {
                                    let next = Sipping { conn: *conn, out: out@ };
                                    assert(out@ =~= last.out + chunk@);
                                    assert(sipped(last, mid, chunk@, next));
                                    let longer = path.push(next);
                                    assert forall|i: int|
                                        0 <= i < longer.len() - 1 implies #[trigger] sip_passes(
                                        longer,
                                        i,
                                    ) by {
                                        if i < path.len() - 1 {
                                            assert(sip_passes(path, i));
                                            assert(longer[i] == path[i]);
                                            assert(longer[i + 1] == path[i + 1]);
                                        } else {
                                            assert(sipped(longer[i], mid, chunk@, longer[i + 1]));
                                        }
                                    }
                                    path = longer;
                                }
                            }
                        },
                        Err(Stall::WouldBlock) => {
                            stop = true;
                        },
                        Err(Stall::Broken) => {
                            close = true;
                            stop = true;
                        },
                    }
                }
                proof {
                    reveal(conn_read);
                    assert(sipping(start, path));
                    assert(conn_read(first, start.out, *conn, out@, close));
                    reading_takes_all_plaintext(first, start.out, *conn, out@, close);
                }
            },
        }
        self.close = self.close || close;
    }

    /// Puts ciphertext aside that the connection could not take.
    fn buffer_pending_recv(&mut self, bytes: &[u8])
        requires
            old(self).wf(),
        ensures
            final(self).wf(),
            final(self)@ == old(self)@.hold_back(bytes@),
    {
        if bytes.len() > PENDING_RECV_CAP - self.pending_recv.len() {
            self.close = true;
            return;
        }
        self.pending_recv.extend_from_slice(bytes);
        assert(self@.pending_recv =~= old(self)@.pending_recv + bytes@);
    }

    /// Takes some ciphertext in, and reads the plaintext that came of it.
    fn feed(&mut self, input: &[u8], out: &mut Vec<u8>) -> (turn: Turn)
        requires
            old(self).wf(),
            old(self).conn is Some,
            input@.len() > 0,
        ensures
            final(self).wf(),
            final(self).conn is Some,
            ({
                let last = Feeding { line: old(self)@, rest: input@, out: old(out)@ };
                match turn {
                    Turn::On(count) => count <= input@.len() && (count == 0 ==> old(
                        self,
                    ).conn->0.plain().len() > 0 && final(self).conn->0.plain().len() == 0)
                        && feed_step(
                        last,
                        Feeding {
                            line: final(self)@,
                            rest: input@.skip(count as int),
                            out: final(out)@,
                        },
                    ),
                    Turn::Done => feed_ends(last, final(self)@, final(out)@),
                }
            }),
    {
        let ghost last = Feeding { line: self@, rest: input@, out: out@ };
        let taken = match &mut self.conn {
            Some(conn) => conn.read_tls(input),
            None => Err(Refusal::Broken),
        };
        let ghost fed = self.conn->0;
        assert(S::takes(last.conn(), last.rest, fed, taken));
        assert(self@ == last.with(fed));
        match taken {
            Ok(count) => {
                if count == 0 {
                    return Turn::Done;
                }
                let progress = match &mut self.conn {
                    Some(conn) => conn.process_new_packets(),
                    None => Err(Stall::Broken),
                };
                let ghost handled = self.conn->0;
                assert(S::handles(fed, handled, progress));
                match progress {
                    Ok(state) => {
                        if state.peer_has_closed {
                            self.close = true;
                        }
                        self.drain_reader(out);
                        proof {
                            let next = Feeding {
                                line: self@,
                                rest: input@.skip(count as int),
                                out: out@,
                            };
                            assert(last.took(fed, taken, handled, progress, next));
                        }
                        Turn::On(count)
                    },
                    Err(_) => {
                        self.close = true;
                        Turn::Done
                    },
                }
            },
            Err(Refusal::Full) => {
                let had: usize = out.len();
                self.drain_reader(out);
                let ghost mid = self@;
                assert(read_out(last.with(fed), last.out, mid, out@));
                if self.close {
                    return Turn::Done;
                }
                if out.len() == had {
                    self.buffer_pending_recv(input);
                    return Turn::Done;
                }
                proof {
                    let next = Feeding { line: self@, rest: input@.skip(0), out: out@ };
                    assert(input@.skip(0) =~= input@);
                    assert(last.relieved(fed, next));
                }
                Turn::On(0)
            },
            Err(Refusal::Broken) => {
                self.close = true;
                Turn::Done
            },
        }
    }

    /// Takes ciphertext in behind what waited, and returns the plaintext that came of
    /// it.
    pub fn ingress_decrypt(&mut self, wire_in: &[u8]) -> (out: Vec<u8>)
        requires
            old(self).wf(),
        ensures
            final(self).wf(),
            final(self).conn is Some == old(self).conn is Some,
            ingested(old(self)@, wire_in@, final(self)@, out@),
    {
        let mut out: Vec<u8> = Vec::new();
        if self.conn.is_none() {
            self.ingress.extend_from_slice(wire_in);
            assert(self@.ingress =~= old(self)@.ingress + wire_in@);
            return out;
        }
        let ghost before = self@;
        let mut input: Vec<u8> = Vec::new();
        assert(input@ =~= Seq::<u8>::empty());
        core::mem::swap(&mut input, &mut self.pending_recv);
        input.extend_from_slice(wire_in);
        assert(input@ =~= before.pending_recv + wire_in@);
        assert(out@ =~= Seq::<u8>::empty());
        let ghost start = Feeding {
            line: Line { pending_recv: Seq::empty(), ..before },
            rest: before.pending_recv + wire_in@,
            out: Seq::empty(),
        };
        assert(self@ == start.line);
        let ghost mut path: Seq<Feeding<S>> = seq![start];
        let size: usize = input.len();
        let mut offset: usize = 0;
        assert(input@.skip(0) =~= input@);
        while offset < size
            invariant
                self.wf(),
                before == old(self)@,
                size == input@.len(),
                offset <= size,
                self.conn is Some,
                before.conn is Some,
                start == (Feeding {
                    line: Line { pending_recv: Seq::empty(), ..before },
                    rest: before.pending_recv + wire_in@,
                    out: Seq::empty(),
                }),
                feeding(start, path),
                path.last() == (Feeding {
                    line: self@,
                    rest: input@.skip(offset as int),
                    out: out@,
                }),
            decreases size - offset, self.conn->0.plain().len(),
        {
            let rest = vstd::slice::slice_subrange(input.as_slice(), offset, size);
            assert(rest@ =~= input@.skip(offset as int));
            match self.feed(rest, &mut out) {
                Turn::On(count) => {
                    proof {
                        assert(rest@.skip(count as int) =~= input@.skip(offset + count));
                        let next = Feeding {
                            line: self@,
                            rest: input@.skip(offset + count),
                            out: out@,
                        };
                        let longer = path.push(next);
                        assert forall|i: int|
                            0 <= i < longer.len() - 1 implies #[trigger] feed_passes(longer, i) by {
                            if i < path.len() - 1 {
                                assert(feed_passes(path, i));
                            }
                        }
                        path = longer;
                    }
                    offset = offset + count;
                },
                Turn::Done => {
                    assert(feeding(start, path));
                    return out;
                },
            }
        }
        assert(feeding(start, path));
        out
    }
}

/// That received bytes were taken in, what waited was written if it could be, and
/// what the connection wants sent put on its way.
pub open spec fn received<S: Session>(
    before: Line<S>,
    input: Seq<u8>,
    after: Line<S>,
    data: Seq<u8>,
) -> bool {
    exists|taken: Line<S>, out: Seq<u8>, mid: Line<S>, now: Line<S>|
        #![trigger ingested(before, input, taken, out), app_flushed(taken, mid), drained(mid, now)]
        ingested(before, input, taken, out) && app_flushed(taken, mid) && drained(mid, now) && if now
            .conn is None {
            after == (Line { ingress: Seq::empty(), ..now }) && data == now.ingress
        } else {
            read_out(now, out, after, data)
        }
}

/// That the peer was told of the end, if the handshake is done.
pub open spec fn notified<S: Session>(before: Line<S>, after: Line<S>) -> bool {
    if before.established() {
        S::tells(before.conn->0, after.conn->0) && after == (Line {
            conn: Some(after.conn->0),
            ..before
        })
    } else {
        after == before
    }
}

/// That the end of a connection was told to the peer, as far as the egress can be
/// sent, and to the transport.
pub open spec fn told<S: Session>(
    before: Line<S>,
    busy: bool,
    after: Line<S>,
    submit: bool,
) -> bool {
    if before.close {
        exists|mid: Line<S>, now: Line<S>| #[trigger]
            notified(before, mid) && #[trigger] drained(mid, now) && (after, submit) == now.submit(
                busy,
            )
    } else {
        after == before && !submit
    }
}

/// That the egress was submitted, and the end of the connection passed on.
pub open spec fn handed_on<S: Session>(
    mid: Line<S>,
    busy: bool,
    after: Line<S>,
    done: Submission,
) -> bool {
    let (sent, first) = mid.submit(busy);
    &&& if first {
        told(sent, true, after, false) && done.submit
    } else {
        told(sent, busy, after, done.submit)
    }
    &&& done.close_after == sent.close
}

impl<S: Session> QueuedTls<S> {
    /// The bytes that are to be sent.
    pub fn egress_slice(&self) -> (bytes: &[u8])
        ensures
            bytes@ == self@.egress.bytes,
    {
        self.egress.as_slice()
    }

    /// Takes received bytes in, and hands out the data that came of them.
    pub fn process_recv(&mut self, bytes: &[u8]) -> (data: Option<Vec<u8>>)
        requires
            old(self).wf(),
        ensures
            final(self).wf(),
            exists|all: Seq<u8>| #[trigger]
                received(old(self)@, bytes@, final(self)@, all) && match data {
                    Some(data) => data@ == all && all.len() > 0,
                    None => all.len() == 0,
                },
    {
        let ghost before = self@;
        let mut data: Vec<u8> = self.ingress_decrypt(bytes);
        let ghost taken = self@;
        let ghost out = data@;
        self.maybe_flush_pending_app();
        let ghost mid = self@;
        self.drain_to_egress();
        let ghost now = self@;
        if self.conn.is_none() {
            let mut kept: Vec<u8> = Vec::new();
            assert(kept@ =~= Seq::<u8>::empty());
            core::mem::swap(&mut kept, &mut self.ingress);
            data = kept;
        } else {
            self.drain_reader(&mut data);
        }
        assert(ingested(before, bytes@, taken, out) && app_flushed(taken, mid) && drained(
            mid,
            now,
        ));
        assert(received(before, bytes@, self@, data@));
        if data.len() == 0 {
            None
        } else {
            Some(data)
        }
    }

    /// Has the egress sent, if there is something in it and no send is under way.
    fn submit_wire_buf(&mut self, busy: bool) -> (submit: bool)
        requires
            old(self).wf(),
        ensures
            final(self).wf(),
            (final(self)@, submit) == old(self)@.submit(busy),
            final(self).egress == old(self).egress,
    {
        if busy || self.egress.is_empty() {
            return false;
        }
        self.send_inflight = true;
        true
    }

    /// Tells the peer that the connection ends, if it does.
    fn propagate_close(&mut self, busy: bool) -> (submit: bool)
        requires
            old(self).wf(),
        ensures
            final(self).wf(),
            told(old(self)@, busy, final(self)@, submit),
            old(self)@.close ==> final(self)@.close,
            old(self).egress.tight() ==> final(self).egress.tight(),
    {
        if !self.close {
            return false;
        }
        let ghost before = self@;
        if self.is_established() {
            match &mut self.conn {
                Some(conn) => conn.send_close_notify(),
                None => {},
            }
        }
        let ghost mid = self@;
        assert(notified(before, mid));
        self.drain_to_egress();
        assert(drained(mid, self@));
        self.submit_wire_buf(busy)
    }

    /// Has the egress sent, and passes the end of the connection on.
    fn hand_on(&mut self, consumed: usize, busy: bool) -> (done: Submission)
        requires
            old(self).wf(),
        ensures
            final(self).wf(),
            handed_on(old(self)@, busy, final(self)@, done),
            done.consumed == consumed,
    {
        let first = self.submit_wire_buf(busy);
        let close = self.close;
        let second = self.propagate_close(busy || first);
        Submission { consumed, submit: first || second, close_after: close }
    }

    /// Hands application data over, and has the egress sent. `busy` says whether the
    /// transport has a send under way.
    pub fn submit_send(&mut self, plain: &[u8], busy: bool) -> (done: Submission)
        requires
            old(self).wf(),
        ensures
            final(self).wf(),
            exists|mid: Line<S>|
                encrypted(old(self)@, plain@, mid, done.consumed as nat) && #[trigger] handed_on(
                    mid,
                    busy,
                    final(self)@,
                    done,
                ),
            done.consumed <= plain@.len(),
    {
        let consumed: usize = self.encrypt(plain);
        let ghost mid = self@;
        assert(encrypted(old(self)@, plain@, mid, consumed as nat));
        self.hand_on(consumed, busy)
    }

    /// Writes what waits, and has the egress sent.
    pub fn flush_pending(&mut self, busy: bool) -> (done: Submission)
        requires
            old(self).wf(),
        ensures
            final(self).wf(),
            exists|mid: Line<S>|
                encrypted(old(self)@, Seq::empty(), mid, 0) && #[trigger] handed_on(
                    mid,
                    busy,
                    final(self)@,
                    done,
                ),
            done.consumed == 0,
    {
        let nothing: &[u8] = &[];
        assert(nothing@ =~= Seq::<u8>::empty());
        self.submit_send(nothing, busy)
    }

    /// Hands parts of application data over, one after the other, and has the egress
    /// sent.
    pub fn submit_send_vectored(&mut self, parts: &[&[u8]], busy: bool) -> (done: Submission)
        requires
            old(self).wf(),
            wire::total_len(parts@, parts@.len() as int) <= usize::MAX,
        ensures
            final(self).wf(),
            exists|mid: Line<S>|
                gathered(old(self)@, parts@, mid, done.consumed as nat) && #[trigger] handed_on(
                    mid,
                    busy,
                    final(self)@,
                    done,
                ),
    {
        let consumed: usize = self.gather(parts);
        let ghost mid = self@;
        assert(gathered(old(self)@, parts@, mid, consumed as nat));
        self.hand_on(consumed, busy)
    }

    /// Takes parts one after the other, up to the first that is not taken whole.
    fn gather(&mut self, parts: &[&[u8]]) -> (consumed: usize)
        requires
            old(self).wf(),
            wire::total_len(parts@, parts@.len() as int) <= usize::MAX,
        ensures
            final(self).wf(),
            gathered(old(self)@, parts@, final(self)@, consumed as nat),
    {
        let ghost before = self@;
        let ghost mut path: Seq<Line<S>> = seq![self@];
        let mut consumed: usize = 0;
        let mut at: usize = 0;
        while at < parts.len()
            invariant
                self.wf(),
                before == old(self)@,
                at <= parts@.len(),
                path.len() == at + 1,
                taking(before, parts@, path),
                path.last() == self@,
                consumed == wire::total_len(parts@, at as int),
                wire::total_len(parts@, parts@.len() as int) <= usize::MAX,
            decreases parts@.len() - at,
        {
            let part = parts[at];
            let ghost last = self@;
            proof {
                wire::total_len_grows(parts@, at + 1, parts@.len() as int);
            }
            if part.len() > 0 {
                let count: usize = self.encrypt(part);
                if count < part.len() {
                    proof {
                        reveal(gathered);
                        assert(taking(before, parts@, path));
                        assert(encrypted(last, parts@[at as int]@, self@, count as nat));
                    }
                    return consumed + count;
                }
                consumed = consumed + count;
            }
            proof {
                let longer = path.push(self@);
                assert forall|i: int| 0 <= i < longer.len() - 1 implies #[trigger] part_passes(
                    longer,
                    parts@,
                    i,
                ) by {
                    if i < path.len() - 1 {
                        assert(part_passes(path, parts@, i));
                    }
                }
                path = longer;
            }
            at = at + 1;
        }
        proof {
            reveal(gathered);
            assert(taking(before, parts@, path));
        }
        consumed
    }

    /// A send has ended with `sent` bytes on the wire. Says whether another is on its
    /// way, and otherwise whether the transport is to be closed.
    pub fn after_send_cqe(&mut self, sent: usize, busy: bool) -> (done: (bool, Submission))
        requires
            old(self).wf(),
            sent <= old(self)@.egress.bytes.len(),
        ensures
            final(self).wf(),
            went_on(old(self)@, sent as int, busy, final(self)@, done),
            final(self).egress.tight(),
    {
        self.send_inflight = false;
        self.egress.consume(sent);
        assert(self@ == freed(old(self)@, sent as int));
        self.drain_to_egress();
        let ghost mid = self@;
        assert(drained(freed(old(self)@, sent as int), mid));
        if self.egress.is_empty() {
            self.egress.release_if_empty();
            let close = self.close;
            let submit = self.propagate_close(busy);
            return (false, Submission { consumed: 0, submit, close_after: close });
        }
        let submit = self.submit_wire_buf(busy);
        (true, Submission { consumed: 0, submit, close_after: false })
    }

    /// The application protocol that was agreed on.
    pub fn alpn_protocol(&self) -> (protocol: Option<&[u8]>)
        ensures
            match (protocol, self.conn) {
                (Some(protocol), Some(conn)) => conn.alpn() == Some(protocol@),
                (None, Some(conn)) => conn.alpn() is None,
                (None, None) => true,
                _ => false,
            },
    {
        match &self.conn {
            Some(conn) => conn.alpn_protocol(),
            None => None,
        }
    }
}

/// A line whose send has ended with so many bytes on the wire.
pub open spec fn freed<S: Session>(line: Line<S>, sent: int) -> Line<S> {
    Line { inflight: false, egress: line.egress.skip(sent), ..line }
}

/// That a send has ended with `sent` bytes on the wire, and the rest is on its way.
pub open spec fn went_on<S: Session>(
    before: Line<S>,
    sent: int,
    busy: bool,
    after: Line<S>,
    done: (bool, Submission),
) -> bool {
    exists|mid: Line<S>| #[trigger]
        drained(freed(before, sent), mid) && if mid.egress.bytes.len() == 0 {
            told(mid, busy, after, done.1.submit) && !done.0 && done.1.close_after == mid.close
                && done.1.consumed == 0
        } else {
            done.0 && (after, done.1.submit) == mid.submit(busy) && !done.1.close_after
                && done.1.consumed == 0
        }
}

/// That between two parts one was taken whole.
pub open spec fn part_passes<S: Session>(path: Seq<Line<S>>, parts: Seq<&[u8]>, i: int) -> bool {
    if parts[i]@.len() == 0 {
        path[i + 1] == path[i]
    } else {
        encrypted(path[i], parts[i]@, path[i + 1], parts[i]@.len())
    }
}

/// That parts were taken whole, one after the other.
pub open spec fn taking<S: Session>(
    before: Line<S>,
    parts: Seq<&[u8]>,
    path: Seq<Line<S>>,
) -> bool {
    &&& 0 < path.len() <= parts.len() + 1
    &&& path[0] == before
    &&& forall|i: int| 0 <= i < path.len() - 1 ==> #[trigger] part_passes(path, parts, i)
}

/// That parts were taken one after the other, up to the first that was not taken
/// whole.
#[verifier::opaque]
pub open spec fn gathered<S: Session>(
    before: Line<S>,
    parts: Seq<&[u8]>,
    after: Line<S>,
    count: nat,
) -> bool {
    exists|path: Seq<Line<S>>| #[trigger]
        taking(before, parts, path) && ({
            let n = path.len() - 1;
            if n == parts.len() {
                after == path.last() && count == wire::total_len(parts, n)
            } else {
                exists|short: nat| #[trigger]
                    encrypted(path.last(), parts[n]@, after, short) && short < parts[n]@.len()
                        && count == wire::total_len(parts, n) + short
            }
        })
}

/// The connection that connecting came to, if any.
pub open spec fn made(result: Result<Option<RustlsConnection>, RustlsError>) -> Option<
    RustlsConnection,
> {
    match result {
        Ok(conn) => conn,
        Err(_) => None,
    }
}

impl RustTlsEndpoint {
    /// Connects, if there is something to connect to.
    fn connect(&self) -> (result: Result<Option<RustlsConnection>, RustlsError>)
        ensures
            self.connects(result),
    {
        match self {
            RustTlsEndpoint::Nowhere => Ok(None),
            RustTlsEndpoint::Server(config) => match session::connect_server(config) {
                Ok(conn) => Ok(Some(conn)),
                Err(error) => Err(error),
            },
            RustTlsEndpoint::Client { config, server_name } => match session::connect_client(
                config,
                server_name,
            ) {
                Ok(conn) => Ok(Some(conn)),
                Err(error) => Err(error),
            },
        }
    }

    /// A connection of its own. One that cannot be made leaves a line whose transport
    /// is to be closed.
    pub fn open_queued(&self) -> (tls: QueuedTls<RustlsConnection>)
        ensures
            tls.wf(),
            exists|result: Result<Option<RustlsConnection>, RustlsError>| #[trigger]
                self.connects(result) && drained(fresh(made(result)), tls@),
    {
        let result = self.connect();
        let ghost came = result;
        let conn = match result {
            Ok(conn) => conn,
            Err(_) => None,
        };
        assert(self.connects(came) && conn == made(came));
        QueuedTls::new(conn)
    }
}

} // verus!
