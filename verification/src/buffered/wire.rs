//! Connections that keep application data, on a wire.

use crate::buffer::Contents;
use crate::buffered::engines::{self, ClientEngine, Engine, OwnedEvent, ServerEngine, Wish};
use crate::buffered::held::{self, Held, Whole};
use crate::buffered::pooled::Pooled;
use crate::buffered::{self, State};
use crate::clock::WallClock;
use crate::error::Error;
use crate::staging::{MAX_PLAINTEXT_BODY, MAX_TLS_RECORD, TLS_STAGING_CAP};
use crate::state;
use crate::state::status::Phase;
use shin::client::config::{Config as ClientConfig, Error as ConfigError};
use shin::connection::{Epoch, Error as HandshakeError};
use shin::server::config::Config as ServerConfig;
use shin::wire::record::CipherSuite;
use vstd::prelude::*;

verus! {

/// How much application data waits for the handshake at most.
pub const PENDING_APP_CAP: usize = 1048576;

/// How many received bytes wait for a connection at most.
pub const INGRESS_CAP: usize = 1048576;

/// A connection, and the application data that it could not take yet.
pub struct ConnState<E: Engine> {
    pub tls: Option<State<E>>,
    pub pending_app: Vec<u8>,
    /// Whether the transport is to be closed.
    pub close: bool,
}

/// A connection on a wire.
pub struct Tls<E: Engine> {
    pub state: ConnState<E>,
    pub ingress: Vec<u8>,
    pub egress: Pooled,
    /// Whether a send of `egress` is under way, during which it may not move.
    pub send_inflight: bool,
}

/// A connection on a wire, by what it holds.
pub struct Link<E> {
    pub tls: Option<Whole<E>>,
    pub pending: Seq<u8>,
    pub close: bool,
    pub ingress: Seq<u8>,
    pub egress: Contents,
    pub inflight: bool,
}

impl<E: Engine> View for Tls<E> {
    type V = Link<E>;

    open spec fn view(&self) -> Link<E> {
        Link {
            tls: match self.state.tls {
                Some(tls) => Some(tls@),
                None => None,
            },
            pending: self.state.pending_app@,
            close: self.state.close,
            ingress: self.ingress@,
            egress: self.egress@,
            inflight: self.send_inflight,
        }
    }
}

impl<E: Engine> Link<E> {
    pub open spec fn established(self) -> bool {
        match self.tls {
            Some(tls) => tls.held.phase == Phase::Established,
            None => false,
        }
    }

    /// With what the connection wants sent moved to the egress, as far as there is
    /// room. Nothing moves while a send is under way.
    pub open spec fn drain(self) -> Link<E> {
        match self.tls {
            None => self,
            Some(tls) => if self.inflight || self.egress.spare() <= 0 {
                self
            } else {
                let out = tls.held.out;
                let n = if out.bytes.len() <= self.egress.spare() {
                    out.bytes.len() as int
                } else {
                    self.egress.spare()
                };
                Link {
                    tls: Some(tls.with(Held { out: out.skip(n), ..tls.held })),
                    egress: self.egress.extend(out.bytes.take(n)),
                    ..self
                }
            },
        }
    }

    /// With application data put aside, if not too much waits. Gives how much was
    /// taken.
    pub open spec fn put_aside(self, plain: Seq<u8>) -> (Link<E>, nat) {
        if self.pending.len() + plain.len() > PENDING_APP_CAP {
            (Link { close: true, ..self }, 0)
        } else {
            (Link { pending: self.pending + plain, ..self }, plain.len())
        }
    }

    /// Whether a whole record fits in the egress.
    pub open spec fn has_room(self) -> bool {
        self.egress.spare() >= MAX_TLS_RECORD
    }

    /// How much of the waiting data the next record takes.
    pub open spec fn next_chunk(self) -> Seq<u8> {
        self.pending.take(
            if self.pending.len() <= MAX_PLAINTEXT_BODY {
                self.pending.len() as int
            } else {
                MAX_PLAINTEXT_BODY as int
            },
        )
    }
}

/// That a record's worth of application data was to be written.
pub open spec fn sealed<E: Engine>(
    before: Link<E>,
    chunk: Seq<u8>,
    after: Link<E>,
    count: nat,
) -> bool {
    match before.tls {
        None => after == before && count == 0,
        Some(tls) => exists|mid: Whole<E>, result: Result<usize, Error>| #[trigger]
            held::wrote(tls, chunk, mid, result) && match result {
                Err(_) => count == 0 && after == (Link { tls: Some(mid), close: true, ..before }),
                Ok(n) => count == n && after == (Link { tls: Some(mid), ..before }).drain(),
            },
    }
}

/// That between two moments one record's worth of waiting data was written.
pub open spec fn flush_passes<E: Engine>(path: Seq<Link<E>>, i: int) -> bool {
    &&& path[i].pending.len() > 0
    &&& path[i].has_room()
    &&& exists|mid: Link<E>, n: nat| #[trigger]
        sealed(path[i], path[i].next_chunk(), mid, n) && n > 0 && path[i + 1] == (Link {
            pending: mid.pending.skip(n as int),
            ..mid
        })
}

/// That waiting data was written record by record.
pub open spec fn flushing<E: Engine>(before: Link<E>, path: Seq<Link<E>>) -> bool {
    &&& path.len() > 0
    &&& path[0] == before
    &&& forall|i: int| 0 <= i < path.len() - 1 ==> #[trigger] flush_passes(path, i)
}

/// That waiting data was written as far as it could be.
#[verifier::opaque]
pub open spec fn flushed<E: Engine>(before: Link<E>, after: Link<E>) -> bool {
    exists|path: Seq<Link<E>>| #[trigger]
        flushing(before, path) && ({
            let last = path.last();
            if last.pending.len() == 0 || !last.has_room() {
                after == last
            } else {
                sealed(last, last.next_chunk(), after, 0)
            }
        })
}

/// A connection while data is written: what of the data is left.
pub struct Moment<E> {
    pub link: Link<E>,
    pub rest: Seq<u8>,
}

/// The data that the next record takes.
pub open spec fn piece(rest: Seq<u8>) -> Seq<u8> {
    rest.take(
        if rest.len() <= MAX_PLAINTEXT_BODY {
            rest.len() as int
        } else {
            MAX_PLAINTEXT_BODY as int
        },
    )
}

/// That between two moments one record's worth of data was written.
pub open spec fn write_passes<E: Engine>(path: Seq<Moment<E>>, i: int) -> bool {
    &&& path[i].rest.len() > 0
    &&& path[i].link.has_room()
    &&& exists|n: nat| #[trigger]
        sealed(path[i].link, piece(path[i].rest), path[i + 1].link, n) && 0 < n
            <= path[i].rest.len() && path[i + 1].rest == path[i].rest.skip(n as int)
}

/// That data was written record by record.
pub open spec fn writing<E: Engine>(
    before: Link<E>,
    plain: Seq<u8>,
    path: Seq<Moment<E>>,
) -> bool {
    &&& path.len() > 0
    &&& path[0] == (Moment { link: before, rest: plain })
    &&& forall|i: int| 0 <= i < path.len() - 1 ==> #[trigger] write_passes(path, i)
}

/// That data was written as far as it could be.
#[verifier::opaque]
pub open spec fn written<E: Engine>(
    before: Link<E>,
    plain: Seq<u8>,
    after: Link<E>,
    count: nat,
) -> bool {
    exists|path: Seq<Moment<E>>| #[trigger]
        writing(before, plain, path) && count == plain.len() - path.last().rest.len() && ({
            let last = path.last();
            if last.rest.len() == 0 || !last.link.has_room() {
                after == last.link
            } else {
                sealed(last.link, piece(last.rest), after, 0)
            }
        })
}

/// That application data was handed over: put aside before the handshake is done,
/// and otherwise written behind what waits.
pub open spec fn encrypted<E: Engine>(
    before: Link<E>,
    plain: Seq<u8>,
    after: Link<E>,
    count: nat,
) -> bool {
    if !before.drain().established() {
        (after, count) == before.drain().put_aside(plain)
    } else {
        exists|mid: Link<E>| #[trigger]
            flushed(before.drain(), mid) && if mid.pending.len() > 0 {
                after == mid && count == 0
            } else {
                written(mid, plain, after, count)
            }
    }
}

/// That wire bytes were taken in: by the connection, or put aside while there is
/// none.
pub open spec fn ingested<E: Engine>(before: Link<E>, input: Seq<u8>, after: Link<E>) -> bool {
    match before.tls {
        None => after == if before.ingress.len() + input.len() > INGRESS_CAP {
            Link { close: true, ..before }
        } else {
            Link { ingress: before.ingress + input, ..before }
        },
        Some(tls) => exists|mid: Whole<E>, done: bool| #[trigger]
            tried(tls, input, mid, done) && after == (Link {
                tls: Some(mid),
                close: before.close || !done || state::closed(mid.held.phase),
                ..before
            }),
    }
}

/// That a connection was to read wire bytes.
pub open spec fn tried<E: Engine>(
    before: Whole<E>,
    input: Seq<u8>,
    after: Whole<E>,
    done: bool,
) -> bool {
    if input.len() == 0 {
        after == before && done
    } else {
        exists|result: Result<(), Error>| #[trigger]
            held::read(before, input, after, result) && done == (result is Ok)
    }
}

impl<E: Engine> Tls<E> {
    /// That no buffer holds more than it may.
    pub open spec fn wf(self) -> bool {
        &&& self.state.tls matches Some(tls) ==> tls.wf()
        &&& self.state.pending_app@.len() <= PENDING_APP_CAP
        &&& self.ingress@.len() <= INGRESS_CAP
        &&& self.egress.wf()
    }

    /// A connection on a wire. Without a connection the wire is to be closed.
    pub fn new(tls: Option<State<E>>) -> (wire: Self)
        requires
            tls matches Some(tls) ==> tls.wf(),
        ensures
            wire.wf(),
            wire@ == (Link {
                tls: match tls {
                    Some(tls) => Some(tls@),
                    None => None,
                },
                pending: Seq::empty(),
                close: tls is None,
                ingress: Seq::empty(),
                egress: Contents { bytes: Seq::empty(), capacity: TLS_STAGING_CAP as nat },
                inflight: false,
            }),
            !wire.egress.backed(),
    {
        let close = tls.is_none();
        Tls {
            state: ConnState { tls, pending_app: Vec::new(), close },
            ingress: Vec::new(),
            egress: Pooled::new(),
            send_inflight: false,
        }
    }

    fn is_established(&self) -> (is: bool)
        ensures
            is == self@.established(),
    {
        match &self.state.tls {
            Some(tls) => tls.is_established(),
            None => false,
        }
    }

    fn egress_has_record_room(&self) -> (room: bool)
        requires
            self.wf(),
        ensures
            room == self@.has_room(),
    {
        self.egress.spare_capacity() >= MAX_TLS_RECORD
    }

    /// Takes wire bytes in.
    pub fn ingress_decrypt(&mut self, wire_in: &[u8])
        requires
            old(self).wf(),
        ensures
            final(self).wf(),
            ingested(old(self)@, wire_in@, final(self)@),
    {
        match &mut self.state.tls {
            None => {
                if wire_in.len() > INGRESS_CAP - self.ingress.len() {
                    self.state.close = true;
                    return;
                }
                self.ingress.extend_from_slice(wire_in);
                assert(self.ingress@ =~= old(self).ingress@ + wire_in@);
            },
            Some(tls) => {
                let ghost before = tls@;
                let done = tls.try_read_tcp(wire_in);
                assert(tried(before, wire_in@, tls@, done));
                if !done || tls.is_closed() {
                    self.state.close = true;
                }
            },
        }
    }

    /// Moves what the connection wants sent to the egress, as far as there is room.
    pub fn drain_to_egress(&mut self)
        requires
            old(self).wf(),
        ensures
            final(self).wf(),
            final(self)@ == old(self)@.drain(),
            final(self).state.tls is Some == old(self).state.tls is Some,
    {
        if self.send_inflight {
            return;
        }
        let spare: usize = self.egress.spare_capacity();
        if spare == 0 {
            return;
        }
        match &mut self.state.tls {
            Some(tls) => {
                let pending = tls.pending_send_slice();
                let n: usize = if pending.len() <= spare {
                    pending.len()
                } else {
                    spare
                };
                let moved = vstd::slice::slice_subrange(pending, 0, n);
                assert(moved@ =~= pending@.take(n as int));
                self.egress.push(moved);
                tls.consume_pending_send(n);
            },
            None => {},
        }
    }

    /// Writes a record's worth of application data.
    fn seal_record(&mut self, chunk: &[u8]) -> (count: usize)
        requires
            old(self).wf(),
        ensures
            final(self).wf(),
            sealed(old(self)@, chunk@, final(self)@, count as nat),
            count <= chunk@.len(),
            final(self)@.pending == old(self)@.pending,
    {
        let ghost before = self@;
        let result: Result<usize, Error> = match &mut self.state.tls {
            None => return 0,
            Some(tls) => {
                let ghost start = tls@;
                let result = tls.write_app(chunk);
                proof {
                    held::writes_no_more(start, chunk@, tls@, result);
                    assert(held::wrote(start, chunk@, tls@, result));
                }
                result
            },
        };
        let ghost mid = self@.tls->0;
        assert(held::wrote(before.tls->0, chunk@, mid, result));
        match result {
            Ok(n) => {
                self.drain_to_egress();
                n
            },
            Err(_) => {
                self.state.close = true;
                0
            },
        }
    }

    /// Writes the data that waits, as far as it can be.
    pub fn flush_pending_app(&mut self)
        requires
            old(self).wf(),
        ensures
            final(self).wf(),
            flushed(old(self)@, final(self)@),
    {
        let ghost before = self@;
        let ghost mut path: Seq<Link<E>> = seq![self@];
        while self.state.pending_app.len() > 0 && self.egress_has_record_room()
            invariant
                self.wf(),
                before == old(self)@,
                flushing(before, path),
                path.last() == self@,
            ensures
                self.wf(),
                flushing(before, path),
                path.last() == self@,
                self@.pending.len() == 0 || !self@.has_room(),
            decreases self@.pending.len(),
        {
            let ghost at = self@;
            let size: usize = self.state.pending_app.len();
            let end: usize = if size <= MAX_PLAINTEXT_BODY {
                size
            } else {
                MAX_PLAINTEXT_BODY
            };
            let chunk: Vec<u8> = buffered::copied(self.state.pending_app.as_slice(), 0, end);
            assert(chunk@ =~= at.next_chunk());
            let n: usize = self.seal_record(chunk.as_slice());
            let ghost mid = self@;
            if n == 0 {
                proof {
                    reveal(flushed);
                    assert(flushing(before, path));
                }
                return;
            }
            let rest: Vec<u8> = self.state.pending_app.split_off(n);
            self.state.pending_app = rest;
            assert(self@.pending =~= mid.pending.skip(n as int));
            proof {
                let longer = path.push(self@);
                assert forall|i: int| 0 <= i < longer.len() - 1 implies #[trigger] flush_passes(
                    longer,
                    i,
                ) by {
                    if i < path.len() - 1 {
                        assert(flush_passes(path, i));
                    } else {
                        assert(sealed(at, at.next_chunk(), mid, n as nat));
                    }
                }
                path = longer;
            }
        }
        proof {
            reveal(flushed);
            assert(flushing(before, path));
        }
    }

    /// Hands application data over. Returns how much was taken.
    pub fn encrypt(&mut self, plain: &[u8]) -> (count: usize)
        requires
            old(self).wf(),
        ensures
            final(self).wf(),
            encrypted(old(self)@, plain@, final(self)@, count as nat),
            count <= plain@.len(),
    {
        let ghost before = self@;
        self.drain_to_egress();
        if !self.is_established() {
            return self.put_aside(plain);
        }
        self.flush_pending_app();
        let ghost mid = self@;
        assert(flushed(before.drain(), mid));
        if self.state.pending_app.len() > 0 {
            return 0;
        }
        self.write_records(plain)
    }

    /// Puts application data aside until the handshake is done.
    fn put_aside(&mut self, plain: &[u8]) -> (count: usize)
        requires
            old(self).wf(),
        ensures
            final(self).wf(),
            (final(self)@, count as nat) == old(self)@.put_aside(plain@),
            count <= plain@.len(),
    {
        if plain.len() > PENDING_APP_CAP - self.state.pending_app.len() {
            self.state.close = true;
            return 0;
        }
        self.state.pending_app.extend_from_slice(plain);
        assert(self@.pending =~= old(self)@.pending + plain@);
        plain.len()
    }

    /// Writes application data, as far as it can be.
    fn write_records(&mut self, plain: &[u8]) -> (count: usize)
        requires
            old(self).wf(),
        ensures
            final(self).wf(),
            written(old(self)@, plain@, final(self)@, count as nat),
            count <= plain@.len(),
    {
        let ghost before = self@;
        let ghost mut path: Seq<Moment<E>> = seq![Moment { link: self@, rest: plain@ }];
        let size: usize = plain.len();
        let mut consumed: usize = 0;
        assert(plain@.skip(0) =~= plain@);
        while consumed < size && self.egress_has_record_room()
            invariant
                self.wf(),
                before == old(self)@,
                size == plain@.len(),
                consumed <= size,
                writing(before, plain@, path),
                path.last() == (Moment { link: self@, rest: plain@.skip(consumed as int) }),
            ensures
                self.wf(),
                consumed <= size,
                writing(before, plain@, path),
                path.last() == (Moment { link: self@, rest: plain@.skip(consumed as int) }),
                consumed == size || !self@.has_room(),
            decreases size - consumed,
        {
            let ghost at = path.last();
            let take: usize = if size - consumed <= MAX_PLAINTEXT_BODY {
                size - consumed
            } else {
                MAX_PLAINTEXT_BODY
            };
            let chunk = vstd::slice::slice_subrange(plain, consumed, consumed + take);
            assert(chunk@ =~= piece(at.rest));
            let n: usize = self.seal_record(chunk);
            if n == 0 {
                proof {
                    reveal(written);
                    assert(writing(before, plain@, path));
                }
                return consumed;
            }
            proof {
                let next = Moment { link: self@, rest: plain@.skip(consumed + n) };
                assert(at.rest.skip(n as int) =~= next.rest);
                let longer = path.push(next);
                assert forall|i: int| 0 <= i < longer.len() - 1 implies #[trigger] write_passes(
                    longer,
                    i,
                ) by {
                    if i < path.len() - 1 {
                        assert(write_passes(path, i));
                    } else {
                        assert(sealed(at.link, piece(at.rest), self@, n as nat));
                    }
                }
                path = longer;
            }
            consumed = consumed + n;
        }
        proof {
            reveal(written);
            assert(writing(before, plain@, path));
        }
        consumed
    }
}

/// What is to be done on the wire after a call: how much data was taken, whether
/// the egress is to be sent, and whether the transport is to be closed behind it.
#[derive(Clone, Copy, PartialEq, Eq, Structural)]
pub struct Submission {
    pub consumed: usize,
    pub submit: bool,
    pub close_after: bool,
}

impl<E: Engine> Link<E> {
    /// With the egress on its way, if there is something in it and no send is under
    /// way.
    pub open spec fn submit(self, busy: bool) -> (Link<E>, bool) {
        if busy || self.egress.bytes.len() == 0 {
            (self, false)
        } else {
            (Link { inflight: true, ..self }, true)
        }
    }

    /// Without the application data that has come in.
    pub open spec fn take_data(self) -> (Link<E>, Seq<u8>) {
        match self.tls {
            Some(tls) => (
                Link { tls: Some(tls.with(Held { app: Seq::empty(), ..tls.held })), ..self },
                tls.held.app,
            ),
            None => (Link { ingress: Seq::empty(), ..self }, self.ingress),
        }
    }
}

/// That wire bytes were taken in, and what waited was written if it could be.
pub open spec fn received<E: Engine>(
    before: Link<E>,
    input: Seq<u8>,
    after: Link<E>,
    data: Seq<u8>,
) -> bool {
    exists|taken: Link<E>, mid: Link<E>|
        #![trigger ingested(before, input, taken), mid.drain()]
        ingested(before, input, taken) && (if taken.established() && taken.pending.len() > 0 {
            flushed(taken, mid)
        } else {
            mid == taken
        }) && (after, data) == mid.drain().take_data()
}

/// That the egress was submitted, and the end of the connection passed on.
pub open spec fn handed_on<E: Engine>(
    mid: Link<E>,
    busy: bool,
    after: Link<E>,
    done: Submission,
) -> bool {
    &&& (after, done.submit) == mid.submit(busy)
    &&& done.close_after == mid.close
}

/// That data was handed over and the egress submitted.
pub open spec fn submitted<E: Engine>(
    before: Link<E>,
    plain: Seq<u8>,
    busy: bool,
    after: Link<E>,
    done: Submission,
) -> bool {
    exists|mid: Link<E>|
        encrypted(before, plain, mid, done.consumed as nat) && #[trigger] handed_on(
            mid,
            busy,
            after,
            done,
        )
}

/// That between two parts one was taken whole.
pub open spec fn part_passes<E: Engine>(path: Seq<Link<E>>, parts: Seq<&[u8]>, i: int) -> bool {
    if parts[i]@.len() == 0 {
        path[i + 1] == path[i]
    } else {
        encrypted(path[i], parts[i]@, path[i + 1], parts[i]@.len())
    }
}

/// That parts were taken whole, one after the other.
pub open spec fn taking<E: Engine>(
    before: Link<E>,
    parts: Seq<&[u8]>,
    path: Seq<Link<E>>,
) -> bool {
    &&& 0 < path.len() <= parts.len() + 1
    &&& path[0] == before
    &&& forall|i: int| 0 <= i < path.len() - 1 ==> #[trigger] part_passes(path, parts, i)
}

/// The bytes of the first `n` parts.
pub open spec fn total_len(parts: Seq<&[u8]>, n: int) -> nat
    decreases n,
{
    if n <= 0 {
        0
    } else {
        total_len(parts, n - 1) + parts[n - 1]@.len()
    }
}

/// That parts were taken one after the other, up to the first that was not taken
/// whole.
#[verifier::opaque]
pub open spec fn gathered<E: Engine>(
    before: Link<E>,
    parts: Seq<&[u8]>,
    after: Link<E>,
    count: nat,
) -> bool {
    exists|path: Seq<Link<E>>| #[trigger]
        taking(before, parts, path) && ({
            let n = path.len() - 1;
            if n == parts.len() {
                after == path.last() && count == total_len(parts, n)
            } else {
                exists|short: nat| #[trigger]
                    encrypted(path.last(), parts[n]@, after, short) && short < parts[n]@.len()
                        && count == total_len(parts, n) + short
            }
        })
}

/// That a send has ended with `sent` bytes on the wire, and the rest is on its way.
pub open spec fn went_on<E: Engine>(
    before: Link<E>,
    sent: int,
    busy: bool,
    after: Link<E>,
    done: (bool, Submission),
) -> bool {
    let mid = (Link { inflight: false, egress: before.egress.skip(sent), ..before }).drain();
    if mid.egress.bytes.len() == 0 {
        after == mid && !done.0 && done.1 == (Submission {
            consumed: 0,
            submit: false,
            close_after: mid.close,
        })
    } else {
        done.0 && (after, done.1.submit) == mid.submit(busy) && !done.1.close_after
            && done.1.consumed == 0
    }
}

impl<E: Engine> Tls<E> {
    /// The bytes that are to be sent.
    pub fn egress_slice(&self) -> (bytes: &[u8])
        ensures
            bytes@ == self@.egress.bytes,
    {
        self.egress.as_slice()
    }

    /// Takes wire bytes in, and hands out the application data that came of them.
    pub fn process_recv(&mut self, bytes: &[u8]) -> (data: Option<Vec<u8>>)
        requires
            old(self).wf(),
        ensures
            final(self).wf(),
            exists|all: Seq<u8>| #[trigger]
                received(old(self)@, bytes@, final(self)@, all) && match data {
                    Some(data) => data@ == all && all.len() > 0,
                    None => all.len() == 0,
                },
    {
        let ghost before = self@;
        self.ingress_decrypt(bytes);
        let ghost taken = self@;
        if self.is_established() && self.state.pending_app.len() > 0 {
            self.flush_pending_app();
        }
        let ghost mid = self@;
        self.drain_to_egress();
        let data: Vec<u8> = match &mut self.state.tls {
            Some(tls) => tls.take_app(),
            None => {
                let mut data: Vec<u8> = Vec::new();
                core::mem::swap(&mut data, &mut self.ingress);
                data
            },
        };
        assert((self@, data@) == mid.drain().take_data());
        assert(received(before, bytes@, self@, data@)) by {
            assert(ingested(before, bytes@, taken));
        }
        if data.len() == 0 {
            None
        } else {
            Some(data)
        }
    }

    /// Has the egress sent, if there is something in it and no send is under way.
    fn submit_wire_buf(&mut self, busy: bool) -> (submit: bool)
        requires
            old(self).wf(),
        ensures
            final(self).wf(),
            (final(self)@, submit) == old(self)@.submit(busy),
    {
        if busy || self.egress.is_empty() {
            return false;
        }
        self.send_inflight = true;
        true
    }

    /// Hands application data over, and has the egress sent. `busy` says whether
    /// the transport has a send under way.
    pub fn submit_send(&mut self, plain: &[u8], busy: bool) -> (done: Submission)
        requires
            old(self).wf(),
        ensures
            final(self).wf(),
            submitted(old(self)@, plain@, busy, final(self)@, done),
            done.consumed <= plain@.len(),
    {
        let consumed: usize = self.encrypt(plain);
        let ghost mid = self@;
        assert(encrypted(old(self)@, plain@, mid, consumed as nat));
        let submit = self.submit_wire_buf(busy);
        let done = Submission { consumed, submit, close_after: self.state.close };
        assert(handed_on(mid, busy, self@, done));
        done
    }

    /// Writes what waits, and has the egress sent.
    pub fn flush_pending(&mut self, busy: bool) -> (done: Submission)
        requires
            old(self).wf(),
        ensures
            final(self).wf(),
            submitted(old(self)@, Seq::empty(), busy, final(self)@, done),
            done.consumed == 0,
    {
        let nothing: &[u8] = &[];
        assert(nothing@ =~= Seq::<u8>::empty());
        self.submit_send(nothing, busy)
    }

    /// Hands parts of application data over, one after the other, and has the
    /// egress sent.
    pub fn submit_send_vectored(&mut self, parts: &[&[u8]], busy: bool) -> (done: Submission)
        requires
            old(self).wf(),
            total_len(parts@, parts@.len() as int) <= usize::MAX,
        ensures
            final(self).wf(),
            exists|mid: Link<E>|
                gathered(old(self)@, parts@, mid, done.consumed as nat) && #[trigger] handed_on(
                    mid,
                    busy,
                    final(self)@,
                    done,
                ),
    {
        let consumed: usize = self.gather(parts);
        let ghost mid = self@;
        assert(gathered(old(self)@, parts@, mid, consumed as nat));
        let submit = self.submit_wire_buf(busy);
        let done = Submission { consumed, submit, close_after: self.state.close };
        assert(handed_on(mid, busy, self@, done));
        done
    }

    /// Takes parts one after the other, up to the first that is not taken whole.
    fn gather(&mut self, parts: &[&[u8]]) -> (consumed: usize)
        requires
            old(self).wf(),
            total_len(parts@, parts@.len() as int) <= usize::MAX,
        ensures
            final(self).wf(),
            gathered(old(self)@, parts@, final(self)@, consumed as nat),
    {
        let ghost before = self@;
        let ghost mut path: Seq<Link<E>> = seq![self@];
        let mut consumed: usize = 0;
        let mut at: usize = 0;
        while at < parts.len()
            invariant
                self.wf(),
                before == old(self)@,
                at <= parts@.len(),
                path.len() == at + 1,
                taking(before, parts@, path),
                path.last() == self@,
                consumed == total_len(parts@, at as int),
                total_len(parts@, parts@.len() as int) <= usize::MAX,
            decreases parts@.len() - at,
        {
            let part = parts[at];
            let ghost last = self@;
            proof {
                total_len_grows(parts@, at + 1, parts@.len() as int);
            }
            if part.len() > 0 {
                let count: usize = self.encrypt(part);
                if count < part.len() {
                    proof {
                        reveal(gathered);
                        assert(taking(before, parts@, path));
                        assert(encrypted(last, parts@[at as int]@, self@, count as nat));
                    }
                    return consumed + count;
                }
                consumed = consumed + count;
            }
            proof {
                let longer = path.push(self@);
                assert forall|i: int| 0 <= i < longer.len() - 1 implies #[trigger] part_passes(
                    longer,
                    parts@,
                    i,
                ) by {
                    if i < path.len() - 1 {
                        assert(part_passes(path, parts@, i));
                    }
                }
                path = longer;
            }
            at = at + 1;
        }
        proof {
            reveal(gathered);
            assert(taking(before, parts@, path));
        }
        consumed
    }

    /// A send has ended with `sent` bytes on the wire. Says whether another is on
    /// its way, and otherwise whether the transport is to be closed.
    pub fn after_send_cqe(&mut self, sent: usize, busy: bool) -> (done: (bool, Submission))
        requires
            old(self).wf(),
            sent <= old(self)@.egress.bytes.len(),
        ensures
            final(self).wf(),
            went_on(old(self)@, sent as int, busy, final(self)@, done),
            final(self).egress.tight(),
    {
        self.send_inflight = false;
        self.egress.consume(sent);
        self.drain_to_egress();
        if self.egress.is_empty() {
            self.egress.release_if_empty();
            return (
                false,
                Submission { consumed: 0, submit: false, close_after: self.state.close },
            );
        }
        let submit = self.submit_wire_buf(busy);
        (true, Submission { consumed: 0, submit, close_after: false })
    }
}

/// More parts hold no fewer bytes.
pub proof fn total_len_grows(parts: Seq<&[u8]>, n: int, m: int)
    requires
        0 <= n <= m <= parts.len(),
    ensures
        total_len(parts, n) <= total_len(parts, m),
    decreases m - n,
{
    if n < m {
        total_len_grows(parts, n, m - 1);
    }
}

/// The engine of a connection that can be on either side.
pub enum Side {
    Client(ClientEngine),
    Server(ServerEngine),
}

/// What a wire connects to.
pub enum Endpoint {
    Nowhere,
    Server(Box<ServerConfig>),
    Client(ClientConfig),
}

impl Engine for Side {
    open spec fn suite(self) -> Option<CipherSuite> {
        match self {
            Side::Client(engine) => engine.suite(),
            Side::Server(engine) => engine.suite(),
        }
    }

    open spec fn alpn(self) -> Option<Seq<u8>> {
        match self {
            Side::Client(engine) => engine.alpn(),
            Side::Server(engine) => engine.alpn(),
        }
    }

    open spec fn answers(
        before: Self,
        epoch: Epoch,
        data: Seq<u8>,
        after: Self,
        answer: Result<Seq<Wish>, HandshakeError>,
    ) -> bool {
        match (before, after) {
            (Side::Client(before), Side::Client(after)) => ClientEngine::answers(
                before,
                epoch,
                data,
                after,
                answer,
            ),
            (Side::Server(before), Side::Server(after)) => ServerEngine::answers(
                before,
                epoch,
                data,
                after,
                answer,
            ),
            _ => false,
        }
    }

    open spec fn updates(
        before: Self,
        request_update: bool,
        after: Self,
        answer: Result<Seq<Wish>, HandshakeError>,
    ) -> bool {
        match (before, after) {
            (Side::Client(before), Side::Client(after)) => ClientEngine::updates(
                before,
                request_update,
                after,
                answer,
            ),
            (Side::Server(before), Side::Server(after)) => ServerEngine::updates(
                before,
                request_update,
                after,
                answer,
            ),
            _ => false,
        }
    }

    open spec fn noted(before: Self, after: Self) -> bool {
        match (before, after) {
            (Side::Client(before), Side::Client(after)) => ClientEngine::noted(before, after),
            (Side::Server(before), Side::Server(after)) => ServerEngine::noted(before, after),
            _ => false,
        }
    }

    fn read(&mut self, epoch: Epoch, data: &[u8]) -> Result<Vec<OwnedEvent>, HandshakeError> {
        match self {
            Side::Client(engine) => engine.read(epoch, data),
            Side::Server(engine) => engine.read(epoch, data),
        }
    }

    fn send_key_update(&mut self, request_update: bool) -> Result<Vec<OwnedEvent>, HandshakeError> {
        match self {
            Side::Client(engine) => engine.send_key_update(request_update),
            Side::Server(engine) => engine.send_key_update(request_update),
        }
    }

    fn note_application_data(&mut self) {
        match self {
            Side::Client(engine) => engine.note_application_data(),
            Side::Server(engine) => engine.note_application_data(),
        }
    }

    fn selected_alpn(&self) -> Option<&[u8]> {
        match self {
            Side::Client(engine) => engine.selected_alpn(),
            Side::Server(engine) => engine.selected_alpn(),
        }
    }

    fn negotiated_cipher_suite(&self) -> Option<CipherSuite> {
        match self {
            Side::Client(engine) => engine.negotiated_cipher_suite(),
            Side::Server(engine) => engine.negotiated_cipher_suite(),
        }
    }
}

impl State<Side> {
    /// The same connection, where the side is not known beforehand.
    pub fn of_client(state: State<ClientEngine>) -> (either: Self)
        ensures
            either@ == (Whole { side: Side::Client(state@.side), held: state@.held }),
            state.wf() ==> either.wf(),
    {
        State {
            side: Side::Client(state.side),
            phase: state.phase,
            traffic: state.traffic,
            recv_buf: state.recv_buf,
            pending_send: state.pending_send,
            incoming_app: state.incoming_app,
            hs_reassembly: state.hs_reassembly,
            handshake_keys_ready: state.handshake_keys_ready,
            peer_close: state.peer_close,
        }
    }

    /// The same connection, where the side is not known beforehand.
    pub fn of_server(state: State<ServerEngine>) -> (either: Self)
        ensures
            either@ == (Whole { side: Side::Server(state@.side), held: state@.held }),
            state.wf() ==> either.wf(),
    {
        State {
            side: Side::Server(state.side),
            phase: state.phase,
            traffic: state.traffic,
            recv_buf: state.recv_buf,
            pending_send: state.pending_send,
            incoming_app: state.incoming_app,
            hs_reassembly: state.hs_reassembly,
            handshake_keys_ready: state.handshake_keys_ready,
            peer_close: state.peer_close,
        }
    }
}

/// What connecting comes to: a connection that cannot be made is none.
pub open spec fn connected(endpoint: Endpoint, tls: Option<Whole<Side>>) -> bool {
    match endpoint {
        Endpoint::Nowhere => tls is None,
        Endpoint::Server(config) => exists|
            made: Result<ServerEngine, HandshakeError>,
            result: Result<State<ServerEngine>, Error>,
        |
            engines::server_made(*config, WallClock::System, made) && #[trigger] buffered::served(
                made,
                result,
            ) && tls == match result {
                Ok(state) => Some(
                    Whole { side: Side::Server(state@.side), held: state@.held },
                ),
                Err(_) => None,
            },
        Endpoint::Client(config) => exists|
            made: Result<ClientEngine, ConfigError>,
            result: Result<State<ClientEngine>, Error>,
        |
            engines::client_made(config, WallClock::System, made) && #[trigger] buffered::opened(
                made,
                result,
            ) && tls == match result {
                Ok(state) => Some(
                    Whole { side: Side::Client(state@.side), held: state@.held },
                ),
                Err(_) => None,
            },
    }
}

impl Tls<Side> {
    /// A connection on a wire, if the endpoint makes one. Otherwise the wire is to
    /// be closed.
    pub fn open(endpoint: Endpoint) -> (wire: Self)
        ensures
            wire.wf(),
            connected(endpoint, wire@.tls),
            wire@.close == (wire@.tls is None),
            wire@.pending.len() == 0,
            wire@.ingress.len() == 0,
            wire@.egress == (Contents { bytes: Seq::empty(), capacity: TLS_STAGING_CAP as nat }),
            !wire.egress.backed(),
            !wire@.inflight,
    {
        let tls = match endpoint {
            Endpoint::Server(config) => match State::new_server(*config) {
                Ok(state) => Some(State::of_server(state)),
                Err(_) => None,
            },
            Endpoint::Client(config) => match State::new_client(config) {
                Ok(state) => Some(State::of_client(state)),
                Err(_) => None,
            },
            Endpoint::Nowhere => None,
        };
        Tls::new(tls)
    }
}

} // verus!
