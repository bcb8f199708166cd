//! What goes out on a connection.

use crate::buffer::{Contents, Cursor};
use crate::error::Error;
use crate::record;
use crate::staging::{MAX_PLAINTEXT_BODY, TLS13_RECORD_OVERHEAD};
use crate::state::api::Status;
use crate::state::events::{self, Core};
use crate::state::records::Link;
use crate::state::sessions::Peer;
use crate::state::status::{PeerClose, Phase};
use crate::state::{self, traffic};
use crate::tls::{Connection, SendState, Wired};
use crate::transmissions::{self, Prepared, SendBuffer, SendProtocol, VectoredCursor};
use shin::wire::alert::{Alert, Description, Level};
use vstd::prelude::*;

verus! {

impl<S> Wired<S> {
    /// Whether the transport is to be closed once all was sent: not while control
    /// records are owed.
    pub open spec fn closes(self) -> bool {
        !self.state.link.core.owes() && (self.close || self.state.link.close
            == PeerClose::CloseNotify)
    }

    /// With another connection in it.
    pub open spec fn with_link(self, link: Link<S>) -> Wired<S> {
        Wired { state: self.state.with_link(link), ..self }
    }
}

/// That owed control records were put into `out`. Where that fails, the transport
/// is to be closed.
pub open spec fn drained_into<S: Peer>(
    before: Wired<S>,
    out: Option<Contents>,
    after: Wired<S>,
    left: Option<Contents>,
) -> bool {
    if before.inflight {
        after == before && left == out
    } else {
        exists|mid: Link<S>, result: Result<(), Error>| #[trigger]
            state::drained(before.state.link.lend(out), mid, result) && after == (Wired {
                close: before.close || result is Err,
                ..before.with_link(mid.lend(before.state.link.core.pending))
            }) && left == mid.core.pending
    }
}

/// Connection and buffer after the peer was to be told that the connection ends:
/// at most once, and only while the connection can be closed in order.
pub open spec fn notified<S: Peer>(before: Wired<S>, out: Option<Contents>) -> (
    Wired<S>,
    Option<Contents>,
) {
    let notify = Alert { level: Level::Warning, description: Description::CloseNotify };
    if before.close || before.close_notify_sent || !before.state.standing().can_close() {
        (before, out)
    } else {
        let (core, sent) = before.state.link.core.lend(out).close_with(notify);
        (
            Wired {
                close_notify_sent: sent is Ok,
                ..before.with_link(
                    before.state.link.with_core(core.lend(before.state.link.core.pending)),
                )
            },
            core.pending,
        )
    }
}

/// The peer is told of the end at most once: when it was, telling it again does
/// nothing.
pub proof fn peer_is_told_once<S: Peer>(before: Wired<S>, out: Contents, later: Contents)
    requires
        notified(before, Some(out)).0.close_notify_sent,
    ensures
        ({
            let told = notified(before, Some(out)).0;
            notified(told, Some(later)) == (told, Some(later))
        }),
{
}

/// One moment of encrypting: the connection, the buffer, whether the transport is
/// to be closed, and how much of the plaintext was taken.
pub struct Moment<S> {
    pub link: Link<S>,
    pub out: Contents,
    pub close: bool,
    pub taken: nat,
}

impl<S: Peer> Moment<S> {
    /// The plaintext of the next record.
    pub open spec fn next(self, plain: Seq<u8>) -> Seq<u8> {
        plain.subrange(
            self.taken as int,
            (self.taken + traffic::fragment((plain.len() - self.taken) as nat)) as int,
        )
    }

    /// Whether there is plaintext left, and room for a record of it.
    pub open spec fn fits(self, plain: Seq<u8>) -> bool {
        self.taken < plain.len() && self.out.spare() >= traffic::fragment(
            (plain.len() - self.taken) as nat,
        ) + TLS13_RECORD_OVERHEAD
    }

    /// That the next record was sealed, or was to be and failed.
    pub open spec fn seals(self, plain: Seq<u8>, after: Moment<S>) -> bool {
        let body = self.next(plain);
        let (core, written) = self.link.core.lend(Some(self.out)).write_parts(body.len(), body);
        &&& self.fits(plain)
        &&& exists|result: Result<usize, Error>| #[trigger]
            state::wrote_into(
                self.link,
                core,
                written,
                after.link,
                Some(after.out),
                result,
            ) && match result {
                Ok(count) => after.close == self.close && after.taken == self.taken + count,
                Err(_) => after.close && after.taken == self.taken,
            }
    }
}

/// That each moment leads to the next, and that all but the last step got
/// somewhere.
pub open spec fn seals_all<S: Peer>(path: Seq<Moment<S>>, plain: Seq<u8>) -> bool {
    forall|i: int| 0 <= i < path.len() - 1 ==> #[trigger] seals_at(path, plain, i)
}

/// That the moment number `i` leads to the next.
#[verifier::opaque]
pub open spec fn seals_at<S: Peer>(path: Seq<Moment<S>>, plain: Seq<u8>, i: int) -> bool {
    &&& path[i].seals(plain, path[i + 1])
    &&& path[i + 1].taken <= plain.len()
    &&& i < path.len() - 2 ==> path[i].taken < path[i + 1].taken
}

/// Whether encrypting ends at the last moment: all is taken, there is no room, or
/// the last step got nowhere.
pub open spec fn seals_end<S: Peer>(path: Seq<Moment<S>>, plain: Seq<u8>) -> bool {
    !path.last().fits(plain) || (path.len() > 1 && path.last().taken == path[path.len()
        - 2].taken)
}

/// That plaintext was encrypted record by record, as far as there was room.
/// Nothing is encrypted while a buffer is in flight, or before and after the
/// connection is established.
pub open spec fn encrypted<S: Peer>(
    before: Wired<S>,
    out: Option<Contents>,
    plain: Seq<u8>,
    after: Wired<S>,
    left: Option<Contents>,
    count: nat,
) -> bool {
    if before.inflight || before.state.link.core.phase != Phase::Established {
        after == before && left == out && count == 0
    } else {
        exists|path: Seq<Moment<S>>|
            {
                &&& path.len() > 0
                &&& path[0] == (Moment {
                    link: before.state.link,
                    out: out->0,
                    close: before.close,
                    taken: 0,
                })
                &&& #[trigger] seals_all(path, plain)
                &&& seals_end(path, plain)
                &&& after == (Wired {
                    close: path.last().close,
                    ..before.with_link(path.last().link)
                })
                &&& left == Some(path.last().out)
                &&& count == path.last().taken
            }
    }
}

/// A record that fits is written the same way whole or in parts.
proof fn one_record(core: Core, body: Seq<u8>)
    requires
        core.pending is Some,
        0 < body.len() <= MAX_PLAINTEXT_BODY,
    ensures
        core.write(body) == core.write_parts(body.len(), body),
{
    reveal_with_fuel(traffic::written, 2);
    assert(body.take(body.len() as int) =~= body);
    assert(body.skip(body.len() as int).len() == 0);
    assert(core.traffic.with_seal(core.traffic.application.seal) =~= core.traffic);
    assert(core.with_traffic(core.traffic).with_pending(core.pending->0) =~= core);
}

proof fn seals_push<S: Peer>(path: Seq<Moment<S>>, plain: Seq<u8>, now: Moment<S>)
    requires
        path.len() > 0,
        seals_all(path, plain),
        path.len() > 1 ==> path[path.len() - 2].taken < path.last().taken,
        path.last().seals(plain, now),
        now.taken <= plain.len(),
    ensures
        seals_all(path.push(now), plain),
{
    reveal(seals_at);
    let longer = path.push(now);
    assert forall|i: int| 0 <= i < longer.len() - 1 implies #[trigger] seals_at(
        longer,
        plain,
        i,
    ) by {
        assert(longer[i] == path[i]);
        if i < path.len() - 1 {
            assert(seals_at(path, plain, i));
            assert(longer[i + 1] == path[i + 1]);
        }
    }
}

impl<'d, S: Peer> Connection<'d, S> {
    /// Whether there is room for a record of `plaintext_len` bytes.
    fn record_fits(output: &Option<Cursor<'d>>, plaintext_len: usize) -> (fits: bool)
        requires
            plaintext_len <= MAX_PLAINTEXT_BODY,
        ensures
            *output is Some ==> fits == (events::contents(*output)->0.spare() >= plaintext_len
                + TLS13_RECORD_OVERHEAD),
    {
        match output {
            Some(cursor) => cursor.spare_capacity() >= plaintext_len + TLS13_RECORD_OVERHEAD,
            None => false,
        }
    }

    /// Encrypts plaintext record by record, as far as there is room. Returns how
    /// much was taken.
    pub fn encrypt_plain(&mut self, send: &mut SendState<'d>, plain: &[u8]) -> (count: usize)
        requires
            old(send).buffer is Some,
        ensures
            encrypted(
                old(self)@,
                events::contents(old(send).buffer),
                plain@,
                final(self)@,
                events::contents(final(send).buffer),
                count as nat,
            ),
            count <= plain@.len(),
            final(send).buffer is Some,
    {
        if self.send_inflight {
            return 0;
        }
        if !self.state.tls.is_established() {
            return 0;
        }
        let ghost before = self@;
        let ghost mut path: Seq<Moment<S>> = seq![
            Moment {
                link: self@.state.link,
                out: events::contents(send.buffer)->0,
                close: self@.close,
                taken: 0,
            },
        ];
        let mut consumed: usize = 0;
        let mut stuck: bool = false;
        while !stuck && consumed < plain.len()
            invariant
                before == old(self)@,
                !before.inflight,
                before.state.link.core.phase == Phase::Established,
                consumed <= plain@.len(),
                send.buffer is Some,
                path.len() > 0,
                path[0] == (Moment {
                    link: before.state.link,
                    out: events::contents(old(send).buffer)->0,
                    close: before.close,
                    taken: 0,
                }),
                seals_all(path, plain@),
                path.last().out == events::contents(send.buffer)->0,
                path.last().taken == consumed,
                self@ == (Wired {
                    close: path.last().close,
                    ..before.with_link(path.last().link)
                }),
                !stuck && path.len() > 1 ==> path[path.len() - 2].taken < path.last().taken,
                stuck ==> seals_end(path, plain@),
            decreases
                if stuck {
                    0int
                } else {
                    plain@.len() - consumed + 1
                },
        {
            let rest: usize = plain.len() - consumed;
            let take: usize = if rest <= MAX_PLAINTEXT_BODY {
                rest
            } else {
                MAX_PLAINTEXT_BODY
            };
            if !Self::record_fits(&send.buffer, take) {
                stuck = true;
            } else {
                let ghost last = path.last();
                let chunk = vstd::slice::slice_subrange(plain, consumed, consumed + take);
                let ghost lent = last.link.core.lend(Some(last.out));
                proof {
                    assert(last.next(plain@) =~= chunk@);
                    one_record(lent, chunk@);
                }
                let result = self.state.tls.write_app_into(&mut send.buffer, chunk);
                let ghost now_link = self@.state.link;
                let count: usize = match result {
                    Ok(count) => count,
                    Err(_) => {
                        self.state.close = true;
                        0
                    },
                };
                proof {
                    let now = Moment {
                        link: now_link,
                        out: events::contents(send.buffer)->0,
                        close: self@.close,
                        taken: (consumed + count) as nat,
                    };
                    let (core, written) = lent.write_parts(chunk@.len(), chunk@);
                    assert(state::wrote_into(
                        last.link,
                        core,
                        written,
                        now.link,
                        Some(now.out),
                        result,
                    ));
                    assert(last.seals(plain@, now));
                    seals_push(path, plain@, now);
                    path = path.push(now);
                }
                if count == 0 {
                    stuck = true;
                }
                consumed = consumed + count;
            }
        }
        proof {
            assert(seals_all(path, plain@));
            assert(seals_end(path, plain@));
        }
        consumed
    }

    /// Encrypts plaintext in several parts, record by record, as far as there is
    /// room. Returns how much was taken.
    pub fn encrypt_parts(&mut self, send: &mut SendState<'d>, parts: &[&[u8]]) -> (count: usize)
        requires
            old(send).buffer is Some,
            record::joined(parts@).len() <= usize::MAX,
        ensures
            encrypted(
                old(self)@,
                events::contents(old(send).buffer),
                record::joined(parts@),
                final(self)@,
                events::contents(final(send).buffer),
                count as nat,
            ),
            count <= record::joined(parts@).len(),
            final(send).buffer is Some,
    {
        if self.send_inflight {
            return 0;
        }
        if !self.state.tls.is_established() {
            return 0;
        }
        let ghost before = self@;
        let ghost plain = record::joined(parts@);
        let ghost mut path: Seq<Moment<S>> = seq![
            Moment {
                link: self@.state.link,
                out: events::contents(send.buffer)->0,
                close: self@.close,
                taken: 0,
            },
        ];
        let total: usize = total_len(parts);
        let mut cursor = VectoredCursor::new(parts);
        let mut consumed: usize = 0;
        let mut stuck: bool = false;
        proof {
            assert(plain.skip(0) =~= plain);
        }
        while !stuck && consumed < total
            invariant
                before == old(self)@,
                plain == record::joined(parts@),
                total == plain.len(),
                !before.inflight,
                before.state.link.core.phase == Phase::Established,
                consumed <= total,
                send.buffer is Some,
                path.len() > 0,
                path[0] == (Moment {
                    link: before.state.link,
                    out: events::contents(old(send).buffer)->0,
                    close: before.close,
                    taken: 0,
                }),
                seals_all(path, plain),
                path.last().out == events::contents(send.buffer)->0,
                path.last().taken == consumed,
                self@ == (Wired {
                    close: path.last().close,
                    ..before.with_link(path.last().link)
                }),
                !stuck && path.len() > 1 ==> path[path.len() - 2].taken < path.last().taken,
                !stuck ==> cursor.rest() == plain.skip(consumed as int) && cursor.taken()
                    == consumed,
                stuck ==> seals_end(path, plain),
            decreases
                if stuck {
                    0int
                } else {
                    total - consumed + 1
                },
        {
            let rest: usize = total - consumed;
            let take: usize = if rest <= MAX_PLAINTEXT_BODY {
                rest
            } else {
                MAX_PLAINTEXT_BODY
            };
            if !Self::record_fits(&send.buffer, take) {
                stuck = true;
            } else {
                let ghost last = path.last();
                let taken = cursor.take(take);
                let ghost lent = last.link.core.lend(Some(last.out));
                proof {
                    assert(last.next(plain) =~= record::joined(taken@));
                    assert(plain.skip(consumed as int).skip(take as int) =~= plain.skip(
                        consumed + take,
                    ));
                }
                let result = self.state.tls.write_app_parts_into(
                    &mut send.buffer,
                    take,
                    taken.as_slice(),
                );
                let ghost now_link = self@.state.link;
                let count: usize = match result {
                    Ok(count) => count,
                    Err(_) => {
                        self.state.close = true;
                        0
                    },
                };
                proof {
                    let now = Moment {
                        link: now_link,
                        out: events::contents(send.buffer)->0,
                        close: self@.close,
                        taken: (consumed + count) as nat,
                    };
                    let body = last.next(plain);
                    let (core, written) = lent.write_parts(body.len(), body);
                    assert(state::wrote_into(
                        last.link,
                        core,
                        written,
                        now.link,
                        Some(now.out),
                        result,
                    ));
                    assert(last.seals(plain, now));
                    seals_push(path, plain, now);
                    path = path.push(now);
                }
                if count == 0 {
                    stuck = true;
                }
                consumed = consumed + count;
            }
        }
        proof {
            assert(seals_all(path, plain));
            assert(seals_end(path, plain));
        }
        consumed
    }

    /// Whether the transport is to be closed once all was sent.
    pub fn closes(&self) -> (close: bool)
        ensures
            close == self@.closes(),
    {
        let orderly = match self.state.tls.peer_close() {
            PeerClose::CloseNotify => true,
            _ => false,
        };
        !self.state.tls.has_pending_control() && (self.state.close || orderly)
    }

    /// Puts control records that are owed into the send buffer.
    pub fn drain_control(&mut self, send: &mut SendState<'d>)
        requires
            old(send).buffer is Some,
        ensures
            drained_into(
                old(self)@,
                events::contents(old(send).buffer),
                final(self)@,
                events::contents(final(send).buffer),
            ),
            final(send).buffer is Some,
    {
        if self.send_inflight {
            return ;
        }
        let result = self.state.tls.drain_pending_control_into(&mut send.buffer);
        if result.is_err() {
            self.state.close = true;
        }
        proof {
            let lent = old(self)@.state.link.lend(events::contents(old(send).buffer));
            let mid = choose|mid: Link<S>| #[trigger]
                state::drained(lent, mid, result) && self@.state.link == mid.lend(
                    old(self)@.state.link.core.pending,
                ) && events::contents(send.buffer) == mid.core.pending;
            assert(state::drained(lent, mid, result));
        }
    }

    /// Tells the peer that the connection ends, once, if it still can be told.
    pub fn seal_close_notify(&mut self, send: &mut SendState<'d>)
        requires
            old(send).buffer is Some,
        ensures
            (final(self)@, events::contents(final(send).buffer)) == notified(
                old(self)@,
                events::contents(old(send).buffer),
            ),
            final(send).buffer is Some,
    {
        if self.state.close || self.state.close_notify_sent {
            return ;
        }
        if self.state.tls.can_close_notify() {
            let result = self.state.tls.seal_closing_alert_into(
                &mut send.buffer,
                Alert::close_notify(),
            );
            if result.is_ok() {
                self.state.close_notify_sent = true;
            }
        }
    }

    /// Ends the connection in order: tells the peer if there is a buffer for that,
    /// and closes the transport once all was sent.
    pub fn graceful_close(&mut self, send: &mut SendState<'d>) -> (prepared: Prepared)
        ensures
            exists|reserved: SendState<'d>, ready: bool| #[trigger]
                <Connection<'d, S> as SendProtocol>::reserved(
                    *old(self),
                    *old(send),
                    reserved,
                    ready,
                ) && if ready {
                    let (told, out) = notified(old(self)@, events::contents(reserved.buffer));
                    &&& prepared == (Prepared {
                        buffered: true,
                        consumed: 0,
                        close_after: told.closes(),
                    })
                    &&& events::contents(final(send).buffer) == if out->0.bytes.len() == 0 {
                        None
                    } else {
                        out
                    }
                    &&& final(self)@ == (Wired { inflight: out->0.bytes.len() > 0, ..told })
                } else {
                    &&& prepared == (Prepared { buffered: false, consumed: 0, close_after: true })
                    &&& final(self)@ == old(self)@
                    &&& *final(send) == reserved
                },
    {
        let ready = send.reserve(self.state.tls.record.events.pool);
        assert(<Connection<'d, S> as SendProtocol>::reserved(
            *old(self),
            *old(send),
            *send,
            ready,
        ));
        if !ready {
            return Prepared { buffered: false, consumed: 0, close_after: true };
        }
        self.seal_close_notify(send);
        let close = self.closes();
        transmissions::finish(self, send, 0, close)
    }
}

/// How many bytes all parts come to.
pub(crate) fn total_len(parts: &[&[u8]]) -> (total: usize)
    requires
        record::joined(parts@).len() <= usize::MAX,
    ensures
        total == record::joined(parts@).len(),
{
    let mut total: usize = 0;
    let mut index: usize = 0;
    proof {
        assert(parts@.take(0) =~= Seq::<&[u8]>::empty());
    }
    while index < parts.len()
        invariant
            index <= parts@.len(),
            record::joined(parts@).len() <= usize::MAX,
            total == record::joined(parts@.take(index as int)).len(),
        decreases parts@.len() - index,
    {
        proof {
            transmissions::joined_is_parts(parts@, index + 1);
            assert(parts@.take(index + 1).drop_last() =~= parts@.take(index as int));
        }
        total = total + parts[index].len();
        index = index + 1;
    }
    assert(parts@.take(index as int) =~= parts@);
    total
}

} // verus!
