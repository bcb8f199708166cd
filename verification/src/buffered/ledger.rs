//! What becomes of the application data that a connection on a wire was handed.

use crate::buffered::engines::{Engine, Wish};
use crate::buffered::held::{self, Held, Whole, INCOMING_APP_CAP};
use crate::buffered::readback;
use crate::buffered::wire::{self, Link, Moment, Submission, INGRESS_CAP, PENDING_APP_CAP};
use crate::error::Error;
use crate::record::{self, OpenKey, SealKey};
use crate::staging::{AEAD_CONFIDENTIALITY_LIMIT, MAX_TLS_RECORD, TLS13_RECORD_OVERHEAD};
use crate::state;
use crate::state::plain;
use crate::state::status::Phase;
use crate::state::traffic;
use crate::transmissions;
use shin::connection::Error as HandshakeError;
use shin::wire::alert::Alert;
use shin::wire::record::{CipherSuite, ContentType};
use vstd::prelude::*;

verus! {

/// That the first `count` bytes of what was to be sent were carried off.
pub open spec fn carried_off<E: Engine>(before: Whole<E>, count: int, after: Whole<E>) -> bool {
    &&& 0 <= count <= before.held.out.bytes.len()
    &&& after == before.with(Held { out: before.held.out.skip(count), ..before.held })
}

/// That the application data which had come in was taken.
pub open spec fn emptied<E: Engine>(before: Whole<E>, after: Whole<E>) -> bool {
    after == before.with(Held { app: Seq::empty(), ..before.held })
}

/// That a connection went from one state to another, sealing `text` as application data.
/// Only writing seals any, and then a first part of what it is handed.
pub open spec fn moved<E: Engine>(before: Whole<E>, text: Seq<u8>, after: Whole<E>) -> bool {
    ||| exists|offered: Seq<u8>, count: usize| #[trigger]
        held::wrote(before, offered, after, Ok(count)) && count <= offered.len() && text
            == offered.take(count as int)
    ||| text.len() == 0 && exists|offered: Seq<u8>, error: Error| #[trigger]
        held::wrote(before, offered, after, Err(error))
    ||| text.len() == 0 && exists|count: int| #[trigger] carried_off(before, count, after)
    ||| text.len() == 0 && exists|bytes: Seq<u8>, result: Result<(), Error>| #[trigger]
        held::read(before, bytes, after, result)
    ||| text.len() == 0 && emptied(before, after)
}

/// That a connection went this way, and sealed these texts on it.
pub open spec fn way<E: Engine>(states: Seq<Whole<E>>, texts: Seq<Seq<u8>>) -> bool {
    &&& states.len() == texts.len() + 1
    &&& forall|i: int|
        0 <= i < texts.len() ==> moved(states[i], #[trigger] texts[i], states[i + 1])
}

/// That a connection got from one state to another with `text` sealed on the way, each byte
/// once and in order.
pub open spec fn handed<E: Engine>(first: Whole<E>, text: Seq<u8>, last: Whole<E>) -> bool {
    exists|states: Seq<Whole<E>>, texts: Seq<Seq<u8>>| #[trigger]
        way(states, texts) && states[0] == first && states.last() == last && plain::whole(texts)
            == text
}

/// A connection that did nothing sealed nothing.
pub proof fn handed_nothing<E: Engine>(state: Whole<E>)
    ensures
        handed(state, Seq::empty(), state),
{
    let texts = Seq::<Seq<u8>>::empty();
    assert(way(seq![state], texts));
    assert(plain::whole(texts) =~= Seq::<u8>::empty());
}

/// One step more.
pub proof fn handed_on<E: Engine>(
    first: Whole<E>,
    text: Seq<u8>,
    mid: Whole<E>,
    more: Seq<u8>,
    last: Whole<E>,
)
    requires
        handed(first, text, mid),
        moved(mid, more, last),
    ensures
        handed(first, text + more, last),
{
    let (states, texts) = choose|states: Seq<Whole<E>>, texts: Seq<Seq<u8>>| #[trigger]
        way(states, texts) && states[0] == first && states.last() == mid && plain::whole(texts)
            == text;
    let longer = states.push(last);
    let all = texts.push(more);
    assert forall|i: int| 0 <= i < all.len() implies moved(
        longer[i],
        #[trigger] all[i],
        longer[i + 1],
    ) by {
        if i < texts.len() {
            assert(all[i] == texts[i]);
            assert(longer[i] == states[i] && longer[i + 1] == states[i + 1]);
        }
    }
    assert(way(longer, all));
    assert(all =~= texts + seq![more]);
    plain::whole_concat(texts, seq![more]);
    plain::whole_one(more);
}

/// A step on which nothing was sealed.
proof fn handed_still<E: Engine>(
    first: Whole<E>,
    text: Seq<u8>,
    mid: Whole<E>,
    last: Whole<E>,
)
    requires
        handed(first, text, mid),
        moved(mid, Seq::<u8>::empty(), last),
    ensures
        handed(first, text, last),
{
    handed_on(first, text, mid, Seq::empty(), last);
    assert(text + Seq::<u8>::empty() =~= text);
}

/// The bytes that are on their way to the peer, in order.
pub open spec fn outbound<E: Engine>(link: Link<E>) -> Seq<u8> {
    link.egress.bytes + match link.tls {
        Some(tls) => tls.held.out.bytes,
        None => Seq::empty(),
    }
}

/// Moving bytes to the egress loses none and keeps their order. Nothing else changes, and
/// nothing moves while a send is under way. Otherwise bytes are left behind only where the
/// egress is full.
pub proof fn draining_keeps_bytes<E: Engine>(link: Link<E>)
    ensures
        outbound(link.drain()) == outbound(link),
        link.drain().pending == link.pending,
        link.drain().ingress == link.ingress,
        link.drain().close == link.close,
        link.drain().inflight == link.inflight,
        link.drain().established() == link.established(),
        link.drain().tls is Some == link.tls is Some,
        link.inflight ==> link.drain() == link,
        !link.inflight && link.tls is Some && link.egress.spare() >= 0 ==> link.drain().egress.spare()
            == 0 || (link.drain().tls->0).held.out.bytes.len() == 0,
{
    assert(outbound(link.drain()) =~= outbound(link));
}

/// Moving bytes to the egress seals nothing.
proof fn draining_seals_nothing<E: Engine>(first: Whole<E>, text: Seq<u8>, link: Link<E>)
    requires
        link.tls is Some,
        handed(first, text, link.tls->0),
    ensures
        link.drain().tls is Some,
        handed(first, text, link.drain().tls->0),
{
    let tls = link.tls->0;
    let out = tls.held.out;
    if !(link.inflight || link.egress.spare() <= 0) {
        let n = if out.bytes.len() <= link.egress.spare() {
            out.bytes.len() as int
        } else {
            link.egress.spare()
        };
        assert(carried_off(tls, n, link.drain().tls->0));
        handed_still(first, text, tls, link.drain().tls->0);
    }
}

/// A record's worth of data that is written is sealed as far as it is said to be taken.
proof fn sealed_hands_over<E: Engine>(
    first: Whole<E>,
    text: Seq<u8>,
    before: Link<E>,
    chunk: Seq<u8>,
    after: Link<E>,
    count: nat,
)
    requires
        before.tls is Some,
        handed(first, text, before.tls->0),
        wire::sealed(before, chunk, after, count),
    ensures
        count <= chunk.len(),
        after.tls is Some,
        handed(first, text + chunk.take(count as int), after.tls->0),
        after.pending == before.pending,
        before.close ==> after.close,
        count == 0 ==> after.close || stalled(chunk, after),
{
    let tls = before.tls->0;
    let (mid, result) = choose|mid: Whole<E>, result: Result<usize, Error>| #[trigger]
        held::wrote(tls, chunk, mid, result) && match result {
            Err(_) => count == 0 && after == (Link { tls: Some(mid), close: true, ..before }),
            Ok(n) => count == n && after == (Link { tls: Some(mid), ..before }).drain(),
        };
    held::writes_no_more(tls, chunk, mid, result);
    match result {
        Err(error) => {
            assert(held::wrote(tls, chunk, mid, Err(error)));
            handed_still(first, text, tls, mid);
            assert(text + chunk.take(0) =~= text);
        },
        Ok(n) => {
            assert(held::wrote(tls, chunk, mid, Ok(n)));
            handed_on(first, text, tls, chunk.take(n as int), mid);
            let full = Link { tls: Some(mid), ..before };
            draining_seals_nothing(first, text + chunk.take(n as int), full);
            draining_keeps_bytes(full);
            assert(n == 0 ==> stalls(tls, chunk, full, after));
        },
    }
}

/// That the connection of `full` took nothing of `offered`, and was then drained.
pub open spec fn stalls<E: Engine>(
    before: Whole<E>,
    offered: Seq<u8>,
    full: Link<E>,
    after: Link<E>,
) -> bool {
    full.tls is Some && held::wrote(before, offered, full.tls->0, Ok(0usize)) && after
        == full.drain()
}

/// That the connection had no room for any of `offered`.
pub open spec fn stalled<E: Engine>(offered: Seq<u8>, after: Link<E>) -> bool {
    exists|before: Whole<E>, full: Link<E>| #[trigger] stalls(before, offered, full, after)
}

/// That data which is left over could not be written: there is no room for a record in the
/// egress or in the connection, or the connection ends.
pub open spec fn stuck<E: Engine>(after: Link<E>) -> bool {
    !after.has_room() || after.close || exists|offered: Seq<u8>| #[trigger]
        stalled(offered, after) && offered.len() > 0
}

proof fn flushing_hands_over<E: Engine>(
    first: Whole<E>,
    sent: Seq<u8>,
    before: Link<E>,
    path: Seq<Link<E>>,
    i: int,
) -> (text: Seq<u8>)
    requires
        before.tls is Some,
        handed(first, sent, before.tls->0),
        wire::flushing(before, path),
        0 <= i < path.len(),
    ensures
        path[i].tls is Some,
        handed(first, sent + text, path[i].tls->0),
        text + path[i].pending == before.pending,
        before.close ==> path[i].close,
    decreases i,
{
    if i == 0 {
        assert(sent + Seq::<u8>::empty() =~= sent);
        assert(Seq::<u8>::empty() + before.pending =~= before.pending);
        Seq::empty()
    } else {
        let text = flushing_hands_over(first, sent, before, path, i - 1);
        assert(wire::flush_passes(path, i - 1));
        let last = path[i - 1];
        let (mid, n) = choose|mid: Link<E>, n: nat| #[trigger]
            wire::sealed(last, last.next_chunk(), mid, n) && n > 0 && path[i - 1 + 1] == (Link {
                pending: mid.pending.skip(n as int),
                ..mid
            });
        sealed_hands_over(first, sent + text, last, last.next_chunk(), mid, n);
        let more = last.next_chunk().take(n as int);
        assert(sent + (text + more) =~= (sent + text) + more);
        assert(more + path[i].pending =~= last.pending);
        assert((text + more) + path[i].pending =~= text + (more + path[i].pending));
        text + more
    }
}

/// No application data that was accepted is lost, doubled or reordered when what waits is
/// written: what is sealed, followed by what still waits, is what waited. Data waits on
/// only where there is no room for a record, or where the connection ends.
pub proof fn flushing_loses_nothing<E: Engine>(
    first: Whole<E>,
    sent: Seq<u8>,
    before: Link<E>,
    after: Link<E>,
) -> (text: Seq<u8>)
    requires
        before.tls is Some,
        handed(first, sent, before.tls->0),
        wire::flushed(before, after),
    ensures
        after.tls is Some,
        handed(first, sent + text, after.tls->0),
        text + after.pending == before.pending,
        before.close ==> after.close,
        after.pending.len() > 0 ==> stuck(after),
{
    reveal(wire::flushed);
    let path = choose|path: Seq<Link<E>>| #[trigger]
        wire::flushing(before, path) && ({
            let last = path.last();
            if last.pending.len() == 0 || !last.has_room() {
                after == last
            } else {
                wire::sealed(last, last.next_chunk(), after, 0)
            }
        });
    let text = flushing_hands_over(first, sent, before, path, path.len() - 1);
    let last = path.last();
    if last.pending.len() > 0 && last.has_room() {
        sealed_hands_over(first, sent + text, last, last.next_chunk(), after, 0);
        assert((sent + text) + last.next_chunk().take(0) =~= sent + text);
    }
    text
}

proof fn writing_hands_over<E: Engine>(
    first: Whole<E>,
    text: Seq<u8>,
    before: Link<E>,
    offered: Seq<u8>,
    path: Seq<Moment<E>>,
    i: int,
)
    requires
        before.tls is Some,
        handed(first, text, before.tls->0),
        wire::writing(before, offered, path),
        0 <= i < path.len(),
    ensures
        path[i].rest.len() <= offered.len(),
        path[i].rest == offered.skip(offered.len() - path[i].rest.len()),
        path[i].link.tls is Some,
        handed(
            first,
            text + offered.take(offered.len() - path[i].rest.len()),
            path[i].link.tls->0,
        ),
        path[i].link.pending == before.pending,
        before.close ==> path[i].link.close,
    decreases i,
{
    if i == 0 {
        assert(offered.skip(0) =~= offered);
        assert(text + offered.take(0) =~= text);
    } else {
        writing_hands_over(first, text, before, offered, path, i - 1);
        assert(wire::write_passes(path, i - 1));
        let last = path[i - 1];
        let n = choose|n: nat| #[trigger]
            wire::sealed(last.link, wire::piece(last.rest), path[i - 1 + 1].link, n) && 0 < n
                <= last.rest.len() && path[i - 1 + 1].rest == last.rest.skip(n as int);
        let done = offered.len() - last.rest.len();
        let so_far = text + offered.take(done);
        sealed_hands_over(first, so_far, last.link, wire::piece(last.rest), path[i].link, n);
        assert(so_far + wire::piece(last.rest).take(n as int) =~= text + offered.take(
            done + n,
        ));
        assert(path[i].rest =~= offered.skip(done + n));
    }
}

/// Writing seals the data that it says it took, and nothing else. It stops short only
/// where there is no room for a record, or where the connection ends.
proof fn written_hands_over<E: Engine>(
    first: Whole<E>,
    text: Seq<u8>,
    before: Link<E>,
    offered: Seq<u8>,
    after: Link<E>,
    count: nat,
)
    requires
        before.tls is Some,
        handed(first, text, before.tls->0),
        wire::written(before, offered, after, count),
    ensures
        count <= offered.len(),
        after.tls is Some,
        handed(first, text + offered.take(count as int), after.tls->0),
        after.pending == before.pending,
        before.close ==> after.close,
        count < offered.len() ==> stuck(after),
{
    reveal(wire::written);
    let path = choose|path: Seq<Moment<E>>| #[trigger]
        wire::writing(before, offered, path) && count == offered.len() - path.last().rest.len()
            && ({
            let last = path.last();
            if last.rest.len() == 0 || !last.link.has_room() {
                after == last.link
            } else {
                wire::sealed(last.link, wire::piece(last.rest), after, 0)
            }
        });
    writing_hands_over(first, text, before, offered, path, path.len() - 1);
    let last = path.last();
    let all = text + offered.take(count as int);
    if last.rest.len() > 0 && last.link.has_room() {
        sealed_hands_over(first, all, last.link, wire::piece(last.rest), after, 0);
        assert(all + wire::piece(last.rest).take(0) =~= all);
    }
}

/// Until the handshake is done, application data waits: all of it, behind what waits
/// already, or, where that would be too much, none of it, and the connection ends.
pub proof fn early_data_waits_in_order<E: Engine>(
    before: Link<E>,
    offered: Seq<u8>,
    after: Link<E>,
    count: nat,
)
    requires
        wire::encrypted(before, offered, after, count),
        !before.established(),
    ensures
        before.pending.len() + offered.len() <= PENDING_APP_CAP ==> count == offered.len()
            && after.pending == before.pending + offered && after.close == before.close,
        before.pending.len() + offered.len() > PENDING_APP_CAP ==> count == 0 && after.pending
            == before.pending && after.close,
        outbound(after) == outbound(before),
{
    draining_keeps_bytes(before);
}

/// Over any number of calls, the plaintext that was sealed, followed by what still waits,
/// is all that was accepted, in the order of the calls: where `sent` was sealed so far and
/// `sent` with what waits makes up `accepted`, handing `offered` over adds to it just the
/// `count` bytes of it that are said to be taken.
pub proof fn accepted_data_keeps_its_order<E: Engine>(
    first: Whole<E>,
    sent: Seq<u8>,
    accepted: Seq<u8>,
    before: Link<E>,
    offered: Seq<u8>,
    after: Link<E>,
    count: nat,
) -> (text: Seq<u8>)
    requires
        before.tls is Some,
        handed(first, sent, before.tls->0),
        sent + before.pending == accepted,
        wire::encrypted(before, offered, after, count),
    ensures
        count <= offered.len(),
        after.tls is Some,
        handed(first, sent + text, after.tls->0),
        (sent + text) + after.pending == accepted + offered.take(count as int),
        before.established() && count < offered.len() ==> stuck(after),
        before.established() && after.pending.len() > 0 ==> count == 0 && stuck(after),
{
    let start = before.drain();
    draining_keeps_bytes(before);
    draining_seals_nothing(first, sent, before);
    if !start.established() {
        let text = Seq::<u8>::empty();
        assert(sent + text =~= sent);
        assert((sent + text) + after.pending =~= accepted + offered.take(count as int));
        text
    } else {
        let mid = choose|mid: Link<E>| #[trigger]
            wire::flushed(start, mid) && if mid.pending.len() > 0 {
                after == mid && count == 0
            } else {
                wire::written(mid, offered, after, count)
            };
        let text = flushing_loses_nothing(first, sent, start, mid);
        assert((sent + text) + mid.pending =~= accepted);
        if mid.pending.len() > 0 {
            assert(accepted + offered.take(0) =~= accepted);
            text
        } else {
            written_hands_over(first, sent + text, mid, offered, after, count);
            let all = text + offered.take(count as int);
            assert(sent + all =~= (sent + text) + offered.take(count as int));
            assert((sent + all) + after.pending =~= accepted + offered.take(count as int));
            all
        }
    }
}

/// What waits for the handshake is not lost when wire bytes come in, the end of the
/// handshake among them: what is then sealed, followed by what still waits, is what waited.
/// Once the connection is established, data waits on only where it is stuck.
pub proof fn receiving_loses_no_waiting_data<E: Engine>(
    first: Whole<E>,
    sent: Seq<u8>,
    before: Link<E>,
    input: Seq<u8>,
    after: Link<E>,
    data: Seq<u8>,
) -> (text: Seq<u8>)
    requires
        before.tls is Some,
        handed(first, sent, before.tls->0),
        wire::received(before, input, after, data),
    ensures
        after.tls is Some,
        handed(first, sent + text, after.tls->0),
        text + after.pending == before.pending,
{
    let (taken, mid) = choose|taken: Link<E>, mid: Link<E>|
        #![trigger wire::ingested(before, input, taken), mid.drain()]
        wire::ingested(before, input, taken) && (if taken.established() && taken.pending.len()
            > 0 {
            wire::flushed(taken, mid)
        } else {
            mid == taken
        }) && (after, data) == mid.drain().take_data();
    let tls = before.tls->0;
    let (now, done) = choose|now: Whole<E>, done: bool| #[trigger]
        wire::tried(tls, input, now, done) && taken == (Link {
            tls: Some(now),
            close: before.close || !done || state::closed(now.held.phase),
            ..before
        });
    if input.len() > 0 {
        let result = choose|result: Result<(), Error>| #[trigger]
            held::read(tls, input, now, result) && done == (result is Ok);
        assert(held::read(tls, input, now, result));
        handed_still(first, sent, tls, now);
    }
    let text = if taken.established() && taken.pending.len() > 0 {
        flushing_loses_nothing(first, sent, taken, mid)
    } else {
        Seq::<u8>::empty()
    };
    assert(text.len() == 0 ==> sent + text =~= sent);
    assert(text.len() == 0 ==> text + mid.pending =~= mid.pending);
    draining_seals_nothing(first, sent + text, mid);
    draining_keeps_bytes(mid);
    assert(emptied(mid.drain().tls->0, after.tls->0));
    handed_still(first, sent + text, mid.drain().tls->0, after.tls->0);
    text
}

/// Having the egress sent changes nothing but that it is under way: it is sent just if
/// there is something in it and no send is under way.
pub proof fn submitting_changes_nothing_else<E: Engine>(
    before: Link<E>,
    busy: bool,
    after: Link<E>,
    done: Submission,
)
    requires
        wire::handed_on(before, busy, after, done),
    ensures
        after == (Link { inflight: after.inflight, ..before }),
        done.submit <==> !busy && before.egress.bytes.len() > 0,
        done.submit ==> after.inflight,
        !done.submit ==> after.inflight == before.inflight,
        done.close_after == before.close,
{
}

proof fn parts_keep_their_order<E: Engine>(
    first: Whole<E>,
    sent: Seq<u8>,
    accepted: Seq<u8>,
    before: Link<E>,
    parts: Seq<&[u8]>,
    path: Seq<Link<E>>,
    n: int,
) -> (text: Seq<u8>)
    requires
        before.tls is Some,
        handed(first, sent, before.tls->0),
        sent + before.pending == accepted,
        wire::taking(before, parts, path),
        0 <= n < path.len(),
    ensures
        path[n].tls is Some,
        handed(first, sent + text, path[n].tls->0),
        (sent + text) + path[n].pending == accepted + record::joined(parts.take(n)),
        wire::total_len(parts, n) == record::joined(parts.take(n)).len(),
    decreases n,
{
    if n == 0 {
        assert(parts.take(0) =~= Seq::<&[u8]>::empty());
        assert(sent + Seq::<u8>::empty() =~= sent);
        assert(accepted + record::joined(parts.take(0)) =~= accepted);
        Seq::empty()
    } else {
        let so_far = parts_keep_their_order(first, sent, accepted, before, parts, path, n - 1);
        assert(wire::part_passes(path, parts, n - 1));
        let part = parts[n - 1]@;
        let had = accepted + record::joined(parts.take(n - 1));
        assert(parts.take(n).drop_last() =~= parts.take(n - 1));
        assert(record::joined(parts.take(n)) == record::joined(parts.take(n - 1)) + part);
        assert(had + part =~= accepted + record::joined(parts.take(n)));
        if part.len() == 0 {
            assert(had + part =~= had);
            so_far
        } else {
            let more = accepted_data_keeps_its_order(
                first,
                sent + so_far,
                had,
                path[n - 1],
                part,
                path[n],
                part.len(),
            );
            assert(part.take(part.len() as int) =~= part);
            assert(sent + (so_far + more) =~= (sent + so_far) + more);
            so_far + more
        }
    }
}

/// Parts that are handed over in one call are taken as if they stood in one piece: what is
/// accepted of them is a first part of them all, in order.
pub proof fn accepted_parts_keep_their_order<E: Engine>(
    first: Whole<E>,
    sent: Seq<u8>,
    accepted: Seq<u8>,
    before: Link<E>,
    parts: Seq<&[u8]>,
    after: Link<E>,
    count: nat,
) -> (text: Seq<u8>)
    requires
        before.tls is Some,
        handed(first, sent, before.tls->0),
        sent + before.pending == accepted,
        wire::gathered(before, parts, after, count),
    ensures
        count <= record::joined(parts).len(),
        after.tls is Some,
        handed(first, sent + text, after.tls->0),
        (sent + text) + after.pending == accepted + record::joined(parts).take(count as int),
{
    reveal(wire::gathered);
    let path = choose|path: Seq<Link<E>>| #[trigger]
        wire::taking(before, parts, path) && ({
            let n = path.len() - 1;
            if n == parts.len() {
                after == path.last() && count == wire::total_len(parts, n)
            } else {
                exists|short: nat| #[trigger]
                    wire::encrypted(path.last(), parts[n]@, after, short) && short
                        < parts[n]@.len() && count == wire::total_len(parts, n) + short
            }
        });
    let n = path.len() - 1;
    let text = parts_keep_their_order(first, sent, accepted, before, parts, path, n);
    let whole = record::joined(parts);
    let front = record::joined(parts.take(n));
    if n == parts.len() {
        assert(parts.take(n) =~= parts);
        assert(whole.take(count as int) =~= whole);
        text
    } else {
        let short = choose|short: nat| #[trigger]
            wire::encrypted(path.last(), parts[n]@, after, short) && short < parts[n]@.len()
                && count == wire::total_len(parts, n) + short;
        let more = accepted_data_keeps_its_order(
            first,
            sent + text,
            accepted + front,
            path.last(),
            parts[n]@,
            after,
            short,
        );
        transmissions::joined_is_parts(parts, n);
        assert(transmissions::parts_from(parts, n) == parts[n]@ + transmissions::parts_from(
            parts,
            n + 1,
        ));
        assert(whole.take(count as int) =~= front + parts[n]@.take(short as int));
        assert(sent + (text + more) =~= (sent + text) + more);
        assert((accepted + front) + parts[n]@.take(short as int) =~= accepted + whole.take(
            count as int,
        ));
        text + more
    }
}

/// After a send has ended, just the bytes that have left are gone: all others stay on their
/// way in order. Where some are left, the connection goes on sending and is not closed
/// before; where none are, the transport is told whether to close.
pub proof fn going_on_loses_no_bytes<E: Engine>(
    before: Link<E>,
    sent: int,
    busy: bool,
    after: Link<E>,
    done: (bool, Submission),
)
    requires
        0 <= sent <= before.egress.bytes.len(),
        before.egress.bytes.len() <= before.egress.capacity,
        before.egress.capacity > 0,
        wire::went_on(before, sent, busy, after, done),
    ensures
        outbound(after) == outbound(before).skip(sent),
        done.0 <==> outbound(after).len() > 0,
        done.0 ==> !done.1.close_after && (!busy ==> done.1.submit && after.inflight),
        !done.0 ==> !done.1.submit && !after.inflight && done.1.close_after == before.close,
        done.1.submit ==> !busy && after.egress.bytes.len() > 0,
        after.pending == before.pending,
        after.ingress == before.ingress,
        after.close == before.close,
        done.1.consumed == 0,
{
    let dropped = Link { inflight: false, egress: before.egress.skip(sent), ..before };
    draining_keeps_bytes(dropped);
    assert(outbound(dropped) =~= outbound(before).skip(sent));
    if dropped.drain().egress.bytes.len() == 0 {
        assert(outbound(after).len() == 0);
    }
}

/// Writing leaves what has come in as it is.
proof fn writing_keeps_received<E: Engine>(
    before: Whole<E>,
    offered: Seq<u8>,
    after: Whole<E>,
    result: Result<usize, Error>,
)
    requires
        held::wrote(before, offered, after, result),
    ensures
        after.held.app == before.held.app,
        after.held.recv == before.held.recv,
{
    if before.held.phase == Phase::Established {
        let (mid, written) = before.held.write(offered);
        let from = before.with(mid);
        if written is Ok && mid.traffic.needs_key_update() && !state::closed(mid.phase)
            && mid.out.spare() >= held::KEY_UPDATE_RECORD_MAX {
            let sent: Result<(), Error> = match result {
                Ok(_) => Ok(()),
                Err(error) => Err(error),
            };
            assert(held::updated(from, false, after, sent));
            let answer = choose|answer: Result<Seq<Wish>, HandshakeError>| #[trigger]
                held::updated_by(from, false, answer, after, sent);
            match answer {
                Ok(wishes) => {
                    held::absorbing_keeps_received(
                        from.held,
                        wishes,
                        held::suite_or_default(after.side.suite()),
                    );
                },
                Err(_) => {},
            }
        }
    }
}

/// That what has come in is the same on both.
pub open spec fn received_alike<E: Engine>(one: Link<E>, other: Link<E>) -> bool {
    match (one.tls, other.tls) {
        (Some(one), Some(other)) => one.held.app == other.held.app && one.held.recv
            == other.held.recv,
        (None, None) => true,
        _ => false,
    }
}

proof fn sealing_keeps_received<E: Engine>(
    before: Link<E>,
    chunk: Seq<u8>,
    after: Link<E>,
    count: nat,
)
    requires
        wire::sealed(before, chunk, after, count),
    ensures
        received_alike(before, after),
{
    if before.tls is Some {
        let tls = before.tls->0;
        let (mid, result) = choose|mid: Whole<E>, result: Result<usize, Error>| #[trigger]
            held::wrote(tls, chunk, mid, result) && match result {
                Err(_) => count == 0 && after == (Link { tls: Some(mid), close: true, ..before }),
                Ok(n) => count == n && after == (Link { tls: Some(mid), ..before }).drain(),
            };
        writing_keeps_received(tls, chunk, mid, result);
    }
}

proof fn flushing_keeps_received<E: Engine>(before: Link<E>, path: Seq<Link<E>>, i: int)
    requires
        wire::flushing(before, path),
        0 <= i < path.len(),
    ensures
        received_alike(before, path[i]),
    decreases i,
{
    if i > 0 {
        flushing_keeps_received(before, path, i - 1);
        assert(wire::flush_passes(path, i - 1));
        let last = path[i - 1];
        let (mid, n) = choose|mid: Link<E>, n: nat| #[trigger]
            wire::sealed(last, last.next_chunk(), mid, n) && n > 0 && path[i - 1 + 1] == (Link {
                pending: mid.pending.skip(n as int),
                ..mid
            });
        sealing_keeps_received(last, last.next_chunk(), mid, n);
    }
}

/// What comes in on a wire is handed out once, all of it and in order. Where the
/// connection is in step with a writer, and the bytes that wait and `input` are records
/// that carry `text`, the data is what it had kept, followed by `text`, and nothing is
/// kept then.
pub proof fn received_data_is_what_was_written<E: Engine>(
    before: Link<E>,
    input: Seq<u8>,
    after: Link<E>,
    data: Seq<u8>,
    text: Seq<u8>,
    end: OpenKey,
)
    requires
        wire::received(before, input, after, data),
        before.tls matches Some(tls) && {
            &&& !state::closed(tls.held.phase)
            &&& readback::in_step(tls) matches Some(key) && traffic::carries(
                key,
                tls.held.recv.bytes + input,
                text,
                end,
            )
            &&& tls.held.app.len() + text.len() <= INCOMING_APP_CAP
            &&& tls.held.recv.capacity >= MAX_TLS_RECORD
            &&& tls.held.recv.bytes.len() < tls.held.recv.capacity
        },
        input.len() > 0,
    ensures
        data == (before.tls->0).held.app + text,
        after.tls is Some,
        (after.tls->0).held.app.len() == 0,
        (after.tls->0).held.recv.bytes.len() == 0,
{
    let (taken, mid) = choose|taken: Link<E>, mid: Link<E>|
        #![trigger wire::ingested(before, input, taken), mid.drain()]
        wire::ingested(before, input, taken) && (if taken.established() && taken.pending.len()
            > 0 {
            wire::flushed(taken, mid)
        } else {
            mid == taken
        }) && (after, data) == mid.drain().take_data();
    let tls = before.tls->0;
    let (now, done) = choose|now: Whole<E>, done: bool| #[trigger]
        wire::tried(tls, input, now, done) && taken == (Link {
            tls: Some(now),
            close: before.close || !done || state::closed(now.held.phase),
            ..before
        });
    let result = choose|result: Result<(), Error>| #[trigger]
        held::read(tls, input, now, result) && done == (result is Ok);
    readback::kept_reading_gives_back_what_was_written(tls, input, now, result, text, end);
    if taken.established() && taken.pending.len() > 0 {
        reveal(wire::flushed);
        let path = choose|path: Seq<Link<E>>| #[trigger]
            wire::flushing(taken, path) && ({
                let last = path.last();
                if last.pending.len() == 0 || !last.has_room() {
                    mid == last
                } else {
                    wire::sealed(last, last.next_chunk(), mid, 0)
                }
            });
        flushing_keeps_received(taken, path, path.len() - 1);
        let last = path.last();
        if last.pending.len() > 0 && last.has_room() {
            sealing_keeps_received(last, last.next_chunk(), mid, 0);
        }
    }
    draining_keeps_bytes(mid);
}

/// Whatever an engine wants done only adds to what is to be sent.
proof fn absorbing_appends(held: Held, wishes: Seq<Wish>, suite: CipherSuite)
    ensures
        held.out.bytes.is_prefix_of(held.absorb_all(wishes, suite).0.out.bytes),
        held.absorb_all(wishes, suite).0.out.capacity == held.out.capacity,
    decreases wishes.len(),
{
    if wishes.len() > 0 {
        absorbing_appends(held, wishes.drop_last(), suite);
    }
}

/// What is written is sealed into records, each byte once and in order: what is to be sent
/// grows by just the records of the pieces that the data is cut into, and by the word that
/// the key was replaced where it was used up. What is left over has no room for its next
/// record. Nothing is written unless the connection is established.
pub proof fn written_data_is_sealed_in_order<E: Engine>(
    before: Whole<E>,
    key: SealKey,
    offered: Seq<u8>,
    after: Whole<E>,
    count: usize,
) -> (pieces: Seq<Seq<u8>>)
    requires
        before.held.traffic.application.seal == Some(key),
        held::wrote(before, offered, after, Ok(count)),
    ensures
        before.held.phase == Phase::Established,
        count <= offered.len(),
        plain::whole(pieces) == offered.take(count as int),
        (before.held.out.bytes + traffic::records_of(key, pieces)).is_prefix_of(
            after.held.out.bytes,
        ),
        traffic::key_after(key, pieces.len()).seq < AEAD_CONFIDENTIALITY_LIMIT
            ==> after.held.out.bytes == before.held.out.bytes + traffic::records_of(key, pieces)
            && after.held.traffic.application.seal == Some(traffic::key_after(key, pieces.len()))
            && after.held.phase == Phase::Established && (count < offered.len()
            ==> after.held.out.spare() < traffic::fragment((offered.len() - count) as nat)
            + TLS13_RECORD_OVERHEAD),
{
    let pieces = traffic::writing_seals_in_order(key, before.held.out, offered);
    let mid = before.with(before.held.write(offered).0);
    if mid.held.traffic.needs_key_update() && !state::closed(mid.held.phase)
        && mid.held.out.spare() >= held::KEY_UPDATE_RECORD_MAX {
        assert(held::updated(mid, false, after, Ok(())));
        let answer = choose|answer: Result<Seq<Wish>, HandshakeError>| #[trigger]
            held::updated_by(mid, false, answer, after, Ok(()));
        match answer {
            Ok(wishes) => {
                absorbing_appends(
                    mid.held,
                    wishes,
                    held::suite_or_default(after.side.suite()),
                );
            },
            Err(_) => {},
        }
    }
    pieces
}

/// Closing tells the peer by just one record behind what is to be sent, and closes the
/// connection; where it fails, nothing is sent and the connection is as open as it was.
pub proof fn closing_tells_the_peer(held: Held, key: SealKey, alert: Alert)
    requires
        held.phase != Phase::Closed,
        held.traffic.application.seal == Some(key),
    ensures
        ({
            let (after, result) = held.close_with(alert);
            let record = key.record(ContentType::Alert, record::alert_body(alert));
            &&& result is Ok ==> after.phase == Phase::Closed && record is Some
                && after.out.bytes == held.out.bytes + record->0
            &&& result is Err ==> after.phase == held.phase && after.out == held.out
            &&& after.app == held.app
            &&& after.recv == held.recv
            &&& after.close == held.close
        }),
{
}

/// Bytes that come in on a wire without a connection are handed out as they are, once and
/// in order, unless too many have come.
pub proof fn bytes_without_a_connection_pass_through<E: Engine>(
    before: Link<E>,
    input: Seq<u8>,
    after: Link<E>,
    data: Seq<u8>,
)
    requires
        before.tls is None,
        before.ingress.len() + input.len() <= INGRESS_CAP,
        wire::received(before, input, after, data),
    ensures
        data == before.ingress + input,
        after == (Link { ingress: Seq::empty(), ..before }),
{
}

/// Going on after a send seals nothing, and leaves what waits.
proof fn going_on_seals_nothing<E: Engine>(
    first: Whole<E>,
    text: Seq<u8>,
    before: Link<E>,
    sent: int,
    busy: bool,
    after: Link<E>,
    done: (bool, Submission),
)
    requires
        before.tls is Some,
        handed(first, text, before.tls->0),
        wire::went_on(before, sent, busy, after, done),
    ensures
        after.tls is Some,
        handed(first, text, after.tls->0),
        after.pending == before.pending,
{
    let dropped = Link { inflight: false, egress: before.egress.skip(sent), ..before };
    draining_keeps_bytes(dropped);
    draining_seals_nothing(first, text, dropped);
}

/// That one call on a wire accepted `text` to be sent: data or parts were handed over and
/// `text` is what of them was taken, or wire bytes came in, or a send has ended.
pub open spec fn called<E: Engine>(before: Link<E>, text: Seq<u8>, after: Link<E>) -> bool {
    ||| exists|offered: Seq<u8>, busy: bool, mid: Link<E>, done: Submission|
        #![trigger wire::encrypted(before, offered, mid, done.consumed as nat), wire::handed_on(mid, busy, after, done)]
        wire::encrypted(before, offered, mid, done.consumed as nat) && wire::handed_on(
            mid,
            busy,
            after,
            done,
        ) && text == offered.take(done.consumed as int)
    ||| exists|parts: Seq<&[u8]>, busy: bool, mid: Link<E>, done: Submission|
        #![trigger wire::gathered(before, parts, mid, done.consumed as nat), wire::handed_on(mid, busy, after, done)]
        wire::gathered(before, parts, mid, done.consumed as nat) && wire::handed_on(
            mid,
            busy,
            after,
            done,
        ) && text == record::joined(parts).take(done.consumed as int)
    ||| text.len() == 0 && exists|input: Seq<u8>, data: Seq<u8>| #[trigger]
        wire::received(before, input, after, data)
    ||| text.len() == 0 && exists|sent: int, busy: bool, done: (bool, Submission)| #[trigger]
        wire::went_on(before, sent, busy, after, done)
}

/// That these calls came one after the other.
pub open spec fn calls<E: Engine>(path: Seq<Link<E>>, texts: Seq<Seq<u8>>) -> bool {
    &&& path.len() == texts.len() + 1
    &&& forall|i: int| 0 <= i < texts.len() ==> called(path[i], #[trigger] texts[i], path[i + 1])
}

proof fn call_keeps_order<E: Engine>(
    first: Whole<E>,
    sent: Seq<u8>,
    accepted: Seq<u8>,
    before: Link<E>,
    text: Seq<u8>,
    after: Link<E>,
) -> (more: Seq<u8>)
    requires
        before.tls is Some,
        handed(first, sent, before.tls->0),
        sent + before.pending == accepted,
        called(before, text, after),
    ensures
        after.tls is Some,
        handed(first, sent + more, after.tls->0),
        (sent + more) + after.pending == accepted + text,
{
    if exists|offered: Seq<u8>, busy: bool, mid: Link<E>, done: Submission|
        #![trigger wire::encrypted(before, offered, mid, done.consumed as nat), wire::handed_on(mid, busy, after, done)]
        wire::encrypted(before, offered, mid, done.consumed as nat) && wire::handed_on(
            mid,
            busy,
            after,
            done,
        ) && text == offered.take(done.consumed as int) {
        let (offered, busy, mid, done) = choose|
            offered: Seq<u8>,
            busy: bool,
            mid: Link<E>,
            done: Submission,
        |
            #![trigger wire::encrypted(before, offered, mid, done.consumed as nat), wire::handed_on(mid, busy, after, done)]
            wire::encrypted(before, offered, mid, done.consumed as nat) && wire::handed_on(
                mid,
                busy,
                after,
                done,
            ) && text == offered.take(done.consumed as int);
        let more = accepted_data_keeps_its_order(
            first,
            sent,
            accepted,
            before,
            offered,
            mid,
            done.consumed as nat,
        );
        submitting_changes_nothing_else(mid, busy, after, done);
        more
    } else if exists|parts: Seq<&[u8]>, busy: bool, mid: Link<E>, done: Submission|
        #![trigger wire::gathered(before, parts, mid, done.consumed as nat), wire::handed_on(mid, busy, after, done)]
        wire::gathered(before, parts, mid, done.consumed as nat) && wire::handed_on(
            mid,
            busy,
            after,
            done,
        ) && text == record::joined(parts).take(done.consumed as int) {
        let (parts, busy, mid, done) = choose|
            parts: Seq<&[u8]>,
            busy: bool,
            mid: Link<E>,
            done: Submission,
        |
            #![trigger wire::gathered(before, parts, mid, done.consumed as nat), wire::handed_on(mid, busy, after, done)]
            wire::gathered(before, parts, mid, done.consumed as nat) && wire::handed_on(
                mid,
                busy,
                after,
                done,
            ) && text == record::joined(parts).take(done.consumed as int);
        let more = accepted_parts_keep_their_order(
            first,
            sent,
            accepted,
            before,
            parts,
            mid,
            done.consumed as nat,
        );
        submitting_changes_nothing_else(mid, busy, after, done);
        more
    } else if text.len() == 0 && exists|input: Seq<u8>, data: Seq<u8>| #[trigger]
        wire::received(before, input, after, data) {
        let (input, data) = choose|input: Seq<u8>, data: Seq<u8>| #[trigger]
            wire::received(before, input, after, data);
        let more = receiving_loses_no_waiting_data(first, sent, before, input, after, data);
        assert((sent + more) + after.pending =~= accepted + text);
        more
    } else {
        let (gone, busy, done) = choose|gone: int, busy: bool, done: (bool, Submission)| #[trigger]
            wire::went_on(before, gone, busy, after, done);
        going_on_seals_nothing(first, sent, before, gone, busy, after, done);
        assert(sent + Seq::<u8>::empty() =~= sent);
        assert(sent + after.pending =~= accepted + text);
        Seq::empty()
    }
}

/// Over a whole run of calls, whatever they are and however they are mixed, what was
/// sealed for the peer, followed by what still waits, is all that was accepted, in the
/// order of the calls: no byte is lost, doubled or moved.
pub proof fn runs_keep_their_order<E: Engine>(
    path: Seq<Link<E>>,
    texts: Seq<Seq<u8>>,
) -> (sent: Seq<u8>)
    requires
        calls(path, texts),
        path[0].tls is Some,
        path[0].pending.len() == 0,
    ensures
        path.last().tls is Some,
        handed(path[0].tls->0, sent, path.last().tls->0),
        sent + path.last().pending == plain::whole(texts),
    decreases texts.len(),
{
    let first = path[0].tls->0;
    if texts.len() == 0 {
        handed_nothing(first);
        assert(plain::whole(texts) =~= Seq::<u8>::empty());
        assert(Seq::<u8>::empty() + path.last().pending =~= Seq::<u8>::empty());
        Seq::empty()
    } else {
        let n = texts.len() - 1;
        let shorter = path.drop_last();
        let fewer = texts.drop_last();
        assert forall|i: int| 0 <= i < fewer.len() implies called(
            shorter[i],
            #[trigger] fewer[i],
            shorter[i + 1],
        ) by {
            assert(fewer[i] == texts[i]);
        }
        let sent = runs_keep_their_order(shorter, fewer);
        assert(called(path[n], texts[n], path[n + 1]));
        let more = call_keeps_order(
            first,
            sent,
            plain::whole(fewer),
            path[n],
            texts[n],
            path[n + 1],
        );
        assert(texts =~= fewer + seq![texts[n]]);
        plain::whole_concat(fewer, seq![texts[n]]);
        plain::whole_one(texts[n]);
        sent + more
    }
}

} // verus!
