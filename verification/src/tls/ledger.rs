//! What becomes of the plaintext that a connection is given to send.

use crate::buffer::Contents;
use crate::error::Error;
use crate::staging::{MAX_PLAINTEXT_BODY, TLS13_RECORD_OVERHEAD};
use crate::state::appending;
use crate::state::plain;
use crate::state::records::Link;
use crate::state::sessions::Peer;
use crate::state::status::Phase;
use crate::state::traffic::{self, TrafficView};
use crate::state;
use crate::tls::egress::{self, Moment};
use crate::tls::Wired;
use shin::wire::alert::{Alert, Description, Level};
use shin::wire::record::ContentType;
use vstd::prelude::*;

verus! {

/// That just the record which these keys make of `piece` was added behind `out`, unless
/// the key was used up by it: then the word that it was replaced may follow.
pub open spec fn sealed_behind(
    keys: TrafficView,
    out: Contents,
    piece: Seq<u8>,
    more: Contents,
) -> bool {
    &&& 0 < piece.len() <= MAX_PLAINTEXT_BODY
    &&& more.capacity == out.capacity
    &&& keys.application.seal matches Some(key) && key.record(
        ContentType::ApplicationData,
        piece,
    ) matches Some(record) && (out.bytes + record).is_prefix_of(more.bytes) && (more.bytes
        == out.bytes + record || keys.with_seal(Some(key.next())).needs_key_update())
}

/// A buffer on its way, and the keys at that point.
pub struct Stop {
    pub keys: TrafficView,
    pub out: Contents,
}

/// That a buffer was filled on this way, with records of these pieces.
pub open spec fn filled(stops: Seq<Stop>, pieces: Seq<Seq<u8>>) -> bool {
    &&& stops.len() == pieces.len() + 1
    &&& forall|i: int|
        0 <= i < pieces.len() ==> sealed_behind(
            stops[i].keys,
            stops[i].out,
            #[trigger] pieces[i],
            stops[i + 1].out,
        )
}

/// That `out` became `left` by adding the records of `text`, each byte once and in order.
pub open spec fn sealed_text(
    keys: TrafficView,
    out: Contents,
    text: Seq<u8>,
    end: TrafficView,
    left: Contents,
) -> bool {
    exists|stops: Seq<Stop>, pieces: Seq<Seq<u8>>| #[trigger]
        filled(stops, pieces) && stops[0] == (Stop { keys, out }) && stops.last() == (Stop {
            keys: end,
            out: left,
        }) && plain::whole(pieces) == text
}

proof fn sealed_more(
    keys: TrafficView,
    out: Contents,
    text: Seq<u8>,
    mid: TrafficView,
    middle: Contents,
    piece: Seq<u8>,
    end: TrafficView,
    left: Contents,
)
    requires
        sealed_text(keys, out, text, mid, middle),
        sealed_behind(mid, middle, piece, left),
    ensures
        sealed_text(keys, out, text + piece, end, left),
{
    let (stops, pieces) = choose|stops: Seq<Stop>, pieces: Seq<Seq<u8>>| #[trigger]
        filled(stops, pieces) && stops[0] == (Stop { keys, out }) && stops.last() == (Stop {
            keys: mid,
            out: middle,
        }) && plain::whole(pieces) == text;
    let longer = stops.push(Stop { keys: end, out: left });
    let all = pieces.push(piece);
    assert forall|i: int| 0 <= i < all.len() implies sealed_behind(
        longer[i].keys,
        longer[i].out,
        #[trigger] all[i],
        longer[i + 1].out,
    ) by {
        if i < pieces.len() {
            assert(all[i] == pieces[i]);
            assert(longer[i] == stops[i] && longer[i + 1] == stops[i + 1]);
        }
    }
    assert(filled(longer, all));
    assert(all =~= pieces + seq![piece]);
    plain::whole_concat(pieces, seq![piece]);
    plain::whole_one(piece);
}

/// One step of encrypting adds the record of what it takes; where it fails, the connection
/// is to be closed.
proof fn step_seals<S: Peer>(before: Moment<S>, offered: Seq<u8>, after: Moment<S>)
    requires
        before.seals(offered, after),
        before.taken <= offered.len(),
        after.taken <= offered.len(),
    ensures
        before.taken <= after.taken,
        before.out.bytes.is_prefix_of(after.out.bytes),
        after.out.capacity == before.out.capacity,
        after.taken == before.taken ==> after.close,
        after.taken > before.taken ==> after.close == before.close && sealed_behind(
            before.link.core.traffic,
            before.out,
            offered.subrange(before.taken as int, after.taken as int),
            after.out,
        ),
{
    let body = before.next(offered);
    let (core, written) = before.link.core.lend(Some(before.out)).write_parts(body.len(), body);
    let result = choose|result: Result<usize, Error>| #[trigger]
        state::wrote_into(
            before.link,
            core,
            written,
            after.link,
            Some(after.out),
            result,
        ) && match result {
            Ok(count) => after.close == before.close && after.taken == before.taken + count,
            Err(_) => after.close && after.taken == before.taken,
        };
    let mid = before.link.with_core(core.lend(before.link.core.pending));
    if written is Ok {
        let refresh: Result<(), Error> = match result {
            Ok(_) => Ok(()),
            Err(error) => Err(error),
        };
        assert(state::refreshed_into(mid, core.pending, after.link, Some(after.out), refresh));
        let fresh = choose|fresh: Link<S>| #[trigger]
            state::refreshed(mid.lend(core.pending), core.pending->0.spare(), fresh, refresh)
                && after.link == fresh.lend(mid.core.pending) && Some(after.out)
                == fresh.core.pending;
        appending::refreshing_only_appends(
            mid.lend(core.pending),
            core.pending->0.spare(),
            fresh,
            refresh,
        );
        let key = before.link.core.traffic.application.seal->0;
        let record = key.record(ContentType::ApplicationData, body)->0;
        assert(core.pending->0.bytes == before.out.bytes + record);
        assert(body =~= offered.subrange(
            before.taken as int,
            (before.taken + body.len()) as int,
        ));
    }
}

proof fn path_seals<S: Peer>(path: Seq<Moment<S>>, offered: Seq<u8>, i: int)
    requires
        path.len() > 0,
        egress::seals_all(path, offered),
        path[0].taken == 0,
        0 <= i < path.len(),
    ensures
        path[i].taken <= offered.len(),
        i < path.len() - 1 || !(path.len() > 1 && path[path.len() - 1].taken == path[path.len()
            - 2].taken) ==> sealed_text(
            path[0].link.core.traffic,
            path[0].out,
            offered.take(path[i].taken as int),
            path[i].link.core.traffic,
            path[i].out,
        ) && path[i].close == path[0].close,
    decreases i,
{
    reveal(egress::seals_at);
    if i == 0 {
        let none = Seq::<Seq<u8>>::empty();
        let stop = Stop { keys: path[0].link.core.traffic, out: path[0].out };
        assert(filled(seq![stop], none));
        assert(plain::whole(none) =~= offered.take(0));
    } else {
        path_seals(path, offered, i - 1);
        assert(egress::seals_at(path, offered, i - 1));
        let last = path[i - 1];
        let now = path[i];
        step_seals(last, offered, now);
        if now.taken > last.taken {
            let piece = offered.subrange(last.taken as int, now.taken as int);
            sealed_more(
                path[0].link.core.traffic,
                path[0].out,
                offered.take(last.taken as int),
                last.link.core.traffic,
                last.out,
                piece,
                now.link.core.traffic,
                now.out,
            );
            assert(offered.take(last.taken as int) + piece =~= offered.take(now.taken as int));
        }
    }
}

/// What is encrypted is sealed into records, each byte once and in order: the buffer grows
/// by the records of the first `count` bytes, and by nothing else but the word that a
/// used-up key was replaced. Unless a step fails, and then the connection is to be closed,
/// all is taken that there is room for. Nothing is taken while a buffer is in flight, or
/// before and after the connection is established.
pub proof fn encrypting_seals_in_order<S: Peer>(
    before: Wired<S>,
    out: Contents,
    offered: Seq<u8>,
    after: Wired<S>,
    left: Option<Contents>,
    count: nat,
)
    requires
        egress::encrypted(before, Some(out), offered, after, left, count),
    ensures
        count <= offered.len(),
        appending::grown(Some(out), left),
        after.inflight == before.inflight,
        before.inflight || before.state.link.core.phase != Phase::Established ==> count == 0
            && left == Some(out) && after == before,
        !after.close ==> sealed_text(
            before.state.link.core.traffic,
            out,
            offered.take(count as int),
            after.state.link.core.traffic,
            left->0,
        ),
        !after.close && count < offered.len() && !before.inflight
            && before.state.link.core.phase == Phase::Established ==> left->0.spare()
            < traffic::fragment((offered.len() - count) as nat) + TLS13_RECORD_OVERHEAD,
        before.close ==> after.close,
{
    if before.inflight || before.state.link.core.phase != Phase::Established {
        let none = Seq::<Seq<u8>>::empty();
        let stop = Stop { keys: before.state.link.core.traffic, out };
        assert(filled(seq![stop], none));
        assert(plain::whole(none) =~= offered.take(0));
    } else {
        let path = choose|path: Seq<Moment<S>>|
            {
                &&& path.len() > 0
                &&& path[0] == (Moment {
                    link: before.state.link,
                    out,
                    close: before.close,
                    taken: 0,
                })
                &&& #[trigger] egress::seals_all(path, offered)
                &&& egress::seals_end(path, offered)
                &&& after == (Wired {
                    close: path.last().close,
                    ..before.with_link(path.last().link)
                })
                &&& left == Some(path.last().out)
                &&& count == path.last().taken
            };
        let n = path.len() - 1;
        path_seals(path, offered, n);
        path_grows(path, offered, n);
        if n > 0 && path[n].taken == path[n - 1].taken {
            reveal(egress::seals_at);
            assert(egress::seals_at(path, offered, n - 1));
            path_seals(path, offered, n - 1);
            step_seals(path[n - 1], offered, path[n]);
        }
    }
}

proof fn path_grows<S: Peer>(path: Seq<Moment<S>>, offered: Seq<u8>, i: int)
    requires
        path.len() > 0,
        egress::seals_all(path, offered),
        path[0].taken == 0,
        0 <= i < path.len(),
    ensures
        path[0].out.bytes.is_prefix_of(path[i].out.bytes),
        path[i].out.capacity == path[0].out.capacity,
        path[0].close ==> path[i].close,
    decreases i,
{
    reveal(egress::seals_at);
    if i > 0 {
        path_grows(path, offered, i - 1);
        path_seals(path, offered, i - 1);
        assert(egress::seals_at(path, offered, i - 1));
        step_seals(path[i - 1], offered, path[i]);
    }
}

/// Control records that are owed are added behind the bytes of the buffer. Nothing is
/// added while it is in flight.
pub proof fn draining_only_appends<S: Peer>(
    before: Wired<S>,
    out: Contents,
    after: Wired<S>,
    left: Option<Contents>,
)
    requires
        egress::drained_into(before, Some(out), after, left),
    ensures
        appending::grown(Some(out), left),
        after.inflight == before.inflight,
        before.inflight ==> after == before && left == Some(out),
        after.state.link.core.pending == before.state.link.core.pending,
        after.state.received == before.state.received,
        before.close ==> after.close,
{
    if !before.inflight {
        let (mid, result) = choose|mid: Link<S>, result: Result<(), Error>| #[trigger]
            state::drained(before.state.link.lend(Some(out)), mid, result) && after == (Wired {
                close: before.close || result is Err,
                ..before.with_link(mid.lend(before.state.link.core.pending))
            }) && left == mid.core.pending;
        appending::draining_only_appends(before.state.link.lend(Some(out)), mid, result);
    }
}

/// Telling the peer of the end adds at most that behind the bytes of the buffer.
pub proof fn notifying_only_appends<S: Peer>(before: Wired<S>, out: Contents)
    ensures
        appending::grown(Some(out), egress::notified(before, Some(out)).1),
        egress::notified(before, Some(out)).0.inflight == before.inflight,
        before.close_notify_sent ==> egress::notified(before, Some(out)) == (before, Some(out)),
{
    let notify = Alert { level: Level::Warning, description: Description::CloseNotify };
    appending::closing_only_appends(before.state.link.core.lend(Some(out)), notify);
}

} // verus!
