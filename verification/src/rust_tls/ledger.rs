//! What becomes of the application data that a connection of `rustls` was handed.

use crate::buffer::Contents;
use crate::buffered::wire::{self, Submission};
use crate::record;
use crate::rust_tls::queued::{self, Feeding, Line, Moment, Pouring, Sipping};
use crate::rust_tls::session::{Progress, Refusal, Session, Stall};
use crate::rust_tls::{self, Giving, RustTls, Writing};
use crate::state::plain;
use crate::transmissions;
use vstd::prelude::*;

verus! {

/// That a session went from one state to another, taking in `text` as plaintext that is
/// to be sent. Only writing takes any, and then a first part of what it is handed.
pub open spec fn moved<S: Session>(before: S, text: Seq<u8>, after: S) -> bool {
    ||| exists|offered: Seq<u8>, count: usize| #[trigger]
        S::seals(before, offered, after, Ok(count)) && count <= offered.len() && text
            == offered.take(count as int)
    ||| text.len() == 0 && exists|offered: Seq<u8>, stall: Stall| #[trigger]
        S::seals(before, offered, after, Err(stall))
    ||| text.len() == 0 && exists|room: int, more: Seq<u8>, result: Result<usize, Stall>| #[trigger]
        S::gives(before, room, after, more, result)
    ||| text.len() == 0 && exists|input: Seq<u8>, result: Result<usize, Refusal>| #[trigger]
        S::takes(before, input, after, result)
    ||| text.len() == 0 && exists|result: Result<Progress, Stall>| #[trigger]
        S::handles(before, after, result)
    ||| text.len() == 0 && exists|result: Result<Seq<u8>, Stall>| #[trigger]
        S::shows(before, after, result)
    ||| text.len() == 0 && exists|count: int| #[trigger] S::drops(before, count, after)
    ||| text.len() == 0 && S::tells(before, after)
}

/// That a session went this way, and took in these texts on it.
pub open spec fn way<S: Session>(states: Seq<S>, texts: Seq<Seq<u8>>) -> bool {
    &&& states.len() == texts.len() + 1
    &&& forall|i: int|
        0 <= i < texts.len() ==> moved(states[i], #[trigger] texts[i], states[i + 1])
}

/// That a session got from one state to another with `text` handed to it on the way, each
/// byte once and in order.
pub open spec fn handed<S: Session>(first: S, text: Seq<u8>, last: S) -> bool {
    exists|states: Seq<S>, texts: Seq<Seq<u8>>| #[trigger]
        way(states, texts) && states[0] == first && states.last() == last && plain::whole(texts)
            == text
}

/// A session that did nothing was handed nothing.
pub proof fn handed_nothing<S: Session>(state: S)
    ensures
        handed(state, Seq::empty(), state),
{
    let texts = Seq::<Seq<u8>>::empty();
    assert(way(seq![state], texts));
    assert(plain::whole(texts) =~= Seq::<u8>::empty());
}

/// One step more.
pub proof fn handed_on<S: Session>(first: S, text: Seq<u8>, mid: S, more: Seq<u8>, last: S)
    requires
        handed(first, text, mid),
        moved(mid, more, last),
    ensures
        handed(first, text + more, last),
{
    let (states, texts) = choose|states: Seq<S>, texts: Seq<Seq<u8>>| #[trigger]
        way(states, texts) && states[0] == first && states.last() == mid && plain::whole(texts)
            == text;
    let longer = states.push(last);
    let all = texts.push(more);
    assert forall|i: int| 0 <= i < all.len() implies moved(
        longer[i],
        #[trigger] all[i],
        longer[i + 1],
    ) by {
        if i < texts.len() {
            assert(all[i] == texts[i]);
            assert(longer[i] == states[i] && longer[i + 1] == states[i + 1]);
        }
    }
    assert(way(longer, all));
    assert(all =~= texts + seq![more]);
    plain::whole_concat(texts, seq![more]);
    plain::whole_one(more);
}

/// A step on which nothing was taken in.
proof fn handed_still<S: Session>(first: S, text: Seq<u8>, mid: S, last: S)
    requires
        handed(first, text, mid),
        moved(mid, Seq::<u8>::empty(), last),
    ensures
        handed(first, text, last),
{
    handed_on(first, text, mid, Seq::empty(), last);
    assert(text + Seq::<u8>::empty() =~= text);
}

proof fn pouring_hands_nothing<S: Session>(
    first: S,
    text: Seq<u8>,
    start: Pouring<S>,
    path: Seq<Pouring<S>>,
    i: int,
)
    requires
        handed(first, text, start.conn),
        queued::pouring(start, path),
        0 <= i < path.len(),
    ensures
        handed(first, text, path[i].conn),
    decreases i,
{
    if i > 0 {
        pouring_hands_nothing(first, text, start, path, i - 1);
        assert(queued::pour_passes(path, i - 1));
        let (more, result): (Seq<u8>, Result<usize, Stall>) = choose|
            more: Seq<u8>,
            result: Result<usize, Stall>,
        | #[trigger] queued::poured(path[i - 1], more, result, path[i - 1 + 1]);
        assert(S::gives(path[i - 1].conn, usize::MAX as int, path[i].conn, more, result));
        handed_still(first, text, path[i - 1].conn, path[i].conn);
    }
}

/// Giving ciphertext out takes no plaintext in.
proof fn emptying_hands_nothing<S: Session>(
    first: S,
    text: Seq<u8>,
    before: S,
    after: S,
    out: Seq<u8>,
    close: bool,
)
    requires
        handed(first, text, before),
        queued::emptied(before, after, out, close),
    ensures
        handed(first, text, after),
{
    reveal(queued::emptied);
    let start = Pouring { conn: before, out: Seq::<u8>::empty() };
    let path = choose|path: Seq<Pouring<S>>|
        #![trigger queued::pouring(start, path)]
        queued::pouring(start, path) && queued::pour_ends(
            path.last(),
            Pouring { conn: after, out },
            close,
        );
    pouring_hands_nothing(first, text, start, path, path.len() - 1);
    let last = path.last();
    if last.conn.queue().len() > 0 {
        let (more, result): (Seq<u8>, Result<usize, Stall>) = choose|
            more: Seq<u8>,
            result: Result<usize, Stall>,
        | #[trigger] queued::poured(last, more, result, Pouring { conn: after, out });
        assert(S::gives(last.conn, usize::MAX as int, after, more, result));
        handed_still(first, text, last.conn, after);
    }
}

/// Putting ciphertext on its way hands the session nothing, and leaves what waits.
proof fn draining_hands_nothing<S: Session>(
    first: S,
    text: Seq<u8>,
    before: Line<S>,
    after: Line<S>,
)
    requires
        before.conn is Some,
        handed(first, text, before.conn->0),
        queued::drained(before, after),
    ensures
        after.conn is Some,
        handed(first, text, after.conn->0),
        after.pending_app == before.pending_app,
        before.close ==> after.close,
{
    if !before.inflight {
        let conn = before.conn->0;
        let (now, out, close) = choose|now: S, out: Seq<u8>, close: bool| #[trigger]
            queued::emptied(conn, now, out, close) && after == (Line {
                conn: Some(now),
                close: before.close || close,
                ..before.flush()
            }).stage(out);
        emptying_hands_nothing(first, text, conn, now, out, close);
    }
}

/// That a session refused to take anything in although it was offered something.
pub open spec fn balks<S: Session>(after: S) -> bool {
    exists|before: S, offered: Seq<u8>| #[trigger]
        S::seals(before, offered, after, Ok(0usize)) && offered.len() > 0
}

proof fn writing_hands_over<S: Session>(
    first: S,
    text: Seq<u8>,
    start: Moment<S>,
    path: Seq<Moment<S>>,
    i: int,
)
    requires
        start.line.conn is Some,
        handed(first, text, start.line.conn->0),
        queued::writing(start, path),
        0 <= i < path.len(),
    ensures
        path[i].rest.len() <= start.rest.len(),
        path[i].rest == start.rest.skip(start.rest.len() - path[i].rest.len()),
        path[i].line.conn is Some,
        handed(
            first,
            text + start.rest.take(start.rest.len() - path[i].rest.len()),
            path[i].line.conn->0,
        ),
        path[i].line.pending_app == start.line.pending_app,
        start.line.close ==> path[i].line.close,
    decreases i,
{
    if i == 0 {
        assert(start.rest.skip(0) =~= start.rest);
        assert(text + start.rest.take(0) =~= text);
    } else {
        writing_hands_over(first, text, start, path, i - 1);
        assert(queued::write_passes(path, i - 1));
        let last = path[i - 1];
        let (mid, result): (S, Result<usize, Stall>) = choose|
            mid: S,
            result: Result<usize, Stall>,
        | #[trigger] last.wrote(mid, result, path[i - 1 + 1]);
        let count = result->Ok_0;
        let done = start.rest.len() - last.rest.len();
        let so_far = text + start.rest.take(done);
        let next = last.next();
        assert(S::seals(last.line.conn->0, next, mid, Ok(count)));
        handed_on(first, so_far, last.line.conn->0, next.take(count as int), mid);
        assert(so_far + next.take(count as int) =~= text + start.rest.take(done + count));
        assert(path[i].rest =~= start.rest.skip(done + count));
        draining_hands_nothing(
            first,
            text + start.rest.take(done + count),
            Line { conn: Some(mid), ..last.line },
            path[i].line,
        );
    }
}

/// Writing hands the session the data that it says it took, and nothing else. It stops
/// short only where there is no room for a record, where the session takes nothing more,
/// or where the connection ends.
proof fn written_hands_over<S: Session>(
    first: S,
    text: Seq<u8>,
    before: Line<S>,
    offered: Seq<u8>,
    after: Line<S>,
    count: nat,
)
    requires
        before.conn is Some,
        handed(first, text, before.conn->0),
        queued::written(before, offered, after, count),
    ensures
        count <= offered.len(),
        after.conn is Some,
        handed(first, text + offered.take(count as int), after.conn->0),
        after.pending_app == before.pending_app,
        before.close ==> after.close,
        count < offered.len() ==> !after.has_room() || after.close || balks(after.conn->0),
{
    reveal(queued::written);
    let start = Moment { line: before, rest: offered };
    let path = choose|path: Seq<Moment<S>>|
        #![trigger queued::writing(start, path)]
        queued::writing(start, path) && count == offered.len() - path.last().rest.len()
            && queued::write_ends(path.last(), after);
    writing_hands_over(first, text, start, path, path.len() - 1);
    let last = path.last();
    if last.goes_on() {
        let (mid, result): (S, Result<usize, Stall>) = choose|
            mid: S,
            result: Result<usize, Stall>,
        | #[trigger]
            S::seals(last.line.conn->0, last.next(), mid, result) && mid.plain() == (
            last.line.conn->0).plain() && match result {
                Ok(count) => count == 0 && after == (Line { conn: Some(mid), ..last.line }),
                Err(_) => after == (Line { conn: Some(mid), close: true, ..last.line }),
            };
        assert(last.next().take(0) =~= Seq::<u8>::empty());
        match result {
            Ok(none) => {
                assert(S::seals(last.line.conn->0, last.next(), mid, Ok(none)));
            },
            Err(stall) => {
                assert(S::seals(last.line.conn->0, last.next(), mid, Err(stall)));
            },
        }
        handed_still(first, text + offered.take(count as int), last.line.conn->0, mid);
    }
}

/// No application data that was accepted is lost, doubled or reordered when what waits is
/// written: what the session is handed, followed by what still waits, is what waited. Data
/// waits on only where there is no room for a record, where the session takes nothing
/// more, where the connection ends, or before the handshake is done.
pub proof fn flushing_loses_nothing<S: Session>(
    first: S,
    sent: Seq<u8>,
    before: Line<S>,
    after: Line<S>,
) -> (text: Seq<u8>)
    requires
        before.conn is Some,
        handed(first, sent, before.conn->0),
        queued::app_flushed(before, after),
    ensures
        after.conn is Some,
        handed(first, sent + text, after.conn->0),
        text + after.pending_app == before.pending_app,
        before.established() && after.pending_app.len() > 0 ==> !after.has_room() || after.close
            || balks(after.conn->0),
        before.close ==> after.close,
{
    if !before.established() || before.pending_app.len() == 0 {
        assert(sent + Seq::<u8>::empty() =~= sent);
        assert(Seq::<u8>::empty() + after.pending_app =~= before.pending_app);
        Seq::empty()
    } else {
        let bare = Line { pending_app: Seq::empty(), ..before };
        let (mid, count) = choose|mid: Line<S>, count: nat| #[trigger]
            queued::written(bare, before.pending_app, mid, count) && after == (Line {
                pending_app: before.pending_app.skip(count as int),
                ..mid
            });
        written_hands_over(first, sent, bare, before.pending_app, mid, count);
        let text = before.pending_app.take(count as int);
        assert(text + after.pending_app =~= before.pending_app);
        text
    }
}

/// Over any number of calls, the plaintext that the session was handed, followed by what
/// still waits, is all that was accepted, in the order of the calls: where `sent` was
/// handed to the session so far and `sent` with what waits makes up `accepted`, handing
/// `offered` over adds to it just the `count` bytes of it that are said to be taken.
pub proof fn accepted_data_keeps_its_order<S: Session>(
    first: S,
    sent: Seq<u8>,
    accepted: Seq<u8>,
    before: Line<S>,
    offered: Seq<u8>,
    after: Line<S>,
    count: nat,
) -> (text: Seq<u8>)
    requires
        before.conn is Some,
        handed(first, sent, before.conn->0),
        sent + before.pending_app == accepted,
        queued::encrypted(before, offered, after, count),
    ensures
        count <= offered.len(),
        after.conn is Some,
        handed(first, sent + text, after.conn->0),
        (sent + text) + after.pending_app == accepted + offered.take(count as int),
        count < offered.len() ==> after.close || !after.has_room() || balks(after.conn->0),
{
    let (mid, now) = choose|mid: Line<S>, now: Line<S>| #[trigger]
        queued::app_flushed(before, mid) && #[trigger] queued::drained(mid, now) && if !now.established()
            || now.pending_app.len() > 0 {
            (after, count) == now.put_aside(offered)
        } else {
            queued::written(now, offered, after, count)
        };
    let text = flushing_loses_nothing(first, sent, before, mid);
    draining_hands_nothing(first, sent + text, mid, now);
    if !now.established() || now.pending_app.len() > 0 {
        assert((sent + text) + after.pending_app =~= accepted + offered.take(count as int));
        text
    } else {
        written_hands_over(first, sent + text, now, offered, after, count);
        let all = text + offered.take(count as int);
        assert(sent + all =~= (sent + text) + offered.take(count as int));
        assert((sent + all) + after.pending_app =~= accepted + offered.take(count as int));
        all
    }
}

/// Telling the peer of the end hands the session nothing, and leaves what waits.
proof fn telling_hands_nothing<S: Session>(
    first: S,
    text: Seq<u8>,
    before: Line<S>,
    busy: bool,
    after: Line<S>,
    submit: bool,
)
    requires
        before.conn is Some,
        handed(first, text, before.conn->0),
        queued::told(before, busy, after, submit),
    ensures
        after.conn is Some,
        handed(first, text, after.conn->0),
        after.pending_app == before.pending_app,
{
    if before.close {
        let (mid, now) = choose|mid: Line<S>, now: Line<S>| #[trigger]
            queued::notified(before, mid) && #[trigger] queued::drained(mid, now) && (after, submit)
                == now.submit(busy);
        if before.established() {
            handed_still(first, text, before.conn->0, mid.conn->0);
        }
        draining_hands_nothing(first, text, mid, now);
    }
}

/// Having the egress sent and passing the end of the connection on changes nothing in
/// what was handed to the session and in what waits.
pub proof fn submitting_hands_nothing<S: Session>(
    first: S,
    text: Seq<u8>,
    before: Line<S>,
    busy: bool,
    after: Line<S>,
    done: Submission,
)
    requires
        before.conn is Some,
        handed(first, text, before.conn->0),
        queued::handed_on(before, busy, after, done),
    ensures
        after.conn is Some,
        handed(first, text, after.conn->0),
        after.pending_app == before.pending_app,
{
    let (sent, submit) = before.submit(busy);
    if submit {
        telling_hands_nothing(first, text, sent, true, after, false);
    } else {
        telling_hands_nothing(first, text, sent, busy, after, done.submit);
    }
}

proof fn sipping_hands_nothing<S: Session>(
    first: S,
    text: Seq<u8>,
    start: Sipping<S>,
    path: Seq<Sipping<S>>,
    i: int,
)
    requires
        handed(first, text, start.conn),
        queued::sipping(start, path),
        0 <= i < path.len(),
    ensures
        handed(first, text, path[i].conn),
    decreases i,
{
    if i > 0 {
        sipping_hands_nothing(first, text, start, path, i - 1);
        assert(queued::sip_passes(path, i - 1));
        let (mid, chunk) = choose|mid: S, chunk: Seq<u8>| #[trigger]
            queued::sipped(path[i - 1], mid, chunk, path[i - 1 + 1]);
        assert(S::shows(path[i - 1].conn, mid, Ok(chunk)));
        handed_still(first, text, path[i - 1].conn, mid);
        assert(S::drops(mid, chunk.len() as int, path[i].conn));
        handed_still(first, text, mid, path[i].conn);
    }
}

/// Reading plaintext hands the session none.
proof fn reading_hands_nothing<S: Session>(
    first: S,
    text: Seq<u8>,
    before: Line<S>,
    out: Seq<u8>,
    after: Line<S>,
    left: Seq<u8>,
)
    requires
        before.conn is Some,
        handed(first, text, before.conn->0),
        queued::read_out(before, out, after, left),
    ensures
        after.conn is Some,
        handed(first, text, after.conn->0),
        after.pending_app == before.pending_app,
{
    reveal(queued::conn_read);
    let conn = before.conn->0;
    let (now, close) = choose|now: S, close: bool| #[trigger]
        queued::conn_read(conn, out, now, left, close) && after == (Line {
            conn: Some(now),
            close: before.close || close,
            ..before
        });
    let start = Sipping { conn, out };
    let path = choose|path: Seq<Sipping<S>>|
        #![trigger queued::sipping(start, path)]
        queued::sipping(start, path) && left == path.last().out && queued::sip_ends(
            path.last().conn,
            now,
            close,
        );
    sipping_hands_nothing(first, text, start, path, path.len() - 1);
    handed_still(first, text, path.last().conn, now);
}

proof fn feeding_hands_nothing<S: Session>(
    first: S,
    text: Seq<u8>,
    start: Feeding<S>,
    path: Seq<Feeding<S>>,
    i: int,
)
    requires
        start.line.conn is Some,
        handed(first, text, start.line.conn->0),
        queued::feeding(start, path),
        0 <= i < path.len(),
    ensures
        path[i].line.conn is Some,
        handed(first, text, path[i].line.conn->0),
        path[i].line.pending_app == start.line.pending_app,
    decreases i,
{
    if i > 0 {
        feeding_hands_nothing(first, text, start, path, i - 1);
        assert(queued::feed_passes(path, i - 1));
        let last = path[i - 1];
        let after = path[i];
        assert(queued::feed_step(last, after));
        if exists|
            fed: S,
            taken: Result<usize, Refusal>,
            handled: S,
            progress: Result<Progress, Stall>,
        | #[trigger] last.took(fed, taken, handled, progress, after) {
            let (fed, taken, handled, progress): (
                S,
                Result<usize, Refusal>,
                S,
                Result<Progress, Stall>,
            ) = choose|
                fed: S,
                taken: Result<usize, Refusal>,
                handled: S,
                progress: Result<Progress, Stall>,
            | #[trigger] last.took(fed, taken, handled, progress, after);
            handed_still(first, text, last.conn(), fed);
            handed_still(first, text, fed, handled);
            let mid = Line {
                close: last.line.close || progress->Ok_0.peer_has_closed,
                ..last.with(handled)
            };
            reading_hands_nothing(first, text, mid, last.out, after.line, after.out);
        } else {
            let fed = choose|fed: S| #[trigger] last.relieved(fed, after);
            handed_still(first, text, last.conn(), fed);
            reading_hands_nothing(first, text, last.with(fed), last.out, after.line, after.out);
        }
    }
}

/// Taking ciphertext in hands the session no plaintext, and leaves what waits.
proof fn ingesting_hands_nothing<S: Session>(
    first: S,
    text: Seq<u8>,
    before: Line<S>,
    input: Seq<u8>,
    after: Line<S>,
    out: Seq<u8>,
)
    requires
        before.conn is Some,
        handed(first, text, before.conn->0),
        queued::ingested(before, input, after, out),
    ensures
        after.conn is Some,
        handed(first, text, after.conn->0),
        after.pending_app == before.pending_app,
{
    let start = Feeding {
        line: Line { pending_recv: Seq::empty(), ..before },
        rest: before.pending_recv + input,
        out: Seq::empty(),
    };
    let path = choose|path: Seq<Feeding<S>>|
        #![trigger queued::feeding(start, path)]
        queued::feeding(start, path) && queued::feed_ends(path.last(), after, out);
    feeding_hands_nothing(first, text, start, path, path.len() - 1);
    let last = path.last();
    if last.rest.len() > 0 {
        let (fed, taken): (S, Result<usize, Refusal>) = choose|
            fed: S,
            taken: Result<usize, Refusal>,
        | #[trigger]
            S::takes(last.conn(), last.rest, fed, taken) && fed.plain() == last.conn().plain()
                && match taken {
                Ok(count) => if count == 0 {
                    after == last.with(fed) && out == last.out
                } else {
                    exists|handled: S, progress: Result<Progress, Stall>| #[trigger]
                        S::handles(fed, handled, progress) && fed.plain().is_prefix_of(
                            handled.plain(),
                        ) && progress is Err && out == last.out && after == (Line { close: true, ..last.with(handled) })
                },
                Err(Refusal::Full) => exists|mid: Line<S>| #[trigger]
                    queued::read_out(last.with(fed), last.out, mid, out) && if mid.close {
                        after == mid
                    } else {
                        out.len() == last.out.len() && after == mid.hold_back(last.rest)
                    },
                Err(Refusal::Broken) => out == last.out && after == (Line {
                    close: true,
                    ..last.with(fed)
                }),
            };
        handed_still(first, text, last.conn(), fed);
        match taken {
            Ok(count) => {
                if count > 0 {
                    let (handled, progress): (S, Result<Progress, Stall>) = choose|
                        handled: S,
                        progress: Result<Progress, Stall>,
                    | #[trigger]
                        S::handles(fed, handled, progress) && fed.plain().is_prefix_of(
                            handled.plain(),
                        ) && progress is Err && out == last.out && after == (Line { close: true, ..last.with(handled) });
                    handed_still(first, text, fed, handled);
                }
            },
            Err(Refusal::Full) => {
                let mid = choose|mid: Line<S>| #[trigger]
                    queued::read_out(last.with(fed), last.out, mid, out) && if mid.close {
                        after == mid
                    } else {
                        out.len() == last.out.len() && after == mid.hold_back(last.rest)
                    };
                reading_hands_nothing(first, text, last.with(fed), last.out, mid, out);
            },
            Err(Refusal::Broken) => {},
        }
    }
}

/// What waits for the handshake is not lost when wire bytes come in, the end of the
/// handshake among them: what the session is then handed, followed by what still waits, is
/// what waited.
pub proof fn receiving_loses_no_waiting_data<S: Session>(
    first: S,
    sent: Seq<u8>,
    before: Line<S>,
    input: Seq<u8>,
    after: Line<S>,
    data: Seq<u8>,
) -> (text: Seq<u8>)
    requires
        before.conn is Some,
        handed(first, sent, before.conn->0),
        queued::received(before, input, after, data),
    ensures
        after.conn is Some,
        handed(first, sent + text, after.conn->0),
        text + after.pending_app == before.pending_app,
{
    let (taken, out, mid, now) = choose|taken: Line<S>, out: Seq<u8>, mid: Line<S>, now: Line<S>|
        #![trigger queued::ingested(before, input, taken, out), queued::app_flushed(taken, mid), queued::drained(mid, now)]
        queued::ingested(before, input, taken, out) && queued::app_flushed(taken, mid)
            && queued::drained(mid, now) && if now.conn is None {
            after == (Line { ingress: Seq::empty(), ..now }) && data == now.ingress
        } else {
            queued::read_out(now, out, after, data)
        };
    ingesting_hands_nothing(first, sent, before, input, taken, out);
    let text = flushing_loses_nothing(first, sent, taken, mid);
    draining_hands_nothing(first, sent + text, mid, now);
    reading_hands_nothing(first, sent + text, now, out, after, data);
    text
}

proof fn parts_keep_their_order<S: Session>(
    first: S,
    sent: Seq<u8>,
    accepted: Seq<u8>,
    before: Line<S>,
    parts: Seq<&[u8]>,
    path: Seq<Line<S>>,
    n: int,
) -> (text: Seq<u8>)
    requires
        before.conn is Some,
        handed(first, sent, before.conn->0),
        sent + before.pending_app == accepted,
        queued::taking(before, parts, path),
        0 <= n < path.len(),
    ensures
        path[n].conn is Some,
        handed(first, sent + text, path[n].conn->0),
        (sent + text) + path[n].pending_app == accepted + record::joined(parts.take(n)),
        wire::total_len(parts, n) == record::joined(parts.take(n)).len(),
    decreases n,
{
    if n == 0 {
        assert(parts.take(0) =~= Seq::<&[u8]>::empty());
        assert(sent + Seq::<u8>::empty() =~= sent);
        assert(accepted + record::joined(parts.take(0)) =~= accepted);
        Seq::empty()
    } else {
        let so_far = parts_keep_their_order(first, sent, accepted, before, parts, path, n - 1);
        assert(queued::part_passes(path, parts, n - 1));
        let part = parts[n - 1]@;
        let had = accepted + record::joined(parts.take(n - 1));
        assert(parts.take(n).drop_last() =~= parts.take(n - 1));
        assert(record::joined(parts.take(n)) == record::joined(parts.take(n - 1)) + part);
        assert(had + part =~= accepted + record::joined(parts.take(n)));
        if part.len() == 0 {
            assert(had + part =~= had);
            so_far
        } else {
            let more = accepted_data_keeps_its_order(
                first,
                sent + so_far,
                had,
                path[n - 1],
                part,
                path[n],
                part.len(),
            );
            assert(part.take(part.len() as int) =~= part);
            assert(sent + (so_far + more) =~= (sent + so_far) + more);
            so_far + more
        }
    }
}

/// Parts that are handed over in one call are taken as if they stood in one piece: what is
/// accepted of them is a first part of them all, in order.
pub proof fn accepted_parts_keep_their_order<S: Session>(
    first: S,
    sent: Seq<u8>,
    accepted: Seq<u8>,
    before: Line<S>,
    parts: Seq<&[u8]>,
    after: Line<S>,
    count: nat,
) -> (text: Seq<u8>)
    requires
        before.conn is Some,
        handed(first, sent, before.conn->0),
        sent + before.pending_app == accepted,
        queued::gathered(before, parts, after, count),
    ensures
        count <= record::joined(parts).len(),
        after.conn is Some,
        handed(first, sent + text, after.conn->0),
        (sent + text) + after.pending_app == accepted + record::joined(parts).take(count as int),
{
    reveal(queued::gathered);
    let path = choose|path: Seq<Line<S>>| #[trigger]
        queued::taking(before, parts, path) && ({
            let n = path.len() - 1;
            if n == parts.len() {
                after == path.last() && count == wire::total_len(parts, n)
            } else {
                exists|short: nat| #[trigger]
                    queued::encrypted(path.last(), parts[n]@, after, short) && short
                        < parts[n]@.len() && count == wire::total_len(parts, n) + short
            }
        });
    let n = path.len() - 1;
    let text = parts_keep_their_order(first, sent, accepted, before, parts, path, n);
    let whole = record::joined(parts);
    let front = record::joined(parts.take(n));
    if n == parts.len() {
        assert(parts.take(n) =~= parts);
        assert(whole.take(count as int) =~= whole);
        text
    } else {
        let short = choose|short: nat| #[trigger]
            queued::encrypted(path.last(), parts[n]@, after, short) && short < parts[n]@.len()
                && count == wire::total_len(parts, n) + short;
        let more = accepted_data_keeps_its_order(
            first,
            sent + text,
            accepted + front,
            path.last(),
            parts[n]@,
            after,
            short,
        );
        transmissions::joined_is_parts(parts, n);
        assert(transmissions::parts_from(parts, n) == parts[n]@ + transmissions::parts_from(
            parts,
            n + 1,
        ));
        assert(whole.take(count as int) =~= front + parts[n]@.take(short as int));
        assert(sent + (text + more) =~= (sent + text) + more);
        assert((accepted + front) + parts[n]@.take(short as int) =~= accepted + whole.take(
            count as int,
        ));
        text + more
    }
}

/// That a send buffer has bytes added behind those that it held.
pub open spec fn added(out: Contents, left: Contents) -> bool {
    out.bytes.is_prefix_of(left.bytes) && left.capacity == out.capacity
}

proof fn giving_adds<S: Session>(
    first: S,
    text: Seq<u8>,
    start: Giving<S>,
    path: Seq<Giving<S>>,
    i: int,
)
    requires
        handed(first, text, start.conn),
        rust_tls::giving(start, path),
        0 <= i < path.len(),
    ensures
        handed(first, text, path[i].conn),
        added(start.out, path[i].out),
        path[i].conn.handshaking() == start.conn.handshaking(),
    decreases i,
{
    if i > 0 {
        giving_adds(first, text, start, path, i - 1);
        assert(rust_tls::give_passes(path, i - 1));
        let last = path[i - 1];
        let (more, result): (Seq<u8>, Result<usize, Stall>) = choose|
            more: Seq<u8>,
            result: Result<usize, Stall>,
        | #[trigger] rust_tls::gave(last, more, result, path[i - 1 + 1]);
        assert(S::gives(last.conn, last.out.spare(), path[i].conn, more, result));
        handed_still(first, text, last.conn, path[i].conn);
    }
}

/// Putting ciphertext into a send buffer only adds to it, and hands the session nothing.
pub proof fn buffering_only_adds<S: Session>(
    first: S,
    text: Seq<u8>,
    before: RustTls<S>,
    out: Contents,
    after: RustTls<S>,
    left: Contents,
)
    requires
        before.conn matches Some(conn) ==> handed(first, text, conn),
        rust_tls::drained(before, out, after, left),
    ensures
        after.conn is Some == before.conn is Some,
        after.conn matches Some(conn) ==> handed(first, text, conn),
        added(out, left),
        rust_tls::established(after) == rust_tls::established(before),
        after.max_plaintext == before.max_plaintext,
        after.send_inflight == before.send_inflight,
        before.send_inflight ==> after == before && left == out,
        before.close ==> after.close,
{
    reveal(rust_tls::drained);
    if before.conn is Some && !before.send_inflight {
        let start = Giving { conn: before.conn->0, out };
        let (path, end, close): (Seq<Giving<S>>, Giving<S>, bool) = choose|
            path: Seq<Giving<S>>,
            end: Giving<S>,
            close: bool,
        |
            #![trigger rust_tls::giving(start, path), rust_tls::give_ends(path.last(), end, close)]
            rust_tls::giving(start, path) && rust_tls::give_ends(path.last(), end, close) && left
                == end.out && after == (RustTls {
                conn: Some(end.conn),
                close: before.close || close,
                ..before
            });
        giving_adds(first, text, start, path, path.len() - 1);
        let last = path.last();
        if !(last.conn.queue().len() == 0 || last.out.spare() == 0) {
            let (more, result): (Seq<u8>, Result<usize, Stall>) = choose|
                more: Seq<u8>,
                result: Result<usize, Stall>,
            | #[trigger] rust_tls::gave(last, more, result, end);
            assert(S::gives(last.conn, last.out.spare(), end.conn, more, result));
            handed_still(first, text, last.conn, end.conn);
        }
    }
}

/// That plaintext which is left over could not be written: there is no room for a record
/// of it, the session takes nothing more, or the connection ends.
pub open spec fn halted<S: Session>(after: RustTls<S>, left: Contents, rest: Seq<u8>) -> bool {
    let last = Writing { tls: after, out: left, rest };
    !last.goes_on() || after.close || balks(after.conn->0)
}

proof fn record_hands_over<S: Session>(
    first: S,
    text: Seq<u8>,
    offered: Seq<u8>,
    last: Writing<S>,
    mid: S,
    result: Result<usize, Stall>,
    after: Writing<S>,
)
    requires
        last.rest.len() <= offered.len(),
        last.rest == offered.skip(offered.len() - last.rest.len()),
        last.tls.conn is Some,
        handed(first, text + offered.take(offered.len() - last.rest.len()), last.tls.conn->0),
        last.wrote(mid, result, after),
    ensures
        after.rest.len() <= offered.len(),
        after.rest == offered.skip(offered.len() - after.rest.len()),
        after.tls.conn is Some,
        handed(first, text + offered.take(offered.len() - after.rest.len()), after.tls.conn->0),
        added(last.out, after.out),
        after.tls.max_plaintext == last.tls.max_plaintext,
        after.tls.send_inflight == last.tls.send_inflight,
        last.tls.close ==> after.tls.close,
{
    let count = result->Ok_0;
    let done = offered.len() - last.rest.len();
    let so_far = text + offered.take(done);
    let next = last.next();
    assert(S::seals(last.tls.conn->0, next, mid, Ok(count)));
    handed_on(first, so_far, last.tls.conn->0, next.take(count as int), mid);
    assert(so_far + next.take(count as int) =~= text + offered.take(done + count));
    assert(after.rest =~= offered.skip(done + count));
    buffering_only_adds(
        first,
        text + offered.take(done + count),
        RustTls { conn: Some(mid), ..last.tls },
        last.out,
        after.tls,
        after.out,
    );
}

proof fn buffered_writing_hands_over<S: Session>(
    first: S,
    text: Seq<u8>,
    start: Writing<S>,
    path: Seq<Writing<S>>,
    i: int,
    whole: bool,
)
    requires
        start.tls.conn is Some,
        handed(first, text, start.tls.conn->0),
        if whole {
            rust_tls::gathering(start, path)
        } else {
            rust_tls::writing(start, path)
        },
        0 <= i < path.len(),
    ensures
        path[i].rest.len() <= start.rest.len(),
        path[i].rest == start.rest.skip(start.rest.len() - path[i].rest.len()),
        path[i].tls.conn is Some,
        handed(
            first,
            text + start.rest.take(start.rest.len() - path[i].rest.len()),
            path[i].tls.conn->0,
        ),
        added(start.out, path[i].out),
        path[i].tls.max_plaintext == start.tls.max_plaintext,
        path[i].tls.send_inflight == start.tls.send_inflight,
        start.tls.close ==> path[i].tls.close,
    decreases i,
{
    if i == 0 {
        assert(start.rest.skip(0) =~= start.rest);
        assert(text + start.rest.take(0) =~= text);
    } else {
        buffered_writing_hands_over(first, text, start, path, i - 1, whole);
        let last = path[i - 1];
        let (mid, result): (S, Result<usize, Stall>) = if whole {
            assert(rust_tls::gather_passes(path, i - 1));
            choose|mid: S, result: Result<usize, Stall>| #[trigger]
                last.wrote(mid, result, path[i - 1 + 1])
        } else {
            assert(rust_tls::write_passes(path, i - 1));
            choose|mid: S, result: Result<usize, Stall>| #[trigger]
                last.wrote(mid, result, path[i - 1 + 1])
        };
        record_hands_over(first, text, start.rest, last, mid, result, path[i]);
    }
}

/// Plaintext that is handed over for a send buffer is handed to the session as far as it
/// is said to be taken, each byte once and in order, and the buffer is only added to.
/// Nothing is taken before the handshake is done. Otherwise all is taken that there is
/// room for, unless the session takes nothing more or the connection ends.
pub proof fn buffered_data_keeps_its_order<S: Session>(
    first: S,
    text: Seq<u8>,
    before: RustTls<S>,
    out: Contents,
    offered: Seq<u8>,
    after: RustTls<S>,
    left: Contents,
    count: nat,
)
    requires
        before.conn matches Some(conn) ==> handed(first, text, conn),
        rust_tls::encrypted(before, out, offered, after, left, count),
    ensures
        count <= offered.len(),
        after.conn is Some == before.conn is Some,
        after.conn matches Some(conn) ==> handed(first, text + offered.take(count as int), conn),
        added(out, left),
        after.send_inflight == before.send_inflight,
        !rust_tls::established(before) ==> count == 0,
        before.close ==> after.close,
        rust_tls::established(before) && before.max_plaintext.bytes() > 0 && count < offered.len()
            ==> halted(after, left, offered.skip(count as int)),
{
    assert(text + offered.take(0) =~= text);
    if before.conn is Some {
        let (mid, drawn) = choose|mid: RustTls<S>, drawn: Contents| #[trigger]
            rust_tls::drained(before, out, mid, drawn) && if !rust_tls::established(mid)
                || offered.len() == 0 {
                after == mid && left == drawn && count == 0
            } else {
                rust_tls::written(mid, drawn, offered, after, left, count)
            };
        buffering_only_adds(first, text, before, out, mid, drawn);
        if rust_tls::established(mid) && offered.len() > 0 {
            reveal(rust_tls::written);
            let start = Writing { tls: mid, out: drawn, rest: offered };
            let path = choose|path: Seq<Writing<S>>| #[trigger]
                rust_tls::writing(start, path) && left == path.last().out && count
                    == offered.len() - path.last().rest.len() && rust_tls::write_ends(
                    path.last(),
                    after,
                );
            buffered_writing_hands_over(first, text, start, path, path.len() - 1, false);
            let last = path.last();
            let all = text + offered.take(count as int);
            assert(last == (Writing { tls: last.tls, out: left, rest: offered.skip(count as int) }));
            if last.goes_on() {
                let (end, result): (S, Result<usize, Stall>) = choose|
                    end: S,
                    result: Result<usize, Stall>,
                | #[trigger]
                    S::seals(last.tls.conn->0, last.next(), end, result) && match result {
                        Ok(count) => count == 0 && after == (RustTls {
                            conn: Some(end),
                            ..last.tls
                        }),
                        Err(_) => after == (RustTls { conn: Some(end), close: true, ..last.tls }),
                    };
                seal_is_a_step(last.tls.conn->0, last.next(), end, result);
                if result is Ok {
                    assert(S::seals(last.tls.conn->0, last.next(), end, Ok(0usize)));
                }
                handed_still(first, all, last.tls.conn->0, end);
            }
        }
    }
}

/// A write that took nothing is a step on which nothing was taken.
proof fn seal_is_a_step<S: Session>(
    before: S,
    offered: Seq<u8>,
    after: S,
    result: Result<usize, Stall>,
)
    requires
        S::seals(before, offered, after, result),
        result matches Ok(count) ==> count == 0,
    ensures
        moved(before, Seq::<u8>::empty(), after),
{
    assert(offered.take(0) =~= Seq::<u8>::empty());
    match result {
        Ok(none) => {
            assert(S::seals(before, offered, after, Ok(none)));
        },
        Err(stall) => {
            assert(S::seals(before, offered, after, Err(stall)));
        },
    }
}

/// Parts that are handed over for a send buffer are handed to the session as far as they
/// are said to be taken, each byte once and in order, and the buffer is only added to. A
/// record that the session does not take whole ends the connection.
pub proof fn buffered_parts_keep_their_order<S: Session>(
    first: S,
    text: Seq<u8>,
    before: RustTls<S>,
    out: Contents,
    offered: Seq<u8>,
    after: RustTls<S>,
    left: Contents,
    count: nat,
)
    requires
        before.conn matches Some(conn) ==> handed(first, text, conn),
        rust_tls::encrypted_parts(before, out, offered, after, left, count),
    ensures
        count <= offered.len(),
        after.conn is Some == before.conn is Some,
        added(out, left),
        after.send_inflight == before.send_inflight,
        before.send_inflight ==> count == 0 && after == before && left == out,
        before.close ==> after.close,
        !after.close ==> (after.conn matches Some(conn) ==> handed(
            first,
            text + offered.take(count as int),
            conn,
        )),
        rust_tls::established(before) && !before.send_inflight && count < offered.len() ==> halted(
            after,
            left,
            offered.skip(count as int),
        ),
{
    assert(text + offered.take(0) =~= text);
    if before.conn is Some && !before.send_inflight {
        let (mid, drawn) = choose|mid: RustTls<S>, drawn: Contents| #[trigger]
            rust_tls::drained(before, out, mid, drawn) && if !rust_tls::established(mid) {
                after == mid && left == drawn && count == 0
            } else {
                rust_tls::gathered(mid, drawn, offered, after, left, count)
            };
        buffering_only_adds(first, text, before, out, mid, drawn);
        if rust_tls::established(mid) {
            reveal(rust_tls::gathered);
            let start = Writing { tls: mid, out: drawn, rest: offered };
            let path = choose|path: Seq<Writing<S>>| #[trigger]
                rust_tls::gathering(start, path) && left == path.last().out && count
                    == offered.len() - path.last().rest.len() && rust_tls::gather_ends(
                    path.last(),
                    after,
                );
            buffered_writing_hands_over(first, text, start, path, path.len() - 1, true);
            let last = path.last();
            assert(last == (Writing { tls: last.tls, out: left, rest: offered.skip(count as int) }));
        }
    }
}

/// Telling the peer of the end only adds to the send buffer, and hands the session
/// nothing. The transport is told just if the connection ends.
pub proof fn telling_only_adds<S: Session>(
    first: S,
    text: Seq<u8>,
    before: RustTls<S>,
    out: Contents,
    after: RustTls<S>,
    left: Contents,
    close: bool,
)
    requires
        before.conn matches Some(conn) ==> handed(first, text, conn),
        rust_tls::told(before, out, after, left, close),
    ensures
        close == before.close,
        added(out, left),
        after.send_inflight == before.send_inflight,
        after.conn matches Some(conn) ==> handed(first, text, conn),
{
    if before.close {
        let mid = choose|mid: RustTls<S>| #[trigger]
            rust_tls::notified(before, mid) && rust_tls::drained(mid, out, after, left);
        if mid != before {
            handed_still(first, text, before.conn->0, mid.conn->0);
        }
        buffering_only_adds(first, text, mid, out, after, left);
    }
}

/// Ciphertext that is on its way stays there, in front of all that is added. Nothing moves
/// while a send is under way.
pub proof fn draining_keeps_what_is_on_its_way<S: Session>(before: Line<S>, after: Line<S>)
    requires
        queued::drained(before, after),
        before.egress.bytes.len() <= before.egress.capacity,
    ensures
        before.outbound().is_prefix_of(after.outbound()),
        before.inflight ==> after == before,
        after.inflight == before.inflight,
        after.conn is Some == before.conn is Some,
        after.pending_app == before.pending_app,
        after.pending_recv == before.pending_recv,
        after.ingress == before.ingress,
        before.close ==> after.close,
        after.egress.bytes.len() <= after.egress.capacity == before.egress.capacity,
        after.egress.bytes.len() == 0 && !before.inflight && before.egress.capacity > 0
            ==> after.outbound().len() == 0,
{
    if !before.inflight {
        queued::flushing_keeps_order(before);
        if before.conn is Some {
            let conn = before.conn->0;
            let (now, out, close) = choose|now: S, out: Seq<u8>, close: bool| #[trigger]
                queued::emptied(conn, now, out, close) && after == (Line {
                    conn: Some(now),
                    close: before.close || close,
                    ..before.flush()
                }).stage(out);
            let flat = Line { conn: Some(now), close: before.close || close, ..before.flush() };
            assert(flat.outbound() == before.flush().outbound());
            let n = queued::room_for(flat.egress, out.len());
            assert(flat.outbound().is_prefix_of(after.outbound()));
        }
    }
}

/// What has to be sent is sent: unless the transport is busy, the egress is on its way just
/// if there is something in it. Nothing that is on its way is lost, and the transport is
/// told whether the connection ends.
pub proof fn submitting_loses_no_bytes<S: Session>(
    before: Line<S>,
    busy: bool,
    after: Line<S>,
    done: Submission,
)
    requires
        queued::handed_on(before, busy, after, done),
        before.egress.bytes.len() <= before.egress.capacity,
    ensures
        before.outbound().is_prefix_of(after.outbound()),
        !busy ==> (done.submit <==> after.egress.bytes.len() > 0),
        busy ==> !done.submit,
        done.submit ==> after.inflight,
        done.close_after == before.close,
        !before.close ==> after == (Line { inflight: after.inflight, ..before }),
{
    let (sent, first) = before.submit(busy);
    assert(sent.outbound() == before.outbound());
    telling_loses_no_bytes(sent, busy || first, after, if first {
        false
    } else {
        done.submit
    });
}

proof fn telling_loses_no_bytes<S: Session>(
    before: Line<S>,
    busy: bool,
    after: Line<S>,
    submit: bool,
)
    requires
        queued::told(before, busy, after, submit),
        before.egress.bytes.len() <= before.egress.capacity,
    ensures
        before.outbound().is_prefix_of(after.outbound()),
        !before.close ==> after == before && !submit,
        before.close && !busy ==> (submit <==> after.egress.bytes.len() > 0),
        busy ==> !submit,
        submit ==> after.inflight,
        before.inflight ==> after.egress == before.egress && after.inflight,
        before.close ==> after.close,
{
    if before.close {
        let (mid, now) = choose|mid: Line<S>, now: Line<S>| #[trigger]
            queued::notified(before, mid) && #[trigger] queued::drained(mid, now) && (after, submit)
                == now.submit(busy);
        assert(mid.outbound() == before.outbound());
        draining_keeps_what_is_on_its_way(mid, now);
        assert(after.outbound() == now.outbound());
    }
}

/// After a send has ended, just the bytes that have left are gone: all others stay on their
/// way in order. Unless the transport is busy, what is left is sent, and then the
/// transport is not closed before.
pub proof fn going_on_loses_no_bytes<S: Session>(
    before: Line<S>,
    sent: int,
    busy: bool,
    after: Line<S>,
    done: (bool, Submission),
)
    requires
        0 <= sent <= before.egress.bytes.len(),
        before.egress.bytes.len() <= before.egress.capacity,
        before.egress.capacity > 0,
        queued::went_on(before, sent, busy, after, done),
    ensures
        before.outbound().skip(sent).is_prefix_of(after.outbound()),
        done.0 ==> after.egress.bytes.len() > 0 && !done.1.close_after,
        before.outbound().len() > sent ==> done.0,
        done.0 && !busy ==> done.1.submit,
        done.1.submit ==> !busy && after.inflight && after.egress.bytes.len() > 0,
        !done.1.submit ==> !after.inflight,
        !busy && !done.1.submit ==> after.egress.bytes.len() == 0,
        before.close && !done.0 ==> done.1.close_after,
        done.1.consumed == 0,
{
    let freed = queued::freed(before, sent);
    let mid = choose|mid: Line<S>| #[trigger]
        queued::drained(freed, mid) && if mid.egress.bytes.len() == 0 {
            queued::told(mid, busy, after, done.1.submit) && !done.0 && done.1.close_after
                == mid.close && done.1.consumed == 0
        } else {
            done.0 && (after, done.1.submit) == mid.submit(busy) && !done.1.close_after
                && done.1.consumed == 0
        };
    assert(freed.outbound() =~= before.outbound().skip(sent));
    draining_keeps_what_is_on_its_way(freed, mid);
    if mid.egress.bytes.len() == 0 {
        telling_loses_no_bytes(mid, busy, after, done.1.submit);
        if mid.close {
            let (told, now) = choose|told: Line<S>, now: Line<S>| #[trigger]
                queued::notified(mid, told) && #[trigger] queued::drained(told, now) && (
                    after,
                    done.1.submit,
                ) == now.submit(busy);
            draining_keeps_what_is_on_its_way(told, now);
        }
    } else {
        assert(after.outbound() == mid.outbound());
    }
}

/// Going on after a send hands the session nothing, and leaves what waits.
proof fn going_on_seals_nothing<S: Session>(
    first: S,
    text: Seq<u8>,
    before: Line<S>,
    sent: int,
    busy: bool,
    after: Line<S>,
    done: (bool, Submission),
)
    requires
        before.conn is Some,
        handed(first, text, before.conn->0),
        queued::went_on(before, sent, busy, after, done),
    ensures
        after.conn is Some,
        handed(first, text, after.conn->0),
        after.pending_app == before.pending_app,
{
    let freed = queued::freed(before, sent);
    let mid = choose|mid: Line<S>| #[trigger]
        queued::drained(freed, mid) && if mid.egress.bytes.len() == 0 {
            queued::told(mid, busy, after, done.1.submit) && !done.0 && done.1.close_after
                == mid.close && done.1.consumed == 0
        } else {
            done.0 && (after, done.1.submit) == mid.submit(busy) && !done.1.close_after
                && done.1.consumed == 0
        };
    draining_hands_nothing(first, text, freed, mid);
    if mid.egress.bytes.len() == 0 {
        telling_hands_nothing(first, text, mid, busy, after, done.1.submit);
    }
}

/// That one call on a line accepted `text` to be sent: data or parts were handed over and
/// `text` is what of them was taken, or wire bytes came in, or a send has ended.
pub open spec fn called<S: Session>(before: Line<S>, text: Seq<u8>, after: Line<S>) -> bool {
    ||| exists|offered: Seq<u8>, busy: bool, mid: Line<S>, done: Submission|
        #![trigger queued::encrypted(before, offered, mid, done.consumed as nat), queued::handed_on(mid, busy, after, done)]
        queued::encrypted(before, offered, mid, done.consumed as nat) && queued::handed_on(
            mid,
            busy,
            after,
            done,
        ) && text == offered.take(done.consumed as int)
    ||| exists|parts: Seq<&[u8]>, busy: bool, mid: Line<S>, done: Submission|
        #![trigger queued::gathered(before, parts, mid, done.consumed as nat), queued::handed_on(mid, busy, after, done)]
        queued::gathered(before, parts, mid, done.consumed as nat) && queued::handed_on(
            mid,
            busy,
            after,
            done,
        ) && text == record::joined(parts).take(done.consumed as int)
    ||| text.len() == 0 && exists|input: Seq<u8>, data: Seq<u8>| #[trigger]
        queued::received(before, input, after, data)
    ||| text.len() == 0 && exists|sent: int, busy: bool, done: (bool, Submission)| #[trigger]
        queued::went_on(before, sent, busy, after, done)
}

/// That these calls came one after the other.
pub open spec fn calls<S: Session>(path: Seq<Line<S>>, texts: Seq<Seq<u8>>) -> bool {
    &&& path.len() == texts.len() + 1
    &&& forall|i: int| 0 <= i < texts.len() ==> called(path[i], #[trigger] texts[i], path[i + 1])
}

proof fn call_keeps_order<S: Session>(
    first: S,
    sent: Seq<u8>,
    accepted: Seq<u8>,
    before: Line<S>,
    text: Seq<u8>,
    after: Line<S>,
) -> (more: Seq<u8>)
    requires
        before.conn is Some,
        handed(first, sent, before.conn->0),
        sent + before.pending_app == accepted,
        called(before, text, after),
    ensures
        after.conn is Some,
        handed(first, sent + more, after.conn->0),
        (sent + more) + after.pending_app == accepted + text,
{
    if exists|offered: Seq<u8>, busy: bool, mid: Line<S>, done: Submission|
        #![trigger queued::encrypted(before, offered, mid, done.consumed as nat), queued::handed_on(mid, busy, after, done)]
        queued::encrypted(before, offered, mid, done.consumed as nat) && queued::handed_on(
            mid,
            busy,
            after,
            done,
        ) && text == offered.take(done.consumed as int) {
        let (offered, busy, mid, done) = choose|
            offered: Seq<u8>,
            busy: bool,
            mid: Line<S>,
            done: Submission,
        |
            #![trigger queued::encrypted(before, offered, mid, done.consumed as nat), queued::handed_on(mid, busy, after, done)]
            queued::encrypted(before, offered, mid, done.consumed as nat) && queued::handed_on(
                mid,
                busy,
                after,
                done,
            ) && text == offered.take(done.consumed as int);
        let more = accepted_data_keeps_its_order(
            first,
            sent,
            accepted,
            before,
            offered,
            mid,
            done.consumed as nat,
        );
        submitting_hands_nothing(first, sent + more, mid, busy, after, done);
        more
    } else if exists|parts: Seq<&[u8]>, busy: bool, mid: Line<S>, done: Submission|
        #![trigger queued::gathered(before, parts, mid, done.consumed as nat), queued::handed_on(mid, busy, after, done)]
        queued::gathered(before, parts, mid, done.consumed as nat) && queued::handed_on(
            mid,
            busy,
            after,
            done,
        ) && text == record::joined(parts).take(done.consumed as int) {
        let (parts, busy, mid, done) = choose|
            parts: Seq<&[u8]>,
            busy: bool,
            mid: Line<S>,
            done: Submission,
        |
            #![trigger queued::gathered(before, parts, mid, done.consumed as nat), queued::handed_on(mid, busy, after, done)]
            queued::gathered(before, parts, mid, done.consumed as nat) && queued::handed_on(
                mid,
                busy,
                after,
                done,
            ) && text == record::joined(parts).take(done.consumed as int);
        let more = accepted_parts_keep_their_order(
            first,
            sent,
            accepted,
            before,
            parts,
            mid,
            done.consumed as nat,
        );
        submitting_hands_nothing(first, sent + more, mid, busy, after, done);
        more
    } else if text.len() == 0 && exists|input: Seq<u8>, data: Seq<u8>| #[trigger]
        queued::received(before, input, after, data) {
        let (input, data) = choose|input: Seq<u8>, data: Seq<u8>| #[trigger]
            queued::received(before, input, after, data);
        let more = receiving_loses_no_waiting_data(first, sent, before, input, after, data);
        assert((sent + more) + after.pending_app =~= accepted + text);
        more
    } else {
        let (gone, busy, done) = choose|gone: int, busy: bool, done: (bool, Submission)| #[trigger]
            queued::went_on(before, gone, busy, after, done);
        going_on_seals_nothing(first, sent, before, gone, busy, after, done);
        assert(sent + Seq::<u8>::empty() =~= sent);
        assert(sent + after.pending_app =~= accepted + text);
        Seq::empty()
    }
}

/// Over a whole run of calls, whatever they are and however they are mixed, what was
/// handed to the session, followed by what still waits, is all that was accepted, in the
/// order of the calls: no byte is lost, doubled or moved.
pub proof fn runs_keep_their_order<S: Session>(
    path: Seq<Line<S>>,
    texts: Seq<Seq<u8>>,
) -> (sent: Seq<u8>)
    requires
        calls(path, texts),
        path[0].conn is Some,
        path[0].pending_app.len() == 0,
    ensures
        path.last().conn is Some,
        handed(path[0].conn->0, sent, path.last().conn->0),
        sent + path.last().pending_app == plain::whole(texts),
    decreases texts.len(),
{
    let first = path[0].conn->0;
    if texts.len() == 0 {
        handed_nothing(first);
        assert(plain::whole(texts) =~= Seq::<u8>::empty());
        assert(Seq::<u8>::empty() + path.last().pending_app =~= Seq::<u8>::empty());
        Seq::empty()
    } else {
        let n = texts.len() - 1;
        let shorter = path.drop_last();
        let fewer = texts.drop_last();
        assert forall|i: int| 0 <= i < fewer.len() implies called(
            shorter[i],
            #[trigger] fewer[i],
            shorter[i + 1],
        ) by {
            assert(fewer[i] == texts[i]);
        }
        let sent = runs_keep_their_order(shorter, fewer);
        assert(called(path[n], texts[n], path[n + 1]));
        let more = call_keeps_order(
            first,
            sent,
            plain::whole(fewer),
            path[n],
            texts[n],
            path[n + 1],
        );
        assert(texts =~= fewer + seq![texts[n]]);
        plain::whole_concat(fewer, seq![texts[n]]);
        plain::whole_one(texts[n]);
        sent + more
    }
}

} // verus!
