//! What becomes of the plaintext that a connection of `rustls` has decrypted.

use crate::buffer::Contents;
use crate::rust_tls::queued::{self, Feeding, Line, Moment, Pouring, Sipping};
use crate::rust_tls::session::{Progress, Refusal, Session, Stall};
use crate::rust_tls::{self, Reading, RustTls};
use crate::state::plain;
use vstd::prelude::*;

verus! {

/// That a session took a step on which it decrypts nothing.
pub open spec fn aside<S: Session>(before: S, after: S) -> bool {
    ||| exists|offered: Seq<u8>, result: Result<usize, Stall>| #[trigger]
        S::seals(before, offered, after, result)
    ||| exists|room: int, more: Seq<u8>, result: Result<usize, Stall>| #[trigger]
        S::gives(before, room, after, more, result)
    ||| exists|input: Seq<u8>, result: Result<usize, Refusal>| #[trigger]
        S::takes(before, input, after, result)
    ||| exists|result: Result<Seq<u8>, Stall>| #[trigger] S::shows(before, after, result)
    ||| exists|count: int| #[trigger] S::drops(before, count, after)
}

/// That a session took a step on which it decrypted `text`: behind the plaintext that was
/// to be read, if any.
pub open spec fn stepped<S: Session>(before: S, text: Seq<u8>, after: S) -> bool {
    ||| text.len() == 0 && aside(before, after)
    ||| after.plain() == before.plain() + text && exists|result: Result<Progress, Stall>| #[trigger]
        S::handles(before, after, result)
}

/// That a session went this way, and decrypted these texts on it.
pub open spec fn way<S: Session>(states: Seq<S>, texts: Seq<Seq<u8>>) -> bool {
    &&& states.len() == texts.len() + 1
    &&& forall|i: int|
        0 <= i < texts.len() ==> stepped(states[i], #[trigger] texts[i], states[i + 1])
}

/// That a session got from one state to another and decrypted `text` on the way.
pub open spec fn decrypted<S: Session>(first: S, text: Seq<u8>, last: S) -> bool {
    exists|states: Seq<S>, texts: Seq<Seq<u8>>| #[trigger]
        way(states, texts) && states[0] == first && states.last() == last && plain::whole(texts)
            == text
}

/// A session that did nothing decrypted nothing.
pub proof fn decrypted_nothing<S: Session>(state: S)
    ensures
        decrypted(state, Seq::empty(), state),
{
    let texts = Seq::<Seq<u8>>::empty();
    assert(way(seq![state], texts));
    assert(plain::whole(texts) =~= Seq::<u8>::empty());
}

/// One step more.
pub proof fn decrypted_on<S: Session>(first: S, text: Seq<u8>, mid: S, more: Seq<u8>, last: S)
    requires
        decrypted(first, text, mid),
        stepped(mid, more, last),
    ensures
        decrypted(first, text + more, last),
{
    let (states, texts) = choose|states: Seq<S>, texts: Seq<Seq<u8>>| #[trigger]
        way(states, texts) && states[0] == first && states.last() == mid && plain::whole(texts)
            == text;
    let longer = states.push(last);
    let all = texts.push(more);
    assert forall|i: int| 0 <= i < all.len() implies stepped(
        longer[i],
        #[trigger] all[i],
        longer[i + 1],
    ) by {
        if i < texts.len() {
            assert(all[i] == texts[i]);
            assert(longer[i] == states[i] && longer[i + 1] == states[i + 1]);
        }
    }
    assert(way(longer, all));
    assert(all =~= texts + seq![more]);
    plain::whole_concat(texts, seq![more]);
    plain::whole_one(more);
}

/// A step aside.
proof fn decrypted_aside<S: Session>(first: S, text: Seq<u8>, mid: S, last: S)
    requires
        decrypted(first, text, mid),
        aside(mid, last),
    ensures
        decrypted(first, text, last),
{
    decrypted_on(first, text, mid, Seq::empty(), last);
    assert(text + Seq::<u8>::empty() =~= text);
}

proof fn pouring_decrypts_nothing<S: Session>(
    first: S,
    text: Seq<u8>,
    start: Pouring<S>,
    path: Seq<Pouring<S>>,
    i: int,
)
    requires
        decrypted(first, text, start.conn),
        queued::pouring(start, path),
        0 <= i < path.len(),
    ensures
        decrypted(first, text, path[i].conn),
        path[i].conn.plain() == start.conn.plain(),
    decreases i,
{
    if i > 0 {
        pouring_decrypts_nothing(first, text, start, path, i - 1);
        assert(queued::pour_passes(path, i - 1));
        let (more, result): (Seq<u8>, Result<usize, Stall>) = choose|
            more: Seq<u8>,
            result: Result<usize, Stall>,
        | #[trigger] queued::poured(path[i - 1], more, result, path[i - 1 + 1]);
        assert(S::gives(path[i - 1].conn, usize::MAX as int, path[i].conn, more, result));
        decrypted_aside(first, text, path[i - 1].conn, path[i].conn);
    }
}

/// Putting ciphertext on its way decrypts nothing, and leaves the plaintext.
proof fn draining_decrypts_nothing<S: Session>(
    first: S,
    text: Seq<u8>,
    before: Line<S>,
    after: Line<S>,
)
    requires
        before.conn is Some,
        decrypted(first, text, before.conn->0),
        queued::drained(before, after),
    ensures
        after.conn is Some,
        decrypted(first, text, after.conn->0),
        (after.conn->0).plain() == (before.conn->0).plain(),
{
    if !before.inflight {
        reveal(queued::emptied);
        let conn = before.conn->0;
        let (now, out, close) = choose|now: S, out: Seq<u8>, close: bool| #[trigger]
            queued::emptied(conn, now, out, close) && after == (Line {
                conn: Some(now),
                close: before.close || close,
                ..before.flush()
            }).stage(out);
        let start = Pouring { conn, out: Seq::<u8>::empty() };
        let path = choose|path: Seq<Pouring<S>>|
            #![trigger queued::pouring(start, path)]
            queued::pouring(start, path) && queued::pour_ends(
                path.last(),
                Pouring { conn: now, out },
                close,
            );
        pouring_decrypts_nothing(first, text, start, path, path.len() - 1);
        let last = path.last();
        if last.conn.queue().len() > 0 {
            let (more, result): (Seq<u8>, Result<usize, Stall>) = choose|
                more: Seq<u8>,
                result: Result<usize, Stall>,
            | #[trigger] queued::poured(last, more, result, Pouring { conn: now, out });
            assert(S::gives(last.conn, usize::MAX as int, now, more, result));
            decrypted_aside(first, text, last.conn, now);
        }
    }
}

proof fn writing_decrypts_nothing<S: Session>(
    first: S,
    text: Seq<u8>,
    start: Moment<S>,
    path: Seq<Moment<S>>,
    i: int,
)
    requires
        start.line.conn is Some,
        decrypted(first, text, start.line.conn->0),
        queued::writing(start, path),
        0 <= i < path.len(),
    ensures
        path[i].line.conn is Some,
        decrypted(first, text, path[i].line.conn->0),
        (path[i].line.conn->0).plain() == (start.line.conn->0).plain(),
    decreases i,
{
    if i > 0 {
        writing_decrypts_nothing(first, text, start, path, i - 1);
        assert(queued::write_passes(path, i - 1));
        let last = path[i - 1];
        let (mid, result): (S, Result<usize, Stall>) = choose|
            mid: S,
            result: Result<usize, Stall>,
        | #[trigger] last.wrote(mid, result, path[i - 1 + 1]);
        assert(S::seals(last.line.conn->0, last.next(), mid, result));
        decrypted_aside(first, text, last.line.conn->0, mid);
        draining_decrypts_nothing(
            first,
            text,
            Line { conn: Some(mid), ..last.line },
            path[i].line,
        );
    }
}

/// Writing what waits decrypts nothing, and leaves the plaintext.
proof fn flushing_decrypts_nothing<S: Session>(
    first: S,
    text: Seq<u8>,
    before: Line<S>,
    after: Line<S>,
)
    requires
        before.conn is Some,
        decrypted(first, text, before.conn->0),
        queued::app_flushed(before, after),
    ensures
        after.conn is Some,
        decrypted(first, text, after.conn->0),
        (after.conn->0).plain() == (before.conn->0).plain(),
{
    if before.established() && before.pending_app.len() > 0 {
        reveal(queued::written);
        let bare = Line { pending_app: Seq::empty(), ..before };
        let offered = before.pending_app;
        let (mid, count) = choose|mid: Line<S>, count: nat| #[trigger]
            queued::written(bare, offered, mid, count) && after == (Line {
                pending_app: offered.skip(count as int),
                ..mid
            });
        let start = Moment { line: bare, rest: offered };
        let path = choose|path: Seq<Moment<S>>|
            #![trigger queued::writing(start, path)]
            queued::writing(start, path) && count == offered.len() - path.last().rest.len()
                && queued::write_ends(path.last(), mid);
        writing_decrypts_nothing(first, text, start, path, path.len() - 1);
        let last = path.last();
        if last.goes_on() {
            let (end, result): (S, Result<usize, Stall>) = choose|
                end: S,
                result: Result<usize, Stall>,
            | #[trigger]
                S::seals(last.line.conn->0, last.next(), end, result) && end.plain() == (
                last.line.conn->0).plain() && match result {
                    Ok(count) => count == 0 && mid == (Line { conn: Some(end), ..last.line }),
                    Err(_) => mid == (Line { conn: Some(end), close: true, ..last.line }),
                };
            assert(S::seals(last.line.conn->0, last.next(), end, result));
            decrypted_aside(first, text, last.line.conn->0, end);
        }
    }
}

proof fn sipping_hands_out<S: Session>(
    first: S,
    text: Seq<u8>,
    start: Sipping<S>,
    path: Seq<Sipping<S>>,
    i: int,
)
    requires
        decrypted(first, text, start.conn),
        queued::sipping(start, path),
        0 <= i < path.len(),
    ensures
        decrypted(first, text, path[i].conn),
        path[i].out + path[i].conn.plain() == start.out + start.conn.plain(),
    decreases i,
{
    if i > 0 {
        sipping_hands_out(first, text, start, path, i - 1);
        assert(queued::sip_passes(path, i - 1));
        let last = path[i - 1];
        let (mid, chunk) = choose|mid: S, chunk: Seq<u8>| #[trigger]
            queued::sipped(last, mid, chunk, path[i - 1 + 1]);
        assert(S::shows(last.conn, mid, Ok(chunk)));
        decrypted_aside(first, text, last.conn, mid);
        assert(S::drops(mid, chunk.len() as int, path[i].conn));
        decrypted_aside(first, text, mid, path[i].conn);
        assert(chunk + last.conn.plain().skip(chunk.len() as int) =~= last.conn.plain());
        assert(path[i].out + path[i].conn.plain() =~= last.out + last.conn.plain());
    }
}

/// Reading hands out all plaintext that there is.
proof fn reading_hands_out<S: Session>(
    first: S,
    text: Seq<u8>,
    before: Line<S>,
    out: Seq<u8>,
    after: Line<S>,
    left: Seq<u8>,
)
    requires
        before.conn is Some,
        decrypted(first, text, before.conn->0),
        queued::read_out(before, out, after, left),
    ensures
        after.conn is Some,
        decrypted(first, text, after.conn->0),
        left == out + (before.conn->0).plain(),
        (after.conn->0).plain().len() == 0,
{
    reveal(queued::conn_read);
    let conn = before.conn->0;
    let (now, close) = choose|now: S, close: bool| #[trigger]
        queued::conn_read(conn, out, now, left, close) && after == (Line {
            conn: Some(now),
            close: before.close || close,
            ..before
        });
    let start = Sipping { conn, out };
    let path = choose|path: Seq<Sipping<S>>|
        #![trigger queued::sipping(start, path)]
        queued::sipping(start, path) && left == path.last().out && queued::sip_ends(
            path.last().conn,
            now,
            close,
        );
    sipping_hands_out(first, text, start, path, path.len() - 1);
    decrypted_aside(first, text, path.last().conn, now);
    assert(left + path.last().conn.plain() =~= left);
}

proof fn feeding_hands_out<S: Session>(
    first: S,
    text: Seq<u8>,
    start: Feeding<S>,
    path: Seq<Feeding<S>>,
    i: int,
) -> (more: Seq<u8>)
    requires
        start.line.conn is Some,
        decrypted(first, text, start.line.conn->0),
        queued::feeding(start, path),
        0 <= i < path.len(),
    ensures
        path[i].line.conn is Some,
        decrypted(first, text + more, path[i].line.conn->0),
        path[i].out + (path[i].line.conn->0).plain() == (start.out + (
        start.line.conn->0).plain()) + more,
    decreases i,
{
    if i == 0 {
        let none = Seq::<u8>::empty();
        assert(text + none =~= text);
        assert((start.out + (start.line.conn->0).plain()) + none =~= start.out + (
        start.line.conn->0).plain());
        none
    } else {
        let so_far = feeding_hands_out(first, text, start, path, i - 1);
        assert(queued::feed_passes(path, i - 1));
        let last = path[i - 1];
        let after = path[i];
        let base = start.out + (start.line.conn->0).plain();
        assert(queued::feed_step(last, after));
        if exists|
            fed: S,
            taken: Result<usize, Refusal>,
            handled: S,
            progress: Result<Progress, Stall>,
        | #[trigger] last.took(fed, taken, handled, progress, after) {
            let (fed, taken, handled, progress): (
                S,
                Result<usize, Refusal>,
                S,
                Result<Progress, Stall>,
            ) = choose|
                fed: S,
                taken: Result<usize, Refusal>,
                handled: S,
                progress: Result<Progress, Stall>,
            | #[trigger] last.took(fed, taken, handled, progress, after);
            decrypted_aside(first, text + so_far, last.conn(), fed);
            let more = handled.plain().skip(fed.plain().len() as int);
            assert(handled.plain() =~= fed.plain() + more);
            assert(S::handles(fed, handled, progress));
            decrypted_on(first, text + so_far, fed, more, handled);
            let mid = Line {
                close: last.line.close || progress->Ok_0.peer_has_closed,
                ..last.with(handled)
            };
            let all = so_far + more;
            assert((text + so_far) + more =~= text + all);
            reading_hands_out(first, text + all, mid, last.out, after.line, after.out);
            assert(last.out + (fed.plain() + more) =~= (last.out + last.conn().plain()) + more);
            assert((base + so_far) + more =~= base + all);
            assert(after.out + (after.line.conn->0).plain() =~= after.out);
            all
        } else {
            let fed = choose|fed: S| #[trigger] last.relieved(fed, after);
            decrypted_aside(first, text + so_far, last.conn(), fed);
            reading_hands_out(
                first,
                text + so_far,
                last.with(fed),
                last.out,
                after.line,
                after.out,
            );
            assert(after.out + (after.line.conn->0).plain() =~= base + so_far);
            so_far
        }
    }
}

/// Taking ciphertext in hands out what is decrypted, but for what the session still holds.
proof fn ingesting_hands_out<S: Session>(
    first: S,
    text: Seq<u8>,
    before: Line<S>,
    input: Seq<u8>,
    after: Line<S>,
    out: Seq<u8>,
) -> (more: Seq<u8>)
    requires
        before.conn is Some,
        decrypted(first, text, before.conn->0),
        queued::ingested(before, input, after, out),
    ensures
        after.conn is Some,
        decrypted(first, text + more, after.conn->0),
        out + (after.conn->0).plain() == (before.conn->0).plain() + more,
{
    let start = Feeding {
        line: Line { pending_recv: Seq::empty(), ..before },
        rest: before.pending_recv + input,
        out: Seq::empty(),
    };
    let path = choose|path: Seq<Feeding<S>>|
        #![trigger queued::feeding(start, path)]
        queued::feeding(start, path) && queued::feed_ends(path.last(), after, out);
    let so_far = feeding_hands_out(first, text, start, path, path.len() - 1);
    let base = (before.conn->0).plain();
    assert(start.out + base =~= base);
    let last = path.last();
    if last.rest.len() == 0 {
        so_far
    } else {
        let (fed, taken): (S, Result<usize, Refusal>) = choose|
            fed: S,
            taken: Result<usize, Refusal>,
        | #[trigger]
            S::takes(last.conn(), last.rest, fed, taken) && fed.plain() == last.conn().plain()
                && match taken {
                Ok(count) => if count == 0 {
                    after == last.with(fed) && out == last.out
                } else {
                    exists|handled: S, progress: Result<Progress, Stall>| #[trigger]
                        S::handles(fed, handled, progress) && fed.plain().is_prefix_of(
                            handled.plain(),
                        ) && progress is Err && out == last.out && after == (Line {
                            close: true,
                            ..last.with(handled)
                        })
                },
                Err(Refusal::Full) => exists|mid: Line<S>| #[trigger]
                    queued::read_out(last.with(fed), last.out, mid, out) && if mid.close {
                        after == mid
                    } else {
                        out.len() == last.out.len() && after == mid.hold_back(last.rest)
                    },
                Err(Refusal::Broken) => out == last.out && after == (Line {
                    close: true,
                    ..last.with(fed)
                }),
            };
        decrypted_aside(first, text + so_far, last.conn(), fed);
        match taken {
            Ok(count) => {
                if count == 0 {
                    so_far
                } else {
                    let (handled, progress): (S, Result<Progress, Stall>) = choose|
                        handled: S,
                        progress: Result<Progress, Stall>,
                    | #[trigger]
                        S::handles(fed, handled, progress) && fed.plain().is_prefix_of(
                            handled.plain(),
                        ) && progress is Err && out == last.out && after == (Line {
                            close: true,
                            ..last.with(handled)
                        });
                    let more = handled.plain().skip(fed.plain().len() as int);
                    assert(handled.plain() =~= fed.plain() + more);
                    decrypted_on(first, text + so_far, fed, more, handled);
                    assert((text + so_far) + more =~= text + (so_far + more));
                    assert(out + handled.plain() =~= (out + fed.plain()) + more);
                    assert((base + so_far) + more =~= base + (so_far + more));
                    so_far + more
                }
            },
            Err(Refusal::Full) => {
                let mid = choose|mid: Line<S>| #[trigger]
                    queued::read_out(last.with(fed), last.out, mid, out) && if mid.close {
                        after == mid
                    } else {
                        out.len() == last.out.len() && after == mid.hold_back(last.rest)
                    };
                reading_hands_out(first, text + so_far, last.with(fed), last.out, mid, out);
                assert(out + (after.conn->0).plain() =~= out);
                so_far
            },
            Err(Refusal::Broken) => so_far,
        }
    }
}

/// All plaintext is handed out, each byte once and in order. When wire bytes come in, the
/// data is what the session still held, followed by all that it decrypts on the way, and
/// it holds nothing then.
pub proof fn decrypted_data_is_handed_out<S: Session>(
    before: Line<S>,
    input: Seq<u8>,
    after: Line<S>,
    data: Seq<u8>,
) -> (text: Seq<u8>)
    requires
        before.conn is Some,
        queued::received(before, input, after, data),
    ensures
        after.conn is Some,
        decrypted(before.conn->0, text, after.conn->0),
        data == (before.conn->0).plain() + text,
        (after.conn->0).plain().len() == 0,
{
    let first = before.conn->0;
    let none = Seq::<u8>::empty();
    decrypted_nothing(first);
    let (taken, out, mid, now) = choose|taken: Line<S>, out: Seq<u8>, mid: Line<S>, now: Line<S>|
        #![trigger queued::ingested(before, input, taken, out), queued::app_flushed(taken, mid), queued::drained(mid, now)]
        queued::ingested(before, input, taken, out) && queued::app_flushed(taken, mid)
            && queued::drained(mid, now) && if now.conn is None {
            after == (Line { ingress: Seq::empty(), ..now }) && data == now.ingress
        } else {
            queued::read_out(now, out, after, data)
        };
    let text = ingesting_hands_out(first, none, before, input, taken, out);
    assert(none + text =~= text);
    flushing_decrypts_nothing(first, text, taken, mid);
    draining_decrypts_nothing(first, text, mid, now);
    reading_hands_out(first, text, now, out, after, data);
    text
}

/// Bytes that come in on a line without a connection are handed out as they are, once and
/// in order.
pub proof fn bytes_without_a_connection_pass_through<S: Session>(
    before: Line<S>,
    input: Seq<u8>,
    after: Line<S>,
    data: Seq<u8>,
)
    requires
        before.conn is None,
        queued::received(before, input, after, data),
    ensures
        data == before.ingress + input,
        after.ingress.len() == 0,
        after.conn is None,
{
}

proof fn buffer_reading_decrypts_nothing<S: Session>(
    first: S,
    text: Seq<u8>,
    start: Reading<S>,
    path: Seq<Reading<S>>,
    i: int,
)
    requires
        decrypted(first, text, start.conn),
        rust_tls::reading(start, path),
        0 <= i < path.len(),
    ensures
        decrypted(first, text, path[i].conn),
    decreases i,
{
    if i > 0 {
        buffer_reading_decrypts_nothing(first, text, start, path, i - 1);
        assert(rust_tls::read_passes(path, i - 1));
        let last = path[i - 1];
        let (mid, shown): (S, Result<Seq<u8>, Stall>) = choose|
            mid: S,
            shown: Result<Seq<u8>, Stall>,
        | #[trigger] last.took(mid, shown, path[i - 1 + 1]);
        assert(S::shows(last.conn, mid, shown));
        decrypted_aside(first, text, last.conn, mid);
        let n = if last.rest <= shown->Ok_0.len() {
            last.rest as int
        } else {
            shown->Ok_0.len() as int
        };
        assert(S::drops(mid, n, path[i].conn));
        decrypted_aside(first, text, mid, path[i].conn);
    }
}

/// Reading into a buffer moves plaintext there, and decrypts none.
proof fn buffer_reading_hands_out<S: Session>(
    first: S,
    text: Seq<u8>,
    before: RustTls<S>,
    out: Contents,
    after: RustTls<S>,
    left: Contents,
)
    requires
        before.conn is Some,
        decrypted(first, text, before.conn->0),
        rust_tls::read_out(before, out, after, left),
    ensures
        after.conn is Some,
        decrypted(first, text, after.conn->0),
        left.bytes + (after.conn->0).plain() == out.bytes + (before.conn->0).plain(),
{
    rust_tls::reading_keeps_plaintext(before, out, after, left);
    if 0 < before.readable_plain <= out.spare() {
        let conn = before.conn->0;
        let start = Reading { conn, rest: before.readable_plain as nat, out };
        let (path, close): (Seq<Reading<S>>, bool) = choose|path: Seq<Reading<S>>, close: bool|
            #![trigger rust_tls::reading(start, path), rust_tls::read_ends(path.last(), after.conn->0, close)]
            rust_tls::reading(start, path) && rust_tls::read_ends(
                path.last(),
                after.conn->0,
                close,
            ) && left == path.last().out;
        buffer_reading_decrypts_nothing(first, text, start, path, path.len() - 1);
        if path.last().rest != 0 {
            decrypted_aside(first, text, path.last().conn, after.conn->0);
        }
    }
}

proof fn buffer_feeding_hands_out<S: Session>(
    first: S,
    start: rust_tls::Feeding<S>,
    path: Seq<rust_tls::Feeding<S>>,
    i: int,
) -> (text: Seq<u8>)
    requires
        start.tls.conn == Some(first),
        rust_tls::feeding(start, path),
        0 <= i < path.len(),
    ensures
        path[i].tls.conn is Some,
        decrypted(first, text, path[i].tls.conn->0),
        path[i].out.bytes + (path[i].tls.conn->0).plain() == (start.out.bytes + first.plain())
            + text,
    decreases i,
{
    let base = start.out.bytes + first.plain();
    if i == 0 {
        decrypted_nothing(first);
        assert(base + Seq::<u8>::empty() =~= base);
        Seq::empty()
    } else {
        let so_far = buffer_feeding_hands_out(first, start, path, i - 1);
        assert(rust_tls::feed_passes(path, i - 1));
        let last = path[i - 1];
        let after = path[i];
        assert(rust_tls::feed_step(last, after));
        if exists|
            fed: S,
            taken: Result<usize, Refusal>,
            handled: S,
            progress: Result<Progress, Stall>,
        | #[trigger] last.took(fed, taken, handled, progress, after) {
            let (fed, taken, handled, progress): (
                S,
                Result<usize, Refusal>,
                S,
                Result<Progress, Stall>,
            ) = choose|
                fed: S,
                taken: Result<usize, Refusal>,
                handled: S,
                progress: Result<Progress, Stall>,
            | #[trigger] last.took(fed, taken, handled, progress, after);
            decrypted_aside(first, so_far, last.conn(), fed);
            let more = handled.plain().skip(fed.plain().len() as int);
            assert(handled.plain() =~= fed.plain() + more);
            assert(S::handles(fed, handled, progress));
            decrypted_on(first, so_far, fed, more, handled);
            let mid = RustTls {
                readable_plain: progress->Ok_0.plaintext,
                close: last.tls.close || progress->Ok_0.peer_has_closed,
                ..last.with(handled)
            };
            let all = so_far + more;
            buffer_reading_hands_out(first, all, mid, last.out, after.tls, after.out);
            assert(last.out.bytes + (fed.plain() + more) =~= (last.out.bytes + last.conn().plain())
                + more);
            assert((base + so_far) + more =~= base + all);
            all
        } else {
            let fed = choose|fed: S| #[trigger] last.relieved(fed, after);
            decrypted_aside(first, so_far, last.conn(), fed);
            buffer_reading_hands_out(
                first,
                so_far,
                last.with(fed),
                last.out,
                after.tls,
                after.out,
            );
            so_far
        }
    }
}

/// Plaintext that is decrypted into a buffer is neither lost, doubled nor reordered: what
/// the buffer holds, followed by what the session still does, grows by just what the
/// session decrypts on the way.
pub proof fn decrypted_data_is_buffered<S: Session>(
    before: RustTls<S>,
    input: Seq<u8>,
    out: Contents,
    after: RustTls<S>,
    left: Contents,
) -> (text: Seq<u8>)
    requires
        before.conn is Some,
        rust_tls::ingested(before, input, out, after, left),
    ensures
        after.conn is Some,
        decrypted(before.conn->0, text, after.conn->0),
        left.bytes + (after.conn->0).plain() == (out.bytes + (before.conn->0).plain()) + text,
{
    let first = before.conn->0;
    let start = rust_tls::Feeding { tls: before, rest: input, out };
    let path = choose|path: Seq<rust_tls::Feeding<S>>| #[trigger]
        rust_tls::feeding(start, path) && rust_tls::feed_ends(path.last(), after, left);
    let so_far = buffer_feeding_hands_out(first, start, path, path.len() - 1);
    let base = out.bytes + first.plain();
    let last = path.last();
    if last.rest.len() == 0 {
        so_far
    } else {
        let (fed, taken): (S, Result<usize, Refusal>) = choose|
            fed: S,
            taken: Result<usize, Refusal>,
        | #[trigger]
            S::takes(last.conn(), last.rest, fed, taken) && fed.plain() == last.conn().plain()
                && match taken {
                Ok(count) => if count == 0 {
                    after == last.with(fed) && left == last.out
                } else {
                    exists|handled: S, progress: Result<Progress, Stall>| #[trigger]
                        S::handles(fed, handled, progress) && fed.plain().is_prefix_of(
                            handled.plain(),
                        ) && progress is Err && left == last.out && after == (RustTls {
                            close: true,
                            ..last.with(handled)
                        })
                },
                Err(Refusal::Full) => exists|mid: RustTls<S>| #[trigger]
                    rust_tls::read_out(last.with(fed), last.out, mid, left) && after == (RustTls {
                        close: true,
                        ..mid
                    }) && (mid.close || left.bytes.len() == last.out.bytes.len()),
                Err(Refusal::Broken) => left == last.out && after == (RustTls {
                    close: true,
                    ..last.with(fed)
                }),
            };
        decrypted_aside(first, so_far, last.conn(), fed);
        match taken {
            Ok(count) => {
                if count == 0 {
                    so_far
                } else {
                    let (handled, progress): (S, Result<Progress, Stall>) = choose|
                        handled: S,
                        progress: Result<Progress, Stall>,
                    | #[trigger]
                        S::handles(fed, handled, progress) && fed.plain().is_prefix_of(
                            handled.plain(),
                        ) && progress is Err && left == last.out && after == (RustTls {
                            close: true,
                            ..last.with(handled)
                        });
                    let more = handled.plain().skip(fed.plain().len() as int);
                    assert(handled.plain() =~= fed.plain() + more);
                    decrypted_on(first, so_far, fed, more, handled);
                    assert(left.bytes + handled.plain() =~= (left.bytes + fed.plain()) + more);
                    assert((base + so_far) + more =~= base + (so_far + more));
                    so_far + more
                }
            },
            Err(Refusal::Full) => {
                let mid = choose|mid: RustTls<S>| #[trigger]
                    rust_tls::read_out(last.with(fed), last.out, mid, left) && after == (RustTls {
                        close: true,
                        ..mid
                    }) && (mid.close || left.bytes.len() == last.out.bytes.len());
                buffer_reading_hands_out(first, so_far, last.with(fed), last.out, mid, left);
                so_far
            },
            Err(Refusal::Broken) => so_far,
        }
    }
}

} // verus!
