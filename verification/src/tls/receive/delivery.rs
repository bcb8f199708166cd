//! What becomes of the bytes that come in on a connection.

use crate::buffer;
use crate::error::Error;
use crate::record::{self, OpenKey};
use crate::staging::{HEADER_LEN, MAX_TLS_RECORD};
use crate::state::buffers::Received;
use crate::state::direct::{self, Trace};
use crate::state::events::RecordFailure;
use crate::state::plain;
use crate::state::records::{Control, RecordAction, RecordFrame};
use crate::state::sessions::Peer;
use crate::state::staged;
use crate::state::status::{Phase, Read};
use crate::state::{self, traffic, StateView};
use crate::tls::receive::{self, Batch, Delivery, IngressResult, RetainedResult};
use vstd::prelude::*;

verus! {

/// That less than a record waits.
pub open spec fn begun(bytes: Seq<u8>) -> bool {
    bytes.len() < HEADER_LEN || bytes.len() < record::framed_len(bytes)
}

/// That an open connection in this phase, with buffers that hold a record, is in step with
/// a writer: what waits and what is still to come, `later`, are records that carry `plain`.
pub open spec fn in_step<S: Peer>(
    state: StateView<S>,
    phase: Phase,
    later: Seq<u8>,
    plain: Seq<u8>,
    end: OpenKey,
) -> bool {
    &&& !state::closed(phase)
    &&& state.link.core.phase == phase
    &&& staged::ample(state.received)
    &&& begun(state.received.bytes())
    &&& traffic::reading_key(state.link.core.traffic, phase) matches Some((key, _))
        && traffic::carries(key, state.received.bytes() + later, plain, end)
}

/// A buffer that holds a record takes in what belongs to one.
proof fn kept_whole(received: Received, more: Seq<u8>, acquired: bool)
    requires
        staged::ample(received),
        received.bytes().len() + more.len() <= MAX_TLS_RECORD,
    ensures
        ({
            let (after, count) = received.append(more, acquired);
            &&& count == Some(more.len())
            &&& after.bytes() == received.bytes() + more
            &&& staged::ample(after)
        }),
{
    assert(more.take(more.len() as int) =~= more);
    if more.len() == 0 {
        assert(received.bytes() + more =~= received.bytes());
    }
}

/// What a read in place of the first part of a carried stream has come to after `i`
/// records.
proof fn carried_part<S: Peer>(
    trace: Trace<S>,
    before: StateView<S>,
    input: Seq<u8>,
    later: Seq<u8>,
    phase: Phase,
    plain: Seq<u8>,
    end: OpenKey,
    i: nat,
)
    requires
        trace.follows(before.link, input),
        i <= trace.actions.len(),
        before.received.bytes().len() == 0,
        in_step(before, phase, input + later, plain, end),
    ensures
        trace.links[i as int].core.phase == phase,
        0 <= direct::record_at(input, i) <= input.len(),
        plain::whole(trace.delivered(i)).is_prefix_of(plain),
        traffic::reading_key(trace.links[i as int].core.traffic, phase) matches Some((key, _))
            && traffic::carries(
            key,
            input.skip(direct::record_at(input, i)) + later,
            plain.skip(plain::whole(trace.delivered(i)).len() as int),
            end,
        ),
        i > 0 ==> direct::proceeds(trace.actions[i - 1]),
    decreases i,
{
    if i == 0 {
        assert(before.received.bytes() + (input + later) =~= input.skip(0) + later);
        assert(plain::whole(Seq::<Seq<u8>>::empty()) =~= Seq::<u8>::empty());
        assert(plain.skip(0) =~= plain);
    } else {
        let p = (i - 1) as nat;
        carried_part(trace, before, input, later, phase, plain, end, p);
        let link = trace.links[p as int];
        let (key, _) = traffic::reading_key(link.core.traffic, link.core.phase)->0;
        let at = direct::record_at(input, p);
        let next = direct::record_at(input, i);
        let here = input.skip(at);
        let stream = here + later;
        let done = plain::whole(trace.delivered(p));
        let rest = plain.skip(done.len() as int);
        assert(trace.handles(input, p as int));
        assert(stream.len() > 0);
        assert(record::framed_len(stream) == record::framed_len(here));
        let total = record::framed_len(stream) as int;
        let body = (key.open(stream.take(total))->Ok_0->0).1;
        assert(input.subrange(at, next) =~= stream.take(total));
        assert(stream.take(total)[0] == stream[0]);
        direct::carried_record(
            link,
            input.subrange(at, next),
            trace.links[i as int],
            trace.lefts[p as int],
            trace.actions[p as int],
            body,
        );
        assert(stream.skip(total) =~= input.skip(next) + later);
        if body.len() > 0 {
            direct::whole_push(trace.delivered(p), body);
            assert(plain::whole(trace.delivered(i)) == done + body);
        } else {
            assert(done + body =~= done);
            assert(plain::whole(trace.delivered(i)) == done + body);
        }
        assert(done + body =~= plain.take((done.len() + body.len()) as int));
        assert(rest.skip(body.len() as int) =~= plain.skip((done + body).len() as int));
    }
}

/// Reading in place any first part of a carried stream delivers the plaintext of the
/// records that are complete, and keeps the beginning of the next.
proof fn in_place_keeps_step<S: Peer>(
    before: StateView<S>,
    input: Seq<u8>,
    later: Seq<u8>,
    phase: Phase,
    plain: Seq<u8>,
    end: OpenKey,
    after: StateView<S>,
    data: Seq<Seq<u8>>,
    status: Read,
    opened: Seq<u8>,
)
    requires
        direct::read_through(before, input, after, data, status, opened),
        before.received.bytes().len() == 0,
        in_step(before, phase, input + later, plain, end),
    ensures
        status != Read::Failed,
        plain::whole(data).is_prefix_of(plain),
        in_step(after, phase, later, plain.skip(plain::whole(data).len() as int), end),
{
    let trace = choose|trace: Trace<S>| #[trigger]
        direct::read_by(trace, before, input, after, data, status, opened);
    let n = trace.actions.len();
    carried_part(trace, before, input, later, phase, plain, end, n);
    let at = direct::record_at(input, n);
    let rest = input.skip(at);
    let stream = rest + later;
    if at < input.len() {
        if rest.len() >= HEADER_LEN {
            assert(record::framed_len(stream) == record::framed_len(rest));
        }
        assert(RecordFrame::completed(rest) is Ok);
        let acquired = choose|acquired: bool|
            {
                let (received, count) = #[trigger] before.received.append(rest, acquired);
                after.received == received && status == if count == Some(rest.len()) {
                    Read::Stop
                } else {
                    Read::Failed
                }
            };
        kept_whole(before.received, rest, acquired);
        assert(begun(rest));
        assert(Seq::<u8>::empty() + rest =~= rest);
    } else {
        assert(before.received.bytes() + later =~= stream);
    }
}

/// Bytes are added to those that wait up to a goal within a record.
proof fn topped_up(received: Received, bytes: Seq<u8>, goal: nat, acquired: bool)
    requires
        staged::ample(received),
        received.bytes().len() <= goal <= MAX_TLS_RECORD,
    ensures
        ({
            let (after, taken) = staged::topped(received, bytes, goal, acquired);
            let need = goal - received.bytes().len();
            &&& taken == Some(
                if need <= bytes.len() {
                    need as nat
                } else {
                    bytes.len()
                },
            )
            &&& after.bytes() == received.bytes() + bytes.take(taken->0 as int)
            &&& staged::ample(after)
        }),
{
    reveal(staged::topped);
    let need = (goal - received.bytes().len()) as nat;
    let take = if need <= bytes.len() {
        need
    } else {
        bytes.len()
    };
    assert(bytes.take(0) =~= Seq::<u8>::empty());
    assert(received.bytes() + bytes.take(0) =~= received.bytes());
    kept_whole(received, bytes.take(take as int), acquired);
}

/// What was delivered: a completed chunk first, then pieces.
pub open spec fn delivered(data: Option<Seq<u8>>, pieces: Option<Seq<Seq<u8>>>) -> Seq<u8> {
    (match data {
        Some(data) => data,
        None => Seq::empty(),
    }) + (match pieces {
        Some(pieces) => plain::whole(pieces),
        None => Seq::empty(),
    })
}

/// A record that was completed in the receive buffer is delivered, and nothing waits then.
proof fn finishing_keeps_step<S: Peer>(
    before: StateView<S>,
    total: int,
    later: Seq<u8>,
    phase: Phase,
    plain: Seq<u8>,
    end: OpenKey,
    after: StateView<S>,
    data: Option<Seq<u8>>,
    result: Result<Control, Error>,
)
    requires
        staged::finished_wire(before, total, after, data, result),
        !state::closed(phase),
        before.link.core.phase == phase,
        staged::ample(before.received),
        total == before.received.bytes().len(),
        HEADER_LEN <= total == record::framed_len(before.received.bytes()),
        traffic::reading_key(before.link.core.traffic, phase) matches Some((key, _))
            && traffic::carries(key, before.received.bytes() + later, plain, end),
    ensures
        result == Ok::<Control, Error>(Control::Continue),
        delivered(data, None).is_prefix_of(plain),
        in_step(after, phase, later, plain.skip(delivered(data, None).len() as int), end),
        after.received.bytes().len() == 0,
{
    reveal(staged::finished_wire);
    let bytes = before.received.bytes();
    let stream = bytes + later;
    let (key, _) = traffic::reading_key(before.link.core.traffic, phase)->0;
    assert(record::framed_len(stream) == record::framed_len(bytes));
    assert(stream.take(total) =~= bytes);
    assert(bytes.take(total) =~= bytes);
    let body = (key.open(stream.take(total))->Ok_0->0).1;
    let (left, mid, action) = choose|
        left: Seq<u8>,
        mid: StateView<S>,
        action: Result<RecordAction, RecordFailure>,
    | #[trigger]
        staged::handled_staged(before, total, left, mid, action) && match action {
            Err(failure) => after == mid && data is None && result == Err::<Control, Error>(
                failure.as_error(),
            ),
            Ok(action) => after == (StateView {
                link: mid.link,
                received: match action {
                    RecordAction::Application(_) => Received { recv: None, ..before.received },
                    RecordAction::Control(_) => mid.received.consume(total),
                },
            }) && data == staged::data_of(action, left) && result == Ok::<Control, Error>(
                staged::control_of(action),
            ),
        };
    direct::carried_record(before.link, bytes, mid.link, left, action, body);
    assert(delivered(data, None) =~= body);
    assert(after.received.bytes() + later =~= stream.skip(total));
}

/// The header of the record that has begun is completed first.
proof fn header_topped_up(received: Received, input: Seq<u8>, later: Seq<u8>, acquired: bool)
    requires
        staged::ample(received),
        begun(received.bytes()),
    ensures
        ({
            let stream = received.bytes() + (input + later);
            let (headed, first) = staged::topped(received, input, HEADER_LEN as nat, acquired);
            &&& first is Some
            &&& first->0 <= input.len()
            &&& staged::ample(headed)
            &&& headed.bytes() + (input.skip(first->0 as int) + later) == stream
            &&& headed.bytes().len() < HEADER_LEN ==> first->0 == input.len()
            &&& headed.bytes().len() >= HEADER_LEN ==> record::framed_len(headed.bytes())
                == record::framed_len(stream) && headed.bytes().len() <= record::framed_len(stream)
        }),
{
    let had = received.bytes();
    let header: nat = HEADER_LEN as nat;
    if had.len() < header {
        topped_up(received, input, header, acquired);
    } else {
        reveal(staged::topped);
        assert(had + input.take(0) =~= had);
    }
    let (headed, first) = staged::topped(received, input, header, acquired);
    let n = first->0;
    assert(headed.bytes() == had + input.take(n as int));
    assert(headed.bytes() + (input.skip(n as int) + later) =~= had + (input + later));
}

/// Then its body is.
proof fn body_topped_up(
    headed: Received,
    left: Seq<u8>,
    later: Seq<u8>,
    total: nat,
    acquired: bool,
)
    requires
        staged::ample(headed),
        HEADER_LEN <= headed.bytes().len() <= total <= MAX_TLS_RECORD,
        record::framed_len(headed.bytes()) == total,
    ensures
        ({
            let (filled, second) = staged::topped(headed, left, total, acquired);
            &&& second is Some
            &&& second->0 <= left.len()
            &&& staged::ample(filled)
            &&& filled.bytes() + (left.skip(second->0 as int) + later) == headed.bytes() + (left
                + later)
            &&& HEADER_LEN <= filled.bytes().len() <= total
            &&& record::framed_len(filled.bytes()) == total
            &&& filled.bytes().len() < total ==> second->0 == left.len()
        }),
{
    topped_up(headed, left, total, acquired);
    let (filled, second) = staged::topped(headed, left, total, acquired);
    assert(filled.bytes() + (left.skip(second->0 as int) + later) =~= headed.bytes() + (left
        + later));
}

/// Completing the record that has begun, as far as `input` goes, delivers its plaintext
/// or keeps it all.
proof fn staged_keeps_step<S: Peer>(
    before: StateView<S>,
    input: Seq<u8>,
    later: Seq<u8>,
    phase: Phase,
    plain: Seq<u8>,
    end: OpenKey,
    after: StateView<S>,
    taken: nat,
    data: Option<Seq<u8>>,
    status: Read,
)
    requires
        staged::read_wire(before, input, after, taken, data, status),
        in_step(before, phase, input + later, plain, end),
    ensures
        status == Read::Continue,
        taken <= input.len(),
        delivered(data, None).is_prefix_of(plain),
        in_step(
            after,
            phase,
            input.skip(taken as int) + later,
            plain.skip(delivered(data, None).len() as int),
            end,
        ),
        taken < input.len() ==> after.received.bytes().len() == 0,
        after.received.bytes().len() > 0 ==> taken == input.len() && data is None,
{
    let (header_acquired, body_acquired, result) = choose|
        header_acquired: bool,
        body_acquired: bool,
        result: Result<Control, Error>,
    | #[trigger]
        staged::read_one(
            before,
            input,
            header_acquired,
            body_acquired,
            after,
            taken,
            data,
            result,
        ) && match result {
            Ok(control) => status == control.as_status() && taken <= input.len(),
            Err(_) => status == Read::Failed && taken == input.len() && data is None,
        };
    let had = before.received.bytes();
    let stream = had + (input + later);
    assert(plain.skip(0) =~= plain);
    assert(delivered(None, None) =~= Seq::<u8>::empty());
    header_topped_up(before.received, input, later, header_acquired);
    let (headed, first) = staged::topped(
        before.received,
        input,
        HEADER_LEN as nat,
        header_acquired,
    );
    let n = first->0;
    if headed.bytes().len() >= HEADER_LEN {
        let total = record::framed_len(stream);
        let left = input.skip(n as int);
        assert(total <= MAX_TLS_RECORD);
        body_topped_up(headed, left, later, total, body_acquired);
        let (filled, second) = staged::topped(headed, left, total, body_acquired);
        let m = second->0;
        assert(input.skip((n + m) as int) =~= left.skip(m as int));
        let at_body = StateView { link: before.link, received: filled };
        if filled.bytes().len() >= total {
            finishing_keeps_step(
                at_body,
                total as int,
                input.skip((n + m) as int) + later,
                phase,
                plain,
                end,
                after,
                data,
                result,
            );
        }
    }
}

/// Whatever the cuts, a connection delivers every byte of application data, once and in
/// order, for either delivery. Where it is in step with a writer, a read of `input`
/// delivers the plaintext of the records that `input` completes, the chunk that was
/// completed first and then the pieces, and is in step with the writer again: the rest of
/// the plaintext is in what waits then and in what is still to come. Where nothing is
/// still to come, all of it was delivered. A batch that has room for one piece only cannot
/// take what stands behind a completed chunk.
pub proof fn every_cut_is_delivered<S: Peer>(
    before: StateView<S>,
    input: Seq<u8>,
    later: Seq<u8>,
    delivery: Delivery,
    phase: Phase,
    plain: Seq<u8>,
    end: OpenKey,
    mid: StateView<S>,
    offset: Option<nat>,
    first_failed: bool,
    rest_failed: bool,
    after: StateView<S>,
    data: Option<Seq<u8>>,
    pieces: Option<Seq<Seq<u8>>>,
    failed: bool,
    output: Seq<u8>,
)
    requires
        in_step(before, phase, input + later, plain, end),
        receive::ingested_by(
            before,
            input,
            delivery,
            mid,
            offset,
            first_failed,
            rest_failed,
            after,
            data,
            pieces,
            failed,
            output,
        ),
        delivery matches Delivery::Batch(capacity) ==> capacity > 1 || capacity == 1
            && before.received.bytes().len() == 0,
    ensures
        !failed,
        !receive::broken(after),
        delivered(data, pieces).is_prefix_of(plain),
        in_step(after, phase, later, plain.skip(delivered(data, pieces).len() as int), end),
        later.len() == 0 ==> delivered(data, pieces) == plain && after.received.bytes().len() == 0,
        delivery matches Delivery::Batch(capacity) ==> (if data is Some {
            1int
        } else {
            0int
        }) + (match pieces {
            Some(pieces) => pieces.len() as int,
            None => 0int,
        }) <= capacity,
{
    let got = delivered(data, None);
    assert(plain.skip(0) =~= plain);
    if before.received.bytes().len() == 0 {
        assert(input.skip(0) =~= input);
        assert(got =~= Seq::<u8>::empty());
    } else {
        let (taken, status) = choose|taken: nat, status: Read| #[trigger]
            staged::read_wire(before, input, mid, taken, data, status) && first_failed == (status
                == Read::Failed) && offset == if status == Read::Continue && taken < input.len()
                && mid.received.bytes().len() == 0 {
                Some(taken)
            } else {
                None
            };
        staged_keeps_step(before, input, later, phase, plain, end, mid, taken, data, status);
        assert(offset is None ==> input.skip(taken as int) + later =~= later);
    }
    let rest = plain.skip(got.len() as int);
    match offset {
        None => {
            assert(delivered(data, pieces) =~= got);
        },
        Some(offset) => {
            let limit = receive::piece_limit(delivery, data);
            let here = input.skip(offset as int);
            let (found, status, opened) = choose|
                found: Seq<Seq<u8>>,
                status: Read,
                opened: Seq<u8>,
            | #[trigger]
                direct::read_through(mid, here, after, found, status, opened) && rest_failed == (
                status == Read::Failed) && pieces == Some(direct::delivered_in(found, limit))
                    && plain::repacked(opened, found, limit, output.skip(offset as int));
            in_place_keeps_step(
                mid,
                here,
                later,
                phase,
                rest,
                end,
                after,
                found,
                status,
                opened,
            );
            match limit {
                Some(limit) => {
                    plain::packing_keeps_plaintext(found, limit);
                },
                None => {},
            }
            assert(delivered(data, pieces) =~= got + plain::whole(found));
            assert(rest.skip(plain::whole(found).len() as int) =~= plain.skip(
                delivered(data, pieces).len() as int,
            ));
            assert(got + rest =~= plain);
        },
    }
    if later.len() == 0 {
        let waits = after.received.bytes();
        assert(waits + later =~= waits);
        let left = plain.skip(delivered(data, pieces).len() as int);
        assert(waits.len() == 0);
        assert(left.len() == 0);
        assert(delivered(data, pieces) =~= plain);
    }
}

/// A batch hands out just what was delivered, in order.
pub proof fn batch_hands_out_all(result: IngressResult<'_, '_>, batch: Batch<'_, '_>)
    requires
        batch.owned == result.staged,
        batch.plain == result.plain,
    ensures
        plain::whole(batch.rest()) == delivered(
            receive::chunk_data(result.staged),
            result.pieces(),
        ),
{
    let chunk = match result.staged {
        Some(chunk) => seq![buffer::chunk_bytes(chunk)],
        None => Seq::empty(),
    };
    let pieces = match result.plain {
        Some(plain) => plain.rest(),
        None => Seq::empty(),
    };
    plain::whole_concat(chunk, pieces);
    if result.staged is Some {
        plain::whole_one(buffer::chunk_bytes(result.staged->0));
    }
    assert(plain::whole(Seq::<Seq<u8>>::empty()) =~= Seq::<u8>::empty());
}

/// What is kept where it stands is just what was delivered, in order.
pub proof fn retained_keeps_all(
    result: IngressResult<'_, '_>,
    kept: RetainedResult<'_>,
    bytes: Seq<u8>,
)
    requires
        kept.staged == result.staged,
        kept.plain_offset == result.plain_offset,
        match result.plain {
            Some(plain) => plain.source() == bytes.skip(result.plain_offset as int)
                && (kept.layout matches Some(layout) && layout.pieces(plain.source())
                == plain.rest()),
            None => kept.layout is None,
        },
    ensures
        kept.data(bytes) == delivered(receive::chunk_data(result.staged), result.pieces()),
{
}

} // verus!
