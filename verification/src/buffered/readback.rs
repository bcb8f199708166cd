//! What was written is read.

use crate::buffered::engines::Engine;
use crate::buffered::held::{self, Round, Step, Whole, INCOMING_APP_CAP};
use crate::error::Error;
use crate::record::{self, OpenKey};
use crate::staging::{HEADER_LEN, MAX_TLS_RECORD};
use crate::state;
use crate::state::status::Phase;
use crate::state::traffic;
use vstd::prelude::*;

verus! {

/// The key that a connection opens the next record with.
pub open spec fn in_step<E: Engine>(at: Whole<E>) -> Option<OpenKey> {
    match traffic::reading_key(at.held.traffic, at.held.phase) {
        Some((key, _)) => Some(key),
        None => None,
    }
}

/// What a connection has read of a carried stream at one moment: `plain` is what it
/// has behind `base` and what the bytes at hand still carry.
pub open spec fn carrying<E: Engine>(
    at: Whole<E>,
    rest: Seq<u8>,
    phase: Phase,
    base: Seq<u8>,
    plain: Seq<u8>,
    end: OpenKey,
) -> bool {
    let had = at.held.app.skip(base.len() as int);
    &&& at.held.phase == phase
    &&& base.is_prefix_of(at.held.app)
    &&& had.is_prefix_of(plain)
    &&& match in_step(at) {
        Some(key) => traffic::carries(
            key,
            at.held.recv.bytes + rest,
            plain.skip(had.len() as int),
            end,
        ),
        None => false,
    }
}

proof fn one_record<E: Engine>(
    before: Whole<E>,
    rest: Seq<u8>,
    after: Whole<E>,
    result: Result<bool, Error>,
    phase: Phase,
    base: Seq<u8>,
    plain: Seq<u8>,
    end: OpenKey,
)
    requires
        held::consumed_one(before, after, result),
        carrying(before, rest, phase, base, plain, end),
        !state::closed(phase),
        base.len() + plain.len() <= INCOMING_APP_CAP,
    ensures
        carrying(after, rest, phase, base, plain, end),
        after.held.recv.capacity == before.held.recv.capacity,
        result is Ok,
        result == Ok::<bool, Error>(false) ==> after.held == before.held && (
        before.held.recv.bytes.len() < HEADER_LEN || before.held.recv.bytes.len()
            < record::framed_len(before.held.recv.bytes)),
{
    reveal(held::consumed_one);
    let step: Step<E> = choose|step: Step<E>| #[trigger]
        before.plausible(step) && before.one(step).after == after && before.one(step).result
            == result;
    let bytes = before.held.recv.bytes;
    let stream = bytes + rest;
    let had = before.held.app.skip(base.len() as int);
    let left = plain.skip(had.len() as int);
    if bytes.len() >= HEADER_LEN {
        let total = record::framed_len(bytes) as int;
        assert(stream.len() > 0);
        assert(record::framed_len(stream) == total);
        assert(stream[0] == bytes[0]);
        if bytes.len() >= total {
            assert(stream.take(total) =~= bytes.take(total));
            let key = in_step(before)->0;
            let body = (key.open(stream.take(total))->Ok_0->0).1;
            assert(stream.skip(total) =~= bytes.skip(total) + rest);
            assert(after.held.app == before.held.app + body);
            assert(after.held.app.skip(base.len() as int) =~= had + body);
            assert(had + body =~= plain.take((had.len() + body.len()) as int));
            assert(left.skip(body.len() as int) =~= plain.skip((had + body).len() as int));
            assert(after.held.recv.bytes =~= bytes.skip(total));
            assert(in_step(after) == Some(key.next()));
        }
    }
}

proof fn records_on_the_way<E: Engine>(
    before: Whole<E>,
    path: Seq<Whole<E>>,
    i: int,
    rest: Seq<u8>,
    phase: Phase,
    base: Seq<u8>,
    plain: Seq<u8>,
    end: OpenKey,
)
    requires
        held::consumed_many(before, path),
        0 <= i < path.len(),
        carrying(before, rest, phase, base, plain, end),
        !state::closed(phase),
        base.len() + plain.len() <= INCOMING_APP_CAP,
    ensures
        carrying(path[i], rest, phase, base, plain, end),
        path[i].held.recv.capacity == before.held.recv.capacity,
    decreases i,
{
    if i > 0 {
        records_on_the_way(before, path, i - 1, rest, phase, base, plain, end);
        assert(held::passes(path, i - 1));
        one_record(path[i - 1], rest, path[i], Ok(true), phase, base, plain, end);
    }
}

proof fn all_records<E: Engine>(
    before: Whole<E>,
    rest: Seq<u8>,
    after: Whole<E>,
    result: Result<bool, Error>,
    phase: Phase,
    base: Seq<u8>,
    plain: Seq<u8>,
    end: OpenKey,
)
    requires
        held::consumed_all(before, after, result),
        carrying(before, rest, phase, base, plain, end),
        !state::closed(phase),
        base.len() + plain.len() <= INCOMING_APP_CAP,
    ensures
        carrying(after, rest, phase, base, plain, end),
        after.held.recv.capacity == before.held.recv.capacity,
        result == Ok::<bool, Error>(false),
        after.held.recv.bytes.len() < HEADER_LEN || after.held.recv.bytes.len()
            < record::framed_len(after.held.recv.bytes),
{
    reveal(held::consumed_all);
    let path: Seq<Whole<E>> = choose|path: Seq<Whole<E>>| #[trigger]
        held::consumed_many(before, path) && held::consumed_one(path.last(), after, result);
    records_on_the_way(before, path, path.len() - 1, rest, phase, base, plain, end);
    one_record(path.last(), rest, after, result, phase, base, plain, end);
    match result {
        Ok(on) => assert(!on),
        Err(_) => assert(false),
    }
}

proof fn taking_in<E: Engine>(
    at: Whole<E>,
    rest: Seq<u8>,
    later: Seq<u8>,
    phase: Phase,
    base: Seq<u8>,
    plain: Seq<u8>,
    end: OpenKey,
)
    requires
        carrying(at, rest + later, phase, base, plain, end),
        at.held.recv.bytes.len() <= at.held.recv.capacity,
    ensures
        carrying(
            at.take_in(rest),
            rest.skip(held::intake(at.held.recv, rest)) + later,
            phase,
            base,
            plain,
            end,
        ),
{
    let n = held::intake(at.held.recv, rest);
    assert(at.take_in(rest).held.recv.bytes + (rest.skip(n) + later) =~= at.held.recv.bytes + (rest
        + later));
}

proof fn rounds_on_the_way<E: Engine>(
    before: Whole<E>,
    bytes: Seq<u8>,
    later: Seq<u8>,
    path: Seq<Round<E>>,
    i: int,
    phase: Phase,
    base: Seq<u8>,
    plain: Seq<u8>,
    end: OpenKey,
)
    requires
        held::rounds(before, bytes, path),
        0 <= i < path.len(),
        carrying(before, bytes + later, phase, base, plain, end),
        !state::closed(phase),
        base.len() + plain.len() <= INCOMING_APP_CAP,
        before.held.recv.capacity >= MAX_TLS_RECORD,
        before.held.recv.bytes.len() <= before.held.recv.capacity,
    ensures
        carrying(path[i].state, path[i].rest + later, phase, base, plain, end),
        path[i].state.held.recv.capacity == before.held.recv.capacity,
        path[i].state.held.recv.bytes.len() <= path[i].state.held.recv.capacity,
        i > 0 ==> path[i].state.held.recv.bytes.len() < MAX_TLS_RECORD,
    decreases i,
{
    if i > 0 {
        rounds_on_the_way(before, bytes, later, path, i - 1, phase, base, plain, end);
        assert(held::goes_round(path, i - 1));
        let at = path[i - 1];
        taking_in(at.state, at.rest, later, phase, base, plain, end);
        all_records(
            at.state.take_in(at.rest),
            path[i].rest + later,
            path[i].state,
            Ok(false),
            phase,
            base,
            plain,
            end,
        );
        short_of_a_record(path[i].state, path[i].rest + later, phase, base, plain, end);
    }
}

/// Without a whole record at the front, a carried stream holds less than one.
proof fn short_of_a_record<E: Engine>(
    at: Whole<E>,
    rest: Seq<u8>,
    phase: Phase,
    base: Seq<u8>,
    plain: Seq<u8>,
    end: OpenKey,
)
    requires
        carrying(at, rest, phase, base, plain, end),
        at.held.recv.bytes.len() < HEADER_LEN || at.held.recv.bytes.len() < record::framed_len(
            at.held.recv.bytes,
        ),
    ensures
        at.held.recv.bytes.len() < MAX_TLS_RECORD,
        rest.len() == 0 ==> at.held.recv.bytes.len() == 0,
{
    let bytes = at.held.recv.bytes;
    let stream = bytes + rest;
    if bytes.len() >= HEADER_LEN {
        assert(record::framed_len(stream) == record::framed_len(bytes));
    }
    if rest.len() == 0 {
        assert(stream =~= bytes);
    }
}

/// Whatever the cuts, a connection that is in step with the writer keeps every byte of
/// application data, once and in order. Where the received bytes, `bytes` and what is
/// still to come, `later`, are records that carry `plain`, the read of `bytes` succeeds,
/// gives a first part of `plain` behind what there was, and leaves the connection in step:
/// the rest of `plain` is in what it has received then and in what is still to come.
pub proof fn kept_reading_stays_in_step<E: Engine>(
    before: Whole<E>,
    bytes: Seq<u8>,
    later: Seq<u8>,
    after: Whole<E>,
    result: Result<(), Error>,
    plain: Seq<u8>,
    end: OpenKey,
) -> (got: Seq<u8>)
    requires
        held::read(before, bytes, after, result),
        !state::closed(before.held.phase),
        in_step(before) matches Some(key) && traffic::carries(
            key,
            before.held.recv.bytes + (bytes + later),
            plain,
            end,
        ),
        before.held.app.len() + plain.len() <= INCOMING_APP_CAP,
        before.held.recv.capacity >= MAX_TLS_RECORD,
        before.held.recv.bytes.len() < before.held.recv.capacity,
    ensures
        result is Ok,
        got.is_prefix_of(plain),
        after.held.app == before.held.app + got,
        after.held.phase == before.held.phase,
        after.held.recv.capacity == before.held.recv.capacity,
        after.held.recv.bytes.len() < MAX_TLS_RECORD,
        in_step(after) matches Some(key) && traffic::carries(
            key,
            after.held.recv.bytes + later,
            plain.skip(got.len() as int),
            end,
        ),
        later.len() == 0 ==> got == plain && after.held.recv.bytes.len() == 0,
{
    let phase = before.held.phase;
    let base = before.held.app;
    assert(base.skip(base.len() as int) =~= Seq::<u8>::empty());
    assert(plain.skip(0) =~= plain);
    assert(carrying(before, bytes + later, phase, base, plain, end));
    let path: Seq<Round<E>> = choose|path: Seq<Round<E>>| #[trigger]
        held::rounds(before, bytes, path) && held::last_round(
            path.last().state,
            path.last().rest,
            after,
            result,
        );
    let i = path.len() - 1;
    rounds_on_the_way(before, bytes, later, path, i, phase, base, plain, end);
    let last = path[i];
    let taken = held::intake(last.state.held.recv, last.rest);
    taking_in(last.state, last.rest, later, phase, base, plain, end);
    let done: Result<bool, Error> = match result {
        Ok(()) => Ok(false),
        Err(error) => if held::consumed_all(last.state.take_in(last.rest), after, Err(error)) {
            Err(error)
        } else {
            Ok(false)
        },
    };
    assert(held::consumed_all(last.state.take_in(last.rest), after, done));
    all_records(
        last.state.take_in(last.rest),
        last.rest.skip(taken) + later,
        after,
        done,
        phase,
        base,
        plain,
        end,
    );
    short_of_a_record(after, last.rest.skip(taken) + later, phase, base, plain, end);
    assert(last.state.held.recv.bytes.len() < last.state.held.recv.capacity);
    assert(taken == 0 ==> last.rest.len() == 0);
    assert(last.rest.skip(taken) + later =~= later);
    let got = after.held.app.skip(base.len() as int);
    assert(after.held.app =~= base + got);
    if later.len() == 0 {
        assert(after.held.recv.bytes + later =~= Seq::<u8>::empty());
        assert(got =~= plain);
    }
    got
}

/// A connection that is in step with the writer reads back exactly what was written:
/// where the received bytes and `bytes` are a run of records that carries `plain`, the
/// read of `bytes` succeeds, gives `plain` behind what there was, all of it, and leaves
/// the connection in step with the writer again.
pub proof fn kept_reading_gives_back_what_was_written<E: Engine>(
    before: Whole<E>,
    bytes: Seq<u8>,
    after: Whole<E>,
    result: Result<(), Error>,
    plain: Seq<u8>,
    end: OpenKey,
)
    requires
        held::read(before, bytes, after, result),
        !state::closed(before.held.phase),
        in_step(before) matches Some(key) && traffic::carries(
            key,
            before.held.recv.bytes + bytes,
            plain,
            end,
        ),
        before.held.app.len() + plain.len() <= INCOMING_APP_CAP,
        before.held.recv.capacity >= MAX_TLS_RECORD,
        before.held.recv.bytes.len() < before.held.recv.capacity,
    ensures
        result is Ok,
        after.held.app == before.held.app + plain,
        after.held.recv.bytes.len() == 0,
        after.held.phase == before.held.phase,
        in_step(after) == Some(end),
{
    let none = Seq::<u8>::empty();
    assert(before.held.recv.bytes + (bytes + none) =~= before.held.recv.bytes + bytes);
    let got = kept_reading_stays_in_step(before, bytes, none, after, result, plain, end);
    assert(after.held.recv.bytes + none =~= none);
}

} // verus!
