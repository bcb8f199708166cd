//! What becomes of a handshake.

use crate::buffered::endings;
use crate::buffered::engines::{Engine, Wish};
use crate::buffered::held::{self, Held, Step, Whole, HS_REASSEMBLY_CAP};
use crate::buffered::reassembly;
use crate::error::Error;
use crate::record;
use crate::staging::{HEADER_LEN, MAX_PLAINTEXT_BODY};
use crate::state::status::Phase;
use crate::state::traffic;
use shin::connection::{Epoch, Error as HandshakeError};
use shin::wire::record::{CipherSuite, ContentType};
use vstd::prelude::*;

verus! {

/// The handshake is done just when the engine says so: doing all that it wants leaves the
/// connection established if its end is among it, and in its phase otherwise.
pub proof fn done_when_the_engine_says_so(held: Held, wishes: Seq<Wish>, suite: CipherSuite)
    requires
        held.absorb_all(wishes, suite).1 is Ok,
    ensures
        held.absorb_all(wishes, suite).0.phase == if wishes.contains(Wish::Done) {
            Phase::Established
        } else {
            held.phase
        },
    decreases wishes.len(),
{
    if wishes.len() > 0 {
        let rest = wishes.drop_last();
        done_when_the_engine_says_so(held, rest, suite);
        assert(wishes =~= rest.push(wishes.last()));
        if rest.contains(Wish::Done) {
            let i = choose|i: int| 0 <= i < rest.len() && rest[i] == Wish::Done;
            assert(wishes[i] == Wish::Done);
        }
        if wishes.last() == Wish::Done {
            assert(wishes[wishes.len() - 1] == Wish::Done);
        }
        if wishes.contains(Wish::Done) && wishes.last() != Wish::Done {
            let i = choose|i: int| 0 <= i < wishes.len() && wishes[i] == Wish::Done;
            assert(rest[i] == Wish::Done);
        }
    }
}

/// Handshake bytes go out behind what is to be sent, in just one record of their epoch: in
/// the clear first, and then under the key of the handshake or of the application.
pub proof fn handshake_bytes_go_out(held: Held, epoch: Epoch, data: Seq<u8>, suite: CipherSuite)
    requires
        held.absorb(Wish::Send { epoch, data }, suite).1 is Ok,
    ensures
        ({
            let after = held.absorb(Wish::Send { epoch, data }, suite).0;
            &&& after.out.capacity == held.out.capacity
            &&& after.phase == held.phase
            &&& epoch != Epoch::EarlyData
            &&& epoch == Epoch::Plaintext ==> after.out.bytes == held.out.bytes
                + record::plaintext_record(ContentType::Handshake, data)
            &&& epoch == Epoch::Handshake ==> held.traffic.handshake.seal is Some
                && after.out.bytes == held.out.bytes + ((held.traffic.handshake.seal->0).record(
                ContentType::Handshake,
                data,
            ))->0
            &&& epoch == Epoch::Application ==> held.traffic.application.seal is Some
                && after.out.bytes == held.out.bytes + ((held.traffic.application.seal->0).record(
                ContentType::Handshake,
                data,
            ))->0
        }),
{
}

/// That an engine answered so, and that the connection came to what it answered.
pub open spec fn heeded<E: Engine>(
    before: Whole<E>,
    epoch: Epoch,
    data: Seq<u8>,
    answer: Result<Seq<Wish>, HandshakeError>,
    after: Whole<E>,
    result: Result<bool, Error>,
) -> bool {
    &&& E::answers(before.side, epoch, data, after.side, answer)
    &&& match answer {
        Err(error) => result == Err::<bool, Error>(Error::Handshake(error)) && after.held.phase
            == Phase::Closed,
        Ok(wishes) => (result is Ok ==> after.held.phase == if wishes.contains(Wish::Done) {
            Phase::Established
        } else {
            before.held.phase
        }) && result != Ok::<bool, Error>(false),
    }
}

/// An unprotected handshake record is handed to the engine, its body whole and nothing
/// else, and the connection does what the engine answers: it is established when the
/// engine is done, and closed with the engine's error when that fails.
pub proof fn handshake_record_reaches_the_engine<E: Engine>(
    before: Whole<E>,
    after: Whole<E>,
    result: Result<bool, Error>,
) -> (answer: Result<Seq<Wish>, HandshakeError>)
    requires
        endings::faces(before, Seq::empty(), 22),
        record::framed_len(before.held.recv.bytes) <= HEADER_LEN + MAX_PLAINTEXT_BODY,
        record::plaintext_body(endings::front(before, Seq::empty())) matches Ok(Some(_)),
        held::consumed_one(before, after, result),
    ensures
        heeded(
            before,
            Epoch::Plaintext,
            (record::plaintext_body(endings::front(before, Seq::empty()))->Ok_0)->0,
            answer,
            after,
            result,
        ),
        after.held.app == before.held.app,
        after.held.recv.bytes == before.held.recv.bytes.skip(
            record::framed_len(before.held.recv.bytes) as int,
        ),
{
    reveal(held::consumed_one);
    assert(before.held.recv.bytes + Seq::<u8>::empty() =~= before.held.recv.bytes);
    let step = choose|step: Step<E>| #[trigger]
        before.plausible(step) && before.one(step).after == after && before.one(step).result
            == result;
    let total = record::framed_len(before.held.recv.bytes) as int;
    match step.answer {
        Ok(wishes) => {
            let suite = held::suite_or_default(step.side.suite());
            let past = before.held.past(total);
            held::absorbing_keeps_received(past, wishes, suite);
            if past.absorb_all(wishes, suite).1 is Ok {
                done_when_the_engine_says_so(past, wishes, suite);
            }
        },
        Err(_) => {},
    }
    step.answer
}

/// The epoch that protected messages belong to: that of the handshake, from the time that
/// there are keys for it until it is done.
pub open spec fn epoch_of(held: Held) -> Epoch {
    if held.phase == Phase::Handshaking && held.keys_ready {
        Epoch::Handshake
    } else {
        Epoch::Application
    }
}

/// The messages of protected handshake records are handed to the engine as soon as they
/// are whole, in order, and what is not whole yet is kept for later.
pub proof fn protected_messages_reach_the_engine<E: Engine>(
    before: Whole<E>,
    body: Seq<u8>,
    after: Whole<E>,
    result: Result<bool, Error>,
)
    requires
        endings::faces(before, Seq::empty(), 23),
        traffic::reading_key(before.held.traffic, before.held.phase) is Some,
        (traffic::reading_key(before.held.traffic, before.held.phase)->0).0.opens(
            endings::front(before, Seq::empty()),
            ContentType::Handshake,
            body,
        ),
        before.held.hs.len() + body.len() <= HS_REASSEMBLY_CAP,
        held::consumed_one(before, after, result),
    ensures
        ({
            let all = before.held.hs + body;
            let whole = reassembly::complete_prefix(all) as int;
            if whole == 0 {
                result == Ok::<bool, Error>(true) && after.held.hs == all && after.side
                    == before.side && after.held.phase == before.held.phase
            } else {
                &&& after.held.hs == all.skip(whole)
                &&& exists|answer: Result<Seq<Wish>, HandshakeError>| #[trigger]
                    heeded(before, epoch_of(before.held), all.take(whole), answer, after, result)
            }
        }),
        after.held.app == before.held.app,
        after.held.recv.bytes == before.held.recv.bytes.skip(
            record::framed_len(before.held.recv.bytes) as int,
        ),
{
    reveal(held::consumed_one);
    assert(before.held.recv.bytes + Seq::<u8>::empty() =~= before.held.recv.bytes);
    let step = choose|step: Step<E>| #[trigger]
        before.plausible(step) && before.one(step).after == after && before.one(step).result
            == result;
    let total = record::framed_len(before.held.recv.bytes) as int;
    let all = before.held.hs + body;
    let whole = reassembly::complete_prefix(all) as int;
    let (key, _) = traffic::reading_key(before.held.traffic, before.held.phase)->0;
    let open = Held {
        traffic: crate::state::records::with_reading_key(
            before.held.traffic,
            before.held.phase,
            key.next(),
        ),
        ..before.held
    };
    assert(before.one(step) == before.opened(
        open.past(total),
        ContentType::Handshake,
        body,
        step,
    ));
    if whole != 0 {
        let ready = Held { hs: all.skip(whole), ..open.past(total) };
        match step.answer {
            Ok(wishes) => {
                let suite = held::suite_or_default(step.side.suite());
                held::absorbing_keeps_received(ready, wishes, suite);
                if ready.absorb_all(wishes, suite).1 is Ok {
                    done_when_the_engine_says_so(ready, wishes, suite);
                }
            },
            Err(_) => {},
        }
        assert(heeded(
            before,
            epoch_of(before.held),
            all.take(whole),
            step.answer,
            after,
            result,
        ));
    }
}

} // verus!
