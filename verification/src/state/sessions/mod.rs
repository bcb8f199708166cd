//! The handshake engines that connections are driven by.

use crate::state::events::{Core, RecordEvents, RecordFailure};
use shin::connection::{DriveError, Epoch};
use shin::wire::handshake::KeyUpdateRequest;
use vstd::prelude::*;

pub mod clients;
pub mod servers;

verus! {

#[verifier::external_type_specification]
pub struct ExKeyUpdateRequest(KeyUpdateRequest);

/// What an engine is called for.
pub enum Call {
    Start,
    Read { epoch: Epoch, data: Seq<u8> },
    KeyUpdate { request: KeyUpdateRequest },
    PendingKeyUpdate,
}

/// The handshake engine of one connection.
///
/// An engine asks for things in the course of a call; what it can leave behind is
/// what those things lead to. What it asks for is its own.
pub trait Peer: Sized {
    /// That the engine `before`, called with `core` at hand, can be left as
    /// `after` with `left` and `answer`: anything, unless the engine says more.
    open spec fn answers(
        before: Self,
        call: Call,
        core: Core,
        after: Self,
        left: Core,
        answer: Result<(), DriveError<RecordFailure>>,
    ) -> bool {
        true
    }

    /// That `after` is `before` with application data noted: anything, unless the
    /// engine says more.
    open spec fn noted(before: Self, after: Self) -> bool {
        true
    }

    /// The application protocol that was agreed on.
    open spec fn alpn(self) -> Option<Seq<u8>> {
        arbitrary()
    }

    fn send_pending_key_update_response_into(&mut self, events: &mut RecordEvents<'_>) -> (answer:
        Result<(), DriveError<RecordFailure>>)
        ensures
            Self::answers(
                *old(self),
                Call::PendingKeyUpdate,
                old(events)@,
                *final(self),
                final(events)@,
                answer,
            ),
            old(events)@.driven(final(events)@, answer),
    ;

    fn send_key_update_into(
        &mut self,
        request: KeyUpdateRequest,
        events: &mut RecordEvents<'_>,
    ) -> (answer: Result<(), DriveError<RecordFailure>>)
        ensures
            Self::answers(
                *old(self),
                Call::KeyUpdate { request },
                old(events)@,
                *final(self),
                final(events)@,
                answer,
            ),
            old(events)@.driven(final(events)@, answer),
    ;

    fn read_into(&mut self, epoch: Epoch, data: &[u8], events: &mut RecordEvents<'_>) -> (answer:
        Result<(), DriveError<RecordFailure>>)
        ensures
            Self::answers(
                *old(self),
                Call::Read { epoch, data: data@ },
                old(events)@,
                *final(self),
                final(events)@,
                answer,
            ),
            old(events)@.driven(final(events)@, answer),
    ;

    fn note_application_data(&mut self)
        ensures
            Self::noted(*old(self), *final(self)),
    ;

    fn selected_alpn(&self) -> (protocol: Option<&[u8]>)
        ensures
            match protocol {
                Some(protocol) => self.alpn() == Some(protocol@),
                None => self.alpn() is None,
            },
    ;
}

/// The engine of a client, which speaks first.
pub trait ClientPeer: Peer {
    fn start_into(&mut self, events: &mut RecordEvents<'_>) -> (answer: Result<
        (),
        DriveError<RecordFailure>,
    >)
        ensures
            Self::answers(
                *old(self),
                Call::Start,
                old(events)@,
                *final(self),
                final(events)@,
                answer,
            ),
            old(events)@.driven(final(events)@, answer),
    ;
}

} // verus!
