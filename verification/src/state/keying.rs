//! That two ends which take the same secrets understand each other.

use crate::state::traffic::TrafficView;
use shin::connection::{Epoch, KeyDirection};
use shin::wire::record::CipherSuite;
use vstd::prelude::*;

verus! {

/// Two ends that install the same two secrets the opposite way round are in step: each
/// opens what the other seals, from the first record on. The keys of the other epoch stay.
pub proof fn installed_ends_are_in_step(
    near: TrafficView,
    far: TrafficView,
    epoch: Epoch,
    one: Seq<u8>,
    other: Seq<u8>,
    suite: CipherSuite,
)
    requires
        epoch == Epoch::Handshake || epoch == Epoch::Application,
        near.install(epoch, one, other, suite).1 is Ok,
        far.install(epoch, other, one, suite).1 is Ok,
    ensures
        ({
            let (near_keys, near_rest, near_had) = if epoch == Epoch::Handshake {
                (
                    near.install(epoch, one, other, suite).0.handshake,
                    near.install(epoch, one, other, suite).0.application,
                    near.application,
                )
            } else {
                (
                    near.install(epoch, one, other, suite).0.application,
                    near.install(epoch, one, other, suite).0.handshake,
                    near.handshake,
                )
            };
            let far_keys = if epoch == Epoch::Handshake {
                far.install(epoch, other, one, suite).0.handshake
            } else {
                far.install(epoch, other, one, suite).0.application
            };
            &&& near_keys.seal is Some
            &&& far_keys.seal is Some
            &&& far_keys.open == Some((near_keys.seal->0).reader())
            &&& near_keys.open == Some((far_keys.seal->0).reader())
            &&& (near_keys.seal->0).seq == 0
            &&& (far_keys.seal->0).seq == 0
            &&& near_rest == near_had
        }),
{
}

/// A key that is replaced on both ends is in step again, and the keys of the other
/// direction and of the handshake stay.
pub proof fn updated_ends_are_in_step(
    writer: TrafficView,
    reader: TrafficView,
    secret: Seq<u8>,
    suite: CipherSuite,
)
    requires
        writer.update(KeyDirection::Write, secret, suite).1 is Ok,
        reader.update(KeyDirection::Read, secret, suite).1 is Ok,
    ensures
        ({
            let sends = writer.update(KeyDirection::Write, secret, suite).0;
            let reads = reader.update(KeyDirection::Read, secret, suite).0;
            &&& sends.application.seal is Some
            &&& reads.application.open == Some((sends.application.seal->0).reader())
            &&& sends.application.open == writer.application.open
            &&& reads.application.seal == reader.application.seal
            &&& sends.handshake == writer.handshake
            &&& reads.handshake == reader.handshake
        }),
{
}

/// A refused key changes no key of its direction: what was opened and sealed before can be
/// opened and sealed on.
pub proof fn refused_update_changes_nothing(
    keys: TrafficView,
    direction: KeyDirection,
    secret: Seq<u8>,
    suite: CipherSuite,
)
    requires
        keys.update(direction, secret, suite).1 is Err,
    ensures
        keys.update(direction, secret, suite).0 == keys,
{
}

} // verus!
