//! Trusted declarations for the in-process channels the routers hold.
//!
//! The routing tables store one delivery channel sender per subscriber; the
//! matching receivers are owned by the per-client streamer threads outside
//! this crate. The sender type is opaque here: the contracts of the routers
//! speak only of which clients hold a route, never of what a sender does.

use vstd::prelude::*;

verus! {

/// Declares crossbeam's channel sender so it can stand in fields and
/// signatures of this crate; the type is opaque to the verifier.
#[verifier::external_type_specification]
#[verifier::external_body]
#[verifier::reject_recursive_types(T)]
pub struct ExSender<T>(crossbeam_channel::Sender<T>);

/// Relies on `crossbeam_channel::Sender::send`: on an unbounded channel it
/// returns `Ok` when the message was enqueued and `Err` exactly when every
/// receiver has been dropped. Whether the receiver is still there depends on
/// another thread, so nothing is promised about the outcome.
#[verifier::external_body]
pub(crate) fn channel_send<T>(tx: &crossbeam_channel::Sender<T>, value: T) -> (r: Result<(), ()>) {
    match tx.send(value) {
        Ok(()) => Ok(()),
        Err(_) => Err(()),
    }
}

/// Relies on `crossbeam_channel::Sender::clone`: the clone feeds the same
/// channel as the original.
#[verifier::external_body]
pub(crate) fn clone_sender<T>(tx: &crossbeam_channel::Sender<T>) -> (r: crossbeam_channel::Sender<
    T,
>) {
    tx.clone()
}

} // verus!
