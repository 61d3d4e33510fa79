//! Trusted declarations for the one-shot wake channels that the wait
//! queues hold: the channel pair and the signalling send.
use vstd::prelude::*;

verus! {

#[verifier::external_type_specification]
#[verifier::external_body]
#[verifier::reject_recursive_types(T)]
pub struct ExSender<T>(tokio::sync::oneshot::Sender<T>);

#[verifier::external_type_specification]
#[verifier::external_body]
#[verifier::reject_recursive_types(T)]
pub struct ExReceiver<T>(tokio::sync::oneshot::Receiver<T>);

#[verifier::external_type_specification]
#[verifier::external_body]
pub struct ExRecvError(tokio::sync::oneshot::error::RecvError);

/// Relies on tokio::sync::oneshot::channel: a fresh pair whose receiver
/// resolves once the sender sends or is dropped.
#[verifier::external_body]
pub fn wake_channel() -> (tokio::sync::oneshot::Sender<()>, tokio::sync::oneshot::Receiver<()>) {
    tokio::sync::oneshot::channel()
}

/// Relies on tokio::sync::oneshot::Sender::send: whether it succeeds
/// depends on whether the receiver still listens, so nothing more is
/// promised of the result.
#[verifier::external_body]
pub fn send_wake(tx: tokio::sync::oneshot::Sender<()>) -> bool {
    tx.send(()).is_ok()
}

} // verus!
