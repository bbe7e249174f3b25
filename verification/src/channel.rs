//! The per-client outbound channel: each client owns one receiving half;
//! the registry holds only lightweight sending handles to enqueue
//! outbound events, never the queue itself.

use vstd::prelude::*;

verus! {

/// What the relay puts on a client's outbound channel: a text payload to
/// deliver, or the signal to close the connection.
pub enum OutboundEvent {
    Text(String),
    Close,
}

/// Declares tokio's `mpsc::UnboundedSender` so that the registry can
/// hold per-client sending handles. The type is opaque here: nothing is
/// assumed of the channel it feeds.
#[verifier::external_type_specification]
#[verifier::external_body]
#[verifier::reject_recursive_types(T)]
pub struct ExUnboundedSender<T>(tokio::sync::mpsc::UnboundedSender<T>);

/// Relies on tokio's `UnboundedSender::send`: enqueues without blocking
/// and fails only when the receiving half is gone. Nothing is promised
/// of the shared channel state.
#[verifier::external_body]
pub fn send_event(c: &tokio::sync::mpsc::UnboundedSender<OutboundEvent>, e: OutboundEvent) -> (ok:
    bool) {
    c.send(e).is_ok()
}

} // verus!
