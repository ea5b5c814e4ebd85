//! The event queue: an unbounded multi-producer/single-consumer channel of
//! `GraphEvent` values, provided by tokio. The two wrappers below are the
//! only places where the library touches it; everything said about delivery
//! is said over their results.

use vstd::prelude::*;
use crate::events::GraphEvent;

verus! {

#[verifier::external_type_specification]
#[verifier::external_body]
#[verifier::reject_recursive_types(T)]
pub struct ExUnboundedSender<T>(tokio::sync::mpsc::UnboundedSender<T>);

#[verifier::external_type_specification]
#[verifier::external_body]
#[verifier::reject_recursive_types(T)]
pub struct ExUnboundedReceiver<T>(tokio::sync::mpsc::UnboundedReceiver<T>);

/// Relies on tokio's `mpsc::unbounded_channel`: it returns the two halves of
/// a fresh unbounded channel. Nothing about the channel's content can be
/// stated here; what the graph has handed to it is tracked in ghost state by
/// the caller.
#[verifier::external_body]
pub(crate) fn new_event_channel() -> (
    tokio::sync::mpsc::UnboundedSender<GraphEvent>,
    tokio::sync::mpsc::UnboundedReceiver<GraphEvent>,
) {
    tokio::sync::mpsc::unbounded_channel()
}

/// Relies on tokio's `UnboundedSender::send`: it never blocks, enqueues the
/// message and returns `Ok` when the receive half is still open, and returns
/// the message back as an error when the receiver was dropped or closed.
/// Which of the two happens depends on the observer, so nothing more than
/// the boolean outcome is stated.
#[verifier::external_body]
pub(crate) fn send_event(
    tx: &tokio::sync::mpsc::UnboundedSender<GraphEvent>,
    ev: GraphEvent,
) -> bool {
    tx.send(ev).is_ok()
}

} // verus!
