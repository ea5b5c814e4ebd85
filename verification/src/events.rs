//! Mutation events and their mathematical image.

use vstd::prelude::*;

verus! {

/// A structured notification of one committed mutation, delivered to an
/// external observer through the event queue.
#[derive(Debug)]
pub enum GraphEvent {
    /// A label was inserted into the registry for the first time.
    NodeAdded(String),
    /// A directed edge (parent label, child label) was inserted.
    EdgeAdded(String, String),
}

/// The mathematical image of a `GraphEvent`: labels as character sequences.
pub enum EventView {
    NodeAdded(Seq<char>),
    EdgeAdded(Seq<char>, Seq<char>),
}

impl View for GraphEvent {
    type V = EventView;

    open spec fn view(&self) -> EventView {
        match self {
            GraphEvent::NodeAdded(l) => EventView::NodeAdded(l@),
            GraphEvent::EdgeAdded(p, c) => EventView::EdgeAdded(p@, c@),
        }
    }
}

} // verus!
