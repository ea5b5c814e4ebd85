//! An in-memory directed graph keyed by string labels, meant as the shared
//! state of a process that discovers nodes and edges incrementally (for
//! example a crawler populating a link graph) while other tasks observe it.
//!
//! The registry of nodes is the sole owner of every node; children lists hold
//! non-owning references, here represented as labels resolved through the
//! registry on every read, so that cycles and self-loops are permitted and a
//! removed registry entry silently disappears from every adjacency snapshot.
//! Mutations can be announced on an unbounded event queue in a fixed
//! per-call order.
//!
//! Every mutation takes the graph by exclusive reference: the borrow is the
//! critical section, and each operation is one atomic step of the specified
//! transition system. Concurrent callers share the graph by putting it
//! behind a lock of their choosing and handing each call exclusive access
//! for its duration; every guarantee stated here then holds for any
//! interleaving of such calls, because each one sees and leaves a
//! well-formed state.

pub mod events;
pub mod model;
pub mod channel;
pub mod graph;
pub mod laws;
