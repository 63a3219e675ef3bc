//! A hierarchical task store: a forest of named nodes that may be shared
//! (one node under several parents), with per-node due dates and time
//! sessions. Sibling order is significant; each parent's child list is a
//! doubly-linked list threaded through a parentage index keyed by
//! (child, parent). This crate holds the index layer and the structural
//! algorithms over it; durable storage is layered on top by embedders.

use vstd::prelude::*;

pub mod assoc;
pub mod reader;
pub mod store;
pub mod writer;

verus! {

/// Error returned when an index entry that the structural algorithms
/// rely on is absent: the store contents do not form a well-shaped tree.
#[derive(Clone, Copy, PartialEq, Eq, Structural, Debug)]
pub enum Error {
    Corrupted,
}

/// A parentage record for one (child, parent) edge: within the parent's
/// sibling list, `next` is the id after the child and `prev` the id before
/// it; 0 marks the list boundary.
#[derive(Clone, Copy, PartialEq, Eq, Structural, Debug)]
pub struct RTriple {
    pub pid: u64,
    pub next: u64,
    pub prev: u64,
}

/// A time interval attached to a node, as two timestamps (seconds).
#[derive(Clone, Copy, PartialEq, Eq, Structural, Debug)]
pub struct Session {
    pub start: i64,
    pub end: i64,
}

/// Total order on sessions: lexicographic over (start, end).
pub open spec fn sess_le(a: Session, b: Session) -> bool {
    a.start < b.start || (a.start == b.start && a.end <= b.end)
}

/// Total order on the global session index entries: lexicographic over
/// (session, node id).
pub open spec fn sess_id_le(a: (Session, u64), b: (Session, u64)) -> bool {
    (sess_le(a.0, b.0) && a.0 != b.0) || (a.0 == b.0 && a.1 <= b.1)
}

} // verus!
