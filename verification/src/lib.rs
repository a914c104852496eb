//! A circular singly-linked list over an arena of caller-visible nodes.
//!
//! Nodes live in a growable table inside the list and are named by stable
//! integer handles; each node carries a single forward link. A list is a ring:
//! following the links from the head returns to the head after visiting every
//! member exactly once. The tail is named directly by the list's sentinel; the
//! head is the tail's successor. This gives O(1) insertion and removal at the
//! head, O(1) insertion at the tail, and O(n) removal at the tail, since no
//! backward links exist.

pub mod list;
pub mod laws;

pub use crate::list::Link;
pub use crate::list::List;
