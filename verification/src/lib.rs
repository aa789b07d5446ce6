//! An ordered in-memory map built from linked nodes, with logical (tombstone)
//! deletion, deferred reclamation of unlinked nodes, and a multi-level index
//! for sub-linear search.
//!
//! Nodes live in an arena owned by each structure and are addressed by stable
//! handles; every link is an explicit slot value. This makes the whole
//! insert / lookup / two-phase-remove protocol, and the reclamation rules,
//! checkable by the verifier.

pub mod epoch;
pub mod list;
pub mod skiplist;
pub mod slot;
pub mod stack;
