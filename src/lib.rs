//! Deferred reclamation for latency-critical code.
//!
//! Allocations are owned by a [`Collector`]. The smart pointers [`Owned`] and
//! [`Shared`] never free their payload when they are given up: the node goes
//! onto the collector's intrusive drop queue, and the payload is dropped later,
//! when the owner of the collector calls [`Collector::collect`] or
//! [`Collector::collect_one`]. [`SharedCell`] is a slot that holds one
//! [`Shared`] reference and hands out further references to it.
//!
//! The collector keeps its nodes in an arena indexed by `usize`; a node's index
//! plays the part of its address. Every operation that touches a node takes the
//! collector, so that the whole state is described by [`CollectorView`] and
//! each operation by a spec function on it.

mod collector;
mod owned;
mod shared;
mod shared_cell;

pub use collector::{Collector, CollectorView, Handle, Node};
pub use owned::Owned;
pub use shared::{acquired, lemma_acquire_then_release, lemma_release_counts, released, Shared, SharedInner};
pub use shared_cell::{lemma_set_after_replace, SharedCell};
