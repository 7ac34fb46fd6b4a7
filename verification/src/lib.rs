//! A verified panel-docking engine: a tree of tabbed and split regions
//! ("tiles") holding panel content, a registry of detached floating panels,
//! and a deferred event queue whose processor moves panels between the two
//! while preserving the structural invariants of both.

pub mod panel;
pub mod tiles;
pub mod tree;
pub mod floating;
pub mod events;
pub mod session;
pub mod laws;
