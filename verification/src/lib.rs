//! A conflict-based dependency scheduler.
//!
//! Tasks declare which resources they read and which they write. From an
//! ordered sequence of such tasks the library builds a dependency graph
//! (a later task waits on every earlier task it conflicts with) and groups
//! the tasks into execution levels: ordered batches whose members are
//! mutually conflict-free and whose dependencies all lie in earlier
//! batches, so each batch may run in parallel while the whole run stays
//! equivalent to the original sequential order.

pub mod dep_graph;
pub mod types;
