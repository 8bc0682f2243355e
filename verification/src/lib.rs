//! A local-first video queueing library: an ordered queue of pending items,
//! an append-only history journal partitioned by calendar month, and a
//! metadata cache keyed by item id, together with the pure logic that the
//! command-line front end drives.
//!
//! The library owns the on-disk text representations (one document per
//! store) and every decision that the store makes; the thin binary around
//! it performs the file reads, writes and advisory locking.

pub mod calendar;
pub mod codec;
pub mod config;
pub mod fetch;
pub mod journal;
pub mod metacache;
pub mod model;
pub mod normalize;
pub mod numbers;
pub mod paths;
pub mod queue;
pub mod range;
pub mod store;
pub mod text;
pub mod util;
