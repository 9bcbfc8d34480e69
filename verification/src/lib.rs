//! Keeps a bounded "recent activity" playlist in step with a user's most
//! recently added tracks across all of their playlists on a remote catalog
//! service.
//!
//! The library holds the synchronisation engine itself: traversal of
//! paginated listings, aggregation across source collections,
//! identity-based deduplication and recency ordering, the add/remove diff
//! against the target collection, and the batching of mutations. Remote
//! reads and writes are the caller's business; every function here works
//! on plain values and carries a verified contract.

pub mod aggregate;
pub mod apply;
pub mod canonical;
pub mod diff;
pub mod model;
pub mod sync;
pub mod traverse;

pub use model::PlayableOccurrence;
pub use model::TrackRef;
